//! A flat table of positions, for spreadsheets.

use crate::json;
use crate::json::{content, optional_content, rendered, Json};
use crate::text;
use crate::text::without_leading;
use vstd::prelude::*;

verus! {

/// Whether a text would start a formula in a spreadsheet.
pub open spec fn starts_formula(s: Seq<char>) -> bool {
    let body = without_leading(s);
    ||| body.len() > 0 && (body[0] == '=' || body[0] == '+' || body[0] == '-' || body[0] == '@')
    ||| s.len() > 0 && (s[0] == '\t' || s[0] == '\r' || s[0] == '\n')
}

/// A text with every quotation mark doubled.
pub open spec fn doubled(s: Seq<char>) -> Seq<char>
    decreases s.len(),
{
    if s.len() == 0 {
        Seq::empty()
    } else if s.last() == '"' {
        doubled(s.drop_last()).push('"').push('"')
    } else {
        doubled(s.drop_last()).push(s.last())
    }
}

/// A text as a cell: in quotation marks, and kept from being taken for a formula.
pub open spec fn text_cell(s: Seq<char>) -> Seq<char> {
    let guard = if starts_formula(s) {
        "'"@
    } else {
        Seq::empty()
    };
    "\""@ + guard + doubled(s) + "\""@
}

/// A text as a cell: in quotation marks, and kept from being taken for a formula.
pub fn csv_text(value: &str) -> (r: String)
    ensures
        r@ == text_cell(value@),
{
    let v = text::letters(value);
    let lead = text::leading(&v);
    let ghost body = without_leading(v@);
    let mut protect = false;
    if lead < v.len() {
        assert(body[0] == v@[lead as int]);
        let c = v[lead];
        protect = c == '=' || c == '+' || c == '-' || c == '@';
    }
    if v.len() > 0 && (v[0] == '\t' || v[0] == '\r' || v[0] == '\n') {
        protect = true;
    }
    let mut out = "\"".to_owned();
    if protect {
        out.append("'");
    }
    let ghost head = out@;
    assert(head =~= "\""@ + (if starts_formula(value@) {
        "'"@
    } else {
        Seq::empty()
    }));
    assert(out@ =~= head + doubled(v@.take(0)));
    for n in 0..v.len()
        invariant
            v@ == value@,
            out@ == head + doubled(v@.take(n as int)),
    {
        assert(v@.take(n + 1).drop_last() =~= v@.take(n as int));
        assert(v@.take(n + 1).last() == v@[n as int]);
        let ghost before = doubled(v@.take(n as int));
        if v[n] == '"' {
            out.push('"');
            out.push('"');
            assert(out@ =~= head + before.push('"').push('"'));
        } else {
            out.push(v[n]);
            assert(out@ =~= head + before.push(v@[n as int]));
        }
    }
    assert(v@.take(v@.len() as int) =~= v@);
    out.append("\"");
    out
}

/// A text with every pair of quotation marks made one.
pub open spec fn halved(s: Seq<char>) -> Seq<char>
    decreases s.len(),
{
    if s.len() == 0 {
        Seq::empty()
    } else if s.last() == '"' && s.len() >= 2 && s[s.len() - 2] == '"' {
        halved(s.drop_last().drop_last()).push('"')
    } else {
        halved(s.drop_last()).push(s.last())
    }
}

/// A cell gives back its text: what stands between its quotation marks, without the guard, with
/// pairs of quotation marks made one.
pub proof fn lemma_cell_gives_back_text(s: Seq<char>)
    ensures
        ({
            let cell = text_cell(s);
            let start: int = if starts_formula(s) {
                2
            } else {
                1
            };
            &&& cell.len() >= start + 1
            &&& cell[0] == '"'
            &&& cell.last() == '"'
            &&& starts_formula(s) ==> cell[1] == '\''
            &&& halved(cell.subrange(start, cell.len() - 1)) == s
        }),
{
    reveal_strlit("\"");
    reveal_strlit("'");
    lemma_halved(s);
    let cell = text_cell(s);
    if starts_formula(s) {
        assert(cell.subrange(2, cell.len() - 1) =~= doubled(s));
    } else {
        assert(cell.subrange(1, cell.len() - 1) =~= doubled(s));
    }
}

/// What a spreadsheet shows of a cell: the text, behind the guard where there is one.
pub open spec fn shown(s: Seq<char>) -> Seq<char> {
    if starts_formula(s) {
        "'"@ + s
    } else {
        s
    }
}

/// No text becomes a formula: what stands between the quotation marks of a cell never starts one.
pub proof fn lemma_cell_is_no_formula(s: Seq<char>)
    ensures
        ({
            let cell = text_cell(s);
            &&& halved(cell.subrange(1, cell.len() - 1)) == shown(s)
            &&& !starts_formula(shown(s))
        }),
{
    reveal_strlit("\"");
    reveal_strlit("'");
    lemma_halved(shown(s));
    let cell = text_cell(s);
    if starts_formula(s) {
        lemma_doubled_behind(s);
        assert("'"@ =~= seq!['\'']);
        assert(cell.subrange(1, cell.len() - 1) =~= doubled(shown(s)));
        assert(without_leading(shown(s)) == shown(s));
    } else {
        assert(cell.subrange(1, cell.len() - 1) =~= doubled(s));
    }
}

proof fn lemma_doubled_behind(s: Seq<char>)
    ensures
        doubled(seq!['\''] + s) == seq!['\''] + doubled(s),
    decreases s.len(),
{
    let t = seq!['\''] + s;
    if s.len() == 0 {
        assert(t =~= seq!['\'']);
        assert(t.drop_last() =~= Seq::<char>::empty());
        assert(doubled(t.drop_last()) == Seq::<char>::empty());
        assert(doubled(t) =~= seq!['\''] + doubled(s));
    } else {
        lemma_doubled_behind(s.drop_last());
        assert(t.drop_last() =~= seq!['\''] + s.drop_last());
        assert(t.last() == s.last());
        assert(doubled(t) =~= seq!['\''] + doubled(s));
    }
}

proof fn lemma_halved(s: Seq<char>)
    ensures
        halved(doubled(s)) == s,
    decreases s.len(),
{
    if s.len() == 0 {
        assert(halved(doubled(s)) =~= s);
    } else {
        let rest = s.drop_last();
        lemma_halved(rest);
        let d = doubled(rest);
        assert(s =~= rest.push(s.last()));
        if s.last() == '"' {
            let t = d.push('"').push('"');
            assert(t.drop_last().drop_last() =~= d);
            assert(t[t.len() - 2] == '"');
        } else {
            let t = d.push(s.last());
            assert(t.drop_last() =~= d);
        }
    }
}

/// The columns of the table: a name, and where its value stands, from the outside in.
pub const CSV_COLUMNS: [(&'static str, &'static str, &'static str, &'static str); 53] = [
    ("id", "id", "", ""),
    ("exchange", "exchange", "", ""),
    ("symbol", "symbol", "", ""),
    ("config_id", "config_id", "", ""),
    ("strategy", "strategy", "", ""),
    ("horizon_secs", "horizon_secs", "", ""),
    ("direction", "direction", "", ""),
    ("created_at_utc_ms", "created_at", "", ""),
    ("resolved_at_utc_ms", "resolved_at", "", ""),
    ("status", "status", "", ""),
    ("outcome", "diagnosis", "outcome", ""),
    ("entry_price", "entry_price", "", ""),
    ("target_price", "target_price", "", ""),
    ("stop_price", "stop_price", "", ""),
    ("exit_price", "exit_price", "", ""),
    ("gross_pnl_bps", "gross_pnl_bps", "", ""),
    ("net_pnl_bps_legacy_gross", "pnl_bps", "", ""),
    ("net_pnl_quote", "diagnosis", "net_pnl_quote", ""),
    ("notional_quote", "notional", "", ""),
    ("fee_bps_per_side", "fee_bps", "", ""),
    ("slippage_bps_per_side", "slippage_bps", "", ""),
    ("fees_paid_bps", "diagnosis", "fees_paid_bps", ""),
    ("fees_changed_profit_to_loss", "diagnosis", "fees_changed_profit_to_loss", ""),
    ("held_ms", "diagnosis", "held_ms", ""),
    ("exit_reason", "diagnosis", "exit_reason", ""),
    ("exit_reason_source", "diagnosis", "exit_reason_source", ""),
    ("entry_reason", "entry_reason", "", ""),
    ("score_not_probability", "score", "", ""),
    ("expected_return_fraction_see_config", "expected_return", "", ""),
    ("entry_evidence", "diagnosis", "entry_evidence", ""),
    ("path_evidence", "diagnosis", "path_evidence", ""),
    ("target_net_bps", "diagnosis", "target_net_bps", ""),
    ("stop_net_bps_at_level", "diagnosis", "stop_net_bps_at_level", ""),
    ("planned_net_reward_risk", "diagnosis", "planned_net_reward_risk", ""),
    ("best_observed_net_bps", "diagnosis", "best_observed_net_bps", ""),
    ("worst_observed_net_bps", "diagnosis", "worst_observed_net_bps", ""),
    ("gave_back_observed_profit", "diagnosis", "gave_back_observed_profit", ""),
    ("max_observed_gap_ms", "execution_audit", "max_observed_gap_ms", ""),
    ("quotes_observed", "execution_audit", "quotes_observed", ""),
    ("illiquid_quotes", "execution_audit", "illiquid_quotes", ""),
    ("entry_spread_bps", "entry_snapshot", "execution", "spread_bps"),
    ("entry_quote_age_ms", "entry_snapshot", "execution", "quote_age_ms"),
    ("ret_15s", "entry_snapshot", "features", "ret_15s"),
    ("ret_60s", "entry_snapshot", "features", "ret_60s"),
    ("ret_300s", "entry_snapshot", "features", "ret_300s"),
    ("flow_60s", "entry_snapshot", "features", "flow_60s"),
    ("book_imbalance_60s", "entry_snapshot", "features", "book_imbalance_60s"),
    ("volatility_60s", "entry_snapshot", "features", "volatility_60s"),
    ("trend_efficiency", "entry_snapshot", "features", "trend_efficiency"),
    ("volume_ratio", "entry_snapshot", "features", "volume_ratio"),
    ("peer_score", "entry_snapshot", "peer", "microstructure_score"),
    ("entry_snapshot_json", "entry_snapshot", "", ""),
    ("execution_audit_json", "execution_audit", "", ""),
];

/// The member of a value, or the value itself where the name is empty.
pub open spec fn inward(value: Option<Json>, key: Seq<char>) -> Option<Json> {
    if key.len() == 0 {
        value
    } else {
        match value {
            Some(v) => v.member(key),
            None => None,
        }
    }
}

/// A value as a cell: numbers and booleans as they are, text and anything else as text.
pub open spec fn value_cell(value: Option<Json>) -> Seq<char> {
    match value {
        None | Some(Json::Null) => Seq::empty(),
        Some(Json::Text(s)) => text_cell(s),
        Some(Json::Number(n)) => rendered(Json::Number(n)),
        Some(Json::Flag(b)) => rendered(Json::Flag(b)),
        Some(v) => text_cell(rendered(v)),
    }
}

/// The cell of a column in a row.
pub open spec fn column_cell(row: Json, column: (&str, &str, &str, &str)) -> Seq<char> {
    value_cell(inward(inward(inward(Some(row), column.1@), column.2@), column.3@))
}

/// The parameters under which a configuration is listed: the last one of that identifier.
pub open spec fn parameters_of(configurations: Seq<Json>, id: Seq<char>) -> Option<Json>
    decreases configurations.len(),
{
    if configurations.len() == 0 {
        None
    } else {
        let c = configurations.last();
        if inward(Some(c), "id"@) is Some && inward(Some(c), "id"@)->0.text() == Some(id) {
            match c.member("parameters"@) {
                Some(p) => Some(p),
                None => Some(Json::Null),
            }
        } else {
            parameters_of(configurations.drop_last(), id)
        }
    }
}

/// The first `n` cells of a row, each with a comma behind it.
pub open spec fn row_cells(row: Json, n: int) -> Seq<char>
    decreases n,
{
    if n <= 0 {
        Seq::empty()
    } else {
        row_cells(row, n - 1) + column_cell(row, CSV_COLUMNS@[n - 1]) + ","@
    }
}

/// The first `n` column names, each with a comma behind it.
pub open spec fn header_cells(n: int) -> Seq<char>
    decreases n,
{
    if n <= 0 {
        Seq::empty()
    } else {
        header_cells(n - 1) + CSV_COLUMNS@[n - 1].0@ + ","@
    }
}

/// The cell of the configuration of a row.
pub open spec fn config_cell(configurations: Seq<Json>, id: Seq<char>) -> Seq<char> {
    match parameters_of(configurations, id) {
        Some(p) => text_cell(rendered(p)),
        None => Seq::empty(),
    }
}

/// The lines of the first `n` rows.
pub open spec fn lines(
    rows: Seq<(Seq<char>, Json)>,
    configurations: Seq<Json>,
) -> Seq<char>
    decreases rows.len(),
{
    if rows.len() == 0 {
        Seq::empty()
    } else {
        lines(rows.drop_last(), configurations) + row_cells(rows.last().1, 53) + config_cell(
            configurations,
            rows.last().0,
        ) + "\r\n"@
    }
}

/// A position as a row: the identifier of its configuration, and all that is known of it.
pub struct CsvRow {
    pub config_id: String,
    pub value: serde_json::Value,
}

/// What rows say.
pub open spec fn row_views(rows: Seq<CsvRow>) -> Seq<(Seq<char>, Json)> {
    Seq::new(rows.len(), |i: int| (rows[i].config_id@, content(rows[i].value)))
}

/// What values hold.
pub open spec fn contents(values: Seq<serde_json::Value>) -> Seq<Json> {
    Seq::new(values.len(), |i: int| content(values[i]))
}

/// The member of a value, or the value itself where the name is empty.
fn enter<'a>(value: Option<&'a serde_json::Value>, key: &str) -> (r: Option<
    &'a serde_json::Value,
>)
    ensures
        optional_content(r) == inward(optional_content(value), key@),
{
    if key.is_empty() {
        value
    } else {
        match value {
            Some(v) => json::member(v, key),
            None => None,
        }
    }
}

/// A value as a cell.
fn cell_of(value: Option<&serde_json::Value>) -> (r: String)
    ensures
        r@ == value_cell(optional_content(value)),
{
    match value {
        None => String::new(),
        Some(v) => {
            if json::is_null(v) {
                return String::new();
            }
            if let Some(s) = json::text_of(v) {
                return csv_text(s);
            }
            let plain = json::render(v);
            if json::is_number(v) || json::flag_of(v).is_some() {
                plain
            } else {
                csv_text(plain.as_str())
            }
        },
    }
}

/// The cell of the configuration of a row.
fn configuration_cell(configurations: &Vec<serde_json::Value>, id: &str) -> (r: String)
    ensures
        r@ == config_cell(contents(configurations@), id@),
{
    let ghost all = contents(configurations@);
    let mut n: usize = configurations.len();
    assert(all.take(n as int) =~= all);
    while n > 0
        invariant
            n <= configurations@.len(),
            all == contents(configurations@),
            parameters_of(all.take(n as int), id@) == parameters_of(all, id@),
        decreases n,
    {
        n -= 1;
        let c = &configurations[n];
        assert(all.take(n + 1).last() == content(*c));
        assert(all.take(n + 1).drop_last() =~= all.take(n as int));
        proof {
            reveal_strlit("id");
        }
        if let Some(found) = json::member(c, "id") {
            if let Some(name) = json::text_of(found) {
                if text::same(name, id) {
                    return match json::member(c, "parameters") {
                        Some(p) => csv_text(json::render(p).as_str()),
                        None => csv_text(json::render(&json::null()).as_str()),
                    };
                }
            }
        }
    }
    String::new()
}

/// The table of rows, for spreadsheets: a byte order mark, the names of the columns, and a line
/// for each row with the parameters of its configuration.
pub fn csv(rows: &Vec<CsvRow>, configurations: &Vec<serde_json::Value>) -> (r: String)
    ensures
        r@ == "\u{feff}"@ + header_cells(53) + "configuration_json\r\n"@ + lines(
            row_views(rows@),
            contents(configurations@),
        ),
{
    let mut out = "\u{feff}".to_owned();
    assert(out@ =~= "\u{feff}"@ + header_cells(0));
    for k in 0..53usize
        invariant
            out@ == "\u{feff}"@ + header_cells(k as int),
    {
        out.append(CSV_COLUMNS[k].0);
        out.append(",");
        assert(out@ =~= "\u{feff}"@ + header_cells(k + 1));
    }
    out.append("configuration_json\r\n");
    let ghost head = out@;
    let ghost all = row_views(rows@);
    let ghost configs = contents(configurations@);
    assert(out@ =~= head + lines(all.take(0), configs));
    for n in 0..rows.len()
        invariant
            all == row_views(rows@),
            configs == contents(configurations@),
            out@ == head + lines(all.take(n as int), configs),
    {
        let row = &rows[n];
        let ghost before = out@;
        let ghost value = content(row.value);
        assert(all.take(n + 1).last() == (row.config_id@, value));
        assert(all.take(n + 1).drop_last() =~= all.take(n as int));
        assert(out@ =~= before + row_cells(value, 0));
        for k in 0..53usize
            invariant
                value == content(row.value),
                out@ == before + row_cells(value, k as int),
        {
            let column = CSV_COLUMNS[k];
            let found = enter(enter(enter(Some(&row.value), column.1), column.2), column.3);
            let cell = cell_of(found);
            out.append(cell.as_str());
            out.append(",");
            assert(out@ =~= before + row_cells(value, k + 1));
        }
        let config = configuration_cell(configurations, row.config_id.as_str());
        out.append(config.as_str());
        out.append("\r\n");
        assert(out@ =~= head + lines(all.take(n + 1), configs));
    }
    assert(all.take(all.len() as int) =~= all);
    out
}

} // verus!
