//! The query for an export, and which configurations go with it.

use crate::export::group::is_configuration;
use crate::export::{ExportFilters, FiltersView, MAX_EXPORT_POSITIONS};
use crate::json;
use crate::json::{content, members_of, parsed, Json, JsonNumber, Unreadable};
use crate::model::{optional, views, Prediction, PredictionView};
use crate::text;
use vstd::prelude::*;

verus! {

/// A part of a query: words of it, or a value bound at that place.
#[derive(Debug, Clone)]
pub enum Part {
    Sql(&'static str),
    Text(String),
    Number(i64),
}

/// What a part of a query says.
pub enum PartView {
    Sql(Seq<char>),
    Text(Seq<char>),
    Number(int),
}

impl View for Part {
    type V = PartView;

    open spec fn view(&self) -> PartView {
        match self {
            Part::Sql(words) => PartView::Sql(words@),
            Part::Text(value) => PartView::Text(value@),
            Part::Number(value) => PartView::Number(*value as int),
        }
    }
}

/// The views of parts.
pub open spec fn part_views(parts: Seq<Part>) -> Seq<PartView> {
    parts.map_values(|p: Part| p@)
}

/// A condition on a column of texts, where there is one.
pub open spec fn text_condition(words: Seq<char>, value: Option<Seq<char>>) -> Seq<PartView> {
    match value {
        Some(text) => seq![PartView::Sql(words), PartView::Text(text)],
        None => seq![],
    }
}

/// A condition on a column of numbers, where there is one.
pub open spec fn number_condition(words: Seq<char>, value: Option<i64>) -> Seq<PartView> {
    match value {
        Some(n) => seq![PartView::Sql(words), PartView::Number(n as int)],
        None => seq![],
    }
}

/// The query for the positions that filters select: oldest first, with one more than an export
/// may hold, so that too many can be told. What comes from whoever asks is bound, never part of
/// the words.
pub open spec fn query_for(f: FiltersView) -> Seq<PartView> {
    seq![PartView::Sql("SELECT * FROM predictions WHERE 1=1"@)] + text_condition(
        " AND exchange = "@,
        match f.exchange {
            Some(e) => Some(e.spec_name()),
            None => None,
        },
    ) + text_condition(" AND symbol = "@, f.symbol) + text_condition(
        " AND strategy = "@,
        f.strategy,
    ) + text_condition(" AND config_id = "@, f.config_id) + text_condition(
        " AND status = "@,
        f.status,
    ) + number_condition(" AND horizon_secs = "@, f.horizon_secs) + number_condition(
        " AND created_at >= "@,
        f.from_ms,
    ) + number_condition(" AND created_at < "@, f.to_ms) + seq![
        PartView::Sql(" ORDER BY created_at, id LIMIT "@),
        PartView::Number(MAX_EXPORT_POSITIONS + 1),
    ]
}

fn push_text(parts: &mut Vec<Part>, words: &'static str, value: &Option<String>)
    ensures
        part_views(final(parts)@) == part_views(old(parts)@) + text_condition(
            words@,
            optional(*value),
        ),
{
    let ghost before = part_views(parts@);
    if let Some(text) = value {
        parts.push(Part::Sql(words));
        parts.push(Part::Text(text.clone()));
    }
    assert(part_views(parts@) =~= before + text_condition(words@, optional(*value)));
}

fn push_number(parts: &mut Vec<Part>, words: &'static str, value: Option<i64>)
    ensures
        part_views(final(parts)@) == part_views(old(parts)@) + number_condition(words@, value),
{
    let ghost before = part_views(parts@);
    if let Some(n) = value {
        parts.push(Part::Sql(words));
        parts.push(Part::Number(n));
    }
    assert(part_views(parts@) =~= before + number_condition(words@, value));
}

/// The query for the positions that filters select.
pub fn export_query(filters: &ExportFilters) -> (r: Vec<Part>)
    ensures
        part_views(r@) == query_for(filters@),
{
    let mut parts: Vec<Part> = Vec::new();
    parts.push(Part::Sql("SELECT * FROM predictions WHERE 1=1"));
    let exchange = match filters.exchange {
        Some(e) => Some(e.name().to_owned()),
        None => None,
    };
    assert(part_views(parts@) =~= seq![
        PartView::Sql("SELECT * FROM predictions WHERE 1=1"@),
    ]);
    push_text(&mut parts, " AND exchange = ", &exchange);
    push_text(&mut parts, " AND symbol = ", &filters.symbol);
    push_text(&mut parts, " AND strategy = ", &filters.strategy);
    push_text(&mut parts, " AND config_id = ", &filters.config_id);
    push_text(&mut parts, " AND status = ", &filters.status);
    push_number(&mut parts, " AND horizon_secs = ", filters.horizon_secs);
    push_number(&mut parts, " AND created_at >= ", filters.from_ms);
    push_number(&mut parts, " AND created_at < ", filters.to_ms);
    let ghost before = part_views(parts@);
    parts.push(Part::Sql(" ORDER BY created_at, id LIMIT "));
    parts.push(Part::Number(MAX_EXPORT_POSITIONS + 1));
    assert(part_views(parts@) =~= before + seq![
        PartView::Sql(" ORDER BY created_at, id LIMIT "@),
        PartView::Number(MAX_EXPORT_POSITIONS + 1),
    ]);
    parts
}

/// The words of a query, with nothing of the bound values.
pub open spec fn words(parts: Seq<PartView>) -> Seq<Seq<char>>
    decreases parts.len(),
{
    if parts.len() == 0 {
        seq![]
    } else {
        let before = words(parts.drop_last());
        match parts.last() {
            PartView::Sql(w) => before.push(w),
            _ => before,
        }
    }
}

/// Whether two filters ask about the same columns, of whatever values.
pub open spec fn same_columns(f: FiltersView, g: FiltersView) -> bool {
    &&& f.exchange is Some <==> g.exchange is Some
    &&& f.symbol is Some <==> g.symbol is Some
    &&& f.strategy is Some <==> g.strategy is Some
    &&& f.horizon_secs is Some <==> g.horizon_secs is Some
    &&& f.status is Some <==> g.status is Some
    &&& f.config_id is Some <==> g.config_id is Some
    &&& f.from_ms is Some <==> g.from_ms is Some
    &&& f.to_ms is Some <==> g.to_ms is Some
}

proof fn lemma_words_concat(a: Seq<PartView>, b: Seq<PartView>)
    ensures
        words(a + b) == words(a) + words(b),
    decreases b.len(),
{
    if b.len() == 0 {
        assert(a + b =~= a);
        assert(words(a) + words(b) =~= words(a));
    } else {
        lemma_words_concat(a, b.drop_last());
        assert((a + b).drop_last() =~= a + b.drop_last());
        match b.last() {
            PartView::Sql(w) => {
                assert((words(a) + words(b.drop_last())).push(w) =~= words(a) + words(
                    b.drop_last(),
                ).push(w));
            },
            _ => {},
        }
    }
}

proof fn lemma_words_of_pair(w: Seq<char>, value: PartView)
    requires
        !(value is Sql),
    ensures
        words(seq![PartView::Sql(w), value]) == seq![w],
{
    let pair = seq![PartView::Sql(w), value];
    assert(pair.drop_last() =~= seq![PartView::Sql(w)]);
    assert(pair.drop_last().drop_last() =~= Seq::<PartView>::empty());
    reveal_with_fuel(words, 3);
    assert(words(pair) =~= seq![w]);
}

proof fn lemma_words_of_text(w: Seq<char>, a: Option<Seq<char>>, b: Option<Seq<char>>)
    requires
        a is Some <==> b is Some,
    ensures
        words(text_condition(w, a)) == words(text_condition(w, b)),
{
    if a is Some {
        lemma_words_of_pair(w, PartView::Text(a->0));
        lemma_words_of_pair(w, PartView::Text(b->0));
    }
}

proof fn lemma_words_of_number(w: Seq<char>, a: Option<i64>, b: Option<i64>)
    requires
        a is Some <==> b is Some,
    ensures
        words(number_condition(w, a)) == words(number_condition(w, b)),
{
    if a is Some {
        lemma_words_of_pair(w, PartView::Number(a->0 as int));
        lemma_words_of_pair(w, PartView::Number(b->0 as int));
    }
}

/// The words of a query depend on which filters there are, never on what they hold: whatever
/// text is asked for cannot become part of the query.
pub proof fn lemma_values_are_bound(f: FiltersView, g: FiltersView)
    requires
        same_columns(f, g),
    ensures
        words(query_for(f)) == words(query_for(g)),
{
    let start = seq![PartView::Sql("SELECT * FROM predictions WHERE 1=1"@)];
    let end = seq![
        PartView::Sql(" ORDER BY created_at, id LIMIT "@),
        PartView::Number(MAX_EXPORT_POSITIONS + 1),
    ];
    let f0 = match f.exchange {
        Some(e) => Some(e.spec_name()),
        None => None,
    };
    let g0 = match g.exchange {
        Some(e) => Some(e.spec_name()),
        None => None,
    };
    let f1 = start + text_condition(" AND exchange = "@, f0);
    let g1 = start + text_condition(" AND exchange = "@, g0);
    let f2 = f1 + text_condition(" AND symbol = "@, f.symbol);
    let g2 = g1 + text_condition(" AND symbol = "@, g.symbol);
    let f3 = f2 + text_condition(" AND strategy = "@, f.strategy);
    let g3 = g2 + text_condition(" AND strategy = "@, g.strategy);
    let f4 = f3 + text_condition(" AND config_id = "@, f.config_id);
    let g4 = g3 + text_condition(" AND config_id = "@, g.config_id);
    let f5 = f4 + text_condition(" AND status = "@, f.status);
    let g5 = g4 + text_condition(" AND status = "@, g.status);
    let f6 = f5 + number_condition(" AND horizon_secs = "@, f.horizon_secs);
    let g6 = g5 + number_condition(" AND horizon_secs = "@, g.horizon_secs);
    let f7 = f6 + number_condition(" AND created_at >= "@, f.from_ms);
    let g7 = g6 + number_condition(" AND created_at >= "@, g.from_ms);
    let f8 = f7 + number_condition(" AND created_at < "@, f.to_ms);
    let g8 = g7 + number_condition(" AND created_at < "@, g.to_ms);
    lemma_words_of_text(" AND exchange = "@, f0, g0);
    lemma_words_of_text(" AND symbol = "@, f.symbol, g.symbol);
    lemma_words_of_text(" AND strategy = "@, f.strategy, g.strategy);
    lemma_words_of_text(" AND config_id = "@, f.config_id, g.config_id);
    lemma_words_of_text(" AND status = "@, f.status, g.status);
    lemma_words_of_number(" AND horizon_secs = "@, f.horizon_secs, g.horizon_secs);
    lemma_words_of_number(" AND created_at >= "@, f.from_ms, g.from_ms);
    lemma_words_of_number(" AND created_at < "@, f.to_ms, g.to_ms);
    lemma_words_concat(start, text_condition(" AND exchange = "@, f0));
    lemma_words_concat(start, text_condition(" AND exchange = "@, g0));
    lemma_words_concat(f1, text_condition(" AND symbol = "@, f.symbol));
    lemma_words_concat(g1, text_condition(" AND symbol = "@, g.symbol));
    lemma_words_concat(f2, text_condition(" AND strategy = "@, f.strategy));
    lemma_words_concat(g2, text_condition(" AND strategy = "@, g.strategy));
    lemma_words_concat(f3, text_condition(" AND config_id = "@, f.config_id));
    lemma_words_concat(g3, text_condition(" AND config_id = "@, g.config_id));
    lemma_words_concat(f4, text_condition(" AND status = "@, f.status));
    lemma_words_concat(g4, text_condition(" AND status = "@, g.status));
    lemma_words_concat(f5, number_condition(" AND horizon_secs = "@, f.horizon_secs));
    lemma_words_concat(g5, number_condition(" AND horizon_secs = "@, g.horizon_secs));
    lemma_words_concat(f6, number_condition(" AND created_at >= "@, f.from_ms));
    lemma_words_concat(g6, number_condition(" AND created_at >= "@, g.from_ms));
    lemma_words_concat(f7, number_condition(" AND created_at < "@, f.to_ms));
    lemma_words_concat(g7, number_condition(" AND created_at < "@, g.to_ms));
    lemma_words_concat(f8, end);
    lemma_words_concat(g8, end);
}

/// Whether some position was made under that configuration.
pub open spec fn is_used(s: Seq<PredictionView>, id: Seq<char>) -> bool {
    exists|k: int| 0 <= k < s.len() && (#[trigger] s[k]).config_id == id
}

/// Whether a configuration goes with the positions of an export.
pub fn is_wanted(positions: &Vec<Prediction>, id: &str) -> (r: bool)
    ensures
        r == is_used(views(positions@), id@),
{
    let ghost s = views(positions@);
    for n in 0..positions.len()
        invariant
            s == views(positions@),
            forall|k: int| 0 <= k < n ==> (#[trigger] s[k]).config_id != id@,
    {
        if text::same(positions[n].config_id.as_str(), id) {
            assert(s[n as int].config_id == id@);
            return true;
        }
    }
    false
}

/// What an export tells of a configuration.
pub open spec fn configuration_content(
    id: Seq<char>,
    registered_at: i64,
    parameters: Json,
) -> Json {
    Json::Members(
        members_of(
            seq![
                ("id"@, Json::Text(id)),
                ("registered_at"@, Json::Number(JsonNumber::Whole(registered_at as int))),
                ("parameters"@, parameters),
            ],
        ),
    )
}

/// What an export tells of a configuration names it, and holds its parameters.
pub proof fn lemma_configuration_is_recognised(
    id: Seq<char>,
    registered_at: i64,
    parameters: Json,
)
    ensures
        is_configuration(configuration_content(id, registered_at, parameters), id),
        configuration_content(id, registered_at, parameters).member("parameters"@) == Some(
            parameters,
        ),
        configuration_content(id, registered_at, parameters).member("registered_at"@) is Some,
{
    reveal_strlit("id");
    reveal_strlit("registered_at");
    reveal_strlit("parameters");
    assert("id"@.len() == 2 && "registered_at"@.len() == 13 && "parameters"@.len() == 10);
    let first = ("id"@, Json::Text(id));
    let second = ("registered_at"@, Json::Number(JsonNumber::Whole(registered_at as int)));
    let third = ("parameters"@, parameters);
    assert(seq![first, second, third].drop_last() =~= seq![first, second]);
    assert(seq![first, second].drop_last() =~= seq![first]);
    assert(seq![first].drop_last() =~= Seq::<(Seq<char>, Json)>::empty());
    reveal_with_fuel(members_of, 4);
}

/// What an export tells of a registered configuration.
pub fn describe(id: &str, registered_at: i64, parameters: serde_json::Value) -> (r:
    serde_json::Value)
    ensures
        content(r) == configuration_content(id@, registered_at, content(parameters)),
{
    let mut members: Vec<(&'static str, serde_json::Value)> = Vec::new();
    members.push(("id", json::string(id)));
    members.push(("registered_at", json::whole(registered_at)));
    members.push(("parameters", parameters));
    proof {
        reveal_strlit("id");
        reveal_strlit("registered_at");
        reveal_strlit("parameters");
        assert("id"@.len() == 2 && "registered_at"@.len() == 13 && "parameters"@.len() == 10);
        assert(json::member_contents(members@) =~= seq![
            ("id"@, Json::Text(id@)),
            ("registered_at"@, Json::Number(JsonNumber::Whole(registered_at as int))),
            ("parameters"@, content(parameters)),
        ]);
    }
    json::object(members)
}

/// What an export tells of a registered configuration, from its row.
pub fn configuration(id: &str, registered_at: i64, parameters: &str) -> (r: Result<
    serde_json::Value,
    Unreadable,
>)
    ensures
        match r {
            Ok(value) => parsed(parameters@) is Ok && content(value) == configuration_content(
                id@,
                registered_at,
                parsed(parameters@)->Ok_0,
            ),
            Err(error) => parsed(parameters@) == Err::<Json, Seq<char>>(error.message@),
        },
{
    match json::parse(parameters) {
        Ok(value) => Ok(describe(id, registered_at, value)),
        Err(error) => Err(error),
    }
}

} // verus!
