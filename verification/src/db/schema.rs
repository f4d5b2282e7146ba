//! How the table of positions grows.

use crate::text;
use vstd::prelude::*;

verus! {

/// The columns that the table of positions got after its first version, with their definitions.
/// Rows from before a column keep what they held and read its default.
pub const LATER_COLUMNS: [(&'static str, &'static str); 13] = [
    ("strategy", "TEXT NOT NULL DEFAULT 'normal'"),
    ("config_id", "TEXT NOT NULL DEFAULT 'legacy'"),
    ("fee_bps", "REAL NOT NULL DEFAULT 0"),
    ("slippage_bps", "REAL NOT NULL DEFAULT 0"),
    ("notional", "REAL NOT NULL DEFAULT 1000"),
    ("gross_pnl_bps", "REAL"),
    ("cursor_id", "INTEGER NOT NULL DEFAULT 0"),
    ("last_quote_ts", "INTEGER NOT NULL DEFAULT 0"),
    ("mark_price", "REAL"),
    ("max_gap_ms", "INTEGER NOT NULL DEFAULT 15000"),
    ("entry_reason", "TEXT NOT NULL DEFAULT 'Legacy gross-price simulation'"),
    ("entry_snapshot", "TEXT"),
    ("execution_audit", "TEXT"),
];

/// The views of names.
pub open spec fn name_views(names: Seq<String>) -> Seq<Seq<char>> {
    Seq::new(names.len(), |i: int| names[i]@)
}

/// The statement that adds a column.
pub open spec fn addition(column: int) -> Seq<char> {
    "ALTER TABLE predictions ADD COLUMN "@ + LATER_COLUMNS@[column].0@ + " "@
        + LATER_COLUMNS@[column].1@
}

/// Which of the first later columns are missing, in order.
pub open spec fn missing_of(existing: Seq<Seq<char>>, count: int) -> Seq<int>
    decreases count,
{
    if count <= 0 {
        seq![]
    } else if existing.contains(LATER_COLUMNS@[count - 1].0@) {
        missing_of(existing, count - 1)
    } else {
        missing_of(existing, count - 1).push(count - 1)
    }
}

/// The statements that bring a table with the existing columns up to date.
pub open spec fn additions(existing: Seq<Seq<char>>) -> Seq<Seq<char>> {
    missing_of(existing, 13).map_values(|column: int| addition(column))
}

/// The columns of a table after the statements that bring it up to date.
pub open spec fn migrated(existing: Seq<Seq<char>>) -> Seq<Seq<char>> {
    existing + missing_of(existing, 13).map_values(|column: int| LATER_COLUMNS@[column].0@)
}

fn is_listed(names: &Vec<String>, name: &str) -> (r: bool)
    ensures
        r == name_views(names@).contains(name@),
{
    for n in 0..names.len()
        invariant
            forall|k: int| 0 <= k < n ==> (#[trigger] names@[k])@ != name@,
    {
        if text::same(names[n].as_str(), name) {
            assert(name_views(names@)[n as int] == name@);
            return true;
        }
    }
    assert forall|k: int| 0 <= k < name_views(names@).len() implies name_views(names@)[k]
        != name@ by {
        assert(names@[k]@ != name@);
    }
    false
}

/// The statements that bring a table with the existing columns up to date.
pub fn migrations(existing: &Vec<String>) -> (r: Vec<String>)
    ensures
        name_views(r@) == additions(name_views(existing@)),
{
    let ghost e = name_views(existing@);
    let mut out: Vec<String> = Vec::new();
    proof {
        assert(name_views(out@) =~= missing_of(e, 0).map_values(|column: int| addition(column)));
    }
    for n in 0..13
        invariant
            e == name_views(existing@),
            name_views(out@) == missing_of(e, n as int).map_values(|column: int| addition(column)),
    {
        let ghost before = out@;
        let (name, definition) = LATER_COLUMNS[n];
        if !is_listed(existing, name) {
            let statement = "ALTER TABLE predictions ADD COLUMN ".to_owned().concat(name).concat(
                " ",
            ).concat(definition);
            out.push(statement);
            assert(statement@ == addition(n as int));
            assert(name_views(out@) =~= name_views(before).push(addition(n as int)));
            assert(missing_of(e, n + 1).map_values(|column: int| addition(column)) =~= missing_of(
                e,
                n as int,
            ).map_values(|column: int| addition(column)).push(addition(n as int)));
        }
    }
    out
}

proof fn lemma_missing_members(existing: Seq<Seq<char>>, count: int, k: int)
    requires
        0 <= k < count <= 13,
    ensures
        missing_of(existing, count).contains(k) <==> !existing.contains(LATER_COLUMNS@[k].0@),
    decreases count,
{
    let m = missing_of(existing, count);
    let before = missing_of(existing, count - 1);
    lemma_missing_below(existing, count - 1);
    if k < count - 1 {
        lemma_missing_members(existing, count - 1, k);
        if before.contains(k) {
            let i = before.index_of(k);
            assert(m[i] == k);
        }
        if m.contains(k) {
            let i = m.index_of(k);
            assert(before[i] == k);
        }
    } else if !existing.contains(LATER_COLUMNS@[k].0@) {
        assert(m[m.len() - 1] == k);
    } else if m.contains(k) {
        let i = m.index_of(k);
        assert(before[i] == k);
    }
}

proof fn lemma_missing_below(existing: Seq<Seq<char>>, count: int)
    ensures
        forall|i: int|
            0 <= i < missing_of(existing, count).len() ==> 0 <= #[trigger] missing_of(
                existing,
                count,
            )[i] < count,
    decreases count,
{
    if count > 0 {
        lemma_missing_below(existing, count - 1);
        let before = missing_of(existing, count - 1);
        let m = missing_of(existing, count);
        assert forall|i: int| 0 <= i < m.len() implies 0 <= #[trigger] m[i] < count by {
            if i < before.len() {
                assert(m[i] == before[i]);
            }
        }
    }
}

proof fn lemma_none_missing(existing: Seq<Seq<char>>, count: int)
    requires
        0 <= count <= 13,
        forall|k: int| 0 <= k < 13 ==> existing.contains(#[trigger] LATER_COLUMNS@[k].0@),
    ensures
        missing_of(existing, count) == Seq::<int>::empty(),
    decreases count,
{
    if count > 0 {
        assert(existing.contains(LATER_COLUMNS@[count - 1].0@));
        lemma_none_missing(existing, count - 1);
    }
}

/// Bringing a table up to date only adds to it: every column stays, every later column is there
/// in the end, and each statement adds one column.
pub proof fn lemma_migration_only_adds(existing: Seq<Seq<char>>)
    ensures
        existing.is_prefix_of(migrated(existing)),
        forall|k: int| 0 <= k < 13 ==> migrated(existing).contains(#[trigger] LATER_COLUMNS@[k].0@),
        forall|i: int|
            0 <= i < additions(existing).len() ==> text::begins(
                #[trigger] additions(existing)[i],
                "ALTER TABLE predictions ADD COLUMN "@,
            ),
        additions(existing).len() == migrated(existing).len() - existing.len(),
{
    let missing = missing_of(existing, 13);
    let names = missing.map_values(|column: int| LATER_COLUMNS@[column].0@);
    assert forall|k: int| 0 <= k < 13 implies migrated(existing).contains(
        #[trigger] LATER_COLUMNS@[k].0@,
    ) by {
        let name = LATER_COLUMNS@[k].0@;
        lemma_missing_members(existing, 13, k);
        if existing.contains(name) {
            let i = existing.index_of(name);
            assert(migrated(existing)[i] == name);
        } else {
            let i = missing.index_of(k);
            assert(names[i] == name);
            assert(migrated(existing)[existing.len() + i] == name);
        }
    }
    assert forall|i: int| 0 <= i < additions(existing).len() implies text::begins(
        #[trigger] additions(existing)[i],
        "ALTER TABLE predictions ADD COLUMN "@,
    ) by {
        let head = "ALTER TABLE predictions ADD COLUMN "@;
        assert(additions(existing)[i] == addition(missing[i]));
        assert(addition(missing[i]).take(head.len() as int) =~= head);
    }
}

/// Bringing a table up to date twice does no more than once.
pub proof fn lemma_migration_is_idempotent(existing: Seq<Seq<char>>)
    ensures
        additions(migrated(existing)) == Seq::<Seq<char>>::empty(),
        migrated(migrated(existing)) == migrated(existing),
{
    lemma_migration_only_adds(existing);
    lemma_none_missing(migrated(existing), 13);
    assert(additions(migrated(existing)) =~= Seq::<Seq<char>>::empty());
    assert(migrated(migrated(existing)) =~= migrated(existing));
}

} // verus!
