//! In-memory delta maps: the score and count increments a run accumulates
//! per guild, channel and user, flushed as upserts when the run ends.

use crate::table::{holds_key, Keyed, Table};
use crate::store::{sat_add_u128, sat_add_u64, saturating_add_u128, saturating_add_u64};
use vstd::prelude::*;

verus! {

/// The increment accumulated for one entity.
#[derive(Clone, Copy)]
pub struct DeltaRow {
    pub id: u64,
    pub score: u128,
    pub count: u64,
}

impl Keyed for DeltaRow {
    open spec fn key(&self) -> u64 {
        self.id
    }

    fn read_key(&self) -> u64 {
        self.id
    }
}

/// The score accumulated for `id`, zero when nothing was recorded.
pub open spec fn delta_score_of(rows: Seq<DeltaRow>, id: u64) -> int {
    if holds_key(rows, id) {
        let i = choose|i: int| 0 <= i < rows.len() && (#[trigger] rows[i].key()) == id;
        rows[i].score as int
    } else {
        0
    }
}

/// The count accumulated for `id`, zero when nothing was recorded.
pub open spec fn delta_count_of(rows: Seq<DeltaRow>, id: u64) -> int {
    if holds_key(rows, id) {
        let i = choose|i: int| 0 <= i < rows.len() && (#[trigger] rows[i].key()) == id;
        rows[i].count as int
    } else {
        0
    }
}

/// In a uniquely keyed row list, a matching index carries the accumulators.
pub proof fn lemma_delta_at(rows: Seq<DeltaRow>, i: int)
    requires
        crate::table::keys_unique(rows),
        0 <= i < rows.len(),
    ensures
        delta_score_of(rows, rows[i].key()) == rows[i].score as int,
        delta_count_of(rows, rows[i].key()) == rows[i].count as int,
{
    let id = rows[i].key();
    assert(holds_key(rows, id));
    let j = choose|j: int| 0 <= j < rows.len() && (#[trigger] rows[j].key()) == id;
    if i != j {
        assert(rows[i].key() != rows[j].key());
    }
}

/// Adds one message's score and a count of one onto the accumulator for
/// `id`, creating the accumulator at zero first where none exists. The score
/// clips at the top of its range; every other accumulator stays as it was.
pub fn bump(table: &mut Table<DeltaRow>, id: u64, score: u64)
    requires
        old(table).wf(),
    ensures
        final(table).wf(),
        delta_score_of(final(table)@, id) == sat_add_u128(
            delta_score_of(old(table)@, id),
            score as int,
        ) as int,
        delta_count_of(final(table)@, id) == sat_add_u64(delta_count_of(old(table)@, id), 1) as int,
        forall|k: u64|
            k != id ==> #[trigger] delta_score_of(final(table)@, k) == delta_score_of(
                old(table)@,
                k,
            ),
        forall|k: u64|
            k != id ==> #[trigger] delta_count_of(final(table)@, k) == delta_count_of(
                old(table)@,
                k,
            ),
        forall|k: u64|
            #[trigger] holds_key(final(table)@, k) <==> holds_key(old(table)@, k) || k == id,
{
    let found = table.find(id);
    match found {
        Some(i) => {
            let row = *table.get(i);
            let updated = DeltaRow {
                id,
                score: saturating_add_u128(row.score, score as u128),
                count: saturating_add_u64(row.count, 1),
            };
            table.replace_at(i, updated);
            proof {
                lemma_delta_at(old(table)@, i as int);
                lemma_delta_at(table@, i as int);
                assert forall|k: u64| k != id implies #[trigger] delta_score_of(table@, k)
                    == delta_score_of(old(table)@, k) by {
                    lemma_delta_other(old(table)@, table@, i as int, k);
                }
                assert forall|k: u64| k != id implies #[trigger] delta_count_of(table@, k)
                    == delta_count_of(old(table)@, k) by {
                    lemma_delta_other(old(table)@, table@, i as int, k);
                }
                assert forall|k: u64| #[trigger]
                    holds_key(table@, k) <==> holds_key(old(table)@, k) || k == id by {
                    if holds_key(table@, k) && k != id {
                        let a = choose|a: int|
                            0 <= a < table@.len() && (#[trigger] table@[a].key()) == k;
                        assert(old(table)@[a].key() == k);
                    }
                    if holds_key(old(table)@, k) && k != id {
                        let a = choose|a: int|
                            0 <= a < old(table)@.len() && (#[trigger] old(table)@[a].key()) == k;
                        assert(table@[a].key() == k);
                    }
                    if k == id {
                        assert(table@[i as int].key() == k);
                    }
                }
            }
        },
        None => {
            let fresh = DeltaRow { id, score: score as u128, count: 1 };
            let added = table.insert(fresh);
            proof {
                assert(added);
                let n = old(table)@.len() as int;
                assert(table@[n].key() == id);
                lemma_delta_at(table@, n);
                assert forall|k: u64| k != id implies #[trigger] delta_score_of(table@, k)
                    == delta_score_of(old(table)@, k) by {
                    lemma_delta_other(old(table)@, table@, n, k);
                }
                assert forall|k: u64| k != id implies #[trigger] delta_count_of(table@, k)
                    == delta_count_of(old(table)@, k) by {
                    lemma_delta_other(old(table)@, table@, n, k);
                }
                assert forall|k: u64| #[trigger]
                    holds_key(table@, k) <==> holds_key(old(table)@, k) || k == id by {
                    if holds_key(table@, k) && k != id {
                        let a = choose|a: int|
                            0 <= a < table@.len() && (#[trigger] table@[a].key()) == k;
                        assert(a != n);
                        assert(old(table)@[a].key() == k);
                    }
                    if holds_key(old(table)@, k) {
                        let a = choose|a: int|
                            0 <= a < old(table)@.len() && (#[trigger] old(table)@[a].key()) == k;
                        assert(table@[a].key() == k);
                    }
                }
            }
        },
    }
}

/// Rows that agree everywhere except at one index keep every other key's
/// accumulators: used after an update or append at `i`.
proof fn lemma_delta_other(before: Seq<DeltaRow>, after: Seq<DeltaRow>, i: int, k: u64)
    requires
        crate::table::keys_unique(before),
        crate::table::keys_unique(after),
        0 <= i < after.len(),
        before.len() == after.len() || before.len() + 1 == after.len(),
        forall|a: int| 0 <= a < after.len() && a != i ==> after[a] == before[a],
        k != after[i].key(),
        before.len() == after.len() ==> after[i].key() == before[i].key(),
        before.len() + 1 == after.len() ==> i == before.len(),
    ensures
        delta_score_of(after, k) == delta_score_of(before, k),
        delta_count_of(after, k) == delta_count_of(before, k),
{
    if holds_key(before, k) {
        let a = choose|a: int| 0 <= a < before.len() && (#[trigger] before[a].key()) == k;
        assert(a != i);
        assert(after[a].key() == k);
        assert(holds_key(after, k));
        lemma_delta_at(before, a);
        lemma_delta_at(after, a);
    } else {
        if holds_key(after, k) {
            let a = choose|a: int| 0 <= a < after.len() && (#[trigger] after[a].key()) == k;
            assert(a != i);
            assert(before[a].key() == k);
            assert(holds_key(before, k));
        }
    }
}

/// The increments one ingestion run accumulates, per entity kind.
pub struct Deltas {
    pub guilds: Table<DeltaRow>,
    pub channels: Table<DeltaRow>,
    pub users: Table<DeltaRow>,
}

impl Deltas {
    /// Every delta table keeps its keys unique.
    pub open spec fn wf(&self) -> bool {
        self.guilds.wf() && self.channels.wf() && self.users.wf()
    }

    /// Empty accumulators.
    pub fn new() -> (r: Deltas)
        ensures
            r.wf(),
            r.guilds@ =~= Seq::<DeltaRow>::empty(),
            r.channels@ =~= Seq::<DeltaRow>::empty(),
            r.users@ =~= Seq::<DeltaRow>::empty(),
    {
        Deltas { guilds: Table::new(), channels: Table::new(), users: Table::new() }
    }
}

} // verus!
