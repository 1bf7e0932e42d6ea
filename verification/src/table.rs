//! A small keyed table: rows addressed by a 64-bit snowflake, each key held
//! at most once. Storage tables and in-memory accumulators share this shape.

use vstd::prelude::*;

verus! {

/// A row addressed by a 64-bit snowflake key.
pub trait Keyed: Sized {
    /// The row's key.
    spec fn key(&self) -> u64;

    /// Reads the key.
    fn read_key(&self) -> (r: u64)
        ensures
            r == self.key(),
    ;
}

/// Whether `rows` holds a row with key `id`.
pub open spec fn holds_key<R: Keyed>(rows: Seq<R>, id: u64) -> bool {
    exists|i: int| 0 <= i < rows.len() && (#[trigger] rows[i].key()) == id
}

/// Whether every key appears at most once.
pub open spec fn keys_unique<R: Keyed>(rows: Seq<R>) -> bool {
    forall|i: int, j: int|
        0 <= i < j < rows.len() ==> (#[trigger] rows[i].key()) != (#[trigger] rows[j].key())
}

/// The row keyed `id`, where the table holds one.
pub open spec fn row_of<R: Keyed>(rows: Seq<R>, id: u64) -> Option<R> {
    if holds_key(rows, id) {
        let i = choose|i: int| 0 <= i < rows.len() && (#[trigger] rows[i].key()) == id;
        Some(rows[i])
    } else {
        None
    }
}

/// In a uniquely keyed row list, a matching index carries the row.
pub proof fn lemma_row_of_at<R: Keyed>(rows: Seq<R>, i: int)
    requires
        keys_unique(rows),
        0 <= i < rows.len(),
    ensures
        row_of(rows, rows[i].key()) == Some(rows[i]),
{
    let id = rows[i].key();
    assert(holds_key(rows, id));
    let j = choose|j: int| 0 <= j < rows.len() && (#[trigger] rows[j].key()) == id;
    if i != j {
        assert(rows[i].key() != rows[j].key());
    }
}

/// Appending rows changes no held key's row.
pub proof fn lemma_row_of_prefix<R: Keyed>(before: Seq<R>, after: Seq<R>, id: u64)
    requires
        keys_unique(after),
        before.is_prefix_of(after),
        holds_key(before, id),
    ensures
        row_of(after, id) == row_of(before, id),
{
    assert(keys_unique(before)) by {
        assert forall|i: int, j: int| 0 <= i < j < before.len() implies (
        #[trigger] before[i].key()) != (#[trigger] before[j].key()) by {
            assert(before[i] == after[i] && before[j] == after[j]);
        }
    }
    let i = choose|i: int| 0 <= i < before.len() && (#[trigger] before[i].key()) == id;
    lemma_row_of_at(before, i);
    assert(after[i] == before[i]);
    lemma_row_of_at(after, i);
}

/// Dropping rows never makes two keys collide.
pub broadcast proof fn lemma_filter_keys_unique<R: Keyed>(rows: Seq<R>, pred: spec_fn(R) -> bool)
    requires
        keys_unique(rows),
    ensures
        keys_unique(#[trigger] rows.filter(pred)),
    decreases rows.len(),
{
    reveal(Seq::filter);
    if rows.len() > 0 {
        let head = rows.drop_last();
        lemma_filter_keys_unique(head, pred);
        if pred(rows.last()) {
            let kept = head.filter(pred);
            assert forall|i: int, j: int|
                0 <= i < j < kept.push(rows.last()).len() implies (
            #[trigger] kept.push(rows.last())[i].key()) != (
            #[trigger] kept.push(rows.last())[j].key()) by {
                if j == kept.len() {
                    Seq::<R>::lemma_filter_contains_rev(head, pred, kept[i]);
                    let w = choose|w: int| 0 <= w < head.len() && head[w] == kept[i];
                    assert(rows[w] == kept[i]);
                    assert(rows[w].key() != rows.last().key());
                }
            }
        }
    }
}

/// A list of rows with pairwise distinct keys.
pub struct Table<R> {
    rows: Vec<R>,
}

impl<R: Keyed> View for Table<R> {
    type V = Seq<R>;

    closed spec fn view(&self) -> Seq<R> {
        self.rows@
    }
}

impl<R: Keyed> Table<R> {
    /// Keys never repeat.
    pub open spec fn wf(&self) -> bool {
        keys_unique(self@)
    }

    /// An empty table.
    pub fn new() -> (r: Table<R>)
        ensures
            r@ =~= Seq::<R>::empty(),
            r.wf(),
    {
        Table { rows: Vec::new() }
    }

    /// How many rows the table holds.
    pub fn len(&self) -> (r: usize)
        ensures
            r == self@.len(),
    {
        self.rows.len()
    }

    /// Borrows the row at `i`.
    pub fn get(&self, i: usize) -> (r: &R)
        requires
            i < self@.len(),
        ensures
            *r == self@[i as int],
    {
        &self.rows[i]
    }

    /// The index of the row keyed `id`, if the table holds one.
    pub fn find(&self, id: u64) -> (r: Option<usize>)
        ensures
            match r {
                Some(i) => i < self@.len() && self@[i as int].key() == id,
                None => !holds_key(self@, id),
            },
    {
        let mut i: usize = 0;
        while i < self.rows.len()
            invariant
                i <= self.rows.len(),
                forall|k: int| 0 <= k < i ==> (#[trigger] self.rows@[k].key()) != id,
            decreases self.rows.len() - i,
        {
            if self.rows[i].read_key() == id {
                return Some(i);
            }
            i = i + 1;
        }
        None
    }

    /// Whether the table holds a row keyed `id`.
    pub fn contains_key(&self, id: u64) -> (r: bool)
        ensures
            r <==> holds_key(self@, id),
    {
        self.find(id).is_some()
    }

    /// Appends `row` unless its key is already held: a duplicate key leaves
    /// the table unchanged and reports the conflict with `false`.
    pub fn insert(&mut self, row: R) -> (r: bool)
        requires
            old(self).wf(),
        ensures
            final(self).wf(),
            r <==> !holds_key(old(self)@, row.key()),
            r ==> final(self)@ == old(self)@.push(row),
            !r ==> final(self)@ == old(self)@,
            holds_key(final(self)@, row.key()),
    {
        if self.contains_key(row.read_key()) {
            false
        } else {
            self.rows.push(row);
            proof {
                let rows = self@;
                assert(rows[rows.len() - 1].key() == row.key());
                assert forall|i: int, j: int| 0 <= i < j < rows.len() implies (
                #[trigger] rows[i].key()) != (#[trigger] rows[j].key()) by {
                    if j == rows.len() - 1 {
                        assert(rows[i] == old(self)@[i]);
                    }
                }
            }
            true
        }
    }

    /// Replaces the row at `i` with one carrying the same key.
    pub fn replace_at(&mut self, i: usize, row: R)
        requires
            old(self).wf(),
            i < old(self)@.len(),
            row.key() == old(self)@[i as int].key(),
        ensures
            final(self).wf(),
            final(self)@ == old(self)@.update(i as int, row),
    {
        self.rows.remove(i);
        self.rows.insert(i, row);
        proof {
            assert(self@ =~= old(self)@.update(i as int, row));
        }
    }

    /// Places `row` at position `i`, shifting later rows up; the key must not
    /// be held yet.
    pub fn insert_at(&mut self, i: usize, row: R)
        requires
            old(self).wf(),
            i <= old(self)@.len(),
            !holds_key(old(self)@, row.key()),
        ensures
            final(self).wf(),
            final(self)@ == old(self)@.insert(i as int, row),
    {
        self.rows.insert(i, row);
        proof {
            let rows = self@;
            assert forall|a: int, b: int| 0 <= a < b < rows.len() implies (
            #[trigger] rows[a].key()) != (#[trigger] rows[b].key()) by {
                if a != i && b != i {
                    let oa: int = if a < i { a } else { a - 1 };
                    let ob: int = if b < i { b } else { b - 1 };
                    assert(rows[a] == old(self)@[oa]);
                    assert(rows[b] == old(self)@[ob]);
                } else if a == i {
                    assert(rows[b] == old(self)@[b - 1]);
                } else {
                    assert(rows[a] == old(self)@[a]);
                }
            }
        }
    }

    /// Removes and returns the row at `i`.
    pub fn remove_at(&mut self, i: usize) -> (r: R)
        requires
            old(self).wf(),
            i < old(self)@.len(),
        ensures
            final(self).wf(),
            r == old(self)@[i as int],
            final(self)@ == old(self)@.remove(i as int),
    {
        let r = self.rows.remove(i);
        proof {
            let rows = self@;
            assert forall|a: int, b: int| 0 <= a < b < rows.len() implies (
            #[trigger] rows[a].key()) != (#[trigger] rows[b].key()) by {
                let oa: int = if a < i { a } else { a + 1 };
                let ob: int = if b < i { b } else { b + 1 };
                assert(rows[a] == old(self)@[oa]);
                assert(rows[b] == old(self)@[ob]);
            }
        }
        r
    }



    /// Removes and hands back all rows, leaving the table empty.
    pub fn drain_rows(&mut self) -> (r: Vec<R>)
        ensures
            r@ == old(self)@,
            final(self)@ =~= Seq::<R>::empty(),
            final(self).wf(),
    {
        let mut taken: Vec<R> = Vec::new();
        core::mem::swap(&mut self.rows, &mut taken);
        taken
    }

    /// Wraps rows whose keys are already known to be distinct.
    pub fn from_rows(rows: Vec<R>) -> (r: Table<R>)
        requires
            keys_unique(rows@),
        ensures
            r@ == rows@,
            r.wf(),
    {
        Table { rows }
    }
}

} // verus!
