//! One rolling window per author, keyed by the author's snowflake.

use crate::score::{score_message, scored_against, window_push, RollingWindow, SCORE_CAP};
use crate::table::{holds_key, keys_unique, Keyed, Table};
use vstd::prelude::*;

verus! {

/// An author's snowflake with that author's rolling window.
pub struct AuthorWindow {
    pub author: u64,
    pub window: RollingWindow,
}

impl Keyed for AuthorWindow {
    open spec fn key(&self) -> u64 {
        self.author
    }

    fn read_key(&self) -> u64 {
        self.author
    }
}

/// The recent contents recorded for `author`: empty until the author's first
/// message of the run.
pub open spec fn window_of(rows: Seq<AuthorWindow>, author: u64) -> Seq<Seq<u8>> {
    if holds_key(rows, author) {
        let i = choose|i: int| 0 <= i < rows.len() && (#[trigger] rows[i].key()) == author;
        rows[i].window@
    } else {
        Seq::<Seq<u8>>::empty()
    }
}

/// In a uniquely keyed row list, a matching index carries the window.
proof fn lemma_window_at(rows: Seq<AuthorWindow>, i: int)
    requires
        keys_unique(rows),
        0 <= i < rows.len(),
    ensures
        window_of(rows, rows[i].key()) == rows[i].window@,
{
    let id = rows[i].key();
    assert(holds_key(rows, id));
    let j = choose|j: int| 0 <= j < rows.len() && (#[trigger] rows[j].key()) == id;
    if i != j {
        assert(rows[i].key() != rows[j].key());
    }
}

/// Rows that agree everywhere except at one index keep every other author's
/// window.
proof fn lemma_window_other(before: Seq<AuthorWindow>, after: Seq<AuthorWindow>, i: int, k: u64)
    requires
        keys_unique(before),
        keys_unique(after),
        0 <= i < after.len(),
        before.len() == after.len() || before.len() + 1 == after.len(),
        forall|a: int| 0 <= a < after.len() && a != i ==> after[a] == before[a],
        k != after[i].key(),
        before.len() == after.len() ==> after[i].key() == before[i].key(),
        before.len() + 1 == after.len() ==> i == before.len(),
    ensures
        window_of(after, k) == window_of(before, k),
{
    if holds_key(before, k) {
        let a = choose|a: int| 0 <= a < before.len() && (#[trigger] before[a].key()) == k;
        assert(a != i);
        assert(after[a].key() == k);
        assert(holds_key(after, k));
        lemma_window_at(before, a);
        lemma_window_at(after, a);
    } else {
        if holds_key(after, k) {
            let a = choose|a: int| 0 <= a < after.len() && (#[trigger] after[a].key()) == k;
            assert(a != i);
            assert(before[a].key() == k);
            assert(holds_key(before, k));
        }
    }
}

/// The rolling windows of every author seen in the run.
pub struct AuthorWindows {
    pub table: Table<AuthorWindow>,
}

impl AuthorWindows {
    /// Authors are unique and every window respects its capacity.
    pub open spec fn wf(&self) -> bool {
        &&& self.table.wf()
        &&& forall|i: int| 0 <= i < self.table@.len() ==> (#[trigger] self.table@[i]).window.wf()
    }

    /// No windows yet.
    pub fn new() -> (r: AuthorWindows)
        ensures
            r.wf(),
            r.table@ =~= Seq::<AuthorWindow>::empty(),
    {
        AuthorWindows { table: Table::new() }
    }

    /// Scores `content` against the author's window and records it there:
    /// the author's window moves on by one content, everyone else's stays.
    pub fn score_for(&mut self, author: u64, content: &Vec<u8>) -> (r: u64)
        requires
            old(self).wf(),
        ensures
            final(self).wf(),
            r == scored_against(window_of(old(self).table@, author), content@),
            r <= SCORE_CAP,
            window_of(final(self).table@, author) == window_push(
                window_of(old(self).table@, author),
                content@,
            ),
            forall|a: u64|
                a != author ==> #[trigger] window_of(final(self).table@, a) == window_of(
                    old(self).table@,
                    a,
                ),
    {
        let found = self.table.find(author);
        match found {
            Some(i) => {
                let mut row = self.table.remove_at(i);
                proof {
                    lemma_window_at(old(self).table@, i as int);
                }
                let r = score_message(&mut row.window, content);
                let ghost row_after = row;
                self.table.insert_at(i, row);
                proof {
                    assert(self.table@ =~= old(self).table@.update(i as int, row_after));
                    lemma_window_at(self.table@, i as int);
                    assert forall|a: u64| a != author implies #[trigger] window_of(self.table@, a)
                        == window_of(old(self).table@, a) by {
                        lemma_window_other(old(self).table@, self.table@, i as int, a);
                    }
                }
                r
            },
            None => {
                let mut fresh = RollingWindow::new();
                let r = score_message(&mut fresh, content);
                let ghost fresh_after = fresh;
                let added = self.table.insert(AuthorWindow { author, window: fresh });
                proof {
                    assert(added);
                    let n = old(self).table@.len() as int;
                    assert(self.table@[n].key() == author);
                    lemma_window_at(self.table@, n);
                    assert(window_of(old(self).table@, author) =~~= Seq::<Seq<u8>>::empty());
                    assert forall|a: u64| a != author implies #[trigger] window_of(self.table@, a)
                        == window_of(old(self).table@, a) by {
                        lemma_window_other(old(self).table@, self.table@, n, a);
                    }
                }
                r
            },
        }
    }
}

} // verus!
