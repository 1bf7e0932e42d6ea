//! A model of the remote message source: per-channel histories, newest
//! first, served page by page under a cursor.
//!
//! The model is the library's stand-in for the chat platform: the pagination
//! and reply-resolution proofs run against it, and callers that talk to the
//! real platform materialise what they fetched into one of these values.

use crate::msg::{Message, MsgView};
use crate::table::{holds_key, Keyed, Table};
use vstd::prelude::*;
use vstd::seq_lib::group_filter_ensures;

verus! {

/// Where a page fetch starts.
#[derive(Clone, Copy)]
pub enum Cursor {
    /// The newest end of the history.
    Start,
    /// Strictly older than this snowflake.
    Before(u64),
    /// Strictly newer than this snowflake.
    After(u64),
    /// At or older than this snowflake.
    Around(u64),
}

/// Whether a message with snowflake `id` is admitted by `cursor`.
pub open spec fn cursor_admits(cursor: Cursor, id: u64) -> bool {
    match cursor {
        Cursor::Start => true,
        Cursor::Before(c) => id < c,
        Cursor::After(c) => id > c,
        Cursor::Around(c) => id <= c,
    }
}

/// The part of a history that `cursor` admits, still newest first.
pub open spec fn cursor_filter(h: Seq<MsgView>, cursor: Cursor) -> Seq<MsgView> {
    h.filter(|m: MsgView| cursor_admits(cursor, m.id))
}

/// Strictly descending snowflakes: newest first, no repeats.
pub open spec fn history_sorted(h: Seq<MsgView>) -> bool {
    forall|i: int, j: int| 0 <= i < j < h.len() ==> (#[trigger] h[i]).id > (#[trigger] h[j]).id
}

/// Whether the history holds a message with snowflake `id`.
pub open spec fn history_has(h: Seq<MsgView>, id: u64) -> bool {
    exists|i: int| 0 <= i < h.len() && (#[trigger] h[i]).id == id
}

/// One channel on the remote side: its snowflake, name and full backlog.
pub struct RemoteChannel {
    pub id: u64,
    pub name: Vec<u8>,
    pub history: Vec<Message>,
}

impl Keyed for RemoteChannel {
    open spec fn key(&self) -> u64 {
        self.id
    }

    fn read_key(&self) -> u64 {
        self.id
    }
}

/// The backlog runs newest first and every message names this channel.
pub open spec fn remote_channel_wf(c: RemoteChannel) -> bool {
    &&& history_sorted(c.history.deep_view())
    &&& forall|i: int|
        0 <= i < c.history.deep_view().len() ==> (#[trigger] c.history.deep_view()[i]).channel
            == c.id
}

/// The remote source: the channels it can serve.
pub struct Remote {
    pub channels: Table<RemoteChannel>,
}

impl Remote {
    /// Channels are unique, each backlog is well-formed, and snowflakes are
    /// globally unique: no two channels' backlogs share a message snowflake.
    pub open spec fn wf(&self) -> bool {
        &&& self.channels.wf()
        &&& forall|i: int|
            0 <= i < self.channels@.len() ==> remote_channel_wf(#[trigger] self.channels@[i])
        &&& forall|a: int, b: int, i: int, j: int|
            0 <= a < self.channels@.len() && 0 <= b < self.channels@.len() && a != b && 0 <= i
                < self.channels@[a].history.deep_view().len() && 0 <= j
                < self.channels@[b].history.deep_view().len() ==> (
            #[trigger] self.channels@[a].history.deep_view()[i]).id != (
            #[trigger] self.channels@[b].history.deep_view()[j]).id
    }

    /// The backlog of `channel`, or empty for a channel the remote lacks.
    pub open spec fn history_of(&self, channel: u64) -> Seq<MsgView> {
        if holds_key(self.channels@, channel) {
            let i = choose|i: int|
                0 <= i < self.channels@.len() && (#[trigger] self.channels@[i].key()) == channel;
            self.channels@[i].history.deep_view()
        } else {
            Seq::<MsgView>::empty()
        }
    }

    /// The display name of `channel`, or empty for an unknown channel.
    pub open spec fn name_of(&self, channel: u64) -> Seq<u8> {
        if holds_key(self.channels@, channel) {
            let i = choose|i: int|
                0 <= i < self.channels@.len() && (#[trigger] self.channels@[i].key()) == channel;
            self.channels@[i].name@
        } else {
            Seq::<u8>::empty()
        }
    }

    /// The row at a matching index is the row the history comes from.
    proof fn lemma_channel_at(&self, i: int, channel: u64)
        requires
            self.channels.wf(),
            0 <= i < self.channels@.len(),
            self.channels@[i].key() == channel,
        ensures
            self.history_of(channel) == self.channels@[i].history.deep_view(),
            self.name_of(channel) == self.channels@[i].name@,
    {
        assert(holds_key(self.channels@, channel));
        let j = choose|j: int|
            0 <= j < self.channels@.len() && (#[trigger] self.channels@[j].key()) == channel;
        if i != j {
            assert(self.channels@[i].key() != self.channels@[j].key());
        }
    }

    /// An empty remote.
    pub fn new() -> (r: Remote)
        ensures
            r.wf(),
            r.channels@ =~= Seq::<RemoteChannel>::empty(),
    {
        Remote { channels: Table::new() }
    }

    /// Adds a channel with its backlog; a repeated channel snowflake is
    /// refused and changes nothing. The new backlog's snowflakes must be its
    /// own: snowflakes never repeat across channels.
    pub fn add_channel(&mut self, channel: RemoteChannel) -> (r: bool)
        requires
            old(self).wf(),
            remote_channel_wf(channel),
            forall|w: int, i: int, j: int|
                0 <= w < old(self).channels@.len() && 0 <= i < channel.history.deep_view().len()
                    && 0 <= j < old(self).channels@[w].history.deep_view().len() ==> (
                #[trigger] channel.history.deep_view()[i]).id != (#[trigger] old(
                    self,
                ).channels@[w].history.deep_view()[j]).id,
        ensures
            final(self).wf(),
            r <==> !holds_key(old(self).channels@, channel.id),
            r ==> final(self).channels@ == old(self).channels@.push(channel),
            !r ==> final(self).channels@ == old(self).channels@,
    {
        let ghost n = self.channels@.len() as int;
        let added = self.channels.insert(channel);
        proof {
            if added {
                assert forall|a: int, b: int, i: int, j: int|
                    0 <= a < self.channels@.len() && 0 <= b < self.channels@.len() && a != b && 0
                        <= i < self.channels@[a].history.deep_view().len() && 0 <= j
                        < self.channels@[b].history.deep_view().len() implies (
                #[trigger] self.channels@[a].history.deep_view()[i]).id != (
                #[trigger] self.channels@[b].history.deep_view()[j]).id by {
                    if a < n && b < n {
                        assert(self.channels@[a] == old(self).channels@[a]);
                        assert(self.channels@[b] == old(self).channels@[b]);
                    } else if a == n {
                        assert(self.channels@[a] == channel);
                        assert(self.channels@[b] == old(self).channels@[b]);
                    } else {
                        assert(self.channels@[b] == channel);
                        assert(self.channels@[a] == old(self).channels@[a]);
                    }
                }
            }
        }
        added
    }

    /// Serves one page: the newest `limit` messages of the backlog that the
    /// cursor admits. An unknown channel serves an empty page.
    pub fn fetch_page(&self, channel: u64, cursor: Cursor, limit: u64) -> (r: Vec<Message>)
        requires
            self.wf(),
        ensures
            ({
                let f = cursor_filter(self.history_of(channel), cursor);
                &&& r.deep_view() == f.take(if limit <= f.len() {
                    limit as int
                } else {
                    f.len() as int
                })
                &&& r.deep_view().len() <= limit
            }),
    {
        broadcast use group_filter_ensures;

        let found = self.channels.find(channel);
        match found {
            None => {
                let r: Vec<Message> = Vec::new();
                proof {
                    reveal(Seq::filter);
                    let f = cursor_filter(self.history_of(channel), cursor);
                    assert(r.deep_view() =~= f.take(
                        if limit <= f.len() {
                            limit as int
                        } else {
                            f.len() as int
                        },
                    ));
                }
                r
            },
            Some(ci) => {
                proof {
                    self.lemma_channel_at(ci as int, channel);
                }
                let ch = self.channels.get(ci);
                let ghost h = ch.history.deep_view();
                let ghost f = cursor_filter(h, cursor);
                let mut out: Vec<Message> = Vec::new();
                let mut k: usize = 0;
                proof {
                    reveal(Seq::filter);
                    assert(out.deep_view() =~= cursor_filter(h.take(0), cursor));
                }
                while k < ch.history.len() && (out.len() as u64) < limit
                    invariant
                        self.wf(),
                        0 <= ci < self.channels@.len(),
                        *ch == self.channels@[ci as int],
                        h == ch.history.deep_view(),
                        f == cursor_filter(h, cursor),
                        k <= ch.history@.len(),
                        out.deep_view() =~~= cursor_filter(h.take(k as int), cursor),
                        out.len() <= limit,
                    decreases ch.history@.len() - k,
                {
                    let m = &ch.history[k];
                    let admitted = match cursor {
                        Cursor::Start => true,
                        Cursor::Before(c) => m.id < c,
                        Cursor::After(c) => m.id > c,
                        Cursor::Around(c) => m.id <= c,
                    };
                    proof {
                        reveal(Seq::filter);
                        assert(h.take(k + 1).drop_last() =~= h.take(k as int));
                        assert(h.take(k + 1).last() == h[k as int]);
                        assert(h[k as int] == ch.history.deep_view()[k as int]);
                    }
                    if admitted {
                        out.push(m.duplicate());
                        proof {
                            assert(out.deep_view() =~~= cursor_filter(h.take(k + 1), cursor));
                        }
                    }
                    k = k + 1;
                }
                proof {
                    reveal(Seq::filter);
                    if k == ch.history@.len() {
                        assert(h.take(k as int) =~= h);
                        assert(out.deep_view().len() == f.len());
                        assert(out.deep_view() =~~= f.take(
                            if limit <= f.len() {
                                limit as int
                            } else {
                                f.len() as int
                            },
                        ));
                    } else {
                        assert(out.len() == limit);
                        assert(h =~= h.take(k as int) + h.skip(k as int));
                        Seq::<MsgView>::filter_distributes_over_add(
                            h.take(k as int),
                            h.skip(k as int),
                            |m: MsgView| cursor_admits(cursor, m.id),
                        );
                        assert(f == cursor_filter(h.take(k as int), cursor) + cursor_filter(
                            h.skip(k as int),
                            cursor,
                        ));
                        assert(out.deep_view() =~~= f.take(limit as int));
                    }
                }
                out
            },
        }
    }

    /// Looks one message up by snowflake within a channel's backlog.
    pub fn fetch_message(&self, channel: u64, id: u64) -> (r: Option<Message>)
        requires
            self.wf(),
        ensures
            match r {
                Some(m) => self.history_of(channel).contains(m@) && m@.id == id,
                None => !history_has(self.history_of(channel), id),
            },
    {
        let found = self.channels.find(channel);
        match found {
            None => None,
            Some(ci) => {
                proof {
                    self.lemma_channel_at(ci as int, channel);
                }
                let ch = self.channels.get(ci);
                let ghost h = ch.history.deep_view();
                let mut k: usize = 0;
                while k < ch.history.len()
                    invariant
                        h == ch.history.deep_view(),
                        h == self.history_of(channel),
                        k <= ch.history@.len(),
                        forall|j: int| 0 <= j < k ==> (#[trigger] h[j]).id != id,
                    decreases ch.history@.len() - k,
                {
                    if ch.history[k].id == id {
                        let m = ch.history[k].duplicate();
                        proof {
                            assert(h[k as int] == m@);
                            assert(h.contains(m@)) by {
                                assert(h[k as int] == m@);
                            }
                        }
                        return Some(m);
                    }
                    k = k + 1;
                }
                None
            },
        }
    }

    /// Reads a channel's display name.
    pub fn channel_name(&self, channel: u64) -> (r: Option<Vec<u8>>)
        requires
            self.wf(),
        ensures
            match r {
                Some(n) => holds_key(self.channels@, channel) && n@ == self.name_of(channel),
                None => !holds_key(self.channels@, channel),
            },
    {
        let found = self.channels.find(channel);
        match found {
            None => None,
            Some(ci) => {
                proof {
                    self.lemma_channel_at(ci as int, channel);
                }
                Some(crate::words::clone_bytes(&self.channels.get(ci).name))
            },
        }
    }
}

/// The history entry carrying snowflake `id`: in a strictly descending
/// history there is at most one.
pub open spec fn history_message(h: Seq<MsgView>, id: u64) -> MsgView {
    h[choose|i: int| 0 <= i < h.len() && (#[trigger] h[i]).id == id]
}

/// In a sorted history, a member with snowflake `id` is the entry with that
/// snowflake.
pub proof fn lemma_history_message_unique(h: Seq<MsgView>, m: MsgView, id: u64)
    requires
        history_sorted(h),
        h.contains(m),
        m.id == id,
        history_has(h, id),
    ensures
        m == history_message(h, id),
{
    let w = choose|w: int| 0 <= w < h.len() && h[w] == m;
    let j = choose|j: int| 0 <= j < h.len() && (#[trigger] h[j]).id == id;
    if w != j {
        assert(h[w].id != h[j].id);
    }
}

/// A served channel's backlog is sorted; an unknown channel's is empty and
/// sorted trivially.
pub proof fn lemma_history_of_sorted(remote: Remote, channel: u64)
    requires
        remote.wf(),
    ensures
        history_sorted(remote.history_of(channel)),
{
    if holds_key(remote.channels@, channel) {
        let i = choose|i: int|
            0 <= i < remote.channels@.len() && (#[trigger] remote.channels@[i].key()) == channel;
        assert(remote_channel_wf(remote.channels@[i]));
    }
}

/// A snowflake lives in at most one channel's backlog.
pub proof fn lemma_snowflake_one_channel(remote: Remote, ch1: u64, ch2: u64, id: u64)
    requires
        remote.wf(),
        history_has(remote.history_of(ch1), id),
        history_has(remote.history_of(ch2), id),
    ensures
        ch1 == ch2,
        remote.history_of(ch1) == remote.history_of(ch2),
{
    if ch1 != ch2 {
        assert(remote.history_of(ch1).len() > 0);
        assert(remote.history_of(ch2).len() > 0);
        assert(holds_key(remote.channels@, ch1));
        assert(holds_key(remote.channels@, ch2));
        let a = choose|a: int|
            0 <= a < remote.channels@.len() && (#[trigger] remote.channels@[a].key()) == ch1;
        let b = choose|b: int|
            0 <= b < remote.channels@.len() && (#[trigger] remote.channels@[b].key()) == ch2;
        remote.lemma_channel_at(a, ch1);
        remote.lemma_channel_at(b, ch2);
        assert(a != b);
        let i = choose|i: int|
            0 <= i < remote.history_of(ch1).len() && (#[trigger] remote.history_of(ch1)[i]).id
                == id;
        let j = choose|j: int|
            0 <= j < remote.history_of(ch2).len() && (#[trigger] remote.history_of(ch2)[j]).id
                == id;
        assert(remote.channels@[a].history.deep_view()[i].id != remote.channels@[
            b
        ].history.deep_view()[j].id);
        assert(false);
    }
}

/// Every message in a served backlog names its channel.
pub proof fn lemma_history_channel_field(remote: Remote, channel: u64)
    requires
        remote.wf(),
    ensures
        forall|i: int|
            0 <= i < remote.history_of(channel).len() ==> (
            #[trigger] remote.history_of(channel)[i]).channel == channel,
{
    if holds_key(remote.channels@, channel) {
        let a = choose|a: int|
            0 <= a < remote.channels@.len() && (#[trigger] remote.channels@[a].key()) == channel;
        remote.lemma_channel_at(a, channel);
        assert(remote_channel_wf(remote.channels@[a]));
    }
}

/// A cursor that admits none of the history leaves nothing behind.
proof fn lemma_cursor_filter_empty(h: Seq<MsgView>, cursor: Cursor)
    requires
        forall|i: int| 0 <= i < h.len() ==> !cursor_admits(cursor, (#[trigger] h[i]).id),
    ensures
        cursor_filter(h, cursor) =~= Seq::<MsgView>::empty(),
    decreases h.len(),
{
    reveal(Seq::filter);
    if h.len() > 0 {
        lemma_cursor_filter_empty(h.drop_last(), cursor);
    }
}

/// Continuing below the `k`-th admitted message serves exactly the rest: in a
/// strictly descending history, a `Before` cursor at the last yielded
/// snowflake cuts precisely where the previous page ended. This holds for the
/// cursors the paginator issues, which only ever tighten towards older
/// messages.
pub proof fn lemma_before_segment(h: Seq<MsgView>, cursor: Cursor, k: int)
    requires
        history_sorted(h),
        cursor is Start || cursor is Before,
        0 < k <= cursor_filter(h, cursor).len(),
    ensures
        cursor_filter(h, Cursor::Before(cursor_filter(h, cursor)[k - 1].id)) =~= cursor_filter(
            h,
            cursor,
        ).skip(k),
    decreases h.len(),
{
    broadcast use group_filter_ensures;

    reveal(Seq::filter);
    let f = cursor_filter(h, cursor);
    if h.len() == 0 {
        assert(false);
    } else {
        let h2 = h.drop_last();
        let m = h.last();
        let f2 = cursor_filter(h2, cursor);
        let x = f[k - 1].id;
        assert(forall|i: int| 0 <= i < h2.len() ==> (#[trigger] h2[i]).id > m.id);
        if cursor_admits(cursor, m.id) {
            assert(f == f2.push(m));
            if k <= f2.len() {
                assert(f[k - 1] == f2[k - 1]);
                lemma_before_segment(h2, cursor, k);
                assert(f2[k - 1] == cursor_filter(h2, cursor)[k - 1]);
                // The snowflake at the cut comes from the shorter history, so
                // it is newer than the dropped last message.
                Seq::<MsgView>::lemma_filter_contains_rev(
                    h2,
                    |mm: MsgView| cursor_admits(cursor, mm.id),
                    f2[k - 1],
                );
                assert(h2.contains(f2[k - 1]));
                let idx = choose|idx: int| 0 <= idx < h2.len() && h2[idx] == f2[k - 1];
                assert(h2[idx].id > m.id);
                assert(m.id < x);
                assert(cursor_filter(h, Cursor::Before(x)) == cursor_filter(
                    h2,
                    Cursor::Before(x),
                ).push(m));
                assert(cursor_filter(h, Cursor::Before(x)) =~= f.skip(k));
            } else {
                assert(k == f.len());
                assert(x == m.id);
                assert(forall|i: int|
                    0 <= i < h2.len() ==> !cursor_admits(
                        Cursor::Before(m.id),
                        (#[trigger] h2[i]).id,
                    ));
                lemma_cursor_filter_empty(h2, Cursor::Before(m.id));
                assert(cursor_filter(h, Cursor::Before(x)) == cursor_filter(
                    h2,
                    Cursor::Before(x),
                ));
                assert(cursor_filter(h, Cursor::Before(x)) =~= f.skip(k));
            }
        } else {
            assert(f == f2);
            assert(k <= f2.len());
            lemma_before_segment(h2, cursor, k);
            // The dropped message was refused by a `Before` bound, so it is
            // at least as new as the bound and older cuts refuse it too.
            assert(cursor is Before);
            assert(cursor_admits(cursor, x)) by {
                Seq::<MsgView>::lemma_filter_pred(
                    h,
                    |mm: MsgView| cursor_admits(cursor, mm.id),
                    k - 1,
                );
            }
            assert(!cursor_admits(Cursor::Before(x), m.id));
            assert(cursor_filter(h, Cursor::Before(x)) == cursor_filter(h2, Cursor::Before(x)));
            assert(cursor_filter(h, Cursor::Before(x)) =~= f.skip(k));
        }
    }
}

} // verus!
