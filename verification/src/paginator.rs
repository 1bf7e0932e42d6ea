//! Cursor-based history pagination over a page-size-capped remote source.
//!
//! `HistoryPaginator` is the decision half of the pagination loop: it says
//! which page to fetch next and hands buffered messages out one by one, and
//! the caller — whoever can actually reach the remote — performs each fetch
//! and feeds the page back in. `drain_channel` runs that loop against the
//! in-memory remote model and is proved to yield exactly the quota, or the
//! whole backlog where that is shorter.

use crate::msg::{Message, MsgView};
use crate::remote::{cursor_filter, Cursor, Remote};
use vstd::prelude::*;

verus! {

/// The page-size cap the remote enforces on one fetch.
pub const PAGE_LIMIT: u64 = 100;

/// One page request: where to read and how much.
#[derive(Clone, Copy)]
pub struct FetchRequest {
    pub channel: u64,
    pub cursor: Cursor,
    pub limit: u64,
}

/// The pagination state for one channel: a single-use, forward-only sequence.
pub struct HistoryPaginator {
    /// The channel being drained.
    pub channel: u64,
    /// The most messages this paginator may ever yield.
    pub quota: u64,
    /// How many messages have been yielded so far.
    pub yielded: u64,
    /// Fetched messages not yet handed out, newest first.
    pub buffer: Vec<Message>,
    /// The page request the caller still owes an answer to.
    pub pending: Option<FetchRequest>,
    /// Whether the sequence has ended.
    pub finished: bool,
}

impl HistoryPaginator {
    /// The machine's bookkeeping stays consistent: the buffer never holds
    /// more than the remaining quota, and a pending request always continues
    /// this channel with an empty buffer.
    pub open spec fn wf(&self) -> bool {
        &&& self.yielded <= self.quota
        &&& self.buffer@.len() <= self.quota - self.yielded
        &&& match self.pending {
            Some(req) => {
                &&& !self.finished
                &&& self.buffer@.len() == 0
                &&& req.channel == self.channel
                &&& req.limit == if self.quota - self.yielded <= PAGE_LIMIT {
                    (self.quota - self.yielded) as u64
                } else {
                    PAGE_LIMIT
                }
            },
            None => true,
        }
        &&& self.finished ==> self.buffer@.len() == 0 && self.pending is None
    }

    /// Starts a paginator and issues the first page request, capped at the
    /// lesser of the quota and the page-size limit.
    pub fn new(channel: u64, quota: u64, cursor: Cursor) -> (r: (HistoryPaginator, FetchRequest))
        ensures
            r.0.wf(),
            r.0.channel == channel,
            r.0.quota == quota,
            r.0.yielded == 0,
            r.0.buffer@.len() == 0,
            r.0.pending == Some(r.1),
            !r.0.finished,
            r.1.channel == channel,
            r.1.cursor == cursor,
            r.1.limit == if quota <= PAGE_LIMIT {
                quota
            } else {
                PAGE_LIMIT
            },
    {
        let limit = if quota <= PAGE_LIMIT {
            quota
        } else {
            PAGE_LIMIT
        };
        let req = FetchRequest { channel, cursor, limit };
        let p = HistoryPaginator {
            channel,
            quota,
            yielded: 0,
            buffer: Vec::new(),
            pending: Some(req),
            finished: false,
        };
        (p, req)
    }

    /// Accepts the page the pending request asked for. An empty page ends the
    /// sequence; the remote never hands back more than was asked.
    pub fn provide_page(&mut self, page: Vec<Message>)
        requires
            old(self).wf(),
            old(self).pending is Some,
            page@.len() <= old(self).pending->Some_0.limit,
        ensures
            final(self).wf(),
            final(self).channel == old(self).channel,
            final(self).quota == old(self).quota,
            final(self).yielded == old(self).yielded,
            final(self).pending is None,
            final(self).buffer.deep_view() == page.deep_view(),
            final(self).finished <==> page@.len() == 0,
    {
        self.pending = None;
        if page.len() == 0 {
            self.finished = true;
        } else {
            self.buffer = page;
        }
    }

    /// Gives up on the pending request and ends the sequence: how the caller
    /// degrades a failed initial fetch to an empty history.
    pub fn fail_page(&mut self)
        requires
            old(self).wf(),
            old(self).pending is Some,
        ensures
            final(self).wf(),
            final(self).channel == old(self).channel,
            final(self).quota == old(self).quota,
            final(self).yielded == old(self).yielded,
            final(self).pending is None,
            final(self).finished,
    {
        self.pending = None;
        self.finished = true;
    }

    /// Hands out the next buffered message, oldest request order first. When
    /// the buffer empties with quota to spare, the follow-up page request is
    /// issued, continuing strictly below the last yielded snowflake. An empty
    /// buffer ends the sequence.
    pub fn next(&mut self) -> (r: Option<Message>)
        requires
            old(self).wf(),
            old(self).pending is None,
        ensures
            final(self).wf(),
            final(self).channel == old(self).channel,
            final(self).quota == old(self).quota,
            match r {
                None => {
                    &&& old(self).buffer@.len() == 0 || old(self).yielded == old(self).quota
                    &&& final(self).finished
                    &&& final(self).yielded == old(self).yielded
                    &&& final(self).pending is None
                },
                Some(m) => ({
                    let fin = *final(self);
                    &&& old(self).buffer@.len() > 0
                    &&& m@ == old(self).buffer.deep_view()[0]
                    &&& fin.yielded == old(self).yielded + 1
                    &&& fin.buffer.deep_view() == old(self).buffer.deep_view().skip(1)
                    &&& !fin.finished
                    &&& fin.pending == if fin.buffer@.len() == 0 && fin.yielded < fin.quota {
                        Some(
                            FetchRequest {
                                channel: old(self).channel,
                                cursor: Cursor::Before(m@.id),
                                limit: if fin.quota - fin.yielded <= PAGE_LIMIT {
                                    (fin.quota - fin.yielded) as u64
                                } else {
                                    PAGE_LIMIT
                                },
                            },
                        )
                    } else {
                        None::<FetchRequest>
                    }
                }),
            },
    {
        if self.yielded >= self.quota || self.buffer.len() == 0 {
            self.buffer = Vec::new();
            self.finished = true;
            proof {
                assert(self.buffer.deep_view() =~~= Seq::<MsgView>::empty());
            }
            return None;
        }
        let ghost before = self.buffer.deep_view();
        let m = self.buffer.remove(0);
        proof {
            assert(self.buffer.deep_view() =~~= before.skip(1));
        }
        self.yielded = self.yielded + 1;
        if self.buffer.len() == 0 && self.yielded < self.quota {
            let remaining = self.quota - self.yielded;
            let limit = if remaining <= PAGE_LIMIT {
                remaining
            } else {
                PAGE_LIMIT
            };
            self.pending = Some(
                FetchRequest { channel: self.channel, cursor: Cursor::Before(m.id), limit },
            );
        }
        Some(m)
    }
}

/// The number of messages `cursor` admits in the channel's backlog.
pub open spec fn available(remote: Remote, channel: u64, cursor: Cursor) -> Seq<MsgView> {
    cursor_filter(remote.history_of(channel), cursor)
}

/// Drains one channel against the remote model: yields the admitted backlog,
/// newest first, cut to the quota. The sequence always terminates, and its
/// length is exactly the lesser of the quota and what the cursor admits.
pub fn drain_channel(remote: &Remote, channel: u64, quota: u64, before: Option<u64>) -> (r: Vec<
    Message,
>)
    requires
        remote.wf(),
    ensures
        ({
            let f = available(*remote, channel, initial_cursor(before));
            &&& r.deep_view() == f.take(if quota <= f.len() {
                quota as int
            } else {
                f.len() as int
            })
            &&& r.deep_view().len() == if quota <= f.len() {
                quota as int
            } else {
                f.len() as int
            }
        }),
{
    let cursor = match before {
        Some(b) => Cursor::Before(b),
        None => Cursor::Start,
    };
    broadcast use vstd::seq_lib::group_filter_ensures;

    let ghost h = remote.history_of(channel);
    let ghost f = cursor_filter(h, cursor);
    let (mut p, req) = HistoryPaginator::new(channel, quota, cursor);
    let page = remote.fetch_page(req.channel, req.cursor, req.limit);
    p.provide_page(page);
    let mut out: Vec<Message> = Vec::new();
    proof {
        assert(out.deep_view() =~~= f.take(0));
    }
    while !p.finished
        invariant
            remote.wf(),
            h == remote.history_of(channel),
            f == cursor_filter(h, cursor),
            cursor is Start || cursor is Before,
            p.wf(),
            p.channel == channel,
            p.quota == quota,
            p.yielded == out@.len(),
            out.deep_view() =~~= f.take(p.yielded as int),
            p.yielded <= f.len(),
            p.pending is None,
            p.yielded + p.buffer@.len() <= f.len(),
            p.buffer.deep_view() =~~= f.subrange(
                p.yielded as int,
                p.yielded + p.buffer@.len(),
            ),
            p.finished ==> p.yielded == quota || p.yielded == f.len(),
            !p.finished && p.buffer@.len() == 0 ==> p.yielded == quota || p.yielded == f.len(),
        decreases quota - p.yielded + (if p.finished {
            0int
        } else {
            1int
        }),
    {
        let step = p.next();
        match step {
            None => {
                proof {
                    assert(p.yielded + p.buffer@.len() <= f.len());
                }
            },
            Some(m) => {
                out.push(m);
                proof {
                    assert(out.deep_view() =~~= f.take(p.yielded as int));
                }
                let maybe_req = p.pending;
                proof {
                    assert(p.yielded <= f.len());
                }
                if let Some(req2) = maybe_req {
                    proof {
                        crate::remote::lemma_before_segment(h, cursor, p.yielded as int);
                        assert(f[p.yielded - 1] == m@);
                    }
                    let page2 = remote.fetch_page(req2.channel, req2.cursor, req2.limit);
                    proof {
                        let rest = f.skip(p.yielded as int);
                        assert(cursor_filter(h, Cursor::Before(m@.id)) == rest);
                        assert(page2.deep_view() == rest.take(
                            if req2.limit <= rest.len() {
                                req2.limit as int
                            } else {
                                rest.len() as int
                            },
                        ));
                    }
                    p.provide_page(page2);
                    proof {
                        let rest = f.skip(p.yielded as int);
                        assert(rest.len() == f.len() - p.yielded);
                        assert(p.buffer.deep_view().len() == page2.deep_view().len());
                        assert(page2.deep_view().len() <= rest.len());
                        assert(p.yielded + p.buffer@.len() <= f.len());
                        assert(p.buffer.deep_view() =~~= f.subrange(
                            p.yielded as int,
                            p.yielded + p.buffer@.len(),
                        ));
                    }
                } else {
                    proof {
                        assert(p.buffer.deep_view().len() == p.buffer@.len());
                        assert(p.yielded + p.buffer@.len() <= f.len());
                    }
                }
            },
        }
    }
    proof {
        if p.yielded == quota {
            assert(out.deep_view() =~~= f.take(
                if quota <= f.len() {
                    quota as int
                } else {
                    f.len() as int
                },
            ));
        } else {
            assert(p.yielded == f.len());
            assert(out.deep_view() =~~= f.take(
                if quota <= f.len() {
                    quota as int
                } else {
                    f.len() as int
                },
            ));
        }
    }
    out
}

/// The cursor a drain starts from: strictly older than `before`, or the
/// newest end of the history.
pub open spec fn initial_cursor(before: Option<u64>) -> Cursor {
    match before {
        Some(b) => Cursor::Before(b),
        None => Cursor::Start,
    }
}

} // verus!
