//! Reply-chain resolution: turning a message's reply reference into the
//! snowflake of a stored message, fetching and inserting missing ancestors
//! on the way.
//!
//! Resolution recurses through the chain under an explicit depth budget, so
//! malformed remote data cannot drive it forever: a reference deeper than the
//! budget resolves like a failed fetch. A message already stored under its
//! own snowflake — as happens when a chain loops back on itself — is left
//! alone, so cycles cost nothing beyond their first pass.

use crate::deltas::{bump, delta_count_of, delta_score_of, Deltas};
use crate::msg::ReplyRef;
use crate::remote::{
    history_has, history_message, lemma_history_channel_field, lemma_history_message_unique,
    lemma_history_of_sorted, lemma_snowflake_one_channel, Remote,
};
use crate::score::{content_score, content_score_milli, SCORE_CAP};
use crate::store::{
    author_message_count, author_score_sum, channel_message_count, channel_score_sum,
    channels_extended_zero, guilds_extended_zero, lemma_author_message_count_bounds,
    lemma_author_score_sum_bounds, lemma_channel_message_count_bounds,
    lemma_channel_score_sum_bounds, lemma_total_score_sum_bounds, total_score_sum,
    users_extended_zero, MessageRow, Store,
};
use crate::table::{holds_key, row_of, Keyed};
use vstd::prelude::*;

verus! {

/// The ingestion bookkeeping the resolver threads through every insert: the
/// store and deltas stay well-formed, and every delta accumulator stays
/// within the stored sum it mirrors.
pub open spec fn tracking_wf(store: Store, deltas: Deltas) -> bool {
    &&& store.wf()
    &&& deltas.wf()
    &&& forall|c: u64|
        0 <= #[trigger] delta_score_of(deltas.channels@, c) <= channel_score_sum(
            store.messages@,
            c,
        )
    &&& forall|c: u64|
        0 <= #[trigger] delta_count_of(deltas.channels@, c) <= channel_message_count(
            store.messages@,
            c,
        )
    &&& forall|g: u64|
        0 <= #[trigger] delta_score_of(deltas.guilds@, g) <= total_score_sum(store.messages@)
    &&& forall|g: u64| 0 <= #[trigger] delta_count_of(deltas.guilds@, g) <= store.messages@.len()
    &&& forall|u: u64|
        0 <= #[trigger] delta_score_of(deltas.users@, u) <= author_score_sum(store.messages@, u)
    &&& forall|u: u64|
        0 <= #[trigger] delta_count_of(deltas.users@, u) <= author_message_count(
            store.messages@,
            u,
        )
}

/// How one step of the run (inserting messages for guild `guild`) changed the
/// bookkeeping: rows were only appended, created entity rows start zeroed and
/// belong to `guild`, and every delta accumulator moved exactly with the
/// stored sums — per channel, per author, and for `guild` with the total.
pub open spec fn tracking_extends(
    store0: Store,
    deltas0: Deltas,
    store1: Store,
    deltas1: Deltas,
    guild: u64,
) -> bool {
    &&& store0.messages@.is_prefix_of(store1.messages@)
    &&& guilds_extended_zero(store0.guilds@, store1.guilds@)
    &&& channels_extended_zero(store0.channels@, store1.channels@, guild)
    &&& users_extended_zero(store0.users@, store1.users@, guild)
    &&& forall|c: u64|
        #[trigger] delta_score_of(deltas1.channels@, c) == delta_score_of(deltas0.channels@, c)
            + channel_score_sum(store1.messages@, c) - channel_score_sum(store0.messages@, c)
    &&& forall|c: u64|
        #[trigger] delta_count_of(deltas1.channels@, c) == delta_count_of(deltas0.channels@, c)
            + channel_message_count(store1.messages@, c) - channel_message_count(
            store0.messages@,
            c,
        )
    &&& forall|g: u64|
        #[trigger] delta_score_of(deltas1.guilds@, g) == delta_score_of(deltas0.guilds@, g) + if g
            == guild {
            total_score_sum(store1.messages@) - total_score_sum(store0.messages@)
        } else {
            0
        }
    &&& forall|g: u64|
        #[trigger] delta_count_of(deltas1.guilds@, g) == delta_count_of(deltas0.guilds@, g) + if g
            == guild {
            store1.messages@.len() - store0.messages@.len()
        } else {
            0
        }
    &&& forall|u: u64|
        #[trigger] delta_score_of(deltas1.users@, u) == delta_score_of(deltas0.users@, u)
            + author_score_sum(store1.messages@, u) - author_score_sum(store0.messages@, u)
    &&& forall|u: u64|
        #[trigger] delta_count_of(deltas1.users@, u) == delta_count_of(deltas0.users@, u)
            + author_message_count(store1.messages@, u) - author_message_count(
            store0.messages@,
            u,
        )
}

/// Whether resolving this reference could not have written anything: no
/// reference, no snowflake, a target already stored, or one out of reach.
pub open spec fn resolution_inert(
    msgs: Seq<MessageRow>,
    remote: Remote,
    reference: Option<ReplyRef>,
    budget: u64,
) -> bool {
    match reference {
        None => true,
        Some(rr) => match rr.message_id {
            None => true,
            Some(t) => holds_key(msgs, t) || budget == 0 || !history_has(
                remote.history_of(rr.channel),
                t,
            ),
        },
    }
}

/// Whether a stored message row is the remote's message with that snowflake,
/// scored by its content alone: the shape of every row the resolver inserts.
pub open spec fn row_from_remote(remote: Remote, row: MessageRow) -> bool {
    let h = remote.history_of(row.channel);
    &&& history_has(h, row.snowflake)
    &&& ({
        let m = history_message(h, row.snowflake);
        &&& row.content@ == m.content
        &&& row.author == m.author
        &&& row.channel == m.channel
        &&& row.timestamp == m.timestamp
        &&& row.score == content_score_milli(m.content)
    })
}

/// Nothing changed: the step extends trivially.
pub proof fn lemma_tracking_refl(store: Store, deltas: Deltas, guild: u64)
    ensures
        tracking_extends(store, deltas, store, deltas, guild),
{
    assert(store.messages@ =~= store.messages@.take(store.messages@.len() as int));
    assert(store.guilds@ =~= store.guilds@.take(store.guilds@.len() as int));
    assert(store.channels@ =~= store.channels@.take(store.channels@.len() as int));
    assert(store.users@ =~= store.users@.take(store.users@.len() as int));
}

/// Stepping twice extends as one step.
pub proof fn lemma_tracking_extends_trans(
    store0: Store,
    deltas0: Deltas,
    store1: Store,
    deltas1: Deltas,
    store2: Store,
    deltas2: Deltas,
    guild: u64,
)
    requires
        tracking_extends(store0, deltas0, store1, deltas1, guild),
        tracking_extends(store1, deltas1, store2, deltas2, guild),
    ensures
        tracking_extends(store0, deltas0, store2, deltas2, guild),
{
    assert(store0.messages@.is_prefix_of(store2.messages@)) by {
        assert(store0.messages@ =~= store2.messages@.take(store0.messages@.len() as int));
    }
    assert(store0.guilds@.is_prefix_of(store2.guilds@)) by {
        assert(store0.guilds@ =~= store2.guilds@.take(store0.guilds@.len() as int));
    }
    assert(store0.channels@.is_prefix_of(store2.channels@)) by {
        assert(store0.channels@ =~= store2.channels@.take(store0.channels@.len() as int));
    }
    assert(store0.users@.is_prefix_of(store2.users@)) by {
        assert(store0.users@ =~= store2.users@.take(store0.users@.len() as int));
    }
    assert forall|i: int| store0.guilds@.len() <= i < store2.guilds@.len() implies (
    #[trigger] store2.guilds@[i]).score == 0 && store2.guilds@[i].message_count == 0 by {
        if i < store1.guilds@.len() {
            assert(store2.guilds@[i] == store1.guilds@[i]);
        }
    }
    assert forall|i: int| store0.channels@.len() <= i < store2.channels@.len() implies (
    #[trigger] store2.channels@[i]).score == 0 && store2.channels@[i].message_count == 0
        && store2.channels@[i].guild == guild by {
        if i < store1.channels@.len() {
            assert(store2.channels@[i] == store1.channels@[i]);
        }
    }
    assert forall|i: int| store0.users@.len() <= i < store2.users@.len() implies (
    #[trigger] store2.users@[i]).score == 0 && store2.users@[i].message_count == 0
        && store2.users@[i].guild == guild by {
        if i < store1.users@.len() {
            assert(store2.users@[i] == store1.users@[i]);
        }
    }
}

/// Resolves a reply reference against the store, fetching missing ancestors
/// from the remote and inserting them with their own content scores. Exactly
/// one of these holds of the result:
/// - no reference, or one without a snowflake: `None`, nothing changes;
/// - the referenced snowflake is already stored: its snowflake, nothing
///   changes;
/// - it is missing but the referenced channel's backlog holds it and the
///   budget allows a fetch: its snowflake, and it is stored afterwards;
/// - it cannot be fetched: `None`, nothing changes.
/// Whatever was returned, a returned snowflake is stored afterwards. A
/// fetched target's stored row carries the fetched message's content, author,
/// channel and timestamp and its content score; and when the target's own
/// reference settles without a further fetch, its reply-to is the resolution
/// one level down.
pub fn resolve_reply(
    store: &mut Store,
    deltas: &mut Deltas,
    remote: &Remote,
    guild: u64,
    reference: Option<ReplyRef>,
    budget: u64,
) -> (r: Option<u64>)
    requires
        tracking_wf(*old(store), *old(deltas)),
        remote.wf(),
    ensures
        tracking_wf(*final(store), *final(deltas)),
        tracking_extends(*old(store), *old(deltas), *final(store), *final(deltas), guild),
        match reference {
            None => r is None && *final(store) == *old(store) && *final(deltas) == *old(deltas),
            Some(rr) => match rr.message_id {
                None => r is None && *final(store) == *old(store) && *final(deltas) == *old(
                    deltas,
                ),
                Some(id) => {
                    &&& holds_key(old(store).messages@, id) ==> r == Some(id) && *final(store)
                        == *old(store) && *final(deltas) == *old(deltas)
                    &&& (!holds_key(old(store).messages@, id) && budget > 0 && history_has(
                        remote.history_of(rr.channel),
                        id,
                    )) ==> r == Some(id)
                    &&& (!holds_key(old(store).messages@, id) && (budget == 0 || !history_has(
                        remote.history_of(rr.channel),
                        id,
                    ))) ==> r is None && *final(store) == *old(store) && *final(deltas) == *old(
                        deltas,
                    )
                    &&& (!holds_key(old(store).messages@, id) && budget > 0 && history_has(
                        remote.history_of(rr.channel),
                        id,
                    )) ==> ({
                        let fetched = history_message(remote.history_of(rr.channel), id);
                        match row_of(final(store).messages@, id) {
                            Some(row) => {
                                &&& row.content@ == fetched.content
                                &&& row.author == fetched.author
                                &&& row.channel == fetched.channel
                                &&& row.timestamp == fetched.timestamp
                                &&& row.score == content_score_milli(fetched.content)
                            },
                            None => false,
                        }
                    })
                    &&& (!holds_key(old(store).messages@, id) && budget > 0 && history_has(
                        remote.history_of(rr.channel),
                        id,
                    ) && resolution_inert(
                        old(store).messages@,
                        *remote,
                        history_message(remote.history_of(rr.channel), id).reference,
                        (budget - 1) as u64,
                    )) ==> ({
                        let fetched = history_message(remote.history_of(rr.channel), id);
                        match row_of(final(store).messages@, id) {
                            Some(row) => match fetched.reference {
                                None => row.replies_to is None,
                                Some(rr2) => match rr2.message_id {
                                    None => row.replies_to is None,
                                    Some(t) => {
                                        &&& holds_key(old(store).messages@, t) ==> row.replies_to
                                            == Some(t)
                                        &&& !holds_key(old(store).messages@, t) ==> row.replies_to
                                            is None
                                    },
                                },
                            },
                            None => false,
                        }
                    })
                },
            },
        },
        r matches Some(id) ==> holds_key(final(store).messages@, id),
        // Every row this call appended is the remote's message under its own
        // snowflake, scored by content.
        forall|j: int|
            old(store).messages@.len() <= j < final(store).messages@.len() ==> row_from_remote(
                *remote,
                #[trigger] final(store).messages@[j],
            ),
    decreases budget,
{
    proof {
        lemma_tracking_refl(*store, *deltas, guild);
    }
    let rr = match reference {
        None => {
            return None;
        },
        Some(rr) => rr,
    };
    let id = match rr.message_id {
        None => {
            return None;
        },
        Some(id) => id,
    };
    if store.contains_message(id) {
        return Some(id);
    }
    if budget == 0 {
        return None;
    }
    let fetched = remote.fetch_message(rr.channel, id);
    let m = match fetched {
        None => {
            return None;
        },
        Some(m) => m,
    };
    proof {
        let h = remote.history_of(rr.channel);
        assert(h.contains(m@));
        let w = choose|w: int| 0 <= w < h.len() && h[w] == m@;
        assert(h[w].id == id);
        assert(history_has(h, id));
        lemma_history_of_sorted(*remote, rr.channel);
        lemma_history_message_unique(h, m@, id);
        assert(m@ == history_message(h, id));
    }
    let ghost pre = (*store, *deltas);
    let parent = resolve_reply(store, deltas, remote, guild, m.reference, budget - 1);
    let ghost mid = (*store, *deltas);
    let score = content_score(m.content.as_slice());
    let channel_name = match remote.channel_name(m.channel) {
        Some(n) => n,
        None => Vec::new(),
    };
    store.ensure_channel_row(m.channel, channel_name, guild);
    store.ensure_user_row(m.author, m.author_name, guild);
    let row = MessageRow {
        snowflake: id,
        content: m.content,
        score,
        author: m.author,
        channel: m.channel,
        replies_to: parent,
        timestamp: m.timestamp,
    };
    let row_channel = row.channel;
    let row_author = row.author;
    let ghost before_insert = (*store, *deltas);
    let fresh = store.insert_message(row);
    let stored_count = store.messages.len();
    if fresh {
        proof {
            assert(stored_count as int == store.messages@.len());
            assert(store.messages@.drop_last() =~= before_insert.0.messages@);
        }
        bump(&mut deltas.channels, row_channel, score);
        bump(&mut deltas.guilds, guild, score);
        bump(&mut deltas.users, row_author, score);
        proof {
            lemma_sum_shift(
                before_insert.0,
                *store,
                *deltas,
                before_insert.1,
                row_channel,
                row_author,
                guild,
                score,
            );
            assert(before_insert.0.messages@.is_prefix_of(store.messages@)) by {
                assert(before_insert.0.messages@ =~= store.messages@.take(
                    before_insert.0.messages@.len() as int,
                ));
            }
            assert(tracking_extends(mid.0, mid.1, *store, *deltas, guild));
        }
    } else {
        proof {
            lemma_tracking_refl(*store, *deltas, guild);
            assert(tracking_extends(mid.0, mid.1, *store, *deltas, guild));
        }
    }
    proof {
        lemma_tracking_extends_trans(pre.0, pre.1, mid.0, mid.1, *store, *deltas, guild);
        let h = remote.history_of(rr.channel);
        assert(m@.channel == rr.channel) by {
            lemma_history_channel_field(*remote, rr.channel);
            let wc = choose|wc: int| 0 <= wc < h.len() && h[wc] == m@;
            assert(h[wc].channel == rr.channel);
        }
        assert forall|j: int|
            old(store).messages@.len() <= j < store.messages@.len() implies row_from_remote(
            *remote,
            #[trigger] store.messages@[j],
        ) by {
            if j < mid.0.messages@.len() {
                assert(store.messages@[j] == mid.0.messages@[j]);
                assert(row_from_remote(*remote, mid.0.messages@[j]));
            } else {
                assert(fresh);
                assert(j == store.messages@.len() - 1);
                let row = store.messages@[j];
                assert(row.channel == rr.channel);
                assert(history_has(h, row.snowflake));
                assert(history_message(h, row.snowflake) == m@);
                assert(row.content@ == m@.content);
                assert(row.score == content_score_milli(m@.content));
            }
        }
        assert(holds_key(store.messages@, id));
        let w = choose|w: int|
            0 <= w < store.messages@.len() && (#[trigger] store.messages@[w].key()) == id;
        if w < old(store).messages@.len() {
            assert(old(store).messages@[w] == store.messages@[w]);
            assert(holds_key(old(store).messages@, id));
        }
        assert(row_from_remote(*remote, store.messages@[w]));
        lemma_snowflake_one_channel(*remote, store.messages@[w].channel, rr.channel, id);
        crate::table::lemma_row_of_at(store.messages@, w);
        assert(row_of(store.messages@, id) == Some(store.messages@[w]));
        assert(history_message(h, id) == history_message(
            remote.history_of(store.messages@[w].channel),
            id,
        ));
        if resolution_inert(old(store).messages@, *remote, m@.reference, (budget - 1) as u64) {
            assert(mid.0 == pre.0 && mid.1 == pre.1);
            assert(fresh);
            let n = store.messages@.len() - 1;
            assert(store.messages@[n].snowflake == id);
            crate::table::lemma_row_of_at(store.messages@, n);
        }
    }
    Some(id)
}

/// After inserting one fresh message and bumping the matching channel, guild
/// and user accumulators by its score and a count of one, every tracking
/// relation still matches and no accumulator clipped.
pub(crate) proof fn lemma_sum_shift(
    store0: Store,
    store1: Store,
    deltas1: Deltas,
    deltas0: Deltas,
    channel: u64,
    author: u64,
    guild: u64,
    score: u64,
)
    requires
        store1.messages@.len() == store0.messages@.len() + 1,
        store1.messages@.drop_last() == store0.messages@,
        store1.messages@.last().channel == channel,
        store1.messages@.last().author == author,
        store1.messages@.last().score == score,
        forall|c: u64|
            #[trigger] delta_score_of(deltas1.channels@, c) == if c == channel {
                crate::store::sat_add_u128(delta_score_of(deltas0.channels@, c), score as int) as int
            } else {
                delta_score_of(deltas0.channels@, c)
            },
        forall|c: u64|
            #[trigger] delta_count_of(deltas1.channels@, c) == if c == channel {
                crate::store::sat_add_u64(delta_count_of(deltas0.channels@, c), 1) as int
            } else {
                delta_count_of(deltas0.channels@, c)
            },
        forall|g: u64|
            #[trigger] delta_score_of(deltas1.guilds@, g) == if g == guild {
                crate::store::sat_add_u128(delta_score_of(deltas0.guilds@, g), score as int) as int
            } else {
                delta_score_of(deltas0.guilds@, g)
            },
        forall|g: u64|
            #[trigger] delta_count_of(deltas1.guilds@, g) == if g == guild {
                crate::store::sat_add_u64(delta_count_of(deltas0.guilds@, g), 1) as int
            } else {
                delta_count_of(deltas0.guilds@, g)
            },
        forall|u: u64|
            #[trigger] delta_score_of(deltas1.users@, u) == if u == author {
                crate::store::sat_add_u128(delta_score_of(deltas0.users@, u), score as int) as int
            } else {
                delta_score_of(deltas0.users@, u)
            },
        forall|u: u64|
            #[trigger] delta_count_of(deltas1.users@, u) == if u == author {
                crate::store::sat_add_u64(delta_count_of(deltas0.users@, u), 1) as int
            } else {
                delta_count_of(deltas0.users@, u)
            },
        tracking_wf(store0, deltas0),
        store1.messages@.len() <= 0xFFFF_FFFF_FFFF_FFFFu64,
        forall|i: int|
            0 <= i < store1.messages@.len() ==> (#[trigger] store1.messages@[i]).score <= SCORE_CAP,
    ensures
        forall|c: u64|
            #[trigger] delta_score_of(deltas1.channels@, c) == delta_score_of(deltas0.channels@, c)
                + channel_score_sum(store1.messages@, c) - channel_score_sum(store0.messages@, c),
        forall|c: u64|
            #[trigger] delta_count_of(deltas1.channels@, c) == delta_count_of(deltas0.channels@, c)
                + channel_message_count(store1.messages@, c) - channel_message_count(
                store0.messages@,
                c,
            ),
        forall|g: u64|
            #[trigger] delta_score_of(deltas1.guilds@, g) == delta_score_of(deltas0.guilds@, g)
                + if g == guild {
                total_score_sum(store1.messages@) - total_score_sum(store0.messages@)
            } else {
                0
            },
        forall|g: u64|
            #[trigger] delta_count_of(deltas1.guilds@, g) == delta_count_of(deltas0.guilds@, g)
                + if g == guild {
                store1.messages@.len() - store0.messages@.len()
            } else {
                0
            },
        forall|u: u64|
            #[trigger] delta_score_of(deltas1.users@, u) == delta_score_of(deltas0.users@, u)
                + author_score_sum(store1.messages@, u) - author_score_sum(store0.messages@, u),
        forall|u: u64|
            #[trigger] delta_count_of(deltas1.users@, u) == delta_count_of(deltas0.users@, u)
                + author_message_count(store1.messages@, u) - author_message_count(
                store0.messages@,
                u,
            ),
        forall|c: u64|
            0 <= #[trigger] delta_score_of(deltas1.channels@, c) <= channel_score_sum(
                store1.messages@,
                c,
            ),
        forall|c: u64|
            0 <= #[trigger] delta_count_of(deltas1.channels@, c) <= channel_message_count(
                store1.messages@,
                c,
            ),
        forall|g: u64|
            0 <= #[trigger] delta_score_of(deltas1.guilds@, g) <= total_score_sum(
                store1.messages@,
            ),
        forall|g: u64| 0 <= #[trigger] delta_count_of(deltas1.guilds@, g) <= store1.messages@.len(),
        forall|u: u64|
            0 <= #[trigger] delta_score_of(deltas1.users@, u) <= author_score_sum(
                store1.messages@,
                u,
            ),
        forall|u: u64|
            0 <= #[trigger] delta_count_of(deltas1.users@, u) <= author_message_count(
                store1.messages@,
                u,
            ),
{
    assert((store0.messages@.len() + 1) * SCORE_CAP < u128::MAX) by (nonlinear_arith)
        requires
            store0.messages@.len() + 1 <= 0x1_0000_0000_0000_0000u128,
    ;
    assert(store0.messages@.len() * SCORE_CAP + SCORE_CAP <= (store0.messages@.len() + 1)
        * SCORE_CAP) by (nonlinear_arith);
    assert forall|c: u64| #[trigger]
        delta_score_of(deltas1.channels@, c) == delta_score_of(deltas0.channels@, c)
            + channel_score_sum(store1.messages@, c) - channel_score_sum(
            store0.messages@,
            c,
        ) by {
        lemma_channel_score_sum_bounds(store0.messages@, c);
        lemma_channel_score_sum_bounds(store1.messages@, c);
    }
    assert forall|c: u64| #[trigger]
        delta_count_of(deltas1.channels@, c) == delta_count_of(deltas0.channels@, c)
            + channel_message_count(store1.messages@, c) - channel_message_count(
            store0.messages@,
            c,
        ) by {
        lemma_channel_message_count_bounds(store0.messages@, c);
        lemma_channel_message_count_bounds(store1.messages@, c);
    }
    assert forall|g: u64| #[trigger]
        delta_score_of(deltas1.guilds@, g) == delta_score_of(deltas0.guilds@, g) + (if g == guild {
            total_score_sum(store1.messages@) - total_score_sum(store0.messages@)
        } else {
            0int
        }) by {
        lemma_total_score_sum_bounds(store0.messages@);
        lemma_total_score_sum_bounds(store1.messages@);
    }
    assert forall|u: u64| #[trigger]
        delta_score_of(deltas1.users@, u) == delta_score_of(deltas0.users@, u) + author_score_sum(
            store1.messages@,
            u,
        ) - author_score_sum(store0.messages@, u) by {
        lemma_author_score_sum_bounds(store0.messages@, u);
        lemma_author_score_sum_bounds(store1.messages@, u);
    }
    assert forall|u: u64| #[trigger]
        delta_count_of(deltas1.users@, u) == delta_count_of(deltas0.users@, u)
            + author_message_count(store1.messages@, u) - author_message_count(
            store0.messages@,
            u,
        ) by {
        lemma_author_message_count_bounds(store0.messages@, u);
        lemma_author_message_count_bounds(store1.messages@, u);
    }
    assert forall|c: u64|
        0 <= #[trigger] delta_score_of(deltas1.channels@, c) <= channel_score_sum(
            store1.messages@,
            c,
        ) by {
        lemma_channel_score_sum_bounds(store0.messages@, c);
        lemma_channel_score_sum_bounds(store1.messages@, c);
    }
    assert forall|c: u64|
        0 <= #[trigger] delta_count_of(deltas1.channels@, c) <= channel_message_count(
            store1.messages@,
            c,
        ) by {
        lemma_channel_message_count_bounds(store0.messages@, c);
        lemma_channel_message_count_bounds(store1.messages@, c);
    }
    assert forall|g: u64|
        0 <= #[trigger] delta_score_of(deltas1.guilds@, g) <= total_score_sum(
            store1.messages@,
        ) by {
        lemma_total_score_sum_bounds(store0.messages@);
        lemma_total_score_sum_bounds(store1.messages@);
    }
    assert forall|u: u64|
        0 <= #[trigger] delta_score_of(deltas1.users@, u) <= author_score_sum(
            store1.messages@,
            u,
        ) by {
        lemma_author_score_sum_bounds(store0.messages@, u);
        lemma_author_score_sum_bounds(store1.messages@, u);
    }
    assert forall|u: u64|
        0 <= #[trigger] delta_count_of(deltas1.users@, u) <= author_message_count(
            store1.messages@,
            u,
        ) by {
        lemma_author_message_count_bounds(store0.messages@, u);
        lemma_author_message_count_bounds(store1.messages@, u);
    }
}

} // verus!
