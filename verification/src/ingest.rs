//! The ingestion run: end-to-end orchestration of pagination, scoring,
//! reply resolution, persistence and the final aggregate flush.
//!
//! A run drains every requested channel, drops bot messages, sorts what is
//! left by snowflake so replies precede their referrers where possible and
//! windows see true send order, processes each message once, and flushes the
//! accumulated deltas as one upsert per touched entity. Re-running over a
//! backlog that is already stored changes nothing.

use crate::cache::{cache_sound, EntityKind, PresenceCache};
use crate::deltas::{bump, delta_count_of, delta_score_of, Deltas};
use crate::msg::{Message, MsgView};
use crate::paginator::{available, drain_channel, initial_cursor};
use crate::remote::{history_has, Cursor, Remote};
use crate::resolver::{
    lemma_sum_shift, lemma_tracking_extends_trans, lemma_tracking_refl, resolution_inert,
    resolve_reply, tracking_extends, tracking_wf,
};
use crate::score::{scored_against, window_push, SCORE_CAP};
use crate::store::{
    author_message_count, author_score_sum, channel_message_count, channel_score_sum,
    lemma_author_message_count_bounds, lemma_author_score_sum_bounds,
    lemma_channel_message_count_bounds, lemma_channel_score_sum_bounds,
    lemma_total_score_sum_bounds, messages_surviving, outside_guild, sat_add_u128, sat_add_u64,
    total_score_sum, ChannelRow, GuildRow, MessageRow, Store, UserRow,
};
use crate::table::{holds_key, row_of, Keyed};
use crate::windows::{window_of, AuthorWindows};
use crate::words::clone_bytes;
use vstd::prelude::*;

verus! {

/// What a finished run reports back: how many message rows it inserted.
pub struct IngestionReport {
    pub message_count: u64,
}

/// What the pagination of one channel yields under a quota: the newest part
/// of the backlog, cut to the quota.
pub open spec fn channel_slice(remote: Remote, channel: u64, quota: u64) -> Seq<MsgView> {
    let f = available(remote, channel, Cursor::Start);
    f.take(
        if quota <= f.len() {
            quota as int
        } else {
            f.len() as int
        },
    )
}

/// Whether every message the run would pull is already stored: the guard of
/// the idempotence guarantee.
pub open spec fn backlog_stored(
    remote: Remote,
    channels: Seq<u64>,
    quota: u64,
    msgs: Seq<MessageRow>,
) -> bool {
    forall|ci: int, k: int|
        0 <= ci < channels.len() && 0 <= k < channel_slice(remote, channels[ci], quota).len()
            ==> holds_key(msgs, (#[trigger] channel_slice(remote, channels[ci], quota)[k]).id)
}

/// Creates the guild row lazily behind the presence cache: a cache hit skips
/// the store entirely, a miss checks and creates, then marks.
fn ensure_guild(store: &mut Store, cache: &mut PresenceCache, guild: u64, name: &Vec<u8>)
    requires
        old(store).wf(),
        cache_sound(*old(cache), *old(store)),
    ensures
        final(store).wf(),
        cache_sound(*final(cache), *final(store)),
        holds_key(final(store).guilds@, guild),
        crate::store::guilds_extended_zero(old(store).guilds@, final(store).guilds@),
        final(store).channels@ == old(store).channels@,
        final(store).users@ == old(store).users@,
        final(store).messages@ == old(store).messages@,
        forall|k2: EntityKind, i2: u64| #[trigger]
            final(cache).has(k2, i2) <==> old(cache).has(k2, i2) || (k2 == EntityKind::Guild && i2
                == guild),
        !holds_key(old(store).guilds@, guild) ==> ({
            let created = final(store).guilds@.last();
            &&& final(store).guilds@.len() == old(store).guilds@.len() + 1
            &&& created.snowflake == guild
            &&& created.name@ == name@
            &&& created.user_count == 0
        }),
        holds_key(old(store).guilds@, guild) ==> final(store).guilds@ == old(store).guilds@,
{
    if cache.contains(EntityKind::Guild, guild) {
        proof {
            assert(store.guilds@ =~= store.guilds@.take(store.guilds@.len() as int));
        }
        cache.mark_present(EntityKind::Guild, guild);
    } else {
        store.ensure_guild_row(guild, clone_bytes(name));
        cache.mark_present(EntityKind::Guild, guild);
    }
}

/// As `ensure_guild`, for a channel row owned by `guild`.
fn ensure_channel(store: &mut Store, cache: &mut PresenceCache, id: u64, name: Vec<u8>, guild: u64)
    requires
        old(store).wf(),
        cache_sound(*old(cache), *old(store)),
    ensures
        final(store).wf(),
        cache_sound(*final(cache), *final(store)),
        holds_key(final(store).channels@, id),
        crate::store::channels_extended_zero(old(store).channels@, final(store).channels@, guild),
        final(store).guilds@ == old(store).guilds@,
        final(store).users@ == old(store).users@,
        final(store).messages@ == old(store).messages@,
        forall|k2: EntityKind, i2: u64| #[trigger]
            final(cache).has(k2, i2) <==> old(cache).has(k2, i2) || (k2 == EntityKind::Channel
                && i2 == id),
        !holds_key(old(store).channels@, id) ==> final(store).channels@ == old(
            store,
        ).channels@.push(
            ChannelRow { snowflake: id, name: name, score: 0, message_count: 0, guild: guild },
        ),
        holds_key(old(store).channels@, id) ==> final(store).channels@ == old(store).channels@,
{
    if cache.contains(EntityKind::Channel, id) {
        proof {
            assert(store.channels@ =~= store.channels@.take(store.channels@.len() as int));
        }
        cache.mark_present(EntityKind::Channel, id);
    } else {
        store.ensure_channel_row(id, name, guild);
        cache.mark_present(EntityKind::Channel, id);
    }
}

/// As `ensure_guild`, for a user row homed in `guild`.
fn ensure_user(store: &mut Store, cache: &mut PresenceCache, id: u64, name: Vec<u8>, guild: u64)
    requires
        old(store).wf(),
        cache_sound(*old(cache), *old(store)),
    ensures
        final(store).wf(),
        cache_sound(*final(cache), *final(store)),
        holds_key(final(store).users@, id),
        crate::store::users_extended_zero(old(store).users@, final(store).users@, guild),
        final(store).guilds@ == old(store).guilds@,
        final(store).channels@ == old(store).channels@,
        final(store).messages@ == old(store).messages@,
        forall|k2: EntityKind, i2: u64| #[trigger]
            final(cache).has(k2, i2) <==> old(cache).has(k2, i2) || (k2 == EntityKind::User && i2
                == id),
        !holds_key(old(store).users@, id) ==> final(store).users@ == old(store).users@.push(
            UserRow { snowflake: id, name: name, score: 0, message_count: 0, guild: guild },
        ),
        holds_key(old(store).users@, id) ==> final(store).users@ == old(store).users@,
{
    if cache.contains(EntityKind::User, id) {
        proof {
            assert(store.users@ =~= store.users@.take(store.users@.len() as int));
        }
        cache.mark_present(EntityKind::User, id);
    } else {
        store.ensure_user_row(id, name, guild);
        cache.mark_present(EntityKind::User, id);
    }
}

/// Processes one message: skips it when its snowflake is already stored, and
/// otherwise ensures its guild, channel and author rows, scores it against
/// the author's rolling window, resolves its reply reference, inserts the
/// row and accumulates the deltas.
///
/// A skipped message changes nothing at all — the skip comes before scoring,
/// so re-processing a stored backlog leaves even the windows alone.
pub fn handle_message(
    store: &mut Store,
    cache: &mut PresenceCache,
    windows: &mut AuthorWindows,
    deltas: &mut Deltas,
    remote: &Remote,
    m: &Message,
    guild: u64,
    guild_name: &Vec<u8>,
    budget: u64,
) -> (inserted: bool)
    requires
        tracking_wf(*old(store), *old(deltas)),
        cache_sound(*old(cache), *old(store)),
        old(windows).wf(),
        remote.wf(),
    ensures
        tracking_wf(*final(store), *final(deltas)),
        tracking_extends(*old(store), *old(deltas), *final(store), *final(deltas), guild),
        cache_sound(*final(cache), *final(store)),
        final(windows).wf(),
        holds_key(old(store).messages@, m@.id) ==> !inserted && *final(store) == *old(store)
            && *final(deltas) == *old(deltas) && *final(cache) == *old(cache) && *final(windows)
            == *old(windows),
        !holds_key(old(store).messages@, m@.id) ==> {
            &&& holds_key(final(store).messages@, m@.id)
            &&& holds_key(final(store).guilds@, guild)
            &&& holds_key(final(store).channels@, m@.channel)
            &&& holds_key(final(store).users@, m@.author)
            &&& window_of(final(windows).table@, m@.author) == window_push(
                window_of(old(windows).table@, m@.author),
                m@.content,
            )
            &&& forall|a: u64|
                a != m@.author ==> #[trigger] window_of(final(windows).table@, a) == window_of(
                    old(windows).table@,
                    a,
                )
        },
        (!holds_key(old(store).messages@, m@.id) && resolution_inert(
            old(store).messages@,
            *remote,
            m@.reference,
            budget,
        )) ==> inserted,
        inserted ==> !holds_key(old(store).messages@, m@.id) && match row_of(
            final(store).messages@,
            m@.id,
        ) {
            Some(row) => {
                &&& row.content@ == m@.content
                &&& row.author == m@.author
                &&& row.channel == m@.channel
                &&& row.timestamp == m@.timestamp
                &&& row.score == scored_against(
                    window_of(old(windows).table@, m@.author),
                    m@.content,
                )
                &&& match m@.reference {
                    None => row.replies_to is None,
                    Some(rr) => match rr.message_id {
                        None => row.replies_to is None,
                        Some(t) => {
                            &&& holds_key(old(store).messages@, t) ==> row.replies_to == Some(t)
                            &&& (!holds_key(old(store).messages@, t) && budget > 0 && history_has(
                                remote.history_of(rr.channel),
                                t,
                            )) ==> row.replies_to == Some(t) && holds_key(
                                final(store).messages@,
                                t,
                            )
                            &&& (!holds_key(old(store).messages@, t) && (budget == 0
                                || !history_has(remote.history_of(rr.channel), t)))
                                ==> row.replies_to is None
                        },
                    },
                }
                &&& (row.replies_to matches Some(t) ==> holds_key(final(store).messages@, t))
            },
            None => false,
        },
        (!holds_key(old(store).messages@, m@.id) && !holds_key(old(store).guilds@, guild)) ==> (
        match row_of(final(store).guilds@, guild) {
            Some(created) => created.name@ == guild_name@ && created.score == 0
                && created.message_count == 0 && created.user_count == 0,
            None => false,
        }),
        (!holds_key(old(store).messages@, m@.id) && !holds_key(old(store).channels@, m@.channel))
            ==> (match row_of(final(store).channels@, m@.channel) {
            Some(created) => created.guild == guild && created.score == 0
                && created.message_count == 0 && created.name@ == (if holds_key(
                remote.channels@,
                m@.channel,
            ) {
                remote.name_of(m@.channel)
            } else {
                Seq::<u8>::empty()
            }),
            None => false,
        }),
        (!holds_key(old(store).messages@, m@.id) && !holds_key(old(store).users@, m@.author)) ==> (
        match row_of(final(store).users@, m@.author) {
            Some(created) => created.guild == guild && created.score == 0
                && created.message_count == 0 && created.name@ == m@.author_name,
            None => false,
        }),
{
    if store.contains_message(m.id) {
        proof {
            lemma_tracking_refl(*store, *deltas, guild);
        }
        return false;
    }
    ensure_guild(store, cache, guild, guild_name);
    let chan_name = match remote.channel_name(m.channel) {
        Some(n) => n,
        None => Vec::new(),
    };
    ensure_channel(store, cache, m.channel, chan_name, guild);
    ensure_user(store, cache, m.author, clone_bytes(&m.author_name), guild);
    let score = windows.score_for(m.author, &m.content);
    let ghost pre = (*store, *deltas);
    proof {
        assert(old(store).messages@.is_prefix_of(store.messages@)) by {
            assert(old(store).messages@ =~= store.messages@.take(
                old(store).messages@.len() as int,
            ));
        }
        assert(tracking_extends(*old(store), *old(deltas), *store, *deltas, guild));
    }
    let parent = resolve_reply(store, deltas, remote, guild, m.reference, budget);
    let ghost mid = (*store, *deltas);
    let row = MessageRow {
        snowflake: m.id,
        content: clone_bytes(&m.content),
        score,
        author: m.author,
        channel: m.channel,
        replies_to: parent,
        timestamp: m.timestamp,
    };
    let row_channel = row.channel;
    let row_author = row.author;
    let ghost before_insert = (*store, *deltas);
    let fresh = store.insert_message(row);
    let stored_count = store.messages.len();
    if fresh {
        proof {
            assert(stored_count as int == store.messages@.len());
            lemma_channel_score_sum_bounds(before_insert.0.messages@, row_channel);
            lemma_channel_message_count_bounds(before_insert.0.messages@, row_channel);
            assert(store.messages@.drop_last() =~= before_insert.0.messages@);
        }
        bump(&mut deltas.channels, row_channel, score);
        bump(&mut deltas.guilds, guild, score);
        bump(&mut deltas.users, row_author, score);
        proof {
            lemma_sum_shift(
                before_insert.0,
                *store,
                *deltas,
                before_insert.1,
                row_channel,
                row_author,
                guild,
                score,
            );
            assert(before_insert.0.messages@.is_prefix_of(store.messages@)) by {
                assert(before_insert.0.messages@ =~= store.messages@.take(
                    before_insert.0.messages@.len() as int,
                ));
            }
            assert(tracking_extends(mid.0, mid.1, *store, *deltas, guild));
            let n = store.messages@.len() - 1;
            assert(store.messages@[n].key() == m@.id);
            crate::table::lemma_row_of_at(store.messages@, n);
        }
    } else {
        proof {
            lemma_tracking_refl(*store, *deltas, guild);
            assert(tracking_extends(mid.0, mid.1, *store, *deltas, guild));
        }
    }
    proof {
        lemma_tracking_extends_trans(pre.0, pre.1, mid.0, mid.1, *store, *deltas, guild);
        lemma_tracking_extends_trans(
            *old(store),
            *old(deltas),
            pre.0,
            pre.1,
            *store,
            *deltas,
            guild,
        );
        if !holds_key(old(store).guilds@, guild) {
            let gs = pre.0.guilds@;
            let n = gs.len() - 1;
            assert(gs[n] == gs.last());
            assert(gs[n].key() == guild);
            crate::table::lemma_row_of_at(gs, n);
            assert(gs.is_prefix_of(store.guilds@)) by {
                assert(gs =~= store.guilds@.take(gs.len() as int));
            }
            crate::table::lemma_row_of_prefix(gs, store.guilds@, guild);
        }
        if !holds_key(old(store).channels@, m@.channel) {
            let cs = pre.0.channels@;
            let n = cs.len() - 1;
            assert(cs[n] == cs.last());
            assert(cs[n].key() == m@.channel);
            crate::table::lemma_row_of_at(cs, n);
            assert(cs.is_prefix_of(store.channels@)) by {
                assert(cs =~= store.channels@.take(cs.len() as int));
            }
            crate::table::lemma_row_of_prefix(cs, store.channels@, m@.channel);
        }
        if !holds_key(old(store).users@, m@.author) {
            let us = pre.0.users@;
            let n = us.len() - 1;
            assert(us[n] == us.last());
            assert(us[n].key() == m@.author);
            crate::table::lemma_row_of_at(us, n);
            assert(us.is_prefix_of(store.users@)) by {
                assert(us =~= store.users@.take(us.len() as int));
            }
            crate::table::lemma_row_of_prefix(us, store.users@, m@.author);
        }
    }
    fresh
}

/// The messages kept after dropping automated authors.
pub open spec fn human_messages(s: Seq<MsgView>) -> Seq<MsgView> {
    s.filter(|m: MsgView| !m.author_is_bot)
}

/// Drops messages from automated authors.
fn filter_bots(msgs: Vec<Message>) -> (r: Vec<Message>)
    ensures
        r.deep_view() == human_messages(msgs.deep_view()),
{
    let ghost all = msgs.deep_view();
    let mut rest = msgs;
    let mut kept: Vec<Message> = Vec::new();
    let ghost mut j: int = 0;
    proof {
        reveal(Seq::filter);
        assert(kept.deep_view() =~~= human_messages(all.take(0)));
        assert(rest.deep_view() =~~= all.skip(0));
    }
    while rest.len() > 0
        invariant
            0 <= j <= all.len(),
            rest.deep_view() =~~= all.skip(j),
            kept.deep_view() =~~= human_messages(all.take(j)),
        decreases rest@.len(),
    {
        let ghost prev = rest@;
        let ghost prev_deep = rest.deep_view();
        proof {
            assert(prev_deep == all.skip(j));
            assert(prev_deep.len() == prev.len());
            assert(prev.len() > 0);
            assert(j < all.len());
        }
        let row = rest.remove(0);
        proof {
            assert(row@ == all[j]) by {
                assert(row == prev[0]);
                assert(prev_deep[0] == prev[0]@);
            }
            assert(rest@ =~= prev.skip(1));
            assert(rest.deep_view() =~~= all.skip(j + 1)) by {
                assert forall|t: int| 0 <= t < rest@.len() implies rest.deep_view()[t] == all.skip(
                    j + 1,
                )[t] by {
                    assert(rest@[t] == prev[t + 1]);
                    assert(prev_deep[t + 1] == prev[t + 1]@);
                }
            }
            reveal(Seq::filter);
            assert(all.take(j + 1).drop_last() =~= all.take(j));
            assert(all.take(j + 1).last() == all[j]);
        }
        if !row.author_is_bot {
            kept.push(row);
            proof {
                assert(kept.deep_view() =~~= human_messages(all.take(j + 1)));
            }
        }
        proof {
            j = j + 1;
        }
    }
    proof {
        assert(all.take(j) =~= all);
        assert(kept.deep_view() =~~= human_messages(all));
    }
    kept
}

/// Snowflakes never decrease along the sequence.
pub open spec fn ascending_by_id(s: Seq<MsgView>) -> bool {
    forall|i: int, j: int| 0 <= i < j < s.len() ==> (#[trigger] s[i]).id <= (#[trigger] s[j]).id
}

/// Sorts messages by snowflake, oldest first: the same messages, in
/// chronological order.
fn sort_by_snowflake(msgs: Vec<Message>) -> (r: Vec<Message>)
    ensures
        r.deep_view().to_multiset() == msgs.deep_view().to_multiset(),
        ascending_by_id(r.deep_view()),
{
    broadcast use vstd::prelude::Seq::to_multiset_ensures;

    let ghost all = msgs.deep_view();
    let mut rest = msgs;
    let mut out: Vec<Message> = Vec::new();
    proof {
        assert(out.deep_view() =~~= Seq::<MsgView>::empty());
        assert(rest.deep_view() =~~= all);
        assert(out.deep_view().to_multiset().len() == 0);
        assert(out.deep_view().to_multiset() =~= vstd::multiset::Multiset::<MsgView>::empty());
        assert(out.deep_view().to_multiset().add(rest.deep_view().to_multiset())
            =~= all.to_multiset());
    }
    while rest.len() > 0
        invariant
            out.deep_view().to_multiset().add(rest.deep_view().to_multiset())
                == all.to_multiset(),
            ascending_by_id(out.deep_view()),
            forall|oi: int, rj: int|
                0 <= oi < out.deep_view().len() && 0 <= rj < rest.deep_view().len() ==> (
                #[trigger] out.deep_view()[oi]).id <= (#[trigger] rest.deep_view()[rj]).id,
        decreases rest@.len(),
    {
        let mut mi: usize = 0;
        let mut k: usize = 1;
        while k < rest.len()
            invariant
                mi < k <= rest@.len() || (k <= rest@.len() && mi == 0),
                mi < rest@.len(),
                forall|t: int|
                    0 <= t < k ==> (#[trigger] rest.deep_view()[mi as int]).id
                        <= rest.deep_view()[t].id,
            decreases rest@.len() - k,
        {
            if rest[k].id < rest[mi].id {
                mi = k;
            }
            k = k + 1;
        }
        let ghost rest_before = rest.deep_view();
        let ghost out_before = out.deep_view();
        let ghost prev = rest@;
        let picked = rest.remove(mi);
        proof {
            assert(picked == prev[mi as int]);
            assert(picked@ == rest_before[mi as int]);
            assert(rest@ =~= prev.remove(mi as int));
            assert(prev.remove(mi as int) =~= prev.take(mi as int) + prev.skip(mi + 1));
            assert(rest.deep_view() =~~= rest_before.remove(mi as int)) by {
                assert(rest_before.remove(mi as int) =~= rest_before.take(mi as int)
                    + rest_before.skip(mi + 1));
                assert forall|t: int| 0 <= t < rest@.len() implies rest.deep_view()[t]
                    == rest_before.remove(mi as int)[t] by {
                    if t < mi {
                        assert(rest@[t] == prev[t]);
                    } else {
                        assert(rest@[t] == prev[t + 1]);
                    }
                }
            }
        }
        out.push(picked);
        proof {
            assert(out.deep_view() =~~= out_before.push(picked@));
            out_before.to_multiset_ensures();
            rest_before.to_multiset_ensures();
            assert(rest_before.to_multiset().count(picked@) > 0) by {
                assert(rest_before.contains(picked@)) by {
                    assert(rest_before[mi as int] == picked@);
                }
            }
            assert(out.deep_view().to_multiset() == out_before.to_multiset().insert(picked@)) by {
                assert(out.deep_view() == out_before.push(picked@));
                assert(out_before.push(picked@).to_multiset() =~= out_before.to_multiset().insert(
                    picked@,
                ));
            }
            assert(rest.deep_view().to_multiset() == rest_before.to_multiset().remove(picked@)) by {
                assert(rest.deep_view() == rest_before.remove(mi as int));
                assert(rest_before.remove(mi as int).to_multiset()
                    =~= rest_before.to_multiset().remove(rest_before[mi as int]));
            }
            assert(out.deep_view().to_multiset().add(rest.deep_view().to_multiset())
                =~= out_before.to_multiset().add(rest_before.to_multiset()));
            assert forall|oi: int, rj: int|
                0 <= oi < out.deep_view().len() && 0 <= rj
                    < rest.deep_view().len() implies (#[trigger] out.deep_view()[oi]).id <= (
            #[trigger] rest.deep_view()[rj]).id by {
                let orig_rj: int = if rj < mi {
                    rj
                } else {
                    rj + 1
                };
                assert(rest.deep_view()[rj] == rest_before[orig_rj]);
                if oi < out_before.len() {
                    assert(out.deep_view()[oi] == out_before[oi]);
                } else {
                    assert(out.deep_view()[oi] == picked@);
                    assert(rest_before[mi as int].id <= rest_before[orig_rj].id);
                }
            }
            assert forall|i: int, j2: int|
                0 <= i < j2 < out.deep_view().len() implies (#[trigger] out.deep_view()[i]).id <= (
            #[trigger] out.deep_view()[j2]).id by {
                if j2 == out.deep_view().len() - 1 {
                    assert(out.deep_view()[i] == out_before[i]);
                    assert(out.deep_view()[j2] == picked@);
                }
            }
        }
    }
    proof {
        assert(rest.deep_view() =~~= Seq::<MsgView>::empty());
        assert(out.deep_view().to_multiset() =~= all.to_multiset());
    }
    out
}

/// A channel row after the flush: its key and name stand, the accumulated
/// score and count were added on, clipping at the top of the ranges.
pub open spec fn flushed_channel(
    row: ChannelRow,
    d: Seq<crate::deltas::DeltaRow>,
) -> ChannelRow {
    ChannelRow {
        score: sat_add_u128(row.score as int, delta_score_of(d, row.snowflake)),
        message_count: sat_add_u64(row.message_count as int, delta_count_of(d, row.snowflake)),
        ..row
    }
}

/// A guild row after the flush.
pub open spec fn flushed_guild(row: GuildRow, d: Seq<crate::deltas::DeltaRow>) -> GuildRow {
    GuildRow {
        score: sat_add_u128(row.score as int, delta_score_of(d, row.snowflake)),
        message_count: sat_add_u64(row.message_count as int, delta_count_of(d, row.snowflake)),
        ..row
    }
}

/// A user row after the flush.
pub open spec fn flushed_user(row: UserRow, d: Seq<crate::deltas::DeltaRow>) -> UserRow {
    UserRow {
        score: sat_add_u128(row.score as int, delta_score_of(d, row.snowflake)),
        message_count: sat_add_u64(row.message_count as int, delta_count_of(d, row.snowflake)),
        ..row
    }
}

/// Flushes the accumulated deltas: one upsert per stored row, adding its
/// accumulator onto the row. Rows nothing was accumulated for gain zero.
pub fn flush(store: &mut Store, deltas: &Deltas)
    requires
        old(store).wf(),
        deltas.wf(),
    ensures
        final(store).wf(),
        final(store).messages@ == old(store).messages@,
        final(store).guilds@.len() == old(store).guilds@.len(),
        final(store).channels@.len() == old(store).channels@.len(),
        final(store).users@.len() == old(store).users@.len(),
        forall|i: int|
            0 <= i < old(store).guilds@.len() ==> #[trigger] final(store).guilds@[i]
                == flushed_guild(old(store).guilds@[i], deltas.guilds@),
        forall|i: int|
            0 <= i < old(store).channels@.len() ==> #[trigger] final(store).channels@[i]
                == flushed_channel(old(store).channels@[i], deltas.channels@),
        forall|i: int|
            0 <= i < old(store).users@.len() ==> #[trigger] final(store).users@[i]
                == flushed_user(old(store).users@[i], deltas.users@),
{
    let mut i: usize = 0;
    while i < store.guilds.len()
        invariant
            store.wf(),
            deltas.wf(),
            store.guilds@.len() == old(store).guilds@.len(),
            store.channels@ == old(store).channels@,
            store.users@ == old(store).users@,
            store.messages@ == old(store).messages@,
            i <= store.guilds@.len(),
            forall|k: int|
                i <= k < store.guilds@.len() ==> #[trigger] store.guilds@[k] == old(
                    store,
                ).guilds@[k],
            forall|k: int|
                0 <= k < i ==> #[trigger] store.guilds@[k] == flushed_guild(
                    old(store).guilds@[k],
                    deltas.guilds@,
                ),
        decreases store.guilds@.len() - i,
    {
        let id = store.guilds.get(i).read_key();
        let ghost before = *store;
        let found = deltas.guilds.find(id);
        match found {
            Some(di) => {
                let d = *deltas.guilds.get(di);
                proof {
                    crate::deltas::lemma_delta_at(deltas.guilds@, di as int);
                }
                let applied = store.upsert_guild_delta(id, d.score, d.count);
                proof {
                    assert(applied);
                    let j = choose|j: int|
                        0 <= j < before.guilds@.len() && (#[trigger] before.guilds@[j]).snowflake
                            == id && store.guilds@ == before.guilds@.update(
                            j,
                            GuildRow {
                                score: sat_add_u128(before.guilds@[j].score as int, d.score as int),
                                message_count: sat_add_u64(
                                    before.guilds@[j].message_count as int,
                                    d.count as int,
                                ),
                                ..before.guilds@[j]
                            },
                        );
                    if j != i {
                        assert(before.guilds@[j].key() != before.guilds@[i as int].key());
                    }
                }
            },
            None => {
                proof {
                    assert(store.guilds@[i as int] == flushed_guild(
                        old(store).guilds@[i as int],
                        deltas.guilds@,
                    ));
                }
            },
        }
        i = i + 1;
    }
    let ghost after_guilds = *store;
    let mut i2: usize = 0;
    while i2 < store.channels.len()
        invariant
            store.wf(),
            deltas.wf(),
            store.guilds@ == after_guilds.guilds@,
            store.channels@.len() == old(store).channels@.len(),
            after_guilds.channels@ == old(store).channels@,
            store.users@ == old(store).users@,
            store.messages@ == old(store).messages@,
            i2 <= store.channels@.len(),
            forall|k: int|
                i2 <= k < store.channels@.len() ==> #[trigger] store.channels@[k] == old(
                    store,
                ).channels@[k],
            forall|k: int|
                0 <= k < i2 ==> #[trigger] store.channels@[k] == flushed_channel(
                    old(store).channels@[k],
                    deltas.channels@,
                ),
        decreases store.channels@.len() - i2,
    {
        let id = store.channels.get(i2).read_key();
        let ghost before = *store;
        let found = deltas.channels.find(id);
        match found {
            Some(di) => {
                let d = *deltas.channels.get(di);
                proof {
                    crate::deltas::lemma_delta_at(deltas.channels@, di as int);
                }
                let applied = store.upsert_channel_delta(id, d.score, d.count);
                proof {
                    assert(applied);
                    let j = choose|j: int|
                        0 <= j < before.channels@.len() && (
                        #[trigger] before.channels@[j]).snowflake == id && store.channels@
                            == before.channels@.update(
                            j,
                            ChannelRow {
                                score: sat_add_u128(
                                    before.channels@[j].score as int,
                                    d.score as int,
                                ),
                                message_count: sat_add_u64(
                                    before.channels@[j].message_count as int,
                                    d.count as int,
                                ),
                                ..before.channels@[j]
                            },
                        );
                    if j != i2 {
                        assert(before.channels@[j].key() != before.channels@[i2 as int].key());
                    }
                }
            },
            None => {
                proof {
                    assert(store.channels@[i2 as int] == flushed_channel(
                        old(store).channels@[i2 as int],
                        deltas.channels@,
                    ));
                }
            },
        }
        i2 = i2 + 1;
    }
    let ghost after_channels = *store;
    let mut i3: usize = 0;
    while i3 < store.users.len()
        invariant
            store.wf(),
            deltas.wf(),
            store.guilds@ == after_channels.guilds@,
            store.channels@ == after_channels.channels@,
            after_channels.guilds@ == after_guilds.guilds@,
            after_guilds.channels@ == old(store).channels@,
            forall|k: int|
                0 <= k < old(store).guilds@.len() ==> #[trigger] after_guilds.guilds@[k]
                    == flushed_guild(old(store).guilds@[k], deltas.guilds@),
            after_guilds.guilds@.len() == old(store).guilds@.len(),
            forall|k: int|
                0 <= k < old(store).channels@.len() ==> #[trigger] after_channels.channels@[k]
                    == flushed_channel(old(store).channels@[k], deltas.channels@),
            after_channels.channels@.len() == old(store).channels@.len(),
            store.users@.len() == old(store).users@.len(),
            store.messages@ == old(store).messages@,
            i3 <= store.users@.len(),
            forall|k: int|
                i3 <= k < store.users@.len() ==> #[trigger] store.users@[k] == old(
                    store,
                ).users@[k],
            forall|k: int|
                0 <= k < i3 ==> #[trigger] store.users@[k] == flushed_user(
                    old(store).users@[k],
                    deltas.users@,
                ),
        decreases store.users@.len() - i3,
    {
        let id = store.users.get(i3).read_key();
        let ghost before = *store;
        let found = deltas.users.find(id);
        match found {
            Some(di) => {
                let d = *deltas.users.get(di);
                proof {
                    crate::deltas::lemma_delta_at(deltas.users@, di as int);
                }
                let applied = store.upsert_user_delta(id, d.score, d.count);
                proof {
                    assert(applied);
                    let j = choose|j: int|
                        0 <= j < before.users@.len() && (#[trigger] before.users@[j]).snowflake
                            == id && store.users@ == before.users@.update(
                            j,
                            UserRow {
                                score: sat_add_u128(before.users@[j].score as int, d.score as int),
                                message_count: sat_add_u64(
                                    before.users@[j].message_count as int,
                                    d.count as int,
                                ),
                                ..before.users@[j]
                            },
                        );
                    if j != i3 {
                        assert(before.users@[j].key() != before.users@[i3 as int].key());
                    }
                }
            },
            None => {
                proof {
                    assert(store.users@[i3 as int] == flushed_user(
                        old(store).users@[i3 as int],
                        deltas.users@,
                    ));
                }
            },
        }
        i3 = i3 + 1;
    }
}

/// The message rows the run starts from: the incoming table, or what the
/// cascade of `guild` left of it.
pub open spec fn run_base_messages(s: Store, guild: u64, reset: bool) -> Seq<MessageRow> {
    if reset {
        messages_surviving(s.messages@, s.channels@, s.users@, guild)
    } else {
        s.messages@
    }
}

/// The guild rows the run starts from.
pub open spec fn run_base_guilds(s: Store, guild: u64, reset: bool) -> Seq<GuildRow> {
    if reset {
        outside_guild(s.guilds@, guild)
    } else {
        s.guilds@
    }
}

/// The channel rows the run starts from.
pub open spec fn run_base_channels(s: Store, guild: u64, reset: bool) -> Seq<ChannelRow> {
    if reset {
        outside_guild(s.channels@, guild)
    } else {
        s.channels@
    }
}

/// The user rows the run starts from.
pub open spec fn run_base_users(s: Store, guild: u64, reset: bool) -> Seq<UserRow> {
    if reset {
        outside_guild(s.users@, guild)
    } else {
        s.users@
    }
}

/// Whether some requested channel's slice yields this message.
pub open spec fn slice_member(remote: Remote, channels: Seq<u64>, quota: u64, m: MsgView) -> bool {
    exists|ci: int|
        0 <= ci < channels.len() && (#[trigger] channel_slice(remote, channels[ci], quota)).contains(
            m,
        )
}

/// Runs one ingestion pass: optionally resets the guild, drains each
/// requested channel up to the quota, drops bot messages, sorts by snowflake,
/// processes every message once, and flushes the accumulated deltas.
///
/// The contract pins the run down from both ends. Every non-bot message the
/// pagination yields is stored afterwards, and re-running over a backlog that
/// is already stored changes nothing and reports zero. The run continues from
/// the incoming tables — or, on a reset, from what the cascade left — with
/// message rows only appended; every surviving entity row gains exactly the
/// returned accumulators, which equal how much each stored sum moved. From an
/// empty store that makes every aggregate column the exact sum over its
/// stored messages: per channel, per author, and the guild's totals.
pub fn ingest(
    store: &mut Store,
    cache: &mut PresenceCache,
    windows: &mut AuthorWindows,
    remote: &Remote,
    guild: u64,
    guild_name: &Vec<u8>,
    channels: &Vec<u64>,
    quota: u64,
    reset: bool,
    budget: u64,
) -> (r: (IngestionReport, Deltas))
    requires
        old(store).wf(),
        cache_sound(*old(cache), *old(store)),
        old(windows).wf(),
        remote.wf(),
    ensures
        final(store).wf(),
        cache_sound(*final(cache), *final(store)),
        final(windows).wf(),
        (!reset && backlog_stored(*remote, channels@, quota, old(store).messages@)) ==> {
            &&& final(store).guilds@ == old(store).guilds@
            &&& final(store).channels@ == old(store).channels@
            &&& final(store).users@ == old(store).users@
            &&& final(store).messages@ == old(store).messages@
            &&& r.0.message_count == 0
        },
        (old(store).messages@.len() == 0 && old(store).channels@.len() == 0) ==> forall|i: int|
            0 <= i < final(store).channels@.len() ==> {
                &&& (#[trigger] final(store).channels@[i]).score == channel_score_sum(
                    final(store).messages@,
                    final(store).channels@[i].snowflake,
                )
                &&& final(store).channels@[i].message_count == channel_message_count(
                    final(store).messages@,
                    final(store).channels@[i].snowflake,
                )
            },
        !reset ==> old(store).messages@.len() <= final(store).messages@.len()
            && r.0.message_count == final(store).messages@.len() - old(store).messages@.len(),
        // Work is done: every non-bot message the pagination yields is stored
        // when the run ends.
        forall|ci: int, k: int|
            0 <= ci < channels@.len() && 0 <= k < channel_slice(
                *remote,
                channels@[ci],
                quota,
            ).len() && !(#[trigger] channel_slice(*remote, channels@[ci], quota)[k]).author_is_bot
                ==> holds_key(
                final(store).messages@,
                channel_slice(*remote, channels@[ci], quota)[k].id,
            ),
        // The run continues from the incoming tables, or from what the
        // cascade left of them: message rows are only appended.
        run_base_messages(*old(store), guild, reset).is_prefix_of(final(store).messages@),
        // The returned deltas are the run's accumulators: exactly how much
        // each stored sum moved during the run.
        forall|c: u64|
            #[trigger] delta_score_of(r.1.channels@, c) == channel_score_sum(
                final(store).messages@,
                c,
            ) - channel_score_sum(run_base_messages(*old(store), guild, reset), c),
        forall|c: u64|
            #[trigger] delta_count_of(r.1.channels@, c) == channel_message_count(
                final(store).messages@,
                c,
            ) - channel_message_count(run_base_messages(*old(store), guild, reset), c),
        forall|g: u64|
            #[trigger] delta_score_of(r.1.guilds@, g) == if g == guild {
                total_score_sum(final(store).messages@) - total_score_sum(
                    run_base_messages(*old(store), guild, reset),
                )
            } else {
                0
            },
        forall|g: u64|
            #[trigger] delta_count_of(r.1.guilds@, g) == if g == guild {
                final(store).messages@.len() - run_base_messages(*old(store), guild, reset).len()
            } else {
                0
            },
        forall|u: u64|
            #[trigger] delta_score_of(r.1.users@, u) == author_score_sum(
                final(store).messages@,
                u,
            ) - author_score_sum(run_base_messages(*old(store), guild, reset), u),
        forall|u: u64|
            #[trigger] delta_count_of(r.1.users@, u) == author_message_count(
                final(store).messages@,
                u,
            ) - author_message_count(run_base_messages(*old(store), guild, reset), u),
        // Entity rows the run started from survive with the run's accumulators
        // added on; rows created during the run carry exactly their
        // accumulators, and created channel and user rows belong to `guild`.
        ({
            let bg = run_base_guilds(*old(store), guild, reset);
            &&& bg.len() <= final(store).guilds@.len()
            &&& forall|i: int|
                0 <= i < bg.len() ==> #[trigger] final(store).guilds@[i] == flushed_guild(
                    bg[i],
                    r.1.guilds@,
                )
            &&& forall|i: int|
                bg.len() <= i < final(store).guilds@.len() ==> ({
                    let row = #[trigger] final(store).guilds@[i];
                    &&& row.score == sat_add_u128(0, delta_score_of(r.1.guilds@, row.snowflake))
                    &&& row.message_count == sat_add_u64(
                        0,
                        delta_count_of(r.1.guilds@, row.snowflake),
                    )
                })
        }),
        ({
            let bc = run_base_channels(*old(store), guild, reset);
            &&& bc.len() <= final(store).channels@.len()
            &&& forall|i: int|
                0 <= i < bc.len() ==> #[trigger] final(store).channels@[i] == flushed_channel(
                    bc[i],
                    r.1.channels@,
                )
            &&& forall|i: int|
                bc.len() <= i < final(store).channels@.len() ==> ({
                    let row = #[trigger] final(store).channels@[i];
                    &&& row.guild == guild
                    &&& row.score == sat_add_u128(0, delta_score_of(r.1.channels@, row.snowflake))
                    &&& row.message_count == sat_add_u64(
                        0,
                        delta_count_of(r.1.channels@, row.snowflake),
                    )
                })
        }),
        ({
            let bu = run_base_users(*old(store), guild, reset);
            &&& bu.len() <= final(store).users@.len()
            &&& forall|i: int|
                0 <= i < bu.len() ==> #[trigger] final(store).users@[i] == flushed_user(
                    bu[i],
                    r.1.users@,
                )
            &&& forall|i: int|
                bu.len() <= i < final(store).users@.len() ==> ({
                    let row = #[trigger] final(store).users@[i];
                    &&& row.guild == guild
                    &&& row.score == sat_add_u128(0, delta_score_of(r.1.users@, row.snowflake))
                    &&& row.message_count == sat_add_u64(
                        0,
                        delta_count_of(r.1.users@, row.snowflake),
                    )
                })
        }),
        // From an empty store, the guild row's aggregates equal the totals
        // over everything stored, and no other guild row exists with weight.
        (old(store).messages@.len() == 0 && old(store).guilds@.len() == 0) ==> forall|i: int|
            0 <= i < final(store).guilds@.len() ==> ({
                let row = #[trigger] final(store).guilds@[i];
                &&& row.snowflake == guild ==> row.score == total_score_sum(final(store).messages@)
                    && row.message_count == final(store).messages@.len()
                &&& row.snowflake != guild ==> row.score == 0 && row.message_count == 0
            }),
        // From an empty store, every user row's aggregates equal the sums over
        // that author's stored messages.
        (old(store).messages@.len() == 0 && old(store).users@.len() == 0) ==> forall|i: int|
            0 <= i < final(store).users@.len() ==> ({
                let row = #[trigger] final(store).users@[i];
                &&& row.score == author_score_sum(final(store).messages@, row.snowflake)
                &&& row.message_count == author_message_count(
                    final(store).messages@,
                    row.snowflake,
                )
            }),
{
    let ghost orig = *old(store);
    if reset {
        store.delete_guild_cascade(guild);
        *cache = PresenceCache::new();
    }
    let ghost base = *store;
    let mut deltas = Deltas::new();
    let ghost base_deltas = deltas;

    let mut merged: Vec<Message> = Vec::new();
    let mut ci: usize = 0;
    proof {
        assert(merged.deep_view() =~~= Seq::<MsgView>::empty());
    }
    while ci < channels.len()
        invariant
            remote.wf(),
            ci <= channels@.len(),
            forall|t: int|
                0 <= t < merged.deep_view().len() ==> slice_member(
                    *remote,
                    channels@,
                    quota,
                    #[trigger] merged.deep_view()[t],
                ),
            forall|ci2: int, k: int|
                0 <= ci2 < ci && 0 <= k < channel_slice(*remote, channels@[ci2], quota).len()
                    ==> merged.deep_view().contains(
                    #[trigger] channel_slice(*remote, channels@[ci2], quota)[k],
                ),
        decreases channels@.len() - ci,
    {
        let mut drained = drain_channel(remote, channels[ci], quota, None);
        proof {
            assert(initial_cursor(None::<u64>) == Cursor::Start);
            assert(drained.deep_view() == channel_slice(*remote, channels@[ci as int], quota));
        }
        let ghost m_before = merged.deep_view();
        let ghost d_view = drained.deep_view();
        let ghost m_vals = merged@;
        let ghost d_vals = drained@;
        merged.append(&mut drained);
        proof {
            assert(merged.deep_view() =~~= m_before + d_view) by {
                assert(merged@ == m_vals + d_vals);
                assert forall|t: int| 0 <= t < merged@.len() implies merged.deep_view()[t] == (
                m_before + d_view)[t] by {
                    if t < m_vals.len() {
                        assert(merged@[t] == m_vals[t]);
                    } else {
                        assert(merged@[t] == d_vals[t - m_vals.len()]);
                    }
                }
            }
            assert forall|t: int| 0 <= t < merged.deep_view().len() implies slice_member(
                *remote,
                channels@,
                quota,
                #[trigger] merged.deep_view()[t],
            ) by {
                if t >= m_before.len() {
                    let k = t - m_before.len();
                    assert(merged.deep_view()[t] == d_view[k]);
                    assert(channel_slice(*remote, channels@[ci as int], quota).contains(
                        d_view[k],
                    )) by {
                        assert(channel_slice(*remote, channels@[ci as int], quota)[k] == d_view[k]);
                    }
                }
            }
            assert forall|ci2: int, k: int|
                0 <= ci2 < ci + 1 && 0 <= k < channel_slice(
                    *remote,
                    channels@[ci2],
                    quota,
                ).len() implies merged.deep_view().contains(
                #[trigger] channel_slice(*remote, channels@[ci2], quota)[k],
            ) by {
                let el = channel_slice(*remote, channels@[ci2], quota)[k];
                if ci2 < ci {
                    assert(m_before.contains(el));
                    let w = choose|w: int| 0 <= w < m_before.len() && m_before[w] == el;
                    assert(merged.deep_view()[w] == el);
                } else {
                    assert(merged.deep_view()[m_before.len() + k] == el);
                }
            }
        }
        ci = ci + 1;
    }
    let ghost merged_view = merged.deep_view();
    let humans = filter_bots(merged);
    proof {
        broadcast use vstd::prelude::Seq::lemma_filter_contains_rev;

        assert forall|t: int| 0 <= t < humans.deep_view().len() implies slice_member(
            *remote,
            channels@,
            quota,
            #[trigger] humans.deep_view()[t],
        ) by {
            assert(human_messages(merged_view).contains(humans.deep_view()[t]));
            assert(merged_view.contains(humans.deep_view()[t]));
            let w = choose|w: int|
                0 <= w < merged_view.len() && merged_view[w] == humans.deep_view()[t];
        }
    }
    let ghost humans_view = humans.deep_view();
    let sorted = sort_by_snowflake(humans);
    proof {
        broadcast use vstd::seq_lib::group_filter_ensures;

        humans_view.to_multiset_ensures();
        sorted.deep_view().to_multiset_ensures();
        assert forall|t: int| 0 <= t < sorted.deep_view().len() implies slice_member(
            *remote,
            channels@,
            quota,
            #[trigger] sorted.deep_view()[t],
        ) by {
            let el = sorted.deep_view()[t];
            assert(sorted.deep_view().contains(el));
            assert(sorted.deep_view().to_multiset().count(el) > 0);
            assert(humans_view.to_multiset().count(el) > 0);
            assert(humans_view.contains(el));
            let w = choose|w: int| 0 <= w < humans_view.len() && humans_view[w] == el;
        }
        assert forall|ci2: int, k: int|
            0 <= ci2 < channels@.len() && 0 <= k < channel_slice(
                *remote,
                channels@[ci2],
                quota,
            ).len() && !(#[trigger] channel_slice(
                *remote,
                channels@[ci2],
                quota,
            )[k]).author_is_bot implies sorted.deep_view().contains(
            channel_slice(*remote, channels@[ci2], quota)[k],
        ) by {
            let el = channel_slice(*remote, channels@[ci2], quota)[k];
            assert(merged_view.contains(el));
            let w = choose|w: int| 0 <= w < merged_view.len() && merged_view[w] == el;
            assert(human_messages(merged_view).contains(merged_view[w]));
            assert(humans_view.contains(el));
            assert(humans_view.to_multiset().count(el) > 0);
            assert(sorted.deep_view().to_multiset().count(el) > 0);
            assert(sorted.deep_view().contains(el));
        }
    }
    let before_len = store.messages.len();
    proof {
        lemma_tracking_refl(*store, deltas, guild);
        assert(tracking_wf(*store, deltas)) by {
            assert forall|c: u64|
                0 <= #[trigger] delta_score_of(deltas.channels@, c) <= channel_score_sum(
                    store.messages@,
                    c,
                ) by {
                lemma_channel_score_sum_bounds(store.messages@, c);
            }
            assert forall|c: u64|
                0 <= #[trigger] delta_count_of(deltas.channels@, c) <= channel_message_count(
                    store.messages@,
                    c,
                ) by {
                lemma_channel_message_count_bounds(store.messages@, c);
            }
            assert forall|g: u64|
                0 <= #[trigger] delta_score_of(deltas.guilds@, g) <= crate::store::total_score_sum(
                    store.messages@,
                ) by {
                crate::store::lemma_total_score_sum_bounds(store.messages@);
            }
            assert forall|u: u64|
                0 <= #[trigger] delta_score_of(deltas.users@, u) <= crate::store::author_score_sum(
                    store.messages@,
                    u,
                ) by {
                crate::store::lemma_author_score_sum_bounds(store.messages@, u);
            }
            assert forall|u: u64|
                0 <= #[trigger] delta_count_of(deltas.users@, u)
                    <= crate::store::author_message_count(store.messages@, u) by {
                crate::store::lemma_author_message_count_bounds(store.messages@, u);
            }
        }
    }
    let mut idx: usize = 0;
    while idx < sorted.len()
        invariant
            remote.wf(),
            idx <= sorted@.len(),
            tracking_wf(*store, deltas),
            cache_sound(*cache, *store),
            windows.wf(),
            tracking_extends(base, base_deltas, *store, deltas, guild),
            base_deltas.channels@.len() == 0,
            base_deltas.guilds@.len() == 0,
            base_deltas.users@.len() == 0,
            !reset ==> base == orig,
            before_len as int == base.messages@.len(),
            forall|t: int|
                0 <= t < sorted.deep_view().len() ==> slice_member(
                    *remote,
                    channels@,
                    quota,
                    #[trigger] sorted.deep_view()[t],
                ),
            (!reset && backlog_stored(*remote, channels@, quota, orig.messages@)) ==> {
                &&& store.guilds@ == orig.guilds@
                &&& store.channels@ == orig.channels@
                &&& store.users@ == orig.users@
                &&& store.messages@ == orig.messages@
                &&& deltas.guilds@ == base_deltas.guilds@
                &&& deltas.channels@ == base_deltas.channels@
                &&& deltas.users@ == base_deltas.users@
            },
            forall|t: int|
                0 <= t < idx ==> holds_key(
                    store.messages@,
                    (#[trigger] sorted.deep_view()[t]).id,
                ),
        decreases sorted@.len() - idx,
    {
        let m = &sorted[idx];
        let ghost pre = (*store, deltas);
        proof {
            if !reset && backlog_stored(*remote, channels@, quota, orig.messages@) {
                assert(slice_member(*remote, channels@, quota, m@)) by {
                    assert(sorted.deep_view()[idx as int] == m@);
                }
                let sci = choose|sci: int|
                    0 <= sci < channels@.len() && (#[trigger] channel_slice(
                        *remote,
                        channels@[sci],
                        quota,
                    )).contains(m@);
                let sk = choose|sk: int|
                    0 <= sk < channel_slice(*remote, channels@[sci], quota).len()
                        && channel_slice(*remote, channels@[sci], quota)[sk] == m@;
                assert(holds_key(
                    orig.messages@,
                    channel_slice(*remote, channels@[sci], quota)[sk].id,
                ));
                assert(holds_key(store.messages@, m@.id));
            }
        }
        handle_message(store, cache, windows, &mut deltas, remote, m, guild, guild_name, budget);
        proof {
            lemma_tracking_extends_trans(base, base_deltas, pre.0, pre.1, *store, deltas, guild);
            assert forall|t: int| 0 <= t < idx + 1 implies holds_key(
                store.messages@,
                (#[trigger] sorted.deep_view()[t]).id,
            ) by {
                if t < idx {
                    let el_id = sorted.deep_view()[t].id;
                    assert(holds_key(pre.0.messages@, el_id));
                    let w = choose|w: int|
                        0 <= w < pre.0.messages@.len() && (#[trigger] pre.0.messages@[w].key())
                            == el_id;
                    assert(store.messages@[w] == pre.0.messages@[w]);
                    assert(store.messages@[w].key() == el_id);
                } else {
                    assert(sorted.deep_view()[t] == m@);
                    if holds_key(pre.0.messages@, m@.id) {
                        let w = choose|w: int|
                            0 <= w < pre.0.messages@.len() && (#[trigger] pre.0.messages@[w].key())
                                == m@.id;
                        assert(store.messages@[w] == pre.0.messages@[w]);
                        assert(store.messages@[w].key() == m@.id);
                    }
                }
            }
        }
        idx = idx + 1;
    }
    let ghost preflush = *store;
    let ghost final_deltas = deltas;
    flush(store, &deltas);
    let after_len = store.messages.len();
    proof {
        assert(after_len as int == preflush.messages@.len());
        assert(base.messages@.is_prefix_of(preflush.messages@));
        assert(before_len <= after_len);
    }
    let count = ((after_len - before_len) as u64);
    proof {
        assert(cache_sound(*cache, *store)) by {
            assert forall|id: u64| #[trigger]
                cache.has(EntityKind::Guild, id) implies holds_key(store.guilds@, id) by {
                let w = choose|w: int|
                    0 <= w < preflush.guilds@.len() && (#[trigger] preflush.guilds@[w].key()) == id;
                assert(store.guilds@[w] == flushed_guild(
                    preflush.guilds@[w],
                    final_deltas.guilds@,
                ));
                assert(store.guilds@[w].key() == id);
            }
            assert forall|id: u64| #[trigger]
                cache.has(EntityKind::Channel, id) implies holds_key(store.channels@, id) by {
                let w = choose|w: int|
                    0 <= w < preflush.channels@.len() && (#[trigger] preflush.channels@[w].key())
                        == id;
                assert(store.channels@[w] == flushed_channel(
                    preflush.channels@[w],
                    final_deltas.channels@,
                ));
                assert(store.channels@[w].key() == id);
            }
            assert forall|id: u64| #[trigger]
                cache.has(EntityKind::User, id) implies holds_key(store.users@, id) by {
                let w = choose|w: int|
                    0 <= w < preflush.users@.len() && (#[trigger] preflush.users@[w].key()) == id;
                assert(store.users@[w] == flushed_user(preflush.users@[w], final_deltas.users@));
                assert(store.users@[w].key() == id);
            }
        }
        if !reset && backlog_stored(*remote, channels@, quota, orig.messages@) {
            assert forall|i: int| 0 <= i < preflush.guilds@.len() implies #[trigger] store.guilds@[i]
                == preflush.guilds@[i] by {
                assert(store.guilds@[i] == flushed_guild(preflush.guilds@[i], deltas.guilds@));
            }
            assert(store.guilds@ =~= orig.guilds@);
            assert forall|i: int|
                0 <= i < preflush.channels@.len() implies #[trigger] store.channels@[i]
                == preflush.channels@[i] by {
                assert(store.channels@[i] == flushed_channel(
                    preflush.channels@[i],
                    deltas.channels@,
                ));
            }
            assert(store.channels@ =~= orig.channels@);
            assert forall|i: int| 0 <= i < preflush.users@.len() implies #[trigger] store.users@[i]
                == preflush.users@[i] by {
                assert(store.users@[i] == flushed_user(preflush.users@[i], deltas.users@));
            }
            assert(store.users@ =~= orig.users@);
        }
        if orig.messages@.len() == 0 && orig.channels@.len() == 0 {
            assert(base.messages@.len() == 0 && base.channels@.len() == 0) by {
                if reset {
                    reveal(Seq::filter);
                    assert(base.messages@ =~= Seq::<MessageRow>::empty());
                    assert(base.channels@ =~= Seq::<ChannelRow>::empty());
                }
            }
            assert(channel_score_sum(base.messages@, 0u64) == 0);
            assert forall|i: int| 0 <= i < store.channels@.len() implies {
                &&& (#[trigger] store.channels@[i]).score == channel_score_sum(
                    store.messages@,
                    store.channels@[i].snowflake,
                )
                &&& store.channels@[i].message_count == channel_message_count(
                    store.messages@,
                    store.channels@[i].snowflake,
                )
            } by {
                let key = preflush.channels@[i].snowflake;
                assert(store.channels@[i] == flushed_channel(
                    preflush.channels@[i],
                    final_deltas.channels@,
                ));
                assert(preflush.channels@[i].score == 0 && preflush.channels@[i].message_count
                    == 0);
                assert(delta_score_of(final_deltas.channels@, key) == channel_score_sum(
                    preflush.messages@,
                    key,
                ));
                assert(delta_count_of(final_deltas.channels@, key) == channel_message_count(
                    preflush.messages@,
                    key,
                ));
                lemma_channel_score_sum_bounds(preflush.messages@, key);
                lemma_channel_message_count_bounds(preflush.messages@, key);
                assert(preflush.messages@.len() * SCORE_CAP < u128::MAX) by (nonlinear_arith)
                    requires
                        preflush.messages@.len() <= 0xFFFF_FFFF_FFFF_FFFFu64,
                ;
                assert(store.channels@[i].snowflake == key);
            }
        }
        // The run's starting tables are the incoming ones, or the cascade's
        // leftovers.
        assert(run_base_messages(orig, guild, reset) == base.messages@);
        assert(run_base_guilds(orig, guild, reset) == base.guilds@);
        assert(run_base_channels(orig, guild, reset) == base.channels@);
        assert(run_base_users(orig, guild, reset) == base.users@);
        // Coverage: every non-bot slice message was processed and is stored.
        assert forall|ci2: int, k: int|
            0 <= ci2 < channels@.len() && 0 <= k < channel_slice(
                *remote,
                channels@[ci2],
                quota,
            ).len() && !(#[trigger] channel_slice(
                *remote,
                channels@[ci2],
                quota,
            )[k]).author_is_bot implies holds_key(
            store.messages@,
            channel_slice(*remote, channels@[ci2], quota)[k].id,
        ) by {
            let el = channel_slice(*remote, channels@[ci2], quota)[k];
            assert(sorted.deep_view().contains(el));
            let t = choose|t: int|
                0 <= t < sorted.deep_view().len() && sorted.deep_view()[t] == el;
            assert(holds_key(preflush.messages@, sorted.deep_view()[t].id));
        }
        // Message rows were only appended, through the flush too.
        assert(base.messages@.is_prefix_of(store.messages@));
        // Entity rows: survivors gain their accumulators, created rows carry
        // exactly theirs.
        assert forall|i: int|
            0 <= i < base.guilds@.len() implies #[trigger] store.guilds@[i] == flushed_guild(
            base.guilds@[i],
            final_deltas.guilds@,
        ) by {
            assert(preflush.guilds@[i] == base.guilds@[i]);
            assert(store.guilds@[i] == flushed_guild(preflush.guilds@[i], final_deltas.guilds@));
        }
        assert forall|i: int|
            base.guilds@.len() <= i < store.guilds@.len() implies ({
                let row = #[trigger] store.guilds@[i];
                &&& row.score == sat_add_u128(0, delta_score_of(final_deltas.guilds@, row.snowflake))
                &&& row.message_count == sat_add_u64(
                    0,
                    delta_count_of(final_deltas.guilds@, row.snowflake),
                )
            }) by {
            assert(store.guilds@[i] == flushed_guild(preflush.guilds@[i], final_deltas.guilds@));
            assert(preflush.guilds@[i].score == 0 && preflush.guilds@[i].message_count == 0);
        }
        assert forall|i: int|
            0 <= i < base.channels@.len() implies #[trigger] store.channels@[i] == flushed_channel(
            base.channels@[i],
            final_deltas.channels@,
        ) by {
            assert(preflush.channels@[i] == base.channels@[i]);
            assert(store.channels@[i] == flushed_channel(
                preflush.channels@[i],
                final_deltas.channels@,
            ));
        }
        assert forall|i: int|
            base.channels@.len() <= i < store.channels@.len() implies ({
                let row = #[trigger] store.channels@[i];
                &&& row.guild == guild
                &&& row.score == sat_add_u128(
                    0,
                    delta_score_of(final_deltas.channels@, row.snowflake),
                )
                &&& row.message_count == sat_add_u64(
                    0,
                    delta_count_of(final_deltas.channels@, row.snowflake),
                )
            }) by {
            assert(store.channels@[i] == flushed_channel(
                preflush.channels@[i],
                final_deltas.channels@,
            ));
            assert(preflush.channels@[i].score == 0 && preflush.channels@[i].message_count == 0
                && preflush.channels@[i].guild == guild);
        }
        assert forall|i: int|
            0 <= i < base.users@.len() implies #[trigger] store.users@[i] == flushed_user(
            base.users@[i],
            final_deltas.users@,
        ) by {
            assert(preflush.users@[i] == base.users@[i]);
            assert(store.users@[i] == flushed_user(preflush.users@[i], final_deltas.users@));
        }
        assert forall|i: int|
            base.users@.len() <= i < store.users@.len() implies ({
                let row = #[trigger] store.users@[i];
                &&& row.guild == guild
                &&& row.score == sat_add_u128(0, delta_score_of(final_deltas.users@, row.snowflake))
                &&& row.message_count == sat_add_u64(
                    0,
                    delta_count_of(final_deltas.users@, row.snowflake),
                )
            }) by {
            assert(store.users@[i] == flushed_user(preflush.users@[i], final_deltas.users@));
            assert(preflush.users@[i].score == 0 && preflush.users@[i].message_count == 0
                && preflush.users@[i].guild == guild);
        }
        // From an empty store, the guild row carries the totals.
        if orig.messages@.len() == 0 && orig.guilds@.len() == 0 {
            assert(base.messages@.len() == 0 && base.guilds@.len() == 0) by {
                if reset {
                    reveal(Seq::filter);
                    assert(base.messages@ =~= Seq::<MessageRow>::empty());
                    assert(base.guilds@ =~= Seq::<GuildRow>::empty());
                }
            }
            assert(total_score_sum(base.messages@) == 0);
            assert forall|i: int| 0 <= i < store.guilds@.len() implies ({
                let row = #[trigger] store.guilds@[i];
                &&& row.snowflake == guild ==> row.score == total_score_sum(store.messages@)
                    && row.message_count == store.messages@.len()
                &&& row.snowflake != guild ==> row.score == 0 && row.message_count == 0
            }) by {
                let key = preflush.guilds@[i].snowflake;
                assert(store.guilds@[i] == flushed_guild(
                    preflush.guilds@[i],
                    final_deltas.guilds@,
                ));
                assert(preflush.guilds@[i].score == 0 && preflush.guilds@[i].message_count == 0);
                lemma_total_score_sum_bounds(preflush.messages@);
                assert(preflush.messages@.len() * SCORE_CAP < u128::MAX) by (nonlinear_arith)
                    requires
                        preflush.messages@.len() <= 0xFFFF_FFFF_FFFF_FFFFu64,
                ;
                assert(store.guilds@[i].snowflake == key);
            }
        }
        // From an empty store, every user row carries that author's sums.
        if orig.messages@.len() == 0 && orig.users@.len() == 0 {
            assert(base.messages@.len() == 0 && base.users@.len() == 0) by {
                if reset {
                    reveal(Seq::filter);
                    assert(base.messages@ =~= Seq::<MessageRow>::empty());
                    assert(base.users@ =~= Seq::<UserRow>::empty());
                }
            }
            assert forall|i: int| 0 <= i < store.users@.len() implies ({
                let row = #[trigger] store.users@[i];
                &&& row.score == author_score_sum(store.messages@, row.snowflake)
                &&& row.message_count == author_message_count(store.messages@, row.snowflake)
            }) by {
                let key = preflush.users@[i].snowflake;
                assert(store.users@[i] == flushed_user(preflush.users@[i], final_deltas.users@));
                assert(preflush.users@[i].score == 0 && preflush.users@[i].message_count == 0);
                assert(author_score_sum(base.messages@, key) == 0);
                assert(author_message_count(base.messages@, key) == 0);
                lemma_author_score_sum_bounds(preflush.messages@, key);
                lemma_author_message_count_bounds(preflush.messages@, key);
                assert(preflush.messages@.len() * SCORE_CAP < u128::MAX) by (nonlinear_arith)
                    requires
                        preflush.messages@.len() <= 0xFFFF_FFFF_FFFF_FFFFu64,
                ;
                assert(store.users@[i].snowflake == key);
            }
        }
    }
    (IngestionReport { message_count: count }, deltas)
}

} // verus!
