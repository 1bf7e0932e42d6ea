//! The storage model: guild, channel, user and message tables keyed by
//! snowflake, with the aggregate columns the ingestion run flushes into.
//!
//! Inserting an already-present key reports a conflict and changes nothing,
//! so duplicate creation attempts — including racing ones replayed in any
//! order — leave exactly one row per key. Aggregate columns only grow, and
//! saturate instead of wrapping at the top of their range.

use crate::score::SCORE_CAP;
use crate::table::{holds_key, Keyed, Table};
use vstd::prelude::*;

verus! {

/// A guild row: aggregate score and counters for one guild.
pub struct GuildRow {
    pub snowflake: u64,
    pub name: Vec<u8>,
    pub score: u128,
    pub message_count: u64,
    pub user_count: u64,
}

/// A channel row: aggregates for one channel, owned by a guild.
pub struct ChannelRow {
    pub snowflake: u64,
    pub name: Vec<u8>,
    pub score: u128,
    pub message_count: u64,
    pub guild: u64,
}

/// A user row: aggregates for one author, scoped to a home guild.
pub struct UserRow {
    pub snowflake: u64,
    pub name: Vec<u8>,
    pub score: u128,
    pub message_count: u64,
    pub guild: u64,
}

/// A message row: fixed at ingestion time, never mutated afterwards.
pub struct MessageRow {
    pub snowflake: u64,
    pub content: Vec<u8>,
    pub score: u64,
    pub author: u64,
    pub channel: u64,
    pub replies_to: Option<u64>,
    pub timestamp: i64,
}

impl Keyed for GuildRow {
    open spec fn key(&self) -> u64 {
        self.snowflake
    }

    fn read_key(&self) -> u64 {
        self.snowflake
    }
}

impl Keyed for ChannelRow {
    open spec fn key(&self) -> u64 {
        self.snowflake
    }

    fn read_key(&self) -> u64 {
        self.snowflake
    }
}

impl Keyed for UserRow {
    open spec fn key(&self) -> u64 {
        self.snowflake
    }

    fn read_key(&self) -> u64 {
        self.snowflake
    }
}

impl Keyed for MessageRow {
    open spec fn key(&self) -> u64 {
        self.snowflake
    }

    fn read_key(&self) -> u64 {
        self.snowflake
    }
}

/// Addition clipped to the top of `u128`.
pub open spec fn sat_add_u128(a: int, b: int) -> u128 {
    if a + b > u128::MAX {
        u128::MAX
    } else {
        (a + b) as u128
    }
}

/// Addition clipped to the top of `u64`.
pub open spec fn sat_add_u64(a: int, b: int) -> u64 {
    if a + b > u64::MAX {
        u64::MAX
    } else {
        (a + b) as u64
    }
}

/// Adds, clipping at the top of the range.
pub fn saturating_add_u128(a: u128, b: u128) -> (r: u128)
    ensures
        r == sat_add_u128(a as int, b as int),
{
    if a <= u128::MAX - b {
        a + b
    } else {
        u128::MAX
    }
}

/// Adds, clipping at the top of the range.
pub fn saturating_add_u64(a: u64, b: u64) -> (r: u64)
    ensures
        r == sat_add_u64(a as int, b as int),
{
    if a <= u64::MAX - b {
        a + b
    } else {
        u64::MAX
    }
}

/// The summed scores of the stored messages sitting in `channel`.
pub open spec fn channel_score_sum(msgs: Seq<MessageRow>, channel: u64) -> int
    decreases msgs.len(),
{
    if msgs.len() == 0 {
        0
    } else {
        channel_score_sum(msgs.drop_last(), channel) + if msgs.last().channel == channel {
            msgs.last().score as int
        } else {
            0
        }
    }
}

/// How many stored messages sit in `channel`.
pub open spec fn channel_message_count(msgs: Seq<MessageRow>, channel: u64) -> int
    decreases msgs.len(),
{
    if msgs.len() == 0 {
        0
    } else {
        channel_message_count(msgs.drop_last(), channel) + if msgs.last().channel == channel {
            1int
        } else {
            0
        }
    }
}

/// The summed scores of the stored messages written by `author`.
pub open spec fn author_score_sum(msgs: Seq<MessageRow>, author: u64) -> int
    decreases msgs.len(),
{
    if msgs.len() == 0 {
        0
    } else {
        author_score_sum(msgs.drop_last(), author) + if msgs.last().author == author {
            msgs.last().score as int
        } else {
            0
        }
    }
}

/// How many stored messages `author` wrote.
pub open spec fn author_message_count(msgs: Seq<MessageRow>, author: u64) -> int
    decreases msgs.len(),
{
    if msgs.len() == 0 {
        0
    } else {
        author_message_count(msgs.drop_last(), author) + if msgs.last().author == author {
            1int
        } else {
            0
        }
    }
}

/// The summed scores of all stored messages.
pub open spec fn total_score_sum(msgs: Seq<MessageRow>) -> int
    decreases msgs.len(),
{
    if msgs.len() == 0 {
        0
    } else {
        total_score_sum(msgs.drop_last()) + msgs.last().score as int
    }
}

/// Per-channel sums never exceed the whole table's weight in `SCORE_CAP`.
pub proof fn lemma_channel_score_sum_bounds(msgs: Seq<MessageRow>, channel: u64)
    requires
        forall|i: int| 0 <= i < msgs.len() ==> (#[trigger] msgs[i]).score <= SCORE_CAP,
    ensures
        0 <= channel_score_sum(msgs, channel) <= msgs.len() * SCORE_CAP,
    decreases msgs.len(),
{
    if msgs.len() > 0 {
        lemma_channel_score_sum_bounds(msgs.drop_last(), channel);
        assert((msgs.len() - 1) * SCORE_CAP + SCORE_CAP == msgs.len() * SCORE_CAP)
            by (nonlinear_arith);
    }
}

/// Per-channel counts stay between zero and the table length.
pub proof fn lemma_channel_message_count_bounds(msgs: Seq<MessageRow>, channel: u64)
    ensures
        0 <= channel_message_count(msgs, channel) <= msgs.len(),
    decreases msgs.len(),
{
    if msgs.len() > 0 {
        lemma_channel_message_count_bounds(msgs.drop_last(), channel);
    }
}

/// As `lemma_channel_score_sum_bounds`, for per-author sums.
pub proof fn lemma_author_score_sum_bounds(msgs: Seq<MessageRow>, author: u64)
    requires
        forall|i: int| 0 <= i < msgs.len() ==> (#[trigger] msgs[i]).score <= SCORE_CAP,
    ensures
        0 <= author_score_sum(msgs, author) <= msgs.len() * SCORE_CAP,
    decreases msgs.len(),
{
    if msgs.len() > 0 {
        lemma_author_score_sum_bounds(msgs.drop_last(), author);
        assert((msgs.len() - 1) * SCORE_CAP + SCORE_CAP == msgs.len() * SCORE_CAP)
            by (nonlinear_arith);
    }
}

/// As `lemma_channel_score_sum_bounds`, for the whole table.
pub proof fn lemma_total_score_sum_bounds(msgs: Seq<MessageRow>)
    requires
        forall|i: int| 0 <= i < msgs.len() ==> (#[trigger] msgs[i]).score <= SCORE_CAP,
    ensures
        0 <= total_score_sum(msgs) <= msgs.len() * SCORE_CAP,
    decreases msgs.len(),
{
    if msgs.len() > 0 {
        lemma_total_score_sum_bounds(msgs.drop_last());
        assert((msgs.len() - 1) * SCORE_CAP + SCORE_CAP == msgs.len() * SCORE_CAP)
            by (nonlinear_arith);
    }
}

/// Per-author counts stay between zero and the table length.
pub proof fn lemma_author_message_count_bounds(msgs: Seq<MessageRow>, author: u64)
    ensures
        0 <= author_message_count(msgs, author) <= msgs.len(),
    decreases msgs.len(),
{
    if msgs.len() > 0 {
        lemma_author_message_count_bounds(msgs.drop_last(), author);
    }
}

/// Rows appended after `before` start with zeroed aggregates and belong to
/// `guild`.
pub open spec fn channels_extended_zero(
    before: Seq<ChannelRow>,
    after: Seq<ChannelRow>,
    guild: u64,
) -> bool {
    &&& before.is_prefix_of(after)
    &&& forall|i: int|
        before.len() <= i < after.len() ==> (#[trigger] after[i]).score == 0
            && after[i].message_count == 0 && after[i].guild == guild
}

/// Rows appended after `before` start with zeroed aggregates and are homed in
/// `guild`.
pub open spec fn users_extended_zero(before: Seq<UserRow>, after: Seq<UserRow>, guild: u64) -> bool {
    &&& before.is_prefix_of(after)
    &&& forall|i: int|
        before.len() <= i < after.len() ==> (#[trigger] after[i]).score == 0
            && after[i].message_count == 0 && after[i].guild == guild
}

/// Rows appended after `before` start with zeroed aggregates.
pub open spec fn guilds_extended_zero(before: Seq<GuildRow>, after: Seq<GuildRow>) -> bool {
    &&& before.is_prefix_of(after)
    &&& forall|i: int|
        before.len() <= i < after.len() ==> (#[trigger] after[i]).score == 0
            && after[i].message_count == 0
}

/// A row that belongs to a guild: its own key and the owning guild.
pub trait GuildScoped: Keyed {
    /// The owning guild (a guild row owns itself).
    spec fn guild_of(&self) -> u64;

    /// Reads the owning guild.
    fn read_guild(&self) -> (r: u64)
        ensures
            r == self.guild_of(),
    ;
}

impl GuildScoped for GuildRow {
    open spec fn guild_of(&self) -> u64 {
        self.snowflake
    }

    fn read_guild(&self) -> u64 {
        self.snowflake
    }
}

impl GuildScoped for ChannelRow {
    open spec fn guild_of(&self) -> u64 {
        self.guild
    }

    fn read_guild(&self) -> u64 {
        self.guild
    }
}

impl GuildScoped for UserRow {
    open spec fn guild_of(&self) -> u64 {
        self.guild
    }

    fn read_guild(&self) -> u64 {
        self.guild
    }
}

/// Whether `rows` holds a row keyed `x` owned by guild `gid`.
pub open spec fn owned_key<R: GuildScoped>(rows: Seq<R>, x: u64, gid: u64) -> bool {
    exists|i: int|
        0 <= i < rows.len() && (#[trigger] rows[i]).guild_of() == gid && rows[i].key() == x
}

/// The rows that do not belong to guild `gid`.
pub open spec fn outside_guild<R: GuildScoped>(rows: Seq<R>, gid: u64) -> Seq<R> {
    rows.filter(|x: R| x.guild_of() != gid)
}

/// The messages that reference none of the banned channels or users.
pub open spec fn messages_avoiding(
    msgs: Seq<MessageRow>,
    banned_channels: Seq<u64>,
    banned_users: Seq<u64>,
) -> Seq<MessageRow> {
    msgs.filter(
        |m: MessageRow| !banned_channels.contains(m.channel) && !banned_users.contains(m.author),
    )
}

/// The messages that survive deleting guild `gid`: those in no deleted
/// channel and by no deleted user.
pub open spec fn messages_surviving(
    msgs: Seq<MessageRow>,
    channels: Seq<ChannelRow>,
    users: Seq<UserRow>,
    gid: u64,
) -> Seq<MessageRow> {
    msgs.filter(
        |m: MessageRow| !owned_key(channels, m.channel, gid) && !owned_key(users, m.author, gid),
    )
}

/// Splits rows into those outside guild `gid` and the keys of those inside.
fn split_by_guild<R: GuildScoped>(rows: Vec<R>, gid: u64) -> (r: (Vec<R>, Vec<u64>))
    ensures
        r.0@ == outside_guild(rows@, gid),
        forall|x: u64| #[trigger] r.1@.contains(x) <==> owned_key(rows@, x, gid),
{
    let ghost all = rows@;
    let mut rest = rows;
    let mut kept: Vec<R> = Vec::new();
    let mut banned: Vec<u64> = Vec::new();
    let ghost mut j: int = 0;
    proof {
        reveal(Seq::filter);
        assert(kept@ =~= outside_guild(all.take(0), gid));
        assert(rest@ =~= all.skip(0));
    }
    while rest.len() > 0
        invariant
            0 <= j <= all.len(),
            rest@ =~= all.skip(j),
            kept@ =~= outside_guild(all.take(j), gid),
            forall|x: u64| #[trigger] banned@.contains(x) <==> owned_key(all.take(j), x, gid),
        decreases rest@.len(),
    {
        let ghost banned_before = banned@;
        let row = rest.remove(0);
        proof {
            assert(row == all[j]);
            assert(rest@ =~= all.skip(j + 1));
        }
        let row_guild = row.read_guild();
        let row_key = row.read_key();
        proof {
            reveal(Seq::filter);
            assert(all.take(j + 1).drop_last() =~= all.take(j));
            assert(all.take(j + 1).last() == all[j]);
        }
        if row_guild != gid {
            kept.push(row);
        } else {
            banned.push(row_key);
        }
        proof {
            assert forall|x: u64| #[trigger]
                banned@.contains(x) <==> owned_key(all.take(j + 1), x, gid) by {
                if banned@.contains(x) {
                    let w = choose|w: int| 0 <= w < banned@.len() && banned@[w] == x;
                    if w < banned_before.len() {
                        assert(banned_before.contains(x));
                        let v = choose|v: int|
                            0 <= v < all.take(j).len() && (#[trigger] all.take(j)[v]).guild_of()
                                == gid && all.take(j)[v].key() == x;
                        assert(all.take(j + 1)[v].guild_of() == gid);
                        assert(all.take(j + 1)[v].key() == x);
                    } else {
                        assert(all.take(j + 1)[j].guild_of() == gid);
                        assert(all.take(j + 1)[j].key() == x);
                    }
                }
                if owned_key(all.take(j + 1), x, gid) {
                    let v = choose|v: int|
                        0 <= v < all.take(j + 1).len() && (#[trigger] all.take(j + 1)[v]).guild_of()
                            == gid && all.take(j + 1)[v].key() == x;
                    if v < j {
                        assert(owned_key(all.take(j), x, gid)) by {
                            assert(all.take(j)[v].guild_of() == gid);
                            assert(all.take(j)[v].key() == x);
                        }
                        assert(banned_before.contains(x));
                        let w = choose|w: int|
                            0 <= w < banned_before.len() && banned_before[w] == x;
                        assert(banned@[w] == x);
                    } else {
                        assert(all[j].guild_of() == gid && all[j].key() == x);
                        assert(banned@.last() == x);
                    }
                }
            }
            j = j + 1;
        }
    }
    proof {
        assert(all.take(j) =~= all);
    }
    (kept, banned)
}

/// Dropping a guild's rows keeps the remaining keys unique.
proof fn lemma_outside_guild_unique<R: GuildScoped>(rows: Seq<R>, gid: u64)
    requires
        crate::table::keys_unique(rows),
    ensures
        crate::table::keys_unique(outside_guild(rows, gid)),
{
    broadcast use crate::table::lemma_filter_keys_unique;

    assert(crate::table::keys_unique(outside_guild(rows, gid)));
}

/// Dropping banned messages keeps the remaining keys unique.
proof fn lemma_messages_avoiding_unique(msgs: Seq<MessageRow>, bc: Seq<u64>, bu: Seq<u64>)
    requires
        crate::table::keys_unique(msgs),
    ensures
        crate::table::keys_unique(messages_avoiding(msgs, bc, bu)),
{
    broadcast use crate::table::lemma_filter_keys_unique;

    assert(crate::table::keys_unique(messages_avoiding(msgs, bc, bu)));
}

/// A surviving message was stored before the deletion.
proof fn lemma_avoiding_member(msgs: Seq<MessageRow>, bc: Seq<u64>, bu: Seq<u64>, m: MessageRow)
    requires
        messages_avoiding(msgs, bc, bu).contains(m),
    ensures
        msgs.contains(m),
{
    broadcast use vstd::prelude::Seq::lemma_filter_contains_rev;

    assert(msgs.contains(m));
}

/// Banned-key lists that name exactly the deleted channels and users cut the
/// same messages as the guild-ownership test.
proof fn lemma_messages_surviving_match(
    msgs: Seq<MessageRow>,
    channels: Seq<ChannelRow>,
    users: Seq<UserRow>,
    bc: Seq<u64>,
    bu: Seq<u64>,
    gid: u64,
)
    requires
        forall|x: u64| #[trigger] bc.contains(x) <==> owned_key(channels, x, gid),
        forall|x: u64| #[trigger] bu.contains(x) <==> owned_key(users, x, gid),
    ensures
        messages_avoiding(msgs, bc, bu) == messages_surviving(msgs, channels, users, gid),
    decreases msgs.len(),
{
    reveal(Seq::filter);
    if msgs.len() > 0 {
        lemma_messages_surviving_match(msgs.drop_last(), channels, users, bc, bu, gid);
    }
}

/// Whether `ids` holds `x`.
fn contains_id(ids: &Vec<u64>, x: u64) -> (r: bool)
    ensures
        r <==> ids@.contains(x),
{
    let mut i: usize = 0;
    while i < ids.len()
        invariant
            i <= ids@.len(),
            forall|k: int| 0 <= k < i ==> ids@[k] != x,
        decreases ids@.len() - i,
    {
        if ids[i] == x {
            return true;
        }
        i = i + 1;
    }
    false
}

/// The stored rows: one table per entity kind.
pub struct Store {
    pub guilds: Table<GuildRow>,
    pub channels: Table<ChannelRow>,
    pub users: Table<UserRow>,
    pub messages: Table<MessageRow>,
}

impl Store {
    /// Every table keeps its keys unique, and no stored score exceeds the cap.
    pub open spec fn wf(&self) -> bool {
        &&& self.guilds.wf()
        &&& self.channels.wf()
        &&& self.users.wf()
        &&& self.messages.wf()
        &&& forall|i: int|
            0 <= i < self.messages@.len() ==> (#[trigger] self.messages@[i]).score <= SCORE_CAP
    }

    /// An empty store.
    pub fn new() -> (r: Store)
        ensures
            r.wf(),
            r.guilds@ =~= Seq::<GuildRow>::empty(),
            r.channels@ =~= Seq::<ChannelRow>::empty(),
            r.users@ =~= Seq::<UserRow>::empty(),
            r.messages@ =~= Seq::<MessageRow>::empty(),
    {
        Store {
            guilds: Table::new(),
            channels: Table::new(),
            users: Table::new(),
            messages: Table::new(),
        }
    }

    /// Whether a message with this snowflake is already stored.
    pub fn contains_message(&self, id: u64) -> (r: bool)
        ensures
            r <==> holds_key(self.messages@, id),
    {
        self.messages.contains_key(id)
    }

    /// Inserts a message row once: a duplicate snowflake is a conflict that
    /// changes nothing and reports `false`.
    pub fn insert_message(&mut self, row: MessageRow) -> (r: bool)
        requires
            old(self).wf(),
            row.score <= SCORE_CAP,
        ensures
            final(self).wf(),
            r <==> !holds_key(old(self).messages@, row.snowflake),
            r ==> final(self).messages@ == old(self).messages@.push(row),
            !r ==> final(self).messages@ == old(self).messages@,
            final(self).guilds@ == old(self).guilds@,
            final(self).channels@ == old(self).channels@,
            final(self).users@ == old(self).users@,
            holds_key(final(self).messages@, row.snowflake),
    {
        self.messages.insert(row)
    }

    /// Deletes a guild and everything reachable from it: the guild row, its
    /// channels, its home users, and every message sitting in one of those
    /// channels or written by one of those users.
    pub fn delete_guild_cascade(&mut self, id: u64)
        requires
            old(self).wf(),
        ensures
            final(self).wf(),
            final(self).guilds@ == outside_guild(old(self).guilds@, id),
            final(self).channels@ == outside_guild(old(self).channels@, id),
            final(self).users@ == outside_guild(old(self).users@, id),
            final(self).messages@ == messages_surviving(
                old(self).messages@,
                old(self).channels@,
                old(self).users@,
                id,
            ),
    {
        let guild_rows = self.guilds.drain_rows();
        let split_guilds = split_by_guild(guild_rows, id);
        proof {
            lemma_outside_guild_unique(old(self).guilds@, id);
        }
        self.guilds = Table::from_rows(split_guilds.0);

        let channel_rows = self.channels.drain_rows();
        let split_channels = split_by_guild(channel_rows, id);
        proof {
            lemma_outside_guild_unique(old(self).channels@, id);
        }
        let banned_channels = split_channels.1;
        self.channels = Table::from_rows(split_channels.0);

        let user_rows = self.users.drain_rows();
        let split_users = split_by_guild(user_rows, id);
        proof {
            lemma_outside_guild_unique(old(self).users@, id);
        }
        let banned_users = split_users.1;
        self.users = Table::from_rows(split_users.0);

        let ghost all = old(self).messages@;
        let mut rest = self.messages.drain_rows();
        let mut kept: Vec<MessageRow> = Vec::new();
        let ghost mut j: int = 0;
        proof {
            reveal(Seq::filter);
            assert(kept@ =~= messages_avoiding(all.take(0), banned_channels@, banned_users@));
            assert(rest@ =~= all.skip(0));
        }
        while rest.len() > 0
            invariant
                0 <= j <= all.len(),
                rest@ =~= all.skip(j),
                kept@ =~= messages_avoiding(all.take(j), banned_channels@, banned_users@),
            decreases rest@.len(),
        {
            let row = rest.remove(0);
            proof {
                assert(row == all[j]);
                assert(rest@ =~= all.skip(j + 1));
                reveal(Seq::filter);
                assert(all.take(j + 1).drop_last() =~= all.take(j));
                assert(all.take(j + 1).last() == all[j]);
            }
            let keep_row = !contains_id(&banned_channels, row.channel) && !contains_id(
                &banned_users,
                row.author,
            );
            if keep_row {
                kept.push(row);
            }
            proof {
                j = j + 1;
            }
        }
        proof {
            reveal(Seq::filter);
            assert(all.take(j) =~= all);
            lemma_messages_avoiding_unique(all, banned_channels@, banned_users@);
        }
        self.messages = Table::from_rows(kept);
        proof {
            reveal(Seq::filter);
            lemma_messages_surviving_match(
                all,
                old(self).channels@,
                old(self).users@,
                banned_channels@,
                banned_users@,
                id,
            );
            assert forall|i: int|
                0 <= i < self.messages@.len() implies (#[trigger] self.messages@[i]).score
                <= SCORE_CAP by {
                assert(self.messages@.contains(self.messages@[i]));
                lemma_avoiding_member(all, banned_channels@, banned_users@, self.messages@[i]);
                let w = choose|w: int| 0 <= w < all.len() && all[w] == self.messages@[i];
                assert(all[w].score <= SCORE_CAP);
            }
        }
    }

    /// Creates the guild row lazily: a present snowflake changes nothing, an
    /// absent one gains a row with zeroed aggregates.
    pub fn ensure_guild_row(&mut self, id: u64, name: Vec<u8>)
        requires
            old(self).wf(),
        ensures
            final(self).wf(),
            holds_key(final(self).guilds@, id),
            final(self).channels@ == old(self).channels@,
            final(self).users@ == old(self).users@,
            final(self).messages@ == old(self).messages@,
            holds_key(old(self).guilds@, id) ==> final(self).guilds@ == old(self).guilds@,
            !holds_key(old(self).guilds@, id) ==> final(self).guilds@ == old(self).guilds@.push(
                GuildRow { snowflake: id, name: name, score: 0, message_count: 0, user_count: 0 },
            ),
            guilds_extended_zero(old(self).guilds@, final(self).guilds@),
    {
        let row = GuildRow { snowflake: id, name, score: 0, message_count: 0, user_count: 0 };
        let added = self.guilds.insert(row);
        proof {
            if !added {
                assert(self.guilds@ =~= old(self).guilds@);
            }
        }
    }

    /// Creates the channel row lazily, owned by `guild`.
    pub fn ensure_channel_row(&mut self, id: u64, name: Vec<u8>, guild: u64)
        requires
            old(self).wf(),
        ensures
            final(self).wf(),
            holds_key(final(self).channels@, id),
            final(self).guilds@ == old(self).guilds@,
            final(self).users@ == old(self).users@,
            final(self).messages@ == old(self).messages@,
            holds_key(old(self).channels@, id) ==> final(self).channels@ == old(self).channels@,
            !holds_key(old(self).channels@, id) ==> final(self).channels@ == old(
                self,
            ).channels@.push(
                ChannelRow { snowflake: id, name: name, score: 0, message_count: 0, guild: guild },
            ),
            channels_extended_zero(old(self).channels@, final(self).channels@, guild),
    {
        let row = ChannelRow { snowflake: id, name, score: 0, message_count: 0, guild };
        let added = self.channels.insert(row);
        proof {
            if !added {
                assert(self.channels@ =~= old(self).channels@);
            }
        }
    }

    /// Creates the user row lazily, with `guild` as the home guild.
    pub fn ensure_user_row(&mut self, id: u64, name: Vec<u8>, guild: u64)
        requires
            old(self).wf(),
        ensures
            final(self).wf(),
            holds_key(final(self).users@, id),
            final(self).guilds@ == old(self).guilds@,
            final(self).channels@ == old(self).channels@,
            final(self).messages@ == old(self).messages@,
            holds_key(old(self).users@, id) ==> final(self).users@ == old(self).users@,
            !holds_key(old(self).users@, id) ==> final(self).users@ == old(self).users@.push(
                UserRow { snowflake: id, name: name, score: 0, message_count: 0, guild: guild },
            ),
            users_extended_zero(old(self).users@, final(self).users@, guild),
    {
        let row = UserRow { snowflake: id, name, score: 0, message_count: 0, guild };
        let added = self.users.insert(row);
        proof {
            if !added {
                assert(self.users@ =~= old(self).users@);
            }
        }
    }

    /// Adds a score and count delta onto the guild row keyed `id`, clipping at
    /// the top of the column ranges; a missing row changes nothing and
    /// reports `false`.
    pub fn upsert_guild_delta(&mut self, id: u64, score_delta: u128, count_delta: u64) -> (r: bool)
        requires
            old(self).wf(),
        ensures
            final(self).wf(),
            r <==> holds_key(old(self).guilds@, id),
            final(self).channels@ == old(self).channels@,
            final(self).users@ == old(self).users@,
            final(self).messages@ == old(self).messages@,
            !r ==> final(self).guilds@ == old(self).guilds@,
            r ==> exists|i: int|
                0 <= i < old(self).guilds@.len() && (#[trigger] old(self).guilds@[i]).snowflake
                    == id && final(self).guilds@ == old(self).guilds@.update(
                    i,
                    GuildRow {
                        score: sat_add_u128(old(self).guilds@[i].score as int, score_delta as int),
                        message_count: sat_add_u64(
                            old(self).guilds@[i].message_count as int,
                            count_delta as int,
                        ),
                        ..old(self).guilds@[i]
                    },
                ),
    {
        match self.guilds.find(id) {
            Some(i) => {
                let row = self.guilds.remove_at(i);
                let updated = GuildRow {
                    score: saturating_add_u128(row.score, score_delta),
                    message_count: saturating_add_u64(row.message_count, count_delta),
                    ..row
                };
                self.guilds.insert_at(i, updated);
                proof {
                    assert(self.guilds@ =~= old(self).guilds@.update(i as int, updated));
                }
                true
            },
            None => false,
        }
    }

    /// As `upsert_guild_delta`, for a channel row.
    pub fn upsert_channel_delta(&mut self, id: u64, score_delta: u128, count_delta: u64) -> (r:
        bool)
        requires
            old(self).wf(),
        ensures
            final(self).wf(),
            r <==> holds_key(old(self).channels@, id),
            final(self).guilds@ == old(self).guilds@,
            final(self).users@ == old(self).users@,
            final(self).messages@ == old(self).messages@,
            !r ==> final(self).channels@ == old(self).channels@,
            r ==> exists|i: int|
                0 <= i < old(self).channels@.len() && (#[trigger] old(self).channels@[i]).snowflake
                    == id && final(self).channels@ == old(self).channels@.update(
                    i,
                    ChannelRow {
                        score: sat_add_u128(
                            old(self).channels@[i].score as int,
                            score_delta as int,
                        ),
                        message_count: sat_add_u64(
                            old(self).channels@[i].message_count as int,
                            count_delta as int,
                        ),
                        ..old(self).channels@[i]
                    },
                ),
    {
        match self.channels.find(id) {
            Some(i) => {
                let row = self.channels.remove_at(i);
                let updated = ChannelRow {
                    score: saturating_add_u128(row.score, score_delta),
                    message_count: saturating_add_u64(row.message_count, count_delta),
                    ..row
                };
                self.channels.insert_at(i, updated);
                proof {
                    assert(self.channels@ =~= old(self).channels@.update(i as int, updated));
                }
                true
            },
            None => false,
        }
    }

    /// As `upsert_guild_delta`, for a user row.
    pub fn upsert_user_delta(&mut self, id: u64, score_delta: u128, count_delta: u64) -> (r: bool)
        requires
            old(self).wf(),
        ensures
            final(self).wf(),
            r <==> holds_key(old(self).users@, id),
            final(self).guilds@ == old(self).guilds@,
            final(self).channels@ == old(self).channels@,
            final(self).messages@ == old(self).messages@,
            !r ==> final(self).users@ == old(self).users@,
            r ==> exists|i: int|
                0 <= i < old(self).users@.len() && (#[trigger] old(self).users@[i]).snowflake == id
                    && final(self).users@ == old(self).users@.update(
                    i,
                    UserRow {
                        score: sat_add_u128(old(self).users@[i].score as int, score_delta as int),
                        message_count: sat_add_u64(
                            old(self).users@[i].message_count as int,
                            count_delta as int,
                        ),
                        ..old(self).users@[i]
                    },
                ),
    {
        match self.users.find(id) {
            Some(i) => {
                let row = self.users.remove_at(i);
                let updated = UserRow {
                    score: saturating_add_u128(row.score, score_delta),
                    message_count: saturating_add_u64(row.message_count, count_delta),
                    ..row
                };
                self.users.insert_at(i, updated);
                proof {
                    assert(self.users@ =~= old(self).users@.update(i as int, updated));
                }
                true
            },
            None => false,
        }
    }
}

} // verus!
