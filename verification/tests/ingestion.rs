use recall::cache::PresenceCache;
use recall::ingest::ingest;
use recall::msg::{Message, ReplyRef};
use recall::remote::{Remote, RemoteChannel};
use recall::score::content_score;
use recall::store::Store;
use recall::windows::AuthorWindows;

fn msg(
    id: u64,
    channel: u64,
    author: u64,
    bot: bool,
    content: &str,
    reference: Option<ReplyRef>,
) -> Message {
    Message {
        id,
        channel,
        author,
        author_name: format!("user{}", author).into_bytes(),
        author_is_bot: bot,
        content: content.as_bytes().to_vec(),
        timestamp: id as i64,
        reference,
    }
}

/// One guild with two channels. Channel 10 holds three human messages and a
/// bot message; message 103 replies to 101. Channel 20 holds one message.
fn sample_remote() -> Remote {
    let mut remote = Remote::new();
    assert!(remote.add_channel(RemoteChannel {
        id: 10,
        name: b"general".to_vec(),
        history: vec![
            msg(104, 10, 2, true, "beep boop", None),
            msg(
                103,
                10,
                1,
                false,
                "replying to you",
                Some(ReplyRef { channel: 10, message_id: Some(101) }),
            ),
            msg(102, 10, 3, false, "short", None),
            msg(101, 10, 1, false, "hello world", None),
        ],
    }));
    assert!(remote.add_channel(RemoteChannel {
        id: 20,
        name: b"random".to_vec(),
        history: vec![msg(201, 20, 3, false, "what a day", None)],
    }));
    remote
}

fn run(
    store: &mut Store,
    cache: &mut PresenceCache,
    windows: &mut AuthorWindows,
    remote: &Remote,
    reset: bool,
) -> u64 {
    let channels = vec![10u64, 20u64];
    let name = b"guild".to_vec();
    let (report, _deltas) = ingest(store, cache, windows, remote, 1, &name, &channels, 1000, reset, 8);
    report.message_count
}

#[test]
fn full_run_ingests_human_messages() {
    let mut store = Store::new();
    let mut cache = PresenceCache::new();
    let mut windows = AuthorWindows::new();
    let remote = sample_remote();
    let count = run(&mut store, &mut cache, &mut windows, &remote, false);
    // Four human messages; the bot message is dropped.
    assert_eq!(count, 4);
    assert!(store.contains_message(101));
    assert!(store.contains_message(102));
    assert!(store.contains_message(103));
    assert!(!store.contains_message(104));
    assert!(store.contains_message(201));
    // The reply was resolved to the already-ingested target.
    let i = store.messages.find(103).unwrap();
    assert_eq!(store.messages.get(i).replies_to, Some(101));
    // Entities were created lazily.
    assert!(store.guilds.contains_key(1));
    assert!(store.channels.contains_key(10));
    assert!(store.channels.contains_key(20));
    assert!(store.users.contains_key(1));
    assert!(store.users.contains_key(3));
    assert!(!store.users.contains_key(2));
    // Created rows carry the remote's names and the run's guild.
    let ci = store.channels.find(10).unwrap();
    assert_eq!(store.channels.get(ci).name, b"general".to_vec());
    assert_eq!(store.channels.get(ci).guild, 1);
    let ui = store.users.find(1).unwrap();
    assert_eq!(store.users.get(ui).name, b"user1".to_vec());
    assert_eq!(store.users.get(ui).guild, 1);
    let gi = store.guilds.find(1).unwrap();
    assert_eq!(store.guilds.get(gi).name, b"guild".to_vec());
}

#[test]
fn channel_scores_match_message_sums() {
    let mut store = Store::new();
    let mut cache = PresenceCache::new();
    let mut windows = AuthorWindows::new();
    let remote = sample_remote();
    run(&mut store, &mut cache, &mut windows, &remote, false);
    for ci in [10u64, 20u64] {
        let idx = store.channels.find(ci).unwrap();
        let row_score = store.channels.get(idx).score;
        let row_count = store.channels.get(idx).message_count;
        let mut sum: u128 = 0;
        let mut n: u64 = 0;
        let mut k = 0;
        while k < store.messages.len() {
            let m = store.messages.get(k);
            if m.channel == ci {
                sum += m.score as u128;
                n += 1;
            }
            k += 1;
        }
        assert_eq!(row_score, sum);
        assert_eq!(row_count, n);
    }
    // No repeats and all-new contents: every score is the plain content score.
    let i = store.messages.find(101).unwrap();
    assert_eq!(store.messages.get(i).score, content_score(b"hello world"));
}

#[test]
fn guild_and_user_aggregates_match_totals() {
    let mut store = Store::new();
    let mut cache = PresenceCache::new();
    let mut windows = AuthorWindows::new();
    let remote = sample_remote();
    run(&mut store, &mut cache, &mut windows, &remote, false);
    let mut total: u128 = 0;
    let mut k = 0;
    while k < store.messages.len() {
        total += store.messages.get(k).score as u128;
        k += 1;
    }
    let gi = store.guilds.find(1).unwrap();
    assert_eq!(store.guilds.get(gi).score, total);
    assert_eq!(store.guilds.get(gi).message_count as usize, store.messages.len());
    for author in [1u64, 3u64] {
        let ui = store.users.find(author).unwrap();
        let mut sum: u128 = 0;
        let mut n: u64 = 0;
        let mut k = 0;
        while k < store.messages.len() {
            let m = store.messages.get(k);
            if m.author == author {
                sum += m.score as u128;
                n += 1;
            }
            k += 1;
        }
        assert_eq!(store.users.get(ui).score, sum);
        assert_eq!(store.users.get(ui).message_count, n);
    }
}

#[test]
fn returned_deltas_are_the_runs_accumulators() {
    let mut store = Store::new();
    let mut cache = PresenceCache::new();
    let mut windows = AuthorWindows::new();
    let remote = sample_remote();
    let channels = vec![10u64, 20u64];
    let name = b"guild".to_vec();
    let (report, deltas) = ingest(
        &mut store,
        &mut cache,
        &mut windows,
        &remote,
        1,
        &name,
        &channels,
        1000,
        false,
        8,
    );
    assert_eq!(report.message_count, 4);
    // One guild accumulator, carrying the whole run.
    assert_eq!(deltas.guilds.len(), 1);
    let gd = *deltas.guilds.get(0);
    assert_eq!(gd.id, 1);
    assert_eq!(gd.count, 4);
    let gi = store.guilds.find(1).unwrap();
    assert_eq!(store.guilds.get(gi).score, gd.score);
    // Per-channel accumulators match the flushed rows.
    let mut k = 0;
    while k < deltas.channels.len() {
        let d = *deltas.channels.get(k);
        let ci = store.channels.find(d.id).unwrap();
        assert_eq!(store.channels.get(ci).score, d.score);
        assert_eq!(store.channels.get(ci).message_count, d.count);
        k += 1;
    }
}

#[test]
fn rerun_ingests_nothing_and_keeps_aggregates() {
    let mut store = Store::new();
    let mut cache = PresenceCache::new();
    let mut windows = AuthorWindows::new();
    let remote = sample_remote();
    let first = run(&mut store, &mut cache, &mut windows, &remote, false);
    assert_eq!(first, 4);
    let messages_before = store.messages.len();
    let guild_idx = store.guilds.find(1).unwrap();
    let guild_score_before = store.guilds.get(guild_idx).score;
    let chan_idx = store.channels.find(10).unwrap();
    let chan_score_before = store.channels.get(chan_idx).score;

    let second = run(&mut store, &mut cache, &mut windows, &remote, false);
    assert_eq!(second, 0);
    assert_eq!(store.messages.len(), messages_before);
    assert_eq!(store.guilds.get(store.guilds.find(1).unwrap()).score, guild_score_before);
    assert_eq!(store.channels.get(store.channels.find(10).unwrap()).score, chan_score_before);
}

#[test]
fn reset_wipes_the_guild_and_reingests() {
    let mut store = Store::new();
    let mut cache = PresenceCache::new();
    let mut windows = AuthorWindows::new();
    let remote = sample_remote();
    assert_eq!(run(&mut store, &mut cache, &mut windows, &remote, false), 4);
    // Fresh windows: the reset run replays the same backlog from scratch.
    let mut windows2 = AuthorWindows::new();
    let count = run(&mut store, &mut cache, &mut windows2, &remote, true);
    assert_eq!(count, 4);
    assert_eq!(store.messages.len(), 4);
    assert!(store.guilds.contains_key(1));
}

#[test]
fn quota_limits_what_a_run_pulls() {
    let mut store = Store::new();
    let mut cache = PresenceCache::new();
    let mut windows = AuthorWindows::new();
    let remote = sample_remote();
    let channels = vec![10u64];
    let name = b"guild".to_vec();
    // Quota one: only the newest message of channel 10 is pulled; it is the
    // bot message, which is then filtered, so nothing is ingested.
    let (report, _d1) = ingest(
        &mut store,
        &mut cache,
        &mut windows,
        &remote,
        1,
        &name,
        &channels,
        1,
        false,
        8,
    );
    assert_eq!(report.message_count, 0);
    // Quota two reaches 103, whose reply target 101 is outside the quota:
    // the resolver fetches and inserts it out of band.
    let (report2, _d2) = ingest(
        &mut store,
        &mut cache,
        &mut windows,
        &remote,
        1,
        &name,
        &channels,
        2,
        false,
        8,
    );
    assert_eq!(report2.message_count, 2);
    assert!(store.contains_message(103));
    assert!(store.contains_message(101));
    let i = store.messages.find(103).unwrap();
    assert_eq!(store.messages.get(i).replies_to, Some(101));
}

#[test]
fn replies_to_none_stays_null_in_storage() {
    let mut store = Store::new();
    let mut cache = PresenceCache::new();
    let mut windows = AuthorWindows::new();
    let remote = sample_remote();
    run(&mut store, &mut cache, &mut windows, &remote, false);
    for id in [101u64, 102, 201] {
        let i = store.messages.find(id).unwrap();
        assert_eq!(store.messages.get(i).replies_to, None);
    }
}

#[test]
fn spam_scores_zero_within_a_run() {
    let mut remote = Remote::new();
    assert!(remote.add_channel(RemoteChannel {
        id: 30,
        name: b"spam".to_vec(),
        history: vec![
            msg(305, 30, 9, false, "hello", None),
            msg(304, 30, 9, false, "hello", None),
            msg(303, 30, 9, false, "hello", None),
            msg(302, 30, 9, false, "hello", None),
            msg(301, 30, 9, false, "hello", None),
        ],
    }));
    let mut store = Store::new();
    let mut cache = PresenceCache::new();
    let mut windows = AuthorWindows::new();
    let channels = vec![30u64];
    let name = b"guild".to_vec();
    let _ = ingest(&mut store, &mut cache, &mut windows, &remote, 1, &name, &channels, 1000, false, 8);
    // Messages are processed oldest first: 301 scores, the repeats do not.
    let score_of = |id: u64| {
        let i = store.messages.find(id).unwrap();
        store.messages.get(i).score
    };
    assert_eq!(score_of(301), content_score(b"hello"));
    assert_eq!(score_of(302), 0);
    assert_eq!(score_of(303), 0);
    assert_eq!(score_of(304), 0);
    assert_eq!(score_of(305), 0);
    let ci = store.channels.find(30).unwrap();
    assert_eq!(store.channels.get(ci).score, content_score(b"hello") as u128);
    assert_eq!(store.channels.get(ci).message_count, 5);
}

#[test]
fn author_windows_carry_across_runs() {
    let mut store = Store::new();
    let mut cache = PresenceCache::new();
    let mut windows = AuthorWindows::new();
    let remote = sample_remote();
    run(&mut store, &mut cache, &mut windows, &remote, false);

    // A later run sees a new message from author 1 repeating a content the
    // author sent during the first run: the rolling window remembers it.
    let mut remote2 = Remote::new();
    assert!(remote2.add_channel(RemoteChannel {
        id: 10,
        name: b"general".to_vec(),
        history: vec![
            msg(105, 10, 1, false, "hello world", None),
            msg(
                103,
                10,
                1,
                false,
                "replying to you",
                Some(ReplyRef { channel: 10, message_id: Some(101) }),
            ),
            msg(102, 10, 3, false, "short", None),
            msg(101, 10, 1, false, "hello world", None),
        ],
    }));
    let channels = vec![10u64];
    let name = b"guild".to_vec();
    let (report, _d) = ingest(
        &mut store,
        &mut cache,
        &mut windows,
        &remote2,
        1,
        &name,
        &channels,
        1000,
        false,
        8,
    );
    assert_eq!(report.message_count, 1);
    let i = store.messages.find(105).unwrap();
    assert_eq!(store.messages.get(i).score, 0);
}
