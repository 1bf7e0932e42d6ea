use recall::store::{GuildRow, MessageRow, Store};

fn guild_row(id: u64, name: &str) -> GuildRow {
    GuildRow {
        snowflake: id,
        name: name.as_bytes().to_vec(),
        score: 0,
        message_count: 0,
        user_count: 0,
    }
}

fn message_row(id: u64, channel: u64, author: u64, score: u64) -> MessageRow {
    MessageRow {
        snowflake: id,
        content: b"hi".to_vec(),
        score,
        author,
        channel,
        replies_to: None,
        timestamp: 0,
    }
}

#[test]
fn concurrent_guild_creation_leaves_one_row() {
    let mut store = Store::new();
    // Two racing creators both observe the guild as absent...
    let first_sees_absent = !store.guilds.contains_key(7);
    let second_sees_absent = !store.guilds.contains_key(7);
    assert!(first_sees_absent && second_sees_absent);
    // ...both try to insert; the loser hits the duplicate-key conflict and
    // falls back to a re-read.
    let first_won = store.guilds.insert(guild_row(7, "g"));
    let second_won = store.guilds.insert(guild_row(7, "g"));
    assert!(first_won);
    assert!(!second_won);
    assert!(store.guilds.contains_key(7));
    assert_eq!(store.guilds.len(), 1);
}

#[test]
fn duplicate_message_insert_is_a_conflict() {
    let mut store = Store::new();
    assert!(store.insert_message(message_row(1, 10, 100, 5)));
    assert!(!store.insert_message(message_row(1, 10, 100, 9)));
    assert_eq!(store.messages.len(), 1);
    let i = store.messages.find(1).unwrap();
    assert_eq!(store.messages.get(i).score, 5);
}

#[test]
fn ensure_rows_are_idempotent() {
    let mut store = Store::new();
    store.ensure_guild_row(1, b"g".to_vec());
    store.ensure_guild_row(1, b"other".to_vec());
    assert_eq!(store.guilds.len(), 1);
    let i = store.guilds.find(1).unwrap();
    assert_eq!(store.guilds.get(i).name, b"g".to_vec());
    assert_eq!(store.guilds.get(i).score, 0);
}

#[test]
fn upsert_accumulates_and_missing_row_reports_false() {
    let mut store = Store::new();
    store.ensure_guild_row(1, b"g".to_vec());
    assert!(store.upsert_guild_delta(1, 2_500, 1));
    assert!(store.upsert_guild_delta(1, 1_500, 2));
    let i = store.guilds.find(1).unwrap();
    assert_eq!(store.guilds.get(i).score, 4_000);
    assert_eq!(store.guilds.get(i).message_count, 3);
    assert!(!store.upsert_guild_delta(999, 1, 1));
}

#[test]
fn aggregates_saturate_instead_of_wrapping() {
    let mut store = Store::new();
    store.ensure_guild_row(1, b"g".to_vec());
    assert!(store.upsert_guild_delta(1, u128::MAX - 10, u64::MAX - 10));
    assert!(store.upsert_guild_delta(1, 100, 100));
    let i = store.guilds.find(1).unwrap();
    assert_eq!(store.guilds.get(i).score, u128::MAX);
    assert_eq!(store.guilds.get(i).message_count, u64::MAX);
}

#[test]
fn cascade_deletes_guild_channels_users_and_messages() {
    let mut store = Store::new();
    store.ensure_guild_row(1, b"one".to_vec());
    store.ensure_guild_row(2, b"two".to_vec());
    store.ensure_channel_row(10, b"c10".to_vec(), 1);
    store.ensure_channel_row(20, b"c20".to_vec(), 2);
    store.ensure_user_row(100, b"u100".to_vec(), 1);
    store.ensure_user_row(200, b"u200".to_vec(), 2);
    // One message in each guild's channel, plus one written in guild 2's
    // channel by a user homed in guild 1.
    assert!(store.insert_message(message_row(1000, 10, 100, 1)));
    assert!(store.insert_message(message_row(2000, 20, 200, 2)));
    assert!(store.insert_message(message_row(3000, 20, 100, 3)));

    store.delete_guild_cascade(1);

    assert!(!store.guilds.contains_key(1));
    assert!(store.guilds.contains_key(2));
    assert!(!store.channels.contains_key(10));
    assert!(store.channels.contains_key(20));
    assert!(!store.users.contains_key(100));
    assert!(store.users.contains_key(200));
    // 1000 sat in a deleted channel; 3000 was written by a deleted user.
    assert!(!store.contains_message(1000));
    assert!(store.contains_message(2000));
    assert!(!store.contains_message(3000));
}

#[test]
fn user_and_channel_rows_keep_their_guild() {
    let mut store = Store::new();
    store.ensure_channel_row(10, b"c".to_vec(), 1);
    store.ensure_user_row(100, b"u".to_vec(), 1);
    let ci = store.channels.find(10).unwrap();
    assert_eq!(store.channels.get(ci).guild, 1);
    let ui = store.users.find(100).unwrap();
    assert_eq!(store.users.get(ui).guild, 1);
}
