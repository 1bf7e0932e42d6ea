use recall::deltas::Deltas;
use recall::msg::{Message, ReplyRef};
use recall::remote::{Remote, RemoteChannel};
use recall::resolver::resolve_reply;
use recall::score::content_score;
use recall::store::Store;

fn msg(id: u64, channel: u64, author: u64, content: &str, reference: Option<ReplyRef>) -> Message {
    Message {
        id,
        channel,
        author,
        author_name: b"author".to_vec(),
        author_is_bot: false,
        content: content.as_bytes().to_vec(),
        timestamp: id as i64,
        reference,
    }
}

fn reply_to(channel: u64, id: u64) -> Option<ReplyRef> {
    Some(ReplyRef {
        channel,
        message_id: Some(id),
    })
}

/// Channel 1 holds a three-deep chain: 30 replies to 20, 20 replies to 10.
fn chain_remote() -> Remote {
    let mut remote = Remote::new();
    assert!(remote.add_channel(RemoteChannel {
        id: 1,
        name: b"general".to_vec(),
        history: vec![
            msg(30, 1, 5, "third", reply_to(1, 20)),
            msg(20, 1, 5, "second", reply_to(1, 10)),
            msg(10, 1, 5, "first", None),
        ],
    }));
    remote
}

#[test]
fn no_reference_resolves_to_none() {
    let mut store = Store::new();
    let mut deltas = Deltas::new();
    let remote = chain_remote();
    assert_eq!(resolve_reply(&mut store, &mut deltas, &remote, 7, None, 8), None);
    assert_eq!(store.messages.len(), 0);
}

#[test]
fn reference_without_snowflake_resolves_to_none() {
    let mut store = Store::new();
    let mut deltas = Deltas::new();
    let remote = chain_remote();
    let reference = Some(ReplyRef {
        channel: 1,
        message_id: None,
    });
    assert_eq!(resolve_reply(&mut store, &mut deltas, &remote, 7, reference, 8), None);
    assert_eq!(store.messages.len(), 0);
}

#[test]
fn stored_target_resolves_without_fetching() {
    let mut store = Store::new();
    let mut deltas = Deltas::new();
    let remote = chain_remote();
    store.ensure_channel_row(1, b"general".to_vec(), 7);
    store.ensure_user_row(5, b"author".to_vec(), 7);
    assert!(store.insert_message(recall::store::MessageRow {
        snowflake: 10,
        content: b"first".to_vec(),
        score: 1,
        author: 5,
        channel: 1,
        replies_to: None,
        timestamp: 10,
    }));
    let got = resolve_reply(&mut store, &mut deltas, &remote, 7, reply_to(1, 10), 8);
    assert_eq!(got, Some(10));
    assert_eq!(store.messages.len(), 1);
}

#[test]
fn missing_fetchable_target_is_inserted() {
    let mut store = Store::new();
    let mut deltas = Deltas::new();
    let remote = chain_remote();
    let got = resolve_reply(&mut store, &mut deltas, &remote, 7, reply_to(1, 10), 8);
    assert_eq!(got, Some(10));
    assert!(store.contains_message(10));
    let i = store.messages.find(10).unwrap();
    assert_eq!(store.messages.get(i).content, b"first".to_vec());
    assert_eq!(store.messages.get(i).replies_to, None);
    assert_eq!(store.messages.get(i).score, content_score(b"first"));
}

#[test]
fn whole_chain_is_walked_and_linked() {
    let mut store = Store::new();
    let mut deltas = Deltas::new();
    let remote = chain_remote();
    let got = resolve_reply(&mut store, &mut deltas, &remote, 7, reply_to(1, 30), 8);
    assert_eq!(got, Some(30));
    assert!(store.contains_message(30));
    assert!(store.contains_message(20));
    assert!(store.contains_message(10));
    let at = |id: u64| {
        let i = store.messages.find(id).unwrap();
        store.messages.get(i).replies_to
    };
    assert_eq!(at(30), Some(20));
    assert_eq!(at(20), Some(10));
    assert_eq!(at(10), None);
    // Ancestor channels and authors got their rows.
    assert!(store.channels.contains_key(1));
    assert!(store.users.contains_key(5));
}

#[test]
fn unfetchable_target_resolves_to_none() {
    let mut store = Store::new();
    let mut deltas = Deltas::new();
    let remote = chain_remote();
    assert_eq!(resolve_reply(&mut store, &mut deltas, &remote, 7, reply_to(1, 999), 8), None);
    assert_eq!(resolve_reply(&mut store, &mut deltas, &remote, 7, reply_to(42, 10), 8), None);
    assert_eq!(store.messages.len(), 0);
}

#[test]
fn exhausted_budget_resolves_like_a_failed_fetch() {
    let mut store = Store::new();
    let mut deltas = Deltas::new();
    let remote = chain_remote();
    assert_eq!(resolve_reply(&mut store, &mut deltas, &remote, 7, reply_to(1, 10), 0), None);
    assert_eq!(store.messages.len(), 0);
    // Budget one fetches the target but gives up on its own ancestor.
    let mut store2 = Store::new();
    let mut deltas2 = Deltas::new();
    let got = resolve_reply(&mut store2, &mut deltas2, &remote, 7, reply_to(1, 20), 1);
    assert_eq!(got, Some(20));
    let i = store2.messages.find(20).unwrap();
    assert_eq!(store2.messages.get(i).replies_to, None);
    assert!(!store2.contains_message(10));
}

#[test]
fn cyclic_reference_data_terminates() {
    // Malformed remote data: 50 names itself as its reply target.
    let mut remote = Remote::new();
    assert!(remote.add_channel(RemoteChannel {
        id: 2,
        name: b"loop".to_vec(),
        history: vec![msg(50, 2, 5, "selfie", reply_to(2, 50))],
    }));
    let mut store = Store::new();
    let mut deltas = Deltas::new();
    let got = resolve_reply(&mut store, &mut deltas, &remote, 7, reply_to(2, 50), 16);
    assert_eq!(got, Some(50));
    assert!(store.contains_message(50));
    assert_eq!(store.messages.len(), 1);
}

#[test]
fn cross_channel_reply_is_fetched_from_its_own_channel() {
    let mut remote = chain_remote();
    assert!(remote.add_channel(RemoteChannel {
        id: 3,
        name: b"elsewhere".to_vec(),
        history: vec![msg(40, 3, 6, "from another channel", None)],
    }));
    let mut store = Store::new();
    let mut deltas = Deltas::new();
    let got = resolve_reply(&mut store, &mut deltas, &remote, 7, reply_to(3, 40), 8);
    assert_eq!(got, Some(40));
    let i = store.messages.find(40).unwrap();
    assert_eq!(store.messages.get(i).channel, 3);
    assert!(store.channels.contains_key(3));
    assert!(store.users.contains_key(6));
}
