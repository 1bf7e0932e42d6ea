use recall::msg::Message;
use recall::paginator::{drain_channel, HistoryPaginator, PAGE_LIMIT};
use recall::remote::{Cursor, Remote, RemoteChannel};

fn msg(id: u64, channel: u64) -> Message {
    Message {
        id,
        channel,
        author: 1,
        author_name: b"a".to_vec(),
        author_is_bot: false,
        content: b"hi".to_vec(),
        timestamp: 0,
        reference: None,
    }
}

/// A channel whose backlog holds `count` messages with descending snowflakes
/// `count, count - 1, ..., 1`.
fn channel_with(channel: u64, count: u64) -> RemoteChannel {
    let mut history = Vec::new();
    let mut id = count;
    while id >= 1 {
        history.push(msg(id, channel));
        id -= 1;
    }
    RemoteChannel {
        id: channel,
        name: b"general".to_vec(),
        history,
    }
}

fn remote_with(channel: u64, count: u64) -> Remote {
    let mut remote = Remote::new();
    assert!(remote.add_channel(channel_with(channel, count)));
    remote
}

#[test]
fn quota_cuts_a_long_backlog() {
    let remote = remote_with(9, 250);
    let got = drain_channel(&remote, 9, 120, None);
    assert_eq!(got.len(), 120);
    // Newest first, and contiguous from the top.
    assert_eq!(got[0].id, 250);
    assert_eq!(got[119].id, 131);
}

#[test]
fn short_backlog_ends_the_sequence() {
    let remote = remote_with(9, 7);
    let got = drain_channel(&remote, 9, 50, None);
    assert_eq!(got.len(), 7);
    assert_eq!(got[0].id, 7);
    assert_eq!(got[6].id, 1);
}

#[test]
fn zero_quota_yields_nothing() {
    let remote = remote_with(9, 5);
    let got = drain_channel(&remote, 9, 0, None);
    assert_eq!(got.len(), 0);
}

#[test]
fn exact_quota_boundary() {
    let remote = remote_with(9, 100);
    assert_eq!(drain_channel(&remote, 9, 100, None).len(), 100);
    assert_eq!(drain_channel(&remote, 9, 101, None).len(), 100);
    assert_eq!(drain_channel(&remote, 9, 99, None).len(), 99);
}

#[test]
fn unknown_channel_is_empty() {
    let remote = remote_with(9, 5);
    assert_eq!(drain_channel(&remote, 8, 10, None).len(), 0);
}

#[test]
fn before_cursor_skips_newer_messages() {
    let remote = remote_with(9, 10);
    let got = drain_channel(&remote, 9, 50, Some(8));
    assert_eq!(got.len(), 7);
    assert_eq!(got[0].id, 7);
}

#[test]
fn page_requests_cap_at_the_remote_limit() {
    let (paginator, request) = HistoryPaginator::new(9, 100_000, Cursor::Start);
    assert_eq!(request.limit, PAGE_LIMIT);
    assert_eq!(request.channel, 9);
    assert!(!paginator.finished);
}

#[test]
fn paginator_steps_through_pages_by_hand() {
    let remote = remote_with(9, 3);
    let (mut p, req) = HistoryPaginator::new(9, 10, Cursor::Start);
    let page = remote.fetch_page(req.channel, req.cursor, req.limit);
    assert_eq!(page.len(), 3);
    p.provide_page(page);
    let first = p.next().unwrap();
    assert_eq!(first.id, 3);
    assert_eq!(p.next().unwrap().id, 2);
    let third = p.next().unwrap();
    assert_eq!(third.id, 1);
    // The buffer is drained with quota to spare: a follow-up request is
    // issued below the last yielded snowflake, and the empty answer ends
    // the sequence.
    let follow_up = p.pending.unwrap();
    assert!(matches!(follow_up.cursor, Cursor::Before(1)));
    let empty = remote.fetch_page(follow_up.channel, follow_up.cursor, follow_up.limit);
    assert_eq!(empty.len(), 0);
    p.provide_page(empty);
    assert!(p.finished);
}

#[test]
fn failed_initial_fetch_degrades_to_empty() {
    let (mut p, _req) = HistoryPaginator::new(9, 10, Cursor::Start);
    p.fail_page();
    assert!(p.finished);
    assert!(p.next().is_none());
}

#[test]
fn after_cursor_filters_older_messages() {
    let remote = remote_with(9, 10);
    let page = remote.fetch_page(9, Cursor::After(7), 100);
    assert_eq!(page.len(), 3);
    assert_eq!(page[0].id, 10);
    assert_eq!(page[2].id, 8);
}

#[test]
fn around_cursor_starts_at_the_snowflake() {
    let remote = remote_with(9, 10);
    let page = remote.fetch_page(9, Cursor::Around(4), 100);
    assert_eq!(page.len(), 4);
    assert_eq!(page[0].id, 4);
}

#[test]
fn drain_crosses_page_boundaries_in_order() {
    let remote = remote_with(9, 250);
    let got = drain_channel(&remote, 9, 230, None);
    assert_eq!(got.len(), 230);
    let mut k = 1;
    while k < got.len() {
        assert!(got[k - 1].id > got[k].id);
        k += 1;
    }
    assert_eq!(got[0].id, 250);
    assert_eq!(got[229].id, 21);
}
