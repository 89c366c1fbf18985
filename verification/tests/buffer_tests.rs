use message_buffer::{Buffer, Config, Message, RejectReason};

fn test_config() -> Config {
    Config {
        queue_size: 2,
        max_message_size: 5,
        max_author_count: 1,
        max_age_seconds: 300,
    }
}

fn msg(message: &str, author: &str) -> Message {
    Message {
        message: message.to_string(),
        author: author.to_string(),
    }
}

fn contents(buf: &Buffer) -> Vec<(String, String)> {
    buf.snapshot()
        .into_iter()
        .map(|m| (m.message, m.author))
        .collect()
}

#[test]
fn first_append_succeeds() {
    let c = test_config();
    let mut buf = Buffer::new(0);
    assert_eq!(buf.append(&c, 1, msg("hi", "a")), Ok(()));
    assert_eq!(contents(&buf), vec![("hi".to_string(), "a".to_string())]);
}

#[test]
fn author_quota_rejects_second_append() {
    let c = test_config();
    let mut buf = Buffer::new(0);
    assert_eq!(buf.append(&c, 1, msg("hi", "a")), Ok(()));
    assert_eq!(
        buf.append(&c, 2, msg("yo", "a")),
        Err(RejectReason::AuthorQuotaExceeded)
    );
    assert_eq!(contents(&buf), vec![("hi".to_string(), "a".to_string())]);
}

#[test]
fn oversized_message_rejected_without_mutation() {
    let c = test_config();
    let mut buf = Buffer::new(0);
    assert_eq!(buf.append(&c, 1, msg("hi", "a")), Ok(()));
    let before = contents(&buf);
    assert_eq!(
        buf.append(&c, 2, msg("toolong", "b")),
        Err(RejectReason::MessageTooLarge)
    );
    assert_eq!(contents(&buf), before);
}

#[test]
fn exceeding_capacity_evicts_oldest() {
    let c = test_config();
    let mut buf = Buffer::new(0);
    assert_eq!(buf.append(&c, 1, msg("hi", "a")), Ok(()));
    assert_eq!(buf.append(&c, 2, msg("hey", "b")), Ok(()));
    assert_eq!(buf.append(&c, 3, msg("yo", "c")), Ok(()));
    assert_eq!(
        contents(&buf),
        vec![
            ("hey".to_string(), "b".to_string()),
            ("yo".to_string(), "c".to_string()),
        ]
    );
}

#[test]
fn stale_window_wiped_before_admitting() {
    let c = test_config();
    let mut buf = Buffer::new(0);
    assert_eq!(buf.append(&c, 1, msg("hi", "a")), Ok(()));
    assert_eq!(buf.append(&c, 2, msg("hey", "b")), Ok(()));
    // One second past the window: everything prior is cleared, then the
    // fresh message is admitted even though its author was at quota.
    assert_eq!(buf.append(&c, 301, msg("new", "a")), Ok(()));
    assert_eq!(contents(&buf), vec![("new".to_string(), "a".to_string())]);
}

#[test]
fn boundary_of_window_is_not_stale() {
    let c = test_config();
    let mut buf = Buffer::new(0);
    assert_eq!(buf.append(&c, 1, msg("hi", "a")), Ok(()));
    // now - window_start == max_age exactly: not stale, quota still applies.
    assert_eq!(
        buf.append(&c, 300, msg("yo", "a")),
        Err(RejectReason::AuthorQuotaExceeded)
    );
    assert_eq!(contents(&buf), vec![("hi".to_string(), "a".to_string())]);
}

#[test]
fn snapshot_does_not_trigger_wipe() {
    let c = test_config();
    let mut buf = Buffer::new(0);
    assert_eq!(buf.append(&c, 1, msg("hi", "a")), Ok(()));
    // Staleness is resolved lazily on the next append only; a snapshot long
    // after expiry still shows the stale contents.
    assert_eq!(contents(&buf), vec![("hi".to_string(), "a".to_string())]);
}

#[test]
fn message_length_is_counted_in_bytes() {
    let c = test_config();
    let mut buf = Buffer::new(0);
    // Five characters, but more than five utf-8 bytes.
    assert_eq!(
        buf.append(&c, 1, msg("héllo", "a")),
        Err(RejectReason::MessageTooLarge)
    );
    assert_eq!(contents(&buf), vec![]);
}

#[test]
fn length_cap_is_inclusive() {
    let c = test_config();
    let mut buf = Buffer::new(0);
    assert_eq!(buf.append(&c, 1, msg("12345", "a")), Ok(()));
    assert_eq!(contents(&buf), vec![("12345".to_string(), "a".to_string())]);
}

#[test]
fn zero_capacity_keeps_buffer_empty() {
    let c = Config {
        queue_size: 0,
        max_message_size: 5,
        max_author_count: 1,
        max_age_seconds: 300,
    };
    let mut buf = Buffer::new(0);
    assert_eq!(buf.append(&c, 1, msg("hi", "a")), Ok(()));
    assert_eq!(contents(&buf), vec![]);
}
