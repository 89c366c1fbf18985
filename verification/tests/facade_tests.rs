use message_buffer::facade::{
    authorized, handle_submit, health, list, new_buffer_now, submit, STATUS_BAD_REQUEST,
    STATUS_CREATED, STATUS_PAYLOAD_TOO_LARGE, STATUS_TOO_MANY_REQUESTS,
};
use message_buffer::{Buffer, Config};

fn test_config() -> Config {
    Config {
        queue_size: 2,
        max_message_size: 5,
        max_author_count: 1,
        max_age_seconds: 300,
    }
}

#[test]
fn submit_maps_outcomes_to_statuses() {
    let c = test_config();
    let mut buf = Buffer::new(0);
    assert_eq!(
        submit(&c, &mut buf, 1, "{\"message\":\"hi\",\"author\":\"a\"}"),
        STATUS_CREATED
    );
    assert_eq!(
        submit(&c, &mut buf, 2, "{\"message\":\"yo\",\"author\":\"a\"}"),
        STATUS_TOO_MANY_REQUESTS
    );
    assert_eq!(
        submit(&c, &mut buf, 3, "{\"message\":\"toolong\",\"author\":\"b\"}"),
        STATUS_PAYLOAD_TOO_LARGE
    );
    assert_eq!(submit(&c, &mut buf, 4, "nonsense"), STATUS_BAD_REQUEST);
    assert_eq!(list(&buf), "[{\"message\":\"hi\",\"author\":\"a\"}]");
}

#[test]
fn rejected_submits_leave_listing_unchanged() {
    let c = test_config();
    let mut buf = Buffer::new(0);
    submit(&c, &mut buf, 1, "{\"message\":\"hi\",\"author\":\"a\"}");
    let before = list(&buf);
    submit(&c, &mut buf, 2, "{\"message\":\"toolong\",\"author\":\"b\"}");
    assert_eq!(list(&buf), before);
    submit(&c, &mut buf, 3, "{\"message\":\"yo\",\"author\":\"a\"}");
    assert_eq!(list(&buf), before);
    submit(&c, &mut buf, 4, "{\"broken\"");
    assert_eq!(list(&buf), before);
}

#[test]
fn full_scenario_in_order() {
    let c = test_config();
    let mut buf = Buffer::new(0);
    let within = 1;
    assert_eq!(
        submit(&c, &mut buf, within, "{\"message\":\"hi\",\"author\":\"a\"}"),
        STATUS_CREATED
    );
    assert_eq!(
        submit(&c, &mut buf, within, "{\"message\":\"yo\",\"author\":\"a\"}"),
        STATUS_TOO_MANY_REQUESTS
    );
    assert_eq!(
        submit(&c, &mut buf, within, "{\"message\":\"toolong\",\"author\":\"b\"}"),
        STATUS_PAYLOAD_TOO_LARGE
    );
    assert_eq!(
        submit(&c, &mut buf, within, "{\"message\":\"hey\",\"author\":\"b\"}"),
        STATUS_CREATED
    );
    assert_eq!(
        submit(&c, &mut buf, within, "{\"message\":\"yo\",\"author\":\"c\"}"),
        STATUS_CREATED
    );
    assert_eq!(
        list(&buf),
        "[{\"message\":\"hey\",\"author\":\"b\"},{\"message\":\"yo\",\"author\":\"c\"}]"
    );
    let past_window = 302;
    assert_eq!(
        submit(&c, &mut buf, past_window, "{\"message\":\"new\",\"author\":\"a\"}"),
        STATUS_CREATED
    );
    assert_eq!(list(&buf), "[{\"message\":\"new\",\"author\":\"a\"}]");
}

#[test]
fn health_is_fixed() {
    assert_eq!(health(), "ok");
}

#[test]
fn auth_gate_compares_header_to_secret() {
    assert!(authorized(Some("s3cret"), "s3cret"));
    assert!(!authorized(Some("wrong"), "s3cret"));
    assert!(!authorized(Some(""), "s3cret"));
    assert!(!authorized(None, "s3cret"));
}

#[test]
fn handle_submit_admits_at_current_time() {
    let c = test_config();
    let mut buf = new_buffer_now();
    assert_eq!(
        handle_submit(&c, &mut buf, "{\"message\":\"hi\",\"author\":\"a\"}"),
        STATUS_CREATED
    );
    assert_eq!(
        handle_submit(&c, &mut buf, "{\"message\":\"yo\",\"author\":\"a\"}"),
        STATUS_TOO_MANY_REQUESTS
    );
    assert_eq!(list(&buf), "[{\"message\":\"hi\",\"author\":\"a\"}]");
}

#[test]
fn fresh_buffer_lists_empty() {
    let buf = new_buffer_now();
    assert_eq!(list(&buf), "[]");
}
