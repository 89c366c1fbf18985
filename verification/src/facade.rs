//! The service surface over the buffer: parse a submission, run the
//! admission policy, and map each outcome to its wire status; serve a
//! listing as JSON; the liveness payload; and the auth gate's decision.

use vstd::prelude::*;

use crate::buffer::{append_result, wf, Buffer, BufferV, Config, MessageV, RejectReason};
use crate::codec::{json_of_list, list_to_json, message_from_json, parse_message};

verus! {

/// Status for a message admitted and stored.
pub const STATUS_CREATED: u16 = 201;

/// Status for a request body that does not parse as a message.
pub const STATUS_BAD_REQUEST: u16 = 400;

/// Status for a missing or wrong API key.
pub const STATUS_UNAUTHORIZED: u16 = 401;

/// Status for a message longer than the configured limit.
pub const STATUS_PAYLOAD_TOO_LARGE: u16 = 413;

/// Status for an author over the configured quota.
pub const STATUS_TOO_MANY_REQUESTS: u16 = 429;

/// Status for a served read or probe.
pub const STATUS_OK: u16 = 200;

/// The wire status a submission outcome maps to.
pub open spec fn status_of(res: Result<(), RejectReason>) -> u16 {
    match res {
        Ok(()) => STATUS_CREATED,
        Err(RejectReason::MessageTooLarge) => STATUS_PAYLOAD_TOO_LARGE,
        Err(RejectReason::AuthorQuotaExceeded) => STATUS_TOO_MANY_REQUESTS,
    }
}

/// What one submission, evaluated at time `now`, does to the buffer and
/// answers on the wire.
pub open spec fn submit_outcome(c: Config, pre: BufferV, now: int, body: Seq<char>) -> (
    BufferV,
    u16,
) {
    match parse_message(body) {
        None => (pre, STATUS_BAD_REQUEST),
        Some(m) => (append_result(c, pre, now, m).0, status_of(append_result(c, pre, now, m).1)),
    }
}

/// Handle one submission at time `now` (unix seconds): parse the body —
/// a failure answers bad-request and leaves the buffer untouched — then run
/// the admission policy and answer created, payload-too-large or
/// rate-limited as it decides.
pub fn submit(c: &Config, buf: &mut Buffer, now: i64, body: &str) -> (status: u16)
    requires
        wf(*c, old(buf)@),
    ensures
        wf(*c, final(buf)@),
        (final(buf)@, status) == submit_outcome(*c, old(buf)@, now as int, body@),
{
    match message_from_json(body) {
        None => STATUS_BAD_REQUEST,
        Some(m) => match buf.append(c, now, m) {
            Ok(()) => STATUS_CREATED,
            Err(RejectReason::MessageTooLarge) => STATUS_PAYLOAD_TOO_LARGE,
            Err(RejectReason::AuthorQuotaExceeded) => STATUS_TOO_MANY_REQUESTS,
        },
    }
}

/// Relies on time::OffsetDateTime::now_utc and unix_timestamp: the current
/// wall-clock time as whole seconds since the unix epoch. The reading is
/// outside the logic; nothing is promised of it.
#[verifier::external_body]
fn get_now() -> i64 {
    time::OffsetDateTime::now_utc().unix_timestamp()
}

/// Handle one submission at the current wall-clock time: whatever instant
/// the clock reports, the buffer and the answer are those of `submit` at
/// that instant.
pub fn handle_submit(c: &Config, buf: &mut Buffer, body: &str) -> (status: u16)
    requires
        wf(*c, old(buf)@),
    ensures
        wf(*c, final(buf)@),
        exists|now: int|
            (final(buf)@, status) == #[trigger] submit_outcome(*c, old(buf)@, now, body@),
{
    let now = get_now();
    submit(c, buf, now, body)
}

/// A fresh, empty buffer whose window starts at the current wall-clock time.
pub fn new_buffer_now() -> (b: Buffer)
    ensures
        b@.entries == Seq::<MessageV>::empty(),
{
    Buffer::new(get_now())
}

/// Serve a listing: the buffer contents as a JSON array, in insertion
/// order, under shared access. Never triggers the staleness wipe.
pub fn list(buf: &Buffer) -> (r: String)
    ensures
        r@ == json_of_list(buf@.entries),
{
    let msgs = buf.snapshot();
    list_to_json(&msgs)
}

/// The liveness payload: always exactly "ok"; never touches the buffer.
pub fn health() -> (r: String)
    ensures
        r@ == seq!['o', 'k'],
{
    let r: String = "ok".to_owned();
    proof {
        reveal_strlit("ok");
        assert(r@ =~= seq!['o', 'k']);
    }
    r
}

/// The auth gate's decision: the request's key header value, where one is
/// present, must equal the configured secret.
pub fn authorized(header: Option<&str>, key: &str) -> (ok: bool)
    ensures
        ok == match header {
            Some(h) => h@ == key@,
            None => false,
        },
{
    match header {
        Some(h) => {
            let hs: String = h.to_owned();
            let ks: String = key.to_owned();
            hs == ks
        },
        None => false,
    }
}

} // verus!
