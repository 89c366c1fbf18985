//! The message store: a bounded, insertion-ordered log of messages with a
//! lazily reset time window and a per-author quota, mutated only through
//! `append` and read through `snapshot`.

use vstd::prelude::*;

verus! {

/// A single buffered message: text content plus the author tag it was
/// submitted under. Immutable once accepted; it has no identity beyond
/// its position in the buffer.
pub struct Message {
    pub message: String,
    pub author: String,
}

/// Ghost mirror of `Message`: both fields as character sequences.
#[verifier::ext_equal]
pub ghost struct MessageV {
    pub message: Seq<char>,
    pub author: Seq<char>,
}

impl View for Message {
    type V = MessageV;

    open spec fn view(&self) -> MessageV {
        MessageV { message: self.message@, author: self.author@ }
    }
}

impl Clone for Message {
    fn clone(&self) -> (r: Self)
        ensures
            r == *self,
    {
        Message { message: self.message.clone(), author: self.author.clone() }
    }
}

/// Why an `append` was refused. Every rejection is terminal for that
/// request; the buffer defines no internal failures.
#[derive(Clone, Copy, Debug, PartialEq, Eq, Structural)]
pub enum RejectReason {
    /// The message content is longer than `max_message_size` bytes.
    MessageTooLarge,
    /// The author already has `max_author_count` entries in the window.
    AuthorQuotaExceeded,
}

/// Immutable admission-policy configuration, read once at process start.
#[derive(Clone, Copy)]
pub struct Config {
    /// Maximum number of entries retained; when an append pushes the buffer
    /// one past this cap, the oldest entry is evicted.
    pub queue_size: usize,
    /// Maximum content length of one message, in utf-8 bytes.
    pub max_message_size: usize,
    /// Maximum number of buffered entries attributable to one author.
    pub max_author_count: usize,
    /// Window duration in seconds; an append that finds the window older
    /// than this wipes the buffer before admitting anything.
    pub max_age_seconds: i64,
}

/// Ghost state of the buffer: the entries in insertion order and the
/// timestamp (unix seconds) at which the current window began.
#[verifier::ext_equal]
pub ghost struct BufferV {
    pub entries: Seq<MessageV>,
    pub window_start: int,
}

/// The views of a sequence of messages, in order.
pub open spec fn msgs_view(v: Seq<Message>) -> Seq<MessageV> {
    v.map_values(|m: Message| m@)
}

/// How many entries of `s` carry the author tag `a`.
pub open spec fn author_count(s: Seq<MessageV>, a: Seq<char>) -> nat
    decreases s.len(),
{
    if s.len() == 0 {
        0
    } else {
        author_count(s.drop_last(), a) + (if s.last().author == a {
            1nat
        } else {
            0nat
        })
    }
}

/// The length the admission check measures: the message content in utf-8 bytes.
pub open spec fn msg_len(m: MessageV) -> nat {
    vstd::utf8::encode_utf8(m.message).len()
}

/// Whether, at time `now`, the buffer's window has outlived `max_age_seconds`.
pub open spec fn is_stale(c: Config, b: BufferV, now: int) -> bool {
    now - b.window_start > c.max_age_seconds
}

/// The buffer as the staleness step of `append` leaves it: wiped with a
/// fresh window if stale, untouched otherwise.
pub open spec fn wiped(c: Config, pre: BufferV, now: int) -> BufferV {
    if is_stale(c, pre, now) {
        BufferV { entries: Seq::empty(), window_start: now }
    } else {
        pre
    }
}

/// One-shot trim: drop the single oldest entry if the cap is exceeded.
pub open spec fn trimmed(c: Config, s: Seq<MessageV>) -> Seq<MessageV> {
    if s.len() > c.queue_size {
        s.drop_first()
    } else {
        s
    }
}

/// The whole `append` transition: the post-state of the buffer and the
/// outcome, as a function of the configuration, the pre-state, the time of
/// the call and the candidate message.
pub open spec fn append_result(c: Config, pre: BufferV, now: int, m: MessageV) -> (BufferV, Result<
    (),
    RejectReason,
>) {
    let w = wiped(c, pre, now);
    if msg_len(m) > c.max_message_size {
        (w, Err(RejectReason::MessageTooLarge))
    } else if author_count(w.entries, m.author) >= c.max_author_count {
        (w, Err(RejectReason::AuthorQuotaExceeded))
    } else {
        (
            BufferV { entries: trimmed(c, w.entries.push(m)), window_start: w.window_start },
            Ok(()),
        )
    }
}

/// Well-formedness of a buffer under a configuration: the size cap and the
/// per-author quota hold. Established at construction and preserved by
/// every `append`.
pub open spec fn wf(c: Config, b: BufferV) -> bool {
    &&& b.entries.len() <= c.queue_size
    &&& forall|a: Seq<char>| author_count(b.entries, a) <= c.max_author_count
}

/// Appending one message raises its author's count by one and leaves every
/// other author's count unchanged.
pub proof fn lemma_author_count_push(s: Seq<MessageV>, m: MessageV, a: Seq<char>)
    ensures
        author_count(s.push(m), a) == author_count(s, a) + (if m.author == a {
            1nat
        } else {
            0nat
        }),
{
    assert(s.push(m).drop_last() =~= s);
}

/// Dropping the oldest entry never raises an author's count.
pub proof fn lemma_author_count_drop_first(s: Seq<MessageV>, a: Seq<char>)
    requires
        s.len() > 0,
    ensures
        author_count(s.drop_first(), a) <= author_count(s, a),
    decreases s.len(),
{
    if s.len() == 1 {
        assert(s.drop_first() =~= Seq::<MessageV>::empty());
    } else {
        assert(s.drop_first().drop_last() =~= s.drop_last().drop_first());
        assert(s.drop_first().last() == s.last());
        lemma_author_count_drop_first(s.drop_last(), a);
    }
}

/// The shared message log. Created empty at process start; mutated only
/// through `append`; read through `snapshot`.
pub struct Buffer {
    entries: Vec<Message>,
    window_start: i64,
}

impl View for Buffer {
    type V = BufferV;

    closed spec fn view(&self) -> BufferV {
        BufferV { entries: msgs_view(self.entries@), window_start: self.window_start as int }
    }
}

impl Buffer {
    /// A fresh, empty buffer whose window starts at `now` (unix seconds).
    pub fn new(now: i64) -> (b: Buffer)
        ensures
            b@ == (BufferV { entries: Seq::<MessageV>::empty(), window_start: now as int }),
    {
        let b = Buffer { entries: Vec::new(), window_start: now };
        proof {
            assert(b@.entries =~= Seq::<MessageV>::empty());
        }
        b
    }

    /// The admission policy, executed under exclusive access: wipe a stale
    /// window, reject an oversized message, reject an author over quota,
    /// otherwise append and evict the oldest entry if the cap is exceeded.
    pub fn append(&mut self, c: &Config, now: i64, message: Message) -> (r: Result<
        (),
        RejectReason,
    >)
        requires
            wf(*c, old(self)@),
        ensures
            (final(self)@, r) == append_result(*c, old(self)@, now as int, message@),
            wf(*c, final(self)@),
    {
        let ghost pre = self@;

        if (now as i128) - (self.window_start as i128) > (c.max_age_seconds as i128) {
            self.entries.clear();
            self.window_start = now;
            proof {
                assert(self@.entries =~= Seq::<MessageV>::empty());
            }
        }
        let ghost w = wiped(*c, pre, now as int);
        proof {
            assert(self@ =~= w);
        }

        if message.message.as_str().as_bytes().len() > c.max_message_size {
            return Err(RejectReason::MessageTooLarge);
        }
        proof {
            assert(msg_len(message@) <= c.max_message_size);
        }

        let mut count: usize = 0;
        let mut i: usize = 0;
        while i < self.entries.len()
            invariant
                i <= self.entries.len(),
                count <= i,
                count == author_count(self@.entries.subrange(0, i as int), message@.author),
                self@ == w,
            decreases self.entries.len() - i,
        {
            proof {
                assert(self@.entries.subrange(0, i + 1 as int).drop_last() =~= self@
                    .entries
                    .subrange(0, i as int));
                assert(self@.entries.subrange(0, i + 1 as int).last() == self@.entries[i as int]);
            }
            if self.entries[i].author == message.author {
                count = count + 1;
            }
            i = i + 1;
        }
        proof {
            assert(self@.entries.subrange(0, self@.entries.len() as int) =~= self@.entries);
        }

        if count >= c.max_author_count {
            proof {
                assert(author_count(w.entries, message@.author) >= c.max_author_count);
            }
            return Err(RejectReason::AuthorQuotaExceeded);
        }

        let ghost admitted = w.entries.push(message@);
        self.entries.push(message);
        proof {
            assert(self@.entries =~= admitted);
            lemma_author_count_push(w.entries, admitted.last(), admitted.last().author);
        }

        if self.entries.len() > c.queue_size {
            self.entries.remove(0);
            proof {
                assert(self@.entries =~= admitted.drop_first());
            }
        }

        proof {
            assert(self@.entries =~= trimmed(*c, admitted));
            assert(self@ =~= (BufferV {
                entries: trimmed(*c, admitted),
                window_start: w.window_start,
            }));
            assert forall|a: Seq<char>| author_count(self@.entries, a) <= c.max_author_count by {
                lemma_author_count_push(w.entries, admitted.last(), a);
                if admitted.len() > c.queue_size {
                    lemma_author_count_drop_first(admitted, a);
                }
            }
        }
        Ok(())
    }

    /// A copy of the current entries, in insertion order, under shared
    /// access. Never triggers the staleness wipe.
    pub fn snapshot(&self) -> (r: Vec<Message>)
        ensures
            msgs_view(r@) == self@.entries,
            r@.len() == self@.entries.len(),
    {
        let mut r: Vec<Message> = Vec::new();
        let mut i: usize = 0;
        while i < self.entries.len()
            invariant
                i <= self.entries.len(),
                r@ == self.entries@.subrange(0, i as int),
            decreases self.entries.len() - i,
        {
            r.push(self.entries[i].clone());
            proof {
                assert(r@ =~= self.entries@.subrange(0, i + 1 as int));
            }
            i = i + 1;
        }
        proof {
            assert(r@ =~= self.entries@);
            assert(msgs_view(r@) =~= self@.entries);
        }
        r
    }
}

/// Law: after any `append` on a well-formed buffer, the buffer holds at
/// most `queue_size` entries.
pub proof fn lemma_append_bounds_len(c: Config, pre: BufferV, now: int, m: MessageV)
    requires
        wf(c, pre),
    ensures
        append_result(c, pre, now, m).0.entries.len() <= c.queue_size,
{
}

/// Law: immediately after any `append` on a well-formed buffer, every
/// author's entry count is within `max_author_count`; well-formedness is
/// preserved.
pub proof fn lemma_append_bounds_author(c: Config, pre: BufferV, now: int, m: MessageV)
    requires
        wf(c, pre),
    ensures
        wf(c, append_result(c, pre, now, m).0),
        forall|a: Seq<char>|
            author_count(append_result(c, pre, now, m).0.entries, a) <= c.max_author_count,
{
    let w = wiped(c, pre, now);
    let post = append_result(c, pre, now, m).0;
    assert forall|a: Seq<char>| author_count(post.entries, a) <= c.max_author_count by {
        if msg_len(m) > c.max_message_size {
        } else if author_count(w.entries, m.author) >= c.max_author_count {
        } else {
            let admitted = w.entries.push(m);
            lemma_author_count_push(w.entries, m, a);
            if admitted.len() > c.queue_size {
                lemma_author_count_drop_first(admitted, a);
            }
        }
    }
}

/// Law: a message longer than `max_message_size` always yields
/// `MessageTooLarge`, and — whenever the window is still live, so that no
/// wipe precedes the check — the buffer is left exactly as it was.
pub proof fn lemma_oversized_rejected(c: Config, pre: BufferV, now: int, m: MessageV)
    requires
        msg_len(m) > c.max_message_size,
    ensures
        append_result(c, pre, now, m).1 == Err::<(), RejectReason>(RejectReason::MessageTooLarge),
        now - pre.window_start <= c.max_age_seconds ==> append_result(c, pre, now, m).0 == pre,
{
}

/// Law: an `append` that finds the window stale wipes everything that came
/// before: afterwards the buffer holds at most the newly appended message,
/// and the window restarts at `now`. A rejection leaves it empty; a success
/// leaves exactly the new message, as long as there is any capacity at all.
pub proof fn lemma_stale_append_wipes(c: Config, pre: BufferV, now: int, m: MessageV)
    requires
        now - pre.window_start > c.max_age_seconds,
    ensures
        append_result(c, pre, now, m).0.window_start == now,
        append_result(c, pre, now, m).0.entries == Seq::<MessageV>::empty() || append_result(
            c,
            pre,
            now,
            m,
        ).0.entries == seq![m],
        append_result(c, pre, now, m).1 is Err ==> append_result(c, pre, now, m).0.entries
            == Seq::<MessageV>::empty(),
        c.queue_size >= 1 && append_result(c, pre, now, m).1 is Ok ==> append_result(
            c,
            pre,
            now,
            m,
        ).0.entries == seq![m],
{
    let w = wiped(c, pre, now);
    assert(w.entries =~= Seq::<MessageV>::empty());
    let post = append_result(c, pre, now, m).0;
    if append_result(c, pre, now, m).1 is Ok {
        if w.entries.push(m).len() > c.queue_size {
            assert(post.entries =~= Seq::<MessageV>::empty());
        } else {
            assert(post.entries =~= seq![m]);
        }
    }
}

/// Law: within a live window, a rejected `append` is a no-op — the buffer,
/// and hence any `snapshot` of it, is identical before and after.
pub proof fn lemma_rejection_is_noop(c: Config, pre: BufferV, now: int, m: MessageV)
    requires
        now - pre.window_start <= c.max_age_seconds,
        append_result(c, pre, now, m).1 is Err,
    ensures
        append_result(c, pre, now, m).0 == pre,
{
}

} // verus!
