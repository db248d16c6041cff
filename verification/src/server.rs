//! Requests over the network: defaults, admission and events.

use vstd::prelude::*;

verus! {

/// Requests that may wait.
pub const MAX_QUEUED: usize = 20;

/// The line feed.
pub const LINE_FEED: u8 = 10;

/// The carriage return.
pub const CARRIAGE_RETURN: u8 = 13;

/// The backslash.
pub const BACKSLASH: u8 = 92;

/// The small letter n.
pub const LETTER_N: u8 = 110;

pub fn default_user_tier() -> (s: String)
    ensures
        s@ == "FREE"@,
{
    "FREE".to_owned()
}

pub fn default_workload_type() -> (s: String)
    ensures
        s@ == "CHAT"@,
{
    "CHAT".to_owned()
}

pub fn default_max_tokens() -> (n: usize)
    ensures
        n == 100,
{
    100
}

/// The bit pattern of 0.7.
pub fn default_temperature() -> (t: u32)
    ensures
        t == 0x3f33_3333,
{
    0x3f33_3333
}

pub fn default_top_k() -> (n: usize)
    ensures
        n == 40,
{
    40
}

/// The bit pattern of 0.95.
pub fn default_top_p() -> (p: u32)
    ensures
        p == 0x3f73_3333,
{
    0x3f73_3333
}

/// Whether a request is taken.
#[derive(Debug, Clone, Copy, PartialEq, Eq, Structural)]
pub enum Admission {
    Accepted,
    /// The service protects itself after failures.
    Unavailable,
    /// Too many requests wait.
    QueueFull,
}

/// Admits a request: the breaker is asked first, then the queue.
pub fn check_admission(breaker_open: bool, queued: usize) -> (a: Admission)
    ensures
        a == (if breaker_open {
            Admission::Unavailable
        } else if queued > MAX_QUEUED {
            Admission::QueueFull
        } else {
            Admission::Accepted
        }),
{
    if breaker_open {
        Admission::Unavailable
    } else if queued > MAX_QUEUED {
        Admission::QueueFull
    } else {
        Admission::Accepted
    }
}

/// Room for a request's messages: one for each token and one more.
pub fn channel_capacity(max_tokens: usize) -> (n: usize)
    requires
        max_tokens < usize::MAX,
    ensures
        n == max_tokens + 1,
{
    max_tokens + 1
}

/// The first `n` bytes of a text as an event carries them: line feeds are spelled
/// out, carriage returns are left out.
pub open spec fn escaped(text: Seq<u8>, n: int) -> Seq<u8>
    decreases n,
{
    if n <= 0 {
        Seq::empty()
    } else if text[n - 1] == LINE_FEED {
        escaped(text, n - 1).push(BACKSLASH).push(LETTER_N)
    } else if text[n - 1] == CARRIAGE_RETURN {
        escaped(text, n - 1)
    } else {
        escaped(text, n - 1).push(text[n - 1])
    }
}

/// A text as an event carries it.
pub fn event_data(text: &[u8]) -> (r: Vec<u8>)
    ensures
        r@ == escaped(text@, text@.len() as int),
{
    let mut r: Vec<u8> = Vec::new();
    let mut i: usize = 0;
    while i < text.len()
        invariant
            i <= text@.len(),
            r@ == escaped(text@, i as int),
        decreases text@.len() - i,
    {
        let b: u8 = text[i];
        if b == LINE_FEED {
            r.push(BACKSLASH);
            r.push(LETTER_N);
        } else if b != CARRIAGE_RETURN {
            r.push(b);
        }
        i = i + 1;
    }
    r
}

/// An event stays on one line.
pub proof fn law_events_are_one_line(text: Seq<u8>, n: int)
    requires
        0 <= n <= text.len(),
    ensures
        forall|i: int|
            0 <= i < escaped(text, n).len() ==> (#[trigger] escaped(text, n)[i]) != LINE_FEED
                && escaped(text, n)[i] != CARRIAGE_RETURN,
    decreases n,
{
    if n > 0 {
        law_events_are_one_line(text, n - 1);
        let before = escaped(text, n - 1);
        let after = escaped(text, n);
        assert forall|i: int| 0 <= i < after.len() implies (#[trigger] after[i]) != LINE_FEED
            && after[i] != CARRIAGE_RETURN by {
            if i < before.len() {
                assert(after[i] == before[i]);
            }
        }
    }
}

/// Text is carried piece by piece, in order: a line feed as a backslash and an n, a
/// carriage return not at all, and every other byte as it is.
pub proof fn law_text_is_carried_in_order(a: Seq<u8>, b: Seq<u8>, c: u8)
    ensures
        escaped(a + b, (a + b).len() as int) == escaped(a, a.len() as int) + escaped(
            b,
            b.len() as int,
        ),
        escaped(seq![c], 1) == (if c == 10 {
            seq![92u8, 110]
        } else if c == 13 {
            Seq::empty()
        } else {
            seq![c]
        }),
{
    lemma_escaped_concatenates(a, b, b.len() as int);
    reveal_with_fuel(escaped, 2);
    assert(escaped(seq![c], 1) =~= (if c == 10 {
        seq![92u8, 110]
    } else if c == 13 {
        Seq::empty()
    } else {
        seq![c]
    }));
}

proof fn lemma_escaped_concatenates(a: Seq<u8>, b: Seq<u8>, n: int)
    requires
        0 <= n <= b.len(),
    ensures
        escaped(a + b, a.len() + n) == escaped(a, a.len() as int) + escaped(b, n),
    decreases n,
{
    if n > 0 {
        lemma_escaped_concatenates(a, b, n - 1);
        assert((a + b)[a.len() + n - 1] == b[n - 1]);
    } else {
        lemma_escaped_front(a, b, a.len() as int);
    }
    assert(escaped(a + b, a.len() + n) =~= escaped(a, a.len() as int) + escaped(b, n));
}

proof fn lemma_escaped_front(a: Seq<u8>, b: Seq<u8>, n: int)
    requires
        0 <= n <= a.len(),
    ensures
        escaped(a + b, n) == escaped(a, n),
    decreases n,
{
    if n > 0 {
        lemma_escaped_front(a, b, n - 1);
        assert((a + b)[n - 1] == a[n - 1]);
    }
}

} // verus!
