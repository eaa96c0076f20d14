//! The warm embedding daemon's decisions.
//!
//! The daemon keeps the embedding model loaded and answers one request per
//! connection: `ping`, `shutdown`, or `embed` a query. The socket, the model
//! and the clock are the caller's; what to answer, whether to keep serving,
//! how often the idle watchdog looks, and what `stop` concludes are here.

use vstd::prelude::*;
use crate::text::{chars_of, push_str, seq_eq, string_of};

verus! {

/// What the daemon answers a request with.
pub enum Reply {
    /// A bare success.
    Done,
    /// Embed this query and answer with the vector.
    Embed { query: String },
    /// A failure with this message.
    Error { message: String },
}

/// Whether the daemon keeps serving after a request.
#[derive(PartialEq, Eq, Structural)]
pub enum Outcome {
    Continue,
    Shutdown,
}

/// Whether two strings are equal.
fn same_str(a: &str, b: &str) -> (r: bool)
    ensures
        r == (a@ == b@),
{
    let x = chars_of(a);
    let y = chars_of(b);
    seq_eq(&x, &y)
}

/// Decide a request: its operation, the model the client expects, and its
/// query, against the model the daemon serves. A model mismatch means the
/// configuration changed: the client is told so and the daemon exits, so
/// the next one loads the right model.
pub fn handle_request(op: &str, model: Option<&str>, query: Option<&str>, serving: &str) -> (r: (Reply, Outcome))
    ensures
        op@ == "ping"@ ==> r.0 is Done && r.1 == Outcome::Continue,
        op@ == "shutdown"@ ==> r.0 is Done && r.1 == Outcome::Shutdown,
        op@ == "embed"@ ==> match model {
            Some(m) => if m@ == serving@ {
                (r.0 matches Reply::Embed { query: q } && q@ == match query { Some(x) => x@, None => ""@ })
                    && r.1 == Outcome::Continue
            } else {
                (r.0 matches Reply::Error { message } && message@ == "model mismatch"@) && r.1 == Outcome::Shutdown
            },
            None => (r.0 matches Reply::Error { message } && message@ == "model mismatch"@)
                && r.1 == Outcome::Shutdown,
        },
        op@ != "ping"@ && op@ != "shutdown"@ && op@ != "embed"@ ==> (r.0 matches Reply::Error { message }
            && message@ == "unknown op `"@ + op@ + "`"@) && r.1 == Outcome::Continue,
{
    proof {
        reveal_strlit("ping");
        reveal_strlit("shutdown");
        reveal_strlit("embed");
        assert("ping"@.len() == 4);
        assert("shutdown"@.len() == 8);
        assert("embed"@.len() == 5);
    }
    if same_str(op, "ping") {
        return (Reply::Done, Outcome::Continue);
    }
    if same_str(op, "shutdown") {
        return (Reply::Done, Outcome::Shutdown);
    }
    if same_str(op, "embed") {
        let same = match model {
            Some(m) => same_str(m, serving),
            None => false,
        };
        if !same {
            return (Reply::Error { message: "model mismatch".to_owned() }, Outcome::Shutdown);
        }
        let q = match query {
            Some(x) => x.to_owned(),
            None => "".to_owned(),
        };
        return (Reply::Embed { query: q }, Outcome::Continue);
    }
    let mut out: Vec<char> = Vec::new();
    push_str(&mut out, "unknown op `");
    push_str(&mut out, op);
    push_str(&mut out, "`");
    (Reply::Error { message: string_of(&out) }, Outcome::Continue)
}

/// How often, in seconds, the idle watchdog looks: a quarter of the idle
/// timeout, between one and thirty seconds.
pub fn watchdog_tick(idle_secs: u64) -> (r: u64)
    ensures
        r == if idle_secs / 4 < 1 { 1 } else if idle_secs / 4 > 30 { 30 } else { idle_secs / 4 },
        1 <= r <= 30,
{
    let q = idle_secs / 4;
    if q < 1 {
        1
    } else if q > 30 {
        30
    } else {
        q
    }
}

/// Whether the daemon has been idle long enough to exit.
pub fn idle_expired(elapsed_secs: u64, idle_secs: u64) -> (b: bool)
    ensures
        b == (elapsed_secs >= idle_secs),
{
    elapsed_secs >= idle_secs
}

/// What `stop` concludes: with no socket, nothing ran; a daemon that
/// answered the shutdown with success was stopped; otherwise the socket is
/// stale and goes. Returns `(stopped, remove_socket)`.
pub fn stop(socket_exists: bool, answered_ok: bool) -> (r: (bool, bool))
    ensures
        !socket_exists ==> r == (false, false),
        socket_exists && answered_ok ==> r == (true, false),
        socket_exists && !answered_ok ==> r == (false, true),
{
    if !socket_exists {
        (false, false)
    } else if answered_ok {
        (true, false)
    } else {
        (false, true)
    }
}

} // verus!
