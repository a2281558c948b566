//! What an HTTP status comes to.

use vstd::prelude::*;

use crate::chars::{push_all, push_text, to_chars, to_text, up_to};
use crate::numbers::{dec, decimal};

verus! {

pub open spec fn success(status: u16) -> bool {
    200 <= status < 300
}

/// Is this the status of a request that succeeded?
#[must_use]
pub fn is_success(status: u16) -> (r: bool)
    ensures
        r == success(status),
{
    200 <= status && status < 300
}

/// The first characters of a text.
pub open spec fn first_of(s: Seq<char>, n: nat) -> Seq<char> {
    if s.len() <= n {
        s
    } else {
        s.take(n as int)
    }
}

/// A body's beginning: enough to tell what was refused.
pub fn beginning(body: &str) -> (r: Vec<char>)
    ensures
        r@ == first_of(body@, 200),
{
    let v: Vec<char> = to_chars(body);
    if v.len() <= 200 {
        v
    } else {
        crate::chars::copy_of(up_to(&v, 200))
    }
}

pub open spec fn credentials_refused(status: u16) -> bool {
    status == 401 || status == 403
}

/// What is said of a request that was refused.
pub open spec fn refusal(service: Seq<char>, status: u16, what: Seq<char>, body: Seq<char>) -> Seq<
    char,
> {
    if credentials_refused(status) {
        service + " "@ + what + " was refused (HTTP "@ + dec(status as nat) + "): "@ + first_of(
            body,
            200,
        )
    } else {
        service + " "@ + what + " returned HTTP "@ + dec(status as nat) + ": "@ + first_of(
            body,
            200,
        )
    }
}

/// The words for a request that was refused.
#[must_use]
pub fn refusal_text(service: &str, status: u16, what: &str, body: &str) -> (r: String)
    ensures
        r@ == refusal(service@, status, what@, body@),
{
    let mut out: Vec<char> = to_chars(service);
    push_text(&mut out, " ");
    push_text(&mut out, what);
    let number: Vec<char> = decimal(status as u64);
    if status == 401 || status == 403 {
        push_text(&mut out, " was refused (HTTP ");
        push_all(&mut out, &number);
        push_text(&mut out, "): ");
    } else {
        push_text(&mut out, " returned HTTP ");
        push_all(&mut out, &number);
        push_text(&mut out, ": ");
    }
    let detail: Vec<char> = beginning(body);
    push_all(&mut out, &detail);
    to_text(&out)
}

/// The URL of what hangs below a root.
pub(crate) fn url_below(base: &str, path: &str) -> (r: String)
    ensures
        r@ == base@ + path@,
{
    let mut out: Vec<char> = to_chars(base);
    push_text(&mut out, path);
    to_text(&out)
}

/// The URL of what hangs below a root, by its id.
pub(crate) fn url_of(base: &str, before: &str, id: &str, after: &str) -> (r: String)
    ensures
        r@ == base@ + before@ + id@ + after@,
{
    let mut out: Vec<char> = to_chars(base);
    push_text(&mut out, before);
    push_text(&mut out, id);
    push_text(&mut out, after);
    to_text(&out)
}

/// Which statuses are a success, and which refuse the credentials.
pub proof fn what_a_status_says(status: u16)
    ensures
        success(status) <==> status / 100 == 2,
        credentials_refused(status) <==> status == 401 || status == 403,
        !(success(status) && credentials_refused(status)),
{
}

} // verus!
