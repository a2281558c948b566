//! `Authentication-Results` (RFC 8601), parsed per hop and per mechanism.
//!
//! A message collects one such header per hop. Every header is parsed into its
//! own hop, hops stay in received order, topmost first, and [`rollup`] derives
//! the one-line verdict from the first hop that actually asserted something.
//!
//! A header that makes no sense yields nothing rather than an error.

use vstd::prelude::*;

use crate::chars::{after_prefix, copy_of, find, find_of, from_index, is_white, lower_of, lowered,
    opt_text, pieces, rfind, rfind_of, same_folded, spells, strip, strip_of, strip_prefix_of,
    to_chars, to_text, trim_of, trimmed, up_to, white, words, words_of, Class};
use crate::mime::{every_header, header_values};

verus! {

/// Cap on parsed headers per message: the newest eight still tell the story.
pub const MAX_HEADERS: usize = 8;

/// Cap on mechanism instances parsed per header.
pub const MAX_MECHANISMS: usize = 16;

/// One mechanism instance inside one hop's header, e.g. `dkim=pass
/// header.d=example.com`.
#[derive(Debug, PartialEq, Eq)]
pub struct AuthMechanism {
    /// Lowercased method keyword.
    pub mechanism: String,
    /// Lowercased result token.
    pub result: String,
    /// The mechanism's key domain: DKIM `header.d`, SPF `smtp.mailfrom`
    /// (domain part) falling back to `smtp.helo`, DMARC `header.from`.
    /// Empty when the header carried none.
    pub domain: String,
    /// DMARC policy when present, lowercased. Empty for other mechanisms.
    pub policy: String,
}

/// One header: one hop's verdicts.
#[derive(Debug, PartialEq, Eq)]
pub struct AuthHop {
    /// The authserv-id that stamped this header.
    pub authserv_id: String,
    pub mechanisms: Vec<AuthMechanism>,
}

/// A mechanism, as contracts speak of it.
#[verifier::ext_equal]
pub struct Mechanism {
    pub mechanism: Seq<char>,
    pub result: Seq<char>,
    pub domain: Seq<char>,
    pub policy: Seq<char>,
}

/// A hop, as contracts speak of it.
#[verifier::ext_equal]
pub struct Hop {
    pub authserv_id: Seq<char>,
    pub mechanisms: Seq<Mechanism>,
}

impl AuthMechanism {
    pub open spec fn view(&self) -> Mechanism {
        Mechanism {
            mechanism: self.mechanism@,
            result: self.result@,
            domain: self.domain@,
            policy: self.policy@,
        }
    }
}

impl Clone for AuthMechanism {
    fn clone(&self) -> (r: Self)
        ensures
            r == *self,
    {
        AuthMechanism {
            mechanism: self.mechanism.clone(),
            result: self.result.clone(),
            domain: self.domain.clone(),
            policy: self.policy.clone(),
        }
    }
}

pub open spec fn mechanisms_view(v: Seq<AuthMechanism>) -> Seq<Mechanism> {
    v.map_values(|m: AuthMechanism| m@)
}

impl AuthHop {
    pub open spec fn view(&self) -> Hop {
        Hop { authserv_id: self.authserv_id@, mechanisms: mechanisms_view(self.mechanisms@) }
    }
}

pub open spec fn hops_view(v: Seq<AuthHop>) -> Seq<Hop> {
    v.map_values(|h: AuthHop| h@)
}

/// One `;`-separated slice of a header, its comments taken out and kept apart.
pub struct Segment {
    pub text: Vec<char>,
    pub comments: Vec<char>,
}

/// A segment, as contracts speak of it.
#[verifier::ext_equal]
pub struct Slice {
    pub text: Seq<char>,
    pub comments: Seq<char>,
}

impl Segment {
    pub open spec fn view(&self) -> Slice {
        Slice { text: self.text@, comments: self.comments@ }
    }
}

pub open spec fn slices(v: Seq<Segment>) -> Seq<Slice> {
    v.map_values(|s: Segment| s@)
}

/// A header value read up to some point.
#[verifier::ext_equal]
pub struct Scan {
    pub closed: Seq<Slice>,
    pub open: Slice,
    /// How many comments are open.
    pub depth: nat,
    pub in_quotes: bool,
    pub escaped: bool,
}

impl Scan {
    pub open spec fn start() -> Scan {
        Scan {
            closed: Seq::empty(),
            open: Slice { text: Seq::empty(), comments: Seq::empty() },
            depth: 0,
            in_quotes: false,
            escaped: false,
        }
    }

    /// `c` kept where it was found: in a comment or in the text.
    pub open spec fn keep(self, c: char) -> Slice {
        if self.depth > 0 {
            Slice { comments: self.open.comments.push(c), ..self.open }
        } else {
            Slice { text: self.open.text.push(c), ..self.open }
        }
    }

    /// One more character. Comments nest, quotes hide everything but the
    /// backslash, and a lone `)` is text.
    pub open spec fn step(self, c: char) -> Scan {
        if self.escaped {
            Scan { open: self.keep(c), escaped: false, ..self }
        } else if c == '\\' && (self.in_quotes || self.depth > 0) {
            Scan { escaped: true, ..self }
        } else if c == '"' && self.depth == 0 {
            Scan { open: self.keep(c), in_quotes: !self.in_quotes, ..self }
        } else if c == '(' && !self.in_quotes {
            Scan {
                open: if self.depth > 0 {
                    self.keep(c)
                } else {
                    self.open
                },
                depth: self.depth + 1,
                ..self
            }
        } else if c == ')' && !self.in_quotes && self.depth > 0 {
            Scan {
                open: self.keep(if self.depth > 1 {
                    c
                } else {
                    ' '
                }),
                depth: (self.depth - 1) as nat,
                ..self
            }
        } else if c == ';' && !self.in_quotes && self.depth == 0 {
            Scan {
                closed: self.closed.push(self.open),
                open: Slice { text: Seq::empty(), comments: Seq::empty() },
                ..self
            }
        } else {
            Scan { open: self.keep(c), ..self }
        }
    }
}

pub open spec fn scanned(value: Seq<char>) -> Scan
    decreases value.len(),
{
    if value.len() == 0 {
        Scan::start()
    } else {
        scanned(value.drop_last()).step(value.last())
    }
}

/// The segments of a header value.
pub open spec fn segments(value: Seq<char>) -> Seq<Slice> {
    scanned(value).closed.push(scanned(value).open)
}

/// A text with single spaces between words and none round `=`, and whether a
/// space is owed before the next word.
pub open spec fn collapsed(s: Seq<char>) -> (Seq<char>, bool)
    decreases s.len(),
{
    if s.len() == 0 {
        (Seq::empty(), false)
    } else {
        let (out, owed) = collapsed(s.drop_last());
        let c = s.last();
        if white(c) {
            (out, out.len() > 0)
        } else if c == '=' {
            (out.push('='), false)
        } else if owed && !(out.len() > 0 && out.last() == '=') {
            (out.push(' ').push(c), false)
        } else {
            (out.push(c), false)
        }
    }
}

/// What stands before the first `=` of a word and what stands behind it.
pub open spec fn pair(w: Seq<char>) -> Option<(Seq<char>, Seq<char>)> {
    let i = find(w, Class::Is('='));
    if i >= w.len() {
        None
    } else {
        Some((w.take(i), w.skip(i + 1)))
    }
}

/// What follows the last `@`, folded to lower case.
pub open spec fn domain_of_address(addr: Seq<char>) -> Seq<char> {
    lowered(addr.skip(rfind(addr, Class::Is('@')) + 1))
}

/// The domain, the policy and the HELO name of a mechanism.
#[verifier::ext_equal]
pub struct Properties {
    pub domain: Seq<char>,
    pub policy: Seq<char>,
    pub helo: Seq<char>,
}

pub open spec fn with_property(p: Properties, mechanism: Seq<char>, word: Seq<char>) -> Properties {
    match pair(word) {
        None => p,
        Some((k, v)) => {
            let key = lowered(k);
            let val = strip(v, Class::Is('"'));
            if mechanism == "dkim"@ && key == "header.d"@ {
                Properties { domain: lowered(val), ..p }
            } else if mechanism == "dkim"@ && key == "header.i"@ && p.domain.len() == 0 {
                Properties { domain: domain_of_address(val), ..p }
            } else if (mechanism == "spf"@ && key == "smtp.mailfrom"@) || (mechanism == "dmarc"@
                && key == "header.from"@) {
                Properties { domain: domain_of_address(val), ..p }
            } else if mechanism == "spf"@ && key == "smtp.helo"@ {
                Properties { helo: lowered(val), ..p }
            } else if mechanism == "dmarc"@ && (key == "policy.dmarc"@ || key == "policy"@) {
                Properties { policy: lowered(val), ..p }
            } else {
                p
            }
        },
    }
}

/// The properties that these words give a mechanism.
pub open spec fn properties(mechanism: Seq<char>, ws: Seq<Seq<char>>) -> Properties
    decreases ws.len(),
{
    if ws.len() == 0 {
        Properties { domain: Seq::empty(), policy: Seq::empty(), helo: Seq::empty() }
    } else {
        with_property(properties(mechanism, ws.drop_last()), mechanism, ws.last())
    }
}

pub open spec fn ascii_alphanumeric(c: char) -> bool {
    'a' <= c <= 'z' || 'A' <= c <= 'Z' || '0' <= c <= '9'
}

/// A text without the characters at its end that are no ASCII letter or digit.
pub open spec fn up_to_alphanumeric(s: Seq<char>) -> Seq<char>
    decreases s.len(),
{
    if s.len() > 0 && !ascii_alphanumeric(s.last()) {
        up_to_alphanumeric(s.drop_last())
    } else {
        s
    }
}

/// The token behind the first `p=` among these words.
pub open spec fn policy_word(ws: Seq<Seq<char>>) -> Seq<char>
    decreases ws.len(),
{
    if ws.len() == 0 {
        Seq::empty()
    } else {
        match after_prefix(ws[0], "p="@) {
            Some(p) => lowered(up_to_alphanumeric(p)),
            None => match after_prefix(ws[0], "P="@) {
                Some(p) => lowered(up_to_alphanumeric(p)),
                None => policy_word(ws.skip(1)),
            },
        }
    }
}

/// The mechanism a segment reports, if it reports one.
pub open spec fn mechanism_of(segment: Slice) -> Option<Mechanism> {
    let ws = words(collapsed(segment.text).0);
    if ws.len() == 0 || lowered(ws[0]) == lowered("none"@) {
        None
    } else {
        match pair(ws[0]) {
            None => None,
            Some((m, r)) => {
                let method = lowered(trimmed(m.take(find(m, Class::Is('/')))));
                let result = lowered(trimmed(r));
                if method.len() == 0 || result.len() == 0 {
                    None
                } else {
                    let p = properties(method, ws.skip(1));
                    Some(
                        Mechanism {
                            mechanism: method,
                            result,
                            domain: if method == "spf"@ && p.domain.len() == 0 {
                                p.helo
                            } else {
                                p.domain
                            },
                            policy: if method == "dmarc"@ && p.policy.len() == 0 {
                                policy_word(words(segment.comments))
                            } else {
                                p.policy
                            },
                        },
                    )
                }
            },
        }
    }
}

/// The first `cap` mechanisms that these segments report.
pub open spec fn mechanisms_in(segs: Seq<Slice>, cap: nat) -> Seq<Mechanism>
    decreases segs.len(),
{
    if segs.len() == 0 || cap == 0 {
        Seq::empty()
    } else {
        match mechanism_of(segs[0]) {
            Some(m) => seq![m] + mechanisms_in(segs.skip(1), (cap - 1) as nat),
            None => mechanisms_in(segs.skip(1), cap),
        }
    }
}

/// The hop one header value reports; nothing where not even an authserv-id can
/// be found.
pub open spec fn hop_of(value: Seq<char>) -> Option<Hop> {
    let segs = segments(value);
    let ws = words(segs[0].text);
    if ws.len() == 0 {
        None
    } else {
        Some(
            Hop {
                authserv_id: ws[0],
                mechanisms: mechanisms_in(segs.skip(1), MAX_MECHANISMS as nat),
            },
        )
    }
}

/// The first `cap` hops that these header values report.
pub open spec fn hops_in(values: Seq<Option<Seq<char>>>, cap: nat) -> Seq<Hop>
    decreases values.len(),
{
    if values.len() == 0 || cap == 0 {
        Seq::empty()
    } else {
        let hop = match values[0] {
            Some(value) => hop_of(value),
            None => None,
        };
        match hop {
            Some(h) => seq![h] + hops_in(values.skip(1), (cap - 1) as nat),
            None => hops_in(values.skip(1), cap),
        }
    }
}

/// The hops of a message, given what its headers of that name hold.
pub open spec fn hops_of_headers(values: Option<Seq<Option<Seq<char>>>>) -> Seq<Hop> {
    match values {
        Some(list) => hops_in(list, MAX_HEADERS as nat),
        None => Seq::empty(),
    }
}

/// Reads every `Authentication-Results` header of a message, topmost first.
pub fn from_message(raw: &[u8]) -> (r: Vec<AuthHop>)
    ensures
        hops_view(r@) == hops_of_headers(header_values(raw@, "Authentication-Results"@)),
{
    match every_header(raw, "Authentication-Results") {
        Some(values) => from_headers(&values),
        None => {
            let none: Vec<AuthHop> = Vec::new();
            assert(hops_view(none@) =~= Seq::<Hop>::empty());
            none
        },
    }
}

/// The hops of a message, given the values of its headers, topmost first.
pub fn from_headers(values: &Vec<Option<String>>) -> (r: Vec<AuthHop>)
    ensures
        hops_view(r@) == hops_in(
            values@.map_values(|t: Option<String>| opt_text(t)),
            MAX_HEADERS as nat,
        ),
{
    let ghost all = values@.map_values(|t: Option<String>| opt_text(t));
    let mut out: Vec<AuthHop> = Vec::new();
    let mut i: usize = 0;
    proof {
        assert(all.skip(0) =~= all);
        assert(hops_view(out@) + hops_in(all, MAX_HEADERS as nat) =~= hops_in(
            all,
            MAX_HEADERS as nat,
        ));
    }
    while i < values.len() && out.len() < MAX_HEADERS
        invariant
            i <= values@.len(),
            all == values@.map_values(|t: Option<String>| opt_text(t)),
            out@.len() <= MAX_HEADERS,
            hops_view(out@) + hops_in(all.skip(i as int), (MAX_HEADERS - out@.len()) as nat)
                == hops_in(all, MAX_HEADERS as nat),
        decreases values@.len() - i,
    {
        let ghost before = hops_view(out@);
        let ghost left = (MAX_HEADERS - out@.len()) as nat;
        let ghost rest = all.skip(i as int);
        proof {
            assert(rest[0] == opt_text(values@[i as int]));
            assert(rest.skip(1) =~= all.skip(i + 1));
        }
        match &values[i] {
            Some(value) => {
                match parse_header(value) {
                    Some(hop) => {
                        let ghost h = hop@;
                        out.push(hop);
                        proof {
                            assert(hops_view(out@) =~= before + seq![h]);
                            let tail = hops_in(all.skip(i + 1), (left - 1) as nat);
                            assert(before + (seq![h] + tail) =~= hops_view(out@) + tail);
                        }
                    },
                    None => {},
                }
            },
            None => {},
        }
        i = i + 1;
    }
    proof {
        let tail = hops_in(all.skip(i as int), (MAX_HEADERS - out@.len()) as nat);
        assert(tail =~= Seq::<Hop>::empty());
        assert(hops_view(out@) + tail =~= hops_view(out@));
    }
    out
}

/// Splits a header value into segments on `;` outside comments and quoted
/// strings, taking RFC 5322 comments out of the text and keeping them apart.
pub fn split_segments(value: &str) -> (r: Vec<Segment>)
    ensures
        slices(r@) == segments(value@),
        r@.len() > 0,
{
    let v: Vec<char> = to_chars(value);
    let mut closed: Vec<Segment> = Vec::new();
    let mut text: Vec<char> = Vec::new();
    let mut comments: Vec<char> = Vec::new();
    let mut depth: usize = 0;
    let mut in_quotes = false;
    let mut escaped = false;
    let mut i: usize = 0;
    proof {
        assert(slices(closed@) =~= Scan::start().closed);
        assert(text@ =~= Scan::start().open.text);
        assert(comments@ =~= Scan::start().open.comments);
        assert(v@.take(0).len() == 0);
    }
    while i < v.len()
        invariant
            i <= v@.len(),
            depth <= i,
            (Scan {
                closed: slices(closed@),
                open: Slice { text: text@, comments: comments@ },
                depth: depth as nat,
                in_quotes,
                escaped,
            }) == scanned(v@.take(i as int)),
        decreases v@.len() - i,
    {
        let c: char = v[i];
        let ghost before = Scan {
            closed: slices(closed@),
            open: Slice { text: text@, comments: comments@ },
            depth: depth as nat,
            in_quotes,
            escaped,
        };
        if escaped {
            if depth > 0 {
                comments.push(c);
            } else {
                text.push(c);
            }
            escaped = false;
        } else if c == '\\' && (in_quotes || depth > 0) {
            escaped = true;
        } else if c == '"' && depth == 0 {
            in_quotes = !in_quotes;
            text.push(c);
        } else if c == '(' && !in_quotes {
            if depth > 0 {
                comments.push(c);
            }
            depth = depth + 1;
        } else if c == ')' && !in_quotes && depth > 0 {
            depth = depth - 1;
            if depth > 0 {
                comments.push(c);
            } else {
                comments.push(' ');
            }
        } else if c == ';' && !in_quotes && depth == 0 {
            let ghost so_far = slices(closed@);
            let ghost done = Slice { text: text@, comments: comments@ };
            closed.push(Segment { text, comments });
            assert(slices(closed@) =~= so_far.push(done));
            text = Vec::new();
            comments = Vec::new();
            assert(text@ =~= Seq::<char>::empty());
            assert(comments@ =~= Seq::<char>::empty());
        } else if depth > 0 {
            comments.push(c);
        } else {
            text.push(c);
        }
        i = i + 1;
        proof {
            assert(v@.take(i as int).drop_last() =~= v@.take(i - 1));
            assert((Scan {
                closed: slices(closed@),
                open: Slice { text: text@, comments: comments@ },
                depth: depth as nat,
                in_quotes,
                escaped,
            }) =~= before.step(c));
        }
    }
    proof {
        assert(v@.take(i as int) =~= v@);
    }
    let ghost so_far = slices(closed@);
    let ghost last = Slice { text: text@, comments: comments@ };
    closed.push(Segment { text, comments });
    assert(slices(closed@) =~= so_far.push(last));
    closed
}

/// Collapses white space round `=`, and every other run of it to one space.
fn collapse_eq(s: &[char]) -> (r: Vec<char>)
    ensures
        r@ == collapsed(s@).0,
{
    let mut out: Vec<char> = Vec::new();
    let mut pending = false;
    let mut i: usize = 0;
    while i < s.len()
        invariant
            i <= s@.len(),
            (out@, pending) == collapsed(s@.take(i as int)),
        decreases s@.len() - i,
    {
        let c: char = s[i];
        proof {
            assert(s@.take(i + 1).drop_last() =~= s@.take(i as int));
        }
        if is_white(c) {
            pending = out.len() > 0;
        } else if c == '=' {
            out.push('=');
            pending = false;
        } else {
            if pending && !(out.len() > 0 && out[out.len() - 1] == '=') {
                out.push(' ');
            }
            out.push(c);
            pending = false;
        }
        i = i + 1;
    }
    assert(s@.take(i as int) =~= s@);
    out
}

/// Parses one header value into a hop.
fn parse_header(value: &str) -> (r: Option<AuthHop>)
    ensures
        match r {
            Some(hop) => hop_of(value@) == Some(hop@),
            None => hop_of(value@) is None,
        },
{
    let segs: Vec<Segment> = split_segments(value);
    let ghost all = slices(segs@);
    assert(all[0] == segs@[0]@);
    let ws: Vec<Vec<char>> = words_of(&segs[0].text);
    assert(pieces(ws@).len() == ws@.len());
    if ws.len() == 0 {
        return None;
    }
    assert(pieces(ws@)[0] == ws@[0]@);
    let mut out: Vec<AuthMechanism> = Vec::new();
    let mut i: usize = 1;
    proof {
        assert(mechanisms_view(out@) + mechanisms_in(all.skip(1), MAX_MECHANISMS as nat)
            =~= mechanisms_in(all.skip(1), MAX_MECHANISMS as nat));
    }
    while i < segs.len() && out.len() < MAX_MECHANISMS
        invariant
            1 <= i <= segs@.len(),
            all == slices(segs@),
            out@.len() <= MAX_MECHANISMS,
            mechanisms_view(out@) + mechanisms_in(
                all.skip(i as int),
                (MAX_MECHANISMS - out@.len()) as nat,
            ) == mechanisms_in(all.skip(1), MAX_MECHANISMS as nat),
        decreases segs@.len() - i,
    {
        let ghost before = mechanisms_view(out@);
        let ghost left = (MAX_MECHANISMS - out@.len()) as nat;
        let ghost rest = all.skip(i as int);
        proof {
            assert(rest[0] == segs@[i as int]@);
            assert(rest.skip(1) =~= all.skip(i + 1));
        }
        match parse_mechanism(&segs[i]) {
            Some(m) => {
                let ghost g = m@;
                out.push(m);
                proof {
                    assert(mechanisms_view(out@) =~= before + seq![g]);
                    let tail = mechanisms_in(all.skip(i + 1), (left - 1) as nat);
                    assert(before + (seq![g] + tail) =~= mechanisms_view(out@) + tail);
                }
            },
            None => {},
        }
        i = i + 1;
    }
    proof {
        let tail = mechanisms_in(all.skip(i as int), (MAX_MECHANISMS - out@.len()) as nat);
        assert(tail =~= Seq::<Mechanism>::empty());
        assert(mechanisms_view(out@) + tail =~= mechanisms_view(out@));
    }
    let hop = AuthHop { authserv_id: to_text(&ws[0]), mechanisms: out };
    assert(hop@ =~= hop_of(value@)->0);
    Some(hop)
}

fn domain_part(addr: &[char]) -> (r: Vec<char>)
    ensures
        r@ == domain_of_address(addr@),
{
    match rfind_of(addr, Class::Is('@')) {
        Some(i) => lower_of(from_index(addr, i + 1)),
        None => {
            assert(addr@.skip(0) =~= addr@);
            lower_of(addr)
        },
    }
}

fn last_alphanumeric(s: &[char]) -> (r: &[char])
    ensures
        r@ == up_to_alphanumeric(s@),
{
    let mut n: usize = s.len();
    assert(s@.take(n as int) =~= s@);
    while n > 0
        invariant
            n <= s@.len(),
            up_to_alphanumeric(s@.take(n as int)) == up_to_alphanumeric(s@),
        decreases n,
    {
        let c: char = s[n - 1];
        if ('a' <= c && c <= 'z') || ('A' <= c && c <= 'Z') || ('0' <= c && c <= '9') {
            return up_to(s, n);
        }
        assert(s@.take(n as int).drop_last() =~= s@.take(n - 1));
        n = n - 1;
    }
    up_to(s, 0)
}

/// Reads `p=<token>` out of comment text, the de-facto DMARC policy stamp.
fn comment_policy(comments: &[char]) -> (r: Vec<char>)
    ensures
        r@ == policy_word(words(comments@)),
{
    let ws: Vec<Vec<char>> = words_of(comments);
    let ghost all = pieces(ws@);
    let mut i: usize = 0;
    assert(all.skip(0) =~= all);
    while i < ws.len()
        invariant
            i <= ws@.len(),
            all == pieces(ws@),
            all == words(comments@),
            policy_word(all.skip(i as int)) == policy_word(all),
        decreases ws@.len() - i,
    {
        let w: &Vec<char> = &ws[i];
        proof {
            assert(all.skip(i as int)[0] == w@);
            assert(all.skip(i as int).skip(1) =~= all.skip(i + 1));
        }
        match strip_prefix_of(w, "p=") {
            Some(p) => {
                return lower_of(last_alphanumeric(p));
            },
            None => {},
        }
        match strip_prefix_of(w, "P=") {
            Some(p) => {
                return lower_of(last_alphanumeric(p));
            },
            None => {},
        }
        i = i + 1;
    }
    let none: Vec<char> = Vec::new();
    assert(none@ =~= Seq::<char>::empty());
    none
}

/// The properties read so far.
struct Found {
    domain: Vec<char>,
    policy: Vec<char>,
    helo: Vec<char>,
}

impl Found {
    spec fn view(&self) -> Properties {
        Properties { domain: self.domain@, policy: self.policy@, helo: self.helo@ }
    }
}

fn note_property(found: Found, mechanism: &[char], word: &[char]) -> (r: Found)
    ensures
        r@ == with_property(found@, mechanism@, word@),
{
    let mut found = found;
    match find_of(word, Class::Is('=')) {
        None => {},
        Some(i) => {
            let key: Vec<char> = lower_of(up_to(word, i));
            let val: &[char] = strip_of(from_index(word, i + 1), Class::Is('"'));
            if spells(mechanism, "dkim") && spells(&key, "header.d") {
                found.domain = lower_of(val);
            } else if spells(mechanism, "dkim") && spells(&key, "header.i") && found.domain.len()
                == 0 {
                found.domain = domain_part(val);
            } else if (spells(mechanism, "spf") && spells(&key, "smtp.mailfrom")) || (spells(
                mechanism,
                "dmarc",
            ) && spells(&key, "header.from")) {
                found.domain = domain_part(val);
            } else if spells(mechanism, "spf") && spells(&key, "smtp.helo") {
                found.helo = lower_of(val);
            } else if spells(mechanism, "dmarc") && (spells(&key, "policy.dmarc") || spells(
                &key,
                "policy",
            )) {
                found.policy = lower_of(val);
            }
        },
    }
    found
}

/// Parses one resinfo segment: `method[/version]=result` followed by
/// `ptype.pname=value` properties.
pub fn parse_mechanism(segment: &Segment) -> (r: Option<AuthMechanism>)
    ensures
        match r {
            Some(m) => mechanism_of(segment@) == Some(m@),
            None => mechanism_of(segment@) is None,
        },
{
    let normalized: Vec<char> = collapse_eq(&segment.text);
    let ws: Vec<Vec<char>> = words_of(&normalized);
    let ghost all = pieces(ws@);
    assert(all.len() == ws@.len());
    if ws.len() == 0 {
        return None;
    }
    let head: &Vec<char> = &ws[0];
    assert(all[0] == head@);
    if same_folded(head, "none") {
        return None;
    }
    let eq: usize = match find_of(head, Class::Is('=')) {
        Some(i) => i,
        None => {
            return None;
        },
    };
    let before: &[char] = up_to(head, eq);
    let slash: usize = match find_of(before, Class::Is('/')) {
        Some(i) => i,
        None => before.len(),
    };
    let method: Vec<char> = lower_of(trim_of(up_to(before, slash)));
    let result: Vec<char> = lower_of(trim_of(from_index(head, eq + 1)));
    if method.len() == 0 || result.len() == 0 {
        return None;
    }
    let mut found = Found { domain: Vec::new(), policy: Vec::new(), helo: Vec::new() };
    let mut i: usize = 1;
    let ghost rest = all.skip(1);
    proof {
        assert(rest.take(0).len() == 0);
        assert(found@ =~= properties(method@, rest.take(0)));
    }
    while i < ws.len()
        invariant
            1 <= i <= ws@.len(),
            all == pieces(ws@),
            rest == all.skip(1),
            found@ == properties(method@, rest.take(i - 1)),
        decreases ws@.len() - i,
    {
        proof {
            assert(rest.take(i as int).drop_last() =~= rest.take(i - 1));
            assert(rest.take(i as int).last() == ws@[i as int]@);
        }
        found = note_property(found, &method, &ws[i]);
        i = i + 1;
    }
    assert(rest.take(i - 1) =~= rest);
    let domain: Vec<char> = if spells(&method, "spf") && found.domain.len() == 0 {
        copy_of(&found.helo)
    } else {
        copy_of(&found.domain)
    };
    let policy: Vec<char> = if spells(&method, "dmarc") && found.policy.len() == 0 {
        comment_policy(&segment.comments)
    } else {
        copy_of(&found.policy)
    };
    let m = AuthMechanism {
        mechanism: to_text(&method),
        result: to_text(&result),
        domain: to_text(&domain),
        policy: to_text(&policy),
    };
    assert(m@ =~= mechanism_of(segment@)->0);
    Some(m)
}

pub open spec fn hard_failure(result: Seq<char>) -> bool {
    result == "fail"@ || result == "softfail"@ || result == "permerror"@
}

/// Whether the hop mentions this mechanism.
pub open spec fn mentions(hop: Hop, name: Seq<char>) -> bool {
    exists|i: int| 0 <= i < hop.mechanisms.len() && (#[trigger] hop.mechanisms[i]).mechanism == name
}

/// Whether some instance of this mechanism passed.
pub open spec fn passes(hop: Hop, name: Seq<char>) -> bool {
    exists|i: int|
        0 <= i < hop.mechanisms.len() && (#[trigger] hop.mechanisms[i]).mechanism == name
            && hop.mechanisms[i].result == "pass"@
}

/// Whether some instance of this mechanism failed hard.
pub open spec fn breaks(hop: Hop, name: Seq<char>) -> bool {
    exists|i: int|
        0 <= i < hop.mechanisms.len() && (#[trigger] hop.mechanisms[i]).mechanism == name
            && hard_failure(hop.mechanisms[i].result)
}

pub open spec fn asserts_something(hop: Hop) -> bool {
    mentions(hop, "spf"@) || mentions(hop, "dkim"@) || mentions(hop, "dmarc"@)
}

/// A mechanism the hop mentions counts as passed if any instance passed.
pub open spec fn settled(hop: Hop, name: Seq<char>) -> bool {
    mentions(hop, name) ==> passes(hop, name)
}

/// A mechanism with no pass and a hard failure fails the hop.
pub open spec fn fails(hop: Hop, name: Seq<char>) -> bool {
    !passes(hop, name) && breaks(hop, name)
}

/// A hop's one-word verdict.
pub open spec fn verdict(hop: Hop) -> Seq<char> {
    if !asserts_something(hop) {
        ""@
    } else if fails(hop, "spf"@) || fails(hop, "dkim"@) || fails(hop, "dmarc"@) {
        "fail"@
    } else if settled(hop, "spf"@) && settled(hop, "dkim"@) && settled(hop, "dmarc"@) {
        "pass"@
    } else {
        "partial"@
    }
}

/// The verdict of the first hop that asserts anything.
pub open spec fn first_verdict(hops: Seq<Hop>) -> Seq<char>
    decreases hops.len(),
{
    if hops.len() == 0 {
        ""@
    } else if asserts_something(hops[0]) {
        verdict(hops[0])
    } else {
        first_verdict(hops.skip(1))
    }
}

/// What a hop says of one mechanism: mentioned, passed, failed hard.
fn standing(hop: &AuthHop, name: &str) -> (r: (bool, bool, bool))
    ensures
        r.0 == mentions(hop@, name@),
        r.1 == passes(hop@, name@),
        r.2 == breaks(hop@, name@),
{
    let ghost h = hop@;
    let mut any = false;
    let mut pass = false;
    let mut fail = false;
    let mut i: usize = 0;
    while i < hop.mechanisms.len()
        invariant
            i <= hop.mechanisms@.len(),
            h == hop@,
            any == (exists|j: int|
                0 <= j < i && (#[trigger] h.mechanisms[j]).mechanism == name@),
            pass == (exists|j: int|
                0 <= j < i && (#[trigger] h.mechanisms[j]).mechanism == name@
                    && h.mechanisms[j].result == "pass"@),
            fail == (exists|j: int|
                0 <= j < i && (#[trigger] h.mechanisms[j]).mechanism == name@ && hard_failure(
                    h.mechanisms[j].result,
                )),
        decreases hop.mechanisms@.len() - i,
    {
        let m: &AuthMechanism = &hop.mechanisms[i];
        assert(h.mechanisms[i as int] == m@);
        if crate::chars::same(&m.mechanism, name) {
            any = true;
            if crate::chars::same(&m.result, "pass") {
                pass = true;
            }
            if crate::chars::same(&m.result, "fail") || crate::chars::same(&m.result, "softfail")
                || crate::chars::same(&m.result, "permerror") {
                fail = true;
            }
        }
        i = i + 1;
    }
    (any, pass, fail)
}

/// Derives the one-word verdict ("pass", "partial", "fail" or nothing) from
/// structured hops.
///
/// The first hop carrying any of spf, dkim or dmarc decides. Per mechanism, any
/// passing instance counts as a pass; a mechanism with no pass and a hard
/// failure fails the hop.
pub fn rollup(hops: &[AuthHop]) -> (r: &'static str)
    ensures
        r@ == first_verdict(hops_view(hops@)),
{
    let ghost all = hops_view(hops@);
    let mut i: usize = 0;
    assert(all.skip(0) =~= all);
    while i < hops.len()
        invariant
            i <= hops@.len(),
            all == hops_view(hops@),
            first_verdict(all.skip(i as int)) == first_verdict(all),
        decreases hops@.len() - i,
    {
        let hop: &AuthHop = &hops[i];
        proof {
            assert(all.skip(i as int)[0] == hop@);
            assert(all.skip(i as int).skip(1) =~= all.skip(i + 1));
        }
        let spf = standing(hop, "spf");
        let dkim = standing(hop, "dkim");
        let dmarc = standing(hop, "dmarc");
        if spf.0 || dkim.0 || dmarc.0 {
            if (!spf.1 && spf.2) || (!dkim.1 && dkim.2) || (!dmarc.1 && dmarc.2) {
                return "fail";
            }
            if (!spf.0 || spf.1) && (!dkim.0 || dkim.1) && (!dmarc.0 || dmarc.1) {
                return "pass";
            }
            return "partial";
        }
        i = i + 1;
    }
    ""
}

/// A hop behind the deciding one changes nothing: a forwarder's older verdict
/// cannot mask the final receiver's.
pub proof fn the_final_receiver_decides_alone(first: Hop, later: Seq<Hop>)
    requires
        asserts_something(first),
    ensures
        first_verdict(seq![first] + later) == verdict(first),
{
    assert((seq![first] + later)[0] == first);
}

/// What the verdict says of the hop that decides, the first that mentions SPF, DKIM or
/// DMARC. It is "fail" exactly where one of the three has an instance that failed hard and
/// none that passed; it is "pass" exactly where each of the three that the hop mentions has
/// an instance that passed; otherwise it is "partial".
pub proof fn what_the_verdict_says(hops: Seq<Hop>, at: int)
    requires
        0 <= at < hops.len(),
        exists|k: int|
            0 <= k < hops[at].mechanisms.len() && ((#[trigger] hops[at].mechanisms[k]).mechanism
                == "spf"@ || hops[at].mechanisms[k].mechanism == "dkim"@
                || hops[at].mechanisms[k].mechanism == "dmarc"@),
        forall|i: int, k: int|
            0 <= i < at && 0 <= k < hops[i].mechanisms.len() ==> (
            #[trigger] hops[i].mechanisms[k]).mechanism != "spf"@ && hops[i].mechanisms[k].mechanism
                != "dkim"@ && hops[i].mechanisms[k].mechanism != "dmarc"@,
    ensures
        ({
            let all = hops[at].mechanisms;
            let v = first_verdict(hops);
            &&& v == "fail"@ <==> exists|k: int|
                0 <= k < all.len() && ((#[trigger] all[k]).mechanism == "spf"@ || all[k].mechanism
                    == "dkim"@ || all[k].mechanism == "dmarc"@) && (all[k].result == "fail"@
                    || all[k].result == "softfail"@ || all[k].result == "permerror"@)
                    && forall|j: int|
                    0 <= j < all.len() && (#[trigger] all[j]).mechanism == all[k].mechanism
                        ==> all[j].result != "pass"@
            &&& v == "pass"@ <==> forall|k: int|
                0 <= k < all.len() && ((#[trigger] all[k]).mechanism == "spf"@ || all[k].mechanism
                    == "dkim"@ || all[k].mechanism == "dmarc"@) ==> exists|j: int|
                    0 <= j < all.len() && (#[trigger] all[j]).mechanism == all[k].mechanism
                        && all[j].result == "pass"@
            &&& v == "fail"@ || v == "pass"@ || v == "partial"@
        }),
    decreases at,
{
    reveal_strlit("fail");
    reveal_strlit("softfail");
    reveal_strlit("permerror");
    reveal_strlit("pass");
    reveal_strlit("partial");
    reveal_strlit("spf");
    reveal_strlit("dkim");
    reveal_strlit("dmarc");
    assert("fail"@.len() == 4 && "pass"@.len() == 4 && "partial"@.len() == 7);
    assert("fail"@[0] == 'f' && "pass"@[0] == 'p');
    if at > 0 {
        let rest = hops.skip(1);
        assert(rest[at - 1] == hops[at]);
        assert forall|i: int, k: int|
            0 <= i < at - 1 && 0 <= k < rest[i].mechanisms.len() implies (
        #[trigger] rest[i].mechanisms[k]).mechanism != "spf"@ && rest[i].mechanisms[k].mechanism
            != "dkim"@ && rest[i].mechanisms[k].mechanism != "dmarc"@ by {
            assert(rest[i] == hops[i + 1]);
            assert(hops[i + 1].mechanisms[k] == rest[i].mechanisms[k]);
        }
        what_the_verdict_says(rest, at - 1);
        let first = hops[0];
        assert(!asserts_something(first)) by {
            assert forall|k: int| 0 <= k < first.mechanisms.len() implies (
            #[trigger] first.mechanisms[k]).mechanism != "spf"@ && first.mechanisms[k].mechanism
                != "dkim"@ && first.mechanisms[k].mechanism != "dmarc"@ by {
                assert(hops[0].mechanisms[k] == first.mechanisms[k]);
            }
        }
    } else {
        let hop = hops[0];
        let all = hop.mechanisms;
        if fails(hop, "spf"@) {
            let k = choose|k: int|
                0 <= k < all.len() && (#[trigger] all[k]).mechanism == "spf"@ && hard_failure(
                    all[k].result,
                );
            assert(all[k].mechanism == "spf"@);
        }
        if fails(hop, "dkim"@) {
            let k = choose|k: int|
                0 <= k < all.len() && (#[trigger] all[k]).mechanism == "dkim"@ && hard_failure(
                    all[k].result,
                );
            assert(all[k].mechanism == "dkim"@);
        }
        if fails(hop, "dmarc"@) {
            let k = choose|k: int|
                0 <= k < all.len() && (#[trigger] all[k]).mechanism == "dmarc"@ && hard_failure(
                    all[k].result,
                );
            assert(all[k].mechanism == "dmarc"@);
        }
        if !settled(hop, "spf"@) {
            let k = choose|k: int| 0 <= k < all.len() && (#[trigger] all[k]).mechanism == "spf"@;
            assert(all[k].mechanism == "spf"@);
        }
        if !settled(hop, "dkim"@) {
            let k = choose|k: int| 0 <= k < all.len() && (#[trigger] all[k]).mechanism == "dkim"@;
            assert(all[k].mechanism == "dkim"@);
        }
        if !settled(hop, "dmarc"@) {
            let k = choose|k: int| 0 <= k < all.len() && (#[trigger] all[k]).mechanism == "dmarc"@;
            assert(all[k].mechanism == "dmarc"@);
        }
    }
}

/// Where no hop mentions SPF, DKIM or DMARC there is no verdict.
pub proof fn no_verdict_on_nothing(hops: Seq<Hop>)
    requires
        forall|i: int, k: int|
            0 <= i < hops.len() && 0 <= k < hops[i].mechanisms.len() ==> (
            #[trigger] hops[i].mechanisms[k]).mechanism != "spf"@ && hops[i].mechanisms[k].mechanism
                != "dkim"@ && hops[i].mechanisms[k].mechanism != "dmarc"@,
    ensures
        first_verdict(hops).len() == 0,
    decreases hops.len(),
{
    reveal_strlit("");
    if hops.len() > 0 {
        let rest = hops.skip(1);
        assert forall|i: int, k: int| 0 <= i < rest.len() && 0 <= k < rest[i].mechanisms.len() implies (
        #[trigger] rest[i].mechanisms[k]).mechanism != "spf"@ && rest[i].mechanisms[k].mechanism
            != "dkim"@ && rest[i].mechanisms[k].mechanism != "dmarc"@ by {
            assert(hops[i + 1].mechanisms[k] == rest[i].mechanisms[k]);
        }
        no_verdict_on_nothing(rest);
        assert forall|k: int| 0 <= k < hops[0].mechanisms.len() implies (
        #[trigger] hops[0].mechanisms[k]).mechanism != "spf"@ && hops[0].mechanisms[k].mechanism
            != "dkim"@ && hops[0].mechanisms[k].mechanism != "dmarc"@ by {}
    }
}

/// A header value is cut at every semicolon that stands in no comment and no quotes: what is
/// in front of it and what is behind it are read apart.
pub proof fn a_semicolon_parts_segments(front: Seq<char>, back: Seq<char>)
    requires
        scanned(front).depth == 0,
        !scanned(front).in_quotes,
        !scanned(front).escaped,
    ensures
        segments(front + seq![';'] + back) == segments(front) + segments(back),
{
    lemma_parted(front, back);
    assert(segments(front + seq![';'] + back) =~= segments(front) + segments(back));
}

proof fn lemma_parted(front: Seq<char>, back: Seq<char>)
    requires
        scanned(front).depth == 0,
        !scanned(front).in_quotes,
        !scanned(front).escaped,
    ensures
        scanned(front + seq![';'] + back) == (Scan {
            closed: segments(front) + scanned(back).closed,
            ..scanned(back)
        }),
    decreases back.len(),
{
    let s = front + seq![';'] + back;
    if back.len() == 0 {
        assert(s.drop_last() =~= front);
        assert(s.last() == ';');
        assert(segments(front) + scanned(back).closed =~= segments(front));
        assert(scanned(s) =~= (Scan {
            closed: segments(front) + scanned(back).closed,
            ..scanned(back)
        }));
    } else {
        lemma_parted(front, back.drop_last());
        assert(s.drop_last() =~= front + seq![';'] + back.drop_last());
        assert(s.last() == back.last());
        assert(scanned(s).closed =~= segments(front) + scanned(back).closed);
    }
}

proof fn lemma_plain_run(front: Seq<char>, run: Seq<char>)
    requires
        !scanned(front).in_quotes,
        !scanned(front).escaped,
        forall|i: int|
            0 <= i < run.len() ==> (#[trigger] run[i]) != ';' && run[i] != '"' && run[i] != '\\'
                && run[i] != '(' && run[i] != ')',
    ensures
        ({
            let was = scanned(front);
            let now = scanned(front + run);
            &&& now.closed == was.closed
            &&& now.depth == was.depth
            &&& !now.in_quotes && !now.escaped
            &&& was.depth == 0 ==> now.open.text == was.open.text + run && now.open.comments
                == was.open.comments
            &&& was.depth > 0 ==> now.open.text == was.open.text && now.open.comments
                == was.open.comments + run
        }),
    decreases run.len(),
{
    let s = front + run;
    let was = scanned(front);
    if run.len() == 0 {
        assert(s =~= front);
        assert(was.open.text + run =~= was.open.text);
        assert(was.open.comments + run =~= was.open.comments);
    } else {
        lemma_plain_run(front, run.drop_last());
        assert(s.drop_last() =~= front + run.drop_last());
        assert(s.last() == run.last());
        assert(run.last() == run[run.len() - 1]);
        assert((was.open.text + run.drop_last()).push(run.last()) =~= was.open.text + run);
        assert((was.open.comments + run.drop_last()).push(run.last()) =~= was.open.comments + run);
    }
}

/// A value without semicolons, quotes, backslashes and brackets is one segment, as it is.
pub proof fn a_plain_value_is_one_segment(value: Seq<char>)
    requires
        forall|i: int|
            0 <= i < value.len() ==> (#[trigger] value[i]) != ';' && value[i] != '"' && value[i]
                != '\\' && value[i] != '(' && value[i] != ')',
    ensures
        segments(value).len() == 1,
        segments(value)[0].text == value,
        segments(value)[0].comments.len() == 0,
{
    let none = Seq::<char>::empty();
    lemma_plain_run(none, value);
    assert(none + value =~= value);
}

/// A comment is set apart from the text it stands in.
pub proof fn a_comment_is_set_apart(front: Seq<char>, inner: Seq<char>)
    requires
        scanned(front).depth == 0,
        !scanned(front).in_quotes,
        !scanned(front).escaped,
        forall|i: int|
            0 <= i < inner.len() ==> (#[trigger] inner[i]) != ';' && inner[i] != '"' && inner[i]
                != '\\' && inner[i] != '(' && inner[i] != ')',
    ensures
        ({
            let s = front + seq!['('] + inner + seq![')'];
            &&& segments(s).len() == segments(front).len()
            &&& segments(s).last().text == segments(front).last().text
            &&& segments(s).last().comments == segments(front).last().comments + inner + seq![
                ' ',
            ]
            &&& scanned(s).depth == 0 && !scanned(s).in_quotes && !scanned(s).escaped
        }),
{
    let a = front + seq!['('];
    assert(a.drop_last() =~= front && a.last() == '(');
    lemma_plain_run(a, inner);
    let s = a + inner + seq![')'];
    assert(s.drop_last() =~= a + inner && s.last() == ')');
    let c = segments(front).last().comments;
    assert((c + inner).push(' ') =~= c + inner + seq![' ']);
}

/// In quotes nothing parts or hides the text.
pub proof fn quotes_hold_text_together(front: Seq<char>, inner: Seq<char>)
    requires
        scanned(front).depth == 0,
        !scanned(front).in_quotes,
        !scanned(front).escaped,
        forall|i: int|
            0 <= i < inner.len() ==> (#[trigger] inner[i]) != '"' && inner[i] != '\\',
    ensures
        ({
            let s = front + seq!['"'] + inner + seq!['"'];
            &&& segments(s).len() == segments(front).len()
            &&& segments(s).last().text == segments(front).last().text + seq!['"'] + inner + seq![
                '"',
            ]
            &&& segments(s).last().comments == segments(front).last().comments
            &&& scanned(s).depth == 0 && !scanned(s).in_quotes && !scanned(s).escaped
        }),
{
    let a = front + seq!['"'];
    assert(a.drop_last() =~= front && a.last() == '"');
    lemma_quoted_run(a, inner);
    let s = a + inner + seq!['"'];
    assert(s.drop_last() =~= a + inner && s.last() == '"');
    let t = segments(front).last().text;
    assert(t.push('"') =~= t + seq!['"']);
    assert((t + seq!['"'] + inner).push('"') =~= t + seq!['"'] + inner + seq!['"']);
}

proof fn lemma_quoted_run(front: Seq<char>, run: Seq<char>)
    requires
        scanned(front).in_quotes,
        scanned(front).depth == 0,
        !scanned(front).escaped,
        forall|i: int|
            0 <= i < run.len() ==> (#[trigger] run[i]) != '"' && run[i] != '\\',
    ensures
        ({
            let was = scanned(front);
            let now = scanned(front + run);
            &&& now.closed == was.closed
            &&& now.depth == 0
            &&& now.in_quotes && !now.escaped
            &&& now.open.text == was.open.text + run
            &&& now.open.comments == was.open.comments
        }),
    decreases run.len(),
{
    let s = front + run;
    let was = scanned(front);
    if run.len() == 0 {
        assert(s =~= front);
        assert(was.open.text + run =~= was.open.text);
    } else {
        lemma_quoted_run(front, run.drop_last());
        assert(s.drop_last() =~= front + run.drop_last());
        assert(s.last() == run.last());
        assert(run.last() == run[run.len() - 1]);
        assert((was.open.text + run.drop_last()).push(run.last()) =~= was.open.text + run);
    }
}

/// Every segment behind the first that reports a mechanism is listed, in order, up to the
/// cap.
pub proof fn every_mechanism_is_listed(segs: Seq<Slice>, more: Seq<Slice>, cap: nat)
    requires
        segs.len() + more.len() <= cap,
    ensures
        mechanisms_in(segs + more, cap) == mechanisms_in(segs, cap) + mechanisms_in(more, cap),
        segs.len() == 1 ==> mechanisms_in(segs, cap) == (match mechanism_of(segs[0]) {
            Some(m) => seq![m],
            None => Seq::empty(),
        }),
    decreases segs.len(),
{
    reveal_with_fuel(mechanisms_in, 2);
    if segs.len() == 0 {
        assert(segs + more =~= more);
        assert(mechanisms_in(segs, cap) + mechanisms_in(more, cap) =~= mechanisms_in(more, cap));
    } else {
        let rest = segs.skip(1);
        let all = segs + more;
        assert(all.skip(1) =~= rest + more);
        assert(all[0] == segs[0]);
        every_mechanism_is_listed(rest, more, cap);
        if segs.len() == 1 {
            assert(mechanisms_in(rest, cap) =~= Seq::<Mechanism>::empty());
            assert(rest.len() == 0);
        }
        if mechanism_of(segs[0]) is Some {
            lemma_cap(rest, cap, (cap - 1) as nat);
            lemma_cap(rest + more, cap, (cap - 1) as nat);
            assert(mechanisms_in(all, cap) =~= mechanisms_in(segs, cap) + mechanisms_in(more, cap));
            if segs.len() == 1 {
                assert(mechanisms_in(segs, cap) =~= seq![mechanism_of(segs[0])->0]);
            }
        }
    }
}

proof fn lemma_cap(segs: Seq<Slice>, a: nat, b: nat)
    requires
        segs.len() <= a,
        segs.len() <= b,
    ensures
        mechanisms_in(segs, a) == mechanisms_in(segs, b),
    decreases segs.len(),
{
    if segs.len() > 0 {
        let rest = segs.skip(1);
        if mechanism_of(segs[0]) is Some {
            lemma_cap(rest, (a - 1) as nat, (b - 1) as nat);
        } else {
            lemma_cap(rest, a, b);
        }
    }
}

/// A hop is named by the first word of its value, and no hop reports more than sixteen
/// mechanisms.
pub proof fn what_a_hop_is(value: Seq<char>)
    requires
        words(segments(value)[0].text).len() > 0,
    ensures
        hop_of(value) is Some,
        hop_of(value)->0.authserv_id == words(segments(value)[0].text)[0],
        hop_of(value)->0.mechanisms.len() <= 16,
        segments(value).len() <= 17 ==> forall|k: int|
            1 <= k < segments(value).len() && mechanism_of(#[trigger] segments(value)[k]) is Some
                ==> hop_of(value)->0.mechanisms.contains(mechanism_of(segments(value)[k])->0),
{
    let segs = segments(value).skip(1);
    lemma_capped(segs, MAX_MECHANISMS as nat);
    if segments(value).len() <= MAX_MECHANISMS + 1 {
        assert forall|k: int|
            1 <= k < segments(value).len() && mechanism_of(
                #[trigger] segments(value)[k],
            ) is Some implies hop_of(value)->0.mechanisms.contains(
            mechanism_of(segments(value)[k])->0,
        ) by {
            assert(segs[k - 1] == segments(value)[k]);
            lemma_listed_mechanism(segs, MAX_MECHANISMS as nat, k - 1);
        }
    }
}

proof fn lemma_listed_mechanism(segs: Seq<Slice>, cap: nat, k: int)
    requires
        0 <= k < segs.len() <= cap,
        mechanism_of(segs[k]) is Some,
    ensures
        mechanisms_in(segs, cap).contains(mechanism_of(segs[k])->0),
    decreases segs.len(),
{
    let all = mechanisms_in(segs, cap);
    if k == 0 {
        assert(all[0] == mechanism_of(segs[0])->0);
    } else {
        let rest = segs.skip(1);
        assert(rest[k - 1] == segs[k]);
        if mechanism_of(segs[0]) is Some {
            lemma_listed_mechanism(rest, (cap - 1) as nat, k - 1);
            let t = mechanisms_in(rest, (cap - 1) as nat);
            let m = choose|m: int| 0 <= m < t.len() && t[m] == mechanism_of(segs[k])->0;
            assert(all[m + 1] == t[m]);
        } else {
            lemma_listed_mechanism(rest, cap, k - 1);
        }
    }
}

proof fn lemma_pair(k: Seq<char>, v: Seq<char>)
    requires
        forall|i: int| 0 <= i < k.len() ==> #[trigger] k[i] != '=',
    ensures
        pair(k + seq!['='] + v) == Some((k, v)),
{
    let w = k + seq!['='] + v;
    assert forall|j: int| 0 <= j < k.len() implies Class::Is('=').holds(#[trigger] w[j])
        == false by {
        assert(w[j] == k[j]);
    }
    assert(w[k.len() as int] == '=');
    crate::chars::lemma_run_is(w, Class::Is('='), false, k.len() as int);
    assert(w.take(k.len() as int) =~= k);
    assert(w.skip(k.len() as int + 1) =~= v);
}

/// Which property of a mechanism says for which domain it speaks, and what the policy is.
pub proof fn what_a_property_says(p: Properties, key: Seq<char>, value: Seq<char>)
    requires
        value.len() > 0,
        value[0] != '"',
        value.last() != '"',
        forall|i: int| 0 <= i < key.len() ==> #[trigger] key[i] != '=',
    ensures
        ({
            let word = key + seq!['='] + value;
            let domain = lowered(value.skip(rfind(value, Class::Is('@')) + 1));
            &&& lowered(key) == "header.d"@ ==> with_property(p, "dkim"@, word).domain == lowered(
                value,
            )
            &&& lowered(key) == "header.i"@ ==> with_property(p, "dkim"@, word).domain
                == if p.domain.len() == 0 {
                domain
            } else {
                p.domain
            }
            &&& lowered(key) == "smtp.mailfrom"@ ==> with_property(p, "spf"@, word).domain
                == domain
            &&& lowered(key) == "smtp.helo"@ ==> with_property(p, "spf"@, word).helo == lowered(
                value,
            ) && with_property(p, "spf"@, word).domain == p.domain
            &&& lowered(key) == "header.from"@ ==> with_property(p, "dmarc"@, word).domain
                == domain
            &&& lowered(key) == "policy.dmarc"@ || lowered(key) == "policy"@ ==> with_property(
                p,
                "dmarc"@,
                word,
            ).policy == lowered(value) && with_property(p, "dmarc"@, word).domain == p.domain
        }),
{
    reveal_strlit("dkim");
    reveal_strlit("spf");
    reveal_strlit("dmarc");
    reveal_strlit("header.d");
    reveal_strlit("header.i");
    reveal_strlit("header.from");
    reveal_strlit("smtp.mailfrom");
    reveal_strlit("smtp.helo");
    reveal_strlit("policy.dmarc");
    reveal_strlit("policy");
    lemma_pair(key, value);
    let q = Class::Is('"');
    crate::chars::lemma_run_is(value, q, true, 0);
    assert(value.skip(0) =~= value);
    crate::chars::lemma_back_run_is(value, q, 0);
    assert(value.take(value.len() as int) =~= value);
    assert(strip(value, q) == value);
    assert("dkim"@.len() == 4 && "spf"@.len() == 3 && "dmarc"@.len() == 5);
    assert("header.d"@[7] == 'd' && "header.i"@[7] == 'i');
    assert("header.d"@.len() == 8 && "header.i"@.len() == 8 && "smtp.mailfrom"@.len() == 13
        && "smtp.helo"@.len() == 9 && "header.from"@.len() == 11 && "policy.dmarc"@.len() == 12
        && "policy"@.len() == 6);
}

/// What a segment reports: the method in front of its `=`, without a version, and the result
/// behind it, both in lower case.
pub proof fn what_a_segment_reports(segment: Slice, method: Seq<char>, result: Seq<char>)
    requires
        words(collapsed(segment.text).0).len() > 0,
        words(collapsed(segment.text).0)[0] == method + seq!['='] + result,
        forall|i: int| 0 <= i < method.len() ==> #[trigger] method[i] != '=' && method[i] != '/',
        trimmed(method).len() > 0,
        trimmed(result).len() > 0,
    ensures
        mechanism_of(segment) is Some,
        mechanism_of(segment)->0.mechanism == lowered(trimmed(method)),
        mechanism_of(segment)->0.result == lowered(trimmed(result)),
{
    reveal_strlit("none");
    let w = method + seq!['='] + result;
    lemma_pair(method, result);
    assert forall|j: int| 0 <= j < method.len() implies Class::Is('/').holds(#[trigger] method[j])
        == false by {}
    crate::chars::lemma_run_is(method, Class::Is('/'), false, method.len() as int);
    assert(method.take(method.len() as int) =~= method);
    if lowered(w) == lowered("none"@) {
        let i = method.len() as int;
        assert("none"@.len() == 4);
        assert(lowered("none"@).len() == 4);
        assert(lowered(w).len() == w.len());
        assert(i < 4);
        assert(lowered(w)[i] == crate::chars::lower(w[i]));
        assert(w[i] == '=');
        assert(lowered("none"@)[i] == crate::chars::lower("none"@[i]));
        assert("none"@[0] == 'n' && "none"@[1] == 'o' && "none"@[2] == 'n' && "none"@[3] == 'e');
    }
}

proof fn lemma_capped(segs: Seq<Slice>, cap: nat)
    ensures
        mechanisms_in(segs, cap).len() <= cap,
    decreases segs.len(),
{
    if segs.len() > 0 && cap > 0 {
        lemma_capped(segs.skip(1), (cap - 1) as nat);
        lemma_capped(segs.skip(1), cap);
    }
}

/// The hops of a message are those of its topmost headers, in their order: every header that
/// names a hop gives one, up to eight of them.
pub proof fn the_topmost_headers_count(values: Seq<Option<Seq<char>>>, k: int)
    ensures
        hops_of_headers(Some(values)).len() <= 8,
        0 <= k < values.len() <= 8 && values[k] is Some && hop_of(values[k]->0) is Some
            ==> hops_of_headers(Some(values)).contains(hop_of(values[k]->0)->0),
        values.len() > 0 && values[0] is Some && hop_of(values[0]->0) is Some
            ==> hops_of_headers(Some(values)).len() > 0 && hops_of_headers(Some(values))[0]
            == hop_of(values[0]->0)->0,
{
    lemma_hops(values, MAX_HEADERS as nat, k);
}

proof fn lemma_hops(values: Seq<Option<Seq<char>>>, cap: nat, k: int)
    ensures
        hops_in(values, cap).len() <= cap,
        0 <= k < values.len() <= cap && values[k] is Some && hop_of(values[k]->0) is Some
            ==> hops_in(values, cap).contains(hop_of(values[k]->0)->0),
    decreases values.len(),
{
    let all = hops_in(values, cap);
    if values.len() > 0 && cap > 0 {
        let rest = values.skip(1);
        lemma_hops(rest, (cap - 1) as nat, k - 1);
        lemma_hops(rest, cap, k - 1);
        if 0 <= k < values.len() <= cap && values[k] is Some && hop_of(values[k]->0) is Some {
            let h = hop_of(values[k]->0)->0;
            if k == 0 {
                assert(all[0] == h);
            } else {
                assert(rest[k - 1] == values[k]);
                if values[0] is Some && hop_of(values[0]->0) is Some {
                    let t = hops_in(rest, (cap - 1) as nat);
                    let m = choose|m: int| 0 <= m < t.len() && t[m] == h;
                    assert(all[m + 1] == h);
                }
            }
        }
    }
}

/// A version behind the name of a method says nothing.
pub proof fn a_version_says_nothing(
    segment: Slice,
    method: Seq<char>,
    version: Seq<char>,
    result: Seq<char>,
)
    requires
        words(collapsed(segment.text).0).len() > 0,
        words(collapsed(segment.text).0)[0] == method + seq!['/'] + version + seq!['='] + result,
        forall|i: int| 0 <= i < method.len() ==> #[trigger] method[i] != '=' && method[i] != '/',
        forall|i: int| 0 <= i < version.len() ==> #[trigger] version[i] != '=',
        trimmed(method).len() > 0,
        trimmed(result).len() > 0,
        lowered(words(collapsed(segment.text).0)[0]) != lowered("none"@),
    ensures
        mechanism_of(segment) is Some,
        mechanism_of(segment)->0.mechanism == lowered(trimmed(method)),
        mechanism_of(segment)->0.result == lowered(trimmed(result)),
{
    let k = method + seq!['/'] + version;
    assert forall|i: int| 0 <= i < k.len() implies #[trigger] k[i] != '=' by {
        if i < method.len() {
            assert(k[i] == method[i]);
        } else if i > method.len() {
            assert(k[i] == version[i - method.len() - 1]);
        }
    }
    lemma_pair(k, result);
    assert forall|j: int| 0 <= j < method.len() implies Class::Is('/').holds(#[trigger] k[j])
        == false by {
        assert(k[j] == method[j]);
    }
    assert(k[method.len() as int] == '/');
    crate::chars::lemma_run_is(k, Class::Is('/'), false, method.len() as int);
    assert(k.take(method.len() as int) =~= method);
}

/// For which domain a mechanism speaks, and what its policy is: what its properties say; SPF
/// falls back on the name the sender greeted with, and DMARC on a policy in a comment.
pub proof fn what_a_mechanism_speaks_for(segment: Slice)
    requires
        mechanism_of(segment) is Some,
    ensures
        ({
            let m = mechanism_of(segment)->0;
            let p = properties(m.mechanism, words(collapsed(segment.text).0).skip(1));
            &&& p.domain.len() > 0 || m.mechanism != "spf"@ ==> m.domain == p.domain
            &&& p.domain.len() == 0 && m.mechanism == "spf"@ ==> m.domain == p.helo
            &&& p.policy.len() > 0 || m.mechanism != "dmarc"@ ==> m.policy == p.policy
            &&& p.policy.len() == 0 && m.mechanism == "dmarc"@ ==> m.policy == policy_word(
                words(segment.comments),
            )
        }),
{
}

/// The first word of a comment that names a policy counts, in lower case and without what
/// stands behind it.
pub proof fn the_first_policy_in_a_comment_counts(ws: Seq<Seq<char>>, k: int, policy: Seq<char>)
    requires
        0 <= k < ws.len(),
        ws[k] == "p="@ + policy,
        policy.len() > 0,
        ascii_alphanumeric(policy.last()),
        forall|i: int|
            0 <= i < k ==> !crate::chars::begins(#[trigger] ws[i], "p="@) && !crate::chars::begins(
                ws[i],
                "P="@,
            ),
    ensures
        policy_word(ws) == lowered(policy),
    decreases k,
{
    if k > 0 {
        assert(!crate::chars::begins(ws[0], "p="@));
        let t = ws.skip(1);
        assert forall|i: int| 0 <= i < k - 1 implies !crate::chars::begins(#[trigger] t[i], "p="@)
            && !crate::chars::begins(t[i], "P="@) by {
            assert(t[i] == ws[i + 1]);
        }
        the_first_policy_in_a_comment_counts(t, k - 1, policy);
    } else {
        let p = "p="@;
        assert(ws[0].take(p.len() as int) =~= p);
        assert(ws[0].skip(p.len() as int) =~= policy);
    }
}

} // verus!
