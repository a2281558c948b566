//! POP3.
//!
//! A message is identified by its unique id; message numbers are valid for one
//! session and never leave it. A message is stored before its deletion is asked
//! for, because the other order is the one that loses mail.

use vstd::prelude::*;

use crate::bytes::{first_line_end, first_line_len, head_of, push_bytes, rest_of};
use crate::chars::{drop_back, drop_back_of, lines_of, pieces, push_all, push_text, same,
    strip_prefix_of, after_prefix, text_lines, texts, to_chars, to_text, trim_of, trimmed, upper_of,
    uppered, words, words_of, Class};
use crate::error::{Error, Result};
use crate::ids::{IdMap, Ids};
use crate::imap::{count_more, more, Security};
use crate::mime::{lossy_text, lossy_utf8_text};
use crate::model::{no_flags, Flags};
use crate::numbers::{parse_unsigned, unsigned};
use crate::order::{insert_text, lemma_text_listing, text_listing, texts_ascending};
use crate::sasl::{pop3_auth, pop3_auth_text, Credentials};
use crate::store::{Contents, Cursor, MailStore, RemoteMessage};

verus! {

/// POP3 mailboxes never renumber: the ids provide identity.
pub const POP3_UID_VALIDITY: u32 = 1;

/// The sidecar this engine keeps beside a maildir.
pub const STATE_FILE: &'static str = ".pop3-state.json";

/// The longest piece of a line that is read at once.
pub const MAX_LINE: usize = 65536;

/// Where and how to reach one account's POP3 server.
#[derive(Debug, Clone, PartialEq, Eq)]
pub struct Endpoint {
    pub host: String,
    pub port: u16,
    pub security: Security,
    pub username: String,
}

impl Endpoint {
    /// The conventional endpoint: implicit TLS on 995.
    #[must_use]
    pub fn tls(host: &str, username: &str) -> (r: Self)
        ensures
            r.host@ == host@,
            r.port == 995,
            r.security == Security::Tls,
            r.username@ == username@,
    {
        Endpoint {
            host: host.to_owned(),
            port: 995,
            security: Security::Tls,
            username: username.to_owned(),
        }
    }
}

/// What to do with a message once it is safely stored.
#[derive(Debug, Clone, Copy, PartialEq, Eq, Structural)]
pub enum Retention {
    /// Never delete: the only choice that is safe when the same account is also
    /// read elsewhere.
    LeaveOnServer,
    /// Delete as soon as the message is stored locally.
    DeleteWhenFetched,
    /// Delete once the local copy is this many days old.
    DeleteAfterDays(u16),
}

impl Default for Retention {
    fn default() -> (r: Self)
        ensures
            r == Retention::LeaveOnServer,
    {
        Retention::LeaveOnServer
    }
}

// ---- the wire ----

/// A line without the line feeds and carriage returns behind it.
pub open spec fn stripped(line: Seq<u8>) -> Seq<u8>
    decreases line.len(),
{
    if line.len() > 0 && (line.last() == 10 || line.last() == 13) {
        stripped(line.drop_last())
    } else {
        line
    }
}

fn strip_crlf(line: &[u8]) -> (r: &[u8])
    ensures
        r@ == stripped(line@),
{
    let mut end: usize = line.len();
    assert(line@.take(end as int) =~= line@);
    while end > 0 && (line[end - 1] == 10 || line[end - 1] == 13)
        invariant
            end <= line@.len(),
            stripped(line@) == stripped(line@.take(end as int)),
        decreases end,
    {
        proof {
            let t = line@.take(end as int);
            assert(t.drop_last() =~= line@.take(end - 1));
            assert(t.last() == line@[end - 1]);
        }
        end = end - 1;
    }
    proof {
        if end > 0 {
            assert(line@.take(end as int).last() == line@[end - 1]);
        }
    }
    head_of(line, end)
}

/// Does what comes next begin a line of the body?
pub open spec fn at_line_start(body: Seq<u8>) -> bool {
    body.len() == 0 || body.last() == 10
}

/// What one piece of a multi-line answer is: the terminator, or a piece of the
/// body, with its stuffing taken off where it begins a line. What ends a line is
/// kept as the server sent it: these bytes are stored verbatim, and signed over.
pub open spec fn body_line(piece: Seq<u8>, starts: bool) -> Option<Seq<u8>> {
    if starts && stripped(piece) == seq![46u8] {
        None
    } else if starts && piece.len() > 0 && piece[0] == 46 {
        Some(piece.skip(1))
    } else {
        Some(piece)
    }
}

/// Takes one piece of a multi-line answer, a line or as much of one as is read at
/// once: adds it to the body, or says that it was the terminator.
///
/// A sender prefixes any line that starts with `.` with a second one. A reader
/// that forgets to take it off corrupts exactly those messages.
pub fn take_body_line(piece: &[u8], body: &mut Vec<u8>) -> (more: bool)
    ensures
        match body_line(piece@, at_line_start(old(body)@)) {
            None => !more && final(body)@ == old(body)@,
            Some(text) => more && final(body)@ == old(body)@ + text,
        },
{
    let starts: bool = body.len() == 0 || body[body.len() - 1] == 10;
    let t: &[u8] = strip_crlf(piece);
    let ends: bool = t.len() == 1 && t[0] == 46;
    proof {
        if ends {
            assert(t@ =~= seq![46u8]);
        } else if t@ == seq![46u8] {
            assert(t@.len() == 1 && t@[0] == 46);
        }
    }
    if starts && ends {
        return false;
    }
    if starts && piece.len() > 0 && piece[0] == 46 {
        push_bytes(body, rest_of(piece, 1));
    } else {
        push_bytes(body, piece);
    }
    true
}

/// How much of what has arrived is read as one line.
pub open spec fn piece_len(wire: Seq<u8>) -> nat {
    let n = first_line_len(wire);
    if n > MAX_LINE {
        MAX_LINE as nat
    } else {
        n
    }
}

/// The body at the front of what has arrived, and how much of it that took;
/// nothing, where it has no terminator. `starts` says whether the front begins a
/// line.
pub open spec fn body_of(wire: Seq<u8>, starts: bool) -> Option<(Seq<u8>, nat)>
    decreases wire.len(),
{
    let n = piece_len(wire);
    if !(0 < n <= wire.len()) {
        None
    } else {
        match body_line(wire.take(n as int), starts) {
            None => Some((Seq::empty(), n)),
            Some(text) => match body_of(wire.skip(n as int), wire[n - 1] == 10) {
                Some((body, used)) => Some((text + body, n + used)),
                None => None,
            },
        }
    }
}

proof fn lemma_stripped(piece: Seq<u8>)
    ensures
        stripped(piece).len() <= piece.len(),
        stripped(piece) == piece.take(stripped(piece).len() as int),
        stripped(piece).len() == piece.len() ==> stripped(piece) == piece,
    decreases piece.len(),
{
    if piece.len() > 0 && (piece.last() == 10 || piece.last() == 13) {
        lemma_stripped(piece.drop_last());
        assert(stripped(piece) =~= piece.take(stripped(piece).len() as int));
    } else {
        assert(piece.take(piece.len() as int) =~= piece);
    }
}

/// A piece of the body ends as the piece of the wire did.
proof fn lemma_line_end(piece: Seq<u8>, starts: bool)
    requires
        piece.len() > 0,
        body_line(piece, starts) is Some,
    ensures
        (body_line(piece, starts)->0).len() > 0,
        (body_line(piece, starts)->0).last() == piece.last(),
{
    if starts && piece[0] == 46 && piece.len() == 1 {
        assert(stripped(piece) == piece);
        assert(piece =~= seq![46u8]);
    }
}

/// Reads a multi-line body up to its terminator, taking the stuffing off as it
/// goes. A body without one is an error rather than a short message.
pub fn read_body(wire: &[u8]) -> (r: Result<(Vec<u8>, usize)>)
    ensures
        match r {
            Ok((body, used)) => body_of(wire@, true) == Some((body@, used as nat)),
            Err(Error::Pop3(m)) => body_of(wire@, true) is None && m@
                == "the server closed the connection mid-message"@,
            Err(_) => false,
        },
{
    let mut body: Vec<u8> = Vec::new();
    let mut at: usize = 0;
    let n: usize = wire.len();
    assert(wire@.skip(0) =~= wire@);
    while at < n
        invariant
            at <= n == wire@.len(),
            match body_of(wire@.skip(at as int), at_line_start(body@)) {
                Some((rest, used)) => body_of(wire@, true) == Some(
                    (body@ + rest, (at + used) as nat),
                ),
                None => body_of(wire@, true) is None,
            },
        decreases n - at,
    {
        let left: &[u8] = rest_of(wire, at);
        let whole: usize = first_line_end(left);
        let len: usize = if whole > MAX_LINE {
            MAX_LINE
        } else {
            whole
        };
        let piece: &[u8] = head_of(left, len);
        let ghost before = body@;
        let ghost wl = wire@.skip(at as int);
        assert(len == piece_len(left@));
        assert(left@ =~= wl);
        let more: bool = take_body_line(piece, &mut body);
        if !more {
            assert(before + Seq::<u8>::empty() =~= body@);
            return Ok((body, at + len));
        }
        proof {
            let text = body_line(piece@, at_line_start(before))->0;
            assert(wl.skip(len as int) =~= wire@.skip(at + len));
            lemma_line_end(piece@, at_line_start(before));
            assert(piece@.last() == wl[len - 1]);
            assert(body@.last() == text.last());
            if let Some((rest, used)) = body_of(wire@.skip(at + len), wl[len - 1] == 10) {
                assert(before + (text + rest) =~= body@ + rest);
            }
        }
        at = at + len;
    }
    assert(wire@.skip(at as int).len() == 0);
    Err(Error::Pop3("the server closed the connection mid-message".to_owned()))
}

/// A line, with whatever ends it, as a sender puts it on the wire.
pub open spec fn stuffed(line: Seq<u8>) -> Seq<u8> {
    if line.len() > 0 && line[0] == 46 {
        seq![46u8] + line
    } else {
        line
    }
}

/// A line that was stuffed for the wire is restored byte for byte, whatever ends
/// it, and is never taken for the terminator.
pub proof fn a_stuffed_line_is_restored(line: Seq<u8>)
    ensures
        body_line(stuffed(line), true) == Some(line),
{
    let w = stuffed(line);
    lemma_stripped(w);
    if stripped(w) == seq![46u8] {
        assert(w[0] == stripped(w)[0]);
        assert(w[0] == 46);
        lemma_stripped_stops(w);
        assert(w[1] == 46);
    }
    if line.len() > 0 && line[0] == 46 {
        assert(w.skip(1) =~= line);
    }
}

/// Everything behind what is left of a line is line feeds and carriage returns.
proof fn lemma_stripped_stops(piece: Seq<u8>)
    ensures
        forall|i: int|
            stripped(piece).len() <= i < piece.len() ==> #[trigger] piece[i] == 10 || piece[i]
                == 13,
    decreases piece.len(),
{
    if piece.len() > 0 && (piece.last() == 10 || piece.last() == 13) {
        lemma_stripped_stops(piece.drop_last());
        assert forall|i: int| stripped(piece).len() <= i < piece.len() implies #[trigger] piece[i]
            == 10 || piece[i] == 13 by {
            if i < piece.len() - 1 {
                assert(piece.drop_last()[i] == piece[i]);
            }
        }
    }
}

/// What a status line says: the text behind `+OK`, or the error.
pub open spec fn status(line: Seq<char>) -> std::result::Result<Seq<char>, Seq<char>> {
    let l = drop_back(line, Class::Either('\r', '\n'));
    match after_prefix(l, "+OK"@) {
        Some(rest) => Ok(trimmed(rest)),
        None => match after_prefix(l, "-ERR"@) {
            Some(rest) => Err(trimmed(rest)),
            None => Err("unexpected response: "@ + l),
        },
    }
}

/// Reads one status line, turning `-ERR` into an error.
pub fn read_status(line: &str) -> (r: Result<String>)
    ensures
        match r {
            Ok(text) => status(line@) == Ok::<Seq<char>, Seq<char>>(text@),
            Err(Error::Pop3(m)) => status(line@) == Err::<Seq<char>, Seq<char>>(m@),
            Err(_) => false,
        },
{
    let v: Vec<char> = to_chars(line);
    let l: &[char] = drop_back_of(&v, Class::Either('\r', '\n'));
    if let Some(rest) = strip_prefix_of(l, "+OK") {
        return Ok(to_text(trim_of(rest)));
    }
    if let Some(rest) = strip_prefix_of(l, "-ERR") {
        return Err(Error::Pop3(to_text(trim_of(rest))));
    }
    let mut m: Vec<char> = to_chars("unexpected response: ");
    push_all(&mut m, l);
    Err(Error::Pop3(to_text(&m)))
}

/// The lines of a multi-line answer.
#[must_use]
pub fn answer_lines(body: &[u8]) -> (r: Vec<String>)
    ensures
        texts(r@) == text_lines(lossy_text(body@)),
{
    let lines: Vec<Vec<char>> = lines_of(&to_chars(&lossy_utf8_text(body)));
    let mut out: Vec<String> = Vec::new();
    let mut i: usize = 0;
    while i < lines.len()
        invariant
            i <= lines@.len(),
            out@.len() == i,
            forall|k: int| 0 <= k < i ==> (#[trigger] out@[k])@ == lines@[k]@,
        decreases lines@.len() - i,
    {
        out.push(to_text(&lines[i]));
        i = i + 1;
    }
    assert(texts(out@) =~= pieces(lines@));
    out
}

/// Capability lines, as they are compared.
pub open spec fn capability_lines(lines: Seq<Seq<char>>) -> Seq<Seq<char>> {
    lines.map_values(|l: Seq<char>| uppered(trimmed(l)))
}

#[must_use]
pub fn capabilities(lines: &Vec<String>) -> (r: Vec<String>)
    ensures
        texts(r@) == capability_lines(texts(lines@)),
{
    let mut out: Vec<String> = Vec::new();
    let mut i: usize = 0;
    while i < lines.len()
        invariant
            i <= lines@.len(),
            out@.len() == i,
            forall|k: int|
                0 <= k < i ==> (#[trigger] out@[k])@ == uppered(trimmed(lines@[k]@)),
        decreases lines@.len() - i,
    {
        let l: Vec<char> = to_chars(&lines[i]);
        out.push(to_text(&upper_of(trim_of(&l))));
        i = i + 1;
    }
    assert(texts(out@) =~= capability_lines(texts(lines@)));
    out
}

/// Does some line begin with this capability?
pub open spec fn offers(capabilities: Seq<Seq<char>>, capability: Seq<char>) -> bool {
    exists|i: int|
        0 <= i < capabilities.len() && words(#[trigger] capabilities[i]).len() > 0 && words(
            capabilities[i],
        )[0] == capability
}

#[must_use]
pub fn supports(capabilities: &Vec<String>, capability: &str) -> (r: bool)
    ensures
        r == offers(texts(capabilities@), capability@),
{
    let ghost all = texts(capabilities@);
    let mut i: usize = 0;
    while i < capabilities.len()
        invariant
            i <= capabilities@.len(),
            all == texts(capabilities@),
            forall|j: int|
                0 <= j < i ==> !(words(#[trigger] all[j]).len() > 0 && words(all[j])[0]
                    == capability@),
        decreases capabilities@.len() - i,
    {
        assert(all[i as int] == capabilities@[i as int]@);
        let w: Vec<Vec<char>> = words_of(&to_chars(&capabilities[i]));
        assert(pieces(w@).len() == w@.len());
        if w.len() > 0 {
            assert(pieces(w@)[0] == w@[0]@);
            if crate::chars::spells(&w[0], capability) {
                return true;
            }
        }
        i = i + 1;
    }
    false
}

/// Whether the server can identify messages across sessions. Assumed where it
/// does not list its capabilities at all.
#[must_use]
pub fn supports_uidl(capabilities: &Vec<String>) -> (r: bool)
    ensures
        r == (capabilities@.len() == 0 || offers(texts(capabilities@), "UIDL"@)),
{
    capabilities.len() == 0 || supports(capabilities, "UIDL")
}

/// The commands that log in: a token rides on the command line, a password goes
/// in two steps.
pub open spec fn login_commands(user: Seq<char>, credentials: Credentials) -> Seq<Seq<char>> {
    match credentials {
        Credentials::OAuth2(token) => seq![pop3_auth_text(user, token@)],
        Credentials::Password(password) => seq!["USER "@ + user, "PASS "@ + password@],
    }
}

/// The commands that log in, in order; a token cannot be used where the server
/// does not offer SASL.
pub fn authentication(
    capabilities: &Vec<String>,
    username: &str,
    credentials: &Credentials,
) -> (r: Result<Vec<String>>)
    ensures
        match r {
            Ok(commands) => (*credentials is OAuth2 ==> offers(texts(capabilities@), "SASL"@))
                && texts(commands@) == login_commands(username@, *credentials),
            Err(Error::Auth(m)) => *credentials is OAuth2 && !offers(
                texts(capabilities@),
                "SASL"@,
            ) && m@
                == "this POP3 server does not offer SASL, so an access token cannot be used"@,
            Err(_) => false,
        },
{
    let mut commands: Vec<String> = Vec::new();
    match credentials {
        Credentials::OAuth2(token) => {
            if !supports(capabilities, "SASL") {
                return Err(
                    Error::Auth(
                        "this POP3 server does not offer SASL, so an access token cannot be used".to_owned(),
                    ),
                );
            }
            commands.push(pop3_auth(username, token));
        },
        Credentials::Password(password) => {
            let mut user: Vec<char> = to_chars("USER ");
            push_text(&mut user, username);
            let mut pass: Vec<char> = to_chars("PASS ");
            push_text(&mut pass, password);
            commands.push(to_text(&user));
            commands.push(to_text(&pass));
        },
    }
    assert(texts(commands@) =~= login_commands(username@, *credentials));
    Ok(commands)
}

/// Message count and total size, from the answer to STAT.
pub open spec fn totals(line: Seq<char>) -> Option<(nat, nat)> {
    let w = words(line);
    if w.len() >= 2 && unsigned(w[0], u32::MAX as nat) is Some && unsigned(w[1], u64::MAX as nat)
        is Some {
        Some((unsigned(w[0], u32::MAX as nat)->0, unsigned(w[1], u64::MAX as nat)->0))
    } else {
        None
    }
}

pub fn parse_stat(line: &str) -> (r: Result<(u32, u64)>)
    ensures
        match r {
            Ok((count, bytes)) => totals(line@) == Some((count as nat, bytes as nat)),
            Err(Error::Pop3(m)) => totals(line@) is None && m@ == "unreadable STAT response: "@
                + line@,
            Err(_) => false,
        },
{
    let w: Vec<Vec<char>> = words_of(&to_chars(line));
    assert(pieces(w@).len() == w@.len());
    if w.len() >= 2 {
        assert(pieces(w@)[0] == w@[0]@ && pieces(w@)[1] == w@[1]@);
        match (parse_unsigned(&w[0], u32::MAX as u64), parse_unsigned(&w[1], u64::MAX)) {
            (Some(count), Some(bytes)) => {
                return Ok((count as u32, bytes));
            },
            _ => {},
        }
    }
    let mut m: Vec<char> = to_chars("unreadable STAT response: ");
    push_text(&mut m, line);
    Err(Error::Pop3(to_text(&m)))
}

/// A number and the id behind it, from one line of the answer to UIDL.
pub open spec fn listed_in(line: Seq<char>) -> Option<(u32, Seq<char>)> {
    let w = words(line);
    if w.len() >= 2 && unsigned(w[0], u32::MAX as nat) is Some {
        Some((unsigned(w[0], u32::MAX as nat)->0 as u32, w[1]))
    } else {
        None
    }
}

pub open spec fn listing_in(lines: Seq<Seq<char>>) -> Seq<(u32, Seq<char>)>
    decreases lines.len(),
{
    if lines.len() == 0 {
        Seq::empty()
    } else {
        let front = listing_in(lines.drop_last());
        match listed_in(lines.last()) {
            Some(e) => front.push(e),
            None => front,
        }
    }
}

pub open spec fn listing_view(v: Seq<(u32, String)>) -> Seq<(u32, Seq<char>)> {
    v.map_values(|e: (u32, String)| (e.0, e.1@))
}

/// Every message as its number and its unique id; lines that cannot be read are
/// skipped.
#[must_use]
pub fn parse_uidl(lines: &Vec<String>) -> (r: Vec<(u32, String)>)
    ensures
        listing_view(r@) == listing_in(texts(lines@)),
{
    let ghost all = texts(lines@);
    let mut out: Vec<(u32, String)> = Vec::new();
    let mut i: usize = 0;
    assert(all.take(0) =~= Seq::<Seq<char>>::empty());
    assert(listing_view(out@) =~= Seq::<(u32, Seq<char>)>::empty());
    while i < lines.len()
        invariant
            i <= lines@.len(),
            all == texts(lines@),
            listing_view(out@) == listing_in(all.take(i as int)),
        decreases lines@.len() - i,
    {
        proof {
            assert(all.take(i + 1).drop_last() =~= all.take(i as int));
            assert(all.take(i + 1).last() == lines@[i as int]@);
        }
        let ghost before = out@;
        let w: Vec<Vec<char>> = words_of(&to_chars(&lines[i]));
        assert(pieces(w@).len() == w@.len());
        if w.len() >= 2 {
            assert(pieces(w@)[0] == w@[0]@ && pieces(w@)[1] == w@[1]@);
            if let Some(number) = parse_unsigned(&w[0], u32::MAX as u64) {
                out.push((number as u32, to_text(&w[1])));
                assert(listing_view(out@) =~= listing_view(before).push(
                    (number as u32, w@[1]@),
                ));
            }
        }
        i = i + 1;
    }
    assert(all.take(i as int) =~= all);
    out
}

// ---- what is remembered between sessions ----

/// When ids were stored: of two entries for one id the later counts.
pub open spec fn as_times(times: Seq<(String, i64)>) -> Map<Seq<char>, i64>
    decreases times.len(),
{
    if times.len() == 0 {
        Map::empty()
    } else {
        as_times(times.drop_last()).insert(times.last().0@, times.last().1)
    }
}

pub open spec fn lookup(times: Map<Seq<char>, i64>, id: Seq<char>) -> Option<i64> {
    if times.contains_key(id) {
        Some(times[id])
    } else {
        None
    }
}

/// Was it stored at least this many days ago?
pub open spec fn old_enough(at: Option<i64>, days: u16, now_ms: i64) -> bool {
    match at {
        Some(at) => at <= now_ms - days * 86_400_000,
        None => false,
    }
}

/// Ids old enough to delete, in text order.
pub open spec fn expired_in(times: Map<Seq<char>, i64>, days: u16, now_ms: i64) -> Seq<Seq<char>> {
    text_listing(expired_set(times, days, now_ms))
}

/// Which ids are old enough to delete.
pub open spec fn expired_set(times: Map<Seq<char>, i64>, days: u16, now_ms: i64) -> Set<
    Seq<char>,
> {
    Set::new(|id: Seq<char>| old_enough(lookup(times, id), days, now_ms))
}

proof fn lemma_times_finite(times: Seq<(String, i64)>)
    ensures
        as_times(times).dom().finite(),
    decreases times.len(),
{
    if times.len() > 0 {
        lemma_times_finite(times.drop_last());
        assert(as_times(times).dom() =~= as_times(times.drop_last()).dom().insert(
            times.last().0@,
        ));
    }
}

/// What POP3 has to remember between sessions: which ids were downloaded, and
/// when.
#[derive(Debug)]
pub struct Pop3State {
    ids: IdMap,
    fetched_at_ms: Vec<(String, i64)>,
}

impl Pop3State {
    pub closed spec fn wf(&self) -> bool {
        self.ids.wf()
    }

    pub closed spec fn ids(&self) -> Ids {
        self.ids@
    }

    /// When ids were stored.
    pub closed spec fn stored(&self) -> Map<Seq<char>, i64> {
        as_times(self.fetched_at_ms@)
    }

    /// There are finitely many ids that were stored, so that every listing of those
    /// that expired holds each id once, in order.
    pub proof fn finitely_many(&self)
        ensures
            self.stored().dom().finite(),
            forall|days: u16, now_ms: i64|
                (#[trigger] expired_set(self.stored(), days, now_ms)).finite(),
    {
        lemma_times_finite(self.fetched_at_ms@);
        assert forall|days: u16, now_ms: i64|
            (#[trigger] expired_set(self.stored(), days, now_ms)).finite() by {
            let set = expired_set(self.stored(), days, now_ms);
            assert(set.subset_of(self.stored().dom()));
            vstd::set_lib::lemma_set_subset_finite(self.stored().dom(), set);
        }
    }

    /// A state that was kept.
    #[must_use]
    pub fn restored(
        seen: Vec<(String, u32)>,
        fetched_at_ms: Vec<(String, i64)>,
        next_uid: u32,
    ) -> (r: Self)
        ensures
            r.wf(),
            r.ids() == (Ids { uids: crate::ids::as_map(seen@), next: next_uid }),
            r.stored() == as_times(fetched_at_ms@),
    {
        Pop3State { ids: IdMap::restored(seen, next_uid), fetched_at_ms }
    }

    /// Every id with its number, to be kept.
    #[must_use]
    pub fn entries(&self) -> (r: &Vec<(String, u32)>)
        ensures
            crate::ids::as_map(r@) == self.ids().uids,
    {
        self.ids.entries()
    }

    /// Every id with when it was stored, to be kept.
    #[must_use]
    pub fn times(&self) -> (r: &Vec<(String, i64)>)
        ensures
            as_times(r@) == self.stored(),
    {
        &self.fetched_at_ms
    }

    #[must_use]
    pub fn next_uid(&self) -> (r: u32)
        ensures
            r == self.ids().next,
    {
        self.ids.next_uid()
    }

    /// The local UID for a server id, if it has one.
    #[must_use]
    pub fn uid_of(&self, uidl: &str) -> (r: Option<u32>)
        requires
            self.wf(),
        ensures
            r == self.ids().uid_of(uidl@),
    {
        self.ids.uid_of(uidl)
    }

    /// Whether this message has already been downloaded.
    #[must_use]
    pub fn has(&self, uidl: &str) -> (r: bool)
        requires
            self.wf(),
        ensures
            r == self.ids().uids.contains_key(uidl@),
    {
        self.ids.uid_of(uidl).is_some()
    }

    /// The local UID for a server id, given out now if it is new.
    pub fn uid_for(&mut self, uidl: &str, now_ms: i64) -> (r: u32)
        requires
            old(self).wf(),
        ensures
            final(self).wf(),
            r == old(self).ids().number_for(uidl@),
            final(self).ids() == old(self).ids().with(uidl@),
            final(self).stored() == (if old(self).ids().uids.contains_key(uidl@) {
                old(self).stored()
            } else {
                old(self).stored().insert(uidl@, now_ms)
            }),
    {
        if let Some(uid) = self.ids.uid_of(uidl) {
            return uid;
        }
        let uid: u32 = self.ids.uid_for(uidl);
        let ghost before = self.fetched_at_ms@;
        self.fetched_at_ms.push((uidl.to_owned(), now_ms));
        assert(self.fetched_at_ms@.drop_last() =~= before);
        uid
    }

    fn stored_when(&self, uidl: &str) -> (r: Option<i64>)
        ensures
            r == lookup(self.stored(), uidl@),
    {
        let mut i: usize = self.fetched_at_ms.len();
        assert(self.fetched_at_ms@.take(i as int) =~= self.fetched_at_ms@);
        while i > 0
            invariant
                i <= self.fetched_at_ms@.len(),
                lookup(self.stored(), uidl@) == lookup(
                    as_times(self.fetched_at_ms@.take(i as int)),
                    uidl@,
                ),
            decreases i,
        {
            proof {
                let t = self.fetched_at_ms@.take(i as int);
                assert(t.drop_last() =~= self.fetched_at_ms@.take(i - 1));
                assert(t.last() == self.fetched_at_ms@[i - 1]);
            }
            i = i - 1;
            if same(&self.fetched_at_ms[i].0, uidl) {
                return Some(self.fetched_at_ms[i].1);
            }
        }
        None
    }

    /// Server ids old enough to delete under [`Retention::DeleteAfterDays`].
    #[must_use]
    pub fn expired(&self, days: u16, now_ms: i64) -> (r: Vec<String>)
        ensures
            texts(r@) == expired_in(self.stored(), days, now_ms),
    {
        let mut out: Vec<String> = Vec::new();
        assert(texts(out@) =~= Seq::<Seq<char>>::empty());
        let cutoff: i128 = now_ms as i128 - days as i128 * 86_400_000;
        let mut i: usize = 0;
        while i < self.fetched_at_ms.len()
            invariant
                i <= self.fetched_at_ms@.len(),
                cutoff == now_ms - days * 86_400_000,
                texts_ascending(texts(out@)),
                forall|id: Seq<char>| #[trigger]
                    texts(out@).to_set().contains(id) <==> old_enough(
                        lookup(self.stored(), id),
                        days,
                        now_ms,
                    ) && exists|k: int|
                        0 <= k < i && (#[trigger] self.fetched_at_ms@[k]).0@ == id,
            decreases self.fetched_at_ms@.len() - i,
        {
            let ghost before = texts(out@).to_set();
            let ghost here = self.fetched_at_ms@[i as int].0@;
            let at: Option<i64> = self.stored_when(&self.fetched_at_ms[i].0);
            let old: bool = match at {
                Some(t) => t as i128 <= cutoff,
                None => false,
            };
            if old {
                insert_text(&mut out, &self.fetched_at_ms[i].0);
            }
            proof {
                assert forall|id: Seq<char>| #[trigger]
                    texts(out@).to_set().contains(id) <==> old_enough(
                        lookup(self.stored(), id),
                        days,
                        now_ms,
                    ) && exists|k: int|
                        0 <= k < i + 1 && (#[trigger] self.fetched_at_ms@[k]).0@ == id by {
                    assert(before.contains(id) <==> old_enough(lookup(self.stored(), id), days, now_ms)
                        && exists|k: int|
                        0 <= k < i && (#[trigger] self.fetched_at_ms@[k]).0@ == id);
                    if exists|k: int| 0 <= k < i && (#[trigger] self.fetched_at_ms@[k]).0@ == id {
                        let k = choose|k: int|
                            0 <= k < i && (#[trigger] self.fetched_at_ms@[k]).0@ == id;
                        assert(0 <= k < i + 1 && self.fetched_at_ms@[k].0@ == id);
                    }
                    if id == here {
                        assert(self.fetched_at_ms@[i as int].0@ == id);
                    }
                }
            }
            i = i + 1;
        }
        proof {
            let set = expired_set(self.stored(), days, now_ms);
            assert forall|id: Seq<char>| texts(out@).to_set().contains(id) <==> set.contains(
                id,
            ) by {
                if old_enough(lookup(self.stored(), id), days, now_ms) {
                    lemma_time_of(self.fetched_at_ms@, id);
                }
                assert(texts(out@).to_set().contains(id) <==> old_enough(
                    lookup(self.stored(), id),
                    days,
                    now_ms,
                ) && exists|k: int|
                    0 <= k < i && (#[trigger] self.fetched_at_ms@[k]).0@ == id);
            }
            assert(texts(out@).to_set() =~= set);
            lemma_text_listing(texts(out@));
        }
        out
    }
}

proof fn lemma_time_of(times: Seq<(String, i64)>, id: Seq<char>)
    requires
        as_times(times).contains_key(id),
    ensures
        exists|k: int| 0 <= k < times.len() && (#[trigger] times[k]).0@ == id,
    decreases times.len(),
{
    if times.last().0@ == id {
        assert(times[times.len() - 1].0@ == id);
    } else {
        lemma_time_of(times.drop_last(), id);
        let k = choose|k: int|
            0 <= k < times.drop_last().len() && (#[trigger] times.drop_last()[k]).0@ == id;
        assert(times[k].0@ == id);
    }
}

impl Default for Pop3State {
    fn default() -> (r: Self)
        ensures
            r.wf(),
            r.ids() == (Ids { uids: Map::empty(), next: 0 }),
            r.stored() == Map::<Seq<char>, i64>::empty(),
    {
        Pop3State { ids: IdMap::starting_at(0), fetched_at_ms: Vec::new() }
    }
}

// ---- one pass ----

/// What one POP3 pass did.
#[derive(Debug, Clone, Copy, PartialEq, Eq, Structural)]
pub struct Pop3Outcome {
    pub fetched: usize,
    /// Messages the server was asked to delete.
    pub deleted: usize,
    /// Messages already held, and so not downloaded again.
    pub skipped: usize,
}

impl Default for Pop3Outcome {
    fn default() -> (r: Self)
        ensures
            r == (Pop3Outcome { fetched: 0, deleted: 0, skipped: 0 }),
    {
        Pop3Outcome { fetched: 0, deleted: 0, skipped: 0 }
    }
}

/// What a pass is waiting for.
#[derive(Debug, Clone, Copy, PartialEq, Eq, Structural)]
pub enum Stage {
    Listing,
    Message,
    Deletion,
    Over,
}

/// What came back from the server.
#[derive(Debug)]
pub enum Event {
    /// Every message as its number and its unique id.
    Listing(Vec<(u32, String)>),
    /// The message that was asked for.
    Message(Vec<u8>),
    /// The deletion was accepted.
    Deleted,
}

/// What is to be asked next.
#[derive(Debug, Clone, Copy, PartialEq, Eq, Structural)]
pub enum Action {
    /// The unique ids.
    Uidl,
    /// The message with this number.
    Retr(u32),
    /// The deletion of the message with this number.
    Dele(u32),
    Done,
}

/// One pass: download what is new, then apply the retention policy.
#[derive(Debug)]
pub struct Pass {
    pub state: Pop3State,
    pub retention: Retention,
    pub now_ms: i64,
    pub stage: Stage,
    pub outcome: Pop3Outcome,
    /// Every message the server listed.
    pub listing: Vec<(u32, String)>,
    /// How many of them are settled.
    pub at: usize,
    /// The numbers of messages still to be deleted.
    pub deletions: Vec<u32>,
}

/// A pass, as contracts speak of it.
#[verifier::ext_equal]
pub struct Progress {
    pub ids: Ids,
    pub stored: Map<Seq<char>, i64>,
    pub retention: Retention,
    pub now_ms: i64,
    pub stage: Stage,
    pub outcome: Pop3Outcome,
    pub listing: Seq<(u32, Seq<char>)>,
    pub at: nat,
    pub deletions: Seq<u32>,
}

/// What one step of a pass comes to.
pub struct Moved {
    pub pass: Progress,
    pub contents: Contents,
    pub action: Action,
}

/// The number an id has in this session: its last listing counts.
pub open spec fn number_in(listing: Seq<(u32, Seq<char>)>, id: Seq<char>) -> Option<u32>
    decreases listing.len(),
{
    if listing.len() == 0 {
        None
    } else if listing.last().1 == id {
        Some(listing.last().0)
    } else {
        number_in(listing.drop_last(), id)
    }
}

/// The numbers of those ids that the server still lists.
pub open spec fn numbers_in(listing: Seq<(u32, Seq<char>)>, ids: Seq<Seq<char>>) -> Seq<u32>
    decreases ids.len(),
{
    if ids.len() == 0 {
        Seq::empty()
    } else {
        let front = numbers_in(listing, ids.drop_last());
        match number_in(listing, ids.last()) {
            Some(n) => front.push(n),
            None => front,
        }
    }
}

/// Is the message of this id on disk?
pub open spec fn on_disk(ids: Ids, contents: Contents, id: Seq<char>) -> bool {
    ids.uids.contains_key(id) && contents.raws.contains_key(ids.uids[id])
}

/// Those of these ids whose messages are on disk.
pub open spec fn confirmed(listed: Seq<Seq<char>>, ids: Ids, contents: Contents) -> Seq<Seq<char>>
    decreases listed.len(),
{
    if listed.len() == 0 {
        Seq::empty()
    } else {
        let front = confirmed(listed.drop_last(), ids, contents);
        if on_disk(ids, contents, listed.last()) {
            front.push(listed.last())
        } else {
            front
        }
    }
}

/// Listed ids that are held, in the order listed.
pub open spec fn held_in(listing: Seq<(u32, Seq<char>)>, ids: Ids) -> Seq<Seq<char>>
    decreases listing.len(),
{
    if listing.len() == 0 {
        Seq::empty()
    } else {
        let front = held_in(listing.drop_last(), ids);
        if ids.uids.contains_key(listing.last().1) {
            front.push(listing.last().1)
        } else {
            front
        }
    }
}

impl Progress {
    pub open spec fn waits(self, stage: Stage, contents: Contents, action: Action) -> Moved {
        Moved { pass: Progress { stage, ..self }, contents, action }
    }

    /// The ids the retention policy deletes: only those whose messages are on
    /// disk.
    pub open spec fn discarded(self, contents: Contents) -> Seq<Seq<char>> {
        let listed = match self.retention {
            Retention::LeaveOnServer => Seq::empty(),
            Retention::DeleteWhenFetched => held_in(self.listing, self.ids),
            Retention::DeleteAfterDays(days) => expired_in(self.stored, days, self.now_ms),
        };
        confirmed(listed, self.ids, contents)
    }

    /// The message at hand stored: its id is put down as downloaded.
    pub open spec fn took(self) -> Progress {
        let id = self.listing[self.at as int].1;
        Progress {
            ids: self.ids.with(id),
            stored: if self.ids.uids.contains_key(id) {
                self.stored
            } else {
                self.stored.insert(id, self.now_ms)
            },
            at: self.at + 1,
            outcome: Pop3Outcome { fetched: more(self.outcome.fetched, 1), ..self.outcome },
            ..self
        }
    }

    /// A pass that could not take this event, and a store left so: nothing is put
    /// down as downloaded that was not before, but for a message that arrived with
    /// the event and is on disk.
    pub open spec fn keeps_count(self, event: Event, failed: Progress, left: Contents) -> bool {
        ||| failed.ids == self.ids && failed.stored == self.stored
        ||| {
            &&& self.stage == Stage::Message
            &&& event is Message
            &&& self.at < self.listing.len()
            &&& failed.ids == self.took().ids
            &&& failed.stored == self.took().stored
            &&& on_disk(failed.ids, left, self.listing[self.at as int].1)
        }
    }

    pub open spec fn deletion_next(self, contents: Contents) -> Moved {
        if self.deletions.len() > 0 {
            self.waits(Stage::Deletion, contents, Action::Dele(self.deletions[0]))
        } else {
            self.waits(
                Stage::Over,
                contents.at_cursor(
                    Cursor {
                        uid_validity: POP3_UID_VALIDITY,
                        last_uid: self.ids.highest(),
                        highest_modseq: 0,
                        accepts_keywords: false,
                    },
                ),
                Action::Done,
            )
        }
    }

    /// The next listed message that is not held; with all of them stored, and
    /// only then, the retention policy applies.
    pub open spec fn message_next(self, contents: Contents) -> Moved
        decreases self.listing.len() - self.at,
    {
        if self.at < self.listing.len() {
            let (number, id) = self.listing[self.at as int];
            if self.ids.uids.contains_key(id) {
                Progress {
                    at: self.at + 1,
                    outcome: Pop3Outcome { skipped: more(self.outcome.skipped, 1), ..self.outcome },
                    ..self
                }.message_next(contents)
            } else {
                self.waits(Stage::Message, contents, Action::Retr(number))
            }
        } else {
            Progress {
                deletions: numbers_in(self.listing, self.discarded(contents)),
                ..self
            }.deletion_next(contents)
        }
    }

    /// Is some message that is listed from here on not held yet?
    pub open spec fn news_from(self, at: int) -> bool {
        exists|i: int|
            at <= i < self.listing.len() && !self.ids.uids.contains_key(
                (#[trigger] self.listing[i]).1,
            )
    }

    /// Is this an event that asks nothing of the store? Such a step cannot fail.
    pub open spec fn asks_nothing(self, event: Event) -> bool {
        match (self.stage, event) {
            (Stage::Listing, Event::Listing(listing)) => Progress {
                listing: listing_view(listing@),
                ..self
            }.news_from(0),
            (Stage::Deletion, Event::Deleted) => self.deletions.len() > 1,
            _ => false,
        }
    }

    /// What an event comes to; nothing, if this is not what the pass is waiting
    /// for.
    pub open spec fn advanced(self, contents: Contents, event: Event) -> Option<Moved> {
        match (self.stage, event) {
            (Stage::Listing, Event::Listing(listing)) => Some(
                Progress { listing: listing_view(listing@), at: 0, ..self }.message_next(contents),
            ),
            // A message that was just downloaded is unread, and was received
            // now: POP3 has neither flags nor arrival times.
            (Stage::Message, Event::Message(raw)) => if self.at < self.listing.len() {
                let uid = self.ids.number_for(self.listing[self.at as int].1);
                Some(
                    self.took().message_next(
                        contents.with_message(uid, no_flags(), raw@, self.now_ms),
                    ),
                )
            } else {
                None
            },
            (Stage::Deletion, Event::Deleted) => if self.deletions.len() > 0 {
                Some(
                    Progress {
                        deletions: self.deletions.skip(1),
                        outcome: Pop3Outcome {
                            deleted: more(self.outcome.deleted, 1),
                            ..self.outcome
                        },
                        ..self
                    }.deletion_next(contents),
                )
            } else {
                None
            },
            _ => None,
        }
    }
}

fn number_of(listing: &Vec<(u32, String)>, id: &str) -> (r: Option<u32>)
    ensures
        r == number_in(listing_view(listing@), id@),
{
    let ghost all = listing_view(listing@);
    let mut i: usize = listing.len();
    assert(all.take(i as int) =~= all);
    while i > 0
        invariant
            i <= listing@.len(),
            all == listing_view(listing@),
            number_in(all, id@) == number_in(all.take(i as int), id@),
        decreases i,
    {
        proof {
            let t = all.take(i as int);
            assert(t.drop_last() =~= all.take(i - 1));
            assert(t.last() == (listing@[i - 1].0, listing@[i - 1].1@));
        }
        i = i - 1;
        if same(&listing[i].1, id) {
            return Some(listing[i].0);
        }
    }
    None
}

fn numbers_of(listing: &Vec<(u32, String)>, ids: &Vec<String>) -> (r: Vec<u32>)
    ensures
        r@ == numbers_in(listing_view(listing@), texts(ids@)),
{
    let ghost all = texts(ids@);
    let mut out: Vec<u32> = Vec::new();
    let mut i: usize = 0;
    assert(all.take(0) =~= Seq::<Seq<char>>::empty());
    while i < ids.len()
        invariant
            i <= ids@.len(),
            all == texts(ids@),
            out@ == numbers_in(listing_view(listing@), all.take(i as int)),
        decreases ids@.len() - i,
    {
        proof {
            assert(all.take(i + 1).drop_last() =~= all.take(i as int));
            assert(all.take(i + 1).last() == ids@[i as int]@);
        }
        if let Some(n) = number_of(listing, &ids[i]) {
            out.push(n);
        }
        i = i + 1;
    }
    assert(all.take(i as int) =~= all);
    out
}

fn held_of(listing: &Vec<(u32, String)>, state: &Pop3State) -> (r: Vec<String>)
    requires
        state.wf(),
    ensures
        texts(r@) == held_in(listing_view(listing@), state.ids()),
{
    let ghost all = listing_view(listing@);
    let mut out: Vec<String> = Vec::new();
    let mut i: usize = 0;
    assert(all.take(0) =~= Seq::<(u32, Seq<char>)>::empty());
    assert(texts(out@) =~= Seq::<Seq<char>>::empty());
    while i < listing.len()
        invariant
            i <= listing@.len(),
            state.wf(),
            all == listing_view(listing@),
            texts(out@) == held_in(all.take(i as int), state.ids()),
        decreases listing@.len() - i,
    {
        proof {
            assert(all.take(i + 1).drop_last() =~= all.take(i as int));
            assert(all.take(i + 1).last() == (listing@[i as int].0, listing@[i as int].1@));
        }
        let ghost before = out@;
        if state.has(&listing[i].1) {
            out.push(listing[i].1.clone());
            assert(texts(out@) =~= texts(before).push(listing@[i as int].1@));
        }
        i = i + 1;
    }
    assert(all.take(i as int) =~= all);
    out
}

/// Those of these ids whose messages the store gives back.
fn confirmed_of<S: MailStore>(store: &S, listed: &Vec<String>, state: &Pop3State) -> (r: Result<
    Vec<String>,
>)
    requires
        state.wf(),
    ensures
        r matches Ok(v) ==> texts(v@) == confirmed(texts(listed@), state.ids(), store.contents()),
        store.dependable() ==> r is Ok,
{
    let ghost all = texts(listed@);
    let mut out: Vec<String> = Vec::new();
    let mut i: usize = 0;
    assert(all.take(0) =~= Seq::<Seq<char>>::empty());
    assert(texts(out@) =~= Seq::<Seq<char>>::empty());
    while i < listed.len()
        invariant
            i <= listed@.len(),
            state.wf(),
            all == texts(listed@),
            texts(out@) == confirmed(all.take(i as int), state.ids(), store.contents()),
        decreases listed@.len() - i,
    {
        proof {
            assert(all.take(i + 1).drop_last() =~= all.take(i as int));
            assert(all.take(i + 1).last() == listed@[i as int]@);
        }
        let ghost before = out@;
        if let Some(uid) = state.uid_of(&listed[i]) {
            match store.raw(uid) {
                Ok(Some(_)) => {
                    out.push(listed[i].clone());
                    assert(texts(out@) =~= texts(before).push(listed@[i as int]@));
                },
                Ok(None) => {},
                Err(why) => {
                    return Err(why);
                },
            }
        }
        i = i + 1;
    }
    assert(all.take(i as int) =~= all);
    Ok(out)
}

impl Pass {
    pub open spec fn view(&self) -> Progress {
        Progress {
            ids: self.state.ids(),
            stored: self.state.stored(),
            retention: self.retention,
            now_ms: self.now_ms,
            stage: self.stage,
            outcome: self.outcome,
            listing: listing_view(self.listing@),
            at: self.at as nat,
            deletions: self.deletions@,
        }
    }

    pub open spec fn wf(&self) -> bool {
        self.state.wf() && self.at <= self.listing@.len()
    }

    /// Begins a pass. Without stable ids there is no way to tell a message that
    /// was downloaded from a new one, so a server without them is refused.
    pub fn open(
        state: Pop3State,
        capabilities: &Vec<String>,
        retention: Retention,
        now_ms: i64,
    ) -> (r: Result<(Pass, Action)>)
        requires
            state.wf(),
        ensures
            match r {
                Ok((pass, action)) => (capabilities@.len() == 0 || offers(
                    texts(capabilities@),
                    "UIDL"@,
                )) && action == Action::Uidl && pass.wf() && pass@.ids == state.ids()
                    && pass@.stored == state.stored() && pass@.retention == retention
                    && pass@.now_ms == now_ms && pass@.stage == Stage::Listing && pass@.outcome
                    == (Pop3Outcome { fetched: 0, deleted: 0, skipped: 0 }),
                Err(Error::Pop3(m)) => !(capabilities@.len() == 0 || offers(
                    texts(capabilities@),
                    "UIDL"@,
                )) && m@
                    == "this server does not support UIDL, so messages cannot be identified between sessions"@,
                Err(_) => false,
            },
    {
        if !supports_uidl(capabilities) {
            return Err(
                Error::Pop3(
                    "this server does not support UIDL, so messages cannot be identified between sessions".to_owned(),
                ),
            );
        }
        Ok(
            (
                Pass {
                    state,
                    retention,
                    now_ms,
                    stage: Stage::Listing,
                    outcome: Pop3Outcome::default(),
                    listing: Vec::new(),
                    at: 0,
                    deletions: Vec::new(),
                },
                Action::Uidl,
            ),
        )
    }

    /// What is remembered of a pass that is over, or that was given up.
    #[must_use]
    pub fn close(self) -> (r: (Pop3State, Pop3Outcome))
        requires
            self.wf(),
        ensures
            r.0.wf(),
            r.0.ids() == self@.ids,
            r.0.stored() == self@.stored,
            r.1 == self@.outcome,
    {
        (self.state, self.outcome)
    }

    /// Is this what is being waited for?
    fn awaits(&self, event: &Event) -> (r: bool)
        ensures
            forall|c: Contents| (#[trigger] self@.advanced(c, *event) is Some) == r,
    {
        assert(listing_view(self.listing@).len() == self.listing@.len());
        match (self.stage, event) {
            (Stage::Listing, Event::Listing(_)) => true,
            (Stage::Message, Event::Message(_)) => self.at < self.listing.len(),
            (Stage::Deletion, Event::Deleted) => self.deletions.len() > 0,
            _ => false,
        }
    }

    /// The next step of the pass, given what came back from the server. An event
    /// that the pass is not waiting for is refused.
    pub fn advance<S: MailStore>(&mut self, store: &mut S, event: Event) -> (r: Result<Action>)
        requires
            old(self).wf(),
        ensures
            final(self).wf(),
            r matches Ok(action) ==> old(self)@.advanced(old(store).contents(), event) == Some(
                Moved { pass: final(self)@, contents: final(store).contents(), action },
            ),
            old(store).dependable() && old(self)@.advanced(old(store).contents(), event) is Some
                ==> r is Ok && final(store).dependable(),
            old(self)@.asks_nothing(event) ==> r is Ok,
            old(self)@.advanced(old(store).contents(), event) is None ==> r is Err
                && *final(self) == *old(self) && final(store).contents() == old(
                store,
            ).contents(),
            r is Err ==> old(self)@.keeps_count(event, final(self)@, final(store).contents()),
            // A step that failed ends it: nothing that follows can go past what
            // could not be taken.
            r is Err && old(self)@.advanced(old(store).contents(), event) is Some
                ==> final(self)@.stage == Stage::Over,
    {
        let due: bool = self.awaits(&event);
        match self.step(store, event) {
            Ok(action) => Ok(action),
            Err(why) => {
                if due {
                    self.stage = Stage::Over;
                }
                Err(why)
            },
        }
    }

    fn step<S: MailStore>(&mut self, store: &mut S, event: Event) -> (r: Result<Action>)
        requires
            old(self).wf(),
        ensures
            final(self).wf(),
            r matches Ok(action) ==> old(self)@.advanced(old(store).contents(), event) == Some(
                Moved { pass: final(self)@, contents: final(store).contents(), action },
            ),
            old(store).dependable() && old(self)@.advanced(old(store).contents(), event) is Some
                ==> r is Ok && final(store).dependable(),
            old(self)@.asks_nothing(event) ==> r is Ok,
            old(self)@.advanced(old(store).contents(), event) is None ==> r is Err
                && *final(self) == *old(self) && final(store).contents() == old(
                store,
            ).contents(),
            r is Err ==> old(self)@.keeps_count(event, final(self)@, final(store).contents()),
    {
        assert(listing_view(self.listing@).len() == self.listing@.len());
        match (self.stage, event) {
            (Stage::Listing, Event::Listing(listing)) => {
                self.listing = listing;
                self.at = 0;
                self.to_next_message(store)
            },
            (Stage::Message, Event::Message(raw)) => {
                if self.at >= self.listing.len() {
                    return Err(Error::Pop3("the pass is not waiting for that".to_owned()));
                }
                assert(listing_view(self.listing@)[self.at as int].1
                    == self.listing@[self.at as int].1@);
                let uid: u32 = match self.state.uid_of(&self.listing[self.at].1) {
                    Some(uid) => uid,
                    None => self.state.next_uid(),
                };
                let message: RemoteMessage = RemoteMessage {
                    uid,
                    flags: Flags::default(),
                    raw,
                    internal_date_ms: self.now_ms,
                };
                match store.upsert(&message) {
                    Ok(()) => {},
                    Err(why) => {
                        return Err(why);
                    },
                }
                // Only now is it put down as downloaded: one that could not be
                // stored is fetched again.
                let _ = self.state.uid_for(&self.listing[self.at].1, self.now_ms);
                self.outcome.fetched = count_more(self.outcome.fetched, 1);
                self.at = self.at + 1;
                self.to_next_message(store)
            },
            (Stage::Deletion, Event::Deleted) => {
                if self.deletions.len() == 0 {
                    return Err(Error::Pop3("the pass is not waiting for that".to_owned()));
                }
                let ghost before = self.deletions@;
                self.deletions.remove(0);
                assert(self.deletions@ =~= before.skip(1));
                self.outcome.deleted = count_more(self.outcome.deleted, 1);
                self.to_next_deletion(store)
            },
            _ => Err(Error::Pop3("the pass is not waiting for that".to_owned())),
        }
    }

    fn to_next_message<S: MailStore>(&mut self, store: &mut S) -> (r: Result<Action>)
        requires
            old(self).wf(),
        ensures
            final(self).wf(),
            r matches Ok(action) ==> old(self)@.message_next(old(store).contents()) == (Moved {
                pass: final(self)@,
                contents: final(store).contents(),
                action,
            }),
            r is Err ==> final(self)@.ids == old(self)@.ids && final(self)@.stored == old(
                self,
            )@.stored,
            r is Err ==> final(store).contents().raws == old(store).contents().raws,
            old(store).dependable() ==> r is Ok && final(store).dependable(),
            old(self)@.news_from(old(self)@.at as int) ==> r is Ok,
    {
        let ghost all = self@.message_next(store.contents());
        while self.at < self.listing.len()
            invariant
                self.wf(),
                store.contents() == old(store).contents(),
                store.dependable() == old(store).dependable(),
                all == self@.message_next(store.contents()),
                all == old(self)@.message_next(old(store).contents()),
                self@.ids == old(self)@.ids,
                self@.stored == old(self)@.stored,
                self@.listing == old(self)@.listing,
                old(self)@.news_from(old(self)@.at as int) ==> self@.news_from(self.at as int),
            decreases self.listing@.len() - self.at,
        {
            assert(listing_view(self.listing@)[self.at as int] == (
                self.listing@[self.at as int].0,
                self.listing@[self.at as int].1@,
            ));
            if !self.state.has(&self.listing[self.at].1) {
                self.stage = Stage::Message;
                return Ok(Action::Retr(self.listing[self.at].0));
            }
            self.outcome.skipped = count_more(self.outcome.skipped, 1);
            self.at = self.at + 1;
        }
        assert(listing_view(self.listing@).len() == self.listing@.len());
        let listed: Vec<String> = match self.retention {
            Retention::LeaveOnServer => Vec::new(),
            Retention::DeleteWhenFetched => held_of(&self.listing, &self.state),
            Retention::DeleteAfterDays(days) => self.state.expired(days, self.now_ms),
        };
        proof {
            if self.retention is LeaveOnServer {
                assert(texts(listed@) =~= Seq::<Seq<char>>::empty());
            }
        }
        let discarded: Vec<String> = match confirmed_of(store, &listed, &self.state) {
            Ok(ids) => ids,
            Err(why) => {
                return Err(why);
            },
        };
        self.deletions = numbers_of(&self.listing, &discarded);
        self.to_next_deletion(store)
    }

    fn to_next_deletion<S: MailStore>(&mut self, store: &mut S) -> (r: Result<Action>)
        requires
            old(self).wf(),
        ensures
            final(self).wf(),
            r matches Ok(action) ==> old(self)@.deletion_next(old(store).contents()) == (Moved {
                pass: final(self)@,
                contents: final(store).contents(),
                action,
            }),
            r is Err ==> final(self)@.ids == old(self)@.ids && final(self)@.stored == old(
                self,
            )@.stored,
            r is Err ==> final(store).contents().raws == old(store).contents().raws,
            old(store).dependable() ==> r is Ok && final(store).dependable(),
            old(self)@.deletions.len() > 0 ==> r is Ok,
    {
        if self.deletions.len() > 0 {
            self.stage = Stage::Deletion;
            return Ok(Action::Dele(self.deletions[0]));
        }
        let next: u32 = self.state.next_uid();
        let cursor: Cursor = Cursor {
            uid_validity: POP3_UID_VALIDITY,
            last_uid: if next > 0 {
                next - 1
            } else {
                0
            },
            highest_modseq: 0,
            accepts_keywords: false,
        };
        match store.commit_cursor(cursor) {
            Ok(()) => {},
            Err(why) => {
                return Err(why);
            },
        }
        self.stage = Stage::Over;
        Ok(Action::Done)
    }
}

// ---- what holds of every pass ----

proof fn lemma_confirmed(listed: Seq<Seq<char>>, ids: Ids, contents: Contents)
    ensures
        forall|id: Seq<char>| #[trigger]
            confirmed(listed, ids, contents).contains(id) ==> on_disk(ids, contents, id),
    decreases listed.len(),
{
    if listed.len() > 0 {
        let front = confirmed(listed.drop_last(), ids, contents);
        lemma_confirmed(listed.drop_last(), ids, contents);
        assert forall|id: Seq<char>| #[trigger]
            confirmed(listed, ids, contents).contains(id) implies on_disk(ids, contents, id) by {
            if !on_disk(ids, contents, id) {
                let k = confirmed(listed, ids, contents).index_of(id);
                assert(k < front.len());
                assert(front[k] == id);
                assert(front.contains(id));
            }
        }
    }
}

/// Is this the number of an id whose message is on disk?
pub open spec fn safe_to_delete(
    n: u32,
    listing: Seq<(u32, Seq<char>)>,
    ids: Ids,
    contents: Contents,
) -> bool {
    exists|id: Seq<char>| #[trigger] on_disk(ids, contents, id) && number_in(listing, id) == Some(n)
}

proof fn lemma_numbers(listing: Seq<(u32, Seq<char>)>, of: Seq<Seq<char>>, ids: Ids, c: Contents)
    requires
        forall|id: Seq<char>| #[trigger] of.contains(id) ==> on_disk(ids, c, id),
    ensures
        forall|k: int|
            0 <= k < numbers_in(listing, of).len() ==> safe_to_delete(
                #[trigger] numbers_in(listing, of)[k],
                listing,
                ids,
                c,
            ),
    decreases of.len(),
{
    if of.len() > 0 {
        assert(of.contains(of.last()));
        assert forall|id: Seq<char>| #[trigger] of.drop_last().contains(id) implies on_disk(
            ids,
            c,
            id,
        ) by {
            let k = of.drop_last().index_of(id);
            assert(of[k] == id);
            assert(of.contains(id));
        }
        lemma_numbers(listing, of.drop_last(), ids, c);
        let front = numbers_in(listing, of.drop_last());
        let all = numbers_in(listing, of);
        assert forall|k: int| 0 <= k < all.len() implies safe_to_delete(
            #[trigger] all[k],
            listing,
            ids,
            c,
        ) by {
            if k < front.len() {
                assert(all[k] == front[k]);
            } else {
                assert(on_disk(ids, c, of.last()));
                assert(number_in(listing, of.last()) == Some(all[k]));
            }
        }
    }
}

/// Nothing is deleted that is left on the server, nothing is deleted before every
/// listed message is put down as downloaded, and whatever is deleted then, or in
/// the steps that follow, is on disk.
pub proof fn deletion_comes_after_storing(p: Progress, contents: Contents)
    ensures
        ({
            let m = p.message_next(contents);
            &&& m.action is Dele ==> p.retention != Retention::LeaveOnServer
            &&& m.action is Dele ==> forall|k: int|
                p.at <= k < p.listing.len() ==> m.pass.ids.uids.contains_key(
                    (#[trigger] p.listing[k]).1,
                )
            &&& m.action matches Action::Dele(n) ==> safe_to_delete(
                n,
                p.listing,
                m.pass.ids,
                contents,
            )
            &&& m.action is Dele ==> forall|k: int|
                0 <= k < m.pass.deletions.len() ==> safe_to_delete(
                    #[trigger] m.pass.deletions[k],
                    p.listing,
                    m.pass.ids,
                    contents,
                )
        }),
    decreases p.listing.len() - p.at,
{
    if p.at < p.listing.len() {
        let (number, id) = p.listing[p.at as int];
        if p.ids.uids.contains_key(id) {
            let next = Progress {
                at: p.at + 1,
                outcome: Pop3Outcome { skipped: more(p.outcome.skipped, 1), ..p.outcome },
                ..p
            };
            deletion_comes_after_storing(next, contents);
            lemma_ids_kept(next, contents);
        }
    } else {
        let listed = match p.retention {
            Retention::LeaveOnServer => Seq::empty(),
            Retention::DeleteWhenFetched => held_in(p.listing, p.ids),
            Retention::DeleteAfterDays(days) => expired_in(p.stored, days, p.now_ms),
        };
        lemma_confirmed(listed, p.ids, contents);
        lemma_numbers(p.listing, p.discarded(contents), p.ids, contents);
    }
}

/// A deletion that was accepted changes nothing that is held, and the ones still
/// to come stay the same.
pub proof fn a_deletion_leaves_the_rest(p: Progress, contents: Contents)
    requires
        p.stage == Stage::Deletion,
        p.deletions.len() > 0,
    ensures
        ({
            let m = p.advanced(contents, Event::Deleted)->0;
            &&& p.advanced(contents, Event::Deleted) is Some
            &&& m.pass.deletions == p.deletions.skip(1)
            &&& m.pass.ids == p.ids
            &&& m.contents.raws == contents.raws
            &&& m.action matches Action::Dele(n) ==> n == p.deletions[1]
        }),
{
}

proof fn lemma_ids_kept(p: Progress, contents: Contents)
    ensures
        p.message_next(contents).pass.ids == p.ids,
    decreases p.listing.len() - p.at,
{
    if p.at < p.listing.len() {
        let (number, id) = p.listing[p.at as int];
        if p.ids.uids.contains_key(id) {
            lemma_ids_kept(
                Progress {
                    at: p.at + 1,
                    outcome: Pop3Outcome { skipped: more(p.outcome.skipped, 1), ..p.outcome },
                    ..p
                },
                contents,
            );
        }
    }
}

/// A pass that is over, because it came to its end or because a step of it failed,
/// takes nothing more.
pub proof fn an_ended_pass_takes_nothing(p: Progress, contents: Contents, event: Event)
    requires
        p.stage == Stage::Over,
    ensures
        p.advanced(contents, event) is None,
{
}

proof fn lemma_next_keeps(p: Progress, contents: Contents)
    ensures
        ({
            let m = p.message_next(contents);
            &&& m.pass.ids == p.ids
            &&& m.pass.stored == p.stored
            &&& m.contents.raws == contents.raws
            &&& m.contents.entries == contents.entries
            &&& m.contents.dates == contents.dates
        }),
    decreases p.listing.len() - p.at,
{
    if p.at < p.listing.len() && p.ids.uids.contains_key(p.listing[p.at as int].1) {
        lemma_next_keeps(
            Progress {
                at: p.at + 1,
                outcome: Pop3Outcome { skipped: more(p.outcome.skipped, 1), ..p.outcome },
                ..p
            },
            contents,
        );
    }
}

/// A message that was downloaded is in the store byte for byte, unread, under a number of its
/// own, and is put down as held; what was stored before is still there.
pub proof fn a_downloaded_message_is_stored(
    p: Progress,
    contents: Contents,
    raw: Vec<u8>,
    other: u32,
)
    requires
        p.stage == Stage::Message,
        p.at < p.listing.len(),
        !p.ids.uids.contains_key(p.listing[p.at as int].1),
        other != p.ids.next,
    ensures
        p.advanced(contents, Event::Message(raw)) is Some,
        ({
            let m = p.advanced(contents, Event::Message(raw))->0;
            let id = p.listing[p.at as int].1;
            let uid = p.ids.next;
            let flags = m.contents.entries[uid];
            &&& m.contents.raws.contains_key(uid) && m.contents.raws[uid] == raw@
            &&& m.contents.entries.contains_key(uid)
            &&& !flags.seen && !flags.answered && !flags.flagged && !flags.draft && !flags.deleted
                && !flags.passed
            &&& m.contents.dates.contains_key(uid) && m.contents.dates[uid] == p.now_ms
            &&& m.pass.ids.uids.contains_key(id) && m.pass.ids.uids[id] == uid
            &&& m.pass.stored.contains_key(id) && m.pass.stored[id] == p.now_ms
            &&& m.contents.raws.contains_key(other) <==> contents.raws.contains_key(other)
            &&& contents.raws.contains_key(other) ==> m.contents.raws[other]
                == contents.raws[other]
        }),
{
    let uid = p.ids.number_for(p.listing[p.at as int].1);
    lemma_next_keeps(p.took(), contents.with_message(uid, no_flags(), raw@, p.now_ms));
}

/// The message asked for next is the first listed one that is not held; everything before it
/// is held already, and is not downloaded again.
pub proof fn the_first_new_message_is_asked_for(p: Progress, contents: Contents, i: int)
    requires
        p.at <= i < p.listing.len(),
        !p.ids.uids.contains_key(p.listing[i].1),
        forall|k: int|
            p.at <= k < i ==> p.ids.uids.contains_key((#[trigger] p.listing[k]).1),
    ensures
        p.message_next(contents).action == Action::Retr(p.listing[i].0),
        p.message_next(contents).pass.at == i,
        p.message_next(contents).pass.stage == Stage::Message,
        p.message_next(contents).contents == contents,
    decreases i - p.at,
{
    if p.at < i {
        assert(p.ids.uids.contains_key(p.listing[p.at as int].1));
        the_first_new_message_is_asked_for(
            Progress {
                at: p.at + 1,
                outcome: Pop3Outcome { skipped: more(p.outcome.skipped, 1), ..p.outcome },
                ..p
            },
            contents,
            i,
        );
    }
}

proof fn lemma_all_held(p: Progress, contents: Contents)
    requires
        forall|k: int|
            p.at <= k < p.listing.len() ==> p.ids.uids.contains_key((#[trigger] p.listing[k]).1),
    ensures
        p.message_next(contents).pass.deletions == numbers_in(p.listing, p.discarded(contents)),
        p.message_next(contents).action == (if numbers_in(
            p.listing,
            p.discarded(contents),
        ).len() > 0 {
            Action::Dele(numbers_in(p.listing, p.discarded(contents))[0])
        } else {
            Action::Done
        }),
    decreases p.listing.len() - p.at,
{
    if p.at < p.listing.len() {
        assert(p.ids.uids.contains_key(p.listing[p.at as int].1));
        let next = Progress {
            at: p.at + 1,
            outcome: Pop3Outcome { skipped: more(p.outcome.skipped, 1), ..p.outcome },
            ..p
        };
        lemma_all_held(next, contents);
    }
}

proof fn lemma_confirmed_all(listed: Seq<Seq<char>>, ids: Ids, contents: Contents, id: Seq<char>)
    ensures
        confirmed(listed, ids, contents).contains(id) <==> listed.contains(id)
            && ids.uids.contains_key(id) && contents.raws.contains_key(ids.uids[id]),
    decreases listed.len(),
{
    let all = confirmed(listed, ids, contents);
    if listed.len() > 0 {
        let rest = listed.drop_last();
        lemma_confirmed_all(rest, ids, contents, id);
        let front = confirmed(rest, ids, contents);
        if all.contains(id) {
            let k = choose|k: int| 0 <= k < all.len() && all[k] == id;
            if k < front.len() {
                assert(front[k] == id);
                let m = choose|m: int| 0 <= m < rest.len() && rest[m] == id;
                assert(listed[m] == id);
            } else {
                assert(listed[listed.len() - 1] == id);
            }
        }
        if listed.contains(id) && on_disk(ids, contents, id) {
            let m = choose|m: int| 0 <= m < listed.len() && listed[m] == id;
            if m < rest.len() {
                assert(rest[m] == id);
                let k = choose|k: int| 0 <= k < front.len() && front[k] == id;
                assert(all[k] == id);
            } else {
                assert(all[all.len() - 1] == id);
            }
        }
    }
}

proof fn lemma_held_all(listing: Seq<(u32, Seq<char>)>, ids: Ids, i: int)
    requires
        0 <= i < listing.len(),
        ids.uids.contains_key(listing[i].1),
    ensures
        held_in(listing, ids).contains(listing[i].1),
    decreases listing.len(),
{
    let all = held_in(listing, ids);
    let front = held_in(listing.drop_last(), ids);
    if i < listing.len() - 1 {
        lemma_held_all(listing.drop_last(), ids, i);
        let k = choose|k: int| 0 <= k < front.len() && front[k] == listing[i].1;
        assert(all[k] == listing[i].1);
    } else {
        assert(all[all.len() - 1] == listing[i].1);
    }
}

proof fn lemma_number_in(listing: Seq<(u32, Seq<char>)>, i: int)
    requires
        0 <= i < listing.len(),
        forall|k: int| i < k < listing.len() ==> (#[trigger] listing[k]).1 != listing[i].1,
    ensures
        number_in(listing, listing[i].1) == Some(listing[i].0),
    decreases listing.len(),
{
    if i < listing.len() - 1 {
        assert(listing[listing.len() - 1].1 != listing[i].1);
        let front = listing.drop_last();
        assert forall|k: int| i < k < front.len() implies (#[trigger] front[k]).1
            != front[i].1 by {
            assert(front[k] == listing[k]);
        }
        lemma_number_in(front, i);
    }
}

proof fn lemma_no_number(listing: Seq<(u32, Seq<char>)>, id: Seq<char>)
    requires
        number_in(listing, id) is Some,
    ensures
        exists|i: int|
            0 <= i < listing.len() && (#[trigger] listing[i]) == (number_in(listing, id)->0, id),
    decreases listing.len(),
{
    if listing.last().1 == id {
        assert(listing[listing.len() - 1] == (listing.last().0, id));
    } else {
        let front = listing.drop_last();
        lemma_no_number(front, id);
        let i = choose|i: int|
            0 <= i < front.len() && (#[trigger] front[i]) == (number_in(front, id)->0, id);
        assert(listing[i] == (number_in(listing, id)->0, id));
    }
}

proof fn lemma_numbers_in(listing: Seq<(u32, Seq<char>)>, ids: Seq<Seq<char>>, n: u32)
    ensures
        numbers_in(listing, ids).contains(n) <==> exists|k: int|
            0 <= k < ids.len() && number_in(listing, #[trigger] ids[k]) == Some(n),
    decreases ids.len(),
{
    let all = numbers_in(listing, ids);
    if ids.len() > 0 {
        let rest = ids.drop_last();
        lemma_numbers_in(listing, rest, n);
        let front = numbers_in(listing, rest);
        if all.contains(n) {
            let m = choose|m: int| 0 <= m < all.len() && all[m] == n;
            if m < front.len() {
                assert(front[m] == n);
                let k = choose|k: int|
                    0 <= k < rest.len() && number_in(listing, #[trigger] rest[k]) == Some(n);
                assert(number_in(listing, ids[k]) == Some(n));
            } else {
                assert(number_in(listing, ids[ids.len() - 1]) == Some(n));
            }
        }
        if exists|k: int| 0 <= k < ids.len() && number_in(listing, #[trigger] ids[k]) == Some(n) {
            let k = choose|k: int|
                0 <= k < ids.len() && number_in(listing, #[trigger] ids[k]) == Some(n);
            if k < rest.len() {
                assert(number_in(listing, rest[k]) == Some(n));
                let m = choose|m: int| 0 <= m < front.len() && front[m] == n;
                assert(all[m] == n);
            } else {
                assert(all[all.len() - 1] == n);
            }
        }
    }
}

/// What a pass deletes, once everything listed is held: nothing, where mail is left on the
/// server; every listed message that is on disk, where mail is deleted when fetched; and where
/// it is deleted after some days, every listed message on disk that was stored so long ago.
pub proof fn what_is_deleted(p: Progress, contents: Contents, i: int)
    requires
        forall|k: int|
            p.at <= k < p.listing.len() ==> p.ids.uids.contains_key((#[trigger] p.listing[k]).1),
        p.stored.dom().finite(),
        0 <= i < p.listing.len(),
        forall|k: int| 0 <= k < p.listing.len() && k != i ==> (#[trigger] p.listing[k]).1
            != p.listing[i].1 && p.listing[k].0 != p.listing[i].0,
    ensures
        ({
            let id = p.listing[i].1;
            let goes = p.message_next(contents).pass.deletions.contains(p.listing[i].0);
            let here = p.ids.uids.contains_key(id) && contents.raws.contains_key(p.ids.uids[id]);
            match p.retention {
                Retention::LeaveOnServer => !goes,
                Retention::DeleteWhenFetched => goes <==> here,
                Retention::DeleteAfterDays(days) => goes <==> here && p.stored.contains_key(id)
                    && p.stored[id] <= p.now_ms - days * 86_400_000,
            }
        }),
{
    lemma_all_held(p, contents);
    let id = p.listing[i].1;
    let listed = match p.retention {
        Retention::LeaveOnServer => Seq::empty(),
        Retention::DeleteWhenFetched => held_in(p.listing, p.ids),
        Retention::DeleteAfterDays(days) => expired_in(p.stored, days, p.now_ms),
    };
    let chosen = confirmed(listed, p.ids, contents);
    assert(chosen == p.discarded(contents));
    lemma_confirmed_all(listed, p.ids, contents, id);
    lemma_number_in(p.listing, i);
    lemma_numbers_in(p.listing, chosen, p.listing[i].0);
    if exists|k: int|
        0 <= k < chosen.len() && number_in(p.listing, #[trigger] chosen[k]) == Some(
            p.listing[i].0,
        ) {
        let k = choose|k: int|
            0 <= k < chosen.len() && number_in(p.listing, #[trigger] chosen[k]) == Some(
                p.listing[i].0,
            );
        lemma_no_number(p.listing, chosen[k]);
        assert(chosen[k] == id);
        assert(chosen.contains(id));
    }
    if chosen.contains(id) {
        let k = choose|k: int| 0 <= k < chosen.len() && chosen[k] == id;
        assert(number_in(p.listing, chosen[k]) == Some(p.listing[i].0));
    }
    match p.retention {
        Retention::DeleteWhenFetched => {
            if p.ids.uids.contains_key(id) {
                lemma_held_all(p.listing, p.ids, i);
            }
        },
        Retention::DeleteAfterDays(days) => {
            let set = expired_set(p.stored, days, p.now_ms);
            assert(set.subset_of(p.stored.dom()));
            vstd::set_lib::lemma_set_subset_finite(p.stored.dom(), set);
            crate::order::a_finite_set_is_listed(set);
            assert(listed.to_set().contains(id) <==> set.contains(id));
        },
        _ => {},
    }
}

/// Every line of a listing that gives a number and an id is taken up, and nothing else is.
pub proof fn every_listed_line_is_read(lines: Seq<Seq<char>>, number: u32, id: Seq<char>)
    ensures
        listing_in(lines).contains((number, id)) <==> exists|k: int|
            0 <= k < lines.len() && words(#[trigger] lines[k]).len() >= 2 && unsigned(
                words(lines[k])[0],
                u32::MAX as nat,
            ) == Some(number as nat) && words(lines[k])[1] == id,
    decreases lines.len(),
{
    let all = listing_in(lines);
    if lines.len() > 0 {
        let rest = lines.drop_last();
        every_listed_line_is_read(rest, number, id);
        let front = listing_in(rest);
        if all.contains((number, id)) {
            let m = choose|m: int| 0 <= m < all.len() && all[m] == (number, id);
            if m < front.len() {
                assert(front[m] == (number, id));
                let k = choose|k: int|
                    0 <= k < rest.len() && words(#[trigger] rest[k]).len() >= 2 && unsigned(
                        words(rest[k])[0],
                        u32::MAX as nat,
                    ) == Some(number as nat) && words(rest[k])[1] == id;
                assert(lines[k] == rest[k]);
            } else {
                assert(lines[lines.len() - 1] == lines.last());
            }
        }
        if exists|k: int|
            0 <= k < lines.len() && words(#[trigger] lines[k]).len() >= 2 && unsigned(
                words(lines[k])[0],
                u32::MAX as nat,
            ) == Some(number as nat) && words(lines[k])[1] == id {
            let k = choose|k: int|
                0 <= k < lines.len() && words(#[trigger] lines[k]).len() >= 2 && unsigned(
                    words(lines[k])[0],
                    u32::MAX as nat,
                ) == Some(number as nat) && words(lines[k])[1] == id;
            if k < rest.len() {
                assert(rest[k] == lines[k]);
                let m = choose|m: int| 0 <= m < front.len() && front[m] == (number, id);
                assert(all[m] == (number, id));
            } else {
                assert(all[all.len() - 1] == (number, id));
            }
        }
    }
}

/// Lines, one behind the other.
pub open spec fn run_together(lines: Seq<Seq<u8>>) -> Seq<u8>
    decreases lines.len(),
{
    if lines.len() == 0 {
        Seq::empty()
    } else {
        lines[0] + run_together(lines.skip(1))
    }
}

/// A body that a sender put on the wire is read back byte for byte, however many of its lines
/// begin with a dot, and what follows it is left alone.
pub proof fn a_body_comes_back(lines: Seq<Seq<u8>>, rest: Seq<u8>)
    requires
        forall|i: int|
            0 <= i < lines.len() ==> 0 < (#[trigger] lines[i]).len() < 65_536 && lines[i].last()
                == 10,
        forall|i: int, j: int|
            0 <= i < lines.len() && 0 <= j < lines[i].len() - 1 ==> #[trigger] lines[i][j] != 10,
    ensures
        ({
            let sent = run_together(
                lines.map_values(
                    |l: Seq<u8>|
                        if l[0] == 46 {
                            seq![46u8] + l
                        } else {
                            l
                        },
                ),
            ) + seq![46u8, 13u8, 10u8];
            body_of(sent + rest, true) == Some((run_together(lines), sent.len()))
        }),
    decreases lines.len(),
{
    let f = |l: Seq<u8>|
        if l[0] == 46 {
            seq![46u8] + l
        } else {
            l
        };
    let end = seq![46u8, 13u8, 10u8];
    let sent = run_together(lines.map_values(f)) + end;
    let wire = sent + rest;
    if lines.len() == 0 {
        assert(run_together(lines.map_values(f)) =~= Seq::<u8>::empty());
        assert(wire =~= end + rest);
        crate::bytes::lemma_first_line_is(wire, 3);
        assert(wire.take(3) =~= end);
        reveal_with_fuel(stripped, 4);
        assert(end.drop_last() =~= seq![46u8, 13u8]);
        assert(seq![46u8, 13u8].drop_last() =~= seq![46u8]);
        assert(stripped(end) == seq![46u8]);
    } else {
        let l = lines[0];
        let w = f(l);
        let tail = lines.skip(1);
        assert(w == stuffed(l));
        a_stuffed_line_is_restored(l);
        assert forall|i: int| 0 <= i < tail.len() implies 0 < (#[trigger] tail[i]).len() < 65_536
            && tail[i].last() == 10 by {
            assert(tail[i] == lines[i + 1]);
        }
        assert forall|i: int, j: int|
            0 <= i < tail.len() && 0 <= j < tail[i].len() - 1 implies #[trigger] tail[i][j]
            != 10 by {
            assert(tail[i] == lines[i + 1]);
            assert(lines[i + 1][j] != 10);
        }
        a_body_comes_back(tail, rest);
        assert(lines.map_values(f).skip(1) =~= tail.map_values(f));
        assert(lines.map_values(f)[0] == w);
        let sent_tail = run_together(tail.map_values(f)) + end;
        assert(wire =~= w + (sent_tail + rest));
        assert forall|j: int| 0 <= j < w.len() - 1 implies wire[j] != 10 by {
            if l[0] == 46 {
                if j > 0 {
                    assert(w[j] == l[j - 1]);
                    assert(lines[0][j - 1] != 10);
                }
            } else {
                assert(w[j] == lines[0][j]);
                assert(lines[0][j] != 10);
            }
        }
        assert(wire[w.len() - 1] == 10) by {
            assert(w.last() == l.last());
        }
        crate::bytes::lemma_first_line_is(wire, w.len() as int);
        assert(wire.take(w.len() as int) =~= w);
        assert(wire.skip(w.len() as int) =~= sent_tail + rest);
        assert(sent.len() == w.len() + sent_tail.len());
    }
}

} // verus!
