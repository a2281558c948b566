//! Working out where an address's mail lives, from the address.
//!
//! Three stages, in order, first answer wins: a built-in table of providers, a
//! published autoconfig document, and a guess that is confirmed by a
//! connection. The stages that need a network are asked for one probe at a
//! time; this module decides what to ask and what an answer means.
//!
//! Everything below builds URLs and host names from a string somebody typed.
//! [`domain_of`] admits only shapes that are unambiguously a public hostname,
//! and nothing downstream accepts anything it rejected.

use vstd::prelude::*;
use vstd::utf8::encode_utf8;

use crate::bytes::same_bytes;
use crate::chars::{ascii, lower_of, lowered, pieces, push_all, push_text, replace_of, replaced,
    same, same_folded, spells, split_of, split_on, to_chars, to_text, trim_of, trimmed, upper_of,
    uppered, Class};
use crate::error::{Error, Result};
use crate::imap::Security;
use crate::numbers::{hex, hexadecimal, parse_unsigned, unsigned};
use crate::xml::{next_event, open_xml, xml_events, XmlEvent, XmlStep};

verus! {

/// Which stage answered: "we looked this up" and "we guessed and it accepted a
/// connection" deserve different confidence.
#[derive(Debug, Clone, Copy, PartialEq, Eq, Structural)]
pub enum Source {
    /// From the built-in table.
    Known,
    /// From an autoconfig document the provider or Mozilla publishes.
    Autoconfig,
    /// Guessed from the domain and confirmed only by a socket opening.
    Guessed,
}

/// What was found, and how.
#[derive(Debug, Clone, PartialEq, Eq)]
pub struct Discovered {
    pub display_name: String,
    pub imap_host: String,
    pub imap_port: u16,
    pub imap_security: Security,
    pub smtp_host: String,
    pub smtp_port: u16,
    pub smtp_security: Security,
    /// What to log in with. Some providers want the local part rather than the
    /// whole address, and autoconfig says which.
    pub username: String,
    pub source: Source,
}

/// The settings of an account, as contracts speak of them.
pub struct Settings {
    pub display_name: Seq<char>,
    pub imap_host: Seq<char>,
    pub imap_port: u16,
    pub imap_security: Security,
    pub smtp_host: Seq<char>,
    pub smtp_port: u16,
    pub smtp_security: Security,
    pub username: Seq<char>,
    pub source: Source,
}

impl Discovered {
    pub open spec fn view(&self) -> Settings {
        Settings {
            display_name: self.display_name@,
            imap_host: self.imap_host@,
            imap_port: self.imap_port,
            imap_security: self.imap_security,
            smtp_host: self.smtp_host@,
            smtp_port: self.smtp_port,
            smtp_security: self.smtp_security,
            username: self.username@,
            source: self.source,
        }
    }
}

pub open spec fn settings(d: Option<Discovered>) -> Option<Settings> {
    match d {
        Some(d) => Some(d@),
        None => None,
    }
}

// ---- the guard ----

/// Characters that would let a host smuggle URL syntax (a port, a path, a
/// query, userinfo, an IPv6 literal) into a probe.
pub open spec fn url_syntax(c: char) -> bool {
    ||| c == ':'
    ||| c == '/'
    ||| c == '\\'
    ||| c == '?'
    ||| c == '#'
    ||| c == '@'
    ||| c == '['
    ||| c == ']'
    ||| c == ' '
    ||| (c as u32) < 32
    ||| c as u32 == 127
}

pub open spec fn has_url_syntax(s: Seq<char>) -> bool {
    exists|i: int| 0 <= i < s.len() && url_syntax(#[trigger] s[i])
}

fn is_url_syntax(c: char) -> (r: bool)
    ensures
        r == url_syntax(c),
{
    matches!(c, ':' | '/' | '\\' | '?' | '#' | '@' | '[' | ']' | ' ') || (c as u32) < 32
        || c as u32 == 127
}

fn holds_url_syntax(v: &[char]) -> (r: bool)
    ensures
        r == has_url_syntax(v@),
{
    let mut i: usize = 0;
    while i < v.len()
        invariant
            i <= v@.len(),
            forall|j: int| 0 <= j < i ==> !url_syntax(#[trigger] v@[j]),
        decreases v@.len() - i,
    {
        if is_url_syntax(v[i]) {
            assert(url_syntax(v@[i as int]));
            return true;
        }
        i = i + 1;
    }
    false
}

/// Nothing but digits and dots: a bare address, whatever a resolver would make
/// of it.
pub open spec fn bare_number(s: Seq<char>) -> bool {
    forall|i: int| 0 <= i < s.len() ==> ('0' <= #[trigger] s[i] <= '9' || s[i] == '.')
}

fn is_bare_number(v: &[char]) -> (r: bool)
    ensures
        r == bare_number(v@),
{
    let mut i: usize = 0;
    while i < v.len()
        invariant
            i <= v@.len(),
            forall|j: int| 0 <= j < i ==> ('0' <= #[trigger] v@[j] <= '9' || v@[j] == '.'),
        decreases v@.len() - i,
    {
        let c: char = v[i];
        if !('0' <= c && c <= '9' || c == '.') {
            assert(v@[i as int] == c);
            return false;
        }
        i = i + 1;
    }
    true
}

fn has_dot(v: &[char]) -> (r: bool)
    ensures
        r == v@.contains('.'),
{
    let mut i: usize = 0;
    while i < v.len()
        invariant
            i <= v@.len(),
            forall|j: int| 0 <= j < i ==> #[trigger] v@[j] != '.',
        decreases v@.len() - i,
    {
        if v[i] == '.' {
            assert(v@[i as int] == '.');
            return true;
        }
        i = i + 1;
    }
    false
}

/// The domain of an address that may be looked up, or the reason it may not.
pub open spec fn domain_in(email: Seq<char>) -> std::result::Result<Seq<char>, Seq<char>> {
    let parts = split_on(email, Class::Is('@'));
    if parts.len() != 2 || parts[0].len() == 0 || parts[1].len() == 0 {
        Err("that is not an email address"@)
    } else if has_url_syntax(parts[1]) || !parts[1].contains('.') {
        Err("that domain cannot be looked up"@)
    } else if bare_number(parts[1]) {
        Err("an address at a bare IP cannot be looked up"@)
    } else {
        Ok(lowered(parts[1]))
    }
}

/// The domain part of an address, if it is one that may safely be probed.
///
/// It admits only shapes that are unambiguously a public hostname, and rejects
/// the rest rather than sanitising them, because a silently rewritten host is
/// one nobody can debug.
pub fn domain_of(email: &str) -> (r: Result<String>)
    ensures
        match r {
            Ok(domain) => domain_in(email@) == Ok::<Seq<char>, Seq<char>>(domain@),
            Err(Error::Discovery(m)) => domain_in(email@) == Err::<Seq<char>, Seq<char>>(m@),
            Err(_) => false,
        },
{
    let v: Vec<char> = to_chars(email);
    let parts: Vec<Vec<char>> = split_of(&v, Class::Is('@'));
    let ghost all = pieces(parts@);
    assert(all.len() == parts@.len());
    if parts.len() != 2 {
        return Err(Error::Discovery("that is not an email address".to_owned()));
    }
    assert(all[0] == parts@[0]@ && all[1] == parts@[1]@);
    if parts[0].len() == 0 || parts[1].len() == 0 {
        return Err(Error::Discovery("that is not an email address".to_owned()));
    }
    let domain: &Vec<char> = &parts[1];
    if holds_url_syntax(domain) || !has_dot(domain) {
        return Err(Error::Discovery("that domain cannot be looked up".to_owned()));
    }
    // Shape, not parsing, decides: a resolver happily expands `127.1`.
    if is_bare_number(domain) {
        return Err(
            Error::Discovery("an address at a bare IP cannot be looked up".to_owned()),
        );
    }
    Ok(to_text(&lower_of(domain)))
}

/// One number of a dotted quad: plain decimal, no leading zero.
pub open spec fn octet(s: Seq<char>) -> Option<nat> {
    if 1 <= s.len() <= 3 && s[0] != '+' && (s.len() == 1 || s[0] != '0') {
        unsigned(s, 255)
    } else {
        None
    }
}

/// The four numbers of an IPv4 address in strict dotted-quad notation.
pub open spec fn dotted_quad(s: Seq<char>) -> Option<(nat, nat, nat, nat)> {
    let p = split_on(s, Class::Is('.'));
    if p.len() == 4 && octet(p[0]) is Some && octet(p[1]) is Some && octet(p[2]) is Some
        && octet(p[3]) is Some {
        Some((octet(p[0])->0, octet(p[1])->0, octet(p[2])->0, octet(p[3])->0))
    } else {
        None
    }
}

fn read_octet(v: &[char]) -> (r: Option<u8>)
    ensures
        match r {
            Some(n) => octet(v@) == Some(n as nat),
            None => octet(v@) is None,
        },
{
    if v.len() == 0 || v.len() > 3 || v[0] == '+' || (v.len() != 1 && v[0] == '0') {
        return None;
    }
    match parse_unsigned(v, 255) {
        Some(n) => Some(n as u8),
        None => None,
    }
}

fn read_dotted_quad(v: &[char]) -> (r: Option<(u8, u8, u8, u8)>)
    ensures
        match r {
            Some((a, b, c, d)) => dotted_quad(v@) == Some(
                (a as nat, b as nat, c as nat, d as nat),
            ),
            None => dotted_quad(v@) is None,
        },
{
    let p: Vec<Vec<char>> = split_of(v, Class::Is('.'));
    let ghost all = pieces(p@);
    assert(all.len() == p@.len());
    if p.len() != 4 {
        return None;
    }
    assert(all[0] == p@[0]@ && all[1] == p@[1]@ && all[2] == p@[2]@ && all[3] == p@[3]@);
    match (read_octet(&p[0]), read_octet(&p[1]), read_octet(&p[2]), read_octet(&p[3])) {
        (Some(a), Some(b), Some(c), Some(d)) => Some((a, b, c, d)),
        _ => None,
    }
}

/// Is this address routable on the public internet? Not: loopback, RFC 1918,
/// link-local, multicast, broadcast, the unspecified address, the RFC 5737
/// documentation ranges, RFC 6598 carrier-grade NAT.
pub open spec fn public_v4(a: nat, b: nat, c: nat, d: nat) -> bool {
    &&& a != 127
    &&& a != 10
    &&& !(a == 172 && 16 <= b < 32)
    &&& !(a == 192 && b == 168)
    &&& !(a == 169 && b == 254)
    &&& !(a == 0 && b == 0 && c == 0 && d == 0)
    &&& !(a == 255 && b == 255 && c == 255 && d == 255)
    &&& !(224 <= a < 240)
    &&& !(a == 192 && b == 0 && c == 2)
    &&& !(a == 198 && b == 51 && c == 100)
    &&& !(a == 203 && b == 0 && c == 113)
    &&& !(a == 100 && 64 <= b < 128)
}

#[must_use]
pub fn is_public_v4(a: u8, b: u8, c: u8, d: u8) -> (r: bool)
    ensures
        r == public_v4(a as nat, b as nat, c as nat, d as nat),
{
    !(a == 127 || a == 10 || (a == 172 && 16 <= b && b < 32) || (a == 192 && b == 168) || (a == 169
        && b == 254) || (a == 0 && b == 0 && c == 0 && d == 0) || (a == 255 && b == 255 && c == 255
        && d == 255) || (224 <= a && a < 240) || (a == 192 && b == 0 && c == 2) || (a == 198 && b
        == 51 && c == 100) || (a == 203 && b == 0 && c == 113) || (a == 100 && 64 <= b && b < 128))
}

/// An IPv6 address, as its eight segments, that is routable on the public
/// internet. Not: `::1`, `::`, multicast (`ff00::/8`), unique local
/// (`fc00::/7`), link-local (`fe80::/10`).
pub open spec fn public_v6(s: Seq<u16>) -> bool {
    let zeros = forall|i: int| 0 <= i < 7 ==> #[trigger] s[i] == 0;
    &&& !(zeros && s[7] <= 1)
    &&& !(0xff00 <= s[0])
    &&& !(0xfc00 <= s[0] < 0xfe00)
    &&& !(0xfe80 <= s[0] < 0xfec0)
}

#[must_use]
pub fn is_public_v6(s: [u16; 8]) -> (r: bool)
    ensures
        r == public_v6(s@),
{
    let zeros: bool = s[0] == 0 && s[1] == 0 && s[2] == 0 && s[3] == 0 && s[4] == 0 && s[5] == 0
        && s[6] == 0;
    proof {
        assert(zeros == (forall|i: int| 0 <= i < 7 ==> #[trigger] s@[i] == 0));
    }
    !(zeros && s[7] <= 1) && !(0xff00 <= s[0]) && !(0xfc00 <= s[0] && s[0] < 0xfe00) && !(0xfe80
        <= s[0] && s[0] < 0xfec0)
}

/// A host that may be probed or offered: a dotted name without URL syntax, or a
/// public address literal. Digits and dots in any other shape are refused: a
/// resolver may still read them as an address.
pub open spec fn probe_host(host: Seq<char>) -> bool {
    &&& host.contains('.')
    &&& !has_url_syntax(host)
    &&& match dotted_quad(host) {
        Some((a, b, c, d)) => public_v4(a, b, c, d),
        None => !bare_number(host),
    }
}

/// A host derived during discovery, before anything is probed or offered.
///
/// An autoconfig document is only as trustworthy as whoever published it, and
/// one naming `localhost` must not widen the probe surface past what
/// [`domain_of`] would have admitted.
#[must_use]
pub fn is_probe_host(host: &str) -> (r: bool)
    ensures
        r == probe_host(host@),
{
    let v: Vec<char> = to_chars(host);
    if !has_dot(&v) || holds_url_syntax(&v) {
        return false;
    }
    match read_dotted_quad(&v) {
        Some((a, b, c, d)) => is_public_v4(a, b, c, d),
        None => !is_bare_number(&v),
    }
}

// ---- the built-in table ----

/// One provider in the built-in table.
#[derive(Debug, Clone, Copy)]
pub struct Provider {
    pub display_name: &'static str,
    pub imap_host: &'static str,
    pub smtp_host: &'static str,
    /// STARTTLS on 587 rather than implicit TLS on 465, where the provider
    /// wants that.
    pub smtp_starttls: bool,
}

pub open spec fn entry(
    display_name: &'static str,
    imap_host: &'static str,
    smtp_host: &'static str,
    smtp_starttls: bool,
) -> Provider {
    Provider { display_name, imap_host, smtp_host, smtp_starttls }
}

fn entry_of(
    display_name: &'static str,
    imap_host: &'static str,
    smtp_host: &'static str,
    smtp_starttls: bool,
) -> (r: Provider)
    ensures
        r == entry(display_name, imap_host, smtp_host, smtp_starttls),
{
    Provider { display_name, imap_host, smtp_host, smtp_starttls }
}

/// The same name, whatever the case of its ASCII letters.
pub open spec fn is_named(domain: Seq<char>, name: &str) -> bool {
    lowered(domain) == lowered(name@)
}

/// The providers most people actually have, by the domains of their addresses.
///
/// Worth keeping small and worth keeping honest: an entry here is a promise
/// that these settings work, and a wrong one fails as "your password is wrong".
/// Proton has no direct IMAP, so its entry is its bridge, on this machine.
pub open spec fn provider(domain: Seq<char>) -> Option<Provider> {
    if is_named(domain, "gmail.com") || is_named(domain, "googlemail.com") {
        Some(entry("Gmail", "imap.gmail.com", "smtp.gmail.com", false))
    } else if is_named(domain, "outlook.com") || is_named(domain, "hotmail.com") || is_named(domain, "live.com") || is_named(domain, "msn.com") || is_named(domain, "passport.com") {
        Some(entry("Outlook", "outlook.office365.com", "smtp-mail.outlook.com", true))
    } else if is_named(domain, "fastmail.com") || is_named(domain, "fastmail.fm") || is_named(domain, "messagingengine.com") {
        Some(entry("Fastmail", "imap.fastmail.com", "smtp.fastmail.com", false))
    } else if is_named(domain, "icloud.com") || is_named(domain, "me.com") || is_named(domain, "mac.com") {
        Some(entry("iCloud", "imap.mail.me.com", "smtp.mail.me.com", true))
    } else if is_named(domain, "yahoo.com") || is_named(domain, "yahoo.co.uk") || is_named(domain, "ymail.com") || is_named(domain, "rocketmail.com") {
        Some(entry("Yahoo", "imap.mail.yahoo.com", "smtp.mail.yahoo.com", false))
    } else if is_named(domain, "protonmail.com") || is_named(domain, "proton.me") || is_named(domain, "pm.me") {
        Some(entry("Proton Mail Bridge", "127.0.0.1", "127.0.0.1", true))
    } else if is_named(domain, "zoho.com") || is_named(domain, "zohomail.com") {
        Some(entry("Zoho Mail", "imap.zoho.com", "smtp.zoho.com", false))
    } else if is_named(domain, "gmx.com") || is_named(domain, "gmx.net") || is_named(domain, "gmx.de") || is_named(domain, "gmx.at") || is_named(domain, "gmx.ch") {
        Some(entry("GMX", "imap.gmx.net", "mail.gmx.net", false))
    } else if is_named(domain, "mail.com") || is_named(domain, "email.com") || is_named(domain, "usa.com") {
        Some(entry("mail.com", "imap.mail.com", "smtp.mail.com", false))
    } else if is_named(domain, "posteo.de") || is_named(domain, "posteo.net") {
        Some(entry("Posteo", "posteo.de", "posteo.de", false))
    } else if is_named(domain, "mailbox.org") {
        Some(entry("mailbox.org", "imap.mailbox.org", "smtp.mailbox.org", false))
    } else if is_named(domain, "migadu.com") {
        Some(entry("Migadu", "imap.migadu.com", "smtp.migadu.com", false))
    } else if is_named(domain, "yandex.com") || is_named(domain, "yandex.ru") || is_named(domain, "ya.ru") {
        Some(entry("Yandex Mail", "imap.yandex.com", "smtp.yandex.com", false))
    } else if is_named(domain, "aol.com") || is_named(domain, "aim.com") {
        Some(entry("AOL", "imap.aol.com", "smtp.aol.com", false))
    } else {
        None
    }
}

fn provider_of(domain: &[char]) -> (r: Option<Provider>)
    ensures
        r == provider(domain@),
{
    if same_folded(domain, "gmail.com") || same_folded(domain, "googlemail.com") {
        Some(entry_of("Gmail", "imap.gmail.com", "smtp.gmail.com", false))
    } else if same_folded(domain, "outlook.com") || same_folded(domain, "hotmail.com") || same_folded(domain, "live.com") || same_folded(domain, "msn.com") || same_folded(domain, "passport.com") {
        Some(entry_of("Outlook", "outlook.office365.com", "smtp-mail.outlook.com", true))
    } else if same_folded(domain, "fastmail.com") || same_folded(domain, "fastmail.fm") || same_folded(domain, "messagingengine.com") {
        Some(entry_of("Fastmail", "imap.fastmail.com", "smtp.fastmail.com", false))
    } else if same_folded(domain, "icloud.com") || same_folded(domain, "me.com") || same_folded(domain, "mac.com") {
        Some(entry_of("iCloud", "imap.mail.me.com", "smtp.mail.me.com", true))
    } else if same_folded(domain, "yahoo.com") || same_folded(domain, "yahoo.co.uk") || same_folded(domain, "ymail.com") || same_folded(domain, "rocketmail.com") {
        Some(entry_of("Yahoo", "imap.mail.yahoo.com", "smtp.mail.yahoo.com", false))
    } else if same_folded(domain, "protonmail.com") || same_folded(domain, "proton.me") || same_folded(domain, "pm.me") {
        Some(entry_of("Proton Mail Bridge", "127.0.0.1", "127.0.0.1", true))
    } else if same_folded(domain, "zoho.com") || same_folded(domain, "zohomail.com") {
        Some(entry_of("Zoho Mail", "imap.zoho.com", "smtp.zoho.com", false))
    } else if same_folded(domain, "gmx.com") || same_folded(domain, "gmx.net") || same_folded(domain, "gmx.de") || same_folded(domain, "gmx.at") || same_folded(domain, "gmx.ch") {
        Some(entry_of("GMX", "imap.gmx.net", "mail.gmx.net", false))
    } else if same_folded(domain, "mail.com") || same_folded(domain, "email.com") || same_folded(domain, "usa.com") {
        Some(entry_of("mail.com", "imap.mail.com", "smtp.mail.com", false))
    } else if same_folded(domain, "posteo.de") || same_folded(domain, "posteo.net") {
        Some(entry_of("Posteo", "posteo.de", "posteo.de", false))
    } else if same_folded(domain, "mailbox.org") {
        Some(entry_of("mailbox.org", "imap.mailbox.org", "smtp.mailbox.org", false))
    } else if same_folded(domain, "migadu.com") {
        Some(entry_of("Migadu", "imap.migadu.com", "smtp.migadu.com", false))
    } else if same_folded(domain, "yandex.com") || same_folded(domain, "yandex.ru") || same_folded(domain, "ya.ru") {
        Some(entry_of("Yandex Mail", "imap.yandex.com", "smtp.yandex.com", false))
    } else if same_folded(domain, "aol.com") || same_folded(domain, "aim.com") {
        Some(entry_of("AOL", "imap.aol.com", "smtp.aol.com", false))
    } else {
        None
    }
}

/// What the table answers for an address at `domain`.
pub open spec fn table_answer(domain: Seq<char>, email: Seq<char>) -> Option<Settings> {
    match provider(domain) {
        None => None,
        Some(p) => Some(
            Settings {
                display_name: p.display_name@,
                imap_host: p.imap_host@,
                imap_port: 993,
                imap_security: Security::Tls,
                smtp_host: p.smtp_host@,
                smtp_port: if p.smtp_starttls {
                    587
                } else {
                    465
                },
                smtp_security: if p.smtp_starttls {
                    Security::StartTls
                } else {
                    Security::Tls
                },
                username: email,
                source: Source::Known,
            },
        ),
    }
}

fn from_table(domain: &str, email: &str) -> (r: Option<Discovered>)
    ensures
        settings(r) == table_answer(domain@, email@),
{
    match provider_of(&to_chars(domain)) {
        None => None,
        Some(p) => Some(
            Discovered {
                display_name: p.display_name.to_owned(),
                imap_host: p.imap_host.to_owned(),
                imap_port: 993,
                imap_security: Security::Tls,
                smtp_host: p.smtp_host.to_owned(),
                smtp_port: if p.smtp_starttls {
                    587
                } else {
                    465
                },
                smtp_security: if p.smtp_starttls {
                    Security::StartTls
                } else {
                    Security::Tls
                },
                username: email.to_owned(),
                source: Source::Known,
            },
        ),
    }
}

/// The table's answer for an address, with no network at all.
pub open spec fn known_answer(email: Seq<char>) -> Option<Settings> {
    match domain_in(email) {
        Ok(domain) => table_answer(domain, email),
        Err(_) => None,
    }
}

/// The table only, with no network at all: cheap enough to ask on every
/// keystroke while somebody types their address.
#[must_use]
pub fn known(email: &str) -> (r: Option<Discovered>)
    ensures
        settings(r) == known_answer(email@),
{
    match domain_of(email) {
        Ok(domain) => from_table(&domain, email),
        Err(_) => None,
    }
}

// ---- autoconfig ----

/// A byte that stands for itself in a URL query.
pub open spec fn unreserved(b: u8) -> bool {
    ||| 48 <= b <= 57
    ||| 65 <= b <= 90
    ||| 97 <= b <= 122
    ||| b == 45
    ||| b == 95
    ||| b == 46
    ||| b == 126
}

pub open spec fn percent_byte(b: u8) -> Seq<char> {
    if unreserved(b) {
        seq![b as char]
    } else {
        seq!['%'] + hex(b as nat, 2, true)
    }
}

/// Bytes with everything a URL query would read as syntax written as `%XX`.
pub open spec fn percent_encoded(bytes: Seq<u8>) -> Seq<char>
    decreases bytes.len(),
{
    if bytes.len() == 0 {
        Seq::empty()
    } else {
        percent_encoded(bytes.drop_last()) + percent_byte(bytes.last())
    }
}

/// Percent-encodes everything a URL query would otherwise read as syntax.
#[must_use]
pub fn percent_encode(value: &str) -> (r: String)
    ensures
        r@ == percent_encoded(encode_utf8(value@)),
{
    let b: &[u8] = value.as_bytes();
    let mut out: Vec<char> = Vec::new();
    let mut i: usize = 0;
    assert(b@.take(0) =~= Seq::<u8>::empty());
    while i < b.len()
        invariant
            i <= b@.len(),
            out@ == percent_encoded(b@.take(i as int)),
        decreases b@.len() - i,
    {
        let c: u8 = b[i];
        proof {
            assert(b@.take(i + 1).drop_last() =~= b@.take(i as int));
            assert(b@.take(i + 1).last() == c);
        }
        let ghost before = out@;
        if (48 <= c && c <= 57) || (65 <= c && c <= 90) || (97 <= c && c <= 122) || c == 45 || c
            == 95 || c == 46 || c == 126 {
            out.push(ascii(c));
            assert(out@ =~= before + percent_byte(c));
        } else {
            out.push('%');
            let h: Vec<char> = hexadecimal(c as u64, 2, true);
            push_all(&mut out, &h);
            assert(out@ =~= before + percent_byte(c));
        }
        i = i + 1;
    }
    assert(b@.take(i as int) =~= b@);
    to_text(&out)
}

/// The canonical autoconfig locations, in the order they are asked: the
/// provider's own document, the well-known path on the domain itself, then
/// Mozilla's database of providers that never published one.
pub open spec fn autoconfig_url(i: int, domain: Seq<char>, email: Seq<char>) -> Seq<char> {
    if i == 0 {
        "https://autoconfig."@ + domain + "/mail/config-v1.1.xml?emailaddress="@ + percent_encoded(
            encode_utf8(email),
        )
    } else if i == 1 {
        "https://"@ + domain + "/.well-known/autoconfig/mail/config-v1.1.xml?emailaddress="@
            + percent_encoded(encode_utf8(email))
    } else {
        "https://autoconfig.thunderbird.net/v1.1/"@ + domain
    }
}

/// The autoconfig locations for an address.
#[must_use]
pub fn autoconfig_urls(domain: &str, email: &str) -> (r: [String; 3])
    ensures
        forall|i: int| 0 <= i < 3 ==> (#[trigger] r@[i])@ == autoconfig_url(i, domain@, email@),
{
    let d: Vec<char> = to_chars(domain);
    // The domain is validated, but the local part is not and can carry URL
    // metacharacters.
    let e: String = percent_encode(email);
    let mut a: Vec<char> = to_chars("https://autoconfig.");
    push_all(&mut a, &d);
    push_text(&mut a, "/mail/config-v1.1.xml?emailaddress=");
    push_text(&mut a, &e);
    let mut b: Vec<char> = to_chars("https://");
    push_all(&mut b, &d);
    push_text(&mut b, "/.well-known/autoconfig/mail/config-v1.1.xml?emailaddress=");
    push_text(&mut b, &e);
    let mut c: Vec<char> = to_chars("https://autoconfig.thunderbird.net/v1.1/");
    push_all(&mut c, &d);
    [to_text(&a), to_text(&b), to_text(&c)]
}

/// What a document's socket type means. `plain` is a real value there and is
/// never something to configure silently: it counts as unspecified.
pub open spec fn socket_kind(s: Seq<char>) -> Option<Security> {
    if uppered(s) == "SSL"@ || uppered(s) == "TLS"@ {
        Some(Security::Tls)
    } else if uppered(s) == "STARTTLS"@ {
        Some(Security::StartTls)
    } else {
        None
    }
}

#[must_use]
pub fn socket_security(socket_type: &str) -> (r: Option<Security>)
    ensures
        r == socket_kind(socket_type@),
{
    let up: Vec<char> = upper_of(&to_chars(socket_type));
    if spells(&up, "SSL") || spells(&up, "TLS") {
        Some(Security::Tls)
    } else if spells(&up, "STARTTLS") {
        Some(Security::StartTls)
    } else {
        None
    }
}

/// The convention when a document does not say: 993 and 465 are wrapped TLS,
/// everything else is STARTTLS.
pub open spec fn port_security(port: u16) -> Security {
    if port == 993 || port == 465 {
        Security::Tls
    } else {
        Security::StartTls
    }
}

#[must_use]
pub fn security_for_port(port: u16) -> (r: Security)
    ensures
        r == port_security(port),
{
    match port {
        993 | 465 => Security::Tls,
        _ => Security::StartTls,
    }
}

/// What stands before the first `@`, or the whole of it.
pub open spec fn local_part(email: Seq<char>) -> Seq<char> {
    split_on(email, Class::Is('@'))[0]
}

/// `%EMAILADDRESS%` and `%EMAILLOCALPART%` filled in.
pub open spec fn login(template: Seq<char>, email: Seq<char>) -> Seq<char> {
    replaced(
        replaced(template, "%EMAILADDRESS%"@, email),
        "%EMAILLOCALPART%"@,
        local_part(email),
    )
}

#[must_use]
pub fn expand_username(template: &str, email: &str) -> (r: String)
    ensures
        r@ == login(template@, email@),
{
    let e: Vec<char> = to_chars(email);
    let parts: Vec<Vec<char>> = split_of(&e, Class::Is('@'));
    proof {
        assert(pieces(parts@).len() == parts@.len());
        assert(pieces(parts@)[0] == parts@[0]@);
    }
    let once: Vec<char> = replace_of(&to_chars(template), "%EMAILADDRESS%", &e);
    to_text(&replace_of(&once, "%EMAILLOCALPART%", &parts[0]))
}

/// One server of a document, as far as it has been read.
#[derive(Debug)]
pub struct Server {
    pub host: String,
    pub port: u16,
    pub security: Option<Security>,
    pub username: String,
}

pub struct ServerText {
    pub host: Seq<char>,
    pub port: u16,
    pub security: Option<Security>,
    pub username: Seq<char>,
}

pub open spec fn no_server() -> ServerText {
    ServerText { host: Seq::empty(), port: 0, security: None, username: Seq::empty() }
}

impl ServerText {
    /// This server after an element's text.
    pub open spec fn with(self, element: Seq<char>, value: Seq<char>, email: Seq<char>) -> Self {
        if element == "hostname"@ {
            ServerText { host: value, ..self }
        } else if element == "port"@ {
            ServerText {
                port: match unsigned(value, 65535) {
                    Some(n) => n as u16,
                    None => 0,
                },
                ..self
            }
        } else if element == "socketType"@ {
            ServerText { security: socket_kind(value), ..self }
        } else if element == "username"@ {
            ServerText { username: login(value, email), ..self }
        } else {
            self
        }
    }
}

impl Server {
    pub open spec fn view(&self) -> ServerText {
        ServerText {
            host: self.host@,
            port: self.port,
            security: self.security,
            username: self.username@,
        }
    }

    fn new() -> (r: Self)
        ensures
            r@ == no_server(),
    {
        let r: Server = Server {
            host: String::new(),
            port: 0,
            security: None,
            username: String::new(),
        };
        assert(r.host@ =~= Seq::<char>::empty() && r.username@ =~= Seq::<char>::empty());
        r
    }

    fn set(&mut self, element: &str, value: &[char], email: &str)
        ensures
            final(self)@ == old(self)@.with(element@, value@, email@),
    {
        if same(element, "hostname") {
            self.host = to_text(value);
        } else if same(element, "port") {
            self.port = match parse_unsigned(value, 65535) {
                Some(n) => n as u16,
                None => 0,
            };
        } else if same(element, "socketType") {
            self.security = socket_security(&to_text(value));
        } else if same(element, "username") {
            self.username = expand_username(&to_text(value), email);
        }
    }
}

/// A document, as far as it has been read.
#[derive(Debug)]
pub struct Reading {
    pub display_name: String,
    pub imap: Server,
    pub smtp: Server,
    pub in_incoming: bool,
    pub in_outgoing: bool,
    pub incoming_is_imap: bool,
    pub element: String,
}

pub struct ReadingText {
    pub display_name: Seq<char>,
    pub imap: ServerText,
    pub smtp: ServerText,
    pub in_incoming: bool,
    pub in_outgoing: bool,
    pub incoming_is_imap: bool,
    pub element: Seq<char>,
}

pub open spec fn nothing_read() -> ReadingText {
    ReadingText {
        display_name: Seq::empty(),
        imap: no_server(),
        smtp: no_server(),
        in_incoming: false,
        in_outgoing: false,
        incoming_is_imap: false,
        element: Seq::empty(),
    }
}

pub open spec fn type_bytes() -> Seq<u8> {
    seq![116u8, 121u8, 112u8, 101u8]
}

pub open spec fn imap_bytes() -> Seq<u8> {
    seq![105u8, 109u8, 97u8, 112u8]
}

/// Does some attribute say `type="imap"`?
pub open spec fn says_imap(attributes: Seq<Option<(Seq<u8>, Seq<u8>)>>) -> bool {
    exists|i: int|
        0 <= i < attributes.len() && #[trigger] attributes[i] == Some((type_bytes(), imap_bytes()))
}

impl ReadingText {
    /// After one more event. Only IMAP is usable: a POP3 block is an answer to
    /// a different question, and falls through as if it were not there.
    pub open spec fn step(self, e: XmlStep, email: Seq<char>) -> Self {
        match e {
            XmlStep::Start { name, attributes } => {
                let named = ReadingText { element: name, ..self };
                if name == "incomingServer"@ {
                    ReadingText {
                        in_incoming: true,
                        incoming_is_imap: says_imap(attributes),
                        ..named
                    }
                } else if name == "outgoingServer"@ {
                    ReadingText { in_outgoing: true, ..named }
                } else {
                    named
                }
            },
            XmlStep::End { name } => {
                let left = ReadingText { element: Seq::empty(), ..self };
                if name == "incomingServer"@ {
                    ReadingText { in_incoming: false, ..left }
                } else if name == "outgoingServer"@ {
                    ReadingText { in_outgoing: false, ..left }
                } else {
                    left
                }
            },
            XmlStep::Text(text) => {
                let value = match text {
                    Some(t) => trimmed(t),
                    None => Seq::empty(),
                };
                if value.len() == 0 {
                    self
                } else if self.in_incoming && self.incoming_is_imap {
                    ReadingText { imap: self.imap.with(self.element, value, email), ..self }
                } else if self.in_outgoing {
                    ReadingText { smtp: self.smtp.with(self.element, value, email), ..self }
                } else if self.element == "displayName"@ && self.display_name.len() == 0 {
                    ReadingText { display_name: value, ..self }
                } else {
                    self
                }
            },
            XmlStep::Other => self,
        }
    }

    /// What a document that has been read to its end says: nothing, unless it
    /// names both servers by hosts that may be offered. A port that was left
    /// out is filled in before the security is derived from it.
    pub open spec fn answer(self, email: Seq<char>) -> Option<Settings> {
        if !probe_host(self.imap.host) || !probe_host(self.smtp.host) {
            None
        } else {
            let imap_port: u16 = if self.imap.port == 0 {
                993
            } else {
                self.imap.port
            };
            let smtp_port: u16 = if self.smtp.port == 0 {
                465
            } else {
                self.smtp.port
            };
            Some(
                Settings {
                    display_name: self.display_name,
                    imap_host: self.imap.host,
                    imap_port,
                    imap_security: match self.imap.security {
                        Some(s) => s,
                        None => port_security(imap_port),
                    },
                    smtp_host: self.smtp.host,
                    smtp_port,
                    smtp_security: match self.smtp.security {
                        Some(s) => s,
                        None => port_security(smtp_port),
                    },
                    username: if self.imap.username.len() == 0 {
                        email
                    } else {
                        self.imap.username
                    },
                    source: Source::Autoconfig,
                },
            )
        }
    }
}

/// A document read event by event.
pub open spec fn read_through(events: Seq<XmlStep>, email: Seq<char>) -> ReadingText
    decreases events.len(),
{
    if events.len() == 0 {
        nothing_read()
    } else {
        read_through(events.drop_last(), email).step(events.last(), email)
    }
}

/// What a document with these events says of an address.
pub open spec fn autoconfig_answer(events: Seq<XmlStep>, email: Seq<char>) -> Option<Settings> {
    read_through(events, email).answer(email)
}

fn attributes_say_imap(attributes: &Vec<Option<(Vec<u8>, Vec<u8>)>>) -> (r: bool)
    ensures
        r == says_imap(
            attributes@.map_values(
                |a: Option<(Vec<u8>, Vec<u8>)>| crate::xml::attribute_view(a),
            ),
        ),
{
    let type_is: [u8; 4] = [116, 121, 112, 101];
    let imap_is: [u8; 4] = [105, 109, 97, 112];
    proof {
        assert(type_is@ =~= type_bytes());
        assert(imap_is@ =~= imap_bytes());
    }
    let ghost all = attributes@.map_values(
        |a: Option<(Vec<u8>, Vec<u8>)>| crate::xml::attribute_view(a),
    );
    let mut i: usize = 0;
    while i < attributes.len()
        invariant
            i <= attributes@.len(),
            type_is@ == type_bytes(),
            imap_is@ == imap_bytes(),
            all == attributes@.map_values(
                |a: Option<(Vec<u8>, Vec<u8>)>| crate::xml::attribute_view(a),
            ),
            forall|j: int|
                0 <= j < i ==> #[trigger] all[j] != Some((type_bytes(), imap_bytes())),
        decreases attributes@.len() - i,
    {
        assert(all[i as int] == crate::xml::attribute_view(attributes@[i as int]));
        match &attributes[i] {
            Some((k, v)) => {
                if same_bytes(k.as_slice(), &type_is) && same_bytes(v.as_slice(), &imap_is) {
                    return true;
                }
            },
            None => {},
        }
        i = i + 1;
    }
    false
}

impl Reading {
    pub open spec fn view(&self) -> ReadingText {
        ReadingText {
            display_name: self.display_name@,
            imap: self.imap@,
            smtp: self.smtp@,
            in_incoming: self.in_incoming,
            in_outgoing: self.in_outgoing,
            incoming_is_imap: self.incoming_is_imap,
            element: self.element@,
        }
    }

    fn new() -> (r: Self)
        ensures
            r@ == nothing_read(),
    {
        let r: Reading = Reading {
            display_name: String::new(),
            imap: Server::new(),
            smtp: Server::new(),
            in_incoming: false,
            in_outgoing: false,
            incoming_is_imap: false,
            element: String::new(),
        };
        assert(r.display_name@ =~= Seq::<char>::empty() && r.element@ =~= Seq::<char>::empty());
        r
    }

    fn take(&mut self, event: &XmlEvent, email: &str)
        ensures
            final(self)@ == old(self)@.step(event@, email@),
    {
        match event {
            XmlEvent::Start { name, attributes } => {
                self.element = name.clone();
                if same(name, "incomingServer") {
                    self.in_incoming = true;
                    self.incoming_is_imap = attributes_say_imap(attributes);
                } else if same(name, "outgoingServer") {
                    self.in_outgoing = true;
                }
            },
            XmlEvent::End { name } => {
                if same(name, "incomingServer") {
                    self.in_incoming = false;
                } else if same(name, "outgoingServer") {
                    self.in_outgoing = false;
                }
                self.element = String::new();
                assert(self.element@ =~= Seq::<char>::empty());
            },
            XmlEvent::Text(text) => {
                let raw: Vec<char> = match text {
                    Some(t) => to_chars(t),
                    None => Vec::new(),
                };
                let value: &[char] = trim_of(&raw);
                proof {
                    if text is None {
                        assert(raw@ =~= Seq::<char>::empty());
                        crate::chars::lemma_trimmed_part(raw@);
                        assert(value@ =~= Seq::<char>::empty());
                    }
                }
                if value.len() == 0 {
                    return ;
                }
                if self.in_incoming && self.incoming_is_imap {
                    self.imap.set(&self.element, value, email);
                } else if self.in_outgoing {
                    self.smtp.set(&self.element, value, email);
                } else if same(&self.element, "displayName") && to_chars(&self.display_name).len()
                    == 0 {
                    self.display_name = to_text(value);
                }
            },
            XmlEvent::Other => {},
        }
    }

    fn conclude(self, email: &str) -> (r: Option<Discovered>)
        ensures
            settings(r) == self@.answer(email@),
    {
        if !is_probe_host(&self.imap.host) || !is_probe_host(&self.smtp.host) {
            return None;
        }
        let imap_port: u16 = if self.imap.port == 0 {
            993
        } else {
            self.imap.port
        };
        let smtp_port: u16 = if self.smtp.port == 0 {
            465
        } else {
            self.smtp.port
        };
        Some(
            Discovered {
                display_name: self.display_name,
                imap_port,
                imap_security: match self.imap.security {
                    Some(s) => s,
                    None => security_for_port(imap_port),
                },
                smtp_port,
                smtp_security: match self.smtp.security {
                    Some(s) => s,
                    None => security_for_port(smtp_port),
                },
                username: if to_chars(&self.imap.username).len() == 0 {
                    email.to_owned()
                } else {
                    self.imap.username
                },
                imap_host: self.imap.host,
                smtp_host: self.smtp.host,
                source: Source::Autoconfig,
            },
        )
    }
}

pub open spec fn steps(events: Seq<XmlEvent>) -> Seq<XmlStep> {
    events.map_values(|e: XmlEvent| e@)
}

/// Reads the parts of a `clientConfig` document that say where to connect, from
/// its events.
///
/// Tolerant on purpose: these documents are written by hand by hundreds of
/// providers, and anything not understood is skipped.
#[must_use]
pub fn read_autoconfig(events: &[XmlEvent], email: &str) -> (r: Option<Discovered>)
    ensures
        settings(r) == autoconfig_answer(steps(events@), email@),
{
    let mut reading: Reading = Reading::new();
    let ghost all = steps(events@);
    let mut i: usize = 0;
    assert(all.take(0) =~= Seq::<XmlStep>::empty());
    while i < events.len()
        invariant
            i <= events@.len(),
            all == steps(events@),
            reading@ == read_through(all.take(i as int), email@),
        decreases events@.len() - i,
    {
        reading.take(&events[i], email);
        proof {
            assert(all.take(i + 1).drop_last() =~= all.take(i as int));
            assert(all.take(i + 1).last() == events@[i as int]@);
        }
        i = i + 1;
    }
    assert(all.take(i as int) =~= all);
    reading.conclude(email)
}

/// Reads the parts of a `clientConfig` document that say where to connect.
#[must_use]
pub fn parse_autoconfig(xml: &str, email: &str) -> (r: Option<Discovered>)
    ensures
        settings(r) == autoconfig_answer(xml_events(xml@), email@),
{
    let mut reader = open_xml(xml);
    let mut events: Vec<XmlEvent> = Vec::new();
    let ghost all = xml_events(xml@);
    assert(steps(events@) + crate::xml::coming(reader) =~= all);
    loop
        invariant_except_break
            steps(events@) + crate::xml::coming(reader) == all,
        ensures
            steps(events@) == all,
        decreases crate::xml::coming(reader).len(),
    {
        let ghost before = crate::xml::coming(reader);
        let ghost had = events@;
        match next_event(&mut reader) {
            Some(e) => {
                let ghost seen = e@;
                events.push(e);
                proof {
                    assert(steps(events@) =~= steps(had).push(seen));
                    assert(steps(events@) + crate::xml::coming(reader) =~= steps(had) + before);
                }
            },
            None => {
                assert(steps(events@) =~= all);
                break ;
            },
        }
    }
    read_autoconfig(&events, email)
}

// ---- the guess, and the cascade ----

/// The hostnames self-hosted mail nearly always uses, in the order they are
/// tried.
pub open spec fn guess_prefix(i: int) -> Seq<char> {
    if i == 0 {
        "imap."@
    } else if i == 1 {
        "mail."@
    } else {
        ""@
    }
}

pub open spec fn guess_host(i: int, domain: Seq<char>) -> Seq<char> {
    guess_prefix(i) + domain
}

/// What is offered once something listens at a guessed host. The submission
/// host is not probed separately: the send path will report on it anyway.
pub open spec fn guess_answer(i: int, domain: Seq<char>, email: Seq<char>) -> Settings {
    Settings {
        display_name: Seq::empty(),
        imap_host: guess_host(i, domain),
        imap_port: 993,
        imap_security: Security::Tls,
        smtp_host: if i == 0 {
            "smtp."@ + domain
        } else {
            guess_host(i, domain)
        },
        smtp_port: 465,
        smtp_security: Security::Tls,
        username: email,
        source: Source::Guessed,
    }
}

fn prefix_of(i: usize) -> (r: &'static str)
    ensures
        r@ == guess_prefix(i as int),
{
    if i == 0 {
        "imap."
    } else if i == 1 {
        "mail."
    } else {
        ""
    }
}

fn guess_host_of(i: usize, domain: &str) -> (r: String)
    ensures
        r@ == guess_host(i as int, domain@),
{
    let mut v: Vec<char> = to_chars(prefix_of(i));
    push_text(&mut v, domain);
    to_text(&v)
}

fn guessed(i: usize, domain: &str, email: &str) -> (r: Discovered)
    ensures
        r@ == guess_answer(i as int, domain@, email@),
{
    let smtp_host: String = if i == 0 {
        let mut v: Vec<char> = to_chars("smtp.");
        push_text(&mut v, domain);
        to_text(&v)
    } else {
        guess_host_of(i, domain)
    };
    let r: Discovered = Discovered {
        display_name: String::new(),
        imap_host: guess_host_of(i, domain),
        imap_port: 993,
        imap_security: Security::Tls,
        smtp_host,
        smtp_port: 465,
        smtp_security: Security::Tls,
        username: email.to_owned(),
        source: Source::Guessed,
    };
    assert(r.display_name@ =~= Seq::<char>::empty());
    r
}

/// What came back from one probe.
#[derive(Debug, Clone)]
pub enum Reply {
    /// A document was asked for: its text, if there was one to be had.
    Document(Option<String>),
    /// A connection was tried: whether anything accepted it.
    Listening(bool),
}

/// Where a lookup stands.
#[derive(Debug)]
pub enum Step {
    /// Settled.
    Found(Discovered),
    /// Fetch the document at this URL, without following redirects, and call
    /// again with what came back.
    Fetch(String),
    /// Try a connection to port 993 of this host, at its public addresses only,
    /// and call again with whether it was accepted.
    Connect(String),
}

pub enum StepText {
    Found(Settings),
    Fetch(Seq<char>),
    Connect(Seq<char>),
    Failed(Seq<char>),
}

impl Step {
    pub open spec fn view(&self) -> StepText {
        match self {
            Step::Found(d) => StepText::Found(d@),
            Step::Fetch(u) => StepText::Fetch(u@),
            Step::Connect(h) => StepText::Connect(h@),
        }
    }
}

/// The settings a reply carries, where it is a document that carries some.
pub open spec fn document_answer(reply: Reply, email: Seq<char>) -> Option<Settings> {
    match reply {
        Reply::Document(Some(body)) => autoconfig_answer(xml_events(body@), email),
        _ => None,
    }
}

/// The cascade from the `i`-th autoconfig location on.
pub open spec fn fetching(
    i: nat,
    replies: Seq<Reply>,
    domain: Seq<char>,
    email: Seq<char>,
) -> StepText
    decreases 3 - i,
{
    if i >= 3 {
        guessing(0, 3, replies, domain, email)
    } else if i >= replies.len() {
        StepText::Fetch(autoconfig_url(i as int, domain, email))
    } else {
        match document_answer(replies[i as int], email) {
            Some(s) => StepText::Found(s),
            None => fetching(i + 1, replies, domain, email),
        }
    }
}

/// The cascade from the `g`-th guess on, whose reply, if it is probed, is the
/// `at`-th.
pub open spec fn guessing(
    g: nat,
    at: nat,
    replies: Seq<Reply>,
    domain: Seq<char>,
    email: Seq<char>,
) -> StepText
    decreases 3 - g,
{
    if g >= 3 {
        StepText::Failed(
            "nothing at "@ + domain
                + " answered, so its settings have to be entered by hand"@,
        )
    } else if !probe_host(guess_host(g as int, domain)) {
        guessing(g + 1, at, replies, domain, email)
    } else if at >= replies.len() {
        StepText::Connect(guess_host(g as int, domain))
    } else if replies[at as int] == Reply::Listening(true) {
        StepText::Found(guess_answer(g as int, domain, email))
    } else {
        guessing(g + 1, at + 1, replies, domain, email)
    }
}

/// Where the lookup of an address stands after these replies.
pub open spec fn lookup(email: Seq<char>, replies: Seq<Reply>) -> StepText {
    match domain_in(email) {
        Err(m) => StepText::Failed(m),
        Ok(domain) => match table_answer(domain, email) {
            Some(s) => StepText::Found(s),
            None => fetching(0, replies, domain, email),
        },
    }
}

/// Works out where `email`'s mail lives, one probe at a time: what is known
/// after `replies`, in the order their probes were asked for, or the next probe
/// to make.
pub fn discover(email: &str, replies: &[Reply]) -> (r: Result<Step>)
    ensures
        match r {
            Ok(step) => lookup(email@, replies@) == step@,
            Err(Error::Discovery(m)) => lookup(email@, replies@) == StepText::Failed(m@),
            Err(_) => false,
        },
{
    let domain: String = match domain_of(email) {
        Ok(d) => d,
        Err(e) => {
            return Err(e);
        },
    };
    if let Some(found) = from_table(&domain, email) {
        return Ok(Step::Found(found));
    }
    let mut i: usize = 0;
    while i < 3
        invariant
            i <= 3,
            lookup(email@, replies@) == fetching(i as nat, replies@, domain@, email@),
        decreases 3 - i,
    {
        if i >= replies.len() {
            let urls: [String; 3] = autoconfig_urls(&domain, email);
            assert(urls@[i as int]@ == autoconfig_url(i as int, domain@, email@));
            return Ok(Step::Fetch(urls[i].clone()));
        }
        if let Reply::Document(Some(body)) = &replies[i] {
            if let Some(found) = parse_autoconfig(body, email) {
                return Ok(Step::Found(found));
            }
        }
        i = i + 1;
    }
    let mut g: usize = 0;
    let mut at: usize = 3;
    while g < 3
        invariant
            g <= 3,
            at <= 3 + g,
            lookup(email@, replies@) == guessing(g as nat, at as nat, replies@, domain@, email@),
        decreases 3 - g,
    {
        let host: String = guess_host_of(g, &domain);
        if is_probe_host(&host) {
            if at >= replies.len() {
                return Ok(Step::Connect(host));
            }
            if let Reply::Listening(true) = &replies[at] {
                return Ok(Step::Found(guessed(g, &domain, email)));
            }
            at = at + 1;
        }
        g = g + 1;
    }
    let mut m: Vec<char> = to_chars("nothing at ");
    push_text(&mut m, &domain);
    push_text(&mut m, " answered, so its settings have to be entered by hand");
    Err(Error::Discovery(to_text(&m)))
}

// ---- what holds of every lookup ----

/// No reply a network gives makes a lookup probe or offer a host that the guard
/// refuses: an autoconfig document or a guess is only ever answered with hosts
/// that may be probed, and a connection is only ever tried at one.
pub proof fn every_probed_host_passed_the_guard(email: Seq<char>, replies: Seq<Reply>)
    ensures
        match lookup(email, replies) {
            StepText::Connect(host) => probe_host(host),
            StepText::Found(s) => s.source != Source::Known ==> probe_host(s.imap_host),
            _ => true,
        },
{
    if let Ok(domain) = domain_in(email) {
        lemma_fetching(0, replies, domain, email);
    }
}

proof fn lemma_fetching(i: nat, replies: Seq<Reply>, domain: Seq<char>, email: Seq<char>)
    ensures
        match fetching(i, replies, domain, email) {
            StepText::Connect(host) => probe_host(host),
            StepText::Found(s) => s.source != Source::Known ==> probe_host(s.imap_host),
            _ => true,
        },
    decreases 3 - i,
{
    if i >= 3 {
        lemma_guessing(0, 3, replies, domain, email);
    } else {
        lemma_fetching(i + 1, replies, domain, email);
    }
}

proof fn lemma_guessing(
    g: nat,
    at: nat,
    replies: Seq<Reply>,
    domain: Seq<char>,
    email: Seq<char>,
)
    ensures
        match guessing(g, at, replies, domain, email) {
            StepText::Connect(host) => probe_host(host),
            StepText::Found(s) => s.source != Source::Known ==> probe_host(s.imap_host),
            _ => true,
        },
    decreases 3 - g,
{
    if g < 3 {
        lemma_guessing(g + 1, at, replies, domain, email);
        lemma_guessing(g + 1, at + 1, replies, domain, email);
    }
}

/// The table is asked before any network: where it answers, no reply matters.
pub proof fn the_table_is_asked_first(email: Seq<char>, replies: Seq<Reply>)
    requires
        known_answer(email) is Some,
    ensures
        lookup(email, replies) == StepText::Found(known_answer(email)->0),
{
}

proof fn lemma_one_piece(s: Seq<char>, k: Class)
    requires
        forall|i: int| 0 <= i < s.len() ==> !k.holds(#[trigger] s[i]),
    ensures
        split_on(s, k) == seq![s],
{
    crate::chars::lemma_run_is(s, k, false, s.len() as int);
    assert(split_on(s, k) =~= seq![s]);
}

pub(crate) proof fn lemma_two_pieces(a: Seq<char>, b: Seq<char>)
    requires
        forall|i: int| 0 <= i < a.len() ==> #[trigger] a[i] != '@',
        forall|i: int| 0 <= i < b.len() ==> #[trigger] b[i] != '@',
    ensures
        split_on(a + seq!['@'] + b, Class::Is('@')) == seq![a, b],
{
    let k = Class::Is('@');
    let s = a + seq!['@'] + b;
    assert forall|j: int| 0 <= j < a.len() implies k.holds(#[trigger] s[j]) == false by {
        assert(s[j] == a[j]);
    }
    assert(s[a.len() as int] == '@');
    crate::chars::lemma_run_is(s, k, false, a.len() as int);
    assert(s.take(a.len() as int) =~= a);
    assert(s.skip(a.len() as int + 1) =~= b);
    lemma_one_piece(b, k);
    assert(split_on(s, k) =~= seq![a, b]);
}

/// An address is looked up by what stands behind its `@`, in lower case, and only where that
/// is a dotted name: with nothing in it that a URL would read as syntax, and not made of
/// digits and dots alone.
pub proof fn what_an_address_is_looked_up_by(local: Seq<char>, domain: Seq<char>)
    requires
        local.len() > 0,
        domain.len() > 0,
        forall|i: int| 0 <= i < local.len() ==> #[trigger] local[i] != '@',
        forall|i: int| 0 <= i < domain.len() ==> #[trigger] domain[i] != '@',
    ensures
        ({
            let answer = domain_in(local + seq!['@'] + domain);
            &&& answer is Ok <==> domain.contains('.') && (forall|i: int|
                0 <= i < domain.len() ==> (#[trigger] domain[i]) != ':' && domain[i] != '/'
                    && domain[i] != '\\' && domain[i] != '?' && domain[i] != '#' && domain[i]
                    != '[' && domain[i] != ']' && domain[i] != ' ' && domain[i] as u32 >= 32
                    && domain[i] as u32 != 127) && exists|i: int|
                0 <= i < domain.len() && (#[trigger] domain[i]) != '.' && !('0' <= domain[i]
                    <= '9')
            &&& answer is Ok ==> answer->Ok_0 == lowered(domain)
        }),
{
    lemma_two_pieces(local, domain);
}

/// Without an `@` there is no address to look up.
pub proof fn no_lookup_without_an_address(email: Seq<char>)
    requires
        forall|i: int| 0 <= i < email.len() ==> #[trigger] email[i] != '@',
    ensures
        domain_in(email) is Err,
{
    lemma_one_piece(email, Class::Is('@'));
}

/// Which IPv4 addresses are not public: this host, the private, link-local, shared and
/// multicast networks, those set aside for documentation, and all zeros or all ones.
pub proof fn which_addresses_are_not_public(a: u8, b: u8, c: u8, d: u8)
    ensures
        !public_v4(a as nat, b as nat, c as nat, d as nat) <==> {
            ||| a == 127 || a == 10
            ||| a == 172 && b / 16 == 1
            ||| a == 192 && b == 168
            ||| a == 169 && b == 254
            ||| a == 100 && b / 64 == 1
            ||| a / 16 == 14
            ||| a == 192 && b == 0 && c == 2
            ||| a == 198 && b == 51 && c == 100
            ||| a == 203 && b == 0 && c == 113
            ||| a == 0 && b == 0 && c == 0 && d == 0
            ||| a == 255 && b == 255 && c == 255 && d == 255
        },
{
}

/// What a document is answered with, once both its hosts may be offered: its hosts as they
/// are, its ports or the usual ones, its security or what the port implies, and its user name
/// or the address. With either host missing or refused there is no answer.
pub proof fn what_a_document_is_answered_with(r: ReadingText, email: Seq<char>)
    ensures
        r.answer(email) is Some <==> probe_host(r.imap.host) && probe_host(r.smtp.host),
        r.answer(email) matches Some(s) ==> {
            &&& s.display_name == r.display_name
            &&& s.imap_host == r.imap.host && s.smtp_host == r.smtp.host
            &&& r.imap.port != 0 ==> s.imap_port == r.imap.port
            &&& r.imap.port == 0 ==> s.imap_port == 993
            &&& r.smtp.port != 0 ==> s.smtp_port == r.smtp.port
            &&& r.smtp.port == 0 ==> s.smtp_port == 465
            &&& r.imap.security is Some ==> s.imap_security == r.imap.security->0
            &&& r.smtp.security is Some ==> s.smtp_security == r.smtp.security->0
            &&& r.imap.security is None ==> s.imap_security == if s.imap_port == 993 || s.imap_port
                == 465 {
                Security::Tls
            } else {
                Security::StartTls
            }
            &&& r.smtp.security is None ==> s.smtp_security == if s.smtp_port == 993 || s.smtp_port
                == 465 {
                Security::Tls
            } else {
                Security::StartTls
            }
            &&& s.username == if r.imap.username.len() == 0 {
                email
            } else {
                r.imap.username
            }
        },
{
}

/// What the text of an element is taken for: it belongs to the server whose block it stands
/// in, under the name of the element, and leaves the other server alone.
pub proof fn what_an_element_says(r: ReadingText, text: Seq<char>, email: Seq<char>)
    requires
        trimmed(text).len() > 0,
    ensures
        ({
            let after = r.step(XmlStep::Text(Some(text)), email);
            let v = trimmed(text);
            let incoming = r.in_incoming && r.incoming_is_imap;
            &&& incoming ==> after.smtp == r.smtp && after.display_name == r.display_name
            &&& !incoming && r.in_outgoing ==> after.imap == r.imap && after.display_name
                == r.display_name
            &&& !incoming && !r.in_outgoing ==> after.imap == r.imap && after.smtp == r.smtp
            &&& incoming && r.element == "hostname"@ ==> after.imap.host == v
            &&& incoming && r.element == "port"@ ==> after.imap.port == (match unsigned(v, 65535) {
                Some(n) => n as u16,
                None => 0,
            }) && after.imap.host == r.imap.host
            &&& incoming && r.element == "username"@ ==> after.imap.username == login(v, email)
            &&& !incoming && r.in_outgoing && r.element == "hostname"@ ==> after.smtp.host == v
            &&& !incoming && r.in_outgoing && r.element == "port"@ ==> after.smtp.port == (
            match unsigned(v, 65535) {
                Some(n) => n as u16,
                None => 0,
            }) && after.smtp.host == r.smtp.host
            &&& incoming && r.element == "socketType"@ && (uppered(v) == "SSL"@ || uppered(v)
                == "TLS"@) ==> after.imap.security == Some(Security::Tls)
            &&& incoming && r.element == "socketType"@ && uppered(v) == "STARTTLS"@
                ==> after.imap.security == Some(Security::StartTls)
            &&& incoming && r.element == "socketType"@ && uppered(v) == "PLAIN"@
                ==> after.imap.security is None
            &&& !incoming && !r.in_outgoing && r.element == "displayName"@ && r.display_name.len()
                == 0 ==> after.display_name == v
        }),
{
    reveal_strlit("hostname");
    reveal_strlit("port");
    reveal_strlit("socketType");
    reveal_strlit("username");
    reveal_strlit("SSL");
    reveal_strlit("TLS");
    reveal_strlit("STARTTLS");
    reveal_strlit("PLAIN");
    assert("hostname"@[0] == 'h' && "port"@[0] == 'p' && "socketType"@[0] == 's' && "username"@[0]
        == 'u');
    assert("SSL"@[1] == 'S' && "TLS"@[0] == 'T' && "STARTTLS"@.len() == 8 && "PLAIN"@.len() == 5);
}

/// Only a block for IMAP is read as the incoming server, and a block ends where its element
/// does.
pub proof fn which_block_is_read(
    r: ReadingText,
    attributes: Seq<Option<(Seq<u8>, Seq<u8>)>>,
    email: Seq<char>,
)
    ensures
        ({
            let opened = r.step(
                XmlStep::Start { name: "incomingServer"@, attributes },
                email,
            );
            &&& opened.in_incoming
            &&& opened.incoming_is_imap <==> exists|i: int|
                0 <= i < attributes.len() && (#[trigger] attributes[i]) == Some(
                    (seq![116u8, 121u8, 112u8, 101u8], seq![105u8, 109u8, 97u8, 112u8]),
                )
            &&& opened.imap == r.imap && opened.smtp == r.smtp
        }),
        r.step(XmlStep::Start { name: "outgoingServer"@, attributes }, email).in_outgoing,
        !r.step(XmlStep::End { name: "incomingServer"@ }, email).in_incoming,
        !r.step(XmlStep::End { name: "outgoingServer"@ }, email).in_outgoing,
{
    reveal_strlit("incomingServer");
    reveal_strlit("outgoingServer");
    assert("incomingServer"@[0] == 'i' && "outgoingServer"@[0] == 'o');
}

/// The documents are asked for in turn, and the first that answers is the answer.
pub proof fn the_first_document_that_answers_counts(
    email: Seq<char>,
    domain: Seq<char>,
    replies: Seq<Reply>,
    k: int,
)
    requires
        domain_in(email) == Ok::<Seq<char>, Seq<char>>(domain),
        table_answer(domain, email) is None,
        0 <= k < 3,
        k <= replies.len(),
        forall|i: int|
            0 <= i < k ==> document_answer(#[trigger] replies[i], email) is None,
    ensures
        k < replies.len() ==> (document_answer(replies[k], email) matches Some(s) ==> lookup(
            email,
            replies,
        ) == StepText::Found(s)),
        k == replies.len() ==> lookup(email, replies) == StepText::Fetch(
            autoconfig_url(k, domain, email),
        ),
{
    reveal_with_fuel(fetching, 4);
    if k >= 1 {
        assert(document_answer(replies[0], email) is None);
    }
    if k >= 2 {
        assert(document_answer(replies[1], email) is None);
    }
}

/// Where no document answers, the usual hosts of the domain are tried in turn, and what is
/// offered is the first that listens.
pub proof fn the_first_host_that_listens_counts(
    email: Seq<char>,
    domain: Seq<char>,
    replies: Seq<Reply>,
)
    requires
        domain_in(email) == Ok::<Seq<char>, Seq<char>>(domain),
        table_answer(domain, email) is None,
        replies.len() >= 3,
        forall|i: int|
            0 <= i < 3 ==> document_answer(#[trigger] replies[i], email) is None,
        probe_host("imap."@ + domain),
        probe_host("mail."@ + domain),
        probe_host(domain),
    ensures
        replies.len() == 3 ==> lookup(email, replies) == StepText::Connect("imap."@ + domain),
        replies.len() > 3 && replies[3] == Reply::Listening(true) ==> (lookup(
            email,
            replies,
        ) matches StepText::Found(s) && s.imap_host == "imap."@ + domain && s.smtp_host == "smtp."@
            + domain && s.imap_port == 993 && s.smtp_port == 465 && s.imap_security
            == Security::Tls && s.smtp_security == Security::Tls && s.username == email),
        replies.len() == 4 && replies[3] != Reply::Listening(true) ==> lookup(email, replies)
            == StepText::Connect("mail."@ + domain),
        replies.len() > 4 && replies[3] != Reply::Listening(true) && replies[4]
            == Reply::Listening(true) ==> (lookup(email, replies) matches StepText::Found(s)
            && s.imap_host == "mail."@ + domain && s.smtp_host == "mail."@ + domain),
        replies.len() == 5 && replies[3] != Reply::Listening(true) && replies[4]
            != Reply::Listening(true) ==> lookup(email, replies) == StepText::Connect(domain),
        replies.len() > 5 && replies[3] != Reply::Listening(true) && replies[4]
            != Reply::Listening(true) && replies[5] == Reply::Listening(true) ==> (lookup(
            email,
            replies,
        ) matches StepText::Found(s) && s.imap_host == domain && s.smtp_host == domain),
{
    reveal_with_fuel(fetching, 4);
    reveal_with_fuel(guessing, 4);
    reveal_strlit("");
    assert(document_answer(replies[0], email) is None);
    assert(document_answer(replies[1], email) is None);
    assert(document_answer(replies[2], email) is None);
    assert(""@ + domain =~= domain);
}

/// What the table answers with: the provider's hosts over TLS, or over STARTTLS for sending
/// where the provider wants that, and the whole address as the user name.
pub proof fn what_the_table_answers_with(domain: Seq<char>, email: Seq<char>)
    ensures
        match provider(domain) {
            Some(p) => table_answer(domain, email) matches Some(s) && s.imap_host == p.imap_host@
                && s.smtp_host == p.smtp_host@ && s.display_name == p.display_name@ && s.imap_port
                == 993 && s.imap_security == Security::Tls && s.username == email && (
            if p.smtp_starttls {
                s.smtp_port == 587 && s.smtp_security == Security::StartTls
            } else {
                s.smtp_port == 465 && s.smtp_security == Security::Tls
            }),
            None => table_answer(domain, email) is None,
        },
{
}

/// A percent-encoded text leads back to its bytes.
pub proof fn a_query_reads_back(bytes: Seq<u8>, rest: Seq<char>)
    ensures
        crate::folder::read_local(percent_encoded(bytes) + rest) == bytes
            + crate::folder::read_local(rest),
        forall|i: int|
            0 <= i < percent_encoded(bytes).len() ==> (#[trigger] percent_encoded(bytes)[i])
                != '&' && percent_encoded(bytes)[i] != '#' && percent_encoded(bytes)[i] != '/'
                && percent_encoded(bytes)[i] != '?' && percent_encoded(bytes)[i] != '+'
                && percent_encoded(bytes)[i] != ' ' && percent_encoded(bytes)[i] != '@',
    decreases bytes.len(),
{
    if bytes.len() == 0 {
        assert(percent_encoded(bytes) + rest =~= rest);
        assert(bytes + crate::folder::read_local(rest) =~= crate::folder::read_local(rest));
    } else {
        let t = bytes.drop_last();
        let b = bytes.last();
        let piece = percent_byte(b);
        a_query_reads_back(t, piece + rest);
        assert(percent_encoded(bytes) + rest =~= percent_encoded(t) + (piece + rest));
        let x = piece + rest;
        if unreserved(b) {
            assert(x[0] == b as char);
            assert(x.skip(1) =~= rest);
            assert(x[0] as u8 == b);
        } else {
            reveal_with_fuel(hex, 3);
            assert(hex(b as nat, 2, true) =~= seq![
                crate::numbers::hex_char((b / 16) as nat, true),
                crate::numbers::hex_char((b % 16) as nat, true),
            ]);
            assert(x[0] == '%');
            assert(x.skip(3) =~= rest);
            assert(crate::folder::hex_value(x[1]) == b / 16);
            assert(crate::folder::hex_value(x[2]) == b % 16);
            assert((b / 16) * 16 + b % 16 == b);
        }
        assert(crate::folder::read_local(x) == seq![b] + crate::folder::read_local(rest));
        assert(t + (seq![b] + crate::folder::read_local(rest)) =~= bytes
            + crate::folder::read_local(rest));
        let e = percent_encoded(t);
        assert forall|i: int| 0 <= i < percent_encoded(bytes).len() implies (
        #[trigger] percent_encoded(bytes)[i]) != '&' && percent_encoded(bytes)[i] != '#'
            && percent_encoded(bytes)[i] != '/' && percent_encoded(bytes)[i] != '?'
            && percent_encoded(bytes)[i] != '+' && percent_encoded(bytes)[i] != ' '
            && percent_encoded(bytes)[i] != '@' by {
            if i < e.len() {
                assert(percent_encoded(bytes)[i] == e[i]);
            } else {
                assert(percent_encoded(bytes)[i] == piece[i - e.len()]);
            }
        }
    }
}

} // verus!
