//! Getting attachments out of a message, and safely onto a disk.
//!
//! A filename in a message is a string a stranger chose, and it is about to be
//! joined to a path. [`sanitize`] is the boundary between a message and a
//! filesystem. The rules are stricter than Linux needs, because a saved file
//! travels.

use vstd::prelude::*;

use crate::bytes::copy_slice;
use crate::chars::{control, from_index, is_control, lower_of, lowered, push_all, push_text, rfind, rfind_of,
    spells, strip, strip_of, to_chars, to_text, trim_of, trimmed, up_to, upper_of, uppered, Class};
use crate::error::{Error, Result};
use crate::mime::{is_message, parses};
use crate::model::{parts_in, parts_of, Attachment, Parts, PartsText};
use crate::numbers::{dec, decimal, decimal_reads_back};

verus! {

/// The bytes of one attachment, by its place among them.
pub open spec fn attached_bytes(p: PartsText, index: int) -> Option<Seq<u8>> {
    if 0 <= index < p.attached.len() && (p.attached[index] as int) < p.contents.len() {
        Some(p.contents[p.attached[index] as int])
    } else {
        None
    }
}

/// The bytes of one attachment, from what the parser says of the parts.
pub fn part_bytes(parts: &Parts, index: usize) -> (r: Result<Vec<u8>>)
    ensures
        match r {
            Ok(bytes) => attached_bytes(parts@, index as int) == Some(bytes@),
            Err(Error::Draft(m)) => attached_bytes(parts@, index as int) is None && m@
                == "that attachment is not in the message"@,
            Err(_) => false,
        },
{
    if index < parts.attached.len() {
        let i: usize = parts.attached[index] as usize;
        if i < parts.contents.len() {
            assert(parts@.contents[i as int] == parts.contents@[i as int]@);
            return Ok(copy_slice(&parts.contents[i]));
        }
    }
    Err(Error::Draft("that attachment is not in the message".to_owned()))
}

/// The bytes of one attachment, read out of the message.
///
/// `index` is the position in the message's attachments.
pub fn bytes_of(raw: &[u8], index: usize) -> (r: Result<Vec<u8>>)
    ensures
        match r {
            Ok(bytes) => parses(raw@) && attached_bytes(parts_in(raw@), index as int) == Some(
                bytes@,
            ),
            Err(Error::Draft(m)) => if parses(raw@) {
                attached_bytes(parts_in(raw@), index as int) is None && m@
                    == "that attachment is not in the message"@
            } else {
                m@ == "that message could not be read"@
            },
            Err(_) => false,
        },
{
    if !is_message(raw) {
        return Err(Error::Draft("that message could not be read".to_owned()));
    }
    part_bytes(&parts_of(raw), index)
}

/// The attachments that are saved when all are: those that are not shown in the
/// body.
pub open spec fn to_save(list: Seq<Attachment>) -> Seq<usize>
    decreases list.len(),
{
    if list.len() == 0 {
        Seq::empty()
    } else {
        let front = to_save(list.drop_last());
        if list.last().inline {
            front
        } else {
            front.push((list.len() - 1) as usize)
        }
    }
}

/// Which attachments to save when all are to be saved. Inline parts are
/// skipped: they are the images the body refers to.
#[must_use]
pub fn saving(list: &Vec<Attachment>) -> (r: Vec<usize>)
    ensures
        r@ == to_save(list@),
{
    let mut out: Vec<usize> = Vec::new();
    let mut i: usize = 0;
    assert(list@.take(0) =~= Seq::<Attachment>::empty());
    while i < list.len()
        invariant
            i <= list@.len(),
            out@ == to_save(list@.take(i as int)),
        decreases list@.len() - i,
    {
        proof {
            assert(list@.take(i + 1).drop_last() =~= list@.take(i as int));
            assert(list@.take(i + 1).last() == list@[i as int]);
        }
        if !list[i].inline {
            out.push(i);
        }
        i = i + 1;
    }
    assert(list@.take(i as int) =~= list@);
    out
}

/// The longest name that is kept whole.
pub const MAX_NAME: usize = 200;

/// A character that cannot stand in a filename everywhere.
pub open spec fn unsafe_char(c: char) -> bool {
    c == '/' || c == '\\' || c == '<' || c == '>' || c == ':' || c == '"' || c == '|' || c == '?' || c
        == '*' || control(c)
}

fn is_unsafe_char(c: char) -> (r: bool)
    ensures
        r == unsafe_char(c),
{
    c == '/' || c == '\\' || c == '<' || c == '>' || c == ':' || c == '"' || c == '|' || c == '?' || c
        == '*' || is_control(c)
}

pub open spec fn made_safe(s: Seq<char>) -> Seq<char> {
    s.map_values(
        |c: char|
            if unsafe_char(c) {
                '_'
            } else {
                c
            },
    )
}

/// Where the extension of a name begins, if it has one: behind the last dot,
/// which is neither first nor last.
pub open spec fn dot(s: Seq<char>) -> Option<int> {
    let i = rfind(s, Class::Is('.'));
    if 0 < i < s.len() - 1 {
        Some(i)
    } else {
        None
    }
}

pub open spec fn stem(s: Seq<char>) -> Seq<char> {
    match dot(s) {
        Some(i) => s.take(i),
        None => s,
    }
}

pub open spec fn extension(s: Seq<char>) -> Option<Seq<char>> {
    match dot(s) {
        Some(i) => Some(s.skip(i + 1)),
        None => None,
    }
}

pub open spec fn first_of(s: Seq<char>, n: nat) -> Seq<char> {
    if s.len() > n {
        s.take(n as int)
    } else {
        s
    }
}

/// A name cut to a length every filesystem takes, its extension kept.
pub open spec fn shortened(s: Seq<char>) -> Seq<char> {
    if s.len() > MAX_NAME {
        match extension(s) {
            Some(e) => first_of(stem(s), 184) + "."@ + first_of(e, 15),
            None => first_of(stem(s), 184),
        }
    } else {
        s
    }
}

/// A name that Windows keeps for a device, however it is spelled and whatever
/// its extension.
pub open spec fn device(s: Seq<char>) -> bool {
    let u = uppered(stem(s));
    ||| u == "CON"@
    ||| u == "PRN"@
    ||| u == "NUL"@
    ||| u == "AUX"@
    ||| u == "COM1"@
    ||| u == "COM2"@
    ||| u == "COM3"@
    ||| u == "COM4"@
    ||| u == "COM5"@
    ||| u == "COM6"@
    ||| u == "COM7"@
    ||| u == "COM8"@
    ||| u == "COM9"@
    ||| u == "LPT1"@
    ||| u == "LPT2"@
    ||| u == "LPT3"@
    ||| u == "LPT4"@
    ||| u == "LPT5"@
    ||| u == "LPT6"@
    ||| u == "LPT7"@
    ||| u == "LPT8"@
    ||| u == "LPT9"@
}

/// A name that is safe to create.
pub open spec fn sanitized(name: Seq<char>) -> Seq<char> {
    let t = strip(trimmed(made_safe(name)), Class::Is('.'));
    if t.len() == 0 {
        "attachment"@
    } else {
        let c = shortened(t);
        if device(c) {
            "_"@ + c
        } else {
            c
        }
    }
}

fn dot_of(s: &[char]) -> (r: Option<usize>)
    ensures
        match r {
            Some(i) => dot(s@) == Some(i as int) && i + 1 < s@.len() <= usize::MAX,
            None => dot(s@) is None,
        },
{
    match rfind_of(s, Class::Is('.')) {
        Some(i) => if 0 < i && i < s.len() - 1 {
            Some(i)
        } else {
            None
        },
        None => None,
    }
}

fn is_device(s: &[char]) -> (r: bool)
    ensures
        r == device(s@),
{
    let u: Vec<char> = match dot_of(s) {
        Some(i) => upper_of(up_to(s, i)),
        None => upper_of(s),
    };
    spells(&u, "CON") || spells(&u, "PRN") || spells(&u, "NUL") || spells(&u, "AUX") || spells(
        &u,
        "COM1",
    ) || spells(&u, "COM2") || spells(&u, "COM3") || spells(&u, "COM4") || spells(&u, "COM5")
        || spells(&u, "COM6") || spells(&u, "COM7") || spells(&u, "COM8") || spells(&u, "COM9")
        || spells(&u, "LPT1") || spells(&u, "LPT2") || spells(&u, "LPT3") || spells(&u, "LPT4")
        || spells(&u, "LPT5") || spells(&u, "LPT6") || spells(&u, "LPT7") || spells(&u, "LPT8")
        || spells(&u, "LPT9")
}

fn head_of(s: &[char], n: usize) -> (r: &[char])
    ensures
        r@ == first_of(s@, n as nat),
{
    if s.len() > n {
        up_to(s, n)
    } else {
        s
    }
}

fn shorten(s: &[char]) -> (r: Vec<char>)
    ensures
        r@ == shortened(s@),
{
    let mut out: Vec<char> = Vec::new();
    if s.len() > MAX_NAME {
        match dot_of(s) {
            Some(i) => {
                push_all(&mut out, head_of(up_to(s, i), 184));
                push_text(&mut out, ".");
                push_all(&mut out, head_of(from_index(s, i + 1), 15));
                assert(out@ =~= shortened(s@));
            },
            None => {
                push_all(&mut out, head_of(s, 184));
                assert(out@ =~= shortened(s@));
            },
        }
    } else {
        push_all(&mut out, s);
        assert(out@ =~= shortened(s@));
    }
    out
}

fn make_safe(s: &[char]) -> (r: Vec<char>)
    ensures
        r@ == made_safe(s@),
{
    let mut out: Vec<char> = Vec::new();
    let mut i: usize = 0;
    while i < s.len()
        invariant
            i <= s@.len(),
            out@ == made_safe(s@.take(i as int)),
        decreases s@.len() - i,
    {
        let c: char = s[i];
        out.push(
            if is_unsafe_char(c) {
                '_'
            } else {
                c
            },
        );
        i = i + 1;
        assert(out@ =~= made_safe(s@.take(i as int)));
    }
    assert(s@.take(i as int) =~= s@);
    out
}

/// Turns a filename from a message into one that is safe to create.
///
/// Path separators, the characters Windows forbids and control characters become
/// `_`. A name that is empty, or only dots, becomes `attachment`. Windows device
/// names get a prefix.
#[must_use]
pub fn sanitize(name: &str) -> (r: String)
    ensures
        r@ == sanitized(name@),
{
    let safe: Vec<char> = make_safe(&to_chars(name));
    let t: &[char] = strip_of(trim_of(&safe), Class::Is('.'));
    if t.len() == 0 {
        return "attachment".to_owned();
    }
    let c: Vec<char> = shorten(t);
    if is_device(&c) {
        let mut out: Vec<char> = to_chars("_");
        push_all(&mut out, &c);
        to_text(&out)
    } else {
        to_text(&c)
    }
}

/// The name tried for a file when so many are taken: the name itself, then with
/// a counter before its extension.
pub open spec fn numbered(name: Seq<char>, n: nat) -> Seq<char> {
    if n == 0 {
        name
    } else {
        match extension(name) {
            Some(e) => stem(name) + " ("@ + dec(n) + ")."@ + e,
            None => name + " ("@ + dec(n) + ")"@,
        }
    }
}

/// The name to try for a file when so many are taken: `report.pdf`, then
/// `report (1).pdf`. After a thousand it gives up.
pub fn candidate(name: &str, folder: &str, n: usize) -> (r: Result<String>)
    ensures
        match r {
            Ok(text) => n < 1000 && text@ == numbered(name@, n as nat),
            Err(Error::Draft(m)) => n >= 1000 && m@ == "there are already a thousand files named "@
                + name@ + " in "@ + folder@,
            Err(_) => false,
        },
{
    if n >= 1000 {
        let mut out: Vec<char> = to_chars("there are already a thousand files named ");
        push_text(&mut out, name);
        push_text(&mut out, " in ");
        push_text(&mut out, folder);
        return Err(Error::Draft(to_text(&out)));
    }
    let v: Vec<char> = to_chars(name);
    if n == 0 {
        return Ok(to_text(&v));
    }
    let mut out: Vec<char> = Vec::new();
    match dot_of(&v) {
        Some(i) => {
            push_all(&mut out, up_to(&v, i));
            push_text(&mut out, " (");
            push_all(&mut out, &decimal(n as u64));
            push_text(&mut out, ").");
            push_all(&mut out, from_index(&v, i + 1));
            assert(out@ =~= numbered(name@, n as nat));
        },
        None => {
            push_all(&mut out, &v);
            push_text(&mut out, " (");
            push_all(&mut out, &decimal(n as u64));
            push_text(&mut out, ")");
            assert(out@ =~= numbered(name@, n as nat));
        },
    }
    Ok(to_text(&out))
}

/// The content type an extension suggests.
pub open spec fn suggested(e: Seq<char>) -> Seq<char> {
    if e == "pdf"@ {
        "application/pdf"@
    } else if e == "png"@ {
        "image/png"@
    } else if e == "jpg"@ || e == "jpeg"@ {
        "image/jpeg"@
    } else if e == "gif"@ {
        "image/gif"@
    } else if e == "webp"@ {
        "image/webp"@
    } else if e == "svg"@ {
        "image/svg+xml"@
    } else if e == "txt"@ || e == "log"@ || e == "md"@ {
        "text/plain"@
    } else if e == "csv"@ {
        "text/csv"@
    } else if e == "html"@ || e == "htm"@ {
        "text/html"@
    } else if e == "json"@ {
        "application/json"@
    } else if e == "xml"@ {
        "application/xml"@
    } else if e == "zip"@ {
        "application/zip"@
    } else if e == "gz"@ || e == "tgz"@ {
        "application/gzip"@
    } else if e == "odt"@ {
        "application/vnd.oasis.opendocument.text"@
    } else if e == "ods"@ {
        "application/vnd.oasis.opendocument.spreadsheet"@
    } else if e == "doc"@ {
        "application/msword"@
    } else if e == "docx"@ {
        "application/vnd.openxmlformats-officedocument.wordprocessingml.document"@
    } else if e == "xls"@ {
        "application/vnd.ms-excel"@
    } else if e == "xlsx"@ {
        "application/vnd.openxmlformats-officedocument.spreadsheetml.sheet"@
    } else if e == "ics"@ {
        "text/calendar"@
    } else if e == "eml"@ {
        "message/rfc822"@
    } else {
        "application/octet-stream"@
    }
}

/// A content type guessed from a filename's extension, for outgoing attachments
/// only.
#[must_use]
pub fn mime_for(name: &str) -> (r: &'static str)
    ensures
        r@ == match extension(name@) {
            Some(e) => suggested(lowered(e)),
            None => "application/octet-stream"@,
        },
{
    let v: Vec<char> = to_chars(name);
    let e: Vec<char> = match dot_of(&v) {
        Some(i) => lower_of(from_index(&v, i + 1)),
        None => {
            return "application/octet-stream";
        },
    };
    if spells(&e, "pdf") {
        "application/pdf"
    } else if spells(&e, "png") {
        "image/png"
    } else if spells(&e, "jpg") || spells(&e, "jpeg") {
        "image/jpeg"
    } else if spells(&e, "gif") {
        "image/gif"
    } else if spells(&e, "webp") {
        "image/webp"
    } else if spells(&e, "svg") {
        "image/svg+xml"
    } else if spells(&e, "txt") || spells(&e, "log") || spells(&e, "md") {
        "text/plain"
    } else if spells(&e, "csv") {
        "text/csv"
    } else if spells(&e, "html") || spells(&e, "htm") {
        "text/html"
    } else if spells(&e, "json") {
        "application/json"
    } else if spells(&e, "xml") {
        "application/xml"
    } else if spells(&e, "zip") {
        "application/zip"
    } else if spells(&e, "gz") || spells(&e, "tgz") {
        "application/gzip"
    } else if spells(&e, "odt") {
        "application/vnd.oasis.opendocument.text"
    } else if spells(&e, "ods") {
        "application/vnd.oasis.opendocument.spreadsheet"
    } else if spells(&e, "doc") {
        "application/msword"
    } else if spells(&e, "docx") {
        "application/vnd.openxmlformats-officedocument.wordprocessingml.document"
    } else if spells(&e, "xls") {
        "application/vnd.ms-excel"
    } else if spells(&e, "xlsx") {
        "application/vnd.openxmlformats-officedocument.spreadsheetml.sheet"
    } else if spells(&e, "ics") {
        "text/calendar"
    } else if spells(&e, "eml") {
        "message/rfc822"
    } else {
        "application/octet-stream"
    }
}

proof fn lemma_stripped(s: Seq<char>, k: Class)
    ensures
        strip(s, k).len() <= s.len(),
        forall|i: int| 0 <= i < strip(s, k).len() ==> s.contains(#[trigger] strip(s, k)[i]),
        strip(s, k).len() > 0 ==> !k.holds(strip(s, k)[0]),
        strip(s, k).len() > 0 ==> !k.holds(strip(s, k).last()),
{
    crate::chars::lemma_run(s, k, true);
    let f = crate::chars::drop_front(s, k);
    crate::chars::lemma_back_run(f, k);
    let t = strip(s, k);
    assert forall|i: int| 0 <= i < t.len() implies s.contains(#[trigger] t[i]) by {
        assert(t[i] == s[i + crate::chars::run(s, k, true)]);
    }
}

proof fn lemma_no_device(s: Seq<char>)
    requires
        s.len() > 0,
        s[0] == '_' || stem(s) == "attachment"@,
    ensures
        !device(s),
{
    crate::chars::lemma_rfind(s, Class::Is('.'));
    reveal_strlit("attachment");
    reveal_strlit("CON");
    reveal_strlit("PRN");
    reveal_strlit("NUL");
    reveal_strlit("AUX");
    reveal_strlit("COM1");
    reveal_strlit("COM2");
    reveal_strlit("COM3");
    reveal_strlit("COM4");
    reveal_strlit("COM5");
    reveal_strlit("COM6");
    reveal_strlit("COM7");
    reveal_strlit("COM8");
    reveal_strlit("COM9");
    reveal_strlit("LPT1");
    reveal_strlit("LPT2");
    reveal_strlit("LPT3");
    reveal_strlit("LPT4");
    reveal_strlit("LPT5");
    reveal_strlit("LPT6");
    reveal_strlit("LPT7");
    reveal_strlit("LPT8");
    reveal_strlit("LPT9");
    let u = uppered(stem(s));
    if s[0] == '_' {
        assert(u[0] == '_');
    } else {
        assert(u.len() == 10);
    }
}

/// Whatever a stranger called a file, what it is saved as is one component of a
/// path: nothing in it separates directories or is forbidden anywhere, it is not
/// empty, it neither begins nor ends with a dot, it is no device name, and its
/// length is bounded.
pub proof fn a_sanitized_name_is_safe(name: Seq<char>)
    ensures
        0 < sanitized(name).len() <= MAX_NAME + 1,
        sanitized(name)[0] != '.',
        sanitized(name).last() != '.',
        !device(sanitized(name)),
        forall|i: int| 0 <= i < sanitized(name).len() ==> !unsafe_char(#[trigger] sanitized(name)[i]),
{
    reveal_strlit("attachment");
    reveal_strlit("_");
    reveal_strlit(".");
    let m = made_safe(name);
    let t0 = trimmed(m);
    let t = strip(t0, Class::Is('.'));
    assert forall|i: int| 0 <= i < m.len() implies !unsafe_char(#[trigger] m[i]) by {}
    lemma_stripped(m, Class::White);
    lemma_stripped(t0, Class::Is('.'));
    assert forall|i: int| 0 <= i < t.len() implies !unsafe_char(#[trigger] t[i]) by {
        assert(t0.contains(t[i]));
        let j = choose|j: int| 0 <= j < t0.len() && t0[j] == t[i];
        assert(m.contains(t0[j]));
    }
    if t.len() == 0 {
        let r = sanitized(name);
        crate::chars::lemma_rfind(r, Class::Is('.'));
        lemma_no_device(r);
    } else {
        let c = shortened(t);
        crate::chars::lemma_rfind(t, Class::Is('.'));
        assert(c.len() > 0 && c.len() <= MAX_NAME && c[0] == t[0]);
        assert forall|i: int| 0 <= i < c.len() implies !unsafe_char(#[trigger] c[i]) by {
            if t.len() > MAX_NAME {
                match dot(t) {
                    Some(d) => {
                        let st = first_of(stem(t), 184);
                        if i < st.len() {
                            assert(c[i] == t[i]);
                        } else if i > st.len() {
                            assert(c[i] == t[d + 1 + (i - st.len() - 1)]);
                        }
                    },
                    None => {
                        assert(c[i] == t[i]);
                    },
                }
            }
        }
        if t.len() > MAX_NAME {
            match dot(t) {
                Some(d) => {
                    let e = first_of(t.skip(d + 1), 15);
                    assert(c.last() == e.last());
                    assert(e.last() == t[d + e.len()]);
                },
                None => {
                    assert(c.last() == t[c.len() - 1]);
                },
            }
        }
        let r = sanitized(name);
        if device(c) {
            lemma_no_device(r);
            assert(r.last() == c.last());
        }
        assert forall|i: int| 0 <= i < r.len() implies !unsafe_char(#[trigger] r[i]) by {
            if device(c) && i > 0 {
                assert(r[i] == c[i - 1]);
            }
        }
    }
}

/// No two names tried for one file are the same, so a file that is there is never
/// tried for twice.
pub proof fn candidates_differ(name: Seq<char>, a: nat, b: nat)
    requires
        a != b,
    ensures
        numbered(name, a) != numbered(name, b),
{
    reveal_strlit(" (");
    reveal_strlit(").");
    reveal_strlit(")");
    crate::chars::lemma_rfind(name, Class::Is('.'));
    crate::numbers::lemma_dec(a);
    crate::numbers::lemma_dec(b);
    let x = numbered(name, a);
    let y = numbered(name, b);
    let tail = match extension(name) {
        Some(e) => ")."@ + e,
        None => ")"@,
    };
    let head = stem(name) + " ("@;
    if a > 0 {
        assert(x =~= head + dec(a) + tail);
    }
    if b > 0 {
        assert(y =~= head + dec(b) + tail);
    }
    assert(name.len() < head.len() + tail.len());
    if x == y && a > 0 && b > 0 {
        let from = head.len() as int;
        assert(dec(a).len() == dec(b).len());
        assert(x.subrange(from, from + dec(a).len()) =~= dec(a));
        assert(y.subrange(from, from + dec(b).len()) =~= dec(b));
        let top = if a < b {
            b
        } else {
            a
        };
        decimal_reads_back(a, top);
        decimal_reads_back(b, top);
    }
}

/// What is saved when everything is: every attachment that the body does not show, in order.
pub proof fn what_is_saved(list: Seq<Attachment>, k: int)
    requires
        0 <= k < list.len() <= usize::MAX,
    ensures
        to_save(list).contains(k as usize) <==> !list[k].inline,
        forall|i: int, j: int|
            0 <= i < j < to_save(list).len() ==> #[trigger] to_save(list)[i]
                < #[trigger] to_save(list)[j],
{
    lemma_saved(list, k);
}

proof fn lemma_saved(list: Seq<Attachment>, k: int)
    requires
        0 <= k,
        k <= usize::MAX,
        list.len() <= usize::MAX,
    ensures
        to_save(list).contains(k as usize) <==> k < list.len() && !list[k].inline,
        forall|i: int| 0 <= i < to_save(list).len() ==> #[trigger] to_save(list)[i] < list.len(),
        forall|i: int, j: int|
            0 <= i < j < to_save(list).len() ==> #[trigger] to_save(list)[i]
                < #[trigger] to_save(list)[j],
    decreases list.len(),
{
    let all = to_save(list);
    if list.len() > 0 {
        let rest = list.drop_last();
        lemma_saved(rest, k);
        let front = to_save(rest);
        if k < rest.len() {
            assert(rest[k] == list[k]);
        }
        if front.contains(k as usize) {
            let m = choose|m: int| 0 <= m < front.len() && front[m] == k as usize;
            assert(all[m] == k as usize);
        }
        if all.contains(k as usize) {
            let m = choose|m: int| 0 <= m < all.len() && all[m] == k as usize;
            if m < front.len() {
                assert(front[m] == k as usize);
            } else {
                assert(k == list.len() - 1);
            }
        }
        if k == list.len() - 1 && !list[k].inline {
            assert(all[all.len() - 1] == k as usize);
        }
        assert forall|i: int| 0 <= i < all.len() implies #[trigger] all[i] < list.len() by {
            if i < front.len() {
                assert(all[i] == front[i]);
            }
        }
        assert forall|i: int, j: int| 0 <= i < j < all.len() implies #[trigger] all[i]
            < #[trigger] all[j] by {
            if j < front.len() {
                assert(front[i] < front[j]);
            } else {
                assert(front[i] < rest.len());
            }
        }
    }
}

/// A name that is already fit for a file stays as it is, and in any other only the characters
/// that no file name may hold are replaced: a name that is not too long, begins and ends in
/// something other than a dot or white space, and names no device keeps all the others.
pub proof fn what_a_name_keeps(name: Seq<char>)
    requires
        0 < name.len() <= 200,
        !crate::chars::white(name[0]) && name[0] != '.',
        !crate::chars::white(name.last()) && name.last() != '.',
        !device(made_safe(name)),
    ensures
        sanitized(name).len() == name.len(),
        forall|i: int|
            0 <= i < name.len() ==> #[trigger] sanitized(name)[i] == (if name[i] == '/' || name[i]
                == '\\' || name[i] == '<' || name[i] == '>' || name[i] == ':' || name[i] == '"'
                || name[i] == '|' || name[i] == '?' || name[i] == '*' || (name[i] as u32) < 32 || (
            127 <= name[i] as u32 && name[i] as u32 <= 159) {
                '_'
            } else {
                name[i]
            }),
{
    let m = made_safe(name);
    let w = Class::White;
    assert(m[0] == '_' || m[0] == name[0]);
    assert(m.last() == '_' || m.last() == name.last());
    assert(!w.holds(m[0]) && !w.holds(m.last()));
    crate::chars::lemma_run_is(m, w, true, 0);
    assert(m.skip(0) =~= m);
    crate::chars::lemma_back_run_is(m, w, 0);
    assert(m.take(m.len() as int) =~= m);
    let d = Class::Is('.');
    crate::chars::lemma_run_is(m, d, true, 0);
    crate::chars::lemma_back_run_is(m, d, 0);
    assert(sanitized(name) == m);
}

/// A second file of one name gets a number in front of its extension.
pub proof fn where_the_number_goes(front: Seq<char>, ext: Seq<char>, n: nat)
    requires
        n > 0,
        front.len() > 0,
        ext.len() > 0,
        forall|i: int| 0 <= i < ext.len() ==> #[trigger] ext[i] != '.',
    ensures
        numbered(front + seq!['.'] + ext, n) == front + " ("@ + dec(n) + ")."@ + ext,
        numbered(front + seq!['.'] + ext, 0) == front + seq!['.'] + ext,
{
    let s = front + seq!['.'] + ext;
    assert(s[front.len() as int] == '.');
    assert forall|j: int| front.len() < j < s.len() implies !Class::Is('.').holds(
        #[trigger] s[j],
    ) by {
        assert(s[j] == ext[j - front.len() - 1]);
    }
    crate::chars::lemma_rfind_is(s, Class::Is('.'), front.len() as int);
    assert(s.take(front.len() as int) =~= front);
    assert(s.skip(front.len() as int + 1) =~= ext);
}

/// The bytes of an attachment are those of the part it names.
pub proof fn which_bytes_an_attachment_has(p: PartsText, index: int)
    requires
        0 <= index < p.attached.len(),
        (p.attached[index] as int) < p.contents.len(),
    ensures
        attached_bytes(p, index) == Some(p.contents[p.attached[index] as int]),
{
}

} // verus!
