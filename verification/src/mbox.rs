//! mbox, both directions: reading an archive in, writing one out.
//!
//! Messages are concatenated, each introduced by a separator line starting
//! `From `, with any line of a body that would read as one escaped by a `>` in
//! front. A separator counts only at a message boundary: the start of the
//! archive, or right after a blank line. [`write`] emits the dialect
//! [`messages`] reads, and what was written reads back byte for byte.
//!
//! The one thing mbox cannot represent is a message whose last byte is not a
//! newline: the next separator has to start at column zero, so such a message
//! comes back one newline longer.

use vstd::prelude::*;
use vstd::utf8::encode_utf8;

use crate::bytes::{begins, contents_of, ends_line, first_line_end, first_line_len, head_of,
    lemma_first_line, lemma_lines_concat, lemma_lines_flatten, lemma_lines_shape, lemma_no_newline,
    lemma_one_line, lines, push_bytes, rest_of};
use crate::chars::{control, is_control, is_white, opt_str, to_chars, to_text, trim_of, trimmed, white};
use crate::mime::parses;
use crate::model::{mailbox_views, shown_in, Message};
use crate::times::{on_calendar, write_date, written, ASCTIME};

verus! {

/// `From `, the start of a separator line.
pub open spec fn from_marker() -> Seq<u8> {
    seq![70u8, 114u8, 111u8, 109u8, 32u8]
}

/// The line with any run of `>` removed.
pub open spec fn unquoted(line: Seq<u8>) -> Seq<u8>
    decreases line.len(),
{
    if line.len() > 0 && line[0] == 62 {
        unquoted(line.skip(1))
    } else {
        line
    }
}

/// A separator, or one behind a run of `>`.
pub open spec fn from_like(line: Seq<u8>) -> bool {
    begins(unquoted(line), from_marker())
}

/// The line as an archive holds it.
pub open spec fn stuffed(line: Seq<u8>) -> Seq<u8> {
    if from_like(line) {
        seq![62u8] + line
    } else {
        line
    }
}

/// The line as the message had it.
pub open spec fn unstuffed(line: Seq<u8>) -> Seq<u8> {
    if from_like(line) && line.len() > 0 && line[0] == 62 {
        line.skip(1)
    } else {
        line
    }
}

pub open spec fn blank(line: Seq<u8>) -> bool {
    line == seq![10u8] || line == seq![13u8, 10u8]
}

/// The message without the blank line the format puts behind it.
pub open spec fn without_blank(message: Seq<u8>) -> Seq<u8> {
    let n = message.len() as int;
    if n >= 3 && message[n - 1] == 10 && message[n - 2] == 13 && message[n - 3] == 10 {
        message.take(n - 2)
    } else if n >= 2 && message[n - 1] == 10 && message[n - 2] == 10 {
        message.take(n - 1)
    } else {
        message
    }
}

pub open spec fn closed_message(current: Option<Seq<u8>>) -> Seq<Seq<u8>> {
    match current {
        Some(message) => seq![without_blank(message)],
        None => Seq::empty(),
    }
}

/// The messages in these lines, given the message being read and whether a
/// separator may stand next.
pub open spec fn read(
    ls: Seq<Seq<u8>>,
    current: Option<Seq<u8>>,
    boundary: bool,
) -> Seq<Seq<u8>>
    decreases ls.len(),
{
    if ls.len() == 0 {
        closed_message(current)
    } else if boundary && begins(ls[0], from_marker()) {
        closed_message(current) + read(ls.skip(1), Some(Seq::empty()), blank(ls[0]))
    } else {
        read(
            ls.skip(1),
            match current {
                Some(message) => Some(message + unstuffed(ls[0])),
                None => None,
            },
            blank(ls[0]),
        )
    }
}

/// The messages of an archive.
pub open spec fn archived(mbox: Seq<u8>) -> Seq<Seq<u8>> {
    read(lines(mbox), None, true)
}

/// What may stand in a field of the separator line.
pub open spec fn field_char(c: char) -> bool {
    !control(c) && (!white(c) || c == ' ')
}

/// A separator field kept on one line and non-empty.
pub open spec fn field(value: Seq<char>, fallback: Seq<char>) -> Seq<char> {
    let cleaned = trimmed(trimmed(value).filter(|c: char| field_char(c)));
    if cleaned.len() == 0 {
        fallback
    } else {
        cleaned
    }
}

pub open spec fn separator(sender: Seq<char>, date: Seq<char>) -> Seq<u8> {
    from_marker() + encode_utf8(field(sender, "MAILER-DAEMON"@)) + seq![32u8] + encode_utf8(
        field(date, "Thu Jan  1 00:00:00 1970"@),
    ) + seq![10u8]
}

/// A message's lines as an archive holds them.
pub open spec fn body(raw: Seq<u8>) -> Seq<u8> {
    lines(raw).map_values(|l: Seq<u8>| stuffed(l)).flatten()
}

/// One message as an archive holds it.
pub open spec fn entry(raw: Seq<u8>, sender: Seq<char>, date: Seq<char>) -> Seq<u8> {
    separator(sender, date) + body(raw) + (if raw.len() > 0 && raw.last() != 10 {
        seq![10u8]
    } else {
        Seq::empty()
    }) + seq![10u8]
}

/// A message as it comes back out of an archive.
pub open spec fn terminated(raw: Seq<u8>) -> Seq<u8> {
    if ends_line(raw) {
        raw
    } else {
        raw.push(10)
    }
}

spec fn held(current: Option<Vec<u8>>) -> Option<Seq<u8>> {
    match current {
        Some(m) => Some(m@),
        None => None,
    }
}

/// Whether a line starts with `From `.
fn is_from(line: &[u8]) -> (r: bool)
    ensures
        r == begins(line@, from_marker()),
{
    let r = line.len() >= 5 && line[0] == 70 && line[1] == 114 && line[2] == 111 && line[3] == 109
        && line[4] == 32;
    proof {
        if line@.len() >= 5 {
            let t = line@.take(5);
            assert(t[0] == line@[0] && t[1] == line@[1] && t[2] == line@[2] && t[3] == line@[3]
                && t[4] == line@[4]);
            if r {
                assert(t =~= from_marker());
            }
        }
    }
    r
}

/// The line with any run of `>` removed.
fn stripped_quote_prefix(line: &[u8]) -> (r: &[u8])
    ensures
        r@ == unquoted(line@),
{
    let mut i: usize = 0;
    assert(line@.skip(0) =~= line@);
    while i < line.len() && line[i] == 62
        invariant
            i <= line@.len(),
            unquoted(line@.skip(i as int)) == unquoted(line@),
        decreases line@.len() - i,
    {
        assert(line@.skip(i as int).skip(1) =~= line@.skip(i + 1));
        i = i + 1;
    }
    rest_of(line, i)
}

/// Drops the blank separator line the format puts between messages.
fn trim_trailing_blank(message: Vec<u8>) -> (r: Vec<u8>)
    ensures
        r@ == without_blank(message@),
{
    let mut message = message;
    let n: usize = message.len();
    if n >= 3 && message[n - 1] == 10 && message[n - 2] == 13 && message[n - 3] == 10 {
        message.truncate(n - 2);
    } else if n >= 2 && message[n - 1] == 10 && message[n - 2] == 10 {
        message.truncate(n - 1);
    }
    message
}

/// Splits an mbox into its messages, `>From ` unstuffed.
///
/// Bytes in, bytes out: a lossy string conversion here would corrupt every
/// legacy-charset body in the archive.
#[must_use]
pub fn messages(mbox: &[u8]) -> (r: Vec<Vec<u8>>)
    ensures
        contents_of(r@) == archived(mbox@),
{
    let mut out: Vec<Vec<u8>> = Vec::new();
    let mut current: Option<Vec<u8>> = None;
    let mut boundary = true;
    let mut at: usize = 0;
    let n: usize = mbox.len();
    proof {
        assert(mbox@.skip(0) =~= mbox@);
        assert(contents_of(out@) + archived(mbox@) =~= archived(mbox@));
    }
    while at < n
        invariant
            at <= n == mbox@.len(),
            contents_of(out@) + read(
                lines(mbox@.skip(at as int)),
                held(current),
                boundary,
            ) == archived(mbox@),
        decreases n - at,
    {
        let rest: &[u8] = rest_of(mbox, at);
        let len: usize = first_line_end(rest);
        let line: &[u8] = head_of(rest, len);
        let ghost ls = lines(rest@);
        let ghost before = contents_of(out@);
        let ghost was = held(current);
        proof {
            assert(ls.skip(1) =~= lines(rest@.skip(len as int)));
            assert(rest@.skip(len as int) =~= mbox@.skip(at + len));
        }
        if boundary && is_from(line) {
            match current {
                Some(message) => {
                    out.push(trim_trailing_blank(message));
                },
                None => {},
            }
            current = Some(Vec::new());
            proof {
                assert(contents_of(out@) =~= before + closed_message(was));
                let tail = read(ls.skip(1), Some(Seq::empty()), blank(ls[0]));
                assert(before + (closed_message(was) + tail) =~= contents_of(out@) + tail);
            }
        } else {
            match current {
                Some(message) => {
                    let mut message = message;
                    if line.len() > 0 && line[0] == 62 && is_from(stripped_quote_prefix(line)) {
                        push_bytes(&mut message, rest_of(line, 1));
                    } else {
                        push_bytes(&mut message, line);
                    }
                    current = Some(message);
                },
                None => {
                    current = None;
                },
            }
        }
        let lf = line.len() == 1 && line[0] == 10;
        let crlf = line.len() == 2 && line[0] == 13 && line[1] == 10;
        boundary = lf || crlf;
        proof {
            if lf {
                assert(line@ =~= seq![10u8]);
            }
            if crlf {
                assert(line@ =~= seq![13u8, 10u8]);
            }
        }
        at = at + len;
    }
    proof {
        assert(mbox@.skip(at as int).len() == 0);
    }
    match current {
        Some(message) => {
            let ghost before = contents_of(out@);
            let ghost m = message@;
            out.push(trim_trailing_blank(message));
            assert(contents_of(out@) =~= before + closed_message(Some(m)));
        },
        None => {
            assert(contents_of(out@) =~= contents_of(out@) + closed_message(None));
        },
    }
    out
}

/// Keeps a separator field on one line and non-empty.
fn sanitise_field(value: &str, fallback: &str) -> (r: String)
    ensures
        r@ == field(value@, fallback@),
{
    let all: Vec<char> = to_chars(value);
    let v: &[char] = trim_of(&all);
    let ghost keep = |c: char| field_char(c);
    let mut kept: Vec<char> = Vec::new();
    let mut i: usize = 0;
    while i < v.len()
        invariant
            i <= v@.len(),
            keep == (|c: char| field_char(c)),
            kept@ == v@.take(i as int).filter(keep),
        decreases v@.len() - i,
    {
        let c: char = v[i];
        if !is_control(c) && (!is_white(c) || c == ' ') {
            kept.push(c);
        }
        i = i + 1;
        proof {
            reveal(Seq::filter);
            assert(v@.take(i as int).drop_last() =~= v@.take(i - 1));
        }
    }
    assert(v@.take(i as int) =~= v@);
    let cleaned: &[char] = trim_of(&kept);
    if cleaned.len() == 0 {
        fallback.to_owned()
    } else {
        to_text(cleaned)
    }
}

/// The conventional placeholder date, in the C-locale `asctime` shape every
/// mbox separator uses.
pub const DEFAULT_DATE: &'static str = "Thu Jan  1 00:00:00 1970";

proof fn lemma_body_step(raw: Seq<u8>, at: int)
    requires
        0 <= at < raw.len(),
    ensures
        body(raw.skip(at)) == stuffed(raw.skip(at).take(first_line_len(raw.skip(at)) as int)) + body(
            raw.skip(at + first_line_len(raw.skip(at))),
        ),
{
    let rest = raw.skip(at);
    lemma_first_line(rest);
    let n = first_line_len(rest) as int;
    let f = |l: Seq<u8>| stuffed(l);
    assert(rest.skip(n) =~= raw.skip(at + n));
    let all = lines(rest).map_values(f);
    assert(all.first() == stuffed(rest.take(n)));
    assert(all.drop_first() =~= lines(rest.skip(n)).map_values(f));
}

proof fn lemma_body_last(raw: Seq<u8>)
    requires
        raw.len() > 0,
    ensures
        body(raw).len() > 0,
        body(raw).last() == raw.last(),
    decreases raw.len(),
{
    lemma_first_line(raw);
    assert(raw.skip(0) =~= raw);
    lemma_body_step(raw, 0);
    let n = first_line_len(raw) as int;
    let rest = raw.skip(n);
    if rest.len() > 0 {
        lemma_body_last(rest);
        assert(rest.last() == raw.last());
    } else {
        assert(body(rest) =~= Seq::<u8>::empty());
        assert(raw.take(n).last() == raw.last());
        assert(stuffed(raw.take(n)).last() == raw.take(n).last());
    }
}

/// Appends one message to an archive being built, with the two fields of its
/// separator line supplied.
///
/// For an exporter that knows the real envelope sender, which is better
/// evidence than the `From` header a spammer wrote.
pub fn append_with_envelope(out: &mut Vec<u8>, raw: &[u8], sender: &str, date: &str)
    ensures
        final(out)@ == old(out)@ + entry(raw@, sender@, date@),
{
    let ghost before = out@;
    out.push(70);
    out.push(114);
    out.push(111);
    out.push(109);
    out.push(32);
    assert(out@ =~= before + from_marker());
    let who: String = sanitise_field(sender, "MAILER-DAEMON");
    push_bytes(out, who.as_str().as_bytes());
    out.push(32);
    let when: String = sanitise_field(date, DEFAULT_DATE);
    push_bytes(out, when.as_str().as_bytes());
    out.push(10);
    assert(out@ =~= before + separator(sender@, date@));
    let ghost opened = out@;
    let n: usize = raw.len();
    let mut at: usize = 0;
    proof {
        assert(raw@.skip(0) =~= raw@);
        assert(opened + body(raw@) =~= out@ + body(raw@.skip(0)));
    }
    while at < n
        invariant
            at <= n == raw@.len(),
            out@ + body(raw@.skip(at as int)) == opened + body(raw@),
        decreases n - at,
    {
        let rest: &[u8] = rest_of(raw, at);
        let len: usize = first_line_end(rest);
        let line: &[u8] = head_of(rest, len);
        let ghost so_far = out@;
        proof {
            lemma_body_step(raw@, at as int);
        }
        if is_from(stripped_quote_prefix(line)) {
            out.push(62);
        }
        push_bytes(out, line);
        assert(out@ =~= so_far + stuffed(line@));
        assert(out@ + body(raw@.skip(at + len)) =~= so_far + (stuffed(line@) + body(
            raw@.skip(at + len),
        )));
        at = at + len;
    }
    proof {
        assert(raw@.skip(at as int).len() == 0);
        assert(body(raw@.skip(at as int)) =~= Seq::<u8>::empty());
        assert(out@ =~= opened + body(raw@));
        if raw@.len() > 0 {
            lemma_body_last(raw@);
        } else {
            assert(body(raw@) =~= Seq::<u8>::empty());
        }
    }
    if out[out.len() - 1] != 10 {
        out.push(10);
    }
    out.push(10);
    assert(out@ =~= before + entry(raw@, sender@, date@));
}

proof fn lemma_not_marker(line: Seq<u8>)
    ensures
        !begins(stuffed(line), from_marker()),
        unstuffed(stuffed(line)) == line,
        line.len() > 0 ==> blank(stuffed(line)) == blank(line),
{
    let s = stuffed(line);
    if from_like(line) {
        assert(s[0] == 62);
        assert(s.skip(1) =~= line);
        if begins(s, from_marker()) {
            assert(s.take(5)[0] == s[0]);
        }
        if blank(s) {
            assert(s[0] == 62);
        }
        if blank(line) {
            assert(unquoted(line) == line);
            assert(line.take(5)[0] == line[0]);
        }
    } else if begins(line, from_marker()) {
        assert(line.take(5)[0] == line[0]);
        assert(unquoted(line) == line);
    }
}

/// Reading lines none of which is a separator only grows the message.
proof fn lemma_read_body(ls: Seq<Seq<u8>>, rest: Seq<Seq<u8>>, message: Seq<u8>, boundary: bool)
    requires
        ls.len() > 0,
    ensures
        read(ls.map_values(|l: Seq<u8>| stuffed(l)) + rest, Some(message), boundary) == read(
            rest,
            Some(message + ls.flatten()),
            blank(stuffed(ls.last())),
        ),
    decreases ls.len(),
{
    let f = |l: Seq<u8>| stuffed(l);
    let all = ls.map_values(f) + rest;
    lemma_not_marker(ls[0]);
    assert(all[0] == stuffed(ls[0]));
    let tail = ls.drop_first();
    assert(all.skip(1) =~= tail.map_values(f) + rest);
    assert(ls.flatten() == ls[0] + tail.flatten());
    assert(message + ls.flatten() =~= (message + ls[0]) + tail.flatten());
    if tail.len() > 0 {
        lemma_read_body(tail, rest, message + ls[0], blank(all[0]));
        assert(tail.last() == ls.last());
    } else {
        assert(tail.flatten() =~= Seq::<u8>::empty());
        assert((message + ls[0]) + tail.flatten() =~= message + ls[0]);
        assert(tail.map_values(f) + rest =~= rest);
    }
}

/// One message with the envelope its separator line carries.
pub struct Posted {
    pub raw: Seq<u8>,
    pub sender: Seq<char>,
    pub date: Seq<char>,
}

/// An archive of these messages, in order.
pub open spec fn archive(es: Seq<Posted>) -> Seq<u8>
    decreases es.len(),
{
    if es.len() == 0 {
        Seq::empty()
    } else {
        entry(es[0].raw, es[0].sender, es[0].date) + archive(es.skip(1))
    }
}

proof fn lemma_field(value: Seq<char>, fallback: Seq<char>)
    requires
        forall|i: int| 0 <= i < fallback.len() ==> !control(#[trigger] fallback[i]),
    ensures
        forall|i: int|
            0 <= i < field(value, fallback).len() ==> !control(#[trigger] field(value, fallback)[i]),
{
    let keep = |c: char| field_char(c);
    let kept = trimmed(value).filter(keep);
    let cleaned = trimmed(kept);
    assert forall|i: int| 0 <= i < kept.len() implies field_char(#[trigger] kept[i]) by {
        trimmed(value).lemma_filter_pred(keep, i);
    }
    crate::chars::lemma_trimmed_part(kept);
    assert forall|i: int| 0 <= i < cleaned.len() implies !control(#[trigger] cleaned[i]) by {
        assert(kept.contains(cleaned[i]));
        let j = choose|j: int| 0 <= j < kept.len() && kept[j] == cleaned[i];
        assert(field_char(kept[j]));
    }
}

proof fn lemma_separator_line(sender: Seq<char>, date: Seq<char>)
    ensures
        lines(separator(sender, date)) == seq![separator(sender, date)],
        begins(separator(sender, date), from_marker()),
        ends_line(separator(sender, date)),
        !blank(separator(sender, date)),
{
    reveal_strlit("MAILER-DAEMON");
    reveal_strlit("Thu Jan  1 00:00:00 1970");
    let d = "MAILER-DAEMON"@;
    let t = "Thu Jan  1 00:00:00 1970"@;
    assert forall|i: int| 0 <= i < d.len() implies !control(#[trigger] d[i]) by {
        assert(d.len() == 13);
    }
    assert forall|i: int| 0 <= i < t.len() implies !control(#[trigger] t[i]) by {
        assert(t.len() == 24);
    }
    lemma_field(sender, d);
    lemma_field(date, t);
    let a = encode_utf8(field(sender, d));
    let b = encode_utf8(field(date, t));
    lemma_no_newline(field(sender, d));
    lemma_no_newline(field(date, t));
    let s = separator(sender, date);
    let m = from_marker();
    assert forall|j: int| 0 <= j < s.len() - 1 implies #[trigger] s[j] != 10 by {
        if j < 5 {
            assert(s[j] == m[j]);
        } else if j < 5 + a.len() {
            assert(s[j] == a[j - 5]);
        } else if j == 5 + a.len() {
            assert(s[j] == 32);
        } else {
            assert(s[j] == b[j - 6 - a.len()]);
        }
    }
    lemma_one_line(s);
    assert(s.take(5) =~= m);
    assert(s[0] == 70);
}

proof fn lemma_unquoted_push(line: Seq<u8>)
    ensures
        from_like(line.push(10)) == from_like(line),
    decreases line.len(),
{
    let p = line.push(10);
    if line.len() > 0 && line[0] == 62 {
        assert(p.skip(1) =~= line.skip(1).push(10));
        lemma_unquoted_push(line.skip(1));
    } else {
        assert(unquoted(line) == line);
        assert(unquoted(p) == p);
        if line.len() >= 5 {
            assert(p.take(5) =~= line.take(5));
        } else if begins(p, from_marker()) {
            assert(p.take(5)[4] == p[4]);
        }
    }
}

/// Supplying a missing newline in the archive is supplying it in the message.
proof fn lemma_body_terminated(raw: Seq<u8>)
    requires
        raw.len() > 0,
        raw.last() != 10,
    ensures
        body(raw) + seq![10u8] == body(raw.push(10)),
    decreases raw.len(),
{
    lemma_first_line(raw);
    let n = first_line_len(raw) as int;
    let p = raw.push(10);
    assert(raw.skip(0) =~= raw);
    assert(p.skip(0) =~= p);
    lemma_body_step(raw, 0);
    lemma_body_step(p, 0);
    if n < raw.len() {
        assert forall|j: int| 0 <= j < n - 1 implies #[trigger] p[j] != 10 by {
            assert(p[j] == raw[j]);
        }
        crate::bytes::lemma_first_line_is(p, n);
        assert(p.take(n) =~= raw.take(n));
        assert(p.skip(n) =~= raw.skip(n).push(10));
        assert(raw.skip(n).last() == raw.last());
        lemma_body_terminated(raw.skip(n));
        assert((stuffed(raw.take(n)) + body(raw.skip(n))) + seq![10u8] =~= stuffed(raw.take(n)) + (
        body(raw.skip(n)) + seq![10u8]));
    } else {
        assert forall|j: int| 0 <= j < p.len() - 1 implies #[trigger] p[j] != 10 by {
            assert(p[j] == raw[j]);
            if j == raw.len() - 1 {
                assert(raw[j] == raw.last());
            }
        }
        crate::bytes::lemma_first_line_is(p, p.len() as int);
        assert(raw.take(n) =~= raw);
        assert(p.take(p.len() as int) =~= p);
        lemma_unquoted_push(raw);
        assert(raw.skip(n).len() == 0);
        assert(p.skip(p.len() as int).len() == 0);
        assert(body(raw.skip(n)) =~= Seq::<u8>::empty());
        assert(body(p.skip(p.len() as int)) =~= Seq::<u8>::empty());
        assert(body(raw) + seq![10u8] =~= body(p));
    }
}

/// The archive's lines are the message's lines, stuffed.
proof fn lemma_body_lines(t: Seq<u8>)
    requires
        t.len() == 0 || ends_line(t),
    ensures
        lines(body(t)) == lines(t).map_values(|l: Seq<u8>| stuffed(l)),
        body(t).len() == 0 || ends_line(body(t)),
    decreases t.len(),
{
    let f = |l: Seq<u8>| stuffed(l);
    if t.len() == 0 {
        assert(body(t) =~= Seq::<u8>::empty());
        assert(lines(t).map_values(f) =~= Seq::<Seq<u8>>::empty());
    } else {
        lemma_body_last(t);
        lemma_first_line(t);
        let n = first_line_len(t) as int;
        let line = t.take(n);
        let rest = t.skip(n);
        assert(t.skip(0) =~= t);
        lemma_body_step(t, 0);
        if rest.len() > 0 {
            assert(rest.last() == t.last());
        }
        lemma_body_lines(rest);
        let s = stuffed(line);
        assert(line[n - 1] == 10);
        assert(s.last() == 10);
        assert forall|j: int| 0 <= j < s.len() - 1 implies #[trigger] s[j] != 10 by {
            if from_like(line) {
                if j > 0 {
                    assert(s[j] == line[j - 1]);
                    assert(line[j - 1] == t[j - 1]);
                }
            } else {
                assert(s[j] == t[j]);
            }
        }
        lemma_one_line(s);
        lemma_lines_concat(s, body(rest));
        assert(lines(t).map_values(f) =~= seq![s] + lines(rest).map_values(f));
    }
}

proof fn lemma_without_blank(t: Seq<u8>)
    requires
        t.len() == 0 || ends_line(t),
    ensures
        without_blank(t.push(10)) == terminated(t),
{
    let m = t.push(10);
    if t.len() > 0 {
        assert(m[m.len() - 2] == t.last());
        assert(m.take(m.len() - 1) =~= t);
    }
}

proof fn lemma_read_entry(e: Posted, rest: Seq<u8>, current: Option<Seq<u8>>)
    ensures
        exists|m: Seq<u8>|
            without_blank(m) == terminated(e.raw) && read(
                lines(entry(e.raw, e.sender, e.date) + rest),
                current,
                true,
            ) == closed_message(current) + #[trigger] read(lines(rest), Some(m), true),
{
    let raw = e.raw;
    let sep = separator(e.sender, e.date);
    let t = if raw.len() == 0 { raw } else { terminated(raw) };
    let nl = seq![10u8];
    let f = |l: Seq<u8>| stuffed(l);
    lemma_separator_line(e.sender, e.date);
    if raw.len() > 0 && raw.last() != 10 {
        lemma_body_terminated(raw);
    }
    let whole = entry(raw, e.sender, e.date);
    assert(whole =~= sep + (body(t) + nl));
    assert(whole + rest =~= sep + (body(t) + (nl + rest)));
    lemma_body_lines(t);
    lemma_one_line(nl);
    lemma_lines_concat(nl, rest);
    lemma_lines_concat(body(t), nl + rest);
    lemma_lines_concat(sep, body(t) + (nl + rest));
    let after_body = seq![nl] + lines(rest);
    let after_sep = lines(t).map_values(f) + after_body;
    let all = seq![sep] + after_sep;
    assert(lines(whole + rest) == all);
    assert(all.skip(1) =~= after_sep);
    let m = t.push(10);
    lemma_without_blank(t);
    assert(terminated(t) == terminated(raw));
    lemma_not_marker(nl);
    assert(unquoted(nl) == nl);
    assert(!begins(nl, from_marker()));
    assert(after_body.skip(1) =~= lines(rest));
    assert(t + nl =~= m);
    if t.len() > 0 {
        lemma_lines_shape(t);
        lemma_lines_flatten(t);
        lemma_read_body(lines(t), after_body, Seq::empty(), false);
        assert(Seq::<u8>::empty() + t =~= t);
    } else {
        assert(lines(t).map_values(f) + after_body =~= after_body);
        assert(Seq::<u8>::empty() + nl =~= m);
    }
    assert(read(after_sep, Some(Seq::empty()), false) == read(lines(rest), Some(m), true));
    assert(read(all, current, true) == closed_message(current) + read(lines(rest), Some(m), true));
}

proof fn lemma_read_archive(es: Seq<Posted>, current: Option<Seq<u8>>)
    ensures
        read(lines(archive(es)), current, true) == closed_message(current) + es.map_values(
            |e: Posted| terminated(e.raw),
        ),
    decreases es.len(),
{
    let f = |e: Posted| terminated(e.raw);
    if es.len() == 0 {
        assert(read(lines(archive(es)), current, true) =~= closed_message(current) + es.map_values(
            f,
        ));
    } else {
        let rest = es.skip(1);
        lemma_read_entry(es[0], archive(rest), current);
        let m = choose|m: Seq<u8>|
            without_blank(m) == terminated(es[0].raw) && read(
                lines(entry(es[0].raw, es[0].sender, es[0].date) + archive(rest)),
                current,
                true,
            ) == closed_message(current) + #[trigger] read(lines(archive(rest)), Some(m), true);
        lemma_read_archive(rest, Some(m));
        assert(es.map_values(f) =~= seq![terminated(es[0].raw)] + rest.map_values(f));
        assert(closed_message(Some(m)) =~= seq![terminated(es[0].raw)]);
    }
}

/// An archive reads back as the messages that were written to it, byte for
/// byte, whatever envelopes they were written with; a message without a final
/// newline gains exactly that newline.
pub proof fn an_archive_reads_back(es: Seq<Posted>)
    ensures
        archived(archive(es)) == es.map_values(|e: Posted| terminated(e.raw)),
{
    lemma_read_archive(es, None);
    assert(closed_message(None) + es.map_values(|e: Posted| terminated(e.raw)) =~= es.map_values(
        |e: Posted| terminated(e.raw),
    ));
}

/// The envelope a message is filed under: its first sender and its date, or
/// the conventional stand-ins where it has none.
pub open spec fn envelope(sender: Option<Seq<char>>, date: Option<i64>) -> (Seq<char>, Seq<char>) {
    (
        match sender {
            Some(address) => address,
            None => "MAILER-DAEMON"@,
        },
        match date {
            Some(secs) => if on_calendar(secs as int) {
                written(secs as int, ASCTIME@)
            } else {
                DEFAULT_DATE@
            },
            None => DEFAULT_DATE@,
        },
    )
}

/// The address of the first sender and the date of a message.
pub open spec fn origin(raw: Seq<u8>) -> (Option<Seq<char>>, Option<i64>) {
    if parses(raw) {
        let m = shown_in(raw);
        (
            if m.from.len() > 0 {
                Some(m.from[0].address)
            } else {
                None
            },
            m.date,
        )
    } else {
        (None, None)
    }
}

/// An entry whose envelope is read from the message itself.
pub open spec fn own_entry(raw: Seq<u8>) -> Posted {
    let e = envelope(origin(raw).0, origin(raw).1);
    Posted { raw, sender: e.0, date: e.1 }
}

/// The envelope sender and date for a message's separator line, from the first
/// sender's address and the date in its own headers.
#[must_use]
pub fn envelope_text(sender: Option<&str>, date: Option<i64>) -> (r: (String, String))
    ensures
        (r.0@, r.1@) == envelope(opt_str(sender), date),
{
    let who: String = match sender {
        Some(address) => address.to_owned(),
        None => "MAILER-DAEMON".to_owned(),
    };
    let when: String = match date {
        Some(secs) => match write_date(secs, ASCTIME) {
            Some(text) => text,
            None => DEFAULT_DATE.to_owned(),
        },
        None => DEFAULT_DATE.to_owned(),
    };
    (who, when)
}

fn envelope_of(raw: &[u8]) -> (r: (String, String))
    ensures
        (r.0@, r.1@) == envelope(origin(raw@).0, origin(raw@).1),
{
    match Message::parse(raw) {
        None => envelope_text(None, None),
        Some(message) => match message.sender() {
            Some(m) => {
                assert(mailbox_views(message.from@)[0] == message.from@[0]@);
                envelope_text(Some(m.address.as_str()), message.date)
            },
            None => envelope_text(None, message.date),
        },
    }
}

/// Appends one message to an archive being built.
///
/// The envelope sender and date on the separator line are read from the
/// message's own `From` and `Date` where it has them; a message that carries
/// neither gets the conventional placeholders instead of blocking an export.
pub fn append(out: &mut Vec<u8>, raw: &[u8])
    ensures
        final(out)@ == old(out)@ + entry(raw@, own_entry(raw@).sender, own_entry(raw@).date),
{
    let (sender, date): (String, String) = envelope_of(raw);
    append_with_envelope(out, raw, &sender, &date);
}

proof fn lemma_archive_push(es: Seq<Posted>, e: Posted)
    ensures
        archive(es.push(e)) == archive(es) + entry(e.raw, e.sender, e.date),
    decreases es.len(),
{
    let all = es.push(e);
    let last = entry(e.raw, e.sender, e.date);
    if es.len() == 0 {
        assert(all.skip(1) =~= Seq::<Posted>::empty());
        assert(archive(all.skip(1)) =~= Seq::<u8>::empty());
        assert(last + Seq::<u8>::empty() =~= Seq::<u8>::empty() + last);
    } else {
        assert(all.skip(1) =~= es.skip(1).push(e));
        lemma_archive_push(es.skip(1), e);
        let first = entry(es[0].raw, es[0].sender, es[0].date);
        assert(first + (archive(es.skip(1)) + last) =~= (first + archive(es.skip(1))) + last);
    }
}

/// Writes messages as an mbox archive: each entry gets the separator line the
/// format requires, its body lines stuffed, and a blank line after it.
#[must_use]
pub fn write(messages: &Vec<Vec<u8>>) -> (r: Vec<u8>)
    ensures
        r@ == archive(contents_of(messages@).map_values(|raw: Seq<u8>| own_entry(raw))),
        archived(r@) == contents_of(messages@).map_values(|raw: Seq<u8>| terminated(raw)),
{
    let ghost all = contents_of(messages@).map_values(|raw: Seq<u8>| own_entry(raw));
    let mut out: Vec<u8> = Vec::new();
    let mut i: usize = 0;
    assert(all.take(0) =~= Seq::<Posted>::empty());
    assert(archive(all.take(0)) =~= out@);
    while i < messages.len()
        invariant
            i <= messages@.len(),
            all == contents_of(messages@).map_values(|raw: Seq<u8>| own_entry(raw)),
            out@ == archive(all.take(i as int)),
        decreases messages@.len() - i,
    {
        proof {
            assert(all[i as int] == own_entry(messages@[i as int]@));
            lemma_archive_push(all.take(i as int), all[i as int]);
            assert(all.take(i as int).push(all[i as int]) =~= all.take(i + 1));
        }
        append(&mut out, &messages[i]);
        i = i + 1;
    }
    proof {
        assert(all.take(i as int) =~= all);
        an_archive_reads_back(all);
        assert(all.map_values(|e: Posted| terminated(e.raw)) =~= contents_of(
            messages@,
        ).map_values(|raw: Seq<u8>| terminated(raw)));
    }
    out
}

/// Which lines an archive marks: those that begin with `From `, behind any number of `>`. One
/// `>` is put in front of them, and every other line stays as it is.
pub proof fn which_lines_are_marked(marks: Seq<u8>, rest: Seq<u8>)
    requires
        forall|i: int| 0 <= i < marks.len() ==> #[trigger] marks[i] == 62,
        rest.len() == 0 || rest[0] != 62,
    ensures
        rest.len() >= 5 && rest[0] == 70 && rest[1] == 114 && rest[2] == 111 && rest[3] == 109
            && rest[4] == 32 ==> stuffed(marks + rest) == seq![62u8] + marks + rest && unstuffed(
            seq![62u8] + marks + rest,
        ) == marks + rest,
        !(rest.len() >= 5 && rest[0] == 70 && rest[1] == 114 && rest[2] == 111 && rest[3] == 109
            && rest[4] == 32) ==> stuffed(marks + rest) == marks + rest && unstuffed(marks + rest)
            == marks + rest,
{
    lemma_unquoted(marks, rest);
    let one = seq![62u8] + marks;
    lemma_unquoted(one, rest);
    assert(seq![62u8] + (marks + rest) =~= one + rest);
    assert((one + rest).skip(1) =~= marks + rest);
    if rest.len() >= 5 {
        assert(rest.take(5)[0] == rest[0] && rest.take(5)[1] == rest[1] && rest.take(5)[2]
            == rest[2] && rest.take(5)[3] == rest[3] && rest.take(5)[4] == rest[4]);
        if rest[0] == 70 && rest[1] == 114 && rest[2] == 111 && rest[3] == 109 && rest[4] == 32 {
            assert(rest.take(5) =~= from_marker());
        }
    }
}

proof fn lemma_unquoted(marks: Seq<u8>, rest: Seq<u8>)
    requires
        forall|i: int| 0 <= i < marks.len() ==> #[trigger] marks[i] == 62,
        rest.len() == 0 || rest[0] != 62,
    ensures
        unquoted(marks + rest) == rest,
    decreases marks.len(),
{
    if marks.len() == 0 {
        assert(marks + rest =~= rest);
    } else {
        assert(marks[0] == 62);
        assert((marks + rest).skip(1) =~= marks.skip(1) + rest);
        lemma_unquoted(marks.skip(1), rest);
    }
}

/// How an entry begins: with `From `, which no line of its message does.
pub proof fn how_an_entry_begins(raw: Seq<u8>, sender: Seq<char>, date: Seq<char>)
    ensures
        entry(raw, sender, date).len() > 5,
        entry(raw, sender, date).take(5) == seq![70u8, 114u8, 111u8, 109u8, 32u8],
        forall|line: Seq<u8>|
            (#[trigger] stuffed(line)).len() < 5 || stuffed(line).take(5) != seq![
                70u8,
                114u8,
                111u8,
                109u8,
                32u8,
            ],
{
    assert(entry(raw, sender, date).take(5) =~= seq![70u8, 114u8, 111u8, 109u8, 32u8]);
    assert forall|line: Seq<u8>|
        (#[trigger] stuffed(line)).len() < 5 || stuffed(line).take(5) != seq![
            70u8,
            114u8,
            111u8,
            109u8,
            32u8,
        ] by {
        lemma_not_marker(line);
    }
}

/// Under whom and when a message is filed: its first sender and its own date, where it has
/// them.
pub proof fn under_whom_a_message_is_filed(sender: Option<Seq<char>>, date: Option<i64>)
    ensures
        sender matches Some(address) ==> envelope(sender, date).0 == address,
        sender is None ==> envelope(sender, date).0 == "MAILER-DAEMON"@,
        date matches Some(secs) ==> on_calendar(secs as int) ==> envelope(sender, date).1
            == written(secs as int, ASCTIME@),
{
}

} // verus!
