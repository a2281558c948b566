//! Base64 and UTF-16.

use base64::engine::general_purpose::{STANDARD, STANDARD_NO_PAD, URL_SAFE_NO_PAD};
use base64::Engine;
use vstd::prelude::*;
use vstd::utf8::encode_utf8;

verus! {

/// Bytes in base64, with the standard alphabet and padding.
pub uninterp spec fn base64_text(bytes: Seq<u8>) -> Seq<char>;

/// `base64::engine::general_purpose::STANDARD.encode`.
#[verifier::external_body]
pub(crate) fn encode_base64(bytes: &[u8]) -> (r: String)
    ensures
        r@ == base64_text(bytes@),
{
    STANDARD.encode(bytes)
}

/// The bytes a text in base64 stands for, with the standard alphabet and
/// padding; nothing, where it is not well-formed.
pub uninterp spec fn base64_bytes(text: Seq<char>) -> Option<Seq<u8>>;

/// What is reported of a text that is not well-formed base64.
pub uninterp spec fn base64_fault(text: Seq<char>) -> Seq<char>;

/// `base64::engine::general_purpose::STANDARD.decode`: the bytes, or the words
/// of the error.
#[verifier::external_body]
pub(crate) fn decode_base64(text: &str) -> (r: std::result::Result<Vec<u8>, String>)
    ensures
        match r {
            Ok(bytes) => base64_bytes(text@) == Some(bytes@),
            Err(why) => base64_bytes(text@) is None && why@ == base64_fault(text@),
        },
{
    STANDARD.decode(text).map_err(|why| why.to_string())
}

/// A character of the standard base64 alphabet.
pub open spec fn base64_char(c: char) -> bool {
    'A' <= c <= 'Z' || 'a' <= c <= 'z' || '0' <= c <= '9' || c == '+' || c == '/'
}

/// A text filled up with `=` to a multiple of four characters.
pub open spec fn padded(t: Seq<char>) -> Seq<char> {
    if t.len() % 4 == 1 {
        t + seq!['=', '=', '=']
    } else if t.len() % 4 == 2 {
        t + seq!['=', '=']
    } else if t.len() % 4 == 3 {
        t + seq!['=']
    } else {
        t
    }
}

/// Bytes in base64, with the standard alphabet and without padding.
pub uninterp spec fn base64_bare(bytes: Seq<u8>) -> Seq<char>;

/// `base64::engine::general_purpose::STANDARD_NO_PAD.encode`: only characters
/// of the alphabet, some for some bytes, and with its padding it decodes to the
/// bytes again.
#[verifier::external_body]
pub(crate) fn encode_base64_bare(bytes: &[u8]) -> (r: String)
    ensures
        r@ == base64_bare(bytes@),
        forall|i: int| 0 <= i < r@.len() ==> base64_char(#[trigger] r@[i]),
        bytes@.len() > 0 ==> r@.len() > 0,
        base64_bytes(padded(r@)) == Some(bytes@),
{
    STANDARD_NO_PAD.encode(bytes)
}

/// Bytes in base64, with the URL-safe alphabet and without padding.
pub uninterp spec fn base64_url(bytes: Seq<u8>) -> Seq<char>;

/// A text filled up with `=` until its UTF-8 form has a multiple of four bytes.
pub open spec fn filled(t: Seq<char>) -> Seq<char> {
    let n = encode_utf8(t).len();
    if n % 4 == 1 {
        t + seq!['=', '=', '=']
    } else if n % 4 == 2 {
        t + seq!['=', '=']
    } else if n % 4 == 3 {
        t + seq!['=']
    } else {
        t
    }
}

/// A URL-safe base64 text in the standard alphabet, with its padding.
pub open spec fn normalised(data: Seq<char>) -> Seq<char> {
    filled(swapped(swapped(data, '-', '+'), '_', '/'))
}

/// `base64::engine::general_purpose::URL_SAFE_NO_PAD.encode`: in the standard
/// alphabet and with its padding it decodes to the bytes again.
#[verifier::external_body]
pub(crate) fn encode_base64_url(bytes: &[u8]) -> (r: String)
    ensures
        r@ == base64_url(bytes@),
        base64_bytes(normalised(r@)) == Some(bytes@),
{
    URL_SAFE_NO_PAD.encode(bytes)
}

/// Writes a URL-safe base64 text in the standard alphabet, with its padding.
pub(crate) fn normalise(data: &str) -> (r: String)
    ensures
        r@ == normalised(data@),
{
    let plus: Vec<char> = swap_char(&crate::chars::to_chars(data), '-', '+');
    let both: Vec<char> = swap_char(&plus, '_', '/');
    let text: String = crate::chars::to_text(&both);
    let n: usize = text.as_str().as_bytes().len() % 4;
    let mut out: Vec<char> = both;
    if n == 1 {
        out.push('=');
        out.push('=');
        out.push('=');
    } else if n == 2 {
        out.push('=');
        out.push('=');
    } else if n == 3 {
        out.push('=');
    }
    assert(out@ =~= normalised(data@));
    crate::chars::to_text(&out)
}

/// Fills a text up with `=` to a multiple of four characters.
pub(crate) fn pad(t: &Vec<char>) -> (r: Vec<char>)
    ensures
        r@ == padded(t@),
{
    let mut out: Vec<char> = crate::chars::copy_of(t);
    let n: usize = t.len() % 4;
    if n == 1 {
        out.push('=');
        out.push('=');
        out.push('=');
    } else if n == 2 {
        out.push('=');
        out.push('=');
    } else if n == 3 {
        out.push('=');
    }
    assert(out@ =~= padded(t@));
    out
}

/// `t` with one character in place of another.
pub open spec fn swapped(t: Seq<char>, from: char, to: char) -> Seq<char> {
    t.map_values(
        |c: char|
            if c == from {
                to
            } else {
                c
            },
    )
}

pub(crate) fn swap_char(t: &[char], from: char, to: char) -> (r: Vec<char>)
    ensures
        r@ == swapped(t@, from, to),
{
    let mut out: Vec<char> = Vec::new();
    let mut i: usize = 0;
    while i < t.len()
        invariant
            i <= t@.len(),
            out@.len() == i,
            forall|k: int| 0 <= k < i ==> #[trigger] out@[k] == swapped(t@, from, to)[k],
        decreases t@.len() - i,
    {
        out.push(
            if t[i] == from {
                to
            } else {
                t[i]
            },
        );
        i = i + 1;
    }
    assert(out@ =~= swapped(t@, from, to));
    out
}

// ---- UTF-16 ----

/// `char::from_u32`: the character with a scalar value, where it is one.
pub assume_specification[ char::from_u32 ](i: u32) -> (r: Option<char>)
    ensures
        match r {
            Some(c) => c as u32 == i && c == i as char,
            None => !(i < 0xd800 || 0xe000 <= i <= 0x10ffff),
        },
;

/// The UTF-16 code units of a character.
pub open spec fn units(c: char) -> Seq<u16> {
    let n = c as u32;
    if n < 0x10000 {
        seq![n as u16]
    } else {
        seq![(0xd800 + (n - 0x10000) / 0x400) as u16, (0xdc00 + (n - 0x10000) % 0x400) as u16]
    }
}

pub open spec fn utf16(s: Seq<char>) -> Seq<u16>
    decreases s.len(),
{
    if s.len() == 0 {
        Seq::empty()
    } else {
        utf16(s.drop_last()) + units(s.last())
    }
}

pub open spec fn high(u: u16) -> bool {
    0xd800 <= u < 0xdc00
}

pub open spec fn low(u: u16) -> bool {
    0xdc00 <= u < 0xe000
}

/// The character a surrogate pair stands for.
pub open spec fn paired(h: u16, l: u16) -> char {
    (0x10000 + (h - 0xd800) * 0x400 + (l - 0xdc00)) as char
}

/// A text from UTF-16 code units, with U+FFFD for a unit that has no partner.
pub open spec fn from_utf16(u: Seq<u16>) -> Seq<char>
    decreases u.len(),
{
    if u.len() == 0 {
        Seq::empty()
    } else if !high(u[0]) && !low(u[0]) {
        seq![u[0] as char] + from_utf16(u.skip(1))
    } else if high(u[0]) && u.len() > 1 && low(u[1]) {
        seq![paired(u[0], u[1])] + from_utf16(u.skip(2))
    } else {
        seq!['\u{fffd}'] + from_utf16(u.skip(1))
    }
}

/// Pushes the UTF-16 code units of a character.
pub(crate) fn push_units(out: &mut Vec<u16>, c: char)
    ensures
        final(out)@ == old(out)@ + units(c),
{
    let n: u32 = c as u32;
    if n < 0x10000 {
        out.push(n as u16);
    } else {
        let m: u32 = n - 0x10000;
        out.push((0xd800 + m / 0x400) as u16);
        out.push((0xdc00 + m % 0x400) as u16);
    }
    assert(out@ =~= old(out)@ + units(c));
}

/// Reads UTF-16, with U+FFFD for a unit that has no partner.
pub(crate) fn decode_utf16(u: &Vec<u16>) -> (r: Vec<char>)
    ensures
        r@ == from_utf16(u@),
{
    let mut out: Vec<char> = Vec::new();
    let mut i: usize = 0;
    let n: usize = u.len();
    assert(u@.skip(0) =~= u@);
    assert(out@ + from_utf16(u@) =~= from_utf16(u@));
    while i < n
        invariant
            i <= n == u@.len(),
            out@ + from_utf16(u@.skip(i as int)) == from_utf16(u@),
        decreases n - i,
    {
        let ghost rest = u@.skip(i as int);
        let ghost before = out@;
        let a: u16 = u[i];
        assert(rest[0] == a);
        if !(0xd800 <= a && a < 0xe000) {
            match char::from_u32(a as u32) {
                Some(c) => {
                    out.push(c);
                    proof {
                        assert(rest.skip(1) =~= u@.skip(i + 1));
                        assert(c == a as char);
                        let tail = from_utf16(u@.skip(i + 1));
                        assert(before + (seq![a as char] + tail) =~= out@ + tail);
                    }
                },
                None => {},
            }
            i = i + 1;
        } else if a < 0xdc00 && i + 1 < n && 0xdc00 <= u[i + 1] && u[i + 1] < 0xe000 {
            let b: u16 = u[i + 1];
            assert(rest[1] == b);
            let v: u32 = 0x10000 + (a as u32 - 0xd800) * 0x400 + (b as u32 - 0xdc00);
            match char::from_u32(v) {
                Some(c) => {
                    out.push(c);
                    proof {
                        assert(rest.skip(2) =~= u@.skip(i + 2));
                        assert(c == paired(a, b));
                        let tail = from_utf16(u@.skip(i + 2));
                        assert(before + (seq![paired(a, b)] + tail) =~= out@ + tail);
                    }
                },
                None => {},
            }
            i = i + 2;
        } else {
            out.push('\u{fffd}');
            proof {
                assert(rest.skip(1) =~= u@.skip(i + 1));
                let tail = from_utf16(u@.skip(i + 1));
                assert(before + (seq!['\u{fffd}'] + tail) =~= out@ + tail);
            }
            i = i + 1;
        }
    }
    assert(u@.skip(i as int).len() == 0);
    assert(out@ + from_utf16(u@.skip(i as int)) =~= out@);
    out
}

proof fn lemma_units(c: char, rest: Seq<u16>)
    ensures
        from_utf16(units(c) + rest) == seq![c] + from_utf16(rest),
{
    let n = c as u32;
    let u = units(c) + rest;
    if n < 0x10000 {
        assert(u[0] == n as u16);
        assert(u.skip(1) =~= rest);
        assert(u[0] as char == c);
    } else {
        let m = n - 0x10000;
        assert(u[0] == (0xd800 + m / 0x400) as u16);
        assert(u[1] == (0xdc00 + m % 0x400) as u16);
        assert(m / 0x400 < 0x400);
        assert(high(u[0]) && low(u[1]));
        assert(u.skip(2) =~= rest);
        assert((m / 0x400) * 0x400 + m % 0x400 == m);
        assert(paired(u[0], u[1]) == c);
    }
}

/// A text written as UTF-16 reads back as itself, whatever follows it.
pub proof fn utf16_reads_back(s: Seq<char>, rest: Seq<u16>)
    ensures
        from_utf16(utf16(s) + rest) == s + from_utf16(rest),
    decreases s.len(),
{
    if s.len() == 0 {
        assert(utf16(s) + rest =~= rest);
        assert(s + from_utf16(rest) =~= from_utf16(rest));
    } else {
        let t = s.drop_last();
        utf16_reads_back(t, units(s.last()) + rest);
        lemma_units(s.last(), rest);
        assert(utf16(s) + rest =~= utf16(t) + (units(s.last()) + rest));
        assert(t + (seq![s.last()] + from_utf16(rest)) =~= s + from_utf16(rest));
    }
}

/// Code units as bytes, the high byte first.
pub open spec fn big_endian(u: Seq<u16>) -> Seq<u8>
    decreases u.len(),
{
    if u.len() == 0 {
        Seq::empty()
    } else {
        big_endian(u.drop_last()).push((u.last() / 256) as u8).push((u.last() % 256) as u8)
    }
}

/// Pairs of bytes as code units; a last byte without a partner is left out.
pub open spec fn from_big_endian(b: Seq<u8>) -> Seq<u16> {
    Seq::new(b.len() / 2, |i: int| (b[2 * i] * 256 + b[2 * i + 1]) as u16)
}

pub(crate) proof fn lemma_big_endian(u: Seq<u16>)
    ensures
        big_endian(u).len() == 2 * u.len(),
        from_big_endian(big_endian(u)) == u,
    decreases u.len(),
{
    if u.len() > 0 {
        let t = u.drop_last();
        lemma_big_endian(t);
        let b = big_endian(u);
        assert forall|i: int| 0 <= i < u.len() implies #[trigger] from_big_endian(b)[i] == u[i] by {
            if i < t.len() {
                assert(b[2 * i] == big_endian(t)[2 * i]);
                assert(b[2 * i + 1] == big_endian(t)[2 * i + 1]);
                assert(from_big_endian(big_endian(t))[i] == t[i]);
            } else {
                let x = u.last();
                assert(b[2 * i] == (x / 256) as u8);
                assert(b[2 * i + 1] == (x % 256) as u8);
            }
        }
    }
    assert(from_big_endian(big_endian(u)) =~= u);
}

pub(crate) fn bytes_of_units(u: &Vec<u16>) -> (r: Vec<u8>)
    ensures
        r@ == big_endian(u@),
{
    let mut out: Vec<u8> = Vec::new();
    let mut i: usize = 0;
    assert(u@.take(0) =~= Seq::<u16>::empty());
    while i < u.len()
        invariant
            i <= u@.len(),
            out@ == big_endian(u@.take(i as int)),
        decreases u@.len() - i,
    {
        proof {
            assert(u@.take(i + 1).drop_last() =~= u@.take(i as int));
            assert(u@.take(i + 1).last() == u@[i as int]);
        }
        out.push((u[i] / 256) as u8);
        out.push((u[i] % 256) as u8);
        i = i + 1;
    }
    assert(u@.take(i as int) =~= u@);
    out
}

pub(crate) fn units_of_bytes(b: &Vec<u8>) -> (r: Vec<u16>)
    ensures
        r@ == from_big_endian(b@),
{
    let mut out: Vec<u16> = Vec::new();
    let len: usize = b.len();
    let n: usize = len / 2;
    let mut i: usize = 0;
    while i < n
        invariant
            len == b@.len(),
            i <= n == len / 2,
            out@.len() == i,
            forall|k: int| 0 <= k < i ==> #[trigger] out@[k] == from_big_endian(b@)[k],
        decreases n - i,
    {
        out.push(b[2 * i] as u16 * 256 + b[2 * i + 1] as u16);
        i = i + 1;
    }
    assert(out@ =~= from_big_endian(b@));
    out
}

} // verus!
