//! Bytes: lines, prefixes, and the bytes text is made of.

use vstd::prelude::*;
use vstd::utf8::{encode_scalar, encode_utf8};

use crate::chars::control;

verus! {

/// The length of the first line, its terminator and all.
pub open spec fn first_line_len(b: Seq<u8>) -> nat
    decreases b.len(),
{
    if b.len() == 0 {
        0
    } else if b[0] == 10 {
        1
    } else {
        1 + first_line_len(b.skip(1))
    }
}

/// The lines of `b`, each with the terminator it came with.
pub open spec fn lines(b: Seq<u8>) -> Seq<Seq<u8>>
    decreases b.len(),
{
    if b.len() == 0 {
        Seq::empty()
    } else {
        let n = first_line_len(b) as int;
        if 0 < n <= b.len() {
            seq![b.take(n)] + lines(b.skip(n))
        } else {
            Seq::empty()
        }
    }
}

pub open spec fn ends_line(b: Seq<u8>) -> bool {
    b.len() > 0 && b.last() == 10
}

/// The lists of bytes behind a list of buffers.
pub open spec fn contents_of(v: Seq<Vec<u8>>) -> Seq<Seq<u8>> {
    v.map_values(|b: Vec<u8>| b@)
}

pub open spec fn begins(b: Seq<u8>, p: Seq<u8>) -> bool {
    p.len() <= b.len() && b.take(p.len() as int) == p
}

pub proof fn lemma_first_line(b: Seq<u8>)
    ensures
        first_line_len(b) <= b.len(),
        b.len() > 0 ==> first_line_len(b) > 0,
        forall|j: int| 0 <= j < first_line_len(b) - 1 ==> #[trigger] b[j] != 10,
        first_line_len(b) < b.len() ==> b[first_line_len(b) - 1] == 10,
    decreases b.len(),
{
    if b.len() > 0 && b[0] != 10 {
        let t = b.skip(1);
        lemma_first_line(t);
        let n = first_line_len(b) as int;
        assert forall|j: int| 0 <= j < n - 1 implies #[trigger] b[j] != 10 by {
            if j > 0 {
                assert(b[j] == t[j - 1]);
            }
        }
        if n < b.len() {
            assert(b[n - 1] == t[n - 2]);
        }
    }
}

pub proof fn lemma_first_line_is(b: Seq<u8>, n: int)
    requires
        0 < n <= b.len(),
        forall|j: int| 0 <= j < n - 1 ==> #[trigger] b[j] != 10,
        n < b.len() ==> b[n - 1] == 10,
    ensures
        first_line_len(b) == n,
{
    lemma_first_line(b);
    let m = first_line_len(b) as int;
    if m < n {
        assert(b[m - 1] != 10);
    }
    if n < m {
        assert(b[n - 1] != 10);
    }
}

/// Lines of two texts put together, when the first ends its last line.
pub proof fn lemma_lines_concat(a: Seq<u8>, b: Seq<u8>)
    requires
        a.len() == 0 || ends_line(a),
    ensures
        lines(a + b) == lines(a) + lines(b),
    decreases a.len(),
{
    if a.len() == 0 {
        assert(a + b =~= b);
        assert(lines(a) + lines(b) =~= lines(b));
    } else {
        lemma_first_line(a);
        let n = first_line_len(a) as int;
        let s = a + b;
        assert forall|j: int| 0 <= j < n - 1 implies #[trigger] s[j] != 10 by {
            assert(s[j] == a[j]);
        }
        assert(s[n - 1] == a[n - 1]);
        if n == a.len() {
            assert(a[n - 1] == 10);
        }
        lemma_first_line_is(s, n);
        assert(s.take(n) =~= a.take(n));
        assert(s.skip(n) =~= a.skip(n) + b);
        lemma_lines_concat(a.skip(n), b);
        assert(seq![a.take(n)] + (lines(a.skip(n)) + lines(b)) =~= (seq![a.take(n)] + lines(
            a.skip(n),
        )) + lines(b));
    }
}

/// A text that is one line.
pub proof fn lemma_one_line(l: Seq<u8>)
    requires
        l.len() > 0,
        forall|j: int| 0 <= j < l.len() - 1 ==> #[trigger] l[j] != 10,
    ensures
        lines(l) == seq![l],
{
    lemma_first_line_is(l, l.len() as int);
    assert(l.take(l.len() as int) =~= l);
    let none = l.skip(l.len() as int);
    assert(none.len() == 0);
    assert(lines(none) =~= Seq::<Seq<u8>>::empty());
    assert(seq![l] + lines(none) =~= seq![l]);
}

/// The lines of a text, put together again, are the text.
pub proof fn lemma_lines_flatten(b: Seq<u8>)
    ensures
        lines(b).flatten() == b,
    decreases b.len(),
{
    if b.len() == 0 {
        assert(lines(b).flatten() =~= b);
    } else {
        lemma_first_line(b);
        let n = first_line_len(b) as int;
        let rest = lines(b.skip(n));
        lemma_lines_flatten(b.skip(n));
        let all = seq![b.take(n)] + rest;
        assert(all.first() == b.take(n));
        assert(all.drop_first() =~= rest);
        assert(all.flatten() == b.take(n) + rest.flatten());
        assert(b.take(n) + b.skip(n) =~= b);
    }
}

/// Every line but the last ends with a newline, and none has one inside.
pub proof fn lemma_lines_shape(b: Seq<u8>)
    ensures
        forall|i: int|
            0 <= i < lines(b).len() ==> (#[trigger] lines(b)[i]).len() > 0 && (forall|j: int|
                0 <= j < lines(b)[i].len() - 1 ==> #[trigger] lines(b)[i][j] != 10),
        forall|i: int| 0 <= i < lines(b).len() - 1 ==> ends_line(#[trigger] lines(b)[i]),
        b.len() > 0 ==> lines(b).len() > 0 && lines(b).last().last() == b.last(),
        b.len() == 0 ==> lines(b).len() == 0,
    decreases b.len(),
{
    if b.len() > 0 {
        lemma_first_line(b);
        let n = first_line_len(b) as int;
        let t = b.skip(n);
        lemma_lines_shape(t);
        let ls = lines(b);
        assert(ls[0] == b.take(n));
        assert forall|i: int| 0 <= i < ls.len() implies (#[trigger] ls[i]).len() > 0 && (forall|
            j: int,
        |
            0 <= j < ls[i].len() - 1 ==> #[trigger] ls[i][j] != 10) by {
            if i > 0 {
                assert(ls[i] == lines(t)[i - 1]);
            }
        }
        assert forall|i: int| 0 <= i < ls.len() - 1 implies ends_line(#[trigger] ls[i]) by {
            if i > 0 {
                assert(ls[i] == lines(t)[i - 1]);
            } else {
                assert(t.len() > 0);
            }
        }
        if t.len() > 0 {
            assert(ls.last() == lines(t).last());
            assert(t.last() == b.last());
        } else {
            assert(ls.last() == b.take(n));
            assert(b.take(n).last() == b.last());
        }
    }
}

proof fn lemma_scalar_bytes(c: u32)
    requires
        vstd::utf8::is_scalar(c),
        c != 10,
    ensures
        forall|i: int| 0 <= i < encode_scalar(c).len() ==> #[trigger] encode_scalar(c)[i] != 10,
{
    if c <= 0x7f {
        assert((c & 0x7f) as u8 != 10u8) by (bit_vector)
            requires
                c <= 0x7f,
                c != 10,
        ;
    }
    assert((0x80u8 | ((c & 0x3f) as u8)) != 10u8) by (bit_vector);
    assert((0x80u8 | (((c >> 6) & 0x3f) as u8)) != 10u8) by (bit_vector);
    assert((0x80u8 | (((c >> 12) & 0x3f) as u8)) != 10u8) by (bit_vector);
    assert((0xc0u8 | (((c >> 6) & 0x1f) as u8)) != 10u8) by (bit_vector);
    assert((0xe0u8 | (((c >> 12) & 0x0f) as u8)) != 10u8) by (bit_vector);
    assert((0xf0u8 | (((c >> 18) & 0x07) as u8)) != 10u8) by (bit_vector);
}

/// Text without control characters has no newline among its bytes.
pub proof fn lemma_no_newline(s: Seq<char>)
    requires
        forall|i: int| 0 <= i < s.len() ==> !control(#[trigger] s[i]),
    ensures
        forall|i: int| 0 <= i < encode_utf8(s).len() ==> #[trigger] encode_utf8(s)[i] != 10,
    decreases s.len(),
{
    if s.len() > 0 {
        let t = s.drop_first();
        assert forall|i: int| 0 <= i < t.len() implies !control(#[trigger] t[i]) by {
            assert(t[i] == s[i + 1]);
        }
        lemma_no_newline(t);
        assert(!control(s[0]));
        vstd::utf8::char_is_scalar(s[0]);
        lemma_scalar_bytes(s[0] as u32);
        let h = encode_scalar(s[0] as u32);
        assert forall|i: int| 0 <= i < encode_utf8(s).len() implies #[trigger] encode_utf8(s)[i]
            != 10 by {
            if i < h.len() {
                assert(encode_utf8(s)[i] == h[i]);
            } else {
                assert(encode_utf8(s)[i] == encode_utf8(t)[i - h.len()]);
            }
        }
    }
}

pub fn push_bytes(out: &mut Vec<u8>, more: &[u8])
    ensures
        final(out)@ == old(out)@ + more@,
{
    let ghost before = out@;
    out.extend_from_slice(more);
    assert(out@ =~= before + more@);
}

pub fn copy_slice(b: &[u8]) -> (r: Vec<u8>)
    ensures
        r@ == b@,
{
    let mut out: Vec<u8> = Vec::new();
    push_bytes(&mut out, b);
    assert(out@ =~= b@);
    out
}

pub fn same_bytes(a: &[u8], b: &[u8]) -> (r: bool)
    ensures
        r == (a@ == b@),
{
    if a.len() != b.len() {
        return false;
    }
    let mut i: usize = 0;
    while i < a.len()
        invariant
            i <= a@.len(),
            a@.len() == b@.len(),
            forall|j: int| 0 <= j < i ==> a@[j] == b@[j],
        decreases a@.len() - i,
    {
        if a[i] != b[i] {
            assert(a@[i as int] != b@[i as int]);
            return false;
        }
        i = i + 1;
    }
    assert(a@ =~= b@);
    true
}

pub fn rest_of(b: &[u8], from: usize) -> (r: &[u8])
    requires
        from <= b@.len(),
    ensures
        r@ == b@.skip(from as int),
{
    let r = &b[from..b.len()];
    assert(r@ =~= b@.skip(from as int));
    r
}

pub fn head_of(b: &[u8], to: usize) -> (r: &[u8])
    requires
        to <= b@.len(),
    ensures
        r@ == b@.take(to as int),
{
    let r = &b[0..to];
    assert(r@ =~= b@.take(to as int));
    r
}

pub fn first_line_end(b: &[u8]) -> (n: usize)
    ensures
        n == first_line_len(b@),
        n <= b@.len(),
        b@.len() > 0 ==> n > 0,
{
    let mut i: usize = 0;
    while i < b.len()
        invariant
            i <= b@.len(),
            forall|j: int| 0 <= j < i ==> #[trigger] b@[j] != 10,
        decreases b@.len() - i,
    {
        if b[i] == 10 {
            proof {
                lemma_first_line_is(b@, i + 1);
            }
            return i + 1;
        }
        i = i + 1;
    }
    proof {
        if b@.len() > 0 {
            lemma_first_line_is(b@, i as int);
        }
    }
    i
}

} // verus!
