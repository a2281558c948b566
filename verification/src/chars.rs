//! Text as a sequence of characters.
//!
//! Every contract in this crate speaks of text by its view, a `Seq<char>`.
//! This module names the operations those contracts use — trimming, splitting,
//! folding, searching — and proves the loops that carry them out.

use vstd::prelude::*;

verus! {

/// `String::push` appends one character to the end of the string.
pub assume_specification[ String::push ](s: &mut String, c: char)
    ensures
        final(s)@ == old(s)@.push(c),
;

/// A class of characters that text is split, trimmed or searched by.
#[derive(Clone, Copy)]
pub enum Class {
    /// Unicode white space.
    White,
    /// Exactly this character.
    Is(char),
    /// Either of these two.
    Either(char, char),
    /// Any of these three.
    Three(char, char, char),
    /// An ASCII digit.
    Digit,
    /// What an address in running prose is set off by.
    AddressBreak,
    /// What a status code in running prose is set off by.
    CodeBreak,
}

pub open spec fn address_break(c: char) -> bool {
    white(c) || c == '<' || c == '>' || c == '"' || c == '(' || c == ')' || c == '[' || c == ']'
        || c == ',' || c == ';'
}

pub open spec fn code_break(c: char) -> bool {
    white(c) || c == '(' || c == ')' || c == ',' || c == ';'
}

/// The characters with the Unicode `White_Space` property.
pub open spec fn white(c: char) -> bool {
    let n = c as u32;
    ||| 0x9 <= n <= 0xd
    ||| n == 0x20
    ||| n == 0x85
    ||| n == 0xa0
    ||| n == 0x1680
    ||| 0x2000 <= n <= 0x200a
    ||| n == 0x2028
    ||| n == 0x2029
    ||| n == 0x202f
    ||| n == 0x205f
    ||| n == 0x3000
}

/// The control characters, Unicode category `Cc`.
pub open spec fn control(c: char) -> bool {
    (c as u32) < 0x20 || 0x7f <= (c as u32) <= 0x9f
}

pub open spec fn digit(c: char) -> bool {
    '0' <= c <= '9'
}

/// ASCII letters folded to lower case, everything else as it is.
pub open spec fn lower(c: char) -> char {
    if 'A' <= c <= 'Z' {
        ((c as u32) + 32) as char
    } else {
        c
    }
}

/// ASCII letters folded to upper case, everything else as it is.
pub open spec fn upper(c: char) -> char {
    if 'a' <= c <= 'z' {
        ((c as u32) - 32) as char
    } else {
        c
    }
}

pub open spec fn lowered(s: Seq<char>) -> Seq<char> {
    s.map_values(|c: char| lower(c))
}

pub open spec fn uppered(s: Seq<char>) -> Seq<char> {
    s.map_values(|c: char| upper(c))
}

impl Class {
    pub open spec fn holds(self, c: char) -> bool {
        match self {
            Class::White => white(c),
            Class::Is(a) => c == a,
            Class::Either(a, b) => c == a || c == b,
            Class::Three(a, b, d) => c == a || c == b || c == d,
            Class::Digit => digit(c),
            Class::AddressBreak => address_break(c),
            Class::CodeBreak => code_break(c),
        }
    }

    pub fn test(&self, c: char) -> (r: bool)
        ensures
            r == self.holds(c),
    {
        match *self {
            Class::White => is_white(c),
            Class::Is(a) => c == a,
            Class::Either(a, b) => c == a || c == b,
            Class::Three(a, b, d) => c == a || c == b || c == d,
            Class::Digit => '0' <= c && c <= '9',
            Class::AddressBreak => is_white(c) || c == '<' || c == '>' || c == '"' || c == '(' || c
                == ')' || c == '[' || c == ']' || c == ',' || c == ';',
            Class::CodeBreak => is_white(c) || c == '(' || c == ')' || c == ',' || c == ';',
        }
    }
}

/// How many characters at the front of `s` are in the class (`want`) or out of
/// it (`!want`).
pub open spec fn run(s: Seq<char>, k: Class, want: bool) -> nat
    decreases s.len(),
{
    if s.len() > 0 && k.holds(s[0]) == want {
        1 + run(s.skip(1), k, want)
    } else {
        0
    }
}

/// How many characters at the end of `s` are in the class.
pub open spec fn back_run(s: Seq<char>, k: Class) -> nat
    decreases s.len(),
{
    if s.len() > 0 && k.holds(s.last()) {
        1 + back_run(s.drop_last(), k)
    } else {
        0
    }
}

/// The place of the first character in the class, or the length.
pub open spec fn find(s: Seq<char>, k: Class) -> int {
    run(s, k, false) as int
}

/// The place of the last character in the class, or -1.
pub open spec fn rfind(s: Seq<char>, k: Class) -> int
    decreases s.len(),
{
    if s.len() == 0 {
        -1
    } else if k.holds(s.last()) {
        s.len() - 1
    } else {
        rfind(s.drop_last(), k)
    }
}

pub open spec fn drop_front(s: Seq<char>, k: Class) -> Seq<char> {
    s.skip(run(s, k, true) as int)
}

pub open spec fn drop_back(s: Seq<char>, k: Class) -> Seq<char> {
    s.take(s.len() - back_run(s, k))
}

/// `s` without the class at either end.
pub open spec fn strip(s: Seq<char>, k: Class) -> Seq<char> {
    drop_back(drop_front(s, k), k)
}

/// `s` without white space at either end.
pub open spec fn trimmed(s: Seq<char>) -> Seq<char> {
    strip(s, Class::White)
}

/// `s` cut at every character of the class; there is always at least one piece.
pub open spec fn split_on(s: Seq<char>, k: Class) -> Seq<Seq<char>>
    decreases s.len(),
{
    let i = find(s, k);
    if i >= s.len() {
        seq![s]
    } else {
        seq![s.take(i)] + split_on(s.skip(i + 1), k)
    }
}

pub open spec fn begins(s: Seq<char>, p: Seq<char>) -> bool {
    p.len() <= s.len() && s.take(p.len() as int) == p
}

/// Does `needle` start at `i`?
pub open spec fn at(s: Seq<char>, i: int, needle: Seq<char>) -> bool {
    0 <= i <= s.len() - needle.len() && s.subrange(i, i + needle.len()) == needle
}

pub open spec fn contains(s: Seq<char>, needle: Seq<char>) -> bool {
    exists|i: int| #[trigger] at(s, i, needle)
}

pub open spec fn joined(parts: Seq<Seq<char>>, sep: Seq<char>) -> Seq<char>
    decreases parts.len(),
{
    if parts.len() == 0 {
        Seq::empty()
    } else if parts.len() == 1 {
        parts[0]
    } else {
        joined(parts.drop_last(), sep) + sep + parts.last()
    }
}

/// The views of a list of strings.
pub open spec fn texts(v: Seq<String>) -> Seq<Seq<char>> {
    v.map_values(|s: String| s@)
}

/// The views of a list of character buffers.
pub open spec fn pieces(v: Seq<Vec<char>>) -> Seq<Seq<char>> {
    v.map_values(|s: Vec<char>| s@)
}

pub open spec fn opt_text(o: Option<String>) -> Option<Seq<char>> {
    match o {
        Some(s) => Some(s@),
        None => None,
    }
}

pub open spec fn opt_str(o: Option<&str>) -> Option<Seq<char>> {
    match o {
        Some(s) => Some(s@),
        None => None,
    }
}

pub proof fn lemma_run(s: Seq<char>, k: Class, want: bool)
    ensures
        run(s, k, want) <= s.len(),
        forall|j: int| 0 <= j < run(s, k, want) ==> k.holds(#[trigger] s[j]) == want,
        run(s, k, want) < s.len() ==> k.holds(s[run(s, k, want) as int]) != want,
    decreases s.len(),
{
    if s.len() > 0 && k.holds(s[0]) == want {
        let t = s.skip(1);
        lemma_run(t, k, want);
        let n = run(t, k, want);
        assert forall|j: int| 0 <= j < n + 1 implies k.holds(#[trigger] s[j]) == want by {
            if j > 0 {
                assert(s[j] == t[j - 1]);
            }
        }
        if n + 1 < s.len() {
            assert(s[n as int + 1] == t[n as int]);
        }
    }
}

pub proof fn lemma_run_is(s: Seq<char>, k: Class, want: bool, r: int)
    requires
        0 <= r <= s.len(),
        forall|j: int| 0 <= j < r ==> k.holds(#[trigger] s[j]) == want,
        r < s.len() ==> k.holds(s[r]) != want,
    ensures
        run(s, k, want) == r,
{
    lemma_run(s, k, want);
    let n = run(s, k, want) as int;
    if n < r {
        assert(k.holds(s[n]) == want);
    }
    if r < n {
        assert(k.holds(s[r]) == want);
    }
}

pub proof fn lemma_back_run(s: Seq<char>, k: Class)
    ensures
        back_run(s, k) <= s.len(),
        forall|j: int| s.len() - back_run(s, k) <= j < s.len() ==> k.holds(#[trigger] s[j]),
        back_run(s, k) < s.len() ==> !k.holds(s[s.len() - back_run(s, k) - 1]),
    decreases s.len(),
{
    if s.len() > 0 && k.holds(s.last()) {
        let t = s.drop_last();
        lemma_back_run(t, k);
        let n = back_run(t, k);
        assert forall|j: int| s.len() - n - 1 <= j < s.len() implies k.holds(#[trigger] s[j]) by {
            if j < s.len() - 1 {
                assert(s[j] == t[j]);
            }
        }
        if n + 1 < s.len() {
            assert(s[s.len() - n - 2] == t[t.len() - n - 1]);
        }
    }
}

pub proof fn lemma_back_run_is(s: Seq<char>, k: Class, r: int)
    requires
        0 <= r <= s.len(),
        forall|j: int| s.len() - r <= j < s.len() ==> k.holds(#[trigger] s[j]),
        r < s.len() ==> !k.holds(s[s.len() - r - 1]),
    ensures
        back_run(s, k) == r,
{
    lemma_back_run(s, k);
    let n = back_run(s, k) as int;
    if n < r {
        assert(k.holds(s[s.len() - n - 1]));
    }
    if r < n {
        assert(k.holds(s[s.len() - r - 1]));
    }
}

pub proof fn lemma_rfind(s: Seq<char>, k: Class)
    ensures
        -1 <= rfind(s, k) < s.len(),
        rfind(s, k) >= 0 ==> k.holds(s[rfind(s, k)]),
        forall|j: int| rfind(s, k) < j < s.len() ==> !k.holds(#[trigger] s[j]),
    decreases s.len(),
{
    if s.len() > 0 && !k.holds(s.last()) {
        let t = s.drop_last();
        lemma_rfind(t, k);
        assert forall|j: int| rfind(s, k) < j < s.len() implies !k.holds(#[trigger] s[j]) by {
            if j < s.len() - 1 {
                assert(s[j] == t[j]);
            }
        }
    }
}

pub proof fn lemma_rfind_is(s: Seq<char>, k: Class, r: int)
    requires
        -1 <= r < s.len(),
        r >= 0 ==> k.holds(s[r]),
        forall|j: int| r < j < s.len() ==> !k.holds(#[trigger] s[j]),
    ensures
        rfind(s, k) == r,
{
    lemma_rfind(s, k);
    let n = rfind(s, k);
    if n < r {
        assert(!k.holds(s[r]));
    }
    if r < n {
        assert(!k.holds(s[n]));
    }
}

/// Trimming only ever drops characters.
pub proof fn lemma_trimmed_part(s: Seq<char>)
    ensures
        trimmed(s).len() <= s.len(),
        forall|i: int| 0 <= i < trimmed(s).len() ==> s.contains(#[trigger] trimmed(s)[i]),
{
    lemma_run(s, Class::White, true);
    let f = drop_front(s, Class::White);
    lemma_back_run(f, Class::White);
    let t = trimmed(s);
    assert forall|i: int| 0 <= i < t.len() implies s.contains(#[trigger] t[i]) by {
        assert(t[i] == s[i + run(s, Class::White, true)]);
    }
}

/// Trimming what is trimmed changes nothing.
pub proof fn lemma_trimmed_twice(s: Seq<char>)
    ensures
        trimmed(trimmed(s)) == trimmed(s),
{
    let w = Class::White;
    lemma_run(s, w, true);
    let f = drop_front(s, w);
    lemma_back_run(f, w);
    let t = trimmed(s);
    if t.len() > 0 {
        assert(t[0] == f[0]);
        assert(f[0] == s[run(s, w, true) as int]);
        assert(t.last() == f[f.len() - back_run(f, w) - 1]);
    }
    assert(t.skip(0) =~= t);
    assert(t.take(t.len() as int) =~= t);
}

pub fn is_white(c: char) -> (r: bool)
    ensures
        r == white(c),
{
    let n: u32 = c as u32;
    (0x9 <= n && n <= 0xd) || n == 0x20 || n == 0x85 || n == 0xa0 || n == 0x1680
        || (0x2000 <= n && n <= 0x200a) || n == 0x2028 || n == 0x2029 || n == 0x202f || n == 0x205f
        || n == 0x3000
}

pub fn is_control(c: char) -> (r: bool)
    ensures
        r == control(c),
{
    let n: u32 = c as u32;
    n < 0x20 || (0x7f <= n && n <= 0x9f)
}

/// The letter of a byte, for the bytes that are ASCII.
pub fn ascii(b: u8) -> (c: char)
    requires
        b < 128,
    ensures
        c as u32 == b as u32,
        c as u8 == b,
{
    b as char
}

pub fn to_lower(c: char) -> (r: char)
    ensures
        r == lower(c),
{
    if 'A' <= c && c <= 'Z' {
        ascii((c as u8) + 32)
    } else {
        c
    }
}

pub fn to_upper(c: char) -> (r: char)
    ensures
        r == upper(c),
{
    if 'a' <= c && c <= 'z' {
        ascii((c as u8) - 32)
    } else {
        c
    }
}

/// The characters of a string.
pub fn to_chars(s: &str) -> (v: Vec<char>)
    ensures
        v@ == s@,
{
    let mut v: Vec<char> = Vec::new();
    for c in it: s.chars()
        invariant
            v@ == it.seq().take(it.index()),
            it.seq() == s@,
    {
        v.push(c);
        assert(v@ == it.seq().take(it.index() + 1));
    }
    assert(v@ == s@);
    v
}

/// The string of these characters.
pub fn to_text(v: &[char]) -> (s: String)
    ensures
        s@ == v@,
{
    let mut s: String = String::new();
    let mut i: usize = 0;
    while i < v.len()
        invariant
            i <= v@.len(),
            s@ == v@.take(i as int),
        decreases v@.len() - i,
    {
        s.push(v[i]);
        i = i + 1;
        assert(v@.take(i as int) == v@.take(i - 1).push(v@[i - 1]));
    }
    assert(v@.take(i as int) == v@);
    s
}

/// Whether two texts are the same.
pub fn same(a: &str, b: &str) -> (r: bool)
    ensures
        r == (a@ == b@),
{
    let x: String = a.to_owned();
    let y: String = b.to_owned();
    x == y
}

/// Whether two character runs are the same.
pub fn same_chars(a: &[char], b: &[char]) -> (r: bool)
    ensures
        r == (a@ == b@),
{
    if a.len() != b.len() {
        return false;
    }
    let mut i: usize = 0;
    while i < a.len()
        invariant
            i <= a@.len(),
            a@.len() == b@.len(),
            forall|j: int| 0 <= j < i ==> a@[j] == b@[j],
        decreases a@.len() - i,
    {
        if a[i] != b[i] {
            assert(a@[i as int] != b@[i as int]);
            return false;
        }
        i = i + 1;
    }
    assert(a@ =~= b@);
    true
}

/// Whether these characters spell `text`.
pub fn spells(a: &[char], text: &str) -> (r: bool)
    ensures
        r == (a@ == text@),
{
    let b: Vec<char> = to_chars(text);
    same_chars(a, &b)
}

pub fn part(v: &[char], from: usize, to: usize) -> (r: &[char])
    requires
        from <= to <= v@.len(),
    ensures
        r@ == v@.subrange(from as int, to as int),
{
    &v[from..to]
}

pub fn from_index(v: &[char], from: usize) -> (r: &[char])
    requires
        from <= v@.len(),
    ensures
        r@ == v@.skip(from as int),
{
    let r = &v[from..v.len()];
    assert(r@ == v@.skip(from as int));
    r
}

pub fn up_to(v: &[char], to: usize) -> (r: &[char])
    requires
        to <= v@.len(),
    ensures
        r@ == v@.take(to as int),
{
    let r = &v[0..to];
    assert(r@ == v@.take(to as int));
    r
}

pub fn run_of(v: &[char], k: Class, want: bool) -> (r: usize)
    ensures
        r == run(v@, k, want),
        r <= v@.len(),
{
    let mut i: usize = 0;
    while i < v.len() && k.test(v[i]) == want
        invariant
            i <= v@.len(),
            forall|j: int| 0 <= j < i ==> k.holds(#[trigger] v@[j]) == want,
        decreases v@.len() - i,
    {
        i = i + 1;
    }
    proof {
        lemma_run_is(v@, k, want, i as int);
    }
    i
}

pub fn back_run_of(v: &[char], k: Class) -> (r: usize)
    ensures
        r == back_run(v@, k),
        r <= v@.len(),
{
    let mut i: usize = 0;
    while i < v.len() && k.test(v[v.len() - 1 - i])
        invariant
            i <= v@.len(),
            forall|j: int| v@.len() - i <= j < v@.len() ==> k.holds(#[trigger] v@[j]),
        decreases v@.len() - i,
    {
        i = i + 1;
    }
    proof {
        lemma_back_run_is(v@, k, i as int);
    }
    i
}

/// The place of the first character of the class, if there is one.
pub fn find_of(v: &[char], k: Class) -> (r: Option<usize>)
    ensures
        match r {
            Some(i) => i == find(v@, k) && i < v@.len() <= usize::MAX,
            None => find(v@, k) == v@.len(),
        },
{
    let i: usize = run_of(v, k, false);
    if i < v.len() {
        Some(i)
    } else {
        None
    }
}

/// The place of the last character of the class, if there is one.
pub fn rfind_of(v: &[char], k: Class) -> (r: Option<usize>)
    ensures
        match r {
            Some(i) => i == rfind(v@, k) && i < v@.len() <= usize::MAX,
            None => rfind(v@, k) == -1,
        },
{
    let mut i: usize = v.len();
    while i > 0
        invariant
            i <= v@.len(),
            forall|j: int| i <= j < v@.len() ==> !k.holds(#[trigger] v@[j]),
        decreases i,
    {
        if k.test(v[i - 1]) {
            proof {
                lemma_rfind_is(v@, k, i - 1);
            }
            return Some(i - 1);
        }
        i = i - 1;
    }
    proof {
        lemma_rfind_is(v@, k, -1);
    }
    None
}

pub fn drop_front_of(v: &[char], k: Class) -> (r: &[char])
    ensures
        r@ == drop_front(v@, k),
{
    let n: usize = run_of(v, k, true);
    from_index(v, n)
}

pub fn drop_back_of(v: &[char], k: Class) -> (r: &[char])
    ensures
        r@ == drop_back(v@, k),
{
    let n: usize = back_run_of(v, k);
    up_to(v, v.len() - n)
}

pub fn strip_of(v: &[char], k: Class) -> (r: &[char])
    ensures
        r@ == strip(v@, k),
{
    drop_back_of(drop_front_of(v, k), k)
}

pub fn trim_of(v: &[char]) -> (r: &[char])
    ensures
        r@ == trimmed(v@),
{
    strip_of(v, Class::White)
}

pub fn lower_of(v: &[char]) -> (r: Vec<char>)
    ensures
        r@ == lowered(v@),
{
    let mut out: Vec<char> = Vec::new();
    let mut i: usize = 0;
    while i < v.len()
        invariant
            i <= v@.len(),
            out@ == lowered(v@.take(i as int)),
        decreases v@.len() - i,
    {
        out.push(to_lower(v[i]));
        i = i + 1;
        assert(v@.take(i as int) == v@.take(i - 1).push(v@[i - 1]));
        assert(lowered(v@.take(i as int)) =~= lowered(v@.take(i - 1)).push(lower(v@[i - 1])));
    }
    assert(v@.take(i as int) == v@);
    out
}

pub fn upper_of(v: &[char]) -> (r: Vec<char>)
    ensures
        r@ == uppered(v@),
{
    let mut out: Vec<char> = Vec::new();
    let mut i: usize = 0;
    while i < v.len()
        invariant
            i <= v@.len(),
            out@ == uppered(v@.take(i as int)),
        decreases v@.len() - i,
    {
        out.push(to_upper(v[i]));
        i = i + 1;
        assert(v@.take(i as int) == v@.take(i - 1).push(v@[i - 1]));
        assert(uppered(v@.take(i as int)) =~= uppered(v@.take(i - 1)).push(upper(v@[i - 1])));
    }
    assert(v@.take(i as int) == v@);
    out
}

pub fn begins_with(v: &[char], p: &[char]) -> (r: bool)
    ensures
        r == begins(v@, p@),
{
    v.len() >= p.len() && same_chars(up_to(v, p.len()), p)
}

/// The first place at or after `from` where `needle` starts.
pub fn position_of(v: &[char], needle: &[char], from: usize) -> (r: Option<usize>)
    requires
        from <= v@.len(),
    ensures
        match r {
            Some(i) => from <= i && at(v@, i as int, needle@) && forall|j: int|
                from <= j < i ==> !#[trigger] at(v@, j, needle@),
            None => forall|j: int| from <= j ==> !#[trigger] at(v@, j, needle@),
        },
{
    let mut i: usize = from;
    while i <= v.len() && needle.len() <= v.len() - i
        invariant
            from <= i,
            from <= v@.len(),
            forall|j: int| from <= j < i ==> !#[trigger] at(v@, j, needle@),
        decreases v@.len() + 1 - i,
    {
        if same_chars(part(v, i, i + needle.len()), needle) {
            return Some(i);
        }
        if i == v.len() {
            return None;
        }
        i = i + 1;
    }
    None
}

pub fn contains_run(v: &[char], needle: &[char]) -> (r: bool)
    ensures
        r == contains(v@, needle@),
{
    match position_of(v, needle, 0) {
        Some(i) => {
            assert(at(v@, i as int, needle@));
            true
        },
        None => {
            assert forall|j: int| !#[trigger] at(v@, j, needle@) by {
                if j < 0 {
                    assert(!at(v@, j, needle@));
                }
            }
            false
        },
    }
}

/// Whether `needle` occurs anywhere.
pub fn contains_text(v: &[char], needle: &str) -> (r: bool)
    ensures
        r == contains(v@, needle@),
{
    let n: Vec<char> = to_chars(needle);
    contains_run(v, &n)
}

pub fn push_all(out: &mut Vec<char>, more: &[char])
    ensures
        final(out)@ == old(out)@ + more@,
{
    let ghost start = out@;
    let mut i: usize = 0;
    while i < more.len()
        invariant
            i <= more@.len(),
            out@ == start + more@.take(i as int),
        decreases more@.len() - i,
    {
        out.push(more[i]);
        i = i + 1;
        assert(start + more@.take(i as int) =~= (start + more@.take(i - 1)).push(more@[i - 1]));
    }
    assert(more@.take(i as int) == more@);
}

pub fn push_text(out: &mut Vec<char>, more: &str)
    ensures
        final(out)@ == old(out)@ + more@,
{
    let m: Vec<char> = to_chars(more);
    push_all(out, &m);
}

pub fn copy_of(v: &[char]) -> (r: Vec<char>)
    ensures
        r@ == v@,
{
    let mut out: Vec<char> = Vec::new();
    push_all(&mut out, v);
    assert(out@ =~= v@);
    out
}

pub fn split_of(v: &[char], k: Class) -> (r: Vec<Vec<char>>)
    ensures
        pieces(r@) == split_on(v@, k),
{
    let mut out: Vec<Vec<char>> = Vec::new();
    let mut from: usize = 0;
    let n: usize = v.len();
    proof {
        assert(v@.skip(0) == v@);
        assert(pieces(out@) + split_on(v@, k) =~= split_on(v@, k));
    }
    loop
        invariant
            from <= n == v@.len(),
            pieces(out@) + split_on(v@.skip(from as int), k) == split_on(v@, k),
        decreases v@.len() - from,
    {
        let rest = from_index(v, from);
        proof {
            lemma_run(rest@, k, false);
        }
        match find_of(rest, k) {
            None => {
                let last: Vec<char> = copy_of(rest);
                let ghost before = pieces(out@);
                out.push(last);
                assert(split_on(rest@, k) == seq![rest@]);
                assert(pieces(out@) =~= before + seq![rest@]);
                return out;
            },
            Some(i) => {
                let piece: Vec<char> = copy_of(up_to(rest, i));
                let ghost before = pieces(out@);
                out.push(piece);
                assert(rest@.skip(i + 1) =~= v@.skip(from + i + 1));
                assert(pieces(out@) =~= before + seq![rest@.take(i as int)]);
                assert(before + (seq![rest@.take(i as int)] + split_on(rest@.skip(i + 1), k))
                    =~= pieces(out@) + split_on(v@.skip(from + i + 1), k));
                from = from + i + 1;
            },
        }
    }
}

/// A line without the carriage return in front of its terminator.
pub open spec fn without_cr(l: Seq<char>) -> Seq<char> {
    if l.len() > 0 && l.last() == '\r' {
        l.drop_last()
    } else {
        l
    }
}

/// The lines of a text without their terminators, `\n` or `\r\n`; what follows
/// the last terminator is a line only if there is anything.
pub open spec fn text_lines(s: Seq<char>) -> Seq<Seq<char>>
    decreases s.len(),
{
    let i = find(s, Class::Is('\n'));
    if s.len() == 0 {
        Seq::empty()
    } else if i >= s.len() {
        seq![s]
    } else {
        seq![without_cr(s.take(i))] + text_lines(s.skip(i + 1))
    }
}

/// The words of a text: what stands between runs of white space.
pub open spec fn words(s: Seq<char>) -> Seq<Seq<char>>
    decreases s.len(),
{
    let n = run(s, Class::White, true) as int;
    let t = s.skip(n);
    let m = find(t, Class::White);
    if n >= s.len() || !(0 < m <= t.len()) {
        Seq::empty()
    } else {
        seq![t.take(m)] + words(t.skip(m))
    }
}

pub fn lines_of(v: &[char]) -> (r: Vec<Vec<char>>)
    ensures
        pieces(r@) == text_lines(v@),
{
    let mut out: Vec<Vec<char>> = Vec::new();
    let mut from: usize = 0;
    let n: usize = v.len();
    proof {
        assert(v@.skip(0) == v@);
        assert(pieces(out@) + text_lines(v@) =~= text_lines(v@));
    }
    while from < n
        invariant
            from <= n == v@.len(),
            pieces(out@) + text_lines(v@.skip(from as int)) == text_lines(v@),
        decreases n - from,
    {
        let rest = from_index(v, from);
        let ghost before = pieces(out@);
        match find_of(rest, Class::Is('\n')) {
            None => {
                out.push(copy_of(rest));
                proof {
                    assert(pieces(out@) =~= before + seq![rest@]);
                    assert(v@.skip(n as int).len() == 0);
                    assert(pieces(out@) + text_lines(v@.skip(n as int)) =~= pieces(out@));
                }
                from = n;
            },
            Some(i) => {
                let line = up_to(rest, i);
                let kept: &[char] = if i > 0 && line[i - 1] == '\r' {
                    up_to(line, i - 1)
                } else {
                    line
                };
                proof {
                    assert(kept@ =~= without_cr(line@));
                    assert(rest@.skip(i + 1) =~= v@.skip(from + i + 1));
                }
                out.push(copy_of(kept));
                proof {
                    assert(pieces(out@) =~= before + seq![without_cr(line@)]);
                    let tail = text_lines(v@.skip(from + i + 1));
                    assert(before + (seq![without_cr(line@)] + tail) =~= pieces(out@) + tail);
                }
                from = from + i + 1;
            },
        }
    }
    proof {
        assert(v@.skip(from as int).len() == 0);
        assert(pieces(out@) + text_lines(v@.skip(from as int)) =~= pieces(out@));
    }
    out
}

pub fn words_of(v: &[char]) -> (r: Vec<Vec<char>>)
    ensures
        pieces(r@) == words(v@),
{
    let mut out: Vec<Vec<char>> = Vec::new();
    let mut from: usize = 0;
    let n: usize = v.len();
    proof {
        assert(v@.skip(0) == v@);
        assert(pieces(out@) + words(v@) =~= words(v@));
    }
    loop
        invariant
            from <= n == v@.len(),
            pieces(out@) + words(v@.skip(from as int)) == words(v@),
        decreases n - from,
    {
        let rest = from_index(v, from);
        let ghost before = pieces(out@);
        let gap: usize = run_of(rest, Class::White, true);
        if gap == rest.len() {
            assert(before + Seq::<Seq<char>>::empty() =~= before);
            return out;
        }
        let tail = from_index(rest, gap);
        let len: usize = run_of(tail, Class::White, false);
        proof {
            lemma_run(rest@, Class::White, true);
            lemma_run(tail@, Class::White, false);
            assert(tail@[0] == rest@[gap as int]);
            assert(len > 0);
            assert(tail@.skip(len as int) =~= v@.skip(from + gap + len));
        }
        out.push(copy_of(up_to(tail, len)));
        proof {
            assert(pieces(out@) =~= before + seq![tail@.take(len as int)]);
            let more = words(v@.skip(from + gap + len));
            assert(before + (seq![tail@.take(len as int)] + more) =~= pieces(out@) + more);
        }
        from = from + gap + len;
    }
}

/// `s` with every occurrence of `from`, read from the left, replaced by `to`.
pub open spec fn replaced(s: Seq<char>, from: Seq<char>, to: Seq<char>) -> Seq<char>
    decreases s.len(),
{
    if s.len() == 0 {
        Seq::empty()
    } else if from.len() > 0 && begins(s, from) {
        to + replaced(s.skip(from.len() as int), from, to)
    } else {
        seq![s[0]] + replaced(s.skip(1), from, to)
    }
}

pub fn replace_of(v: &[char], from: &str, to: &[char]) -> (r: Vec<char>)
    ensures
        r@ == replaced(v@, from@, to@),
{
    let f: Vec<char> = to_chars(from);
    let mut out: Vec<char> = Vec::new();
    let mut i: usize = 0;
    let n: usize = v.len();
    proof {
        assert(v@.skip(0) =~= v@);
        assert(out@ + replaced(v@, from@, to@) =~= replaced(v@, from@, to@));
    }
    while i < n
        invariant
            i <= n == v@.len(),
            f@ == from@,
            out@ + replaced(v@.skip(i as int), from@, to@) == replaced(v@, from@, to@),
        decreases n - i,
    {
        let rest: &[char] = from_index(v, i);
        let ghost before = out@;
        if f.len() > 0 && begins_with(rest, &f) {
            push_all(&mut out, to);
            proof {
                let tail = replaced(v@.skip(i + f@.len()), from@, to@);
                assert(rest@.skip(f@.len() as int) =~= v@.skip(i + f@.len()));
                assert(before + (to@ + tail) =~= out@ + tail);
            }
            i = i + f.len();
        } else {
            out.push(v[i]);
            proof {
                let tail = replaced(v@.skip(i + 1), from@, to@);
                assert(rest@.skip(1) =~= v@.skip(i + 1));
                assert(rest@[0] == v@[i as int]);
                assert(before + (seq![rest@[0]] + tail) =~= out@ + tail);
            }
            i = i + 1;
        }
    }
    proof {
        assert(v@.skip(i as int).len() == 0);
        assert(out@ + replaced(v@.skip(i as int), from@, to@) =~= out@);
    }
    out
}

/// These pieces with `sep` between them.
pub fn join_of(parts: &Vec<Vec<char>>, sep: &str) -> (r: Vec<char>)
    ensures
        r@ == joined(pieces(parts@), sep@),
{
    let ghost all = pieces(parts@);
    let mut out: Vec<char> = Vec::new();
    let mut i: usize = 0;
    assert(all.take(0).len() == 0);
    assert(out@ =~= joined(all.take(0), sep@));
    while i < parts.len()
        invariant
            i <= parts@.len(),
            all == pieces(parts@),
            out@ == joined(all.take(i as int), sep@),
        decreases parts@.len() - i,
    {
        if i > 0 {
            push_text(&mut out, sep);
        }
        push_all(&mut out, &parts[i]);
        i = i + 1;
        proof {
            assert(all.take(i as int).drop_last() =~= all.take(i - 1));
            assert(all.take(i as int).last() == parts@[i - 1]@);
            if i == 1 {
                assert(all.take(0).len() == 0);
                assert(out@ =~= joined(all.take(1), sep@));
            }
        }
    }
    assert(all.take(i as int) =~= all);
    out
}

/// What follows `prefix`, where the text starts with it.
pub open spec fn after_prefix(s: Seq<char>, prefix: Seq<char>) -> Option<Seq<char>> {
    if begins(s, prefix) {
        Some(s.skip(prefix.len() as int))
    } else {
        None
    }
}

pub fn strip_prefix_of<'a>(v: &'a [char], prefix: &str) -> (r: Option<&'a [char]>)
    ensures
        match r {
            Some(t) => after_prefix(v@, prefix@) == Some(t@),
            None => after_prefix(v@, prefix@) is None,
        },
{
    let p: Vec<char> = to_chars(prefix);
    if begins_with(v, &p) {
        Some(from_index(v, p.len()))
    } else {
        None
    }
}

/// Whether two texts are the same but for the case of ASCII letters.
pub fn same_folded(v: &[char], text: &str) -> (r: bool)
    ensures
        r == (lowered(v@) == lowered(text@)),
{
    let t: Vec<char> = to_chars(text);
    let a: Vec<char> = lower_of(v);
    let b: Vec<char> = lower_of(&t);
    same_chars(&a, &b)
}

/// Is `i` the first place where `needle` starts?
pub open spec fn first_at(s: Seq<char>, i: int, needle: Seq<char>) -> bool {
    at(s, i, needle) && forall|j: int| 0 <= j < i ==> !#[trigger] at(s, j, needle)
}

/// The first place where `needle` starts, if there is one.
pub open spec fn place(s: Seq<char>, needle: Seq<char>) -> Option<int> {
    if exists|i: int| #[trigger] first_at(s, i, needle) {
        Some(choose|i: int| #[trigger] first_at(s, i, needle))
    } else {
        None
    }
}

pub proof fn lemma_place_is(s: Seq<char>, i: int, needle: Seq<char>)
    requires
        first_at(s, i, needle),
    ensures
        place(s, needle) == Some(i),
{
    let k = choose|k: int| #[trigger] first_at(s, k, needle);
    assert(first_at(s, k, needle));
    if k < i {
        assert(!at(s, k, needle));
    }
    if i < k {
        assert(!at(s, i, needle));
    }
}

pub fn place_of(v: &[char], needle: &str) -> (r: Option<usize>)
    ensures
        match r {
            Some(i) => place(v@, needle@) == Some(i as int) && at(v@, i as int, needle@),
            None => place(v@, needle@) is None,
        },
{
    let n: Vec<char> = to_chars(needle);
    let r: Option<usize> = position_of(v, &n, 0);
    proof {
        match r {
            Some(i) => {
                assert(first_at(v@, i as int, needle@));
                lemma_place_is(v@, i as int, needle@);
            },
            None => {
                assert forall|i: int| !#[trigger] first_at(v@, i, needle@) by {
                    assert(0 <= i ==> !at(v@, i, needle@));
                }
            },
        }
    }
    r
}

/// Folding the case of a letter: a capital is thirty-two below its small letter, and nothing
/// else changes.
pub proof fn how_letters_are_folded(c: char)
    ensures
        'A' <= c <= 'Z' ==> lower(c) as u32 == c as u32 + 32 && upper(c) == c,
        'a' <= c <= 'z' ==> upper(c) as u32 == c as u32 - 32 && lower(c) == c,
        !('A' <= c <= 'Z') && !('a' <= c <= 'z') ==> lower(c) == c && upper(c) == c,
{
}

/// Cutting a text loses nothing but what it is cut at: put together again with that between
/// the pieces it is the text it was, and no piece holds it.
pub proof fn pieces_add_up(s: Seq<char>, c: char)
    ensures
        joined(split_on(s, Class::Is(c)), seq![c]) == s,
        split_on(s, Class::Is(c)).len() > 0,
        forall|i: int|
            0 <= i < split_on(s, Class::Is(c)).len() ==> !(#[trigger] split_on(
                s,
                Class::Is(c),
            )[i]).contains(c),
    decreases s.len(),
{
    let k = Class::Is(c);
    lemma_run(s, k, false);
    let i = find(s, k);
    let all = split_on(s, k);
    if i >= s.len() {
        assert(all =~= seq![s]);
        assert forall|j: int| 0 <= j < all.len() implies !(#[trigger] all[j]).contains(c) by {
            assert(all[j] == s);
            if s.contains(c) {
                let m = choose|m: int| 0 <= m < s.len() && s[m] == c;
                assert(k.holds(s[m]) == false);
            }
        }
    } else {
        let rest = s.skip(i + 1);
        pieces_add_up(rest, c);
        let tail = split_on(rest, k);
        let first = s.take(i);
        assert(all =~= seq![first] + tail);
        lemma_joined_first(first, tail, seq![c]);
        assert(s =~= first + seq![c] + rest);
        assert forall|j: int| 0 <= j < all.len() implies !(#[trigger] all[j]).contains(c) by {
            if j == 0 {
                assert(all[0] == first);
                if first.contains(c) {
                    let m = choose|m: int| 0 <= m < first.len() && first[m] == c;
                    assert(s[m] == c);
                    assert(k.holds(s[m]) == false);
                }
            } else {
                assert(all[j] == tail[j - 1]);
            }
        }
    }
}

proof fn lemma_joined_first(first: Seq<char>, tail: Seq<Seq<char>>, sep: Seq<char>)
    requires
        tail.len() > 0,
    ensures
        joined(seq![first] + tail, sep) == first + sep + joined(tail, sep),
    decreases tail.len(),
{
    let all = seq![first] + tail;
    if tail.len() == 1 {
        assert(all.drop_last() =~= seq![first]);
        assert(joined(seq![first], sep) == first);
        assert(all.last() == tail[0]);
    } else {
        lemma_joined_first(first, tail.drop_last(), sep);
        assert(all.drop_last() =~= seq![first] + tail.drop_last());
        assert(all.last() == tail.last());
        assert(joined(all, sep) =~= first + sep + joined(tail, sep));
    }
}

/// Trimming drops white space at both ends and nothing in between.
pub proof fn what_trimming_drops(before: Seq<char>, s: Seq<char>, after: Seq<char>)
    requires
        forall|i: int| 0 <= i < before.len() ==> white(#[trigger] before[i]),
        forall|i: int| 0 <= i < after.len() ==> white(#[trigger] after[i]),
        s.len() > 0,
        !white(s[0]),
        !white(s.last()),
    ensures
        trimmed(before + s + after) == s,
{
    let w = Class::White;
    let t = before + s + after;
    let n = before.len() as int;
    assert forall|j: int| 0 <= j < n implies w.holds(#[trigger] t[j]) == true by {
        assert(t[j] == before[j]);
    }
    assert(t[n] == s[0]);
    lemma_run_is(t, w, true, n);
    let f = drop_front(t, w);
    assert(f =~= s + after);
    let b = after.len() as int;
    assert forall|j: int| f.len() - b <= j < f.len() implies w.holds(#[trigger] f[j]) by {
        assert(f[j] == after[j - s.len()]);
    }
    assert(f[f.len() - b - 1] == s.last());
    lemma_back_run_is(f, w, b);
    assert(f.take(f.len() - b) =~= s);
}

} // verus!
