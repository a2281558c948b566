//! Numbers as text, in both directions.

use vstd::prelude::*;

use crate::chars::{from_index, Class};

verus! {

/// The digit `d`, zero to nine.
pub open spec fn digit_char(d: nat) -> char {
    (('0' as u32) + d) as char
}

/// `n` in decimal.
pub open spec fn dec(n: nat) -> Seq<char>
    decreases n,
{
    if n < 10 {
        seq![digit_char(n)]
    } else {
        dec(n / 10).push(digit_char(n % 10))
    }
}

/// `n` in decimal, with a leading minus when it is negative.
pub open spec fn signed_dec(n: int) -> Seq<char> {
    if n < 0 {
        seq!['-'] + dec((-n) as nat)
    } else {
        dec(n as nat)
    }
}

/// `n` in decimal, padded with zeros to at least two places.
pub open spec fn dec2(n: nat) -> Seq<char> {
    if n < 10 {
        seq!['0'] + dec(n)
    } else {
        dec(n)
    }
}

pub open spec fn digit_value(c: char) -> nat {
    ((c as u32) - ('0' as u32)) as nat
}

pub open spec fn all_digits(s: Seq<char>) -> bool {
    forall|i: int| 0 <= i < s.len() ==> Class::Digit.holds(#[trigger] s[i])
}

/// What a run of digits is worth.
pub open spec fn value(s: Seq<char>) -> nat
    decreases s.len(),
{
    if s.len() == 0 {
        0
    } else {
        value(s.drop_last()) * 10 + digit_value(s.last())
    }
}

/// The number a text spells, if it spells one no larger than `max`: digits,
/// with a plus sign allowed in front.
pub open spec fn unsigned(s: Seq<char>, max: nat) -> Option<nat> {
    let d = if s.len() > 0 && s[0] == '+' {
        s.skip(1)
    } else {
        s
    };
    if d.len() > 0 && all_digits(d) && value(d) <= max {
        Some(value(d))
    } else {
        None
    }
}

/// The 64-bit signed number a text spells, if it spells one.
pub open spec fn signed(s: Seq<char>) -> Option<int> {
    let negative = s.len() > 0 && s[0] == '-';
    let d = if s.len() > 0 && (s[0] == '+' || s[0] == '-') {
        s.skip(1)
    } else {
        s
    };
    if d.len() == 0 || !all_digits(d) {
        None
    } else if negative && value(d) <= 0x8000_0000_0000_0000 {
        Some(-(value(d) as int))
    } else if !negative && value(d) <= 0x7fff_ffff_ffff_ffff {
        Some(value(d) as int)
    } else {
        None
    }
}

pub open spec fn hex_char(d: nat, upper_case: bool) -> char {
    if d < 10 {
        digit_char(d)
    } else if upper_case {
        (('A' as u32) + (d - 10)) as char
    } else {
        (('a' as u32) + (d - 10)) as char
    }
}

/// The lowest `places` hexadecimal digits of `n`.
pub open spec fn hex(n: nat, places: nat, upper_case: bool) -> Seq<char>
    decreases places,
{
    if places == 0 {
        Seq::empty()
    } else {
        hex(n / 16, (places - 1) as nat, upper_case).push(hex_char(n % 16, upper_case))
    }
}

pub open spec fn hex_digit(c: char) -> bool {
    '0' <= c <= '9' || 'a' <= c <= 'f' || 'A' <= c <= 'F'
}

pub fn is_hex_digit(c: char) -> (r: bool)
    ensures
        r == hex_digit(c),
{
    ('0' <= c && c <= '9') || ('a' <= c && c <= 'f') || ('A' <= c && c <= 'F')
}

fn digit_of(d: u64) -> (c: char)
    requires
        d < 10,
    ensures
        c == digit_char(d as nat),
{
    crate::chars::ascii(48 + (d as u8))
}

pub fn hex_digit_of(d: u64, upper_case: bool) -> (c: char)
    requires
        d < 16,
    ensures
        c == hex_char(d as nat, upper_case),
{
    if d < 10 {
        digit_of(d)
    } else if upper_case {
        crate::chars::ascii(65 + ((d - 10) as u8))
    } else {
        crate::chars::ascii(97 + ((d - 10) as u8))
    }
}

/// The decimal digits of `n`.
pub fn decimal(n: u64) -> (v: Vec<char>)
    ensures
        v@ == dec(n as nat),
    decreases n,
{
    if n < 10 {
        let mut v: Vec<char> = Vec::new();
        v.push(digit_of(n));
        assert(v@ =~= seq![digit_char(n as nat)]);
        v
    } else {
        let mut v: Vec<char> = decimal(n / 10);
        v.push(digit_of(n % 10));
        v
    }
}

pub fn decimal_signed(n: i64) -> (v: Vec<char>)
    ensures
        v@ == signed_dec(n as int),
{
    if n < 0 {
        let mut v: Vec<char> = Vec::new();
        v.push('-');
        let m: u64 = ((-(n + 1)) as u64) + 1;
        let d: Vec<char> = decimal(m);
        crate::chars::push_all(&mut v, &d);
        assert(v@ =~= seq!['-'] + dec((-n) as nat));
        v
    } else {
        decimal(n as u64)
    }
}

pub fn decimal2(n: u64) -> (v: Vec<char>)
    ensures
        v@ == dec2(n as nat),
{
    let d: Vec<char> = decimal(n);
    if n < 10 {
        let mut v: Vec<char> = Vec::new();
        v.push('0');
        crate::chars::push_all(&mut v, &d);
        assert(v@ =~= seq!['0'] + dec(n as nat));
        v
    } else {
        d
    }
}

/// The lowest `places` hexadecimal digits of `n`.
pub fn hexadecimal(n: u64, places: usize, upper_case: bool) -> (v: Vec<char>)
    ensures
        v@ == hex(n as nat, places as nat, upper_case),
    decreases places,
{
    if places == 0 {
        Vec::new()
    } else {
        let mut v: Vec<char> = hexadecimal(n / 16, places - 1, upper_case);
        v.push(hex_digit_of(n % 16, upper_case));
        v
    }
}

fn digits_value(d: &[char], max: u64) -> (r: Option<u64>)
    ensures
        match r {
            Some(n) => d@.len() > 0 && all_digits(d@) && value(d@) == n && n <= max,
            None => !(d@.len() > 0 && all_digits(d@) && value(d@) <= max),
        },
{
    if d.len() == 0 {
        return None;
    }
    let mut n: u64 = 0;
    let mut i: usize = 0;
    let mut over = false;
    while i < d.len()
        invariant
            i <= d@.len(),
            n <= max,
            all_digits(d@.take(i as int)),
            !over ==> value(d@.take(i as int)) == n,
            over ==> value(d@.take(i as int)) > max,
        decreases d@.len() - i,
    {
        let c: char = d[i];
        let ghost next = d@.take(i + 1);
        assert(next.drop_last() =~= d@.take(i as int));
        if !('0' <= c && c <= '9') {
            assert(!Class::Digit.holds(d@[i as int]));
            return None;
        }
        let v: u64 = (c as u64) - 48;
        assert forall|j: int| 0 <= j < next.len() implies Class::Digit.holds(#[trigger] next[j]) by {
            if j < i {
                assert(next[j] == d@.take(i as int)[j]);
            }
        }
        if !over {
            if n <= max / 10 && v <= max - n * 10 {
                n = n * 10 + v;
            } else {
                over = true;
            }
        }
        i = i + 1;
    }
    assert(d@.take(i as int) =~= d@);
    if over {
        None
    } else {
        Some(n)
    }
}

/// Reads an unsigned number no larger than `max`.
pub fn parse_unsigned(s: &[char], max: u64) -> (r: Option<u64>)
    ensures
        match r {
            Some(n) => unsigned(s@, max as nat) == Some(n as nat) && n <= max,
            None => unsigned(s@, max as nat) is None,
        },
{
    if s.len() > 0 && s[0] == '+' {
        digits_value(from_index(s, 1), max)
    } else {
        digits_value(s, max)
    }
}

pub fn parse_signed(s: &[char]) -> (r: Option<i64>)
    ensures
        match r {
            Some(n) => signed(s@) == Some(n as int),
            None => signed(s@) is None,
        },
{
    if s.len() > 0 && s[0] == '-' {
        match digits_value(from_index(s, 1), 0x8000_0000_0000_0000) {
            Some(n) => if n == 0 {
                Some(0)
            } else {
                Some(-((n - 1) as i64) - 1)
            },
            None => None,
        }
    } else if s.len() > 0 && s[0] == '+' {
        match digits_value(from_index(s, 1), 0x7fff_ffff_ffff_ffff) {
            Some(n) => Some(n as i64),
            None => None,
        }
    } else {
        match digits_value(s, 0x7fff_ffff_ffff_ffff) {
            Some(n) => Some(n as i64),
            None => None,
        }
    }
}

/// Decimal text is all digits, never empty, and worth the number it spells.
pub proof fn lemma_dec(n: nat)
    ensures
        dec(n).len() > 0,
        all_digits(dec(n)),
        value(dec(n)) == n,
        dec(n)[0] != '+',
        dec(n)[0] != '-',
    decreases n,
{
    reveal_with_fuel(value, 2);
    if n < 10 {
        assert(dec(n).drop_last() =~= Seq::<char>::empty());
    } else {
        lemma_dec(n / 10);
        let d = dec(n / 10);
        let s = dec(n);
        assert(s.drop_last() =~= d);
        assert forall|i: int| 0 <= i < s.len() implies Class::Digit.holds(#[trigger] s[i]) by {
            if i < d.len() {
                assert(s[i] == d[i]);
            }
        }
        assert(s[0] == d[0]);
    }
}

/// Reading back what was written gives the number that was written.
pub proof fn decimal_reads_back(n: nat, max: nat)
    requires
        n <= max,
    ensures
        unsigned(dec(n), max) == Some(n),
{
    lemma_dec(n);
}

} // verus!
