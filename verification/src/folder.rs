//! Mailbox names, hierarchy, and special use.
//!
//! A mailbox has a wire name, in modified UTF-7, which is what SELECT takes; a
//! display name, the decoded text a person reads; and a local name, what its
//! directory is called. They are not interchangeable.

use vstd::prelude::*;
use vstd::utf8::encode_utf8;

use crate::chars::{find_of, from_index, lemma_run, lemma_run_is, pieces, push_all, run, same, same_folded,
    lowered, spells, split_of, split_on, texts, to_chars, to_text, up_to, Class};
use crate::encoding::{base64_bytes, base64_bare, base64_char, big_endian, bytes_of_units,
    decode_base64, decode_utf16, encode_base64_bare, from_big_endian, from_utf16, lemma_big_endian,
    pad, padded, push_units, swap_char, swapped, units_of_bytes, utf16, utf16_reads_back};
use crate::mime::{to_lowercase, unicode_lower};
use crate::numbers::{hex, hex_char, hexadecimal};
use crate::order::{sort, sorted, text_before, texts_before, Ordered};

verus! {

/// A mailbox with a defined role, per RFC 6154 plus `Inbox`.
#[derive(Debug, Clone, Copy, PartialEq, Eq, Structural)]
pub enum SpecialUse {
    Inbox,
    Sent,
    Drafts,
    Trash,
    Junk,
    Archive,
}

impl SpecialUse {
    pub open spec fn rank(self) -> u8 {
        match self {
            SpecialUse::Inbox => 0,
            SpecialUse::Drafts => 1,
            SpecialUse::Sent => 2,
            SpecialUse::Archive => 3,
            SpecialUse::Junk => 4,
            SpecialUse::Trash => 5,
        }
    }

    /// Sort key for the folder list: the roles people use most first.
    #[must_use]
    pub fn order(self) -> (r: u8)
        ensures
            r == self.rank(),
    {
        match self {
            SpecialUse::Inbox => 0,
            SpecialUse::Drafts => 1,
            SpecialUse::Sent => 2,
            SpecialUse::Archive => 3,
            SpecialUse::Junk => 4,
            SpecialUse::Trash => 5,
        }
    }
}

/// What a server declares of a mailbox it lists.
#[derive(Debug, Clone, Copy, PartialEq, Eq, Structural)]
pub enum NameAttribute {
    NoSelect,
    All,
    Archive,
    Drafts,
    Junk,
    Sent,
    Trash,
    Other,
}

/// One mailbox as the server listed it.
#[derive(Debug, Clone, PartialEq, Eq)]
pub struct Folder {
    /// The wire name: modified UTF-7, exactly as LIST returned it.
    pub wire_name: String,
    /// The decoded name, for display.
    pub display_name: String,
    /// The hierarchy delimiter the server reported.
    pub delimiter: char,
    pub special_use: Option<SpecialUse>,
    /// The server said this mailbox cannot be selected: it exists only to hold
    /// children.
    pub no_select: bool,
}

/// The characters a directory name keeps as they are.
pub open spec fn name_byte(b: u8) -> bool {
    ||| 65 <= b <= 90
    ||| 97 <= b <= 122
    ||| 48 <= b <= 57
    ||| b == 45
    ||| b == 95
    ||| b == 43
    ||| b == 38
    ||| b == 44
}

pub open spec fn local_byte(b: u8) -> Seq<char> {
    if name_byte(b) {
        seq![b as char]
    } else {
        seq!['%', hex_char((b / 16) as nat, true), hex_char((b % 16) as nat, true)]
    }
}

/// Bytes as a directory name.
pub open spec fn local_text(bytes: Seq<u8>) -> Seq<char>
    decreases bytes.len(),
{
    if bytes.len() == 0 {
        Seq::empty()
    } else {
        local_text(bytes.drop_last()) + local_byte(bytes.last())
    }
}

pub open spec fn hex_value(c: char) -> int {
    if '0' <= c <= '9' {
        c as int - '0' as int
    } else {
        c as int - 'A' as int + 10
    }
}

/// The bytes a directory name stands for.
pub open spec fn read_local(t: Seq<char>) -> Seq<u8>
    decreases t.len(),
{
    if t.len() == 0 {
        Seq::empty()
    } else if t[0] == '%' && t.len() >= 3 {
        seq![(hex_value(t[1]) * 16 + hex_value(t[2])) as u8] + read_local(t.skip(3))
    } else {
        seq![t[0] as u8] + read_local(t.skip(1))
    }
}

/// A directory name leads back to the mailbox it mirrors.
pub proof fn a_local_name_reads_back(bytes: Seq<u8>)
    ensures
        read_local(local_text(bytes)) == bytes,
{
    lemma_read_local(bytes, Seq::empty());
    assert(local_text(bytes) + Seq::<char>::empty() =~= local_text(bytes));
    assert(bytes + read_local(Seq::empty()) =~= bytes);
}

proof fn lemma_read_local(bytes: Seq<u8>, rest: Seq<char>)
    ensures
        read_local(local_text(bytes) + rest) == bytes + read_local(rest),
    decreases bytes.len(),
{
    if bytes.len() == 0 {
        assert(local_text(bytes) + rest =~= rest);
        assert(bytes + read_local(rest) =~= read_local(rest));
    } else {
        let t = bytes.drop_last();
        let b = bytes.last();
        let piece = local_byte(b);
        lemma_read_local(t, piece + rest);
        assert(local_text(bytes) + rest =~= local_text(t) + (piece + rest));
        let x = piece + rest;
        if name_byte(b) {
            assert(x[0] == b as char);
            assert(x.skip(1) =~= rest);
            assert(x[0] as u8 == b);
        } else {
            assert(x[0] == '%');
            assert(x.skip(3) =~= rest);
            assert(hex_value(x[1]) == b / 16);
            assert(hex_value(x[2]) == b % 16);
            assert((b / 16) * 16 + b % 16 == b);
        }
        assert(read_local(x) == seq![b] + read_local(rest));
        assert(t + (seq![b] + read_local(rest)) =~= bytes + read_local(rest));
    }
}

impl Folder {
    /// The path segments of the display name.
    pub open spec fn segments(&self) -> Seq<Seq<char>> {
        split_on(self.display_name@, Class::Is(self.delimiter))
    }

    /// The path segments of the display name, split on this server's delimiter.
    #[must_use]
    pub fn path(&self) -> (r: Vec<String>)
        ensures
            texts(r@) == self.segments(),
    {
        let parts: Vec<Vec<char>> = split_of(
            &to_chars(&self.display_name),
            Class::Is(self.delimiter),
        );
        let mut out: Vec<String> = Vec::new();
        let mut i: usize = 0;
        while i < parts.len()
            invariant
                i <= parts@.len(),
                out@.len() == i,
                forall|k: int| 0 <= k < i ==> (#[trigger] out@[k])@ == parts@[k]@,
            decreases parts@.len() - i,
        {
            out.push(to_text(&parts[i]));
            i = i + 1;
        }
        assert(texts(out@) =~= pieces(parts@));
        out
    }

    /// How deep this mailbox is nested. INBOX is 0.
    #[must_use]
    pub fn depth(&self) -> (r: usize)
        ensures
            r == (if self.segments().len() > 0 {
                self.segments().len() - 1
            } else {
                0
            }),
    {
        let p: Vec<String> = self.path();
        assert(texts(p@).len() == p@.len());
        if p.len() > 0 {
            p.len() - 1
        } else {
            0
        }
    }

    /// The last path segment: what a tree view puts on the row.
    #[must_use]
    pub fn leaf_name(&self) -> (r: String)
        ensures
            r@ == (if self.segments().len() > 0 {
                self.segments().last()
            } else {
                self.display_name@
            }),
    {
        let p: Vec<String> = self.path();
        assert(texts(p@).len() == p@.len());
        if p.len() > 0 {
            assert(texts(p@).last() == p@[p@.len() - 1]@);
            p[p.len() - 1].clone()
        } else {
            self.display_name.clone()
        }
    }

    /// A filesystem-safe directory name for this mailbox.
    ///
    /// The wire name is used rather than the display name so the mapping is
    /// stable, and what cannot appear in a file name is percent-escaped so it
    /// is reversible.
    #[must_use]
    pub fn local_name(&self) -> (r: String)
        ensures
            r@ == local_text(encode_utf8(self.wire_name@)),
    {
        let b: &[u8] = self.wire_name.as_str().as_bytes();
        let mut out: Vec<char> = Vec::new();
        let mut i: usize = 0;
        assert(b@.take(0) =~= Seq::<u8>::empty());
        while i < b.len()
            invariant
                i <= b@.len(),
                out@ == local_text(b@.take(i as int)),
            decreases b@.len() - i,
        {
            let c: u8 = b[i];
            proof {
                assert(b@.take(i + 1).drop_last() =~= b@.take(i as int));
                assert(b@.take(i + 1).last() == c);
            }
            let ghost before = out@;
            if (65 <= c && c <= 90) || (97 <= c && c <= 122) || (48 <= c && c <= 57) || c == 45
                || c == 95 || c == 43 || c == 38 || c == 44 {
                out.push(crate::chars::ascii(c));
                assert(out@ =~= before + local_byte(c));
            } else {
                out.push('%');
                let h: Vec<char> = hexadecimal(c as u64, 2, true);
                push_all(&mut out, &h);
                proof {
                    reveal_with_fuel(hex, 3);
                    assert(h@ =~= seq![
                        hex_char((c / 16) as nat, true),
                        hex_char((c % 16) as nat, true),
                    ]);
                }
                assert(out@ =~= before + local_byte(c));
            }
            i = i + 1;
        }
        assert(b@.take(i as int) =~= b@);
        to_text(&out)
    }
}

// ---- modified UTF-7 ----

/// A character that stands for itself on the wire; `&` does so only with a `-`
/// behind it.
pub open spec fn printable(c: char) -> bool {
    '\u{20}' <= c <= '\u{7e}'
}

/// How many characters at the front of `s` are not printable.
pub open spec fn unprintable_run(s: Seq<char>) -> nat
    decreases s.len(),
{
    if s.len() == 0 || printable(s[0]) {
        0
    } else {
        1 + unprintable_run(s.skip(1))
    }
}

/// A run of characters as modified base64, with `,` for `/`.
pub open spec fn coded(run: Seq<char>) -> Seq<char> {
    swapped(base64_bare(big_endian(utf16(run))), '/', ',')
}

/// A text in modified UTF-7.
pub open spec fn encoded(s: Seq<char>) -> Seq<char>
    decreases s.len(),
{
    if s.len() == 0 {
        Seq::empty()
    } else if s[0] == '&' {
        seq!['&', '-'] + encoded(s.skip(1))
    } else if printable(s[0]) {
        seq![s[0]] + encoded(s.skip(1))
    } else {
        let k = unprintable_run(s);
        if 0 < k <= s.len() {
            seq!['&'] + coded(s.take(k as int)) + seq!['-'] + encoded(s.skip(k as int))
        } else {
            Seq::empty()
        }
    }
}

/// What a run between `&` and `-` stands for; nothing, where it is malformed.
pub open spec fn run_text(run: Seq<char>) -> Option<Seq<char>> {
    match base64_bytes(padded(swapped(run, ',', '/'))) {
        Some(bytes) => if bytes.len() % 2 == 0 {
            Some(from_utf16(from_big_endian(bytes)))
        } else {
            None
        },
        None => None,
    }
}

/// What the run that was opened by `&` comes to.
pub open spec fn run_shown(run: Seq<char>, terminated: bool) -> Seq<char> {
    if run.len() == 0 {
        seq!['&']
    } else if terminated && run_text(run) is Some {
        run_text(run)->0
    } else if terminated {
        seq!['&'] + run + seq!['-']
    } else {
        seq!['&'] + run
    }
}

/// A text in modified UTF-7, decoded. A malformed run stands for itself.
pub open spec fn decoded(s: Seq<char>) -> Seq<char>
    decreases s.len(),
{
    if s.len() == 0 {
        Seq::empty()
    } else if s[0] != '&' {
        seq![s[0]] + decoded(s.skip(1))
    } else {
        let rest = s.skip(1);
        let n = run(rest, Class::Is('-'), false);
        if n < rest.len() {
            run_shown(rest.take(n as int), true) + decoded(rest.skip(n as int + 1))
        } else {
            run_shown(rest, false)
        }
    }
}

/// Modified UTF-7 to text, for display.
///
/// A malformed run falls back to the raw text: a display glitch, never an error
/// that stops folder discovery.
#[must_use]
pub fn decode_modified_utf7(s: &str) -> (r: String)
    ensures
        r@ == decoded(s@),
{
    let v: Vec<char> = to_chars(s);
    let mut out: Vec<char> = Vec::new();
    let mut i: usize = 0;
    let n: usize = v.len();
    assert(v@.skip(0) =~= v@);
    assert(out@ + decoded(v@) =~= decoded(v@));
    while i < n
        invariant
            i <= n == v@.len(),
            out@ + decoded(v@.skip(i as int)) == decoded(v@),
        decreases n - i,
    {
        let ghost here = v@.skip(i as int);
        let ghost before = out@;
        assert(here[0] == v@[i as int]);
        if v[i] != '&' {
            out.push(v[i]);
            proof {
                assert(here.skip(1) =~= v@.skip(i + 1));
                let tail = decoded(v@.skip(i + 1));
                assert(before + (seq![here[0]] + tail) =~= out@ + tail);
            }
            i = i + 1;
        } else {
            let rest: &[char] = from_index(&v, i + 1);
            assert(rest@ =~= here.skip(1));
            match find_of(rest, Class::Is('-')) {
                Some(k) => {
                    let shown: Vec<char> = show_run(up_to(rest, k), true);
                    push_all(&mut out, &shown);
                    proof {
                        lemma_run(rest@, Class::Is('-'), false);
                        assert(rest@.skip(k + 1) =~= v@.skip(i + k + 2));
                        let tail = decoded(v@.skip(i + k + 2));
                        assert(before + (shown@ + tail) =~= out@ + tail);
                    }
                    i = i + k + 2;
                },
                None => {
                    let shown: Vec<char> = show_run(rest, false);
                    push_all(&mut out, &shown);
                    proof {
                        lemma_run(rest@, Class::Is('-'), false);
                        assert(v@.skip(n as int).len() == 0);
                        assert(out@ + decoded(v@.skip(n as int)) =~= before + shown@);
                    }
                    i = n;
                },
            }
        }
    }
    assert(v@.skip(i as int).len() == 0);
    assert(out@ + decoded(v@.skip(i as int)) =~= out@);
    to_text(&out)
}

fn show_run(run: &[char], terminated: bool) -> (r: Vec<char>)
    ensures
        r@ == run_shown(run@, terminated),
{
    let mut out: Vec<char> = Vec::new();
    if run.len() == 0 {
        out.push('&');
        assert(out@ =~= seq!['&']);
        return out;
    }
    if terminated {
        let b64: Vec<char> = pad(&swap_char(run, ',', '/'));
        match decode_base64(&to_text(&b64)) {
            Ok(bytes) => {
                if bytes.len() % 2 == 0 {
                    return decode_utf16(&units_of_bytes(&bytes));
                }
            },
            Err(_) => {},
        }
    }
    out.push('&');
    push_all(&mut out, run);
    if terminated {
        out.push('-');
    }
    assert(out@ =~= run_shown(run@, terminated));
    out
}

proof fn lemma_unprintable_run(s: Seq<char>, k: int)
    requires
        0 <= k <= s.len(),
        forall|j: int| 0 <= j < k ==> !printable(#[trigger] s[j]),
        k < s.len() ==> printable(s[k]),
    ensures
        unprintable_run(s) == k,
    decreases s.len(),
{
    if k > 0 {
        assert(!printable(s[0]));
        let t = s.skip(1);
        assert forall|j: int| 0 <= j < k - 1 implies !printable(#[trigger] t[j]) by {
            assert(t[j] == s[j + 1]);
        }
        lemma_unprintable_run(t, k - 1);
    }
}

/// Text to modified UTF-7, for a mailbox about to be created or renamed. What
/// it returns decodes to the text again.
#[must_use]
pub fn encode_modified_utf7(s: &str) -> (r: String)
    ensures
        r@ == encoded(s@),
        decoded(r@) == s@,
{
    let v: Vec<char> = to_chars(s);
    let mut out: Vec<char> = Vec::new();
    let mut i: usize = 0;
    let n: usize = v.len();
    proof {
        assert(v@.skip(0) =~= v@);
        assert(out@ + encoded(v@) =~= encoded(v@));
        assert forall|tail: Seq<char>| #[trigger] decoded(out@ + tail) == v@.take(0) + decoded(
            tail,
        ) by {
            assert(out@ + tail =~= tail);
            assert(v@.take(0) + decoded(tail) =~= decoded(tail));
        }
    }
    while i < n
        invariant
            i <= n == v@.len(),
            out@ + encoded(v@.skip(i as int)) == encoded(v@),
            forall|tail: Seq<char>| #[trigger]
                decoded(out@ + tail) == v@.take(i as int) + decoded(tail),
        decreases n - i,
    {
        let ghost here = v@.skip(i as int);
        let ghost before = out@;
        let c: char = v[i];
        assert(here[0] == c);
        if c == '&' {
            out.push('&');
            out.push('-');
            proof {
                assert(here.skip(1) =~= v@.skip(i + 1));
                let rest = encoded(v@.skip(i + 1));
                assert(before + (seq!['&', '-'] + rest) =~= out@ + rest);
                assert forall|tail: Seq<char>| #[trigger] decoded(out@ + tail) == v@.take(i + 1)
                    + decoded(tail) by {
                    lemma_shown(Seq::empty(), tail);
                    let piece = seq!['&'] + Seq::<char>::empty() + seq!['-'];
                    assert(out@ + tail =~= before + (piece + tail));
                    assert(v@.take(i as int) + (seq!['&'] + decoded(tail)) =~= v@.take(i + 1)
                        + decoded(tail));
                }
            }
            i = i + 1;
        } else if '\u{20}' <= c && c <= '\u{7e}' {
            out.push(c);
            proof {
                assert(here.skip(1) =~= v@.skip(i + 1));
                let rest = encoded(v@.skip(i + 1));
                assert(before + (seq![c] + rest) =~= out@ + rest);
                assert forall|tail: Seq<char>| #[trigger] decoded(out@ + tail) == v@.take(i + 1)
                    + decoded(tail) by {
                    let x = seq![c] + tail;
                    assert(out@ + tail =~= before + x);
                    assert(x.skip(1) =~= tail);
                    assert(v@.take(i as int) + (seq![c] + decoded(tail)) =~= v@.take(i + 1)
                        + decoded(tail));
                }
            }
            i = i + 1;
        } else {
            let mut units: Vec<u16> = Vec::new();
            let mut j: usize = i;
            assert(v@.subrange(i as int, i as int) =~= Seq::<char>::empty());
            while j < n && !('\u{20}' <= v[j] && v[j] <= '\u{7e}')
                invariant
                    i <= j <= n == v@.len(),
                    units@ == utf16(v@.subrange(i as int, j as int)),
                    forall|m: int| i <= m < j ==> !printable(#[trigger] v@[m]),
                decreases n - j,
            {
                push_units(&mut units, v[j]);
                proof {
                    let longer = v@.subrange(i as int, j + 1);
                    assert(longer.drop_last() =~= v@.subrange(i as int, j as int));
                    assert(longer.last() == v@[j as int]);
                }
                j = j + 1;
            }
            let ghost k = j - i;
            let ghost word = v@.subrange(i as int, j as int);
            assert(j > i);
            let bytes: Vec<u8> = bytes_of_units(&units);
            let bare: String = encode_base64_bare(&bytes);
            let b: Vec<char> = swap_char(&to_chars(&bare), '/', ',');
            out.push('&');
            push_all(&mut out, &b);
            out.push('-');
            proof {
                assert forall|m: int| 0 <= m < k implies !printable(#[trigger] here[m]) by {
                    assert(here[m] == v@[i + m]);
                }
                if k < here.len() {
                    assert(here[k] == v@[j as int]);
                }
                lemma_unprintable_run(here, k);
                assert(here.take(k) =~= word);
                assert(here.skip(k) =~= v@.skip(j as int));
                let rest = encoded(v@.skip(j as int));
                assert(before + (seq!['&'] + coded(word) + seq!['-'] + rest) =~= out@ + rest);
                // what the run reads back as
                lemma_big_endian(units@);
                utf16_reads_back(word, Seq::empty());
                assert(utf16(word) + Seq::<u16>::empty() =~= utf16(word));
                assert(word + from_utf16(Seq::empty()) =~= word);
                assert(swapped(b@, ',', '/') =~= bare@) by {
                    assert forall|m: int| 0 <= m < bare@.len() implies #[trigger] swapped(
                        b@,
                        ',',
                        '/',
                    )[m] == bare@[m] by {
                        assert(base64_char(bare@[m]));
                    }
                }
                assert(units@.len() > 0) by {
                    assert(word.len() > 0);
                    assert(utf16(word).len() > 0);
                }
                assert(run_text(b@) == Some(word));
                assert forall|m: int| 0 <= m < b@.len() implies #[trigger] b@[m] != '-' by {
                    assert(base64_char(bare@[m]));
                }
                assert forall|tail: Seq<char>| #[trigger] decoded(out@ + tail) == v@.take(
                    j as int,
                ) + decoded(tail) by {
                    lemma_shown(b@, tail);
                    let piece = seq!['&'] + b@ + seq!['-'];
                    assert(out@ + tail =~= before + (piece + tail));
                    assert(v@.take(i as int) + (word + decoded(tail)) =~= v@.take(j as int)
                        + decoded(tail));
                }
            }
            i = j;
        }
    }
    proof {
        assert(v@.skip(i as int).len() == 0);
        assert(out@ + encoded(v@.skip(i as int)) =~= out@);
        assert(out@ + Seq::<char>::empty() =~= out@);
        assert(decoded(out@ + Seq::<char>::empty()) == v@.take(i as int) + decoded(Seq::empty()));
        assert(v@.take(i as int) + decoded(Seq::empty()) =~= v@);
    }
    to_text(&out)
}

/// A run between `&` and `-` is shown, and what follows is read on its own.
proof fn lemma_shown(word: Seq<char>, tail: Seq<char>)
    requires
        forall|m: int| 0 <= m < word.len() ==> #[trigger] word[m] != '-',
    ensures
        decoded(seq!['&'] + word + seq!['-'] + tail) == run_shown(word, true) + decoded(tail),
{
    let s = seq!['&'] + word + seq!['-'] + tail;
    let rest = s.skip(1);
    assert(rest =~= word + seq!['-'] + tail);
    assert forall|m: int| 0 <= m < word.len() implies !Class::Is('-').holds(#[trigger] rest[m]) by {
        assert(rest[m] == word[m]);
    }
    assert(Class::Is('-').holds(rest[word.len() as int]));
    lemma_run_is(rest, Class::Is('-'), false, word.len() as int);
    assert(rest.take(word.len() as int) =~= word);
    assert(rest.skip(word.len() as int + 1) =~= tail);
}

// ---- special use ----

/// The role a server's attributes declare: the first that declares one.
pub open spec fn declared(attributes: Seq<NameAttribute>) -> Option<SpecialUse>
    decreases attributes.len(),
{
    if attributes.len() == 0 {
        None
    } else {
        match attributes[0] {
            NameAttribute::Sent => Some(SpecialUse::Sent),
            NameAttribute::Trash => Some(SpecialUse::Trash),
            NameAttribute::Junk => Some(SpecialUse::Junk),
            NameAttribute::Drafts => Some(SpecialUse::Drafts),
            NameAttribute::Archive => Some(SpecialUse::Archive),
            NameAttribute::All => Some(SpecialUse::Archive),
            _ => declared(attributes.skip(1)),
        }
    }
}

/// The role a name has in the handful of spellings that are in use.
pub open spec fn role_named(leaf: Seq<char>) -> Option<SpecialUse> {
    if leaf == "inbox"@ {
        Some(SpecialUse::Inbox)
    } else if leaf == "sent"@ || leaf == "sent messages"@ || leaf == "sent items"@ || leaf == "sent mail"@ {
        Some(SpecialUse::Sent)
    } else if leaf == "trash"@ || leaf == "deleted"@ || leaf == "deleted items"@ || leaf == "deleted messages"@ || leaf == "bin"@ {
        Some(SpecialUse::Trash)
    } else if leaf == "junk"@ || leaf == "spam"@ || leaf == "junk e-mail"@ || leaf == "bulk mail"@ {
        Some(SpecialUse::Junk)
    } else if leaf == "archive"@ || leaf == "archives"@ || leaf == "all mail"@ {
        Some(SpecialUse::Archive)
    } else if leaf == "drafts"@ || leaf == "draft"@ {
        Some(SpecialUse::Drafts)
    } else {
        None
    }
}

/// The part of a name behind its last `/` or `.`.
pub open spec fn leaf_of(name: Seq<char>) -> Seq<char> {
    let parts = split_on(name, Class::Either('/', '.'));
    if parts.len() > 0 {
        parts.last()
    } else {
        name
    }
}

/// The role of a mailbox: INBOX by its name in any case, then what the server
/// declares, then what the leaf of its name says. `Work/Archive` is an archive;
/// `Archive/Work` is not.
pub open spec fn role(attributes: Seq<NameAttribute>, wire_name: Seq<char>) -> Option<SpecialUse> {
    if lowered(wire_name) == lowered("inbox"@) {
        Some(SpecialUse::Inbox)
    } else if declared(attributes) is Some {
        declared(attributes)
    } else {
        role_named(leaf_of(unicode_lower(decoded(wire_name))))
    }
}

fn declared_of(attributes: &[NameAttribute]) -> (r: Option<SpecialUse>)
    ensures
        r == declared(attributes@),
{
    let mut i: usize = 0;
    assert(attributes@.skip(0) =~= attributes@);
    while i < attributes.len()
        invariant
            i <= attributes@.len(),
            declared(attributes@) == declared(attributes@.skip(i as int)),
        decreases attributes@.len() - i,
    {
        assert(attributes@.skip(i as int).skip(1) =~= attributes@.skip(i + 1));
        match attributes[i] {
            NameAttribute::Sent => {
                return Some(SpecialUse::Sent);
            },
            NameAttribute::Trash => {
                return Some(SpecialUse::Trash);
            },
            NameAttribute::Junk => {
                return Some(SpecialUse::Junk);
            },
            NameAttribute::Drafts => {
                return Some(SpecialUse::Drafts);
            },
            NameAttribute::Archive | NameAttribute::All => {
                return Some(SpecialUse::Archive);
            },
            _ => {},
        }
        i = i + 1;
    }
    None
}

/// The role the leaf of a name has; it is given in lower case.
#[must_use]
pub fn role_of_name(lower: &str) -> (r: Option<SpecialUse>)
    ensures
        r == role_named(leaf_of(lower@)),
{
    let v: Vec<char> = to_chars(lower);
    let parts: Vec<Vec<char>> = split_of(&v, Class::Either('/', '.'));
    assert(pieces(parts@).len() == parts@.len());
    let leaf: &Vec<char> = if parts.len() > 0 {
        assert(pieces(parts@).last() == parts@[parts@.len() - 1]@);
        &parts[parts.len() - 1]
    } else {
        &v
    };
    if spells(leaf, "inbox") {
        Some(SpecialUse::Inbox)
    } else if spells(leaf, "sent") || spells(leaf, "sent messages") || spells(leaf, "sent items") || spells(leaf, "sent mail") {
        Some(SpecialUse::Sent)
    } else if spells(leaf, "trash") || spells(leaf, "deleted") || spells(leaf, "deleted items") || spells(leaf, "deleted messages") || spells(leaf, "bin") {
        Some(SpecialUse::Trash)
    } else if spells(leaf, "junk") || spells(leaf, "spam") || spells(leaf, "junk e-mail") || spells(leaf, "bulk mail") {
        Some(SpecialUse::Junk)
    } else if spells(leaf, "archive") || spells(leaf, "archives") || spells(leaf, "all mail") {
        Some(SpecialUse::Archive)
    } else if spells(leaf, "drafts") || spells(leaf, "draft") {
        Some(SpecialUse::Drafts)
    } else {
        None
    }
}

/// Special use from LIST attributes, falling back to name heuristics.
#[must_use]
pub fn detect_special_use(attributes: &[NameAttribute], wire_name: &str) -> (r: Option<SpecialUse>)
    ensures
        r == role(attributes@, wire_name@),
{
    if same_folded(&to_chars(wire_name), "inbox") {
        return Some(SpecialUse::Inbox);
    }
    match declared_of(attributes) {
        Some(use_) => Some(use_),
        None => role_of_name(&to_lowercase(&decode_modified_utf7(wire_name))),
    }
}

fn has_no_select(attributes: &[NameAttribute]) -> (r: bool)
    ensures
        r == attributes@.contains(NameAttribute::NoSelect),
{
    let mut i: usize = 0;
    while i < attributes.len()
        invariant
            i <= attributes@.len(),
            forall|j: int| 0 <= j < i ==> #[trigger] attributes@[j] != NameAttribute::NoSelect,
        decreases attributes@.len() - i,
    {
        if attributes[i] == NameAttribute::NoSelect {
            assert(attributes@[i as int] == NameAttribute::NoSelect);
            return true;
        }
        i = i + 1;
    }
    false
}

/// Builds a [`Folder`] from one LIST response line. A server that reports no
/// delimiter has a flat namespace, and `/` is a harmless stand-in there.
#[must_use]
pub fn from_list_entry(
    wire_name: &str,
    delimiter: Option<char>,
    attributes: &[NameAttribute],
) -> (r: Folder)
    ensures
        r.wire_name@ == wire_name@,
        r.display_name@ == decoded(wire_name@),
        r.delimiter == (match delimiter {
            Some(d) => d,
            None => '/',
        }),
        r.special_use == role(attributes@, wire_name@),
        r.no_select == attributes@.contains(NameAttribute::NoSelect),
{
    Folder {
        display_name: decode_modified_utf7(wire_name),
        wire_name: wire_name.to_owned(),
        delimiter: match delimiter {
            Some(d) => d,
            None => '/',
        },
        special_use: detect_special_use(attributes, wire_name),
        no_select: has_no_select(attributes),
    }
}

// ---- display order ----

impl Folder {
    pub open spec fn place(self) -> u8 {
        match self.special_use {
            Some(u) => u.rank(),
            None => u8::MAX,
        }
    }

    fn place_of(&self) -> (r: u8)
        ensures
            r == self.place(),
    {
        match self.special_use {
            Some(u) => u.order(),
            None => u8::MAX,
        }
    }
}

/// Does a path come no later than another? Segment by segment, so that what lies
/// under a path comes before whatever only begins with the same letters.
pub open spec fn path_before(a: Seq<Seq<char>>, b: Seq<Seq<char>>) -> bool
    decreases a.len(),
{
    if a.len() == 0 {
        true
    } else if b.len() == 0 {
        false
    } else if a[0] == b[0] {
        path_before(a.skip(1), b.skip(1))
    } else {
        text_before(a[0], b[0])
    }
}

fn paths_before(a: &Vec<String>, b: &Vec<String>) -> (r: bool)
    ensures
        r == path_before(texts(a@), texts(b@)),
{
    let ghost pa = texts(a@);
    let ghost pb = texts(b@);
    let mut i: usize = 0;
    assert(pa.skip(0) =~= pa && pb.skip(0) =~= pb);
    while i < a.len() && i < b.len()
        invariant
            i <= a@.len(),
            i <= b@.len(),
            pa == texts(a@),
            pb == texts(b@),
            path_before(pa, pb) == path_before(pa.skip(i as int), pb.skip(i as int)),
        decreases a@.len() - i,
    {
        proof {
            assert(pa.skip(i as int)[0] == a@[i as int]@ && pb.skip(i as int)[0] == b@[i as int]@);
            assert(pa.skip(i as int).skip(1) =~= pa.skip(i + 1));
            assert(pb.skip(i as int).skip(1) =~= pb.skip(i + 1));
        }
        if !same(&a[i], &b[i]) {
            return texts_before(&a[i], &b[i]);
        }
        i = i + 1;
    }
    i >= a.len()
}

impl Folder {
    /// The path segments of the display name, whatever their case.
    pub open spec fn folded_path(self) -> Seq<Seq<char>> {
        self.segments().map_values(|s: Seq<char>| unicode_lower(s))
    }

    fn folded_path_of(&self) -> (r: Vec<String>)
        ensures
            texts(r@) == self.folded_path(),
    {
        let path: Vec<String> = self.path();
        let mut out: Vec<String> = Vec::new();
        let mut i: usize = 0;
        assert(texts(path@).len() == path@.len());
        while i < path.len()
            invariant
                i <= path@.len(),
                path@.len() == self.segments().len(),
                texts(path@) == self.segments(),
                out@.len() == i,
                forall|k: int|
                    0 <= k < i ==> (#[trigger] out@[k])@ == unicode_lower(self.segments()[k]),
            decreases path@.len() - i,
        {
            assert(texts(path@)[i as int] == path@[i as int]@);
            out.push(to_lowercase(&path[i]));
            i = i + 1;
        }
        assert(texts(out@) =~= self.folded_path());
        out
    }
}

impl Ordered for Folder {
    /// The special-use mailboxes in their conventional order, then everything
    /// else alphabetically, whatever the case, with children directly under
    /// their parents.
    open spec fn before(self, other: Folder) -> bool {
        ||| self.place() < other.place()
        ||| self.place() == other.place() && path_before(self.folded_path(), other.folded_path())
    }

    fn is_before(&self, other: &Folder) -> (r: bool) {
        let a: u8 = self.place_of();
        let b: u8 = other.place_of();
        a < b || (a == b && paths_before(&self.folded_path_of(), &other.folded_path_of()))
    }
}

/// Orders a folder list the way a person expects to see it: the special-use
/// mailboxes first in their conventional order, then everything else
/// alphabetically, with children directly under their parents.
pub fn sort_for_display(folders: &mut Vec<Folder>)
    ensures
        final(folders)@ == sorted(old(folders)@),
{
    sort(folders)
}

proof fn lemma_path_order(a: Seq<Seq<char>>, b: Seq<Seq<char>>, c: Seq<Seq<char>>)
    ensures
        path_before(a, b) || path_before(b, a),
        path_before(a, b) && path_before(b, c) ==> path_before(a, c),
    decreases a.len(),
{
    if a.len() > 0 && b.len() > 0 {
        crate::order::text_order(a[0], b[0], b[0]);
        if c.len() > 0 {
            crate::order::text_order(a[0], b[0], c[0]);
            crate::order::text_order(b[0], c[0], c[0]);
            lemma_path_order(a.skip(1), b.skip(1), c.skip(1));
        } else {
            lemma_path_order(a.skip(1), b.skip(1), c);
        }
    }
}

proof fn lemma_between(parent: Seq<Seq<char>>, x: Seq<Seq<char>>, child: Seq<Seq<char>>)
    requires
        parent.is_prefix_of(child),
        path_before(parent, x),
        path_before(x, child),
    ensures
        parent.is_prefix_of(x),
    decreases parent.len(),
{
    if parent.len() > 0 {
        assert(parent[0] == child[0]);
        crate::order::text_order(parent[0], x[0], x[0]);
        assert(parent.skip(1).is_prefix_of(child.skip(1)));
        lemma_between(parent.skip(1), x.skip(1), child.skip(1));
        assert forall|i: int| 0 <= i < parent.len() implies parent[i] == x[i] by {
            if i > 0 {
                assert(parent.skip(1)[i - 1] == x.skip(1)[i - 1]);
            }
        }
        assert(parent =~= x.take(parent.len() as int));
    }
}

/// Whatever is listed between a folder and one that lies under it lies under it
/// too: children stand directly under their parents.
pub proof fn children_stand_under_their_parents(parent: Folder, x: Folder, child: Folder)
    requires
        parent.place() == child.place(),
        parent.folded_path().is_prefix_of(child.folded_path()),
        parent.before(x),
        x.before(child),
    ensures
        parent.folded_path().is_prefix_of(x.folded_path()),
{
    lemma_between(parent.folded_path(), x.folded_path(), child.folded_path());
}

/// Display order is an order, so a sorted list holds every folder, each where it
/// belongs.
pub proof fn display_order_is_an_order(folders: Seq<Folder>)
    ensures
        crate::order::in_order(sorted(folders)),
        sorted(folders).to_multiset() == folders.to_multiset(),
{
    assert forall|a: Folder, b: Folder| #[trigger] a.before(b) || b.before(a) by {
        lemma_path_order(a.folded_path(), b.folded_path(), b.folded_path());
    }
    assert forall|a: Folder, b: Folder, c: Folder| #[trigger] a.before(b) && #[trigger] b.before(
        c,
    ) implies a.before(c) by {
        lemma_path_order(a.folded_path(), b.folded_path(), c.folded_path());
    }
    crate::order::sorting_keeps_everything_in_order(folders);
}

/// The folder list begins with the inbox, then drafts, sent mail, archives, junk and trash;
/// folders without a role come behind all of these.
pub proof fn folders_with_a_role_come_first(a: Folder, b: Folder)
    ensures
        SpecialUse::Inbox.rank() < SpecialUse::Drafts.rank() < SpecialUse::Sent.rank()
            < SpecialUse::Archive.rank() < SpecialUse::Junk.rank() < SpecialUse::Trash.rank(),
        a.special_use is Some && b.special_use is None ==> a.before(b) && !b.before(a),
        a.special_use is Some && b.special_use is Some && a.special_use->0.rank()
            < b.special_use->0.rank() ==> a.before(b) && !b.before(a),
{
}

/// Folders of one role, or of none, are listed by their paths: one that lies under another
/// comes behind it, and where two paths part, the text of the two segments decides, whatever
/// its case.
pub proof fn folders_are_listed_by_path(
    a: Folder,
    b: Folder,
    shared: Seq<Seq<char>>,
    x: Seq<char>,
    y: Seq<char>,
    s: Seq<Seq<char>>,
    t: Seq<Seq<char>>,
)
    requires
        a.special_use == b.special_use,
        x != y,
    ensures
        a.folded_path() == shared + seq![x] + s && b.folded_path() == shared + seq![y] + t ==> (
        a.before(b) <==> text_before(x, y)),
        a.folded_path() == shared && b.folded_path() == shared + seq![y] + t ==> a.before(b)
            && !b.before(a),
{
    lemma_paths_part(shared, x, y, s, t);
    lemma_path_under(shared, seq![y] + t);
    assert(shared + (seq![y] + t) =~= shared + seq![y] + t);
}

proof fn lemma_paths_part(
    shared: Seq<Seq<char>>,
    x: Seq<char>,
    y: Seq<char>,
    s: Seq<Seq<char>>,
    t: Seq<Seq<char>>,
)
    requires
        x != y,
    ensures
        path_before(shared + seq![x] + s, shared + seq![y] + t) == text_before(x, y),
    decreases shared.len(),
{
    let a = shared + seq![x] + s;
    let b = shared + seq![y] + t;
    if shared.len() > 0 {
        let rest = shared.skip(1);
        lemma_paths_part(rest, x, y, s, t);
        assert(a.skip(1) =~= rest + seq![x] + s);
        assert(b.skip(1) =~= rest + seq![y] + t);
        assert(a[0] == b[0]);
    } else {
        assert(a[0] == x);
        assert(b[0] == y);
    }
}

proof fn lemma_path_under(path: Seq<Seq<char>>, under: Seq<Seq<char>>)
    requires
        under.len() > 0,
    ensures
        path_before(path, path + under),
        !path_before(path + under, path),
    decreases path.len(),
{
    if path.len() > 0 {
        lemma_path_under(path.skip(1), under);
        assert((path + under).skip(1) =~= path.skip(1) + under);
        assert((path + under)[0] == path[0]);
    }
}

/// The inbox is the inbox in any case, whatever the server declares of it; otherwise the first
/// role that the server declares counts, and a folder of all mail is an archive.
pub proof fn a_declared_role_counts(attributes: Seq<NameAttribute>, wire_name: Seq<char>, k: int)
    requires
        0 <= k < attributes.len(),
        attributes[k] != NameAttribute::NoSelect && attributes[k] != NameAttribute::Other,
        forall|i: int|
            0 <= i < k ==> #[trigger] attributes[i] == NameAttribute::NoSelect || attributes[i]
                == NameAttribute::Other,
    ensures
        lowered(wire_name) == "inbox"@ ==> role(attributes, wire_name) == Some(SpecialUse::Inbox),
        lowered(wire_name) != "inbox"@ ==> role(attributes, wire_name) == Some(
            match attributes[k] {
                NameAttribute::Sent => SpecialUse::Sent,
                NameAttribute::Trash => SpecialUse::Trash,
                NameAttribute::Junk => SpecialUse::Junk,
                NameAttribute::Drafts => SpecialUse::Drafts,
                _ => SpecialUse::Archive,
            },
        ),
{
    reveal_strlit("inbox");
    assert(lowered("inbox"@) =~= "inbox"@);
    lemma_declared(attributes, k);
}

proof fn lemma_declared(attributes: Seq<NameAttribute>, k: int)
    requires
        0 <= k < attributes.len(),
        attributes[k] != NameAttribute::NoSelect && attributes[k] != NameAttribute::Other,
        forall|i: int|
            0 <= i < k ==> #[trigger] attributes[i] == NameAttribute::NoSelect || attributes[i]
                == NameAttribute::Other,
    ensures
        declared(attributes) == declared(seq![attributes[k]]),
    decreases k,
{
    if k == 0 {
        assert(seq![attributes[k]][0] == attributes[0]);
    } else {
        assert(attributes[0] == NameAttribute::NoSelect || attributes[0] == NameAttribute::Other);
        let rest = attributes.skip(1);
        assert forall|i: int| 0 <= i < k - 1 implies #[trigger] rest[i] == NameAttribute::NoSelect
            || rest[i] == NameAttribute::Other by {
            assert(rest[i] == attributes[i + 1]);
        }
        lemma_declared(rest, k - 1);
    }
}

/// What the leaf of a name says of a folder's role: each spelling in use, and no other.
pub proof fn which_spellings_name_a_role(leaf: Seq<char>)
    ensures
        role_named(leaf) == Some(SpecialUse::Drafts) ==> leaf == "drafts"@ || leaf == "draft"@,
        role_named(leaf) == Some(SpecialUse::Inbox) ==> leaf == "inbox"@,
        leaf == "inbox"@ ==> role_named(leaf) == Some(SpecialUse::Inbox),
        role_named(leaf) is None <==> leaf != "inbox"@ && leaf != "sent"@ && leaf
            != "sent messages"@ && leaf != "sent items"@ && leaf != "sent mail"@ && leaf != "trash"@
            && leaf != "deleted"@ && leaf != "deleted items"@ && leaf != "deleted messages"@ && leaf
            != "bin"@ && leaf != "junk"@ && leaf != "spam"@ && leaf != "junk e-mail"@ && leaf
            != "bulk mail"@ && leaf != "archive"@ && leaf != "archives"@ && leaf != "all mail"@
            && leaf != "drafts"@ && leaf != "draft"@,
        role_named(leaf) == Some(SpecialUse::Sent) ==> leaf == "sent"@ || leaf == "sent messages"@
            || leaf == "sent items"@ || leaf == "sent mail"@,
        role_named(leaf) == Some(SpecialUse::Trash) ==> leaf == "trash"@ || leaf == "deleted"@
            || leaf == "deleted items"@ || leaf == "deleted messages"@ || leaf == "bin"@,
        role_named(leaf) == Some(SpecialUse::Junk) ==> leaf == "junk"@ || leaf == "spam"@ || leaf
            == "junk e-mail"@ || leaf == "bulk mail"@,
        role_named(leaf) == Some(SpecialUse::Archive) ==> leaf == "archive"@ || leaf == "archives"@
            || leaf == "all mail"@,
{
}

/// Without a declared role, a folder has the role that the last part of its name says.
pub proof fn the_leaf_of_a_name_decides(wire_name: Seq<char>, front: Seq<char>, leaf: Seq<char>)
    requires
        lowered(wire_name) != lowered("inbox"@),
        unicode_lower(decoded(wire_name)) == front + seq!['/'] + leaf || unicode_lower(
            decoded(wire_name),
        ) == front + seq!['.'] + leaf,
        forall|i: int| 0 <= i < leaf.len() ==> #[trigger] leaf[i] != '/' && leaf[i] != '.',
    ensures
        role(Seq::empty(), wire_name) == role_named(leaf),
{
    let name = unicode_lower(decoded(wire_name));
    let k = Class::Either('/', '.');
    assert forall|j: int| front.len() < j < name.len() implies !k.holds(#[trigger] name[j]) by {
        assert(name[j] == leaf[j - front.len() - 1]);
    }
    assert(k.holds(name[front.len() as int]));
    lemma_last_piece(name, k, front.len() as int);
    assert(name.skip(front.len() as int + 1) =~= leaf);
}

proof fn lemma_last_piece(s: Seq<char>, k: Class, at: int)
    requires
        0 <= at < s.len(),
        k.holds(s[at]),
        forall|j: int| at < j < s.len() ==> !k.holds(#[trigger] s[j]),
    ensures
        split_on(s, k).len() > 0,
        split_on(s, k).last() == s.skip(at + 1),
    decreases s.len(),
{
    lemma_run(s, k, false);
    let i = run(s, k, false) as int;
    assert(i <= at) by {
        if i > at {
            assert(k.holds(s[at]) == false);
        }
    }
    let rest = s.skip(i + 1);
    if i == at {
        assert forall|j: int| 0 <= j < rest.len() implies k.holds(#[trigger] rest[j]) == false by {
            assert(rest[j] == s[at + 1 + j]);
        }
        lemma_run_is(rest, k, false, rest.len() as int);
        assert(split_on(rest, k) =~= seq![rest]);
    } else {
        assert(rest[at - i - 1] == s[at]);
        assert forall|j: int| at - i - 1 < j < rest.len() implies !k.holds(#[trigger] rest[j]) by {
            assert(rest[j] == s[i + 1 + j]);
        }
        lemma_last_piece(rest, k, at - i - 1);
        assert(rest.skip(at - i) =~= s.skip(at + 1));
    }
}

} // verus!
