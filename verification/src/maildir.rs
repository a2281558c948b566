//! What the names of a maildir's files say, and which file holds what.
//!
//! A file's name carries the UID (`,U=<n>`) and the flags (`:2,<letters>`) of
//! its message. Both are properties of the message, so the [`Catalogue`] can be
//! made again at any time by walking the directory.

use std::collections::BTreeMap;

use vstd::prelude::*;

use crate::chars::{at, first_at, from_index, lemma_place_is, lemma_run_is, place, place_of, push_all,
    push_text, run, run_of, same, to_chars, to_text, up_to, Class};
use crate::model::{maildir_info_reads_back, Flags};
use crate::numbers::{dec, decimal, decimal_reads_back, lemma_dec, parse_unsigned, unsigned};
use crate::order::{lemma_listing_of, listing_of};
use crate::plan::held_uids;

verus! {

/// The UID marker, as other maildir tools spell it.
pub const UID_MARKER: &'static str = ",U=";

/// Separates the message name from its flags.
pub const INFO_MARKER: &'static str = ":2,";

/// The cursor sidecar, beside the maildir's `cur/`: dot-prefixed, so that no
/// scan reads it as a message.
pub const SIDECAR: &'static str = ".imap-state.json";

/// The directories of a maildir that hold messages.
#[derive(Debug, Clone, Copy, PartialEq, Eq, Structural)]
pub enum Subdir {
    Cur,
    New,
}

/// A file of a maildir.
#[derive(Debug, PartialEq, Eq)]
pub struct Filed {
    pub subdir: Subdir,
    pub name: String,
}

/// A file, as contracts speak of it.
pub struct Place {
    pub subdir: Subdir,
    pub name: Seq<char>,
}

impl Filed {
    pub open spec fn view(&self) -> Place {
        Place { subdir: self.subdir, name: self.name@ }
    }
}

impl Clone for Filed {
    fn clone(&self) -> (r: Self)
        ensures
            r@ == self@,
    {
        Filed { subdir: self.subdir, name: self.name.clone() }
    }
}

/// Whole seconds since the epoch; a date before it counts as the epoch.
pub open spec fn whole_seconds(ms: int) -> nat {
    if ms < 0 {
        0
    } else {
        (ms / 1000) as nat
    }
}

/// A message's name before its flags.
pub open spec fn stem(uid: u32, ms: int) -> Seq<char> {
    dec(whole_seconds(ms)) + "."@ + dec(uid as nat) + ".cosmic-pim"@ + UID_MARKER@ + dec(uid as nat)
}

/// `<seconds>.<uid>.cosmic-pim,U=<uid>:2,<flags>`
pub open spec fn named(uid: u32, ms: int, flags: Flags) -> Seq<char> {
    stem(uid, ms) + INFO_MARKER@ + flags.info()
}

/// The digits a text begins with.
pub open spec fn leading_digits(s: Seq<char>) -> Seq<char> {
    s.take(run(s, Class::Digit, true) as int)
}

/// The UID a name records, if it records one.
pub open spec fn uid_in(name: Seq<char>) -> Option<nat> {
    match place(name, UID_MARKER@) {
        Some(i) => unsigned(leading_digits(name.skip(i + UID_MARKER@.len())), u32::MAX as nat),
        None => None,
    }
}

/// The flags a name records.
pub open spec fn flags_in(name: Seq<char>) -> Flags {
    match place(name, INFO_MARKER@) {
        Some(i) => Flags::of_info(name.skip(i + INFO_MARKER@.len())),
        None => crate::model::no_flags(),
    }
}

/// A name without its flags.
pub open spec fn base(name: Seq<char>) -> Seq<char> {
    match place(name, INFO_MARKER@) {
        Some(i) => name.take(i),
        None => name,
    }
}

/// The same name with other flags.
pub open spec fn flagged(name: Seq<char>, flags: Flags) -> Seq<char> {
    base(name) + INFO_MARKER@ + flags.info()
}

/// The name of the file that a message is delivered to.
///
/// The timestamp comes from the server's INTERNALDATE rather than the clock, so
/// that sorting by name puts the mailbox in the order a person expects.
#[must_use]
pub fn file_name_for(uid: u32, internal_date_ms: i64, flags: Flags) -> (r: String)
    ensures
        r@ == named(uid, internal_date_ms as int, flags),
{
    let seconds: u64 = if internal_date_ms < 0 {
        0
    } else {
        (internal_date_ms / 1000) as u64
    };
    let mut out: Vec<char> = decimal(seconds);
    push_text(&mut out, ".");
    push_all(&mut out, &decimal(uid as u64));
    push_text(&mut out, ".cosmic-pim");
    push_text(&mut out, UID_MARKER);
    push_all(&mut out, &decimal(uid as u64));
    push_text(&mut out, INFO_MARKER);
    push_text(&mut out, &flags.to_maildir_info());
    to_text(&out)
}

/// The UID a filename records, if it records one.
#[must_use]
pub fn uid_from_name(name: &str) -> (r: Option<u32>)
    ensures
        match r {
            Some(uid) => uid_in(name@) == Some(uid as nat),
            None => uid_in(name@) is None,
        },
{
    let v: Vec<char> = to_chars(name);
    let i: usize = match place_of(&v, UID_MARKER) {
        Some(i) => i,
        None => {
            return None;
        },
    };
    proof {
        reveal_strlit(",U=");
    }
    assert(i + 3 <= v.len());
    let after: &[char] = from_index(&v, i + 3);
    let n: usize = run_of(after, Class::Digit, true);
    match parse_unsigned(up_to(after, n), u32::MAX as u64) {
        Some(uid) => Some(uid as u32),
        None => None,
    }
}

/// The flags a filename records.
#[must_use]
pub fn flags_from_name(name: &str) -> (r: Flags)
    ensures
        r == flags_in(name@),
{
    let v: Vec<char> = to_chars(name);
    match place_of(&v, INFO_MARKER) {
        Some(i) => {
            proof {
                reveal_strlit(":2,");
            }
            assert(i + 3 <= v.len());
            Flags::from_maildir_info(&to_text(from_index(&v, i + 3)))
        },
        None => Flags::default(),
    }
}

/// The same filename with a different flag set.
#[must_use]
pub fn with_flags(name: &str, flags: Flags) -> (r: String)
    ensures
        r@ == flagged(name@, flags),
{
    let v: Vec<char> = to_chars(name);
    let mut out: Vec<char> = Vec::new();
    assert(out@ + base(v@) =~= base(v@));
    match place_of(&v, INFO_MARKER) {
        Some(i) => push_all(&mut out, up_to(&v, i)),
        None => push_all(&mut out, &v),
    }
    push_text(&mut out, INFO_MARKER);
    push_text(&mut out, &flags.to_maildir_info());
    to_text(&out)
}

/// A base with no flag marker in it, followed by the marker and flags, reads
/// back as those flags.
proof fn lemma_marked(base: Seq<char>, info: Seq<char>)
    requires
        forall|i: int| !#[trigger] at(base, i, INFO_MARKER@),
    ensures
        place(base + INFO_MARKER@ + info, INFO_MARKER@) == Some(base.len() as int),
        (base + INFO_MARKER@ + info).skip((base.len() + INFO_MARKER@.len()) as int) == info,
{
    reveal_strlit(":2,");
    let m = INFO_MARKER@;
    let s = base + m + info;
    assert(m =~= seq![':', '2', ',']);
    assert(s.subrange(base.len() as int, (base.len() + 3) as int) =~= m);
    assert(at(s, base.len() as int, m));
    assert forall|j: int| 0 <= j < base.len() implies !#[trigger] at(s, j, m) by {
        if at(s, j, m) {
            let cut = s.subrange(j, j + 3);
            assert(cut[0] == s[j] && cut[1] == s[j + 1] && cut[2] == s[j + 2]);
            if j + 3 <= base.len() {
                assert(base.subrange(j, j + 3) =~= cut);
                assert(at(base, j, m));
            } else if j + 2 == base.len() {
                assert(s[j + 2] == m[0]);
            } else {
                assert(s[j + 1] == m[0]);
            }
        }
    }
    lemma_place_is(s, base.len() as int, m);
    assert(s.skip((base.len() + 3) as int) =~= info);
}

proof fn lemma_base_unmarked(name: Seq<char>)
    ensures
        forall|i: int| !#[trigger] at(base(name), i, INFO_MARKER@),
{
    reveal_strlit(":2,");
    let m = INFO_MARKER@;
    let b = base(name);
    match place(name, m) {
        Some(k) => {
            assert(first_at(name, k, m));
            assert forall|i: int| !#[trigger] at(b, i, m) by {
                if at(b, i, m) {
                    assert(name.subrange(i, i + 3) =~= b.subrange(i, i + 3));
                    assert(at(name, i, m));
                }
            }
        },
        None => {
            if exists|i: int| #[trigger] at(b, i, m) {
                let i = choose|i: int| #[trigger] at(b, i, m);
                lemma_first_exists(b, i, m);
            }
        },
    }
}

proof fn lemma_first_exists(s: Seq<char>, i: int, needle: Seq<char>)
    requires
        at(s, i, needle),
    ensures
        exists|k: int| #[trigger] first_at(s, k, needle),
    decreases i,
{
    if exists|j: int| 0 <= j < i && #[trigger] at(s, j, needle) {
        let j = choose|j: int| 0 <= j < i && #[trigger] at(s, j, needle);
        lemma_first_exists(s, j, needle);
    } else {
        assert(first_at(s, i, needle));
    }
}

/// A file that was re-flagged records exactly the flags it was given.
pub proof fn new_flags_read_back(name: Seq<char>, flags: Flags)
    ensures
        flags_in(flagged(name, flags)) == flags,
{
    lemma_base_unmarked(name);
    lemma_marked(base(name), flags.info());
    maildir_info_reads_back(flags);
}

/// A file that was re-flagged records the UID it recorded before, where the UID
/// stands in front of the flags.
pub proof fn new_flags_keep_the_uid(name: Seq<char>, flags: Flags)
    requires
        place(base(name), UID_MARKER@) is Some,
    ensures
        uid_in(flagged(name, flags)) == uid_in(base(name)),
        uid_in(name) == uid_in(base(name)),
{
    reveal_strlit(":2,");
    assert((INFO_MARKER@ + flags.info())[0] == ':');
    lemma_uid_of_base(base(name), INFO_MARKER@ + flags.info());
    assert(base(name) + (INFO_MARKER@ + flags.info()) =~= flagged(name, flags));
    match place(name, INFO_MARKER@) {
        Some(i) => {
            assert(first_at(name, i, INFO_MARKER@));
            let rest = name.skip(i);
            assert(rest[0] == name.subrange(i, i + 3)[0]);
            lemma_uid_of_base(base(name), rest);
            assert(base(name) + rest =~= name);
        },
        None => {},
    }
}

/// What follows a base, when it begins with a colon, does not change the UID in
/// it.
proof fn lemma_uid_of_base(base: Seq<char>, rest: Seq<char>)
    requires
        place(base, UID_MARKER@) is Some,
        rest.len() > 0,
        rest[0] == ':',
    ensures
        uid_in(base + rest) == uid_in(base),
{
    reveal_strlit(",U=");
    let m = UID_MARKER@;
    let s = base + rest;
    let i = place(base, m)->0;
    assert(first_at(base, i, m));
    assert(s.subrange(i, i + 3) =~= base.subrange(i, i + 3));
    assert(at(s, i, m));
    assert forall|j: int| 0 <= j < i implies !#[trigger] at(s, j, m) by {
        if at(s, j, m) {
            assert(s.subrange(j, j + 3) =~= base.subrange(j, j + 3));
            assert(at(base, j, m));
        }
    }
    lemma_place_is(s, i, m);
    let x = base.skip(i + 3);
    let y = s.skip(i + 3);
    let n = run(x, Class::Digit, true);
    crate::chars::lemma_run(x, Class::Digit, true);
    assert forall|j: int| 0 <= j < n implies Class::Digit.holds(#[trigger] y[j]) == true by {
        assert(y[j] == x[j]);
    }
    if n < x.len() {
        assert(y[n as int] == x[n as int]);
    } else {
        assert(y[n as int] == rest[0]);
    }
    lemma_run_is(y, Class::Digit, true, n as int);
    assert(y.take(n as int) =~= x.take(n as int));
}

/// A delivered message's name reads back as its UID and its flags.
pub proof fn a_name_reads_back(uid: u32, ms: int, flags: Flags)
    ensures
        uid_in(named(uid, ms, flags)) == Some(uid as nat),
        flags_in(named(uid, ms, flags)) == flags,
        named(uid, ms, flags)[0] != '.',
{
    reveal_strlit(",U=");
    reveal_strlit(":2,");
    reveal_strlit(".");
    reveal_strlit(".cosmic-pim");
    let d = dec(uid as nat);
    let secs = dec(whole_seconds(ms));
    lemma_dec(uid as nat);
    lemma_dec(whole_seconds(ms));
    let front = secs + "."@ + d + ".cosmic-pim"@;
    let m = UID_MARKER@;
    let st = stem(uid, ms);
    assert(st =~= front + m + d);
    assert forall|j: int| 0 <= j < front.len() implies #[trigger] front[j] != ',' && front[j] != ':' by {
        if j < secs.len() {
            assert(front[j] == secs[j]);
            assert(Class::Digit.holds(secs[j]));
        } else if secs.len() < j < secs.len() + 1 + d.len() {
            assert(front[j] == d[j - secs.len() - 1]);
            assert(Class::Digit.holds(d[j - secs.len() - 1]));
        }
    }
    // The flags.
    assert forall|i: int| !#[trigger] at(st, i, INFO_MARKER@) by {
        if at(st, i, INFO_MARKER@) {
            assert(st.subrange(i, i + 3)[0] == st[i]);
            if i < front.len() {
                assert(st[i] == front[i]);
            } else if i >= front.len() + 3 {
                assert(st[i] == d[i - front.len() - 3]);
                assert(Class::Digit.holds(d[i - front.len() - 3]));
            } else {
                assert(st[i] == m[i - front.len()]);
            }
        }
    }
    lemma_marked(st, flags.info());
    maildir_info_reads_back(flags);
    // The UID.
    let name = named(uid, ms, flags);
    let rest = INFO_MARKER@ + flags.info();
    assert(name =~= st + rest);
    assert(st.subrange(front.len() as int, (front.len() + 3) as int) =~= m);
    assert(at(st, front.len() as int, m));
    assert forall|j: int| 0 <= j < front.len() implies !#[trigger] at(st, j, m) by {
        if at(st, j, m) {
            assert(st.subrange(j, j + 3)[0] == st[j]);
            assert(st[j] == front[j]);
        }
    }
    lemma_place_is(st, front.len() as int, m);
    assert(rest[0] == ':');
    lemma_uid_of_base(st, rest);
    assert(st.skip((front.len() + 3) as int) =~= d);
    lemma_run_is(d, Class::Digit, true, d.len() as int);
    assert(d.take(d.len() as int) =~= d);
    decimal_reads_back(uid as nat, u32::MAX as nat);
    assert(name[0] == secs[0]);
    assert(Class::Digit.holds(secs[0]));
}

/// Which file holds which message, and its flags.
#[verifier::ext_equal]
pub struct Shelf {
    pub files: Map<u32, Place>,
    pub flags: Map<u32, Flags>,
}

impl Shelf {
    /// Every file held has flags, and they are those its name records.
    pub open spec fn sound(self) -> bool {
        &&& self.files.dom() == self.flags.dom()
        &&& forall|uid: u32| #[trigger]
            self.files.contains_key(uid) ==> self.flags[uid] == flags_in(self.files[uid].name)
    }

    pub open spec fn holding(self, uid: u32, file: Place, flags: Flags) -> Shelf {
        Shelf { files: self.files.insert(uid, file), flags: self.flags.insert(uid, flags) }
    }

    pub open spec fn without(self, uid: u32) -> Shelf {
        Shelf { files: self.files.remove(uid), flags: self.flags.remove(uid) }
    }

    /// A message delivered.
    pub open spec fn delivered(self, uid: u32, ms: int, flags: Flags) -> Shelf {
        self.holding(uid, Place { subdir: Subdir::Cur, name: named(uid, ms, flags) }, flags)
    }

    /// A message re-flagged; one that is not held is left alone.
    pub open spec fn reflagged(self, uid: u32, flags: Flags) -> Shelf {
        if self.files.contains_key(uid) {
            let file = self.files[uid];
            self.holding(uid, Place { name: flagged(file.name, flags), ..file }, flags)
        } else {
            self
        }
    }
}

/// Does a file in the directory count as a message with server coordinates?
/// Dotfiles are bookkeeping, and a file without a UID marker was delivered by
/// another tool.
pub open spec fn counts(name: Seq<char>) -> bool {
    !(name.len() > 0 && name[0] == '.') && uid_in(name) is Some
}

/// What a walk of the directory finds.
pub open spec fn scanned(listing: Seq<Place>) -> Shelf
    decreases listing.len(),
{
    if listing.len() == 0 {
        Shelf { files: Map::empty(), flags: Map::empty() }
    } else {
        let front = scanned(listing.drop_last());
        let file = listing.last();
        if counts(file.name) {
            front.holding(uid_in(file.name)->0 as u32, file, flags_in(file.name))
        } else {
            front
        }
    }
}

pub open spec fn places(v: Seq<Filed>) -> Seq<Place> {
    v.map_values(|f: Filed| f@)
}

/// Which file holds which message: the index of a maildir.
#[derive(Debug)]
pub struct Catalogue {
    files: BTreeMap<u32, Filed>,
    flags: BTreeMap<u32, Flags>,
}

impl Catalogue {
    pub closed spec fn view(&self) -> Shelf {
        Shelf { files: self.files@.map_values(|f: Filed| f@), flags: self.flags@ }
    }

    /// Rebuilds the index from the files of `cur/` and `new/`: nothing but the
    /// files is needed to know what the mailbox holds.
    #[must_use]
    pub fn rescan(listing: &Vec<Filed>) -> (r: Self)
        ensures
            r@ == scanned(places(listing@)),
            r@.sound(),
    {
        broadcast use vstd::std_specs::btree::group_btree_axioms;

        let ghost all = places(listing@);
        let mut r: Catalogue = Catalogue { files: BTreeMap::new(), flags: BTreeMap::new() };
        let mut i: usize = 0;
        assert(all.take(0) =~= Seq::<Place>::empty());
        assert(r@ =~= scanned(all.take(0)));
        while i < listing.len()
            invariant
                i <= listing@.len(),
                all == places(listing@),
                r@ == scanned(all.take(i as int)),
                r@.sound(),
            decreases listing@.len() - i,
        {
            proof {
                assert(all.take(i + 1).drop_last() =~= all.take(i as int));
                assert(all.take(i + 1).last() == listing@[i as int]@);
            }
            let name: Vec<char> = to_chars(&listing[i].name);
            if name.len() == 0 || name[0] != '.' {
                if let Some(uid) = uid_from_name(&listing[i].name) {
                    let flags: Flags = flags_from_name(&listing[i].name);
                    let file: Filed = listing[i].clone();
                    r.put(uid, file, flags);
                }
            }
            i = i + 1;
        }
        assert(all.take(i as int) =~= all);
        r
    }

    fn put(&mut self, uid: u32, file: Filed, flags: Flags)
        requires
            old(self)@.sound(),
            flags == flags_in(file@.name),
        ensures
            final(self)@ == old(self)@.holding(uid, file@, flags),
            final(self)@.sound(),
    {
        broadcast use vstd::std_specs::btree::group_btree_axioms;

        self.files.insert(uid, file);
        self.flags.insert(uid, flags);
        assert(self@ =~= old(self)@.holding(uid, file@, flags));
        assert(self@.files.dom() =~= self@.flags.dom());
    }

    /// The file holding a message.
    #[must_use]
    pub fn file_of(&self, uid: u32) -> (r: Option<Filed>)
        ensures
            match r {
                Some(f) => self@.files.contains_key(uid) && f@ == self@.files[uid],
                None => !self@.files.contains_key(uid),
            },
    {
        broadcast use vstd::std_specs::btree::group_btree_axioms;

        match self.files.get(&uid) {
            Some(f) => Some(f.clone()),
            None => None,
        }
    }

    /// The flags of every message held.
    #[must_use]
    pub fn entries(&self) -> (r: BTreeMap<u32, Flags>)
        ensures
            r@ == self@.flags,
    {
        self.flags.clone()
    }

    /// Records that a message was written under [`file_name_for`] its
    /// coordinates, and says which file it leaves behind: a second delivery of
    /// one UID under another name would show the message twice.
    pub fn deliver(&mut self, uid: u32, internal_date_ms: i64, flags: Flags) -> (r: Option<Filed>)
        requires
            old(self)@.sound(),
        ensures
            final(self)@ == old(self)@.delivered(uid, internal_date_ms as int, flags),
            final(self)@.sound(),
            match r {
                Some(stale) => old(self)@.files.contains_key(uid) && stale@ == old(self)@.files[uid] && stale@ != final(self)@.files[uid],
                None => !old(self)@.files.contains_key(uid) || old(self)@.files[uid] == final(self)@.files[uid],
            },
    {
        let name: String = file_name_for(uid, internal_date_ms, flags);
        proof {
            a_name_reads_back(uid, internal_date_ms as int, flags);
        }
        let stale: Option<Filed> = match self.file_of(uid) {
            Some(f) => if f.subdir == Subdir::Cur && same(&f.name, &name) {
                None
            } else {
                Some(f)
            },
            None => None,
        };
        self.put(uid, Filed { subdir: Subdir::Cur, name }, flags);
        stale
    }

    /// The rename that gives a message other flags; none where it is not held
    /// or its name stays what it is.
    #[must_use]
    pub fn rename_for(&self, uid: u32, flags: Flags) -> (r: Option<(Filed, Filed)>)
        ensures
            match r {
                Some((from, to)) => self@.files.contains_key(uid) && from@ == self@.files[uid]
                    && to@ == self@.reflagged(uid, flags).files[uid] && to@.name != from@.name,
                None => !self@.files.contains_key(uid) || flagged(
                    self@.files[uid].name,
                    flags,
                ) == self@.files[uid].name,
            },
    {
        let from: Filed = match self.file_of(uid) {
            Some(f) => f,
            None => {
                return None;
            },
        };
        let renamed: String = with_flags(&from.name, flags);
        if same(&renamed, &from.name) {
            return None;
        }
        let to: Filed = Filed { subdir: from.subdir, name: renamed };
        Some((from, to))
    }

    /// Records that a message was re-flagged; one not held is left alone.
    pub fn reflag(&mut self, uid: u32, flags: Flags)
        requires
            old(self)@.sound(),
        ensures
            final(self)@ == old(self)@.reflagged(uid, flags),
            final(self)@.sound(),
    {
        if let Some(from) = self.file_of(uid) {
            let name: String = with_flags(&from.name, flags);
            proof {
                new_flags_read_back(from.name@, flags);
            }
            self.put(uid, Filed { subdir: from.subdir, name }, flags);
        }
    }

    /// Forgets a message, and says which file held it.
    pub fn forget(&mut self, uid: u32) -> (r: Option<Filed>)
        requires
            old(self)@.sound(),
        ensures
            final(self)@ == old(self)@.without(uid),
            final(self)@.sound(),
            match r {
                Some(f) => old(self)@.files.contains_key(uid) && f@ == old(self)@.files[uid],
                None => !old(self)@.files.contains_key(uid),
            },
    {
        broadcast use vstd::std_specs::btree::group_btree_axioms;

        let file: Option<Filed> = self.file_of(uid);
        self.files.remove(&uid);
        self.flags.remove(&uid);
        assert(self@ =~= old(self)@.without(uid));
        assert(self@.files.dom() =~= self@.flags.dom());
        file
    }

    /// Forgets everything, and says which files there were, by ascending UID.
    pub fn clear(&mut self) -> (r: Vec<Filed>)
        requires
            old(self)@.sound(),
        ensures
            final(self)@ == scanned(Seq::empty()),
            final(self)@.sound(),
            places(r@) == listing_of(old(self)@.files.dom()).map_values(
                |uid: u32| old(self)@.files[uid],
            ),
    {
        broadcast use vstd::std_specs::btree::group_btree_axioms;

        let uids: Vec<u32> = held_uids(&self.flags);
        let ghost start = self@;
        let ghost of = |uid: u32| start.files[uid];
        proof {
            lemma_listing_of(uids@);
            assert forall|k: int| 0 <= k < uids@.len() implies start.files.contains_key(
                #[trigger] uids@[k],
            ) by {
                assert(uids@.to_set().contains(uids@[k]));
            }
        }
        let mut out: Vec<Filed> = Vec::new();
        let mut i: usize = 0;
        assert(places(out@) =~= uids@.take(0).map_values(of));
        while i < uids.len()
            invariant
                i <= uids@.len(),
                start == self@,
                start.sound(),
                of == (|uid: u32| start.files[uid]),
                forall|k: int| 0 <= k < uids@.len() ==> start.files.contains_key(#[trigger] uids@[k]),
                places(out@) == uids@.take(i as int).map_values(of),
            decreases uids@.len() - i,
        {
            let ghost before = out@;
            assert(start.files.contains_key(uids@[i as int]));
            if let Some(f) = self.file_of(uids[i]) {
                let ghost seen = f@;
                out.push(f);
                assert(places(out@) =~= places(before).push(seen));
            }
            assert(uids@.take(i + 1).map_values(of) =~= uids@.take(i as int).map_values(of).push(
                of(uids@[i as int]),
            ));
            i = i + 1;
        }
        assert(uids@.take(i as int) =~= uids@);
        self.files.clear();
        self.flags.clear();
        assert(self@ =~= scanned(Seq::empty()));
        out
    }
}

/// The index rebuilds from the files alone: a walk that finds exactly the files
/// held, each UID once and in its own name, finds what was held.
pub proof fn the_index_rebuilds(shelf: Shelf, listing: Seq<Place>)
    requires
        shelf.sound(),
        forall|uid: u32| #[trigger]
            shelf.files.contains_key(uid) ==> counts(shelf.files[uid].name) && uid_in(
                shelf.files[uid].name,
            ) == Some(uid as nat) && listing.contains(shelf.files[uid]),
        forall|i: int|
            0 <= i < listing.len() && counts(#[trigger] listing[i].name)
                ==> shelf.files.contains_key(uid_in(listing[i].name)->0 as u32)
                && shelf.files[uid_in(listing[i].name)->0 as u32] == listing[i],
    ensures
        scanned(listing) == shelf,
{
    lemma_scanned_within(shelf, listing);
    let found = scanned(listing);
    assert forall|uid: u32| found.files.contains_key(uid) == shelf.files.contains_key(uid) by {
        if shelf.files.contains_key(uid) {
            let i = choose|i: int| 0 <= i < listing.len() && listing[i] == shelf.files[uid];
            lemma_scanned_has(listing, i);
        }
    }
    assert(found.files =~= shelf.files);
    assert(found.flags =~= shelf.flags);
}

proof fn lemma_scanned_within(shelf: Shelf, listing: Seq<Place>)
    requires
        shelf.sound(),
        forall|i: int|
            0 <= i < listing.len() && counts(#[trigger] listing[i].name)
                ==> shelf.files.contains_key(uid_in(listing[i].name)->0 as u32)
                && shelf.files[uid_in(listing[i].name)->0 as u32] == listing[i],
    ensures
        scanned(listing).sound(),
        forall|uid: u32| #[trigger]
            scanned(listing).files.contains_key(uid) ==> shelf.files.contains_key(uid)
                && scanned(listing).files[uid] == shelf.files[uid],
    decreases listing.len(),
{
    let found = scanned(listing);
    if listing.len() > 0 {
        let front = listing.drop_last();
        assert forall|i: int|
            0 <= i < front.len() && counts(#[trigger] front[i].name) implies shelf.files.contains_key(
            uid_in(front[i].name)->0 as u32,
        ) && shelf.files[uid_in(front[i].name)->0 as u32] == front[i] by {
            assert(front[i] == listing[i]);
        }
        lemma_scanned_within(shelf, front);
        assert(listing.last() == listing[listing.len() - 1]);
        assert(found.files.dom() =~= found.flags.dom());
    } else {
        assert(found.files.dom() =~= found.flags.dom());
    }
}

proof fn lemma_scanned_has(listing: Seq<Place>, i: int)
    requires
        0 <= i < listing.len(),
        counts(listing[i].name),
    ensures
        scanned(listing).files.contains_key(uid_in(listing[i].name)->0 as u32),
    decreases listing.len(),
{
    if i < listing.len() - 1 {
        assert(listing.drop_last()[i] == listing[i]);
        lemma_scanned_has(listing.drop_last(), i);
    }
}

/// How a file is named: the whole seconds of its date, its UID twice over, and its flags, so
/// that other maildir tools read them.
pub proof fn how_a_file_is_named(uid: u32, ms: int, flags: Flags)
    ensures
        named(uid, ms, flags) == dec(
            if ms < 0 {
                0
            } else {
                (ms / 1000) as nat
            },
        ) + "."@ + dec(uid as nat) + ".cosmic-pim"@ + ",U="@ + dec(uid as nat) + ":2,"@
            + flags.info(),
{
}

/// What a delivery leaves: one file for the message, under its own name among the read ones,
/// and every other file where it was.
pub proof fn what_a_delivery_files(shelf: Shelf, uid: u32, ms: int, flags: Flags, other: u32)
    requires
        other != uid,
    ensures
        ({
            let after = shelf.delivered(uid, ms, flags);
            &&& after.files.contains_key(uid) && after.flags.contains_key(uid)
            &&& after.files[uid].subdir == Subdir::Cur
            &&& uid_in(after.files[uid].name) == Some(uid as nat)
            &&& flags_in(after.files[uid].name) == flags
            &&& after.flags[uid] == flags
            &&& after.files.contains_key(other) <==> shelf.files.contains_key(other)
            &&& shelf.files.contains_key(other) ==> after.files[other] == shelf.files[other]
            &&& shelf.flags.contains_key(other) ==> after.flags[other] == shelf.flags[other]
        }),
{
    a_name_reads_back(uid, ms, flags);
}

/// What new flags change: the flags in the name of that one file, which stays in its
/// directory.
pub proof fn what_new_flags_change(shelf: Shelf, uid: u32, flags: Flags, other: u32)
    requires
        other != uid,
    ensures
        ({
            let after = shelf.reflagged(uid, flags);
            &&& shelf.files.contains_key(uid) ==> after.files.contains_key(uid)
                && after.files[uid].subdir == shelf.files[uid].subdir && flags_in(
                after.files[uid].name,
            ) == flags && base(after.files[uid].name) == base(shelf.files[uid].name)
                && after.flags[uid] == flags
            &&& !shelf.files.contains_key(uid) ==> !after.files.contains_key(uid)
            &&& after.files.contains_key(other) <==> shelf.files.contains_key(other)
            &&& shelf.files.contains_key(other) ==> after.files[other] == shelf.files[other]
            &&& shelf.flags.contains_key(other) ==> after.flags[other] == shelf.flags[other]
        }),
{
    if shelf.files.contains_key(uid) {
        let name = shelf.files[uid].name;
        new_flags_read_back(name, flags);
        lemma_base_unmarked(name);
        lemma_marked(base(name), flags.info());
        assert(flagged(name, flags).take(base(name).len() as int) =~= base(name));
    }
}

/// A walk of the directory finds every file that names a UID and does not begin with a dot,
/// and nothing else.
pub proof fn what_a_walk_finds(listing: Seq<Place>, uid: u32)
    ensures
        scanned(listing).files.contains_key(uid) <==> exists|i: int|
            0 <= i < listing.len() && uid_in((#[trigger] listing[i]).name) == Some(uid as nat)
                && !(listing[i].name.len() > 0 && listing[i].name[0] == '.'),
        scanned(listing).files.contains_key(uid) ==> uid_in(scanned(listing).files[uid].name)
            == Some(uid as nat) && scanned(listing).flags[uid] == flags_in(
            scanned(listing).files[uid].name,
        ) && listing.contains(scanned(listing).files[uid]),
    decreases listing.len(),
{
    if listing.len() > 0 {
        let front = listing.drop_last();
        what_a_walk_finds(front, uid);
        let file = listing.last();
        let found = scanned(listing);
        assert(listing[listing.len() - 1] == file);
        if scanned(front).files.contains_key(uid) {
            let i = choose|i: int|
                0 <= i < front.len() && uid_in((#[trigger] front[i]).name) == Some(uid as nat)
                    && !(front[i].name.len() > 0 && front[i].name[0] == '.');
            assert(listing[i] == front[i]);
            let k = choose|k: int| 0 <= k < front.len() && front[k] == scanned(front).files[uid];
            assert(listing[k] == front[k]);
        }
        if exists|i: int|
            0 <= i < listing.len() && uid_in((#[trigger] listing[i]).name) == Some(uid as nat)
                && !(listing[i].name.len() > 0 && listing[i].name[0] == '.') {
            let i = choose|i: int|
                0 <= i < listing.len() && uid_in((#[trigger] listing[i]).name) == Some(uid as nat)
                    && !(listing[i].name.len() > 0 && listing[i].name[0] == '.');
            if i < front.len() {
                assert(front[i] == listing[i]);
            }
        }
    }
}

} // verus!
