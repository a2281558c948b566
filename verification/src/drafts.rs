//! Unsent messages, kept on this device.
//!
//! A draft is a record and not a message: it is unfinished, it routinely has no
//! recipients yet, and an address somebody stopped halfway through typing comes
//! back exactly as it was typed.
//!
//! Each record also says where, and whether, the draft is mirrored on the
//! server: enough to replace the server's copy rather than accumulate beside it.

use vstd::prelude::*;

use crate::chars::{join_of, joined, opt_text, pieces, push_text, texts, to_chars, to_text, trim_of,
    trimmed};
use crate::compose::{display, Draft, DraftText};
use crate::error::{Error, Result};
use crate::model::{copy_option, mailbox_views, Mailbox, MailboxText};
use crate::numbers::{hex, hex_char, hex_digit, hexadecimal, is_hex_digit};
use crate::order::{sort, sorted, text_listing, Ordered};
use crate::shelf::{self, all_shown, find, held, keys, lemma_held, lemma_listed, listed, put, shelved,
    Held};

verus! {

/// The directory drafts live in, beside the account's maildirs: dot-prefixed so
/// that a maildir walker never reads it as a mailbox.
pub const DIRECTORY: &'static str = ".drafts";

/// The end of a draft's file name.
pub const EXTENSION: &'static str = ".draft.json";

/// The end of the file name of what is left of a draft whose server copy still
/// needs retiring.
pub const RETRACT_EXTENSION: &'static str = ".retract";

/// A saved draft: its id, and enough to list it without opening it.
#[derive(Debug, PartialEq, Eq)]
pub struct Saved {
    /// Stable across edits: re-saving replaces rather than accumulates.
    pub id: String,
    pub subject: String,
    /// Who it is addressed to, for the list row.
    pub to: String,
    /// When it was last written, in epoch milliseconds.
    pub saved_ms: i64,
}

/// The server-side linkage of one draft: the receipt for its last upload.
#[derive(Debug, PartialEq, Eq)]
pub struct Mirror {
    /// The `Message-ID` (without brackets) the mirror is filed under. Minted
    /// once per draft and stable across edits.
    pub message_id: Option<String>,
    /// Where the last upload landed, when the server said. A UID is only
    /// meaningful beside its UIDVALIDITY.
    pub uid_validity: Option<u32>,
    pub uid: Option<u32>,
    /// The record has been edited since the server last saw it.
    pub dirty: bool,
}

/// A linkage, as contracts speak of it.
#[verifier::ext_equal]
pub struct Linkage {
    pub message_id: Option<Seq<char>>,
    pub uid_validity: Option<u32>,
    pub uid: Option<u32>,
    pub dirty: bool,
}

/// No linkage: the server has never seen the draft.
pub open spec fn unlinked() -> Linkage {
    Linkage { message_id: None, uid_validity: None, uid: None, dirty: false }
}

impl Mirror {
    pub open spec fn view(&self) -> Linkage {
        Linkage {
            message_id: opt_text(self.message_id),
            uid_validity: self.uid_validity,
            uid: self.uid,
            dirty: self.dirty,
        }
    }
}

impl Default for Mirror {
    fn default() -> (r: Self)
        ensures
            r@ == unlinked(),
    {
        Mirror { message_id: None, uid_validity: None, uid: None, dirty: false }
    }
}

impl Clone for Mirror {
    fn clone(&self) -> (r: Self)
        ensures
            r@ == self@,
    {
        Mirror {
            message_id: copy_option(&self.message_id),
            uid_validity: self.uid_validity,
            uid: self.uid,
            dirty: self.dirty,
        }
    }
}

/// A draft as it is kept: what was typed, and when it was written.
#[derive(Debug, PartialEq, Eq)]
pub struct Record {
    pub saved_ms: i64,
    pub draft: Draft,
    pub mirror: Mirror,
}

/// A record, as contracts speak of it.
#[verifier::ext_equal]
pub struct RecordText {
    pub saved_ms: i64,
    pub draft: DraftText,
    pub mirror: Linkage,
}

impl Record {
    pub open spec fn view(&self) -> RecordText {
        RecordText { saved_ms: self.saved_ms, draft: self.draft@, mirror: self.mirror@ }
    }

    /// A record as it was kept. One that was kept without a linkage has never been
    /// mirrored.
    #[must_use]
    pub fn kept(saved_ms: i64, draft: Draft, mirror: Option<Mirror>) -> (r: Self)
        ensures
            r@ == (RecordText {
                saved_ms,
                draft: draft@,
                mirror: match mirror {
                    Some(m) => m@,
                    None => unlinked(),
                },
            }),
    {
        let mirror: Mirror = match mirror {
            Some(m) => m,
            None => Mirror::default(),
        };
        Record { saved_ms, draft, mirror }
    }
}

impl Clone for Record {
    fn clone(&self) -> (r: Self)
        ensures
            r@ == self@,
    {
        Record {
            saved_ms: self.saved_ms,
            draft: self.draft.clone(),
            mirror: self.mirror.clone(),
        }
    }
}

/// What is found under an id.
#[derive(Debug, PartialEq, Eq)]
pub enum Page {
    Whole(Record),
    /// A file that would not load. It is still the user's text.
    Damaged { why: String, modified_ms: i64 },
}

/// What is found under an id, as contracts speak of it.
pub enum PageText {
    Whole(RecordText),
    Damaged { why: Seq<char>, modified_ms: i64 },
}

impl Page {
    pub open spec fn view(&self) -> PageText {
        match *self {
            Page::Whole(r) => PageText::Whole(r@),
            Page::Damaged { why, modified_ms } => PageText::Damaged { why: why@, modified_ms },
        }
    }
}

/// A draft under its id.
#[derive(Debug, PartialEq, Eq)]
pub struct Kept {
    pub id: String,
    pub page: Page,
}

impl Held for Kept {
    type V = PageText;

    open spec fn key(&self) -> Seq<char> {
        self.id@
    }

    open spec fn shown(&self) -> PageText {
        self.page@
    }

    fn id(&self) -> (r: &str) {
        self.id.as_str()
    }
}

/// A mirrored draft that was deleted here: the id of the draft, and of the
/// message whose server copy still needs retiring.
#[derive(Debug, PartialEq, Eq)]
pub struct Tombstone {
    pub id: String,
    pub message_id: String,
}

impl Held for Tombstone {
    type V = Seq<char>;

    open spec fn key(&self) -> Seq<char> {
        self.id@
    }

    open spec fn shown(&self) -> Seq<char> {
        self.message_id@
    }

    fn id(&self) -> (r: &str) {
        self.id.as_str()
    }
}

/// Drafts for one account.
#[derive(Debug)]
pub struct Drafts {
    kept: Vec<Kept>,
    tombstones: Vec<Tombstone>,
}

/// The drafts of an account, as contracts speak of them.
#[verifier::ext_equal]
pub struct Book {
    pub pages: Map<Seq<char>, PageText>,
    pub tombstones: Map<Seq<char>, Seq<char>>,
}

/// Is this an id this module could have minted?
pub open spec fn id_like(id: Seq<char>) -> bool {
    0 < id.len() <= 32 && forall|i: int| 0 <= i < id.len() ==> hex_digit(#[trigger] id[i])
}

/// What is said of a draft that cannot be read back.
pub open spec fn unreadable(id: Seq<char>, why: Seq<char>) -> Seq<char> {
    "draft "@ + id + " could not be read back: "@ + why
}

/// The `Message-ID`s that tombstones name, by draft id, without white space
/// around them.
pub open spec fn to_retract(tombstones: Map<Seq<char>, Seq<char>>) -> Seq<Seq<char>> {
    listed(tombstones).map_values(|message_id: Seq<char>| trimmed(message_id))
}

impl Book {
    /// The record under an id: nothing under what is no id.
    pub open spec fn record(self, id: Seq<char>) -> Option<PageText> {
        if id_like(id) && self.pages.contains_key(id) {
            Some(self.pages[id])
        } else {
            None
        }
    }

    pub open spec fn with(self, id: Seq<char>, record: RecordText) -> Book {
        Book { pages: self.pages.insert(id, PageText::Whole(record)), ..self }
    }

    /// The linkage a save carries on: that of what was there, if it can be
    /// read.
    pub open spec fn linkage(self, id: Seq<char>) -> Linkage {
        match self.record(id) {
            Some(PageText::Whole(r)) => r.mirror,
            _ => unlinked(),
        }
    }

    /// A draft saved: the linkage survives, and is marked dirty.
    pub open spec fn saved(self, id: Seq<char>, draft: DraftText, now_ms: i64) -> Book {
        self.with(
            id,
            RecordText {
                saved_ms: now_ms,
                draft,
                mirror: Linkage { dirty: true, ..self.linkage(id) },
            },
        )
    }

    /// A draft uploaded: filed under this id, and landed there where the server
    /// said.
    pub open spec fn mirrored(
        self,
        id: Seq<char>,
        message_id: Seq<char>,
        landed: Option<(u32, u32)>,
    ) -> Book {
        match self.record(id) {
            Some(PageText::Whole(r)) => self.with(
                id,
                RecordText {
                    mirror: Linkage {
                        message_id: Some(message_id),
                        uid_validity: match landed {
                            Some((validity, _)) => Some(validity),
                            None => None,
                        },
                        uid: match landed {
                            Some((_, uid)) => Some(uid),
                            None => None,
                        },
                        dirty: false,
                    },
                    ..r
                },
            ),
            _ => self,
        }
    }

    /// A draft deleted: one that was mirrored leaves a tombstone.
    pub open spec fn deleted(self, id: Seq<char>) -> Book {
        Book {
            pages: self.pages.remove(id),
            tombstones: match self.linkage(id).message_id {
                Some(message_id) => self.tombstones.insert(id, message_id),
                None => self.tombstones,
            },
        }
    }
}

/// A row of the list, as contracts speak of it.
#[verifier::ext_equal]
pub struct Row {
    pub id: Seq<char>,
    pub subject: Seq<char>,
    pub to: Seq<char>,
    pub saved_ms: i64,
}

impl Saved {
    pub open spec fn view(&self) -> Row {
        Row { id: self.id@, subject: self.subject@, to: self.to@, saved_ms: self.saved_ms }
    }
}

pub open spec fn displays(list: Seq<MailboxText>) -> Seq<Seq<char>> {
    list.map_values(|m: MailboxText| display(m))
}

/// The row of one draft. A draft that will not load is still listed, under its
/// id: hiding it would lose it more thoroughly than the damage did.
pub open spec fn row(id: Seq<char>, page: PageText) -> Row {
    match page {
        PageText::Whole(r) => Row {
            id,
            subject: r.draft.subject,
            to: joined(displays(r.draft.to), ", "@),
            saved_ms: r.saved_ms,
        },
        PageText::Damaged { modified_ms, .. } => Row {
            id,
            subject: Seq::empty(),
            to: Seq::empty(),
            saved_ms: modified_ms,
        },
    }
}

/// The rows of all drafts, by id.
pub open spec fn rows(pages: Map<Seq<char>, PageText>) -> Seq<Row> {
    text_listing(pages.dom()).map_values(|id: Seq<char>| row(id, pages[id]))
}

pub open spec fn row_views(v: Seq<Saved>) -> Seq<Row> {
    v.map_values(|s: Saved| s@)
}

impl Ordered for Saved {
    /// Most recently written first.
    open spec fn before(self, other: Saved) -> bool {
        self.saved_ms >= other.saved_ms
    }

    fn is_before(&self, other: &Saved) -> (r: bool) {
        self.saved_ms >= other.saved_ms
    }
}

/// Has the server not seen the latest version of the draft under this id?
pub open spec fn is_dirty(book: Book, id: Seq<char>) -> bool {
    book.linkage(id).dirty
}

/// The ids in a list of drafts that are dirty, in its order.
pub open spec fn dirty_ids(list: Seq<Saved>, book: Book) -> Seq<Seq<char>>
    decreases list.len(),
{
    if list.len() == 0 {
        Seq::empty()
    } else {
        let front = dirty_ids(list.drop_last(), book);
        if is_dirty(book, list.last().id@) {
            front.push(list.last().id@)
        } else {
            front
        }
    }
}

pub open spec fn newest_first(list: Seq<Saved>, book: Book) -> bool {
    exists|unsorted: Seq<Saved>|
        row_views(unsorted) == rows(book.pages) && list == #[trigger] sorted(unsorted)
}

/// A fresh draft id: derived from the clock, so that ids sort by creation.
#[must_use]
pub fn new_id(now_ms: i64) -> (r: String)
    ensures
        r@ == hex(
            (if now_ms < 0 {
                0
            } else {
                now_ms as nat
            }),
            16,
            false,
        ),
        id_like(r@),
{
    let n: u64 = if now_ms < 0 {
        0
    } else {
        now_ms as u64
    };
    let v: Vec<char> = hexadecimal(n, 16, false);
    proof {
        lemma_hex(n as nat, 16);
    }
    to_text(&v)
}

proof fn lemma_hex(n: nat, places: nat)
    ensures
        hex(n, places, false).len() == places,
        forall|i: int| 0 <= i < places ==> hex_digit(#[trigger] hex(n, places, false)[i]),
    decreases places,
{
    if places > 0 {
        lemma_hex(n / 16, (places - 1) as nat);
        let d = n % 16;
        assert(hex_digit(hex_char(d, false)));
        let h = hex(n / 16, (places - 1) as nat, false);
        assert forall|i: int| 0 <= i < places implies hex_digit(
            #[trigger] hex(n, places, false)[i],
        ) by {
            if i < places - 1 {
                assert(hex(n, places, false)[i] == h[i]);
            }
        }
    }
}

/// Is this an id this module could have minted?
///
/// Checked before any path is built from it: an id that is not hex has come from
/// somewhere it should not have.
#[must_use]
pub fn is_valid_id(id: &str) -> (r: bool)
    ensures
        r == id_like(id@),
{
    let v: Vec<char> = to_chars(id);
    if v.len() == 0 || v.len() > 32 {
        return false;
    }
    let mut i: usize = 0;
    while i < v.len()
        invariant
            i <= v@.len(),
            v@ == id@,
            forall|k: int| 0 <= k < i ==> hex_digit(#[trigger] v@[k]),
        decreases v@.len() - i,
    {
        if !is_hex_digit(v[i]) {
            return false;
        }
        i = i + 1;
    }
    true
}

pub(crate) fn message3(a: &str, b: &str, c: &str) -> (r: String)
    ensures
        r@ == a@ + b@ + c@,
{
    let mut out: Vec<char> = to_chars(a);
    push_text(&mut out, b);
    push_text(&mut out, c);
    to_text(&out)
}

fn show_all(list: &Vec<Mailbox>) -> (r: Vec<Vec<char>>)
    ensures
        pieces(r@) == displays(mailbox_views(list@)),
{
    let mut out: Vec<Vec<char>> = Vec::new();
    let mut i: usize = 0;
    while i < list.len()
        invariant
            i <= list@.len(),
            out@.len() == i,
            forall|k: int| 0 <= k < i ==> (#[trigger] out@[k])@ == display(list@[k]@),
        decreases list@.len() - i,
    {
        out.push(to_chars(list[i].display()));
        i = i + 1;
    }
    assert(pieces(out@) =~= displays(mailbox_views(list@)));
    out
}

fn row_of(kept: &Kept) -> (r: Saved)
    ensures
        r@ == row(kept.id@, kept.page@),
{
    match &kept.page {
        Page::Whole(record) => Saved {
            id: kept.id.clone(),
            subject: record.draft.subject.clone(),
            to: to_text(&join_of(&show_all(&record.draft.to), ", ")),
            saved_ms: record.saved_ms,
        },
        Page::Damaged { modified_ms, .. } => {
            let r: Saved = Saved {
                id: kept.id.clone(),
                subject: String::new(),
                to: String::new(),
                saved_ms: *modified_ms,
            };
            assert(r@ =~= row(kept.id@, kept.page@));
            r
        },
    }
}

impl Default for Drafts {
    fn default() -> (r: Self)
        ensures
            r.wf(),
            r@ == (Book { pages: Map::empty(), tombstones: Map::empty() }),
    {
        let r: Drafts = Drafts { kept: Vec::new(), tombstones: Vec::new() };
        assert(r@ =~= (Book { pages: Map::empty(), tombstones: Map::empty() }));
        r
    }
}

impl Drafts {
    pub closed spec fn view(&self) -> Book {
        Book { pages: held(self.kept@), tombstones: held(self.tombstones@) }
    }

    /// Each draft and each tombstone is under one id.
    pub closed spec fn wf(&self) -> bool {
        shelved(self.kept@) && shelved(self.tombstones@)
    }

    /// There are finitely many drafts and tombstones, so that every listing of
    /// them holds each id once, in order.
    pub proof fn finitely_many(&self)
        ensures
            self@.pages.dom().finite(),
            self@.tombstones.dom().finite(),
    {
        crate::shelf::finitely_many(self.kept@);
        crate::shelf::finitely_many(self.tombstones@);
    }

    /// Keeps what was found under an id, in place of what was there.
    pub fn insert(&mut self, id: &str, page: Page)
        requires
            old(self).wf(),
        ensures
            final(self).wf(),
            final(self)@ == (Book { pages: old(self)@.pages.insert(id@, page@), ..old(self)@ }),
    {
        put(&mut self.kept, Kept { id: id.to_owned(), page });
    }

    /// Keeps a tombstone, in place of what was there. White space around the
    /// message id says nothing.
    pub fn entomb(&mut self, id: &str, message_id: &str)
        requires
            old(self).wf(),
        ensures
            final(self).wf(),
            final(self)@ == (Book {
                tombstones: old(self)@.tombstones.insert(id@, trimmed(message_id@)),
                ..old(self)@
            }),
    {
        let v: Vec<char> = to_chars(message_id);
        let stone: Tombstone = Tombstone { id: id.to_owned(), message_id: to_text(trim_of(&v)) };
        put(&mut self.tombstones, stone);
    }

    /// The record under an id.
    pub fn record(&self, id: &str) -> (r: Result<Option<Record>>)
        requires
            self.wf(),
        ensures
            match r {
                Ok(Some(record)) => self@.record(id@) == Some(PageText::Whole(record@)),
                Ok(None) => self@.record(id@) is None,
                Err(Error::Draft(m)) => self@.record(id@) matches Some(
                    PageText::Damaged { why, .. },
                ) && m@ == unreadable(id@, why),
                Err(_) => false,
            },
    {
        if !is_valid_id(id) {
            return Ok(None);
        }
        match find(&self.kept, id) {
            None => Ok(None),
            Some(i) => match &self.kept[i].page {
                Page::Whole(record) => Ok(Some(record.clone())),
                Page::Damaged { why, .. } => {
                    let mut out: Vec<char> = to_chars("draft ");
                    push_text(&mut out, id);
                    push_text(&mut out, " could not be read back: ");
                    push_text(&mut out, why);
                    Err(Error::Draft(to_text(&out)))
                },
            },
        }
    }

    fn linkage_of(&self, id: &str) -> (r: Mirror)
        requires
            self.wf(),
        ensures
            r@ == self@.linkage(id@),
    {
        match self.record(id) {
            Ok(Some(record)) => record.mirror,
            _ => Mirror::default(),
        }
    }

    /// Writes a draft, replacing any earlier version with the same id.
    ///
    /// The mirror linkage survives a save, and the save marks it dirty: the
    /// server's copy is now behind this one.
    pub fn save(&mut self, id: &str, draft: &Draft, now_ms: i64) -> (r: Result<()>)
        requires
            old(self).wf(),
        ensures
            final(self).wf(),
            match r {
                Ok(()) => id_like(id@) && final(self)@ == old(self)@.saved(id@, draft@, now_ms),
                Err(Error::Draft(m)) => !id_like(id@) && final(self)@ == old(self)@ && m@ == id@
                    + " is not a draft id"@,
                Err(_) => false,
            },
    {
        if !is_valid_id(id) {
            let m: String = message3(id, " is not a draft id", "");
            assert(m@ =~= id@ + " is not a draft id"@) by {
                reveal_strlit("");
            }
            return Err(Error::Draft(m));
        }
        let mut mirror: Mirror = self.linkage_of(id);
        mirror.dirty = true;
        let record: Record = Record { saved_ms: now_ms, draft: draft.clone(), mirror };
        assert(record@ =~= (RecordText {
            saved_ms: now_ms,
            draft: draft@,
            mirror: Linkage { dirty: true, ..old(self)@.linkage(id@) },
        }));
        self.insert(id, Page::Whole(record));
        Ok(())
    }

    /// Reads one draft back into an editable form.
    ///
    /// `from` replaces whatever identity was saved: the account's may have
    /// changed since.
    pub fn load(&self, id: &str, from: Mailbox) -> (r: Result<Option<Draft>>)
        requires
            self.wf(),
        ensures
            match r {
                Ok(Some(draft)) => self@.record(id@) matches Some(PageText::Whole(record))
                    && draft@ == (DraftText { from: from@, ..record.draft }),
                Ok(None) => self@.record(id@) is None,
                Err(Error::Draft(m)) => self@.record(id@) matches Some(
                    PageText::Damaged { why, .. },
                ) && m@ == unreadable(id@, why),
                Err(_) => false,
            },
    {
        match self.record(id) {
            Ok(Some(record)) => {
                let mut draft: Draft = record.draft;
                draft.from = from;
                Ok(Some(draft))
            },
            Ok(None) => Ok(None),
            Err(why) => Err(why),
        }
    }

    fn rows_of(&self) -> (r: Vec<Saved>)
        requires
            self.wf(),
        ensures
            row_views(r@) == rows(self@.pages),
    {
        let mut out: Vec<Saved> = Vec::new();
        let mut i: usize = 0;
        while i < self.kept.len()
            invariant
                i <= self.kept@.len(),
                out@.len() == i,
                forall|k: int|
                    0 <= k < i ==> (#[trigger] out@[k])@ == row(
                        self.kept@[k].id@,
                        self.kept@[k].page@,
                    ),
            decreases self.kept@.len() - i,
        {
            out.push(row_of(&self.kept[i]));
            i = i + 1;
        }
        proof {
            lemma_held(self.kept@);
            crate::order::lemma_text_listing(keys(self.kept@));
            let want = rows(self@.pages);
            assert forall|k: int| 0 <= k < out@.len() implies #[trigger] row_views(out@)[k]
                == want[k] by {
                assert(keys(self.kept@)[k] == self.kept@[k].key());
            }
            assert(row_views(out@) =~= want);
        }
        out
    }

    /// Every saved draft, most recently written first.
    pub fn list(&self) -> (r: Result<Vec<Saved>>)
        requires
            self.wf(),
        ensures
            r matches Ok(list) && newest_first(list@, self@),
    {
        let mut out: Vec<Saved> = self.rows_of();
        let ghost unsorted = out@;
        sort(&mut out);
        assert(out@ == sorted(unsorted));
        Ok(out)
    }

    /// Removes a draft. Already gone is not an error.
    ///
    /// A draft that was mirrored leaves a tombstone naming its `Message-ID`, so
    /// that the server copy can be retired later even when this delete happens
    /// offline.
    pub fn delete(&mut self, id: &str) -> (r: Result<()>)
        requires
            old(self).wf(),
        ensures
            final(self).wf(),
            r is Ok,
            final(self)@ == old(self)@.deleted(id@),
    {
        let mirror: Mirror = self.linkage_of(id);
        if let Some(message_id) = mirror.message_id {
            put(&mut self.tombstones, Tombstone { id: id.to_owned(), message_id });
        }
        let _gone: Option<Kept> = shelf::drop_id(&mut self.kept, id);
        assert(self@ =~= old(self)@.deleted(id@));
        Ok(())
    }

    /// Mirrored drafts that were deleted locally and still need their server
    /// copy retired, by draft id.
    #[must_use]
    pub fn pending_retractions(&self) -> (r: Vec<(String, String)>)
        requires
            self.wf(),
        ensures
            r@.map_values(|p: (String, String)| p.0@) == text_listing(self@.tombstones.dom()),
            r@.map_values(|p: (String, String)| p.1@) == to_retract(self@.tombstones),
    {
        let mut out: Vec<(String, String)> = Vec::new();
        let mut i: usize = 0;
        while i < self.tombstones.len()
            invariant
                i <= self.tombstones@.len(),
                out@.len() == i,
                forall|k: int|
                    0 <= k < i ==> (#[trigger] out@[k]).0@ == self.tombstones@[k].id@
                        && out@[k].1@ == trimmed(self.tombstones@[k].message_id@),
            decreases self.tombstones@.len() - i,
        {
            let message_id: Vec<char> = to_chars(&self.tombstones[i].message_id);
            out.push((self.tombstones[i].id.clone(), to_text(trim_of(&message_id))));
            i = i + 1;
        }
        proof {
            lemma_held(self.tombstones@);
            lemma_listed(self.tombstones@);
            crate::order::lemma_text_listing(keys(self.tombstones@));
            assert(out@.map_values(|p: (String, String)| p.0@) =~= keys(self.tombstones@));
            assert(listed(self@.tombstones) == all_shown(self.tombstones@));
            assert(out@.map_values(|p: (String, String)| p.1@) =~= to_retract(self@.tombstones));
        }
        out
    }

    /// Drops a tombstone: its server copy is gone.
    pub fn clear_retraction(&mut self, id: &str) -> (r: Result<()>)
        requires
            old(self).wf(),
        ensures
            final(self).wf(),
            r is Ok,
            final(self)@ == (if id_like(id@) {
                Book { tombstones: old(self)@.tombstones.remove(id@), ..old(self)@ }
            } else {
                old(self)@
            }),
    {
        if is_valid_id(id) {
            let _gone: Option<Tombstone> = shelf::drop_id(&mut self.tombstones, id);
        }
        Ok(())
    }

    #[must_use]
    pub fn count(&self) -> (r: usize)
        requires
            self.wf(),
        ensures
            r == rows(self@.pages).len(),
    {
        proof {
            lemma_held(self.kept@);
            crate::order::lemma_text_listing(keys(self.kept@));
        }
        self.kept.len()
    }

    /// The mirror linkage of one draft, if the draft exists.
    pub fn mirror(&self, id: &str) -> (r: Result<Option<Mirror>>)
        requires
            self.wf(),
        ensures
            match r {
                Ok(Some(mirror)) => self@.record(id@) matches Some(PageText::Whole(record))
                    && mirror@ == record.mirror,
                Ok(None) => self@.record(id@) is None,
                Err(Error::Draft(m)) => self@.record(id@) matches Some(
                    PageText::Damaged { why, .. },
                ) && m@ == unreadable(id@, why),
                Err(_) => false,
            },
    {
        match self.record(id) {
            Ok(Some(record)) => Ok(Some(record.mirror)),
            Ok(None) => Ok(None),
            Err(why) => Err(why),
        }
    }

    /// The draft exactly as stored, identity included: what a mirror uploads.
    pub fn peek(&self, id: &str) -> (r: Result<Option<Draft>>)
        requires
            self.wf(),
        ensures
            match r {
                Ok(Some(draft)) => self@.record(id@) matches Some(PageText::Whole(record))
                    && draft@ == record.draft,
                Ok(None) => self@.record(id@) is None,
                Err(Error::Draft(m)) => self@.record(id@) matches Some(
                    PageText::Damaged { why, .. },
                ) && m@ == unreadable(id@, why),
                Err(_) => false,
            },
    {
        match self.record(id) {
            Ok(Some(record)) => Ok(Some(record.draft)),
            Ok(None) => Ok(None),
            Err(why) => Err(why),
        }
    }

    /// Every draft the server has not seen the latest version of, most recently
    /// written first.
    pub fn dirty(&self) -> (r: Result<Vec<String>>)
        requires
            self.wf(),
        ensures
            r matches Ok(ids) && exists|list: Seq<Saved>|
                newest_first(list, self@) && texts(ids@) == #[trigger] dirty_ids(list, self@),
    {
        let list: Vec<Saved> = match self.list() {
            Ok(list) => list,
            Err(why) => {
                return Err(why);
            },
        };
        let mut out: Vec<String> = Vec::new();
        let mut i: usize = 0;
        assert(list@.take(0) =~= Seq::<Saved>::empty());
        assert(texts(out@) =~= Seq::<Seq<char>>::empty());
        while i < list.len()
            invariant
                i <= list@.len(),
                self.wf(),
                texts(out@) == dirty_ids(list@.take(i as int), self@),
            decreases list@.len() - i,
        {
            proof {
                assert(list@.take(i + 1).drop_last() =~= list@.take(i as int));
                assert(list@.take(i + 1).last() == list@[i as int]);
            }
            let ghost before = texts(out@);
            if self.linkage_of(&list[i].id).dirty {
                out.push(list[i].id.clone());
                assert(texts(out@) =~= before.push(list@[i as int].id@));
            }
            i = i + 1;
        }
        assert(list@.take(i as int) =~= list@);
        assert(texts(out@) == dirty_ids(list@, self@));
        Ok(out)
    }

    /// Records a successful upload: the id it is filed under, and where it
    /// landed when the server said. A draft deleted while its upload was in
    /// flight has nothing to record.
    pub fn mark_mirrored(&mut self, id: &str, message_id: &str, landed: Option<(u32, u32)>) -> (r:
        Result<()>)
        requires
            old(self).wf(),
        ensures
            final(self).wf(),
            match r {
                Ok(()) => final(self)@ == old(self)@.mirrored(id@, message_id@, landed) && !(old(
                    self,
                )@.record(id@) matches Some(PageText::Damaged { .. })),
                Err(Error::Draft(m)) => final(self)@ == old(self)@ && (old(self)@.record(
                    id@,
                ) matches Some(PageText::Damaged { why, .. }) && m@ == unreadable(id@, why)),
                Err(_) => false,
            },
    {
        let record: Record = match self.record(id) {
            Ok(Some(record)) => record,
            Ok(None) => {
                return Ok(());
            },
            Err(why) => {
                return Err(why);
            },
        };
        let mirror: Mirror = Mirror {
            message_id: Some(message_id.to_owned()),
            uid_validity: match landed {
                Some((validity, _)) => Some(validity),
                None => None,
            },
            uid: match landed {
                Some((_, uid)) => Some(uid),
                None => None,
            },
            dirty: false,
        };
        let next: Record = Record { saved_ms: record.saved_ms, draft: record.draft, mirror };
        self.insert(id, Page::Whole(next));
        Ok(())
    }

    /// Creates a local record for a draft that already lives on the server: one
    /// written by another device, opened here for editing. Linked and clean.
    pub fn adopt(
        &mut self,
        id: &str,
        draft: &Draft,
        message_id: &str,
        uid_validity: u32,
        uid: u32,
        now_ms: i64,
    ) -> (r: Result<()>)
        requires
            old(self).wf(),
        ensures
            final(self).wf(),
            match r {
                Ok(()) => id_like(id@) && final(self)@ == old(self)@.with(
                    id@,
                    (RecordText {
                        saved_ms: now_ms,
                        draft: draft@,
                        mirror: Linkage {
                            message_id: Some(message_id@),
                            uid_validity: Some(uid_validity),
                            uid: Some(uid),
                            dirty: false,
                        },
                    }),
                ),
                Err(Error::Draft(m)) => !id_like(id@) && final(self)@ == old(self)@ && m@ == id@
                    + " is not a draft id"@,
                Err(_) => false,
            },
    {
        if !is_valid_id(id) {
            let m: String = message3(id, " is not a draft id", "");
            assert(m@ =~= id@ + " is not a draft id"@) by {
                reveal_strlit("");
            }
            return Err(Error::Draft(m));
        }
        let mirror: Mirror = Mirror {
            message_id: Some(message_id.to_owned()),
            uid_validity: Some(uid_validity),
            uid: Some(uid),
            dirty: false,
        };
        let record: Record = Record { saved_ms: now_ms, draft: draft.clone(), mirror };
        self.insert(id, Page::Whole(record));
        Ok(())
    }
}

/// A saved draft comes back as what was typed, and re-saving replaces it: no
/// other draft is touched.
pub proof fn a_saved_draft_comes_back(
    book: Book,
    id: Seq<char>,
    draft: DraftText,
    now_ms: i64,
    other: Seq<char>,
)
    requires
        id_like(id),
    ensures
        book.saved(id, draft, now_ms).record(id) matches Some(PageText::Whole(r)) && r.draft
            == draft && r.saved_ms == now_ms,
        other != id ==> book.saved(id, draft, now_ms).record(other) == book.record(other),
{
}

/// A save marks the linkage dirty and keeps the rest of it; an upload cleans it.
pub proof fn an_edit_keeps_the_linkage(
    book: Book,
    id: Seq<char>,
    draft: DraftText,
    now_ms: i64,
    message_id: Seq<char>,
    landed: Option<(u32, u32)>,
)
    requires
        id_like(id),
    ensures
        book.saved(id, draft, now_ms).linkage(id) == (Linkage { dirty: true, ..book.linkage(id) }),
        !book.saved(id, draft, now_ms).mirrored(id, message_id, landed).linkage(id).dirty,
        book.saved(id, draft, now_ms).mirrored(id, message_id, landed).linkage(id).message_id
            == Some(message_id),
{
}

/// Deleting a mirrored draft leaves the id of its server copy behind; deleting
/// one the server never saw leaves nothing.
pub proof fn a_deleted_mirror_is_remembered(book: Book, id: Seq<char>)
    ensures
        book.deleted(id).record(id) is None,
        match book.linkage(id).message_id {
            Some(m) => book.deleted(id).tombstones.contains_key(id) && book.deleted(
                id,
            ).tombstones[id] == m,
            None => book.deleted(id).tombstones == book.tombstones,
        },
{
}

/// Marking a draft that is gone as uploaded creates nothing.
pub proof fn a_ghost_is_not_created(
    book: Book,
    id: Seq<char>,
    message_id: Seq<char>,
    landed: Option<(u32, u32)>,
)
    requires
        book.record(id) is None,
    ensures
        book.mirrored(id, message_id, landed) == book,
{
}

/// What saving a draft leaves under its id: the text as it was given, the time it was saved
/// at, and, where the server already has a copy, everything known of that copy, which is now
/// behind. No other draft is touched, and nothing is retired.
pub proof fn what_a_save_leaves(book: Book, id: Seq<char>, draft: DraftText, now_ms: i64)
    requires
        id_like(id),
    ensures
        ({
            let after = book.saved(id, draft, now_ms);
            &&& after.pages.contains_key(id)
            &&& after.pages[id] matches PageText::Whole(r) && r.draft == draft && r.saved_ms
                == now_ms && r.mirror.dirty && (match book.record(id) {
                Some(PageText::Whole(was)) => r.mirror.message_id == was.mirror.message_id
                    && r.mirror.uid == was.mirror.uid && r.mirror.uid_validity
                    == was.mirror.uid_validity,
                _ => r.mirror.message_id is None && r.mirror.uid is None
                    && r.mirror.uid_validity is None,
            })
            &&& after.tombstones == book.tombstones
            &&& forall|other: Seq<char>|
                other != id ==> (#[trigger] after.pages.contains_key(other)
                    <==> book.pages.contains_key(other)) && (book.pages.contains_key(other)
                    ==> after.pages[other] == book.pages[other])
        }),
{
}

/// What an upload leaves of a draft: its text and time as they were, and where the copy is.
pub proof fn what_an_upload_leaves(
    book: Book,
    id: Seq<char>,
    message_id: Seq<char>,
    landed: Option<(u32, u32)>,
    was: RecordText,
)
    requires
        id_like(id),
        book.pages.contains_key(id),
        book.pages[id] == PageText::Whole(was),
    ensures
        ({
            let after = book.mirrored(id, message_id, landed);
            &&& after.pages.dom() == book.pages.dom()
            &&& after.pages[id] matches PageText::Whole(r) && r.draft == was.draft && r.saved_ms
                == was.saved_ms && !r.mirror.dirty && r.mirror.message_id == Some(message_id) && (
            match landed {
                Some(at) => r.mirror.uid_validity == Some(at.0) && r.mirror.uid == Some(at.1),
                None => r.mirror.uid_validity is None && r.mirror.uid is None,
            })
            &&& after.tombstones == book.tombstones
            &&& forall|other: Seq<char>|
                other != id && #[trigger] book.pages.contains_key(other) ==> after.pages[other]
                    == book.pages[other]
        }),
{
    assert(book.mirrored(id, message_id, landed).pages.dom() =~= book.pages.dom());
}

/// What deleting a draft leaves: every other draft, every tombstone that was there for
/// another, and, where the server has a copy of this one, the name of that copy.
pub proof fn what_a_delete_leaves(book: Book, id: Seq<char>, other: Seq<char>)
    requires
        other != id,
    ensures
        ({
            let after = book.deleted(id);
            &&& !after.pages.contains_key(id)
            &&& after.pages.contains_key(other) <==> book.pages.contains_key(other)
            &&& book.pages.contains_key(other) ==> after.pages[other] == book.pages[other]
            &&& after.tombstones.contains_key(other) <==> book.tombstones.contains_key(other)
            &&& book.tombstones.contains_key(other) ==> after.tombstones[other]
                == book.tombstones[other]
            &&& id_like(id) && book.pages.contains_key(id) ==> (match book.pages[id] {
                PageText::Whole(r) => match r.mirror.message_id {
                    Some(m) => after.tombstones.contains_key(id) && after.tombstones[id] == m,
                    None => after.tombstones == book.tombstones,
                },
                _ => after.tombstones == book.tombstones,
            })
        }),
{
}

proof fn lemma_orderly()
    ensures
        crate::order::orderly::<Saved>(),
{
    assert forall|a: Saved, b: Saved| #[trigger] a.before(b) || b.before(a) by {}
    assert forall|a: Saved, b: Saved, c: Saved| #[trigger]
        a.before(b) && #[trigger] b.before(c) implies a.before(c) by {}
}

/// A listing names every draft, those that will not load among them, says of each what its
/// row needs, and puts the most recently written first.
pub proof fn what_a_listing_holds(list: Seq<Saved>, book: Book, id: Seq<char>) -> (k: int)
    requires
        newest_first(list, book),
        book.pages.dom().finite(),
        book.pages.contains_key(id),
    ensures
        0 <= k < list.len(),
        list[k].id@ == id,
        match book.pages[id] {
            PageText::Whole(r) => list[k].subject@ == r.draft.subject && list[k].saved_ms
                == r.saved_ms && list[k].to@ == joined(
                r.draft.to.map_values(|m: MailboxText| display(m)),
                ", "@,
            ),
            PageText::Damaged { modified_ms, .. } => list[k].subject@.len() == 0
                && list[k].to@.len() == 0 && list[k].saved_ms == modified_ms,
        },
        forall|i: int, j: int|
            0 <= i <= j < list.len() ==> (#[trigger] list[i]).saved_ms >= (
            #[trigger] list[j]).saved_ms,
        list.len() == text_listing(book.pages.dom()).len(),
{
    broadcast use vstd::seq_lib::group_to_multiset_ensures;

    let unsorted = choose|unsorted: Seq<Saved>|
        row_views(unsorted) == rows(book.pages) && list == #[trigger] sorted(unsorted);
    lemma_orderly();
    crate::order::sorting_keeps_everything_in_order(unsorted);
    assert forall|i: int, j: int| 0 <= i <= j < list.len() implies (#[trigger] list[i]).saved_ms
        >= (#[trigger] list[j]).saved_ms by {
        assert(list[i].before(list[j]));
    }
    crate::order::a_finite_set_is_listed(book.pages.dom());
    let ids = text_listing(book.pages.dom());
    assert(ids.to_set().contains(id));
    let m = choose|m: int| 0 <= m < ids.len() && ids[m] == id;
    assert(row_views(unsorted).len() == rows(book.pages).len());
    assert(rows(book.pages)[m] == row(id, book.pages[id]));
    assert(row_views(unsorted)[m] == unsorted[m]@);
    assert(unsorted.to_multiset().contains(unsorted[m]));
    assert(list.to_multiset().contains(unsorted[m]));
    assert(list.contains(unsorted[m]));
    let k = choose|k: int| 0 <= k < list.len() && list[k] == unsorted[m];
    k
}

/// The drafts to upload are those that the server has not seen the latest version of.
pub proof fn which_drafts_are_behind(list: Seq<Saved>, book: Book, id: Seq<char>)
    requires
        id_like(id),
    ensures
        dirty_ids(list, book).contains(id) <==> (exists|k: int|
            0 <= k < list.len() && (#[trigger] list[k]).id@ == id) && book.pages.contains_key(id)
            && (match book.pages[id] {
            PageText::Whole(r) => r.mirror.dirty,
            _ => false,
        }),
    decreases list.len(),
{
    let ids = dirty_ids(list, book);
    if list.len() > 0 {
        let front = list.drop_last();
        which_drafts_are_behind(front, book, id);
        let f = dirty_ids(front, book);
        if ids.contains(id) {
            let m = choose|m: int| 0 <= m < ids.len() && ids[m] == id;
            if m < f.len() {
                assert(f[m] == id);
                let k = choose|k: int| 0 <= k < front.len() && (#[trigger] front[k]).id@ == id;
                assert(list[k].id@ == id);
            } else {
                assert(list[list.len() - 1].id@ == id);
            }
        }
        if (exists|k: int| 0 <= k < list.len() && (#[trigger] list[k]).id@ == id) && is_dirty(
            book,
            id,
        ) {
            let k = choose|k: int| 0 <= k < list.len() && (#[trigger] list[k]).id@ == id;
            if k < front.len() {
                assert(front[k].id@ == id);
                let m = choose|m: int| 0 <= m < f.len() && f[m] == id;
                assert(ids[m] == id);
            } else {
                assert(ids[ids.len() - 1] == id);
            }
        }
    }
}

} // verus!
