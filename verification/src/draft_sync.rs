//! The drafts mirror: what makes a local draft visible in the server's Drafts
//! folder without ever duplicating it.
//!
//! Each sweep uploads every record the server has not seen the latest version
//! of, and retires the copy the previous upload left. The search for that copy
//! runs before the append, so the new copy can never match its own retirement:
//! whatever matched before the upload is not the message just uploaded.
//!
//! [`Sweep`] decides; the caller talks to the server and hands back what it
//! said.

use vstd::prelude::*;

use crate::chars::{contains_text, push_all, push_text, strip, strip_of, texts, to_chars, to_text,
    trim_of, trimmed, Class};
use crate::drafts::{dirty_ids, newest_first, to_retract, Book, Drafts, Linkage, PageText, RecordText,
    Saved};
use crate::error::Result;
use crate::order::text_listing;

verus! {

/// What one sweep did.
#[derive(Debug, PartialEq, Eq)]
pub struct SweepReport {
    /// Drafts whose latest version reached the folder.
    pub uploaded: usize,
    /// Superseded or discarded server copies retired.
    pub retired: usize,
    /// `(draft id, why)` for everything that stays dirty and will be retried on
    /// the next sweep.
    pub failed: Vec<(String, String)>,
}

/// What one sweep did, as contracts speak of it.
#[verifier::ext_equal]
pub struct Report {
    pub uploaded: nat,
    pub retired: nat,
    pub failed: Seq<(Seq<char>, Seq<char>)>,
}

pub open spec fn pair_views(v: Seq<(String, String)>) -> Seq<(Seq<char>, Seq<char>)> {
    v.map_values(|p: (String, String)| (p.0@, p.1@))
}

pub open spec fn nothing_yet() -> Report {
    Report { uploaded: 0, retired: 0, failed: Seq::empty() }
}

impl Report {
    pub open spec fn failing(self, id: Seq<char>, why: Seq<char>) -> Report {
        Report { failed: self.failed.push((id, why)), ..self }
    }
}

impl SweepReport {
    pub open spec fn view(&self) -> Report {
        Report {
            uploaded: self.uploaded as nat,
            retired: self.retired as nat,
            failed: pair_views(self.failed@),
        }
    }

    /// Did the sweep do anything a caller should refresh for?
    #[must_use]
    pub fn changed(&self) -> (r: bool)
        ensures
            r == (self.uploaded > 0 || self.retired > 0),
    {
        self.uploaded > 0 || self.retired > 0
    }
}

impl Default for SweepReport {
    fn default() -> (r: Self)
        ensures
            r@ == nothing_yet(),
    {
        let r: SweepReport = SweepReport { uploaded: 0, retired: 0, failed: Vec::new() };
        assert(r@ =~= nothing_yet());
        r
    }
}

/// The domain an id is scoped to: one that could be anybody's is left as it is,
/// and anything else becomes one that is nobody's.
pub open spec fn scope(domain: Seq<char>) -> Seq<char> {
    let d = strip(trimmed(domain), Class::Is('@'));
    if d.len() == 0 || !crate::chars::contains(d, "."@) {
        "draft.invalid"@
    } else {
        d
    }
}

/// The `Message-ID` a draft mirrors under.
pub open spec fn minted(draft_id: Seq<char>, domain: Seq<char>) -> Seq<char> {
    draft_id + ".draft@"@ + scope(domain)
}

/// The `Message-ID` a draft mirrors under: minted once, stable across edits.
#[must_use]
pub fn mint_message_id(draft_id: &str, domain: &str) -> (r: String)
    ensures
        r@ == minted(draft_id@, domain@),
{
    let v: Vec<char> = to_chars(domain);
    let d: &[char] = strip_of(trim_of(&v), Class::Is('@'));
    let mut out: Vec<char> = to_chars(draft_id);
    push_text(&mut out, ".draft@");
    if d.len() == 0 || !contains_text(d, ".") {
        push_text(&mut out, "draft.invalid");
    } else {
        push_all(&mut out, d);
    }
    to_text(&out)
}

/// What the server said.
#[derive(Debug)]
pub enum Reply {
    /// The folder is open, under this numbering where the server named one.
    Selected(Option<u32>),
    /// The UIDs that match a search.
    Found(Vec<u32>),
    /// A message was filed, at this numbering and UID where the server said.
    Appended(Option<(u32, u32)>),
    /// A message was deleted.
    Deleted,
    /// What was asked for failed.
    Failed(String),
}

/// What the server said, as contracts speak of it.
pub enum Said {
    Selected(Option<u32>),
    Found(Seq<u32>),
    Appended(Option<(u32, u32)>),
    Deleted,
    Failed(Seq<char>),
}

impl Reply {
    pub open spec fn view(&self) -> Said {
        match *self {
            Reply::Selected(v) => Said::Selected(v),
            Reply::Found(uids) => Said::Found(uids@),
            Reply::Appended(at) => Said::Appended(at),
            Reply::Deleted => Said::Deleted,
            Reply::Failed(why) => Said::Failed(why@),
        }
    }
}

/// What to do next.
#[derive(Debug, PartialEq, Eq)]
pub enum Action {
    /// Open the Drafts folder.
    Select,
    /// Search for a message by its `Message-ID`.
    Search(String),
    /// File the draft under this id, marked as a draft, as the message with
    /// this `Message-ID`.
    Append { id: String, message_id: String },
    /// Delete a message.
    Delete(u32),
    /// Nothing more.
    Done,
}

/// What to do next, as contracts speak of it.
pub enum Ask {
    Select,
    Search(Seq<char>),
    Append { id: Seq<char>, message_id: Seq<char> },
    Delete(u32),
    Done,
}

impl Action {
    pub open spec fn view(&self) -> Ask {
        match *self {
            Action::Select => Ask::Select,
            Action::Search(id) => Ask::Search(id@),
            Action::Append { id, message_id } => Ask::Append { id: id@, message_id: message_id@ },
            Action::Delete(uid) => Ask::Delete(uid),
            Action::Done => Ask::Done,
        }
    }
}

/// What a sweep is waiting for.
#[derive(Debug)]
enum Phase {
    Selecting,
    /// A discarded draft's copies are being looked for.
    Seeking,
    /// They are being deleted; so many are gone.
    Retiring { uids: Vec<u32>, gone: usize },
    /// The copies of a draft that is about to be uploaded are being looked for.
    Scanning,
    Appending { old: Vec<u32> },
    /// The server did not say where the upload landed.
    Confirming { old: Vec<u32> },
    /// The superseded copies are being deleted; so many are gone.
    Replacing { old: Vec<u32>, landed: Option<(u32, u32)>, gone: usize },
    Done,
}

/// What a sweep is waiting for, as contracts speak of it.
pub enum Wait {
    Selecting,
    Seeking,
    Retiring { uids: Seq<u32>, gone: nat },
    Scanning,
    Appending { old: Seq<u32> },
    Confirming { old: Seq<u32> },
    Replacing { old: Seq<u32>, landed: Option<(u32, u32)>, gone: nat },
    Done,
}

impl Phase {
    closed spec fn view(&self) -> Wait {
        match *self {
            Phase::Selecting => Wait::Selecting,
            Phase::Seeking => Wait::Seeking,
            Phase::Retiring { uids, gone } => Wait::Retiring { uids: uids@, gone: gone as nat },
            Phase::Scanning => Wait::Scanning,
            Phase::Appending { old } => Wait::Appending { old: old@ },
            Phase::Confirming { old } => Wait::Confirming { old: old@ },
            Phase::Replacing { old, landed, gone } => Wait::Replacing {
                old: old@,
                landed,
                gone: gone as nat,
            },
            Phase::Done => Wait::Done,
        }
    }
}

/// A sweep under way.
#[derive(Debug)]
pub struct Sweep {
    phase: Phase,
    /// The discarded drafts, and how many are behind the sweep.
    tombs: Vec<(String, String)>,
    tomb: usize,
    /// The dirty drafts, and how many are behind the sweep.
    dirty: Vec<String>,
    draft: usize,
    /// The id the current draft is filed under.
    message_id: String,
    uid_validity: u32,
    domain: String,
    report: SweepReport,
}

/// A sweep under way, as contracts speak of it.
#[verifier::ext_equal]
pub struct Sweeping {
    pub wait: Wait,
    /// The discarded drafts still ahead, the current one first.
    pub tombs: Seq<(Seq<char>, Seq<char>)>,
    /// The dirty drafts still ahead, the current one first.
    pub dirty: Seq<Seq<char>>,
    pub message_id: Seq<char>,
    pub uid_validity: u32,
    pub domain: Seq<char>,
    pub report: Report,
}

/// A sweep, the drafts it works on, and what it asks for.
pub struct Swept {
    pub sweep: Sweeping,
    pub book: Book,
    pub ask: Ask,
}

/// The id a draft is filed under: the one it was filed under before, or a new
/// one.
pub open spec fn filed_as(link: Linkage, id: Seq<char>, domain: Seq<char>) -> Seq<char> {
    match link.message_id {
        Some(m) => m,
        None => minted(id, domain),
    }
}

pub open spec fn unreadable(id: Seq<char>, why: Seq<char>) -> Seq<char> {
    "draft "@ + id + " could not be read back: "@ + why
}

impl Sweeping {
    pub open spec fn next_tomb(self) -> Sweeping {
        Sweeping { tombs: self.tombs.skip(1), ..self }
    }

    pub open spec fn next_draft(self) -> Sweeping {
        Sweeping { dirty: self.dirty.skip(1), ..self }
    }

    pub open spec fn failing(self, id: Seq<char>, why: Seq<char>) -> Sweeping {
        Sweeping { report: self.report.failing(id, why), ..self }
    }

    pub open spec fn counting(self, uploaded: nat, retired: nat) -> Sweeping {
        Sweeping {
            report: Report {
                uploaded: tally(self.report.uploaded, uploaded),
                retired: tally(self.report.retired, retired),
                ..self.report
            },
            ..self
        }
    }
}

/// The next piece of work: discarded drafts first, so that what failed later
/// cannot keep them, then the dirty ones. One deleted meanwhile has nothing to
/// upload.
pub open spec fn turned(s: Sweeping, book: Book) -> Swept
    decreases s.dirty.len(),
{
    if s.tombs.len() > 0 {
        Swept {
            sweep: Sweeping { wait: Wait::Seeking, ..s },
            book,
            ask: Ask::Search(s.tombs[0].1),
        }
    } else if s.dirty.len() > 0 {
        let id = s.dirty[0];
        match book.record(id) {
            None => turned(s.counting(1, 0).next_draft(), book),
            Some(PageText::Damaged { why, .. }) => turned(
                s.failing(id, unreadable(id, why)).next_draft(),
                book,
            ),
            Some(PageText::Whole(r)) => {
                let message_id = filed_as(r.mirror, id, s.domain);
                Swept {
                    sweep: Sweeping { wait: Wait::Scanning, message_id, ..s },
                    book,
                    ask: Ask::Search(message_id),
                }
            },
        }
    } else {
        Swept { sweep: Sweeping { wait: Wait::Done, ..s }, book, ask: Ask::Done }
    }
}

/// A discarded draft whose copies are all gone.
pub open spec fn buried(s: Sweeping, book: Book, gone: nat) -> Swept {
    let id = s.tombs[0].0;
    let after = if crate::drafts::id_like(id) {
        Book { tombstones: book.tombstones.remove(id), ..book }
    } else {
        book
    };
    turned(s.counting(0, gone).next_tomb(), after)
}

/// A draft whose superseded copies are all gone.
pub open spec fn replaced(s: Sweeping, book: Book, landed: Option<(u32, u32)>, gone: nat) -> Swept {
    let id = s.dirty[0];
    match book.record(id) {
        Some(PageText::Damaged { why, .. }) => turned(
            s.failing(id, unreadable(id, why)).next_draft(),
            book,
        ),
        _ => turned(
            s.counting(1, gone).next_draft(),
            book.mirrored(id, s.message_id, landed),
        ),
    }
}

/// The superseded copies of a draft that has been uploaded, to be deleted.
pub open spec fn superseding(
    s: Sweeping,
    book: Book,
    old: Seq<u32>,
    landed: Option<(u32, u32)>,
) -> Swept {
    if old.len() == 0 {
        replaced(s, book, landed, 0)
    } else {
        Swept {
            sweep: Sweeping { wait: Wait::Replacing { old, landed, gone: 0 }, ..s },
            book,
            ask: Ask::Delete(old[0]),
        }
    }
}

/// The highest of `uids` that is not among `old`.
pub open spec fn newest(uids: Seq<u32>, old: Seq<u32>) -> Option<u32>
    decreases uids.len(),
{
    if uids.len() == 0 {
        None
    } else {
        let front = newest(uids.drop_last(), old);
        let uid = uids.last();
        if old.contains(uid) {
            front
        } else {
            match front {
                Some(best) => if uid > best {
                    Some(uid)
                } else {
                    Some(best)
                },
                None => Some(uid),
            }
        }
    }
}

/// Without a receipt, what matches now and did not before is the copy just
/// filed.
pub open spec fn landed_at(uids: Seq<u32>, old: Seq<u32>, uid_validity: u32) -> Option<(u32, u32)> {
    match newest(uids, old) {
        Some(uid) => Some((uid_validity, uid)),
        None => None,
    }
}

/// What a sweep does with what the server said, if it was waiting for that.
pub open spec fn swept(s: Sweeping, book: Book, said: Said) -> Option<Swept> {
    let t = Sweeping { wait: Wait::Done, ..s };
    match (s.wait, said) {
        (Wait::Selecting, Said::Selected(v)) => Some(
            turned(
                Sweeping {
                    uid_validity: match v {
                        Some(n) => n,
                        None => 0,
                    },
                    ..t
                },
                book,
            ),
        ),
        (Wait::Selecting, Said::Failed(why)) => Some(
            Swept {
                sweep: Sweeping { wait: Wait::Done, ..t.failing(Seq::empty(), why) },
                book,
                ask: Ask::Done,
            },
        ),
        (Wait::Seeking, Said::Found(uids)) => if uids.len() == 0 {
            Some(buried(t, book, 0))
        } else {
            Some(
                Swept {
                    sweep: Sweeping { wait: Wait::Retiring { uids, gone: 0 }, ..t },
                    book,
                    ask: Ask::Delete(uids[0]),
                },
            )
        },
        (Wait::Retiring { uids, gone }, Said::Deleted) => if gone + 1 < uids.len() {
            Some(
                Swept {
                    sweep: Sweeping { wait: Wait::Retiring { uids, gone: gone + 1 }, ..t },
                    book,
                    ask: Ask::Delete(uids[gone as int + 1]),
                },
            )
        } else {
            Some(buried(t, book, gone + 1))
        },
        (Wait::Seeking, Said::Failed(why)) => Some(
            turned(t.failing(t.tombs[0].0, why).next_tomb(), book),
        ),
        (Wait::Retiring { .. }, Said::Failed(why)) => Some(
            turned(t.failing(t.tombs[0].0, why).next_tomb(), book),
        ),
        (Wait::Scanning, Said::Found(old)) => Some(
            Swept {
                sweep: Sweeping { wait: Wait::Appending { old }, ..t },
                book,
                ask: Ask::Append { id: t.dirty[0], message_id: t.message_id },
            },
        ),
        (Wait::Appending { old }, Said::Appended(landed)) => match landed {
            Some(_) => Some(superseding(t, book, old, landed)),
            None => Some(
                Swept {
                    sweep: Sweeping { wait: Wait::Confirming { old }, ..t },
                    book,
                    ask: Ask::Search(t.message_id),
                },
            ),
        },
        (Wait::Confirming { old }, Said::Found(uids)) => Some(
            superseding(t, book, old, landed_at(uids, old, t.uid_validity)),
        ),
        (Wait::Confirming { old }, Said::Failed(_)) => Some(superseding(t, book, old, None)),
        (Wait::Replacing { old, landed, gone }, Said::Deleted) => if gone + 1 < old.len() {
            Some(
                Swept {
                    sweep: Sweeping { wait: Wait::Replacing { old, landed, gone: gone + 1 }, ..t },
                    book,
                    ask: Ask::Delete(old[gone as int + 1]),
                },
            )
        } else {
            Some(replaced(t, book, landed, gone + 1))
        },
        (Wait::Scanning, Said::Failed(why)) => Some(
            turned(t.failing(t.dirty[0], why).next_draft(), book),
        ),
        (Wait::Appending { .. }, Said::Failed(why)) => Some(
            turned(t.failing(t.dirty[0], why).next_draft(), book),
        ),
        (Wait::Replacing { .. }, Said::Failed(why)) => Some(
            turned(t.failing(t.dirty[0], why).next_draft(), book),
        ),
        _ => None,
    }
}

fn is_among(uids: &Vec<u32>, uid: u32) -> (r: bool)
    ensures
        r == uids@.contains(uid),
{
    let mut i: usize = 0;
    while i < uids.len()
        invariant
            i <= uids@.len(),
            forall|k: int| 0 <= k < i ==> #[trigger] uids@[k] != uid,
        decreases uids@.len() - i,
    {
        if uids[i] == uid {
            assert(uids@[i as int] == uid);
            return true;
        }
        i = i + 1;
    }
    false
}

fn newest_of(uids: &Vec<u32>, old: &Vec<u32>) -> (r: Option<u32>)
    ensures
        r == newest(uids@, old@),
{
    let mut best: Option<u32> = None;
    let mut i: usize = 0;
    assert(uids@.take(0) =~= Seq::<u32>::empty());
    while i < uids.len()
        invariant
            i <= uids@.len(),
            best == newest(uids@.take(i as int), old@),
        decreases uids@.len() - i,
    {
        proof {
            assert(uids@.take(i + 1).drop_last() =~= uids@.take(i as int));
            assert(uids@.take(i + 1).last() == uids@[i as int]);
        }
        let uid: u32 = uids[i];
        if !is_among(old, uid) {
            best =
            match best {
                Some(b) => if uid > b {
                    Some(uid)
                } else {
                    Some(b)
                },
                None => Some(uid),
            };
        }
        i = i + 1;
    }
    assert(uids@.take(i as int) =~= uids@);
    best
}

/// A count that stays where it is once it cannot be counted any further.
pub open spec fn tally(total: nat, more: nat) -> nat {
    if total + more > usize::MAX {
        usize::MAX as nat
    } else {
        total + more
    }
}

fn tally_of(total: usize, more: usize) -> (r: usize)
    ensures
        r == tally(total as nat, more as nat),
{
    if more <= usize::MAX - total {
        total + more
    } else {
        usize::MAX
    }
}

impl Sweep {
    pub closed spec fn view(&self) -> Sweeping {
        Sweeping {
            wait: self.phase@,
            tombs: pair_views(self.tombs@).skip(self.tomb as int),
            dirty: texts(self.dirty@).skip(self.draft as int),
            message_id: self.message_id@,
            uid_validity: self.uid_validity,
            domain: self.domain@,
            report: self.report@,
        }
    }

    /// There is a draft at hand wherever the sweep is waiting for something
    /// about one.
    pub closed spec fn wf(&self) -> bool {
        &&& self.tomb <= self.tombs@.len()
        &&& self.draft <= self.dirty@.len()
        &&& match self.phase {
            Phase::Seeking => self.tomb < self.tombs@.len(),
            Phase::Retiring { uids, gone } => self.tomb < self.tombs@.len() && gone < uids@.len(),
            Phase::Scanning => self.draft < self.dirty@.len(),
            Phase::Appending { .. } => self.draft < self.dirty@.len(),
            Phase::Confirming { .. } => self.draft < self.dirty@.len(),
            Phase::Replacing { old, gone, .. } => self.draft < self.dirty@.len() && gone
                < old@.len(),
            _ => true,
        }
    }

    /// Begins a sweep over everything dirty and everything discarded.
    ///
    /// `domain` seeds minted `Message-ID`s: the account address's domain.
    pub fn open(drafts: &Drafts, domain: &str) -> (r: Result<(Sweep, Action)>)
        requires
            drafts.wf(),
        ensures
            r matches Ok((sweep, action)) && sweep.wf() && action@ == Ask::Select
                && sweep@.wait == Wait::Selecting && sweep@.domain == domain@ && sweep@.report
                == nothing_yet() && sweep@.tombs.map_values(
                |p: (Seq<char>, Seq<char>)| p.0,
            ) == text_listing(drafts@.tombstones.dom()) && sweep@.tombs.map_values(
                |p: (Seq<char>, Seq<char>)| p.1,
            ) == to_retract(drafts@.tombstones) && exists|list: Seq<Saved>|
                newest_first(list, drafts@) && sweep@.dirty == #[trigger] dirty_ids(list, drafts@),
    {
        let tombs: Vec<(String, String)> = drafts.pending_retractions();
        let dirty: Vec<String> = match drafts.dirty() {
            Ok(ids) => ids,
            Err(why) => {
                return Err(why);
            },
        };
        let sweep: Sweep = Sweep {
            phase: Phase::Selecting,
            tombs,
            tomb: 0,
            dirty,
            draft: 0,
            message_id: String::new(),
            uid_validity: 0,
            domain: domain.to_owned(),
            report: SweepReport::default(),
        };
        proof {
            assert(pair_views(tombs@).skip(0) =~= pair_views(tombs@));
            assert(texts(dirty@).skip(0) =~= texts(dirty@));
            assert(sweep@.tombs.map_values(|p: (Seq<char>, Seq<char>)| p.0) =~= tombs@.map_values(
                |p: (String, String)| p.0@,
            ));
            assert(sweep@.tombs.map_values(|p: (Seq<char>, Seq<char>)| p.1) =~= tombs@.map_values(
                |p: (String, String)| p.1@,
            ));
        }
        Ok((sweep, Action::Select))
    }

    /// What the sweep did so far.
    #[must_use]
    pub fn finish(self) -> (r: SweepReport)
        ensures
            r@ == self@.report,
    {
        self.report
    }

    fn fail(&mut self, id: String, why: String)
        ensures
            final(self)@ == old(self)@.failing(id@, why@),
            final(self).tombs == old(self).tombs,
            final(self).tomb == old(self).tomb,
            final(self).dirty == old(self).dirty,
            final(self).draft == old(self).draft,
    {
        let ghost before = self.report@.failed;
        self.report.failed.push((id, why));
        assert(self.report@.failed =~= before.push((id@, why@)));
    }

    fn count(&mut self, uploaded: usize, retired: usize)
        ensures
            final(self)@ == old(self)@.counting(uploaded as nat, retired as nat),
            final(self).tombs == old(self).tombs,
            final(self).tomb == old(self).tomb,
            final(self).dirty == old(self).dirty,
            final(self).draft == old(self).draft,
    {
        self.report.uploaded = tally_of(self.report.uploaded, uploaded);
        self.report.retired = tally_of(self.report.retired, retired);
    }

    fn pass_tomb(&mut self)
        requires
            old(self).tomb < old(self).tombs@.len(),
            old(self).draft <= old(self).dirty@.len(),
        ensures
            final(self)@ == old(self)@.next_tomb(),
            final(self).tomb <= final(self).tombs@.len(),
            final(self).draft <= final(self).dirty@.len(),
    {
        assert(self.tomb < self.tombs.len());
        self.tomb = self.tomb + 1;
        assert(self@.tombs =~= old(self)@.tombs.skip(1));
    }

    fn pass_draft(&mut self)
        requires
            old(self).draft < old(self).dirty@.len(),
            old(self).tomb <= old(self).tombs@.len(),
        ensures
            final(self)@ == old(self)@.next_draft(),
            final(self).tomb <= final(self).tombs@.len(),
            final(self).draft <= final(self).dirty@.len(),
            final(self).dirty@.len() - final(self).draft < old(self).dirty@.len() - old(self).draft,
    {
        assert(self.draft < self.dirty.len());
        self.draft = self.draft + 1;
        assert(self@.dirty =~= old(self)@.dirty.skip(1));
    }

    fn turn(&mut self, drafts: &Drafts) -> (r: Action)
        requires
            drafts.wf(),
            old(self).tomb <= old(self).tombs@.len(),
            old(self).draft <= old(self).dirty@.len(),
        ensures
            final(self).wf(),
            final(self)@ == turned(old(self)@, drafts@).sweep,
            drafts@ == turned(old(self)@, drafts@).book,
            r@ == turned(old(self)@, drafts@).ask,
    {
        let ghost start = self@;
        loop
            invariant
                drafts.wf(),
                self.tomb <= self.tombs@.len(),
                self.draft <= self.dirty@.len(),
                turned(self@, drafts@) == turned(start, drafts@),
                start == old(self)@,
            decreases self.dirty@.len() - self.draft,
        {
            assert(pair_views(self.tombs@).len() == self.tombs@.len());
            assert(texts(self.dirty@).len() == self.dirty@.len());
            if self.tomb < self.tombs.len() {
                assert(self@.tombs[0] == (
                    self.tombs@[self.tomb as int].0@,
                    self.tombs@[self.tomb as int].1@,
                ));
                self.phase = Phase::Seeking;
                return Action::Search(self.tombs[self.tomb].1.clone());
            }
            if self.draft >= self.dirty.len() {
                self.phase = Phase::Done;
                return Action::Done;
            }
            assert(self@.dirty[0] == self.dirty@[self.draft as int]@);
            let id: String = self.dirty[self.draft].clone();
            match drafts.record(&id) {
                Ok(None) => {
                    self.count(1, 0);
                },
                Ok(Some(record)) => {
                    let message_id: String = match record.mirror.message_id {
                        Some(m) => m,
                        None => mint_message_id(&id, &self.domain),
                    };
                    self.message_id = message_id.clone();
                    self.phase = Phase::Scanning;
                    return Action::Search(message_id);
                },
                Err(why) => {
                    self.fail(id, why.describe());
                },
            }
            self.pass_draft();
        }
    }

    fn bury(&mut self, drafts: &mut Drafts, gone: usize) -> (r: Action)
        requires
            old(drafts).wf(),
            old(self).tomb < old(self).tombs@.len(),
            old(self).draft <= old(self).dirty@.len(),
        ensures
            final(self).wf(),
            final(drafts).wf(),
            final(self)@ == buried(old(self)@, old(drafts)@, gone as nat).sweep,
            final(drafts)@ == buried(old(self)@, old(drafts)@, gone as nat).book,
            r@ == buried(old(self)@, old(drafts)@, gone as nat).ask,
    {
        assert(pair_views(self.tombs@).len() == self.tombs@.len());
        assert(self@.tombs[0] == (
            self.tombs@[self.tomb as int].0@,
            self.tombs@[self.tomb as int].1@,
        ));
        let id: String = self.tombs[self.tomb].0.clone();
        self.count(0, gone);
        let _cleared: Result<()> = drafts.clear_retraction(&id);
        self.pass_tomb();
        self.turn(drafts)
    }

    fn replace(&mut self, drafts: &mut Drafts, landed: Option<(u32, u32)>, gone: usize) -> (r: Action)
        requires
            old(drafts).wf(),
            old(self).tomb <= old(self).tombs@.len(),
            old(self).draft < old(self).dirty@.len(),
        ensures
            final(self).wf(),
            final(drafts).wf(),
            final(self)@ == replaced(old(self)@, old(drafts)@, landed, gone as nat).sweep,
            final(drafts)@ == replaced(old(self)@, old(drafts)@, landed, gone as nat).book,
            r@ == replaced(old(self)@, old(drafts)@, landed, gone as nat).ask,
    {
        assert(texts(self.dirty@).len() == self.dirty@.len());
        assert(self@.dirty[0] == self.dirty@[self.draft as int]@);
        let id: String = self.dirty[self.draft].clone();
        match drafts.record(&id) {
            Err(why) => {
                self.fail(id, why.describe());
            },
            _ => {
                let _marked: Result<()> = drafts.mark_mirrored(&id, &self.message_id, landed);
                self.count(1, gone);
            },
        }
        self.pass_draft();
        self.turn(drafts)
    }

    fn supersede(&mut self, drafts: &mut Drafts, old_uids: Vec<u32>, landed: Option<(u32, u32)>) -> (r:
        Action)
        requires
            old(drafts).wf(),
            old(self).tomb <= old(self).tombs@.len(),
            old(self).draft < old(self).dirty@.len(),
        ensures
            final(self).wf(),
            final(drafts).wf(),
            final(self)@ == superseding(old(self)@, old(drafts)@, old_uids@, landed).sweep,
            final(drafts)@ == superseding(old(self)@, old(drafts)@, old_uids@, landed).book,
            r@ == superseding(old(self)@, old(drafts)@, old_uids@, landed).ask,
    {
        if old_uids.len() == 0 {
            return self.replace(drafts, landed, 0);
        }
        let first: u32 = old_uids[0];
        self.phase = Phase::Replacing { old: old_uids, landed, gone: 0 };
        Action::Delete(first)
    }

    fn drop_tomb(&mut self, drafts: &Drafts, why: String) -> (r: Action)
        requires
            drafts.wf(),
            old(self).tomb < old(self).tombs@.len(),
            old(self).draft <= old(self).dirty@.len(),
        ensures
            final(self).wf(),
            ({
                let next = turned(
                    old(self)@.failing(old(self)@.tombs[0].0, why@).next_tomb(),
                    drafts@,
                );
                final(self)@ == next.sweep && drafts@ == next.book && r@ == next.ask
            }),
    {
        assert(pair_views(self.tombs@).len() == self.tombs@.len());
        assert(self@.tombs[0] == (
            self.tombs@[self.tomb as int].0@,
            self.tombs@[self.tomb as int].1@,
        ));
        let id: String = self.tombs[self.tomb].0.clone();
        self.fail(id, why);
        self.pass_tomb();
        self.turn(drafts)
    }

    fn drop_draft(&mut self, drafts: &Drafts, why: String) -> (r: Action)
        requires
            drafts.wf(),
            old(self).tomb <= old(self).tombs@.len(),
            old(self).draft < old(self).dirty@.len(),
        ensures
            final(self).wf(),
            ({
                let next = turned(
                    old(self)@.failing(old(self)@.dirty[0], why@).next_draft(),
                    drafts@,
                );
                final(self)@ == next.sweep && drafts@ == next.book && r@ == next.ask
            }),
    {
        assert(texts(self.dirty@).len() == self.dirty@.len());
        assert(self@.dirty[0] == self.dirty@[self.draft as int]@);
        let id: String = self.dirty[self.draft].clone();
        self.fail(id, why);
        self.pass_draft();
        self.turn(drafts)
    }

    /// Takes what the server said, and says what to do next; nothing, where the
    /// sweep was not waiting for that.
    pub fn advance(&mut self, drafts: &mut Drafts, reply: Reply) -> (r: Option<Action>)
        requires
            old(self).wf(),
            old(drafts).wf(),
        ensures
            final(self).wf(),
            final(drafts).wf(),
            match (r, swept(old(self)@, old(drafts)@, reply@)) {
                (Some(action), Some(next)) => final(self)@ == next.sweep && final(drafts)@
                    == next.book && action@ == next.ask,
                (None, None) => final(self)@ == old(self)@ && final(drafts)@ == old(drafts)@,
                _ => false,
            },
    {
        assert(texts(self.dirty@).len() == self.dirty@.len());
        let mut phase: Phase = Phase::Done;
        std::mem::swap(&mut phase, &mut self.phase);
        match (phase, reply) {
            (Phase::Selecting, Reply::Selected(v)) => {
                self.uid_validity =
                match v {
                    Some(n) => n,
                    None => 0,
                };
                Some(self.turn(drafts))
            },
            (Phase::Selecting, Reply::Failed(why)) => {
                let nobody: String = String::new();
                assert(nobody@ =~= Seq::<char>::empty());
                self.fail(nobody, why);
                Some(Action::Done)
            },
            (Phase::Seeking, Reply::Found(uids)) => {
                if uids.len() == 0 {
                    return Some(self.bury(drafts, 0));
                }
                let first: u32 = uids[0];
                self.phase = Phase::Retiring { uids, gone: 0 };
                Some(Action::Delete(first))
            },
            (Phase::Seeking, Reply::Failed(why)) => Some(self.drop_tomb(drafts, why)),
            (Phase::Retiring { uids, gone }, Reply::Deleted) => {
                assert(gone < uids.len());
                let done: usize = gone + 1;
                if done < uids.len() {
                    let next: u32 = uids[done];
                    self.phase = Phase::Retiring { uids, gone: done };
                    return Some(Action::Delete(next));
                }
                Some(self.bury(drafts, done))
            },
            (Phase::Retiring { .. }, Reply::Failed(why)) => Some(self.drop_tomb(drafts, why)),
            (Phase::Scanning, Reply::Found(old_uids)) => {
                assert(self@.dirty[0] == self.dirty@[self.draft as int]@);
                let id: String = self.dirty[self.draft].clone();
                self.phase = Phase::Appending { old: old_uids };
                Some(Action::Append { id, message_id: self.message_id.clone() })
            },
            (Phase::Scanning, Reply::Failed(why)) => Some(self.drop_draft(drafts, why)),
            (Phase::Appending { old: old_uids }, Reply::Appended(landed)) => {
                if landed.is_none() {
                    self.phase = Phase::Confirming { old: old_uids };
                    return Some(Action::Search(self.message_id.clone()));
                }
                Some(self.supersede(drafts, old_uids, landed))
            },
            (Phase::Appending { .. }, Reply::Failed(why)) => Some(self.drop_draft(drafts, why)),
            (Phase::Confirming { old: old_uids }, Reply::Found(uids)) => {
                let landed: Option<(u32, u32)> = match newest_of(&uids, &old_uids) {
                    Some(uid) => Some((self.uid_validity, uid)),
                    None => None,
                };
                Some(self.supersede(drafts, old_uids, landed))
            },
            (Phase::Confirming { old: old_uids }, Reply::Failed(_)) => Some(
                self.supersede(drafts, old_uids, None),
            ),
            (Phase::Replacing { old: old_uids, landed, gone }, Reply::Deleted) => {
                assert(gone < old_uids.len());
                let done: usize = gone + 1;
                if done < old_uids.len() {
                    let next: u32 = old_uids[done];
                    self.phase = Phase::Replacing { old: old_uids, landed, gone: done };
                    return Some(Action::Delete(next));
                }
                Some(self.replace(drafts, landed, done))
            },
            (Phase::Replacing { .. }, Reply::Failed(why)) => Some(self.drop_draft(drafts, why)),
            (phase, _) => {
                self.phase = phase;
                None
            },
        }
    }
}

proof fn lemma_turned(s: Sweeping, book: Book)
    ensures
        turned(s, book).book == book,
        !(turned(s, book).ask is Delete),
    decreases s.dirty.len(),
{
    if s.tombs.len() == 0 && s.dirty.len() > 0 {
        match book.record(s.dirty[0]) {
            None => lemma_turned(s.counting(1, 0).next_draft(), book),
            Some(PageText::Damaged { why, .. }) => lemma_turned(
                s.failing(s.dirty[0], unreadable(s.dirty[0], why)).next_draft(),
                book,
            ),
            Some(PageText::Whole(_)) => {},
        }
    }
}

/// The copies of a draft that matched before it was uploaded.
pub open spec fn superseded(w: Wait) -> Option<Seq<u32>> {
    match w {
        Wait::Appending { old } => Some(old),
        Wait::Confirming { old } => Some(old),
        Wait::Replacing { old, .. } => Some(old),
        _ => None,
    }
}

/// Once a draft is being uploaded, the only messages deleted for it are those
/// that matched before the upload: the copy just filed is never among them.
pub proof fn the_new_copy_is_never_retired(s: Sweeping, book: Book, said: Said)
    requires
        superseded(s.wait) is Some,
        s.wait matches Wait::Replacing { old, gone, .. } ==> gone < old.len(),
        swept(s, book, said) matches Some(n) && n.ask is Delete,
    ensures
        superseded(s.wait)->0.contains(swept(s, book, said)->0.ask->Delete_0),
{
    let t = Sweeping { wait: Wait::Done, ..s };
    let old_uids = superseded(s.wait)->0;
    lemma_turned(t.failing(s.dirty[0], said->Failed_0).next_draft(), book);
    match (s.wait, said) {
        (Wait::Appending { old }, Said::Appended(landed)) => {
            lemma_replaced(t, book, landed, 0);
            if old.len() > 0 {
                assert(old.contains(old[0]));
            }
        },
        (Wait::Confirming { old }, Said::Found(uids)) => {
            lemma_replaced(t, book, landed_at(uids, old, s.uid_validity), 0);
            if old.len() > 0 {
                assert(old.contains(old[0]));
            }
        },
        (Wait::Confirming { old }, Said::Failed(_)) => {
            lemma_replaced(t, book, None, 0);
            if old.len() > 0 {
                assert(old.contains(old[0]));
            }
        },
        (Wait::Replacing { old, landed, gone }, Said::Deleted) => {
            lemma_replaced(t, book, landed, gone + 1);
            if gone + 1 < old.len() {
                assert(old.contains(old[gone as int + 1]));
            }
        },
        _ => {},
    }
}

proof fn lemma_replaced(s: Sweeping, book: Book, landed: Option<(u32, u32)>, gone: nat)
    ensures
        !(replaced(s, book, landed, gone).ask is Delete),
        replaced(s, book, landed, gone).book == book || replaced(s, book, landed, gone).book
            == book.mirrored(s.dirty[0], s.message_id, landed),
{
    let id = s.dirty[0];
    match book.record(id) {
        Some(PageText::Damaged { why, .. }) => lemma_turned(
            s.failing(id, unreadable(id, why)).next_draft(),
            book,
        ),
        _ => lemma_turned(
            s.counting(1, gone).next_draft(),
            book.mirrored(id, s.message_id, landed),
        ),
    }
}

/// What fails is retried: while a draft is uploaded or a discarded one retired,
/// a failure leaves every record and every tombstone as it was. Only the search
/// for where an upload landed may fail without holding it up.
pub proof fn a_failure_changes_no_record(s: Sweeping, book: Book, why: Seq<char>)
    requires
        !(s.wait is Confirming),
        swept(s, book, Said::Failed(why)) is Some,
    ensures
        swept(s, book, Said::Failed(why))->0.book == book,
{
    let t = Sweeping { wait: Wait::Done, ..s };
    lemma_turned(t.failing(s.dirty[0], why).next_draft(), book);
    lemma_turned(t.failing(s.tombs[0].0, why).next_tomb(), book);
}

/// A tombstone is cleared only when every copy found is gone.
pub proof fn a_tombstone_outlives_its_copies(s: Sweeping, book: Book, said: Said)
    requires
        s.wait is Seeking || s.wait is Retiring,
        swept(s, book, said) matches Some(n) && n.book.tombstones != book.tombstones,
    ensures
        match s.wait {
            Wait::Seeking => said matches Said::Found(uids) && uids.len() == 0,
            Wait::Retiring { uids, gone } => said is Deleted && gone + 1 >= uids.len(),
            _ => false,
        },
{
    let t = Sweeping { wait: Wait::Done, ..s };
    if let Said::Failed(why) = said {
        lemma_turned(t.failing(s.tombs[0].0, why).next_tomb(), book);
    }
}

/// A draft that was filed before is filed under the same name again; one that never was gets
/// a name made of its own id.
pub proof fn what_a_draft_is_filed_under(s: Sweeping, book: Book, r: RecordText)
    requires
        s.tombs.len() == 0,
        s.dirty.len() > 0,
        book.record(s.dirty[0]) == Some(PageText::Whole(r)),
    ensures
        turned(s, book).ask is Search,
        turned(s, book).sweep.message_id == turned(s, book).ask->Search_0,
        turned(s, book).sweep.wait is Scanning,
        turned(s, book).sweep.dirty == s.dirty,
        match r.mirror.message_id {
            Some(m) => turned(s, book).sweep.message_id == m,
            None => (s.dirty[0] + ".draft@"@).is_prefix_of(turned(s, book).sweep.message_id),
        },
{
}

/// Discarded drafts come before any upload, and each is looked for by the name of its copy.
pub proof fn discarded_drafts_come_first(s: Sweeping, book: Book)
    requires
        s.tombs.len() > 0,
    ensures
        turned(s, book).ask == Ask::Search(s.tombs[0].1),
        turned(s, book).sweep.wait is Seeking,
        turned(s, book).sweep.tombs == s.tombs,
{
}

/// Every copy found of a discarded draft is deleted, in order.
pub proof fn every_copy_of_a_discarded_draft_goes(
    s: Sweeping,
    book: Book,
    uids: Seq<u32>,
    gone: nat,
)
    requires
        gone < uids.len(),
    ensures
        s.wait is Seeking && gone == 0 ==> (swept(s, book, Said::Found(uids)) matches Some(n)
            && n.ask == Ask::Delete(uids[0]) && n.book == book && n.sweep.wait == (Wait::Retiring {
            uids,
            gone: 0,
        })),
        s.wait == (Wait::Retiring { uids, gone }) && gone + 1 < uids.len() ==> (swept(
            s,
            book,
            Said::Deleted,
        ) matches Some(n) && n.ask == Ask::Delete(uids[gone as int + 1]) && n.book == book && n.sweep.wait
            == (Wait::Retiring { uids, gone: gone + 1 })),
{
}

/// Once the last copy of a discarded draft is gone its tombstone goes too, and only its.
pub proof fn a_retired_draft_is_forgotten(
    s: Sweeping,
    book: Book,
    uids: Seq<u32>,
    gone: nat,
    other: Seq<char>,
)
    requires
        s.tombs.len() > 0,
        crate::drafts::id_like(s.tombs[0].0),
        s.wait == (Wait::Retiring { uids, gone }),
        gone + 1 >= uids.len(),
        other != s.tombs[0].0,
    ensures
        swept(s, book, Said::Deleted) matches Some(n) && !n.book.tombstones.contains_key(
            s.tombs[0].0,
        ) && n.book.pages == book.pages && (n.book.tombstones.contains_key(other)
            <==> book.tombstones.contains_key(other)) && (book.tombstones.contains_key(other)
            ==> n.book.tombstones[other] == book.tombstones[other]),
{
    let t = Sweeping { wait: Wait::Done, ..s };
    let after = Book { tombstones: book.tombstones.remove(s.tombs[0].0), ..book };
    lemma_turned(t.counting(0, gone + 1).next_tomb(), after);
}

/// What was found before an upload is what is deleted after it, every copy in order; the
/// upload is of the draft that was looked for.
pub proof fn every_superseded_copy_goes(
    s: Sweeping,
    book: Book,
    old: Seq<u32>,
    landed: Option<(u32, u32)>,
    gone: nat,
)
    requires
        s.dirty.len() > 0,
    ensures
        s.wait is Scanning ==> (swept(s, book, Said::Found(old)) matches Some(n) && n.ask
            == (Ask::Append { id: s.dirty[0], message_id: s.message_id }) && n.sweep.wait
            == (Wait::Appending { old }) && n.book == book),
        s.wait == (Wait::Appending { old }) && old.len() > 0 && landed is Some ==> (swept(
            s,
            book,
            Said::Appended(landed),
        ) matches Some(n) && n.ask == Ask::Delete(old[0]) && n.book == book),
        s.wait == (Wait::Appending { old }) && landed is None ==> (swept(
            s,
            book,
            Said::Appended(landed),
        ) matches Some(n) && n.ask == Ask::Search(s.message_id) && n.sweep.wait
            == (Wait::Confirming { old })),
        s.wait == (Wait::Replacing { old, landed, gone }) && gone + 1 < old.len() ==> (swept(
            s,
            book,
            Said::Deleted,
        ) matches Some(n) && n.ask == Ask::Delete(old[gone as int + 1]) && n.book == book && n.sweep.wait
            == (Wait::Replacing { old, landed, gone: gone + 1 })),
{
}

/// Once its superseded copies are gone, a draft is on record as uploaded, where the server
/// said it landed.
pub proof fn an_uploaded_draft_is_on_record(
    s: Sweeping,
    book: Book,
    old: Seq<u32>,
    landed: Option<(u32, u32)>,
    gone: nat,
    was: RecordText,
)
    requires
        s.dirty.len() > 0,
        book.record(s.dirty[0]) == Some(PageText::Whole(was)),
        s.wait == (Wait::Replacing { old, landed, gone }),
        gone + 1 >= old.len(),
    ensures
        swept(s, book, Said::Deleted) matches Some(n) && (n.book.pages[s.dirty[0]] matches
            PageText::Whole(r) && !r.mirror.dirty && r.mirror.message_id == Some(s.message_id)
            && r.draft == was.draft && (match landed {
            Some(at) => r.mirror.uid_validity == Some(at.0) && r.mirror.uid == Some(at.1),
            None => r.mirror.uid_validity is None && r.mirror.uid is None,
        })) && n.book.tombstones == book.tombstones,
{
    let t = Sweeping { wait: Wait::Done, ..s };
    lemma_turned(
        t.counting(1, gone + 1).next_draft(),
        book.mirrored(s.dirty[0], s.message_id, landed),
    );
}

/// Without a receipt, an upload is the highest number that was not there before.
pub proof fn where_an_upload_landed(uids: Seq<u32>, old: Seq<u32>)
    ensures
        match newest(uids, old) {
            Some(best) => uids.contains(best) && !old.contains(best) && forall|i: int|
                0 <= i < uids.len() && !old.contains(#[trigger] uids[i]) ==> uids[i] <= best,
            None => forall|i: int| 0 <= i < uids.len() ==> old.contains(#[trigger] uids[i]),
        },
    decreases uids.len(),
{
    if uids.len() > 0 {
        let front = uids.drop_last();
        where_an_upload_landed(front, old);
        assert forall|i: int| 0 <= i < uids.len() - 1 implies #[trigger] uids[i] == front[i] by {}
        if let Some(best) = newest(front, old) {
            let m = choose|m: int| 0 <= m < front.len() && front[m] == best;
            assert(uids[m] == best);
            assert(uids.contains(best));
        }
        assert(uids.contains(uids[uids.len() - 1]));
        if newest(uids, old) is None {
            assert forall|i: int| 0 <= i < uids.len() implies old.contains(#[trigger] uids[i]) by {
                if i < front.len() {
                    assert(old.contains(front[i]));
                }
            }
        } else {
            let best = newest(uids, old)->0;
            assert forall|i: int|
                0 <= i < uids.len() && !old.contains(#[trigger] uids[i]) implies uids[i]
                <= best by {
                if i < front.len() {
                    assert(front[i] == uids[i]);
                }
            }
        }
    }
}

/// What a draft's name is made of: its own id, and the domain where that could be one, without
/// white space and `@` around it.
pub proof fn what_a_name_is_made_of(draft_id: Seq<char>, domain: Seq<char>)
    requires
        domain.contains('.'),
        forall|i: int|
            0 <= i < domain.len() ==> !crate::chars::white(#[trigger] domain[i]) && domain[i]
                != '@',
    ensures
        minted(draft_id, domain) == draft_id + ".draft@"@ + domain,
{
    let w = Class::White;
    let a = Class::Is('@');
    assert(domain.len() > 0);
    crate::chars::lemma_run_is(domain, w, true, 0);
    assert(domain.skip(0) =~= domain);
    crate::chars::lemma_back_run_is(domain, w, 0);
    assert(domain.take(domain.len() as int) =~= domain);
    crate::chars::lemma_run_is(domain, a, true, 0);
    crate::chars::lemma_back_run_is(domain, a, 0);
    let k = choose|k: int| 0 <= k < domain.len() && domain[k] == '.';
    reveal_strlit(".");
    assert(domain.subrange(k, k + 1) =~= "."@);
    assert(crate::chars::at(domain, k, "."@));
    assert(crate::chars::contains(domain, "."@));
}

proof fn lemma_report_grows(s: Sweeping, book: Book)
    ensures
        s.report.failed.is_prefix_of(turned(s, book).sweep.report.failed),
    decreases s.dirty.len(),
{
    if s.tombs.len() == 0 && s.dirty.len() > 0 {
        let id = s.dirty[0];
        match book.record(id) {
            None => lemma_report_grows(s.counting(1, 0).next_draft(), book),
            Some(PageText::Damaged { why, .. }) => {
                let next = s.failing(id, unreadable(id, why)).next_draft();
                lemma_report_grows(next, book);
                let all = turned(next, book).sweep.report.failed;
                assert(next.report.failed == all.take(next.report.failed.len() as int));
                assert(s.report.failed =~= all.take(s.report.failed.len() as int));
            },
            Some(PageText::Whole(_)) => {
                assert(s.report.failed =~= s.report.failed.take(s.report.failed.len() as int));
            },
        }
    } else {
        assert(s.report.failed =~= s.report.failed.take(s.report.failed.len() as int));
    }
}

/// What fails is reported, with the draft it failed for and the server's words, and what was
/// reported before stays.
pub proof fn every_failure_is_reported(s: Sweeping, book: Book, why: Seq<char>)
    requires
        s.wait is Scanning || s.wait is Appending || s.wait is Replacing,
        s.dirty.len() > 0,
    ensures
        swept(s, book, Said::Failed(why)) matches Some(n) && s.report.failed.push(
            (s.dirty[0], why),
        ).is_prefix_of(n.sweep.report.failed),
{
    let t = Sweeping { wait: Wait::Done, ..s };
    lemma_report_grows(t.failing(s.dirty[0], why).next_draft(), book);
}

/// A draft that cannot be read back is reported, and the sweep goes on.
pub proof fn an_unreadable_draft_is_reported(s: Sweeping, book: Book, why: Seq<char>, at: i64)
    requires
        s.tombs.len() == 0,
        s.dirty.len() > 0,
        book.record(s.dirty[0]) == Some(PageText::Damaged { why, modified_ms: at }),
    ensures
        s.report.failed.push((s.dirty[0], unreadable(s.dirty[0], why))).is_prefix_of(
            turned(s, book).sweep.report.failed,
        ),
{
    lemma_report_grows(s.failing(s.dirty[0], unreadable(s.dirty[0], why)).next_draft(), book);
}

} // verus!
