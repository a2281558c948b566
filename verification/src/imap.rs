//! The IMAP session's vocabulary, and the sync cycle that ties the rest of the
//! crate together.
//!
//! A cycle compares UIDVALIDITY, pushes queued changes, pulls what is above the
//! cursor, takes over flag changes, reconciles where that was asked for, and
//! commits the cursor: last, and only then. A cursor written over a partially
//! applied cycle convinces the next run that it is up to date, and the messages
//! that did not land never arrive.
//!
//! Pushing comes before pulling. The other order lets the pull overwrite a
//! local flag change with the server's older copy, after which the queued push
//! uploads what was just clobbered.

use vstd::prelude::*;

use crate::chars::{push_all, push_text, to_chars, to_text};
use crate::error::{Error, Result};
use crate::model::{Flags, ImapFlag};
use crate::numbers::{dec, decimal};
use crate::plan::{self, fetch_plan, flag_updates, held_among, held_of, missing, plan_fetch,
    plan_reconcile, reflagged, removals, suspicious};
use crate::push::{DrainOutcome, Failure, MemoryQueue, Pending, PendingPush, PushOp, PushQueue,
    Tally};
use crate::store::{remove_all, set_all_flags, upsert_all, Contents, Cursor, MailStore,
    MailboxState, MemoryStore, RemoteMessage};
use crate::order::{sorted, strictly_ascending};
use crate::times::{dashed, dashed_date, date_of, utc_date};

verus! {

/// How a connection is encrypted.
#[derive(Debug, Clone, Copy, PartialEq, Eq, Structural)]
pub enum Security {
    /// TLS from the first byte.
    Tls,
    /// Plaintext, upgraded with STARTTLS.
    StartTls,
    /// No encryption at all: for a server on the same machine.
    Plaintext,
}

impl Default for Security {
    fn default() -> (r: Self)
        ensures
            r == Security::Tls,
    {
        Security::Tls
    }
}

/// Where and how to reach one account's IMAP server.
#[derive(Debug, Clone, PartialEq, Eq)]
pub struct Endpoint {
    pub host: String,
    pub port: u16,
    pub security: Security,
    pub username: String,
}

impl Endpoint {
    /// The conventional endpoint for a host: implicit TLS on 993.
    #[must_use]
    pub fn tls(host: &str, username: &str) -> (r: Self)
        ensures
            r.host@ == host@,
            r.port == 993,
            r.security == Security::Tls,
            r.username@ == username@,
    {
        Endpoint {
            host: host.to_owned(),
            port: 993,
            security: Security::Tls,
            username: username.to_owned(),
        }
    }
}

/// `BODY.PEEK[]`, not `BODY[]`, which sets `\Seen` as a side effect of reading.
pub const FETCH_ITEMS: &'static str = "(UID FLAGS INTERNALDATE BODY.PEEK[])";

/// Messages asked for in one fetch: enough to amortise the latency of a
/// command, few enough that a dropped connection loses one batch.
pub const FETCH_BATCH: usize = 50;

/// What ended a watch of a mailbox.
#[derive(Debug, Clone, Copy, PartialEq, Eq, Structural)]
pub enum Watched {
    /// The server reported the mailbox changed. The next move is a sync cycle.
    Changed,
    /// Nothing happened within the timeout. Watch again.
    TimedOut,
}

// ---- what is written on the wire ----

/// `dd-Mon-yyyy`, the only date format a SEARCH accepts.
pub open spec fn search_date(epoch_ms: int) -> Option<Seq<char>> {
    match utc_date(epoch_ms) {
        Some(date) => Some(dashed(date)),
        None => None,
    }
}

/// `dd-Mon-yyyy`, the only date format a SEARCH accepts.
#[must_use]
pub fn imap_date(epoch_ms: i64) -> (r: Option<String>)
    ensures
        crate::chars::opt_text(r) == search_date(epoch_ms as int),
{
    match date_of(epoch_ms) {
        Some((year, month, day)) => Some(dashed_date(year, month, day)),
        None => None,
    }
}

/// What a mailbox is searched for: on the first cycle everything in the window
/// asked for, afterwards everything above the cursor. A cutoff that will not
/// render is no cutoff: fetching more than asked is the safe direction.
pub open spec fn criteria(last_uid: u32, since_ms: Option<i64>) -> Seq<char> {
    if last_uid != 0 {
        "UID "@ + dec((last_uid + 1) as nat) + ":* NOT DELETED"@
    } else {
        match since_ms {
            Some(ms) => match search_date(ms as int) {
                Some(date) => "SINCE "@ + date + " NOT DELETED"@,
                None => "NOT DELETED"@,
            },
            None => "NOT DELETED"@,
        }
    }
}

#[must_use]
pub fn search_criteria(last_uid: u32, since_ms: Option<i64>) -> (r: String)
    ensures
        r@ == criteria(last_uid, since_ms),
{
    if last_uid != 0 {
        let mut out: Vec<char> = to_chars("UID ");
        let next: Vec<char> = decimal(last_uid as u64 + 1);
        push_all(&mut out, &next);
        push_text(&mut out, ":* NOT DELETED");
        return to_text(&out);
    }
    let date: Option<String> = match since_ms {
        Some(ms) => imap_date(ms),
        None => None,
    };
    match date {
        Some(d) => {
            let mut out: Vec<char> = to_chars("SINCE ");
            push_text(&mut out, &d);
            push_text(&mut out, " NOT DELETED");
            to_text(&out)
        },
        None => "NOT DELETED".to_owned(),
    }
}

/// What a window of flag changes is asked for with. The VANISHED modifier is
/// only legal once QRESYNC is enabled.
pub open spec fn window_query(modseq: u64, qresync: bool) -> Seq<char> {
    "(FLAGS) (CHANGEDSINCE "@ + dec(modseq as nat) + if qresync {
        " VANISHED)"@
    } else {
        ")"@
    }
}

#[must_use]
pub fn flag_window_query(modseq: u64, qresync: bool) -> (r: String)
    ensures
        r@ == window_query(modseq, qresync),
{
    let mut out: Vec<char> = to_chars("(FLAGS) (CHANGEDSINCE ");
    let d: Vec<char> = decimal(modseq);
    push_all(&mut out, &d);
    push_text(
        &mut out,
        if qresync {
            " VANISHED)"
        } else {
            ")"
        },
    );
    to_text(&out)
}

/// UIDs as a set on the wire: numbers with commas between them.
pub open spec fn uid_list(uids: Seq<u32>) -> Seq<char>
    decreases uids.len(),
{
    if uids.len() == 0 {
        Seq::empty()
    } else if uids.len() == 1 {
        dec(uids[0] as nat)
    } else {
        uid_list(uids.drop_last()) + ","@ + dec(uids.last() as nat)
    }
}

#[must_use]
pub fn uid_set(uids: &[u32]) -> (r: String)
    ensures
        r@ == uid_list(uids@),
{
    let mut out: Vec<char> = Vec::new();
    let mut i: usize = 0;
    assert(uids@.take(0) =~= Seq::<u32>::empty());
    while i < uids.len()
        invariant
            i <= uids@.len(),
            out@ == uid_list(uids@.take(i as int)),
        decreases uids@.len() - i,
    {
        let ghost before = out@;
        if i > 0 {
            push_text(&mut out, ",");
        }
        let d: Vec<char> = decimal(uids[i] as u64);
        push_all(&mut out, &d);
        proof {
            assert(uids@.take(i + 1).drop_last() =~= uids@.take(i as int));
            assert(uids@.take(i + 1).last() == uids@[i as int]);
            if i == 0 {
                assert(out@ =~= d@);
            }
        }
        i = i + 1;
    }
    assert(uids@.take(i as int) =~= uids@);
    to_text(&out)
}

/// The flags a filed copy carries: always seen, because a message the user just
/// wrote is not unread mail for them.
pub open spec fn filed_flags(flags: Flags) -> Seq<ImapFlag> {
    let seen = seq![ImapFlag::Seen];
    let flagged = if flags.flagged {
        seen.push(ImapFlag::Flagged)
    } else {
        seen
    };
    if flags.draft {
        flagged.push(ImapFlag::Draft)
    } else {
        flagged
    }
}

#[must_use]
pub fn append_flags(flags: Flags) -> (r: Vec<ImapFlag>)
    ensures
        r@ == filed_flags(flags),
{
    let mut out: Vec<ImapFlag> = vec![ImapFlag::Seen];
    if flags.flagged {
        out.push(ImapFlag::Flagged);
    }
    if flags.draft {
        out.push(ImapFlag::Draft);
    }
    assert(out@ =~= filed_flags(flags));
    out
}

/// A fetched message, where the server returned both its UID and its octets.
#[must_use]
pub fn remote_message(
    uid: Option<u32>,
    flags: Flags,
    body: Option<Vec<u8>>,
    internal_date_ms: Option<i64>,
) -> (r: Option<RemoteMessage>)
    ensures
        match r {
            Some(m) => uid == Some(m.uid) && body == Some(m.raw) && m.flags == flags
                && m.internal_date_ms == (match internal_date_ms {
                Some(ms) => ms,
                None => 0,
            }),
            None => uid is None || body is None,
        },
{
    match (uid, body) {
        (Some(uid), Some(raw)) => Some(
            RemoteMessage {
                uid,
                flags,
                raw,
                internal_date_ms: match internal_date_ms {
                    Some(ms) => ms,
                    None => 0,
                },
            },
        ),
        _ => None,
    }
}

// ---- the cycle ----

/// How much work one cycle should do.
#[derive(Debug, Clone, Copy)]
pub struct SyncOptions {
    /// Run a full UID-set reconciliation this cycle. Not every cycle: it is a
    /// round trip proportional to the mailbox.
    pub reconcile: bool,
    /// Only fetch messages newer than this, in epoch milliseconds. `None`
    /// fetches everything.
    pub since_ms: Option<i64>,
}

impl Default for SyncOptions {
    fn default() -> (r: Self)
        ensures
            !r.reconcile,
            r.since_ms is None,
    {
        SyncOptions { reconcile: false, since_ms: None }
    }
}

/// What one cycle did.
#[derive(Debug, Clone, PartialEq, Eq)]
pub struct SyncOutcome {
    pub fetched: usize,
    pub reflagged: usize,
    pub removed: usize,
    pub pushed: DrainOutcome,
    /// The mailbox was renumbered and re-downloaded from scratch.
    pub renumbered: bool,
    /// The empty-listing guard fired; deletions were skipped this round.
    pub guard_tripped: bool,
    /// A flag window failed and the MODSEQ cursor was deliberately not
    /// advanced, so the next cycle replays it.
    pub modseq_held_back: bool,
}

/// What a cycle did, as contracts speak of it.
#[verifier::ext_equal]
pub struct Outcome {
    pub fetched: usize,
    pub reflagged: usize,
    pub removed: usize,
    pub pushed: Tally,
    pub renumbered: bool,
    pub guard_tripped: bool,
    pub modseq_held_back: bool,
}

impl SyncOutcome {
    pub open spec fn view(&self) -> Outcome {
        Outcome {
            fetched: self.fetched,
            reflagged: self.reflagged,
            removed: self.removed,
            pushed: self.pushed@,
            renumbered: self.renumbered,
            guard_tripped: self.guard_tripped,
            modseq_held_back: self.modseq_held_back,
        }
    }
}

pub open spec fn nothing_done() -> Outcome {
    Outcome {
        fetched: 0,
        reflagged: 0,
        removed: 0,
        pushed: Tally::empty(),
        renumbered: false,
        guard_tripped: false,
        modseq_held_back: false,
    }
}

impl Default for SyncOutcome {
    fn default() -> (r: Self)
        ensures
            r@ == nothing_done(),
    {
        SyncOutcome {
            fetched: 0,
            reflagged: 0,
            removed: 0,
            pushed: DrainOutcome::default(),
            renumbered: false,
            guard_tripped: false,
            modseq_held_back: false,
        }
    }
}

/// A count with more on it, as far as it can be counted.
pub open spec fn more(n: usize, extra: nat) -> usize {
    if n + extra > usize::MAX {
        usize::MAX
    } else {
        (n + extra) as usize
    }
}

pub(crate) fn count_more(n: usize, extra: usize) -> (r: usize)
    ensures
        r == more(n, extra as nat),
{
    if n > usize::MAX - extra {
        usize::MAX
    } else {
        n + extra
    }
}

/// A mailbox as it was selected, and what the session may use on it.
#[derive(Debug, Clone, Copy)]
pub struct Selected {
    pub uid_validity: Option<u32>,
    pub exists: u32,
    pub highest_mod_seq: Option<u64>,
    /// The server lets a client make up keywords.
    pub may_create: bool,
    pub condstore: bool,
    /// The same round trip as the flag changes also carries deletions.
    pub qresync: bool,
}

impl Selected {
    pub open spec fn validity(self) -> u32 {
        match self.uid_validity {
            Some(v) => v,
            None => 0,
        }
    }

    pub open spec fn modseq(self) -> u64 {
        match self.highest_mod_seq {
            Some(m) => m,
            None => 0,
        }
    }

    fn modseq_of(&self) -> (r: u64)
        ensures
            r == self.modseq(),
    {
        match self.highest_mod_seq {
            Some(m) => m,
            None => 0,
        }
    }
}

/// What a cycle is waiting for.
#[derive(Debug, Clone, Copy, PartialEq, Eq, Structural)]
pub enum Stage {
    Pushing,
    Searching,
    Fetching,
    Flagging,
    Listing,
    Refetching,
    Over,
}

/// What came back from the server.
#[derive(Debug)]
pub enum Event {
    /// The queue was drained.
    Drained(DrainOutcome),
    /// A search found these UIDs.
    Found(Vec<u32>),
    /// A fetch returned these messages.
    Messages(Vec<RemoteMessage>),
    /// A window of flag changes, and the UIDs that vanished in it.
    Window { deltas: Vec<(u32, Flags)>, vanished: Vec<u32> },
    /// The window could not be fetched.
    WindowFailed,
    /// Every UID of the mailbox with its flags.
    Listing(Vec<(u32, Flags)>),
}

/// What is to be done next.
#[derive(Debug)]
pub enum Action {
    /// Search the mailbox and hand over what was found.
    Search(String),
    /// Fetch these messages.
    Fetch(Vec<u32>),
    /// Fetch flag changes with this query.
    Window(String),
    /// List every UID with its flags.
    List,
    Done(SyncOutcome),
}

pub enum Act {
    Search(Seq<char>),
    Fetch(Seq<u32>),
    Window(Seq<char>),
    List,
    Done(Outcome),
}

impl Action {
    pub open spec fn view(&self) -> Act {
        match self {
            Action::Search(q) => Act::Search(q@),
            Action::Fetch(uids) => Act::Fetch(uids@),
            Action::Window(q) => Act::Window(q@),
            Action::List => Act::List,
            Action::Done(o) => Act::Done(o@),
        }
    }
}

/// One sync cycle of one mailbox.
#[derive(Debug)]
pub struct Cycle {
    pub selected: Selected,
    pub options: SyncOptions,
    /// Where the mailbox will have been synced up to.
    pub cursor: Cursor,
    pub outcome: SyncOutcome,
    pub stage: Stage,
    /// Still to be fetched.
    pub left: Vec<u32>,
    /// To be dropped once everything is fetched.
    pub removals: Vec<u32>,
}

/// A cycle, as contracts speak of it.
#[verifier::ext_equal]
pub struct Progress {
    pub selected: Selected,
    pub options: SyncOptions,
    pub cursor: Cursor,
    pub outcome: Outcome,
    pub stage: Stage,
    pub left: Seq<u32>,
    pub removals: Seq<u32>,
}

/// What one step of a cycle comes to.
pub struct Moved {
    pub cycle: Progress,
    pub contents: Contents,
    pub action: Act,
}

/// The UIDs asked for in the next fetch.
pub open spec fn batch(left: Seq<u32>) -> Seq<u32> {
    if left.len() <= FETCH_BATCH {
        left
    } else {
        left.take(FETCH_BATCH as int)
    }
}

pub open spec fn highest(start: u32, uids: Seq<u32>) -> u32
    decreases uids.len(),
{
    if uids.len() == 0 {
        start
    } else {
        let h = highest(start, uids.drop_last());
        if uids.last() > h {
            uids.last()
        } else {
            h
        }
    }
}

pub open spec fn uids_of(messages: Seq<RemoteMessage>) -> Seq<u32> {
    messages.map_values(|m: RemoteMessage| m.uid)
}

impl Progress {
    pub open spec fn at(self, stage: Stage) -> Progress {
        Progress { stage, ..self }
    }

    /// The cursor is committed, and the cycle is over.
    pub open spec fn committed(self, contents: Contents) -> Moved {
        Moved {
            cycle: self.at(Stage::Over),
            contents: contents.at_cursor(self.cursor),
            action: Act::Done(self.outcome),
        }
    }

    /// Everything was fetched again that had to be: what the server no longer
    /// lists is dropped.
    pub open spec fn refetch_next(self, contents: Contents) -> Moved {
        if self.left.len() > 0 {
            Moved {
                cycle: self.at(Stage::Refetching),
                contents,
                action: Act::Fetch(batch(self.left)),
            }
        } else {
            Progress {
                outcome: Outcome {
                    removed: more(self.outcome.removed, self.removals.len()),
                    ..self.outcome
                },
                ..self
            }.committed(contents.without_all(self.removals))
        }
    }

    /// Flags are settled.
    pub open spec fn flags_settled(self, contents: Contents) -> Moved {
        if self.options.reconcile {
            Moved { cycle: self.at(Stage::Listing), contents, action: Act::List }
        } else {
            self.committed(contents)
        }
    }

    /// Nothing new is left to fetch: the flags are next.
    pub open spec fn flags_next(self, contents: Contents) -> Moved {
        let server = self.selected.modseq();
        if self.selected.condstore && self.cursor.highest_modseq > 0 && server
            > self.cursor.highest_modseq {
            Moved {
                cycle: self.at(Stage::Flagging),
                contents,
                action: Act::Window(
                    window_query(self.cursor.highest_modseq, self.selected.qresync),
                ),
            }
        } else if server > 0 {
            Progress {
                cursor: Cursor { highest_modseq: server, ..self.cursor },
                ..self
            }.flags_settled(contents)
        } else {
            self.flags_settled(contents)
        }
    }

    pub open spec fn fetch_next(self, contents: Contents) -> Moved {
        if self.left.len() > 0 {
            Moved {
                cycle: self.at(Stage::Fetching),
                contents,
                action: Act::Fetch(batch(self.left)),
            }
        } else {
            self.flags_next(contents)
        }
    }

    /// These messages arrived for the batch asked for.
    pub open spec fn arrived(self, messages: Seq<RemoteMessage>, upto: u32) -> Progress {
        Progress {
            cursor: Cursor { last_uid: upto, ..self.cursor },
            outcome: Outcome {
                fetched: more(self.outcome.fetched, messages.len()),
                ..self.outcome
            },
            left: self.left.skip(batch(self.left).len() as int),
            ..self
        }
    }

    /// Is a window of flags or a listing asked for next, rather than the cycle
    /// ended?
    pub open spec fn asks_for_flags(self) -> bool {
        self.options.reconcile || (self.selected.condstore && self.cursor.highest_modseq > 0
            && self.selected.modseq() > self.cursor.highest_modseq)
    }

    /// Is this an event that asks nothing of the store? Such a step cannot fail.
    pub open spec fn asks_nothing(self, event: Event) -> bool {
        let rest = self.left.skip(batch(self.left).len() as int);
        match (self.stage, event) {
            (Stage::Pushing, Event::Drained(pushed)) => pushed.departed@.len() == 0 && (
            self.asks_for_flags() || self.cursor.last_uid > 0 || self.selected.exists > 0),
            (Stage::Fetching, Event::Messages(messages)) => messages@.len() == 0 && (rest.len() > 0
                || self.asks_for_flags()),
            (Stage::Flagging, Event::WindowFailed) => self.options.reconcile,
            (Stage::Refetching, Event::Messages(messages)) => messages@.len() == 0 && rest.len()
                > 0,
            _ => false,
        }
    }

    /// What an event comes to; nothing, if this is not what the cycle is
    /// waiting for.
    pub open spec fn advanced(self, contents: Contents, event: Event) -> Option<Moved> {
        match (self.stage, event) {
            // What a drain moved or deleted leaves the store now, on the
            // strength of the server's own OK: a mailbox moved to empty has
            // exactly the shape the empty-listing guard refuses to act on.
            (Stage::Pushing, Event::Drained(pushed)) => {
                let next = Progress {
                    outcome: Outcome { pushed: pushed@, ..self.outcome },
                    ..self
                };
                let held = contents.without_all(pushed.departed@);
                if self.cursor.last_uid == 0 && self.selected.exists == 0 {
                    Some(next.flags_next(held))
                } else {
                    Some(
                        Moved {
                            cycle: next.at(Stage::Searching),
                            contents: held,
                            action: Act::Search(
                                criteria(self.cursor.last_uid, self.options.since_ms),
                            ),
                        },
                    )
                }
            },
            (Stage::Searching, Event::Found(uids)) => {
                let next = Progress {
                    left: fetch_plan(uids@, contents.cursor.last_uid, contents.entries),
                    ..self
                };
                Some(next.fetch_next(contents))
            },
            // A UID the server listed but would not return is not retried
            // indefinitely: the cursor moves past it.
            (Stage::Fetching, Event::Messages(messages)) => {
                let upto = highest(
                    highest(self.cursor.last_uid, uids_of(messages@)),
                    batch(self.left),
                );
                Some(
                    self.arrived(messages@, upto).fetch_next(contents.with_messages(messages@)),
                )
            },
            (Stage::Flagging, Event::Window { deltas, vanished }) => {
                let updates = reflagged(deltas@, contents.entries);
                let departed = held_among(vanished@, contents.entries);
                let next = Progress {
                    cursor: Cursor { highest_modseq: self.selected.modseq(), ..self.cursor },
                    outcome: Outcome {
                        reflagged: more(self.outcome.reflagged, updates.len()),
                        removed: more(self.outcome.removed, departed.len()),
                        ..self.outcome
                    },
                    ..self
                };
                Some(
                    next.flags_settled(contents.with_all_flags(updates).without_all(departed)),
                )
            },
            // Advancing past a window whose fetch failed loses its flag changes
            // forever.
            (Stage::Flagging, Event::WindowFailed) => Some(
                Progress {
                    outcome: Outcome { modseq_held_back: true, ..self.outcome },
                    ..self
                }.flags_settled(contents),
            ),
            (Stage::Listing, Event::Listing(listing)) => {
                let updates = sorted(reflagged(listing@, contents.entries));
                let next = Progress {
                    outcome: Outcome {
                        guard_tripped: suspicious(listing@, contents.entries),
                        reflagged: more(self.outcome.reflagged, updates.len()),
                        ..self.outcome
                    },
                    left: sorted(missing(listing@, contents.entries)),
                    removals: removals(listing@, contents.entries),
                    ..self
                };
                Some(next.refetch_next(contents.with_all_flags(updates)))
            },
            (Stage::Refetching, Event::Messages(messages)) => {
                let upto = highest(self.cursor.last_uid, uids_of(messages@));
                Some(
                    self.arrived(messages@, upto).refetch_next(
                        contents.with_messages(messages@),
                    ),
                )
            },
            _ => None,
        }
    }
}

/// Where a cycle over a store with these contents begins. A mailbox that was
/// renumbered is emptied first: every UID held for it is void.
pub open spec fn opened(selected: Selected, options: SyncOptions, contents: Contents) -> (
    Progress,
    Contents,
) {
    let validity = selected.validity();
    let renumbered = contents.cursor.uid_validity != 0 && contents.cursor.uid_validity != validity;
    let held = if renumbered {
        Contents::renumbered(validity)
    } else {
        contents
    };
    (
        Progress {
            selected,
            options,
            cursor: Cursor {
                uid_validity: validity,
                accepts_keywords: selected.may_create,
                ..held.cursor
            },
            outcome: Outcome { renumbered, ..nothing_done() },
            stage: Stage::Pushing,
            left: Seq::empty(),
            removals: Seq::empty(),
        },
        held,
    )
}

fn batch_of(left: &Vec<u32>) -> (r: Vec<u32>)
    ensures
        r@ == batch(left@),
{
    let mut out: Vec<u32> = Vec::new();
    let mut i: usize = 0;
    while i < left.len() && i < FETCH_BATCH
        invariant
            i <= left@.len(),
            i <= FETCH_BATCH,
            out@ =~= left@.take(i as int),
        decreases left@.len() - i,
    {
        out.push(left[i]);
        i = i + 1;
    }
    assert(out@ =~= batch(left@));
    out
}

fn rest_of(left: &Vec<u32>, from: usize) -> (r: Vec<u32>)
    requires
        from <= left@.len(),
    ensures
        r@ == left@.skip(from as int),
{
    let mut out: Vec<u32> = Vec::new();
    let mut i: usize = from;
    while i < left.len()
        invariant
            from <= i <= left@.len(),
            out@ =~= left@.subrange(from as int, i as int),
        decreases left@.len() - i,
    {
        out.push(left[i]);
        i = i + 1;
    }
    assert(out@ =~= left@.skip(from as int));
    out
}

fn highest_of(start: u32, uids: &[u32]) -> (r: u32)
    ensures
        r == highest(start, uids@),
{
    let mut h: u32 = start;
    let mut i: usize = 0;
    assert(uids@.take(0) =~= Seq::<u32>::empty());
    while i < uids.len()
        invariant
            i <= uids@.len(),
            h == highest(start, uids@.take(i as int)),
        decreases uids@.len() - i,
    {
        proof {
            assert(uids@.take(i + 1).drop_last() =~= uids@.take(i as int));
            assert(uids@.take(i + 1).last() == uids@[i as int]);
        }
        if uids[i] > h {
            h = uids[i];
        }
        i = i + 1;
    }
    assert(uids@.take(i as int) =~= uids@);
    h
}

fn message_uids(messages: &[RemoteMessage]) -> (r: Vec<u32>)
    ensures
        r@ == uids_of(messages@),
{
    let mut out: Vec<u32> = Vec::new();
    let mut i: usize = 0;
    while i < messages.len()
        invariant
            i <= messages@.len(),
            out@.len() == i,
            forall|k: int| 0 <= k < i ==> #[trigger] out@[k] == messages@[k].uid,
        decreases messages@.len() - i,
    {
        out.push(messages[i].uid);
        i = i + 1;
    }
    assert(out@ =~= uids_of(messages@));
    out
}

/// A mailbox together with the queue of what is to be written back to it.
pub trait QueuedMailbox: MailStore + PushQueue {
    /// Starts over: the server renumbered the mailbox. Nothing is held then, and
    /// nothing is queued, for every UID that a queued change names is void.
    fn start_over(&mut self, uid_validity: u32) -> (r: Result<()>)
        ensures
            old(self).dependable() ==> r is Ok && final(self).dependable(),
            r is Ok ==> final(self).contents() == Contents::renumbered(uid_validity),
            r is Ok ==> final(self).queue() == Seq::<Pending>::empty(),
    ;
}

impl Cycle {
    pub open spec fn view(&self) -> Progress {
        Progress {
            selected: self.selected,
            options: self.options,
            cursor: self.cursor,
            outcome: self.outcome@,
            stage: self.stage,
            left: self.left@,
            removals: self.removals@,
        }
    }

    /// Begins a cycle over the mailbox that was just selected. What follows is
    /// to drain the queue against the session and hand over
    /// [`Event::Drained`].
    pub fn open<S: QueuedMailbox>(store: &mut S, selected: Selected, options: SyncOptions) -> (r:
        Result<Cycle>)
        ensures
            // What was queued under another numbering is gone before anything is
            // drained; otherwise the queue is left alone.
            r matches Ok(cycle) ==> final(store).queue() == (if cycle@.outcome.renumbered {
                Seq::<Pending>::empty()
            } else {
                old(store).queue()
            }),
            r is Err ==> (final(store).contents() == old(store).contents() && final(store).queue()
                == old(store).queue()) || opened(
                selected,
                options,
                old(store).contents(),
            ).0.outcome.renumbered,
            r matches Ok(cycle) ==> (cycle@, final(store).contents()) == opened(
                selected,
                options,
                old(store).contents(),
            ),
            old(store).dependable() ==> r is Ok && final(store).dependable(),
    {
        let uid_validity: u32 = match selected.uid_validity {
            Some(v) => v,
            None => 0,
        };
        let mut cursor: Cursor = match store.state() {
            Ok(state) => state.cursor,
            Err(why) => {
                return Err(why);
            },
        };
        let mut outcome: SyncOutcome = SyncOutcome::default();
        if cursor.uid_validity != 0 && cursor.uid_validity != uid_validity {
            match store.start_over(uid_validity) {
                Ok(()) => {},
                Err(why) => {
                    return Err(why);
                },
            }
            cursor = match store.state() {
                Ok(state) => state.cursor,
                Err(why) => {
                    return Err(why);
                },
            };
            outcome.renumbered = true;
        }
        cursor.uid_validity = uid_validity;
        cursor.accepts_keywords = selected.may_create;
        Ok(
            Cycle {
                selected,
                options,
                cursor,
                outcome,
                stage: Stage::Pushing,
                left: Vec::new(),
                removals: Vec::new(),
            },
        )
    }

    /// Is this what is being waited for?
    fn awaits(&self, event: &Event) -> (r: bool)
        ensures
            forall|c: Contents| (#[trigger] self@.advanced(c, *event) is Some) == r,
    {
        match (self.stage, event) {
            (Stage::Pushing, Event::Drained(_)) => true,
            (Stage::Searching, Event::Found(_)) => true,
            (Stage::Fetching, Event::Messages(_)) => true,
            (Stage::Flagging, Event::Window { .. }) => true,
            (Stage::Flagging, Event::WindowFailed) => true,
            (Stage::Listing, Event::Listing(_)) => true,
            (Stage::Refetching, Event::Messages(_)) => true,
            _ => false,
        }
    }

    /// The next step of the cycle, given what came back from the server. An
    /// event that the cycle is not waiting for is refused, and changes nothing.
    pub fn advance<S: MailStore>(&mut self, store: &mut S, event: Event) -> (r: Result<Action>)
        ensures
            r matches Ok(action) ==> old(self)@.advanced(old(store).contents(), event) == Some(
                Moved {
                    cycle: final(self)@,
                    contents: final(store).contents(),
                    action: action@,
                },
            ),
            old(store).dependable() && old(self)@.advanced(old(store).contents(), event) is Some
                ==> r is Ok && final(store).dependable(),
            old(self)@.asks_nothing(event) ==> r is Ok,
            old(self)@.advanced(old(store).contents(), event) is None ==> r is Err
                && *final(self) == *old(self) && final(store).contents() == old(
                store,
            ).contents(),
            // A failure leaves the cursor that is committed where it was, but for a
            // last commit that took all the same.
            r is Err && final(store).contents().cursor != old(store).contents().cursor ==> ({
                let m = old(self)@.advanced(old(store).contents(), event);
                m is Some && m->0.action is Done && final(store).contents() == m->0.contents
            }),
            // A step that failed ends it: nothing that follows can go past what
            // could not be taken.
            r is Err && old(self)@.advanced(old(store).contents(), event) is Some
                ==> final(self)@.stage == Stage::Over,
    {
        let due: bool = self.awaits(&event);
        match self.step(store, event) {
            Ok(action) => Ok(action),
            Err(why) => {
                if due {
                    self.stage = Stage::Over;
                }
                Err(why)
            },
        }
    }

    #[verifier::rlimit(50)]
    fn step<S: MailStore>(&mut self, store: &mut S, event: Event) -> (r: Result<Action>)
        ensures
            r matches Ok(action) ==> old(self)@.advanced(old(store).contents(), event) == Some(
                Moved {
                    cycle: final(self)@,
                    contents: final(store).contents(),
                    action: action@,
                },
            ),
            old(store).dependable() && old(self)@.advanced(old(store).contents(), event) is Some
                ==> r is Ok && final(store).dependable(),
            old(self)@.asks_nothing(event) ==> r is Ok,
            old(self)@.advanced(old(store).contents(), event) is None ==> r is Err
                && *final(self) == *old(self) && final(store).contents() == old(
                store,
            ).contents(),
            // A failure leaves the cursor that is committed where it was, but for a
            // last commit that took all the same.
            r is Err && final(store).contents().cursor != old(store).contents().cursor ==> ({
                let m = old(self)@.advanced(old(store).contents(), event);
                m is Some && m->0.action is Done && final(store).contents() == m->0.contents
            }),
    {
        match (self.stage, event) {
            (Stage::Pushing, Event::Drained(pushed)) => {
                match remove_all(store, &pushed.departed) {
                    Ok(()) => {},
                    Err(why) => {
                        return Err(why);
                    },
                }
                self.outcome.pushed = pushed;
                if self.cursor.last_uid == 0 && self.selected.exists == 0 {
                    self.to_flags(store)
                } else {
                    self.stage = Stage::Searching;
                    Ok(Action::Search(search_criteria(self.cursor.last_uid, self.options.since_ms)))
                }
            },
            (Stage::Searching, Event::Found(uids)) => {
                match store.state() {
                    Ok(state) => {
                        self.left = plan_fetch(&uids, &state);
                    },
                    Err(why) => {
                        return Err(why);
                    },
                }
                self.to_next_fetch(store)
            },
            (Stage::Fetching, Event::Messages(messages)) => {
                let asked: Vec<u32> = batch_of(&self.left);
                match upsert_all(store, &messages) {
                    Ok(()) => {},
                    Err(why) => {
                        return Err(why);
                    },
                }
                let arrived: Vec<u32> = message_uids(&messages);
                self.cursor.last_uid = highest_of(
                    highest_of(self.cursor.last_uid, &arrived),
                    &asked,
                );
                self.outcome.fetched = count_more(self.outcome.fetched, messages.len());
                self.left = rest_of(&self.left, asked.len());
                self.to_next_fetch(store)
            },
            (Stage::Flagging, Event::Window { deltas, vanished }) => {
                let held = match store.state() {
                    Ok(state) => state.entries,
                    Err(why) => {
                        return Err(why);
                    },
                };
                let updates: Vec<(u32, Flags)> = flag_updates(&deltas, &held);
                match set_all_flags(store, &updates) {
                    Ok(()) => {},
                    Err(why) => {
                        return Err(why);
                    },
                }
                let departed: Vec<u32> = held_of(&vanished, &held);
                match remove_all(store, &departed) {
                    Ok(()) => {},
                    Err(why) => {
                        return Err(why);
                    },
                }
                self.outcome.reflagged = count_more(self.outcome.reflagged, updates.len());
                self.outcome.removed = count_more(self.outcome.removed, departed.len());
                self.cursor.highest_modseq = self.selected.modseq_of();
                self.to_listing(store)
            },
            (Stage::Flagging, Event::WindowFailed) => {
                self.outcome.modseq_held_back = true;
                self.to_listing(store)
            },
            (Stage::Listing, Event::Listing(listing)) => {
                let local = match store.state() {
                    Ok(state) => state.entries,
                    Err(why) => {
                        return Err(why);
                    },
                };
                let plan: plan::MailboxPlan = plan_reconcile(&listing, &local);
                self.outcome.guard_tripped = plan.guard_tripped;
                match set_all_flags(store, &plan.flag_updates) {
                    Ok(()) => {},
                    Err(why) => {
                        return Err(why);
                    },
                }
                self.outcome.reflagged = count_more(
                    self.outcome.reflagged,
                    plan.flag_updates.len(),
                );
                self.left = plan.to_fetch;
                self.removals = plan.to_remove;
                self.to_next_refetch(store)
            },
            (Stage::Refetching, Event::Messages(messages)) => {
                let asked: Vec<u32> = batch_of(&self.left);
                match upsert_all(store, &messages) {
                    Ok(()) => {},
                    Err(why) => {
                        return Err(why);
                    },
                }
                let arrived: Vec<u32> = message_uids(&messages);
                self.cursor.last_uid = highest_of(self.cursor.last_uid, &arrived);
                self.outcome.fetched = count_more(self.outcome.fetched, messages.len());
                self.left = rest_of(&self.left, asked.len());
                self.to_next_refetch(store)
            },
            _ => Err(Error::Imap("the cycle is not waiting for that".to_owned())),
        }
    }

    fn to_next_fetch<S: MailStore>(&mut self, store: &mut S) -> (r: Result<Action>)
        ensures
            r matches Ok(action) ==> old(self)@.fetch_next(old(store).contents()) == (Moved {
                cycle: final(self)@,
                contents: final(store).contents(),
                action: action@,
            }),
            r is Err && final(store).contents().cursor != old(store).contents().cursor ==> ({
                let m = old(self)@.fetch_next(old(store).contents());
                m.action is Done && final(store).contents() == m.contents
            }),
            old(store).dependable() ==> r is Ok && final(store).dependable(),
            old(self)@.left.len() > 0 || old(self)@.asks_for_flags() ==> r is Ok,
    {
        if self.left.len() > 0 {
            self.stage = Stage::Fetching;
            Ok(Action::Fetch(batch_of(&self.left)))
        } else {
            self.to_flags(store)
        }
    }

    fn to_flags<S: MailStore>(&mut self, store: &mut S) -> (r: Result<Action>)
        ensures
            r matches Ok(action) ==> old(self)@.flags_next(old(store).contents()) == (Moved {
                cycle: final(self)@,
                contents: final(store).contents(),
                action: action@,
            }),
            r is Err && final(store).contents().cursor != old(store).contents().cursor ==> ({
                let m = old(self)@.flags_next(old(store).contents());
                m.action is Done && final(store).contents() == m.contents
            }),
            old(store).dependable() ==> r is Ok && final(store).dependable(),
            old(self)@.asks_for_flags() ==> r is Ok,
    {
        let server: u64 = self.selected.modseq_of();
        if self.selected.condstore && self.cursor.highest_modseq > 0 && server
            > self.cursor.highest_modseq {
            self.stage = Stage::Flagging;
            Ok(
                Action::Window(
                    flag_window_query(self.cursor.highest_modseq, self.selected.qresync),
                ),
            )
        } else {
            if server > 0 {
                self.cursor.highest_modseq = server;
            }
            self.to_listing(store)
        }
    }

    fn to_listing<S: MailStore>(&mut self, store: &mut S) -> (r: Result<Action>)
        ensures
            r matches Ok(action) ==> old(self)@.flags_settled(old(store).contents()) == (Moved {
                cycle: final(self)@,
                contents: final(store).contents(),
                action: action@,
            }),
            r is Err && final(store).contents().cursor != old(store).contents().cursor ==> ({
                let m = old(self)@.flags_settled(old(store).contents());
                m.action is Done && final(store).contents() == m.contents
            }),
            old(store).dependable() ==> r is Ok && final(store).dependable(),
            old(self)@.options.reconcile ==> r is Ok,
    {
        if self.options.reconcile {
            self.stage = Stage::Listing;
            Ok(Action::List)
        } else {
            self.commit(store)
        }
    }

    fn to_next_refetch<S: MailStore>(&mut self, store: &mut S) -> (r: Result<Action>)
        ensures
            r matches Ok(action) ==> old(self)@.refetch_next(old(store).contents()) == (Moved {
                cycle: final(self)@,
                contents: final(store).contents(),
                action: action@,
            }),
            r is Err && final(store).contents().cursor != old(store).contents().cursor ==> ({
                let m = old(self)@.refetch_next(old(store).contents());
                m.action is Done && final(store).contents() == m.contents
            }),
            old(store).dependable() ==> r is Ok && final(store).dependable(),
            old(self)@.left.len() > 0 ==> r is Ok,
    {
        if self.left.len() > 0 {
            self.stage = Stage::Refetching;
            return Ok(Action::Fetch(batch_of(&self.left)));
        }
        match remove_all(store, &self.removals) {
            Ok(()) => {},
            Err(why) => {
                return Err(why);
            },
        }
        self.outcome.removed = count_more(self.outcome.removed, self.removals.len());
        self.commit(store)
    }

    fn commit<S: MailStore>(&mut self, store: &mut S) -> (r: Result<Action>)
        ensures
            r matches Ok(action) ==> old(self)@.committed(old(store).contents()) == (Moved {
                cycle: final(self)@,
                contents: final(store).contents(),
                action: action@,
            }),
            r is Err && final(store).contents().cursor != old(store).contents().cursor ==> ({
                let m = old(self)@.committed(old(store).contents());
                m.action is Done && final(store).contents() == m.contents
            }),
            old(store).dependable() ==> r is Ok && final(store).dependable(),
    {
        match store.commit_cursor(self.cursor) {
            Ok(()) => {},
            Err(why) => {
                return Err(why);
            },
        }
        self.stage = Stage::Over;
        Ok(Action::Done(copy_outcome(&self.outcome)))
    }
}

fn copy_outcome(o: &SyncOutcome) -> (r: SyncOutcome)
    ensures
        r@ == o@,
{
    let mut departed: Vec<u32> = Vec::new();
    let mut i: usize = 0;
    while i < o.pushed.departed.len()
        invariant
            i <= o.pushed.departed@.len(),
            departed@ =~= o.pushed.departed@.take(i as int),
        decreases o.pushed.departed@.len() - i,
    {
        departed.push(o.pushed.departed[i]);
        i = i + 1;
    }
    let r: SyncOutcome = SyncOutcome {
        fetched: o.fetched,
        reflagged: o.reflagged,
        removed: o.removed,
        pushed: DrainOutcome {
            succeeded: o.pushed.succeeded,
            departed,
            deferred: o.pushed.deferred,
            needs_reconcile: o.pushed.needs_reconcile,
            needs_user: o.pushed.needs_user,
            skipped: o.pushed.skipped,
        },
        renumbered: o.renumbered,
        guard_tripped: o.guard_tripped,
        modseq_held_back: o.modseq_held_back,
    };
    assert(r.pushed.departed@ =~= o.pushed.departed@);
    r
}

// ---- what holds of every cycle ----

proof fn lemma_highest(start: u32, uids: Seq<u32>)
    ensures
        highest(start, uids) >= start,
    decreases uids.len(),
{
    if uids.len() > 0 {
        lemma_highest(start, uids.drop_last());
    }
}

/// The cursor is committed last: no step but the one that ends a cycle changes
/// the cursor the store holds, and that one stores exactly the cursor the cycle
/// worked out.
pub proof fn the_cursor_is_committed_last(p: Progress, contents: Contents, event: Event)
    requires
        p.advanced(contents, event) is Some,
    ensures
        ({
            let m = p.advanced(contents, event)->0;
            if m.action is Done {
                m.contents.cursor == m.cycle.cursor
            } else {
                m.contents.cursor == contents.cursor
            }
        }),
{
    match (p.stage, event) {
        (Stage::Pushing, Event::Drained(pushed)) => {
            crate::store::only_a_commit_moves_the_cursor(
                contents,
                Seq::empty(),
                Seq::empty(),
                pushed.departed@,
            );
        },
        (Stage::Fetching, Event::Messages(messages)) | (
            Stage::Refetching,
            Event::Messages(messages),
        ) => {
            crate::store::only_a_commit_moves_the_cursor(
                contents,
                messages@,
                Seq::empty(),
                Seq::empty(),
            );
            crate::store::only_a_commit_moves_the_cursor(
                contents.with_messages(messages@),
                Seq::empty(),
                Seq::empty(),
                p.removals,
            );
        },
        (Stage::Flagging, Event::Window { deltas, vanished }) => {
            let updates = reflagged(deltas@, contents.entries);
            crate::store::only_a_commit_moves_the_cursor(
                contents,
                Seq::empty(),
                updates,
                Seq::empty(),
            );
            crate::store::only_a_commit_moves_the_cursor(
                contents.with_all_flags(updates),
                Seq::empty(),
                Seq::empty(),
                held_among(vanished@, contents.entries),
            );
        },
        (Stage::Listing, Event::Listing(listing)) => {
            let updates = sorted(reflagged(listing@, contents.entries));
            crate::store::only_a_commit_moves_the_cursor(
                contents,
                Seq::empty(),
                updates,
                Seq::empty(),
            );
            crate::store::only_a_commit_moves_the_cursor(
                contents.with_all_flags(updates),
                Seq::empty(),
                Seq::empty(),
                removals(listing@, contents.entries),
            );
        },
        _ => {},
    }
}

/// A cycle that is over, because it came to its end or because a step of it failed,
/// takes nothing more.
pub proof fn an_ended_cycle_takes_nothing(p: Progress, contents: Contents, event: Event)
    requires
        p.stage == Stage::Over,
    ensures
        p.advanced(contents, event) is None,
{
}

/// No step moves the UID cursor back.
pub proof fn the_cursor_never_goes_back(p: Progress, contents: Contents, event: Event)
    requires
        p.advanced(contents, event) is Some,
    ensures
        (p.advanced(contents, event)->0).cycle.cursor.last_uid >= p.cursor.last_uid,
{
    match (p.stage, event) {
        (Stage::Fetching, Event::Messages(messages)) => {
            lemma_highest(p.cursor.last_uid, uids_of(messages@));
            lemma_highest(highest(p.cursor.last_uid, uids_of(messages@)), batch(p.left));
        },
        (Stage::Refetching, Event::Messages(messages)) => {
            lemma_highest(p.cursor.last_uid, uids_of(messages@));
        },
        _ => {},
    }
}

/// A flag window whose fetch failed is asked for again: the cursor stays where
/// it was, and the outcome says so.
pub proof fn a_failed_window_is_replayed(p: Progress, contents: Contents)
    requires
        p.stage == Stage::Flagging,
    ensures
        ({
            let m = p.advanced(contents, Event::WindowFailed)->0;
            &&& p.advanced(contents, Event::WindowFailed) is Some
            &&& m.cycle.cursor == p.cursor
            &&& m.cycle.outcome.modseq_held_back
        }),
{
}

/// Nothing is pulled before the queue was drained: a cycle begins by waiting
/// for that, and takes nothing else for it.
pub proof fn nothing_is_pulled_before_the_push(
    selected: Selected,
    options: SyncOptions,
    contents: Contents,
    event: Event,
)
    ensures
        ({
            let (p, held) = opened(selected, options, contents);
            p.advanced(held, event) is Some <==> event is Drained
        }),
{
}

/// After a window of changes, a message that vanished in it is gone; one that is held and
/// that the window names once has the server's flags in every field, and its own mark of
/// having been passed on; one that the window does not mention is as it was. The cursor
/// then stands at the server's own mark.
pub proof fn a_window_is_taken_over(
    p: Progress,
    contents: Contents,
    deltas: Vec<(u32, Flags)>,
    vanished: Vec<u32>,
    uid: u32,
)
    requires
        p.stage == Stage::Flagging,
    ensures
        p.advanced(contents, Event::Window { deltas, vanished }) is Some,
        ({
            let m = p.advanced(contents, Event::Window { deltas, vanished })->0;
            &&& vanished@.contains(uid) && contents.entries.contains_key(uid) ==> !(
            m.contents.entries.contains_key(uid)) && !m.contents.raws.contains_key(uid)
            &&& !vanished@.contains(uid) ==> m.contents.entries.contains_key(uid)
                == contents.entries.contains_key(uid) && m.contents.raws.contains_key(uid)
                == contents.raws.contains_key(uid) && (m.contents.raws.contains_key(uid)
                ==> m.contents.raws[uid] == contents.raws[uid])
            &&& !vanished@.contains(uid) && contents.entries.contains_key(uid) && (forall|j: int|
                0 <= j < deltas@.len() ==> (#[trigger] deltas@[j]).0 != uid)
                ==> m.contents.entries[uid] == contents.entries[uid]
            &&& forall|at: int|
                0 <= at < deltas@.len() && (#[trigger] deltas@[at]).0 == uid && (forall|j: int|
                    0 <= j < deltas@.len() && j != at ==> (#[trigger] deltas@[j]).0 != uid)
                    && !vanished@.contains(uid) && contents.entries.contains_key(uid)
                    ==> m.contents.entries[uid].seen == deltas@[at].1.seen
                    && m.contents.entries[uid].answered == deltas@[at].1.answered
                    && m.contents.entries[uid].flagged == deltas@[at].1.flagged
                    && m.contents.entries[uid].draft == deltas@[at].1.draft
                    && m.contents.entries[uid].deleted == deltas@[at].1.deleted
                    && m.contents.entries[uid].passed == contents.entries[uid].passed
            &&& p.selected.highest_mod_seq matches Some(server) ==> m.cycle.cursor.highest_modseq
                == server
        }),
{
    let updates = reflagged(deltas@, contents.entries);
    let flagged = contents.with_all_flags(updates);
    let departed = held_among(vanished@, contents.entries);
    plan::who_is_held(vanished@, contents.entries, uid);
    crate::store::what_flag_updates_leave(contents, updates, uid);
    crate::store::what_removals_leave(flagged, departed, uid);
    if forall|j: int| 0 <= j < deltas@.len() ==> (#[trigger] deltas@[j]).0 != uid {
        plan::unmentioned_flags_stay(contents, deltas@, uid);
    }
    assert forall|at: int|
        0 <= at < deltas@.len() && (#[trigger] deltas@[at]).0 == uid && (forall|j: int|
            0 <= j < deltas@.len() && j != at ==> (#[trigger] deltas@[j]).0 != uid)
            && !vanished@.contains(uid) && contents.entries.contains_key(
            uid,
        ) implies flagged.entries[uid].seen == deltas@[at].1.seen && flagged.entries[uid].answered
        == deltas@[at].1.answered && flagged.entries[uid].flagged == deltas@[at].1.flagged
        && flagged.entries[uid].draft == deltas@[at].1.draft && flagged.entries[uid].deleted
        == deltas@[at].1.deleted && flagged.entries[uid].passed == contents.entries[uid].passed by {
        plan::flags_are_taken_over(contents, deltas@, at);
    }
}

/// After a listing, a message that is held and that it names once has the server's flags in
/// every field, and its own mark of having been passed on. One that is held and not named
/// is to be dropped, and is once the cycle ends, unless the listing names nothing at all.
/// One that is named and not held is to be fetched.
pub proof fn a_listing_is_taken_over(
    p: Progress,
    contents: Contents,
    listing: Vec<(u32, Flags)>,
    uid: u32,
)
    requires
        p.stage == Stage::Listing,
    ensures
        p.advanced(contents, Event::Listing(listing)) is Some,
        ({
            let m = p.advanced(contents, Event::Listing(listing))->0;
            let named = exists|j: int| 0 <= j < listing@.len() && (#[trigger] listing@[j]).0 == uid;
            &&& forall|at: int|
                0 <= at < listing@.len() && (#[trigger] listing@[at]).0 == uid && (forall|j: int|
                    0 <= j < listing@.len() && j != at ==> (#[trigger] listing@[j]).0 != uid)
                    && contents.entries.contains_key(uid) ==> m.contents.entries.contains_key(uid)
                    && m.contents.entries[uid].seen == listing@[at].1.seen
                    && m.contents.entries[uid].answered == listing@[at].1.answered
                    && m.contents.entries[uid].flagged == listing@[at].1.flagged
                    && m.contents.entries[uid].draft == listing@[at].1.draft
                    && m.contents.entries[uid].deleted == listing@[at].1.deleted
                    && m.contents.entries[uid].passed == contents.entries[uid].passed
            &&& named || listing@.len() == 0 ==> m.contents.raws.contains_key(uid)
                == contents.raws.contains_key(uid) && (m.contents.raws.contains_key(uid)
                ==> m.contents.raws[uid] == contents.raws[uid])
            &&& listing@.len() == 0 ==> m.contents.entries.contains_key(uid)
                == contents.entries.contains_key(uid) && m.contents.entries[uid]
                == contents.entries[uid]
            &&& m.cycle.left.contains(uid) <==> named && !contents.entries.contains_key(uid)
            &&& m.action is Fetch || m.action is Done
            &&& m.cycle.removals.contains(uid) <==> contents.entries.contains_key(uid) && !named
                && listing@.len() > 0
            &&& m.action is Done ==> m.cycle.left.len() == 0 && m.contents.entries.contains_key(uid)
                == (contents.entries.contains_key(uid) && (named || listing@.len() == 0))
        }),
{
    let updates = sorted(reflagged(listing@, contents.entries));
    let flagged = contents.with_all_flags(updates);
    let dropped = removals(listing@, contents.entries);
    plan::what_is_dropped(listing@, contents.entries, uid);
    plan::what_is_missing(listing@, contents.entries, uid);
    crate::store::what_flag_updates_leave(contents, updates, uid);
    crate::store::what_removals_leave(flagged, dropped, uid);
    if listing@.len() == 0 {
        plan::unmentioned_flags_stay(contents, listing@, uid);
        assert(dropped.len() == 0) by {
            if dropped.len() > 0 {
                plan::what_is_dropped(listing@, contents.entries, dropped[0]);
                assert(dropped.contains(dropped[0]));
            }
        }
    }
    assert forall|at: int|
        0 <= at < listing@.len() && (#[trigger] listing@[at]).0 == uid && (forall|j: int|
            0 <= j < listing@.len() && j != at ==> (#[trigger] listing@[j]).0 != uid)
            && contents.entries.contains_key(uid) implies flagged.entries[uid].seen
        == listing@[at].1.seen && flagged.entries[uid].answered == listing@[at].1.answered
        && flagged.entries[uid].flagged == listing@[at].1.flagged && flagged.entries[uid].draft
        == listing@[at].1.draft && flagged.entries[uid].deleted == listing@[at].1.deleted
        && flagged.entries[uid].passed == contents.entries[uid].passed by {
        plan::flags_are_taken_over(contents, listing@, at);
    }
}

/// What a search found that is above the cursor and not held is asked for, in ascending
/// order, each once; nothing else is. As long as anything is left to ask for, the next
/// thing to do is to fetch the first of it.
pub proof fn what_is_new_is_asked_for(p: Progress, contents: Contents, uids: Vec<u32>, uid: u32)
    requires
        p.stage == Stage::Searching,
    ensures
        p.advanced(contents, Event::Found(uids)) is Some,
        ({
            let m = p.advanced(contents, Event::Found(uids))->0;
            &&& m.cycle.left.contains(uid) <==> uids@.contains(uid) && uid
                > contents.cursor.last_uid && !contents.entries.contains_key(uid)
            &&& strictly_ascending(m.cycle.left)
            &&& m.cycle.left.len() > 0 ==> (m.action matches Act::Fetch(asked) && 0 < asked.len()
                <= m.cycle.left.len() && asked == m.cycle.left.take(asked.len() as int))
            &&& m.contents.entries == contents.entries
            &&& m.contents.raws == contents.raws
        }),
{
    plan::what_is_fetched(uids@, contents.cursor.last_uid, contents.entries);
    let left = fetch_plan(uids@, contents.cursor.last_uid, contents.entries);
    assert(batch(left) =~= left.take(batch(left).len() as int));
}

/// Every message of a batch that arrived is held, with its flags and its bytes; what was
/// not among them is as it was. What was asked for is not asked for again, and the cursor
/// has passed everything that arrived and everything that was asked for.
pub proof fn a_batch_is_stored(
    p: Progress,
    contents: Contents,
    messages: Vec<RemoteMessage>,
    uid: u32,
)
    requires
        p.stage == Stage::Fetching,
    ensures
        p.advanced(contents, Event::Messages(messages)) is Some,
        ({
            let m = p.advanced(contents, Event::Messages(messages))->0;
            let asked = if p.left.len() <= FETCH_BATCH {
                p.left.len() as int
            } else {
                FETCH_BATCH as int
            };
            &&& forall|k: int|
                0 <= k < messages@.len() && (#[trigger] messages@[k]).uid == uid && (forall|j: int|
                    k < j < messages@.len() ==> (#[trigger] messages@[j]).uid != uid)
                    ==> m.contents.entries.contains_key(uid) && m.contents.entries[uid]
                    == messages@[k].flags && m.contents.raws.contains_key(uid)
                    && m.contents.raws[uid] == messages@[k].raw@
            &&& (forall|k: int| 0 <= k < messages@.len() ==> (#[trigger] messages@[k]).uid != uid)
                ==> m.contents.entries.contains_key(uid) == contents.entries.contains_key(uid)
                && m.contents.entries[uid] == contents.entries[uid]
            &&& m.cycle.left == p.left.skip(asked)
            &&& forall|k: int|
                0 <= k < messages@.len() ==> m.cycle.cursor.last_uid >= (
                #[trigger] messages@[k]).uid
            &&& forall|k: int|
                0 <= k < asked ==> m.cycle.cursor.last_uid >= #[trigger] p.left[k]
            &&& m.cycle.cursor.last_uid >= p.cursor.last_uid
        }),
{
    crate::store::what_deliveries_leave(contents, messages@, uid);
    let first = highest(p.cursor.last_uid, uids_of(messages@));
    lemma_highest_reaches(p.cursor.last_uid, uids_of(messages@));
    lemma_highest_reaches(first, batch(p.left));
    assert forall|k: int| 0 <= k < messages@.len() implies first >= (#[trigger] messages@[k]).uid by {
        assert(uids_of(messages@)[k] == messages@[k].uid);
    }
    let upto = highest(first, batch(p.left));
    assert forall|k: int| 0 <= k < batch(p.left).len() implies upto >= #[trigger] p.left[k] by {
        assert(batch(p.left)[k] == p.left[k]);
    }
}

proof fn lemma_highest_reaches(start: u32, uids: Seq<u32>)
    ensures
        highest(start, uids) >= start,
        forall|k: int| 0 <= k < uids.len() ==> highest(start, uids) >= #[trigger] uids[k],
    decreases uids.len(),
{
    if uids.len() > 0 {
        let t = uids.drop_last();
        lemma_highest_reaches(start, t);
        assert forall|k: int| 0 <= k < uids.len() implies highest(start, uids) >= #[trigger] uids[k] by {
            if k < t.len() {
                assert(t[k] == uids[k]);
            }
        }
    }
}

/// With everything fetched again that had to be, every message that was to be dropped is
/// gone and no other is, and the cycle ends there and only there.
pub proof fn a_refetch_ends_in_the_removals(
    p: Progress,
    contents: Contents,
    messages: Vec<RemoteMessage>,
    uid: u32,
)
    requires
        p.stage == Stage::Refetching,
    ensures
        p.advanced(contents, Event::Messages(messages)) is Some,
        ({
            let m = p.advanced(contents, Event::Messages(messages))->0;
            &&& m.action is Done <==> p.left.len() <= FETCH_BATCH
            &&& m.action is Done && p.removals.contains(uid) ==> !m.contents.entries.contains_key(
                uid,
            ) && !m.contents.raws.contains_key(uid)
            &&& !(m.action is Done && p.removals.contains(uid)) ==> forall|k: int|
                0 <= k < messages@.len() && (#[trigger] messages@[k]).uid == uid && (forall|j: int|
                    k < j < messages@.len() ==> (#[trigger] messages@[j]).uid != uid)
                    ==> m.contents.entries.contains_key(uid) && m.contents.entries[uid]
                    == messages@[k].flags && m.contents.raws.contains_key(uid)
                    && m.contents.raws[uid] == messages@[k].raw@
            &&& !(m.action is Done && p.removals.contains(uid)) && (forall|k: int|
                0 <= k < messages@.len() ==> (#[trigger] messages@[k]).uid != uid)
                ==> m.contents.entries.contains_key(uid) == contents.entries.contains_key(uid) && (
            m.contents.entries.contains_key(uid) ==> m.contents.entries[uid]
                == contents.entries[uid])
        }),
{
    crate::store::what_deliveries_leave(contents, messages@, uid);
    crate::store::what_removals_leave(contents.with_messages(messages@), p.removals, uid);
}

/// What a drain moved or deleted leaves the store at once, and nothing else does.
pub proof fn a_departure_leaves_the_store(
    p: Progress,
    contents: Contents,
    pushed: DrainOutcome,
    uid: u32,
)
    requires
        p.stage == Stage::Pushing,
    ensures
        p.advanced(contents, Event::Drained(pushed)) is Some,
        ({
            let m = p.advanced(contents, Event::Drained(pushed))->0;
            &&& m.contents.entries.contains_key(uid) <==> contents.entries.contains_key(uid)
                && !pushed.departed@.contains(uid)
            &&& m.contents.entries.contains_key(uid) ==> m.contents.entries[uid]
                == contents.entries[uid]
            &&& m.contents.raws.contains_key(uid) <==> contents.raws.contains_key(uid)
                && !pushed.departed@.contains(uid)
            &&& p.cursor.last_uid > 0 || p.selected.exists > 0 ==> m.action is Search
        }),
{
    crate::store::what_removals_leave(contents, pushed.departed@, uid);
}

/// A mailbox that was renumbered starts empty; any other keeps what it holds and goes on
/// from its cursor.
pub proof fn a_renumbered_mailbox_starts_over(
    selected: Selected,
    options: SyncOptions,
    contents: Contents,
    now: u32,
)
    requires
        selected.uid_validity == Some(now),
    ensures
        ({
            let (p, held) = opened(selected, options, contents);
            let renumbered = contents.cursor.uid_validity != 0 && contents.cursor.uid_validity
                != now;
            &&& p.outcome.renumbered == renumbered
            &&& p.cursor.uid_validity == now
            &&& !renumbered ==> held == contents && p.cursor.last_uid == contents.cursor.last_uid
                && p.cursor.highest_modseq == contents.cursor.highest_modseq
            &&& renumbered ==> p.cursor.last_uid == 0 && p.cursor.highest_modseq == 0 && (forall|
                uid: u32,
            |
                !held.entries.contains_key(uid) && !held.raws.contains_key(uid))
        }),
{
}

// ---- a mailbox in memory ----

/// A [`MailStore`] and a [`PushQueue`] over memory.
#[derive(Debug)]
pub struct MemoryMailbox {
    pub store: MemoryStore,
    pub queue: MemoryQueue,
}

impl Default for MemoryMailbox {
    fn default() -> (r: Self)
        ensures
            r.contents() == Contents::renumbered(0),
            r.queue() == Seq::<Pending>::empty(),
    {
        MemoryMailbox { store: MemoryStore::default(), queue: MemoryQueue::default() }
    }
}

impl MailStore for MemoryMailbox {
    open spec fn contents(&self) -> Contents {
        self.store.contents()
    }

    open spec fn dependable(&self) -> bool {
        true
    }

    fn state(&self) -> (r: Result<MailboxState>) {
        self.store.state()
    }

    fn upsert(&mut self, message: &RemoteMessage) -> (r: Result<()>)
        ensures
            final(self).queue == old(self).queue,
    {
        self.store.upsert(message)
    }

    fn set_flags(&mut self, uid: u32, flags: Flags) -> (r: Result<()>)
        ensures
            final(self).queue == old(self).queue,
    {
        self.store.set_flags(uid, flags)
    }

    fn remove(&mut self, uid: u32) -> (r: Result<()>)
        ensures
            final(self).queue == old(self).queue,
    {
        self.store.remove(uid)
    }

    fn raw(&self, uid: u32) -> (r: Result<Option<Vec<u8>>>) {
        self.store.raw(uid)
    }

    fn commit_cursor(&mut self, cursor: Cursor) -> (r: Result<()>)
        ensures
            final(self).queue == old(self).queue,
    {
        self.store.commit_cursor(cursor)
    }

    /// What was queued names UIDs that are void now.
    fn reset(&mut self, uid_validity: u32) -> (r: Result<()>)
        ensures
            final(self).queue.entries@ == Seq::<PendingPush>::empty(),
    {
        self.queue = MemoryQueue::default();
        self.store.reset(uid_validity)
    }
}

impl PushQueue for MemoryMailbox {
    open spec fn queue(&self) -> Seq<Pending> {
        self.queue.queue()
    }

    fn pending(&self) -> (r: Vec<PendingPush>) {
        self.queue.pending()
    }

    fn enqueue(&mut self, op: PushOp) -> (r: Result<()>)
        ensures
            final(self).store == old(self).store,
    {
        self.queue.enqueue(op)
    }

    fn resolve(&mut self, uid: u32) -> (r: Result<()>)
        ensures
            final(self).store == old(self).store,
    {
        self.queue.resolve(uid)
    }

    fn defer(&mut self, uid: u32, failure: Failure, error: &str, next_attempt_ms: i64) -> (r:
        Result<()>)
        ensures
            final(self).store == old(self).store,
    {
        self.queue.defer(uid, failure, error, next_attempt_ms)
    }
}

impl QueuedMailbox for MemoryMailbox {
    fn start_over(&mut self, uid_validity: u32) -> (r: Result<()>) {
        let r: Result<()> = self.reset(uid_validity);
        assert(self.queue() =~= Seq::<Pending>::empty());
        r
    }
}

/// What a mailbox is searched for: what lies above the last UID held; in a mailbox that was
/// never read, what came since the cutoff, and everything where there is none.
pub proof fn what_a_mailbox_is_searched_for(last_uid: u32, since_ms: Option<i64>)
    ensures
        last_uid > 0 ==> criteria(last_uid, since_ms) == "UID "@ + dec((last_uid + 1) as nat)
            + ":* NOT DELETED"@,
        last_uid == 0 && since_ms is None ==> criteria(last_uid, since_ms) == "NOT DELETED"@,
        last_uid == 0 && since_ms is Some ==> (match utc_date(since_ms->0 as int) {
            Some(date) => criteria(last_uid, since_ms) == "SINCE "@ + dashed(date)
                + " NOT DELETED"@,
            None => criteria(last_uid, since_ms) == "NOT DELETED"@,
        }),
{
}

/// Every number of a set is on the wire, in its order, with one comma between two.
pub proof fn every_uid_is_on_the_wire(a: Seq<u32>, b: Seq<u32>)
    requires
        a.len() > 0,
        b.len() > 0,
    ensures
        uid_list(a + b) == uid_list(a) + ","@ + uid_list(b),
        a.len() == 1 ==> uid_list(a) == dec(a[0] as nat),
    decreases b.len(),
{
    let all = a + b;
    assert(all.drop_last() =~= a + b.drop_last());
    assert(all.last() == b.last());
    if b.len() == 1 {
        assert(a + b.drop_last() =~= a);
    } else {
        every_uid_is_on_the_wire(a, b.drop_last());
        assert(uid_list(all) =~= uid_list(a) + ","@ + uid_list(b));
    }
}

/// A filed copy is always read, and keeps its star and its being a draft.
pub proof fn what_a_filed_copy_carries(flags: Flags)
    ensures
        filed_flags(flags).contains(ImapFlag::Seen),
        filed_flags(flags).contains(ImapFlag::Flagged) <==> flags.flagged,
        filed_flags(flags).contains(ImapFlag::Draft) <==> flags.draft,
        !filed_flags(flags).contains(ImapFlag::Deleted),
        !filed_flags(flags).contains(ImapFlag::Answered),
{
    let f = filed_flags(flags);
    assert(f[0] == ImapFlag::Seen);
    if flags.flagged {
        assert(f[1] == ImapFlag::Flagged);
    }
    if flags.draft {
        assert(f[f.len() - 1] == ImapFlag::Draft);
    }
}

/// The highest of some numbers is none below any of them, and is one of them.
pub proof fn the_highest_is_the_highest(start: u32, uids: Seq<u32>)
    ensures
        highest(start, uids) >= start,
        forall|i: int| 0 <= i < uids.len() ==> #[trigger] uids[i] <= highest(start, uids),
        highest(start, uids) == start || uids.contains(highest(start, uids)),
    decreases uids.len(),
{
    if uids.len() > 0 {
        let rest = uids.drop_last();
        the_highest_is_the_highest(start, rest);
        let h = highest(start, rest);
        assert forall|i: int| 0 <= i < uids.len() implies #[trigger] uids[i] <= highest(
            start,
            uids,
        ) by {
            if i < rest.len() {
                assert(rest[i] == uids[i]);
            }
        }
        if uids.last() > h {
            assert(uids[uids.len() - 1] == highest(start, uids));
        } else if h != start {
            let k = choose|k: int| 0 <= k < rest.len() && rest[k] == h;
            assert(uids[k] == h);
        }
    }
}

/// Once nothing new is left, flags are asked for where the server counts changes and has
/// counted any since; where it was asked to, the cycle then lists the mailbox; and it ends
/// with the cursor put down.
pub proof fn what_comes_after_the_fetching(p: Progress, contents: Contents)
    requires
        p.left.len() == 0,
    ensures
        ({
            let m = p.fetch_next(contents);
            let server = match p.selected.highest_mod_seq {
                Some(n) => n,
                None => 0,
            };
            let behind = p.selected.condstore && p.cursor.highest_modseq > 0 && server
                > p.cursor.highest_modseq;
            &&& behind ==> m.action == Act::Window(
                "(FLAGS) (CHANGEDSINCE "@ + dec(p.cursor.highest_modseq as nat) + (
                if p.selected.qresync {
                    " VANISHED)"@
                } else {
                    ")"@
                }),
            )
            &&& !behind && p.options.reconcile ==> m.action is List
            &&& !behind && !p.options.reconcile ==> m.action == Act::Done(p.outcome)
                && m.contents.cursor.last_uid == p.cursor.last_uid && m.contents.cursor.uid_validity
                == p.cursor.uid_validity && m.contents.cursor.highest_modseq == (if server > 0 {
                server
            } else {
                p.cursor.highest_modseq
            })
            &&& m.contents.raws == contents.raws && m.contents.entries == contents.entries
        }),
{
}

/// While something is left to fetch, the next fetch is for the first of it, as much as goes
/// into one.
pub proof fn what_is_fetched_next(p: Progress, contents: Contents)
    requires
        p.left.len() > 0,
    ensures
        p.fetch_next(contents).action is Fetch,
        ({
            let asked = p.fetch_next(contents).action->Fetch_0;
            asked.len() > 0 && asked.is_prefix_of(p.left) && (asked.len() == p.left.len()
                || asked.len() == 50)
        }),
        p.fetch_next(contents).contents == contents,
{
    let asked = batch(p.left);
    assert(asked =~= p.left.take(asked.len() as int));
}

} // verus!
