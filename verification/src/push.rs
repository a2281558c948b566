//! Durable writeback: flag changes, moves, and deletions that must reach the
//! server or keep trying.
//!
//! A failure is classified before it is scheduled. [`Failure::Retry`] backs off
//! and tries again; [`Failure::Reconcile`] is handed to a sync pass;
//! [`Failure::User`] surfaces, and stops.

use vstd::prelude::*;

use crate::backoff::{delay, delay_ms};
use crate::chars::{contains, contains_text, lower_of, lowered, opt_text, to_chars};
use crate::error::{Error, Result};
use crate::model::{copy_option, Flags};

verus! {

/// First retry delay. Doubles per attempt up to [`MAX_DELAY_MS`].
pub const BASE_DELAY_MS: i64 = 15_000;

pub const MAX_DELAY_MS: i64 = 3_600_000;

/// Exponential backoff, clamped so that it cannot overflow.
#[must_use]
pub fn retry_delay_ms(attempts: u32) -> (r: i64)
    ensures
        r == delay(BASE_DELAY_MS as int, MAX_DELAY_MS as int, attempts as nat),
{
    delay_ms(BASE_DELAY_MS, MAX_DELAY_MS, attempts)
}

/// What a queued operation does when it runs.
#[derive(Debug, PartialEq, Eq)]
pub enum PushOp {
    /// Set this message's system flags to exactly these.
    ///
    /// Absolute rather than a delta: a queue that accumulated deltas would
    /// replay them in an order that depends on when the network came back.
    SetFlags { uid: u32, flags: Flags },
    /// Move a message to another mailbox.
    Move { uid: u32, destination: String },
    /// Mark `\Deleted` and expunge. This one does not come back.
    Delete { uid: u32 },
}

/// An operation, as contracts speak of it.
pub enum Op {
    SetFlags { uid: u32, flags: Flags },
    Move { uid: u32, destination: Seq<char> },
    Delete { uid: u32 },
}

impl Op {
    pub open spec fn uid(self) -> u32 {
        match self {
            Op::SetFlags { uid, .. } => uid,
            Op::Move { uid, .. } => uid,
            Op::Delete { uid } => uid,
        }
    }

    /// Whether the message leaves the mailbox when this succeeds.
    pub open spec fn departs(self) -> bool {
        self is Move || self is Delete
    }
}

impl PushOp {
    pub open spec fn view(&self) -> Op {
        match self {
            PushOp::SetFlags { uid, flags } => Op::SetFlags { uid: *uid, flags: *flags },
            PushOp::Move { uid, destination } => Op::Move {
                uid: *uid,
                destination: destination@,
            },
            PushOp::Delete { uid } => Op::Delete { uid: *uid },
        }
    }

    #[must_use]
    pub fn uid(&self) -> (r: u32)
        ensures
            r == self@.uid(),
    {
        match self {
            PushOp::SetFlags { uid, .. } => *uid,
            PushOp::Move { uid, .. } => *uid,
            PushOp::Delete { uid } => *uid,
        }
    }

    /// Whether the message leaves the mailbox when this succeeds.
    pub fn departs(&self) -> (r: bool)
        ensures
            r == self@.departs(),
    {
        match self {
            PushOp::SetFlags { .. } => false,
            _ => true,
        }
    }
}

impl Clone for PushOp {
    fn clone(&self) -> (r: Self)
        ensures
            r == *self,
    {
        match self {
            PushOp::SetFlags { uid, flags } => PushOp::SetFlags { uid: *uid, flags: *flags },
            PushOp::Move { uid, destination } => PushOp::Move {
                uid: *uid,
                destination: destination.clone(),
            },
            PushOp::Delete { uid } => PushOp::Delete { uid: *uid },
        }
    }
}

/// How a failed attempt should be treated.
#[derive(Debug, Clone, Copy, PartialEq, Eq, Structural)]
pub enum Failure {
    /// Transient. Back off and try again.
    Retry,
    /// The queue cannot fix this, but a sync pass can. Hand it to one.
    Reconcile,
    /// Nothing automatic will help. Tell the user.
    User,
}

/// The response codes of RFC 5530 that mean the message or the mailbox is no
/// longer what the queue thinks it is.
pub open spec fn stale_response(message: Seq<char>) -> bool {
    let l = lowered(message);
    ||| contains(l, "[uidvalidity"@)
    ||| contains(l, "[expunged]"@)
    ||| contains(l, "[nonexistent]"@)
    ||| contains(l, "[trycreate]"@)
}

impl Failure {
    pub open spec fn class(error: Error) -> Failure {
        match error {
            Error::UidValidityChanged { .. } => Failure::Reconcile,
            Error::Auth(_) => Failure::User,
            Error::Imap(message) => if error.transient() {
                Failure::Retry
            } else if stale_response(message@) {
                Failure::Reconcile
            } else {
                Failure::User
            },
            _ => if error.transient() {
                Failure::Retry
            } else {
                Failure::User
            },
        }
    }

    /// Classifies a failed push.
    #[must_use]
    pub fn of(error: &Error) -> (r: Self)
        ensures
            r == Failure::class(*error),
    {
        match error {
            Error::UidValidityChanged { .. } => Failure::Reconcile,
            Error::Auth(_) => Failure::User,
            Error::Imap(message) => if error.is_transient() {
                Failure::Retry
            } else {
                classify_response(message)
            },
            _ => if error.is_transient() {
                Failure::Retry
            } else {
                Failure::User
            },
        }
    }
}

/// Reads the response codes RFC 5530 defines.
///
/// Everything else — a refusal by name, or bare text from a server that
/// predates the codes — stops and shows the user the server's own words.
pub fn classify_response(message: &str) -> (r: Failure)
    ensures
        r == (if stale_response(message@) {
            Failure::Reconcile
        } else {
            Failure::User
        }),
{
    let m: Vec<char> = to_chars(message);
    let l: Vec<char> = lower_of(&m);
    if contains_text(&l, "[uidvalidity") || contains_text(&l, "[expunged]") || contains_text(
        &l,
        "[nonexistent]",
    ) || contains_text(&l, "[trycreate]") {
        Failure::Reconcile
    } else {
        Failure::User
    }
}

/// A queued operation and its retry state.
#[derive(Debug, PartialEq, Eq)]
pub struct PendingPush {
    pub op: PushOp,
    pub attempts: u32,
    /// Epoch milliseconds before which this must not be retried.
    pub next_attempt_ms: i64,
    /// Why the last attempt failed, for the UI to show.
    pub last_error: Option<String>,
    /// Set when the operation stopped being retryable. An entry with this set
    /// is inert: it is kept so the reason survives a restart and can be shown.
    pub blocked: Option<Failure>,
}

/// A queue entry, as contracts speak of it.
#[verifier::ext_equal]
pub struct Pending {
    pub op: Op,
    pub attempts: u32,
    pub next_attempt_ms: i64,
    pub last_error: Option<Seq<char>>,
    pub blocked: Option<Failure>,
}

impl Pending {
    pub open spec fn live(self) -> bool {
        self.blocked is None
    }

    pub open spec fn due(self, now_ms: i64) -> bool {
        self.live() && self.next_attempt_ms <= now_ms
    }

    /// An entry as it first enters the queue.
    pub open spec fn fresh(op: Op) -> Pending {
        Pending { op, attempts: 0, next_attempt_ms: 0, last_error: None, blocked: None }
    }

    /// The entry after a failure.
    pub open spec fn after_failure(self, failure: Failure, error: Seq<char>, next: i64) -> Pending {
        match failure {
            Failure::Retry => Pending {
                attempts: if self.attempts < u32::MAX {
                    (self.attempts + 1) as u32
                } else {
                    u32::MAX
                },
                next_attempt_ms: next,
                last_error: Some(error),
                blocked: None,
                ..self
            },
            _ => Pending { last_error: Some(error), blocked: Some(failure), ..self },
        }
    }
}

impl PendingPush {
    pub open spec fn view(&self) -> Pending {
        Pending {
            op: self.op@,
            attempts: self.attempts,
            next_attempt_ms: self.next_attempt_ms,
            last_error: opt_text(self.last_error),
            blocked: self.blocked,
        }
    }

    /// Is this entry still going to be attempted?
    #[must_use]
    pub fn is_live(&self) -> (r: bool)
        ensures
            r == self@.live(),
    {
        self.blocked.is_none()
    }
}

impl Clone for PendingPush {
    fn clone(&self) -> (r: Self)
        ensures
            r == *self,
    {
        PendingPush {
            op: self.op.clone(),
            attempts: self.attempts,
            next_attempt_ms: self.next_attempt_ms,
            last_error: copy_option(&self.last_error),
            blocked: self.blocked,
        }
    }
}

/// The views of a list of entries.
pub open spec fn entries_of(v: Seq<PendingPush>) -> Seq<Pending> {
    v.map_values(|p: PendingPush| p@)
}

/// The place of the first entry for `uid`, or the length.
pub open spec fn place_of(q: Seq<Pending>, uid: u32) -> int
    decreases q.len(),
{
    if q.len() == 0 || q[0].op.uid() == uid {
        0
    } else {
        1 + place_of(q.skip(1), uid)
    }
}

/// A queue after an operation has been added to it.
///
/// An operation for a UID that is already queued replaces that entry and makes
/// it due again, except that flags never cancel a departure.
pub open spec fn enqueued(q: Seq<Pending>, op: Op) -> Seq<Pending> {
    let i = place_of(q, op.uid());
    if i >= q.len() {
        q.push(Pending::fresh(op))
    } else if op is SetFlags && q[i].op.departs() {
        q
    } else {
        q.update(i, Pending::fresh(op))
    }
}

/// A queue without the entries for `uid`.
pub open spec fn resolved(q: Seq<Pending>, uid: u32) -> Seq<Pending> {
    q.filter(|p: Pending| p.op.uid() != uid)
}

/// A queue after the first entry for `uid` failed.
pub open spec fn deferred(
    q: Seq<Pending>,
    uid: u32,
    failure: Failure,
    error: Seq<char>,
    next: i64,
) -> Seq<Pending> {
    let i = place_of(q, uid);
    if i >= q.len() {
        q
    } else {
        q.update(i, q[i].after_failure(failure, error, next))
    }
}

/// The queue operations a store must support for writeback to work.
///
/// The list changes even where it could not be written down: an error from
/// these says that the change will not survive a restart, not that it was not
/// made.
pub trait PushQueue {
    closed spec fn queue(&self) -> Seq<Pending> {
        Seq::empty()
    }

    fn pending(&self) -> (r: Vec<PendingPush>)
        ensures
            entries_of(r@) == self.queue(),
    ;

    /// Adds an operation, or replaces an existing one for the same UID and
    /// resets it to "due now".
    fn enqueue(&mut self, op: PushOp) -> (r: Result<()>)
        ensures
            final(self).queue() == enqueued(old(self).queue(), op@),
    ;

    /// Drops the entry for `uid` — it succeeded.
    fn resolve(&mut self, uid: u32) -> (r: Result<()>)
        ensures
            final(self).queue() == resolved(old(self).queue(), uid),
    ;

    /// Records a failure and reschedules, or blocks the entry.
    fn defer(&mut self, uid: u32, failure: Failure, error: &str, next_attempt_ms: i64) -> (r:
        Result<()>)
        ensures
            final(self).queue() == deferred(
                old(self).queue(),
                uid,
                failure,
                error@,
                next_attempt_ms,
            ),
    ;
}

/// What clearing `\Seen` comes to, given the flags the server reported.
#[derive(Debug, Clone, Copy, PartialEq, Eq, Structural)]
pub enum UnreadStep {
    /// The flags could not be read back, so nothing is written.
    Unknown,
    /// Already unread: no round trip.
    Already,
    /// Write exactly these.
    Write(Flags),
}

/// Decides how to clear `\Seen` without disturbing anything else.
pub fn unread_step(current: Option<Flags>) -> (r: UnreadStep)
    ensures
        r == (match current {
            None => UnreadStep::Unknown,
            Some(flags) => if flags.seen {
                UnreadStep::Write(Flags { seen: false, ..flags })
            } else {
                UnreadStep::Already
            },
        }),
{
    match current {
        None => UnreadStep::Unknown,
        Some(flags) => if flags.seen {
            UnreadStep::Write(Flags { seen: false, ..flags })
        } else {
            UnreadStep::Already
        },
    }
}

/// A server that has nothing to say of a message's flags.
pub open spec fn nothing_said() -> Result<Option<Flags>> {
    Ok(None)
}

/// What was said of a message's flags between two moments at most one reading
/// apart.
pub open spec fn said_since(
    before: Seq<(u32, Result<Option<Flags>>)>,
    after: Seq<(u32, Result<Option<Flags>>)>,
) -> Result<Option<Flags>> {
    if after == before {
        nothing_said()
    } else {
        after.last().1
    }
}

/// Do these flags have to be written again to clear `\Seen`?
pub open spec fn calls_for_a_write(said: Result<Option<Flags>>) -> bool {
    said matches Ok(Some(flags)) && flags.seen
}

/// Whether a message is now unread, by what was said of its flags and, where
/// they had to be written, by how that went.
pub open spec fn unread_answer(said: Result<Option<Flags>>, reply: Result<()>) -> Result<bool> {
    match said {
        Err(why) => Err(why),
        Ok(None) => Ok(false),
        Ok(Some(flags)) => if !flags.seen {
            Ok(true)
        } else {
            match reply {
                Ok(()) => Ok(true),
                Err(why) => Err(why),
            }
        },
    }
}

/// What [`drain`] needs from a server connection.
pub trait Writeback {
    /// The changes this server has been asked to make so far.
    closed spec fn asked(&self) -> Seq<Op> {
        Seq::empty()
    }

    /// How each of those changes went, in the same order.
    closed spec fn replies(&self) -> Seq<Result<()>> {
        Seq::empty()
    }

    /// What this server has said of the flags of a message so far, or why it
    /// could not. Where it has nothing to say of one, nothing is added.
    closed spec fn readings(&self) -> Seq<(u32, Result<Option<Flags>>)> {
        Seq::empty()
    }

    fn store_flags(&mut self, uid: u32, flags: Flags) -> (r: Result<()>)
        ensures
            final(self).asked() == old(self).asked().push(Op::SetFlags { uid, flags }),
            final(self).replies() == old(self).replies().push(r),
            final(self).readings() == old(self).readings(),
    ;

    fn move_message(&mut self, uid: u32, destination: &str) -> (r: Result<()>)
        ensures
            final(self).asked() == old(self).asked().push(
                Op::Move { uid, destination: destination@ },
            ),
            final(self).replies() == old(self).replies().push(r),
            final(self).readings() == old(self).readings(),
    ;

    fn delete_message(&mut self, uid: u32) -> (r: Result<()>)
        ensures
            final(self).asked() == old(self).asked().push(Op::Delete { uid }),
            final(self).replies() == old(self).replies().push(r),
            final(self).readings() == old(self).readings(),
    ;

    /// The flags the server currently holds for one message, where the backend
    /// can answer that.
    fn flags_for(&mut self, _uid: u32) -> (r: Result<Option<Flags>>)
        ensures
            final(self).asked() == old(self).asked(),
            final(self).replies() == old(self).replies(),
            final(self).readings() == (if r == nothing_said() {
                old(self).readings()
            } else {
                old(self).readings().push((_uid, r))
            }),
    {
        Ok(None)
    }

    /// Clears `\Seen` and disturbs nothing else.
    ///
    /// Returns whether the message is now unread. `false` means the flags could
    /// not be read back and nothing was written: a blind write would trade an
    /// invisible message for a silently lost star.
    fn mark_unread(&mut self, uid: u32) -> (r: Result<bool>)
        ensures
            ({
                let said = said_since(old(self).readings(), final(self).readings());
                let reply = final(self).replies().last();
                &&& final(self).readings() == (if said == nothing_said() {
                    old(self).readings()
                } else {
                    old(self).readings().push((uid, said))
                })
                &&& final(self).asked() == (if calls_for_a_write(said) {
                    old(self).asked().push(
                        Op::SetFlags { uid, flags: Flags { seen: false, ..said->Ok_0->0 } },
                    )
                } else {
                    old(self).asked()
                })
                &&& final(self).replies() == (if calls_for_a_write(said) {
                    old(self).replies().push(reply)
                } else {
                    old(self).replies()
                })
                &&& r == unread_answer(said, reply)
            }),
    {
        let current = match self.flags_for(uid) {
            Ok(current) => current,
            Err(why) => return Err(why),
        };
        match unread_step(current) {
            UnreadStep::Unknown => Ok(false),
            UnreadStep::Already => Ok(true),
            UnreadStep::Write(flags) => match self.store_flags(uid, flags) {
                Ok(()) => Ok(true),
                Err(why) => Err(why),
            },
        }
    }
}

/// What one drain did.
#[derive(Debug, Clone, PartialEq, Eq)]
pub struct DrainOutcome {
    pub succeeded: usize,
    /// UIDs whose Move or Delete reached the server this drain. The caller
    /// removes these from its store directly.
    pub departed: Vec<u32>,
    /// Failed transiently and rescheduled.
    pub deferred: usize,
    /// Failed in a way a sync pass has to resolve.
    pub needs_reconcile: usize,
    /// Failed in a way only the user can resolve.
    pub needs_user: usize,
    /// Not yet due under backoff, or already blocked.
    pub skipped: usize,
}

/// A drain's outcome, as contracts speak of it.
#[verifier::ext_equal]
pub struct Tally {
    pub succeeded: int,
    pub departed: Seq<u32>,
    pub deferred: int,
    pub needs_reconcile: int,
    pub needs_user: int,
    pub skipped: int,
}

impl Tally {
    pub open spec fn empty() -> Tally {
        Tally {
            succeeded: 0,
            departed: Seq::empty(),
            deferred: 0,
            needs_reconcile: 0,
            needs_user: 0,
            skipped: 0,
        }
    }

    pub open spec fn stuck(self) -> bool {
        self.needs_reconcile > 0 || self.needs_user > 0
    }
}

impl DrainOutcome {
    pub open spec fn view(&self) -> Tally {
        Tally {
            succeeded: self.succeeded as int,
            departed: self.departed@,
            deferred: self.deferred as int,
            needs_reconcile: self.needs_reconcile as int,
            needs_user: self.needs_user as int,
            skipped: self.skipped as int,
        }
    }

    /// Is there anything left that will never move on its own?
    #[must_use]
    pub fn is_stuck(&self) -> (r: bool)
        ensures
            r == self@.stuck(),
    {
        self.needs_reconcile > 0 || self.needs_user > 0
    }
}

impl Default for DrainOutcome {
    fn default() -> (r: Self)
        ensures
            r@ == Tally::empty(),
    {
        let r = DrainOutcome {
            succeeded: 0,
            departed: Vec::new(),
            deferred: 0,
            needs_reconcile: 0,
            needs_user: 0,
            skipped: 0,
        };
        assert(r@ =~= Tally::empty());
        r
    }
}

/// What the server answered to one operation.
pub enum Answer {
    Done,
    Failed(Failure, Seq<char>),
}

/// Where a drain stands: what was asked, what is queued, what was counted.
#[verifier::ext_equal]
pub struct Drain {
    pub asked: Seq<Op>,
    pub queue: Seq<Pending>,
    pub tally: Tally,
}

/// When an operation that failed like this is attempted next.
pub open spec fn next_attempt(entry: Pending, failure: Failure, now_ms: i64) -> i64 {
    match failure {
        Failure::Retry => {
            let attempts: nat = if entry.attempts < u32::MAX {
                (entry.attempts + 1) as nat
            } else {
                u32::MAX as nat
            };
            let at = now_ms + delay(BASE_DELAY_MS as int, MAX_DELAY_MS as int, attempts);
            if at > i64::MAX {
                i64::MAX
            } else {
                at as i64
            }
        },
        _ => entry.next_attempt_ms,
    }
}

/// One entry of a drain, given the server's answer.
pub open spec fn drain_one(d: Drain, entry: Pending, answer: Answer, now_ms: i64) -> Drain {
    if !entry.due(now_ms) {
        Drain { tally: Tally { skipped: d.tally.skipped + 1, ..d.tally }, ..d }
    } else {
        match answer {
            Answer::Done => Drain {
                asked: d.asked.push(entry.op),
                queue: resolved(d.queue, entry.op.uid()),
                tally: Tally {
                    succeeded: d.tally.succeeded + 1,
                    departed: if entry.op.departs() {
                        d.tally.departed.push(entry.op.uid())
                    } else {
                        d.tally.departed
                    },
                    ..d.tally
                },
            },
            Answer::Failed(failure, words) => Drain {
                asked: d.asked.push(entry.op),
                queue: deferred(
                    d.queue,
                    entry.op.uid(),
                    failure,
                    words,
                    next_attempt(entry, failure, now_ms),
                ),
                tally: match failure {
                    Failure::Retry => Tally { deferred: d.tally.deferred + 1, ..d.tally },
                    Failure::Reconcile => Tally {
                        needs_reconcile: d.tally.needs_reconcile + 1,
                        ..d.tally
                    },
                    Failure::User => Tally { needs_user: d.tally.needs_user + 1, ..d.tally },
                },
            },
        }
    }
}

/// A drain over these entries, given the server's answers in order.
pub open spec fn drained(
    start: Drain,
    entries: Seq<Pending>,
    answers: Seq<Answer>,
    now_ms: i64,
) -> Drain
    decreases entries.len(),
{
    if entries.len() == 0 {
        start
    } else {
        drain_one(
            drained(start, entries.drop_last(), answers.drop_last(), now_ms),
            entries.last(),
            answers.last(),
            now_ms,
        )
    }
}

/// What a reply of the server comes to.
pub open spec fn answer_of(said: Result<()>) -> Answer {
    match said {
        Ok(()) => Answer::Done,
        Err(why) => Answer::Failed(Failure::class(why), why.words()),
    }
}

/// The operations that are due, in queue order.
pub open spec fn due_ops(entries: Seq<Pending>, now_ms: i64) -> Seq<Op>
    decreases entries.len(),
{
    if entries.len() == 0 {
        Seq::empty()
    } else if entries.last().due(now_ms) {
        due_ops(entries.drop_last(), now_ms).push(entries.last().op)
    } else {
        due_ops(entries.drop_last(), now_ms)
    }
}

/// What was answered to each entry, given the replies to those that are due, in
/// order. One that is not due is not asked about.
pub open spec fn answers_of(entries: Seq<Pending>, said: Seq<Result<()>>, now_ms: i64) -> Seq<
    Answer,
>
    decreases entries.len(),
{
    if entries.len() == 0 {
        Seq::empty()
    } else if entries.last().due(now_ms) {
        answers_of(entries.drop_last(), said.drop_last(), now_ms).push(answer_of(said.last()))
    } else {
        answers_of(entries.drop_last(), said, now_ms).push(Answer::Done)
    }
}

/// The UIDs of the moves and deletions, among these operations, that succeeded.
pub open spec fn departures(ops: Seq<Op>, said: Seq<Result<()>>) -> Seq<u32>
    decreases ops.len(),
{
    if ops.len() == 0 {
        Seq::empty()
    } else {
        let front = departures(ops.drop_last(), said.drop_last());
        if ops.last().departs() && said.last() is Ok {
            front.push(ops.last().uid())
        } else {
            front
        }
    }
}

/// A drain asks for every due operation once, in queue order, and for nothing
/// else. It counts each entry once, and counts as departed exactly the moves and
/// deletions that the server said were done.
pub proof fn a_drain_accounts_for_everything(
    start: Drain,
    entries: Seq<Pending>,
    said: Seq<Result<()>>,
    now_ms: i64,
)
    requires
        start.tally == Tally::empty(),
        said.len() == due_ops(entries, now_ms).len(),
    ensures
        ({
            let d = drained(start, entries, answers_of(entries, said, now_ms), now_ms);
            &&& d.asked == start.asked + due_ops(entries, now_ms)
            &&& d.tally.departed == departures(due_ops(entries, now_ms), said)
            &&& d.tally.skipped == entries.len() - said.len()
            &&& d.tally.succeeded + d.tally.deferred + d.tally.needs_reconcile
                + d.tally.needs_user + d.tally.skipped == entries.len()
        }),
    decreases entries.len(),
{
    if entries.len() > 0 {
        let front = entries.drop_last();
        let answers = answers_of(entries, said, now_ms);
        if entries.last().due(now_ms) {
            a_drain_accounts_for_everything(start, front, said.drop_last(), now_ms);
            assert(answers.drop_last() =~= answers_of(front, said.drop_last(), now_ms));
            assert(due_ops(entries, now_ms).drop_last() =~= due_ops(front, now_ms));
        } else {
            a_drain_accounts_for_everything(start, front, said, now_ms);
            assert(answers.drop_last() =~= answers_of(front, said, now_ms));
        }
    }
}

/// A sum of two clock readings that stays within the clock.
pub fn later(now_ms: i64, by: i64) -> (r: i64)
    requires
        by >= 0,
    ensures
        r == (if now_ms + by > i64::MAX {
            i64::MAX as int
        } else {
            now_ms + by
        }),
{
    if now_ms > i64::MAX - by {
        i64::MAX
    } else {
        now_ms + by
    }
}

/// What to do about one failed operation: how it is treated, and when it is
/// attempted next.
pub fn failure_step(entry: &PendingPush, why: &Error, now_ms: i64) -> (r: (Failure, i64))
    ensures
        r.0 == Failure::class(*why),
        r.1 == next_attempt(entry@, r.0, now_ms),
{
    let failure = Failure::of(why);
    let next: i64 = match failure {
        Failure::Retry => {
            let attempts: u32 = if entry.attempts < u32::MAX {
                entry.attempts + 1
            } else {
                u32::MAX
            };
            let wait: i64 = retry_delay_ms(attempts);
            proof {
                lemma_delay_bounds(attempts as nat);
            }
            later(now_ms, wait)
        },
        _ => entry.next_attempt_ms,
    };
    (failure, next)
}

proof fn lemma_delay_bounds(attempts: nat)
    ensures
        0 <= delay(BASE_DELAY_MS as int, MAX_DELAY_MS as int, attempts) <= MAX_DELAY_MS,
{
    crate::backoff::backoff_is_monotone(BASE_DELAY_MS as int, MAX_DELAY_MS as int, 0, attempts);
    vstd::arithmetic::power2::lemma2_to64();
}

/// Attempts every due operation once, in queue order.
///
/// `now_ms` is a parameter rather than read from the clock so the backoff
/// schedule is testable without sleeping.
pub fn drain<W: Writeback, Q: PushQueue>(server: &mut W, queue: &mut Q, now_ms: i64) -> (outcome:
    DrainOutcome)
    ensures
        ({
            let entries = old(queue).queue();
            let said = final(server).replies().skip(old(server).replies().len() as int);
            &&& final(server).replies() == old(server).replies() + said
            &&& said.len() == due_ops(entries, now_ms).len()
            &&& (Drain {
                asked: final(server).asked(),
                queue: final(queue).queue(),
                tally: outcome@,
            }) == drained(
                Drain {
                    asked: old(server).asked(),
                    queue: old(queue).queue(),
                    tally: Tally::empty(),
                },
                entries,
                answers_of(entries, said, now_ms),
                now_ms,
            )
        }),
{
    let mut outcome = DrainOutcome::default();
    let entries: Vec<PendingPush> = queue.pending();
    let n: usize = entries.len();
    let ghost all = entries_of(entries@);
    let ghost start = Drain {
        asked: server.asked(),
        queue: queue.queue(),
        tally: Tally::empty(),
    };
    let ghost heard = server.replies();
    let ghost mut said: Seq<Result<()>> = Seq::empty();
    let mut i: usize = 0;
    assert(heard + said =~= heard);
    while i < n
        invariant
            i <= n == entries@.len(),
            all == entries_of(entries@),
            server.replies() == heard + said,
            said.len() == due_ops(all.take(i as int), now_ms).len(),
            outcome.succeeded <= i,
            outcome.deferred <= i,
            outcome.needs_reconcile <= i,
            outcome.needs_user <= i,
            outcome.skipped <= i,
            (Drain { asked: server.asked(), queue: queue.queue(), tally: outcome@ }) == drained(
                start,
                all.take(i as int),
                answers_of(all.take(i as int), said, now_ms),
                now_ms,
            ),
        decreases n - i,
    {
        let entry: &PendingPush = &entries[i];
        let ghost before = Drain {
            asked: server.asked(),
            queue: queue.queue(),
            tally: outcome@,
        };
        let ghost mut answer = Answer::Done;
        if !entry.is_live() || entry.next_attempt_ms > now_ms {
            outcome.skipped = outcome.skipped + 1;
            assert(outcome@ =~= drain_one(before, entry@, answer, now_ms).tally);
        } else {
            let uid: u32 = entry.op.uid();
            let result: Result<()> = match &entry.op {
                PushOp::SetFlags { uid, flags } => server.store_flags(*uid, *flags),
                PushOp::Move { uid, destination } => server.move_message(*uid, destination),
                PushOp::Delete { uid } => server.delete_message(*uid),
            };
            proof {
                assert(server.replies() =~= heard + said.push(result));
                assert(said.push(result).drop_last() =~= said);
                said = said.push(result);
                answer = answer_of(result);
            }
            match result {
                Ok(()) => {
                    let _ = queue.resolve(uid);
                    if entry.op.departs() {
                        outcome.departed.push(uid);
                    }
                    outcome.succeeded = outcome.succeeded + 1;
                    assert(outcome@ =~= drain_one(before, entry@, answer, now_ms).tally);
                },
                Err(why) => {
                    let (failure, next) = failure_step(entry, &why, now_ms);
                    match failure {
                        Failure::Retry => {
                            outcome.deferred = outcome.deferred + 1;
                        },
                        Failure::Reconcile => {
                            outcome.needs_reconcile = outcome.needs_reconcile + 1;
                        },
                        Failure::User => {
                            outcome.needs_user = outcome.needs_user + 1;
                        },
                    }
                    let words: String = why.describe();
                    let _ = queue.defer(uid, failure, &words, next);
                    assert(outcome@ =~= drain_one(before, entry@, answer, now_ms).tally);
                },
            }
        }
        proof {
            assert(all.take(i + 1).drop_last() =~= all.take(i as int));
            assert(all.take(i + 1).last() == entry@);
            let answers = answers_of(all.take(i + 1), said, now_ms);
            assert(answers.last() == answer);
            assert(answers.drop_last() =~= answers_of(
                all.take(i as int),
                if entry@.due(now_ms) {
                    said.drop_last()
                } else {
                    said
                },
                now_ms,
            ));
        }
        i = i + 1;
    }
    assert(all.take(i as int) =~= all);
    assert(server.replies().skip(heard.len() as int) =~= said);
    outcome
}

/// A queue over a `Vec`, for anything holding it in memory.
#[derive(Debug)]
pub struct MemoryQueue {
    pub entries: Vec<PendingPush>,
}

impl Default for MemoryQueue {
    fn default() -> (r: Self)
        ensures
            r.entries@ == Seq::<PendingPush>::empty(),
    {
        MemoryQueue { entries: Vec::new() }
    }
}

impl PushQueue for MemoryQueue {
    open spec fn queue(&self) -> Seq<Pending> {
        entries_of(self.entries@)
    }

    fn pending(&self) -> (r: Vec<PendingPush>) {
        copy_entries(&self.entries)
    }

    fn enqueue(&mut self, op: PushOp) -> (r: Result<()>)
        ensures
            r is Ok,
    {
        enqueue_into(&mut self.entries, op);
        Ok(())
    }

    fn resolve(&mut self, uid: u32) -> (r: Result<()>)
        ensures
            r is Ok,
    {
        resolve_in(&mut self.entries, uid);
        Ok(())
    }

    fn defer(&mut self, uid: u32, failure: Failure, error: &str, next_attempt_ms: i64) -> (r:
        Result<()>)
        ensures
            r is Ok,
    {
        defer_in(&mut self.entries, uid, failure, error, next_attempt_ms);
        Ok(())
    }
}

/// A copy of a list of entries.
pub fn copy_entries(entries: &Vec<PendingPush>) -> (r: Vec<PendingPush>)
    ensures
        r@ == entries@,
{
    let mut out: Vec<PendingPush> = Vec::new();
    let mut i: usize = 0;
    while i < entries.len()
        invariant
            i <= entries@.len(),
            out@ == entries@.take(i as int),
        decreases entries@.len() - i,
    {
        out.push(entries[i].clone());
        i = i + 1;
        assert(entries@.take(i as int) =~= entries@.take(i - 1).push(entries@[i - 1]));
    }
    assert(entries@.take(i as int) =~= entries@);
    out
}

proof fn lemma_place_is(q: Seq<Pending>, uid: u32, i: int)
    requires
        0 <= i <= q.len(),
        forall|j: int| 0 <= j < i ==> (#[trigger] q[j]).op.uid() != uid,
        i < q.len() ==> q[i].op.uid() == uid,
    ensures
        place_of(q, uid) == i,
    decreases i,
{
    if i > 0 {
        let t = q.skip(1);
        assert(q[0].op.uid() != uid);
        assert forall|j: int| 0 <= j < i - 1 implies (#[trigger] t[j]).op.uid() != uid by {
            assert(t[j] == q[j + 1]);
        }
        lemma_place_is(t, uid, i - 1);
    }
}

fn find_entry(entries: &Vec<PendingPush>, uid: u32) -> (r: usize)
    ensures
        r == place_of(entries_of(entries@), uid),
        r <= entries@.len(),
{
    let ghost q = entries_of(entries@);
    let mut i: usize = 0;
    while i < entries.len() && entries[i].op.uid() != uid
        invariant
            i <= entries@.len(),
            q == entries_of(entries@),
            forall|j: int| 0 <= j < i ==> (#[trigger] q[j]).op.uid() != uid,
        decreases entries@.len() - i,
    {
        i = i + 1;
    }
    proof {
        lemma_place_is(q, uid, i as int);
    }
    i
}

/// The enqueue rule, shared by every queue so the supersede semantics cannot
/// drift between them.
pub fn enqueue_into(entries: &mut Vec<PendingPush>, op: PushOp)
    ensures
        entries_of(final(entries)@) == enqueued(entries_of(old(entries)@), op@),
{
    let uid: u32 = op.uid();
    let at: usize = find_entry(entries, uid);
    let ghost new = Pending::fresh(op@);
    let ghost before = entries@;
    if at < entries.len() {
        let superseded = !op.departs() && entries[at].op.departs();
        if superseded {
            return;
        }
        let fresh = PendingPush {
            op,
            attempts: 0,
            next_attempt_ms: 0,
            last_error: None,
            blocked: None,
        };
        entries.set(at, fresh);
        assert(entries_of(entries@) =~= entries_of(before).update(at as int, new));
    } else {
        entries.push(
            PendingPush { op, attempts: 0, next_attempt_ms: 0, last_error: None, blocked: None },
        );
        assert(entries_of(entries@) =~= entries_of(before).push(new));
    }
}

/// Drops every entry for `uid`.
pub fn resolve_in(entries: &mut Vec<PendingPush>, uid: u32)
    ensures
        entries_of(final(entries)@) == resolved(entries_of(old(entries)@), uid),
{
    let ghost q = entries_of(entries@);
    let mut kept: Vec<PendingPush> = Vec::new();
    let mut i: usize = 0;
    while i < entries.len()
        invariant
            i <= entries@.len(),
            q == entries_of(entries@),
            entries_of(kept@) == resolved(q.take(i as int), uid),
        decreases entries@.len() - i,
    {
        let ghost so_far = kept@;
        if entries[i].op.uid() != uid {
            kept.push(entries[i].clone());
            assert(entries_of(kept@) =~= entries_of(so_far).push(q[i as int]));
        }
        i = i + 1;
        proof {
            reveal(Seq::filter);
            assert(q.take(i as int).drop_last() =~= q.take(i - 1));
        }
    }
    assert(q.take(i as int) =~= q);
    *entries = kept;
}

/// The failure rule, shared by every queue.
pub fn defer_in(
    entries: &mut Vec<PendingPush>,
    uid: u32,
    failure: Failure,
    error: &str,
    next_attempt_ms: i64,
)
    ensures
        entries_of(final(entries)@) == deferred(
            entries_of(old(entries)@),
            uid,
            failure,
            error@,
            next_attempt_ms,
        ),
{
    let at: usize = find_entry(entries, uid);
    let ghost before = entries@;
    if at < entries.len() {
        let mut entry: PendingPush = entries[at].clone();
        entry.last_error = Some(error.to_owned());
        match failure {
            Failure::Retry => {
                entry.attempts = if entry.attempts < u32::MAX {
                    entry.attempts + 1
                } else {
                    u32::MAX
                };
                entry.next_attempt_ms = next_attempt_ms;
                entry.blocked = None;
            },
            other => entry.blocked = Some(other),
        }
        let ghost new = entry@;
        assert(new =~= entries_of(before)[at as int].after_failure(
            failure,
            error@,
            next_attempt_ms,
        ));
        entries.set(at, entry);
        assert(entries_of(entries@) =~= entries_of(before).update(at as int, new));
    }
}

/// No UID is queued twice.
pub open spec fn one_per_uid(q: Seq<Pending>) -> bool {
    forall|i: int, j: int|
        0 <= i < j < q.len() ==> (#[trigger] q[i]).op.uid() != (#[trigger] q[j]).op.uid()
}

proof fn lemma_place(q: Seq<Pending>, uid: u32)
    ensures
        0 <= place_of(q, uid) <= q.len(),
        forall|j: int| 0 <= j < place_of(q, uid) ==> (#[trigger] q[j]).op.uid() != uid,
        place_of(q, uid) < q.len() ==> q[place_of(q, uid)].op.uid() == uid,
    decreases q.len(),
{
    if q.len() > 0 && q[0].op.uid() != uid {
        let t = q.skip(1);
        lemma_place(t, uid);
        let p = place_of(q, uid);
        assert forall|j: int| 0 <= j < p implies (#[trigger] q[j]).op.uid() != uid by {
            if j > 0 {
                assert(q[j] == t[j - 1]);
            }
        }
        if p < q.len() {
            assert(q[p] == t[p - 1]);
        }
    }
}

/// Enqueueing never lets a UID be queued twice.
pub proof fn enqueue_keeps_one_per_uid(q: Seq<Pending>, op: Op)
    requires
        one_per_uid(q),
    ensures
        one_per_uid(enqueued(q, op)),
{
    lemma_place(q, op.uid());
    let r = enqueued(q, op);
    let p = place_of(q, op.uid());
    assert forall|i: int, j: int| 0 <= i < j < r.len() implies (#[trigger] r[i]).op.uid() != (
    #[trigger] r[j]).op.uid() by {
        if j < q.len() {
            assert(q[i].op.uid() != q[j].op.uid());
        }
    }
}

/// Flags never cancel a departure that is already queued.
pub proof fn flags_never_cancel_a_departure(q: Seq<Pending>, uid: u32, flags: Flags)
    requires
        place_of(q, uid) < q.len(),
        q[place_of(q, uid)].op.departs(),
    ensures
        enqueued(q, Op::SetFlags { uid, flags }) == q,
{
}

/// A new edit leaves its entry live and due at once, unless a departure is
/// already queued for the message.
pub proof fn an_edit_is_due_at_once(q: Seq<Pending>, op: Op)
    requires
        op.departs() || place_of(q, op.uid()) >= q.len() || !q[place_of(q, op.uid())].op.departs(),
    ensures
        ({
            let r = enqueued(q, op);
            let p = place_of(r, op.uid());
            p < r.len() && r[p] == Pending::fresh(op)
        }),
{
    lemma_place(q, op.uid());
    let r = enqueued(q, op);
    let p = place_of(q, op.uid());
    assert forall|j: int| 0 <= j < p implies (#[trigger] r[j]).op.uid() != op.uid() by {
        assert(r[j] == q[j]);
    }
    lemma_place_is(r, op.uid(), p);
}

/// An entry that a failure blocked is never due again, whatever the clock says.
pub proof fn a_blocked_entry_stays_put(entry: Pending, failure: Failure, error: Seq<char>, next: i64, now_ms: i64)
    requires
        failure != Failure::Retry,
    ensures
        !entry.after_failure(failure, error, next).due(now_ms),
        entry.after_failure(failure, error, next).attempts == entry.attempts,
{
}

/// How a failure is treated: a renumbered mailbox is for a sync pass, rejected credentials
/// are for the user, and so is every refusal. What waiting can help is tried again, and a
/// message or mailbox that the server says is gone is for a sync pass.
pub proof fn how_a_failure_is_treated(error: Error)
    ensures
        error is UidValidityChanged ==> Failure::class(error) == Failure::Reconcile,
        error is Auth ==> Failure::class(error) == Failure::User,
        error.transient() ==> Failure::class(error) == Failure::Retry,
        !error.transient() && !(error is Imap) && !(error is UidValidityChanged)
            ==> Failure::class(error) == Failure::User,
        error matches Error::Imap(m) ==> !error.transient() ==> Failure::class(error) == if contains(
            lowered(m@),
            "[uidvalidity"@,
        ) || contains(lowered(m@), "[expunged]"@) || contains(lowered(m@), "[nonexistent]"@)
            || contains(lowered(m@), "[trycreate]"@) {
            Failure::Reconcile
        } else {
            Failure::User
        },
{
}

/// What an added operation leaves in the queue: an entry for its message, due at once and
/// not yet tried, unless it only sets flags on a message that is about to leave. Every other
/// message's entry stays where it was.
pub proof fn what_enqueueing_leaves(q: Seq<Pending>, op: Op, at: int)
    requires
        one_per_uid(q),
        0 <= at < q.len(),
    ensures
        q[at].op.uid() != op.uid() ==> enqueued(q, op)[at] == q[at],
        q[at].op.uid() == op.uid() ==> enqueued(q, op).len() == q.len(),
        q[at].op.uid() == op.uid() && op is SetFlags && !(q[at].op is SetFlags) ==> enqueued(
            q,
            op,
        )[at] == q[at],
        q[at].op.uid() == op.uid() && (!(op is SetFlags) || q[at].op is SetFlags) ==> {
            let e = enqueued(q, op)[at];
            e.op == op && e.attempts == 0 && e.next_attempt_ms == 0 && e.last_error is None
                && e.blocked is None
        },
        (forall|i: int| 0 <= i < q.len() ==> (#[trigger] q[i]).op.uid() != op.uid()) ==> {
            let e = enqueued(q, op).last();
            enqueued(q, op).len() == q.len() + 1 && e.op == op && e.attempts == 0
                && e.next_attempt_ms == 0 && e.last_error is None && e.blocked is None
        },
{
    lemma_place(q, op.uid());
}

/// What a drain leaves of one entry. What was blocked, or is not due yet, stays as it was.
/// What the server did is gone, and so is every other entry for that message. What it did
/// not do stays, with the server's words: to be tried again one attempt and one wait later,
/// or blocked.
pub open spec fn left_of(entry: Pending, answer: Answer, now_ms: i64, q: Seq<Pending>) -> bool {
    if entry.blocked is Some || entry.next_attempt_ms > now_ms {
        q.contains(entry)
    } else {
        match answer {
            Answer::Done => forall|k: int|
                0 <= k < q.len() ==> (#[trigger] q[k]).op.uid() != entry.op.uid(),
            Answer::Failed(failure, words) => exists|k: int|
                {
                    &&& 0 <= k < q.len()
                    &&& (#[trigger] q[k]).op == entry.op
                    &&& q[k].last_error == Some(words)
                    &&& failure == Failure::Retry ==> q[k].blocked is None && q[k].attempts
                        == entry.attempts + 1 && q[k].next_attempt_ms == now_ms + delay(
                        15_000,
                        3_600_000,
                        (entry.attempts + 1) as nat,
                    ) && now_ms < q[k].next_attempt_ms <= now_ms + 3_600_000
                    &&& failure != Failure::Retry ==> q[k].blocked == Some(failure)
                        && q[k].attempts == entry.attempts
                },
        }
    }
}

proof fn lemma_resolved(q: Seq<Pending>, uid: u32)
    ensures
        forall|p: Pending| #[trigger]
            resolved(q, uid).contains(p) <==> q.contains(p) && p.op.uid() != uid,
        one_per_uid(q) ==> one_per_uid(resolved(q, uid)),
    decreases q.len(),
{
    reveal(Seq::filter);
    let r = resolved(q, uid);
    if q.len() > 0 {
        let front = q.drop_last();
        lemma_resolved(front, uid);
        let f = resolved(front, uid);
        assert forall|p: Pending| #[trigger] r.contains(p) <==> q.contains(p) && p.op.uid()
            != uid by {
            if r.contains(p) {
                let k = choose|k: int| 0 <= k < r.len() && r[k] == p;
                if k < f.len() {
                    assert(f[k] == p);
                    assert(f.contains(p));
                    let m = choose|m: int| 0 <= m < front.len() && front[m] == p;
                    assert(q[m] == p);
                } else {
                    assert(q[q.len() - 1] == p);
                }
            }
            if q.contains(p) && p.op.uid() != uid {
                let m = choose|m: int| 0 <= m < q.len() && q[m] == p;
                if m < front.len() {
                    assert(front[m] == p);
                    assert(f.contains(p));
                    let k = choose|k: int| 0 <= k < f.len() && f[k] == p;
                    assert(r[k] == p);
                } else {
                    assert(r[r.len() - 1] == p);
                }
            }
        }
        if one_per_uid(q) {
            assert forall|i: int, j: int| 0 <= i < j < front.len() implies (
            #[trigger] front[i]).op.uid() != (#[trigger] front[j]).op.uid() by {
                assert(q[i].op.uid() != q[j].op.uid());
            }
            assert forall|i: int, j: int| 0 <= i < j < r.len() implies (#[trigger] r[i]).op.uid()
                != (#[trigger] r[j]).op.uid() by {
                if j < f.len() {
                    assert(f[i].op.uid() != f[j].op.uid());
                } else {
                    assert(f.contains(f[i]));
                    let m = choose|m: int| 0 <= m < front.len() && front[m] == f[i];
                    assert(q[m].op.uid() != q[q.len() - 1].op.uid());
                }
            }
        }
    }
}

/// What a drain leaves, over a queue in which no message occurs twice.
pub proof fn what_a_drain_leaves(start: Drain, answers: Seq<Answer>, now_ms: i64, at: int)
    requires
        one_per_uid(start.queue),
        answers.len() == start.queue.len(),
        0 <= at < start.queue.len(),
        start.queue[at].attempts < u32::MAX,
        -1_000_000_000_000_000 < now_ms < 1_000_000_000_000_000,
    ensures
        left_of(
            start.queue[at],
            answers[at],
            now_ms,
            drained(start, start.queue, answers, now_ms).queue,
        ),
{
    assert(start.queue.take(start.queue.len() as int) =~= start.queue);
    assert(answers.take(answers.len() as int) =~= answers);
    lemma_drained(start, answers, now_ms, start.queue.len() as int, at);
}

proof fn lemma_drained(start: Drain, answers: Seq<Answer>, now_ms: i64, n: int, at: int)
    requires
        one_per_uid(start.queue),
        answers.len() == start.queue.len(),
        0 <= n <= start.queue.len(),
        0 <= at < start.queue.len(),
        start.queue[at].attempts < u32::MAX,
        -1_000_000_000_000_000 < now_ms < 1_000_000_000_000_000,
    ensures
        ({
            let q = drained(start, start.queue.take(n), answers.take(n), now_ms).queue;
            &&& one_per_uid(q)
            &&& forall|k: int|
                n <= k < start.queue.len() ==> q.contains(#[trigger] start.queue[k])
            &&& at < n ==> left_of(start.queue[at], answers[at], now_ms, q)
        }),
    decreases n,
{
    let all = start.queue;
    if n == 0 {
        assert(all.take(0) =~= Seq::<Pending>::empty());
    } else {
        lemma_drained(start, answers, now_ms, n - 1, at);
        assert(all.take(n).drop_last() =~= all.take(n - 1));
        assert(answers.take(n).drop_last() =~= answers.take(n - 1));
        let before = drained(start, all.take(n - 1), answers.take(n - 1), now_ms);
        let entry = all[n - 1];
        let answer = answers[n - 1];
        let after = drain_one(before, entry, answer, now_ms);
        let uid = entry.op.uid();
        let q = before.queue;
        let r = after.queue;
        assert(all.take(n).last() == entry);
        assert(answers.take(n).last() == answer);
        assert(q.contains(entry));
        let here = choose|k: int| 0 <= k < q.len() && q[k] == entry;
        lemma_place_is(q, uid, here);
        lemma_resolved(q, uid);
        assert forall|k: int| n <= k < all.len() implies r.contains(#[trigger] all[k]) by {
            assert(all[n - 1].op.uid() != all[k].op.uid());
            assert(q.contains(all[k]));
            let m = choose|m: int| 0 <= m < q.len() && q[m] == all[k];
            if answer is Failed {
                assert(r[m] == q[m]);
            }
        }
        if answer is Failed && entry.due(now_ms) {
            assert(r =~= q.update(here, r[here]));
            assert forall|i: int, j: int| 0 <= i < j < r.len() implies (#[trigger] r[i]).op.uid()
                != (#[trigger] r[j]).op.uid() by {
                assert(q[i].op.uid() != q[j].op.uid());
            }
        }
        if at == n - 1 {
            if entry.due(now_ms) {
                match answer {
                    Answer::Done => {
                        assert forall|k: int| 0 <= k < r.len() implies (#[trigger] r[k]).op.uid()
                            != uid by {
                            assert(r.contains(r[k]));
                        }
                    },
                    Answer::Failed(failure, words) => {
                        lemma_delay_bounds((entry.attempts + 1) as nat);
                        crate::backoff::backoff_is_monotone(
                            BASE_DELAY_MS as int,
                            MAX_DELAY_MS as int,
                            0,
                            (entry.attempts + 1) as nat,
                        );
                        crate::backoff::backoff_doubles(
                            BASE_DELAY_MS as int,
                            MAX_DELAY_MS as int,
                            0,
                        );
                        assert(r[here].op == entry.op);
                    },
                }
            }
        } else if at < n - 1 {
            assert(all[at].op.uid() != all[n - 1].op.uid());
            let e = all[at];
            if e.blocked is Some || e.next_attempt_ms > now_ms {
                assert(q.contains(e));
                let m = choose|m: int| 0 <= m < q.len() && q[m] == e;
                if answer is Failed {
                    assert(r[m] == q[m]);
                }
            } else {
                match answers[at] {
                    Answer::Done => {
                        assert forall|k: int| 0 <= k < r.len() implies (#[trigger] r[k]).op.uid()
                            != e.op.uid() by {
                            if answer is Failed && entry.due(now_ms) {
                                assert(q[k].op.uid() != e.op.uid());
                            } else if entry.due(now_ms) {
                                assert(r.contains(r[k]));
                                let m = choose|m: int| 0 <= m < q.len() && q[m] == r[k];
                                assert(q[m].op.uid() != e.op.uid());
                            } else {
                                assert(r[k] == q[k]);
                            }
                        }
                    },
                    Answer::Failed(failure, words) => {
                        let k = choose|k: int|
                            {
                                &&& 0 <= k < q.len()
                                &&& (#[trigger] q[k]).op == e.op
                                &&& q[k].last_error == Some(words)
                                &&& failure == Failure::Retry ==> q[k].blocked is None
                                    && q[k].attempts == e.attempts + 1 && q[k].next_attempt_ms
                                    == now_ms + delay(
                                    15_000,
                                    3_600_000,
                                    (e.attempts + 1) as nat,
                                ) && now_ms < q[k].next_attempt_ms <= now_ms + 3_600_000
                                &&& failure != Failure::Retry ==> q[k].blocked == Some(failure)
                                    && q[k].attempts == e.attempts
                            };
                        if !entry.due(now_ms) {
                            assert(r[k] == q[k]);
                        } else if answer is Failed {
                            assert(r[k] == q[k]);
                        } else {
                            assert(q.contains(q[k]));
                            assert(r.contains(q[k]));
                            let m = choose|m: int| 0 <= m < r.len() && r[m] == q[k];
                            assert(r[m].op == e.op);
                        }
                    },
                }
            }
        }
    }
}

} // verus!
