//! Messages that have been sent but have not left yet.
//!
//! Only sends that the server definitely did not accept belong here. One that
//! may have been delivered never enters the queue, and one that turns out so
//! while it is queued is never attempted again by itself.

use vstd::prelude::*;

use crate::backoff::{delay, delay_ms};
use crate::chars::{opt_text, push_text, texts, to_chars, to_text, trim_of, trimmed};
use crate::compose::{display, problem_of, Draft, DraftText};
use crate::drafts::{id_like, is_valid_id};
use crate::error::{Error, Result};
use crate::model::{copy_option, mailbox_views};
use crate::order::text_listing;
use crate::shelf::{self, all_shown, find, held, keys, lemma_held, lemma_listed, listed, put, shelved,
    Held};
use crate::smtp::Outcome;

verus! {

/// Where queued messages live, beside the account's maildirs.
pub const DIRECTORY: &'static str = ".outbox";

/// The end of a queued message's file name.
pub const EXTENSION: &'static str = ".outgoing.json";

/// First retry delay, doubling to a ceiling.
pub const BASE_DELAY_MS: i64 = 60_000;

pub const MAX_DELAY_MS: i64 = 1_800_000;

/// How many times a message is attempted before it stops on its own.
pub const MAX_ATTEMPTS: u32 = 12;

#[must_use]
pub fn retry_delay_ms(attempts: u32) -> (r: i64)
    ensures
        r == delay(BASE_DELAY_MS as int, MAX_DELAY_MS as int, attempts as nat),
{
    delay_ms(BASE_DELAY_MS, MAX_DELAY_MS, attempts)
}

/// One message waiting to go.
#[derive(Debug, PartialEq, Eq)]
pub struct Queued {
    pub id: String,
    pub draft: Draft,
    pub attempts: u32,
    /// Epoch milliseconds before which this must not be retried.
    pub next_attempt_ms: i64,
    pub last_error: Option<String>,
    /// Set when this stopped being retried. It keeps its payload and its place,
    /// but nothing will attempt it again until a person does.
    pub given_up: bool,
}

/// A queued message, as contracts speak of it.
#[verifier::ext_equal]
pub struct Waiting {
    pub draft: DraftText,
    pub attempts: u32,
    pub next_attempt_ms: i64,
    pub last_error: Option<Seq<char>>,
    pub given_up: bool,
}

impl Held for Queued {
    type V = Waiting;

    open spec fn key(&self) -> Seq<char> {
        self.id@
    }

    open spec fn shown(&self) -> Waiting {
        Waiting {
            draft: self.draft@,
            attempts: self.attempts,
            next_attempt_ms: self.next_attempt_ms,
            last_error: opt_text(self.last_error),
            given_up: self.given_up,
        }
    }

    fn id(&self) -> (r: &str) {
        self.id.as_str()
    }
}

impl Waiting {
    /// May this be attempted now?
    pub open spec fn due(self, now_ms: i64) -> bool {
        !self.given_up && self.next_attempt_ms <= now_ms
    }
}

pub open spec fn saturated(n: int) -> i64 {
    if n > i64::MAX {
        i64::MAX
    } else if n < i64::MIN {
        i64::MIN
    } else {
        n as i64
    }
}

fn later(now_ms: i64, delay: i64) -> (r: i64)
    requires
        delay >= 0,
    ensures
        r == saturated(now_ms + delay),
{
    if now_ms > i64::MAX - delay {
        i64::MAX
    } else {
        now_ms + delay
    }
}

impl Clone for Queued {
    fn clone(&self) -> (r: Self)
        ensures
            r.key() == self.key(),
            r.shown() == self.shown(),
    {
        Queued {
            id: self.id.clone(),
            draft: self.draft.clone(),
            attempts: self.attempts,
            next_attempt_ms: self.next_attempt_ms,
            last_error: copy_option(&self.last_error),
            given_up: self.given_up,
        }
    }
}

impl Queued {
    #[must_use]
    pub fn is_live(&self) -> (r: bool)
        ensures
            r == !self.given_up,
    {
        !self.given_up
    }

    /// A one-line description for a list row.
    #[must_use]
    pub fn describe(&self) -> (r: String)
        ensures
            r@ == described(self.draft@),
    {
        let to: Vec<char> = if self.draft.to.len() > 0 {
            assert(mailbox_views(self.draft.to@)[0] == self.draft.to@[0]@);
            to_chars(self.draft.to[0].display())
        } else {
            Vec::new()
        };
        assert(mailbox_views(self.draft.to@).len() == self.draft.to@.len());
        let subject: Vec<char> = to_chars(&self.draft.subject);
        if trim_of(&subject).len() == 0 {
            to_text(&to)
        } else {
            let mut out: Vec<char> = subject;
            push_text(&mut out, " \u{2014} ");
            crate::chars::push_all(&mut out, &to);
            to_text(&out)
        }
    }
}

/// The subject and the first recipient, or only the recipient where there is no
/// subject.
pub open spec fn described(d: DraftText) -> Seq<char> {
    let to = if d.to.len() > 0 {
        display(d.to[0])
    } else {
        Seq::empty()
    };
    if trimmed(d.subject).len() == 0 {
        to
    } else {
        d.subject + " \u{2014} "@ + to
    }
}

/// What one drain did.
#[derive(Debug, PartialEq, Eq)]
pub struct DrainOutcome {
    /// Sent. These are the bytes to file in Sent, in the order they went.
    pub sent: Vec<(String, Vec<u8>)>,
    /// Failed again, and rescheduled.
    pub deferred: usize,
    /// Stopped retrying: it ran out of attempts, or the failure was one nothing
    /// automatic should touch.
    pub given_up: usize,
    /// Not due yet, already stopped, or taken back meanwhile.
    pub skipped: usize,
}

/// What one drain did, as contracts speak of it.
#[verifier::ext_equal]
pub struct Tally {
    pub sent: Seq<(Seq<char>, Seq<u8>)>,
    pub deferred: nat,
    pub given_up: nat,
    pub skipped: nat,
}

pub open spec fn nothing_done() -> Tally {
    Tally { sent: Seq::empty(), deferred: 0, given_up: 0, skipped: 0 }
}

impl Tally {
    pub open spec fn total(self) -> nat {
        self.sent.len() + self.deferred + self.given_up + self.skipped
    }
}

impl DrainOutcome {
    pub open spec fn view(&self) -> Tally {
        Tally {
            sent: self.sent@.map_values(|p: (String, Vec<u8>)| (p.0@, p.1@)),
            deferred: self.deferred as nat,
            given_up: self.given_up as nat,
            skipped: self.skipped as nat,
        }
    }

    /// Is there anything a person has to look at?
    #[must_use]
    pub fn needs_attention(&self) -> (r: bool)
        ensures
            r == (self.given_up > 0),
    {
        self.given_up > 0
    }
}

impl Default for DrainOutcome {
    fn default() -> (r: Self)
        ensures
            r@ == nothing_done(),
    {
        let r: DrainOutcome = DrainOutcome {
            sent: Vec::new(),
            deferred: 0,
            given_up: 0,
            skipped: 0,
        };
        assert(r@ =~= nothing_done());
        r
    }
}

/// A message whose send did not reach the server, as it is queued.
pub open spec fn queued_after(draft: DraftText, why: Seq<char>, now_ms: i64) -> Waiting {
    Waiting {
        draft,
        attempts: 1,
        next_attempt_ms: saturated(
            now_ms + delay(BASE_DELAY_MS as int, MAX_DELAY_MS as int, 1),
        ),
        last_error: Some(why),
        given_up: false,
    }
}

/// A message that goes out at a chosen time.
pub open spec fn scheduled_for(draft: DraftText, not_before_ms: i64) -> Waiting {
    Waiting { draft, attempts: 0, next_attempt_ms: not_before_ms, last_error: None, given_up: false }
}

pub open spec fn one_more(attempts: u32) -> u32 {
    if attempts < u32::MAX {
        (attempts + 1) as u32
    } else {
        u32::MAX
    }
}

/// A queued message after another attempt that did not reach the server.
pub open spec fn failed_again(w: Waiting, why: Seq<char>, now_ms: i64) -> Waiting {
    let attempts = one_more(w.attempts);
    if attempts >= MAX_ATTEMPTS {
        Waiting { attempts, last_error: Some(why), given_up: true, ..w }
    } else {
        Waiting {
            attempts,
            last_error: Some(why),
            next_attempt_ms: saturated(
                now_ms + delay(BASE_DELAY_MS as int, MAX_DELAY_MS as int, attempts as nat),
            ),
            ..w
        }
    }
}

/// A queued message that may have been delivered.
pub open spec fn unclear(w: Waiting, why: Seq<char>) -> Waiting {
    Waiting { last_error: Some(why), given_up: true, ..w }
}

/// What is queued after an attempt on one message.
pub open spec fn settled(
    m: Map<Seq<char>, Waiting>,
    id: Seq<char>,
    outcome: Outcome,
    now_ms: i64,
) -> Map<Seq<char>, Waiting> {
    match outcome {
        Outcome::Sent(_) => m.remove(id),
        Outcome::NotSent(why) => m.insert(id, failed_again(m[id], why.words(), now_ms)),
        Outcome::Ambiguous(why) => m.insert(id, unclear(m[id], why.words())),
    }
}

/// What is counted after an attempt on one message.
pub open spec fn counted(t: Tally, w: Waiting, id: Seq<char>, outcome: Outcome) -> Tally {
    match outcome {
        Outcome::Sent(filed) => Tally { sent: t.sent.push((id, filed@)), ..t },
        Outcome::NotSent(_) => if one_more(w.attempts) >= MAX_ATTEMPTS {
            Tally { given_up: t.given_up + 1, ..t }
        } else {
            Tally { deferred: t.deferred + 1, ..t }
        },
        Outcome::Ambiguous(_) => Tally { given_up: t.given_up + 1, ..t },
    }
}

/// The outbox for one account.
#[derive(Debug)]
pub struct Outbox {
    entries: Vec<Queued>,
}

/// A drain under way: the messages there were when it began, how many of them
/// are behind it, and what it did.
#[derive(Debug)]
pub struct Drain {
    now_ms: i64,
    ids: Vec<String>,
    at: usize,
    outcome: DrainOutcome,
}

/// A drain under way, as contracts speak of it.
#[verifier::ext_equal]
pub struct Draining {
    pub now_ms: i64,
    /// The ids still ahead.
    pub ahead: Seq<Seq<char>>,
    pub tally: Tally,
}

impl Drain {
    pub closed spec fn view(&self) -> Draining {
        Draining {
            now_ms: self.now_ms,
            ahead: texts(self.ids@).skip(self.at as int),
            tally: self.outcome@,
        }
    }

    /// Everything behind the drain has been counted.
    pub closed spec fn wf(&self) -> bool {
        self.at <= self.ids@.len() && self.outcome@.total() == self.at
    }

    /// What the drain did.
    #[must_use]
    pub fn finish(self) -> (r: DrainOutcome)
        ensures
            r@ == self@.tally,
    {
        self.outcome
    }
}

/// Can this be attempted: is it still queued, live and due?
pub open spec fn attemptable(m: Map<Seq<char>, Waiting>, id: Seq<char>, now_ms: i64) -> bool {
    m.contains_key(id) && m[id].due(now_ms)
}

/// A drain that has passed over what cannot be attempted.
pub open spec fn skipping(d: Draining, m: Map<Seq<char>, Waiting>) -> Draining
    decreases d.ahead.len(),
{
    if d.ahead.len() == 0 || attemptable(m, d.ahead[0], d.now_ms) {
        d
    } else {
        skipping(
            Draining {
                ahead: d.ahead.skip(1),
                tally: Tally { skipped: d.tally.skipped + 1, ..d.tally },
                ..d
            },
            m,
        )
    }
}

impl Default for Outbox {
    fn default() -> (r: Self)
        ensures
            r.wf(),
            r@ == Map::<Seq<char>, Waiting>::empty(),
    {
        let r: Outbox = Outbox { entries: Vec::new() };
        assert(r@ =~= Map::<Seq<char>, Waiting>::empty());
        r
    }
}

pub(crate) fn not_an_id(id: &str) -> (r: Error)
    ensures
        r matches Error::Draft(m) && m@ == id@ + " is not an id"@,
{
    let mut out: Vec<char> = to_chars(id);
    push_text(&mut out, " is not an id");
    Error::Draft(to_text(&out))
}

impl Outbox {
    pub closed spec fn view(&self) -> Map<Seq<char>, Waiting> {
        held(self.entries@)
    }

    /// Each message is under one id.
    pub closed spec fn wf(&self) -> bool {
        shelved(self.entries@)
    }

    /// There are finitely many messages, so that every listing of them holds each
    /// id once, in order.
    pub proof fn finitely_many(&self)
        ensures
            self@.dom().finite(),
    {
        crate::shelf::finitely_many(self.entries@);
    }

    /// Keeps a message under its id, in place of what was there.
    pub fn write(&mut self, queued: Queued) -> (r: Result<()>)
        requires
            old(self).wf(),
        ensures
            final(self).wf(),
            match r {
                Ok(()) => id_like(queued.id@) && final(self)@ == old(self)@.insert(
                    queued.id@,
                    queued.shown(),
                ),
                Err(Error::Draft(m)) => !id_like(queued.id@) && final(self)@ == old(self)@ && m@
                    == queued.id@ + " is not an id"@,
                Err(_) => false,
            },
    {
        if !is_valid_id(&queued.id) {
            return Err(not_an_id(&queued.id));
        }
        put(&mut self.entries, queued);
        Ok(())
    }

    /// Queues a message whose send definitely did not reach the server.
    ///
    /// `outcome` is taken rather than assumed, so that the rule is checked: a
    /// message that was sent, or that may have been, is refused at the door.
    pub fn queue(&mut self, id: &str, draft: &Draft, outcome: &Outcome, now_ms: i64) -> (r: Result<
        (),
    >)
        requires
            old(self).wf(),
        ensures
            final(self).wf(),
            match r {
                Ok(()) => outcome matches Outcome::NotSent(why) && id_like(id@) && final(self)@
                    == old(self)@.insert(id@, queued_after(draft@, why.words(), now_ms)),
                Err(Error::Draft(m)) => final(self)@ == old(self)@ && match outcome {
                    Outcome::NotSent(_) => !id_like(id@) && m@ == id@ + " is not an id"@,
                    Outcome::Sent(_) => m@
                        == "that message was sent; queueing it would send it twice"@,
                    Outcome::Ambiguous(_) => m@
                        == "that message may already have been delivered and must not be retried automatically"@,
                },
                Err(_) => false,
            },
    {
        match outcome {
            Outcome::NotSent(why) => {
                let entry: Queued = Queued {
                    id: id.to_owned(),
                    draft: draft.clone(),
                    attempts: 1,
                    next_attempt_ms: later(now_ms, first_delay()),
                    last_error: Some(why.describe()),
                    given_up: false,
                };
                assert(entry.shown() =~= queued_after(draft@, why.words(), now_ms));
                self.write(entry)
            },
            Outcome::Sent(_) => Err(
                Error::Draft("that message was sent; queueing it would send it twice".to_owned()),
            ),
            Outcome::Ambiguous(_) => Err(
                Error::Draft(
                    "that message may already have been delivered and must not be retried automatically".to_owned(),
                ),
            ),
        }
    }

    /// Everything waiting, oldest first: the order they should go out in.
    #[must_use]
    pub fn list(&self) -> (r: &Vec<Queued>)
        requires
            self.wf(),
        ensures
            keys(r@) == text_listing(self@.dom()),
            all_shown(r@) == listed(self@),
    {
        proof {
            lemma_held(self.entries@);
            lemma_listed(self.entries@);
            crate::order::lemma_text_listing(keys(self.entries@));
        }
        &self.entries
    }

    #[must_use]
    pub fn count(&self) -> (r: usize)
        requires
            self.wf(),
        ensures
            r == listed(self@).len(),
    {
        proof {
            lemma_listed(self.entries@);
        }
        self.entries.len()
    }

    /// Drops one, because it went or because the user discarded it.
    pub fn remove(&mut self, id: &str) -> (r: Result<()>)
        requires
            old(self).wf(),
        ensures
            final(self).wf(),
            r is Ok,
            final(self)@ == old(self)@.remove(id@),
    {
        let _gone: Option<Queued> = shelf::drop_id(&mut self.entries, id);
        Ok(())
    }

    /// Queues a message to go out at a chosen time.
    ///
    /// The draft has not failed anywhere, so it is checked now: one that cannot
    /// be sent would otherwise fail when nobody is looking at a composer any
    /// more.
    pub fn schedule(&mut self, id: &str, draft: &Draft, not_before_ms: i64) -> (r: Result<()>)
        requires
            old(self).wf(),
        ensures
            final(self).wf(),
            match r {
                Ok(()) => problem_of(draft@) is None && id_like(id@) && final(self)@ == old(
                    self,
                )@.insert(id@, scheduled_for(draft@, not_before_ms)),
                Err(Error::Draft(m)) => final(self)@ == old(self)@ && match problem_of(draft@) {
                    Some(why) => m@ == why,
                    None => !id_like(id@) && m@ == id@ + " is not an id"@,
                },
                Err(_) => false,
            },
    {
        if let Some(problem) = draft.problem() {
            return Err(Error::Draft(problem.to_owned()));
        }
        let entry: Queued = Queued {
            id: id.to_owned(),
            draft: draft.clone(),
            attempts: 0,
            next_attempt_ms: not_before_ms,
            last_error: None,
            given_up: false,
        };
        assert(entry.shown() =~= scheduled_for(draft@, not_before_ms));
        self.write(entry)
    }

    /// Takes a queued message back, returning its draft: the undo for a send
    /// that has not gone yet.
    ///
    /// `None` means it already left, or never existed.
    pub fn cancel(&mut self, id: &str) -> (r: Result<Option<Draft>>)
        requires
            old(self).wf(),
        ensures
            final(self).wf(),
            match r {
                Ok(Some(draft)) => id_like(id@) && old(self)@.contains_key(id@) && draft@ == old(
                    self,
                )@[id@].draft && final(self)@ == old(self)@.remove(id@),
                Ok(None) => (!id_like(id@) || !old(self)@.contains_key(id@)) && final(self)@ == old(
                    self,
                )@,
                Err(_) => false,
            },
    {
        if !is_valid_id(id) {
            return Ok(None);
        }
        match shelf::drop_id(&mut self.entries, id) {
            Some(queued) => Ok(Some(queued.draft)),
            None => {
                assert(old(self)@.remove(id@) =~= old(self)@);
                Ok(None)
            },
        }
    }

    /// Puts a message that stopped back in the queue, due now.
    pub fn retry(&mut self, id: &str) -> (r: Result<()>)
        requires
            old(self).wf(),
        ensures
            final(self).wf(),
            r is Ok,
            final(self)@ == (if id_like(id@) && old(self)@.contains_key(id@) {
                old(self)@.insert(
                    id@,
                    (Waiting {
                        given_up: false,
                        attempts: 0,
                        next_attempt_ms: 0,
                        ..old(self)@[id@]
                    }),
                )
            } else {
                old(self)@
            }),
    {
        if !is_valid_id(id) {
            return Ok(());
        }
        match find(&self.entries, id) {
            None => Ok(()),
            Some(i) => {
                let mut entry: Queued = self.entries[i].clone();
                entry.given_up = false;
                entry.attempts = 0;
                entry.next_attempt_ms = 0;
                put(&mut self.entries, entry);
                Ok(())
            },
        }
    }

    /// Begins a drain over every message there is now.
    ///
    /// `now_ms` is a parameter rather than read from the clock, so that the
    /// schedule can be tried without sleeping.
    #[must_use]
    pub fn drain(&self, now_ms: i64) -> (r: Drain)
        requires
            self.wf(),
        ensures
            r.wf(),
            r@ == (Draining {
                now_ms,
                ahead: text_listing(self@.dom()),
                tally: nothing_done(),
            }),
    {
        let mut ids: Vec<String> = Vec::new();
        let mut i: usize = 0;
        while i < self.entries.len()
            invariant
                i <= self.entries@.len(),
                ids@.len() == i,
                forall|k: int| 0 <= k < i ==> (#[trigger] ids@[k])@ == self.entries@[k].id@,
            decreases self.entries@.len() - i,
        {
            ids.push(self.entries[i].id.clone());
            i = i + 1;
        }
        proof {
            lemma_held(self.entries@);
            crate::order::lemma_text_listing(keys(self.entries@));
            assert(texts(ids@) =~= keys(self.entries@));
            assert(texts(ids@).skip(0) =~= texts(ids@));
        }
        Drain { now_ms, ids, at: 0, outcome: DrainOutcome::default() }
    }

    /// The next message to attempt: one that is live, due, and still there. A
    /// message taken back since the drain began is passed over, because sending
    /// what somebody just took back is the unforgivable direction of this race.
    #[must_use]
    pub fn next(&self, drain: &mut Drain) -> (r: Option<Queued>)
        requires
            self.wf(),
            old(drain).wf(),
        ensures
            final(drain).wf(),
            final(drain)@ == skipping(old(drain)@, self@),
            match r {
                Some(q) => final(drain)@.ahead.len() > 0 && q.id@ == final(drain)@.ahead[0]
                    && attemptable(self@, q.id@, old(drain)@.now_ms) && q.shown() == self@[q.id@],
                None => final(drain)@.ahead.len() == 0,
            },
    {
        let ghost start = drain@;
        loop
            invariant
                self.wf(),
                drain.wf(),
                drain@.now_ms == start.now_ms,
                skipping(drain@, self@) == skipping(start, self@),
                start == old(drain)@,
            decreases drain@.ahead.len(),
        {
            assert(texts(drain.ids@).len() == drain.ids@.len());
            if drain.at >= drain.ids.len() {
                return None;
            }
            assert(drain@.ahead[0] == drain.ids@[drain.at as int]@);
            if let Some(i) = find(&self.entries, &drain.ids[drain.at]) {
                if !self.entries[i].given_up && self.entries[i].next_attempt_ms <= drain.now_ms {
                    return Some(self.entries[i].clone());
                }
            }
            let ghost before = drain@;
            drain.at = drain.at + 1;
            drain.outcome.skipped = drain.outcome.skipped + 1;
            assert(drain@ =~= (Draining {
                ahead: before.ahead.skip(1),
                tally: Tally { skipped: before.tally.skipped + 1, ..before.tally },
                ..before
            }));
        }
    }

    /// Takes down how an attempt on the next message ended.
    pub fn settle(&mut self, drain: &mut Drain, outcome: Outcome)
        requires
            old(self).wf(),
            old(drain).wf(),
            old(drain)@.ahead.len() > 0,
            old(self)@.contains_key(old(drain)@.ahead[0]),
        ensures
            final(self).wf(),
            final(drain).wf(),
            final(self)@ == settled(
                old(self)@,
                old(drain)@.ahead[0],
                outcome,
                old(drain)@.now_ms,
            ),
            final(drain)@ == (Draining {
                ahead: old(drain)@.ahead.skip(1),
                tally: counted(
                    old(drain)@.tally,
                    old(self)@[old(drain)@.ahead[0]],
                    old(drain)@.ahead[0],
                    outcome,
                ),
                ..old(drain)@
            }),
    {
        let ghost m = self@;
        let ghost d = drain@;
        assert(texts(drain.ids@).len() == drain.ids@.len());
        assert(d.ahead[0] == drain.ids@[drain.at as int]@);
        let id: String = drain.ids[drain.at].clone();
        let i: usize = match find(&self.entries, &id) {
            Some(i) => i,
            None => {
                return;
            },
        };
        let ghost w = m[id@];
        let mut entry: Queued = self.entries[i].clone();
        assert(drain.at < drain.ids.len());
        drain.at = drain.at + 1;
        match outcome {
            Outcome::Sent(filed) => {
                let _gone: Option<Queued> = shelf::drop_id(&mut self.entries, &id);
                let ghost before = drain.outcome@.sent;
                drain.outcome.sent.push((id, filed));
                assert(drain.outcome@.sent =~= before.push((id@, filed@)));
            },
            Outcome::NotSent(why) => {
                if entry.attempts < u32::MAX {
                    entry.attempts = entry.attempts + 1;
                }
                entry.last_error = Some(why.describe());
                if entry.attempts >= MAX_ATTEMPTS {
                    entry.given_up = true;
                    drain.outcome.given_up = drain.outcome.given_up + 1;
                } else {
                    entry.next_attempt_ms = later(drain.now_ms, next_delay(entry.attempts));
                    drain.outcome.deferred = drain.outcome.deferred + 1;
                }
                assert(entry.shown() =~= failed_again(w, why.words(), d.now_ms));
                put(&mut self.entries, entry);
            },
            Outcome::Ambiguous(why) => {
                entry.given_up = true;
                entry.last_error = Some(why.describe());
                drain.outcome.given_up = drain.outcome.given_up + 1;
                assert(entry.shown() =~= unclear(w, why.words()));
                put(&mut self.entries, entry);
            },
        }
        assert(drain@.ahead =~= d.ahead.skip(1));
        assert(drain@.tally =~= counted(d.tally, w, d.ahead[0], outcome));
    }
}

fn next_delay(attempts: u32) -> (r: i64)
    ensures
        r == delay(BASE_DELAY_MS as int, MAX_DELAY_MS as int, attempts as nat),
        r >= 0,
{
    let r: i64 = retry_delay_ms(attempts);
    proof {
        crate::backoff::backoff_is_monotone(
            BASE_DELAY_MS as int,
            MAX_DELAY_MS as int,
            0,
            attempts as nat,
        );
        vstd::arithmetic::power2::lemma2_to64();
    }
    r
}

fn first_delay() -> (r: i64)
    ensures
        r == delay(BASE_DELAY_MS as int, MAX_DELAY_MS as int, 1),
        r >= 0,
{
    next_delay(1)
}

/// A message that may have been delivered is never attempted again by itself:
/// whatever the clock says, it is not due.
pub proof fn an_unclear_send_is_never_retried(
    m: Map<Seq<char>, Waiting>,
    id: Seq<char>,
    outcome: Outcome,
    now_ms: i64,
    later_ms: i64,
)
    requires
        outcome is Ambiguous,
    ensures
        settled(m, id, outcome, now_ms).contains_key(id),
        !attemptable(settled(m, id, outcome, now_ms), id, later_ms),
{
}

/// Whatever an attempt on one message comes to, the others stay as they are, and
/// a message leaves the queue only when it was sent.
pub proof fn only_a_sent_message_leaves(
    m: Map<Seq<char>, Waiting>,
    id: Seq<char>,
    outcome: Outcome,
    now_ms: i64,
    other: Seq<char>,
)
    requires
        m.contains_key(other),
    ensures
        other != id ==> settled(m, id, outcome, now_ms).contains_key(other) && settled(
            m,
            id,
            outcome,
            now_ms,
        )[other] == m[other],
        !(outcome is Sent) ==> settled(m, id, outcome, now_ms).contains_key(other) && settled(
            m,
            id,
            outcome,
            now_ms,
        )[other].draft == m[other].draft,
{
}

/// A message that keeps failing stops: after the twelfth attempt it is not
/// attempted again, whatever the clock says.
pub proof fn a_failing_message_stops(w: Waiting, why: Seq<char>, now_ms: i64, later_ms: i64)
    requires
        w.attempts + 1 >= MAX_ATTEMPTS,
    ensures
        !failed_again(w, why, now_ms).due(later_ms),
{
}

/// Nothing is attempted before its time.
pub proof fn nothing_goes_early(d: Draining, m: Map<Seq<char>, Waiting>)
    ensures
        skipping(d, m).ahead.len() > 0 ==> attemptable(m, skipping(d, m).ahead[0], d.now_ms),
        skipping(d, m).now_ms == d.now_ms,
    decreases d.ahead.len(),
{
    if d.ahead.len() > 0 && !attemptable(m, d.ahead[0], d.now_ms) {
        nothing_goes_early(
            Draining {
                ahead: d.ahead.skip(1),
                tally: Tally { skipped: d.tally.skipped + 1, ..d.tally },
                ..d
            },
            m,
        );
    }
}

/// A message is attempted exactly when it is still queued, nobody gave it up, and its time
/// has come.
pub proof fn when_a_message_is_attempted(m: Map<Seq<char>, Waiting>, id: Seq<char>, now_ms: i64)
    ensures
        attemptable(m, id, now_ms) <==> m.contains_key(id) && !m[id].given_up
            && m[id].next_attempt_ms <= now_ms,
{
}

/// A drain passes over nothing that could go: whatever it leaves behind is gone, given up,
/// or not due yet, and it is counted.
pub proof fn nothing_due_is_passed_over(d: Draining, m: Map<Seq<char>, Waiting>) -> (n: int)
    ensures
        0 <= n <= d.ahead.len(),
        skipping(d, m).ahead == d.ahead.skip(n),
        skipping(d, m).tally.skipped == d.tally.skipped + n,
        skipping(d, m).tally.sent == d.tally.sent,
        skipping(d, m).tally.deferred == d.tally.deferred,
        skipping(d, m).tally.given_up == d.tally.given_up,
        forall|i: int|
            0 <= i < n ==> !m.contains_key(#[trigger] d.ahead[i]) || m[d.ahead[i]].given_up
                || m[d.ahead[i]].next_attempt_ms > d.now_ms,
        n < d.ahead.len() ==> m.contains_key(d.ahead[n]) && !m[d.ahead[n]].given_up
            && m[d.ahead[n]].next_attempt_ms <= d.now_ms,
    decreases d.ahead.len(),
{
    if d.ahead.len() == 0 || attemptable(m, d.ahead[0], d.now_ms) {
        assert(d.ahead.skip(0) =~= d.ahead);
        0
    } else {
        let next = Draining {
            ahead: d.ahead.skip(1),
            tally: Tally { skipped: d.tally.skipped + 1, ..d.tally },
            ..d
        };
        let k = nothing_due_is_passed_over(next, m);
        assert(next.ahead.skip(k) =~= d.ahead.skip(k + 1));
        assert forall|i: int| 0 <= i < k + 1 implies !m.contains_key(#[trigger] d.ahead[i])
            || m[d.ahead[i]].given_up || m[d.ahead[i]].next_attempt_ms > d.now_ms by {
            if i > 0 {
                assert(next.ahead[i - 1] == d.ahead[i]);
            }
        }
        k + 1
    }
}

/// What an attempt leaves of a message: sent, it is gone; not sent, it is kept whole, with
/// one attempt more and the words of the failure, and is either given up, at the twelfth,
/// or due again after a wait of at most half an hour; if it may have been delivered, it is
/// kept and given up. No other message is touched.
pub proof fn what_an_attempt_leaves(
    m: Map<Seq<char>, Waiting>,
    id: Seq<char>,
    outcome: Outcome,
    now_ms: i64,
    other: Seq<char>,
)
    requires
        m.contains_key(id),
        other != id,
        m[id].attempts < 1000,
        -1_000_000_000_000_000 < now_ms < 1_000_000_000_000_000,
    ensures
        ({
            let after = settled(m, id, outcome, now_ms);
            &&& outcome is Sent ==> !after.contains_key(id)
            &&& !(outcome is Sent) ==> after.contains_key(id) && after[id].draft == m[id].draft
            &&& outcome matches Outcome::NotSent(why) ==> after[id].attempts == m[id].attempts + 1
                && after[id].last_error == Some(why.words()) && (m[id].attempts + 1 >= 12
                ==> after[id].given_up) && (m[id].attempts + 1 < 12 ==> after[id].given_up
                == m[id].given_up && after[id].next_attempt_ms == now_ms + delay(
                60_000,
                1_800_000,
                (m[id].attempts + 1) as nat,
            ) && now_ms < after[id].next_attempt_ms <= now_ms + 1_800_000)
            &&& outcome matches Outcome::Ambiguous(why) ==> after[id].given_up
                && after[id].last_error == Some(why.words())
            &&& after.contains_key(other) <==> m.contains_key(other)
            &&& m.contains_key(other) ==> after[other] == m[other]
        }),
{
    if let Outcome::NotSent(why) = outcome {
        let n = (m[id].attempts + 1) as nat;
        crate::backoff::backoff_is_monotone(BASE_DELAY_MS as int, MAX_DELAY_MS as int, 0, n);
        crate::backoff::backoff_doubles(BASE_DELAY_MS as int, MAX_DELAY_MS as int, 0);
    }
}

/// Every attempt is counted once, as what it came to, and what was sent is kept to be filed.
pub proof fn every_attempt_is_counted(t: Tally, w: Waiting, id: Seq<char>, outcome: Outcome)
    requires
        w.attempts < 1000,
    ensures
        counted(t, w, id, outcome).total() == t.total() + 1,
        outcome matches Outcome::Sent(filed) ==> counted(t, w, id, outcome).sent == t.sent.push(
            (id, filed@),
        ),
        outcome is Ambiguous ==> counted(t, w, id, outcome).given_up == t.given_up + 1,
        outcome is NotSent && w.attempts + 1 >= 12 ==> counted(t, w, id, outcome).given_up
            == t.given_up + 1,
        outcome is NotSent && w.attempts + 1 < 12 ==> counted(t, w, id, outcome).deferred
            == t.deferred + 1,
{
}

/// A message that could not be sent is queued whole, with its first attempt behind it, and
/// goes again within two minutes; one that is to go at a chosen time goes then and not
/// before.
pub proof fn how_a_message_is_queued(draft: DraftText, why: Seq<char>, now_ms: i64, at_ms: i64)
    requires
        -1_000_000_000_000_000 < now_ms < 1_000_000_000_000_000,
    ensures
        queued_after(draft, why, now_ms).draft == draft,
        queued_after(draft, why, now_ms).attempts == 1,
        queued_after(draft, why, now_ms).last_error == Some(why),
        !queued_after(draft, why, now_ms).given_up,
        queued_after(draft, why, now_ms).next_attempt_ms == now_ms + 120_000,
        scheduled_for(draft, at_ms).draft == draft,
        scheduled_for(draft, at_ms).next_attempt_ms == at_ms,
        scheduled_for(draft, at_ms).attempts == 0,
        !scheduled_for(draft, at_ms).given_up,
{
    crate::backoff::backoff_doubles(BASE_DELAY_MS as int, MAX_DELAY_MS as int, 0);
}

/// How a waiting message is described: by its subject and whom it is for first, or by that
/// alone where it has no subject.
pub proof fn how_a_message_is_described(d: DraftText)
    requires
        d.to.len() > 0,
    ensures
        trimmed(d.subject).len() == 0 ==> described(d) == display(d.to[0]),
        trimmed(d.subject).len() > 0 ==> described(d) == d.subject + " \u{2014} "@ + display(
            d.to[0],
        ),
{
}

} // verus!
