//! Snooze: a message that comes back later.
//!
//! A schedule, and the arithmetic of "is this due yet". It moves nothing:
//! [`Schedule::due`] hands the caller [`Wake`] plans, and [`Schedule::woke`]
//! retires a record once the move actually happened.
//!
//! Identity is the `Message-ID`: a move renumbers a message, and the id is what
//! survives it. A message without one cannot be snoozed. Overdue wakes fire;
//! they never expire.

use vstd::prelude::*;

use crate::chars::{same, to_chars, trim_of, trimmed};
use crate::error::{Error, Result};
use crate::order::{in_order, orderly, sort, sorted, sorting_keeps_everything_in_order, Ordered};

verus! {

/// The file the schedule is kept in, dot-prefixed so that a maildir walker never
/// reads it as a mailbox.
pub const FILENAME: &'static str = ".snooze.toml";

/// One deferred message.
#[derive(Debug, PartialEq, Eq)]
pub struct Snoozed {
    /// `Message-ID` with the angle brackets stripped.
    pub message_id: String,
    /// The mailbox the message came from, and returns to.
    pub origin: String,
    /// Where it waits meanwhile.
    pub holding: String,
    /// When it comes back: epoch milliseconds, UTC, absolute.
    pub wake_at_ms: i64,
    /// When the user asked.
    pub snoozed_at_ms: i64,
    /// The subject as it was.
    pub subject: String,
}

impl Clone for Snoozed {
    fn clone(&self) -> (r: Self)
        ensures
            r == *self,
    {
        Snoozed {
            message_id: self.message_id.clone(),
            origin: self.origin.clone(),
            holding: self.holding.clone(),
            wake_at_ms: self.wake_at_ms,
            snoozed_at_ms: self.snoozed_at_ms,
            subject: self.subject.clone(),
        }
    }
}

impl Snoozed {
    /// Whether this record has come due at `now_ms`.
    #[must_use]
    pub fn is_due(&self, now_ms: i64) -> (r: bool)
        ensures
            r == (self.wake_at_ms <= now_ms),
    {
        self.wake_at_ms <= now_ms
    }
}

impl Ordered for Snoozed {
    /// Soonest first.
    open spec fn before(self, other: Snoozed) -> bool {
        self.wake_at_ms <= other.wake_at_ms
    }

    fn is_before(&self, other: &Snoozed) -> (r: bool) {
        self.wake_at_ms <= other.wake_at_ms
    }
}

/// What the caller must do to bring one message back.
#[derive(Debug, Clone, PartialEq, Eq)]
pub struct Wake {
    pub message_id: String,
    /// Where the message is now.
    pub from: String,
    /// Where it belongs again.
    pub to: String,
    /// Whether the restored message should be marked unread: always, because a
    /// message that returns already read returns invisible.
    pub mark_unread: bool,
}

impl Wake {
    /// Whether the message actually has to move, or merely be un-hidden.
    #[must_use]
    pub fn is_move(&self) -> (r: bool)
        ensures
            r == (self.from@ != self.to@),
    {
        !same(&self.from, &self.to)
    }
}

/// The plan that brings a message back.
pub open spec fn wake_of(s: Snoozed) -> Wake {
    Wake { message_id: s.message_id, from: s.holding, to: s.origin, mark_unread: true }
}

/// Where the record of a message stands; the length, if it has none.
pub open spec fn place(entries: Seq<Snoozed>, id: Seq<char>) -> nat
    decreases entries.len(),
{
    if entries.len() == 0 {
        0
    } else if entries[0].message_id@ == id {
        0
    } else {
        1 + place(entries.skip(1), id)
    }
}

/// A record deferred again: it keeps where it came from, and its subject unless
/// there is a new one.
pub open spec fn deferred_again(was: Snoozed, now: Snoozed) -> Snoozed {
    Snoozed {
        wake_at_ms: now.wake_at_ms,
        snoozed_at_ms: now.snoozed_at_ms,
        holding: now.holding,
        subject: if now.subject@.len() > 0 {
            now.subject
        } else {
            was.subject
        },
        ..was
    }
}

/// The schedule with one message deferred, or deferred again.
pub open spec fn with_record(entries: Seq<Snoozed>, record: Snoozed) -> Seq<Snoozed> {
    let i = place(entries, record.message_id@) as int;
    if i < entries.len() {
        entries.update(i, deferred_again(entries[i], record))
    } else {
        entries.push(record)
    }
}

/// The schedule without one message.
pub open spec fn without(entries: Seq<Snoozed>, id: Seq<char>) -> Seq<Snoozed>
    decreases entries.len(),
{
    if entries.len() == 0 {
        Seq::empty()
    } else {
        let front = without(entries.drop_last(), id);
        if entries.last().message_id@ == id {
            front
        } else {
            front.push(entries.last())
        }
    }
}

/// The records that have come due.
pub open spec fn ready(entries: Seq<Snoozed>, now_ms: i64) -> Seq<Snoozed>
    decreases entries.len(),
{
    if entries.len() == 0 {
        Seq::empty()
    } else {
        let front = ready(entries.drop_last(), now_ms);
        if entries.last().wake_at_ms <= now_ms {
            front.push(entries.last())
        } else {
            front
        }
    }
}

/// Is no message deferred twice?
pub open spec fn each_once(entries: Seq<Snoozed>) -> bool {
    forall|i: int, j: int|
        0 <= i < j < entries.len() ==> (#[trigger] entries[i]).message_id@ != (
        #[trigger] entries[j]).message_id@
}

proof fn lemma_place(entries: Seq<Snoozed>, id: Seq<char>)
    ensures
        place(entries, id) <= entries.len(),
        place(entries, id) < entries.len() ==> entries[place(entries, id) as int].message_id@ == id,
        forall|k: int| 0 <= k < place(entries, id) ==> (#[trigger] entries[k]).message_id@ != id,
    decreases entries.len(),
{
    if entries.len() > 0 && entries[0].message_id@ != id {
        let rest = entries.skip(1);
        lemma_place(rest, id);
        assert forall|k: int| 0 <= k < place(entries, id) implies (
        #[trigger] entries[k]).message_id@ != id by {
            if k > 0 {
                assert(rest[k - 1] == entries[k]);
            }
        }
    }
}

fn find(entries: &Vec<Snoozed>, id: &str) -> (r: usize)
    ensures
        r == place(entries@, id@),
        r <= entries@.len(),
{
    let mut i: usize = 0;
    assert(entries@.skip(0) =~= entries@);
    while i < entries.len()
        invariant
            i <= entries@.len(),
            place(entries@, id@) == i + place(entries@.skip(i as int), id@),
        decreases entries@.len() - i,
    {
        proof {
            assert(entries@.skip(i as int)[0] == entries@[i as int]);
            assert(entries@.skip(i as int).skip(1) =~= entries@.skip(i + 1));
        }
        if same(&entries[i].message_id, id) {
            return i;
        }
        i = i + 1;
    }
    i
}

/// The snooze schedule for one account.
#[derive(Debug)]
pub struct Schedule {
    entries: Vec<Snoozed>,
}

impl Default for Schedule {
    fn default() -> (r: Self)
        ensures
            r@ == Seq::<Snoozed>::empty(),
    {
        Schedule { entries: Vec::new() }
    }
}

impl Schedule {
    pub closed spec fn view(&self) -> Seq<Snoozed> {
        self.entries@
    }

    /// A schedule of these records.
    #[must_use]
    pub fn of(entries: Vec<Snoozed>) -> (r: Self)
        ensures
            r@ == entries@,
    {
        Schedule { entries }
    }

    /// Every record, in the order they were made.
    #[must_use]
    pub fn entries(&self) -> (r: &Vec<Snoozed>)
        ensures
            r@ == self@,
    {
        &self.entries
    }

    /// Every pending snooze, soonest first.
    #[must_use]
    pub fn pending(&self) -> (r: Vec<Snoozed>)
        ensures
            r@ == sorted(self@),
            r@.len() == self@.len(),
            forall|i: int, j: int|
                0 <= i <= j < r@.len() ==> (#[trigger] r@[i]).wake_at_ms <= (
                #[trigger] r@[j]).wake_at_ms,
    {
        let mut out: Vec<Snoozed> = Vec::new();
        let mut i: usize = 0;
        while i < self.entries.len()
            invariant
                i <= self.entries@.len(),
                out@ == self.entries@.take(i as int),
            decreases self.entries@.len() - i,
        {
            out.push(self.entries[i].clone());
            i = i + 1;
            assert(out@ =~= self.entries@.take(i as int));
        }
        assert(self.entries@.take(i as int) =~= self.entries@);
        sort(&mut out);
        proof {
            assert(orderly::<Snoozed>());
            sorting_keeps_everything_in_order(self@);
            assert forall|i: int, j: int| 0 <= i <= j < out@.len() implies (
            #[trigger] out@[i]).wake_at_ms <= (#[trigger] out@[j]).wake_at_ms by {
                assert(out@[i].before(out@[j]));
            }
        }
        out
    }

    /// The record for one message, if it is snoozed.
    #[must_use]
    pub fn get(&self, message_id: &str) -> (r: Option<&Snoozed>)
        ensures
            match r {
                Some(s) => place(self@, message_id@) < self@.len() && *s == self@[place(
                    self@,
                    message_id@,
                ) as int],
                None => place(self@, message_id@) == self@.len(),
            },
    {
        let i: usize = find(&self.entries, message_id);
        if i < self.entries.len() {
            Some(&self.entries[i])
        } else {
            None
        }
    }

    /// Defers a message, or reschedules one already deferred.
    ///
    /// Re-snoozing replaces rather than appends, and keeps where the message
    /// came from. A record without a message id is refused: nothing would
    /// identify the message when it came back.
    pub fn snooze(&mut self, record: Snoozed) -> (r: Result<()>)
        ensures
            match r {
                Ok(()) => trimmed(record.message_id@).len() > 0 && final(self)@ == with_record(
                    old(self)@,
                    record,
                ),
                Err(Error::Draft(m)) => trimmed(record.message_id@).len() == 0 && final(self)@
                    == old(self)@ && m@
                    == "a message with no Message-ID cannot be snoozed: nothing would identify it when it came back"@,
                Err(_) => false,
            },
    {
        let id: Vec<char> = to_chars(&record.message_id);
        if trim_of(&id).len() == 0 {
            return Err(
                Error::Draft(
                    "a message with no Message-ID cannot be snoozed: nothing would identify it when it came back".to_owned(),
                ),
            );
        }
        let i: usize = find(&self.entries, &record.message_id);
        if i < self.entries.len() {
            let was: Snoozed = self.entries[i].clone();
            let subject: String = if to_chars(&record.subject).len() > 0 {
                record.subject
            } else {
                was.subject
            };
            let next: Snoozed = Snoozed {
                message_id: was.message_id,
                origin: was.origin,
                holding: record.holding,
                wake_at_ms: record.wake_at_ms,
                snoozed_at_ms: record.snoozed_at_ms,
                subject,
            };
            self.entries.set(i, next);
        } else {
            self.entries.push(record);
        }
        Ok(())
    }

    /// Everything due at `now_ms`, oldest wake first, as plans to apply.
    ///
    /// Nothing is retired here: a wake that fails stays due and is returned
    /// again.
    #[must_use]
    pub fn due(&self, now_ms: i64) -> (r: Vec<Wake>)
        ensures
            r@ == sorted(ready(self@, now_ms)).map_values(|s: Snoozed| wake_of(s)),
    {
        let mut list: Vec<Snoozed> = Vec::new();
        let mut i: usize = 0;
        assert(self.entries@.take(0) =~= Seq::<Snoozed>::empty());
        while i < self.entries.len()
            invariant
                i <= self.entries@.len(),
                list@ == ready(self.entries@.take(i as int), now_ms),
            decreases self.entries@.len() - i,
        {
            proof {
                let all = self.entries@;
                assert(all.take(i + 1).drop_last() =~= all.take(i as int));
                assert(all.take(i + 1).last() == all[i as int]);
            }
            if self.entries[i].is_due(now_ms) {
                list.push(self.entries[i].clone());
            }
            i = i + 1;
        }
        assert(self.entries@.take(i as int) =~= self.entries@);
        sort(&mut list);
        let mut out: Vec<Wake> = Vec::new();
        let mut k: usize = 0;
        while k < list.len()
            invariant
                k <= list@.len(),
                out@.len() == k,
                forall|j: int| 0 <= j < k ==> #[trigger] out@[j] == wake_of(list@[j]),
            decreases list@.len() - k,
        {
            let s: &Snoozed = &list[k];
            out.push(
                Wake {
                    message_id: s.message_id.clone(),
                    from: s.holding.clone(),
                    to: s.origin.clone(),
                    mark_unread: true,
                },
            );
            k = k + 1;
        }
        assert(out@ =~= list@.map_values(|s: Snoozed| wake_of(s)));
        out
    }

    /// Retires a record: the message is back where it belongs.
    ///
    /// Returns whether anything was retired.
    pub fn woke(&mut self, message_id: &str) -> (r: Result<bool>)
        ensures
            final(self)@ == without(old(self)@, message_id@),
            r matches Ok(retired) && retired == (final(self)@.len() < old(self)@.len()),
    {
        let mut kept: Vec<Snoozed> = Vec::new();
        let mut i: usize = 0;
        assert(self.entries@.take(0) =~= Seq::<Snoozed>::empty());
        while i < self.entries.len()
            invariant
                i <= self.entries@.len(),
                kept@ == without(self.entries@.take(i as int), message_id@),
                kept@.len() <= i,
            decreases self.entries@.len() - i,
        {
            proof {
                let all = self.entries@;
                assert(all.take(i + 1).drop_last() =~= all.take(i as int));
                assert(all.take(i + 1).last() == all[i as int]);
            }
            if !same(&self.entries[i].message_id, message_id) {
                kept.push(self.entries[i].clone());
            }
            i = i + 1;
        }
        assert(self.entries@.take(i as int) =~= self.entries@);
        let retired: bool = kept.len() < self.entries.len();
        self.entries = kept;
        Ok(retired)
    }

    /// Cancels a snooze early: the user pulled the message back by hand.
    pub fn cancel(&mut self, message_id: &str) -> (r: Result<bool>)
        ensures
            final(self)@ == without(old(self)@, message_id@),
            r matches Ok(retired) && retired == (final(self)@.len() < old(self)@.len()),
    {
        self.woke(message_id)
    }
}

/// Re-snoozing reschedules rather than duplicates: a message is never deferred
/// twice.
pub proof fn re_snoozing_never_duplicates(entries: Seq<Snoozed>, record: Snoozed)
    requires
        each_once(entries),
    ensures
        each_once(with_record(entries, record)),
{
    lemma_place(entries, record.message_id@);
    let p = place(entries, record.message_id@) as int;
    let after = with_record(entries, record);
    assert forall|i: int, j: int| 0 <= i < j < after.len() implies (
    #[trigger] after[i]).message_id@ != (#[trigger] after[j]).message_id@ by {
        if p < entries.len() {
            assert(after[i].message_id == entries[i].message_id);
            assert(after[j].message_id == entries[j].message_id);
        } else if j == entries.len() {
            assert(after[i] == entries[i]);
        } else {
            assert(after[i] == entries[i] && after[j] == entries[j]);
        }
    }
}

/// Rescheduling keeps where a message came from, and moves its wake.
pub proof fn rescheduling_keeps_the_origin(entries: Seq<Snoozed>, record: Snoozed)
    requires
        place(entries, record.message_id@) < entries.len(),
    ensures
        with_record(entries, record).len() == entries.len(),
        with_record(entries, record)[place(entries, record.message_id@) as int].origin
            == entries[place(entries, record.message_id@) as int].origin,
        with_record(entries, record)[place(entries, record.message_id@) as int].wake_at_ms
            == record.wake_at_ms,
{
}

proof fn lemma_ready(entries: Seq<Snoozed>, now_ms: i64)
    ensures
        forall|i: int|
            0 <= i < ready(entries, now_ms).len() ==> (#[trigger] ready(
                entries,
                now_ms,
            )[i]).wake_at_ms <= now_ms,
        forall|i: int|
            0 <= i < entries.len() && (#[trigger] entries[i]).wake_at_ms <= now_ms ==> ready(
                entries,
                now_ms,
            ).contains(entries[i]),
    decreases entries.len(),
{
    if entries.len() > 0 {
        let front = entries.drop_last();
        lemma_ready(front, now_ms);
        let r = ready(entries, now_ms);
        let f = ready(front, now_ms);
        assert forall|i: int|
            0 <= i < entries.len() && (#[trigger] entries[i]).wake_at_ms <= now_ms implies r.contains(
            entries[i],
        ) by {
            if i < front.len() {
                assert(front[i] == entries[i]);
                let k = choose|k: int| 0 <= k < f.len() && f[k] == entries[i];
                assert(r[k] == entries[i]);
            } else {
                assert(r[f.len() as int] == entries[i]);
            }
        }
    }
}

/// What is due is exactly what has come due, oldest first: nothing fires before
/// its time, and however late it is, nothing expires.
pub proof fn overdue_wakes_fire_oldest_first(entries: Seq<Snoozed>, now_ms: i64, i: int)
    requires
        0 <= i < entries.len(),
    ensures
        sorted(ready(entries, now_ms)).contains(entries[i]) <== entries[i].wake_at_ms <= now_ms,
        in_order(sorted(ready(entries, now_ms))),
        forall|j: int, k: int|
            0 <= j <= k < sorted(ready(entries, now_ms)).len() ==> (#[trigger] sorted(
                ready(entries, now_ms),
            )[j]).wake_at_ms <= (#[trigger] sorted(ready(entries, now_ms))[k]).wake_at_ms,
        forall|k: int|
            0 <= k < sorted(ready(entries, now_ms)).len() ==> (#[trigger] sorted(
                ready(entries, now_ms),
            )[k]).wake_at_ms <= now_ms,
{
    broadcast use vstd::seq_lib::group_to_multiset_ensures;

    let r = ready(entries, now_ms);
    let s = sorted(r);
    lemma_ready(entries, now_ms);
    assert(orderly::<Snoozed>());
    sorting_keeps_everything_in_order(r);
    assert(s.to_multiset() == r.to_multiset());
    assert forall|j: int, k: int| 0 <= j <= k < s.len() implies (#[trigger] s[j]).wake_at_ms <= (
    #[trigger] s[k]).wake_at_ms by {
        assert(s[j].before(s[k]));
    }
    if entries[i].wake_at_ms <= now_ms {
        assert(r.contains(entries[i]));
        assert(r.to_multiset().contains(entries[i]));
        assert(s.to_multiset().contains(entries[i]));
    }
    assert forall|k: int| 0 <= k < s.len() implies (#[trigger] s[k]).wake_at_ms <= now_ms by {
        assert(s.contains(s[k]));
        assert(s.to_multiset().contains(s[k]));
        assert(r.to_multiset().contains(s[k]));
        assert(r.contains(s[k]));
    }
}

/// A confirmed wake is gone, and no other record is.
pub proof fn a_confirmed_wake_is_gone(entries: Seq<Snoozed>, id: Seq<char>, s: Snoozed)
    ensures
        without(entries, id).contains(s) <==> entries.contains(s) && s.message_id@ != id,
    decreases entries.len(),
{
    let w = without(entries, id);
    if entries.len() > 0 {
        let front = entries.drop_last();
        a_confirmed_wake_is_gone(front, id, s);
        let f = without(front, id);
        if entries.contains(s) && s.message_id@ != id {
            let k = choose|k: int| 0 <= k < entries.len() && entries[k] == s;
            if k < front.len() {
                assert(front[k] == s);
                let j = choose|j: int| 0 <= j < f.len() && f[j] == s;
                assert(w[j] == s);
            } else {
                assert(w[f.len() as int] == s);
            }
        }
        if w.contains(s) {
            let j = choose|j: int| 0 <= j < w.len() && w[j] == s;
            if j < f.len() {
                assert(f[j] == s);
                let k = choose|k: int| 0 <= k < front.len() && front[k] == s;
                assert(entries[k] == s);
            } else {
                assert(entries[entries.len() - 1] == s);
            }
        }
    }
}

/// What brings a message back moves it from where it waits to where it came from, and marks
/// it unread: one that came back read would come back unseen.
pub proof fn a_wake_goes_back_where_it_came_from(s: Snoozed)
    ensures
        wake_of(s).message_id == s.message_id,
        wake_of(s).from == s.holding,
        wake_of(s).to == s.origin,
        wake_of(s).mark_unread,
{
}

/// Deferring a message: one that was not deferred is put down as asked; one that was wakes
/// when it is asked to now, waits where it waits now, and has its new subject if there is
/// one. No other record changes.
pub proof fn a_deferred_message_is_put_down(entries: Seq<Snoozed>, record: Snoozed, at: int)
    requires
        0 <= at <= entries.len(),
        forall|i: int|
            0 <= i < at ==> (#[trigger] entries[i]).message_id@ != record.message_id@,
        at < entries.len() ==> entries[at].message_id@ == record.message_id@,
    ensures
        ({
            let after = with_record(entries, record);
            &&& at == entries.len() ==> after == entries.push(record)
            &&& at < entries.len() ==> after.len() == entries.len() && after[at].message_id
                == entries[at].message_id && after[at].wake_at_ms == record.wake_at_ms
                && after[at].snoozed_at_ms == record.snoozed_at_ms && after[at].holding
                == record.holding && after[at].origin == entries[at].origin && (
            record.subject@.len() > 0 ==> after[at].subject == record.subject) && (
            record.subject@.len() == 0 ==> after[at].subject == entries[at].subject)
            &&& forall|i: int|
                0 <= i < entries.len() && i != at ==> #[trigger] after[i] == entries[i]
        }),
{
    lemma_place(entries, record.message_id@);
    let p = place(entries, record.message_id@) as int;
    if p < at {
        assert(entries[p].message_id@ == record.message_id@);
    }
    if at < p {
        assert(entries[at].message_id@ != record.message_id@);
    }
}

} // verus!
