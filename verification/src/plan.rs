//! The reconciliation decision: given what the server lists and what is held,
//! decide what to fetch, what to re-flag, and what to drop.

use std::collections::{BTreeMap, HashSet};

use vstd::prelude::*;

use crate::model::Flags;
use crate::order::{a_set_of_numbers_is_listed, ascend, ascending, ascending_lists_each_once,
    lemma_listing_of, lemma_some_number, listing_of, sort, sorted, sorting_keeps_everything_in_order,
    strictly_ascending, Ordered};
use crate::store::{what_flag_updates_leave, Contents, MailboxState};

verus! {

/// The diff between a server listing and what the store holds.
#[derive(Debug, PartialEq, Eq)]
pub struct MailboxPlan {
    /// UIDs the server has and the store does not.
    pub to_fetch: Vec<u32>,
    /// UIDs whose flags differ, with the server's version.
    pub flag_updates: Vec<(u32, Flags)>,
    /// UIDs held that the server no longer lists.
    pub to_remove: Vec<u32>,
    /// The empty-listing guard fired: the server returned zero UIDs while
    /// messages are held.
    ///
    /// That shape is far more often a server hiccup than an emptied mailbox, so
    /// removals are skipped for the round and the next sync self-corrects.
    pub guard_tripped: bool,
}

impl Default for MailboxPlan {
    fn default() -> (r: Self)
        ensures
            r.to_fetch@ == Seq::<u32>::empty(),
            r.flag_updates@ == Seq::<(u32, Flags)>::empty(),
            r.to_remove@ == Seq::<u32>::empty(),
            !r.guard_tripped,
    {
        MailboxPlan {
            to_fetch: Vec::new(),
            flag_updates: Vec::new(),
            to_remove: Vec::new(),
            guard_tripped: false,
        }
    }
}

impl Ordered for (u32, Flags) {
    open spec fn before(self, other: (u32, Flags)) -> bool {
        self.0 <= other.0
    }

    fn is_before(&self, other: &(u32, Flags)) -> (r: bool) {
        self.0 <= other.0
    }
}

/// Listed UIDs that are above the cursor and not held, in the order listed.
pub open spec fn unheld_above(uids: Seq<u32>, last_uid: u32, held: Map<u32, Flags>) -> Seq<u32>
    decreases uids.len(),
{
    if uids.len() == 0 {
        Seq::empty()
    } else {
        let front = unheld_above(uids.drop_last(), last_uid, held);
        if uids.last() > last_uid && !held.contains_key(uids.last()) {
            front.push(uids.last())
        } else {
            front
        }
    }
}

/// What is fetched after a listing, ascending.
pub open spec fn fetch_plan(uids: Seq<u32>, last_uid: u32, held: Map<u32, Flags>) -> Seq<u32> {
    ascending(unheld_above(uids, last_uid, held))
}

/// UIDs above the cursor that are not already held, ascending.
///
/// The filter is not redundant with asking for `last_uid+1:*`: a `*` range
/// always returns something, so a mailbox with nothing new answers it with its
/// highest existing UID.
#[must_use]
pub fn plan_fetch(server_uids: &[u32], state: &MailboxState) -> (r: Vec<u32>)
    ensures
        r@ == fetch_plan(server_uids@, state.cursor.last_uid, state.entries@),
{
    broadcast use vstd::std_specs::btree::group_btree_axioms;

    let mut uids: Vec<u32> = Vec::new();
    let mut i: usize = 0;
    assert(server_uids@.take(0) =~= Seq::<u32>::empty());
    while i < server_uids.len()
        invariant
            i <= server_uids@.len(),
            uids@ == unheld_above(
                server_uids@.take(i as int),
                state.cursor.last_uid,
                state.entries@,
            ),
        decreases server_uids@.len() - i,
    {
        let uid: u32 = server_uids[i];
        proof {
            assert(server_uids@.take(i + 1).drop_last() =~= server_uids@.take(i as int));
            assert(server_uids@.take(i + 1).last() == uid);
        }
        if uid > state.cursor.last_uid && !state.entries.contains_key(&uid) {
            uids.push(uid);
        }
        i = i + 1;
    }
    assert(server_uids@.take(i as int) =~= server_uids@);
    ascend(uids)
}

/// Listed UIDs that are not held.
pub open spec fn missing(server: Seq<(u32, Flags)>, local: Map<u32, Flags>) -> Seq<u32>
    decreases server.len(),
{
    if server.len() == 0 {
        Seq::empty()
    } else {
        let front = missing(server.drop_last(), local);
        if local.contains_key(server.last().0) {
            front
        } else {
            front.push(server.last().0)
        }
    }
}

/// Held UIDs whose flags the server has otherwise, with what they become: the
/// server decides every flag but the one it knows nothing about.
pub open spec fn reflagged(
    server: Seq<(u32, Flags)>,
    local: Map<u32, Flags>,
) -> Seq<(u32, Flags)>
    decreases server.len(),
{
    if server.len() == 0 {
        Seq::empty()
    } else {
        let front = reflagged(server.drop_last(), local);
        let (uid, flags) = server.last();
        if local.contains_key(uid) && flags.merged(local[uid]) != local[uid] {
            front.push((uid, flags.merged(local[uid])))
        } else {
            front
        }
    }
}

/// Does the listing name this UID?
pub open spec fn listed(server: Seq<(u32, Flags)>, uid: u32) -> bool {
    exists|i: int| 0 <= i < server.len() && (#[trigger] server[i]).0 == uid
}

/// Held UIDs the listing does not name.
pub open spec fn gone(server: Seq<(u32, Flags)>, local: Map<u32, Flags>) -> Set<u32> {
    local.dom().filter(|uid: u32| !listed(server, uid))
}

/// Those of `uids` that the listing does not name.
pub open spec fn unlisted(server: Seq<(u32, Flags)>, uids: Seq<u32>) -> Seq<u32>
    decreases uids.len(),
{
    if uids.len() == 0 {
        Seq::empty()
    } else {
        let front = unlisted(server, uids.drop_last());
        if listed(server, uids.last()) {
            front
        } else {
            front.push(uids.last())
        }
    }
}

proof fn lemma_unlisted(server: Seq<(u32, Flags)>, uids: Seq<u32>)
    requires
        strictly_ascending(uids),
    ensures
        strictly_ascending(unlisted(server, uids)),
        forall|u: u32|
            #[trigger] unlisted(server, uids).contains(u) <==> uids.contains(u) && !listed(
                server,
                u,
            ),
    decreases uids.len(),
{
    let r = unlisted(server, uids);
    if uids.len() > 0 {
        let t = uids.drop_last();
        let front = unlisted(server, t);
        assert forall|i: int, j: int| 0 <= i < j < t.len() implies #[trigger] t[i]
            < #[trigger] t[j] by {
            assert(uids[i] < uids[j]);
        }
        lemma_unlisted(server, t);
        assert forall|u: u32| #[trigger] r.contains(u) <==> uids.contains(u) && !listed(server, u) by {
            if front.contains(u) {
                assert(t.contains(u));
                let k = choose|k: int| 0 <= k < t.len() && t[k] == u;
                assert(uids[k] == u);
                let m = choose|m: int| 0 <= m < front.len() && front[m] == u;
                assert(r[m] == u);
            }
            if r.contains(u) && !front.contains(u) {
                let m = choose|m: int| 0 <= m < r.len() && r[m] == u;
                if m < front.len() {
                    assert(front[m] == u);
                }
                assert(uids[uids.len() - 1] == u);
            }
            if uids.contains(u) && !listed(server, u) && !front.contains(u) {
                let k = choose|k: int| 0 <= k < uids.len() && uids[k] == u;
                if k < t.len() {
                    assert(t[k] == u);
                    assert(t.contains(u));
                }
                assert(r[r.len() - 1] == u);
            }
        }
        assert forall|i: int, j: int| 0 <= i < j < r.len() implies #[trigger] r[i]
            < #[trigger] r[j] by {
            if j == front.len() {
                assert(r[i] == front[i]);
                assert(front.contains(front[i]));
                assert(t.contains(front[i]));
                let k = choose|k: int| 0 <= k < t.len() && t[k] == front[i];
                assert(uids[k] < uids[uids.len() - 1]);
            } else {
                assert(front[i] < front[j]);
            }
        }
    }
}

/// An empty listing of a mailbox that holds something.
pub open spec fn suspicious(server: Seq<(u32, Flags)>, local: Map<u32, Flags>) -> bool {
    server.len() == 0 && local.dom().len() > 0
}

/// What is dropped after a listing, ascending. A suspicious listing drops
/// nothing.
pub open spec fn removals(server: Seq<(u32, Flags)>, local: Map<u32, Flags>) -> Seq<u32> {
    if suspicious(server, local) {
        Seq::empty()
    } else {
        listing_of(gone(server, local))
    }
}

/// The full reconciliation against an authoritative listing of the mailbox.
///
/// `server` must be the complete UID set with flags, not a windowed subset: a
/// window would make every message outside it look deleted.
#[must_use]
pub fn plan_reconcile(server: &[(u32, Flags)], local: &BTreeMap<u32, Flags>) -> (plan: MailboxPlan)
    ensures
        plan.guard_tripped == suspicious(server@, local@),
        plan.to_fetch@ == sorted(missing(server@, local@)),
        plan.flag_updates@ == sorted(reflagged(server@, local@)),
        plan.to_remove@ == removals(server@, local@),
{
    broadcast use vstd::std_specs::btree::group_btree_axioms;
    broadcast use vstd::std_specs::hash::group_hash_axioms;

    let mut plan = MailboxPlan::default();
    if server.len() == 0 && local.len() > 0 {
        plan.guard_tripped = true;
        return plan;
    }
    let mut seen: HashSet<u32> = HashSet::new();
    let mut i: usize = 0;
    assert(server@.take(0) =~= Seq::<(u32, Flags)>::empty());
    while i < server.len()
        invariant
            i <= server@.len(),
            plan.to_fetch@ == missing(server@.take(i as int), local@),
            plan.flag_updates@ == reflagged(server@.take(i as int), local@),
            plan.to_remove@ == Seq::<u32>::empty(),
            !plan.guard_tripped,
            forall|uid: u32|
                #[trigger] seen@.contains(uid) <==> exists|k: int|
                    0 <= k < i && (#[trigger] server@[k]).0 == uid,
        decreases server@.len() - i,
    {
        let (uid, flags) = server[i];
        proof {
            assert(server@.take(i + 1).drop_last() =~= server@.take(i as int));
            assert(server@.take(i + 1).last() == server@[i as int]);
        }
        let ghost before = seen@;
        seen.insert(uid);
        match local.get(&uid) {
            None => plan.to_fetch.push(uid),
            Some(held) => {
                let merged: Flags = flags.with_local_only_from(*held);
                if merged != *held {
                    plan.flag_updates.push((uid, merged));
                }
            },
        }
        proof {
            assert forall|u: u32|
                #[trigger] seen@.contains(u) <==> exists|k: int|
                    0 <= k < i + 1 && (#[trigger] server@[k]).0 == u by {
                if before.contains(u) {
                    let k = choose|k: int| 0 <= k < i && (#[trigger] server@[k]).0 == u;
                    assert(server@[k].0 == u);
                }
                if u == uid {
                    assert(server@[i as int].0 == u);
                }
            }
        }
        i = i + 1;
    }
    assert(server@.take(i as int) =~= server@);
    let keys = held_uids(local);
    let mut k: usize = 0;
    assert(keys@.take(0) =~= Seq::<u32>::empty());
    while k < keys.len()
        invariant
            k <= keys@.len(),
            forall|uid: u32| #[trigger] seen@.contains(uid) <==> listed(server@, uid),
            plan.to_fetch@ == missing(server@, local@),
            plan.flag_updates@ == reflagged(server@, local@),
            !plan.guard_tripped,
            plan.to_remove@ == unlisted(server@, keys@.take(k as int)),
        decreases keys@.len() - k,
    {
        let uid: u32 = keys[k];
        proof {
            assert(keys@.take(k + 1).drop_last() =~= keys@.take(k as int));
            assert(keys@.take(k + 1).last() == uid);
        }
        if !seen.contains(&uid) {
            plan.to_remove.push(uid);
        }
        k = k + 1;
    }
    proof {
        assert(keys@.take(k as int) =~= keys@);
        lemma_unlisted(server@, keys@);
        assert forall|u: u32|
            plan.to_remove@.to_set().contains(u) <==> gone(server@, local@).contains(u) by {
            assert(plan.to_remove@.contains(u) <==> keys@.contains(u) && !listed(server@, u));
            assert(keys@.contains(u) <==> keys@.to_set().contains(u));
        }
        assert(plan.to_remove@.to_set() =~= gone(server@, local@));
        lemma_listing_of(plan.to_remove@);
    }
    sort(&mut plan.to_fetch);
    sort(&mut plan.flag_updates);
    plan
}

/// The UIDs held, ascending.
pub fn held_uids(local: &BTreeMap<u32, Flags>) -> (r: Vec<u32>)
    ensures
        strictly_ascending(r@),
        r@.to_set() == local@.dom(),
{
    broadcast use vstd::std_specs::btree::group_btree_axioms;

    let mut out: Vec<u32> = Vec::new();
    for uid in it: local.keys()
        invariant
            out@ == it.seq().unref().take(it.index()),
            it.seq().unref().to_set() == local@.dom(),
            it.seq().unref().take(it.seq().len() as int) =~= it.seq().unref(),
    {
        proof {
            let all = it.seq().unref();
            assert(all.take(it.index() + 1) =~= all.take(it.index()).push(*uid));
        }
        out.push(*uid);
    }
    proof {
        ascending_lists_each_once(out@);
        assert(out@.to_set() == local@.dom());
        assert(ascending(out@).to_set() =~= out@.to_set()) by {
            assert forall|u: u32|
                ascending(out@).to_set().contains(u) <==> out@.to_set().contains(u) by {
                assert(ascending(out@).contains(u) <==> out@.contains(u));
            }
        }
    }
    ascend(out)
}

/// The updates a listing of changed flags comes to: [`reflagged`].
#[must_use]
pub fn flag_updates(server: &[(u32, Flags)], local: &BTreeMap<u32, Flags>) -> (r: Vec<(u32, Flags)>)
    ensures
        r@ == reflagged(server@, local@),
{
    broadcast use vstd::std_specs::btree::group_btree_axioms;

    let mut out: Vec<(u32, Flags)> = Vec::new();
    let mut i: usize = 0;
    assert(server@.take(0) =~= Seq::<(u32, Flags)>::empty());
    while i < server.len()
        invariant
            i <= server@.len(),
            out@ == reflagged(server@.take(i as int), local@),
        decreases server@.len() - i,
    {
        let (uid, flags) = server[i];
        proof {
            assert(server@.take(i + 1).drop_last() =~= server@.take(i as int));
            assert(server@.take(i + 1).last() == server@[i as int]);
        }
        match local.get(&uid) {
            None => {},
            Some(held) => {
                let merged: Flags = flags.with_local_only_from(*held);
                if merged != *held {
                    out.push((uid, merged));
                }
            },
        }
        i = i + 1;
    }
    assert(server@.take(i as int) =~= server@);
    out
}

/// Those of `uids` that are held.
pub open spec fn held_among(uids: Seq<u32>, local: Map<u32, Flags>) -> Seq<u32>
    decreases uids.len(),
{
    if uids.len() == 0 {
        Seq::empty()
    } else {
        let front = held_among(uids.drop_last(), local);
        if local.contains_key(uids.last()) {
            front.push(uids.last())
        } else {
            front
        }
    }
}

#[must_use]
pub fn held_of(uids: &[u32], local: &BTreeMap<u32, Flags>) -> (r: Vec<u32>)
    ensures
        r@ == held_among(uids@, local@),
{
    broadcast use vstd::std_specs::btree::group_btree_axioms;

    let mut out: Vec<u32> = Vec::new();
    let mut i: usize = 0;
    assert(uids@.take(0) =~= Seq::<u32>::empty());
    while i < uids.len()
        invariant
            i <= uids@.len(),
            out@ == held_among(uids@.take(i as int), local@),
        decreases uids@.len() - i,
    {
        let uid: u32 = uids[i];
        proof {
            assert(uids@.take(i + 1).drop_last() =~= uids@.take(i as int));
            assert(uids@.take(i + 1).last() == uid);
        }
        if local.contains_key(&uid) {
            out.push(uid);
        }
        i = i + 1;
    }
    assert(uids@.take(i as int) =~= uids@);
    out
}

/// An empty listing of a mailbox that holds something drops nothing: that shape
/// is far more often a server hiccup than an emptied mailbox.
pub proof fn an_empty_listing_drops_nothing(local: Map<u32, Flags>)
    requires
        local.dom().len() > 0,
    ensures
        suspicious(Seq::empty(), local),
        removals(Seq::empty(), local).len() == 0,
{
}

/// A message that is fetched is above the cursor, not held, and listed; every
/// such message is fetched, once.
pub proof fn what_is_fetched(uids: Seq<u32>, last_uid: u32, held: Map<u32, Flags>)
    ensures
        strictly_ascending(fetch_plan(uids, last_uid, held)),
        forall|u: u32|
            #[trigger] fetch_plan(uids, last_uid, held).contains(u) <==> uids.contains(u) && u
                > last_uid && !held.contains_key(u),
    decreases uids.len(),
{
    let f = unheld_above(uids, last_uid, held);
    ascending_lists_each_once(f);
    lemma_unheld_above(uids, last_uid, held);
    assert forall|u: u32|
        #[trigger] fetch_plan(uids, last_uid, held).contains(u) <==> uids.contains(u) && u
            > last_uid && !held.contains_key(u) by {
        assert(ascending(f).contains(u) <==> f.contains(u));
    }
}

proof fn lemma_unheld_above(uids: Seq<u32>, last_uid: u32, held: Map<u32, Flags>)
    ensures
        forall|u: u32|
            #[trigger] unheld_above(uids, last_uid, held).contains(u) <==> uids.contains(u) && u
                > last_uid && !held.contains_key(u),
    decreases uids.len(),
{
    let r = unheld_above(uids, last_uid, held);
    if uids.len() > 0 {
        let t = uids.drop_last();
        let front = unheld_above(t, last_uid, held);
        lemma_unheld_above(t, last_uid, held);
        assert forall|u: u32| #[trigger] r.contains(u) <==> uids.contains(u) && u > last_uid
            && !held.contains_key(u) by {
            if front.contains(u) {
                let k = choose|k: int| 0 <= k < t.len() && t[k] == u;
                assert(uids[k] == u);
                let m = choose|m: int| 0 <= m < front.len() && front[m] == u;
                assert(r[m] == u);
            }
            if r.contains(u) && !front.contains(u) {
                let m = choose|m: int| 0 <= m < r.len() && r[m] == u;
                if m < front.len() {
                    assert(front[m] == u);
                }
                assert(uids[uids.len() - 1] == u);
            }
            if uids.contains(u) && u > last_uid && !held.contains_key(u) && !front.contains(u) {
                let k = choose|k: int| 0 <= k < uids.len() && uids[k] == u;
                if k < t.len() {
                    assert(t[k] == u);
                    assert(t.contains(u));
                }
                assert(r[r.len() - 1] == u);
            }
        }
    }
}

proof fn lemma_reflagged(server: Seq<(u32, Flags)>, local: Map<u32, Flags>, uid: u32, flags: Flags)
    ensures
        reflagged(server, local).contains((uid, flags)) <==> local.contains_key(uid) && flags
            != local[uid] && exists|i: int|
            0 <= i < server.len() && (#[trigger] server[i]).0 == uid && flags
                == server[i].1.merged(local[uid]),
    decreases server.len(),
{
    let r = reflagged(server, local);
    let u = (uid, flags);
    if server.len() > 0 {
        let t = server.drop_last();
        let front = reflagged(t, local);
        lemma_reflagged(t, local, uid, flags);
        if front.contains(u) {
            let k = choose|k: int| 0 <= k < front.len() && front[k] == u;
            assert(r[k] == u);
            let i = choose|i: int|
                0 <= i < t.len() && (#[trigger] t[i]).0 == uid && flags == t[i].1.merged(local[uid]);
            assert(server[i] == t[i]);
        }
        if r.contains(u) && !front.contains(u) {
            let k = choose|k: int| 0 <= k < r.len() && r[k] == u;
            if k < front.len() {
                assert(front[k] == u);
            }
            assert(server[server.len() - 1].0 == uid);
        }
        if local.contains_key(uid) && flags != local[uid] && !front.contains(u) && (exists|i: int|
            0 <= i < server.len() && (#[trigger] server[i]).0 == uid && flags
                == server[i].1.merged(local[uid])) {
            let i = choose|i: int|
                0 <= i < server.len() && (#[trigger] server[i]).0 == uid && flags
                    == server[i].1.merged(local[uid]);
            if i < t.len() {
                assert(t[i] == server[i]);
            }
            assert(r[r.len() - 1] == u);
        }
    }
}

pub(crate) proof fn lemma_sorted_contains(s: Seq<(u32, Flags)>, u: (u32, Flags))
    ensures
        sorted(s).contains(u) <==> s.contains(u),
{
    broadcast use vstd::seq_lib::group_to_multiset_ensures;

    sorting_keeps_everything_in_order(s);
    assert(sorted(s).contains(u) <==> sorted(s).to_multiset().count(u) > 0);
    assert(s.contains(u) <==> s.to_multiset().count(u) > 0);
}

proof fn lemma_one_flag(c: Contents, updates: Seq<(u32, Flags)>, uid: u32, flags: Flags)
    requires
        c.entries.contains_key(uid),
        forall|f: Flags| #[trigger]
            updates.contains((uid, f)) <==> f == flags && flags != c.entries[uid],
    ensures
        c.with_all_flags(updates).entries[uid] == flags,
    decreases updates.len(),
{
    what_flag_updates_leave(c, updates, uid);
    if exists|k: int| 0 <= k < updates.len() && (#[trigger] updates[k]).0 == uid {
        let k0 = choose|k: int| 0 <= k < updates.len() && (#[trigger] updates[k]).0 == uid;
        let k = lemma_last_of(updates, uid, k0);
        assert(updates.contains((uid, updates[k].1))) by {
            assert(updates[k] == (uid, updates[k].1));
        }
        assert(updates[k].1 == flags);
    } else {
        if flags != c.entries[uid] {
            assert(updates.contains((uid, flags)));
            let k = choose|k: int| 0 <= k < updates.len() && updates[k] == (uid, flags);
            assert(updates[k].0 == uid);
        }
    }
}

proof fn lemma_last_of(updates: Seq<(u32, Flags)>, uid: u32, from: int) -> (k: int)
    requires
        0 <= from < updates.len(),
        updates[from].0 == uid,
    ensures
        from <= k < updates.len(),
        updates[k].0 == uid,
        forall|j: int| k < j < updates.len() ==> (#[trigger] updates[j]).0 != uid,
    decreases updates.len() - from,
{
    if exists|j: int| from < j < updates.len() && (#[trigger] updates[j]).0 == uid {
        let j = choose|j: int| from < j < updates.len() && (#[trigger] updates[j]).0 == uid;
        lemma_last_of(updates, uid, j)
    } else {
        from
    }
}

/// Every message that is held and that the server lists once has, after the updates of a
/// listing or of a window of changes, the server's flags in every field but the one the
/// server knows nothing about, which stays its own.
pub proof fn flags_are_taken_over(c: Contents, server: Seq<(u32, Flags)>, at: int)
    requires
        0 <= at < server.len(),
        forall|j: int| 0 <= j < server.len() && j != at ==> (#[trigger] server[j]).0 != server[at].0,
        c.entries.contains_key(server[at].0),
    ensures
        ({
            let uid = server[at].0;
            let given = server[at].1;
            let listing = c.with_all_flags(sorted(reflagged(server, c.entries))).entries;
            let window = c.with_all_flags(reflagged(server, c.entries)).entries;
            &&& listing.contains_key(uid) && listing[uid] == window[uid]
            &&& listing[uid].seen == given.seen
            &&& listing[uid].answered == given.answered
            &&& listing[uid].flagged == given.flagged
            &&& listing[uid].draft == given.draft
            &&& listing[uid].deleted == given.deleted
            &&& listing[uid].passed == c.entries[uid].passed
        }),
{
    let uid = server[at].0;
    let flags = server[at].1.merged(c.entries[uid]);
    let updates = reflagged(server, c.entries);
    assert forall|f: Flags| #[trigger]
        updates.contains((uid, f)) <==> f == flags && flags != c.entries[uid] by {
        lemma_reflagged(server, c.entries, uid, f);
        if f == flags && flags != c.entries[uid] {
            assert(server[at].0 == uid && f == server[at].1.merged(c.entries[uid]));
        }
        if updates.contains((uid, f)) {
            let i = choose|i: int|
                0 <= i < server.len() && (#[trigger] server[i]).0 == uid && f
                    == server[i].1.merged(c.entries[uid]);
            assert(i == at);
        }
    }
    assert forall|f: Flags| #[trigger]
        sorted(updates).contains((uid, f)) <==> f == flags && flags != c.entries[uid] by {
        lemma_sorted_contains(updates, (uid, f));
        assert(updates.contains((uid, f)) <==> f == flags && flags != c.entries[uid]);
    }
    lemma_one_flag(c, updates, uid, flags);
    lemma_one_flag(c, sorted(updates), uid, flags);
    what_flag_updates_leave(c, sorted(updates), uid);
}

/// A message that the server does not mention keeps its flags, and nothing but flags of
/// held messages ever changes.
pub proof fn unmentioned_flags_stay(c: Contents, server: Seq<(u32, Flags)>, uid: u32)
    requires
        forall|j: int| 0 <= j < server.len() ==> (#[trigger] server[j]).0 != uid,
    ensures
        c.with_all_flags(sorted(reflagged(server, c.entries))).entries[uid] == c.entries[uid],
        c.with_all_flags(reflagged(server, c.entries)).entries[uid] == c.entries[uid],
        c.with_all_flags(sorted(reflagged(server, c.entries))).raws == c.raws,
        c.with_all_flags(reflagged(server, c.entries)).raws == c.raws,
{
    let updates = reflagged(server, c.entries);
    assert forall|k: int| 0 <= k < updates.len() implies (#[trigger] updates[k]).0 != uid by {
        if updates[k].0 == uid {
            assert(updates.contains((uid, updates[k].1))) by {
                assert(updates[k] == (uid, updates[k].1));
            }
            lemma_reflagged(server, c.entries, uid, updates[k].1);
        }
    }
    let s = sorted(updates);
    assert forall|k: int| 0 <= k < s.len() implies (#[trigger] s[k]).0 != uid by {
        assert(s.contains(s[k]));
        lemma_sorted_contains(updates, s[k]);
        let m = choose|m: int| 0 <= m < updates.len() && updates[m] == s[k];
        assert(updates[m].0 != uid);
    }
    what_flag_updates_leave(c, updates, uid);
    what_flag_updates_leave(c, s, uid);
}

/// What a listing drops: exactly the messages that are held and that it does not name,
/// unless it names none at all while messages are held, which drops nothing.
pub proof fn what_is_dropped(server: Seq<(u32, Flags)>, local: Map<u32, Flags>, uid: u32)
    ensures
        removals(server, local).contains(uid) <==> local.contains_key(uid) && (forall|i: int|
            0 <= i < server.len() ==> (#[trigger] server[i]).0 != uid) && server.len() > 0,
{
    a_set_of_numbers_is_listed(gone(server, local));
    assert(listing_of(gone(server, local)).contains(uid) <==> gone(server, local).contains(uid));
    if local.contains_key(uid) && local.dom().len() == 0 {
        lemma_some_number(local.dom(), uid);
    }
    if removals(server, local).contains(uid) && server.len() == 0 {
        lemma_some_number(local.dom(), uid);
    }
}

/// What a listing has fetched again: exactly the messages that it names and that are not
/// held.
pub proof fn what_is_missing(server: Seq<(u32, Flags)>, local: Map<u32, Flags>, uid: u32)
    ensures
        sorted(missing(server, local)).contains(uid) <==> !local.contains_key(uid) && exists|i: int|
            0 <= i < server.len() && (#[trigger] server[i]).0 == uid,
{
    broadcast use vstd::seq_lib::group_to_multiset_ensures;

    let m = missing(server, local);
    sorting_keeps_everything_in_order(m);
    assert(sorted(m).contains(uid) <==> sorted(m).to_multiset().count(uid) > 0);
    assert(m.contains(uid) <==> m.to_multiset().count(uid) > 0);
    lemma_missing(server, local, uid);
}

proof fn lemma_missing(server: Seq<(u32, Flags)>, local: Map<u32, Flags>, uid: u32)
    ensures
        missing(server, local).contains(uid) <==> !local.contains_key(uid) && exists|i: int|
            0 <= i < server.len() && (#[trigger] server[i]).0 == uid,
    decreases server.len(),
{
    let r = missing(server, local);
    if server.len() > 0 {
        let t = server.drop_last();
        let front = missing(t, local);
        lemma_missing(t, local, uid);
        if front.contains(uid) {
            let k = choose|k: int| 0 <= k < front.len() && front[k] == uid;
            assert(r[k] == uid);
            let i = choose|i: int| 0 <= i < t.len() && (#[trigger] t[i]).0 == uid;
            assert(server[i].0 == uid);
        }
        if r.contains(uid) && !front.contains(uid) {
            let k = choose|k: int| 0 <= k < r.len() && r[k] == uid;
            if k < front.len() {
                assert(front[k] == uid);
            }
            assert(server[server.len() - 1].0 == uid);
        }
        if !local.contains_key(uid) && !front.contains(uid) && (exists|i: int|
            0 <= i < server.len() && (#[trigger] server[i]).0 == uid) {
            let i = choose|i: int| 0 <= i < server.len() && (#[trigger] server[i]).0 == uid;
            if i < t.len() {
                assert(t[i].0 == uid);
            }
            assert(r[r.len() - 1] == uid);
        }
    }
}

/// Those of some UIDs that are held.
pub proof fn who_is_held(uids: Seq<u32>, local: Map<u32, Flags>, uid: u32)
    ensures
        held_among(uids, local).contains(uid) <==> uids.contains(uid) && local.contains_key(uid),
    decreases uids.len(),
{
    let r = held_among(uids, local);
    if uids.len() > 0 {
        let t = uids.drop_last();
        let front = held_among(t, local);
        who_is_held(t, local, uid);
        if front.contains(uid) {
            let k = choose|k: int| 0 <= k < front.len() && front[k] == uid;
            assert(r[k] == uid);
            let i = choose|i: int| 0 <= i < t.len() && t[i] == uid;
            assert(uids[i] == uid);
        }
        if r.contains(uid) && !front.contains(uid) {
            let k = choose|k: int| 0 <= k < r.len() && r[k] == uid;
            if k < front.len() {
                assert(front[k] == uid);
            }
            assert(uids[uids.len() - 1] == uid);
        }
        if uids.contains(uid) && local.contains_key(uid) && !front.contains(uid) {
            let i = choose|i: int| 0 <= i < uids.len() && uids[i] == uid;
            if i < t.len() {
                assert(t[i] == uid);
            }
            assert(r[r.len() - 1] == uid);
        }
    }
}

} // verus!
