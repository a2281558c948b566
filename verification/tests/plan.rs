use std::collections::BTreeMap;

use cosmic_pim_mail::model::Flags;
use cosmic_pim_mail::plan::{held_of, held_uids, plan_fetch, plan_reconcile, MailboxPlan};
use cosmic_pim_mail::store::{Cursor, MailboxState};

fn seen() -> Flags {
    Flags {
        seen: true,
        ..Flags::default()
    }
}

fn state(last_uid: u32, held: &[(u32, Flags)]) -> MailboxState {
    MailboxState {
        cursor: Cursor {
            uid_validity: 1,
            last_uid,
            ..Cursor::default()
        },
        entries: held.iter().copied().collect(),
    }
}

#[test]
fn the_star_range_quirk_does_not_cause_a_refetch() {
    // `UID 10:*` on a mailbox whose highest UID is 9 answers with 9. A
    // client that trusts the range re-downloads that message every poll.
    let state = state(9, &[(9, seen())]);
    assert!(
        plan_fetch(&[9], &state).is_empty(),
        "the newest message was re-fetched on an idle poll"
    );
    assert_eq!(plan_fetch(&[9, 10, 11], &state), vec![10, 11]);
}

#[test]
fn a_uid_we_already_hold_is_never_refetched_even_above_the_cursor() {
    // Can happen after a partial cycle: the message landed, the cursor
    // commit did not.
    let state = state(5, &[(7, seen())]);
    assert_eq!(plan_fetch(&[7, 8], &state), vec![8]);
}

#[test]
fn reconcile_fetches_new_reflags_changed_and_drops_absent() {
    let local: BTreeMap<u32, Flags> = [(1, seen()), (2, Flags::default()), (3, seen())]
        .into_iter()
        .collect();
    let server = [(1, seen()), (2, seen()), (4, Flags::default())];

    let plan = plan_reconcile(&server, &local);
    assert_eq!(plan.to_fetch, vec![4]);
    assert_eq!(plan.flag_updates, vec![(2, seen())]);
    assert_eq!(plan.to_remove, vec![3]);
    assert!(!plan.guard_tripped);
}

#[test]
fn an_empty_listing_never_empties_the_mailbox() {
    let local: BTreeMap<u32, Flags> = [(1, seen())].into_iter().collect();
    let plan = plan_reconcile(&[], &local);
    assert!(plan.guard_tripped);
    assert!(
        plan.to_remove.is_empty(),
        "a server hiccup deleted the mailbox"
    );
    assert!(plan.to_fetch.is_empty());
}

#[test]
fn an_empty_mailbox_that_is_genuinely_empty_is_not_a_guard_trip() {
    let plan = plan_reconcile(&[], &BTreeMap::new());
    assert!(!plan.guard_tripped);
    assert_eq!(plan, MailboxPlan::default());
}

#[test]
fn a_maildir_only_flag_survives_reconciliation() {
    // The server cannot report `P` and must not be read as clearing it.
    let local: BTreeMap<u32, Flags> = [(
        1,
        Flags {
            passed: true,
            seen: true,
            ..Flags::default()
        },
    )]
    .into_iter()
    .collect();
    let plan = plan_reconcile(&[(1, seen())], &local);
    assert!(
        plan.flag_updates.is_empty(),
        "reconciliation rewrote a message to clear a flag the server never saw"
    );
}

#[test]
fn a_flag_cleared_on_the_server_is_cleared_locally() {
    // Both directions, not just "the server set something". Marking a
    // message unread on a phone has to reach the desktop.
    let local: BTreeMap<u32, Flags> = [(1, seen())].into_iter().collect();
    let plan = plan_reconcile(&[(1, Flags::default())], &local);
    assert_eq!(plan.flag_updates, vec![(1, Flags::default())]);
}

#[test]
fn held_uids_come_out_ascending() {
    let local: BTreeMap<u32, Flags> = [(9, seen()), (2, seen()), (5, Flags::default())]
        .into_iter()
        .collect();
    assert_eq!(held_uids(&local), vec![2, 5, 9]);
    assert_eq!(held_of(&[5, 7, 2], &local), vec![5, 2]);
}
