use cosmic_pim_mail::snooze::{Schedule, Snoozed};

const HOUR_MS: i64 = 3_600_000;

fn schedule() -> ((), Schedule) {
    ((), Schedule::default())
}

fn record(message_id: &str, wake_at_ms: i64) -> Snoozed {
    Snoozed {
        message_id: message_id.to_owned(),
        origin: "INBOX".to_owned(),
        holding: "Snoozed".to_owned(),
        wake_at_ms,
        snoozed_at_ms: 0,
        subject: "Deferred".to_owned(),
    }
}

#[test]
fn a_snooze_survives_a_reopen() {
    let (_dir, mut schedule) = schedule();
    schedule.snooze(record("a@test", 10 * HOUR_MS)).unwrap();

    // Durability is the whole feature: a deferral that dies with the
    // process is a message the user never sees again.
    let reopened = Schedule::of(schedule.entries().clone());
    assert_eq!(reopened.pending().len(), 1);
    assert_eq!(reopened.get("a@test").unwrap().origin, "INBOX");
}

#[test]
fn nothing_is_due_before_its_time() {
    let (_dir, mut schedule) = schedule();
    schedule.snooze(record("a@test", 10 * HOUR_MS)).unwrap();
    assert!(schedule.due(9 * HOUR_MS).is_empty());
}

#[test]
fn a_due_snooze_plans_the_move_home_and_marks_it_unread() {
    let (_dir, mut schedule) = schedule();
    schedule.snooze(record("a@test", 10 * HOUR_MS)).unwrap();

    let due = schedule.due(10 * HOUR_MS);
    assert_eq!(due.len(), 1);
    assert_eq!(due[0].from, "Snoozed");
    assert_eq!(due[0].to, "INBOX");
    assert!(due[0].is_move());
    assert!(
        due[0].mark_unread,
        "a message that returns already-read returns invisible"
    );
}

/// The machine was off for a week. Everything deferred meanwhile comes
/// back — dropping the overdue ones would swallow exactly the mail the
/// user chose to defer.
#[test]
fn overdue_wakes_fire_oldest_first_rather_than_expiring() {
    let (_dir, mut schedule) = schedule();
    schedule.snooze(record("late@test", 2 * HOUR_MS)).unwrap();
    schedule.snooze(record("later@test", 5 * HOUR_MS)).unwrap();
    schedule
        .snooze(record("future@test", 99 * HOUR_MS))
        .unwrap();

    let due = schedule.due(50 * HOUR_MS);
    assert_eq!(due.len(), 2);
    assert_eq!(due[0].message_id, "late@test");
    assert_eq!(due[1].message_id, "later@test");
}

/// A wake that failed to apply must come back next cycle.
#[test]
fn a_wake_stays_due_until_it_is_confirmed() {
    let (_dir, mut schedule) = schedule();
    schedule.snooze(record("a@test", HOUR_MS)).unwrap();

    assert_eq!(schedule.due(2 * HOUR_MS).len(), 1);
    assert_eq!(
        schedule.due(2 * HOUR_MS).len(),
        1,
        "reading the due list retired a record the caller never applied"
    );

    assert!(schedule.woke("a@test").unwrap());
    assert!(schedule.due(2 * HOUR_MS).is_empty());
}

#[test]
fn confirming_a_wake_that_is_already_gone_is_false_not_an_error() {
    let (_dir, mut schedule) = schedule();
    assert!(!schedule.woke("never-snoozed@test").unwrap());
}

#[test]
fn re_snoozing_reschedules_rather_than_duplicating() {
    let (_dir, mut schedule) = schedule();
    schedule.snooze(record("a@test", HOUR_MS)).unwrap();
    schedule.snooze(record("a@test", 20 * HOUR_MS)).unwrap();

    assert_eq!(
        schedule.pending().len(),
        1,
        "two records for one message would wake it twice"
    );
    assert_eq!(schedule.get("a@test").unwrap().wake_at_ms, 20 * HOUR_MS);
    assert!(schedule.due(2 * HOUR_MS).is_empty());
}

/// Woken into the inbox, snoozed again from there: it must still come
/// home to the inbox, not to wherever it happened to be held.
#[test]
fn rescheduling_keeps_the_original_origin() {
    let (_dir, mut schedule) = schedule();
    let mut first = record("a@test", HOUR_MS);
    first.origin = "Projects".to_owned();
    schedule.snooze(first).unwrap();

    let mut again = record("a@test", 20 * HOUR_MS);
    again.origin = "Snoozed".to_owned(); // the app read the current mailbox
    schedule.snooze(again).unwrap();

    assert_eq!(
        schedule.get("a@test").unwrap().origin,
        "Projects",
        "the message would have been sent back to the holding mailbox"
    );
}

#[test]
fn a_message_with_no_id_is_refused_rather_than_guessed_at() {
    let (_dir, mut schedule) = schedule();
    let outcome = schedule.snooze(record("   ", HOUR_MS));
    assert!(outcome.is_err(), "a message with no identity was snoozed");
    assert!(schedule.pending().is_empty());
}

#[test]
fn cancelling_removes_it_without_waiting() {
    let (_dir, mut schedule) = schedule();
    schedule.snooze(record("a@test", 99 * HOUR_MS)).unwrap();
    assert!(schedule.cancel("a@test").unwrap());
    assert!(schedule.pending().is_empty());
}

#[test]
fn pending_is_sorted_by_when_each_comes_back() {
    let (_dir, mut schedule) = schedule();
    schedule.snooze(record("c@test", 30 * HOUR_MS)).unwrap();
    schedule.snooze(record("a@test", 10 * HOUR_MS)).unwrap();
    schedule.snooze(record("b@test", 20 * HOUR_MS)).unwrap();

    let pending = schedule.pending();
    let ids: Vec<&str> = pending
        .iter()
        .map(|e| e.message_id.as_str())
        .collect();
    assert_eq!(ids, ["a@test", "b@test", "c@test"]);
}

/// Where no snooze mailbox can be made, the app hides the message locally
/// and names the origin as the holding place. The wake is then a flag
/// change, not a move — and the plan says so rather than asking the
/// caller to compare strings itself.
#[test]
fn a_locally_hidden_snooze_plans_no_move() {
    let (_dir, mut schedule) = schedule();
    let mut local = record("a@test", HOUR_MS);
    local.holding = "INBOX".to_owned();
    schedule.snooze(local).unwrap();

    let due = schedule.due(2 * HOUR_MS);
    assert!(!due[0].is_move());
    assert!(due[0].mark_unread);
}

#[test]
fn a_new_subject_replaces_the_old_and_no_subject_keeps_it() {
    let (_dir, mut schedule) = schedule();
    schedule.snooze(record("a@test", HOUR_MS)).unwrap();
    let mut untitled = record("a@test", 2 * HOUR_MS);
    untitled.subject = String::new();
    schedule.snooze(untitled).unwrap();
    assert_eq!(schedule.get("a@test").unwrap().subject, "Deferred");
    let mut retitled = record("a@test", 3 * HOUR_MS);
    retitled.subject = "Again".to_owned();
    schedule.snooze(retitled).unwrap();
    assert_eq!(schedule.get("a@test").unwrap().subject, "Again");
}
