use cosmic_pim_mail::compose::Draft;
use cosmic_pim_mail::error::Error;
use cosmic_pim_mail::model::Mailbox;
use cosmic_pim_mail::outbox::{
    retry_delay_ms, DrainOutcome, Outbox, MAX_ATTEMPTS, MAX_DELAY_MS,
};
use cosmic_pim_mail::smtp::Outcome;

/// Attempts every message that is due.
fn drain_with(
    outbox: &mut Outbox,
    mut send: impl FnMut(&Draft) -> Outcome,
    now_ms: i64,
) -> DrainOutcome {
    let mut drain = outbox.drain(now_ms);
    while let Some(queued) = outbox.next(&mut drain) {
        let outcome = send(&queued.draft);
        outbox.settle(&mut drain, outcome);
    }
    drain.finish()
}

/// A drain while nothing is listening.
fn drain(outbox: &mut Outbox, now_ms: i64) -> DrainOutcome {
    drain_with(outbox, |_| refused(), now_ms)
}

fn draft(subject: &str) -> Draft {
    let mut draft = Draft::new(Mailbox {
        name: Some("Me".into()),
        address: "me@example.com".into(),
    });
    draft.to.push(Mailbox {
        name: Some("Ada".into()),
        address: "ada@example.com".into(),
    });
    draft.subject = subject.into();
    draft.body = "Written on a train.".into();
    draft
}

fn outbox() -> ((), Outbox) {
    ((), Outbox::default())
}

fn refused() -> Outcome {
    Outcome::NotSent(Error::Smtp("connection refused".into()))
}

#[test]
fn a_send_that_never_reached_the_server_is_queued_and_survives_a_restart() {
    // The whole point: mail written offline should leave when the network
    // comes back, without anybody remembering to press anything.
    let mut before = Outbox::default();
    before
        .queue("00000001", &draft("On a train"), &refused(), 0)
        .unwrap();
    let mut outbox = Outbox::default();
    for queued in before.list() {
        outbox.write(queued.clone()).unwrap();
    }
    let queued = outbox.list();
    assert_eq!(queued.len(), 1);
    assert_eq!(queued[0].draft.subject, "On a train");
    assert_eq!(queued[0].attempts, 1);
    assert!(queued[0].last_error.is_some());
    assert!(queued[0].is_live());
}

#[test]
fn a_message_that_may_have_been_delivered_is_refused_at_the_door() {
    // The invariant, enforced rather than documented: a queue that retried
    // this would send it twice, with no way to take either back.
    let (_dir, mut outbox) = outbox();
    let ambiguous = Outcome::Ambiguous(Error::Smtp("timed out".into()));
    let refused_error = outbox
        .queue("00000001", &draft("Risky"), &ambiguous, 0)
        .expect_err("an ambiguous send must not be queueable");
    assert!(
        refused_error
            .describe()
            .contains("may already have been delivered")
    );
    assert!(outbox.list().is_empty());
}

#[test]
fn a_message_that_was_sent_is_refused_too() {
    let (_dir, mut outbox) = outbox();
    assert!(
        outbox
            .queue("00000001", &draft("Gone"), &Outcome::Sent(Vec::new()), 0)
            .is_err()
    );
}

#[test]
fn an_entry_that_is_not_due_yet_is_skipped_rather_than_attempted() {
    let (_dir, mut outbox) = outbox();
    outbox
        .queue("00000001", &draft("Later"), &refused(), 0)
        .unwrap();

    let outcome = drain(&mut outbox, 1_000);
    assert_eq!(outcome.skipped, 1);
    assert_eq!(outcome.deferred, 0);
    assert_eq!(
        outbox.list()[0].attempts,
        1,
        "an attempt was consumed by an entry that was not due"
    );
}

#[test]
fn a_failing_drain_backs_off_and_keeps_the_message() {
    let (_dir, mut outbox) = outbox();
    outbox
        .queue("00000001", &draft("Still offline"), &refused(), 0)
        .unwrap();

    let outcome = drain(&mut outbox, MAX_DELAY_MS + 1);
    assert_eq!(outcome.deferred, 1);
    assert!(outcome.sent.is_empty());
    assert!(!outcome.needs_attention());

    let queued = &outbox.list()[0];
    assert_eq!(queued.attempts, 2);
    assert!(queued.is_live());
    assert_eq!(
        queued.draft.subject, "Still offline",
        "the message was lost"
    );
}

#[test]
fn a_message_that_keeps_failing_stops_rather_than_retrying_for_a_week() {
    let (_dir, mut outbox) = outbox();
    outbox
        .queue("00000001", &draft("Doomed"), &refused(), 0)
        .unwrap();

    // The clock has to move past each backoff, or every drain after the
    // first is correctly skipped as not-yet-due.
    let mut now = 0_i64;
    for _ in 0..MAX_ATTEMPTS {
        now += MAX_DELAY_MS + 1;
        drain(&mut outbox, now);
    }

    let queued = &outbox.list()[0];
    assert!(
        queued.given_up,
        "it is still retrying after {MAX_ATTEMPTS} attempts"
    );
    assert!(
        !queued.draft.subject.is_empty(),
        "giving up must not discard the message"
    );
}

#[test]
fn a_stopped_message_is_not_attempted_again_until_someone_says_so() {
    let (_dir, mut outbox) = outbox();
    outbox
        .queue("00000001", &draft("Stopped"), &refused(), 0)
        .unwrap();
    let mut now = 0_i64;
    for _ in 0..MAX_ATTEMPTS {
        now += MAX_DELAY_MS + 1;
        drain(&mut outbox, now);
    }

    let outcome = drain(&mut outbox, now + MAX_DELAY_MS);
    assert_eq!(outcome.skipped, 1);
    assert_eq!(outcome.deferred, 0);

    outbox.retry("00000001").unwrap();
    let queued = &outbox.list()[0];
    assert!(queued.is_live());
    assert_eq!(queued.attempts, 0);
    assert_eq!(queued.next_attempt_ms, 0, "it is not due now");
}

#[test]
fn messages_go_out_in_the_order_they_were_written() {
    let (_dir, mut outbox) = outbox();
    for (id, subject) in [
        ("00000003", "third"),
        ("00000001", "first"),
        ("00000002", "second"),
    ] {
        outbox.queue(id, &draft(subject), &refused(), 0).unwrap();
    }
    let subjects: Vec<String> = outbox
        .list()
        .iter()
        .map(|queued| queued.draft.subject.clone())
        .collect();
    assert_eq!(subjects, ["first", "second", "third"]);
}

#[test]
fn backoff_doubles_from_a_minute_to_a_half_hour_ceiling() {
    assert_eq!(retry_delay_ms(0), 60_000);
    assert_eq!(retry_delay_ms(1), 120_000);
    assert_eq!(retry_delay_ms(20), MAX_DELAY_MS);
    for attempts in [12, 63, 64, u32::MAX] {
        assert_eq!(retry_delay_ms(attempts), MAX_DELAY_MS);
    }
}

#[test]
fn a_scheduled_send_waits_for_its_time_and_then_goes() {
    let (_dir, mut outbox) = outbox();
    outbox
        .schedule("0000000000000001", &draft("later"), 10_000)
        .unwrap();

    // Before the deadline: nothing is sent, nothing is attempted.
    let early = drain_with(
        &mut outbox,
        |_| panic!("a not-yet-due message was submitted"),
        9_999,
    );
    assert_eq!(early.skipped, 1);

    let due = drain_with(&mut outbox, |_| Outcome::Sent(b"bytes".to_vec()), 10_000);
    assert_eq!(due.sent.len(), 1);
    assert_eq!(outbox.count(), 0);
}

#[test]
fn a_draft_that_cannot_be_sent_is_refused_at_scheduling_time() {
    // The alternative is failing at the send time, when nobody is looking
    // at a composer any more.
    let (_dir, mut outbox) = outbox();
    let unfinished = Draft::new(Mailbox {
        name: None,
        address: "me@example.com".into(),
    });
    assert!(outbox.schedule("0000000000000002", &unfinished, 0).is_err());
    assert_eq!(outbox.count(), 0);
}

#[test]
fn cancelling_hands_the_draft_back_exactly_once() {
    let (_dir, mut outbox) = outbox();
    outbox
        .schedule("0000000000000003", &draft("regretted"), i64::MAX)
        .unwrap();

    let taken = outbox.cancel("0000000000000003").unwrap();
    assert_eq!(taken.expect("the draft came back").subject, "regretted");
    assert_eq!(outbox.count(), 0);

    assert!(
        outbox.cancel("0000000000000003").unwrap().is_none(),
        "a second cancel resurrected the message"
    );
}

#[test]
fn a_queued_message_keeps_its_attachments() {
    // The reason a draft holds bytes rather than a path: the file may be
    // long gone by the time the network comes back.
    let (_dir, mut outbox) = outbox();
    let mut draft = draft("With a file");
    draft.attachments.push(cosmic_pim_mail::compose::Attachment {
        name: "report.csv".into(),
        mime_type: "text/csv".into(),
        bytes: b"a,b\n1,2\n".to_vec(),
    });
    outbox.queue("00000001", &draft, &refused(), 0).unwrap();

    let queued = &outbox.list()[0];
    assert_eq!(queued.draft.attachments[0].bytes, b"a,b\n1,2\n");
}

#[test]
fn outbox_removing_a_message_that_is_already_gone_is_not_an_error() {
    let (_dir, mut outbox) = outbox();
    outbox
        .queue("00000001", &draft("x"), &refused(), 0)
        .unwrap();
    outbox.remove("00000001").unwrap();
    outbox.remove("00000001").unwrap();
    assert_eq!(outbox.count(), 0);
}

#[test]
fn an_id_that_could_escape_the_directory_is_refused() {
    let (_dir, mut outbox) = outbox();
    assert!(
        outbox
            .queue("../../evil", &draft("x"), &refused(), 0)
            .is_err()
    );
    assert_eq!(outbox.count(), 0);
}

#[test]
fn a_queued_send_that_turns_out_unclear_is_never_attempted_again() {
    let (_dir, mut outbox) = outbox();
    outbox.schedule("0a", &draft("risky"), 0).unwrap();
    let outcome = drain_with(
        &mut outbox,
        |_| Outcome::Ambiguous(Error::Smtp("timed out".into())),
        1,
    );
    assert_eq!(outcome.given_up, 1);
    assert!(outcome.needs_attention());
    let later = drain_with(&mut outbox, |_| panic!("it was sent again"), i64::MAX);
    assert_eq!(later.skipped, 1);
    assert_eq!(outbox.count(), 1, "the message was lost");
}

#[test]
fn a_message_taken_back_during_a_drain_is_passed_over() {
    let (_dir, mut outbox) = outbox();
    outbox.schedule("0a", &draft("kept"), 0).unwrap();
    outbox.schedule("0b", &draft("regretted"), 0).unwrap();
    let mut drain = outbox.drain(1);
    let first = outbox.next(&mut drain).unwrap();
    assert_eq!(first.id, "0a");
    outbox.cancel("0b").unwrap().unwrap();
    outbox.settle(&mut drain, Outcome::Sent(b"x".to_vec()));
    assert!(outbox.next(&mut drain).is_none());
    let outcome = drain.finish();
    assert_eq!(outcome.sent, vec![("0a".to_owned(), b"x".to_vec())]);
    assert_eq!(outcome.skipped, 1);
}

#[test]
fn a_queued_message_is_described_by_its_subject_and_recipient() {
    let (_dir, mut outbox) = outbox();
    outbox.schedule("0a", &draft("Plans"), 0).unwrap();
    outbox.schedule("0b", &draft("  "), 0).unwrap();
    assert_eq!(outbox.list()[0].describe(), "Plans \u{2014} Ada");
    assert_eq!(outbox.list()[1].describe(), "Ada");
}

#[test]
fn an_id_that_is_none_is_named() {
    let (_dir, mut outbox) = outbox();
    assert_eq!(
        outbox
            .schedule("x y", &draft("a"), 0)
            .unwrap_err()
            .describe(),
        "x y is not an id"
    );
}
