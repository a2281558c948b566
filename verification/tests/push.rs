use cosmic_pim_mail::error::Error;
use cosmic_pim_mail::model::Flags;
use cosmic_pim_mail::push::{
    drain, retry_delay_ms, Failure, MemoryQueue, PushOp, PushQueue, Writeback, MAX_DELAY_MS,
};

#[derive(Default)]
struct FakeServer {
    /// Errors to return, newest last; `None` means succeed.
    script: Vec<Option<Error>>,
    calls: Vec<PushOp>,
    /// What the server currently holds, for the read-modify-write paths.
    flags: std::collections::HashMap<u32, Flags>,
}

impl FakeServer {
    fn failing(error: Error) -> Self {
        Self {
            script: vec![Some(error)],
            calls: Vec::new(),
            flags: std::collections::HashMap::new(),
        }
    }

    fn next(&mut self) -> cosmic_pim_mail::error::Result<()> {
        match self.script.pop() {
            Some(Some(error)) => Err(error),
            _ => Ok(()),
        }
    }
}

impl Writeback for FakeServer {
    fn flags_for(&mut self, uid: u32) -> cosmic_pim_mail::error::Result<Option<Flags>> {
        Ok(self.flags.get(&uid).copied())
    }
    fn store_flags(&mut self, uid: u32, flags: Flags) -> cosmic_pim_mail::error::Result<()> {
        self.calls.push(PushOp::SetFlags { uid, flags });
        self.next()
    }
    fn move_message(&mut self, uid: u32, destination: &str) -> cosmic_pim_mail::error::Result<()> {
        self.calls.push(PushOp::Move {
            uid,
            destination: destination.to_owned(),
        });
        self.next()
    }
    fn delete_message(&mut self, uid: u32) -> cosmic_pim_mail::error::Result<()> {
        self.calls.push(PushOp::Delete { uid });
        self.next()
    }
}

fn seen() -> Flags {
    Flags {
        seen: true,
        ..Flags::default()
    }
}

fn set_flags(uid: u32) -> PushOp {
    PushOp::SetFlags { uid, flags: seen() }
}

/* ---------------- mark_unread ---------------- */

/// The hazard the helper exists for: `FLAGS.SILENT` replaces the set, so
/// clearing `\Seen` without reading first would take the user's star
/// with it.
#[test]
fn marking_unread_keeps_every_other_flag() {
    let mut server = FakeServer::default();
    server.flags.insert(
        7,
        Flags {
            seen: true,
            flagged: true,
            answered: true,
            ..Flags::default()
        },
    );

    assert!(server.mark_unread(7).unwrap());
    assert_eq!(
        server.calls,
        vec![PushOp::SetFlags {
            uid: 7,
            flags: Flags {
                seen: false,
                flagged: true,
                answered: true,
                ..Flags::default()
            },
        }],
        "the star or the answered mark was clobbered"
    );
}

#[test]
fn marking_an_already_unread_message_writes_nothing() {
    let mut server = FakeServer::default();
    server.flags.insert(7, Flags::default());

    assert!(server.mark_unread(7).unwrap());
    assert!(
        server.calls.is_empty(),
        "a needless write bumped MODSEQ for every other client"
    );
}

/// A backend that cannot read flags back writes nothing rather than
/// guessing: a blind write trades an invisible message for a lost star,
/// and the caller is the one entitled to make that trade.
#[test]
fn a_backend_that_cannot_read_flags_declines_rather_than_guessing() {
    struct Blind(Vec<PushOp>);
    impl Writeback for Blind {
        fn store_flags(&mut self, uid: u32, flags: Flags) -> cosmic_pim_mail::error::Result<()> {
            self.0.push(PushOp::SetFlags { uid, flags });
            Ok(())
        }
        fn move_message(&mut self, _uid: u32, _destination: &str) -> cosmic_pim_mail::error::Result<()> {
            Ok(())
        }
        fn delete_message(&mut self, _uid: u32) -> cosmic_pim_mail::error::Result<()> {
            Ok(())
        }
    }

    let mut blind = Blind(Vec::new());
    assert!(!blind.mark_unread(7).unwrap());
    assert!(blind.0.is_empty(), "a blind write happened anyway");
}

#[test]
fn a_message_another_client_expunged_is_not_an_error() {
    let mut server = FakeServer::default();
    assert!(!server.mark_unread(404).unwrap());
    assert!(server.calls.is_empty());
}

#[test]
fn backoff_doubles_from_fifteen_seconds_to_an_hour_ceiling() {
    assert_eq!(retry_delay_ms(0), 15_000);
    assert_eq!(retry_delay_ms(1), 30_000);
    assert_eq!(retry_delay_ms(2), 60_000);
    assert_eq!(retry_delay_ms(20), MAX_DELAY_MS, "the ceiling did not hold");
}

#[test]
fn backoff_never_overflows_however_long_it_has_been_failing() {
    for attempts in [12, 13, 63, 64, 1000, u32::MAX] {
        assert_eq!(retry_delay_ms(attempts), MAX_DELAY_MS);
    }
}

#[test]
fn re_enqueueing_the_same_uid_replaces_rather_than_appends() {
    let mut queue = MemoryQueue::default();
    queue.enqueue(set_flags(1)).unwrap();
    queue.defer(1, Failure::Retry, "boom", 999_999).unwrap();
    queue.enqueue(set_flags(1)).unwrap();

    let pending = queue.pending();
    assert_eq!(pending.len(), 1, "the queue accumulated duplicates");
    assert_eq!(
        pending[0].attempts, 0,
        "backoff was not reset by a new edit"
    );
    assert_eq!(pending[0].next_attempt_ms, 0);
}

#[test]
fn a_move_supersedes_queued_flags_but_flags_never_cancel_a_move() {
    let mut queue = MemoryQueue::default();
    queue.enqueue(set_flags(1)).unwrap();
    queue
        .enqueue(PushOp::Move {
            uid: 1,
            destination: "Archive".into(),
        })
        .unwrap();
    queue.enqueue(set_flags(1)).unwrap();

    let pending = queue.pending();
    assert_eq!(pending.len(), 1);
    assert!(
        matches!(pending[0].op, PushOp::Move { .. }),
        "a flag change cancelled the archive the user asked for"
    );
}

#[test]
fn a_transient_failure_backs_off_and_stays_live() {
    let mut server = FakeServer::failing(Error::Imap("connection reset by peer".into()));
    let mut queue = MemoryQueue::default();
    queue.enqueue(set_flags(1)).unwrap();

    let outcome = drain(&mut server, &mut queue, 0);

    assert_eq!(outcome.deferred, 1);
    assert!(!outcome.is_stuck());
    let entry = &queue.pending()[0];
    assert_eq!(entry.attempts, 1);
    assert_eq!(entry.next_attempt_ms, retry_delay_ms(1));
    assert!(entry.is_live());
    assert!(
        entry.last_error.is_some(),
        "the reason was not kept for the UI"
    );
}

#[test]
fn a_renumbered_mailbox_leaves_the_retry_loop() {
    // Retrying would apply the flag to whatever message now holds the UID.
    let mut server = FakeServer::failing(Error::UidValidityChanged {
        mailbox: "INBOX".into(),
        had: 1,
        now: 2,
    });
    let mut queue = MemoryQueue::default();
    queue.enqueue(set_flags(1)).unwrap();

    let outcome = drain(&mut server, &mut queue, 0);

    assert_eq!(outcome.needs_reconcile, 1);
    assert_eq!(outcome.deferred, 0, "a renumbering was scheduled for retry");
    assert_eq!(queue.pending()[0].blocked, Some(Failure::Reconcile));
}

#[test]
fn bad_credentials_stop_rather_than_hammering_the_server() {
    let mut server = FakeServer::failing(Error::Auth("[AUTHENTICATIONFAILED]".into()));
    let mut queue = MemoryQueue::default();
    queue.enqueue(set_flags(1)).unwrap();

    let outcome = drain(&mut server, &mut queue, 0);

    assert_eq!(outcome.needs_user, 1);
    assert!(outcome.is_stuck());
    assert_eq!(queue.pending()[0].attempts, 0, "a retry slot was consumed");
}

#[test]
fn a_blocked_entry_is_not_attempted_again() {
    let mut queue = MemoryQueue::default();
    queue.enqueue(set_flags(1)).unwrap();
    queue.defer(1, Failure::User, "[NOPERM]", 0).unwrap();

    let mut server = FakeServer::default();
    let outcome = drain(&mut server, &mut queue, i64::MAX);

    assert_eq!(outcome.skipped, 1);
    assert!(server.calls.is_empty(), "a hopeless operation was retried");
}

#[test]
fn a_new_edit_unblocks_a_stopped_entry() {
    // The user fixed the password and starred the message again. The queue
    // must not stay stuck on the old verdict.
    let mut queue = MemoryQueue::default();
    queue.enqueue(set_flags(1)).unwrap();
    queue
        .defer(1, Failure::User, "[AUTHENTICATIONFAILED]", 0)
        .unwrap();
    queue.enqueue(set_flags(1)).unwrap();
    assert!(queue.pending()[0].is_live());
}

#[test]
fn an_entry_that_is_not_due_yet_is_skipped_not_attempted() {
    let mut queue = MemoryQueue::default();
    queue.enqueue(set_flags(1)).unwrap();
    queue.defer(1, Failure::Retry, "boom", 10_000).unwrap();

    let mut server = FakeServer::default();
    let outcome = drain(&mut server, &mut queue, 5_000);

    assert_eq!(outcome.skipped, 1);
    assert!(server.calls.is_empty());
    assert_eq!(queue.pending()[0].attempts, 1, "an attempt was consumed");
}

#[test]
fn a_successful_push_leaves_the_queue_empty() {
    let mut server = FakeServer::default();
    let mut queue = MemoryQueue::default();
    queue.enqueue(set_flags(1)).unwrap();
    queue.enqueue(PushOp::Delete { uid: 2 }).unwrap();

    let outcome = drain(&mut server, &mut queue, 0);

    assert_eq!(outcome.succeeded, 2);
    assert!(queue.pending().is_empty());
}

#[test]
fn response_codes_are_read_rather_than_guessed_at() {
    for (message, expected) in [
        ("NO [EXPUNGED] message no longer exists", Failure::Reconcile),
        ("NO [TRYCREATE] mailbox does not exist", Failure::Reconcile),
        ("NO [OVERQUOTA] mailbox is full", Failure::User),
        ("NO [NOPERM] read-only mailbox", Failure::User),
        ("BYE [UNAVAILABLE] server busy", Failure::Retry),
        ("NO something nobody has documented", Failure::User),
    ] {
        assert_eq!(
            Failure::of(&Error::Imap(message.into())),
            expected,
            "{message}"
        );
    }
}

#[test]
fn resolving_drops_every_entry_of_a_uid_and_no_other() {
    let mut queue = MemoryQueue::default();
    queue.enqueue(set_flags(1)).unwrap();
    queue.enqueue(set_flags(2)).unwrap();
    queue.resolve(1).unwrap();
    let pending = queue.pending();
    assert_eq!(pending.len(), 1);
    assert_eq!(pending[0].op.uid(), 2);
}
