use cosmic_pim_mail::error::{is_transient_text, Error, IoKind};

#[test]
fn renumbering_and_auth_are_never_retried() {
    assert!(
        !Error::UidValidityChanged {
            mailbox: "INBOX".into(),
            had: 1,
            now: 2
        }
        .is_transient(),
        "a renumbered mailbox was classified as retryable; retrying stores \
         the wrong message under the right UID"
    );
    assert!(!Error::Auth("[AUTHENTICATIONFAILED]".into()).is_transient());
}

#[test]
fn network_failures_are_retried() {
    for text in [
        "connection reset by peer",
        "Connection refused (os error 111)",
        "operation timed out",
        "* BYE [UNAVAILABLE] server is busy",
    ] {
        assert!(
            Error::Imap(text.into()).is_transient(),
            "{text:?} should back off, not abandon the write"
        );
    }
}

#[test]
fn an_unrecognised_failure_is_permanent() {
    // Conservative on purpose: a push failing for a reason we have never
    // seen should surface to the user, not spin in the queue.
    assert!(!Error::Imap("NO [OVERQUOTA] mailbox is full".into()).is_transient());
}

#[test]
fn an_error_says_what_went_wrong() {
    assert_eq!(Error::Imap("boom".into()).describe(), "IMAP: boom");
    assert_eq!(Error::Draft("no sender".into()).describe(), "no sender");
    assert_eq!(
        Error::Io {
            kind: IoKind::NotFound,
            message: "gone".into(),
        }
        .describe(),
        "gone"
    );
}

#[test]
fn the_operating_system_is_waited_for_but_not_for_a_missing_file() {
    let io = |kind: IoKind| Error::Io {
        kind,
        message: String::new(),
    };
    assert!(io(IoKind::TimedOut).is_transient());
    assert!(io(IoKind::ConnectionReset).is_transient());
    assert!(!io(IoKind::NotFound).is_transient());
    assert!(!io(IoKind::Other).is_transient());
    assert!(is_transient_text("the operation Timed Out"));
}
