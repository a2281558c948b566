use cosmic_pim_mail::compose::Draft;
use cosmic_pim_mail::error::Error;
use cosmic_pim_mail::imap::Security;
use cosmic_pim_mail::model::Mailbox;
use cosmic_pim_mail::smtp::{conclude, prepare, Outcome, SendFailure, SmtpEndpoint};

/// A submission that ends in `failure`, if the draft can be sent at all.
fn send(draft: &Draft, failure: Option<SendFailure>) -> Outcome {
    match prepare(draft) {
        Ok(prepared) => conclude(prepared.filed, failure),
        Err(outcome) => outcome,
    }
}

fn failure(message: &str) -> SendFailure {
    SendFailure {
        permanent: false,
        code: None,
        timeout: false,
        response: false,
        client: false,
        transport_shutdown: false,
        message: message.to_owned(),
    }
}

fn draft() -> Draft {
    let mut draft = Draft::new(Mailbox {
        name: Some("Me".into()),
        address: "me@example.com".into(),
    });
    draft.to.push(Mailbox {
        name: None,
        address: "ada@example.com".into(),
    });
    draft.subject = "Hello".into();
    draft.body = "Hi there.".into();
    draft
}

#[test]
fn an_unsendable_draft_never_reaches_a_socket() {
    let outcome = send(&Draft::new(Mailbox::default()), None);
    assert!(
        outcome.is_retryable(),
        "validation was reported as ambiguous"
    );
    assert!(
        outcome.error().unwrap().describe().contains("no sender"),
        "{:?}",
        outcome.error()
    );
}

#[test]
fn a_refused_connection_is_safe_to_retry() {
    // Port 1 refuses instantly: the server never saw the message.
    let outcome = send(&draft(), Some(failure("connection refused")));
    assert!(
        outcome.is_retryable(),
        "an offline send was made terminal: {:?}",
        outcome.error()
    );
}

#[test]
fn the_ambiguous_outcome_is_not_retryable() {
    // The property the whole module exists for, asserted directly because
    // provoking a real mid-DATA timeout in a unit test is not worth the
    // machinery.
    let ambiguous = Outcome::Ambiguous(Error::Smtp("timed out".into()));
    assert!(!ambiguous.is_retryable());
    assert!(!ambiguous.is_sent());
    assert!(Outcome::NotSent(Error::Smtp("refused".into())).is_retryable());
    assert!(Outcome::Sent(Vec::new()).is_sent());
    assert!(!Outcome::Sent(Vec::new()).is_retryable());
}

#[test]
fn the_filed_copy_keeps_bcc_and_is_what_the_outcome_carries() {
    let mut draft = draft();
    draft.bcc.push(Mailbox {
        name: None,
        address: "secret@example.org".into(),
    });
    let filed = String::from_utf8(draft.build(true).unwrap().formatted()).unwrap();
    let wire = String::from_utf8(draft.build(false).unwrap().formatted()).unwrap();
    assert!(filed.contains("secret@example.org"));
    assert!(!wire.contains("secret@example.org"));
}

#[test]
fn each_way_a_server_may_have_had_the_message_is_ambiguous() {
    let ways: [fn(&mut SendFailure); 5] = [
        |f| f.permanent = true,
        |f| f.timeout = true,
        |f| f.response = true,
        |f| f.client = true,
        |f| f.transport_shutdown = true,
    ];
    for way in ways {
        let mut f = failure("x");
        way(&mut f);
        assert!(matches!(send(&draft(), Some(f)), Outcome::Ambiguous(_)));
    }
}

#[test]
fn a_blind_copy_is_on_the_envelope_and_in_the_filed_copy_only() {
    let mut draft = draft();
    draft.bcc.push(Mailbox {
        name: None,
        address: "secret@example.org".into(),
    });
    let prepared = prepare(&draft).unwrap();
    assert_eq!(
        prepared.outgoing.recipients,
        vec!["ada@example.com", "secret@example.org"]
    );
    assert_eq!(prepared.outgoing.sender.as_deref(), Some("me@example.com"));
    assert!(!prepared.outgoing.shows_bcc);
    let filed = String::from_utf8(prepared.filed).unwrap();
    assert!(filed.contains("secret@example.org"));
}

#[test]
fn the_conventional_endpoint_is_implicit_tls() {
    let endpoint = SmtpEndpoint::tls("smtp.example.com", "me");
    assert_eq!((endpoint.port, endpoint.security), (465, Security::Tls));
}

#[test]
fn a_refused_login_sent_nothing() {
    let mut f = failure("535 5.7.8 bad credentials");
    f.permanent = true;
    f.code = Some(535);
    assert!(matches!(send(&draft(), Some(f)), Outcome::NotSent(_)));
}
