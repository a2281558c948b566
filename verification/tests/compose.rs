use cosmic_pim_mail::compose::{looks_like_an_address, Attachment, Draft};
use cosmic_pim_mail::model::{Mailbox, Message};

fn me() -> Mailbox {
    Mailbox {
        name: Some("Me".into()),
        address: "me@example.com".into(),
    }
}

fn parse(raw: &str) -> Message {
    Message::parse(raw.as_bytes()).expect("parse")
}

fn incoming() -> Message {
    parse(
        "Message-ID: <parent@x>\r\n\
         References: <root@x>\r\n\
         From: Ada <ada@example.com>\r\n\
         To: me@example.com, Cleo <cleo@example.org>\r\n\
         Cc: bob@example.net\r\n\
         Subject: Re: Release plan\r\n\
         Date: Mon, 3 Feb 2025 10:00:00 +0000\r\n\
         \r\n\
         Line one.\r\n\
         \r\n\
         Line two.\r\n",
    )
}

#[test]
fn a_reply_goes_to_the_sender_and_nobody_else() {
    let draft = Draft::reply(&incoming(), me(), false);
    assert_eq!(draft.to.len(), 1);
    assert_eq!(draft.to[0].address, "ada@example.com");
    assert!(draft.cc.is_empty());
}

#[test]
fn a_reply_all_includes_everyone_except_yourself() {
    // Including yourself puts a copy of every sent message back in your
    // inbox, and on a list it is how loops start.
    let draft = Draft::reply(&incoming(), me(), true);
    let recipients = draft.recipients();
    let addresses: Vec<&str> = recipients.iter().map(|m| m.address.as_str()).collect();
    assert!(addresses.contains(&"ada@example.com"));
    assert!(addresses.contains(&"cleo@example.org"));
    assert!(addresses.contains(&"bob@example.net"));
    assert!(
        !addresses.contains(&"me@example.com"),
        "the reply was addressed to the sender: {addresses:?}"
    );
}

#[test]
fn a_reply_honours_reply_to() {
    let message = parse(
        "From: someone@example.com\r\nReply-To: list@example.org\r\nSubject: x\r\n\r\nbody\r\n",
    );
    let draft = Draft::reply(&message, me(), false);
    assert_eq!(draft.to[0].address, "list@example.org");
}

#[test]
fn replying_to_your_own_message_still_has_recipients() {
    // A follow-up on a thread nobody answered.
    let mine = parse(
        "From: Me <me@example.com>\r\nTo: ada@example.com\r\nSubject: ping\r\n\r\nanyone?\r\n",
    );
    let draft = Draft::reply(&mine, me(), false);
    assert_eq!(draft.to[0].address, "ada@example.com");
    assert!(draft.problem().is_none());
}

#[test]
fn subject_prefixes_never_stack() {
    // "Re: Re: Fwd: Re:" is what clients that just prepend produce.
    let draft = Draft::reply(&incoming(), me(), false);
    assert_eq!(draft.subject, "Re: Release plan");
    let again = parse("Subject: Re: Re: Fwd: Deep thread\r\n\r\nbody\r\n");
    assert_eq!(
        Draft::reply(&again, me(), false).subject,
        "Re: Deep thread"
    );
}

#[test]
fn a_reply_extends_the_reference_chain_and_names_its_parent() {
    let draft = Draft::reply(&incoming(), me(), false);
    assert_eq!(draft.in_reply_to.as_deref(), Some("parent@x"));
    assert_eq!(draft.references, vec!["root@x", "parent@x"]);
}

#[test]
fn a_long_reference_chain_keeps_the_root_and_the_recent_end() {
    // The first entry is what every threading implementation hashes as the
    // root; dropping it splits the thread for everyone.
    let ids: Vec<String> = (0..40).map(|n| format!("<id{n}@x>")).collect();
    let raw = format!(
        "Message-ID: <newest@x>\r\nReferences: {}\r\nSubject: x\r\n\r\nbody\r\n",
        ids.join(" ")
    );
    let draft = Draft::reply(&parse(&raw), me(), false);
    assert_eq!(draft.references.len(), 20);
    assert_eq!(draft.references[0], "id0@x");
    assert_eq!(draft.references.last().unwrap(), "newest@x");
}

#[test]
fn a_reply_quotes_the_body_with_an_attribution() {
    let draft = Draft::reply(&incoming(), me(), false);
    assert!(draft.body.contains("Ada wrote:"), "{}", draft.body);
    assert!(draft.body.contains("> Line one."));
    assert!(
        draft.body.contains("\n>\n"),
        "an empty quoted line carried trailing whitespace"
    );
}

#[test]
fn a_very_long_quote_is_cut_rather_than_carried_whole() {
    let body = (0..200)
        .map(|n| format!("line {n}"))
        .collect::<Vec<_>>()
        .join("\r\n");
    let raw = format!("From: a@example.com\r\nSubject: x\r\n\r\n{body}\r\n");
    let draft = Draft::reply(&parse(&raw), me(), false);
    assert!(draft.body.contains("> [...]"));
    assert!(!draft.body.contains("line 199"));
}

#[test]
fn a_forward_carries_the_headers_a_reader_needs_and_no_quoting() {
    let draft = Draft::forward(&incoming(), me());
    assert_eq!(draft.subject, "Fwd: Release plan");
    assert!(draft.to.is_empty(), "a forward is addressed by the user");
    assert!(draft.body.contains("From: Ada <ada@example.com>"));
    assert!(draft.body.contains("Line one."));
    assert!(!draft.body.contains("> Line one."), "a forward was quoted");
    assert!(
        draft.in_reply_to.is_none(),
        "a forward is not a reply and must not thread as one"
    );
}

#[test]
fn bcc_reaches_the_envelope_but_not_the_recipients_copy() {
    // The entire meaning of the field. Leaking it tells every recipient who
    // else was copied.
    let mut draft = Draft::new(me());
    draft.to.push(Mailbox {
        name: None,
        address: "ada@example.com".into(),
    });
    draft.bcc.push(Mailbox {
        name: None,
        address: "secret@example.org".into(),
    });
    draft.subject = "x".into();
    draft.body = "hi".into();

    let sent = String::from_utf8(draft.build(false).unwrap().formatted()).unwrap();
    assert!(
        !sent.contains("secret@example.org"),
        "the blind copy leaked into the recipients' bytes"
    );

    let filed = String::from_utf8(draft.build(true).unwrap().formatted()).unwrap();
    assert!(
        filed.contains("secret@example.org"),
        "the Sent copy lost the only record of who was blind-copied"
    );
}

#[test]
fn a_built_reply_threads_for_the_recipients_client_too() {
    let mut draft = Draft::reply(&incoming(), me(), false);
    draft.body = "answering".into();
    let bytes = String::from_utf8(draft.build(false).unwrap().formatted()).unwrap();
    assert!(bytes.contains("In-Reply-To: <parent@x>"), "{bytes}");
    assert!(bytes.contains("References: <root@x> <parent@x>"), "{bytes}");
}

#[test]
fn a_draft_that_cannot_be_sent_says_why_before_it_is_built() {
    let mut draft = Draft::new(me());
    assert_eq!(draft.problem(), Some("this draft has no recipients"));

    draft.to.push(Mailbox {
        name: None,
        address: "not-an-address".into(),
    });
    assert_eq!(
        draft.problem(),
        Some("one of the addresses is not an address")
    );

    draft.to[0].address = "ada@example.com".into();
    assert!(draft.problem().is_none());
    assert!(draft.build(false).is_ok());
}

#[test]
fn address_checking_catches_typos_without_rejecting_valid_addresses() {
    for good in [
        "a@example.com",
        "first.last+tag@sub.example.co.uk",
        "δοκιμή@παράδειγμα.ελ",
    ] {
        assert!(looks_like_an_address(good), "{good} was rejected");
    }
    for bad in ["example.com", "a@@example.com", "a@localhost", "@example.com"] {
        assert!(!looks_like_an_address(bad), "{bad} was accepted");
    }
}

#[test]
fn a_reply_quotes_when_and_who() {
    let draft = Draft::reply(&incoming(), me(), false);
    assert!(
        draft
            .body
            .starts_with("\n\nOn 3 Feb 2025 at 10:00, Ada wrote:\n> Line one.\n>\n> Line two.\n"),
        "{}",
        draft.body
    );
}

#[test]
fn a_forward_says_when_and_to_whom() {
    let draft = Draft::forward(&incoming(), me());
    assert!(draft.body.contains("Date: 3 Feb 2025 at 10:00\n"));
    assert!(draft.body.contains("To: me@example.com, cleo@example.org\n"));
}

#[test]
fn an_address_the_mailer_cannot_read_is_named() {
    let mut draft = Draft::new(me());
    draft.to.push(Mailbox {
        name: None,
        address: "a b@example.com".into(),
    });
    assert!(draft.problem().is_none());
    let why = draft.build(false).unwrap_err().describe();
    assert!(why.starts_with("a b@example.com is not an address: "), "{why}");
}

#[test]
fn files_go_out_with_a_draft() {
    let mut draft = Draft::new(me());
    draft.to.push(Mailbox {
        name: Some("  ".into()),
        address: "ada@example.com".into(),
    });
    draft.subject = "With files".into();
    draft.body = "See attached.".into();
    draft.attachments.push(Attachment {
        name: "report.csv".into(),
        mime_type: "text/csv".into(),
        bytes: b"a,b".to_vec(),
    });
    draft.attachments.push(Attachment {
        name: "odd".into(),
        mime_type: "no such type".into(),
        bytes: b"x".to_vec(),
    });
    let bytes = draft.build(false).unwrap().formatted();
    let message = Message::parse(&bytes).unwrap();
    assert_eq!(message.subject, "With files");
    assert_eq!(message.to[0].name, None);
    assert!(message.body.text.contains("See attached."));
    let described: Vec<(&str, &str, usize)> = message
        .attachments
        .iter()
        .map(|a| (a.name.as_str(), a.mime_type.as_str(), a.size))
        .collect();
    assert_eq!(
        described,
        vec![
            ("report.csv", "text/csv", 3),
            ("odd", "application/octet-stream", 1)
        ]
    );
}

#[test]
fn a_reply_all_to_your_own_message_reaches_the_others_alone() {
    let sent = parse(
        "From: me@example.com\r\nTo: me@example.com, ada@example.com\r\nSubject: x\r\n\r\nhi\r\n",
    );
    let draft = Draft::reply(&sent, me(), true);
    let to: Vec<String> = draft.recipients().into_iter().map(|m| m.address).collect();
    assert!(!to.contains(&"me@example.com".to_owned()), "{to:?}");
    assert!(to.contains(&"ada@example.com".to_owned()), "{to:?}");
}

#[test]
fn a_note_to_yourself_is_still_answered() {
    let note = parse("From: me@example.com\r\nTo: me@example.com\r\nSubject: x\r\n\r\nhi\r\n");
    let draft = Draft::reply(&note, me(), false);
    assert_eq!(draft.to[0].address, "me@example.com");
}
