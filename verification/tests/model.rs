use cosmic_pim_mail::model::{header_id_list, strip_angles, Flags, ImapFlag, Mailbox, Message};

const SIMPLE: &[u8] = b"From: Ada Lovelace <Ada@Example.COM>\r\n\
To: bob@example.net\r\n\
Subject: Re: [devs] analytical engine\r\n\
Message-ID: <abc@example.com>\r\n\
In-Reply-To: <parent@example.com>\r\n\
References: <root@example.com> <parent@example.com>\r\n\
Date: Mon, 3 Feb 2025 10:00:00 +0000\r\n\
\r\n\
Body text.\r\n";

#[test]
fn headers_are_extracted_for_display() {
    let msg = Message::parse(SIMPLE).unwrap();
    assert_eq!(msg.sender().unwrap().display(), "Ada Lovelace");
    assert_eq!(
        msg.sender().unwrap().address,
        "ada@example.com",
        "the address was not folded to lowercase, so it will not match an \
         address book entry"
    );
    assert_eq!(msg.sender().unwrap().domain(), "example.com");
    assert_eq!(msg.message_id.as_deref(), Some("abc@example.com"));
    assert_eq!(msg.subject_norm, "analytical engine");
    assert_eq!(msg.date.unwrap(), 1_738_576_800);
}

#[test]
fn reference_headers_round_trip_into_threadable_text() {
    let msg = Message::parse(SIMPLE).unwrap();
    assert_eq!(
        msg.references, "<root@example.com> <parent@example.com>",
        "References must reach threading as header text, oldest first"
    );
    assert_eq!(msg.in_reply_to, "<parent@example.com>");
}

#[test]
fn a_reply_goes_to_reply_to_when_the_sender_asked() {
    let raw = b"From: list@example.com\r\nReply-To: humans@example.com\r\n\r\nhi\r\n";
    let msg = Message::parse(raw).unwrap();
    assert_eq!(msg.reply_target()[0].address, "humans@example.com");
    let msg = Message::parse(SIMPLE).unwrap();
    assert_eq!(msg.reply_target()[0].address, "ada@example.com");
}

#[test]
fn a_message_with_nothing_in_it_still_parses() {
    // Not a hypothetical: servers store bodiless probes, and a client that
    // returns None here shows the user an empty mailbox.
    let msg = Message::parse(b"\r\n").unwrap();
    assert!(msg.from.is_empty());
    assert_eq!(msg.subject, "");
    assert!(msg.date.is_none());
}

#[test]
fn maildir_flag_letters_round_trip_in_ascii_order() {
    let flags = Flags {
        seen: true,
        flagged: true,
        draft: true,
        ..Default::default()
    };
    assert_eq!(
        flags.to_maildir_info(),
        "DFS",
        "flags must be ASCII-ordered"
    );
    assert_eq!(Flags::from_maildir_info("SFD"), flags);
}

#[test]
fn unknown_maildir_letters_are_ignored_not_rejected() {
    // Dovecot writes a-z for custom keywords in the same field.
    let flags = Flags::from_maildir_info("Sab");
    assert!(flags.seen);
    assert!(!flags.draft);
}

#[test]
fn passed_survives_a_server_flag_reconciliation() {
    let local = Flags {
        passed: true,
        seen: true,
        ..Default::default()
    };
    let from_server = Flags {
        seen: true,
        flagged: true,
        ..Default::default()
    };
    let merged = from_server.with_local_only_from(local);
    assert!(
        merged.passed,
        "P is maildir-only and the server cannot report it"
    );
    assert!(merged.flagged);
}

#[test]
fn imap_flags_omit_the_maildir_only_one() {
    let flags = Flags {
        seen: true,
        passed: true,
        ..Default::default()
    };
    assert_eq!(
        flags.to_imap(),
        vec!["\\Seen"],
        "P was invented as a keyword"
    );
}

#[test]
fn flags_a_server_reports_are_read_and_the_rest_ignored() {
    let flags = Flags::from_imap(&[ImapFlag::Answered, ImapFlag::Other, ImapFlag::Deleted]);
    assert_eq!(
        flags,
        Flags {
            answered: true,
            deleted: true,
            ..Flags::default()
        }
    );
}

#[test]
fn ids_are_bracketed_and_stripped() {
    assert_eq!(strip_angles(" <<a@b>> "), "a@b");
    assert_eq!(
        header_id_list(&Some(vec!["a@b".to_owned(), " <c@d> ".to_owned()])),
        "<a@b> <c@d>"
    );
    assert_eq!(header_id_list(&None), "");
}

#[test]
fn html_is_what_is_shown_when_there_is_any() {
    let raw = b"From: a@example.com\r\nMIME-Version: 1.0\r\n\
Content-Type: text/html\r\n\r\n<p>Hello <b>there</b></p><img src=\"http://x.example/p.gif\">\r\n";
    let msg = Message::parse(raw).unwrap();
    assert!(msg.body.text.contains("Hello there"), "{}", msg.body.text);
    assert!(!msg.body.text.contains('<'), "{}", msg.body.text);
    assert!(msg.has_remote_content);

    let plain = Message::parse(b"From: a@example.com\r\n\r\n<p>literal</p>\r\n").unwrap();
    assert!(plain.body.text.contains("literal"));
}

#[test]
fn a_date_beyond_the_calendar_is_no_date() {
    let msg = Message::parse(b"Date: Thu, 1 Jan 1970 00:00:07 +0000\r\n\r\nx\r\n").unwrap();
    assert_eq!(msg.date, Some(7));
    let msg = Message::parse(b"Date: never\r\n\r\nx\r\n").unwrap();
    assert_eq!(msg.date, None);
}

#[test]
fn a_mailing_list_is_known_by_its_id() {
    let msg =
        Message::parse(b"List-Id: Offers <offers.shop.example>\r\n\r\nx\r\n").unwrap();
    assert_eq!(msg.list_id.as_deref(), Some("offers.shop.example"));
}

#[test]
fn addresses_that_say_nothing_are_left_out() {
    let msg = Message::parse(b"From: \"  \" <ADA@Example.com>\r\n\r\nx\r\n").unwrap();
    assert_eq!(
        msg.from,
        vec![Mailbox {
            name: None,
            address: "ada@example.com".to_owned(),
        }]
    );
}

#[test]
fn a_part_is_inline_where_the_body_refers_to_it() {
    let raw = b"From: a@example.com\r\nMIME-Version: 1.0\r\n\
Content-Type: multipart/related; boundary=b\r\n\r\n\
--b\r\nContent-Type: text/html\r\n\r\n<p><img src=\"CID:logo@x\"></p>\r\n\
--b\r\nContent-Type: image/png; name=logo.png\r\nContent-ID: <logo@x>\r\n\
Content-Disposition: attachment; filename=logo.png\r\n\r\nAAAA\r\n\
--b\r\nContent-Type: application/pdf; name=report.pdf\r\nContent-ID: <logo>\r\n\
Content-Disposition: attachment; filename=report.pdf\r\n\r\nBBBB\r\n\
--b--\r\n";
    let message = Message::parse(raw).unwrap();
    let inline: Vec<(&str, bool)> =
        message.attachments.iter().map(|a| (a.name.as_str(), a.inline)).collect();
    assert_eq!(inline, [("logo.png", true), ("report.pdf", false)]);
}
