use cosmic_pim_mail::mbox::{self, append_with_envelope, messages};

fn write<'a>(list: impl IntoIterator<Item = &'a [u8]>) -> Vec<u8> {
    mbox::write(&list.into_iter().map(<[u8]>::to_vec).collect())
}

/* ---------------- writing ---------------- */

/// The contract between the two halves of this module.
#[test]
fn an_archive_this_module_wrote_reads_back_byte_for_byte() {
    let one: &[u8] = b"From: Ada <ada@example.com>\nSubject: First\n\nBody one.\n";
    let two: &[u8] = b"From: Bob <bob@example.com>\nSubject: Second\n\nBody two.\n";

    let archive = write([one, two]);
    let back = messages(&archive);

    assert_eq!(back.len(), 2);
    assert_eq!(back[0], one);
    assert_eq!(back[1], two);
}

/// The format's whole trick, and its classic corruption. A body line that
/// looks like a separator must survive.
#[test]
fn a_body_line_that_looks_like_a_separator_survives_the_round_trip() {
    let raw: &[u8] = b"From: Ada <ada@example.com>\nSubject: Trap\n\n\
From here on it gets worse.\nOrdinary line.\n";

    let archive = write([raw]);
    assert!(
        archive.windows(6).any(|w| w == b">From "),
        "the body line was not stuffed, so it will split the message in two"
    );

    let back = messages(&archive);
    assert_eq!(back.len(), 1, "the archive split one message into two");
    assert_eq!(back[0], raw);
}

/// mboxrd: quote runs grow by one on write and shrink by one on read, so
/// prose that already begins `>From ` comes back unchanged.
#[test]
fn an_already_quoted_from_line_round_trips() {
    let raw: &[u8] = b"From: Ada <ada@example.com>\nSubject: Quoting\n\n\
>From the earlier mail:\n>>From the one before that:\n";

    let back = messages(&write([raw]));
    assert_eq!(back.len(), 1);
    assert_eq!(back[0], raw);
}

#[test]
fn the_separator_carries_the_senders_address_and_date() {
    let raw: &[u8] = b"From: Ada <ada@example.com>\n\
Date: Mon, 3 Feb 2025 10:00:00 +0000\nSubject: Dated\n\nBody.\n";

    let archive = write([raw]);
    let first =
        String::from_utf8_lossy(&archive[..archive.iter().position(|&b| b == b'\n').unwrap()])
            .into_owned();

    assert!(first.starts_with("From ada@example.com "), "{first}");
    assert!(first.contains("Feb"), "{first}");
    assert!(first.contains("2025"), "{first}");
}

/// A message missing both fields must still export. mbox's envelope is
/// its own invention and every reader discards it — refusing the export
/// over it would lose the message to keep a placeholder honest.
#[test]
fn a_message_with_no_from_or_date_still_exports_and_reads_back() {
    let raw: &[u8] = b"Subject: Anonymous\n\nBody.\n";

    let archive = write([raw]);
    assert!(
        archive.starts_with(b"From MAILER-DAEMON "),
        "{:?}",
        &archive[..40]
    );
    assert_eq!(messages(&archive)[0], raw);
}

/// The one lossy case, pinned so it stays known and stays minimal: mbox
/// is line-oriented, so a message with no final newline gains exactly
/// one. Every message that crossed a wire already ends in CRLF.
#[test]
fn a_message_with_no_final_newline_gains_exactly_one() {
    let raw: &[u8] = b"From: Ada <ada@example.com>\nSubject: Truncated\n\nNo trailing newline";

    let back = messages(&write([raw]));
    assert_eq!(back.len(), 1);
    assert_eq!(
        back[0].len(),
        raw.len() + 1,
        "more than the missing terminator changed"
    );
    assert_eq!(&back[0][..raw.len()], raw, "the body itself was altered");
    assert_eq!(back[0].last(), Some(&b'\n'));
}

/// CRLF is what RFC 5322 mandates and what a synced message actually
/// carries; the writer must not rewrite terminators — that is what
/// invalidates a signature.
#[test]
fn crlf_messages_keep_their_terminators() {
    let raw: &[u8] = b"From: Ada <ada@example.com>\r\nSubject: Wire form\r\n\r\nBody.\r\n";

    let archive = write([raw]);
    let back = messages(&archive);
    assert_eq!(
        back[0], raw,
        "the message's own line endings were rewritten"
    );
}

/// A separator field is one line by construction: a newline smuggled into
/// an address would otherwise write a line the reader takes for the start
/// of another message.
#[test]
fn a_newline_in_the_envelope_cannot_forge_a_separator() {
    let mut archive = Vec::new();
    append_with_envelope(
        &mut archive,
        b"Subject: Hostile\n\nBody.\n",
        "ada@example.com\nFrom attacker@example.com Mon Feb  3 10:00:00 2025",
        "Mon Feb  3 10:00:00 2025",
    );

    assert_eq!(
        messages(&archive).len(),
        1,
        "an address forged a second message"
    );
}

#[test]
fn an_empty_archive_is_empty_rather_than_a_stray_separator() {
    assert!(write(std::iter::empty()).is_empty());
    assert!(messages(&write(std::iter::empty())).is_empty());
}

/// The export → import path a person actually walks when they leave
/// Thunderbird and come back.
#[test]
fn a_full_mailbox_round_trips_through_the_reader() {
    let bodies: Vec<Vec<u8>> = (0..25)
        .map(|i| {
            format!(
                "From: Sender {i} <s{i}@example.com>\n\
                 Date: Mon, 3 Feb 2025 10:00:00 +0000\n\
                 Message-ID: <{i}@example.com>\nSubject: Message {i}\n\n\
                 Body {i}\nFrom the top.\n"
            )
            .into_bytes()
        })
        .collect();

    let archive = write(bodies.iter().map(Vec::as_slice));
    let back = messages(&archive);

    assert_eq!(back.len(), bodies.len());
    for (before, after) in bodies.iter().zip(&back) {
        assert_eq!(before, after);
    }
}

const TWO: &[u8] = b"From ada@example.com Mon Feb  3 10:00:00 2025\n\
From: Ada <ada@example.com>\n\
Subject: First\n\
\n\
Body one.\n\
\n\
From bob@example.net Mon Feb  3 11:00:00 2025\n\
From: Bob <bob@example.net>\n\
Subject: Second\n\
\n\
Body two.\n";

#[test]
fn messages_are_split_on_separators_and_the_separator_is_dropped() {
    let messages = messages(TWO);
    assert_eq!(messages.len(), 2);
    let first = String::from_utf8_lossy(&messages[0]);
    assert!(
        first.starts_with("From: Ada"),
        "the separator leaked in: {first}"
    );
    assert!(first.contains("Body one."));
    let second = String::from_utf8_lossy(&messages[1]);
    assert!(second.contains("Subject: Second"));
}

#[test]
fn the_split_messages_parse_as_messages() {
    for raw in messages(TWO) {
        let message = cosmic_pim_mail::model::Message::parse(&raw).expect("parses");
        assert!(!message.subject.is_empty());
    }
}

#[test]
fn stuffed_from_lines_are_unstuffed_exactly_once() {
    let mbox = b"From x\n\
Subject: s\n\
\n\
>From the beginning, it was clear.\n\
>>From deeper quoting.\n\
Ordinary line.\n";
    let messages = messages(mbox);
    let body = String::from_utf8_lossy(&messages[0]);
    assert!(body.contains("\nFrom the beginning"), "{body}");
    assert!(
        body.contains("\n>From deeper quoting"),
        "double-stuffing must lose exactly one level: {body}"
    );
}

#[test]
fn an_unescaped_from_mid_paragraph_does_not_split_the_message() {
    // The classic corruption, refused: `From ` is a separator only at a
    // boundary — start of file or after a blank line.
    let mbox = b"From x\n\
Subject: s\n\
\n\
He said it plainly.\n\
From here on, nothing changed.\n";
    assert_eq!(messages(mbox).len(), 1, "a body line split the message");
}

#[test]
fn a_from_line_after_a_blank_line_is_a_separator() {
    // The exact same text, at a boundary, is two messages — that is the
    // convention every real exporter follows.
    let mbox = b"From x\n\
Subject: s\n\
\n\
Body.\n\
\n\
From y\n\
Subject: t\n\
\n\
Other.\n";
    assert_eq!(messages(mbox).len(), 2);
}

#[test]
fn empty_and_rubbish_inputs_yield_nothing() {
    assert!(messages(b"").is_empty());
    assert!(messages(b"not an mbox at all\n").is_empty());
}

#[test]
fn non_utf8_bodies_survive_byte_for_byte() {
    let mbox = b"From x\n\
Subject: caf\xe9\n\
\n\
caf\xe9 in latin-1\n";
    let messages = messages(mbox);
    assert_eq!(messages.len(), 1);
    assert!(
        messages[0].windows(4).any(|w| w == b"\xe9 in"),
        "a legacy-charset byte was mangled"
    );
}

#[test]
fn the_date_of_a_separator_is_in_the_c_locale() {
    let raw = b"From: Ada <ada@example.com>\nDate: Mon, 3 Feb 2025 10:00:00 +0000\n\nBody.\n";
    let mut archive = Vec::new();
    mbox::append(&mut archive, raw);
    assert!(archive.starts_with(b"From ada@example.com Mon Feb  3 10:00:00 2025\n"));
}

#[test]
fn an_envelope_with_nothing_known_has_the_conventional_fields() {
    assert_eq!(
        mbox::envelope_text(None, None),
        (
            "MAILER-DAEMON".to_owned(),
            "Thu Jan  1 00:00:00 1970".to_owned()
        )
    );
}
