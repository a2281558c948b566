use cosmic_pim_mail::attachment::{bytes_of, candidate, mime_for, sanitize, saving};
use cosmic_pim_mail::model::Message;

const WITH_ATTACHMENT: &[u8] = b"From: a@example.com\r\n\
Subject: Here it is\r\n\
MIME-Version: 1.0\r\n\
Content-Type: multipart/mixed; boundary=\"b\"\r\n\
\r\n\
--b\r\n\
Content-Type: text/plain\r\n\
\r\n\
See attached.\r\n\
--b\r\n\
Content-Type: text/csv; name=\"report.csv\"\r\n\
Content-Disposition: attachment; filename=\"report.csv\"\r\n\
\r\n\
a,b\r\n1,2\r\n\
--b--\r\n";

#[test]
fn attachment_bytes_come_out_of_the_message() {
    let message = Message::parse(WITH_ATTACHMENT).unwrap();
    assert_eq!(message.attachments.len(), 1);
    assert_eq!(message.attachments[0].name, "report.csv");

    let bytes = bytes_of(WITH_ATTACHMENT, 0).unwrap();
    assert_eq!(String::from_utf8_lossy(&bytes).trim_end(), "a,b\r\n1,2");
}

#[test]
fn asking_for_an_attachment_that_is_not_there_says_so() {
    assert!(bytes_of(WITH_ATTACHMENT, 5).is_err());
}

#[test]
fn a_traversal_in_a_filename_cannot_escape_the_folder() {
    // The name is a string a stranger chose, about to be joined to a path.
    let name = candidate(&sanitize("../../.bashrc"), "folder", 0).unwrap();
    // The dots survive as ordinary characters; what matters is that no
    // separator did, so the name cannot be more than one component.
    assert!(!name.contains('/') && !name.contains('\\'), "{name}");
}

#[test]
fn names_that_are_not_names_become_one() {
    assert_eq!(sanitize(""), "attachment");
    assert_eq!(sanitize("   "), "attachment");
    assert_eq!(sanitize("..."), "attachment");
    assert_eq!(
        sanitize(".bashrc"),
        "bashrc",
        "a leading dot would hide the file from the person who saved it"
    );
}

#[test]
fn separators_and_windows_forbidden_characters_are_replaced() {
    assert_eq!(sanitize("a/b\\c"), "a_b_c");
    assert_eq!(sanitize("re:port<1>.pdf"), "re_port_1_.pdf");
    assert_eq!(sanitize("tab\there"), "tab_here");
}

#[test]
fn windows_device_names_are_escaped_even_with_an_extension() {
    // `CON.txt` cannot be created on NTFS however it is spelled, and a
    // saved file travels — onto a stick, into a VM.
    assert_eq!(sanitize("CON.txt"), "_CON.txt");
    assert_eq!(sanitize("nul"), "_nul");
    assert_eq!(sanitize("console.txt"), "console.txt", "not a device name");
}

#[test]
fn a_very_long_name_is_capped_but_keeps_its_extension() {
    // The extension is what decides how the file opens.
    let name = format!("{}.pdf", "a".repeat(500));
    let safe = sanitize(&name);
    assert!(safe.chars().count() <= 200, "{}", safe.chars().count());
    assert!(safe.ends_with(".pdf"), "{safe}");
}

#[test]
fn saving_twice_never_overwrites() {
    // Two people can perfectly well both attach `invoice.pdf`, and the
    // second silently replacing the first is a loss with no signal.
    let first = candidate(&sanitize("invoice.pdf"), "folder", 0).unwrap();
    let second = candidate(&sanitize("invoice.pdf"), "folder", 1).unwrap();

    assert_ne!(first, second);
    assert_eq!(second, "invoice (1).pdf");
}

#[test]
fn save_all_writes_the_real_attachments_and_skips_inline_parts() {
    let message = Message::parse(WITH_ATTACHMENT).unwrap();
    let saved = saving(&message.attachments);
    assert_eq!(saved.len(), 1);
    assert_eq!(bytes_of(WITH_ATTACHMENT, saved[0]).unwrap(), b"a,b\r\n1,2");
}

#[test]
fn outgoing_types_are_guessed_from_the_extension_and_default_honestly() {
    assert_eq!(mime_for("report.PDF"), "application/pdf");
    assert_eq!(mime_for("photo.jpeg"), "image/jpeg");
    assert_eq!(mime_for("notes"), "application/octet-stream");
    assert_eq!(mime_for("archive.tar.gz"), "application/gzip");
}

#[test]
fn a_name_without_an_extension_is_counted_at_its_end() {
    assert_eq!(candidate("notes", "folder", 2).unwrap(), "notes (2)");
    assert_eq!(candidate(".hidden", "folder", 2).unwrap(), ".hidden (2)");
    assert_eq!(candidate("a.b.c", "folder", 12).unwrap(), "a.b (12).c");
}

#[test]
fn after_a_thousand_it_gives_up() {
    assert!(candidate("report.pdf", "Downloads", 999).is_ok());
    assert_eq!(
        candidate("report.pdf", "Downloads", 1000)
            .unwrap_err()
            .describe(),
        "there are already a thousand files named report.pdf in Downloads"
    );
}

#[test]
fn the_two_ways_of_not_finding_an_attachment_are_told_apart() {
    assert_eq!(
        bytes_of(WITH_ATTACHMENT, 1).unwrap_err().describe(),
        "that attachment is not in the message"
    );
    assert_eq!(
        bytes_of(b"", 0).unwrap_err().describe(),
        "that message could not be read"
    );
}

#[test]
fn inline_parts_are_not_saved() {
    let raw = b"From: a@example.com\r\nMIME-Version: 1.0\r\n\
Content-Type: multipart/mixed; boundary=\"b\"\r\n\r\n\
--b\r\nContent-Type: text/html\r\n\r\n<img src='cid:logo'>\r\n\
--b\r\nContent-Type: image/png\r\nContent-ID: <logo>\r\n\
Content-Disposition: attachment; filename=\"logo.png\"\r\n\r\nPNG\r\n\
--b\r\nContent-Type: text/csv\r\n\
Content-Disposition: attachment; filename=\"r.csv\"\r\n\r\n1,2\r\n--b--\r\n";
    let message = Message::parse(raw).unwrap();
    assert_eq!(message.attachments.len(), 2);
    assert!(message.attachments[0].inline);
    assert_eq!(message.attachments[0].mime_type, "image/png");
    assert_eq!(message.attachments[1].size, 3);
    assert_eq!(saving(&message.attachments), vec![1]);
}

#[test]
fn every_control_character_is_replaced() {
    assert_eq!(sanitize("a\u{7f}b\u{85}c\u{9f}d\u{1}e"), "a_b_c_d_e");
    assert_eq!(sanitize("a\u{a1}b"), "a\u{a1}b");
}
