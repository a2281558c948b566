use cosmic_pim_mail::calendar::{invitation, method_property};

const REQUEST: &[u8] = b"From: organizer@example.com\r\n\
To: attendee@example.net\r\n\
Subject: Invitation: standup\r\n\
MIME-Version: 1.0\r\n\
Content-Type: multipart/mixed; boundary=\"b1\"\r\n\
\r\n\
--b1\r\n\
Content-Type: text/plain\r\n\
\r\n\
You are invited.\r\n\
--b1\r\n\
Content-Type: text/calendar; method=REQUEST; charset=UTF-8\r\n\
Content-Transfer-Encoding: base64\r\n\
\r\n\
QkVHSU46VkNBTEVOREFSDQpNRVRIT0Q6UkVRVUVTVA0KRU5EOlZDQUxFTkRBUg0K\r\n\
--b1--\r\n";

#[test]
fn finds_the_calendar_part_and_its_method() {
    let found = invitation(REQUEST).unwrap();
    assert_eq!(found.method, "REQUEST");
    // Transfer-decoded, verbatim: the base64 above is exactly this text.
    assert_eq!(
        found.ics,
        "BEGIN:VCALENDAR\r\nMETHOD:REQUEST\r\nEND:VCALENDAR\r\n"
    );
}

#[test]
fn method_falls_back_to_the_ics_property() {
    let raw = b"From: a@example.com\r\n\
MIME-Version: 1.0\r\n\
Content-Type: text/calendar\r\n\
\r\n\
BEGIN:VCALENDAR\r\n\
METHOD:CANCEL\r\n\
END:VCALENDAR\r\n";
    assert_eq!(invitation(raw).unwrap().method, "CANCEL");
}

#[test]
fn published_calendar_data_without_a_method_is_not_an_invitation() {
    let raw = b"From: a@example.com\r\n\
MIME-Version: 1.0\r\n\
Content-Type: text/calendar\r\n\
\r\n\
BEGIN:VCALENDAR\r\n\
BEGIN:VEVENT\r\n\
END:VEVENT\r\n\
END:VCALENDAR\r\n";
    assert!(invitation(raw).is_none());
}

#[test]
fn a_plain_message_has_no_invitation() {
    assert!(invitation(b"From: a@example.com\r\n\r\nhello\r\n").is_none());
}

#[test]
fn the_first_method_line_counts() {
    assert_eq!(
        method_property("BEGIN:VCALENDAR\r\nMETHOD:REPLY  \r\nMETHOD:CANCEL\r\n").as_deref(),
        Some("REPLY")
    );
    assert_eq!(method_property("X-METHOD:REPLY\n"), None);
}

#[test]
fn bytes_that_are_no_text_are_replaced_in_the_payload() {
    let raw = b"Content-Type: text/calendar; method=publish; charset=utf-8\r\n\
Content-Transfer-Encoding: base64\r\n\r\n/w==\r\n";
    let found = invitation(raw).unwrap();
    assert_eq!(found.method, "PUBLISH");
    assert_eq!(found.ics, "\u{fffd}");
}

#[test]
fn calendar_data_without_a_method_does_not_hide_an_invitation() {
    let raw = b"MIME-Version: 1.0\r\nContent-Type: multipart/mixed; boundary=b\r\n\r\n\
--b\r\nContent-Type: text/calendar\r\n\r\nBEGIN:VCALENDAR\r\nEND:VCALENDAR\r\n\
--b\r\nContent-Type: text/calendar; method=REQUEST\r\n\r\nBEGIN:VCALENDAR\r\nEND:VCALENDAR\r\n\
--b--\r\n";
    assert_eq!(invitation(raw).unwrap().method, "REQUEST");
}
