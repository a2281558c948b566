use cosmic_pim_mail::dsn::{
    classify, parse_delivery_status, parse_feedback_report, parse_loose, parse_report, BounceKind,
    BounceRecord,
};

fn parse(raw: &str) -> Vec<BounceRecord> {
    parse_report(raw.as_bytes()).unwrap_or_default()
}

const HARD_DSN: &str = "From: MAILER-DAEMON@mx.example.com\r\n\
Subject: Undelivered Mail Returned to Sender\r\n\
Content-Type: multipart/report; report-type=delivery-status; boundary=\"b1\"\r\n\
\r\n\
--b1\r\n\
Content-Type: text/plain\r\n\
\r\n\
This is the mail system at host mx.example.com.\r\n\
\r\n\
--b1\r\n\
Content-Type: message/delivery-status\r\n\
\r\n\
Reporting-MTA: dns; mx.example.com\r\n\
\r\n\
Final-Recipient: rfc822; Gone@Example.ORG\r\n\
Action: failed\r\n\
Status: 5.1.1\r\n\
Diagnostic-Code: smtp; 550 5.1.1 <gone@example.org>: Recipient address rejected:\r\n User unknown in virtual mailbox table\r\n\
\r\n\
--b1\r\n\
Content-Type: text/rfc822-headers\r\n\
\r\n\
Message-ID: <original.1700000000000@example.com>\r\n\
Subject: Spring news\r\n\
\r\n\
--b1--\r\n";

#[test]
fn parses_a_hard_dsn_with_folded_diagnostic() {
    let records = parse(HARD_DSN);
    assert_eq!(records.len(), 1);
    let record = &records[0];
    assert_eq!(record.recipient, "gone@example.org");
    assert_eq!(record.kind, BounceKind::Hard);
    assert_eq!(record.status_code, "5.1.1");
    // The continuation line folded into one diagnostic string.
    assert!(
        record
            .diagnostic
            .contains("User unknown in virtual mailbox table"),
        "{}",
        record.diagnostic
    );
    assert_eq!(
        record.original_message_id,
        "original.1700000000000@example.com"
    );
}

#[test]
fn tenant_cap_and_auth_failures_are_our_fault_not_the_address_s() {
    assert_eq!(classify("5.7.233", "failed", ""), BounceKind::Sender);
    assert_eq!(classify("5.7.515", "failed", ""), BounceKind::Sender);
    // The same numeric class on an ordinary code stays hard.
    assert_eq!(classify("5.1.1", "failed", ""), BounceKind::Hard);
}

#[test]
fn mailbox_full_is_soft_despite_its_5xx_code() {
    assert_eq!(classify("5.2.2", "failed", ""), BounceKind::Soft);
}

#[test]
fn delayed_reports_are_not_failures() {
    assert_eq!(classify("4.4.1", "delayed", ""), BounceKind::Delayed);
    assert_eq!(classify("", "delayed", "still trying"), BounceKind::Delayed);
}

#[test]
fn successful_delivery_notifications_produce_no_records() {
    let raw = HARD_DSN.replace("Action: failed", "Action: delivered");
    assert!(parse(&raw).is_empty());
}

#[test]
fn multiple_recipients_each_get_a_record() {
    let raw = HARD_DSN.replace(
        "Final-Recipient: rfc822; Gone@Example.ORG\r\nAction: failed\r\nStatus: 5.1.1",
        "Final-Recipient: rfc822; one@example.org\r\nAction: failed\r\nStatus: 5.1.1\r\n\
         \r\nFinal-Recipient: rfc822; two@example.org\r\nAction: failed\r\nStatus: 4.2.2",
    );
    let records = parse(&raw);
    assert_eq!(records.len(), 2);
    assert_eq!(records[0].kind, BounceKind::Hard);
    assert_eq!(records[1].recipient, "two@example.org");
    assert_eq!(records[1].kind, BounceKind::Soft);
}

#[test]
fn parses_an_arf_complaint() {
    let raw = "From: complaints@isp.example\r\n\
Subject: Abuse report\r\n\
Content-Type: multipart/report; report-type=feedback-report; boundary=\"b\"\r\n\
\r\n\
--b\r\n\
Content-Type: text/plain\r\n\
\r\n\
A user complained.\r\n\
\r\n\
--b\r\n\
Content-Type: message/feedback-report\r\n\
\r\n\
Feedback-Type: abuse\r\n\
User-Agent: SomeISP/1.0\r\n\
Original-Rcpt-To: Annoyed@Example.NET\r\n\
\r\n\
--b--\r\n";
    let records = parse(raw);
    assert_eq!(records.len(), 1);
    assert_eq!(records[0].recipient, "annoyed@example.net");
    assert_eq!(records[0].kind, BounceKind::Complaint);
}

#[test]
fn read_receipts_are_not_bounces() {
    let raw = "From: someone@example.com\r\n\
Content-Type: multipart/report; report-type=disposition-notification; boundary=\"b\"\r\n\
\r\n\
--b\r\n\
Content-Type: message/disposition-notification\r\n\
\r\n\
Final-Recipient: rfc822; reader@example.com\r\n\
Disposition: manual-action/MDN-sent-manually; displayed\r\n\
\r\n\
--b--\r\n";
    assert!(parse_report(raw.as_bytes()).is_none());
}

#[test]
fn ordinary_mail_is_not_a_report() {
    assert!(parse_report(b"From: a@b.co\r\nSubject: hi\r\n\r\nhello").is_none());
}

#[test]
fn a_loose_postfix_bounce_is_still_a_bounce() {
    let record = parse_loose(
        "MAILER-DAEMON@mx.example.com",
        "Undelivered Mail Returned to Sender",
        "The mail system <gone@example.org>: host mx said: 550 5.1.1 user unknown",
    )
    .expect("a daemon's rejection must parse");
    assert_eq!(record.recipient, "gone@example.org");
    assert_eq!(record.kind, BounceKind::Hard);
    assert_eq!(record.status_code, "5.1.1");
}

#[test]
fn ordinary_mail_mentioning_user_unknown_is_not_a_loose_bounce() {
    assert!(
        parse_loose(
            "colleague@example.com",
            "debugging the user unknown error",
            "I keep seeing 'user unknown' for gone@example.org",
        )
        .is_none()
    );
}

#[test]
fn a_status_that_says_nothing_is_read_from_the_words() {
    let records = parse_delivery_status(
        "Reporting-MTA: dns; mx\n\nFinal-Recipient: rfc822; a@b.example\nAction: failed\n\
         Diagnostic-Code: smtp; mailbox full\n",
    );
    assert_eq!(records.len(), 1);
    assert_eq!(records[0].kind, BounceKind::Soft);
    assert_eq!(records[0].recipient, "a@b.example");
}

#[test]
fn a_complaint_without_a_recipient_is_none() {
    assert!(parse_feedback_report("Feedback-Type: abuse\n").is_none());
}

#[test]
fn a_report_keeps_its_failures_and_drops_its_successes() {
    let records = parse_delivery_status(
        "Reporting-MTA: dns; mx\n\n\
         Final-Recipient: rfc822; ok@b.example\nAction: delivered\nStatus: 2.0.0\n\n\
         Final-Recipient: rfc822; gone@b.example\nAction: failed\nStatus: 5.1.1\n\n\
         Final-Recipient: rfc822; policy@b.example\nAction: failed\nStatus: 5.7.1\n",
    );
    assert_eq!(records.len(), 2);
    assert_eq!(records[0].recipient, "gone@b.example");
    assert_eq!(records[0].kind, BounceKind::Hard);
    assert_eq!(records[1].kind, BounceKind::Sender, "our fault condemned the address");
}

#[test]
fn a_subject_alone_makes_no_bounce() {
    let body = "The mail system <gone@example.org>: host mx said: 550 5.1.1 user unknown";
    assert!(parse_loose("colleague@example.com", "Undeliverable: lunch", body).is_none());
    assert!(parse_loose("postmaster@example.com", "hello", body).is_some());
    assert!(parse_loose("postmaster@example.com", "Undeliverable: lunch", "no address").is_none());
}
