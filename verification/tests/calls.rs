use cosmic_pim_mail::error::Error;
use cosmic_pim_mail::gmail_calls;
use cosmic_pim_mail::graph_calls;
use cosmic_pim_mail::imap_calls::{
    extension_to_enable, message_id_query, receipt, store_flags_query, Deed, Extension,
};
use cosmic_pim_mail::jmap_calls::{
    changes_request, destroy_request, download_status, emails_request, keywords_request,
    mailboxes_request, members_request, move_request, query_request, request_status, responses_in,
    session_status, state_request, SessionResource,
};
use cosmic_pim_mail::json::Json;
use cosmic_pim_mail::model::Flags;
use cosmic_pim_mail::pop3::authentication;
use cosmic_pim_mail::sasl::Credentials;
use cosmic_pim_mail::smtp::Outcome;

fn read(text: &str) -> serde_json::Value {
    serde_json::from_str(text).unwrap()
}

/// The method and the arguments of a request's only call.
fn call(text: &str) -> (String, serde_json::Value) {
    let body = read(text);
    assert_eq!(
        body["using"],
        read(r#"["urn:ietf:params:jmap:core","urn:ietf:params:jmap:mail"]"#)
    );
    let calls = body["methodCalls"].as_array().unwrap();
    assert_eq!(calls.len(), 1);
    assert_eq!(calls[0][2], "0");
    (calls[0][0].as_str().unwrap().to_owned(), calls[0][1].clone())
}

fn check(text: &str, method: &str, args: &str) {
    assert_eq!(call(text), (method.to_owned(), read(args)));
}

#[test]
fn jmap_requests_say_what_they_ask() {
    check(&mailboxes_request("a\"1"), "Mailbox/get", r#"{ "accountId": "a\"1", "ids": null }"#);
    check(
        &query_request("a", "m", 50),
        "Email/query",
        r#"{ "accountId": "a", "filter": { "inMailbox": "m" },
             "sort": [ { "property": "receivedAt", "isAscending": false } ],
             "limit": 50, "calculateTotal": false }"#,
    );
    check(&state_request("a"), "Email/get", r#"{ "accountId": "a", "ids": [] }"#);
    check(
        &changes_request("a", "s1"),
        "Email/changes",
        r#"{ "accountId": "a", "sinceState": "s1", "maxChanges": 500 }"#,
    );
    let ids = ["M1".to_owned(), "M2".to_owned()];
    check(
        &emails_request("a", &ids).unwrap(),
        "Email/get",
        r#"{ "accountId": "a", "ids": ["M1", "M2"],
             "properties": ["id", "blobId", "keywords", "receivedAt", "size"] }"#,
    );
    check(
        &members_request("a", &ids).unwrap(),
        "Email/get",
        r#"{ "accountId": "a", "ids": ["M1", "M2"],
             "properties": ["id", "blobId", "keywords", "receivedAt", "size", "mailboxIds"] }"#,
    );
    assert!(emails_request("a", &[]).is_none());
    assert!(members_request("a", &[]).is_none());
}

#[test]
fn jmap_changes_name_one_email() {
    check(
        &move_request("a", "M1", "in", "out"),
        "Email/set",
        r#"{ "accountId": "a", "update": { "M1": { "mailboxIds/in": null, "mailboxIds/out": true } } }"#,
    );
    check(
        &move_request("a", "M1", "in", "in"),
        "Email/set",
        r#"{ "accountId": "a", "update": { "M1": { "mailboxIds/in": true } } }"#,
    );
    check(
        &destroy_request("a", "M1"),
        "Email/set",
        r#"{ "accountId": "a", "destroy": ["M1"] }"#,
    );
    let flags = Flags { seen: true, passed: true, ..Flags::default() };
    check(
        &keywords_request("a", "M1", flags),
        "Email/set",
        r#"{ "accountId": "a", "update": { "M1": { "keywords": { "$seen": true, "$forwarded": true } } } }"#,
    );
    check(
        &keywords_request("a", "M1", Flags::default()),
        "Email/set",
        r#"{ "accountId": "a", "update": { "M1": { "keywords": {} } } }"#,
    );
}

#[test]
fn jmap_statuses_are_told_apart() {
    assert!(session_status(200).is_ok());
    assert!(matches!(session_status(403), Err(Error::Auth(_))));
    assert!(matches!(session_status(500), Err(Error::Jmap(_))));
    assert!(request_status(204, "").is_ok());
    match request_status(500, "broken") {
        Err(Error::Jmap(m)) => assert_eq!(m, "JMAP request returned HTTP 500: broken"),
        other => panic!("{other:?}"),
    }
    match download_status(404, "B1") {
        Err(Error::Jmap(m)) => assert_eq!(m, "downloading B1 returned HTTP 404"),
        other => panic!("{other:?}"),
    }
}

#[test]
fn jmap_responses_are_taken_out_of_their_answer() {
    let answer = Json::Object(vec![
        ("sessionState".to_owned(), Json::Null),
        ("methodResponses".to_owned(), Json::Array(vec![Json::Bool(true)])),
    ]);
    assert_eq!(responses_in(answer).unwrap().len(), 1);
    assert!(responses_in(Json::Object(vec![])).is_err());
    assert!(responses_in(Json::Null).is_err());
}

#[test]
fn a_jmap_session_needs_mail_and_an_account_for_it() {
    let mail = "urn:ietf:params:jmap:mail".to_owned();
    let mut resource = SessionResource {
        api_url: "https://j/api".to_owned(),
        download_url: "https://j/dl".to_owned(),
        primary_accounts: vec![],
        capabilities: vec![],
    };
    assert!(matches!(resource.mail_account(), Err(Error::Jmap(m)) if m.contains("offer mail")));
    resource.capabilities.push(mail.clone());
    assert!(matches!(resource.mail_account(), Err(Error::Jmap(m)) if m.contains("no mail account")));
    resource.primary_accounts.push(("other".to_owned(), "x".to_owned()));
    resource.primary_accounts.push((mail, "acc".to_owned()));
    assert_eq!(resource.mail_account().unwrap(), "acc");
}

#[test]
fn gmail_label_changes_leave_empty_lists_out() {
    assert!(gmail_calls::modify_body(&[], &[]).is_none());
    assert_eq!(
        gmail_calls::modify_body(&["STARRED"], &["UNREAD", "INBOX"]).unwrap(),
        r#"{"addLabelIds":["STARRED"],"removeLabelIds":["UNREAD","INBOX"]}"#
    );
    assert_eq!(
        gmail_calls::modify_body(&[], &["INBOX"]).unwrap(),
        r#"{"removeLabelIds":["INBOX"]}"#
    );
    assert_eq!(
        gmail_calls::modify_body(&["TRASH"], &[]).unwrap(),
        r#"{"addLabelIds":["TRASH"]}"#
    );
}

#[test]
fn gmail_urls_hang_off_the_root() {
    assert_eq!(gmail_calls::profile_url("https://g"), "https://g/profile");
    assert_eq!(gmail_calls::labels_url("https://g"), "https://g/labels");
    assert_eq!(gmail_calls::metadata_url("https://g", "M"), "https://g/messages/M?format=minimal");
    assert_eq!(gmail_calls::raw_url("https://g", "M"), "https://g/messages/M?format=raw");
    assert_eq!(gmail_calls::modify_url("https://g", "M"), "https://g/messages/M/modify");
    assert_eq!(gmail_calls::trash_url("https://g", "M"), "https://g/messages/M/trash");
    assert_eq!(gmail_calls::send_url("https://g"), "https://g/messages/send");
}

#[test]
fn a_gmail_submission_is_url_safe_and_unpadded() {
    assert_eq!(gmail_calls::send_body(&[0xfb, 0xef, 0xff, 0x00]), r#"{"raw":"--__AA"}"#);
}

#[test]
fn a_send_that_never_connected_is_safe_to_retry() {
    assert!(matches!(
        gmail_calls::unanswered(false, "refused"),
        Outcome::NotSent(Error::Gmail(m)) if m == "messages.send: refused"
    ));
    assert!(matches!(
        gmail_calls::unanswered(true, "timed out"),
        Outcome::Ambiguous(Error::Gmail(_))
    ));
    assert!(matches!(
        graph_calls::unanswered(false, "refused"),
        Outcome::NotSent(Error::Graph(m)) if m == "sendMail: refused"
    ));
    assert!(matches!(graph_calls::unanswered(true, "x"), Outcome::Ambiguous(_)));
}

#[test]
fn a_message_deleted_since_it_was_listed_is_no_failure() {
    assert!(matches!(gmail_calls::found(404, "messages.get", ""), Ok(false)));
    assert!(matches!(gmail_calls::found(200, "messages.get", ""), Ok(true)));
    assert!(matches!(gmail_calls::found(500, "messages.get", ""), Err(Error::Gmail(_))));
    assert!(matches!(graph_calls::found(404, "$value", ""), Ok(false)));
    assert!(matches!(graph_calls::found(401, "$value", ""), Err(Error::Auth(_))));
    assert!(graph_calls::deleted(404, "").is_ok());
    assert!(graph_calls::deleted(204, "").is_ok());
    assert!(graph_calls::deleted(500, "").is_err());
    assert!(graph_calls::done(202, "move", "").is_ok());
    assert!(gmail_calls::done(400, "messages.modify", "no").is_err());
}

#[test]
fn graph_urls_and_bodies_name_what_they_change() {
    assert!(graph_calls::folders_url("https://m").starts_with("https://m/me/mailFolders?$top=200&"));
    assert_eq!(graph_calls::message_url("https://m", "X"), "https://m/me/messages/X");
    assert_eq!(graph_calls::raw_url("https://m", "X"), "https://m/me/messages/X/$value");
    assert_eq!(graph_calls::move_url("https://m", "X"), "https://m/me/messages/X/move");
    assert_eq!(graph_calls::send_url("https://m"), "https://m/me/sendMail");
    assert_eq!(graph_calls::move_body("F\"1"), r#"{"destinationId":"F\"1"}"#);
    assert_eq!(graph_calls::send_body(&[0xfb, 0xef, 0xff, 0x00]), "++//AA==");
}

#[test]
fn a_move_copies_before_it_marks_and_expunges_only_its_own() {
    assert_eq!(Deed::Move.next(true, true), Deed::Finished);
    let copy = Deed::Move.next(false, true);
    assert_eq!(copy, Deed::Copy);
    assert_eq!(copy.next(false, true), Deed::Failed, "the original was touched");
    let mark = copy.next(true, true);
    assert_eq!(mark, Deed::Mark);
    assert_eq!(mark.next(true, true), Deed::Expunge);
    assert_eq!(mark.next(true, false), Deed::Finished);
    assert_eq!(mark.next(false, true), Deed::Failed);
    assert_eq!(Deed::Expunge.next(true, true), Deed::Finished);
    assert_eq!(Deed::Expunge.next(false, true), Deed::Failed);
}

#[test]
fn imap_arguments_are_in_wire_spelling() {
    let flags = Flags { seen: true, flagged: true, ..Flags::default() };
    assert_eq!(store_flags_query(flags), "FLAGS.SILENT (\\Seen \\Flagged)");
    assert_eq!(store_flags_query(Flags::default()), "FLAGS.SILENT ()");
    assert_eq!(message_id_query("a@x"), "HEADER Message-ID <a@x>");
    assert_eq!(receipt(Some(7), &Some(vec![12, 13])), Some((7, 12)));
    assert_eq!(receipt(Some(7), &Some(vec![])), None);
    assert_eq!(receipt(None, &Some(vec![12])), None);
    assert_eq!(receipt(Some(7), &None), None);
}

#[test]
fn the_better_extension_is_tried_first() {
    assert_eq!(extension_to_enable(true, true, None), Some(Extension::Qresync));
    assert_eq!(
        extension_to_enable(true, true, Some(Extension::Qresync)),
        Some(Extension::Condstore)
    );
    assert_eq!(extension_to_enable(true, false, Some(Extension::Qresync)), None);
    assert_eq!(extension_to_enable(false, true, None), Some(Extension::Condstore));
    assert_eq!(extension_to_enable(false, false, None), None);
    assert_eq!(extension_to_enable(true, true, Some(Extension::Condstore)), None);
}

#[test]
fn a_pop3_token_needs_sasl_and_a_password_goes_in_two_steps() {
    let token = Credentials::OAuth2("t".to_owned());
    assert!(matches!(authentication(&vec![], "me", &token), Err(Error::Auth(_))));
    let commands = authentication(&vec!["SASL PLAIN XOAUTH2".to_owned()], "me", &token).unwrap();
    assert_eq!(commands, ["AUTH XOAUTH2 dXNlcj1tZQFhdXRoPUJlYXJlciB0AQE="]);
    let password = Credentials::Password("p w".to_owned());
    assert_eq!(authentication(&vec![], "me", &password).unwrap(), ["USER me", "PASS p w"]);
}

#[test]
fn what_is_submitted_reads_back_as_the_message() {
    let message: Vec<u8> = (0..=255).collect();
    let body = read(&gmail_calls::send_body(&message));
    let raw = body["raw"].as_str().unwrap();
    assert_eq!(cosmic_pim_mail::gmail::decode_base64url(raw).unwrap(), message);
}
