//! What the services' HTTP answers come to, from their status and their text.

use cosmic_pim_mail::error::Error;
use cosmic_pim_mail::json::{parse, Json};
use cosmic_pim_mail::{gmail, gmail_calls, graph, graph_calls, jmap_calls};

fn text_of(j: &Json, key: &str) -> Option<String> {
    match j {
        Json::Object(fields) => fields.iter().find(|f| f.0 == key).and_then(|f| match &f.1 {
            Json::Str(s) => Some(s.clone()),
            _ => None,
        }),
        _ => None,
    }
}

fn why<T>(r: cosmic_pim_mail::error::Result<T>) -> String {
    match r {
        Ok(_) => panic!("this is no failure"),
        Err(Error::Gmail(m) | Error::Graph(m) | Error::Jmap(m) | Error::Auth(m)) => m,
        Err(e) => panic!("{e:?}"),
    }
}

/// What the reader itself says of a text.
fn fault(text: &str) -> String {
    serde_json::from_str::<serde_json::Value>(text).unwrap_err().to_string()
}

// ---- reading ----

#[test]
fn a_json_text_is_read_whole() {
    let Json::Object(fields) = parse(r#"{"a": [null, true, "x"], "b": {}}"#).unwrap() else {
        panic!("not an object");
    };
    assert_eq!(fields.len(), 2);
    assert_eq!(fields[0].0, "a");
    let Json::Array(items) = &fields[0].1 else { panic!("not an array") };
    assert!(matches!(items[0], Json::Null));
    assert!(matches!(items[1], Json::Bool(true)));
    assert!(matches!(&items[2], Json::Str(s) if s == "x"));
    assert_eq!(items.len(), 3);
    assert_eq!(fields[1].0, "b");
    assert!(matches!(&fields[1].1, Json::Object(inner) if inner.is_empty()));
}

#[test]
fn a_number_is_read_by_what_it_fits() {
    assert!(matches!(parse("0").unwrap(), Json::Unsigned(0)));
    assert!(matches!(parse("18446744073709551615").unwrap(), Json::Unsigned(u64::MAX)));
    assert!(matches!(parse("-1").unwrap(), Json::Negative(-1)));
    assert!(matches!(parse("-9223372036854775808").unwrap(), Json::Negative(i64::MIN)));
    assert!(matches!(parse("1.5").unwrap(), Json::Fraction(digits) if digits == "1.5"));
}

#[test]
fn a_text_that_is_no_json_says_why() {
    assert_eq!(parse("{\"a\": ").unwrap_err(), fault("{\"a\": "));
    assert_eq!(parse("").unwrap_err(), fault(""));
    assert_eq!(parse("null x").unwrap_err(), fault("null x"));
}

#[test]
fn a_text_says_one_thing_under_a_key() {
    let body = r#"{"id": "first", "id": "second"}"#;
    let (a, b) = (parse(body).unwrap(), parse(body).unwrap());
    assert_eq!(text_of(&a, "id"), text_of(&b, "id"));
    assert_eq!(text_of(&a, "id").as_deref(), Some("second"));
}

// ---- Gmail ----

#[test]
fn a_gmail_profile_without_a_history_id_is_no_cursor() {
    let none = "gmail profile returned no historyId, so there is no cursor to sync from";
    assert_eq!(gmail_calls::read_profile(200, r#"{"historyId": "42"}"#).unwrap(), "42");
    assert_eq!(why(gmail_calls::read_profile(200, "{}")), none);
    assert_eq!(why(gmail_calls::read_profile(200, r#"{"historyId": ""}"#)), none);
    assert_eq!(why(gmail_calls::read_profile(200, "<html>")), none);
    assert!(matches!(gmail_calls::read_profile(401, "no"), Err(Error::Auth(_))));
}

#[test]
fn a_gmail_listing_is_a_page_of_ids() {
    let page = gmail_calls::read_listing(200, r#"{"nextPageToken": "p2"}"#).unwrap();
    assert!(matches!(
        page,
        gmail::Event::Listing(j) if text_of(&j, "nextPageToken").as_deref() == Some("p2")
    ));
    assert_eq!(
        why(gmail_calls::read_listing(200, "<html>")),
        format!("parsing messages.list: {}", fault("<html>"))
    );
    assert!(matches!(gmail_calls::read_listing(500, "oops"), Err(Error::Gmail(_))));
}

#[test]
fn gmail_metadata_of_a_deleted_message_is_nothing() {
    assert!(gmail_calls::read_metadata(404, "gone").unwrap().is_none());
    assert!(gmail_calls::read_metadata(200, "{}").unwrap().is_none());
    let body = r#"{"id": "m1", "threadId": "t1", "labelIds": ["INBOX"], "internalDate": "7"}"#;
    let m = gmail_calls::read_metadata(200, body).unwrap().unwrap();
    assert_eq!((m.id.as_str(), m.thread_id.as_str()), ("m1", "t1"));
    assert_eq!(m.internal_date_ms, 7);
    assert_eq!(
        why(gmail_calls::read_metadata(200, "<html>")),
        format!("parsing messages.get: {}", fault("<html>"))
    );
    assert!(matches!(gmail_calls::read_metadata(403, "no"), Err(Error::Auth(_))));
}

#[test]
fn gmail_octets_are_decoded_or_their_fault_is_told() {
    assert_eq!(gmail_calls::read_raw(200, r#"{"raw": "aGk_"}"#, "m1").unwrap().unwrap(), b"hi?");
    assert!(gmail_calls::read_raw(404, "gone", "m1").unwrap().is_none());
    assert_eq!(
        why(gmail_calls::read_raw(200, "{}", "m1")),
        "no raw payload for message m1"
    );
    assert!(why(gmail_calls::read_raw(200, r#"{"raw": "*"}"#, "m1"))
        .starts_with("decoding a raw message: "));
    assert_eq!(
        why(gmail_calls::read_raw(200, "[", "m1")),
        format!("parsing messages.get: {}", fault("["))
    );
    assert!(why(gmail_calls::read_raw(500, "oops", "m1")).contains("messages.get?format=raw"));
}

#[test]
fn a_gmail_history_page_or_an_expired_cursor() {
    assert!(matches!(gmail_calls::read_history(404, "x"), Ok(gmail::Event::Expired)));
    assert!(matches!(gmail_calls::read_history(410, "x"), Ok(gmail::Event::Expired)));
    let page = gmail_calls::read_history(200, r#"{"historyId": "9"}"#).unwrap();
    assert!(matches!(
        page,
        gmail::Event::History(j) if text_of(&j, "historyId").as_deref() == Some("9")
    ));
    assert_eq!(
        why(gmail_calls::read_history(200, "")),
        format!("parsing history.list: {}", fault(""))
    );
    assert!(matches!(gmail_calls::read_history(401, "no"), Err(Error::Auth(_))));
}

#[test]
fn gmail_labels_come_with_their_names() {
    let body = r#"{"labels": [{"id": "L1", "name": "Work"}, {"id": "L2"}]}"#;
    assert_eq!(
        gmail_calls::read_labels(200, body).unwrap(),
        vec![("L1".to_owned(), "Work".to_owned())]
    );
    assert_eq!(
        why(gmail_calls::read_labels(200, "nope")),
        format!("parsing labels.list: {}", fault("nope"))
    );
    assert!(matches!(gmail_calls::read_labels(500, "oops"), Err(Error::Gmail(_))));
}

// ---- Graph ----

#[test]
fn graph_folders_are_read_from_their_list() {
    let body = r#"{"value": [{"id": "f1", "displayName": "Inbox"}]}"#;
    let folders = graph_calls::read_folders(200, body).unwrap();
    assert_eq!(folders.len(), 1);
    assert_eq!(folders[0].id, "f1");
    assert_eq!(
        why(graph_calls::read_folders(200, "nope")),
        format!("parsing mailFolders: {}", fault("nope"))
    );
    assert!(matches!(graph_calls::read_folders(403, "no"), Err(Error::Auth(_))));
}

#[test]
fn a_graph_page_or_a_stale_cursor() {
    assert!(matches!(graph_calls::read_delta(410, "x"), Ok(graph::Event::Expired)));
    assert!(matches!(graph_calls::read_delta(404, "x"), Ok(graph::Event::Expired)));
    let body = r#"{"value": [], "@odata.deltaLink": "next"}"#;
    assert!(matches!(
        graph_calls::read_delta(200, body).unwrap(),
        graph::Event::Page(page) if page.delta_link.as_deref() == Some("next")
    ));
    assert_eq!(
        why(graph_calls::read_delta(200, "nope")),
        format!("parsing a delta page: {}", fault("nope"))
    );
    assert!(matches!(graph_calls::read_delta(500, "oops"), Err(Error::Graph(_))));
}

#[test]
fn a_graph_move_says_where_the_message_is_now() {
    assert_eq!(graph_calls::read_moved(201, r#"{"id": "new"}"#).unwrap(), "new");
    let none = "a move returned no new message id";
    assert_eq!(why(graph_calls::read_moved(201, "{}")), none);
    assert_eq!(why(graph_calls::read_moved(201, "")), none);
    assert!(matches!(graph_calls::read_moved(401, "no"), Err(Error::Auth(_))));
}

// ---- JMAP ----

#[test]
fn a_jmap_answer_is_its_responses_in_order() {
    let body = r#"{"methodResponses": [["Email/get", {}, "0"], ["error", {}, "1"]]}"#;
    let responses = jmap_calls::read_answer(200, body).unwrap();
    assert_eq!(responses.len(), 2);
    assert!(matches!(
        &responses[1],
        Json::Array(call) if matches!(&call[0], Json::Str(name) if name == "error")
    ));
    assert_eq!(
        why(jmap_calls::read_answer(200, "{}")),
        "JMAP response carried no methodResponses"
    );
    assert_eq!(
        why(jmap_calls::read_answer(200, "nope")),
        format!("unreadable JMAP response: {}", fault("nope"))
    );
    assert_eq!(
        why(jmap_calls::read_answer(500, "oops")),
        "JMAP request returned HTTP 500: oops"
    );
    assert!(matches!(jmap_calls::read_answer(401, "no"), Err(Error::Auth(_))));
}
