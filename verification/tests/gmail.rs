use cosmic_pim_mail::error::Error;
use cosmic_pim_mail::gmail::{
    authorize, decode_base64url, flags_from_labels, fold_history, folder_from_labels, folders,
    history_status, history_url, label_delta, list_url, move_change, move_delta, parse_labels,
    parse_metadata, parse_profile, parse_raw, refuse, submitted, Action, Event, HistoryDelta, Pass,
};
use cosmic_pim_mail::ids::RemoteIds;
use cosmic_pim_mail::sasl::Credentials;
use cosmic_pim_mail::json::{parse, Json};
use cosmic_pim_mail::model::Flags;
use cosmic_pim_mail::smtp::Outcome;
use cosmic_pim_mail::push::DrainOutcome;
use cosmic_pim_mail::store::{MailStore, MemoryStore};

/// A JSON text as the library holds it.
fn json(text: &str) -> Json {
    parse(text).unwrap()
}

fn labels_of(names: &[&str]) -> Vec<String> {
    names.iter().map(|n| (*n).to_owned()).collect()
}

#[test]
fn a_message_with_no_location_label_is_archived() {
    // Gmail's "All Mail without the Inbox label". Getting this wrong files
    // every archived message in the inbox.
    assert_eq!(folder_from_labels(&labels_of(&["UNREAD"])), "archive");
    assert_eq!(folder_from_labels(&vec![]), "archive");
}

#[test]
fn the_bin_and_spam_beat_everything_else() {
    // A binned message keeps INBOX. Showing it in the inbox contradicts
    // Gmail's own interface.
    assert_eq!(folder_from_labels(&labels_of(&["INBOX", "TRASH"])), "trash");
    assert_eq!(folder_from_labels(&labels_of(&["INBOX", "SPAM"])), "junk");
}

#[test]
fn mail_that_is_both_sent_and_in_the_inbox_stays_in_the_inbox() {
    // Self-addressed mail, and anything from a send-as alias, which Gmail
    // stamps SENT on arrival. Filing it under sent hides it and silences
    // its notification.
    assert_eq!(folder_from_labels(&labels_of(&["SENT", "INBOX"])), "inbox");
}

#[test]
fn unread_is_inverted_because_gmail_marks_the_opposite() {
    // The single easiest way to mark an entire mailbox read on every
    // device the account is on.
    assert!(!flags_from_labels(&labels_of(&["UNREAD"])).seen);
    assert!(flags_from_labels(&labels_of(&["INBOX"])).seen);
}

#[test]
fn starring_maps_both_ways() {
    assert!(flags_from_labels(&labels_of(&["STARRED"])).flagged);

    // From unread-and-unstarred to read-and-starred: one label on, one
    // off, in a single request.
    let (add, remove) = label_delta(
        Flags::default(),
        Flags {
            seen: true,
            flagged: true,
            ..Default::default()
        },
    );
    assert_eq!(add, vec!["STARRED"]);
    assert_eq!(remove, vec!["UNREAD"]);

    // And unstarring only touches STARRED.
    let starred = Flags {
        seen: true,
        flagged: true,
        ..Default::default()
    };
    let unstarred = Flags {
        flagged: false,
        ..starred
    };
    assert_eq!(
        label_delta(starred, unstarred),
        (Vec::new(), vec!["STARRED"])
    );
}

#[test]
fn marking_read_removes_the_unread_label() {
    let unread = Flags::default();
    let read = Flags {
        seen: true,
        ..Default::default()
    };

    let (add, remove) = label_delta(unread, read);

    assert!(add.is_empty());
    assert_eq!(remove, vec!["UNREAD"]);
}

#[test]
fn an_unchanged_flag_set_sends_nothing() {
    // `messages.modify` rejects empty label lists, and a no-op still costs
    // quota.
    let flags = Flags {
        seen: true,
        flagged: true,
        ..Default::default()
    };
    assert_eq!(label_delta(flags, flags), (Vec::new(), Vec::new()));
}

#[test]
fn archiving_is_the_removal_of_inbox_and_nothing_else() {
    // The operation IMAP cannot express, and the reason this module
    // exists. A client that models it as a move to a folder either invents
    // a label or loses the change.
    assert_eq!(move_delta("archive"), (Vec::new(), vec!["INBOX"]));
}

#[test]
fn binning_and_junking_also_leave_the_inbox() {
    // Leaving INBOX on means the message shows in both places.
    assert_eq!(move_delta("trash"), (vec!["TRASH"], vec!["INBOX"]));
    assert_eq!(move_delta("junk"), (vec!["SPAM"], vec!["INBOX"]));
}

#[test]
fn base64url_decodes_with_or_without_padding() {
    // Gmail omits padding; some proxies add it back.
    assert_eq!(decode_base64url("aGVsbG8").unwrap(), b"hello");
    assert_eq!(decode_base64url("aGVsbG8=").unwrap(), b"hello");
    // The two characters that differ from standard base64: `-` is 62
    // where standard has `+`, and `_` is 63 where standard has `/`. A
    // decoder that forgets to translate them mangles roughly one message
    // byte in thirty.
    assert_eq!(decode_base64url("--__").unwrap(), vec![251, 239, 255]);
    assert_eq!(
        decode_base64url("--__").unwrap(),
        decode_base64url("++//").unwrap(),
        "the url-safe alphabet did not map onto the standard one"
    );
}

#[test]
fn a_history_page_folds_every_kind_of_change_into_one_visit_each() {
    // A message touched three ways in one window is one request, not three.
    let records = vec![json(r#"{ "messagesAdded": [ { "message": { "id": "M1" } } ], "labelsAdded": [ { "message": { "id": "M1" } }, { "message": { "id": "M2" } } ], "labelsRemoved": [ { "message": { "id": "M1" } } ] }"#)];

    let mut delta = HistoryDelta::default();
    fold_history(&records, &mut delta);

    assert_eq!(delta.touched, vec!["M1".to_owned(), "M2".to_owned()]);
    assert!(delta.deleted.is_empty());
}

#[test]
fn a_message_deleted_in_the_same_window_is_not_also_fetched() {
    // The records are ordered but the deletion is the later fact whatever
    // order they arrive in; fetching it would 404, or worse, succeed.
    let records = vec![json(r#"{ "messagesAdded": [ { "message": { "id": "M1" } } ], "messagesDeleted": [ { "message": { "id": "M1" } } ] }"#)];

    let mut delta = HistoryDelta::default();
    fold_history(&records, &mut delta);

    assert!(delta.touched.is_empty());
    assert_eq!(delta.deleted, vec!["M1".to_owned()]);
}

#[test]
fn metadata_survives_a_message_with_no_labels_at_all() {
    let message = parse_metadata(&json(r#"{ "id": "M1", "internalDate": "1785834000000" }"#))
        .expect("a message");

    assert_eq!(message.folder(), "archive");
    assert_eq!(message.internal_date_ms, 1_785_834_000_000);
    assert!(
        message.flags().seen,
        "a message with no UNREAD label is read"
    );
}

#[test]
fn gmail_a_password_is_refused_rather_than_sent() {
    // Google withdrew password authentication for this API; sending one
    // produces a 401 that reads as a wrong password.
    let error = authorize(&Credentials::Password("app-password".into())).unwrap_err();
    assert!(matches!(error, Error::Auth(_)), "got {error:?}");
}

#[test]
fn every_maintained_folder_has_a_special_use() {
    // The store keys its layout on this, and an unrecognised folder would
    // land in a directory named after a slug nobody chose.
    for folder in folders() {
        assert!(
            folder.special_use.is_some(),
            "{} has no special use",
            folder.wire_name
        );
    }
}

fn metadata(text: &str) -> Event {
    Event::Metadata(parse_metadata(&json(text)))
}

#[test]
fn a_bootstrap_lists_the_folder_and_commits_its_cursor_last() {
    let mut store = MemoryStore::default();
    let (mut pass, action) = Pass::open(RemoteIds::default(), "inbox", 10);
    assert!(matches!(action, Action::Profile));
    match pass.advance(&mut store, Event::Profile("77".into())).unwrap() {
        Action::List { label, take, token } => {
            assert_eq!((label.as_str(), take, token), ("INBOX", 10, None));
        }
        other => panic!("{other:?}"),
    }
    let page = json(r#"{ "messages": [ { "id": "M1" } ] }"#);
    match pass.advance(&mut store, Event::Listing(page)).unwrap() {
        Action::Metadata(id) => assert_eq!(id, "M1"),
        other => panic!("{other:?}"),
    }
    let event = metadata(r#"{ "id": "M1", "labelIds": ["INBOX", "UNREAD"], "internalDate": "5" }"#);
    match pass.advance(&mut store, event).unwrap() {
        Action::Raw(id) => assert_eq!(id, "M1"),
        other => panic!("{other:?}"),
    }
    let event = Event::Raw(Some(b"Subject: x\r\n\r\n".to_vec()));
    assert!(matches!(pass.advance(&mut store, event).unwrap(), Action::Done));
    let (state, outcome) = pass.close(DrainOutcome::default());
    assert_eq!(state.cursor(), Some("77"));
    assert!(outcome.bootstrapped);
    assert_eq!(outcome.fetched, 1);
    let uid = state.uid_of("M1").unwrap();
    assert!(!store.state().unwrap().entries[&uid].seen);
    assert_eq!(store.raw(uid).unwrap().unwrap(), b"Subject: x\r\n\r\n");
    assert_eq!(store.arrived_ms(uid), Some(5));
}

#[test]
fn history_moves_a_message_out_of_the_folder() {
    let mut store = MemoryStore::default();
    let (mut pass, _) = Pass::open(RemoteIds::default(), "inbox", 10);
    pass.advance(&mut store, Event::Profile("1".into())).unwrap();
    pass.advance(&mut store, Event::Listing(json(r#"{ "messages": [ { "id": "M1" } ] }"#))).unwrap();
    pass.advance(&mut store, metadata(r#"{ "id": "M1", "labelIds": ["INBOX"] }"#)).unwrap();
    pass.advance(&mut store, Event::Raw(Some(b"x".to_vec()))).unwrap();
    let (state, _) = pass.close(DrainOutcome::default());

    let (mut pass, action) = Pass::open(state, "inbox", 10);
    match action {
        Action::History { since, token } => assert_eq!((since.as_str(), token), ("1", None)),
        other => panic!("{other:?}"),
    }
    let page = json(
        r#"{ "historyId": "9", "history": [ { "labelsRemoved": [ { "message": { "id": "M1" } } ] } ] }"#,
    );
    match pass.advance(&mut store, Event::History(page)).unwrap() {
        Action::Metadata(id) => assert_eq!(id, "M1"),
        other => panic!("{other:?}"),
    }
    let event = metadata(r#"{ "id": "M1", "labelIds": [] }"#);
    assert!(matches!(pass.advance(&mut store, event).unwrap(), Action::Done));
    let (state, outcome) = pass.close(DrainOutcome::default());
    assert_eq!(outcome.removed, 1);
    assert_eq!(state.cursor(), Some("9"));
    assert!(store.state().unwrap().entries.is_empty());
}

#[test]
fn an_expired_cursor_is_followed_by_a_bootstrap() {
    let mut store = MemoryStore::default();
    let state = RemoteIds::restored(vec![], 1, Some("old".into()));
    let (mut pass, _) = Pass::open(state, "inbox", 10);
    let action = pass.advance(&mut store, Event::Expired).unwrap();
    assert!(matches!(action, Action::Profile));
}

#[test]
fn statuses_are_told_apart() {
    assert!(matches!(history_status(404, ""), Ok(true)));
    assert!(matches!(history_status(200, ""), Ok(false)));
    assert!(matches!(history_status(500, "oops"), Err(Error::Gmail(_))));
    assert!(matches!(refuse(401, "x", ""), Error::Auth(_)));
    assert!(matches!(refuse(500, "x", ""), Error::Gmail(_)));
    assert!(matches!(submitted(200, b"m".to_vec(), ""), Outcome::Sent(_)));
    assert!(matches!(submitted(400, b"m".to_vec(), "bad"), Outcome::NotSent(_)));
    assert!(matches!(submitted(503, b"m".to_vec(), "later"), Outcome::Ambiguous(_)));
}

#[test]
fn urls_are_encoded_and_capped() {
    let url = list_url("https://g", "INBOX", 500, &Some("t/1".to_owned()));
    assert!(url.contains("maxResults=500"), "{url}");
    assert!(url.contains("INBOX"), "{url}");
    let url = history_url("https://g", "12", &None);
    assert!(url.starts_with("https://g/history?"), "{url}");
    assert!(url.contains("startHistoryId=12"), "{url}");
}

#[test]
fn a_profile_without_a_history_id_is_no_cursor() {
    assert_eq!(parse_profile(&json(r#"{ "historyId": "5" }"#)).unwrap(), "5");
    assert!(parse_profile(&json("{}")).is_err());
}

#[test]
fn raw_bytes_are_decoded_from_the_field_that_holds_them() {
    assert_eq!(parse_raw(&json(r#"{ "raw": "aGk" }"#), "M1").unwrap(), b"hi");
    assert!(parse_raw(&json("{}"), "M1").is_err());
    assert!(parse_raw(&json(r#"{ "raw": "a" }"#), "M1").is_err());
}

#[test]
fn labels_are_listed_with_their_names() {
    let page = json(r#"{ "labels": [ { "id": "L1", "name": "Receipts" }, { "name": "x" } ] }"#);
    assert_eq!(parse_labels(&page), vec![("L1".to_owned(), "Receipts".to_owned())]);
}

#[test]
fn a_move_to_a_folder_gmail_does_not_have_is_refused() {
    assert!(move_change("nowhere").is_err());
    assert_eq!(move_change("archive").unwrap(), (Vec::new(), vec!["INBOX"]));
}
