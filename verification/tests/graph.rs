use cosmic_pim_mail::error::Error;
use cosmic_pim_mail::folder::SpecialUse;
use cosmic_pim_mail::graph::{
    authorize, classify_removal, delta_status, flags_from, flags_patch, folder_for, moved_id,
    parse_datetime_ms, parse_folders, parse_message, parse_page, slug_for_well_known, submitted,
    Action, Event, GraphFolder, Pass, Removal,
};
use cosmic_pim_mail::ids::RemoteIds;
use cosmic_pim_mail::sasl::Credentials;
use cosmic_pim_mail::json::{parse, render, Json};
use cosmic_pim_mail::model::Flags;
use cosmic_pim_mail::smtp::Outcome;
use cosmic_pim_mail::push::DrainOutcome;
use cosmic_pim_mail::store::{MailStore, MemoryStore};

/// A JSON text as the library holds it.
fn json(text: &str) -> Json {
    parse(text).unwrap()
}

#[test]
fn a_changed_tombstone_is_not_a_deletion() {
    // The subtlety that silently drops updated mail. Exchange uses the
    // tombstone shape for "this left the filter", not only for "this is
    // gone".
    assert_eq!(classify_removal(Some("changed")), Removal::Changed);
    assert_eq!(classify_removal(Some("deleted")), Removal::Deleted);
    // An unspecified reason is a real removal — the conservative reading
    // is the one that matches Exchange's own default.
    assert_eq!(classify_removal(None), Removal::Deleted);
}

#[test]
fn is_read_is_the_right_way_round() {
    // Unlike Gmail's UNREAD. Two engines in one crate spelling read state
    // oppositely is exactly where a copy-paste goes wrong.
    assert!(!flags_from(&json(r#"{ "isRead": false }"#)).seen);
    assert!(flags_from(&json(r#"{ "isRead": true }"#)).seen);
}

#[test]
fn a_message_with_no_is_read_is_treated_as_read() {
    // Exchange omits it only on objects that are not mail; defaulting to
    // unread would light up a badge for every one of them.
    assert!(flags_from(&json(r#"{}"#)).seen);
}

#[test]
fn a_flag_status_of_flagged_is_the_only_one_that_counts() {
    assert!(flags_from(&json(r#"{ "flag": { "flagStatus": "flagged" } }"#)).flagged);
    assert!(!flags_from(&json(r#"{ "flag": { "flagStatus": "notFlagged" } }"#)).flagged);
    // `complete` is a finished follow-up, not a star.
    assert!(!flags_from(&json(r#"{ "flag": { "flagStatus": "complete" } }"#)).flagged);
    assert!(!flags_from(&json(r#"{}"#)).flagged);
}

#[test]
fn exchange_datetimes_parse_in_all_three_shapes() {
    // Exchange emits RFC 3339 mostly, and the other two sometimes.
    let expected = 1_785_834_000_000;
    assert_eq!(parse_datetime_ms("2026-08-04T09:00:00Z"), Some(expected));
    assert_eq!(parse_datetime_ms("2026-08-04T09:00:00.0000000"), Some(expected));
    assert_eq!(parse_datetime_ms("2026-08-04T09:00:00"), Some(expected));
    assert_eq!(parse_datetime_ms("not a date"), None);
}

#[test]
fn an_undated_message_is_kept_rather_than_dropped() {
    // A bad sort key is visible and recoverable; discarding the message
    // is neither.
    let message = parse_message(&json(r#"{ "id": "m1" }"#)).expect("a message");
    assert_eq!(message.received_ms, 0);
}

#[test]
fn well_known_names_map_without_looking_at_display_names() {
    // A German tenant's Deleted Items is "Gelöschte Elemente". Matching on
    // display names finds nothing.
    assert_eq!(slug_for_well_known("deleteditems"), Some("trash"));
    assert_eq!(slug_for_well_known("junkemail"), Some("junk"));
    assert_eq!(slug_for_well_known("sentitems"), Some("sent"));
    assert_eq!(slug_for_well_known("somethingelse"), None);
}

#[test]
fn a_user_folder_keeps_its_own_name() {
    let folder = GraphFolder {
        id: "AAMk2".into(),
        display_name: "Receipts".into(),
        well_known: None,
        total: 3,
        unread: 0,
    };

    assert_eq!(folder.slug(), "Receipts");
    assert_eq!(folder_for(&folder).special_use, None);
}

#[test]
fn a_well_known_folder_gets_its_special_use() {
    let folder = GraphFolder {
        id: "AAMk1".into(),
        display_name: "Posteingang".into(),
        well_known: Some("inbox".into()),
        total: 3,
        unread: 1,
    };

    assert_eq!(folder.slug(), "inbox");
    assert_eq!(folder_for(&folder).special_use, Some(SpecialUse::Inbox));
    assert_eq!(
        folder_for(&folder).display_name,
        "Posteingang",
        "the user's own language was replaced by a slug"
    );
}

#[test]
fn graph_a_password_is_refused_rather_than_sent() {
    let error = authorize(&Credentials::Password("hunter2".into())).unwrap_err();
    assert!(matches!(error, Error::Auth(_)), "got {error:?}");
}

fn page(text: &str) -> Event {
    Event::Page(parse_page(&json(text)))
}

#[test]
fn a_pass_fetches_what_is_new_and_keeps_the_delta_link() {
    let mut store = MemoryStore::default();
    let (mut pass, action) =
        Pass::open(&store, RemoteIds::default(), "https://g", "F1").unwrap();
    match action {
        Action::Page(url) => assert!(url.starts_with("https://g/me/mailFolders/F1/"), "{url}"),
        other => panic!("{other:?}"),
    }
    let event = page(
        r#"{ "value": [ { "id": "m1", "isRead": false,
            "receivedDateTime": "1970-01-01T00:00:05Z" } ], "@odata.deltaLink": "https://g/next" }"#,
    );
    match pass.advance(&mut store, event).unwrap() {
        Action::Raw(id) => assert_eq!(id, "m1"),
        other => panic!("{other:?}"),
    }
    let action = pass.advance(&mut store, Event::Raw(Some(b"bytes".to_vec()))).unwrap();
    assert!(matches!(action, Action::Done));
    let (state, outcome) = pass.close(DrainOutcome::default());
    assert_eq!(outcome.fetched, 1);
    assert!(outcome.bootstrapped);
    assert_eq!(state.cursor(), Some("https://g/next"));
    let uid = state.uid_of("m1").unwrap();
    assert_eq!(store.raw(uid).unwrap().unwrap(), b"bytes");
    assert_eq!(store.arrived_ms(uid), Some(5_000));

    // The next pass starts at the link; a deletion leaves, a change does not.
    let (mut pass, action) = Pass::open(&store, state, "https://g", "F1").unwrap();
    match action {
        Action::Page(url) => assert_eq!(url, "https://g/next"),
        other => panic!("{other:?}"),
    }
    let event = page(
        r#"{ "value": [ { "id": "m1", "@removed": { "reason": "changed" } } ], "@odata.nextLink": "p2" }"#,
    );
    match pass.advance(&mut store, event).unwrap() {
        Action::Page(url) => assert_eq!(url, "p2"),
        other => panic!("{other:?}"),
    }
    assert_eq!(store.state().unwrap().entries.len(), 1);
    let event = page(
        r#"{ "value": [ { "id": "m1", "@removed": { "reason": "deleted" } } ], "@odata.deltaLink": "d3" }"#,
    );
    assert!(matches!(pass.advance(&mut store, event).unwrap(), Action::Done));
    let (state, outcome) = pass.close(DrainOutcome::default());
    assert_eq!(outcome.removed, 1);
    assert_eq!(state.cursor(), Some("d3"));
    assert!(store.state().unwrap().entries.is_empty());
}

#[test]
fn a_stale_cursor_is_followed_by_a_fresh_read() {
    let mut store = MemoryStore::default();
    let state = RemoteIds::restored(vec![], 1, Some("https://g/old".into()));
    let (mut pass, _) = Pass::open(&store, state, "https://g", "F1").unwrap();
    match pass.advance(&mut store, Event::Expired).unwrap() {
        Action::Page(url) => assert!(url.contains("/F1/"), "{url}"),
        other => panic!("{other:?}"),
    }
}

#[test]
fn only_a_gone_cursor_is_stale() {
    assert!(matches!(delta_status(410, ""), Ok(true)));
    assert!(matches!(delta_status(200, ""), Ok(false)));
    assert!(matches!(delta_status(500, "x"), Err(Error::Graph(_))));
    assert!(matches!(delta_status(401, "x"), Err(Error::Auth(_))));
}

#[test]
fn a_submission_is_sent_refused_or_put_off() {
    assert!(matches!(submitted(202, b"m".to_vec(), ""), Outcome::Sent(_)));
    assert!(matches!(submitted(400, b"m".to_vec(), "x"), Outcome::NotSent(_)));
    assert!(matches!(submitted(503, b"m".to_vec(), "x"), Outcome::Ambiguous(_)));
}

#[test]
fn flags_are_patched_as_exchange_spells_them() {
    let flags = Flags { seen: true, flagged: true, ..Flags::default() };
    assert_eq!(
        render(&flags_patch(flags)),
        r#"{"flag":{"flagStatus":"flagged"},"isRead":true}"#
    );
}

#[test]
fn a_move_answers_with_the_new_id() {
    assert_eq!(moved_id(&json(r#"{ "id": "m9" }"#)).unwrap(), "m9");
    assert!(moved_id(&json("{}")).is_err());
}

#[test]
fn folders_without_an_id_are_skipped() {
    let page = json(
        r#"{ "value": [ { "id": "F1", "displayName": "Posteingang", "wellKnownName": "inbox",
            "totalItemCount": 3, "unreadItemCount": 1 }, { "displayName": "x" } ] }"#,
    );
    let folders = parse_folders(&page);
    assert_eq!(folders.len(), 1);
    assert_eq!(folders[0].well_known.as_deref(), Some("inbox"));
    assert_eq!((folders[0].total, folders[0].unread), (3, 1));
}
