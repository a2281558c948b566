use cosmic_pim_mail::error::Error;
use cosmic_pim_mail::jmap::{
    check_destroyed, check_updated, download_url, flags_of, keywords_of, method_error, parse_changes,
    parse_email, parse_emails, parse_ids, parse_mailboxes, parse_members, parse_state, Action, Event,
    JmapState, Pass,
};
use cosmic_pim_mail::json::{parse, render, Json};
use cosmic_pim_mail::model::Flags;
use cosmic_pim_mail::push::DrainOutcome;
use cosmic_pim_mail::store::{MailStore, MemoryStore};

/// A JSON text as the library holds it.
fn json(text: &str) -> Json {
    parse(text).unwrap()
}

#[test]
fn a_method_error_is_found_wherever_it_sits_in_the_batch() {
    // A batch's second call can fail while its first succeeds, and reading
    // only the first would report success over a refused request.
    let responses = vec![
        json(r#"["Email/get", { "list": [] }, "0"]"#),
        json(r#"["error", { "type": "cannotCalculateChanges" }, "1"]"#),
    ];

    assert_eq!(
        method_error(&responses).as_deref(),
        Some("cannotCalculateChanges")
    );
    assert_eq!(method_error(&responses[..1]), None);
}

#[test]
fn an_error_with_no_type_still_reports_as_one() {
    let responses = vec![json(r#"["error", {}, "0"]"#)];
    assert_eq!(method_error(&responses).as_deref(), Some("unknown"));
}

#[test]
fn a_set_that_says_nothing_is_not_a_success() {
    // The failure this catches is silent: the queue entry is dropped, the
    // UI reports the change saved, and the server never made it. Absence
    // of an error is not confirmation.
    let responses = vec![json(r#"["Email/set", { "accountId": "a" }, "0"]"#)];
    assert!(check_updated(&responses, "M1").is_err());
}

#[test]
fn a_set_confirms_by_naming_the_object_it_changed() {
    let responses = vec![json(r#"["Email/set", { "updated": { "M1": null } }, "0"]"#)];
    assert!(check_updated(&responses, "M1").is_ok());
    // …and confirming a *different* object is not confirming this one.
    assert!(check_updated(&responses, "M2").is_err());
}

#[test]
fn a_refusal_carries_the_servers_reason() {
    let responses = vec![json(r#"[ "Email/set", { "notUpdated": { "M1": { "type": "forbidden" } } }, "0" ]"#)];

    let error = check_updated(&responses, "M1").unwrap_err();

    assert!(error.describe().contains("forbidden"), "got {error:?}");
}

#[test]
fn resetting_the_era_forces_the_next_pass_to_read_in_full() {
    let mut state = JmapState::restored(vec![], 1, Some("42".into()));
    assert_eq!(state.email_state(), Some("42"));

    state.reset_era();

    assert_eq!(state.email_state(), None);
}


#[test]
fn keywords_map_to_flags_both_ways() {
    let flags = Flags {
        seen: true,
        answered: true,
        flagged: false,
        draft: false,
        deleted: false,
        passed: true,
    };

    let keywords = keywords_of(flags);
    assert_eq!(keywords.bool_at("$seen"), Some(true));
    assert_eq!(keywords.bool_at("$answered"), Some(true));
    assert!(keywords.get("$flagged").is_none(), "a false keyword was sent as present");
    assert_eq!(flags_of(&keywords), flags);
}

#[test]
fn jmap_has_no_deleted_keyword_and_none_is_invented() {
    // RFC 8621 deliberately drops \Deleted: a message is in a mailbox or it
    // is not. Mapping it onto something would make a local mark look as
    // though the server agreed with it.
    let flags = Flags {
        deleted: true,
        ..Default::default()
    };
    assert_eq!(render(&keywords_of(flags)), "{}");
    assert!(!flags_of(&json(r#"{ "$deleted": true }"#)).deleted);
}

#[test]
fn an_unknown_keyword_is_ignored_rather_than_failing() {
    // Servers and other clients set their own; `$junk` and `$notjunk` are
    // common, and a strict reader would reject half the mailbox.
    let flags = flags_of(&json(r#"{ "$seen": true, "$junk": true, "custom": true }"#));
    assert!(flags.seen);
    assert!(!flags.flagged);
}

#[test]
fn an_email_without_a_blob_id_is_skipped_rather_than_stored_empty() {
    // The blob id is the only route to the original bytes. An object
    // without one cannot be stored verbatim, and storing a reassembled
    // approximation is what this crate refuses to do.
    assert!(parse_email(&json(r#"{ "id": "M1" }"#)).is_none());
    assert!(parse_email(&json(r#"{ "id": "M1", "blobId": "B1" }"#)).is_some());
}

#[test]
fn received_at_becomes_epoch_milliseconds() {
    let email = parse_email(&json(r#"{ "id": "M1", "blobId": "B1", "receivedAt": "2026-08-04T09:00:00Z" }"#))
    .expect("an email");

    assert_eq!(email.received_at_ms, 1_785_834_000_000);
}

#[test]
fn an_undated_email_is_not_a_parse_failure() {
    // A missing receivedAt is a poor sort key, not a reason to drop mail.
    let email = parse_email(&json(r#"{ "id": "M1", "blobId": "B1" }"#)).expect("an email");
    assert_eq!(email.received_at_ms, 0);
}

#[test]
fn jmap_a_local_uid_is_assigned_once_per_server_id() {
    let mut state = JmapState::default();
    let first = state.uid_for("M1");

    assert_eq!(state.uid_for("M1"), first);
    assert_ne!(state.uid_for("M2"), first);
    assert_eq!(state.id_of(first), Some("M1"));
}

#[test]
fn jmap_the_sidecar_survives_a_reopen() {
    let mut state = JmapState::default();
    let uid = state.uid_for("M1");

    let kept = JmapState::restored(
        state.entries().clone(),
        state.next_uid(),
        state.email_state().map(str::to_owned),
    );
    assert_eq!(kept.uid_of("M1"), Some(uid));
    assert_eq!(kept.next_uid(), state.next_uid());
}

fn responses(text: &str) -> Vec<Json> {
    match json(text) {
        Json::Array(items) => items,
        other => panic!("{other:?}"),
    }
}

#[test]
fn a_destroyed_email_is_confirmed_by_name() {
    let r = responses(r#"[["Email/set", { "destroyed": ["M1"] }, "0"]]"#);
    assert!(check_destroyed(&r, "M1").is_ok());
    assert!(check_destroyed(&r, "M2").is_err());
}

#[test]
fn a_full_read_settles_the_mailbox_and_advances_the_era_last() {
    let mut store = MemoryStore::default();
    let (mut pass, action) = Pass::open(JmapState::default(), "B1", 50);
    assert!(matches!(action, Action::AskState));
    match pass.advance(&mut store, Event::State("s1".into())).unwrap() {
        Action::Query(n) => assert_eq!(n, 50),
        other => panic!("{other:?}"),
    }
    match pass.advance(&mut store, Event::Ids(vec!["M1".into()])).unwrap() {
        Action::GetEmails(ids) => assert_eq!(ids, vec!["M1".to_owned()]),
        other => panic!("{other:?}"),
    }
    let emails = parse_emails(&responses(
        r#"[["Email/get", { "list": [ { "id": "M1", "blobId": "X1", "keywords": { "$seen": true },
            "receivedAt": "1970-01-01T00:00:07Z" } ] }, "0"]]"#,
    ))
    .unwrap();
    match pass.advance(&mut store, Event::Emails(emails)).unwrap() {
        Action::Download(blob) => assert_eq!(blob, "X1"),
        other => panic!("{other:?}"),
    }
    let action = pass.advance(&mut store, Event::Blob(b"bytes".to_vec())).unwrap();
    assert!(matches!(action, Action::Done));
    let (state, outcome) = pass.close(DrainOutcome::default());
    assert_eq!(outcome.fetched, 1);
    assert_eq!(state.email_state(), Some("s1"));
    let uid = state.uid_of("M1").unwrap();
    assert_eq!(store.raw(uid).unwrap().unwrap(), b"bytes");
    assert_eq!(store.arrived_ms(uid), Some(7_000));
    assert!(store.state().unwrap().entries[&uid].seen);

    // What changes next comes from the era's state, and a destroyed email
    // leaves.
    let (mut pass, action) = Pass::open(state, "B1", 50);
    match action {
        Action::AskChanges(since) => assert_eq!(since, "s1"),
        other => panic!("{other:?}"),
    }
    let changes = parse_changes(&responses(
        r#"[["Email/changes", { "created": [], "updated": [], "destroyed": ["M1"],
            "newState": "s2", "hasMoreChanges": false }, "0"]]"#,
    ))
    .unwrap();
    let action = pass.advance(&mut store, Event::Changes(changes)).unwrap();
    assert!(matches!(action, Action::Done), "{action:?}");
    let (state, outcome) = pass.close(DrainOutcome::default());
    assert_eq!(outcome.removed, 1);
    assert_eq!(state.email_state(), Some("s2"));
    assert!(store.state().unwrap().entries.is_empty());
}

#[test]
fn a_state_the_server_cannot_calculate_from_is_read_in_full() {
    let mut store = MemoryStore::default();
    let state = JmapState::restored(vec![], 1, Some("s1".into()));
    let (mut pass, _) = Pass::open(state, "B1", 50);
    let none = parse_changes(&responses(
        r#"[["error", { "type": "cannotCalculateChanges" }, "0"]]"#,
    ))
    .unwrap();
    assert!(none.is_none());
    let action = pass.advance(&mut store, Event::Changes(none)).unwrap();
    assert!(matches!(action, Action::AskState));
}

#[test]
fn an_answer_that_names_nothing_is_an_error() {
    assert!(matches!(
        parse_state(&responses(r#"[["Email/get", {}, "0"]]"#)),
        Err(Error::Jmap(_))
    ));
    assert_eq!(
        parse_state(&responses(r#"[["Email/get", { "state": "s" }, "0"]]"#)).unwrap(),
        "s"
    );
    assert_eq!(
        parse_ids(&responses(r#"[["Email/query", { "ids": ["a", "b"] }, "0"]]"#)).unwrap(),
        vec!["a".to_owned(), "b".to_owned()]
    );
}

#[test]
fn members_carry_the_mailboxes_that_hold_them() {
    let members = parse_members(&responses(
        r#"[["Email/get", { "list": [ { "id": "M1", "blobId": "X",
            "mailboxIds": { "B1": true, "B2": false } } ] }, "0"]]"#,
    ))
    .unwrap();
    assert_eq!(members.len(), 1);
    assert!(members[0].mailboxes.contains(&"B1".to_owned()));
}

#[test]
fn mailboxes_are_listed_with_their_roles() {
    let mailboxes = parse_mailboxes(&responses(
        r#"[["Mailbox/get", { "list": [ { "id": "B1", "name": "Inbox", "role": "inbox" } ] }, "0"]]"#,
    ))
    .unwrap();
    assert_eq!(mailboxes.len(), 1);
    assert_eq!(mailboxes[0].role.as_deref(), Some("inbox"));
}

#[test]
fn a_download_url_is_filled_in() {
    let url = download_url(
        "https://j/{accountId}/{blobId}?name={name}&type={type}",
        "acc",
        "X1",
    );
    assert!(url.starts_with("https://j/acc/X1?name=message.eml"), "{url}");
}

#[test]
fn the_era_survives_a_round_trip_through_the_sidecar() {
    let mut state = JmapState::restored(vec![], 1, Some("state-7".into()));
    state.uid_for("M1");

    let kept = JmapState::restored(
        state.entries().clone(),
        state.next_uid(),
        state.email_state().map(str::to_owned),
    );
    assert_eq!(
        kept.email_state(),
        Some("state-7"),
        "a restart would re-read every mailbox in full"
    );
    assert_eq!(kept.uid_of("M1"), state.uid_of("M1"));
}
