use cosmic_pim_mail::imap::{
    append_flags, flag_window_query, imap_date, search_criteria, uid_set, Action, Cycle, Endpoint,
    Event, MemoryMailbox, Security, Selected, SyncOptions, FETCH_ITEMS,
};
use cosmic_pim_mail::model::{Flags, ImapFlag};
use cosmic_pim_mail::push::DrainOutcome;
use cosmic_pim_mail::store::{Cursor, MailStore, RemoteMessage};

#[test]
fn search_dates_are_rendered_the_only_way_the_rfc_accepts() {
    assert_eq!(imap_date(1_700_000_000_000).as_deref(), Some("14-Nov-2023"));
    assert_eq!(imap_date(0).as_deref(), Some("01-Jan-1970"));
}

#[test]
fn the_fetch_never_asks_for_a_body_that_marks_messages_read() {
    // BODY[] sets \Seen as a side effect. A sync using it marks the user's
    // whole mailbox read, on the server, on every device, with no undo.
    assert!(FETCH_ITEMS.contains("BODY.PEEK["));
    assert!(!FETCH_ITEMS.contains("BODY["));
}

fn selected() -> Selected {
    Selected {
        uid_validity: Some(7),
        exists: 3,
        highest_mod_seq: Some(50),
        may_create: true,
        condstore: true,
        qresync: false,
    }
}

fn message(uid: u32) -> RemoteMessage {
    RemoteMessage {
        uid,
        flags: Flags::default(),
        raw: format!("Subject: {uid}\r\n\r\nbody\r\n").into_bytes(),
        internal_date_ms: 0,
    }
}

/// A mailbox that holds 1 and 2, synced up to there.
fn synced() -> MemoryMailbox {
    let mut mailbox = MemoryMailbox::default();
    mailbox.upsert(&message(1)).unwrap();
    mailbox.upsert(&message(2)).unwrap();
    mailbox
        .commit_cursor(Cursor {
            uid_validity: 7,
            last_uid: 2,
            highest_modseq: 40,
            accepts_keywords: true,
        })
        .unwrap();
    mailbox
}

#[test]
fn a_cycle_fetches_what_is_new_and_commits_its_cursor_last() {
    let mut mailbox = synced();
    let mut cycle = Cycle::open(&mut mailbox, selected(), SyncOptions::default()).unwrap();
    let action = cycle.advance(&mut mailbox, Event::Drained(DrainOutcome::default())).unwrap();
    match action {
        Action::Search(query) => assert_eq!(query, "UID 3:* NOT DELETED"),
        other => panic!("{other:?}"),
    }
    // A server answers `3:*` with its last message even where it is below 3.
    let action = cycle.advance(&mut mailbox, Event::Found(vec![2, 3])).unwrap();
    match action {
        Action::Fetch(uids) => assert_eq!(uids, vec![3]),
        other => panic!("{other:?}"),
    }
    assert_eq!(mailbox.state().unwrap().cursor.last_uid, 2, "the cursor ran ahead");
    let action = cycle.advance(&mut mailbox, Event::Messages(vec![message(3)])).unwrap();
    match action {
        Action::Window(query) => assert!(query.contains("CHANGEDSINCE 40"), "{query}"),
        other => panic!("{other:?}"),
    }
    let seen = Flags { seen: true, ..Flags::default() };
    let action = cycle
        .advance(&mut mailbox, Event::Window { deltas: vec![(1, seen)], vanished: vec![] })
        .unwrap();
    match action {
        Action::Done(outcome) => {
            assert_eq!(outcome.fetched, 1);
            assert_eq!(outcome.reflagged, 1);
            assert!(!outcome.modseq_held_back);
        }
        other => panic!("{other:?}"),
    }
    let state = mailbox.state().unwrap();
    assert_eq!(state.cursor.last_uid, 3);
    assert_eq!(state.cursor.highest_modseq, 50);
    assert!(state.entries[&1].seen);
    assert_eq!(mailbox.raw(3).unwrap().unwrap(), message(3).raw);
}

#[test]
fn a_failed_flag_window_is_replayed_next_time() {
    let mut mailbox = synced();
    let mut cycle = Cycle::open(&mut mailbox, selected(), SyncOptions::default()).unwrap();
    cycle.advance(&mut mailbox, Event::Drained(DrainOutcome::default())).unwrap();
    let action = cycle.advance(&mut mailbox, Event::Found(vec![])).unwrap();
    assert!(matches!(action, Action::Window(_)));
    match cycle.advance(&mut mailbox, Event::WindowFailed).unwrap() {
        Action::Done(outcome) => assert!(outcome.modseq_held_back),
        other => panic!("{other:?}"),
    }
    assert_eq!(mailbox.state().unwrap().cursor.highest_modseq, 40);
}

#[test]
fn a_renumbered_mailbox_is_emptied_before_anything_else() {
    let mut mailbox = synced();
    let renumbered = Selected { uid_validity: Some(8), ..selected() };
    let cycle = Cycle::open(&mut mailbox, renumbered, SyncOptions::default()).unwrap();
    assert!(cycle.outcome.renumbered);
    assert!(mailbox.state().unwrap().entries.is_empty());
}

#[test]
fn an_empty_listing_drops_nothing_from_a_mailbox_that_says_it_has_mail() {
    let mut mailbox = synced();
    let options = SyncOptions { reconcile: true, since_ms: None };
    let mut cycle = Cycle::open(&mut mailbox, selected(), options).unwrap();
    cycle.advance(&mut mailbox, Event::Drained(DrainOutcome::default())).unwrap();
    cycle.advance(&mut mailbox, Event::Found(vec![])).unwrap();
    let action = cycle
        .advance(&mut mailbox, Event::Window { deltas: vec![], vanished: vec![] })
        .unwrap();
    assert!(matches!(action, Action::List));
    match cycle.advance(&mut mailbox, Event::Listing(vec![])).unwrap() {
        Action::Done(outcome) => assert!(outcome.guard_tripped),
        other => panic!("{other:?}"),
    }
    assert_eq!(mailbox.state().unwrap().entries.len(), 2);
}

#[test]
fn a_listing_drops_what_is_gone_and_fetches_what_was_missed() {
    let mut mailbox = synced();
    let options = SyncOptions { reconcile: true, since_ms: None };
    let mut cycle = Cycle::open(&mut mailbox, selected(), options).unwrap();
    cycle.advance(&mut mailbox, Event::Drained(DrainOutcome::default())).unwrap();
    cycle.advance(&mut mailbox, Event::Found(vec![])).unwrap();
    cycle
        .advance(&mut mailbox, Event::Window { deltas: vec![], vanished: vec![] })
        .unwrap();
    let action = cycle
        .advance(
            &mut mailbox,
            Event::Listing(vec![(2, Flags::default()), (3, Flags::default())]),
        )
        .unwrap();
    match action {
        Action::Fetch(uids) => assert_eq!(uids, vec![3]),
        other => panic!("{other:?}"),
    }
    match cycle.advance(&mut mailbox, Event::Messages(vec![message(3)])).unwrap() {
        Action::Done(outcome) => assert_eq!(outcome.removed, 1),
        other => panic!("{other:?}"),
    }
    let held: Vec<u32> = mailbox.state().unwrap().entries.keys().copied().collect();
    assert_eq!(held, vec![2, 3]);
}

#[test]
fn an_event_nobody_waits_for_is_refused() {
    let mut mailbox = synced();
    let mut cycle = Cycle::open(&mut mailbox, selected(), SyncOptions::default()).unwrap();
    assert!(cycle.advance(&mut mailbox, Event::Found(vec![9])).is_err());
    assert_eq!(mailbox.state().unwrap().entries.len(), 2);
}

#[test]
fn commands_are_written_as_the_protocol_has_them() {
    assert_eq!(search_criteria(9, Some(1_700_000_000_000)), "UID 10:* NOT DELETED");
    assert_eq!(search_criteria(0, Some(1_700_000_000_000)), "SINCE 14-Nov-2023 NOT DELETED");
    assert_eq!(search_criteria(0, None), "NOT DELETED");
    assert_eq!(uid_set(&[3, 9, 12]), "3,9,12");
    assert!(flag_window_query(41, true).contains("VANISHED"));
    assert!(!flag_window_query(41, false).contains("VANISHED"));
    let flags = Flags { seen: true, draft: true, ..Flags::default() };
    assert_eq!(append_flags(flags), vec![ImapFlag::Seen, ImapFlag::Draft]);
}

#[test]
fn an_endpoint_defaults_to_implicit_tls() {
    let endpoint = Endpoint::tls("imap.example.com", "me");
    assert_eq!(endpoint.port, 993);
    assert_eq!(endpoint.security, Security::Tls);
}
