use cosmic_pim_mail::error::Error;
use cosmic_pim_mail::model::Flags;
use cosmic_pim_mail::pop3::{
    answer_lines, capabilities, parse_stat, parse_uidl, read_body, read_status, supports,
    supports_uidl, Action, Event, Pass, Pop3State, Retention,
};
use cosmic_pim_mail::store::{MailStore, MemoryStore, RemoteMessage};

/// The canned bytes of a connection, and how far they were read.
struct Wire {
    bytes: Vec<u8>,
    at: usize,
}

fn fake_session(wire: &[u8]) -> Wire {
    Wire { bytes: wire.to_vec(), at: 0 }
}

impl Wire {
    fn read_body(&mut self) -> Result<Vec<u8>, Error> {
        let (body, taken) = read_body(&self.bytes[self.at..])?;
        self.at += taken;
        Ok(body)
    }

    fn read_status(&mut self) -> Result<String, Error> {
        let rest = &self.bytes[self.at..];
        let end = rest.iter().position(|b| *b == b'\n').map_or(rest.len(), |i| i + 1);
        let line = String::from_utf8(rest[..end].to_vec()).unwrap();
        self.at += end;
        read_status(&line)
    }

    fn uidl_after_write(&mut self) -> Result<Vec<(u32, String)>, Error> {
        self.read_status()?;
        let body = self.read_body()?;
        Ok(parse_uidl(&answer_lines(&body)))
    }
}

#[test]
fn a_dot_stuffed_line_is_restored() {
    // The classic POP3 corruption. A message with a line beginning "." is
    // rare enough to survive testing and common enough to reach a real
    // person, and mangling it invalidates the DKIM signature over it.
    let wire = b"Subject: Test\r\n\r\nOne\r\n..hidden\r\nTwo\r\n.\r\n";
    let mut session = fake_session(wire);

    let body = session.read_body().expect("body");

    assert_eq!(
        String::from_utf8_lossy(&body),
        "Subject: Test\r\n\r\nOne\r\n.hidden\r\nTwo\r\n"
    );
}

#[test]
fn a_terminator_ends_the_body_and_nothing_else_does() {
    let wire = b"line one\r\n.\r\n+OK next command\r\n";
    let mut session = fake_session(wire);

    assert_eq!(session.read_body().unwrap(), b"line one\r\n");
    // The stream is left exactly at the next response, not past it.
    assert_eq!(session.read_status().unwrap(), "next command");
}

#[test]
fn a_truncated_body_is_an_error_rather_than_a_short_message() {
    // Storing what arrived would file a half-message and record it as
    // downloaded, so it would never be fetched again.
    let mut session = fake_session(b"Subject: Test\r\nhalf a mess");
    assert!(session.read_body().is_err());
}

#[test]
fn an_err_response_carries_the_servers_reason() {
    let mut session = fake_session(b"-ERR [AUTH] Invalid credentials\r\n");
    let Err(Error::Pop3(why)) = session.read_status() else {
        panic!("an -ERR was not reported as an error");
    };
    assert_eq!(why, "[AUTH] Invalid credentials");
}

#[test]
fn uidl_pairs_numbers_with_ids_and_skips_nonsense() {
    let mut session = fake_session(b"+OK\r\n1 abc123\r\nrubbish\r\n3 def456\r\n.\r\n");
    assert_eq!(
        session.uidl_after_write().unwrap(),
        vec![(1, "abc123".to_owned()), (3, "def456".to_owned())]
    );
}

#[test]
fn pop3_a_local_uid_is_assigned_once_per_server_id() {
    // Re-assigning would store the same message twice under two UIDs.
    let mut state = Pop3State::default();
    let first = state.uid_for("abc", 0);

    assert_eq!(state.uid_for("abc", 1_000), first);
    assert_ne!(state.uid_for("def", 0), first);
    assert!(state.has("abc"));
}

#[test]
fn pop3_the_sidecar_survives_a_reopen() {
    let mut state = Pop3State::default();
    let uid = state.uid_for("abc", 0);

    let reloaded =
        Pop3State::restored(state.entries().clone(), state.times().clone(), state.next_uid());

    assert!(reloaded.has("abc"), "a re-download of the whole mailbox");
    assert_eq!(reloaded.uid_of("abc"), Some(uid));
}


#[test]
fn retention_by_age_only_selects_what_is_old_enough() {
    let day = 24 * 60 * 60 * 1000;
    let mut state = Pop3State::default();
    state.uid_for("old", 0);
    state.uid_for("new", 13 * day);

    let expired = state.expired(14, 15 * day);

    assert_eq!(expired, vec!["old".to_owned()]);
}

#[test]
fn leaving_on_the_server_deletes_nothing() {
    let mut state = Pop3State::default();
    state.uid_for("abc", 0);
    assert!(state.expired(0, 0).contains(&"abc".to_owned()));
    // …but `Retention::LeaveOnServer` never consults `expired` at all,
    // which is what the sync path asserts.
}

#[test]
fn a_message_already_held_is_not_downloaded_again() {
    let store = MemoryStore::default();
    let mut state = Pop3State::default();
    state.uid_for("abc", 0);

    // Stands in for the loop in `sync_inbox`, which cannot run without a
    // socket: the decision under test is the `has` check.
    let listing = [(1u32, "abc".to_owned()), (2, "def".to_owned())];
    let fresh: Vec<&(u32, String)> = listing.iter().filter(|(_, u)| !state.has(u)).collect();

    assert_eq!(fresh.len(), 1);
    assert_eq!(fresh[0].1, "def");
    assert!(store.state().unwrap().entries.is_empty());
}

fn with_uidl() -> Vec<String> {
    capabilities(&vec!["UIDL".to_owned(), "SASL PLAIN XOAUTH2".to_owned()])
}

#[test]
fn a_pass_downloads_what_is_new_and_only_then_deletes() {
    let mut store = MemoryStore::default();
    let mut state = Pop3State::default();
    let held = state.uid_for("abc", 0);
    store
        .upsert(&RemoteMessage {
            uid: held,
            flags: Flags::default(),
            raw: b"old".to_vec(),
            internal_date_ms: 0,
        })
        .unwrap();
    let (mut pass, action) =
        Pass::open(state, &with_uidl(), Retention::DeleteWhenFetched, 1_000).unwrap();
    assert_eq!(action, Action::Uidl);
    let listing = vec![(1, "abc".to_owned()), (2, "def".to_owned())];
    let action = pass.advance(&mut store, Event::Listing(listing)).unwrap();
    assert_eq!(action, Action::Retr(2), "what is held was downloaded again");
    let action = pass.advance(&mut store, Event::Message(b"m".to_vec())).unwrap();
    assert_eq!(action, Action::Dele(1));
    assert_eq!(store.state().unwrap().entries.len(), 2, "deleted before it was stored");
    let action = pass.advance(&mut store, Event::Deleted).unwrap();
    assert_eq!(action, Action::Dele(2));
    let action = pass.advance(&mut store, Event::Deleted).unwrap();
    assert_eq!(action, Action::Done);
    let (state, outcome) = pass.close();
    assert_eq!((outcome.fetched, outcome.deleted, outcome.skipped), (1, 2, 1));
    let uid = state.uid_of("def").unwrap();
    assert_ne!(uid, held);
    assert_eq!(store.raw(uid).unwrap().unwrap(), b"m");
    assert_eq!(store.arrived_ms(uid), Some(1_000));
    assert_eq!(store.state().unwrap().cursor.last_uid, uid);
}

#[test]
fn a_server_without_unique_ids_is_refused() {
    let without = capabilities(&vec!["TOP".to_owned()]);
    assert!(!supports_uidl(&without));
    assert!(supports_uidl(&vec![]), "a server that lists nothing may still have them");
    assert!(matches!(
        Pass::open(Pop3State::default(), &without, Retention::LeaveOnServer, 0),
        Err(Error::Pop3(_))
    ));
}

#[test]
fn capabilities_are_matched_whole_and_without_case() {
    let caps = capabilities(&vec!["stls".to_owned(), "UIDLX".to_owned()]);
    assert!(supports(&caps, "STLS"));
    assert!(!supports(&caps, "UIDL"));
}

#[test]
fn a_drop_listing_needs_both_numbers() {
    assert_eq!(parse_stat("2 320").unwrap(), (2, 320));
    assert!(parse_stat("2").is_err());
    assert!(parse_stat("x y").is_err());
}

#[test]
fn what_ends_a_line_is_kept_as_it_was_sent() {
    let mut session = fake_session(b"one\ntwo\r\r\n..three\n\r\n.\r\n");
    assert_eq!(session.read_body().unwrap(), b"one\ntwo\r\r\n.three\n\r\n");
}

#[test]
fn a_line_read_in_pieces_is_one_line() {
    let mut line = vec![b'a'; 65_536];
    line.extend_from_slice(b".\r\n");
    let mut wire = line.clone();
    wire.extend_from_slice(b"..end\r\n.\r\n");
    line.extend_from_slice(b".end\r\n");
    assert_eq!(fake_session(&wire).read_body().unwrap(), line);
}
