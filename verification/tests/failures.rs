//! What is left of a pass whose store fails.

use cosmic_pim_mail::error::{Error, Result};
use cosmic_pim_mail::gmail;
use cosmic_pim_mail::graph;
use cosmic_pim_mail::ids::RemoteIds;
use cosmic_pim_mail::imap::{self, Cycle, QueuedMailbox, Selected, SyncOptions};
use cosmic_pim_mail::jmap;
use cosmic_pim_mail::json::Json;
use cosmic_pim_mail::model::Flags;
use cosmic_pim_mail::pop3;
use cosmic_pim_mail::push::{
    drain, DrainOutcome, Failure, MemoryQueue, PendingPush, PushOp, PushQueue, Writeback,
};
use cosmic_pim_mail::store::{Cursor, MailStore, MailboxState, MemoryStore, RemoteMessage};

/// A mailbox whose disk is full, or whose files cannot be removed.
#[derive(Default)]
struct Faulty {
    store: MemoryStore,
    queue: MemoryQueue,
    full: bool,
    stuck: bool,
}

fn full() -> Faulty {
    Faulty { full: true, ..Faulty::default() }
}

fn refused() -> Error {
    Error::Draft("the disk is full".into())
}

impl MailStore for Faulty {
    fn state(&self) -> Result<MailboxState> {
        self.store.state()
    }
    fn upsert(&mut self, message: &RemoteMessage) -> Result<()> {
        if self.full {
            return Err(refused());
        }
        self.store.upsert(message)
    }
    fn set_flags(&mut self, uid: u32, flags: Flags) -> Result<()> {
        self.store.set_flags(uid, flags)
    }
    fn remove(&mut self, uid: u32) -> Result<()> {
        if self.stuck {
            return Err(refused());
        }
        self.store.remove(uid)
    }
    fn raw(&self, uid: u32) -> Result<Option<Vec<u8>>> {
        self.store.raw(uid)
    }
    fn commit_cursor(&mut self, cursor: Cursor) -> Result<()> {
        self.store.commit_cursor(cursor)
    }
    fn reset(&mut self, uid_validity: u32) -> Result<()> {
        self.queue = MemoryQueue::default();
        self.store.reset(uid_validity)
    }
}

impl PushQueue for Faulty {
    fn pending(&self) -> Vec<PendingPush> {
        self.queue.pending()
    }
    fn enqueue(&mut self, op: PushOp) -> Result<()> {
        self.queue.enqueue(op)
    }
    fn resolve(&mut self, uid: u32) -> Result<()> {
        self.queue.resolve(uid)
    }
    fn defer(&mut self, uid: u32, failure: Failure, error: &str, next_ms: i64) -> Result<()> {
        self.queue.defer(uid, failure, error, next_ms)
    }
}

impl QueuedMailbox for Faulty {
    fn start_over(&mut self, uid_validity: u32) -> Result<()> {
        self.reset(uid_validity)
    }
}

fn object(fields: Vec<(&str, Json)>) -> Json {
    Json::Object(fields.into_iter().map(|(key, value)| (key.to_owned(), value)).collect())
}

fn text(s: &str) -> Json {
    Json::Str(s.to_owned())
}

#[test]
fn a_gmail_pass_that_cannot_store_replays_its_window() {
    let mut store = full();
    let state = RemoteIds::restored(vec![], 1, Some("1".into()));
    let (mut pass, _) = gmail::Pass::open(state, "inbox", 10);
    let record = object(vec![(
        "messagesAdded",
        Json::Array(vec![object(vec![("message", object(vec![("id", text("M1"))]))])]),
    )]);
    let page = object(vec![("historyId", text("9")), ("history", Json::Array(vec![record]))]);
    assert!(matches!(
        pass.advance(&mut store, gmail::Event::History(page)).unwrap(),
        gmail::Action::Metadata(_)
    ));
    let found = gmail::parse_metadata(&object(vec![
        ("id", text("M1")),
        ("labelIds", Json::Array(vec![text("INBOX")])),
    ]));
    assert!(matches!(
        pass.advance(&mut store, gmail::Event::Metadata(found)).unwrap(),
        gmail::Action::Raw(_)
    ));
    assert!(pass.advance(&mut store, gmail::Event::Raw(Some(b"x".to_vec()))).is_err());
    // The pass is over: nothing can be skipped by going on.
    store.full = false;
    assert!(pass.advance(&mut store, gmail::Event::Raw(Some(b"x".to_vec()))).is_err());
    let (state, _) = pass.close(DrainOutcome::default());
    assert_eq!(state.cursor(), Some("1"), "the window would not be read again");
    assert_eq!(state.uid_of("M1"), None, "the message would not be fetched again");
}

#[test]
fn a_gmail_message_that_cannot_be_removed_keeps_its_id() {
    let mut store = Faulty { stuck: true, ..Faulty::default() };
    let state = RemoteIds::restored(vec![("M1".into(), 4)], 5, Some("1".into()));
    let (mut pass, _) = gmail::Pass::open(state, "inbox", 10);
    let record = object(vec![(
        "messagesDeleted",
        Json::Array(vec![object(vec![("message", object(vec![("id", text("M1"))]))])]),
    )]);
    let page = object(vec![("historyId", text("9")), ("history", Json::Array(vec![record]))]);
    assert!(pass.advance(&mut store, gmail::Event::History(page)).is_err());
    let (state, _) = pass.close(DrainOutcome::default());
    assert_eq!(state.cursor(), Some("1"));
    assert_eq!(state.uid_of("M1"), Some(4));
}

#[test]
fn a_graph_pass_that_cannot_store_replays_its_window() {
    let mut store = full();
    let state = RemoteIds::restored(vec![], 1, Some("https://g/1".into()));
    let (mut pass, _) = graph::Pass::open(&store, state, "https://g", "F1").unwrap();
    let page = graph::parse_page(&object(vec![
        ("value", Json::Array(vec![object(vec![("id", text("m1"))])])),
        ("@odata.deltaLink", text("https://g/2")),
    ]));
    assert!(matches!(
        pass.advance(&mut store, graph::Event::Page(page)).unwrap(),
        graph::Action::Raw(_)
    ));
    assert!(pass.advance(&mut store, graph::Event::Raw(Some(b"x".to_vec()))).is_err());
    let (state, _) = pass.close(DrainOutcome::default());
    assert_eq!(state.cursor(), Some("https://g/1"));
    assert_eq!(state.uid_of("m1"), None);
}

#[test]
fn a_jmap_pass_that_cannot_store_replays_its_window() {
    let mut store = full();
    let state = jmap::JmapState::restored(vec![], 1, Some("s1".into()));
    let (mut pass, _) = jmap::Pass::open(state, "B1", 50);
    let changes = jmap::Changes {
        created: vec!["M1".into()],
        updated: vec![],
        destroyed: vec![],
        new_state: "s2".into(),
        has_more: false,
    };
    assert!(matches!(
        pass.advance(&mut store, jmap::Event::Changes(Some(changes))).unwrap(),
        jmap::Action::GetMembers(_)
    ));
    let email = jmap::JmapEmail {
        id: "M1".into(),
        blob_id: "X1".into(),
        keywords: Flags::default(),
        received_at_ms: 0,
        size: 1,
    };
    let members = vec![jmap::Member { email, mailboxes: vec!["B1".into()] }];
    assert!(matches!(
        pass.advance(&mut store, jmap::Event::Members(members)).unwrap(),
        jmap::Action::Download(_)
    ));
    assert!(pass.advance(&mut store, jmap::Event::Blob(b"x".to_vec())).is_err());
    let (state, _) = pass.close(DrainOutcome::default());
    assert_eq!(state.email_state(), Some("s1"));
    assert_eq!(state.uid_of("M1"), None);
}

#[test]
fn a_jmap_download_that_never_came_is_asked_for_again() {
    let mut store = Faulty::default();
    let open = |state| {
        let (mut pass, _) = jmap::Pass::open(state, "B1", 50);
        let changes = jmap::Changes {
            created: vec!["M1".into()],
            updated: vec![],
            destroyed: vec![],
            new_state: "s2".into(),
            has_more: false,
        };
        let mut idle = Faulty::default();
        pass.advance(&mut idle, jmap::Event::Changes(Some(changes))).unwrap();
        pass
    };
    let member = || {
        let email = jmap::JmapEmail {
            id: "M1".into(),
            blob_id: "X1".into(),
            keywords: Flags::default(),
            received_at_ms: 0,
            size: 1,
        };
        jmap::Event::Members(vec![jmap::Member { email, mailboxes: vec!["B1".into()] }])
    };
    let mut pass = open(jmap::JmapState::restored(vec![], 1, Some("s1".into())));
    assert!(matches!(pass.advance(&mut store, member()).unwrap(), jmap::Action::Download(_)));
    // The connection drops here.
    let (state, _) = pass.close(DrainOutcome::default());
    let mut pass = open(state);
    assert!(
        matches!(pass.advance(&mut store, member()).unwrap(), jmap::Action::Download(_)),
        "a message that was never stored was taken for one that is held"
    );
    pass.advance(&mut store, jmap::Event::Blob(b"x".to_vec())).unwrap();
    let (state, _) = pass.close(DrainOutcome::default());
    assert_eq!(state.email_state(), Some("s2"));
    assert_eq!(store.raw(state.uid_of("M1").unwrap()).unwrap().unwrap(), b"x");
}

fn uidl() -> Vec<String> {
    pop3::capabilities(&vec!["UIDL".to_owned()])
}

#[test]
fn a_pop3_message_that_cannot_be_stored_is_neither_noted_nor_deleted() {
    let mut store = full();
    let retention = pop3::Retention::DeleteWhenFetched;
    let listing = || pop3::Event::Listing(vec![(1, "abc".to_owned())]);
    let (mut pass, _) =
        pop3::Pass::open(pop3::Pop3State::default(), &uidl(), retention, 10).unwrap();
    assert_eq!(pass.advance(&mut store, listing()).unwrap(), pop3::Action::Retr(1));
    assert!(pass.advance(&mut store, pop3::Event::Message(b"m".to_vec())).is_err());
    let (state, _) = pass.close();
    assert!(!state.has("abc"));

    // The next pass fetches it again, and only then deletes it.
    store.full = false;
    let (mut pass, _) = pop3::Pass::open(state, &uidl(), retention, 20).unwrap();
    assert_eq!(pass.advance(&mut store, listing()).unwrap(), pop3::Action::Retr(1));
    let next = pass.advance(&mut store, pop3::Event::Message(b"m".to_vec())).unwrap();
    assert_eq!(next, pop3::Action::Dele(1));
}

#[test]
fn a_message_that_is_not_on_disk_is_left_on_the_server() {
    for retention in [pop3::Retention::DeleteWhenFetched, pop3::Retention::DeleteAfterDays(0)] {
        let mut store = Faulty::default();
        let mut state = pop3::Pop3State::default();
        state.uid_for("abc", 0);
        let (mut pass, _) = pop3::Pass::open(state, &uidl(), retention, 1_000).unwrap();
        let listing = pop3::Event::Listing(vec![(1, "abc".to_owned())]);
        let next = pass.advance(&mut store, listing).unwrap();
        assert_eq!(next, pop3::Action::Done, "the only copy was deleted");
    }
}

fn selected(uid_validity: u32) -> Selected {
    Selected {
        uid_validity: Some(uid_validity),
        exists: 3,
        highest_mod_seq: None,
        may_create: true,
        condstore: false,
        qresync: false,
    }
}

#[test]
fn a_batch_that_cannot_be_stored_moves_no_cursor() {
    let mut mailbox = full();
    let mut cycle = Cycle::open(&mut mailbox, selected(7), SyncOptions::default()).unwrap();
    cycle.advance(&mut mailbox, imap::Event::Drained(DrainOutcome::default())).unwrap();
    cycle.advance(&mut mailbox, imap::Event::Found(vec![1])).unwrap();
    let batch = || {
        imap::Event::Messages(vec![RemoteMessage {
            uid: 1,
            flags: Flags::default(),
            raw: b"x".to_vec(),
            internal_date_ms: 0,
        }])
    };
    assert!(cycle.advance(&mut mailbox, batch()).is_err());
    assert_eq!(mailbox.state().unwrap().cursor, Cursor::default());
    mailbox.full = false;
    assert!(cycle.advance(&mut mailbox, batch()).is_err(), "a failed cycle went on");
}

#[test]
fn what_was_queued_under_another_numbering_is_never_sent() {
    let mut mailbox = Faulty::default();
    mailbox
        .commit_cursor(Cursor { uid_validity: 7, last_uid: 2, ..Cursor::default() })
        .unwrap();
    mailbox.enqueue(PushOp::Delete { uid: 2 }).unwrap();
    Cycle::open(&mut mailbox, selected(7), SyncOptions::default()).unwrap();
    assert_eq!(mailbox.pending().len(), 1, "the numbering is the same");
    Cycle::open(&mut mailbox, selected(8), SyncOptions::default()).unwrap();
    assert!(mailbox.pending().is_empty());
    assert_eq!(mailbox.state().unwrap().cursor.uid_validity, 8);
}

struct Refusing(Vec<u32>);

impl Writeback for Refusing {
    fn store_flags(&mut self, _uid: u32, _flags: Flags) -> Result<()> {
        Ok(())
    }
    fn move_message(&mut self, _uid: u32, _destination: &str) -> Result<()> {
        Ok(())
    }
    fn delete_message(&mut self, uid: u32) -> Result<()> {
        if self.0.contains(&uid) {
            Err(Error::Imap("NO [NOPERM] not yours".into()))
        } else {
            Ok(())
        }
    }
}

#[test]
fn only_what_the_server_did_counts_as_departed() {
    let mut queue = MemoryQueue::default();
    for uid in [1, 2, 3] {
        queue.enqueue(PushOp::Delete { uid }).unwrap();
    }
    queue.enqueue(PushOp::SetFlags { uid: 4, flags: Flags::default() }).unwrap();
    let outcome = drain(&mut Refusing(vec![2]), &mut queue, 0);
    assert_eq!(outcome.departed, vec![1, 3]);
    assert_eq!(outcome.succeeded, 3);
    assert_eq!(outcome.deferred + outcome.needs_reconcile + outcome.needs_user, 1);
    assert_eq!(queue.pending().len(), 1);
}

// ---- steps that ask nothing of the store ----

/// A store that can do nothing at all.
struct Dead;

impl MailStore for Dead {
    fn state(&self) -> Result<MailboxState> {
        Err(refused())
    }
    fn upsert(&mut self, _message: &RemoteMessage) -> Result<()> {
        Err(refused())
    }
    fn set_flags(&mut self, _uid: u32, _flags: Flags) -> Result<()> {
        Err(refused())
    }
    fn remove(&mut self, _uid: u32) -> Result<()> {
        Err(refused())
    }
    fn raw(&self, _uid: u32) -> Result<Option<Vec<u8>>> {
        Err(refused())
    }
    fn commit_cursor(&mut self, _cursor: Cursor) -> Result<()> {
        Err(refused())
    }
    fn reset(&mut self, _uid_validity: u32) -> Result<()> {
        Err(refused())
    }
}

#[test]
fn a_gmail_pass_asks_on_without_its_store() {
    let state = RemoteIds::restored(vec![], 1, Some("1".into()));
    let (mut pass, _) = gmail::Pass::open(state, "inbox", 10);
    let page = object(vec![("nextPageToken", text("p2"))]);
    assert!(matches!(
        pass.advance(&mut Dead, gmail::Event::History(page)).unwrap(),
        gmail::Action::History { token: Some(_), .. }
    ));
    assert!(matches!(
        pass.advance(&mut Dead, gmail::Event::Expired).unwrap(),
        gmail::Action::Profile
    ));
    assert!(matches!(
        pass.advance(&mut Dead, gmail::Event::Profile("9".into())).unwrap(),
        gmail::Action::List { token: None, .. }
    ));
    let page = object(vec![("nextPageToken", text("p2"))]);
    assert!(matches!(
        pass.advance(&mut Dead, gmail::Event::Listing(page)).unwrap(),
        gmail::Action::List { token: Some(_), .. }
    ));
    // The last page needs what the store holds.
    assert!(pass.advance(&mut Dead, gmail::Event::Listing(object(vec![]))).is_err());
}

#[test]
fn a_graph_pass_asks_on_without_its_store() {
    let state = RemoteIds::restored(vec![], 1, None);
    let (mut pass, _) = graph::Pass::open(&MemoryStore::default(), state, "https://g", "F1").unwrap();
    let page = graph::parse_page(&object(vec![
        ("value", Json::Array(vec![])),
        ("@odata.nextLink", text("https://g/2")),
    ]));
    assert!(matches!(
        pass.advance(&mut Dead, graph::Event::Page(page)).unwrap(),
        graph::Action::Page(url) if url == "https://g/2"
    ));
    let page = graph::parse_page(&object(vec![
        ("value", Json::Array(vec![object(vec![("id", text("m1"))])])),
        ("@odata.nextLink", text("https://g/3")),
    ]));
    assert!(matches!(
        pass.advance(&mut Dead, graph::Event::Page(page)).unwrap(),
        graph::Action::Raw(id) if id == "m1"
    ));
    assert!(matches!(
        pass.advance(&mut Dead, graph::Event::Raw(None)).unwrap(),
        graph::Action::Page(url) if url == "https://g/3"
    ));
}

#[test]
fn a_jmap_pass_asks_on_without_its_store() {
    let state = jmap::JmapState::restored(vec![], 1, Some("s1".into()));
    let (mut pass, _) = jmap::Pass::open(state, "B1", 50);
    assert!(matches!(
        pass.advance(&mut Dead, jmap::Event::Changes(None)).unwrap(),
        jmap::Action::AskState
    ));
    assert!(matches!(
        pass.advance(&mut Dead, jmap::Event::State("s2".into())).unwrap(),
        jmap::Action::Query(50)
    ));
    assert!(pass.advance(&mut Dead, jmap::Event::Ids(vec![])).is_err());
}

#[test]
fn a_pop3_pass_asks_on_without_its_store() {
    let retention = pop3::Retention::LeaveOnServer;
    let (mut pass, _) =
        pop3::Pass::open(pop3::Pop3State::default(), &uidl(), retention, 10).unwrap();
    let listing = pop3::Event::Listing(vec![(1, "abc".to_owned())]);
    assert_eq!(pass.advance(&mut Dead, listing).unwrap(), pop3::Action::Retr(1));
    assert!(pass.advance(&mut Dead, pop3::Event::Message(b"m".to_vec())).is_err());
}

#[test]
fn an_imap_cycle_asks_on_without_its_store() {
    let mut mailbox = Faulty::default();
    let mut cycle = Cycle::open(&mut mailbox, selected(7), SyncOptions::default()).unwrap();
    assert!(matches!(
        cycle.advance(&mut Dead, imap::Event::Drained(DrainOutcome::default())).unwrap(),
        imap::Action::Search(_)
    ));
    assert!(cycle.advance(&mut Dead, imap::Event::Found(vec![1])).is_err());
}

#[test]
fn a_jmap_read_from_scratch_is_counted_anew() {
    let mut store = Faulty::default();
    let state = jmap::JmapState::restored(vec![], 1, Some("s1".into()));
    let (mut pass, _) = jmap::Pass::open(state, "B1", 50);
    let email = || jmap::JmapEmail {
        id: "M1".into(),
        blob_id: "X1".into(),
        keywords: Flags::default(),
        received_at_ms: 0,
        size: 1,
    };
    // One window is applied, and then the history is said not to reach that far.
    let changes = jmap::Changes {
        created: vec!["M1".into()],
        updated: vec![],
        destroyed: vec![],
        new_state: "s2".into(),
        has_more: true,
    };
    pass.advance(&mut store, jmap::Event::Changes(Some(changes))).unwrap();
    let members = vec![jmap::Member { email: email(), mailboxes: vec!["B1".into()] }];
    pass.advance(&mut store, jmap::Event::Members(members)).unwrap();
    assert!(matches!(
        pass.advance(&mut store, jmap::Event::Blob(b"x".to_vec())).unwrap(),
        jmap::Action::AskChanges(state) if state == "s2"
    ));
    pass.advance(&mut store, jmap::Event::Changes(None)).unwrap();
    pass.advance(&mut store, jmap::Event::State("s3".into())).unwrap();
    pass.advance(&mut store, jmap::Event::Ids(vec!["M1".into()])).unwrap();
    assert!(matches!(
        pass.advance(&mut store, jmap::Event::Emails(vec![email()])).unwrap(),
        jmap::Action::Done
    ));
    let (state, outcome) = pass.close(DrainOutcome::default());
    assert_eq!(state.email_state(), Some("s3"));
    assert_eq!(outcome.fetched, 0, "the full read fetched nothing");
}
