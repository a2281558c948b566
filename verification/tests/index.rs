use std::collections::BTreeMap;

use cosmic_pim_mail::index::{
    conversations, gather, index_plan, like, own_thread, search, snippet, Backlog, Bound,
    Conversation, Hit, Summary,
};
use cosmic_pim_mail::model::{Flags, Message};
use cosmic_pim_mail::store::{MailStore, MemoryStore, RemoteMessage};
use cosmic_pim_mail::threading::reference_chain;

const ACCOUNT: &str = "acct";
const MAILBOX: &str = "INBOX";

/// The table the statements are written for, with a thread for each root.
struct Index {
    conn: rusqlite::Connection,
}

impl Index {
    fn in_memory() -> Result<Self, rusqlite::Error> {
        let conn = rusqlite::Connection::open_in_memory()?;
        conn.execute_batch(
            "CREATE TABLE messages (account TEXT, mailbox TEXT, uid INTEGER, message_id TEXT,
             thread_id TEXT, from_name TEXT, from_addr TEXT, subject TEXT, subject_norm TEXT,
             date_ms INTEGER, snippet TEXT, attachments INTEGER,
             PRIMARY KEY (account, mailbox, uid));",
        )?;
        Ok(Self { conn })
    }

    fn thread_of(&self, account: &str, mailbox: &str, uid: u32, message: &Message) -> String {
        for ancestor in reference_chain(&message.references, &message.in_reply_to) {
            let found: Result<String, rusqlite::Error> = self.conn.query_row(
                "SELECT thread_id FROM messages WHERE account=?1 AND message_id=?2",
                rusqlite::params_from_iter([account, ancestor.as_str()]),
                |row| row.get(0),
            );
            if let Ok(thread) = found {
                return thread;
            }
        }
        message.message_id.clone().unwrap_or_else(|| own_thread(mailbox, uid))
    }

    fn sync_mailbox(
        &mut self,
        account: &str,
        mailbox: &str,
        store: &MemoryStore,
    ) -> Result<usize, rusqlite::Error> {
        let held: Vec<u32> = store.state().unwrap().entries.keys().copied().collect();
        let indexed: Vec<u32> = self
            .conn
            .prepare("SELECT uid FROM messages WHERE account=?1 AND mailbox=?2 ORDER BY uid")?
            .query_map([account, mailbox], |row| row.get(0))?
            .collect::<Result<_, _>>()?;
        let (gone, missing) = index_plan(&held, &indexed);
        for uid in gone {
            self.conn.execute(
                "DELETE FROM messages WHERE account=?1 AND mailbox=?2 AND uid=?3",
                (account, mailbox, uid),
            )?;
        }
        let mut backlog = Backlog::of(missing);
        while let Some((uid, message)) = backlog.next(store).unwrap() {
            let thread = self.thread_of(account, mailbox, uid, &message);
            let row = Summary::of(uid, &thread, &message);
            self.conn.execute(
                "INSERT INTO messages VALUES (?1,?2,?3,?4,?5,?6,?7,?8,?9,?10,?11,?12)",
                (
                    account,
                    mailbox,
                    row.uid,
                    row.message_id,
                    row.thread_id,
                    row.from_name,
                    row.from_address,
                    row.subject,
                    row.subject_norm,
                    row.date_ms,
                    row.snippet,
                    row.has_attachments,
                ),
            )?;
        }
        Ok(backlog.added())
    }

    fn conversations(
        &self,
        account: &str,
        mailbox: &str,
        flags: &BTreeMap<u32, Flags>,
    ) -> Result<Vec<Conversation>, rusqlite::Error> {
        let rows: Vec<Summary> = self
            .conn
            .prepare(
                "SELECT uid, message_id, thread_id, from_name, from_addr, subject, subject_norm,
                 date_ms, snippet, attachments FROM messages WHERE account=?1 AND mailbox=?2
                 ORDER BY thread_id, date_ms, uid",
            )?
            .query_map([account, mailbox], |row| {
                Ok(Summary {
                    uid: row.get(0)?,
                    message_id: row.get(1)?,
                    thread_id: row.get(2)?,
                    from_name: row.get(3)?,
                    from_address: row.get(4)?,
                    subject: row.get(5)?,
                    subject_norm: row.get(6)?,
                    date_ms: row.get(7)?,
                    snippet: row.get(8)?,
                    has_attachments: row.get(9)?,
                })
            })?
            .collect::<Result<_, _>>()?;
        Ok(conversations(&rows, flags))
    }

    fn search(
        &self,
        account: &str,
        mailbox: Option<&str>,
        query: &cosmic_pim_mail::search::Query,
        limit: usize,
    ) -> Result<Vec<Hit>, rusqlite::Error> {
        let Some(statement) = search(account, mailbox, query, limit) else {
            return Ok(Vec::new());
        };
        let sql: String = statement.sql.iter().collect();
        let values = statement.values.into_iter().map(|value| match value {
            Bound::Text(text) => rusqlite::types::Value::Text(text),
            Bound::Number(number) => rusqlite::types::Value::Integer(number),
        });
        let mut prepared = self.conn.prepare(&sql)?;
        let hits = prepared.query_map(rusqlite::params_from_iter(values), |row| {
            Ok(Hit {
                mailbox: row.get(0)?,
                uid: row.get(1)?,
                thread_id: row.get(2)?,
                from_name: row.get(3)?,
                from_address: row.get(4)?,
                subject: row.get(5)?,
                date_ms: row.get(6)?,
                snippet: row.get(7)?,
                has_attachments: row.get(8)?,
            })
        })?;
        hits.collect()
    }

    fn forget(&self, account: &str, mailbox: &str) -> Result<usize, rusqlite::Error> {
        self.conn.execute(
            "DELETE FROM messages WHERE account=?1 AND mailbox=?2",
            (account, mailbox),
        )
    }
}

fn message(
    uid: u32,
    id: &str,
    references: &str,
    subject: &str,
    from: &str,
    body: &str,
) -> RemoteMessage {
    let raw = format!(
        "Message-ID: <{id}>\r\nFrom: {from}\r\nReferences: {references}\r\n\
         Subject: {subject}\r\nDate: Mon, 3 Feb 2025 09:00:00 +0000\r\n\r\n{body}\r\n"
    );
    RemoteMessage {
        uid,
        flags: Flags::default(),
        raw: raw.into_bytes(),
        internal_date_ms: i64::from(uid) * 1000,
    }
}

fn store(messages: Vec<RemoteMessage>) -> MemoryStore {
    let mut store = MemoryStore::default();
    for message in messages {
        store.upsert(&message).unwrap();
    }
    store
}

fn flags(store: &MemoryStore) -> BTreeMap<u32, Flags> {
    store.state().unwrap().entries
}

#[test]
fn a_conversation_is_assembled_from_its_messages() {
    let store = store(vec![
        message(1, "a@x", "", "Release plan", "Ada <ada@example.com>", "First."),
        message(
            2,
            "b@x",
            "<a@x>",
            "Re: Release plan",
            "Bob <bob@example.net>",
            "Second.",
        ),
        message(3, "c@x", "", "Lunch", "Cleo <cleo@example.org>", "One o'clock?"),
    ]);
    let mut index = Index::in_memory().unwrap();
    assert_eq!(index.sync_mailbox(ACCOUNT, MAILBOX, &store).unwrap(), 3);

    let threads = index
        .conversations(ACCOUNT, MAILBOX, &flags(&store))
        .unwrap();
    assert_eq!(threads.len(), 2);

    let plan = threads
        .iter()
        .find(|t| t.uids.len() == 2)
        .expect("the reply did not join its parent");
    assert_eq!(plan.subject, "Release plan", "a Re: prefix reached the list");
    assert_eq!(plan.uids, vec![1, 2]);
    assert_eq!(plan.participants, vec!["Ada", "Bob"]);
    assert_eq!(plan.snippet, "Second.", "the snippet is not from the newest");
    assert!(plan.unread);
}

#[test]
fn a_second_pass_over_an_unchanged_mailbox_parses_nothing() {
    // The entire point: clicking a folder must cost a query, not a walk of
    // every message in it.
    let store = store(vec![message(1, "a@x", "", "s", "a@example.com", "b")]);
    let mut index = Index::in_memory().unwrap();
    assert_eq!(index.sync_mailbox(ACCOUNT, MAILBOX, &store).unwrap(), 1);
    assert_eq!(
        index.sync_mailbox(ACCOUNT, MAILBOX, &store).unwrap(),
        0,
        "the index re-parsed messages it already held"
    );
}

#[test]
fn only_new_messages_are_parsed_when_a_sync_brings_some() {
    let mut store = store(vec![message(1, "a@x", "", "s", "a@example.com", "b")]);
    let mut index = Index::in_memory().unwrap();
    index.sync_mailbox(ACCOUNT, MAILBOX, &store).unwrap();

    store
        .upsert(&message(2, "b@x", "", "t", "b@example.com", "c"))
        .unwrap();
    assert_eq!(index.sync_mailbox(ACCOUNT, MAILBOX, &store).unwrap(), 1);
}

#[test]
fn a_deleted_message_leaves_the_index() {
    let mut store = store(vec![
        message(1, "a@x", "", "s", "a@example.com", "b"),
        message(2, "b@x", "", "t", "b@example.com", "c"),
    ]);
    let mut index = Index::in_memory().unwrap();
    index.sync_mailbox(ACCOUNT, MAILBOX, &store).unwrap();

    store.remove(1).unwrap();
    index.sync_mailbox(ACCOUNT, MAILBOX, &store).unwrap();

    let threads = index
        .conversations(ACCOUNT, MAILBOX, &flags(&store))
        .unwrap();
    assert_eq!(threads.len(), 1);
    assert_eq!(threads[0].uids, vec![2]);
}


#[test]
fn the_index_rebuilds_from_the_store_after_being_thrown_away() {
    // "It is a cache" has to be literally true, or it has quietly become a
    // second source of truth.
    let store = store(vec![message(1, "a@x", "", "s", "a@example.com", "b")]);
    let mut index = Index::in_memory().unwrap();
    index.sync_mailbox(ACCOUNT, MAILBOX, &store).unwrap();
    index.forget(ACCOUNT, MAILBOX).unwrap();
    assert!(
        index
            .conversations(ACCOUNT, MAILBOX, &flags(&store))
            .unwrap()
            .is_empty()
    );

    assert_eq!(index.sync_mailbox(ACCOUNT, MAILBOX, &store).unwrap(), 1);
    assert_eq!(
        index
            .conversations(ACCOUNT, MAILBOX, &flags(&store))
            .unwrap()
            .len(),
        1
    );
}

#[test]
fn an_unparseable_message_is_skipped_rather_than_failing_the_mailbox() {
    let mut store = store(vec![message(2, "b@x", "", "s", "b@example.com", "fine")]);
    store
        .upsert(&RemoteMessage {
            uid: 1,
            flags: Flags::default(),
            raw: vec![0xff, 0xfe, 0x00],
            internal_date_ms: 0,
        })
        .unwrap();

    let mut index = Index::in_memory().unwrap();
    index.sync_mailbox(ACCOUNT, MAILBOX, &store).unwrap();
    let threads = index
        .conversations(ACCOUNT, MAILBOX, &flags(&store))
        .unwrap();
    assert!(
        threads.iter().any(|t| t.uids.contains(&2)),
        "one bad message took the mailbox with it"
    );
}

#[test]
fn messages_without_a_message_id_do_not_all_collapse_into_one_thread() {
    // They are stored with an empty id, and an empty ancestor lookup that
    // matched would file every one of them together.
    let mut store = MemoryStore::default();
    for uid in 1..=3u32 {
        store
            .upsert(&RemoteMessage {
                uid,
                flags: Flags::default(),
                raw: format!("From: a@example.com\r\nSubject: note {uid}\r\n\r\nbody\r\n")
                    .into_bytes(),
                internal_date_ms: i64::from(uid) * 1000,
            })
            .unwrap();
    }
    let mut index = Index::in_memory().unwrap();
    index.sync_mailbox(ACCOUNT, MAILBOX, &store).unwrap();
    assert_eq!(
        index
            .conversations(ACCOUNT, MAILBOX, &flags(&store))
            .unwrap()
            .len(),
        3
    );
}

fn searchable() -> MemoryStore {
    store(vec![
        message(1, "a@x", "", "Invoice 42 overdue", "Ada <ada@example.com>", "Please pay."),
        message(2, "b@x", "", "Release plan", "Bob <bob@example.net>", "Draft attached."),
        message(3, "c@x", "", "Lunch", "Ada <ada@example.com>", "One o'clock?"),
    ])
}

fn subjects(index: &Index, query: &str) -> Vec<String> {
    index
        .search(ACCOUNT, None, &cosmic_pim_mail::search::parse(query), 50)
        .unwrap()
        .into_iter()
        .map(|hit| hit.subject)
        .collect()
}

#[test]
fn a_search_matches_sender_subject_and_snippet() {
    let store = searchable();
    let mut index = Index::in_memory().unwrap();
    index.sync_mailbox(ACCOUNT, MAILBOX, &store).unwrap();

    assert_eq!(subjects(&index, "invoice"), ["Invoice 42 overdue"]);
    assert_eq!(subjects(&index, "from:ada").len(), 2);
    assert_eq!(subjects(&index, "subject:release"), ["Release plan"]);
    assert_eq!(subjects(&index, "pay"), ["Invoice 42 overdue"], "the snippet");
}

#[test]
fn terms_narrow_rather_than_widen() {
    let store = searchable();
    let mut index = Index::in_memory().unwrap();
    index.sync_mailbox(ACCOUNT, MAILBOX, &store).unwrap();

    assert_eq!(subjects(&index, "from:ada invoice"), ["Invoice 42 overdue"]);
    assert!(
        subjects(&index, "from:ada release").is_empty(),
        "two terms behaved as OR"
    );
}

#[test]
fn results_come_back_newest_first() {
    let mut store = MemoryStore::default();
    for (uid, id, date) in [
        (1, "old@x", "Mon, 3 Feb 2025 09:00:00 +0000"),
        (2, "new@x", "Tue, 4 Feb 2025 09:00:00 +0000"),
    ] {
        store
            .upsert(&RemoteMessage {
                uid,
                flags: Flags::default(),
                raw: format!(
                    "Message-ID: <{id}>\r\nFrom: a@example.com\r\nSubject: report {uid}\r\n\
                     Date: {date}\r\n\r\nbody\r\n"
                )
                .into_bytes(),
                internal_date_ms: 0,
            })
            .unwrap();
    }
    let mut index = Index::in_memory().unwrap();
    index.sync_mailbox(ACCOUNT, MAILBOX, &store).unwrap();
    assert_eq!(subjects(&index, "report"), ["report 2", "report 1"]);
}

#[test]
fn like_wildcards_in_a_search_box_are_literal() {
    // Without escaping, searching for "50%" matches everything and
    // "report_final" matches "reportXfinal" — silently, which is the worst
    // way for a search box to be wrong.
    let store = store(vec![
        message(1, "a@x", "", "50% off", "a@example.com", "sale"),
        message(2, "b@x", "", "Release plan", "b@example.com", "plan"),
        message(3, "c@x", "", "report_final", "c@example.com", "done"),
        message(4, "d@x", "", "reportXfinal", "d@example.com", "no"),
    ]);
    let mut index = Index::in_memory().unwrap();
    index.sync_mailbox(ACCOUNT, MAILBOX, &store).unwrap();

    assert_eq!(subjects(&index, "50%"), ["50% off"]);
    assert_eq!(subjects(&index, "report_final"), ["report_final"]);
}

#[test]
fn a_quote_in_a_search_box_cannot_reach_the_query() {
    // The terms are whatever somebody typed. This must return nothing and
    // leave the table alone.
    let store = searchable();
    let mut index = Index::in_memory().unwrap();
    index.sync_mailbox(ACCOUNT, MAILBOX, &store).unwrap();

    assert!(subjects(&index, "'; DROP TABLE messages; --").is_empty());
    assert_eq!(
        index
            .conversations(ACCOUNT, MAILBOX, &flags(&store))
            .unwrap()
            .len(),
        3,
        "the table did not survive"
    );
}

#[test]
fn an_empty_query_returns_nothing_rather_than_the_mailbox() {
    // A cleared search box must not load everything to show it twice.
    let store = searchable();
    let mut index = Index::in_memory().unwrap();
    index.sync_mailbox(ACCOUNT, MAILBOX, &store).unwrap();
    assert!(subjects(&index, "").is_empty());
    assert!(subjects(&index, "   ").is_empty());
}

#[test]
fn a_search_says_which_mailbox_a_hit_is_in() {
    // Half of what the user wanted to know.
    let store = searchable();
    let mut index = Index::in_memory().unwrap();
    index.sync_mailbox(ACCOUNT, "Archive", &store).unwrap();
    let hits = index
        .search(ACCOUNT, None, &cosmic_pim_mail::search::parse("invoice"), 50)
        .unwrap();
    assert_eq!(hits[0].mailbox, "Archive");

    // And can be narrowed to one.
    assert!(
        index
            .search(ACCOUNT, Some("INBOX"), &cosmic_pim_mail::search::parse("invoice"), 50)
            .unwrap()
            .is_empty()
    );
}

#[test]
fn a_limit_is_honoured() {
    let store = searchable();
    let mut index = Index::in_memory().unwrap();
    index.sync_mailbox(ACCOUNT, MAILBOX, &store).unwrap();
    assert_eq!(
        index
            .search(ACCOUNT, None, &cosmic_pim_mail::search::parse("from:ada"), 1)
            .unwrap()
            .len(),
        1
    );
}

#[test]
fn the_snippet_is_the_first_line_with_something_in_it() {
    assert_eq!(snippet("\n\nHello there.\nRest."), "Hello there.");
    assert_eq!(snippet(""), "");
    assert_eq!(snippet(&"a".repeat(500)).chars().count(), 200);
}

#[test]
fn flags_come_from_the_store_not_the_index() {
    // Flags change constantly and a UID's bytes never do. Caching them here
    // would mean every read mark needed a cache write, and a stale one
    // would show unread mail that is not.
    let mut store = store(vec![message(1, "a@x", "", "s", "a@example.com", "b")]);
    let mut index = Index::in_memory().unwrap();
    index.sync_mailbox(ACCOUNT, MAILBOX, &store).unwrap();

    store
        .set_flags(
            1,
            Flags {
                seen: true,
                ..Flags::default()
            },
        )
        .unwrap();
    let threads = index
        .conversations(ACCOUNT, MAILBOX, &flags(&store))
        .unwrap();
    assert!(!threads[0].unread, "the index served a stale read mark");
}

#[test]
fn a_plan_drops_what_is_gone_and_adds_what_is_new_oldest_first() {
    assert_eq!(index_plan(&vec![2, 3, 5], &vec![1, 2]), (vec![1], vec![3, 5]));
    assert_eq!(index_plan(&vec![1, 2], &vec![1, 2]), (vec![], vec![]));
}

#[test]
fn a_pattern_escapes_what_like_reads_as_wildcards() {
    assert_eq!(like("50%_\\x"), "%50\\%\\_\\\\x%");
}

#[test]
fn a_row_says_what_its_message_says() {
    let raw = b"Message-ID: <a@x>\r\nFrom: Ada <ada@example.com>\r\nSubject: Re: Plan\r\n\
        Date: Mon, 3 Feb 2025 09:00:00 +0000\r\n\r\n\r\nHello.\r\nMore.\r\n";
    let row = Summary::of(7, "t1", &Message::parse(raw).unwrap());
    assert_eq!(
        row,
        Summary {
            uid: 7,
            message_id: "a@x".to_owned(),
            thread_id: "t1".to_owned(),
            from_name: "Ada".to_owned(),
            from_address: "ada@example.com".to_owned(),
            subject: "Re: Plan".to_owned(),
            subject_norm: "Plan".to_owned(),
            date_ms: 1_738_573_200_000,
            snippet: "Hello.".to_owned(),
            has_attachments: false,
        }
    );
    assert_eq!(row.from_display(), "Ada");
}

#[test]
fn a_message_that_says_nothing_has_an_empty_row() {
    let row = Summary::of(1, "t", &Message::parse(b"Subject: x\r\n\r\n").unwrap());
    assert_eq!((row.message_id.as_str(), row.from_display(), row.date_ms), ("", "", 0));
}

#[test]
fn rows_of_one_thread_become_one_conversation() {
    let row = |uid: u32, thread: &str, date_ms: i64| Summary {
        uid,
        message_id: String::new(),
        thread_id: thread.to_owned(),
        from_name: String::new(),
        from_address: "a@x".to_owned(),
        subject: String::new(),
        subject_norm: format!("s{uid}"),
        date_ms,
        snippet: format!("line {uid}"),
        has_attachments: uid == 2,
    };
    let rows = [row(1, "a", 5), row(2, "a", 9), row(3, "b", 20)];
    let gathered = gather(&rows, &BTreeMap::new());
    assert_eq!(gathered.len(), 2);
    assert_eq!(gathered[0].uids, vec![1, 2]);
    assert_eq!(gathered[0].subject, "s1");
    assert_eq!(gathered[0].snippet, "line 2");
    assert_eq!(gathered[0].participants, vec!["a@x"]);
    assert!(gathered[0].has_attachments);
    assert_eq!(gathered[0].newest_uid(), Some(2));
    let sorted = conversations(&rows, &BTreeMap::new());
    assert_eq!(sorted[0].thread_id, "b", "the newest is not first");
}

#[test]
fn nothing_typed_reaches_the_text_of_a_statement() {
    let sql = |typed: &str| {
        let query = cosmic_pim_mail::search::parse(typed);
        search(ACCOUNT, None, &query, 5).unwrap().sql
    };
    assert_eq!(sql("plain from:ada"), sql("');-- from:\"x' OR '1'='1\""));
    assert_ne!(sql("one"), sql("one two"));
}

#[test]
fn a_backlog_passes_over_what_it_cannot_read() {
    let mut store = store(vec![message(2, "b@x", "", "s", "b@example.com", "fine")]);
    store
        .upsert(&RemoteMessage {
            uid: 1,
            flags: Flags::default(),
            raw: vec![],
            internal_date_ms: 0,
        })
        .unwrap();
    let mut backlog = Backlog::of(vec![1, 2, 3]);
    let (uid, message) = backlog.next(&store).unwrap().unwrap();
    assert_eq!((uid, message.subject.as_str()), (2, "s"));
    assert!(backlog.next(&store).unwrap().is_none());
    assert_eq!(backlog.added(), 1);
    assert_eq!(own_thread("INBOX", 7), "INBOX/7");
}
