use cosmic_pim_mail::imap::MemoryMailbox;
use cosmic_pim_mail::maildir::{
    file_name_for, flags_from_name, uid_from_name, with_flags, Catalogue, Filed, Subdir, SIDECAR,
};
use cosmic_pim_mail::model::Flags;
use cosmic_pim_mail::push::{PushOp, PushQueue};
use cosmic_pim_mail::store::{Cursor, MailStore, RemoteMessage};

fn seen() -> Flags {
    Flags {
        seen: true,
        ..Flags::default()
    }
}

const RECEIVED: i64 = 1_700_000_000_000;

fn files(catalogue: &Catalogue) -> Vec<Filed> {
    catalogue
        .entries()
        .keys()
        .map(|uid| catalogue.file_of(*uid).unwrap())
        .collect()
}

#[test]
fn the_index_rebuilds_from_the_files_alone() {
    // "The index is disposable" has to be literally true, or the sidecar
    // has quietly become the source of truth.
    let mut store = Catalogue::rescan(&vec![]);
    store.deliver(1, RECEIVED, seen());
    store.deliver(2, RECEIVED, Flags::default());
    let reopened = Catalogue::rescan(&files(&store));
    let entries = reopened.entries();
    assert_eq!(entries.len(), 2);
    assert_eq!(entries[&1], seen());
    assert_eq!(entries[&2], Flags::default());
}

#[test]
fn a_flag_change_renames_rather_than_rewrites() {
    let mut store = Catalogue::rescan(&vec![]);
    store.deliver(3, RECEIVED, Flags::default());
    let before = store.file_of(3).unwrap();
    let (from, to) = store.rename_for(3, seen()).expect("the flags did not reach the filename");
    assert_eq!(from, before);
    store.reflag(3, seen());
    let after = store.file_of(3).unwrap();
    assert_eq!(after, to);
    assert_ne!(before, after, "the flags did not reach the filename");
    assert!(after.name.ends_with(":2,S"));
    assert!(store.rename_for(3, seen()).is_none(), "a rename onto itself");
}

#[test]
fn flags_are_recovered_from_the_filename_on_rescan() {
    let mut store = Catalogue::rescan(&vec![]);
    store.deliver(4, RECEIVED, Flags::default());
    store.reflag(
        4,
        Flags {
            seen: true,
            flagged: true,
            ..Flags::default()
        },
    );
    let store = Catalogue::rescan(&files(&store));
    let entries = store.entries();
    assert!(entries[&4].seen && entries[&4].flagged);
}

#[test]
fn refetching_a_uid_does_not_leave_a_second_copy() {
    // A cycle that stored the message and then failed before committing
    // its cursor re-fetches it, possibly with different flags.
    let mut store = Catalogue::rescan(&vec![]);
    assert!(store.deliver(5, RECEIVED, Flags::default()).is_none());
    let stale = store.deliver(5, RECEIVED, seen()).expect("the mailbox now shows the message twice");
    assert_eq!(stale.name, file_name_for(5, RECEIVED, Flags::default()));
    let entries = store.entries();
    assert_eq!(entries.len(), 1, "the mailbox now shows the message twice");
    assert_eq!(entries[&5], seen());
}

#[test]
fn maildir_removing_a_message_that_is_already_gone_is_not_an_error() {
    let mut store = Catalogue::rescan(&vec![]);
    store.deliver(6, RECEIVED, seen());
    assert!(store.forget(6).is_some());
    assert!(store.forget(6).is_none(), "sync re-runs and must be idempotent");
    assert!(store.file_of(6).is_none());
}

#[test]
fn a_message_another_tool_delivered_without_a_uid_is_left_alone() {
    // mbsync and a plain MDA both write files we did not name. They are
    // real messages, but they have no server coordinates, so sync must
    // neither claim them nor delete them.
    let mut store = Catalogue::rescan(&vec![Filed {
        subdir: Subdir::Cur,
        name: "1700000000.M1P2.host:2,S".to_owned(),
    }]);
    assert!(store.entries().is_empty());
    assert!(store.clear().is_empty(), "a foreign message was deleted");
}

#[test]
fn clearing_gives_back_every_file_that_was_claimed() {
    let mut store = Catalogue::rescan(&vec![]);
    store.deliver(9, RECEIVED, seen());
    store.deliver(2, RECEIVED, Flags::default());
    let dropped = store.clear();
    assert_eq!(dropped.len(), 2);
    assert_eq!(dropped[0].name, file_name_for(2, RECEIVED, Flags::default()));
    assert!(store.entries().is_empty());
}

#[test]
fn filenames_carry_the_uid_in_the_conventional_place() {
    // `,U=` is what offlineimap and mbsync read. Getting this wrong means
    // no other tool can line our files up with the server.
    let name = file_name_for(42, 1_700_000_000_000, seen());
    assert!(name.contains(",U=42:"), "{name}");
    assert_eq!(uid_from_name(&name), Some(42));
    assert_eq!(flags_from_name(&name), seen());
    assert_eq!(uid_from_name("1700000000.M1P2.host:2,S"), None);
}

#[test]
fn new_flags_replace_the_old_and_leave_the_rest_of_the_name() {
    let name = file_name_for(7, RECEIVED, seen());
    let flagged = Flags { flagged: true, ..Flags::default() };
    let renamed = with_flags(&name, flagged);
    assert_eq!(uid_from_name(&renamed), Some(7));
    assert_eq!(flags_from_name(&renamed), flagged);
    assert_eq!(with_flags(&renamed, seen()), name);
}

#[test]
fn a_name_without_a_number_has_no_uid() {
    assert_eq!(uid_from_name("x,U=:2,S"), None);
    assert_eq!(uid_from_name("x,U=99999999999:2,S"), None);
    assert_eq!(uid_from_name("x,U=12"), Some(12));
    assert_eq!(flags_from_name("x,U=12"), Flags::default());
}

fn message(uid: u32, flags: Flags) -> RemoteMessage {
    RemoteMessage {
        uid,
        flags,
        raw: format!("Subject: message {uid}\r\n\r\nbody\r\n").into_bytes(),
        internal_date_ms: 1_700_000_000_000 + i64::from(uid) * 1000,
    }
}

#[test]
fn a_delivered_message_is_readable_back_byte_for_byte() {
    let mut store = MemoryMailbox::default();
    let message = message(7, seen());
    store.upsert(&message).unwrap();
    assert_eq!(store.raw(7).unwrap().unwrap(), message.raw);
}

#[test]
fn message_bytes_that_are_not_utf8_survive_storage() {
    // A latin-1 body, an 8-bit MIME part, a binary attachment: all
    // routine, none of them valid UTF-8. Lossy conversion would corrupt
    // the message and invalidate its DKIM signature in one step.
    let mut store = MemoryMailbox::default();
    let raw = b"Subject: caf\xe9\r\nContent-Type: text/plain; charset=iso-8859-1\r\n\r\ncaf\xe9\r\n";
    store
        .upsert(&RemoteMessage {
            uid: 1,
            flags: Flags::default(),
            raw: raw.to_vec(),
            internal_date_ms: 0,
        })
        .unwrap();
    assert_eq!(store.raw(1).unwrap().unwrap(), raw.to_vec());
}

#[test]
fn a_renumbering_clears_the_mailbox_and_the_cursor_together() {
    let mut store = MemoryMailbox::default();
    store.upsert(&message(1, seen())).unwrap();
    store
        .commit_cursor(Cursor {
            uid_validity: 1,
            last_uid: 1,
            highest_modseq: 7,
            accepts_keywords: false,
        })
        .unwrap();

    store.reset(2).unwrap();

    let state = store.state().unwrap();
    assert!(state.entries.is_empty(), "old-numbering messages survived");
    assert_eq!(state.cursor.uid_validity, 2);
    assert_eq!(state.cursor.last_uid, 0);
    assert_eq!(
        state.cursor.highest_modseq, 0,
        "a MODSEQ from the old numbering would skip the whole refetch"
    );
}

#[test]
fn a_renumbering_discards_queued_writes_with_the_messages() {
    // Every queued op names a UID in the old numbering.
    let mut store = MemoryMailbox::default();
    store
        .enqueue(PushOp::SetFlags {
            uid: 1,
            flags: seen(),
        })
        .unwrap();
    store.reset(2).unwrap();
    assert!(
        store.pending().is_empty(),
        "a queued write would have been applied to a different message"
    );
}

#[test]
fn the_sidecar_is_not_read_back_as_a_message() {
    let mut store = Catalogue::rescan(&vec![]);
    store.deliver(1, RECEIVED, seen());
    let mut listing = files(&store);
    listing.push(Filed {
        subdir: Subdir::Cur,
        name: SIDECAR.to_owned(),
    });
    listing.push(Filed {
        subdir: Subdir::Cur,
        name: format!(".{}", file_name_for(2, RECEIVED, seen())),
    });
    assert_eq!(Catalogue::rescan(&listing).entries().len(), 1);
}
