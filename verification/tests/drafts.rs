use cosmic_pim_mail::compose::Draft;
use cosmic_pim_mail::drafts::{is_valid_id, new_id, Drafts, Mirror, Page, Record, DIRECTORY};
use cosmic_pim_mail::model::Mailbox;

fn me() -> Mailbox {
    Mailbox {
        name: Some("Me".into()),
        address: "me@example.com".into(),
    }
}

fn draft() -> Draft {
    let mut draft = Draft::new(me());
    draft.to.push(Mailbox {
        name: Some("Ada".into()),
        address: "ada@example.com".into(),
    });
    draft.cc.push(Mailbox {
        name: None,
        address: "bob@example.net".into(),
    });
    draft.subject = "Half-written".into();
    draft.body = "This is as far as I got.".into();
    draft
}

#[test]
fn a_saved_draft_comes_back_as_what_was_typed() {
    let mut drafts = Drafts::default();
    let id = new_id(1_700_000_000_000);

    drafts.save(&id, &draft(), 1_700_000_000_000).unwrap();
    let loaded = drafts
        .load(&id, me())
        .unwrap()
        .expect("the draft came back");

    assert_eq!(loaded.subject, "Half-written");
    assert_eq!(loaded.body.trim(), "This is as far as I got.");
    assert_eq!(loaded.to[0].address, "ada@example.com");
    assert_eq!(loaded.cc[0].address, "bob@example.net");
    assert_eq!(loaded.from.address, "me@example.com");
}

#[test]
fn a_blind_copy_survives_an_editing_session() {
    // The user's own copy. Losing who they were blind-copying between one
    // sitting and the next is the same data loss saving exists to prevent.
    let mut drafts = Drafts::default();
    let mut draft = draft();
    draft.bcc.push(Mailbox {
        name: None,
        address: "secret@example.org".into(),
    });
    let id = new_id(1);

    drafts.save(&id, &draft, 1).unwrap();
    let loaded = drafts.load(&id, me()).unwrap().unwrap();
    assert_eq!(loaded.bcc[0].address, "secret@example.org");
}

#[test]
fn a_reply_saved_as_a_draft_still_threads_when_it_is_sent() {
    // The threading headers have to survive the round trip through a file,
    // or a reply written on Monday and sent on Tuesday starts a new thread.
    let mut drafts = Drafts::default();
    let original = cosmic_pim_mail::model::Message::parse(
        b"Message-ID: <parent@x>\r\nReferences: <root@x>\r\nFrom: Ada <ada@example.com>\r\n\
          To: me@example.com\r\nSubject: Plan\r\n\r\nbody\r\n",
    )
    .unwrap();

    let id = new_id(2);
    drafts
        .save(&id, &Draft::reply(&original, me(), false), 2)
        .unwrap();

    let loaded = drafts.load(&id, me()).unwrap().unwrap();
    assert_eq!(loaded.in_reply_to.as_deref(), Some("parent@x"));
    assert_eq!(loaded.references, vec!["root@x", "parent@x"]);
    assert_eq!(loaded.subject, "Re: Plan");
}

#[test]
fn re_saving_replaces_rather_than_accumulates() {
    let mut drafts = Drafts::default();
    let id = new_id(3);

    for body in ["first", "second", "third"] {
        let mut draft = draft();
        draft.body = body.into();
        drafts.save(&id, &draft, 3).unwrap();
    }

    assert_eq!(drafts.count(), 1, "every keystroke left a file behind");
    assert_eq!(
        drafts.load(&id, me()).unwrap().unwrap().body.trim(),
        "third"
    );
}

#[test]
fn drafts_are_listed_newest_first() {
    let mut drafts = Drafts::default();
    for (n, subject) in [(1, "older"), (2, "newer")] {
        let mut draft = draft();
        draft.subject = subject.into();
        drafts.save(&new_id(n), &draft, n).unwrap();
    }
    let listed = drafts.list().unwrap();
    assert_eq!(listed.len(), 2);
    assert_eq!(listed[0].subject, "newer");
    assert_eq!(listed[0].to, "Ada");
}

#[test]
fn a_sent_draft_is_deleted_and_deleting_twice_is_fine() {
    let mut drafts = Drafts::default();
    let id = new_id(4);
    drafts.save(&id, &draft(), 4).unwrap();

    drafts.delete(&id).unwrap();
    drafts
        .delete(&id)
        .expect("a retried send must not fail here");
    assert!(drafts.load(&id, me()).unwrap().is_none());
    assert_eq!(drafts.count(), 0);
}

#[test]
fn a_draft_with_no_recipients_yet_still_saves() {
    // The ordinary case: somebody started writing and closed the window.
    // Refusing here would refuse exactly the drafts worth keeping.
    let mut drafts = Drafts::default();
    let mut draft = Draft::new(me());
    draft.subject = "Thinking about it".into();
    draft.body = "…".into();

    let id = new_id(5);
    drafts
        .save(&id, &draft, 5)
        .expect("a half-written draft must save");
    let loaded = drafts.load(&id, me()).unwrap().unwrap();
    assert_eq!(loaded.subject, "Thinking about it");
    assert!(loaded.to.is_empty());
}

#[test]
fn a_half_typed_address_comes_back_exactly_as_it_was_typed() {
    // The reason a draft is stored as a record and not as a message: a
    // message format cannot represent "ada@exam", and somebody who stopped
    // mid-word should find their own text where they left it.
    let mut drafts = Drafts::default();
    let mut draft = Draft::new(me());
    draft.to.push(Mailbox {
        name: None,
        address: "ada@exam".into(),
    });
    draft.subject = "Partly addressed".into();

    let id = new_id(6);
    drafts.save(&id, &draft, 6).expect("save");
    let loaded = drafts.load(&id, me()).unwrap().unwrap();
    assert_eq!(loaded.to[0].address, "ada@exam");
    assert!(
        loaded.problem().is_some(),
        "an unfinished draft must still know it cannot be sent"
    );
}

#[test]
fn an_empty_store_lists_nothing_rather_than_failing() {
    let drafts = Drafts::default();
    assert!(drafts.list().unwrap().is_empty());
    assert_eq!(drafts.count(), 0);
}

#[test]
fn ids_are_validated_before_a_path_is_built_from_one() {
    // An id is joined to a directory. One that is not hex has come from
    // somewhere it should not have.
    assert!(is_valid_id(&new_id(1_700_000_000_000)));
    for bad in ["", "../../etc/passwd", "a/b", "..", "not-hex!"] {
        assert!(!is_valid_id(bad), "{bad} was accepted");
    }
}

#[test]
fn a_save_marks_the_mirror_dirty_and_an_upload_cleans_it() {
    let mut drafts = Drafts::default();
    let id = new_id(7);

    drafts.save(&id, &draft(), 7).unwrap();
    assert_eq!(drafts.dirty().unwrap(), vec![id.clone()]);

    drafts
        .mark_mirrored(&id, "abc@example.com", Some((41, 9)))
        .unwrap();
    assert!(drafts.dirty().unwrap().is_empty());
    let mirror = drafts.mirror(&id).unwrap().unwrap();
    assert_eq!(mirror.message_id.as_deref(), Some("abc@example.com"));
    assert_eq!(mirror.uid, Some(9));
    assert_eq!(mirror.uid_validity, Some(41));
}

#[test]
fn an_edit_after_an_upload_keeps_the_linkage_and_goes_dirty_again() {
    // The linkage is what lets the next upload *replace* the server copy
    // rather than accumulate beside it. Losing it on save would recreate
    // the duplication problem mirroring exists to solve.
    let mut drafts = Drafts::default();
    let id = new_id(8);
    drafts.save(&id, &draft(), 8).unwrap();
    drafts
        .mark_mirrored(&id, "abc@example.com", Some((41, 9)))
        .unwrap();

    let mut edited = draft();
    edited.body = "more".into();
    drafts.save(&id, &edited, 9).unwrap();

    let mirror = drafts.mirror(&id).unwrap().unwrap();
    assert!(mirror.dirty, "the server copy is behind and nothing knows");
    assert_eq!(mirror.message_id.as_deref(), Some("abc@example.com"));
    assert_eq!(mirror.uid, Some(9));
}

#[test]
fn a_record_written_before_mirroring_existed_still_loads() {
    let mut drafts = Drafts::default();
    let id = new_id(9);
    drafts.insert(
        &id,
        Page::Whole(Record::kept(5, Draft::new(me()), None)),
    );

    let loaded = drafts.load(&id, me()).unwrap();
    assert!(loaded.is_some(), "an old record failed to load");
    let mirror = drafts.mirror(&id).unwrap().unwrap();
    assert_eq!(mirror, Mirror::default());
}

#[test]
fn an_adopted_server_draft_is_linked_and_clean() {
    // A draft another device wrote, opened here: the server copy is the
    // latest version until the first local edit.
    let mut drafts = Drafts::default();
    let id = new_id(10);
    drafts
        .adopt(&id, &draft(), "other@example.com", 41, 12, 10)
        .unwrap();

    assert!(drafts.dirty().unwrap().is_empty());
    let mirror = drafts.mirror(&id).unwrap().unwrap();
    assert_eq!(mirror.uid, Some(12));
    assert!(drafts.load(&id, me()).unwrap().is_some());
}

#[test]
fn marking_a_deleted_draft_mirrored_is_not_an_error() {
    // The draft was discarded while its upload was in flight.
    let mut drafts = Drafts::default();
    drafts
        .mark_mirrored(&new_id(11), "gone@example.com", None)
        .unwrap();
    assert_eq!(drafts.count(), 0, "a ghost record was created");
}

#[test]
fn deleting_a_mirrored_draft_leaves_a_tombstone_for_the_server_copy() {
    // Discarding on a train: the local record goes now, the server copy
    // goes when there is a server again. Without the tombstone the mirror
    // would resurrect on every other device.
    let mut drafts = Drafts::default();
    let id = new_id(12);
    drafts.save(&id, &draft(), 12).unwrap();
    drafts
        .mark_mirrored(&id, "m12@example.com", Some((41, 3)))
        .unwrap();

    drafts.delete(&id).unwrap();

    assert_eq!(
        drafts.pending_retractions(),
        vec![(id.clone(), "m12@example.com".to_owned())]
    );
    assert_eq!(drafts.count(), 0, "the tombstone was counted as a draft");
    assert!(drafts.list().unwrap().is_empty());

    drafts.clear_retraction(&id).unwrap();
    assert!(drafts.pending_retractions().is_empty());
    drafts
        .clear_retraction(&id)
        .expect("clearing twice must not fail");
}

#[test]
fn deleting_a_never_mirrored_draft_leaves_nothing_behind() {
    let mut drafts = Drafts::default();
    let id = new_id(13);
    drafts.save(&id, &draft(), 13).unwrap();
    drafts.delete(&id).unwrap();
    assert!(
        drafts.pending_retractions().is_empty(),
        "a draft the server never saw got a tombstone"
    );
}

#[test]
fn the_directory_is_hidden_from_a_maildir_walker() {
    // A sync engine that adopted these would try to give them UIDs.
    assert!(DIRECTORY.starts_with('.'));
}

#[test]
fn a_draft_that_will_not_load_is_still_listed() {
    let mut drafts = Drafts::default();
    let id = new_id(20);
    drafts.insert(
        &id,
        Page::Damaged {
            why: "truncated".into(),
            modified_ms: 77,
        },
    );
    let listed = drafts.list().unwrap();
    assert_eq!(listed.len(), 1);
    assert_eq!((listed[0].id.as_str(), listed[0].saved_ms), (id.as_str(), 77));
    assert_eq!(
        drafts.load(&id, me()).unwrap_err().describe(),
        format!("draft {id} could not be read back: truncated")
    );
    assert!(drafts.mark_mirrored(&id, "m@x", None).is_err());
}

#[test]
fn an_id_is_sixteen_hexadecimal_digits() {
    assert_eq!(new_id(1_700_000_000_000), "0000018bcfe56800");
    assert_eq!(new_id(-5), "0000000000000000");
    assert_eq!(
        Drafts::default()
            .save("../evil", &draft(), 1)
            .unwrap_err()
            .describe(),
        "../evil is not a draft id"
    );
}

#[test]
fn a_retraction_names_its_message_without_white_space() {
    let mut drafts = Drafts::default();
    let id = new_id(77);
    drafts.save(&id, &draft(), 1).unwrap();
    drafts.mark_mirrored(&id, " abc@example.com\n", None).unwrap();
    drafts.delete(&id).unwrap();
    assert_eq!(drafts.pending_retractions(), vec![(id, "abc@example.com".to_owned())]);
}
