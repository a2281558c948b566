use cosmic_pim_mail::compose::Draft;
use cosmic_pim_mail::draft_sync::{mint_message_id, Action, Reply, Sweep, SweepReport};
use cosmic_pim_mail::drafts::{new_id, Drafts};
use cosmic_pim_mail::model::Mailbox;

#[test]
fn minted_ids_are_stable_and_scoped_to_the_account_domain() {
    assert_eq!(
        mint_message_id("00000abc", "example.com"),
        "00000abc.draft@example.com"
    );
    assert_eq!(
        mint_message_id("00000abc", "example.com"),
        mint_message_id("00000abc", "example.com"),
        "an edit would orphan the previous copy"
    );
}

#[test]
fn a_missing_or_unusable_domain_falls_back_to_an_undeliverable_one() {
    for bad in ["", "@", "localhost", "  "] {
        assert!(
            mint_message_id("1f", bad).ends_with("@draft.invalid"),
            "{bad:?} produced a deliverable-looking id"
        );
    }
}

fn draft() -> Draft {
    Draft::new(Mailbox {
        name: None,
        address: "me@example.com".into(),
    })
}

/// A folder that answers what a sweep asks of it.
#[derive(Default)]
struct Folder {
    messages: Vec<(u32, String)>,
    next: u32,
    uidplus: bool,
    deleted: Vec<u32>,
}

impl Folder {
    fn answer(&mut self, action: &Action) -> Reply {
        match action {
            Action::Select => Reply::Selected(Some(41)),
            Action::Search(id) => Reply::Found(
                self.messages
                    .iter()
                    .filter(|m| &m.1 == id)
                    .map(|m| m.0)
                    .collect(),
            ),
            Action::Append { message_id, .. } => {
                self.next += 1;
                self.messages.push((self.next, message_id.clone()));
                Reply::Appended(if self.uidplus {
                    Some((41, self.next))
                } else {
                    None
                })
            }
            Action::Delete(uid) => {
                self.messages.retain(|m| m.0 != *uid);
                self.deleted.push(*uid);
                Reply::Deleted
            }
            Action::Done => unreachable!(),
        }
    }

    fn sweep(&mut self, drafts: &mut Drafts) -> SweepReport {
        let (mut sweep, mut action) = Sweep::open(drafts, "example.com").unwrap();
        while action != Action::Done {
            let reply = self.answer(&action);
            action = sweep.advance(drafts, reply).unwrap();
        }
        sweep.finish()
    }
}

#[test]
fn a_first_upload_stays_and_an_edit_replaces_it() {
    for uidplus in [false, true] {
        let mut folder = Folder {
            uidplus,
            ..Folder::default()
        };
        let mut drafts = Drafts::default();
        let id = new_id(1);
        drafts.save(&id, &draft(), 1).unwrap();

        let report = folder.sweep(&mut drafts);
        assert_eq!((report.uploaded, report.retired), (1, 0));
        assert!(report.changed());
        assert_eq!(folder.messages.len(), 1, "the copy just filed was retired");
        let mirror = drafts.mirror(&id).unwrap().unwrap();
        assert_eq!((mirror.uid_validity, mirror.uid), (Some(41), Some(1)));
        assert!(!mirror.dirty);

        drafts.save(&id, &draft(), 2).unwrap();
        let report = folder.sweep(&mut drafts);
        assert_eq!((report.uploaded, report.retired), (1, 1));
        assert_eq!(folder.deleted, vec![1]);
        assert_eq!(folder.messages.len(), 1);
        assert_eq!(drafts.mirror(&id).unwrap().unwrap().uid, Some(2));

        assert!(!folder.sweep(&mut drafts).changed());
    }
}

#[test]
fn a_discarded_draft_is_retired_and_its_tombstone_cleared() {
    let mut folder = Folder::default();
    let mut drafts = Drafts::default();
    let id = new_id(1);
    drafts.save(&id, &draft(), 1).unwrap();
    folder.sweep(&mut drafts);
    drafts.delete(&id).unwrap();
    assert_eq!(drafts.pending_retractions().len(), 1);

    let report = folder.sweep(&mut drafts);
    assert_eq!((report.uploaded, report.retired), (0, 1));
    assert!(folder.messages.is_empty());
    assert!(drafts.pending_retractions().is_empty());
}

#[test]
fn what_fails_stays_dirty_and_is_reported() {
    let mut drafts = Drafts::default();
    let id = new_id(1);
    drafts.save(&id, &draft(), 1).unwrap();
    let (mut sweep, action) = Sweep::open(&drafts, "example.com").unwrap();
    assert_eq!(action, Action::Select);
    sweep
        .advance(&mut drafts, Reply::Selected(None))
        .unwrap();
    sweep.advance(&mut drafts, Reply::Found(vec![])).unwrap();
    let action = sweep
        .advance(&mut drafts, Reply::Failed("over quota".into()))
        .unwrap();
    assert_eq!(action, Action::Done);
    let report = sweep.finish();
    assert_eq!(report.failed, vec![(id.clone(), "over quota".to_owned())]);
    assert_eq!(drafts.dirty().unwrap(), vec![id]);
}

#[test]
fn a_folder_that_cannot_be_opened_loses_nothing() {
    let mut drafts = Drafts::default();
    drafts.save(&new_id(1), &draft(), 1).unwrap();
    let (mut sweep, _) = Sweep::open(&drafts, "example.com").unwrap();
    assert!(
        sweep.advance(&mut drafts, Reply::Deleted).is_none(),
        "an answer nobody asked for was taken"
    );
    let action = sweep
        .advance(&mut drafts, Reply::Failed("no such mailbox".into()))
        .unwrap();
    assert_eq!(action, Action::Done);
    assert_eq!(
        sweep.finish().failed,
        vec![(String::new(), "no such mailbox".to_owned())]
    );
    assert_eq!(drafts.dirty().unwrap().len(), 1);
}
