use cosmic_pim_mail::model::Message;
use cosmic_pim_mail::rules::{evaluate, Actions, Condition, Field, Rule, FILENAME};

fn message(raw: &str) -> Message {
    Message::parse(raw.as_bytes()).unwrap()
}

fn newsletter() -> Message {
    message(
        "From: News <updates@shop.example>\r\n\
         To: me@example.com\r\nCc: Team <team@example.com>\r\n\
         List-Id: Offers <offers.shop.example>\r\n\
         Subject: WEEKLY deals inside\r\n\r\nbody\r\n",
    )
}

fn rule(name: &str, field: Field, contains: &str, actions: Actions) -> Rule {
    Rule {
        name: name.into(),
        conditions: vec![Condition {
            field,
            contains: contains.into(),
        }],
        actions,
        ..Rule::default()
    }
}

#[test]
fn conditions_match_case_insensitively_over_the_right_fields() {
    let msg = newsletter();
    for (field, hit, miss) in [
        (Field::Sender, "UPDATES@shop", "team@"),
        (Field::Recipients, "team@example", "updates@"),
        (Field::Subject, "weekly", "monthly"),
        (Field::List, "offers.shop", "devs."),
    ] {
        let matches = |contains: &str| {
            Condition {
                field,
                contains: contains.into(),
            }
            .matches(&msg)
        };
        assert!(matches(hit), "{field:?} should match {hit}");
        assert!(!matches(miss), "{field:?} should not match {miss}");
    }
}

#[test]
fn an_empty_pattern_never_matches() {
    // A half-built rule must do nothing, not everything.
    for field in [
        Field::Sender,
        Field::Recipients,
        Field::Subject,
        Field::List,
    ] {
        assert!(
            !Condition {
                field,
                contains: "  ".into()
            }
            .matches(&newsletter())
        );
    }
}

#[test]
fn all_and_any_do_what_they_say() {
    let both = Rule {
        conditions: vec![
            Condition {
                field: Field::Subject,
                contains: "weekly".into(),
            },
            Condition {
                field: Field::Subject,
                contains: "nowhere".into(),
            },
        ],
        ..Rule::default()
    };
    assert!(!both.matches(&newsletter()), "all-of matched on one of two");

    let either = Rule {
        match_any: true,
        ..both
    };
    assert!(either.matches(&newsletter()), "any-of missed its one hit");
}

#[test]
fn a_rule_with_no_conditions_matches_nothing() {
    assert!(!Rule::default().matches(&newsletter()));
}

#[test]
fn matching_rules_fold_and_the_first_move_wins() {
    let rules = vec![
        rule(
            "file offers",
            Field::List,
            "offers.",
            Actions {
                move_to: Some("Newsletters".into()),
                mark_read: true,
                ..Actions::default()
            },
        ),
        rule(
            "also stars",
            Field::Subject,
            "deals",
            Actions {
                move_to: Some("Elsewhere".into()),
                star: true,
                ..Actions::default()
            },
        ),
    ];
    let plan = evaluate(&rules, &newsletter());
    assert_eq!(plan.move_to.as_deref(), Some("Newsletters"));
    assert!(plan.mark_read && plan.star);
    assert_eq!(plan.matched, vec!["file offers", "also stars"]);
}

#[test]
fn delete_beats_filing_in_either_order() {
    let filed_then_deleted = vec![
        rule(
            "file",
            Field::Subject,
            "deals",
            Actions {
                move_to: Some("Somewhere".into()),
                ..Actions::default()
            },
        ),
        rule(
            "bin",
            Field::List,
            "offers.",
            Actions {
                delete: true,
                ..Actions::default()
            },
        ),
    ];
    let plan = evaluate(&filed_then_deleted, &newsletter());
    assert!(plan.delete);
    assert_eq!(plan.move_to, None, "a deleted message was also filed");

    let deleted_then_filed: Vec<Rule> = filed_then_deleted.into_iter().rev().collect();
    let plan = evaluate(&deleted_then_filed, &newsletter());
    assert!(plan.delete);
    assert_eq!(plan.move_to, None);
}

#[test]
fn a_disabled_rule_is_kept_but_inert() {
    let mut r = rule(
        "off",
        Field::Subject,
        "deals",
        Actions {
            star: true,
            ..Actions::default()
        },
    );
    r.enabled = false;
    let plan = evaluate(&[r], &newsletter());
    assert!(plan.is_empty());
    assert!(plan.matched.is_empty());
}

#[test]
fn stop_ends_processing_after_a_match() {
    let mut first = rule(
        "first",
        Field::Subject,
        "deals",
        Actions {
            mark_read: true,
            ..Actions::default()
        },
    );
    first.stop = true;
    let second = rule(
        "second",
        Field::Subject,
        "deals",
        Actions {
            star: true,
            ..Actions::default()
        },
    );
    let plan = evaluate(&[first, second], &newsletter());
    assert!(plan.mark_read);
    assert!(!plan.star, "a rule after stop still ran");
    assert_eq!(plan.matched, vec!["first"]);
}



#[test]
fn the_filename_is_hidden_from_a_maildir_walker() {
    assert!(FILENAME.starts_with('.'));
}
