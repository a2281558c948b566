//! Filter rules: what should happen to a message because of what it is.
//!
//! A rule is conditions over the parsed message and actions. [`evaluate`] folds
//! every matching rule into a [`Plan`], and the caller applies it.
//!
//! - Rules run in order. Every enabled, matching rule contributes its actions;
//!   the first `move_to` is the move, and a `delete` beats any move.
//! - A rule with `stop` ends processing after it matches.
//! - A rule's conditions must all match, or any one with `match_any`.
//! - Matching is case-insensitive substring. An empty pattern never matches: a
//!   half-built rule must do nothing, not everything.

use vstd::prelude::*;

use crate::chars::{contains, contains_run, opt_text, texts, to_chars, to_text, trim_of, trimmed};
use crate::mime::{to_lowercase, unicode_lower};
use crate::model::{mailbox_views, Mailbox, MailboxText, Message, Shown};

verus! {

/// The file the rules are kept in, dot-prefixed so that a maildir walker never
/// reads it as a mailbox.
pub const FILENAME: &'static str = ".rules.toml";

/// Where a condition looks.
#[derive(Debug, Clone, Copy, PartialEq, Eq, Structural)]
pub enum Field {
    /// The `From` addresses and display names.
    Sender,
    /// Everyone in `To` and `Cc`.
    Recipients,
    Subject,
    /// The `List-Id`: the one header that names a mailing list stably.
    List,
}

/// One condition: the field contains the text, case-insensitively.
#[derive(Debug, Clone, PartialEq, Eq)]
pub struct Condition {
    pub field: Field,
    pub contains: String,
}

/// What a matching rule does.
#[derive(Debug, Clone, PartialEq, Eq)]
pub struct Actions {
    /// Destination mailbox, by wire name.
    pub move_to: Option<String>,
    pub mark_read: bool,
    pub star: bool,
    pub delete: bool,
}

impl Default for Actions {
    fn default() -> (r: Self)
        ensures
            r.move_to is None,
            !r.mark_read,
            !r.star,
            !r.delete,
    {
        Actions { move_to: None, mark_read: false, star: false, delete: false }
    }
}

/// One rule.
#[derive(Debug, Clone, PartialEq, Eq)]
pub struct Rule {
    pub name: String,
    /// Off means kept but inert: disabling is not deleting.
    pub enabled: bool,
    /// `false`: every condition must match. `true`: any one suffices.
    pub match_any: bool,
    pub conditions: Vec<Condition>,
    pub actions: Actions,
    /// End processing after this rule matches.
    pub stop: bool,
}

impl Default for Rule {
    fn default() -> (r: Self)
        ensures
            r.name@ == Seq::<char>::empty(),
            r.enabled,
            !r.match_any,
            r.conditions@ == Seq::<Condition>::empty(),
            r.actions.move_to is None,
            !r.actions.mark_read,
            !r.actions.star,
            !r.actions.delete,
            !r.stop,
    {
        let r: Rule = Rule {
            name: String::new(),
            enabled: true,
            match_any: false,
            conditions: Vec::new(),
            actions: Actions::default(),
            stop: false,
        };
        assert(r.name@ =~= Seq::<char>::empty());
        r
    }
}

/// What the caller should do to one message, folded from every matching rule.
#[derive(Debug, Clone, PartialEq, Eq)]
pub struct Plan {
    /// The first destination a matching rule asked for; `None` when `delete` is
    /// set.
    pub move_to: Option<String>,
    pub mark_read: bool,
    pub star: bool,
    pub delete: bool,
    /// The names of the rules that fired, in order.
    pub matched: Vec<String>,
}

impl Default for Plan {
    fn default() -> (r: Self)
        ensures
            r@ == outcome(Seq::empty()),
    {
        let r: Plan = Plan {
            move_to: None,
            mark_read: false,
            star: false,
            delete: false,
            matched: Vec::new(),
        };
        assert(texts(r.matched@) =~= names(Seq::empty()));
        r
    }
}

/// A plan, as contracts speak of it.
#[verifier::ext_equal]
pub struct Planned {
    pub move_to: Option<Seq<char>>,
    pub mark_read: bool,
    pub star: bool,
    pub delete: bool,
    pub matched: Seq<Seq<char>>,
}

impl Plan {
    pub open spec fn view(&self) -> Planned {
        Planned {
            move_to: opt_text(self.move_to),
            mark_read: self.mark_read,
            star: self.star,
            delete: self.delete,
            matched: texts(self.matched@),
        }
    }

    /// Is there anything to do?
    #[must_use]
    pub fn is_empty(&self) -> (r: bool)
        ensures
            r == (self.move_to is None && !self.mark_read && !self.star && !self.delete),
    {
        self.move_to.is_none() && !self.mark_read && !self.star && !self.delete
    }
}

/// Does the text hold the pattern, both folded to lower case?
pub open spec fn found(text: Seq<char>, pattern: Seq<char>) -> bool {
    contains(unicode_lower(text), unicode_lower(pattern))
}

pub open spec fn found_in_mailbox(m: MailboxText, pattern: Seq<char>) -> bool {
    found(m.address, pattern) || (m.name is Some && found(m.name->0, pattern))
}

pub open spec fn found_in_mailboxes(list: Seq<MailboxText>, pattern: Seq<char>) -> bool {
    exists|i: int| 0 <= i < list.len() && found_in_mailbox(#[trigger] list[i], pattern)
}

/// Does a condition hold of a message?
pub open spec fn holds(field: Field, pattern: Seq<char>, m: Shown) -> bool {
    let p = trimmed(pattern);
    p.len() > 0 && match field {
        Field::Sender => found_in_mailboxes(m.from, p),
        Field::Recipients => found_in_mailboxes(m.to, p) || found_in_mailboxes(m.cc, p),
        Field::Subject => found(m.subject, p),
        Field::List => m.list_id is Some && found(m.list_id->0, p),
    }
}

/// Does a rule match a message?
pub open spec fn rule_matches(rule: Rule, m: Shown) -> bool {
    rule.conditions@.len() > 0 && if rule.match_any {
        exists|i: int|
            0 <= i < rule.conditions@.len() && holds(
                (#[trigger] rule.conditions@[i]).field,
                rule.conditions@[i].contains@,
                m,
            )
    } else {
        forall|i: int|
            0 <= i < rule.conditions@.len() ==> holds(
                (#[trigger] rule.conditions@[i]).field,
                rule.conditions@[i].contains@,
                m,
            )
    }
}

/// The rules that fire on a message, in order.
pub open spec fn fired(rules: Seq<Rule>, m: Shown) -> Seq<Rule>
    decreases rules.len(),
{
    if rules.len() == 0 {
        Seq::empty()
    } else if !rules[0].enabled || !rule_matches(rules[0], m) {
        fired(rules.skip(1), m)
    } else if rules[0].stop {
        seq![rules[0]]
    } else {
        seq![rules[0]] + fired(rules.skip(1), m)
    }
}

pub open spec fn names(rules: Seq<Rule>) -> Seq<Seq<char>> {
    rules.map_values(|r: Rule| r.name@)
}

/// The first destination any of the rules names.
pub open spec fn first_move(rules: Seq<Rule>) -> Option<Seq<char>>
    decreases rules.len(),
{
    if rules.len() == 0 {
        None
    } else {
        match first_move(rules.drop_last()) {
            Some(to) => Some(to),
            None => opt_text(rules.last().actions.move_to),
        }
    }
}

pub open spec fn any_delete(rules: Seq<Rule>) -> bool {
    exists|i: int| 0 <= i < rules.len() && (#[trigger] rules[i]).actions.delete
}

/// What the rules that fired ask for together.
pub open spec fn outcome(rules: Seq<Rule>) -> Planned {
    Planned {
        move_to: if any_delete(rules) {
            None
        } else {
            first_move(rules)
        },
        mark_read: exists|i: int| 0 <= i < rules.len() && (#[trigger] rules[i]).actions.mark_read,
        star: exists|i: int| 0 <= i < rules.len() && (#[trigger] rules[i]).actions.star,
        delete: any_delete(rules),
        matched: names(rules),
    }
}

fn is_found(text: &str, pattern: &Vec<char>, Ghost(p): Ghost<Seq<char>>) -> (r: bool)
    requires
        pattern@ == unicode_lower(p),
    ensures
        r == found(text@, p),
{
    contains_run(&to_chars(&to_lowercase(text)), pattern)
}

fn is_found_in(list: &Vec<Mailbox>, pattern: &Vec<char>, Ghost(p): Ghost<Seq<char>>) -> (r: bool)
    requires
        pattern@ == unicode_lower(p),
    ensures
        r == found_in_mailboxes(mailbox_views(list@), p),
{
    let ghost all = mailbox_views(list@);
    let mut i: usize = 0;
    while i < list.len()
        invariant
            i <= list@.len(),
            all == mailbox_views(list@),
            pattern@ == unicode_lower(p),
            forall|k: int| 0 <= k < i ==> !found_in_mailbox(#[trigger] all[k], p),
        decreases list@.len() - i,
    {
        assert(all[i as int] == list@[i as int]@);
        if is_found(&list[i].address, pattern, Ghost(p)) {
            return true;
        }
        if let Some(name) = &list[i].name {
            if is_found(name, pattern, Ghost(p)) {
                return true;
            }
        }
        i = i + 1;
    }
    false
}

impl Condition {
    /// Does the condition hold of the message?
    #[must_use]
    pub fn matches(&self, message: &Message) -> (r: bool)
        ensures
            r == holds(self.field, self.contains@, message@),
    {
        let v: Vec<char> = to_chars(&self.contains);
        let t: &[char] = trim_of(&v);
        if t.len() == 0 {
            return false;
        }
        let ghost p = t@;
        let pattern: Vec<char> = to_chars(&to_lowercase(&to_text(t)));
        match self.field {
            Field::Sender => is_found_in(&message.from, &pattern, Ghost(p)),
            Field::Recipients => is_found_in(&message.to, &pattern, Ghost(p)) || is_found_in(
                &message.cc,
                &pattern,
                Ghost(p),
            ),
            Field::Subject => is_found(&message.subject, &pattern, Ghost(p)),
            Field::List => match &message.list_id {
                Some(id) => is_found(id, &pattern, Ghost(p)),
                None => false,
            },
        }
    }
}

impl Rule {
    /// Does this rule match, per its own all/any setting?
    ///
    /// A rule with no conditions matches nothing.
    #[must_use]
    pub fn matches(&self, message: &Message) -> (r: bool)
        ensures
            r == rule_matches(*self, message@),
    {
        if self.conditions.len() == 0 {
            return false;
        }
        let mut i: usize = 0;
        while i < self.conditions.len()
            invariant
                i <= self.conditions@.len(),
                self.conditions@.len() > 0,
                forall|k: int|
                    0 <= k < i ==> holds(
                        (#[trigger] self.conditions@[k]).field,
                        self.conditions@[k].contains@,
                        message@,
                    ) != self.match_any,
            decreases self.conditions@.len() - i,
        {
            if self.conditions[i].matches(message) == self.match_any {
                return self.match_any;
            }
            i = i + 1;
        }
        !self.match_any
    }
}

fn is_firing(rule: &Rule, message: &Message) -> (r: bool)
    ensures
        r == (rule.enabled && rule_matches(*rule, message@)),
{
    rule.enabled && rule.matches(message)
}

fn apply(plan: &mut Plan, rule: &Rule, Ghost(done): Ghost<Seq<Rule>>)
    requires
        old(plan)@ == outcome(done),
    ensures
        final(plan)@ == outcome(done.push(*rule)),
{
    let ghost next = done.push(*rule);
    proof {
        assert(next.drop_last() =~= done);
        assert(next.last() == *rule);
        assert(names(next) =~= names(done).push(rule.name@));
        assert forall|i: int| 0 <= i < done.len() implies #[trigger] next[i] == done[i] by {}
        if any_delete(done) {
            let i = choose|i: int| 0 <= i < done.len() && (#[trigger] done[i]).actions.delete;
            assert(next[i].actions.delete);
        }
        if rule.actions.delete {
            assert(next[done.len() as int].actions.delete);
        }
        if outcome(done).mark_read {
            let i = choose|i: int| 0 <= i < done.len() && (#[trigger] done[i]).actions.mark_read;
            assert(next[i].actions.mark_read);
        }
        if rule.actions.mark_read {
            assert(next[done.len() as int].actions.mark_read);
        }
        if outcome(done).star {
            let i = choose|i: int| 0 <= i < done.len() && (#[trigger] done[i]).actions.star;
            assert(next[i].actions.star);
        }
        if rule.actions.star {
            assert(next[done.len() as int].actions.star);
        }
    }
    let ghost was = texts(plan.matched@);
    plan.matched.push(rule.name.clone());
    assert(texts(plan.matched@) =~= was.push(rule.name@));
    if plan.move_to.is_none() && !plan.delete {
        plan.move_to =
        match &rule.actions.move_to {
            Some(to) => Some(to.clone()),
            None => None,
        };
    }
    if rule.actions.delete {
        plan.delete = true;
        plan.move_to = None;
    }
    if rule.actions.mark_read {
        plan.mark_read = true;
    }
    if rule.actions.star {
        plan.star = true;
    }
}

/// Folds every enabled, matching rule into one [`Plan`].
#[must_use]
pub fn evaluate(rules: &[Rule], message: &Message) -> (r: Plan)
    ensures
        r@ == outcome(fired(rules@, message@)),
{
    let mut plan: Plan = Plan::default();
    let ghost mut done: Seq<Rule> = Seq::empty();
    let mut i: usize = 0;
    proof {
        assert(rules@.skip(0) =~= rules@);
        assert(done + fired(rules@, message@) =~= fired(rules@, message@));
    }
    while i < rules.len()
        invariant
            i <= rules@.len(),
            plan@ == outcome(done),
            done + fired(rules@.skip(i as int), message@) == fired(rules@, message@),
        decreases rules@.len() - i,
    {
        let ghost rest = rules@.skip(i as int);
        proof {
            assert(rest[0] == rules@[i as int]);
            assert(rest.skip(1) =~= rules@.skip(i + 1));
        }
        if is_firing(&rules[i], message) {
            apply(&mut plan, &rules[i], Ghost(done));
            proof {
                assert(done + seq![rest[0]] =~= done.push(rest[0]));
                assert(done + (seq![rest[0]] + fired(rest.skip(1), message@)) =~= done.push(
                    rest[0],
                ) + fired(rest.skip(1), message@));
                done = done.push(rest[0]);
            }
            if rules[i].stop {
                return plan;
            }
        }
        i = i + 1;
    }
    assert(done + fired(rules@.skip(i as int), message@) =~= done);
    plan
}

/// A pattern that says nothing matches nothing, in any field of any message.
pub proof fn an_empty_pattern_never_matches(field: Field, pattern: Seq<char>, m: Shown)
    requires
        trimmed(pattern).len() == 0,
    ensures
        !holds(field, pattern, m),
{
}

/// Deletion beats filing, whichever rules fired and in whichever order.
pub proof fn deletion_beats_filing(rules: Seq<Rule>, m: Shown, i: int)
    requires
        0 <= i < fired(rules, m).len(),
        fired(rules, m)[i].actions.delete,
    ensures
        outcome(fired(rules, m)).delete,
        outcome(fired(rules, m)).move_to is None,
{
}

/// Once a rule that stops has fired, the rules after it change nothing.
pub proof fn nothing_runs_after_a_stop(before: Seq<Rule>, after: Seq<Rule>, m: Shown)
    requires
        fired(before, m).len() > 0,
        fired(before, m).last().stop,
    ensures
        fired(before + after, m) == fired(before, m),
    decreases before.len(),
{
    let all = before + after;
    assert(all[0] == before[0]);
    assert(all.skip(1) =~= before.skip(1) + after);
    let rest = fired(before.skip(1), m);
    if before[0].enabled && rule_matches(before[0], m) {
        if !before[0].stop {
            if rest.len() == 0 {
                assert((seq![before[0]] + rest).last() == before[0]);
            }
            assert((seq![before[0]] + rest).last() == rest.last());
            nothing_runs_after_a_stop(before.skip(1), after, m);
        }
    } else {
        nothing_runs_after_a_stop(before.skip(1), after, m);
    }
}

/// A rule that is switched off changes nothing: it may as well not be there.
pub proof fn a_disabled_rule_is_inert(before: Seq<Rule>, rule: Rule, after: Seq<Rule>, m: Shown)
    requires
        !rule.enabled,
    ensures
        fired(before + seq![rule] + after, m) == fired(before + after, m),
    decreases before.len(),
{
    let with = before + seq![rule] + after;
    let without = before + after;
    if before.len() == 0 {
        assert(with[0] == rule);
        assert(with.skip(1) =~= without);
    } else {
        assert(with[0] == before[0] && without[0] == before[0]);
        assert(with.skip(1) =~= before.skip(1) + seq![rule] + after);
        assert(without.skip(1) =~= before.skip(1) + after);
        a_disabled_rule_is_inert(before.skip(1), rule, after, m);
    }
}

// ---- what rules do ----

/// Where a condition looks: for a sender, in the addresses and names the message is from;
/// for recipients, in those it went to and those it was copied to; for a subject, in that;
/// for a list, in the name of the list. It looks for its text without the white space round
/// it, and finds it in either case.
pub proof fn where_a_condition_looks(pattern: Seq<char>, m: Shown)
    requires
        trimmed(pattern).len() > 0,
    ensures
        ({
            let p = unicode_lower(trimmed(pattern));
            &&& holds(Field::Subject, pattern, m) <==> contains(unicode_lower(m.subject), p)
            &&& holds(Field::List, pattern, m) <==> (m.list_id is Some && contains(
                unicode_lower(m.list_id->0),
                p,
            ))
            &&& holds(Field::Sender, pattern, m) <==> exists|i: int|
                0 <= i < m.from.len() && (contains(unicode_lower((#[trigger] m.from[i]).address), p)
                    || (m.from[i].name is Some && contains(unicode_lower(m.from[i].name->0), p)))
            &&& holds(Field::Recipients, pattern, m) <==> (exists|i: int|
                0 <= i < m.to.len() && (contains(unicode_lower((#[trigger] m.to[i]).address), p) || (
                m.to[i].name is Some && contains(unicode_lower(m.to[i].name->0), p)))) || (exists|
                i: int,
            |
                0 <= i < m.cc.len() && (contains(unicode_lower((#[trigger] m.cc[i]).address), p) || (
                m.cc[i].name is Some && contains(unicode_lower(m.cc[i].name->0), p))))
        }),
{
    let p = trimmed(pattern);
    if found_in_mailboxes(m.from, p) {
        let i = choose|i: int| 0 <= i < m.from.len() && found_in_mailbox(#[trigger] m.from[i], p);
        assert(found_in_mailbox(m.from[i], p));
    }
    if found_in_mailboxes(m.to, p) {
        let i = choose|i: int| 0 <= i < m.to.len() && found_in_mailbox(#[trigger] m.to[i], p);
        assert(found_in_mailbox(m.to[i], p));
    }
    if found_in_mailboxes(m.cc, p) {
        let i = choose|i: int| 0 <= i < m.cc.len() && found_in_mailbox(#[trigger] m.cc[i], p);
        assert(found_in_mailbox(m.cc[i], p));
    }
}

/// A rule without conditions matches nothing; one that wants any of them matches where one
/// holds, and one that wants all of them where each does.
pub proof fn when_a_rule_matches(rule: Rule, m: Shown)
    ensures
        rule.conditions@.len() == 0 ==> !rule_matches(rule, m),
        rule.match_any ==> (rule_matches(rule, m) <==> exists|i: int|
            0 <= i < rule.conditions@.len() && holds(
                (#[trigger] rule.conditions@[i]).field,
                rule.conditions@[i].contains@,
                m,
            )),
        !rule.match_any && rule.conditions@.len() > 0 ==> (rule_matches(rule, m) <==> forall|i: int|
            0 <= i < rule.conditions@.len() ==> holds(
                (#[trigger] rule.conditions@[i]).field,
                rule.conditions@[i].contains@,
                m,
            )),
{
}

/// A rule that is switched on and matches fires, as long as none before it stopped; and it
/// lets those behind it fire unless it stops itself. One that does not match changes
/// nothing.
pub proof fn a_matching_rule_fires(before: Seq<Rule>, rule: Rule, after: Seq<Rule>, m: Shown)
    requires
        forall|i: int| 0 <= i < fired(before, m).len() ==> !(#[trigger] fired(before, m)[i]).stop,
    ensures
        rule.enabled && rule_matches(rule, m) && rule.stop ==> fired(
            before + seq![rule] + after,
            m,
        ) == fired(before, m) + seq![rule],
        rule.enabled && rule_matches(rule, m) && !rule.stop ==> fired(
            before + seq![rule] + after,
            m,
        ) == fired(before, m) + seq![rule] + fired(after, m),
        !(rule.enabled && rule_matches(rule, m)) ==> fired(before + seq![rule] + after, m) == fired(
            before + after,
            m,
        ),
    decreases before.len(),
{
    let with = before + seq![rule] + after;
    let without = before + after;
    if before.len() == 0 {
        assert(with[0] == rule);
        assert(with.skip(1) =~= after);
        assert(without =~= after);
        assert(fired(before, m) =~= Seq::<Rule>::empty());
        assert(fired(before, m) + seq![rule] =~= seq![rule]);
        assert(fired(before, m) + seq![rule] + fired(after, m) =~= seq![rule] + fired(after, m));
    } else {
        let rest = before.skip(1);
        assert(with[0] == before[0] && without[0] == before[0]);
        assert(with.skip(1) =~= rest + seq![rule] + after);
        assert(without.skip(1) =~= rest + after);
        if before[0].enabled && rule_matches(before[0], m) {
            assert(fired(before, m)[0] == before[0]);
            assert(!before[0].stop);
            assert(fired(before, m) == seq![before[0]] + fired(rest, m));
            assert forall|i: int| 0 <= i < fired(rest, m).len() implies !(
            #[trigger] fired(rest, m)[i]).stop by {
                assert(fired(before, m)[i + 1] == fired(rest, m)[i]);
            }
            a_matching_rule_fires(rest, rule, after, m);
            assert(seq![before[0]] + (fired(rest, m) + seq![rule]) =~= fired(before, m) + seq![rule]);
            assert(seq![before[0]] + (fired(rest, m) + seq![rule] + fired(after, m)) =~= fired(
                before,
                m,
            ) + seq![rule] + fired(after, m));
        } else {
            assert(fired(before, m) == fired(rest, m));
            assert forall|i: int| 0 <= i < fired(rest, m).len() implies !(
            #[trigger] fired(rest, m)[i]).stop by {
                assert(fired(before, m)[i] == fired(rest, m)[i]);
            }
            a_matching_rule_fires(rest, rule, after, m);
        }
    }
}

/// What the rules that fired come to: the message is marked read, starred or deleted if any
/// of them asks for it; it is filed where the first of them that names a place wants it,
/// unless it is deleted; and all of them are named, in order.
pub proof fn what_fired_rules_come_to(rules: Seq<Rule>, at: int)
    requires
        0 <= at <= rules.len(),
        forall|i: int| 0 <= i < at ==> (#[trigger] rules[i]).actions.move_to is None,
        at < rules.len() ==> rules[at].actions.move_to is Some,
    ensures
        ({
            let o = outcome(rules);
            let deleted = exists|i: int| 0 <= i < rules.len() && (#[trigger] rules[i]).actions.delete;
            &&& o.mark_read <==> exists|i: int|
                0 <= i < rules.len() && (#[trigger] rules[i]).actions.mark_read
            &&& o.star <==> exists|i: int|
                0 <= i < rules.len() && (#[trigger] rules[i]).actions.star
            &&& o.delete <==> deleted
            &&& deleted || at == rules.len() ==> o.move_to is None
            &&& !deleted && at < rules.len() ==> o.move_to == Some(
                (rules[at].actions.move_to->0)@,
            )
            &&& o.matched.len() == rules.len()
            &&& forall|i: int| 0 <= i < rules.len() ==> #[trigger] o.matched[i] == rules[i].name@
        }),
{
    lemma_first_move(rules, at);
}

proof fn lemma_first_move(rules: Seq<Rule>, at: int)
    requires
        0 <= at <= rules.len(),
        forall|i: int| 0 <= i < at ==> (#[trigger] rules[i]).actions.move_to is None,
        at < rules.len() ==> rules[at].actions.move_to is Some,
    ensures
        at == rules.len() ==> first_move(rules) is None,
        at < rules.len() ==> first_move(rules) == Some((rules[at].actions.move_to->0)@),
    decreases rules.len(),
{
    if rules.len() > 0 {
        let t = rules.drop_last();
        assert(rules.last() == rules[rules.len() - 1]);
        assert forall|i: int| 0 <= i < at && i < t.len() implies (
        #[trigger] t[i]).actions.move_to is None by {
            assert(t[i] == rules[i]);
        }
        if at <= t.len() {
            if at < t.len() {
                assert(t[at] == rules[at]);
            }
            lemma_first_move(t, at);
        } else {
            lemma_first_move(t, t.len() as int);
        }
    }
}

} // verus!
