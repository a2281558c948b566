//! A rebuildable index over the maildirs: what it holds of a message, what is
//! asked of it, and how its rows become conversations.
//!
//! It is a cache: no sync state, no bodies, and no flags live in it.

use std::collections::BTreeMap;

use vstd::prelude::*;

use crate::chars::{drop_front, lemma_back_run, lemma_run, lines_of, opt_text, pieces, push_all, push_text, same,
    run, text_lines, texts, to_chars, to_text, trim_of, trimmed, white, Class};
use crate::compose::{lemma_lines_back, with_breaks};
use crate::engine::{absent, flags_known, held_flags, is_among};
use crate::error::Result;
use crate::http::first_of;
use crate::mime::parses;
use crate::model::{attachment_views, no_flags, shown_in, Attachment, AttachmentText, Flags, Message,
    Shown};
use crate::numbers::{dec, decimal};
use crate::order::{sort, sorted, Ordered};
use crate::search::{Query, Search};
use crate::store::MailStore;

verus! {

/// Bumped whenever the schema changes; a mismatch wipes and rebuilds.
pub const SCHEMA_VERSION: i64 = 1;

// ---- rows ----

/// One message, as a list row needs it.
#[derive(Debug, Clone, PartialEq, Eq)]
pub struct Summary {
    pub uid: u32,
    pub message_id: String,
    pub thread_id: String,
    pub from_name: String,
    pub from_address: String,
    pub subject: String,
    pub subject_norm: String,
    pub date_ms: i64,
    pub snippet: String,
    pub has_attachments: bool,
}

#[verifier::ext_equal]
pub struct Row {
    pub uid: u32,
    pub message_id: Seq<char>,
    pub thread_id: Seq<char>,
    pub from_name: Seq<char>,
    pub from_address: Seq<char>,
    pub subject: Seq<char>,
    pub subject_norm: Seq<char>,
    pub date_ms: i64,
    pub snippet: Seq<char>,
    pub has_attachments: bool,
}

/// What a list shows for a sender: the display name, else the address.
pub open spec fn shown(name: Seq<char>, address: Seq<char>) -> Seq<char> {
    if name.len() == 0 {
        address
    } else {
        name
    }
}

impl Summary {
    pub open spec fn view(&self) -> Row {
        Row {
            uid: self.uid,
            message_id: self.message_id@,
            thread_id: self.thread_id@,
            from_name: self.from_name@,
            from_address: self.from_address@,
            subject: self.subject@,
            subject_norm: self.subject_norm@,
            date_ms: self.date_ms,
            snippet: self.snippet@,
            has_attachments: self.has_attachments,
        }
    }

    /// What a list shows for the sender: the display name, else the address.
    #[must_use]
    pub fn from_display(&self) -> (r: &str)
        ensures
            r@ == shown(self.from_name@, self.from_address@),
    {
        if to_chars(&self.from_name).len() == 0 {
            self.from_address.as_str()
        } else {
            self.from_name.as_str()
        }
    }
}

/// One message a search matched.
#[derive(Debug, Clone, PartialEq, Eq)]
pub struct Hit {
    /// Which mailbox it is in.
    pub mailbox: String,
    pub uid: u32,
    pub thread_id: String,
    pub from_name: String,
    pub from_address: String,
    pub subject: String,
    pub date_ms: i64,
    pub snippet: String,
    pub has_attachments: bool,
}

impl Hit {
    /// What a result row shows for the sender.
    #[must_use]
    pub fn from_display(&self) -> (r: &str)
        ensures
            r@ == shown(self.from_name@, self.from_address@),
    {
        if to_chars(&self.from_name).len() == 0 {
            self.from_address.as_str()
        } else {
            self.from_name.as_str()
        }
    }
}

/// The first of these lines with something in it.
pub open spec fn first_said(lines: Seq<Seq<char>>) -> Seq<char>
    decreases lines.len(),
{
    if lines.len() == 0 {
        Seq::empty()
    } else if trimmed(lines[0]).len() > 0 {
        lines[0]
    } else {
        first_said(lines.skip(1))
    }
}

/// The list's one-line preview: the first line with something in it, as far as
/// it fits.
pub open spec fn preview(body: Seq<char>) -> Seq<char> {
    first_of(first_said(text_lines(body)), 200)
}

/// The list's one-line preview.
#[must_use]
pub fn snippet(body: &str) -> (r: String)
    ensures
        r@ == preview(body@),
{
    let lines: Vec<Vec<char>> = lines_of(&to_chars(body));
    let ghost all = pieces(lines@);
    let mut i: usize = 0;
    assert(all.skip(0) =~= all);
    while i < lines.len()
        invariant
            i <= lines@.len(),
            all == pieces(lines@),
            first_said(all) == first_said(all.skip(i as int)),
            all == text_lines(body@),
        decreases lines@.len() - i,
    {
        assert(all.skip(i as int)[0] == lines@[i as int]@);
        assert(all.skip(i as int).skip(1) =~= all.skip(i + 1));
        if trim_of(&lines[i]).len() > 0 {
            if lines[i].len() <= 200 {
                return to_text(&lines[i]);
            }
            return to_text(crate::chars::up_to(&lines[i], 200));
        }
        i = i + 1;
    }
    assert(all.skip(i as int).len() == 0);
    let r: String = String::new();
    assert(r@ =~= Seq::<char>::empty());
    r
}

/// Seconds as milliseconds, as far as they fit.
pub open spec fn millis(seconds: i64) -> i64 {
    if seconds * 1000 > i64::MAX {
        i64::MAX
    } else if seconds * 1000 < i64::MIN {
        i64::MIN
    } else {
        (seconds * 1000) as i64
    }
}

/// The row of a message: its sender's name and address, an empty text for what
/// it does not say, no date as the beginning of the epoch, and an attachment
/// where one is not shown inside the body.
pub open spec fn row_of(uid: u32, thread_id: Seq<char>, message: Shown) -> Row {
    Row {
        uid,
        message_id: text_or_empty(message.message_id),
        thread_id,
        from_name: if message.from.len() > 0 {
            text_or_empty(message.from[0].name)
        } else {
            Seq::empty()
        },
        from_address: if message.from.len() > 0 {
            message.from[0].address
        } else {
            Seq::empty()
        },
        subject: message.subject,
        subject_norm: message.subject_norm,
        date_ms: match message.date {
            Some(seconds) => millis(seconds),
            None => 0,
        },
        snippet: preview(message.body),
        has_attachments: any_attached(message.attachments),
    }
}

/// Whether one of these is more than part of the body.
pub open spec fn any_attached(attachments: Seq<AttachmentText>) -> bool {
    exists|i: int| 0 <= i < attachments.len() && !(#[trigger] attachments[i]).inline
}

pub open spec fn text_or_empty(text: Option<Seq<char>>) -> Seq<char> {
    match text {
        Some(t) => t,
        None => Seq::empty(),
    }
}

fn text_of(text: &Option<String>) -> (r: String)
    ensures
        r@ == text_or_empty(opt_text(*text)),
{
    match text {
        Some(t) => t.clone(),
        None => {
            let none: String = String::new();
            assert(none@ =~= Seq::<char>::empty());
            none
        },
    }
}

fn has_real_attachment(attachments: &Vec<Attachment>) -> (r: bool)
    ensures
        r == any_attached(attachment_views(attachments@)),
{
    let ghost views = attachment_views(attachments@);
    let mut i: usize = 0;
    while i < attachments.len()
        invariant
            i <= attachments@.len(),
            views == attachment_views(attachments@),
            forall|j: int| 0 <= j < i ==> (#[trigger] views[j]).inline,
        decreases attachments@.len() - i,
    {
        assert(views[i as int] == attachments@[i as int]@);
        if !attachments[i].inline {
            return true;
        }
        i = i + 1;
    }
    false
}

impl Summary {
    /// The row that a message gets in its thread.
    #[must_use]
    pub fn of(uid: u32, thread_id: &str, message: &Message) -> (r: Self)
        ensures
            r@ == row_of(uid, thread_id@, message@),
    {
        let (from_name, from_address) = match message.sender() {
            Some(sender) => {
                assert(message@.from[0] == sender@);
                (text_of(&sender.name), sender.address.clone())
            },
            None => {
                assert(message@.from.len() == 0);
                (text_of(&None), text_of(&None))
            },
        };
        let date_ms: i64 = match message.date {
            Some(seconds) => {
                let exact: i128 = seconds as i128 * 1000;
                if exact > i64::MAX as i128 {
                    i64::MAX
                } else if exact < i64::MIN as i128 {
                    i64::MIN
                } else {
                    exact as i64
                }
            },
            None => 0,
        };
        Summary {
            uid,
            message_id: text_of(&message.message_id),
            thread_id: thread_id.to_owned(),
            from_name,
            from_address,
            subject: message.subject.clone(),
            subject_norm: message.subject_norm.clone(),
            date_ms,
            snippet: snippet(&message.body.text),
            has_attachments: has_real_attachment(&message.attachments),
        }
    }
}

/// What is to be dropped from an index and what is to be added to it, for the
/// UIDs that a store holds and the index has; both lists are ascending, as the
/// lists they come from are. The oldest are added first, so that a parent is
/// there before the replies that join it.
#[must_use]
pub fn index_plan(held: &Vec<u32>, indexed: &Vec<u32>) -> (r: (Vec<u32>, Vec<u32>))
    ensures
        r.0@ == absent(indexed@, held@),
        r.1@ == absent(held@, indexed@),
{
    (those_absent(indexed, held), those_absent(held, indexed))
}

fn holds(v: &Vec<u32>, x: u32) -> (r: bool)
    ensures
        r == v@.contains(x),
{
    let mut i: usize = 0;
    while i < v.len()
        invariant
            i <= v@.len(),
            forall|j: int| 0 <= j < i ==> #[trigger] v@[j] != x,
        decreases v@.len() - i,
    {
        if v[i] == x {
            assert(v@[i as int] == x);
            return true;
        }
        i = i + 1;
    }
    false
}

fn those_absent(uids: &Vec<u32>, present: &Vec<u32>) -> (r: Vec<u32>)
    ensures
        r@ == absent(uids@, present@),
{
    let mut out: Vec<u32> = Vec::new();
    let mut i: usize = 0;
    assert(uids@.take(0) =~= Seq::<u32>::empty());
    while i < uids.len()
        invariant
            i <= uids@.len(),
            out@ == absent(uids@.take(i as int), present@),
        decreases uids@.len() - i,
    {
        proof {
            assert(uids@.take(i + 1).drop_last() =~= uids@.take(i as int));
            assert(uids@.take(i + 1).last() == uids@[i as int]);
        }
        if !holds(present, uids[i]) {
            out.push(uids[i]);
        }
        i = i + 1;
    }
    assert(uids@.take(i as int) =~= uids@);
    out
}

/// Can the `i`-th of these messages be shown: is it held, and is it a message?
pub open spec fn readable(uids: Seq<u32>, i: int, raws: Map<u32, Seq<u8>>) -> bool {
    raws.contains_key(uids[i]) && parses(raws[uids[i]])
}

/// The first of these messages, from the `from`-th on, that can be shown.
pub open spec fn next_readable(uids: Seq<u32>, from: nat, raws: Map<u32, Seq<u8>>) -> Option<nat>
    decreases uids.len() - from,
{
    if from >= uids.len() {
        None
    } else if readable(uids, from as int, raws) {
        Some(from)
    } else {
        next_readable(uids, from + 1, raws)
    }
}

/// The messages that are still to be added to an index, oldest first. Bytes that
/// cannot be parsed are still a message that can be opened; they just cannot be
/// threaded or summarised, and are passed over.
#[derive(Debug)]
pub struct Backlog {
    uids: Vec<u32>,
    at: usize,
    added: usize,
}

impl Backlog {
    pub closed spec fn uids(&self) -> Seq<u32> {
        self.uids@
    }

    pub closed spec fn at(&self) -> nat {
        self.at as nat
    }

    pub closed spec fn count(&self) -> nat {
        self.added as nat
    }

    pub closed spec fn wf(&self) -> bool {
        self.added <= self.at <= self.uids@.len()
    }

    /// A backlog of these messages.
    #[must_use]
    pub fn of(uids: Vec<u32>) -> (r: Self)
        ensures
            r.wf(),
            r.uids() == uids@,
            r.at() == 0,
            r.count() == 0,
    {
        Backlog { uids, at: 0, added: 0 }
    }

    /// How many messages were handed over.
    #[must_use]
    pub fn added(&self) -> (r: usize)
        ensures
            r == self.count(),
    {
        self.added
    }

    /// The next message to be added, if there is one.
    pub fn next<S: MailStore>(&mut self, store: &S) -> (r: Result<Option<(u32, Message)>>)
        requires
            old(self).wf(),
        ensures
            final(self).wf(),
            final(self).uids() == old(self).uids(),
            store.dependable() ==> r is Ok,
            match r {
                Ok(Some((uid, message))) => {
                    let i = next_readable(
                        old(self).uids(),
                        old(self).at(),
                        store.contents().raws,
                    );
                    &&& i is Some
                    &&& uid == old(self).uids()[i->0 as int]
                    &&& message@ == shown_in(store.contents().raws[uid])
                    &&& final(self).at() == i->0 + 1
                    &&& final(self).count() == old(self).count() + 1
                },
                Ok(None) => next_readable(
                    old(self).uids(),
                    old(self).at(),
                    store.contents().raws,
                ) is None && final(self).count() == old(self).count() && final(self).at()
                    == final(self).uids().len(),
                Err(_) => final(self).count() == old(self).count(),
            },
    {
        let ghost raws = store.contents().raws;
        let ghost sought = next_readable(self.uids@, self.at as nat, raws);
        let ghost begun = self.added;
        while self.at < self.uids.len()
            invariant
                self.added <= self.at <= self.uids@.len(),
                self.added == begun,
                self.uids@ == old(self).uids(),
                begun == old(self).count(),
                raws == store.contents().raws,
                sought == next_readable(old(self).uids(), old(self).at(), raws),
                next_readable(self.uids@, self.at as nat, raws) == sought,
            decreases self.uids@.len() - self.at,
        {
            let uid: u32 = self.uids[self.at];
            let raw: Option<Vec<u8>> = match store.raw(uid) {
                Ok(raw) => raw,
                Err(why) => {
                    return Err(why);
                },
            };
            self.at = self.at + 1;
            if let Some(bytes) = raw {
                if let Some(message) = Message::parse(&bytes) {
                    self.added = self.added + 1;
                    return Ok(Some((uid, message)));
                }
            }
        }
        Ok(None)
    }
}

/// An unreadable message keeps no other out of the index: one that can be shown
/// is still to come as long as it was not passed.
pub proof fn an_unreadable_message_keeps_no_other_out(
    uids: Seq<u32>,
    from: nat,
    i: nat,
    raws: Map<u32, Seq<u8>>,
)
    requires
        from <= i < uids.len(),
        readable(uids, i as int, raws),
    ensures
        next_readable(uids, from, raws) is Some,
        from <= next_readable(uids, from, raws)->0 <= i,
        readable(uids, next_readable(uids, from, raws)->0 as int, raws),
    decreases i - from,
{
    if !readable(uids, from as int, raws) {
        an_unreadable_message_keeps_no_other_out(uids, from + 1, i, raws);
    }
}

/// The thread of a message that says nothing to thread it by: one of its own.
#[must_use]
pub fn own_thread(mailbox: &str, uid: u32) -> (r: String)
    ensures
        r@ == mailbox@ + "/"@ + dec(uid as nat),
{
    let mut out: Vec<char> = to_chars(mailbox);
    push_text(&mut out, "/");
    push_all(&mut out, &decimal(uid as u64));
    to_text(&out)
}

/// An index that is in line with its store has nothing to drop and nothing to
/// add.
pub proof fn an_unchanged_mailbox_costs_nothing(uids: Seq<u32>)
    ensures
        absent(uids, uids).len() == 0,
{
    lemma_absent_in(uids, uids);
}

proof fn lemma_absent_in(uids: Seq<u32>, present: Seq<u32>)
    requires
        forall|i: int| 0 <= i < uids.len() ==> present.contains(#[trigger] uids[i]),
    ensures
        absent(uids, present).len() == 0,
    decreases uids.len(),
{
    if uids.len() > 0 {
        let t = uids.drop_last();
        assert forall|i: int| 0 <= i < t.len() implies present.contains(#[trigger] t[i]) by {
            assert(t[i] == uids[i]);
        }
        lemma_absent_in(t, present);
        assert(present.contains(uids[uids.len() - 1]));
    }
}

// ---- searching ----

/// A character of a LIKE pattern that stands for itself.
pub open spec fn literal(c: char) -> Seq<char> {
    if c == '%' || c == '_' || c == '\\' {
        seq!['\\', c]
    } else {
        seq![c]
    }
}

pub open spec fn literals(s: Seq<char>) -> Seq<char>
    decreases s.len(),
{
    if s.len() == 0 {
        Seq::empty()
    } else {
        literals(s.drop_last()) + literal(s.last())
    }
}

/// A LIKE pattern that matches a term anywhere, with LIKE's own wildcards
/// escaped.
pub open spec fn pattern(term: Seq<char>) -> Seq<char> {
    seq!['%'] + literals(term) + seq!['%']
}

/// A LIKE pattern matching `term` anywhere, with LIKE's own wildcards escaped.
#[must_use]
pub fn like(term: &str) -> (r: String)
    ensures
        r@ == pattern(term@),
{
    let v: Vec<char> = to_chars(term);
    let mut out: Vec<char> = Vec::new();
    out.push('%');
    let mut i: usize = 0;
    assert(v@.take(0) =~= Seq::<char>::empty());
    assert(out@ =~= seq!['%'] + literals(v@.take(0)));
    while i < v.len()
        invariant
            i <= v@.len(),
            out@ == seq!['%'] + literals(v@.take(i as int)),
        decreases v@.len() - i,
    {
        let c: char = v[i];
        proof {
            assert(v@.take(i + 1).drop_last() =~= v@.take(i as int));
            assert(v@.take(i + 1).last() == c);
        }
        if c == '%' || c == '_' || c == '\\' {
            out.push('\\');
        }
        out.push(c);
        assert(out@ =~= seq!['%'] + literals(v@.take(i + 1)));
        i = i + 1;
    }
    assert(v@.take(i as int) =~= v@);
    out.push('%');
    assert(out@ =~= pattern(term@));
    to_text(&out)
}

/// A value bound to a statement's parameter.
#[derive(Debug, Clone, PartialEq, Eq)]
pub enum Bound {
    Text(String),
    Number(i64),
}

pub enum BoundText {
    Text(Seq<char>),
    Number(i64),
}

impl Bound {
    pub open spec fn view(&self) -> BoundText {
        match self {
            Bound::Text(t) => BoundText::Text(t@),
            Bound::Number(n) => BoundText::Number(*n),
        }
    }
}

pub open spec fn bound_views(v: Seq<Bound>) -> Seq<BoundText> {
    v.map_values(|b: Bound| b@)
}

/// A statement as far as it has been written. Nothing that was typed ever
/// reaches its text: every term is a bound value.
#[verifier::ext_equal]
pub struct Written {
    pub sql: Seq<char>,
    pub values: Seq<BoundText>,
}

/// How a term narrows a search.
#[derive(Debug, Clone, Copy, PartialEq, Eq, Structural)]
pub enum Clause {
    Anywhere,
    Sender,
    Subject,
}

/// A clause over the `n`-th parameter.
pub open spec fn clause_text(clause: Clause, n: nat) -> Seq<char> {
    match clause {
        Clause::Anywhere => " AND (subject LIKE ?"@ + dec(n) + " ESCAPE '\\' OR from_name LIKE ?"@
            + dec(n) + " ESCAPE '\\'\n                       OR from_addr LIKE ?"@ + dec(n)
            + " ESCAPE '\\' OR snippet LIKE ?"@ + dec(n) + " ESCAPE '\\')"@,
        Clause::Sender => " AND (from_name LIKE ?"@ + dec(n)
            + " ESCAPE '\\' OR from_addr LIKE ?"@ + dec(n) + " ESCAPE '\\')"@,
        Clause::Subject => " AND subject LIKE ?"@ + dec(n) + " ESCAPE '\\'"@,
    }
}

impl Written {
    pub open spec fn with_term(self, clause: Clause, term: Seq<char>) -> Written {
        let values = self.values.push(BoundText::Text(pattern(term)));
        Written { sql: self.sql + clause_text(clause, values.len()), values }
    }

    pub open spec fn with_terms(self, clause: Clause, terms: Seq<Seq<char>>) -> Written
        decreases terms.len(),
    {
        if terms.len() == 0 {
            self
        } else {
            self.with_terms(clause, terms.drop_last()).with_term(clause, terms.last())
        }
    }
}

pub open spec fn select_text() -> Seq<char> {
    "SELECT mailbox, uid, thread_id, from_name, from_addr, subject, date_ms,\n                    snippet, attachments\n             FROM messages WHERE account = ?1"@
}

/// A limit, as it is bound.
pub open spec fn bound_limit(limit: usize) -> i64 {
    if limit > i64::MAX {
        i64::MAX
    } else {
        limit as i64
    }
}

/// The beginning of a statement: over an account, or over one of its mailboxes.
pub open spec fn scoped(account: Seq<char>, mailbox: Option<Seq<char>>) -> Written {
    let start = Written { sql: select_text(), values: seq![BoundText::Text(account)] };
    match mailbox {
        Some(m) => Written {
            sql: start.sql + " AND mailbox = ?"@ + dec(2),
            values: start.values.push(BoundText::Text(m)),
        },
        None => start,
    }
}

/// The statement that answers a query.
pub open spec fn statement(
    account: Seq<char>,
    mailbox: Option<Seq<char>>,
    query: Search,
    limit: usize,
) -> Written {
    let narrowed = scoped(account, mailbox).with_terms(Clause::Anywhere, query.terms).with_terms(
        Clause::Sender,
        query.from,
    ).with_terms(Clause::Subject, query.subject);
    let filtered = if query.has_attachment {
        Written { sql: narrowed.sql + " AND attachments != 0"@, ..narrowed }
    } else {
        narrowed
    };
    let values = filtered.values.push(BoundText::Number(bound_limit(limit)));
    Written {
        sql: filtered.sql + " ORDER BY date_ms DESC LIMIT ?"@ + dec(values.len()),
        values,
    }
}

/// Whether two queries ask for as much, whatever it is that they ask for.
pub open spec fn same_shape(a: Search, b: Search) -> bool {
    &&& a.terms.len() == b.terms.len()
    &&& a.from.len() == b.from.len()
    &&& a.subject.len() == b.subject.len()
    &&& a.has_attachment == b.has_attachment
}

proof fn lemma_terms_shape(
    a: Written,
    b: Written,
    clause: Clause,
    first: Seq<Seq<char>>,
    second: Seq<Seq<char>>,
)
    requires
        a.sql == b.sql,
        a.values.len() == b.values.len(),
        first.len() == second.len(),
    ensures
        a.with_terms(clause, first).sql == b.with_terms(clause, second).sql,
        a.with_terms(clause, first).values.len() == b.with_terms(clause, second).values.len(),
    decreases first.len(),
{
    if first.len() > 0 {
        lemma_terms_shape(a, b, clause, first.drop_last(), second.drop_last());
    }
}

/// Nothing that was typed reaches the text of a statement: for two queries of one
/// shape the text is the same, whatever the words, the account and the mailbox.
pub proof fn nothing_typed_reaches_the_statement(
    accounts: (Seq<char>, Seq<char>),
    mailboxes: (Option<Seq<char>>, Option<Seq<char>>),
    queries: (Search, Search),
    limits: (usize, usize),
)
    requires
        mailboxes.0 is Some == mailboxes.1 is Some,
        same_shape(queries.0, queries.1),
    ensures
        statement(accounts.0, mailboxes.0, queries.0, limits.0).sql == statement(
            accounts.1,
            mailboxes.1,
            queries.1,
            limits.1,
        ).sql,
{
    let a = scoped(accounts.0, mailboxes.0);
    let b = scoped(accounts.1, mailboxes.1);
    let (p, q) = queries;
    lemma_terms_shape(a, b, Clause::Anywhere, p.terms, q.terms);
    let (a, b) = (a.with_terms(Clause::Anywhere, p.terms), b.with_terms(Clause::Anywhere, q.terms));
    lemma_terms_shape(a, b, Clause::Sender, p.from, q.from);
    let (a, b) = (a.with_terms(Clause::Sender, p.from), b.with_terms(Clause::Sender, q.from));
    lemma_terms_shape(a, b, Clause::Subject, p.subject, q.subject);
}

/// A statement with the values bound to its parameters.
#[derive(Debug)]
pub struct Statement {
    pub sql: Vec<char>,
    pub values: Vec<Bound>,
}

impl Statement {
    pub open spec fn view(&self) -> Written {
        Written { sql: self.sql@, values: bound_views(self.values@) }
    }

    fn push_number(&mut self, n: usize)
        ensures
            final(self).sql@ == old(self).sql@ + dec(n as nat),
            final(self).values == old(self).values,
    {
        let d: Vec<char> = decimal(n as u64);
        push_all(&mut self.sql, &d);
    }

    fn push_value(&mut self, value: Bound)
        ensures
            final(self)@.values == old(self)@.values.push(value@),
            final(self).sql == old(self).sql,
            final(self).values@.len() == old(self).values@.len() + 1,
    {
        let ghost before = self.values@;
        self.values.push(value);
        assert(bound_views(self.values@) =~= bound_views(before).push(value@));
    }

    fn add_term(&mut self, clause: Clause, term: &str)
        ensures
            final(self)@ == old(self)@.with_term(clause, term@),
    {
        self.push_value(Bound::Text(like(term)));
        assert(bound_views(self.values@).len() == self.values@.len());
        let n: usize = self.values.len();
        match clause {
            Clause::Anywhere => {
                push_text(&mut self.sql, " AND (subject LIKE ?");
                self.push_number(n);
                push_text(&mut self.sql, " ESCAPE '\\' OR from_name LIKE ?");
                self.push_number(n);
                push_text(
                    &mut self.sql,
                    " ESCAPE '\\'\n                       OR from_addr LIKE ?",
                );
                self.push_number(n);
                push_text(&mut self.sql, " ESCAPE '\\' OR snippet LIKE ?");
                self.push_number(n);
                push_text(&mut self.sql, " ESCAPE '\\')");
            },
            Clause::Sender => {
                push_text(&mut self.sql, " AND (from_name LIKE ?");
                self.push_number(n);
                push_text(&mut self.sql, " ESCAPE '\\' OR from_addr LIKE ?");
                self.push_number(n);
                push_text(&mut self.sql, " ESCAPE '\\')");
            },
            Clause::Subject => {
                push_text(&mut self.sql, " AND subject LIKE ?");
                self.push_number(n);
                push_text(&mut self.sql, " ESCAPE '\\'");
            },
        }
        assert(self.sql@ =~= old(self).sql@ + clause_text(clause, n as nat));
    }

    fn add_terms(&mut self, clause: Clause, terms: &Vec<String>)
        ensures
            final(self)@ == old(self)@.with_terms(clause, texts(terms@)),
    {
        let ghost start = self@;
        let ghost all = texts(terms@);
        let mut i: usize = 0;
        assert(all.take(0) =~= Seq::<Seq<char>>::empty());
        while i < terms.len()
            invariant
                i <= terms@.len(),
                all == texts(terms@),
                self@ == start.with_terms(clause, all.take(i as int)),
            decreases terms@.len() - i,
        {
            proof {
                assert(all.take(i + 1).drop_last() =~= all.take(i as int));
                assert(all.take(i + 1).last() == terms@[i as int]@);
            }
            self.add_term(clause, &terms[i]);
            i = i + 1;
        }
        assert(all.take(i as int) =~= all);
    }
}

/// The statement that answers a query, newest first; nothing, for a query with
/// nothing in it. `mailbox` narrows to one; without it the account is searched.
/// Flags are not asked for here: they live in the store.
#[must_use]
pub fn search(account: &str, mailbox: Option<&str>, query: &Query, limit: usize) -> (r: Option<
    Statement,
>)
    ensures
        match r {
            None => query@.empty(),
            Some(s) => !query@.empty() && s@ == statement(
                account@,
                crate::chars::opt_str(mailbox),
                query@,
                limit,
            ),
        },
{
    if query.is_empty() {
        return None;
    }
    let mut s: Statement = Statement {
        sql: to_chars(
            "SELECT mailbox, uid, thread_id, from_name, from_addr, subject, date_ms,\n                    snippet, attachments\n             FROM messages WHERE account = ?1",
        ),
        values: Vec::new(),
    };
    assert(bound_views(s.values@) =~= Seq::<BoundText>::empty());
    s.push_value(Bound::Text(account.to_owned()));
    assert(s@.values =~= seq![BoundText::Text(account@)]);
    if let Some(m) = mailbox {
        s.push_value(Bound::Text(m.to_owned()));
        push_text(&mut s.sql, " AND mailbox = ?");
        s.push_number(2);
    }
    s.add_terms(Clause::Anywhere, &query.terms);
    s.add_terms(Clause::Sender, &query.from);
    s.add_terms(Clause::Subject, &query.subject);
    if query.has_attachment {
        push_text(&mut s.sql, " AND attachments != 0");
    }
    s.push_value(
        Bound::Number(
            if limit as u64 > 0x7fff_ffff_ffff_ffff {
                i64::MAX
            } else {
                limit as i64
            },
        ),
    );
    assert(bound_views(s.values@).len() == s.values@.len());
    let n: usize = s.values.len();
    push_text(&mut s.sql, " ORDER BY date_ms DESC LIMIT ?");
    s.push_number(n);
    Some(s)
}

// ---- conversations ----

/// One conversation, assembled from its indexed messages.
#[derive(Debug, Clone, PartialEq, Eq)]
pub struct Conversation {
    pub thread_id: String,
    /// The oldest message's normalised subject.
    pub subject: String,
    /// Who is in it, in the order they appear, each once.
    pub participants: Vec<String>,
    /// The newest message's date.
    pub date_ms: i64,
    /// The newest message's first line.
    pub snippet: String,
    /// UIDs, oldest first.
    pub uids: Vec<u32>,
    pub unread: bool,
    pub flagged: bool,
    pub has_attachments: bool,
}

#[verifier::ext_equal]
pub struct Thread {
    pub thread_id: Seq<char>,
    pub subject: Seq<char>,
    pub participants: Seq<Seq<char>>,
    pub date_ms: i64,
    pub snippet: Seq<char>,
    pub uids: Seq<u32>,
    pub unread: bool,
    pub flagged: bool,
    pub has_attachments: bool,
}

pub open spec fn fresh_thread(thread_id: Seq<char>) -> Thread {
    Thread {
        thread_id,
        subject: Seq::empty(),
        participants: Seq::empty(),
        date_ms: i64::MIN,
        snippet: Seq::empty(),
        uids: Seq::empty(),
        unread: false,
        flagged: false,
        has_attachments: false,
    }
}

impl Thread {
    /// With one more message. Rows come oldest first, so the first sets the
    /// subject and the last the snippet and the date.
    pub open spec fn with(self, row: Row, flags: Map<u32, Flags>) -> Thread {
        let who = shown(row.from_name, row.from_address);
        let held = match held_flags(flags, row.uid) {
            Some(f) => f,
            None => no_flags(),
        };
        let newest = row.date_ms >= self.date_ms;
        Thread {
            thread_id: self.thread_id,
            subject: if self.subject.len() == 0 {
                row.subject_norm
            } else {
                self.subject
            },
            participants: if who.len() > 0 && !self.participants.contains(who) {
                self.participants.push(who)
            } else {
                self.participants
            },
            date_ms: if newest {
                row.date_ms
            } else {
                self.date_ms
            },
            snippet: if newest {
                row.snippet
            } else {
                self.snippet
            },
            uids: self.uids.push(row.uid),
            unread: self.unread || !held.seen,
            flagged: self.flagged || held.flagged,
            has_attachments: self.has_attachments || row.has_attachments,
        }
    }
}

impl Conversation {
    pub open spec fn view(&self) -> Thread {
        Thread {
            thread_id: self.thread_id@,
            subject: self.subject@,
            participants: texts(self.participants@),
            date_ms: self.date_ms,
            snippet: self.snippet@,
            uids: self.uids@,
            unread: self.unread,
            flagged: self.flagged,
            has_attachments: self.has_attachments,
        }
    }

    fn new(summary: &Summary, flags: &BTreeMap<u32, Flags>) -> (r: Self)
        ensures
            r@ == fresh_thread(summary@.thread_id).with(summary@, flags@),
    {
        let mut thread: Conversation = Conversation {
            thread_id: summary.thread_id.clone(),
            subject: String::new(),
            participants: Vec::new(),
            date_ms: i64::MIN,
            snippet: String::new(),
            uids: Vec::new(),
            unread: false,
            flagged: false,
            has_attachments: false,
        };
        proof {
            assert(thread.subject@ =~= Seq::<char>::empty());
            assert(thread.snippet@ =~= Seq::<char>::empty());
            assert(texts(thread.participants@) =~= Seq::<Seq<char>>::empty());
        }
        thread.push(summary, flags);
        thread
    }

    fn push(&mut self, summary: &Summary, flags: &BTreeMap<u32, Flags>)
        ensures
            final(self)@ == old(self)@.with(summary@, flags@),
    {
        if to_chars(&self.subject).len() == 0 {
            self.subject = summary.subject_norm.clone();
        }
        let who: &str = summary.from_display();
        if to_chars(who).len() > 0 && !is_among(&self.participants, who) {
            let ghost before = self.participants@;
            self.participants.push(who.to_owned());
            assert(texts(self.participants@) =~= texts(before).push(who@));
        }
        if summary.date_ms >= self.date_ms {
            self.date_ms = summary.date_ms;
            self.snippet = summary.snippet.clone();
        }
        if summary.has_attachments {
            self.has_attachments = true;
        }
        let held: Flags = match flags_known(flags, summary.uid) {
            Some(f) => f,
            None => Flags::default(),
        };
        if !held.seen {
            self.unread = true;
        }
        if held.flagged {
            self.flagged = true;
        }
        self.uids.push(summary.uid);
    }

    #[must_use]
    pub fn newest_uid(&self) -> (r: Option<u32>)
        ensures
            r == (if self.uids@.len() > 0 {
                Some(self.uids@.last())
            } else {
                None
            }),
    {
        let n: usize = self.uids.len();
        if n > 0 {
            Some(self.uids[n - 1])
        } else {
            None
        }
    }
}

/// Rows that are ordered by thread, gathered into conversations.
pub open spec fn gathered(rows: Seq<Row>, flags: Map<u32, Flags>) -> Seq<Thread>
    decreases rows.len(),
{
    if rows.len() == 0 {
        Seq::empty()
    } else {
        let row = rows.last();
        let front = gathered(rows.drop_last(), flags);
        if front.len() > 0 && front.last().thread_id == row.thread_id {
            front.update(front.len() - 1, front.last().with(row, flags))
        } else {
            front.push(fresh_thread(row.thread_id).with(row, flags))
        }
    }
}

pub open spec fn rows_of(v: Seq<Summary>) -> Seq<Row> {
    v.map_values(|s: Summary| s@)
}

pub open spec fn threads_of(v: Seq<Conversation>) -> Seq<Thread> {
    v.map_values(|c: Conversation| c@)
}

impl Ordered for Conversation {
    /// Newest first.
    open spec fn before(self, other: Conversation) -> bool {
        self.date_ms >= other.date_ms
    }

    fn is_before(&self, other: &Conversation) -> (r: bool) {
        self.date_ms >= other.date_ms
    }
}

/// Rows in the order of their threads, dates and UIDs, gathered into
/// conversations.
#[must_use]
pub fn gather(rows: &[Summary], flags: &BTreeMap<u32, Flags>) -> (r: Vec<Conversation>)
    ensures
        threads_of(r@) == gathered(rows_of(rows@), flags@),
{
    let ghost all = rows_of(rows@);
    let mut threads: Vec<Conversation> = Vec::new();
    let mut i: usize = 0;
    assert(all.take(0) =~= Seq::<Row>::empty());
    assert(threads_of(threads@) =~= Seq::<Thread>::empty());
    while i < rows.len()
        invariant
            i <= rows@.len(),
            all == rows_of(rows@),
            threads_of(threads@) == gathered(all.take(i as int), flags@),
        decreases rows@.len() - i,
    {
        proof {
            assert(all.take(i + 1).drop_last() =~= all.take(i as int));
            assert(all.take(i + 1).last() == rows@[i as int]@);
        }
        let ghost before = threads@;
        let n: usize = threads.len();
        assert(threads_of(before).len() == n);
        if n > 0 && same(&threads[n - 1].thread_id, &rows[i].thread_id) {
            assert(threads_of(before).last() == before[n - 1]@);
            let mut last: Conversation = match threads.pop() {
                Some(c) => c,
                None => Conversation::new(&rows[i], flags),
            };
            last.push(&rows[i], flags);
            let ghost grown = last@;
            threads.push(last);
            assert(threads_of(threads@) =~= threads_of(before).update(n - 1, grown));
        } else {
            proof {
                if n > 0 {
                    assert(threads_of(before).last() == before[n - 1]@);
                }
            }
            let c: Conversation = Conversation::new(&rows[i], flags);
            let ghost new = c@;
            threads.push(c);
            assert(threads_of(threads@) =~= threads_of(before).push(new));
        }
        i = i + 1;
    }
    assert(all.take(i as int) =~= all);
    threads
}

/// Everything in one mailbox, grouped into conversations, newest first.
#[must_use]
pub fn conversations(rows: &[Summary], flags: &BTreeMap<u32, Flags>) -> (r: Vec<Conversation>)
    ensures
        exists|unsorted: Seq<Conversation>|
            threads_of(unsorted) == gathered(rows_of(rows@), flags@) && r@ == #[trigger] sorted(
                unsorted,
            ),
        crate::order::in_order(r@),
        forall|i: int, j: int|
            0 <= i <= j < r@.len() ==> (#[trigger] r@[i]).date_ms >= (#[trigger] r@[j]).date_ms,
        rows@.len() > 0 ==> r@.len() > 0,
{
    let mut threads: Vec<Conversation> = gather(rows, flags);
    let ghost unsorted = threads@;
    sort(&mut threads);
    proof {
        assert(crate::order::orderly::<Conversation>());
        crate::order::sorting_keeps_everything_in_order(unsorted);
        let r = sorted(unsorted);
        assert forall|i: int, j: int| 0 <= i <= j < r.len() implies (#[trigger] r[i]).date_ms >= (
        #[trigger] r[j]).date_ms by {
            assert(r[i].before(r[j]));
        }
        if rows@.len() > 0 {
            lemma_gathered(rows_of(rows@), flags@);
            assert(threads_of(unsorted).len() == unsorted.len());
        }
    }
    threads
}

// ---- what conversations and rows are ----

proof fn lemma_gathered(rows: Seq<Row>, flags: Map<u32, Flags>)
    requires
        rows.len() > 0,
    ensures
        gathered(rows, flags).len() > 0,
        gathered(rows, flags).last().thread_id == rows.last().thread_id,
{
}

/// A row of the thread that the rows before it end with joins its conversation, which then
/// ends with it, is unread if it was or the message is, is flagged if it was or the message
/// is, and has attachments if it had or the message has; it is as new as the newest of them,
/// and shows the first line of that one. Nothing else changes.
pub proof fn a_row_joins_its_conversation(rows: Seq<Row>, row: Row, flags: Map<u32, Flags>)
    requires
        rows.len() > 0,
        rows.last().thread_id == row.thread_id,
    ensures
        ({
            let before = gathered(rows, flags);
            let after = gathered(rows.push(row), flags);
            let was = before.last();
            let is = after.last();
            &&& before.len() > 0 && after.len() == before.len()
            &&& forall|i: int| 0 <= i < before.len() - 1 ==> #[trigger] after[i] == before[i]
            &&& is.thread_id == row.thread_id
            &&& is.uids == was.uids.push(row.uid)
            &&& is.unread == (was.unread || !flags.contains_key(row.uid) || !flags[row.uid].seen)
            &&& is.flagged == (was.flagged || (flags.contains_key(row.uid)
                && flags[row.uid].flagged))
            &&& is.has_attachments == (was.has_attachments || row.has_attachments)
            &&& is.date_ms == (if row.date_ms >= was.date_ms {
                row.date_ms
            } else {
                was.date_ms
            })
            &&& is.snippet == (if row.date_ms >= was.date_ms {
                row.snippet
            } else {
                was.snippet
            })
            &&& was.subject.len() > 0 ==> is.subject == was.subject
            &&& was.subject.len() == 0 ==> is.subject == row.subject_norm
            &&& was.participants.no_duplicates() ==> is.participants.no_duplicates()
            &&& is.participants.len() <= was.participants.len() + 1
            &&& forall|k: int|
                0 <= k < was.participants.len() ==> k < is.participants.len()
                    && #[trigger] is.participants[k] == was.participants[k]
            &&& row.from_name.len() > 0 ==> is.participants.contains(row.from_name)
            &&& row.from_name.len() == 0 && row.from_address.len() > 0 ==> is.participants.contains(
                row.from_address,
            )
        }),
{
    lemma_gathered(rows, flags);
    assert(rows.push(row).drop_last() =~= rows);
    assert(rows.push(row).last() == row);
    let was = gathered(rows, flags).last();
    let is = gathered(rows.push(row), flags).last();
    let who = shown(row.from_name, row.from_address);
    if who.len() > 0 && !was.participants.contains(who) {
        assert(is.participants[was.participants.len() as int] == who);
    }
}

/// A row of another thread begins a conversation of its own, and leaves the others alone.
pub proof fn a_row_begins_a_conversation(rows: Seq<Row>, row: Row, flags: Map<u32, Flags>)
    requires
        rows.len() > 0 ==> rows.last().thread_id != row.thread_id,
    ensures
        ({
            let before = gathered(rows, flags);
            let after = gathered(rows.push(row), flags);
            let is = after.last();
            &&& after.len() == before.len() + 1
            &&& forall|i: int| 0 <= i < before.len() ==> #[trigger] after[i] == before[i]
            &&& is.thread_id == row.thread_id
            &&& is.uids == seq![row.uid]
            &&& is.subject == row.subject_norm
            &&& is.date_ms == row.date_ms
            &&& is.snippet == row.snippet
            &&& is.unread == (!flags.contains_key(row.uid) || !flags[row.uid].seen)
            &&& is.flagged == (flags.contains_key(row.uid) && flags[row.uid].flagged)
            &&& is.has_attachments == row.has_attachments
            &&& row.from_name.len() > 0 ==> is.participants == seq![row.from_name]
            &&& row.from_name.len() == 0 && row.from_address.len() > 0 ==> is.participants == seq![
                row.from_address,
            ]
        }),
{
    if rows.len() > 0 {
        lemma_gathered(rows, flags);
    }
    assert(rows.push(row).drop_last() =~= rows);
    assert(rows.push(row).last() == row);
    let none = Seq::<Seq<char>>::empty();
    assert(Seq::<u32>::empty().push(row.uid) =~= seq![row.uid]);
    assert(none.push(row.from_name) =~= seq![row.from_name]);
    assert(none.push(row.from_address) =~= seq![row.from_address]);
}

/// The UIDs of conversations, one after another.
pub open spec fn all_uids(threads: Seq<Thread>) -> Seq<u32>
    decreases threads.len(),
{
    if threads.len() == 0 {
        Seq::empty()
    } else {
        all_uids(threads.drop_last()) + threads.last().uids
    }
}

/// Every message is in one conversation, in the order of the rows: none is lost and none is
/// listed twice.
pub proof fn every_message_is_in_one_conversation(rows: Seq<Row>, flags: Map<u32, Flags>)
    ensures
        all_uids(gathered(rows, flags)) == rows.map_values(|r: Row| r.uid),
    decreases rows.len(),
{
    let f = |r: Row| r.uid;
    let after = gathered(rows, flags);
    if rows.len() > 0 {
        let t = rows.drop_last();
        let row = rows.last();
        let before = gathered(t, flags);
        every_message_is_in_one_conversation(t, flags);
        assert(rows.map_values(f) =~= t.map_values(f).push(row.uid));
        if before.len() > 0 && before.last().thread_id == row.thread_id {
            assert(after.drop_last() =~= before.drop_last());
            assert(all_uids(after) =~= all_uids(before).push(row.uid));
        } else {
            assert(after.drop_last() =~= before);
            assert(all_uids(after) =~= all_uids(before).push(row.uid));
        }
    } else {
        assert(rows.map_values(f) =~= Seq::<u32>::empty());
    }
}

/// A row says what its message says: who sent it, what it is about, when it was sent, and
/// whether it has an attachment that is not part of the body.
pub proof fn a_row_says_what_its_message_says(uid: u32, thread_id: Seq<char>, m: Shown)
    ensures
        ({
            let row = row_of(uid, thread_id, m);
            &&& row.uid == uid && row.thread_id == thread_id
            &&& row.subject == m.subject && row.subject_norm == m.subject_norm
            &&& m.message_id matches Some(id) ==> row.message_id == id
            &&& m.from.len() > 0 ==> row.from_address == m.from[0].address
            &&& m.from.len() > 0 && m.from[0].name is Some ==> row.from_name == m.from[0].name->0
            &&& m.from.len() > 0 && m.from[0].name is None ==> row.from_name.len() == 0
            &&& m.date matches Some(at) ==> (i64::MIN <= at * 1000 <= i64::MAX ==> row.date_ms == at
                * 1000)
            &&& row.has_attachments <==> exists|i: int|
                0 <= i < m.attachments.len() && !(#[trigger] m.attachments[i]).inline
        }),
{
}

proof fn lemma_said(s: Seq<char>)
    ensures
        trimmed(s).len() > 0 <==> exists|j: int| 0 <= j < s.len() && !white(#[trigger] s[j]),
{
    let n = run(s, Class::White, true) as int;
    lemma_run(s, Class::White, true);
    let f = drop_front(s, Class::White);
    lemma_back_run(f, Class::White);
    if exists|j: int| 0 <= j < s.len() && !white(#[trigger] s[j]) {
        let j = choose|j: int| 0 <= j < s.len() && !white(#[trigger] s[j]);
        assert(j >= n);
        assert(f[j - n] == s[j]);
    } else {
        if n < s.len() {
            assert(white(s[n]));
        }
    }
}

/// The preview of a text is its first line with something in it, up to two hundred
/// characters; and nothing where no line has.
pub proof fn a_preview_is_the_first_line(lines: Seq<Seq<char>>, at: int)
    requires
        0 <= at <= lines.len(),
        forall|i: int|
            0 <= i < lines.len() ==> !(#[trigger] lines[i]).contains('\n') && !lines[i].contains(
                '\r',
            ),
        forall|i: int, j: int|
            0 <= i < at && 0 <= j < lines[i].len() ==> white(#[trigger] lines[i][j]),
        at < lines.len() ==> exists|j: int| 0 <= j < lines[at].len() && !white(#[trigger] lines[at][j]),
    ensures
        at == lines.len() ==> preview(with_breaks(lines)).len() == 0,
        at < lines.len() && lines[at].len() <= 200 ==> preview(with_breaks(lines)) == lines[at],
        at < lines.len() && lines[at].len() > 200 ==> preview(with_breaks(lines))
            == lines[at].take(200),
{
    lemma_lines_back(lines);
    lemma_first_said(lines, at);
}

proof fn lemma_first_said(lines: Seq<Seq<char>>, at: int)
    requires
        0 <= at <= lines.len(),
        forall|i: int, j: int|
            0 <= i < at && 0 <= j < lines[i].len() ==> white(#[trigger] lines[i][j]),
        at < lines.len() ==> exists|j: int| 0 <= j < lines[at].len() && !white(#[trigger] lines[at][j]),
    ensures
        at == lines.len() ==> first_said(lines).len() == 0,
        at < lines.len() ==> first_said(lines) == lines[at],
    decreases at,
{
    if lines.len() > 0 {
        lemma_said(lines[0]);
        if at > 0 {
            assert(trimmed(lines[0]).len() == 0) by {
                if exists|j: int| 0 <= j < lines[0].len() && !white(#[trigger] lines[0][j]) {
                    let j = choose|j: int| 0 <= j < lines[0].len() && !white(#[trigger] lines[0][j]);
                    assert(white(lines[0][j]));
                }
            }
            let rest = lines.skip(1);
            assert forall|i: int, j: int|
                0 <= i < at - 1 && 0 <= j < rest[i].len() implies white(#[trigger] rest[i][j]) by {
                assert(rest[i][j] == lines[i + 1][j]);
            }
            if at < lines.len() {
                assert(rest[at - 1] == lines[at]);
                let j = choose|j: int| 0 <= j < lines[at].len() && !white(#[trigger] lines[at][j]);
                assert(!white(rest[at - 1][j]));
            }
            lemma_first_said(rest, at - 1);
        }
    }
}

} // verus!
