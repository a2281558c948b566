//! JMAP for Mail.
//!
//! `Email/get` is asked only for metadata plus `blobId`, and the message itself
//! is fetched from the download endpoint, which serves the original octets: a
//! message on disk is the bytes the server holds.

use std::collections::BTreeMap;

use vstd::prelude::*;

use crate::chars::{opt_str, opt_text, push_text, replace_of, replaced, same, texts, to_chars,
    to_text};
use crate::engine::{all_unknown, among, flags_known, held_flags, is_among, left_behind,
    left_behind_of, lemma_safely, no_counts, safely, Books, Counts, Ledger};
use crate::error::{Error, Result};
use crate::ids::{IdMap, Ids};
use crate::json::{field, field_in, fields, item, items, number, or_empty, render, rendered, strings,
    strings_in, strings_of, text, truth, Json};
use crate::model::Flags;
use crate::push::DrainOutcome;
use crate::store::{Contents, MailStore, RemoteMessage};
use crate::times::{rfc3339, rfc3339_ms};

verus! {

/// The core and mail capability URIs, sent with every request that uses them.
pub const CAP_CORE: &'static str = "urn:ietf:params:jmap:core";

pub const CAP_MAIL: &'static str = "urn:ietf:params:jmap:mail";

/// How many emails are asked for in one `Email/get`.
pub const GET_BATCH: usize = 100;

/// How many changes are asked for in one `Email/changes`.
pub const CHANGES_BATCH: usize = 500;

/// JMAP mailboxes are identified by string and never renumber.
pub const JMAP_UID_VALIDITY: u32 = 1;

/// The sidecar this engine keeps beside a maildir.
pub const STATE_FILE: &'static str = ".jmap-state.json";

// ---- what a server answers ----

/// The arguments of the first response.
pub open spec fn arguments(responses: Seq<Json>) -> Option<Json> {
    if responses.len() > 0 {
        item(responses[0], 1)
    } else {
        None
    }
}

fn arguments_of(responses: &[Json]) -> (r: Option<&Json>)
    ensures
        match r {
            Some(a) => arguments(responses@) == Some(*a),
            None => arguments(responses@) is None,
        },
{
    if responses.len() > 0 {
        responses[0].at(1)
    } else {
        None
    }
}

/// The `type` of a per-call error in a response list, if there is one.
pub open spec fn method_fault(responses: Seq<Json>) -> Option<Seq<char>>
    decreases responses.len(),
{
    if responses.len() == 0 {
        None
    } else if text(item(responses[0], 0)) == Some("error"@) {
        Some(
            match text(field_in(item(responses[0], 1), "type"@)) {
                Some(kind) => kind,
                None => "unknown"@,
            },
        )
    } else {
        method_fault(responses.skip(1))
    }
}

/// The `type` of a per-call error in a response list, if there is one.
#[must_use]
pub fn method_error(responses: &[Json]) -> (r: Option<String>)
    ensures
        opt_text(r) == method_fault(responses@),
{
    let mut i: usize = 0;
    assert(responses@.skip(0) =~= responses@);
    while i < responses.len()
        invariant
            i <= responses@.len(),
            method_fault(responses@) == method_fault(responses@.skip(i as int)),
        decreases responses@.len() - i,
    {
        assert(responses@.skip(i as int).skip(1) =~= responses@.skip(i + 1));
        let entry: &Json = &responses[i];
        let is_error: bool = match entry.at(0) {
            Some(Json::Str(s)) => same(s, "error"),
            _ => false,
        };
        if is_error {
            let kind: Option<&str> = match entry.at(1) {
                Some(args) => args.text_at("type"),
                None => None,
            };
            return Some(
                match kind {
                    Some(k) => k.to_owned(),
                    None => "unknown".to_owned(),
                },
            );
        }
        i = i + 1;
    }
    None
}

/// A per-call failure in a response list is a failure of the request, with the
/// server's reason.
pub fn accepted(responses: &[Json]) -> (r: Result<()>)
    ensures
        match r {
            Ok(()) => method_fault(responses@) is None,
            Err(Error::Jmap(m)) => method_fault(responses@) is Some && m@
                == "the server refused the request: "@ + method_fault(responses@)->0,
            Err(_) => false,
        },
{
    match method_error(responses) {
        None => Ok(()),
        Some(kind) => {
            let mut m: Vec<char> = to_chars("the server refused the request: ");
            push_text(&mut m, &kind);
            Err(Error::Jmap(to_text(&m)))
        },
    }
}

/// Is a key among these fields?
pub open spec fn has_key(m: Seq<(String, Json)>, key: Seq<char>) -> bool {
    exists|i: int| 0 <= i < m.len() && (#[trigger] m[i]).0@ == key
}

fn holds_key(m: &Vec<(String, Json)>, key: &str) -> (r: bool)
    ensures
        r == has_key(m@, key@),
{
    let mut i: usize = 0;
    while i < m.len()
        invariant
            i <= m@.len(),
            forall|j: int| 0 <= j < i ==> (#[trigger] m@[j]).0@ != key@,
        decreases m@.len() - i,
    {
        if same(&m[i].0, key) {
            assert(m@[i as int].0@ == key@);
            return true;
        }
        i = i + 1;
    }
    false
}

/// What an `Email/set` says of one object: nothing, or what went wrong.
pub open spec fn update_fault(responses: Seq<Json>, id: Seq<char>) -> Option<Seq<char>> {
    match arguments(responses) {
        None => Some("Email/set returned nothing"@),
        Some(args) => match field_in(field(args, "notUpdated"@), id) {
            Some(reason) => Some(
                "the server refused the change to "@ + id + ": "@ + rendered(reason),
            ),
            None => if fields(field(args, "updated"@)) is Some && has_key(
                fields(field(args, "updated"@))->0,
                id,
            ) {
                None
            } else {
                Some("the server acknowledged neither success nor failure for "@ + id)
            },
        },
    }
}

/// Checks that an `Email/set` actually did what it was asked, for one object.
///
/// Positive confirmation, not absence of an error: a response that mentions the
/// id neither in `updated` nor in `notUpdated` did nothing at all.
pub fn check_updated(responses: &[Json], id: &str) -> (r: Result<()>)
    ensures
        match r {
            Ok(()) => update_fault(responses@, id@) is None,
            Err(Error::Jmap(m)) => update_fault(responses@, id@) == Some(m@),
            Err(_) => false,
        },
{
    let args: &Json = match arguments_of(responses) {
        Some(a) => a,
        None => {
            return Err(Error::Jmap("Email/set returned nothing".to_owned()));
        },
    };
    let refused: Option<&Json> = match args.get("notUpdated") {
        Some(not) => not.get(id),
        None => None,
    };
    if let Some(reason) = refused {
        let mut m: Vec<char> = to_chars("the server refused the change to ");
        push_text(&mut m, id);
        push_text(&mut m, ": ");
        push_text(&mut m, &render(reason));
        return Err(Error::Jmap(to_text(&m)));
    }
    let confirmed: bool = match args.object_at("updated") {
        Some(updated) => holds_key(updated, id),
        None => false,
    };
    if confirmed {
        Ok(())
    } else {
        let mut m: Vec<char> = to_chars(
            "the server acknowledged neither success nor failure for ",
        );
        push_text(&mut m, id);
        Err(Error::Jmap(to_text(&m)))
    }
}

/// What an `Email/set` says of destroying one object.
pub open spec fn destroy_fault(responses: Seq<Json>, id: Seq<char>) -> Option<Seq<char>> {
    match arguments(responses) {
        None => Some("Email/set returned nothing"@),
        Some(args) => match field_in(field(args, "notDestroyed"@), id) {
            Some(reason) => Some(
                "the server refused to destroy "@ + id + ": "@ + rendered(reason),
            ),
            None => if strings_in(args, "destroyed"@).contains(id) {
                None
            } else {
                Some(
                    "the server acknowledged neither success nor failure for destroying "@ + id,
                )
            },
        },
    }
}

/// Checks that an `Email/set` actually destroyed an object.
pub fn check_destroyed(responses: &[Json], id: &str) -> (r: Result<()>)
    ensures
        match r {
            Ok(()) => destroy_fault(responses@, id@) is None,
            Err(Error::Jmap(m)) => destroy_fault(responses@, id@) == Some(m@),
            Err(_) => false,
        },
{
    let args: &Json = match arguments_of(responses) {
        Some(a) => a,
        None => {
            return Err(Error::Jmap("Email/set returned nothing".to_owned()));
        },
    };
    let refused: Option<&Json> = match args.get("notDestroyed") {
        Some(not) => not.get(id),
        None => None,
    };
    if let Some(reason) = refused {
        let mut m: Vec<char> = to_chars("the server refused to destroy ");
        push_text(&mut m, id);
        push_text(&mut m, ": ");
        push_text(&mut m, &render(reason));
        return Err(Error::Jmap(to_text(&m)));
    }
    let destroyed: Vec<String> = args.strings_at("destroyed");
    if is_among(&destroyed, id) {
        Ok(())
    } else {
        let mut m: Vec<char> = to_chars(
            "the server acknowledged neither success nor failure for destroying ",
        );
        push_text(&mut m, id);
        Err(Error::Jmap(to_text(&m)))
    }
}

/// The list under a key of the first response's arguments.
pub open spec fn listed_under(responses: Seq<Json>, key: Seq<char>) -> Option<Seq<Json>> {
    items(field_in(arguments(responses), key))
}

fn list_under<'a>(responses: &'a [Json], key: &str) -> (r: Option<&'a Vec<Json>>)
    ensures
        match r {
            Some(v) => listed_under(responses@, key@) == Some(v@),
            None => listed_under(responses@, key@) is None,
        },
{
    match arguments_of(responses) {
        Some(args) => args.array_at(key),
        None => None,
    }
}

/// A JMAP mailbox: the counterpart of an IMAP folder.
#[derive(Debug, Clone, PartialEq, Eq)]
pub struct JmapMailbox {
    pub id: String,
    pub name: String,
    /// `inbox`, `sent`, `drafts`, `trash`, `junk`, `archive`.
    pub role: Option<String>,
    pub total: u32,
    pub unread: u32,
}

pub struct MailboxText {
    pub id: Seq<char>,
    pub name: Seq<char>,
    pub role: Option<Seq<char>>,
    pub total: u32,
    pub unread: u32,
}

impl JmapMailbox {
    pub open spec fn view(&self) -> MailboxText {
        MailboxText {
            id: self.id@,
            name: self.name@,
            role: opt_text(self.role),
            total: self.total,
            unread: self.unread,
        }
    }
}

/// A count, as far as it fits.
pub open spec fn capped(n: Option<u64>) -> u32 {
    match n {
        Some(n) => if n > u32::MAX {
            u32::MAX
        } else {
            n as u32
        },
        None => 0,
    }
}

fn cap(n: Option<u64>) -> (r: u32)
    ensures
        r == capped(n),
{
    match n {
        Some(n) => if n > u32::MAX as u64 {
            u32::MAX
        } else {
            n as u32
        },
        None => 0,
    }
}

/// A mailbox from one entry of `Mailbox/get`; nothing, without an id or a name
/// field.
pub open spec fn mailbox_in(j: Json) -> Option<MailboxText> {
    match text(field(j, "id"@)) {
        Some(id) => match field(j, "name"@) {
            Some(name) => Some(
                MailboxText {
                    id,
                    name: or_empty(text(Some(name))),
                    role: text(field(j, "role"@)),
                    total: capped(number(field(j, "totalEmails"@))),
                    unread: capped(number(field(j, "unreadEmails"@))),
                },
            ),
            None => None,
        },
        None => None,
    }
}

fn owned(t: Option<&str>) -> (r: Option<String>)
    ensures
        opt_text(r) == opt_str(t),
{
    match t {
        Some(t) => Some(t.to_owned()),
        None => None,
    }
}

fn parse_mailbox(j: &Json) -> (r: Option<JmapMailbox>)
    ensures
        match r {
            Some(m) => mailbox_in(*j) == Some(m@),
            None => mailbox_in(*j) is None,
        },
{
    match (j.text_at("id"), j.get("name")) {
        (Some(id), Some(_)) => Some(
            JmapMailbox {
                id: id.to_owned(),
                name: j.text_or_empty("name"),
                role: owned(j.text_at("role")),
                total: cap(j.number_at("totalEmails")),
                unread: cap(j.number_at("unreadEmails")),
            },
        ),
        _ => None,
    }
}

pub open spec fn mailboxes_in(list: Seq<Json>) -> Seq<MailboxText>
    decreases list.len(),
{
    if list.len() == 0 {
        Seq::empty()
    } else {
        let front = mailboxes_in(list.drop_last());
        match mailbox_in(list.last()) {
            Some(m) => front.push(m),
            None => front,
        }
    }
}

pub open spec fn mailbox_views(v: Seq<JmapMailbox>) -> Seq<MailboxText> {
    v.map_values(|m: JmapMailbox| m@)
}

/// Every mailbox in a `Mailbox/get` response.
pub fn parse_mailboxes(responses: &[Json]) -> (r: Result<Vec<JmapMailbox>>)
    ensures
        match r {
            Ok(v) => listed_under(responses@, "list"@) is Some && mailbox_views(v@)
                == mailboxes_in(listed_under(responses@, "list"@)->0),
            Err(Error::Jmap(m)) => listed_under(responses@, "list"@) is None && m@
                == "Mailbox/get returned no list"@,
            Err(_) => false,
        },
{
    let list: &Vec<Json> = match list_under(responses, "list") {
        Some(l) => l,
        None => {
            return Err(Error::Jmap("Mailbox/get returned no list".to_owned()));
        },
    };
    let mut out: Vec<JmapMailbox> = Vec::new();
    let mut i: usize = 0;
    assert(list@.take(0) =~= Seq::<Json>::empty());
    assert(mailbox_views(out@) =~= Seq::<MailboxText>::empty());
    while i < list.len()
        invariant
            i <= list@.len(),
            mailbox_views(out@) == mailboxes_in(list@.take(i as int)),
        decreases list@.len() - i,
    {
        proof {
            assert(list@.take(i + 1).drop_last() =~= list@.take(i as int));
            assert(list@.take(i + 1).last() == list@[i as int]);
        }
        let ghost before = out@;
        if let Some(m) = parse_mailbox(&list[i]) {
            let ghost seen = m@;
            out.push(m);
            assert(mailbox_views(out@) =~= mailbox_views(before).push(seen));
        }
        i = i + 1;
    }
    assert(list@.take(i as int) =~= list@);
    Ok(out)
}

/// The ids in an `Email/query` response.
pub fn parse_ids(responses: &[Json]) -> (r: Result<Vec<String>>)
    ensures
        match r {
            Ok(v) => listed_under(responses@, "ids"@) is Some && texts(v@) == strings(
                listed_under(responses@, "ids"@)->0,
            ),
            Err(Error::Jmap(m)) => listed_under(responses@, "ids"@) is None && m@
                == "Email/query returned no ids"@,
            Err(_) => false,
        },
{
    match list_under(responses, "ids") {
        Some(list) => Ok(strings_of(list)),
        None => Err(Error::Jmap("Email/query returned no ids".to_owned())),
    }
}

/// The state string in an `Email/get` response.
pub fn parse_state(responses: &[Json]) -> (r: Result<String>)
    ensures
        match r {
            Ok(s) => text(field_in(arguments(responses@), "state"@)) == Some(s@),
            Err(Error::Jmap(m)) => text(field_in(arguments(responses@), "state"@)) is None && m@
                == "Email/get returned no state"@,
            Err(_) => false,
        },
{
    let state: Option<&str> = match arguments_of(responses) {
        Some(args) => args.text_at("state"),
        None => None,
    };
    match state {
        Some(s) => Ok(s.to_owned()),
        None => Err(Error::Jmap("Email/get returned no state".to_owned())),
    }
}

/// What changed in an account since a given state.
#[derive(Debug, Clone, PartialEq, Eq)]
pub struct Changes {
    pub created: Vec<String>,
    pub updated: Vec<String>,
    pub destroyed: Vec<String>,
    /// The state these changes bring the client up to.
    pub new_state: String,
    /// The server truncated the answer; ask again from `new_state`.
    pub has_more: bool,
}

pub struct ChangesText {
    pub created: Seq<Seq<char>>,
    pub updated: Seq<Seq<char>>,
    pub destroyed: Seq<Seq<char>>,
    pub new_state: Seq<char>,
    pub has_more: bool,
}

impl Changes {
    pub open spec fn view(&self) -> ChangesText {
        ChangesText {
            created: texts(self.created@),
            updated: texts(self.updated@),
            destroyed: texts(self.destroyed@),
            new_state: self.new_state@,
            has_more: self.has_more,
        }
    }
}

pub open spec fn no_changes() -> ChangesText {
    ChangesText {
        created: Seq::empty(),
        updated: Seq::empty(),
        destroyed: Seq::empty(),
        new_state: Seq::empty(),
        has_more: false,
    }
}

impl Default for Changes {
    fn default() -> (r: Self)
        ensures
            r@ == no_changes(),
    {
        let r: Changes = Changes {
            created: Vec::new(),
            updated: Vec::new(),
            destroyed: Vec::new(),
            new_state: String::new(),
            has_more: false,
        };
        proof {
            assert(texts(r.created@) =~= Seq::<Seq<char>>::empty());
            assert(r.new_state@ =~= Seq::<char>::empty());
        }
        r
    }
}

/// The changes in the arguments of an `Email/changes` response.
pub open spec fn changes_in(args: Json) -> ChangesText {
    ChangesText {
        created: strings_in(args, "created"@),
        updated: strings_in(args, "updated"@),
        destroyed: strings_in(args, "destroyed"@),
        new_state: or_empty(text(field(args, "newState"@))),
        has_more: truth(field(args, "hasMoreChanges"@)) == Some(true),
    }
}

/// What changed, from an `Email/changes` response.
///
/// `Ok(None)` means the server cannot answer: its history does not reach back
/// that far, which is a routine answer and not a failure.
pub fn parse_changes(responses: &[Json]) -> (r: Result<Option<Changes>>)
    ensures
        match r {
            Ok(None) => method_fault(responses@) == Some("cannotCalculateChanges"@),
            Ok(Some(c)) => method_fault(responses@) is None && arguments(responses@) is Some
                && c@ == changes_in(arguments(responses@)->0),
            Err(Error::Jmap(m)) => match method_fault(responses@) {
                Some(kind) => kind != "cannotCalculateChanges"@ && m@
                    == "Email/changes was refused: "@ + kind,
                None => arguments(responses@) is None && m@ == "Email/changes returned nothing"@,
            },
            Err(_) => false,
        },
{
    if let Some(kind) = method_error(responses) {
        if same(&kind, "cannotCalculateChanges") {
            return Ok(None);
        }
        let mut m: Vec<char> = to_chars("Email/changes was refused: ");
        push_text(&mut m, &kind);
        return Err(Error::Jmap(to_text(&m)));
    }
    match arguments_of(responses) {
        None => Err(Error::Jmap("Email/changes returned nothing".to_owned())),
        Some(args) => Ok(
            Some(
                Changes {
                    created: args.strings_at("created"),
                    updated: args.strings_at("updated"),
                    destroyed: args.strings_at("destroyed"),
                    new_state: args.text_or_empty("newState"),
                    has_more: match args.bool_at("hasMoreChanges") {
                        Some(b) => b,
                        None => false,
                    },
                },
            ),
        ),
    }
}

// ---- keywords ----

/// JMAP keywords as flags. JMAP has no keyword for a deleted message: a message
/// is in a mailbox or it is not.
pub open spec fn keyword_flags(keywords: Json) -> Flags {
    Flags {
        seen: truth(field(keywords, "$seen"@)) == Some(true),
        answered: truth(field(keywords, "$answered"@)) == Some(true),
        flagged: truth(field(keywords, "$flagged"@)) == Some(true),
        draft: truth(field(keywords, "$draft"@)) == Some(true),
        deleted: false,
        passed: truth(field(keywords, "$forwarded"@)) == Some(true),
    }
}

fn set_at(keywords: &Json, name: &str) -> (r: bool)
    ensures
        r == (truth(field(*keywords, name@)) == Some(true)),
{
    match keywords.bool_at(name) {
        Some(b) => b,
        None => false,
    }
}

/// JMAP keywords to flags.
#[must_use]
pub fn flags_of(keywords: &Json) -> (r: Flags)
    ensures
        r == keyword_flags(*keywords),
{
    Flags {
        seen: set_at(keywords, "$seen"),
        answered: set_at(keywords, "$answered"),
        flagged: set_at(keywords, "$flagged"),
        draft: set_at(keywords, "$draft"),
        deleted: false,
        passed: set_at(keywords, "$forwarded"),
    }
}

/// The fields of the keyword set for these flags.
pub open spec fn keywords_listed(flags: Flags) -> Seq<Seq<char>> {
    let a = if flags.seen {
        seq!["$seen"@]
    } else {
        Seq::empty()
    };
    let b = if flags.answered {
        a.push("$answered"@)
    } else {
        a
    };
    let c = if flags.flagged {
        b.push("$flagged"@)
    } else {
        b
    };
    let d = if flags.draft {
        c.push("$draft"@)
    } else {
        c
    };
    if flags.passed {
        d.push("$forwarded"@)
    } else {
        d
    }
}

pub open spec fn keys_of(m: Seq<(String, Json)>) -> Seq<Seq<char>> {
    m.map_values(|f: (String, Json)| f.0@)
}

fn push_true(m: &mut Vec<(String, Json)>, key: &str)
    requires
        forall|i: int| 0 <= i < old(m)@.len() ==> (#[trigger] old(m)@[i]).1 == Json::Bool(true),
    ensures
        keys_of(final(m)@) == keys_of(old(m)@).push(key@),
        forall|i: int|
            0 <= i < final(m)@.len() ==> (#[trigger] final(m)@[i]).1 == Json::Bool(true),
{
    let ghost before = m@;
    m.push((key.to_owned(), Json::Bool(true)));
    assert(keys_of(m@) =~= keys_of(before).push(key@));
}

/// Flags to JMAP keywords, as a set: every keyword named is true.
#[must_use]
pub fn keywords_of(flags: Flags) -> (r: Json)
    ensures
        r matches Json::Object(m) && keys_of(m@) == keywords_listed(flags) && forall|i: int|
            0 <= i < m@.len() ==> (#[trigger] m@[i]).1 == Json::Bool(true),
        keyword_flags(r) == (Flags { deleted: false, ..flags }),
{
    let mut m: Vec<(String, Json)> = Vec::new();
    assert(keys_of(m@) =~= Seq::<Seq<char>>::empty());
    if flags.seen {
        push_true(&mut m, "$seen");
        assert(keys_of(m@) =~= seq!["$seen"@]);
    }
    if flags.answered {
        push_true(&mut m, "$answered");
    }
    if flags.flagged {
        push_true(&mut m, "$flagged");
    }
    if flags.draft {
        push_true(&mut m, "$draft");
    }
    if flags.passed {
        push_true(&mut m, "$forwarded");
    }
    proof {
        lemma_keywords_listed(flags);
        lemma_all_true(m@, "$seen"@);
        lemma_all_true(m@, "$answered"@);
        lemma_all_true(m@, "$flagged"@);
        lemma_all_true(m@, "$draft"@);
        lemma_all_true(m@, "$forwarded"@);
    }
    Json::Object(m)
}

proof fn lemma_all_true(m: Seq<(String, Json)>, key: Seq<char>)
    requires
        forall|i: int| 0 <= i < m.len() ==> (#[trigger] m[i]).1 == Json::Bool(true),
    ensures
        (truth(crate::json::find_field(m, key)) == Some(true)) <==> keys_of(m).contains(key),
    decreases m.len(),
{
    if m.len() > 0 {
        assert(keys_of(m)[0] == m[0].0@);
        if m[0].0@ != key {
            let t = m.skip(1);
            assert forall|i: int| 0 <= i < t.len() implies (#[trigger] t[i]).1 == Json::Bool(
                true,
            ) by {
                assert(t[i] == m[i + 1]);
            }
            lemma_all_true(t, key);
            if keys_of(t).contains(key) {
                let i = choose|i: int| 0 <= i < keys_of(t).len() && keys_of(t)[i] == key;
                assert(keys_of(m)[i + 1] == key);
            }
            if keys_of(m).contains(key) {
                let i = choose|i: int| 0 <= i < keys_of(m).len() && keys_of(m)[i] == key;
                assert(keys_of(t)[i - 1] == key);
            }
        }
    }
}

proof fn lemma_keywords_listed(flags: Flags)
    ensures
        keywords_listed(flags).contains("$seen"@) <==> flags.seen,
        keywords_listed(flags).contains("$answered"@) <==> flags.answered,
        keywords_listed(flags).contains("$flagged"@) <==> flags.flagged,
        keywords_listed(flags).contains("$draft"@) <==> flags.draft,
        keywords_listed(flags).contains("$forwarded"@) <==> flags.passed,
{
    broadcast use vstd::seq_lib::group_seq_properties;

    reveal_strlit("$seen");
    reveal_strlit("$answered");
    reveal_strlit("$flagged");
    reveal_strlit("$draft");
    reveal_strlit("$forwarded");
    assert("$seen"@[1] == 's');
    assert("$answered"@[1] == 'a');
    assert("$flagged"@[2] == 'l');
    assert("$draft"@[1] == 'd');
    assert("$forwarded"@[2] == 'o');
    assert("$flagged"@[1] == 'f');
    assert("$forwarded"@[1] == 'f');
}

// ---- one email ----

/// One email's metadata. The bytes come separately.
#[derive(Debug, Clone, PartialEq, Eq)]
pub struct JmapEmail {
    pub id: String,
    pub blob_id: String,
    pub keywords: Flags,
    /// When the server received it, in epoch milliseconds.
    pub received_at_ms: i64,
    pub size: u64,
}

pub struct EmailText {
    pub id: Seq<char>,
    pub blob_id: Seq<char>,
    pub keywords: Flags,
    pub received_at_ms: i64,
    pub size: u64,
}

impl JmapEmail {
    pub open spec fn view(&self) -> EmailText {
        EmailText {
            id: self.id@,
            blob_id: self.blob_id@,
            keywords: self.keywords,
            received_at_ms: self.received_at_ms,
            size: self.size,
        }
    }
}

/// When an email was received; the epoch, where that cannot be read.
pub open spec fn received(j: Json) -> i64 {
    match text(field(j, "receivedAt"@)) {
        Some(t) => match rfc3339(t) {
            Some(ms) => ms as i64,
            None => 0,
        },
        None => 0,
    }
}

/// An email from one entry of `Email/get`; nothing, without an id or a blob.
pub open spec fn email_in(j: Json) -> Option<EmailText> {
    match (text(field(j, "id"@)), text(field(j, "blobId"@))) {
        (Some(id), Some(blob_id)) => Some(
            EmailText {
                id,
                blob_id,
                keywords: match field(j, "keywords"@) {
                    Some(k) => keyword_flags(k),
                    None => crate::model::no_flags(),
                },
                received_at_ms: received(j),
                size: match number(field(j, "size"@)) {
                    Some(n) => n,
                    None => 0,
                },
            },
        ),
        _ => None,
    }
}

/// An email from one entry of `Email/get`.
#[must_use]
pub fn parse_email(item: &Json) -> (r: Option<JmapEmail>)
    ensures
        match r {
            Some(e) => email_in(*item) == Some(e@),
            None => email_in(*item) is None,
        },
{
    match (item.text_at("id"), item.text_at("blobId")) {
        (Some(id), Some(blob_id)) => {
            let at: Option<i64> = match item.text_at("receivedAt") {
                Some(t) => rfc3339_ms(t),
                None => None,
            };
            Some(
                JmapEmail {
                    id: id.to_owned(),
                    blob_id: blob_id.to_owned(),
                    keywords: match item.get("keywords") {
                        Some(k) => flags_of(k),
                        None => Flags::default(),
                    },
                    received_at_ms: match at {
                        Some(ms) => ms,
                        None => 0,
                    },
                    size: match item.number_at("size") {
                        Some(n) => n,
                        None => 0,
                    },
                },
            )
        },
        _ => None,
    }
}

pub open spec fn emails_in(list: Seq<Json>) -> Seq<EmailText>
    decreases list.len(),
{
    if list.len() == 0 {
        Seq::empty()
    } else {
        let front = emails_in(list.drop_last());
        match email_in(list.last()) {
            Some(e) => front.push(e),
            None => front,
        }
    }
}

pub open spec fn email_views(v: Seq<JmapEmail>) -> Seq<EmailText> {
    v.map_values(|e: JmapEmail| e@)
}

/// Every email in an `Email/get` response.
pub fn parse_emails(responses: &[Json]) -> (r: Result<Vec<JmapEmail>>)
    ensures
        match r {
            Ok(v) => listed_under(responses@, "list"@) is Some && email_views(v@) == emails_in(
                listed_under(responses@, "list"@)->0,
            ),
            Err(Error::Jmap(m)) => listed_under(responses@, "list"@) is None && m@
                == "Email/get returned no list"@,
            Err(_) => false,
        },
{
    let list: &Vec<Json> = match list_under(responses, "list") {
        Some(l) => l,
        None => {
            return Err(Error::Jmap("Email/get returned no list".to_owned()));
        },
    };
    let mut out: Vec<JmapEmail> = Vec::new();
    let mut i: usize = 0;
    assert(list@.take(0) =~= Seq::<Json>::empty());
    assert(email_views(out@) =~= Seq::<EmailText>::empty());
    while i < list.len()
        invariant
            i <= list@.len(),
            email_views(out@) == emails_in(list@.take(i as int)),
        decreases list@.len() - i,
    {
        proof {
            assert(list@.take(i + 1).drop_last() =~= list@.take(i as int));
            assert(list@.take(i + 1).last() == list@[i as int]);
        }
        let ghost before = out@;
        if let Some(e) = parse_email(&list[i]) {
            let ghost seen = e@;
            out.push(e);
            assert(email_views(out@) =~= email_views(before).push(seen));
        }
        i = i + 1;
    }
    assert(list@.take(i as int) =~= list@);
    Ok(out)
}

/// An email with the mailboxes it is in.
#[derive(Debug)]
pub struct Member {
    pub email: JmapEmail,
    pub mailboxes: Vec<String>,
}

pub struct MemberText {
    pub email: EmailText,
    pub mailboxes: Seq<Seq<char>>,
}

impl Member {
    pub open spec fn view(&self) -> MemberText {
        MemberText { email: self.email@, mailboxes: texts(self.mailboxes@) }
    }
}

/// `mailboxIds` is a set: the keys whose value is true.
pub open spec fn true_keys(m: Seq<(String, Json)>) -> Seq<Seq<char>>
    decreases m.len(),
{
    if m.len() == 0 {
        Seq::empty()
    } else {
        let front = true_keys(m.drop_last());
        if m.last().1 == Json::Bool(true) {
            front.push(m.last().0@)
        } else {
            front
        }
    }
}

pub open spec fn member_in(j: Json) -> Option<MemberText> {
    match email_in(j) {
        Some(email) => Some(
            MemberText {
                email,
                mailboxes: match fields(field(j, "mailboxIds"@)) {
                    Some(m) => true_keys(m),
                    None => Seq::empty(),
                },
            },
        ),
        None => None,
    }
}

pub open spec fn members_in(list: Seq<Json>) -> Seq<MemberText>
    decreases list.len(),
{
    if list.len() == 0 {
        Seq::empty()
    } else {
        let front = members_in(list.drop_last());
        match member_in(list.last()) {
            Some(m) => front.push(m),
            None => front,
        }
    }
}

pub open spec fn member_views(v: Seq<Member>) -> Seq<MemberText> {
    v.map_values(|m: Member| m@)
}

fn true_keys_of(m: &Vec<(String, Json)>) -> (r: Vec<String>)
    ensures
        texts(r@) == true_keys(m@),
{
    let mut out: Vec<String> = Vec::new();
    let mut i: usize = 0;
    assert(m@.take(0) =~= Seq::<(String, Json)>::empty());
    assert(texts(out@) =~= Seq::<Seq<char>>::empty());
    while i < m.len()
        invariant
            i <= m@.len(),
            texts(out@) == true_keys(m@.take(i as int)),
        decreases m@.len() - i,
    {
        proof {
            assert(m@.take(i + 1).drop_last() =~= m@.take(i as int));
            assert(m@.take(i + 1).last() == m@[i as int]);
        }
        let ghost before = out@;
        if let Json::Bool(true) = &m[i].1 {
            out.push(m[i].0.clone());
            assert(texts(out@) =~= texts(before).push(m@[i as int].0@));
        }
        i = i + 1;
    }
    assert(m@.take(i as int) =~= m@);
    out
}

/// Every email of an `Email/get` response, with the mailboxes it is in.
pub fn parse_members(responses: &[Json]) -> (r: Result<Vec<Member>>)
    ensures
        match r {
            Ok(v) => listed_under(responses@, "list"@) is Some && member_views(v@) == members_in(
                listed_under(responses@, "list"@)->0,
            ),
            Err(Error::Jmap(m)) => listed_under(responses@, "list"@) is None && m@
                == "Email/get returned no list"@,
            Err(_) => false,
        },
{
    let list: &Vec<Json> = match list_under(responses, "list") {
        Some(l) => l,
        None => {
            return Err(Error::Jmap("Email/get returned no list".to_owned()));
        },
    };
    let mut out: Vec<Member> = Vec::new();
    let mut i: usize = 0;
    assert(list@.take(0) =~= Seq::<Json>::empty());
    assert(member_views(out@) =~= Seq::<MemberText>::empty());
    while i < list.len()
        invariant
            i <= list@.len(),
            member_views(out@) == members_in(list@.take(i as int)),
        decreases list@.len() - i,
    {
        proof {
            assert(list@.take(i + 1).drop_last() =~= list@.take(i as int));
            assert(list@.take(i + 1).last() == list@[i as int]);
        }
        let ghost before = out@;
        if let Some(email) = parse_email(&list[i]) {
            let mailboxes: Vec<String> = match list[i].object_at("mailboxIds") {
                Some(m) => true_keys_of(m),
                None => Vec::new(),
            };
            let m: Member = Member { email, mailboxes };
            let ghost seen = m@;
            proof {
                if fields(field(list@[i as int], "mailboxIds"@)) is None {
                    assert(texts(m.mailboxes@) =~= Seq::<Seq<char>>::empty());
                }
            }
            out.push(m);
            assert(member_views(out@) =~= member_views(before).push(seen));
        }
        i = i + 1;
    }
    assert(list@.take(i as int) =~= list@);
    Ok(out)
}

/// The download endpoint's URL for a blob, from the server's template.
pub open spec fn blob_url(template: Seq<char>, account_id: Seq<char>, blob_id: Seq<char>) -> Seq<
    char,
> {
    replaced(
        replaced(
            replaced(replaced(template, "{accountId}"@, account_id), "{blobId}"@, blob_id),
            "{type}"@,
            "application/octet-stream"@,
        ),
        "{name}"@,
        "message.eml"@,
    )
}

#[must_use]
pub fn download_url(template: &str, account_id: &str, blob_id: &str) -> (r: String)
    ensures
        r@ == blob_url(template@, account_id@, blob_id@),
{
    let a: Vec<char> = replace_of(&to_chars(template), "{accountId}", &to_chars(account_id));
    let b: Vec<char> = replace_of(&a, "{blobId}", &to_chars(blob_id));
    let c: Vec<char> = replace_of(&b, "{type}", &to_chars("application/octet-stream"));
    to_text(&replace_of(&c, "{name}", &to_chars("message.eml")))
}

// ---- what is remembered between passes ----

/// What JMAP has to remember between passes.
#[derive(Debug)]
pub struct JmapState {
    ids: IdMap,
    /// The account's email state this mailbox has been brought up to. Absent
    /// means that the next pass is a full one.
    email_state: Option<String>,
}

impl JmapState {
    pub closed spec fn wf(&self) -> bool {
        self.ids.wf()
    }

    pub closed spec fn ids(&self) -> Ids {
        self.ids@
    }

    pub closed spec fn era(&self) -> Option<Seq<char>> {
        opt_text(self.email_state)
    }

    /// A state that was kept.
    #[must_use]
    pub fn restored(
        seen: Vec<(String, u32)>,
        next_uid: u32,
        email_state: Option<String>,
    ) -> (r: Self)
        ensures
            r.wf(),
            r.ids() == (Ids { uids: crate::ids::as_map(seen@), next: next_uid }),
            r.era() == opt_text(email_state),
    {
        JmapState { ids: IdMap::restored(seen, next_uid), email_state }
    }

    /// Every id with its number, to be kept.
    #[must_use]
    pub fn entries(&self) -> (r: &Vec<(String, u32)>)
        ensures
            crate::ids::as_map(r@) == self.ids().uids,
    {
        self.ids.entries()
    }

    #[must_use]
    pub fn next_uid(&self) -> (r: u32)
        ensures
            r == self.ids().next,
    {
        self.ids.next_uid()
    }

    /// The local UID for a server id, if it has one.
    #[must_use]
    pub fn uid_of(&self, id: &str) -> (r: Option<u32>)
        requires
            self.wf(),
        ensures
            r == self.ids().uid_of(id@),
    {
        self.ids.uid_of(id)
    }

    /// The server id behind a local UID.
    #[must_use]
    pub fn id_of(&self, uid: u32) -> (r: Option<&str>)
        requires
            self.wf(),
        ensures
            opt_str(r) == self.ids().id_of(uid),
    {
        self.ids.id_of(uid)
    }

    /// The local UID for a server id, given out now if it is new.
    pub fn uid_for(&mut self, id: &str) -> (r: u32)
        requires
            old(self).wf(),
        ensures
            final(self).wf(),
            r == old(self).ids().number_for(id@),
            final(self).ids() == old(self).ids().with(id@),
            final(self).era() == old(self).era(),
    {
        self.ids.uid_for(id)
    }

    pub fn forget(&mut self, id: &str)
        requires
            old(self).wf(),
        ensures
            final(self).wf(),
            final(self).ids() == old(self).ids().without(id@),
            final(self).era() == old(self).era(),
    {
        self.ids.forget(id)
    }

    /// The state this mailbox has been brought up to, if any.
    #[must_use]
    pub fn email_state(&self) -> (r: Option<&str>)
        ensures
            opt_str(r) == self.era(),
    {
        match &self.email_state {
            Some(s) => Some(s.as_str()),
            None => None,
        }
    }

    /// Discards the incremental era, so the next pass reads the mailbox in full.
    pub fn reset_era(&mut self)
        ensures
            final(self).wf() == old(self).wf(),
            final(self).ids() == old(self).ids(),
            final(self).era() is None,
    {
        self.email_state = None;
    }

    /// The server id a queued change is about. A UID with no id means the
    /// sidecar and the maildir have diverged, which only a full read resolves.
    pub fn id_for(&self, mailbox_id: &str, uid: u32) -> (r: Result<String>)
        requires
            self.wf(),
        ensures
            match r {
                Ok(id) => self.ids().id_of(uid) == Some(id@),
                Err(Error::UidValidityChanged { mailbox, had, now }) => self.ids().id_of(uid)
                    is None && mailbox@ == mailbox_id@ && had == uid && now == 0,
                Err(_) => false,
            },
    {
        match self.ids.id_of(uid) {
            Some(id) => Ok(id.to_owned()),
            None => Err(
                Error::UidValidityChanged { mailbox: mailbox_id.to_owned(), had: uid, now: 0 },
            ),
        }
    }
}

impl Default for JmapState {
    fn default() -> (r: Self)
        ensures
            r.wf(),
            r.ids() == (Ids { uids: Map::empty(), next: 0 }),
            r.era() is None,
    {
        JmapState { ids: IdMap::starting_at(0), email_state: None }
    }
}

/// What one JMAP pass did.
#[derive(Debug, Clone, PartialEq, Eq)]
pub struct JmapOutcome {
    pub fetched: usize,
    pub reflagged: usize,
    pub removed: usize,
    /// What the local writeback queue did before the pull ran.
    pub pushed: DrainOutcome,
}

// ---- one pass ----

/// What a pass is waiting for.
#[derive(Debug, Clone, Copy, PartialEq, Eq, Structural)]
pub enum Stage {
    /// What changed since the era's state.
    Changes,
    /// The emails that changed, with their mailboxes.
    Members,
    /// The bytes of an email that changed and is new here.
    MemberBlob,
    /// The account's current state, before the mailbox is read in full.
    State,
    /// The ids in the mailbox.
    Query,
    /// The emails in the mailbox.
    Emails,
    /// The bytes of an email in the mailbox that is not held.
    EmailBlob,
    Over,
}

/// What came back from the server.
#[derive(Debug)]
pub enum Event {
    /// What changed, or that the server cannot say.
    Changes(Option<Changes>),
    Members(Vec<Member>),
    State(String),
    Ids(Vec<String>),
    Emails(Vec<JmapEmail>),
    Blob(Vec<u8>),
}

/// What is to be asked next.
#[derive(Debug)]
pub enum Action {
    AskChanges(String),
    GetMembers(Vec<String>),
    AskState,
    /// The ids of the newest emails in the mailbox, at most this many.
    Query(usize),
    GetEmails(Vec<String>),
    /// The bytes of a blob.
    Download(String),
    Done,
}

pub enum Act {
    AskChanges(Seq<char>),
    GetMembers(Seq<Seq<char>>),
    AskState,
    Query(usize),
    GetEmails(Seq<Seq<char>>),
    Download(Seq<char>),
    Done,
}

impl Action {
    pub open spec fn view(&self) -> Act {
        match self {
            Action::AskChanges(s) => Act::AskChanges(s@),
            Action::GetMembers(ids) => Act::GetMembers(texts(ids@)),
            Action::AskState => Act::AskState,
            Action::Query(n) => Act::Query(*n),
            Action::GetEmails(ids) => Act::GetEmails(texts(ids@)),
            Action::Download(b) => Act::Download(b@),
            Action::Done => Act::Done,
        }
    }
}

/// One pass over one mailbox, after the queue was drained.
#[derive(Debug)]
pub struct Pass {
    pub mailbox_id: String,
    /// How many emails a full read asks for.
    pub limit: usize,
    pub ledger: Ledger,
    pub era: Option<String>,
    pub stage: Stage,
    /// What was held when the window or the read began.
    pub known: BTreeMap<u32, Flags>,
    pub changes: Changes,
    /// Ids whose metadata is still to be asked for.
    pub queue: Vec<String>,
    /// Emails that are still to be settled.
    pub members: Vec<Member>,
    pub emails: Vec<JmapEmail>,
    /// The number of the email whose bytes are being fetched.
    pub uid: u32,
    pub present: Vec<u32>,
    pub opened_at: String,
    /// How many ids a full read listed.
    pub listed: usize,
}

/// A pass, as contracts speak of it.
#[verifier::ext_equal]
pub struct Progress {
    pub mailbox_id: Seq<char>,
    pub limit: usize,
    pub ids: Ids,
    pub counts: Counts,
    pub era: Option<Seq<char>>,
    pub stage: Stage,
    pub known: Map<u32, Flags>,
    pub changes: ChangesText,
    pub queue: Seq<Seq<char>>,
    pub members: Seq<MemberText>,
    pub emails: Seq<EmailText>,
    pub uid: u32,
    pub present: Seq<u32>,
    pub opened_at: Seq<char>,
    pub listed: usize,
}

/// What one step of a pass comes to.
pub struct Moved {
    pub pass: Progress,
    pub contents: Contents,
    pub action: Act,
}

/// The ids asked for in the next request.
pub open spec fn batch(queue: Seq<Seq<char>>) -> Seq<Seq<char>> {
    if queue.len() <= GET_BATCH {
        queue
    } else {
        queue.take(GET_BATCH as int)
    }
}

impl Progress {
    pub open spec fn books(self, contents: Contents) -> Books {
        Books { ids: self.ids, counts: self.counts, contents }
    }

    pub open spec fn with(self, books: Books) -> Progress {
        Progress { ids: books.ids, counts: books.counts, ..self }
    }

    pub open spec fn waits(self, stage: Stage, contents: Contents, action: Act) -> Moved {
        Moved { pass: Progress { stage, ..self }, contents, action }
    }

    /// The store's cursor is committed, and the pass is over.
    pub open spec fn finished(self, contents: Contents) -> Moved {
        self.waits(
            Stage::Over,
            self.books(contents).committed(JMAP_UID_VALIDITY).contents,
            Act::Done,
        )
    }

    /// Everything in a window is applied: only then does the era advance to its
    /// state.
    pub open spec fn window_applied(self, contents: Contents) -> Moved {
        let b = self.books(contents).all_dropped(self.changes.destroyed);
        let next = Progress { era: Some(self.changes.new_state), ..self.with(b) };
        if self.changes.has_more {
            next.waits(Stage::Changes, b.contents, Act::AskChanges(self.changes.new_state))
        } else {
            next.finished(b.contents)
        }
    }

    /// The emails that changed are settled one by one, up to one that is new
    /// here and has to be downloaded.
    pub open spec fn members_next(self, contents: Contents) -> Moved
        decreases self.members.len(),
    {
        if self.members.len() > 0 {
            let m = self.members[0];
            let here = among(m.mailboxes, self.mailbox_id);
            if here && self.ids.uid_of(m.email.id) is None {
                self.waits(Stage::MemberBlob, contents, Act::Download(m.email.blob_id))
            } else {
                let b = self.books(contents).settled(
                    here,
                    m.email.id,
                    m.email.keywords,
                    self.known,
                );
                Progress { members: self.members.skip(1), ..self.with(b) }.members_next(b.contents)
            }
        } else if self.queue.len() > 0 {
            self.waits(Stage::Members, contents, Act::GetMembers(batch(self.queue)))
        } else {
            self.window_applied(contents)
        }
    }

    /// Is what a full read listed enough to tell what has left the mailbox? Not
    /// where nothing was listed while messages are held, and not where the list
    /// was cut off.
    pub open spec fn complete(self) -> bool {
        (self.listed > 0 || self.known.dom().len() == 0) && self.listed < self.limit
    }

    /// The mailbox was read in full.
    pub open spec fn read_in_full(self, contents: Contents) -> Moved {
        let b = if self.complete() {
            self.books(contents).swept(left_behind(self.known, self.present))
        } else {
            self.books(contents)
        };
        Progress { era: Some(self.opened_at), ..self.with(b) }.finished(b.contents)
    }

    /// The emails in the mailbox are settled one by one, up to one that is not
    /// held and has to be downloaded.
    pub open spec fn emails_next(self, contents: Contents) -> Moved
        decreases self.emails.len(),
    {
        if self.emails.len() > 0 {
            let e = self.emails[0];
            let uid = self.ids.number_for(e.id);
            let named = Progress {
                ids: self.ids.with(e.id),
                present: self.present.push(uid),
                ..self
            };
            if self.known.contains_key(uid) {
                let b = named.books(contents).reflagged(uid, e.keywords, self.known);
                Progress { emails: self.emails.skip(1), ..named.with(b) }.emails_next(b.contents)
            } else {
                Progress { uid, ..named }.waits(
                    Stage::EmailBlob,
                    contents,
                    Act::Download(e.blob_id),
                )
            }
        } else if self.queue.len() > 0 {
            self.waits(Stage::Emails, contents, Act::GetEmails(batch(self.queue)))
        } else {
            self.read_in_full(contents)
        }
    }

    /// The books with an email that is new here stored. It gets its number only
    /// now: one that could not be stored is still new.
    pub open spec fn member_stored(self, contents: Contents, raw: Seq<u8>) -> Books {
        let e = self.members[0].email;
        Books { ids: self.ids.with(e.id), ..self.books(contents) }.delivered(
            self.ids.number_for(e.id),
            e.keywords,
            raw,
            e.received_at_ms,
        )
    }

    /// The books with an email that a full read found stored.
    pub open spec fn email_stored(self, contents: Contents, raw: Seq<u8>) -> Books {
        let e = self.emails[0];
        self.books(contents).delivered(self.uid, e.keywords, raw, e.received_at_ms)
    }

    /// The books with the email that was asked for stored, if it arrived.
    pub open spec fn arrival(self, contents: Contents, event: Event) -> Option<Books> {
        match (self.stage, event) {
            (Stage::MemberBlob, Event::Blob(raw)) => Some(self.member_stored(contents, raw@)),
            _ => None,
        }
    }

    /// Is the mailbox being read in full, rather than by its changes?
    pub open spec fn reads_in_full(self) -> bool {
        self.stage is State || self.stage is Query || self.stage is Emails || self.stage
            is EmailBlob
    }

    /// A pass that could not take this event, and a store left so, replay their
    /// window: the era is what it was, and no email that changed got a number
    /// without being stored. A full read goes by what the store holds, whatever
    /// has a number.
    pub open spec fn replays(
        self,
        contents: Contents,
        event: Event,
        failed: Progress,
        left: Contents,
    ) -> bool {
        &&& failed.era == self.era
        &&& self.reads_in_full() || safely(self.books(contents), failed.books(left)) || (self.arrival(contents, event)
            is Some && safely(self.arrival(contents, event)->0, failed.books(left)))
    }

    /// Do the emails that changed stand as they are, up to one that has to be
    /// downloaded or to where more is asked for?
    pub open spec fn members_stand(self, contents: Contents) -> bool
        decreases self.members.len(),
    {
        if self.members.len() > 0 {
            let m = self.members[0];
            let here = among(m.mailboxes, self.mailbox_id);
            (here && self.ids.uid_of(m.email.id) is None) || (self.books(contents).stands(
                here,
                m.email.id,
                m.email.keywords,
                self.known,
            ) && Progress { members: self.members.skip(1), ..self }.members_stand(contents))
        } else {
            self.queue.len() > 0 || (self.changes.has_more && all_unknown(
                self.ids,
                self.changes.destroyed,
            ))
        }
    }

    /// Do the emails in the mailbox stand as they are, up to one that has to be
    /// downloaded or to where more is asked for?
    pub open spec fn emails_stand(self) -> bool
        decreases self.emails.len(),
    {
        if self.emails.len() > 0 {
            let e = self.emails[0];
            let uid = self.ids.number_for(e.id);
            !self.known.contains_key(uid) || (held_flags(self.known, uid) == Some(e.keywords)
                && Progress {
                ids: self.ids.with(e.id),
                present: self.present.push(uid),
                emails: self.emails.skip(1),
                ..self
            }.emails_stand())
        } else {
            self.queue.len() > 0
        }
    }

    /// Is this an event that asks nothing of the store? Such a step cannot fail.
    pub open spec fn asks_nothing(self, contents: Contents, event: Event) -> bool {
        match (self.stage, event) {
            (Stage::Changes, Event::Changes(None)) => true,
            (Stage::Members, Event::Members(members)) => Progress {
                members: member_views(members@),
                queue: self.queue.skip(batch(self.queue).len() as int),
                ..self
            }.members_stand(contents),
            (Stage::State, Event::State(_)) => true,
            (Stage::Emails, Event::Emails(emails)) => Progress {
                emails: email_views(emails@),
                queue: self.queue.skip(batch(self.queue).len() as int),
                ..self
            }.emails_stand(),
            _ => false,
        }
    }

    /// What an event comes to; nothing, if this is not what the pass is waiting
    /// for.
    pub open spec fn advanced(self, contents: Contents, event: Event) -> Option<Moved> {
        match (self.stage, event) {
            // The server's history does not reach back that far: the mailbox is
            // read as it is now, and counted anew.
            (Stage::Changes, Event::Changes(None)) => Some(
                Progress { era: None, counts: no_counts(), ..self }.waits(
                    Stage::State,
                    contents,
                    Act::AskState,
                ),
            ),
            // Created and updated are treated alike: an email moved into this
            // mailbox is reported as updated.
            (Stage::Changes, Event::Changes(Some(changes))) => Some(
                Progress {
                    changes: changes@,
                    queue: changes@.created + changes@.updated,
                    known: contents.entries,
                    members: Seq::empty(),
                    ..self
                }.members_next(contents),
            ),
            (Stage::Members, Event::Members(members)) => Some(
                Progress {
                    members: member_views(members@),
                    queue: self.queue.skip(batch(self.queue).len() as int),
                    ..self
                }.members_next(contents),
            ),
            (Stage::MemberBlob, Event::Blob(raw)) => if self.members.len() > 0 {
                let b = self.member_stored(contents, raw@);
                Some(
                    Progress { members: self.members.skip(1), ..self.with(b) }.members_next(
                        b.contents,
                    ),
                )
            } else {
                None
            },
            // Read before the query, so that a change landing during the pass is
            // caught by the next one.
            (Stage::State, Event::State(state)) => Some(
                Progress { opened_at: state@, ..self }.waits(
                    Stage::Query,
                    contents,
                    Act::Query(self.limit),
                ),
            ),
            (Stage::Query, Event::Ids(ids)) => Some(
                Progress {
                    queue: texts(ids@),
                    listed: ids@.len() as usize,
                    known: contents.entries,
                    present: Seq::empty(),
                    emails: Seq::empty(),
                    ..self
                }.emails_next(contents),
            ),
            (Stage::Emails, Event::Emails(emails)) => Some(
                Progress {
                    emails: email_views(emails@),
                    queue: self.queue.skip(batch(self.queue).len() as int),
                    ..self
                }.emails_next(contents),
            ),
            (Stage::EmailBlob, Event::Blob(raw)) => if self.emails.len() > 0 {
                let b = self.email_stored(contents, raw@);
                Some(
                    Progress { emails: self.emails.skip(1), ..self.with(b) }.emails_next(
                        b.contents,
                    ),
                )
            } else {
                None
            },
            _ => None,
        }
    }
}

fn batch_of(queue: &Vec<String>) -> (r: Vec<String>)
    ensures
        texts(r@) == batch(texts(queue@)),
{
    let mut out: Vec<String> = Vec::new();
    let mut i: usize = 0;
    while i < queue.len() && i < GET_BATCH
        invariant
            i <= queue@.len(),
            i <= GET_BATCH,
            out@.len() == i,
            forall|k: int| 0 <= k < i ==> (#[trigger] out@[k])@ == queue@[k]@,
        decreases queue@.len() - i,
    {
        out.push(queue[i].clone());
        i = i + 1;
    }
    assert(texts(out@) =~= batch(texts(queue@)));
    out
}

pub(crate) fn behind(queue: &Vec<String>, from: usize) -> (r: Vec<String>)
    requires
        from <= queue@.len(),
    ensures
        texts(r@) == texts(queue@).skip(from as int),
{
    let mut out: Vec<String> = Vec::new();
    let mut i: usize = from;
    while i < queue.len()
        invariant
            from <= i <= queue@.len(),
            out@.len() == i - from,
            forall|k: int| 0 <= k < i - from ==> (#[trigger] out@[k])@ == queue@[k + from]@,
        decreases queue@.len() - i,
    {
        out.push(queue[i].clone());
        i = i + 1;
    }
    assert(texts(out@) =~= texts(queue@).skip(from as int));
    out
}

fn both(a: &Vec<String>, b: &Vec<String>) -> (r: Vec<String>)
    ensures
        texts(r@) == texts(a@) + texts(b@),
{
    let mut out: Vec<String> = behind(a, 0);
    let ghost first = texts(out@);
    assert(first =~= texts(a@));
    let mut i: usize = 0;
    assert(texts(out@) =~= first + texts(b@).take(0));
    while i < b.len()
        invariant
            i <= b@.len(),
            texts(out@) == first + texts(b@).take(i as int),
        decreases b@.len() - i,
    {
        let ghost before = out@;
        out.push(b[i].clone());
        proof {
            assert(texts(out@) =~= texts(before).push(b@[i as int]@));
            assert(texts(b@).take(i + 1) =~= texts(b@).take(i as int).push(b@[i as int]@));
            assert(texts(out@) =~= first + texts(b@).take(i + 1));
        }
        i = i + 1;
    }
    assert(texts(b@).take(i as int) =~= texts(b@));
    out
}

impl Pass {
    pub open spec fn view(&self) -> Progress {
        Progress {
            mailbox_id: self.mailbox_id@,
            limit: self.limit,
            ids: self.ledger.ids@,
            counts: self.ledger.counts,
            era: opt_text(self.era),
            stage: self.stage,
            known: self.known@,
            changes: self.changes@,
            queue: texts(self.queue@),
            members: member_views(self.members@),
            emails: email_views(self.emails@),
            uid: self.uid,
            present: self.present@,
            opened_at: self.opened_at@,
            listed: self.listed,
        }
    }

    pub open spec fn wf(&self) -> bool {
        self.ledger.wf()
    }

    /// Begins a pass: incrementally, where there is a state to start from.
    pub fn open(state: JmapState, mailbox_id: &str, limit: usize) -> (r: (Pass, Action))
        requires
            state.wf(),
        ensures
            r.0.wf(),
            r.0@.mailbox_id == mailbox_id@,
            r.0@.limit == limit,
            r.0@.ids == state.ids(),
            r.0@.era == state.era(),
            r.0@.counts == no_counts(),
            match state.era() {
                Some(since) => r.0@.stage == Stage::Changes && r.1@ == Act::AskChanges(since),
                None => r.0@.stage == Stage::State && r.1@ == Act::AskState,
            },
    {
        let (stage, action): (Stage, Action) = match &state.email_state {
            Some(since) => (Stage::Changes, Action::AskChanges(since.clone())),
            None => (Stage::State, Action::AskState),
        };
        let pass: Pass = Pass {
            mailbox_id: mailbox_id.to_owned(),
            limit,
            ledger: Ledger { ids: state.ids, counts: Counts::default() },
            era: state.email_state,
            stage,
            known: BTreeMap::new(),
            changes: Changes::default(),
            queue: Vec::new(),
            members: Vec::new(),
            emails: Vec::new(),
            uid: 0,
            present: Vec::new(),
            opened_at: String::new(),
            listed: 0,
        };
        (pass, action)
    }

    /// What is remembered of a pass that is over, or that was given up, and what
    /// it did.
    pub fn close(self, pushed: DrainOutcome) -> (r: (JmapState, JmapOutcome))
        requires
            self.wf(),
        ensures
            r.0.wf(),
            r.0.ids() == self@.ids,
            r.0.era() == self@.era,
            r.1.fetched == self@.counts.fetched,
            r.1.reflagged == self@.counts.reflagged,
            r.1.removed == self@.counts.removed,
            r.1.pushed == pushed,
    {
        let outcome: JmapOutcome = JmapOutcome {
            fetched: self.ledger.counts.fetched,
            reflagged: self.ledger.counts.reflagged,
            removed: self.ledger.counts.removed,
            pushed,
        };
        (JmapState { ids: self.ledger.ids, email_state: self.era }, outcome)
    }

    /// Is this what is being waited for?
    fn awaits(&self, event: &Event) -> (r: bool)
        ensures
            forall|c: Contents| (#[trigger] self@.advanced(c, *event) is Some) == r,
    {
        assert(member_views(self.members@).len() == self.members@.len());
        assert(email_views(self.emails@).len() == self.emails@.len());
        match (self.stage, event) {
            (Stage::Changes, Event::Changes(_)) => true,
            (Stage::Members, Event::Members(_)) => true,
            (Stage::MemberBlob, Event::Blob(_)) => self.members.len() > 0,
            (Stage::State, Event::State(_)) => true,
            (Stage::Query, Event::Ids(_)) => true,
            (Stage::Emails, Event::Emails(_)) => true,
            (Stage::EmailBlob, Event::Blob(_)) => self.emails.len() > 0,
            _ => false,
        }
    }

    /// The next step of the pass, given what came back from the server. An event
    /// that the pass is not waiting for is refused. Where a step fails, the window
    /// is replayed by the pass that is opened next.
    pub fn advance<S: MailStore>(&mut self, store: &mut S, event: Event) -> (r: Result<Action>)
        requires
            old(self).wf(),
        ensures
            final(self).wf(),
            r matches Ok(action) ==> old(self)@.advanced(old(store).contents(), event) == Some(
                Moved { pass: final(self)@, contents: final(store).contents(), action: action@ },
            ),
            old(store).dependable() && old(self)@.advanced(old(store).contents(), event) is Some
                ==> r is Ok && final(store).dependable(),
            old(self)@.asks_nothing(old(store).contents(), event) ==> r is Ok,
            old(self)@.advanced(old(store).contents(), event) is None ==> r is Err
                && *final(self) == *old(self) && final(store).contents() == old(
                store,
            ).contents(),
            r is Err ==> old(self)@.replays(
                old(store).contents(),
                event,
                final(self)@,
                final(store).contents(),
            ),
            // A step that failed ends it: nothing that follows can go past what
            // could not be taken.
            r is Err && old(self)@.advanced(old(store).contents(), event) is Some
                ==> final(self)@.stage == Stage::Over,
    {
        let due: bool = self.awaits(&event);
        match self.step(store, event) {
            Ok(action) => Ok(action),
            Err(why) => {
                if due {
                    self.stage = Stage::Over;
                }
                Err(why)
            },
        }
    }

    #[verifier::rlimit(60)]
    fn step<S: MailStore>(&mut self, store: &mut S, event: Event) -> (r: Result<Action>)
        requires
            old(self).wf(),
        ensures
            final(self).wf(),
            r matches Ok(action) ==> old(self)@.advanced(old(store).contents(), event) == Some(
                Moved { pass: final(self)@, contents: final(store).contents(), action: action@ },
            ),
            old(store).dependable() && old(self)@.advanced(old(store).contents(), event) is Some
                ==> r is Ok && final(store).dependable(),
            old(self)@.asks_nothing(old(store).contents(), event) ==> r is Ok,
            old(self)@.advanced(old(store).contents(), event) is None ==> r is Err
                && *final(self) == *old(self) && final(store).contents() == old(
                store,
            ).contents(),
            r is Err ==> old(self)@.replays(
                old(store).contents(),
                event,
                final(self)@,
                final(store).contents(),
            ),
    {
        match (self.stage, event) {
            (Stage::Changes, Event::Changes(None)) => {
                self.era = None;
                self.ledger.counts = Counts::default();
                self.stage = Stage::State;
                Ok(Action::AskState)
            },
            (Stage::Changes, Event::Changes(Some(changes))) => {
                self.queue = both(&changes.created, &changes.updated);
                self.changes = changes;
                self.members = Vec::new();
                assert(member_views(self.members@) =~= Seq::<MemberText>::empty());
                match store.state() {
                    Ok(state) => {
                        self.known = state.entries;
                    },
                    Err(why) => {
                        return Err(why);
                    },
                }
                self.to_next_member(store)
            },
            (Stage::Members, Event::Members(members)) => {
                let asked: Vec<String> = batch_of(&self.queue);
                assert(texts(asked@).len() == asked@.len());
                assert(texts(self.queue@).len() == self.queue@.len());
                self.queue = behind(&self.queue, asked.len());
                self.members = members;
                self.to_next_member(store)
            },
            (Stage::MemberBlob, Event::Blob(raw)) => {
                assert(member_views(self.members@).len() == self.members@.len());
                if self.members.len() == 0 {
                    return Err(Error::Jmap("the pass is not waiting for that".to_owned()));
                }
                assert(member_views(self.members@)[0] == self.members@[0]@);
                let keywords: Flags = self.members[0].email.keywords;
                let received_ms: i64 = self.members[0].email.received_at_ms;
                match self.ledger.deliver_new(
                    store,
                    &self.members[0].email.id,
                    keywords,
                    raw,
                    received_ms,
                ) {
                    Ok(()) => {},
                    Err(why) => {
                        return Err(why);
                    },
                }
                let ghost before = self.members@;
                self.members.remove(0);
                assert(member_views(self.members@) =~= member_views(before).skip(1));
                self.to_next_member(store)
            },
            (Stage::State, Event::State(state)) => {
                self.opened_at = state;
                self.stage = Stage::Query;
                Ok(Action::Query(self.limit))
            },
            (Stage::Query, Event::Ids(ids)) => {
                self.listed = ids.len();
                self.queue = ids;
                self.present = Vec::new();
                self.emails = Vec::new();
                assert(email_views(self.emails@) =~= Seq::<EmailText>::empty());
                match store.state() {
                    Ok(state) => {
                        self.known = state.entries;
                    },
                    Err(why) => {
                        return Err(why);
                    },
                }
                self.to_next_email(store)
            },
            (Stage::Emails, Event::Emails(emails)) => {
                let asked: Vec<String> = batch_of(&self.queue);
                assert(texts(asked@).len() == asked@.len());
                assert(texts(self.queue@).len() == self.queue@.len());
                self.queue = behind(&self.queue, asked.len());
                self.emails = emails;
                self.to_next_email(store)
            },
            (Stage::EmailBlob, Event::Blob(raw)) => {
                assert(email_views(self.emails@).len() == self.emails@.len());
                if self.emails.len() == 0 {
                    return Err(Error::Jmap("the pass is not waiting for that".to_owned()));
                }
                assert(email_views(self.emails@)[0] == self.emails@[0]@);
                let message: RemoteMessage = RemoteMessage {
                    uid: self.uid,
                    flags: self.emails[0].keywords,
                    raw,
                    internal_date_ms: self.emails[0].received_at_ms,
                };
                match self.ledger.deliver(store, &message) {
                    Ok(()) => {},
                    Err(why) => {
                        return Err(why);
                    },
                }
                let ghost before = self.emails@;
                self.emails.remove(0);
                assert(email_views(self.emails@) =~= email_views(before).skip(1));
                self.to_next_email(store)
            },
            _ => Err(Error::Jmap("the pass is not waiting for that".to_owned())),
        }
    }

    fn to_next_member<S: MailStore>(&mut self, store: &mut S) -> (r: Result<Action>)
        requires
            old(self).wf(),
        ensures
            final(self).wf(),
            r matches Ok(action) ==> old(self)@.members_next(old(store).contents()) == (Moved {
                pass: final(self)@,
                contents: final(store).contents(),
                action: action@,
            }),
            r is Err ==> final(self)@.era == old(self)@.era && safely(
                old(self)@.books(old(store).contents()),
                final(self)@.books(final(store).contents()),
            ),
            old(store).dependable() ==> r is Ok && final(store).dependable(),
            old(self)@.members_stand(old(store).contents()) ==> r is Ok,
    {
        let ghost all = self@.members_next(store.contents());
        let ghost start = self@.books(store.contents());
        let ghost sure = store.dependable();
        let ghost idle = self@.members_stand(store.contents());
        while self.members.len() > 0
            invariant
                self.wf(),
                all == self@.members_next(store.contents()),
                all == old(self)@.members_next(old(store).contents()),
                start == old(self)@.books(old(store).contents()),
                safely(start, self@.books(store.contents())),
                self@.era == old(self)@.era,
                sure == old(store).dependable(),
                sure ==> store.dependable(),
                idle == old(self)@.members_stand(old(store).contents()),
                idle ==> self@.members_stand(store.contents()),
            decreases self.members@.len(),
        {
            let ghost here_at = self@;
            let ghost here_books = self@.books(store.contents());
            assert(member_views(self.members@)[0] == self.members@[0]@);
            let here: bool = is_among(&self.members[0].mailboxes, &self.mailbox_id);
            if here && self.ledger.ids.uid_of(&self.members[0].email.id).is_none() {
                self.stage = Stage::MemberBlob;
                return Ok(Action::Download(self.members[0].email.blob_id.clone()));
            }
            let m: Member = self.members.remove(0);
            assert(member_views(self.members@) =~= here_at.members.skip(1));
            let done: Result<()> = self.ledger.settle(
                store,
                here,
                &m.email.id,
                m.email.keywords,
                &self.known,
            );
            proof {
                lemma_safely(start, here_books, self@.books(store.contents()));
            }
            match done {
                Ok(()) => {},
                Err(why) => {
                    return Err(why);
                },
            }
        }
        assert(member_views(self.members@).len() == 0);
        assert(texts(self.queue@).len() == self.queue@.len());
        if self.queue.len() > 0 {
            self.stage = Stage::Members;
            return Ok(Action::GetMembers(batch_of(&self.queue)));
        }
        let ghost settled_books = self@.books(store.contents());
        let dropped: Result<()> = self.ledger.drop_ids(store, &self.changes.destroyed);
        proof {
            lemma_safely(start, settled_books, self@.books(store.contents()));
        }
        match dropped {
            Ok(()) => {},
            Err(why) => {
                return Err(why);
            },
        }
        let era: String = self.changes.new_state.clone();
        if self.changes.has_more {
            self.stage = Stage::Changes;
            self.era = Some(era);
            return Ok(Action::AskChanges(self.changes.new_state.clone()));
        }
        let ghost here_books = self@.books(store.contents());
        let done: Result<Action> = self.finish(store, era);
        proof {
            lemma_safely(start, here_books, self@.books(store.contents()));
        }
        done
    }

    fn to_next_email<S: MailStore>(&mut self, store: &mut S) -> (r: Result<Action>)
        requires
            old(self).wf(),
        ensures
            final(self).wf(),
            r matches Ok(action) ==> old(self)@.emails_next(old(store).contents()) == (Moved {
                pass: final(self)@,
                contents: final(store).contents(),
                action: action@,
            }),
            r is Err ==> final(self)@.era == old(self)@.era,
            old(store).dependable() ==> r is Ok && final(store).dependable(),
            old(self)@.emails_stand() ==> r is Ok,
    {
        let ghost all = self@.emails_next(store.contents());
        let ghost sure = store.dependable();
        let ghost idle = self@.emails_stand();
        while self.emails.len() > 0
            invariant
                self.wf(),
                all == self@.emails_next(store.contents()),
                all == old(self)@.emails_next(old(store).contents()),
                self@.era == old(self)@.era,
                sure == old(store).dependable(),
                sure ==> store.dependable(),
                idle == old(self)@.emails_stand(),
                idle ==> self@.emails_stand(),
            decreases self.emails@.len(),
        {
            let ghost here_at = self@;
            assert(email_views(self.emails@)[0] == self.emails@[0]@);
            let uid: u32 = self.ledger.ids.uid_for(&self.emails[0].id);
            self.present.push(uid);
            match flags_known(&self.known, uid) {
                Some(_) => {
                    let e: JmapEmail = self.emails.remove(0);
                    assert(email_views(self.emails@) =~= here_at.emails.skip(1));
                    match self.ledger.reflag(store, uid, e.keywords, &self.known) {
                        Ok(()) => {},
                        Err(why) => {
                            return Err(why);
                        },
                    }
                },
                None => {
                    self.uid = uid;
                    self.stage = Stage::EmailBlob;
                    return Ok(Action::Download(self.emails[0].blob_id.clone()));
                },
            }
        }
        assert(email_views(self.emails@).len() == 0);
        assert(texts(self.queue@).len() == self.queue@.len());
        if self.queue.len() > 0 {
            self.stage = Stage::Emails;
            return Ok(Action::GetEmails(batch_of(&self.queue)));
        }
        if (self.listed > 0 || self.known.len() == 0) && self.listed < self.limit {
            let gone: Vec<u32> = left_behind_of(&self.known, &self.present);
            match self.ledger.sweep(store, &gone) {
                Ok(()) => {},
                Err(why) => {
                    return Err(why);
                },
            }
        }
        self.finish(store, self.opened_at.clone())
    }

    /// Ends the pass: the store's cursor is committed, and only then does the era
    /// advance.
    fn finish<S: MailStore>(&mut self, store: &mut S, era: String) -> (r: Result<Action>)
        requires
            old(self).wf(),
        ensures
            final(self).wf(),
            r matches Ok(action) ==> (Progress { era: Some(era@), ..old(self)@ }).finished(
                old(store).contents(),
            ) == (Moved {
                pass: final(self)@,
                contents: final(store).contents(),
                action: action@,
            }),
            r is Err ==> final(self)@.era == old(self)@.era,
            safely(
                old(self)@.books(old(store).contents()),
                final(self)@.books(final(store).contents()),
            ),
            old(store).dependable() ==> r is Ok && final(store).dependable(),
    {
        match self.ledger.commit(store, JMAP_UID_VALIDITY) {
            Ok(()) => {},
            Err(why) => {
                return Err(why);
            },
        }
        self.era = Some(era);
        self.stage = Stage::Over;
        Ok(Action::Done)
    }
}

// ---- what holds of every pass ----

/// The era advances only once everything in its window is applied: until then a
/// step that is settling a window leaves it alone, and what it advances to is
/// the state the window was reported with.
pub proof fn the_era_advances_last(p: Progress, contents: Contents)
    ensures
        ({
            let m = p.members_next(contents);
            if m.action is Done || m.action is AskChanges {
                m.pass.era == Some(p.changes.new_state)
            } else {
                m.pass.era == p.era
            }
        }),
    decreases p.members.len(),
{
    if p.members.len() > 0 {
        let m = p.members[0];
        let here = among(m.mailboxes, p.mailbox_id);
        if !(here && p.ids.uid_of(m.email.id) is None) {
            let b = p.books(contents).settled(here, m.email.id, m.email.keywords, p.known);
            let next = Progress { members: p.members.skip(1), ..p.with(b) };
            the_era_advances_last(next, b.contents);
        }
    }
}

/// A full read that listed nothing while messages are held drops nothing, and
/// neither does one whose list was cut off at the limit.
pub proof fn an_incomplete_read_drops_nothing(p: Progress, contents: Contents)
    requires
        (p.listed == 0 && p.known.dom().len() > 0) || p.listed >= p.limit,
    ensures
        ({
            let m = p.read_in_full(contents);
            &&& m.contents.entries == contents.entries
            &&& m.contents.raws == contents.raws
            &&& m.contents.dates == contents.dates
            &&& m.pass.ids == p.ids
            &&& m.pass.counts == p.counts
        }),
{
}

/// A pass that is over, because it came to its end or because a step of it failed,
/// takes nothing more.
pub proof fn an_ended_pass_takes_nothing(p: Progress, contents: Contents, event: Event)
    requires
        p.stage == Stage::Over,
    ensures
        p.advanced(contents, event) is None,
{
}

/// A message that a failed pass could not store is still new to the next one: its
/// id has no number, so that it is fetched again.
pub proof fn what_was_not_stored_is_still_new(
    p: Progress,
    contents: Contents,
    event: Event,
    failed: Progress,
    left: Contents,
    id: Seq<char>,
)
    requires
        p.replays(contents, event, failed, left),
        !p.reads_in_full(),
        p.ids.uid_of(id) is None,
        !p.ids.uids.contains_value(p.ids.next),
        !left.raws.contains_key(p.ids.next),
    ensures
        failed.ids.uid_of(id) is None,
{
    if failed.ids.uids.contains_key(id) {
        let b = p.arrival(contents, event)->0;
        assert(b.ids.uids.contains_key(id));
        assert forall|other: Seq<char>| #[trigger]
            b.ids.uids.contains_key(other) && other != id implies b.ids.uids[other]
            != b.ids.uids[id] by {
            assert(p.ids.uids.contains_key(other));
        }
        assert(b.ids.alone(id));
    }
}

// ---- what a pass does with each email ----

/// The first of the emails that changed: one that is here and new is downloaded; any other
/// is settled, and the pass goes on with the rest. One that is held and still here then has
/// exactly the keywords the server gave for it; one that is held and not here is gone.
pub proof fn each_changed_email_is_settled(p: Progress, contents: Contents) -> (next: (
    Progress,
    Contents,
))
    requires
        p.members.len() > 0,
    ensures
        ({
            let m = p.members[0];
            let id = m.email.id;
            let here = m.mailboxes.contains(p.mailbox_id);
            let held = p.ids.uids.contains_key(id);
            let r = p.members_next(contents);
            let (q, c) = next;
            &&& here && !held ==> r.action == Act::Download(m.email.blob_id) && r.contents
                == contents && r.pass.members == p.members && r.pass.stage == Stage::MemberBlob
            &&& !(here && !held) ==> r == q.members_next(c) && q.members == p.members.skip(1)
                && q.queue == p.queue && q.changes == p.changes && q.known == p.known && q.era
                == p.era && q.mailbox_id == p.mailbox_id
            &&& here && held && contents.entries.contains_key(p.ids.uids[id])
                && p.known.contains_key(p.ids.uids[id]) && p.known[p.ids.uids[id]]
                == contents.entries[p.ids.uids[id]] ==> c.entries.contains_key(p.ids.uids[id])
                && c.entries[p.ids.uids[id]] == m.email.keywords && q.ids == p.ids
            &&& !here && held ==> !c.entries.contains_key(p.ids.uids[id]) && !c.raws.contains_key(
                p.ids.uids[id],
            ) && !q.ids.uids.contains_key(id)
            &&& !here && !held ==> c == contents && q.ids == p.ids && q.counts == p.counts
            &&& forall|uid: u32|
                !(held && uid == p.ids.uids[id]) ==> c.entries.contains_key(uid)
                    == contents.entries.contains_key(uid) && #[trigger] c.entries[uid]
                    == contents.entries[uid]
        }),
{
    let m = p.members[0];
    let here = m.mailboxes.contains(p.mailbox_id);
    let b = p.books(contents).settled(here, m.email.id, m.email.keywords, p.known);
    if here && !p.ids.uids.contains_key(m.email.id) {
        (p, contents)
    } else {
        (Progress { members: p.members.skip(1), ..p.with(b) }, b.contents)
    }
}

/// An email that is new here is stored once it has arrived, under a number of its own, with
/// its keywords, its bytes and its date; and the pass goes on with the rest.
pub proof fn a_new_email_is_stored(p: Progress, contents: Contents, raw: Vec<u8>) -> (next: (
    Progress,
    Contents,
))
    requires
        p.stage == Stage::MemberBlob,
        p.members.len() > 0,
        !p.ids.uids.contains_key(p.members[0].email.id),
    ensures
        ({
            let e = p.members[0].email;
            let uid = p.ids.next;
            let (q, c) = next;
            &&& p.advanced(contents, Event::Blob(raw)) == Some(q.members_next(c))
            &&& q.members == p.members.skip(1) && q.queue == p.queue && q.changes == p.changes
            &&& q.ids.uids.contains_key(e.id) && q.ids.uids[e.id] == uid
            &&& c.entries.contains_key(uid) && c.entries[uid] == e.keywords
            &&& c.raws.contains_key(uid) && c.raws[uid] == raw@
            &&& c.dates.contains_key(uid) && c.dates[uid] == e.received_at_ms
            &&& p.counts.fetched < usize::MAX ==> q.counts.fetched == p.counts.fetched + 1
            &&& forall|other: u32|
                other != uid ==> c.entries.contains_key(other) == contents.entries.contains_key(
                    other,
                ) && #[trigger] c.entries[other] == contents.entries[other]
        }),
{
    let b = p.member_stored(contents, raw@);
    (Progress { members: p.members.skip(1), ..p.with(b) }, b.contents)
}

/// With every email of a window settled and none left to ask for, what was destroyed is
/// gone; the era is the one the window was reported with, and if there is more to come it is
/// asked for from there.
pub proof fn a_window_ends_with_what_was_destroyed(p: Progress, contents: Contents, id: Seq<char>)
    requires
        p.members.len() == 0,
        p.queue.len() == 0,
    ensures
        ({
            let r = p.members_next(contents);
            &&& p.changes.destroyed.contains(id) && p.ids.uids.contains_key(id)
                ==> !r.contents.entries.contains_key(p.ids.uids[id])
                && !r.contents.raws.contains_key(p.ids.uids[id]) && !r.pass.ids.uids.contains_key(id)
            &&& !p.changes.destroyed.contains(id) ==> r.pass.ids.uids.contains_key(id)
                == p.ids.uids.contains_key(id)
            &&& r.pass.era == Some(p.changes.new_state)
            &&& p.changes.has_more ==> r.action == Act::AskChanges(p.changes.new_state)
            &&& !p.changes.has_more ==> r.action == Act::Done
        }),
{
    crate::engine::every_dropped_id_is_gone(p.books(contents), p.changes.destroyed, id);
}

/// The first of the emails that a full read lists: one that is not held is downloaded; one
/// that is has then exactly the keywords the server gave for it, and is present.
pub proof fn each_listed_email_is_settled(p: Progress, contents: Contents) -> (next: (
    Progress,
    Contents,
))
    requires
        p.emails.len() > 0,
    ensures
        ({
            let e = p.emails[0];
            let uid = if p.ids.uids.contains_key(e.id) {
                p.ids.uids[e.id]
            } else {
                p.ids.next
            };
            let r = p.emails_next(contents);
            let (q, c) = next;
            &&& !p.known.contains_key(uid) ==> r.action == Act::Download(e.blob_id) && r.contents
                == contents && r.pass.stage == Stage::EmailBlob && r.pass.uid == uid
                && r.pass.present == p.present.push(uid) && r.pass.emails == p.emails
            &&& p.known.contains_key(uid) ==> r == q.emails_next(c) && q.emails == p.emails.skip(1)
                && q.present == p.present.push(uid) && q.queue == p.queue && q.known == p.known
                && q.listed == p.listed && q.opened_at == p.opened_at
            &&& p.known.contains_key(uid) && contents.entries.contains_key(uid) && p.known[uid]
                == contents.entries[uid] ==> c.entries.contains_key(uid) && c.entries[uid]
                == e.keywords
            &&& forall|other: u32|
                other != uid ==> c.entries.contains_key(other) == contents.entries.contains_key(
                    other,
                ) && #[trigger] c.entries[other] == contents.entries[other]
        }),
{
    let e = p.emails[0];
    let uid = p.ids.number_for(e.id);
    let named = Progress { ids: p.ids.with(e.id), present: p.present.push(uid), ..p };
    if p.known.contains_key(uid) {
        let b = named.books(contents).reflagged(uid, e.keywords, p.known);
        (Progress { emails: p.emails.skip(1), ..named.with(b) }, b.contents)
    } else {
        (p, contents)
    }
}

/// A full read that listed everything drops what is held and was not listed, and keeps
/// everything else; it ends at the state it opened with.
pub proof fn a_full_read_drops_what_was_not_listed(p: Progress, contents: Contents, uid: u32)
    requires
        p.emails.len() == 0,
        p.queue.len() == 0,
    ensures
        ({
            let r = p.emails_next(contents);
            let all = (p.listed > 0 || p.known.dom().len() == 0) && p.listed < p.limit;
            &&& r.action == Act::Done && r.pass.era == Some(p.opened_at)
            &&& r.contents.entries.contains_key(uid) <==> contents.entries.contains_key(uid) && !(
            all && p.known.contains_key(uid) && !p.present.contains(uid))
            &&& r.contents.entries.contains_key(uid) ==> r.contents.entries[uid]
                == contents.entries[uid]
        }),
{
    crate::engine::who_is_left_behind(p.known, p.present, uid);
    crate::engine::every_swept_message_is_gone(
        p.books(contents),
        left_behind(p.known, p.present),
        uid,
    );
}

/// What a full read lists is what it works through, and what it is held against is what the
/// store holds; every email that changed is asked about.
pub proof fn nothing_listed_is_left_out(
    p: Progress,
    contents: Contents,
    ids: Vec<String>,
    changes: Changes,
)
    ensures
        p.stage == Stage::Query ==> ({
            let m = p.advanced(contents, Event::Ids(ids))->0;
            &&& p.advanced(contents, Event::Ids(ids)) is Some
            &&& texts(ids@).len() > 0 ==> m.pass.queue == texts(ids@) && m.pass.known
                == contents.entries && m.pass.present.len() == 0 && (m.action matches
                Act::GetEmails(asked) && 0 < asked.len() <= texts(ids@).len() && asked == texts(
                ids@,
            ).take(asked.len() as int))
        }),
        p.stage == Stage::Changes ==> ({
            let m = p.advanced(contents, Event::Changes(Some(changes)))->0;
            let touched = changes@.created + changes@.updated;
            &&& p.advanced(contents, Event::Changes(Some(changes))) is Some
            &&& touched.len() > 0 ==> m.pass.queue == touched && m.pass.known == contents.entries
                && m.pass.changes == changes@ && (m.action matches Act::GetMembers(asked) && 0
                < asked.len() <= touched.len() && asked == touched.take(asked.len() as int))
        }),
{
    let a = texts(ids@);
    let b = changes@.created + changes@.updated;
    assert(batch(a) =~= a.take(batch(a).len() as int));
    assert(batch(b) =~= b.take(batch(b).len() as int));
}

/// Keywords written for flags read back as them: every flag survives, but the mark of a
/// deletion, which JMAP does not have.
pub proof fn keywords_read_back(flags: Flags, keywords: Vec<(String, Json)>)
    requires
        forall|name: Seq<char>| #[trigger]
            keywords_listed(flags).contains(name) <==> truth(
                field(Json::Object(keywords), name),
            ) == Some(true),
    ensures
        ({
            let back = keyword_flags(Json::Object(keywords));
            &&& back.seen == flags.seen
            &&& back.answered == flags.answered
            &&& back.flagged == flags.flagged
            &&& back.draft == flags.draft
            &&& back.passed == flags.passed
            &&& !back.deleted
        }),
{
    let all = keywords_listed(flags);
    lemma_listed(flags, "$seen"@);
    lemma_listed(flags, "$answered"@);
    lemma_listed(flags, "$flagged"@);
    lemma_listed(flags, "$draft"@);
    lemma_listed(flags, "$forwarded"@);
    lemma_keywords_differ();
    assert(all.contains("$seen"@) <==> truth(field(Json::Object(keywords), "$seen"@)) == Some(true));
    assert(all.contains("$answered"@) <==> truth(field(Json::Object(keywords), "$answered"@)) == Some(
        true,
    ));
    assert(all.contains("$flagged"@) <==> truth(field(Json::Object(keywords), "$flagged"@)) == Some(
        true,
    ));
    assert(all.contains("$draft"@) <==> truth(field(Json::Object(keywords), "$draft"@)) == Some(
        true,
    ));
    assert(all.contains("$forwarded"@) <==> truth(field(Json::Object(keywords), "$forwarded"@))
        == Some(true));
}

proof fn lemma_keywords_differ()
    ensures
        "$seen"@ != "$answered"@ && "$seen"@ != "$flagged"@ && "$seen"@ != "$draft"@ && "$seen"@
            != "$forwarded"@,
        "$answered"@ != "$flagged"@ && "$answered"@ != "$draft"@ && "$answered"@ != "$forwarded"@,
        "$flagged"@ != "$draft"@ && "$flagged"@ != "$forwarded"@ && "$draft"@ != "$forwarded"@,
{
    reveal_strlit("$seen");
    reveal_strlit("$answered");
    reveal_strlit("$flagged");
    reveal_strlit("$draft");
    reveal_strlit("$forwarded");
    assert("$seen"@[1] == 's' && "$answered"@[1] == 'a' && "$flagged"@[1] == 'f' && "$draft"@[1]
        == 'd' && "$forwarded"@[1] == 'f');
    assert("$flagged"@[2] == 'l' && "$forwarded"@[2] == 'o');
}

proof fn lemma_listed(flags: Flags, name: Seq<char>)
    ensures
        keywords_listed(flags).contains(name) <==> (flags.seen && name == "$seen"@) || (
        flags.answered && name == "$answered"@) || (flags.flagged && name == "$flagged"@) || (
        flags.draft && name == "$draft"@) || (flags.passed && name == "$forwarded"@),
{
    let none = Seq::<Seq<char>>::empty();
    let a = if flags.seen {
        seq!["$seen"@]
    } else {
        none
    };
    let b = lemma_if_pushed(a, flags.answered, "$answered"@, name);
    let c = lemma_if_pushed(b, flags.flagged, "$flagged"@, name);
    let d = lemma_if_pushed(c, flags.draft, "$draft"@, name);
    let e = lemma_if_pushed(d, flags.passed, "$forwarded"@, name);
    assert(a.contains(name) <==> flags.seen && name == "$seen"@) by {
        if flags.seen {
            assert(a[0] == "$seen"@);
        }
    }
    assert(e == keywords_listed(flags));
}

proof fn lemma_if_pushed(s: Seq<Seq<char>>, set: bool, word: Seq<char>, name: Seq<char>) -> (r: Seq<
    Seq<char>,
>)
    ensures
        r == (if set {
            s.push(word)
        } else {
            s
        }),
        r.contains(name) <==> s.contains(name) || (set && name == word),
{
    let r = if set {
        s.push(word)
    } else {
        s
    };
    if set {
        if s.contains(name) {
            let k = choose|k: int| 0 <= k < s.len() && s[k] == name;
            assert(r[k] == name);
        }
        if name == word {
            assert(r[s.len() as int] == name);
        }
        if r.contains(name) {
            let k = choose|k: int| 0 <= k < r.len() && r[k] == name;
            if k < s.len() {
                assert(s[k] == name);
            }
        }
    }
    r
}

/// What keywords mean.
pub proof fn what_keywords_mean(keywords: Json)
    ensures
        keyword_flags(keywords).seen <==> field(keywords, "$seen"@) == Some(Json::Bool(true)),
        keyword_flags(keywords).answered <==> field(keywords, "$answered"@) == Some(
            Json::Bool(true),
        ),
        keyword_flags(keywords).flagged <==> field(keywords, "$flagged"@) == Some(Json::Bool(true)),
        keyword_flags(keywords).draft <==> field(keywords, "$draft"@) == Some(Json::Bool(true)),
        keyword_flags(keywords).passed <==> field(keywords, "$forwarded"@) == Some(
            Json::Bool(true),
        ),
        !keyword_flags(keywords).deleted,
{
}

/// Every entry of an answer that has an id and a blob is an email, with the keywords it
/// carries and the mailboxes it is in, and they come in the order they are listed in.
pub proof fn every_entry_is_an_email(
    list: Seq<Json>,
    j: Json,
    id: String,
    blob: String,
    mailboxes: Vec<(String, Json)>,
)
    requires
        field(j, "id"@) == Some(Json::Str(id)),
        field(j, "blobId"@) == Some(Json::Str(blob)),
    ensures
        ({
            let all = emails_in(list.push(j));
            let e = all.last();
            &&& all.len() == emails_in(list).len() + 1
            &&& all.drop_last() == emails_in(list)
            &&& e.id == id@ && e.blob_id == blob@
            &&& field(j, "keywords"@) matches Some(k) ==> e.keywords == keyword_flags(k)
            &&& field(j, "keywords"@) is None ==> !e.keywords.seen && !e.keywords.flagged
        }),
        ({
            let all = members_in(list.push(j));
            let m = all.last();
            &&& all.len() == members_in(list).len() + 1
            &&& all.drop_last() == members_in(list)
            &&& m.email == emails_in(list.push(j)).last()
            &&& field(j, "mailboxIds"@) == Some(Json::Object(mailboxes)) ==> forall|i: int|
                0 <= i < mailboxes@.len() && (#[trigger] mailboxes@[i]).1 == Json::Bool(true)
                    ==> m.mailboxes.contains(mailboxes@[i].0@)
        }),
{
    let more = list.push(j);
    assert(more.drop_last() =~= list);
    assert(more.last() == j);
    assert(emails_in(more).drop_last() =~= emails_in(list));
    assert(members_in(more).drop_last() =~= members_in(list));
    if field(j, "mailboxIds"@) == Some(Json::Object(mailboxes)) {
        assert forall|i: int|
            0 <= i < mailboxes@.len() && (#[trigger] mailboxes@[i]).1 == Json::Bool(
                true,
            ) implies members_in(more).last().mailboxes.contains(mailboxes@[i].0@) by {
            lemma_true_keys(mailboxes@, i);
        }
    }
}

proof fn lemma_true_keys(m: Seq<(String, Json)>, i: int)
    requires
        0 <= i < m.len(),
        m[i].1 == Json::Bool(true),
    ensures
        true_keys(m).contains(m[i].0@),
    decreases m.len(),
{
    let t = m.drop_last();
    let front = true_keys(t);
    let r = true_keys(m);
    if i < t.len() {
        assert(t[i] == m[i]);
        lemma_true_keys(t, i);
        let k = choose|k: int| 0 <= k < front.len() && front[k] == m[i].0@;
        assert(r[k] == front[k]);
    } else {
        assert(r[front.len() as int] == m[i].0@);
    }
}

/// A change is confirmed only where the server names the object among what it changed, and
/// not among what it did not change.
pub proof fn when_a_change_is_confirmed(responses: Seq<Json>, id: Seq<char>, args: Json)
    requires
        responses.len() > 0,
        item(responses[0], 1) == Some(args),
    ensures
        update_fault(responses, id) is None <==> field_in(field(args, "notUpdated"@), id) is None
            && (fields(field(args, "updated"@)) matches Some(m) && exists|i: int|
            0 <= i < m.len() && (#[trigger] m[i]).0@ == id),
        destroy_fault(responses, id) is None <==> field_in(
            field(args, "notDestroyed"@),
            id,
        ) is None && (items(field(args, "destroyed"@)) matches Some(v) && strings(v).contains(id)),
{
    assert(!Seq::<Seq<char>>::empty().contains(id));
}

/// Without an answer nothing is confirmed.
pub proof fn no_answer_confirms_nothing(id: Seq<char>)
    ensures
        update_fault(Seq::empty(), id) is Some,
        destroy_fault(Seq::empty(), id) is Some,
{
}

/// The first response that is an error is the error of the request.
pub proof fn the_first_error_counts(responses: Seq<Json>, k: int)
    requires
        0 <= k < responses.len(),
        text(item(responses[k], 0)) == Some("error"@),
        forall|i: int| 0 <= i < k ==> text(item(#[trigger] responses[i], 0)) != Some("error"@),
    ensures
        method_fault(responses) is Some,
        text(field_in(item(responses[k], 1), "type"@)) matches Some(kind) ==> method_fault(
            responses,
        ) == Some(kind),
    decreases k,
{
    if k > 0 {
        assert(text(item(responses[0], 0)) != Some("error"@));
        let t = responses.skip(1);
        assert forall|i: int| 0 <= i < k - 1 implies text(item(#[trigger] t[i], 0)) != Some(
            "error"@,
        ) by {
            assert(t[i] == responses[i + 1]);
        }
        the_first_error_counts(t, k - 1);
    }
}

/// What an entry says of an email: its id and blob, its flags, when it was received and how
/// large it is.
pub proof fn what_an_email_entry_says(j: Json)
    ensures
        email_in(j) is Some <==> text(field(j, "id"@)) is Some && text(field(j, "blobId"@)) is Some,
        email_in(j) matches Some(e) ==> {
            &&& Some(e.id) == text(field(j, "id"@))
            &&& Some(e.blob_id) == text(field(j, "blobId"@))
            &&& field(j, "keywords"@) matches Some(k) ==> e.keywords == keyword_flags(k)
            &&& number(field(j, "size"@)) matches Some(n) ==> e.size == n
            &&& text(field(j, "receivedAt"@)) matches Some(t) ==> (rfc3339(t) matches Some(ms)
                ==> e.received_at_ms == ms as i64)
        },
{
}

/// What an entry says of a mailbox.
pub proof fn what_a_mailbox_entry_says(j: Json)
    ensures
        mailbox_in(j) is Some <==> text(field(j, "id"@)) is Some && field(j, "name"@) is Some,
        mailbox_in(j) matches Some(m) ==> {
            &&& Some(m.id) == text(field(j, "id"@))
            &&& text(field(j, "name"@)) matches Some(name) ==> m.name == name
            &&& m.role == text(field(j, "role"@))
            &&& number(field(j, "totalEmails"@)) matches Some(n) ==> n <= u32::MAX ==> m.total == n
            &&& number(field(j, "unreadEmails"@)) matches Some(n) ==> n <= u32::MAX ==> m.unread
                == n
        },
{
}

/// What the answer to a question about changes says: which emails are new, changed and gone,
/// up to which state, and whether there is more.
pub proof fn what_changes_say(args: Json)
    ensures
        items(field(args, "created"@)) matches Some(v) ==> changes_in(args).created == strings(v),
        items(field(args, "updated"@)) matches Some(v) ==> changes_in(args).updated == strings(v),
        items(field(args, "destroyed"@)) matches Some(v) ==> changes_in(args).destroyed == strings(
            v,
        ),
        text(field(args, "newState"@)) matches Some(s) ==> changes_in(args).new_state == s,
        changes_in(args).has_more <==> field(args, "hasMoreChanges"@) == Some(Json::Bool(true)),
{
}

/// An email is in the mailboxes whose entry says so, and in no others.
pub proof fn which_mailboxes_an_email_is_in(m: Seq<(String, Json)>, id: Seq<char>)
    ensures
        true_keys(m).contains(id) <==> exists|i: int|
            0 <= i < m.len() && (#[trigger] m[i]).0@ == id && m[i].1 == Json::Bool(true),
    decreases m.len(),
{
    let all = true_keys(m);
    if m.len() > 0 {
        let rest = m.drop_last();
        which_mailboxes_an_email_is_in(rest, id);
        let front = true_keys(rest);
        if all.contains(id) {
            let k = choose|k: int| 0 <= k < all.len() && all[k] == id;
            if k < front.len() {
                assert(front[k] == id);
                let i = choose|i: int|
                    0 <= i < rest.len() && (#[trigger] rest[i]).0@ == id && rest[i].1
                        == Json::Bool(true);
                assert(m[i] == rest[i]);
            } else {
                assert(m[m.len() - 1].0@ == id);
            }
        }
        if exists|i: int|
            0 <= i < m.len() && (#[trigger] m[i]).0@ == id && m[i].1 == Json::Bool(true) {
            let i = choose|i: int|
                0 <= i < m.len() && (#[trigger] m[i]).0@ == id && m[i].1 == Json::Bool(true);
            if i < rest.len() {
                assert(rest[i] == m[i]);
                let k = choose|k: int| 0 <= k < front.len() && front[k] == id;
                assert(all[k] == id);
            } else {
                assert(all[all.len() - 1] == id);
            }
        }
    }
}

/// What an entry says of an email and the mailboxes it is in.
pub proof fn what_a_member_entry_says(j: Json)
    ensures
        member_in(j) is Some <==> email_in(j) is Some,
        member_in(j) matches Some(m) ==> Some(m.email) == email_in(j) && (match field(
            j,
            "mailboxIds"@,
        ) {
            Some(Json::Object(f)) => m.mailboxes == true_keys(f@),
            _ => m.mailboxes.len() == 0,
        }),
{
}

} // verus!
