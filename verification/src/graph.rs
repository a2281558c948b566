//! Microsoft Graph as a mail engine.
//!
//! The API is a change feed, one cursor per folder, and the content is fetched
//! as the server's own octets.
//!
//! A tombstone is not always a deletion: one whose reason is `changed` is a
//! property update wearing the tombstone shape, and treating it as a delete
//! drops updated mail. A stale cursor means "I cannot tell you what changed":
//! the folder's cursor is dropped and that folder alone is read again.

use std::collections::BTreeMap;

use vstd::prelude::*;

use crate::chars::{drop_back, drop_back_of, lower_of, lowered, opt_str, opt_text, push_text, same,
    to_chars, to_text, Class};
use crate::engine::{held_flags, lemma_safely, no_counts, safely, Books, Counts, Ledger};
use crate::error::{Error, Result};
use crate::folder::{Folder, SpecialUse};
use crate::http::{credentials_refused, is_success, refusal, refusal_text, success};
use crate::ids::{Ids, RemoteIds};
use crate::json::{field, field_in, items, number, or_empty, text, truth, Json};
use crate::model::Flags;
use crate::push::DrainOutcome;
use crate::sasl::Credentials;
use crate::smtp::{submission, submission_of, Outcome, Submission};
use crate::store::{Contents, MailStore};
use crate::times::{rfc3339, rfc3339_ms, zoneless, zoneless_ms};

verus! {

/// Graph's root. Every path below hangs off `/me`.
pub const BASE: &'static str = "https://graph.microsoft.com/v1.0";

/// The properties a delta page needs. The bytes come separately.
pub const DELTA_SELECT: &'static str = "id,isRead,flag,parentFolderId,receivedDateTime";

/// The sidecar this engine keeps beside a maildir.
pub const STATE_FILE: &'static str = ".graph-state.json";

/// Graph ids never renumber within a folder.
pub const GRAPH_UID_VALIDITY: u32 = 1;

// ---- folders ----

/// A Graph mail folder.
#[derive(Debug, Clone, PartialEq, Eq)]
pub struct GraphFolder {
    pub id: String,
    pub display_name: String,
    /// Exchange's own name for a special folder, lowercased.
    pub well_known: Option<String>,
    pub total: u32,
    pub unread: u32,
}

/// Exchange's well-known folder names, in the spelling Graph returns.
pub open spec fn well_known_slug(name: Seq<char>) -> Option<Seq<char>> {
    if name == "inbox"@ {
        Some("inbox"@)
    } else if name == "sentitems"@ {
        Some("sent"@)
    } else if name == "drafts"@ {
        Some("drafts"@)
    } else if name == "deleteditems"@ {
        Some("trash"@)
    } else if name == "junkemail"@ {
        Some("junk"@)
    } else if name == "archive"@ {
        Some("archive"@)
    } else {
        None
    }
}

/// Exchange's well-known folder names: a client that matches on display names
/// finds none of them in another language.
#[must_use]
pub fn slug_for_well_known(name: &str) -> (r: Option<&'static str>)
    ensures
        opt_str(r) == well_known_slug(name@),
{
    if same(name, "inbox") {
        Some("inbox")
    } else if same(name, "sentitems") {
        Some("sent")
    } else if same(name, "drafts") {
        Some("drafts")
    } else if same(name, "deleteditems") {
        Some("trash")
    } else if same(name, "junkemail") {
        Some("junk")
    } else if same(name, "archive") {
        Some("archive")
    } else {
        None
    }
}

impl GraphFolder {
    pub open spec fn slug_text(&self) -> Seq<char> {
        match self.well_known {
            Some(w) => match well_known_slug(w@) {
                Some(s) => s,
                None => self.display_name@,
            },
            None => self.display_name@,
        }
    }

    /// The maildir slug this folder maps to.
    #[must_use]
    pub fn slug(&self) -> (r: String)
        ensures
            r@ == self.slug_text(),
    {
        let known: Option<&'static str> = match &self.well_known {
            Some(w) => slug_for_well_known(w),
            None => None,
        };
        match known {
            Some(s) => s.to_owned(),
            None => self.display_name.clone(),
        }
    }
}

/// The role a maildir slug stands for.
pub open spec fn slug_role(slug: Seq<char>) -> Option<SpecialUse> {
    if slug == "inbox"@ {
        Some(SpecialUse::Inbox)
    } else if slug == "sent"@ {
        Some(SpecialUse::Sent)
    } else if slug == "drafts"@ {
        Some(SpecialUse::Drafts)
    } else if slug == "trash"@ {
        Some(SpecialUse::Trash)
    } else if slug == "junk"@ {
        Some(SpecialUse::Junk)
    } else if slug == "archive"@ {
        Some(SpecialUse::Archive)
    } else {
        None
    }
}

pub(crate) fn role_of_slug(slug: &str) -> (r: Option<SpecialUse>)
    ensures
        r == slug_role(slug@),
{
    if same(slug, "inbox") {
        Some(SpecialUse::Inbox)
    } else if same(slug, "sent") {
        Some(SpecialUse::Sent)
    } else if same(slug, "drafts") {
        Some(SpecialUse::Drafts)
    } else if same(slug, "trash") {
        Some(SpecialUse::Trash)
    } else if same(slug, "junk") {
        Some(SpecialUse::Junk)
    } else if same(slug, "archive") {
        Some(SpecialUse::Archive)
    } else {
        None
    }
}

/// The maildir a Graph folder maps onto, under the name its user gave it.
#[must_use]
pub fn folder_for(folder: &GraphFolder) -> (r: Folder)
    ensures
        r.wire_name@ == folder.id@,
        r.display_name@ == (if folder.display_name@.len() == 0 {
            folder.slug_text()
        } else {
            folder.display_name@
        }),
        r.delimiter == '/',
        r.special_use == slug_role(folder.slug_text()),
        !r.no_select,
{
    let slug: String = folder.slug();
    let special_use: Option<SpecialUse> = role_of_slug(&slug);
    Folder {
        wire_name: folder.id.clone(),
        display_name: if to_chars(&folder.display_name).len() == 0 {
            slug
        } else {
            folder.display_name.clone()
        },
        delimiter: '/',
        special_use,
        no_select: false,
    }
}

pub struct FolderText {
    pub id: Seq<char>,
    pub display_name: Seq<char>,
    pub well_known: Option<Seq<char>>,
    pub total: u32,
    pub unread: u32,
}

impl GraphFolder {
    pub open spec fn view(&self) -> FolderText {
        FolderText {
            id: self.id@,
            display_name: self.display_name@,
            well_known: opt_text(self.well_known),
            total: self.total,
            unread: self.unread,
        }
    }
}

/// The lower 32 bits of a count.
pub open spec fn low_bits(n: Option<u64>) -> u32 {
    match n {
        Some(n) => (n % 0x1_0000_0000) as u32,
        None => 0,
    }
}

fn low_bits_of(n: Option<u64>) -> (r: u32)
    ensures
        r == low_bits(n),
{
    match n {
        Some(n) => (n % 0x1_0000_0000) as u32,
        None => 0,
    }
}

/// A folder from one entry of a folder list; nothing, without an id.
pub open spec fn folder_in(j: Json) -> Option<FolderText> {
    match text(field(j, "id"@)) {
        Some(id) => Some(
            FolderText {
                id,
                display_name: or_empty(text(field(j, "displayName"@))),
                well_known: match text(field(j, "wellKnownName"@)) {
                    Some(w) => Some(lowered(w)),
                    None => None,
                },
                total: low_bits(number(field(j, "totalItemCount"@))),
                unread: low_bits(number(field(j, "unreadItemCount"@))),
            },
        ),
        None => None,
    }
}

fn parse_folder(j: &Json) -> (r: Option<GraphFolder>)
    ensures
        match r {
            Some(f) => folder_in(*j) == Some(f@),
            None => folder_in(*j) is None,
        },
{
    match j.text_at("id") {
        Some(id) => Some(
            GraphFolder {
                id: id.to_owned(),
                display_name: j.text_or_empty("displayName"),
                well_known: match j.text_at("wellKnownName") {
                    Some(w) => Some(to_text(&lower_of(&to_chars(w)))),
                    None => None,
                },
                total: low_bits_of(j.number_at("totalItemCount")),
                unread: low_bits_of(j.number_at("unreadItemCount")),
            },
        ),
        None => None,
    }
}

pub open spec fn folders_in(list: Seq<Json>) -> Seq<FolderText>
    decreases list.len(),
{
    if list.len() == 0 {
        Seq::empty()
    } else {
        let front = folders_in(list.drop_last());
        match folder_in(list.last()) {
            Some(f) => front.push(f),
            None => front,
        }
    }
}

/// Every folder on a page of them.
pub open spec fn folders_on(page: Json) -> Seq<FolderText> {
    match items(field(page, "value"@)) {
        Some(list) => folders_in(list),
        None => Seq::empty(),
    }
}

pub open spec fn folder_views(v: Seq<GraphFolder>) -> Seq<FolderText> {
    v.map_values(|f: GraphFolder| f@)
}

/// Every folder in a folder list; none, where there is no list.
#[must_use]
pub fn parse_folders(page: &Json) -> (r: Vec<GraphFolder>)
    ensures
        folder_views(r@) == folders_on(*page),
{
    let mut out: Vec<GraphFolder> = Vec::new();
    assert(folder_views(out@) =~= Seq::<FolderText>::empty());
    let list: &Vec<Json> = match page.array_at("value") {
        Some(l) => l,
        None => {
            return out;
        },
    };
    let mut i: usize = 0;
    assert(list@.take(0) =~= Seq::<Json>::empty());
    while i < list.len()
        invariant
            i <= list@.len(),
            folder_views(out@) == folders_in(list@.take(i as int)),
        decreases list@.len() - i,
    {
        proof {
            assert(list@.take(i + 1).drop_last() =~= list@.take(i as int));
            assert(list@.take(i + 1).last() == list@[i as int]);
        }
        let ghost before = out@;
        if let Some(f) = parse_folder(&list[i]) {
            let ghost seen = f@;
            out.push(f);
            assert(folder_views(out@) =~= folder_views(before).push(seen));
        }
        i = i + 1;
    }
    assert(list@.take(i as int) =~= list@);
    out
}

// ---- messages ----

/// One message as a delta page describes it.
#[derive(Debug, Clone, PartialEq, Eq)]
pub struct GraphMessage {
    pub id: String,
    pub flags: Flags,
    pub parent_folder_id: Option<String>,
    pub received_ms: i64,
}

pub struct MessageText {
    pub id: Seq<char>,
    pub flags: Flags,
    pub parent_folder_id: Option<Seq<char>>,
    pub received_ms: i64,
}

impl GraphMessage {
    pub open spec fn view(&self) -> MessageText {
        MessageText {
            id: self.id@,
            flags: self.flags,
            parent_folder_id: opt_text(self.parent_folder_id),
            received_ms: self.received_ms,
        }
    }
}

/// What a tombstone means.
#[derive(Debug, Clone, Copy, PartialEq, Eq, Structural)]
pub enum Removal {
    /// The message is gone.
    Deleted,
    /// A property changed and Exchange used the tombstone shape to say so.
    Changed,
}

pub open spec fn removal(reason: Option<Seq<char>>) -> Removal {
    if reason == Some("changed"@) {
        Removal::Changed
    } else {
        Removal::Deleted
    }
}

/// Classifies a tombstone's reason: an unspecified one is a real removal.
#[must_use]
pub fn classify_removal(reason: Option<&str>) -> (r: Removal)
    ensures
        r == removal(opt_str(reason)),
{
    match reason {
        Some(t) => if same(t, "changed") {
            Removal::Changed
        } else {
            Removal::Deleted
        },
        None => Removal::Deleted,
    }
}

pub open spec fn fractional() -> Seq<char> {
    "%Y-%m-%dT%H:%M:%S%.f"@
}

pub open spec fn whole() -> Seq<char> {
    "%Y-%m-%dT%H:%M:%S"@
}

/// Exchange's datetimes: RFC 3339, or one of two shapes without a zone, which
/// are UTC.
pub open spec fn exchange_time(t: Seq<char>) -> Option<int> {
    if rfc3339(t) is Some {
        rfc3339(t)
    } else if zoneless(t, fractional()) is Some {
        zoneless(t, fractional())
    } else {
        zoneless(t, whole())
    }
}

/// Exchange's datetimes, which are RFC 3339 except when they are not.
#[must_use]
pub fn parse_datetime_ms(text: &str) -> (r: Option<i64>)
    ensures
        match r {
            Some(ms) => exchange_time(text@) == Some(ms as int),
            None => exchange_time(text@) is None,
        },
{
    if let Some(ms) = rfc3339_ms(text) {
        return Some(ms);
    }
    if let Some(ms) = zoneless_ms(text, "%Y-%m-%dT%H:%M:%S%.f") {
        return Some(ms);
    }
    zoneless_ms(text, "%Y-%m-%dT%H:%M:%S")
}

/// Graph's read and flag state. Absent means read: Exchange omits it only on
/// objects that are not mail.
pub open spec fn state_flags(j: Json) -> Flags {
    Flags {
        seen: truth(field(j, "isRead"@)) != Some(false),
        flagged: text(field_in(field(j, "flag"@), "flagStatus"@)) == Some("flagged"@),
        draft: truth(field(j, "isDraft"@)) == Some(true),
        answered: false,
        deleted: false,
        passed: false,
    }
}

/// Graph's read and flag state as flags.
#[must_use]
pub fn flags_from(value: &Json) -> (r: Flags)
    ensures
        r == state_flags(*value),
{
    let status: Option<&str> = match value.get("flag") {
        Some(flag) => flag.text_at("flagStatus"),
        None => None,
    };
    Flags {
        seen: match value.bool_at("isRead") {
            Some(b) => b,
            None => true,
        },
        flagged: match status {
            Some(s) => same(s, "flagged"),
            None => false,
        },
        draft: match value.bool_at("isDraft") {
            Some(b) => b,
            None => false,
        },
        answered: false,
        deleted: false,
        passed: false,
    }
}

/// When a message was received; the epoch, where that cannot be read.
pub open spec fn received(j: Json) -> i64 {
    match text(field(j, "receivedDateTime"@)) {
        Some(t) => match exchange_time(t) {
            Some(ms) => ms as i64,
            None => 0,
        },
        None => 0,
    }
}

pub open spec fn message_in(j: Json) -> Option<MessageText> {
    match text(field(j, "id"@)) {
        Some(id) => Some(
            MessageText {
                id,
                flags: state_flags(j),
                parent_folder_id: text(field(j, "parentFolderId"@)),
                received_ms: received(j),
            },
        ),
        None => None,
    }
}

/// A message from one entry of a delta page; nothing, without an id.
#[must_use]
pub fn parse_message(value: &Json) -> (r: Option<GraphMessage>)
    ensures
        match r {
            Some(m) => message_in(*value) == Some(m@),
            None => message_in(*value) is None,
        },
{
    match value.text_at("id") {
        None => None,
        Some(id) => {
            let at: Option<i64> = match value.text_at("receivedDateTime") {
                Some(t) => parse_datetime_ms(t),
                None => None,
            };
            Some(
                GraphMessage {
                    id: id.to_owned(),
                    flags: flags_from(value),
                    parent_folder_id: match value.text_at("parentFolderId") {
                        Some(p) => Some(p.to_owned()),
                        None => None,
                    },
                    received_ms: match at {
                        Some(ms) => ms,
                        None => 0,
                    },
                },
            )
        },
    }
}

/// One entry of a delta page.
#[derive(Debug)]
pub enum Entry {
    /// Nothing that can be acted on.
    Unnamed,
    Removed { id: String, removal: Removal },
    Message(GraphMessage),
}

pub enum EntryText {
    Unnamed,
    Removed { id: Seq<char>, removal: Removal },
    Message(MessageText),
}

impl Entry {
    pub open spec fn view(&self) -> EntryText {
        match self {
            Entry::Unnamed => EntryText::Unnamed,
            Entry::Removed { id, removal } => EntryText::Removed { id: id@, removal: *removal },
            Entry::Message(m) => EntryText::Message(m@),
        }
    }
}

pub open spec fn entry_in(j: Json) -> EntryText {
    match text(field(j, "id"@)) {
        None => EntryText::Unnamed,
        Some(id) => match field(j, "@removed"@) {
            Some(tombstone) => EntryText::Removed {
                id,
                removal: removal(text(field(tombstone, "reason"@))),
            },
            None => EntryText::Message(message_in(j)->0),
        },
    }
}

fn parse_entry(j: &Json) -> (r: Entry)
    ensures
        r@ == entry_in(*j),
{
    let id: &str = match j.text_at("id") {
        Some(id) => id,
        None => {
            return Entry::Unnamed;
        },
    };
    if let Some(tombstone) = j.get("@removed") {
        return Entry::Removed {
            id: id.to_owned(),
            removal: classify_removal(tombstone.text_at("reason")),
        };
    }
    match parse_message(j) {
        Some(m) => Entry::Message(m),
        None => Entry::Unnamed,
    }
}

pub open spec fn entries_in(list: Seq<Json>) -> Seq<EntryText> {
    list.map_values(|j: Json| entry_in(j))
}

pub open spec fn entry_views(v: Seq<Entry>) -> Seq<EntryText> {
    v.map_values(|e: Entry| e@)
}

/// One page of a delta query.
#[derive(Debug)]
pub struct DeltaPage {
    pub entries: Vec<Entry>,
    /// More pages follow.
    pub next_link: Option<String>,
    /// The next pass's cursor.
    pub delta_link: Option<String>,
}

pub struct PageText {
    pub entries: Seq<EntryText>,
    pub next_link: Option<Seq<char>>,
    pub delta_link: Option<Seq<char>>,
}

impl DeltaPage {
    pub open spec fn view(&self) -> PageText {
        PageText {
            entries: entry_views(self.entries@),
            next_link: opt_text(self.next_link),
            delta_link: opt_text(self.delta_link),
        }
    }
}

pub open spec fn page_in(j: Json) -> PageText {
    PageText {
        entries: match items(field(j, "value"@)) {
            Some(list) => entries_in(list),
            None => Seq::empty(),
        },
        next_link: text(field(j, "@odata.nextLink"@)),
        delta_link: text(field(j, "@odata.deltaLink"@)),
    }
}

fn owned(t: Option<&str>) -> (r: Option<String>)
    ensures
        opt_text(r) == opt_str(t),
{
    match t {
        Some(t) => Some(t.to_owned()),
        None => None,
    }
}

/// A page of a delta query.
#[must_use]
pub fn parse_page(page: &Json) -> (r: DeltaPage)
    ensures
        r@ == page_in(*page),
{
    let mut entries: Vec<Entry> = Vec::new();
    assert(entry_views(entries@) =~= Seq::<EntryText>::empty());
    if let Some(list) = page.array_at("value") {
        let mut i: usize = 0;
        while i < list.len()
            invariant
                i <= list@.len(),
                entries@.len() == i,
                forall|k: int| 0 <= k < i ==> (#[trigger] entries@[k])@ == entry_in(list@[k]),
            decreases list@.len() - i,
        {
            entries.push(parse_entry(&list[i]));
            i = i + 1;
        }
        assert(entry_views(entries@) =~= entries_in(list@));
    }
    DeltaPage {
        entries,
        next_link: owned(page.text_at("@odata.nextLink")),
        delta_link: owned(page.text_at("@odata.deltaLink")),
    }
}

/// What the status of a delta page says: whether its cursor is stale, or why it
/// was refused.
pub fn delta_status(status: u16, body: &str) -> (r: Result<bool>)
    ensures
        match r {
            Ok(stale) => stale == (status == 404 || status == 410) && (stale || success(status)),
            Err(Error::Auth(m)) => !success(status) && credentials_refused(status) && m@
                == refusal("graph"@, status, "messages/delta"@, body@),
            Err(Error::Graph(m)) => !success(status) && status != 404 && status != 410
                && !credentials_refused(status) && m@ == refusal(
                "graph"@,
                status,
                "messages/delta"@,
                body@,
            ),
            Err(_) => false,
        },
{
    if status == 404 || status == 410 {
        return Ok(true);
    }
    if !is_success(status) {
        return Err(refuse(status, "messages/delta", body));
    }
    Ok(false)
}

/// Turns a status that is no success into the right kind of error.
#[must_use]
pub fn refuse(status: u16, what: &str, body: &str) -> (r: Error)
    ensures
        match r {
            Error::Auth(m) => credentials_refused(status) && m@ == refusal(
                "graph"@,
                status,
                what@,
                body@,
            ),
            Error::Graph(m) => !credentials_refused(status) && m@ == refusal(
                "graph"@,
                status,
                what@,
                body@,
            ),
            _ => false,
        },
{
    let m: String = refusal_text("graph", status, what, body);
    if status == 401 || status == 403 {
        Error::Auth(m)
    } else {
        Error::Graph(m)
    }
}

/// The `Authorization` header for these credentials. Graph takes a bearer token
/// only, and a password is refused rather than sent.
pub fn authorize(credentials: &Credentials) -> (r: Result<String>)
    ensures
        match r {
            Ok(header) => *credentials matches Credentials::OAuth2(token) && header@ == "Bearer "@
                + token@,
            Err(Error::Auth(m)) => *credentials is Password && m@
                == "Microsoft Graph takes an OAuth access token, not a password"@,
            Err(_) => false,
        },
{
    match credentials {
        Credentials::OAuth2(token) => {
            let mut out: Vec<char> = to_chars("Bearer ");
            push_text(&mut out, token);
            Ok(to_text(&out))
        },
        Credentials::Password(_) => Err(
            Error::Auth(
                "Microsoft Graph takes an OAuth access token, not a password".to_owned(),
            ),
        ),
    }
}

/// A root without the slashes behind it.
#[must_use]
pub fn trimmed_base(base: &str) -> (r: String)
    ensures
        r@ == drop_back(base@, Class::Is('/')),
{
    to_text(drop_back_of(&to_chars(base), Class::Is('/')))
}

/// The URL that opens a fresh delta era for a folder.
pub open spec fn delta_url(base: Seq<char>, folder_id: Seq<char>) -> Seq<char> {
    base + "/me/mailFolders/"@ + folder_id + "/messages/delta?$select="@ + DELTA_SELECT@
}

#[must_use]
pub fn delta_start(base: &str, folder_id: &str) -> (r: String)
    ensures
        r@ == delta_url(base@, folder_id@),
{
    let mut out: Vec<char> = to_chars(base);
    push_text(&mut out, "/me/mailFolders/");
    push_text(&mut out, folder_id);
    push_text(&mut out, "/messages/delta?$select=");
    push_text(&mut out, DELTA_SELECT);
    to_text(&out)
}

/// The change that sets read and flag state on a message.
#[must_use]
pub fn flags_patch(flags: Flags) -> (r: Json)
    ensures
        r matches Json::Object(m) && m@.len() == 2 && m@[0].0@ == "isRead"@ && m@[0].1
            == Json::Bool(flags.seen) && m@[1].0@ == "flag"@ && (m@[1].1 matches Json::Object(f)
            && f@.len() == 1 && f@[0].0@ == "flagStatus"@ && (f@[0].1 matches Json::Str(s) && s@
            == if flags.flagged {
            "flagged"@
        } else {
            "notFlagged"@
        })),
{
    let mut flag: Vec<(String, Json)> = Vec::new();
    flag.push(
        (
            "flagStatus".to_owned(),
            Json::Str(
                if flags.flagged {
                    "flagged".to_owned()
                } else {
                    "notFlagged".to_owned()
                },
            ),
        ),
    );
    let mut m: Vec<(String, Json)> = Vec::new();
    m.push(("isRead".to_owned(), Json::Bool(flags.seen)));
    m.push(("flag".to_owned(), Json::Object(flag)));
    Json::Object(m)
}

/// Is this the error for a move that does not say where the message is now?
pub open spec fn no_new_id(e: Error) -> bool {
    e matches Error::Graph(m) && m@ == "a move returned no new message id"@
}

/// The id a moved message has now: Exchange re-creates it in the destination.
pub fn moved_id(response: &Json) -> (r: Result<String>)
    ensures
        match r {
            Ok(id) => text(field(*response, "id"@)) == Some(id@),
            Err(e) => text(field(*response, "id"@)) is None && no_new_id(e),
        },
{
    match response.text_at("id") {
        Some(id) => Ok(id.to_owned()),
        None => Err(Error::Graph("a move returned no new message id".to_owned())),
    }
}

/// How a submission ended, from its status.
#[must_use]
pub fn submitted(status: u16, message: Vec<u8>, body: &str) -> (r: Outcome)
    ensures
        match (submission_of(status), r) {
            (Submission::Accepted, Outcome::Sent(bytes)) => bytes == message,
            (Submission::Refused, Outcome::NotSent(e)) => refused_as(e, status, "sendMail"@, body@),
            (Submission::Unclear, Outcome::Ambiguous(e)) => refused_as(
                e,
                status,
                "sendMail"@,
                body@,
            ),
            _ => false,
        },
{
    match submission(status) {
        Submission::Accepted => Outcome::Sent(message),
        Submission::Refused => Outcome::NotSent(refuse(status, "sendMail", body)),
        Submission::Unclear => Outcome::Ambiguous(refuse(status, "sendMail", body)),
    }
}

/// Is this the error for a status that is no success?
pub open spec fn refused_as(e: Error, status: u16, what: Seq<char>, body: Seq<char>) -> bool {
    match e {
        Error::Auth(m) => credentials_refused(status) && m@ == refusal(
            "graph"@,
            status,
            what,
            body,
        ),
        Error::Graph(m) => !credentials_refused(status) && m@ == refusal(
            "graph"@,
            status,
            what,
            body,
        ),
        _ => false,
    }
}

// ---- one pass ----

/// What one Graph pass did.
#[derive(Debug, Clone, PartialEq, Eq)]
pub struct GraphOutcome {
    pub fetched: usize,
    pub reflagged: usize,
    pub removed: usize,
    pub pushed: DrainOutcome,
    /// This folder was read from scratch.
    pub bootstrapped: bool,
}

/// What a pass is waiting for.
#[derive(Debug, Clone, Copy, PartialEq, Eq, Structural)]
pub enum Stage {
    Page,
    /// The bytes of a message that is not held.
    Raw,
    Over,
}

/// What came back from the server.
#[derive(Debug)]
pub enum Event {
    Page(DeltaPage),
    /// The cursor is stale.
    Expired,
    /// The octets of a message; nothing, if it was deleted in between.
    Raw(Option<Vec<u8>>),
}

/// What is to be asked next.
#[derive(Debug)]
pub enum Action {
    /// The page at this URL.
    Page(String),
    /// The octets of this message.
    Raw(String),
    Done,
}

pub enum Act {
    Page(Seq<char>),
    Raw(Seq<char>),
    Done,
}

impl Action {
    pub open spec fn view(&self) -> Act {
        match self {
            Action::Page(u) => Act::Page(u@),
            Action::Raw(id) => Act::Raw(id@),
            Action::Done => Act::Done,
        }
    }
}

/// One pass over one folder, after the queue was drained.
#[derive(Debug)]
pub struct Pass {
    /// The URL a fresh read of the folder starts from.
    pub start: String,
    pub ledger: Ledger,
    pub cursor: Option<String>,
    pub stage: Stage,
    pub from_scratch: bool,
    /// The cursor was stale, and the folder is being read again.
    pub again: bool,
    pub known: BTreeMap<u32, Flags>,
    /// Entries that are still to be settled.
    pub entries: Vec<Entry>,
    pub next_link: Option<String>,
    pub delta_link: Option<String>,
}

/// A pass, as contracts speak of it.
#[verifier::ext_equal]
pub struct Progress {
    pub start: Seq<char>,
    pub ids: Ids,
    pub counts: Counts,
    pub cursor: Option<Seq<char>>,
    pub stage: Stage,
    pub from_scratch: bool,
    pub again: bool,
    pub known: Map<u32, Flags>,
    pub entries: Seq<EntryText>,
    pub next_link: Option<Seq<char>>,
    pub delta_link: Option<Seq<char>>,
}

/// What one step of a pass comes to.
pub struct Moved {
    pub pass: Progress,
    pub contents: Contents,
    pub action: Act,
}

impl Progress {
    pub open spec fn books(self, contents: Contents) -> Books {
        Books { ids: self.ids, counts: self.counts, contents }
    }

    pub open spec fn with(self, books: Books) -> Progress {
        Progress { ids: books.ids, counts: books.counts, ..self }
    }

    pub open spec fn waits(self, stage: Stage, contents: Contents, action: Act) -> Moved {
        Moved { pass: Progress { stage, ..self }, contents, action }
    }

    pub open spec fn finished(self, contents: Contents) -> Moved {
        self.waits(
            Stage::Over,
            self.books(contents).committed(GRAPH_UID_VALIDITY).contents,
            Act::Done,
        )
    }

    /// A page is applied. Only with every page applied does the cursor advance;
    /// with neither link there is nothing to advance to.
    pub open spec fn page_applied(self, contents: Contents) -> Moved {
        match (self.next_link, self.delta_link) {
            (Some(next), _) => self.waits(Stage::Page, contents, Act::Page(next)),
            (None, Some(delta)) => Progress { cursor: Some(delta), ..self }.finished(contents),
            (None, None) => self.finished(contents),
        }
    }

    /// Entries are settled one by one, up to one that is not held and has to be
    /// downloaded.
    pub open spec fn entries_next(self, contents: Contents) -> Moved
        decreases self.entries.len(),
    {
        if self.entries.len() > 0 {
            let rest = Progress { entries: self.entries.skip(1), ..self };
            match self.entries[0] {
                EntryText::Unnamed => rest.entries_next(contents),
                EntryText::Removed { id, removal } => match removal {
                    Removal::Deleted => {
                        let b = self.books(contents).dropped(id);
                        rest.with(b).entries_next(b.contents)
                    },
                    Removal::Changed => rest.entries_next(contents),
                },
                EntryText::Message(m) => match self.ids.uid_of(m.id) {
                    Some(uid) => {
                        let b = self.books(contents).reflagged(uid, m.flags, self.known);
                        rest.with(b).entries_next(b.contents)
                    },
                    None => self.waits(Stage::Raw, contents, Act::Raw(m.id)),
                },
            }
        } else {
            self.page_applied(contents)
        }
    }

    /// The books with the message that was asked for stored, if it arrived.
    pub open spec fn arrival(self, contents: Contents, event: Event) -> Option<Books> {
        match (self.stage, event) {
            (Stage::Raw, Event::Raw(Some(bytes))) => if self.entries.len() > 0 && self.entries[0]
                is Message {
                let m = self.entries[0]->Message_0;
                Some(
                    Books { ids: self.ids.with(m.id), ..self.books(contents) }.delivered(
                        self.ids.number_for(m.id),
                        m.flags,
                        bytes@,
                        m.received_ms,
                    ),
                )
            } else {
                None
            },
            _ => None,
        }
    }

    /// A pass that could not take this event, and a store left so, replay their
    /// window: the cursor is where it was, and no message got a number without
    /// being stored.
    pub open spec fn replays(
        self,
        contents: Contents,
        event: Event,
        failed: Progress,
        left: Contents,
    ) -> bool {
        &&& failed.cursor == self.cursor
        &&& safely(self.books(contents), failed.books(left)) || (self.arrival(contents, event)
            is Some && safely(self.arrival(contents, event)->0, failed.books(left)))
    }

    /// Do the entries stand as they are, up to a message that has to be downloaded or
    /// to where another page is asked for?
    pub open spec fn entries_stand(self) -> bool
        decreases self.entries.len(),
    {
        if self.entries.len() > 0 {
            let rest = Progress { entries: self.entries.skip(1), ..self };
            match self.entries[0] {
                EntryText::Unnamed => rest.entries_stand(),
                EntryText::Removed { id, removal } => (removal is Changed || self.ids.uid_of(id)
                    is None) && rest.entries_stand(),
                EntryText::Message(m) => match self.ids.uid_of(m.id) {
                    Some(uid) => held_flags(self.known, uid) == Some(m.flags)
                        && rest.entries_stand(),
                    None => true,
                },
            }
        } else {
            self.next_link is Some
        }
    }

    /// Is this an event that asks nothing of the store? Such a step cannot fail.
    pub open spec fn asks_nothing(self, event: Event) -> bool {
        match (self.stage, event) {
            (Stage::Page, Event::Page(page)) => Progress {
                entries: page@.entries,
                next_link: page@.next_link,
                delta_link: page@.delta_link,
                ..self
            }.entries_stand(),
            (Stage::Raw, Event::Raw(None)) => self.entries.len() > 0 && self.entries[0] is Message
                && Progress { entries: self.entries.skip(1), ..self }.entries_stand(),
            _ => false,
        }
    }

    /// What an event comes to; nothing, if this is not what the pass is waiting
    /// for, or if a fresh query is itself reported as stale.
    pub open spec fn advanced(self, contents: Contents, event: Event) -> Option<Moved> {
        match (self.stage, event) {
            (Stage::Page, Event::Page(page)) => Some(
                Progress {
                    entries: page@.entries,
                    next_link: page@.next_link,
                    delta_link: page@.delta_link,
                    ..self
                }.entries_next(contents),
            ),
            (Stage::Page, Event::Expired) => if self.again {
                None
            } else {
                Some(
                    Progress {
                        cursor: None,
                        again: true,
                        counts: no_counts(),
                        known: contents.entries,
                        ..self
                    }.waits(Stage::Page, contents, Act::Page(self.start)),
                )
            },
            (Stage::Raw, Event::Raw(raw)) => if self.entries.len() > 0 && self.entries[0]
                is Message {
                let m = self.entries[0]->Message_0;
                let rest = Progress { entries: self.entries.skip(1), ..self };
                match raw {
                    None => Some(rest.entries_next(contents)),
                    Some(bytes) => {
                        let b = Books {
                            ids: self.ids.with(m.id),
                            ..self.books(contents)
                        }.delivered(self.ids.number_for(m.id), m.flags, bytes@, m.received_ms);
                        Some(rest.with(b).entries_next(b.contents))
                    },
                }
            } else {
                None
            },
            _ => None,
        }
    }
}

impl Pass {
    pub open spec fn view(&self) -> Progress {
        Progress {
            start: self.start@,
            ids: self.ledger.ids@,
            counts: self.ledger.counts,
            cursor: opt_text(self.cursor),
            stage: self.stage,
            from_scratch: self.from_scratch,
            again: self.again,
            known: self.known@,
            entries: entry_views(self.entries@),
            next_link: opt_text(self.next_link),
            delta_link: opt_text(self.delta_link),
        }
    }

    pub open spec fn wf(&self) -> bool {
        self.ledger.wf()
    }

    /// Begins a pass: from the cursor, or from the beginning of the feed, which
    /// lists every message.
    pub fn open<S: MailStore>(store: &S, state: RemoteIds, base: &str, folder_id: &str) -> (r:
        Result<(Pass, Action)>)
        requires
            state.wf(),
        ensures
            r matches Ok((pass, action)) ==> pass.wf() && pass@.start == delta_url(
                base@,
                folder_id@,
            ) && pass@.ids == state.ids() && pass@.cursor == state.at() && pass@.counts
                == no_counts() && pass@.stage == Stage::Page && pass@.from_scratch == (state.at()
                is None) && !pass@.again && pass@.known == store.contents().entries && action@
                == Act::Page(
                match state.at() {
                    Some(link) => link,
                    None => delta_url(base@, folder_id@),
                },
            ),
            store.dependable() ==> r is Ok,
    {
        let known = match store.state() {
            Ok(s) => s.entries,
            Err(why) => {
                return Err(why);
            },
        };
        let start: String = delta_start(base, folder_id);
        let (ids, cursor) = state.into_parts();
        let (url, from_scratch): (String, bool) = match &cursor {
            Some(link) => (link.clone(), false),
            None => (start.clone(), true),
        };
        Ok(
            (
                Pass {
                    start,
                    ledger: Ledger { ids, counts: Counts::default() },
                    cursor,
                    stage: Stage::Page,
                    from_scratch,
                    again: false,
                    known,
                    entries: Vec::new(),
                    next_link: None,
                    delta_link: None,
                },
                Action::Page(url),
            ),
        )
    }

    /// What is remembered of a pass that is over, or that was given up, and what
    /// it did.
    pub fn close(self, pushed: DrainOutcome) -> (r: (RemoteIds, GraphOutcome))
        requires
            self.wf(),
        ensures
            r.0.wf(),
            r.0.ids() == self@.ids,
            r.0.at() == self@.cursor,
            r.1.fetched == self@.counts.fetched,
            r.1.reflagged == self@.counts.reflagged,
            r.1.removed == self@.counts.removed,
            r.1.pushed == pushed,
            r.1.bootstrapped == (self@.from_scratch || self@.again),
    {
        let outcome: GraphOutcome = GraphOutcome {
            fetched: self.ledger.counts.fetched,
            reflagged: self.ledger.counts.reflagged,
            removed: self.ledger.counts.removed,
            pushed,
            bootstrapped: self.from_scratch || self.again,
        };
        (RemoteIds::from_parts(self.ledger.ids, self.cursor), outcome)
    }

    /// Is this what is being waited for?
    fn awaits(&self, event: &Event) -> (r: bool)
        ensures
            forall|c: Contents| (#[trigger] self@.advanced(c, *event) is Some) == r,
    {
        assert(entry_views(self.entries@).len() == self.entries@.len());
        match (self.stage, event) {
            (Stage::Page, Event::Page(_)) => true,
            (Stage::Page, Event::Expired) => !self.again,
            (Stage::Raw, Event::Raw(_)) => {
                if self.entries.len() == 0 {
                    return false;
                }
                assert(entry_views(self.entries@)[0] == self.entries@[0]@);
                match &self.entries[0] {
                    Entry::Message(_) => true,
                    _ => false,
                }
            },
            _ => false,
        }
    }

    /// The next step of the pass, given what came back from the server. Where it
    /// fails, the window is replayed by the pass that is opened next.
    pub fn advance<S: MailStore>(&mut self, store: &mut S, event: Event) -> (r: Result<Action>)
        requires
            old(self).wf(),
        ensures
            final(self).wf(),
            r matches Ok(action) ==> old(self)@.advanced(old(store).contents(), event) == Some(
                Moved { pass: final(self)@, contents: final(store).contents(), action: action@ },
            ),
            old(store).dependable() && old(self)@.advanced(old(store).contents(), event) is Some
                ==> r is Ok && final(store).dependable(),
            old(self)@.asks_nothing(event) ==> r is Ok,
            old(self)@.advanced(old(store).contents(), event) is None ==> r is Err
                && *final(self) == *old(self) && final(store).contents() == old(
                store,
            ).contents(),
            r is Err ==> old(self)@.replays(
                old(store).contents(),
                event,
                final(self)@,
                final(store).contents(),
            ),
            old(self)@.stage == Stage::Page && old(self)@.again && event is Expired ==> (r matches
                Err(Error::Graph(m)) && m@
                == "a fresh delta query was itself reported as expired"@),
            // A step that failed ends it: nothing that follows can go past what
            // could not be taken.
            r is Err && old(self)@.advanced(old(store).contents(), event) is Some
                ==> final(self)@.stage == Stage::Over,
    {
        let due: bool = self.awaits(&event);
        match self.step(store, event) {
            Ok(action) => Ok(action),
            Err(why) => {
                if due {
                    self.stage = Stage::Over;
                }
                Err(why)
            },
        }
    }

    fn step<S: MailStore>(&mut self, store: &mut S, event: Event) -> (r: Result<Action>)
        requires
            old(self).wf(),
        ensures
            final(self).wf(),
            r matches Ok(action) ==> old(self)@.advanced(old(store).contents(), event) == Some(
                Moved { pass: final(self)@, contents: final(store).contents(), action: action@ },
            ),
            old(store).dependable() && old(self)@.advanced(old(store).contents(), event) is Some
                ==> r is Ok && final(store).dependable(),
            old(self)@.asks_nothing(event) ==> r is Ok,
            old(self)@.advanced(old(store).contents(), event) is None ==> r is Err
                && *final(self) == *old(self) && final(store).contents() == old(
                store,
            ).contents(),
            r is Err ==> old(self)@.replays(
                old(store).contents(),
                event,
                final(self)@,
                final(store).contents(),
            ),
            old(self)@.stage == Stage::Page && old(self)@.again && event is Expired ==> (r matches
                Err(Error::Graph(m)) && m@
                == "a fresh delta query was itself reported as expired"@),
    {
        match (self.stage, event) {
            (Stage::Page, Event::Page(page)) => {
                self.entries = page.entries;
                self.next_link = page.next_link;
                self.delta_link = page.delta_link;
                self.to_next_entry(store)
            },
            (Stage::Page, Event::Expired) => {
                if self.again {
                    return Err(
                        Error::Graph(
                            "a fresh delta query was itself reported as expired".to_owned(),
                        ),
                    );
                }
                self.known = match store.state() {
                    Ok(s) => s.entries,
                    Err(why) => {
                        return Err(why);
                    },
                };
                self.cursor = None;
                self.again = true;
                self.ledger.counts = Counts::default();
                Ok(Action::Page(self.start.clone()))
            },
            (Stage::Raw, Event::Raw(raw)) => {
                assert(entry_views(self.entries@).len() == self.entries@.len());
                if self.entries.len() == 0 {
                    return Err(Error::Graph("the pass is not waiting for that".to_owned()));
                }
                let ghost before = self.entries@;
                assert(entry_views(before)[0] == before[0]@);
                match &self.entries[0] {
                    Entry::Message(m) => {
                        if let Some(bytes) = raw {
                            let flags: Flags = m.flags;
                            let arrived_ms: i64 = m.received_ms;
                            match self.ledger.deliver_new(store, &m.id, flags, bytes, arrived_ms) {
                                Ok(()) => {},
                                Err(why) => {
                                    return Err(why);
                                },
                            }
                        }
                    },
                    _ => {
                        return Err(Error::Graph("the pass is not waiting for that".to_owned()));
                    },
                }
                self.entries.remove(0);
                assert(entry_views(self.entries@) =~= entry_views(before).skip(1));
                self.to_next_entry(store)
            },
            _ => Err(Error::Graph("the pass is not waiting for that".to_owned())),
        }
    }

    fn to_next_entry<S: MailStore>(&mut self, store: &mut S) -> (r: Result<Action>)
        requires
            old(self).wf(),
        ensures
            final(self).wf(),
            r matches Ok(action) ==> old(self)@.entries_next(old(store).contents()) == (Moved {
                pass: final(self)@,
                contents: final(store).contents(),
                action: action@,
            }),
            r is Err ==> final(self)@.cursor == old(self)@.cursor && safely(
                old(self)@.books(old(store).contents()),
                final(self)@.books(final(store).contents()),
            ),
            old(store).dependable() ==> r is Ok && final(store).dependable(),
            old(self)@.entries_stand() ==> r is Ok,
    {
        let ghost all = self@.entries_next(store.contents());
        let ghost start = self@.books(store.contents());
        let ghost sure = store.dependable();
        let ghost idle = self@.entries_stand();
        while self.entries.len() > 0
            invariant
                self.wf(),
                all == self@.entries_next(store.contents()),
                all == old(self)@.entries_next(old(store).contents()),
                start == old(self)@.books(old(store).contents()),
                safely(start, self@.books(store.contents())),
                self@.cursor == old(self)@.cursor,
                sure == old(store).dependable(),
                sure ==> store.dependable(),
                idle == old(self)@.entries_stand(),
                idle ==> self@.entries_stand(),
            decreases self.entries@.len(),
        {
            let ghost here_at = self@;
            let ghost here = self@.books(store.contents());
            assert(entry_views(self.entries@)[0] == self.entries@[0]@);
            if let Entry::Message(m) = &self.entries[0] {
                if self.ledger.ids.uid_of(&m.id).is_none() {
                    let id: String = m.id.clone();
                    self.stage = Stage::Raw;
                    return Ok(Action::Raw(id));
                }
            }
            let entry: Entry = self.entries.remove(0);
            assert(entry_views(self.entries@) =~= here_at.entries.skip(1));
            match entry {
                Entry::Unnamed => {},
                Entry::Removed { id, removal } => {
                    match removal {
                        Removal::Deleted => {
                            let done: Result<()> = self.ledger.drop_id(store, &id);
                            proof {
                                lemma_safely(start, here, self@.books(store.contents()));
                            }
                            match done {
                                Ok(()) => {},
                                Err(why) => {
                                    return Err(why);
                                },
                            }
                        },
                        Removal::Changed => {},
                    }
                },
                Entry::Message(m) => {
                    if let Some(uid) = self.ledger.ids.uid_of(&m.id) {
                        let done: Result<()> = self.ledger.reflag(
                            store,
                            uid,
                            m.flags,
                            &self.known,
                        );
                        proof {
                            lemma_safely(start, here, self@.books(store.contents()));
                        }
                        match done {
                            Ok(()) => {},
                            Err(why) => {
                                return Err(why);
                            },
                        }
                    }
                },
            }
        }
        assert(entry_views(self.entries@).len() == 0);
        if let Some(next) = &self.next_link {
            let url: String = next.clone();
            self.stage = Stage::Page;
            return Ok(Action::Page(url));
        }
        let ghost here = self@.books(store.contents());
        let done: Result<()> = self.ledger.commit(store, GRAPH_UID_VALIDITY);
        proof {
            lemma_safely(start, here, self@.books(store.contents()));
        }
        match done {
            Ok(()) => {},
            Err(why) => {
                return Err(why);
            },
        }
        if let Some(delta) = &self.delta_link {
            self.cursor = Some(delta.clone());
        }
        self.stage = Stage::Over;
        Ok(Action::Done)
    }
}

// ---- what holds of every pass ----

/// The cursor advances only with every page applied: while entries are being
/// settled or pages follow it stays, and what it advances to is the link the
/// last page carried.
pub proof fn the_cursor_advances_last(p: Progress, contents: Contents)
    ensures
        ({
            let m = p.entries_next(contents);
            if m.action is Done && p.delta_link is Some {
                m.pass.cursor == p.delta_link
            } else {
                m.pass.cursor == p.cursor
            }
        }),
    decreases p.entries.len(),
{
    if p.entries.len() > 0 {
        let rest = Progress { entries: p.entries.skip(1), ..p };
        match p.entries[0] {
            EntryText::Unnamed => the_cursor_advances_last(rest, contents),
            EntryText::Removed { id, removal } => match removal {
                Removal::Deleted => {
                    let b = p.books(contents).dropped(id);
                    the_cursor_advances_last(rest.with(b), b.contents);
                },
                Removal::Changed => the_cursor_advances_last(rest, contents),
            },
            EntryText::Message(m) => match p.ids.uid_of(m.id) {
                Some(uid) => {
                    let b = p.books(contents).reflagged(uid, m.flags, p.known);
                    the_cursor_advances_last(rest.with(b), b.contents);
                },
                None => {},
            },
        }
    }
}

/// A tombstone that only says that a property changed drops nothing.
pub proof fn a_changed_tombstone_drops_nothing(p: Progress, contents: Contents)
    requires
        p.entries.len() > 0,
        p.entries[0] matches EntryText::Removed { removal, .. } && removal == Removal::Changed,
    ensures
        p.entries_next(contents) == (Progress {
            entries: p.entries.skip(1),
            ..p
        }).entries_next(contents),
{
}

/// A stale cursor neither drops anything nor counts as nothing changed: the
/// folder is read again from its beginning.
pub proof fn a_stale_cursor_is_read_again(p: Progress, contents: Contents)
    requires
        p.stage == Stage::Page,
        !p.again,
    ensures
        ({
            let m = p.advanced(contents, Event::Expired)->0;
            &&& p.advanced(contents, Event::Expired) is Some
            &&& m.contents == contents
            &&& m.pass.ids == p.ids
            &&& m.pass.cursor is None
            &&& m.action == Act::Page(p.start)
        }),
{
}

/// A pass that is over, because it came to its end or because a step of it failed,
/// takes nothing more.
pub proof fn an_ended_pass_takes_nothing(p: Progress, contents: Contents, event: Event)
    requires
        p.stage == Stage::Over,
    ensures
        p.advanced(contents, event) is None,
{
}

/// A message that a failed pass could not store is still new to the next one: its
/// id has no number, so that it is fetched again.
pub proof fn what_was_not_stored_is_still_new(
    p: Progress,
    contents: Contents,
    event: Event,
    failed: Progress,
    left: Contents,
    id: Seq<char>,
)
    requires
        p.replays(contents, event, failed, left),
        p.ids.uid_of(id) is None,
        !p.ids.uids.contains_value(p.ids.next),
        !left.raws.contains_key(p.ids.next),
    ensures
        failed.ids.uid_of(id) is None,
{
    if failed.ids.uids.contains_key(id) {
        let b = p.arrival(contents, event)->0;
        assert(b.ids.uids.contains_key(id));
        assert forall|other: Seq<char>| #[trigger]
            b.ids.uids.contains_key(other) && other != id implies b.ids.uids[other]
            != b.ids.uids[id] by {
            assert(p.ids.uids.contains_key(other));
        }
        assert(b.ids.alone(id));
    }
}

// ---- what a pass does with each entry ----

/// What an entry of a change feed says: a message, with what is read and flagged of it, or
/// that a message is gone, unless the reason given is a mere change.
pub proof fn what_an_entry_says(j: Json, id: String)
    requires
        field(j, "id"@) == Some(Json::Str(id)),
    ensures
        field(j, "@removed"@) is None ==> (entry_in(j) matches EntryText::Message(m) && m.id == id@
            && (m.flags.seen <==> field(j, "isRead"@) != Some(Json::Bool(false))) && (m.flags.draft
            <==> field(j, "isDraft"@) == Some(Json::Bool(true))) && (m.flags.flagged <==> text(
            field_in(field(j, "flag"@), "flagStatus"@),
        ) == Some("flagged"@))),
        field(j, "@removed"@) matches Some(why) ==> (entry_in(j) matches EntryText::Removed {
            id: gone,
            removal,
        } && gone == id@ && (removal is Changed <==> text(field(why, "reason"@)) == Some(
            "changed"@,
        ))),
{
}

/// The flags that are written to a message read back from it.
pub proof fn written_flags_read_back(patch: Json, status: Json, seen: bool, flagged: bool)
    requires
        field(patch, "isRead"@) == Some(Json::Bool(seen)),
        field(patch, "flag"@) == Some(status),
        text(field(status, "flagStatus"@)) == Some(
            if flagged {
                "flagged"@
            } else {
                "notFlagged"@
            },
        ),
    ensures
        state_flags(patch).seen == seen,
        state_flags(patch).flagged == flagged,
{
    reveal_strlit("flagged");
    reveal_strlit("notFlagged");
    assert("flagged"@.len() != "notFlagged"@.len());
}

/// The first entry of a page: a message that is not held is fetched; one that is has then
/// exactly the flags the server gave for it; one that was deleted is gone; a mere change of
/// what is listed drops nothing. The pass goes on with the rest.
pub proof fn each_entry_is_settled(p: Progress, contents: Contents) -> (next: (Progress, Contents))
    requires
        p.entries.len() > 0,
    ensures
        ({
            let r = p.entries_next(contents);
            let (q, c) = next;
            let fetched = p.entries[0] is Message && !p.ids.uids.contains_key(
                (p.entries[0]->Message_0).id,
            );
            &&& fetched ==> r.action == Act::Raw((p.entries[0]->Message_0).id) && r.contents
                == contents && r.pass.stage == Stage::Raw && r.pass.entries == p.entries
            &&& !fetched ==> r == q.entries_next(c) && q.entries == p.entries.skip(1)
                && q.next_link == p.next_link && q.delta_link == p.delta_link && q.known == p.known
                && q.cursor == p.cursor
            &&& p.entries[0] matches EntryText::Message(m) ==> (p.ids.uids.contains_key(m.id)
                && contents.entries.contains_key(p.ids.uids[m.id]) && p.known.contains_key(
                p.ids.uids[m.id],
            ) && p.known[p.ids.uids[m.id]] == contents.entries[p.ids.uids[m.id]]
                ==> c.entries.contains_key(p.ids.uids[m.id]) && c.entries[p.ids.uids[m.id]]
                == m.flags && q.ids == p.ids && (forall|other: u32|
                other != p.ids.uids[m.id] ==> c.entries.contains_key(other)
                    == contents.entries.contains_key(other) && #[trigger] c.entries[other]
                    == contents.entries[other]))
            &&& p.entries[0] matches EntryText::Removed { id, removal } ==> (removal is Deleted
                && p.ids.uids.contains_key(id) ==> !c.entries.contains_key(p.ids.uids[id])
                && !c.raws.contains_key(p.ids.uids[id]) && !q.ids.uids.contains_key(id) && (forall|
                other: u32,
            |
                other != p.ids.uids[id] ==> c.entries.contains_key(other)
                    == contents.entries.contains_key(other) && #[trigger] c.entries[other]
                    == contents.entries[other]))
            &&& p.entries[0] matches EntryText::Removed { id, removal } ==> (removal is Changed
                || !p.ids.uids.contains_key(id) ==> c == contents && q.ids == p.ids)
            &&& p.entries[0] is Unnamed ==> c == contents && q.ids == p.ids
        }),
{
    let rest = Progress { entries: p.entries.skip(1), ..p };
    match p.entries[0] {
        EntryText::Unnamed => (rest, contents),
        EntryText::Removed { id, removal } => match removal {
            Removal::Deleted => {
                let b = p.books(contents).dropped(id);
                (rest.with(b), b.contents)
            },
            Removal::Changed => (rest, contents),
        },
        EntryText::Message(m) => match p.ids.uid_of(m.id) {
            Some(uid) => {
                let b = p.books(contents).reflagged(uid, m.flags, p.known);
                (rest.with(b), b.contents)
            },
            None => (p, contents),
        },
    }
}

/// A message that is new here is stored once its bytes are there, under a number of its own,
/// with its flags and its date; one that was deleted in between is passed over.
pub proof fn a_new_message_is_stored(p: Progress, contents: Contents, raw: Option<Vec<u8>>) -> (next: (
    Progress,
    Contents,
))
    requires
        p.stage == Stage::Raw,
        p.entries.len() > 0,
        p.entries[0] is Message,
        !p.ids.uids.contains_key((p.entries[0]->Message_0).id),
    ensures
        ({
            let m = p.entries[0]->Message_0;
            let uid = p.ids.next;
            let (q, c) = next;
            &&& p.advanced(contents, Event::Raw(raw)) == Some(q.entries_next(c))
            &&& q.entries == p.entries.skip(1) && q.next_link == p.next_link && q.delta_link
                == p.delta_link
            &&& raw is None ==> c == contents && q.ids == p.ids
            &&& raw matches Some(bytes) ==> q.ids.uids.contains_key(m.id) && q.ids.uids[m.id] == uid
                && c.entries.contains_key(uid) && c.entries[uid] == m.flags && c.raws.contains_key(
                uid,
            ) && c.raws[uid] == bytes@ && c.dates.contains_key(uid) && c.dates[uid] == m.received_ms
            &&& forall|other: u32|
                other != uid ==> c.entries.contains_key(other) == contents.entries.contains_key(
                    other,
                ) && #[trigger] c.entries[other] == contents.entries[other]
        }),
{
    let m = p.entries[0]->Message_0;
    let rest = Progress { entries: p.entries.skip(1), ..p };
    match raw {
        None => (rest, contents),
        Some(bytes) => {
            let b = Books { ids: p.ids.with(m.id), ..p.books(contents) }.delivered(
                p.ids.number_for(m.id),
                m.flags,
                bytes@,
                m.received_ms,
            );
            (rest.with(b), b.contents)
        },
    }
}

/// A page that arrived is worked through from its first entry; with all of it settled the
/// next page is asked for, or the pass ends at the link for the next one.
pub proof fn a_page_is_worked_through(p: Progress, contents: Contents, page: DeltaPage)
    requires
        p.stage == Stage::Page,
    ensures
        p.advanced(contents, Event::Page(page)) == Some(
            Progress {
                entries: page@.entries,
                next_link: page@.next_link,
                delta_link: page@.delta_link,
                ..p
            }.entries_next(contents),
        ),
        page@.entries.len() == 0 && page@.next_link is Some ==> (p.advanced(
            contents,
            Event::Page(page),
        )->0).action == Act::Page(page@.next_link->0),
        page@.entries.len() == 0 && page@.next_link is None ==> (p.advanced(
            contents,
            Event::Page(page),
        )->0).action == Act::Done,
        page@.entries.len() == 0 && page@.next_link is None && page@.delta_link is Some ==> (
        p.advanced(contents, Event::Page(page))->0).pass.cursor == page@.delta_link,
{
}

/// A page lists every entry of an answer, in order, and the links that come with it.
pub proof fn a_page_lists_every_entry(j: Json, list: Vec<Json>, i: int)
    requires
        field(j, "value"@) == Some(Json::Array(list)),
        0 <= i < list@.len(),
    ensures
        page_in(j).entries.len() == list@.len(),
        page_in(j).entries[i] == entry_in(list@[i]),
        page_in(j).next_link == text(field(j, "@odata.nextLink"@)),
        page_in(j).delta_link == text(field(j, "@odata.deltaLink"@)),
{
}

/// What an entry says of a folder.
pub proof fn what_a_folder_entry_says(j: Json)
    ensures
        folder_in(j) is Some <==> text(field(j, "id"@)) is Some,
        folder_in(j) matches Some(f) ==> {
            &&& Some(f.id) == text(field(j, "id"@))
            &&& text(field(j, "displayName"@)) matches Some(t) ==> f.display_name == t
            &&& text(field(j, "wellKnownName"@)) matches Some(t) ==> f.well_known == Some(
                lowered(t),
            )
            &&& text(field(j, "wellKnownName"@)) is None ==> f.well_known is None
            &&& number(field(j, "totalItemCount"@)) matches Some(n) ==> n <= u32::MAX ==> f.total
                == n
            &&& number(field(j, "unreadItemCount"@)) matches Some(n) ==> n <= u32::MAX ==> f.unread
                == n
        },
{
}

/// What an entry says of a message.
pub proof fn what_a_message_entry_says(j: Json)
    ensures
        message_in(j) is Some <==> text(field(j, "id"@)) is Some,
        message_in(j) matches Some(m) ==> {
            &&& Some(m.id) == text(field(j, "id"@))
            &&& m.flags == state_flags(j)
            &&& m.parent_folder_id == text(field(j, "parentFolderId"@))
            &&& text(field(j, "receivedDateTime"@)) matches Some(t) ==> {
                &&& rfc3339(t) matches Some(ms) ==> m.received_ms == ms as i64
                &&& rfc3339(t) is None ==> (zoneless(t, "%Y-%m-%dT%H:%M:%S%.f"@) matches Some(ms)
                    ==> m.received_ms == ms as i64)
                &&& rfc3339(t) is None && zoneless(t, "%Y-%m-%dT%H:%M:%S%.f"@) is None ==> (
                zoneless(t, "%Y-%m-%dT%H:%M:%S"@) matches Some(ms) ==> m.received_ms == ms as i64)
            }
        },
{
}

/// Which folder a well-known name stands for, and which role that folder has: each name and
/// each role its own.
pub proof fn what_a_well_known_name_means(name: Seq<char>, slug: Seq<char>)
    ensures
        well_known_slug(name) == Some("inbox"@) <==> name == "inbox"@,
        well_known_slug(name) == Some("sent"@) <==> name == "sentitems"@,
        well_known_slug(name) == Some("drafts"@) <==> name == "drafts"@,
        well_known_slug(name) == Some("trash"@) <==> name == "deleteditems"@,
        well_known_slug(name) == Some("junk"@) <==> name == "junkemail"@,
        well_known_slug(name) == Some("archive"@) <==> name == "archive"@,
        slug_role(slug) == Some(SpecialUse::Inbox) <==> slug == "inbox"@,
        slug_role(slug) == Some(SpecialUse::Sent) <==> slug == "sent"@,
        slug_role(slug) == Some(SpecialUse::Drafts) <==> slug == "drafts"@,
        slug_role(slug) == Some(SpecialUse::Trash) <==> slug == "trash"@,
        slug_role(slug) == Some(SpecialUse::Junk) <==> slug == "junk"@,
        slug_role(slug) == Some(SpecialUse::Archive) <==> slug == "archive"@,
{
    reveal_strlit("inbox");
    reveal_strlit("sentitems");
    reveal_strlit("sent");
    reveal_strlit("drafts");
    reveal_strlit("deleteditems");
    reveal_strlit("trash");
    reveal_strlit("junkemail");
    reveal_strlit("junk");
    reveal_strlit("archive");
    assert("inbox"@[0] == 'i' && "sentitems"@[0] == 's' && "sent"@[0] == 's' && "drafts"@[1] == 'r'
        && "deleteditems"@[1] == 'e' && "drafts"@[0] == 'd' && "deleteditems"@[0] == 'd'
        && "trash"@[0] == 't' && "junkemail"@[0] == 'j' && "junk"@[0] == 'j' && "archive"@[0]
        == 'a');
    assert("sentitems"@.len() == 9 && "sent"@.len() == 4 && "junkemail"@.len() == 9
        && "junk"@.len() == 4);
}

/// A page that names another is followed by it; the last one's link is where the next pass
/// begins, and nothing is put down before.
pub proof fn pages_are_followed_to_the_last(p: Progress, contents: Contents)
    requires
        p.entries.len() == 0,
    ensures
        p.next_link matches Some(next) ==> p.entries_next(contents).action == Act::Page(next)
            && p.entries_next(contents).pass.cursor == p.cursor && p.entries_next(
            contents,
        ).contents == contents,
        p.next_link is None ==> p.entries_next(contents).action is Done && p.entries_next(
            contents,
        ).contents.raws == contents.raws,
        p.next_link is None && p.delta_link is Some ==> p.entries_next(contents).pass.cursor
            == p.delta_link,
        p.next_link is None && p.delta_link is None ==> p.entries_next(contents).pass.cursor
            == p.cursor,
{
}

} // verus!
