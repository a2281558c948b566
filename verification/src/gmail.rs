//! The Gmail API as a mail engine.
//!
//! Gmail has no folders: a message's location is derived from its label set,
//! and its read and starred state are labels too. A local move is a label
//! change, and a label change arriving from the server moves the message
//! between maildirs.
//!
//! A history cursor that predates Gmail's retention means "I cannot tell you
//! what changed". It never means that nothing changed, and never that
//! everything was deleted: the cursor is dropped and the folder is read again.

use std::collections::BTreeMap;

use vstd::prelude::*;

use crate::chars::{drop_back, drop_back_of, opt_str, opt_text, push_all, push_text, same, texts,
    to_chars, to_text, Class};
use crate::encoding::{base64_bytes, base64_fault, decode_base64, normalise, normalised};
use crate::engine::{flags_known, held_flags, is_among, left_behind, left_behind_of, lemma_safely, no_counts,
    safely, Books, Counts, Ledger};
use crate::error::{Error, Result};
use crate::folder::Folder;
use crate::graph::{role_of_slug, slug_role};
use crate::http::{credentials_refused, is_success, refusal, refusal_text, success};
use crate::ids::{Ids, RemoteIds};
use crate::jmap::behind;
use crate::json::{field, field_in, items, or_empty, strings_in, text, Json};
use crate::model::Flags;
use crate::numbers::{dec, decimal, parse_signed, signed};
use crate::order::{insert_text, lemma_text_listing, text_listing, texts_ascending};
use crate::push::DrainOutcome;
use crate::sasl::Credentials;
use crate::smtp::{submission, submission_of, Outcome, Submission};
use crate::store::{Contents, MailStore, RemoteMessage};

verus! {

/// Gmail's own API root.
pub const BASE: &'static str = "https://gmail.googleapis.com/gmail/v1/users/me";

/// How many ids are asked for in one page.
pub const PAGE_SIZE: usize = 500;

/// The sidecar this engine keeps beside a maildir.
pub const STATE_FILE: &'static str = ".gmail-state.json";

/// Gmail message ids never renumber.
pub const GMAIL_UID_VALIDITY: u32 = 1;

// ---- labels ----

/// Where a message lives, from its labels. The bin and spam beat everything,
/// because that is where Gmail's own interface shows the message; a message
/// both sent and in the inbox stays in the inbox; one with none of these is
/// archived.
pub open spec fn place(labels: Seq<Seq<char>>) -> Seq<char> {
    if labels.contains("TRASH"@) {
        "trash"@
    } else if labels.contains("SPAM"@) {
        "junk"@
    } else if labels.contains("DRAFT"@) {
        "drafts"@
    } else if labels.contains("INBOX"@) {
        "inbox"@
    } else if labels.contains("SENT"@) {
        "sent"@
    } else {
        "archive"@
    }
}

/// Where a message lives, from its labels.
#[must_use]
pub fn folder_from_labels(labels: &Vec<String>) -> (r: &'static str)
    ensures
        r@ == place(texts(labels@)),
{
    if is_among(labels, "TRASH") {
        "trash"
    } else if is_among(labels, "SPAM") {
        "junk"
    } else if is_among(labels, "DRAFT") {
        "drafts"
    } else if is_among(labels, "INBOX") {
        "inbox"
    } else if is_among(labels, "SENT") {
        "sent"
    } else {
        "archive"
    }
}

/// Read and starred state, which Gmail also keeps as labels. Gmail marks what
/// has not been read, so `UNREAD` is inverted.
pub open spec fn label_flags(labels: Seq<Seq<char>>) -> Flags {
    Flags {
        seen: !labels.contains("UNREAD"@),
        flagged: labels.contains("STARRED"@),
        draft: labels.contains("DRAFT"@),
        answered: false,
        deleted: false,
        passed: false,
    }
}

#[must_use]
pub fn flags_from_labels(labels: &Vec<String>) -> (r: Flags)
    ensures
        r == label_flags(texts(labels@)),
{
    Flags {
        seen: !is_among(labels, "UNREAD"),
        flagged: is_among(labels, "STARRED"),
        draft: is_among(labels, "DRAFT"),
        answered: false,
        deleted: false,
        passed: false,
    }
}

pub open spec fn names(v: Seq<&'static str>) -> Seq<Seq<char>> {
    v.map_values(|s: &'static str| s@)
}

/// The labels to add when flags change.
pub open spec fn labels_added(from: Flags, to: Flags) -> Seq<Seq<char>> {
    let unread = if from.seen && !to.seen {
        seq!["UNREAD"@]
    } else {
        Seq::empty()
    };
    if !from.flagged && to.flagged {
        unread.push("STARRED"@)
    } else {
        unread
    }
}

/// The labels to remove when flags change: marking read removes `UNREAD`.
pub open spec fn labels_removed(from: Flags, to: Flags) -> Seq<Seq<char>> {
    let unread = if !from.seen && to.seen {
        seq!["UNREAD"@]
    } else {
        Seq::empty()
    };
    if from.flagged && !to.flagged {
        unread.push("STARRED"@)
    } else {
        unread
    }
}

fn push_name(v: &mut Vec<&'static str>, name: &'static str)
    ensures
        names(final(v)@) == names(old(v)@).push(name@),
{
    let ghost before = v@;
    v.push(name);
    assert(names(v@) =~= names(before).push(name@));
}

/// The label changes that turn one flag set into another, as what to add and
/// what to remove. Only the labels that actually differ.
#[must_use]
pub fn label_delta(from: Flags, to: Flags) -> (r: (Vec<&'static str>, Vec<&'static str>))
    ensures
        names(r.0@) == labels_added(from, to),
        names(r.1@) == labels_removed(from, to),
{
    let mut add: Vec<&'static str> = Vec::new();
    let mut remove: Vec<&'static str> = Vec::new();
    proof {
        assert(names(add@) =~= Seq::<Seq<char>>::empty());
        assert(Seq::<Seq<char>>::empty().push("UNREAD"@) =~= seq!["UNREAD"@]);
    }
    if from.seen != to.seen {
        if to.seen {
            push_name(&mut remove, "UNREAD");
        } else {
            push_name(&mut add, "UNREAD");
        }
    }
    if from.flagged != to.flagged {
        if to.flagged {
            push_name(&mut add, "STARRED");
        } else {
            push_name(&mut remove, "STARRED");
        }
    }
    (add, remove)
}

/// What moving to a folder adds and removes. Archiving is the removal of
/// `INBOX` and nothing else.
pub open spec fn move_labels(destination: Seq<char>) -> (Seq<Seq<char>>, Seq<Seq<char>>) {
    if destination == "archive"@ {
        (Seq::empty(), seq!["INBOX"@])
    } else if destination == "inbox"@ {
        (seq!["INBOX"@], Seq::empty())
    } else if destination == "trash"@ {
        (seq!["TRASH"@], seq!["INBOX"@])
    } else if destination == "junk"@ {
        (seq!["SPAM"@], seq!["INBOX"@])
    } else if destination == "sent"@ {
        (seq!["SENT"@], Seq::empty())
    } else {
        (Seq::empty(), Seq::empty())
    }
}

fn one_name(name: &'static str) -> (r: Vec<&'static str>)
    ensures
        names(r@) == seq![name@],
{
    let mut v: Vec<&'static str> = Vec::new();
    v.push(name);
    assert(names(v@) =~= seq![name@]);
    v
}

fn no_names() -> (r: Vec<&'static str>)
    ensures
        names(r@) == Seq::<Seq<char>>::empty(),
{
    let v: Vec<&'static str> = Vec::new();
    assert(names(v@) =~= Seq::<Seq<char>>::empty());
    v
}

/// The maildir folder a local move targets, as a label change.
#[must_use]
pub fn move_delta(destination: &str) -> (r: (Vec<&'static str>, Vec<&'static str>))
    ensures
        (names(r.0@), names(r.1@)) == move_labels(destination@),
{
    if same(destination, "archive") {
        (no_names(), one_name("INBOX"))
    } else if same(destination, "inbox") {
        (one_name("INBOX"), no_names())
    } else if same(destination, "trash") {
        (one_name("TRASH"), one_name("INBOX"))
    } else if same(destination, "junk") {
        (one_name("SPAM"), one_name("INBOX"))
    } else if same(destination, "sent") {
        (one_name("SENT"), no_names())
    } else {
        (no_names(), no_names())
    }
}

/// The label change of a move, or the error for a folder no label corresponds
/// to.
pub fn move_change(destination: &str) -> (r: Result<(Vec<&'static str>, Vec<&'static str>)>)
    ensures
        match r {
            Ok((add, remove)) => (names(add@), names(remove@)) == move_labels(destination@) && (
            add@.len() > 0 || remove@.len() > 0),
            Err(Error::Gmail(m)) => move_labels(destination@) == (
                Seq::<Seq<char>>::empty(),
                Seq::<Seq<char>>::empty(),
            ) && m@ == "no Gmail label corresponds to the folder “"@ + destination@ + "”"@,
            Err(_) => false,
        },
{
    let (add, remove) = move_delta(destination);
    assert(names(add@).len() == add@.len() && names(remove@).len() == remove@.len());
    if add.len() == 0 && remove.len() == 0 {
        proof {
            assert(names(add@) =~= Seq::<Seq<char>>::empty());
            assert(names(remove@) =~= Seq::<Seq<char>>::empty());
        }
        let mut m: Vec<char> = to_chars("no Gmail label corresponds to the folder “");
        push_text(&mut m, destination);
        push_text(&mut m, "”");
        return Err(Error::Gmail(to_text(&m)));
    }
    Ok((add, remove))
}

// ---- messages ----

/// A message id with the labels Gmail currently has on it.
#[derive(Debug, Clone, PartialEq, Eq)]
pub struct GmailMessage {
    pub id: String,
    pub thread_id: String,
    pub labels: Vec<String>,
    /// Gmail's own arrival timestamp, in epoch milliseconds.
    pub internal_date_ms: i64,
}

pub struct MessageText {
    pub id: Seq<char>,
    pub thread_id: Seq<char>,
    pub labels: Seq<Seq<char>>,
    pub internal_date_ms: i64,
}

impl GmailMessage {
    pub open spec fn view(&self) -> MessageText {
        MessageText {
            id: self.id@,
            thread_id: self.thread_id@,
            labels: texts(self.labels@),
            internal_date_ms: self.internal_date_ms,
        }
    }

    /// The flags this message's labels amount to.
    #[must_use]
    pub fn flags(&self) -> (r: Flags)
        ensures
            r == label_flags(self@.labels),
    {
        flags_from_labels(&self.labels)
    }

    /// The maildir this message belongs in.
    #[must_use]
    pub fn folder(&self) -> (r: &'static str)
        ensures
            r@ == place(self@.labels),
    {
        folder_from_labels(&self.labels)
    }
}

/// When a message arrived; the epoch, where that cannot be read.
pub open spec fn arrived(j: Json) -> i64 {
    match text(field(j, "internalDate"@)) {
        Some(t) => match signed(t) {
            Some(n) => n as i64,
            None => 0,
        },
        None => 0,
    }
}

pub open spec fn message_in(j: Json) -> Option<MessageText> {
    match text(field(j, "id"@)) {
        Some(id) => Some(
            MessageText {
                id,
                thread_id: or_empty(text(field(j, "threadId"@))),
                labels: strings_in(j, "labelIds"@),
                internal_date_ms: arrived(j),
            },
        ),
        None => None,
    }
}

/// A message's metadata; nothing, without an id.
#[must_use]
pub fn parse_metadata(value: &Json) -> (r: Option<GmailMessage>)
    ensures
        match r {
            Some(m) => message_in(*value) == Some(m@),
            None => message_in(*value) is None,
        },
{
    match value.text_at("id") {
        None => None,
        Some(id) => {
            let at: Option<i64> = match value.text_at("internalDate") {
                Some(t) => parse_signed(&to_chars(t)),
                None => None,
            };
            Some(
                GmailMessage {
                    id: id.to_owned(),
                    thread_id: value.text_or_empty("threadId"),
                    labels: value.strings_at("labelIds"),
                    internal_date_ms: match at {
                        Some(n) => n,
                        None => 0,
                    },
                },
            )
        },
    }
}

/// Gmail sends URL-safe base64 without padding; some proxies pad it again.
pub fn decode_base64url(data: &str) -> (r: Result<Vec<u8>>)
    ensures
        match r {
            Ok(bytes) => base64_bytes(normalised(data@)) == Some(bytes@),
            Err(Error::Gmail(m)) => base64_bytes(normalised(data@)) is None && m@
                == "decoding a raw message: "@ + base64_fault(normalised(data@)),
            Err(_) => false,
        },
{
    match decode_base64(&normalise(data)) {
        Ok(bytes) => Ok(bytes),
        Err(why) => {
            let mut m: Vec<char> = to_chars("decoding a raw message: ");
            push_text(&mut m, &why);
            Err(Error::Gmail(to_text(&m)))
        },
    }
}

/// Is this what the answer to a request for a message's raw form tells? Its octets, or
/// why they cannot be had.
pub open spec fn raw_told(value: Json, id: Seq<char>, r: Result<Vec<u8>>) -> bool {
    match (text(field(value, "raw"@)), r) {
        (Some(t), Ok(bytes)) => base64_bytes(normalised(t)) == Some(bytes@),
        (Some(t), Err(Error::Gmail(m))) => base64_bytes(normalised(t)) is None && m@
            == "decoding a raw message: "@ + base64_fault(normalised(t)),
        (None, Err(Error::Gmail(m))) => m@ == "no raw payload for message "@ + id,
        _ => false,
    }
}

/// The octets in the answer to a request for a message's raw form.
pub fn parse_raw(value: &Json, id: &str) -> (r: Result<Vec<u8>>)
    ensures
        raw_told(*value, id@, r),
{
    match value.text_at("raw") {
        Some(encoded) => decode_base64url(encoded),
        None => {
            let mut m: Vec<char> = to_chars("no raw payload for message ");
            push_text(&mut m, id);
            Err(Error::Gmail(to_text(&m)))
        },
    }
}

/// A text that says something.
pub open spec fn nonempty(t: Option<Seq<char>>) -> Option<Seq<char>> {
    match t {
        Some(t) => if t.len() > 0 {
            Some(t)
        } else {
            None
        },
        None => None,
    }
}

fn nonempty_at(j: &Json, key: &str) -> (r: Option<String>)
    ensures
        opt_text(r) == nonempty(text(field(*j, key@))),
{
    match j.text_at(key) {
        Some(t) => if to_chars(t).len() > 0 {
            Some(t.to_owned())
        } else {
            None
        },
        None => None,
    }
}

/// Is this the error for a profile without a history id?
pub open spec fn no_cursor(e: Error) -> bool {
    e matches Error::Gmail(m) && m@
        == "gmail profile returned no historyId, so there is no cursor to sync from"@
}

/// The mailbox's current history id: the cursor a bootstrap opens with.
pub fn parse_profile(profile: &Json) -> (r: Result<String>)
    ensures
        match r {
            Ok(id) => nonempty(text(field(*profile, "historyId"@))) == Some(id@),
            Err(e) => nonempty(text(field(*profile, "historyId"@))) is None && no_cursor(e),
        },
{
    match nonempty_at(profile, "historyId") {
        Some(id) => Ok(id),
        None => Err(
            Error::Gmail(
                "gmail profile returned no historyId, so there is no cursor to sync from".to_owned(),
            ),
        ),
    }
}

// ---- requests ----

/// Turns a status that is no success into the right kind of error.
#[must_use]
pub fn refuse(status: u16, what: &str, body: &str) -> (r: Error)
    ensures
        refused_as(r, status, what@, body@),
{
    let m: String = refusal_text("gmail", status, what, body);
    if status == 401 || status == 403 {
        Error::Auth(m)
    } else {
        Error::Gmail(m)
    }
}

/// Is this the error for a status that is no success?
pub open spec fn refused_as(e: Error, status: u16, what: Seq<char>, body: Seq<char>) -> bool {
    match e {
        Error::Auth(m) => credentials_refused(status) && m@ == refusal(
            "gmail"@,
            status,
            what,
            body,
        ),
        Error::Gmail(m) => !credentials_refused(status) && m@ == refusal(
            "gmail"@,
            status,
            what,
            body,
        ),
        _ => false,
    }
}

/// What the status of a history page says: whether its cursor is older than
/// Gmail's retention, or why it was refused.
pub fn history_status(status: u16, body: &str) -> (r: Result<bool>)
    ensures
        match r {
            Ok(expired) => expired == (status == 404 || status == 410) && (expired || success(
                status,
            )),
            Err(e) => !success(status) && status != 404 && status != 410 && refused_as(
                e,
                status,
                "history.list"@,
                body@,
            ),
        },
{
    if status == 404 || status == 410 {
        return Ok(true);
    }
    if !is_success(status) {
        return Err(refuse(status, "history.list", body));
    }
    Ok(false)
}

/// The `Authorization` header for these credentials. The API takes a bearer
/// token and nothing else, and a password is refused rather than sent.
pub fn authorize(credentials: &Credentials) -> (r: Result<String>)
    ensures
        match r {
            Ok(header) => *credentials matches Credentials::OAuth2(token) && header@ == "Bearer "@
                + token@,
            Err(Error::Auth(m)) => *credentials is Password && m@
                == "the Gmail API takes an OAuth access token; Google withdrew password authentication for it"@,
            Err(_) => false,
        },
{
    match credentials {
        Credentials::OAuth2(token) => {
            let mut out: Vec<char> = to_chars("Bearer ");
            push_text(&mut out, token);
            Ok(to_text(&out))
        },
        Credentials::Password(_) => Err(
            Error::Auth(
                "the Gmail API takes an OAuth access token; Google withdrew password authentication for it".to_owned(),
            ),
        ),
    }
}

/// A URL with the token of the page that is asked for.
pub open spec fn paged(url: Seq<char>, token: Option<Seq<char>>) -> Seq<char> {
    match token {
        Some(t) => url + "&pageToken="@ + t,
        None => url,
    }
}

pub open spec fn list_text(
    base: Seq<char>,
    label: Seq<char>,
    take: nat,
    token: Option<Seq<char>>,
) -> Seq<char> {
    paged(base + "/messages?labelIds="@ + label + "&maxResults="@ + dec(take), token)
}

/// The URL of a page of the ids in one label.
#[must_use]
pub fn list_url(base: &str, label: &str, take: usize, token: &Option<String>) -> (r: String)
    ensures
        r@ == list_text(base@, label@, take as nat, opt_text(*token)),
{
    let mut out: Vec<char> = to_chars(base);
    push_text(&mut out, "/messages?labelIds=");
    push_text(&mut out, label);
    push_text(&mut out, "&maxResults=");
    let n: Vec<char> = decimal(take as u64);
    push_all(&mut out, &n);
    if let Some(t) = token {
        push_text(&mut out, "&pageToken=");
        push_text(&mut out, t);
    }
    to_text(&out)
}

pub open spec fn history_text(
    base: Seq<char>,
    since: Seq<char>,
    token: Option<Seq<char>>,
) -> Seq<char> {
    paged(
        base + "/history?startHistoryId="@ + since
            + "&maxResults=500&historyTypes=messageAdded&historyTypes=messageDeleted&historyTypes=labelAdded&historyTypes=labelRemoved"@,
        token,
    )
}

/// The URL of a page of the history since a cursor.
#[must_use]
pub fn history_url(base: &str, since: &str, token: &Option<String>) -> (r: String)
    ensures
        r@ == history_text(base@, since@, opt_text(*token)),
{
    let mut out: Vec<char> = to_chars(base);
    push_text(&mut out, "/history?startHistoryId=");
    push_text(&mut out, since);
    push_text(
        &mut out,
        "&maxResults=500&historyTypes=messageAdded&historyTypes=messageDeleted&historyTypes=labelAdded&historyTypes=labelRemoved",
    );
    if let Some(t) = token {
        push_text(&mut out, "&pageToken=");
        push_text(&mut out, t);
    }
    to_text(&out)
}

/// A root without the slashes behind it.
#[must_use]
pub fn trimmed_base(base: &str) -> (r: String)
    ensures
        r@ == drop_back(base@, Class::Is('/')),
{
    to_text(drop_back_of(&to_chars(base), Class::Is('/')))
}

/// How a submission ended, from its status.
#[must_use]
pub fn submitted(status: u16, message: Vec<u8>, body: &str) -> (r: Outcome)
    ensures
        match (submission_of(status), r) {
            (Submission::Accepted, Outcome::Sent(bytes)) => bytes == message,
            (Submission::Refused, Outcome::NotSent(e)) => refused_as(
                e,
                status,
                "messages.send"@,
                body@,
            ),
            (Submission::Unclear, Outcome::Ambiguous(e)) => refused_as(
                e,
                status,
                "messages.send"@,
                body@,
            ),
            _ => false,
        },
{
    match submission(status) {
        Submission::Accepted => Outcome::Sent(message),
        Submission::Refused => Outcome::NotSent(refuse(status, "messages.send", body)),
        Submission::Unclear => Outcome::Ambiguous(refuse(status, "messages.send", body)),
    }
}

// ---- folders ----

/// The folder a maildir path was opened for.
#[must_use]
pub fn folder_for(slug: &str) -> (r: Folder)
    ensures
        r.wire_name@ == slug@,
        r.display_name@ == slug@,
        r.delimiter == '/',
        r.special_use == slug_role(slug@),
        !r.no_select,
{
    Folder {
        wire_name: slug.to_owned(),
        display_name: slug.to_owned(),
        delimiter: '/',
        special_use: role_of_slug(slug),
        no_select: false,
    }
}

/// The folders this engine maintains: those that are bootstrapped from a label,
/// and the archive.
pub open spec fn maintained() -> Seq<Seq<char>> {
    seq!["inbox"@, "sent"@, "drafts"@, "trash"@, "junk"@, "archive"@]
}

/// Every maildir this engine maintains for an account.
#[must_use]
pub fn folders() -> (r: Vec<Folder>)
    ensures
        r@.len() == maintained().len(),
        forall|i: int|
            0 <= i < r@.len() ==> (#[trigger] r@[i]).wire_name@ == maintained()[i]
                && r@[i].display_name@ == maintained()[i] && r@[i].special_use == slug_role(
                maintained()[i],
            ) && r@[i].special_use is Some && r@[i].delimiter == '/' && !r@[i].no_select,
{
    let mut out: Vec<Folder> = Vec::new();
    out.push(folder_for("inbox"));
    out.push(folder_for("sent"));
    out.push(folder_for("drafts"));
    out.push(folder_for("trash"));
    out.push(folder_for("junk"));
    out.push(folder_for("archive"));
    out
}

/// The label a folder is bootstrapped from. The archive has none: it is all mail
/// that has no other place, and is filled by history alone.
pub open spec fn bootstrap_label(slug: Seq<char>) -> Option<Seq<char>> {
    if slug == "inbox"@ {
        Some("INBOX"@)
    } else if slug == "sent"@ {
        Some("SENT"@)
    } else if slug == "drafts"@ {
        Some("DRAFT"@)
    } else if slug == "trash"@ {
        Some("TRASH"@)
    } else if slug == "junk"@ {
        Some("SPAM"@)
    } else {
        None
    }
}

fn label_of(slug: &str) -> (r: Option<&'static str>)
    ensures
        opt_str(r) == bootstrap_label(slug@),
{
    if same(slug, "inbox") {
        Some("INBOX")
    } else if same(slug, "sent") {
        Some("SENT")
    } else if same(slug, "drafts") {
        Some("DRAFT")
    } else if same(slug, "trash") {
        Some("TRASH")
    } else if same(slug, "junk") {
        Some("SPAM")
    } else {
        None
    }
}

pub open spec fn labels_in(list: Seq<Json>) -> Seq<(Seq<char>, Seq<char>)>
    decreases list.len(),
{
    if list.len() == 0 {
        Seq::empty()
    } else {
        let front = labels_in(list.drop_last());
        match (text(field(list.last(), "id"@)), text(field(list.last(), "name"@))) {
            (Some(id), Some(name)) => front.push((id, name)),
            _ => front,
        }
    }
}

/// Every label on a page of them.
pub open spec fn labels_on(page: Json) -> Seq<(Seq<char>, Seq<char>)> {
    match items(field(page, "labels"@)) {
        Some(list) => labels_in(list),
        None => Seq::empty(),
    }
}

pub open spec fn label_views(v: Seq<(String, String)>) -> Seq<(Seq<char>, Seq<char>)> {
    v.map_values(|l: (String, String)| (l.0@, l.1@))
}

/// Label ids with their display names, for a UI that wants to show Gmail's own
/// labels.
#[must_use]
pub fn parse_labels(page: &Json) -> (r: Vec<(String, String)>)
    ensures
        label_views(r@) == labels_on(*page),
{
    let mut out: Vec<(String, String)> = Vec::new();
    assert(label_views(out@) =~= Seq::<(Seq<char>, Seq<char>)>::empty());
    let list: &Vec<Json> = match page.array_at("labels") {
        Some(l) => l,
        None => {
            return out;
        },
    };
    let mut i: usize = 0;
    assert(list@.take(0) =~= Seq::<Json>::empty());
    while i < list.len()
        invariant
            i <= list@.len(),
            label_views(out@) == labels_in(list@.take(i as int)),
        decreases list@.len() - i,
    {
        proof {
            assert(list@.take(i + 1).drop_last() =~= list@.take(i as int));
            assert(list@.take(i + 1).last() == list@[i as int]);
        }
        let ghost before = out@;
        match (list[i].text_at("id"), list[i].text_at("name")) {
            (Some(id), Some(name)) => {
                out.push((id.to_owned(), name.to_owned()));
                assert(label_views(out@) =~= label_views(before).push((id@, name@)));
            },
            _ => {},
        }
        i = i + 1;
    }
    assert(list@.take(i as int) =~= list@);
    out
}

// ---- history ----

/// Every id a history mentions, with what happened to it. A label delta counts
/// as "this message changed": the authoritative set comes from re-reading the
/// message.
#[derive(Debug, Clone, PartialEq, Eq)]
pub struct HistoryDelta {
    /// Messages added or changed, in text order, each once.
    pub touched: Vec<String>,
    /// Deleted outright, server-side.
    pub deleted: Vec<String>,
    /// The cursor these changes bring the client up to.
    pub history_id: Option<String>,
}

#[verifier::ext_equal]
pub struct DeltaText {
    pub touched: Seq<Seq<char>>,
    pub deleted: Seq<Seq<char>>,
    pub history_id: Option<Seq<char>>,
}

impl HistoryDelta {
    pub open spec fn view(&self) -> DeltaText {
        DeltaText {
            touched: texts(self.touched@),
            deleted: texts(self.deleted@),
            history_id: opt_text(self.history_id),
        }
    }
}

pub open spec fn no_delta() -> DeltaText {
    DeltaText { touched: Seq::empty(), deleted: Seq::empty(), history_id: None }
}

impl Default for HistoryDelta {
    fn default() -> (r: Self)
        ensures
            r@ == no_delta(),
    {
        let r: HistoryDelta = HistoryDelta {
            touched: Vec::new(),
            deleted: Vec::new(),
            history_id: None,
        };
        assert(r@ =~= no_delta()) by {
            assert(texts(r.touched@) =~= Seq::<Seq<char>>::empty());
        }
        r
    }
}

/// The message ids in these entries.
pub open spec fn message_ids(list: Seq<Json>) -> Seq<Seq<char>>
    decreases list.len(),
{
    if list.len() == 0 {
        Seq::empty()
    } else {
        let front = message_ids(list.drop_last());
        match text(field_in(field(list.last(), "message"@), "id"@)) {
            Some(id) => front.push(id),
            None => front,
        }
    }
}

pub open spec fn ids_in(record: Json, key: Seq<char>) -> Seq<Seq<char>> {
    match items(field(record, key)) {
        Some(list) => message_ids(list),
        None => Seq::empty(),
    }
}

/// The ids that these records touch.
pub open spec fn touched_in(records: Seq<Json>) -> Set<Seq<char>>
    decreases records.len(),
{
    if records.len() == 0 {
        Set::empty()
    } else {
        let r = records.last();
        touched_in(records.drop_last()) + ids_in(r, "messagesAdded"@).to_set() + ids_in(
            r,
            "labelsAdded"@,
        ).to_set() + ids_in(r, "labelsRemoved"@).to_set()
    }
}

/// The ids that these records delete.
pub open spec fn deleted_in(records: Seq<Json>) -> Set<Seq<char>>
    decreases records.len(),
{
    if records.len() == 0 {
        Set::empty()
    } else {
        deleted_in(records.drop_last()) + ids_in(records.last(), "messagesDeleted"@).to_set()
    }
}

/// A delta with more records folded in. A message both touched and deleted is
/// gone: the delete is the later fact whatever order the records arrived in.
pub open spec fn folded(delta: DeltaText, records: Seq<Json>) -> DeltaText {
    let deleted = delta.deleted.to_set() + deleted_in(records);
    DeltaText {
        touched: text_listing((delta.touched.to_set() + touched_in(records)).difference(deleted)),
        deleted: text_listing(deleted),
        ..delta
    }
}

fn message_ids_of(record: &Json, key: &str) -> (r: Vec<String>)
    ensures
        texts(r@) == ids_in(*record, key@),
{
    let mut out: Vec<String> = Vec::new();
    assert(texts(out@) =~= Seq::<Seq<char>>::empty());
    let list: &Vec<Json> = match record.array_at(key) {
        Some(l) => l,
        None => {
            return out;
        },
    };
    let mut i: usize = 0;
    assert(list@.take(0) =~= Seq::<Json>::empty());
    while i < list.len()
        invariant
            i <= list@.len(),
            texts(out@) == message_ids(list@.take(i as int)),
        decreases list@.len() - i,
    {
        proof {
            assert(list@.take(i + 1).drop_last() =~= list@.take(i as int));
            assert(list@.take(i + 1).last() == list@[i as int]);
        }
        let ghost before = out@;
        let id: Option<&str> = match list[i].get("message") {
            Some(m) => m.text_at("id"),
            None => None,
        };
        if let Some(id) = id {
            out.push(id.to_owned());
            assert(texts(out@) =~= texts(before).push(id@));
        }
        i = i + 1;
    }
    assert(list@.take(i as int) =~= list@);
    out
}

fn insert_all(v: &mut Vec<String>, more: &Vec<String>)
    requires
        texts_ascending(texts(old(v)@)),
    ensures
        texts_ascending(texts(final(v)@)),
        texts(final(v)@).to_set() == texts(old(v)@).to_set() + texts(more@).to_set(),
{
    let ghost start = texts(v@).to_set();
    let ghost all = texts(more@);
    let mut i: usize = 0;
    assert(texts(v@).to_set() =~= start + all.take(0).to_set());
    while i < more.len()
        invariant
            i <= more@.len(),
            all == texts(more@),
            texts_ascending(texts(v@)),
            texts(v@).to_set() == start + all.take(i as int).to_set(),
        decreases more@.len() - i,
    {
        insert_text(v, &more[i]);
        proof {
            let a = all.take(i as int);
            let b = all.take(i + 1);
            assert(b =~= a.push(more@[i as int]@));
            assert forall|x: Seq<char>|
                b.to_set().contains(x) <==> a.to_set().insert(more@[i as int]@).contains(x) by {
                if b.contains(x) {
                    let k = choose|k: int| 0 <= k < b.len() && b[k] == x;
                    if k < a.len() {
                        assert(a[k] == x);
                    }
                }
                if a.contains(x) {
                    let k = choose|k: int| 0 <= k < a.len() && a[k] == x;
                    assert(b[k] == x);
                }
                assert(b[i as int] == more@[i as int]@);
            }
            assert(b.to_set() =~= a.to_set().insert(more@[i as int]@));
            assert(texts(v@).to_set() =~= start + b.to_set());
        }
        i = i + 1;
    }
    assert(all.take(i as int) =~= all);
}

fn those_not_in(v: &Vec<String>, out_of: &Vec<String>) -> (r: Vec<String>)
    ensures
        texts_ascending(texts(r@)),
        texts(r@).to_set() == texts(v@).to_set().difference(texts(out_of@).to_set()),
{
    let mut out: Vec<String> = Vec::new();
    let ghost all = texts(v@);
    let ghost gone = texts(out_of@).to_set();
    let mut i: usize = 0;
    proof {
        assert(texts(out@) =~= Seq::<Seq<char>>::empty());
        assert(texts(out@).to_set() =~= all.take(0).to_set().difference(gone));
    }
    while i < v.len()
        invariant
            i <= v@.len(),
            all == texts(v@),
            gone == texts(out_of@).to_set(),
            texts_ascending(texts(out@)),
            texts(out@).to_set() == all.take(i as int).to_set().difference(gone),
        decreases v@.len() - i,
    {
        let ghost before = texts(out@).to_set();
        let is_gone: bool = is_among(out_of, &v[i]);
        if !is_gone {
            insert_text(&mut out, &v[i]);
        }
        proof {
            let a = all.take(i as int);
            let b = all.take(i + 1);
            let t = v@[i as int]@;
            assert(b =~= a.push(t));
            assert forall|x: Seq<char>| b.to_set().contains(x) <==> a.to_set().insert(
                t,
            ).contains(x) by {
                if b.contains(x) {
                    let k = choose|k: int| 0 <= k < b.len() && b[k] == x;
                    if k < a.len() {
                        assert(a[k] == x);
                    }
                }
                if a.contains(x) {
                    let k = choose|k: int| 0 <= k < a.len() && a[k] == x;
                    assert(b[k] == x);
                }
                assert(b[i as int] == t);
            }
            assert(b.to_set() =~= a.to_set().insert(t));
            assert(gone.contains(t) == is_gone);
            assert(texts(out@).to_set() =~= b.to_set().difference(gone));
        }
        i = i + 1;
    }
    assert(all.take(i as int) =~= all);
    out
}

/// Folds a page of history into a delta: one visit per message, however many
/// times it was touched.
pub fn fold_history(records: &[Json], delta: &mut HistoryDelta)
    ensures
        final(delta)@ == folded(old(delta)@, records@),
{
    let mut touched: Vec<String> = Vec::new();
    let mut deleted: Vec<String> = Vec::new();
    assert(texts(touched@) =~= Seq::<Seq<char>>::empty());
    insert_all(&mut touched, &delta.touched);
    insert_all(&mut deleted, &delta.deleted);
    let ghost t0 = delta@.touched.to_set();
    let ghost d0 = delta@.deleted.to_set();
    let mut i: usize = 0;
    proof {
        assert(records@.take(0) =~= Seq::<Json>::empty());
        assert(texts(touched@).to_set() =~= t0 + touched_in(records@.take(0)));
        assert(texts(deleted@).to_set() =~= d0 + deleted_in(records@.take(0)));
    }
    while i < records.len()
        invariant
            i <= records@.len(),
            texts_ascending(texts(touched@)),
            texts_ascending(texts(deleted@)),
            texts(touched@).to_set() == t0 + touched_in(records@.take(i as int)),
            texts(deleted@).to_set() == d0 + deleted_in(records@.take(i as int)),
        decreases records@.len() - i,
    {
        let record: &Json = &records[i];
        insert_all(&mut touched, &message_ids_of(record, "messagesAdded"));
        insert_all(&mut touched, &message_ids_of(record, "labelsAdded"));
        insert_all(&mut touched, &message_ids_of(record, "labelsRemoved"));
        insert_all(&mut deleted, &message_ids_of(record, "messagesDeleted"));
        proof {
            assert(records@.take(i + 1).drop_last() =~= records@.take(i as int));
            assert(records@.take(i + 1).last() == records@[i as int]);
            assert(texts(touched@).to_set() =~= t0 + touched_in(records@.take(i + 1)));
            assert(texts(deleted@).to_set() =~= d0 + deleted_in(records@.take(i + 1)));
        }
        i = i + 1;
    }
    assert(records@.take(i as int) =~= records@);
    let kept: Vec<String> = those_not_in(&touched, &deleted);
    proof {
        lemma_text_listing(texts(kept@));
        lemma_text_listing(texts(deleted@));
    }
    delta.touched = kept;
    delta.deleted = deleted;
}

// ---- one pass ----

/// What one Gmail pass did.
#[derive(Debug, Clone, PartialEq, Eq)]
pub struct GmailOutcome {
    pub fetched: usize,
    pub reflagged: usize,
    /// Left this maildir: deleted, or moved to another label.
    pub removed: usize,
    pub pushed: DrainOutcome,
    /// The folder was read from scratch.
    pub bootstrapped: bool,
}

/// What a pass is waiting for.
#[derive(Debug, Clone, Copy, PartialEq, Eq, Structural)]
pub enum Stage {
    History,
    /// The labels of a message that history mentions.
    Touched,
    /// The bytes of one that is new here.
    TouchedRaw,
    /// The current history id, before the folder is listed.
    Profile,
    Listing,
    /// The labels of a message that was listed.
    Listed,
    /// The bytes of one that is not held.
    ListedRaw,
    Over,
}

/// What came back from the server.
#[derive(Debug)]
pub enum Event {
    /// A page of history.
    History(Json),
    /// The cursor is older than Gmail's retention.
    Expired,
    /// A message's metadata; nothing, if it was deleted in between.
    Metadata(Option<GmailMessage>),
    /// A message's octets; nothing, if it was deleted in between.
    Raw(Option<Vec<u8>>),
    /// The current history id.
    Profile(String),
    /// A page of ids.
    Listing(Json),
}

/// What is to be asked next.
#[derive(Debug)]
pub enum Action {
    History { since: String, token: Option<String> },
    Metadata(String),
    Raw(String),
    Profile,
    List { label: String, take: usize, token: Option<String> },
    Done,
}

pub enum Act {
    History { since: Seq<char>, token: Option<Seq<char>> },
    Metadata(Seq<char>),
    Raw(Seq<char>),
    Profile,
    List { label: Seq<char>, take: usize, token: Option<Seq<char>> },
    Done,
}

impl Action {
    pub open spec fn view(&self) -> Act {
        match self {
            Action::History { since, token } => Act::History {
                since: since@,
                token: opt_text(*token),
            },
            Action::Metadata(id) => Act::Metadata(id@),
            Action::Raw(id) => Act::Raw(id@),
            Action::Profile => Act::Profile,
            Action::List { label, take, token } => Act::List {
                label: label@,
                take: *take,
                token: opt_text(*token),
            },
            Action::Done => Act::Done,
        }
    }
}

/// One pass over one folder, after the queue was drained.
#[derive(Debug)]
pub struct Pass {
    pub slug: String,
    /// How many messages a listing asks for.
    pub limit: usize,
    pub ledger: Ledger,
    pub cursor: Option<String>,
    pub stage: Stage,
    pub bootstrapped: bool,
    pub since: String,
    pub delta: HistoryDelta,
    /// What was held when messages began to be settled.
    pub known: BTreeMap<u32, Flags>,
    /// Ids that are still to be settled.
    pub queue: Vec<String>,
    /// The message whose bytes are being fetched: its flags, its arrival, and
    /// its number.
    pub flags: Flags,
    pub arrived_ms: i64,
    pub uid: u32,
    pub present: Vec<u32>,
    pub opened_at: String,
    /// How many ids were listed.
    pub listed: usize,
}

/// A pass, as contracts speak of it.
#[verifier::ext_equal]
pub struct Progress {
    pub slug: Seq<char>,
    pub limit: usize,
    pub ids: Ids,
    pub counts: Counts,
    pub cursor: Option<Seq<char>>,
    pub stage: Stage,
    pub bootstrapped: bool,
    pub since: Seq<char>,
    pub delta: DeltaText,
    pub known: Map<u32, Flags>,
    pub queue: Seq<Seq<char>>,
    pub flags: Flags,
    pub arrived_ms: i64,
    pub uid: u32,
    pub present: Seq<u32>,
    pub opened_at: Seq<char>,
    pub listed: usize,
}

/// What one step of a pass comes to.
pub struct Moved {
    pub pass: Progress,
    pub contents: Contents,
    pub action: Act,
}

/// How many ids the next page is asked for.
pub open spec fn page_take(limit: usize, had: nat) -> usize {
    if limit - had < PAGE_SIZE {
        (limit - had) as usize
    } else {
        PAGE_SIZE
    }
}

/// The ids on a page of a listing.
pub open spec fn page_ids(list: Seq<Json>) -> Seq<Seq<char>>
    decreases list.len(),
{
    if list.len() == 0 {
        Seq::empty()
    } else {
        let front = page_ids(list.drop_last());
        match text(field(list.last(), "id"@)) {
            Some(id) => front.push(id),
            None => front,
        }
    }
}

pub open spec fn ids_on(page: Json) -> Seq<Seq<char>> {
    match items(field(page, "messages"@)) {
        Some(list) => page_ids(list),
        None => Seq::empty(),
    }
}

pub open spec fn records_on(page: Json) -> Seq<Json> {
    match items(field(page, "history"@)) {
        Some(list) => list,
        None => Seq::empty(),
    }
}

impl Progress {
    pub open spec fn books(self, contents: Contents) -> Books {
        Books { ids: self.ids, counts: self.counts, contents }
    }

    pub open spec fn with(self, books: Books) -> Progress {
        Progress { ids: books.ids, counts: books.counts, ..self }
    }

    pub open spec fn waits(self, stage: Stage, contents: Contents, action: Act) -> Moved {
        Moved { pass: Progress { stage, ..self }, contents, action }
    }

    pub open spec fn settled_one(self) -> Progress {
        Progress { queue: self.queue.skip(1), ..self }
    }

    pub open spec fn finished(self, contents: Contents) -> Moved {
        self.waits(
            Stage::Over,
            self.books(contents).committed(GMAIL_UID_VALIDITY).contents,
            Act::Done,
        )
    }

    /// The next message that history mentions; with all of them settled, what
    /// was deleted is dropped, and only then does the cursor advance.
    pub open spec fn touched_next(self, contents: Contents) -> Moved {
        if self.queue.len() > 0 {
            self.waits(Stage::Touched, contents, Act::Metadata(self.queue[0]))
        } else {
            let b = self.books(contents).all_dropped(self.delta.deleted);
            Progress {
                cursor: match self.delta.history_id {
                    Some(id) => Some(id),
                    None => self.cursor,
                },
                ..self.with(b)
            }.finished(b.contents)
        }
    }

    /// Is what was listed enough to tell what has left the folder? Not where
    /// nothing was listed, and not where the list was cut off.
    pub open spec fn complete(self) -> bool {
        0 < self.listed < self.limit
    }

    /// The next message that was listed; with all of them settled, what is no
    /// longer listed is dropped.
    pub open spec fn listed_next(self, contents: Contents) -> Moved {
        if self.queue.len() > 0 {
            self.waits(Stage::Listed, contents, Act::Metadata(self.queue[0]))
        } else {
            let b = if self.complete() {
                self.books(contents).swept(left_behind(self.known, self.present))
            } else {
                self.books(contents)
            };
            Progress { cursor: Some(self.opened_at), ..self.with(b) }.finished(b.contents)
        }
    }

    /// Everything is listed.
    pub open spec fn listing_done(self, contents: Contents) -> Moved {
        Progress {
            listed: self.queue.len() as usize,
            known: contents.entries,
            present: Seq::empty(),
            ..self
        }.listed_next(contents)
    }

    /// A page of history arrived.
    pub open spec fn on_history(self, contents: Contents, page: Json) -> Moved {
        let delta = page_folded(self.delta, page);
        let next = Progress { delta, ..self };
        match nonempty(text(field(page, "nextPageToken"@))) {
            Some(token) => next.waits(
                Stage::History,
                contents,
                Act::History { since: self.since, token: Some(token) },
            ),
            None => Progress {
                known: contents.entries,
                queue: delta.touched,
                ..next
            }.touched_next(contents),
        }
    }

    /// The labels of a message that history mentions arrived.
    pub open spec fn on_touched(self, contents: Contents, found: Option<MessageText>) -> Moved {
        let id = self.queue[0];
        match found {
            // Gone between the history page and now.
            None => {
                let b = self.books(contents).dropped(id);
                self.settled_one().with(b).touched_next(b.contents)
            },
            Some(m) => {
                let here = place(m.labels) == self.slug;
                if here && self.ids.uid_of(id) is None {
                    Progress {
                        flags: label_flags(m.labels),
                        arrived_ms: m.internal_date_ms,
                        ..self
                    }.waits(Stage::TouchedRaw, contents, Act::Raw(id))
                } else {
                    let b = self.books(contents).settled(
                        here,
                        id,
                        label_flags(m.labels),
                        self.known,
                    );
                    self.settled_one().with(b).touched_next(b.contents)
                }
            },
        }
    }

    /// The bytes of a message that is new here arrived.
    pub open spec fn on_touched_raw(self, contents: Contents, raw: Option<Seq<u8>>) -> Moved {
        let id = self.queue[0];
        match raw {
            None => self.settled_one().touched_next(contents),
            Some(bytes) => {
                let b = Books { ids: self.ids.with(id), ..self.books(contents) }.delivered(
                    self.ids.number_for(id),
                    self.flags,
                    bytes,
                    self.arrived_ms,
                );
                self.settled_one().with(b).touched_next(b.contents)
            },
        }
    }

    /// The current history id arrived. It is read before the listing, so that a
    /// change landing during the bootstrap is caught by the next delta.
    pub open spec fn on_profile(self, contents: Contents, at: Seq<char>) -> Moved {
        let next = Progress { opened_at: at, queue: Seq::empty(), ..self };
        match bootstrap_label(self.slug) {
            None => Progress { cursor: Some(at), ..next }.finished(contents),
            Some(label) => if self.limit == 0 {
                next.listing_done(contents)
            } else {
                next.waits(
                    Stage::Listing,
                    contents,
                    Act::List { label, take: page_take(self.limit, 0), token: None },
                )
            },
        }
    }

    /// A page of ids arrived.
    pub open spec fn on_listing(self, contents: Contents, page: Json) -> Moved {
        let ids = self.queue + ids_on(page);
        let next = Progress { queue: ids, ..self };
        match (nonempty(text(field(page, "nextPageToken"@))), bootstrap_label(self.slug)) {
            (Some(token), Some(label)) => if ids.len() < self.limit {
                next.waits(
                    Stage::Listing,
                    contents,
                    Act::List {
                        label,
                        take: page_take(self.limit, ids.len()),
                        token: Some(token),
                    },
                )
            } else {
                next.listing_done(contents)
            },
            _ => next.listing_done(contents),
        }
    }

    /// The labels of a message that was listed arrived.
    pub open spec fn on_listed(self, contents: Contents, found: Option<MessageText>) -> Moved {
        let id = self.queue[0];
        match found {
            None => self.settled_one().listed_next(contents),
            // Listed under the label but shown elsewhere: a binned message still
            // carries INBOX.
            Some(m) => if place(m.labels) != self.slug {
                self.settled_one().listed_next(contents)
            } else {
                let uid = self.ids.number_for(id);
                let named = Progress {
                    ids: self.ids.with(id),
                    present: self.present.push(uid),
                    ..self
                };
                if self.known.contains_key(uid) {
                    let b = named.books(contents).reflagged(
                        uid,
                        label_flags(m.labels),
                        self.known,
                    );
                    named.settled_one().with(b).listed_next(b.contents)
                } else {
                    Progress {
                        uid,
                        flags: label_flags(m.labels),
                        arrived_ms: m.internal_date_ms,
                        ..named
                    }.waits(Stage::ListedRaw, contents, Act::Raw(id))
                }
            },
        }
    }

    /// The bytes of a message that was listed arrived.
    pub open spec fn on_listed_raw(self, contents: Contents, raw: Option<Seq<u8>>) -> Moved {
        match raw {
            None => self.settled_one().listed_next(contents),
            Some(bytes) => {
                let b = self.books(contents).delivered(
                    self.uid,
                    self.flags,
                    bytes,
                    self.arrived_ms,
                );
                self.settled_one().with(b).listed_next(b.contents)
            },
        }
    }

    /// The books with the message that was asked for stored, if it arrived.
    pub open spec fn arrival(self, contents: Contents, event: Event) -> Option<Books> {
        match (self.stage, event) {
            (Stage::TouchedRaw, Event::Raw(Some(bytes))) => {
                let id = self.queue[0];
                Some(
                    Books { ids: self.ids.with(id), ..self.books(contents) }.delivered(
                        self.ids.number_for(id),
                        self.flags,
                        bytes@,
                        self.arrived_ms,
                    ),
                )
            },
            _ => None,
        }
    }

    /// Is the folder being read in full, rather than by its history?
    pub open spec fn reads_in_full(self) -> bool {
        self.stage is Profile || self.stage is Listing || self.stage is Listed || self.stage
            is ListedRaw
    }

    /// A pass that could not take this event, and a store left so, replay their
    /// window: the cursor is where it was, and no message that history mentions
    /// got a number without being stored. A full read goes by what the store
    /// holds, whatever has a number.
    pub open spec fn replays(
        self,
        contents: Contents,
        event: Event,
        failed: Progress,
        left: Contents,
    ) -> bool {
        &&& failed.cursor == self.cursor
        &&& self.reads_in_full() || safely(self.books(contents), failed.books(left)) || (self.arrival(contents, event)
            is Some && safely(self.arrival(contents, event)->0, failed.books(left)))
    }

    /// Do the labels of a message that history mentions ask nothing of the store? It
    /// is new here, or stands as it is and is not the last.
    pub open spec fn touched_stands(self, contents: Contents, found: Option<MessageText>) -> bool {
        let id = self.queue[0];
        match found {
            None => self.ids.uid_of(id) is None && self.queue.len() > 1,
            Some(m) => {
                let here = place(m.labels) == self.slug;
                (here && self.ids.uid_of(id) is None) || (self.books(contents).stands(
                    here,
                    id,
                    label_flags(m.labels),
                    self.known,
                ) && self.queue.len() > 1)
            },
        }
    }

    /// Do the labels of a message that was listed ask nothing of the store? It is not
    /// held, or stands as it is and is not the last.
    pub open spec fn listed_stands(self, found: Option<MessageText>) -> bool {
        let uid = self.ids.number_for(self.queue[0]);
        match found {
            None => self.queue.len() > 1,
            Some(m) => if place(m.labels) != self.slug {
                self.queue.len() > 1
            } else {
                !self.known.contains_key(uid) || (held_flags(self.known, uid) == Some(
                    label_flags(m.labels),
                ) && self.queue.len() > 1)
            },
        }
    }

    /// Is this an event that asks nothing of the store? Such a step cannot fail.
    pub open spec fn asks_nothing(self, contents: Contents, event: Event) -> bool {
        match (self.stage, event) {
            (Stage::History, Event::History(page)) => nonempty(
                text(field(page, "nextPageToken"@)),
            ) is Some,
            (Stage::History, Event::Expired) => true,
            (Stage::Touched, Event::Metadata(found)) => self.queue.len() > 0
                && self.touched_stands(contents, message_view(found)),
            (Stage::TouchedRaw, Event::Raw(None)) => self.queue.len() > 1,
            (Stage::Profile, Event::Profile(_)) => bootstrap_label(self.slug) is Some && self.limit
                > 0,
            (Stage::Listing, Event::Listing(page)) => nonempty(
                text(field(page, "nextPageToken"@)),
            ) is Some && bootstrap_label(self.slug) is Some && self.queue.len() + ids_on(page).len()
                < self.limit,
            (Stage::Listed, Event::Metadata(found)) => self.queue.len() > 0 && self.listed_stands(
                message_view(found),
            ),
            (Stage::ListedRaw, Event::Raw(None)) => self.queue.len() > 1,
            _ => false,
        }
    }

    /// What an event comes to; nothing, if this is not what the pass is waiting
    /// for.
    pub open spec fn advanced(self, contents: Contents, event: Event) -> Option<Moved> {
        match (self.stage, event) {
            (Stage::History, Event::History(page)) => Some(self.on_history(contents, page)),
            // Not an error, and not "nothing changed".
            (Stage::History, Event::Expired) => Some(
                Progress { cursor: None, bootstrapped: true, ..self }.waits(
                    Stage::Profile,
                    contents,
                    Act::Profile,
                ),
            ),
            (Stage::Touched, Event::Metadata(found)) => if self.queue.len() > 0 {
                Some(self.on_touched(contents, message_view(found)))
            } else {
                None
            },
            (Stage::TouchedRaw, Event::Raw(raw)) => if self.queue.len() > 0 {
                Some(self.on_touched_raw(contents, raw_view(raw)))
            } else {
                None
            },
            (Stage::Profile, Event::Profile(at)) => Some(self.on_profile(contents, at@)),
            (Stage::Listing, Event::Listing(page)) => Some(self.on_listing(contents, page)),
            (Stage::Listed, Event::Metadata(found)) => if self.queue.len() > 0 {
                Some(self.on_listed(contents, message_view(found)))
            } else {
                None
            },
            (Stage::ListedRaw, Event::Raw(raw)) => if self.queue.len() > 0 {
                Some(self.on_listed_raw(contents, raw_view(raw)))
            } else {
                None
            },
            _ => None,
        }
    }
}

/// A delta with a page of history folded in.
pub open spec fn page_folded(delta: DeltaText, page: Json) -> DeltaText {
    let more = folded(delta, records_on(page));
    DeltaText {
        history_id: match nonempty(text(field(page, "historyId"@))) {
            Some(id) => Some(id),
            None => more.history_id,
        },
        ..more
    }
}

fn fold_page(page: &Json, delta: &mut HistoryDelta)
    ensures
        final(delta)@ == page_folded(old(delta)@, *page),
{
    match page.array_at("history") {
        Some(records) => fold_history(records, delta),
        None => {
            let none: Vec<Json> = Vec::new();
            assert(none@ =~= Seq::<Json>::empty());
            fold_history(&none, delta);
        },
    }
    if let Some(id) = nonempty_at(page, "historyId") {
        delta.history_id = Some(id);
    }
}

pub open spec fn message_view(m: Option<GmailMessage>) -> Option<MessageText> {
    match m {
        Some(m) => Some(m@),
        None => None,
    }
}

pub open spec fn raw_view(raw: Option<Vec<u8>>) -> Option<Seq<u8>> {
    match raw {
        Some(b) => Some(b@),
        None => None,
    }
}

fn append_page_ids(ids: &mut Vec<String>, page: &Json)
    ensures
        texts(final(ids)@) == texts(old(ids)@) + ids_on(*page),
{
    let ghost start = texts(ids@);
    let list: &Vec<Json> = match page.array_at("messages") {
        Some(l) => l,
        None => {
            assert(start + Seq::<Seq<char>>::empty() =~= start);
            return ;
        },
    };
    let mut i: usize = 0;
    assert(list@.take(0) =~= Seq::<Json>::empty());
    assert(texts(ids@) =~= start + page_ids(list@.take(0)));
    while i < list.len()
        invariant
            i <= list@.len(),
            texts(ids@) == start + page_ids(list@.take(i as int)),
        decreases list@.len() - i,
    {
        proof {
            assert(list@.take(i + 1).drop_last() =~= list@.take(i as int));
            assert(list@.take(i + 1).last() == list@[i as int]);
        }
        let ghost before = ids@;
        if let Some(id) = list[i].text_at("id") {
            ids.push(id.to_owned());
            assert(texts(ids@) =~= texts(before).push(id@));
            assert(texts(ids@) =~= start + page_ids(list@.take(i + 1)));
        }
        i = i + 1;
    }
    assert(list@.take(i as int) =~= list@);
}

fn take_of(limit: usize, had: usize) -> (r: usize)
    requires
        had <= limit,
    ensures
        r == page_take(limit, had as nat),
{
    if limit - had < PAGE_SIZE {
        limit - had
    } else {
        PAGE_SIZE
    }
}

impl Pass {
    pub open spec fn view(&self) -> Progress {
        Progress {
            slug: self.slug@,
            limit: self.limit,
            ids: self.ledger.ids@,
            counts: self.ledger.counts,
            cursor: opt_text(self.cursor),
            stage: self.stage,
            bootstrapped: self.bootstrapped,
            since: self.since@,
            delta: self.delta@,
            known: self.known@,
            queue: texts(self.queue@),
            flags: self.flags,
            arrived_ms: self.arrived_ms,
            uid: self.uid,
            present: self.present@,
            opened_at: self.opened_at@,
            listed: self.listed,
        }
    }

    pub open spec fn wf(&self) -> bool {
        self.ledger.wf()
    }

    /// Begins a pass: from the cursor, or with a bootstrap where there is none.
    #[must_use]
    pub fn open(state: RemoteIds, slug: &str, limit: usize) -> (r: (Pass, Action))
        requires
            state.wf(),
        ensures
            r.0.wf(),
            r.0@.slug == slug@,
            r.0@.limit == limit,
            r.0@.ids == state.ids(),
            r.0@.cursor == state.at(),
            r.0@.counts == no_counts(),
            r.0@.delta == no_delta(),
            match state.at() {
                Some(since) => r.0@.stage == Stage::History && r.0@.since == since
                    && !r.0@.bootstrapped && r.1@ == (Act::History { since, token: None }),
                None => r.0@.stage == Stage::Profile && r.0@.bootstrapped && r.1@ == Act::Profile,
            },
    {
        let (ids, cursor) = state.into_parts();
        let (stage, since, action): (Stage, String, Action) = match &cursor {
            Some(s) => (
                Stage::History,
                s.clone(),
                Action::History { since: s.clone(), token: None },
            ),
            None => (Stage::Profile, String::new(), Action::Profile),
        };
        let bootstrapped: bool = match stage {
            Stage::Profile => true,
            _ => false,
        };
        let pass: Pass = Pass {
            slug: slug.to_owned(),
            limit,
            ledger: Ledger { ids, counts: Counts::default() },
            cursor,
            stage,
            bootstrapped,
            since,
            delta: HistoryDelta::default(),
            known: BTreeMap::new(),
            queue: Vec::new(),
            flags: Flags::default(),
            arrived_ms: 0,
            uid: 0,
            present: Vec::new(),
            opened_at: String::new(),
            listed: 0,
        };
        (pass, action)
    }

    /// What is remembered of a pass that is over, or that was given up, and what
    /// it did.
    #[must_use]
    pub fn close(self, pushed: DrainOutcome) -> (r: (RemoteIds, GmailOutcome))
        requires
            self.wf(),
        ensures
            r.0.wf(),
            r.0.ids() == self@.ids,
            r.0.at() == self@.cursor,
            r.1.fetched == self@.counts.fetched,
            r.1.reflagged == self@.counts.reflagged,
            r.1.removed == self@.counts.removed,
            r.1.pushed == pushed,
            r.1.bootstrapped == self@.bootstrapped,
    {
        let outcome: GmailOutcome = GmailOutcome {
            fetched: self.ledger.counts.fetched,
            reflagged: self.ledger.counts.reflagged,
            removed: self.ledger.counts.removed,
            pushed,
            bootstrapped: self.bootstrapped,
        };
        (RemoteIds::from_parts(self.ledger.ids, self.cursor), outcome)
    }

    /// Is this what is being waited for?
    fn awaits(&self, event: &Event) -> (r: bool)
        ensures
            forall|c: Contents| (#[trigger] self@.advanced(c, *event) is Some) == r,
    {
        assert(texts(self.queue@).len() == self.queue@.len());
        match (self.stage, event) {
            (Stage::History, Event::History(_)) => true,
            (Stage::History, Event::Expired) => true,
            (Stage::Touched, Event::Metadata(_)) => self.queue.len() > 0,
            (Stage::TouchedRaw, Event::Raw(_)) => self.queue.len() > 0,
            (Stage::Profile, Event::Profile(_)) => true,
            (Stage::Listing, Event::Listing(_)) => true,
            (Stage::Listed, Event::Metadata(_)) => self.queue.len() > 0,
            (Stage::ListedRaw, Event::Raw(_)) => self.queue.len() > 0,
            _ => false,
        }
    }

    /// The next step of the pass, given what came back from the server. An event
    /// that the pass is not waiting for is refused. Where a step fails, the window
    /// is replayed by the pass that is opened next.
    pub fn advance<S: MailStore>(&mut self, store: &mut S, event: Event) -> (r: Result<Action>)
        requires
            old(self).wf(),
        ensures
            final(self).wf(),
            r matches Ok(action) ==> old(self)@.advanced(old(store).contents(), event) == Some(
                Moved { pass: final(self)@, contents: final(store).contents(), action: action@ },
            ),
            old(store).dependable() && old(self)@.advanced(old(store).contents(), event) is Some
                ==> r is Ok && final(store).dependable(),
            old(self)@.asks_nothing(old(store).contents(), event) ==> r is Ok,
            old(self)@.advanced(old(store).contents(), event) is None ==> r is Err
                && *final(self) == *old(self) && final(store).contents() == old(
                store,
            ).contents(),
            r is Err ==> old(self)@.replays(
                old(store).contents(),
                event,
                final(self)@,
                final(store).contents(),
            ),
            // A step that failed ends it: nothing that follows can go past what
            // could not be taken.
            r is Err && old(self)@.advanced(old(store).contents(), event) is Some
                ==> final(self)@.stage == Stage::Over,
    {
        let due: bool = self.awaits(&event);
        match self.step(store, event) {
            Ok(action) => Ok(action),
            Err(why) => {
                if due {
                    self.stage = Stage::Over;
                }
                Err(why)
            },
        }
    }

    fn step<S: MailStore>(&mut self, store: &mut S, event: Event) -> (r: Result<Action>)
        requires
            old(self).wf(),
        ensures
            final(self).wf(),
            r matches Ok(action) ==> old(self)@.advanced(old(store).contents(), event) == Some(
                Moved { pass: final(self)@, contents: final(store).contents(), action: action@ },
            ),
            old(store).dependable() && old(self)@.advanced(old(store).contents(), event) is Some
                ==> r is Ok && final(store).dependable(),
            old(self)@.asks_nothing(old(store).contents(), event) ==> r is Ok,
            old(self)@.advanced(old(store).contents(), event) is None ==> r is Err
                && *final(self) == *old(self) && final(store).contents() == old(
                store,
            ).contents(),
            r is Err ==> old(self)@.replays(
                old(store).contents(),
                event,
                final(self)@,
                final(store).contents(),
            ),
    {
        assert(texts(self.queue@).len() == self.queue@.len());
        match (self.stage, event) {
            (Stage::History, Event::History(page)) => self.take_history(store, &page),
            (Stage::History, Event::Expired) => {
                self.cursor = None;
                self.bootstrapped = true;
                self.stage = Stage::Profile;
                Ok(Action::Profile)
            },
            (Stage::Touched, Event::Metadata(found)) => if self.queue.len() == 0 {
                not_waiting()
            } else {
                self.take_touched(store, found)
            },
            (Stage::TouchedRaw, Event::Raw(raw)) => if self.queue.len() == 0 {
                not_waiting()
            } else {
                self.take_touched_raw(store, raw)
            },
            (Stage::Profile, Event::Profile(at)) => self.take_profile(store, at),
            (Stage::Listing, Event::Listing(page)) => self.take_listing(store, &page),
            (Stage::Listed, Event::Metadata(found)) => if self.queue.len() == 0 {
                not_waiting()
            } else {
                self.take_listed(store, found)
            },
            (Stage::ListedRaw, Event::Raw(raw)) => if self.queue.len() == 0 {
                not_waiting()
            } else {
                self.take_listed_raw(store, raw)
            },
            _ => not_waiting(),
        }
    }

    fn take_touched_raw<S: MailStore>(&mut self, store: &mut S, raw: Option<Vec<u8>>) -> (r: Result<
        Action,
    >)
        requires
            old(self).wf(),
            old(self).queue@.len() > 0,
            old(self).stage == Stage::TouchedRaw,
        ensures
            final(self).wf(),
            r matches Ok(action) ==> old(self)@.on_touched_raw(
                old(store).contents(),
                raw_view(raw),
            ) == (Moved {
                pass: final(self)@,
                contents: final(store).contents(),
                action: action@,
            }),
            r is Err ==> old(self)@.replays(
                old(store).contents(),
                Event::Raw(raw),
                final(self)@,
                final(store).contents(),
            ),
            old(store).dependable() ==> r is Ok && final(store).dependable(),
            raw is None && old(self)@.queue.len() > 1 ==> r is Ok,
    {
        assert(texts(self.queue@)[0] == self.queue@[0]@);
        if let Some(bytes) = raw {
            match self.ledger.deliver_new(
                store,
                &self.queue[0],
                self.flags,
                bytes,
                self.arrived_ms,
            ) {
                Ok(()) => {},
                Err(why) => {
                    return Err(why);
                },
            }
        }
        self.next_in_queue();
        self.to_next_touched(store)
    }

    fn take_listed_raw<S: MailStore>(&mut self, store: &mut S, raw: Option<Vec<u8>>) -> (r: Result<
        Action,
    >)
        requires
            old(self).wf(),
            old(self).queue@.len() > 0,
        ensures
            final(self).wf(),
            r matches Ok(action) ==> old(self)@.on_listed_raw(
                old(store).contents(),
                raw_view(raw),
            ) == (Moved {
                pass: final(self)@,
                contents: final(store).contents(),
                action: action@,
            }),
            r is Err ==> final(self)@.cursor == old(self)@.cursor,
            old(store).dependable() ==> r is Ok && final(store).dependable(),
            raw is None && old(self)@.queue.len() > 1 ==> r is Ok,
    {
        if let Some(bytes) = raw {
            match self.store_message(store, self.uid, bytes) {
                Ok(()) => {},
                Err(why) => {
                    return Err(why);
                },
            }
        }
        self.next_in_queue();
        self.to_next_listed(store)
    }

    #[verifier::rlimit(40)]
    fn take_profile<S: MailStore>(&mut self, store: &mut S, at: String) -> (r: Result<Action>)
        requires
            old(self).wf(),
        ensures
            final(self).wf(),
            r matches Ok(action) ==> old(self)@.on_profile(old(store).contents(), at@) == (Moved {
                pass: final(self)@,
                contents: final(store).contents(),
                action: action@,
            }),
            r is Err ==> final(self)@.cursor == old(self)@.cursor,
            old(store).dependable() ==> r is Ok && final(store).dependable(),
            bootstrap_label(old(self)@.slug) is Some && old(self)@.limit > 0 ==> r is Ok,
    {
        self.queue = Vec::new();
        assert(texts(self.queue@) =~= Seq::<Seq<char>>::empty());
        match label_of(&self.slug) {
            None => {
                self.opened_at = at.clone();
                self.finish(store, Some(at))
            },
            Some(label) => {
                self.opened_at = at;
                if self.limit == 0 {
                    self.end_listing(store)
                } else {
                    self.stage = Stage::Listing;
                    Ok(
                        Action::List {
                            label: label.to_owned(),
                            take: take_of(self.limit, 0),
                            token: None,
                        },
                    )
                }
            },
        }
    }

    fn take_listing<S: MailStore>(&mut self, store: &mut S, page: &Json) -> (r: Result<Action>)
        requires
            old(self).wf(),
            old(self).stage == Stage::Listing,
        ensures
            final(self).wf(),
            r matches Ok(action) ==> old(self)@.on_listing(old(store).contents(), *page) == (
            Moved { pass: final(self)@, contents: final(store).contents(), action: action@ }),
            r is Err ==> final(self)@.cursor == old(self)@.cursor,
            old(store).dependable() ==> r is Ok && final(store).dependable(),
            old(self)@.asks_nothing(old(store).contents(), Event::Listing(*page)) ==> r is Ok,
    {
        append_page_ids(&mut self.queue, page);
        assert(texts(self.queue@).len() == self.queue@.len());
        if self.queue.len() < self.limit {
            match (nonempty_at(page, "nextPageToken"), label_of(&self.slug)) {
                (Some(token), Some(label)) => {
                    self.stage = Stage::Listing;
                    return Ok(
                        Action::List {
                            label: label.to_owned(),
                            take: take_of(self.limit, self.queue.len()),
                            token: Some(token),
                        },
                    );
                },
                _ => {},
            }
        }
        self.end_listing(store)
    }

    fn store_message<S: MailStore>(&mut self, store: &mut S, uid: u32, raw: Vec<u8>) -> (r: Result<
        (),
    >)
        requires
            old(self).wf(),
        ensures
            final(self).wf(),
            r is Ok ==> ({
                let b = old(self)@.books(old(store).contents()).delivered(
                    uid,
                    old(self)@.flags,
                    raw@,
                    old(self)@.arrived_ms,
                );
                final(self)@ == old(self)@.with(b) && final(store).contents() == b.contents
            }),
            final(self).queue == old(self).queue,
            r is Err ==> *final(self) == *old(self),
            old(store).dependable() ==> r is Ok && final(store).dependable(),
    {
        let message: RemoteMessage = RemoteMessage {
            uid,
            flags: self.flags,
            raw,
            internal_date_ms: self.arrived_ms,
        };
        self.ledger.deliver(store, &message)
    }

    fn next_in_queue(&mut self)
        requires
            old(self).queue@.len() > 0,
        ensures
            final(self)@ == old(self)@.settled_one(),
            final(self).wf() == old(self).wf(),
    {
        let ghost before = self.queue@;
        self.queue.remove(0);
        assert(texts(self.queue@) =~= texts(before).skip(1));
    }

    fn take_history<S: MailStore>(&mut self, store: &mut S, page: &Json) -> (r: Result<Action>)
        requires
            old(self).wf(),
            old(self).stage == Stage::History,
        ensures
            final(self).wf(),
            r matches Ok(action) ==> old(self)@.on_history(old(store).contents(), *page) == (
            Moved { pass: final(self)@, contents: final(store).contents(), action: action@ }),
            r is Err ==> final(self)@.cursor == old(self)@.cursor && safely(
                old(self)@.books(old(store).contents()),
                final(self)@.books(final(store).contents()),
            ),
            old(store).dependable() ==> r is Ok && final(store).dependable(),
            nonempty(text(field(*page, "nextPageToken"@))) is Some ==> r is Ok,
    {
        fold_page(page, &mut self.delta);
        if let Some(token) = nonempty_at(page, "nextPageToken") {
            return Ok(Action::History { since: self.since.clone(), token: Some(token) });
        }
        self.known = match store.state() {
            Ok(s) => s.entries,
            Err(why) => {
                return Err(why);
            },
        };
        self.queue = behind(&self.delta.touched, 0);
        assert(texts(self.queue@) =~= texts(self.delta.touched@));
        self.to_next_touched(store)
    }

    fn take_touched<S: MailStore>(&mut self, store: &mut S, found: Option<GmailMessage>) -> (r:
        Result<Action>)
        requires
            old(self).wf(),
            old(self).queue@.len() > 0,
        ensures
            final(self).wf(),
            r matches Ok(action) ==> old(self)@.on_touched(
                old(store).contents(),
                message_view(found),
            ) == (Moved {
                pass: final(self)@,
                contents: final(store).contents(),
                action: action@,
            }),
            r is Err ==> final(self)@.cursor == old(self)@.cursor && safely(
                old(self)@.books(old(store).contents()),
                final(self)@.books(final(store).contents()),
            ),
            old(store).dependable() ==> r is Ok && final(store).dependable(),
            old(self)@.touched_stands(old(store).contents(), message_view(found)) ==> r is Ok,
    {
        let ghost start = self@.books(store.contents());
        assert(texts(self.queue@)[0] == self.queue@[0]@);
        match found {
            None => {
                match self.ledger.drop_id(store, &self.queue[0]) {
                    Ok(()) => {},
                    Err(why) => {
                        return Err(why);
                    },
                }
            },
            Some(m) => {
                let here: bool = same(m.folder(), &self.slug);
                if here && self.ledger.ids.uid_of(&self.queue[0]).is_none() {
                    self.flags = m.flags();
                    self.arrived_ms = m.internal_date_ms;
                    self.stage = Stage::TouchedRaw;
                    return Ok(Action::Raw(self.queue[0].clone()));
                }
                match self.ledger.settle(
                    store,
                    here,
                    &self.queue[0],
                    m.flags(),
                    &self.known,
                ) {
                    Ok(()) => {},
                    Err(why) => {
                        return Err(why);
                    },
                }
            },
        }
        self.next_in_queue();
        let ghost here = self@.books(store.contents());
        let done: Result<Action> = self.to_next_touched(store);
        proof {
            if done is Err {
                lemma_safely(start, here, self@.books(store.contents()));
            }
        }
        done
    }

    fn take_listed<S: MailStore>(&mut self, store: &mut S, found: Option<GmailMessage>) -> (r:
        Result<Action>)
        requires
            old(self).wf(),
            old(self).queue@.len() > 0,
        ensures
            final(self).wf(),
            r matches Ok(action) ==> old(self)@.on_listed(
                old(store).contents(),
                message_view(found),
            ) == (Moved {
                pass: final(self)@,
                contents: final(store).contents(),
                action: action@,
            }),
            r is Err ==> final(self)@.cursor == old(self)@.cursor,
            old(store).dependable() ==> r is Ok && final(store).dependable(),
            old(self)@.listed_stands(message_view(found)) ==> r is Ok,
    {
        assert(texts(self.queue@)[0] == self.queue@[0]@);
        if let Some(m) = found {
            if same(m.folder(), &self.slug) {
                let uid: u32 = self.ledger.ids.uid_for(&self.queue[0]);
                self.present.push(uid);
                if flags_known(&self.known, uid).is_none() {
                    self.uid = uid;
                    self.flags = m.flags();
                    self.arrived_ms = m.internal_date_ms;
                    self.stage = Stage::ListedRaw;
                    return Ok(Action::Raw(self.queue[0].clone()));
                }
                match self.ledger.reflag(store, uid, m.flags(), &self.known) {
                    Ok(()) => {},
                    Err(why) => {
                        return Err(why);
                    },
                }
            }
        }
        self.next_in_queue();
        self.to_next_listed(store)
    }

    fn to_next_touched<S: MailStore>(&mut self, store: &mut S) -> (r: Result<Action>)
        requires
            old(self).wf(),
        ensures
            final(self).wf(),
            r matches Ok(action) ==> old(self)@.touched_next(old(store).contents()) == (Moved {
                pass: final(self)@,
                contents: final(store).contents(),
                action: action@,
            }),
            r is Err ==> final(self)@.cursor == old(self)@.cursor && safely(
                old(self)@.books(old(store).contents()),
                final(self)@.books(final(store).contents()),
            ),
            old(store).dependable() ==> r is Ok && final(store).dependable(),
            old(self)@.queue.len() > 0 ==> r is Ok,
    {
        assert(texts(self.queue@).len() == self.queue@.len());
        if self.queue.len() > 0 {
            assert(texts(self.queue@)[0] == self.queue@[0]@);
            self.stage = Stage::Touched;
            return Ok(Action::Metadata(self.queue[0].clone()));
        }
        let ghost start = self@.books(store.contents());
        match self.ledger.drop_ids(store, &self.delta.deleted) {
            Ok(()) => {},
            Err(why) => {
                return Err(why);
            },
        }
        let ghost here = self@.books(store.contents());
        let cursor: Option<String> = self.delta.history_id.clone();
        let done: Result<Action> = self.finish(store, cursor);
        proof {
            lemma_safely(start, here, self@.books(store.contents()));
        }
        done
    }

    fn end_listing<S: MailStore>(&mut self, store: &mut S) -> (r: Result<Action>)
        requires
            old(self).wf(),
        ensures
            final(self).wf(),
            r matches Ok(action) ==> old(self)@.listing_done(old(store).contents()) == (Moved {
                pass: final(self)@,
                contents: final(store).contents(),
                action: action@,
            }),
            r is Err ==> final(self)@.cursor == old(self)@.cursor,
            old(store).dependable() ==> r is Ok && final(store).dependable(),
    {
        assert(texts(self.queue@).len() == self.queue@.len());
        self.listed = self.queue.len();
        self.present = Vec::new();
        self.known = match store.state() {
            Ok(s) => s.entries,
            Err(why) => {
                return Err(why);
            },
        };
        self.to_next_listed(store)
    }

    fn to_next_listed<S: MailStore>(&mut self, store: &mut S) -> (r: Result<Action>)
        requires
            old(self).wf(),
        ensures
            final(self).wf(),
            r matches Ok(action) ==> old(self)@.listed_next(old(store).contents()) == (Moved {
                pass: final(self)@,
                contents: final(store).contents(),
                action: action@,
            }),
            r is Err ==> final(self)@.cursor == old(self)@.cursor,
            old(store).dependable() ==> r is Ok && final(store).dependable(),
            old(self)@.queue.len() > 0 ==> r is Ok,
    {
        assert(texts(self.queue@).len() == self.queue@.len());
        if self.queue.len() > 0 {
            assert(texts(self.queue@)[0] == self.queue@[0]@);
            self.stage = Stage::Listed;
            return Ok(Action::Metadata(self.queue[0].clone()));
        }
        if 0 < self.listed && self.listed < self.limit {
            let gone: Vec<u32> = left_behind_of(&self.known, &self.present);
            match self.ledger.sweep(store, &gone) {
                Ok(()) => {},
                Err(why) => {
                    return Err(why);
                },
            }
        }
        let cursor: Option<String> = Some(self.opened_at.clone());
        self.finish(store, cursor)
    }

    /// Ends the pass: the store's cursor is committed, and only then does the
    /// pass take over this one, if there is one to take over.
    fn finish<S: MailStore>(&mut self, store: &mut S, cursor: Option<String>) -> (r: Result<
        Action,
    >)
        requires
            old(self).wf(),
        ensures
            final(self).wf(),
            r matches Ok(action) ==> (Progress {
                cursor: match cursor {
                    Some(at) => Some(at@),
                    None => old(self)@.cursor,
                },
                ..old(self)@
            }).finished(old(store).contents()) == (Moved {
                pass: final(self)@,
                contents: final(store).contents(),
                action: action@,
            }),
            r is Err ==> final(self)@.cursor == old(self)@.cursor,
            safely(
                old(self)@.books(old(store).contents()),
                final(self)@.books(final(store).contents()),
            ),
            old(store).dependable() ==> r is Ok && final(store).dependable(),
    {
        match self.ledger.commit(store, GMAIL_UID_VALIDITY) {
            Ok(()) => {},
            Err(why) => {
                return Err(why);
            },
        }
        if let Some(at) = cursor {
            self.cursor = Some(at);
        }
        self.stage = Stage::Over;
        Ok(Action::Done)
    }
}

fn not_waiting() -> (r: Result<Action>)
    ensures
        r is Err,
{
    Err(Error::Gmail("the pass is not waiting for that".to_owned()))
}

// ---- what holds of every pass ----

/// The cursor advances only with the whole window applied, and to what the
/// window was reported with; a window that names no cursor leaves it alone.
pub proof fn the_cursor_advances_last(p: Progress, contents: Contents)
    ensures
        ({
            let m = p.touched_next(contents);
            if m.action is Done && p.delta.history_id is Some {
                m.pass.cursor == p.delta.history_id
            } else {
                m.pass.cursor == p.cursor
            }
        }),
{
}

/// An expired cursor drops nothing and is not taken for "nothing changed": the
/// folder is read again.
pub proof fn an_expired_cursor_is_bootstrapped(p: Progress, contents: Contents)
    requires
        p.stage == Stage::History,
    ensures
        ({
            let m = p.advanced(contents, Event::Expired)->0;
            &&& p.advanced(contents, Event::Expired) is Some
            &&& m.contents == contents
            &&& m.pass.ids == p.ids
            &&& m.pass.cursor is None
            &&& m.pass.bootstrapped
            &&& m.action == Act::Profile
        }),
{
}

/// A listing that came back empty, or was cut off at the limit, drops nothing.
pub proof fn an_incomplete_listing_drops_nothing(p: Progress, contents: Contents)
    requires
        p.queue.len() == 0,
        p.listed == 0 || p.listed >= p.limit,
    ensures
        ({
            let m = p.listed_next(contents);
            &&& m.contents.entries == contents.entries
            &&& m.contents.raws == contents.raws
            &&& m.contents.dates == contents.dates
            &&& m.pass.ids == p.ids
            &&& m.pass.counts == p.counts
        }),
{
}

/// A flag set that does not change sends nothing.
pub proof fn no_change_sends_nothing(flags: Flags)
    ensures
        labels_added(flags, flags).len() == 0,
        labels_removed(flags, flags).len() == 0,
{
}

/// A pass that is over, because it came to its end or because a step of it failed,
/// takes nothing more.
pub proof fn an_ended_pass_takes_nothing(p: Progress, contents: Contents, event: Event)
    requires
        p.stage == Stage::Over,
    ensures
        p.advanced(contents, event) is None,
{
}

/// A message that a failed pass could not store is still new to the next one: its
/// id has no number, so that it is fetched again.
pub proof fn what_was_not_stored_is_still_new(
    p: Progress,
    contents: Contents,
    event: Event,
    failed: Progress,
    left: Contents,
    id: Seq<char>,
)
    requires
        p.replays(contents, event, failed, left),
        !p.reads_in_full(),
        p.ids.uid_of(id) is None,
        !p.ids.uids.contains_value(p.ids.next),
        !left.raws.contains_key(p.ids.next),
    ensures
        failed.ids.uid_of(id) is None,
{
    if failed.ids.uids.contains_key(id) {
        let b = p.arrival(contents, event)->0;
        assert(b.ids.uids.contains_key(id));
        assert forall|other: Seq<char>| #[trigger]
            b.ids.uids.contains_key(other) && other != id implies b.ids.uids[other]
            != b.ids.uids[id] by {
            assert(p.ids.uids.contains_key(other));
        }
        assert(b.ids.alone(id));
    }
}

// ---- what a pass does with each message ----

/// What labels mean: what is not marked unread has been read, and a star is a flag.
pub proof fn what_labels_mean(labels: Seq<Seq<char>>)
    ensures
        label_flags(labels).seen <==> !labels.contains("UNREAD"@),
        label_flags(labels).flagged <==> labels.contains("STARRED"@),
        label_flags(labels).draft <==> labels.contains("DRAFT"@),
{
}

/// A change of flags written as labels reads back as what was wanted, whatever the labels
/// were before: what is read or unread, starred or not, is as wanted, and nothing else is
/// touched.
pub proof fn a_change_of_flags_reads_back(
    before: Seq<Seq<char>>,
    after: Seq<Seq<char>>,
    wanted: Flags,
)
    requires
        forall|l: Seq<char>| #[trigger]
            after.contains(l) <==> (before.contains(l) && !labels_removed(
                label_flags(before),
                wanted,
            ).contains(l)) || labels_added(label_flags(before), wanted).contains(l),
    ensures
        label_flags(after).seen == wanted.seen,
        label_flags(after).flagged == wanted.flagged,
        label_flags(after).draft == label_flags(before).draft,
        place(after) == place(before),
        forall|l: Seq<char>|
            l != "UNREAD"@ && l != "STARRED"@ ==> #[trigger] after.contains(l) == before.contains(l),
{
    let from = label_flags(before);
    lemma_labels_differ();
    assert forall|l: Seq<char>| #[trigger]
        labels_added(from, wanted).contains(l) <==> (l == "UNREAD"@ && from.seen && !wanted.seen) || (
        l == "STARRED"@ && !from.flagged && wanted.flagged) by {
        lemma_two("UNREAD"@, from.seen && !wanted.seen, "STARRED"@, !from.flagged && wanted.flagged, l);
    }
    assert forall|l: Seq<char>| #[trigger]
        labels_removed(from, wanted).contains(l) <==> (l == "UNREAD"@ && !from.seen && wanted.seen)
            || (l == "STARRED"@ && from.flagged && !wanted.flagged) by {
        lemma_two("UNREAD"@, !from.seen && wanted.seen, "STARRED"@, from.flagged && !wanted.flagged, l);
    }
    assert(after.contains("UNREAD"@) == !wanted.seen);
    assert(after.contains("STARRED"@) == wanted.flagged);
    assert(after.contains("DRAFT"@) == before.contains("DRAFT"@));
    assert(after.contains("TRASH"@) == before.contains("TRASH"@));
    assert(after.contains("SPAM"@) == before.contains("SPAM"@));
    assert(after.contains("INBOX"@) == before.contains("INBOX"@));
    assert(after.contains("SENT"@) == before.contains("SENT"@));
}

proof fn lemma_two(a: Seq<char>, with_a: bool, b: Seq<char>, with_b: bool, l: Seq<char>)
    ensures
        ({
            let one = if with_a {
                seq![a]
            } else {
                Seq::empty()
            };
            let two = if with_b {
                one.push(b)
            } else {
                one
            };
            two.contains(l) <==> (with_a && l == a) || (with_b && l == b)
        }),
{
    let one = if with_a {
        seq![a]
    } else {
        Seq::empty()
    };
    let two = if with_b {
        one.push(b)
    } else {
        one
    };
    if with_a {
        assert(two[0] == a);
    }
    if with_b {
        assert(two[one.len() as int] == b);
    }
    if two.contains(l) {
        let k = choose|k: int| 0 <= k < two.len() && two[k] == l;
        assert(k == 0 || k == 1);
    }
}

proof fn lemma_labels_differ()
    ensures
        "UNREAD"@ != "STARRED"@ && "UNREAD"@ != "DRAFT"@ && "UNREAD"@ != "TRASH"@ && "UNREAD"@
            != "SPAM"@ && "UNREAD"@ != "INBOX"@ && "UNREAD"@ != "SENT"@,
        "STARRED"@ != "DRAFT"@ && "STARRED"@ != "TRASH"@ && "STARRED"@ != "SPAM"@ && "STARRED"@
            != "INBOX"@ && "STARRED"@ != "SENT"@,
        "TRASH"@ != "SPAM"@ && "TRASH"@ != "DRAFT"@ && "TRASH"@ != "INBOX"@ && "TRASH"@ != "SENT"@,
        "SPAM"@ != "DRAFT"@ && "SPAM"@ != "INBOX"@ && "SPAM"@ != "SENT"@,
        "DRAFT"@ != "INBOX"@ && "DRAFT"@ != "SENT"@ && "INBOX"@ != "SENT"@,
{
    reveal_strlit("UNREAD");
    reveal_strlit("STARRED");
    reveal_strlit("DRAFT");
    reveal_strlit("TRASH");
    reveal_strlit("SPAM");
    reveal_strlit("INBOX");
    reveal_strlit("SENT");
    assert("UNREAD"@[0] == 'U' && "STARRED"@[0] == 'S' && "DRAFT"@[0] == 'D' && "TRASH"@[0] == 'T'
        && "SPAM"@[0] == 'S' && "INBOX"@[0] == 'I' && "SENT"@[0] == 'S');
    assert("STARRED"@[1] == 'T' && "SPAM"@[1] == 'P' && "SENT"@[1] == 'E');
}

/// A message that is moved is where it was moved to: to the inbox, to the bin, to the junk,
/// or, out of the inbox, to the archive.
pub proof fn a_moved_message_is_where_it_was_moved_to(
    before: Seq<Seq<char>>,
    after: Seq<Seq<char>>,
    destination: Seq<char>,
)
    requires
        forall|l: Seq<char>| #[trigger]
            after.contains(l) <==> (before.contains(l) && !move_labels(destination).1.contains(l))
                || move_labels(destination).0.contains(l),
        !before.contains("TRASH"@) && !before.contains("SPAM"@) && !before.contains("DRAFT"@),
    ensures
        destination == "trash"@ ==> place(after) == "trash"@,
        destination == "junk"@ ==> place(after) == "junk"@,
        destination == "inbox"@ ==> place(after) == "inbox"@,
        destination == "archive"@ && !before.contains("SENT"@) ==> place(after) == "archive"@,
{
    lemma_labels_differ();
    reveal_strlit("trash");
    reveal_strlit("junk");
    reveal_strlit("inbox");
    reveal_strlit("archive");
    reveal_strlit("sent");
    assert("trash"@[0] == 't' && "junk"@[0] == 'j' && "inbox"@[0] == 'i' && "archive"@[0] == 'a'
        && "sent"@[0] == 's');
    let (add, remove) = move_labels(destination);
    assert forall|l: Seq<char>| #[trigger] seq![l].contains(l) by {
        assert(seq![l][0] == l);
    }
    assert forall|l: Seq<char>, x: Seq<char>| #[trigger] seq![l].contains(x) implies x == l by {
        let k = choose|k: int| 0 <= k < seq![l].len() && seq![l][k] == x;
    }
    assert(seq!["TRASH"@].contains("TRASH"@) && seq!["SPAM"@].contains("SPAM"@) && seq![
        "INBOX"@,
    ].contains("INBOX"@));
    assert(after.contains("TRASH"@) == (destination == "trash"@));
    assert(after.contains("SPAM"@) == (destination == "junk"@));
    assert(!after.contains("DRAFT"@));
    assert(destination == "inbox"@ ==> after.contains("INBOX"@));
    assert(destination == "archive"@ ==> !after.contains("INBOX"@));
    assert(destination == "archive"@ ==> after.contains("SENT"@) == before.contains("SENT"@));
}

/// Every message that history mentions is taken up: one that was added, or whose labels
/// changed, is looked at unless it was deleted; one that was deleted is dropped and not
/// looked at. Nothing that was taken up before is forgotten.
pub proof fn every_change_in_history_is_taken_up(
    delta: DeltaText,
    records: Seq<Json>,
    i: int,
    key: Seq<char>,
    list: Seq<Json>,
    k: int,
    id: Seq<char>,
)
    requires
        0 <= i < records.len(),
        items(field(records[i], key)) == Some(list),
        0 <= k < list.len(),
        text(field_in(field(list[k], "message"@), "id"@)) == Some(id),
    ensures
        ({
            let after = folded(delta, records);
            &&& key == "messagesDeleted"@ ==> after.deleted.contains(id) && !after.touched.contains(
                id,
            )
            &&& key == "messagesAdded"@ || key == "labelsAdded"@ || key == "labelsRemoved"@
                ==> after.touched.contains(id) || after.deleted.contains(id)
            &&& forall|x: Seq<char>| #[trigger]
                delta.deleted.contains(x) ==> after.deleted.contains(x)
            &&& forall|x: Seq<char>| #[trigger]
                delta.touched.contains(x) ==> after.touched.contains(x) || after.deleted.contains(x)
            &&& forall|x: Seq<char>| #[trigger]
                after.touched.contains(x) ==> !after.deleted.contains(x)
        }),
{
    let deleted = delta.deleted.to_set() + deleted_in(records);
    let touched = (delta.touched.to_set() + touched_in(records)).difference(deleted);
    lemma_finite(records);
    vstd::seq_lib::seq_to_set_is_finite(delta.deleted);
    vstd::seq_lib::seq_to_set_is_finite(delta.touched);
    assert(deleted.finite() && touched.finite());
    crate::order::a_finite_set_is_listed(deleted);
    crate::order::a_finite_set_is_listed(touched);
    let after = folded(delta, records);
    assert forall|x: Seq<char>| #[trigger] after.deleted.contains(x) <==> deleted.contains(x) by {
        assert(after.deleted.to_set().contains(x) == deleted.contains(x));
    }
    assert forall|x: Seq<char>| #[trigger] after.touched.contains(x) <==> touched.contains(x) by {
        assert(after.touched.to_set().contains(x) == touched.contains(x));
    }
    assert forall|x: Seq<char>| #[trigger] delta.deleted.contains(x) implies after.deleted.contains(
        x,
    ) by {
        assert(delta.deleted.to_set().contains(x));
        assert(deleted.contains(x));
    }
    assert forall|x: Seq<char>| #[trigger]
        delta.touched.contains(x) implies after.touched.contains(x) || after.deleted.contains(x) by {
        assert(delta.touched.to_set().contains(x));
        if !deleted.contains(x) {
            assert(touched.contains(x));
        } else {
            assert(after.deleted.contains(x));
        }
    }
    lemma_in_record(records, i, key, list, k, id);
    if key == "messagesDeleted"@ {
        assert(deleted.contains(id));
    }
    if key == "messagesAdded"@ || key == "labelsAdded"@ || key == "labelsRemoved"@ {
        if deleted.contains(id) {
            assert(after.deleted.contains(id));
        } else {
            assert(touched.contains(id));
            assert(after.touched.contains(id));
        }
    }
}

proof fn lemma_finite(records: Seq<Json>)
    ensures
        touched_in(records).finite(),
        deleted_in(records).finite(),
    decreases records.len(),
{
    if records.len() > 0 {
        let r = records.last();
        lemma_finite(records.drop_last());
        vstd::seq_lib::seq_to_set_is_finite(ids_in(r, "messagesAdded"@));
        vstd::seq_lib::seq_to_set_is_finite(ids_in(r, "labelsAdded"@));
        vstd::seq_lib::seq_to_set_is_finite(ids_in(r, "labelsRemoved"@));
        vstd::seq_lib::seq_to_set_is_finite(ids_in(r, "messagesDeleted"@));
    }
}

proof fn lemma_in_record(
    records: Seq<Json>,
    i: int,
    key: Seq<char>,
    list: Seq<Json>,
    k: int,
    id: Seq<char>,
)
    requires
        0 <= i < records.len(),
        items(field(records[i], key)) == Some(list),
        0 <= k < list.len(),
        text(field_in(field(list[k], "message"@), "id"@)) == Some(id),
    ensures
        key == "messagesDeleted"@ ==> deleted_in(records).contains(id),
        key == "messagesAdded"@ || key == "labelsAdded"@ || key == "labelsRemoved"@ ==> touched_in(
            records,
        ).contains(id),
    decreases records.len(),
{
    if i < records.len() - 1 {
        assert(records.drop_last()[i] == records[i]);
        lemma_in_record(records.drop_last(), i, key, list, k, id);
    } else {
        lemma_message_id(list, k, id);
        assert(ids_in(records.last(), key).to_set().contains(id));
    }
}

proof fn lemma_message_id(list: Seq<Json>, k: int, id: Seq<char>)
    requires
        0 <= k < list.len(),
        text(field_in(field(list[k], "message"@), "id"@)) == Some(id),
    ensures
        message_ids(list).contains(id),
    decreases list.len(),
{
    let t = list.drop_last();
    let front = message_ids(t);
    let r = message_ids(list);
    if k < t.len() {
        assert(t[k] == list[k]);
        lemma_message_id(t, k, id);
        let m = choose|m: int| 0 <= m < front.len() && front[m] == id;
        assert(r[m] == id);
    } else {
        assert(r[front.len() as int] == id);
    }
}

/// A message that history mentions: gone since then, it is dropped; here and new, it is
/// fetched; held and still here, it has then exactly the flags its labels mean; held and no
/// longer here, it is dropped. The pass goes on with the rest.
pub proof fn each_touched_message_is_settled(
    p: Progress,
    contents: Contents,
    found: Option<MessageText>,
) -> (next: (Progress, Contents))
    requires
        p.queue.len() > 0,
    ensures
        ({
            let id = p.queue[0];
            let held = p.ids.uids.contains_key(id);
            let uid = p.ids.uids[id];
            let r = p.on_touched(contents, found);
            let (q, c) = next;
            let here = found is Some && place((found->0).labels) == p.slug;
            &&& here && !held ==> r.action == Act::Raw(id) && r.contents == contents
                && r.pass.stage == Stage::TouchedRaw && r.pass.flags == label_flags(
                (found->0).labels,
            ) && r.pass.queue == p.queue
            &&& !(here && !held) ==> r == q.touched_next(c) && q.queue == p.queue.skip(1) && q.delta
                == p.delta && q.known == p.known && q.cursor == p.cursor
            &&& here && held && contents.entries.contains_key(uid) && p.known.contains_key(uid)
                && p.known[uid] == contents.entries[uid] ==> c.entries.contains_key(uid)
                && c.entries[uid].seen == !(found->0).labels.contains("UNREAD"@)
                && c.entries[uid].flagged == (found->0).labels.contains("STARRED"@)
                && c.entries[uid] == label_flags((found->0).labels)
            &&& !here && held ==> !c.entries.contains_key(uid) && !c.raws.contains_key(uid)
                && !q.ids.uids.contains_key(id)
            &&& !here && !held ==> c == contents && q.ids == p.ids
            &&& forall|other: u32|
                !(held && other == uid) ==> c.entries.contains_key(other)
                    == contents.entries.contains_key(other) && #[trigger] c.entries[other]
                    == contents.entries[other]
        }),
{
    let id = p.queue[0];
    match found {
        None => {
            let b = p.books(contents).dropped(id);
            (p.settled_one().with(b), b.contents)
        },
        Some(m) => {
            let here = place(m.labels) == p.slug;
            if here && !p.ids.uids.contains_key(id) {
                (p, contents)
            } else {
                let b = p.books(contents).settled(here, id, label_flags(m.labels), p.known);
                (p.settled_one().with(b), b.contents)
            }
        },
    }
}

/// A message that is new here is stored once its bytes are there, under a number of its own,
/// with the flags of its labels; one that was deleted in between is passed over.
pub proof fn a_new_message_is_stored(p: Progress, contents: Contents, raw: Option<Seq<u8>>) -> (next: (
    Progress,
    Contents,
))
    requires
        p.queue.len() > 0,
        !p.ids.uids.contains_key(p.queue[0]),
    ensures
        ({
            let id = p.queue[0];
            let uid = p.ids.next;
            let (q, c) = next;
            &&& p.on_touched_raw(contents, raw) == q.touched_next(c)
            &&& q.queue == p.queue.skip(1) && q.delta == p.delta && q.cursor == p.cursor
            &&& raw is None ==> c == contents && q.ids == p.ids
            &&& raw matches Some(bytes) ==> q.ids.uids.contains_key(id) && q.ids.uids[id] == uid
                && c.entries.contains_key(uid) && c.entries[uid] == p.flags && c.raws.contains_key(
                uid,
            ) && c.raws[uid] == bytes && c.dates.contains_key(uid) && c.dates[uid] == p.arrived_ms
            &&& forall|other: u32|
                other != uid ==> c.entries.contains_key(other) == contents.entries.contains_key(
                    other,
                ) && #[trigger] c.entries[other] == contents.entries[other]
        }),
{
    match raw {
        None => (p.settled_one(), contents),
        Some(bytes) => {
            let id = p.queue[0];
            let b = Books { ids: p.ids.with(id), ..p.books(contents) }.delivered(
                p.ids.number_for(id),
                p.flags,
                bytes,
                p.arrived_ms,
            );
            (p.settled_one().with(b), b.contents)
        },
    }
}

/// With every message that history mentions settled, what it says was deleted is gone, and
/// the pass ends at the history it was told of; as long as one is left, it is asked about.
pub proof fn a_delta_ends_with_what_was_deleted(p: Progress, contents: Contents, id: Seq<char>)
    ensures
        ({
            let r = p.touched_next(contents);
            &&& p.queue.len() > 0 ==> r.action == Act::Metadata(p.queue[0]) && r.contents
                == contents && r.pass.queue == p.queue
            &&& p.queue.len() == 0 ==> r.action == Act::Done
            &&& p.queue.len() == 0 && p.delta.deleted.contains(id) && p.ids.uids.contains_key(id)
                ==> !r.contents.entries.contains_key(p.ids.uids[id])
                && !r.contents.raws.contains_key(p.ids.uids[id]) && !r.pass.ids.uids.contains_key(id)
            &&& !p.delta.deleted.contains(id) ==> r.pass.ids.uids.contains_key(id)
                == p.ids.uids.contains_key(id)
            &&& p.queue.len() == 0 && p.delta.history_id is Some ==> r.pass.cursor
                == p.delta.history_id
        }),
{
    crate::engine::every_dropped_id_is_gone(p.books(contents), p.delta.deleted, id);
}

/// A message that a full read lists: one that is here and not held is fetched, and one that
/// is held has then exactly the flags its labels mean; both count as present. Any other is
/// passed over.
pub proof fn each_listed_message_is_settled(
    p: Progress,
    contents: Contents,
    found: Option<MessageText>,
) -> (next: (Progress, Contents))
    requires
        p.queue.len() > 0,
    ensures
        ({
            let id = p.queue[0];
            let r = p.on_listed(contents, found);
            let (q, c) = next;
            let uid = p.ids.number_for(id);
            let here = found is Some && place((found->0).labels) == p.slug;
            &&& p.ids.uids.contains_key(id) ==> uid == p.ids.uids[id]
            &&& !p.ids.uids.contains_key(id) ==> uid == p.ids.next
            &&& here && !p.known.contains_key(uid) ==> r.action == Act::Raw(id) && r.contents
                == contents && r.pass.stage == Stage::ListedRaw && r.pass.uid == uid
                && r.pass.present == p.present.push(uid) && r.pass.flags == label_flags(
                (found->0).labels,
            )
            &&& !(here && !p.known.contains_key(uid)) ==> r == q.listed_next(c) && q.queue
                == p.queue.skip(1) && q.known == p.known && q.listed == p.listed
            &&& here && p.known.contains_key(uid) ==> q.present == p.present.push(uid)
            &&& here && p.known.contains_key(uid) && contents.entries.contains_key(uid)
                && p.known[uid] == contents.entries[uid] ==> c.entries.contains_key(uid)
                && c.entries[uid] == label_flags((found->0).labels)
            &&& !here ==> c == contents && q.present == p.present && q.ids == p.ids
            &&& forall|other: u32|
                other != uid ==> c.entries.contains_key(other) == contents.entries.contains_key(
                    other,
                ) && #[trigger] c.entries[other] == contents.entries[other]
        }),
{
    let id = p.queue[0];
    match found {
        None => (p.settled_one(), contents),
        Some(m) => if place(m.labels) != p.slug {
            (p.settled_one(), contents)
        } else {
            let uid = p.ids.number_for(id);
            let named = Progress { ids: p.ids.with(id), present: p.present.push(uid), ..p };
            if p.known.contains_key(uid) {
                let b = named.books(contents).reflagged(uid, label_flags(m.labels), p.known);
                (named.settled_one().with(b), b.contents)
            } else {
                (p, contents)
            }
        },
    }
}

/// A full read that listed everything drops what is held and was not present, and keeps
/// everything else.
pub proof fn a_full_read_drops_what_was_not_present(p: Progress, contents: Contents, uid: u32)
    requires
        p.queue.len() == 0,
    ensures
        ({
            let r = p.listed_next(contents);
            let all = 0 < p.listed && p.listed < p.limit;
            &&& r.action == Act::Done && r.pass.cursor == Some(p.opened_at)
            &&& r.contents.entries.contains_key(uid) <==> contents.entries.contains_key(uid) && !(
            all && p.known.contains_key(uid) && !p.present.contains(uid))
            &&& r.contents.entries.contains_key(uid) ==> r.contents.entries[uid]
                == contents.entries[uid]
        }),
{
    crate::engine::who_is_left_behind(p.known, p.present, uid);
    crate::engine::every_swept_message_is_gone(
        p.books(contents),
        left_behind(p.known, p.present),
        uid,
    );
}

/// What an entry says of a message: its id and thread, its labels, and when it arrived.
pub proof fn what_an_entry_says(j: Json)
    ensures
        message_in(j) is Some <==> text(field(j, "id"@)) is Some,
        message_in(j) matches Some(m) ==> {
            &&& Some(m.id) == text(field(j, "id"@))
            &&& text(field(j, "threadId"@)) matches Some(t) ==> m.thread_id == t
            &&& items(field(j, "labelIds"@)) matches Some(v) ==> m.labels == crate::json::strings(v)
            &&& text(field(j, "internalDate"@)) matches Some(t) ==> (signed(t) matches Some(n)
                ==> m.internal_date_ms == n as i64)
        },
{
}

/// Which label a folder is first filled from: each of the five has its own, and no other folder
/// has one. The archive is filled from none.
pub proof fn which_label_fills_a_folder(slug: Seq<char>)
    ensures
        bootstrap_label(slug) == Some("INBOX"@) <==> slug == "inbox"@,
        bootstrap_label(slug) == Some("SENT"@) <==> slug == "sent"@,
        bootstrap_label(slug) == Some("DRAFT"@) <==> slug == "drafts"@,
        bootstrap_label(slug) == Some("TRASH"@) <==> slug == "trash"@,
        bootstrap_label(slug) == Some("SPAM"@) <==> slug == "junk"@,
        slug != "inbox"@ && slug != "sent"@ && slug != "drafts"@ && slug != "trash"@ && slug
            != "junk"@ ==> bootstrap_label(slug) is None,
{
    reveal_strlit("inbox");
    reveal_strlit("sent");
    reveal_strlit("drafts");
    reveal_strlit("trash");
    reveal_strlit("junk");
    reveal_strlit("INBOX");
    reveal_strlit("SENT");
    reveal_strlit("DRAFT");
    reveal_strlit("TRASH");
    reveal_strlit("SPAM");
    assert("inbox"@[0] == 'i' && "sent"@[0] == 's' && "drafts"@[0] == 'd' && "trash"@[0] == 't'
        && "junk"@[0] == 'j');
    assert("INBOX"@[0] == 'I' && "SENT"@[1] == 'E' && "DRAFT"@[0] == 'D' && "TRASH"@[0] == 'T'
        && "SPAM"@[1] == 'P' && "SENT"@[0] == 'S' && "SPAM"@[0] == 'S');
}

/// History is read page by page: while a page names another, that one is asked for next, and
/// what was read so far is kept; after the last, everything touched is settled.
pub proof fn history_is_read_to_its_end(p: Progress, contents: Contents, page: Json)
    ensures
        ({
            let m = p.on_history(contents, page);
            let delta = page_folded(p.delta, page);
            match text(field(page, "nextPageToken"@)) {
                Some(token) => token.len() > 0 ==> m.action == (Act::History {
                    since: p.since,
                    token: Some(token),
                }) && m.pass.delta == delta && m.contents == contents && m.pass.stage
                    == Stage::History,
                None => delta.touched.len() > 0 ==> m.action == Act::Metadata(delta.touched[0])
                    && m.pass.queue == delta.touched && m.contents == contents,
            }
        }),
        (match text(field(page, "historyId"@)) {
            Some(id) => id.len() > 0 ==> page_folded(p.delta, page).history_id == Some(id),
            None => page_folded(p.delta, page).history_id == p.delta.history_id,
        }),
{
}

/// A listing is read page by page, up to the limit: the ids of each page are added to those
/// before, and the next is asked for while there is one and room for more.
pub proof fn a_listing_is_read_up_to_its_limit(
    p: Progress,
    contents: Contents,
    page: Json,
    token: Seq<char>,
    label: Seq<char>,
)
    requires
        text(field(page, "nextPageToken"@)) == Some(token),
        token.len() > 0,
        bootstrap_label(p.slug) == Some(label),
        p.queue.len() + ids_on(page).len() < p.limit,
    ensures
        ({
            let m = p.on_listing(contents, page);
            &&& m.pass.queue == p.queue + ids_on(page)
            &&& m.contents == contents
            &&& m.action matches Act::List { label: l, take, token: t } && l == label && t == Some(
                token,
            ) && 0 < take <= 500 && take <= p.limit - p.queue.len() - ids_on(page).len()
        }),
{
}

/// Every id on a page is listed, in its order.
pub proof fn every_id_on_a_page_is_listed(list: Seq<Json>, more: Seq<Json>)
    ensures
        page_ids(list + more) == page_ids(list) + page_ids(more),
        list.len() == 1 ==> page_ids(list) == (match text(field(list[0], "id"@)) {
            Some(id) => seq![id],
            None => Seq::empty(),
        }),
    decreases more.len(),
{
    reveal_with_fuel(page_ids, 2);
    if list.len() == 1 {
        assert(page_ids(list.drop_last()) =~= Seq::<Seq<char>>::empty());
        if let Some(id) = text(field(list[0], "id"@)) {
            assert(page_ids(list) =~= seq![id]);
        }
    }
    if more.len() == 0 {
        assert(list + more =~= list);
        assert(page_ids(list) + page_ids(more) =~= page_ids(list));
    } else {
        every_id_on_a_page_is_listed(list, more.drop_last());
        assert((list + more).drop_last() =~= list + more.drop_last());
        assert((list + more).last() == more.last());
        assert(page_ids(list + more) =~= page_ids(list) + page_ids(more));
    }
}

/// Where the account stands is noted before anything is listed, and the listing is of the
/// folder's own label; a folder without one is filled from history alone.
pub proof fn the_account_is_noted_before_the_listing(p: Progress, contents: Contents, at: Seq<char>)
    requires
        p.limit > 0,
    ensures
        p.on_profile(contents, at).pass.opened_at == at,
        bootstrap_label(p.slug) matches Some(label) ==> (p.on_profile(contents, at).action matches
            Act::List { label: l, token, .. } && l == label && token is None) && p.on_profile(
            contents,
            at,
        ).contents == contents,
        bootstrap_label(p.slug) is None ==> p.on_profile(contents, at).action is Done
            && p.on_profile(contents, at).pass.cursor == Some(at),
{
}

/// Where labels put a message: the bin and spam before everything else, then the drafts, then
/// the inbox before what was sent; a message with none of these is archived.
pub proof fn where_labels_put_a_message(labels: Seq<Seq<char>>)
    ensures
        labels.contains("TRASH"@) ==> place(labels) == "trash"@,
        labels.contains("SPAM"@) && !labels.contains("TRASH"@) ==> place(labels) == "junk"@,
        labels.contains("DRAFT"@) && !labels.contains("TRASH"@) && !labels.contains("SPAM"@)
            ==> place(labels) == "drafts"@,
        labels.contains("INBOX"@) && !labels.contains("TRASH"@) && !labels.contains("SPAM"@)
            && !labels.contains("DRAFT"@) ==> place(labels) == "inbox"@,
        labels.contains("SENT"@) && !labels.contains("TRASH"@) && !labels.contains("SPAM"@)
            && !labels.contains("DRAFT"@) && !labels.contains("INBOX"@) ==> place(labels)
            == "sent"@,
        !labels.contains("TRASH"@) && !labels.contains("SPAM"@) && !labels.contains("DRAFT"@)
            && !labels.contains("INBOX"@) && !labels.contains("SENT"@) ==> place(labels)
            == "archive"@,
{
}

} // verus!
