//! What is sent to the Gmail API, and what its HTTP answers come to.

use vstd::prelude::*;

use crate::chars::{push_text, to_chars, to_text};
use crate::encoding::{base64_bytes, base64_url, encode_base64_url, normalised};
use crate::error::{Error, Result};
use crate::gmail::{history_status, label_views, labels_on, message_in, message_view, names,
    no_cursor, nonempty, parse_labels, parse_metadata, parse_profile, parse_raw, raw_told, refuse,
    refused_as, Event, GmailMessage};
use crate::http::{is_success, success, url_below, url_of};
use crate::json::{array_value, field, is_read, names_value, no_fields, no_members, object,
    object_value, parse, put, read_fault, string, text, text_value, text_values, value_read,
    write_value, written_value, Json};
use crate::smtp::Outcome;

verus! {

/// The URL of the mailbox's profile, which holds its current history id.
#[must_use]
pub fn profile_url(base: &str) -> (r: String)
    ensures
        r@ == base@ + "/profile"@,
{
    url_below(base, "/profile")
}

/// The URL of the account's own labels.
#[must_use]
pub fn labels_url(base: &str) -> (r: String)
    ensures
        r@ == base@ + "/labels"@,
{
    url_below(base, "/labels")
}

/// The URL of a message's labels and arrival, without what nobody reads.
#[must_use]
pub fn metadata_url(base: &str, id: &str) -> (r: String)
    ensures
        r@ == base@ + "/messages/"@ + id@ + "?format=minimal"@,
{
    url_of(base, "/messages/", id, "?format=minimal")
}

/// The URL of a message's original octets.
#[must_use]
pub fn raw_url(base: &str, id: &str) -> (r: String)
    ensures
        r@ == base@ + "/messages/"@ + id@ + "?format=raw"@,
{
    url_of(base, "/messages/", id, "?format=raw")
}

/// The URL to which a label change is posted.
#[must_use]
pub fn modify_url(base: &str, id: &str) -> (r: String)
    ensures
        r@ == base@ + "/messages/"@ + id@ + "/modify"@,
{
    url_of(base, "/messages/", id, "/modify")
}

/// The URL that moves a message to the bin. Not the one that deletes it: that is
/// permanent, and is not what a delete key should mean.
#[must_use]
pub fn trash_url(base: &str, id: &str) -> (r: String)
    ensures
        r@ == base@ + "/messages/"@ + id@ + "/trash"@,
{
    url_of(base, "/messages/", id, "/trash")
}

/// The URL to which a message is posted to be sent.
#[must_use]
pub fn send_url(base: &str) -> (r: String)
    ensures
        r@ == base@ + "/messages/send"@,
{
    url_below(base, "/messages/send")
}

/// A label change, as it is posted: a list that would be empty is left out,
/// because the API rejects it.
pub open spec fn change_text(add: Seq<Seq<char>>, remove: Seq<Seq<char>>) -> Seq<char> {
    let added = if add.len() > 0 {
        no_members().push(("addLabelIds"@, array_value(text_values(add))))
    } else {
        no_members()
    };
    let both = if remove.len() > 0 {
        added.push(("removeLabelIds"@, array_value(text_values(remove))))
    } else {
        added
    };
    written_value(object_value(both))
}

/// The label change to post; nothing, where there is nothing to change.
#[must_use]
pub fn modify_body(add: &[&'static str], remove: &[&'static str]) -> (r: Option<String>)
    ensures
        match r {
            None => add@.len() == 0 && remove@.len() == 0,
            Some(body) => (add@.len() > 0 || remove@.len() > 0) && body@ == change_text(
                names(add@),
                names(remove@),
            ),
        },
{
    assert(names(add@).len() == add@.len() && names(remove@).len() == remove@.len());
    if add.len() == 0 && remove.len() == 0 {
        return None;
    }
    let mut body: Vec<(String, serde_json::Value)> = no_fields();
    if add.len() > 0 {
        put(&mut body, "addLabelIds", names_value(add));
    }
    if remove.len() > 0 {
        put(&mut body, "removeLabelIds", names_value(remove));
    }
    Some(write_value(&object(body)))
}

/// A message as it is posted: its own octets, and what is read of them is the
/// message again.
#[must_use]
pub fn send_body(message: &[u8]) -> (r: String)
    ensures
        base64_bytes(normalised(base64_url(message@))) == Some(message@),
        r@ == written_value(
            object_value(no_members().push(("raw"@, text_value(base64_url(message@))))),
        ),
{
    let mut body: Vec<(String, serde_json::Value)> = no_fields();
    put(&mut body, "raw", string(&encode_base64_url(message)));
    write_value(&object(body))
}

/// What a send comes to that ended without an answer: a connection that never
/// opened cannot have delivered anything, and anything past that point may have.
#[must_use]
pub fn unanswered(connected: bool, why: &str) -> (r: Outcome)
    ensures
        match r {
            Outcome::NotSent(Error::Gmail(m)) => !connected && m@ == "messages.send: "@ + why@,
            Outcome::Ambiguous(Error::Gmail(m)) => connected && m@ == "messages.send: "@ + why@,
            _ => false,
        },
{
    let mut m: Vec<char> = to_chars("messages.send: ");
    push_text(&mut m, why);
    let error: Error = Error::Gmail(to_text(&m));
    if connected {
        Outcome::Ambiguous(error)
    } else {
        Outcome::NotSent(error)
    }
}

/// What the status of a request comes to.
pub fn done(status: u16, what: &str, body: &str) -> (r: Result<()>)
    ensures
        match r {
            Ok(()) => success(status),
            Err(e) => !success(status) && refused_as(e, status, what@, body@),
        },
{
    if is_success(status) {
        Ok(())
    } else {
        Err(refuse(status, what, body))
    }
}

/// Whether a message that was asked for is still there: one that was deleted
/// since it was listed is no failure.
pub fn found(status: u16, what: &str, body: &str) -> (r: Result<bool>)
    ensures
        match r {
            Ok(there) => there == (status != 404) && (there ==> success(status)),
            Err(e) => status != 404 && !success(status) && refused_as(e, status, what@, body@),
        },
{
    if status == 404 {
        return Ok(false);
    }
    match done(status, what, body) {
        Ok(()) => Ok(true),
        Err(why) => Err(why),
    }
}

// ---- answers ----

/// Is this the error for an answer that is no JSON?
pub open spec fn unread(e: Error, what: Seq<char>, body: Seq<char>) -> bool {
    value_read(body) is None && (e matches Error::Gmail(m) && m@ == "parsing "@ + what + ": "@
        + read_fault(body))
}

fn read(what: &str, body: &str) -> (r: Result<Json>)
    ensures
        match r {
            Ok(j) => is_read(j, body@),
            Err(e) => unread(e, what@, body@),
        },
{
    match parse(body) {
        Ok(j) => Ok(j),
        Err(why) => {
            let mut m: Vec<char> = to_chars("parsing ");
            push_text(&mut m, what);
            push_text(&mut m, ": ");
            push_text(&mut m, &why);
            Err(Error::Gmail(to_text(&m)))
        },
    }
}

/// The current history id in the answer to a request for the profile. An answer that is no
/// JSON has none.
pub fn read_profile(status: u16, body: &str) -> (r: Result<String>)
    ensures
        match r {
            Ok(id) => success(status) && exists|j: Json|
                is_read(j, body@) && nonempty(text(field(j, "historyId"@))) == Some(id@),
            Err(e) => if !success(status) {
                refused_as(e, status, "profile"@, body@)
            } else {
                no_cursor(e) && (value_read(body@) is None || exists|j: Json|
                    is_read(j, body@) && nonempty(text(field(j, "historyId"@))) is None)
            },
        },
{
    match done(status, "profile", body) {
        Ok(()) => match parse(body) {
            Ok(j) => parse_profile(&j),
            Err(_) => parse_profile(&Json::Null),
        },
        Err(why) => Err(why),
    }
}

/// The page of ids in the answer to a request for a list.
pub fn read_listing(status: u16, body: &str) -> (r: Result<Event>)
    ensures
        match r {
            Ok(Event::Listing(page)) => success(status) && is_read(page, body@),
            Ok(_) => false,
            Err(e) => if success(status) {
                unread(e, "messages.list"@, body@)
            } else {
                refused_as(e, status, "messages.list"@, body@)
            },
        },
{
    match done(status, "messages.list", body) {
        Ok(()) => match read("messages.list", body) {
            Ok(page) => Ok(Event::Listing(page)),
            Err(why) => Err(why),
        },
        Err(why) => Err(why),
    }
}

/// The metadata in the answer to a request for it; nothing, if the message was deleted
/// meanwhile or has no id.
pub fn read_metadata(status: u16, body: &str) -> (r: Result<Option<GmailMessage>>)
    ensures
        match r {
            Ok(m) => if status == 404 {
                m is None
            } else {
                success(status) && exists|j: Json|
                    is_read(j, body@) && message_view(m) == message_in(j)
            },
            Err(e) => status != 404 && if success(status) {
                unread(e, "messages.get"@, body@)
            } else {
                refused_as(e, status, "messages.get"@, body@)
            },
        },
{
    match found(status, "messages.get", body) {
        Ok(false) => Ok(None),
        Ok(true) => match read("messages.get", body) {
            Ok(j) => Ok(parse_metadata(&j)),
            Err(why) => Err(why),
        },
        Err(why) => Err(why),
    }
}

/// The octets in the answer to a request for them; nothing, if the message was deleted
/// meanwhile.
pub fn read_raw(status: u16, body: &str, id: &str) -> (r: Result<Option<Vec<u8>>>)
    ensures
        match r {
            Ok(None) => status == 404,
            Ok(Some(bytes)) => success(status) && exists|j: Json|
                is_read(j, body@) && raw_told(j, id@, Ok(bytes)),
            Err(e) => status != 404 && if success(status) {
                unread(e, "messages.get"@, body@) || exists|j: Json|
                    is_read(j, body@) && raw_told(j, id@, Err(e))
            } else {
                refused_as(e, status, "messages.get?format=raw"@, body@)
            },
        },
{
    match found(status, "messages.get?format=raw", body) {
        Ok(false) => Ok(None),
        Ok(true) => match read("messages.get", body) {
            Ok(j) => match parse_raw(&j, id) {
                Ok(bytes) => Ok(Some(bytes)),
                Err(why) => Err(why),
            },
            Err(why) => Err(why),
        },
        Err(why) => Err(why),
    }
}

/// The page in the answer to a request for history, or that the cursor has expired.
pub fn read_history(status: u16, body: &str) -> (r: Result<Event>)
    ensures
        match r {
            Ok(Event::Expired) => status == 404 || status == 410,
            Ok(Event::History(page)) => success(status) && is_read(page, body@),
            Ok(_) => false,
            Err(e) => status != 404 && status != 410 && if success(status) {
                unread(e, "history.list"@, body@)
            } else {
                refused_as(e, status, "history.list"@, body@)
            },
        },
{
    match history_status(status, body) {
        Ok(true) => Ok(Event::Expired),
        Ok(false) => match read("history.list", body) {
            Ok(page) => Ok(Event::History(page)),
            Err(why) => Err(why),
        },
        Err(why) => Err(why),
    }
}

/// Label ids with their display names, in the answer to a request for them.
pub fn read_labels(status: u16, body: &str) -> (r: Result<Vec<(String, String)>>)
    ensures
        match r {
            Ok(v) => success(status) && exists|j: Json|
                is_read(j, body@) && label_views(v@) == labels_on(j),
            Err(e) => if success(status) {
                unread(e, "labels.list"@, body@)
            } else {
                refused_as(e, status, "labels.list"@, body@)
            },
        },
{
    match done(status, "labels.list", body) {
        Ok(()) => match read("labels.list", body) {
            Ok(j) => Ok(parse_labels(&j)),
            Err(why) => Err(why),
        },
        Err(why) => Err(why),
    }
}

} // verus!
