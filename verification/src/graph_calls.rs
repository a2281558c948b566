//! What is sent to Microsoft Graph, and what its HTTP answers come to.

use vstd::prelude::*;

use crate::chars::{push_text, to_chars, to_text};
use crate::encoding::{base64_text, encode_base64};
use crate::error::{Error, Result};
use crate::graph::{delta_status, folder_views, folders_on, moved_id, no_new_id, page_in,
    parse_folders, parse_page, refuse, refused_as, Event, GraphFolder};
use crate::http::{is_success, success, url_below, url_of};
use crate::json::{field, is_read, no_fields, no_members, object, object_value, parse, put,
    read_fault, string, text, text_value, value_read, write_value, written_value, Json};
use crate::smtp::Outcome;

verus! {

/// The URL of every mail folder of the mailbox.
#[must_use]
pub fn folders_url(base: &str) -> (r: String)
    ensures
        r@ == base@
            + "/me/mailFolders?$top=200&$select=id,displayName,wellKnownName,totalItemCount,unreadItemCount"@
           ,
{
    url_below(
        base,
        "/me/mailFolders?$top=200&$select=id,displayName,wellKnownName,totalItemCount,unreadItemCount",
    )
}

/// The URL of a message.
#[must_use]
pub fn message_url(base: &str, id: &str) -> (r: String)
    ensures
        r@ == base@ + "/me/messages/"@ + id@,
{
    url_below(&url_below(base, "/me/messages/"), id)
}

/// The URL of a message's original octets.
#[must_use]
pub fn raw_url(base: &str, id: &str) -> (r: String)
    ensures
        r@ == base@ + "/me/messages/"@ + id@ + "/$value"@,
{
    url_of(base, "/me/messages/", id, "/$value")
}

/// The URL to which a move is posted.
#[must_use]
pub fn move_url(base: &str, id: &str) -> (r: String)
    ensures
        r@ == base@ + "/me/messages/"@ + id@ + "/move"@,
{
    url_of(base, "/me/messages/", id, "/move")
}

/// The URL to which a message is posted to be sent.
#[must_use]
pub fn send_url(base: &str) -> (r: String)
    ensures
        r@ == base@ + "/me/sendMail"@,
{
    url_below(base, "/me/sendMail")
}

/// A move to a folder, as it is posted.
#[must_use]
pub fn move_body(folder_id: &str) -> (r: String)
    ensures
        r@ == written_value(
            object_value(no_members().push(("destinationId"@, text_value(folder_id@)))),
        ),
{
    let mut body: Vec<(String, serde_json::Value)> = no_fields();
    put(&mut body, "destinationId", string(folder_id));
    write_value(&object(body))
}

/// A message as it is posted: its own octets, as plain text in base64.
#[must_use]
pub fn send_body(message: &[u8]) -> (r: String)
    ensures
        r@ == base64_text(message@),
{
    encode_base64(message)
}

/// What a send comes to that ended without an answer: a connection that never
/// opened cannot have delivered anything, and anything past that point may have.
#[must_use]
pub fn unanswered(connected: bool, why: &str) -> (r: Outcome)
    ensures
        match r {
            Outcome::NotSent(Error::Graph(m)) => !connected && m@ == "sendMail: "@ + why@,
            Outcome::Ambiguous(Error::Graph(m)) => connected && m@ == "sendMail: "@ + why@,
            _ => false,
        },
{
    let mut m: Vec<char> = to_chars("sendMail: ");
    push_text(&mut m, why);
    let error: Error = Error::Graph(to_text(&m));
    if connected {
        Outcome::Ambiguous(error)
    } else {
        Outcome::NotSent(error)
    }
}

/// What the status of a request comes to.
pub fn done(status: u16, what: &str, body: &str) -> (r: Result<()>)
    ensures
        match r {
            Ok(()) => success(status),
            Err(e) => !success(status) && refused_as(e, status, what@, body@),
        },
{
    if is_success(status) {
        Ok(())
    } else {
        Err(refuse(status, what, body))
    }
}

/// Whether a message that was asked for is still there: one that was deleted
/// since it was listed is no failure.
pub fn found(status: u16, what: &str, body: &str) -> (r: Result<bool>)
    ensures
        match r {
            Ok(there) => there == (status != 404) && (there ==> success(status)),
            Err(e) => status != 404 && !success(status) && refused_as(e, status, what@, body@),
        },
{
    if status == 404 {
        return Ok(false);
    }
    match done(status, what, body) {
        Ok(()) => Ok(true),
        Err(why) => Err(why),
    }
}

/// What the status of a deletion comes to: a message that is already gone is
/// what was asked for.
pub fn deleted(status: u16, body: &str) -> (r: Result<()>)
    ensures
        match r {
            Ok(()) => success(status) || status == 404,
            Err(e) => !success(status) && status != 404 && refused_as(
                e,
                status,
                "DELETE message"@,
                body@,
            ),
        },
{
    if status == 404 {
        return Ok(());
    }
    done(status, "DELETE message", body)
}

// ---- answers ----

/// Is this the error for an answer that is no JSON?
pub open spec fn unread(e: Error, what: Seq<char>, body: Seq<char>) -> bool {
    value_read(body) is None && (e matches Error::Graph(m) && m@ == "parsing "@ + what + ": "@
        + read_fault(body))
}

fn read(what: &str, body: &str) -> (r: Result<Json>)
    ensures
        match r {
            Ok(j) => is_read(j, body@),
            Err(e) => unread(e, what@, body@),
        },
{
    match parse(body) {
        Ok(j) => Ok(j),
        Err(why) => {
            let mut m: Vec<char> = to_chars("parsing ");
            push_text(&mut m, what);
            push_text(&mut m, ": ");
            push_text(&mut m, &why);
            Err(Error::Graph(to_text(&m)))
        },
    }
}

/// Every folder in the answer to a request for them.
pub fn read_folders(status: u16, body: &str) -> (r: Result<Vec<GraphFolder>>)
    ensures
        match r {
            Ok(v) => success(status) && exists|j: Json|
                is_read(j, body@) && folder_views(v@) == folders_on(j),
            Err(e) => if success(status) {
                unread(e, "mailFolders"@, body@)
            } else {
                refused_as(e, status, "mailFolders"@, body@)
            },
        },
{
    match done(status, "mailFolders", body) {
        Ok(()) => match read("mailFolders", body) {
            Ok(j) => Ok(parse_folders(&j)),
            Err(why) => Err(why),
        },
        Err(why) => Err(why),
    }
}

/// The page in the answer to a request for changes, or that the cursor is stale.
pub fn read_delta(status: u16, body: &str) -> (r: Result<Event>)
    ensures
        match r {
            Ok(Event::Expired) => status == 404 || status == 410,
            Ok(Event::Page(page)) => success(status) && exists|j: Json|
                is_read(j, body@) && page@ == page_in(j),
            Ok(_) => false,
            Err(e) => status != 404 && status != 410 && if success(status) {
                unread(e, "a delta page"@, body@)
            } else {
                refused_as(e, status, "messages/delta"@, body@)
            },
        },
{
    match delta_status(status, body) {
        Ok(true) => Ok(Event::Expired),
        Ok(false) => match read("a delta page", body) {
            Ok(j) => Ok(Event::Page(parse_page(&j))),
            Err(why) => Err(why),
        },
        Err(why) => Err(why),
    }
}

/// The id that a moved message has now. An answer that is no JSON has none.
pub fn read_moved(status: u16, body: &str) -> (r: Result<String>)
    ensures
        match r {
            Ok(id) => success(status) && exists|j: Json|
                is_read(j, body@) && text(field(j, "id"@)) == Some(id@),
            Err(e) => if !success(status) {
                refused_as(e, status, "move"@, body@)
            } else {
                no_new_id(e) && (value_read(body@) is None || exists|j: Json|
                    is_read(j, body@) && text(field(j, "id"@)) is None)
            },
        },
{
    match done(status, "move", body) {
        Ok(()) => match parse(body) {
            Ok(j) => moved_id(&j),
            Err(_) => moved_id(&Json::Null),
        },
        Err(why) => Err(why),
    }
}

} // verus!
