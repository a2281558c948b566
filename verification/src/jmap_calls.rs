//! What is sent to a JMAP server, and what its HTTP answers come to.
//!
//! A request carries one method call. It asks for metadata and blob ids, never
//! for a body.

use vstd::prelude::*;

use crate::chars::{push_all, push_text, same, texts, to_chars, to_text};
use crate::error::{Error, Result};
use crate::http::{beginning, credentials_refused, first_of, is_success, success};
use crate::jmap::{keys_of, keywords_listed, keywords_of, CAP_CORE, CAP_MAIL, CHANGES_BATCH};
use crate::json::{array, array_value, field, find_field, is_read, items, members, names_value,
    no_fields, no_members, object, object_value, one, parse, plain, plain_value, put, read_fault,
    string, strings_value, text_value, text_values, unsigned, unsigned_value, value_read,
    write_value, written_value, Json};
use crate::model::Flags;
use crate::numbers::{dec, decimal};

verus! {

// ---- the session resource ----

/// The session resource, as far as a client needs it.
#[derive(Debug, Clone)]
pub struct SessionResource {
    pub api_url: String,
    pub download_url: String,
    /// The account to use, for each capability.
    pub primary_accounts: Vec<(String, String)>,
    /// The capabilities that are offered.
    pub capabilities: Vec<String>,
}

/// The account that these name for a capability.
pub open spec fn account_named(accounts: Seq<(String, String)>, capability: Seq<char>) -> Option<
    Seq<char>,
>
    decreases accounts.len(),
{
    if accounts.len() == 0 {
        None
    } else if accounts[0].0@ == capability {
        Some(accounts[0].1@)
    } else {
        account_named(accounts.skip(1), capability)
    }
}

impl SessionResource {
    /// The mail account of a session; an error, for a server without mail and
    /// for one that names no account for it.
    pub fn mail_account(&self) -> (r: Result<String>)
        ensures
            match r {
                Ok(id) => texts(self.capabilities@).contains(CAP_MAIL@) && account_named(
                    self.primary_accounts@,
                    CAP_MAIL@,
                ) == Some(id@),
                Err(Error::Jmap(m)) => if !texts(self.capabilities@).contains(CAP_MAIL@) {
                    m@ == "this JMAP server does not offer mail"@
                } else {
                    account_named(self.primary_accounts@, CAP_MAIL@) is None && m@
                        == "the JMAP session names no mail account"@
                },
                Err(_) => false,
            },
    {
        if !crate::engine::is_among(&self.capabilities, CAP_MAIL) {
            return Err(Error::Jmap("this JMAP server does not offer mail".to_owned()));
        }
        let ghost all = self.primary_accounts@;
        let mut i: usize = 0;
        assert(all.skip(0) =~= all);
        while i < self.primary_accounts.len()
            invariant
                i <= all.len(),
                all == self.primary_accounts@,
                account_named(all, CAP_MAIL@) == account_named(all.skip(i as int), CAP_MAIL@),
                texts(self.capabilities@).contains(CAP_MAIL@),
            decreases all.len() - i,
        {
            assert(all.skip(i as int).skip(1) =~= all.skip(i + 1));
            if same(&self.primary_accounts[i].0, CAP_MAIL) {
                return Ok(self.primary_accounts[i].1.clone());
            }
            i = i + 1;
        }
        Err(Error::Jmap("the JMAP session names no mail account".to_owned()))
    }
}

// ---- statuses ----

/// What is said where a server refuses the credentials it was given.
pub open spec fn rejected(status: u16) -> Seq<char> {
    "the JMAP server rejected our credentials (HTTP "@ + dec(status as nat) + ")"@
}

fn rejection(status: u16) -> (r: Error)
    ensures
        r matches Error::Auth(m) && m@ == rejected(status),
{
    let mut m: Vec<char> = to_chars("the JMAP server rejected our credentials (HTTP ");
    push_all(&mut m, &decimal(status as u64));
    push_text(&mut m, ")");
    Error::Auth(to_text(&m))
}

/// What the status of the session resource comes to.
pub fn session_status(status: u16) -> (r: Result<()>)
    ensures
        match r {
            Ok(()) => success(status),
            Err(Error::Auth(m)) => credentials_refused(status) && m@ == rejected(status),
            Err(Error::Jmap(m)) => !success(status) && !credentials_refused(status) && m@
                == "the JMAP session resource returned HTTP "@ + dec(status as nat),
            Err(_) => false,
        },
{
    if status == 401 || status == 403 {
        return Err(rejection(status));
    }
    if is_success(status) {
        return Ok(());
    }
    let mut m: Vec<char> = to_chars("the JMAP session resource returned HTTP ");
    push_all(&mut m, &decimal(status as u64));
    Err(Error::Jmap(to_text(&m)))
}

/// Is this the error for a request that was answered with a status that is no success?
pub open spec fn request_refused(e: Error, status: u16, body: Seq<char>) -> bool {
    match e {
        Error::Auth(m) => credentials_refused(status) && m@ == rejected(status),
        Error::Jmap(m) => !credentials_refused(status) && m@ == "JMAP request returned HTTP "@
            + dec(status as nat) + ": "@ + first_of(body, 200),
        _ => false,
    }
}

/// What the status of a request comes to.
pub fn request_status(status: u16, body: &str) -> (r: Result<()>)
    ensures
        match r {
            Ok(()) => success(status),
            Err(e) => !success(status) && request_refused(e, status, body@),
        },
{
    if status == 401 || status == 403 {
        return Err(rejection(status));
    }
    if is_success(status) {
        return Ok(());
    }
    let mut m: Vec<char> = to_chars("JMAP request returned HTTP ");
    push_all(&mut m, &decimal(status as u64));
    push_text(&mut m, ": ");
    push_all(&mut m, &beginning(body));
    Err(Error::Jmap(to_text(&m)))
}

/// What the status of a download comes to.
pub fn download_status(status: u16, blob_id: &str) -> (r: Result<()>)
    ensures
        match r {
            Ok(()) => success(status),
            Err(Error::Jmap(m)) => !success(status) && m@ == "downloading "@ + blob_id@
                + " returned HTTP "@ + dec(status as nat),
            Err(_) => false,
        },
{
    if is_success(status) {
        return Ok(());
    }
    let mut m: Vec<char> = to_chars("downloading ");
    push_text(&mut m, blob_id);
    push_text(&mut m, " returned HTTP ");
    push_all(&mut m, &decimal(status as u64));
    Err(Error::Jmap(to_text(&m)))
}

/// Is this the error for an answer without responses?
pub open spec fn no_responses(e: Error) -> bool {
    e matches Error::Jmap(m) && m@ == "JMAP response carried no methodResponses"@
}

/// The responses in an answer, in order.
pub fn responses_in(answer: Json) -> (r: Result<Vec<Json>>)
    ensures
        match r {
            Ok(v) => items(field(answer, "methodResponses"@)) == Some(v@),
            Err(e) => items(field(answer, "methodResponses"@)) is None && no_responses(e),
        },
{
    if let Json::Object(mut fields) = answer {
        let ghost all = fields@;
        let mut i: usize = 0;
        assert(all.skip(0) =~= all);
        while i < fields.len()
            invariant
                i <= fields@.len(),
                fields@ == all,
                answer == Json::Object(fields),
                find_field(all, "methodResponses"@) == find_field(
                    all.skip(i as int),
                    "methodResponses"@,
                ),
            decreases fields@.len() - i,
        {
            assert(all.skip(i as int).skip(1) =~= all.skip(i + 1));
            if same(&fields[i].0, "methodResponses") {
                let (_, value) = fields.swap_remove(i);
                if let Json::Array(v) = value {
                    return Ok(v);
                }
                return Err(Error::Jmap("JMAP response carried no methodResponses".to_owned()));
            }
            i = i + 1;
        }
    }
    Err(Error::Jmap("JMAP response carried no methodResponses".to_owned()))
}

/// The responses to a request, in order, from the status and the text it was answered with.
pub fn read_answer(status: u16, text: &str) -> (r: Result<Vec<Json>>)
    ensures
        match r {
            Ok(v) => success(status) && exists|j: Json|
                is_read(j, text@) && items(field(j, "methodResponses"@)) == Some(v@),
            Err(e) => if !success(status) {
                request_refused(e, status, text@)
            } else if value_read(text@) is None {
                e matches Error::Jmap(m) && m@ == "unreadable JMAP response: "@ + read_fault(text@)
            } else {
                no_responses(e) && exists|j: Json|
                    is_read(j, text@) && items(field(j, "methodResponses"@)) is None
            },
        },
{
    match request_status(status, text) {
        Ok(()) => match parse(text) {
            Ok(j) => responses_in(j),
            Err(why) => {
                let mut m: Vec<char> = to_chars("unreadable JMAP response: ");
                push_text(&mut m, &why);
                Err(Error::Jmap(to_text(&m)))
            },
        },
        Err(why) => Err(why),
    }
}

// ---- requests ----

/// A request that carries one call of a method.
pub open spec fn calling(method: Seq<char>, args: serde_json::Value) -> Seq<char> {
    let using = array_value(text_values(seq![CAP_CORE@, CAP_MAIL@]));
    let call = array_value(seq![text_value(method), args, text_value("0"@)]);
    written_value(
        object_value(
            no_members().push(("using"@, using)).push(("methodCalls"@, array_value(seq![call]))),
        ),
    )
}

fn call(method: &str, args: serde_json::Value) -> (r: String)
    ensures
        r@ == calling(method@, args),
{
    let mut using: Vec<serde_json::Value> = Vec::new();
    using.push(string(CAP_CORE));
    using.push(string(CAP_MAIL));
    assert(using@ =~= text_values(seq![CAP_CORE@, CAP_MAIL@]));
    let mut call: Vec<serde_json::Value> = Vec::new();
    call.push(string(method));
    call.push(args);
    call.push(string("0"));
    assert(call@ =~= seq![text_value(method@), args, text_value("0"@)]);
    let mut body: Vec<(String, serde_json::Value)> = no_fields();
    put(&mut body, "using", array(using));
    put(&mut body, "methodCalls", one(array(call)));
    write_value(&object(body))
}

/// Arguments that name the account.
pub open spec fn in_account(account: Seq<char>) -> Seq<(Seq<char>, serde_json::Value)> {
    no_members().push(("accountId"@, text_value(account)))
}

fn account_args(account: &str) -> (r: Vec<(String, serde_json::Value)>)
    ensures
        members(r@) == in_account(account@),
{
    let mut args: Vec<(String, serde_json::Value)> = no_fields();
    put(&mut args, "accountId", string(account));
    args
}

/// Asks for every mailbox of the account.
#[must_use]
pub fn mailboxes_request(account: &str) -> (r: String)
    ensures
        r@ == calling(
            "Mailbox/get"@,
            object_value(in_account(account@).push(("ids"@, plain_value(None)))),
        ),
{
    let mut args: Vec<(String, serde_json::Value)> = account_args(account);
    put(&mut args, "ids", plain(None));
    call("Mailbox/get", object(args))
}

/// Asks for the ids of the newest emails of a mailbox, newest first.
#[must_use]
pub fn query_request(account: &str, mailbox_id: &str, limit: usize) -> (r: String)
    ensures
        r@ == calling(
            "Email/query"@,
            object_value(
                in_account(account@).push(
                    (
                        "filter"@,
                        object_value(no_members().push(("inMailbox"@, text_value(mailbox_id@)))),
                    ),
                ).push(
                    (
                        "sort"@,
                        array_value(
                            seq![
                                object_value(
                                    no_members().push(
                                        ("property"@, text_value("receivedAt"@)),
                                    ).push(("isAscending"@, plain_value(Some(false)))),
                                ),
                            ],
                        ),
                    ),
                ).push(("limit"@, unsigned_value(limit as u64))).push(
                    ("calculateTotal"@, plain_value(Some(false))),
                ),
            ),
        ),
{
    let mut filter: Vec<(String, serde_json::Value)> = no_fields();
    put(&mut filter, "inMailbox", string(mailbox_id));
    let mut sort: Vec<(String, serde_json::Value)> = no_fields();
    put(&mut sort, "property", string("receivedAt"));
    put(&mut sort, "isAscending", plain(Some(false)));
    let mut args: Vec<(String, serde_json::Value)> = account_args(account);
    put(&mut args, "filter", object(filter));
    put(&mut args, "sort", one(object(sort)));
    put(&mut args, "limit", unsigned(limit as u64));
    put(&mut args, "calculateTotal", plain(Some(false)));
    call("Email/query", object(args))
}

/// Asks for the account's current state: the cheapest call that returns one is a
/// read of no emails.
#[must_use]
pub fn state_request(account: &str) -> (r: String)
    ensures
        r@ == calling(
            "Email/get"@,
            object_value(in_account(account@).push(("ids"@, array_value(Seq::empty())))),
        ),
{
    let none: Vec<serde_json::Value> = Vec::new();
    assert(none@ =~= Seq::<serde_json::Value>::empty());
    let mut args: Vec<(String, serde_json::Value)> = account_args(account);
    put(&mut args, "ids", array(none));
    call("Email/get", object(args))
}

/// Asks what changed in the account since a state.
#[must_use]
pub fn changes_request(account: &str, since: &str) -> (r: String)
    ensures
        r@ == calling(
            "Email/changes"@,
            object_value(
                in_account(account@).push(("sinceState"@, text_value(since@))).push(
                    ("maxChanges"@, unsigned_value(CHANGES_BATCH as u64)),
                ),
            ),
        ),
{
    let mut args: Vec<(String, serde_json::Value)> = account_args(account);
    put(&mut args, "sinceState", string(since));
    put(&mut args, "maxChanges", unsigned(CHANGES_BATCH as u64));
    call("Email/changes", object(args))
}

/// The properties of an email that are asked for: never its body.
pub open spec fn properties(with_mailboxes: bool) -> Seq<Seq<char>> {
    let all = seq!["id"@, "blobId"@, "keywords"@, "receivedAt"@, "size"@];
    if with_mailboxes {
        all.push("mailboxIds"@)
    } else {
        all
    }
}

/// A request for emails.
pub open spec fn asking(account: Seq<char>, ids: Seq<Seq<char>>, with_mailboxes: bool) -> Seq<
    char,
> {
    calling(
        "Email/get"@,
        object_value(
            in_account(account).push(("ids"@, array_value(text_values(ids)))).push(
                ("properties"@, array_value(text_values(properties(with_mailboxes)))),
            ),
        ),
    )
}

fn ask(account: &str, ids: &[String], with_mailboxes: bool) -> (r: String)
    ensures
        r@ == asking(account@, texts(ids@), with_mailboxes),
{
    let mut all: Vec<&'static str> = Vec::new();
    all.push("id");
    all.push("blobId");
    all.push("keywords");
    all.push("receivedAt");
    all.push("size");
    if with_mailboxes {
        all.push("mailboxIds");
    }
    assert(all@.map_values(|s: &'static str| s@) =~= properties(with_mailboxes));
    let mut args: Vec<(String, serde_json::Value)> = account_args(account);
    put(&mut args, "ids", strings_value(ids));
    put(&mut args, "properties", names_value(&all));
    call("Email/get", object(args))
}

/// Asks for the metadata of emails; nothing is asked for none.
#[must_use]
pub fn emails_request(account: &str, ids: &[String]) -> (r: Option<String>)
    ensures
        match r {
            None => ids@.len() == 0,
            Some(body) => ids@.len() > 0 && body@ == asking(account@, texts(ids@), false),
        },
{
    if ids.len() == 0 {
        return None;
    }
    Some(ask(account, ids, false))
}

/// Asks for the metadata of emails and the mailboxes they are in; nothing is
/// asked for none.
#[must_use]
pub fn members_request(account: &str, ids: &[String]) -> (r: Option<String>)
    ensures
        match r {
            None => ids@.len() == 0,
            Some(body) => ids@.len() > 0 && body@ == asking(account@, texts(ids@), true),
        },
{
    if ids.len() == 0 {
        return None;
    }
    Some(ask(account, ids, true))
}

/// A request that changes one email.
pub open spec fn updating(
    account: Seq<char>,
    id: Seq<char>,
    patch: Seq<(Seq<char>, serde_json::Value)>,
) -> Seq<char> {
    calling(
        "Email/set"@,
        object_value(
            in_account(account).push(
                ("update"@, object_value(no_members().push((id, object_value(patch))))),
            ),
        ),
    )
}

fn update_request(account: &str, id: &str, patch: Vec<(String, serde_json::Value)>) -> (r: String)
    ensures
        r@ == updating(account@, id@, members(patch@)),
{
    let mut update: Vec<(String, serde_json::Value)> = no_fields();
    put(&mut update, id, object(patch));
    let mut args: Vec<(String, serde_json::Value)> = account_args(account);
    put(&mut args, "update", object(update));
    call("Email/set", object(args))
}

/// The patch that takes an email from one mailbox to another and leaves it in
/// every other one; a move onto itself only says that it is there.
pub open spec fn moving(from: Seq<char>, to: Seq<char>) -> Seq<(Seq<char>, serde_json::Value)> {
    let there = ("mailboxIds/"@ + to, plain_value(Some(true)));
    if from == to {
        no_members().push(there)
    } else {
        no_members().push(("mailboxIds/"@ + from, plain_value(None))).push(there)
    }
}

fn membership(mailbox: &str) -> (r: String)
    ensures
        r@ == "mailboxIds/"@ + mailbox@,
{
    let mut path: Vec<char> = to_chars("mailboxIds/");
    push_text(&mut path, mailbox);
    to_text(&path)
}

/// Moves an email from one mailbox to another.
#[must_use]
pub fn move_request(account: &str, id: &str, from: &str, to: &str) -> (r: String)
    ensures
        r@ == updating(account@, id@, moving(from@, to@)),
{
    let mut patch: Vec<(String, serde_json::Value)> = no_fields();
    if !same(from, to) {
        put(&mut patch, &membership(from), plain(None));
    }
    put(&mut patch, &membership(to), plain(Some(true)));
    update_request(account, id, patch)
}

/// Destroys an email outright.
#[must_use]
pub fn destroy_request(account: &str, id: &str) -> (r: String)
    ensures
        r@ == calling(
            "Email/set"@,
            object_value(
                in_account(account@).push(("destroy"@, array_value(seq![text_value(id@)]))),
            ),
        ),
{
    let mut args: Vec<(String, serde_json::Value)> = account_args(account);
    put(&mut args, "destroy", one(string(id)));
    call("Email/set", object(args))
}

/// Keys that are all true.
pub open spec fn all_true(keys: Seq<Seq<char>>) -> Seq<(Seq<char>, serde_json::Value)> {
    keys.map_values(|key: Seq<char>| (key, plain_value(Some(true))))
}

/// Replaces the keywords of an email: the whole set, so that a retry converges.
#[must_use]
pub fn keywords_request(account: &str, id: &str, flags: Flags) -> (r: String)
    ensures
        r@ == updating(
            account@,
            id@,
            no_members().push(("keywords"@, object_value(all_true(keywords_listed(flags))))),
        ),
{
    let mut keywords: Vec<(String, serde_json::Value)> = no_fields();
    if let Json::Object(m) = keywords_of(flags) {
        let ghost all = keys_of(m@);
        let mut i: usize = 0;
        assert(all_true(all.take(0)) =~= no_members());
        while i < m.len()
            invariant
                i <= m@.len(),
                all == keys_of(m@),
                members(keywords@) == all_true(all.take(i as int)),
            decreases m@.len() - i,
        {
            proof {
                assert(all_true(all.take(i + 1)) =~= all_true(all.take(i as int)).push(
                    (m@[i as int].0@, plain_value(Some(true))),
                ));
            }
            put(&mut keywords, &m[i].0, plain(Some(true)));
            i = i + 1;
        }
        assert(all.take(i as int) =~= all);
    }
    let mut patch: Vec<(String, serde_json::Value)> = no_fields();
    put(&mut patch, "keywords", object(keywords));
    update_request(account, id, patch)
}

/// The first account that is named for a capability is the account for it.
pub proof fn the_first_account_named_counts(
    accounts: Seq<(String, String)>,
    capability: Seq<char>,
    k: int,
)
    requires
        0 <= k < accounts.len(),
        accounts[k].0@ == capability,
        forall|i: int| 0 <= i < k ==> (#[trigger] accounts[i]).0@ != capability,
    ensures
        account_named(accounts, capability) == Some(accounts[k].1@),
    decreases k,
{
    if k > 0 {
        assert(accounts[0].0@ != capability);
        let t = accounts.skip(1);
        assert forall|i: int| 0 <= i < k - 1 implies (#[trigger] t[i]).0@ != capability by {
            assert(t[i] == accounts[i + 1]);
        }
        the_first_account_named_counts(t, capability, k - 1);
    }
}

/// What a move changes of an email's mailboxes: it is in the one it was moved to and no longer
/// in the one it was moved from, and every other is left out of the request.
pub proof fn what_a_move_changes(from: Seq<char>, to: Seq<char>)
    ensures
        moving(from, to).contains(("mailboxIds/"@ + to, plain_value(Some(true)))),
        from != to ==> moving(from, to).contains(("mailboxIds/"@ + from, plain_value(None))),
        from != to ==> moving(from, to).len() == 2,
        from == to ==> moving(from, to).len() == 1,
{
    let m = moving(from, to);
    assert(m.last() == ("mailboxIds/"@ + to, plain_value(Some(true))));
    assert(m.contains(m[m.len() - 1]));
    if from != to {
        assert(m[0] == ("mailboxIds/"@ + from, plain_value(None)));
    }
}

} // verus!
