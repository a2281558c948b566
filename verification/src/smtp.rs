//! Sending, and the one failure that must never be retried automatically.
//!
//! Once a message has been handed over, a failure can mean that the server never
//! accepted it, or that it may have. An automatic retry of the second sends the
//! message twice, and there is no way to take one back.

use vstd::prelude::*;

use crate::chars::{opt_text, texts};
use crate::compose::{Draft, DraftText};
use crate::error::Error;
use crate::imap::Security;
use crate::letter::{build_fault, builder_of, is_letter_of, letter_envelope, Letter};

verus! {

/// Where and how to reach one account's submission server.
#[derive(Debug, Clone, PartialEq, Eq)]
pub struct SmtpEndpoint {
    pub host: String,
    pub port: u16,
    pub security: Security,
    pub username: String,
}

impl SmtpEndpoint {
    /// The conventional endpoint: implicit TLS on 465.
    #[must_use]
    pub fn tls(host: &str, username: &str) -> (r: Self)
        ensures
            r.host@ == host@,
            r.port == 465,
            r.security == Security::Tls,
            r.username@ == username@,
    {
        SmtpEndpoint {
            host: host.to_owned(),
            port: 465,
            security: Security::Tls,
            username: username.to_owned(),
        }
    }
}

/// What happened to a send.
#[derive(Debug)]
pub enum Outcome {
    /// The server accepted the message. These are the bytes to be filed to Sent.
    Sent(Vec<u8>),
    /// The server definitely did not accept it. Safe to retry unchanged.
    NotSent(Error),
    /// It may or may not have been delivered. Never to be retried
    /// automatically.
    Ambiguous(Error),
}

impl Outcome {
    #[must_use]
    pub fn is_sent(&self) -> (r: bool)
        ensures
            r == (self is Sent),
    {
        match self {
            Outcome::Sent(_) => true,
            _ => false,
        }
    }

    /// May something other than a person retry this?
    #[must_use]
    pub fn is_retryable(&self) -> (r: bool)
        ensures
            r == (self is NotSent),
    {
        match self {
            Outcome::NotSent(_) => true,
            _ => false,
        }
    }

    /// The failure, if it failed.
    #[must_use]
    pub fn error(&self) -> (r: Option<&Error>)
        ensures
            match (self, r) {
                (Outcome::Sent(_), None) => true,
                (Outcome::NotSent(e), Some(why)) => *why == *e,
                (Outcome::Ambiguous(e), Some(why)) => *why == *e,
                _ => false,
            },
    {
        match self {
            Outcome::Sent(_) => None,
            Outcome::NotSent(error) => Some(error),
            Outcome::Ambiguous(error) => Some(error),
        }
    }
}

/// How a submission failed.
#[derive(Debug)]
pub struct SendFailure {
    /// The server refused for good.
    pub permanent: bool,
    /// The code of its reply, where it gave one.
    pub code: Option<u16>,
    pub timeout: bool,
    /// The server's answer could not be read.
    pub response: bool,
    /// The client itself could not go on.
    pub client: bool,
    pub transport_shutdown: bool,
    pub message: String,
}

/// Is this how a server refuses a login? No message was handed over then.
pub open spec fn login_refused(code: Option<u16>) -> bool {
    code == Some(530u16) || code == Some(534u16) || code == Some(535u16) || code == Some(538u16)
}

fn refuses_login(code: Option<u16>) -> (r: bool)
    ensures
        r == login_refused(code),
{
    match code {
        Some(c) => c == 530 || c == 534 || c == 535 || c == 538,
        None => false,
    }
}

/// Is it for a person to say what happens next? So it is where the server may have
/// had the message when this failed, and a timeout counts: one during the message
/// cannot be told from one before it, and being wrong the other way sends the
/// message twice. And so it is where the server refused the message for good.
pub open spec fn left_to_a_person(f: SendFailure) -> bool {
    (f.permanent && !login_refused(f.code)) || f.timeout || f.response || f.client || f.transport_shutdown
}

/// Which side of the acceptance line a failure fell on.
#[must_use]
pub fn classify(failure: SendFailure) -> (r: Outcome)
    ensures
        match r {
            Outcome::Ambiguous(Error::Smtp(m)) => left_to_a_person(failure) && m
                == failure.message,
            Outcome::NotSent(Error::Smtp(m)) => !left_to_a_person(failure) && m
                == failure.message,
            _ => false,
        },
{
    if (failure.permanent && !refuses_login(failure.code)) || failure.timeout || failure.response || failure.client
        || failure.transport_shutdown {
        Outcome::Ambiguous(Error::Smtp(failure.message))
    } else {
        Outcome::NotSent(Error::Smtp(failure.message))
    }
}

/// How a submission over an API ended.
#[derive(Debug, Clone, Copy, PartialEq, Eq, Structural)]
pub enum Submission {
    Accepted,
    /// Refused before acceptance.
    Refused,
    /// The server had the message when it failed; it may yet deliver.
    Unclear,
}

pub open spec fn submission_of(status: u16) -> Submission {
    if 200 <= status < 300 {
        Submission::Accepted
    } else if 400 <= status < 500 {
        Submission::Refused
    } else {
        Submission::Unclear
    }
}

/// What the status of a submission over an API comes to.
#[must_use]
pub fn submission(status: u16) -> (r: Submission)
    ensures
        r == submission_of(status),
{
    if 200 <= status && status < 300 {
        Submission::Accepted
    } else if 400 <= status && status < 500 {
        Submission::Refused
    } else {
        Submission::Unclear
    }
}

/// A draft made ready to be sent.
#[derive(Debug)]
pub struct Prepared {
    /// What goes to the server: it shows no blind copies.
    pub outgoing: Letter,
    /// What is filed to Sent: it keeps them.
    pub filed: Vec<u8>,
}

/// Why a draft cannot be made ready, if it cannot.
pub open spec fn unready(d: DraftText) -> Option<Seq<char>> {
    match build_fault(d, false) {
        Some(why) => Some(why),
        None => build_fault(d, true),
    }
}

/// Makes a draft ready to be sent, or says that it was not sent and why: a
/// draft that cannot be sent never reaches a server.
///
/// Built twice, deliberately: the copy that goes over the wire has no `Bcc`
/// header, the copy filed to Sent does.
pub fn prepare(draft: &Draft) -> (r: std::result::Result<Prepared, Outcome>)
    ensures
        match r {
            Ok(p) => unready(draft@) is None && is_letter_of(p.outgoing.bytes@, draft@, false)
                && !p.outgoing.shows_bcc && (opt_text(p.outgoing.sender), texts(
                p.outgoing.recipients@,
            )) == letter_envelope(builder_of(draft@, false)) && is_letter_of(
                p.filed@,
                draft@,
                true,
            ),
            Err(Outcome::NotSent(Error::Draft(why))) => unready(draft@) == Some(why@),
            Err(_) => false,
        },
{
    let outgoing: Letter = match draft.build(false) {
        Ok(letter) => letter,
        Err(why) => {
            return Err(Outcome::NotSent(why));
        },
    };
    match draft.build(true) {
        Ok(letter) => Ok(Prepared { outgoing, filed: letter.bytes }),
        Err(why) => Err(Outcome::NotSent(why)),
    }
}

/// What a send comes to, from how the server took it.
#[must_use]
pub fn conclude(filed: Vec<u8>, failure: Option<SendFailure>) -> (r: Outcome)
    ensures
        match (failure, r) {
            (None, Outcome::Sent(bytes)) => bytes@ == filed@,
            (Some(f), Outcome::Ambiguous(Error::Smtp(m))) => left_to_a_person(f) && m
                == f.message,
            (Some(f), Outcome::NotSent(Error::Smtp(m))) => !left_to_a_person(f) && m
                == f.message,
            _ => false,
        },
{
    match failure {
        None => Outcome::Sent(filed),
        Some(f) => classify(f),
    }
}

/// Makes a draft ready for an API, which has no envelope: its recipients come
/// from its headers, so the blind copies stay in them, and the server strips
/// them from what it delivers. A draft that cannot be sent never reaches one.
pub fn prepare_whole(draft: &Draft) -> (r: std::result::Result<Vec<u8>, Outcome>)
    ensures
        match r {
            Ok(message) => build_fault(draft@, true) is None && is_letter_of(
                message@,
                draft@,
                true,
            ),
            Err(Outcome::NotSent(Error::Draft(why))) => build_fault(draft@, true) == Some(why@),
            Err(_) => false,
        },
{
    match draft.build(true) {
        Ok(letter) => Ok(letter.bytes),
        Err(why) => Err(Outcome::NotSent(why)),
    }
}

/// A failed send is tried again by itself only where no server can have had the message: it
/// neither timed out nor broke off, and was refused for the moment, or at the login.
pub proof fn when_a_send_is_tried_again(f: SendFailure)
    ensures
        !left_to_a_person(f) <==> !f.timeout && !f.response && !f.client && !f.transport_shutdown
            && (!f.permanent || f.code == Some(530u16) || f.code == Some(534u16) || f.code
            == Some(535u16) || f.code == Some(538u16)),
{
}

/// What the status of a submission says: the two hundreds accept it, the four hundreds refuse
/// it, and with anything else it may yet be delivered.
pub proof fn what_a_submission_status_says(status: u16)
    ensures
        submission_of(status) is Accepted <==> status / 100 == 2,
        submission_of(status) is Refused <==> status / 100 == 4,
        submission_of(status) is Unclear <==> status / 100 != 2 && status / 100 != 4,
{
}

} // verus!
