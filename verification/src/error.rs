//! One error type for the crate, with the distinctions the sync cycle acts on.

use vstd::prelude::*;

use crate::chars::{contains, contains_text, lower_of, lowered, push_all, push_text, to_chars,
    to_text};
use crate::numbers::{dec, decimal};

verus! {

pub type Result<T> = std::result::Result<T, Error>;

/// What an operating-system failure was, as far as retrying it goes.
#[derive(Debug, Clone, Copy, PartialEq, Eq, Structural)]
pub enum IoKind {
    TimedOut,
    ConnectionReset,
    ConnectionAborted,
    BrokenPipe,
    NotConnected,
    UnexpectedEof,
    Interrupted,
    NotFound,
    Other,
}

#[derive(Debug, Clone)]
pub enum Error {
    /// A failure of the operating system, with its own words.
    Io { kind: IoKind, message: String },
    /// A crash-safe write that did not complete.
    Atomic(String),
    Imap(String),
    /// The mailbox was renumbered by the server. Every UID held for it is
    /// void: UID 41 now names a different message or no message at all.
    ///
    /// Retrying against renumbered UIDs silently stores the wrong message
    /// under the right name, which is worse than failing.
    UidValidityChanged { mailbox: String, had: u32, now: u32 },
    Auth(String),
    /// The draft cannot be turned into a message.
    Draft(String),
    Smtp(String),
    /// A JMAP request failed, or the server answered with something unusable.
    Jmap(String),
    /// POP3 said no, or said something unusable.
    Pop3(String),
    /// The Gmail API said no, or said something unusable.
    Gmail(String),
    /// Microsoft Graph said no, or said something unusable.
    Graph(String),
    Discovery(String),
    /// The index is a cache; a failure here is recoverable by rebuilding it.
    Index(String),
    NotAMaildir { path: String },
    Sidecar { path: String, message: String },
}

/// The words a failing transport is reported in, once nothing but words is
/// left of it.
pub open spec fn transient_text(message: Seq<char>) -> bool {
    let l = lowered(message);
    ||| contains(l, "timed out"@)
    ||| contains(l, "timeout"@)
    ||| contains(l, "connection reset"@)
    ||| contains(l, "connection refused"@)
    ||| contains(l, "connection aborted"@)
    ||| contains(l, "broken pipe"@)
    ||| contains(l, "not connected"@)
    ||| contains(l, "unexpected eof"@)
    ||| contains(l, "eof"@)
    ||| contains(l, "temporarily unavailable"@)
    ||| contains(l, "try again"@)
    ||| contains(l, "[unavailable]"@)
    ||| contains(l, "[inuse]"@)
    ||| contains(l, "[serverbug]"@)
}

impl IoKind {
    pub open spec fn transient(self) -> bool {
        self != IoKind::NotFound && self != IoKind::Other
    }
}

impl Error {
    /// Whether waiting could help: a network failure, never a refusal.
    pub open spec fn transient(self) -> bool {
        match self {
            Error::Io { kind, .. } => kind.transient(),
            Error::Imap(message) => transient_text(message@),
            _ => false,
        }
    }

    /// The error in words.
    pub open spec fn words(self) -> Seq<char> {
        match self {
            Error::Io { message, .. } => message@,
            Error::Atomic(m) => "atomic write failed: "@ + m@,
            Error::Imap(m) => "IMAP: "@ + m@,
            Error::UidValidityChanged { mailbox, had, now } => "mailbox "@ + mailbox@
                + " was renumbered (UIDVALIDITY "@ + dec(had as nat) + " → "@ + dec(now as nat)
                + ")"@,
            Error::Auth(m) => "the server rejected our credentials: "@ + m@,
            Error::Draft(m) => m@,
            Error::Smtp(m) => "SMTP: "@ + m@,
            Error::Jmap(m) => "JMAP: "@ + m@,
            Error::Pop3(m) => "POP3: "@ + m@,
            Error::Gmail(m) => "Gmail: "@ + m@,
            Error::Graph(m) => "Graph: "@ + m@,
            Error::Discovery(m) => m@,
            Error::Index(m) => "index: "@ + m@,
            Error::NotAMaildir { path } => path@ + " is not a maildir (no cur/ directory)"@,
            Error::Sidecar { path, message } => "sidecar "@ + path@ + " is unreadable: "@
                + message@,
        }
    }

    /// Distinguishes a network hiccup from a server saying no.
    ///
    /// The writeback queue backs off on the first and stops on the second.
    #[must_use]
    pub fn is_transient(&self) -> (r: bool)
        ensures
            r == self.transient(),
    {
        match self {
            Error::Io { kind, .. } => match kind {
                IoKind::NotFound => false,
                IoKind::Other => false,
                _ => true,
            },
            Error::Imap(message) => is_transient_text(message),
            _ => false,
        }
    }

    /// The error in words, for the person who has to read it.
    #[must_use]
    pub fn describe(&self) -> (r: String)
        ensures
            r@ == self.words(),
    {
        match self {
            Error::Io { message, .. } => message.clone(),
            Error::Atomic(m) => prefixed("atomic write failed: ", m),
            Error::Imap(m) => prefixed("IMAP: ", m),
            Error::UidValidityChanged { mailbox, had, now } => {
                let mut out: Vec<char> = to_chars("mailbox ");
                push_text(&mut out, mailbox);
                push_text(&mut out, " was renumbered (UIDVALIDITY ");
                let had_digits: Vec<char> = decimal(*had as u64);
                push_all(&mut out, &had_digits);
                push_text(&mut out, " → ");
                let now_digits: Vec<char> = decimal(*now as u64);
                push_all(&mut out, &now_digits);
                push_text(&mut out, ")");
                to_text(&out)
            },
            Error::Auth(m) => prefixed("the server rejected our credentials: ", m),
            Error::Draft(m) => m.clone(),
            Error::Smtp(m) => prefixed("SMTP: ", m),
            Error::Jmap(m) => prefixed("JMAP: ", m),
            Error::Pop3(m) => prefixed("POP3: ", m),
            Error::Gmail(m) => prefixed("Gmail: ", m),
            Error::Graph(m) => prefixed("Graph: ", m),
            Error::Discovery(m) => m.clone(),
            Error::Index(m) => prefixed("index: ", m),
            Error::NotAMaildir { path } => prefixed(path, " is not a maildir (no cur/ directory)"),
            Error::Sidecar { path, message } => {
                let mut out: Vec<char> = to_chars("sidecar ");
                push_text(&mut out, path);
                push_text(&mut out, " is unreadable: ");
                push_text(&mut out, message);
                to_text(&out)
            },
        }
    }
}

fn prefixed(prefix: &str, rest: &str) -> (r: String)
    ensures
        r@ == prefix@ + rest@,
{
    let mut out: String = prefix.to_owned();
    out.append(rest);
    out
}

/// Whether the words of a failure are those of a transport that gave way.
///
/// Deliberately conservative: an unrecognised message is permanent, so that a
/// genuinely broken push surfaces rather than retrying forever.
pub fn is_transient_text(message: &str) -> (r: bool)
    ensures
        r == transient_text(message@),
{
    let m: Vec<char> = to_chars(message);
    let l: Vec<char> = lower_of(&m);
    contains_text(&l, "timed out") || contains_text(&l, "timeout") || contains_text(
        &l,
        "connection reset",
    ) || contains_text(&l, "connection refused") || contains_text(&l, "connection aborted")
        || contains_text(&l, "broken pipe") || contains_text(&l, "not connected")
        || contains_text(&l, "unexpected eof") || contains_text(&l, "eof") || contains_text(
        &l,
        "temporarily unavailable",
    ) || contains_text(&l, "try again") || contains_text(&l, "[unavailable]") || contains_text(
        &l,
        "[inuse]",
    ) || contains_text(&l, "[serverbug]")
}

/// Waiting can help where the connection gave way, and where the server itself said that it
/// was busy; it never helps where the server refused, or a file is missing or damaged.
pub proof fn when_waiting_can_help(error: Error)
    ensures
        error matches Error::Io { kind, .. } ==> (error.transient() <==> kind == IoKind::TimedOut
            || kind == IoKind::ConnectionReset || kind == IoKind::ConnectionAborted || kind
            == IoKind::BrokenPipe || kind == IoKind::NotConnected || kind == IoKind::UnexpectedEof
            || kind == IoKind::Interrupted),
        !(error is Io) && !(error is Imap) ==> !error.transient(),
        error matches Error::Imap(m) ==> (error.transient() <==> exists|w: Seq<char>|
            (w == "timed out"@ || w == "timeout"@ || w == "connection reset"@ || w
                == "connection refused"@ || w == "connection aborted"@ || w == "broken pipe"@ || w
                == "not connected"@ || w == "unexpected eof"@ || w == "eof"@ || w
                == "temporarily unavailable"@ || w == "try again"@ || w == "[unavailable]"@ || w
                == "[inuse]"@ || w == "[serverbug]"@) && #[trigger] contains(lowered(m@), w)),
{
}

/// An error is told in the words it came with.
pub proof fn an_error_keeps_its_words(error: Error)
    ensures
        match error {
            Error::Io { message, .. } => error.words() == message@,
            Error::Draft(m) => error.words() == m@,
            Error::Discovery(m) => error.words() == m@,
            Error::NotAMaildir { path } => path@.is_prefix_of(error.words()),
            Error::UidValidityChanged { mailbox, .. } => ("mailbox "@ + mailbox@).is_prefix_of(
                error.words(),
            ),
            Error::Sidecar { path, message } => ("sidecar "@ + path@).is_prefix_of(error.words())
                && message@.is_suffix_of(error.words()),
            Error::Atomic(m) => m@.is_suffix_of(error.words()),
            Error::Imap(m) => error.words() == "IMAP: "@ + m@,
            Error::Auth(m) => m@.is_suffix_of(error.words()),
            Error::Smtp(m) => error.words() == "SMTP: "@ + m@,
            Error::Jmap(m) => error.words() == "JMAP: "@ + m@,
            Error::Pop3(m) => error.words() == "POP3: "@ + m@,
            Error::Gmail(m) => error.words() == "Gmail: "@ + m@,
            Error::Graph(m) => error.words() == "Graph: "@ + m@,
            Error::Index(m) => m@.is_suffix_of(error.words()),
        },
{
}

} // verus!
