//! The commands that write to an IMAP mailbox, and the order they come in.
//!
//! A message is never marked deleted before its copy is known to exist, and
//! nothing is ever expunged but the message that was asked for: a bare EXPUNGE
//! would remove what another client marked and has not expunged yet.

use vstd::prelude::*;

use crate::chars::{join_of, joined, pieces, push_all, push_text, to_chars, to_text};
use crate::model::Flags;

verus! {

// ---- commands ----

/// The STORE argument that sets the whole flag set: the user's final intent, not
/// a change to it.
#[must_use]
pub fn store_flags_query(flags: Flags) -> (r: String)
    ensures
        r@ == "FLAGS.SILENT ("@ + joined(flags.wire(), " "@) + ")"@,
{
    let names: Vec<&'static str> = flags.to_imap();
    let mut list: Vec<Vec<char>> = Vec::new();
    let mut i: usize = 0;
    assert(pieces(list@) =~= names@.take(0).map_values(|s: &'static str| s@));
    while i < names.len()
        invariant
            i <= names@.len(),
            pieces(list@) == names@.take(i as int).map_values(|s: &'static str| s@),
        decreases names@.len() - i,
    {
        let ghost before = list@;
        list.push(to_chars(names[i]));
        proof {
            assert(pieces(list@) =~= pieces(before).push(names@[i as int]@));
            assert(names@.take(i + 1) =~= names@.take(i as int).push(names@[i as int]));
            assert(names@.take(i + 1).map_values(|s: &'static str| s@) =~= names@.take(
                i as int,
            ).map_values(|s: &'static str| s@).push(names@[i as int]@));
        }
        i = i + 1;
    }
    assert(names@.take(i as int) =~= names@);
    let mut out: Vec<char> = to_chars("FLAGS.SILENT (");
    push_all(&mut out, &join_of(&list, " "));
    push_text(&mut out, ")");
    to_text(&out)
}

/// The search for the messages with a `Message-ID`, given without its brackets.
#[must_use]
pub fn message_id_query(id: &str) -> (r: String)
    ensures
        r@ == "HEADER Message-ID <"@ + id@ + ">"@,
{
    let mut out: Vec<char> = to_chars("HEADER Message-ID <");
    push_text(&mut out, id);
    push_text(&mut out, ">");
    to_text(&out)
}

/// Where an appended message landed, if the server says both halves: the
/// numbering, and the first of the UIDs it names.
#[must_use]
pub fn receipt(uid_validity: Option<u32>, uids: &Option<Vec<u32>>) -> (r: Option<(u32, u32)>)
    ensures
        match (uid_validity, *uids) {
            (Some(validity), Some(list)) => r == (if list@.len() > 0 {
                Some((validity, list@[0]))
            } else {
                None
            }),
            _ => r is None,
        },
{
    match (uid_validity, uids) {
        (Some(validity), Some(list)) => {
            if list.len() > 0 {
                Some((validity, list[0]))
            } else {
                None
            }
        },
        _ => None,
    }
}

// ---- what a session may use ----

/// An extension that turns flag reconciliation into a question of what changed.
#[derive(Debug, Clone, Copy, PartialEq, Eq, Structural)]
pub enum Extension {
    /// Flag changes and deletions in one round trip.
    Qresync,
    /// Flag changes.
    Condstore,
}

/// The extension to enable next, if any: what is advertised is not enabled, and
/// a server that refuses one is treated as not having it.
#[must_use]
pub fn extension_to_enable(qresync: bool, condstore: bool, refused: Option<Extension>) -> (r: Option<
    Extension,
>)
    ensures
        r == (match refused {
            None => if qresync {
                Some(Extension::Qresync)
            } else if condstore {
                Some(Extension::Condstore)
            } else {
                None
            },
            Some(Extension::Qresync) => if condstore {
                Some(Extension::Condstore)
            } else {
                None
            },
            Some(Extension::Condstore) => None,
        }),
{
    match refused {
        None => {
            if qresync {
                return Some(Extension::Qresync);
            }
        },
        Some(Extension::Qresync) => {},
        Some(Extension::Condstore) => {
            return None;
        },
    }
    if condstore {
        Some(Extension::Condstore)
    } else {
        None
    }
}

// ---- moving and deleting ----

/// One command of a move or of a deletion.
#[derive(Debug, Clone, Copy, PartialEq, Eq, Structural)]
pub enum Deed {
    /// Move the message in one command, which not every server has.
    Move,
    Copy,
    /// Mark the message `\Deleted`.
    Mark,
    /// Expunge this message alone.
    Expunge,
    /// There is nothing more to do.
    Finished,
    /// The last command's failure is the failure of the whole.
    Failed,
}

/// What follows a command, from whether it succeeded. Without `UIDPLUS` a marked
/// message is left to the server's own housekeeping.
pub open spec fn deed_after(deed: Deed, succeeded: bool, uidplus: bool) -> Deed {
    match deed {
        Deed::Move => if succeeded {
            Deed::Finished
        } else {
            Deed::Copy
        },
        Deed::Copy => if succeeded {
            Deed::Mark
        } else {
            Deed::Failed
        },
        Deed::Mark => if !succeeded {
            Deed::Failed
        } else if uidplus {
            Deed::Expunge
        } else {
            Deed::Finished
        },
        Deed::Expunge => if succeeded {
            Deed::Finished
        } else {
            Deed::Failed
        },
        _ => deed,
    }
}

impl Deed {
    /// What follows this command. A move begins with [`Deed::Move`], a deletion
    /// with [`Deed::Mark`].
    #[must_use]
    pub fn next(self, succeeded: bool, uidplus: bool) -> (r: Deed)
        ensures
            r == deed_after(self, succeeded, uidplus),
    {
        match self {
            Deed::Move => {
                if succeeded {
                    Deed::Finished
                } else {
                    Deed::Copy
                }
            },
            Deed::Copy => {
                if succeeded {
                    Deed::Mark
                } else {
                    Deed::Failed
                }
            },
            Deed::Mark => {
                if !succeeded {
                    Deed::Failed
                } else if uidplus {
                    Deed::Expunge
                } else {
                    Deed::Finished
                }
            },
            Deed::Expunge => {
                if succeeded {
                    Deed::Finished
                } else {
                    Deed::Failed
                }
            },
            Deed::Finished => Deed::Finished,
            Deed::Failed => Deed::Failed,
        }
    }
}

/// A run of commands: the deed after each of these results.
pub open spec fn deed_at(first: Deed, results: Seq<bool>, uidplus: bool) -> Deed
    decreases results.len(),
{
    if results.len() == 0 {
        first
    } else {
        deed_after(deed_at(first, results.drop_last(), uidplus), results.last(), uidplus)
    }
}

/// In a move, the original is marked only after the copy succeeded: however the
/// commands went, a run that comes to [`Deed::Mark`] or past it to
/// [`Deed::Expunge`] was at [`Deed::Copy`] when a command succeeded.
pub proof fn a_copy_comes_before_the_mark(results: Seq<bool>, uidplus: bool)
    requires
        deed_at(Deed::Move, results, uidplus) == Deed::Mark || deed_at(
            Deed::Move,
            results,
            uidplus,
        ) == Deed::Expunge,
    ensures
        exists|n: int|
            0 <= n < results.len() && #[trigger] results[n] && deed_at(
                Deed::Move,
                results.take(n),
                uidplus,
            ) == Deed::Copy,
    decreases results.len(),
{
    let front = results.drop_last();
    let before = deed_at(Deed::Move, front, uidplus);
    if before == Deed::Copy {
        let n = results.len() - 1;
        assert(results.take(n) =~= front);
        assert(results[n]);
    } else {
        a_copy_comes_before_the_mark(front, uidplus);
        let n = choose|n: int|
            0 <= n < front.len() && #[trigger] front[n] && deed_at(
                Deed::Move,
                front.take(n),
                uidplus,
            ) == Deed::Copy;
        assert(front.take(n) =~= results.take(n));
        assert(results[n] == front[n]);
    }
}

/// A message is expunged only where the server can be told to expunge it alone.
pub proof fn only_the_message_itself_is_expunged(first: Deed, results: Seq<bool>, uidplus: bool)
    requires
        first == Deed::Move || first == Deed::Mark,
        deed_at(first, results, uidplus) == Deed::Expunge,
    ensures
        uidplus,
    decreases results.len(),
{
    if results.len() > 0 && deed_at(first, results.drop_last(), uidplus) == Deed::Expunge {
        only_the_message_itself_is_expunged(first, results.drop_last(), uidplus);
    }
}

/// What follows each command. A move that the server does not know is made of a copy, a mark
/// and, where the server can expunge one message alone, an expunge; a command that fails ends
/// it, and only a move that fails is tried in another way.
pub proof fn what_follows_a_command(uidplus: bool)
    ensures
        deed_after(Deed::Move, true, uidplus) == Deed::Finished,
        deed_after(Deed::Move, false, uidplus) == Deed::Copy,
        deed_after(Deed::Copy, true, uidplus) == Deed::Mark,
        deed_after(Deed::Mark, true, true) == Deed::Expunge,
        deed_after(Deed::Mark, true, false) == Deed::Finished,
        deed_after(Deed::Expunge, true, uidplus) == Deed::Finished,
        deed_after(Deed::Copy, false, uidplus) == Deed::Failed,
        deed_after(Deed::Mark, false, uidplus) == Deed::Failed,
        deed_after(Deed::Expunge, false, uidplus) == Deed::Failed,
{
}

} // verus!
