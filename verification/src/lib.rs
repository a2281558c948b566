//! The logic of a mail client: what is stored, what is sent, what is shown, and in
//! which order the pieces of a sync happen.
//!
//! A message is kept as the bytes the server sent; everything else is worked out
//! from them. Local changes are queued and pushed before anything is pulled, so
//! that a pull never overwrites them. A cursor moves only after what it stands
//! for is stored, and a mailbox whose numbering changed is read again from the
//! beginning.
//!
//! Disks, sockets and clocks are not here: a caller performs what it is told to
//! and hands back what came of it.

pub mod attachment;
pub mod auth;
pub mod backoff;
pub mod bytes;
pub mod calendar;
pub mod chars;
pub mod compose;
pub mod discovery;
pub mod draft_sync;
pub mod drafts;
pub mod dsn;
pub mod encoding;
pub mod engine;
pub mod error;
pub mod folder;
pub mod gmail;
pub mod gmail_calls;
pub mod graph;
pub mod graph_calls;
pub mod http;
pub mod ids;
pub mod imap;
pub mod imap_calls;
pub mod index;
pub mod jmap;
pub mod jmap_calls;
pub mod json;
pub mod letter;
pub mod maildir;
pub mod mbox;
pub mod mime;
pub mod model;
pub mod numbers;
pub mod order;
pub mod outbox;
pub mod pgp;
pub mod plan;
pub mod pop3;
pub mod push;
pub mod rules;
pub mod sasl;
pub mod search;
pub mod selection;
pub mod shelf;
pub mod smtp;
pub mod snooze;
pub mod store;
pub mod text;
pub mod threading;
pub mod times;
pub mod xml;

pub use compose::Draft;
pub use discovery::Discovered;
pub use drafts::Drafts;
pub use error::{Error, Result};
pub use folder::{Folder, SpecialUse};
pub use index::{Conversation, Hit, Summary};
pub use model::{Flags, Mailbox, Message};
pub use outbox::Outbox;
pub use plan::{plan_fetch, plan_reconcile, MailboxPlan};
pub use sasl::Credentials;
pub use search::Query;
pub use smtp::{Outcome, SmtpEndpoint};
pub use store::{Cursor, MailStore, MailboxState, MemoryStore, RemoteMessage};
