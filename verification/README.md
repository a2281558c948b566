# cosmic-pim-mail

The logic of a mail client, written in Verus: every function of the library
carries a contract, and Verus proves that its body keeps it.

- `src/` is the library. It parses, plans, renders and decides; it touches no
  disk, no socket and no clock.
- `app/` is ordinary Rust around it: files, IMAP, JMAP, Gmail, Graph, POP3 and
  SMTP sessions, and the database behind the index.
- `tests/` runs the library with the crates it calls.

## How a sync is put together

Everything that alternates with a server is a small machine: it is opened over a
store, says what to ask for next, and is handed what came back. `imap::Cycle`,
`jmap::Pass`, `gmail::Pass`, `graph::Pass`, `pop3::Pass`, `draft_sync::Sweep`,
`outbox::Drain` and `discovery::discover` all have this shape, so what is proved
of them holds for every answer a server can give.

## What is proved

Each contract says what a function returns or changes, and on which inputs it
fails. Beside them stand laws that span functions, as public proof functions: a
cursor is committed after everything it stands for, an empty listing empties no
mailbox, a message that may have been delivered is never sent again, nothing is
deleted from a POP3 server that is not on disk, a mailbox written as mbox reads
back byte for byte.

A store may fail at any step that asks something of it, and at no other. What is
promised then is part of `MailStore`: the change that failed touches nothing
else and loses no message. What a pass promises on top of it is that the cursor
stays where it was, that nothing is put down as downloaded that is not stored,
and that the pass takes no further step, so that the window is read again.

## What is taken on trust

MIME parsing (`mail-parser`), message building (`lettre`), OpenPGP (`pgp`), XML
(`quick-xml`), JSON (`serde_json`), dates (`chrono`) and base64 are called,
not rebuilt. The wrappers in `mime`, `letter`, `pgp`, `xml`, `json`, `times` and
`encoding` say what is claimed of each call.
