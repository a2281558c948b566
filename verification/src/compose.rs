//! Drafts, and how a reply or a forward is built from a message.

use vstd::prelude::*;

use crate::bytes::copy_slice;
use crate::chars::{back_run, drop_front, find_of, join_of, joined, lemma_back_run, lemma_back_run_is,
    lemma_run, lemma_run_is, lemma_trimmed_part, lemma_trimmed_twice, lines_of, lowered, opt_str,
    opt_text, pieces, push_all, push_text, run, same, split_of, split_on, text_lines, texts, to_chars,
    to_text, trimmed, white, Class};
use crate::model::{copy_option, mailbox_views, Mailbox, MailboxText, Message, Shown};
use crate::threading::{ancestors, marker, normalized, normalizing_is_idempotent, reference_chain};
use crate::times::{on_calendar, write_date, written, ATTRIBUTION};

verus! {

/// One `@`, something in front of it, and behind it a name with a dot that is
/// at neither end.
pub open spec fn address_like(s: Seq<char>) -> bool {
    let ps = split_on(s, Class::Is('@'));
    &&& ps.len() == 2
    &&& ps[0].len() > 0
    &&& ps[1].contains('.')
    &&& ps[1][0] != '.'
    &&& ps[1].last() != '.'
}

/// The cheapest check that catches a typo without rejecting a valid address.
///
/// Deliberately not an RFC 5321 validator: it catches a forgotten `@` and a
/// doubled one, and leaves the rest to the server.
pub fn looks_like_an_address(address: &str) -> (r: bool)
    ensures
        r == address_like(address@),
{
    let v: Vec<char> = to_chars(address);
    let ps: Vec<Vec<char>> = split_of(&v, Class::Is('@'));
    let ghost all = pieces(ps@);
    assert(all.len() == ps@.len());
    if ps.len() != 2 {
        return false;
    }
    assert(all[0] == ps@[0]@ && all[1] == ps@[1]@);
    let domain: &Vec<char> = &ps[1];
    match find_of(domain, Class::Is('.')) {
        None => {
            proof {
                crate::chars::lemma_run(domain@, Class::Is('.'), false);
                if domain@.contains('.') {
                    let j = choose|j: int| 0 <= j < domain@.len() && domain@[j] == '.';
                    assert(!Class::Is('.').holds(domain@[j]));
                }
            }
            false
        },
        Some(i) => {
            proof {
                crate::chars::lemma_run(domain@, Class::Is('.'), false);
                assert(domain@[i as int] == '.');
            }
            ps[0].len() > 0 && domain[0] != '.' && domain[domain.len() - 1] != '.'
        },
    }
}

// ---- what a draft is ----

/// A file that goes out with a draft. The draft holds the bytes rather than a
/// path: the file may be long gone by the time the message leaves.
#[derive(Debug, PartialEq, Eq)]
pub struct Attachment {
    pub name: String,
    pub mime_type: String,
    pub bytes: Vec<u8>,
}

/// A file, as contracts speak of it.
#[verifier::ext_equal]
pub struct FileText {
    pub name: Seq<char>,
    pub mime_type: Seq<char>,
    pub bytes: Seq<u8>,
}

impl Attachment {
    pub open spec fn view(&self) -> FileText {
        FileText { name: self.name@, mime_type: self.mime_type@, bytes: self.bytes@ }
    }
}

impl Clone for Attachment {
    fn clone(&self) -> (r: Self)
        ensures
            r@ == self@,
    {
        Attachment {
            name: self.name.clone(),
            mime_type: self.mime_type.clone(),
            bytes: copy_slice(&self.bytes),
        }
    }
}

pub open spec fn file_views(v: Seq<Attachment>) -> Seq<FileText> {
    v.map_values(|a: Attachment| a@)
}

/// A message being written.
#[derive(Debug, PartialEq, Eq)]
pub struct Draft {
    pub from: Mailbox,
    pub to: Vec<Mailbox>,
    pub cc: Vec<Mailbox>,
    /// Blind carbon copies: on the envelope, and in the copy filed to Sent, but
    /// not in the bytes the recipients receive.
    pub bcc: Vec<Mailbox>,
    pub subject: String,
    pub body: String,
    /// The `Message-ID` this is a reply to, without angle brackets.
    pub in_reply_to: Option<String>,
    /// The reference chain this reply extends, oldest first, without brackets.
    pub references: Vec<String>,
    pub attachments: Vec<Attachment>,
}

/// A draft, as contracts speak of it.
#[verifier::ext_equal]
pub struct DraftText {
    pub from: MailboxText,
    pub to: Seq<MailboxText>,
    pub cc: Seq<MailboxText>,
    pub bcc: Seq<MailboxText>,
    pub subject: Seq<char>,
    pub body: Seq<char>,
    pub in_reply_to: Option<Seq<char>>,
    pub references: Seq<Seq<char>>,
    pub attachments: Seq<FileText>,
}

/// A draft from one identity, with nothing in it yet.
pub open spec fn blank(from: MailboxText) -> DraftText {
    DraftText {
        from,
        to: Seq::empty(),
        cc: Seq::empty(),
        bcc: Seq::empty(),
        subject: Seq::empty(),
        body: Seq::empty(),
        in_reply_to: None,
        references: Seq::empty(),
        attachments: Seq::empty(),
    }
}

pub(crate) fn copy_mailboxes(v: &Vec<Mailbox>) -> (r: Vec<Mailbox>)
    ensures
        r@ == v@,
{
    let mut out: Vec<Mailbox> = Vec::new();
    let mut i: usize = 0;
    while i < v.len()
        invariant
            i <= v@.len(),
            out@ == v@.take(i as int),
        decreases v@.len() - i,
    {
        out.push(v[i].clone());
        i = i + 1;
        assert(out@ =~= v@.take(i as int));
    }
    assert(v@.take(i as int) =~= v@);
    out
}

fn copy_texts(v: &Vec<String>) -> (r: Vec<String>)
    ensures
        texts(r@) == texts(v@),
{
    let mut out: Vec<String> = Vec::new();
    let mut i: usize = 0;
    while i < v.len()
        invariant
            i <= v@.len(),
            out@.len() == i,
            forall|k: int| 0 <= k < i ==> (#[trigger] out@[k])@ == v@[k]@,
        decreases v@.len() - i,
    {
        out.push(v[i].clone());
        i = i + 1;
    }
    assert(texts(out@) =~= texts(v@));
    out
}

fn copy_files(v: &Vec<Attachment>) -> (r: Vec<Attachment>)
    ensures
        file_views(r@) == file_views(v@),
{
    let mut out: Vec<Attachment> = Vec::new();
    let mut i: usize = 0;
    while i < v.len()
        invariant
            i <= v@.len(),
            out@.len() == i,
            forall|k: int| 0 <= k < i ==> (#[trigger] out@[k])@ == v@[k]@,
        decreases v@.len() - i,
    {
        out.push(v[i].clone());
        i = i + 1;
    }
    assert(file_views(out@) =~= file_views(v@));
    out
}

impl Clone for Draft {
    fn clone(&self) -> (r: Self)
        ensures
            r@ == self@,
    {
        Draft {
            from: self.from.clone(),
            to: copy_mailboxes(&self.to),
            cc: copy_mailboxes(&self.cc),
            bcc: copy_mailboxes(&self.bcc),
            subject: self.subject.clone(),
            body: self.body.clone(),
            in_reply_to: copy_option(&self.in_reply_to),
            references: copy_texts(&self.references),
            attachments: copy_files(&self.attachments),
        }
    }
}

impl Default for Draft {
    fn default() -> (r: Self)
        ensures
            r@ == blank(MailboxText { name: None, address: Seq::empty() }),
    {
        Draft::new(Mailbox::default())
    }
}

// ---- answering a message ----

pub open spec fn addressed(list: Seq<MailboxText>, address: Seq<char>) -> bool {
    exists|i: int| 0 <= i < list.len() && (#[trigger] list[i]).address == address
}

/// Everyone else a message was addressed to: neither oneself nor anybody who is
/// answered already, and each once.
pub open spec fn others(list: Seq<MailboxText>, me: Seq<char>, to: Seq<MailboxText>) -> Seq<
    MailboxText,
>
    decreases list.len(),
{
    if list.len() == 0 {
        Seq::empty()
    } else {
        let front = others(list.drop_last(), me, to);
        let m = list.last();
        if m.address == me || addressed(to, m.address) || addressed(front, m.address) {
            front
        } else {
            front.push(m)
        }
    }
}

/// A list of mailboxes without one address.
pub open spec fn leaving_out(list: Seq<MailboxText>, me: Seq<char>) -> Seq<MailboxText>
    decreases list.len(),
{
    if list.len() == 0 {
        Seq::empty()
    } else {
        let front = leaving_out(list.drop_last(), me);
        if list.last().address == me {
            front
        } else {
            front.push(list.last())
        }
    }
}

/// Where a reply goes: where the sender asked for it, but not to oneself. A
/// follow-up on one's own message goes where that went, again not to oneself,
/// unless it went nowhere else.
pub open spec fn answered(m: Shown, me: Seq<char>) -> Seq<MailboxText> {
    let kept = leaving_out(reply_target(m), me);
    let others = leaving_out(m.to, me);
    if kept.len() > 0 {
        kept
    } else if others.len() > 0 {
        others
    } else {
        m.to
    }
}

pub open spec fn reply_target(m: Shown) -> Seq<MailboxText> {
    if m.reply_to.len() == 0 {
        m.from
    } else {
        m.reply_to
    }
}

/// At most twenty ids: the root, and the most recent.
pub open spec fn capped(chain: Seq<Seq<char>>) -> Seq<Seq<char>> {
    if chain.len() > 20 {
        seq![chain[0]] + chain.skip(chain.len() - 19)
    } else {
        chain
    }
}

/// The reference chain a reply carries: the parent's chain plus the parent.
pub open spec fn chain_of(m: Shown) -> Seq<Seq<char>> {
    let chain = ancestors(m.references, m.in_reply_to);
    match m.message_id {
        Some(id) => if chain.contains(id) {
            chain
        } else {
            chain.push(id)
        },
        None => chain,
    }
}

/// `Re: subject`, or only the prefix where there is no subject.
pub open spec fn prefixed(prefix: Seq<char>, subject: Seq<char>) -> Seq<char> {
    if subject.len() == 0 {
        prefix + ":"@
    } else {
        prefix + ": "@ + subject
    }
}

pub open spec fn quoted_line(line: Seq<char>) -> Seq<char> {
    if line.len() == 0 {
        ">\n"@
    } else {
        "> "@ + line + "\n"@
    }
}

pub open spec fn quoted_all(lines: Seq<Seq<char>>) -> Seq<char>
    decreases lines.len(),
{
    if lines.len() == 0 {
        Seq::empty()
    } else {
        quoted_all(lines.drop_last()) + quoted_line(lines.last())
    }
}

/// A body quoted: its first fifty lines, and a mark where there were more.
pub open spec fn quoted(body: Seq<char>) -> Seq<char> {
    let ls = text_lines(body);
    if ls.len() > QUOTE_LIMIT_LINES {
        quoted_all(ls.take(QUOTE_LIMIT_LINES as int)) + "> [...]\n"@
    } else {
        quoted_all(ls)
    }
}

/// A mailbox as it is shown: its name, else its address.
pub open spec fn display(m: MailboxText) -> Seq<char> {
    match m.name {
        Some(name) => if trimmed(name).len() > 0 {
            name
        } else {
            m.address
        },
        None => m.address,
    }
}

/// When a message was written, as an attribution says it.
pub open spec fn when(date: Option<i64>) -> Seq<char> {
    match date {
        Some(secs) => if on_calendar(secs as int) {
            written(secs as int, ATTRIBUTION@)
        } else {
            Seq::empty()
        },
        None => Seq::empty(),
    }
}

/// The line that says who wrote what follows.
pub open spec fn attribution(m: Shown) -> Seq<char> {
    let who = if m.from.len() > 0 {
        display(m.from[0])
    } else {
        "someone"@
    };
    let at = when(m.date);
    if at.len() == 0 {
        who + " wrote:"@
    } else {
        "On "@ + at + ", "@ + who + " wrote:"@
    }
}

/// The attribution line and the quoted body.
pub open spec fn quotation(m: Shown) -> Seq<char> {
    "\n\n"@ + attribution(m) + "\n"@ + quoted(m.body)
}

pub open spec fn addresses_of(list: Seq<MailboxText>) -> Seq<Seq<char>> {
    list.map_values(|m: MailboxText| m.address)
}

/// A forward's body: the headers a reader needs, then the body as it is.
pub open spec fn forwarded(m: Shown) -> Seq<char> {
    let to = joined(addresses_of(m.to), ", "@);
    "\n\n---------- Forwarded message ----------\n"@ + (if m.from.len() > 0 {
        "From: "@ + display(m.from[0]) + " <"@ + m.from[0].address + ">\n"@
    } else {
        Seq::empty()
    }) + (if m.date is Some && on_calendar(m.date->0 as int) {
        "Date: "@ + written(m.date->0 as int, ATTRIBUTION@) + "\n"@
    } else {
        Seq::empty()
    }) + (if m.subject.len() > 0 {
        "Subject: "@ + m.subject + "\n"@
    } else {
        Seq::empty()
    }) + (if to.len() > 0 {
        "To: "@ + to + "\n"@
    } else {
        Seq::empty()
    }) + "\n"@ + m.body
}

/// A reply.
pub open spec fn replying(m: Shown, from: MailboxText, reply_all: bool) -> DraftText {
    DraftText {
        to: answered(m, from.address),
        cc: if reply_all {
            others(m.to + m.cc, from.address, reply_target(m))
        } else {
            Seq::empty()
        },
        subject: prefixed("Re"@, m.subject_norm),
        body: quotation(m),
        in_reply_to: m.message_id,
        references: capped(chain_of(m)),
        ..blank(from)
    }
}

/// A forward, addressed to nobody yet.
pub open spec fn forwarding(m: Shown, from: MailboxText) -> DraftText {
    DraftText { subject: prefixed("Fwd"@, m.subject_norm), body: forwarded(m), ..blank(from) }
}

/// How much of a message is quoted into a reply.
pub const QUOTE_LIMIT_LINES: usize = 50;

fn is_addressed(list: &Vec<Mailbox>, address: &str) -> (r: bool)
    ensures
        r == addressed(mailbox_views(list@), address@),
{
    let ghost all = mailbox_views(list@);
    let mut i: usize = 0;
    while i < list.len()
        invariant
            i <= list@.len(),
            all == mailbox_views(list@),
            forall|k: int| 0 <= k < i ==> (#[trigger] all[k]).address != address@,
        decreases list@.len() - i,
    {
        assert(all[i as int] == list@[i as int]@);
        if same(&list[i].address, address) {
            return true;
        }
        i = i + 1;
    }
    false
}

fn add_others(
    cc: &mut Vec<Mailbox>,
    list: &Vec<Mailbox>,
    me: &str,
    to: &Vec<Mailbox>,
    Ghost(done): Ghost<Seq<MailboxText>>,
)
    requires
        mailbox_views(old(cc)@) == others(done, me@, mailbox_views(to@)),
    ensures
        mailbox_views(final(cc)@) == others(
            done + mailbox_views(list@),
            me@,
            mailbox_views(to@),
        ),
{
    let ghost all = mailbox_views(list@);
    let mut i: usize = 0;
    assert(done + all.take(0) =~= done);
    while i < list.len()
        invariant
            i <= list@.len(),
            all == mailbox_views(list@),
            mailbox_views(cc@) == others(done + all.take(i as int), me@, mailbox_views(to@)),
        decreases list@.len() - i,
    {
        let ghost before = mailbox_views(cc@);
        proof {
            let now = done + all.take(i + 1);
            assert(now.drop_last() =~= done + all.take(i as int));
            assert(now.last() == list@[i as int]@);
        }
        let address: &str = list[i].address.as_str();
        if !same(address, me) && !is_addressed(to, address) && !is_addressed(cc, address) {
            cc.push(list[i].clone());
            assert(mailbox_views(cc@) =~= before.push(list@[i as int]@));
        }
        i = i + 1;
    }
    assert(all.take(i as int) =~= all);
}

fn leave_out(list: &Vec<Mailbox>, me: &str) -> (r: Vec<Mailbox>)
    ensures
        mailbox_views(r@) == leaving_out(mailbox_views(list@), me@),
{
    let ghost all = mailbox_views(list@);
    let mut out: Vec<Mailbox> = Vec::new();
    let mut i: usize = 0;
    assert(all.take(0) =~= Seq::<MailboxText>::empty());
    assert(mailbox_views(out@) =~= Seq::<MailboxText>::empty());
    while i < list.len()
        invariant
            i <= list@.len(),
            all == mailbox_views(list@),
            mailbox_views(out@) == leaving_out(all.take(i as int), me@),
        decreases list@.len() - i,
    {
        let ghost before = mailbox_views(out@);
        proof {
            assert(all.take(i + 1).drop_last() =~= all.take(i as int));
            assert(all.take(i + 1).last() == list@[i as int]@);
        }
        if !same(&list[i].address, me) {
            out.push(list[i].clone());
            assert(mailbox_views(out@) =~= before.push(list@[i as int]@));
        }
        i = i + 1;
    }
    assert(all.take(i as int) =~= all);
    out
}

fn is_listed(ids: &Vec<String>, id: &str) -> (r: bool)
    ensures
        r == texts(ids@).contains(id@),
{
    let mut i: usize = 0;
    while i < ids.len()
        invariant
            i <= ids@.len(),
            forall|k: int| 0 <= k < i ==> #[trigger] texts(ids@)[k] != id@,
        decreases ids@.len() - i,
    {
        if same(&ids[i], id) {
            assert(texts(ids@)[i as int] == id@);
            return true;
        }
        i = i + 1;
    }
    false
}

fn cap(chain: Vec<String>) -> (r: Vec<String>)
    ensures
        texts(r@) == capped(texts(chain@)),
{
    if chain.len() <= 20 {
        return chain;
    }
    let ghost all = texts(chain@);
    let mut out: Vec<String> = Vec::new();
    out.push(chain[0].clone());
    let start: usize = chain.len() - 19;
    let mut i: usize = start;
    assert(texts(out@) =~= seq![all[0]] + all.subrange(start as int, start as int));
    while i < chain.len()
        invariant
            start <= i <= chain@.len(),
            all == texts(chain@),
            texts(out@) == seq![all[0]] + all.subrange(start as int, i as int),
        decreases chain@.len() - i,
    {
        let ghost before = texts(out@);
        out.push(chain[i].clone());
        assert(texts(out@) =~= before.push(all[i as int]));
        assert(before.push(all[i as int]) =~= seq![all[0]] + all.subrange(start as int, i + 1));
        i = i + 1;
    }
    assert(all.subrange(start as int, i as int) =~= all.skip(start as int));
    out
}

/// The reference chain a reply should carry: the parent's chain plus the
/// parent, capped to the root and the most recent.
#[must_use]
pub fn reply_references(message: &Message) -> (r: Vec<String>)
    ensures
        texts(r@) == capped(chain_of(message@)),
{
    let mut chain: Vec<String> = reference_chain(&message.references, &message.in_reply_to);
    if let Some(id) = &message.message_id {
        if !is_listed(&chain, id) {
            let ghost before = texts(chain@);
            chain.push(id.clone());
            assert(texts(chain@) =~= before.push(id@));
        }
    }
    cap(chain)
}

fn prefix(word: &str, subject: &str) -> (r: String)
    ensures
        r@ == prefixed(word@, subject@),
{
    let mut out: Vec<char> = to_chars(word);
    let s: Vec<char> = to_chars(subject);
    if s.len() == 0 {
        push_text(&mut out, ":");
    } else {
        push_text(&mut out, ": ");
        push_all(&mut out, &s);
    }
    to_text(&out)
}

fn quoted_lines(body: &str) -> (r: Vec<char>)
    ensures
        r@ == quoted(body@),
{
    let ls: Vec<Vec<char>> = lines_of(&to_chars(body));
    let ghost all = pieces(ls@);
    let mut out: Vec<char> = Vec::new();
    let mut i: usize = 0;
    assert(all.take(0) =~= Seq::<Seq<char>>::empty());
    while i < ls.len() && i < QUOTE_LIMIT_LINES
        invariant
            i <= ls@.len(),
            i <= QUOTE_LIMIT_LINES,
            all == pieces(ls@),
            out@ == quoted_all(all.take(i as int)),
        decreases ls@.len() - i,
    {
        proof {
            assert(all.take(i + 1).drop_last() =~= all.take(i as int));
            assert(all.take(i + 1).last() == ls@[i as int]@);
        }
        let ghost before = out@;
        if ls[i].len() == 0 {
            push_text(&mut out, ">\n");
        } else {
            push_text(&mut out, "> ");
            push_all(&mut out, &ls[i]);
            push_text(&mut out, "\n");
            assert(out@ =~= before + ("> "@ + ls@[i as int]@ + "\n"@));
        }
        i = i + 1;
    }
    if ls.len() > QUOTE_LIMIT_LINES {
        push_text(&mut out, "> [...]\n");
    } else {
        assert(all.take(i as int) =~= all);
    }
    out
}

fn when_text(date: Option<i64>) -> (r: Vec<char>)
    ensures
        r@ == when(date),
{
    match date {
        Some(secs) => match write_date(secs, ATTRIBUTION) {
            Some(text) => to_chars(&text),
            None => Vec::new(),
        },
        None => Vec::new(),
    }
}

proof fn lemma_display(m: Mailbox)
    ensures
        m.shown() == display(m@),
{
}

/// The attribution line and the quoted body.
#[must_use]
pub fn quote(message: &Message) -> (r: String)
    ensures
        r@ == quotation(message@),
{
    let who: String = match message.sender() {
        Some(from) => {
            assert(mailbox_views(message.from@)[0] == message.from@[0]@);
            proof {
                lemma_display(*from);
            }
            from.display().to_owned()
        },
        None => "someone".to_owned(),
    };
    let at: Vec<char> = when_text(message.date);
    let mut line: Vec<char> = Vec::new();
    if at.len() == 0 {
        push_text(&mut line, &who);
        push_text(&mut line, " wrote:");
        assert(line@ =~= attribution(message@));
    } else {
        push_text(&mut line, "On ");
        push_all(&mut line, &at);
        push_text(&mut line, ", ");
        push_text(&mut line, &who);
        push_text(&mut line, " wrote:");
        assert(line@ =~= attribution(message@));
    }
    let mut out: Vec<char> = to_chars("\n\n");
    push_all(&mut out, &line);
    push_text(&mut out, "\n");
    push_all(&mut out, &quoted_lines(&message.body.text));
    to_text(&out)
}

fn address_texts(list: &Vec<Mailbox>) -> (r: Vec<Vec<char>>)
    ensures
        pieces(r@) == addresses_of(mailbox_views(list@)),
{
    let mut out: Vec<Vec<char>> = Vec::new();
    let mut i: usize = 0;
    while i < list.len()
        invariant
            i <= list@.len(),
            out@.len() == i,
            forall|k: int| 0 <= k < i ==> (#[trigger] out@[k])@ == list@[k].address@,
        decreases list@.len() - i,
    {
        out.push(to_chars(&list[i].address));
        i = i + 1;
    }
    assert(pieces(out@) =~= addresses_of(mailbox_views(list@)));
    out
}

/// A forward: the headers a recipient needs to understand what they are looking
/// at, then the body, unquoted.
#[must_use]
pub fn forward_text(message: &Message) -> (r: String)
    ensures
        r@ == forwarded(message@),
{
    let ghost m = message@;
    let ghost none = Seq::<char>::empty();
    let mut out: Vec<char> = to_chars("\n\n---------- Forwarded message ----------\n");
    let ghost g0 = out@;
    let ghost from_line = if m.from.len() > 0 {
        "From: "@ + display(m.from[0]) + " <"@ + m.from[0].address + ">\n"@
    } else {
        none
    };
    if let Some(from) = message.sender() {
        assert(mailbox_views(message.from@)[0] == message.from@[0]@);
        proof {
            lemma_display(*from);
        }
        push_text(&mut out, "From: ");
        push_text(&mut out, from.display());
        push_text(&mut out, " <");
        push_text(&mut out, &from.address);
        push_text(&mut out, ">\n");
    }
    assert(out@ =~= g0 + from_line);
    let ghost g1 = out@;
    let ghost date_line = if m.date is Some && on_calendar(m.date->0 as int) {
        "Date: "@ + written(m.date->0 as int, ATTRIBUTION@) + "\n"@
    } else {
        none
    };
    if let Some(secs) = message.date {
        if let Some(date) = write_date(secs, ATTRIBUTION) {
            push_text(&mut out, "Date: ");
            push_text(&mut out, &date);
            push_text(&mut out, "\n");
        }
    }
    assert(out@ =~= g1 + date_line);
    let ghost g2 = out@;
    let ghost subject_line = if m.subject.len() > 0 {
        "Subject: "@ + m.subject + "\n"@
    } else {
        none
    };
    let subject: Vec<char> = to_chars(&message.subject);
    if subject.len() > 0 {
        push_text(&mut out, "Subject: ");
        push_all(&mut out, &subject);
        push_text(&mut out, "\n");
    }
    assert(out@ =~= g2 + subject_line);
    let ghost g3 = out@;
    let to: Vec<char> = join_of(&address_texts(&message.to), ", ");
    let ghost to_line = if to@.len() > 0 {
        "To: "@ + to@ + "\n"@
    } else {
        none
    };
    if to.len() > 0 {
        push_text(&mut out, "To: ");
        push_all(&mut out, &to);
        push_text(&mut out, "\n");
    }
    assert(out@ =~= g3 + to_line);
    push_text(&mut out, "\n");
    push_text(&mut out, &message.body.text);
    to_text(&out)
}

// ---- what stops a draft ----

pub open spec fn everyone(d: DraftText) -> Seq<MailboxText> {
    d.to + d.cc + d.bcc
}

/// Why a draft cannot be sent yet, if it cannot.
pub open spec fn problem_of(d: DraftText) -> Option<Seq<char>> {
    if d.from.address.len() == 0 {
        Some("this draft has no sender"@)
    } else if everyone(d).len() == 0 {
        Some("this draft has no recipients"@)
    } else if !address_like(d.from.address) || exists|i: int|
        0 <= i < everyone(d).len() && !address_like((#[trigger] everyone(d)[i]).address) {
        Some("one of the addresses is not an address"@)
    } else {
        None
    }
}

impl Draft {
    pub open spec fn view(&self) -> DraftText {
        DraftText {
            from: self.from@,
            to: mailbox_views(self.to@),
            cc: mailbox_views(self.cc@),
            bcc: mailbox_views(self.bcc@),
            subject: self.subject@,
            body: self.body@,
            in_reply_to: opt_text(self.in_reply_to),
            references: texts(self.references@),
            attachments: file_views(self.attachments@),
        }
    }

    /// A blank draft from one identity.
    #[must_use]
    pub fn new(from: Mailbox) -> (r: Self)
        ensures
            r@ == blank(from@),
    {
        let r: Draft = Draft {
            from,
            to: Vec::new(),
            cc: Vec::new(),
            bcc: Vec::new(),
            subject: String::new(),
            body: String::new(),
            in_reply_to: None,
            references: Vec::new(),
            attachments: Vec::new(),
        };
        assert(r@ =~= blank(from@));
        r
    }

    /// A reply to `message`.
    ///
    /// `reply_all` adds everyone the original was addressed to, minus the
    /// sender's own address.
    #[must_use]
    pub fn reply(message: &Message, from: Mailbox, reply_all: bool) -> (r: Self)
        ensures
            r@ == replying(message@, from@, reply_all),
    {
        let target: &Vec<Mailbox> = message.reply_target();
        assert(mailbox_views(message.reply_to@).len() == message.reply_to@.len());
        let mut cc: Vec<Mailbox> = Vec::new();
        let ghost none = Seq::<MailboxText>::empty();
        assert(mailbox_views(cc@) =~= none);
        if reply_all {
            add_others(&mut cc, &message.to, &from.address, target, Ghost(none));
            assert(none + mailbox_views(message.to@) =~= mailbox_views(message.to@));
            add_others(
                &mut cc,
                &message.cc,
                &from.address,
                target,
                Ghost(mailbox_views(message.to@)),
            );
        }
        let kept: Vec<Mailbox> = leave_out(target, &from.address);
        assert(mailbox_views(kept@).len() == kept@.len());
        let others: Vec<Mailbox> = leave_out(&message.to, &from.address);
        assert(mailbox_views(others@).len() == others@.len());
        let to: Vec<Mailbox> = if kept.len() > 0 {
            kept
        } else if others.len() > 0 {
            others
        } else {
            copy_mailboxes(&message.to)
        };
        let r: Draft = Draft {
            references: reply_references(message),
            in_reply_to: copy_option(&message.message_id),
            subject: prefix("Re", &message.subject_norm),
            body: quote(message),
            from,
            to,
            cc,
            bcc: Vec::new(),
            attachments: Vec::new(),
        };
        assert(r@ =~= replying(message@, from@, reply_all));
        r
    }

    /// A forward of `message`, addressed to nobody yet. Its attachments are not
    /// carried.
    #[must_use]
    pub fn forward(message: &Message, from: Mailbox) -> (r: Self)
        ensures
            r@ == forwarding(message@, from@),
    {
        let subject: String = prefix("Fwd", &message.subject_norm);
        let body: String = forward_text(message);
        let mut r: Draft = Draft::new(from);
        r.subject = subject;
        r.body = body;
        assert(r@ =~= forwarding(message@, from@));
        r
    }

    /// Every address the message will actually go to.
    #[must_use]
    pub fn recipients(&self) -> (r: Vec<Mailbox>)
        ensures
            mailbox_views(r@) == everyone(self@),
            r@ == self.to@ + self.cc@ + self.bcc@,
    {
        let mut all: Vec<Mailbox> = copy_mailboxes(&self.to);
        let mut cc: Vec<Mailbox> = copy_mailboxes(&self.cc);
        let mut bcc: Vec<Mailbox> = copy_mailboxes(&self.bcc);
        all.append(&mut cc);
        all.append(&mut bcc);
        assert(mailbox_views(all@) =~= everyone(self@));
        all
    }

    /// Why this draft cannot be sent yet, if it cannot.
    ///
    /// A separate check from [`Self::build`], so that a composer can refuse for
    /// the same reasons the send would fail.
    #[must_use]
    pub fn problem(&self) -> (r: Option<&'static str>)
        ensures
            opt_str(r) == problem_of(self@),
    {
        if to_chars(&self.from.address).len() == 0 {
            return Some("this draft has no sender");
        }
        let all: Vec<Mailbox> = self.recipients();
        assert(mailbox_views(all@).len() == all@.len());
        if all.len() == 0 {
            return Some("this draft has no recipients");
        }
        let mut i: usize = 0;
        while i < all.len()
            invariant
                i <= all@.len(),
                mailbox_views(all@) == everyone(self@),
                self@.from.address.len() > 0,
                everyone(self@).len() > 0,
                forall|k: int| 0 <= k < i ==> address_like((#[trigger] everyone(self@)[k]).address),
            decreases all@.len() - i,
        {
            assert(mailbox_views(all@)[i as int] == all@[i as int]@);
            if !looks_like_an_address(&all[i].address) {
                assert(!address_like(everyone(self@)[i as int].address));
                return Some("one of the addresses is not an address");
            }
            i = i + 1;
        }
        if !looks_like_an_address(&self.from.address) {
            return Some("one of the addresses is not an address");
        }
        None
    }
}

// ---- laws of answering ----

proof fn lemma_others(list: Seq<MailboxText>, me: Seq<char>, to: Seq<MailboxText>)
    ensures
        forall|i: int|
            0 <= i < others(list, me, to).len() ==> (#[trigger] others(list, me, to)[i]).address
                != me && !addressed(to, others(list, me, to)[i].address),
    decreases list.len(),
{
    if list.len() > 0 {
        lemma_others(list.drop_last(), me, to);
    }
}

proof fn lemma_leaving_out(list: Seq<MailboxText>, me: Seq<char>)
    ensures
        forall|i: int|
            0 <= i < leaving_out(list, me).len() ==> (#[trigger] leaving_out(list, me)[i]).address
                != me,
    decreases list.len(),
{
    if list.len() > 0 {
        lemma_leaving_out(list.drop_last(), me);
    }
}

proof fn lemma_leaving_out_both(a: Seq<MailboxText>, b: Seq<MailboxText>, me: Seq<char>)
    ensures
        leaving_out(a + b, me) == leaving_out(a, me) + leaving_out(b, me),
    decreases b.len(),
{
    if b.len() == 0 {
        assert(a + b =~= a);
    } else {
        lemma_leaving_out_both(a, b.drop_last(), me);
        assert((a + b).drop_last() =~= a + b.drop_last());
    }
}

/// A reply to all goes to nobody's own address, unless nobody else is among
/// those it answers or went to, and to nobody twice through the copy list.
pub proof fn a_reply_all_leaves_you_out(m: Shown, from: MailboxText)
    ensures
        !addressed(replying(m, from, true).cc, from.address),
        leaving_out(reply_target(m) + m.to, from.address).len() > 0 ==> !addressed(
            replying(m, from, true).to,
            from.address,
        ),
        forall|i: int|
            0 <= i < replying(m, from, true).cc.len() ==> !addressed(
                reply_target(m),
                (#[trigger] replying(m, from, true).cc[i]).address,
            ),
{
    lemma_others(m.to + m.cc, from.address, reply_target(m));
    lemma_leaving_out(reply_target(m), from.address);
    lemma_leaving_out(m.to, from.address);
    lemma_leaving_out_both(reply_target(m), m.to, from.address);
}

/// Everyone a message was addressed to gets a reply to all, but oneself.
pub proof fn a_reply_all_reaches_everyone(m: Shown, from: MailboxText, i: int)
    requires
        0 <= i < (m.to + m.cc).len(),
        (m.to + m.cc)[i].address != from.address,
    ensures
        addressed(replying(m, from, true).to, (m.to + m.cc)[i].address) || addressed(
            replying(m, from, true).cc,
            (m.to + m.cc)[i].address,
        ),
{
    let address = (m.to + m.cc)[i].address;
    lemma_others_complete(m.to + m.cc, from.address, reply_target(m), i);
    if addressed(reply_target(m), address) {
        lemma_left_in(reply_target(m), from.address, address);
    }
}

proof fn lemma_left_in(list: Seq<MailboxText>, me: Seq<char>, address: Seq<char>)
    requires
        addressed(list, address),
        address != me,
    ensures
        addressed(leaving_out(list, me), address),
    decreases list.len(),
{
    let k = choose|k: int| 0 <= k < list.len() && (#[trigger] list[k]).address == address;
    let front = leaving_out(list.drop_last(), me);
    let all = leaving_out(list, me);
    if k < list.len() - 1 {
        assert(list.drop_last()[k] == list[k]);
        lemma_left_in(list.drop_last(), me, address);
        let j = choose|j: int| 0 <= j < front.len() && (#[trigger] front[j]).address == address;
        assert(all[j] == front[j]);
    } else {
        assert(all[front.len() as int] == list[k]);
    }
}

proof fn lemma_others_complete(list: Seq<MailboxText>, me: Seq<char>, to: Seq<MailboxText>, i: int)
    requires
        0 <= i < list.len(),
        list[i].address != me,
    ensures
        addressed(to, list[i].address) || addressed(others(list, me, to), list[i].address),
    decreases list.len(),
{
    let front = others(list.drop_last(), me, to);
    let all = others(list, me, to);
    if i < list.len() - 1 {
        assert(list.drop_last()[i] == list[i]);
        lemma_others_complete(list.drop_last(), me, to, i);
        if addressed(front, list[i].address) {
            let k = choose|k: int| 0 <= k < front.len() && (#[trigger] front[k]).address
                == list[i].address;
            assert(all[k] == front[k]);
        }
    } else {
        if !addressed(to, list[i].address) && !addressed(front, list[i].address) {
            assert(all[front.len() as int] == list[i]);
        }
    }
}

/// However long a thread grows, the chain a reply carries keeps its root and
/// its newest end, and stays within twenty.
pub proof fn a_long_chain_keeps_both_ends(chain: Seq<Seq<char>>)
    requires
        chain.len() > 0,
    ensures
        0 < capped(chain).len() <= 20,
        capped(chain)[0] == chain[0],
        capped(chain).last() == chain.last(),
{
}

proof fn lemma_normalized_trimmed(s: Seq<char>)
    ensures
        trimmed(normalized(s)) == normalized(s),
    decreases s.len(),
{
    let t = trimmed(s);
    let n = marker(t);
    lemma_trimmed_part(s);
    lemma_trimmed_twice(s);
    if 0 < n <= t.len() {
        lemma_normalized_trimmed(t.skip(n as int));
    }
}

/// What has no white space at its ends is what is left when white space is put
/// around it and trimmed away.
proof fn lemma_trimmed_around(front: Seq<char>, n: Seq<char>)
    requires
        n.len() > 0,
        trimmed(n) == n,
        forall|i: int| 0 <= i < front.len() ==> white(#[trigger] front[i]),
    ensures
        trimmed(front + n) == n,
        !white(n[0]),
        !white(n.last()),
{
    let w = Class::White;
    lemma_run(n, w, true);
    let f = drop_front(n, w);
    lemma_back_run(f, w);
    assert(run(n, w, true) == 0 && back_run(f, w) == 0);
    assert(f =~= n);
    let s = front + n;
    lemma_run_is(s, w, true, front.len() as int);
    assert(drop_front(s, w) =~= n);
    assert(n.take(n.len() as int) =~= n);
}

/// The prefix of a reply's subject never stacks: a reply to a reply has the
/// subject of the reply.
pub proof fn prefixes_never_stack(subject: Seq<char>)
    requires
        normalized(subject).len() > 0,
    ensures
        prefixed("Re"@, normalized(prefixed("Re"@, normalized(subject)))) == prefixed(
            "Re"@,
            normalized(subject),
        ),
{
    let n = normalized(subject);
    let again = prefixed("Re"@, n);
    lemma_normalized_trimmed(subject);
    normalizing_is_idempotent(subject);
    reveal_strlit("Re");
    reveal_strlit(": ");
    reveal_strlit("re:");
    assert("re:"@ =~= seq!['r', 'e', ':']);
    assert(again =~= seq!['R', 'e', ':', ' '] + n);
    lemma_trimmed_around(seq![' '], n);
    lemma_run_is(again, Class::White, true, 0);
    assert(again.skip(0) =~= again);
    assert(again.last() == n.last());
    lemma_back_run_is(again, Class::White, 0);
    assert(again.take(again.len() as int) =~= again);
    assert(trimmed(again) == again);
    assert(lowered(again).take(3) =~= "re:"@);
    assert(marker(again) == 3);
    assert(again.skip(3) =~= seq![' '] + n);
    assert(normalized(again) == normalized(seq![' '] + n));
    assert(normalized(seq![' '] + n) == normalized(n));
}

// ---- what a reply and a forward are for ----

/// A forward carries the whole message: its body ends with the message's own, untouched,
/// and what stands in front of that holds the sender's address, the subject and every
/// address the message went to. It is addressed to nobody yet, and answers nothing.
pub proof fn a_forward_carries_the_message(m: Shown, from: MailboxText)
    ensures
        ({
            let d = forwarding(m, from);
            let cut = d.body.len() - m.body.len();
            let head = d.body.take(cut);
            &&& cut >= 0 && d.body.skip(cut) == m.body
            &&& m.from.len() > 0 ==> exists|a: int|
                0 <= a <= head.len() - m.from[0].address.len() && #[trigger] head.subrange(
                    a,
                    a + m.from[0].address.len(),
                ) == m.from[0].address
            &&& m.subject.len() > 0 ==> exists|a: int|
                0 <= a <= head.len() - m.subject.len() && #[trigger] head.subrange(
                    a,
                    a + m.subject.len(),
                ) == m.subject
            &&& forall|i: int|
                0 <= i < m.to.len() && (#[trigger] m.to[i]).address.len() > 0 ==> exists|a: int|
                    0 <= a <= head.len() - m.to[i].address.len() && #[trigger] head.subrange(
                        a,
                        a + m.to[i].address.len(),
                    ) == m.to[i].address
            &&& d.from == from
            &&& d.to.len() == 0 && d.cc.len() == 0 && d.bcc.len() == 0
            &&& d.in_reply_to is None && d.references.len() == 0
        }),
{
    let d = forwarding(m, from);
    let to = joined(addresses_of(m.to), ", "@);
    let p0 = "\n\n---------- Forwarded message ----------\n"@;
    let p1 = if m.from.len() > 0 {
        "From: "@ + display(m.from[0]) + " <"@ + m.from[0].address + ">\n"@
    } else {
        Seq::empty()
    };
    let p2 = if m.date is Some && on_calendar(m.date->0 as int) {
        "Date: "@ + written(m.date->0 as int, ATTRIBUTION@) + "\n"@
    } else {
        Seq::empty()
    };
    let p3 = if m.subject.len() > 0 {
        "Subject: "@ + m.subject + "\n"@
    } else {
        Seq::empty()
    };
    let p4 = if to.len() > 0 {
        "To: "@ + to + "\n"@
    } else {
        Seq::empty()
    };
    let head = p0 + p1 + p2 + p3 + p4 + "\n"@;
    let cut = d.body.len() - m.body.len();
    assert(d.body == head + m.body);
    assert(d.body.take(cut) =~= head);
    assert(d.body.skip(cut) =~= m.body);
    if m.from.len() > 0 {
        let x = m.from[0].address;
        let a = p0.len() + ("From: "@ + display(m.from[0]) + " <"@).len();
        assert(head.subrange(a as int, (a + x.len()) as int) =~= x);
    }
    if m.subject.len() > 0 {
        let a = p0.len() + p1.len() + p2.len() + "Subject: "@.len();
        assert(head.subrange(a as int, (a + m.subject.len()) as int) =~= m.subject);
    }
    assert forall|i: int|
        0 <= i < m.to.len() && (#[trigger] m.to[i]).address.len() > 0 implies exists|a: int|
        0 <= a <= head.len() - m.to[i].address.len() && #[trigger] head.subrange(
            a,
            a + m.to[i].address.len(),
        ) == m.to[i].address by {
        let x = m.to[i].address;
        assert(addresses_of(m.to)[i] == x);
        let b = lemma_joined_holds(addresses_of(m.to), ", "@, i);
        let a = p0.len() + p1.len() + p2.len() + p3.len() + "To: "@.len() + b;
        assert(head.subrange(a, a + x.len()) =~= to.subrange(b, b + x.len()));
    }
}

proof fn lemma_joined_holds(parts: Seq<Seq<char>>, sep: Seq<char>, i: int) -> (at: int)
    requires
        0 <= i < parts.len(),
    ensures
        0 <= at <= joined(parts, sep).len() - parts[i].len(),
        joined(parts, sep).subrange(at, at + parts[i].len()) == parts[i],
    decreases parts.len(),
{
    let all = joined(parts, sep);
    if parts.len() == 1 {
        assert(all.subrange(0, parts[i].len() as int) =~= parts[i]);
        0
    } else if i == parts.len() - 1 {
        let at = all.len() - parts[i].len();
        assert(all.subrange(at, at + parts[i].len()) =~= parts[i]);
        at
    } else {
        let t = parts.drop_last();
        assert(t[i] == parts[i]);
        let at = lemma_joined_holds(t, sep, i);
        assert(all.subrange(at, at + parts[i].len()) =~= joined(t, sep).subrange(
            at,
            at + parts[i].len(),
        ));
        at
    }
}

/// A reply goes to exactly those the sender wants it to go to, who are the reply addresses
/// if there are any and the senders otherwise, without one's own address; and where nobody
/// is left of them, to those the message went to.
pub proof fn a_reply_goes_where_it_was_asked_to(
    m: Shown,
    from: MailboxText,
    all: bool,
    wanted: Seq<MailboxText>,
)
    requires
        m.reply_to.len() > 0 ==> wanted == m.reply_to,
        m.reply_to.len() == 0 ==> wanted == m.from,
    ensures
        ({
            let to = replying(m, from, all).to;
            &&& forall|i: int|
                0 <= i < wanted.len() && (#[trigger] wanted[i]).address != from.address
                    ==> to.contains(wanted[i])
            &&& (exists|i: int|
                0 <= i < wanted.len() && (#[trigger] wanted[i]).address != from.address)
                ==> forall|j: int|
                0 <= j < to.len() ==> wanted.contains(#[trigger] to[j]) && to[j].address
                    != from.address
            &&& (forall|i: int|
                0 <= i < wanted.len() ==> (#[trigger] wanted[i]).address == from.address)
                ==> forall|j: int| 0 <= j < to.len() ==> m.to.contains(#[trigger] to[j])
            &&& (forall|i: int|
                0 <= i < wanted.len() ==> (#[trigger] wanted[i]).address == from.address)
                ==> forall|i: int|
                0 <= i < m.to.len() && (#[trigger] m.to[i]).address != from.address ==> to.contains(
                    m.to[i],
                )
        }),
{
    let kept = leaving_out(wanted, from.address);
    let rest = leaving_out(m.to, from.address);
    lemma_left_out(wanted, from.address);
    lemma_left_out(m.to, from.address);
    if exists|i: int| 0 <= i < wanted.len() && (#[trigger] wanted[i]).address != from.address {
        let i = choose|i: int| 0 <= i < wanted.len() && (#[trigger] wanted[i]).address
            != from.address;
        assert(wanted.contains(wanted[i]));
        assert(kept.contains(wanted[i]));
    }
    assert forall|i: int| 0 <= i < wanted.len() && (#[trigger] wanted[i]).address
        != from.address implies kept.contains(wanted[i]) && replying(m, from, all).to == kept by {
        assert(wanted.contains(wanted[i]));
        assert(kept.contains(wanted[i]));
        let k = choose|k: int| 0 <= k < kept.len() && kept[k] == wanted[i];
        assert(kept.len() > 0);
    }
    assert forall|i: int| 0 <= i < m.to.len() && (#[trigger] m.to[i]).address
        != from.address implies rest.contains(m.to[i]) && rest.len() > 0 by {
        assert(m.to.contains(m.to[i]));
        assert(rest.contains(m.to[i]));
        let k = choose|k: int| 0 <= k < rest.len() && rest[k] == m.to[i];
        assert(0 <= k < rest.len());
    }
    assert forall|j: int| 0 <= j < kept.len() implies wanted.contains(#[trigger] kept[j])
        && kept[j].address != from.address by {
        assert(kept.contains(kept[j]));
    }
    assert forall|j: int| 0 <= j < rest.len() implies m.to.contains(#[trigger] rest[j]) by {
        assert(rest.contains(rest[j]));
    }
    assert forall|j: int| 0 <= j < m.to.len() implies m.to.contains(#[trigger] m.to[j]) by {}
    let to = replying(m, from, all).to;
    if exists|i: int| 0 <= i < wanted.len() && (#[trigger] wanted[i]).address != from.address {
        assert(to == kept);
    } else {
        assert(kept.len() == 0) by {
            if kept.len() > 0 {
                assert(kept.contains(kept[0]));
                let i = choose|i: int| 0 <= i < wanted.len() && wanted[i] == kept[0];
                assert(wanted[i].address == from.address);
            }
        }
        if rest.len() > 0 {
            assert(to == rest);
        } else {
            assert(to == m.to);
        }
        assert forall|j: int| 0 <= j < to.len() implies m.to.contains(#[trigger] to[j]) by {
            if rest.len() > 0 {
                assert(m.to.contains(rest[j]));
            } else {
                assert(m.to.contains(m.to[j]));
            }
        }
    }
}

proof fn lemma_left_out(list: Seq<MailboxText>, me: Seq<char>)
    ensures
        forall|x: MailboxText| #[trigger]
            leaving_out(list, me).contains(x) <==> list.contains(x) && x.address != me,
    decreases list.len(),
{
    let r = leaving_out(list, me);
    if list.len() > 0 {
        let t = list.drop_last();
        let front = leaving_out(t, me);
        lemma_left_out(t, me);
        assert forall|x: MailboxText| #[trigger] r.contains(x) <==> list.contains(x) && x.address
            != me by {
            if front.contains(x) {
                let k = choose|k: int| 0 <= k < front.len() && front[k] == x;
                assert(r[k] == x);
                let i = choose|i: int| 0 <= i < t.len() && t[i] == x;
                assert(list[i] == x);
            }
            if r.contains(x) && !front.contains(x) {
                let k = choose|k: int| 0 <= k < r.len() && r[k] == x;
                if k < front.len() {
                    assert(front[k] == x);
                }
                assert(list[list.len() - 1] == x);
            }
            if list.contains(x) && x.address != me && !front.contains(x) {
                let i = choose|i: int| 0 <= i < list.len() && list[i] == x;
                if i < t.len() {
                    assert(t[i] == x);
                    assert(t.contains(x));
                }
                assert(r[r.len() - 1] == x);
            }
        }
    }
}

/// A reply copies nobody, unless it is one to all; then it copies, each address once, only
/// those the message went to.
pub proof fn who_a_reply_copies(m: Shown, from: MailboxText)
    ensures
        replying(m, from, false).cc.len() == 0,
        replying(m, from, false).bcc.len() == 0,
        replying(m, from, true).bcc.len() == 0,
        ({
            let cc = replying(m, from, true).cc;
            &&& forall|i: int|
                0 <= i < cc.len() ==> (m.to.contains(#[trigger] cc[i]) || m.cc.contains(cc[i]))
                    && cc[i].address != from.address
            &&& forall|i: int, j: int|
                0 <= i < j < cc.len() ==> (#[trigger] cc[i]).address != (#[trigger] cc[j]).address
        }),
{
    let list = m.to + m.cc;
    let cc = replying(m, from, true).cc;
    lemma_others_within(list, from.address, reply_target(m));
    assert forall|i: int| 0 <= i < cc.len() implies (m.to.contains(#[trigger] cc[i])
        || m.cc.contains(cc[i])) && cc[i].address != from.address by {
        let k = choose|k: int| 0 <= k < list.len() && list[k] == cc[i];
        if k < m.to.len() {
            assert(m.to[k] == cc[i]);
        } else {
            assert(m.cc[k - m.to.len()] == cc[i]);
        }
    }
}

proof fn lemma_others_within(list: Seq<MailboxText>, me: Seq<char>, to: Seq<MailboxText>)
    ensures
        forall|i: int|
            0 <= i < others(list, me, to).len() ==> list.contains(
                #[trigger] others(list, me, to)[i],
            ) && others(list, me, to)[i].address != me,
        forall|i: int, j: int|
            0 <= i < j < others(list, me, to).len() ==> (#[trigger] others(list, me, to)[i]).address
                != (#[trigger] others(list, me, to)[j]).address,
    decreases list.len(),
{
    if list.len() > 0 {
        let t = list.drop_last();
        let front = others(t, me, to);
        let r = others(list, me, to);
        lemma_others_within(t, me, to);
        assert forall|i: int| 0 <= i < r.len() implies list.contains(#[trigger] r[i])
            && r[i].address != me by {
            if i < front.len() {
                assert(r[i] == front[i]);
                let k = choose|k: int| 0 <= k < t.len() && t[k] == front[i];
                assert(list[k] == r[i]);
            } else {
                assert(list[list.len() - 1] == r[i]);
            }
        }
        assert forall|i: int, j: int| 0 <= i < j < r.len() implies (#[trigger] r[i]).address != (
        #[trigger] r[j]).address by {
            assert(r[i] == front[i]);
            if j < front.len() {
                assert(r[j] == front[j]);
            }
        }
    }
}

/// A reply names the message it answers, its chain ends with it and has no more than twenty
/// ids, and it begins with the oldest one the message itself referred to.
pub proof fn a_reply_extends_the_chain(m: Shown, from: MailboxText, all: bool)
    ensures
        ({
            let d = replying(m, from, all);
            let chain = ancestors(m.references, m.in_reply_to);
            &&& d.in_reply_to == m.message_id
            &&& d.references.len() <= 20
            &&& m.message_id matches Some(id) ==> d.references.len() > 0 && (!chain.contains(id)
                ==> d.references.last() == id)
            &&& chain.len() > 0 ==> d.references.len() > 0 && d.references[0] == chain[0]
            &&& chain.len() < 20 ==> forall|i: int|
                0 <= i < chain.len() ==> d.references.len() > i && #[trigger] d.references[i]
                    == chain[i]
        }),
{
}

/// A reply's subject ends with the subject it answers, stripped of its marks, behind `Re: `;
/// a forward's behind `Fwd: `.
pub proof fn subjects_are_carried_over(m: Shown, from: MailboxText, all: bool)
    requires
        m.subject_norm.len() > 0,
    ensures
        replying(m, from, all).subject == seq!['R', 'e', ':', ' '] + m.subject_norm,
        forwarding(m, from).subject == seq!['F', 'w', 'd', ':', ' '] + m.subject_norm,
{
    reveal_strlit("Re");
    reveal_strlit("Fwd");
    reveal_strlit(": ");
    assert("Re"@ + ": "@ =~= seq!['R', 'e', ':', ' ']);
    assert("Fwd"@ + ": "@ =~= seq!['F', 'w', 'd', ':', ' ']);
}

/// Lines in a row, each with a line break behind it.
pub open spec fn with_breaks(lines: Seq<Seq<char>>) -> Seq<char>
    decreases lines.len(),
{
    if lines.len() == 0 {
        Seq::empty()
    } else {
        lines[0] + seq!['\n'] + with_breaks(lines.skip(1))
    }
}

/// A reply quotes the message: of up to fifty lines, every one stands in the reply behind a
/// `> `, in order, and an empty one as `>` alone; behind them stands nothing.
pub proof fn a_reply_quotes_every_line(
    m: Shown,
    from: MailboxText,
    all: bool,
    lines: Seq<Seq<char>>,
)
    requires
        m.body == with_breaks(lines),
        lines.len() <= 50,
        forall|i: int|
            0 <= i < lines.len() ==> !(#[trigger] lines[i]).contains('\n') && !lines[i].contains(
                '\r',
            ),
    ensures
        ({
            let body = replying(m, from, all).body;
            let quote = with_breaks(
                lines.map_values(
                    |l: Seq<char>|
                        if l.len() == 0 {
                            seq!['>']
                        } else {
                            seq!['>', ' '] + l
                        },
                ),
            );
            body.len() >= quote.len() && body.skip(body.len() - quote.len()) == quote
        }),
{
    let marks = lines.map_values(
        |l: Seq<char>|
            if l.len() == 0 {
                seq!['>']
            } else {
                seq!['>', ' '] + l
            },
    );
    lemma_lines_back(lines);
    lemma_quoted_marks(lines);
    let body = replying(m, from, all).body;
    let quote = with_breaks(marks);
    assert(quoted(m.body) == quote);
    assert(body.skip(body.len() - quote.len()) =~= quote);
}

pub(crate) proof fn lemma_lines_back(lines: Seq<Seq<char>>)
    requires
        forall|i: int|
            0 <= i < lines.len() ==> !(#[trigger] lines[i]).contains('\n') && !lines[i].contains(
                '\r',
            ),
    ensures
        text_lines(with_breaks(lines)) == lines,
    decreases lines.len(),
{
    let s = with_breaks(lines);
    if lines.len() > 0 {
        let rest = lines.skip(1);
        assert forall|i: int| 0 <= i < rest.len() implies !(#[trigger] rest[i]).contains('\n')
            && !rest[i].contains('\r') by {
            assert(rest[i] == lines[i + 1]);
        }
        lemma_lines_back(rest);
        let l = lines[0];
        assert forall|j: int| 0 <= j < l.len() implies !Class::Is('\n').holds(#[trigger] s[j]) by {
            assert(s[j] == l[j]);
            assert(l.contains(l[j]));
        }
        assert(s[l.len() as int] == '\n');
        lemma_run_is(s, Class::Is('\n'), false, l.len() as int);
        assert(s.take(l.len() as int) =~= l);
        assert(s.skip((l.len() + 1) as int) =~= with_breaks(rest));
        assert(crate::chars::without_cr(l) == l) by {
            if l.len() > 0 {
                assert(l.contains(l.last()));
            }
        }
        assert(seq![l] + rest =~= lines);
    } else {
        assert(lines =~= Seq::<Seq<char>>::empty());
    }
}

proof fn lemma_quoted_marks(lines: Seq<Seq<char>>)
    ensures
        quoted_all(lines) == with_breaks(
            lines.map_values(
                |l: Seq<char>|
                    if l.len() == 0 {
                        seq!['>']
                    } else {
                        seq!['>', ' '] + l
                    },
            ),
        ),
    decreases lines.len(),
{
    let f = |l: Seq<char>|
        if l.len() == 0 {
            seq!['>']
        } else {
            seq!['>', ' '] + l
        };
    reveal_strlit(">\n");
    reveal_strlit("> ");
    reveal_strlit("\n");
    if lines.len() > 0 {
        let t = lines.drop_last();
        lemma_quoted_marks(t);
        let marks = lines.map_values(f);
        assert(marks =~= t.map_values(f).push(f(lines.last())));
        lemma_breaks_push(t.map_values(f), f(lines.last()));
        assert(quoted_line(lines.last()) =~= f(lines.last()) + seq!['\n']);
    } else {
        assert(lines.map_values(f).len() == 0);
    }
}

proof fn lemma_breaks_push(lines: Seq<Seq<char>>, last: Seq<char>)
    ensures
        with_breaks(lines.push(last)) == with_breaks(lines) + (last + seq!['\n']),
    decreases lines.len(),
{
    if lines.len() > 0 {
        lemma_breaks_push(lines.skip(1), last);
        assert(lines.push(last).skip(1) =~= lines.skip(1).push(last));
        assert(with_breaks(lines.push(last)) =~= with_breaks(lines) + (last + seq!['\n']));
    } else {
        assert(lines.push(last).skip(1) =~= Seq::<Seq<char>>::empty());
        assert(with_breaks(lines.push(last).skip(1)) =~= Seq::<char>::empty());
        assert(lines.push(last)[0] == last);
        assert(with_breaks(lines.push(last)) =~= last + seq!['\n']);
        assert(with_breaks(lines) + (last + seq!['\n']) =~= last + seq!['\n']);
    }
}

/// What stops a draft: no sender, nobody to send to, or something among its addresses, the
/// sender's own and the blind copies included, that is no address. Nothing else does.
pub proof fn what_stops_a_draft(d: DraftText)
    ensures
        problem_of(d) is None <==> d.from.address.len() > 0 && d.to.len() + d.cc.len()
            + d.bcc.len() > 0 && address_like(d.from.address) && (forall|i: int|
            0 <= i < d.to.len() ==> address_like((#[trigger] d.to[i]).address)) && (forall|i: int|
            0 <= i < d.cc.len() ==> address_like((#[trigger] d.cc[i]).address)) && (forall|i: int|
            0 <= i < d.bcc.len() ==> address_like((#[trigger] d.bcc[i]).address)),
{
    let all = everyone(d);
    assert(all.len() == d.to.len() + d.cc.len() + d.bcc.len());
    if problem_of(d) is None {
        assert forall|i: int| 0 <= i < d.to.len() implies address_like(
            (#[trigger] d.to[i]).address,
        ) by {
            assert(all[i] == d.to[i]);
        }
        assert forall|i: int| 0 <= i < d.cc.len() implies address_like(
            (#[trigger] d.cc[i]).address,
        ) by {
            assert(all[d.to.len() + i] == d.cc[i]);
        }
        assert forall|i: int| 0 <= i < d.bcc.len() implies address_like(
            (#[trigger] d.bcc[i]).address,
        ) by {
            assert(all[d.to.len() + d.cc.len() + i] == d.bcc[i]);
        }
    } else if d.from.address.len() > 0 && all.len() > 0 && address_like(d.from.address) {
        let i = choose|i: int| 0 <= i < all.len() && !address_like((#[trigger] all[i]).address);
        if i < d.to.len() {
            assert(all[i] == d.to[i]);
        } else if i < d.to.len() + d.cc.len() {
            assert(all[i] == d.cc[i - d.to.len()]);
        } else {
            assert(all[i] == d.bcc[i - d.to.len() - d.cc.len()]);
        }
    }
}

/// What an address looks like: something, one `@`, and a name with a dot that is at neither
/// end.
pub proof fn what_an_address_looks_like(local: Seq<char>, domain: Seq<char>)
    requires
        forall|i: int| 0 <= i < local.len() ==> #[trigger] local[i] != '@',
        forall|i: int| 0 <= i < domain.len() ==> #[trigger] domain[i] != '@',
    ensures
        address_like(local + seq!['@'] + domain) <==> local.len() > 0 && domain.contains('.')
            && domain[0] != '.' && domain.last() != '.',
{
    crate::discovery::lemma_two_pieces(local, domain);
}

/// Who a reply says wrote what it quotes: the sender by their name, or by their address where
/// they have none, and when, where that is known.
pub proof fn who_a_quotation_names(m: Shown)
    ensures
        m.from.len() > 0 && m.from[0].name is None && m.date is None ==> attribution(m)
            == m.from[0].address + " wrote:"@,
        m.from.len() > 0 && m.from[0].name is Some && trimmed(m.from[0].name->0).len() > 0
            && m.date is None ==> attribution(m) == m.from[0].name->0 + " wrote:"@,
        m.from.len() > 0 && m.from[0].name is None && m.date is Some && on_calendar(
            m.date->0 as int,
        ) && written(m.date->0 as int, ATTRIBUTION@).len() > 0 ==> attribution(m) == "On "@
            + written(m.date->0 as int, ATTRIBUTION@) + ", "@ + m.from[0].address + " wrote:"@,
        ("\n\n"@ + attribution(m) + "\n"@).is_prefix_of(quotation(m)),
        quoted(m.body).is_suffix_of(quotation(m)),
{
    let head = "\n\n"@ + attribution(m) + "\n"@;
    assert(quotation(m).take(head.len() as int) =~= head);
    assert(quotation(m).skip(head.len() as int) =~= quoted(m.body));
}

/// A long body is quoted by its first fifty lines, with a mark for the rest.
pub proof fn a_long_body_is_cut(body: Seq<char>)
    requires
        text_lines(body).len() > 50,
    ensures
        quoted(body) == quoted_all(text_lines(body).take(50)) + "> [...]\n"@,
{
}

/// Every line that is quoted is behind a `>`, one line after the other.
pub proof fn how_lines_are_quoted(lines: Seq<Seq<char>>, line: Seq<char>)
    ensures
        quoted_all(lines.push(line)) == quoted_all(lines) + if line.len() == 0 {
            ">\n"@
        } else {
            "> "@ + line + "\n"@
        },
        quoted_all(Seq::empty()).len() == 0,
{
    assert(lines.push(line).drop_last() =~= lines);
}

/// A draft begins with nothing in it but its sender.
pub proof fn a_new_draft_is_empty(from: MailboxText)
    ensures
        blank(from).from == from,
        blank(from).to.len() == 0 && blank(from).cc.len() == 0 && blank(from).bcc.len() == 0,
        blank(from).subject.len() == 0 && blank(from).body.len() == 0,
        blank(from).in_reply_to is None && blank(from).references.len() == 0,
        blank(from).attachments.len() == 0,
{
}

} // verus!
