//! Letters: a draft as the message that goes out.
//!
//! Writing RFC 5322 and MIME is the business of the `lettre` crate. What a
//! letter's headers and parts are is decided here, and handed to it.

use lettre::message::header::ContentType;
use lettre::message::{Mailbox as LettreMailbox, MessageBuilder, MultiPart, SinglePart};
use vstd::prelude::*;

use crate::bytes::copy_slice;
use crate::chars::{join_of, joined, opt_text, pieces, push_text, texts, to_chars, to_text, trim_of,
    trimmed};
use crate::compose::{everyone, file_views, problem_of, Attachment, Draft, DraftText, FileText};
use crate::error::{Error, Result};
use crate::model::{mailbox_views, Mailbox, MailboxText};

verus! {

/// The builder of a letter.
#[verifier::external_type_specification]
#[verifier::external_body]
pub struct ExMessageBuilder(lettre::message::MessageBuilder);

/// The parts of a letter that has files with it.
#[verifier::external_type_specification]
#[verifier::external_body]
pub struct ExMultiPart(lettre::message::MultiPart);

/// A letter as it is handed to a server.
#[derive(Debug)]
pub struct Letter {
    /// The letter as it goes over the wire.
    pub bytes: Vec<u8>,
    /// The address it is sent from, on the envelope.
    pub sender: Option<String>,
    /// The addresses it is sent to, on the envelope: blind copies are among
    /// them.
    pub recipients: Vec<String>,
    /// Does it have a `Bcc` header?
    pub shows_bcc: bool,
}

impl Letter {
    /// The letter as it goes over the wire.
    #[must_use]
    pub fn formatted(&self) -> (r: Vec<u8>)
        ensures
            r@ == self.bytes@,
    {
        copy_slice(&self.bytes)
    }
}

/// The headers of a letter.
#[derive(Debug)]
pub struct Head {
    pub from: Mailbox,
    pub to: Vec<Mailbox>,
    pub cc: Vec<Mailbox>,
    pub bcc: Vec<Mailbox>,
    pub subject: String,
}

/// The headers of a letter, as contracts speak of them.
#[verifier::ext_equal]
pub struct HeadText {
    pub from: MailboxText,
    pub to: Seq<MailboxText>,
    pub cc: Seq<MailboxText>,
    pub bcc: Seq<MailboxText>,
    pub subject: Seq<char>,
}

impl Head {
    pub open spec fn view(&self) -> HeadText {
        HeadText {
            from: self.from@,
            to: mailbox_views(self.to@),
            cc: mailbox_views(self.cc@),
            bcc: mailbox_views(self.bcc@),
            subject: self.subject@,
        }
    }
}

/// Why an address cannot be read, if it cannot.
pub uninterp spec fn address_fault(address: Seq<char>) -> Option<Seq<char>>;

/// A builder of a letter from this mailbox.
pub uninterp spec fn begun(from: MailboxText) -> MessageBuilder;

/// A builder of a letter with this subject.
pub uninterp spec fn titled(builder: MessageBuilder, subject: Seq<char>) -> MessageBuilder;

/// A builder of a letter that is also to this mailbox.
pub uninterp spec fn sent_to(builder: MessageBuilder, to: MailboxText) -> MessageBuilder;

/// A builder of a letter that this mailbox gets a copy of.
pub uninterp spec fn copied_to(builder: MessageBuilder, cc: MailboxText) -> MessageBuilder;

/// A builder of a letter that this mailbox gets a blind copy of.
pub uninterp spec fn blind_copied_to(builder: MessageBuilder, bcc: MailboxText) -> MessageBuilder;

/// A builder of a letter that answers this message.
pub uninterp spec fn answering(builder: MessageBuilder, id: Seq<char>) -> MessageBuilder;

/// A builder of a letter that refers to these messages.
pub uninterp spec fn referring(builder: MessageBuilder, ids: Seq<char>) -> MessageBuilder;

/// A builder told to keep the blind copies.
pub uninterp spec fn keeping(builder: MessageBuilder) -> MessageBuilder;

/// A builder of a letter whose body is plain text.
pub uninterp spec fn plainly(builder: MessageBuilder) -> MessageBuilder;

/// Why nothing can be built of a builder, if nothing can.
pub uninterp spec fn letter_fault(builder: MessageBuilder) -> Option<Seq<char>>;

/// Was this builder given blind copies?
pub uninterp spec fn has_bcc(builder: MessageBuilder) -> bool;

/// Was this builder told to keep them?
pub uninterp spec fn keeps_bcc(builder: MessageBuilder) -> bool;

/// Whom the letter of a builder is sent from and to.
pub uninterp spec fn letter_envelope(builder: MessageBuilder) -> (Option<Seq<char>>, Seq<Seq<char>>);

/// The letter of a builder with one body, dated so.
pub uninterp spec fn plain_letter(builder: MessageBuilder, body: Seq<char>, date: Seq<char>) -> Seq<u8>;

/// The letter of a builder with several parts, dated so.
pub uninterp spec fn mixed_letter(builder: MessageBuilder, parts: MultiPart, date: Seq<char>) -> Seq<u8>;

/// The parts of a letter that has only its plain body so far, to be held apart by
/// a boundary.
pub uninterp spec fn mixed_body(body: Seq<char>, boundary: Seq<char>) -> MultiPart;

/// The parts of a letter with one more file.
pub uninterp spec fn with_file(parts: MultiPart, file: FileText) -> MultiPart;

/// Is this a MIME type that can be written?
pub uninterp spec fn is_type(text: Seq<char>) -> bool;

/// `lettre::Address::from_str`: whether the address can be read, and what is
/// said of one that cannot.
#[verifier::external_body]
pub(crate) fn address_problem(address: &str) -> (r: Option<String>)
    ensures
        opt_text(r) == address_fault(address@),
{
    address.parse::<lettre::Address>().err().map(|why| why.to_string())
}

/// `Message::builder` and `MessageBuilder::from`: a builder of a letter from a
/// mailbox, with no blind copies yet and not told to keep them.
#[verifier::external_body]
pub(crate) fn begin(from: &Mailbox) -> (r: MessageBuilder)
    requires
        address_fault(from.address@) is None,
    ensures
        r == begun(from@),
        !has_bcc(r),
        !keeps_bcc(r),
{
    let from = LettreMailbox::new(from.name.clone(), from.address.parse().unwrap());
    lettre::Message::builder().from(from)
}

/// `MessageBuilder::subject`: a builder of a letter with a subject.
#[verifier::external_body]
pub(crate) fn title(builder: MessageBuilder, subject: &str) -> (r: MessageBuilder)
    ensures
        r == titled(builder, subject@),
        has_bcc(r) == has_bcc(builder),
        keeps_bcc(r) == keeps_bcc(builder),
{
    builder.subject(subject.to_owned())
}

/// `MessageBuilder::to`: a builder of a letter that is also to a mailbox.
#[verifier::external_body]
pub(crate) fn send_to(builder: MessageBuilder, to: &Mailbox) -> (r: MessageBuilder)
    requires
        address_fault(to.address@) is None,
    ensures
        r == sent_to(builder, to@),
        has_bcc(r) == has_bcc(builder),
        keeps_bcc(r) == keeps_bcc(builder),
{
    builder.to(LettreMailbox::new(to.name.clone(), to.address.parse().unwrap()))
}

/// `MessageBuilder::cc`: a builder of a letter that a mailbox gets a copy of.
#[verifier::external_body]
pub(crate) fn copy_to(builder: MessageBuilder, cc: &Mailbox) -> (r: MessageBuilder)
    requires
        address_fault(cc.address@) is None,
    ensures
        r == copied_to(builder, cc@),
        has_bcc(r) == has_bcc(builder),
        keeps_bcc(r) == keeps_bcc(builder),
{
    builder.cc(LettreMailbox::new(cc.name.clone(), cc.address.parse().unwrap()))
}

/// `MessageBuilder::bcc`: a builder of a letter that a mailbox gets a blind copy
/// of.
#[verifier::external_body]
pub(crate) fn blind_copy_to(builder: MessageBuilder, bcc: &Mailbox) -> (r: MessageBuilder)
    requires
        address_fault(bcc.address@) is None,
    ensures
        r == blind_copied_to(builder, bcc@),
        has_bcc(r),
        keeps_bcc(r) == keeps_bcc(builder),
{
    builder.bcc(LettreMailbox::new(bcc.name.clone(), bcc.address.parse().unwrap()))
}

/// `MessageBuilder::in_reply_to`: a builder of a letter that answers a message.
#[verifier::external_body]
pub(crate) fn answer(builder: MessageBuilder, id: &str) -> (r: MessageBuilder)
    ensures
        r == answering(builder, id@),
        has_bcc(r) == has_bcc(builder),
        keeps_bcc(r) == keeps_bcc(builder),
{
    builder.in_reply_to(id.to_owned())
}

/// `MessageBuilder::references`: a builder of a letter that refers to messages.
#[verifier::external_body]
pub(crate) fn refer(builder: MessageBuilder, ids: &str) -> (r: MessageBuilder)
    ensures
        r == referring(builder, ids@),
        has_bcc(r) == has_bcc(builder),
        keeps_bcc(r) == keeps_bcc(builder),
{
    builder.references(ids.to_owned())
}

/// `MessageBuilder::keep_bcc`: a builder that keeps the blind copies it was
/// given.
#[verifier::external_body]
pub(crate) fn keep(builder: MessageBuilder) -> (r: MessageBuilder)
    ensures
        r == keeping(builder),
        has_bcc(r) == has_bcc(builder),
        keeps_bcc(r),
{
    builder.keep_bcc()
}

/// `MessageBuilder::header` with `ContentType::TEXT_PLAIN`: a builder of a letter
/// whose body is plain text.
#[verifier::external_body]
pub(crate) fn speak_plainly(builder: MessageBuilder) -> (r: MessageBuilder)
    ensures
        r == plainly(builder),
        has_bcc(r) == has_bcc(builder),
        keeps_bcc(r) == keeps_bcc(builder),
{
    builder.header(ContentType::TEXT_PLAIN)
}

/// `MessageBuilder::body`, and the bytes, the envelope and the `Bcc` header of
/// what it builds: a letter with one body, dated with the moment it was built.
#[verifier::external_body]
pub(crate) fn finish_plain(builder: MessageBuilder, body: &str) -> (r: std::result::Result<Letter, String>)
    ensures
        match r {
            Ok(l) => letter_fault(builder) is None && (opt_text(l.sender), texts(l.recipients@))
                == letter_envelope(builder) && l.shows_bcc == (has_bcc(builder) && keeps_bcc(builder))
                && exists|date: Seq<char>| l.bytes@ == #[trigger] plain_letter(builder, body@, date),
            Err(why) => letter_fault(builder) == Some(why@),
        },
{
    let m = builder.body(body.to_owned()).map_err(|why| why.to_string())?;
    Ok(Letter {
        bytes: m.formatted(),
        sender: m.envelope().from().map(|a| a.to_string()),
        recipients: m.envelope().to().iter().map(|a| a.to_string()).collect(),
        shows_bcc: m.headers().get_raw("Bcc").is_some(),
    })
}

/// `MessageBuilder::multipart`, and the bytes, the envelope and the `Bcc`
/// header of what it builds: a letter with several parts, dated with the moment
/// it was built.
#[verifier::external_body]
pub(crate) fn finish_mixed(builder: MessageBuilder, parts: MultiPart) -> (r: std::result::Result<Letter, String>)
    ensures
        match r {
            Ok(l) => letter_fault(builder) is None && (opt_text(l.sender), texts(l.recipients@))
                == letter_envelope(builder) && l.shows_bcc == (has_bcc(builder) && keeps_bcc(builder))
                && exists|date: Seq<char>| l.bytes@ == #[trigger] mixed_letter(builder, parts, date),
            Err(why) => letter_fault(builder) == Some(why@),
        },
{
    let m = builder.multipart(parts).map_err(|why| why.to_string())?;
    Ok(Letter {
        bytes: m.formatted(),
        sender: m.envelope().from().map(|a| a.to_string()),
        recipients: m.envelope().to().iter().map(|a| a.to_string()).collect(),
        shows_bcc: m.headers().get_raw("Bcc").is_some(),
    })
}

/// `ContentType::parse`: whether the text is a MIME type. The type of arbitrary
/// bytes is one.
#[verifier::external_body]
pub(crate) fn is_mime_type(text: &str) -> (r: bool)
    ensures
        r == is_type(text@),
        text@ == "application/octet-stream"@ ==> r,
{
    ContentType::parse(text).is_ok()
}

/// `MultiPart::mixed` with `SinglePart::plain`: the parts of a letter that has
/// only its body so far. The boundary is made up anew each time.
#[verifier::external_body]
pub(crate) fn mix(body: &str) -> (r: MultiPart)
    ensures
        exists|boundary: Seq<char>| r == #[trigger] mixed_body(body@, boundary),
{
    MultiPart::mixed().singlepart(SinglePart::plain(body.to_owned()))
}

/// `MultiPart::singlepart` with `lettre`'s `Attachment`: the parts of a letter
/// with one more file.
#[verifier::external_body]
pub(crate) fn attach(parts: MultiPart, file: &Attachment) -> (r: MultiPart)
    requires
        is_type(file.mime_type@),
    ensures
        r == with_file(parts, file@),
{
    let kind = ContentType::parse(&file.mime_type).unwrap();
    let attachment = lettre::message::Attachment::new(file.name.clone());
    parts.singlepart(attachment.body(file.bytes.clone(), kind))
}

pub open spec fn all_readable(list: Seq<MailboxText>) -> bool {
    forall|i: int| 0 <= i < list.len() ==> address_fault((#[trigger] list[i]).address) is None
}

/// A mailbox as a letter names it: a name that says nothing is left out.
pub open spec fn addressee(m: MailboxText) -> MailboxText {
    MailboxText {
        name: match m.name {
            Some(n) => if trimmed(n).len() > 0 {
                Some(n)
            } else {
                None
            },
            None => None,
        },
        address: m.address,
    }
}

pub open spec fn addressees(list: Seq<MailboxText>) -> Seq<MailboxText> {
    list.map_values(|m: MailboxText| addressee(m))
}

pub open spec fn bracketed(id: Seq<char>) -> Seq<char> {
    "<"@ + id + ">"@
}

/// Whom a draft's letter is from and to, and its subject.
pub open spec fn head_of(d: DraftText) -> HeadText {
    HeadText {
        from: addressee(d.from),
        to: addressees(d.to),
        cc: addressees(d.cc),
        bcc: addressees(d.bcc),
        subject: d.subject,
    }
}

/// The ids a draft refers to, each in angle brackets.
pub open spec fn reference_text(d: DraftText) -> Seq<char> {
    joined(d.references.map_values(|id: Seq<char>| bracketed(id)), " "@)
}

pub open spec fn all_sent_to(builder: MessageBuilder, list: Seq<MailboxText>) -> MessageBuilder
    decreases list.len(),
{
    if list.len() == 0 {
        builder
    } else {
        sent_to(all_sent_to(builder, list.drop_last()), list.last())
    }
}

pub open spec fn all_copied_to(builder: MessageBuilder, list: Seq<MailboxText>) -> MessageBuilder
    decreases list.len(),
{
    if list.len() == 0 {
        builder
    } else {
        copied_to(all_copied_to(builder, list.drop_last()), list.last())
    }
}

pub open spec fn all_blind_copied_to(
    builder: MessageBuilder,
    list: Seq<MailboxText>,
) -> MessageBuilder
    decreases list.len(),
{
    if list.len() == 0 {
        builder
    } else {
        blind_copied_to(all_blind_copied_to(builder, list.drop_last()), list.last())
    }
}

/// The builder of a letter with these headers.
pub open spec fn addressed(head: HeadText) -> MessageBuilder {
    all_blind_copied_to(
        all_copied_to(
            all_sent_to(titled(begun(head.from), head.subject), head.to),
            head.cc,
        ),
        head.bcc,
    )
}

/// A plain body and the files that go with it, held apart by a boundary.
pub open spec fn mixed_parts(
    body: Seq<char>,
    files: Seq<FileText>,
    boundary: Seq<char>,
) -> MultiPart
    decreases files.len(),
{
    if files.len() == 0 {
        mixed_body(body, boundary)
    } else {
        with_file(mixed_parts(body, files.drop_last(), boundary), files.last())
    }
}

/// The builder of a draft's letter. It names the message that is answered and
/// the chain that is extended, both: a client given only one cannot tell the
/// parent from the root. Without files, the letter is plain text.
pub open spec fn builder_of(d: DraftText, keep_bcc: bool) -> MessageBuilder {
    let first = addressed(head_of(d));
    let second = match d.in_reply_to {
        Some(id) => answering(first, bracketed(id)),
        None => first,
    };
    let third = if d.references.len() == 0 {
        second
    } else {
        referring(second, reference_text(d))
    };
    let fourth = if keep_bcc {
        keeping(third)
    } else {
        third
    };
    if d.attachments.len() == 0 {
        plainly(fourth)
    } else {
        fourth
    }
}

/// What is said of the first mailbox whose address cannot be read.
pub open spec fn first_unreadable(list: Seq<MailboxText>) -> Option<Seq<char>>
    decreases list.len(),
{
    if list.len() == 0 {
        None
    } else {
        match address_fault(list[0].address) {
            Some(why) => Some(list[0].address + " is not an address: "@ + why),
            None => first_unreadable(list.skip(1)),
        }
    }
}

/// Why a draft cannot be built, if it cannot.
pub open spec fn build_fault(d: DraftText, keep_bcc: bool) -> Option<Seq<char>> {
    match problem_of(d) {
        Some(why) => Some(why),
        None => match first_unreadable(seq![d.from] + everyone(d)) {
            Some(why) => Some(why),
            None => letter_fault(builder_of(d, keep_bcc)),
        },
    }
}

/// A file as it is attached: one of no known type is arbitrary bytes.
pub open spec fn attached(f: FileText) -> FileText {
    FileText {
        mime_type: if is_type(f.mime_type) {
            f.mime_type
        } else {
            "application/octet-stream"@
        },
        ..f
    }
}

pub open spec fn all_attached(files: Seq<FileText>) -> Seq<FileText> {
    files.map_values(|f: FileText| attached(f))
}

/// Is this the letter of a draft, on some date and with some boundary?
pub open spec fn is_letter_of(m: Seq<u8>, d: DraftText, keep_bcc: bool) -> bool {
    let b = builder_of(d, keep_bcc);
    let files = all_attached(d.attachments);
    if d.attachments.len() == 0 {
        exists|date: Seq<char>| m == #[trigger] plain_letter(b, d.body, date)
    } else {
        exists|boundary: Seq<char>, date: Seq<char>|
            m == #[trigger] mixed_letter(
                b,
                mixed_parts(d.body, files, boundary),
                date,
            )
    }
}

fn to_addressee(m: &Mailbox) -> (r: Mailbox)
    ensures
        r@ == addressee(m@),
{
    let name: Option<String> = match &m.name {
        Some(n) => {
            let v: Vec<char> = to_chars(n);
            if trim_of(&v).len() > 0 {
                Some(n.clone())
            } else {
                None
            }
        },
        None => None,
    };
    Mailbox { name, address: m.address.clone() }
}

fn to_addressees(list: &Vec<Mailbox>) -> (r: Vec<Mailbox>)
    ensures
        mailbox_views(r@) == addressees(mailbox_views(list@)),
{
    let mut out: Vec<Mailbox> = Vec::new();
    let mut i: usize = 0;
    while i < list.len()
        invariant
            i <= list@.len(),
            out@.len() == i,
            forall|k: int| 0 <= k < i ==> (#[trigger] out@[k])@ == addressee(list@[k]@),
        decreases list@.len() - i,
    {
        out.push(to_addressee(&list[i]));
        i = i + 1;
    }
    assert(mailbox_views(out@) =~= addressees(mailbox_views(list@)));
    out
}

fn bracket(id: &str) -> (r: Vec<char>)
    ensures
        r@ == bracketed(id@),
{
    let mut out: Vec<char> = to_chars("<");
    push_text(&mut out, id);
    push_text(&mut out, ">");
    out
}

fn bracket_all(ids: &Vec<String>) -> (r: Vec<Vec<char>>)
    ensures
        pieces(r@) == texts(ids@).map_values(|id: Seq<char>| bracketed(id)),
{
    let mut out: Vec<Vec<char>> = Vec::new();
    let mut i: usize = 0;
    while i < ids.len()
        invariant
            i <= ids@.len(),
            out@.len() == i,
            forall|k: int| 0 <= k < i ==> (#[trigger] out@[k])@ == bracketed(ids@[k]@),
        decreases ids@.len() - i,
    {
        out.push(bracket(&ids[i]));
        i = i + 1;
    }
    assert(pieces(out@) =~= texts(ids@).map_values(|id: Seq<char>| bracketed(id)));
    out
}

/// Whom a draft's letter is from and to, and its subject.
#[must_use]
pub fn head(draft: &Draft) -> (r: Head)
    ensures
        r@ == head_of(draft@),
{
    Head {
        from: to_addressee(&draft.from),
        to: to_addressees(&draft.to),
        cc: to_addressees(&draft.cc),
        bcc: to_addressees(&draft.bcc),
        subject: draft.subject.clone(),
    }
}

/// Names everybody that a letter is to.
fn send_to_all(builder: MessageBuilder, list: &Vec<Mailbox>) -> (r: MessageBuilder)
    requires
        all_readable(mailbox_views(list@)),
    ensures
        r == all_sent_to(builder, mailbox_views(list@)),
        has_bcc(r) == has_bcc(builder),
        keeps_bcc(r) == keeps_bcc(builder),
{
    let ghost all = mailbox_views(list@);
    let ghost first = builder;
    let mut out: MessageBuilder = builder;
    let mut i: usize = 0;
    assert(all.take(0) =~= Seq::<MailboxText>::empty());
    while i < list.len()
        invariant
            i <= list@.len(),
            all == mailbox_views(list@),
            all_readable(all),
            out == all_sent_to(first, all.take(i as int)),
            has_bcc(out) == has_bcc(first),
            keeps_bcc(out) == keeps_bcc(first),
        decreases list@.len() - i,
    {
        proof {
            assert(all.take(i + 1).drop_last() =~= all.take(i as int));
            assert(all.take(i + 1).last() == list@[i as int]@);
            assert(address_fault(all[i as int].address) is None);
        }
        out = send_to(out, &list[i]);
        i = i + 1;
    }
    assert(all.take(i as int) =~= all);
    out
}

/// Names everybody that gets a copy.
fn copy_to_all(builder: MessageBuilder, list: &Vec<Mailbox>) -> (r: MessageBuilder)
    requires
        all_readable(mailbox_views(list@)),
    ensures
        r == all_copied_to(builder, mailbox_views(list@)),
        has_bcc(r) == has_bcc(builder),
        keeps_bcc(r) == keeps_bcc(builder),
{
    let ghost all = mailbox_views(list@);
    let ghost first = builder;
    let mut out: MessageBuilder = builder;
    let mut i: usize = 0;
    assert(all.take(0) =~= Seq::<MailboxText>::empty());
    while i < list.len()
        invariant
            i <= list@.len(),
            all == mailbox_views(list@),
            all_readable(all),
            out == all_copied_to(first, all.take(i as int)),
            has_bcc(out) == has_bcc(first),
            keeps_bcc(out) == keeps_bcc(first),
        decreases list@.len() - i,
    {
        proof {
            assert(all.take(i + 1).drop_last() =~= all.take(i as int));
            assert(all.take(i + 1).last() == list@[i as int]@);
            assert(address_fault(all[i as int].address) is None);
        }
        out = copy_to(out, &list[i]);
        i = i + 1;
    }
    assert(all.take(i as int) =~= all);
    out
}

/// Names everybody that gets a blind copy.
fn blind_copy_to_all(builder: MessageBuilder, list: &Vec<Mailbox>) -> (r: MessageBuilder)
    requires
        all_readable(mailbox_views(list@)),
    ensures
        r == all_blind_copied_to(builder, mailbox_views(list@)),
        has_bcc(r) == (has_bcc(builder) || list@.len() > 0),
        keeps_bcc(r) == keeps_bcc(builder),
{
    let ghost all = mailbox_views(list@);
    let ghost first = builder;
    let mut out: MessageBuilder = builder;
    let mut i: usize = 0;
    assert(all.take(0) =~= Seq::<MailboxText>::empty());
    while i < list.len()
        invariant
            i <= list@.len(),
            all == mailbox_views(list@),
            all_readable(all),
            out == all_blind_copied_to(first, all.take(i as int)),
            has_bcc(out) == (has_bcc(first) || i > 0),
            keeps_bcc(out) == keeps_bcc(first),
        decreases list@.len() - i,
    {
        proof {
            assert(all.take(i + 1).drop_last() =~= all.take(i as int));
            assert(all.take(i + 1).last() == list@[i as int]@);
            assert(address_fault(all[i as int].address) is None);
        }
        out = blind_copy_to(out, &list[i]);
        i = i + 1;
    }
    assert(all.take(i as int) =~= all);
    out
}

/// A builder with these headers.
fn address(head: &Head) -> (r: MessageBuilder)
    requires
        address_fault(head@.from.address) is None,
        all_readable(head@.to),
        all_readable(head@.cc),
        all_readable(head@.bcc),
    ensures
        r == addressed(head@),
        has_bcc(r) == (head@.bcc.len() > 0),
        !keeps_bcc(r),
{
    let titled: MessageBuilder = title(begin(&head.from), &head.subject);
    let sent: MessageBuilder = send_to_all(titled, &head.to);
    let copied: MessageBuilder = copy_to_all(sent, &head.cc);
    blind_copy_to_all(copied, &head.bcc)
}

/// The parts of a letter with files.
fn mix_all(body: &str, files: &Vec<Attachment>) -> (r: MultiPart)
    requires
        forall|i: int| 0 <= i < files@.len() ==> is_type((#[trigger] files@[i]).mime_type@),
    ensures
        exists|boundary: Seq<char>|
            r == #[trigger] mixed_parts(body@, file_views(files@), boundary),
{
    let ghost all = file_views(files@);
    let mut parts: MultiPart = mix(body);
    let ghost boundary = choose|boundary: Seq<char>| parts == #[trigger] mixed_body(body@, boundary);
    let mut i: usize = 0;
    assert(all.take(0) =~= Seq::<FileText>::empty());
    while i < files.len()
        invariant
            i <= files@.len(),
            all == file_views(files@),
            forall|k: int| 0 <= k < files@.len() ==> is_type((#[trigger] files@[k]).mime_type@),
            parts == mixed_parts(body@, all.take(i as int), boundary),
        decreases files@.len() - i,
    {
        proof {
            assert(all.take(i + 1).drop_last() =~= all.take(i as int));
            assert(all.take(i + 1).last() == files@[i as int]@);
        }
        parts = attach(parts, &files[i]);
        i = i + 1;
    }
    assert(all.take(i as int) =~= all);
    parts
}

fn start(draft: &Draft, keep_bcc: bool) -> (r: MessageBuilder)
    requires
        all_readable(seq![draft@.from] + everyone(draft@)),
    ensures
        r == builder_of(draft@, keep_bcc),
        (has_bcc(r) && keeps_bcc(r)) == (keep_bcc && draft@.bcc.len() > 0),
{
    proof {
        lemma_readable(draft@);
        assert(texts(draft.references@).len() == draft.references@.len());
    }
    let mut builder: MessageBuilder = address(&head(draft));
    if let Some(id) = &draft.in_reply_to {
        builder = answer(builder, &to_text(&bracket(id)));
    }
    if draft.references.len() > 0 {
        builder = refer(builder, &to_text(&join_of(&bracket_all(&draft.references), " ")));
    }
    if keep_bcc {
        builder = keep(builder);
    }
    assert(file_views(draft.attachments@).len() == draft.attachments@.len());
    if draft.attachments.len() == 0 {
        builder = speak_plainly(builder);
    }
    builder
}

fn unreadable(m: &Mailbox) -> (r: Option<String>)
    ensures
        match r {
            Some(why) => address_fault(m.address@) is Some && why@ == m.address@
                + " is not an address: "@ + address_fault(m.address@)->0,
            None => address_fault(m.address@) is None,
        },
{
    match address_problem(&m.address) {
        Some(why) => {
            let mut out: Vec<char> = to_chars(&m.address);
            push_text(&mut out, " is not an address: ");
            push_text(&mut out, &why);
            Some(to_text(&out))
        },
        None => None,
    }
}

fn first_problem(list: &Vec<Mailbox>) -> (r: Option<String>)
    ensures
        opt_text(r) == first_unreadable(mailbox_views(list@)),
        r is None ==> all_readable(mailbox_views(list@)),
{
    let ghost all = mailbox_views(list@);
    let mut i: usize = 0;
    assert(all.skip(0) =~= all);
    while i < list.len()
        invariant
            i <= list@.len(),
            all == mailbox_views(list@),
            first_unreadable(all.skip(i as int)) == first_unreadable(all),
            forall|k: int| 0 <= k < i ==> address_fault((#[trigger] all[k]).address) is None,
        decreases list@.len() - i,
    {
        proof {
            assert(all.skip(i as int)[0] == list@[i as int]@);
            assert(all.skip(i as int).skip(1) =~= all.skip(i + 1));
            assert(all[i as int] == list@[i as int]@);
        }
        if let Some(why) = unreadable(&list[i]) {
            return Some(why);
        }
        i = i + 1;
    }
    None
}

fn to_attached(files: &Vec<Attachment>) -> (r: Vec<Attachment>)
    ensures
        file_views(r@) == all_attached(file_views(files@)),
        forall|i: int| 0 <= i < r@.len() ==> is_type((#[trigger] r@[i]).mime_type@),
{
    let mut out: Vec<Attachment> = Vec::new();
    let mut i: usize = 0;
    while i < files.len()
        invariant
            i <= files@.len(),
            out@.len() == i,
            forall|k: int| 0 <= k < i ==> (#[trigger] out@[k])@ == attached(files@[k]@),
            forall|k: int| 0 <= k < i ==> is_type((#[trigger] out@[k]).mime_type@),
        decreases files@.len() - i,
    {
        let mime_type: String = if is_mime_type(&files[i].mime_type) {
            files[i].mime_type.clone()
        } else {
            "application/octet-stream".to_owned()
        };
        let known: bool = is_mime_type(&mime_type);
        assert(known);
        out.push(
            Attachment {
                name: files[i].name.clone(),
                mime_type,
                bytes: copy_slice(&files[i].bytes),
            },
        );
        i = i + 1;
    }
    assert(file_views(out@) =~= all_attached(file_views(files@)));
    out
}

proof fn lemma_readable(d: DraftText)
    requires
        all_readable(seq![d.from] + everyone(d)),
    ensures
        address_fault(head_of(d).from.address) is None,
        all_readable(head_of(d).to),
        all_readable(head_of(d).cc),
        all_readable(head_of(d).bcc),
{
    let all = seq![d.from] + everyone(d);
    assert(all[0] == d.from);
    assert forall|i: int| 0 <= i < d.to.len() implies address_fault(
        (#[trigger] head_of(d).to[i]).address,
    ) is None by {
        assert(all[i + 1] == d.to[i]);
    }
    assert forall|i: int| 0 <= i < d.cc.len() implies address_fault(
        (#[trigger] head_of(d).cc[i]).address,
    ) is None by {
        assert(all[i + 1 + d.to.len()] == d.cc[i]);
    }
    assert forall|i: int| 0 <= i < d.bcc.len() implies address_fault(
        (#[trigger] head_of(d).bcc[i]).address,
    ) is None by {
        assert(all[i + 1 + d.to.len() + d.cc.len()] == d.bcc[i]);
    }
}

impl Draft {
    /// Builds the RFC 5322 message.
    ///
    /// `keep_bcc` decides whether the `Bcc` header survives into the bytes:
    /// `false` for the copy that goes to the server, `true` for the copy filed
    /// to Sent.
    pub fn build(&self, keep_bcc: bool) -> (r: Result<Letter>)
        ensures
            match r {
                Ok(m) => build_fault(self@, keep_bcc) is None && is_letter_of(
                    m.bytes@,
                    self@,
                    keep_bcc,
                ) && (opt_text(m.sender), texts(m.recipients@)) == letter_envelope(
                    builder_of(self@, keep_bcc),
                ) && m.shows_bcc == (keep_bcc && self@.bcc.len() > 0),
                Err(Error::Draft(why)) => build_fault(self@, keep_bcc) == Some(why@),
                Err(_) => false,
            },
    {
        if let Some(why) = self.problem() {
            return Err(Error::Draft(why.to_owned()));
        }
        let mut all: Vec<Mailbox> = Vec::new();
        all.push(self.from.clone());
        let mut rest: Vec<Mailbox> = self.recipients();
        all.append(&mut rest);
        assert(mailbox_views(all@) =~= seq![self@.from] + everyone(self@));
        if let Some(why) = first_problem(&all) {
            return Err(Error::Draft(why));
        }
        assert(file_views(self.attachments@).len() == self.attachments@.len());
        let builder: MessageBuilder = start(self, keep_bcc);
        let built: std::result::Result<Letter, String> = if self.attachments.len() == 0 {
            let done: std::result::Result<Letter, String> = finish_plain(builder, &self.body);
            proof {
                if done is Ok {
                    let m = done->Ok_0;
                    let date = choose|date: Seq<char>|
                        m.bytes@ == #[trigger] plain_letter(builder, self@.body, date);
                    assert(m.bytes@ == plain_letter(
                        builder_of(self@, keep_bcc),
                        self@.body,
                        date,
                    ));
                }
            }
            done
        } else {
            let files: Vec<Attachment> = to_attached(&self.attachments);
            let parts: MultiPart = mix_all(&self.body, &files);
            let done: std::result::Result<Letter, String> = finish_mixed(builder, parts);
            proof {
                let boundary = choose|boundary: Seq<char>|
                    parts == #[trigger] mixed_parts(self@.body, file_views(files@), boundary);
                if done is Ok {
                    let m = done->Ok_0;
                    let date = choose|date: Seq<char>|
                        m.bytes@ == #[trigger] mixed_letter(builder, parts, date);
                    assert(m.bytes@ == mixed_letter(
                        builder,
                        mixed_parts(self@.body, all_attached(self@.attachments), boundary),
                        date,
                    ));
                }
            }
            done
        };
        match built {
            Ok(m) => Ok(m),
            Err(why) => Err(Error::Draft(why)),
        }
    }
}

/// What a letter is built of: its sender and subject, everyone it goes to, whom it answers and
/// the chain it extends, each where the draft names one.
pub proof fn what_a_letter_is_built_of(d: DraftText)
    ensures
        ({
            let head = all_blind_copied_to(
                all_copied_to(
                    all_sent_to(
                        titled(begun(addressee(d.from)), d.subject),
                        d.to.map_values(|m: MailboxText| addressee(m)),
                    ),
                    d.cc.map_values(|m: MailboxText| addressee(m)),
                ),
                d.bcc.map_values(|m: MailboxText| addressee(m)),
            );
            &&& d.in_reply_to is None && d.references.len() == 0 && d.attachments.len() == 0
                ==> builder_of(d, false) == plainly(head) && builder_of(d, true) == plainly(
                keeping(head),
            )
            &&& d.in_reply_to is None && d.references.len() == 0 && d.attachments.len() > 0
                ==> builder_of(d, false) == head && builder_of(d, true) == keeping(head)
            &&& d.in_reply_to matches Some(id) ==> d.references.len() == 0 && d.attachments.len()
                > 0 ==> builder_of(d, false) == answering(head, "<"@ + id + ">"@) && builder_of(
                d,
                true,
            ) == keeping(answering(head, "<"@ + id + ">"@))
            &&& d.in_reply_to matches Some(id) ==> d.references.len() > 0 && d.attachments.len()
                > 0 ==> builder_of(d, false) == referring(
                answering(head, "<"@ + id + ">"@),
                joined(d.references.map_values(|r: Seq<char>| "<"@ + r + ">"@), " "@),
            ) && builder_of(d, true) == keeping(builder_of(d, false))
            &&& d.in_reply_to matches Some(id) ==> d.references.len() > 0 && d.attachments.len()
                == 0 ==> builder_of(d, false) == plainly(
                referring(
                    answering(head, "<"@ + id + ">"@),
                    joined(d.references.map_values(|r: Seq<char>| "<"@ + r + ">"@), " "@),
                ),
            )
        }),
{
    assert(d.references.map_values(|id: Seq<char>| bracketed(id)) =~= d.references.map_values(
        |r: Seq<char>| "<"@ + r + ">"@,
    ));
    assert(addressees(d.to) =~= d.to.map_values(|m: MailboxText| addressee(m)));
    assert(addressees(d.cc) =~= d.cc.map_values(|m: MailboxText| addressee(m)));
    assert(addressees(d.bcc) =~= d.bcc.map_values(|m: MailboxText| addressee(m)));
}

/// Everyone a letter goes to is named in it, one after the other, and every file goes with it.
pub proof fn everyone_is_written_to(
    builder: MessageBuilder,
    list: Seq<MailboxText>,
    m: MailboxText,
    body: Seq<char>,
    files: Seq<FileText>,
    f: FileText,
    boundary: Seq<char>,
)
    ensures
        all_sent_to(builder, list.push(m)) == sent_to(all_sent_to(builder, list), m),
        all_copied_to(builder, list.push(m)) == copied_to(all_copied_to(builder, list), m),
        all_blind_copied_to(builder, list.push(m)) == blind_copied_to(
            all_blind_copied_to(builder, list),
            m,
        ),
        mixed_parts(body, files.push(f), boundary) == with_file(
            mixed_parts(body, files, boundary),
            f,
        ),
        mixed_parts(body, Seq::empty(), boundary) == mixed_body(body, boundary),
        all_sent_to(builder, Seq::empty()) == builder,
        all_copied_to(builder, Seq::empty()) == builder,
        all_blind_copied_to(builder, Seq::empty()) == builder,
{
    assert(list.push(m).drop_last() =~= list);
    assert(files.push(f).drop_last() =~= files);
}

/// A letter is written to an address as it is, under its name unless that says nothing, and a
/// file goes as it is, as arbitrary bytes where its type is not known.
pub proof fn what_stays_as_it_is(m: MailboxText, f: FileText)
    ensures
        addressee(m).address == m.address,
        addressee(m).name == (if m.name is Some && trimmed(m.name->0).len() > 0 {
            m.name
        } else {
            None
        }),
        attached(f).name == f.name,
        attached(f).bytes == f.bytes,
        attached(f).mime_type == (if is_type(f.mime_type) {
            f.mime_type
        } else {
            "application/octet-stream"@
        }),
{
}

proof fn lemma_first_unreadable(list: Seq<MailboxText>)
    ensures
        first_unreadable(list) is None <==> forall|i: int|
            0 <= i < list.len() ==> address_fault((#[trigger] list[i]).address) is None,
    decreases list.len(),
{
    if list.len() > 0 {
        let t = list.skip(1);
        lemma_first_unreadable(t);
        if first_unreadable(list) is None {
            assert forall|i: int| 0 <= i < list.len() implies address_fault(
                (#[trigger] list[i]).address,
            ) is None by {
                if i > 0 {
                    assert(t[i - 1] == list[i]);
                }
            }
        }
        if forall|i: int| 0 <= i < list.len() ==> address_fault((#[trigger] list[i]).address) is None {
            assert(address_fault(list[0].address) is None);
            assert forall|i: int| 0 <= i < t.len() implies address_fault(
                (#[trigger] t[i]).address,
            ) is None by {
                assert(t[i] == list[i + 1]);
            }
        }
    }
}

/// A letter is built only where there is a sender and somebody to send to, and every address,
/// the blind copies among them, can be read.
pub proof fn who_has_to_be_readable(d: DraftText, keep_bcc: bool)
    requires
        build_fault(d, keep_bcc) is None,
    ensures
        d.from.address.len() > 0,
        d.to.len() + d.cc.len() + d.bcc.len() > 0,
        address_fault(d.from.address) is None,
        forall|i: int| 0 <= i < d.to.len() ==> address_fault((#[trigger] d.to[i]).address) is None,
        forall|i: int| 0 <= i < d.cc.len() ==> address_fault((#[trigger] d.cc[i]).address) is None,
        forall|i: int|
            0 <= i < d.bcc.len() ==> address_fault((#[trigger] d.bcc[i]).address) is None,
        letter_fault(builder_of(d, keep_bcc)) is None,
{
    let list = seq![d.from] + everyone(d);
    lemma_first_unreadable(list);
    assert(list[0] == d.from);
    assert forall|i: int| 0 <= i < d.to.len() implies address_fault(
        (#[trigger] d.to[i]).address,
    ) is None by {
        assert(list[i + 1] == d.to[i]);
    }
    assert forall|i: int| 0 <= i < d.cc.len() implies address_fault(
        (#[trigger] d.cc[i]).address,
    ) is None by {
        assert(list[1 + d.to.len() + i] == d.cc[i]);
    }
    assert forall|i: int| 0 <= i < d.bcc.len() implies address_fault(
        (#[trigger] d.bcc[i]).address,
    ) is None by {
        assert(list[1 + d.to.len() + d.cc.len() + i] == d.bcc[i]);
    }
}

} // verus!
