//! What a message is, as far as anything above this crate is concerned.

use vstd::prelude::*;

use crate::auth::{self, AuthHop, Hop};
use crate::chars::{at, drop_back, drop_back_of, drop_front, drop_front_of, join_of, joined, lower_of,
    is_white, lowered, opt_text, pieces, position_of, push_all, push_text, rfind, rfind_of, strip, strip_of, texts, to_chars,
    to_text, trim_of, trimmed, white, Class};
use crate::mime::{address_header, addresses, addresses_view, attached, attachment_parts,
    content_ids, content_types, contents_of_parts, date_header, date_value, first_html,
    header_values, html_body, html_text, is_message, list_header, names_of_parts, opt_type_view,
    parses, part_bytes, part_ids, part_names, part_types, text_at, text_body, text_header,
    text_value, text_values, texts_view, Address, AddressView, ContentType, ContentTypeView};
use crate::text::{self, ExtractedText};
use crate::threading::{normalize_subject, normalized};
use crate::times::{is_on_calendar, on_calendar};

verus! {

/// One address, with the display name the message gave it (if any).
#[derive(Debug, PartialEq, Eq)]
pub struct Mailbox {
    /// Display name as written, unescaped and unfolded by the parser.
    pub name: Option<String>,
    /// The addr-spec, lowercased.
    pub address: String,
}

/// The IMAP system flags (RFC 3501 §2.3.2) plus maildir's `P` (passed).
#[derive(Debug, Clone, Copy, PartialEq, Eq, Hash, Structural)]
pub struct Flags {
    /// `\Seen` / maildir `S`.
    pub seen: bool,
    /// `\Answered` / maildir `R` (replied).
    pub answered: bool,
    /// `\Flagged` / maildir `F`.
    pub flagged: bool,
    /// `\Draft` / maildir `D`.
    pub draft: bool,
    /// `\Deleted` / maildir `T` (trashed). The mark, not a removal.
    pub deleted: bool,
    /// Maildir `P`. No IMAP equivalent; preserved so a round trip through the
    /// store does not destroy what another maildir client recorded.
    pub passed: bool,
}

/// A flag as an IMAP server reports it.
#[derive(Debug, Clone, Copy, PartialEq, Eq, Structural)]
pub enum ImapFlag {
    Seen,
    Answered,
    Flagged,
    Deleted,
    Draft,
    /// Session state (`\Recent`), `\*`, or a keyword of somebody else's.
    Other,
}

/// No flag set.
pub open spec fn no_flags() -> Flags {
    Flags {
        seen: false,
        answered: false,
        flagged: false,
        draft: false,
        deleted: false,
        passed: false,
    }
}

impl Default for Flags {
    fn default() -> (r: Self)
        ensures
            r == no_flags(),
    {
        Flags {
            seen: false,
            answered: false,
            flagged: false,
            draft: false,
            deleted: false,
            passed: false,
        }
    }
}

impl Default for Mailbox {
    fn default() -> (r: Self)
        ensures
            r.name is None,
            r.address@ == Seq::<char>::empty(),
    {
        Mailbox { name: None, address: String::new() }
    }
}

/// One letter of a maildir info suffix, if the flag is set.
pub open spec fn letter(set: bool, c: char) -> Seq<char> {
    if set {
        seq![c]
    } else {
        Seq::empty()
    }
}

/// One name in an IMAP flag list, if the flag is set.
pub open spec fn name_if(set: bool, name: Seq<char>) -> Seq<Seq<char>> {
    if set {
        seq![name]
    } else {
        Seq::empty()
    }
}

pub open spec fn reported(flags: Seq<ImapFlag>, f: ImapFlag) -> bool {
    exists|i: int| 0 <= i < flags.len() && #[trigger] flags[i] == f
}

impl Flags {
    /// The info suffix of these flags, letters in ASCII order.
    pub open spec fn info(self) -> Seq<char> {
        letter(self.draft, 'D') + letter(self.flagged, 'F') + letter(self.passed, 'P') + letter(
            self.answered,
            'R',
        ) + letter(self.seen, 'S') + letter(self.deleted, 'T')
    }

    /// The flags an info suffix stands for: one per letter that occurs in it.
    pub open spec fn of_info(info: Seq<char>) -> Flags {
        Flags {
            seen: info.contains('S'),
            answered: info.contains('R'),
            flagged: info.contains('F'),
            draft: info.contains('D'),
            deleted: info.contains('T'),
            passed: info.contains('P'),
        }
    }

    pub open spec fn wire(self) -> Seq<Seq<char>> {
        name_if(self.seen, "\\Seen"@) + name_if(self.answered, "\\Answered"@) + name_if(
            self.flagged,
            "\\Flagged"@,
        ) + name_if(self.draft, "\\Draft"@) + name_if(self.deleted, "\\Deleted"@)
    }

    /// Parses a maildir info suffix — the part after `:2,` — ignoring anything
    /// outside the standard vocabulary.
    #[must_use]
    pub fn from_maildir_info(info: &str) -> (r: Self)
        ensures
            r == Flags::of_info(info@),
    {
        let v: Vec<char> = to_chars(info);
        let mut flags = Flags::default();
        let mut i: usize = 0;
        while i < v.len()
            invariant
                i <= v@.len(),
                flags == Flags::of_info(v@.take(i as int)),
            decreases v@.len() - i,
        {
            let c: char = v[i];
            let ghost before = v@.take(i as int);
            match c {
                'S' => flags.seen = true,
                'R' => flags.answered = true,
                'F' => flags.flagged = true,
                'D' => flags.draft = true,
                'T' => flags.deleted = true,
                'P' => flags.passed = true,
                _ => {},
            }
            i = i + 1;
            proof {
                let now = v@.take(i as int);
                assert(now == before.push(c));
                assert(now[i - 1] == c);
                assert forall|x: char| now.contains(x) == (before.contains(x) || x == c) by {
                    if before.contains(x) {
                        let j = choose|j: int| 0 <= j < before.len() && before[j] == x;
                        assert(now[j] == x);
                    }
                    if now.contains(x) && x != c {
                        let j = choose|j: int| 0 <= j < now.len() && now[j] == x;
                        assert(before[j] == x);
                    }
                }
            }
        }
        assert(v@.take(i as int) == v@);
        flags
    }

    /// The maildir info suffix for these flags, in the ASCII order the format
    /// requires (`DFPRST`).
    #[must_use]
    pub fn to_maildir_info(self) -> (r: String)
        ensures
            r@ == self.info(),
    {
        let mut info: String = String::new();
        if self.draft {
            info.push('D');
        }
        assert(info@ =~= letter(self.draft, 'D'));
        if self.flagged {
            info.push('F');
        }
        assert(info@ =~= letter(self.draft, 'D') + letter(self.flagged, 'F'));
        if self.passed {
            info.push('P');
        }
        assert(info@ =~= letter(self.draft, 'D') + letter(self.flagged, 'F') + letter(
            self.passed,
            'P',
        ));
        if self.answered {
            info.push('R');
        }
        assert(info@ =~= letter(self.draft, 'D') + letter(self.flagged, 'F') + letter(
            self.passed,
            'P',
        ) + letter(self.answered, 'R'));
        if self.seen {
            info.push('S');
        }
        assert(info@ =~= letter(self.draft, 'D') + letter(self.flagged, 'F') + letter(
            self.passed,
            'P',
        ) + letter(self.answered, 'R') + letter(self.seen, 'S'));
        if self.deleted {
            info.push('T');
        }
        assert(info@ =~= self.info());
        info
    }

    /// The IMAP system flags to send in a STORE, in wire spelling.
    ///
    /// `P` has no representation and is omitted.
    #[must_use]
    pub fn to_imap(self) -> (r: Vec<&'static str>)
        ensures
            r@.map_values(|s: &'static str| s@) == self.wire(),
    {
        let mut names: Vec<&'static str> = Vec::new();
        let ghost view = |s: &'static str| s@;
        if self.seen {
            names.push("\\Seen");
        }
        assert(names@.map_values(view) =~= name_if(self.seen, "\\Seen"@));
        let ghost g1 = names@;
        if self.answered {
            names.push("\\Answered");
        }
        assert(names@.map_values(view) =~= g1.map_values(view) + name_if(
            self.answered,
            "\\Answered"@,
        ));
        let ghost g2 = names@;
        if self.flagged {
            names.push("\\Flagged");
        }
        assert(names@.map_values(view) =~= g2.map_values(view) + name_if(
            self.flagged,
            "\\Flagged"@,
        ));
        let ghost g3 = names@;
        if self.draft {
            names.push("\\Draft");
        }
        assert(names@.map_values(view) =~= g3.map_values(view) + name_if(self.draft, "\\Draft"@));
        let ghost g4 = names@;
        if self.deleted {
            names.push("\\Deleted");
        }
        assert(names@.map_values(view) =~= g4.map_values(view) + name_if(
            self.deleted,
            "\\Deleted"@,
        ));
        names
    }

    /// Reads the flags out of an IMAP FETCH response. `\Recent` is session
    /// state and is not modelled.
    #[must_use]
    pub fn from_imap(flags: &[ImapFlag]) -> (r: Self)
        ensures
            r == (Flags {
                seen: reported(flags@, ImapFlag::Seen),
                answered: reported(flags@, ImapFlag::Answered),
                flagged: reported(flags@, ImapFlag::Flagged),
                draft: reported(flags@, ImapFlag::Draft),
                deleted: reported(flags@, ImapFlag::Deleted),
                passed: false,
            }),
    {
        let mut out = Flags::default();
        let mut i: usize = 0;
        while i < flags.len()
            invariant
                i <= flags@.len(),
                !out.passed,
                out.seen == reported(flags@.take(i as int), ImapFlag::Seen),
                out.answered == reported(flags@.take(i as int), ImapFlag::Answered),
                out.flagged == reported(flags@.take(i as int), ImapFlag::Flagged),
                out.draft == reported(flags@.take(i as int), ImapFlag::Draft),
                out.deleted == reported(flags@.take(i as int), ImapFlag::Deleted),
            decreases flags@.len() - i,
        {
            let ghost before = flags@.take(i as int);
            let f: ImapFlag = flags[i];
            match f {
                ImapFlag::Seen => out.seen = true,
                ImapFlag::Answered => out.answered = true,
                ImapFlag::Flagged => out.flagged = true,
                ImapFlag::Draft => out.draft = true,
                ImapFlag::Deleted => out.deleted = true,
                ImapFlag::Other => {},
            }
            i = i + 1;
            proof {
                let now = flags@.take(i as int);
                assert(now[i - 1] == f);
                assert forall|x: ImapFlag| #[trigger]
                    reported(now, x) == (reported(before, x) || x == f) by {
                    if reported(before, x) {
                        let j = choose|j: int| 0 <= j < before.len() && before[j] == x;
                        assert(now[j] == x);
                    }
                    if reported(now, x) && x != f {
                        let j = choose|j: int| 0 <= j < now.len() && now[j] == x;
                        assert(before[j] == x);
                    }
                }
            }
        }
        assert(flags@.take(i as int) == flags@);
        out
    }

    /// The server's flags, with the bits only the local file knows.
    pub open spec fn merged(self, local: Flags) -> Flags {
        Flags { passed: local.passed, ..self }
    }

    /// Merges the maildir-only bits of `other` into `self`.
    #[must_use]
    pub fn with_local_only_from(self, other: Self) -> (r: Self)
        ensures
            r == self.merged(other),
    {
        Flags { passed: other.passed, ..self }
    }
}

proof fn lemma_letter(before: Seq<char>, set: bool, c: char)
    ensures
        forall|x: char| #[trigger]
            (before + letter(set, c)).contains(x) == (before.contains(x) || (set && x == c)),
{
    let s = before + letter(set, c);
    assert forall|x: char| #[trigger] s.contains(x) == (before.contains(x) || (set && x == c)) by {
        if before.contains(x) {
            let j = choose|j: int| 0 <= j < before.len() && before[j] == x;
            assert(s[j] == x);
        }
        if set {
            assert(s[before.len() as int] == c);
        }
        if s.contains(x) {
            let j = choose|j: int| 0 <= j < s.len() && s[j] == x;
            if j < before.len() {
                assert(before[j] == x);
            }
        }
    }
}

/// An info suffix reads back as the flags it was written from.
pub proof fn maildir_info_reads_back(flags: Flags)
    ensures
        Flags::of_info(flags.info()) == flags,
{
    let e = Seq::<char>::empty();
    let d = letter(flags.draft, 'D');
    assert(e + d =~= d);
    lemma_letter(e, flags.draft, 'D');
    lemma_letter(d, flags.flagged, 'F');
    let f = d + letter(flags.flagged, 'F');
    lemma_letter(f, flags.passed, 'P');
    let p = f + letter(flags.passed, 'P');
    lemma_letter(p, flags.answered, 'R');
    let r = p + letter(flags.answered, 'R');
    lemma_letter(r, flags.seen, 'S');
    lemma_letter(r + letter(flags.seen, 'S'), flags.deleted, 'T');
}

impl Clone for Mailbox {
    fn clone(&self) -> (r: Self)
        ensures
            r == *self,
    {
        Mailbox { name: copy_option(&self.name), address: self.address.clone() }
    }
}

/// A copy of an optional string.
pub fn copy_option(o: &Option<String>) -> (r: Option<String>)
    ensures
        r == *o,
{
    match o {
        Some(s) => Some(s.clone()),
        None => None,
    }
}

impl Mailbox {
    pub open spec fn shown(self) -> Seq<char> {
        match self.name {
            Some(name) => if trimmed(name@).len() > 0 {
                name@
            } else {
                self.address@
            },
            None => self.address@,
        }
    }

    /// What to show in a message list: the display name, else the address.
    #[must_use]
    pub fn display(&self) -> (r: &str)
        ensures
            r@ == self.shown(),
    {
        match &self.name {
            Some(name) => {
                let v: Vec<char> = to_chars(name);
                if trim_of(&v).len() > 0 {
                    name.as_str()
                } else {
                    self.address.as_str()
                }
            },
            None => self.address.as_str(),
        }
    }

    /// The domain part: what follows the last `@`, or all of it without one.
    #[must_use]
    pub fn domain(&self) -> (r: &str)
        ensures
            r@ == self.address@.skip(rfind(self.address@, Class::Is('@')) + 1),
    {
        let v: Vec<char> = to_chars(&self.address);
        let n: usize = v.len();
        let from: usize = match rfind_of(&v, Class::Is('@')) {
            Some(i) => i + 1,
            None => 0,
        };
        let r = self.address.as_str().substring_char(from, n);
        assert(r@ =~= self.address@.skip(from as int));
        r
    }
}

/// An attachment, described but not extracted.
#[derive(Debug, Clone, PartialEq, Eq)]
pub struct Attachment {
    pub name: String,
    pub mime_type: String,
    pub size: usize,
    /// True for a part referenced by a `cid:` URL from the HTML body.
    pub inline: bool,
}

// ---- a message ----

/// A mailbox, as contracts speak of it.
#[verifier::ext_equal]
pub struct MailboxText {
    pub name: Option<Seq<char>>,
    pub address: Seq<char>,
}

impl Mailbox {
    pub open spec fn view(&self) -> MailboxText {
        MailboxText { name: opt_text(self.name), address: self.address@ }
    }
}

pub open spec fn mailbox_views(v: Seq<Mailbox>) -> Seq<MailboxText> {
    v.map_values(|m: Mailbox| m@)
}

/// An address as it is shown, if it says anything.
pub open spec fn mailbox_in(a: AddressView) -> Option<MailboxText> {
    match a.address {
        Some(address) => if trimmed(address).len() == 0 {
            None
        } else {
            Some(
                MailboxText {
                    name: match a.name {
                        Some(n) => if trimmed(n).len() > 0 {
                            Some(trimmed(n))
                        } else {
                            None
                        },
                        None => None,
                    },
                    address: lowered(trimmed(address)),
                },
            )
        },
        None => None,
    }
}

pub open spec fn mailboxes_in(list: Seq<AddressView>) -> Seq<MailboxText>
    decreases list.len(),
{
    if list.len() == 0 {
        Seq::empty()
    } else {
        let front = mailboxes_in(list.drop_last());
        match mailbox_in(list.last()) {
            Some(m) => front.push(m),
            None => front,
        }
    }
}

/// The mailboxes of a header; none, without it.
pub open spec fn header_mailboxes(list: Option<Seq<AddressView>>) -> Seq<MailboxText> {
    match list {
        Some(l) => mailboxes_in(l),
        None => Seq::empty(),
    }
}

fn mailbox_of(a: &Address) -> (r: Option<Mailbox>)
    ensures
        match r {
            Some(m) => mailbox_in(a@) == Some(m@),
            None => mailbox_in(a@) is None,
        },
{
    match &a.address {
        None => None,
        Some(address) => {
            let v: Vec<char> = to_chars(address);
            let t: &[char] = trim_of(&v);
            if t.len() == 0 {
                return None;
            }
            let name: Option<String> = match &a.name {
                Some(n) => {
                    let nv: Vec<char> = to_chars(n);
                    let nt: &[char] = trim_of(&nv);
                    if nt.len() > 0 {
                        Some(to_text(nt))
                    } else {
                        None
                    }
                },
                None => None,
            };
            Some(Mailbox { name, address: to_text(&lower_of(t)) })
        },
    }
}

/// The addresses of a header, as a list view shows them: lower-cased, and
/// without those that say nothing.
#[must_use]
pub fn mailboxes(list: &Option<Vec<Address>>) -> (r: Vec<Mailbox>)
    ensures
        mailbox_views(r@) == header_mailboxes(addresses_view(*list)),
{
    let mut out: Vec<Mailbox> = Vec::new();
    assert(mailbox_views(out@) =~= Seq::<MailboxText>::empty());
    let list: &Vec<Address> = match list {
        Some(l) => l,
        None => {
            return out;
        },
    };
    let ghost all = list@.map_values(|a: Address| a@);
    let mut i: usize = 0;
    assert(all.take(0) =~= Seq::<AddressView>::empty());
    while i < list.len()
        invariant
            i <= list@.len(),
            all == list@.map_values(|a: Address| a@),
            mailbox_views(out@) == mailboxes_in(all.take(i as int)),
        decreases list@.len() - i,
    {
        proof {
            assert(all.take(i + 1).drop_last() =~= all.take(i as int));
            assert(all.take(i + 1).last() == list@[i as int]@);
        }
        let ghost before = out@;
        if let Some(m) = mailbox_of(&list[i]) {
            let ghost seen = m@;
            out.push(m);
            assert(mailbox_views(out@) =~= mailbox_views(before).push(seen));
        }
        i = i + 1;
    }
    assert(all.take(i as int) =~= all);
    out
}

/// An id without the angle brackets around it.
pub open spec fn bare_id(id: Seq<char>) -> Seq<char> {
    trimmed(drop_back(drop_front(trimmed(id), Class::Is('<')), Class::Is('>')))
}

#[must_use]
pub fn strip_angles(id: &str) -> (r: String)
    ensures
        r@ == bare_id(id@),
{
    let v: Vec<char> = to_chars(id);
    let t: &[char] = drop_back_of(drop_front_of(trim_of(&v), Class::Is('<')), Class::Is('>'));
    to_text(trim_of(t))
}

/// One id of a list, between angle brackets.
pub open spec fn bracketed(id: Seq<char>) -> Seq<char> {
    "<"@ + strip(trimmed(id), Class::Either('<', '>')) + ">"@
}

pub open spec fn bracketed_all(ids: Seq<Seq<char>>) -> Seq<Seq<char>> {
    ids.map_values(|id: Seq<char>| bracketed(id))
}

/// A list of ids as header text.
pub open spec fn id_list(ids: Option<Seq<Seq<char>>>) -> Seq<char> {
    match ids {
        Some(list) => joined(bracketed_all(list), " "@),
        None => Seq::empty(),
    }
}

/// Re-renders a parsed id list as header text: `<a> <b>`.
#[must_use]
pub fn header_id_list(ids: &Option<Vec<String>>) -> (r: String)
    ensures
        r@ == id_list(texts_view(*ids)),
{
    match ids {
        None => {
            let r: String = String::new();
            assert(r@ =~= Seq::<char>::empty());
            r
        },
        Some(list) => {
            let mut parts: Vec<Vec<char>> = Vec::new();
            let mut i: usize = 0;
            while i < list.len()
                invariant
                    i <= list@.len(),
                    parts@.len() == i,
                    forall|k: int| 0 <= k < i ==> (#[trigger] parts@[k])@ == bracketed(list@[k]@),
                decreases list@.len() - i,
            {
                let v: Vec<char> = to_chars(&list[i]);
                let mut p: Vec<char> = to_chars("<");
                push_all(&mut p, strip_of(trim_of(&v), Class::Either('<', '>')));
                push_text(&mut p, ">");
                parts.push(p);
                i = i + 1;
            }
            assert(pieces(parts@) =~= bracketed_all(texts(list@)));
            to_text(&join_of(&parts, " "))
        },
    }
}

#[verifier::ext_equal]
pub struct AttachmentText {
    pub name: Seq<char>,
    pub mime_type: Seq<char>,
    pub size: nat,
    pub inline: bool,
}

impl Attachment {
    pub open spec fn view(&self) -> AttachmentText {
        AttachmentText {
            name: self.name@,
            mime_type: self.mime_type@,
            size: self.size as nat,
            inline: self.inline,
        }
    }
}

pub open spec fn attachment_views(v: Seq<Attachment>) -> Seq<AttachmentText> {
    v.map_values(|a: Attachment| a@)
}

/// A content type as it is written.
pub open spec fn type_text(t: Option<ContentTypeView>) -> Seq<char> {
    match t {
        Some(t) => match t.subtype {
            Some(sub) => t.ctype + "/"@ + sub,
            None => t.ctype,
        },
        None => "application/octet-stream"@,
    }
}

#[must_use]
pub fn mime_type_of(t: &Option<ContentType>) -> (r: String)
    ensures
        r@ == type_text(opt_type_view(*t)),
{
    match t {
        Some(t) => match &t.subtype {
            Some(sub) => {
                let mut out: Vec<char> = to_chars(&t.ctype);
                push_text(&mut out, "/");
                push_text(&mut out, sub);
                to_text(&out)
            },
            None => t.ctype.clone(),
        },
        None => "application/octet-stream".to_owned(),
    }
}

/// What the parser says of the parts of a message.
pub struct PartsText {
    pub attached: Seq<u32>,
    pub names: Seq<Option<Seq<char>>>,
    pub types: Seq<Option<ContentTypeView>>,
    pub contents: Seq<Seq<u8>>,
    pub ids: Seq<Option<Seq<char>>>,
    pub html: Seq<char>,
}

/// A character that ends a `cid:` URL where it stands in HTML.
pub open spec fn ends_url(c: char) -> bool {
    white(c) || c == '"' || c == '\'' || c == '<' || c == '>' || c == '(' || c == ')' || c == '&' || c
        == '?' || c == '#'
}

/// The `cid:` URL of a content id, whatever the case of its letters.
pub open spec fn cid_url(id: Seq<char>) -> Seq<char> {
    lowered("cid:"@ + strip(trimmed(id), Class::Either('<', '>')))
}

/// Does a URL stand here, and end where it ends?
pub open spec fn url_at(html: Seq<char>, url: Seq<char>, i: int) -> bool {
    at(html, i, url) && (i + url.len() == html.len() || ends_url(html[i + url.len()]))
}

/// Does the HTML refer to the part with this content id?
pub open spec fn referenced(html: Seq<char>, id: Seq<char>) -> bool {
    exists|i: int| #[trigger] url_at(lowered(html), cid_url(id), i)
}

/// A part as an attachment: its name, or a stand-in for one. It is shown inline
/// where the HTML body refers to it by its content id.
pub open spec fn attachment_in(p: PartsText, i: int) -> AttachmentText {
    AttachmentText {
        name: trimmed(
            match p.names[i] {
                Some(n) => n,
                None => "attachment"@,
            },
        ),
        mime_type: type_text(p.types[i]),
        size: p.contents[i].len(),
        inline: match p.ids[i] {
            Some(id) => referenced(p.html, id),
            None => false,
        },
    }
}

pub open spec fn has_part(p: PartsText, i: int) -> bool {
    i < p.names.len() && i < p.types.len() && i < p.contents.len() && i < p.ids.len()
}

pub open spec fn attachments_in(p: PartsText, list: Seq<u32>) -> Seq<AttachmentText>
    decreases list.len(),
{
    if list.len() == 0 {
        Seq::empty()
    } else {
        let front = attachments_in(p, list.drop_last());
        if has_part(p, list.last() as int) {
            front.push(attachment_in(p, list.last() as int))
        } else {
            front
        }
    }
}

/// What the parser says of the parts of a message, as plain values.
#[derive(Debug)]
pub struct Parts {
    /// Which parts are attachments.
    pub attached: Vec<u32>,
    pub names: Vec<Option<String>>,
    pub types: Vec<Option<ContentType>>,
    pub contents: Vec<Vec<u8>>,
    pub ids: Vec<Option<String>>,
    /// The HTML body, or nothing.
    pub html: String,
}

impl Parts {
    pub open spec fn view(&self) -> PartsText {
        PartsText {
            attached: self.attached@,
            names: self.names@.map_values(|t: Option<String>| opt_text(t)),
            types: self.types@.map_values(|t: Option<ContentType>| opt_type_view(t)),
            contents: crate::bytes::contents_of(self.contents@),
            ids: self.ids@.map_values(|t: Option<String>| opt_text(t)),
            html: self.html@,
        }
    }
}

fn is_referenced(html: &str, id: &str) -> (r: bool)
    ensures
        r == referenced(html@, id@),
{
    let body: Vec<char> = lower_of(&to_chars(html));
    let name: Vec<char> = to_chars(id);
    let mut plain: Vec<char> = to_chars("cid:");
    push_all(&mut plain, strip_of(trim_of(&name), Class::Either('<', '>')));
    let url: Vec<char> = lower_of(&plain);
    let mut from: usize = 0;
    proof {
        reveal_strlit("cid:");
    }
    loop
        invariant
            from <= body@.len(),
            body@ == lowered(html@),
            url@ == cid_url(id@),
            url@.len() >= 4,
            forall|j: int| 0 <= j < from ==> !(#[trigger] url_at(body@, url@, j)),
        decreases body@.len() - from,
    {
        match position_of(&body, &url, from) {
            Some(i) => {
                let n: usize = body.len();
                assert(i + url@.len() <= n);
                let end: usize = i + url.len();
                if end == n || ends_a_url(body[end]) {
                    assert(url_at(body@, url@, i as int));
                    return true;
                }
                from = i + 1;
            },
            None => {
                assert forall|j: int| !(#[trigger] url_at(body@, url@, j)) by {
                    if from <= j {
                        assert(!at(body@, j, url@));
                    }
                }
                return false;
            },
        }
    }
}

fn ends_a_url(c: char) -> (r: bool)
    ensures
        r == ends_url(c),
{
    is_white(c) || c == '"' || c == '\'' || c == '<' || c == '>' || c == '(' || c == ')' || c == '&' || c
        == '?' || c == '#'
}

pub(crate) fn attachment_of(p: &Parts, i: usize) -> (r: Attachment)
    requires
        has_part(p@, i as int),
    ensures
        r@ == attachment_in(p@, i as int),
{
    proof {
        assert(p@.names[i as int] == opt_text(p.names@[i as int]));
        assert(p@.types[i as int] == opt_type_view(p.types@[i as int]));
        assert(p@.contents[i as int] == p.contents@[i as int]@);
        assert(p@.ids[i as int] == opt_text(p.ids@[i as int]));
    }
    let name: Vec<char> = match &p.names[i] {
        Some(n) => to_chars(n),
        None => to_chars("attachment"),
    };
    Attachment {
        name: to_text(trim_of(&name)),
        mime_type: mime_type_of(&p.types[i]),
        size: p.contents[i].len(),
        inline: match &p.ids[i] {
            Some(id) => is_referenced(&p.html, id),
            None => false,
        },
    }
}

/// The attachments of a message, from what the parser says of its parts.
#[must_use]
pub fn attachments(p: &Parts) -> (r: Vec<Attachment>)
    ensures
        attachment_views(r@) == attachments_in(p@, p@.attached),
{
    let ghost all = p.attached@;
    let mut out: Vec<Attachment> = Vec::new();
    let mut i: usize = 0;
    assert(all.take(0) =~= Seq::<u32>::empty());
    assert(attachment_views(out@) =~= Seq::<AttachmentText>::empty());
    while i < p.attached.len()
        invariant
            i <= p.attached@.len(),
            all == p.attached@,
            attachment_views(out@) == attachments_in(p@, all.take(i as int)),
        decreases p.attached@.len() - i,
    {
        proof {
            assert(all.take(i + 1).drop_last() =~= all.take(i as int));
            assert(all.take(i + 1).last() == all[i as int]);
        }
        let ghost before = out@;
        let k: usize = p.attached[i] as usize;
        if k < p.names.len() && k < p.types.len() && k < p.contents.len() && k < p.ids.len() {
            let a: Attachment = attachment_of(p, k);
            let ghost seen = a@;
            out.push(a);
            assert(attachment_views(out@) =~= attachment_views(before).push(seen));
        }
        i = i + 1;
    }
    assert(all.take(i as int) =~= all);
    out
}

/// What the parser says of the parts of the bytes of a message.
pub open spec fn parts_in(raw: Seq<u8>) -> PartsText {
    PartsText {
        attached: match attached(raw) {
            Some(v) => v,
            None => Seq::empty(),
        },
        names: match part_names(raw) {
            Some(v) => v,
            None => Seq::empty(),
        },
        types: match part_types(raw) {
            Some(v) => v,
            None => Seq::empty(),
        },
        contents: match part_bytes(raw) {
            Some(v) => v,
            None => Seq::empty(),
        },
        ids: match part_ids(raw) {
            Some(v) => v,
            None => Seq::empty(),
        },
        html: match first_html(raw) {
            Some(text) => text,
            None => Seq::empty(),
        },
    }
}

pub(crate) fn parts_of(raw: &[u8]) -> (r: Parts)
    ensures
        r@ == parts_in(raw@),
{
    let attached: Vec<u32> = match attachment_parts(raw) {
        Some(v) => v,
        None => Vec::new(),
    };
    let names: Vec<Option<String>> = match names_of_parts(raw) {
        Some(v) => v,
        None => Vec::new(),
    };
    let types: Vec<Option<ContentType>> = match content_types(raw) {
        Some(v) => v,
        None => Vec::new(),
    };
    let contents: Vec<Vec<u8>> = match contents_of_parts(raw) {
        Some(v) => v,
        None => Vec::new(),
    };
    let ids: Vec<Option<String>> = match content_ids(raw) {
        Some(v) => v,
        None => Vec::new(),
    };
    let html: String = match html_body(raw) {
        Some(text) => text,
        None => String::new(),
    };
    let r: Parts = Parts { attached, names, types, contents, ids, html };
    proof {
        let want = parts_in(raw@);
        assert(r@.attached =~= want.attached);
        assert(r@.names =~= want.names);
        assert(r@.types =~= want.types);
        assert(r@.contents =~= want.contents);
        assert(r@.ids =~= want.ids);
        assert(r@.html =~= want.html);
    }
    r
}

/// A message, extracted for display.
#[derive(Debug, PartialEq, Eq)]
pub struct Message {
    /// `Message-ID` with the angle brackets stripped, if the message had one.
    pub message_id: Option<String>,
    pub from: Vec<Mailbox>,
    pub to: Vec<Mailbox>,
    pub cc: Vec<Mailbox>,
    /// Blind carbon copies: present on the copies a sender files, and on next to
    /// nothing that was received.
    pub bcc: Vec<Mailbox>,
    pub reply_to: Vec<Mailbox>,
    pub subject: String,
    /// The subject with reply, forward and list markers stripped.
    pub subject_norm: String,
    /// When it says it was written, in seconds since the epoch.
    pub date: Option<i64>,
    /// `In-Reply-To`, as the angle-bracketed header text.
    pub in_reply_to: String,
    /// `References`, same treatment.
    pub references: String,
    /// The mailing list it came from.
    pub list_id: Option<String>,
    /// What a human would actually see.
    pub body: ExtractedText,
    /// True when the message's HTML names anything off-host.
    pub has_remote_content: bool,
    pub attachments: Vec<Attachment>,
    /// `Authentication-Results`, newest hop first.
    pub auth: Vec<AuthHop>,
}

/// A message, as contracts speak of it.
#[verifier::ext_equal]
pub struct Shown {
    pub message_id: Option<Seq<char>>,
    pub from: Seq<MailboxText>,
    pub to: Seq<MailboxText>,
    pub cc: Seq<MailboxText>,
    pub bcc: Seq<MailboxText>,
    pub reply_to: Seq<MailboxText>,
    pub subject: Seq<char>,
    pub subject_norm: Seq<char>,
    pub date: Option<i64>,
    pub in_reply_to: Seq<char>,
    pub references: Seq<char>,
    pub list_id: Option<Seq<char>>,
    pub body: Seq<char>,
    pub has_remote_content: bool,
    pub attachments: Seq<AttachmentText>,
    pub auth: Seq<Hop>,
}

/// What the parser says of a message's headers and bodies.
pub struct HeadersText {
    pub message_id: Option<Seq<char>>,
    pub from: Option<Seq<AddressView>>,
    pub to: Option<Seq<AddressView>>,
    pub cc: Option<Seq<AddressView>>,
    pub bcc: Option<Seq<AddressView>>,
    pub reply_to: Option<Seq<AddressView>>,
    pub subject: Option<Seq<char>>,
    pub date: Option<i64>,
    pub in_reply_to: Option<Seq<Seq<char>>>,
    pub references: Option<Seq<Seq<char>>>,
    pub list: Option<Seq<AddressView>>,
    pub html: Option<Seq<char>>,
    pub plain: Option<Seq<char>>,
}

/// What the parser says of a message's headers and bodies, as plain values.
#[derive(Debug)]
pub struct Headers {
    pub message_id: Option<String>,
    pub from: Option<Vec<Address>>,
    pub to: Option<Vec<Address>>,
    pub cc: Option<Vec<Address>>,
    pub bcc: Option<Vec<Address>>,
    pub reply_to: Option<Vec<Address>>,
    pub subject: Option<String>,
    pub date: Option<i64>,
    pub in_reply_to: Option<Vec<String>>,
    pub references: Option<Vec<String>>,
    pub list: Option<Vec<Address>>,
    pub html: Option<String>,
    pub plain: Option<String>,
}

impl Headers {
    pub open spec fn view(&self) -> HeadersText {
        HeadersText {
            message_id: opt_text(self.message_id),
            from: addresses_view(self.from),
            to: addresses_view(self.to),
            cc: addresses_view(self.cc),
            bcc: addresses_view(self.bcc),
            reply_to: addresses_view(self.reply_to),
            subject: opt_text(self.subject),
            date: self.date,
            in_reply_to: texts_view(self.in_reply_to),
            references: texts_view(self.references),
            list: addresses_view(self.list),
            html: opt_text(self.html),
            plain: opt_text(self.plain),
        }
    }
}

/// The id of a mailing list: what stands between the brackets, else the words.
pub open spec fn list_named(list: Option<Seq<AddressView>>) -> Option<Seq<char>> {
    match list {
        Some(l) => if l.len() == 0 {
            None
        } else {
            match l[0].address {
                Some(a) => Some(a),
                None => l[0].name,
            }
        },
        None => None,
    }
}

fn list_name_of(list: &Option<Vec<Address>>) -> (r: Option<String>)
    ensures
        opt_text(r) == list_named(addresses_view(*list)),
{
    match list {
        None => None,
        Some(l) => {
            if l.len() == 0 {
                return None;
            }
            assert(l@.map_values(|a: Address| a@)[0] == l@[0]@);
            match &l[0].address {
                Some(a) => Some(a.clone()),
                None => match &l[0].name {
                    Some(n) => Some(n.clone()),
                    None => None,
                },
            }
        },
    }
}

/// What a human would see of the bodies. HTML wins when present: the plain
/// alternative of a marketing mail is routinely a stub.
pub open spec fn body_text(html: Option<Seq<char>>, plain: Option<Seq<char>>) -> Seq<char> {
    match html {
        Some(h) => html_text(h),
        None => match plain {
            Some(p) => p,
            None => Seq::empty(),
        },
    }
}

/// A message, from what the parser says of it.
pub open spec fn shown_of(h: HeadersText, parts: PartsText, auth: Seq<Hop>) -> Shown {
    let subject = match h.subject {
        Some(s) => s,
        None => Seq::empty(),
    };
    Shown {
        message_id: match h.message_id {
            Some(id) => Some(bare_id(id)),
            None => None,
        },
        from: header_mailboxes(h.from),
        to: header_mailboxes(h.to),
        cc: header_mailboxes(h.cc),
        bcc: header_mailboxes(h.bcc),
        reply_to: header_mailboxes(h.reply_to),
        subject,
        subject_norm: normalized(subject),
        date: match h.date {
            Some(secs) => if on_calendar(secs as int) {
                Some(secs)
            } else {
                None
            },
            None => None,
        },
        in_reply_to: id_list(h.in_reply_to),
        references: id_list(h.references),
        list_id: list_named(h.list),
        body: body_text(h.html, h.plain),
        has_remote_content: h.html is Some && text::remote(h.html->0),
        attachments: attachments_in(parts, parts.attached),
        auth,
    }
}

/// What the parser says of the headers and bodies in the bytes of a message.
pub open spec fn headers_in(raw: Seq<u8>) -> HeadersText {
    HeadersText {
        message_id: text_value(raw, "Message-ID"@),
        from: addresses(raw, "From"@),
        to: addresses(raw, "To"@),
        cc: addresses(raw, "Cc"@),
        bcc: addresses(raw, "Bcc"@),
        reply_to: addresses(raw, "Reply-To"@),
        subject: text_value(raw, "Subject"@),
        date: date_value(raw),
        in_reply_to: text_values(raw, "In-Reply-To"@),
        references: text_values(raw, "References"@),
        list: addresses(raw, "List-ID"@),
        html: first_html(raw),
        plain: text_at(raw, 0),
    }
}

/// A message from its bytes.
pub open spec fn shown_in(raw: Seq<u8>) -> Shown {
    shown_of(
        headers_in(raw),
        parts_in(raw),
        auth::hops_of_headers(header_values(raw, "Authentication-Results"@)),
    )
}

impl Message {
    pub open spec fn view(&self) -> Shown {
        Shown {
            message_id: opt_text(self.message_id),
            from: mailbox_views(self.from@),
            to: mailbox_views(self.to@),
            cc: mailbox_views(self.cc@),
            bcc: mailbox_views(self.bcc@),
            reply_to: mailbox_views(self.reply_to@),
            subject: self.subject@,
            subject_norm: self.subject_norm@,
            date: self.date,
            in_reply_to: self.in_reply_to@,
            references: self.references@,
            list_id: opt_text(self.list_id),
            body: self.body.text@,
            has_remote_content: self.has_remote_content,
            attachments: attachment_views(self.attachments@),
            auth: auth::hops_view(self.auth@),
        }
    }

    /// A message, from what the parser says of it.
    #[must_use]
    pub fn from_parsed(h: Headers, parts: &Parts, auth: Vec<AuthHop>) -> (r: Self)
        ensures
            r@ == shown_of(h@, parts@, auth::hops_view(auth@)),
    {
        let subject: String = match h.subject {
            Some(s) => s,
            None => String::new(),
        };
        proof {
            if h.subject is None {
                assert(subject@ =~= Seq::<char>::empty());
            }
        }
        let body: ExtractedText = match &h.html {
            Some(html) => text::extract(html),
            None => match &h.plain {
                Some(plain) => text::extract_plain(plain),
                None => ExtractedText::default(),
            },
        };
        Message {
            message_id: match &h.message_id {
                Some(id) => Some(strip_angles(id)),
                None => None,
            },
            from: mailboxes(&h.from),
            to: mailboxes(&h.to),
            cc: mailboxes(&h.cc),
            bcc: mailboxes(&h.bcc),
            reply_to: mailboxes(&h.reply_to),
            subject_norm: normalize_subject(&subject),
            subject,
            date: match h.date {
                Some(secs) => if is_on_calendar(secs) {
                    Some(secs)
                } else {
                    None
                },
                None => None,
            },
            in_reply_to: header_id_list(&h.in_reply_to),
            references: header_id_list(&h.references),
            list_id: list_name_of(&h.list),
            has_remote_content: match &h.html {
                Some(html) => text::references_remote_content(html),
                None => false,
            },
            body,
            attachments: attachments(parts),
            auth,
        }
    }

    /// Parses RFC 5322 bytes into the display view.
    ///
    /// Returns `None` only when the bytes are not a message at all: everything
    /// short of that yields a message with that field empty.
    #[must_use]
    pub fn parse(raw: &[u8]) -> (r: Option<Self>)
        ensures
            match r {
                Some(m) => parses(raw@) && m@ == shown_in(raw@),
                None => !parses(raw@),
            },
    {
        if !is_message(raw) {
            return None;
        }
        let h: Headers = Headers {
            message_id: text_header(raw, "Message-ID"),
            from: address_header(raw, "From"),
            to: address_header(raw, "To"),
            cc: address_header(raw, "Cc"),
            bcc: address_header(raw, "Bcc"),
            reply_to: address_header(raw, "Reply-To"),
            subject: text_header(raw, "Subject"),
            date: date_header(raw),
            in_reply_to: list_header(raw, "In-Reply-To"),
            references: list_header(raw, "References"),
            list: address_header(raw, "List-ID"),
            html: html_body(raw),
            plain: text_body(raw, 0),
        };
        Some(Message::from_parsed(h, &parts_of(raw), auth::from_message(raw)))
    }

    /// The address a reply should go to: `Reply-To` when the sender asked for
    /// one, otherwise `From`.
    #[must_use]
    pub fn reply_target(&self) -> (r: &Vec<Mailbox>)
        ensures
            *r == (if self.reply_to@.len() == 0 {
                self.from
            } else {
                self.reply_to
            }),
    {
        if self.reply_to.len() == 0 {
            &self.from
        } else {
            &self.reply_to
        }
    }

    /// The first sender, which is what a list view shows.
    #[must_use]
    pub fn sender(&self) -> (r: Option<&Mailbox>)
        ensures
            match r {
                Some(m) => self.from@.len() > 0 && *m == self.from@[0],
                None => self.from@.len() == 0,
            },
    {
        if self.from.len() > 0 {
            Some(&self.from[0])
        } else {
            None
        }
    }
}

/// Which letter of a maildir info suffix stands for which flag, reading and writing.
pub proof fn what_the_letters_mean(flags: Flags, info: Seq<char>)
    ensures
        flags.info().contains('S') <==> flags.seen,
        flags.info().contains('R') <==> flags.answered,
        flags.info().contains('F') <==> flags.flagged,
        flags.info().contains('D') <==> flags.draft,
        flags.info().contains('T') <==> flags.deleted,
        flags.info().contains('P') <==> flags.passed,
        forall|i: int, j: int|
            0 <= i < j < flags.info().len() ==> #[trigger] flags.info()[i]
                < #[trigger] flags.info()[j],
        Flags::of_info(info).seen <==> info.contains('S'),
        Flags::of_info(info).answered <==> info.contains('R'),
        Flags::of_info(info).flagged <==> info.contains('F'),
        Flags::of_info(info).draft <==> info.contains('D'),
        Flags::of_info(info).deleted <==> info.contains('T'),
        Flags::of_info(info).passed <==> info.contains('P'),
{
    maildir_info_reads_back(flags);
}

/// Which flags are named to an IMAP server: every one that it knows and that is set.
pub proof fn what_the_server_is_told(flags: Flags)
    ensures
        flags.wire().contains("\\Seen"@) <==> flags.seen,
        flags.wire().contains("\\Answered"@) <==> flags.answered,
        flags.wire().contains("\\Flagged"@) <==> flags.flagged,
        flags.wire().contains("\\Draft"@) <==> flags.draft,
        flags.wire().contains("\\Deleted"@) <==> flags.deleted,
{
    reveal_strlit("\\Seen");
    reveal_strlit("\\Answered");
    reveal_strlit("\\Flagged");
    reveal_strlit("\\Draft");
    reveal_strlit("\\Deleted");
    let (s, a, f, d, x) = (
        "\\Seen"@,
        "\\Answered"@,
        "\\Flagged"@,
        "\\Draft"@,
        "\\Deleted"@,
    );
    assert(s[1] != a[1] && s[1] != f[1] && s[1] != d[1] && a[1] != f[1] && a[1] != d[1] && f[1]
        != d[1] && d[2] != x[2] && x[1] == d[1]);
    let e = Seq::<Seq<char>>::empty();
    let w1 = e + name_if(flags.seen, s);
    let w2 = w1 + name_if(flags.answered, a);
    let w3 = w2 + name_if(flags.flagged, f);
    let w4 = w3 + name_if(flags.draft, d);
    let w5 = w4 + name_if(flags.deleted, x);
    lemma_name(e, flags.seen, s);
    lemma_name(w1, flags.answered, a);
    lemma_name(w2, flags.flagged, f);
    lemma_name(w3, flags.draft, d);
    lemma_name(w4, flags.deleted, x);
    assert(flags.wire() =~= w5);
}

proof fn lemma_name(before: Seq<Seq<char>>, set: bool, name: Seq<char>)
    ensures
        forall|x: Seq<char>| #[trigger]
            (before + name_if(set, name)).contains(x) == (before.contains(x) || (set && x
                == name)),
{
    let s = before + name_if(set, name);
    assert forall|x: Seq<char>| #[trigger]
        s.contains(x) == (before.contains(x) || (set && x == name)) by {
        if before.contains(x) {
            let j = choose|j: int| 0 <= j < before.len() && before[j] == x;
            assert(s[j] == x);
        }
        if set && x == name {
            assert(s[before.len() as int] == x);
        }
        if s.contains(x) {
            let j = choose|j: int| 0 <= j < s.len() && s[j] == x;
            if j < before.len() {
                assert(before[j] == x);
            }
        }
    }
}

/// What is taken over from the server are the flags that the server knows; the one that only
/// this device keeps stays as it was.
pub proof fn only_the_forwarded_mark_is_local(server: Flags, local: Flags)
    ensures
        server.merged(local).seen == server.seen,
        server.merged(local).answered == server.answered,
        server.merged(local).flagged == server.flagged,
        server.merged(local).draft == server.draft,
        server.merged(local).deleted == server.deleted,
        server.merged(local).passed == local.passed,
{
}

/// Every address of a header that says anything is kept, in its order, in lower case and
/// without white space around it, with its name where there is one.
pub proof fn every_address_is_kept(a: AddressView, before: Seq<AddressView>, rest: Seq<AddressView>)
    ensures
        mailboxes_in(before + rest) == mailboxes_in(before) + mailboxes_in(rest),
        a.address matches Some(address) ==> trimmed(address).len() > 0 ==> mailboxes_in(
            seq![a],
        ).len() == 1 && mailboxes_in(seq![a])[0].address == lowered(trimmed(address)) && (
        match a.name {
            Some(name) => mailboxes_in(seq![a])[0].name == if trimmed(name).len() > 0 {
                Some(trimmed(name))
            } else {
                None
            },
            None => mailboxes_in(seq![a])[0].name is None,
        }),
        (a.address is None || trimmed(a.address->0).len() == 0) ==> mailboxes_in(seq![a]).len()
            == 0,
    decreases rest.len(),
{
    reveal_with_fuel(mailboxes_in, 2);
    assert(seq![a].drop_last() =~= Seq::<AddressView>::empty());
    assert(seq![a].last() == a);
    if rest.len() == 0 {
        assert(before + rest =~= before);
        assert(mailboxes_in(before) + mailboxes_in(rest) =~= mailboxes_in(before));
    } else {
        every_address_is_kept(a, before, rest.drop_last());
        assert((before + rest).drop_last() =~= before + rest.drop_last());
        assert((before + rest).last() == rest.last());
        assert(mailboxes_in(before + rest) =~= mailboxes_in(before) + mailboxes_in(rest));
    }
}

/// What a message shows of what the parser says of it: each header under its own name, the
/// HTML body where there is one and the plain one otherwise.
pub proof fn what_a_message_shows(raw: Seq<u8>)
    ensures
        ({
            let m = shown_in(raw);
            &&& m.subject == (match text_value(raw, "Subject"@) {
                Some(s) => s,
                None => Seq::empty(),
            })
            &&& m.subject_norm == normalized(m.subject)
            &&& m.from == (match addresses(raw, "From"@) {
                Some(l) => mailboxes_in(l),
                None => Seq::empty(),
            })
            &&& m.to == (match addresses(raw, "To"@) {
                Some(l) => mailboxes_in(l),
                None => Seq::empty(),
            })
            &&& m.cc == (match addresses(raw, "Cc"@) {
                Some(l) => mailboxes_in(l),
                None => Seq::empty(),
            })
            &&& m.bcc == (match addresses(raw, "Bcc"@) {
                Some(l) => mailboxes_in(l),
                None => Seq::empty(),
            })
            &&& m.reply_to == (match addresses(raw, "Reply-To"@) {
                Some(l) => mailboxes_in(l),
                None => Seq::empty(),
            })
            &&& m.message_id is Some <==> text_value(raw, "Message-ID"@) is Some
            &&& date_value(raw) is None ==> m.date is None
            &&& m.date is Some ==> m.date == date_value(raw)
            &&& date_value(raw) is Some && on_calendar(date_value(raw)->0 as int) ==> m.date
                == date_value(raw)
            &&& m.body == (match first_html(raw) {
                Some(html) => html_text(html),
                None => match text_at(raw, 0) {
                    Some(plain) => plain,
                    None => Seq::empty(),
                },
            })
            &&& m.has_remote_content <==> first_html(raw) is Some && text::remote(
                first_html(raw)->0,
            )
            &&& m.auth == auth::hops_of_headers(header_values(raw, "Authentication-Results"@))
        }),
{
}

/// Every part that the parser says is attached is listed, in its order, with its own size and
/// type, and its name where it has one.
pub proof fn every_attachment_is_listed(p: PartsText, i: u32, before: Seq<u32>, rest: Seq<u32>)
    requires
        i < p.names.len(),
        i < p.types.len(),
        i < p.contents.len(),
        i < p.ids.len(),
    ensures
        attachments_in(p, before + rest) == attachments_in(p, before) + attachments_in(p, rest),
        attachments_in(p, seq![i]).len() == 1,
        attachments_in(p, seq![i])[0].size == p.contents[i as int].len(),
        attachments_in(p, seq![i])[0].name == trimmed(
            match p.names[i as int] {
                Some(n) => n,
                None => "attachment"@,
            },
        ),
        attachments_in(p, seq![i])[0].mime_type == (match p.types[i as int] {
            Some(t) => match t.subtype {
                Some(sub) => t.ctype + "/"@ + sub,
                None => t.ctype,
            },
            None => "application/octet-stream"@,
        }),
        p.ids[i as int] is None ==> !attachments_in(p, seq![i])[0].inline,
    decreases rest.len(),
{
    reveal_with_fuel(attachments_in, 2);
    assert(seq![i].drop_last() =~= Seq::<u32>::empty());
    assert(seq![i].last() == i);
    if rest.len() == 0 {
        assert(before + rest =~= before);
        assert(attachments_in(p, before) + attachments_in(p, rest) =~= attachments_in(p, before));
    } else {
        every_attachment_is_listed(p, i, before, rest.drop_last());
        assert((before + rest).drop_last() =~= before + rest.drop_last());
        assert((before + rest).last() == rest.last());
        assert(attachments_in(p, before + rest) =~= attachments_in(p, before) + attachments_in(
            p,
            rest,
        ));
    }
}

/// An id is kept without the angle brackets and white space around it.
pub proof fn how_an_id_is_kept(id: Seq<char>)
    requires
        id.len() > 0,
        forall|i: int|
            0 <= i < id.len() ==> !white(#[trigger] id[i]) && id[i] != '<' && id[i] != '>',
    ensures
        bare_id(seq!['<'] + id + seq!['>']) == id,
        bare_id(id) == id,
{
    let w = Class::White;
    let t = seq!['<'] + id + seq!['>'];
    let n = id.len() as int;
    assert(t[0] == '<' && t.last() == '>');
    crate::chars::lemma_run_is(t, w, true, 0);
    assert(t.skip(0) =~= t);
    crate::chars::lemma_back_run_is(t, w, 0);
    assert(t.take(t.len() as int) =~= t);
    assert(t[1] == id[0]);
    crate::chars::lemma_run_is(t, Class::Is('<'), true, 1);
    let u = t.skip(1);
    assert(u =~= id + seq!['>']);
    assert(u[u.len() - 2] == id[n - 1]);
    crate::chars::lemma_back_run_is(u, Class::Is('>'), 1);
    assert(u.take(u.len() - 1) =~= id);
    crate::chars::lemma_run_is(id, w, true, 0);
    assert(id.skip(0) =~= id);
    crate::chars::lemma_back_run_is(id, w, 0);
    assert(id.take(n) =~= id);
    crate::chars::lemma_run_is(id, Class::Is('<'), true, 0);
    crate::chars::lemma_back_run_is(id, Class::Is('>'), 0);
}

} // verus!
