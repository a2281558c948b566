//! Delivery status notifications: what a bounce actually says.
//!
//! Two report formats are read, both `multipart/report` (RFC 6522): the
//! delivery-status notification of RFC 3464 and the feedback report of RFC
//! 5965. A read receipt is deliberately not one. [`parse_loose`] covers the
//! servers that send prose.
//!
//! Codes such as `5.7.233` and `5.7.515` are permanent and yet say nothing of
//! the recipient: they are the sender's own cap or the sender's own alignment,
//! and classify as [`BounceKind::Sender`].

use vstd::prelude::*;
use vstd::utf8::{decode_utf8, valid_utf8};

use crate::chars::{after_prefix, contains, contains_text, copy_of, drop_back, drop_back_of,
    drop_front, drop_front_of, find, find_of, from_index, joined, lemma_run, lines_of, lower_of,
    lowered, pieces, push_all, push_text, rfind, rfind_of, same_folded, spells, split_of, split_on,
    strip_prefix_of, text_lines, to_chars, to_text, trim_of, trimmed, up_to, Class};
use crate::compose::{address_like, looks_like_an_address};
use crate::mime::{content_types, contents_of_parts, part_bytes, part_types, text_at, text_body,
    text_body_count, text_count, to_lowercase, unicode_lower, utf8_text, ContentType,
    ContentTypeView};

verus! {

/// How the failure should be read — which is not the same question as which
/// numeric class the server used.
#[derive(Debug, Clone, Copy, PartialEq, Eq, Structural)]
pub enum BounceKind {
    /// The address is gone.
    Hard,
    /// Temporary (full mailbox, throttling, greylisting).
    Soft,
    /// A human pressed "spam".
    Complaint,
    /// Delivery is delayed but still being attempted. Informational.
    Delayed,
    /// The sender's problem, not the recipient's: the address is fine.
    Sender,
}

/// One recipient's outcome inside one report.
#[derive(Debug, Clone, PartialEq, Eq)]
pub struct BounceRecord {
    pub recipient: String,
    pub kind: BounceKind,
    /// The RFC 3463 enhanced status (`5.1.1`), when the report carried one.
    pub status_code: String,
    /// The server's own words, kept verbatim.
    pub diagnostic: String,
    /// The bounced message's `Message-ID`, brackets stripped.
    pub original_message_id: String,
}

/// A record, as contracts speak of it.
#[verifier::ext_equal]
pub struct Bounce {
    pub recipient: Seq<char>,
    pub kind: BounceKind,
    pub status_code: Seq<char>,
    pub diagnostic: Seq<char>,
    pub original_message_id: Seq<char>,
}

impl BounceRecord {
    pub open spec fn view(&self) -> Bounce {
        Bounce {
            recipient: self.recipient@,
            kind: self.kind,
            status_code: self.status_code@,
            diagnostic: self.diagnostic@,
            original_message_id: self.original_message_id@,
        }
    }
}

pub open spec fn bounces(v: Seq<BounceRecord>) -> Seq<Bounce> {
    v.map_values(|b: BounceRecord| b@)
}

/// The codes whose meaning overrides their numeric class, where the class alone
/// would produce a harmful reading.
pub open spec fn override_of(code: Seq<char>) -> Option<BounceKind> {
    if code == "5.7.233"@ || code == "5.7.515"@ || code == "5.7.1"@ || code == "5.7.0"@ || code
        == "5.7.26"@ || code == "5.7.509"@ || code == "5.7.708"@ || code == "4.7.28"@ {
        Some(BounceKind::Sender)
    } else if code == "5.2.2"@ {
        Some(BounceKind::Soft)
    } else {
        None
    }
}

/// Prose that blames the sender.
pub open spec fn blames_sender(l: Seq<char>) -> bool {
    ||| contains(l, "does not meet the required authentication"@)
    ||| contains(l, "dmarc"@)
    ||| contains(l, "spf check failed"@)
    ||| contains(l, "dkim"@)
    ||| contains(l, "exceeded the maximum number of recipients"@)
    ||| contains(l, "sending limit"@)
    ||| contains(l, "rate limit"@)
    ||| contains(l, "blocked using"@)
    ||| contains(l, "listed on"@)
    ||| contains(l, "reputation"@)
    ||| contains(l, "not authorized to send"@)
}

/// Prose of a failure that will pass.
pub open spec fn sounds_soft(l: Seq<char>) -> bool {
    ||| contains(l, "mailbox full"@)
    ||| contains(l, "over quota"@)
    ||| contains(l, "quota exceeded"@)
    ||| contains(l, "insufficient storage"@)
    ||| contains(l, "try again later"@)
    ||| contains(l, "temporarily"@)
    ||| contains(l, "greylist"@)
    ||| contains(l, "deferred"@)
    ||| contains(l, "timed out"@)
}

/// Prose of an address that is gone.
pub open spec fn sounds_hard(l: Seq<char>) -> bool {
    ||| contains(l, "user unknown"@)
    ||| contains(l, "no such user"@)
    ||| contains(l, "unknown user"@)
    ||| contains(l, "does not exist"@)
    ||| contains(l, "recipient not found"@)
    ||| contains(l, "no mailbox"@)
    ||| contains(l, "mailbox unavailable"@)
    ||| contains(l, "address rejected"@)
    ||| contains(l, "invalid recipient"@)
    ||| contains(l, "recipient address rejected"@)
    ||| contains(l, "unrouteable address"@)
    ||| contains(l, "no such recipient"@)
}

/// What prose says of a failure. A text naming both a sender-side policy and a
/// dead mailbox is about the policy.
pub open spec fn kind_of_text(text: Seq<char>) -> BounceKind {
    let l = lowered(text);
    if blames_sender(l) {
        BounceKind::Sender
    } else if sounds_soft(l) {
        BounceKind::Soft
    } else if sounds_hard(l) || contains(l, " 5."@) || contains(l, "550"@) || contains(l, "553"@) {
        BounceKind::Hard
    } else {
        BounceKind::Soft
    }
}

/// What a report says of a failure: by its code, then its action, then its
/// prose.
pub open spec fn kind_of(status: Seq<char>, action: Seq<char>, diagnostic: Seq<char>) -> BounceKind {
    let code = trimmed(status);
    let class = code.take(find(code, Class::Is('.')));
    match override_of(code) {
        Some(kind) => kind,
        None => if lowered(action) == lowered("delayed"@) {
            BounceKind::Delayed
        } else if class == "5"@ {
            BounceKind::Hard
        } else if class == "4"@ {
            BounceKind::Soft
        } else {
            kind_of_text(diagnostic)
        },
    }
}

/// Text without white space and angle brackets round it.
pub open spec fn bare(s: Seq<char>) -> Seq<char> {
    trimmed(drop_back(drop_front(trimmed(s), Class::Is('<')), Class::Is('>')))
}

/// `rfc822; <User@host>` down to the address.
pub open spec fn address_in(field: Seq<char>) -> Seq<char> {
    unicode_lower(bare(field.skip(rfind(field, Class::Is(';')) + 1)))
}

/// One `name: value` field.
pub struct Field {
    pub name: Vec<char>,
    pub value: Vec<char>,
}

/// The fields of a report, group by group; the last group is still open.
#[verifier::ext_equal]
pub struct Groups {
    pub closed: Seq<Seq<(Seq<char>, Seq<char>)>>,
    pub open: Seq<(Seq<char>, Seq<char>)>,
}

impl Groups {
    pub open spec fn start() -> Groups {
        Groups { closed: Seq::empty(), open: Seq::empty() }
    }

    /// One more line: a blank one closes the group, one that starts with white
    /// space continues the field before it, any other with a colon is a field.
    pub open spec fn step(self, line: Seq<char>) -> Groups {
        let i = find(line, Class::Is(':'));
        if trimmed(line).len() == 0 {
            if self.open.len() > 0 {
                Groups { closed: self.closed.push(self.open), open: Seq::empty() }
            } else {
                self
            }
        } else if line[0] == ' ' || line[0] == '\t' {
            if self.open.len() > 0 {
                let last = self.open.last();
                Groups {
                    open: self.open.drop_last().push(
                        (last.0, last.1.push(' ') + trimmed(line)),
                    ),
                    ..self
                }
            } else {
                self
            }
        } else if i < line.len() {
            Groups {
                open: self.open.push((lowered(trimmed(line.take(i))), trimmed(line.skip(i + 1)))),
                ..self
            }
        } else {
            self
        }
    }

    pub open spec fn all(self) -> Seq<Seq<(Seq<char>, Seq<char>)>> {
        self.closed.push(self.open)
    }
}

pub open spec fn grouped(ls: Seq<Seq<char>>) -> Groups
    decreases ls.len(),
{
    if ls.len() == 0 {
        Groups::start()
    } else {
        grouped(ls.drop_last()).step(ls.last())
    }
}

/// The value of the first field of this name, or nothing.
pub open spec fn value_in(group: Seq<(Seq<char>, Seq<char>)>, key: Seq<char>) -> Seq<char>
    decreases group.len(),
{
    if group.len() == 0 {
        Seq::empty()
    } else if group[0].0 == key {
        group[0].1
    } else {
        value_in(group.skip(1), key)
    }
}

/// The first envelope id that any group carries.
pub open spec fn envelope_id(groups: Seq<Seq<(Seq<char>, Seq<char>)>>) -> Seq<char>
    decreases groups.len(),
{
    if groups.len() == 0 {
        Seq::empty()
    } else {
        let v = value_in(groups[0], "original-envelope-id"@);
        if v.len() > 0 {
            v
        } else {
            envelope_id(groups.skip(1))
        }
    }
}

/// `Action: delivered`, `relayed` and `expanded` are successes.
pub open spec fn succeeded(action: Seq<char>) -> bool {
    let a = lowered(action);
    a == "delivered"@ || a == "relayed"@ || a == "expanded"@
}

/// What one group reports, if it names a recipient and is not a success.
pub open spec fn record_in(group: Seq<(Seq<char>, Seq<char>)>, id: Seq<char>) -> Option<Bounce> {
    let direct = value_in(group, "final-recipient"@);
    let recipient = if direct.len() == 0 {
        value_in(group, "original-recipient"@)
    } else {
        direct
    };
    let status = value_in(group, "status"@);
    let action = value_in(group, "action"@);
    let diagnostic = value_in(group, "diagnostic-code"@);
    if recipient.len() == 0 || succeeded(action) {
        None
    } else {
        Some(
            Bounce {
                recipient: address_in(recipient),
                kind: kind_of(status, action, diagnostic),
                status_code: status,
                diagnostic: if diagnostic.len() == 0 {
                    value_in(group, "remote-mta"@)
                } else {
                    diagnostic
                },
                original_message_id: bare(id),
            },
        )
    }
}

pub open spec fn records_in(groups: Seq<Seq<(Seq<char>, Seq<char>)>>, id: Seq<char>) -> Seq<Bounce>
    decreases groups.len(),
{
    if groups.len() == 0 {
        Seq::empty()
    } else {
        match record_in(groups.last(), id) {
            Some(b) => records_in(groups.drop_last(), id).push(b),
            None => records_in(groups.drop_last(), id),
        }
    }
}

/// What a `message/delivery-status` body reports.
pub open spec fn status_records(body: Seq<char>) -> Seq<Bounce> {
    let groups = grouped(text_lines(body)).all();
    records_in(groups, envelope_id(groups))
}

/// A report of nothing but successes makes no record: nobody is told that mail
/// bounced that was delivered.
pub proof fn successes_make_no_record(groups: Seq<Seq<(Seq<char>, Seq<char>)>>, id: Seq<char>)
    requires
        forall|i: int| 0 <= i < groups.len() ==> succeeded(value_in(#[trigger] groups[i], "action"@)),
    ensures
        records_in(groups, id).len() == 0,
    decreases groups.len(),
{
    if groups.len() > 0 {
        let front = groups.drop_last();
        assert forall|i: int| 0 <= i < front.len() implies succeeded(
            value_in(#[trigger] front[i], "action"@),
        ) by {
            assert(front[i] == groups[i]);
        }
        successes_make_no_record(front, id);
        assert(succeeded(value_in(groups[groups.len() - 1], "action"@)));
    }
}

/// Every recipient that a group reports a failure for is in the records, as that
/// group reports it.
pub proof fn each_failing_recipient_gets_a_record(
    groups: Seq<Seq<(Seq<char>, Seq<char>)>>,
    id: Seq<char>,
    i: int,
)
    requires
        0 <= i < groups.len(),
        record_in(groups[i], id) is Some,
    ensures
        records_in(groups, id).contains(record_in(groups[i], id)->0),
    decreases groups.len(),
{
    let front = groups.drop_last();
    let all = records_in(groups, id);
    let before = records_in(front, id);
    if i == groups.len() - 1 {
        assert(all[all.len() - 1] == record_in(groups[i], id)->0);
    } else {
        each_failing_recipient_gets_a_record(front, id, i);
        let k = choose|k: int| 0 <= k < before.len() && before[k] == record_in(groups[i], id)->0;
        assert(all[k] == before[k]);
    }
}

/// A code whose class would mislead is read by its meaning, whatever else the
/// report says: a fault on the sender's side never condemns the address.
pub proof fn the_senders_fault_condemns_no_address(
    status: Seq<char>,
    action: Seq<char>,
    diagnostic: Seq<char>,
)
    requires
        override_of(trimmed(status)) is Some,
    ensures
        kind_of(status, action, diagnostic) == override_of(trimmed(status))->0,
        kind_of(status, action, diagnostic) != BounceKind::Hard,
{
}

/// What a feedback report says so far: the recipient and the kind of feedback.
pub open spec fn feedback(ls: Seq<Seq<char>>) -> (Seq<char>, Seq<char>)
    decreases ls.len(),
{
    if ls.len() == 0 {
        (Seq::empty(), Seq::empty())
    } else {
        let so_far = feedback(ls.drop_last());
        let line = ls.last();
        let i = find(line, Class::Is(':'));
        if i >= line.len() {
            so_far
        } else {
            let name = lowered(trimmed(line.take(i)));
            if name == "original-rcpt-to"@ {
                (address_in(line.skip(i + 1)), so_far.1)
            } else if name == "feedback-type"@ {
                (so_far.0, trimmed(line.skip(i + 1)))
            } else {
                so_far
            }
        }
    }
}

/// The complaint a `message/feedback-report` body makes, if it names anybody.
pub open spec fn complaint(body: Seq<char>) -> Option<Bounce> {
    let f = feedback(text_lines(body));
    if f.0.len() == 0 {
        None
    } else {
        Some(
            Bounce {
                recipient: f.0,
                kind: BounceKind::Complaint,
                status_code: Seq::empty(),
                diagnostic: if f.1.len() == 0 {
                    "spam complaint"@
                } else {
                    "feedback-type: "@ + f.1
                },
                original_message_id: Seq::empty(),
            },
        )
    }
}

fn kind_override(code: &[char]) -> (r: Option<BounceKind>)
    ensures
        r == override_of(code@),
{
    if spells(code, "5.7.233") || spells(code, "5.7.515") || spells(code, "5.7.1") || spells(
        code,
        "5.7.0",
    ) || spells(code, "5.7.26") || spells(code, "5.7.509") || spells(code, "5.7.708") || spells(
        code,
        "4.7.28",
    ) {
        Some(BounceKind::Sender)
    } else if spells(code, "5.2.2") {
        Some(BounceKind::Soft)
    } else {
        None
    }
}

fn says_sender(l: &[char]) -> (r: bool)
    ensures
        r == blames_sender(l@),
{
    contains_text(l, "does not meet the required authentication") || contains_text(l, "dmarc")
        || contains_text(l, "spf check failed") || contains_text(l, "dkim") || contains_text(
        l,
        "exceeded the maximum number of recipients",
    ) || contains_text(l, "sending limit") || contains_text(l, "rate limit") || contains_text(
        l,
        "blocked using",
    ) || contains_text(l, "listed on") || contains_text(l, "reputation") || contains_text(
        l,
        "not authorized to send",
    )
}

fn says_soft(l: &[char]) -> (r: bool)
    ensures
        r == sounds_soft(l@),
{
    contains_text(l, "mailbox full") || contains_text(l, "over quota") || contains_text(
        l,
        "quota exceeded",
    ) || contains_text(l, "insufficient storage") || contains_text(l, "try again later")
        || contains_text(l, "temporarily") || contains_text(l, "greylist") || contains_text(
        l,
        "deferred",
    ) || contains_text(l, "timed out")
}

fn says_hard(l: &[char]) -> (r: bool)
    ensures
        r == sounds_hard(l@),
{
    contains_text(l, "user unknown") || contains_text(l, "no such user") || contains_text(
        l,
        "unknown user",
    ) || contains_text(l, "does not exist") || contains_text(l, "recipient not found")
        || contains_text(l, "no mailbox") || contains_text(l, "mailbox unavailable")
        || contains_text(l, "address rejected") || contains_text(l, "invalid recipient")
        || contains_text(l, "recipient address rejected") || contains_text(l, "unrouteable address")
        || contains_text(l, "no such recipient")
}

/// Last resort for servers that send prose.
pub fn classify_from_text(text: &[char]) -> (r: BounceKind)
    ensures
        r == kind_of_text(text@),
{
    let l: Vec<char> = lower_of(text);
    if says_sender(&l) {
        BounceKind::Sender
    } else if says_soft(&l) {
        BounceKind::Soft
    } else if says_hard(&l) || contains_text(&l, " 5.") || contains_text(&l, "550")
        || contains_text(&l, "553") {
        BounceKind::Hard
    } else {
        BounceKind::Soft
    }
}

fn classify_chars(status: &[char], action: &[char], diagnostic: &[char]) -> (r: BounceKind)
    ensures
        r == kind_of(status@, action@, diagnostic@),
{
    let code: &[char] = trim_of(status);
    match kind_override(code) {
        Some(kind) => {
            return kind;
        },
        None => {},
    }
    if same_folded(action, "delayed") {
        return BounceKind::Delayed;
    }
    let dot: usize = match find_of(code, Class::Is('.')) {
        Some(i) => i,
        None => code.len(),
    };
    let class: &[char] = up_to(code, dot);
    if spells(class, "5") {
        BounceKind::Hard
    } else if spells(class, "4") {
        BounceKind::Soft
    } else {
        classify_from_text(diagnostic)
    }
}

/// Classify from the enhanced status code, then the action, then the text.
#[must_use]
pub fn classify(status_code: &str, action: &str, diagnostic: &str) -> (r: BounceKind)
    ensures
        r == kind_of(status_code@, action@, diagnostic@),
{
    let s: Vec<char> = to_chars(status_code);
    let a: Vec<char> = to_chars(action);
    let d: Vec<char> = to_chars(diagnostic);
    classify_chars(&s, &a, &d)
}

fn strip_brackets(s: &[char]) -> (r: &[char])
    ensures
        r@ == bare(s@),
{
    trim_of(drop_back_of(drop_front_of(trim_of(s), Class::Is('<')), Class::Is('>')))
}

fn address_of(field: &[char]) -> (r: Vec<char>)
    ensures
        r@ == address_in(field@),
{
    let from: usize = match rfind_of(field, Class::Is(';')) {
        Some(i) => i + 1,
        None => 0,
    };
    let value: String = to_text(strip_brackets(from_index(field, from)));
    let folded: String = to_lowercase(&value);
    to_chars(&folded)
}

spec fn fields_view(v: Seq<Field>) -> Seq<(Seq<char>, Seq<char>)> {
    v.map_values(|f: Field| (f.name@, f.value@))
}

spec fn groups_view(v: Seq<Vec<Field>>) -> Seq<Seq<(Seq<char>, Seq<char>)>> {
    v.map_values(|g: Vec<Field>| fields_view(g@))
}

/// Reads the field groups of a delivery-status body.
fn read_groups(body: &[char]) -> (r: Vec<Vec<Field>>)
    ensures
        groups_view(r@) == grouped(text_lines(body@)).all(),
{
    let ls: Vec<Vec<char>> = lines_of(body);
    let ghost all = pieces(ls@);
    let mut closed: Vec<Vec<Field>> = Vec::new();
    let mut open: Vec<Field> = Vec::new();
    let mut i: usize = 0;
    proof {
        assert(groups_view(closed@) =~= Seq::empty());
        assert(fields_view(open@) =~= Seq::empty());
        assert(all.take(0).len() == 0);
    }
    while i < ls.len()
        invariant
            i <= ls@.len(),
            all == pieces(ls@),
            (Groups { closed: groups_view(closed@), open: fields_view(open@) }) == grouped(
                all.take(i as int),
            ),
        decreases ls@.len() - i,
    {
        let line: &Vec<char> = &ls[i];
        let ghost before = Groups { closed: groups_view(closed@), open: fields_view(open@) };
        proof {
            assert(all.take(i + 1).drop_last() =~= all.take(i as int));
            assert(all.take(i + 1).last() == line@);
            crate::chars::lemma_trimmed_part(line@);
        }
        let text: &[char] = trim_of(line);
        if text.len() == 0 {
            if open.len() > 0 {
                closed.push(open);
                open = Vec::new();
                assert(groups_view(closed@) =~= before.closed.push(before.open));
                assert(fields_view(open@) =~= Seq::empty());
            }
        } else if line[0] == ' ' || line[0] == '\t' {
            match open.pop() {
                Some(last) => {
                    let mut last = last;
                    let ghost was = (last.name@, last.value@);
                    assert(fields_view(open@) =~= before.open.drop_last());
                    assert(was == before.open.last());
                    last.value.push(' ');
                    push_all(&mut last.value, text);
                    open.push(last);
                    assert(fields_view(open@) =~= before.open.drop_last().push(
                        (was.0, was.1.push(' ') + text@),
                    ));
                },
                None => {},
            }
        } else {
            match find_of(line, Class::Is(':')) {
                Some(c) => {
                    let name: Vec<char> = lower_of(trim_of(up_to(line, c)));
                    let value: Vec<char> = copy_of(trim_of(from_index(line, c + 1)));
                    let ghost pair = (name@, value@);
                    open.push(Field { name, value });
                    assert(fields_view(open@) =~= before.open.push(pair));
                },
                None => {},
            }
        }
        proof {
            assert((Groups { closed: groups_view(closed@), open: fields_view(open@) })
                =~= before.step(line@));
        }
        i = i + 1;
    }
    proof {
        assert(all.take(i as int) =~= all);
    }
    let ghost before = Groups { closed: groups_view(closed@), open: fields_view(open@) };
    closed.push(open);
    assert(groups_view(closed@) =~= before.all());
    closed
}

/// The value of the first field of this name, or nothing.
fn value_of(group: &Vec<Field>, key: &str) -> (r: Vec<char>)
    ensures
        r@ == value_in(fields_view(group@), key@),
{
    let ghost all = fields_view(group@);
    let mut i: usize = 0;
    assert(all.skip(0) =~= all);
    while i < group.len()
        invariant
            i <= group@.len(),
            all == fields_view(group@),
            value_in(all.skip(i as int), key@) == value_in(all, key@),
        decreases group@.len() - i,
    {
        proof {
            assert(all.skip(i as int)[0] == (group@[i as int].name@, group@[i as int].value@));
            assert(all.skip(i as int).skip(1) =~= all.skip(i + 1));
        }
        if spells(&group[i].name, key) {
            return copy_of(&group[i].value);
        }
        i = i + 1;
    }
    let none: Vec<char> = Vec::new();
    assert(none@ =~= Seq::<char>::empty());
    none
}

fn find_envelope_id(groups: &Vec<Vec<Field>>) -> (r: Vec<char>)
    ensures
        r@ == envelope_id(groups_view(groups@)),
{
    let ghost all = groups_view(groups@);
    let mut i: usize = 0;
    assert(all.skip(0) =~= all);
    while i < groups.len()
        invariant
            i <= groups@.len(),
            all == groups_view(groups@),
            envelope_id(all.skip(i as int)) == envelope_id(all),
        decreases groups@.len() - i,
    {
        proof {
            assert(all.skip(i as int)[0] == fields_view(groups@[i as int]@));
            assert(all.skip(i as int).skip(1) =~= all.skip(i + 1));
        }
        let v: Vec<char> = value_of(&groups[i], "original-envelope-id");
        if v.len() > 0 {
            return v;
        }
        i = i + 1;
    }
    let none: Vec<char> = Vec::new();
    assert(none@ =~= Seq::<char>::empty());
    none
}

fn record_of(group: &Vec<Field>, id: &[char]) -> (r: Option<BounceRecord>)
    ensures
        match r {
            Some(b) => record_in(fields_view(group@), id@) == Some(b@),
            None => record_in(fields_view(group@), id@) is None,
        },
{
    let direct: Vec<char> = value_of(group, "final-recipient");
    let recipient: Vec<char> = if direct.len() == 0 {
        value_of(group, "original-recipient")
    } else {
        direct
    };
    if recipient.len() == 0 {
        return None;
    }
    let status: Vec<char> = value_of(group, "status");
    let action: Vec<char> = value_of(group, "action");
    let diagnostic: Vec<char> = value_of(group, "diagnostic-code");
    let folded: Vec<char> = lower_of(&action);
    if spells(&folded, "delivered") || spells(&folded, "relayed") || spells(&folded, "expanded") {
        return None;
    }
    let kind = classify_chars(&status, &action, &diagnostic);
    let address: Vec<char> = address_of(&recipient);
    let words: Vec<char> = if diagnostic.len() == 0 {
        value_of(group, "remote-mta")
    } else {
        diagnostic
    };
    let b = BounceRecord {
        recipient: to_text(&address),
        kind,
        status_code: to_text(&status),
        diagnostic: to_text(&words),
        original_message_id: to_text(strip_brackets(id)),
    };
    assert(b@ =~= record_in(fields_view(group@), id@)->0);
    Some(b)
}

/// Parses a `message/delivery-status` body: per-message fields, then one group
/// per recipient, groups separated by a blank line. Continuation lines fold
/// into the previous field.
pub fn parse_delivery_status(body: &str) -> (r: Vec<BounceRecord>)
    ensures
        bounces(r@) == status_records(body@),
{
    let text: Vec<char> = to_chars(body);
    let groups: Vec<Vec<Field>> = read_groups(&text);
    let id: Vec<char> = find_envelope_id(&groups);
    let ghost all = groups_view(groups@);
    let mut out: Vec<BounceRecord> = Vec::new();
    let mut i: usize = 0;
    proof {
        assert(all.take(0).len() == 0);
        assert(bounces(out@) =~= Seq::empty());
    }
    while i < groups.len()
        invariant
            i <= groups@.len(),
            all == groups_view(groups@),
            bounces(out@) == records_in(all.take(i as int), id@),
        decreases groups@.len() - i,
    {
        let ghost before = bounces(out@);
        proof {
            assert(all.take(i + 1).drop_last() =~= all.take(i as int));
            assert(all.take(i + 1).last() == fields_view(groups@[i as int]@));
        }
        match record_of(&groups[i], &id) {
            Some(b) => {
                let ghost g = b@;
                out.push(b);
                assert(bounces(out@) =~= before.push(g));
            },
            None => {},
        }
        i = i + 1;
    }
    assert(all.take(i as int) =~= all);
    out
}

/// Parses a `message/feedback-report` body (RFC 5965). One complaint, keyed by
/// `Original-Rcpt-To`; a report that names nobody yields none.
pub fn parse_feedback_report(body: &str) -> (r: Option<BounceRecord>)
    ensures
        match r {
            Some(b) => complaint(body@) == Some(b@),
            None => complaint(body@) is None,
        },
{
    let text: Vec<char> = to_chars(body);
    let ls: Vec<Vec<char>> = lines_of(&text);
    let ghost all = pieces(ls@);
    let mut recipient: Vec<char> = Vec::new();
    let mut feedback_type: Vec<char> = Vec::new();
    let mut i: usize = 0;
    proof {
        assert(all.take(0).len() == 0);
        assert(recipient@ =~= Seq::empty());
        assert(feedback_type@ =~= Seq::empty());
    }
    while i < ls.len()
        invariant
            i <= ls@.len(),
            all == pieces(ls@),
            (recipient@, feedback_type@) == feedback(all.take(i as int)),
        decreases ls@.len() - i,
    {
        let line: &Vec<char> = &ls[i];
        proof {
            assert(all.take(i + 1).drop_last() =~= all.take(i as int));
            assert(all.take(i + 1).last() == line@);
        }
        match find_of(line, Class::Is(':')) {
            Some(c) => {
                let name: Vec<char> = lower_of(trim_of(up_to(line, c)));
                let value: &[char] = from_index(line, c + 1);
                if spells(&name, "original-rcpt-to") {
                    recipient = address_of(value);
                } else if spells(&name, "feedback-type") {
                    feedback_type = copy_of(trim_of(value));
                }
            },
            None => {},
        }
        i = i + 1;
    }
    assert(all.take(i as int) =~= all);
    if recipient.len() == 0 {
        return None;
    }
    let mut words: Vec<char> = Vec::new();
    if feedback_type.len() == 0 {
        push_text(&mut words, "spam complaint");
        assert(words@ =~= "spam complaint"@);
    } else {
        push_text(&mut words, "feedback-type: ");
        push_all(&mut words, &feedback_type);
        assert(words@ =~= "feedback-type: "@ + feedback_type@);
    }
    let b = BounceRecord {
        recipient: to_text(&recipient),
        kind: BounceKind::Complaint,
        status_code: String::new(),
        diagnostic: to_text(&words),
        original_message_id: String::new(),
    };
    assert(b@ =~= complaint(body@)->0);
    Some(b)
}

/// The `Message-ID` a header block names: the lines up to the blank one that
/// ends it, so a body quoting the header cannot be mistaken for it.
pub open spec fn header_id(ls: Seq<Seq<char>>) -> Option<Seq<char>>
    decreases ls.len(),
{
    if ls.len() == 0 || trimmed(ls[0]).len() == 0 {
        None
    } else {
        match after_prefix(ls[0], "Message-ID:"@) {
            Some(rest) => Some(bare(rest)),
            None => match after_prefix(ls[0], "Message-Id:"@) {
                Some(rest) => Some(bare(rest)),
                None => match after_prefix(ls[0], "message-id:"@) {
                    Some(rest) => Some(bare(rest)),
                    None => header_id(ls.skip(1)),
                },
            },
        }
    }
}

/// The `Message-ID` of the bounced original: the first that any part names.
pub open spec fn original_id(contents: Seq<Seq<u8>>) -> Seq<char>
    decreases contents.len(),
{
    if contents.len() == 0 {
        Seq::empty()
    } else {
        let here = if valid_utf8(contents[0]) {
            header_id(text_lines(decode_utf8(contents[0])))
        } else {
            None
        };
        match here {
            Some(id) => id,
            None => original_id(contents.skip(1)),
        }
    }
}

/// Whether a content type is of this subtype.
pub open spec fn subtype_is(ct: Option<ContentTypeView>, name: Seq<char>) -> bool {
    ct is Some && ct->0.subtype is Some && lowered(ct->0.subtype->0) == lowered(name)
}

/// What the first `n` parts of a report say; nothing where one of them is a
/// read receipt.
pub open spec fn parts_say(
    types: Seq<Option<ContentTypeView>>,
    contents: Seq<Seq<u8>>,
    n: nat,
) -> Option<Seq<Bounce>>
    decreases n,
{
    if n == 0 {
        Some(Seq::empty())
    } else {
        let i = n - 1;
        match parts_say(types, contents, i as nat) {
            None => None,
            Some(so_far) => if !valid_utf8(contents[i]) {
                Some(so_far)
            } else if subtype_is(types[i], "delivery-status"@) {
                Some(so_far + status_records(decode_utf8(contents[i])))
            } else if subtype_is(types[i], "feedback-report"@) {
                match complaint(decode_utf8(contents[i])) {
                    Some(b) => Some(so_far.push(b)),
                    None => Some(so_far),
                }
            } else if subtype_is(types[i], "disposition-notification"@) {
                None
            } else {
                Some(so_far)
            },
        }
    }
}

/// The value of the first attribute of this name.
pub open spec fn attribute_in(attributes: Seq<(Seq<char>, Seq<char>)>, name: Seq<char>) -> Option<
    Seq<char>,
>
    decreases attributes.len(),
{
    if attributes.len() == 0 {
        None
    } else if attributes[0].0 == name {
        Some(attributes[0].1)
    } else {
        attribute_in(attributes.skip(1), name)
    }
}

/// Whether a message's own content type makes it a report.
pub open spec fn report_type(ct: Option<ContentTypeView>) -> bool {
    ct is Some && lowered(ct->0.ctype) == lowered("multipart"@) && subtype_is(ct, "report"@)
}

/// The record a report's prose amounts to, if it names an address.
pub open spec fn prose_record(human: Seq<char>) -> Seq<Bounce> {
    let recipient = recipient_in(human);
    if recipient.len() == 0 {
        Seq::empty()
    } else {
        seq![
            Bounce {
                recipient,
                kind: kind_of_text(human),
                status_code: Seq::empty(),
                diagnostic: opening(human, 3),
                original_message_id: Seq::empty(),
            },
        ]
    }
}

/// The record with the original's id, where it carried none of its own.
pub open spec fn with_original(b: Bounce, id: Seq<char>) -> Bounce {
    if b.original_message_id.len() == 0 {
        Bounce { original_message_id: id, ..b }
    } else {
        b
    }
}

/// What a report says, given the content type and the contents of each part and
/// the text a person would read.
pub open spec fn report(
    types: Seq<Option<ContentTypeView>>,
    contents: Seq<Seq<u8>>,
    human: Seq<char>,
) -> Option<Seq<Bounce>> {
    if types.len() == 0 || !report_type(types[0]) {
        None
    } else {
        let n = if types.len() < contents.len() {
            types.len()
        } else {
            contents.len()
        };
        match parts_say(types, contents, n) {
            None => None,
            Some(said) => {
                let kind = attribute_in(types[0]->0.attributes, "report-type"@);
                let records = if said.len() == 0 && kind is Some && lowered(kind->0) == lowered(
                    "delivery-status"@,
                ) {
                    prose_record(human)
                } else {
                    said
                };
                if records.len() == 0 {
                    None
                } else {
                    let id = original_id(contents);
                    Some(records.map_values(|b: Bounce| with_original(b, id)))
                }
            },
        }
    }
}

/// The bodies a person would read, one after the other.
pub open spec fn human_text_upto(raw: Seq<u8>, n: nat) -> Seq<Seq<char>>
    decreases n,
{
    if n == 0 {
        Seq::empty()
    } else {
        match text_at(raw, (n - 1) as usize) {
            Some(t) => human_text_upto(raw, (n - 1) as nat).push(t),
            None => human_text_upto(raw, (n - 1) as nat),
        }
    }
}

pub open spec fn readable(raw: Seq<u8>) -> Seq<char> {
    joined(human_text_upto(raw, text_count(raw) as nat), "\n"@)
}

/// A local part that belongs to a mail system rather than to a person.
pub open spec fn daemon(local: Seq<char>) -> bool {
    local == "mailer-daemon"@ || local == "postmaster"@ || local == "mail-daemon"@ || local
        == "mailerdaemon"@
}

/// A word of prose as an address, folded, without the punctuation behind it.
pub open spec fn candidate(token: Seq<char>) -> Seq<char> {
    unicode_lower(drop_back(token, Class::Either('.', ':')))
}

pub open spec fn plausible(address: Seq<char>) -> bool {
    address_like(address) && !daemon(address.take(find(address, Class::Is('@'))))
}

pub open spec fn first_plausible(tokens: Seq<Seq<char>>) -> Seq<char>
    decreases tokens.len(),
{
    if tokens.len() == 0 {
        Seq::empty()
    } else if plausible(candidate(tokens[0])) {
        candidate(tokens[0])
    } else {
        first_plausible(tokens.skip(1))
    }
}

/// The first plausible address in a bounce's prose.
pub open spec fn recipient_in(text: Seq<char>) -> Seq<char> {
    first_plausible(split_on(text, Class::AddressBreak))
}

/// Three groups of digits, the first of them a four or a five.
pub open spec fn status_code(s: Seq<char>) -> bool {
    let ps = split_on(s, Class::Is('.'));
    &&& ps.len() == 3
    &&& (ps[0] == "4"@ || ps[0] == "5"@)
    &&& 0 < ps[1].len() <= 3
    &&& 0 < ps[2].len() <= 3
    &&& crate::numbers::all_digits(ps[1])
    &&& crate::numbers::all_digits(ps[2])
}

pub open spec fn first_code(tokens: Seq<Seq<char>>) -> Seq<char>
    decreases tokens.len(),
{
    if tokens.len() == 0 {
        Seq::empty()
    } else {
        let t = drop_back(tokens[0], Class::Three('.', ':', '>'));
        if status_code(t) {
            t
        } else {
            first_code(tokens.skip(1))
        }
    }
}

/// The first enhanced status code in prose.
pub open spec fn code_in(text: Seq<char>) -> Seq<char> {
    first_code(split_on(text, Class::CodeBreak))
}

/// The first `n` lines with anything in them, trimmed.
pub open spec fn nonblank(ls: Seq<Seq<char>>, n: nat) -> Seq<Seq<char>>
    decreases ls.len(),
{
    if ls.len() == 0 || n == 0 {
        Seq::empty()
    } else if trimmed(ls[0]).len() == 0 {
        nonblank(ls.skip(1), n)
    } else {
        seq![trimmed(ls[0])] + nonblank(ls.skip(1), (n - 1) as nat)
    }
}

/// The first `n` lines of a text on one line, five hundred characters at most.
pub open spec fn opening(text: Seq<char>, n: nat) -> Seq<char> {
    let all = joined(nonblank(text_lines(text), n), " "@);
    if all.len() > 500 {
        all.take(500)
    } else {
        all
    }
}

/// A bounce without a structured part: trusted only where it came from a mail
/// system and the text names an address.
pub open spec fn loose(from: Seq<char>, body: Seq<char>) -> Option<Bounce> {
    let local = unicode_lower(from.take(find(from, Class::Is('@'))));
    let recipient = recipient_in(body);
    if (!daemon(local) && local != "no-reply"@) || recipient.len() == 0 {
        None
    } else {
        Some(
            Bounce {
                recipient,
                kind: kind_of_text(body),
                status_code: code_in(body),
                diagnostic: opening(body, 3),
                original_message_id: Seq::empty(),
            },
        )
    }
}

fn is_daemon(local: &[char]) -> (r: bool)
    ensures
        r == daemon(local@),
{
    spells(local, "mailer-daemon") || spells(local, "postmaster") || spells(local, "mail-daemon")
        || spells(local, "mailerdaemon")
}

/// The first plausible address in a bounce's prose, skipping the daemon's own
/// addresses so a postmaster is never taken for the failed recipient.
pub fn recipient_from_text(text: &[char]) -> (r: Vec<char>)
    ensures
        r@ == recipient_in(text@),
{
    let tokens: Vec<Vec<char>> = split_of(text, Class::AddressBreak);
    let ghost all = pieces(tokens@);
    let mut i: usize = 0;
    assert(all.skip(0) =~= all);
    while i < tokens.len()
        invariant
            i <= tokens@.len(),
            all == pieces(tokens@),
            all == split_on(text@, Class::AddressBreak),
            first_plausible(all.skip(i as int)) == first_plausible(all),
        decreases tokens@.len() - i,
    {
        proof {
            assert(all.skip(i as int)[0] == tokens@[i as int]@);
            assert(all.skip(i as int).skip(1) =~= all.skip(i + 1));
        }
        let bare_token: String = to_text(drop_back_of(&tokens[i], Class::Either('.', ':')));
        let folded: String = to_lowercase(&bare_token);
        if looks_like_an_address(&folded) {
            let v: Vec<char> = to_chars(&folded);
            let at: usize = match find_of(&v, Class::Is('@')) {
                Some(a) => a,
                None => v.len(),
            };
            if !is_daemon(up_to(&v, at)) {
                return v;
            }
        }
        i = i + 1;
    }
    let none: Vec<char> = Vec::new();
    assert(none@ =~= Seq::<char>::empty());
    none
}

fn few_digits(s: &[char]) -> (r: bool)
    ensures
        r == (0 < s@.len() <= 3 && crate::numbers::all_digits(s@)),
{
    let n: usize = crate::chars::run_of(s, Class::Digit, true);
    proof {
        lemma_run(s@, Class::Digit, true);
        if n < s@.len() {
            assert(!Class::Digit.holds(s@[n as int]));
        }
    }
    n == s.len() && 0 < n && n <= 3
}

fn is_status_code(s: &[char]) -> (r: bool)
    ensures
        r == status_code(s@),
{
    let ps: Vec<Vec<char>> = split_of(s, Class::Is('.'));
    let ghost all = pieces(ps@);
    assert(all.len() == ps@.len());
    if ps.len() != 3 {
        return false;
    }
    assert(all[0] == ps@[0]@ && all[1] == ps@[1]@ && all[2] == ps@[2]@);
    (spells(&ps[0], "4") || spells(&ps[0], "5")) && few_digits(&ps[1]) && few_digits(&ps[2])
}

/// Pulls an enhanced status code (`5.1.1`) out of prose.
pub fn extract_status_code(text: &[char]) -> (r: Vec<char>)
    ensures
        r@ == code_in(text@),
{
    let tokens: Vec<Vec<char>> = split_of(text, Class::CodeBreak);
    let ghost all = pieces(tokens@);
    let mut i: usize = 0;
    assert(all.skip(0) =~= all);
    while i < tokens.len()
        invariant
            i <= tokens@.len(),
            all == pieces(tokens@),
            all == split_on(text@, Class::CodeBreak),
            first_code(all.skip(i as int)) == first_code(all),
        decreases tokens@.len() - i,
    {
        proof {
            assert(all.skip(i as int)[0] == tokens@[i as int]@);
            assert(all.skip(i as int).skip(1) =~= all.skip(i + 1));
        }
        let t: &[char] = drop_back_of(&tokens[i], Class::Three('.', ':', '>'));
        if is_status_code(t) {
            return copy_of(t);
        }
        i = i + 1;
    }
    let none: Vec<char> = Vec::new();
    assert(none@ =~= Seq::<char>::empty());
    none
}

fn first_lines(text: &[char], count: usize) -> (r: Vec<char>)
    ensures
        r@ == opening(text@, count as nat),
{
    let ls: Vec<Vec<char>> = lines_of(text);
    let ghost all = pieces(ls@);
    let mut kept: Vec<Vec<char>> = Vec::new();
    let mut i: usize = 0;
    proof {
        assert(all.skip(0) =~= all);
        assert(pieces(kept@) + nonblank(all, count as nat) =~= nonblank(all, count as nat));
    }
    while i < ls.len() && kept.len() < count
        invariant
            i <= ls@.len(),
            all == pieces(ls@),
            kept@.len() <= count,
            pieces(kept@) + nonblank(all.skip(i as int), (count - kept@.len()) as nat) == nonblank(
                all,
                count as nat,
            ),
        decreases ls@.len() - i,
    {
        let ghost before = pieces(kept@);
        let ghost left = (count - kept@.len()) as nat;
        let ghost rest = all.skip(i as int);
        proof {
            assert(rest[0] == ls@[i as int]@);
            assert(rest.skip(1) =~= all.skip(i + 1));
        }
        let line: &[char] = trim_of(&ls[i]);
        if line.len() > 0 {
            kept.push(copy_of(line));
            proof {
                assert(pieces(kept@) =~= before + seq![line@]);
                let tail = nonblank(all.skip(i + 1), (left - 1) as nat);
                assert(before + (seq![line@] + tail) =~= pieces(kept@) + tail);
            }
        }
        i = i + 1;
    }
    proof {
        let tail = nonblank(all.skip(i as int), (count - kept@.len()) as nat);
        assert(tail =~= Seq::<Seq<char>>::empty());
        assert(pieces(kept@) + tail =~= pieces(kept@));
    }
    let line: Vec<char> = crate::chars::join_of(&kept, " ");
    if line.len() > 500 {
        copy_of(up_to(&line, 500))
    } else {
        line
    }
}

/// A bounce with no structured part at all.
///
/// Only trusted when it came from a mailer daemon and names an address: without
/// both, ordinary mail containing the phrase "user unknown" would be read as a
/// bounce. A subject that announces a failure vouches for nothing.
#[must_use]
pub fn parse_loose(from_email: &str, _subject: &str, body_text: &str) -> (r: Option<BounceRecord>)
    ensures
        match r {
            Some(b) => loose(from_email@, body_text@) == Some(b@),
            None => loose(from_email@, body_text@) is None,
        },
{
    let from: Vec<char> = to_chars(from_email);
    let at: usize = match find_of(&from, Class::Is('@')) {
        Some(i) => i,
        None => from.len(),
    };
    let local_text: String = to_text(up_to(&from, at));
    let folded: String = to_lowercase(&local_text);
    let local: Vec<char> = to_chars(&folded);
    if !is_daemon(&local) && !spells(&local, "no-reply") {
        return None;
    }
    let body: Vec<char> = to_chars(body_text);
    let recipient: Vec<char> = recipient_from_text(&body);
    if recipient.len() == 0 {
        return None;
    }
    let code: Vec<char> = extract_status_code(&body);
    let words: Vec<char> = first_lines(&body, 3);
    let b = BounceRecord {
        recipient: to_text(&recipient),
        kind: classify_from_text(&body),
        status_code: to_text(&code),
        diagnostic: to_text(&words),
        original_message_id: String::new(),
    };
    assert(b@ =~= loose(from_email@, body_text@)->0);
    Some(b)
}

fn header_id_of(text: &str) -> (r: Option<Vec<char>>)
    ensures
        match r {
            Some(id) => header_id(text_lines(text@)) == Some(id@),
            None => header_id(text_lines(text@)) is None,
        },
{
    let t: Vec<char> = to_chars(text);
    let ls: Vec<Vec<char>> = lines_of(&t);
    let ghost all = pieces(ls@);
    let mut i: usize = 0;
    assert(all.skip(0) =~= all);
    while i < ls.len()
        invariant
            i <= ls@.len(),
            all == pieces(ls@),
            all == text_lines(text@),
            header_id(all.skip(i as int)) == header_id(all),
        decreases ls@.len() - i,
    {
        let line: &Vec<char> = &ls[i];
        proof {
            assert(all.skip(i as int)[0] == line@);
            assert(all.skip(i as int).skip(1) =~= all.skip(i + 1));
        }
        if trim_of(line).len() == 0 {
            return None;
        }
        match strip_prefix_of(line, "Message-ID:") {
            Some(rest) => {
                return Some(copy_of(strip_brackets(rest)));
            },
            None => {},
        }
        match strip_prefix_of(line, "Message-Id:") {
            Some(rest) => {
                return Some(copy_of(strip_brackets(rest)));
            },
            None => {},
        }
        match strip_prefix_of(line, "message-id:") {
            Some(rest) => {
                return Some(copy_of(strip_brackets(rest)));
            },
            None => {},
        }
        i = i + 1;
    }
    None
}

/// Walks a report's parts for the `Message-ID` of the bounced original.
pub fn original_message_id_from_parts(contents: &Vec<Vec<u8>>) -> (r: Vec<char>)
    ensures
        r@ == original_id(crate::bytes::contents_of(contents@)),
{
    let ghost all = crate::bytes::contents_of(contents@);
    let mut i: usize = 0;
    assert(all.skip(0) =~= all);
    while i < contents.len()
        invariant
            i <= contents@.len(),
            all == crate::bytes::contents_of(contents@),
            original_id(all.skip(i as int)) == original_id(all),
        decreases contents@.len() - i,
    {
        proof {
            assert(all.skip(i as int)[0] == contents@[i as int]@);
            assert(all.skip(i as int).skip(1) =~= all.skip(i + 1));
        }
        match utf8_text(&contents[i]) {
            Some(text) => {
                match header_id_of(&text) {
                    Some(id) => {
                        return id;
                    },
                    None => {},
                }
            },
            None => {},
        }
        i = i + 1;
    }
    let none: Vec<char> = Vec::new();
    assert(none@ =~= Seq::<char>::empty());
    none
}

/// The views of the content types of a message's parts.
pub open spec fn type_list(v: Seq<Option<ContentType>>) -> Seq<Option<ContentTypeView>> {
    v.map_values(|t: Option<ContentType>| crate::mime::opt_type_view(t))
}

fn has_subtype(ct: &Option<ContentType>, name: &str) -> (r: bool)
    ensures
        r == subtype_is(crate::mime::opt_type_view(*ct), name@),
{
    match ct {
        Some(t) => match &t.subtype {
            Some(s) => {
                let v: Vec<char> = to_chars(s);
                same_folded(&v, name)
            },
            None => false,
        },
        None => false,
    }
}

/// The value of the first attribute of this name.
pub fn attribute_of(ct: &ContentType, name: &str) -> (r: Option<String>)
    ensures
        crate::chars::opt_text(r) == attribute_in(ct@.attributes, name@),
{
    let ghost all = ct@.attributes;
    let mut i: usize = 0;
    assert(all.skip(0) =~= all);
    while i < ct.attributes.len()
        invariant
            i <= ct.attributes@.len(),
            all == ct@.attributes,
            attribute_in(all.skip(i as int), name@) == attribute_in(all, name@),
        decreases ct.attributes@.len() - i,
    {
        proof {
            assert(all.skip(i as int)[0] == (
                ct.attributes@[i as int].0@,
                ct.attributes@[i as int].1@,
            ));
            assert(all.skip(i as int).skip(1) =~= all.skip(i + 1));
        }
        if crate::chars::same(&ct.attributes[i].0, name) {
            return Some(ct.attributes[i].1.clone());
        }
        i = i + 1;
    }
    None
}

fn push_records(out: &mut Vec<BounceRecord>, more: Vec<BounceRecord>)
    ensures
        bounces(final(out)@) == bounces(old(out)@) + bounces(more@),
{
    let mut more = more;
    let ghost before = out@;
    let ghost added = more@;
    out.append(&mut more);
    assert(bounces(out@) =~= bounces(before) + bounces(added));
}

/// What the parts of a report say; nothing where one of them is a read receipt.
fn read_parts(types: &Vec<Option<ContentType>>, contents: &Vec<Vec<u8>>, n: usize) -> (r: Option<
    Vec<BounceRecord>,
>)
    requires
        n <= types@.len(),
        n <= contents@.len(),
    ensures
        match r {
            Some(v) => parts_say(
                type_list(types@),
                crate::bytes::contents_of(contents@),
                n as nat,
            ) == Some(bounces(v@)),
            None => parts_say(
                type_list(types@),
                crate::bytes::contents_of(contents@),
                n as nat,
            ) is None,
        },
{
    let ghost ts = type_list(types@);
    let ghost cs = crate::bytes::contents_of(contents@);
    let mut out: Vec<BounceRecord> = Vec::new();
    let mut i: usize = 0;
    assert(bounces(out@) =~= Seq::empty());
    while i < n
        invariant
            i <= n,
            n <= types@.len(),
            n <= contents@.len(),
            ts == type_list(types@),
            cs == crate::bytes::contents_of(contents@),
            parts_say(ts, cs, i as nat) == Some(bounces(out@)),
        decreases n - i,
    {
        let ghost before = bounces(out@);
        proof {
            assert(cs[i as int] == contents@[i as int]@);
            assert(ts[i as int] == crate::mime::opt_type_view(types@[i as int]));
        }
        match utf8_text(&contents[i]) {
            Some(text) => {
                if has_subtype(&types[i], "delivery-status") {
                    push_records(&mut out, parse_delivery_status(&text));
                } else if has_subtype(&types[i], "feedback-report") {
                    match parse_feedback_report(&text) {
                        Some(b) => {
                            let ghost g = b@;
                            out.push(b);
                            assert(bounces(out@) =~= before.push(g));
                        },
                        None => {},
                    }
                } else if has_subtype(&types[i], "disposition-notification") {
                    proof {
                        assert(parts_say(ts, cs, (i + 1) as nat) is None);
                        lemma_receipt_spoils(ts, cs, (i + 1) as nat, n as nat);
                    }
                    return None;
                }
            },
            None => {},
        }
        i = i + 1;
    }
    Some(out)
}

proof fn lemma_receipt_spoils(
    types: Seq<Option<ContentTypeView>>,
    contents: Seq<Seq<u8>>,
    m: nat,
    n: nat,
)
    requires
        m <= n,
        parts_say(types, contents, m) is None,
    ensures
        parts_say(types, contents, n) is None,
    decreases n - m,
{
    if m < n {
        lemma_receipt_spoils(types, contents, m, (n - 1) as nat);
    }
}

/// Gives every record that carries no original id this one.
fn fill_original(records: Vec<BounceRecord>, id: &[char]) -> (r: Vec<BounceRecord>)
    ensures
        bounces(r@) == bounces(records@).map_values(|b: Bounce| with_original(b, id@)),
{
    let ghost all = bounces(records@);
    let ghost f = |b: Bounce| with_original(b, id@);
    let mut records = records;
    let mut i: usize = 0;
    let n: usize = records.len();
    while i < n
        invariant
            i <= n == records@.len(),
            all.len() == n,
            f == (|b: Bounce| with_original(b, id@)),
            forall|j: int| 0 <= j < i ==> #[trigger] bounces(records@)[j] == f(all[j]),
            forall|j: int| i <= j < n ==> #[trigger] bounces(records@)[j] == all[j],
        decreases n - i,
    {
        let kind = records[i].kind;
        let old_id: Vec<char> = to_chars(&records[i].original_message_id);
        if old_id.len() == 0 {
            let b = BounceRecord {
                recipient: records[i].recipient.clone(),
                kind,
                status_code: records[i].status_code.clone(),
                diagnostic: records[i].diagnostic.clone(),
                original_message_id: to_text(id),
            };
            proof {
                assert(bounces(records@)[i as int] == all[i as int]);
                assert(b@ =~= f(all[i as int]));
            }
            let ghost was = bounces(records@);
            let ghost g = b@;
            records.set(i, b);
            assert(bounces(records@) =~= was.update(i as int, g));
        } else {
            assert(bounces(records@)[i as int] == all[i as int]);
        }
        i = i + 1;
    }
    assert(bounces(records@) =~= all.map_values(f));
    records
}

/// What a report says, from the content type and the contents of each of its
/// parts and the text a person would read.
pub fn read_report(
    types: &Vec<Option<ContentType>>,
    contents: &Vec<Vec<u8>>,
    human: &str,
) -> (r: Option<Vec<BounceRecord>>)
    ensures
        match r {
            Some(v) => report(type_list(types@), crate::bytes::contents_of(contents@), human@)
                == Some(bounces(v@)),
            None => report(
                type_list(types@),
                crate::bytes::contents_of(contents@),
                human@,
            ) is None,
        },
{
    let ghost ts = type_list(types@);
    let ghost cs = crate::bytes::contents_of(contents@);
    if types.len() == 0 {
        return None;
    }
    assert(ts[0] == crate::mime::opt_type_view(types@[0]));
    let root: &ContentType = match &types[0] {
        Some(ct) => ct,
        None => {
            return None;
        },
    };
    let top: Vec<char> = to_chars(&root.ctype);
    if !same_folded(&top, "multipart") || !has_subtype(&types[0], "report") {
        return None;
    }
    let n: usize = if types.len() < contents.len() {
        types.len()
    } else {
        contents.len()
    };
    let said: Vec<BounceRecord> = match read_parts(types, contents, n) {
        Some(v) => v,
        None => {
            return None;
        },
    };
    let kind: Option<String> = attribute_of(root, "report-type");
    let is_status: bool = match &kind {
        Some(k) => {
            let v: Vec<char> = to_chars(k);
            same_folded(&v, "delivery-status")
        },
        None => false,
    };
    let mut records: Vec<BounceRecord> = said;
    assert(bounces(records@).len() == records@.len());
    if records.len() == 0 && is_status {
        let text: Vec<char> = to_chars(human);
        let recipient: Vec<char> = recipient_from_text(&text);
        if recipient.len() > 0 {
            let words: Vec<char> = first_lines(&text, 3);
            let b = BounceRecord {
                recipient: to_text(&recipient),
                kind: classify_from_text(&text),
                status_code: String::new(),
                diagnostic: to_text(&words),
                original_message_id: String::new(),
            };
            assert(b@ =~= prose_record(human@)[0]);
            records.push(b);
            assert(bounces(records@) =~= prose_record(human@));
        } else {
            assert(bounces(records@) =~= prose_record(human@));
        }
    }
    assert(bounces(records@).len() == records@.len());
    if records.len() == 0 {
        return None;
    }
    let id: Vec<char> = original_message_id_from_parts(contents);
    Some(fill_original(records, &id))
}

/// The bodies a person would read, one after the other.
fn human_text(raw: &[u8]) -> (r: String)
    ensures
        r@ == readable(raw@),
{
    let n: usize = text_body_count(raw);
    let mut kept: Vec<Vec<char>> = Vec::new();
    let mut i: usize = 0;
    assert(pieces(kept@) =~= Seq::empty());
    while i < n
        invariant
            i <= n,
            pieces(kept@) == human_text_upto(raw@, i as nat),
        decreases n - i,
    {
        let ghost before = pieces(kept@);
        match text_body(raw, i) {
            Some(t) => {
                let v: Vec<char> = to_chars(&t);
                let ghost g = v@;
                kept.push(v);
                assert(pieces(kept@) =~= before.push(g));
            },
            None => {},
        }
        i = i + 1;
    }
    let all: Vec<char> = crate::chars::join_of(&kept, "\n");
    to_text(&all)
}

/// The parse entry point, over the stored bytes. `None` means "not a report".
#[must_use]
pub fn parse_report(raw: &[u8]) -> (r: Option<Vec<BounceRecord>>)
    ensures
        match r {
            Some(v) => part_types(raw@) is Some && part_bytes(raw@) is Some && report(
                part_types(raw@)->0,
                part_bytes(raw@)->0,
                readable(raw@),
            ) == Some(bounces(v@)),
            None => part_types(raw@) is None || part_bytes(raw@) is None || report(
                part_types(raw@)->0,
                part_bytes(raw@)->0,
                readable(raw@),
            ) is None,
        },
{
    let types: Vec<Option<ContentType>> = match content_types(raw) {
        Some(t) => t,
        None => {
            return None;
        },
    };
    let contents: Vec<Vec<u8>> = match contents_of_parts(raw) {
        Some(c) => c,
        None => {
            return None;
        },
    };
    let human: String = human_text(raw);
    read_report(&types, &contents, &human)
}

// ---- what a report says ----

/// What a status code says of an address. The codes that are the sender's own doing are
/// never held against the recipient, a full mailbox passes, a report of a delay is only
/// that; any other code of the fifth class is final, and of the fourth is not.
pub proof fn what_a_status_code_says(
    status: Seq<char>,
    action: Seq<char>,
    diagnostic: Seq<char>,
)
    requires
        trimmed(status) == status,
    ensures
        ({
            let kind = kind_of(status, action, diagnostic);
            let senders = status == "5.7.233"@ || status == "5.7.515"@ || status == "5.7.1"@
                || status == "5.7.0"@ || status == "5.7.26"@ || status == "5.7.509"@ || status
                == "5.7.708"@ || status == "4.7.28"@;
            let delayed = lowered(action) == lowered("delayed"@);
            &&& senders ==> kind == BounceKind::Sender
            &&& status == "5.2.2"@ && !senders ==> kind == BounceKind::Soft
            &&& !senders && status != "5.2.2"@ && delayed ==> kind == BounceKind::Delayed
            &&& !senders && status != "5.2.2"@ && !delayed && status.len() > 1 && status[0] == '5'
                && status[1] == '.' ==> kind == BounceKind::Hard
            &&& !senders && status != "5.2.2"@ && !delayed && status.len() > 1 && status[0] == '4'
                && status[1] == '.' ==> kind == BounceKind::Soft
            &&& !senders && status != "5.2.2"@ && !delayed && status.len() == 0 ==> kind
                == kind_of_text(diagnostic)
        }),
{
    reveal_strlit("5");
    reveal_strlit("4");
    reveal_strlit("5.2.2");
    reveal_strlit("5.7.233");
    reveal_strlit("5.7.515");
    reveal_strlit("5.7.1");
    reveal_strlit("5.7.0");
    reveal_strlit("5.7.26");
    reveal_strlit("5.7.509");
    reveal_strlit("5.7.708");
    reveal_strlit("4.7.28");
    if status.len() > 1 && status[1] == '.' && (status[0] == '5' || status[0] == '4') {
        crate::chars::lemma_run_is(status, Class::Is('.'), false, 1);
        assert(status.take(1) =~= seq![status[0]]);
        assert("5"@ =~= seq!['5']);
        assert("4"@ =~= seq!['4']);
        assert("5"@[0] != "4"@[0]);
    }
    if status.len() == 0 {
        crate::chars::lemma_run(status, Class::Is('.'), false);
        assert(status.take(0).len() == 0);
        assert("5"@.len() == 1 && "4"@.len() == 1);
        assert("5.7.233"@.len() > 0 && "5.7.515"@.len() > 0 && "5.7.1"@.len() > 0 && "5.7.0"@.len()
            > 0 && "5.7.26"@.len() > 0 && "5.7.509"@.len() > 0 && "5.7.708"@.len() > 0
            && "4.7.28"@.len() > 0);
    }
}

/// What prose says of a failure: a sender's fault is the sender's whatever else is said;
/// what will pass is not final; what says that the address is gone is.
pub proof fn what_prose_says(text: Seq<char>)
    ensures
        ({
            let l = lowered(text);
            let senders = contains(l, "does not meet the required authentication"@) || contains(
                l,
                "dmarc"@,
            ) || contains(l, "spf check failed"@) || contains(l, "dkim"@) || contains(
                l,
                "exceeded the maximum number of recipients"@,
            ) || contains(l, "sending limit"@) || contains(l, "rate limit"@) || contains(
                l,
                "blocked using"@,
            ) || contains(l, "listed on"@) || contains(l, "reputation"@) || contains(
                l,
                "not authorized to send"@,
            );
            let passing = contains(l, "mailbox full"@) || contains(l, "over quota"@) || contains(
                l,
                "quota exceeded"@,
            ) || contains(l, "insufficient storage"@) || contains(l, "try again later"@) || contains(
                l,
                "temporarily"@,
            ) || contains(l, "greylist"@) || contains(l, "deferred"@) || contains(l, "timed out"@);
            let gone = contains(l, "user unknown"@) || contains(l, "no such user"@) || contains(
                l,
                "unknown user"@,
            ) || contains(l, "does not exist"@) || contains(l, "recipient not found"@) || contains(
                l,
                "no mailbox"@,
            ) || contains(l, "mailbox unavailable"@) || contains(l, "address rejected"@) || contains(
                l,
                "invalid recipient"@,
            ) || contains(l, "recipient address rejected"@) || contains(l, "unrouteable address"@)
                || contains(l, "no such recipient"@) || contains(l, " 5."@) || contains(l, "550"@)
                || contains(l, "553"@);
            &&& kind_of_text(text) == BounceKind::Sender <==> senders
            &&& kind_of_text(text) == BounceKind::Hard <==> !senders && !passing && gone
            &&& kind_of_text(text) == BounceKind::Soft <==> !senders && (passing || !gone)
        }),
{
}

/// The value of a field is the first one of its name.
pub proof fn the_first_field_counts(group: Seq<(Seq<char>, Seq<char>)>, key: Seq<char>, at: int)
    requires
        0 <= at < group.len(),
        group[at].0 == key,
        forall|i: int| 0 <= i < at ==> (#[trigger] group[i]).0 != key,
    ensures
        value_in(group, key) == group[at].1,
    decreases at,
{
    if at > 0 {
        let rest = group.skip(1);
        assert forall|i: int| 0 <= i < at - 1 implies (#[trigger] rest[i]).0 != key by {
            assert(rest[i] == group[i + 1]);
        }
        the_first_field_counts(rest, key, at - 1);
    }
}

/// What the fields of a recipient come to: a recipient and an action that is no success make
/// one record, for that recipient, with the code and the words the report gives.
pub proof fn what_a_recipient_is_reported_with(
    group: Seq<(Seq<char>, Seq<char>)>,
    id: Seq<char>,
    recipient: int,
    status: int,
    action: int,
    words: int,
)
    requires
        0 <= recipient < group.len() && group[recipient].0 == "final-recipient"@,
        group[recipient].1.len() > 0,
        forall|i: int| 0 <= i < recipient ==> (#[trigger] group[i]).0 != "final-recipient"@,
        0 <= status < group.len() && group[status].0 == "status"@,
        forall|i: int| 0 <= i < status ==> (#[trigger] group[i]).0 != "status"@,
        0 <= action < group.len() && group[action].0 == "action"@,
        forall|i: int| 0 <= i < action ==> (#[trigger] group[i]).0 != "action"@,
        0 <= words < group.len() && group[words].0 == "diagnostic-code"@,
        forall|i: int| 0 <= i < words ==> (#[trigger] group[i]).0 != "diagnostic-code"@,
        group[words].1.len() > 0,
    ensures
        ({
            let did = lowered(group[action].1);
            let success = did == "delivered"@ || did == "relayed"@ || did == "expanded"@;
            &&& success ==> record_in(group, id) is None
            &&& !success ==> (record_in(group, id) matches Some(b) && b.recipient == address_in(
                group[recipient].1,
            ) && b.status_code == group[status].1 && b.diagnostic == group[words].1 && b.kind
                == kind_of(group[status].1, group[action].1, group[words].1))
        }),
{
    the_first_field_counts(group, "final-recipient"@, recipient);
    the_first_field_counts(group, "status"@, status);
    the_first_field_counts(group, "action"@, action);
    the_first_field_counts(group, "diagnostic-code"@, words);
}

/// A line with a name and a value is a field of the group at hand, a line that begins with
/// white space goes on with the field before it, and a blank one ends the group.
pub proof fn what_a_line_is(g: Groups, name: Seq<char>, value: Seq<char>)
    requires
        name.len() > 0,
        name[0] != ' ' && name[0] != '\t',
        forall|i: int| 0 <= i < name.len() ==> (#[trigger] name[i]) != ':',
    ensures
        trimmed(name + seq![':'] + value).len() > 0 ==> g.step(name + seq![':'] + value).open
            == g.open.push((lowered(trimmed(name)), trimmed(value))) && g.step(
            name + seq![':'] + value,
        ).closed == g.closed,
        g.open.len() > 0 && trimmed(seq![' '] + value).len() > 0 ==> g.step(
            seq![' '] + value,
        ).open.last() == (g.open.last().0, g.open.last().1 + seq![' '] + trimmed(
            seq![' '] + value,
        )),
        g.open.len() > 0 ==> g.step(Seq::empty()).closed == g.closed.push(g.open) && g.step(
            Seq::empty(),
        ).open.len() == 0,
{
    let line = name + seq![':'] + value;
    assert forall|j: int| 0 <= j < name.len() implies Class::Is(':').holds(#[trigger] line[j])
        == false by {
        assert(line[j] == name[j]);
    }
    assert(line[name.len() as int] == ':');
    crate::chars::lemma_run_is(line, Class::Is(':'), false, name.len() as int);
    assert(line.take(name.len() as int) =~= name);
    assert(line.skip((name.len() + 1) as int) =~= value);
    assert(line[0] == name[0]);
    let more = seq![' '] + value;
    if g.open.len() > 0 {
        assert(g.open.last().1.push(' ') =~= g.open.last().1 + seq![' ']);
    }
    crate::chars::lemma_trimmed_part(Seq::empty());
    assert(trimmed(Seq::<char>::empty()).len() == 0);
}

/// A report of a complaint makes one record, a complaint, if it names anybody.
pub proof fn a_complaint_is_a_complaint(body: Seq<char>)
    ensures
        complaint(body) matches Some(b) ==> b.kind == BounceKind::Complaint && b.recipient.len()
            > 0 && b.recipient == feedback(text_lines(body)).0,
        complaint(body) is None <==> feedback(text_lines(body)).0.len() == 0,
{
}

/// What one more part adds to what a report says: the records of a delivery status, the
/// complaint of a feedback report, and nothing for any other part; a read receipt makes it no
/// bounce at all.
pub proof fn what_a_part_adds(
    types: Seq<Option<ContentTypeView>>,
    contents: Seq<Seq<u8>>,
    n: nat,
    so_far: Seq<Bounce>,
    subtype: Seq<char>,
)
    requires
        n < types.len(),
        n < contents.len(),
        parts_say(types, contents, n) == Some(so_far),
        types[n as int] is Some,
        (types[n as int]->0).subtype == Some(subtype),
    ensures
        ({
            let body = decode_utf8(contents[n as int]);
            let now = parts_say(types, contents, n + 1);
            &&& !valid_utf8(contents[n as int]) ==> now == Some(so_far)
            &&& valid_utf8(contents[n as int]) && lowered(subtype) == "delivery-status"@ ==> now
                == Some(so_far + status_records(body))
            &&& valid_utf8(contents[n as int]) && lowered(subtype) == "feedback-report"@ ==> now
                == Some(
                match complaint(body) {
                    Some(b) => so_far.push(b),
                    None => so_far,
                },
            )
            &&& valid_utf8(contents[n as int]) && lowered(subtype) == "disposition-notification"@
                ==> now is None
            &&& lowered(subtype) != "delivery-status"@ && lowered(subtype) != "feedback-report"@
                && lowered(subtype) != "disposition-notification"@ ==> now == Some(so_far)
        }),
{
    reveal_strlit("delivery-status");
    reveal_strlit("feedback-report");
    reveal_strlit("disposition-notification");
    assert(lowered("delivery-status"@) =~= "delivery-status"@);
    assert(lowered("feedback-report"@) =~= "feedback-report"@);
    assert(lowered("disposition-notification"@) =~= "disposition-notification"@);
    assert("delivery-status"@[0] == 'd' && "feedback-report"@[0] == 'f'
        && "disposition-notification"@[1] == 'i' && "delivery-status"@[1] == 'e');
}

/// What a report comes to: every record of its parts as it is, each with the id of the
/// message that bounced where it has none of its own. With no record it is no bounce.
pub proof fn what_a_report_comes_to(
    types: Seq<Option<ContentTypeView>>,
    contents: Seq<Seq<u8>>,
    human: Seq<char>,
    said: Seq<Bounce>,
    k: int,
)
    requires
        types.len() > 0,
        types.len() == contents.len(),
        types[0] is Some,
        lowered((types[0]->0).ctype) == lowered("multipart"@),
        (types[0]->0).subtype is Some,
        lowered((types[0]->0).subtype->0) == lowered("report"@),
        parts_say(types, contents, types.len()) == Some(said),
        0 <= k < said.len(),
    ensures
        report(types, contents, human) matches Some(all) && all.len() == said.len()
            && all[k].recipient == said[k].recipient && all[k].kind == said[k].kind
            && all[k].status_code == said[k].status_code && all[k].diagnostic
            == said[k].diagnostic && all[k].original_message_id == (if said[k].original_message_id.len()
            > 0 {
            said[k].original_message_id
        } else {
            original_id(contents)
        }),
{
}

/// A message that is no `multipart/report` is no report.
pub proof fn only_a_report_reports(
    types: Seq<Option<ContentTypeView>>,
    contents: Seq<Seq<u8>>,
    human: Seq<char>,
)
    requires
        types.len() == 0 || types[0] is None || lowered((types[0]->0).ctype) != lowered(
            "multipart"@,
        ) || (types[0]->0).subtype is None || lowered((types[0]->0).subtype->0) != lowered(
            "report"@,
        ),
    ensures
        report(types, contents, human) is None,
{
}

/// Every group of a delivery status that is a record is reported, in order.
pub proof fn every_group_is_reported(
    groups: Seq<Seq<(Seq<char>, Seq<char>)>>,
    more: Seq<Seq<(Seq<char>, Seq<char>)>>,
    id: Seq<char>,
)
    ensures
        records_in(groups + more, id) == records_in(groups, id) + records_in(more, id),
        groups.len() == 1 ==> records_in(groups, id) == (match record_in(groups[0], id) {
            Some(b) => seq![b],
            None => Seq::empty(),
        }),
    decreases more.len(),
{
    reveal_with_fuel(records_in, 2);
    if groups.len() == 1 {
        assert(records_in(groups.drop_last(), id) =~= Seq::<Bounce>::empty());
        if let Some(b) = record_in(groups[0], id) {
            assert(records_in(groups, id) =~= seq![b]);
        }
    }
    if more.len() == 0 {
        assert(groups + more =~= groups);
        assert(records_in(groups, id) + records_in(more, id) =~= records_in(groups, id));
    } else {
        every_group_is_reported(groups, more.drop_last(), id);
        assert((groups + more).drop_last() =~= groups + more.drop_last());
        assert((groups + more).last() == more.last());
        assert(records_in(groups + more, id) =~= records_in(groups, id) + records_in(more, id));
    }
}

/// A bounce without a structured part is believed only from a mail system, and only where its
/// text names an address; it is of the kind that its text says.
pub proof fn when_loose_prose_is_believed(from: Seq<char>, body: Seq<char>)
    ensures
        ({
            let local = unicode_lower(from.take(find(from, Class::Is('@'))));
            &&& loose(from, body) is Some <==> (local == "mailer-daemon"@ || local
                == "postmaster"@ || local == "mail-daemon"@ || local == "mailerdaemon"@ || local
                == "no-reply"@) && recipient_in(body).len() > 0
            &&& loose(from, body) matches Some(b) ==> b.recipient == recipient_in(body) && b.kind
                == kind_of_text(body) && b.status_code == code_in(body) && b.diagnostic == opening(
                body,
                3,
            ) && b.original_message_id.len() == 0
        }),
{
}

/// The first word of a text that could be an address, and is not that of a mail system, is
/// the address it names.
pub proof fn the_first_address_counts(tokens: Seq<Seq<char>>, k: int)
    requires
        0 <= k < tokens.len(),
        address_like(candidate(tokens[k])),
        candidate(tokens[k]).take(find(candidate(tokens[k]), Class::Is('@'))) != "mailer-daemon"@,
        candidate(tokens[k]).take(find(candidate(tokens[k]), Class::Is('@'))) != "postmaster"@,
        candidate(tokens[k]).take(find(candidate(tokens[k]), Class::Is('@'))) != "mail-daemon"@,
        candidate(tokens[k]).take(find(candidate(tokens[k]), Class::Is('@'))) != "mailerdaemon"@,
        forall|i: int| 0 <= i < k ==> !address_like(candidate(#[trigger] tokens[i])),
    ensures
        first_plausible(tokens) == candidate(tokens[k]),
    decreases k,
{
    if k > 0 {
        assert(!address_like(candidate(tokens[0])));
        let t = tokens.skip(1);
        assert forall|i: int| 0 <= i < k - 1 implies !address_like(candidate(#[trigger] t[i])) by {
            assert(t[i] == tokens[i + 1]);
        }
        the_first_address_counts(t, k - 1);
    }
}

/// The first word of a text that is a status code is the code it names.
pub proof fn the_first_code_counts(tokens: Seq<Seq<char>>, k: int)
    requires
        0 <= k < tokens.len(),
        status_code(drop_back(tokens[k], Class::Three('.', ':', '>'))),
        forall|i: int|
            0 <= i < k ==> !status_code(drop_back(#[trigger] tokens[i], Class::Three('.', ':', '>'))),
    ensures
        first_code(tokens) == drop_back(tokens[k], Class::Three('.', ':', '>')),
    decreases k,
{
    if k > 0 {
        assert(!status_code(drop_back(tokens[0], Class::Three('.', ':', '>'))));
        let t = tokens.skip(1);
        assert forall|i: int| 0 <= i < k - 1 implies !status_code(
            drop_back(#[trigger] t[i], Class::Three('.', ':', '>')),
        ) by {
            assert(t[i] == tokens[i + 1]);
        }
        the_first_code_counts(t, k - 1);
    }
}

/// The id of the message that bounced is that of the first header line that names one, in
/// front of any blank line.
pub proof fn which_line_names_the_original(lines: Seq<Seq<char>>, k: int, rest: Seq<char>)
    requires
        0 <= k < lines.len(),
        lines[k] == "Message-ID:"@ + rest,
        forall|i: int|
            0 <= i < k ==> trimmed(#[trigger] lines[i]).len() > 0 && !crate::chars::begins(
                lines[i],
                "Message-ID:"@,
            ) && !crate::chars::begins(lines[i], "Message-Id:"@) && !crate::chars::begins(
                lines[i],
                "message-id:"@,
            ),
        trimmed(lines[k]).len() > 0,
    ensures
        header_id(lines) == Some(bare(rest)),
    decreases k,
{
    if k > 0 {
        assert(trimmed(lines[0]).len() > 0);
        let t = lines.skip(1);
        assert forall|i: int| 0 <= i < k - 1 implies trimmed(#[trigger] t[i]).len() > 0
            && !crate::chars::begins(t[i], "Message-ID:"@) && !crate::chars::begins(
            t[i],
            "Message-Id:"@,
        ) && !crate::chars::begins(t[i], "message-id:"@) by {
            assert(t[i] == lines[i + 1]);
        }
        which_line_names_the_original(t, k - 1, rest);
    } else {
        let p = "Message-ID:"@;
        assert(lines[0].take(p.len() as int) =~= p);
        assert(lines[0].skip(p.len() as int) =~= rest);
    }
}

/// A record of prose alone: of the address that the prose names, of the kind it says.
pub proof fn what_prose_alone_reports(human: Seq<char>)
    ensures
        recipient_in(human).len() == 0 ==> prose_record(human).len() == 0,
        recipient_in(human).len() > 0 ==> prose_record(human).len() == 1 && prose_record(
            human,
        )[0].recipient == recipient_in(human) && prose_record(human)[0].kind == kind_of_text(human)
            && prose_record(human)[0].diagnostic == opening(human, 3),
{
}

} // verus!
