//! Finding the iMIP payload in a message.
//!
//! An invitation, a reply, a cancellation: RFC 6047 carries them all as a
//! `text/calendar` part with a `METHOD`. This module only finds that part and
//! hands its bytes on; what the payload means is for the calendar to decide.

use vstd::prelude::*;

use crate::chars::{after_prefix, drop_back, drop_back_of, lines_of, lowered, opt_text, pieces,
    same_folded, strip_prefix_of, text_lines, to_chars, to_text, trim_of, trimmed, upper_of, uppered,
    Class};
use crate::dsn::{attribute_in, attribute_of};
use crate::mime::{content_types, contents_of_parts, lossy_text, lossy_utf8_text, opt_type_view,
    part_bytes, part_types, ContentType, ContentTypeView};

verus! {

/// A scheduling payload found in a message, verbatim.
#[derive(Debug, Clone, PartialEq, Eq)]
pub struct Invitation {
    /// The decoded `text/calendar` part, exactly as it arrived.
    pub ics: String,
    /// The iTIP method, uppercased: `REQUEST`, `REPLY`, `CANCEL`, ...
    pub method: String,
}

/// What a line is once `METHOD:` is taken off its front.
pub open spec fn method_line(line: Seq<char>) -> Option<Seq<char>> {
    after_prefix(drop_back(line, Class::White), "METHOD:"@)
}

/// The first `METHOD:` among these lines.
pub open spec fn method_in(lines: Seq<Seq<char>>) -> Option<Seq<char>>
    decreases lines.len(),
{
    if lines.len() == 0 {
        None
    } else {
        match method_line(lines[0]) {
            Some(m) => Some(m),
            None => method_in(lines.skip(1)),
        }
    }
}

pub open spec fn is_calendar(t: Option<ContentTypeView>) -> bool {
    match t {
        Some(ct) => lowered(ct.ctype) == lowered("text"@) && ct.subtype is Some && lowered(
            ct.subtype->0,
        ) == lowered("calendar"@),
        None => false,
    }
}

/// The method of a calendar part: what its content type says, else what the
/// payload says.
pub open spec fn method_of(ct: ContentTypeView, ics: Seq<char>) -> Option<Seq<char>> {
    match attribute_in(ct.attributes, "method"@) {
        Some(m) => Some(m),
        None => method_in(text_lines(ics)),
    }
}

/// The payload of the first calendar part with a method, and that method. One
/// without a method is published calendar data, and is passed over.
pub open spec fn invitation_in(types: Seq<Option<ContentTypeView>>, contents: Seq<Seq<u8>>) -> Option<
    (Seq<char>, Seq<char>),
>
    decreases types.len(),
{
    if types.len() == 0 || contents.len() == 0 {
        None
    } else if is_calendar(types[0]) {
        let ics = lossy_text(contents[0]);
        match method_of(types[0]->0, ics) {
            Some(m) => Some((ics, uppered(trimmed(m)))),
            None => invitation_in(types.skip(1), contents.skip(1)),
        }
    } else {
        invitation_in(types.skip(1), contents.skip(1))
    }
}

/// The `METHOD:` property of an iCalendar text, if any: a line scan, not an
/// iCalendar parse.
#[must_use]
pub fn method_property(ics: &str) -> (r: Option<String>)
    ensures
        opt_text(r) == method_in(text_lines(ics@)),
{
    let ls: Vec<Vec<char>> = lines_of(&to_chars(ics));
    let ghost all = pieces(ls@);
    let mut i: usize = 0;
    assert(all.skip(0) =~= all);
    while i < ls.len()
        invariant
            i <= ls@.len(),
            all == pieces(ls@),
            method_in(all.skip(i as int)) == method_in(all),
            all == text_lines(ics@),
        decreases ls@.len() - i,
    {
        proof {
            assert(all.skip(i as int)[0] == ls@[i as int]@);
            assert(all.skip(i as int).skip(1) =~= all.skip(i + 1));
        }
        if let Some(m) = strip_prefix_of(drop_back_of(&ls[i], Class::White), "METHOD:") {
            return Some(to_text(m));
        }
        i = i + 1;
    }
    None
}

fn is_calendar_type(t: &Option<ContentType>) -> (r: bool)
    ensures
        r == is_calendar(opt_type_view(*t)),
{
    match t {
        Some(ct) => match &ct.subtype {
            Some(sub) => same_folded(&to_chars(&ct.ctype), "text") && same_folded(
                &to_chars(sub),
                "calendar",
            ),
            None => false,
        },
        None => false,
    }
}

/// The first calendar part with a method, from the content types and contents of
/// a message's parts.
#[must_use]
pub fn find_invitation(types: &Vec<Option<ContentType>>, contents: &Vec<Vec<u8>>) -> (r: Option<
    Invitation,
>)
    ensures
        match r {
            Some(i) => invitation_in(
                types@.map_values(|t: Option<ContentType>| opt_type_view(t)),
                crate::bytes::contents_of(contents@),
            ) == Some((i.ics@, i.method@)),
            None => invitation_in(
                types@.map_values(|t: Option<ContentType>| opt_type_view(t)),
                crate::bytes::contents_of(contents@),
            ) is None,
        },
{
    let ghost ts = types@.map_values(|t: Option<ContentType>| opt_type_view(t));
    let ghost cs = crate::bytes::contents_of(contents@);
    let mut i: usize = 0;
    assert(ts.skip(0) =~= ts && cs.skip(0) =~= cs);
    while i < types.len() && i < contents.len()
        invariant
            i <= types@.len(),
            i <= contents@.len(),
            ts == types@.map_values(|t: Option<ContentType>| opt_type_view(t)),
            cs == crate::bytes::contents_of(contents@),
            invitation_in(ts.skip(i as int), cs.skip(i as int)) == invitation_in(ts, cs),
        decreases types@.len() - i,
    {
        proof {
            assert(ts.skip(i as int)[0] == opt_type_view(types@[i as int]));
            assert(cs.skip(i as int)[0] == contents@[i as int]@);
            assert(ts.skip(i as int).skip(1) =~= ts.skip(i + 1));
            assert(cs.skip(i as int).skip(1) =~= cs.skip(i + 1));
        }
        if is_calendar_type(&types[i]) {
            if let Some(ct) = &types[i] {
                let ics: String = lossy_utf8_text(&contents[i]);
                let method: Option<String> = match attribute_of(ct, "method") {
                    Some(m) => Some(m),
                    None => method_property(&ics),
                };
                if let Some(m) = method {
                    let v: Vec<char> = to_chars(&m);
                    return Some(Invitation { ics, method: to_text(&upper_of(trim_of(&v))) });
                }
            }
        }
        i = i + 1;
    }
    None
}

/// The first `text/calendar` part with a `METHOD`, if the message carries one.
#[must_use]
pub fn invitation(raw: &[u8]) -> (r: Option<Invitation>)
    ensures
        match (part_types(raw@), part_bytes(raw@)) {
            (Some(types), Some(contents)) => match r {
                Some(i) => invitation_in(types, contents) == Some((i.ics@, i.method@)),
                None => invitation_in(types, contents) is None,
            },
            _ => r is None,
        },
{
    match (content_types(raw), contents_of_parts(raw)) {
        (Some(types), Some(contents)) => find_invitation(&types, &contents),
        _ => None,
    }
}

/// The first calendar part that has a method is the invitation, whole and as it came, with
/// the method of its content type, or of its own text where the content type names none.
pub proof fn the_first_calendar_part_counts(
    types: Seq<Option<ContentTypeView>>,
    contents: Seq<Seq<u8>>,
    k: int,
    ct: ContentTypeView,
    method: Seq<char>,
)
    requires
        0 <= k < types.len(),
        k < contents.len(),
        types[k] == Some(ct),
        lowered(ct.ctype) == "text"@,
        ct.subtype is Some,
        lowered(ct.subtype->0) == "calendar"@,
        attribute_in(ct.attributes, "method"@) == Some(method) || (attribute_in(
            ct.attributes,
            "method"@,
        ) is None && method_in(text_lines(lossy_text(contents[k]))) == Some(method)),
        forall|i: int|
            0 <= i < k ==> ((#[trigger] types[i]) is None || lowered((types[i]->0).ctype)
                != "text"@ || (types[i]->0).subtype is None || lowered(
                (types[i]->0).subtype->0,
            ) != "calendar"@),
    ensures
        invitation_in(types, contents) == Some(
            (lossy_text(contents[k]), uppered(trimmed(method))),
        ),
    decreases k,
{
    reveal_strlit("text");
    reveal_strlit("calendar");
    assert(lowered("text"@) =~= "text"@);
    assert(lowered("calendar"@) =~= "calendar"@);
    if k > 0 {
        let t = types.skip(1);
        let c = contents.skip(1);
        assert forall|i: int| 0 <= i < k - 1 implies ((#[trigger] t[i]) is None || lowered(
            (t[i]->0).ctype,
        ) != "text"@ || (t[i]->0).subtype is None || lowered((t[i]->0).subtype->0)
            != "calendar"@) by {
            assert(t[i] == types[i + 1]);
        }
        assert(types[0] is None || lowered((types[0]->0).ctype) != "text"@ || (
        types[0]->0).subtype is None || lowered((types[0]->0).subtype->0) != "calendar"@);
        the_first_calendar_part_counts(t, c, k - 1, ct, method);
    }
}

/// Nothing is an invitation without a calendar part.
pub proof fn no_invitation_without_a_calendar(
    types: Seq<Option<ContentTypeView>>,
    contents: Seq<Seq<u8>>,
)
    requires
        forall|i: int|
            0 <= i < types.len() ==> ((#[trigger] types[i]) is None || lowered(
                (types[i]->0).ctype,
            ) != "text"@ || (types[i]->0).subtype is None || lowered((types[i]->0).subtype->0)
                != "calendar"@),
    ensures
        invitation_in(types, contents) is None,
    decreases types.len(),
{
    reveal_strlit("text");
    reveal_strlit("calendar");
    assert(lowered("text"@) =~= "text"@);
    assert(lowered("calendar"@) =~= "calendar"@);
    if types.len() > 0 && contents.len() > 0 {
        assert(types[0] is None || lowered((types[0]->0).ctype) != "text"@ || (
        types[0]->0).subtype is None || lowered((types[0]->0).subtype->0) != "calendar"@);
        let t = types.skip(1);
        assert forall|i: int| 0 <= i < t.len() implies ((#[trigger] t[i]) is None || lowered(
            (t[i]->0).ctype,
        ) != "text"@ || (t[i]->0).subtype is None || lowered((t[i]->0).subtype->0)
            != "calendar"@) by {
            assert(t[i] == types[i + 1]);
        }
        no_invitation_without_a_calendar(t, contents.skip(1));
    }
}

/// The first line that begins with `METHOD:` names the method; what stands behind it on that
/// line is all of it.
pub proof fn the_first_method_line_counts(lines: Seq<Seq<char>>, k: int)
    requires
        0 <= k < lines.len(),
        crate::chars::begins(drop_back(lines[k], Class::White), "METHOD:"@),
        forall|i: int|
            0 <= i < k ==> !crate::chars::begins(
                drop_back(#[trigger] lines[i], Class::White),
                "METHOD:"@,
            ),
    ensures
        method_in(lines) is Some,
        "METHOD:"@ + method_in(lines)->0 == drop_back(lines[k], Class::White),
    decreases k,
{
    if k > 0 {
        let t = lines.skip(1);
        assert forall|i: int| 0 <= i < k - 1 implies !crate::chars::begins(
            drop_back(#[trigger] t[i], Class::White),
            "METHOD:"@,
        ) by {
            assert(t[i] == lines[i + 1]);
        }
        assert(!crate::chars::begins(drop_back(lines[0], Class::White), "METHOD:"@));
        the_first_method_line_counts(t, k - 1);
    } else {
        let l = drop_back(lines[0], Class::White);
        assert("METHOD:"@ + l.skip("METHOD:"@.len() as int) =~= l);
    }
}

} // verus!
