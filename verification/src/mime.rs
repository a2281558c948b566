//! What the MIME parser says of a message, as plain values.
//!
//! Parsing RFC 5322 and MIME is the business of the `mail_parser` crate. Each
//! function here asks it one question about the bytes of a message; the answers
//! are values of this crate's own, and everything that is decided from them is
//! decided elsewhere.

use mail_parser::{MessageParser, MimeHeaders, PartType};
use vstd::prelude::*;
use vstd::utf8::{decode_utf8, valid_utf8};

use crate::chars::{opt_text, texts};

verus! {

/// One address of an address header.
#[derive(Debug)]
pub struct Address {
    pub name: Option<String>,
    pub address: Option<String>,
}

/// A `Content-Type` field.
#[derive(Debug)]
pub struct ContentType {
    pub ctype: String,
    pub subtype: Option<String>,
    pub attributes: Vec<(String, String)>,
}

/// Where a part stands in the bytes of its message.
#[derive(Debug, Clone, Copy)]
pub struct Span {
    pub header: u32,
    pub end: u32,
}

/// An address, as contracts speak of it.
pub struct AddressView {
    pub name: Option<Seq<char>>,
    pub address: Option<Seq<char>>,
}

/// A content type, as contracts speak of it.
pub struct ContentTypeView {
    pub ctype: Seq<char>,
    pub subtype: Option<Seq<char>>,
    pub attributes: Seq<(Seq<char>, Seq<char>)>,
}

impl Address {
    pub open spec fn view(&self) -> AddressView {
        AddressView { name: opt_text(self.name), address: opt_text(self.address) }
    }
}

impl ContentType {
    pub open spec fn view(&self) -> ContentTypeView {
        ContentTypeView {
            ctype: self.ctype@,
            subtype: opt_text(self.subtype),
            attributes: self.attributes@.map_values(|a: (String, String)| (a.0@, a.1@)),
        }
    }
}

pub open spec fn addresses_view(v: Option<Vec<Address>>) -> Option<Seq<AddressView>> {
    match v {
        Some(list) => Some(list@.map_values(|a: Address| a@)),
        None => None,
    }
}

pub open spec fn texts_view(v: Option<Vec<String>>) -> Option<Seq<Seq<char>>> {
    match v {
        Some(list) => Some(texts(list@)),
        None => None,
    }
}

pub open spec fn opt_texts_view(v: Option<Vec<Option<String>>>) -> Option<Seq<Option<Seq<char>>>> {
    match v {
        Some(list) => Some(list@.map_values(|t: Option<String>| opt_text(t))),
        None => None,
    }
}

pub open spec fn opt_type_view(t: Option<ContentType>) -> Option<ContentTypeView> {
    match t {
        Some(ct) => Some(ct@),
        None => None,
    }
}

pub open spec fn types_view(v: Option<Vec<Option<ContentType>>>) -> Option<
    Seq<Option<ContentTypeView>>,
> {
    match v {
        Some(list) => Some(list@.map_values(|t: Option<ContentType>| opt_type_view(t))),
        None => None,
    }
}

pub open spec fn buffers_view(v: Option<Vec<Vec<u8>>>) -> Option<Seq<Seq<u8>>> {
    match v {
        Some(list) => Some(crate::bytes::contents_of(list@)),
        None => None,
    }
}

pub open spec fn ids_view(v: Option<Vec<u32>>) -> Option<Seq<u32>> {
    match v {
        Some(list) => Some(list@),
        None => None,
    }
}

pub open spec fn spans_view(v: Option<Vec<Span>>) -> Option<Seq<Span>> {
    match v {
        Some(list) => Some(list@),
        None => None,
    }
}

pub open spec fn opt_ids_view(v: Option<Vec<Option<Vec<u32>>>>) -> Option<Seq<Option<Seq<u32>>>> {
    match v {
        Some(list) => Some(list@.map_values(|t: Option<Vec<u32>>| ids_view(t))),
        None => None,
    }
}

/// Whether `MessageParser::parse` makes a message of the bytes.
pub uninterp spec fn parses(raw: Seq<u8>) -> bool;

/// The addresses in the last header of this name, groups flattened.
pub uninterp spec fn addresses(raw: Seq<u8>, header: Seq<char>) -> Option<Seq<AddressView>>;

/// The text of the last header of this name.
pub uninterp spec fn text_value(raw: Seq<u8>, header: Seq<char>) -> Option<Seq<char>>;

/// The texts listed in the last header of this name.
pub uninterp spec fn text_values(raw: Seq<u8>, header: Seq<char>) -> Option<Seq<Seq<char>>>;

/// The texts of every header of this name, in order.
pub uninterp spec fn header_values(raw: Seq<u8>, header: Seq<char>) -> Option<
    Seq<Option<Seq<char>>>,
>;

/// The `Date` header, in seconds since the epoch.
pub uninterp spec fn date_value(raw: Seq<u8>) -> Option<i64>;

/// The first body as HTML.
pub uninterp spec fn first_html(raw: Seq<u8>) -> Option<Seq<char>>;

/// How many text bodies there are.
pub uninterp spec fn text_count(raw: Seq<u8>) -> usize;

/// A body as plain text.
pub uninterp spec fn text_at(raw: Seq<u8>, pos: usize) -> Option<Seq<char>>;

/// The content type of each part.
pub uninterp spec fn part_types(raw: Seq<u8>) -> Option<Seq<Option<ContentTypeView>>>;

/// The decoded contents of each part.
pub uninterp spec fn part_bytes(raw: Seq<u8>) -> Option<Seq<Seq<u8>>>;

/// Where each part stands in the message.
pub uninterp spec fn part_spans(raw: Seq<u8>) -> Option<Seq<Span>>;

/// The parts directly inside each part, for the parts that are multiparts.
pub uninterp spec fn part_children(raw: Seq<u8>) -> Option<Seq<Option<Seq<u32>>>>;

/// The file name each part was given.
pub uninterp spec fn part_names(raw: Seq<u8>) -> Option<Seq<Option<Seq<char>>>>;

/// The content id of each part.
pub uninterp spec fn part_ids(raw: Seq<u8>) -> Option<Seq<Option<Seq<char>>>>;

/// The parts that are attachments.
pub uninterp spec fn attached(raw: Seq<u8>) -> Option<Seq<u32>>;

/// The text of an HTML document, as `html_to_text` renders it.
pub uninterp spec fn html_text(html: Seq<char>) -> Seq<char>;

/// The text a byte string stands for once every invalid sequence in it is
/// replaced.
pub uninterp spec fn lossy_text(bytes: Seq<u8>) -> Seq<char>;

/// Text folded to lower case by the rules of Unicode.
pub uninterp spec fn unicode_lower(s: Seq<char>) -> Seq<char>;

/// `MessageParser::parse`: whether the bytes are a message at all.
#[verifier::external_body]
pub(crate) fn is_message(raw: &[u8]) -> (r: bool)
    ensures
        r == parses(raw@),
{
    MessageParser::default().parse(raw).is_some()
}

/// `Message::header` with `HeaderValue::as_address` and `Address::iter`: the
/// addresses of one header.
#[verifier::external_body]
pub(crate) fn address_header(raw: &[u8], header: &str) -> (r: Option<Vec<Address>>)
    ensures
        addresses_view(r) == addresses(raw@, header@),
{
    let message = MessageParser::default().parse(raw)?;
    let list = message.header(header.to_owned())?.as_address()?;
    Some(
        list.iter().map(|a| Address {
            name: a.name().map(str::to_owned),
            address: a.address().map(str::to_owned),
        }).collect(),
    )
}

/// `Message::header` with `HeaderValue::as_text`: the text of one header.
#[verifier::external_body]
pub(crate) fn text_header(raw: &[u8], header: &str) -> (r: Option<String>)
    ensures
        opt_text(r) == text_value(raw@, header@),
{
    let message = MessageParser::default().parse(raw)?;
    message.header(header.to_owned())?.as_text().map(str::to_owned)
}

/// `Message::header` with `HeaderValue::as_text_list`: the texts one header
/// lists.
#[verifier::external_body]
pub(crate) fn list_header(raw: &[u8], header: &str) -> (r: Option<Vec<String>>)
    ensures
        texts_view(r) == text_values(raw@, header@),
{
    let message = MessageParser::default().parse(raw)?;
    let list = message.header(header.to_owned())?.as_text_list()?;
    Some(list.iter().map(|t| t.to_string()).collect())
}

/// `Message::header_values` with `HeaderValue::as_text`: every header of one
/// name, topmost first.
#[verifier::external_body]
pub(crate) fn every_header(raw: &[u8], header: &str) -> (r: Option<Vec<Option<String>>>)
    ensures
        opt_texts_view(r) == header_values(raw@, header@),
{
    let message = MessageParser::default().parse(raw)?;
    let values = message.header_values(header.to_owned());
    Some(values.map(|v| v.as_text().map(str::to_owned)).collect())
}

/// `Message::date` with `DateTime::to_timestamp`: when the message says it was
/// written.
#[verifier::external_body]
pub(crate) fn date_header(raw: &[u8]) -> (r: Option<i64>)
    ensures
        r == date_value(raw@),
{
    let message = MessageParser::default().parse(raw)?;
    message.date().map(|d| d.to_timestamp())
}

/// `Message::body_html`: the first body as HTML.
#[verifier::external_body]
pub(crate) fn html_body(raw: &[u8]) -> (r: Option<String>)
    ensures
        opt_text(r) == first_html(raw@),
{
    let message = MessageParser::default().parse(raw)?;
    let body = message.body_html(0)?.into_owned();
    Some(body)
}

/// `Message::text_body_count`: how many text bodies there are; none where the
/// bytes are no message.
#[verifier::external_body]
pub(crate) fn text_body_count(raw: &[u8]) -> (r: usize)
    ensures
        r == text_count(raw@),
{
    MessageParser::default().parse(raw).map_or(0, |m| m.text_body_count())
}

/// `Message::body_text`: one body as plain text.
#[verifier::external_body]
pub(crate) fn text_body(raw: &[u8], pos: usize) -> (r: Option<String>)
    ensures
        opt_text(r) == text_at(raw@, pos),
{
    let message = MessageParser::default().parse(raw)?;
    let body = message.body_text(pos)?.into_owned();
    Some(body)
}

/// `MimeHeaders::content_type` of every part.
#[verifier::external_body]
pub(crate) fn content_types(raw: &[u8]) -> (r: Option<Vec<Option<ContentType>>>)
    ensures
        types_view(r) == part_types(raw@),
{
    let message = MessageParser::default().parse(raw)?;
    Some(message.parts.iter().map(|p| p.content_type().map(|t| ContentType {
        ctype: t.ctype().to_owned(),
        subtype: t.subtype().map(str::to_owned),
        attributes: t.attributes().unwrap_or_default().iter()
            .map(|a| (a.name.to_string(), a.value.to_string())).collect(),
    })).collect())
}

/// `MessagePart::contents` of every part: transfer encoding undone.
#[verifier::external_body]
pub(crate) fn contents_of_parts(raw: &[u8]) -> (r: Option<Vec<Vec<u8>>>)
    ensures
        buffers_view(r) == part_bytes(raw@),
{
    let message = MessageParser::default().parse(raw)?;
    Some(message.parts.iter().map(|p| p.contents().to_vec()).collect())
}

/// `MessagePart::offset_header` and `MessagePart::offset_end` of every part.
#[verifier::external_body]
pub(crate) fn spans_of_parts(raw: &[u8]) -> (r: Option<Vec<Span>>)
    ensures
        spans_view(r) == part_spans(raw@),
{
    let message = MessageParser::default().parse(raw)?;
    Some(message.parts.iter().map(|p| Span { header: p.offset_header, end: p.offset_end }).collect())
}

/// The parts inside every part whose body is `PartType::Multipart`.
#[verifier::external_body]
pub(crate) fn children_of_parts(raw: &[u8]) -> (r: Option<Vec<Option<Vec<u32>>>>)
    ensures
        opt_ids_view(r) == part_children(raw@),
{
    let message = MessageParser::default().parse(raw)?;
    Some(message.parts.iter().map(|p| match &p.body {
        PartType::Multipart(children) => Some(children.clone()),
        _ => None,
    }).collect())
}

/// `MimeHeaders::attachment_name` of every part.
#[verifier::external_body]
pub(crate) fn names_of_parts(raw: &[u8]) -> (r: Option<Vec<Option<String>>>)
    ensures
        opt_texts_view(r) == part_names(raw@),
{
    let message = MessageParser::default().parse(raw)?;
    Some(message.parts.iter().map(|p| p.attachment_name().map(str::to_owned)).collect())
}

/// `MimeHeaders::content_id` of every part.
#[verifier::external_body]
pub(crate) fn content_ids(raw: &[u8]) -> (r: Option<Vec<Option<String>>>)
    ensures
        opt_texts_view(r) == part_ids(raw@),
{
    let message = MessageParser::default().parse(raw)?;
    Some(message.parts.iter().map(|p| p.content_id().map(str::to_owned)).collect())
}

/// `Message::attachments`: which parts are attachments, in the order the
/// parser walks the MIME tree.
#[verifier::external_body]
pub(crate) fn attachment_parts(raw: &[u8]) -> (r: Option<Vec<u32>>)
    ensures
        ids_view(r) == attached(raw@),
{
    let message = MessageParser::default().parse(raw)?;
    Some(message.attachments.clone())
}

/// `mail_parser::decoders::html::html_to_text`: the text of an HTML document.
#[verifier::external_body]
pub(crate) fn html_to_text(html: &str) -> (r: String)
    ensures
        r@ == html_text(html@),
{
    mail_parser::decoders::html::html_to_text(html)
}

/// `str::from_utf8`: the text of bytes that are valid UTF-8, and nothing of
/// bytes that are not.
#[verifier::external_body]
pub(crate) fn utf8_text(bytes: &[u8]) -> (r: Option<String>)
    ensures
        match r {
            Some(s) => valid_utf8(bytes@) && s@ == decode_utf8(bytes@),
            None => !valid_utf8(bytes@),
        },
{
    std::str::from_utf8(bytes).ok().map(str::to_owned)
}

/// `String::from_utf8_lossy`: valid UTF-8 as it is, anything else with
/// replacement characters where it is invalid.
#[verifier::external_body]
pub(crate) fn lossy_utf8_text(bytes: &[u8]) -> (r: String)
    ensures
        r@ == lossy_text(bytes@),
        valid_utf8(bytes@) ==> r@ == decode_utf8(bytes@),
{
    String::from_utf8_lossy(bytes).into_owned()
}

/// `str::to_lowercase`: the Unicode lower-case form of the text.
#[verifier::external_body]
pub(crate) fn to_lowercase(s: &str) -> (r: String)
    ensures
        r@ == unicode_lower(s@),
{
    s.to_lowercase()
}

} // verus!
