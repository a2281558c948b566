//! OpenPGP for reading mail: is this signed, by whom, and can it be opened.
//!
//! The read path only. Every function takes the keys it needs as an argument, so
//! this module does not decide where a secret key lives.
//!
//! A detached signature covers the exact bytes of the MIME part it was computed
//! over. Where the bytes are kept as they came, a signature that does not match
//! them means that the message was altered: that is the loud answer, and it
//! is told apart from a signature there is no key for.

use ::pgp::composed::Deserializable;
use ::pgp::types::KeyDetails;
use vstd::prelude::*;
use vstd::utf8::{decode_utf8, valid_utf8};

use crate::bytes::{contents_of, copy_slice, same_bytes};
use crate::chars::{contains, contains_text, lower_of, lowered, same, same_folded, spells, to_chars,
    to_text, trim_of, trimmed};
use crate::dsn::{attribute_in, attribute_of};
use crate::mime::{address_header, addresses, addresses_view, children_of_parts, content_types,
    contents_of_parts, ids_view, opt_type_view, part_bytes, part_children, part_spans, part_types,
    spans_of_parts, utf8_text, Address, AddressView, ContentType, ContentTypeView, Span};

verus! {

/// A public key with its subkeys.
#[verifier::external_type_specification]
#[verifier::external_body]
pub struct ExSignedPublicKey(::pgp::composed::SignedPublicKey);

/// A secret key with its subkeys.
#[verifier::external_type_specification]
#[verifier::external_body]
pub struct ExSignedSecretKey(::pgp::composed::SignedSecretKey);

/// A signature that stands apart from what it signs.
#[verifier::external_type_specification]
#[verifier::external_body]
pub struct ExDetachedSignature(::pgp::composed::DetachedSignature);

/// A public key with its subkeys.
pub type PublicKey = ::pgp::composed::SignedPublicKey;

/// A secret key with its subkeys.
pub type SecretKey = ::pgp::composed::SignedSecretKey;

/// A signature that stands apart from what it signs.
pub type Signature = ::pgp::composed::DetachedSignature;

/// The key an armored text holds.
pub uninterp spec fn key_in(armored: Seq<char>) -> Option<PublicKey>;

/// The signature an armored text holds.
pub uninterp spec fn signature_in(armored: Seq<char>) -> Option<Signature>;

/// Does a signature hold of some bytes under a primary key?
pub uninterp spec fn primary_holds(signature: Signature, key: PublicKey, bytes: Seq<u8>) -> bool;

/// How many subkeys a key has.
pub uninterp spec fn subkeys(key: PublicKey) -> nat;

/// Does a signature hold of some bytes under one of the subkeys?
pub uninterp spec fn subkey_holds(signature: Signature, key: PublicKey, index: nat, bytes: Seq<u8>) -> bool;

/// The id of a primary key.
pub uninterp spec fn primary_id(key: PublicKey) -> Seq<u8>;

/// The id of one of the subkeys.
pub uninterp spec fn subkey_id(key: PublicKey, index: nat) -> Seq<u8>;

/// The fingerprint of a primary key, with its version.
pub uninterp spec fn primary_print(key: PublicKey) -> (Option<u8>, Seq<u8>);

/// The fingerprint of one of the subkeys, with its version.
pub uninterp spec fn subkey_print(key: PublicKey, index: nat) -> (Option<u8>, Seq<u8>);

/// The ids of the keys a signature says it is from.
pub uninterp spec fn issuer_ids(signature: Signature) -> Seq<Seq<u8>>;

/// The fingerprints of the keys a signature says it is from, each with its
/// version.
pub uninterp spec fn issuer_prints(signature: Signature) -> Seq<(Option<u8>, Seq<u8>)>;

/// `pgp::composed::Message`: a message at any stage of its opening.
#[verifier::external_body]
pub struct Sealed {
    inner: ::pgp::composed::Message<'static>,
}

/// The message an armored text holds.
pub uninterp spec fn sealed_in(armored: Seq<u8>) -> Option<Sealed>;

/// What a message is once it is decrypted with a key and its password.
pub uninterp spec fn unlocked(sealed: Sealed, secret: SecretKey, password: Seq<char>) -> Option<Sealed>;

/// Is a message compressed?
pub uninterp spec fn packed(sealed: Sealed) -> bool;

/// What a message is once it is decompressed.
pub uninterp spec fn unpacked(sealed: Sealed) -> Option<Sealed>;

/// The bytes a message holds.
pub uninterp spec fn data_in(sealed: Sealed) -> Option<Seq<u8>>;

/// `SignedPublicKey::from_string`: the key an armored text holds.
#[verifier::external_body]
pub(crate) fn read_key(armored: &str) -> (r: Option<PublicKey>)
    ensures
        r == key_in(armored@),
{
    PublicKey::from_string(armored).ok().map(|read| read.0)
}

/// `DetachedSignature::from_string`: the signature an armored text holds.
#[verifier::external_body]
pub(crate) fn read_signature(armored: &str) -> (r: Option<Signature>)
    ensures
        r == signature_in(armored@),
{
    Signature::from_string(armored).ok().map(|read| read.0)
}

/// `DetachedSignature::verify` with the primary key.
#[verifier::external_body]
pub(crate) fn verify_primary(signature: &Signature, key: &PublicKey, bytes: &[u8]) -> (r:
    bool)
    ensures
        r == primary_holds(*signature, *key, bytes@),
{
    signature.verify(&key.primary_key, bytes).is_ok()
}

/// How many `public_subkeys` a key has.
#[verifier::external_body]
pub(crate) fn subkey_count(key: &PublicKey) -> (r: usize)
    ensures
        r == subkeys(*key),
{
    key.public_subkeys.len()
}

/// `DetachedSignature::verify` with one of the `public_subkeys`.
#[verifier::external_body]
pub(crate) fn verify_subkey(
    signature: &Signature,
    key: &PublicKey,
    index: usize,
    bytes: &[u8],
) -> (r: bool)
    requires
        index < subkeys(*key),
    ensures
        r == subkey_holds(*signature, *key, index as nat, bytes@),
{
    signature.verify(&key.public_subkeys[index], bytes).is_ok()
}

/// `KeyDetails::legacy_key_id` of the primary key.
#[verifier::external_body]
fn id_of_primary(key: &PublicKey) -> (r: Vec<u8>)
    ensures
        r@ == primary_id(*key),
{
    key.primary_key.legacy_key_id().as_ref().to_vec()
}

/// `KeyDetails::legacy_key_id` of one of the `public_subkeys`.
#[verifier::external_body]
fn id_of_subkey(key: &PublicKey, index: usize) -> (r: Vec<u8>)
    requires
        index < subkeys(*key),
    ensures
        r@ == subkey_id(*key, index as nat),
{
    key.public_subkeys[index].legacy_key_id().as_ref().to_vec()
}

/// `KeyDetails::fingerprint` of the primary key: its version and its bytes.
#[verifier::external_body]
fn print_of_primary(key: &PublicKey) -> (r: (Option<u8>, Vec<u8>))
    ensures
        print_view(r) == primary_print(*key),
{
    let print = key.primary_key.fingerprint();
    (print.version().map(u8::from), print.as_bytes().to_vec())
}

/// `KeyDetails::fingerprint` of one of the `public_subkeys`: its version and its
/// bytes.
#[verifier::external_body]
fn print_of_subkey(key: &PublicKey, index: usize) -> (r: (Option<u8>, Vec<u8>))
    requires
        index < subkeys(*key),
    ensures
        print_view(r) == subkey_print(*key, index as nat),
{
    let print = key.public_subkeys[index].fingerprint();
    (print.version().map(u8::from), print.as_bytes().to_vec())
}

/// `Signature::issuer_key_id`.
#[verifier::external_body]
pub(crate) fn signature_ids(signature: &Signature) -> (r: Vec<Vec<u8>>)
    ensures
        contents_of(r@) == issuer_ids(*signature),
{
    signature.signature.issuer_key_id().iter().map(|id| id.as_ref().to_vec()).collect()
}

/// `Signature::issuer_fingerprint`: the versions and the bytes.
#[verifier::external_body]
pub(crate) fn signature_prints(signature: &Signature) -> (r: Vec<(Option<u8>, Vec<u8>)>)
    ensures
        prints_view(r@) == issuer_prints(*signature),
{
    let all = signature.signature.issuer_fingerprint();
    all.iter().map(|p| (p.version().map(u8::from), p.as_bytes().to_vec())).collect()
}

/// `Message::from_armor`: the message an armored text holds.
#[verifier::external_body]
fn read_sealed(armored: &[u8]) -> (r: Option<Sealed>)
    ensures
        r == sealed_in(armored@),
{
    let text = std::io::Cursor::new(armored.to_vec());
    ::pgp::composed::Message::from_armor(text).ok().map(|read| Sealed { inner: read.0 })
}

/// `Message::decrypt`: a message opened with a key and its password.
#[verifier::external_body]
fn unlock(sealed: Sealed, secret: &SecretKey, password: &str) -> (r: Option<Sealed>)
    ensures
        r == unlocked(sealed, *secret, password@),
{
    let password = ::pgp::types::Password::from(password);
    sealed.inner.decrypt(&password, secret).ok().map(|inner| Sealed { inner })
}

/// `Message::is_compressed`.
#[verifier::external_body]
fn is_packed(sealed: &Sealed) -> (r: bool)
    ensures
        r == packed(*sealed),
{
    sealed.inner.is_compressed()
}

/// `Message::decompress`.
#[verifier::external_body]
fn unpack(sealed: Sealed) -> (r: Option<Sealed>)
    ensures
        r == unpacked(sealed),
{
    sealed.inner.decompress().ok().map(|inner| Sealed { inner })
}

/// `Message::as_data_vec`: the bytes a message holds.
#[verifier::external_body]
fn read_data(sealed: Sealed) -> (r: Option<Vec<u8>>)
    ensures
        match r {
            Some(bytes) => data_in(sealed) == Some(bytes@),
            None => data_in(sealed) is None,
        },
{
    let mut sealed = sealed;
    sealed.inner.as_data_vec().ok()
}

/// What an armored message holds, opened with a key and its password: it is decrypted,
/// decompressed if it turns out compressed, and read.
pub open spec fn opened(armored: Seq<u8>, secret: SecretKey, password: Seq<char>) -> Option<
    Seq<u8>,
> {
    match sealed_in(armored) {
        Some(sealed) => match unlocked(sealed, secret, password) {
            Some(open) => if packed(open) {
                match unpacked(open) {
                    Some(flat) => data_in(flat),
                    None => None,
                }
            } else {
                data_in(open)
            },
            None => None,
        },
        None => None,
    }
}

/// Opens an armored message with a key and its password.
pub fn open_armored(armored: &[u8], secret: &SecretKey, password: &str) -> (r: Option<Vec<u8>>)
    ensures
        match r {
            Some(bytes) => opened(armored@, *secret, password@) == Some(bytes@),
            None => opened(armored@, *secret, password@) is None,
        },
{
    match read_sealed(armored) {
        Some(sealed) => match unlock(sealed, secret, password) {
            Some(open) => if is_packed(&open) {
                match unpack(open) {
                    Some(flat) => read_data(flat),
                    None => None,
                }
            } else {
                read_data(open)
            },
            None => None,
        },
        None => None,
    }
}

/// A fingerprint, with the version of its key.
pub open spec fn print_view(p: (Option<u8>, Vec<u8>)) -> (Option<u8>, Seq<u8>) {
    (p.0, p.1@)
}

pub open spec fn prints_view(v: Seq<(Option<u8>, Vec<u8>)>) -> Seq<(Option<u8>, Seq<u8>)> {
    v.map_values(|p: (Option<u8>, Vec<u8>)| print_view(p))
}

/// The ids of a key and its subkeys.
pub open spec fn ids_of_key(key: PublicKey) -> Seq<Seq<u8>> {
    seq![primary_id(key)] + Seq::new(subkeys(key), |i: int| subkey_id(key, i as nat))
}

/// The fingerprints of a key and its subkeys.
pub open spec fn prints_of_key(key: PublicKey) -> Seq<(Option<u8>, Seq<u8>)> {
    seq![primary_print(key)] + Seq::new(subkeys(key), |i: int| subkey_print(key, i as nat))
}

fn key_ids(key: &PublicKey) -> (r: Vec<Vec<u8>>)
    ensures
        contents_of(r@) == ids_of_key(*key),
{
    let n: usize = subkey_count(key);
    let mut ids: Vec<Vec<u8>> = Vec::new();
    ids.push(id_of_primary(key));
    let mut i: usize = 0;
    while i < n
        invariant
            i <= n,
            n == subkeys(*key),
            ids@.len() == i + 1,
            forall|k: int|
                0 <= k <= i ==> (#[trigger] ids@[k])@ == ids_of_key(*key)[k],
        decreases n - i,
    {
        ids.push(id_of_subkey(key, i));
        i = i + 1;
    }
    assert(contents_of(ids@) =~= ids_of_key(*key));
    ids
}

fn key_prints(key: &PublicKey) -> (r: Vec<(Option<u8>, Vec<u8>)>)
    ensures
        prints_view(r@) == prints_of_key(*key),
{
    let n: usize = subkey_count(key);
    let mut prints: Vec<(Option<u8>, Vec<u8>)> = Vec::new();
    prints.push(print_of_primary(key));
    let mut i: usize = 0;
    while i < n
        invariant
            i <= n,
            n == subkeys(*key),
            prints@.len() == i + 1,
            forall|k: int|
                0 <= k <= i ==> print_view(#[trigger] prints@[k]) == prints_of_key(*key)[k],
        decreases n - i,
    {
        prints.push(print_of_subkey(key, i));
        i = i + 1;
    }
    assert(prints_view(prints@) =~= prints_of_key(*key));
    prints
}

/// A public key and the address it was accepted for.
///
/// The binding is the point: a signature proves that the holder of some key
/// signed the bytes, and only the address this key was imported for turns that
/// into "the sender signed it".
#[derive(Debug)]
pub struct Certificate {
    pub email: String,
    pub key: PublicKey,
}

impl Certificate {
    /// Reads an ASCII-armored public key, bound to `email`.
    #[must_use]
    pub fn from_armored(email: &str, armored: &str) -> (r: Option<Self>)
        ensures
            match r {
                Some(c) => key_in(armored@) == Some(c.key) && c.email@ == lowered(trimmed(email@)),
                None => key_in(armored@) is None,
            },
    {
        match read_key(armored) {
            Some(key) => {
                let v: Vec<char> = to_chars(email);
                Some(Certificate { email: to_text(&lower_of(trim_of(&v))), key })
            },
            None => None,
        }
    }
}

/// What can be said about a message's signature.
#[derive(Debug, Clone, PartialEq, Eq)]
pub enum Verdict {
    /// No OpenPGP signature. Say nothing.
    Unsigned,
    /// Signed by a key held for the sender's own address.
    Verified { signer: String },
    /// The signature checks out, but against a key bound to someone other than
    /// the `From` address.
    SignerMismatch { signer: String },
    /// Signed by a key this device does not hold, so nothing can be concluded.
    UnknownSigner,
    /// Checked against the original bytes and failed: the message was altered
    /// after signing.
    Invalid,
}

/// A verdict, as contracts speak of it.
pub enum Judged {
    Unsigned,
    Verified { signer: Seq<char> },
    SignerMismatch { signer: Seq<char> },
    UnknownSigner,
    Invalid,
}

impl Verdict {
    pub open spec fn view(&self) -> Judged {
        match *self {
            Verdict::Unsigned => Judged::Unsigned,
            Verdict::Verified { signer } => Judged::Verified { signer: signer@ },
            Verdict::SignerMismatch { signer } => Judged::SignerMismatch { signer: signer@ },
            Verdict::UnknownSigner => Judged::UnknownSigner,
            Verdict::Invalid => Judged::Invalid,
        }
    }
}

/// What one message turned out to be.
#[derive(Debug, Clone, PartialEq, Eq)]
pub struct Examined {
    pub verdict: Verdict,
    /// Whether the body is OpenPGP-encrypted. Reported apart from the verdict,
    /// because it is not a judgement.
    pub encrypted: bool,
}

// ---- detection ----

/// Is this a content type of these two halves?
pub open spec fn is_kind(t: Option<ContentTypeView>, ctype: Seq<char>, subtype: Seq<char>) -> bool {
    match t {
        Some(ct) => lowered(ct.ctype) == lowered(ctype) && ct.subtype is Some && lowered(
            ct.subtype->0,
        ) == lowered(subtype),
        None => false,
    }
}

/// The protocol a multipart names, lower-cased.
pub open spec fn protocol(t: Option<ContentTypeView>) -> Option<Seq<char>> {
    match t {
        Some(ct) => match attribute_in(ct.attributes, "protocol"@) {
            Some(p) => Some(lowered(trimmed(p))),
            None => None,
        },
        None => None,
    }
}

/// A multipart of this kind that names this protocol. The protocol is what keeps
/// S/MIME out, which uses the same wrappers.
pub open spec fn wraps(t: Option<ContentTypeView>, subtype: Seq<char>, name: Seq<char>) -> bool {
    is_kind(t, "multipart"@, subtype) && protocol(t) == Some(name)
}

/// The first part of a list that wraps something so; the length, if none does.
pub open spec fn first_wrapper(
    types: Seq<Option<ContentTypeView>>,
    subtype: Seq<char>,
    name: Seq<char>,
) -> nat
    decreases types.len(),
{
    if types.len() == 0 || wraps(types[0], subtype, name) {
        0
    } else {
        1 + first_wrapper(types.skip(1), subtype, name)
    }
}

/// The first part of a list of this kind; the length, if there is none.
pub open spec fn first_kind(
    types: Seq<Option<ContentTypeView>>,
    ctype: Seq<char>,
    subtype: Seq<char>,
) -> nat
    decreases types.len(),
{
    if types.len() == 0 || is_kind(types[0], ctype, subtype) {
        0
    } else {
        1 + first_kind(types.skip(1), ctype, subtype)
    }
}

/// RFC 3156: `multipart/encrypted` naming the PGP protocol.
pub open spec fn encrypted_in(types: Seq<Option<ContentTypeView>>) -> bool {
    first_wrapper(types, "encrypted"@, "application/pgp-encrypted"@) < types.len()
}

/// The armored ciphertext of an encrypted message.
pub open spec fn payload_in(types: Seq<Option<ContentTypeView>>, contents: Seq<Seq<u8>>) -> Option<
    Seq<u8>,
> {
    let i = first_kind(types, "application"@, "octet-stream"@) as int;
    if encrypted_in(types) && i < types.len() && i < contents.len() {
        Some(contents[i])
    } else {
        None
    }
}

/// What a signature covers, and the armored signature: of the first wrapper's
/// two parts the first is signed, from its headers to its end, and the second
/// is the signature.
pub open spec fn signed_in(
    types: Seq<Option<ContentTypeView>>,
    children: Seq<Option<Seq<u32>>>,
    spans: Seq<Span>,
    contents: Seq<Seq<u8>>,
) -> Option<(Span, Seq<char>)> {
    let w = first_wrapper(types, "signed"@, "application/pgp-signature"@) as int;
    if w < types.len() && w < children.len() && children[w] is Some && children[w]->0.len() >= 2 {
        let content = children[w]->0[0] as int;
        let signature = children[w]->0[1] as int;
        if content < spans.len() && signature < contents.len() && valid_utf8(contents[signature])
            && contains(decode_utf8(contents[signature]), "BEGIN PGP SIGNATURE"@)
            && spans[content].header < spans[content].end {
            Some((spans[content], decode_utf8(contents[signature])))
        } else {
            None
        }
    } else {
        None
    }
}

// ---- verification ----

/// Does a signature hold of these bytes under a key or one of its subkeys?
pub open spec fn holds(signature: Signature, key: PublicKey, bytes: Seq<u8>) -> bool {
    primary_holds(signature, key, bytes) || exists|i: nat|
        i < subkeys(key) && #[trigger] subkey_holds(signature, key, i, bytes)
}

/// The bytes without the line ending at their end.
pub open spec fn without_ending(bytes: Seq<u8>) -> Seq<u8> {
    if bytes.len() >= 2 && bytes[bytes.len() - 2] == 13 && bytes[bytes.len() - 1] == 10 {
        bytes.take(bytes.len() - 2)
    } else {
        bytes
    }
}

/// Does a signature hold of the signed bytes, read with or without the line
/// ending in front of the boundary? Implementations disagree about it, and both
/// readings are narrowings of the original bytes.
pub open spec fn vouched(signature: Signature, key: PublicKey, signed: Seq<u8>) -> bool {
    holds(signature, key, signed) || holds(signature, key, without_ending(signed))
}

/// The first key that vouches for the bytes; the length, if none does.
pub open spec fn first_voucher(
    keys: Seq<Certificate>,
    signature: Signature,
    signed: Seq<u8>,
) -> nat
    decreases keys.len(),
{
    if keys.len() == 0 || vouched(signature, keys[0].key, signed) {
        0
    } else {
        1 + first_voucher(keys.skip(1), signature, signed)
    }
}

pub open spec fn meet<A>(a: Seq<A>, b: Seq<A>) -> bool {
    exists|i: int| 0 <= i < a.len() && b.contains(#[trigger] a[i])
}

/// Does a signature say it is from this key, by id or by fingerprint?
pub open spec fn claims(signature: Signature, key: PublicKey) -> bool {
    meet(issuer_ids(signature), ids_of_key(key)) || meet(
        issuer_prints(signature),
        prints_of_key(key),
    )
}

pub open spec fn claims_any(signature: Signature, keys: Seq<Certificate>) -> bool {
    exists|i: int| 0 <= i < keys.len() && claims(signature, (#[trigger] keys[i]).key)
}

/// The verdict on a signature over some bytes. A key that vouches for them
/// decides; without one, a signature that claims a key that is held was checked
/// and failed, and any other could not be checked.
pub open spec fn judged(
    signature: Option<Signature>,
    signed: Option<Seq<u8>>,
    keys: Seq<Certificate>,
    sender: Seq<char>,
) -> Judged {
    if signature is None || signed is None {
        Judged::UnknownSigner
    } else {
        let i = first_voucher(keys, signature->0, signed->0) as int;
        if i < keys.len() {
            if keys[i].email@ == sender {
                Judged::Verified { signer: keys[i].email@ }
            } else {
                Judged::SignerMismatch { signer: keys[i].email@ }
            }
        } else if claims_any(signature->0, keys) {
            Judged::Invalid
        } else {
            Judged::UnknownSigner
        }
    }
}

/// The bytes of a message in a span, if they are all there.
pub open spec fn spanned(raw: Seq<u8>, span: Span) -> Option<Seq<u8>> {
    if span.header <= span.end <= raw.len() {
        Some(raw.subrange(span.header as int, span.end as int))
    } else {
        None
    }
}

/// The address of the first sender, or nothing.
pub open spec fn sender_in(from: Option<Seq<AddressView>>) -> Seq<char> {
    match from {
        Some(list) => if list.len() > 0 && list[0].address is Some {
            lowered(trimmed(list[0].address->0))
        } else {
            Seq::empty()
        },
        None => Seq::empty(),
    }
}

/// What a message turns out to be, from what the parser says of it. The
/// signature of an encrypted message is inside the ciphertext, so nothing can be
/// said of it.
pub open spec fn examined(
    raw: Seq<u8>,
    types: Seq<Option<ContentTypeView>>,
    children: Seq<Option<Seq<u32>>>,
    spans: Seq<Span>,
    contents: Seq<Seq<u8>>,
    from: Option<Seq<AddressView>>,
    keys: Seq<Certificate>,
) -> (Judged, bool) {
    if encrypted_in(types) {
        (Judged::UnknownSigner, true)
    } else {
        match signed_in(types, children, spans, contents) {
            Some((span, armored)) => (
                judged(signature_in(armored), spanned(raw, span), keys, sender_in(from)),
                false,
            ),
            None => (Judged::Unsigned, false),
        }
    }
}

fn kind_is(t: &Option<ContentType>, ctype: &str, subtype: &str) -> (r: bool)
    ensures
        r == is_kind(opt_type_view(*t), ctype@, subtype@),
{
    match t {
        Some(ct) => match &ct.subtype {
            Some(sub) => same_folded(&to_chars(&ct.ctype), ctype) && same_folded(
                &to_chars(sub),
                subtype,
            ),
            None => false,
        },
        None => false,
    }
}

fn is_wrapper(t: &Option<ContentType>, subtype: &str, name: &str) -> (r: bool)
    ensures
        r == wraps(opt_type_view(*t), subtype@, name@),
{
    if !kind_is(t, "multipart", subtype) {
        return false;
    }
    match t {
        Some(ct) => match attribute_of(ct, "protocol") {
            Some(p) => {
                let v: Vec<char> = to_chars(&p);
                spells(&lower_of(trim_of(&v)), name)
            },
            None => false,
        },
        None => false,
    }
}

pub open spec fn types_of(v: Seq<Option<ContentType>>) -> Seq<Option<ContentTypeView>> {
    v.map_values(|t: Option<ContentType>| opt_type_view(t))
}

pub open spec fn children_of(v: Seq<Option<Vec<u32>>>) -> Seq<Option<Seq<u32>>> {
    v.map_values(|t: Option<Vec<u32>>| ids_view(t))
}

fn find_wrapper(types: &Vec<Option<ContentType>>, subtype: &str, name: &str) -> (r: usize)
    ensures
        r == first_wrapper(types_of(types@), subtype@, name@),
        r <= types@.len(),
{
    let ghost all = types_of(types@);
    let mut i: usize = 0;
    assert(all.skip(0) =~= all);
    while i < types.len()
        invariant
            i <= types@.len(),
            all == types_of(types@),
            first_wrapper(all, subtype@, name@) == i + first_wrapper(
                all.skip(i as int),
                subtype@,
                name@,
            ),
        decreases types@.len() - i,
    {
        proof {
            assert(all.skip(i as int)[0] == opt_type_view(types@[i as int]));
            assert(all.skip(i as int).skip(1) =~= all.skip(i + 1));
        }
        if is_wrapper(&types[i], subtype, name) {
            return i;
        }
        i = i + 1;
    }
    i
}

fn find_kind(types: &Vec<Option<ContentType>>, ctype: &str, subtype: &str) -> (r: usize)
    ensures
        r == first_kind(types_of(types@), ctype@, subtype@),
        r <= types@.len(),
{
    let ghost all = types_of(types@);
    let mut i: usize = 0;
    assert(all.skip(0) =~= all);
    while i < types.len()
        invariant
            i <= types@.len(),
            all == types_of(types@),
            first_kind(all, ctype@, subtype@) == i + first_kind(
                all.skip(i as int),
                ctype@,
                subtype@,
            ),
        decreases types@.len() - i,
    {
        proof {
            assert(all.skip(i as int)[0] == opt_type_view(types@[i as int]));
            assert(all.skip(i as int).skip(1) =~= all.skip(i + 1));
        }
        if kind_is(&types[i], ctype, subtype) {
            return i;
        }
        i = i + 1;
    }
    i
}

/// RFC 3156: does a message of parts of these types have a `multipart/encrypted`
/// naming the PGP protocol?
#[must_use]
pub fn is_pgp_encrypted(types: &Vec<Option<ContentType>>) -> (r: bool)
    ensures
        r == encrypted_in(types_of(types@)),
{
    find_wrapper(types, "encrypted", "application/pgp-encrypted") < types.len()
}

/// The armored ciphertext of an encrypted message, from its parts.
#[must_use]
pub fn encrypted_payload(types: &Vec<Option<ContentType>>, contents: &Vec<Vec<u8>>) -> (r: Option<
    Vec<u8>,
>)
    ensures
        match r {
            Some(bytes) => payload_in(types_of(types@), contents_of(contents@)) == Some(bytes@),
            None => payload_in(types_of(types@), contents_of(contents@)) is None,
        },
{
    if !is_pgp_encrypted(types) {
        return None;
    }
    let i: usize = find_kind(types, "application", "octet-stream");
    if i < types.len() && i < contents.len() {
        assert(contents_of(contents@)[i as int] == contents@[i as int]@);
        Some(copy_slice(&contents[i]))
    } else {
        None
    }
}

/// What a signature covers, and the armored signature, from a message's parts.
#[must_use]
pub fn signed_parts(
    types: &Vec<Option<ContentType>>,
    children: &Vec<Option<Vec<u32>>>,
    spans: &Vec<Span>,
    contents: &Vec<Vec<u8>>,
) -> (r: Option<(Span, String)>)
    ensures
        match r {
            Some((span, armored)) => signed_in(
                types_of(types@),
                children_of(children@),
                spans@,
                contents_of(contents@),
            ) == Some((span, armored@)),
            None => signed_in(
                types_of(types@),
                children_of(children@),
                spans@,
                contents_of(contents@),
            ) is None,
        },
{
    let w: usize = find_wrapper(types, "signed", "application/pgp-signature");
    if w >= types.len() || w >= children.len() {
        return None;
    }
    assert(children_of(children@)[w as int] == ids_view(children@[w as int]));
    let ids: &Vec<u32> = match &children[w] {
        Some(ids) => ids,
        None => {
            return None;
        },
    };
    if ids.len() < 2 {
        return None;
    }
    let content: usize = ids[0] as usize;
    let signature: usize = ids[1] as usize;
    if content >= spans.len() || signature >= contents.len() {
        return None;
    }
    assert(contents_of(contents@)[signature as int] == contents@[signature as int]@);
    let armored: String = match utf8_text(&contents[signature]) {
        Some(text) => text,
        None => {
            return None;
        },
    };
    if !contains_text(&to_chars(&armored), "BEGIN PGP SIGNATURE") {
        return None;
    }
    let span: Span = spans[content];
    if span.header < span.end {
        Some((span, armored))
    } else {
        None
    }
}

fn is_held(signature: &Signature, key: &PublicKey, bytes: &[u8]) -> (r: bool)
    ensures
        r == holds(*signature, *key, bytes@),
{
    if verify_primary(signature, key, bytes) {
        return true;
    }
    let n: usize = subkey_count(key);
    let mut i: usize = 0;
    while i < n
        invariant
            i <= n,
            n == subkeys(*key),
            !primary_holds(*signature, *key, bytes@),
            forall|k: nat| k < i ==> !#[trigger] subkey_holds(*signature, *key, k, bytes@),
        decreases n - i,
    {
        if verify_subkey(signature, key, i, bytes) {
            assert(subkey_holds(*signature, *key, i as nat, bytes@));
            return true;
        }
        i = i + 1;
    }
    false
}

fn trim_ending(bytes: &[u8]) -> (r: &[u8])
    ensures
        r@ == without_ending(bytes@),
{
    let n: usize = bytes.len();
    if n >= 2 && bytes[n - 2] == 13 && bytes[n - 1] == 10 {
        crate::bytes::head_of(bytes, n - 2)
    } else {
        bytes
    }
}

fn do_meet(a: &Vec<Vec<u8>>, b: &Vec<Vec<u8>>) -> (r: bool)
    ensures
        r == meet(contents_of(a@), contents_of(b@)),
{
    let ghost xs = contents_of(a@);
    let ghost ys = contents_of(b@);
    let mut i: usize = 0;
    while i < a.len()
        invariant
            i <= a@.len(),
            xs == contents_of(a@),
            ys == contents_of(b@),
            forall|k: int| 0 <= k < i ==> !ys.contains(#[trigger] xs[k]),
        decreases a@.len() - i,
    {
        let mut j: usize = 0;
        while j < b.len()
            invariant
                i < a@.len(),
                j <= b@.len(),
                xs == contents_of(a@),
                ys == contents_of(b@),
                forall|k: int| 0 <= k < j ==> #[trigger] ys[k] != xs[i as int],
            decreases b@.len() - j,
        {
            if same_bytes(&a[i], &b[j]) {
                assert(xs[i as int] == a@[i as int]@);
                assert(ys[j as int] == b@[j as int]@);
                assert(ys.contains(xs[i as int]));
                return true;
            }
            assert(ys[j as int] == b@[j as int]@);
            j = j + 1;
        }
        i = i + 1;
    }
    false
}

fn same_print(a: &(Option<u8>, Vec<u8>), b: &(Option<u8>, Vec<u8>)) -> (r: bool)
    ensures
        r == (print_view(*a) == print_view(*b)),
{
    let versions: bool = match (a.0, b.0) {
        (Some(x), Some(y)) => x == y,
        (None, None) => true,
        _ => false,
    };
    versions && same_bytes(&a.1, &b.1)
}

fn do_prints_meet(a: &Vec<(Option<u8>, Vec<u8>)>, b: &Vec<(Option<u8>, Vec<u8>)>) -> (r: bool)
    ensures
        r == meet(prints_view(a@), prints_view(b@)),
{
    let ghost xs = prints_view(a@);
    let ghost ys = prints_view(b@);
    let mut i: usize = 0;
    while i < a.len()
        invariant
            i <= a@.len(),
            xs == prints_view(a@),
            ys == prints_view(b@),
            forall|k: int| 0 <= k < i ==> !ys.contains(#[trigger] xs[k]),
        decreases a@.len() - i,
    {
        let mut j: usize = 0;
        while j < b.len()
            invariant
                i < a@.len(),
                j <= b@.len(),
                xs == prints_view(a@),
                ys == prints_view(b@),
                forall|k: int| 0 <= k < j ==> #[trigger] ys[k] != xs[i as int],
            decreases b@.len() - j,
        {
            assert(xs[i as int] == print_view(a@[i as int]));
            assert(ys[j as int] == print_view(b@[j as int]));
            if same_print(&a[i], &b[j]) {
                assert(ys.contains(xs[i as int]));
                return true;
            }
            j = j + 1;
        }
        i = i + 1;
    }
    false
}

fn is_claimed(signature: &Signature, key: &PublicKey) -> (r: bool)
    ensures
        r == claims(*signature, *key),
{
    do_meet(&signature_ids(signature), &key_ids(key)) || do_prints_meet(
        &signature_prints(signature),
        &key_prints(key),
    )
}

/// Whether the signature claims to come from a key that is held.
///
/// The issuer is unauthenticated, but that cuts the right way: claiming a key
/// that is held, and then failing against it, is exactly the tampering case.
#[must_use]
pub fn signed_by_any(signature: &Signature, keys: &[Certificate]) -> (r: bool)
    ensures
        r == claims_any(*signature, keys@),
{
    let mut i: usize = 0;
    while i < keys.len()
        invariant
            i <= keys@.len(),
            forall|k: int| 0 <= k < i ==> !claims(*signature, (#[trigger] keys@[k]).key),
        decreases keys@.len() - i,
    {
        if is_claimed(signature, &keys[i].key) {
            assert(claims(*signature, keys@[i as int].key));
            return true;
        }
        i = i + 1;
    }
    false
}

/// Verifies a detached signature over the exact transmitted bytes.
#[must_use]
pub fn verify_detached(signed: &[u8], signature: &Signature, keys: &[Certificate], sender: &str)
    -> (r: Verdict)
    ensures
        r@ == judged(Some(*signature), Some(signed@), keys@, sender@),
{
    let trimmed_bytes: &[u8] = trim_ending(signed);
    let mut i: usize = 0;
    assert(keys@.skip(0) =~= keys@);
    while i < keys.len()
        invariant
            i <= keys@.len(),
            trimmed_bytes@ == without_ending(signed@),
            first_voucher(keys@, *signature, signed@) == i + first_voucher(
                keys@.skip(i as int),
                *signature,
                signed@,
            ),
        decreases keys@.len() - i,
    {
        proof {
            assert(keys@.skip(i as int)[0] == keys@[i as int]);
            assert(keys@.skip(i as int).skip(1) =~= keys@.skip(i + 1));
        }
        if is_held(signature, &keys[i].key, signed) || is_held(
            signature,
            &keys[i].key,
            trimmed_bytes,
        ) {
            let signer: String = keys[i].email.clone();
            return if same(&keys[i].email, sender) {
                Verdict::Verified { signer }
            } else {
                Verdict::SignerMismatch { signer }
            };
        }
        i = i + 1;
    }
    if signed_by_any(signature, keys) {
        Verdict::Invalid
    } else {
        Verdict::UnknownSigner
    }
}

fn judge(raw: &[u8], span: Span, armored: &str, keys: &[Certificate], sender: &str) -> (r: Verdict)
    ensures
        r@ == judged(signature_in(armored@), spanned(raw@, span), keys@, sender@),
{
    let signature: Signature = match read_signature(armored) {
        Some(signature) => signature,
        None => {
            return Verdict::UnknownSigner;
        },
    };
    let start: usize = span.header as usize;
    let end: usize = span.end as usize;
    if start > end || end > raw.len() {
        return Verdict::UnknownSigner;
    }
    let signed: &[u8] = &raw[start..end];
    verify_detached(signed, &signature, keys, sender)
}

fn sender_address(from: &Option<Vec<Address>>) -> (r: String)
    ensures
        r@ == sender_in(addresses_view(*from)),
{
    let none: String = String::new();
    assert(none@ =~= Seq::<char>::empty());
    match from {
        Some(list) => {
            if list.len() == 0 {
                return none;
            }
            assert(list@.map_values(|a: Address| a@)[0] == list@[0]@);
            match &list[0].address {
                Some(address) => {
                    let v: Vec<char> = to_chars(address);
                    to_text(&lower_of(trim_of(&v)))
                },
                None => none,
            }
        },
        None => none,
    }
}

/// Examines a message's OpenPGP state, from what the parser says of it.
#[must_use]
pub fn examine_parts(
    raw: &[u8],
    types: &Vec<Option<ContentType>>,
    children: &Vec<Option<Vec<u32>>>,
    spans: &Vec<Span>,
    contents: &Vec<Vec<u8>>,
    from: &Option<Vec<Address>>,
    keys: &[Certificate],
) -> (r: Examined)
    ensures
        (r.verdict@, r.encrypted) == examined(
            raw@,
            types_of(types@),
            children_of(children@),
            spans@,
            contents_of(contents@),
            addresses_view(*from),
            keys@,
        ),
{
    if is_pgp_encrypted(types) {
        return Examined { verdict: Verdict::UnknownSigner, encrypted: true };
    }
    let verdict: Verdict = match signed_parts(types, children, spans, contents) {
        Some((span, armored)) => judge(raw, span, &armored, keys, &sender_address(from)),
        None => Verdict::Unsigned,
    };
    Examined { verdict, encrypted: false }
}

/// Everything the parser says of the parts of a message, where it says all of
/// it.
pub open spec fn all_said(raw: Seq<u8>) -> bool {
    part_types(raw) is Some && part_children(raw) is Some && part_spans(raw) is Some && part_bytes(
        raw,
    ) is Some
}

/// Examines a message's OpenPGP state without needing a secret key.
///
/// Takes the raw RFC 5322 bytes: the MIME structure and the byte offsets are
/// exactly what a detached signature is computed over.
#[must_use]
pub fn examine(raw: &[u8], keys: &[Certificate]) -> (r: Examined)
    ensures
        (r.verdict@, r.encrypted) == (if all_said(raw@) {
            examined(
                raw@,
                part_types(raw@)->0,
                part_children(raw@)->0,
                part_spans(raw@)->0,
                part_bytes(raw@)->0,
                addresses(raw@, "From"@),
                keys@,
            )
        } else {
            (Judged::Unsigned, false)
        }),
{
    match (content_types(raw), children_of_parts(raw), spans_of_parts(raw), contents_of_parts(raw)) {
        (Some(types), Some(children), Some(spans), Some(contents)) => examine_parts(
            raw,
            &types,
            &children,
            &spans,
            &contents,
            &address_header(raw, "From"),
            keys,
        ),
        _ => Examined { verdict: Verdict::Unsigned, encrypted: false },
    }
}

/// What decrypting a message gives.
pub open spec fn decrypted(raw: Seq<u8>, secret: SecretKey, password: Seq<char>) -> Option<
    Seq<u8>,
> {
    match (part_types(raw), part_bytes(raw)) {
        (Some(types), Some(contents)) => match payload_in(types, contents) {
            Some(armored) => opened(armored, secret, password),
            None => None,
        },
        _ => None,
    }
}

/// Decrypts a PGP/MIME message, returning the inner MIME entity's bytes.
///
/// `None` when the message is not PGP-encrypted, when this key cannot open it, or
/// when the ciphertext is damaged; the three are deliberately not told apart.
#[must_use]
pub fn decrypt(raw: &[u8], secret: &SecretKey, password: &str) -> (r: Option<Vec<u8>>)
    ensures
        match r {
            Some(bytes) => decrypted(raw@, *secret, password@) == Some(bytes@),
            None => decrypted(raw@, *secret, password@) is None,
        },
{
    match (content_types(raw), contents_of_parts(raw)) {
        (Some(types), Some(contents)) => match encrypted_payload(&types, &contents) {
            Some(armored) => open_armored(&armored, secret, password),
            None => None,
        },
        _ => None,
    }
}

/// Holding keys of other people never turns a stranger's signature into evidence
/// of tampering: without a key that the signature claims, the verdict is never
/// that the message was altered.
pub proof fn a_stranger_is_no_forger(
    signature: Signature,
    signed: Seq<u8>,
    keys: Seq<Certificate>,
    sender: Seq<char>,
)
    requires
        !claims_any(signature, keys),
    ensures
        judged(Some(signature), Some(signed), keys, sender) != Judged::Invalid,
{
}

/// A message is verified only by a key that is held for its sender's address and
/// vouches for its bytes.
pub proof fn only_the_senders_key_verifies(
    signature: Signature,
    signed: Seq<u8>,
    keys: Seq<Certificate>,
    sender: Seq<char>,
)
    requires
        judged(Some(signature), Some(signed), keys, sender) is Verified,
    ensures
        exists|i: int|
            0 <= i < keys.len() && (#[trigger] keys[i]).email@ == sender && vouched(
                signature,
                keys[i].key,
                signed,
            ),
{
    lemma_first_voucher(keys, signature, signed);
    let i = first_voucher(keys, signature, signed) as int;
    assert(keys[i].email@ == sender);
}

proof fn lemma_first_voucher(keys: Seq<Certificate>, signature: Signature, signed: Seq<u8>)
    ensures
        first_voucher(keys, signature, signed) < keys.len() ==> vouched(
            signature,
            keys[first_voucher(keys, signature, signed) as int].key,
            signed,
        ),
    decreases keys.len(),
{
    if keys.len() > 0 && !vouched(signature, keys[0].key, signed) {
        lemma_first_voucher(keys.skip(1), signature, signed);
    }
}

/// The first key that a signature holds under decides: it verifies a message from the address
/// it is held for, and names the signer of any other. A signature holds under a key or any of
/// its subkeys, of the signed bytes, or of those bytes without the line ending behind them.
pub proof fn the_first_key_that_holds_decides(
    signature: Signature,
    signed: Seq<u8>,
    keys: Seq<Certificate>,
    sender: Seq<char>,
    k: int,
    bytes: Seq<u8>,
)
    requires
        0 <= k < keys.len(),
        bytes == signed || bytes + seq![13u8, 10u8] == signed,
        primary_holds(signature, keys[k].key, bytes) || exists|i: nat|
            i < subkeys(keys[k].key) && #[trigger] subkey_holds(signature, keys[k].key, i, bytes),
        forall|j: int| 0 <= j < k ==> !vouched(signature, (#[trigger] keys[j]).key, signed),
    ensures
        keys[k].email@ == sender ==> judged(Some(signature), Some(signed), keys, sender)
            == (Judged::Verified { signer: sender }),
        keys[k].email@ != sender ==> judged(Some(signature), Some(signed), keys, sender)
            == (Judged::SignerMismatch { signer: keys[k].email@ }),
{
    if bytes != signed {
        assert(signed[signed.len() - 2] == 13 && signed[signed.len() - 1] == 10);
        assert(signed.take(signed.len() - 2) =~= bytes);
    }
    assert(vouched(signature, keys[k].key, signed));
    lemma_voucher_is(keys, signature, signed, k);
}

proof fn lemma_voucher_is(keys: Seq<Certificate>, signature: Signature, signed: Seq<u8>, k: int)
    requires
        0 <= k < keys.len(),
        vouched(signature, keys[k].key, signed),
        forall|j: int| 0 <= j < k ==> !vouched(signature, (#[trigger] keys[j]).key, signed),
    ensures
        first_voucher(keys, signature, signed) == k,
    decreases k,
{
    if k > 0 {
        assert(!vouched(signature, keys[0].key, signed));
        let t = keys.skip(1);
        assert forall|j: int| 0 <= j < k - 1 implies !vouched(
            signature,
            (#[trigger] t[j]).key,
            signed,
        ) by {
            assert(t[j] == keys[j + 1]);
        }
        lemma_voucher_is(t, signature, signed, k - 1);
    }
}

proof fn lemma_no_voucher(keys: Seq<Certificate>, signature: Signature, signed: Seq<u8>)
    requires
        forall|j: int|
            0 <= j < keys.len() ==> !vouched(signature, (#[trigger] keys[j]).key, signed),
    ensures
        first_voucher(keys, signature, signed) == keys.len(),
    decreases keys.len(),
{
    if keys.len() > 0 {
        assert(!vouched(signature, keys[0].key, signed));
        let t = keys.skip(1);
        assert forall|j: int| 0 <= j < t.len() implies !vouched(
            signature,
            (#[trigger] t[j]).key,
            signed,
        ) by {
            assert(t[j] == keys[j + 1]);
        }
        lemma_no_voucher(t, signature, signed);
    }
}

/// Where no key bears a signature out, it is a broken one exactly if it names a key that is
/// held: the key itself or one of its subkeys, by id or by fingerprint. Otherwise nothing is
/// known of its signer.
pub proof fn when_a_signature_is_broken(
    signature: Signature,
    signed: Seq<u8>,
    keys: Seq<Certificate>,
    sender: Seq<char>,
)
    requires
        forall|j: int, i: nat, b: Seq<u8>|
            0 <= j < keys.len() && (b == signed || b == without_ending(signed)) && i < subkeys(
                keys[j].key,
            ) ==> !#[trigger] subkey_holds(signature, keys[j].key, i, b),
        forall|j: int, b: Seq<u8>|
            0 <= j < keys.len() && (b == signed || b == without_ending(signed))
                ==> !#[trigger] primary_holds(signature, keys[j].key, b),
    ensures
        ({
            let named = exists|j: int|
                0 <= j < keys.len() && {
                    let key = (#[trigger] keys[j]).key;
                    ||| issuer_ids(signature).contains(primary_id(key))
                    ||| issuer_prints(signature).contains(primary_print(key))
                    ||| exists|i: nat|
                        i < subkeys(key) && issuer_ids(signature).contains(
                            #[trigger] subkey_id(key, i),
                        )
                    ||| exists|i: nat|
                        i < subkeys(key) && issuer_prints(signature).contains(
                            #[trigger] subkey_print(key, i),
                        )
                };
            let v = judged(Some(signature), Some(signed), keys, sender);
            (named ==> v is Invalid) && (!named ==> v is UnknownSigner)
        }),
{
    assert forall|j: int| 0 <= j < keys.len() implies !vouched(
        signature,
        (#[trigger] keys[j]).key,
        signed,
    ) by {}
    lemma_no_voucher(keys, signature, signed);
    assert forall|j: int| 0 <= j < keys.len() implies claims(signature, (#[trigger] keys[j]).key)
        == ({
        let key = keys[j].key;
        ||| issuer_ids(signature).contains(primary_id(key))
        ||| issuer_prints(signature).contains(primary_print(key))
        ||| exists|i: nat|
            i < subkeys(key) && issuer_ids(signature).contains(#[trigger] subkey_id(key, i))
        ||| exists|i: nat|
            i < subkeys(key) && issuer_prints(signature).contains(#[trigger] subkey_print(key, i))
    }) by {
        lemma_named(signature, keys[j].key);
    }
}

proof fn lemma_named(signature: Signature, key: PublicKey)
    ensures
        claims(signature, key) == ({
            ||| issuer_ids(signature).contains(primary_id(key))
            ||| issuer_prints(signature).contains(primary_print(key))
            ||| exists|i: nat|
                i < subkeys(key) && issuer_ids(signature).contains(#[trigger] subkey_id(key, i))
            ||| exists|i: nat|
                i < subkeys(key) && issuer_prints(signature).contains(
                    #[trigger] subkey_print(key, i),
                )
        }),
{
    lemma_met(
        issuer_ids(signature),
        primary_id(key),
        Seq::new(subkeys(key), |i: int| subkey_id(key, i as nat)),
    );
    lemma_met(
        issuer_prints(signature),
        primary_print(key),
        Seq::new(subkeys(key), |i: int| subkey_print(key, i as nat)),
    );
    let ids = Seq::new(subkeys(key), |i: int| subkey_id(key, i as nat));
    let prints = Seq::new(subkeys(key), |i: int| subkey_print(key, i as nat));
    if exists|i: int| 0 <= i < ids.len() && issuer_ids(signature).contains(#[trigger] ids[i]) {
        let i = choose|i: int|
            0 <= i < ids.len() && issuer_ids(signature).contains(#[trigger] ids[i]);
        assert(issuer_ids(signature).contains(subkey_id(key, i as nat)));
    }
    if exists|i: nat|
        i < subkeys(key) && issuer_ids(signature).contains(#[trigger] subkey_id(key, i)) {
        let i = choose|i: nat|
            i < subkeys(key) && issuer_ids(signature).contains(#[trigger] subkey_id(key, i));
        assert(ids[i as int] == subkey_id(key, i));
    }
    if exists|i: int|
        0 <= i < prints.len() && issuer_prints(signature).contains(#[trigger] prints[i]) {
        let i = choose|i: int|
            0 <= i < prints.len() && issuer_prints(signature).contains(#[trigger] prints[i]);
        assert(issuer_prints(signature).contains(subkey_print(key, i as nat)));
    }
    if exists|i: nat|
        i < subkeys(key) && issuer_prints(signature).contains(#[trigger] subkey_print(key, i)) {
        let i = choose|i: nat|
            i < subkeys(key) && issuer_prints(signature).contains(#[trigger] subkey_print(key, i));
        assert(prints[i as int] == subkey_print(key, i));
    }
}

proof fn lemma_met<A>(a: Seq<A>, first: A, rest: Seq<A>)
    ensures
        meet(a, seq![first] + rest) <==> a.contains(first) || exists|i: int|
            0 <= i < rest.len() && a.contains(#[trigger] rest[i]),
{
    let b = seq![first] + rest;
    if meet(a, b) {
        let i = choose|i: int| 0 <= i < a.len() && b.contains(#[trigger] a[i]);
        let m = choose|m: int| 0 <= m < b.len() && b[m] == a[i];
        assert(a.contains(b[m]));
        if m > 0 {
            assert(rest[m - 1] == b[m]);
        }
    }
    if a.contains(first) {
        let i = choose|i: int| 0 <= i < a.len() && a[i] == first;
        assert(b[0] == a[i]);
        assert(b.contains(a[i]));
    }
    if exists|i: int| 0 <= i < rest.len() && a.contains(#[trigger] rest[i]) {
        let m = choose|m: int| 0 <= m < rest.len() && a.contains(#[trigger] rest[m]);
        let i = choose|i: int| 0 <= i < a.len() && a[i] == rest[m];
        assert(b[m + 1] == a[i]);
        assert(b.contains(a[i]));
    }
}

/// A message is encrypted where some part of it is a `multipart/encrypted` for OpenPGP.
pub proof fn when_a_message_is_encrypted(types: Seq<Option<ContentTypeView>>)
    ensures
        encrypted_in(types) <==> exists|i: int|
            0 <= i < types.len() && (#[trigger] types[i]) is Some && lowered((types[i]->0).ctype)
                == lowered("multipart"@) && (types[i]->0).subtype is Some && lowered(
                (types[i]->0).subtype->0,
            ) == lowered("encrypted"@) && (attribute_in((types[i]->0).attributes, "protocol"@)
                matches Some(p) && lowered(trimmed(p)) == "application/pgp-encrypted"@),
    decreases types.len(),
{
    if types.len() > 0 {
        let t = types.skip(1);
        when_a_message_is_encrypted(t);
        if wraps(types[0], "encrypted"@, "application/pgp-encrypted"@) {
            assert(types[0] is Some);
        } else {
            assert forall|i: int| 0 <= i < t.len() implies t[i] == types[i + 1] by {}
            if encrypted_in(t) {
                let i = choose|i: int|
                    0 <= i < t.len() && (#[trigger] t[i]) is Some && lowered((t[i]->0).ctype)
                        == lowered("multipart"@) && (t[i]->0).subtype is Some && lowered(
                        (t[i]->0).subtype->0,
                    ) == lowered("encrypted"@) && (attribute_in((t[i]->0).attributes, "protocol"@)
                        matches Some(p) && lowered(trimmed(p)) == "application/pgp-encrypted"@);
                assert(types[i + 1] == t[i]);
            }
            if exists|i: int|
                0 <= i < types.len() && (#[trigger] types[i]) is Some && lowered(
                    (types[i]->0).ctype,
                ) == lowered("multipart"@) && (types[i]->0).subtype is Some && lowered(
                    (types[i]->0).subtype->0,
                ) == lowered("encrypted"@) && (attribute_in(
                    (types[i]->0).attributes,
                    "protocol"@,
                ) matches Some(p) && lowered(trimmed(p)) == "application/pgp-encrypted"@) {
                let i = choose|i: int|
                    0 <= i < types.len() && (#[trigger] types[i]) is Some && lowered(
                        (types[i]->0).ctype,
                    ) == lowered("multipart"@) && (types[i]->0).subtype is Some && lowered(
                        (types[i]->0).subtype->0,
                    ) == lowered("encrypted"@) && (attribute_in(
                        (types[i]->0).attributes,
                        "protocol"@,
                    ) matches Some(p) && lowered(trimmed(p)) == "application/pgp-encrypted"@);
                assert(i > 0);
                assert(t[i - 1] == types[i]);
            }
        }
    }
}

proof fn lemma_wrapper_is(
    types: Seq<Option<ContentTypeView>>,
    subtype: Seq<char>,
    name: Seq<char>,
    w: int,
)
    requires
        0 <= w < types.len(),
        wraps(types[w], subtype, name),
        forall|i: int| 0 <= i < w ==> !wraps(#[trigger] types[i], subtype, name),
    ensures
        first_wrapper(types, subtype, name) == w,
    decreases w,
{
    if w > 0 {
        assert(!wraps(types[0], subtype, name));
        let t = types.skip(1);
        assert forall|i: int| 0 <= i < w - 1 implies !wraps(#[trigger] t[i], subtype, name) by {
            assert(t[i] == types[i + 1]);
        }
        lemma_wrapper_is(t, subtype, name, w - 1);
    }
}

/// What a signature covers: the first of the two parts of the first signed wrapper, from its
/// headers to its end, and the second is the signature.
pub proof fn what_a_signature_covers(
    types: Seq<Option<ContentTypeView>>,
    children: Seq<Option<Seq<u32>>>,
    spans: Seq<Span>,
    contents: Seq<Seq<u8>>,
    w: int,
    parts: Seq<u32>,
)
    requires
        0 <= w < types.len(),
        w < children.len(),
        wraps(types[w], "signed"@, "application/pgp-signature"@),
        forall|i: int|
            0 <= i < w ==> !wraps(#[trigger] types[i], "signed"@, "application/pgp-signature"@),
        children[w] == Some(parts),
        parts.len() >= 2,
        (parts[0] as int) < spans.len(),
        (parts[1] as int) < contents.len(),
        spans[parts[0] as int].header < spans[parts[0] as int].end,
        valid_utf8(contents[parts[1] as int]),
        contains(decode_utf8(contents[parts[1] as int]), "BEGIN PGP SIGNATURE"@),
    ensures
        signed_in(types, children, spans, contents) == Some(
            (spans[parts[0] as int], decode_utf8(contents[parts[1] as int])),
        ),
{
    lemma_wrapper_is(types, "signed"@, "application/pgp-signature"@, w);
}

/// Only a `multipart/signed` for OpenPGP is a signed wrapper: one for another protocol is none.
pub proof fn what_wraps_a_signature(t: ContentTypeView, subtype: Seq<char>, name: Seq<char>)
    ensures
        wraps(Some(t), subtype, name) <==> lowered(t.ctype) == lowered("multipart"@)
            && t.subtype is Some && lowered(t.subtype->0) == lowered(subtype) && (attribute_in(
            t.attributes,
            "protocol"@,
        ) matches Some(p) && lowered(trimmed(p)) == name),
        !wraps(None, subtype, name),
{
}

/// The bytes that a signature is checked against are those of the message, as they came.
pub proof fn which_bytes_are_checked(raw: Seq<u8>, span: Span)
    requires
        span.header <= span.end,
        span.end <= raw.len(),
    ensures
        spanned(raw, span) matches Some(bytes) && bytes.len() == span.end - span.header
            && forall|i: int|
            0 <= i < bytes.len() ==> #[trigger] bytes[i] == raw[span.header + i],
{
}

/// What a message turns out to be: an encrypted one says nothing of its signer, one without a
/// signature is unsigned, and a signed one is judged by its own sender.
pub proof fn what_a_message_turns_out_to_be(
    raw: Seq<u8>,
    types: Seq<Option<ContentTypeView>>,
    children: Seq<Option<Seq<u32>>>,
    spans: Seq<Span>,
    contents: Seq<Seq<u8>>,
    from: Seq<AddressView>,
    keys: Seq<Certificate>,
)
    requires
        from.len() > 0,
        from[0].address is Some,
    ensures
        ({
            let e = examined(raw, types, children, spans, contents, Some(from), keys);
            &&& e.1 <==> encrypted_in(types)
            &&& encrypted_in(types) ==> e.0 is UnknownSigner
            &&& !encrypted_in(types) && signed_in(types, children, spans, contents) is None
                ==> e.0 is Unsigned
            &&& !encrypted_in(types) && signed_in(types, children, spans, contents) is Some ==> e.0
                == judged(
                signature_in((signed_in(types, children, spans, contents)->0).1),
                spanned(raw, (signed_in(types, children, spans, contents)->0).0),
                keys,
                lowered(trimmed(from[0].address->0)),
            )
        }),
{
}

} // verus!
