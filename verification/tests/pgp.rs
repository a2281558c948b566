use cosmic_pim_mail::pgp::{decrypt, examine, open_armored, Certificate, Verdict};

use ::pgp::composed::{
    ArmorOptions, EncryptionCaps, KeyType, SecretKeyParamsBuilder, SubkeyParamsBuilder,
};
use ::pgp::crypto::hash::HashAlgorithm;
use ::pgp::types::{KeyDetails, Password};
use rand::thread_rng;

/// A fresh Ed25519 identity. Generated rather than embedded so the tests
/// exercise real signatures over real bytes — a fixture would prove only
/// that the fixture still parses.
fn identity(email: &str) -> (::pgp::composed::SignedSecretKey, Certificate) {
    let mut signing = SubkeyParamsBuilder::default();
    signing
        .key_type(KeyType::Ed25519Legacy)
        .can_sign(true)
        .can_encrypt(EncryptionCaps::None);
    let mut params = SecretKeyParamsBuilder::default();
    params
        .key_type(KeyType::Ed25519Legacy)
        .can_certify(true)
        .can_sign(true)
        .can_encrypt(EncryptionCaps::None)
        .primary_user_id(format!("Test <{email}>"))
        .subkeys(vec![signing.build().unwrap()]);

    let secret: ::pgp::composed::SignedSecretKey = params.build().unwrap().generate(thread_rng()).unwrap();
    let armored = ::pgp::composed::SignedPublicKey::from(secret.clone())
        .to_armored_string(ArmorOptions::default())
        .unwrap();
    let certificate = Certificate::from_armored(email, &armored).unwrap();
    (secret, certificate)
}

/// A `multipart/signed` message: the signature is computed over the exact
/// transmitted bytes of the first part, headers included, which is the
/// whole subtlety of RFC 3156.
fn signed_message(secret: &::pgp::composed::SignedSecretKey, from: &str, body: &str) -> Vec<u8> {
    let entity = format!("Content-Type: text/plain; charset=utf-8\r\n\r\n{body}\r\n");
    let signing: &dyn ::pgp::types::SigningKey = secret
        .secret_subkeys
        .iter()
        .find(|sub| sub.key.algorithm().can_sign())
        .map_or(&secret.primary_key as &dyn ::pgp::types::SigningKey, |sub| {
            &sub.key as &dyn ::pgp::types::SigningKey
        });
    let signature = ::pgp::composed::DetachedSignature::sign_binary_data(
        thread_rng(),
        &Box::new(signing),
        &Password::empty(),
        HashAlgorithm::Sha256,
        entity.as_bytes(),
    )
    .unwrap()
    .to_armored_string(ArmorOptions::default())
    .unwrap();

    format!(
        "From: {from}\r\nTo: her@example.com\r\nSubject: Signed\r\nMIME-Version: 1.0\r\n\
         Content-Type: multipart/signed; micalg=pgp-sha256; \
         protocol=\"application/pgp-signature\"; boundary=\"BB\"\r\n\r\n\
         --BB\r\n{entity}\r\n\
         --BB\r\nContent-Type: application/pgp-signature\r\n\r\n{signature}\r\n--BB--\r\n"
    )
    .into_bytes()
}

#[test]
fn a_signature_from_a_key_we_hold_for_the_sender_verifies() {
    let (secret, certificate) = identity("him@example.com");
    let raw = signed_message(&secret, "him@example.com", "the original text");

    let examined = examine(&raw, std::slice::from_ref(&certificate));
    assert_eq!(
        examined.verdict,
        Verdict::Verified {
            signer: "him@example.com".to_owned()
        }
    );
    assert!(!examined.encrypted);
}

/// The state that only verbatim storage can earn. One byte of the signed
/// entity is changed after signing; the verdict must be the loud one.
#[test]
fn a_message_altered_after_signing_is_invalid_not_merely_unknown() {
    let (secret, certificate) = identity("him@example.com");
    let raw = signed_message(&secret, "him@example.com", "send me ten pounds");
    let tampered: Vec<u8> = String::from_utf8(raw)
        .unwrap()
        .replace("ten pounds", "ten grand!")
        .into_bytes();

    assert_eq!(
        examine(&tampered, &[certificate]).verdict,
        Verdict::Invalid,
        "a rewritten message read as merely uncheckable"
    );
}

/// The common case: mail from a stranger. Not an alarm.
#[test]
fn a_signature_from_a_key_we_do_not_hold_is_unknown_not_invalid() {
    let (secret, _) = identity("stranger@example.com");
    let raw = signed_message(&secret, "stranger@example.com", "hello");

    assert_eq!(examine(&raw, &[]).verdict, Verdict::UnknownSigner);
}

/// Holding *other* people's keys must not turn a stranger's signature
/// into evidence of tampering.
#[test]
fn an_unrelated_key_in_the_ring_does_not_make_a_stranger_a_forger() {
    let (secret, _) = identity("stranger@example.com");
    let (_, someone_else) = identity("colleague@example.com");
    let raw = signed_message(&secret, "stranger@example.com", "hello");

    assert_eq!(
        examine(&raw, &[someone_else]).verdict,
        Verdict::UnknownSigner
    );
}

/// A valid signature by the wrong person. The message is authentic and is
/// not from who it claims to be — neither a tick nor an alarm.
#[test]
fn a_good_signature_bound_to_another_address_is_a_mismatch() {
    let (secret, certificate) = identity("colleague@example.com");
    let raw = signed_message(&secret, "him@example.com", "hello");

    assert_eq!(
        examine(&raw, &[certificate]).verdict,
        Verdict::SignerMismatch {
            signer: "colleague@example.com".to_owned()
        }
    );
}

#[test]
fn ordinary_mail_is_unsigned_and_says_nothing() {
    let raw = b"From: him@example.com\r\nSubject: Hi\r\n\r\njust text\r\n";
    let examined = examine(raw, &[]);
    assert_eq!(examined.verdict, Verdict::Unsigned);
    assert!(!examined.encrypted);
}

/// S/MIME uses the same wrapper and a different protocol. Matching the
/// wrapper alone reports every S/MIME message as broken PGP.
#[test]
fn an_smime_signed_message_is_not_treated_as_pgp() {
    let raw = b"From: him@example.com\r\nMIME-Version: 1.0\r\n\
Content-Type: multipart/signed; protocol=\"application/pkcs7-signature\"; boundary=\"SS\"\r\n\r\n\
--SS\r\nContent-Type: text/plain\r\n\r\nhi\r\n\
--SS\r\nContent-Type: application/pkcs7-signature\r\n\r\nAAAA\r\n--SS--\r\n";

    assert_eq!(examine(raw, &[]).verdict, Verdict::Unsigned);
}

#[test]
fn an_encrypted_message_is_reported_as_such_and_claims_nothing_about_its_signature() {
    let raw = b"From: him@example.com\r\nMIME-Version: 1.0\r\n\
Content-Type: multipart/encrypted; protocol=\"application/pgp-encrypted\"; boundary=\"EE\"\r\n\r\n\
--EE\r\nContent-Type: application/pgp-encrypted\r\n\r\nVersion: 1\r\n\
--EE\r\nContent-Type: application/octet-stream\r\n\r\n\
-----BEGIN PGP MESSAGE-----\r\n\r\nAAAA\r\n-----END PGP MESSAGE-----\r\n--EE--\r\n";

    let examined = examine(raw, &[]);
    assert!(examined.encrypted);
    assert_eq!(
        examined.verdict,
        Verdict::UnknownSigner,
        "claimed the message was unsigned while its signature was still sealed"
    );
}

#[test]
fn garbage_never_panics_and_never_claims_a_verdict() {
    for hostile in [
        &b""[..],
        &b"\x00\xff\xfe not a message"[..],
        b"Content-Type: multipart/signed; protocol=\"application/pgp-signature\"\r\n\r\n",
    ] {
        let examined = examine(hostile, &[]);
        assert!(matches!(
            examined.verdict,
            Verdict::Unsigned | Verdict::UnknownSigner
        ));
    }
}

#[test]
fn decrypting_something_that_is_not_encrypted_is_none() {
    let (secret, _) = identity("him@example.com");
    let raw = b"From: him@example.com\r\n\r\nplain text\r\n";
    assert!(decrypt(raw, &secret, "").is_none());
}

#[test]
fn something_that_is_no_key_makes_no_certificate() {
    assert!(Certificate::from_armored("a@example.com", "not a key").is_none());
}

#[test]
fn a_certificate_folds_the_address_it_speaks_for() {
    let (secret, _) = identity("him@example.com");
    let armored = ::pgp::composed::SignedPublicKey::from(secret)
        .to_armored_string(ArmorOptions::default())
        .unwrap();
    let certificate = Certificate::from_armored("  Him@Example.COM ", &armored).unwrap();
    assert_eq!(certificate.email, "him@example.com");
}

/// An identity whose subkey can be encrypted to.
fn recipient() -> ::pgp::composed::SignedSecretKey {
    let mut encryption = SubkeyParamsBuilder::default();
    encryption
        .key_type(KeyType::ECDH(::pgp::crypto::ecc_curve::ECCCurve::Curve25519Legacy))
        .can_encrypt(EncryptionCaps::All);
    let mut params = SecretKeyParamsBuilder::default();
    params
        .key_type(KeyType::Ed25519Legacy)
        .can_certify(true)
        .can_sign(true)
        .can_encrypt(EncryptionCaps::None)
        .primary_user_id("Her <her@example.com>".to_owned())
        .subkeys(vec![encryption.build().unwrap()]);
    params.build().unwrap().generate(thread_rng()).unwrap()
}

/// An armored message to a key, compressed first where that is asked for.
fn sealed_to(secret: &::pgp::composed::SignedSecretKey, inner: &str, packed: bool) -> String {
    let public = ::pgp::composed::SignedPublicKey::from(secret.clone());
    let mut builder = ::pgp::composed::MessageBuilder::from_bytes("", inner.as_bytes().to_vec())
        .seipd_v1(thread_rng(), ::pgp::crypto::sym::SymmetricKeyAlgorithm::AES256);
    if packed {
        builder.compression(::pgp::types::CompressionAlgorithm::ZIP);
    }
    builder.encrypt_to_key(thread_rng(), &public.public_subkeys[0]).unwrap();
    builder.to_armored_string(thread_rng(), ArmorOptions::default()).unwrap()
}

fn encrypted_message(armored: &str) -> Vec<u8> {
    format!(
        "From: him@example.com\r\nMIME-Version: 1.0\r\n\
Content-Type: multipart/encrypted; protocol=\"application/pgp-encrypted\"; boundary=\"EE\"\r\n\r\n\
--EE\r\nContent-Type: application/pgp-encrypted\r\n\r\nVersion: 1\r\n\
--EE\r\nContent-Type: application/octet-stream\r\n\r\n{armored}\r\n--EE--\r\n"
    )
    .into_bytes()
}

#[test]
fn an_encrypted_message_is_opened_with_its_key() {
    let secret = recipient();
    let inner = "Content-Type: text/plain\r\n\r\nthe secret\r\n";
    let raw = encrypted_message(&sealed_to(&secret, inner, false));
    assert_eq!(decrypt(&raw, &secret, "").as_deref(), Some(inner.as_bytes()));
}

#[test]
fn an_encrypted_message_that_was_compressed_is_decompressed() {
    let secret = recipient();
    let inner = "Content-Type: text/plain\r\n\r\nthe secret, the secret, the secret\r\n";
    let armored = sealed_to(&secret, inner, true);
    assert_eq!(
        open_armored(armored.as_bytes(), &secret, "").as_deref(),
        Some(inner.as_bytes())
    );
    assert_eq!(
        decrypt(&encrypted_message(&armored), &secret, "").as_deref(),
        Some(inner.as_bytes())
    );
}

#[test]
fn an_encrypted_message_stays_closed_to_another_key() {
    let raw = encrypted_message(&sealed_to(&recipient(), "inner", false));
    assert!(decrypt(&raw, &recipient(), "").is_none());
    assert!(open_armored(b"not armored", &recipient(), "").is_none());
}
