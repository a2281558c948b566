use cosmic_pim_mail::sasl::{authorization, pop3_auth, xoauth2_payload, Credentials, XOAuth2};

#[test]
fn the_xoauth2_payload_has_both_trailing_separators() {
    // Omitting either produces an authentication failure with no
    // diagnostic — the single most common way to get XOAUTH2 wrong.
    let payload = xoauth2_payload("ada@gmail.com", "ya29.token");

    assert_eq!(
        payload,
        b"user=ada@gmail.com\x01auth=Bearer ya29.token\x01\x01"
    );
    assert!(payload.ends_with(&[0x01, 0x01]));
}

#[test]
fn the_first_challenge_is_answered_with_the_payload() {
    let authenticator = XOAuth2::new("ada@gmail.com", "ya29.token");

    assert_eq!(
        authenticator.process(b""),
        xoauth2_payload("ada@gmail.com", "ya29.token")
    );
}

#[test]
fn an_error_challenge_is_acknowledged_rather_than_answered() {
    // Re-sending the payload here restarts the exchange, and the session
    // hangs waiting for a response that never comes.
    let authenticator = XOAuth2::new("ada@gmail.com", "ya29.token");
    let error_challenge = br#"{"status":"400","schemes":"Bearer"}"#;

    assert!(authenticator.process(error_challenge).is_empty());
}

#[test]
fn the_mechanism_follows_the_kind_of_credential() {
    assert!(!Credentials::Password("pw".into()).is_oauth2());
    assert!(Credentials::OAuth2("ya29".into()).is_oauth2());
}

#[test]
fn credentials_do_not_print_themselves() {
    assert_eq!(Credentials::Password("hunter2".into()).describe(), "<password>");
    assert_eq!(Credentials::OAuth2("ya29.x".into()).describe(), "<access token>");
}

#[test]
fn a_token_goes_out_as_a_bearer_and_a_password_as_basic() {
    assert_eq!(
        authorization("ada", &Credentials::OAuth2("ya29".into())),
        "Bearer ya29"
    );
    // base64 of `ada:pw`.
    assert_eq!(
        authorization("ada", &Credentials::Password("pw".into())),
        "Basic YWRhOnB3"
    );
}

#[test]
fn the_pop3_command_carries_the_payload_in_base64() {
    assert_eq!(
        pop3_auth("a", "t"),
        "AUTH XOAUTH2 dXNlcj1hAWF1dGg9QmVhcmVyIHQBAQ=="
    );
}
