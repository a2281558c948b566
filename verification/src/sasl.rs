//! How a mail session proves who it is.
//!
//! A password goes over `LOGIN` and `AUTH PLAIN`; an access token goes over
//! `XOAUTH2`, and cannot be sent as a password.

use vstd::prelude::*;
use vstd::utf8::encode_utf8;

use crate::bytes::copy_slice;
use crate::chars::{push_text, to_chars, to_text};
use crate::encoding::{base64_text, encode_base64};

verus! {

/// What a session authenticates with.
#[derive(Debug, Clone, PartialEq, Eq)]
pub enum Credentials {
    /// A password, which for most providers means an app password.
    Password(String),
    /// A valid OAuth 2.0 access token. Renewal happens above this crate.
    OAuth2(String),
}

impl Credentials {
    /// Whether this needs `AUTHENTICATE XOAUTH2` rather than `LOGIN`.
    #[must_use]
    pub fn is_oauth2(&self) -> (r: bool)
        ensures
            r == (self is OAuth2),
    {
        match self {
            Credentials::OAuth2(_) => true,
            Credentials::Password(_) => false,
        }
    }

    pub open spec fn secret(&self) -> Seq<char> {
        match self {
            Credentials::Password(value) => value@,
            Credentials::OAuth2(value) => value@,
        }
    }

    /// The secret itself. Only for the call sites that put it on the wire.
    #[must_use]
    pub fn expose(&self) -> (r: &str)
        ensures
            r@ == self.secret(),
    {
        match self {
            Credentials::Password(value) => value.as_str(),
            Credentials::OAuth2(value) => value.as_str(),
        }
    }

    /// What may be printed of these: never the secret.
    #[must_use]
    pub fn describe(&self) -> (r: &'static str)
        ensures
            r@ == (match self {
                Credentials::Password(_) => "<password>"@,
                Credentials::OAuth2(_) => "<access token>"@,
            }),
    {
        match self {
            Credentials::Password(_) => "<password>",
            Credentials::OAuth2(_) => "<access token>",
        }
    }
}

/// The XOAUTH2 initial client response, before base64. The two trailing
/// separators are not padding: a server stops reading the field list at the
/// empty one.
pub open spec fn xoauth2_text(user: Seq<char>, token: Seq<char>) -> Seq<char> {
    "user="@ + user + "\x01auth=Bearer "@ + token + "\x01\x01"@
}

/// The XOAUTH2 initial client response, before base64.
#[must_use]
pub fn xoauth2_payload(user: &str, token: &str) -> (r: Vec<u8>)
    ensures
        r@ == encode_utf8(xoauth2_text(user@, token@)),
{
    let mut out: Vec<char> = to_chars("user=");
    push_text(&mut out, user);
    push_text(&mut out, "\x01auth=Bearer ");
    push_text(&mut out, token);
    push_text(&mut out, "\x01\x01");
    let text: String = to_text(&out);
    copy_slice(text.as_str().as_bytes())
}

/// Answers an `AUTHENTICATE XOAUTH2` challenge.
///
/// The server sends an empty challenge first; a second one reports an error,
/// and the protocol requires an empty line to acknowledge it before the refusal
/// arrives. Returning the payload again there would restart the exchange.
#[derive(Debug, Clone)]
pub struct XOAuth2 {
    user: String,
    token: String,
}

impl XOAuth2 {
    pub closed spec fn user(&self) -> Seq<char> {
        self.user@
    }

    pub closed spec fn token(&self) -> Seq<char> {
        self.token@
    }

    #[must_use]
    pub fn new(user: &str, token: &str) -> (r: Self)
        ensures
            r.user() == user@,
            r.token() == token@,
    {
        XOAuth2 { user: user.to_owned(), token: token.to_owned() }
    }

    /// The response to a challenge, before base64.
    #[must_use]
    pub fn process(&self, challenge: &[u8]) -> (r: Vec<u8>)
        ensures
            r@ == (if challenge@.len() == 0 {
                encode_utf8(xoauth2_text(self.user(), self.token()))
            } else {
                Seq::empty()
            }),
    {
        if challenge.len() == 0 {
            xoauth2_payload(&self.user, &self.token)
        } else {
            Vec::new()
        }
    }
}

/// The value of an HTTP `Authorization` header.
pub open spec fn authorization_text(user: Seq<char>, credentials: Credentials) -> Seq<char> {
    match credentials {
        Credentials::OAuth2(token) => "Bearer "@ + token@,
        Credentials::Password(password) => "Basic "@ + base64_text(
            encode_utf8(user + ":"@ + password@),
        ),
    }
}

/// The value of an HTTP `Authorization` header: Bearer for a token, Basic for a
/// password.
#[must_use]
pub fn authorization(user: &str, credentials: &Credentials) -> (r: String)
    ensures
        r@ == authorization_text(user@, *credentials),
{
    match credentials {
        Credentials::OAuth2(token) => {
            let mut out: Vec<char> = to_chars("Bearer ");
            push_text(&mut out, token);
            to_text(&out)
        },
        Credentials::Password(password) => {
            let mut pair: Vec<char> = to_chars(user);
            push_text(&mut pair, ":");
            push_text(&mut pair, password);
            let text: String = to_text(&pair);
            let mut out: Vec<char> = to_chars("Basic ");
            push_text(&mut out, &encode_base64(text.as_str().as_bytes()));
            to_text(&out)
        },
    }
}

/// The command that authenticates a POP3 session with a token: the payload
/// rides on the command line, in base64.
pub open spec fn pop3_auth_text(user: Seq<char>, token: Seq<char>) -> Seq<char> {
    "AUTH XOAUTH2 "@ + base64_text(encode_utf8(xoauth2_text(user, token)))
}

#[must_use]
pub fn pop3_auth(user: &str, token: &str) -> (r: String)
    ensures
        r@ == pop3_auth_text(user@, token@),
{
    let payload: Vec<u8> = xoauth2_payload(user, token);
    let mut out: Vec<char> = to_chars("AUTH XOAUTH2 ");
    push_text(&mut out, &encode_base64(&payload));
    to_text(&out)
}

/// A token is sent whole, for the user it belongs to, each between its own separators.
pub proof fn what_a_token_is_sent_as(user: Seq<char>, token: Seq<char>)
    ensures
        xoauth2_text(user, token) == "user="@ + user + seq!['\x01'] + "auth=Bearer "@ + token
            + seq!['\x01', '\x01'],
{
    reveal_strlit("\x01auth=Bearer ");
    reveal_strlit("auth=Bearer ");
    reveal_strlit("\x01\x01");
    assert("\x01auth=Bearer "@ =~= seq!['\x01'] + "auth=Bearer "@);
    assert("\x01\x01"@ =~= seq!['\x01', '\x01']);
    assert(xoauth2_text(user, token) =~= "user="@ + user + seq!['\x01'] + "auth=Bearer "@ + token
        + seq!['\x01', '\x01']);
}

/// What a session is authorised with: a token as it is, a password together with the user it
/// belongs to.
pub proof fn what_authorises_a_request(user: Seq<char>, credentials: Credentials)
    ensures
        credentials matches Credentials::OAuth2(token) ==> authorization_text(user, credentials)
            == "Bearer "@ + token@,
        credentials matches Credentials::Password(password) ==> authorization_text(
            user,
            credentials,
        ) == "Basic "@ + base64_text(encode_utf8(user + ":"@ + password@)),
{
}

} // verus!
