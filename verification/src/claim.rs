//! Authorization of the privileged operations: a request is let in where it
//! carries a bearer token that was signed with the shared secret.
//!
//! The token is a JSON Web Token signed with HMAC-SHA256. Of its claims only
//! two are read: the time of issue, which has to be there, and the time of
//! expiry, which has to lie ahead where it is there. Every token that fails
//! is refused in one and the same way.

use crate::history::utc_now;
use crate::text::{chars_of, find_in, starts_with};
use vstd::prelude::*;
use vstd::string::*;

verus! {

/// What a token says of itself: when it was issued, in seconds since the
/// Unix epoch.
#[derive(Debug, Clone, Copy, PartialEq, Eq, Structural)]
pub struct Claims {
    pub iat: i64,
}

impl Claims {
    /// Claims of a token issued at `iat`, in whole seconds since the Unix
    /// epoch.
    pub fn new(iat: i64) -> (claims: Claims)
        ensures
            claims == (Claims { iat }),
    {
        Claims { iat }
    }
}

/// Why a request is refused.
#[derive(Debug, Clone, Copy, PartialEq, Eq, Structural)]
pub enum AuthError {
    /// The request has no `authorization` header.
    NoHeader,
    /// The header does not begin with `Bearer `.
    InvalidHeader,
    /// The token is malformed, wrongly signed, without a time of issue, or
    /// expired.
    InvalidToken,
}

/// What a caller is told of a refusal. A token that fails is described in one
/// way, whatever is wrong with it.
pub open spec fn auth_message(e: AuthError) -> Seq<char> {
    match e {
        AuthError::NoHeader => "No authorization header"@,
        AuthError::InvalidHeader => "Invalid authorization header"@,
        AuthError::InvalidToken => "Invalid token"@,
    }
}

impl AuthError {
    /// What a caller is told of this refusal.
    pub fn message(&self) -> (text: &'static str)
        ensures
            text@ == auth_message(*self),
    {
        match self {
            AuthError::NoHeader => "No authorization header",
            AuthError::InvalidHeader => "Invalid authorization header",
            AuthError::InvalidToken => "Invalid token",
        }
    }

    /// What a caller is told of this refusal, as a string of its own.
    pub fn to_string(&self) -> (text: String)
        ensures
            text@ == auth_message(*self),
    {
        self.message().to_owned()
    }
}

/// What an `authorization` header has to begin with.
pub const BEARER: &'static str = "Bearer ";

#[verifier::external_type_specification]
#[verifier::external_body]
pub struct ExTokenError(jsonwebtoken::errors::Error);

/// The algorithm that a token is signed with: HMAC with one of the hashes of
/// the SHA-2 family.
#[derive(Debug, Clone, Copy, PartialEq, Eq, Structural)]
pub enum Signing {
    HS256,
    HS384,
    HS512,
}

/// The algorithm that the tokens of this service are signed with.
pub const SIGNING: Signing = Signing::HS256;

/// The name of the claim that holds the time of issue.
pub const ISSUED_AT: &'static str = "iat";

/// The name of the claim that holds the time of expiry.
pub const EXPIRES: &'static str = "exp";

/// What the claim `claim` of `token` holds, if `token` is a JSON Web Token
/// that `jsonwebtoken::decode` accepts with the key `secret` for the
/// algorithm `signing`: `Some(Some(n))` where the claim is the integer `n`,
/// `Some(None)` where the token is accepted and has no such integer, and
/// `None` where the token is not accepted.
pub uninterp spec fn token_claim(
    signing: Signing,
    token: Seq<char>,
    secret: Seq<char>,
    claim: Seq<char>,
) -> Option<Option<i64>>;

/// Whether `seconds` is a Unix timestamp that the crate `time` can hold in an
/// `OffsetDateTime`.
pub uninterp spec fn is_timestamp(seconds: i64) -> bool;

/// `jsonwebtoken::decode` on `token`, with the key that
/// `DecodingKey::from_secret` makes of `secret`, for the algorithm `signing`
/// and with the checks of expiry and audience and the list of required
/// claims switched off, so that the outcome depends on the arguments alone.
/// The payload is decoded as a `serde_json::Value`, of which the claim is
/// read with `Value::get` and `Value::as_i64`.
///
/// The contract names the outcome and claims nothing else of it.
#[verifier::external_body]
fn decode_claim(signing: Signing, token: &str, secret: &str, claim: &str) -> (outcome: Result<
    Option<i64>,
    jsonwebtoken::errors::Error,
>)
    ensures
        outcome matches Ok(value) ==> token_claim(signing, token@, secret@, claim@) == Some(value),
        outcome is Err ==> token_claim(signing, token@, secret@, claim@) is None,
{
    let algorithm = match signing {
        Signing::HS256 => jsonwebtoken::Algorithm::HS256,
        Signing::HS384 => jsonwebtoken::Algorithm::HS384,
        Signing::HS512 => jsonwebtoken::Algorithm::HS512,
    };
    let mut checks = jsonwebtoken::Validation::new(algorithm);
    checks.validate_exp = false;
    checks.validate_aud = false;
    checks.required_spec_claims.clear();
    let key = jsonwebtoken::DecodingKey::from_secret(secret.as_bytes());
    let data = jsonwebtoken::decode::<serde_json::Value>(token, &key, &checks)?;
    Ok(data.claims.get(claim).and_then(|value| value.as_i64()))
}

/// `time::OffsetDateTime::from_unix_timestamp` on `seconds`, asked only
/// whether it succeeds. The contract names the answer.
#[verifier::external_body]
fn timestamp_in_range(seconds: i64) -> (valid: bool)
    ensures
        valid == is_timestamp(seconds),
{
    time::OffsetDateTime::from_unix_timestamp(seconds).is_ok()
}

/// The token that an `authorization` header carries: what follows
/// `Bearer `.
pub open spec fn bearer_token(header: Option<Seq<char>>) -> Result<Seq<char>, AuthError> {
    match header {
        None => Err(AuthError::NoHeader),
        Some(value) => if starts_with(value, BEARER@) {
            Ok(value.skip(BEARER@.len() as int))
        } else {
            Err(AuthError::InvalidHeader)
        },
    }
}

/// Whether a token with the expiry `exp`, in seconds, has expired at `now`,
/// in milliseconds. A token without an expiry never expires.
pub open spec fn expired(exp: Option<i64>, now: i64) -> bool {
    match exp {
        Some(seconds) => seconds * 1000 < now,
        None => false,
    }
}

/// What is made of a decoded token at `now`: `decoded` is what
/// decoding gave, and `in_range` says whether the time of issue is a
/// timestamp.
pub open spec fn claims_of(
    decoded: Option<(Option<i64>, Option<i64>)>,
    in_range: bool,
    now: i64,
) -> Result<Claims, AuthError> {
    match decoded {
        Some((Some(iat), exp)) => if in_range && !expired(exp, now) {
            Ok(Claims { iat })
        } else {
            Err(AuthError::InvalidToken)
        },
        _ => Err(AuthError::InvalidToken),
    }
}

/// What decoding `token` with `secret` gives: the time of issue and the time
/// of expiry, each where the token has it, or nothing where the token is not
/// accepted.
pub open spec fn token_claims(token: Seq<char>, secret: Seq<char>) -> Option<
    (Option<i64>, Option<i64>),
> {
    match (
        token_claim(SIGNING, token, secret, ISSUED_AT@),
        token_claim(SIGNING, token, secret, EXPIRES@),
    ) {
        (Some(iat), Some(exp)) => Some((iat, exp)),
        _ => None,
    }
}

/// What is made of a request at `now`, in milliseconds since the
/// Unix epoch.
pub open spec fn authorized(header: Option<Seq<char>>, secret: Seq<char>, now: i64) -> Result<
    Claims,
    AuthError,
> {
    match bearer_token(header) {
        Err(e) => Err(e),
        Ok(token) => {
            let decoded = token_claims(token, secret);
            let in_range = match decoded {
                Some((Some(iat), _)) => is_timestamp(iat),
                _ => false,
            };
            claims_of(decoded, in_range, now)
        },
    }
}

/// A request without a header is refused for that, a request whose header
/// does not begin with `Bearer ` for that, and a request whose token is not
/// accepted as a wrong token, at any time; a token that is accepted and says
/// when it was issued is let in at any time where it names no expiry.
pub proof fn lemma_refusals(header: Seq<char>, secret: Seq<char>, now: i64)
    ensures
        authorized(None, secret, now) == Err::<Claims, AuthError>(AuthError::NoHeader),
        !starts_with(header, BEARER@) ==> authorized(Some(header), secret, now) == Err::<
            Claims,
            AuthError,
        >(AuthError::InvalidHeader),
        starts_with(header, BEARER@) ==> match token_claims(
            header.skip(BEARER@.len() as int),
            secret,
        ) {
            None => authorized(Some(header), secret, now) == Err::<Claims, AuthError>(
                AuthError::InvalidToken,
            ),
            Some((Some(iat), None)) => authorized(Some(header), secret, now) == if is_timestamp(
                iat,
            ) {
                Ok::<Claims, AuthError>(Claims { iat })
            } else {
                Err::<Claims, AuthError>(AuthError::InvalidToken)
            },
            Some((Some(iat), Some(exp))) => authorized(Some(header), secret, now) == if is_timestamp(
                iat,
            ) && exp * 1000 >= now {
                Ok::<Claims, AuthError>(Claims { iat })
            } else {
                Err::<Claims, AuthError>(AuthError::InvalidToken)
            },
            Some((None, _)) => authorized(Some(header), secret, now) == Err::<Claims, AuthError>(
                AuthError::InvalidToken,
            ),
        },
{
}

/// Takes the token out of an `authorization` header; see [`bearer_token`].
pub fn token_of<'a>(header: Option<&'a str>) -> (token: Result<&'a str, AuthError>)
    ensures
        match token {
            Ok(text) => bearer_token(header.deep_view()) == Ok::<Seq<char>, AuthError>(text@),
            Err(e) => bearer_token(header.deep_view()) == Err::<Seq<char>, AuthError>(e),
        },
{
    let value = match header {
        Some(value) => value,
        None => {
            return Err(AuthError::NoHeader);
        },
    };
    let all = chars_of(value);
    let prefix = chars_of(BEARER);
    if all.len() < prefix.len() {
        return Err(AuthError::InvalidHeader);
    }
    proof {
        crate::text::lemma_find_first_none(all@.subrange(0, prefix.len() as int), prefix@);
        assert(all@.subrange(0, prefix.len() as int).subrange(0, prefix.len() as int)
            == all@.subrange(0, prefix.len() as int));
    }
    match find_in(&all, 0, prefix.len(), &prefix) {
        Some(_) => Ok(value.substring_char(prefix.len(), all.len())),
        None => {
            proof {
                if starts_with(value@, BEARER@) {
                    assert(crate::text::occurs_at(
                        all@.subrange(0, prefix.len() as int),
                        prefix@,
                        0,
                    ));
                }
            }
            Err(AuthError::InvalidHeader)
        },
    }
}

/// Decides on a decoded token; see [`claims_of`].
pub fn claims_from(decoded: Option<(Option<i64>, Option<i64>)>, in_range: bool, now: i64) -> (claims:
    Result<Claims, AuthError>)
    ensures
        claims == claims_of(decoded, in_range, now),
{
    match decoded {
        Some((Some(iat), exp)) => {
            let expired = match exp {
                Some(seconds) => (seconds as i128) * 1000 < now as i128,
                None => false,
            };
            if in_range && !expired {
                Ok(Claims { iat })
            } else {
                Err(AuthError::InvalidToken)
            }
        },
        _ => Err(AuthError::InvalidToken),
    }
}

/// Decides at `now` whether a request may pass: `header` is the value of its
/// `authorization` header, if it has one, and `secret` is the shared secret;
/// see [`authorized`].
pub fn authorize_at(header: Option<&str>, secret: &str, now: i64) -> (claims: Result<
    Claims,
    AuthError,
>)
    ensures
        claims == authorized(header.deep_view(), secret@, now),
{
    let token = match token_of(header) {
        Ok(token) => token,
        Err(e) => {
            return Err(e);
        },
    };
    let decoded = match decode_claim(SIGNING, token, secret, ISSUED_AT) {
        Ok(iat) => match decode_claim(SIGNING, token, secret, EXPIRES) {
            Ok(exp) => Some((iat, exp)),
            Err(_) => None,
        },
        Err(_) => None,
    };
    let in_range = match decoded {
        Some((Some(iat), _)) => timestamp_in_range(iat),
        _ => false,
    };
    claims_from(decoded, in_range, now)
}

/// Decides whether a request may pass, at the time the clock shows; see
/// [`authorize_at`]. A request without a header or without a bearer token is
/// refused at any time.
pub fn authorize(header: Option<&str>, secret: &str) -> (claims: Result<Claims, AuthError>)
    ensures
        exists|now: i64| claims == #[trigger] authorized(header.deep_view(), secret@, now),
        bearer_token(header.deep_view()) matches Err(e) ==> claims == Err::<Claims, AuthError>(e),
{
    let now = utc_now();
    authorize_at(header, secret, now)
}

} // verus!
