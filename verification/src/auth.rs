//! Authentication: sessions, pending OIDC logins, and the pure decisions of
//! the login flow.
//!
//! The HTTP round trips of the flow — provider discovery, the redirect to
//! the provider, the code-for-token exchange — happen in the surrounding
//! application; what is decided or computed from plain values stands here.

pub mod oidc;
pub mod routes;
pub mod session;
pub mod session_store;

use vstd::prelude::*;

use rand::Rng;

use crate::text::str_eq;

verus! {

/// Errors of the login flow.
#[derive(Debug, Clone)]
pub enum AuthError {
    UnknownProvider,
    InvalidState,
    ProviderMismatch,
    TokenExchange,
    IdTokenVerification,
    Initilization { source: String },
}

/// An ASCII alphanumeric character: a digit or a letter of either case.
pub open spec fn ascii_alphanumeric(c: char) -> bool {
    ('0' <= c && c <= '9') || ('A' <= c && c <= 'Z') || ('a' <= c && c <= 'z')
}

/// Relies on rand's `Alphanumeric` distribution sampled through
/// `Rng::sample_iter`: each sample is one ASCII alphanumeric character, so
/// the result holds exactly `n` such characters; which ones is up to the
/// generator.
#[verifier::external_body]
pub fn rand_str(n: usize) -> (r: String)
    ensures
        r@.len() == n,
        forall|i: int| 0 <= i < r@.len() ==> ascii_alphanumeric(#[trigger] r@[i]),
{
    rand::rng().sample_iter(&rand::distr::Alphanumeric).take(n).map(char::from).collect()
}

/// The URL the provider redirects the browser back to after login.
pub fn callback_url(external_base_url: &str, provider_id: &str) -> (r: String)
    ensures
        r@ == external_base_url@ + "/auth/callback/"@ + provider_id@,
{
    let mut out = external_base_url.to_owned();
    out = out.concat("/auth/callback/");
    out = out.concat(provider_id);
    out
}

/// The stable user identifier derived from a verified token: the issuer and
/// the subject, joined by `|`.
pub fn user_id_for(issuer: &str, subject: &str) -> (r: String)
    ensures
        r@ == issuer@ + "|"@ + subject@,
{
    let mut out = issuer.to_owned();
    out = out.concat("|");
    out = out.concat(subject);
    out
}

/// The callback's provider must be the one the pending login was started
/// with.
pub fn check_provider(pending_provider_id: &str, provider_id: &str) -> (r: Result<(), AuthError>)
    ensures
        r is Ok <==> pending_provider_id@ == provider_id@,
        r matches Err(e) ==> e is ProviderMismatch,
{
    if str_eq(pending_provider_id, provider_id) {
        Ok(())
    } else {
        Err(AuthError::ProviderMismatch)
    }
}

} // verus!
