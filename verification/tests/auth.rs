//! Session and pending-login stores, and the pure helpers of the login
//! flow.

use dionysus::auth::oidc::{PendingLogin, PendingLoginStore};
use dionysus::auth::session::Session as ExtractedSession;
use dionysus::auth::session_store::{Session, SessionStore};
use dionysus::auth::{callback_url, check_provider, rand_str, user_id_for, AuthError};

fn login(provider: &str, created_at: u64) -> PendingLogin {
    PendingLogin {
        provier_id: provider.to_string(),
        nonce: "nonce-1".to_string(),
        pkce_verifier: "verifier-1".to_string(),
        redirect_url: "https://app.example/auth/callback/acme".to_string(),
        created_at,
    }
}

#[test]
fn session_store_get_insert_remove() {
    let mut store = SessionStore::new();
    assert!(store.get("sid").is_none());
    store.insert("sid".to_string(), Session::new("google|alice".to_string()));
    assert_eq!(store.get("sid").unwrap().user_id().as_str(), "google|alice");
    store.insert("sid".to_string(), Session::new("google|bob".to_string()));
    assert_eq!(store.get("sid").unwrap().user_id().as_str(), "google|bob");
    store.insert("other".to_string(), Session::new("github|eve".to_string()));
    store.remove("sid");
    assert!(store.get("sid").is_none());
    assert_eq!(store.get("other").unwrap().user_id().as_str(), "github|eve");
    store.remove("never-there");
}

#[test]
fn extracted_session_keeps_user_id() {
    let s = ExtractedSession::new("issuer|subject".to_string());
    assert_eq!(s.user_id, "issuer|subject");
}

#[test]
fn pending_login_take_within_ttl() {
    let mut store = PendingLoginStore::new(60_000);
    store.insert("state-1".to_string(), login("acme", 1_000));
    let pl = store.take("state-1", 31_000).unwrap();
    assert_eq!(pl.provier_id, "acme");
    assert_eq!(pl.nonce, "nonce-1");
    assert_eq!(pl.created_at, 1_000);
    // A pending login can be finished only once.
    assert!(store.take("state-1", 31_000).is_none());
}

#[test]
fn pending_login_expires_after_ttl() {
    let mut store = PendingLoginStore::new(60_000);
    store.insert("state-1".to_string(), login("acme", 1_000));
    assert!(store.take("state-1", 61_001).is_none());
    // The expired entry is gone, not merely hidden.
    assert!(store.take("state-1", 1_000).is_none());
}

#[test]
fn pending_login_gc_drops_only_expired() {
    let mut store = PendingLoginStore::new(1_000);
    store.insert("old".to_string(), login("acme", 0));
    store.insert("fresh".to_string(), login("acme", 9_800));
    store.gc(10_000);
    assert!(store.take("old", 10_000).is_none());
    assert!(store.take("fresh", 10_000).is_some());
}

#[test]
fn rand_str_has_requested_length() {
    let a = rand_str(64);
    let b = rand_str(64);
    assert_eq!(a.chars().count(), 64);
    assert_eq!(b.chars().count(), 64);
    assert!(a.chars().all(|c| c.is_ascii_alphanumeric()));
    assert_ne!(a, b);
}

#[test]
fn callback_url_joins_base_and_provider() {
    let url = callback_url("https://app.example", "acme");
    assert_eq!(url, "https://app.example/auth/callback/acme");
}

#[test]
fn user_id_joins_issuer_and_subject() {
    let id = user_id_for("https://issuer.example", "subject-7");
    assert_eq!(id, "https://issuer.example|subject-7");
}

#[test]
fn check_provider_matches_exactly() {
    assert!(check_provider("acme", "acme").is_ok());
    let err = check_provider("acme", "other").unwrap_err();
    assert!(matches!(err, AuthError::ProviderMismatch));
}
