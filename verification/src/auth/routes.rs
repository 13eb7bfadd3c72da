//! Plain request and response bodies of the authentication endpoints.  The
//! handlers themselves, and the serialization derives, live with the
//! surrounding application.

use vstd::prelude::*;

verus! {

/// Body of the provider listing.
pub struct ProviderList {
    pub providers: Vec<String>,
}

/// Body of the current-user endpoint.
pub struct Me {
    pub user_id: String,
}

/// Query of the login endpoint.
pub struct LoginQuery {
    pub provider: String,
}

/// Query of the OIDC callback endpoint.
pub struct CallbackQuery {
    pub code: String,
    pub state: String,
}

} // verus!
