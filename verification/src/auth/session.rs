//! An authenticated user's session, as the request extractors hand it out.

use vstd::prelude::*;

verus! {

/// The authenticated user behind one session cookie.
#[derive(Clone)]
pub struct Session {
    pub user_id: String,
}

impl Session {
    pub fn new(user_id: String) -> (r: Self)
        ensures
            r.user_id == user_id,
    {
        Session { user_id }
    }
}

/// A request's session, once admission has validated its cookie.
pub struct AuthSession(pub Session);

} // verus!
