//! Stores current user sessions.
//!
//! A vector of entries with pairwise distinct session identifiers, read as a
//! map from session identifier to the session's user.

use vstd::prelude::*;

use crate::text::str_eq;

verus! {

/// The authenticated user behind one session cookie.
#[derive(Clone)]
pub struct Session {
    user_id: String,
}

impl Session {
    /// The user this session belongs to.
    pub closed spec fn spec_user_id(self) -> Seq<char> {
        self.user_id@
    }

    pub fn new(user_id: String) -> (r: Self)
        ensures
            r.spec_user_id() == user_id@,
    {
        Session { user_id }
    }

    /// The user this session belongs to.
    pub fn user_id(&self) -> (r: &String)
        ensures
            r@ == self.spec_user_id(),
    {
        &self.user_id
    }
}

/// A request's session, once admission has validated its cookie.
pub struct AuthSession(pub Session);

struct SessionEntry {
    session_id: String,
    session: Session,
}

spec fn sess_ids_distinct(s: Seq<SessionEntry>) -> bool {
    forall|i: int, j: int|
        #![trigger s[i], s[j]]
        0 <= i < j < s.len() ==> s[i].session_id@ != s[j].session_id@
}

spec fn sess_has(s: Seq<SessionEntry>, k: Seq<char>) -> bool {
    exists|i: int| 0 <= i < s.len() && (#[trigger] s[i]).session_id@ == k
}

spec fn sess_index(s: Seq<SessionEntry>, k: Seq<char>) -> int {
    choose|i: int| 0 <= i < s.len() && (#[trigger] s[i]).session_id@ == k
}

/// The entry vector, read as a map from session identifier to user.
spec fn sess_map(s: Seq<SessionEntry>) -> Map<Seq<char>, Seq<char>> {
    Map::new(
        |k: Seq<char>| sess_has(s, k),
        |k: Seq<char>| s[sess_index(s, k)].session.spec_user_id(),
    )
}

proof fn lemma_sess_index_unique(s: Seq<SessionEntry>, k: Seq<char>)
    requires
        sess_ids_distinct(s),
        sess_has(s, k),
    ensures
        0 <= sess_index(s, k) < s.len(),
        s[sess_index(s, k)].session_id@ == k,
        forall|i: int|
            0 <= i < s.len() && (#[trigger] s[i]).session_id@ == k ==> i == sess_index(s, k),
{
    let idx = sess_index(s, k);
    assert(0 <= idx < s.len() && s[idx].session_id@ == k);
    assert forall|i: int|
        0 <= i < s.len() && (#[trigger] s[i]).session_id@ == k implies i == idx by {
        if i < idx {
            assert(s[i].session_id@ != s[idx].session_id@);
        } else if idx < i {
            assert(s[idx].session_id@ != s[i].session_id@);
        }
    }
}

/// Stores current user sessions, keyed by session identifier.
pub struct SessionStore {
    store: Vec<SessionEntry>,
}

impl SessionStore {
    /// Session identifier to user identifier.
    pub closed spec fn model(&self) -> Map<Seq<char>, Seq<char>> {
        sess_map(self.store@)
    }

    pub closed spec fn wf(&self) -> bool {
        sess_ids_distinct(self.store@)
    }

    /// An empty store.
    pub fn new() -> (r: Self)
        ensures
            r.wf(),
            r.model() =~= Map::<Seq<char>, Seq<char>>::empty(),
    {
        let r = SessionStore { store: Vec::new() };
        proof {
            assert forall|k: Seq<char>| !(#[trigger] sess_has(r.store@, k)) by {
                assert(r.store@.len() == 0);
            }
        }
        r
    }

    fn find(&self, session_id: &str) -> (r: Option<usize>)
        ensures
            match r {
                Some(i) => i < self.store@.len() && self.store@[i as int].session_id@
                    == session_id@,
                None => !sess_has(self.store@, session_id@),
            },
    {
        let n = self.store.len();
        let mut i: usize = 0;
        while i < n
            invariant
                n == self.store@.len(),
                i <= n,
                forall|j: int| 0 <= j < i ==> (#[trigger] self.store@[j]).session_id@ != session_id@,
            decreases n - i,
        {
            if str_eq(self.store[i].session_id.as_str(), session_id) {
                return Some(i);
            }
            i = i + 1;
        }
        None
    }

    /// Looks the session up, handing back its own copy.
    pub fn get(&self, session_id: &str) -> (r: Option<Session>)
        requires
            self.wf(),
        ensures
            match r {
                Some(s) => self.model().contains_key(session_id@) && s.spec_user_id()
                    == self.model()[session_id@],
                None => !self.model().contains_key(session_id@),
            },
    {
        match self.find(session_id) {
            Some(i) => {
                proof {
                    assert(self.store@[i as int].session_id@ == session_id@);
                    assert(sess_has(self.store@, session_id@));
                    lemma_sess_index_unique(self.store@, session_id@);
                }
                Some(Session { user_id: self.store[i].session.user_id.clone() })
            },
            None => None,
        }
    }

    /// Adds or replaces the session under `session_id`.
    pub fn insert(&mut self, session_id: String, session: Session)
        requires
            old(self).wf(),
        ensures
            final(self).wf(),
            final(self).model() =~= old(self).model().insert(
                session_id@,
                session.spec_user_id(),
            ),
    {
        let ghost s0 = self.store@;
        match self.find(session_id.as_str()) {
            Some(i) => {
                proof {
                    assert(s0[i as int].session_id@ == session_id@);
                    assert(sess_has(s0, session_id@));
                }
                self.store[i] = SessionEntry { session_id, session };
                proof {
                    let t = self.store@;
                    assert(t =~= s0.update(i as int, t[i as int]));
                    assert forall|p: int, q: int|
                        #![trigger t[p], t[q]]
                        0 <= p < q < t.len() implies t[p].session_id@ != t[q].session_id@ by {
                        assert(t[p].session_id@ == s0[p].session_id@);
                        assert(t[q].session_id@ == s0[q].session_id@);
                        assert(s0[p].session_id@ != s0[q].session_id@);
                    }
                    assert forall|k: Seq<char>| true implies #[trigger] sess_has(t, k) == sess_has(
                        s0,
                        k,
                    ) by {
                        if sess_has(t, k) {
                            let p = choose|p: int|
                                0 <= p < t.len() && (#[trigger] t[p]).session_id@ == k;
                            assert(s0[p].session_id@ == k);
                            assert(sess_has(s0, k));
                        }
                        if sess_has(s0, k) {
                            let p = choose|p: int|
                                0 <= p < s0.len() && (#[trigger] s0[p]).session_id@ == k;
                            assert(t[p].session_id@ == k);
                            assert(sess_has(t, k));
                        }
                    }
                    assert forall|k: Seq<char>| #[trigger] sess_has(t, k) implies sess_map(t)[k]
                        == sess_map(s0).insert(session_id@, session.spec_user_id())[k] by {
                        lemma_sess_index_unique(t, k);
                        lemma_sess_index_unique(s0, k);
                        let p = sess_index(t, k);
                        assert(s0[p].session_id@ == k);
                        assert(sess_index(s0, k) == p);
                        if k == session_id@ {
                            assert(p == i);
                        } else {
                            assert(p != i);
                            assert(t[p] == s0[p]);
                        }
                    }
                }
            },
            None => {
                self.store.push(SessionEntry { session_id, session });
                proof {
                    let t = self.store@;
                    assert forall|p: int, q: int|
                        #![trigger t[p], t[q]]
                        0 <= p < q < t.len() implies t[p].session_id@ != t[q].session_id@ by {
                        if q < s0.len() {
                            assert(s0[p].session_id@ != s0[q].session_id@);
                        } else {
                            assert(t[p] == s0[p]);
                            if s0[p].session_id@ == session_id@ {
                                assert(sess_has(s0, session_id@));
                            }
                        }
                    }
                    assert forall|k: Seq<char>| true implies #[trigger] sess_has(t, k) == (sess_has(
                        s0,
                        k,
                    ) || k == session_id@) by {
                        if sess_has(t, k) {
                            let p = choose|p: int|
                                0 <= p < t.len() && (#[trigger] t[p]).session_id@ == k;
                            if p < s0.len() {
                                assert(s0[p].session_id@ == k);
                                assert(sess_has(s0, k));
                            }
                        }
                        if sess_has(s0, k) {
                            let p = choose|p: int|
                                0 <= p < s0.len() && (#[trigger] s0[p]).session_id@ == k;
                            assert(t[p].session_id@ == k);
                            assert(sess_has(t, k));
                        }
                        if k == session_id@ {
                            assert(t[s0.len() as int].session_id@ == k);
                            assert(sess_has(t, k));
                        }
                    }
                    assert forall|k: Seq<char>| #[trigger] sess_has(t, k) implies sess_map(t)[k]
                        == sess_map(s0).insert(session_id@, session.spec_user_id())[k] by {
                        lemma_sess_index_unique(t, k);
                        let p = sess_index(t, k);
                        if k == session_id@ {
                            assert(t[s0.len() as int].session_id@ == k);
                            assert(p == s0.len());
                        } else {
                            assert(p < s0.len());
                            assert(s0[p].session_id@ == k);
                            assert(sess_has(s0, k));
                            lemma_sess_index_unique(s0, k);
                            assert(sess_index(s0, k) == p);
                            assert(t[p] == s0[p]);
                        }
                    }
                }
            },
        }
    }

    /// Removes the session under `session_id`, if any.
    pub fn remove(&mut self, session_id: &str)
        requires
            old(self).wf(),
        ensures
            final(self).wf(),
            final(self).model() =~= old(self).model().remove(session_id@),
    {
        let ghost s0 = self.store@;
        match self.find(session_id) {
            Some(i) => {
                proof {
                    assert(s0[i as int].session_id@ == session_id@);
                    assert(sess_has(s0, session_id@));
                }
                self.store.remove(i);
                proof {
                    let t = self.store@;
                    assert forall|p: int, q: int|
                        #![trigger t[p], t[q]]
                        0 <= p < q < t.len() implies t[p].session_id@ != t[q].session_id@ by {
                        let p0 = if p < i {
                            p
                        } else {
                            p + 1
                        };
                        let q0 = if q < i {
                            q
                        } else {
                            q + 1
                        };
                        assert(t[p] == s0[p0]);
                        assert(t[q] == s0[q0]);
                        assert(s0[p0].session_id@ != s0[q0].session_id@);
                    }
                    assert forall|k: Seq<char>| true implies #[trigger] sess_has(t, k) == (sess_has(
                        s0,
                        k,
                    ) && k != session_id@) by {
                        if sess_has(t, k) {
                            let p = choose|p: int|
                                0 <= p < t.len() && (#[trigger] t[p]).session_id@ == k;
                            let p0 = if p < i {
                                p
                            } else {
                                p + 1
                            };
                            assert(t[p] == s0[p0]);
                            assert(s0[p0].session_id@ == k);
                            assert(sess_has(s0, k));
                            if k == session_id@ {
                                assert(p0 != i);
                                if p0 < i {
                                    assert(s0[p0].session_id@ != s0[i as int].session_id@);
                                } else {
                                    assert(s0[i as int].session_id@ != s0[p0].session_id@);
                                }
                            }
                        }
                        if sess_has(s0, k) && k != session_id@ {
                            lemma_sess_index_unique(s0, k);
                            let p0 = sess_index(s0, k);
                            assert(p0 != i);
                            let p = if p0 < i {
                                p0
                            } else {
                                p0 - 1
                            };
                            assert(t[p] == s0[p0]);
                            assert(t[p].session_id@ == k);
                            assert(sess_has(t, k));
                        }
                    }
                    assert forall|k: Seq<char>| #[trigger] sess_has(t, k) implies sess_map(t)[k]
                        == sess_map(s0).remove(session_id@)[k] by {
                        lemma_sess_index_unique(t, k);
                        lemma_sess_index_unique(s0, k);
                        let p = sess_index(t, k);
                        let p0 = if p < i {
                            p
                        } else {
                            p + 1
                        };
                        assert(t[p] == s0[p0]);
                        assert(s0[p0].session_id@ == k);
                        assert(sess_index(s0, k) == p0);
                    }
                }
            },
            None => {
                proof {
                    assert(!sess_map(s0).contains_key(session_id@));
                    assert(sess_map(s0).remove(session_id@) =~= sess_map(s0));
                }
            },
        }
    }
}

} // verus!
