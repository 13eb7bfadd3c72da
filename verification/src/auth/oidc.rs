//! State for ongoing OIDC login flows.
//!
//! The provider registry itself performs network discovery and lives with
//! the surrounding application; this module holds the verified part: the
//! pending-login store, whose entries expire after a configured time to
//! live.  The caller passes the current time in milliseconds, so the expiry
//! decisions are checked for every clock reading.

use vstd::prelude::*;

use crate::text::str_eq;

verus! {

/// Errors that can happen during an OIDC login process.  Underlying causes
/// are carried as rendered messages.
#[derive(Debug, Clone)]
pub enum OidcError {
    InvalidIssuer { provider: String, source: String },
    Discovery { provider: String, source: String },
    NoScopes { provider: String },
    UnknownProvider(String),
}

/// The state an OIDC login needs to finish safely.  The nonce, PKCE
/// verifier and redirect URL are carried as their string forms; the
/// creation instant as milliseconds on the caller's clock.
pub struct PendingLogin {
    pub provier_id: String,
    pub nonce: String,
    pub pkce_verifier: String,
    pub redirect_url: String,
    pub created_at: u64,
}

/// Milliseconds elapsed since the login was created, saturating at zero for
/// a clock that moved backwards.
pub open spec fn elapsed_ms(pl: PendingLogin, now_ms: u64) -> int {
    if now_ms >= pl.created_at {
        now_ms - pl.created_at
    } else {
        0
    }
}

struct PendingEntry {
    state: String,
    login: PendingLogin,
}

spec fn pend_ids_distinct(s: Seq<PendingEntry>) -> bool {
    forall|i: int, j: int|
        #![trigger s[i], s[j]]
        0 <= i < j < s.len() ==> s[i].state@ != s[j].state@
}

spec fn pend_has(s: Seq<PendingEntry>, k: Seq<char>) -> bool {
    exists|i: int| 0 <= i < s.len() && (#[trigger] s[i]).state@ == k
}

spec fn pend_index(s: Seq<PendingEntry>, k: Seq<char>) -> int {
    choose|i: int| 0 <= i < s.len() && (#[trigger] s[i]).state@ == k
}

spec fn pend_get(s: Seq<PendingEntry>, k: Seq<char>) -> Option<PendingLogin> {
    if pend_has(s, k) {
        Some(s[pend_index(s, k)].login)
    } else {
        None
    }
}

proof fn lemma_pend_index_unique(s: Seq<PendingEntry>, k: Seq<char>)
    requires
        pend_ids_distinct(s),
        pend_has(s, k),
    ensures
        0 <= pend_index(s, k) < s.len(),
        s[pend_index(s, k)].state@ == k,
        forall|i: int| 0 <= i < s.len() && (#[trigger] s[i]).state@ == k ==> i == pend_index(s, k),
{
    let idx = pend_index(s, k);
    assert(0 <= idx < s.len() && s[idx].state@ == k);
    assert forall|i: int| 0 <= i < s.len() && (#[trigger] s[i]).state@ == k implies i == idx by {
        if i < idx {
            assert(s[i].state@ != s[idx].state@);
        } else if idx < i {
            assert(s[idx].state@ != s[i].state@);
        }
    }
}

proof fn lemma_pend_replace(s: Seq<PendingEntry>, i: int, e: PendingEntry)
    requires
        pend_ids_distinct(s),
        0 <= i < s.len(),
        e.state@ == s[i].state@,
    ensures
        pend_ids_distinct(s.update(i, e)),
        pend_get(s.update(i, e), e.state@) == Some(e.login),
        forall|k: Seq<char>|
            k != e.state@ ==> #[trigger] pend_get(s.update(i, e), k) == pend_get(s, k),
{
    let t = s.update(i, e);
    assert forall|p: int, q: int|
        #![trigger t[p], t[q]]
        0 <= p < q < t.len() implies t[p].state@ != t[q].state@ by {
        assert(t[p].state@ == s[p].state@);
        assert(t[q].state@ == s[q].state@);
        assert(s[p].state@ != s[q].state@);
    }
    assert(t[i].state@ == e.state@);
    assert(pend_has(t, e.state@));
    lemma_pend_index_unique(t, e.state@);
    assert forall|k: Seq<char>| k != e.state@ implies #[trigger] pend_get(t, k) == pend_get(
        s,
        k,
    ) by {
        if pend_has(t, k) {
            lemma_pend_index_unique(t, k);
            let p = pend_index(t, k);
            assert(p != i);
            assert(t[p] == s[p]);
            assert(s[p].state@ == k);
            assert(pend_has(s, k));
            lemma_pend_index_unique(s, k);
            assert(pend_index(s, k) == p);
        }
        if pend_has(s, k) {
            lemma_pend_index_unique(s, k);
            let p = pend_index(s, k);
            assert(p != i);
            assert(t[p].state@ == k);
            assert(pend_has(t, k));
        }
    }
}

proof fn lemma_pend_push(s: Seq<PendingEntry>, e: PendingEntry)
    requires
        pend_ids_distinct(s),
        !pend_has(s, e.state@),
    ensures
        pend_ids_distinct(s.push(e)),
        pend_get(s.push(e), e.state@) == Some(e.login),
        forall|k: Seq<char>| k != e.state@ ==> #[trigger] pend_get(s.push(e), k) == pend_get(s, k),
{
    let t = s.push(e);
    assert forall|p: int, q: int|
        #![trigger t[p], t[q]]
        0 <= p < q < t.len() implies t[p].state@ != t[q].state@ by {
        if q < s.len() {
            assert(s[p].state@ != s[q].state@);
        } else {
            assert(t[p] == s[p]);
            if s[p].state@ == e.state@ {
                assert(pend_has(s, e.state@));
            }
        }
    }
    assert(t[s.len() as int].state@ == e.state@);
    assert(pend_has(t, e.state@));
    lemma_pend_index_unique(t, e.state@);
    assert forall|k: Seq<char>| k != e.state@ implies #[trigger] pend_get(t, k) == pend_get(
        s,
        k,
    ) by {
        if pend_has(t, k) {
            lemma_pend_index_unique(t, k);
            let p = pend_index(t, k);
            assert(p < s.len());
            assert(s[p].state@ == k);
            assert(pend_has(s, k));
            lemma_pend_index_unique(s, k);
            assert(pend_index(s, k) == p);
        }
        if pend_has(s, k) {
            lemma_pend_index_unique(s, k);
            let p = pend_index(s, k);
            assert(t[p].state@ == k);
            assert(pend_has(t, k));
        }
    }
}

proof fn lemma_pend_remove(s: Seq<PendingEntry>, i: int)
    requires
        pend_ids_distinct(s),
        0 <= i < s.len(),
    ensures
        pend_ids_distinct(s.remove(i)),
        pend_get(s.remove(i), s[i].state@) is None,
        forall|k: Seq<char>|
            k != s[i].state@ ==> #[trigger] pend_get(s.remove(i), k) == pend_get(s, k),
{
    let t = s.remove(i);
    assert forall|p: int, q: int|
        #![trigger t[p], t[q]]
        0 <= p < q < t.len() implies t[p].state@ != t[q].state@ by {
        let p0 = if p < i {
            p
        } else {
            p + 1
        };
        let q0 = if q < i {
            q
        } else {
            q + 1
        };
        assert(t[p] == s[p0]);
        assert(t[q] == s[q0]);
        assert(s[p0].state@ != s[q0].state@);
    }
    assert forall|k: Seq<char>| true implies #[trigger] pend_has(t, k) == (pend_has(s, k) && k
        != s[i].state@) by {
        if pend_has(t, k) {
            let p = choose|p: int| 0 <= p < t.len() && (#[trigger] t[p]).state@ == k;
            let p0 = if p < i {
                p
            } else {
                p + 1
            };
            assert(t[p] == s[p0]);
            assert(s[p0].state@ == k);
            assert(pend_has(s, k));
            if k == s[i].state@ {
                assert(p0 != i);
                if p0 < i {
                    assert(s[p0].state@ != s[i].state@);
                } else {
                    assert(s[i].state@ != s[p0].state@);
                }
            }
        }
        if pend_has(s, k) && k != s[i].state@ {
            lemma_pend_index_unique(s, k);
            let p0 = pend_index(s, k);
            assert(p0 != i);
            let p = if p0 < i {
                p0
            } else {
                p0 - 1
            };
            assert(t[p] == s[p0]);
            assert(t[p].state@ == k);
            assert(pend_has(t, k));
        }
    }
    assert forall|k: Seq<char>|
        k != s[i].state@ && pend_has(t, k) implies t[pend_index(t, k)].login == s[pend_index(
        s,
        k,
    )].login by {
        lemma_pend_index_unique(t, k);
        lemma_pend_index_unique(s, k);
        let p = pend_index(t, k);
        let p0 = if p < i {
            p
        } else {
            p + 1
        };
        assert(t[p] == s[p0]);
        assert(s[p0].state@ == k);
        assert(pend_index(s, k) == p0);
    }
}

/// Stores the state of ongoing OIDC logins, keyed by the flow's `state`
/// value, each entry expiring `ttl_ms` milliseconds after its creation.
pub struct PendingLoginStore {
    ttl_ms: u64,
    inner: Vec<PendingEntry>,
}

impl PendingLoginStore {
    /// The pending login stored under `k`, if any.
    pub closed spec fn pending(&self, k: Seq<char>) -> Option<PendingLogin> {
        pend_get(self.inner@, k)
    }

    /// The configured time to live, in milliseconds.
    pub closed spec fn ttl(&self) -> u64 {
        self.ttl_ms
    }

    pub closed spec fn wf(&self) -> bool {
        pend_ids_distinct(self.inner@)
    }

    /// An empty store with the given time to live.
    pub fn new(ttl_ms: u64) -> (r: Self)
        ensures
            r.wf(),
            r.ttl() == ttl_ms,
            forall|k: Seq<char>| (#[trigger] r.pending(k)) is None,
    {
        let r = PendingLoginStore { ttl_ms, inner: Vec::new() };
        proof {
            assert forall|k: Seq<char>| !(#[trigger] pend_has(r.inner@, k)) by {
                assert(r.inner@.len() == 0);
            }
        }
        r
    }

    fn find(&self, state: &str) -> (r: Option<usize>)
        ensures
            match r {
                Some(i) => i < self.inner@.len() && self.inner@[i as int].state@ == state@,
                None => !pend_has(self.inner@, state@),
            },
    {
        let n = self.inner.len();
        let mut i: usize = 0;
        while i < n
            invariant
                n == self.inner@.len(),
                i <= n,
                forall|j: int| 0 <= j < i ==> (#[trigger] self.inner@[j]).state@ != state@,
            decreases n - i,
        {
            if str_eq(self.inner[i].state.as_str(), state) {
                return Some(i);
            }
            i = i + 1;
        }
        None
    }

    /// Inserts a pending login under the flow's `state` value, replacing
    /// any entry already stored there.
    pub fn insert(&mut self, state: String, pl: PendingLogin)
        requires
            old(self).wf(),
        ensures
            final(self).wf(),
            final(self).ttl() == old(self).ttl(),
            final(self).pending(state@) == Some(pl),
            forall|k: Seq<char>|
                k != state@ ==> #[trigger] final(self).pending(k) == old(self).pending(k),
    {
        let ghost s0 = self.inner@;
        let ghost glogin = pl;
        match self.find(state.as_str()) {
            Some(i) => {
                proof {
                    assert(s0[i as int].state@ == state@);
                }
                let entry = PendingEntry { state, login: pl };
                proof {
                    lemma_pend_replace(s0, i as int, entry);
                }
                self.inner[i] = entry;
            },
            None => {
                let entry = PendingEntry { state, login: pl };
                proof {
                    lemma_pend_push(s0, entry);
                }
                self.inner.push(entry);
            },
        }
    }

    /// Takes the pending login stored under `state` out of the store; a
    /// login whose time to live has elapsed is dropped and reported as if
    /// it never existed.
    pub fn take(&mut self, state: &str, now_ms: u64) -> (r: Option<PendingLogin>)
        requires
            old(self).wf(),
        ensures
            final(self).wf(),
            final(self).ttl() == old(self).ttl(),
            final(self).pending(state@) is None,
            forall|k: Seq<char>|
                k != state@ ==> #[trigger] final(self).pending(k) == old(self).pending(k),
            match r {
                Some(pl) => old(self).pending(state@) == Some(pl) && elapsed_ms(pl, now_ms) <= old(
                    self,
                ).ttl(),
                None => match old(self).pending(state@) {
                    Some(pl) => elapsed_ms(pl, now_ms) > old(self).ttl(),
                    None => true,
                },
            },
    {
        let ghost s0 = self.inner@;
        let i = match self.find(state) {
            Some(i) => i,
            None => {
                return None;
            },
        };
        proof {
            assert(s0[i as int].state@ == state@);
            assert(pend_has(s0, state@));
            lemma_pend_index_unique(s0, state@);
            assert(pend_index(s0, state@) == i);
            lemma_pend_remove(s0, i as int);
        }
        let entry = self.inner.remove(i);
        let pl = entry.login;
        let elapsed = if now_ms >= pl.created_at {
            now_ms - pl.created_at
        } else {
            0
        };
        if elapsed > self.ttl_ms {
            None
        } else {
            Some(pl)
        }
    }

    /// Drops every pending login whose time to live has fully elapsed.
    pub fn gc(&mut self, now_ms: u64)
        requires
            old(self).wf(),
        ensures
            final(self).wf(),
            final(self).ttl() == old(self).ttl(),
            forall|k: Seq<char>|
                #[trigger] final(self).pending(k) == match old(self).pending(k) {
                    Some(pl) => if elapsed_ms(pl, now_ms) < old(self).ttl() {
                        Some(pl)
                    } else {
                        None
                    },
                    None => None,
                },
    {
        let ghost s0 = self.inner@;
        let n = self.inner.len();
        let ttl = self.ttl_ms;
        let mut kept: Vec<PendingEntry> = Vec::new();
        let mut i: usize = 0;
        while i < n
            invariant
                n == s0.len(),
                i <= n,
                s0 == self.inner@,
                ttl == self.ttl_ms,
                pend_ids_distinct(s0),
                pend_ids_distinct(kept@),
                forall|p: int|
                    #![trigger kept@[p]]
                    0 <= p < kept@.len() ==> exists|q: int|
                        #![trigger s0[q]]
                        0 <= q < i && kept@[p] == s0[q],
                forall|q: int|
                    0 <= q < i ==> (#[trigger] pend_has(kept@, s0[q].state@)) == (elapsed_ms(
                        s0[q].login,
                        now_ms,
                    ) < ttl),
            decreases n - i,
        {
            let fresh_enough = {
                let created = self.inner[i].login.created_at;
                let elapsed = if now_ms >= created {
                    now_ms - created
                } else {
                    0
                };
                elapsed < ttl
            };
            let ghost kept_pre = kept@;
            if fresh_enough {
                proof {
                    if pend_has(kept@, s0[i as int].state@) {
                        let p = choose|p: int|
                            0 <= p < kept@.len() && (#[trigger] kept@[p]).state@ == s0[i as int].state@;
                        let q = choose|q: int| 0 <= q < i && #[trigger] kept@[p] == s0[q];
                        assert(s0[q].state@ == s0[i as int].state@);
                        assert(s0[q].state@ != s0[i as int].state@);
                    }
                    lemma_pend_push(kept@, s0[i as int]);
                }
                let src_entry = &self.inner[i];
                let entry = PendingEntry {
                    state: src_entry.state.clone(),
                    login: PendingLogin {
                        provier_id: src_entry.login.provier_id.clone(),
                        nonce: src_entry.login.nonce.clone(),
                        pkce_verifier: src_entry.login.pkce_verifier.clone(),
                        redirect_url: src_entry.login.redirect_url.clone(),
                        created_at: src_entry.login.created_at,
                    },
                };
                proof {
                    assert(entry == s0[i as int]);
                }
                kept.push(entry);
            }
            proof {
                assert forall|q: int|
                    0 <= q < i + 1 implies (#[trigger] pend_has(kept@, s0[q].state@)) == (
                elapsed_ms(s0[q].login, now_ms) < ttl) by {
                    if q < i {
                        if pend_has(kept_pre, s0[q].state@) {
                            let p = choose|p: int|
                                0 <= p < kept_pre.len() && (#[trigger] kept_pre[p]).state@
                                    == s0[q].state@;
                            assert(kept@[p].state@ == s0[q].state@);
                            assert(pend_has(kept@, s0[q].state@));
                        }
                        if pend_has(kept@, s0[q].state@) && !pend_has(kept_pre, s0[q].state@) {
                            let p = choose|p: int|
                                0 <= p < kept@.len() && (#[trigger] kept@[p]).state@
                                    == s0[q].state@;
                            assert(p == kept_pre.len());
                            assert(kept@[p] == s0[i as int]);
                            assert(s0[i as int].state@ == s0[q].state@);
                            assert(s0[q].state@ != s0[i as int].state@);
                        }
                    } else {
                        if fresh_enough {
                            assert(kept@[kept_pre.len() as int].state@ == s0[q].state@);
                            assert(pend_has(kept@, s0[q].state@));
                        } else {
                            if pend_has(kept@, s0[q].state@) {
                                let p = choose|p: int|
                                    0 <= p < kept@.len() && (#[trigger] kept@[p]).state@
                                        == s0[q].state@;
                                let q2 = choose|q2: int|
                                    0 <= q2 < i && #[trigger] kept@[p] == s0[q2];
                                assert(s0[q2].state@ == s0[i as int].state@);
                                assert(s0[q2].state@ != s0[i as int].state@);
                            }
                        }
                    }
                }
            }
            i = i + 1;
        }
        self.inner = kept;
        proof {
            assert forall|k: Seq<char>| true implies #[trigger] pend_get(self.inner@, k) == (
            match pend_get(s0, k) {
                Some(pl) => if elapsed_ms(pl, now_ms) < ttl {
                    Some(pl)
                } else {
                    None
                },
                None => None,
            }) by {
                if pend_has(s0, k) {
                    lemma_pend_index_unique(s0, k);
                    let q = pend_index(s0, k);
                    assert(pend_has(self.inner@, s0[q].state@) == (elapsed_ms(s0[q].login, now_ms)
                        < ttl));
                    if pend_has(self.inner@, k) {
                        lemma_pend_index_unique(self.inner@, k);
                        let p = pend_index(self.inner@, k);
                        let q2 = choose|q2: int|
                            0 <= q2 < n && #[trigger] self.inner@[p] == s0[q2];
                        assert(s0[q2].state@ == k);
                        assert(q2 == q);
                        assert(self.inner@[p].login == s0[q].login);
                    }
                } else {
                    if pend_has(self.inner@, k) {
                        let p = choose|p: int|
                            0 <= p < self.inner@.len() && (#[trigger] self.inner@[p]).state@ == k;
                        let q2 = choose|q2: int|
                            0 <= q2 < n && #[trigger] self.inner@[p] == s0[q2];
                        assert(s0[q2].state@ == k);
                        assert(pend_has(s0, k));
                    }
                }
            }
        }
    }
}

} // verus!
