//! Issued-credential records: each credential id is single-use, bound to a
//! client address and a session id, and expires.
use vstd::prelude::*;
use crate::text::str_eq;

verus! {

/// How the gateway authenticates channel upgrades: a single fixed shared
/// token, or per-request ephemeral credentials issued by the gateway.
#[derive(Clone)]
pub enum AuthMode {
    Fixed(String),
    Ephemeral,
}

/// The body of a successful issuance response.
pub struct TokenResponse {
    pub token: String,
    pub session: String,
    pub expires_in: u64,
}

/// One issued, not yet used credential: its id, the address it is bound
/// to, its expiry instant in seconds, and the session it is bound to.
pub struct IssuedCredential {
    pub jti: String,
    pub ip: String,
    pub expires_at: u64,
    pub sid: String,
}

/// The set of issued, unused credentials, keyed by credential id.
pub struct CredentialStore {
    pub entries: Vec<IssuedCredential>,
}

/// The conditions under which an ephemeral-mode upgrade is accepted: the
/// claims bind the caller's address and session, the credential has not
/// expired, and its id is still recorded as unused.
pub open spec fn ephemeral_accepts(
    store: CredentialStore,
    sub: Seq<char>,
    cip: Seq<char>,
    exp: int,
    jti: Seq<char>,
    ip: Seq<char>,
    sid: Seq<char>,
    now: int,
) -> bool {
    cip == ip && sub == sid && exp > now && store.contains_jti(jti)
}

impl CredentialStore {
    /// At most one entry per credential id.
    pub open spec fn wf(self) -> bool {
        forall|i: int, j: int|
            0 <= i < j < self.entries@.len() ==> (#[trigger] self.entries@[i].jti)@ != (
            #[trigger] self.entries@[j].jti)@
    }

    /// The store holds an unused credential with this id.
    pub open spec fn contains_jti(self, j: Seq<char>) -> bool {
        exists|i: int| 0 <= i < self.entries@.len() && (#[trigger] self.entries@[i].jti)@ == j
    }

    /// Create an empty store.
    pub fn new() -> (r: CredentialStore)
        ensures
            r.wf(),
            r.entries@.len() == 0,
    {
        CredentialStore { entries: Vec::new() }
    }

    /// Record a freshly issued credential. An entry with the same id, if
    /// any, is replaced.
    pub fn insert(&mut self, c: IssuedCredential)
        requires
            old(self).wf(),
        ensures
            final(self).wf(),
            final(self).contains_jti(c.jti@),
            exists|i: int|
                0 <= i < final(self).entries@.len() && #[trigger] final(self).entries@[i] == c,
            forall|k: Seq<char>|
                k != c.jti@ ==> (final(self).contains_jti(k) <==> old(self).contains_jti(k)),
    {
        let n = self.entries.len();
        let mut i: usize = 0;
        while i < n
            invariant
                n == self.entries@.len(),
                i <= n,
                forall|j: int| 0 <= j < i ==> (#[trigger] self.entries@[j].jti)@ != c.jti@,
                *old(self) == *self,
                old(self).wf(),
            decreases n - i,
        {
            if str_eq(self.entries[i].jti.as_str(), c.jti.as_str()) {
                self.entries.set(i, c);
                proof {
                    assert(final(self).entries@[i as int] == c);
                    assert forall|k: Seq<char>| k != c.jti@ implies (final(self).contains_jti(k)
                        <==> old(self).contains_jti(k)) by {
                        if final(self).contains_jti(k) {
                            let x = choose|x: int|
                                0 <= x < final(self).entries@.len() && (#[trigger] final(self).entries@[x].jti)@ == k;
                            assert(old(self).entries@[x].jti@ == k);
                        }
                        if old(self).contains_jti(k) {
                            let x = choose|x: int|
                                0 <= x < old(self).entries@.len() && (#[trigger] old(self).entries@[x].jti)@ == k;
                            assert(final(self).entries@[x].jti@ == k);
                        }
                    }
                }
                return ;
            }
            i = i + 1;
        }
        self.entries.push(c);
        proof {
            assert(final(self).entries@[final(self).entries@.len() - 1] == c);
            assert forall|k: Seq<char>| k != c.jti@ implies (final(self).contains_jti(k) <==> old(self).contains_jti(k)) by {
                if final(self).contains_jti(k) {
                    let x = choose|x: int|
                        0 <= x < final(self).entries@.len() && (#[trigger] final(self).entries@[x].jti)@ == k;
                    assert(x < old(self).entries@.len());
                    assert(old(self).entries@[x].jti@ == k);
                }
                if old(self).contains_jti(k) {
                    let x = choose|x: int|
                        0 <= x < old(self).entries@.len() && (#[trigger] old(self).entries@[x].jti)@ == k;
                    assert(final(self).entries@[x].jti@ == k);
                }
            }
        }
    }

    /// Remove and return the credential with id `j`, if the store holds
    /// one: the linearization point of single use.
    pub fn take(&mut self, j: &str) -> (r: Option<IssuedCredential>)
        requires
            old(self).wf(),
        ensures
            final(self).wf(),
            r is Some <==> old(self).contains_jti(j@),
            !final(self).contains_jti(j@),
            forall|k: Seq<char>|
                k != j@ ==> (final(self).contains_jti(k) <==> old(self).contains_jti(k)),
            r is Some ==> r->0.jti@ == j@ && exists|i: int|
                0 <= i < old(self).entries@.len() && #[trigger] old(self).entries@[i] == r->0,
            r is None ==> final(self).entries@ == old(self).entries@,
    {
        let n = self.entries.len();
        let mut i: usize = 0;
        while i < n
            invariant
                n == self.entries@.len(),
                i <= n,
                forall|x: int| 0 <= x < i ==> (#[trigger] self.entries@[x].jti)@ != j@,
                *old(self) == *self,
                old(self).wf(),
            decreases n - i,
        {
            if str_eq(self.entries[i].jti.as_str(), j) {
                let c = self.entries.remove(i);
                proof {
                    assert(old(self).entries@[i as int] == c);
                    assert forall|k: Seq<char>| final(self).contains_jti(k) implies old(self).contains_jti(k) by {
                        let x = choose|x: int|
                            0 <= x < final(self).entries@.len() && (#[trigger] final(self).entries@[x].jti)@ == k;
                        if x < i {
                            assert(old(self).entries@[x].jti@ == k);
                        } else {
                            assert(old(self).entries@[x + 1].jti@ == k);
                        }
                    }
                    assert(!final(self).contains_jti(j@)) by {
                        if final(self).contains_jti(j@) {
                            let x = choose|x: int|
                                0 <= x < final(self).entries@.len() && (#[trigger] final(self).entries@[x].jti)@ == j@;
                            if x < i {
                                assert(old(self).entries@[x].jti@ == j@);
                            } else {
                                assert(old(self).entries@[x + 1].jti@ == j@);
                            }
                        }
                    }
                    assert forall|k: Seq<char>| k != j@ && old(self).contains_jti(k) implies final(self).contains_jti(k) by {
                        let x = choose|x: int|
                            0 <= x < old(self).entries@.len() && (#[trigger] old(self).entries@[x].jti)@ == k;
                        if x < i {
                            assert(final(self).entries@[x].jti@ == k);
                        } else {
                            assert(x > i);
                            assert(final(self).entries@[x - 1].jti@ == k);
                        }
                    }
                }
                return Some(c);
            }
            i = i + 1;
        }
        None
    }

    /// The entries that have not expired by `now`.
    pub open spec fn live_entries(s: Seq<IssuedCredential>, now: u64) -> Seq<IssuedCredential>
        decreases s.len(),
    {
        if s.len() == 0 {
            s
        } else if s.last().expires_at > now {
            Self::live_entries(s.drop_last(), now).push(s.last())
        } else {
            Self::live_entries(s.drop_last(), now)
        }
    }

    /// Drop every expired entry: the credential garbage-collection sweep.
    pub fn sweep_expired(&mut self, now: u64)
        requires
            old(self).wf(),
        ensures
            final(self).wf(),
            final(self).entries@ == Self::live_entries(old(self).entries@, now),
            forall|i: int|
                0 <= i < final(self).entries@.len() ==> #[trigger] final(self).entries@[i].expires_at > now,
    {
        let n = self.entries.len();
        let mut out: Vec<IssuedCredential> = Vec::new();
        let mut i: usize = 0;
        while i < n
            invariant
                n == self.entries@.len(),
                i <= n,
                *old(self) == *self,
                old(self).wf(),
                out@ == Self::live_entries(self.entries@.subrange(0, i as int), now),
                forall|x: int| 0 <= x < out@.len() ==> #[trigger] out@[x].expires_at > now,
                forall|x: int, y: int|
                    0 <= x < y < out@.len() ==> (#[trigger] out@[x].jti)@ != (
                    #[trigger] out@[y].jti)@,
                forall|x: int|
                    0 <= x < out@.len() ==> exists|y: int|
                        0 <= y < i && #[trigger] out@[x] == self.entries@[y],
            decreases n - i,
        {
            proof {
                assert(self.entries@.subrange(0, i + 1).drop_last() =~= self.entries@.subrange(
                    0,
                    i as int,
                ));
            }
            let keep = self.entries[i].expires_at > now;
            if keep {
                let jti = self.entries[i].jti.clone();
                let ip = self.entries[i].ip.clone();
                let expires_at = self.entries[i].expires_at;
                let sid = self.entries[i].sid.clone();
                let c = IssuedCredential { jti, ip, expires_at, sid };
                assert(c == self.entries@[i as int]);
                proof {
                    assert forall|x: int| 0 <= x < out@.len() implies (#[trigger] out@[x].jti)@
                        != c.jti@ by {
                        let y = choose|y: int| 0 <= y < i && #[trigger] out@[x] == self.entries@[y];
                        assert(self.entries@[y].jti@ != self.entries@[i as int].jti@);
                    }
                }
                out.push(c);
            }
            assert(out@ =~= Self::live_entries(self.entries@.subrange(0, i + 1), now));
            i = i + 1;
        }
        proof {
            assert(self.entries@.subrange(0, n as int) =~= self.entries@);
        }
        self.entries = out;
    }
}

/// Single use: once a credential id has been taken from the store by a
/// successful validation, no later validation attempt with the same id is
/// accepted, whatever claims, address, session or time it comes with.
pub proof fn lemma_credential_single_use(after: CredentialStore, jti: Seq<char>)
    requires
        !after.contains_jti(jti),
    ensures
        forall|sub: Seq<char>, cip: Seq<char>, exp: int, ip: Seq<char>, sid: Seq<char>, now: int|
            !#[trigger] ephemeral_accepts(after, sub, cip, exp, jti, ip, sid, now),
{
}

} // verus!
