//! Per-session state and the session table: pending-request correlation
//! slots, activity tracking, the bounded access log, and idle
//! garbage-collection.
use vstd::prelude::*;
use crate::protocol::AccessLogEntry;
use crate::text::str_eq;

verus! {

/// Most recent access-log entries kept per session.
pub const LOG_CAP: usize = 50;

/// The state kept for one live session: which request ids still await a
/// response, when the session was created and last active, and its
/// bounded access log.
pub struct SessionState {
    pub sid: String,
    pub pending: Vec<u64>,
    pub created_at: u64,
    pub last_seen: u64,
    pub access_log: Vec<AccessLogEntry>,
}

impl SessionState {
    /// Pending ids are unique and the log is bounded.
    pub open spec fn wf(self) -> bool {
        &&& forall|i: int, j: int|
            0 <= i < j < self.pending@.len() ==> self.pending@[i] != self.pending@[j]
        &&& self.access_log@.len() <= LOG_CAP
    }

    /// A completion slot for `id` is still outstanding.
    pub open spec fn has_pending(self, id: u64) -> bool {
        self.pending@.contains(id)
    }
}

/// Index of the session for `sid`, or -1 when there is none.
pub open spec fn sid_idx(s: Seq<SessionState>, sid: Seq<char>) -> int
    decreases s.len(),
{
    if s.len() == 0 {
        -1
    } else if s[0].sid@ == sid {
        0
    } else {
        let r = sid_idx(s.drop_first(), sid);
        if r < 0 {
            -1
        } else {
            r + 1
        }
    }
}

pub proof fn lemma_sid_idx_found(s: Seq<SessionState>, sid: Seq<char>, i: int)
    requires
        0 <= i < s.len(),
        s[i].sid@ == sid,
        forall|j: int| 0 <= j < i ==> (#[trigger] s[j].sid)@ != sid,
    ensures
        sid_idx(s, sid) == i,
    decreases i,
{
    if i > 0 {
        let t = s.drop_first();
        assert(t[i - 1].sid@ == sid);
        assert(forall|j: int| 0 <= j < i - 1 ==> (#[trigger] t[j].sid)@ != sid);
        lemma_sid_idx_found(t, sid, i - 1);
    }
}

pub proof fn lemma_sid_idx_missing(s: Seq<SessionState>, sid: Seq<char>)
    requires
        forall|j: int| 0 <= j < s.len() ==> (#[trigger] s[j].sid)@ != sid,
    ensures
        sid_idx(s, sid) == -1,
    decreases s.len(),
{
    if s.len() > 0 {
        let t = s.drop_first();
        assert(forall|j: int| 0 <= j < t.len() ==> (#[trigger] t[j].sid)@ != sid);
        lemma_sid_idx_missing(t, sid);
    }
}

/// What a non-negative session index means, element by element.
pub proof fn lemma_sid_idx_props(s: Seq<SessionState>, sid: Seq<char>)
    ensures
        sid_idx(s, sid) >= 0 ==> 0 <= sid_idx(s, sid) < s.len() && s[sid_idx(s, sid)].sid@ == sid
            && forall|j: int| 0 <= j < sid_idx(s, sid) ==> (#[trigger] s[j].sid)@ != sid,
        sid_idx(s, sid) == -1 ==> forall|j: int| 0 <= j < s.len() ==> (#[trigger] s[j].sid)@ != sid,
    decreases s.len(),
{
    if s.len() > 0 {
        let t = s.drop_first();
        lemma_sid_idx_props(t, sid);
        if s[0].sid@ != sid {
            if sid_idx(t, sid) >= 0 {
                assert forall|j: int| 0 <= j < sid_idx(s, sid) implies (#[trigger] s[j].sid)@
                    != sid by {
                    if j > 0 {
                        assert(t[j - 1].sid@ != sid);
                    }
                }
            } else {
                assert forall|j: int| 0 <= j < s.len() implies (#[trigger] s[j].sid)@ != sid by {
                    if j > 0 {
                        assert(t[j - 1].sid@ != sid);
                    }
                }
            }
        }
    }
}

/// The table of live sessions, keyed by session id.
pub struct SessionTable {
    pub sessions: Vec<SessionState>,
}

impl SessionTable {
    /// At most one session per id, each with its own invariant.
    pub open spec fn wf(self) -> bool {
        &&& forall|i: int, j: int|
            0 <= i < j < self.sessions@.len() ==> (#[trigger] self.sessions@[i].sid)@ != (
            #[trigger] self.sessions@[j].sid)@
        &&& forall|i: int|
            0 <= i < self.sessions@.len() ==> (#[trigger] self.sessions@[i]).wf()
    }

    /// A session for `sid` is live.
    pub open spec fn contains_sid(self, sid: Seq<char>) -> bool {
        sid_idx(self.sessions@, sid) >= 0
    }

    /// Create an empty table.
    pub fn new() -> (r: SessionTable)
        ensures
            r.wf(),
            r.sessions@.len() == 0,
    {
        SessionTable { sessions: Vec::new() }
    }

    /// Number of live sessions: the active-sessions gauge.
    pub fn active_sessions(&self) -> (r: usize)
        ensures
            r == self.sessions@.len(),
    {
        self.sessions.len()
    }

    /// Find the position of `sid`'s session.
    fn find(&self, sid: &str) -> (r: Option<usize>)
        ensures
            match r {
                Some(i) => i < self.sessions@.len() && sid_idx(self.sessions@, sid@) == i
                    && self.sessions@[i as int].sid@ == sid@ && forall|j: int|
                    0 <= j < i ==> (#[trigger] self.sessions@[j].sid)@ != sid@,
                None => sid_idx(self.sessions@, sid@) == -1 && forall|j: int|
                    0 <= j < self.sessions@.len() ==> (#[trigger] self.sessions@[j].sid)@ != sid@,
            },
    {
        let n = self.sessions.len();
        let mut i: usize = 0;
        while i < n
            invariant
                n == self.sessions@.len(),
                i <= n,
                forall|j: int| 0 <= j < i ==> (#[trigger] self.sessions@[j].sid)@ != sid@,
            decreases n - i,
        {
            if str_eq(self.sessions[i].sid.as_str(), sid) {
                proof {
                    lemma_sid_idx_found(self.sessions@, sid@, i as int);
                }
                return Some(i);
            }
            i = i + 1;
        }
        proof {
            lemma_sid_idx_missing(self.sessions@, sid@);
        }
        None
    }

    /// Create the session for `sid` on upgrade success, replacing any
    /// session that still carries the same id.
    pub fn insert_session(&mut self, sid: &str, now: u64)
        requires
            old(self).wf(),
        ensures
            final(self).wf(),
            final(self).contains_sid(sid@),
            ({
                let i = sid_idx(old(self).sessions@, sid@);
                let n = final(self).sessions@.len() as int;
                if i < 0 {
                    &&& n == old(self).sessions@.len() + 1
                    &&& final(self).sessions@.subrange(0, n - 1) =~= old(self).sessions@
                    &&& final(self).sessions@[n - 1].sid@ == sid@
                    &&& final(self).sessions@[n - 1].pending@.len() == 0
                    &&& final(self).sessions@[n - 1].created_at == now
                    &&& final(self).sessions@[n - 1].last_seen == now
                    &&& final(self).sessions@[n - 1].access_log@.len() == 0
                } else {
                    &&& n == old(self).sessions@.len()
                    &&& forall|j: int| 0 <= j < n && j != i ==> final(self).sessions@[j] == old(self).sessions@[j]
                    &&& final(self).sessions@[i].sid@ == sid@
                    &&& final(self).sessions@[i].pending@.len() == 0
                    &&& final(self).sessions@[i].created_at == now
                    &&& final(self).sessions@[i].last_seen == now
                    &&& final(self).sessions@[i].access_log@.len() == 0
                }
            }),
    {
        let fresh = SessionState {
            sid: sid.to_owned(),
            pending: Vec::new(),
            created_at: now,
            last_seen: now,
            access_log: Vec::new(),
        };
        match self.find(sid) {
            Some(i) => {
                self.sessions.set(i, fresh);
                proof {
                    lemma_sid_idx_found(self.sessions@, sid@, sid_idx(old(self).sessions@, sid@));
                }
            },
            None => {
                self.sessions.push(fresh);
                proof {
                    lemma_sid_idx_found(
                        self.sessions@,
                        sid@,
                        self.sessions@.len() - 1,
                    );
                }
            },
        }
    }

    /// Tear the session down. Idempotent: only the first removal for a
    /// given id reports that it removed anything.
    pub fn remove_session(&mut self, sid: &str) -> (was: bool)
        requires
            old(self).wf(),
        ensures
            final(self).wf(),
            was <==> old(self).contains_sid(sid@),
            !final(self).contains_sid(sid@),
            ({
                let i = sid_idx(old(self).sessions@, sid@);
                if i < 0 {
                    final(self).sessions@ =~= old(self).sessions@
                } else {
                    &&& final(self).sessions@ =~= old(self).sessions@.remove(i)
                    &&& final(self).sessions@.len() == old(self).sessions@.len() - 1
                    &&& forall|a: int| 0 <= a < i ==> final(self).sessions@[a] == old(
                        self,
                    ).sessions@[a]
                    &&& forall|a: int|
                        i <= a < final(self).sessions@.len() ==> final(self).sessions@[a] == old(
                            self,
                        ).sessions@[a + 1]
                }
            }),
    {
        match self.find(sid) {
            None => {
                false
            },
            Some(i) => {
                self.sessions.remove(i);
                proof {
                    let ghost oldseq = old(self).sessions@;
                    let ghost gi = i as int;
                    assert forall|j: int|
                        0 <= j < final(self).sessions@.len() implies (#[trigger] final(self).sessions@[j].sid)@ != sid@ by {
                        if j < gi {
                            assert(final(self).sessions@[j] == oldseq[j]);
                        } else {
                            assert(final(self).sessions@[j] == oldseq[j + 1]);
                        }
                    }
                    lemma_sid_idx_missing(final(self).sessions@, sid@);
                }
                true
            },
        }
    }

    /// Refresh the session's last-activity instant.
    pub fn touch(&mut self, sid: &str, now: u64) -> (found: bool)
        requires
            old(self).wf(),
        ensures
            final(self).wf(),
            found <==> old(self).contains_sid(sid@),
            ({
                let i = sid_idx(old(self).sessions@, sid@);
                if i < 0 {
                    final(self).sessions@ =~= old(self).sessions@
                } else {
                    &&& final(self).sessions@.len() == old(self).sessions@.len()
                    &&& forall|j: int|
                        0 <= j < old(self).sessions@.len() && j != i ==> final(self).sessions@[j]
                            == old(self).sessions@[j]
                    &&& final(self).sessions@[i].sid == old(self).sessions@[i].sid
                    &&& final(self).sessions@[i].pending == old(self).sessions@[i].pending
                    &&& final(self).sessions@[i].created_at == old(self).sessions@[i].created_at
                    &&& final(self).sessions@[i].last_seen == now
                    &&& final(self).sessions@[i].access_log == old(self).sessions@[i].access_log
                }
            }),
    {
        match self.find(sid) {
            None => false,
            Some(i) => {
                let mut s = self.sessions.remove(i);
                s.last_seen = now;
                self.sessions.insert(i, s);
                proof {
                    assert(final(self).sessions@ =~= old(self).sessions@.update(
                        i as int,
                        final(self).sessions@[i as int],
                    ));
                }
                true
            },
        }
    }

    /// Record a fresh completion slot for `id` in `sid`'s session. Reports
    /// whether the session was found; an id already recorded is not
    /// duplicated.
    pub fn insert_pending(&mut self, sid: &str, id: u64) -> (found: bool)
        requires
            old(self).wf(),
        ensures
            final(self).wf(),
            found <==> old(self).contains_sid(sid@),
            ({
                let i = sid_idx(old(self).sessions@, sid@);
                if i < 0 {
                    final(self).sessions@ =~= old(self).sessions@
                } else {
                    &&& final(self).sessions@.len() == old(self).sessions@.len()
                    &&& forall|j: int|
                        0 <= j < old(self).sessions@.len() && j != i ==> final(self).sessions@[j]
                            == old(self).sessions@[j]
                    &&& final(self).sessions@[i].sid == old(self).sessions@[i].sid
                    &&& final(self).sessions@[i].created_at == old(self).sessions@[i].created_at
                    &&& final(self).sessions@[i].last_seen == old(self).sessions@[i].last_seen
                    &&& final(self).sessions@[i].access_log == old(self).sessions@[i].access_log
                    &&& final(self).sessions@[i].has_pending(id)
                    &&& (if old(self).sessions@[i].has_pending(id) {
                        final(self).sessions@[i].pending == old(self).sessions@[i].pending
                    } else {
                        final(self).sessions@[i].pending@ =~= old(self).sessions@[i].pending@.push(id)
                    })
                    &&& forall|k: u64|
                        k != id ==> (final(self).sessions@[i].has_pending(k) <==> old(self).sessions@[i].has_pending(k))
                }
            }),
    {
        match self.find(sid) {
            None => false,
            Some(i) => {
                let mut s = self.sessions.remove(i);
                let mut already = false;
                let m = s.pending.len();
                let mut k: usize = 0;
                while k < m
                    invariant
                        m == s.pending@.len(),
                        k <= m,
                        already <==> exists|x: int| 0 <= x < k && s.pending@[x] == id,
                    decreases m - k,
                {
                    if s.pending[k] == id {
                        already = true;
                    }
                    k = k + 1;
                }
                assert(already <==> s.has_pending(id));
                if !already {
                    s.pending.push(id);
                }
                self.sessions.insert(i, s);
                proof {
                    assert(final(self).sessions@ =~= old(self).sessions@.update(
                        i as int,
                        final(self).sessions@[i as int],
                    ));
                    let ghost sold = old(self).sessions@[i as int];
                    let ghost snew = final(self).sessions@[i as int];
                    if !sold.has_pending(id) {
                        assert forall|k2: u64| k2 != id implies (snew.has_pending(k2) <==> sold
                            .has_pending(k2)) by {
                            if snew.has_pending(k2) {
                                let x = choose|x: int|
                                    0 <= x < snew.pending@.len() && snew.pending@[x] == k2;
                                assert(x < sold.pending@.len());
                                assert(sold.pending@[x] == k2);
                                assert(sold.pending@.contains(k2));
                            }
                            if sold.has_pending(k2) {
                                let x = choose|x: int|
                                    0 <= x < sold.pending@.len() && sold.pending@[x] == k2;
                                assert(snew.pending@[x] == k2);
                                assert(snew.pending@.contains(k2));
                            }
                        }
                        assert(snew.pending@.last() == id);
                        assert(snew.has_pending(id));
                    }
                }
                true
            },
        }
    }

    /// Claim the completion slot for `id` in `sid`'s session, removing it.
    /// `None` when the session is gone; otherwise whether the slot was
    /// still outstanding and is now claimed.
    pub fn take_pending(&mut self, sid: &str, id: u64) -> (r: Option<bool>)
        requires
            old(self).wf(),
        ensures
            final(self).wf(),
            r is Some <==> old(self).contains_sid(sid@),
            ({
                let i = sid_idx(old(self).sessions@, sid@);
                if i < 0 {
                    final(self).sessions@ =~= old(self).sessions@
                } else {
                    &&& r->0 <==> old(self).sessions@[i].has_pending(id)
                    &&& final(self).sessions@.len() == old(self).sessions@.len()
                    &&& forall|j: int|
                        0 <= j < old(self).sessions@.len() && j != i ==> final(self).sessions@[j]
                            == old(self).sessions@[j]
                    &&& final(self).sessions@[i].sid == old(self).sessions@[i].sid
                    &&& final(self).sessions@[i].created_at == old(self).sessions@[i].created_at
                    &&& final(self).sessions@[i].last_seen == old(self).sessions@[i].last_seen
                    &&& final(self).sessions@[i].access_log == old(self).sessions@[i].access_log
                    &&& !final(self).sessions@[i].has_pending(id)
                    &&& forall|k: u64|
                        k != id ==> (final(self).sessions@[i].has_pending(k) <==> old(self).sessions@[i].has_pending(k))
                }
            }),
    {
        match self.find(sid) {
            None => None,
            Some(i) => {
                let mut s = self.sessions.remove(i);
                let ghost sold = s;
                let m = s.pending.len();
                let mut k: usize = 0;
                let mut claimed = false;
                while k < m
                    invariant
                        m == sold.pending@.len(),
                        k <= m,
                        s.sid == sold.sid,
                        s.created_at == sold.created_at,
                        s.last_seen == sold.last_seen,
                        s.access_log == sold.access_log,
                        !claimed ==> s == sold,
                        !claimed ==> forall|x: int| 0 <= x < k ==> sold.pending@[x] != id,
                        claimed ==> exists|x: int|
                            0 <= x < k && sold.pending@[x] == id && s.pending@ =~= sold.pending@
                                .remove(x),
                    decreases m - k,
                {
                    if !claimed && s.pending[k] == id {
                        s.pending.remove(k);
                        claimed = true;
                        proof {
                            assert(sold.pending@[k as int] == id);
                            assert(s.pending@ =~= sold.pending@.remove(k as int));
                        }
                    }
                    k = k + 1;
                }
                proof {
                    if !claimed {
                        assert(forall|x: int| 0 <= x < m ==> sold.pending@[x] != id);
                        assert(!sold.has_pending(id));
                    }
                }
                self.sessions.insert(i, s);
                proof {
                    assert(final(self).sessions@ =~= old(self).sessions@.update(
                        i as int,
                        final(self).sessions@[i as int],
                    ));
                    let ghost snew = final(self).sessions@[i as int];
                    if claimed {
                        let ghost x = choose|x: int|
                            0 <= x < m && sold.pending@[x] == id && snew.pending@ =~= sold.pending@
                                .remove(x);
                        assert(sold.pending@.contains(id));
                        assert forall|k2: u64| snew.has_pending(k2) implies sold.has_pending(
                            k2,
                        ) by {
                            let y = choose|y: int|
                                0 <= y < snew.pending@.len() && snew.pending@[y] == k2;
                            if y < x {
                                assert(sold.pending@[y] == k2);
                            } else {
                                assert(sold.pending@[y + 1] == k2);
                            }
                            assert(sold.pending@.contains(k2));
                        }
                        assert(!snew.has_pending(id)) by {
                            if snew.has_pending(id) {
                                let y = choose|y: int|
                                    0 <= y < snew.pending@.len() && snew.pending@[y] == id;
                                if y < x {
                                    assert(sold.pending@[y] == id);
                                    assert(sold.pending@[x] == id);
                                    assert(y != x);
                                } else {
                                    assert(sold.pending@[y + 1] == id);
                                    assert(y + 1 != x);
                                    assert(sold.pending@[x] == id);
                                }
                            }
                        }
                        assert forall|k2: u64| k2 != id && sold.has_pending(k2) implies snew
                            .has_pending(k2) by {
                            let y = choose|y: int|
                                0 <= y < sold.pending@.len() && sold.pending@[y] == k2;
                            assert(y != x);
                            if y < x {
                                assert(snew.pending@[y] == k2);
                            } else {
                                assert(snew.pending@[y - 1] == k2);
                            }
                            assert(snew.pending@.contains(k2));
                        }
                    }
                }
                Some(claimed)
            },
        }
    }

    /// The ring-buffer append: the log keeps only the newest entries.
    pub open spec fn ring_push(log: Seq<AccessLogEntry>, e: AccessLogEntry) -> Seq<
        AccessLogEntry,
    > {
        let p = log.push(e);
        if p.len() <= LOG_CAP {
            p
        } else {
            p.subrange(p.len() - LOG_CAP, p.len() as int)
        }
    }

    /// Append an access-log entry to `sid`'s log, evicting the oldest
    /// entries beyond the cap.
    pub fn log_append(&mut self, sid: &str, e: AccessLogEntry) -> (found: bool)
        requires
            old(self).wf(),
        ensures
            final(self).wf(),
            found <==> old(self).contains_sid(sid@),
            ({
                let i = sid_idx(old(self).sessions@, sid@);
                if i < 0 {
                    final(self).sessions@ =~= old(self).sessions@
                } else {
                    &&& final(self).sessions@.len() == old(self).sessions@.len()
                    &&& forall|j: int|
                        0 <= j < old(self).sessions@.len() && j != i ==> final(self).sessions@[j]
                            == old(self).sessions@[j]
                    &&& final(self).sessions@[i].sid == old(self).sessions@[i].sid
                    &&& final(self).sessions@[i].pending == old(self).sessions@[i].pending
                    &&& final(self).sessions@[i].created_at == old(self).sessions@[i].created_at
                    &&& final(self).sessions@[i].last_seen == old(self).sessions@[i].last_seen
                    &&& final(self).sessions@[i].access_log@ =~= Self::ring_push(
                        old(self).sessions@[i].access_log@,
                        e,
                    )
                }
            }),
    {
        match self.find(sid) {
            None => false,
            Some(i) => {
                let mut s = self.sessions.remove(i);
                s.access_log.push(e);
                if s.access_log.len() > LOG_CAP {
                    s.access_log.remove(0);
                }
                self.sessions.insert(i, s);
                proof {
                    assert(final(self).sessions@ =~= old(self).sessions@.update(
                        i as int,
                        final(self).sessions@[i as int],
                    ));
                    assert(final(self).sessions@[i as int].access_log@ =~= Self::ring_push(
                        old(self).sessions@[i as int].access_log@,
                        e,
                    ));
                }
                true
            },
        }
    }

    /// Sessions still within the idle TTL at `now`.
    pub open spec fn live_sessions(s: Seq<SessionState>, now: u64, ttl: u64) -> Seq<SessionState>
        decreases s.len(),
    {
        if s.len() == 0 {
            s
        } else if now < s.last().last_seen + ttl {
            Self::live_sessions(s.drop_last(), now, ttl).push(s.last())
        } else {
            Self::live_sessions(s.drop_last(), now, ttl)
        }
    }

    /// Every session a sweep keeps is a session the table already had.
    proof fn lemma_live_sessions_wf(s: Seq<SessionState>, now: u64, ttl: u64)
        requires
            forall|i: int, j: int| 0 <= i < j < s.len() ==> (#[trigger] s[i].sid)@ != (#[trigger] s[j].sid)@,
            forall|i: int| 0 <= i < s.len() ==> (#[trigger] s[i]).wf(),
        ensures
            forall|x: int|
                0 <= x < Self::live_sessions(s, now, ttl).len() ==> exists|y: int|
                    0 <= y < s.len() && #[trigger] Self::live_sessions(s, now, ttl)[x] == s[y],
            forall|x: int, y: int|
                0 <= x < y < Self::live_sessions(s, now, ttl).len() ==> (#[trigger] Self::live_sessions(
                    s,
                    now,
                    ttl,
                )[x].sid)@ != (#[trigger] Self::live_sessions(s, now, ttl)[y].sid)@,
            forall|x: int|
                0 <= x < Self::live_sessions(s, now, ttl).len() ==> (#[trigger] Self::live_sessions(
                    s,
                    now,
                    ttl,
                )[x]).wf(),
            forall|x: int|
                0 <= x < Self::live_sessions(s, now, ttl).len() ==> now < (
                #[trigger] Self::live_sessions(s, now, ttl)[x]).last_seen + ttl,
        decreases s.len(),
    {
        if s.len() > 0 {
            let t = s.drop_last();
            assert(forall|i: int, j: int|
                0 <= i < j < t.len() ==> (#[trigger] t[i].sid)@ != (#[trigger] t[j].sid)@);
            assert(forall|i: int| 0 <= i < t.len() ==> (#[trigger] t[i]).wf());
            Self::lemma_live_sessions_wf(t, now, ttl);
            let lt = Self::live_sessions(t, now, ttl);
            let l = Self::live_sessions(s, now, ttl);
            if now < s.last().last_seen + ttl {
                assert(l == lt.push(s.last()));
                assert forall|x: int| 0 <= x < l.len() implies exists|y: int|
                    0 <= y < s.len() && #[trigger] l[x] == s[y] by {
                    if x < lt.len() {
                        let y = choose|y: int| 0 <= y < t.len() && #[trigger] lt[x] == t[y];
                        assert(l[x] == s[y]);
                    } else {
                        assert(l[x] == s[s.len() - 1]);
                    }
                }
                assert forall|x: int, y: int| 0 <= x < y < l.len() implies (#[trigger] l[x].sid)@
                    != (#[trigger] l[y].sid)@ by {
                    if y < lt.len() {
                        assert(l[x] == lt[x] && l[y] == lt[y]);
                    } else {
                        let z = choose|z: int| 0 <= z < t.len() && #[trigger] lt[x] == t[z];
                        assert(s[z].sid@ != s[s.len() - 1].sid@);
                    }
                }
            }
        }
    }

    /// The idle sweep: remove every session whose last activity is `ttl`
    /// seconds or more in the past; all others survive untouched. A session
    /// whose TTL has lapsed is gone after the next sweep.
    pub fn gc_idle(&mut self, now: u64, ttl: u64)
        requires
            old(self).wf(),
        ensures
            final(self).wf(),
            final(self).sessions@ == Self::live_sessions(old(self).sessions@, now, ttl),
            forall|i: int|
                0 <= i < final(self).sessions@.len() ==> now < (#[trigger] final(self).sessions@[i]).last_seen + ttl,
            forall|i: int|
                0 <= i < final(self).sessions@.len() ==> exists|y: int|
                    0 <= y < old(self).sessions@.len() && #[trigger] final(self).sessions@[i] == old(
                        self,
                    ).sessions@[y],
    {
        let ghost n = old(self).sessions@.len() as int;
        let mut i: usize = 0;
        let ghost mut k: int = 0;
        proof {
            assert(old(self).sessions@.subrange(0, 0) =~= Seq::<SessionState>::empty());
            assert(old(self).sessions@.subrange(0, n) =~= old(self).sessions@);
        }
        while i < self.sessions.len()
            invariant
                old(self).wf(),
                0 <= k <= n,
                n == old(self).sessions@.len(),
                i == Self::live_sessions(old(self).sessions@.subrange(0, k), now, ttl).len(),
                self.sessions@ =~= Self::live_sessions(old(self).sessions@.subrange(0, k), now, ttl)
                    + old(self).sessions@.subrange(k, n),
            decreases n - k,
        {
            proof {
                assert(old(self).sessions@.subrange(0, k + 1).drop_last() =~= old(self).sessions@.subrange(0, k));
                assert(old(self).sessions@.subrange(0, k + 1).last() == old(self).sessions@[k]);
                assert(self.sessions@[i as int] == old(self).sessions@[k]);
            }
            let ls = self.sessions[i].last_seen;
            let keep = match ls.checked_add(ttl) {
                Some(deadline) => now < deadline,
                None => true,
            };
            if keep {
                i = i + 1;
                proof {
                    assert(self.sessions@ =~= Self::live_sessions(
                        old(self).sessions@.subrange(0, k + 1),
                        now,
                        ttl,
                    ) + old(self).sessions@.subrange(k + 1, n));
                }
            } else {
                self.sessions.remove(i);
                proof {
                    assert(self.sessions@ =~= Self::live_sessions(
                        old(self).sessions@.subrange(0, k + 1),
                        now,
                        ttl,
                    ) + old(self).sessions@.subrange(k + 1, n));
                }
            }
            proof {
                k = k + 1;
            }
        }
        proof {
            assert(k == n);
            assert(old(self).sessions@.subrange(0, n) =~= old(self).sessions@);
            assert(final(self).sessions@ =~= Self::live_sessions(old(self).sessions@, now, ttl));
            Self::lemma_live_sessions_wf(old(self).sessions@, now, ttl);
        }
    }
}

/// At most one completion per request id: a take that claims the slot
/// leaves no slot behind, so any later take of the same id, whose claimed
/// result equals slot presence, delivers nothing.
pub proof fn lemma_completion_at_most_once(
    p0: Seq<u64>,
    p1: Seq<u64>,
    id: u64,
    first_claimed: bool,
    second_claimed: bool,
)
    requires
        first_claimed == p0.contains(id),
        !p1.contains(id),
        second_claimed == p1.contains(id),
    ensures
        !second_claimed,
        !(first_claimed && second_claimed),
{
}

} // verus!
