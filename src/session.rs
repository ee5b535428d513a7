//! The session store: sessions keyed by a random identifier, refreshed on
//! each request that presents one, and dropped once idle for longer than the
//! session lifetime.
use vstd::prelude::*;

use rand::RngCore;

use crate::https::Request;
use crate::router::cookie_map;
use crate::strmap::{
    assoc, keys_distinct, lemma_assoc_absent, lemma_assoc_contains, lemma_assoc_lookup,
    lemma_assoc_update,
};

verus! {

/// How long a session lives without being seen, in milliseconds.
pub const SESSION_TTL_MS: u64 = 1800000;

#[derive(Debug, Clone)]
pub struct Session {
    pub id: String,
    pub created_at: u64,
    pub last_seen: u64,
    pub visits: u64,
}

/// What the store keeps of a session: creation time, last-seen time, visits.
pub type SessionView = (u64, u64, u64);

/// A session last seen at `last_seen` has expired at `now`.
pub open spec fn expired(last_seen: u64, now: u64) -> bool {
    now > last_seen && now - last_seen > SESSION_TTL_MS
}

pub open spec fn session_views(s: Seq<Session>) -> Seq<(Seq<char>, SessionView)> {
    s.map_values(|x: Session| (x.id@, (x.created_at, x.last_seen, x.visits)))
}

/// Sessions by identifier.
#[derive(Debug)]
pub struct SessionStore {
    sessions: Vec<Session>,
}

impl View for SessionStore {
    type V = Map<Seq<char>, SessionView>;

    closed spec fn view(&self) -> Map<Seq<char>, SessionView> {
        assoc(session_views(self.sessions@))
    }
}

/// Two lower-case hexadecimal digits for each byte, as `hex::encode` writes them.
pub open spec fn hex_of(b: Seq<u8>) -> Seq<char>
    decreases b.len(),
{
    if b.len() == 0 {
        seq![]
    } else {
        hex_of(b.drop_last()) + seq![hex_digit(b.last() / 16), hex_digit(b.last() % 16)]
    }
}

pub open spec fn hex_digit(n: u8) -> char {
    if n < 10 {
        ('0' as u8 + n) as char
    } else {
        ('a' as u8 + n - 10) as char
    }
}

/// Relies on `rand::rngs::OsRng::try_fill_bytes`: 32 bytes from the operating
/// system's generator, or `None` where it fails.
#[verifier::external_body]
fn random_bytes() -> (r: Option<Vec<u8>>)
    ensures
        r matches Some(b) ==> b@.len() == 32,
{
    let mut b = [0u8; 32];
    match rand::rngs::OsRng.try_fill_bytes(&mut b) {
        Ok(()) => Some(b.to_vec()),
        Err(_) => None,
    }
}

/// Relies on `hex::encode`: two lower-case hexadecimal digits per byte.
#[verifier::external_body]
fn hex_encode(b: &[u8]) -> (r: String)
    ensures
        r@ == hex_of(b@),
{
    hex::encode(b)
}

/// A fresh session identifier: 32 random bytes in hexadecimal, or `None` where
/// the system generator fails.
pub fn generate_session_id() -> (r: Option<String>)
    ensures
        r matches Some(id) ==> exists|b: Seq<u8>| b.len() == 32 && id@ == hex_of(b),
{
    match random_bytes() {
        Some(b) => Some(hex_encode(b.as_slice())),
        None => None,
    }
}

/// The `sid` cookie that a request carries, if any.
pub open spec fn cookie_sid(req: Request) -> Option<Seq<char>> {
    if req.headers@.contains_key("cookie"@) && cookie_map(req.headers@["cookie"@]).contains_key(
        "sid"@,
    ) {
        Some(cookie_map(req.headers@["cookie"@])["sid"@])
    } else {
        None
    }
}

/// `sid` names a session of `m` that has not expired at `now`.
pub open spec fn live_session(m: Map<Seq<char>, SessionView>, sid: Seq<char>, now: u64) -> bool {
    m.contains_key(sid) && !expired(m[sid].1, now)
}

pub open spec fn saturating_inc(v: u64) -> u64 {
    if v == u64::MAX {
        v
    } else {
        (v + 1) as u64
    }
}

impl SessionStore {
    #[verifier::type_invariant]
    closed spec fn inv(&self) -> bool {
        keys_distinct(session_views(self.sessions@))
    }

    pub fn new() -> (r: SessionStore)
        ensures
            r@ == Map::<Seq<char>, SessionView>::empty(),
    {
        let r = SessionStore { sessions: Vec::new() };
        proof {
            assert(session_views(r.sessions@) =~= Seq::<(Seq<char>, SessionView)>::empty());
        }
        r
    }

    fn position(&self, id: &String) -> (r: Option<usize>)
        ensures
            r matches Some(i) ==> i < self.sessions@.len() && self.sessions@[i as int].id@ == id@,
            r is None ==> forall|i: int|
                0 <= i < self.sessions@.len() ==> #[trigger] self.sessions@[i].id@ != id@,
    {
        let mut i: usize = 0;
        while i < self.sessions.len()
            invariant
                i <= self.sessions@.len(),
                forall|j: int| 0 <= j < i ==> #[trigger] self.sessions@[j].id@ != id@,
            decreases self.sessions.len() - i,
        {
            if self.sessions[i].id == *id {
                return Some(i);
            }
            i = i + 1;
        }
        None
    }

    /// The session named `id`, if there is one.
    pub fn get(&self, id: &String) -> (r: Option<&Session>)
        ensures
            r is Some <==> self@.contains_key(id@),
            r matches Some(s) ==> s.id@ == id@ && self@[id@] == (s.created_at, s.last_seen, s.visits),
    {
        proof {
            use_type_invariant(self);
        }
        match self.position(id) {
            Some(i) => {
                proof {
                    lemma_assoc_lookup(session_views(self.sessions@), i as int);
                }
                Some(&self.sessions[i])
            },
            None => {
                proof {
                    let sv = session_views(self.sessions@);
                    assert forall|j: int| 0 <= j < sv.len() implies #[trigger] sv[j].0 != id@ by {
                        assert(sv[j].0 == self.sessions@[j].id@);
                    }
                    lemma_assoc_absent(sv, id@);
                }
                None
            },
        }
    }

    /// Stores `s` under its identifier, replacing any session of that name.
    pub fn insert(&mut self, s: Session)
        ensures
            final(self)@ == old(self)@.insert(s.id@, (s.created_at, s.last_seen, s.visits)),
    {
        proof {
            use_type_invariant(&*self);
        }
        let ghost before = session_views(self.sessions@);
        let ghost sv = (s.id@, (s.created_at, s.last_seen, s.visits));
        let pos = self.position(&s.id);
        let mut sessions: Vec<Session> = Vec::new();
        std::mem::swap(&mut sessions, &mut self.sessions);
        match pos {
            Some(i) => {
                proof {
                    lemma_assoc_update(before, i as int, sv.1);
                }
                sessions.set(i, s);
                proof {
                    assert(session_views(sessions@) =~= before.update(i as int, (before[i as int].0, sv.1)));
                }
            },
            None => {
                sessions.push(s);
                proof {
                    let after = session_views(sessions@);
                    assert(after.drop_last() =~= before);
                    assert(after.last() == sv);
                    assert(keys_distinct(after)) by {
                        assert forall|a: int, b: int| 0 <= a < b < after.len() implies #[trigger] after[a].0
                            != #[trigger] after[b].0 by {
                            if b == after.len() - 1 {
                                assert(after[a] == before[a]);
                            } else {
                                assert(after[a] == before[a] && after[b] == before[b]);
                            }
                        }
                    }
                }
            },
        }
        self.sessions = sessions;
    }

    /// Drops every session that has expired at `now`.
    pub fn retain_live(&mut self, now: u64)
        ensures
            forall|k: Seq<char>| #[trigger]
                final(self)@.contains_key(k) <==> old(self)@.contains_key(k) && !expired(
                    old(self)@[k].1,
                    now,
                ),
            forall|k: Seq<char>| #[trigger]
                final(self)@.contains_key(k) ==> final(self)@[k] == old(self)@[k],
    {
        proof {
            use_type_invariant(&*self);
        }
        let ghost old_v = session_views(self.sessions@);
        let mut kept: Vec<Session> = Vec::new();
        let ghost mut src: Seq<int> = seq![];
        let mut i: usize = 0;
        while i < self.sessions.len()
            invariant
                i <= self.sessions@.len(),
                old_v == session_views(self.sessions@),
                keys_distinct(old_v),
                src.len() == kept@.len(),
                forall|a: int| 0 <= a < src.len() ==> 0 <= #[trigger] src[a] < i,
                forall|a: int, b: int| 0 <= a < b < src.len() ==> #[trigger] src[a] < #[trigger] src[b],
                forall|a: int|
                    0 <= a < src.len() ==> #[trigger] session_views(kept@)[a] == old_v[src[a]]
                        && !expired(old_v[src[a]].1.1, now),
                forall|j: int|
                    0 <= j < i && !expired(#[trigger] old_v[j].1.1, now) ==> exists|a: int|
                        0 <= a < src.len() && src[a] == j,
            decreases self.sessions.len() - i,
        {
            let s = &self.sessions[i];
            let live = !(now > s.last_seen && now - s.last_seen > SESSION_TTL_MS);
            proof {
                assert(old_v[i as int] == (s.id@, (s.created_at, s.last_seen, s.visits)));
            }
            if live {
                let ghost prev = kept@;
                let ghost old_src = src;
                kept.push(
                    Session {
                        id: s.id.clone(),
                        created_at: s.created_at,
                        last_seen: s.last_seen,
                        visits: s.visits,
                    },
                );
                proof {
                    assert(kept@.len() == prev.len() + 1);
                    assert forall|a: int| 0 <= a < prev.len() implies session_views(kept@)[a]
                        == session_views(prev)[a] by {}
                    src = src.push(i as int);
                    assert(session_views(kept@)[prev.len() as int] == old_v[i as int]);
                    assert forall|a: int| 0 <= a < src.len() implies #[trigger] session_views(kept@)[a]
                        == old_v[src[a]] && !expired(old_v[src[a]].1.1, now) by {
                        if a < prev.len() {
                            assert(src[a] == old_src[a]);
                            assert(session_views(kept@)[a] == session_views(prev)[a]);
                        }
                    }
                    assert forall|j: int|
                        0 <= j < i + 1 && !expired(#[trigger] old_v[j].1.1, now) implies exists|a: int|
                            0 <= a < src.len() && src[a] == j by {
                        if j == i {
                            assert(src[src.len() - 1] == j);
                        } else {
                            let a = choose|a: int| 0 <= a < old_src.len() && old_src[a] == j;
                            assert(src[a] == j);
                        }
                    }
                }
            }
            i = i + 1;
        }
        proof {
            let nv = session_views(kept@);
            assert(nv.len() == src.len());
            assert(keys_distinct(nv)) by {
                assert forall|a: int, b: int| 0 <= a < b < nv.len() implies #[trigger] nv[a].0
                    != #[trigger] nv[b].0 by {
                    assert(nv[a] == old_v[src[a]]);
                    assert(nv[b] == old_v[src[b]]);
                    assert(src[a] < src[b]);
                }
            }
            assert forall|k: Seq<char>| #[trigger]
                assoc(nv).contains_key(k) <==> assoc(old_v).contains_key(k) && !expired(
                    assoc(old_v)[k].1,
                    now,
                ) by {
                if assoc(nv).contains_key(k) {
                    lemma_assoc_contains(nv, k);
                    let a = choose|a: int| 0 <= a < nv.len() && #[trigger] nv[a].0 == k;
                    assert(nv[a] == old_v[src[a]]);
                    lemma_assoc_lookup(old_v, src[a]);
                }
                if assoc(old_v).contains_key(k) && !expired(assoc(old_v)[k].1, now) {
                    lemma_assoc_contains(old_v, k);
                    let j = choose|j: int| 0 <= j < old_v.len() && #[trigger] old_v[j].0 == k;
                    lemma_assoc_lookup(old_v, j);
                    assert(!expired(old_v[j].1.1, now));
                    let a = choose|a: int| 0 <= a < src.len() && src[a] == j;
                    assert(nv[a] == old_v[j]);
                    lemma_assoc_lookup(nv, a);
                }
            }
            assert forall|k: Seq<char>| #[trigger]
                assoc(nv).contains_key(k) implies assoc(nv)[k] == assoc(old_v)[k] by {
                lemma_assoc_contains(nv, k);
                let a = choose|a: int| 0 <= a < nv.len() && #[trigger] nv[a].0 == k;
                assert(nv[a] == old_v[src[a]]);
                lemma_assoc_lookup(old_v, src[a]);
                lemma_assoc_lookup(nv, a);
            }
        }
        self.sessions = kept;
    }
}

/// Finds the session that a request's `sid` cookie names and refreshes it, or
/// starts a new one. Returns the session identifier and whether it is new;
/// `(None, false)` where no identifier could be generated.
pub fn resolve_session(sessions: &mut SessionStore, req: &Request, now: u64) -> (r: (Option<String>, bool))
    ensures
        ({
            let m = old(sessions)@;
            match cookie_sid(*req) {
                Some(sid) if live_session(m, sid, now) => {
                    &&& r.0 matches Some(id) && id@ == sid
                    &&& !r.1
                    &&& final(sessions)@ == m.insert(sid, (m[sid].0, now, saturating_inc(m[sid].2)))
                },
                _ => match r.0 {
                    Some(id) => {
                        &&& r.1
                        &&& final(sessions)@ == m.insert(id@, (now, now, 1))
                        &&& exists|b: Seq<u8>| b.len() == 32 && id@ == hex_of(b)
                    },
                    None => !r.1 && final(sessions)@ == m,
                },
            }
        }),
{
    let mut cookie_sid_v: Option<String> = None;
    match req.headers.get("cookie") {
        Some(raw_cookie) => {
            let cookies = crate::router::parse_cookie_header(raw_cookie);
            match cookies.get(&"sid".to_owned()) {
                Some(sid) => {
                    cookie_sid_v = Some(sid.clone());
                },
                None => {},
            }
        },
        None => {},
    }
    proof {
        reveal_strlit("cookie");
        assert(crate::text::lower("cookie"@) =~= "cookie"@);
    }
    match cookie_sid_v {
        Some(sid) => {
            match sessions.get(&sid) {
                Some(s) => {
                    if !(now > s.last_seen && now - s.last_seen > SESSION_TTL_MS) {
                        let visits = if s.visits == u64::MAX {
                            s.visits
                        } else {
                            s.visits + 1
                        };
                        let refreshed = Session {
                            id: sid.clone(),
                            created_at: s.created_at,
                            last_seen: now,
                            visits,
                        };
                        sessions.insert(refreshed);
                        return (Some(sid), false);
                    }
                },
                None => {},
            }
        },
        None => {},
    }
    match generate_session_id() {
        Some(sid) => {
            sessions.insert(Session { id: sid.clone(), created_at: now, last_seen: now, visits: 1 });
            (Some(sid), true)
        },
        None => (None, false),
    }
}

/// A session presented while live and so refreshed at `now` is reused by any
/// later request within the session lifetime, and replaced by one after it.
pub proof fn lemma_refreshed_session_lifetime(
    m: Map<Seq<char>, SessionView>,
    sid: Seq<char>,
    now: u64,
    later: u64,
)
    requires
        live_session(m, sid, now),
        now <= later,
    ensures
        ({
            let m2 = m.insert(sid, (m[sid].0, now, saturating_inc(m[sid].2)));
            &&& live_session(m2, sid, later) <==> later - now <= SESSION_TTL_MS
            &&& m2[sid].2 == saturating_inc(m[sid].2)
        }),
{
}

/// Drops every session idle for longer than the session lifetime at `now`.
pub fn cleanup_expired_sessions(sessions: &mut SessionStore, now: u64)
    ensures
        forall|k: Seq<char>| #[trigger]
            final(sessions)@.contains_key(k) <==> old(sessions)@.contains_key(k) && !expired(
                old(sessions)@[k].1,
                now,
            ),
        forall|k: Seq<char>| #[trigger]
            final(sessions)@.contains_key(k) ==> final(sessions)@[k] == old(sessions)@[k],
{
    sessions.retain_live(now);
}

} // verus!
