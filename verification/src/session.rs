//! Sessions: per-client data that lives for a fixed time after its last use.

use vstd::prelude::*;
use crate::strmap::{StrMap, Entries};
use crate::util::{gen_token, max_millis, is_token};

verus! {

/// One session; `exp` is the moment it expires, in milliseconds.
#[derive(Debug)]
pub struct Session {
    pub data: StrMap,
    pub exp: u128,
}

impl Clone for Session {
    fn clone(&self) -> (r: Self)
        ensures
            r@ == self@,
    {
        Session { data: self.data.clone(), exp: self.exp }
    }
}

/// A session as the contracts see it.
pub struct SessionView {
    pub data: Entries,
    pub exp: u128,
}

impl View for Session {
    type V = SessionView;

    open spec fn view(&self) -> SessionView {
        SessionView { data: self.data@, exp: self.exp }
    }
}

/// Sessions by id.
pub type Sessions = Seq<(Seq<char>, SessionView)>;

/// A session store as the contracts see it: the time to live in seconds,
/// the sessions in the order they were created, and the last reading of the
/// store's monotonic clock, in milliseconds since the store was made.
pub struct StoreView {
    pub ttl: u64,
    pub sessions: Sessions,
    pub clock: u128,
}

/// No id occurs twice.
pub open spec fn ids_distinct(s: Sessions) -> bool {
    forall|i: int, j: int| 0 <= i < j < s.len() ==> s[i].0 != s[j].0
}

/// The index of the session with id `id`.
pub open spec fn find_id(s: Sessions, id: Seq<char>) -> Option<int> {
    if exists|i: int| 0 <= i < s.len() && s[i].0 == id {
        Some(choose|i: int| 0 <= i < s.len() && s[i].0 == id)
    } else {
        None
    }
}

/// The deadline of a session used at `now` (milliseconds) with a time to live of `ttl` seconds.
pub open spec fn deadline(now: u128, ttl: u64) -> u128 {
    (now + ttl * 1000) as u128
}

/// A deadline from `now` fits in the clock's range.
pub open spec fn deadline_fits(now: u128, ttl: u64) -> bool {
    now + ttl * 1000 <= u128::MAX
}

/// The sessions that are still alive at `now`, in order.
pub open spec fn alive(s: Sessions, now: u128) -> Sessions
    decreases s.len(),
{
    if s.len() == 0 {
        s
    } else {
        let r = alive(s.drop_last(), now);
        if s.last().1.exp > now {
            r.push(s.last())
        } else {
            r
        }
    }
}

/// The sessions with the one of `id`, if any, given a new deadline.
pub open spec fn touched(s: Sessions, id: Seq<char>, exp: u128) -> Sessions {
    match find_id(s, id) {
        Some(i) => s.update(i, (id, SessionView { exp, ..s[i].1 })),
        None => s,
    }
}

/// The characters of an optional string slice.
pub open spec fn opt_chars(o: Option<&str>) -> Option<Seq<char>> {
    match o {
        Some(s) => Some(s@),
        None => None,
    }
}

/// What getting a session does, from sessions `old` (time to live `ttl`) to
/// sessions `new`: the id is the one given, or `fresh`; its session, created
/// empty when missing, gets the deadline from `now`; afterwards the session
/// stands, as the caller leaves it, in its old place, or after all others
/// when it is new.
pub open spec fn got(
    ttl: u64,
    old: Sessions,
    new: Sessions,
    id_opt: Option<Seq<char>>,
    now: u128,
    fresh: Seq<char>,
    id: Seq<char>,
    s: SessionView,
    s_final: SessionView,
) -> bool {
    &&& id == (match id_opt {
        Some(i) => i,
        None => fresh,
    })
    &&& s.exp == deadline(now, ttl)
    &&& s.data == (match find_id(old, id) {
        Some(i) => old[i].1.data,
        None => Seq::empty(),
    })
    &&& new == (match find_id(old, id) {
        Some(i) => old.update(i, (id, s_final)),
        None => old.push((id, s_final)),
    })
}

/// A store of sessions, each with a deadline.
pub struct SessionStore {
    ttl: u64,
    map: Vec<(String, Session)>,
    origin: std::time::Instant,
    clock: u128,
}

spec fn sessions_of(v: Seq<(String, Session)>) -> Sessions {
    Seq::new(v.len(), |i: int| (v[i].0@, v[i].1@))
}

impl View for SessionStore {
    type V = StoreView;

    closed spec fn view(&self) -> StoreView {
        StoreView { ttl: self.ttl, sessions: sessions_of(self.map@), clock: self.clock }
    }
}

proof fn lemma_find_id(s: Sessions, id: Seq<char>, i: int)
    requires
        ids_distinct(s),
        0 <= i < s.len(),
        s[i].0 == id,
    ensures
        find_id(s, id) == Some(i),
{
}

/// The sessions alive at `now` keep their ids distinct, and each is alive.
pub proof fn lemma_alive(s: Sessions, now: u128)
    requires
        ids_distinct(s),
    ensures
        ids_distinct(alive(s, now)),
        forall|i: int| 0 <= i < alive(s, now).len() ==> #[trigger] alive(s, now)[i].1.exp > now,
        forall|i: int| 0 <= i < alive(s, now).len() ==> s.contains(#[trigger] alive(s, now)[i]),
        forall|i: int| 0 <= i < s.len() && s[i].1.exp > now ==> alive(s, now).contains(#[trigger] s[i]),
    decreases s.len(),
{
    if s.len() > 0 {
        let d = s.drop_last();
        lemma_alive(d, now);
        let r = alive(d, now);
        assert forall|i: int| 0 <= i < alive(s, now).len() implies s.contains(#[trigger] alive(s, now)[i]) by {
            if i < r.len() {
                assert(d.contains(r[i]));
                let k = choose|k: int| 0 <= k < d.len() && d[k] == r[i];
                assert(s[k] == r[i]);
            } else {
                assert(s[s.len() - 1] == alive(s, now)[i]);
            }
        }
        assert forall|i: int| 0 <= i < s.len() && s[i].1.exp > now implies alive(s, now).contains(#[trigger] s[i]) by {
            if i < s.len() - 1 {
                assert(d[i] == s[i]);
                assert(r.contains(d[i]));
                let k = choose|k: int| 0 <= k < r.len() && r[k] == d[i];
                assert(alive(s, now)[k] == s[i]);
            } else {
                assert(alive(s, now)[alive(s, now).len() - 1] == s[i]);
            }
        }
        if s.last().1.exp > now {
            assert forall|a: int, b: int| 0 <= a < b < alive(s, now).len() implies alive(s, now)[a].0
                != alive(s, now)[b].0 by {
                if b == alive(s, now).len() - 1 {
                    assert(d.contains(r[a]));
                    let k = choose|k: int| 0 <= k < d.len() && d[k] == r[a];
                    assert(s[k] == r[a]);
                }
            }
        }
    }
}

proof fn lemma_update_same_key(s: Sessions, i: int, v: SessionView)
    requires
        ids_distinct(s),
        0 <= i < s.len(),
    ensures
        ids_distinct(s.update(i, (s[i].0, v))),
        find_id(s.update(i, (s[i].0, v)), s[i].0) == Some(i),
{
    let t = s.update(i, (s[i].0, v));
    assert forall|a: int, b: int| 0 <= a < b < t.len() implies t[a].0 != t[b].0 by {
        assert(t[a].0 == s[a].0);
        assert(t[b].0 == s[b].0);
    }
    lemma_find_id(t, s[i].0, i);
}

impl SessionStore {
    /// Ids are distinct.
    pub open spec fn wf(&self) -> bool {
        &&& ids_distinct(self@.sessions)
        &&& self@.clock <= max_millis()
    }

    /// An empty store whose sessions live `sec` seconds after each use.
    pub fn new_ttl(sec: u64) -> (s: Self)
        ensures
            s.wf(),
            s@.ttl == sec,
            s@.sessions == Seq::<(Seq<char>, SessionView)>::empty(),
            s@.clock == 0,
    {
        let s = SessionStore { ttl: sec, map: Vec::new(), origin: crate::util::instant_now(), clock: 0 };
        assert(s@.sessions =~= Seq::<(Seq<char>, SessionView)>::empty());
        s
    }

    fn position(&self, id: &String) -> (r: Option<usize>)
        requires
            self.wf(),
        ensures
            match r {
                Some(i) => find_id(self@.sessions, id@) == Some(i as int),
                None => find_id(self@.sessions, id@) is None,
            },
    {
        let mut i: usize = 0;
        while i < self.map.len()
            invariant
                i <= self.map@.len(),
                self.wf(),
                forall|j: int| 0 <= j < i ==> self@.sessions[j].0 != id@,
            decreases self.map.len() - i,
        {
            if self.map[i].0 == *id {
                proof {
                    lemma_find_id(self@.sessions, id@, i as int);
                }
                return Some(i);
            }
            i = i + 1;
        }
        None
    }

    fn new_deadline(&self, now: u128) -> (d: u128)
        requires
            deadline_fits(now, self@.ttl),
        ensures
            d == deadline(now, self@.ttl),
    {
        now + (self.ttl as u128) * 1000
    }

    /// Extends the life of session `id`, if it exists, from `now`.
    pub fn touch_at(&mut self, id: &str, now: u128)
        requires
            old(self).wf(),
            deadline_fits(now, old(self)@.ttl),
        ensures
            final(self).wf(),
            final(self)@ == (StoreView {
                sessions: touched(old(self)@.sessions, id@, deadline(now, old(self)@.ttl)),
                ..old(self)@
            }),
    {
        let key = id.to_owned();
        let d = self.new_deadline(now);
        match self.position(&key) {
            Some(i) => {
                let ghost before = self.map@;
                self.map[i].1.exp = d;
                assert(self@.sessions =~= touched(sessions_of(before), id@, d));
            },
            None => {},
        }
    }

    /// The session `id_opt` names, or a new one under `fresh` when no id is
    /// given; created when missing, and given a new deadline from `now`.
    pub fn get_or_create_at(&mut self, id_opt: Option<&str>, now: u128, fresh: String) -> (r: (
        String,
        &mut Session,
    ))
        requires
            old(self).wf(),
            deadline_fits(now, old(self)@.ttl),
        ensures
            final(self).wf(),
            r.0@ == (match id_opt {
                Some(s) => s@,
                None => fresh@,
            }),
            r.1.exp == deadline(now, old(self)@.ttl),
            r.1.data@ == (match find_id(old(self)@.sessions, r.0@) {
                Some(i) => old(self)@.sessions[i].1.data,
                None => Seq::empty(),
            }),
            final(self)@.ttl == old(self)@.ttl,
            final(self)@.clock == old(self)@.clock,
            final(self)@.sessions == (match find_id(old(self)@.sessions, r.0@) {
                Some(i) => old(self)@.sessions.update(i, (r.0@, final(r.1)@)),
                None => old(self)@.sessions.push((r.0@, final(r.1)@)),
            }),
            got(
                old(self)@.ttl,
                old(self)@.sessions,
                final(self)@.sessions,
                opt_chars(id_opt),
                now,
                fresh@,
                r.0@,
                (*r.1)@,
                final(r.1)@,
            ),
    {
        let id = match id_opt {
            Some(s) => s.to_owned(),
            None => fresh,
        };
        let d = self.new_deadline(now);
        let i = match self.position(&id) {
            Some(i) => i,
            None => {
                let ghost before = self.map@;
                self.map.push((id.clone(), Session { data: StrMap::new(), exp: 0 }));
                proof {
                    assert forall|a: int, b: int| 0 <= a < b < self@.sessions.len() implies self@.sessions[a].0
                        != self@.sessions[b].0 by {
                        assert(self@.sessions[a] == sessions_of(before)[a]);
                        if b < before.len() {
                            assert(self@.sessions[b] == sessions_of(before)[b]);
                        } else {
                            assert(self@.sessions[b].0 == id@);
                        }
                    }
                    lemma_find_id(self@.sessions, id@, before.len() as int);
                }
                self.map.len() - 1
            },
        };
        let ghost mid = self@.sessions;
        let ghost mid_map = self.map@;
        assert(mid[i as int].0 == id@);
        let s = self.session_mut(i);
        s.exp = d;
        proof {
            lemma_update_same_key(mid, i as int, final(s)@);
            assert(sessions_of(mid_map.update(i as int, (mid_map[i as int].0, *final(s)))) =~= mid.update(
                i as int,
                (mid[i as int].0, final(s)@),
            ));
            let o = old(self)@.sessions;
            if find_id(o, id@) is None {
                assert(mid.update(i as int, (id@, final(s)@)) =~= o.push((id@, final(s)@)));
            }
        }
        (id, s)
    }

    /// Reads the store's monotonic clock: never earlier than its last reading.
    fn read_clock(&mut self) -> (now: u128)
        requires
            old(self).wf(),
        ensures
            final(self).wf(),
            old(self)@.clock <= now <= max_millis(),
            final(self)@ == (StoreView { clock: now, ..old(self)@ }),
    {
        let elapsed = crate::util::instant_elapsed(&self.origin);
        let reading = crate::util::duration_millis(&elapsed);
        let now = if reading > self.clock {
            reading
        } else {
            self.clock
        };
        self.clock = now;
        now
    }

    /// Extends the life of session `id`, if it exists, from the current time.
    pub fn touch(&mut self, id: &str)
        requires
            old(self).wf(),
        ensures
            final(self).wf(),
            exists|now: u128|
                old(self)@.clock <= now <= max_millis() && final(self)@ == (StoreView {
                    sessions: touched(old(self)@.sessions, id@, #[trigger] deadline(now, old(self)@.ttl)),
                    clock: now,
                    ..old(self)@
                }),
    {
        let now = self.read_clock();
        self.touch_at(id, now);
    }

    /// The session `id_opt` names, or a new one under a fresh random token
    /// of 24 hexadecimal digits; created when missing, and given a new
    /// deadline from the current time.
    pub fn get_or_create(&mut self, id_opt: Option<&str>) -> (r: (String, &mut Session))
        requires
            old(self).wf(),
        ensures
            final(self).wf(),
            final(self)@.ttl == old(self)@.ttl,
            exists|now: u128, fresh: Seq<char>|
                old(self)@.clock <= now <= max_millis() && final(self)@.clock == now && is_token(fresh, 24)
                    && #[trigger] got(
                    old(self)@.ttl,
                    old(self)@.sessions,
                    final(self)@.sessions,
                    opt_chars(id_opt),
                    now,
                    fresh,
                    r.0@,
                    (*r.1)@,
                    final(r.1)@,
                ),
    {
        let ghost o = self@;
        let now = self.read_clock();
        let fresh = gen_token(24);
        let ghost f = fresh@;
        let r = self.get_or_create_at(id_opt, now, fresh);
        assert(is_token(f, 24));
        r
    }

    /// Drops the sessions that have expired by the current time.
    pub fn gc(&mut self)
        requires
            old(self).wf(),
        ensures
            final(self).wf(),
            exists|now: u128|
                old(self)@.clock <= now <= max_millis() && final(self)@ == (StoreView {
                    sessions: #[trigger] alive(old(self)@.sessions, now),
                    clock: now,
                    ..old(self)@
                }),
    {
        let now = self.read_clock();
        self.gc_at(now);
    }

    fn session_mut(&mut self, i: usize) -> (r: &mut Session)
        requires
            i < old(self).map@.len(),
        ensures
            *r == old(self).map@[i as int].1,
            final(self).map@ == old(self).map@.update(i as int, (old(self).map@[i as int].0, *final(r))),
            final(self).ttl == old(self).ttl,
            final(self).clock == old(self).clock,
    {
        &mut self.map[i].1
    }

    /// Drops the sessions that have expired at `now`.
    pub fn gc_at(&mut self, now: u128)
        requires
            old(self).wf(),
        ensures
            final(self).wf(),
            final(self)@ == (StoreView { sessions: alive(old(self)@.sessions, now), ..old(self)@ }),
    {
        let mut kept: Vec<(String, Session)> = Vec::new();
        let mut old_map: Vec<(String, Session)> = Vec::new();
        std::mem::swap(&mut old_map, &mut self.map);
        let ghost s0 = sessions_of(old_map@);
        let mut i: usize = 0;
        while i < old_map.len()
            invariant
                i <= old_map@.len(),
                s0 == sessions_of(old_map@),
                sessions_of(kept@) == alive(s0.take(i as int), now),
            decreases old_map.len() - i,
        {
            assert(s0.take(i + 1).drop_last() =~= s0.take(i as int));
            if old_map[i].1.exp > now {
                let e = (old_map[i].0.clone(), old_map[i].1.clone());
                let ghost before = kept@;
                kept.push(e);
                assert(sessions_of(kept@) =~= sessions_of(before).push(s0[i as int]));
            }
            i = i + 1;
        }
        assert(s0.take(s0.len() as int) =~= s0);
        self.map = kept;
        proof {
            lemma_alive(s0, now);
        }
    }
}

} // verus!

verus! {

/// A session that was touched with a deadline later than `now` survives a
/// collection at `now`, under its id.
pub proof fn lemma_touched_survives(s: Sessions, id: Seq<char>, exp: u128, now: u128)
    requires
        ids_distinct(s),
        find_id(s, id) is Some,
        now < exp,
    ensures
        exists|k: int| 0 <= k < alive(touched(s, id, exp), now).len() && #[trigger] alive(touched(s, id, exp), now)[k].0 == id,
{
    let i = find_id(s, id)->0;
    let t = touched(s, id, exp);
    assert(t[i].0 == id && t[i].1.exp == exp);
    assert(ids_distinct(t)) by {
        assert forall|a: int, b: int| 0 <= a < b < t.len() implies t[a].0 != t[b].0 by {
            assert(t[a].0 == s[a].0);
            assert(t[b].0 == s[b].0);
        }
    }
    lemma_alive(t, now);
    assert(alive(t, now).contains(t[i]));
}

} // verus!

verus! {

/// A session whose deadline is not after the moment of a collection is gone
/// after that collection.
pub proof fn lemma_expired_collected(s: Sessions, k: int, now: u128)
    requires
        ids_distinct(s),
        0 <= k < s.len(),
        s[k].1.exp <= now,
    ensures
        forall|i: int| 0 <= i < alive(s, now).len() ==> #[trigger] alive(s, now)[i].0 != s[k].0,
{
    lemma_alive(s, now);
    assert forall|i: int| 0 <= i < alive(s, now).len() implies #[trigger] alive(s, now)[i].0 != s[k].0 by {
        let e = alive(s, now)[i];
        assert(s.contains(e));
        let j = choose|j: int| 0 <= j < s.len() && s[j] == e;
        if e.0 == s[k].0 {
            assert(j == k);
        }
    }
}

} // verus!
