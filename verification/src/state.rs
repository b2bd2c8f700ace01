//! The application's state between commands: the sessions of each kind of
//! scan, the session counter and the hash cache.
use vstd::prelude::*;

use crate::arena::SpaceSession;
use crate::bigfiles::LargeScanSession;
use crate::cache::HashCache;
use crate::dupes::DupeScanSession;
use crate::scan::ScanSession;

verus! {

/// Sessions by id.
pub struct SessionStore<T> {
    entries: Vec<(u32, T)>,
}

impl<T> SessionStore<T> {
    /// The ids held, in order of insertion.
    pub closed spec fn ids(&self) -> Seq<u32> {
        self.entries@.map_values(|e: (u32, T)| e.0)
    }

    /// The session held under an id.
    pub closed spec fn at(&self, id: u32) -> Option<T> {
        if exists|k: int| 0 <= k < self.entries@.len() && self.entries@[k].0 == id {
            Some(self.entries@[choose|k: int| 0 <= k < self.entries@.len() && self.entries@[k].0 == id].1)
        } else {
            None
        }
    }

    /// Each id is held once.
    pub closed spec fn wf(&self) -> bool {
        forall|a: int, b: int| 0 <= a < b < self.entries@.len() ==> self.entries@[a].0 != self.entries@[b].0
    }

    /// An empty store.
    pub fn new() -> (s: SessionStore<T>)
        ensures
            s.wf(),
            s.ids().len() == 0,
            forall|id: u32| s.at(id) is None,
    {
        SessionStore { entries: Vec::new() }
    }

    /// Number of sessions held.
    pub fn len(&self) -> (n: usize)
        ensures
            n == self.ids().len(),
    {
        self.entries.len()
    }

    fn find(&self, id: u32) -> (r: Option<usize>)
        requires
            self.wf(),
        ensures
            match r {
                Some(k) => k < self.entries@.len() && self.entries@[k as int].0 == id,
                None => forall|k: int| 0 <= k < self.entries@.len() ==> self.entries@[k].0 != id,
            },
    {
        let mut k: usize = 0;
        while k < self.entries.len()
            invariant
                k <= self.entries.len(),
                forall|j: int| 0 <= j < k ==> self.entries@[j].0 != id,
            decreases self.entries.len() - k,
        {
            if self.entries[k].0 == id {
                return Some(k);
            }
            k = k + 1;
        }
        None
    }

    /// The session held under an id.
    pub fn get(&self, id: u32) -> (r: Option<&T>)
        requires
            self.wf(),
        ensures
            match r {
                Some(v) => self.at(id) == Some(*v),
                None => self.at(id) is None,
            },
    {
        match self.find(id) {
            Some(k) => {
                proof {
                    let c = choose|q: int| 0 <= q < self.entries@.len() && self.entries@[q].0 == id;
                    assert(c == k as int);
                }
                Some(&self.entries[k].1)
            },
            None => None,
        }
    }

    /// Stores a session under an id (replacing one held under it).
    pub fn insert(&mut self, id: u32, v: T)
        requires
            old(self).wf(),
        ensures
            final(self).wf(),
            final(self).at(id) == Some(v),
            forall|o: u32| o != id ==> #[trigger] final(self).at(o) == old(self).at(o),
    {
        match self.find(id) {
            Some(k) => {
                let ghost before = self.entries@;
                self.entries.set(k, (id, v));
                proof {
                    assert forall|o: u32| o != id implies #[trigger] self.at(o) == old(self).at(o) by {
                        if exists|q: int| 0 <= q < before.len() && before[q].0 == o {
                            let c = choose|q: int| 0 <= q < before.len() && before[q].0 == o;
                            assert(self.entries@[c] == before[c]);
                            let d = choose|q: int| 0 <= q < self.entries@.len() && self.entries@[q].0 == o;
                            assert(d == c);
                        } else {
                            assert forall|q: int| 0 <= q < self.entries@.len() implies self.entries@[q].0 != o by {
                                if q != k as int {
                                    assert(self.entries@[q] == before[q]);
                                }
                            }
                        }
                    }
                    let d = choose|q: int| 0 <= q < self.entries@.len() && self.entries@[q].0 == id;
                    assert(self.entries@[k as int].0 == id);
                    assert(d == k as int);
                }
            },
            None => {
                let ghost before = self.entries@;
                self.entries.push((id, v));
                proof {
                    let n = before.len() as int;
                    assert forall|o: u32| o != id implies #[trigger] self.at(o) == old(self).at(o) by {
                        if exists|q: int| 0 <= q < before.len() && before[q].0 == o {
                            let c = choose|q: int| 0 <= q < before.len() && before[q].0 == o;
                            assert(self.entries@[c] == before[c]);
                            let d = choose|q: int| 0 <= q < self.entries@.len() && self.entries@[q].0 == o;
                            assert(d == c);
                        } else {
                            assert forall|q: int| 0 <= q < self.entries@.len() implies self.entries@[q].0 != o by {
                                if q < n {
                                    assert(self.entries@[q] == before[q]);
                                }
                            }
                        }
                    }
                    assert(self.entries@[n].0 == id);
                    let d = choose|q: int| 0 <= q < self.entries@.len() && self.entries@[q].0 == id;
                    assert(d == n);
                }
            },
        }
    }

    /// Drops the session with the smallest id until fewer than `limit` remain.
    pub fn evict_oldest(&mut self, limit: usize)
        requires
            old(self).wf(),
        ensures
            final(self).wf(),
            final(self).ids().len() < limit || final(self).ids().len() == 0,
            forall|o: u32| #[trigger] final(self).at(o) is Some ==> final(self).at(o) == old(self).at(o),
            forall|o: u32, p: u32| old(self).at(o) is Some && #[trigger] final(self).at(p) is Some && o > p
                ==> #[trigger] final(self).at(o) is Some,
    {
        while self.entries.len() >= limit && self.entries.len() > 0
            invariant
                self.wf(),
                forall|o: u32| #[trigger] self.at(o) is Some ==> self.at(o) == old(self).at(o),
                forall|o: u32, p: u32| old(self).at(o) is Some && #[trigger] self.at(p) is Some && o > p
                    ==> #[trigger] self.at(o) is Some,
            decreases self.entries.len(),
        {
            let mut m: usize = 0;
            let mut k: usize = 1;
            while k < self.entries.len()
                invariant
                    1 <= k <= self.entries.len(),
                    m < k,
                    forall|j: int| 0 <= j < k ==> self.entries@[m as int].0 <= self.entries@[j].0,
                decreases self.entries.len() - k,
            {
                if self.entries[k].0 < self.entries[m].0 {
                    m = k;
                }
                k = k + 1;
            }
            let ghost before = self.entries@;
            let ghost min_id = before[m as int].0;
            let ghost st = *self;
            self.entries.remove(m);
            proof {
                assert forall|q: int| 0 <= q < self.entries@.len() implies #[trigger] self.entries@[q] == (if q < m { before[q] } else { before[q + 1] }) by {}
                assert forall|o: u32| #[trigger] self.at(o) is Some implies self.at(o) == st.at(o) by {
                    let d = choose|q: int| 0 <= q < self.entries@.len() && self.entries@[q].0 == o;
                    let c = if d < m { d } else { d + 1 };
                    assert(before[c].0 == o);
                    let e = choose|q: int| 0 <= q < before.len() && before[q].0 == o;
                    assert(e == c);
                }
                assert forall|o: u32, p: u32| old(self).at(o) is Some && #[trigger] self.at(p) is Some && o > p
                    implies #[trigger] self.at(o) is Some by {
                    let d = choose|q: int| 0 <= q < self.entries@.len() && self.entries@[q].0 == p;
                    let c = if d < m { d } else { d + 1 };
                    assert(before[c].0 == p);
                    assert(st.at(p) is Some);
                    assert(st.at(o) is Some);
                    let e = choose|q: int| 0 <= q < before.len() && before[q].0 == o;
                    assert(before[e].0 == o);
                    assert(min_id <= p);
                    assert(e != m as int);
                    let e2 = if e < m { e } else { e - 1 };
                    assert(self.entries@[e2].0 == o);
                }
                assert forall|a: int, b: int| 0 <= a < b < self.entries@.len() implies self.entries@[a].0 != self.entries@[b].0 by {
                    let a0 = if a < m { a } else { a + 1 };
                    let b0 = if b < m { b } else { b + 1 };
                    assert(before[a0].0 != before[b0].0);
                }
            }
        }
    }
}

/// The state shared by the commands.
pub struct AppState {
    pub sessions: SessionStore<ScanSession>,
    pub big_sessions: SessionStore<LargeScanSession>,
    pub dupe_sessions: SessionStore<DupeScanSession>,
    pub space_sessions: SessionStore<SpaceSession>,
    /// Whether cancelling was asked for, by session id.
    pub cancels: SessionStore<bool>,
    pub next_session: u32,
    pub hash_cache: HashCache,
}

/// `after` is `before` with the cancel flag of session `id` set, when it has one.
pub open spec fn cancel_requested(before: AppState, after: AppState, id: u32) -> bool {
    &&& after.wf()
    &&& after.cancels.at(id) == (if before.cancels.at(id) is Some { Some(true) } else { None::<bool> })
    &&& forall|o: u32| o != id ==> #[trigger] after.cancels.at(o) == before.cancels.at(o)
    &&& after.next_session == before.next_session
    &&& after.sessions == before.sessions
    &&& after.big_sessions == before.big_sessions
    &&& after.dupe_sessions == before.dupe_sessions
    &&& after.space_sessions == before.space_sessions
    &&& after.hash_cache == before.hash_cache
}

impl AppState {
    /// Every store holds each id once and the cache is consistent.
    pub open spec fn wf(&self) -> bool {
        &&& self.sessions.wf()
        &&& self.big_sessions.wf()
        &&& self.dupe_sessions.wf()
        &&& self.space_sessions.wf()
        &&& self.cancels.wf()
        &&& self.hash_cache.wf()
    }

    /// No sessions yet; the first session gets id 1.
    pub fn new() -> (s: AppState)
        ensures
            s.wf(),
            s.sessions.ids().len() == 0 && s.big_sessions.ids().len() == 0,
            s.dupe_sessions.ids().len() == 0 && s.space_sessions.ids().len() == 0,
            s.cancels.ids().len() == 0,
            s.next_session == 1,
            s.hash_cache.contents() == Map::<Seq<char>, (u64, u64, Seq<char>)>::empty(),
            s.hash_cache.count() == 0,
            !s.hash_cache.is_dirty(),
    {
        AppState {
            sessions: SessionStore::new(),
            big_sessions: SessionStore::new(),
            dupe_sessions: SessionStore::new(),
            space_sessions: SessionStore::new(),
            cancels: SessionStore::new(),
            next_session: 1,
            hash_cache: HashCache::new(),
        }
    }

    /// A new session id (the counter wraps around as an atomic add does).
    pub fn next_id(&mut self) -> (id: u32)
        ensures
            id == old(self).next_session,
            final(self).next_session == (old(self).next_session + 1) % 0x1_0000_0000,
            final(self).sessions == old(self).sessions,
            final(self).big_sessions == old(self).big_sessions,
            final(self).dupe_sessions == old(self).dupe_sessions,
            final(self).space_sessions == old(self).space_sessions,
            final(self).cancels == old(self).cancels,
            final(self).hash_cache == old(self).hash_cache,
    {
        let id = self.next_session;
        self.next_session = self.next_session.wrapping_add(1);
        id
    }

    /// Starts a session: a new id, whose cancel flag is registered and not set.
    pub fn begin_session(&mut self) -> (id: u32)
        requires
            old(self).wf(),
        ensures
            final(self).wf(),
            id == old(self).next_session,
            final(self).next_session == (old(self).next_session + 1) % 0x1_0000_0000,
            final(self).cancels.at(id) == Some(false),
            forall|o: u32| o != id ==> #[trigger] final(self).cancels.at(o) == old(self).cancels.at(o),
            final(self).sessions == old(self).sessions,
            final(self).big_sessions == old(self).big_sessions,
            final(self).dupe_sessions == old(self).dupe_sessions,
            final(self).space_sessions == old(self).space_sessions,
            final(self).hash_cache == old(self).hash_cache,
    {
        let id = self.next_id();
        self.cancels.insert(id, false);
        id
    }

    /// Asks a session to stop: sets its cancel flag when it has one.
    pub fn request_cancel(&mut self, id: u32)
        requires
            old(self).wf(),
        ensures
            cancel_requested(*old(self), *final(self), id),
    {
        if self.cancels.get(id).is_some() {
            self.cancels.insert(id, true);
        }
    }

    /// Whether a session was asked to stop.
    pub fn is_cancelled(&self, id: u32) -> (b: bool)
        requires
            self.wf(),
        ensures
            b == (self.cancels.at(id) == Some(true)),
    {
        match self.cancels.get(id) {
            Some(c) => *c,
            None => false,
        }
    }
}

} // verus!
