//! The route table: an exact-match mapping from (method, path) to a handler
//! slot. Registration inserts or overwrites; resolution never cross-matches.

use vstd::prelude::*;
use crate::bytes::bytes_eq;
use crate::request::HttpMethod;

verus! {

/// A routing key: one method paired with one exact path. No pattern matching,
/// no normalization — paths match byte for byte as registered.
#[derive(Debug)]
pub struct HttpRoute {
    pub method: HttpMethod,
    pub path: Vec<u8>,
}

impl View for HttpRoute {
    type V = (HttpMethod, Seq<u8>);

    open spec fn view(&self) -> (HttpMethod, Seq<u8>) {
        (self.method, self.path@)
    }
}

/// The mapping a sequence of (key, slot) entries denotes; later entries win.
pub open spec fn map_of(s: Seq<((HttpMethod, Seq<u8>), usize)>) -> Map<(HttpMethod, Seq<u8>), usize>
    decreases s.len(),
{
    if s.len() == 0 {
        Map::empty()
    } else {
        map_of(s.drop_last()).insert(s.last().0, s.last().1)
    }
}

/// The view of the stored entries.
pub open spec fn entries_view(s: Seq<(HttpRoute, usize)>) -> Seq<((HttpMethod, Seq<u8>), usize)> {
    s.map_values(|e: (HttpRoute, usize)| (e.0@, e.1))
}

/// Maps (method, path) pairs to handler slots. Exact match only.
pub struct RouteTable {
    entries: Vec<(HttpRoute, usize)>,
}

proof fn lemma_map_of_found(s: Seq<((HttpMethod, Seq<u8>), usize)>, i: int)
    requires
        0 <= i < s.len(),
        forall|j: int| i < j < s.len() ==> s[j].0 != s[i].0,
    ensures
        map_of(s).contains_key(s[i].0),
        map_of(s)[s[i].0] == s[i].1,
    decreases s.len(),
{
    if i == s.len() - 1 {
    } else {
        assert(s.drop_last()[i] == s[i]);
        assert forall|j: int| i < j < s.drop_last().len() implies s.drop_last()[j].0 != s[i].0 by {
            assert(s.drop_last()[j] == s[j]);
        }
        lemma_map_of_found(s.drop_last(), i);
        assert(s.last().0 != s[i].0);
    }
}

proof fn lemma_map_of_missing(s: Seq<((HttpMethod, Seq<u8>), usize)>, k: (HttpMethod, Seq<u8>))
    requires
        forall|j: int| 0 <= j < s.len() ==> s[j].0 != k,
    ensures
        !map_of(s).contains_key(k),
    decreases s.len(),
{
    if s.len() > 0 {
        assert forall|j: int| 0 <= j < s.drop_last().len() implies s.drop_last()[j].0 != k by {
            assert(s.drop_last()[j] == s[j]);
        }
        lemma_map_of_missing(s.drop_last(), k);
    }
}

proof fn lemma_map_of_update(s: Seq<((HttpMethod, Seq<u8>), usize)>, i: int, v: usize)
    requires
        0 <= i < s.len(),
        forall|p: int, q: int| 0 <= p < q < s.len() ==> s[p].0 != s[q].0,
    ensures
        map_of(s.update(i, (s[i].0, v))) == map_of(s).insert(s[i].0, v),
    decreases s.len(),
{
    let t = s.update(i, (s[i].0, v));
    if i == s.len() - 1 {
        assert(t.drop_last() =~= s.drop_last());
        assert(t.last() == (s[i].0, v));
        assert(map_of(t) =~= map_of(s).insert(s[i].0, v));
    } else {
        assert(t.drop_last() =~= s.drop_last().update(i, (s[i].0, v)));
        assert(s.drop_last()[i] == s[i]);
        assert forall|p: int, q: int| 0 <= p < q < s.drop_last().len() implies
            s.drop_last()[p].0 != s.drop_last()[q].0 by {
            assert(s.drop_last()[p] == s[p] && s.drop_last()[q] == s[q]);
        }
        lemma_map_of_update(s.drop_last(), i, v);
        assert(t.last() == s.last());
        // the last key differs from the updated key, so the inserts commute
        assert(s.last().0 != s[i].0);
        assert(map_of(t) =~= map_of(s).insert(s[i].0, v));
    }
}

impl RouteTable {
    /// No two stored entries share a key.
    pub closed spec fn wf(self) -> bool {
        forall|p: int, q: int| 0 <= p < q < self.entries@.len() ==>
            entries_view(self.entries@)[p].0 != entries_view(self.entries@)[q].0
    }

    /// The mapping this table denotes.
    pub closed spec fn as_map(self) -> Map<(HttpMethod, Seq<u8>), usize> {
        map_of(entries_view(self.entries@))
    }

    /// An empty table: nothing is registered.
    pub fn new() -> (r: RouteTable)
        ensures
            r.wf(),
            r.as_map() == Map::<(HttpMethod, Seq<u8>), usize>::empty(),
    {
        let r = RouteTable { entries: Vec::new() };
        proof {
            assert(entries_view(r.entries@) =~= Seq::<((HttpMethod, Seq<u8>), usize)>::empty());
        }
        r
    }

    /// Inserts or overwrites the handler slot for the exact (method, path) key.
    pub fn register(&mut self, method: HttpMethod, path: Vec<u8>, handler: usize)
        requires
            old(self).wf(),
        ensures
            final(self).wf(),
            final(self).as_map() == old(self).as_map().insert((method, path@), handler),
    {
        let ghost key = (method, path@);
        let ghost ev = entries_view(self.entries@);
        let mut i: usize = 0;
        while i < self.entries.len()
            invariant
                i <= self.entries@.len(),
                key == (method, path@),
                ev == entries_view(self.entries@),
                *old(self) == *self,
                old(self).wf(),
                forall|j: int| 0 <= j < i ==> ev[j].0 != key,
            decreases self.entries@.len() - i,
        {
            let e: &(HttpRoute, usize) = &self.entries[i];
            proof {
                assert(ev[i as int] == (self.entries@[i as int].0@, self.entries@[i as int].1));
                assert(ev[i as int].0 == (e.0.method, e.0.path@));
            }
            if e.0.method == method && bytes_eq(e.0.path.as_slice(), path.as_slice()) {
                proof {
                    assert(ev[i as int].0 == key);
                }
                let route = HttpRoute { method, path };
                self.entries.remove(i);
                self.entries.insert(i, (route, handler));
                proof {
                    let newv = entries_view(self.entries@);
                    assert(newv =~= ev.update(i as int, (key, handler)));
                    assert(ev[i as int].0 == key);
                    lemma_map_of_update(ev, i as int, handler);
                    assert(self.as_map() == old(self).as_map().insert(key, handler));
                    assert forall|p: int, q: int| 0 <= p < q < newv.len() implies
                        newv[p].0 != newv[q].0 by {
                        assert(newv[p].0 == ev[p].0 && newv[q].0 == ev[q].0);
                    }
                }
                return;
            }
            proof {
                assert(ev[i as int].0 != key);
            }
            i = i + 1;
        }
        let route = HttpRoute { method, path };
        self.entries.push((route, handler));
        proof {
            let newv = entries_view(self.entries@);
            assert(newv =~= ev.push((key, handler)));
            assert(newv.drop_last() =~= ev);
            assert(self.as_map() == old(self).as_map().insert(key, handler));
            assert forall|p: int, q: int| 0 <= p < q < newv.len() implies
                newv[p].0 != newv[q].0 by {
                if q < newv.len() - 1 {
                    assert(newv[p].0 == ev[p].0 && newv[q].0 == ev[q].0);
                } else {
                    assert(newv[p].0 == ev[p].0 && newv[q].0 == key);
                }
            }
        }
    }

    /// Registers a handler under `ANY`.
    pub fn any(&mut self, path: Vec<u8>, handler: usize)
        requires
            old(self).wf(),
        ensures
            final(self).wf(),
            final(self).as_map() == old(self).as_map().insert((HttpMethod::ANY, path@), handler),
    {
        self.register(HttpMethod::ANY, path, handler);
    }

    /// Registers a handler for `GET` on the exact path.
    pub fn get(&mut self, path: Vec<u8>, handler: usize)
        requires
            old(self).wf(),
        ensures
            final(self).wf(),
            final(self).as_map() == old(self).as_map().insert((HttpMethod::GET, path@), handler),
    {
        self.register(HttpMethod::GET, path, handler);
    }

    /// Registers a handler for `POST` on the exact path.
    pub fn post(&mut self, path: Vec<u8>, handler: usize)
        requires
            old(self).wf(),
        ensures
            final(self).wf(),
            final(self).as_map() == old(self).as_map().insert((HttpMethod::POST, path@), handler),
    {
        self.register(HttpMethod::POST, path, handler);
    }

    /// Looks up the exact (method, path) key: the registered slot, or `None`
    /// if that exact pair was never registered.
    pub fn resolve(&self, method: HttpMethod, path: &[u8]) -> (r: Option<usize>)
        requires
            self.wf(),
        ensures
            (match r {
                Some(id) => self.as_map().contains_key((method, path@))
                    && self.as_map()[(method, path@)] == id,
                None => !self.as_map().contains_key((method, path@)),
            }),
    {
        let ghost key = (method, path@);
        let ghost ev = entries_view(self.entries@);
        let mut i: usize = 0;
        while i < self.entries.len()
            invariant
                i <= self.entries@.len(),
                key == (method, path@),
                ev == entries_view(self.entries@),
                self.wf(),
                forall|j: int| 0 <= j < i ==> ev[j].0 != key,
            decreases self.entries@.len() - i,
        {
            let e: &(HttpRoute, usize) = &self.entries[i];
            proof {
                assert(ev[i as int] == (self.entries@[i as int].0@, self.entries@[i as int].1));
                assert(ev[i as int].0 == (e.0.method, e.0.path@));
            }
            if e.0.method == method && bytes_eq(e.0.path.as_slice(), path) {
                proof {
                    assert(ev[i as int].0 == key && ev[i as int].1 == e.1);
                    assert forall|j: int| i < j < ev.len() implies ev[j].0 != ev[i as int].0 by {}
                    lemma_map_of_found(ev, i as int);
                }
                return Some(e.1);
            }
            proof {
                assert(ev[i as int].0 != key);
            }
            i = i + 1;
        }
        proof {
            lemma_map_of_missing(ev, key);
        }
        None
    }
}

/// Routing exactness: registering a handler under one (method, path) key
/// leaves every other key's resolution unchanged — a `GET` registration is
/// never served for a `POST` request, nor for any other path.
pub proof fn lemma_routing_exactness(
    t: Map<(HttpMethod, Seq<u8>), usize>,
    m1: HttpMethod,
    p1: Seq<u8>,
    id: usize,
    m2: HttpMethod,
    p2: Seq<u8>,
)
    requires
        (m1, p1) != (m2, p2),
    ensures
        t.insert((m1, p1), id).contains_key((m2, p2)) == t.contains_key((m2, p2)),
        t.contains_key((m2, p2)) ==> t.insert((m1, p1), id)[(m2, p2)] == t[(m2, p2)],
{
}

} // verus!
