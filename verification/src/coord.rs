use vstd::prelude::*;

verus! {

/// A geographic position in decimicro degrees (ten-millionths of a
/// degree), the resolution OpenStreetMap uses.  Keeping the raw integers
/// lets every statement about coordinates stay exact; the conversion to
/// floating degrees happens only at the edges of the pipeline.
#[derive(Clone, Copy, Debug, PartialEq, Eq, Structural)]
pub struct Coord {
    pub lat_dm: i32,
    pub lon_dm: i32,
}

/// A node of the road network: its id and its position.
#[derive(Clone, Copy, Debug, PartialEq, Eq, Structural)]
pub struct Node {
    pub id: i64,
    pub coord: Coord,
}

/// A map from node id to coordinate, stored as two parallel vectors with
/// distinct ids.
pub struct CoordMap {
    pub ids: Vec<i64>,
    pub coords: Vec<Coord>,
}

impl View for CoordMap {
    type V = Map<i64, Coord>;

    open spec fn view(&self) -> Map<i64, Coord> {
        Map::new(
            |id: i64| self.ids@.contains(id),
            |id: i64| self.coords@[self.ids@.index_of(id)],
        )
    }
}

impl CoordMap {
    pub open spec fn wf(self) -> bool {
        &&& self.coords.len() == self.ids.len()
        &&& forall|a: int, b: int| 0 <= a < b < self.ids@.len() ==> self.ids@[a] != self.ids@[b]
    }

    pub open spec fn count(self) -> nat {
        self.ids@.len()
    }

    /// The stored pair at position `i` is what the view holds for its id.
    pub proof fn lemma_view_index(self, i: int)
        requires
            self.wf(),
            0 <= i < self.ids@.len(),
        ensures
            self@.dom().contains(self.ids@[i]),
            self@[self.ids@[i]] == self.coords@[i],
    {
        let id = self.ids@[i];
        assert(self.ids@.contains(id));
        let k = self.ids@.index_of(id);
        if k != i {
            assert(self.ids@[k] == self.ids@[i]);
        }
    }

    pub proof fn lemma_view_contains(self, id: i64)
        requires
            self.wf(),
            self@.dom().contains(id),
        ensures
            0 <= self.ids@.index_of(id) < self.ids@.len(),
            self.ids@[self.ids@.index_of(id)] == id,
            self@[id] == self.coords@[self.ids@.index_of(id)],
    {
        assert(self.ids@.contains(id));
    }

    pub fn new() -> (m: CoordMap)
        ensures
            m.wf(),
            m@ =~= Map::<i64, Coord>::empty(),
            m.count() == 0,
    {
        CoordMap { ids: Vec::new(), coords: Vec::new() }
    }

    pub fn len(&self) -> (n: usize)
        ensures
            n == self.count(),
    {
        self.ids.len()
    }

    fn lookup(&self, id: i64) -> (r: Option<usize>)
        requires
            self.wf(),
        ensures
            match r {
                Some(i) => i < self.ids@.len() && self.ids@[i as int] == id,
                None => !self@.dom().contains(id),
            },
    {
        let n = self.ids.len();
        let mut i: usize = 0;
        while i < n
            invariant
                i <= n,
                n == self.ids@.len(),
                forall|k: int| 0 <= k < i ==> self.ids@[k] != id,
            decreases n - i,
        {
            if self.ids[i] == id {
                return Some(i);
            }
            i += 1;
        }
        proof {
            if self.ids@.contains(id) {
                let k = self.ids@.index_of(id);
                assert(self.ids@[k] == id);
            }
        }
        None
    }

    pub fn contains_key(&self, id: i64) -> (b: bool)
        requires
            self.wf(),
        ensures
            b == self@.dom().contains(id),
    {
        match self.lookup(id) {
            Some(i) => {
                proof {
                    self.lemma_view_index(i as int);
                }
                true
            },
            None => false,
        }
    }

    pub fn get(&self, id: i64) -> (r: Option<Coord>)
        requires
            self.wf(),
        ensures
            match r {
                Some(c) => self@.dom().contains(id) && c == self@[id],
                None => !self@.dom().contains(id),
            },
    {
        match self.lookup(id) {
            Some(i) => {
                proof {
                    self.lemma_view_index(i as int);
                }
                Some(self.coords[i])
            },
            None => None,
        }
    }

    /// Record the coordinate of `id`, replacing an earlier one.
    pub fn insert(&mut self, id: i64, c: Coord)
        requires
            old(self).wf(),
        ensures
            final(self).wf(),
            final(self)@ == old(self)@.insert(id, c),
    {
        let ghost m0 = *self;
        match self.lookup(id) {
            Some(i) => {
                self.coords.set(i, c);
                proof {
                    assert(self.wf());
                    self.lemma_view_index(i as int);
                    assert(self@ =~= m0@.insert(id, c)) by {
                        assert forall|x: i64|
                            self@.dom().contains(x) && x != id implies self@[x] == m0@[x] by {
                            m0.lemma_view_contains(x);
                            let k = m0.ids@.index_of(x);
                            assert(k != i);
                            self.lemma_view_index(k);
                        }
                        m0.lemma_view_index(i as int);
                    }
                }
            },
            None => {
                self.ids.push(id);
                self.coords.push(c);
                proof {
                    let p = m0.ids@.len() as int;
                    assert(self.wf()) by {
                        assert forall|a: int, b: int|
                            0 <= a < b < self.ids@.len() implies self.ids@[a] != self.ids@[b] by {
                            if b == p {
                                assert(self.ids@[a] == m0.ids@[a]);
                                if m0.ids@[a] == id {
                                    assert(m0.ids@.contains(id));
                                }
                            }
                        }
                    };
                    self.lemma_view_index(p);
                    assert(self@ =~= m0@.insert(id, c)) by {
                        assert forall|x: i64| #[trigger]
                            self.ids@.contains(x) implies m0.ids@.contains(x) || x == id by {
                            let k = self.ids@.index_of(x);
                            if k < p {
                                assert(m0.ids@[k] == x);
                            }
                        }
                        assert forall|x: i64| #[trigger]
                            m0.ids@.contains(x) implies self.ids@.contains(x) by {
                            let k = m0.ids@.index_of(x);
                            assert(self.ids@[k] == x);
                        }
                        assert forall|x: i64|
                            self@.dom().contains(x) && x != id implies self@[x] == m0@[x] by {
                            m0.lemma_view_contains(x);
                            let k = m0.ids@.index_of(x);
                            assert(self.ids@[k] == x);
                            self.lemma_view_index(k);
                        }
                    }
                }
            },
        }
    }
}

} // verus!
