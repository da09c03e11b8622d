//! A small map keyed by component identity, which keeps its keys in the
//! order they were first inserted.
use vstd::prelude::*;
use crate::ids::ComponentId;

verus! {

/// Keys and values side by side; every key occurs once.
#[derive(Debug)]
pub struct IdMap<V> {
    keys: Vec<ComponentId>,
    vals: Vec<V>,
}

/// No identity occurs twice in `s`.
pub open spec fn distinct_ids(s: Seq<ComponentId>) -> bool {
    forall|i: int, j: int| 0 <= i < s.len() && 0 <= j < s.len() && i != j ==> s[i] != s[j]
}

impl<V> IdMap<V> {
    /// Keys and values line up, and no key occurs twice.
    pub closed spec fn wf(&self) -> bool {
        &&& self.keys@.len() == self.vals@.len()
        &&& distinct_ids(self.keys@)
    }

    /// The keys in insertion order.
    pub closed spec fn key_seq(&self) -> Seq<ComponentId> {
        self.keys@
    }

    /// The map from each key to its value.
    pub closed spec fn map(&self) -> Map<ComponentId, V> {
        Map::new(
            |k: ComponentId| self.keys@.contains(k),
            |k: ComponentId| self.vals@[choose|i: int| 0 <= i < self.keys@.len() && self.keys@[i] == k],
        )
    }

    proof fn lemma_at(&self, i: int)
        requires
            self.wf(),
            0 <= i < self.keys@.len(),
        ensures
            self.map().contains_key(self.keys@[i]),
            self.map()[self.keys@[i]] == self.vals@[i],
    {
        let k = self.keys@[i];
        assert(self.keys@.contains(k));
        let j = choose|j: int| 0 <= j < self.keys@.len() && self.keys@[j] == k;
        assert(j == i);
    }

    /// The empty map.
    pub fn new() -> (m: Self)
        ensures
            m.wf(),
            m.map() == Map::<ComponentId, V>::empty(),
            m.key_seq() == Seq::<ComponentId>::empty(),
    {
        let m = IdMap { keys: Vec::new(), vals: Vec::new() };
        assert(m.map() =~= Map::<ComponentId, V>::empty());
        m
    }

    /// The number of keys.
    pub fn len(&self) -> (n: usize)
        requires
            self.wf(),
        ensures
            n == self.key_seq().len(),
    {
        self.keys.len()
    }

    /// The key at position `i` of insertion order.
    pub fn key_at(&self, i: usize) -> (k: ComponentId)
        requires
            self.wf(),
            i < self.key_seq().len(),
        ensures
            k == self.key_seq()[i as int],
    {
        self.keys[i]
    }

    /// The keys list exactly the map's domain, each once.
    pub proof fn lemma_keys(&self)
        requires
            self.wf(),
        ensures
            distinct_ids(self.key_seq()),
            forall|k: ComponentId| #[trigger] self.map().contains_key(k) <==> self.key_seq().contains(k),
            self.map().dom().finite(),
    {
        assert(self.map().dom() =~= self.keys@.to_set());
    }

    fn position(&self, k: ComponentId) -> (r: Option<usize>)
        requires
            self.wf(),
        ensures
            match r {
                Some(i) => i < self.keys@.len() && self.keys@[i as int] == k,
                None => !self.keys@.contains(k),
            },
    {
        let mut i: usize = 0;
        while i < self.keys.len()
            invariant
                i <= self.keys@.len(),
                forall|j: int| 0 <= j < i ==> self.keys@[j] != k,
            decreases self.keys@.len() - i,
        {
            if self.keys[i] == k {
                return Some(i);
            }
            i += 1;
        }
        None
    }

    /// Whether `k` is a key.
    pub fn contains_key(&self, k: ComponentId) -> (b: bool)
        requires
            self.wf(),
        ensures
            b == self.map().contains_key(k),
    {
        self.position(k).is_some()
    }

    /// The value of `k`.
    pub fn get(&self, k: ComponentId) -> (r: Option<&V>)
        requires
            self.wf(),
        ensures
            match r {
                Some(v) => self.map().contains_key(k) && self.map()[k] == *v,
                None => !self.map().contains_key(k),
            },
    {
        match self.position(k) {
            Some(i) => {
                proof {
                    self.lemma_at(i as int);
                }
                Some(&self.vals[i])
            },
            None => None,
        }
    }

    /// Sets the value of `k`; a new key goes last in insertion order.
    pub fn insert(&mut self, k: ComponentId, v: V)
        requires
            old(self).wf(),
        ensures
            final(self).wf(),
            final(self).map() == old(self).map().insert(k, v),
            old(self).map().contains_key(k) ==> final(self).key_seq() == old(self).key_seq(),
            !old(self).map().contains_key(k) ==> final(self).key_seq() == old(self).key_seq().push(k),
    {
        let ghost before = *self;
        match self.position(k) {
            Some(i) => {
                self.vals.set(i, v);
                proof {
                    assert forall|x: ComponentId| #[trigger] self.map().contains_key(x) == before.map().insert(k, v).contains_key(x) by {
                    }
                    assert forall|x: ComponentId| self.map().contains_key(x) implies #[trigger] self.map()[x] == before.map().insert(k, v)[x] by {
                        let j = choose|j: int| 0 <= j < self.keys@.len() && self.keys@[j] == x;
                        self.lemma_at(j);
                        if j != i {
                            before.lemma_at(j);
                        }
                    }
                    assert(self.map() =~= before.map().insert(k, v));
                }
            },
            None => {
                self.keys.push(k);
                self.vals.push(v);
                proof {
                    let n = before.keys@.len() as int;
                    assert(self.keys@[n] == k);
                    assert forall|x: ComponentId| #[trigger] self.map().contains_key(x) == before.map().insert(k, v).contains_key(x) by {
                        if self.keys@.contains(x) && x != k {
                            let j = choose|j: int| 0 <= j < self.keys@.len() && self.keys@[j] == x;
                            assert(before.keys@[j] == x);
                        }
                        if before.keys@.contains(x) {
                            let j = choose|j: int| 0 <= j < before.keys@.len() && before.keys@[j] == x;
                            assert(self.keys@[j] == x);
                        }
                    }
                    assert forall|x: ComponentId| self.map().contains_key(x) implies #[trigger] self.map()[x] == before.map().insert(k, v)[x] by {
                        let j = choose|j: int| 0 <= j < self.keys@.len() && self.keys@[j] == x;
                        self.lemma_at(j);
                        if j != n {
                            before.lemma_at(j);
                        }
                    }
                    assert(self.map() =~= before.map().insert(k, v));
                }
            },
        }
    }

    /// Removes `k` and gives back its value; the other keys keep their order.
    pub fn remove(&mut self, k: ComponentId) -> (r: Option<V>)
        requires
            old(self).wf(),
        ensures
            final(self).wf(),
            final(self).map() == old(self).map().remove(k),
            match r {
                Some(v) => old(self).map().contains_key(k) && old(self).map()[k] == v,
                None => !old(self).map().contains_key(k),
            },
            final(self).key_seq() == old(self).key_seq().filter(|x: ComponentId| x != k),
    {
        let ghost before = *self;
        match self.position(k) {
            Some(i) => {
                proof {
                    before.lemma_at(i as int);
                }
                self.keys.remove(i);
                let v = self.vals.remove(i);
                proof {
                    assert(self.keys@ =~= before.keys@.remove(i as int));
                    assert forall|a: int, b: int| 0 <= a < self.keys@.len() && 0 <= b < self.keys@.len() && a != b implies self.keys@[a] != self.keys@[b] by {
                        let a0 = if a < i { a } else { a + 1 };
                        let b0 = if b < i { b } else { b + 1 };
                        assert(self.keys@[a] == before.keys@[a0]);
                        assert(self.keys@[b] == before.keys@[b0]);
                    }
                    assert forall|x: ComponentId| #[trigger] self.map().contains_key(x) == before.map().remove(k).contains_key(x) by {
                        if self.keys@.contains(x) {
                            let j = choose|j: int| 0 <= j < self.keys@.len() && self.keys@[j] == x;
                            let j0 = if j < i { j } else { j + 1 };
                            assert(before.keys@[j0] == x);
                            assert(j0 != i);
                        }
                        if before.keys@.contains(x) && x != k {
                            let j = choose|j: int| 0 <= j < before.keys@.len() && before.keys@[j] == x;
                            if j < i {
                                assert(self.keys@[j] == x);
                            } else {
                                assert(j != i);
                                assert(self.keys@[j - 1] == x);
                            }
                        }
                    }
                    assert forall|x: ComponentId| self.map().contains_key(x) implies #[trigger] self.map()[x] == before.map().remove(k)[x] by {
                        let j = choose|j: int| 0 <= j < self.keys@.len() && self.keys@[j] == x;
                        self.lemma_at(j);
                        let j0 = if j < i { j } else { j + 1 };
                        assert(before.keys@[j0] == x);
                        assert(before.vals@[j0] == self.vals@[j]);
                        before.lemma_at(j0);
                    }
                    assert(self.map() =~= before.map().remove(k));
                    lemma_filter_skips(before.keys@, i as int, k);
                }
                Some(v)
            },
            None => {
                proof {
                    assert(before.map().remove(k) =~= before.map());
                    lemma_filter_keeps(before.keys@, k);
                }
                None
            },
        }
    }
}

proof fn lemma_filter_keeps(s: Seq<ComponentId>, k: ComponentId)
    requires
        !s.contains(k),
    ensures
        s.filter(|x: ComponentId| x != k) == s,
    decreases s.len(),
{
    let ne = |x: ComponentId| x != k;
    if s.len() > 0 {
        assert(!s.drop_last().contains(k)) by {
            if s.drop_last().contains(k) {
                let j = choose|j: int| 0 <= j < s.drop_last().len() && s.drop_last()[j] == k;
                assert(s[j] == k);
            }
        }
        lemma_filter_keeps(s.drop_last(), k);
        assert(s.drop_last().push(s.last()) =~= s);
        s.drop_last().lemma_filter_push(s.last(), ne);
        assert(s.last() != k) by {
            assert(s[s.len() - 1] == s.last());
        }
    } else {
        assert(s.filter(ne) =~= s);
    }
}

proof fn lemma_filter_skips(s: Seq<ComponentId>, i: int, k: ComponentId)
    requires
        0 <= i < s.len(),
        s[i] == k,
        distinct_ids(s),
    ensures
        s.filter(|x: ComponentId| x != k) == s.remove(i),
    decreases s.len(),
{
    let ne = |x: ComponentId| x != k;
    let init = s.drop_last();
    assert(init.push(s.last()) =~= s);
    assert(distinct_ids(init));
    if i == s.len() - 1 {
        assert(!init.contains(k)) by {
            if init.contains(k) {
                let j = choose|j: int| 0 <= j < init.len() && init[j] == k;
                assert(s[j] == k);
            }
        }
        lemma_filter_keeps(init, k);
        init.lemma_filter_push(s.last(), ne);
        assert(s.remove(i) =~= init);
    } else {
        lemma_filter_skips(init, i, k);
        init.lemma_filter_push(s.last(), ne);
        assert(s.last() != k) by {
            assert(s[s.len() - 1] == s.last());
        }
        assert(s.remove(i) =~= init.remove(i).push(s.last()));
    }
}

} // verus!
