use vstd::prelude::*;

verus! {

spec fn pairmap(s: Seq<(i64, i64, i64)>) -> Map<(i64, i64), i64>
    decreases s.len(),
{
    if s.len() == 0 {
        Map::empty()
    } else {
        pairmap(s.drop_last()).insert((s.last().0, s.last().1), s.last().2)
    }
}

spec fn unique_pairs(s: Seq<(i64, i64, i64)>) -> bool {
    forall|i: int, j: int|
        0 <= i < j < s.len() ==> ((#[trigger] s[i]).0, s[i].1) != ((#[trigger] s[j]).0, s[j].1)
}

proof fn lemma_pairmap_has(s: Seq<(i64, i64, i64)>, j: int)
    requires
        unique_pairs(s),
        0 <= j < s.len(),
    ensures
        pairmap(s).contains_key((s[j].0, s[j].1)),
        pairmap(s)[(s[j].0, s[j].1)] == s[j].2,
    decreases s.len(),
{
    if j < s.len() - 1 {
        assert((s[j].0, s[j].1) != (s[s.len() - 1].0, s[s.len() - 1].1));
        assert(s.drop_last()[j] == s[j]);
        lemma_pairmap_has(s.drop_last(), j);
    }
}

proof fn lemma_pairmap_absent(s: Seq<(i64, i64, i64)>, k: (i64, i64))
    requires
        forall|j: int| 0 <= j < s.len() ==> ((#[trigger] s[j]).0, s[j].1) != k,
    ensures
        !pairmap(s).contains_key(k),
    decreases s.len(),
{
    if s.len() > 0 {
        assert forall|j: int| 0 <= j < s.drop_last().len() implies ((#[trigger] s.drop_last()[j]).0,
        s.drop_last()[j].1) != k by {
            assert(s.drop_last()[j] == s[j]);
        }
        lemma_pairmap_absent(s.drop_last(), k);
        assert((s[s.len() - 1].0, s[s.len() - 1].1) != k);
    }
}

proof fn lemma_pairmap_source(s: Seq<(i64, i64, i64)>, k: (i64, i64))
    requires
        pairmap(s).contains_key(k),
    ensures
        exists|j: int| 0 <= j < s.len() && (s[j].0, s[j].1) == k,
    decreases s.len(),
{
    if (s.last().0, s.last().1) == k {
        assert((s[s.len() - 1].0, s[s.len() - 1].1) == k);
    } else {
        lemma_pairmap_source(s.drop_last(), k);
        let j = choose|j: int| 0 <= j < s.drop_last().len() && (s.drop_last()[j].0, s.drop_last()[j].1) == k;
        assert(s.drop_last()[j] == s[j]);
    }
}

proof fn lemma_pairmap_update(s: Seq<(i64, i64, i64)>, j: int, e: (i64, i64, i64))
    requires
        unique_pairs(s),
        0 <= j < s.len(),
        (e.0, e.1) == (s[j].0, s[j].1),
    ensures
        pairmap(s.update(j, e)) =~= pairmap(s).insert((e.0, e.1), e.2),
    decreases s.len(),
{
    let t = s.update(j, e);
    if j == s.len() - 1 {
        assert(t.drop_last() =~= s.drop_last());
    } else {
        assert(t.drop_last() =~= s.drop_last().update(j, e));
        assert((s[j].0, s[j].1) != (s[s.len() - 1].0, s[s.len() - 1].1));
        lemma_pairmap_update(s.drop_last(), j, e);
    }
}

/// A finite map from pairs of integers to integers.
pub struct PairMap {
    entries: Vec<(i64, i64, i64)>,
}

impl View for PairMap {
    type V = Map<(i64, i64), i64>;

    closed spec fn view(&self) -> Map<(i64, i64), i64> {
        pairmap(self.entries@)
    }
}

impl PairMap {
    pub closed spec fn wf(&self) -> bool {
        unique_pairs(self.entries@)
    }

    pub fn new() -> (r: Self)
        ensures
            r.wf(),
            r@ == Map::<(i64, i64), i64>::empty(),
    {
        PairMap { entries: Vec::new() }
    }

    fn find(&self, a: i64, b: i64) -> (r: Option<usize>)
        requires
            self.wf(),
        ensures
            r matches Some(j) ==> j < self.entries.len() && self.entries@[j as int].0 == a
                && self.entries@[j as int].1 == b && self@.contains_key((a, b)) && self@[(a, b)]
                == self.entries@[j as int].2,
            r is None ==> !self@.contains_key((a, b)),
    {
        let mut j: usize = 0;
        while j < self.entries.len()
            invariant
                self.wf(),
                j <= self.entries.len(),
                forall|i: int| 0 <= i < j ==> ((#[trigger] self.entries@[i]).0, self.entries@[i].1) != (a, b),
            decreases self.entries.len() - j,
        {
            if self.entries[j].0 == a && self.entries[j].1 == b {
                proof {
                    lemma_pairmap_has(self.entries@, j as int);
                }
                return Some(j);
            }
            j += 1;
        }
        proof {
            lemma_pairmap_absent(self.entries@, (a, b));
        }
        None
    }

    /// The value at `(a, b)`.
    pub fn get(&self, a: i64, b: i64) -> (r: Option<i64>)
        requires
            self.wf(),
        ensures
            r == self@.get((a, b)),
    {
        match self.find(a, b) {
            Some(j) => Some(self.entries[j].2),
            None => None,
        }
    }

    /// Maps `(a, b)` to `v`, replacing an earlier value.
    pub fn insert(&mut self, a: i64, b: i64, v: i64)
        requires
            old(self).wf(),
        ensures
            final(self).wf(),
            final(self)@ == old(self)@.insert((a, b), v),
    {
        match self.find(a, b) {
            Some(j) => {
                proof {
                    lemma_pairmap_update(self.entries@, j as int, (a, b, v));
                }
                self.entries.set(j, (a, b, v));
                assert(unique_pairs(self.entries@)) by {
                    assert forall|x: int, y: int|
                        0 <= x < y < self.entries.len() implies ((#[trigger] self.entries@[x]).0,
                    self.entries@[x].1) != ((#[trigger] self.entries@[y]).0, self.entries@[y].1) by {
                        assert((self.entries@[x].0, self.entries@[x].1) == (old(self).entries@[x].0, old(self).entries@[x].1));
                        assert((self.entries@[y].0, self.entries@[y].1) == (old(self).entries@[y].0, old(self).entries@[y].1));
                    }
                }
            },
            None => {
                let ghost before = self.entries@;
                self.entries.push((a, b, v));
                assert(self.entries@.drop_last() =~= before);
                assert forall|j: int| 0 <= j < before.len() implies ((#[trigger] before[j]).0, before[j].1) != (a, b) by {
                    lemma_pairmap_has(before, j);
                }
            },
        }
    }

    /// The `(b, value)` of every key `(a, b)` with the given first component.
    pub fn with_first(&self, a: i64) -> (r: Vec<(i64, i64)>)
        requires
            self.wf(),
        ensures
            forall|j: int|
                0 <= j < r.len() ==> self@.contains_key((a, (#[trigger] r@[j]).0)) && self@[(a, r@[j].0)]
                    == r@[j].1,
            forall|b: i64|
                #[trigger] self@.contains_key((a, b)) ==> exists|j: int| 0 <= j < r.len() && r@[j].0 == b,
            forall|x: int, y: int| 0 <= x < y < r.len() ==> r@[x].0 != r@[y].0,
    {
        let mut r: Vec<(i64, i64)> = Vec::new();
        let ghost mut ks: Seq<int> = Seq::empty();
        let mut i: usize = 0;
        while i < self.entries.len()
            invariant
                self.wf(),
                i <= self.entries.len(),
                forall|j: int|
                    0 <= j < r.len() ==> self@.contains_key((a, (#[trigger] r@[j]).0)) && self@[(
                        a,
                        r@[j].0,
                    )] == r@[j].1,
                forall|k: int|
                    0 <= k < i && (#[trigger] self.entries@[k]).0 == a ==> exists|j: int|
                        0 <= j < r.len() && r@[j].0 == self.entries@[k].1,
                ks.len() == r.len(),
                forall|j: int|
                    0 <= j < r.len() ==> 0 <= #[trigger] ks[j] < i && self.entries@[ks[j]].0 == a
                        && self.entries@[ks[j]].1 == r@[j].0,
                forall|x: int, y: int| 0 <= x < y < r.len() ==> r@[x].0 != r@[y].0,
            decreases self.entries.len() - i,
        {
            let e = self.entries[i];
            if e.0 == a {
                proof {
                    lemma_pairmap_has(self.entries@, i as int);
                }
                let ghost before = r@;
                r.push((e.1, e.2));
                proof {
                    ks = ks.push(i as int);
                }
                assert forall|x: int, y: int| 0 <= x < y < r.len() implies r@[x].0 != r@[y].0 by {
                    if y == r.len() - 1 {
                        let k = ks[x];
                        assert(r@[x] == before[x]);
                        assert((self.entries@[k].0, self.entries@[k].1) != (self.entries@[i as int].0, self.entries@[i as int].1));
                    } else {
                        assert(r@[x] == before[x]);
                        assert(r@[y] == before[y]);
                    }
                }
                assert forall|k: int|
                    0 <= k < i + 1 && (#[trigger] self.entries@[k]).0 == a implies exists|j: int|
                        0 <= j < r.len() && r@[j].0 == self.entries@[k].1 by {
                    if k < i {
                        let j = choose|j: int| 0 <= j < before.len() && before[j].0 == self.entries@[k].1;
                        assert(r@[j] == before[j]);
                    } else {
                        assert(r@[r.len() - 1].0 == self.entries@[k].1);
                    }
                }
            }
            i += 1;
        }
        assert forall|b: i64| #[trigger] self@.contains_key((a, b)) implies exists|j: int|
            0 <= j < r.len() && r@[j].0 == b by {
            lemma_pairmap_source(self.entries@, (a, b));
            let k = choose|k: int| 0 <= k < self.entries@.len() && (self.entries@[k].0, self.entries@[k].1) == (a, b);
            assert(self.entries@[k].0 == a);
        }
        r
    }

    /// The `(a, value)` of every key `(a, b)` with the given second component.
    pub fn with_second(&self, b: i64) -> (r: Vec<(i64, i64)>)
        requires
            self.wf(),
        ensures
            forall|j: int|
                0 <= j < r.len() ==> self@.contains_key(((#[trigger] r@[j]).0, b)) && self@[(r@[j].0, b)]
                    == r@[j].1,
            forall|a: i64|
                #[trigger] self@.contains_key((a, b)) ==> exists|j: int| 0 <= j < r.len() && r@[j].0 == a,
            forall|x: int, y: int| 0 <= x < y < r.len() ==> r@[x].0 != r@[y].0,
    {
        let mut r: Vec<(i64, i64)> = Vec::new();
        let ghost mut ks: Seq<int> = Seq::empty();
        let mut i: usize = 0;
        while i < self.entries.len()
            invariant
                self.wf(),
                i <= self.entries.len(),
                forall|j: int|
                    0 <= j < r.len() ==> self@.contains_key(((#[trigger] r@[j]).0, b)) && self@[(
                        r@[j].0,
                        b,
                    )] == r@[j].1,
                forall|k: int|
                    0 <= k < i && (#[trigger] self.entries@[k]).1 == b ==> exists|j: int|
                        0 <= j < r.len() && r@[j].0 == self.entries@[k].0,
                ks.len() == r.len(),
                forall|j: int|
                    0 <= j < r.len() ==> 0 <= #[trigger] ks[j] < i && self.entries@[ks[j]].1 == b
                        && self.entries@[ks[j]].0 == r@[j].0,
                forall|x: int, y: int| 0 <= x < y < r.len() ==> r@[x].0 != r@[y].0,
            decreases self.entries.len() - i,
        {
            let e = self.entries[i];
            if e.1 == b {
                proof {
                    lemma_pairmap_has(self.entries@, i as int);
                }
                let ghost before = r@;
                r.push((e.0, e.2));
                proof {
                    ks = ks.push(i as int);
                }
                assert forall|x: int, y: int| 0 <= x < y < r.len() implies r@[x].0 != r@[y].0 by {
                    if y == r.len() - 1 {
                        let k = ks[x];
                        assert(r@[x] == before[x]);
                        assert((self.entries@[k].0, self.entries@[k].1) != (self.entries@[i as int].0, self.entries@[i as int].1));
                    } else {
                        assert(r@[x] == before[x]);
                        assert(r@[y] == before[y]);
                    }
                }
                assert forall|k: int|
                    0 <= k < i + 1 && (#[trigger] self.entries@[k]).1 == b implies exists|j: int|
                        0 <= j < r.len() && r@[j].0 == self.entries@[k].0 by {
                    if k < i {
                        let j = choose|j: int| 0 <= j < before.len() && before[j].0 == self.entries@[k].0;
                        assert(r@[j] == before[j]);
                    } else {
                        assert(r@[r.len() - 1].0 == self.entries@[k].0);
                    }
                }
            }
            i += 1;
        }
        assert forall|a: i64| #[trigger] self@.contains_key((a, b)) implies exists|j: int|
            0 <= j < r.len() && r@[j].0 == a by {
            lemma_pairmap_source(self.entries@, (a, b));
            let k = choose|k: int| 0 <= k < self.entries@.len() && (self.entries@[k].0, self.entries@[k].1) == (a, b);
            assert(self.entries@[k].1 == b);
        }
        r
    }
}

} // verus!
