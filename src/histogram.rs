use indexmap::IndexMap;
use vstd::prelude::*;
use vstd::slice::slice_to_vec;

verus! {

#[verifier::external_type_specification]
#[verifier::external_body]
#[verifier::reject_recursive_types(K)]
#[verifier::reject_recursive_types(V)]
#[verifier::reject_recursive_types(S)]
pub struct ExIndexMap<K, V, S>(indexmap::IndexMap<K, V, S>);

/// The entries of the map, in insertion order.
pub uninterp spec fn entries_of(m: IndexMap<Vec<u8>, usize>) -> Seq<(Seq<u8>, usize)>;

/// Relies on IndexMap::new: an empty map.
#[verifier::external_body]
fn map_new() -> (r: IndexMap<Vec<u8>, usize>)
    ensures
        entries_of(r) == Seq::<(Seq<u8>, usize)>::empty(),
{
    IndexMap::new()
}

/// Relies on IndexMap::get_full: the position and value of the entry whose
/// key equals `key`, if there is one.
#[verifier::external_body]
fn map_find(m: &IndexMap<Vec<u8>, usize>, key: &[u8]) -> (r: Option<(usize, usize)>)
    ensures
        match r {
            Some((i, v)) => i < entries_of(*m).len() && entries_of(*m)[i as int] == (key@, v),
            None => forall|i: int| 0 <= i < entries_of(*m).len() ==> #[trigger] entries_of(*m)[i].0 != key@,
        },
{
    m.get_full(key).map(|(i, _, v)| (i, *v))
}

/// Relies on IndexMap's `IndexMut<usize>`: sets the value of entry `i`.
#[verifier::external_body]
fn map_set(m: &mut IndexMap<Vec<u8>, usize>, i: usize, v: usize)
    requires
        i < entries_of(*old(m)).len(),
    ensures
        entries_of(*final(m)) == entries_of(*old(m)).update(i as int, (entries_of(*old(m))[i as int].0, v)),
{
    m[i] = v;
}

/// Relies on IndexMap::insert_full: a key that is not in the map is added
/// last, and its position returned.
#[verifier::external_body]
fn map_push(m: &mut IndexMap<Vec<u8>, usize>, key: &[u8], v: usize) -> (r: usize)
    requires
        forall|i: int| 0 <= i < entries_of(*old(m)).len() ==> #[trigger] entries_of(*old(m))[i].0 != key@,
    ensures
        entries_of(*final(m)) == entries_of(*old(m)).push((key@, v)),
        r == entries_of(*old(m)).len(),
{
    m.insert_full(key.to_vec(), v).0
}

/// Relies on IndexMap::get_index: the key of entry `i`.
#[verifier::external_body]
fn map_key(m: &IndexMap<Vec<u8>, usize>, i: usize) -> (r: Option<&[u8]>)
    ensures
        i < entries_of(*m).len() ==> r is Some && r->0@ == entries_of(*m)[i as int].0,
        i >= entries_of(*m).len() ==> r is None,
{
    m.get_index(i).map(|(k, _)| k.as_slice())
}

/// Occurrence counts of values, kept sorted by count, most frequent first.
pub struct Histogram {
    /// Each value, in order of first sight, with its rank in `counts`.
    values: IndexMap<Vec<u8>, usize>,
    /// By rank: the value's position in `values`, and its count.
    counts: Vec<(usize, u64)>,
}

impl Histogram {
    pub closed spec fn entries(&self) -> Seq<(Seq<u8>, usize)> {
        entries_of(self.values)
    }

    pub closed spec fn ranks(&self) -> Seq<(usize, u64)> {
        self.counts@
    }

    /// The values in order of first sight.
    pub open spec fn keys(&self) -> Seq<Seq<u8>> {
        Seq::new(self.entries().len(), |i: int| self.entries()[i].0)
    }

    /// The count of each value, in order of first sight.
    pub open spec fn by_entry(&self) -> Seq<u64> {
        Seq::new(self.entries().len(), |i: int| self.ranks()[self.entries()[i].1 as int].1)
    }

    /// The values and their counts, most frequent first.
    pub open spec fn ranked(&self) -> Seq<(Seq<u8>, u64)> {
        Seq::new(self.ranks().len(), |c: int| (self.entries()[self.ranks()[c].0 as int].0, self.ranks()[c].1))
    }

    /// Values are distinct; each value's rank leads back to it and each
    /// rank to its value; counts are positive and do not increase by rank.
    pub open spec fn wf(&self) -> bool {
        let e = self.entries();
        let c = self.ranks();
        &&& e.len() == c.len()
        &&& forall|i: int, j: int| 0 <= i < j < e.len() ==> e[i].0 != e[j].0
        &&& forall|i: int| 0 <= i < e.len() ==> (#[trigger] e[i]).1 < c.len() && c[e[i].1 as int].0 == i
        &&& forall|k: int| 0 <= k < c.len() ==> (#[trigger] c[k]).0 < e.len() && e[c[k].0 as int].1 == k
        &&& forall|a: int, b: int| 0 <= a < b < c.len() ==> c[a].1 >= c[b].1
        &&& forall|k: int| 0 <= k < c.len() ==> (#[trigger] c[k]).1 >= 1
    }

    pub fn new() -> (r: Histogram)
        ensures
            r.wf(),
            r.keys().len() == 0,
    {
        Histogram { values: map_new(), counts: Vec::new() }
    }

    /// Counts one more occurrence of `value`. Returns how many distinct
    /// values there are.
    pub fn register(&mut self, value: &[u8]) -> (r: usize)
        requires
            old(self).wf(),
        ensures
            final(self).wf(),
            r == final(self).keys().len(),
            old(self).keys().contains(value@) ==> ({
                let i = old(self).keys().index_of(value@);
                &&& final(self).keys() == old(self).keys()
                &&& final(self).by_entry() == old(self).by_entry().update(
                    i,
                    if old(self).by_entry()[i] == u64::MAX { u64::MAX } else { (old(self).by_entry()[i] + 1) as u64 },
                )
            }),
            !old(self).keys().contains(value@) ==> final(self).keys() == old(self).keys().push(value@)
                && final(self).by_entry() == old(self).by_entry().push(1),
    {
        let ghost e0 = self.entries();
        let ghost c0 = self.counts@;
        match map_find(&self.values, value) {
            Some((vi, ci)) => {
                proof {
                    assert(self.keys()[vi as int] == value@);
                    assert(self.keys().contains(value@));
                    lemma_index_of_unique(self.keys(), vi as int);
                }
                let (value_idx, count) = self.counts[ci];
                assert(value_idx == vi);
                let count = count.saturating_add(1);
                self.counts.set(ci, (value_idx, count));
                if ci != 0 && self.counts[ci - 1].1 < count {
                    let mut k = ci - 1;
                    while k > 0 && self.counts[k - 1].1 < count
                        invariant
                            0 <= k < ci < self.counts@.len(),
                            c0.len() == self.counts@.len(),
                            self.counts@ == c0.update(ci as int, (value_idx, count)),
                            forall|j: int| k <= j < ci ==> #[trigger] self.counts@[j].1 < count,
                        decreases k,
                    {
                        k = k - 1;
                    }
                    let other = self.counts[k];
                    self.counts.set(k, (value_idx, count));
                    self.counts.set(ci, other);
                    map_set(&mut self.values, value_idx, k);
                    map_set(&mut self.values, other.0, ci);
                    proof {
                        assert(self.counts@ =~= c0.update(k as int, (vi as usize, count)).update(ci as int, c0[k as int]));
                        self.lemma_after_swap(e0, c0, vi as int, ci as int, k as int, count);
                    }
                } else {
                    proof {
                        assert(self.entries() == e0);
                        assert forall|a: int, b: int| 0 <= a < b < self.counts@.len() implies self.counts@[a].1 >= self.counts@[b].1 by {
                            if b == ci && a < ci {
                                assert(c0[a].1 >= c0[ci - 1].1);
                            }
                        }
                        assert(self.by_entry() =~= Seq::new(e0.len(), |i: int| c0[e0[i].1 as int].1).update(vi as int, count));
                    }
                }
            },
            None => {
                proof {
                    assert(!self.keys().contains(value@)) by {
                        if self.keys().contains(value@) {
                            let j = self.keys().index_of(value@);
                            assert(self.entries()[j].0 == value@);
                        }
                    }
                }
                let n = self.counts.len();
                let vi = map_push(&mut self.values, value, n);
                self.counts.push((vi, 1));
                proof {
                    assert(self.keys() =~= Seq::new(e0.len(), |i: int| e0[i].0).push(value@));
                    assert(self.by_entry() =~= Seq::new(e0.len(), |i: int| c0[e0[i].1 as int].1).push(1));
                    assert forall|i: int| 0 <= i < self.entries().len() implies (#[trigger] self.entries()[i]).1 < self.counts@.len()
                        && self.counts@[self.entries()[i].1 as int].0 == i by {
                        if i < e0.len() {
                            assert(self.entries()[i] == e0[i]);
                        }
                    }
                    assert forall|k: int| 0 <= k < self.counts@.len() implies (#[trigger] self.counts@[k]).0 < self.entries().len()
                        && self.entries()[self.counts@[k].0 as int].1 == k by {
                        if k < c0.len() {
                            assert(self.counts@[k] == c0[k]);
                        }
                    }
                }
            },
        }
        self.counts.len()
    }

    proof fn lemma_after_swap(&self, e0: Seq<(Seq<u8>, usize)>, c0: Seq<(usize, u64)>, vi: int, ci: int, k: int, count: u64)
        requires
            0 <= k < ci < c0.len(),
            e0.len() == c0.len(),
            0 <= vi < e0.len(),
            e0[vi].1 == ci,
            c0[ci].0 == vi,
            forall|i: int, j: int| 0 <= i < j < e0.len() ==> e0[i].0 != e0[j].0,
            forall|i: int| 0 <= i < e0.len() ==> (#[trigger] e0[i]).1 < c0.len() && c0[e0[i].1 as int].0 == i,
            forall|q: int| 0 <= q < c0.len() ==> (#[trigger] c0[q]).0 < e0.len() && e0[c0[q].0 as int].1 == q,
            forall|a: int, b: int| 0 <= a < b < c0.len() ==> c0[a].1 >= c0[b].1,
            forall|q: int| 0 <= q < c0.len() ==> (#[trigger] c0[q]).1 >= 1,
            count == if c0[ci].1 == u64::MAX { u64::MAX } else { (c0[ci].1 + 1) as u64 },
            forall|j: int| k <= j < ci ==> #[trigger] c0[j].1 < count,
            k > 0 ==> c0[k - 1].1 >= count,
            self.counts@ == c0.update(k, (vi as usize, count)).update(ci, c0[k]),
            self.entries() == e0.update(vi, (e0[vi].0, k as usize)).update(
                c0[k].0 as int,
                (e0.update(vi, (e0[vi].0, k as usize))[c0[k].0 as int].0, ci as usize),
            ),
        ensures
            self.wf(),
            self.keys() == Seq::new(e0.len(), |i: int| e0[i].0),
            self.by_entry() == Seq::new(e0.len(), |i: int| c0[e0[i].1 as int].1).update(vi, count),
    {
        let o = c0[k].0 as int;
        assert(o != vi);
        let e = self.entries();
        let c = self.counts@;
        assert forall|i: int| 0 <= i < e.len() implies (#[trigger] e[i]).1 < c.len() && c[e[i].1 as int].0 == i by {
            if i == vi {
            } else if i == o {
            } else {
                assert(e[i] == e0[i]);
                assert(e0[i].1 != ci && e0[i].1 != k);
            }
        }
        assert forall|q: int| 0 <= q < c.len() implies (#[trigger] c[q]).0 < e.len() && e[c[q].0 as int].1 == q by {
            if q == k {
            } else if q == ci {
            } else {
                assert(c[q] == c0[q]);
                assert(c0[q].0 != vi && c0[q].0 != o);
            }
        }
        assert forall|a: int, b: int| 0 <= a < b < c.len() implies c[a].1 >= c[b].1 by {
            assert(c0[k].1 >= c0[ci].1);
            if k <= a < ci {
                assert(c0[a].1 >= c0[ci].1);
            }
            if k <= b < ci {
                assert(c0[b].1 >= c0[ci].1);
            }
            if a < k && k <= b {
                assert(c0[a].1 >= c0[k - 1].1);
            }
        }
        assert(self.keys() =~= Seq::new(e0.len(), |i: int| e0[i].0));
        assert(self.by_entry() =~= Seq::new(e0.len(), |i: int| c0[e0[i].1 as int].1).update(vi, count));
    }

    /// The values and their counts, most frequent first.
    pub fn items(&self) -> (r: Vec<(Vec<u8>, u64)>)
        requires
            self.wf(),
        ensures
            r@.len() == self.ranked().len(),
            forall|c: int| 0 <= c < r@.len() ==> (#[trigger] r@[c]).0@ == self.ranked()[c].0 && r@[c].1 == self.ranked()[c].1,
    {
        let mut r: Vec<(Vec<u8>, u64)> = Vec::new();
        let mut c: usize = 0;
        while c < self.counts.len()
            invariant
                self.wf(),
                c <= self.counts@.len(),
                r@.len() == c,
                forall|j: int| 0 <= j < c ==> (#[trigger] r@[j]).0@ == self.ranked()[j].0 && r@[j].1 == self.ranked()[j].1,
            decreases self.counts@.len() - c,
        {
            let (vi, count) = self.counts[c];
            proof {
                assert(self.ranks()[c as int].0 < self.entries().len());
            }
            let key = match map_key(&self.values, vi) {
                Some(k) => slice_to_vec(k),
                None => Vec::new(),
            };
            r.push((key, count));
            c = c + 1;
        }
        r
    }

    /// How many distinct values there are.
    pub fn len(&self) -> (r: usize)
        requires
            self.wf(),
        ensures
            r == self.keys().len(),
    {
        self.counts.len()
    }
}

proof fn lemma_index_of_unique(s: Seq<Seq<u8>>, i: int)
    requires
        0 <= i < s.len(),
        forall|a: int, b: int| 0 <= a < b < s.len() ==> s[a] != s[b],
    ensures
        s.index_of(s[i]) == i,
{
    assert(s.contains(s[i]));
    let j = s.index_of(s[i]);
    assert(s[j] == s[i]);
}

/// The ranked counts never increase, and each value's rank leads back to
/// that value.
pub proof fn lemma_histogram_invariant(h: &Histogram)
    requires
        h.wf(),
    ensures
        forall|a: int, b: int| 0 <= a < b < h.ranked().len() ==> h.ranked()[a].1 >= h.ranked()[b].1,
        forall|i: int| 0 <= i < h.keys().len() ==> h.ranks()[h.entries()[i].1 as int].0 == i,
{
    assert forall|i: int| 0 <= i < h.keys().len() implies h.ranks()[h.entries()[i].1 as int].0 == i by {
        assert(h.entries()[i].1 < h.ranks().len());
    }
}

} // verus!
