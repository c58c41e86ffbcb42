//! Sparse vectors: a logical key-to-value mapping with an explicit
//! declared domain size, backed by one packed memory array.
//!
//! Construction takes possibly unsorted, possibly duplicated keys;
//! duplicates are folded left to right, in input order, through the
//! caller's combining function. Reads of absent keys yield the value
//! type's default, and a write beyond the declared length grows it.

use vstd::prelude::*;
use crate::model::{
    sorted_strict, lookup, map_set, max_key, vals_of, fold_rel, fold_chain, zip_kv,
    lemma_max_key,
    lemma_lookup_absent, lemma_map_set_split, lemma_map_set_replace, lemma_map_set_sorted,
    lemma_lookup_map_set,
};
use crate::pma::{PackedMemoryArray, Error, MAX_CAPACITY, keys_sorted};

verus! {

/// A sparse vector: a declared logical dimension `n` (an upper bound on
/// the keys present) over one packed memory array.
pub struct DynamicSparseVector {
    /// The declared logical dimension.
    pub n: usize,
    /// The backing store.
    pub pma: PackedMemoryArray,
}

impl View for DynamicSparseVector {
    type V = Seq<(usize, u64)>;

    /// A vector denotes its live pairs in ascending key order.
    open spec fn view(&self) -> Seq<(usize, u64)> {
        self.pma@
    }
}

impl DynamicSparseVector {
    /// Every key present stays within the declared dimension.
    pub open spec fn wf(&self) -> bool {
        &&& self.pma.wf()
        &&& forall|j: int| 0 <= j < self@.len() ==> (#[trigger] self@[j]).0 <= self.n
    }

    /// The declared logical dimension.
    pub fn length(&self) -> (r: usize)
        ensures
            r == self.n,
    {
        self.n
    }

    /// The dimensions as a one-tuple.
    pub fn size(&self) -> (r: (usize,))
        ensures
            r.0 == self.n,
    {
        (self.n,)
    }

    /// The count of stored pairs.
    pub fn nnz(&self) -> (r: usize)
        requires
            self.wf(),
        ensures
            r == self@.len(),
    {
        self.pma.nnz()
    }

    /// All stored pairs in ascending key order.
    pub fn iter(&self) -> (r: Vec<(usize, u64)>)
        ensures
            r@ == self@,
    {
        self.pma.iter()
    }

    /// The stored keys in ascending order.
    pub fn nonzeroinds(&self) -> (r: Vec<usize>)
        ensures
            r@.len() == self@.len(),
            forall|j: int| 0 <= j < r@.len() ==> r@[j] == (#[trigger] self@[j]).0,
    {
        let pairs = self.pma.iter();
        let mut r: Vec<usize> = Vec::new();
        let mut i: usize = 0;
        while i < pairs.len()
            invariant
                i <= pairs@.len(),
                pairs@ == self@,
                r@.len() == i,
                forall|j: int| 0 <= j < i ==> r@[j] == (#[trigger] self@[j]).0,
            decreases pairs@.len() - i,
        {
            let p = pairs[i];
            r.push(p.0);
            i = i + 1;
        }
        r
    }

    /// The stored values, in ascending order of their keys.
    pub fn nonzeros(&self) -> (r: Vec<u64>)
        ensures
            r@.len() == self@.len(),
            forall|j: int| 0 <= j < r@.len() ==> r@[j] == (#[trigger] self@[j]).1,
    {
        let pairs = self.pma.iter();
        let mut r: Vec<u64> = Vec::new();
        let mut i: usize = 0;
        while i < pairs.len()
            invariant
                i <= pairs@.len(),
                pairs@ == self@,
                r@.len() == i,
                forall|j: int| 0 <= j < i ==> r@[j] == (#[trigger] self@[j]).1,
            decreases pairs@.len() - i,
        {
            let p = pairs[i];
            r.push(p.1);
            i = i + 1;
        }
        r
    }

    /// The value at `key`, or the default value 0 when the key is absent:
    /// total, never fails.
    pub fn index(&self, key: usize) -> (r: u64)
        requires
            self.wf(),
        ensures
            r == match lookup(self@, key) {
                Some(v) => v,
                None => 0,
            },
    {
        match self.pma.get(key) {
            Some(v) => v,
            None => 0,
        }
    }

    /// Whether `key` is present.
    pub fn contains_key(&self, key: usize) -> (r: bool)
        requires
            self.wf(),
        ensures
            r == (lookup(self@, key) is Some),
    {
        self.pma.contains_key(key)
    }

    /// Write `value` at `key`, growing the declared dimension when the
    /// key lies beyond it.
    pub fn set(&mut self, key: usize, value: u64) -> (r: Result<(), Error>)
        requires
            old(self).wf(),
        ensures
            final(self).wf(),
            // The backing capacity only ever changes by whole doublings
            // or one halving per write.
            final(self).pma.capacity == old(self).pma.capacity
                || final(self).pma.capacity == 2 * old(self).pma.capacity
                || final(self).pma.capacity == 4 * old(self).pma.capacity
                || final(self).pma.capacity == old(self).pma.capacity / 2,
            match r {
                Ok(()) => {
                    &&& final(self)@ == map_set(old(self)@, key, value)
                    &&& final(self).n == if key > old(self).n {
                        key
                    } else {
                        old(self).n
                    }
                },
                Err(e) => {
                    &&& e == Error::CapacityExhausted
                    &&& *final(self) == *old(self)
                    &&& lookup(old(self)@, key) is None
                    &&& old(self)@.len() == old(self).pma.capacity
                },
            },
    {
        let r = self.pma.set(key, value);
        match r {
            Ok(()) => {
                if key > self.n {
                    self.n = key;
                }
                proof {
                    lemma_map_set_sorted(old(self)@, key, value);
                }
                Ok(())
            },
            Err(e) => Err(e),
        }
    }
}

/// Pairwise comparison of two pair vectors.
fn pairs_equal(x: &Vec<(usize, u64)>, y: &Vec<(usize, u64)>) -> (r: bool)
    ensures
        r == (x@ == y@),
{
    if x.len() != y.len() {
        proof {
            assert(x@.len() != y@.len());
        }
        return false;
    }
    let mut i: usize = 0;
    while i < x.len()
        invariant
            i <= x@.len(),
            x@.len() == y@.len(),
            forall|j: int| 0 <= j < i ==> x@[j] == y@[j],
        decreases x@.len() - i,
    {
        let a = x[i];
        let b = y[i];
        if a.0 != b.0 || a.1 != b.1 {
            proof {
                assert(x@[i as int] != y@[i as int]);
            }
            return false;
        }
        i = i + 1;
    }
    proof {
        assert(x@ =~= y@);
    }
    true
}

impl PartialEq for DynamicSparseVector {
    /// Two vectors are equal when their declared dimensions are equal and
    /// they hold the same pairs.
    fn eq(&self, other: &DynamicSparseVector) -> (r: bool) {
        self.n == other.n && pairs_equal(&self.iter(), &other.iter())
    }
}

impl vstd::std_specs::cmp::PartialEqSpecImpl for DynamicSparseVector {
    open spec fn obeys_eq_spec() -> bool {
        true
    }

    open spec fn eq_spec(&self, other: &DynamicSparseVector) -> bool {
        self.n == other.n && self@ == other@
    }
}

/// Law: iterating a well-formed vector yields strictly ascending keys,
/// whatever insertions produced it.
pub proof fn lemma_order_invariant(v: &DynamicSparseVector)
    requires
        v.wf(),
    ensures
        sorted_strict(v@),
{
}

/// The greatest key present in a packed memory array, 0 when empty.
pub fn _guess_length(pma: &PackedMemoryArray) -> (r: usize)
    ensures
        r == max_key(pma@),
{
    let pairs = pma.iter();
    let mut best: usize = 0;
    let mut i: usize = 0;
    while i < pairs.len()
        invariant
            i <= pairs@.len(),
            pairs@ == pma@,
            best == max_key(pairs@.take(i as int)),
        decreases pairs@.len() - i,
    {
        proof {
            assert(pairs@.take(i as int + 1).drop_last() =~= pairs@.take(i as int));
            assert(pairs@.take(i as int + 1).last() == pairs@[i as int]);
        }
        let p = pairs[i];
        if p.0 > best {
            best = p.0;
        }
        i = i + 1;
    }
    proof {
        assert(pairs@.take(pairs@.len() as int) =~= pairs@);
    }
    best
}

/// Tighten the declared dimension back to the greatest key present.
pub fn shrink_size(v: &mut DynamicSparseVector)
    requires
        old(v).wf(),
    ensures
        final(v).wf(),
        final(v)@ == old(v)@,
        final(v).n == max_key(old(v)@),
{
    let g = _guess_length(&v.pma);
    v.n = g;
    proof {
        lemma_max_key(v@);
    }
}

/// Dense binary search in a gap-free sorted pair sequence: the slot of
/// the key, or the index where it would be inserted.
pub(crate) fn assoc_search(r: &Vec<(usize, u64)>, k: usize) -> (res: Result<usize, usize>)
    requires
        sorted_strict(r@),
    ensures
        match res {
            Ok(pos) => pos < r@.len() && r@[pos as int].0 == k,
            Err(pos) => {
                &&& pos <= r@.len()
                &&& forall|i: int| 0 <= i < pos ==> (#[trigger] r@[i]).0 < k
                &&& forall|i: int| pos <= i < r@.len() ==> (#[trigger] r@[i]).0 > k
            },
        },
{
    let mut lo: usize = 0;
    let mut hi: usize = r.len();
    while lo < hi
        invariant
            lo <= hi <= r@.len(),
            sorted_strict(r@),
            forall|i: int| 0 <= i < lo ==> (#[trigger] r@[i]).0 < k,
            forall|i: int| hi <= i < r@.len() ==> (#[trigger] r@[i]).0 > k,
        decreases hi - lo,
    {
        let mid = lo + (hi - lo) / 2;
        let p = r[mid];
        if p.0 == k {
            return Ok(mid);
        } else if p.0 < k {
            lo = mid + 1;
        } else {
            hi = mid;
        }
    }
    Err(lo)
}

/// Fold duplicate keys together: walking the input pairs left to right,
/// each pair is inserted at its sorted place, or combined into the value
/// already stored under its key. The result is the sorted, duplicate-free
/// association of the input.
pub(crate) fn assoc_accumulate<F: Fn(u64, u64) -> u64 + Copy>(
    keys: &Vec<usize>,
    values: &Vec<u64>,
    combine: F,
) -> (r: Vec<(usize, u64)>)
    requires
        keys@.len() == values@.len(),
        forall|a: u64, b: u64| call_requires(combine, (a, b)),
    ensures
        sorted_strict(r@),
        r@.len() <= keys@.len(),
        forall|k: usize| (lookup(r@, k) is Some) <==> vals_of(keys@, values@, k).len() > 0,
        forall|k: usize|
            (#[trigger] lookup(r@, k)) matches Some(v) ==> fold_rel(
                combine,
                vals_of(keys@, values@, k),
                v,
            ),
{
    let mut r: Vec<(usize, u64)> = Vec::new();
    let mut i: usize = 0;
    while i < keys.len()
        invariant
            i <= keys@.len(),
            keys@.len() == values@.len(),
            forall|a: u64, b: u64| call_requires(combine, (a, b)),
            sorted_strict(r@),
            r@.len() <= i,
            forall|k: usize|
                (lookup(r@, k) is Some) <==> vals_of(
                    keys@.take(i as int),
                    values@.take(i as int),
                    k,
                ).len() > 0,
            forall|k: usize|
                (#[trigger] lookup(r@, k)) matches Some(v) ==> fold_rel(
                    combine,
                    vals_of(keys@.take(i as int), values@.take(i as int), k),
                    v,
                ),
        decreases keys@.len() - i,
    {
        let ghost rold = r@;
        let ghost kt = keys@.take(i as int);
        let ghost vt = values@.take(i as int);
        let k = keys[i];
        let v = values[i];
        match assoc_search(&r, k) {
            Ok(pos) => {
                let cur = r[pos].1;
                let w = combine(cur, v);
                r[pos] = (k, w);
                proof {
                    let s1 = rold.take(pos as int);
                    let s2 = rold.skip(pos as int + 1);
                    assert forall|q: int| 0 <= q < s1.len() implies (#[trigger] s1[q]).0 < k by {
                        assert(s1[q] == rold[q]);
                    }
                    assert forall|q: int| 0 <= q < s2.len() implies (#[trigger] s2[q]).0 > k by {
                        assert(s2[q] == rold[pos + 1 + q]);
                    }
                    assert(rold =~= s1 + seq![(k, rold[pos as int].1)] + s2);
                    lemma_map_set_replace(s1, s2, k, rold[pos as int].1, w);
                    assert(r@ =~= s1 + seq![(k, w)] + s2);
                    assert(r@ == map_set(rold, k, w));
                    lemma_map_set_sorted(rold, k, w);
                    crate::model::lemma_lookup_present(rold, pos as int);
                    lemma_accumulate_step(combine, rold, keys@, values@, i as int, w, Some(cur));
                }
            },
            Err(pos) => {
                r.insert(pos, (k, v));
                proof {
                    let s1 = rold.take(pos as int);
                    let s2 = rold.skip(pos as int);
                    assert forall|q: int| 0 <= q < s1.len() implies (#[trigger] s1[q]).0 < k by {
                        assert(s1[q] == rold[q]);
                    }
                    assert forall|q: int| 0 <= q < s2.len() implies (#[trigger] s2[q]).0 > k by {
                        assert(s2[q] == rold[pos + q]);
                    }
                    assert(rold =~= s1 + s2);
                    lemma_map_set_split(s1, s2, k, v);
                    assert(r@ =~= s1 + seq![(k, v)] + s2);
                    assert(r@ == map_set(rold, k, v));
                    lemma_map_set_sorted(rold, k, v);
                    assert forall|q: int| 0 <= q < rold.len() implies (#[trigger] rold[q]).0
                        != k by {
                        if q < pos {
                            assert(rold[q] == s1[q]);
                        } else {
                            assert(rold[q] == s2[q - pos]);
                        }
                    }
                    lemma_lookup_absent(rold, k);
                    lemma_accumulate_step(combine, rold, keys@, values@, i as int, v, None);
                }
            },
        }
        i = i + 1;
    }
    proof {
        assert(keys@.take(keys@.len() as int) =~= keys@);
        assert(values@.take(values@.len() as int) =~= values@);
    }
    r
}

/// One accumulation step: writing the folded value of the freshly read
/// pair extends every per-key value run by at most that one value.
proof fn lemma_accumulate_step<F: Fn(u64, u64) -> u64>(
    combine: F,
    rold: Seq<(usize, u64)>,
    keys: Seq<usize>,
    values: Seq<u64>,
    i: int,
    w: u64,
    cur: Option<u64>,
)
    requires
        0 <= i < keys.len(),
        keys.len() == values.len(),
        sorted_strict(rold),
        forall|k: usize|
            (lookup(rold, k) is Some) <==> vals_of(keys.take(i), values.take(i), k).len() > 0,
        forall|k: usize|
            (#[trigger] lookup(rold, k)) matches Some(v) ==> fold_rel(
                combine,
                vals_of(keys.take(i), values.take(i), k),
                v,
            ),
        match cur {
            Some(c) => lookup(rold, keys[i]) == Some(c) && call_ensures(
                combine,
                (c, values[i]),
                w,
            ),
            None => lookup(rold, keys[i]) is None && w == values[i],
        },
    ensures
        forall|k: usize|
            (lookup(map_set(rold, keys[i], w), k) is Some) <==> vals_of(
                keys.take(i + 1),
                values.take(i + 1),
                k,
            ).len() > 0,
        forall|k: usize|
            (#[trigger] lookup(map_set(rold, keys[i], w), k)) matches Some(v) ==> fold_rel(
                combine,
                vals_of(keys.take(i + 1), values.take(i + 1), k),
                v,
            ),
{
    let ki = keys[i];
    let vi = values[i];
    let ms = map_set(rold, ki, w);
    assert(keys.take(i + 1).drop_last() =~= keys.take(i));
    assert(values.take(i + 1).drop_last() =~= values.take(i));
    assert(keys.take(i + 1).last() == ki);
    assert(values.take(i + 1).last() == vi);
    assert forall|k: usize| (lookup(ms, k) is Some) <==> vals_of(
        keys.take(i + 1),
        values.take(i + 1),
        k,
    ).len() > 0 by {
        lemma_lookup_map_set(rold, ki, w, k);
        if k == ki {
            assert(vals_of(keys.take(i + 1), values.take(i + 1), k) == vals_of(
                keys.take(i),
                values.take(i),
                k,
            ).push(vi));
        } else {
            assert(vals_of(keys.take(i + 1), values.take(i + 1), k) == vals_of(
                keys.take(i),
                values.take(i),
                k,
            ));
        }
    }
    assert forall|k: usize| lookup(ms, k) is Some implies fold_rel(
        combine,
        vals_of(keys.take(i + 1), values.take(i + 1), k),
        lookup(ms, k).unwrap(),
    ) by {
        lemma_lookup_map_set(rold, ki, w, k);
        if k == ki {
            let nv = vals_of(keys.take(i), values.take(i), k).push(vi);
            assert(vals_of(keys.take(i + 1), values.take(i + 1), k) == nv);
            assert(lookup(ms, k) == Some(w));
            match cur {
                Some(c) => {
                    let ov = vals_of(keys.take(i), values.take(i), k);
                    assert(fold_rel(combine, ov, c));
                    let mids = choose|mids: Seq<u64>|
                        fold_chain(combine, ov, mids) && mids.last() == c;
                    let mids2 = mids.push(w);
                    assert(nv.len() == ov.len() + 1);
                    assert forall|t: int| 1 <= t < nv.len() implies #[trigger] call_ensures(
                        combine,
                        (mids2[t - 1], nv[t]),
                        mids2[t],
                    ) by {
                        if t < nv.len() - 1 {
                            assert(mids2[t - 1] == mids[t - 1]);
                            assert(nv[t] == ov[t]);
                            assert(mids2[t] == mids[t]);
                            assert(call_ensures(combine, (mids[t - 1], ov[t]), mids[t]));
                        } else {
                            assert(mids2[t - 1] == mids.last());
                            assert(nv[t] == vi);
                            assert(mids2[t] == w);
                        }
                    }
                    assert(fold_chain(combine, nv, mids2) && mids2.last() == w);
                    assert(fold_rel(combine, nv, w));
                },
                None => {
                    assert(vals_of(keys.take(i), values.take(i), k).len() == 0);
                    assert(nv.len() == 1);
                    assert(nv[0] == vi);
                    let mids = seq![w];
                    assert(fold_chain(combine, nv, mids) && mids.last() == w);
                    assert(fold_rel(combine, nv, w));
                },
            }
        } else {
            assert(vals_of(keys.take(i + 1), values.take(i + 1), k) == vals_of(
                keys.take(i),
                values.take(i),
                k,
            ));
            assert(lookup(ms, k) == lookup(rold, k));
        }
    }
}

/// Group and fold duplicate keys in place: afterwards the keys are
/// strictly ascending and each carries the left-to-right fold of the
/// values that shared it, in input order.
pub fn _prepare_keys_vals<F: Fn(u64, u64) -> u64 + Copy>(
    keys: &mut Vec<usize>,
    values: &mut Vec<u64>,
    combine: F,
)
    requires
        old(keys)@.len() == old(values)@.len(),
        forall|a: u64, b: u64| call_requires(combine, (a, b)),
    ensures
        final(keys)@.len() == final(values)@.len(),
        final(keys)@.len() <= old(keys)@.len(),
        keys_sorted(final(keys)@),
        sorted_strict(zip_kv(final(keys)@, final(values)@)),
        forall|k: usize|
            (lookup(zip_kv(final(keys)@, final(values)@), k) is Some) <==> vals_of(
                old(keys)@,
                old(values)@,
                k,
            ).len() > 0,
        forall|k: usize|
            (#[trigger] lookup(zip_kv(final(keys)@, final(values)@), k)) matches Some(v)
                ==> fold_rel(combine, vals_of(old(keys)@, old(values)@, k), v),
{
    let pairs = assoc_accumulate(keys, values, combine);
    let mut nk: Vec<usize> = Vec::new();
    let mut nv: Vec<u64> = Vec::new();
    let mut i: usize = 0;
    while i < pairs.len()
        invariant
            i <= pairs@.len(),
            nk@.len() == i,
            nv@.len() == i,
            forall|j: int| 0 <= j < i ==> nk@[j] == (#[trigger] pairs@[j]).0,
            forall|j: int| 0 <= j < i ==> nv@[j] == (#[trigger] pairs@[j]).1,
        decreases pairs@.len() - i,
    {
        let p = pairs[i];
        nk.push(p.0);
        nv.push(p.1);
        i = i + 1;
    }
    proof {
        assert(zip_kv(nk@, nv@) =~= pairs@);
        assert forall|p: int, q: int| 0 <= p < q < nk@.len() implies #[trigger] nk@[p]
            < #[trigger] nk@[q] by {
            assert((pairs@[p]).0 < (pairs@[q]).0);
        }
    }
    *keys = nk;
    *values = nv;
}

/// Build a sparse vector from keys, values, a combining function, and a
/// declared dimension (which grows to the greatest key present when that
/// is larger). Rejects mismatched key/value lengths.
pub fn _dynamicsparsevec<F: Fn(u64, u64) -> u64 + Copy>(
    i: Vec<usize>,
    v: Vec<u64>,
    combine: F,
    n: usize,
) -> (r: Result<DynamicSparseVector, Error>)
    requires
        i@.len() as int <= MAX_CAPACITY as int,
        forall|a: u64, b: u64| call_requires(combine, (a, b)),
    ensures
        match r {
            Ok(vec) => {
                &&& i@.len() == v@.len()
                &&& vec.wf()
                &&& (forall|k: usize|
                    (lookup(vec@, k) is Some) <==> vals_of(i@, v@, k).len() > 0)
                &&& (forall|k: usize|
                    (#[trigger] lookup(vec@, k)) matches Some(val) ==> fold_rel(
                        combine,
                        vals_of(i@, v@, k),
                        val,
                    ))
                &&& vec.n == if max_key(vec@) > n {
                    max_key(vec@)
                } else {
                    n
                }
            },
            Err(e) => e == Error::InvalidInput && i@.len() != v@.len(),
        },
{
    if i.len() != v.len() {
        return Err(Error::InvalidInput);
    }
    let pairs = assoc_accumulate(&i, &v, combine);
    let pma = PackedMemoryArray::load_pairs(pairs);
    let g = _guess_length(&pma);
    let length = if g > n {
        g
    } else {
        n
    };
    proof {
        lemma_max_key(pma@);
    }
    Ok(DynamicSparseVector { n: length, pma })
}

/// Build a sparse vector; without a declared dimension the greatest key
/// present is used (0 when the vector is empty).
pub fn dynamicsparsevec<F: Fn(u64, u64) -> u64 + Copy>(
    i: Vec<usize>,
    v: Vec<u64>,
    combine: F,
    n: Option<usize>,
) -> (r: Result<DynamicSparseVector, Error>)
    requires
        i@.len() as int <= MAX_CAPACITY as int,
        forall|a: u64, b: u64| call_requires(combine, (a, b)),
    ensures
        match r {
            Ok(vec) => {
                &&& i@.len() == v@.len()
                &&& vec.wf()
                &&& (forall|k: usize|
                    (lookup(vec@, k) is Some) <==> vals_of(i@, v@, k).len() > 0)
                &&& (forall|k: usize|
                    (#[trigger] lookup(vec@, k)) matches Some(val) ==> fold_rel(
                        combine,
                        vals_of(i@, v@, k),
                        val,
                    ))
                &&& vec.n == match n {
                    Some(d) => if max_key(vec@) > d {
                        max_key(vec@)
                    } else {
                        d
                    },
                    None => max_key(vec@),
                }
            },
            Err(e) => e == Error::InvalidInput && i@.len() != v@.len(),
        },
{
    let d = match n {
        Some(d) => d,
        None => 0,
    };
    _dynamicsparsevec(i, v, combine, d)
}

} // verus!

