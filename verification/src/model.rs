//! The mathematical model of the packed memory array.
//!
//! An array of slots (each a gap or one key-value pair) is abstracted to
//! the sequence of its live pairs read left to right. All contracts in
//! this crate speak about that sequence: whether it is strictly ascending
//! by key, what a key lookup yields, and how an insertion changes it.

use vstd::prelude::*;

verus! {

/// The sequence of live pairs of a slot array, read left to right.
pub open spec fn lives(a: Seq<Option<(usize, u64)>>) -> Seq<(usize, u64)>
    decreases a.len(),
{
    if a.len() == 0 {
        Seq::empty()
    } else {
        let rest = lives(a.drop_last());
        match a.last() {
            Some(p) => rest.push(p),
            None => rest,
        }
    }
}

/// Keys are strictly ascending.
pub open spec fn sorted_strict(s: Seq<(usize, u64)>) -> bool {
    forall|i: int, j: int| 0 <= i < j < s.len() ==> (#[trigger] s[i]).0 < (#[trigger] s[j]).0
}

/// The value stored at a key: the rightmost occurrence decides, which for
/// a strictly sorted sequence is the only occurrence.
pub open spec fn lookup(s: Seq<(usize, u64)>, k: usize) -> Option<u64>
    decreases s.len(),
{
    if s.len() == 0 {
        None
    } else if s.last().0 == k {
        Some(s.last().1)
    } else {
        lookup(s.drop_last(), k)
    }
}

/// A sorted pair sequence with the binding `k -> v` added or replaced.
pub open spec fn map_set(s: Seq<(usize, u64)>, k: usize, v: u64) -> Seq<(usize, u64)>
    decreases s.len(),
{
    if s.len() == 0 {
        seq![(k, v)]
    } else if s.last().0 < k {
        s.push((k, v))
    } else if s.last().0 == k {
        s.drop_last().push((k, v))
    } else {
        map_set(s.drop_last(), k, v).push(s.last())
    }
}

/// The greatest key of a pair sequence, 0 if it is empty.
pub open spec fn max_key(s: Seq<(usize, u64)>) -> usize
    decreases s.len(),
{
    if s.len() == 0 {
        0
    } else if s.last().0 >= max_key(s.drop_last()) {
        s.last().0
    } else {
        max_key(s.drop_last())
    }
}

/// The values paired with key `k` in two parallel input sequences, in
/// input order. Empty when the sequences disagree in length.
pub open spec fn vals_of(keys: Seq<usize>, vals: Seq<u64>, k: usize) -> Seq<u64>
    decreases keys.len(),
{
    if keys.len() == 0 || keys.len() != vals.len() {
        Seq::empty()
    } else if keys.last() == k {
        vals_of(keys.drop_last(), vals.drop_last(), k).push(vals.last())
    } else {
        vals_of(keys.drop_last(), vals.drop_last(), k)
    }
}

/// `mids` records the running value of a left-to-right fold of `vs`
/// through `f`: its first entry is the first value, and each later entry
/// is a possible result of combining the previous entry with the next
/// value.
pub open spec fn fold_chain<F: Fn(u64, u64) -> u64>(f: F, vs: Seq<u64>, mids: Seq<u64>) -> bool {
    &&& mids.len() == vs.len()
    &&& (vs.len() > 0 ==> mids[0] == vs[0])
    &&& forall|t: int|
        1 <= t < vs.len() ==> #[trigger] call_ensures(f, (mids[t - 1], vs[t]), mids[t])
}

/// `r` is a possible left-to-right fold of the nonempty value run `vs`
/// through the combining function `f`.
pub open spec fn fold_rel<F: Fn(u64, u64) -> u64>(f: F, vs: Seq<u64>, r: u64) -> bool {
    vs.len() > 0 && exists|mids: Seq<u64>| fold_chain(f, vs, mids) && mids.last() == r
}

/// The slot holds no key at or above `k`.
pub open spec fn slot_below(s: Option<(usize, u64)>, k: usize) -> bool {
    s matches Some(p) ==> p.0 < k
}

/// The slot holds no key at or below `k`.
pub open spec fn slot_above(s: Option<(usize, u64)>, k: usize) -> bool {
    s matches Some(p) ==> p.0 > k
}

/// Every live slot left of `end` holds a key below `k`.
pub open spec fn live_below(a: Seq<Option<(usize, u64)>>, end: int, k: usize) -> bool {
    forall|i: int| 0 <= i < end && i < a.len() ==> slot_below(#[trigger] a[i], k)
}

/// Every live slot at or right of `start` holds a key above `k`.
pub open spec fn live_above(a: Seq<Option<(usize, u64)>>, start: int, k: usize) -> bool {
    forall|i: int| start <= i < a.len() && 0 <= i ==> slot_above(#[trigger] a[i], k)
}

pub proof fn lemma_lives_len(a: Seq<Option<(usize, u64)>>)
    ensures
        lives(a).len() <= a.len(),
    decreases a.len(),
{
    if a.len() > 0 {
        lemma_lives_len(a.drop_last());
    }
}

/// Live pairs distribute over concatenation.
pub proof fn lemma_lives_concat(a: Seq<Option<(usize, u64)>>, b: Seq<Option<(usize, u64)>>)
    ensures
        lives(a + b) == lives(a) + lives(b),
    decreases b.len(),
{
    if b.len() == 0 {
        assert(a + b =~= a);
        assert(lives(a) + lives(b) =~= lives(a));
    } else {
        lemma_lives_concat(a, b.drop_last());
        assert((a + b).drop_last() =~= a + b.drop_last());
        assert((a + b).last() == b.last());
        match b.last() {
            Some(p) => {
                assert(lives(a + b) == (lives(a) + lives(b.drop_last())).push(p));
                assert(lives(b) == lives(b.drop_last()).push(p));
                assert((lives(a) + lives(b.drop_last())).push(p) =~= lives(a) + lives(
                    b.drop_last(),
                ).push(p));
            },
            None => {
                assert(lives(b) == lives(b.drop_last()));
            },
        }
    }
}

/// A live slot's pair appears among the live pairs.
pub proof fn lemma_slot_in_lives(a: Seq<Option<(usize, u64)>>, i: int, p: (usize, u64))
    requires
        0 <= i < a.len(),
        a[i] == Some(p),
    ensures
        lives(a).contains(p),
    decreases a.len(),
{
    if i == a.len() - 1 {
        assert(lives(a) == lives(a.drop_last()).push(p));
        assert(lives(a).last() == p);
    } else {
        assert(a.drop_last()[i] == a[i]);
        lemma_slot_in_lives(a.drop_last(), i, p);
        let j = choose|j: int| 0 <= j < lives(a.drop_last()).len() && lives(a.drop_last())[j] == p;
        match a.last() {
            Some(q) => {
                assert(lives(a) == lives(a.drop_last()).push(q));
                assert(lives(a)[j] == p);
            },
            None => {
                assert(lives(a) == lives(a.drop_last()));
            },
        }
    }
}

/// Every live pair comes from some slot.
pub proof fn lemma_lives_member(a: Seq<Option<(usize, u64)>>)
    ensures
        forall|j: int|
            0 <= j < lives(a).len() ==> exists|i: int|
                0 <= i < a.len() && a[i] == Some(#[trigger] lives(a)[j]),
    decreases a.len(),
{
    if a.len() > 0 {
        lemma_lives_member(a.drop_last());
        assert forall|j: int| 0 <= j < lives(a).len() implies exists|i: int|
            0 <= i < a.len() && a[i] == Some(#[trigger] lives(a)[j]) by {
            match a.last() {
                Some(p) => {
                    assert(lives(a) == lives(a.drop_last()).push(p));
                    if j < lives(a.drop_last()).len() {
                        assert(lives(a)[j] == lives(a.drop_last())[j]);
                        let i = choose|i: int|
                            0 <= i < a.drop_last().len() && a.drop_last()[i] == Some(
                                lives(a.drop_last())[j],
                            );
                        assert(a[i] == Some(lives(a)[j]));
                    } else {
                        assert(lives(a)[j] == p);
                        assert(a[a.len() - 1] == Some(p));
                    }
                },
                None => {
                    assert(lives(a) == lives(a.drop_last()));
                    let i = choose|i: int|
                        0 <= i < a.drop_last().len() && a.drop_last()[i] == Some(
                            lives(a.drop_last())[j],
                        );
                    assert(a[i] == Some(lives(a)[j]));
                },
            }
        }
    }
}

/// When the live pairs are strictly sorted, any two live slots compare
/// by position.
pub proof fn lemma_slots_ordered(a: Seq<Option<(usize, u64)>>, i: int, j: int)
    requires
        sorted_strict(lives(a)),
        0 <= i < j < a.len(),
        a[i] is Some,
        a[j] is Some,
    ensures
        a[i].unwrap().0 < a[j].unwrap().0,
{
    let s1 = a.subrange(0, j);
    let s2 = a.subrange(j, a.len() as int);
    assert(a =~= s1 + s2);
    lemma_lives_concat(s1, s2);
    lemma_slot_in_lives(s1, i, a[i].unwrap());
    lemma_slot_in_lives(s2, 0, a[j].unwrap());
    let j1 = choose|j1: int| 0 <= j1 < lives(s1).len() && lives(s1)[j1] == a[i].unwrap();
    let j2 = choose|j2: int| 0 <= j2 < lives(s2).len() && lives(s2)[j2] == a[j].unwrap();
    assert(lives(a)[j1] == a[i].unwrap());
    assert(lives(a)[lives(s1).len() + j2] == a[j].unwrap());
}

/// Filling a gap that has only gaps to its right appends the new pair to
/// the live sequence.
pub proof fn lemma_lives_update_tail(a: Seq<Option<(usize, u64)>>, i: int, x: (usize, u64))
    requires
        0 <= i < a.len(),
        a[i] is None,
        forall|q: int| i < q < a.len() ==> a[q] is None,
    ensures
        lives(a.update(i, Some(x))) == lives(a).push(x),
    decreases a.len(),
{
    let u = a.update(i, Some(x));
    if i == a.len() - 1 {
        assert(u.last() == Some(x));
        assert(u.drop_last() =~= a.drop_last());
        assert(a.last() is None);
        assert(lives(u) == lives(a.drop_last()).push(x));
        assert(lives(a) == lives(a.drop_last()));
    } else {
        assert(a.last() is None);
        assert(u.last() == a.last());
        assert(u.drop_last() =~= a.drop_last().update(i, Some(x)));
        lemma_lives_update_tail(a.drop_last(), i, x);
        assert(lives(u) == lives(u.drop_last()));
        assert(lives(a) == lives(a.drop_last()));
    }
}

/// A slot array of gaps only has no live pairs.
pub proof fn lemma_lives_all_none(a: Seq<Option<(usize, u64)>>)
    requires
        forall|q: int| 0 <= q < a.len() ==> a[q] is None,
    ensures
        lives(a) == Seq::<(usize, u64)>::empty(),
    decreases a.len(),
{
    if a.len() > 0 {
        lemma_lives_all_none(a.drop_last());
        assert(a.last() is None);
    }
}

/// Looking up the key of a pair of a strictly sorted sequence finds that
/// pair's value.
pub proof fn lemma_lookup_present(s: Seq<(usize, u64)>, j: int)
    requires
        sorted_strict(s),
        0 <= j < s.len(),
    ensures
        lookup(s, s[j].0) == Some(s[j].1),
    decreases s.len(),
{
    if j == s.len() - 1 {
    } else {
        assert(s[j].0 < s.last().0);
        assert(sorted_strict(s.drop_last()));
        assert(s.drop_last()[j] == s[j]);
        lemma_lookup_present(s.drop_last(), j);
    }
}

/// Looking up a key that occurs nowhere yields nothing.
pub proof fn lemma_lookup_absent(s: Seq<(usize, u64)>, k: usize)
    requires
        forall|j: int| 0 <= j < s.len() ==> (#[trigger] s[j]).0 != k,
    ensures
        lookup(s, k) is None,
    decreases s.len(),
{
    if s.len() > 0 {
        assert(s.drop_last()[s.len() - 2] == s[s.len() - 2] || s.len() == 1);
        assert(forall|j: int| 0 <= j < s.drop_last().len() ==> s.drop_last()[j] == s[j]);
        lemma_lookup_absent(s.drop_last(), k);
    }
}

/// Inserting between a lower and an upper part lands exactly in the
/// middle: this is what `map_set` does when the key is absent.
pub proof fn lemma_map_set_split(s1: Seq<(usize, u64)>, s2: Seq<(usize, u64)>, k: usize, v: u64)
    requires
        forall|i: int| 0 <= i < s1.len() ==> (#[trigger] s1[i]).0 < k,
        forall|i: int| 0 <= i < s2.len() ==> (#[trigger] s2[i]).0 > k,
    ensures
        map_set(s1 + s2, k, v) == s1 + seq![(k, v)] + s2,
    decreases s2.len(),
{
    let s = s1 + s2;
    if s2.len() == 0 {
        assert(s =~= s1);
        if s1.len() == 0 {
            assert(map_set(s, k, v) =~= s1 + seq![(k, v)] + s2);
        } else {
            assert(s.last().0 < k);
            assert(s.push((k, v)) =~= s1 + seq![(k, v)] + s2);
        }
    } else {
        assert(s.last() == s2.last());
        assert(s.last().0 > k);
        assert(s.drop_last() =~= s1 + s2.drop_last());
        lemma_map_set_split(s1, s2.drop_last(), k, v);
        assert((s1 + seq![(k, v)] + s2.drop_last()).push(s2.last()) =~= s1 + seq![(k, v)] + s2);
    }
}

/// Replacing the unique binding of `k` in the middle: this is what
/// `map_set` does when the key is present.
pub proof fn lemma_map_set_replace(
    s1: Seq<(usize, u64)>,
    s2: Seq<(usize, u64)>,
    k: usize,
    w: u64,
    v: u64,
)
    requires
        forall|i: int| 0 <= i < s1.len() ==> (#[trigger] s1[i]).0 < k,
        forall|i: int| 0 <= i < s2.len() ==> (#[trigger] s2[i]).0 > k,
    ensures
        map_set(s1 + seq![(k, w)] + s2, k, v) == s1 + seq![(k, v)] + s2,
    decreases s2.len(),
{
    let s = s1 + seq![(k, w)] + s2;
    if s2.len() == 0 {
        assert(s.last() == (k, w));
        assert(s.drop_last() =~= s1);
        assert(s.drop_last().push((k, v)) =~= s1 + seq![(k, v)] + s2);
    } else {
        assert(s.last() == s2.last());
        assert(s.last().0 > k);
        assert(s.drop_last() =~= s1 + seq![(k, w)] + s2.drop_last());
        lemma_map_set_replace(s1, s2.drop_last(), k, w, v);
        assert((s1 + seq![(k, v)] + s2.drop_last()).push(s2.last()) =~= s1 + seq![(k, v)] + s2);
    }
}

/// `map_set` keeps strict order, and adds no key beyond `k` and the keys
/// already present.
pub proof fn lemma_map_set_sorted(s: Seq<(usize, u64)>, k: usize, v: u64)
    requires
        sorted_strict(s),
    ensures
        sorted_strict(map_set(s, k, v)),
        forall|j: int|
            0 <= j < map_set(s, k, v).len() ==> (#[trigger] map_set(s, k, v)[j]).0 == k
                || exists|i: int| 0 <= i < s.len() && (#[trigger] s[i]) == map_set(s, k, v)[j],
    decreases s.len(),
{
    let ms = map_set(s, k, v);
    if s.len() == 0 {
    } else if s.last().0 < k {
        assert forall|j: int| 0 <= j < ms.len() implies (#[trigger] ms[j]).0 == k || exists|i: int|
            0 <= i < s.len() && (#[trigger] s[i]) == ms[j] by {
            if j < s.len() {
                assert(s[j] == ms[j]);
            }
        }
    } else if s.last().0 == k {
        assert(sorted_strict(s.drop_last()));
        assert forall|j: int| 0 <= j < ms.len() implies (#[trigger] ms[j]).0 == k || exists|i: int|
            0 <= i < s.len() && (#[trigger] s[i]) == ms[j] by {
            if j < s.len() - 1 {
                assert(s[j] == ms[j]);
            }
        }
        assert forall|i: int, j: int| 0 <= i < j < ms.len() implies (#[trigger] ms[i]).0 < (
        #[trigger] ms[j]).0 by {
            if j < s.len() - 1 {
                assert(ms[i] == s[i] && ms[j] == s[j]);
            } else {
                assert(ms[i] == s[i]);
                assert(s[i].0 < s.last().0);
            }
        }
    } else {
        assert(sorted_strict(s.drop_last()));
        lemma_map_set_sorted(s.drop_last(), k, v);
        let mr = map_set(s.drop_last(), k, v);
        assert forall|j: int| 0 <= j < ms.len() implies (#[trigger] ms[j]).0 == k || exists|i: int|
            0 <= i < s.len() && (#[trigger] s[i]) == ms[j] by {
            if j < mr.len() {
                assert(ms[j] == mr[j]);
                if mr[j].0 != k {
                    let i = choose|i: int|
                        0 <= i < s.drop_last().len() && s.drop_last()[i] == mr[j];
                    assert(s[i] == ms[j]);
                }
            } else {
                assert(ms[j] == s.last());
                assert(s[s.len() - 1] == ms[j]);
            }
        }
        assert forall|i: int, j: int| 0 <= i < j < ms.len() implies (#[trigger] ms[i]).0 < (
        #[trigger] ms[j]).0 by {
            if j < mr.len() {
                assert(ms[i] == mr[i] && ms[j] == mr[j]);
            } else {
                assert(ms[j] == s.last());
                assert(ms[i] == mr[i]);
                if mr[i].0 == k {
                    assert(k < s.last().0);
                } else {
                    let q = choose|q: int|
                        0 <= q < s.drop_last().len() && s.drop_last()[q] == mr[i];
                    assert(s[q] == mr[i]);
                    assert(s[q].0 < s.last().0);
                }
            }
        }
    }
}

/// What a lookup yields after `map_set`: the new value at the written
/// key, the old answer everywhere else.
pub proof fn lemma_lookup_map_set(s: Seq<(usize, u64)>, k: usize, v: u64, k2: usize)
    requires
        sorted_strict(s),
    ensures
        lookup(map_set(s, k, v), k2) == if k2 == k {
            Some(v)
        } else {
            lookup(s, k2)
        },
    decreases s.len(),
{
    let ms = map_set(s, k, v);
    if s.len() == 0 {
        if k2 != k {
            assert(lookup(ms, k2) == lookup(ms.drop_last(), k2));
            assert(ms.drop_last() =~= Seq::<(usize, u64)>::empty());
        }
    } else if s.last().0 < k {
        assert(ms == s.push((k, v)));
        assert(ms.last() == (k, v));
        assert(ms.drop_last() =~= s);
    } else if s.last().0 == k {
        assert(ms == s.drop_last().push((k, v)));
        assert(ms.last() == (k, v));
        assert(ms.drop_last() =~= s.drop_last());
        if k2 != k {
            assert(lookup(s, k2) == lookup(s.drop_last(), k2));
            assert(lookup(ms, k2) == lookup(ms.drop_last(), k2));
        }
    } else {
        assert(sorted_strict(s.drop_last()));
        lemma_lookup_map_set(s.drop_last(), k, v, k2);
        let mr = map_set(s.drop_last(), k, v);
        assert(ms == mr.push(s.last()));
        assert(ms.last() == s.last());
        assert(ms.drop_last() =~= mr);
        if k2 == s.last().0 {
            assert(lookup(ms, k2) == Some(s.last().1));
            assert(lookup(s, k2) == Some(s.last().1));
        } else {
            assert(lookup(ms, k2) == lookup(mr, k2));
            assert(lookup(s, k2) == lookup(s.drop_last(), k2));
        }
    }
}

/// The pair sequence of two parallel key/value sequences.
pub open spec fn zip_kv(ks: Seq<usize>, vs: Seq<u64>) -> Seq<(usize, u64)> {
    Seq::new(ks.len(), |i: int| (ks[i], vs[i]))
}

/// No key exceeds the greatest key.
pub proof fn lemma_max_key(s: Seq<(usize, u64)>)
    ensures
        forall|j: int| 0 <= j < s.len() ==> (#[trigger] s[j]).0 <= max_key(s),
    decreases s.len(),
{
    if s.len() > 0 {
        lemma_max_key(s.drop_last());
        assert forall|j: int| 0 <= j < s.len() implies (#[trigger] s[j]).0 <= max_key(s) by {
            if j < s.len() - 1 {
                assert(s.drop_last()[j] == s[j]);
            }
        }
    }
}

} // verus!
