//! The packed memory array: a sorted array interleaved with gaps.
//!
//! Live pairs stay strictly ascending by key. An insertion places the new
//! pair next to its sorted position, shifting at most up to the nearest
//! gap, and then rebalances the smallest enclosing canonical window whose
//! density lies within its per-level bounds; when no window qualifies the
//! whole array grows (or, when far too sparse, shrinks) by a factor of two.
//!
//! Density is a rebalancing criterion, not a state invariant: a nearly
//! empty array sits below every lower bound and a freshly bulk-loaded one
//! above every upper bound. What the rebalancing walk does about density
//! is therefore pinned by the contracts of `look_for_rebalance`,
//! `find_window` and `spread_window`, while the state invariant `wf`
//! carries the order and capacity-shape guarantees.

use vstd::prelude::*;
use vstd::pervasive::unreached;
use vstd::arithmetic::power2::{
    pow2, lemma_pow2_pos, lemma_pow2_unfold, lemma_pow2_adds, lemma_pow2_strictly_increases,
    lemma2_to64, lemma2_to64_rest,
};
use vstd::arithmetic::div_mod::{lemma_fundamental_div_mod, lemma_remainder};
use crate::model::{
    lives, sorted_strict, lookup, map_set, live_below, live_above, slot_below, slot_above,
    lemma_lives_len, lemma_lives_concat, lemma_slot_in_lives, lemma_lives_member,
    lemma_slots_ordered, lemma_lives_update_tail, lemma_lives_all_none, lemma_lookup_present,
    lemma_lookup_absent, lemma_map_set_split, lemma_map_set_replace, lemma_map_set_sorted,
};

verus! {

/// Largest backing capacity the structure will grow to: beyond it a full
/// array reports `CapacityExhausted` instead of extending.
pub const MAX_CAPACITY: u64 = 0x1_0000_0000_0000;

/// The recoverable failures of this crate.
#[derive(Clone, Copy, Debug, PartialEq, Eq, Structural)]
pub enum Error {
    /// Construction input was rejected: mismatched key/value lengths, or
    /// an unsorted bulk load where sorted input is the caller's contract.
    InvalidInput,
    /// The array is full and may not grow any further.
    CapacityExhausted,
}

/// One slot: a gap, or exactly one key-value pair.
pub type Slot = Option<(usize, u64)>;

/// Strictly ascending keys with no duplicates.
pub open spec fn keys_sorted(ks: Seq<usize>) -> bool {
    forall|i: int, j: int| 0 <= i < j < ks.len() ==> #[trigger] ks[i] < #[trigger] ks[j]
}

pub struct PackedMemoryArray {
    /// Total slot count; always `nb_segments * segment_capacity`.
    pub capacity: usize,
    /// Slots per leaf segment of the implicit window tree.
    pub segment_capacity: usize,
    /// Number of leaf segments; always a power of two.
    pub nb_segments: usize,
    /// Count of occupied slots.
    pub nb_elements: usize,
    /// Levels of the window tree: `nb_segments == 2^height`.
    pub height: usize,
    /// Density upper bound at the root, in hundredths.
    pub t_h: usize,
    /// Density upper bound at a leaf segment, in hundredths.
    pub t_0: usize,
    /// Density lower bound at the root, in hundredths.
    pub p_h: usize,
    /// Density lower bound at a leaf segment, in hundredths.
    pub p_0: usize,
    /// The slots.
    pub array: Vec<Slot>,
}

impl View for PackedMemoryArray {
    type V = Seq<(usize, u64)>;

    /// A packed memory array denotes its live pairs, read left to right.
    open spec fn view(&self) -> Seq<(usize, u64)> {
        lives(self.array@)
    }
}

impl PackedMemoryArray {
    /// The threshold pairs are sane percentages: lower bounds below upper
    /// bounds, and the root lower bound small enough that a too-sparse
    /// array always fits into half its capacity.
    pub open spec fn thresholds_ok(&self) -> bool {
        &&& self.p_h <= self.p_0
        &&& self.p_0 < self.t_0
        &&& self.t_0 <= self.t_h
        &&& self.t_h <= 100
        &&& self.p_h <= 50
    }

    /// Structural well-formedness: the capacity bookkeeping agrees with
    /// the backing array and the live-element count.
    pub open spec fn wf_shape(&self) -> bool {
        &&& self.array@.len() == self.capacity
        &&& self.capacity == self.nb_segments * self.segment_capacity
        &&& self.nb_segments == pow2(self.height as nat)
        &&& self.segment_capacity >= 1
        &&& self.capacity >= 1
        &&& self.capacity as int <= MAX_CAPACITY as int
        &&& self.nb_elements == lives(self.array@).len()
        &&& self.thresholds_ok()
    }

    /// The order invariant: live pairs are strictly ascending by key.
    pub open spec fn ordered(&self) -> bool {
        sorted_strict(lives(self.array@))
    }

    pub open spec fn wf(&self) -> bool {
        self.wf_shape() && self.ordered()
    }

    /// The size of a canonical window at level `l`: segment size times
    /// two to the level.
    pub open spec fn win_size(&self, l: int) -> int {
        (self.segment_capacity * pow2(l as nat)) as int
    }

    /// The start of the canonical window of level `l` around `pos`:
    /// aligned to a multiple of its size.
    pub open spec fn win_start(&self, pos: int, l: int) -> int {
        (pos / self.win_size(l)) * self.win_size(l)
    }

    /// The common denominator of the level-interpolated thresholds: the
    /// height, or one for a single-segment array.
    pub open spec fn level_den(&self) -> int {
        if self.height == 0 {
            1int
        } else {
            self.height as int
        }
    }

    /// The lower density bound of level `l`, in hundredths scaled by the
    /// height: interpolated from the tight leaf bound down to the loose
    /// root bound.
    pub open spec fn level_lo(&self, l: int) -> int {
        if self.height == 0 {
            self.p_h as int
        } else {
            self.p_0 * self.height - (self.p_0 - self.p_h) * l
        }
    }

    /// The upper density bound of level `l`, likewise interpolated.
    pub open spec fn level_hi(&self, l: int) -> int {
        if self.height == 0 {
            self.t_h as int
        } else {
            self.t_0 * self.height + (self.t_h - self.t_0) * l
        }
    }

    /// The canonical window of level `l` around `pos` has a density
    /// within its level's bounds: `p_l <= live/size <= t_l`, compared in
    /// scaled integers.
    pub open spec fn window_ok(&self, pos: int, l: int) -> bool {
        let ws = self.win_start(pos, l);
        let size = self.win_size(l);
        let live = lives(self.array@.subrange(ws, ws + size)).len() as int;
        self.level_lo(l) * size <= 100 * live * self.level_den() && 100 * live * self.level_den()
            <= self.level_hi(l) * size
    }

    /// The whole array is too full: root density above the root's upper
    /// bound.
    pub open spec fn over_dense(&self) -> bool {
        100 * lives(self.array@).len() > self.t_h * self.capacity
    }

    /// The whole array is too sparse: root density below the root's lower
    /// bound.
    pub open spec fn under_dense(&self) -> bool {
        100 * lives(self.array@).len() < self.p_h * self.capacity
    }

    /// Doubling the capacity stays within the machine's and the
    /// structure's limits.
    pub open spec fn can_grow(&self) -> bool {
        2 * self.capacity as int <= MAX_CAPACITY as int && 2 * self.capacity as int
            <= usize::MAX as int
    }

    proof fn lemma_height_bound(&self)
        requires
            self.wf_shape(),
        ensures
            self.height <= 48,
            self.nb_segments <= self.capacity,
    {
        lemma_shape_bounds(
            self.nb_segments,
            self.segment_capacity,
            self.capacity,
            self.height,
        );
    }

    /// An all-gap array of at least the requested capacity (rounded up so
    /// that a power-of-two segment count divides it exactly), with the
    /// given density thresholds in hundredths.
    pub fn new(capacity: usize, t_h: usize, t_0: usize, p_h: usize, p_0: usize) -> (r:
        PackedMemoryArray)
        requires
            1 <= capacity,
            capacity as int <= MAX_CAPACITY as int / 2,
            capacity <= usize::MAX / 2,
            p_h <= p_0,
            p_0 < t_0,
            t_0 <= t_h,
            t_h <= 100,
            p_h <= 50,
        ensures
            r.wf(),
            r@ == Seq::<(usize, u64)>::empty(),
            r.nb_elements == 0,
            capacity <= r.capacity,
            r.t_h == t_h && r.t_0 == t_0 && r.p_h == p_h && r.p_0 == p_0,
    {
        // Round the requested capacity up to a power of two.
        let mut cap2: usize = 1;
        let mut b: usize = 0;
        proof {
            lemma2_to64();
        }
        while cap2 < capacity
            invariant
                cap2 == pow2(b as nat),
                cap2 >= 1,
                b <= 48,
                cap2 as int <= 2 * capacity,
                capacity <= usize::MAX / 2,
                capacity as int <= MAX_CAPACITY as int / 2,
            decreases 2 * capacity - cap2,
        {
            proof {
                lemma_pow2_unfold((b + 1) as nat);
                lemma2_to64_rest();
                lemma_pow2_bound(b as nat, 47);
            }
            cap2 = cap2 * 2;
            b = b + 1;
        }
        proof {
            lemma2_to64_rest();
            lemma_pow2_bound(b as nat, 49);
        }
        // The segment size: the smallest power of two at least the
        // logarithm of the capacity.
        let mut seg: usize = 1;
        let mut sl: usize = 0;
        while seg < b
            invariant
                seg == pow2(sl as nat),
                seg >= 1,
                sl <= b <= 49,
                seg <= 98,
            decreases 100 - seg,
        {
            proof {
                lemma_pow2_unfold((sl + 1) as nat);
                lemma_pow2_gt(sl as nat);
            }
            seg = seg * 2;
            sl = sl + 1;
        }
        let height = b - sl;
        let mut nb: usize = 1;
        let mut t: usize = 0;
        proof {
            lemma2_to64();
        }
        while t < height
            invariant
                t <= height,
                nb == pow2(t as nat),
                height == b - sl,
                sl <= b <= 49,
                cap2 == pow2(b as nat),
                cap2 as int <= 2 * capacity,
                capacity <= usize::MAX / 2,
            decreases height - t,
        {
            proof {
                lemma_pow2_unfold((t + 1) as nat);
                if (t + 1) < b {
                    lemma_pow2_strictly_increases((t + 1) as nat, b as nat);
                }
            }
            nb = nb * 2;
            t = t + 1;
        }
        proof {
            lemma_pow2_adds((b - sl) as nat, sl as nat);
        }
        let total = nb * seg;
        let mut array: Vec<Slot> = Vec::new();
        let mut i: usize = 0;
        while i < total
            invariant
                array@.len() == i,
                i <= total,
                forall|q: int| 0 <= q < i ==> array@[q] is None,
            decreases total - i,
        {
            array.push(None);
            i = i + 1;
        }
        proof {
            lemma_lives_all_none(array@);
        }
        PackedMemoryArray {
            capacity: total,
            segment_capacity: seg,
            nb_segments: nb,
            nb_elements: 0,
            height,
            t_h,
            t_0,
            p_h,
            p_0,
            array,
        }
    }

    /// A fully dense array bulk-loaded from pre-paired data: one segment,
    /// no gaps, with the default thresholds.
    pub(crate) fn load_pairs(pairs: Vec<(usize, u64)>) -> (r: PackedMemoryArray)
        requires
            pairs@.len() as int <= MAX_CAPACITY as int,
        ensures
            r.wf_shape(),
            r@ == pairs@,
            sorted_strict(pairs@) ==> r.wf(),
            r.nb_elements == pairs@.len(),
            r.t_h == 92 && r.t_0 == 70 && r.p_h == 8 && r.p_0 == 30,
    {
        let n = pairs.len();
        let mut array: Vec<Slot> = Vec::new();
        let mut i: usize = 0;
        while i < n
            invariant
                i <= n,
                n == pairs@.len(),
                array@.len() == i,
                lives(array@) == pairs@.take(i as int),
            decreases n - i,
        {
            let p = pairs[i];
            proof {
                assert(array@.push(Some(p)).drop_last() =~= array@);
                assert(pairs@.take(i as int).push(p) =~= pairs@.take(i as int + 1));
            }
            array.push(Some(p));
            i = i + 1;
        }
        if n == 0 {
            array.push(None);
        }
        proof {
            assert(pairs@.take(n as int) =~= pairs@);
            if n == 0 {
                lemma_lives_all_none(array@);
                assert(pairs@ =~= Seq::<(usize, u64)>::empty());
            }
            lemma2_to64();
        }
        let capacity = array.len();
        PackedMemoryArray {
            capacity,
            segment_capacity: capacity,
            nb_segments: 1,
            nb_elements: n,
            height: 0,
            t_h: 92,
            t_0: 70,
            p_h: 8,
            p_0: 30,
            array,
        }
    }

    /// A fully dense array bulk-loaded from strictly ascending keys and
    /// their values; mismatched lengths or out-of-order keys are rejected
    /// as invalid input.
    pub fn from_vecs(keys: Vec<usize>, values: Vec<u64>) -> (r: Result<PackedMemoryArray, Error>)
        requires
            keys@.len() as int <= MAX_CAPACITY as int,
        ensures
            match r {
                Ok(p) => {
                    &&& keys@.len() == values@.len()
                    &&& keys_sorted(keys@)
                    &&& p.wf()
                    &&& p@.len() == keys@.len()
                    &&& forall|j: int| 0 <= j < keys@.len() ==> p@[j] == (keys@[j], values@[j])
                },
                Err(e) => {
                    &&& e == Error::InvalidInput
                    &&& !(keys@.len() == values@.len() && keys_sorted(keys@))
                },
            },
    {
        if keys.len() != values.len() {
            return Err(Error::InvalidInput);
        }
        let n = keys.len();
        let mut i: usize = 1;
        while i < n
            invariant
                1 <= i || n == 0,
                i <= n || n == 0,
                n == keys@.len(),
                forall|p: int, q: int| 0 <= p < q < i ==> #[trigger] keys@[p] < #[trigger] keys@[q],
            decreases n - i,
        {
            if keys[i - 1] >= keys[i] {
                return Err(Error::InvalidInput);
            }
            i = i + 1;
        }
        let mut pairs: Vec<(usize, u64)> = Vec::new();
        let mut j: usize = 0;
        while j < n
            invariant
                j <= n,
                n == keys@.len() == values@.len(),
                pairs@.len() == j,
                forall|q: int| 0 <= q < j ==> pairs@[q] == (keys@[q], values@[q]),
            decreases n - j,
        {
            pairs.push((keys[j], values[j]));
            j = j + 1;
        }
        proof {
            assert(sorted_strict(pairs@));
        }
        Ok(PackedMemoryArray::load_pairs(pairs))
    }

    /// The count of live pairs.
    pub fn nnz(&self) -> (r: usize)
        requires
            self.wf_shape(),
        ensures
            r == self@.len(),
    {
        self.nb_elements
    }

    /// All live pairs in left-to-right order. A fresh call re-scans the
    /// array from the start.
    pub fn iter(&self) -> (r: Vec<(usize, u64)>)
        ensures
            r@ == self@,
    {
        let r = collect_live(&self.array, 0, self.array.len());
        proof {
            assert(self.array@.subrange(0, self.array@.len() as int) =~= self.array@);
        }
        r
    }

    /// The value stored at `key`, if any.
    pub fn get(&self, key: usize) -> (r: Option<u64>)
        requires
            self.wf(),
        ensures
            r == lookup(self@, key),
    {
        match search_slots(&self.array, key) {
            SearchResult::Found(pos) => {
                let slot = self.array[pos];
                match slot {
                    Some(p) => {
                        proof {
                            lemma_slot_in_lives(self.array@, pos as int, p);
                            let j = choose|j: int| 0 <= j < self@.len() && self@[j] == p;
                            lemma_lookup_present(self@, j);
                        }
                        Some(p.1)
                    },
                    None => unreached(),
                }
            },
            SearchResult::Absent(_) => {
                proof {
                    self.lemma_absent_no_key(key);
                }
                None
            },
        }
    }

    /// When every live slot holds a key away from `key`, the lookup is
    /// empty.
    proof fn lemma_absent_no_key(&self, key: usize)
        requires
            forall|i: int|
                0 <= i < self.array@.len() ==> slot_below(#[trigger] self.array@[i], key)
                    || slot_above(#[trigger] self.array@[i], key),
        ensures
            lookup(self@, key) is None,
    {
        lemma_lives_member(self.array@);
        assert forall|j: int| 0 <= j < self@.len() implies (#[trigger] self@[j]).0 != key by {
            let i = choose|i: int|
                0 <= i < self.array@.len() && self.array@[i] == Some(self@[j]);
            assert(slot_below(self.array@[i], key) || slot_above(self.array@[i], key));
        }
        lemma_lookup_absent(self@, key);
    }

    /// Whether `key` is present.
    pub fn contains_key(&self, key: usize) -> (r: bool)
        requires
            self.wf(),
        ensures
            r == (lookup(self@, key) is Some),
    {
        self.get(key).is_some()
    }

    /// Insert or update the binding of `key`. Fails only when a new key
    /// arrives while the array is full and already at its largest
    /// capacity; the array is then left unchanged.
    #[verifier::rlimit(100)]
    pub fn set(&mut self, key: usize, value: u64) -> (r: Result<(), Error>)
        requires
            old(self).wf(),
        ensures
            final(self).wf(),
            final(self).segment_capacity == old(self).segment_capacity,
            final(self).t_h == old(self).t_h && final(self).t_0 == old(self).t_0
                && final(self).p_h == old(self).p_h && final(self).p_0 == old(self).p_0,
            // Capacity only ever changes by whole doublings (at most two:
            // one to make room, one from rebalancing) or one halving.
            final(self).capacity == old(self).capacity
                || final(self).capacity == 2 * old(self).capacity
                || final(self).capacity == 4 * old(self).capacity
                || final(self).capacity == old(self).capacity / 2,
            match r {
                Ok(()) => final(self)@ == map_set(old(self)@, key, value),
                Err(e) => {
                    &&& e == Error::CapacityExhausted
                    &&& *final(self) == *old(self)
                    &&& lookup(old(self)@, key) is None
                    &&& old(self).nb_elements == old(self).capacity
                    &&& (2 * old(self).capacity as int > MAX_CAPACITY as int || 2 * old(
                        self,
                    ).capacity as int > usize::MAX as int)
                },
            },
    {
        let ghost o = self@;
        match search_slots(&self.array, key) {
            SearchResult::Found(pos) => {
                let slot = self.array[pos];
                match slot {
                    Some(p) => {
                        self.array[pos] = Some((key, value));
                        proof {
                            lemma_overwrite(old(self).array@, self.array@, pos as int, p, value);
                        }
                        Ok(())
                    },
                    None => unreached(),
                }
            },
            SearchResult::Absent(ip) => {
                match find_gap(&self.array, ip) {
                    Some(gp) => {
                        insert_pair(&mut self.array, ip, gp, key, value);
                        proof {
                            lemma_lives_len(self.array@);
                        }
                        self.nb_elements = self.nb_elements + 1;
                        self.look_for_rebalance(ip);
                        Ok(())
                    },
                    None => {
                        if self.nb_elements == self.capacity {
                            if self.capacity as u64 > MAX_CAPACITY / 2 || self.capacity
                                > usize::MAX / 2 {
                                proof {
                                    self.lemma_absent_no_key(key);
                                }
                                return Err(Error::CapacityExhausted);
                            }
                            self.extend();
                        }
                        let cap = self.capacity;
                        let live = self.nb_elements;
                        proof {
                            assert(self.array@.subrange(0, cap as int) =~= self.array@);
                        }
                        pack_window(&mut self.array, 0, cap);
                        proof {
                            assert(self.array@.subrange(0, cap as int) =~= self.array@);
                            assert(old(self).array@.subrange(
                                0,
                                old(self).array@.len() as int,
                            ) =~= old(self).array@);
                        }
                        spread_window(&mut self.array, 0, cap, live);
                        proof {
                            assert(self.array@.subrange(0, cap as int) =~= self.array@);
                            assert(self@ == o);
                        }
                        let ip2 = match search_slots(&self.array, key) {
                            SearchResult::Absent(i) => i,
                            SearchResult::Found(pos) => {
                                proof {
                                    let p = self.array@[pos as int].unwrap();
                                    lemma_slot_in_lives(self.array@, pos as int, p);
                                    let j = choose|j: int|
                                        0 <= j < self@.len() && self@[j] == p;
                                    lemma_lives_member(old(self).array@);
                                    let i = choose|i: int|
                                        0 <= i < old(self).array@.len() && old(self).array@[i]
                                            == Some(o[j]);
                                    assert(slot_below(old(self).array@[i], key) || slot_above(
                                        old(self).array@[i],
                                        key,
                                    ));
                                }
                                unreached()
                            },
                        };
                        // The last slot is now free, so a gap at or after
                        // the insertion point exists.
                        let gp = match find_gap(&self.array, ip2) {
                            Some(g) => g,
                            None => {
                                proof {
                                    lemma_lives_len(self.array@);
                                    assert(live < cap);
                                    assert(self.array@[cap - 1] is None);
                                    if ip2 < cap {
                                        assert(self.array@[cap - 1] is Some);
                                    }
                                }
                                unreached()
                            },
                        };
                        insert_pair(&mut self.array, ip2, gp, key, value);
                        proof {
                            lemma_lives_len(self.array@);
                        }
                        self.nb_elements = self.nb_elements + 1;
                        self.look_for_rebalance(ip2);
                        Ok(())
                    },
                }
            },
        }
    }

    /// Double the capacity, appending gaps on the right; the live pairs
    /// do not move.
    fn extend(&mut self)
        requires
            old(self).wf_shape(),
            2 * old(self).capacity as int <= MAX_CAPACITY as int,
            2 * old(self).capacity as int <= usize::MAX as int,
        ensures
            final(self).wf_shape(),
            final(self)@ == old(self)@,
            final(self).capacity == 2 * old(self).capacity,
            final(self).segment_capacity == old(self).segment_capacity,
            final(self).nb_elements == old(self).nb_elements,
            final(self).t_h == old(self).t_h && final(self).t_0 == old(self).t_0 && final(self).p_h == old(self).p_h && final(self).p_0 == old(self).p_0,
            forall|q: int|
                0 <= q < old(self).capacity ==> final(self).array@[q] == old(self).array@[q],
            forall|q: int|
                old(self).capacity <= q < final(self).capacity ==> final(self).array@[q] is None,
    {
        let ghost o = self.array@;
        proof {
            lemma_shape_bounds(
                self.nb_segments,
                self.segment_capacity,
                self.capacity,
                self.height,
            );
        }
        let target = 2 * self.capacity;
        let mut i = self.capacity;
        while i < target
            invariant
                self.array@.len() == i,
                old(self).capacity <= i <= target,
                self.array@.subrange(0, o.len() as int) == o,
                o.len() == old(self).capacity,
                o == old(self).array@,
                target == 2 * old(self).capacity,
                target <= usize::MAX,
                forall|q: int| o.len() <= q < i ==> self.array@[q] is None,
                self.capacity == old(self).capacity,
                self.nb_elements == old(self).nb_elements,
                self.segment_capacity == old(self).segment_capacity,
                self.nb_segments == old(self).nb_segments,
                self.height == old(self).height,
                self.t_h == old(self).t_h && self.t_0 == old(self).t_0 && self.p_h == old(
                    self,
                ).p_h && self.p_0 == old(self).p_0,
            decreases target - i,
        {
            self.array.push(None);
            proof {
                assert(self.array@.subrange(0, o.len() as int) =~= o);
            }
            i = i + 1;
        }
        proof {
            lemma_shape_bounds(
                old(self).nb_segments,
                old(self).segment_capacity,
                old(self).capacity,
                old(self).height,
            );
        }
        self.capacity = target;
        self.nb_segments = 2 * self.nb_segments;
        self.height = self.height + 1;
        proof {
            let pad = self.array@.subrange(o.len() as int, self.array@.len() as int);
            assert(self.array@ =~= o + pad);
            lemma_lives_concat(o, pad);
            lemma_lives_all_none(pad);
            assert(lives(self.array@) =~= lives(o));
            lemma_pow2_unfold(self.height as nat);
            let ghost ons = old(self).nb_segments as int;
            let ghost osc = old(self).segment_capacity as int;
            assert(2 * (ons * osc) == (2 * ons) * osc) by (nonlinear_arith);
        }
    }

    /// Halve the capacity; the dropped upper half must hold gaps only.
    fn shrink(&mut self)
        requires
            old(self).wf_shape(),
            old(self).height >= 1,
            forall|q: int|
                old(self).capacity / 2 <= q < old(self).capacity ==> old(self).array@[q] is None,
        ensures
            final(self).wf_shape(),
            final(self)@ == old(self)@,
            final(self).capacity == old(self).capacity / 2,
            final(self).segment_capacity == old(self).segment_capacity,
            final(self).nb_elements == old(self).nb_elements,
            final(self).t_h == old(self).t_h && final(self).t_0 == old(self).t_0 && final(self).p_h == old(self).p_h && final(self).p_0 == old(self).p_0,
            forall|q: int|
                0 <= q < final(self).capacity ==> final(self).array@[q] == old(self).array@[q],
    {
        proof {
            lemma_pow2_unfold(self.height as nat);
            lemma_pow2_pos((self.height - 1) as nat);
            assert((2 * pow2((self.height - 1) as nat)) * self.segment_capacity == 2 * (pow2(
                (self.height - 1) as nat,
            ) * self.segment_capacity)) by (nonlinear_arith);
            assert(pow2((self.height - 1) as nat) * self.segment_capacity >= 1)
                by (nonlinear_arith)
                requires
                    pow2((self.height - 1) as nat) >= 1,
                    self.segment_capacity >= 1,
            ;
        }
        let half = self.capacity / 2;
        let ghost o = self.array@;
        self.array.truncate(half);
        self.capacity = half;
        self.nb_segments = self.nb_segments / 2;
        self.height = self.height - 1;
        proof {
            let dropped = o.subrange(half as int, o.len() as int);
            assert(o =~= self.array@ + dropped);
            lemma_lives_concat(self.array@, dropped);
            lemma_lives_all_none(dropped);
            assert(lives(o) =~= lives(self.array@));
        }
    }

    /// Walk the canonical windows around `pos` from the leaf level up; at
    /// the first window whose density lies within its level's bounds,
    /// pack and spread exactly that window and stop. When no window up to
    /// the root qualifies, grow a too-full array or shrink a too-sparse
    /// one, evening the whole array out either way.
    fn look_for_rebalance(&mut self, pos: usize)
        requires
            old(self).wf(),
            pos < old(self).capacity,
        ensures
            final(self).wf(),
            final(self)@ == old(self)@,
            final(self).nb_elements == old(self).nb_elements,
            final(self).segment_capacity == old(self).segment_capacity,
            final(self).t_h == old(self).t_h && final(self).t_0 == old(self).t_0 && final(self).p_h == old(self).p_h && final(self).p_0 == old(self).p_0,
            final(self).capacity == old(self).capacity
                || final(self).capacity == 2 * old(self).capacity
                || final(self).capacity == old(self).capacity / 2,
            // The lowest window around `pos` whose density lies within its
            // level's bounds is evened out in place, and nothing resizes.
            forall|l: int|
                0 <= l <= old(self).height && #[trigger] old(self).window_ok(pos as int, l) && (
                forall|l2: int| 0 <= l2 < l ==> !(#[trigger] old(self).window_ok(pos as int, l2)))
                    ==> {
                    &&& final(self).capacity == old(self).capacity
                    &&& final(self).height == old(self).height
                    &&& (old(self).win_size(l) > old(self).segment_capacity ==> evenly_spread(
                        final(self).array@,
                        old(self).win_start(pos as int, l),
                        old(self).win_start(pos as int, l) + old(self).win_size(l),
                    ))
                },
            // No window qualifies: a too-full array doubles and is evened
            // out globally; a too-sparse one halves likewise; otherwise
            // the slots stay as they are.
            (forall|l: int|
                0 <= l <= old(self).height ==> !(#[trigger] old(self).window_ok(pos as int, l)))
                ==> {
                &&& (old(self).over_dense() && old(self).can_grow() ==> final(self).capacity == 2
                    * old(self).capacity && evenly_spread(
                    final(self).array@,
                    0,
                    final(self).capacity as int,
                ))
                &&& (old(self).over_dense() && !old(self).can_grow() ==> final(self).array@
                    == old(self).array@ && final(self).capacity == old(self).capacity)
                &&& (!old(self).over_dense() && old(self).under_dense() && old(self).height > 1
                    ==> final(self).capacity == old(self).capacity / 2 && evenly_spread(
                    final(self).array@,
                    0,
                    final(self).capacity as int,
                ))
                &&& (!old(self).over_dense() && !(old(self).under_dense() && old(self).height > 1)
                    ==> final(self).array@ == old(self).array@ && final(self).capacity == old(
                    self,
                ).capacity)
            },
    {
        match self.find_window(pos) {
            Some((ws, wcap, lvl)) => {
                proof {
                    assert forall|l: int|
                        0 <= l <= old(self).height && old(self).window_ok(pos as int, l) && (
                        forall|l2: int|
                            0 <= l2 < l ==> !(#[trigger] old(self).window_ok(
                                pos as int,
                                l2,
                            ))) implies l == lvl as int by {
                        if l < lvl as int {
                            assert(!old(self).window_ok(pos as int, l));
                        } else if l > lvl as int {
                            assert(!old(self).window_ok(pos as int, lvl as int));
                        }
                    }
                }
                if wcap > self.segment_capacity {
                    let live = count_live(&self.array, ws, ws + wcap);
                    pack_window(&mut self.array, ws, ws + wcap);
                    spread_window(&mut self.array, ws, ws + wcap, live);
                }
            },
            None => {
                // No window qualified: decide at the root by total
                // density.
                let cap = self.capacity;
                let live = self.nb_elements;
                proof {
                    lemma_lives_len(self.array@);
                    assert(100 * (live as u64) <= 100 * 0x1_0000_0000_0000u64)
                        by (nonlinear_arith)
                        requires
                            (live as u64) <= 0x1_0000_0000_0000u64,
                    ;
                    assert((self.t_h as u64) * (cap as u64) <= 100 * 0x1_0000_0000_0000u64)
                        by (nonlinear_arith)
                        requires
                            (self.t_h as u64) <= 100,
                            (cap as u64) <= 0x1_0000_0000_0000u64,
                    ;
                    assert((self.p_h as u64) * (cap as u64) <= 100 * 0x1_0000_0000_0000u64)
                        by (nonlinear_arith)
                        requires
                            (self.p_h as u64) <= 100,
                            (cap as u64) <= 0x1_0000_0000_0000u64,
                    ;
                }
                if 100 * (live as u64) > (self.t_h as u64) * (cap as u64) {
                    if 2 * (cap as u64) <= MAX_CAPACITY && cap <= usize::MAX / 2 {
                        self.extend();
                        let cap2 = self.capacity;
                        proof {
                            assert(self.array@.subrange(0, cap2 as int) =~= self.array@);
                        }
                        pack_window(&mut self.array, 0, cap2);
                        proof {
                            assert(self.array@.subrange(0, cap2 as int) =~= self.array@);
                        }
                        spread_window(&mut self.array, 0, cap2, live);
                        proof {
                            assert(self.array@.subrange(0, cap2 as int) =~= self.array@);
                        }
                    }
                } else if 100 * (live as u64) < (self.p_h as u64) * (cap as u64) && self.height
                    > 1 {
                    proof {
                        assert(self.array@.subrange(0, cap as int) =~= self.array@);
                    }
                    pack_window(&mut self.array, 0, cap);
                    proof {
                        assert(self.array@.subrange(0, cap as int) =~= self.array@);
                        let ghost ph = self.p_h as int;
                        assert(100 * (live as int) < 50 * (cap as int)) by (nonlinear_arith)
                            requires
                                100 * (live as int) < ph * (cap as int),
                                ph <= 50,
                                cap >= 0,
                        ;
                    }
                    self.shrink();
                    let cap2 = self.capacity;
                    proof {
                        assert(self.array@.subrange(0, cap2 as int) =~= self.array@);
                    }
                    spread_window(&mut self.array, 0, cap2, live);
                    proof {
                        assert(self.array@.subrange(0, cap2 as int) =~= self.array@);
                    }
                }
            },
        }
    }

    /// The lowest canonical window around `pos` whose density lies within
    /// its level's bounds, as `(start, size, level)`; nothing exactly when
    /// no level up to the root qualifies.
    fn find_window(&self, pos: usize) -> (r: Option<(usize, usize, usize)>)
        requires
            self.wf_shape(),
            pos < self.capacity,
        ensures
            match r {
                Some(w) => {
                    &&& w.2 <= self.height
                    &&& w.0 as int == self.win_start(pos as int, w.2 as int)
                    &&& w.1 as int == self.win_size(w.2 as int)
                    &&& w.0 + w.1 <= self.capacity
                    &&& self.segment_capacity <= w.1
                    &&& self.window_ok(pos as int, w.2 as int)
                    &&& forall|l2: int| 0 <= l2 < w.2 ==> !(#[trigger] self.window_ok(
                        pos as int,
                        l2,
                    ))
                },
                None => forall|l2: int|
                    0 <= l2 <= self.height ==> !(#[trigger] self.window_ok(pos as int, l2)),
            },
    {
        proof {
            self.lemma_height_bound();
        }
        let mut l: usize = 0;
        let mut wcap: usize = self.segment_capacity;
        proof {
            lemma2_to64();
            lemma_mul_one_right(self.segment_capacity as int);
            assert(self.nb_segments * self.segment_capacity == self.segment_capacity
                * self.nb_segments) by (nonlinear_arith);
        }
        loop
            invariant
                self.wf_shape(),
                pos < self.capacity,
                l <= self.height,
                self.height <= 48,
                wcap == self.segment_capacity * pow2(l as nat),
                self.capacity == wcap * pow2((self.height - l) as nat),
                forall|l2: int| 0 <= l2 < l ==> !(#[trigger] self.window_ok(pos as int, l2)),
            decreases self.height - l,
        {
            proof {
                lemma_pow2_pos(l as nat);
                lemma_pow2_pos((self.height - l) as nat);
                assert(wcap >= 1) by (nonlinear_arith)
                    requires
                        wcap == self.segment_capacity * pow2(l as nat),
                        self.segment_capacity >= 1,
                        pow2(l as nat) >= 1,
                ;
                assert(wcap <= self.capacity) by (nonlinear_arith)
                    requires
                        self.capacity == wcap * pow2((self.height - l) as nat),
                        pow2((self.height - l) as nat) >= 1,
                        wcap >= 1,
                ;
            }
            proof {
                let n = pow2((self.height - l) as nat) as int;
                let q = pos as int / wcap as int;
                lemma_fundamental_div_mod(pos as int, wcap as int);
                lemma_remainder(pos as int, wcap as int);
                assert(q >= 0 && q * wcap <= pos) by (nonlinear_arith)
                    requires
                        pos == wcap * q + (pos as int % wcap as int),
                        0 <= (pos as int % wcap as int) < wcap,
                        wcap >= 1,
                        pos >= 0,
                ;
                assert(q < n) by (nonlinear_arith)
                    requires
                        q * wcap <= pos,
                        pos < wcap * n,
                        wcap >= 1,
                        q >= 0,
                ;
                assert((q + 1) * wcap <= n * wcap) by (nonlinear_arith)
                    requires
                        q + 1 <= n,
                        wcap >= 1,
                ;
                assert((q + 1) * wcap == q * wcap + wcap) by (nonlinear_arith);
                assert(n * wcap == wcap * n) by (nonlinear_arith);
            }
            let ws = (pos / wcap) * wcap;
            proof {
                assert(ws + wcap <= self.capacity);
            }
            let live = count_live(&self.array, ws, ws + wcap);
            proof {
                lemma_lives_len(self.array@.subrange(ws as int, (ws + wcap) as int));
                assert(live <= wcap);
            }
            let den: u64 = if self.height == 0 {
                1
            } else {
                self.height as u64
            };
            let (p_s, t_s): (u64, u64) = if self.height == 0 {
                (self.p_h as u64, self.t_h as u64)
            } else {
                proof {
                    assert(((self.p_0 - self.p_h) as u64) * (l as u64) <= ((self.p_0 - self.p_h)
                        as u64) * den) by (nonlinear_arith)
                        requires
                            0 <= (l as u64) <= den,
                    ;
                    assert(((self.p_0 - self.p_h) as u64) * den <= (self.p_0 as u64) * den)
                        by (nonlinear_arith)
                        requires
                            ((self.p_0 - self.p_h) as u64) <= (self.p_0 as u64),
                            den >= 0,
                    ;
                    assert((self.p_0 as u64) * den <= 100 * 48) by (nonlinear_arith)
                        requires
                            (self.p_0 as u64) <= 100,
                            den <= 48,
                    ;
                    assert((self.t_0 as u64) * den + ((self.t_h - self.t_0) as u64) * (l as u64)
                        <= 200 * 48) by (nonlinear_arith)
                        requires
                            (self.t_0 as u64) <= 100,
                            ((self.t_h - self.t_0) as u64) <= 100,
                            den <= 48,
                            (l as u64) <= den,
                    ;
                }
                (
                    (self.p_0 as u64) * den - ((self.p_0 - self.p_h) as u64) * (l as u64),
                    (self.t_0 as u64) * den + ((self.t_h - self.t_0) as u64) * (l as u64),
                )
            };
            proof {
                assert(p_s <= 100 * 48 && t_s <= 200 * 48);
                assert(p_s * (wcap as u64) <= 9600 * 0x1_0000_0000_0000) by (nonlinear_arith)
                    requires
                        p_s <= 9600,
                        (wcap as u64) <= 0x1_0000_0000_0000,
                ;
                assert(t_s * (wcap as u64) <= 9600 * 0x1_0000_0000_0000) by (nonlinear_arith)
                    requires
                        t_s <= 9600,
                        (wcap as u64) <= 0x1_0000_0000_0000,
                ;
                assert(100 * (live as u64) * den <= 9600 * 0x1_0000_0000_0000)
                    by (nonlinear_arith)
                    requires
                        (live as u64) <= 0x1_0000_0000_0000,
                        den <= 48,
                ;
            }
            proof {
                assert(wcap as int == self.win_size(l as int));
                assert(ws as int == self.win_start(pos as int, l as int));
                assert(den as int == self.level_den());
                assert(p_s as int == self.level_lo(l as int));
                assert(t_s as int == self.level_hi(l as int));
            }
            let dens = 100 * (live as u64) * den;
            if p_s * (wcap as u64) <= dens && dens <= t_s * (wcap as u64) {
                proof {
                    lemma_pow2_pos(l as nat);
                    assert(self.segment_capacity <= wcap) by (nonlinear_arith)
                        requires
                            wcap == self.segment_capacity * pow2(l as nat),
                            pow2(l as nat) >= 1,
                            self.segment_capacity >= 0,
                    ;
                    assert(self.window_ok(pos as int, l as int));
                }
                return Some((ws, wcap, l));
            }
            proof {
                assert(!self.window_ok(pos as int, l as int));
            }
            if l == self.height {
                return None;
            }
            proof {
                lemma_pow2_unfold((l + 1) as nat);
                assert(self.segment_capacity * (2 * pow2(l as nat)) == 2 * (self.segment_capacity
                    * pow2(l as nat))) by (nonlinear_arith);
                lemma_pow2_unfold((self.height - l) as nat);
                assert((2 * wcap) * pow2((self.height - l - 1) as nat) == wcap * (2 * pow2(
                    (self.height - l - 1) as nat,
                ))) by (nonlinear_arith);
                assert(wcap * 2 <= self.capacity) by (nonlinear_arith)
                    requires
                        self.capacity == (wcap * 2) * pow2((self.height - l - 1) as nat),
                        pow2((self.height - l - 1) as nat) >= 1,
                        wcap >= 1,
                ;
            }
            wcap = wcap * 2;
            l = l + 1;
        }
    }
}

/// Order-preserving overwrite of the unique slot holding the key of `p`.
proof fn lemma_overwrite(o: Seq<Slot>, n: Seq<Slot>, pos: int, p: (usize, u64), value: u64)
    requires
        0 <= pos < o.len(),
        o[pos] == Some(p),
        sorted_strict(lives(o)),
        n == o.update(pos, Some((p.0, value))),
    ensures
        lives(n) == map_set(lives(o), p.0, value),
        sorted_strict(lives(n)),
        lives(n).len() == lives(o).len(),
{
    let key = p.0;
    let pre = o.subrange(0, pos);
    let mid = o.subrange(pos, pos + 1);
    let post = o.subrange(pos + 1, o.len() as int);
    assert(o =~= pre + mid + post);
    lemma_lives_concat(pre + mid, post);
    lemma_lives_concat(pre, mid);
    lemma_lives_all_none(mid.drop_last());
    assert(lives(mid) =~= seq![p]);
    let npre = n.subrange(0, pos);
    let nmid = n.subrange(pos, pos + 1);
    let npost = n.subrange(pos + 1, n.len() as int);
    assert(n =~= npre + nmid + npost);
    lemma_lives_concat(npre + nmid, npost);
    lemma_lives_concat(npre, nmid);
    assert(npre =~= pre);
    assert(npost =~= post);
    lemma_lives_all_none(nmid.drop_last());
    assert(lives(nmid) =~= seq![(key, value)]);
    let s1 = lives(pre);
    let s2 = lives(post);
    lemma_lives_member(pre);
    assert forall|i: int| 0 <= i < s1.len() implies (#[trigger] s1[i]).0 < key by {
        let q = choose|q: int| 0 <= q < pre.len() && pre[q] == Some(s1[i]);
        lemma_slots_ordered(o, q, pos);
    }
    lemma_lives_member(post);
    assert forall|i: int| 0 <= i < s2.len() implies (#[trigger] s2[i]).0 > key by {
        let q = choose|q: int| 0 <= q < post.len() && post[q] == Some(s2[i]);
        lemma_slots_ordered(o, pos, pos + 1 + q);
    }
    lemma_map_set_replace(s1, s2, key, p.1, value);
    assert(lives(o) =~= s1 + seq![p] + s2);
    assert(lives(n) =~= s1 + seq![(key, value)] + s2);
    lemma_map_set_sorted(lives(o), key, value);
}

/// Proof that a well-shaped capacity keeps the segment count within the
/// capacity and the height small.
proof fn lemma_shape_bounds(nb: usize, seg: usize, cap: usize, h: usize)
    requires
        cap == nb * seg,
        seg >= 1,
        nb == pow2(h as nat),
        cap as int <= MAX_CAPACITY as int,
    ensures
        h <= 48,
        nb <= cap,
{
    assert(nb <= cap) by (nonlinear_arith)
        requires
            cap == nb * seg,
            seg >= 1,
            nb >= 0,
    ;
    if h > 48 {
        lemma_pow2_strictly_increases(48, h as nat);
        lemma2_to64_rest();
    }
}

/// Proof that multiplying by one on the right changes nothing.
proof fn lemma_mul_one_right(x: int)
    ensures
        x * 1 == x,
{
}

/// Proof that a power of two below a threshold power has the smaller
/// exponent.
proof fn lemma_pow2_bound(e: nat, c: nat)
    requires
        pow2(e) <= pow2(c),
    ensures
        e <= c,
{
    if e > c {
        lemma_pow2_strictly_increases(c, e);
    }
}

/// Proof that a power of two exceeds its exponent.
proof fn lemma_pow2_gt(e: nat)
    ensures
        pow2(e) > e,
    decreases e,
{
    if e > 0 {
        lemma_pow2_gt((e - 1) as nat);
        lemma_pow2_unfold(e);
    } else {
        lemma2_to64();
    }
}

/// The result of a gap-tolerant binary search.
pub enum SearchResult {
    /// The key sits in this slot.
    Found(usize),
    /// The key is absent; it would belong at this slot index.
    Absent(usize),
}

/// Gap-tolerant binary search: probe the midpoint, skip right through
/// gaps to the first live key, and recurse into the half the comparison
/// selects.
pub(crate) fn search_slots(a: &Vec<Slot>, key: usize) -> (r: SearchResult)
    requires
        sorted_strict(lives(a@)),
    ensures
        match r {
            SearchResult::Found(pos) => pos < a@.len() && (a@[pos as int] matches Some(p)
                && p.0 == key),
            SearchResult::Absent(ip) => {
                &&& ip <= a@.len()
                &&& live_below(a@, ip as int, key)
                &&& live_above(a@, ip as int, key)
                &&& (ip == 0 || a@[ip as int - 1] is Some)
            },
        },
{
    let mut lo: usize = 0;
    let mut hi: usize = a.len();
    while lo < hi
        invariant
            lo <= hi <= a@.len(),
            sorted_strict(lives(a@)),
            live_below(a@, lo as int, key),
            live_above(a@, hi as int, key),
            lo == 0 || a@[lo as int - 1] is Some,
        decreases hi - lo,
    {
        let mid = lo + (hi - lo) / 2;
        let mut p = mid;
        while p < hi && a[p].is_none()
            invariant
                mid <= p <= hi <= a@.len(),
                forall|q: int| mid <= q < p ==> a@[q] is None,
            decreases hi - p,
        {
            p = p + 1;
        }
        if p == hi {
            // Only gaps from the midpoint rightward within this half.
            proof {
                assert forall|i: int| mid <= i < a@.len() && 0 <= i implies slot_above(
                    #[trigger] a@[i],
                    key,
                ) by {
                    if i < hi {
                        assert(a@[i] is None);
                    }
                }
            }
            hi = mid;
        } else {
            let slot = a[p];
            match slot {
                Some(pair) => {
                    if pair.0 == key {
                        return SearchResult::Found(p);
                    } else if pair.0 < key {
                        proof {
                            assert forall|i: int| 0 <= i < p + 1 && i < a@.len() implies
                                slot_below(#[trigger] a@[i], key) by {
                                if lo <= i && i < p && a@[i] is Some {
                                    lemma_slots_ordered(a@, i, p as int);
                                }
                            }
                        }
                        lo = p + 1;
                    } else {
                        proof {
                            assert forall|i: int| mid <= i < a@.len() && 0 <= i implies
                                slot_above(#[trigger] a@[i], key) by {
                                if i < p {
                                    assert(a@[i] is None);
                                } else if i > p && a@[i] is Some && i < hi {
                                    lemma_slots_ordered(a@, p as int, i);
                                } else if i > p && a@[i] is Some {
                                    lemma_slots_ordered(a@, p as int, i);
                                }
                            }
                        }
                        hi = mid;
                    }
                },
                None => unreached(),
            }
        }
    }
    SearchResult::Absent(lo)
}

/// The first gap at or after `start`, if any.
pub(crate) fn find_gap(a: &Vec<Slot>, start: usize) -> (r: Option<usize>)
    requires
        start <= a@.len(),
    ensures
        match r {
            Some(g) => start <= g < a@.len() && a@[g as int] is None,
            None => forall|q: int| start <= q < a@.len() ==> a@[q] is Some,
        },
{
    let mut i = start;
    while i < a.len()
        invariant
            start <= i <= a@.len(),
            forall|q: int| start <= q < i ==> a@[q] is Some,
        decreases a@.len() - i,
    {
        if a[i].is_none() {
            return Some(i);
        }
        i = i + 1;
    }
    None
}

/// Place `(key, value)` at slot `ip`, shifting the pairs between `ip`
/// and the gap at `gap` one slot right. The sorted position is `ip`:
/// every live key left of it is smaller, every live key at or right of
/// it greater.
pub(crate) fn insert_pair(a: &mut Vec<Slot>, ip: usize, gap: usize, key: usize, value: u64)
    requires
        ip <= gap < old(a)@.len(),
        old(a)@[gap as int] is None,
        sorted_strict(lives(old(a)@)),
        live_below(old(a)@, ip as int, key),
        live_above(old(a)@, ip as int, key),
    ensures
        final(a)@.len() == old(a)@.len(),
        lives(final(a)@) == map_set(lives(old(a)@), key, value),
        sorted_strict(lives(final(a)@)),
        lives(final(a)@).len() == lives(old(a)@).len() + 1,
{
    let ghost o = a@;
    let mut j = gap;
    while j > ip
        invariant
            ip <= j <= gap < a@.len(),
            a@.len() == o.len(),
            forall|q: int| 0 <= q <= j ==> a@[q] == o[q],
            forall|q: int| j < q <= gap ==> a@[q] == o[q - 1],
            forall|q: int| gap < q < a@.len() ==> a@[q] == o[q],
        decreases j,
    {
        let x = a[j - 1];
        a[j] = x;
        j = j - 1;
    }
    a[ip] = Some((key, value));
    proof {
        let n = a@;
        let len = o.len() as int;
        let pre = o.subrange(0, ip as int);
        let mid = o.subrange(ip as int, gap as int);
        let gslot = o.subrange(gap as int, gap as int + 1);
        let post = o.subrange(gap as int + 1, len);
        assert(o =~= pre + mid + gslot + post);
        lemma_lives_concat(pre + mid + gslot, post);
        lemma_lives_concat(pre + mid, gslot);
        lemma_lives_concat(pre, mid);
        lemma_lives_all_none(gslot);
        let kv: Seq<Slot> = seq![Some((key, value))];
        assert(n =~= pre + kv + mid + post);
        lemma_lives_concat(pre + kv + mid, post);
        lemma_lives_concat(pre + kv, mid);
        lemma_lives_concat(pre, kv);
        lemma_lives_all_none(kv.drop_last());
        assert(lives(kv) =~= seq![(key, value)]);
        let s1 = lives(pre);
        let s2 = lives(mid) + lives(post);
        lemma_lives_member(pre);
        assert forall|i: int| 0 <= i < s1.len() implies (#[trigger] s1[i]).0 < key by {
            let q = choose|q: int| 0 <= q < pre.len() && pre[q] == Some(s1[i]);
            assert(slot_below(o[q], key));
        }
        lemma_lives_member(mid);
        lemma_lives_member(post);
        assert forall|i: int| 0 <= i < s2.len() implies (#[trigger] s2[i]).0 > key by {
            if i < lives(mid).len() {
                let q = choose|q: int| 0 <= q < mid.len() && mid[q] == Some(lives(mid)[i]);
                assert(slot_above(o[ip + q], key));
            } else {
                let w = s2[i];
                assert(lives(post)[i - lives(mid).len()] == w);
                let q = choose|q: int| 0 <= q < post.len() && post[q] == Some(w);
                assert(slot_above(o[gap + 1 + q], key));
            }
        }
        assert(lives(o) =~= s1 + s2);
        assert(lives(n) =~= s1 + seq![(key, value)] + s2);
        lemma_map_set_split(s1, s2, key, value);
        lemma_map_set_sorted(lives(o), key, value);
    }
}

/// The live pairs of `a[ws..we]`, in order.
pub(crate) fn collect_live(a: &Vec<Slot>, ws: usize, we: usize) -> (r: Vec<(usize, u64)>)
    requires
        ws <= we <= a@.len(),
    ensures
        r@ == lives(a@.subrange(ws as int, we as int)),
{
    let mut r: Vec<(usize, u64)> = Vec::new();
    let mut i = ws;
    while i < we
        invariant
            ws <= i <= we <= a@.len(),
            r@ == lives(a@.subrange(ws as int, i as int)),
        decreases we - i,
    {
        proof {
            assert(a@.subrange(ws as int, i as int + 1).drop_last() =~= a@.subrange(
                ws as int,
                i as int,
            ));
            assert(a@.subrange(ws as int, i as int + 1).last() == a@[i as int]);
        }
        match a[i] {
            Some(p) => {
                r.push(p);
            },
            None => {},
        }
        i = i + 1;
    }
    r
}

/// The count of live slots of `a[ws..we]`.
pub(crate) fn count_live(a: &Vec<Slot>, ws: usize, we: usize) -> (r: usize)
    requires
        ws <= we <= a@.len(),
    ensures
        r == lives(a@.subrange(ws as int, we as int)).len(),
{
    let mut r: usize = 0;
    let mut i = ws;
    while i < we
        invariant
            ws <= i <= we <= a@.len(),
            r == lives(a@.subrange(ws as int, i as int)).len(),
            r <= i - ws,
        decreases we - i,
    {
        proof {
            assert(a@.subrange(ws as int, i as int + 1).drop_last() =~= a@.subrange(
                ws as int,
                i as int,
            ));
            assert(a@.subrange(ws as int, i as int + 1).last() == a@[i as int]);
        }
        if a[i].is_some() {
            r = r + 1;
        }
        i = i + 1;
    }
    r
}

/// The slot where the `j`-th of `m` evenly spread pairs lands in the
/// window `[ws, we)`.
pub open spec fn spread_target(ws: int, we: int, m: int, j: int) -> int {
    ws + j * (we - ws) / m
}

/// Some spread pair lands in slot `q`.
pub open spec fn is_spread_target(ws: int, we: int, m: int, q: int) -> bool {
    exists|j: int| 0 <= j < m && q == #[trigger] spread_target(ws, we, m, j)
}

/// The window `[ws, we)` holds its live pairs exactly at the even spread
/// targets, in order, with gaps everywhere else.
pub open spec fn evenly_spread(a: Seq<Slot>, ws: int, we: int) -> bool {
    let win = a.subrange(ws, we);
    let m = lives(win).len() as int;
    &&& forall|j: int| 0 <= j < m ==> a[spread_target(ws, we, m, j)] == Some(#[trigger] lives(win)[j])
    &&& forall|q: int| ws <= q < we && #[trigger] a[q] is Some ==> is_spread_target(ws, we, m, q)
}

/// Left-compact the live pairs of the window `[ws, we)`, preserving their
/// order, leaving all gaps trailing at the window's right end.
pub(crate) fn pack_window(a: &mut Vec<Slot>, ws: usize, we: usize)
    requires
        ws <= we <= old(a)@.len(),
    ensures
        final(a)@.len() == old(a)@.len(),
        forall|q: int|
            0 <= q < ws || we <= q < final(a)@.len() ==> final(a)@[q] == old(a)@[q],
        lives(final(a)@.subrange(ws as int, we as int)) == lives(
            old(a)@.subrange(ws as int, we as int),
        ),
        lives(final(a)@) == lives(old(a)@),
        forall|q: int|
            ws + lives(old(a)@.subrange(ws as int, we as int)).len() <= q < we ==> final(a)@[q] is None,
        forall|q: int|
            ws <= q < ws + lives(old(a)@.subrange(ws as int, we as int)).len() ==> final(a)@[q] is Some,
{
    let ghost o = a@;
    let tmp = collect_live(a, ws, we);
    let m = tmp.len();
    proof {
        lemma_lives_len(o.subrange(ws as int, we as int));
    }
    // Clear the window, then write the pairs back left-justified.
    let mut i = ws;
    while i < we
        invariant
            ws <= i <= we <= a@.len(),
            a@.len() == o.len(),
            forall|q: int| 0 <= q < ws || we <= q < a@.len() ==> a@[q] == o[q],
            forall|q: int| ws <= q < i ==> a@[q] is None,
            forall|q: int| i <= q < we ==> a@[q] == o[q],
        decreases we - i,
    {
        a[i] = None;
        i = i + 1;
    }
    proof {
        lemma_lives_all_none(a@.subrange(ws as int, we as int));
        assert(lives(a@.subrange(ws as int, we as int)) =~= tmp@.take(0));
    }
    let mut j: usize = 0;
    while j < m
        invariant
            0 <= j <= m,
            m == tmp@.len(),
            ws + m <= we <= a@.len(),
            a@.len() == o.len(),
            tmp@ == lives(o.subrange(ws as int, we as int)),
            forall|q: int| 0 <= q < ws || we <= q < a@.len() ==> a@[q] == o[q],
            forall|q: int| ws + j <= q < we ==> a@[q] is None,
            forall|q: int| ws <= q < ws + j ==> a@[q] is Some,
            lives(a@.subrange(ws as int, we as int)) == tmp@.take(j as int),
        decreases m - j,
    {
        proof {
            let win = a@.subrange(ws as int, we as int);
            lemma_lives_update_tail(win, j as int, tmp@[j as int]);
            assert(win.update(j as int, Some(tmp@[j as int])) =~= a@.update(
                (ws + j) as int,
                Some(tmp@[j as int]),
            ).subrange(ws as int, we as int));
            assert(tmp@.take(j as int).push(tmp@[j as int]) =~= tmp@.take(j as int + 1));
        }
        let x = tmp[j];
        a[ws + j] = Some(x);
        j = j + 1;
    }
    proof {
        assert(tmp@.take(m as int) =~= tmp@);
        lemma_window_lives(o, a@, ws as int, we as int);
    }
}

/// Redistribute the `m` live pairs of the window `[ws, we)` evenly: the
/// `j`-th pair lands at offset `floor(j * size / m)`, so gaps end up
/// spread rather than clustered.
pub(crate) fn spread_window(a: &mut Vec<Slot>, ws: usize, we: usize, m: usize)
    requires
        ws <= we <= old(a)@.len(),
        m == lives(old(a)@.subrange(ws as int, we as int)).len(),
    ensures
        final(a)@.len() == old(a)@.len(),
        forall|q: int|
            0 <= q < ws || we <= q < final(a)@.len() ==> final(a)@[q] == old(a)@[q],
        lives(final(a)@.subrange(ws as int, we as int)) == lives(
            old(a)@.subrange(ws as int, we as int),
        ),
        lives(final(a)@) == lives(old(a)@),
        m < we - ws ==> final(a)@[we as int - 1] is None,
        forall|j: int|
            0 <= j < m ==> final(a)@[spread_target(ws as int, we as int, m as int, j)] == Some(
                #[trigger] lives(old(a)@.subrange(ws as int, we as int))[j],
            ),
        forall|q: int|
            ws <= q < we && #[trigger] final(a)@[q] is Some ==> is_spread_target(
                ws as int,
                we as int,
                m as int,
                q,
            ),
        evenly_spread(final(a)@, ws as int, we as int),
{
    let ghost o = a@;
    let tmp = collect_live(a, ws, we);
    let w = we - ws;
    proof {
        lemma_lives_len(o.subrange(ws as int, we as int));
    }
    let mut i = ws;
    while i < we
        invariant
            ws <= i <= we <= a@.len(),
            a@.len() == o.len(),
            forall|q: int| 0 <= q < ws || we <= q < a@.len() ==> a@[q] == o[q],
            forall|q: int| ws <= q < i ==> a@[q] is None,
            forall|q: int| i <= q < we ==> a@[q] == o[q],
        decreases we - i,
    {
        a[i] = None;
        i = i + 1;
    }
    proof {
        lemma_lives_all_none(a@.subrange(ws as int, we as int));
        assert(lives(a@.subrange(ws as int, we as int)) =~= tmp@.take(0));
    }
    let ghost mut lp: int = -1;
    let mut j: usize = 0;
    while j < m
        invariant
            0 <= j <= m,
            m == tmp@.len(),
            m <= w,
            w == we - ws,
            ws <= we <= a@.len(),
            a@.len() == o.len(),
            tmp@ == lives(o.subrange(ws as int, we as int)),
            forall|q: int| 0 <= q < ws || we <= q < a@.len() ==> a@[q] == o[q],
            j == 0 ==> lp == -1,
            j > 0 ==> lp == ((j - 1) * (w as int)) / (m as int) && 0 <= lp < w,
            forall|q: int| ws + lp < q < we ==> a@[q] is None,
            lives(a@.subrange(ws as int, we as int)) == tmp@.take(j as int),
            forall|j2: int|
                0 <= j2 < j ==> a@[spread_target(ws as int, we as int, m as int, j2)] == Some(
                    #[trigger] tmp@[j2],
                ),
            forall|q: int|
                ws <= q < we && #[trigger] a@[q] is Some ==> is_spread_target(
                    ws as int,
                    we as int,
                    m as int,
                    q,
                ),
        decreases m - j,
    {
        proof {
            assert((j as u128) * (w as u128) < 0x10000000000000000u128 * 0x10000000000000000u128)
                by (nonlinear_arith)
                requires
                    (j as u128) < 0x10000000000000000u128,
                    (w as u128) < 0x10000000000000000u128,
            ;
            lemma_div_bounds(j as int, w as int, m as int);
            if j > 0 {
                lemma_div_step(j as int, w as int, m as int);
            }
        }
        let off_wide = ((j as u128) * (w as u128)) / (m as u128);
        proof {
            assert(off_wide < w as u128);
        }
        let off = off_wide as usize;
        proof {
            let win = a@.subrange(ws as int, we as int);
            assert(win[off as int] is None);
            lemma_lives_update_tail(win, off as int, tmp@[j as int]);
            assert(win.update(off as int, Some(tmp@[j as int])) =~= a@.update(
                (ws + off) as int,
                Some(tmp@[j as int]),
            ).subrange(ws as int, we as int));
            assert(tmp@.take(j as int).push(tmp@[j as int]) =~= tmp@.take(j as int + 1));
        }
        let x = tmp[j];
        a[ws + off] = Some(x);
        proof {
            assert forall|j2: int| 0 <= j2 < j + 1 implies a@[spread_target(
                ws as int,
                we as int,
                m as int,
                j2,
            )] == Some(#[trigger] tmp@[j2]) by {
                if j2 < j {
                    lemma_div_mono(j2, j as int, w as int, m as int);
                } else {
                    assert(spread_target(ws as int, we as int, m as int, j2) == ws + off);
                }
            }
            assert(is_spread_target(ws as int, we as int, m as int, (ws + off) as int));
            lp = (j as int) * (w as int) / (m as int);
        }
        j = j + 1;
    }
    proof {
        assert(tmp@.take(m as int) =~= tmp@);
        lemma_window_lives(o, a@, ws as int, we as int);
        if m < w && m > 0 {
            lemma_div_last(w as int, m as int);
        }
    }
}

/// Proof that equal window live pairs and untouched outside slots give
/// equal live pairs overall.
proof fn lemma_window_lives(o: Seq<Slot>, n: Seq<Slot>, ws: int, we: int)
    requires
        0 <= ws <= we <= o.len(),
        n.len() == o.len(),
        forall|q: int| 0 <= q < ws || we <= q < n.len() ==> n[q] == o[q],
        lives(n.subrange(ws, we)) == lives(o.subrange(ws, we)),
    ensures
        lives(n) == lives(o),
{
    let opre = o.subrange(0, ws);
    let owin = o.subrange(ws, we);
    let opost = o.subrange(we, o.len() as int);
    let npre = n.subrange(0, ws);
    let nwin = n.subrange(ws, we);
    let npost = n.subrange(we, n.len() as int);
    assert(o =~= opre + owin + opost);
    assert(n =~= npre + nwin + npost);
    assert(npre =~= opre);
    assert(npost =~= opost);
    lemma_lives_concat(opre + owin, opost);
    lemma_lives_concat(opre, owin);
    lemma_lives_concat(npre + nwin, npost);
    lemma_lives_concat(npre, nwin);
}

/// Bounds of the spread target: the `j`-th of `m` pairs lands strictly
/// inside a window of size `w >= m`.
proof fn lemma_div_bounds(j: int, w: int, m: int)
    requires
        0 <= j < m <= w,
    ensures
        0 <= j * w / m < w,
{
    lemma_fundamental_div_mod(j * w, m);
    assert(j * w >= 0) by (nonlinear_arith)
        requires
            j >= 0,
            w >= 0,
    ;
    lemma_remainder(j * w, m);
    let q = j * w / m;
    assert(q * m <= j * w) by (nonlinear_arith)
        requires
            j * w == m * q + (j * w) % m,
            (j * w) % m >= 0,
    ;
    if q >= w {
        assert(q * m >= w * m) by (nonlinear_arith)
            requires
                q >= w,
                m > 0,
        ;
        assert(j * w < w * m) by (nonlinear_arith)
            requires
                j < m,
                w > 0,
        ;
    }
    if q < 0 {
        assert(m * q + (j * w) % m < 0) by (nonlinear_arith)
            requires
                q < 0,
                m > 0,
                (j * w) % m < m,
        ;
    }
}

/// Spread targets of earlier pairs lie strictly left of later ones.
proof fn lemma_div_mono(j2: int, j: int, w: int, m: int)
    requires
        0 <= j2 < j < m <= w,
    ensures
        j2 * w / m < j * w / m,
    decreases j - j2,
{
    lemma_div_step(j, w, m);
    if j2 < j - 1 {
        lemma_div_mono(j2, j - 1, w, m);
    }
}

/// The spread targets strictly increase with `j`.
proof fn lemma_div_step(j: int, w: int, m: int)
    requires
        1 <= j < m <= w,
    ensures
        (j - 1) * w / m < j * w / m,
{
    let q = (j - 1) * w / m;
    assert((j - 1) * w >= 0) by (nonlinear_arith)
        requires
            j >= 1,
            w >= 0,
    ;
    lemma_fundamental_div_mod((j - 1) * w, m);
    lemma_remainder((j - 1) * w, m);
    assert(j * w >= m * (q + 1)) by (nonlinear_arith)
        requires
            (j - 1) * w == m * q + ((j - 1) * w) % m,
            ((j - 1) * w) % m >= 0,
            w >= m,
    ;
    assert(j * w >= 0) by (nonlinear_arith)
        requires
            j >= 0,
            w >= 0,
    ;
    lemma_fundamental_div_mod(j * w, m);
    lemma_remainder(j * w, m);
    let q2 = j * w / m;
    if q2 <= q {
        assert(m * q2 + (j * w) % m < m * (q + 1)) by (nonlinear_arith)
            requires
                q2 <= q,
                m > 0,
                (j * w) % m < m,
        ;
    }
}

/// The last spread target stays clear of the window's last slot whenever
/// a gap exists at all.
proof fn lemma_div_last(w: int, m: int)
    requires
        1 <= m < w,
    ensures
        (m - 1) * w / m < w - 1,
{
    let q = (m - 1) * w / m;
    assert((m - 1) * w >= 0) by (nonlinear_arith)
        requires
            m >= 1,
            w >= 0,
    ;
    lemma_fundamental_div_mod((m - 1) * w, m);
    lemma_remainder((m - 1) * w, m);
    if q >= w - 1 {
        assert(m * q >= m * (w - 1)) by (nonlinear_arith)
            requires
                q >= w - 1,
                m > 0,
        ;
        assert((m - 1) * w < m * (w - 1)) by (nonlinear_arith)
            requires
                m < w,
        ;
        assert((m - 1) * w >= m * q) by (nonlinear_arith)
            requires
                (m - 1) * w == m * q + ((m - 1) * w) % m,
                ((m - 1) * w) % m >= 0,
        ;
    }
}

} // verus!

