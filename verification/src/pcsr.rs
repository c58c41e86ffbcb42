//! The column-partitioned store: several logical columns multiplexed
//! into one packed memory array.
//!
//! Each column is laid down as one sentinel pair (the reserved key 0,
//! carrying the column id) followed by the column's deduplicated pairs in
//! ascending row-key order; a side map records where each column's
//! sentinel sits. Legitimate row keys therefore start at 1.

use vstd::prelude::*;
use vstd::pervasive::unreached;
use crate::model::{sorted_strict, lookup, vals_of, fold_rel, lemma_lookup_present};
use crate::pma::{PackedMemoryArray, Error, MAX_CAPACITY};
use crate::vector::assoc_accumulate;

verus! {

/// The reserved key that marks the start of a column: the key type's
/// default value, outside the domain of legitimate row keys.
pub fn semaphore_key() -> (r: usize)
    ensures
        r == 0,
{
    0
}

/// `out` is the sorted deduplication of the keyed input, each key
/// carrying the left-to-right fold of its values.
pub open spec fn dedup_rel<F: Fn(u64, u64) -> u64>(
    combine: F,
    ks: Seq<usize>,
    vs: Seq<u64>,
    out: Seq<(usize, u64)>,
) -> bool {
    &&& sorted_strict(out)
    &&& out.len() <= ks.len()
    &&& forall|k: usize| (lookup(out, k) is Some) <==> vals_of(ks, vs, k).len() > 0
    &&& forall|k: usize|
        (#[trigger] lookup(out, k)) matches Some(v) ==> fold_rel(combine, vals_of(ks, vs, k), v)
}

/// The flat pair sequence of the given columns: for each column in id
/// order, its sentinel pair and then its own pairs.
pub open spec fn blocks_flat(cols: Seq<Seq<(usize, u64)>>) -> Seq<(usize, u64)>
    decreases cols.len(),
{
    if cols.len() == 0 {
        Seq::empty()
    } else {
        blocks_flat(cols.drop_last()) + seq![(0usize, (cols.len() - 1) as u64)] + cols.last()
    }
}

/// The position of column `c`'s sentinel in the flat sequence: the
/// combined length of the blocks before it.
pub open spec fn block_start(cols: Seq<Seq<(usize, u64)>>, c: int) -> int {
    blocks_flat(cols.take(c)).len() as int
}

/// Every pair of every column carries a legitimate row key, away from the
/// sentinel key 0.
pub open spec fn legit_cols(cols: Seq<Seq<(usize, u64)>>) -> bool {
    forall|c: int, j: int|
        0 <= c < cols.len() && 0 <= j < cols[c].len() ==> (#[trigger] cols[c][j]).0 >= 1
}

/// Every row key handed in is legitimate: at least 1, away from the
/// sentinel key 0.
pub open spec fn rk_legit(rk: Seq<Vec<usize>>) -> bool {
    forall|c: int, j: int|
        0 <= c < rk.len() && 0 <= j < rk[c]@.len() ==> (#[trigger] rk[c]@[j]) >= 1
}

/// Each column's sentinel sits at its block start and carries its id.
proof fn lemma_sentinel_at_start(cols: Seq<Seq<(usize, u64)>>, c: int)
    requires
        0 <= c < cols.len(),
    ensures
        0 <= block_start(cols, c) < blocks_flat(cols).len(),
        blocks_flat(cols)[block_start(cols, c)] == (0usize, c as u64),
    decreases cols.len(),
{
    let flat = blocks_flat(cols);
    let fpre = blocks_flat(cols.drop_last());
    if c == cols.len() - 1 {
        assert(cols.take(c) =~= cols.drop_last());
        assert(flat[fpre.len() as int] == (0usize, c as u64));
    } else {
        lemma_sentinel_at_start(cols.drop_last(), c);
        assert(cols.drop_last().take(c) =~= cols.take(c));
        assert(flat[block_start(cols, c)] == fpre[block_start(cols, c)]);
    }
}

/// Every sentinel-keyed pair of the flat sequence sits at some column's
/// block start, provided row keys are legitimate.
proof fn lemma_only_sentinels(cols: Seq<Seq<(usize, u64)>>, p: int)
    requires
        legit_cols(cols),
        0 <= p < blocks_flat(cols).len(),
        blocks_flat(cols)[p].0 == 0,
    ensures
        exists|c: int| 0 <= c < cols.len() && p == #[trigger] block_start(cols, c),
    decreases cols.len(),
{
    let flat = blocks_flat(cols);
    let m = cols.len() as int;
    let fpre = blocks_flat(cols.drop_last());
    assert(flat == fpre + seq![(0usize, (m - 1) as u64)] + cols.last());
    if p < fpre.len() {
        assert forall|c: int, j: int|
            0 <= c < cols.drop_last().len() && 0 <= j < cols.drop_last()[c].len() implies (
        #[trigger] cols.drop_last()[c][j]).0 >= 1 by {
            assert(cols.drop_last()[c] == cols[c]);
        }
        assert(fpre[p] == flat[p]);
        lemma_only_sentinels(cols.drop_last(), p);
        let cw = choose|c: int|
            0 <= c < cols.drop_last().len() && p == block_start(cols.drop_last(), c);
        assert(cols.drop_last().take(cw) =~= cols.take(cw));
        assert(p == block_start(cols, cw));
    } else if p == fpre.len() {
        assert(cols.take(m - 1) =~= cols.drop_last());
        assert(p == block_start(cols, m - 1));
    } else {
        let j = p - fpre.len() - 1;
        assert(flat[p] == cols.last()[j]);
        assert(cols[m - 1][j].0 >= 1);
    }
}

/// The store holds exactly the columns' blocks: some per-column
/// deduplication of the input, flattened with sentinels in id order.
pub open spec fn pcsc_built<F: Fn(u64, u64) -> u64>(
    combine: F,
    row_keys: Seq<Vec<usize>>,
    values: Seq<Vec<u64>>,
    p: PackedCSC,
) -> bool {
    exists|cols: Seq<Seq<(usize, u64)>>|
        {
            &&& #[trigger] blocks_flat(cols) == p.pma@
            &&& cols.len() == row_keys.len()
            &&& row_keys.len() == values.len()
            &&& (forall|c: int|
                0 <= c < cols.len() ==> dedup_rel(
                    combine,
                    (#[trigger] row_keys[c])@,
                    values[c]@,
                    cols[c],
                ))
            &&& forall|c: int|
                0 <= c < cols.len() ==> p.semaphores@[c] == Some(
                    #[trigger] block_start(cols, c) as usize,
                )
        }
}

/// The combined length of the inner key vectors.
pub open spec fn total_len(rk: Seq<Vec<usize>>) -> int
    decreases rk.len(),
{
    if rk.len() == 0 {
        0
    } else {
        total_len(rk.drop_last()) + rk.last()@.len()
    }
}

/// A key with values under it occurs in the input keys.
proof fn lemma_vals_of_member(ks: Seq<usize>, vs: Seq<u64>, k: usize)
    requires
        vals_of(ks, vs, k).len() > 0,
    ensures
        exists|i: int| 0 <= i < ks.len() && ks[i] == k,
    decreases ks.len(),
{
    if ks.len() == 0 || ks.len() != vs.len() {
    } else if ks.last() == k {
        assert(ks[ks.len() - 1] == k);
    } else {
        lemma_vals_of_member(ks.drop_last(), vs.drop_last(), k);
        let i = choose|i: int| 0 <= i < ks.drop_last().len() && ks.drop_last()[i] == k;
        assert(ks[i] == k);
    }
}

/// A deduplicated column of legitimate row keys holds legitimate keys.
proof fn lemma_dedup_legit<F: Fn(u64, u64) -> u64>(
    combine: F,
    ks: Seq<usize>,
    vs: Seq<u64>,
    out: Seq<(usize, u64)>,
)
    requires
        dedup_rel(combine, ks, vs, out),
        forall|j: int| 0 <= j < ks.len() ==> (#[trigger] ks[j]) >= 1,
    ensures
        forall|j: int| 0 <= j < out.len() ==> (#[trigger] out[j]).0 >= 1,
{
    assert forall|j: int| 0 <= j < out.len() implies (#[trigger] out[j]).0 >= 1 by {
        lemma_lookup_present(out, j);
        lemma_vals_of_member(ks, vs, out[j].0);
    }
}

/// A matrix whose columns are indexed by an integer: one packed memory
/// array of sentinel-separated column blocks, and the side map from
/// column id to its sentinel's position.
pub struct PackedCSC {
    /// The number of columns.
    pub nb_partitions: usize,
    /// For each column id, the position of its sentinel among the live
    /// pairs.
    pub semaphores: Vec<Option<usize>>,
    /// The backing store.
    pub pma: PackedMemoryArray,
}

impl PackedCSC {
    /// Build the store from per-column row keys and values. Every column
    /// is deduplicated with `combine`, laid down behind its sentinel, and
    /// the built store is scanned once to place the sentinel map. Fails
    /// when the outer vectors or any column's key/value pair disagree in
    /// length.
    pub fn new<F: Fn(u64, u64) -> u64 + Copy>(
        row_keys: Vec<Vec<usize>>,
        values: Vec<Vec<u64>>,
        combine: F,
    ) -> (r: Result<PackedCSC, Error>)
        requires
            forall|a: u64, b: u64| call_requires(combine, (a, b)),
            row_keys@.len() + total_len(row_keys@) <= MAX_CAPACITY as int,
            rk_legit(row_keys@),
        ensures
            match r {
                Ok(p) => {
                    &&& row_keys@.len() == values@.len()
                    &&& (forall|c: int|
                        0 <= c < row_keys@.len() ==> (#[trigger] row_keys@[c])@.len()
                            == values@[c]@.len())
                    &&& p.nb_partitions == row_keys@.len()
                    &&& p.semaphores@.len() == row_keys@.len()
                    &&& pcsc_built(combine, row_keys@, values@, p)
                },
                Err(e) => {
                    &&& e == Error::InvalidInput
                    &&& !(row_keys@.len() == values@.len() && (forall|c: int|
                        0 <= c < row_keys@.len() ==> (#[trigger] row_keys@[c])@.len()
                            == values@[c]@.len()))
                },
            },
    {
        if row_keys.len() != values.len() {
            return Err(Error::InvalidInput);
        }
        let m = row_keys.len();
        let mut c: usize = 0;
        while c < m
            invariant
                c <= m,
                m == row_keys@.len() == values@.len(),
                forall|q: int|
                    0 <= q < c ==> (#[trigger] row_keys@[q])@.len() == values@[q]@.len(),
            decreases m - c,
        {
            if row_keys[c].len() != values[c].len() {
                return Err(Error::InvalidInput);
            }
            c = c + 1;
        }
        let mut pairs: Vec<(usize, u64)> = Vec::new();
        let ghost mut gcols: Seq<Seq<(usize, u64)>> = Seq::empty();
        let mut c: usize = 0;
        while c < m
            invariant
                c <= m,
                m == row_keys@.len() == values@.len(),
                forall|a: u64, b: u64| call_requires(combine, (a, b)),
                forall|q: int|
                    0 <= q < m ==> (#[trigger] row_keys@[q])@.len() == values@[q]@.len(),
                row_keys@.len() + total_len(row_keys@) <= MAX_CAPACITY as int,
                gcols.len() == c,
                pairs@ == blocks_flat(gcols),
                pairs@.len() <= c + total_len(row_keys@.take(c as int)),
                forall|q: int|
                    0 <= q < c ==> dedup_rel(
                        combine,
                        (#[trigger] row_keys@[q])@,
                        values@[q]@,
                        gcols[q],
                    ),
            decreases m - c,
        {
            proof {
                lemma_total_len_take(row_keys@, c as int);
            }
            pairs.push((semaphore_key(), c as u64));
            let col = assoc_accumulate(&row_keys[c], &values[c], combine);
            let ghost colv = col@;
            let mut col_moved = col;
            pairs.append(&mut col_moved);
            proof {
                let gc2 = gcols.push(colv);
                assert(gc2.drop_last() =~= gcols);
                assert(gc2.last() == colv);
                assert(blocks_flat(gc2) == blocks_flat(gcols) + seq![
                    (0usize, c as u64),
                ] + colv);
                assert(pairs@ =~= blocks_flat(gcols) + seq![(0usize, c as u64)] + colv);
                gcols = gc2;
                assert(row_keys@.take(c as int + 1).drop_last() =~= row_keys@.take(c as int));
            }
            c = c + 1;
        }
        proof {
            assert(row_keys@.take(m as int) =~= row_keys@);
        }
        let pma = PackedMemoryArray::load_pairs(pairs);
        let ghost fcols = gcols;
        proof {
            assert forall|c: int, j: int|
                0 <= c < fcols.len() && 0 <= j < fcols[c].len() implies (
            #[trigger] fcols[c][j]).0 >= 1 by {
                lemma_dedup_legit(combine, row_keys@[c]@, values@[c]@, fcols[c]);
            }
        }
        // Scan the built store once to place the sentinel map.
        let built = pma.iter();
        let mut semaphores: Vec<Option<usize>> = Vec::new();
        let mut c: usize = 0;
        while c < m
            invariant
                c <= m,
                semaphores@.len() == c,
                forall|q: int| 0 <= q < c ==> (#[trigger] semaphores@[q]) is None,
            decreases m - c,
        {
            semaphores.push(None);
            c = c + 1;
        }
        let mut pos: usize = 0;
        while pos < built.len()
            invariant
                pos <= built@.len(),
                built@ == pma@,
                pma@ == blocks_flat(fcols),
                legit_cols(fcols),
                fcols.len() == m,
                semaphores@.len() == m,
                forall|q: int|
                    0 <= q < m ==> (#[trigger] semaphores@[q]) == (if block_start(fcols, q)
                        < pos as int {
                        Some(block_start(fcols, q) as usize)
                    } else {
                        None::<usize>
                    }),
            decreases built@.len() - pos,
        {
            let pr = built[pos];
            if pr.0 == 0 && pr.1 < m as u64 {
                proof {
                    lemma_only_sentinels(fcols, pos as int);
                    let cw = choose|c: int|
                        0 <= c < fcols.len() && pos as int == block_start(fcols, c);
                    lemma_sentinel_at_start(fcols, cw);
                    assert(pr.1 == cw as u64);
                    assert forall|q: int| 0 <= q < m && q != cw implies block_start(fcols, q)
                        != pos as int by {
                        lemma_sentinel_at_start(fcols, q);
                    }
                }
                let id = pr.1 as usize;
                semaphores[id] = Some(pos);
            } else {
                proof {
                    if pr.0 == 0 {
                        lemma_only_sentinels(fcols, pos as int);
                        let cw = choose|c: int|
                            0 <= c < fcols.len() && pos as int == block_start(fcols, c);
                        lemma_sentinel_at_start(fcols, cw);
                    } else {
                        assert forall|q: int| 0 <= q < m implies block_start(fcols, q) != pos
                            as int by {
                            lemma_sentinel_at_start(fcols, q);
                        }
                    }
                }
            }
            pos = pos + 1;
        }
        let r = PackedCSC { nb_partitions: m, semaphores, pma };
        proof {
            assert forall|c: int| 0 <= c < m implies r.semaphores@[c] == Some(
                #[trigger] block_start(fcols, c) as usize,
            ) by {
                lemma_sentinel_at_start(fcols, c);
            }
            assert(pcsc_built(combine, row_keys@, values@, r));
        }
        Ok(r)
    }
}

/// Taking one more column adds that column's length to the total.
proof fn lemma_total_len_take(rk: Seq<Vec<usize>>, c: int)
    requires
        0 <= c < rk.len(),
    ensures
        total_len(rk.take(c + 1)) == total_len(rk.take(c)) + rk[c]@.len(),
        total_len(rk.take(c)) >= 0,
        total_len(rk.take(c + 1)) <= total_len(rk),
    decreases rk.len(),
{
    assert(rk.take(c + 1).drop_last() =~= rk.take(c));
    lemma_total_len_nonneg(rk.take(c));
    lemma_total_len_prefix(rk, c + 1);
}

proof fn lemma_total_len_nonneg(rk: Seq<Vec<usize>>)
    ensures
        total_len(rk) >= 0,
    decreases rk.len(),
{
    if rk.len() > 0 {
        lemma_total_len_nonneg(rk.drop_last());
    }
}

/// A prefix never exceeds the whole.
proof fn lemma_total_len_prefix(rk: Seq<Vec<usize>>, c: int)
    requires
        0 <= c <= rk.len(),
    ensures
        total_len(rk.take(c)) <= total_len(rk),
    decreases rk.len() - c,
{
    if c == rk.len() {
        assert(rk.take(c) =~= rk);
    } else {
        lemma_total_len_prefix(rk, c + 1);
        assert(rk.take(c + 1).drop_last() =~= rk.take(c));
        assert(total_len(rk.take(c + 1)) == total_len(rk.take(c)) + rk[c]@.len());
    }
}

/// A matrix whose columns carry caller-supplied identifiers beside their
/// integer positions.
pub struct MappedPackedCSC<L> {
    /// The identifier of each column, present until a column is removed.
    pub col_keys: Vec<Option<L>>,
    /// The positional store.
    pub pcsc: PackedCSC,
}

impl<L> MappedPackedCSC<L> {
    /// Build the store and record each column's identifier.
    pub fn new<F: Fn(u64, u64) -> u64 + Copy>(
        row_keys: Vec<Vec<usize>>,
        column_keys: Vec<L>,
        values: Vec<Vec<u64>>,
        combine: F,
    ) -> (r: Result<MappedPackedCSC<L>, Error>)
        requires
            forall|a: u64, b: u64| call_requires(combine, (a, b)),
            row_keys@.len() + total_len(row_keys@) <= MAX_CAPACITY as int,
            rk_legit(row_keys@),
        ensures
            match r {
                Ok(p) => {
                    &&& row_keys@.len() == values@.len()
                    &&& p.pcsc.nb_partitions == row_keys@.len()
                    &&& pcsc_built(combine, row_keys@, values@, p.pcsc)
                    &&& p.col_keys@.len() == column_keys@.len()
                    &&& forall|j: int|
                        0 <= j < column_keys@.len() ==> p.col_keys@[j] == Some(
                            #[trigger] column_keys@[j],
                        )
                },
                Err(e) => {
                    &&& e == Error::InvalidInput
                    &&& !(row_keys@.len() == values@.len() && (forall|c: int|
                        0 <= c < row_keys@.len() ==> (#[trigger] row_keys@[c])@.len()
                            == values@[c]@.len()))
                },
            },
    {
        let pcsc = match PackedCSC::new(row_keys, values, combine) {
            Ok(p) => p,
            Err(e) => {
                return Err(e);
            },
        };
        let ghost orig = column_keys@;
        let mut rest = column_keys;
        let mut rev: Vec<L> = Vec::new();
        while rest.len() > 0
            invariant
                rest@.len() + rev@.len() == orig.len(),
                rest@ == orig.take(rest@.len() as int),
                forall|j: int|
                    0 <= j < rev@.len() ==> rev@[j] == orig[orig.len() - 1 - j],
            decreases rest@.len(),
        {
            let x = match rest.pop() {
                Some(x) => x,
                None => unreached(),
            };
            rev.push(x);
        }
        let mut col_keys: Vec<Option<L>> = Vec::new();
        while rev.len() > 0
            invariant
                rev@.len() + col_keys@.len() == orig.len(),
                forall|j: int|
                    0 <= j < rev@.len() ==> rev@[j] == orig[orig.len() - 1 - j],
                forall|j: int|
                    0 <= j < col_keys@.len() ==> col_keys@[j] == Some(#[trigger] orig[j]),
            decreases rev@.len(),
        {
            let x = match rev.pop() {
                Some(x) => x,
                None => unreached(),
            };
            col_keys.push(Some(x));
        }
        Ok(MappedPackedCSC { col_keys, pcsc })
    }
}

} // verus!
