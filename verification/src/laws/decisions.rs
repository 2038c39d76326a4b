//! Laws of the search and the decision: which reference vectors vote on a transaction, and what
//! their votes decide.

use vstd::arithmetic::power2::{lemma_pow2_pos, pow2};
use vstd::prelude::*;
use vstd::set_lib::lemma_subset_equality;

use crate::dataset::{build, Artifacts, EntryError, Reference};
use crate::error::ApiError;
use crate::format::{bit_of, label_bit};
use crate::laws::numbers::{closest, gap};
use crate::quantize::quantize;
use crate::routes::{
    answer, fraud_neighbours, fraud_score_handler, indices, nearest_neighbours, ready,
    FraudScoreResponse,
};
use crate::search::{
    before, five_least, fraud_score, knn5, knn5_avx2, knn5_naive_f32, knn5_naive_i32, lane_diff,
    law_exact_five_nearest, marked, neighbours, occupied, offered, row, score, squared_distance,
    Top5,
};
use crate::single::Single;
use crate::state::AppState;
use crate::vectorize::{vectorize, Payload, VectorizeError};
use crate::{DIMS, PAD};

verus! {

/// Square of the difference of two lanes; with `wrap`, of the difference reduced to eight bits.
pub open spec fn squared_gap(wrap: bool, a: i8, b: i8) -> int {
    if wrap {
        ((a - b + 128) % 256 - 128) * ((a - b + 128) % 256 - 128)
    } else {
        (a - b) * (a - b)
    }
}

/// Squared distance of `q` from the `i`-th vector of `refs`, over all sixteen lanes.
pub open spec fn spread(wrap: bool, q: Seq<i8>, refs: Seq<i8>, i: int) -> int {
    squared_gap(wrap, q[0], refs[16 * i + 0]) + squared_gap(wrap, q[1], refs[16 * i + 1])
        + squared_gap(wrap, q[2], refs[16 * i + 2]) + squared_gap(wrap, q[3], refs[16 * i + 3])
        + squared_gap(wrap, q[4], refs[16 * i + 4]) + squared_gap(wrap, q[5], refs[16 * i + 5])
        + squared_gap(wrap, q[6], refs[16 * i + 6]) + squared_gap(wrap, q[7], refs[16 * i + 7])
        + squared_gap(wrap, q[8], refs[16 * i + 8]) + squared_gap(wrap, q[9], refs[16 * i + 9])
        + squared_gap(wrap, q[10], refs[16 * i + 10]) + squared_gap(wrap, q[11], refs[16 * i + 11])
        + squared_gap(wrap, q[12], refs[16 * i + 12]) + squared_gap(wrap, q[13], refs[16 * i + 13])
        + squared_gap(wrap, q[14], refs[16 * i + 14]) + squared_gap(wrap, q[15], refs[16 * i + 15])
}

/// Vector `i` is nearer to `q` than vector `j`; of two at one distance, the first is.
pub open spec fn nearer(wrap: bool, q: Seq<i8>, refs: Seq<i8>, i: int, j: int) -> bool {
    spread(wrap, q, refs, i) < spread(wrap, q, refs, j) || (spread(wrap, q, refs, i) == spread(
        wrap,
        q,
        refs,
        j,
    ) && i < j)
}

proof fn lemma_squared_gap(wrap: bool, a: i8, b: i8)
    ensures
        squared_gap(wrap, a, b) == lane_diff(wrap, a, b) * lane_diff(wrap, a, b),
{
    if wrap {
        assert((a - b + 128) % 256 - 128 == lane_diff(true, a, b));
    }
}

/// Lane by lane, the distances are sums of squared gaps.
proof fn lemma_spread(wrap: bool, q: Seq<i8>, refs: Seq<i8>, i: int)
    requires
        q.len() == 16,
        0 <= i,
        16 * i + 16 <= refs.len(),
    ensures
        squared_distance(wrap, q, row(refs, i), PAD as nat) == spread(wrap, q, refs, i),
{
    let r = row(refs, i);
    assert(i * PAD == 16 * i);
    assert forall|k: int| 0 <= k < 16 implies #[trigger] r[k] == refs[16 * i + k] by {}
    assert forall|k: int| 0 <= k < 16 implies squared_gap(wrap, q[k], #[trigger] r[k])
        == lane_diff(wrap, q[k], r[k]) * lane_diff(wrap, q[k], r[k]) by {
        lemma_squared_gap(wrap, q[k], r[k]);
    }
    reveal_with_fuel(squared_distance, 17);
}

/// No element of `idx` is `i`.
pub open spec fn absent(idx: Seq<u32>, i: int) -> bool {
    forall|h: int| 0 <= h < idx.len() ==> #[trigger] idx[h] != i
}

/// The number of whole vectors.
pub open spec fn rows_in(refs: Seq<i8>) -> int {
    refs.len() as int / 16
}

/// The number of vectors that have a say: five, or all of fewer.
pub open spec fn seats(refs: Seq<i8>) -> int {
    if rows_in(refs) < 5 {
        rows_in(refs)
    } else {
        5
    }
}

/// A scan finds the nearest five, or all of fewer: different vectors with their distances, the
/// nearer first, and nearer than every vector that it leaves out. Slots without a vector hold the
/// largest distance and index.
#[verifier::rlimit(40)]
#[verifier::spinoff_prover]
pub proof fn law_scan(wrap: bool, query: &[i8; PAD], refs: &[i8], top: Top5)
    requires
        rows_in(refs@) <= 0x1_0000_0000,
        call_ensures(knn5, (query, refs, wrap), top) || (wrap && call_ensures(
            knn5_avx2,
            (query, refs),
            top,
        )) || (!wrap && (call_ensures(knn5_naive_i32, (query, refs), top) || call_ensures(
            knn5_naive_f32,
            (query, refs),
            top,
        ))),
    ensures
        forall|k: int|
            0 <= k < seats(refs@) ==> (#[trigger] top.idx@[k]) < rows_in(refs@) && top.dist@[k]
                == spread(wrap, query@, refs@, top.idx@[k] as int),
        forall|j: int, k: int|
            0 <= j < k < seats(refs@) ==> nearer(
                wrap,
                query@,
                refs@,
                #[trigger] top.idx@[j] as int,
                #[trigger] top.idx@[k] as int,
            ),
        forall|i: int, k: int|
            0 <= k < seats(refs@) && 0 <= i < rows_in(refs@) && absent(
                top.idx@.take(seats(refs@)),
                i,
            ) ==> #[trigger] nearer(wrap, query@, refs@, top.idx@[k] as int, i),
        forall|k: int| seats(refs@) <= k < 5 ==> #[trigger] top.idx@[k] == 0xFFFF_FFFF,
        forall|k: int| seats(refs@) <= k < 5 ==> #[trigger] top.dist@[k] == 0x7FFF_FFFF,
{
    let n = rows_in(refs@);
    let m = seats(refs@);
    assert(m == occupied(n));
    let t = top@;
    let c = neighbours(wrap, query@, refs@);
    assert(refs@.len() / PAD as nat == n);
    law_exact_five_nearest(wrap, query@, refs@, t);
    assert forall|k: int| 0 <= k < 5 implies #[trigger] t[k] == (top.dist@[k], top.idx@[k]) by {}
    assert forall|i: int| 0 <= i < n implies c[i].0 == #[trigger] spread(
        wrap,
        query@,
        refs@,
        i,
    ) && c[i].1 == i by {
        lemma_spread(wrap, query@, refs@, i);
        crate::search::lemma_squared_distance_bound(wrap, query@, row(refs@, i), PAD as nat);
    }
    assert forall|k: int| 0 <= k < m implies (#[trigger] top.idx@[k]) < n && top.dist@[k] == spread(
        wrap,
        query@,
        refs@,
        top.idx@[k] as int,
    ) by {
        let e = t[k];
        lemma_spread(wrap, query@, refs@, e.1 as int);
    }
    assert forall|j: int, k: int| 0 <= j < k < m implies nearer(
        wrap,
        query@,
        refs@,
        #[trigger] top.idx@[j] as int,
        #[trigger] top.idx@[k] as int,
    ) by {
        assert(before(t[j], t[k]));
    }
    assert forall|i: int, k: int|
        0 <= k < m && 0 <= i < n && absent(top.idx@.take(m), i) implies #[trigger] nearer(
        wrap,
        query@,
        refs@,
        top.idx@[k] as int,
        i,
    ) by {
        assert forall|h: int| 0 <= h < m implies (#[trigger] t[h]).1 != i by {
            assert(top.idx@.take(m)[h] != i);
        }
        let s = spread(wrap, query@, refs@, i);
        assert(before(t[k], c[i]));
    }
    assert forall|k: int| m <= k < 5 implies #[trigger] top.idx@[k] == 0xFFFF_FFFF by {
        let e = t[k];
    }
    assert forall|k: int| m <= k < 5 implies #[trigger] top.dist@[k] == 0x7FFF_FFFF by {
        let e = t[k];
    }
}

/// A slot, by distance and then by index.
pub open spec fn ahead(a: (i32, u32), b: (i32, u32)) -> bool {
    a.0 < b.0 || (a.0 == b.0 && a.1 < b.1)
}

/// Offering an entry to five slots in order keeps them in order, and keeps all but one of the six:
/// the one that goes is not ahead of any that stay.
pub proof fn law_offer(old: Seq<(i32, u32)>, e: (i32, u32), new: Seq<(i32, u32)>)
    requires
        old.len() == 5,
        forall|j: int, k: int| 0 <= j < k < 5 ==> !ahead(#[trigger] old[k], #[trigger] old[j]),
        offered(old, e, new),
    ensures
        new.len() == 5,
        forall|j: int, k: int| 0 <= j < k < 5 ==> !ahead(#[trigger] new[k], #[trigger] new[j]),
        exists|gone: (i32, u32)|
            {
                &&& #[trigger] new.push(gone).to_multiset() == old.push(e).to_multiset()
                &&& forall|k: int| 0 <= k < 5 ==> !ahead(gone, #[trigger] new[k])
            },
{
    broadcast use vstd::seq_lib::group_to_multiset_ensures;

    if before(e, old[4]) {
        let p = choose|p: int|
            {
                &&& 0 <= p <= 4
                &&& forall|j: int| p <= j < 4 ==> before(e, #[trigger] old[j])
                &&& p > 0 ==> !before(e, old[p - 1])
                &&& new == #[trigger] old.take(4).insert(p, e)
            };
        let gone = old[4];
        assert forall|j: int, k: int| 0 <= j < k < 5 implies !ahead(
            #[trigger] new[k],
            #[trigger] new[j],
        ) by {
            let j0 = if j < p { j } else { j - 1 };
            let k0 = if k < p { k } else { k - 1 };
            if j != p && k != p {
                assert(!ahead(old[k0], old[j0]));
            } else if k == p {
                if j < p - 1 {
                    assert(!ahead(old[p - 1], old[j]));
                }
            } else {
                assert(before(e, old[k0]));
            }
        }
        assert forall|k: int| 0 <= k < 5 implies !ahead(gone, #[trigger] new[k]) by {
            if k < p {
                assert(!ahead(old[4], old[k]));
            } else if k > p {
                if k - 1 < 4 {
                    assert(!ahead(old[4], old[k - 1]));
                }
            }
        }
        vstd::seq_lib::to_multiset_insert(old.take(4), p, e);
        assert(old =~= old.take(4).push(gone));
        vstd::seq_lib::to_multiset_build(old.take(4), gone);
        vstd::seq_lib::to_multiset_build(old, e);
        vstd::seq_lib::to_multiset_build(new, gone);
        assert(new.push(gone).to_multiset() =~= old.push(e).to_multiset());
    } else {
        assert(new.push(e).to_multiset() == old.push(e).to_multiset());
        assert forall|k: int| 0 <= k < 5 implies !ahead(e, #[trigger] new[k]) by {
            if k < 4 {
                assert(!ahead(old[4], old[k]));
            }
        }
    }
}

/// Scaling a ratio leaves its closest number.
proof fn lemma_closest_reduced(r: Single, num: int, den: int, factor: int)
    requires
        factor > 0,
        closest(r, num * factor, den * factor),
    ensures
        closest(r, num, den),
{
    assert forall|y: Single| !y.nan() implies {
        &&& gap(r.value() * den, num) <= gap(#[trigger] y.value() * den, num)
        &&& gap(r.value() * den, num) == gap(y.value() * den, num) ==> y.value() == r.value()
            || r.bits % 2 == 0
    } by {
        let (a, b) = (r.value(), y.value());
        lemma_gap_scaled(a * den, num, factor);
        lemma_gap_scaled(b * den, num, factor);
        assert(a * (den * factor) == (a * den) * factor) by (nonlinear_arith);
        assert(b * (den * factor) == (b * den) * factor) by (nonlinear_arith);
        let (g, h) = (gap(a * den, num), gap(b * den, num));
        assert(g * factor <= h * factor);
        assert(g <= h) by (nonlinear_arith)
            requires
                g * factor <= h * factor,
                factor > 0,
        ;
    }
}

proof fn lemma_gap_scaled(a: int, b: int, factor: int)
    requires
        factor > 0,
    ensures
        gap(a * factor, b * factor) == gap(a, b) * factor,
{
    if a < b {
        assert(a * factor < b * factor && b * factor - a * factor == (b - a) * factor)
            by (nonlinear_arith)
            requires
                a < b,
                factor > 0,
        ;
    } else {
        assert(a * factor >= b * factor && a * factor - b * factor == (a - b) * factor)
            by (nonlinear_arith)
            requires
                a >= b,
                factor > 0,
        ;
    }
}

/// A score is the number closest to that many fifths.
proof fn lemma_score_fifths(k: int)
    requires
        0 <= k <= 5,
    ensures
        closest(score(k), k * pow2(149), 5),
        !score(k).negative(),
{
    let p = pow2(149) as int;
    lemma_pow2_pos(149);
    crate::single::law_whole_exact(k);
    crate::single::law_whole_exact(5);
    let (a, b) = (Single::of_int(k), Single::of_int(5));
    crate::laws::numbers::lemma_quotient_closest(a, b);
    crate::search::law_score_steps(k, k);
    assert(gap(5 * p, 0) == 5 * p);
    lemma_closest_reduced(score(k), k * p, 5, p);
    crate::laws::numbers::law_number_line(score(k), score(k));
    crate::single::law_whole_ratio(k, 5);
}

/// The fraud score is the closest number to the fifths of set labels among the five slots.
pub proof fn law_fraud_score(top: &Top5, labels: &[u8], s: Single, sets: Seq<bool>)
    requires
        call_ensures(fraud_score, (top, labels), s),
        sets.len() == 5,
        forall|k: int|
            0 <= k < 5 ==> call_ensures(
                label_bit,
                (labels, top.idx@[k] as usize),
                #[trigger] sets[k],
            ),
    ensures
        ({
            let count = (if sets[0] { 1int } else { 0 }) + (if sets[1] { 1int } else { 0 }) + (
            if sets[2] { 1int } else { 0 }) + (if sets[3] { 1int } else { 0 }) + (if sets[4] {
                1int
            } else {
                0
            });
            closest(s, count * pow2(149), 5)
        }),
{
    let idx = top.idx@;
    assert forall|k: int| 0 <= k < 5 implies #[trigger] sets[k] == bit_of(
        labels@[idx[k] as int / 8],
        idx[k] as int % 8,
    ) by {
        assert(call_ensures(label_bit, (labels, idx[k] as usize), sets[k]));
    }
    reveal_with_fuel(marked, 6);
    let i4 = idx.drop_last();
    let i3 = i4.drop_last();
    let i2 = i3.drop_last();
    let i1 = i2.drop_last();
    assert(i1.drop_last().len() == 0);
    assert(marked(i1, labels@) == (if sets[0] { 1int } else { 0 }));
    assert(marked(i2, labels@) == marked(i1, labels@) + (if sets[1] { 1int } else { 0 }));
    assert(marked(i3, labels@) == marked(i2, labels@) + (if sets[2] { 1int } else { 0 }));
    assert(marked(i4, labels@) == marked(i3, labels@) + (if sets[3] { 1int } else { 0 }));
    assert(marked(idx, labels@) == marked(i4, labels@) + (if sets[4] { 1int } else { 0 }));
    lemma_score_fifths(marked(idx, labels@));
}

/// The vectors that vote on `q`: five, or all of fewer, and each nearer than every other.
pub open spec fn electorate(wrap: bool, q: Seq<i8>, refs: Seq<i8>, voters: Set<int>) -> bool {
    &&& voters.finite()
    &&& voters.len() == seats(refs)
    &&& forall|j: int| #[trigger] voters.contains(j) ==> 0 <= j < rows_in(refs)
    &&& forall|j: int, i: int|
        voters.contains(j) && 0 <= i < rows_in(refs) && !voters.contains(i) ==> #[trigger] nearer(
            wrap,
            q,
            refs,
            j,
            i,
        )
}

/// The label bit of a vector.
pub open spec fn labelled(labels: Seq<u8>, j: int) -> bool {
    bit_of(labels[j / 8], j % 8)
}

spec fn wide(idx: Seq<u32>) -> Seq<int> {
    Seq::new(idx.len(), |k: int| idx[k] as int)
}

/// Counting marked indices counts the set of them.
proof fn lemma_marked_set(idx: Seq<u32>, labels: Seq<u8>)
    requires
        idx.no_duplicates(),
    ensures
        wide(idx).to_set().finite(),
        wide(idx).to_set().len() == idx.len(),
        wide(idx).to_set().filter(|j: int| labelled(labels, j)).len() == marked(idx, labels),
        wide(idx).to_set().filter(|j: int| labelled(labels, j)).finite(),
    decreases idx.len(),
{
    broadcast use vstd::set::group_set_axioms;

    let f = |j: int| labelled(labels, j);
    let s = wide(idx).to_set();
    if idx.len() == 0 {
        assert(s =~= Set::<int>::empty());
        assert(s.filter(f) =~= Set::<int>::empty());
    } else {
        let init = idx.drop_last();
        let x = idx.last() as int;
        let t = wide(init).to_set();
        assert(init.no_duplicates());
        lemma_marked_set(init, labels);
        assert(!t.contains(x)) by {
            if t.contains(x) {
                let k = choose|k: int| 0 <= k < wide(init).len() && wide(init)[k] == x;
                assert(idx[k] == idx[idx.len() - 1]);
            }
        }
        assert(s =~= t.insert(x)) by {
            assert forall|y: int| #[trigger] s.contains(y) implies t.insert(x).contains(y) by {
                let k = choose|k: int| 0 <= k < wide(idx).len() && wide(idx)[k] == y;
                if k < init.len() {
                    assert(wide(init)[k] == y);
                }
            }
            assert forall|y: int| #[trigger] t.insert(x).contains(y) implies s.contains(y) by {
                if y == x {
                    assert(wide(idx)[idx.len() - 1] == x);
                } else {
                    let k = choose|k: int| 0 <= k < wide(init).len() && wide(init)[k] == y;
                    assert(wide(idx)[k] == y);
                }
            }
        }
        if f(x) {
            assert(s.filter(f) =~= t.filter(f).insert(x));
        } else {
            assert(s.filter(f) =~= t.filter(f));
        }
    }
}

/// There is one electorate: the indices that the scan yields.
proof fn lemma_electorate(
    wrap: bool,
    v: Seq<Single>,
    q: &[i8; PAD],
    refs: Seq<i8>,
    voters: Set<int>,
)
    requires
        q@ == crate::quantize::quantized_vector(v),
        rows_in(refs) <= 0x1_0000_0000,
        electorate(wrap, q@, refs, voters),
    ensures
        indices(nearest_neighbours(wrap, v, refs)).no_duplicates(),
        voters == wide(indices(nearest_neighbours(wrap, v, refs))).to_set(),
{
    let n = rows_in(refs);
    let m = seats(refs);
    let t = five_least(neighbours(wrap, q@, refs));
    let idx = indices(nearest_neighbours(wrap, v, refs));
    let c = neighbours(wrap, q@, refs);
    assert(refs.len() / PAD as nat == n && occupied(n) == m);
    law_exact_five_nearest(wrap, q@, refs, t);
    assert(idx.len() == m);
    assert forall|k: int| 0 <= k < m implies #[trigger] idx[k] == t[k].1 by {}
    assert forall|j: int, k: int| 0 <= j < m && 0 <= k < m && j != k implies idx[j] != idx[k] by {
        if j < k {
            assert(before(t[j], t[k]));
        } else {
            assert(before(t[k], t[j]));
        }
        let (a, b) = (t[j], t[k]);
    }
    assert(idx.no_duplicates());
    let chosen = wide(idx).to_set();
    lemma_marked_set(idx, Seq::empty());
    assert forall|j: int| #[trigger] chosen.contains(j) implies 0 <= j < n by {
        let k = choose|k: int| 0 <= k < wide(idx).len() && wide(idx)[k] == j;
        let e = t[k];
    }
    assert(chosen.subset_of(voters)) by {
        assert forall|x: int| #[trigger] chosen.contains(x) implies voters.contains(x) by {
            if !voters.contains(x) {
                let y = lemma_other(voters, chosen, x);
                assert(nearer(wrap, q@, refs, y, x));
                let k = choose|k: int| 0 <= k < wide(idx).len() && wide(idx)[k] == x;
                assert forall|h: int| 0 <= h < m implies (#[trigger] t[h]).1 != y by {
                    if t[h].1 == y {
                        assert(wide(idx)[h] == y);
                    }
                }
                assert(before(t[k], c[y]));
                lemma_spread(wrap, q@, refs, x);
                lemma_spread(wrap, q@, refs, y);
                crate::search::lemma_squared_distance_bound(wrap, q@, row(refs, y), PAD as nat);
            }
        }
    }
    lemma_subset_equality(chosen, voters);
}

/// Every query has an electorate.
pub proof fn law_electorate_exists(wrap: bool, q: [i8; PAD], refs: Seq<i8>)
    requires
        rows_in(refs) <= 0x1_0000_0000,
    ensures
        exists|voters: Set<int>| electorate(wrap, q@, refs, voters),
{
    let n = rows_in(refs);
    let m = seats(refs);
    let t = five_least(neighbours(wrap, q@, refs));
    let c = neighbours(wrap, q@, refs);
    assert(refs.len() / PAD as nat == n && occupied(n) == m);
    law_exact_five_nearest(wrap, q@, refs, t);
    let idx = indices(t.take(m));
    assert forall|k: int| 0 <= k < m implies #[trigger] idx[k] == t[k].1 by {}
    assert forall|j: int, k: int| 0 <= j < m && 0 <= k < m && j != k implies idx[j] != idx[k] by {
        if j < k {
            assert(before(t[j], t[k]));
        } else {
            assert(before(t[k], t[j]));
        }
        let (a, b) = (t[j], t[k]);
    }
    assert(idx.no_duplicates());
    let chosen = wide(idx).to_set();
    lemma_marked_set(idx, Seq::empty());
    assert forall|j: int| #[trigger] chosen.contains(j) implies 0 <= j < n by {
        let k = choose|k: int| 0 <= k < wide(idx).len() && wide(idx)[k] == j;
        let e = t[k];
    }
    assert forall|j: int, i: int|
        chosen.contains(j) && 0 <= i < n && !chosen.contains(i) implies #[trigger] nearer(
        wrap,
        q@,
        refs,
        j,
        i,
    ) by {
        let k = choose|k: int| 0 <= k < wide(idx).len() && wide(idx)[k] == j;
        assert forall|h: int| 0 <= h < m implies (#[trigger] t[h]).1 != i by {
            if t[h].1 == i {
                assert(wide(idx)[h] == i);
            }
        }
        assert(before(t[k], c[i]));
        lemma_spread(wrap, q@, refs, j);
        lemma_spread(wrap, q@, refs, i);
        crate::search::lemma_squared_distance_bound(wrap, q@, row(refs, i), PAD as nat);
    }
    assert(electorate(wrap, q@, refs, chosen));
}

/// Of two finite sets of one size, each has an element that the other lacks, or neither has.
proof fn lemma_other(a: Set<int>, b: Set<int>, x: int) -> (y: int)
    requires
        a.finite(),
        b.finite(),
        a.len() == b.len(),
        b.contains(x),
        !a.contains(x),
    ensures
        a.contains(y),
        !b.contains(y),
{
    if forall|z: int| a.contains(z) ==> b.contains(z) {
        assert(a.subset_of(b));
        lemma_subset_equality(a, b);
    }
    choose|z: int| a.contains(z) && !b.contains(z)
}

/// The decision on a transaction is a vote. `v` is the vector of the payload, `q` its quantized
/// form, and the voters are the reference vectors nearest to `q` itself. The score is the closest
/// number to the fifths of voters labelled as fraud, and the transaction is approved exactly with
/// at most two of them.
pub proof fn law_decision_is_a_vote(
    state: &AppState<'_>,
    p: &Payload,
    avx2: bool,
    result: Result<FraudScoreResponse, ApiError>,
    v: [Single; DIMS],
    q: [i8; PAD],
    voters: Set<int>,
)
    requires
        state.wf(),
        call_ensures(fraud_score_handler, (state, Some(p), avx2), result),
        call_ensures(
            vectorize,
            (p, &state.norm, &state.mcc),
            Ok::<[Single; DIMS], VectorizeError>(v),
        ),
        call_ensures(quantize, (&v,), q),
        electorate(avx2, q@, state.rows@, voters),
    ensures
        ({
            let fraud = voters.filter(|j: int| labelled(state.labels@, j)).len() as int;
            &&& result is Ok
            &&& closest(result->Ok_0.fraud_score, fraud * pow2(149), 5)
            &&& result->Ok_0.approved <==> fraud <= 2
        }),
{
    let rows = state.rows@;
    assert(rows.len() == 16 * state.n);
    lemma_electorate(avx2, v@, &q, rows, voters);
    let idx = indices(nearest_neighbours(avx2, v@, rows));
    lemma_marked_set(idx, state.labels@);
    let k = fraud_neighbours(avx2, v@, rows, state.labels@);
    crate::routes::law_decision(avx2, v@, rows, state.labels@);
    lemma_score_fifths(k);
    assert(result == Ok::<FraudScoreResponse, ApiError>(
        answer(avx2, v@, rows, state.labels@),
    ));
}

/// On a built dataset the voters' labels are those of their entries.
pub proof fn law_built_vote(
    entries: &[Reference],
    built: Artifacts,
    state: &AppState<'_>,
    p: &Payload,
    avx2: bool,
    result: Result<FraudScoreResponse, ApiError>,
    v: [Single; DIMS],
    q: [i8; PAD],
    voters: Set<int>,
)
    requires
        call_ensures(build, (entries,), Ok::<Artifacts, EntryError>(built)),
        state.wf(),
        state.refs@ == built.refs@,
        state.labels@ == built.labels@,
        call_ensures(fraud_score_handler, (state, Some(p), avx2), result),
        call_ensures(
            vectorize,
            (p, &state.norm, &state.mcc),
            Ok::<[Single; DIMS], VectorizeError>(v),
        ),
        call_ensures(quantize, (&v,), q),
        electorate(false, q@, state.rows@, voters),
    ensures
        ({
            let fraud = voters.filter(|j: int| entries@[j].label@ == "fraud"@).len() as int;
            &&& rows_in(state.rows@) == entries@.len()
            &&& result is Ok
            &&& closest(result->Ok_0.fraud_score, fraud * pow2(149), 5)
            &&& result->Ok_0.approved <==> fraud <= 2
        }),
{
    let rows = state.rows@;
    crate::dataset::law_built_size(built, entries@);
    crate::dataset::law_built_quantized(built, entries@);
    assert(rows.len() == 16 * state.n);
    crate::routes::law_kernel_invisible(v@, rows, state.labels@);
    lemma_electorate(false, v@, &q, rows, voters);
    let idx = indices(nearest_neighbours(false, v@, rows));
    lemma_marked_set(idx, state.labels@);
    let k = fraud_neighbours(false, v@, rows, state.labels@);
    crate::routes::law_decision(false, v@, rows, state.labels@);
    lemma_score_fifths(k);
    assert(result == Ok::<FraudScoreResponse, ApiError>(
        answer(false, v@, rows, state.labels@),
    ));
    let f = |j: int| labelled(state.labels@, j);
    let g = |j: int| entries@[j].label@ == "fraud"@;
    assert(voters.filter(f) =~= voters.filter(g)) by {
        assert forall|j: int| voters.contains(j) implies f(j) == g(j) by {
            crate::dataset::law_built_labels(built, entries@, j);
        }
    }
}

/// A request is refused exactly when it has no payload or its payload cannot be vectorized.
pub proof fn law_refusals(
    state: &AppState<'_>,
    p: &Payload,
    avx2: bool,
    empty: Result<FraudScoreResponse, ApiError>,
    result: Result<FraudScoreResponse, ApiError>,
    vector: Result<[Single; DIMS], VectorizeError>,
)
    requires
        call_ensures(fraud_score_handler, (state, None::<&Payload>, avx2), empty),
        call_ensures(fraud_score_handler, (state, Some(p), avx2), result),
        call_ensures(vectorize, (p, &state.norm, &state.mcc), vector),
    ensures
        empty is Err,
        result is Err <==> vector is Err,
{
}

/// The readiness endpoint answers 200 when ready and 503 otherwise, and a refusal is a 400.
pub proof fn law_statuses(state: &AppState<'_>, status: u16, error: ApiError, refusal: u16)
    requires
        call_ensures(ready, (state,), status),
        call_ensures(ApiError::status, (&error,), refusal),
    ensures
        state.ready ==> status == 200,
        !state.ready ==> status == 503,
        refusal == 400,
{
}

} // verus!
