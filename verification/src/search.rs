//! Top-5 nearest-neighbour scans over a quantized reference dataset.

use vstd::arithmetic::power2::{lemma2_to64, lemma_pow2_adds, lemma_pow2_pos, pow2};
use vstd::prelude::*;
use vstd::relations::{sorted_by, total_ordering};
use vstd::seq_lib::{
    lemma_multiset_commutative, lemma_sorted_unique, to_multiset_build, to_multiset_insert,
    to_multiset_len,
};

use crate::format::{bit_of, label_bit};
use crate::rounding::{rounded, units};
use crate::single::{
    law_whole_difference, law_whole_exact, law_whole_square, law_whole_sum, nought, one, Single,
    ONE_BITS,
};
use crate::{DIMS, PAD};

verus! {

/// `a` comes strictly before `b`: by distance, then by index.
pub open spec fn before(a: (i32, u32), b: (i32, u32)) -> bool {
    a.0 < b.0 || (a.0 == b.0 && a.1 < b.1)
}

/// The order of neighbours, as a relation: ascending distance, ties by ascending index.
pub open spec fn neighbour_order() -> spec_fn((i32, u32), (i32, u32)) -> bool {
    |a: (i32, u32), b: (i32, u32)| !before(b, a)
}

/// The entry of an unused slot; it comes after every other entry.
pub open spec fn vacant() -> (i32, u32) {
    (i32::MAX, u32::MAX)
}

/// The first five entries of `c` in neighbour order, with vacant slots where `c` has fewer.
pub open spec fn five_least(c: Seq<(i32, u32)>) -> Seq<(i32, u32)> {
    (c + Seq::new(5, |k: int| vacant())).sort_by(neighbour_order()).take(5)
}

/// `new` is `old` after an offer of `e`: unchanged when `e` does not come before the last entry,
/// otherwise the last entry is gone and `e` stands directly in front of the longest run of the
/// other entries' tail that it comes before.
pub open spec fn offered(old: Seq<(i32, u32)>, e: (i32, u32), new: Seq<(i32, u32)>) -> bool {
    if before(e, old[4]) {
        exists|p: int|
            {
                &&& 0 <= p <= 4
                &&& forall|j: int| p <= j < 4 ==> before(e, #[trigger] old[j])
                &&& p > 0 ==> !before(e, old[p - 1])
                &&& new == #[trigger] old.take(4).insert(p, e)
            }
    } else {
        new == old
    }
}

/// The five best neighbours seen so far, as parallel arrays of squared distances and indices.
#[derive(Debug, Clone, Copy)]
pub struct Top5 {
    pub dist: [i32; 5],
    pub idx: [u32; 5],
}

impl View for Top5 {
    type V = Seq<(i32, u32)>;

    open spec fn view(&self) -> Seq<(i32, u32)> {
        Seq::new(5, |k: int| (self.dist[k], self.idx[k]))
    }
}

impl Default for Top5 {
    fn default() -> (top: Self)
        ensures
            top@ == five_least(Seq::empty()),
            forall|k: int| 0 <= k < 5 ==> #[trigger] top@[k] == vacant(),
    {
        Self::new()
    }
}

impl Top5 {
    /// The slots are in neighbour order.
    pub open spec fn wf(self) -> bool {
        sorted_by(self@, neighbour_order())
    }

    /// Five vacant slots.
    #[must_use]
    pub fn new() -> (top: Self)
        ensures
            top@ == five_least(Seq::empty()),
            forall|k: int| 0 <= k < 5 ==> #[trigger] top@[k] == vacant(),
    {
        let top = Self { dist: [i32::MAX; 5], idx: [u32::MAX; 5] };
        proof {
            let f = Seq::new(5, |k: int| vacant());
            assert(top@ =~= f);
            assert(Seq::<(i32, u32)>::empty() + f =~= f);
            lemma_order_total();
            lemma_sorted_unchanged(f);
        }
        top
    }

    /// Insert `(dist, idx)` if it improves the current top five. Equal distances are ordered by
    /// ascending index.
    pub fn try_insert(&mut self, dist: i32, idx: u32)
        ensures
            offered(old(self)@, (dist, idx), final(self)@),
            old(self).wf() ==> final(self).wf(),
    {
        let worst_dist = self.dist[4];
        let worst_idx = self.idx[4];
        if dist > worst_dist || (dist == worst_dist && idx >= worst_idx) {
            return;
        }
        let ghost start = self@;
        let mut i: usize = 4;
        while i > 0
            invariant_except_break
                start == old(self)@,
            invariant
                start.len() == 5,
                i <= 4,
                forall|j: int| 0 <= j < i ==> self@[j] == #[trigger] start[j],
                forall|j: int| i < j < 5 ==> self@[j] == #[trigger] start[j - 1],
                forall|j: int| i <= j < 4 ==> before((dist, idx), #[trigger] start[j]),
            ensures
                i > 0 ==> !before((dist, idx), start[i - 1]),
            decreases i,
        {
            let prev: usize = i - 1;
            let p_dist = self.dist[prev];
            let p_idx = self.idx[prev];
            assert(start[prev as int] == (p_dist, p_idx));
            if dist < p_dist || (dist == p_dist && idx < p_idx) {
                self.dist[i] = p_dist;
                self.idx[i] = p_idx;
                i = prev;
            } else {
                break;
            }
        }
        let ghost moved = self@;
        self.dist[i] = dist;
        self.idx[i] = idx;
        proof {
            assert(self@ =~= moved.update(i as int, (dist, idx)));
            let placed = start.take(4).insert(i as int, (dist, idx));
            assert forall|j: int| 0 <= j < 5 implies #[trigger] self@[j] == placed[j] by {
                if j < i {
                    assert(moved[j] == start[j]);
                } else if j > i {
                    assert(moved[j] == start[j - 1]);
                }
            }
            assert(self@ =~= placed);
            if old(self).wf() {
                lemma_insert_sorted(start, (dist, idx), i as int);
                let full = start.insert(i as int, (dist, idx));
                assert(self@ =~= full.take(5));
                assert forall|p: int, q: int| 0 <= p < q < 5 implies #[trigger] neighbour_order()(
                    self@[p],
                    self@[q],
                ) by {
                    assert(neighbour_order()(full[p], full[q]));
                }
            }
        }
    }
}

/// Difference of one lane: exact, or reduced to eight bits as a packed byte subtraction does.
pub open spec fn lane_diff(wrapping: bool, q: i8, r: i8) -> int {
    let d = q - r;
    if wrapping && d > 127 {
        d - 256
    } else if wrapping && d < -128 {
        d + 256
    } else {
        d
    }
}

/// Sum of the squared differences of the first `n` lanes.
pub open spec fn squared_distance(wrapping: bool, q: Seq<i8>, r: Seq<i8>, n: nat) -> int
    decreases n,
{
    if n == 0 {
        0
    } else {
        squared_distance(wrapping, q, r, (n - 1) as nat) + lane_diff(
            wrapping,
            q[n - 1],
            r[n - 1],
        ) * lane_diff(wrapping, q[n - 1], r[n - 1])
    }
}

/// The `i`-th stored vector.
pub open spec fn row(refs: Seq<i8>, i: int) -> Seq<i8> {
    refs.subrange(i * PAD, i * PAD + PAD)
}

/// Every stored vector as a neighbour: its squared distance to the query and its index. Bytes
/// after the last whole vector take no part.
pub open spec fn neighbours(wrapping: bool, query: Seq<i8>, refs: Seq<i8>) -> Seq<(i32, u32)> {
    Seq::new(
        (refs.len() / PAD as nat) as nat,
        |i: int|
            (squared_distance(wrapping, query, row(refs, i), PAD as nat) as i32, i as u32),
    )
}

pub(crate) proof fn lemma_squared_distance_bound(wrapping: bool, q: Seq<i8>, r: Seq<i8>, n: nat)
    ensures
        0 <= squared_distance(wrapping, q, r, n) <= 65025 * n,
    decreases n,
{
    if n > 0 {
        lemma_squared_distance_bound(wrapping, q, r, (n - 1) as nat);
        let d = lane_diff(wrapping, q[n - 1], r[n - 1]);
        assert(0 <= d * d <= 65025) by (nonlinear_arith)
            requires
                -255 <= d <= 255,
        ;
    }
}

/// Scan with exact 32-bit integer arithmetic: the five vectors nearest to `query`, ties broken
/// by index.
#[must_use]
pub fn knn5_naive_i32(query: &[i8; PAD], refs: &[i8]) -> (top: Top5)
    ensures
        top@ == five_least(neighbours(false, query@, refs@)),
        top.wf(),
{
    let mut top = Top5::new();
    let n = refs.len() / PAD;
    let ghost all = neighbours(false, query@, refs@);
    assert(all.take(0) =~= Seq::empty());
    for i in 0..n
        invariant
            n == refs.len() / PAD,
            all == neighbours(false, query@, refs@),
            top@ == five_least(all.take(i as int)),
            top.wf(),
    {
        assert(i * PAD + PAD <= refs.len()) by (nonlinear_arith)
            requires
                i < n,
                n == refs.len() / PAD,
                PAD == 16,
        ;
        let start: usize = i * PAD;
        let mut sum: i32 = 0;
        for d in 0..PAD
            invariant
                start == i * PAD,
                start + PAD <= refs.len(),
                sum == squared_distance(false, query@, row(refs@, i as int), d as nat),
        {
            proof {
                lemma_squared_distance_bound(false, query@, row(refs@, i as int), d as nat);
            }
            let diff = query[d] as i32 - refs[start + d] as i32;
            assert(0 <= diff * diff <= 65025) by (nonlinear_arith)
                requires
                    -255 <= diff <= 255,
            ;
            sum = sum + diff * diff;
        }
        proof {
            lemma_squared_distance_bound(false, query@, row(refs@, i as int), PAD as nat);
        }
        top.try_insert(sum, #[verifier::truncate] (i as u32));
        proof {
            law_offer_keeps_five_least(all.take(i as int), all[i as int], top@);
            assert(all.take(i as int).push(all[i as int]) =~= all.take(i + 1));
        }
    }
    assert(all.take(n as int) =~= all);
    top
}

/// Scan with single-precision arithmetic. Every distance is a whole number below 2^24, so the
/// result is that of the integer scan.
#[must_use]
pub fn knn5_naive_f32(query: &[i8; PAD], refs: &[i8]) -> (top: Top5)
    ensures
        top@ == five_least(neighbours(false, query@, refs@)),
        top.wf(),
{
    let mut top = Top5::new();
    let n = refs.len() / PAD;
    let ghost all = neighbours(false, query@, refs@);
    assert(all.take(0) =~= Seq::empty());
    for i in 0..n
        invariant
            n == refs.len() / PAD,
            all == neighbours(false, query@, refs@),
            top@ == five_least(all.take(i as int)),
            top.wf(),
    {
        assert(i * PAD + PAD <= refs.len()) by (nonlinear_arith)
            requires
                i < n,
                n == refs.len() / PAD,
                PAD == 16,
        ;
        let start: usize = i * PAD;
        let mut sum = Single::from_u32(0);
        for d in 0..PAD
            invariant
                start == i * PAD,
                start + PAD <= refs.len(),
                sum == Single::of_int(
                    squared_distance(false, query@, row(refs@, i as int), d as nat),
                ),
        {
            let q = query[d];
            let r = refs[start + d];
            let diff = Single::from_i64(q as i64).sub(Single::from_i64(r as i64));
            proof {
                let so_far = squared_distance(false, query@, row(refs@, i as int), d as nat);
                lemma_squared_distance_bound(false, query@, row(refs@, i as int), d as nat);
                law_whole_difference(q as int, r as int);
                law_whole_square(q - r);
                assert((q - r) * (q - r) <= 65025) by (nonlinear_arith)
                    requires
                        -255 <= q - r <= 255,
                ;
                law_whole_sum(so_far, (q - r) * (q - r));
            }
            sum = sum.add(diff.mul(diff));
        }
        proof {
            lemma_squared_distance_bound(false, query@, row(refs@, i as int), PAD as nat);
            law_whole_exact(squared_distance(false, query@, row(refs@, i as int), PAD as nat));
        }
        top.try_insert(sum.to_i32(), #[verifier::truncate] (i as u32));
        proof {
            law_offer_keeps_five_least(all.take(i as int), all[i as int], top@);
            assert(all.take(i as int).push(all[i as int]) =~= all.take(i + 1));
        }
    }
    assert(all.take(n as int) =~= all);
    top
}

/// Squared distance of the vector stored at `start`, lane by lane: sixteen eight-bit
/// differences, squares added in neighbouring pairs, then eight partial sums folded in half
/// three times.
fn batch_distance(query: &[i8; PAD], refs: &[i8], start: usize) -> (dist: i32)
    requires
        start + PAD <= refs.len(),
    ensures
        dist == squared_distance(
            true,
            query@,
            refs@.subrange(start as int, start + PAD),
            PAD as nat,
        ),
        0 <= dist <= 65025 * PAD,
{
    let ghost r = refs@.subrange(start as int, start + PAD);
    let mut pairs: [i32; 8] = [0; 8];
    let mut k: usize = 0;
    while k < 8
        invariant
            k <= 8,
            start + PAD <= refs.len(),
            r == refs@.subrange(start as int, start + PAD),
            forall|m: int|
                0 <= m < k ==> #[trigger] pairs[m] == squared_distance(
                    true,
                    query@,
                    r,
                    (2 * m + 2) as nat,
                ) - squared_distance(true, query@, r, (2 * m) as nat),
            forall|m: int| 0 <= m < k ==> 0 <= #[trigger] pairs[m] <= 2 * 65025,
        decreases 8 - k,
    {
        let a = query[2 * k].wrapping_sub(refs[start + 2 * k]) as i16;
        let b = query[2 * k + 1].wrapping_sub(refs[start + 2 * k + 1]) as i16;
        assert(a == lane_diff(true, query@[2 * k as int], r[2 * k as int]));
        assert(b == lane_diff(true, query@[2 * k + 1], r[2 * k + 1]));
        assert(0 <= a * a <= 65025) by (nonlinear_arith)
            requires
                -255 <= a <= 255,
        ;
        assert(0 <= b * b <= 65025) by (nonlinear_arith)
            requires
                -255 <= b <= 255,
        ;
        pairs[k] = a as i32 * a as i32 + b as i32 * b as i32;
        proof {
            reveal_with_fuel(squared_distance, 3);
        }
        k = k + 1;
    }
    let mut quads: [i32; 4] = [0; 4];
    quads[0] = pairs[0] + pairs[4];
    quads[1] = pairs[1] + pairs[5];
    quads[2] = pairs[2] + pairs[6];
    quads[3] = pairs[3] + pairs[7];
    let even = quads[0] + quads[2];
    let odd = quads[1] + quads[3];
    even + odd
}

/// Batched scan: four stored vectors per step, then the remaining ones. Lane differences are
/// eight bits wide.
#[must_use]
pub fn knn5_avx2(query: &[i8; PAD], refs: &[i8]) -> (top: Top5)
    requires
        refs@.len() / PAD as nat <= u32::MAX,
    ensures
        top@ == five_least(neighbours(true, query@, refs@)),
        top.wf(),
{
    let n = refs.len() / PAD;
    let chunks = n / 4;
    let tail = n % 4;
    let ghost all = neighbours(true, query@, refs@);
    assert(all.take(0) =~= Seq::empty());
    let mut start: usize = 0;
    let mut idx: u32 = 0;
    let mut top = Top5::new();
    for c in 0..chunks
        invariant
            n == refs.len() / PAD,
            n <= u32::MAX,
            chunks == n / 4,
            all == neighbours(true, query@, refs@),
            idx == 4 * c,
            start == idx * PAD,
            top@ == five_least(all.take(idx as int)),
            top.wf(),
    {
        let dist0 = batch_distance(query, refs, start);
        let dist1 = batch_distance(query, refs, start + PAD);
        let dist2 = batch_distance(query, refs, start + 2 * PAD);
        let dist3 = batch_distance(query, refs, start + 3 * PAD);
        top.try_insert(dist0, idx);
        proof {
            lemma_scan_step(query@, refs@, dist0, idx as int, top@);
        }
        top.try_insert(dist1, idx + 1);
        proof {
            lemma_scan_step(query@, refs@, dist1, idx + 1, top@);
        }
        top.try_insert(dist2, idx + 2);
        proof {
            lemma_scan_step(query@, refs@, dist2, idx + 2, top@);
        }
        top.try_insert(dist3, idx + 3);
        proof {
            lemma_scan_step(query@, refs@, dist3, idx + 3, top@);
        }
        start = start + 4 * PAD;
        idx = idx + 4;
    }
    for t in 0..tail
        invariant
            n == refs.len() / PAD,
            n <= u32::MAX,
            tail == n % 4,
            all == neighbours(true, query@, refs@),
            idx == n - tail + t,
            start == idx * PAD,
            top@ == five_least(all.take(idx as int)),
            top.wf(),
    {
        let dist = batch_distance(query, refs, start);
        top.try_insert(dist, idx);
        proof {
            lemma_scan_step(query@, refs@, dist, idx as int, top@);
        }
        start = start + PAD;
        idx = idx + 1;
    }
    assert(all.take(n as int) =~= all);
    top
}

/// Offering the `i`-th stored vector extends the scan by one.
proof fn lemma_scan_step(
    query: Seq<i8>,
    refs: Seq<i8>,
    dist: i32,
    i: int,
    new: Seq<(i32, u32)>,
)
    requires
        0 <= i < refs.len() / PAD as nat <= u32::MAX,
        dist == squared_distance(true, query, row(refs, i), PAD as nat),
        offered(five_least(neighbours(true, query, refs).take(i)), (dist, i as u32), new),
    ensures
        new == five_least(neighbours(true, query, refs).take(i + 1)),
{
    let all = neighbours(true, query, refs);
    law_offer_keeps_five_least(all.take(i), all[i], new);
    assert(all.take(i).push(all[i]) =~= all.take(i + 1));
}

/// k-NN scan: the batched kernel where the machine has it, the plain scan otherwise.
#[must_use]
pub fn knn5(query: &[i8; PAD], refs: &[i8], avx2: bool) -> (top: Top5)
    requires
        avx2 ==> refs@.len() / PAD as nat <= u32::MAX,
    ensures
        top@ == five_least(neighbours(avx2, query@, refs@)),
        top.wf(),
{
    if avx2 {
        return knn5_avx2(query, refs);
    }
    knn5_naive_i32(query, refs)
}

/// How many of the indices carry a set label bit.
pub open spec fn marked(idx: Seq<u32>, labels: Seq<u8>) -> int
    decreases idx.len(),
{
    if idx.len() == 0 {
        0
    } else {
        marked(idx.drop_last(), labels) + (if bit_of(
            labels[idx.last() as int / 8],
            idx.last() as int % 8,
        ) {
            1int
        } else {
            0
        })
    }
}

/// The score for `k` marked neighbours out of five.
pub open spec fn score(k: int) -> Single {
    Single::of_int(k).quotient(Single::of_int(5))
}

/// The share of the five neighbours that are labelled as fraud.
#[must_use]
pub fn fraud_score(top: &Top5, labels: &[u8]) -> (s: Single)
    requires
        forall|k: int| 0 <= k < 5 ==> #[trigger] top.idx[k] / 8 < labels@.len(),
    ensures
        s == score(marked(top.idx@, labels@)),
{
    assert(top.idx@.take(5) =~= top.idx@);
    occupied_score(top, 5, labels)
}

/// Slots that a scan over `n` vectors fills.
pub open spec fn occupied(n: int) -> int {
    if n < 5 {
        n
    } else {
        5
    }
}

/// The fraud score when only the first `slots` neighbours exist: the vacant ones carry no label.
#[must_use]
pub fn occupied_score(top: &Top5, slots: usize, labels: &[u8]) -> (s: Single)
    requires
        slots <= 5,
        forall|k: int| 0 <= k < slots ==> #[trigger] top.idx[k] / 8 < labels@.len(),
    ensures
        s == score(marked(top.idx@.take(slots as int), labels@)),
{
    let mut count: u32 = 0;
    let mut k: usize = 0;
    while k < slots
        invariant
            k <= slots <= 5,
            count <= k,
            count == marked(top.idx@.take(k as int), labels@),
            forall|k: int| 0 <= k < slots ==> #[trigger] top.idx[k] / 8 < labels@.len(),
        decreases slots - k,
    {
        let i: u32 = top.idx[k];
        assert(top.idx@.take(k + 1).drop_last() =~= top.idx@.take(k as int));
        if label_bit(labels, i as usize) {
            count = count + 1;
        }
        k = k + 1;
    }
    Single::from_u32(count).div(Single::from_u32(5))
}

/// At most all of the indices are marked.
pub proof fn law_marked_bound(idx: Seq<u32>, labels: Seq<u8>)
    ensures
        0 <= marked(idx, labels) <= idx.len(),
    decreases idx.len(),
{
    if idx.len() > 0 {
        law_marked_bound(idx.drop_last(), labels);
    }
}

/// `k` fifths are a magnitude of at most one, off by at most half of `2^126` units.
proof fn lemma_score(k: int)
    requires
        0 <= k <= 5,
    ensures
        !score(k).negative(),
        score(k).magnitude() <= ONE_BITS,
        units(score(k).magnitude()) == score(k).value(),
        0 <= score(k).value() <= pow2(149),
        -(5 * pow2(126)) <= 2 * (k * pow2(149) - 5 * score(k).value()) <= 5 * pow2(126),
        k == 0 ==> score(k) == nought(),
        k == 5 ==> score(k) == one(),
{
    let p = pow2(149) as int;
    lemma_pow2_pos(149);
    lemma_pow2_pos(126);
    law_whole_exact(k);
    law_whole_exact(5);
    crate::single::law_one();
    assert(units(0) == 0);
    if k > 0 {
        crate::single::lemma_whole_magnitude(k);
        crate::single::lemma_whole_magnitude(5);
        let num = (k * p) * p;
        let den = 5 * p;
        assert(num * 1 <= p * den && num >= 0 && (k == 5 ==> p * den <= num * 1))
            by (nonlinear_arith)
            requires
                num == (k * p) * p,
                den == 5 * p,
                0 <= k <= 5,
                p > 0,
        ;
        crate::rounding::law_rounded_nearest(num, den);
        crate::single::law_rounded_self(ONE_BITS as int);
        crate::rounding::law_rounded_ordered(num, den, p, 1);
        if k == 5 {
            crate::rounding::law_rounded_ordered(p, 1, num, den);
        }
        crate::rounding::law_rounding_error(num, den, 126);
        let m = rounded(num, den);
        let u = units(m);
        let e = pow2(126) as int;
        assert(-(5 * e) <= 2 * (k * p - 5 * u) <= 5 * e) by (nonlinear_arith)
            requires
                -(den * e) <= 2 * (num - den * u) <= den * e,
                num == (k * p) * p,
                den == 5 * p,
                p > 0,
        ;
        if m > 0 {
            crate::rounding::law_units_increase(0, m);
        }
        if m < ONE_BITS {
            crate::rounding::law_units_increase(m, ONE_BITS as int);
        }
    }
}

/// The score lies in the unit interval and grows with the number of marked neighbours: none gives
/// zero, all five give one.
pub proof fn law_score_steps(a: int, b: int)
    requires
        0 <= a <= 5,
        0 <= b <= 5,
    ensures
        !score(a).nan(),
        0 <= score(a).value() <= one().value(),
        score(a).less(score(b)) <==> a < b,
        score(0) == nought(),
        score(5) == one(),
{
    lemma_score(a);
    lemma_score(b);
    lemma_score(0);
    lemma_score(5);
    crate::single::law_one();
    lemma2_to64();
    lemma_pow2_adds(23, 126);
    let p = pow2(149) as int;
    assert(p == 0x80_0000 * pow2(126));
    lemma_pow2_pos(126);
    assert((a < b ==> a * p + p <= b * p) && (b < a ==> b * p + p <= a * p)) by (nonlinear_arith)
        requires
            p > 0,
    ;
}

proof fn lemma_order_total()
    ensures
        total_ordering(neighbour_order()),
{
}

/// Inserting an entry between those that do not come after it and those that it comes before
/// keeps the order.
proof fn lemma_insert_sorted(s: Seq<(i32, u32)>, e: (i32, u32), p: int)
    requires
        sorted_by(s, neighbour_order()),
        0 <= p <= s.len(),
        p > 0 ==> !before(e, s[p - 1]),
        p < s.len() ==> before(e, s[p]),
    ensures
        sorted_by(s.insert(p, e), neighbour_order()),
        s.insert(p, e).to_multiset() == s.to_multiset().insert(e),
{
    let r = neighbour_order();
    let t = s.insert(p, e);
    assert forall|i: int, j: int| 0 <= i < j < t.len() implies #[trigger] r(t[i], t[j]) by {
        let i0 = if i < p { i } else { i - 1 };
        let j0 = if j < p { j } else { j - 1 };
        if i != p && j != p {
            assert(r(s[i0], s[j0]));
        } else if i == p {
            if j0 > p {
                assert(r(s[p], s[j0]));
            }
        } else {
            if i0 < p - 1 {
                assert(r(s[i0], s[p - 1]));
            }
        }
    }
    to_multiset_insert(s, p, e);
}

/// The first position at or after `lo` whose entry `e` comes before.
spec fn gap_from(s: Seq<(i32, u32)>, e: (i32, u32), lo: int) -> int
    decreases s.len() - lo,
{
    if 0 <= lo < s.len() && !before(e, s[lo]) {
        gap_from(s, e, lo + 1)
    } else {
        lo
    }
}

proof fn lemma_gap_from(s: Seq<(i32, u32)>, e: (i32, u32), lo: int)
    requires
        0 < lo <= s.len(),
        !before(e, s[lo - 1]),
    ensures
        lo <= gap_from(s, e, lo) <= s.len(),
        !before(e, s[gap_from(s, e, lo) - 1]),
        gap_from(s, e, lo) < s.len() ==> before(e, s[gap_from(s, e, lo)]),
    decreases s.len() - lo,
{
    if lo < s.len() && !before(e, s[lo]) {
        lemma_gap_from(s, e, lo + 1);
    }
}

/// Offering one more entry to the five least of `c` gives the five least of the longer sequence:
/// a scan that offers every candidate ends with the five nearest, whatever their order.
pub proof fn law_offer_keeps_five_least(
    c: Seq<(i32, u32)>,
    e: (i32, u32),
    new: Seq<(i32, u32)>,
)
    requires
        offered(five_least(c), e, new),
    ensures
        new == five_least(c.push(e)),
{
    let r = neighbour_order();
    let f = Seq::new(5, |k: int| vacant());
    lemma_order_total();
    let s = (c + f).sort_by(r);
    (c + f).lemma_sort_by_ensures(r);
    to_multiset_len(c + f);
    to_multiset_len(s);
    let old5 = five_least(c);
    let p = if before(e, old5[4]) {
        choose|p: int|
            {
                &&& 0 <= p <= 4
                &&& forall|j: int| p <= j < 4 ==> before(e, #[trigger] old5[j])
                &&& p > 0 ==> !before(e, old5[p - 1])
                &&& new == #[trigger] old5.take(4).insert(p, e)
            }
    } else {
        lemma_gap_from(s, e, 5);
        gap_from(s, e, 5)
    };
    let t = s.insert(p, e);
    assert(p < s.len() ==> before(e, s[p])) by {
        if p < 4 {
            assert(before(e, old5[p]));
        }
    }
    lemma_insert_sorted(s, e, p);
    let u = (c.push(e) + f).sort_by(r);
    (c.push(e) + f).lemma_sort_by_ensures(r);
    lemma_multiset_commutative(c, f);
    lemma_multiset_commutative(c.push(e), f);
    to_multiset_build(c, e);
    assert(t.to_multiset() =~= u.to_multiset());
    lemma_sorted_unique(t, u, r);
    assert(new =~= t.take(5));
}

/// Entries of a scan that holds at most 2^32 vectors: none is vacant, and no two are alike.
proof fn lemma_neighbours_distinct(wrapping: bool, query: Seq<i8>, refs: Seq<i8>)
    requires
        refs.len() / PAD as nat <= 0x1_0000_0000,
    ensures
        forall|i: int|
            0 <= i < neighbours(wrapping, query, refs).len() ==> {
                &&& #[trigger] neighbours(wrapping, query, refs)[i].1 == i
                &&& neighbours(wrapping, query, refs)[i].0 == squared_distance(
                    wrapping,
                    query,
                    row(refs, i),
                    PAD as nat,
                )
                &&& before(neighbours(wrapping, query, refs)[i], vacant())
            },
        neighbours(wrapping, query, refs).no_duplicates(),
{
    let all = neighbours(wrapping, query, refs);
    assert forall|i: int| 0 <= i < all.len() implies {
        &&& #[trigger] all[i].1 == i
        &&& all[i].0 == squared_distance(wrapping, query, row(refs, i), PAD as nat)
        &&& before(all[i], vacant())
    } by {
        lemma_squared_distance_bound(wrapping, query, row(refs, i), PAD as nat);
    }
    assert forall|i: int, j: int| 0 <= i < all.len() && 0 <= j < all.len() && i != j implies all[i]
        != all[j] by {
        assert(all[i].1 == i && all[j].1 == j);
    }
}

/// Vacant slots come last: the five least of entries that all come before the vacant one are the
/// first of the sorted entries, then vacant slots.
proof fn lemma_vacant_last(c: Seq<(i32, u32)>)
    requires
        forall|i: int| 0 <= i < c.len() ==> before(#[trigger] c[i], vacant()),
    ensures
        five_least(c) == (c.sort_by(neighbour_order()) + Seq::new(5, |k: int| vacant())).take(5),
{
    let r = neighbour_order();
    let f = Seq::new(5, |k: int| vacant());
    lemma_order_total();
    let s = c.sort_by(r);
    c.lemma_sort_by_ensures(r);
    (c + f).lemma_sort_by_ensures(r);
    lemma_multiset_commutative(c, f);
    lemma_multiset_commutative(s, f);
    assert((s + f).to_multiset() =~= (c + f).sort_by(r).to_multiset());
    assert(sorted_by(s + f, r)) by {
        assert forall|i: int, j: int| 0 <= i < j < (s + f).len() implies #[trigger] r(
            (s + f)[i],
            (s + f)[j],
        ) by {
            if j < s.len() {
                assert(r(s[i], s[j]));
            }
        }
    }
    lemma_sorted_unique(s + f, (c + f).sort_by(r), r);
}

/// The scan is an exact 5-NN search. It fills one slot per stored vector, at most five, with
/// different vectors and their squared distances, nearest first and ties by index; the other slots
/// are vacant. Every vector that it leaves out comes after all five, and none is left out of up to
/// five. Indices have 32 bits, so this holds for up to `2^32` vectors.
pub proof fn law_exact_five_nearest(
    wrapping: bool,
    query: Seq<i8>,
    refs: Seq<i8>,
    top: Seq<(i32, u32)>,
)
    requires
        refs.len() / PAD as nat <= 0x1_0000_0000,
        top == five_least(neighbours(wrapping, query, refs)),
    ensures
        top.len() == 5,
        ({
            let n = (refs.len() / PAD as nat) as int;
            &&& forall|k: int|
                0 <= k < occupied(n) ==> {
                    &&& (#[trigger] top[k]).1 < n
                    &&& top[k].0 == squared_distance(
                        wrapping,
                        query,
                        row(refs, top[k].1 as int),
                        PAD as nat,
                    )
                }
            &&& forall|k: int| occupied(n) <= k < 5 ==> #[trigger] top[k] == vacant()
            &&& forall|j: int, k: int|
                0 <= j < k < occupied(n) ==> before(#[trigger] top[j], #[trigger] top[k])
            &&& forall|i: int, k: int|
                0 <= k < occupied(n) && 0 <= i < n && (forall|m: int|
                    0 <= m < occupied(n) ==> (#[trigger] top[m]).1 != i) ==> before(
                    #[trigger] top[k],
                    #[trigger] neighbours(wrapping, query, refs)[i],
                )
            &&& n <= 5 ==> forall|i: int|
                0 <= i < n ==> top.contains(#[trigger] neighbours(wrapping, query, refs)[i])
        }),
{
    let r = neighbour_order();
    let c = neighbours(wrapping, query, refs);
    let n = (refs.len() / PAD as nat) as int;
    let m = occupied(n);
    lemma_neighbours_distinct(wrapping, query, refs);
    lemma_vacant_last(c);
    lemma_order_total();
    let s = c.sort_by(r);
    c.lemma_sort_by_ensures(r);
    to_multiset_len(c);
    to_multiset_len(s);
    assert(s.len() == n);
    assert forall|k: int| 0 <= k < m implies #[trigger] top[k] == s[k] by {}
    c.lemma_multiset_has_no_duplicates();
    s.lemma_multiset_has_no_duplicates_conv();
    assert forall|k: int| 0 <= k < m implies c.contains(#[trigger] top[k]) by {
        assert(s.contains(s[k]));
    }
    assert forall|j: int, k: int| 0 <= j < k < m implies before(
        #[trigger] top[j],
        #[trigger] top[k],
    ) by {
        assert(r(s[j], s[k]));
    }
    assert forall|i: int| 0 <= i < n implies s.contains(#[trigger] c[i]) by {
        assert(c.contains(c[i]));
        broadcast use vstd::seq_lib::group_to_multiset_ensures;
        assert(c.to_multiset().count(c[i]) > 0);
    }
    assert forall|i: int, k: int|
        0 <= k < m && 0 <= i < n && (forall|h: int| 0 <= h < m ==> (#[trigger] top[h]).1 != i)
        implies before(#[trigger] top[k], #[trigger] c[i]) by {
        assert(s.contains(c[i]));
        let q = choose|q: int| 0 <= q < s.len() && s[q] == c[i];
        if q < m {
            assert(top[q].1 != i);
        }
        assert(r(s[k], s[q]));
    }
    if n <= 5 {
        assert forall|i: int| 0 <= i < n implies top.contains(#[trigger] c[i]) by {
            assert(s.contains(c[i]));
            let q = choose|q: int| 0 <= q < s.len() && s[q] == c[i];
            assert(top[q] == c[i]);
        }
    }
}

/// Every lane holds a quantized value: the sentinel or a percentage.
pub open spec fn all_quantized(s: Seq<i8>) -> bool {
    forall|i: int| 0 <= i < s.len() ==> -1 <= #[trigger] s[i] <= 100
}

/// Lanes in which two vectors agree add nothing to their distance; so the zeroed padding leaves the
/// distance over the fourteen dimensions.
pub proof fn law_padding_adds_nothing(wrapping: bool, q: Seq<i8>, r: Seq<i8>)
    requires
        q.len() == PAD,
        r.len() == PAD,
        forall|k: int| DIMS <= k < PAD ==> #[trigger] q[k] == r[k],
    ensures
        squared_distance(wrapping, q, r, PAD as nat) == squared_distance(
            wrapping,
            q,
            r,
            DIMS as nat,
        ),
{
    reveal_with_fuel(squared_distance, 3);
    let d14 = lane_diff(wrapping, q[14], r[14]);
    let d15 = lane_diff(wrapping, q[15], r[15]);
    assert(d14 * d14 == 0 && d15 * d15 == 0) by (nonlinear_arith)
        requires
            d14 == 0,
            d15 == 0,
    ;
}

/// The squared distance of quantized vectors is at most 101 squared per lane: below `2^18` over
/// the fourteen dimensions.
pub proof fn law_quantized_distance_bound(wrapping: bool, q: Seq<i8>, r: Seq<i8>, n: nat)
    requires
        n <= q.len(),
        n <= r.len(),
        all_quantized(q),
        all_quantized(r),
    ensures
        0 <= squared_distance(wrapping, q, r, n) <= 10_201 * n,
        n <= DIMS ==> squared_distance(wrapping, q, r, n) < 0x4_0000,
    decreases n,
{
    if n > 0 {
        law_quantized_distance_bound(wrapping, q, r, (n - 1) as nat);
        let d = lane_diff(wrapping, q[n - 1], r[n - 1]);
        assert(-101 <= d <= 101);
        assert(0 <= d * d <= 10_201) by (nonlinear_arith)
            requires
                -101 <= d <= 101,
        ;
    }
}

/// On quantized vectors the batched kernel and the plain scan see the same distances, so they
/// return the same neighbours.
pub proof fn law_kernels_agree(query: Seq<i8>, refs: Seq<i8>)
    requires
        query.len() == PAD,
        all_quantized(query),
        all_quantized(refs),
    ensures
        neighbours(true, query, refs) == neighbours(false, query, refs),
        five_least(neighbours(true, query, refs)) == five_least(neighbours(false, query, refs)),
{
    assert forall|i: int| 0 <= i < refs.len() / PAD as nat implies squared_distance(
        true,
        query,
        #[trigger] row(refs, i),
        PAD as nat,
    ) == squared_distance(false, query, row(refs, i), PAD as nat) by {
        assert(i * PAD + PAD <= refs.len()) by (nonlinear_arith)
            requires
                i < refs.len() / PAD as nat,
                PAD == 16,
        ;
        assert(0 <= i * PAD) by (nonlinear_arith)
            requires
                i >= 0,
                PAD == 16,
        ;
        assert forall|d: int| 0 <= d < PAD implies -1 <= #[trigger] row(refs, i)[d] <= 100 by {
            assert(row(refs, i)[d] == refs[i * PAD + d]);
        }
        lemma_same_distance(query, row(refs, i), PAD as nat);
    }
    assert(neighbours(true, query, refs) =~= neighbours(false, query, refs));
}

proof fn lemma_same_distance(q: Seq<i8>, r: Seq<i8>, n: nat)
    requires
        n <= q.len(),
        n <= r.len(),
        all_quantized(q),
        all_quantized(r),
    ensures
        squared_distance(true, q, r, n) == squared_distance(false, q, r, n),
    decreases n,
{
    if n > 0 {
        lemma_same_distance(q, r, (n - 1) as nat);
    }
}

/// Sorting leaves a constant run of vacant entries as it is.
proof fn lemma_sorted_unchanged(f: Seq<(i32, u32)>)
    requires
        f.len() == 5,
        forall|k: int| 0 <= k < 5 ==> #[trigger] f[k] == vacant(),
    ensures
        f.sort_by(neighbour_order()).take(5) == f,
{
    lemma_order_total();
    f.lemma_sort_by_ensures(neighbour_order());
    lemma_sorted_unique(f, f.sort_by(neighbour_order()), neighbour_order());
    assert(f.take(5) =~= f);
}

} // verus!
