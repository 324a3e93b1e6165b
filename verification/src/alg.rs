use vstd::prelude::*;

use crate::image::{lemma_row_major_bound, lemma_row_major_injective, offset, Image};

verus! {

/// The sum of a sample sequence.
pub open spec fn sum_of(s: Seq<i64>) -> int
    decreases s.len(),
{
    if s.len() == 0 {
        0
    } else {
        sum_of(s.drop_last()) + s.last()
    }
}

/// The sum of squares of a sample sequence.
pub open spec fn sum_sq_of(s: Seq<i64>) -> int
    decreases s.len(),
{
    if s.len() == 0 {
        0
    } else {
        sum_sq_of(s.drop_last()) + s.last() * s.last()
    }
}

/// The second pass of the classical two-pass variance computation, scaled
/// by the count to stay in integers: the sum of `(n*x - s)^2` over the
/// samples `x`.  With `s` the exact sum and `n` the count, this equals
/// `n^2` times the sum of squared deviations from the mean.
pub open spec fn scaled_ssd_of(seq: Seq<i64>, s: int, n: int) -> int
    decreases seq.len(),
{
    if seq.len() == 0 {
        0
    } else {
        scaled_ssd_of(seq.drop_last(), s, n) + (n * seq.last() - s) * (n * seq.last() - s)
    }
}

/// Exact moments of a sample sequence, gathered in a single pass: the
/// count, the sum, and the sum of squares.  The mean is `sum / count` and
/// the population variance `(count * sum_sq - sum^2) / count^2`, both exact
/// rationals.
pub struct Stats {
    pub count: usize,
    pub sum: i128,
    pub sum_sq: i128,
}

impl Stats {
    /// The numerator of the population variance over the common
    /// denominator `count^2`.
    pub open spec fn var_num(self) -> int {
        self.count * self.sum_sq - self.sum * self.sum
    }

    /// These moments belong to the sample sequence `s`.
    pub open spec fn matches(self, s: Seq<i64>) -> bool {
        self.count == s.len() && self.sum == sum_of(s) && self.sum_sq == sum_sq_of(s)
    }
}

proof fn lemma_moment_bounds(s: Seq<i64>, b: int)
    requires
        0 <= b,
        forall|i: int| 0 <= i < s.len() ==> -b <= #[trigger] s[i] <= b,
    ensures
        -(s.len() * b) <= sum_of(s) <= s.len() * b,
        0 <= sum_sq_of(s) <= s.len() * (b * b),
    decreases s.len(),
{
    if s.len() > 0 {
        let t = s.drop_last();
        lemma_moment_bounds(t, b);
        assert(-b <= s.last() <= b);
        assert(s.last() * s.last() <= b * b && s.last() * s.last() >= 0) by (nonlinear_arith)
            requires
                -b <= s.last() <= b,
        ;
        assert((s.len() - 1) * b + b == s.len() * b) by (nonlinear_arith);
        assert((s.len() - 1) * (b * b) + b * b == s.len() * (b * b)) by (nonlinear_arith);
    }
}

/// One pass over the samples computes their exact count, sum and sum of
/// squares; no rounding occurs at any point.
pub fn mean_stdev(seq: &Vec<i64>) -> (r: Stats)
    requires
        seq@.len() <= 0x1000000,
        forall|i: int| 0 <= i < seq@.len() ==> -0x80000000 <= #[trigger] seq@[i] <= 0x80000000,
    ensures
        r.matches(seq@),
{
    let ghost b: int = 0x80000000;
    let n = seq.len();
    let mut count: usize = 0;
    let mut sum: i128 = 0;
    let mut sum_sq: i128 = 0;
    let mut i: usize = 0;
    while i < n
        invariant
            i <= n,
            n == seq@.len(),
            n <= 0x1000000,
            forall|k: int| 0 <= k < seq@.len() ==> -b <= #[trigger] seq@[k] <= b,
            b == 0x80000000,
            count == i,
            sum == sum_of(seq@.subrange(0, i as int)),
            sum_sq == sum_sq_of(seq@.subrange(0, i as int)),
        decreases n - i,
    {
        let ghost pre = seq@.subrange(0, i as int);
        proof {
            lemma_moment_bounds(pre, b);
            assert(pre.len() * b <= 0x1000000 * b) by (nonlinear_arith)
                requires
                    pre.len() <= 0x1000000,
                    b == 0x80000000,
            ;
            assert(pre.len() * (b * b) <= 0x1000000 * (b * b)) by (nonlinear_arith)
                requires
                    pre.len() <= 0x1000000,
                    b == 0x80000000,
            ;
        }
        let x = seq[i];
        let xi = x as i128;
        proof {
            assert(xi * xi <= b * b && 0 <= xi * xi) by (nonlinear_arith)
                requires
                    -b <= xi <= b,
            ;
            assert(seq@.subrange(0, i + 1).drop_last() =~= pre);
        }
        count = count + 1;
        sum = sum + xi;
        sum_sq = sum_sq + xi * xi;
        i = i + 1;
    }
    proof {
        assert(seq@.subrange(0, n as int) =~= seq@);
    }
    Stats { count, sum, sum_sq }
}

/// The exact sum and count of the samples: the first pass of the two-pass
/// mean computation.  The exact mean is the ratio of the two.
pub fn mean(seq: &Vec<i64>) -> (r: (i128, usize))
    requires
        seq@.len() <= 0x1000000,
        forall|i: int| 0 <= i < seq@.len() ==> -0x80000000 <= #[trigger] seq@[i] <= 0x80000000,
    ensures
        r.0 == sum_of(seq@),
        r.1 == seq@.len(),
{
    let s = mean_stdev(seq);
    (s.sum, s.count)
}

proof fn lemma_scaled_ssd_bounds(seq: Seq<i64>, s: int, n: int, t: int)
    requires
        0 <= t,
        forall|i: int| 0 <= i < seq.len() ==> -t <= n * #[trigger] seq[i] - s <= t,
    ensures
        0 <= scaled_ssd_of(seq, s, n) <= seq.len() * (t * t),
    decreases seq.len(),
{
    if seq.len() > 0 {
        lemma_scaled_ssd_bounds(seq.drop_last(), s, n, t);
        let d = n * seq.last() - s;
        assert(0 <= d * d <= t * t) by (nonlinear_arith)
            requires
                -t <= d <= t,
        ;
        assert((seq.len() - 1) * (t * t) + t * t == seq.len() * (t * t)) by (nonlinear_arith);
    }
}

/// The second pass of the two-pass variance computation, exactly: the sum
/// of `(count * x - sum)^2` over the samples, with `mean` the exact
/// `(sum, count)` pair of the first pass.  Dividing by `count^3` gives the
/// population variance; the standard deviation is its square root.
pub fn stdev(mean: (i128, usize), seq: &Vec<i64>) -> (d: i128)
    requires
        mean.0 == sum_of(seq@),
        mean.1 == seq@.len(),
        seq@.len() <= 0x1000000,
        forall|i: int| 0 <= i < seq@.len() ==> -0x10000 <= #[trigger] seq@[i] <= 0x10000,
    ensures
        d == scaled_ssd_of(seq@, sum_of(seq@), seq@.len() as int),
{
    let ghost gs = sum_of(seq@);
    let ghost gn = seq@.len() as int;
    let ghost t: int = 0x2000000000000;
    proof {
        lemma_moment_bounds(seq@, 0x10000);
        assert(seq@.len() * 0x10000 <= 0x10000000000) by (nonlinear_arith)
            requires
                seq@.len() <= 0x1000000,
        ;
        assert forall|i: int| 0 <= i < seq@.len() implies -t <= gn * #[trigger] seq@[i] - gs
            <= t by {
            assert(-0x10000000000 <= gn * seq@[i] <= 0x10000000000) by (nonlinear_arith)
                requires
                    0 <= gn <= 0x1000000,
                    -0x10000 <= seq@[i] <= 0x10000,
            ;
        }
    }
    let n = seq.len();
    let sum = mean.0;
    let mut d: i128 = 0;
    let mut i: usize = 0;
    while i < n
        invariant
            i <= n,
            n == seq@.len(),
            n <= 0x1000000,
            sum == gs,
            gn == n as int,
            t == 0x2000000000000,
            -0x10000000000 <= gs <= 0x10000000000,
            forall|k: int| 0 <= k < seq@.len() ==> -0x10000 <= #[trigger] seq@[k] <= 0x10000,
            forall|k: int| 0 <= k < seq@.len() ==> -t <= gn * #[trigger] seq@[k] - gs <= t,
            d == scaled_ssd_of(seq@.subrange(0, i as int), gs, gn),
        decreases n - i,
    {
        let ghost pre = seq@.subrange(0, i as int);
        proof {
            lemma_scaled_ssd_bounds(pre, gs, gn, t);
            assert(pre.len() * (t * t) <= 0x1000000 * (t * t)) by (nonlinear_arith)
                requires
                    pre.len() <= 0x1000000,
            ;
        }
        let x = seq[i] as i128;
        proof {
            assert(-0x10000000000 <= (n as int) * x <= 0x10000000000) by (nonlinear_arith)
                requires
                    0 <= n <= 0x1000000,
                    -0x10000 <= x <= 0x10000,
            ;
        }
        let term = (n as i128) * x - sum;
        proof {
            assert(0 <= term * term <= t * t) by (nonlinear_arith)
                requires
                    -t <= term <= t,
            ;
            assert(seq@.subrange(0, i + 1).drop_last() =~= pre);
        }
        d = d + term * term;
        i = i + 1;
    }
    proof {
        assert(seq@.subrange(0, n as int) =~= seq@);
    }
    d
}

proof fn lemma_scaled_ssd_expand(seq: Seq<i64>, s: int, n: int)
    ensures
        scaled_ssd_of(seq, s, n) == n * n * sum_sq_of(seq) - 2 * s * n * sum_of(seq) + seq.len()
            * (s * s),
    decreases seq.len(),
{
    if seq.len() > 0 {
        lemma_scaled_ssd_expand(seq.drop_last(), s, n);
        let x = seq.last() as int;
        assert((n * x - s) * (n * x - s) == n * n * (x * x) - 2 * s * n * x + s * s)
            by (nonlinear_arith);
        assert(n * n * (sum_sq_of(seq.drop_last()) + x * x) == n * n * sum_sq_of(seq.drop_last())
            + n * n * (x * x)) by (nonlinear_arith);
        assert(2 * s * n * (sum_of(seq.drop_last()) + x) == 2 * s * n * sum_of(seq.drop_last()) + 2
            * s * n * x) by (nonlinear_arith);
        assert((seq.len() - 1) * (s * s) + s * s == seq.len() * (s * s)) by (nonlinear_arith);
    }
}

proof fn lemma_scaled_ssd_nonneg(seq: Seq<i64>, s: int, n: int)
    ensures
        scaled_ssd_of(seq, s, n) >= 0,
    decreases seq.len(),
{
    if seq.len() > 0 {
        lemma_scaled_ssd_nonneg(seq.drop_last(), s, n);
        let d = n * seq.last() - s;
        assert(d * d >= 0) by (nonlinear_arith);
    }
}

/// Law: the moments gathered by the single-pass `mean_stdev` determine the
/// two-pass mean and variance exactly, with no error at all.  The second
/// pass of the two-pass computation, `scaled_ssd_of`, equals
/// `count * (count * sum_sq - sum^2)` computed from the single-pass
/// moments; so the two variances agree exactly, and the variance numerator
/// `count * sum_sq - sum^2` is never negative.
pub proof fn lemma_mean_stdev_matches_two_pass(s: Seq<i64>)
    ensures
        scaled_ssd_of(s, sum_of(s), s.len() as int) == s.len() * (s.len() * sum_sq_of(s) - sum_of(
            s,
        ) * sum_of(s)),
        s.len() * sum_sq_of(s) - sum_of(s) * sum_of(s) >= 0,
{
    let n = s.len() as int;
    let sm = sum_of(s);
    let q = sum_sq_of(s);
    lemma_scaled_ssd_expand(s, sm, n);
    lemma_scaled_ssd_nonneg(s, sm, n);
    assert(n * n * q - 2 * sm * n * sm + n * (sm * sm) == n * (n * q - sm * sm))
        by (nonlinear_arith);
    if n > 0 {
        assert(n * (n * q - sm * sm) >= 0 ==> n * q - sm * sm >= 0) by (nonlinear_arith)
            requires
                n > 0,
        ;
    } else {
        assert(s =~= Seq::<i64>::empty());
    }
}

/// The numerator of the population variance of a sample sequence over the
/// common denominator `len^2`: `len * sum_sq - sum^2`.
pub open spec fn var_num_of(s: Seq<i64>) -> int {
    s.len() * sum_sq_of(s) - sum_of(s) * sum_of(s)
}

/// The detection floor of the star detector: the mean plus three standard
/// deviations, rounded down to an integer.  Written over integers:
/// `(sum + sqrt(9 * var_num)) / len`, since `3 * stdev = sqrt(9 * var_num) / len`.
pub open spec fn floor_of(s: Seq<i64>) -> int {
    (sum_of(s) + sqrt_floor((9 * var_num_of(s)) as nat)) / (s.len() as int)
}

/// The clipped background estimate added back per pixel by the star
/// detector: three standard deviations, rounded down.
pub open spec fn clip_of(s: Seq<i64>) -> int {
    (sqrt_floor((9 * var_num_of(s)) as nat) as int) / (s.len() as int)
}

/// The mask of samples strictly above `floor`.
pub open spec fn above_mask(data: Seq<i64>, floor: int) -> Seq<bool> {
    Seq::new(data.len(), |i: int| data[i] > floor)
}

/// The sum of samples within `[lo, hi]` lies within `[len*lo, len*hi]`.
pub proof fn lemma_sample_range(s: Seq<i64>, lo: int, hi: int)
    requires
        forall|i: int| 0 <= i < s.len() ==> lo <= #[trigger] s[i] <= hi,
    ensures
        s.len() * lo <= sum_of(s) <= s.len() * hi,
    decreases s.len(),
{
    if s.len() > 0 {
        lemma_sample_range(s.drop_last(), lo, hi);
        assert((s.len() - 1) * lo + lo == s.len() * lo) by (nonlinear_arith);
        assert((s.len() - 1) * hi + hi == s.len() * hi) by (nonlinear_arith);
    }
}

/// The sum of squares of samples within `[-b, b]` lies within
/// `[0, len * b^2]`.
pub proof fn lemma_sample_sq_range(s: Seq<i64>, b: int)
    requires
        0 <= b,
        forall|i: int| 0 <= i < s.len() ==> -b <= #[trigger] s[i] <= b,
    ensures
        0 <= sum_sq_of(s) <= s.len() * (b * b),
{
    lemma_moment_bounds(s, b);
}

/// The floor of the square root of a natural number.
pub open spec fn sqrt_floor(x: nat) -> nat
    decreases x,
{
    if x == 0 {
        0
    } else {
        let r = sqrt_floor((x - 1) as nat);
        if (r + 1) * (r + 1) <= x {
            r + 1
        } else {
            r
        }
    }
}

proof fn lemma_sqrt_floor_correct(x: nat)
    ensures
        sqrt_floor(x) * sqrt_floor(x) <= x,
        x < (sqrt_floor(x) + 1) * (sqrt_floor(x) + 1),
    decreases x,
{
    if x > 0 {
        lemma_sqrt_floor_correct((x - 1) as nat);
        let r = sqrt_floor((x - 1) as nat);
        if (r + 1) * (r + 1) <= x {
            assert(sqrt_floor(x) == r + 1);
            assert(x < (sqrt_floor(x) + 1) * (sqrt_floor(x) + 1)) by (nonlinear_arith)
                requires
                    x >= 1,
                    x - 1 < (r + 1) * (r + 1),
                    sqrt_floor(x) == r + 1,
            ;
        } else {
            assert(sqrt_floor(x) == r);
            assert(x < (sqrt_floor(x) + 1) * (sqrt_floor(x) + 1)) by (nonlinear_arith)
                requires
                    !((r + 1) * (r + 1) <= x),
                    sqrt_floor(x) == r,
            ;
        }
    } else {
        assert(sqrt_floor(x) == 0);
        assert(x < (sqrt_floor(x) + 1) * (sqrt_floor(x) + 1)) by (nonlinear_arith)
            requires
                x == 0,
                sqrt_floor(x) == 0,
        ;
    }
}

/// An upper bound for the square root: if `x < (b+1)^2` then
/// `sqrt_floor(x) <= b`.
pub proof fn lemma_sqrt_floor_bound(x: nat, b: nat)
    requires
        x < (b + 1) * (b + 1),
    ensures
        sqrt_floor(x) <= b,
{
    lemma_sqrt_floor_correct(x);
    let r = sqrt_floor(x);
    assert(r <= b) by (nonlinear_arith)
        requires
            r * r <= x,
            x < (b + 1) * (b + 1),
    ;
}

proof fn lemma_sqrt_floor_unique(x: nat, a: nat)
    requires
        a * a <= x,
        x < (a + 1) * (a + 1),
    ensures
        a == sqrt_floor(x),
{
    lemma_sqrt_floor_correct(x);
    let b = sqrt_floor(x);
    assert(a == b) by (nonlinear_arith)
        requires
            a * a <= x < (a + 1) * (a + 1),
            b * b <= x < (b + 1) * (b + 1),
    ;
}

/// The floor of the square root, by binary search.
pub fn isqrt(x: u128) -> (r: u64)
    ensures
        r as nat == sqrt_floor(x as nat),
{
    let mut lo: u128 = 0;
    let mut hi: u128 = 0x10000000000000000;
    proof {
        assert((0x10000000000000000int) * 0x10000000000000000 > x) by (nonlinear_arith)
            requires
                x <= u128::MAX,
        ;
    }
    while hi - lo > 1
        invariant
            lo < hi,
            hi <= 0x10000000000000000,
            (lo as int) * (lo as int) <= x,
            (hi as int) * (hi as int) > x,
        decreases hi - lo,
    {
        let mid = lo + (hi - lo) / 2;
        proof {
            assert(mid < hi);
            assert((mid as int) * (mid as int) < 0x100000000000000000000000000000000)
                by (nonlinear_arith)
                requires
                    mid < 0x10000000000000000,
            ;
        }
        if mid * mid <= x {
            lo = mid;
        } else {
            hi = mid;
        }
    }
    proof {
        lemma_sqrt_floor_unique(x as nat, lo as nat);
    }
    lo as u64
}

/// Coordinate `c` lies inside a grid of dimensions `size`.
pub open spec fn in_grid(size: (usize, usize), c: (usize, usize)) -> bool {
    c.0 < size.0 && c.1 < size.1
}

/// The row-major linear index of `c`.
pub open spec fn lin(size: (usize, usize), c: (usize, usize)) -> int {
    c.1 * size.0 + c.0
}

/// `a` and `b` are distinct axis-aligned (4-connected) neighbours.
pub open spec fn adj4(a: (usize, usize), b: (usize, usize)) -> bool {
    ||| (a.0 == b.0 && (a.1 + 1 == b.1 || b.1 + 1 == a.1))
    ||| (a.1 == b.1 && (a.0 + 1 == b.0 || b.0 + 1 == a.0))
}

/// The mask holds at coordinate `c`.
pub open spec fn mask_at(size: (usize, usize), m: Seq<bool>, c: (usize, usize)) -> bool {
    m[lin(size, c)]
}

/// The pixel at position `j` of the sequence neighbours some pixel at an
/// earlier position.
pub open spec fn has_earlier_neighbour(c: Seq<(usize, usize)>, j: int) -> bool {
    exists|k: int| 0 <= k < j && adj4(c[j], #[trigger] c[k])
}

/// Every pixel after the first neighbours an earlier pixel of the sequence,
/// so the whole sequence is one 4-connected region.
pub open spec fn chain_connected(c: Seq<(usize, usize)>) -> bool {
    forall|j: int| 1 <= j < c.len() ==> #[trigger] has_earlier_neighbour(c, j)
}

/// `c` is a non-empty 4-connected region of mask-true in-range pixels.
pub open spec fn component_ok(size: (usize, usize), m: Seq<bool>, c: Seq<(usize, usize)>) -> bool {
    &&& c.len() > 0
    &&& forall|j: int|
        0 <= j < c.len() ==> in_grid(size, #[trigger] c[j]) && mask_at(size, m, c[j])
    &&& chain_connected(c)
}

/// `cs` partitions the mask-true pixels of an `size`-dimensioned mask `m`
/// into its maximal 4-connected regions: each listed region is 4-connected
/// and mask-true, no pixel is listed twice anywhere, every mask-true pixel
/// is listed somewhere, and every mask-true neighbour of a region's pixel
/// belongs to that same region.  Each region starts with its row-major
/// least pixel, and regions are ordered by those pixels: the partition and
/// its order are thereby determined by the mask alone.
pub open spec fn is_components(
    size: (usize, usize),
    m: Seq<bool>,
    cs: Seq<Seq<(usize, usize)>>,
) -> bool {
    &&& forall|i: int| 0 <= i < cs.len() ==> component_ok(size, m, #[trigger] cs[i])
    &&& forall|i1: int, j1: int, i2: int, j2: int|
        0 <= i1 < cs.len() && 0 <= j1 < cs[i1].len() && 0 <= i2 < cs.len() && 0 <= j2
            < cs[i2].len() && #[trigger] cs[i1][j1] == #[trigger] cs[i2][j2] ==> i1 == i2 && j1
            == j2
    &&& forall|c: (usize, usize)|
        in_grid(size, c) && #[trigger] mask_at(size, m, c) ==> exists|i: int, j: int|
            0 <= i < cs.len() && 0 <= j < cs[i].len() && #[trigger] cs[i][j] == c
    &&& forall|i: int, j: int, q: (usize, usize)|
        0 <= i < cs.len() && 0 <= j < cs[i].len() && #[trigger] adj4(cs[i][j], q) && in_grid(
            size,
            q,
        ) && mask_at(size, m, q) ==> exists|j2: int| 0 <= j2 < cs[i].len() && #[trigger] cs[i][j2]
            == q
    &&& forall|i: int, j: int|
        0 <= i < cs.len() && 1 <= j < cs[i].len() ==> lin(size, cs[i][0]) < lin(
            size,
            #[trigger] cs[i][j],
        )
    &&& forall|i1: int, i2: int|
        0 <= i1 < i2 < cs.len() ==> lin(size, #[trigger] cs[i1][0]) < lin(
            size,
            #[trigger] cs[i2][0],
        )
}

/// How many entries of a boolean sequence are set.
pub open spec fn count_true(s: Seq<bool>) -> int
    decreases s.len(),
{
    if s.len() == 0 {
        0
    } else {
        count_true(s.drop_last()) + if s.last() {
            1int
        } else {
            0int
        }
    }
}

proof fn lemma_count_true_le_len(s: Seq<bool>)
    ensures
        0 <= count_true(s) <= s.len(),
    decreases s.len(),
{
    if s.len() > 0 {
        lemma_count_true_le_len(s.drop_last());
    }
}

/// The state carried by a region traversal: `set` is the region grown so
/// far, `next` its frontier, `v` the visited mask, and `v0` the visited mask
/// from before the traversal started.
pub open spec fn region_inv(
    size: (usize, usize),
    m: Seq<bool>,
    v0: Seq<bool>,
    v: Seq<bool>,
    set: Seq<(usize, usize)>,
    next: Seq<(usize, usize)>,
) -> bool {
    &&& m.len() == size.0 * size.1
    &&& v.len() == m.len()
    &&& v0.len() == m.len()
    &&& set.len() >= 1
    &&& forall|j: int|
        0 <= j < set.len() ==> in_grid(size, #[trigger] set[j]) && mask_at(size, m, set[j])
    &&& chain_connected(set)
    &&& forall|j: int, k: int| 0 <= j < k < set.len() ==> set[j] != set[k]
    &&& forall|j: int| 0 <= j < set.len() ==> !v0[lin(size, #[trigger] set[j])]
    &&& forall|idx: int|
        0 <= idx < v.len() ==> (#[trigger] v[idx] <==> v0[idx] || exists|j: int|
            0 <= j < set.len() && lin(size, #[trigger] set[j]) == idx)
    &&& forall|j: int| 0 <= j < next.len() ==> set.contains(#[trigger] next[j])
}

/// Growing a region by one pixel that neighbours a listed pixel, is
/// mask-true, in range and unvisited preserves the traversal invariant.
proof fn lemma_region_push(
    size: (usize, usize),
    m: Seq<bool>,
    v0: Seq<bool>,
    v: Seq<bool>,
    set: Seq<(usize, usize)>,
    next: Seq<(usize, usize)>,
    coord: (usize, usize),
    n: (usize, usize),
)
    requires
        region_inv(size, m, v0, v, set, next),
        set.contains(coord),
        in_grid(size, n),
        mask_at(size, m, n),
        !v[lin(size, n)],
        adj4(n, coord),
    ensures
        region_inv(size, m, v0, v.update(lin(size, n), true), set.push(n), next.push(n)),
{
    let s_new = set.push(n);
    let v_new = v.update(lin(size, n), true);
    lemma_row_major_bound(n.0 as int, n.1 as int, size.0 as int, size.1 as int);
    // The new pixel neighbours `coord`, which sits at an earlier index, so
    // the region stays chain-connected.
    assert(chain_connected(s_new)) by {
        assert forall|j: int| 1 <= j < s_new.len() implies #[trigger] has_earlier_neighbour(
            s_new,
            j,
        ) by {
            if j < s_new.len() - 1 {
                assert(has_earlier_neighbour(set, j));
                let k = choose|k: int| 0 <= k < j && adj4(set[j], #[trigger] set[k]);
                assert(0 <= k < j && adj4(s_new[j], s_new[k]));
            } else {
                let k = choose|k: int| 0 <= k < set.len() && set[k] == coord;
                assert(0 <= k < j && adj4(s_new[j], s_new[k]));
            }
        }
    }
    // The new pixel was unvisited while every listed pixel is visited, so it
    // is distinct from all of them.
    assert forall|j: int, k: int| 0 <= j < k < s_new.len() implies s_new[j] != s_new[k] by {
        if k == s_new.len() - 1 {
            lemma_row_major_bound(set[j].0 as int, set[j].1 as int, size.0 as int, size.1 as int);
            assert(v[lin(size, set[j])]);
        }
    }
    // The visited mask still marks exactly the region pixels plus those
    // visited before the traversal started.
    assert forall|idx: int| 0 <= idx < v_new.len() implies (#[trigger] v_new[idx] <==> v0[idx]
        || exists|j: int| 0 <= j < s_new.len() && lin(size, #[trigger] s_new[j]) == idx) by {
        if idx == lin(size, n) {
            assert(lin(size, s_new[s_new.len() - 1]) == idx);
        } else {
            assert(v_new[idx] == v[idx]);
            if v[idx] && !v0[idx] {
                let j = choose|j: int| 0 <= j < set.len() && lin(size, #[trigger] set[j]) == idx;
                assert(0 <= j < s_new.len() && lin(size, s_new[j]) == idx);
            }
            if exists|j: int| 0 <= j < s_new.len() && lin(size, #[trigger] s_new[j]) == idx {
                let j = choose|j: int| 0 <= j < s_new.len() && lin(size, #[trigger] s_new[j]) == idx;
                assert(j < s_new.len() - 1);
                assert(lin(size, set[j]) == idx);
            }
        }
    }
    // The frontier still lists only region pixels.
    assert forall|j: int| 0 <= j < next.push(n).len() implies set.push(n).contains(
        #[trigger] next.push(n)[j],
    ) by {
        if j < next.len() {
            assert(set.contains(next[j]));
            let k = choose|k: int| 0 <= k < set.len() && set[k] == next[j];
            assert(set.push(n)[k] == next.push(n)[j]);
        } else {
            assert(set.push(n)[set.len() as int] == next.push(n)[j]);
        }
    }
    // Every region pixel is in range, mask-true, and was unvisited before
    // the traversal started.
    assert(!v0[lin(size, n)]);
    assert forall|j: int| 0 <= j < s_new.len() implies in_grid(size, #[trigger] s_new[j])
        && mask_at(size, m, s_new[j]) && !v0[lin(size, s_new[j])] by {
        if j < set.len() {
            assert(in_grid(size, set[j]) && mask_at(size, m, set[j]) && !v0[lin(size, set[j])]);
        } else {
            assert(s_new[j] == n);
        }
    }
}

/// Examines the pixel one step from `coord`; when it is in range, mask-true
/// and unvisited, marks it visited and adds it to the region and frontier.
fn flood_step(
    mask: &Image<bool>,
    visited: &mut Image<bool>,
    set: &mut Vec<(usize, usize)>,
    next: &mut Vec<(usize, usize)>,
    coord: (usize, usize),
    dx: isize,
    dy: isize,
    Ghost(v0): Ghost<Seq<bool>>,
)
    requires
        mask.wf(),
        old(visited).wf(),
        old(visited).size == mask.size,
        in_grid(mask.size, coord),
        old(set)@.contains(coord),
        (dx == 0 && (dy == 1 || dy == -1)) || (dy == 0 && (dx == 1 || dx == -1)),
        region_inv(mask.size, mask.data@, v0, old(visited).data@, old(set)@, old(next)@),
    ensures
        final(visited).wf(),
        final(visited).size == mask.size,
        region_inv(mask.size, mask.data@, v0, final(visited).data@, final(set)@, final(next)@),
        final(set)@.len() >= old(set)@.len(),
        forall|j: int| 0 <= j < old(set)@.len() ==> final(set)@[j] == old(set)@[j],
        final(next)@.len() >= old(next)@.len(),
        forall|j: int| 0 <= j < old(next)@.len() ==> final(next)@[j] == old(next)@[j],
        forall|idx: int|
            0 <= idx < old(visited).data@.len() && old(visited).data@[idx]
                ==> final(visited).data@[idx],
        final(next)@.len() > old(next)@.len() ==> count_true(final(visited).data@) == count_true(
            old(visited).data@,
        ) + 1,
        final(next)@.len() > old(next)@.len() ==> final(set)@ == old(set)@.push(
            final(set)@.last(),
        ) && final(next)@ == old(next)@.push(final(set)@.last()),
        final(next)@.len() == old(next)@.len() ==> final(next)@ == old(next)@
            && final(visited).data@ == old(visited).data@ && final(set)@ == old(set)@,
        // Whatever happened, the examined pixel is visited afterwards when
        // it is in range and mask-true.
        ({
            let nx = coord.0 + dx;
            let ny = coord.1 + dy;
            (0 <= nx && nx < mask.size.0 && 0 <= ny && ny < mask.size.1 && mask.data@[ny
                * mask.size.0 + nx]) ==> final(visited).data@[ny * mask.size.0 + nx]
        }),
{
    if let Some(n) = offset(coord, (dx, dy), mask.size) {
        let vis = visited.get(n.0, n.1);
        let is_set = mask.get(n.0, n.1);
        if !vis && is_set {
            proof {
                lemma_row_major_bound(
                    n.0 as int,
                    n.1 as int,
                    mask.size.0 as int,
                    mask.size.1 as int,
                );
                lemma_count_true_update(visited.data@, lin(mask.size, n));
                lemma_region_push(
                    mask.size,
                    mask.data@,
                    v0,
                    visited.data@,
                    set@,
                    next@,
                    coord,
                    n,
                );
            }
            visited.set(n.0, n.1, true);
            next.push(n);
            set.push(n);
        }
    }
}

/// Grows the traversal region out from `seed`, marking every added pixel
/// visited.  The result is a 4-connected, duplicate-free list of mask-true
/// pixels, none of which was visited before, starting at `seed`; the
/// visited mask afterwards marks exactly the old pixels plus the region.
fn flood_one(mask: &Image<bool>, visited: &mut Image<bool>, seed: (usize, usize)) -> (c: Vec<
    (usize, usize),
>)
    requires
        mask.wf(),
        old(visited).wf(),
        old(visited).size == mask.size,
        in_grid(mask.size, seed),
        mask_at(mask.size, mask.data@, seed),
        !old(visited).data@[lin(mask.size, seed)],
    ensures
        final(visited).wf(),
        final(visited).size == mask.size,
        component_ok(mask.size, mask.data@, c@),
        c@[0] == seed,
        forall|j: int, k: int| 0 <= j < k < c@.len() ==> c@[j] != c@[k],
        forall|j: int| 0 <= j < c@.len() ==> !old(visited).data@[lin(mask.size, #[trigger] c@[j])],
        forall|idx: int|
            0 <= idx < old(visited).data@.len() ==> (#[trigger] final(visited).data@[idx] <==> old(
                visited,
            ).data@[idx] || exists|j: int| 0 <= j < c@.len() && lin(mask.size, #[trigger] c@[j])
                == idx),
        // The region is maximal: every mask-true in-range neighbour of a
        // region pixel is visited afterwards.
        forall|j: int, q: (usize, usize)|
            0 <= j < c@.len() && #[trigger] adj4(c@[j], q) && in_grid(mask.size, q) && mask_at(
                mask.size,
                mask.data@,
                q,
            ) ==> final(visited).data@[lin(mask.size, q)],
{
    let ghost v0 = visited.data@;
    let mut set: Vec<(usize, usize)> = Vec::new();
    let mut next: Vec<(usize, usize)> = Vec::new();
    proof {
        lemma_row_major_bound(seed.0 as int, seed.1 as int, mask.size.0 as int, mask.size.1 as int);
        lemma_count_true_update(visited.data@, lin(mask.size, seed));
    }
    visited.set(seed.0, seed.1, true);
    next.push(seed);
    set.push(seed);
    proof {
        assert(set@[0] == seed);
        assert(set@.contains(seed));
        assert forall|idx: int| 0 <= idx < visited.data@.len() implies (#[trigger] visited.data@[idx]
            <==> v0[idx] || exists|j: int|
                0 <= j < set@.len() && lin(mask.size, #[trigger] set@[j]) == idx) by {
            if idx == lin(mask.size, seed) {
                assert(lin(mask.size, set@[0]) == idx);
            } else {
                if exists|j: int| 0 <= j < set@.len() && lin(mask.size, #[trigger] set@[j]) == idx {
                    let j = choose|j: int|
                        0 <= j < set@.len() && lin(mask.size, #[trigger] set@[j]) == idx;
                    assert(j == 0);
                    assert(false);
                }
            }
        }
        assert forall|j: int| 0 <= j < next@.len() implies set@.contains(#[trigger] next@[j]) by {
            assert(next@[j] == seed);
        }
    }
    while next.len() > 0
        invariant
            mask.wf(),
            visited.wf(),
            visited.size == mask.size,
            set@[0] == seed,
            region_inv(mask.size, mask.data@, v0, visited.data@, set@, next@),
            forall|j: int, q: (usize, usize)|
                0 <= j < set@.len() && !next@.contains(set@[j]) && #[trigger] adj4(set@[j], q)
                    && in_grid(mask.size, q) && mask_at(mask.size, mask.data@, q)
                    ==> visited.data@[lin(mask.size, q)],
        decreases v0.len() - count_true(visited.data@), next@.len(),
    {
        proof {
            lemma_count_true_le_len(visited.data@);
        }
        let ghost pre_next = next@;
        let ghost pre_set = set@;
        let ghost pre_v = visited.data@;
        let coord = next.pop().unwrap();
        proof {
            assert(pre_next[pre_next.len() - 1] == coord);
            assert(set@.contains(coord));
        }
        let ghost kc = choose|k: int| 0 <= k < set@.len() && set@[k] == coord;
        proof {
            assert(in_grid(mask.size, set@[kc]));
        }
        flood_step(mask, visited, &mut set, &mut next, coord, -1, 0, Ghost(v0));
        let ghost s1 = set@;
        let ghost n1 = next@;
        proof {
            assert(set@[kc] == coord);
            assert(set@.contains(coord));
        }
        flood_step(mask, visited, &mut set, &mut next, coord, 1, 0, Ghost(v0));
        let ghost s2 = set@;
        let ghost n2 = next@;
        proof {
            assert(set@[kc] == coord);
            assert(set@.contains(coord));
        }
        flood_step(mask, visited, &mut set, &mut next, coord, 0, -1, Ghost(v0));
        let ghost s3 = set@;
        let ghost n3 = next@;
        proof {
            assert(set@[kc] == coord);
            assert(set@.contains(coord));
        }
        flood_step(mask, visited, &mut set, &mut next, coord, 0, 1, Ghost(v0));
        proof {
            lemma_count_true_le_len(visited.data@);
            let size = mask.size;
            let m = mask.data@;
            // Pixels added this iteration sit on the frontier; pixels
            // settled earlier keep their neighbours visited; and the four
            // steps have just visited every valid neighbour of `coord`.
            assert forall|j: int, q: (usize, usize)|
                0 <= j < set@.len() && !next@.contains(set@[j]) && #[trigger] adj4(set@[j], q)
                    && in_grid(size, q) && mask_at(size, m, q) implies visited.data@[lin(
                size,
                q,
            )] by {
                let p = set@[j];
                lemma_row_major_bound(q.0 as int, q.1 as int, size.0 as int, size.1 as int);
                if j < pre_set.len() {
                    if p == coord {
                        // `q` is one of the four step targets.
                        if q.0 == coord.0 + 1 && q.1 == coord.1 {
                            assert(visited.data@[q.1 * size.0 + q.0]);
                        } else if coord.0 == q.0 + 1 && q.1 == coord.1 {
                            assert(visited.data@[q.1 * size.0 + q.0]);
                        } else if q.0 == coord.0 && q.1 == coord.1 + 1 {
                            assert(visited.data@[q.1 * size.0 + q.0]);
                        } else {
                            assert(q.0 == coord.0 && coord.1 == q.1 + 1);
                            assert(visited.data@[q.1 * size.0 + q.0]);
                        }
                    } else {
                        // `p` was already settled before this iteration:
                        // it is not the popped pixel, and had it still been
                        // on the old frontier it would be on the new one.
                        if pre_next.contains(p) {
                            let ix = choose|ix: int|
                                0 <= ix < pre_next.len() && pre_next[ix] == p;
                            assert(ix < pre_next.len() - 1);
                            assert(next@[ix] == p);
                            assert(false);
                        }
                        assert(pre_v[lin(size, q)]);
                    }
                } else {
                    // `p` was pushed by one of the four steps, so it is on
                    // the frontier and cannot be settled.
                    if j < s1.len() {
                        assert(p == s1.last() && n1[n1.len() - 1] == p);
                        assert(next@[n1.len() - 1] == p);
                    } else if j < s2.len() {
                        assert(p == s2.last() && n2[n2.len() - 1] == p);
                        assert(next@[n2.len() - 1] == p);
                    } else if j < s3.len() {
                        assert(p == s3.last() && n3[n3.len() - 1] == p);
                        assert(next@[n3.len() - 1] == p);
                    } else {
                        assert(p == set@.last() && next@[next@.len() - 1] == p);
                    }
                    assert(false);
                }
            }
        }
    }
    set
}

/// Splits a boolean mask into its maximal 4-connected regions of true
/// pixels.  Every true pixel appears in exactly one returned region, every
/// listed pixel is true, and each region is internally 4-connected; regions
/// are emitted in row-major order of discovery.
pub fn components(mask: &Image<bool>) -> (cs: Vec<Vec<(usize, usize)>>)
    requires
        mask.wf(),
    ensures
        is_components(mask.size, mask.data@, cs@.map_values(|v: Vec<(usize, usize)>| v@)),
{
    proof {
        vstd::std_specs::vec::axiom_spec_len(&mask.data);
    }
    let ghost size = mask.size;
    let ghost m = mask.data@;
    let w = mask.size.0;
    let h = mask.size.1;
    let mut visited = Image::<bool>::new_val(false, (w, h));
    let mut cs: Vec<Vec<(usize, usize)>> = Vec::new();
    let mut y: usize = 0;
    while y < h
        invariant
            y <= h,
            mask.wf(),
            visited.wf(),
            visited.size == mask.size,
            w == mask.size.0,
            h == mask.size.1,
            size == mask.size,
            m == mask.data@,
            components_inv(size, m, visited.data@, cs@),
            forall|idx: int| 0 <= idx < y * w ==> m[idx] ==> #[trigger] visited.data@[idx],
            forall|i: int, j: int|
                0 <= i < cs@.len() && 1 <= j < cs@[i]@.len() ==> lin(size, cs@[i]@[0]) < lin(
                    size,
                    #[trigger] cs@[i]@[j],
                ),
            forall|i: int| 0 <= i < cs@.len() ==> lin(size, (#[trigger] cs@[i]@)[0]) < y * w,
            forall|i1: int, i2: int|
                0 <= i1 < i2 < cs@.len() ==> lin(size, (#[trigger] cs@[i1]@)[0]) < lin(
                    size,
                    (#[trigger] cs@[i2]@)[0],
                ),
        decreases h - y,
    {
        let mut x: usize = 0;
        while x < w
            invariant
                x <= w,
                y < h,
                mask.wf(),
                visited.wf(),
                visited.size == mask.size,
                w == mask.size.0,
                h == mask.size.1,
                size == mask.size,
                m == mask.data@,
                components_inv(size, m, visited.data@, cs@),
                forall|idx: int| 0 <= idx < y * w + x ==> m[idx] ==> #[trigger] visited.data@[idx],
                forall|i: int, j: int|
                    0 <= i < cs@.len() && 1 <= j < cs@[i]@.len() ==> lin(size, cs@[i]@[0]) < lin(
                        size,
                        #[trigger] cs@[i]@[j],
                    ),
                forall|i: int|
                    0 <= i < cs@.len() ==> lin(size, (#[trigger] cs@[i]@)[0]) < y * w + x,
                forall|i1: int, i2: int|
                    0 <= i1 < i2 < cs@.len() ==> lin(size, (#[trigger] cs@[i1]@)[0]) < lin(
                        size,
                        (#[trigger] cs@[i2]@)[0],
                    ),
            decreases w - x,
        {
            proof {
                lemma_row_major_bound(x as int, y as int, w as int, h as int);
            }
            let ghost pre_v = visited.data@;
            let vis = visited.get(x, y);
            let is_set = mask.get(x, y);
            if is_set && !vis {
                let ghost pre_cs = cs@;
                let c = flood_one(mask, &mut visited, (x, y));
                proof {
                    lemma_components_extend(
                        size,
                        m,
                        pre_v,
                        visited.data@,
                        pre_cs,
                        c,
                        pre_cs.push(c),
                    );
                    assert(visited.data@[lin(size, (x, y))]) by {
                        assert(lin(size, c@[0]) == lin(size, (x, y)));
                    }
                    // The seed is the row-major least pixel of the new
                    // region: any earlier mask-true pixel was already
                    // visited, while the region's pixels were not.
                    assert forall|j: int| 1 <= j < c@.len() implies lin(size, c@[0]) < lin(
                        size,
                        #[trigger] c@[j],
                    ) by {
                        let p = c@[j];
                        lemma_row_major_bound(p.0 as int, p.1 as int, size.0 as int, size.1 as int);
                        if lin(size, p) < y * w + x {
                            assert(m[lin(size, p)]);
                            assert(pre_v[lin(size, p)]);
                            assert(false);
                        } else if lin(size, p) == y * w + x {
                            lemma_row_major_injective(
                                p.0 as int,
                                p.1 as int,
                                x as int,
                                y as int,
                                w as int,
                            );
                            assert(c@[j] == c@[0]);
                            assert(false);
                        }
                    }
                }
                cs.push(c);
            }
            proof {
                assert forall|idx: int| 0 <= idx < y * w + x + 1 && m[idx] implies #[trigger] visited
                    .data@[idx] by {
                    if idx < y * w + x {
                        assert(pre_v[idx]);
                    } else {
                        assert(idx == lin(size, (x, y)));
                    }
                }
            }
            x = x + 1;
        }
        proof {
            assert((y + 1) * w == y * w + w) by (nonlinear_arith);
        }
        y = y + 1;
    }
    proof {
        lemma_components_complete(size, m, visited.data@, cs@);
    }
    cs
}

/// Finds the maximal 4-connected regions of pixels whose sample satisfies
/// `condition`: every satisfying pixel is listed in exactly one returned
/// region, listed pixels satisfy the condition, and each region is
/// internally 4-connected.
pub fn floodfind<T: Copy, F: Fn(T) -> bool>(img: &Image<T>, condition: F) -> (r: Vec<
    Vec<(usize, usize)>,
>)
    requires
        img.wf(),
        forall|v: T| #[trigger] condition.requires((v,)),
    ensures
        exists|m: Seq<bool>|
            {
                &&& #[trigger] m.len() == img.data@.len()
                &&& (forall|i: int|
                    0 <= i < m.len() ==> condition.ensures((img.data@[i],), #[trigger] m[i]))
                &&& is_components(img.size, m, r@.map_values(|c: Vec<(usize, usize)>| c@))
            },
{
    proof {
        vstd::std_specs::vec::axiom_spec_len(&img.data);
    }
    let n = img.data.len();
    let mut mb: Vec<bool> = Vec::new();
    let mut i: usize = 0;
    while i < n
        invariant
            i <= n,
            n == img.data@.len(),
            mb@.len() == i,
            forall|v: T| #[trigger] condition.requires((v,)),
            forall|j: int| 0 <= j < i ==> condition.ensures((img.data@[j],), #[trigger] mb@[j]),
        decreases n - i,
    {
        let b = condition(img.data[i]);
        mb.push(b);
        i = i + 1;
    }
    let mask = Image::new(mb, img.size);
    let r = components(&mask);
    proof {
        assert(is_components(img.size, mask.data@, r@.map_values(|c: Vec<(usize, usize)>| c@)));
    }
    r
}

/// The bookkeeping carried by the scan in `components`: every emitted
/// region is valid, no pixel is listed twice, and the visited mask marks
/// exactly the listed pixels.
pub open spec fn components_inv(
    size: (usize, usize),
    m: Seq<bool>,
    v: Seq<bool>,
    cs: Seq<Vec<(usize, usize)>>,
) -> bool {
    &&& m.len() == size.0 * size.1
    &&& v.len() == m.len()
    &&& forall|i: int| 0 <= i < cs.len() ==> component_ok(size, m, #[trigger] cs[i]@)
    &&& forall|i1: int, j1: int, i2: int, j2: int|
        0 <= i1 < cs.len() && 0 <= j1 < cs[i1]@.len() && 0 <= i2 < cs.len() && 0 <= j2
            < cs[i2]@.len() && #[trigger] cs[i1]@[j1] == #[trigger] cs[i2]@[j2] ==> i1 == i2 && j1
            == j2
    &&& forall|idx: int|
        0 <= idx < v.len() ==> (#[trigger] v[idx] <==> exists|i: int, j: int|
            0 <= i < cs.len() && 0 <= j < cs[i]@.len() && lin(size, #[trigger] cs[i]@[j]) == idx)
    &&& forall|i: int, j: int, q: (usize, usize)|
        0 <= i < cs.len() && 0 <= j < cs[i]@.len() && #[trigger] adj4(cs[i]@[j], q) && in_grid(
            size,
            q,
        ) && mask_at(size, m, q) ==> exists|j2: int| 0 <= j2 < cs[i]@.len() && #[trigger] cs[i]@[j2]
            == q
}

/// Emitting one freshly traversed region preserves the scan bookkeeping.
proof fn lemma_components_extend(
    size: (usize, usize),
    m: Seq<bool>,
    v: Seq<bool>,
    v_new: Seq<bool>,
    cs: Seq<Vec<(usize, usize)>>,
    c: Vec<(usize, usize)>,
    cs_new: Seq<Vec<(usize, usize)>>,
)
    requires
        components_inv(size, m, v, cs),
        cs_new == cs.push(c),
        v_new.len() == v.len(),
        component_ok(size, m, c@),
        forall|j: int, k: int| 0 <= j < k < c@.len() ==> c@[j] != c@[k],
        forall|j: int| 0 <= j < c@.len() ==> !v[lin(size, #[trigger] c@[j])],
        forall|idx: int|
            0 <= idx < v.len() ==> (#[trigger] v_new[idx] <==> v[idx] || exists|j: int|
                0 <= j < c@.len() && lin(size, #[trigger] c@[j]) == idx),
        forall|j: int, q: (usize, usize)|
            0 <= j < c@.len() && #[trigger] adj4(c@[j], q) && in_grid(size, q) && mask_at(
                size,
                m,
                q,
            ) ==> v_new[lin(size, q)],
    ensures
        components_inv(size, m, v_new, cs_new),
{
    assert forall|i: int| 0 <= i < cs_new.len() implies component_ok(
        size,
        m,
        #[trigger] cs_new[i]@,
    ) by {
        if i < cs.len() {
            assert(component_ok(size, m, cs[i]@));
        }
    }
    // No pixel of the new region repeats an already listed pixel, because
    // listed pixels are visited and the new region's pixels were not.
    assert forall|i1: int, j1: int, i2: int, j2: int|
        0 <= i1 < cs_new.len() && 0 <= j1 < cs_new[i1]@.len() && 0 <= i2 < cs_new.len() && 0 <= j2
            < cs_new[i2]@.len() && #[trigger] cs_new[i1]@[j1] == #[trigger] cs_new[i2]@[j2] implies i1
        == i2 && j1 == j2 by {
        if i1 < cs.len() && i2 < cs.len() {
            assert(cs[i1]@[j1] == cs[i2]@[j2]);
        } else if i1 < cs.len() && i2 == cs.len() {
            lemma_row_major_bound(
                c@[j2].0 as int,
                c@[j2].1 as int,
                size.0 as int,
                size.1 as int,
            );
            assert(lin(size, cs[i1]@[j1]) == lin(size, c@[j2]));
            assert(v[lin(size, cs[i1]@[j1])]);
            assert(false);
        } else if i1 == cs.len() && i2 < cs.len() {
            lemma_row_major_bound(
                c@[j1].0 as int,
                c@[j1].1 as int,
                size.0 as int,
                size.1 as int,
            );
            assert(lin(size, cs[i2]@[j2]) == lin(size, c@[j1]));
            assert(v[lin(size, cs[i2]@[j2])]);
            assert(false);
        }
    }
    // Each region is still closed under mask-true neighbours.  For the new
    // region: a neighbour of one of its pixels is visited now; had it been
    // visited before, its own region would already hold the new pixel,
    // which was unvisited.
    assert forall|i: int, j: int, q: (usize, usize)|
        0 <= i < cs_new.len() && 0 <= j < cs_new[i]@.len() && #[trigger] adj4(cs_new[i]@[j], q)
            && in_grid(size, q) && mask_at(size, m, q) implies exists|j2: int|
        0 <= j2 < cs_new[i]@.len() && #[trigger] cs_new[i]@[j2] == q by {
        lemma_row_major_bound(q.0 as int, q.1 as int, size.0 as int, size.1 as int);
        if i < cs.len() {
            assert(adj4(cs[i]@[j], q));
            let j2 = choose|j2: int| 0 <= j2 < cs[i]@.len() && #[trigger] cs[i]@[j2] == q;
            assert(cs_new[i]@[j2] == q);
        } else {
            let p = c@[j];
            assert(v_new[lin(size, q)]);
            if v[lin(size, q)] {
                // `q` would lie in an earlier region, which is closed and
                // would therefore contain the unvisited pixel `p`.
                let (i3, j3) = choose|i3: int, j3: int|
                    0 <= i3 < cs.len() && 0 <= j3 < cs[i3]@.len() && lin(
                        size,
                        #[trigger] cs[i3]@[j3],
                    ) == lin(size, q);
                lemma_row_major_bound(
                    cs[i3]@[j3].0 as int,
                    cs[i3]@[j3].1 as int,
                    size.0 as int,
                    size.1 as int,
                );
                lemma_row_major_injective(
                    cs[i3]@[j3].0 as int,
                    cs[i3]@[j3].1 as int,
                    q.0 as int,
                    q.1 as int,
                    size.0 as int,
                );
                assert(cs[i3]@[j3] == q);
                assert(in_grid(size, p) && mask_at(size, m, p));
                assert(adj4(cs[i3]@[j3], p));
                let j4 = choose|j4: int| 0 <= j4 < cs[i3]@.len() && #[trigger] cs[i3]@[j4] == p;
                lemma_row_major_bound(p.0 as int, p.1 as int, size.0 as int, size.1 as int);
                assert(v[lin(size, cs[i3]@[j4])]);
                assert(false);
            } else {
                let j2 = choose|j2: int| 0 <= j2 < c@.len() && lin(size, #[trigger] c@[j2]) == lin(
                    size,
                    q,
                );
                lemma_row_major_bound(
                    c@[j2].0 as int,
                    c@[j2].1 as int,
                    size.0 as int,
                    size.1 as int,
                );
                lemma_row_major_injective(
                    c@[j2].0 as int,
                    c@[j2].1 as int,
                    q.0 as int,
                    q.1 as int,
                    size.0 as int,
                );
                assert(cs_new[i]@[j2] == q);
            }
        }
    }
    // The visited mask now marks exactly the pixels listed somewhere.
    assert forall|idx: int| 0 <= idx < v_new.len() implies (#[trigger] v_new[idx]
        <==> exists|i: int, j: int|
            0 <= i < cs_new.len() && 0 <= j < cs_new[i]@.len() && lin(
                size,
                #[trigger] cs_new[i]@[j],
            ) == idx) by {
        if v_new[idx] {
            if v[idx] {
                let (i, j) = choose|i: int, j: int|
                    0 <= i < cs.len() && 0 <= j < cs[i]@.len() && lin(size, #[trigger] cs[i]@[j])
                        == idx;
                assert(lin(size, cs_new[i]@[j]) == idx);
            } else {
                let j = choose|j: int| 0 <= j < c@.len() && lin(size, #[trigger] c@[j]) == idx;
                assert(lin(size, cs_new[cs.len() as int]@[j]) == idx);
            }
        } else {
            if exists|i: int, j: int|
                0 <= i < cs_new.len() && 0 <= j < cs_new[i]@.len() && lin(
                    size,
                    #[trigger] cs_new[i]@[j],
                ) == idx {
                let (i, j) = choose|i: int, j: int|
                    0 <= i < cs_new.len() && 0 <= j < cs_new[i]@.len() && lin(
                        size,
                        #[trigger] cs_new[i]@[j],
                    ) == idx;
                if i < cs.len() {
                    assert(lin(size, cs[i]@[j]) == idx);
                    assert(v[idx]);
                } else {
                    assert(lin(size, c@[j]) == idx);
                }
                assert(false);
            }
        }
    }
}

/// Once the scan has visited every mask-true pixel, the emitted regions
/// form a partition of the mask-true pixels.
proof fn lemma_components_complete(
    size: (usize, usize),
    m: Seq<bool>,
    v: Seq<bool>,
    cs: Seq<Vec<(usize, usize)>>,
)
    requires
        components_inv(size, m, v, cs),
        forall|idx: int| 0 <= idx < size.1 * size.0 ==> m[idx] ==> #[trigger] v[idx],
        forall|i: int, j: int|
            0 <= i < cs.len() && 1 <= j < cs[i]@.len() ==> lin(size, cs[i]@[0]) < lin(
                size,
                #[trigger] cs[i]@[j],
            ),
        forall|i1: int, i2: int|
            0 <= i1 < i2 < cs.len() ==> lin(size, (#[trigger] cs[i1]@)[0]) < lin(
                size,
                (#[trigger] cs[i2]@)[0],
            ),
    ensures
        is_components(size, m, cs.map_values(|c: Vec<(usize, usize)>| c@)),
{
    let csv = cs.map_values(|c: Vec<(usize, usize)>| c@);
    assert(size.1 * size.0 == size.0 * size.1) by (nonlinear_arith);
    assert forall|i: int| 0 <= i < csv.len() implies component_ok(size, m, #[trigger] csv[i]) by {
        assert(component_ok(size, m, cs[i]@));
    }
    assert forall|i1: int, j1: int, i2: int, j2: int|
        0 <= i1 < csv.len() && 0 <= j1 < csv[i1].len() && 0 <= i2 < csv.len() && 0 <= j2
            < csv[i2].len() && #[trigger] csv[i1][j1] == #[trigger] csv[i2][j2] implies i1 == i2
        && j1 == j2 by {
        assert(cs[i1]@[j1] == cs[i2]@[j2]);
    }
    assert forall|i: int, j: int, q: (usize, usize)|
        0 <= i < csv.len() && 0 <= j < csv[i].len() && #[trigger] adj4(csv[i][j], q) && in_grid(
            size,
            q,
        ) && mask_at(size, m, q) implies exists|j2: int|
        0 <= j2 < csv[i].len() && #[trigger] csv[i][j2] == q by {
        assert(adj4(cs[i]@[j], q));
        let j2 = choose|j2: int| 0 <= j2 < cs[i]@.len() && #[trigger] cs[i]@[j2] == q;
        assert(csv[i][j2] == q);
    }
    assert forall|i: int, j: int|
        0 <= i < csv.len() && 1 <= j < csv[i].len() implies lin(size, csv[i][0]) < lin(
        size,
        #[trigger] csv[i][j],
    ) by {
        assert(lin(size, cs[i]@[0]) < lin(size, cs[i]@[j]));
    }
    assert forall|i1: int, i2: int|
        0 <= i1 < i2 < csv.len() implies lin(size, (#[trigger] csv[i1])[0]) < lin(
        size,
        (#[trigger] csv[i2])[0],
    ) by {
        assert(lin(size, cs[i1]@[0]) < lin(size, cs[i2]@[0]));
    }
    assert forall|c: (usize, usize)|
        in_grid(size, c) && #[trigger] mask_at(size, m, c) implies exists|i: int, j: int|
            0 <= i < csv.len() && 0 <= j < csv[i].len() && #[trigger] csv[i][j] == c by {
        lemma_row_major_bound(c.0 as int, c.1 as int, size.0 as int, size.1 as int);
        assert(v[lin(size, c)]);
        let (i, j) = choose|i: int, j: int|
            0 <= i < cs.len() && 0 <= j < cs[i]@.len() && lin(size, #[trigger] cs[i]@[j]) == lin(
                size,
                c,
            );
        lemma_row_major_bound(
            cs[i]@[j].0 as int,
            cs[i]@[j].1 as int,
            size.0 as int,
            size.1 as int,
        );
        lemma_row_major_injective(
            cs[i]@[j].0 as int,
            cs[i]@[j].1 as int,
            c.0 as int,
            c.1 as int,
            size.0 as int,
        );
        assert(csv[i][j] == c);
    }
}

proof fn lemma_count_true_update(s: Seq<bool>, i: int)
    requires
        0 <= i < s.len(),
        !s[i],
    ensures
        count_true(s.update(i, true)) == count_true(s) + 1,
    decreases s.len(),
{
    let t = s.update(i, true);
    if i == s.len() - 1 {
        assert(t.drop_last() =~= s.drop_last());
    } else {
        assert(t.drop_last() =~= s.drop_last().update(i, true));
        lemma_count_true_update(s.drop_last(), i);
    }
}

} // verus!
