use vstd::prelude::*;

use vstd::arithmetic::div_mod::{
    lemma_fundamental_div_mod_converse_div, lemma_fundamental_div_mod_converse_mod,
};
use vstd::arithmetic::mul::lemma_mul_inequality;

verus! {

/// The entry at linear position `t` of the row-major, gauge-fixed offset
/// system over `count` frames: row 0 pins frame 0 to offset zero with a
/// single 1; row `k + 1` encodes `x[one_k] - x[two_k] = value_k` with a 1
/// in column `one_k` and a -1 in column `two_k`.
pub open spec fn system_entry(obs: Seq<(usize, usize, i64)>, count: int, t: int) -> int {
    let row = t / count;
    let col = t % count;
    if row == 0 {
        if col == 0 {
            1
        } else {
            0
        }
    } else {
        let o = obs[row - 1];
        if col == o.0 {
            1
        } else if col == o.1 {
            -1
        } else {
            0
        }
    }
}

/// The right-hand side of row `k` of the gauge-fixed offset system: zero
/// for the gauge row, the observed offset for each observation row.
pub open spec fn system_rhs(obs: Seq<(usize, usize, i64)>, k: int) -> int {
    if k == 0 {
        0
    } else {
        obs[k - 1].2 as int
    }
}

/// Builds the gauge-fixed linear system over all pairwise offset
/// observations for one axis: one unknown per frame, one row per
/// observation encoding the difference of the two frames' offsets, plus a
/// gauge row pinning frame 0 to zero so the system is not rank-deficient.
/// The matrix is returned row-major together with the right-hand side; a
/// least-squares solve of the pair yields one offset per frame.
pub fn build_offset_system(observations: &Vec<(usize, usize, i64)>, count: usize) -> (r: (
    Vec<i64>,
    Vec<i64>,
))
    requires
        0 < count,
        (observations@.len() + 1) * count <= usize::MAX,
    ensures
        r.0@.len() == (observations@.len() + 1) * count,
        r.1@.len() == observations@.len() + 1,
        forall|t: int|
            0 <= t < r.0@.len() ==> #[trigger] r.0@[t] == system_entry(
                observations@,
                count as int,
                t,
            ),
        forall|k: int| 0 <= k < r.1@.len() ==> #[trigger] r.1@[k] == system_rhs(observations@, k),
{
    let m = observations.len();
    proof {
        assert(1 * count == count) by (nonlinear_arith);
        lemma_mul_inequality(1, m as int + 1, count as int);
    }
    let mut matrix: Vec<i64> = Vec::new();
    let mut vector: Vec<i64> = Vec::new();
    // The gauge row: offset of frame 0 is zero.
    let mut i: usize = 0;
    while i < count
        invariant
            i <= count,
            0 < count,
            matrix@.len() == i,
            forall|t: int|
                0 <= t < i ==> #[trigger] matrix@[t] == system_entry(
                    observations@,
                    count as int,
                    t,
                ),
        decreases count - i,
    {
        proof {
            lemma_fundamental_div_mod_converse_div(i as int, count as int, 0, i as int);
            lemma_fundamental_div_mod_converse_mod(i as int, count as int, 0, i as int);
        }
        if i == 0 {
            matrix.push(1);
        } else {
            matrix.push(0);
        }
        i = i + 1;
    }
    vector.push(0);
    // One row per observation.
    let mut k: usize = 0;
    while k < m
        invariant
            k <= m,
            0 < count,
            m == observations@.len(),
            (m + 1) * count <= usize::MAX,
            matrix@.len() == (k + 1) * count,
            vector@.len() == k + 1,
            forall|t: int|
                0 <= t < matrix@.len() ==> #[trigger] matrix@[t] == system_entry(
                    observations@,
                    count as int,
                    t,
                ),
            forall|j: int|
                0 <= j < vector@.len() ==> #[trigger] vector@[j] == system_rhs(observations@, j),
        decreases m - k,
    {
        proof {
            lemma_mul_inequality(k as int + 2, m as int + 1, count as int);
            assert((k + 2) * count == (k + 1) * count + count) by (nonlinear_arith);
        }
        let o = observations[k];
        let mut col: usize = 0;
        while col < count
            invariant
                col <= count,
                0 < count,
                k < m,
                m == observations@.len(),
                o == observations@[k as int],
                matrix@.len() == (k + 1) * count + col,
                (k + 2) * count <= usize::MAX,
                (k + 2) * count == (k + 1) * count + count,
                forall|t: int|
                    0 <= t < matrix@.len() ==> #[trigger] matrix@[t] == system_entry(
                        observations@,
                        count as int,
                        t,
                    ),
            decreases count - col,
        {
            proof {
                lemma_fundamental_div_mod_converse_div(
                    (k + 1) * count + col,
                    count as int,
                    k as int + 1,
                    col as int,
                );
                lemma_fundamental_div_mod_converse_mod(
                    (k + 1) * count + col,
                    count as int,
                    k as int + 1,
                    col as int,
                );
            }
            if col == o.0 {
                matrix.push(1);
            } else if col == o.1 {
                matrix.push(-1);
            } else {
                matrix.push(0);
            }
            col = col + 1;
        }
        vector.push(o.2);
        k = k + 1;
    }
    (matrix, vector)
}

/// The dot product of matrix row `row` with `x`, over the first `i`
/// columns.
pub open spec fn row_dot(m: Seq<i64>, count: int, row: int, x: Seq<i64>, i: int) -> int
    decreases i,
{
    if i <= 0 {
        0
    } else {
        row_dot(m, count, row, x, i - 1) + m[row * count + (i - 1)] * x[i - 1]
    }
}

proof fn lemma_row_dot_gauge(
    obs: Seq<(usize, usize, i64)>,
    mat: Seq<i64>,
    count: int,
    x: Seq<i64>,
    i: int,
)
    requires
        0 < count,
        0 <= i <= count,
        x.len() == count,
        mat.len() >= count,
        forall|t: int| 0 <= t < mat.len() ==> #[trigger] mat[t] == system_entry(obs, count, t),
    ensures
        row_dot(mat, count, 0, x, i) == if i >= 1 {
            x[0] as int
        } else {
            0
        },
    decreases i,
{
    if i > 0 {
        lemma_row_dot_gauge(obs, mat, count, x, i - 1);
        lemma_fundamental_div_mod_converse_div(i - 1, count, 0, i - 1);
        lemma_fundamental_div_mod_converse_mod(i - 1, count, 0, i - 1);
        assert(mat[0 * count + (i - 1)] == system_entry(obs, count, i - 1));
    }
}

proof fn lemma_row_dot_obs(
    obs: Seq<(usize, usize, i64)>,
    mat: Seq<i64>,
    count: int,
    row: int,
    x: Seq<i64>,
    i: int,
)
    requires
        0 < count,
        0 <= i <= count,
        1 <= row <= obs.len(),
        x.len() == count,
        mat.len() == (obs.len() + 1) * count,
        forall|t: int| 0 <= t < mat.len() ==> #[trigger] mat[t] == system_entry(obs, count, t),
        obs[row - 1].0 < count,
        obs[row - 1].1 < count,
        obs[row - 1].0 != obs[row - 1].1,
    ensures
        row_dot(mat, count, row, x, i) == (
        if obs[row - 1].0 < i {
            x[obs[row - 1].0 as int] as int
        } else {
            0
        }) - (
        if obs[row - 1].1 < i {
            x[obs[row - 1].1 as int] as int
        } else {
            0
        }),
    decreases i,
{
    if i > 0 {
        lemma_row_dot_obs(obs, mat, count, row, x, i - 1);
        let t = row * count + (i - 1);
        lemma_fundamental_div_mod_converse_div(t, count, row, i - 1);
        lemma_fundamental_div_mod_converse_mod(t, count, row, i - 1);
        lemma_mul_inequality(row + 1, obs.len() as int + 1, count);
        assert((row + 1) * count == row * count + count) by (nonlinear_arith);
        assert(0 <= t < mat.len());
        assert(mat[t] == system_entry(obs, count, t));
    }
}

/// Law: a ground-truth offset vector that explains every observation and
/// has frame 0 pinned at zero solves the gauge-fixed system exactly: every
/// row's dot product with it equals the right-hand side, so its residual
/// is zero and it is the least-squares optimum.
pub proof fn lemma_consistent_offsets_solve_system(
    obs: Seq<(usize, usize, i64)>,
    count: int,
    mat: Seq<i64>,
    rhs: Seq<i64>,
    x: Seq<i64>,
)
    requires
        0 < count,
        x.len() == count,
        x[0] == 0,
        mat.len() == (obs.len() + 1) * count,
        forall|t: int| 0 <= t < mat.len() ==> #[trigger] mat[t] == system_entry(obs, count, t),
        rhs.len() == obs.len() + 1,
        forall|k: int| 0 <= k < rhs.len() ==> #[trigger] rhs[k] == system_rhs(obs, k),
        forall|k: int|
            0 <= k < obs.len() ==> (#[trigger] obs[k]).0 < count && obs[k].1 < count && obs[k].0
                != obs[k].1,
        forall|k: int|
            0 <= k < obs.len() ==> x[(#[trigger] obs[k]).0 as int] - x[obs[k].1 as int]
                == obs[k].2,
    ensures
        forall|row: int|
            0 <= row < rhs.len() ==> #[trigger] row_dot(mat, count, row, x, count) == rhs[row],
{
    assert forall|row: int| 0 <= row < rhs.len() implies #[trigger] row_dot(mat, count, row, x, count)
        == rhs[row] by {
        lemma_mul_inequality(1, obs.len() as int + 1, count);
        assert(1 * count == count) by (nonlinear_arith);
        if row == 0 {
            lemma_row_dot_gauge(obs, mat, count, x, count);
        } else {
            lemma_row_dot_obs(obs, mat, count, row, x, count);
            assert(x[obs[row - 1].0 as int] - x[obs[row - 1].1 as int] == obs[row - 1].2);
        }
    }
}

/// The pair of frame indices `(a, b)` as machine integers.
pub open spec fn frame_pair(a: int, b: int) -> (usize, usize) {
    (a as usize, b as usize)
}

/// Lexicographic order on frame pairs.
pub open spec fn pair_lt(a: (usize, usize), b: (usize, usize)) -> bool {
    a.0 < b.0 || (a.0 == b.0 && a.1 < b.1)
}

/// All unordered frame pairs `(a, b)` with `a < b < n`, in lexicographic
/// order: the pairing the orchestrator correlates when it compares every
/// frame with every other.
pub fn all_pairs(n: usize) -> (r: Vec<(usize, usize)>)
    ensures
        forall|k: int| 0 <= k < r@.len() ==> (#[trigger] r@[k]).0 < r@[k].1 < n,
        forall|a: int, b: int| 0 <= a < b < n ==> r@.contains(#[trigger] frame_pair(a, b)),
        forall|k1: int, k2: int| 0 <= k1 < k2 < r@.len() ==> pair_lt(r@[k1], r@[k2]),
{
    let mut r: Vec<(usize, usize)> = Vec::new();
    let mut one: usize = 0;
    while one < n
        invariant
            one <= n,
            forall|k: int| 0 <= k < r@.len() ==> (#[trigger] r@[k]).0 < r@[k].1 < n,
            forall|a: int, b: int|
                0 <= a < b < n && a < one ==> r@.contains(#[trigger] frame_pair(a, b)),
            forall|k1: int, k2: int| 0 <= k1 < k2 < r@.len() ==> pair_lt(r@[k1], r@[k2]),
            forall|k: int| 0 <= k < r@.len() ==> (#[trigger] r@[k]).0 < one,
        decreases n - one,
    {
        let mut two: usize = one + 1;
        while two < n
            invariant
                one < two <= n || two == one + 1,
                one < n,
                forall|k: int| 0 <= k < r@.len() ==> (#[trigger] r@[k]).0 < r@[k].1 < n,
                forall|a: int, b: int|
                    0 <= a < b < n && a < one ==> r@.contains(#[trigger] frame_pair(a, b)),
                forall|b: int| one < b < two ==> r@.contains(#[trigger] frame_pair(one as int, b)),
                forall|k1: int, k2: int| 0 <= k1 < k2 < r@.len() ==> pair_lt(r@[k1], r@[k2]),
                forall|k: int|
                    0 <= k < r@.len() ==> (#[trigger] r@[k]).0 < one || (r@[k].0 == one && r@[k].1
                        < two),
            decreases n - two,
        {
            let ghost pre = r@;
            r.push((one, two));
            proof {
                assert(r@[r@.len() - 1] == (one, two));
                assert forall|a: int, b: int|
                    0 <= a < b < n && a < one implies r@.contains(#[trigger] frame_pair(a, b)) by {
                    let idx = choose|idx: int| 0 <= idx < pre.len() && pre[idx] == frame_pair(a, b);
                    assert(r@[idx] == frame_pair(a, b));
                }
                assert forall|b: int| one < b < two + 1 implies r@.contains(
                    #[trigger] frame_pair(one as int, b),
                ) by {
                    if b < two {
                        let idx = choose|idx: int|
                            0 <= idx < pre.len() && pre[idx] == frame_pair(one as int, b);
                        assert(r@[idx] == frame_pair(one as int, b));
                    } else {
                        assert(r@[r@.len() - 1] == frame_pair(one as int, b));
                    }
                }
            }
            two = two + 1;
        }
        one = one + 1;
    }
    r
}

} // verus!
