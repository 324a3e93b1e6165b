use vstd::prelude::*;

use vstd::multiset::Multiset;

use crate::alg::in_grid;
use crate::image::{clamp_coord, lemma_row_major_bound, Image};

verus! {

/// The sequence is sorted in non-decreasing order.
pub open spec fn sorted(s: Seq<i64>) -> bool {
    forall|a: int, b: int| 0 <= a <= b < s.len() ==> s[a] <= s[b]
}

/// Sorts the samples into a fresh vector by repeated minimum extraction;
/// the result is a sorted permutation of the input.
fn sort_samples(v: Vec<i64>) -> (r: Vec<i64>)
    ensures
        sorted(r@),
        r@.to_multiset() == v@.to_multiset(),
        r@.len() == v@.len(),
{
    broadcast use vstd::seq_lib::group_to_multiset_ensures;

    let ghost orig = v@;
    let mut src = v;
    let mut out: Vec<i64> = Vec::new();
    while src.len() > 0
        invariant
            sorted(out@),
            out@.to_multiset().add(src@.to_multiset()) =~= orig.to_multiset(),
            out@.len() + src@.len() == orig.len(),
            forall|a: int, b: int|
                0 <= a < out@.len() && 0 <= b < src@.len() ==> out@[a] <= src@[b],
        decreases src@.len(),
    {
        let n = src.len();
        let mut mi: usize = 0;
        let mut k: usize = 1;
        while k < n
            invariant
                mi < k <= n,
                n == src@.len(),
                forall|j: int| 0 <= j < k ==> src@[mi as int] <= #[trigger] src@[j],
            decreases n - k,
        {
            if src[k] < src[mi] {
                mi = k;
            }
            k = k + 1;
        }
        let ghost pre_src = src@;
        let ghost pre_out = out@;
        let x = src.remove(mi);
        out.push(x);
        proof {
            pre_src.to_multiset_ensures();
            pre_out.to_multiset_ensures();
            assert(src@.to_multiset() =~= pre_src.to_multiset().remove(x));
            assert(out@ == pre_out.push(x));
            assert(out@.to_multiset() =~= pre_out.to_multiset().insert(x));
            assert(out@.to_multiset().add(src@.to_multiset()) =~= orig.to_multiset());
            // The extracted minimum keeps the output sorted and below every
            // remaining sample.
            assert forall|a: int, b: int|
                0 <= a < out@.len() && 0 <= b < src@.len() implies out@[a] <= src@[b] by {
                if a < out@.len() - 1 {
                    if b < mi {
                        assert(src@[b] == pre_src[b]);
                    } else {
                        assert(src@[b] == pre_src[b + 1]);
                    }
                } else {
                    if b < mi {
                        assert(src@[b] == pre_src[b]);
                    } else {
                        assert(src@[b] == pre_src[b + 1]);
                    }
                }
            }
        }
    }
    proof {
        assert(src@.to_multiset() =~= Multiset::<i64>::empty());
        assert(out@.to_multiset() =~= orig.to_multiset());
    }
    out
}

/// `m` is the median of the nine samples `s`: the middle element of a
/// sorted rearrangement of `s`.
pub open spec fn is_median9(m: i64, s: Seq<i64>) -> bool {
    exists|t: Seq<i64>|
        {
            &&& #[trigger] sorted(t)
            &&& t.to_multiset() == s.to_multiset()
            &&& t.len() == 9
            &&& m == t[4]
        }
}

impl Image<i64> {
    /// The sample at `(x, y)` with coordinates clamped into range.
    pub open spec fn pix_clamped(self, x: int, y: int) -> i64 {
        self.pix(clamp_coord(x, self.width()), clamp_coord(y, self.height()))
    }

    /// The 3x3 neighbourhood of `(x, y)` under the replicate-border policy,
    /// row by row.
    pub open spec fn neighbourhood9(self, x: int, y: int) -> Seq<i64> {
        seq![
            self.pix_clamped(x - 1, y - 1),
            self.pix_clamped(x, y - 1),
            self.pix_clamped(x + 1, y - 1),
            self.pix_clamped(x - 1, y),
            self.pix_clamped(x, y),
            self.pix_clamped(x + 1, y),
            self.pix_clamped(x - 1, y + 1),
            self.pix_clamped(x, y + 1),
            self.pix_clamped(x + 1, y + 1),
        ]
    }

    /// Replaces every sample by the median of its 3x3 neighbourhood
    /// (replicate-border policy), denoising the correlation surface before
    /// the peak search.
    pub fn median_filter(&self) -> (r: Self)
        requires
            self.wf(),
            0 < self.size.0 <= 0x40000000,
            0 < self.size.1 <= 0x40000000,
        ensures
            r.wf(),
            r.size == self.size,
            forall|x: int, y: int|
                0 <= x < self.width() && 0 <= y < self.height() ==> is_median9(
                    #[trigger] r.pix(x, y),
                    self.neighbourhood9(x, y),
                ),
    {
        proof {
            vstd::std_specs::vec::axiom_spec_len(&self.data);
        }
        let w = self.size.0;
        let h = self.size.1;
        let mut v: Vec<i64> = Vec::new();
        let mut y: usize = 0;
        while y < h
            invariant
                y <= h,
                self.wf(),
                w == self.size.0,
                h == self.size.1,
                0 < w <= 0x40000000,
                0 < h <= 0x40000000,
                w * h <= usize::MAX,
                v@.len() == y * w,
                forall|k: int|
                    0 <= k < v@.len() ==> is_median9(
                        #[trigger] v@[k],
                        self.neighbourhood9(k % (w as int), k / (w as int)),
                    ),
            decreases h - y,
        {
            let mut x: usize = 0;
            while x < w
                invariant
                    x <= w,
                    y < h,
                    self.wf(),
                    w == self.size.0,
                    h == self.size.1,
                    0 < w <= 0x40000000,
                    0 < h <= 0x40000000,
                    w * h <= usize::MAX,
                    v@.len() == y * w + x,
                    forall|k: int|
                        0 <= k < v@.len() ==> is_median9(
                            #[trigger] v@[k],
                            self.neighbourhood9(k % (w as int), k / (w as int)),
                        ),
                decreases w - x,
            {
                let xi = x as isize;
                let yi = y as isize;
                let mut nb: Vec<i64> = Vec::new();
                nb.push(self.get_clamped(xi - 1, yi - 1));
                nb.push(self.get_clamped(xi, yi - 1));
                nb.push(self.get_clamped(xi + 1, yi - 1));
                nb.push(self.get_clamped(xi - 1, yi));
                nb.push(self.get_clamped(xi, yi));
                nb.push(self.get_clamped(xi + 1, yi));
                nb.push(self.get_clamped(xi - 1, yi + 1));
                nb.push(self.get_clamped(xi, yi + 1));
                nb.push(self.get_clamped(xi + 1, yi + 1));
                proof {
                    assert(nb@ =~= self.neighbourhood9(x as int, y as int));
                }
                let srt = sort_samples(nb);
                let med = srt[4];
                proof {
                    assert(is_median9(med, self.neighbourhood9(x as int, y as int)));
                    lemma_row_major_bound(x as int, y as int, w as int, h as int);
                    vstd::arithmetic::div_mod::lemma_fundamental_div_mod_converse_mod(
                        y * w + x,
                        w as int,
                        y as int,
                        x as int,
                    );
                    vstd::arithmetic::div_mod::lemma_fundamental_div_mod_converse_div(
                        y * w + x,
                        w as int,
                        y as int,
                        x as int,
                    );
                }
                v.push(med);
                x = x + 1;
            }
            proof {
                assert((y + 1) * w == y * w + w) by (nonlinear_arith);
            }
            y = y + 1;
        }
        proof {
            assert((h as int) * (w as int) == (w as int) * (h as int)) by (nonlinear_arith);
        }
        let r = Image::new(v, (w, h));
        proof {
            assert forall|x: int, y: int|
                0 <= x < self.width() && 0 <= y < self.height() implies is_median9(
                #[trigger] r.pix(x, y),
                self.neighbourhood9(x, y),
            ) by {
                lemma_row_major_bound(x, y, w as int, h as int);
                vstd::arithmetic::div_mod::lemma_fundamental_div_mod_converse_mod(
                    y * (w as int) + x,
                    w as int,
                    y,
                    x,
                );
                vstd::arithmetic::div_mod::lemma_fundamental_div_mod_converse_div(
                    y * (w as int) + x,
                    w as int,
                    y,
                    x,
                );
            }
        }
        r
    }

    /// The coordinate of the greatest sample; among equals, the first in
    /// row-major order.
    pub fn find_peak(&self) -> (p: (usize, usize))
        requires
            self.wf(),
            0 < self.size.0,
            0 < self.size.1,
        ensures
            in_grid(self.size, p),
            forall|x: int, y: int|
                0 <= x < self.width() && 0 <= y < self.height() ==> #[trigger] self.pix(x, y)
                    <= self.pix(p.0 as int, p.1 as int),
            forall|x: int, y: int|
                0 <= x < self.width() && 0 <= y < self.height() && y * self.width() + x < p.1
                    * self.width() + p.0 ==> #[trigger] self.pix(x, y) < self.pix(
                    p.0 as int,
                    p.1 as int,
                ),
    {
        proof {
            vstd::std_specs::vec::axiom_spec_len(&self.data);
            lemma_row_major_bound(0, 0, self.width(), self.height());
        }
        let w = self.size.0;
        let n = self.data.len();
        let mut bi: usize = 0;
        let mut bv: i64 = self.data[0];
        let mut i: usize = 1;
        while i < n
            invariant
                bi < i <= n,
                n == self.data@.len(),
                bv == self.data@[bi as int],
                forall|k: int| 0 <= k < i ==> #[trigger] self.data@[k] <= bv,
                forall|k: int| 0 <= k < bi ==> #[trigger] self.data@[k] < bv,
            decreases n - i,
        {
            let x = self.data[i];
            if x > bv {
                bi = i;
                bv = x;
            }
            i = i + 1;
        }
        let px = bi % w;
        let py = bi / w;
        proof {
            vstd::arithmetic::div_mod::lemma_fundamental_div_mod(bi as int, w as int);
            vstd::arithmetic::div_mod::lemma_mod_bound(bi as int, w as int);
            assert((bi as int) / (w as int) < self.height()) by (nonlinear_arith)
                requires
                    (bi as int) == (w as int) * ((bi as int) / (w as int)) + (bi as int) % (
                    w as int),
                    0 <= (bi as int) % (w as int),
                    0 <= bi < self.width() * self.height(),
                    0 < w == self.width(),
            ;
            assert((py as int) * (w as int) + (px as int) == bi as int) by (nonlinear_arith)
                requires
                    (bi as int) == (w as int) * ((bi as int) / (w as int)) + (bi as int) % (
                    w as int),
                    py as int == (bi as int) / (w as int),
                    px as int == (bi as int) % (w as int),
            ;
            assert forall|x: int, y: int|
                0 <= x < self.width() && 0 <= y < self.height() implies #[trigger] self.pix(x, y)
                <= self.pix(px as int, py as int) by {
                lemma_row_major_bound(x, y, self.width(), self.height());
            }
            assert forall|x: int, y: int|
                0 <= x < self.width() && 0 <= y < self.height() && y * self.width() + x < (
            py as int) * self.width() + (px as int) implies #[trigger] self.pix(x, y) < self.pix(
                px as int,
                py as int,
            ) by {
                lemma_row_major_bound(x, y, self.width(), self.height());
            }
        }
        (px, py)
    }
}

/// A wrapped correlation-peak coordinate read as a signed offset: an index
/// past half the dimension stands for a negative shift and has the full
/// dimension subtracted.
pub open spec fn unwrap_coord(p: int, n: int) -> int {
    if 2 * p > n {
        p - n
    } else {
        p
    }
}

/// Converts the wrapped peak coordinate of a correlation surface to the
/// signed translation it represents.
pub fn unwrap_offset(p: (usize, usize), size: (usize, usize)) -> (r: (i64, i64))
    requires
        in_grid(size, p),
        size.0 <= 0x40000000,
        size.1 <= 0x40000000,
    ensures
        r.0 == unwrap_coord(p.0 as int, size.0 as int),
        r.1 == unwrap_coord(p.1 as int, size.1 as int),
{
    let dx: i64 = if p.0 > size.0 / 2 {
        proof {
            lemma_half_lt(p.0 as int, size.0 as int);
        }
        (p.0 as i64) - (size.0 as i64)
    } else {
        proof {
            lemma_half_ge(p.0 as int, size.0 as int);
        }
        p.0 as i64
    };
    let dy: i64 = if p.1 > size.1 / 2 {
        proof {
            lemma_half_lt(p.1 as int, size.1 as int);
        }
        (p.1 as i64) - (size.1 as i64)
    } else {
        proof {
            lemma_half_ge(p.1 as int, size.1 as int);
        }
        p.1 as i64
    };
    (dx, dy)
}

proof fn lemma_half_lt(p: int, n: int)
    requires
        0 < n,
        0 <= p < n,
        p > n / 2,
    ensures
        2 * p > n,
        unwrap_coord(p, n) == p - n,
{
    vstd::arithmetic::div_mod::lemma_fundamental_div_mod(n, 2);
    vstd::arithmetic::div_mod::lemma_mod_bound(n, 2);
}

proof fn lemma_half_ge(p: int, n: int)
    requires
        0 < n,
        0 <= p < n,
        p <= n / 2,
    ensures
        2 * p <= n,
        unwrap_coord(p, n) == p,
{
    vstd::arithmetic::div_mod::lemma_fundamental_div_mod(n, 2);
    vstd::arithmetic::div_mod::lemma_mod_bound(n, 2);
}

/// Law: a signed offset of magnitude within half the dimension survives
/// the wrap-unwrap round trip.  Wrapping `d` into `[0, n)` by the
/// Euclidean remainder (as the discrete correlation surface does) and
/// unwrapping the resulting coordinate gives back exactly `d`.
pub proof fn lemma_unwrap_round_trip(d: int, n: int)
    requires
        0 < n,
        -n < 2 * d <= n,
    ensures
        unwrap_coord(d % n, n) == d,
{
    if d >= 0 {
        vstd::arithmetic::div_mod::lemma_small_mod(d as nat, n as nat);
        assert(2 * (d % n) <= n);
    } else {
        vstd::arithmetic::div_mod::lemma_mod_multiples_vanish(1, d, n);
        vstd::arithmetic::div_mod::lemma_small_mod((d + n) as nat, n as nat);
        assert(d % n == d + n);
        assert(2 * (d + n) > n);
    }
}

/// The unwrapped location of the correlation peak of a surface: the peak
/// search and unwrapping stages that close the phase-correlation pipeline
/// and yield the spectral correlator's translation estimate.
pub fn peak_offset(surface: &Image<i64>) -> (r: (i64, i64))
    requires
        surface.wf(),
        0 < surface.size.0 <= 0x40000000,
        0 < surface.size.1 <= 0x40000000,
    ensures
        exists|p: (usize, usize)|
            {
                &&& #[trigger] in_grid(surface.size, p)
                &&& forall|x: int, y: int|
                    0 <= x < surface.width() && 0 <= y < surface.height()
                        ==> #[trigger] surface.pix(x, y) <= surface.pix(p.0 as int, p.1 as int)
                &&& forall|x: int, y: int|
                    0 <= x < surface.width() && 0 <= y < surface.height() && y * surface.width()
                        + x < p.1 * surface.width() + p.0 ==> #[trigger] surface.pix(x, y)
                        < surface.pix(p.0 as int, p.1 as int)
                &&& r.0 == unwrap_coord(p.0 as int, surface.size.0 as int)
                &&& r.1 == unwrap_coord(p.1 as int, surface.size.1 as int)
            },
{
    let p = surface.find_peak();
    unwrap_offset(p, surface.size)
}

} // verus!
