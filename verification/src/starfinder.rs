use vstd::prelude::*;

use crate::alg::{
    above_mask, clip_of, component_ok, components, floor_of, in_grid, is_components, isqrt,
    lemma_mean_stdev_matches_two_pass, lemma_sample_range, lemma_sample_sq_range,
    lemma_sqrt_floor_bound, lin, mask_at, mean_stdev, sum_of, sum_sq_of, var_num_of,
};
use crate::image::{lemma_row_major_bound, Image};

verus! {

/// An exact rational value: `num / den`.
pub struct Frac {
    pub num: i64,
    pub den: i64,
}

/// A detected star: the flux-weighted centroid of one bright region, in
/// pixel coordinates of the source frame, and its approximate total
/// brightness above background.
pub struct Star {
    pub x: Frac,
    pub y: Frac,
    pub flux: i64,
}

impl Star {
    pub fn new(x: Frac, y: Frac, flux: i64) -> (r: Self)
        ensures
            r.x == x,
            r.y == y,
            r.flux == flux,
    {
        Star { x, y, flux }
    }
}

/// The brightness of pixel `c` above the detection floor.
pub open spec fn flux_above(
    data: Seq<i64>,
    size: (usize, usize),
    floor: int,
    c: (usize, usize),
) -> int {
    data[lin(size, c)] - floor
}

/// The total flux above the floor over the pixels of one region.
pub open spec fn comp_den(
    data: Seq<i64>,
    size: (usize, usize),
    floor: int,
    c: Seq<(usize, usize)>,
) -> int
    decreases c.len(),
{
    if c.len() == 0 {
        0
    } else {
        comp_den(data, size, floor, c.drop_last()) + flux_above(data, size, floor, c.last())
    }
}

/// The flux-weighted sum of the x coordinates of one region's pixels.
pub open spec fn comp_xnum(
    data: Seq<i64>,
    size: (usize, usize),
    floor: int,
    c: Seq<(usize, usize)>,
) -> int
    decreases c.len(),
{
    if c.len() == 0 {
        0
    } else {
        comp_xnum(data, size, floor, c.drop_last()) + c.last().0 * flux_above(
            data,
            size,
            floor,
            c.last(),
        )
    }
}

/// The flux-weighted sum of the y coordinates of one region's pixels.
pub open spec fn comp_ynum(
    data: Seq<i64>,
    size: (usize, usize),
    floor: int,
    c: Seq<(usize, usize)>,
) -> int
    decreases c.len(),
{
    if c.len() == 0 {
        0
    } else {
        comp_ynum(data, size, floor, c.drop_last()) + c.last().1 * flux_above(
            data,
            size,
            floor,
            c.last(),
        )
    }
}

/// The star derived from one region: its centroid is the exact
/// flux-weighted average position, and its flux is the flux above the
/// floor plus the clipped background estimate for each of its pixels.
pub open spec fn star_matches(
    star: Star,
    data: Seq<i64>,
    size: (usize, usize),
    floor: int,
    clip: int,
    c: Seq<(usize, usize)>,
) -> bool {
    &&& star.x.num == comp_xnum(data, size, floor, c)
    &&& star.y.num == comp_ynum(data, size, floor, c)
    &&& star.x.den == comp_den(data, size, floor, c)
    &&& star.y.den == comp_den(data, size, floor, c)
    &&& star.flux == comp_den(data, size, floor, c) + c.len() * clip
}

/// The star list derived from a region list: regions of fewer than 5 or
/// more than 100 pixels are discarded, the rest map to their stars in
/// order.
pub open spec fn stars_match(
    data: Seq<i64>,
    size: (usize, usize),
    floor: int,
    clip: int,
    cs: Seq<Seq<(usize, usize)>>,
    stars: Seq<Star>,
) -> bool
    decreases cs.len(),
{
    if cs.len() == 0 {
        stars.len() == 0
    } else if 5 <= cs.last().len() <= 100 {
        &&& stars.len() > 0
        &&& stars_match(data, size, floor, clip, cs.drop_last(), stars.drop_last())
        &&& star_matches(stars.last(), data, size, floor, clip, cs.last())
    } else {
        stars_match(data, size, floor, clip, cs.drop_last(), stars)
    }
}

proof fn lemma_comp_sums_bounds(
    data: Seq<i64>,
    size: (usize, usize),
    floor: int,
    c: Seq<(usize, usize)>,
)
    requires
        forall|j: int| 0 <= j < data.len() ==> 0 <= #[trigger] data[j] <= 65535,
        0 <= floor,
        forall|j: int|
            0 <= j < c.len() ==> in_grid(size, #[trigger] c[j]) && data[lin(size, c[j])] > floor,
        size.0 * size.1 == data.len(),
        data.len() <= 0x1000000,
    ensures
        c.len() <= comp_den(data, size, floor, c) <= c.len() * 65536,
        0 <= comp_xnum(data, size, floor, c) <= c.len() * 0x10000000000,
        0 <= comp_ynum(data, size, floor, c) <= c.len() * 0x10000000000,
    decreases c.len(),
{
    if c.len() > 0 {
        let rest = c.drop_last();
        lemma_comp_sums_bounds(data, size, floor, rest);
        let p = c.last();
        lemma_row_major_bound(p.0 as int, p.1 as int, size.0 as int, size.1 as int);
        let f = flux_above(data, size, floor, p);
        assert(1 <= f <= 65536);
        assert(p.0 <= 0x1000000 && p.1 <= 0x1000000) by (nonlinear_arith)
            requires
                p.0 < size.0 && p.1 < size.1,
                size.0 * size.1 <= 0x1000000,
                size.0 * size.1 == data.len(),
                0 <= p.1 * size.0 + p.0 < data.len(),
        ;
        assert(0 <= p.0 * f <= 0x10000000000) by (nonlinear_arith)
            requires
                1 <= f <= 65536,
                0 <= p.0 <= 0x1000000,
        ;
        assert(0 <= p.1 * f <= 0x10000000000) by (nonlinear_arith)
            requires
                1 <= f <= 65536,
                0 <= p.1 <= 0x1000000,
        ;
        assert((c.len() - 1) * 65536 + 65536 == c.len() * 65536) by (nonlinear_arith);
        assert((c.len() - 1) * 0x10000000000 + 0x10000000000 == c.len() * 0x10000000000)
            by (nonlinear_arith);
    }
}

/// Detects the stars of a frame.  The detection floor is the mean plus
/// three standard deviations of all samples, rounded down to an integer;
/// pixels strictly above the floor are grouped into 4-connected regions,
/// and regions of 5 to 100 pixels become stars with exact flux-weighted
/// centroids.  A surviving region's net flux is always positive, because
/// each of its pixels lies strictly above the floor, so the degenerate
/// zero-flux case cannot arise here.
pub fn find_stars(img: &Image<i64>) -> (r: Vec<Star>)
    requires
        img.wf(),
        1 <= img.size.0,
        1 <= img.size.1,
        img.data@.len() <= 0x1000000,
        forall|i: int| 0 <= i < img.data@.len() ==> 0 <= #[trigger] img.data@[i] <= 65535,
    ensures
        exists|cs: Seq<Seq<(usize, usize)>>|
            {
                &&& #[trigger] is_components(
                    img.size,
                    above_mask(img.data@, floor_of(img.data@)),
                    cs,
                )
                &&& stars_match(
                    img.data@,
                    img.size,
                    floor_of(img.data@),
                    clip_of(img.data@),
                    cs,
                    r@,
                )
            },
{
    proof {
        vstd::std_specs::vec::axiom_spec_len(&img.data);
    }
    let ghost gdata = img.data@;
    let ghost gsize = img.size;
    let stats = mean_stdev(&img.data);
    proof {
        lemma_mean_stdev_matches_two_pass(gdata);
        lemma_sample_range(gdata, 0, 65535);
        lemma_sample_sq_range(gdata, 65535);
        assert(0 <= gdata.len() * 0 && gdata.len() * 65535 < 0x10000000000) by (nonlinear_arith)
            requires
                gdata.len() <= 0x1000000,
        ;
        assert(gdata.len() * sum_sq_of(gdata) <= 0x100000000000000000000) by (nonlinear_arith)
            requires
                0 <= gdata.len() <= 0x1000000,
                0 <= sum_sq_of(gdata) <= gdata.len() * (65535 * 65535),
        ;
        assert(0 <= gdata.len() * sum_sq_of(gdata)) by (nonlinear_arith)
            requires
                0 <= gdata.len(),
                0 <= sum_sq_of(gdata),
        ;
        assert(0 <= sum_of(gdata) * sum_of(gdata) <= 0x100000000000000000000)
            by (nonlinear_arith)
            requires
                0 <= sum_of(gdata) < 0x10000000000,
        ;
    }
    let var_num: i128 = (stats.count as i128) * stats.sum_sq - stats.sum * stats.sum;
    let nine_var: i128 = 9 * var_num;
    proof {
        assert(var_num == var_num_of(gdata));
        assert(var_num >= 0);
    }
    let rt: u64 = isqrt(nine_var as u128);
    proof {
        assert((0x40000000000int + 1) * (0x40000000000int + 1) >= 0x1000000000000000000000)
            by (nonlinear_arith);
        assert(9 * var_num_of(gdata) < 0x1000000000000000000000);
        lemma_sqrt_floor_bound((9 * var_num_of(gdata)) as nat, 0x40000000000);
    }
    let count = stats.count as u128;
    proof {
        assert(gsize.0 * gsize.1 >= 1) by (nonlinear_arith)
            requires
                gsize.0 >= 1,
                gsize.1 >= 1,
        ;
    }
    let floor_num = (stats.sum as u128) + (rt as u128);
    let floor64: i64 = (floor_num / count) as i64;
    let clip64: i64 = ((rt as u128) / count) as i64;
    proof {
        vstd::arithmetic::div_mod::lemma_div_nonincreasing(floor_num as int, count as int);
        vstd::arithmetic::div_mod::lemma_div_nonincreasing(rt as int, count as int);
        vstd::arithmetic::div_mod::lemma_div_pos_is_pos(floor_num as int, count as int);
        vstd::arithmetic::div_mod::lemma_div_pos_is_pos(rt as int, count as int);
        assert(floor64 == floor_of(gdata));
        assert(clip64 == clip_of(gdata));
    }
    // Mask of the pixels strictly above the detection floor.
    let n = img.data.len();
    let mut mb: Vec<bool> = Vec::new();
    let mut i: usize = 0;
    while i < n
        invariant
            i <= n,
            n == gdata.len(),
            gdata == img.data@,
            mb@.len() == i,
            forall|j: int| 0 <= j < i ==> #[trigger] mb@[j] == (gdata[j] > floor64),
        decreases n - i,
    {
        let b = img.data[i] > floor64;
        mb.push(b);
        i = i + 1;
    }
    let mask = Image::new(mb, img.size);
    proof {
        assert(mask.data@ =~= above_mask(gdata, floor_of(gdata)));
    }
    let cs = components(&mask);
    let ghost csv = cs@.map_values(|c: Vec<(usize, usize)>| c@);
    // Centroid and flux of each surviving region.
    let mut stars: Vec<Star> = Vec::new();
    let nc = cs.len();
    let mut k: usize = 0;
    while k < nc
        invariant
            k <= nc,
            nc == cs@.len(),
            csv == cs@.map_values(|c: Vec<(usize, usize)>| c@),
            gdata == img.data@,
            gsize == img.size,
            img.wf(),
            gdata.len() <= 0x1000000,
            gsize.0 * gsize.1 == gdata.len(),
            forall|i2: int| 0 <= i2 < gdata.len() ==> 0 <= #[trigger] gdata[i2] <= 65535,
            0 <= floor64,
            floor64 == floor_of(gdata),
            0 <= clip64 <= 0x40000000000,
            clip64 == clip_of(gdata),
            is_components(gsize, above_mask(gdata, floor_of(gdata)), csv),
            stars_match(
                gdata,
                gsize,
                floor64 as int,
                clip64 as int,
                csv.subrange(0, k as int),
                stars@,
            ),
        decreases nc - k,
    {
        proof {
            assert(csv[k as int] == cs@[k as int]@);
            assert(component_ok(gsize, above_mask(gdata, floor_of(gdata)), csv[k as int]));
            assert forall|j2: int| 0 <= j2 < cs@[k as int]@.len() implies in_grid(
                gsize,
                #[trigger] cs@[k as int]@[j2],
            ) && gdata[lin(gsize, cs@[k as int]@[j2])] > floor64 by {
                let p = cs@[k as int]@[j2];
                assert(in_grid(gsize, p) && mask_at(
                    gsize,
                    above_mask(gdata, floor_of(gdata)),
                    p,
                ));
                lemma_row_major_bound(p.0 as int, p.1 as int, gsize.0 as int, gsize.1 as int);
            }
            assert(csv.subrange(0, k + 1).drop_last() =~= csv.subrange(0, k as int));
            assert(csv.subrange(0, k + 1).last() == csv[k as int]);
        }
        let c_len = cs[k].len();
        if 5 <= c_len && c_len <= 100 {
            let mut xnum: i64 = 0;
            let mut ynum: i64 = 0;
            let mut den: i64 = 0;
            let mut j: usize = 0;
            while j < c_len
                invariant
                    j <= c_len,
                    k < nc,
                    nc == cs@.len(),
                    c_len == cs@[k as int]@.len(),
                    c_len <= 100,
                    gdata == img.data@,
                    gsize == img.size,
                    img.wf(),
                    gdata.len() <= 0x1000000,
                    gsize.0 * gsize.1 == gdata.len(),
                    forall|i2: int| 0 <= i2 < gdata.len() ==> 0 <= #[trigger] gdata[i2] <= 65535,
                    0 <= floor64,
                    forall|j2: int|
                        0 <= j2 < cs@[k as int]@.len() ==> in_grid(
                            gsize,
                            #[trigger] cs@[k as int]@[j2],
                        ) && gdata[lin(gsize, cs@[k as int]@[j2])] > floor64,
                    xnum == comp_xnum(
                        gdata,
                        gsize,
                        floor64 as int,
                        cs@[k as int]@.subrange(0, j as int),
                    ),
                    ynum == comp_ynum(
                        gdata,
                        gsize,
                        floor64 as int,
                        cs@[k as int]@.subrange(0, j as int),
                    ),
                    den == comp_den(
                        gdata,
                        gsize,
                        floor64 as int,
                        cs@[k as int]@.subrange(0, j as int),
                    ),
                decreases c_len - j,
            {
                let ghost pre = cs@[k as int]@.subrange(0, j as int);
                proof {
                    lemma_comp_sums_bounds(gdata, gsize, floor64 as int, pre);
                    assert(pre.len() * 65536 <= 100 * 65536) by (nonlinear_arith)
                        requires
                            pre.len() <= 100,
                    ;
                    assert(pre.len() * 0x10000000000 <= 100 * 0x10000000000) by (nonlinear_arith)
                        requires
                            pre.len() <= 100,
                    ;
                    assert(cs@[k as int]@.subrange(0, j + 1).drop_last() =~= pre);
                    assert(cs@[k as int]@.subrange(0, j + 1).last() == cs@[k as int]@[j as int]);
                }
                let p = cs[k][j];
                proof {
                    lemma_row_major_bound(p.0 as int, p.1 as int, gsize.0 as int, gsize.1 as int);
                    assert(p.0 <= 0x1000000 && p.1 <= 0x1000000) by (nonlinear_arith)
                        requires
                            p.0 < gsize.0 && p.1 < gsize.1,
                            gsize.0 * gsize.1 <= 0x1000000,
                            0 <= p.1 * gsize.0 + p.0 < gsize.0 * gsize.1,
                    ;
                    assert(0 <= p.0 * (gdata[lin(gsize, p)] - floor64) <= 0x10000000000)
                        by (nonlinear_arith)
                        requires
                            1 <= gdata[lin(gsize, p)] - floor64 <= 65536,
                            0 <= p.0 <= 0x1000000,
                    ;
                    assert(0 <= p.1 * (gdata[lin(gsize, p)] - floor64) <= 0x10000000000)
                        by (nonlinear_arith)
                        requires
                            1 <= gdata[lin(gsize, p)] - floor64 <= 65536,
                            0 <= p.1 <= 0x1000000,
                    ;
                }
                let v = img.get(p.0, p.1);
                let fa = v - floor64;
                xnum = xnum + (p.0 as i64) * fa;
                ynum = ynum + (p.1 as i64) * fa;
                den = den + fa;
                j = j + 1;
            }
            proof {
                assert(cs@[k as int]@.subrange(0, c_len as int) =~= cs@[k as int]@);
                lemma_comp_sums_bounds(gdata, gsize, floor64 as int, cs@[k as int]@);
                assert(cs@[k as int]@.len() * 65536 <= 100 * 65536) by (nonlinear_arith)
                    requires
                        cs@[k as int]@.len() <= 100,
                ;
                assert(0 <= (c_len as int) * (clip64 as int) <= 100 * 0x40000000000)
                    by (nonlinear_arith)
                    requires
                        0 <= c_len <= 100,
                        0 <= clip64 <= 0x40000000000,
                ;
            }
            let flux = den + (c_len as i64) * clip64;
            let star = Star::new(Frac { num: xnum, den }, Frac { num: ynum, den }, flux);
            let ghost pre_stars = stars@;
            stars.push(star);
            proof {
                assert(stars@.drop_last() =~= pre_stars);
            }
        }
        k = k + 1;
    }
    proof {
        assert(csv.subrange(0, nc as int) =~= csv);
        assert(is_components(img.size, above_mask(img.data@, floor_of(img.data@)), csv));
        assert(stars_match(
            img.data@,
            img.size,
            floor_of(img.data@),
            clip_of(img.data@),
            csv,
            stars@,
        ));
    }
    stars
}

} // verus!
