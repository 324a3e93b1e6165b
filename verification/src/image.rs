use vstd::prelude::*;

verus! {

/// A fixed-size two-dimensional buffer of samples, stored row-major.
///
/// The coordinate `(x, y)` (column `x`, row `y`) maps to the linear index
/// `y * width + x`.
pub struct Image<T> {
    pub data: Vec<T>,
    pub size: (usize, usize),
}

impl<T: Copy> Image<T> {
    /// Structural invariant: the backing vector holds exactly
    /// `width * height` samples.
    pub open spec fn wf(self) -> bool {
        self.data@.len() == self.size.0 * self.size.1
    }

    pub open spec fn width(self) -> int {
        self.size.0 as int
    }

    pub open spec fn height(self) -> int {
        self.size.1 as int
    }

    /// The sample at column `x`, row `y`.
    pub open spec fn pix(self, x: int, y: int) -> T {
        self.data@[y * self.width() + x]
    }

    pub fn new(data: Vec<T>, size: (usize, usize)) -> (r: Self)
        requires
            data@.len() == size.0 * size.1,
        ensures
            r.wf(),
            r.data == data,
            r.size == size,
    {
        Image { data, size }
    }

    /// A grid of the given size filled with one value everywhere.
    pub fn new_val(data: T, size: (usize, usize)) -> (r: Self)
        requires
            size.0 * size.1 <= usize::MAX,
        ensures
            r.wf(),
            r.size == size,
            forall|i: int| 0 <= i < r.data@.len() ==> r.data@[i] == data,
    {
        let n = size.0 * size.1;
        let mut v: Vec<T> = Vec::new();
        let mut i: usize = 0;
        while i < n
            invariant
                i <= n,
                v@.len() == i,
                forall|j: int| 0 <= j < i ==> v@[j] == data,
            decreases n - i,
        {
            v.push(data);
            i = i + 1;
        }
        Image::new(v, size)
    }

    /// The sample at `(x, y)`; callers must stay in range.
    pub fn get(&self, x: usize, y: usize) -> (r: T)
        requires
            self.wf(),
            x < self.size.0,
            y < self.size.1,
        ensures
            r == self.pix(x as int, y as int),
    {
        proof {
            lemma_row_major_bound(x as int, y as int, self.width(), self.height());
            vstd::std_specs::vec::axiom_spec_len(&self.data);
        }
        self.data[y * self.size.0 + x]
    }

    /// Replaces the sample at `(x, y)`; every other sample is unchanged.
    pub fn set(&mut self, x: usize, y: usize, val: T)
        requires
            old(self).wf(),
            x < old(self).size.0,
            y < old(self).size.1,
        ensures
            final(self).wf(),
            final(self).size == old(self).size,
            final(self).data@ == old(self).data@.update(
                y * old(self).width() + x,
                val,
            ),
            final(self).pix(x as int, y as int) == val,
    {
        proof {
            lemma_row_major_bound(x as int, y as int, self.width(), self.height());
            vstd::std_specs::vec::axiom_spec_len(&self.data);
        }
        let i = y * self.size.0 + x;
        self.data[i] = val;
    }
}

/// A coordinate clamped into `[0, n)` (replicate-border policy).
pub open spec fn clamp_coord(v: int, n: int) -> int {
    if v < 0 {
        0
    } else if v >= n {
        n - 1
    } else {
        v
    }
}

impl<T: Copy> Image<T> {
    /// The five-point stencil at `pos`: the sample itself and its four
    /// axis-aligned neighbours, replicating the centre value at borders.
    pub fn mid_left_right_up_down(&self, pos: (usize, usize)) -> (r: (T, T, T, T, T))
        requires
            self.wf(),
            pos.0 < self.size.0,
            pos.1 < self.size.1,
        ensures
            r.0 == self.pix(pos.0 as int, pos.1 as int),
            r.1 == if pos.0 == 0 { r.0 } else { self.pix(pos.0 - 1, pos.1 as int) },
            r.2 == if pos.0 + 1 == self.size.0 { r.0 } else { self.pix(pos.0 + 1, pos.1 as int) },
            r.3 == if pos.1 == 0 { r.0 } else { self.pix(pos.0 as int, pos.1 - 1) },
            r.4 == if pos.1 + 1 == self.size.1 { r.0 } else { self.pix(pos.0 as int, pos.1 + 1) },
    {
        let mid = self.get(pos.0, pos.1);
        let left = if pos.0 == 0 { mid } else { self.get(pos.0 - 1, pos.1) };
        let right = if pos.0 + 1 == self.size.0 { mid } else { self.get(pos.0 + 1, pos.1) };
        let up = if pos.1 == 0 { mid } else { self.get(pos.0, pos.1 - 1) };
        let down = if pos.1 + 1 == self.size.1 { mid } else { self.get(pos.0, pos.1 + 1) };
        (mid, left, right, up, down)
    }

    /// The sample at `(x, y)` with out-of-range coordinates clamped to the
    /// nearest valid ones (replicate-border policy). Never fails.
    pub fn get_clamped(&self, x: isize, y: isize) -> (r: T)
        requires
            self.wf(),
            0 < self.size.0,
            0 < self.size.1,
        ensures
            r == self.pix(
                clamp_coord(x as int, self.width()),
                clamp_coord(y as int, self.height()),
            ),
    {
        let xc: usize = if x < 0 {
            0
        } else {
            let xu = x as usize;
            if xu >= self.size.0 {
                self.size.0 - 1
            } else {
                xu
            }
        };
        let yc: usize = if y < 0 {
            0
        } else {
            let yu = y as usize;
            if yu >= self.size.1 {
                self.size.1 - 1
            } else {
                yu
            }
        };
        self.get(xc, yc)
    }

    /// The sample at `(x, y)` with coordinates reduced modulo the grid
    /// dimensions (toroidal policy). Never fails.
    pub fn get_wrapped(&self, x: isize, y: isize) -> (r: T)
        requires
            self.wf(),
            0 < self.size.0,
            0 < self.size.1,
        ensures
            r == self.pix(
                (x as int) % (self.size.0 as int),
                (y as int) % (self.size.1 as int),
            ),
    {
        let xw = wrap_coord(x, self.size.0);
        let yw = wrap_coord(y, self.size.1);
        self.get(xw, yw)
    }

    /// All coordinates of the grid in row-major order.
    pub fn iter_index(&self) -> (r: Vec<(usize, usize)>)
        requires
            self.wf(),
        ensures
            r@.len() == self.size.0 * self.size.1,
            forall|k: int|
                0 <= k < r@.len() ==> #[trigger] r@[k] == (
                    (k % self.width()) as usize,
                    (k / self.width()) as usize,
                ),
    {
        proof {
            vstd::std_specs::vec::axiom_spec_len(&self.data);
        }
        let w = self.size.0;
        let h = self.size.1;
        let mut r: Vec<(usize, usize)> = Vec::new();
        let mut y: usize = 0;
        while y < h
            invariant
                y <= h,
                w * h <= usize::MAX,
                r@.len() == y * w,
                forall|k: int|
                    0 <= k < r@.len() ==> #[trigger] r@[k] == (
                        (k % (w as int)) as usize,
                        (k / (w as int)) as usize,
                    ),
            decreases h - y,
        {
            let mut x: usize = 0;
            while x < w
                invariant
                    x <= w,
                    y < h,
                    w * h <= usize::MAX,
                    r@.len() == y * w + x,
                    forall|k: int|
                        0 <= k < r@.len() ==> #[trigger] r@[k] == (
                            (k % (w as int)) as usize,
                            (k / (w as int)) as usize,
                        ),
                decreases w - x,
            {
                proof {
                    lemma_row_major_bound(x as int, y as int, w as int, h as int);
                    vstd::arithmetic::div_mod::lemma_fundamental_div_mod_converse_mod(
                        y * w + x,
                        w as int,
                        y as int,
                        x as int,
                    );
                    vstd::arithmetic::div_mod::lemma_fundamental_div_mod_converse_div(
                        y * w + x,
                        w as int,
                        y as int,
                        x as int,
                    );
                }
                r.push((x, y));
                x = x + 1;
            }
            proof {
                assert((y + 1) * w == y * w + w) by (nonlinear_arith);
            }
            y = y + 1;
        }
        proof {
            assert((h as int) * (w as int) == (w as int) * (h as int)) by (nonlinear_arith);
        }
        r
    }

    /// The grid with rows and columns exchanged.
    pub fn transpose(&self) -> (r: Self)
        requires
            self.wf(),
        ensures
            r.wf(),
            r.size == (self.size.1, self.size.0),
            forall|x: int, y: int|
                0 <= x < self.width() && 0 <= y < self.height() ==> r.pix(y, x) == self.pix(x, y),
    {
        proof {
            vstd::std_specs::vec::axiom_spec_len(&self.data);
            assert(self.size.1 * self.size.0 == self.size.0 * self.size.1) by (nonlinear_arith);
        }
        let w = self.size.0;
        let h = self.size.1;
        let mut v: Vec<T> = Vec::new();
        // The output is (h, w)-sized: its row ny holds the input's column ny.
        let mut ny: usize = 0;
        while ny < w
            invariant
                ny <= w,
                self.wf(),
                w == self.size.0,
                h == self.size.1,
                w * h <= usize::MAX,
                v@.len() == ny * h,
                forall|k: int|
                    0 <= k < v@.len() ==> #[trigger] v@[k] == self.pix(
                        k / (h as int),
                        k % (h as int),
                    ),
            decreases w - ny,
        {
            let mut nx: usize = 0;
            while nx < h
                invariant
                    nx <= h,
                    ny < w,
                    self.wf(),
                    w == self.size.0,
                    h == self.size.1,
                    w * h <= usize::MAX,
                    v@.len() == ny * h + nx,
                    forall|k: int|
                        0 <= k < v@.len() ==> #[trigger] v@[k] == self.pix(
                            k / (h as int),
                            k % (h as int),
                        ),
                decreases h - nx,
            {
                proof {
                    lemma_row_major_bound(nx as int, ny as int, h as int, w as int);
                    assert(h * w == w * h) by (nonlinear_arith);
                    vstd::arithmetic::div_mod::lemma_fundamental_div_mod_converse_mod(
                        ny * h + nx,
                        h as int,
                        ny as int,
                        nx as int,
                    );
                    vstd::arithmetic::div_mod::lemma_fundamental_div_mod_converse_div(
                        ny * h + nx,
                        h as int,
                        ny as int,
                        nx as int,
                    );
                }
                let s = self.get(ny, nx);
                v.push(s);
                nx = nx + 1;
            }
            proof {
                assert((ny + 1) * h == ny * h + h) by (nonlinear_arith);
            }
            ny = ny + 1;
        }
        let r = Image::new(v, (h, w));
        proof {
            assert forall|x: int, y: int|
                0 <= x < self.width() && 0 <= y < self.height() implies r.pix(y, x) == self.pix(
                x,
                y,
            ) by {
                lemma_row_major_bound(y, x, h as int, w as int);
                vstd::arithmetic::div_mod::lemma_fundamental_div_mod_converse_mod(
                    x * (h as int) + y,
                    h as int,
                    x,
                    y,
                );
                vstd::arithmetic::div_mod::lemma_fundamental_div_mod_converse_div(
                    x * (h as int) + y,
                    h as int,
                    x,
                    y,
                );
            }
        }
        r
    }
}

/// Reduces `x` into `[0, w)` by the Euclidean remainder.
fn wrap_coord(x: isize, w: usize) -> (r: usize)
    requires
        0 < w,
    ensures
        r == (x as int) % (w as int),
{
    if x >= 0 {
        (x as usize) % w
    } else {
        // For x < 0, write x as -(a + 1) with a >= 0; then
        // x mod w == w - 1 - (a mod w).
        let a = -(x + 1);
        let m = (a as usize) % w;
        proof {
            let ai = a as int;
            let wi = w as int;
            let xi = x as int;
            vstd::arithmetic::div_mod::lemma_fundamental_div_mod(ai, wi);
            vstd::arithmetic::div_mod::lemma_mod_bound(ai, wi);
            let q = ai / wi;
            let mi = ai % wi;
            assert(xi == (-q - 1) * wi + (wi - 1 - mi)) by (nonlinear_arith)
                requires
                    ai == wi * q + mi,
                    xi == -ai - 1,
            ;
            vstd::arithmetic::div_mod::lemma_fundamental_div_mod_converse_mod(
                xi,
                wi,
                -q - 1,
                wi - 1 - mi,
            );
        }
        w - 1 - m
    }
}

/// Moves `coord` by `delta` inside a grid of dimensions `size`; `None` when
/// the moved coordinate falls outside the grid.
pub fn offset(coord: (usize, usize), delta: (isize, isize), size: (usize, usize)) -> (r: Option<
    (usize, usize),
>)
    ensures
        ({
            let nx = coord.0 + delta.0;
            let ny = coord.1 + delta.1;
            if 0 <= nx < size.0 && 0 <= ny < size.1 {
                r == Some(((coord.0 + delta.0) as usize, (coord.1 + delta.1) as usize))
            } else {
                r == None::<(usize, usize)>
            }
        }),
{
    let nx = coord.0 as i128 + delta.0 as i128;
    let ny = coord.1 as i128 + delta.1 as i128;
    if 0 <= nx && nx < size.0 as i128 && 0 <= ny && ny < size.1 as i128 {
        Some((nx as usize, ny as usize))
    } else {
        None
    }
}

/// Row-major cursor over the coordinates of a grid.
pub struct Range2d {
    pub size: (usize, usize),
    pub cur: (usize, usize),
}

impl Range2d {
    pub fn new(size: (usize, usize)) -> (r: Self)
        ensures
            r.size == size,
            r.cur == (0usize, 0usize),
    {
        Range2d { size, cur: (0, 0) }
    }

    /// Yields the current coordinate and steps to the next one in row-major
    /// order; `None` once every row has been passed.
    pub fn next(&mut self) -> (r: Option<(usize, usize)>)
        requires
            0 < old(self).size.0,
            old(self).cur.0 < old(self).size.0,
        ensures
            final(self).size == old(self).size,
            final(self).cur.0 < final(self).size.0,
            old(self).cur.1 >= old(self).size.1 ==> r == None::<(usize, usize)> && *final(self)
                == *old(self),
            old(self).cur.1 < old(self).size.1 ==> r == Some(old(self).cur) && final(self).cur == (
                if old(self).cur.0 + 1 == old(self).size.0 {
                    (0usize, (old(self).cur.1 + 1) as usize)
                } else {
                    ((old(self).cur.0 + 1) as usize, old(self).cur.1)
                }
            ),
    {
        if self.cur.1 >= self.size.1 {
            None
        } else {
            let result = self.cur;
            if self.cur.0 + 1 >= self.size.0 {
                self.cur = (0, self.cur.1 + 1);
            } else {
                self.cur = (self.cur.0 + 1, self.cur.1);
            }
            Some(result)
        }
    }
}

impl<T: Copy + Default> Image<T> {
    /// A grid of the given size filled with the sample type's default value.
    pub fn zero(size: (usize, usize)) -> (r: Self)
        requires
            size.0 * size.1 <= usize::MAX,
        ensures
            r.wf(),
            r.size == size,
            forall|i: int, j: int|
                0 <= i < r.data@.len() && 0 <= j < r.data@.len() ==> r.data@[i] == r.data@[j],
    {
        Self::new_val(T::default(), size)
    }
}

/// In-range coordinates map to a linear index below `width * height`.
pub proof fn lemma_row_major_bound(x: int, y: int, w: int, h: int)
    by (nonlinear_arith)
    requires
        0 <= x < w,
        0 <= y < h,
    ensures
        0 <= y * w + x < w * h,
{
}

/// The row-major encoding is injective over in-range coordinates.
pub proof fn lemma_row_major_injective(x1: int, y1: int, x2: int, y2: int, w: int)
    by (nonlinear_arith)
    requires
        0 <= x1 < w,
        0 <= x2 < w,
        0 <= y1,
        0 <= y2,
        y1 * w + x1 == y2 * w + x2,
    ensures
        x1 == x2 && y1 == y2,
{
}

} // verus!
