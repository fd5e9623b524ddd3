//! The pixel buffer: a dense width x height grid of pixels with a
//! bottom-left origin, bounds-checked access and shape rasterization.

use vstd::prelude::*;
use vstd::pervasive::VecAdditionalExecFns;

use crate::arith::isqrt;
use crate::arith::lemma_ratio_floor_unique;
use crate::arith::ratio_ceil;
use crate::arith::ratio_floor;
use crate::arith::ratio_floor_from;
use crate::arith::sq_eq;
use crate::geometry::Coord;
use crate::geometry::diff;
use crate::pixel::Pixel;

verus! {

/// A dense grid of pixels. Cell (0, 0) is the bottom-left corner and y
/// grows upward; storage is row-major from the top row down.
pub struct ImagePPM {
    pixels: Vec<Pixel>,
    width: usize,
    height: usize,
}

/// Whether cell (x, y) lies strictly inside the disk around `center` of
/// the given radius: its squared Euclidean distance to the center is
/// strictly below radius^2, which says exactly that the distance itself is
/// strictly below the radius. Cells at distance exactly the radius are
/// outside.
pub open spec fn in_disk(center: Coord, radius: int, x: int, y: int) -> bool {
    let dx = diff(x, center.x as int);
    let dy = diff(y, center.y as int);
    dx * dx + dy * dy < radius * radius
}

/// The storage index of cell (x, y): column x of row (height - 1 - y)
/// from the top.
pub open spec fn row_major_index(width: int, height: int, x: int, y: int) -> int {
    x + (height - y - 1) * width
}

/// The storage index of an in-bounds cell is itself in bounds.
proof fn lemma_index_in_range(width: int, height: int, x: int, y: int)
    requires
        0 <= x < width,
        0 <= y < height,
    ensures
        0 <= row_major_index(width, height, x, y) < width * height,
{
    assert(0 <= x + (height - y - 1) * width < width * height) by (nonlinear_arith)
        requires
            0 <= x < width,
            0 <= y < height,
    ;
}

/// Distinct in-bounds cells have distinct storage indices.
proof fn lemma_index_injective(width: int, height: int, x1: int, y1: int, x2: int, y2: int)
    requires
        0 <= x1 < width,
        0 <= y1 < height,
        0 <= x2 < width,
        0 <= y2 < height,
        row_major_index(width, height, x1, y1) == row_major_index(width, height, x2, y2),
    ensures
        x1 == x2 && y1 == y2,
{
    assert(x1 == x2 && y1 == y2) by (nonlinear_arith)
        requires
            0 <= x1 < width,
            0 <= y1 < height,
            0 <= x2 < width,
            0 <= y2 < height,
            x1 + (height - y1 - 1) * width == x2 + (height - y2 - 1) * width,
    ;
}

impl ImagePPM {
    /// The buffer invariant: the flat storage holds exactly width * height
    /// pixels.
    pub closed spec fn wf(self) -> bool {
        self.pixels.len() == self.width * self.height
    }

    pub closed spec fn width(self) -> usize {
        self.width
    }

    pub closed spec fn height(self) -> usize {
        self.height
    }

    /// The pixel stored for cell (x, y), bottom-left origin.
    pub closed spec fn pixel_at(self, x: int, y: int) -> Pixel {
        self.pixels@[row_major_index(self.width as int, self.height as int, x, y)]
    }

    /// The flat storage sequence, top row first, left to right in a row.
    pub closed spec fn storage(self) -> Seq<Pixel> {
        self.pixels@
    }

    /// The flat storage, for in-crate readers such as the serializer.
    pub(crate) fn storage_ref(&self) -> (v: &Vec<Pixel>)
        ensures
            v@ == self.storage(),
    {
        &self.pixels
    }

    /// The grid width, as an executable value.
    pub(crate) fn width_val(&self) -> (w: usize)
        ensures
            w == self.width(),
    {
        self.width
    }

    /// The grid height, as an executable value.
    pub(crate) fn height_val(&self) -> (h: usize)
        ensures
            h == self.height(),
    {
        self.height
    }

    /// A well-formed buffer stores exactly width * height pixels.
    pub proof fn lemma_storage_len(self)
        requires
            self.wf(),
        ensures
            self.storage().len() == self.width() * self.height(),
    {
    }

    /// The storage holds each in-bounds cell at its row-major index.
    pub proof fn lemma_storage_at(self, x: int, y: int)
        requires
            self.wf(),
            0 <= x < self.width(),
            0 <= y < self.height(),
        ensures
            0 <= row_major_index(self.width() as int, self.height() as int, x, y)
                < self.storage().len(),
            self.storage()[row_major_index(self.width() as int, self.height() as int, x, y)]
                == self.pixel_at(x, y),
    {
        lemma_index_in_range(self.width as int, self.height as int, x, y);
    }

    /// Conversely, each storage index k belongs to exactly one cell:
    /// column k mod width of the grid row height - 1 - k / width. With
    /// `lemma_storage_len` and `lemma_storage_at` this determines the
    /// whole storage, and so the whole rendering, from the cell map
    /// `pixel_at` alone.
    pub proof fn lemma_storage_index(self, k: int)
        requires
            self.wf(),
            0 <= k < self.storage().len(),
        ensures
            self.width() >= 1,
            self.height() >= 1,
            0 <= k % (self.width() as int),
            (k % (self.width() as int)) < self.width(),
            0 <= self.height() as int - 1 - k / (self.width() as int),
            (self.height() as int - 1 - k / (self.width() as int)) < self.height(),
            row_major_index(
                self.width() as int,
                self.height() as int,
                k % self.width() as int,
                self.height() as int - 1 - k / self.width() as int,
            ) == k,
            self.storage()[k] == self.pixel_at(
                k % self.width() as int,
                self.height() as int - 1 - k / self.width() as int,
            ),
    {
        let w: int = self.width as int;
        let h: int = self.height as int;
        assert(w >= 1 && h >= 1) by (nonlinear_arith)
            requires
                w >= 0,
                h >= 0,
                w * h >= 1,
        ;
        vstd::arithmetic::div_mod::lemma_fundamental_div_mod(k, w);
        vstd::arithmetic::div_mod::lemma_mod_division_less_than_divisor(k, w);
        vstd::arithmetic::div_mod::lemma_div_pos_is_pos(k, w);
        assert(0 <= k / w < h && k % w + (h - (h - 1 - k / w) - 1) * w == k) by (nonlinear_arith)
            requires
                w >= 1,
                h >= 1,
                0 <= k < w * h,
                w * (k / w) + k % w == k,
                0 <= k % w < w,
                k / w >= 0,
        ;
    }

    /// Allocates a width x height buffer with every cell set to the
    /// background color.
    pub fn new(width: usize, height: usize, bg_color: Pixel) -> (img: ImagePPM)
        requires
            width * height <= usize::MAX,
        ensures
            img.wf(),
            img.width() == width,
            img.height() == height,
            forall|x: int, y: int|
                0 <= x < width && 0 <= y < height ==> img.pixel_at(x, y) == bg_color,
            img.storage() == Seq::new((width * height) as nat, |i: int| bg_color),
    {
        let n: usize = width * height;
        let mut pixels: Vec<Pixel> = Vec::new();
        let mut i: usize = 0;
        while i < n
            invariant
                i <= n,
                pixels.len() == i,
                forall|k: int| 0 <= k < i ==> pixels@[k] == bg_color,
            decreases n - i,
        {
            pixels.push(bg_color);
            i = i + 1;
        }
        let img = ImagePPM { pixels, width, height };
        proof {
            assert forall|x: int, y: int|
                0 <= x < width && 0 <= y < height implies img.pixel_at(x, y) == bg_color by {
                lemma_index_in_range(width as int, height as int, x, y);
            }
            assert(img.storage() =~= Seq::new((width * height) as nat, |i: int| bg_color));
        }
        img
    }

    /// The pixel at grid coordinate (x, y), or None exactly when either
    /// coordinate is out of bounds. Never panics.
    pub fn get(&self, x: usize, y: usize) -> (r: Option<&Pixel>)
        requires
            self.wf(),
        ensures
            r is Some <==> (x < self.width() && y < self.height()),
            r is Some ==> *r.unwrap() == self.pixel_at(x as int, y as int),
    {
        if x >= self.width || y >= self.height {
            return None;
        }
        proof {
            lemma_index_in_range(self.width as int, self.height as int, x as int, y as int);
        }
        let i: usize = x + (self.height - y - 1) * self.width;
        Some(&self.pixels[i])
    }

    /// Mutable access to the pixel at grid coordinate (x, y), or None
    /// exactly when either coordinate is out of bounds. Whatever the
    /// caller writes through the reference becomes the cell's new value;
    /// no other cell changes. Never panics.
    pub fn get_mut(&mut self, x: usize, y: usize) -> (r: Option<&mut Pixel>)
        requires
            old(self).wf(),
        ensures
            r is Some <==> (x < old(self).width() && y < old(self).height()),
            r is None ==> *final(self) == *old(self),
            r is Some ==> *r.unwrap() == old(self).pixel_at(x as int, y as int),
            r is Some ==> final(self).wf() && final(self).width() == old(self).width()
                && final(self).height() == old(self).height(),
            r is Some ==> forall|i: int, j: int|
                0 <= i < old(self).width() && 0 <= j < old(self).height() ==> final(self).pixel_at(
                    i,
                    j,
                ) == (if i == x && j == y {
                    *final(r.unwrap())
                } else {
                    old(self).pixel_at(i, j)
                }),
            r is Some ==> final(self).storage() == old(self).storage().update(
                row_major_index(
                    old(self).width() as int,
                    old(self).height() as int,
                    x as int,
                    y as int,
                ),
                *final(r.unwrap()),
            ),
    {
        if x >= self.width || y >= self.height {
            return None;
        }
        proof {
            lemma_index_in_range(self.width as int, self.height as int, x as int, y as int);
            assert forall|i2: int, j2: int|
                0 <= i2 < self.width() && 0 <= j2 < self.height() implies 0 <= row_major_index(
                self.width() as int,
                self.height() as int,
                i2,
                j2,
            ) < self.width() * self.height() && (row_major_index(
                self.width() as int,
                self.height() as int,
                i2,
                j2,
            ) == row_major_index(self.width() as int, self.height() as int, x as int, y as int)
                ==> i2 == x && j2 == y) by {
                lemma_index_in_range(self.width as int, self.height as int, i2, j2);
                if row_major_index(self.width() as int, self.height() as int, i2, j2)
                    == row_major_index(
                    self.width() as int,
                    self.height() as int,
                    x as int,
                    y as int,
                ) {
                    lemma_index_injective(
                        self.width as int,
                        self.height as int,
                        i2,
                        j2,
                        x as int,
                        y as int,
                    );
                }
            }
        }
        let i: usize = x + (self.height - y - 1) * self.width;
        Some(&mut self.pixels[i])
    }

    /// Writes the pixel at grid coordinate (x, y) and reports whether the
    /// coordinate was in bounds; an out-of-bounds write changes nothing.
    pub fn set(&mut self, x: usize, y: usize, p: Pixel) -> (r: bool)
        requires
            old(self).wf(),
        ensures
            final(self).wf(),
            final(self).width() == old(self).width(),
            final(self).height() == old(self).height(),
            r <==> (x < old(self).width() && y < old(self).height()),
            forall|i: int, j: int|
                0 <= i < old(self).width() && 0 <= j < old(self).height() ==> final(self).pixel_at(
                    i,
                    j,
                ) == (if r && i == x && j == y {
                    p
                } else {
                    old(self).pixel_at(i, j)
                }),
            r ==> final(self).storage() == old(self).storage().update(
                row_major_index(
                    old(self).width() as int,
                    old(self).height() as int,
                    x as int,
                    y as int,
                ),
                p,
            ),
            !r ==> final(self).storage() == old(self).storage(),
    {
        if x >= self.width || y >= self.height {
            return false;
        }
        proof {
            lemma_index_in_range(self.width as int, self.height as int, x as int, y as int);
        }
        let i: usize = x + (self.height - y - 1) * self.width;
        self.pixels.set(i, p);
        proof {
            assert forall|i2: int, j2: int|
                0 <= i2 < old(self).width() && 0 <= j2 < old(self).height() implies self.pixel_at(
                i2,
                j2,
            ) == (if i2 == x && j2 == y {
                p
            } else {
                old(self).pixel_at(i2, j2)
            }) by {
                lemma_index_in_range(self.width as int, self.height as int, i2, j2);
                if i2 == x && j2 == y {
                } else {
                    if row_major_index(self.width as int, self.height as int, i2, j2)
                        == row_major_index(self.width as int, self.height as int, x as int, y as int) {
                        lemma_index_injective(
                            self.width as int,
                            self.height as int,
                            i2,
                            j2,
                            x as int,
                            y as int,
                        );
                    }
                }
            }
        }
        true
    }

    /// Paints the filled disk around `center`: every cell strictly closer
    /// to the center than `radius` takes `col`, and no other cell changes.
    /// Cells whose distance equals the radius exactly are left alone.
    pub fn draw_circle(&mut self, center: Coord, radius: usize, col: Pixel)
        requires
            old(self).wf(),
        ensures
            final(self).wf(),
            final(self).width() == old(self).width(),
            final(self).height() == old(self).height(),
            forall|x: int, y: int|
                0 <= x < old(self).width() && 0 <= y < old(self).height()
                    ==> final(self).pixel_at(x, y) == (if in_disk(center, radius as int, x, y) {
                    col
                } else {
                    old(self).pixel_at(x, y)
                }),
    {
        let w: usize = self.width;
        let h: usize = self.height;
        let mut y: usize = 0;
        while y < h
            invariant
                self.wf(),
                self.width() == old(self).width(),
                self.height() == old(self).height(),
                w == self.width(),
                h == self.height(),
                y <= h,
                forall|i: int, j: int|
                    0 <= i < w && 0 <= j < h ==> #[trigger] self.pixel_at(i, j) == (if j < y
                        && in_disk(center, radius as int, i, j) {
                        col
                    } else {
                        old(self).pixel_at(i, j)
                    }),
            decreases h - y,
        {
            let mut x: usize = 0;
            while x < w
                invariant
                    self.wf(),
                    self.width() == old(self).width(),
                    self.height() == old(self).height(),
                    w == self.width(),
                    h == self.height(),
                    y < h,
                    x <= w,
                    forall|i: int, j: int|
                        0 <= i < w && 0 <= j < h ==> #[trigger] self.pixel_at(i, j) == (if (j < y
                            || (j == y && i < x)) && in_disk(center, radius as int, i, j) {
                            col
                        } else {
                            old(self).pixel_at(i, j)
                        }),
                decreases w - x,
            {
                let inside: bool = cell_in_disk(center, radius, x, y);
                if inside {
                    self.set(x, y, col);
                }
                x = x + 1;
            }
            y = y + 1;
        }
    }
}

/// Decides `in_disk` for a concrete cell, with exact 128-bit arithmetic.
fn cell_in_disk(center: Coord, radius: usize, x: usize, y: usize) -> (r: bool)
    ensures
        r == in_disk(center, radius as int, x as int, y as int),
{
    let dx: usize = if x >= center.x {
        x - center.x
    } else {
        center.x - x
    };
    let dy: usize = if y >= center.y {
        y - center.y
    } else {
        center.y - y
    };
    proof {
        assert(dx as int == diff(x as int, center.x as int));
        assert(dy as int == diff(y as int, center.y as int));
    }
    if dx >= radius {
        proof {
            assert((dx as int) * (dx as int) + (dy as int) * (dy as int) >= (radius as int) * (
            radius as int)) by (nonlinear_arith)
                requires
                    (dx as int) >= radius as int,
                    dy as int >= 0,
            ;
        }
        return false;
    }
    proof {
        let lm: int = 0x1_0000_0000_0000_0000;
        assert((dx as int) * (dx as int) < (radius as int) * (radius as int) && (dy as int) * (
        dy as int) <= (lm - 1) * (lm - 1) && (radius as int) * (radius as int) <= (lm - 1) * (lm
            - 1)) by (nonlinear_arith)
            requires
                0 <= dx as int,
                (dx as int) < radius as int,
                0 <= dy as int,
                (dy as int) < lm,
                (radius as int) < lm,
                lm == 0x1_0000_0000_0000_0000,
        ;
        assert((lm - 1) * (lm - 1) <= u128::MAX) by (nonlinear_arith)
            requires
                lm == 0x1_0000_0000_0000_0000,
        ;
    }
    let dx2: u128 = (dx as u128) * (dx as u128);
    let dy2: u128 = (dy as u128) * (dy as u128);
    let r2: u128 = (radius as u128) * (radius as u128);
    dy2 < r2 - dx2
}

/// The x coordinate of step t of the walk from a toward b: the floor of
/// a.x + (b.x - a.x) * t / sqrt(s), where s is the squared segment
/// length. Toward smaller x this floor is a.x minus the ceiling of the
/// offset.
pub open spec fn line_point_x(a: Coord, b: Coord, t: int) -> int {
    let s = a.dist_sq(b);
    let m = diff(b.x as int, a.x as int);
    if b.x >= a.x {
        a.x + ratio_floor(m * t, s)
    } else {
        a.x - ratio_ceil(m * t, s)
    }
}

/// The y coordinate of step t of the walk from a toward b.
pub open spec fn line_point_y(a: Coord, b: Coord, t: int) -> int {
    let s = a.dist_sq(b);
    let m = diff(b.y as int, a.y as int);
    if b.y >= a.y {
        a.y + ratio_floor(m * t, s)
    } else {
        a.y - ratio_ceil(m * t, s)
    }
}

/// Whether step t of the walk from a toward b lands on cell (x, y). The
/// walk takes integer steps t = 0, 1, ... while t does not exceed the
/// Euclidean segment length (t^2 <= dist_sq).
pub open spec fn line_step_hits(a: Coord, b: Coord, t: int, x: int, y: int) -> bool {
    &&& 0 <= t
    &&& t * t <= a.dist_sq(b)
    &&& x == line_point_x(a, b, t)
    &&& y == line_point_y(a, b, t)
}

/// Whether drawing the segment from a to b paints cell (x, y): some step
/// of the walk lands on it, or it is the endpoint b, which is always
/// painted last. A degenerate segment (a == b) paints only the cell at a.
pub open spec fn on_line(a: Coord, b: Coord, x: int, y: int) -> bool {
    if a.dist_sq(b) == 0 {
        x == a.x && y == a.y
    } else {
        (x == b.x && y == b.y) || exists|t: int| #[trigger] line_step_hits(a, b, t, x, y)
    }
}

/// Whether some step numbered below n of the walk from a toward b lands
/// on cell (x, y).
pub open spec fn painted_before(a: Coord, b: Coord, n: int, x: int, y: int) -> bool {
    exists|t: int| t < n && #[trigger] line_step_hits(a, b, t, x, y)
}

/// A segment between cells of a width x height grid is short enough that
/// its squared length fits 128 bits.
proof fn lemma_seg_fits(w: int, h: int, dx: int, dy: int)
    requires
        1 <= w,
        1 <= h,
        0 <= dx < w,
        0 <= dy < h,
        w * h <= 0xffff_ffff_ffff_ffff,
    ensures
        dx * dx + dy * dy <= (w * h - 1) * (w * h - 1),
        dx * dx + dy * dy <= u128::MAX,
        w * h - 1 <= 0xffff_ffff_ffff_ffff,
{
    assert(dx * dx + dy * dy <= (w * h - 1) * (w * h - 1) && (w * h - 1) * (w * h - 1)
        <= 0xffff_ffff_ffff_ffff * 0xffff_ffff_ffff_ffff) by (nonlinear_arith)
        requires
            1 <= w,
            1 <= h,
            0 <= dx < w,
            0 <= dy < h,
            w * h <= 0xffff_ffff_ffff_ffff,
    ;
    assert(0xffff_ffff_ffff_ffff * 0xffff_ffff_ffff_ffff <= u128::MAX) by (nonlinear_arith);
}

/// Membership in the disk is exactly the documented distance test: cell p
/// is painted iff its squared Euclidean distance to the center is below
/// the squared radius, i.e. its distance is strictly below the radius.
pub proof fn lemma_in_disk_dist(center: Coord, radius: int, p: Coord)
    ensures
        in_disk(center, radius, p.x as int, p.y as int) <==> p.dist_sq(center) < radius * radius,
{
}

/// A degenerate segment paints exactly one cell: drawing from a to a
/// marks the cell at a and no other, whatever the color.
pub proof fn lemma_line_degenerate(a: Coord, x: int, y: int)
    ensures
        on_line(a, a, x, y) <==> (x == a.x && y == a.y),
{
    assert(a.dist_sq(a) == 0);
}

/// The far endpoint is always painted: drawing from a to b marks the
/// cell at b, regardless of how the walk's interpolation rounded.
pub proof fn lemma_line_endpoint(a: Coord, b: Coord)
    ensures
        on_line(a, b, b.x as int, b.y as int),
{
    if a.dist_sq(b) == 0 {
        let dx = diff(a.x as int, b.x as int);
        let dy = diff(a.y as int, b.y as int);
        assert(dx == 0 && dy == 0) by (nonlinear_arith)
            requires
                dx * dx + dy * dy == 0,
                dx >= 0,
                dy >= 0,
        ;
    }
}

impl ImagePPM {
    /// Rasterizes the straight segment from `a` to `b` in color `col`.
    /// The walk visits, for each integer step t from 0 up to the
    /// Euclidean length of the segment, the cell at the floor of
    /// a + (b - a) * (t / length), and the endpoint `b` is always painted
    /// afterwards, whatever the rounding of the walk did. A degenerate
    /// segment (a == b) paints exactly the one cell at `a`. Every painted
    /// cell lies between the two endpoints, so with both endpoints in
    /// bounds the whole walk is; no other cell changes.
    pub fn draw_line(&mut self, a: Coord, b: Coord, col: Pixel)
        requires
            old(self).wf(),
            a.x < old(self).width(),
            a.y < old(self).height(),
            b.x < old(self).width(),
            b.y < old(self).height(),
        ensures
            final(self).wf(),
            final(self).width() == old(self).width(),
            final(self).height() == old(self).height(),
            forall|x: int, y: int|
                0 <= x < old(self).width() && 0 <= y < old(self).height()
                    ==> final(self).pixel_at(x, y) == (if on_line(a, b, x, y) {
                    col
                } else {
                    old(self).pixel_at(x, y)
                }),
    {
        let w: usize = self.width;
        let h: usize = self.height;
        let dx: usize = if b.x >= a.x {
            b.x - a.x
        } else {
            a.x - b.x
        };
        let dy: usize = if b.y >= a.y {
            b.y - a.y
        } else {
            a.y - b.y
        };
        proof {
            assert(dx as int == diff(b.x as int, a.x as int));
            assert(dy as int == diff(b.y as int, a.y as int));
        }
        if dx == 0 && dy == 0 {
            proof {
                assert(a.dist_sq(b) == 0);
            }
            self.set(a.x, a.y, col);
            return ;
        }
        proof {
            assert(w * h <= usize::MAX);
            lemma_seg_fits(w as int, h as int, dx as int, dy as int);
        }
        let sx: u128 = (dx as u128) * (dx as u128);
        let sy: u128 = (dy as u128) * (dy as u128);
        let s: u128 = sx + sy;
        proof {
            assert(s as int == a.dist_sq(b));
            assert(s >= 1) by (nonlinear_arith)
                requires
                    s as int == dx as int * dx as int + dy as int * dy as int,
                    dx as int + dy as int >= 1,
                    dx as int >= 0,
                    dy as int >= 0,
            ;
        }
        let n64: u64 = isqrt(s);
        proof {
            assert(n64 as int <= w * h - 1) by (nonlinear_arith)
                requires
                    n64 as int * n64 as int <= s as int,
                    s as int <= (w * h - 1) * (w * h - 1),
                    n64 as int >= 0,
                    w >= 1,
                    h >= 1,
            ;
            assert(w * h - 1 <= usize::MAX);
        }
        let n: usize = n64 as usize;
        let bound_x: u64 = dx as u64;
        let bound_y: u64 = dy as u64;
        let mut qx: u64 = 0;
        let mut qy: u64 = 0;
        let mut t: usize = 0;
        while t <= n
            invariant
                self.wf(),
                self.width() == old(self).width(),
                self.height() == old(self).height(),
                w == self.width(),
                h == self.height(),
                a.x < w,
                a.y < h,
                b.x < w,
                b.y < h,
                dx as int == diff(b.x as int, a.x as int),
                dy as int == diff(b.y as int, a.y as int),
                s as int == a.dist_sq(b),
                s >= 1,
                bound_x == dx,
                bound_y == dy,
                n as int * n as int <= s as int,
                (s as int) < (n as int + 1) * (n as int + 1),
                n as int <= w * h - 1,
                t <= n + 1,
                qx <= bound_x,
                qy <= bound_y,
                qx as int * qx as int * s as int <= (dx as int * t as int) * (dx as int
                    * t as int),
                qy as int * qy as int * s as int <= (dy as int * t as int) * (dy as int
                    * t as int),
                forall|x: int, y: int|
                    0 <= x < w && 0 <= y < h ==> #[trigger] self.pixel_at(x, y) == (if
                    painted_before(a, b, t as int, x, y) {
                        col
                    } else {
                        old(self).pixel_at(x, y)
                    }),
            decreases n + 1 - t,
        {
            proof {
                assert(t as int * t as int <= s as int && (dx as int * t as int) * (dx as int
                    * t as int) <= (dx as int * dx as int) * s as int && (dy as int * t as int) * (
                dy as int * t as int) <= (dy as int * dy as int) * s as int && dx as int * t as int
                    <= s as int && dy as int * t as int <= s as int) by (nonlinear_arith)
                    requires
                        0 <= t as int,
                        t <= n,
                        n as int * n as int <= s as int,
                        dx as int * dx as int <= s as int,
                        dy as int * dy as int <= s as int,
                        s as int == dx as int * dx as int + dy as int * dy as int,
                        0 <= dx as int,
                        0 <= dy as int,
                        0 <= n as int,
                        s as int <= u128::MAX,
                ;
            }
            let ux: u128 = (dx as u128) * (t as u128);
            let uy: u128 = (dy as u128) * (t as u128);
            let qx2: u64 = ratio_floor_from(qx, bound_x, s, ux);
            let qy2: u64 = ratio_floor_from(qy, bound_y, s, uy);
            qx = qx2;
            qy = qy2;
            proof {
                lemma_ratio_floor_unique(ux as int, s as int, qx as int);
                lemma_ratio_floor_unique(uy as int, s as int, qy as int);
            }
            let px: usize = if b.x >= a.x {
                a.x + (qx as usize)
            } else {
                let ex: bool = sq_eq(qx as u128, s, ux);
                if ex {
                    a.x - (qx as usize)
                } else {
                    proof {
                        assert(qx < bound_x) by (nonlinear_arith)
                            requires
                                qx <= bound_x,
                                qx as int * qx as int * s as int <= ux as int * ux as int,
                                ux as int * ux as int <= bound_x as int * bound_x as int
                                    * s as int,
                                qx as int * qx as int * s as int != ux as int * ux as int,
                        ;
                    }
                    a.x - (qx as usize + 1)
                }
            };
            let py: usize = if b.y >= a.y {
                a.y + (qy as usize)
            } else {
                let ey: bool = sq_eq(qy as u128, s, uy);
                if ey {
                    a.y - (qy as usize)
                } else {
                    proof {
                        assert(qy < bound_y) by (nonlinear_arith)
                            requires
                                qy <= bound_y,
                                qy as int * qy as int * s as int <= uy as int * uy as int,
                                uy as int * uy as int <= bound_y as int * bound_y as int
                                    * s as int,
                                qy as int * qy as int * s as int != uy as int * uy as int,
                        ;
                    }
                    a.y - (qy as usize + 1)
                }
            };
            proof {
                assert(px as int == line_point_x(a, b, t as int));
                assert(py as int == line_point_y(a, b, t as int));
                assert(px < w && py < h);
                assert(line_step_hits(a, b, t as int, px as int, py as int));
            }
            let ghost prev = *self;
            self.set(px, py, col);
            proof {
                assert forall|x: int, y: int| 0 <= x < w && 0 <= y < h implies #[trigger] self
                    .pixel_at(x, y) == (if painted_before(a, b, t as int + 1, x, y) {
                    col
                } else {
                    old(self).pixel_at(x, y)
                }) by {
                    if x == px && y == py {
                        assert(painted_before(a, b, t as int + 1, x, y));
                    } else {
                        if painted_before(a, b, t as int + 1, x, y) {
                            let k = choose|k: int|
                                k < t as int + 1 && #[trigger] line_step_hits(a, b, k, x, y);
                            if k == t as int {
                                assert(false);
                            } else {
                                assert(painted_before(a, b, t as int, x, y));
                            }
                        } else {
                            if painted_before(a, b, t as int, x, y) {
                                let k = choose|k: int|
                                    k < t as int && #[trigger] line_step_hits(a, b, k, x, y);
                                assert(painted_before(a, b, t as int + 1, x, y));
                            }
                        }
                    }
                }
                assert((qx as int * qx as int) * s as int <= (dx as int * (t as int + 1)) * (
                dx as int * (t as int + 1)) && (qy as int * qy as int) * s as int <= (dy as int * (
                t as int + 1)) * (dy as int * (t as int + 1))) by (nonlinear_arith)
                    requires
                        qx as int * qx as int * s as int <= (dx as int * t as int) * (dx as int
                            * t as int),
                        qy as int * qy as int * s as int <= (dy as int * t as int) * (dy as int
                            * t as int),
                        0 <= dx as int,
                        0 <= dy as int,
                        0 <= t as int,
                ;
            }
            t = t + 1;
        }
        self.set(b.x, b.y, col);
        proof {
            assert forall|x: int, y: int| 0 <= x < w && 0 <= y < h implies #[trigger] self
                .pixel_at(x, y) == (if on_line(a, b, x, y) {
                col
            } else {
                old(self).pixel_at(x, y)
            }) by {
                if x == b.x && y == b.y {
                    assert(on_line(a, b, x, y));
                } else {
                    if painted_before(a, b, n as int + 1, x, y) {
                        let k = choose|k: int|
                            k < n as int + 1 && #[trigger] line_step_hits(a, b, k, x, y);
                        assert(on_line(a, b, x, y));
                    } else {
                        if on_line(a, b, x, y) {
                            let k = choose|k: int| #[trigger] line_step_hits(a, b, k, x, y);
                            assert(k <= n as int) by (nonlinear_arith)
                                requires
                                    k * k <= s as int,
                                    (s as int) < (n as int + 1) * (n as int + 1),
                                    k >= 0,
                                    n as int >= 0,
                            ;
                            assert(painted_before(a, b, n as int + 1, x, y));
                            assert(false);
                        }
                    }
                }
            }
        }
    }
}

} // verus!
