//! Discrete box algebra: integer coordinates and half-open axis-aligned
//! rectangles with translation, scaling, intersection and row-major
//! coordinate enumeration.

use vstd::prelude::*;
use vstd::arithmetic::div_mod::*;
use vstd::arithmetic::mul::*;

verus! {

/// Truncating (round toward zero) division, the semantics of Rust's `/`.
pub open spec fn spec_trunc_div(a: int, d: int) -> int {
    if a >= 0 && d > 0 {
        a / d
    } else if a < 0 && d > 0 {
        -((-a) / d)
    } else if a >= 0 && d < 0 {
        -(a / (-d))
    } else {
        (-a) / (-d)
    }
}

/// Round `a / d` up to the next integer, for positive `d`.
pub open spec fn spec_ceil_div(a: int, d: int) -> int {
    (a + d - 1) / d
}

/// The magnitude of `a`, as an unsigned integer.
fn mag_u32(a: i32) -> (r: u32)
    ensures
        a >= 0 ==> r == a,
        a < 0 ==> r == -(a as int),
{
    if a >= 0 {
        a as u32
    } else {
        (-(a as i64)) as u32
    }
}

/// A quotient of ints in `i32` range stays in `i32` range (positive divisor).
pub proof fn lemma_div_i32_range(a: int, d: int)
    requires
        d >= 1,
        i32::MIN <= a <= i32::MAX,
    ensures
        i32::MIN <= a / d <= i32::MAX,
        a < 0 ==> a <= a / d <= 0,
        a >= 0 ==> 0 <= a / d <= a,
{
    if a >= 0 {
        lemma_div_pos_is_pos(a, d);
        lemma_div_is_ordered_by_denominator(a, 1, d);
        lemma_div_by_self(1);
    } else {
        lemma_fundamental_div_mod(a, d);
        let q = a / d;
        let r = a % d;
        lemma_mod_division_less_than_divisor(a, d);
        assert(a <= q <= 0) by (nonlinear_arith)
            requires d >= 1 && a < 0 && a == d * q + r && 0 <= r < d;
    }
}

/// Euclidean (floor) division of an `i32` by a positive divisor.
pub fn floor_div_i32(a: i32, d: i32) -> (r: i32)
    requires
        d > 0,
    ensures
        r == a as int / d as int,
{
    proof {
        lemma_div_i32_range(a as int, d as int);
    }
    if a >= 0 {
        let q = (a as u32) / (d as u32);
        q as i32
    } else {
        let m: u64 = (-(a as i64)) as u64;
        let du: u64 = d as u64;
        let q = (m + du - 1) / du;
        proof {
            let ai = a as int;
            let di = d as int;
            let mi = m as int;
            lemma_fundamental_div_mod(mi, di);
            let q1 = mi / di;
            let r1 = mi % di;
            lemma_mod_division_less_than_divisor(mi, di);
            lemma_div_pos_is_pos(mi, di);
            if r1 == 0 {
                assert(mi + di - 1 == q1 * di + (di - 1)) by (nonlinear_arith)
                    requires mi == di * q1 + r1 && r1 == 0;
                lemma_fundamental_div_mod_converse_div(mi + di - 1, di, q1, di - 1);
                assert(ai == (-q1) * di + 0) by (nonlinear_arith)
                    requires mi == di * q1 && mi == -ai;
                lemma_fundamental_div_mod_converse_div(ai, di, -q1, 0);
            } else {
                assert(mi + di - 1 == (q1 + 1) * di + (r1 - 1)) by (nonlinear_arith)
                    requires mi == di * q1 + r1;
                lemma_fundamental_div_mod_converse_div(mi + di - 1, di, q1 + 1, r1 - 1);
                assert(ai == (-(q1 + 1)) * di + (di - r1)) by (nonlinear_arith)
                    requires mi == di * q1 + r1 && mi == -ai;
                lemma_fundamental_div_mod_converse_div(ai, di, -(q1 + 1), di - r1);
            }
        }
        (-(q as i64)) as i32
    }
}

/// Ceiling division of an `i32` by a positive divisor.
pub fn ceil_div_i32(a: i32, d: i32) -> (r: i32)
    requires
        d > 0,
    ensures
        r == spec_ceil_div(a as int, d as int),
        a > 0 ==> 1 <= r <= a,
        a <= 0 ==> a <= r <= 0,
{
    if a > 0 {
        let m: u64 = a as u64;
        let du: u64 = d as u64;
        let q = (m + du - 1) / du;
        proof {
            let ai = a as int;
            let di = d as int;
            lemma_fundamental_div_mod(ai, di);
            let q1 = ai / di;
            let r1 = ai % di;
            lemma_mod_division_less_than_divisor(ai, di);
            lemma_div_i32_range(ai, di);
            if r1 == 0 {
                assert(ai + di - 1 == q1 * di + (di - 1)) by (nonlinear_arith)
                    requires ai == di * q1 + r1 && r1 == 0;
                lemma_fundamental_div_mod_converse_div(ai + di - 1, di, q1, di - 1);
                // a is a positive multiple of d, so the quotient is at least 1
                assert(q1 >= 1) by (nonlinear_arith)
                    requires ai == di * q1 && ai >= 1 && di >= 1 && q1 >= 0;
            } else {
                assert(ai + di - 1 == (q1 + 1) * di + (r1 - 1)) by (nonlinear_arith)
                    requires ai == di * q1 + r1;
                lemma_fundamental_div_mod_converse_div(ai + di - 1, di, q1 + 1, r1 - 1);
                // the remainder is nonzero, so d >= 2 and the quotient is below a
                assert(q1 + 1 <= ai) by (nonlinear_arith)
                    requires ai == di * q1 + r1 && ai >= 1 && di >= 2 && q1 >= 0 && 0 < r1 < di;
                assert(di >= 2);
            }
        }
        q as i64 as i32
    } else {
        let m: u64 = (-(a as i64)) as u64;
        let du: u64 = d as u64;
        let q = m / du;
        proof {
            let ai = a as int;
            let di = d as int;
            let mi = m as int;
            lemma_fundamental_div_mod(mi, di);
            let q1 = mi / di;
            let r1 = mi % di;
            lemma_mod_division_less_than_divisor(mi, di);
            lemma_div_pos_is_pos(mi, di);
            lemma_div_nonincreasing(mi, di);
            // ceil(a / d) == -((-a) / d) when a <= 0
            assert(ai + di - 1 == (-q1) * di + (di - 1 - r1)) by (nonlinear_arith)
                requires mi == di * q1 + r1 && mi == -ai;
            lemma_fundamental_div_mod_converse_div(ai + di - 1, di, -q1, di - 1 - r1);
        }
        (-(q as i64)) as i32
    }
}

/// Truncating division of an `i32`, the behaviour of Rust's `/` operator.
pub fn trunc_div_i32(a: i32, d: i32) -> (r: i32)
    requires
        d != 0,
        !(a == i32::MIN && d == -1),
    ensures
        r == spec_trunc_div(a as int, d as int),
{
    let ma = mag_u32(a);
    let md = mag_u32(d);
    let q = ma / md;
    proof {
        lemma_div_nonincreasing(ma as int, md as int);
        lemma_div_pos_is_pos(ma as int, md as int);
        if !((a < 0) != (d < 0)) && ma == 0x8000_0000u32 {
            // a is i32::MIN and d < 0; d == -1 is excluded, so |d| >= 2
            lemma_div_is_ordered_by_denominator(ma as int, 2, md as int);
            lemma_div_decreases(ma as int, 2);
        }
    }
    if (a < 0) != (d < 0) {
        (-(q as i64)) as i32
    } else {
        q as i32
    }
}

/// A pair of signed integer coordinates, used for pixel and tile positions.
#[derive(Clone, Copy, Debug, PartialEq, Eq, Structural)]
pub struct Coordinate {
    pub x: i32,
    pub y: i32,
}

/// A tile address: grid position `(x, y)` together with the pyramid level `z`.
#[derive(Clone, Copy, Debug, PartialEq, Eq, Structural)]
pub struct TileCoordinate3 {
    pub x: i32,
    pub y: i32,
    pub z: i32,
}

impl Coordinate {
    pub fn new(x: i32, y: i32) -> (r: Coordinate)
        ensures
            r == (Coordinate { x, y }),
    {
        Coordinate { x, y }
    }
}

impl TileCoordinate3 {
    pub fn new(x: i32, y: i32, z: i32) -> (r: TileCoordinate3)
        ensures
            r == (TileCoordinate3 { x, y, z }),
    {
        TileCoordinate3 { x, y, z }
    }

    /// The grid position without the level.
    pub fn xy(&self) -> (r: Coordinate)
        ensures
            r == (Coordinate { x: self.x, y: self.y }),
    {
        Coordinate { x: self.x, y: self.y }
    }
}

/// A discrete axis-aligned half-open box `[begin, end)`.
#[derive(Clone, Copy, Debug, PartialEq, Eq, Structural)]
pub struct Dabb2 {
    pub begin: Coordinate,
    pub end: Coordinate,
}

impl Dabb2 {
    /// The box is non-degenerate: `begin <= end` on both axes.
    pub open spec fn wf(self) -> bool {
        self.begin.x <= self.end.x && self.begin.y <= self.end.y
    }

    pub open spec fn spec_width(self) -> int {
        self.end.x - self.begin.x
    }

    pub open spec fn spec_height(self) -> int {
        self.end.y - self.begin.y
    }

    pub open spec fn spec_area(self) -> int {
        self.spec_width() * self.spec_height()
    }

    /// The box holds no coordinate.
    pub open spec fn is_empty(self) -> bool {
        self.end.x <= self.begin.x || self.end.y <= self.begin.y
    }

    pub open spec fn spec_contains(self, p: Coordinate) -> bool {
        &&& self.begin.x <= p.x < self.end.x
        &&& self.begin.y <= p.y < self.end.y
    }

    /// The number of integer coordinates inside the box.
    pub fn area(&self) -> (r: usize)
        requires
            self.wf(),
            self.spec_area() <= usize::MAX,
        ensures
            r == self.spec_area(),
    {
        let w = (self.end.x as i64 - self.begin.x as i64) as u64;
        let h = (self.end.y as i64 - self.begin.y as i64) as u64;
        (w * h) as usize
    }

    /// The unit box holding exactly `position`.
    pub fn cell(position: Coordinate) -> (r: Dabb2)
        requires
            position.x < i32::MAX,
            position.y < i32::MAX,
        ensures
            r.begin == position,
            r.end.x == position.x + 1,
            r.end.y == position.y + 1,
    {
        Dabb2 { begin: position, end: Coordinate { x: position.x + 1, y: position.y + 1 } }
    }

    pub fn bounds(begin: Coordinate, end: Coordinate) -> (r: Dabb2)
        ensures
            r == (Dabb2 { begin, end }),
    {
        Dabb2 { begin, end }
    }

    /// Translate the box by `rhs`.
    pub fn translated(self, rhs: Coordinate) -> (r: Dabb2)
        requires
            i32::MIN <= self.begin.x + rhs.x <= i32::MAX,
            i32::MIN <= self.begin.y + rhs.y <= i32::MAX,
            i32::MIN <= self.end.x + rhs.x <= i32::MAX,
            i32::MIN <= self.end.y + rhs.y <= i32::MAX,
        ensures
            r.begin.x == self.begin.x + rhs.x,
            r.begin.y == self.begin.y + rhs.y,
            r.end.x == self.end.x + rhs.x,
            r.end.y == self.end.y + rhs.y,
    {
        Dabb2 {
            begin: Coordinate { x: self.begin.x + rhs.x, y: self.begin.y + rhs.y },
            end: Coordinate { x: self.end.x + rhs.x, y: self.end.y + rhs.y },
        }
    }

    /// Translate the box by `-rhs`.
    pub fn translated_back(self, rhs: Coordinate) -> (r: Dabb2)
        requires
            i32::MIN <= self.begin.x - rhs.x <= i32::MAX,
            i32::MIN <= self.begin.y - rhs.y <= i32::MAX,
            i32::MIN <= self.end.x - rhs.x <= i32::MAX,
            i32::MIN <= self.end.y - rhs.y <= i32::MAX,
        ensures
            r.begin.x == self.begin.x - rhs.x,
            r.begin.y == self.begin.y - rhs.y,
            r.end.x == self.end.x - rhs.x,
            r.end.y == self.end.y - rhs.y,
    {
        Dabb2 {
            begin: Coordinate { x: self.begin.x - rhs.x, y: self.begin.y - rhs.y },
            end: Coordinate { x: self.end.x - rhs.x, y: self.end.y - rhs.y },
        }
    }

    /// Scale both corners component-wise by `rhs`.
    pub fn scaled_by(self, rhs: Coordinate) -> (r: Dabb2)
        requires
            i32::MIN <= self.begin.x * rhs.x <= i32::MAX,
            i32::MIN <= self.begin.y * rhs.y <= i32::MAX,
            i32::MIN <= self.end.x * rhs.x <= i32::MAX,
            i32::MIN <= self.end.y * rhs.y <= i32::MAX,
        ensures
            r.begin.x == self.begin.x * rhs.x,
            r.begin.y == self.begin.y * rhs.y,
            r.end.x == self.end.x * rhs.x,
            r.end.y == self.end.y * rhs.y,
    {
        Dabb2 {
            begin: Coordinate { x: self.begin.x * rhs.x, y: self.begin.y * rhs.y },
            end: Coordinate { x: self.end.x * rhs.x, y: self.end.y * rhs.y },
        }
    }

    /// Scale both corners by the scalar `rhs`.
    pub fn scaled(self, rhs: i32) -> (r: Dabb2)
        requires
            i32::MIN <= self.begin.x * rhs <= i32::MAX,
            i32::MIN <= self.begin.y * rhs <= i32::MAX,
            i32::MIN <= self.end.x * rhs <= i32::MAX,
            i32::MIN <= self.end.y * rhs <= i32::MAX,
        ensures
            r.begin.x == self.begin.x * rhs,
            r.begin.y == self.begin.y * rhs,
            r.end.x == self.end.x * rhs,
            r.end.y == self.end.y * rhs,
    {
        Dabb2 {
            begin: Coordinate { x: self.begin.x * rhs, y: self.begin.y * rhs },
            end: Coordinate { x: self.end.x * rhs, y: self.end.y * rhs },
        }
    }

    pub open spec fn spec_intersect(self, rhs: Dabb2) -> Dabb2 {
        Dabb2 {
            begin: Coordinate {
                x: if self.begin.x >= rhs.begin.x { self.begin.x } else { rhs.begin.x },
                y: if self.begin.y >= rhs.begin.y { self.begin.y } else { rhs.begin.y },
            },
            end: Coordinate {
                x: if self.end.x <= rhs.end.x { self.end.x } else { rhs.end.x },
                y: if self.end.y <= rhs.end.y { self.end.y } else { rhs.end.y },
            },
        }
    }

    /// Component-wise intersection: maximum of the begins, minimum of the
    /// ends.  The result of intersecting disjoint boxes has `end < begin`
    /// on some axis; such a box holds no coordinate.
    pub fn intersect(self, rhs: Dabb2) -> (r: Dabb2)
        ensures
            r == self.spec_intersect(rhs),
            forall|p: Coordinate|
                r.spec_contains(p) <==> (self.spec_contains(p) && rhs.spec_contains(p)),
    {
        Dabb2 {
            begin: Coordinate {
                x: if self.begin.x >= rhs.begin.x { self.begin.x } else { rhs.begin.x },
                y: if self.begin.y >= rhs.begin.y { self.begin.y } else { rhs.begin.y },
            },
            end: Coordinate {
                x: if self.end.x <= rhs.end.x { self.end.x } else { rhs.end.x },
                y: if self.end.y <= rhs.end.y { self.end.y } else { rhs.end.y },
            },
        }
    }
}

impl Dabb2 {
    /// Divide both corners by the scalar `rhs`, truncating toward zero.
    pub fn divided(self, rhs: i32) -> (r: Dabb2)
        requires
            rhs != 0,
            !(self.begin.x == i32::MIN && rhs == -1),
            !(self.begin.y == i32::MIN && rhs == -1),
            !(self.end.x == i32::MIN && rhs == -1),
            !(self.end.y == i32::MIN && rhs == -1),
        ensures
            r.begin.x == spec_trunc_div(self.begin.x as int, rhs as int),
            r.begin.y == spec_trunc_div(self.begin.y as int, rhs as int),
            r.end.x == spec_trunc_div(self.end.x as int, rhs as int),
            r.end.y == spec_trunc_div(self.end.y as int, rhs as int),
    {
        Dabb2 {
            begin: Coordinate {
                x: trunc_div_i32(self.begin.x, rhs),
                y: trunc_div_i32(self.begin.y, rhs),
            },
            end: Coordinate { x: trunc_div_i32(self.end.x, rhs), y: trunc_div_i32(self.end.y, rhs) },
        }
    }

    /// Divide both corners component-wise by `rhs`, truncating toward zero.
    pub fn divided_by(self, rhs: Coordinate) -> (r: Dabb2)
        requires
            rhs.x != 0,
            rhs.y != 0,
            !(self.begin.x == i32::MIN && rhs.x == -1),
            !(self.begin.y == i32::MIN && rhs.y == -1),
            !(self.end.x == i32::MIN && rhs.x == -1),
            !(self.end.y == i32::MIN && rhs.y == -1),
        ensures
            r.begin.x == spec_trunc_div(self.begin.x as int, rhs.x as int),
            r.begin.y == spec_trunc_div(self.begin.y as int, rhs.y as int),
            r.end.x == spec_trunc_div(self.end.x as int, rhs.x as int),
            r.end.y == spec_trunc_div(self.end.y as int, rhs.y as int),
    {
        Dabb2 {
            begin: Coordinate {
                x: trunc_div_i32(self.begin.x, rhs.x),
                y: trunc_div_i32(self.begin.y, rhs.y),
            },
            end: Coordinate {
                x: trunc_div_i32(self.end.x, rhs.x),
                y: trunc_div_i32(self.end.y, rhs.y),
            },
        }
    }

    /// How many coordinates an enumeration of this box yields.
    pub open spec fn coords_len(self) -> nat {
        if self.spec_width() <= 0 || self.spec_height() <= 0 {
            0
        } else {
            self.spec_area() as nat
        }
    }

    /// The coordinates inside the box, in row-major order (x fastest).
    pub open spec fn coords_seq(self) -> Seq<Coordinate> {
        Seq::new(
            self.coords_len(),
            |k: int|
                Coordinate {
                    x: (self.begin.x + k % self.spec_width()) as i32,
                    y: (self.begin.y + k / self.spec_width()) as i32,
                },
        )
    }

    /// Start a row-major walk over the coordinates of the box.
    pub fn into_iter(&self) -> (it: Dabb2IntoIterator)
        ensures
            it.wf(),
            it.owner == *self,
            it.pos() == 0,
    {
        let it = Dabb2IntoIterator { owner: *self, index: self.begin };
        proof {
            lemma_mul_basics(it.owner.spec_width());
        }
        it
    }
}

/// Walks the coordinates of a `Dabb2` in row-major order (x fastest).
pub struct Dabb2IntoIterator {
    pub owner: Dabb2,
    pub index: Coordinate,
}

impl Dabb2IntoIterator {
    pub open spec fn wf(self) -> bool {
        if self.owner.is_empty() {
            self.index == self.owner.begin
        } else {
            &&& self.owner.begin.y <= self.index.y <= self.owner.end.y
            &&& self.owner.begin.x <= self.index.x < self.owner.end.x
            &&& (self.index.y == self.owner.end.y ==> self.index.x == self.owner.begin.x)
        }
    }

    /// How many coordinates the walk has yielded so far.
    pub open spec fn pos(self) -> int {
        (self.index.y - self.owner.begin.y) * self.owner.spec_width() + (self.index.x
            - self.owner.begin.x)
    }

    /// The next coordinate of the walk, or `None` once the box is exhausted.
    pub fn next(&mut self) -> (r: Option<Coordinate>)
        requires
            old(self).wf(),
        ensures
            final(self).wf(),
            final(self).owner == old(self).owner,
            old(self).pos() < old(self).owner.coords_len() ==> {
                &&& r == Some(old(self).owner.coords_seq()[old(self).pos()])
                &&& final(self).pos() == old(self).pos() + 1
            },
            old(self).pos() >= old(self).owner.coords_len() ==> r is None && *final(self) == *old(
                self,
            ),
    {
        let ghost w = self.owner.spec_width();
        let ghost h = self.owner.spec_height();
        if self.owner.begin.x >= self.owner.end.x || self.index.y >= self.owner.end.y {
            proof {
                if self.owner.is_empty() {
                    lemma_mul_basics(w);
                } else {
                    // the walk stands at the terminal position
                    assert(self.pos() == h * w);
                    lemma_mul_is_commutative(h, w);
                }
            }
            None
        } else {
            let res = self.index;
            proof {
                assert(self.pos() < w * h) by (nonlinear_arith)
                    requires
                        self.owner.begin.y <= self.index.y < self.owner.end.y,
                        self.owner.begin.x <= self.index.x < self.owner.end.x,
                        w == self.owner.end.x - self.owner.begin.x,
                        h == self.owner.end.y - self.owner.begin.y,
                        self.pos() == (self.index.y - self.owner.begin.y) * w + (self.index.x
                            - self.owner.begin.x),
                ;
                lemma_fundamental_div_mod_converse_div(
                    self.pos(),
                    w,
                    self.index.y - self.owner.begin.y,
                    self.index.x - self.owner.begin.x,
                );
                lemma_fundamental_div_mod_converse_mod(
                    self.pos(),
                    w,
                    self.index.y - self.owner.begin.y,
                    self.index.x - self.owner.begin.x,
                );
            }
            self.index.x = self.index.x + 1;
            if self.index.x >= self.owner.end.x {
                self.index.y = self.index.y + 1;
                self.index.x = self.owner.begin.x;
                proof {
                    assert((self.index.y - self.owner.begin.y) * w == (res.y - self.owner.begin.y)
                        * w + w) by (nonlinear_arith)
                        requires
                            self.index.y == res.y + 1,
                    ;
                }
            }
            Some(res)
        }
    }

    /// The total number of coordinates of the walk, independent of how many
    /// have been yielded already.
    pub fn count(&self) -> (r: usize)
        requires
            self.owner.wf(),
            self.owner.spec_area() <= usize::MAX,
        ensures
            r == self.owner.coords_len(),
    {
        proof {
            let w = self.owner.spec_width();
            let h = self.owner.spec_height();
            if w == 0 || h == 0 {
                assert(w * h == 0) by (nonlinear_arith)
                    requires w == 0 || h == 0;
            }
        }
        self.owner.area()
    }
}

/// A walk's position lies between 0 and the number of coordinates.
pub proof fn lemma_iter_pos_bounds(it: Dabb2IntoIterator)
    requires
        it.wf(),
    ensures
        0 <= it.pos() <= it.owner.coords_len(),
{
    let w = it.owner.spec_width();
    let h = it.owner.spec_height();
    if it.owner.is_empty() {
        lemma_mul_basics(w);
    } else {
        let dy = it.index.y - it.owner.begin.y;
        let dx = it.index.x - it.owner.begin.x;
        lemma_mul_nonnegative(dy, w);
        if it.index.y == it.owner.end.y {
            assert(it.pos() == h * w);
            lemma_mul_is_commutative(h, w);
        } else {
            assert(dy * w + dx < w * h) by (nonlinear_arith)
                requires
                    0 <= dy < h,
                    0 <= dx < w,
            ;
        }
    }
}

/// Every coordinate inside the box appears in its enumeration, at the
/// row-major position determined by its offsets from `begin`.
pub proof fn lemma_coords_seq_at(b: Dabb2, p: Coordinate)
    requires
        b.spec_contains(p),
    ensures
        0 <= (p.y - b.begin.y) * b.spec_width() + (p.x - b.begin.x) < b.coords_len(),
        b.coords_seq()[(p.y - b.begin.y) * b.spec_width() + (p.x - b.begin.x)] == p,
{
    let w = b.spec_width();
    let h = b.spec_height();
    let dy = p.y - b.begin.y;
    let dx = p.x - b.begin.x;
    let k = dy * w + dx;
    lemma_mul_nonnegative(dy, w);
    assert(k < w * h) by (nonlinear_arith)
        requires
            0 <= dy < h,
            0 <= dx < w,
            k == dy * w + dx,
    ;
    lemma_fundamental_div_mod_converse_div(k, w, dy, dx);
    lemma_fundamental_div_mod_converse_mod(k, w, dy, dx);
}

/// The enumeration repeats no coordinate.
pub proof fn lemma_coords_seq_distinct(b: Dabb2, k1: int, k2: int)
    requires
        0 <= k1 < b.coords_len(),
        0 <= k2 < b.coords_len(),
        k1 != k2,
    ensures
        b.coords_seq()[k1] != b.coords_seq()[k2],
{
    lemma_coords_seq_contains(b, k1);
    lemma_coords_seq_contains(b, k2);
    let w = b.spec_width();
    let h = b.spec_height();
    lemma_fundamental_div_mod(k1, w);
    lemma_fundamental_div_mod(k2, w);
    lemma_mod_division_less_than_divisor(k1, w);
    lemma_mod_division_less_than_divisor(k2, w);
    lemma_div_pos_is_pos(k1, w);
    lemma_div_pos_is_pos(k2, w);
    assert(k1 / w < h && k2 / w < h) by (nonlinear_arith)
        requires
            0 <= k1 < w * h,
            0 <= k2 < w * h,
            w >= 1,
            h >= 1,
            k1 == w * (k1 / w) + k1 % w,
            k2 == w * (k2 / w) + k2 % w,
            0 <= k1 % w < w,
            0 <= k2 % w < w,
    ;
    if b.coords_seq()[k1] == b.coords_seq()[k2] {
        assert(k1 % w == k2 % w);
        assert(k1 / w == k2 / w);
    }
}

/// Every enumerated coordinate lies inside the box.
pub proof fn lemma_coords_seq_contains(b: Dabb2, k: int)
    requires
        0 <= k < b.coords_len(),
    ensures
        b.spec_contains(b.coords_seq()[k]),
{
    let w = b.spec_width();
    let h = b.spec_height();
    lemma_fundamental_div_mod(k, w);
    lemma_mod_division_less_than_divisor(k, w);
    lemma_div_pos_is_pos(k, w);
    assert(k / w < h) by (nonlinear_arith)
        requires
            0 <= k < w * h,
            w >= 1,
            h >= 1,
            k == w * (k / w) + k % w,
            0 <= k % w < w,
    ;
}

/// Intersecting a box with itself gives the box back, and enumerating a
/// non-degenerate box yields exactly `area()` coordinates.
pub proof fn lemma_intersect_self_and_enumeration(b: Dabb2)
    requires
        b.wf(),
    ensures
        b.spec_intersect(b) == b,
        b.coords_seq().len() == b.spec_area(),
{
}

/// Helpers for rounding onto a grid of interval multiples.
pub trait MathUtils: Sized {
    /// When the remainder against `div` is defined.
    spec fn mod_req(self, div: Self) -> bool;

    /// When rounding down to a multiple of `div` is defined.
    spec fn floor_req(self, div: Self) -> bool;

    /// When rounding up past a multiple of `div` is defined.
    spec fn ceil_req(self, div: Self) -> bool;

    spec fn spec_correct_mod(self, div: Self) -> Self;

    spec fn spec_floor_on_interval(self, div: Self) -> Self;

    spec fn spec_ceil_on_interval(self, div: Self) -> Self;

    /// The mathematical (always nonnegative) remainder of `self` by `div`.
    fn correct_mod(&self, div: Self) -> (r: Self)
        requires
            (*self).mod_req(div),
        ensures
            r == (*self).spec_correct_mod(div),
    ;

    /// The greatest multiple of `div` that is at most `self`.
    fn floor_on_interval(&self, div: Self) -> (r: Self)
        requires
            (*self).floor_req(div),
        ensures
            r == (*self).spec_floor_on_interval(div),
    ;

    /// The multiple of `div` strictly above the floor, i.e. the floor plus
    /// `div`.
    fn ceil_on_interval(&self, div: Self) -> (r: Self)
        requires
            (*self).ceil_req(div),
        ensures
            r == (*self).spec_ceil_on_interval(div),
    ;
}

impl MathUtils for i32 {
    open spec fn mod_req(self, div: i32) -> bool {
        div > 0
    }

    open spec fn floor_req(self, div: i32) -> bool {
        div > 0 && self - self as int % div as int >= i32::MIN
    }

    open spec fn ceil_req(self, div: i32) -> bool {
        div > 0 && self - self as int % div as int >= i32::MIN && self - self as int % div as int
            + div <= i32::MAX
    }

    open spec fn spec_correct_mod(self, div: i32) -> i32 {
        (self as int % div as int) as i32
    }

    open spec fn spec_floor_on_interval(self, div: i32) -> i32 {
        (self - self as int % div as int) as i32
    }

    open spec fn spec_ceil_on_interval(self, div: i32) -> i32 {
        (self - self as int % div as int + div) as i32
    }

    fn correct_mod(&self, div: i32) -> (r: i32) {
        let m = mag_u32(*self);
        let dm = div as u32;
        let mv = m % dm;
        proof {
            let ai = *self as int;
            let di = div as int;
            let mi = m as int;
            lemma_fundamental_div_mod(mi, di);
            lemma_mod_division_less_than_divisor(mi, di);
            lemma_div_pos_is_pos(mi, di);
            let q1 = mi / di;
            let r1 = mi % di;
            if *self < 0 {
                if r1 == 0 {
                    assert(ai == (-q1) * di + 0) by (nonlinear_arith)
                        requires mi == di * q1 && mi == -ai;
                    lemma_fundamental_div_mod_converse_mod(ai, di, -q1, 0);
                } else {
                    assert(ai == (-(q1 + 1)) * di + (di - r1)) by (nonlinear_arith)
                        requires mi == di * q1 + r1 && mi == -ai;
                    lemma_fundamental_div_mod_converse_mod(ai, di, -(q1 + 1), di - r1);
                }
            }
        }
        if *self < 0 && mv > 0 {
            div - (mv as i32)
        } else {
            mv as i32
        }
    }

    fn floor_on_interval(&self, div: i32) -> (r: i32) {
        *self - self.correct_mod(div)
    }

    fn ceil_on_interval(&self, div: i32) -> (r: i32) {
        self.floor_on_interval(div) + div
    }
}

impl MathUtils for Coordinate {
    open spec fn mod_req(self, div: Coordinate) -> bool {
        self.x.mod_req(div.x) && self.y.mod_req(div.y)
    }

    open spec fn floor_req(self, div: Coordinate) -> bool {
        self.x.floor_req(div.x) && self.y.floor_req(div.y)
    }

    open spec fn ceil_req(self, div: Coordinate) -> bool {
        self.x.ceil_req(div.x) && self.y.ceil_req(div.y)
    }

    open spec fn spec_correct_mod(self, div: Coordinate) -> Coordinate {
        Coordinate { x: self.x.spec_correct_mod(div.x), y: self.y.spec_correct_mod(div.y) }
    }

    open spec fn spec_floor_on_interval(self, div: Coordinate) -> Coordinate {
        Coordinate {
            x: self.x.spec_floor_on_interval(div.x),
            y: self.y.spec_floor_on_interval(div.y),
        }
    }

    open spec fn spec_ceil_on_interval(self, div: Coordinate) -> Coordinate {
        Coordinate { x: self.x.spec_ceil_on_interval(div.x), y: self.y.spec_ceil_on_interval(div.y) }
    }

    fn correct_mod(&self, div: Coordinate) -> (r: Coordinate) {
        Coordinate { x: self.x.correct_mod(div.x), y: self.y.correct_mod(div.y) }
    }

    fn floor_on_interval(&self, div: Coordinate) -> (r: Coordinate) {
        Coordinate { x: self.x.floor_on_interval(div.x), y: self.y.floor_on_interval(div.y) }
    }

    fn ceil_on_interval(&self, div: Coordinate) -> (r: Coordinate) {
        Coordinate { x: self.x.ceil_on_interval(div.x), y: self.y.ceil_on_interval(div.y) }
    }
}

} // verus!
