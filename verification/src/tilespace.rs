//! Tile space: the affine mapping between tile-grid coordinates and pixel
//! coordinates for one dataset, at an arbitrary pyramid level.

use vstd::prelude::*;
use vstd::arithmetic::div_mod::*;
use vstd::arithmetic::mul::*;
use vstd::arithmetic::power2::*;
use crate::math::Coordinate;
use crate::math::Dabb2;
use crate::math::TileCoordinate3;
use crate::math::floor_div_i32;
use crate::math::ceil_div_i32;
use crate::math::lemma_div_i32_range;
use crate::math::spec_ceil_div;

verus! {

/// The grid of one dataset: tile size and pixel offset of tile (0, 0).
#[derive(Clone, Copy, Debug, PartialEq, Eq, Structural)]
pub struct Tilespace {
    pub size: Coordinate,
    pub offset: Coordinate,
}

/// `spec_ceil_div` of an `i32`-ranged value stays in `i32` range.
pub proof fn lemma_ceil_div_i32_range(a: int, d: int)
    requires
        d >= 1,
        i32::MIN <= a <= i32::MAX,
    ensures
        i32::MIN <= spec_ceil_div(a, d) <= i32::MAX,
        a / d <= spec_ceil_div(a, d) <= a / d + 1,
{
    lemma_div_i32_range(a, d);
    lemma_div_is_ordered(a, a + d - 1, d);
    lemma_div_plus_one(a, d);
    lemma_div_is_ordered(a + d - 1, a + d, d);
    if d == 1 {
        assert(spec_ceil_div(a, d) == a / d);
    } else {
        if a >= 0 {
            lemma_div_is_ordered_by_denominator(a, 2, d);
            lemma_div_is_ordered(a, i32::MAX as int, 2);
        }
    }
}

/// The begin (floor) and end (ceiling) tile indices around a pixel interval.
/// `covering`: the tile span `[b*d, (e')*d)` contains `[b0, e0)`;
/// `minimality`: dropping one tile from either side loses a pixel.
pub proof fn lemma_cover_1d(b0: int, e0: int, d: int)
    requires
        d >= 1,
        i32::MIN <= b0 <= i32::MAX,
        i32::MIN <= e0 <= i32::MAX,
    ensures
        (b0 / d) * d <= b0,
        spec_ceil_div(e0, d) * d >= e0,
        b0 < ((b0 / d) + 1) * d,
        (spec_ceil_div(e0, d) - 1) * d < e0,
{
    lemma_fundamental_div_mod(b0, d);
    lemma_mod_division_less_than_divisor(b0, d);
    let q = b0 / d;
    let r = b0 % d;
    assert(q * d <= b0 && b0 < (q + 1) * d) by (nonlinear_arith)
        requires b0 == d * q + r && 0 <= r < d;
    lemma_fundamental_div_mod(e0 + d - 1, d);
    lemma_mod_division_less_than_divisor(e0 + d - 1, d);
    let qc = (e0 + d - 1) / d;
    let rc = (e0 + d - 1) % d;
    assert(qc * d >= e0 && (qc - 1) * d < e0) by (nonlinear_arith)
        requires e0 + d - 1 == d * qc + rc && 0 <= rc < d;
}

impl Tilespace {
    /// Tile sizes are positive on both axes.
    pub open spec fn wf(self) -> bool {
        self.size.x > 0 && self.size.y > 0
    }

    /// The tile-index box covering a pixel box: begin rounded down, end
    /// rounded up to the surrounding tile boundaries, in floor-division
    /// style so that tiling is consistent across the origin.
    pub open spec fn spec_covered_tiles(self, pixel_bounds: Dabb2) -> Dabb2 {
        Dabb2 {
            begin: Coordinate {
                x: (pixel_bounds.begin.x as int / self.size.x as int) as i32,
                y: (pixel_bounds.begin.y as int / self.size.y as int) as i32,
            },
            end: Coordinate {
                x: spec_ceil_div(pixel_bounds.end.x as int, self.size.x as int) as i32,
                y: spec_ceil_div(pixel_bounds.end.y as int, self.size.y as int) as i32,
            },
        }
    }

    /// The tiles whose pixel footprint meets `pixel_bounds`.
    pub fn get_covered_tiles(&self, pixel_bounds: Dabb2) -> (r: Dabb2)
        requires
            self.wf(),
        ensures
            r == self.spec_covered_tiles(pixel_bounds),
            pixel_bounds.wf() ==> r.wf(),
    {
        proof {
            lemma_div_i32_range(pixel_bounds.begin.x as int, self.size.x as int);
            lemma_div_i32_range(pixel_bounds.begin.y as int, self.size.y as int);
            lemma_ceil_div_i32_range(pixel_bounds.end.x as int, self.size.x as int);
            lemma_ceil_div_i32_range(pixel_bounds.end.y as int, self.size.y as int);
            if pixel_bounds.wf() {
                lemma_div_is_ordered(
                    pixel_bounds.begin.x as int,
                    pixel_bounds.end.x as int + self.size.x - 1,
                    self.size.x as int,
                );
                lemma_div_is_ordered(
                    pixel_bounds.begin.y as int,
                    pixel_bounds.end.y as int + self.size.y - 1,
                    self.size.y as int,
                );
            }
        }
        Dabb2 {
            begin: Coordinate {
                x: floor_div_i32(pixel_bounds.begin.x, self.size.x),
                y: floor_div_i32(pixel_bounds.begin.y, self.size.y),
            },
            end: Coordinate {
                x: ceil_div_i32(pixel_bounds.end.x, self.size.x),
                y: ceil_div_i32(pixel_bounds.end.y, self.size.y),
            },
        }
    }

    /// The level-0 pixel box of the tile at `input_coord`, as a value.
    pub open spec fn spec_tile_pixels(self, c: Coordinate) -> Dabb2 {
        Dabb2 {
            begin: Coordinate {
                x: (c.x * self.size.x + self.offset.x) as i32,
                y: (c.y * self.size.y + self.offset.y) as i32,
            },
            end: Coordinate {
                x: ((c.x + 1) * self.size.x + self.offset.x) as i32,
                y: ((c.y + 1) * self.size.y + self.offset.y) as i32,
            },
        }
    }

    /// The level-`z` pixel box of the tile at `c`, as a value.
    pub open spec fn spec_tile_pixels_level(self, c: TileCoordinate3) -> Dabb2 {
        Tilespace { size: self.spec_level_size(c.z as int), offset: self.offset }.spec_tile_pixels(
            Coordinate { x: c.x, y: c.y },
        )
    }

    /// The level-0 pixel box of the tile at `input_coord`.
    pub fn tile_pixels(&self, input_coord: Coordinate) -> (r: Dabb2)
        requires
            self.wf(),
            i32::MIN <= input_coord.x * self.size.x + self.offset.x,
            (input_coord.x + 1) * self.size.x + self.offset.x <= i32::MAX,
            i32::MIN <= input_coord.y * self.size.y + self.offset.y,
            (input_coord.y + 1) * self.size.y + self.offset.y <= i32::MAX,
        ensures
            r.begin.x == input_coord.x * self.size.x + self.offset.x,
            r.begin.y == input_coord.y * self.size.y + self.offset.y,
            r.end.x == (input_coord.x + 1) * self.size.x + self.offset.x,
            r.end.y == (input_coord.y + 1) * self.size.y + self.offset.y,
            r == self.spec_tile_pixels(input_coord),
            r.wf(),
    {
        proof {
            lemma_mul_inequality(input_coord.x as int, input_coord.x + 1, self.size.x as int);
            lemma_mul_inequality(input_coord.y as int, input_coord.y + 1, self.size.y as int);
        }
        let bx = input_coord.x as i64 * self.size.x as i64 + self.offset.x as i64;
        let by = input_coord.y as i64 * self.size.y as i64 + self.offset.y as i64;
        let ex = (input_coord.x as i64 + 1) * self.size.x as i64 + self.offset.x as i64;
        let ey = (input_coord.y as i64 + 1) * self.size.y as i64 + self.offset.y as i64;
        Dabb2 {
            begin: Coordinate { x: bx as i32, y: by as i32 },
            end: Coordinate { x: ex as i32, y: ey as i32 },
        }
    }

    /// The tile size at pyramid level `z`: the base size scaled by `2^z`.
    pub open spec fn spec_level_size(self, z: int) -> Coordinate {
        Coordinate {
            x: (self.size.x * pow2(z as nat)) as i32,
            y: (self.size.y * pow2(z as nat)) as i32,
        }
    }

    /// Both axes of the level-`z` tile size stay in `i32` range.
    pub open spec fn level_fits(self, z: int) -> bool {
        &&& 0 <= z <= 30
        &&& self.size.x * pow2(z as nat) <= i32::MAX
        &&& self.size.y * pow2(z as nat) <= i32::MAX
    }

    /// `2^z` for a small exponent.
    pub fn pow2_i32(z: i32) -> (r: i32)
        requires
            0 <= z <= 30,
        ensures
            r == pow2(z as nat),
            r >= 1,
    {
        proof {
            lemma2_to64();
        }
        let mut m: i32 = 1;
        let mut i: i32 = 0;
        while i < z
            invariant
                0 <= i <= z <= 30,
                m == pow2(i as nat),
            decreases z - i,
        {
            proof {
                lemma_pow2_strictly_increases(i as nat, (i + 1) as nat);
                lemma_pow2_strictly_increases((i + 1) as nat, 31);
                lemma2_to64();
                lemma_pow2_adds(i as nat, 1);
                lemma2_to64();
            }
            m = m * 2;
            i = i + 1;
        }
        m
    }

    /// The level-`z` pixel box of the tile at `input_coord`: as `tile_pixels`
    /// but with the tile size scaled by `2^z` first.
    pub fn tile_pixels_level(&self, input_coord: TileCoordinate3) -> (r: Dabb2)
        requires
            self.wf(),
            self.level_fits(input_coord.z as int),
            i32::MIN <= input_coord.x * (self.size.x * pow2(input_coord.z as nat))
                + self.offset.x,
            (input_coord.x + 1) * (self.size.x * pow2(input_coord.z as nat)) + self.offset.x
                <= i32::MAX,
            i32::MIN <= input_coord.y * (self.size.y * pow2(input_coord.z as nat))
                + self.offset.y,
            (input_coord.y + 1) * (self.size.y * pow2(input_coord.z as nat)) + self.offset.y
                <= i32::MAX,
        ensures
            r.begin.x == input_coord.x * (self.size.x * pow2(input_coord.z as nat))
                + self.offset.x,
            r.begin.y == input_coord.y * (self.size.y * pow2(input_coord.z as nat))
                + self.offset.y,
            r.end.x == (input_coord.x + 1) * (self.size.x * pow2(input_coord.z as nat))
                + self.offset.x,
            r.end.y == (input_coord.y + 1) * (self.size.y * pow2(input_coord.z as nat))
                + self.offset.y,
            r == self.spec_tile_pixels_level(input_coord),
            r.wf(),
    {
        let m = Self::pow2_i32(input_coord.z);
        proof {
            lemma_pow2_pos(input_coord.z as nat);
            lemma_mul_strictly_positive(self.size.x as int, m as int);
            lemma_mul_strictly_positive(self.size.y as int, m as int);
        }
        let level_space = Tilespace {
            size: Coordinate { x: self.size.x * m, y: self.size.y * m },
            offset: self.offset,
        };
        level_space.tile_pixels(Coordinate { x: input_coord.x, y: input_coord.y })
    }
}

/// Substitute a tile coordinate into a URI template, placeholder keys
/// `x`, `y` and `z`.
pub fn format_tile_string(template: &str, coord: TileCoordinate3) -> (res: Result<String, String>)
    ensures
        res matches Ok(s) ==> crate::uri_format::spec_format_tile(
            template@,
            coord.x as int,
            coord.y as int,
            coord.z as int,
        ) == Some(s@),
        res is Err ==> crate::uri_format::spec_format_tile(
            template@,
            coord.x as int,
            coord.y as int,
            coord.z as int,
        ) is None,
        res is Ok <==> crate::uri_format::template_valid(template@),
{
    crate::uri_format::format_template(template, coord.x, coord.y, coord.z)
}

/// A dataset that can name the resource holding a given tile.
pub trait TileURIProvider {
    /// The URI template the names are derived from.
    spec fn uri_template(&self) -> Seq<char>;

    /// The template has been validated.
    spec fn uri_wf(&self) -> bool;

    /// The resource identifier of the tile at `coord`.
    fn get_resource_uri(&self, coord: TileCoordinate3) -> (r: String)
        requires
            self.uri_wf(),
        ensures
            Some(r@) == crate::uri_format::spec_format_tile(
                self.uri_template(),
                coord.x as int,
                coord.y as int,
                coord.z as int,
            ),
    ;
}

/// The covering law of `coveredTiles`: scaling the covered-tile box back by
/// the tile size yields a pixel box that fully contains the input box, and
/// the cover is minimal: shrinking it by one tile on any side loses some
/// pixel of a nonempty input box.
pub proof fn lemma_covered_tiles_covering(ts: Tilespace, p: Dabb2)
    requires
        ts.wf(),
        p.wf(),
    ensures
        ts.spec_covered_tiles(p).begin.x * ts.size.x <= p.begin.x,
        ts.spec_covered_tiles(p).begin.y * ts.size.y <= p.begin.y,
        p.end.x <= ts.spec_covered_tiles(p).end.x * ts.size.x,
        p.end.y <= ts.spec_covered_tiles(p).end.y * ts.size.y,
        !p.is_empty() ==> p.begin.x < (ts.spec_covered_tiles(p).begin.x + 1) * ts.size.x,
        !p.is_empty() ==> p.begin.y < (ts.spec_covered_tiles(p).begin.y + 1) * ts.size.y,
        !p.is_empty() ==> (ts.spec_covered_tiles(p).end.x - 1) * ts.size.x < p.end.x,
        !p.is_empty() ==> (ts.spec_covered_tiles(p).end.y - 1) * ts.size.y < p.end.y,
{
    lemma_div_i32_range(p.begin.x as int, ts.size.x as int);
    lemma_div_i32_range(p.begin.y as int, ts.size.y as int);
    lemma_ceil_div_i32_range(p.end.x as int, ts.size.x as int);
    lemma_ceil_div_i32_range(p.end.y as int, ts.size.y as int);
    lemma_cover_1d(p.begin.x as int, p.end.x as int, ts.size.x as int);
    lemma_cover_1d(p.begin.y as int, p.end.y as int, ts.size.y as int);
}

} // verus!
