//! The job generator: the spatial join between the writer's grid and the
//! source's grid across a range of pyramid levels, yielding self-contained
//! retiling jobs.

use vstd::prelude::*;
use vstd::arithmetic::mul::*;
use vstd::arithmetic::power2::*;
use crate::math::Coordinate;
use crate::math::Dabb2;
use crate::math::TileCoordinate3;
use crate::math::lemma_iter_pos_bounds;
use crate::math::lemma_div_i32_range;
use crate::math::spec_ceil_div;
use crate::tilespace::Tilespace;
use crate::tilespace::lemma_cover_1d;
use crate::tilespace::lemma_ceil_div_i32_range;
use crate::config::DatasetProvider;
use crate::config::manifest_has;
use crate::dataset_writer::DatasetWriter;

verus! {

/// The pixels of one source tile that feed one output tile: the source
/// tile's address and a sub-rectangle in that tile's own local pixel
/// coordinates.
#[derive(Clone, Copy, Debug, PartialEq, Eq, Structural)]
pub struct SampleRegion {
    pub input_coord: TileCoordinate3,
    pub pixel_region: Dabb2,
}

/// One output tile together with every sample region needed to fill it.
/// A job is self-contained: executing it needs no state from any other
/// job.
pub struct Job {
    pub output_coord: TileCoordinate3,
    pub sample_regions: Vec<SampleRegion>,
}

/// The mathematical content of a `Job`.
pub ghost struct JobView {
    pub output_coord: TileCoordinate3,
    pub sample_regions: Seq<SampleRegion>,
}

impl View for Job {
    type V = JobView;

    open spec fn view(&self) -> JobView {
        JobView { output_coord: self.output_coord, sample_regions: self.sample_regions@ }
    }
}

/// The sample region of source tile `tile` for the output pixel box
/// `out_box`: the intersection of the two footprints, moved into the
/// source tile's local coordinates.
pub open spec fn spec_region_for(src: Tilespace, out_box: Dabb2, tile: Coordinate) -> SampleRegion {
    let tex = src.spec_tile_pixels(tile);
    let inter = out_box.spec_intersect(tex);
    SampleRegion {
        input_coord: TileCoordinate3 { x: tile.x, y: tile.y, z: 0 },
        pixel_region: Dabb2 {
            begin: Coordinate {
                x: (inter.begin.x - tex.begin.x) as i32,
                y: (inter.begin.y - tex.begin.y) as i32,
            },
            end: Coordinate {
                x: (inter.end.x - tex.begin.x) as i32,
                y: (inter.end.y - tex.begin.y) as i32,
            },
        },
    }
}

/// The sample regions of the manifest-listed tiles among `tiles`, in
/// enumeration order.
pub open spec fn spec_sample_regions(
    src: Tilespace,
    manifest: Seq<TileCoordinate3>,
    out_box: Dabb2,
    tiles: Seq<Coordinate>,
) -> Seq<SampleRegion>
    decreases tiles.len(),
{
    if tiles.len() == 0 {
        Seq::empty()
    } else {
        let rest = spec_sample_regions(src, manifest, out_box, tiles.drop_last());
        let t = tiles.last();
        if manifest.contains(TileCoordinate3 { x: t.x, y: t.y, z: 0 }) {
            rest.push(spec_region_for(src, out_box, t))
        } else {
            rest
        }
    }
}

/// All sample regions feeding the output pixel box `out_box`: one for
/// each manifest-listed source tile whose footprint meets it.
pub open spec fn spec_regions_for_out(
    src: Tilespace,
    manifest: Seq<TileCoordinate3>,
    out_box: Dabb2,
) -> Seq<SampleRegion> {
    spec_sample_regions(src, manifest, out_box, src.spec_covered_tiles(out_box).coords_seq())
}

/// The jobs of one pyramid level, one for each candidate output tile
/// among `tiles` that has at least one sample region.
pub open spec fn spec_jobs_at_level(
    src: Tilespace,
    manifest: Seq<TileCoordinate3>,
    dst: Tilespace,
    level: int,
    tiles: Seq<Coordinate>,
) -> Seq<JobView>
    decreases tiles.len(),
{
    if tiles.len() == 0 {
        Seq::empty()
    } else {
        let rest = spec_jobs_at_level(src, manifest, dst, level, tiles.drop_last());
        let t = tiles.last();
        let oc = TileCoordinate3 { x: t.x, y: t.y, z: level as i32 };
        let srs = spec_regions_for_out(src, manifest, dst.spec_tile_pixels_level(oc));
        if srs.len() > 0 {
            rest.push(JobView { output_coord: oc, sample_regions: srs })
        } else {
            rest
        }
    }
}

/// The full job list for levels `end_level ..= level`, coarse levels
/// after fine ones in ascending level order.
pub open spec fn spec_gen_jobs(
    src: Tilespace,
    manifest: Seq<TileCoordinate3>,
    dst: Tilespace,
    region: Dabb2,
    end_level: int,
    level: int,
) -> Seq<JobView>
    decreases level - end_level + 1,
{
    if level < end_level {
        Seq::empty()
    } else {
        spec_gen_jobs(src, manifest, dst, region, end_level, level - 1) + spec_jobs_at_level(
            src,
            manifest,
            dst,
            level,
            dst.spec_covered_tiles(region).coords_seq(),
        )
    }
}

/// The executable jobs realize the mathematical job list.
pub open spec fn jobs_match(jobs: Seq<Job>, ghost_jobs: Seq<JobView>) -> bool {
    &&& jobs.len() == ghost_jobs.len()
    &&& forall|i: int| 0 <= i < jobs.len() ==> #[trigger] jobs[i]@ == ghost_jobs[i]
}

/// The arithmetic room one candidate output tile needs: its level pixel
/// box stays an entire source tile size away from the `i32` boundary.
pub open spec fn level_tile_fits(
    dst: Tilespace,
    src: Tilespace,
    l: int,
    t: Coordinate,
) -> bool {
    let mx = dst.size.x * pow2(l as nat);
    let my = dst.size.y * pow2(l as nat);
    &&& i32::MIN + src.size.x <= t.x * mx + dst.offset.x
    &&& (t.x + 1) * mx + dst.offset.x + src.size.x <= i32::MAX
    &&& i32::MIN + src.size.y <= t.y * my + dst.offset.y
    &&& (t.y + 1) * my + dst.offset.y + src.size.y <= i32::MAX
}

/// Every candidate output tile of every requested level has arithmetic
/// room.
pub open spec fn gen_jobs_fits(
    src: Tilespace,
    dst: Tilespace,
    region: Dabb2,
    begin_level: int,
    end_level: int,
) -> bool {
    forall|l: int, k: int|
        end_level <= l <= begin_level && 0 <= k < dst.spec_covered_tiles(
            region,
        ).coords_seq().len() ==> #[trigger] level_tile_fits(
            dst,
            src,
            l,
            dst.spec_covered_tiles(region).coords_seq()[k],
        )
}

/// Bounds of a source tile's footprint around the output box it was
/// selected for: it overlaps the box and stays within one tile size of
/// its edges.
proof fn lemma_source_tile_bounds(src: Tilespace, ob: Dabb2, t: Coordinate)
    requires
        src.wf(),
        src.offset == (Coordinate { x: 0, y: 0 }),
        ob.wf(),
        src.spec_covered_tiles(ob).spec_contains(t),
        i32::MIN + src.size.x - 1 <= ob.begin.x,
        ob.end.x + src.size.x - 1 <= i32::MAX,
        i32::MIN + src.size.y - 1 <= ob.begin.y,
        ob.end.y + src.size.y - 1 <= i32::MAX,
    ensures
        i32::MIN <= t.x * src.size.x + src.offset.x,
        (t.x + 1) * src.size.x + src.offset.x <= i32::MAX,
        i32::MIN <= t.y * src.size.y + src.offset.y,
        (t.y + 1) * src.size.y + src.offset.y <= i32::MAX,
        ob.begin.x - src.size.x < t.x * src.size.x <= i32::MAX - src.size.x,
        t.x * src.size.x < ob.end.x,
        ob.begin.x < (t.x + 1) * src.size.x,
        (t.x + 1) * src.size.x < ob.end.x + src.size.x,
        ob.begin.y - src.size.y < t.y * src.size.y <= i32::MAX - src.size.y,
        t.y * src.size.y < ob.end.y,
        ob.begin.y < (t.y + 1) * src.size.y,
        (t.y + 1) * src.size.y < ob.end.y + src.size.y,
{
    let sx = src.size.x as int;
    let sy = src.size.y as int;
    lemma_div_i32_range(ob.begin.x as int, sx);
    lemma_div_i32_range(ob.begin.y as int, sy);
    lemma_ceil_div_i32_range(ob.end.x as int, sx);
    lemma_ceil_div_i32_range(ob.end.y as int, sy);
    lemma_cover_1d(ob.begin.x as int, ob.end.x as int, sx);
    lemma_cover_1d(ob.begin.y as int, ob.end.y as int, sy);
    let cbx = ob.begin.x as int / sx;
    let cex = spec_ceil_div(ob.end.x as int, sx);
    let cby = ob.begin.y as int / sy;
    let cey = spec_ceil_div(ob.end.y as int, sy);
    assert(cbx <= t.x < cex);
    assert(cby <= t.y < cey);
    lemma_mul_inequality(cbx, t.x as int, sx);
    lemma_mul_inequality(t.x + 1, cex, sx);
    lemma_mul_inequality(cby, t.y as int, sy);
    lemma_mul_inequality(t.y + 1, cey, sy);
    lemma_mul_inequality(t.x as int, cex - 1, sx);
    lemma_mul_inequality(t.y as int, cey - 1, sy);
    lemma_mul_inequality(cbx + 1, t.x + 1, sx);
    lemma_mul_inequality(cby + 1, t.y + 1, sy);
    assert((cex - 1) * sx == cex * sx - sx) by (nonlinear_arith);
    assert((cey - 1) * sy == cey * sy - sy) by (nonlinear_arith);
    assert((cbx + 1) * sx == cbx * sx + sx) by (nonlinear_arith);
    assert((cby + 1) * sy == cby * sy + sy) by (nonlinear_arith);
}

/// The sample regions feeding one output pixel box: one region per
/// manifest-listed source tile under the box, each region the overlap of
/// the two footprints in the source tile's local coordinates.
pub fn build_sample_regions(dp: &DatasetProvider, out_box: Dabb2) -> (r: Vec<SampleRegion>)
    requires
        dp.wf(),
        out_box.wf(),
        i32::MIN + dp.tilespace.size.x - 1 <= out_box.begin.x,
        out_box.end.x + dp.tilespace.size.x - 1 <= i32::MAX,
        i32::MIN + dp.tilespace.size.y - 1 <= out_box.begin.y,
        out_box.end.y + dp.tilespace.size.y - 1 <= i32::MAX,
    ensures
        r@ == spec_regions_for_out(dp.tilespace, dp.manifest@, out_box),
{
    let cover = dp.tilespace.get_covered_tiles(out_box);
    let ghost tiles = cover.coords_seq();
    let mut regions: Vec<SampleRegion> = Vec::new();
    let mut it = cover.into_iter();
    proof {
        assert(tiles.subrange(0, 0) =~= Seq::<Coordinate>::empty());
    }
    loop
        invariant
            dp.wf(),
            out_box.wf(),
            i32::MIN + dp.tilespace.size.x - 1 <= out_box.begin.x,
            out_box.end.x + dp.tilespace.size.x - 1 <= i32::MAX,
            i32::MIN + dp.tilespace.size.y - 1 <= out_box.begin.y,
            out_box.end.y + dp.tilespace.size.y - 1 <= i32::MAX,
            it.wf(),
            it.owner == cover,
            cover == dp.tilespace.spec_covered_tiles(out_box),
            tiles == cover.coords_seq(),
            0 <= it.pos() <= tiles.len(),
            regions@ == spec_sample_regions(
                dp.tilespace,
                dp.manifest@,
                out_box,
                tiles.subrange(0, it.pos()),
            ),
        ensures
            regions@ == spec_sample_regions(dp.tilespace, dp.manifest@, out_box, tiles),
        decreases tiles.len() - it.pos(),
    {
        let ghost pos = it.pos();
        let t = match it.next() {
            Some(t) => t,
            None => {
                proof {
                    assert(tiles.subrange(0, pos) =~= tiles);
                }
                break ;
            },
        };
        proof {
            lemma_iter_pos_bounds(it);
            assert(t == tiles[pos]);
            crate::math::lemma_coords_seq_contains(cover, pos);
        }
        let input_coord = TileCoordinate3 { x: t.x, y: t.y, z: 0 };
        if manifest_has(&dp.manifest, input_coord) {
            proof {
                lemma_source_tile_bounds(dp.tilespace, out_box, t);
                let sx = dp.tilespace.size.x as int;
                let sy = dp.tilespace.size.y as int;
                assert((t.x + 1) * sx == t.x * sx + sx) by (nonlinear_arith);
                assert((t.y + 1) * sy == t.y * sy + sy) by (nonlinear_arith);
            }
            let tex = dp.tilespace.tile_pixels(t);
            let inter = out_box.intersect(tex);
            let pr = inter.translated_back(tex.begin);
            proof {
                assert(tex == dp.tilespace.spec_tile_pixels(t));
                assert(inter == out_box.spec_intersect(tex));
                assert(SampleRegion { input_coord, pixel_region: pr } == spec_region_for(
                    dp.tilespace,
                    out_box,
                    t,
                ));
            }
            regions.push(SampleRegion { input_coord, pixel_region: pr });
        }
        proof {
            let pre = tiles.subrange(0, pos + 1);
            assert(pre.drop_last() =~= tiles.subrange(0, pos));
            assert(pre.last() == tiles[pos]);
            assert(regions@ == spec_sample_regions(
                dp.tilespace,
                dp.manifest@,
                out_box,
                pre,
            ));
        }
    }
    regions
}

/// The source tile whose footprint holds the level-0 pixel `g`, on an
/// offset-zero source grid.
pub open spec fn spec_containing_tile(src: Tilespace, g: Coordinate) -> Coordinate {
    Coordinate {
        x: (g.x as int / src.size.x as int) as i32,
        y: (g.y as int / src.size.y as int) as i32,
    }
}

/// Whether the sample region `r` represents the global source pixel `g`:
/// `g`, moved into the region's local coordinates, lies in its pixel box.
pub open spec fn region_covers(src: Tilespace, r: SampleRegion, g: Coordinate) -> bool {
    let tex = src.spec_tile_pixels(Coordinate { x: r.input_coord.x, y: r.input_coord.y });
    r.pixel_region.spec_contains(
        Coordinate { x: (g.x - tex.begin.x) as i32, y: (g.y - tex.begin.y) as i32 },
    )
}

/// A pixel belongs to the footprint of exactly its containing tile.
proof fn lemma_containing_tile_unique(src: Tilespace, t: Coordinate, g: Coordinate)
    requires
        src.wf(),
        src.offset == (Coordinate { x: 0, y: 0 }),
        t.x * src.size.x <= g.x < (t.x + 1) * src.size.x,
        t.y * src.size.y <= g.y < (t.y + 1) * src.size.y,
    ensures
        t == spec_containing_tile(src, g),
{
    let sx = src.size.x as int;
    let sy = src.size.y as int;
    assert(g.x == t.x * sx + (g.x - t.x * sx) && 0 <= g.x - t.x * sx < sx) by (nonlinear_arith)
        requires t.x * sx <= g.x < (t.x + 1) * sx;
    assert(g.y == t.y * sy + (g.y - t.y * sy) && 0 <= g.y - t.y * sy < sy) by (nonlinear_arith)
        requires t.y * sy <= g.y < (t.y + 1) * sy;
    vstd::arithmetic::div_mod::lemma_fundamental_div_mod_converse_div(
        g.x as int,
        sx,
        t.x as int,
        g.x - t.x * sx,
    );
    vstd::arithmetic::div_mod::lemma_fundamental_div_mod_converse_div(
        g.y as int,
        sy,
        t.y as int,
        g.y - t.y * sy,
    );
    lemma_div_i32_range(g.x as int, sx);
    lemma_div_i32_range(g.y as int, sy);
}

/// For a tile under the output box, its region represents exactly the
/// pixels in both footprints.
proof fn lemma_region_covers_iff(src: Tilespace, ob: Dabb2, t: Coordinate, g: Coordinate)
    requires
        src.wf(),
        src.offset == (Coordinate { x: 0, y: 0 }),
        ob.wf(),
        src.spec_covered_tiles(ob).spec_contains(t),
        i32::MIN + src.size.x - 1 <= ob.begin.x,
        ob.end.x + src.size.x - 1 <= i32::MAX,
        i32::MIN + src.size.y - 1 <= ob.begin.y,
        ob.end.y + src.size.y - 1 <= i32::MAX,
        ob.spec_width() + src.size.x <= i32::MAX,
        ob.spec_height() + src.size.y <= i32::MAX,
        ob.spec_contains(g),
    ensures
        region_covers(src, spec_region_for(src, ob, t), g) <==> src.spec_tile_pixels(
            t,
        ).spec_contains(g),
{
    lemma_source_tile_bounds(src, ob, t);
    let sx = src.size.x as int;
    let sy = src.size.y as int;
    assert((t.x + 1) * sx == t.x * sx + sx) by (nonlinear_arith);
    assert((t.y + 1) * sy == t.y * sy + sy) by (nonlinear_arith);
    let tex = src.spec_tile_pixels(t);
    let inter = ob.spec_intersect(tex);
    let r = spec_region_for(src, ob, t);
    // the local pixel box is the overlap shifted to the tile origin
    assert(r.pixel_region.begin.x == inter.begin.x - tex.begin.x);
    assert(r.pixel_region.begin.y == inter.begin.y - tex.begin.y);
    assert(r.pixel_region.end.x == inter.end.x - tex.begin.x);
    assert(r.pixel_region.end.y == inter.end.y - tex.begin.y);
    // the shifted pixel stays in `i32` range
    assert(ob.begin.x - ob.end.x < g.x - tex.begin.x < ob.spec_width() + src.size.x);
    assert(ob.begin.y - ob.end.y < g.y - tex.begin.y < ob.spec_height() + src.size.y);
    let lx = Coordinate { x: (g.x - tex.begin.x) as i32, y: (g.y - tex.begin.y) as i32 };
    assert(lx.x == g.x - tex.begin.x);
    assert(lx.y == g.y - tex.begin.y);
}

/// The regions of a tile list: each comes from a listed tile of the list,
/// each listed tile contributes one, and distinct regions name distinct
/// source tiles.
proof fn lemma_sample_regions_structure(
    src: Tilespace,
    manifest: Seq<TileCoordinate3>,
    ob: Dabb2,
    tiles: Seq<Coordinate>,
)
    requires
        forall|k1: int, k2: int|
            0 <= k1 < k2 < tiles.len() ==> #[trigger] tiles[k1] != #[trigger] tiles[k2],
    ensures
        ({
            let regions = spec_sample_regions(src, manifest, ob, tiles);
            &&& forall|i: int|
                0 <= i < regions.len() ==> exists|k: int|
                    0 <= k < tiles.len() && manifest.contains(
                        TileCoordinate3 { x: tiles[k].x, y: tiles[k].y, z: 0 },
                    ) && #[trigger] regions[i] == spec_region_for(src, ob, tiles[k])
            &&& forall|k: int|
                0 <= k < tiles.len() && manifest.contains(
                    TileCoordinate3 { x: #[trigger] tiles[k].x, y: tiles[k].y, z: 0 },
                ) ==> exists|i: int|
                    0 <= i < regions.len() && #[trigger] regions[i] == spec_region_for(
                        src,
                        ob,
                        tiles[k],
                    )
            &&& forall|i: int, j: int|
                #![trigger regions[i], regions[j]]
                0 <= i < j < regions.len() ==> regions[i].input_coord != regions[j].input_coord
        }),
    decreases tiles.len(),
{
    if tiles.len() > 0 {
        let pre = tiles.drop_last();
        assert(forall|k: int| 0 <= k < pre.len() ==> pre[k] == #[trigger] tiles[k]);
        lemma_sample_regions_structure(src, manifest, ob, pre);
        let prev = spec_sample_regions(src, manifest, ob, pre);
        let regions = spec_sample_regions(src, manifest, ob, tiles);
        let t = tiles.last();
        if manifest.contains(TileCoordinate3 { x: t.x, y: t.y, z: 0 }) {
            assert(regions == prev.push(spec_region_for(src, ob, t)));
            assert forall|k: int|
                0 <= k < tiles.len() && manifest.contains(
                    TileCoordinate3 { x: #[trigger] tiles[k].x, y: tiles[k].y, z: 0 },
                ) implies exists|i: int|
                0 <= i < regions.len() && #[trigger] regions[i] == spec_region_for(
                    src,
                    ob,
                    tiles[k],
                ) by {
                if k < pre.len() {
                    let i = choose|i: int|
                        0 <= i < prev.len() && prev[i] == spec_region_for(src, ob, pre[k]);
                    assert(regions[i] == spec_region_for(src, ob, tiles[k]));
                } else {
                    assert(regions[regions.len() - 1] == spec_region_for(src, ob, tiles[k]));
                }
            }
            assert forall|i: int| 0 <= i < regions.len() implies exists|k: int|
                0 <= k < tiles.len() && manifest.contains(
                    TileCoordinate3 { x: tiles[k].x, y: tiles[k].y, z: 0 },
                ) && #[trigger] regions[i] == spec_region_for(src, ob, tiles[k]) by {
                if i < prev.len() {
                    assert(regions[i] == prev[i]);
                    let k = choose|k: int|
                        0 <= k < pre.len() && manifest.contains(
                            TileCoordinate3 { x: pre[k].x, y: pre[k].y, z: 0 },
                        ) && prev[i] == spec_region_for(src, ob, pre[k]);
                    assert(tiles[k] == pre[k]);
                } else {
                    assert(regions[i] == spec_region_for(src, ob, tiles[tiles.len() - 1]));
                }
            }
            assert forall|i: int, j: int|
                #![trigger regions[i], regions[j]]
                0 <= i < j < regions.len() implies regions[i].input_coord
                != regions[j].input_coord by {
                if j < prev.len() {
                    assert(regions[i] == prev[i] && regions[j] == prev[j]);
                } else {
                    // the new region's tile is not among the earlier ones
                    assert(regions[i] == prev[i]);
                    let k = choose|k: int|
                        0 <= k < pre.len() && manifest.contains(
                            TileCoordinate3 { x: pre[k].x, y: pre[k].y, z: 0 },
                        ) && prev[i] == spec_region_for(src, ob, pre[k]);
                    assert(regions[i].input_coord == (TileCoordinate3 {
                        x: tiles[k].x,
                        y: tiles[k].y,
                        z: 0,
                    }));
                    assert(regions[j].input_coord == (TileCoordinate3 {
                        x: t.x,
                        y: t.y,
                        z: 0,
                    }));
                    assert(tiles[k] != t);
                }
            }
        } else {
            assert(regions == prev);
            assert forall|i: int| 0 <= i < regions.len() implies exists|k: int|
                0 <= k < tiles.len() && manifest.contains(
                    TileCoordinate3 { x: tiles[k].x, y: tiles[k].y, z: 0 },
                ) && #[trigger] regions[i] == spec_region_for(src, ob, tiles[k]) by {
                let k = choose|k: int|
                    0 <= k < pre.len() && manifest.contains(
                        TileCoordinate3 { x: pre[k].x, y: pre[k].y, z: 0 },
                    ) && prev[i] == spec_region_for(src, ob, pre[k]);
                assert(tiles[k] == pre[k]);
            }
            assert forall|k: int|
                0 <= k < tiles.len() && manifest.contains(
                    TileCoordinate3 { x: #[trigger] tiles[k].x, y: tiles[k].y, z: 0 },
                ) implies exists|i: int|
                0 <= i < regions.len() && #[trigger] regions[i] == spec_region_for(
                    src,
                    ob,
                    tiles[k],
                ) by {
                assert(k < pre.len());
                let i = choose|i: int|
                    0 <= i < prev.len() && prev[i] == spec_region_for(src, ob, pre[k]);
                assert(regions[i] == spec_region_for(src, ob, tiles[k]));
            }
        }
    }
}

/// The spatial join is exact.  For a source pixel `g` inside the output
/// box: if `g`'s source tile is listed in the manifest, exactly one
/// sample region of the job represents `g`; if it is not listed, none
/// does.  No pixel is duplicated and none is lost.
pub proof fn lemma_regions_exact(
    src: Tilespace,
    manifest: Seq<TileCoordinate3>,
    ob: Dabb2,
    g: Coordinate,
)
    requires
        src.wf(),
        src.offset == (Coordinate { x: 0, y: 0 }),
        ob.wf(),
        i32::MIN + src.size.x - 1 <= ob.begin.x,
        ob.end.x + src.size.x - 1 <= i32::MAX,
        i32::MIN + src.size.y - 1 <= ob.begin.y,
        ob.end.y + src.size.y - 1 <= i32::MAX,
        ob.spec_width() + src.size.x <= i32::MAX,
        ob.spec_height() + src.size.y <= i32::MAX,
        ob.spec_contains(g),
    ensures
        ({
            let regions = spec_regions_for_out(src, manifest, ob);
            let t = spec_containing_tile(src, g);
            &&& manifest.contains(TileCoordinate3 { x: t.x, y: t.y, z: 0 }) ==> exists|i: int|
                0 <= i < regions.len() && region_covers(src, #[trigger] regions[i], g)
            &&& forall|i: int, j: int|
                #![trigger regions[i], regions[j]]
                0 <= i < j < regions.len() ==> !(region_covers(src, regions[i], g)
                    && region_covers(src, regions[j], g))
            &&& !manifest.contains(TileCoordinate3 { x: t.x, y: t.y, z: 0 }) ==> forall|i: int|
                0 <= i < regions.len() ==> !region_covers(src, #[trigger] regions[i], g)
        }),
{
    let sx = src.size.x as int;
    let sy = src.size.y as int;
    let cover = src.spec_covered_tiles(ob);
    let tiles = cover.coords_seq();
    let regions = spec_regions_for_out(src, manifest, ob);
    let t = spec_containing_tile(src, g);

    // the containing tile's footprint holds g and lies under the output box
    lemma_div_i32_range(g.x as int, sx);
    lemma_div_i32_range(g.y as int, sy);
    lemma_div_i32_range(ob.begin.x as int, sx);
    lemma_div_i32_range(ob.begin.y as int, sy);
    lemma_ceil_div_i32_range(ob.end.x as int, sx);
    lemma_ceil_div_i32_range(ob.end.y as int, sy);
    vstd::arithmetic::div_mod::lemma_fundamental_div_mod(g.x as int, sx);
    vstd::arithmetic::div_mod::lemma_fundamental_div_mod(g.y as int, sy);
    vstd::arithmetic::div_mod::lemma_mod_division_less_than_divisor(g.x as int, sx);
    vstd::arithmetic::div_mod::lemma_mod_division_less_than_divisor(g.y as int, sy);
    assert(t.x * sx <= g.x < (t.x + 1) * sx) by (nonlinear_arith)
        requires
            g.x as int == sx * (g.x as int / sx) + g.x as int % sx,
            0 <= g.x as int % sx < sx,
            t.x == g.x as int / sx,
    ;
    assert(t.y * sy <= g.y < (t.y + 1) * sy) by (nonlinear_arith)
        requires
            g.y as int == sy * (g.y as int / sy) + g.y as int % sy,
            0 <= g.y as int % sy < sy,
            t.y == g.y as int / sy,
    ;
    assert(src.spec_tile_pixels(t).spec_contains(g)) by {
        assert((t.x + 1) * sx == t.x * sx + sx) by (nonlinear_arith);
        assert((t.y + 1) * sy == t.y * sy + sy) by (nonlinear_arith);
    }
    assert(cover.spec_contains(t)) by {
        vstd::arithmetic::div_mod::lemma_div_is_ordered(ob.begin.x as int, g.x as int, sx);
        vstd::arithmetic::div_mod::lemma_div_is_ordered(ob.begin.y as int, g.y as int, sy);
        vstd::arithmetic::div_mod::lemma_div_is_ordered(g.x as int, ob.end.x as int - 1, sx);
        vstd::arithmetic::div_mod::lemma_div_is_ordered(g.y as int, ob.end.y as int - 1, sy);
        vstd::arithmetic::div_mod::lemma_div_plus_one(ob.end.x as int - 1, sx);
        vstd::arithmetic::div_mod::lemma_div_plus_one(ob.end.y as int - 1, sy);
        assert(spec_ceil_div(ob.end.x as int, sx) == (ob.end.x - 1) as int / sx + 1);
        assert(spec_ceil_div(ob.end.y as int, sy) == (ob.end.y - 1) as int / sy + 1);
    }

    assert forall|k1: int, k2: int| 0 <= k1 < k2 < tiles.len() implies #[trigger] tiles[k1]
        != #[trigger] tiles[k2] by {
        crate::math::lemma_coords_seq_distinct(cover, k1, k2);
    }
    lemma_sample_regions_structure(src, manifest, ob, tiles);

    // a region covers g exactly when its tile is the containing tile
    assert forall|i: int| 0 <= i < regions.len() implies (region_covers(
        src,
        #[trigger] regions[i],
        g,
    ) <==> (regions[i].input_coord == (TileCoordinate3 { x: t.x, y: t.y, z: 0 }))) by {
        let k = choose|k: int|
            0 <= k < tiles.len() && manifest.contains(
                TileCoordinate3 { x: tiles[k].x, y: tiles[k].y, z: 0 },
            ) && regions[i] == spec_region_for(src, ob, tiles[k]);
        crate::math::lemma_coords_seq_contains(cover, k);
        lemma_region_covers_iff(src, ob, tiles[k], g);
        if src.spec_tile_pixels(tiles[k]).spec_contains(g) {
            lemma_source_tile_bounds(src, ob, tiles[k]);
            lemma_containing_tile_unique(src, tiles[k], g);
        }
        if regions[i].input_coord == (TileCoordinate3 { x: t.x, y: t.y, z: 0 }) {
            assert(tiles[k] == t);
        }
    }

    if manifest.contains(TileCoordinate3 { x: t.x, y: t.y, z: 0 }) {
        crate::math::lemma_coords_seq_at(cover, t);
        let kt = (t.y - cover.begin.y) * cover.spec_width() + (t.x - cover.begin.x);
        assert(tiles[kt] == t);
        let i = choose|i: int|
            0 <= i < regions.len() && regions[i] == spec_region_for(src, ob, tiles[kt]);
        assert(regions[i].input_coord == (TileCoordinate3 { x: t.x, y: t.y, z: 0 }));
        assert(region_covers(src, regions[i], g));
    }
}

/// For each level in `end_level ..= begin_level` and each writer tile
/// covering the requested pixel region, emit a job holding every sample
/// region of a manifest-listed source tile under that output tile's
/// footprint; output tiles with no surviving sample region produce no
/// job.
pub fn gen_jobs(
    dp: &DatasetProvider,
    dw: &DatasetWriter,
    pixel_region: Dabb2,
    begin_level: i32,
    end_level: i32,
) -> (r: Vec<Job>)
    requires
        dp.wf(),
        dw.wf(),
        0 <= end_level <= begin_level <= 30,
        forall|l: int|
            end_level <= l <= begin_level ==> #[trigger] dw.tilespace.level_fits(l),
        gen_jobs_fits(
            dp.tilespace,
            dw.tilespace,
            pixel_region,
            begin_level as int,
            end_level as int,
        ),
    ensures
        jobs_match(
            r@,
            spec_gen_jobs(
                dp.tilespace,
                dp.manifest@,
                dw.tilespace,
                pixel_region,
                end_level as int,
                begin_level as int,
            ),
        ),
{
    let mut jobs: Vec<Job> = Vec::new();
    let mut l: i32 = end_level;
    while l <= begin_level
        invariant
            dp.wf(),
            dw.wf(),
            0 <= end_level <= l <= begin_level + 1,
            begin_level <= 30,
            forall|lv: int|
                end_level <= lv <= begin_level ==> #[trigger] dw.tilespace.level_fits(lv),
            gen_jobs_fits(
                dp.tilespace,
                dw.tilespace,
                pixel_region,
                begin_level as int,
                end_level as int,
            ),
            jobs_match(
                jobs@,
                spec_gen_jobs(
                    dp.tilespace,
                    dp.manifest@,
                    dw.tilespace,
                    pixel_region,
                    end_level as int,
                    l - 1,
                ),
            ),
        decreases begin_level - l + 1,
    {
        let cover = dw.tilespace.get_covered_tiles(pixel_region);
        let ghost tiles = cover.coords_seq();
        let mut it = cover.into_iter();
        proof {
            assert(tiles.subrange(0, 0) =~= Seq::<Coordinate>::empty());
        }
        loop
            invariant
                dp.wf(),
                dw.wf(),
                0 <= end_level <= l <= begin_level <= 30,
                forall|lv: int|
                    end_level <= lv <= begin_level ==> #[trigger] dw.tilespace.level_fits(lv),
                gen_jobs_fits(
                    dp.tilespace,
                    dw.tilespace,
                    pixel_region,
                    begin_level as int,
                    end_level as int,
                ),
                it.wf(),
                it.owner == cover,
                cover == dw.tilespace.spec_covered_tiles(pixel_region),
                tiles == cover.coords_seq(),
                0 <= it.pos() <= tiles.len(),
                jobs_match(
                    jobs@,
                    spec_gen_jobs(
                        dp.tilespace,
                        dp.manifest@,
                        dw.tilespace,
                        pixel_region,
                        end_level as int,
                        l - 1,
                    ) + spec_jobs_at_level(
                        dp.tilespace,
                        dp.manifest@,
                        dw.tilespace,
                        l as int,
                        tiles.subrange(0, it.pos()),
                    ),
                ),
            ensures
                jobs_match(
                    jobs@,
                    spec_gen_jobs(
                        dp.tilespace,
                        dp.manifest@,
                        dw.tilespace,
                        pixel_region,
                        end_level as int,
                        l - 1,
                    ) + spec_jobs_at_level(
                        dp.tilespace,
                        dp.manifest@,
                        dw.tilespace,
                        l as int,
                        tiles,
                    ),
                ),
            decreases tiles.len() - it.pos(),
        {
            let ghost pos = it.pos();
            let t = match it.next() {
                Some(t) => t,
                None => {
                    proof {
                        assert(tiles.subrange(0, pos) =~= tiles);
                    }
                    break ;
                },
            };
            proof {
                lemma_iter_pos_bounds(it);
                assert(t == tiles[pos]);
                assert(level_tile_fits(dw.tilespace, dp.tilespace, l as int, t));
                lemma_pow2_pos(l as nat);
                lemma_mul_strictly_positive(dw.tilespace.size.x as int, pow2(l as nat) as int);
                lemma_mul_strictly_positive(dw.tilespace.size.y as int, pow2(l as nat) as int);
                let mx = dw.tilespace.size.x * pow2(l as nat);
                let my = dw.tilespace.size.y * pow2(l as nat);
                lemma_mul_inequality(t.x as int, t.x + 1, mx);
                lemma_mul_inequality(t.y as int, t.y + 1, my);
            }
            let output_coord = TileCoordinate3 { x: t.x, y: t.y, z: l };
            let out_pixel_region = dw.tilespace.tile_pixels_level(output_coord);
            let sample_regions = build_sample_regions(dp, out_pixel_region);
            let ghost srs = spec_regions_for_out(
                dp.tilespace,
                dp.manifest@,
                out_pixel_region,
            );
            let ghost base = spec_gen_jobs(
                dp.tilespace,
                dp.manifest@,
                dw.tilespace,
                pixel_region,
                end_level as int,
                l - 1,
            );
            let ghost prev = spec_jobs_at_level(
                dp.tilespace,
                dp.manifest@,
                dw.tilespace,
                l as int,
                tiles.subrange(0, pos),
            );
            if sample_regions.len() != 0 {
                jobs.push(Job { output_coord, sample_regions });
                proof {
                    let jv = JobView { output_coord, sample_regions: srs };
                    assert(jobs@.last()@ == jv);
                    assert((base + prev).push(jv) =~= base + prev.push(jv));
                }
            }
            proof {
                let pre = tiles.subrange(0, pos + 1);
                assert(pre.drop_last() =~= tiles.subrange(0, pos));
                assert(pre.last() == tiles[pos]);
                let now = spec_jobs_at_level(
                    dp.tilespace,
                    dp.manifest@,
                    dw.tilespace,
                    l as int,
                    pre,
                );
                if srs.len() > 0 {
                    assert(now == prev.push(JobView { output_coord, sample_regions: srs }));
                } else {
                    assert(now == prev);
                }
                assert(jobs_match(jobs@, base + now));
            }
        }
        proof {
            assert(spec_gen_jobs(
                dp.tilespace,
                dp.manifest@,
                dw.tilespace,
                pixel_region,
                end_level as int,
                l as int,
            ) == spec_gen_jobs(
                dp.tilespace,
                dp.manifest@,
                dw.tilespace,
                pixel_region,
                end_level as int,
                l - 1,
            ) + spec_jobs_at_level(
                dp.tilespace,
                dp.manifest@,
                dw.tilespace,
                l as int,
                tiles,
            ));
        }
        l = l + 1;
    }
    jobs
}

/// The source pixel a region pixel is read from: mirrored from the far
/// edge of the source tile, then shrunk by the level's downsampling
/// divisor.
pub open spec fn spec_read_coord(src_size: Coordinate, p: Coordinate, divisor: int) -> Coordinate {
    Coordinate {
        x: ((src_size.x - p.x - 1) / divisor) as i32,
        y: ((src_size.y - p.y - 1) / divisor) as i32,
    }
}

/// The output pixel a region pixel lands on: moved by the origin delta,
/// then mirrored from the far edge of the output tile.
pub open spec fn spec_dst_coord(dst_size: Coordinate, p: Coordinate, delta: Coordinate) -> Coordinate {
    Coordinate {
        x: (dst_size.x - (p.x + delta.x) - 1) as i32,
        y: (dst_size.y - (p.y + delta.y) - 1) as i32,
    }
}

/// The sample read from a packed buffer of row width `src_size.x` at `rc`.
pub open spec fn spec_sample_of(
    img: Seq<u8>,
    enc: crate::image::PixelEncoding,
    src_size: Coordinate,
    rc: Coordinate,
) -> int {
    let idx = rc.y * src_size.x + rc.x;
    crate::image::sample_val(
        img.subrange(idx * enc.spec_stride(), (idx + 1) * enc.spec_stride()),
        enc.signed,
    )
}

/// The accumulator state after transferring the listed region pixels, in
/// order: each is read at its mirrored, divisor-shrunk source position
/// and folded into its mirrored output position.
pub open spec fn spec_accumulate(
    acc: crate::sample_accumulator::AccView,
    img: Seq<u8>,
    enc: crate::image::PixelEncoding,
    src_size: Coordinate,
    dst_size: Coordinate,
    delta: Coordinate,
    divisor: int,
    pixels: Seq<Coordinate>,
) -> crate::sample_accumulator::AccView
    decreases pixels.len(),
{
    if pixels.len() == 0 {
        acc
    } else {
        let prev = spec_accumulate(
            acc,
            img,
            enc,
            src_size,
            dst_size,
            delta,
            divisor,
            pixels.drop_last(),
        );
        let p = pixels.last();
        let rc = spec_read_coord(src_size, p, divisor);
        let dc = spec_dst_coord(dst_size, p, delta);
        let s = spec_sample_of(img, enc, src_size, rc);
        crate::sample_accumulator::acc_add(prev, dc.y * dst_size.x + dc.x, s as i64)
    }
}

/// Every pixel of `region` has an in-range source position and an
/// in-range output position under the given transfer parameters.
pub open spec fn region_transfer_ok(
    region: Dabb2,
    src_size: Coordinate,
    dst_size: Coordinate,
    delta: Coordinate,
    divisor: int,
) -> bool {
    forall|p: Coordinate|
        #[trigger] region.spec_contains(p) ==> {
            &&& 0 <= p.x
            &&& 0 <= p.y
            &&& 0 <= (src_size.x - p.x - 1) / divisor < src_size.x
            &&& 0 <= (src_size.y - p.y - 1) / divisor < src_size.y
            &&& 0 <= dst_size.x - (p.x + delta.x) - 1 < dst_size.x
            &&& 0 <= dst_size.y - (p.y + delta.y) - 1 < dst_size.y
        }
}

/// Shape and headroom facts of the accumulation fold: shapes are kept,
/// the tile-wide counter grows by exactly the number of pixels, and no
/// per-pixel count grows by more.
proof fn lemma_accumulate_bounds(
    acc: crate::sample_accumulator::AccView,
    img: Seq<u8>,
    enc: crate::image::PixelEncoding,
    src_size: Coordinate,
    dst_size: Coordinate,
    delta: Coordinate,
    divisor: int,
    pixels: Seq<Coordinate>,
)
    requires
        acc.sum.len() == acc.cnt.len(),
        acc.num + pixels.len() <= u64::MAX,
        forall|i: int| 0 <= i < acc.cnt.len() ==> #[trigger] acc.cnt[i] >= 0,
        forall|i: int| 0 <= i < acc.cnt.len() ==> #[trigger] acc.cnt[i] + pixels.len() <= i64::MAX,
        forall|k: int|
            0 <= k < pixels.len() ==> {
                let dc = spec_dst_coord(dst_size, #[trigger] pixels[k], delta);
                0 <= dc.y * dst_size.x + dc.x < acc.cnt.len()
            },
    ensures
        ({
            let r = spec_accumulate(acc, img, enc, src_size, dst_size, delta, divisor, pixels);
            &&& r.size == acc.size
            &&& r.sum.len() == acc.sum.len()
            &&& r.cnt.len() == acc.cnt.len()
            &&& r.num == acc.num + pixels.len()
            &&& forall|i: int|
                0 <= i < acc.cnt.len() ==> acc.cnt[i] <= #[trigger] r.cnt[i] <= acc.cnt[i]
                    + pixels.len()
        }),
    decreases pixels.len(),
{
    if pixels.len() > 0 {
        let pre = pixels.drop_last();
        assert(forall|k: int| 0 <= k < pre.len() ==> pre[k] == #[trigger] pixels[k]);
        lemma_accumulate_bounds(acc, img, enc, src_size, dst_size, delta, divisor, pre);
        let prev = spec_accumulate(acc, img, enc, src_size, dst_size, delta, divisor, pre);
        let p = pixels.last();
        let dc = spec_dst_coord(dst_size, p, delta);
        assert(0 <= dc.y * dst_size.x + dc.x < acc.cnt.len());
    }
}

/// Transfer one sample region of a decoded source tile into the
/// accumulator: every pixel of the region is read at its mirrored,
/// divisor-shrunk source position and added at its mirrored output
/// position, in row-major order.
pub fn add_region_samples(
    dp: &DatasetProvider,
    dw: &DatasetWriter,
    output_coord: TileCoordinate3,
    region: &SampleRegion,
    image: &crate::image::ImageOwned,
    samples: &mut crate::sample_accumulator::SampleAccumulator,
)
    requires
        dp.wf(),
        dw.wf(),
        old(samples).wf(),
        old(samples).size == dw.codec.format.size,
        image.wf(),
        image.format == dp.codec.format,
        0 <= output_coord.z <= 30,
        dw.tilespace.level_fits(output_coord.z as int),
        level_tile_fits(
            dw.tilespace,
            dp.tilespace,
            output_coord.z as int,
            Coordinate { x: output_coord.x, y: output_coord.y },
        ),
        0 <= region.input_coord.z <= 30,
        dp.tilespace.level_fits(region.input_coord.z as int),
        level_tile_fits(
            dp.tilespace,
            dp.tilespace,
            region.input_coord.z as int,
            Coordinate { x: region.input_coord.x, y: region.input_coord.y },
        ),
        ({
            let ib = dp.tilespace.spec_tile_pixels_level(region.input_coord).begin;
            let ob = dw.tilespace.spec_tile_pixels_level(output_coord).begin;
            &&& i32::MIN <= ib.x - ob.x <= i32::MAX
            &&& i32::MIN <= ib.y - ob.y <= i32::MAX
            &&& region_transfer_ok(
                region.pixel_region,
                image.format.size,
                old(samples).size,
                Coordinate { x: (ib.x - ob.x) as i32, y: (ib.y - ob.y) as i32 },
                pow2(region.input_coord.z as nat) as int,
            )
        }),
        old(samples).num_samples + region.pixel_region.coords_len() <= u64::MAX,
        forall|i: int|
            0 <= i < old(samples).samples.len() ==> #[trigger] old(samples).samples[i]
                + region.pixel_region.coords_len() <= i64::MAX,
    ensures
        final(samples).wf(),
        final(samples).size == old(samples).size,
        ({
            let ib = dp.tilespace.spec_tile_pixels_level(region.input_coord).begin;
            let ob = dw.tilespace.spec_tile_pixels_level(output_coord).begin;
            final(samples)@ == spec_accumulate(
                old(samples)@,
                image.data@,
                image.format.encoding,
                image.format.size,
                old(samples).size,
                Coordinate { x: (ib.x - ob.x) as i32, y: (ib.y - ob.y) as i32 },
                pow2(region.input_coord.z as nat) as int,
                region.pixel_region.coords_seq(),
            )
        }),
{
    proof {
        lemma_pow2_pos(output_coord.z as nat);
        lemma_pow2_pos(region.input_coord.z as nat);
        let mx = dw.tilespace.size.x * pow2(output_coord.z as nat);
        let my = dw.tilespace.size.y * pow2(output_coord.z as nat);
        lemma_mul_inequality(output_coord.x as int, output_coord.x + 1, mx);
        lemma_mul_inequality(output_coord.y as int, output_coord.y + 1, my);
        lemma_mul_strictly_positive(dw.tilespace.size.x as int, pow2(output_coord.z as nat) as int);
        lemma_mul_strictly_positive(dw.tilespace.size.y as int, pow2(output_coord.z as nat) as int);
        let sx = dp.tilespace.size.x * pow2(region.input_coord.z as nat);
        let sy = dp.tilespace.size.y * pow2(region.input_coord.z as nat);
        lemma_mul_inequality(region.input_coord.x as int, region.input_coord.x + 1, sx);
        lemma_mul_inequality(region.input_coord.y as int, region.input_coord.y + 1, sy);
        lemma_mul_strictly_positive(
            dp.tilespace.size.x as int,
            pow2(region.input_coord.z as nat) as int,
        );
        lemma_mul_strictly_positive(
            dp.tilespace.size.y as int,
            pow2(region.input_coord.z as nat) as int,
        );
    }
    let output_pixel_begin = dw.tilespace.tile_pixels_level(output_coord).begin;
    let input_pixel_begin = dp.tilespace.tile_pixels_level(region.input_coord).begin;
    let delta = Coordinate {
        x: input_pixel_begin.x - output_pixel_begin.x,
        y: input_pixel_begin.y - output_pixel_begin.y,
    };
    let divisor = Tilespace::pow2_i32(region.input_coord.z);
    let ghost pixels = region.pixel_region.coords_seq();
    let ghost acc0 = samples@;
    let src_w = image.format.size.x;
    let src_h = image.format.size.y;
    let dst_w = samples.size.x;
    let dst_h = samples.size.y;
    let mut it = region.pixel_region.into_iter();
    proof {
        assert(pixels.subrange(0, 0) =~= Seq::<Coordinate>::empty());
        assert forall|k: int| 0 <= k < pixels.len() implies {
            let dck = spec_dst_coord(acc0.size, #[trigger] pixels[k], delta);
            0 <= dck.y * acc0.size.x + dck.x < acc0.cnt.len()
        } by {
            crate::math::lemma_coords_seq_contains(region.pixel_region, k);
            let pk = pixels[k];
            assert(region.pixel_region.spec_contains(pk));
            let dck = spec_dst_coord(acc0.size, pk, delta);
            let dsw = acc0.size.x as int;
            let dsh = acc0.size.y as int;
            lemma_mul_nonnegative(dck.y as int, dsw);
            assert(dck.y * dsw + dck.x < dsw * dsh) by (nonlinear_arith)
                requires
                    0 <= dck.x < dsw,
                    0 <= dck.y < dsh,
            ;
        }
    }
    loop
        invariant
            dp.wf(),
            dw.wf(),
            samples.wf(),
            samples.size == old(samples).size,
            dst_w == old(samples).size.x,
            dst_h == old(samples).size.y,
            image.wf(),
            image.format == dp.codec.format,
            src_w == image.format.size.x,
            src_h == image.format.size.y,
            image.format.encoding.valid(),
            divisor == pow2(region.input_coord.z as nat),
            divisor >= 1,
            region_transfer_ok(
                region.pixel_region,
                image.format.size,
                old(samples).size,
                delta,
                divisor as int,
            ),
            it.wf(),
            it.owner == region.pixel_region,
            pixels == region.pixel_region.coords_seq(),
            0 <= it.pos() <= pixels.len(),
            acc0 == old(samples)@,
            acc0.num + pixels.len() <= u64::MAX,
            acc0.sum.len() == acc0.cnt.len(),
            forall|i: int| 0 <= i < acc0.cnt.len() ==> #[trigger] acc0.cnt[i] >= 0,
            forall|i: int|
                0 <= i < acc0.cnt.len() ==> #[trigger] acc0.cnt[i] + pixels.len() <= i64::MAX,
            forall|k: int|
                0 <= k < pixels.len() ==> {
                    let dck = spec_dst_coord(acc0.size, #[trigger] pixels[k], delta);
                    0 <= dck.y * acc0.size.x + dck.x < acc0.cnt.len()
                },
            acc0.size == old(samples).size,
            acc0.cnt.len() == old(samples).size.x * old(samples).size.y,
            samples@ == spec_accumulate(
                acc0,
                image.data@,
                image.format.encoding,
                image.format.size,
                old(samples).size,
                delta,
                divisor as int,
                pixels.subrange(0, it.pos()),
            ),
        ensures
            samples@ == spec_accumulate(
                acc0,
                image.data@,
                image.format.encoding,
                image.format.size,
                old(samples).size,
                delta,
                divisor as int,
                pixels,
            ),
        decreases pixels.len() - it.pos(),
    {
        let ghost pos = it.pos();
        let p = match it.next() {
            Some(p) => p,
            None => {
                proof {
                    assert(pixels.subrange(0, pos) =~= pixels);
                }
                break ;
            },
        };
        proof {
            lemma_iter_pos_bounds(it);
            assert(p == pixels[pos]);
            crate::math::lemma_coords_seq_contains(region.pixel_region, pos);
            assert(region.pixel_region.spec_contains(p));
            lemma_div_i32_range(src_w - p.x - 1, divisor as int);
            lemma_div_i32_range(src_h - p.y - 1, divisor as int);
        }
        let rx = crate::math::floor_div_i32(src_w - p.x - 1, divisor);
        let ry = crate::math::floor_div_i32(src_h - p.y - 1, divisor);
        let rc = Coordinate { x: rx, y: ry };
        proof {
            let stride = image.format.encoding.spec_stride();
            let idx = rc.y * src_w as int + rc.x;
            lemma_mul_nonnegative(rc.y as int, src_w as int);
            assert(idx < src_w * src_h) by (nonlinear_arith)
                requires
                    0 <= rc.x < src_w,
                    0 <= rc.y < src_h,
                    idx == rc.y * src_w + rc.x,
            ;
            assert((idx + 1) * stride <= src_w * src_h * stride) by (nonlinear_arith)
                requires
                    idx + 1 <= src_w * src_h,
                    stride >= 1,
            ;
            assert(src_w * src_h * stride <= src_w * src_h * image.format.encoding.channels
                * stride) by (nonlinear_arith)
                requires
                    src_w * src_h >= 0,
                    stride >= 1,
                    image.format.encoding.channels >= 1,
            ;
        }
        let val = image.get_sample(rc);
        let dc = Coordinate {
            x: dst_w - (p.x + delta.x) - 1,
            y: dst_h - (p.y + delta.y) - 1,
        };
        proof {
            let sub = pixels.subrange(0, pos);
            assert(forall|k: int| 0 <= k < pos ==> sub[k] == #[trigger] pixels[k]);
            assert forall|k: int| 0 <= k < sub.len() implies {
                let dck = spec_dst_coord(old(samples).size, #[trigger] sub[k], delta);
                0 <= dck.y * old(samples).size.x + dck.x < acc0.cnt.len()
            } by {
                assert(sub[k] == pixels[k]);
                let dck = spec_dst_coord(acc0.size, pixels[k], delta);
                assert(0 <= dck.y * acc0.size.x + dck.x < acc0.cnt.len());
            }
            lemma_accumulate_bounds(
                acc0,
                image.data@,
                image.format.encoding,
                image.format.size,
                old(samples).size,
                delta,
                divisor as int,
                sub,
            );
            let prefix_acc = spec_accumulate(
                acc0,
                image.data@,
                image.format.encoding,
                image.format.size,
                old(samples).size,
                delta,
                divisor as int,
                sub,
            );
            assert(samples@ == prefix_acc);
            assert(samples.num_samples == acc0.num + pos);
            assert(0 <= dc.x < samples.size.x && 0 <= dc.y < samples.size.y);
            let idx = dc.y * samples.size.x + dc.x;
            let dck = spec_dst_coord(acc0.size, p, delta);
            assert(dck == dc);
            assert(0 <= idx < acc0.cnt.len());
            assert(samples.samples@[idx] <= acc0.cnt[idx] + pos);
            assert(acc0.cnt[idx] + pixels.len() <= i64::MAX);
            assert(samples.samples@[idx] < i64::MAX);
        }
        samples.add_sample(dc, val);
        proof {
            let pre = pixels.subrange(0, pos + 1);
            assert(pre.drop_last() =~= pixels.subrange(0, pos));
            assert(pre.last() == pixels[pos]);
            assert(rc == spec_read_coord(image.format.size, p, divisor as int));
            assert(dc == spec_dst_coord(old(samples).size, p, delta));
            assert(val == spec_sample_of(
                image.data@,
                image.format.encoding,
                image.format.size,
                rc,
            ));
        }
    }
}

} // verus!
