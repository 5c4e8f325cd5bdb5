use retiler::math::Coordinate;
use retiler::math::Dabb2;
use retiler::math::TileCoordinate3;
use retiler::tilespace::Tilespace;
use retiler::tilespace::format_tile_string;

fn c(x: i32, y: i32) -> Coordinate {
    Coordinate { x, y }
}

fn space(sx: i32, sy: i32, ox: i32, oy: i32) -> Tilespace {
    Tilespace { size: c(sx, sy), offset: c(ox, oy) }
}

#[test]
fn covered_tiles_aligned_region() {
    let ts = space(256, 256, 0, 0);
    let covered = ts.get_covered_tiles(Dabb2::bounds(c(0, 0), c(1024, 512)));
    assert_eq!(covered.begin, c(0, 0));
    assert_eq!(covered.end, c(4, 2));
}

#[test]
fn covered_tiles_unaligned_region() {
    let ts = space(256, 256, 0, 0);
    let covered = ts.get_covered_tiles(Dabb2::bounds(c(10, 300), c(500, 700)));
    assert_eq!(covered.begin, c(0, 1));
    assert_eq!(covered.end, c(2, 3));
}

#[test]
fn covered_tiles_across_origin() {
    // floor-division behaviour: negative pixels land on negative tiles
    let ts = space(256, 256, 0, 0);
    let covered = ts.get_covered_tiles(Dabb2::bounds(c(-1, -256), c(1, 256)));
    assert_eq!(covered.begin, c(-1, -1));
    assert_eq!(covered.end, c(1, 1));
}

#[test]
fn covering_is_tight() {
    // the covering contains the box and shrinking any edge loses a pixel
    let ts = space(16, 16, 0, 0);
    let p = Dabb2::bounds(c(-5, 3), c(33, 17));
    let covered = ts.get_covered_tiles(p);
    let back = covered.scaled_by(ts.size);
    assert!(back.begin.x <= p.begin.x && back.begin.y <= p.begin.y);
    assert!(p.end.x <= back.end.x && p.end.y <= back.end.y);
    assert!(p.begin.x < (covered.begin.x + 1) * 16);
    assert!(p.begin.y < (covered.begin.y + 1) * 16);
    assert!((covered.end.x - 1) * 16 < p.end.x);
    assert!((covered.end.y - 1) * 16 < p.end.y);
}

#[test]
fn tile_pixels_with_offset() {
    let ts = space(100, 50, 7, -3);
    let b = ts.tile_pixels(c(2, -1));
    assert_eq!(b.begin, c(207, -53));
    assert_eq!(b.end, c(307, -3));
}

#[test]
fn tile_pixels_level_scales_by_power_of_two() {
    let ts = space(256, 256, 0, 0);
    let b = ts.tile_pixels_level(TileCoordinate3 { x: 1, y: 0, z: 2 });
    assert_eq!(b.begin, c(1024, 0));
    assert_eq!(b.end, c(2048, 1024));
    let level0 = ts.tile_pixels_level(TileCoordinate3 { x: 1, y: 0, z: 0 });
    assert_eq!(level0.begin, c(256, 0));
    assert_eq!(level0.end, c(512, 256));
}

#[test]
fn format_tile_string_substitutes_and_pads() {
    let coord = TileCoordinate3 { x: 1, y: -2, z: 30 };
    let s = format_tile_string("https://host/{x:3}_{y:3}_{z:3}.hgt", coord).unwrap();
    assert_eq!(s, "https://host/001_0-2_030.hgt");
}

#[test]
fn format_tile_string_width_zero_and_wide() {
    let coord = TileCoordinate3 { x: 12345, y: 0, z: 0 };
    assert_eq!(format_tile_string("{x:0}", coord).unwrap(), "12345");
    assert_eq!(format_tile_string("{x:2}", coord).unwrap(), "12345");
    assert_eq!(format_tile_string("{y:8}", coord).unwrap(), "00000000");
}

#[test]
fn format_tile_string_rejects_bad_placeholders() {
    let coord = TileCoordinate3 { x: 0, y: 0, z: 0 };
    assert!(format_tile_string("{q:3}", coord).is_err());
    assert!(format_tile_string("{x:zz}", coord).is_err());
    assert!(format_tile_string("{:3}", coord).is_err());
    assert!(format_tile_string("{xy:3}", coord).is_err());
}

#[test]
fn format_tile_string_keeps_unmatched_braces() {
    let coord = TileCoordinate3 { x: 4, y: 0, z: 0 };
    assert_eq!(format_tile_string("a{b}c", coord).unwrap(), "a{b}c");
    assert_eq!(format_tile_string("{x:2", coord).unwrap(), "{x:2");
    assert_eq!(format_tile_string("tail{", coord).unwrap(), "tail{");
    assert_eq!(format_tile_string("{x:2}}", coord).unwrap(), "04}");
}
