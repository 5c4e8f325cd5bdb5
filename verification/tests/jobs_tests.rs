use retiler::config::DatasetProvider;
use retiler::dataset_writer::DatasetWriter;
use retiler::image::ImageCodec;
use retiler::image::ImageFiletype;
use retiler::image::ImageFormat;
use retiler::image::PixelEncoding;
use retiler::math::Coordinate;
use retiler::math::Dabb2;
use retiler::math::TileCoordinate3;
use retiler::retiling::gen_jobs;

fn c(x: i32, y: i32) -> Coordinate {
    Coordinate { x, y }
}

fn raw_codec(width: i32, height: i32) -> ImageCodec {
    ImageCodec {
        format: ImageFormat {
            encoding: PixelEncoding { bit_depth: 8, channels: 1, swap_endian: false, signed: false },
            size: c(width, height),
        },
        filetype: ImageFiletype::Raw,
    }
}

#[test]
fn spatial_join_one_level() {
    // source: two 512x512 tiles side by side; writer: 256x256 tiles
    let manifest = vec![
        TileCoordinate3 { x: 0, y: 0, z: 0 },
        TileCoordinate3 { x: 1, y: 0, z: 0 },
    ];
    let dp = DatasetProvider::create("s/{x:3}_{y:3}_{z:3}.raw", raw_codec(512, 512), manifest)
        .unwrap();
    let dw = DatasetWriter::create("o/{x:3}_{y:3}_{z:3}.raw", raw_codec(256, 256), ImageFiletype::Raw)
        .unwrap();

    let region = Dabb2::bounds(c(0, 0), c(1024, 512));
    let jobs = gen_jobs(&dp, &dw, region, 0, 0);

    // 4 columns by 2 rows of writer tiles, all backed by the two source tiles
    assert_eq!(jobs.len(), 8);
    let mut area_sum: usize = 0;
    for (k, job) in jobs.iter().enumerate() {
        let tx = (k % 4) as i32;
        let ty = (k / 4) as i32;
        assert_eq!(job.output_coord, TileCoordinate3 { x: tx, y: ty, z: 0 });
        // every writer tile lies inside exactly one source tile
        assert_eq!(job.sample_regions.len(), 1);
        let region = &job.sample_regions[0];
        assert_eq!(region.input_coord, TileCoordinate3 { x: tx / 2, y: 0, z: 0 });
        let local_x = (tx % 2) * 256;
        let local_y = ty * 256;
        assert_eq!(region.pixel_region.begin, c(local_x, local_y));
        assert_eq!(region.pixel_region.end, c(local_x + 256, local_y + 256));
        area_sum += region.pixel_region.area();
    }
    // the regions cover exactly the requested pixels
    assert_eq!(area_sum, region.area());
}

#[test]
fn cropped_region_at_source_boundary() {
    // a single 300x300 source tile under 256x256 writer tiles: the second
    // column's region is cropped at the source edge
    let manifest = vec![TileCoordinate3 { x: 0, y: 0, z: 0 }];
    let dp = DatasetProvider::create("s/{x:1}{y:1}{z:1}", raw_codec(300, 300), manifest).unwrap();
    let dw = DatasetWriter::create("o/{x:1}{y:1}{z:1}", raw_codec(256, 256), ImageFiletype::Raw)
        .unwrap();
    let jobs = gen_jobs(&dp, &dw, Dabb2::bounds(c(0, 0), c(300, 256)), 0, 0);
    assert_eq!(jobs.len(), 2);
    assert_eq!(jobs[0].sample_regions.len(), 1);
    assert_eq!(jobs[0].sample_regions[0].pixel_region.begin, c(0, 0));
    assert_eq!(jobs[0].sample_regions[0].pixel_region.end, c(256, 256));
    assert_eq!(jobs[1].sample_regions.len(), 1);
    assert_eq!(jobs[1].sample_regions[0].pixel_region.begin, c(256, 0));
    assert_eq!(jobs[1].sample_regions[0].pixel_region.end, c(300, 256));
}

#[test]
fn tiles_without_sources_are_dropped() {
    // the manifest has no tile under the second half of the region
    let manifest = vec![TileCoordinate3 { x: 0, y: 0, z: 0 }];
    let dp = DatasetProvider::create("s/{x:1}{y:1}{z:1}", raw_codec(256, 256), manifest).unwrap();
    let dw = DatasetWriter::create("o/{x:1}{y:1}{z:1}", raw_codec(256, 256), ImageFiletype::Raw)
        .unwrap();
    let jobs = gen_jobs(&dp, &dw, Dabb2::bounds(c(0, 0), c(1024, 256)), 0, 0);
    assert_eq!(jobs.len(), 1);
    assert_eq!(jobs[0].output_coord, TileCoordinate3 { x: 0, y: 0, z: 0 });
}

#[test]
fn level_range_emits_finest_first() {
    let manifest = vec![TileCoordinate3 { x: 0, y: 0, z: 0 }];
    let dp = DatasetProvider::create("s/{x:1}{y:1}{z:1}", raw_codec(64, 64), manifest).unwrap();
    let dw = DatasetWriter::create("o/{x:1}{y:1}{z:1}", raw_codec(64, 64), ImageFiletype::Raw)
        .unwrap();
    let jobs = gen_jobs(&dp, &dw, Dabb2::bounds(c(0, 0), c(64, 64)), 1, 0);
    assert_eq!(jobs.len(), 2);
    assert_eq!(jobs[0].output_coord.z, 0);
    assert_eq!(jobs[1].output_coord.z, 1);
    // the level-1 tile covers 128x128 level-0 pixels but only the single
    // 64x64 source tile contributes
    assert_eq!(jobs[1].sample_regions.len(), 1);
    assert_eq!(jobs[1].sample_regions[0].pixel_region.begin, c(0, 0));
    assert_eq!(jobs[1].sample_regions[0].pixel_region.end, c(64, 64));
}

#[test]
fn invalid_template_fails_provider_construction() {
    let err = DatasetProvider::create("s/{x:1}{q:1}", raw_codec(64, 64), vec![]);
    assert!(err.is_err());
    let err2 = DatasetWriter::create("o/{x:1}{y:bad}", raw_codec(64, 64), ImageFiletype::Raw);
    assert!(err2.is_err());
}
