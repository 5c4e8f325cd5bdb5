use retiler::config::DatasetProvider;
use retiler::config::ProbeResult;
use retiler::dataset_writer::DatasetWriter;
use retiler::image::ImageCodec;
use retiler::image::ImageFiletype;
use retiler::image::ImageFormat;
use retiler::image::PixelEncoding;
use retiler::math::Coordinate;
use retiler::math::Dabb2;
use retiler::math::TileCoordinate3;
use retiler::retiling::add_region_samples;
use retiler::retiling::gen_jobs;
use retiler::sample_accumulator::SampleAccumulator;
use retiler::tilespace::TileURIProvider;

fn srtm_like_codec(width: i32, height: i32) -> ImageCodec {
    ImageCodec {
        format: ImageFormat {
            encoding: PixelEncoding { bit_depth: 16, channels: 1, swap_endian: false, signed: true },
            size: Coordinate { x: width, y: height },
        },
        filetype: ImageFiletype::Raw,
    }
}

#[test]
fn identity_retile_is_byte_exact() {
    // one 2x2 source tile, and a writer asking for the identical grid:
    // the resolved output must be byte-identical to the source pixels
    let manifest = vec![TileCoordinate3 { x: 0, y: 0, z: 0 }];
    let mut dp =
        DatasetProvider::create("s/{x:3}_{y:3}_{z:3}.raw", srtm_like_codec(2, 2), manifest)
            .unwrap();
    let dw = DatasetWriter::create("o/{x:3}_{y:3}_{z:3}.raw", srtm_like_codec(2, 2), ImageFiletype::Raw)
        .unwrap();

    let region = Dabb2::bounds(Coordinate { x: 0, y: 0 }, Coordinate { x: 2, y: 2 });
    let jobs = gen_jobs(&dp, &dw, region, 0, 0);
    assert_eq!(jobs.len(), 1);
    let job = &jobs[0];
    assert_eq!(job.sample_regions.len(), 1);

    // little-endian 16-bit samples 1, -2, 300, 4
    let source_bytes: Vec<u8> = vec![0x01, 0x00, 0xfe, 0xff, 0x2c, 0x01, 0x04, 0x00];

    // fetch on miss, then install the decoded bytes
    let coord = job.sample_regions[0].input_coord;
    match dp.cache_probe(coord) {
        ProbeResult::Missing(uri) => {
            assert_eq!(uri, "s/000_000_000.raw");
        },
        _ => panic!("fresh tile should need a fetch"),
    }
    dp.store_fetched(coord, &source_bytes).unwrap();

    let image = dp.access_cached_resource(coord).expect("tile just stored");
    assert_eq!(image.data, source_bytes);

    let mut samples = SampleAccumulator::new(dw.codec.format.size);
    add_region_samples(&dp, &dw, job.output_coord, &job.sample_regions[0], &image, &mut samples);
    assert_eq!(samples.num_samples, 4);

    let resolved = samples.resolve_checked(&dw.codec.format.encoding).expect("averages fit");
    assert_eq!(resolved.data, source_bytes);

    let out_uri = dw.get_resource_uri(job.output_coord);
    assert_eq!(out_uri, "o/000_000_000.raw");
}

#[test]
fn wrong_sized_fetch_is_rejected() {
    let manifest = vec![TileCoordinate3 { x: 0, y: 0, z: 0 }];
    let mut dp =
        DatasetProvider::create("s/{x:3}_{y:3}_{z:3}.raw", srtm_like_codec(2, 2), manifest)
            .unwrap();
    let coord = TileCoordinate3 { x: 0, y: 0, z: 0 };
    assert!(dp.store_fetched(coord, &vec![1, 2, 3]).is_err());
    assert!(dp.access_cached_resource(coord).is_none());
}

#[test]
fn probe_skips_tiles_outside_manifest() {
    let mut dp = DatasetProvider::create("s/{x:3}_{y:3}_{z:3}.raw", srtm_like_codec(2, 2), vec![])
        .unwrap();
    match dp.cache_probe(TileCoordinate3 { x: 5, y: 5, z: 0 }) {
        ProbeResult::NotNeeded => {},
        _ => panic!("tile outside the manifest needs no fetch"),
    }
}

#[test]
fn downsampling_averages_source_pixels() {
    // a 2x2 source tile feeding a 1x1 writer tile: all four samples land
    // on the single output pixel and resolve to their average
    let manifest = vec![TileCoordinate3 { x: 0, y: 0, z: 0 }];
    let mut dp =
        DatasetProvider::create("s/{x:1}{y:1}{z:1}", srtm_like_codec(2, 2), manifest).unwrap();
    let dw = DatasetWriter::create("o/{x:1}{y:1}{z:1}", srtm_like_codec(1, 1), ImageFiletype::Raw)
        .unwrap();
    let region = Dabb2::bounds(Coordinate { x: 0, y: 0 }, Coordinate { x: 2, y: 2 });
    let jobs = gen_jobs(&dp, &dw, region, 0, 0);
    // four 1x1 output tiles, each backed by one source pixel
    assert_eq!(jobs.len(), 4);

    let source_bytes: Vec<u8> = vec![10, 0, 20, 0, 30, 0, 40, 0];
    let coord = TileCoordinate3 { x: 0, y: 0, z: 0 };
    dp.cache_probe(coord);
    dp.store_fetched(coord, &source_bytes).unwrap();
    let image = dp.access_cached_resource(coord).unwrap();

    let mut samples = SampleAccumulator::new(dw.codec.format.size);
    // the first job's single region holds source pixel (0,0) mirrored
    let job = &jobs[0];
    assert_eq!(job.sample_regions[0].pixel_region.area(), 1);
    add_region_samples(&dp, &dw, job.output_coord, &job.sample_regions[0], &image, &mut samples);
    assert_eq!(samples.num_samples, 1);
    let resolved = samples.resolve_checked(&dw.codec.format.encoding).unwrap();
    // output tile (0,0) reads the mirrored source pixel (1,1): sample 40
    assert_eq!(resolved.data, vec![40, 0]);
}
