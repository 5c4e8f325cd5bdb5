use retiler::math::Coordinate;
use retiler::image::PixelEncoding;
use retiler::sample_accumulator::SampleAccumulator;

fn c(x: i32, y: i32) -> Coordinate {
    Coordinate { x, y }
}

fn u8_encoding() -> PixelEncoding {
    PixelEncoding { bit_depth: 8, channels: 1, swap_endian: false, signed: false }
}

#[test]
fn average_round_trip() {
    // two samples on one pixel of a 2x2 tile resolve to their average
    let mut acc = SampleAccumulator::new(c(2, 2));
    acc.add_sample(c(0, 0), 10);
    acc.add_sample(c(0, 0), 20);
    let img = acc.resolve(&u8_encoding());
    assert_eq!(img.data, vec![15, 0, 0, 0]);
}

#[test]
fn unsampled_pixels_resolve_to_zero() {
    let mut acc = SampleAccumulator::new(c(2, 2));
    acc.add_sample(c(1, 1), 77);
    let img = acc.resolve(&u8_encoding());
    assert_eq!(img.data, vec![0, 0, 0, 77]);
}

#[test]
fn integer_average_truncates() {
    let mut acc = SampleAccumulator::new(c(1, 1));
    acc.add_sample(c(0, 0), 10);
    acc.add_sample(c(0, 0), 21);
    let img = acc.resolve(&u8_encoding());
    assert_eq!(img.data, vec![15]);
}

#[test]
fn resolve_writes_signed_little_endian() {
    let enc = PixelEncoding { bit_depth: 16, channels: 1, swap_endian: false, signed: true };
    let mut acc = SampleAccumulator::new(c(2, 1));
    acc.add_sample(c(0, 0), -2);
    acc.add_sample(c(1, 0), 513);
    let img = acc.resolve(&enc);
    assert_eq!(img.data, vec![0xfe, 0xff, 0x01, 0x02]);
}

#[test]
fn resolve_checked_rejects_out_of_range_average() {
    let mut acc = SampleAccumulator::new(c(1, 1));
    acc.add_sample(c(0, 0), 300);
    assert!(acc.resolve_checked(&u8_encoding()).is_none());
    let mut neg = SampleAccumulator::new(c(1, 1));
    neg.add_sample(c(0, 0), -1);
    assert!(neg.resolve_checked(&u8_encoding()).is_none());
    let mut ok = SampleAccumulator::new(c(1, 1));
    ok.add_sample(c(0, 0), 255);
    assert!(ok.resolve_checked(&u8_encoding()).is_some());
}

#[test]
fn clear_twice_equals_clear_once() {
    let mut acc = SampleAccumulator::new(c(2, 2));
    acc.add_sample(c(0, 1), 5);
    acc.add_sample(c(1, 0), -3);
    acc.clear();
    let data_once = acc.data.clone();
    let samples_once = acc.samples.clone();
    let num_once = acc.num_samples;
    acc.clear();
    assert_eq!(acc.data, data_once);
    assert_eq!(acc.samples, samples_once);
    assert_eq!(acc.num_samples, num_once);
    assert_eq!(acc.num_samples, 0);
    assert_eq!(acc.data, vec![0, 0, 0, 0]);
    assert_eq!(acc.samples, vec![0, 0, 0, 0]);
}

#[test]
fn index_of_is_row_major() {
    let acc = SampleAccumulator::new(c(4, 3));
    assert_eq!(acc.index_of(c(0, 0)), 0);
    assert_eq!(acc.index_of(c(3, 0)), 3);
    assert_eq!(acc.index_of(c(0, 1)), 4);
    assert_eq!(acc.index_of(c(2, 2)), 10);
}
