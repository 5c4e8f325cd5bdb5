//! Pixel encodings, raw image buffers, and the packed-byte sample codec:
//! fixed-width integer samples read from and written to little-endian
//! packed buffers, for any of the supported bit depths, signed or not.

use vstd::prelude::*;
use vstd::arithmetic::div_mod::*;
use vstd::arithmetic::mul::*;
use vstd::arithmetic::power2::*;
use crate::math::Coordinate;

verus! {

/// The container format of a dataset's tiles.
#[derive(Clone, Copy, Debug, PartialEq, Eq, Structural)]
pub enum ImageFiletype {
    Raw,
    PNG,
    TIFF,
}

/// How raw bytes decode to scalar samples.  The gamma of the stored data
/// is carried by the surrounding application configuration; the core only
/// dispatches on width and signedness.
#[derive(Clone, Copy, Debug, PartialEq, Eq, Structural)]
pub struct PixelEncoding {
    pub bit_depth: i32,
    pub channels: i32,
    pub swap_endian: bool,
    pub signed: bool,
}

impl PixelEncoding {
    /// A supported scalar width and a positive channel count.
    pub open spec fn valid(self) -> bool {
        &&& (self.bit_depth == 8 || self.bit_depth == 16 || self.bit_depth == 32
            || self.bit_depth == 64)
        &&& self.channels >= 1
    }

    /// Bytes per scalar sample.
    pub open spec fn spec_stride(self) -> int {
        self.bit_depth as int / 8
    }

    /// The encoding of SRTM elevation tiles: 16-bit signed, one channel.
    pub fn srtm() -> (r: PixelEncoding)
        ensures
            r == (PixelEncoding { bit_depth: 16, channels: 1, swap_endian: false, signed: true }),
            r.valid(),
    {
        PixelEncoding { bit_depth: 16, channels: 1, swap_endian: false, signed: true }
    }

    /// 8-bit three-channel color.
    pub fn color() -> (r: PixelEncoding)
        ensures
            r == (PixelEncoding { bit_depth: 8, channels: 3, swap_endian: false, signed: false }),
            r.valid(),
    {
        PixelEncoding { bit_depth: 8, channels: 3, swap_endian: false, signed: false }
    }
}

/// An encoding together with the pixel size of one tile.
#[derive(Clone, Copy, Debug, PartialEq, Eq, Structural)]
pub struct ImageFormat {
    pub encoding: PixelEncoding,
    pub size: Coordinate,
}

impl ImageFormat {
    /// The byte length of a raw (uncompressed) buffer of this format.
    pub open spec fn spec_raw_size(self) -> int {
        self.size.x * self.size.y * self.encoding.channels * (self.encoding.bit_depth as int / 8)
    }

    pub open spec fn valid(self) -> bool {
        &&& self.encoding.valid()
        &&& self.size.x >= 0
        &&& self.size.y >= 0
    }

    /// The byte length of a raw buffer of this format.
    pub fn raw_size(&self) -> (r: usize)
        requires
            self.valid(),
            self.spec_raw_size() <= usize::MAX,
        ensures
            r == self.spec_raw_size(),
    {
        proof {
            let xx = self.size.x as int;
            let yy = self.size.y as int;
            let cc = self.encoding.channels as int;
            let ss = self.encoding.bit_depth as int / 8;
            lemma_mul_nonnegative(xx, yy);
            lemma_mul_nonnegative(xx * yy, cc);
            lemma_mul_nonnegative(xx * yy * cc, ss);
            assert(xx * yy <= xx * yy * cc && xx * yy * cc <= xx * yy * cc * ss)
                by (nonlinear_arith)
                requires xx >= 0 && yy >= 0 && cc >= 1 && ss >= 1;
        }
        let px = self.size.x as u64 * self.size.y as u64;
        let ch = px * self.encoding.channels as u64;
        let bytes = ch * (self.encoding.bit_depth / 8) as u64;
        bytes as usize
    }
}

/// A format plus the container the tiles are stored in.
#[derive(Clone, Copy, Debug, PartialEq, Eq, Structural)]
pub struct ImageCodec {
    pub format: ImageFormat,
    pub filetype: ImageFiletype,
}

impl ImageCodec {
    /// The codec of raw SRTM elevation tiles.
    pub fn srtm() -> (r: ImageCodec)
        ensures
            r.format.encoding == (PixelEncoding {
                bit_depth: 16,
                channels: 1,
                swap_endian: false,
                signed: true,
            }),
            r.format.size == (Coordinate { x: 1201, y: 1201 }),
            r.filetype == ImageFiletype::Raw,
            r.format.valid(),
    {
        ImageCodec {
            format: ImageFormat {
                encoding: PixelEncoding::srtm(),
                size: Coordinate { x: 1201, y: 1201 },
            },
            filetype: ImageFiletype::Raw,
        }
    }
}

/// The value of a little-endian byte sequence.
pub open spec fn le_bytes_val(s: Seq<u8>) -> nat
    decreases s.len(),
{
    if s.len() == 0 {
        0
    } else {
        (s[0] + 256 * le_bytes_val(s.drop_first())) as nat
    }
}

/// The `n` little-endian bytes of `v` (modulo `2^(8n)`).
pub open spec fn le_bytes_of(v: nat, n: nat) -> Seq<u8>
    decreases n,
{
    if n == 0 {
        Seq::empty()
    } else {
        seq![(v % 256) as u8] + le_bytes_of(v / 256, (n - 1) as nat)
    }
}

/// The scalar sample a byte sequence holds: its little-endian value,
/// reinterpreted as two's complement when the encoding is signed or the
/// sample is a full 64-bit word.
pub open spec fn sample_val(s: Seq<u8>, signed: bool) -> int {
    let v = le_bytes_val(s);
    if (signed || s.len() == 8) && v >= pow2((8 * s.len() - 1) as nat) {
        v - pow2((8 * s.len()) as nat)
    } else {
        v as int
    }
}

/// A little-endian value is below `2^(8 len)`.
pub proof fn lemma_le_val_bound(s: Seq<u8>)
    ensures
        le_bytes_val(s) < pow2((8 * s.len()) as nat),
    decreases s.len(),
{
    if s.len() == 0 {
        lemma2_to64();
    } else {
        lemma_le_val_bound(s.drop_first());
        lemma_pow2_adds(8, (8 * (s.len() - 1)) as nat);
        lemma2_to64();
        let rest = le_bytes_val(s.drop_first());
        assert(256 * rest <= 256 * (pow2((8 * (s.len() - 1)) as nat) - 1)) by (nonlinear_arith)
            requires rest <= pow2((8 * (s.len() - 1)) as nat) - 1;
    }
}

/// Appending a byte adds its value at the next power-of-256 position.
pub proof fn lemma_le_val_push(s: Seq<u8>, b: u8)
    ensures
        le_bytes_val(s.push(b)) == le_bytes_val(s) + b * pow2((8 * s.len()) as nat),
    decreases s.len(),
{
    if s.len() == 0 {
        assert(s.push(b).len() == 1);
        assert(s.push(b)[0] == b);
        assert(s.push(b).drop_first() =~= Seq::<u8>::empty());
        lemma2_to64();
        lemma_mul_basics(b as int);
        assert(le_bytes_val(s.push(b).drop_first()) == 0);
        assert(le_bytes_val(s.push(b)) == b);
        assert(le_bytes_val(s) == 0);
        assert(pow2((8 * s.len()) as nat) == 1);
    } else {
        assert(s.push(b).drop_first() =~= s.drop_first().push(b));
        lemma_le_val_push(s.drop_first(), b);
        lemma_pow2_adds(8, (8 * (s.len() - 1)) as nat);
        lemma2_to64();
        let p = pow2((8 * (s.len() - 1)) as nat);
        let vd = le_bytes_val(s.drop_first());
        assert(s.push(b)[0] == s[0]);
        assert(le_bytes_val(s.push(b)) == s[0] + 256 * le_bytes_val(s.drop_first().push(b)));
        assert(le_bytes_val(s.drop_first().push(b)) == vd + b * p);
        assert(pow2((8 * s.len()) as nat) == 256 * p);
        assert(256 * (vd + b * p) == 256 * vd + b * (256 * p)) by (nonlinear_arith);
        assert(le_bytes_val(s) == s[0] + 256 * vd);
    }
}

/// `2^e` for an exponent up to 63.
pub fn pow2_u64(e: u32) -> (r: u64)
    requires
        e <= 63,
    ensures
        r == pow2(e as nat),
        r >= 1,
{
    proof {
        lemma2_to64();
        lemma2_to64_rest();
    }
    let mut m: u64 = 1;
    let mut i: u32 = 0;
    while i < e
        invariant
            0 <= i <= e <= 63,
            m == pow2(i as nat),
        decreases e - i,
    {
        proof {
            lemma_pow2_strictly_increases(i as nat, (i + 1) as nat);
            lemma_pow2_strictly_increases((i + 1) as nat, 64);
            lemma_pow2_adds(i as nat, 1);
            lemma2_to64();
            lemma2_to64_rest();
        }
        m = m * 2;
        i = i + 1;
    }
    m
}

/// Read the little-endian value of `n` bytes starting at `start`.
pub fn le_read(data: &Vec<u8>, start: usize, n: usize) -> (r: u64)
    requires
        start + n <= data.len(),
        n <= 8,
    ensures
        r == le_bytes_val(data@.subrange(start as int, start + n)),
{
    let mut acc: u64 = 0;
    let mut k: usize = 0;
    proof {
        assert(data@.subrange(start as int, start as int) =~= Seq::<u8>::empty());
        lemma2_to64();
    }
    while k < n
        invariant
            start + n <= data.len(),
            n <= 8,
            0 <= k <= n,
            acc == le_bytes_val(data@.subrange(start as int, start + k)),
            acc < pow2((8 * k) as nat),
        decreases n - k,
    {
        let mul = pow2_u64((8 * k) as u32);
        let b = data[start + k];
        proof {
            let pre = data@.subrange(start as int, start + k);
            assert(data@.subrange(start as int, start + k + 1) =~= pre.push(
                data@[start + k],
            ));
            lemma_le_val_push(pre, data@[start + k]);
            lemma_pow2_adds((8 * k) as nat, 8);
            lemma2_to64();
            assert(acc + b * pow2((8 * k) as nat) < pow2((8 * k + 8) as nat)) by (nonlinear_arith)
                requires
                    acc < pow2((8 * k) as nat),
                    b < 256,
                    pow2((8 * k + 8) as nat) == pow2((8 * k) as nat) * 256,
            ;
            if 8 * k + 8 < 64 {
                lemma_pow2_strictly_increases((8 * k + 8) as nat, 64);
            }
            lemma2_to64_rest();
            assert(pow2((8 * k + 8) as nat) <= pow2(64));
            assert(b * pow2((8 * k) as nat) <= 255 * pow2((8 * k) as nat)) by (nonlinear_arith)
                requires b <= 255;
        }
        acc = acc + b as u64 * mul;
        k = k + 1;
    }
    acc
}

/// Read the sample at byte position `mem_index`: `stride` little-endian
/// bytes, two's-complement-reinterpreted per `signed` (a full 64-bit
/// sample always wraps into `i64` range).
pub fn read_sample_at(data: &Vec<u8>, mem_index: usize, stride: usize, signed: bool) -> (r: i64)
    requires
        1 <= stride <= 8,
        mem_index + stride <= data.len(),
    ensures
        r == sample_val(data@.subrange(mem_index as int, mem_index + stride), signed),
{
    let acc = le_read(data, mem_index, stride);
    let ghost s = data@.subrange(mem_index as int, mem_index + stride);
    proof {
        lemma_le_val_bound(s);
        if stride < 8 {
            lemma_pow2_strictly_increases((8 * stride) as nat, 63);
        }
        lemma2_to64_rest();
    }
    if stride == 8 {
        proof {
            lemma2_to64_rest();
        }
        if acc >= 0x8000_0000_0000_0000u64 {
            let d = u64::MAX - acc;
            -(d as i64) - 1
        } else {
            acc as i64
        }
    } else if signed {
        let half = pow2_u64((8 * stride - 1) as u32);
        let full = pow2_u64((8 * stride) as u32);
        proof {
            lemma_pow2_strictly_increases((8 * stride) as nat, 63);
            lemma2_to64_rest();
        }
        if acc >= half {
            (acc as i64) - (full as i64)
        } else {
            acc as i64
        }
    } else {
        acc as i64
    }
}

/// The `2^64` two's complement image of an `i64` value.
pub open spec fn twos64(v: int) -> nat {
    if v < 0 {
        (v + pow2(64)) as nat
    } else {
        v as nat
    }
}

/// Append the `n` little-endian bytes of `v`.
pub fn append_le_bytes(out: &mut Vec<u8>, v: u64, n: usize)
    ensures
        final(out)@ == old(out)@ + le_bytes_of(v as nat, n as nat),
    decreases n,
{
    if n == 0 {
        proof {
            assert(old(out)@ + le_bytes_of(v as nat, 0) =~= old(out)@);
        }
    } else {
        let b = (v % 256) as u8;
        out.push(b);
        append_le_bytes(out, v / 256, n - 1);
        proof {
            assert(old(out)@.push(b) + le_bytes_of((v / 256) as nat, (n - 1) as nat) =~= old(
                out,
            )@ + le_bytes_of(v as nat, n as nat));
        }
    }
}

/// A raw image: a format and the packed bytes that realize it.
pub struct ImageOwned {
    pub format: ImageFormat,
    pub data: Vec<u8>,
}

impl ImageOwned {
    /// Bytes and format agree.
    pub open spec fn wf(self) -> bool {
        &&& self.format.valid()
        &&& self.data.len() == self.format.spec_raw_size()
    }

    /// A zero-filled image of the given format.
    pub fn empty_new(format: ImageFormat) -> (r: ImageOwned)
        requires
            format.valid(),
            format.spec_raw_size() <= usize::MAX,
        ensures
            r.format == format,
            r.wf(),
            forall|i: int| 0 <= i < r.data.len() ==> #[trigger] r.data[i] == 0,
    {
        let total = format.raw_size();
        let mut data: Vec<u8> = Vec::new();
        while data.len() < total
            invariant
                data.len() <= total,
                forall|i: int| 0 <= i < data.len() ==> #[trigger] data[i] == 0,
            decreases total - data.len(),
        {
            data.push(0u8);
        }
        ImageOwned { format, data }
    }

    /// Decode raw tile bytes: they must be exactly the declared raw size,
    /// and a wrong-sized payload is rejected.
    pub fn decode_new(decode_info: &ImageCodec, data: &Vec<u8>) -> (r: Result<ImageOwned, String>)
        requires
            decode_info.filetype == ImageFiletype::Raw,
            decode_info.format.valid(),
            decode_info.format.spec_raw_size() <= usize::MAX,
        ensures
            r is Ok <==> data.len() == decode_info.format.spec_raw_size(),
            r matches Ok(img) ==> img.format == decode_info.format && img.data@ == data@
                && img.wf(),
    {
        let expected = decode_info.format.raw_size();
        if data.len() == expected {
            let mut copy: Vec<u8> = Vec::new();
            let mut i: usize = 0;
            while i < data.len()
                invariant
                    0 <= i <= data.len(),
                    copy@ == data@.subrange(0, i as int),
                decreases data.len() - i,
            {
                copy.push(data[i]);
                proof {
                    assert(copy@ =~= data@.subrange(0, i + 1));
                }
                i = i + 1;
            }
            proof {
                assert(data@.subrange(0, data.len() as int) =~= data@);
            }
            Ok(ImageOwned { format: decode_info.format, data: copy })
        } else {
            Err(String::from_str("image incorrectly encoded"))
        }
    }

    /// The sample of the (single-channel) pixel at `px`, per the image's
    /// declared width and signedness.
    pub fn get_sample(&self, px: Coordinate) -> (r: i64)
        requires
            self.wf(),
            0 <= px.x < self.format.size.x,
            0 <= px.y < self.format.size.y,
            (px.y * self.format.size.x + px.x + 1) * self.format.encoding.spec_stride()
                <= self.data.len(),
        ensures
            r == sample_val(
                self.data@.subrange(
                    (px.y * self.format.size.x + px.x) * self.format.encoding.spec_stride(),
                    (px.y * self.format.size.x + px.x + 1) * self.format.encoding.spec_stride(),
                ),
                self.format.encoding.signed,
            ),
    {
        let w = self.format.size.x;
        proof {
            assert(px.y * w <= 0x4000_0000_0000_0000) by (nonlinear_arith)
                requires 0 <= px.y < 0x8000_0000 && 0 <= w < 0x8000_0000;
        }
        let idx: usize = (px.y as u64 * w as u64 + px.x as u64) as usize;
        let stride: usize = (self.format.encoding.bit_depth / 8) as usize;
        proof {
            let idxi = px.y * w as int + px.x;
            lemma_mul_nonnegative(px.y as int, w as int);
            lemma_mul_is_distributive_add_other_way(
                self.format.encoding.spec_stride(),
                idxi,
                1,
            );
            lemma_mul_nonnegative(idxi, self.format.encoding.spec_stride());
            assert(idxi * self.format.encoding.spec_stride() + self.format.encoding.spec_stride()
                <= self.data.len());
            assert(idxi <= idxi * self.format.encoding.spec_stride()) by (nonlinear_arith)
                requires
                    idxi >= 0,
                    self.format.encoding.spec_stride() >= 1,
            ;
        }
        let mem = idx * stride;
        read_sample_at(&self.data, mem, stride, self.format.encoding.signed)
    }
}

} // verus!
