//! Per-output-tile running sum and count buffers for box-filter
//! downsampling, with an averaging resolve step over packed pixel buffers.

use vstd::prelude::*;
use vstd::arithmetic::div_mod::*;
use vstd::arithmetic::mul::*;
use vstd::arithmetic::power2::*;
use vstd::pervasive::VecAdditionalExecFns;
use vstd::wrapping::i64_specs;
use crate::math::Coordinate;
use crate::math::spec_trunc_div;
use crate::image::ImageFormat;
use crate::image::ImageOwned;
use crate::image::PixelEncoding;
use crate::image::le_bytes_of;
use crate::image::twos64;
use crate::image::pow2_u64;

verus! {

/// The mathematical state of a sample accumulator: per-pixel sums and
/// counts, and the tile-wide number of accumulated samples.
pub ghost struct AccView {
    pub size: Coordinate,
    pub sum: Seq<i64>,
    pub cnt: Seq<i64>,
    pub num: u64,
}

/// Running sums and counts for every pixel of one output tile.
pub struct SampleAccumulator {
    pub size: Coordinate,
    pub data: Vec<i64>,
    pub samples: Vec<i64>,
    pub num_samples: u64,
}

impl View for SampleAccumulator {
    type V = AccView;

    open spec fn view(&self) -> AccView {
        AccView { size: self.size, sum: self.data@, cnt: self.samples@, num: self.num_samples }
    }
}

/// The accumulator state after one sample lands on pixel index `idx`.
pub open spec fn acc_add(v: AccView, idx: int, sample: i64) -> AccView {
    AccView {
        size: v.size,
        sum: v.sum.update(idx, i64_specs::wrapping_add(v.sum[idx], sample)),
        cnt: v.cnt.update(idx, (v.cnt[idx] + 1) as i64),
        num: (v.num + 1) as u64,
    }
}

/// The accumulator state after a clear: same shape, everything zero.
pub open spec fn spec_clear(v: AccView) -> AccView {
    AccView {
        size: v.size,
        sum: Seq::new(v.sum.len(), |i: int| 0i64),
        cnt: Seq::new(v.cnt.len(), |i: int| 0i64),
        num: 0,
    }
}

/// The integer average accumulated on pixel index `i`; a pixel that no
/// sample reached resolves to 0.
pub open spec fn spec_avg(v: AccView, i: int) -> int {
    if v.cnt[i] == 0 {
        0
    } else {
        spec_trunc_div(v.sum[i] as int, v.cnt[i] as int)
    }
}

/// Whether `val` is representable in the scalar type `enc` declares.
pub open spec fn fits_encoding(val: int, enc: PixelEncoding) -> bool {
    if enc.signed {
        -pow2((enc.bit_depth - 1) as nat) <= val < pow2((enc.bit_depth - 1) as nat)
    } else {
        0 <= val < pow2(enc.bit_depth as nat)
    }
}

/// The packed bytes of the first `upto` resolved pixel averages.
pub open spec fn resolved_bytes(v: AccView, enc: PixelEncoding, upto: int) -> Seq<u8>
    decreases upto,
{
    if upto <= 0 {
        Seq::empty()
    } else {
        resolved_bytes(v, enc, upto - 1) + le_bytes_of(
            twos64(spec_avg(v, upto - 1)),
            enc.spec_stride() as nat,
        )
    }
}

/// Truncating division of an `i64` by a positive divisor, the behaviour
/// of Rust's `/` operator there.
pub fn trunc_div_i64(a: i64, d: i64) -> (r: i64)
    requires
        d > 0,
    ensures
        r == spec_trunc_div(a as int, d as int),
{
    let md = d as u64;
    if a >= 0 {
        let q = (a as u64) / md;
        proof {
            lemma_div_nonincreasing(a as int, d as int);
            lemma_div_pos_is_pos(a as int, d as int);
        }
        q as i64
    } else {
        let m: u64 = (-(a as i128)) as u64;
        let q = m / md;
        proof {
            lemma_div_nonincreasing(m as int, d as int);
            lemma_div_pos_is_pos(m as int, d as int);
        }
        (-(q as i128)) as i64
    }
}

/// The two's complement image of `v` as an unsigned 64-bit word.
pub fn twos64_of(v: i64) -> (r: u64)
    ensures
        r == twos64(v as int),
{
    proof {
        lemma2_to64_rest();
    }
    if v >= 0 {
        v as u64
    } else {
        let m: i64 = -(v + 1);
        u64::MAX - (m as u64)
    }
}

impl SampleAccumulator {
    /// Shapes agree, counts are nonnegative, and an accumulator whose
    /// tile-wide counter is zero holds only zeros.
    pub open spec fn wf(self) -> bool {
        &&& self.size.x >= 0
        &&& self.size.y >= 0
        &&& self.data.len() == self.size.x * self.size.y
        &&& self.samples.len() == self.data.len()
        &&& forall|i: int| 0 <= i < self.samples.len() ==> #[trigger] self.samples[i] >= 0
        &&& self.num_samples == 0 ==> (forall|i: int|
            0 <= i < self.data.len() ==> #[trigger] self.data[i] == 0 && self.samples[i] == 0)
    }

    /// A zeroed accumulator for one tile of `size` pixels.
    pub fn new(size: Coordinate) -> (r: SampleAccumulator)
        requires
            size.x >= 0,
            size.y >= 0,
            size.x * size.y <= usize::MAX,
        ensures
            r.wf(),
            r.size == size,
            r.num_samples == 0,
            r@.sum.len() == size.x * size.y,
    {
        proof {
            lemma_mul_nonnegative(size.x as int, size.y as int);
            assert(size.x as u64 * size.y as u64 == size.x * size.y) by (nonlinear_arith)
                requires 0 <= size.x < 0x8000_0000 && 0 <= size.y < 0x8000_0000;
        }
        let total = (size.x as u64 * size.y as u64) as usize;
        let mut data: Vec<i64> = Vec::new();
        while data.len() < total
            invariant
                data.len() <= total,
                forall|i: int| 0 <= i < data.len() ==> #[trigger] data[i] == 0,
            decreases total - data.len(),
        {
            data.push(0i64);
        }
        let mut samples: Vec<i64> = Vec::new();
        while samples.len() < total
            invariant
                samples.len() <= total,
                forall|i: int| 0 <= i < samples.len() ==> #[trigger] samples[i] == 0,
            decreases total - samples.len(),
        {
            samples.push(0i64);
        }
        SampleAccumulator { size, data, samples, num_samples: 0 }
    }

    /// The buffer index of pixel `px`, row-major.
    pub fn index_of(&self, px: Coordinate) -> (r: usize)
        requires
            self.wf(),
            0 <= px.x < self.size.x,
            0 <= px.y < self.size.y,
        ensures
            r == px.y * self.size.x + px.x,
            r < self.data.len(),
    {
        proof {
            lemma_mul_nonnegative(px.y as int, self.size.x as int);
            assert(px.y * self.size.x + px.x < self.size.x * self.size.y) by (nonlinear_arith)
                requires
                    0 <= px.x < self.size.x,
                    0 <= px.y < self.size.y,
            ;
            assert(px.y * self.size.x <= 0x4000_0000_0000_0000) by (nonlinear_arith)
                requires 0 <= px.y < 0x8000_0000 && 0 <= self.size.x < 0x8000_0000;
        }
        (px.y as u64 * self.size.x as u64 + px.x as u64) as usize
    }

    /// Fold `sample` into the pixel at `px`: the sum takes it with
    /// wrapping 64-bit addition, and both the pixel count and the
    /// tile-wide counter advance by one.
    pub fn add_sample(&mut self, px: Coordinate, sample: i64)
        requires
            old(self).wf(),
            0 <= px.x < old(self).size.x,
            0 <= px.y < old(self).size.y,
            old(self).samples[px.y * old(self).size.x + px.x] < i64::MAX,
            old(self).num_samples < u64::MAX,
        ensures
            final(self).wf(),
            final(self)@ == acc_add(old(self)@, px.y * old(self).size.x + px.x, sample),
    {
        let index = self.index_of(px);
        let new_sum = self.data[index].wrapping_add(sample);
        self.data.set(index, new_sum);
        let new_cnt = self.samples[index] + 1;
        self.samples.set(index, new_cnt);
        self.num_samples = self.num_samples + 1;
    }

    /// Reset every sum and count and the tile-wide counter; a cheap no-op
    /// when no sample has arrived since the last clear.
    pub fn clear(&mut self)
        requires
            old(self).wf(),
        ensures
            final(self).wf(),
            final(self)@ == spec_clear(old(self)@),
            final(self).num_samples == 0,
    {
        if self.num_samples != 0 {
            let mut i: usize = 0;
            while i < self.data.len()
                invariant
                    0 <= i <= self.data.len(),
                    self.data.len() == old(self).data.len(),
                    self.samples.len() == old(self).samples.len(),
                    self.size == old(self).size,
                    forall|j: int| 0 <= j < i ==> #[trigger] self.data[j] == 0,
                    forall|j: int|
                        0 <= j < self.samples.len() ==> #[trigger] self.samples[j] == old(
                            self,
                        ).samples[j],
                decreases self.data.len() - i,
            {
                self.data.set(i, 0i64);
                i = i + 1;
            }
            let mut j: usize = 0;
            while j < self.samples.len()
                invariant
                    0 <= j <= self.samples.len(),
                    self.data.len() == old(self).data.len(),
                    self.samples.len() == old(self).samples.len(),
                    self.size == old(self).size,
                    forall|k: int| 0 <= k < self.data.len() ==> #[trigger] self.data[k] == 0,
                    forall|k: int| 0 <= k < j ==> #[trigger] self.samples[k] == 0,
                decreases self.samples.len() - j,
            {
                self.samples.set(j, 0i64);
                j = j + 1;
            }
            self.num_samples = 0;
        }
        proof {
            assert(self.data@ =~= Seq::new(old(self).data@.len(), |i: int| 0i64));
            assert(self.samples@ =~= Seq::new(old(self).samples@.len(), |i: int| 0i64));
        }
    }

    /// Whether every resolved average is representable in `enc`.
    pub fn averages_fit(&self, enc: &PixelEncoding) -> (r: bool)
        requires
            self.wf(),
            enc.valid(),
        ensures
            r == forall|i: int| 0 <= i < self.data.len() ==> fits_encoding(spec_avg(self@, i), *enc),
    {
        let mut i: usize = 0;
        while i < self.data.len()
            invariant
                self.wf(),
                enc.valid(),
                0 <= i <= self.data.len(),
                forall|k: int| 0 <= k < i ==> fits_encoding(spec_avg(self@, k), *enc),
            decreases self.data.len() - i,
        {
            let cnt = self.samples[i];
            let val: i64 = if cnt == 0 {
                0i64
            } else {
                trunc_div_i64(self.data[i], cnt)
            };
            proof {
                lemma2_to64();
                lemma2_to64_rest();
            }
            let ok: bool = if enc.bit_depth == 64 {
                if enc.signed {
                    true
                } else {
                    val >= 0
                }
            } else {
                let full = pow2_u64(enc.bit_depth as u32) as i64;
                if enc.signed {
                    let half = pow2_u64((enc.bit_depth - 1) as u32) as i64;
                    -half <= val && val < half
                } else {
                    0 <= val && val < full
                }
            };
            proof {
                assert(spec_avg(self@, i as int) == val as int);
                assert(ok == fits_encoding(val as int, *enc));
            }
            if !ok {
                proof {
                    assert(!fits_encoding(spec_avg(self@, i as int), *enc));
                    assert(exists|k: int|
                        0 <= k < self.data.len() && !fits_encoding(
                            spec_avg(self@, k),
                            *enc,
                        ));
                }
                return false;
            }
            i = i + 1;
        }
        true
    }

    /// Resolve the averages into a packed pixel buffer of the given
    /// encoding: each of the tile's pixels gets `sum / count` (0 where no
    /// sample arrived) written as its little-endian two's complement
    /// scalar; buffer space past the scalar plane (extra channels) stays
    /// zero.
    pub fn resolve(&self, encoding: &PixelEncoding) -> (r: ImageOwned)
        requires
            self.wf(),
            encoding.valid(),
            (ImageFormat { encoding: *encoding, size: self.size }).spec_raw_size() <= usize::MAX,
            forall|i: int| 0 <= i < self.data.len() ==> fits_encoding(spec_avg(self@, i), *encoding),
        ensures
            r.format == (ImageFormat { encoding: *encoding, size: self.size }),
            r.wf(),
            r.data@ == resolved_bytes(self@, *encoding, self.data.len() as int) + Seq::new(
                (r.data@.len() - self.data.len() * encoding.spec_stride()) as nat,
                |i: int| 0u8,
            ),
    {
        let format = ImageFormat { encoding: *encoding, size: self.size };
        let total = format.raw_size();
        let stride: usize = (encoding.bit_depth / 8) as usize;
        proof {
            let a = self.size.x * self.size.y;
            assert(a * encoding.spec_stride() <= format.spec_raw_size()) by (nonlinear_arith)
                requires
                    a >= 0,
                    encoding.spec_stride() >= 1,
                    encoding.channels >= 1,
                    format.spec_raw_size() == a * encoding.channels * encoding.spec_stride(),
            ;
            lemma_mul_nonnegative(a, encoding.spec_stride());
        }
        let mut out: Vec<u8> = Vec::new();
        let mut i: usize = 0;
        while i < self.data.len()
            invariant
                self.wf(),
                encoding.valid(),
                forall|k: int|
                    0 <= k < self.data.len() ==> fits_encoding(spec_avg(self@, k), *encoding),
                0 <= i <= self.data.len(),
                stride == encoding.spec_stride(),
                self.data.len() * stride <= total <= usize::MAX,
                out@ == resolved_bytes(self@, *encoding, i as int),
                out@.len() == i * stride,
            decreases self.data.len() - i,
        {
            proof {
                lemma_mul_inequality(i + 1, self.data.len() as int, stride as int);
                lemma_mul_is_distributive_add_other_way(stride as int, i as int, 1);
            }
            let cnt = self.samples[i];
            let val: i64 = if cnt == 0 {
                0i64
            } else {
                trunc_div_i64(self.data[i], cnt)
            };
            let u = twos64_of(val);
            crate::image::append_le_bytes(&mut out, u, stride);
            proof {
                assert(le_bytes_of(twos64(val as int), stride as nat).len() == stride) by {
                    lemma_le_bytes_of_len(twos64(val as int), stride as nat);
                }
            }
            i = i + 1;
        }
        while out.len() < total
            invariant
                out@.subrange(0, (self.data.len() * stride) as int) == resolved_bytes(
                    self@,
                    *encoding,
                    self.data.len() as int,
                ),
                self.data.len() * stride <= out@.len() <= total,
                forall|k: int|
                    self.data.len() * stride <= k < out@.len() ==> #[trigger] out@[k] == 0,
            decreases total - out.len(),
        {
            out.push(0u8);
            proof {
                assert(out@.subrange(0, (self.data.len() * stride) as int) =~= out@.subrange(
                    0,
                    out@.len() - 1,
                ).subrange(0, (self.data.len() * stride) as int));
            }
        }
        proof {
            assert(out@ =~= resolved_bytes(self@, *encoding, self.data.len() as int) + Seq::new(
                (out@.len() - self.data.len() * encoding.spec_stride()) as nat,
                |i: int| 0u8,
            ));
        }
        ImageOwned { format, data: out }
    }
}

impl SampleAccumulator {
    /// Resolve after checking that every average is representable in the
    /// encoding; `None` when one is not.
    pub fn resolve_checked(&self, encoding: &PixelEncoding) -> (r: Option<ImageOwned>)
        requires
            self.wf(),
            encoding.valid(),
            (ImageFormat { encoding: *encoding, size: self.size }).spec_raw_size() <= usize::MAX,
        ensures
            r is Some <==> forall|i: int|
                0 <= i < self.data.len() ==> fits_encoding(spec_avg(self@, i), *encoding),
            r matches Some(img) ==> {
                &&& img.format == (ImageFormat { encoding: *encoding, size: self.size })
                &&& img.wf()
                &&& img.data@ == resolved_bytes(self@, *encoding, self.data.len() as int)
                    + Seq::new(
                    (img.data@.len() - self.data.len() * encoding.spec_stride()) as nat,
                    |i: int| 0u8,
                )
            },
    {
        if self.averages_fit(encoding) {
            Some(self.resolve(encoding))
        } else {
            None
        }
    }
}

/// Each pixel contributes exactly `stride` bytes.
pub proof fn lemma_le_bytes_of_len(v: nat, n: nat)
    ensures
        le_bytes_of(v, n).len() == n,
    decreases n,
{
    if n > 0 {
        lemma_le_bytes_of_len(v / 256, (n - 1) as nat);
    }
}

/// Clearing twice is the same as clearing once.
pub proof fn lemma_clear_idempotent(v: AccView)
    ensures
        spec_clear(spec_clear(v)) == spec_clear(v),
{
    assert(spec_clear(spec_clear(v)).sum =~= spec_clear(v).sum);
    assert(spec_clear(spec_clear(v)).cnt =~= spec_clear(v).cnt);
}

} // verus!
