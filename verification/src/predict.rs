use vstd::arithmetic::power2::pow2;
use vstd::prelude::*;

verus! {

/// Spatial predictors shared by both codecs.
#[derive(Clone, Copy, Debug, PartialEq, Eq, Structural)]
pub enum SpatialPredictor {
    Paeth,
    Average,
    ClampGradient,
    HalfGradient,
}

pub open spec fn abs(value: int) -> int {
    if value < 0 {
        -value
    } else {
        value
    }
}

/// PNG's Paeth predictor: the neighbour closest to `left + above - upper_left`,
/// ties resolved towards left, then above.
pub open spec fn spec_paeth(left: int, above: int, upper_left: int) -> int {
    let estimate = left + above - upper_left;
    let left_distance = abs(estimate - left);
    let above_distance = abs(estimate - above);
    let upper_left_distance = abs(estimate - upper_left);
    if left_distance <= above_distance && left_distance <= upper_left_distance {
        left
    } else if above_distance <= upper_left_distance {
        above
    } else {
        upper_left
    }
}

pub open spec fn clamp(value: int, low: int, high: int) -> int {
    if value < low {
        low
    } else if value > high {
        high
    } else {
        value
    }
}

/// Integer division rounding toward zero, as Rust's `/` on signed integers.
pub open spec fn div_toward_zero(value: int, divisor: int) -> int {
    if value >= 0 {
        value / divisor
    } else {
        -((-value) / divisor)
    }
}

/// Prediction of each spatial mode from the reconstructed neighbours, clamped to
/// `[0, max_sample]`.
pub open spec fn spec_spatial_prediction(
    mode: SpatialPredictor,
    left: int,
    above: int,
    upper_left: int,
    max_sample: int,
) -> int {
    match mode {
        SpatialPredictor::Paeth => spec_paeth(left, above, upper_left),
        SpatialPredictor::Average => (left + above) / 2,
        SpatialPredictor::ClampGradient => clamp(left + above - upper_left, 0, max_sample),
        SpatialPredictor::HalfGradient => {
            let average = (left + above) / 2;
            clamp(average + div_toward_zero(average - upper_left, 2), 0, max_sample)
        },
    }
}

pub fn paeth(left: u8, above: u8, upper_left: u8) -> (prediction: u8)
    ensures
        prediction == spec_paeth(left as int, above as int, upper_left as int),
{
    paeth_wide(left as i32, above as i32, upper_left as i32) as u8
}

pub fn paeth16(left: u16, above: u16, upper_left: u16) -> (prediction: u16)
    ensures
        prediction == spec_paeth(left as int, above as int, upper_left as int),
{
    paeth_wide(left as i32, above as i32, upper_left as i32) as u16
}

/// Paeth on signed samples, as used by the reversible transform model.
pub fn paeth_wide(left: i32, above: i32, upper_left: i32) -> (prediction: i32)
    requires
        -0x1000_0000 <= left <= 0x1000_0000,
        -0x1000_0000 <= above <= 0x1000_0000,
        -0x1000_0000 <= upper_left <= 0x1000_0000,
    ensures
        prediction == spec_paeth(left as int, above as int, upper_left as int),
        prediction == left || prediction == above || prediction == upper_left,
{
    let estimate = left + above - upper_left;
    let left_distance = abs_i32(estimate - left);
    let above_distance = abs_i32(estimate - above);
    let upper_left_distance = abs_i32(estimate - upper_left);
    if left_distance <= above_distance && left_distance <= upper_left_distance {
        left
    } else if above_distance <= upper_left_distance {
        above
    } else {
        upper_left
    }
}

fn abs_i32(value: i32) -> (r: i32)
    requires
        value > i32::MIN,
    ensures
        r == abs(value as int),
{
    if value < 0 {
        -value
    } else {
        value
    }
}

fn clamp_i32(value: i32, low: i32, high: i32) -> (r: i32)
    requires
        low <= high,
    ensures
        r == clamp(value as int, low as int, high as int),
{
    if value < low {
        low
    } else if value > high {
        high
    } else {
        value
    }
}

fn half_toward_zero(value: i32) -> (r: i32)
    requires
        value > i32::MIN,
    ensures
        r == div_toward_zero(value as int, 2),
{
    if value >= 0 {
        value / 2
    } else {
        -((-value) / 2)
    }
}

/// 8-bit spatial prediction.
pub fn spatial_prediction(mode: SpatialPredictor, left: u8, above: u8, upper_left: u8) -> (prediction: u8)
    ensures
        prediction == spec_spatial_prediction(mode, left as int, above as int, upper_left as int, 255),
{
    spatial_prediction_wide(mode, left as i32, above as i32, upper_left as i32, 255) as u8
}

/// High-bit spatial prediction; neighbours and result lie in `[0, max_sample]`.
pub fn spatial_prediction16(
    mode: SpatialPredictor,
    left: u16,
    above: u16,
    upper_left: u16,
    max_sample: u16,
) -> (prediction: u16)
    requires
        left <= max_sample && above <= max_sample && upper_left <= max_sample,
    ensures
        prediction == spec_spatial_prediction(
            mode,
            left as int,
            above as int,
            upper_left as int,
            max_sample as int,
        ),
        prediction <= max_sample,
{
    spatial_prediction_wide(mode, left as i32, above as i32, upper_left as i32, max_sample as i32)
        as u16
}

fn spatial_prediction_wide(
    mode: SpatialPredictor,
    left: i32,
    above: i32,
    upper_left: i32,
    max_sample: i32,
) -> (prediction: i32)
    requires
        0 <= left <= max_sample,
        0 <= above <= max_sample,
        0 <= upper_left <= max_sample,
        max_sample <= 65535,
    ensures
        prediction == spec_spatial_prediction(
            mode,
            left as int,
            above as int,
            upper_left as int,
            max_sample as int,
        ),
        0 <= prediction <= max_sample,
{
    match mode {
        SpatialPredictor::Paeth => paeth_wide(left, above, upper_left),
        SpatialPredictor::Average => (left + above) / 2,
        SpatialPredictor::ClampGradient => clamp_i32(left + above - upper_left, 0, max_sample),
        SpatialPredictor::HalfGradient => {
            let average = (left + above) / 2;
            clamp_i32(average + half_toward_zero(average - upper_left), 0, max_sample)
        },
    }
}

/// Uniform scalar quantizer with rounding half away from zero.
pub open spec fn spec_quantize(value: int, step: int) -> int {
    let magnitude = (abs(value) + step / 2) / step;
    if value < 0 {
        -magnitude
    } else {
        magnitude
    }
}

pub fn quantize(value: i32, step: i32) -> (quantized: i32)
    requires
        -0x2000_0000 <= value <= 0x2000_0000,
        1 <= step <= 0x2000_0000,
    ensures
        quantized == spec_quantize(value as int, step as int),
        abs(quantized as int) <= abs(value as int),
{
    let magnitude = (abs_i32(value) + step / 2) / step;
    proof {
        let a = abs(value as int);
        assert((a + step / 2) / (step as int) <= a) by (nonlinear_arith)
            requires
                a >= 0,
                step >= 1,
        ;
    }
    if value < 0 {
        -magnitude
    } else {
        magnitude
    }
}

/// The quantized residual reconstructs within half a step of the residual.
pub proof fn lemma_quantize_error(value: int, step: int)
    requires
        step >= 1,
    ensures
        abs(value - spec_quantize(value, step) * step) <= step / 2,
{
    let a = abs(value);
    let h = step / 2;
    let m = (a + h) / step;
    assert(m * step <= a + h && a + h < m * step + step) by (nonlinear_arith)
        requires
            m == (a + h) / step,
            step >= 1,
            a + h >= 0,
    ;
    if value < 0 {
        assert(spec_quantize(value, step) * step == -(m * step)) by (nonlinear_arith)
            requires
                spec_quantize(value, step) == -m,
        ;
    }
}

/// Decoding a sample whose residual was quantized lands within half a step of it:
/// the clamped reconstruction of any prediction is at most `step / 2` from the sample.
pub proof fn lemma_reconstruction_error(sample: int, prediction: int, step: int, max_sample: int)
    requires
        step >= 1,
        0 <= sample <= max_sample,
    ensures
        abs(sample - clamp(
            prediction + spec_quantize(sample - prediction, step) * step,
            0,
            max_sample,
        )) <= step / 2,
{
    lemma_quantize_error(sample - prediction, step);
}

/// Quantizer step of the high-bit codec: the 8-bit step scaled to the bit depth.
pub open spec fn spec_quantization_step16(quality: u8, bit_depth: u8) -> int {
    1 + ((100 - quality) / 5) * pow2((bit_depth - 8) as nat)
}

/// The high-bit quantizer step is one plus a whole number `b` of units of
/// `2^(bit_depth - 8)`, where `b` grows by one for every five quality points below
/// 100 (`5 b <= 100 - quality < 5 (b + 1)`): qualities 96..=100 are lossless, and
/// quality 90 at 10 bits has step 9.
pub proof fn lemma_quantization_step16_bands(quality: u8, bit_depth: u8)
    requires
        quality <= 100,
        8 <= bit_depth <= 16,
    ensures
        ({
            let unit = pow2((bit_depth - 8) as nat) as int;
            let steps = (spec_quantization_step16(quality, bit_depth) - 1) / unit;
            &&& unit >= 1
            &&& spec_quantization_step16(quality, bit_depth) - 1 == steps * unit
            &&& (spec_quantization_step16(quality, bit_depth) - 1) % unit == 0
            &&& 5 * steps <= 100 - quality < 5 * (steps + 1)
        }),
        spec_quantization_step16(quality, bit_depth) == 1 <==> 96 <= quality,
        quality == 90 && bit_depth == 10 ==> spec_quantization_step16(quality, bit_depth) == 9,
{
    let unit = pow2((bit_depth - 8) as nat) as int;
    let base = (100 - quality) / 5;
    vstd::arithmetic::power2::lemma_pow2_pos((bit_depth - 8) as nat);
    vstd::arithmetic::power2::lemma2_to64();
    assert((base * unit) / unit == base) by (nonlinear_arith)
        requires
            unit >= 1,
            base >= 0,
    ;
    assert(base * unit == 0 <==> base == 0) by (nonlinear_arith)
        requires
            unit >= 1,
            base >= 0,
    ;
    assert((base * unit) % unit == 0) by (nonlinear_arith)
        requires
            unit >= 1,
            base >= 0,
    ;
    if quality == 90 && bit_depth == 10 {
        assert((bit_depth - 8) as nat == 2);
        assert(pow2(2) == 4);
        assert(base == 2);
        assert(unit == 4);
        assert(spec_quantization_step16(quality, bit_depth) == 1 + 2 * 4);
    }
}

pub fn quantization_step16(quality: u8, bit_depth: u8) -> (step: i32)
    requires
        quality <= 100,
        8 <= bit_depth <= 16,
    ensures
        step == spec_quantization_step16(quality, bit_depth),
        1 <= step <= 1 + 20 * 256,
        (step - 1) % (pow2((bit_depth - 8) as nat) as int) == 0,
        5 * ((step - 1) / (pow2((bit_depth - 8) as nat) as int)) <= 100 - quality < 5 * ((step - 1) / (
        pow2((bit_depth - 8) as nat) as int) + 1),
{
    proof {
        lemma_quantization_step16_bands(quality, bit_depth);
    }
    let base = ((100 - quality) / 5) as i32;
    let mut scale: i32 = 1;
    let mut depth: u8 = 8;
    proof {
        vstd::arithmetic::power2::lemma2_to64();
    }
    while depth < bit_depth
        invariant
            8 <= depth <= bit_depth <= 16,
            scale == pow2((depth - 8) as nat),
            scale <= 256,
        decreases bit_depth - depth,
    {
        proof {
            vstd::arithmetic::power2::lemma_pow2_unfold((depth - 7) as nat);
            vstd::arithmetic::power2::lemma2_to64();
            if depth < 15 {
                vstd::arithmetic::power2::lemma_pow2_strictly_increases((depth - 8) as nat, 7);
            }
        }
        scale = scale * 2;
        depth = depth + 1;
    }
    proof {
        assert(base * scale <= 20 * 256) by (nonlinear_arith)
            requires
                0 <= base <= 20,
                0 <= scale <= 256,
        ;
    }
    1 + base * scale
}

/// Table of quantized residuals for every residual between two 8-bit samples.
pub struct Quantizer {
    residuals: Vec<i16>,
    step: i32,
}

impl Quantizer {
    pub closed spec fn wf(&self) -> bool {
        &&& 1 <= self.step <= 0x2000_0000
        &&& self.residuals.len() == 511
        &&& forall|i: int|
            0 <= i < 511 ==> #[trigger] self.residuals@[i] == spec_quantize(i - 255, self.step as int)
    }

    pub closed spec fn spec_step(&self) -> int {
        self.step as int
    }

    /// A well-formed quantizer's step lies in its range.
    pub proof fn lemma_bounds(&self)
        requires
            self.wf(),
        ensures
            1 <= self.spec_step() <= 0x2000_0000,
    {
    }

    pub fn new(step: i32) -> (quantizer: Quantizer)
        requires
            1 <= step <= 0x2000_0000,
        ensures
            quantizer.wf(),
            quantizer.spec_step() == step,
    {
        let mut residuals: Vec<i16> = Vec::with_capacity(511);
        let mut index: usize = 0;
        while index < 511
            invariant
                1 <= step <= 0x2000_0000,
                index <= 511,
                residuals.len() == index,
                forall|i: int|
                    0 <= i < index ==> #[trigger] residuals@[i] == spec_quantize(i - 255, step as int),
            decreases 511 - index,
        {
            let value = quantize(index as i32 - 255, step);
            residuals.push(value as i16);
            index = index + 1;
        }
        Quantizer { residuals, step }
    }

    pub fn step(&self) -> (step: i32)
        requires
            self.wf(),
        ensures
            step == self.spec_step(),
            1 <= step <= 0x2000_0000,
    {
        self.step
    }

    pub fn quantize(&self, residual: i32) -> (quantized: i32)
        requires
            self.wf(),
            -255 <= residual <= 255,
        ensures
            quantized == spec_quantize(residual as int, self.spec_step()),
            -255 <= quantized <= 255,
    {
        let quantized = self.residuals[(residual + 255) as usize] as i32;
        proof {
            assert(self.residuals@[residual + 255] == spec_quantize(residual as int, self.step as int));
            assert(abs(spec_quantize(residual as int, self.step as int)) <= abs(residual as int)) by {
                let a = abs(residual as int);
                let s = self.step as int;
                assert((a + s / 2) / s <= a) by (nonlinear_arith)
                    requires
                        a >= 0,
                        s >= 1,
                ;
            }
        }
        quantized
    }
}

/// Table of quantized residuals for every residual between two high-bit samples.
pub struct Quantizer16 {
    residuals: Vec<i32>,
    max_sample: i32,
    step: i32,
}

impl Quantizer16 {
    pub closed spec fn wf(&self) -> bool {
        &&& 1 <= self.step <= 0x2000_0000
        &&& 1 <= self.max_sample <= 65535
        &&& self.residuals.len() == 2 * self.max_sample + 1
        &&& forall|i: int|
            0 <= i < self.residuals.len() ==> #[trigger] self.residuals@[i] == spec_quantize(
                i - self.max_sample,
                self.step as int,
            )
    }

    pub closed spec fn spec_step(&self) -> int {
        self.step as int
    }

    pub closed spec fn spec_max_sample(&self) -> int {
        self.max_sample as int
    }

    pub fn new(step: i32, max_sample: u16) -> (quantizer: Quantizer16)
        requires
            1 <= step <= 0x2000_0000,
            max_sample >= 1,
        ensures
            quantizer.wf(),
            quantizer.spec_step() == step,
            quantizer.spec_max_sample() == max_sample,
    {
        let maximum = max_sample as i32;
        let count = 2 * max_sample as usize + 1;
        let mut residuals: Vec<i32> = Vec::with_capacity(count);
        let mut index: usize = 0;
        while index < count
            invariant
                1 <= step <= 0x2000_0000,
                maximum == max_sample,
                count == 2 * max_sample + 1,
                index <= count,
                residuals.len() == index,
                forall|i: int|
                    0 <= i < index ==> #[trigger] residuals@[i] == spec_quantize(i - maximum, step as int),
            decreases count - index,
        {
            residuals.push(quantize(index as i32 - maximum, step));
            index = index + 1;
        }
        Quantizer16 { residuals, max_sample: maximum, step }
    }

    /// A well-formed quantizer's step and largest sample lie in their ranges.
    pub proof fn lemma_bounds(&self)
        requires
            self.wf(),
        ensures
            1 <= self.spec_step() <= 0x2000_0000,
            1 <= self.spec_max_sample() <= 65535,
    {
    }

    pub fn table_len(&self) -> (len: usize)
        requires
            self.wf(),
        ensures
            len == 2 * self.spec_max_sample() + 1,
    {
        self.residuals.len()
    }

    pub fn step(&self) -> (step: i32)
        requires
            self.wf(),
        ensures
            step == self.spec_step(),
            1 <= step <= 0x2000_0000,
    {
        self.step
    }

    pub fn max_sample(&self) -> (maximum: i32)
        requires
            self.wf(),
        ensures
            maximum == self.spec_max_sample(),
            1 <= maximum <= 65535,
    {
        self.max_sample
    }

    pub fn quantize(&self, residual: i32) -> (quantized: i32)
        requires
            self.wf(),
            -self.spec_max_sample() <= residual <= self.spec_max_sample(),
        ensures
            quantized == spec_quantize(residual as int, self.spec_step()),
            abs(quantized as int) <= abs(residual as int),
    {
        let quantized = self.residuals[(residual + self.max_sample) as usize];
        proof {
            assert(self.residuals@[residual + self.max_sample] == spec_quantize(
                residual as int,
                self.step as int,
            ));
            let a = abs(residual as int);
            let s = self.step as int;
            assert((a + s / 2) / s <= a) by (nonlinear_arith)
                requires
                    a >= 0,
                    s >= 1,
            ;
        }
        quantized
    }
}

} // verus!
