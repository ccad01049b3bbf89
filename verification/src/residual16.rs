use crate::bits::{spec_unzigzag, spec_zigzag, unzigzag, zigzag};
use crate::model::{CodecError, samples_within};
use crate::predict::{
    Quantizer16, SpatialPredictor, abs, clamp, lemma_reconstruction_error, spatial_prediction16,
    spec_quantize, spec_spatial_prediction,
};
use crate::residual::{
    PREDICT_TEMPORAL, is_spatial_mode, spatial_mode, spatial_predictor_from_mode, unfold_all,
};
use vstd::prelude::*;

verus! {

/// High-bit prediction of sample `index` from the samples reconstructed before it,
/// or from the co-located reference sample in temporal mode.
pub open spec fn causal_prediction16(
    mode: u8,
    recon: Seq<u16>,
    index: int,
    width: int,
    reference: Seq<u16>,
    max_sample: int,
) -> int {
    let x = index % width;
    let y = index / width;
    let left: int = if x > 0 {
        recon[index - 1] as int
    } else {
        0
    };
    let above: int = if y > 0 {
        recon[index - width] as int
    } else {
        0
    };
    let upper_left: int = if x > 0 && y > 0 {
        recon[index - width - 1] as int
    } else {
        0
    };
    if mode == PREDICT_TEMPORAL {
        reference[index] as int
    } else {
        spec_spatial_prediction(spatial_mode(mode), left, above, upper_left, max_sample)
    }
}

/// The high-bit decoder's output for the quantized residuals of one tile.
pub open spec fn reconstruct16(
    quantized: Seq<int>,
    mode: u8,
    width: int,
    step: int,
    reference: Seq<u16>,
    max_sample: int,
) -> Seq<u16>
    decreases quantized.len(),
{
    if quantized.len() == 0 {
        Seq::empty()
    } else {
        let prefix = reconstruct16(quantized.drop_last(), mode, width, step, reference, max_sample);
        let index = quantized.len() - 1;
        prefix.push(
            clamp(
                causal_prediction16(mode, prefix, index, width, reference, max_sample)
                    + quantized[index] * step,
                0,
                max_sample,
            ) as u16,
        )
    }
}

/// The quantized residuals that the high-bit encoder emits for one tile.
pub open spec fn encode_residuals16(
    samples: Seq<u16>,
    mode: u8,
    width: int,
    step: int,
    reference: Seq<u16>,
    max_sample: int,
) -> Seq<int>
    decreases samples.len(),
{
    if samples.len() == 0 {
        Seq::empty()
    } else {
        let previous = encode_residuals16(samples.drop_last(), mode, width, step, reference, max_sample);
        let recon = reconstruct16(previous, mode, width, step, reference, max_sample);
        let index = samples.len() - 1;
        previous.push(
            spec_quantize(
                samples[index] - causal_prediction16(mode, recon, index, width, reference, max_sample),
                step,
            ),
        )
    }
}

/// A spatially predicted tile does not read the reference: its reconstruction is
/// the same under any two references.
pub proof fn lemma_reconstruct16_spatial(
    quantized: Seq<int>,
    mode: u8,
    width: int,
    step: int,
    first: Seq<u16>,
    second: Seq<u16>,
    max_sample: int,
)
    requires
        mode != PREDICT_TEMPORAL,
    ensures
        reconstruct16(quantized, mode, width, step, first, max_sample) == reconstruct16(
            quantized,
            mode,
            width,
            step,
            second,
            max_sample,
        ),
    decreases quantized.len(),
{
    if quantized.len() > 0 {
        lemma_reconstruct16_spatial(quantized.drop_last(), mode, width, step, first, second, max_sample);
    }
}

/// A spatially predicted tile does not read the reference: the encoder emits the
/// same residuals under any two references.
pub proof fn lemma_encode_residuals16_spatial(
    samples: Seq<u16>,
    mode: u8,
    width: int,
    step: int,
    first: Seq<u16>,
    second: Seq<u16>,
    max_sample: int,
)
    requires
        mode != PREDICT_TEMPORAL,
    ensures
        encode_residuals16(samples, mode, width, step, first, max_sample) == encode_residuals16(
            samples,
            mode,
            width,
            step,
            second,
            max_sample,
        ),
    decreases samples.len(),
{
    if samples.len() > 0 {
        lemma_encode_residuals16_spatial(samples.drop_last(), mode, width, step, first, second, max_sample);
        let previous = encode_residuals16(samples.drop_last(), mode, width, step, first, max_sample);
        lemma_reconstruct16_spatial(previous, mode, width, step, first, second, max_sample);
    }
}

/// The high-bit encoder emits one residual per sample.
pub proof fn lemma_encode_residuals16_len(
    samples: Seq<u16>,
    mode: u8,
    width: int,
    step: int,
    reference: Seq<u16>,
    max_sample: int,
)
    ensures
        encode_residuals16(samples, mode, width, step, reference, max_sample).len() == samples.len(),
    decreases samples.len(),
{
    if samples.len() > 0 {
        lemma_encode_residuals16_len(samples.drop_last(), mode, width, step, reference, max_sample);
    }
}

/// Folded form of quantized residuals.
pub open spec fn fold_all16(quantized: Seq<int>) -> Seq<u32> {
    Seq::new(quantized.len(), |i: int| spec_zigzag(quantized[i]) as u32)
}

/// The high-bit decoder's reconstruction has one sample per residual.
pub proof fn lemma_reconstruct16_len(
    quantized: Seq<int>,
    mode: u8,
    width: int,
    step: int,
    reference: Seq<u16>,
    max_sample: int,
)
    ensures
        reconstruct16(quantized, mode, width, step, reference, max_sample).len() == quantized.len(),
    decreases quantized.len(),
{
    if quantized.len() > 0 {
        lemma_reconstruct16_len(quantized.drop_last(), mode, width, step, reference, max_sample);
    }
}

/// High-bit reconstruction keeps the length of its residuals and stays within the largest sample.
pub proof fn lemma_reconstruct16_facts(
    quantized: Seq<int>,
    mode: u8,
    width: int,
    step: int,
    reference: Seq<u16>,
    max_sample: int,
)
    requires
        0 <= max_sample <= 65535,
    ensures
        reconstruct16(quantized, mode, width, step, reference, max_sample).len() == quantized.len(),
        samples_within(reconstruct16(quantized, mode, width, step, reference, max_sample), max_sample),
    decreases quantized.len(),
{
    if quantized.len() > 0 {
        lemma_reconstruct16_facts(quantized.drop_last(), mode, width, step, reference, max_sample);
        let prefix = reconstruct16(quantized.drop_last(), mode, width, step, reference, max_sample);
        let whole = reconstruct16(quantized, mode, width, step, reference, max_sample);
        assert forall|i: int| 0 <= i < whole.len() implies #[trigger] whole[i] <= max_sample by {
            if i < prefix.len() {
                assert(whole[i] == prefix[i]);
            }
        }
    }
}

/// A prediction from samples within `[0, max_sample]` lies in that range.
pub proof fn lemma_prediction16_range(
    mode: u8,
    recon: Seq<u16>,
    index: int,
    width: int,
    reference: Seq<u16>,
    max_sample: int,
)
    requires
        0 <= max_sample <= 65535,
        samples_within(recon, max_sample),
        samples_within(reference, max_sample),
        0 <= index,
        width >= 1,
        index < reference.len() || mode != PREDICT_TEMPORAL,
        index <= recon.len(),
    ensures
        0 <= causal_prediction16(mode, recon, index, width, reference, max_sample) <= max_sample,
{
    crate::residual::lemma_neighbours_public(index, width);
    let x = index % width;
    let y = index / width;
    if x > 0 {
        assert(recon[index - 1] <= max_sample);
    }
    if y > 0 {
        assert(recon[index - width] <= max_sample);
    }
    if x > 0 && y > 0 {
        assert(recon[index - width - 1] <= max_sample);
    }
    if mode == PREDICT_TEMPORAL {
        assert(reference[index] <= max_sample);
    }
}

/// Decoding what the high-bit encoder emits: one reconstructed sample per source
/// sample, each within half a quantizer step of the source, with every residual in
/// `-max_sample..=max_sample`.
pub proof fn lemma_encode_reconstruct16(
    samples: Seq<u16>,
    mode: u8,
    width: int,
    step: int,
    reference: Seq<u16>,
    max_sample: int,
)
    requires
        step >= 1,
        width >= 1,
        1 <= max_sample <= 65535,
        samples_within(samples, max_sample),
        samples_within(reference, max_sample),
        mode == PREDICT_TEMPORAL ==> reference.len() >= samples.len(),
    ensures
        encode_residuals16(samples, mode, width, step, reference, max_sample).len() == samples.len(),
        reconstruct16(
            encode_residuals16(samples, mode, width, step, reference, max_sample),
            mode,
            width,
            step,
            reference,
            max_sample,
        ).len() == samples.len(),
        forall|i: int|
            0 <= i < samples.len() ==> abs(
                samples[i] - #[trigger] reconstruct16(
                    encode_residuals16(samples, mode, width, step, reference, max_sample),
                    mode,
                    width,
                    step,
                    reference,
                    max_sample,
                )[i],
            ) <= step / 2,
        forall|i: int|
            0 <= i < samples.len() ==> -max_sample <= #[trigger] encode_residuals16(
                samples,
                mode,
                width,
                step,
                reference,
                max_sample,
            )[i] <= max_sample,
    decreases samples.len(),
{
    if samples.len() > 0 {
        let shorter = samples.drop_last();
        lemma_encode_reconstruct16(shorter, mode, width, step, reference, max_sample);
        let previous = encode_residuals16(shorter, mode, width, step, reference, max_sample);
        let recon = reconstruct16(previous, mode, width, step, reference, max_sample);
        lemma_reconstruct16_facts(previous, mode, width, step, reference, max_sample);
        let index = samples.len() - 1;
        lemma_prediction16_range(mode, recon, index, width, reference, max_sample);
        let prediction = causal_prediction16(mode, recon, index, width, reference, max_sample);
        let q = spec_quantize(samples[index] - prediction, step);
        let all = encode_residuals16(samples, mode, width, step, reference, max_sample);
        assert(all == previous.push(q));
        assert(all.drop_last() =~= previous);
        lemma_reconstruction_error(samples[index] as int, prediction, step, max_sample);
        lemma_quantize_magnitude16(samples[index] - prediction, step, max_sample);
        let whole = reconstruct16(all, mode, width, step, reference, max_sample);
        assert(whole == recon.push(clamp(prediction + q * step, 0, max_sample) as u16));
        assert forall|i: int| 0 <= i < samples.len() implies abs(samples[i] - #[trigger] whole[i])
            <= step / 2 by {
            if i < index {
                assert(whole[i] == recon[i]);
                assert(samples[i] == shorter[i]);
            }
        }
        assert forall|i: int| 0 <= i < samples.len() implies -max_sample <= #[trigger] all[i]
            <= max_sample by {
            if i < index {
                assert(all[i] == previous[i]);
            }
        }
    }
}

proof fn lemma_quantize_magnitude16(value: int, step: int, max_sample: int)
    requires
        step >= 1,
        -max_sample <= value <= max_sample,
    ensures
        -max_sample <= spec_quantize(value, step) <= max_sample,
        abs(spec_quantize(value, step)) <= abs(value),
{
    let a = abs(value);
    assert((a + step / 2) / step <= a) by (nonlinear_arith)
        requires
            a >= 0,
            step >= 1,
    ;
}

/// At the finest step the high-bit decoder reproduces the source tile exactly.
pub proof fn lemma_lossless_round_trip16(
    samples: Seq<u16>,
    mode: u8,
    width: int,
    reference: Seq<u16>,
    max_sample: int,
)
    requires
        width >= 1,
        1 <= max_sample <= 65535,
        samples_within(samples, max_sample),
        samples_within(reference, max_sample),
        mode == PREDICT_TEMPORAL ==> reference.len() >= samples.len(),
    ensures
        reconstruct16(
            encode_residuals16(samples, mode, width, 1, reference, max_sample),
            mode,
            width,
            1,
            reference,
            max_sample,
        ) == samples,
{
    lemma_encode_reconstruct16(samples, mode, width, 1, reference, max_sample);
    let whole = reconstruct16(
        encode_residuals16(samples, mode, width, 1, reference, max_sample),
        mode,
        width,
        1,
        reference,
        max_sample,
    );
    assert forall|i: int| 0 <= i < samples.len() implies whole[i] == samples[i] by {
        assert(abs(samples[i] - whole[i]) <= 0);
    }
    assert(whole =~= samples);
}

/// Residual coding of one high-bit tile.
pub struct PredictedTile16 {
    pub folded: Vec<u32>,
    pub reconstruction: Vec<u16>,
    pub squared_error: u64,
    pub max_error: u32,
}

/// Sum of squared differences between a high-bit tile and its reconstruction.
pub open spec fn squared_error16(samples: Seq<u16>, recon: Seq<u16>) -> int
    decreases samples.len(),
{
    if samples.len() == 0 {
        0
    } else {
        squared_error16(samples.drop_last(), recon) + (samples.last() - recon[samples.len() - 1]) * (
        samples.last() - recon[samples.len() - 1])
    }
}

/// Largest absolute difference between a high-bit tile and its reconstruction.
pub open spec fn max_error16(samples: Seq<u16>, recon: Seq<u16>) -> int
    decreases samples.len(),
{
    if samples.len() == 0 {
        0
    } else {
        let previous = max_error16(samples.drop_last(), recon);
        let current = abs(samples.last() - recon[samples.len() - 1]);
        if current > previous {
            current
        } else {
            previous
        }
    }
}

proof fn lemma_error16_prefix(samples: Seq<u16>, a: Seq<u16>, b: Seq<u16>)
    requires
        samples.len() <= a.len(),
        samples.len() <= b.len(),
        forall|i: int| 0 <= i < samples.len() ==> a[i] == b[i],
    ensures
        squared_error16(samples, a) == squared_error16(samples, b),
        max_error16(samples, a) == max_error16(samples, b),
    decreases samples.len(),
{
    if samples.len() > 0 {
        lemma_error16_prefix(samples.drop_last(), a, b);
    }
}

/// Predicts, quantizes and reconstructs the samples of one high-bit tile in raster
/// order, as the encoder does.
pub fn predict_tile16(
    samples: &[u16],
    width: usize,
    mode: u8,
    quantizer: &Quantizer16,
    reference: &[u16],
) -> (predicted: PredictedTile16)
    requires
        quantizer.wf(),
        width >= 1,
        samples.len() <= 0x4000_0000,
        samples_within(samples@, quantizer.spec_max_sample()),
        samples_within(reference@, quantizer.spec_max_sample()),
        mode == PREDICT_TEMPORAL || is_spatial_mode(mode),
        mode == PREDICT_TEMPORAL ==> reference.len() == samples.len(),
    ensures
        predicted.folded@ == fold_all16(
            encode_residuals16(
                samples@,
                mode,
                width as int,
                quantizer.spec_step(),
                reference@,
                quantizer.spec_max_sample(),
            ),
        ),
        predicted.reconstruction@ == reconstruct16(
            encode_residuals16(
                samples@,
                mode,
                width as int,
                quantizer.spec_step(),
                reference@,
                quantizer.spec_max_sample(),
            ),
            mode,
            width as int,
            quantizer.spec_step(),
            reference@,
            quantizer.spec_max_sample(),
        ),
        predicted.squared_error == squared_error16(samples@, predicted.reconstruction@),
        predicted.max_error == max_error16(samples@, predicted.reconstruction@),
        predicted.squared_error <= samples.len() * 0xffff_ffff,
        predicted.max_error <= 65535,
        predicted.folded.len() == samples.len(),
        forall|i: int|
            0 <= i < predicted.folded.len() ==> #[trigger] predicted.folded@[i] <= 2
                * quantizer.spec_max_sample(),
{
    let step = quantizer.step();
    let maximum = quantizer.max_sample();
    let ghost spec_step = quantizer.spec_step();
    let ghost max = quantizer.spec_max_sample();
    let mut folded: Vec<u32> = Vec::with_capacity(samples.len());
    let mut recon: Vec<u16> = Vec::with_capacity(samples.len());
    let mut squared: u64 = 0;
    let mut largest: u32 = 0;
    let mut index: usize = 0;
    let predictor = if mode == PREDICT_TEMPORAL {
        SpatialPredictor::Paeth
    } else {
        match spatial_predictor_from_mode(mode) {
            Ok(predictor) => predictor,
            Err(_) => SpatialPredictor::Paeth,
        }
    };
    proof {
        assert(samples@.take(0) =~= Seq::<u16>::empty());
    }
    while index < samples.len()
        invariant
            quantizer.wf(),
            step == spec_step,
            1 <= step <= 0x2000_0000,
            spec_step == quantizer.spec_step(),
            maximum == max,
            max == quantizer.spec_max_sample(),
            1 <= max <= 65535,
            width >= 1,
            samples.len() <= 0x4000_0000,
            samples_within(samples@, max),
            samples_within(reference@, max),
            mode == PREDICT_TEMPORAL || is_spatial_mode(mode),
            mode != PREDICT_TEMPORAL ==> predictor == spatial_mode(mode),
            mode == PREDICT_TEMPORAL ==> reference.len() == samples.len(),
            index <= samples.len(),
            folded@ == fold_all16(
                encode_residuals16(samples@.take(index as int), mode, width as int, spec_step, reference@, max),
            ),
            recon@ == reconstruct16(
                encode_residuals16(samples@.take(index as int), mode, width as int, spec_step, reference@, max),
                mode,
                width as int,
                spec_step,
                reference@,
                max,
            ),
            recon.len() == index,
            squared == squared_error16(samples@.take(index as int), recon@),
            squared <= index * 0xffff_ffff,
            largest == max_error16(samples@.take(index as int), recon@),
            largest <= 65535,
            forall|i: int| 0 <= i < folded.len() ==> #[trigger] folded@[i] <= 2 * max,
        decreases samples.len() - index,
    {
        let ghost before_samples = samples@.take(index as int);
        let ghost after_samples = samples@.take(index + 1);
        let ghost previous = encode_residuals16(before_samples, mode, width as int, spec_step, reference@, max);
        proof {
            assert(after_samples.drop_last() =~= before_samples);
            assert(samples_within(before_samples, max));
            lemma_encode_reconstruct16(before_samples, mode, width as int, spec_step, reference@, max);
            lemma_reconstruct16_facts(previous, mode, width as int, spec_step, reference@, max);
            crate::residual::lemma_neighbours_public(index as int, width as int);
            lemma_prediction16_range(mode, recon@, index as int, width as int, reference@, max);
        }
        let x = index % width;
        let y = index / width;
        let prediction: u16 = if mode == PREDICT_TEMPORAL {
            reference[index]
        } else {
            let left = if x > 0 {
                recon[index - 1]
            } else {
                0
            };
            let above = if y > 0 {
                recon[index - width]
            } else {
                0
            };
            let upper_left = if x > 0 && y > 0 {
                recon[index - width - 1]
            } else {
                0
            };
            spatial_prediction16(predictor, left, above, upper_left, maximum as u16)
        };
        proof {
            assert(prediction == causal_prediction16(mode, recon@, index as int, width as int, reference@, max));
        }
        let sample = samples[index];
        let quantized = quantizer.quantize(sample as i32 - prediction as i32);
        proof {
            assert(-65535 * 0x2000_0000 <= quantized * step <= 65535 * 0x2000_0000) by (nonlinear_arith)
                requires
                    -65535 <= quantized <= 65535,
                    1 <= step <= 0x2000_0000,
            ;
        }
        let value: i64 = prediction as i64 + quantized as i64 * step as i64;
        let reconstructed: u16 = if value < 0 {
            0
        } else if value > maximum as i64 {
            maximum as u16
        } else {
            value as u16
        };
        let ghost q = spec_quantize(sample - prediction, spec_step);
        proof {
            assert(quantized == q);
            assert(encode_residuals16(after_samples, mode, width as int, spec_step, reference@, max)
                == previous.push(q));
            assert(previous.push(q).drop_last() =~= previous);
        }
        folded.push(zigzag(quantized));
        recon.push(reconstructed);
        let error: i64 = sample as i64 - reconstructed as i64;
        let magnitude: u32 = if error < 0 {
            (-error) as u32
        } else {
            error as u32
        };
        proof {
            assert(0 <= error * error <= 0xffff_ffff) by (nonlinear_arith)
                requires
                    -65535 <= error <= 65535,
            ;
            assert(index * 0xffff_ffff <= 0x4000_0000 * 0xffff_ffff) by (nonlinear_arith)
                requires
                    index <= 0x4000_0000,
            ;
        }
        let error_squared: i64 = error * error;
        squared = squared + error_squared as u64;
        if magnitude > largest {
            largest = magnitude;
        }
        proof {
            assert(folded@ =~= fold_all16(previous.push(q)));
            assert(recon@ == reconstruct16(previous.push(q), mode, width as int, spec_step, reference@, max));
            assert(after_samples.last() == sample);
            assert(recon@[index as int] == reconstructed);
            lemma_error16_prefix(before_samples, recon@.drop_last(), recon@);
            assert(recon@.drop_last() =~= reconstruct16(previous, mode, width as int, spec_step, reference@, max));
        }
        index = index + 1;
    }
    proof {
        assert(samples@.take(index as int) =~= samples@);
        lemma_encode_reconstruct16(samples@, mode, width as int, spec_step, reference@, max);
    }
    PredictedTile16 { folded, reconstruction: recon, squared_error: squared, max_error: largest }
}

/// Reconstructs one high-bit tile from its folded residuals, as the decoder does.
pub fn reconstruct_tile16(
    folded: &[u32],
    width: usize,
    step: i32,
    mode: u8,
    reference: Option<&[u16]>,
    max_sample: u16,
) -> (r: Result<Vec<u16>, CodecError>)
    requires
        width >= 1,
        1 <= step <= 0x2000_0000,
        max_sample >= 1,
        reference matches Some(samples) ==> samples.len() == folded.len() && samples_within(
            samples@,
            max_sample as int,
        ),
    ensures
        r matches Ok(recon) ==> recon@ == reconstruct16(
            unfold_all(folded@),
            mode,
            width as int,
            step as int,
            match reference {
                Some(samples) => samples@,
                None => Seq::empty(),
            },
            max_sample as int,
        ),
        r is Ok <==> (is_spatial_mode(mode) || (mode == PREDICT_TEMPORAL && reference is Some)),
        mode == PREDICT_TEMPORAL && reference is None ==> r == Err::<Vec<u16>, CodecError>(
            CodecError::InvalidInput("predicted frame requires a reference"),
        ),
{
    let ghost reference_seq = match reference {
        Some(samples) => samples@,
        None => Seq::<u16>::empty(),
    };
    let empty: Vec<u16> = Vec::new();
    let (temporal, reference_samples): (bool, &[u16]) = if mode == PREDICT_TEMPORAL {
        match reference {
            Some(samples) => (true, samples),
            None => {
                return Err(CodecError::InvalidInput("predicted frame requires a reference"));
            },
        }
    } else {
        (false, empty.as_slice())
    };
    let predictor = if temporal {
        SpatialPredictor::Paeth
    } else {
        spatial_predictor_from_mode(mode)?
    };
    let mut recon: Vec<u16> = Vec::with_capacity(folded.len());
    let mut index: usize = 0;
    proof {
        assert(unfold_all(folded@).take(0) =~= Seq::<int>::empty());
    }
    while index < folded.len()
        invariant
            width >= 1,
            1 <= step <= 0x2000_0000,
            max_sample >= 1,
            temporal <==> mode == PREDICT_TEMPORAL,
            temporal ==> reference_samples@ == reference_seq && reference_samples.len() == folded.len(),
            temporal ==> samples_within(reference_seq, max_sample as int),
            !temporal ==> predictor == spatial_mode(mode),
            index <= folded.len(),
            recon@ == reconstruct16(
                unfold_all(folded@).take(index as int),
                mode,
                width as int,
                step as int,
                reference_seq,
                max_sample as int,
            ),
        decreases folded.len() - index,
    {
        let ghost quantized = unfold_all(folded@);
        proof {
            lemma_reconstruct16_facts(quantized.take(index as int), mode, width as int, step as int, reference_seq, max_sample as int);
            crate::residual::lemma_neighbours_public(index as int, width as int);
            assert(quantized.take(index + 1).drop_last() =~= quantized.take(index as int));
        }
        let x = index % width;
        let y = index / width;
        let prediction: u16 = if temporal {
            reference_samples[index]
        } else {
            let left = if x > 0 {
                recon[index - 1]
            } else {
                0
            };
            let above = if y > 0 {
                recon[index - width]
            } else {
                0
            };
            let upper_left = if x > 0 && y > 0 {
                recon[index - width - 1]
            } else {
                0
            };
            spatial_prediction16(predictor, left, above, upper_left, max_sample)
        };
        let residual = unzigzag(folded[index]);
        proof {
            assert(-0x8000_0000 <= residual <= 0x8000_0000);
            assert(-0x8000_0000 * 0x2000_0000 <= residual * step <= 0x8000_0000 * 0x2000_0000) by (nonlinear_arith)
                requires
                    -0x8000_0000 <= residual <= 0x8000_0000,
                    1 <= step <= 0x2000_0000,
            ;
        }
        let value: i64 = prediction as i64 + residual as i64 * step as i64;
        let reconstructed: u16 = if value < 0 {
            0
        } else if value > max_sample as i64 {
            max_sample
        } else {
            value as u16
        };
        recon.push(reconstructed);
        index = index + 1;
    }
    proof {
        assert(unfold_all(folded@).take(index as int) =~= unfold_all(folded@));
    }
    Ok(recon)
}

/// Spatial prediction does not read the reference samples.
pub proof fn lemma_spatial_ignores_reference16(
    samples: Seq<u16>,
    mode: u8,
    width: int,
    step: int,
    first: Seq<u16>,
    second: Seq<u16>,
    max_sample: int,
)
    requires
        mode != PREDICT_TEMPORAL,
    ensures
        encode_residuals16(samples, mode, width, step, first, max_sample) == encode_residuals16(
            samples,
            mode,
            width,
            step,
            second,
            max_sample,
        ),
    decreases samples.len(),
{
    if samples.len() > 0 {
        lemma_spatial_ignores_reference16(samples.drop_last(), mode, width, step, first, second, max_sample);
        let previous = encode_residuals16(samples.drop_last(), mode, width, step, first, max_sample);
        lemma_reconstruct16_ignores_reference(previous, mode, width, step, first, second, max_sample);
    }
}

proof fn lemma_reconstruct16_ignores_reference(
    quantized: Seq<int>,
    mode: u8,
    width: int,
    step: int,
    first: Seq<u16>,
    second: Seq<u16>,
    max_sample: int,
)
    requires
        mode != PREDICT_TEMPORAL,
    ensures
        reconstruct16(quantized, mode, width, step, first, max_sample) == reconstruct16(
            quantized,
            mode,
            width,
            step,
            second,
            max_sample,
        ),
    decreases quantized.len(),
{
    if quantized.len() > 0 {
        lemma_reconstruct16_ignores_reference(quantized.drop_last(), mode, width, step, first, second, max_sample);
    }
}

} // verus!
