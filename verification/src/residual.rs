use crate::bits::{lemma_zigzag_round_trip, spec_unzigzag, spec_zigzag, unzigzag, zigzag};
use crate::model::CodecError;
use crate::predict::{
    Quantizer, SpatialPredictor, abs, clamp, lemma_reconstruction_error, spatial_prediction,
    spec_quantize, spec_spatial_prediction,
};
use vstd::prelude::*;

verus! {

/// Tile prediction modes as stored in the tile directory.
pub const PREDICT_SPATIAL: u8 = 0;
pub const PREDICT_TEMPORAL: u8 = 1;
pub const PREDICT_AVERAGE: u8 = 2;
pub const PREDICT_CLAMP_GRADIENT: u8 = 3;
pub const PREDICT_HALF_GRADIENT: u8 = 4;
pub const MAX_PREDICTION_MODE: u8 = 4;

/// The spatial predictor of a spatial prediction mode.
pub open spec fn spatial_mode(mode: u8) -> SpatialPredictor {
    if mode == PREDICT_AVERAGE {
        SpatialPredictor::Average
    } else if mode == PREDICT_CLAMP_GRADIENT {
        SpatialPredictor::ClampGradient
    } else if mode == PREDICT_HALF_GRADIENT {
        SpatialPredictor::HalfGradient
    } else {
        SpatialPredictor::Paeth
    }
}

pub open spec fn is_spatial_mode(mode: u8) -> bool {
    mode == PREDICT_SPATIAL || (PREDICT_AVERAGE <= mode <= PREDICT_HALF_GRADIENT)
}

pub fn spatial_predictor_from_mode(mode: u8) -> (r: Result<SpatialPredictor, CodecError>)
    ensures
        r is Ok <==> is_spatial_mode(mode),
        r matches Ok(predictor) ==> predictor == spatial_mode(mode),
        r is Err ==> r matches Err(CodecError::Malformed(_)),
{
    match mode {
        0 => Ok(SpatialPredictor::Paeth),
        2 => Ok(SpatialPredictor::Average),
        3 => Ok(SpatialPredictor::ClampGradient),
        4 => Ok(SpatialPredictor::HalfGradient),
        _ => Err(CodecError::Malformed("unknown tile prediction mode")),
    }
}

pub fn spatial_prediction_mode(predictor: SpatialPredictor) -> (mode: u8)
    ensures
        is_spatial_mode(mode),
        spatial_mode(mode) == predictor,
{
    match predictor {
        SpatialPredictor::Paeth => PREDICT_SPATIAL,
        SpatialPredictor::Average => PREDICT_AVERAGE,
        SpatialPredictor::ClampGradient => PREDICT_CLAMP_GRADIENT,
        SpatialPredictor::HalfGradient => PREDICT_HALF_GRADIENT,
    }
}

/// Prediction of sample `index` of a tile `width` samples wide from the samples
/// reconstructed before it (missing neighbours count as zero), or from the
/// co-located reference sample in temporal mode.
pub open spec fn causal_prediction(
    mode: u8,
    recon: Seq<u8>,
    index: int,
    width: int,
    reference: Seq<u8>,
) -> int {
    let x = index % width;
    let y = index / width;
    let left: int = if x > 0 {
        recon[index - 1] as int
    } else {
        0
    };
    let above: int = if y > 0 {
        recon[index - width] as int
    } else {
        0
    };
    let upper_left: int = if x > 0 && y > 0 {
        recon[index - width - 1] as int
    } else {
        0
    };
    if mode == PREDICT_TEMPORAL {
        reference[index] as int
    } else {
        spec_spatial_prediction(spatial_mode(mode), left, above, upper_left, 255)
    }
}

/// The decoder's output for the quantized residuals of one tile, in raster order.
pub open spec fn reconstruct(
    quantized: Seq<int>,
    mode: u8,
    width: int,
    step: int,
    reference: Seq<u8>,
) -> Seq<u8>
    decreases quantized.len(),
{
    if quantized.len() == 0 {
        Seq::empty()
    } else {
        let prefix = reconstruct(quantized.drop_last(), mode, width, step, reference);
        let index = quantized.len() - 1;
        prefix.push(
            clamp(
                causal_prediction(mode, prefix, index, width, reference) + quantized[index] * step,
                0,
                255,
            ) as u8,
        )
    }
}

/// The quantized residuals that the encoder emits for the samples of one tile:
/// each sample's residual from the prediction of the samples reconstructed so far.
pub open spec fn encode_residuals(
    samples: Seq<u8>,
    mode: u8,
    width: int,
    step: int,
    reference: Seq<u8>,
) -> Seq<int>
    decreases samples.len(),
{
    if samples.len() == 0 {
        Seq::empty()
    } else {
        let previous = encode_residuals(samples.drop_last(), mode, width, step, reference);
        let recon = reconstruct(previous, mode, width, step, reference);
        let index = samples.len() - 1;
        previous.push(
            spec_quantize(
                samples[index] - causal_prediction(mode, recon, index, width, reference),
                step,
            ),
        )
    }
}

/// Folded form of quantized residuals.
pub open spec fn fold_all(quantized: Seq<int>) -> Seq<u32> {
    Seq::new(quantized.len(), |i: int| spec_zigzag(quantized[i]) as u32)
}

/// Quantized residuals of folded symbols.
pub open spec fn unfold_all(folded: Seq<u32>) -> Seq<int> {
    Seq::new(folded.len(), |i: int| spec_unzigzag(folded[i] as int))
}

/// Every causal prediction is an 8-bit sample value.
pub proof fn lemma_prediction_range(
    mode: u8,
    recon: Seq<u8>,
    index: int,
    width: int,
    reference: Seq<u8>,
)
    ensures
        0 <= causal_prediction(mode, recon, index, width, reference) <= 255,
{
}

proof fn lemma_reconstruct_len(quantized: Seq<int>, mode: u8, width: int, step: int, reference: Seq<u8>)
    ensures
        reconstruct(quantized, mode, width, step, reference).len() == quantized.len(),
    decreases quantized.len(),
{
    if quantized.len() > 0 {
        lemma_reconstruct_len(quantized.drop_last(), mode, width, step, reference);
    }
}

/// The decoder's reconstruction has one sample per folded residual.
pub proof fn lemma_reconstruct_len_public(folded: Seq<u32>, mode: u8, width: int, step: int, reference: Seq<u8>)
    ensures
        reconstruct(unfold_all(folded), mode, width, step, reference).len() == folded.len(),
{
    lemma_reconstruct_len(unfold_all(folded), mode, width, step, reference);
}

/// Decoding what the encoder emits: the decoder's reconstruction of the encoder's
/// residuals has one sample per source sample, each within half a quantizer step of
/// the source sample, and every residual lies in `-255..=255`.
pub proof fn lemma_encode_reconstruct(
    samples: Seq<u8>,
    mode: u8,
    width: int,
    step: int,
    reference: Seq<u8>,
)
    requires
        step >= 1,
    ensures
        encode_residuals(samples, mode, width, step, reference).len() == samples.len(),
        reconstruct(
            encode_residuals(samples, mode, width, step, reference),
            mode,
            width,
            step,
            reference,
        ).len() == samples.len(),
        forall|i: int|
            0 <= i < samples.len() ==> abs(
                samples[i] - #[trigger] reconstruct(
                    encode_residuals(samples, mode, width, step, reference),
                    mode,
                    width,
                    step,
                    reference,
                )[i],
            ) <= step / 2,
        forall|i: int|
            0 <= i < samples.len() ==> -255 <= #[trigger] encode_residuals(
                samples,
                mode,
                width,
                step,
                reference,
            )[i] <= 255,
    decreases samples.len(),
{
    if samples.len() > 0 {
        let shorter = samples.drop_last();
        lemma_encode_reconstruct(shorter, mode, width, step, reference);
        let previous = encode_residuals(shorter, mode, width, step, reference);
        let recon = reconstruct(previous, mode, width, step, reference);
        let index = samples.len() - 1;
        let prediction = causal_prediction(mode, recon, index, width, reference);
        lemma_prediction_range(mode, recon, index, width, reference);
        let q = spec_quantize(samples[index] - prediction, step);
        let all = encode_residuals(samples, mode, width, step, reference);
        assert(all == previous.push(q));
        assert(all.drop_last() =~= previous);
        lemma_reconstruction_error(samples[index] as int, prediction, step, 255);
        lemma_quantize_magnitude(samples[index] - prediction, step);
        let whole = reconstruct(all, mode, width, step, reference);
        assert(whole == recon.push(clamp(prediction + q * step, 0, 255) as u8));
        assert forall|i: int| 0 <= i < samples.len() implies abs(samples[i] - #[trigger] whole[i])
            <= step / 2 by {
            if i < index {
                assert(whole[i] == recon[i]);
                assert(samples[i] == shorter[i]);
            }
        }
        assert forall|i: int| 0 <= i < samples.len() implies -255 <= #[trigger] all[i] <= 255 by {
            if i < index {
                assert(all[i] == previous[i]);
            }
        }
    }
}

proof fn lemma_quantize_magnitude(value: int, step: int)
    requires
        step >= 1,
        -255 <= value <= 255,
    ensures
        -255 <= spec_quantize(value, step) <= 255,
        abs(spec_quantize(value, step)) <= abs(value),
{
    let a = abs(value);
    assert((a + step / 2) / step <= a) by (nonlinear_arith)
        requires
            a >= 0,
            step >= 1,
    ;
}

/// At quality 100 (step 1) the decoder reproduces the source tile exactly.
pub proof fn lemma_lossless_round_trip(samples: Seq<u8>, mode: u8, width: int, reference: Seq<u8>)
    ensures
        reconstruct(encode_residuals(samples, mode, width, 1, reference), mode, width, 1, reference)
            == samples,
{
    lemma_encode_reconstruct(samples, mode, width, 1, reference);
    let whole = reconstruct(
        encode_residuals(samples, mode, width, 1, reference),
        mode,
        width,
        1,
        reference,
    );
    assert forall|i: int| 0 <= i < samples.len() implies whole[i] == samples[i] by {
        assert(abs(samples[i] - whole[i]) <= 0);
    }
    assert(whole =~= samples);
}

/// Sum of squared differences between a tile and its reconstruction.
pub open spec fn squared_error(samples: Seq<u8>, recon: Seq<u8>) -> int
    decreases samples.len(),
{
    if samples.len() == 0 {
        0
    } else {
        squared_error(samples.drop_last(), recon) + (samples.last() - recon[samples.len() - 1]) * (
        samples.last() - recon[samples.len() - 1])
    }
}

/// Largest absolute difference between a tile and its reconstruction.
pub open spec fn max_error(samples: Seq<u8>, recon: Seq<u8>) -> int
    decreases samples.len(),
{
    if samples.len() == 0 {
        0
    } else {
        let previous = max_error(samples.drop_last(), recon);
        let current = abs(samples.last() - recon[samples.len() - 1]);
        if current > previous {
            current
        } else {
            previous
        }
    }
}

/// Residual coding of one tile: its folded residuals, its reconstruction and the
/// reconstruction's squared and largest error.
pub struct PredictedTile {
    pub folded: Vec<u32>,
    pub reconstruction: Vec<u8>,
    pub squared_error: u64,
    pub max_error: u32,
}

/// The left, above and upper-left neighbours of sample `index` of a raster tile
/// precede it.
pub proof fn lemma_neighbours_public(index: int, width: int)
    requires
        index >= 0,
        width >= 1,
    ensures
        index / width > 0 ==> index >= width,
        index % width > 0 && index / width > 0 ==> index >= width + 1,
        index % width > 0 ==> index >= 1,
{
    lemma_neighbours(index, width);
}

/// Raster position helpers: the neighbours of sample `index` exist in the tile.
proof fn lemma_neighbours(index: int, width: int)
    requires
        index >= 0,
        width >= 1,
    ensures
        index / width > 0 ==> index >= width,
        index % width > 0 && index / width > 0 ==> index >= width + 1,
        index % width > 0 ==> index >= 1,
{
    assert(index == width * (index / width) + index % width) by (nonlinear_arith)
        requires
            width >= 1,
    ;
    assert(index / width > 0 ==> width * (index / width) >= width) by (nonlinear_arith)
        requires
            width >= 1,
    ;
}

/// Predicts, quantizes and reconstructs the samples of one tile in raster order,
/// as the encoder does.
pub fn predict_tile(
    samples: &[u8],
    width: usize,
    mode: u8,
    quantizer: &Quantizer,
    reference: &[u8],
) -> (predicted: PredictedTile)
    requires
        quantizer.wf(),
        width >= 1,
        samples.len() <= 0x4000_0000,
        mode == PREDICT_TEMPORAL || is_spatial_mode(mode),
        mode == PREDICT_TEMPORAL ==> reference.len() == samples.len(),
    ensures
        predicted.folded@ == fold_all(
            encode_residuals(samples@, mode, width as int, quantizer.spec_step(), reference@),
        ),
        predicted.reconstruction@ == reconstruct(
            encode_residuals(samples@, mode, width as int, quantizer.spec_step(), reference@),
            mode,
            width as int,
            quantizer.spec_step(),
            reference@,
        ),
        predicted.squared_error == squared_error(samples@, predicted.reconstruction@),
        predicted.max_error == max_error(samples@, predicted.reconstruction@),
        forall|i: int| 0 <= i < predicted.folded.len() ==> #[trigger] predicted.folded@[i] <= 510,
{
    let step = quantizer.step();
    let ghost spec_step = quantizer.spec_step();
    let mut folded: Vec<u32> = Vec::with_capacity(samples.len());
    let mut recon: Vec<u8> = Vec::with_capacity(samples.len());
    let mut squared: u64 = 0;
    let mut largest: u32 = 0;
    let mut index: usize = 0;
    let predictor = if mode == PREDICT_TEMPORAL {
        SpatialPredictor::Paeth
    } else {
        match spatial_predictor_from_mode(mode) {
            Ok(predictor) => predictor,
            Err(_) => SpatialPredictor::Paeth,
        }
    };
    proof {
        assert(samples@.take(0) =~= Seq::<u8>::empty());
    }
    while index < samples.len()
        invariant
            quantizer.wf(),
            step == spec_step,
            1 <= step <= 0x2000_0000,
            spec_step == quantizer.spec_step(),
            spec_step >= 1,
            width >= 1,
            samples.len() <= 0x4000_0000,
            mode == PREDICT_TEMPORAL || is_spatial_mode(mode),
            mode != PREDICT_TEMPORAL ==> predictor == spatial_mode(mode),
            mode == PREDICT_TEMPORAL ==> reference.len() == samples.len(),
            index <= samples.len(),
            folded@ == fold_all(
                encode_residuals(samples@.take(index as int), mode, width as int, spec_step, reference@),
            ),
            recon@ == reconstruct(
                encode_residuals(samples@.take(index as int), mode, width as int, spec_step, reference@),
                mode,
                width as int,
                spec_step,
                reference@,
            ),
            recon.len() == index,
            squared == squared_error(samples@.take(index as int), recon@),
            squared <= index * 65025,
            largest == max_error(samples@.take(index as int), recon@),
            largest <= 255,
            forall|i: int| 0 <= i < folded.len() ==> #[trigger] folded@[i] <= 510,
        decreases samples.len() - index,
    {
        let ghost before_samples = samples@.take(index as int);
        let ghost after_samples = samples@.take(index + 1);
        let ghost previous = encode_residuals(before_samples, mode, width as int, spec_step, reference@);
        proof {
            assert(after_samples.drop_last() =~= before_samples);
            lemma_encode_reconstruct(before_samples, mode, width as int, spec_step, reference@);
            lemma_neighbours(index as int, width as int);
        }
        let x = index % width;
        let y = index / width;
        let prediction: u8 = if mode == PREDICT_TEMPORAL {
            reference[index]
        } else {
            let left = if x > 0 {
                recon[index - 1]
            } else {
                0
            };
            let above = if y > 0 {
                recon[index - width]
            } else {
                0
            };
            let upper_left = if x > 0 && y > 0 {
                recon[index - width - 1]
            } else {
                0
            };
            spatial_prediction(predictor, left, above, upper_left)
        };
        proof {
            assert(prediction == causal_prediction(mode, recon@, index as int, width as int, reference@));
        }
        let sample = samples[index];
        let quantized = quantizer.quantize(sample as i32 - prediction as i32);
        proof {
            assert(-255 * 0x2000_0000 <= quantized * step <= 255 * 0x2000_0000) by (nonlinear_arith)
                requires
                    -255 <= quantized <= 255,
                    1 <= step <= 0x2000_0000,
            ;
        }
        let value: i64 = prediction as i64 + quantized as i64 * step as i64;
        let reconstructed: u8 = if value < 0 {
            0
        } else if value > 255 {
            255
        } else {
            value as u8
        };
        let ghost q = spec_quantize(sample - prediction, spec_step);
        proof {
            assert(quantized == q);
            assert(encode_residuals(after_samples, mode, width as int, spec_step, reference@) == previous.push(q));
            assert(previous.push(q).drop_last() =~= previous);
            assert(quantized as i64 * step as i64 == q * spec_step);
        }
        folded.push(zigzag(quantized));
        recon.push(reconstructed);
        let error: i32 = sample as i32 - reconstructed as i32;
        let magnitude: u32 = if error < 0 {
            (-error) as u32
        } else {
            error as u32
        };
        proof {
            assert(0 <= error * error <= 65025) by (nonlinear_arith)
                requires
                    -255 <= error <= 255,
            ;
        }
        proof {
            assert(index * 65025 <= 0x4000_0000 * 65025) by (nonlinear_arith)
                requires
                    index <= 0x4000_0000,
            ;
        }
        let error_squared: i32 = error * error;
        squared = squared + error_squared as u64;
        if magnitude > largest {
            largest = magnitude;
        }
        proof {
            lemma_zigzag_round_trip(q, 0);
            assert(folded@ =~= fold_all(previous.push(q)));
            assert(recon@ == reconstruct(previous.push(q), mode, width as int, spec_step, reference@));
            assert(after_samples.last() == sample);
            assert(recon@[index as int] == reconstructed);
            assert(squared_error(before_samples, recon@) == squared_error(
                before_samples,
                recon@.drop_last(),
            )) by {
                lemma_squared_error_prefix(before_samples, recon@.drop_last(), recon@);
            }
            assert(recon@.drop_last() =~= reconstruct(previous, mode, width as int, spec_step, reference@));
            assert(max_error(before_samples, recon@) == max_error(before_samples, recon@.drop_last())) by {
                lemma_max_error_prefix(before_samples, recon@.drop_last(), recon@);
            }
        }
        index = index + 1;
    }
    proof {
        assert(samples@.take(index as int) =~= samples@);
    }
    PredictedTile { folded, reconstruction: recon, squared_error: squared, max_error: largest }
}

proof fn lemma_squared_error_prefix(samples: Seq<u8>, a: Seq<u8>, b: Seq<u8>)
    requires
        samples.len() <= a.len(),
        samples.len() <= b.len(),
        forall|i: int| 0 <= i < samples.len() ==> a[i] == b[i],
    ensures
        squared_error(samples, a) == squared_error(samples, b),
    decreases samples.len(),
{
    if samples.len() > 0 {
        lemma_squared_error_prefix(samples.drop_last(), a, b);
    }
}

proof fn lemma_max_error_prefix(samples: Seq<u8>, a: Seq<u8>, b: Seq<u8>)
    requires
        samples.len() <= a.len(),
        samples.len() <= b.len(),
        forall|i: int| 0 <= i < samples.len() ==> a[i] == b[i],
    ensures
        max_error(samples, a) == max_error(samples, b),
    decreases samples.len(),
{
    if samples.len() > 0 {
        lemma_max_error_prefix(samples.drop_last(), a, b);
    }
}

/// Reconstructs one tile from its folded residuals, as the decoder does.
pub fn reconstruct_tile(
    folded: &[u32],
    width: usize,
    step: i32,
    mode: u8,
    reference: Option<&[u8]>,
) -> (r: Result<Vec<u8>, CodecError>)
    requires
        width >= 1,
        1 <= step <= 0x2000_0000,
        reference matches Some(samples) ==> samples.len() == folded.len(),
    ensures
        r matches Ok(recon) ==> recon@ == reconstruct(
            unfold_all(folded@),
            mode,
            width as int,
            step as int,
            match reference {
                Some(samples) => samples@,
                None => Seq::empty(),
            },
        ),
        r is Ok <==> (is_spatial_mode(mode) || (mode == PREDICT_TEMPORAL && reference is Some)),
        mode == PREDICT_TEMPORAL && reference is None ==> r == Err::<Vec<u8>, CodecError>(
            CodecError::InvalidInput("predicted frame requires a reference"),
        ),
        !is_spatial_mode(mode) && mode != PREDICT_TEMPORAL ==> r matches Err(CodecError::Malformed(_)),
{
    let ghost reference_seq = match reference {
        Some(samples) => samples@,
        None => Seq::<u8>::empty(),
    };
    let empty: Vec<u8> = Vec::new();
    let (temporal, reference_samples): (bool, &[u8]) = if mode == PREDICT_TEMPORAL {
        match reference {
            Some(samples) => (true, samples),
            None => {
                return Err(CodecError::InvalidInput("predicted frame requires a reference"));
            },
        }
    } else {
        (false, empty.as_slice())
    };
    let predictor = if temporal {
        SpatialPredictor::Paeth
    } else {
        spatial_predictor_from_mode(mode)?
    };
    let mut recon: Vec<u8> = Vec::with_capacity(folded.len());
    let mut index: usize = 0;
    proof {
        assert(unfold_all(folded@).take(0) =~= Seq::<int>::empty());
    }
    while index < folded.len()
        invariant
            width >= 1,
            1 <= step <= 0x2000_0000,
            temporal <==> mode == PREDICT_TEMPORAL,
            temporal ==> reference_samples@ == reference_seq && reference_samples.len() == folded.len(),
            !temporal ==> predictor == spatial_mode(mode),
            index <= folded.len(),
            recon@ == reconstruct(
                unfold_all(folded@).take(index as int),
                mode,
                width as int,
                step as int,
                reference_seq,
            ),
        decreases folded.len() - index,
    {
        let ghost quantized = unfold_all(folded@);
        proof {
            lemma_reconstruct_len(quantized.take(index as int), mode, width as int, step as int, reference_seq);
            lemma_neighbours(index as int, width as int);
            assert(quantized.take(index + 1).drop_last() =~= quantized.take(index as int));
        }
        let x = index % width;
        let y = index / width;
        let prediction: u8 = if temporal {
            reference_samples[index]
        } else {
            let left = if x > 0 {
                recon[index - 1]
            } else {
                0
            };
            let above = if y > 0 {
                recon[index - width]
            } else {
                0
            };
            let upper_left = if x > 0 && y > 0 {
                recon[index - width - 1]
            } else {
                0
            };
            spatial_prediction(predictor, left, above, upper_left)
        };
        let residual = unzigzag(folded[index]);
        proof {
            assert(-0x8000_0000 <= residual <= 0x8000_0000);
            assert(-0x8000_0000 * 0x2000_0000 <= residual * step <= 0x8000_0000 * 0x2000_0000) by (nonlinear_arith)
                requires
                    -0x8000_0000 <= residual <= 0x8000_0000,
                    1 <= step <= 0x2000_0000,
            ;
        }
        let value: i64 = prediction as i64 + residual as i64 * step as i64;
        let reconstructed: u8 = if value < 0 {
            0
        } else if value > 255 {
            255
        } else {
            value as u8
        };
        recon.push(reconstructed);
        index = index + 1;
    }
    proof {
        assert(unfold_all(folded@).take(index as int) =~= unfold_all(folded@));
    }
    Ok(recon)
}

} // verus!
