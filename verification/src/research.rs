use crate::bits::{spec_zigzag, zigzag};
use crate::predict::{quantize, spec_quantize};
use vstd::arithmetic::power2::pow2;
use vstd::prelude::*;

verus! {

// ---------------------------------------------------------------------------
// Reversible average/difference pair of the subband ("squeeze") model
// ---------------------------------------------------------------------------

/// `floor(value / 2)`.
pub open spec fn floor_half(value: int) -> int {
    if value >= 0 {
        value / 2
    } else {
        -((-value + 1) / 2)
    }
}

/// Integer division by two rounding toward zero.
pub open spec fn trunc_half(value: int) -> int {
    if value >= 0 {
        value / 2
    } else {
        -((-value) / 2)
    }
}

/// Samples of the squeeze model: all high-bit samples and their differences.
pub open spec fn pair_domain(value: int) -> bool {
    -0x1000_0000 <= value <= 0x1000_0000
}

/// Forward step: the average rounded toward the larger sample, and the difference.
pub open spec fn spec_forward_pair(first: int, second: int) -> (int, int) {
    (floor_half(first + second + if first > second {
        1int
    } else {
        0int
    }), first - second)
}

/// Inverse step.
pub open spec fn spec_inverse_pair(average: int, detail: int) -> (int, int) {
    let first = average + trunc_half(detail);
    (first, first - detail)
}

fn floor_half_i32(value: i32) -> (r: i32)
    requires
        -0x4000_0000 <= value <= 0x4000_0000,
    ensures
        r == floor_half(value as int),
{
    if value >= 0 {
        value / 2
    } else {
        -((-value + 1) / 2)
    }
}

pub fn forward_pair(first: i32, second: i32) -> (pair: (i32, i32))
    requires
        pair_domain(first as int),
        pair_domain(second as int),
    ensures
        pair.0 == spec_forward_pair(first as int, second as int).0,
        pair.1 == spec_forward_pair(first as int, second as int).1,
{
    let bias: i32 = if first > second {
        1
    } else {
        0
    };
    (floor_half_i32(first + second + bias), first - second)
}

pub fn inverse_pair(average: i32, detail: i32) -> (pair: (i32, i32))
    requires
        pair_domain(average as int),
        -0x2000_0000 <= detail <= 0x2000_0000,
    ensures
        pair.0 == spec_inverse_pair(average as int, detail as int).0,
        pair.1 == spec_inverse_pair(average as int, detail as int).1,
{
    let first = average + detail / 2;
    (first, first - detail)
}

/// The pair transform is reversible: the inverse step recovers both samples.
pub proof fn lemma_pair_round_trip(first: int, second: int)
    ensures
        spec_inverse_pair(spec_forward_pair(first, second).0, spec_forward_pair(first, second).1)
            == (first, second),
{
    let d = first - second;
    let s = first + second + if first > second {
        1int
    } else {
        0int
    };
    assert(s == 2 * second + d + if d > 0 {
        1int
    } else {
        0int
    });
    assert(floor_half(s) + trunc_half(d) == first);
}

/// A rectangular band of transform values, row by row.
pub struct Band {
    pub width: usize,
    pub height: usize,
    pub values: Vec<i32>,
}

/// Low half of one row: the average of each column pair, then the odd last column.
pub open spec fn row_low(row: Seq<i32>) -> Seq<i32> {
    Seq::new(
        ((row.len() + 1) / 2) as nat,
        |x: int|
            if 2 * x + 1 < row.len() {
                spec_forward_pair(row[2 * x] as int, row[2 * x + 1] as int).0 as i32
            } else {
                row[2 * x]
            },
    )
}

/// High half of one row: the difference of each column pair.
pub open spec fn row_high(row: Seq<i32>) -> Seq<i32> {
    Seq::new((row.len() / 2) as nat, |x: int| (row[2 * x] - row[2 * x + 1]) as i32)
}

/// Row `y` of a band `width` values wide.
pub open spec fn band_row(values: Seq<i32>, width: int, y: int) -> Seq<i32> {
    values.subrange(y * width, y * width + width)
}

/// Low band of the horizontal split of the first `rows` rows.
pub open spec fn split_low(values: Seq<i32>, width: int, rows: nat) -> Seq<i32>
    decreases rows,
{
    if rows == 0 {
        Seq::empty()
    } else {
        split_low(values, width, (rows - 1) as nat) + row_low(band_row(values, width, rows - 1))
    }
}

/// High band of the horizontal split of the first `rows` rows.
pub open spec fn split_high(values: Seq<i32>, width: int, rows: nat) -> Seq<i32>
    decreases rows,
{
    if rows == 0 {
        Seq::empty()
    } else {
        split_high(values, width, (rows - 1) as nat) + row_high(band_row(values, width, rows - 1))
    }
}

/// One row rebuilt from its low and high halves: inverse pairs, then, when the row
/// is odd, the last low value.
pub open spec fn row_join(low: Seq<i32>, high: Seq<i32>) -> Seq<i32> {
    let tail = if (low.len() + high.len()) % 2 == 1 {
        1int
    } else {
        0int
    };
    Seq::new(
        (2 * high.len() + tail) as nat,
        |c: int|
            if c < 2 * high.len() {
                let pair = spec_inverse_pair(low[c / 2] as int, high[c / 2] as int);
                if c % 2 == 0 {
                    pair.0 as i32
                } else {
                    pair.1 as i32
                }
            } else {
                low[low.len() - 1]
            },
    )
}

/// The rows rebuilt from the first `rows` rows of a low and a high band.
pub open spec fn join_rows(low: Seq<i32>, low_width: int, high: Seq<i32>, high_width: int, rows: nat) -> Seq<i32>
    decreases rows,
{
    if rows == 0 {
        Seq::empty()
    } else {
        join_rows(low, low_width, high, high_width, (rows - 1) as nat) + row_join(
            band_row(low, low_width, rows - 1),
            band_row(high, high_width, rows - 1),
        )
    }
}

/// Values within the squeeze model's domain.
pub open spec fn values_in_domain(values: Seq<i32>) -> bool {
    forall|i: int| 0 <= i < values.len() ==> pair_domain(#[trigger] values[i] as int)
}

proof fn lemma_split_len(values: Seq<i32>, width: int, rows: nat)
    requires
        width >= 0,
        values.len() >= rows * width,
    ensures
        split_low(values, width, rows).len() == rows * ((width + 1) / 2),
        split_high(values, width, rows).len() == rows * (width / 2),
    decreases rows,
{
    if rows > 0 {
        assert((rows - 1) * width + width == rows * width && (rows - 1) * width >= 0) by (nonlinear_arith)
            requires
                rows >= 1,
                width >= 0,
        ;
        assert(band_row(values, width, rows - 1).len() == width);
        lemma_split_len(values, width, (rows - 1) as nat);
        assert(rows * ((width + 1) / 2) == (rows - 1) * ((width + 1) / 2) + (width + 1) / 2) by (nonlinear_arith);
        assert(rows * (width / 2) == (rows - 1) * (width / 2) + width / 2) by (nonlinear_arith);
    }
}

/// Row `y` of a split band is the split of row `y`.
proof fn lemma_split_row(values: Seq<i32>, width: int, rows: nat, y: int)
    requires
        width >= 0,
        0 <= y < rows,
        values.len() >= rows * width,
    ensures
        band_row(split_low(values, width, rows), (width + 1) / 2, y) == row_low(band_row(values, width, y)),
        band_row(split_high(values, width, rows), width / 2, y) == row_high(band_row(values, width, y)),
    decreases rows,
{
    assert((rows - 1) * width + width == rows * width && (rows - 1) * width >= 0) by (nonlinear_arith)
        requires
            rows >= 1,
            width >= 0,
    ;
    lemma_split_len(values, width, (rows - 1) as nat);
    let lw = (width + 1) / 2;
    let hw = width / 2;
    let low_before = split_low(values, width, (rows - 1) as nat);
    let high_before = split_high(values, width, (rows - 1) as nat);
    assert(y * width + width <= rows * width) by (nonlinear_arith)
        requires
            y < rows,
            width >= 0,
    ;
    assert(y * width >= 0) by (nonlinear_arith)
        requires
            y >= 0,
            width >= 0,
    ;
    if y == rows - 1 {
        assert(band_row(values, width, y).len() == width);
        assert(band_row(split_low(values, width, rows), lw, y) =~= row_low(band_row(values, width, y)));
        assert(band_row(split_high(values, width, rows), hw, y) =~= row_high(band_row(values, width, y)));
    } else {
        lemma_split_row(values, width, (rows - 1) as nat, y);
        assert(y * lw + lw <= (rows - 1) * lw) by (nonlinear_arith)
            requires
                y < rows - 1,
                lw >= 0,
        ;
        assert(y * hw + hw <= (rows - 1) * hw) by (nonlinear_arith)
            requires
                y < rows - 1,
                hw >= 0,
        ;
        assert(y * lw >= 0 && y * hw >= 0) by (nonlinear_arith)
            requires
                y >= 0,
                lw >= 0,
                hw >= 0,
        ;
        assert(band_row(split_low(values, width, rows), lw, y) =~= band_row(low_before, lw, y));
        assert(band_row(split_high(values, width, rows), hw, y) =~= band_row(high_before, hw, y));
    }
}

/// `join_rows` reads only the rows it rebuilds.
proof fn lemma_join_rows_prefix(
    low: Seq<i32>,
    other_low: Seq<i32>,
    low_width: int,
    high: Seq<i32>,
    other_high: Seq<i32>,
    high_width: int,
    rows: nat,
)
    requires
        low_width >= 0,
        high_width >= 0,
        forall|y: int| 0 <= y < rows ==> #[trigger] band_row(low, low_width, y) == band_row(other_low, low_width, y),
        forall|y: int| 0 <= y < rows ==> #[trigger] band_row(high, high_width, y) == band_row(other_high, high_width, y),
    ensures
        join_rows(low, low_width, high, high_width, rows) == join_rows(other_low, low_width, other_high, high_width, rows),
    decreases rows,
{
    if rows > 0 {
        lemma_join_rows_prefix(low, other_low, low_width, high, other_high, high_width, (rows - 1) as nat);
        assert(band_row(low, low_width, rows - 1) == band_row(other_low, low_width, rows - 1));
        assert(band_row(high, high_width, rows - 1) == band_row(other_high, high_width, rows - 1));
    }
}

/// Joining the halves of a row gives the row back.
proof fn lemma_row_round_trip(row: Seq<i32>)
    requires
        values_in_domain(row),
    ensures
        row_join(row_low(row), row_high(row)) == row,
{
    let low = row_low(row);
    let high = row_high(row);
    let joined = row_join(low, high);
    assert(low.len() + high.len() == row.len());
    assert forall|c: int| 0 <= c < row.len() implies #[trigger] joined[c] == row[c] by {
        if c < 2 * high.len() {
            let x = c / 2;
            assert(pair_domain(row[2 * x] as int) && pair_domain(row[2 * x + 1] as int));
            lemma_pair_round_trip(row[2 * x] as int, row[2 * x + 1] as int);
            let f = spec_forward_pair(row[2 * x] as int, row[2 * x + 1] as int);
            assert(-0x1000_0000 <= f.0 <= 0x1000_0000);
            assert(low[x] as int == f.0);
            assert(high[x] as int == f.1);
        } else {
            assert(c == row.len() - 1);
            assert(low[low.len() - 1] == row[2 * (low.len() - 1)]);
        }
    }
    assert(joined =~= row);
}

/// Row `y` of the split of a band and of the split of its first rows agree.
#[verifier::spinoff_prover]
proof fn lemma_split_prefix_row(values: Seq<i32>, width: int, height: nat, y: int)
    requires
        width >= 0,
        height >= 1,
        values.len() == width * height,
        0 <= y < height - 1,
    ensures
        band_row(split_low(values, width, height), (width + 1) / 2, y) == band_row(
            split_low(values.subrange(0, (height - 1) * width), width, (height - 1) as nat),
            (width + 1) / 2,
            y,
        ),
        band_row(split_high(values, width, height), width / 2, y) == band_row(
            split_high(values.subrange(0, (height - 1) * width), width, (height - 1) as nat),
            width / 2,
            y,
        ),
{
    let h1 = (height - 1) as nat;
    assert(h1 * width + width == height * width && h1 * width >= 0) by (nonlinear_arith)
        requires
            h1 == height - 1,
            width >= 0,
    ;
    let prefix = values.subrange(0, h1 * width);
    assert(y * width + width <= h1 * width && y * width >= 0) by (nonlinear_arith)
        requires
            0 <= y < h1,
            width >= 0,
    ;
    assert(h1 * width == width * h1 && height * width == width * height) by (nonlinear_arith);
    lemma_split_row(values, width, height, y);
    lemma_split_row(prefix, width, h1, y);
    assert forall|i: int| 0 <= i < width implies #[trigger] band_row(values, width, y)[i] == band_row(
        prefix,
        width,
        y,
    )[i] by {
        assert(band_row(values, width, y)[i] == values[y * width + i]);
        assert(band_row(prefix, width, y)[i] == prefix[y * width + i]);
    }
    assert(band_row(values, width, y) =~= band_row(prefix, width, y));
}

/// The horizontal squeeze split is reversible: joining its low and high bands row
/// by row gives back every value of the band.
#[verifier::spinoff_prover]
#[verifier::rlimit(40)]
pub proof fn lemma_horizontal_round_trip(values: Seq<i32>, width: int, height: nat)
    requires
        width >= 0,
        values.len() == width * height,
        values_in_domain(values),
    ensures
        join_rows(split_low(values, width, height), (width + 1) / 2, split_high(values, width, height), width / 2, height)
            == values,
    decreases height,
{
    let lw = (width + 1) / 2;
    let hw = width / 2;
    if height == 0 {
        assert(values =~= Seq::<i32>::empty());
    } else {
        let h1 = (height - 1) as nat;
        assert(h1 * width + width == height * width && h1 * width >= 0) by (nonlinear_arith)
            requires
                h1 == height - 1,
                width >= 0,
        ;
        assert(h1 * width == width * h1 && height * width == width * height) by (nonlinear_arith);
        let prefix = values.subrange(0, h1 * width);
        assert(prefix.len() == width * h1);
        let low = split_low(values, width, height);
        let high = split_high(values, width, height);
        assert(values_in_domain(prefix));
        lemma_horizontal_round_trip(prefix, width, h1);
        assert forall|y: int| 0 <= y < h1 implies #[trigger] band_row(low, lw, y) == band_row(
            split_low(prefix, width, h1),
            lw,
            y,
        ) by {
            lemma_split_prefix_row(values, width, height, y);
        }
        assert forall|y: int| 0 <= y < h1 implies #[trigger] band_row(high, hw, y) == band_row(
            split_high(prefix, width, h1),
            hw,
            y,
        ) by {
            lemma_split_prefix_row(values, width, height, y);
        }
        lemma_join_rows_prefix(low, split_low(prefix, width, h1), lw, high, split_high(prefix, width, h1), hw, h1);
        let last = band_row(values, width, h1 as int);
        lemma_split_row(values, width, height, h1 as int);
        assert(values_in_domain(last));
        lemma_row_round_trip(last);
        assert(join_rows(low, lw, high, hw, height) == join_rows(low, lw, high, hw, h1) + row_join(
            band_row(low, lw, h1 as int),
            band_row(high, hw, h1 as int),
        ));
        assert(values =~= prefix + last);
    }
}

/// Values whose pair differences stay within the squeeze model's domain, so that
/// both halves of a split can be split again.
pub open spec fn values_in_half_domain(values: Seq<i32>) -> bool {
    forall|i: int| 0 <= i < values.len() ==> -0x0800_0000 <= #[trigger] values[i] <= 0x0800_0000
}

/// Details within the squeeze model's domain.
pub open spec fn details_in_domain(values: Seq<i32>) -> bool {
    forall|i: int| 0 <= i < values.len() ==> -0x2000_0000 <= #[trigger] values[i] <= 0x2000_0000
}

/// Splits a band horizontally into a low band of pair averages (with the odd last
/// column) and a high band of pair differences, over its whole rows.
pub fn horizontal_split(input: &Band) -> (bands: Vec<Band>)
    requires
        input.width >= 1,
        values_in_domain(input.values@),
    ensures
        bands.len() == 2,
        bands@[0].width == (input.width + 1) / 2 && bands@[0].height == input.height,
        bands@[1].width == input.width / 2 && bands@[1].height == input.height,
        bands@[0].values@ == split_low(input.values@, input.width as int, (input.values.len() / input.width) as nat),
        bands@[1].values@ == split_high(input.values@, input.width as int, (input.values.len() / input.width) as nat),
        bands@[0].values.len() == (input.values.len() / input.width) * ((input.width + 1) / 2),
        bands@[1].values.len() == (input.values.len() / input.width) * (input.width / 2),
        values_in_domain(bands@[0].values@),
        details_in_domain(bands@[1].values@),
        values_in_half_domain(input.values@) ==> values_in_domain(bands@[1].values@),
{
    let width = input.width;
    let values = &input.values;
    let rows = values.len() / width;
    let mut low: Vec<i32> = Vec::new();
    let mut high: Vec<i32> = Vec::new();
    let mut y: usize = 0;
    let mut base: usize = 0;
    proof {
        assert(rows * width <= values.len()) by (nonlinear_arith)
            requires
                rows == values.len() / width,
                width >= 1,
        ;
    }
    while y < rows
        invariant
            width == input.width,
            width >= 1,
            values == &input.values,
            values_in_domain(values@),
            rows * width <= values.len(),
            y <= rows,
            base == y * width,
            low@ == split_low(values@, width as int, y as nat),
            high@ == split_high(values@, width as int, y as nat),
            values_in_domain(low@),
            details_in_domain(high@),
            values_in_half_domain(values@) ==> values_in_domain(high@),
        decreases rows - y,
    {
        proof {
            assert(base + width <= values.len()) by (nonlinear_arith)
                requires
                    base == y * width,
                    y < rows,
                    rows * width <= values.len(),
            ;
        }
        let ghost row = band_row(values@, width as int, y as int);
        let ghost low_start = low@;
        let ghost high_start = high@;
        let mut x: usize = 0;
        while x < width / 2
            invariant
                width >= 1,
                values_in_domain(values@),
                base + width <= values.len(),
                row == values@.subrange(base as int, base + width),
                x <= width / 2,
                low@ == low_start + row_low(row).take(x as int),
                high@ == high_start + row_high(row).take(x as int),
                values_in_domain(low@),
                details_in_domain(high@),
                values_in_half_domain(values@) ==> values_in_domain(high@),
            decreases width / 2 - x,
        {
            let first = values[base + 2 * x];
            let second = values[base + 2 * x + 1];
            proof {
                assert(row[2 * x as int] == first && row[2 * x + 1] == second);
            }
            let (average, detail) = forward_pair(first, second);
            proof {
                assert(pair_domain(first as int) && pair_domain(second as int));
                if values_in_half_domain(values@) {
                    assert(-0x0800_0000 <= first <= 0x0800_0000);
                    assert(-0x0800_0000 <= second <= 0x0800_0000);
                }
            }
            low.push(average);
            high.push(detail);
            proof {
                assert(low@ =~= low_start + row_low(row).take(x + 1));
                assert(high@ =~= high_start + row_high(row).take(x + 1));
            }
            x = x + 1;
        }
        if width % 2 == 1 {
            proof {
                assert(pair_domain(values@[base + width - 1] as int));
            }
            low.push(values[base + width - 1]);
        }
        proof {
            assert(row.len() == width);
            assert(low@ =~= low_start + row_low(row));
            assert(high@ =~= high_start + row_high(row));
            assert(base + width == (y + 1) * width) by (nonlinear_arith)
                requires
                    base == y * width,
            ;
        }
        base = base + width;
        y = y + 1;
    }
    proof {
        lemma_split_len(values@, width as int, rows as nat);
    }
    let low_band = Band { width: width / 2 + width % 2, height: input.height, values: low };
    let high_band = Band { width: width / 2, height: input.height, values: high };
    let mut bands: Vec<Band> = Vec::new();
    bands.push(low_band);
    bands.push(high_band);
    bands
}

/// Rebuilds the rows of a band from the low and high bands of its horizontal split.
/// Rebuilds the rows of a band from the low and high bands of its horizontal split.
pub fn inverse_horizontal(bands: &[Band]) -> (output: Vec<i32>)
    requires
        bands.len() >= 2,
        bands@[0].width + bands@[1].width <= usize::MAX,
        bands@[0].height * bands@[0].width <= bands@[0].values.len(),
        bands@[0].height * bands@[1].width <= bands@[1].values.len(),
        bands@[0].height > 0 ==> bands@[1].width <= bands@[0].width && ((bands@[0].width + bands@[1].width)
            % 2 == 1 ==> bands@[0].width >= 1),
        values_in_domain(bands@[0].values@),
        details_in_domain(bands@[1].values@),
    ensures
        output@ == join_rows(
            bands@[0].values@,
            bands@[0].width as int,
            bands@[1].values@,
            bands@[1].width as int,
            bands@[0].height as nat,
        ),
{
    inverse_horizontal_bands(&bands[0], &bands[1])
}

/// The rows rebuilt from a low and a high band.
fn inverse_horizontal_bands(low: &Band, high: &Band) -> (output: Vec<i32>)
    requires
        low.width + high.width <= usize::MAX,
        low.height * low.width <= low.values.len(),
        low.height * high.width <= high.values.len(),
        low.height > 0 ==> high.width <= low.width && ((low.width + high.width)
            % 2 == 1 ==> low.width >= 1),
        values_in_domain(low.values@),
        details_in_domain(high.values@),
    ensures
        output@ == join_rows(
            low.values@,
            low.width as int,
            high.values@,
            high.width as int,
            low.height as nat,
        ),
{
    let low_width = low.width;
    let high_width = high.width;
    let width = low_width + high_width;
    let mut output: Vec<i32> = Vec::new();
    let mut y: usize = 0;
    while y < low.height
        invariant
            low_width == low.width,
            high_width == high.width,
            width == low_width + high_width,
            low.height * low_width <= low.values.len(),
            low.height * high_width <= high.values.len(),
            low.height > 0 ==> high_width <= low_width && (width % 2 == 1 ==> low_width >= 1),
            values_in_domain(low.values@),
            details_in_domain(high.values@),
            y <= low.height,
            output@ == join_rows(low.values@, low_width as int, high.values@, high_width as int, y as nat),
        decreases low.height - y,
    {
        proof {
            assert((y + 1) * low_width <= low.height * low_width && (y + 1) * high_width <= low.height
                * high_width) by (nonlinear_arith)
                requires
                    y < low.height,
            ;
            assert((y + 1) * low_width == y * low_width + low_width && (y + 1) * high_width == y
                * high_width + high_width) by (nonlinear_arith);
        }
        let low_start = y * low_width;
        let high_start = y * high_width;
        let ghost low_row = band_row(low.values@, low_width as int, y as int);
        let ghost high_row = band_row(high.values@, high_width as int, y as int);
        let ghost before = output@;
        proof {
            assert(row_join(low_row, high_row).take(0) =~= Seq::<i32>::empty());
            assert(output@ =~= before + row_join(low_row, high_row).take(0));
        }
        let mut x: usize = 0;
        while x < high_width
            invariant
                high_width <= low_width,
                low_start + low_width <= low.values.len(),
                high_start + high_width <= high.values.len(),
                low_row == low.values@.subrange(low_start as int, low_start + low_width),
                high_row == high.values@.subrange(high_start as int, high_start + high_width),
                values_in_domain(low.values@),
                details_in_domain(high.values@),
                x <= high_width,
                output@ == before + row_join(low_row, high_row).take(2 * x),
            decreases high_width - x,
        {
            let average = low.values[low_start + x];
            let detail = high.values[high_start + x];
            proof {
                assert(low_row[x as int] == average && high_row[x as int] == detail);
            }
            let pair = inverse_pair(average, detail);
            output.push(pair.0);
            output.push(pair.1);
            proof {
                let joined = row_join(low_row, high_row);
                assert((2 * x) / 2 == x && (2 * x + 1) / 2 == x);
                assert(joined[2 * x as int] == pair.0);
                assert(joined[2 * x + 1] == pair.1);
                assert(output@ =~= before + joined.take(2 * x + 2));
            }
            x = x + 1;
        }
        if width % 2 == 1 {
            output.push(low.values[low_start + low_width - 1]);
        }
        proof {
            let joined = row_join(low_row, high_row);
            assert(low_row.len() == low_width && high_row.len() == high_width);
            assert(output@ =~= before + joined);
        }
        y = y + 1;
    }
    output
}

/// Averages of two rows, column by column.
pub open spec fn pair_low_row(first: Seq<i32>, second: Seq<i32>) -> Seq<i32> {
    Seq::new(first.len(), |x: int| spec_forward_pair(first[x] as int, second[x] as int).0 as i32)
}

/// Differences of two rows, column by column.
pub open spec fn pair_high_row(first: Seq<i32>, second: Seq<i32>) -> Seq<i32> {
    Seq::new(first.len(), |x: int| (first[x] - second[x]) as i32)
}

/// Average rows of the first `pairs` row pairs of a band.
pub open spec fn pair_lows(values: Seq<i32>, width: int, pairs: nat) -> Seq<i32>
    decreases pairs,
{
    if pairs == 0 {
        Seq::empty()
    } else {
        pair_lows(values, width, (pairs - 1) as nat) + pair_low_row(
            band_row(values, width, 2 * (pairs - 1)),
            band_row(values, width, 2 * (pairs - 1) + 1),
        )
    }
}

/// Difference rows of the first `pairs` row pairs of a band.
pub open spec fn pair_highs(values: Seq<i32>, width: int, pairs: nat) -> Seq<i32>
    decreases pairs,
{
    if pairs == 0 {
        Seq::empty()
    } else {
        pair_highs(values, width, (pairs - 1) as nat) + pair_high_row(
            band_row(values, width, 2 * (pairs - 1)),
            band_row(values, width, 2 * (pairs - 1) + 1),
        )
    }
}

/// Low band of the vertical split of a band `height` rows high: the average rows,
/// then, when the height is odd, every value from the last row on.
pub open spec fn vertical_low(values: Seq<i32>, width: int, height: int) -> Seq<i32> {
    pair_lows(values, width, (height / 2) as nat) + if height % 2 == 1 {
        values.subrange(2 * (height / 2) * width, values.len() as int)
    } else {
        Seq::empty()
    }
}

/// Row `r` rebuilt from a low and a high band: inverse pairs of row pair `r / 2` for
/// the first `2 * high_height` rows, the last low row as the last row of an odd
/// height, zeros elsewhere.
pub open spec fn vertical_row(
    low: Seq<i32>,
    low_width: int,
    low_height: int,
    high: Seq<i32>,
    high_width: int,
    high_height: int,
    r: int,
) -> Seq<i32> {
    let height = low_height + high_height;
    if r < 2 * high_height {
        Seq::new(
            low_width as nat,
            |x: int|
                {
                    let pair = spec_inverse_pair(
                        low[(r / 2) * low_width + x] as int,
                        high[(r / 2) * high_width + x] as int,
                    );
                    if r % 2 == 0 {
                        pair.0 as i32
                    } else {
                        pair.1 as i32
                    }
                },
        )
    } else if height % 2 == 1 && r == height - 1 {
        band_row(low, low_width, low_height - 1)
    } else {
        Seq::new(low_width as nat, |x: int| 0i32)
    }
}

/// The first `rows` rows rebuilt from a low and a high band.
pub open spec fn vertical_rows(
    low: Seq<i32>,
    low_width: int,
    low_height: int,
    high: Seq<i32>,
    high_width: int,
    high_height: int,
    rows: nat,
) -> Seq<i32>
    decreases rows,
{
    if rows == 0 {
        Seq::empty()
    } else {
        vertical_rows(low, low_width, low_height, high, high_width, high_height, (rows - 1) as nat)
            + vertical_row(low, low_width, low_height, high, high_width, high_height, rows - 1)
    }
}

proof fn lemma_pair_rows_len(values: Seq<i32>, width: int, pairs: nat)
    requires
        width >= 0,
        values.len() >= 2 * pairs * width,
    ensures
        pair_lows(values, width, pairs).len() == pairs * width,
        pair_highs(values, width, pairs).len() == pairs * width,
    decreases pairs,
{
    if pairs > 0 {
        let p = pairs - 1;
        assert(2 * p * width + 2 * width == 2 * pairs * width && p * width + width == pairs * width && 2 * p
            * width >= 0) by (nonlinear_arith)
            requires
                p == pairs - 1,
                pairs >= 1,
                width >= 0,
        ;
        assert(band_row(values, width, 2 * p).len() == width);
        lemma_pair_rows_len(values, width, p as nat);
    }
}

/// Row `y` of the average and difference bands comes from row pair `y`.
proof fn lemma_pair_rows_row(values: Seq<i32>, width: int, pairs: nat, y: int)
    requires
        width >= 0,
        0 <= y < pairs,
        values.len() >= 2 * pairs * width,
    ensures
        band_row(pair_lows(values, width, pairs), width, y) == pair_low_row(
            band_row(values, width, 2 * y),
            band_row(values, width, 2 * y + 1),
        ),
        band_row(pair_highs(values, width, pairs), width, y) == pair_high_row(
            band_row(values, width, 2 * y),
            band_row(values, width, 2 * y + 1),
        ),
    decreases pairs,
{
    let p = pairs - 1;
    assert(2 * p * width + 2 * width == 2 * pairs * width && p * width + width == pairs * width && 2 * p
        * width >= 0 && y * width >= 0 && 2 * y * width + 2 * width <= 2 * pairs * width) by (nonlinear_arith)
        requires
            p == pairs - 1,
            pairs >= 1,
            width >= 0,
            0 <= y < pairs,
    ;
    lemma_pair_rows_len(values, width, p as nat);
    if y == p {
        assert(band_row(values, width, 2 * y).len() == width);
        assert(band_row(pair_lows(values, width, pairs), width, y) =~= pair_low_row(
            band_row(values, width, 2 * y),
            band_row(values, width, 2 * y + 1),
        ));
        assert(band_row(pair_highs(values, width, pairs), width, y) =~= pair_high_row(
            band_row(values, width, 2 * y),
            band_row(values, width, 2 * y + 1),
        ));
    } else {
        lemma_pair_rows_row(values, width, p as nat, y);
        assert(y * width + width <= p * width) by (nonlinear_arith)
            requires
                y < p,
                width >= 0,
        ;
        assert(band_row(pair_lows(values, width, pairs), width, y) =~= band_row(
            pair_lows(values, width, p as nat),
            width,
            y,
        ));
        assert(band_row(pair_highs(values, width, pairs), width, y) =~= band_row(
            pair_highs(values, width, p as nat),
            width,
            y,
        ));
    }
}

/// Rows rebuilt from the vertical split of a band are the band's rows.
#[verifier::spinoff_prover]
proof fn lemma_vertical_row(values: Seq<i32>, width: int, height: int, r: int)
    requires
        width >= 0,
        height >= 0,
        values.len() == width * height,
        values_in_domain(values),
        0 <= r < height,
    ensures
        vertical_row(
            vertical_low(values, width, height),
            width,
            height / 2 + height % 2,
            pair_highs(values, width, (height / 2) as nat),
            width,
            height / 2,
            r,
        ) == band_row(values, width, r),
{
    let hh = height / 2;
    let lh = height / 2 + height % 2;
    let pairs = pair_lows(values, width, hh as nat);
    let low = vertical_low(values, width, height);
    let high = pair_highs(values, width, hh as nat);
    assert(2 * hh * width <= width * height && r * width + width <= width * height && r * width >= 0)
        by (nonlinear_arith)
        requires
            hh == height / 2,
            width >= 0,
            0 <= r < height,
    ;
    lemma_pair_rows_len(values, width, hh as nat);
    let row = band_row(values, width, r);
    let rebuilt = vertical_row(low, width, lh, high, width, hh, r);
    if r < 2 * hh {
        let y = r / 2;
        lemma_pair_rows_row(values, width, hh as nat, y);
        assert(y * width + width <= hh * width && y * width >= 0) by (nonlinear_arith)
            requires
                0 <= y < hh,
                width >= 0,
        ;
        let a = band_row(values, width, 2 * y);
        let b = band_row(values, width, 2 * y + 1);
        assert(2 * y * width + 2 * width <= width * height && 2 * y * width >= 0) by (nonlinear_arith)
            requires
                0 <= y < hh,
                hh == height / 2,
                width >= 0,
        ;
        assert((2 * y + 1) * width == 2 * y * width + width && (2 * y + 1) * width + width <= width * height)
            by (nonlinear_arith)
            requires
                0 <= y < hh,
                hh == height / 2,
                width >= 0,
        ;
        assert(a.len() == width && b.len() == width);
        assert forall|x: int| 0 <= x < width implies #[trigger] rebuilt[x] == row[x] by {
            assert(low[y * width + x] == band_row(pairs, width, y)[x]);
            assert(high[y * width + x] == band_row(high, width, y)[x]);
            assert(pair_domain(a[x] as int) && pair_domain(b[x] as int)) by {
                assert(a[x] == values[2 * y * width + x]);
                assert(b[x] == values[(2 * y + 1) * width + x]);
            }
            lemma_pair_round_trip(a[x] as int, b[x] as int);
            let f = spec_forward_pair(a[x] as int, b[x] as int);
            assert(-0x1000_0000 <= f.0 <= 0x1000_0000);
            if r % 2 == 0 {
                assert(r == 2 * y);
            } else {
                assert(r == 2 * y + 1);
            }
        }
        assert(rebuilt =~= row);
    } else {
        assert(height % 2 == 1 && r == height - 1 && r == 2 * hh);
        assert(lh - 1 == hh);
        assert(height == 2 * hh + 1);
        assert(2 * hh * width + width == width * height && hh * width >= 0 && hh * width + width == lh * width)
            by (nonlinear_arith)
            requires
                height == 2 * hh + 1,
                lh == hh + 1,
                hh >= 0,
                width >= 0,
        ;
        assert(r * width == 2 * hh * width);
        assert(low.len() == hh * width + width);
        assert(band_row(low, width, lh - 1) =~= row);
    }
}

/// The first `rows` rebuilt rows are the first `rows` rows of the band.
#[verifier::spinoff_prover]
proof fn lemma_vertical_prefix(values: Seq<i32>, width: int, height: int, rows: nat)
    requires
        width >= 0,
        height >= 0,
        rows <= height,
        values.len() == width * height,
        values_in_domain(values),
    ensures
        rows * width <= values.len(),
        vertical_rows(
            vertical_low(values, width, height),
            width,
            height / 2 + height % 2,
            pair_highs(values, width, (height / 2) as nat),
            width,
            height / 2,
            rows,
        ) == values.subrange(0, rows * width),
    decreases rows,
{
    assert(rows * width <= width * height && rows * width >= 0) by (nonlinear_arith)
        requires
            rows <= height,
            width >= 0,
    ;
    if rows == 0 {
        assert(values.subrange(0, 0) =~= Seq::<i32>::empty());
    } else {
        let r = rows - 1;
        lemma_vertical_prefix(values, width, height, r as nat);
        lemma_vertical_row(values, width, height, r);
        assert(r * width + width == rows * width && r * width >= 0) by (nonlinear_arith)
            requires
                r == rows - 1,
                width >= 0,
                r >= 0,
        ;
        let low = vertical_low(values, width, height);
        let high = pair_highs(values, width, (height / 2) as nat);
        let lh = height / 2 + height % 2;
        let hh = height / 2;
        assert(vertical_rows(low, width, lh, high, width, hh, rows) == vertical_rows(
            low,
            width,
            lh,
            high,
            width,
            hh,
            r as nat,
        ) + vertical_row(low, width, lh, high, width, hh, r));
        assert(values.subrange(0, rows * width) =~= values.subrange(0, r * width) + band_row(values, width, r));
    }
}

/// The vertical squeeze split is reversible: rebuilding the rows from its low and
/// high bands gives back every value of the band.
pub proof fn lemma_vertical_round_trip(values: Seq<i32>, width: int, height: int)
    requires
        width >= 0,
        height >= 0,
        values.len() == width * height,
        values_in_domain(values),
    ensures
        vertical_rows(
            vertical_low(values, width, height),
            width,
            height / 2 + height % 2,
            pair_highs(values, width, (height / 2) as nat),
            width,
            height / 2,
            height as nat,
        ) == values,
{
    lemma_vertical_prefix(values, width, height, height as nat);
    assert(height * width == width * height) by (nonlinear_arith);
    assert(values.subrange(0, height * width) =~= values);
}

/// Splits a band vertically into a low band of row-pair averages (followed, for an
/// odd height, by every value from the last row on) and a high band of row-pair
/// differences.
pub fn vertical_split(input: &Band) -> (bands: Vec<Band>)
    requires
        2 * (input.height / 2) * input.width <= input.values.len(),
        values_in_domain(input.values@),
    ensures
        bands.len() == 2,
        bands@[0].width == input.width && bands@[0].height == input.height / 2 + input.height % 2,
        bands@[1].width == input.width && bands@[1].height == input.height / 2,
        bands@[0].values@ == vertical_low(input.values@, input.width as int, input.height as int),
        bands@[1].values@ == pair_highs(input.values@, input.width as int, (input.height / 2) as nat),
        values_in_domain(bands@[0].values@),
        details_in_domain(bands@[1].values@),
        input.values.len() == input.width * input.height ==> vertical_pair_ok(&bands@[0], &bands@[1]),
{
    let width = input.width;
    let values = &input.values;
    let pairs = input.height / 2;
    let mut low: Vec<i32> = Vec::new();
    let mut high: Vec<i32> = Vec::new();
    let mut p: usize = 0;
    while p < pairs
        invariant
            width == input.width,
            values == &input.values,
            pairs == input.height / 2,
            2 * pairs * width <= values.len(),
            values_in_domain(values@),
            p <= pairs,
            low@ == pair_lows(values@, width as int, p as nat),
            high@ == pair_highs(values@, width as int, p as nat),
            values_in_domain(low@),
            details_in_domain(high@),
        decreases pairs - p,
    {
        proof {
            assert(2 * p * width + 2 * width <= 2 * pairs * width && 2 * p * width >= 0 && (2 * p + 1) * width
                == 2 * p * width + width) by (nonlinear_arith)
                requires
                    p < pairs,
            ;
        }
        let first = 2 * p * width;
        let second = first + width;
        let ghost first_row = band_row(values@, width as int, 2 * p as int);
        let ghost second_row = band_row(values@, width as int, 2 * p + 1);
        let ghost low_start = low@;
        let ghost high_start = high@;
        let mut x: usize = 0;
        while x < width
            invariant
                values_in_domain(values@),
                second == first + width,
                second + width <= values.len(),
                first_row == values@.subrange(first as int, first + width),
                second_row == values@.subrange(second as int, second + width),
                x <= width,
                low@ == low_start + pair_low_row(first_row, second_row).take(x as int),
                high@ == high_start + pair_high_row(first_row, second_row).take(x as int),
                values_in_domain(low@),
                details_in_domain(high@),
            decreases width - x,
        {
            let a = values[first + x];
            let b = values[second + x];
            proof {
                assert(first_row[x as int] == a && second_row[x as int] == b);
                assert(pair_domain(a as int) && pair_domain(b as int));
            }
            let (average, detail) = forward_pair(a, b);
            low.push(average);
            high.push(detail);
            proof {
                assert(low@ =~= low_start + pair_low_row(first_row, second_row).take(x + 1));
                assert(high@ =~= high_start + pair_high_row(first_row, second_row).take(x + 1));
            }
            x = x + 1;
        }
        proof {
            assert(low@ =~= low_start + pair_low_row(first_row, second_row));
            assert(high@ =~= high_start + pair_high_row(first_row, second_row));
            assert(2 * (p + 1 - 1) == 2 * p);
        }
        p = p + 1;
    }
    if input.height % 2 == 1 {
        let start = (input.height - 1) * width;
        proof {
            assert(start == 2 * pairs * width);
        }
        let ghost low_start = low@;
        let mut i: usize = start;
        while i < values.len()
            invariant
                start <= i <= values.len(),
                values_in_domain(values@),
                values_in_domain(low@),
                low@ == low_start + values@.subrange(start as int, i as int),
            decreases values.len() - i,
        {
            low.push(values[i]);
            proof {
                assert(low@ =~= low_start + values@.subrange(start as int, i + 1));
            }
            i = i + 1;
        }
    }
    proof {
        assert(low@ =~= vertical_low(values@, width as int, input.height as int));
        lemma_pair_rows_len(values@, width as int, pairs as nat);
        if values.len() == width * input.height {
            let h = input.height;
            assert(width * (h / 2 + h % 2 + h / 2) == values.len());
            if pairs > 0 && width > 0 {
                assert((pairs - 1) * width + width == pairs * width) by (nonlinear_arith)
                    requires
                        pairs >= 1,
                ;
            }
            if (h / 2 + h % 2 + h / 2) % 2 == 1 {
                assert(h % 2 == 1);
                assert((h / 2 + h % 2) * width == pairs * width + width) by (nonlinear_arith)
                    requires
                        h % 2 == 1,
                        pairs == h / 2,
                ;
                assert(width * h == 2 * pairs * width + width) by (nonlinear_arith)
                    requires
                        h == 2 * pairs + 1,
                ;
            }
        }
    }
    let low_band = Band { width, height: input.height / 2 + input.height % 2, values: low };
    let high_band = Band { width, height: pairs, values: high };
    let mut bands: Vec<Band> = Vec::new();
    bands.push(low_band);
    bands.push(high_band);
    bands
}

/// Rebuilds the rows of a band from the low and high bands of its vertical split.
/// Rebuilds the rows of a band from the low and high bands of its vertical split.
pub fn inverse_vertical(bands: &[Band]) -> (output: Vec<i32>)
    requires
        bands.len() >= 2,
        bands@[0].height + bands@[1].height <= usize::MAX,
        bands@[0].width * (bands@[0].height + bands@[1].height) <= usize::MAX,
        bands@[1].height > 0 && bands@[0].width > 0 ==> {
            &&& bands@[1].height <= bands@[0].height
            &&& bands@[1].height * bands@[0].width <= bands@[0].values.len()
            &&& (bands@[1].height - 1) * bands@[1].width + bands@[0].width <= bands@[1].values.len()
        },
        (bands@[0].height + bands@[1].height) % 2 == 1 ==> bands@[0].height >= 1 && bands@[0].height
            * bands@[0].width <= bands@[0].values.len(),
        values_in_domain(bands@[0].values@),
        details_in_domain(bands@[1].values@),
    ensures
        output@ == vertical_rows(
            bands@[0].values@,
            bands@[0].width as int,
            bands@[0].height as int,
            bands@[1].values@,
            bands@[1].width as int,
            bands@[1].height as int,
            (bands@[0].height + bands@[1].height) as nat,
        ),
{
    inverse_vertical_bands(&bands[0], &bands[1])
}

/// The rows rebuilt from a low and a high band.
fn inverse_vertical_bands(low: &Band, high: &Band) -> (output: Vec<i32>)
    requires
        low.height + high.height <= usize::MAX,
        low.width * (low.height + high.height) <= usize::MAX,
        high.height > 0 && low.width > 0 ==> {
            &&& high.height <= low.height
            &&& high.height * low.width <= low.values.len()
            &&& (high.height - 1) * high.width + low.width <= high.values.len()
        },
        (low.height + high.height) % 2 == 1 ==> low.height >= 1 && low.height
            * low.width <= low.values.len(),
        values_in_domain(low.values@),
        details_in_domain(high.values@),
    ensures
        output@ == vertical_rows(
            low.values@,
            low.width as int,
            low.height as int,
            high.values@,
            high.width as int,
            high.height as int,
            (low.height + high.height) as nat,
        ),
{
    let low_width = low.width;
    let low_height = low.height;
    let high_width = high.width;
    let high_height = high.height;
    let height = low_height + high_height;
    let mut output: Vec<i32> = Vec::new();
    let mut r: usize = 0;
    while r < height
        invariant
            low_width == low.width,
            low_height == low.height,
            high_width == high.width,
            high_height == high.height,
            height == low_height + high_height,
            high_height > 0 && low_width > 0 ==> {
                &&& high_height <= low_height
                &&& high_height * low_width <= low.values.len()
                &&& (high_height - 1) * high_width + low_width <= high.values.len()
            },
            height % 2 == 1 ==> low_height >= 1 && low_height * low_width <= low.values.len(),
            values_in_domain(low.values@),
            details_in_domain(high.values@),
            r <= height,
            output@ == vertical_rows(
                low.values@,
                low_width as int,
                low_height as int,
                high.values@,
                high_width as int,
                high_height as int,
                r as nat,
            ),
        decreases height - r,
    {
        let ghost row = vertical_row(
            low.values@,
            low_width as int,
            low_height as int,
            high.values@,
            high_width as int,
            high_height as int,
            r as int,
        );
        let ghost before = output@;
        if r / 2 < high_height {
            let y = r / 2;
            proof {
                if low_width > 0 {
                    assert(y * low_width + low_width <= high_height * low_width && y * high_width + low_width
                        <= (high_height - 1) * high_width + low_width && y * low_width >= 0 && y * high_width
                        >= 0) by (nonlinear_arith)
                        requires
                            y < high_height,
                    ;
                }
            }
            let mut x: usize = 0;
            while x < low_width
                invariant
                    y == r / 2,
                    r / 2 < high_height,
                    low_width == low.width,
                    high_width == high.width,
                    high_height == high.height,
                    x <= low_width,
                    low_width > 0 ==> y * low_width + low_width <= low.values.len(),
                    low_width > 0 ==> y * high_width + low_width <= high.values.len(),
                    values_in_domain(low.values@),
                    details_in_domain(high.values@),
                    row == vertical_row(
                        low.values@,
                        low_width as int,
                        low.height as int,
                        high.values@,
                        high_width as int,
                        high_height as int,
                        r as int,
                    ),
                    row.len() == low_width,
                    output@ == before + row.take(x as int),
                decreases low_width - x,
            {
                let pair = inverse_pair(low.values[y * low_width + x], high.values[y * high_width + x]);
                if r % 2 == 0 {
                    output.push(pair.0);
                } else {
                    output.push(pair.1);
                }
                proof {
                    assert(output@ =~= before + row.take(x + 1));
                }
                x = x + 1;
            }
            proof {
                assert(row.take(low_width as int) =~= row);
            }
        } else if height % 2 == 1 && r == height - 1 {
            proof {
                assert((low_height - 1) * low_width + low_width == low_height * low_width && (low_height - 1)
                    * low_width >= 0) by (nonlinear_arith)
                    requires
                        low_height >= 1,
                ;
            }
            let start = (low_height - 1) * low_width;
            let mut x: usize = 0;
            while x < low_width
                invariant
                    start + low_width <= low.values.len(),
                    row == low.values@.subrange(start as int, start + low_width),
                    x <= low_width,
                    output@ == before + row.take(x as int),
                decreases low_width - x,
            {
                output.push(low.values[start + x]);
                proof {
                    assert(output@ =~= before + row.take(x + 1));
                }
                x = x + 1;
            }
            proof {
                assert(row.take(low_width as int) =~= row);
            }
        } else {
            let mut x: usize = 0;
            while x < low_width
                invariant
                    row == Seq::new(low_width as nat, |i: int| 0i32),
                    x <= low_width,
                    output@ == before + row.take(x as int),
                decreases low_width - x,
            {
                output.push(0);
                proof {
                    assert(output@ =~= before + row.take(x + 1));
                }
                x = x + 1;
            }
            proof {
                assert(row.take(low_width as int) =~= row);
            }
        }
        r = r + 1;
    }
    output
}

/// Splits a band horizontally, then each half vertically: low-low, low-high,
/// high-low and high-high bands.
pub fn two_dimensional_split(input: &Band) -> (bands: Vec<Band>)
    requires
        input.width >= 1,
        values_in_half_domain(input.values@),
        2 * (input.height / 2) <= input.values.len() / input.width,
    ensures
        bands.len() == 4,
        ({
            let rows = (input.values.len() / input.width) as nat;
            let low = split_low(input.values@, input.width as int, rows);
            let high = split_high(input.values@, input.width as int, rows);
            let low_width = (input.width + 1) / 2;
            let high_width = (input.width / 2) as int;
            let h = input.height as int;
            &&& bands@[0].width == low_width && bands@[0].height == h / 2 + h % 2
            &&& bands@[0].values@ == vertical_low(low, low_width, h)
            &&& bands@[1].width == low_width && bands@[1].height == h / 2
            &&& bands@[1].values@ == pair_highs(low, low_width, (h / 2) as nat)
            &&& bands@[2].width == high_width && bands@[2].height == h / 2 + h % 2
            &&& bands@[2].values@ == vertical_low(high, high_width, h)
            &&& bands@[3].width == high_width && bands@[3].height == h / 2
            &&& bands@[3].values@ == pair_highs(high, high_width, (h / 2) as nat)
        }),
        input.values.len() == input.width * input.height ==> vertical_pair_ok(&bands@[0], &bands@[1])
            && vertical_pair_ok(&bands@[2], &bands@[3]),
{
    proof {
        assert forall|i: int| 0 <= i < input.values@.len() implies pair_domain(#[trigger] input.values@[i] as int) by {
            assert(-0x0800_0000 <= input.values@[i] <= 0x0800_0000);
        }
    }
    let horizontal = horizontal_split(input);
    proof {
        let rows = input.values.len() / input.width;
        let pairs = input.height / 2;
        let lw = (input.width + 1) / 2;
        let hw = input.width / 2;
        assert(2 * pairs * lw <= rows * lw && 2 * pairs * hw <= rows * hw) by (nonlinear_arith)
            requires
                2 * pairs <= rows,
                lw >= 0,
                hw >= 0,
        ;
    }
    proof {
        if input.values.len() == input.width * input.height {
            let rows = input.values.len() / input.width;
            assert(rows == input.height) by (nonlinear_arith)
                requires
                    input.values.len() == input.width * input.height,
                    rows == input.values.len() / input.width,
                    input.width >= 1,
            ;
            assert(horizontal@[0].values.len() == horizontal@[0].width * horizontal@[0].height) by (nonlinear_arith)
                requires
                    horizontal@[0].values.len() == rows * ((input.width + 1) / 2),
                    horizontal@[0].width == (input.width + 1) / 2,
                    horizontal@[0].height == rows,
            ;
            assert(horizontal@[1].values.len() == horizontal@[1].width * horizontal@[1].height) by (nonlinear_arith)
                requires
                    horizontal@[1].values.len() == rows * (input.width / 2),
                    horizontal@[1].width == input.width / 2,
                    horizontal@[1].height == rows,
            ;
        }
    }
    let mut output = vertical_split(&horizontal[0]);
    let mut second = vertical_split(&horizontal[1]);
    output.append(&mut second);
    output
}

/// Rows rebuilt from `rows` rows of a low and a high band have `low_width` values each.
proof fn lemma_vertical_rows_len(
    low: Seq<i32>,
    low_width: int,
    low_height: int,
    high: Seq<i32>,
    high_width: int,
    high_height: int,
    rows: nat,
)
    requires
        low_width >= 0,
        low_height >= 0,
        (low_height + high_height) % 2 == 1 ==> low_height >= 1 && low_height * low_width <= low.len(),
    ensures
        vertical_rows(low, low_width, low_height, high, high_width, high_height, rows).len() == rows * low_width,
    decreases rows,
{
    if rows > 0 {
        lemma_vertical_rows_len(low, low_width, low_height, high, high_width, high_height, (rows - 1) as nat);
        assert(rows * low_width == (rows - 1) * low_width + low_width) by (nonlinear_arith);
        let row = vertical_row(low, low_width, low_height, high, high_width, high_height, rows - 1);
        assert(vertical_rows(low, low_width, low_height, high, high_width, high_height, rows) == vertical_rows(
            low,
            low_width,
            low_height,
            high,
            high_width,
            high_height,
            (rows - 1) as nat,
        ) + row);
        if (low_height + high_height) % 2 == 1 {
            assert((low_height - 1) * low_width + low_width == low_height * low_width && (low_height - 1)
                * low_width >= 0) by (nonlinear_arith)
                requires
                    low_height >= 1,
                    low_width >= 0,
            ;
        }
        assert(row.len() == low_width);
    } else {
        assert(rows * low_width == 0) by (nonlinear_arith)
            requires
                rows == 0,
        ;
    }
}

/// A low and a high band that `inverse_vertical` accepts: sizes that fit, enough
/// values for every row it reads, and values in the squeeze domain.
pub open spec fn vertical_pair_ok(low: &Band, high: &Band) -> bool {
    &&& low.height + high.height <= usize::MAX
    &&& low.width * (low.height + high.height) <= usize::MAX
    &&& high.height > 0 && low.width > 0 ==> {
        &&& high.height <= low.height
        &&& high.height * low.width <= low.values.len()
        &&& (high.height - 1) * high.width + low.width <= high.values.len()
    }
    &&& (low.height + high.height) % 2 == 1 ==> low.height >= 1 && low.height * low.width <= low.values.len()
    &&& values_in_domain(low.values@)
    &&& details_in_domain(high.values@)
}

/// Rebuilds a band from its four two-dimensional split bands: each pair vertically,
/// then the two results horizontally.
pub fn inverse_two_dimensional(bands: &[Band]) -> (output: Vec<i32>)
    requires
        bands.len() >= 4,
        vertical_pair_ok(&bands@[0], &bands@[1]),
        vertical_pair_ok(&bands@[2], &bands@[3]),
        bands@[0].width + bands@[2].width <= usize::MAX,
        (bands@[0].height + bands@[1].height) * bands@[2].width <= (bands@[2].height + bands@[3].height)
            * bands@[2].width,
        bands@[0].height + bands@[1].height > 0 ==> bands@[2].width <= bands@[0].width && ((bands@[0].width
            + bands@[2].width) % 2 == 1 ==> bands@[0].width >= 1),
        values_in_domain(
            vertical_rows(
                bands@[0].values@,
                bands@[0].width as int,
                bands@[0].height as int,
                bands@[1].values@,
                bands@[1].width as int,
                bands@[1].height as int,
                (bands@[0].height + bands@[1].height) as nat,
            ),
        ),
        details_in_domain(
            vertical_rows(
                bands@[2].values@,
                bands@[2].width as int,
                bands@[2].height as int,
                bands@[3].values@,
                bands@[3].width as int,
                bands@[3].height as int,
                (bands@[2].height + bands@[3].height) as nat,
            ),
        ),
    ensures
        output@ == join_rows(
            vertical_rows(
                bands@[0].values@,
                bands@[0].width as int,
                bands@[0].height as int,
                bands@[1].values@,
                bands@[1].width as int,
                bands@[1].height as int,
                (bands@[0].height + bands@[1].height) as nat,
            ),
            bands@[0].width as int,
            vertical_rows(
                bands@[2].values@,
                bands@[2].width as int,
                bands@[2].height as int,
                bands@[3].values@,
                bands@[3].width as int,
                bands@[3].height as int,
                (bands@[2].height + bands@[3].height) as nat,
            ),
            bands@[2].width as int,
            (bands@[0].height + bands@[1].height) as nat,
        ),
{
    proof {
        lemma_vertical_rows_len(
            bands@[0].values@,
            bands@[0].width as int,
            bands@[0].height as int,
            bands@[1].values@,
            bands@[1].width as int,
            bands@[1].height as int,
            (bands@[0].height + bands@[1].height) as nat,
        );
        lemma_vertical_rows_len(
            bands@[2].values@,
            bands@[2].width as int,
            bands@[2].height as int,
            bands@[3].values@,
            bands@[3].width as int,
            bands@[3].height as int,
            (bands@[2].height + bands@[3].height) as nat,
        );
        assert((bands@[0].height + bands@[1].height) * bands@[0].width == bands@[0].width * (bands@[0].height
            + bands@[1].height)) by (nonlinear_arith);
        assert((bands@[2].height + bands@[3].height) * bands@[2].width == bands@[2].width * (bands@[2].height
            + bands@[3].height)) by (nonlinear_arith);
    }
    let low_horizontal = Band {
        width: bands[0].width,
        height: bands[0].height + bands[1].height,
        values: inverse_vertical_bands(&bands[0], &bands[1]),
    };
    let high_horizontal = Band {
        width: bands[2].width,
        height: bands[2].height + bands[3].height,
        values: inverse_vertical_bands(&bands[2], &bands[3]),
    };
    inverse_horizontal_bands(&low_horizontal, &high_horizontal)
}

/// Split values of the squeeze domain stay in it; the differences of half-domain
/// values stay in it too.
proof fn lemma_split_domain(values: Seq<i32>, width: int, rows: nat)
    requires
        width >= 0,
        values.len() >= rows * width,
        values_in_domain(values),
    ensures
        values_in_domain(split_low(values, width, rows)),
        values_in_half_domain(values) ==> values_in_domain(split_high(values, width, rows)),
    decreases rows,
{
    if rows > 0 {
        let r = rows - 1;
        assert(r * width + width == rows * width && r * width >= 0) by (nonlinear_arith)
            requires
                r == rows - 1,
                width >= 0,
                r >= 0,
        ;
        lemma_split_domain(values, width, r as nat);
        let row = band_row(values, width, r);
        assert(row.len() == width);
        assert forall|i: int| 0 <= i < row.len() implies pair_domain(#[trigger] row[i] as int) by {
            assert(row[i] == values[r * width + i]);
        }
        let low = split_low(values, width, rows);
        let before = split_low(values, width, r as nat);
        assert forall|i: int| 0 <= i < low.len() implies pair_domain(#[trigger] low[i] as int) by {
            if i >= before.len() {
                let x = i - before.len();
                assert(low[i] == row_low(row)[x]);
                if 2 * x + 1 < row.len() {
                    assert(pair_domain(row[2 * x] as int) && pair_domain(row[2 * x + 1] as int));
                }
            }
        }
        if values_in_half_domain(values) {
            let high = split_high(values, width, rows);
            let hb = split_high(values, width, r as nat);
            assert forall|i: int| 0 <= i < high.len() implies pair_domain(#[trigger] high[i] as int) by {
                if i >= hb.len() {
                    let x = i - hb.len();
                    assert(high[i] == row_high(row)[x]);
                    assert(row[2 * x] == values[r * width + 2 * x]);
                    assert(row[2 * x + 1] == values[r * width + 2 * x + 1]);
                }
            }
        }
    }
}

/// The two-dimensional squeeze split is reversible: rebuilding each half
/// vertically and then the band horizontally gives back every value.
pub proof fn lemma_two_dimensional_round_trip(values: Seq<i32>, width: int, height: int)
    requires
        width >= 0,
        height >= 0,
        values.len() == width * height,
        values_in_half_domain(values),
    ensures
        ({
            let low = split_low(values, width, height as nat);
            let high = split_high(values, width, height as nat);
            let lw = (width + 1) / 2;
            let hw = width / 2;
            join_rows(
                vertical_rows(
                    vertical_low(low, lw, height),
                    lw,
                    height / 2 + height % 2,
                    pair_highs(low, lw, (height / 2) as nat),
                    lw,
                    height / 2,
                    height as nat,
                ),
                lw,
                vertical_rows(
                    vertical_low(high, hw, height),
                    hw,
                    height / 2 + height % 2,
                    pair_highs(high, hw, (height / 2) as nat),
                    hw,
                    height / 2,
                    height as nat,
                ),
                hw,
                height as nat,
            ) == values
        }),
        vertical_rows(
            vertical_low(split_low(values, width, height as nat), (width + 1) / 2, height),
            (width + 1) / 2,
            height / 2 + height % 2,
            pair_highs(split_low(values, width, height as nat), (width + 1) / 2, (height / 2) as nat),
            (width + 1) / 2,
            height / 2,
            height as nat,
        ) == split_low(values, width, height as nat),
        vertical_rows(
            vertical_low(split_high(values, width, height as nat), width / 2, height),
            width / 2,
            height / 2 + height % 2,
            pair_highs(split_high(values, width, height as nat), width / 2, (height / 2) as nat),
            width / 2,
            height / 2,
            height as nat,
        ) == split_high(values, width, height as nat),
        values_in_domain(split_low(values, width, height as nat)),
        values_in_domain(split_high(values, width, height as nat)),
{
    let low = split_low(values, width, height as nat);
    let high = split_high(values, width, height as nat);
    let lw = (width + 1) / 2;
    let hw = width / 2;
    assert(values_in_domain(values)) by {
        assert forall|i: int| 0 <= i < values.len() implies pair_domain(#[trigger] values[i] as int) by {
            assert(-0x0800_0000 <= values[i] <= 0x0800_0000);
        }
    }
    assert(values.len() >= height * width) by (nonlinear_arith)
        requires
            values.len() == width * height,
    ;
    lemma_split_len(values, width, height as nat);
    lemma_split_domain(values, width, height as nat);
    assert(height * lw == lw * height && height * hw == hw * height) by (nonlinear_arith);
    lemma_vertical_round_trip(low, lw, height);
    lemma_vertical_round_trip(high, hw, height);
    lemma_horizontal_round_trip(values, width, height as nat);
}

// ---------------------------------------------------------------------------
// Motion search cost model
// ---------------------------------------------------------------------------

/// A block displaced by `(dx, dy)` stays inside the frame.
pub open spec fn spec_candidate_fits(
    frame_width: int,
    frame_height: int,
    x: int,
    y: int,
    width: int,
    height: int,
    dx: int,
    dy: int,
) -> bool {
    &&& 0 <= x + dx && x + dx + width <= frame_width
    &&& 0 <= y + dy && y + dy + height <= frame_height
}

pub fn candidate_fits(
    frame_width: usize,
    frame_height: usize,
    x: usize,
    y: usize,
    width: usize,
    height: usize,
    dx: isize,
    dy: isize,
) -> (fits: bool)
    ensures
        fits == spec_candidate_fits(
            frame_width as int,
            frame_height as int,
            x as int,
            y as int,
            width as int,
            height as int,
            dx as int,
            dy as int,
        ),
{
    let start_x = x as i128 + dx as i128;
    let start_y = y as i128 + dy as i128;
    start_x >= 0 && start_x + width as i128 <= frame_width as i128 && start_y >= 0 && start_y
        + height as i128 <= frame_height as i128
}

/// Folded quantized residuals of a block against its displaced reference block.
pub open spec fn block_folded(
    current: Seq<u8>,
    reference: Seq<u8>,
    stride: int,
    x: int,
    y: int,
    width: int,
    height: int,
    dx: int,
    dy: int,
    step: int,
) -> Seq<int> {
    Seq::new(
        (width * height) as nat,
        |i: int|
            spec_zigzag(
                spec_quantize(
                    current[(y + i / width) * stride + x + i % width] - reference[(y + dy + i / width)
                        * stride + x + dx + i % width],
                    step,
                ),
            ),
    )
}

/// Rice bits of a symbol sequence with one parameter, plus the 3-bit parameter code.
pub open spec fn block_rice_cost(folded: Seq<int>, parameter: nat) -> int
    decreases folded.len(),
{
    if folded.len() == 0 {
        3
    } else {
        block_rice_cost(folded.drop_last(), parameter) + folded.last() / (pow2(parameter) as int) + 1
            + parameter
    }
}

/// In-bounds block and displaced block of two planes of one stride.
pub open spec fn block_in_bounds(
    current_len: int,
    reference_len: int,
    stride: int,
    x: int,
    y: int,
    width: int,
    height: int,
    dx: int,
    dy: int,
) -> bool {
    &&& width >= 1 && height >= 0
    &&& x + width <= stride
    &&& 0 <= x + dx && x + dx + width <= stride
    &&& 0 <= y + dy
    &&& (y + height) * stride <= current_len
    &&& (y + dy + height) * stride <= reference_len
    &&& current_len <= 0x4000_0000
    &&& reference_len <= 0x4000_0000
}

/// Fewest bits of the temporal residuals of a displaced block over Rice parameters
/// `0..8`, each charged a 3-bit parameter code.
pub fn plane_rice_bits(
    current: &[u8],
    reference: &[u8],
    stride: usize,
    x: usize,
    y: usize,
    width: usize,
    height: usize,
    dx: isize,
    dy: isize,
    step: i32,
) -> (bits: u64)
    requires
        block_in_bounds(
            current.len() as int,
            reference.len() as int,
            stride as int,
            x as int,
            y as int,
            width as int,
            height as int,
            dx as int,
            dy as int,
        ),
        1 <= step <= 0x2000_0000,
    ensures
        exists|p: nat|
            p < 8 && bits == block_rice_cost(
                block_folded(
                    current@,
                    reference@,
                    stride as int,
                    x as int,
                    y as int,
                    width as int,
                    height as int,
                    dx as int,
                    dy as int,
                    step as int,
                ),
                p,
            ),
        forall|p: nat|
            p < 8 ==> bits <= #[trigger] block_rice_cost(
                block_folded(
                    current@,
                    reference@,
                    stride as int,
                    x as int,
                    y as int,
                    width as int,
                    height as int,
                    dx as int,
                    dy as int,
                    step as int,
                ),
                p,
            ),
{
    proof {
        assert(y + dy + height <= 0x4000_0000 && y + height <= 0x4000_0000) by (nonlinear_arith)
            requires
                (y + dy + height) * stride <= reference.len(),
                (y + height) * stride <= current.len(),
                reference.len() <= 0x4000_0000,
                current.len() <= 0x4000_0000,
                x + width <= stride,
                width >= 1,
                y + dy >= 0,
                height >= 0,
        ;
    }
    let reference_x = (x as i128 + dx as i128) as usize;
    let reference_y = (y as i128 + dy as i128) as usize;
    let ghost all = block_folded(
        current@,
        reference@,
        stride as int,
        x as int,
        y as int,
        width as int,
        height as int,
        dx as int,
        dy as int,
        step as int,
    );
    let mut costs: Vec<u64> = vec![3u64; 8];
    let mut row: usize = 0;
    proof {
        assert(all.take(0) =~= Seq::<int>::empty());
        assert(width * height >= 0) by (nonlinear_arith)
            requires
                width >= 1,
                height >= 0,
        ;
        assert(all.len() == width * height);
        assert(width * height <= 0x4000_0000) by (nonlinear_arith)
            requires
                x + width <= stride,
                (y + height) * stride <= current.len(),
                current.len() <= 0x4000_0000,
                width >= 1,
                height >= 0,
        ;
    }
    while row < height
        invariant
            block_in_bounds(
                current.len() as int,
                reference.len() as int,
                stride as int,
                x as int,
                y as int,
                width as int,
                height as int,
                dx as int,
                dy as int,
            ),
            reference_x == x + dx,
            reference_y == y + dy,
            1 <= step <= 0x2000_0000,
            width * height <= 0x4000_0000,
            all == block_folded(
                current@,
                reference@,
                stride as int,
                x as int,
                y as int,
                width as int,
                height as int,
                dx as int,
                dy as int,
                step as int,
            ),
            all.len() == width * height,
            y + dy + height <= 0x4000_0000 && y + height <= 0x4000_0000,
            row <= height,
            costs.len() == 8,
            forall|p: int|
                0 <= p < 8 ==> #[trigger] costs@[p] == block_rice_cost(
                    all.take(row * width),
                    p as nat,
                ),
            forall|p: int| 0 <= p < 8 ==> #[trigger] costs@[p] <= 3 + 0x2_0000 * (row * width),
        decreases height - row,
    {
        let mut column: usize = 0;
        while column < width
            invariant
                block_in_bounds(
                    current.len() as int,
                    reference.len() as int,
                    stride as int,
                    x as int,
                    y as int,
                    width as int,
                    height as int,
                    dx as int,
                    dy as int,
                ),
                reference_x == x + dx,
                reference_y == y + dy,
                1 <= step <= 0x2000_0000,
                width * height <= 0x4000_0000,
                all == block_folded(
                    current@,
                    reference@,
                    stride as int,
                    x as int,
                    y as int,
                    width as int,
                    height as int,
                    dx as int,
                    dy as int,
                    step as int,
                ),
                all.len() == width * height,
                y + dy + height <= 0x4000_0000 && y + height <= 0x4000_0000,
                row < height,
                column <= width,
                costs.len() == 8,
                forall|p: int|
                    0 <= p < 8 ==> #[trigger] costs@[p] == block_rice_cost(
                        all.take(row * width + column),
                        p as nat,
                    ),
                forall|p: int|
                    0 <= p < 8 ==> #[trigger] costs@[p] <= 3 + 0x2_0000 * (row * width + column),
            decreases width - column,
        {
            let ghost k = row * width + column;
            proof {
                assert(k < width * height) by (nonlinear_arith)
                    requires
                        k == row * width + column,
                        row < height,
                        column < width,
                ;
                crate::tile_coding::lemma_raster_position(row as int, column as int, width as int);
                assert((y + row) * stride + x + column < current.len()) by (nonlinear_arith)
                    requires
                        x + column < stride,
                        (y + height) * stride <= current.len(),
                        row < height,
                ;
                assert((reference_y + row) * stride + reference_x + column < reference.len()) by (nonlinear_arith)
                    requires
                        reference_x + column < stride,
                        (reference_y + height) * stride <= reference.len(),
                        row < height,
                        reference_x >= 0,
                ;
                assert((y + row) * stride <= (y + height) * stride) by (nonlinear_arith)
                    requires
                        row < height,
                        stride >= 0,
                ;
                assert((reference_y + row) * stride <= (reference_y + height) * stride) by (nonlinear_arith)
                    requires
                        row < height,
                        stride >= 0,
                ;
                assert(0 <= (y + row) * stride) by (nonlinear_arith)
                    requires
                        y + row >= 0,
                        stride >= 0,
                ;
                assert(0 <= (reference_y + row) * stride) by (nonlinear_arith)
                    requires
                        reference_y + row >= 0,
                        stride >= 0,
                ;
                assert(all.take(k + 1).drop_last() =~= all.take(k));
            }
            let current_index = (y + row) * stride + x + column;
            let reference_index = (reference_y + row) * stride + reference_x + column;
            let residual = current[current_index] as i32 - reference[reference_index] as i32;
            let quantized = quantize(residual, step);
            let folded = zigzag(quantized);
            proof {
                assert(k / (width as int) == row);
                assert(k % (width as int) == column);
                assert(current_index == (y + k / (width as int)) * stride + x + k % (width as int));
                assert(reference_index == (y + dy + k / (width as int)) * stride + x + dx + k % (width as int));
                assert(residual == current@[current_index as int] - reference@[reference_index as int]);
                assert(0 <= k < all.len());
                assert(all[k] == spec_zigzag(
                    spec_quantize(
                        current@[(y + k / (width as int)) * stride + x + k % (width as int)]
                            - reference@[(y + dy + k / (width as int)) * stride + x + dx + k % (width as int)],
                        step as int,
                    ),
                ));
                assert(all[k] == folded);
                assert(all.take(k + 1).last() == all[k]);
            }
            let mut parameter: usize = 0;
            while parameter < 8
                invariant
                    parameter <= 8,
                    costs.len() == 8,
                    folded <= 510,
                    forall|p: int|
                        0 <= p < parameter ==> #[trigger] costs@[p] == block_rice_cost(
                            all.take(k + 1),
                            p as nat,
                        ),
                    forall|p: int|
                        parameter <= p < 8 ==> #[trigger] costs@[p] == block_rice_cost(
                            all.take(k),
                            p as nat,
                        ),
                    forall|p: int| 0 <= p < parameter ==> #[trigger] costs@[p] <= 3 + 0x2_0000 * (k + 1),
                    forall|p: int| parameter <= p < 8 ==> #[trigger] costs@[p] <= 3 + 0x2_0000 * k,
                    k < all.len(),
                    all.take(k + 1).len() == k + 1,
                    all.take(k + 1).last() == folded,
                    all.take(k + 1).drop_last() == all.take(k),
                    k + 1 <= 0x4000_0000,
                decreases 8 - parameter,
            {
                let current_cost = costs[parameter];
                let shifted = folded >> parameter as u32;
                proof {
                    lemma_shift_is_division(folded, parameter as u32);
                    assert(pow2(parameter as nat) >= 1) by {
                        vstd::arithmetic::power2::lemma_pow2_pos(parameter as nat);
                    }
                    assert(block_rice_cost(all.take(k + 1), parameter as nat) == block_rice_cost(
                        all.take(k),
                        parameter as nat,
                    ) + (folded as int) / (pow2(parameter as nat) as int) + 1 + parameter);
                }
                let updated = current_cost + shifted as u64 + 1 + parameter as u64;
                costs.set(parameter, updated);
                parameter = parameter + 1;
            }
            column = column + 1;
        }
        proof {
            assert((row + 1) * width == row * width + width) by (nonlinear_arith);
        }
        row = row + 1;
    }
    proof {
        assert(row * width == width * height) by (nonlinear_arith)
            requires
                row == height,
        ;
        assert(all.take(row * width) =~= all);
    }
    let mut best = costs[0];
    let mut best_parameter: usize = 0;
    let mut parameter: usize = 1;
    while parameter < 8
        invariant
            1 <= parameter <= 8,
            costs.len() == 8,
            best_parameter < parameter,
            best == costs@[best_parameter as int],
            forall|p: int| 0 <= p < parameter ==> best <= #[trigger] costs@[p],
        decreases 8 - parameter,
    {
        if costs[parameter] < best {
            best = costs[parameter];
            best_parameter = parameter;
        }
        parameter = parameter + 1;
    }
    proof {
        assert(best == block_rice_cost(all, best_parameter as nat));
        assert forall|p: nat| p < 8 implies best <= #[trigger] block_rice_cost(all, p) by {
            assert(costs@[p as int] == block_rice_cost(all, p));
        }
    }
    best
}

proof fn lemma_shift_is_division(value: u32, shift: u32)
    requires
        shift < 8,
    ensures
        (value >> shift) as int == value as int / pow2(shift as nat) as int,
{
    vstd::bits::lemma_u32_shr_is_div(value, shift);
}

} // verus!
