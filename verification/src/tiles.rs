use crate::model::{CodecError, MAX_FRAME_BYTES, PixelFormat, checked_area, half_up, half_up_u32, plane_dims};
use vstd::prelude::*;

verus! {

/// Largest number of tiles a stream may declare.
pub const MAX_TILES: usize = 1048576;

/// A rectangle of one plane that is coded independently.
#[derive(Clone, Copy, Debug, PartialEq, Eq, Structural)]
pub struct Tile {
    pub plane: usize,
    pub x: u32,
    pub y: u32,
    pub width: u32,
    pub height: u32,
}

pub open spec fn ceil_div(value: int, divisor: int) -> int {
    (value + divisor - 1) / divisor
}

pub open spec fn min(a: int, b: int) -> int {
    if a < b {
        a
    } else {
        b
    }
}

/// Tile `index` of the raster grid of one plane.
pub open spec fn grid_tile(
    plane: int,
    plane_width: int,
    plane_height: int,
    nominal_width: int,
    nominal_height: int,
    index: int,
) -> Tile {
    let columns = ceil_div(plane_width, nominal_width);
    let row = index / columns;
    let column = index % columns;
    let x = column * nominal_width;
    let y = row * nominal_height;
    Tile {
        plane: plane as usize,
        x: x as u32,
        y: y as u32,
        width: min(nominal_width, plane_width - x) as u32,
        height: min(nominal_height, plane_height - y) as u32,
    }
}

/// Number of grid tiles of one plane.
pub open spec fn grid_count(
    plane_width: int,
    plane_height: int,
    nominal_width: int,
    nominal_height: int,
) -> int {
    ceil_div(plane_height, nominal_height) * ceil_div(plane_width, nominal_width)
}

/// All tiles of one plane in raster order.
pub open spec fn plane_grid(
    plane: int,
    plane_width: int,
    plane_height: int,
    nominal_width: int,
    nominal_height: int,
) -> Seq<Tile> {
    Seq::new(
        grid_count(plane_width, plane_height, nominal_width, nominal_height) as nat,
        |index: int| grid_tile(plane, plane_width, plane_height, nominal_width, nominal_height, index),
    )
}

/// Nominal tile width of a plane: chroma tiles are half as wide as luma tiles.
pub open spec fn nominal_tile_width(plane: int, tile_width: u16) -> int {
    if plane == 0 {
        tile_width as int
    } else {
        half_up(tile_width as int)
    }
}

/// The tiles of the first `count` planes, plane by plane, each in raster order.
pub open spec fn tiles_upto(
    dims: Seq<(u32, u32)>,
    tile_width: u16,
    tile_height: u16,
    count: int,
) -> Seq<Tile>
    decreases count,
{
    if count <= 0 {
        Seq::empty()
    } else {
        tiles_upto(dims, tile_width, tile_height, count - 1) + plane_grid(
            count - 1,
            dims[count - 1].0 as int,
            dims[count - 1].1 as int,
            nominal_tile_width(count - 1, tile_width),
            tile_height as int,
        )
    }
}

/// The canonical tiling of a frame.
pub open spec fn spec_tiles(
    width: u32,
    height: u32,
    grayscale: bool,
    tile_width: u16,
    tile_height: u16,
) -> Seq<Tile> {
    let dims = plane_dims(width, height, grayscale);
    tiles_upto(dims, tile_width, tile_height, dims.len() as int)
}

/// A nonempty tile lying inside a `plane_width` by `plane_height` plane.
pub open spec fn tile_fits(tile: Tile, plane_width: int, plane_height: int) -> bool {
    &&& 1 <= tile.width
    &&& 1 <= tile.height
    &&& tile.x + tile.width <= plane_width
    &&& tile.y + tile.height <= plane_height
}

/// Every tile of the canonical tiling lies inside its plane.
pub open spec fn tiles_fit(tiles: Seq<Tile>, dims: Seq<(u32, u32)>) -> bool {
    forall|i: int|
        0 <= i < tiles.len() ==> {
            &&& #[trigger] tiles[i].plane < dims.len()
            &&& tile_fits(tiles[i], dims[tiles[i].plane as int].0 as int, dims[tiles[i].plane as int].1 as int)
        }
}

proof fn lemma_ceil_div(value: int, divisor: int)
    requires
        value >= 0,
        divisor >= 1,
    ensures
        0 <= ceil_div(value, divisor) <= value,
        value >= 1 ==> ceil_div(value, divisor) >= 1,
        forall|row: int| 0 <= row < ceil_div(value, divisor) ==> #[trigger] (row * divisor) < value,
{
    let c = ceil_div(value, divisor);
    assert(c * divisor <= value + divisor - 1 && value + divisor - 1 < c * divisor + divisor)
        by (nonlinear_arith)
        requires
            c == (value + divisor - 1) / divisor,
            divisor >= 1,
            value + divisor - 1 >= 0,
    ;
    assert(c <= value) by (nonlinear_arith)
        requires
            c * divisor <= value + divisor - 1,
            divisor >= 1,
            value >= 0,
            c >= 0,
    ;
    if value >= 1 {
        assert(c >= 1) by (nonlinear_arith)
            requires
                value + divisor - 1 < c * divisor + divisor,
                value >= 1,
                divisor >= 1,
        ;
    }
    assert forall|row: int| 0 <= row < c implies #[trigger] (row * divisor) < value by {
        assert(row * divisor <= (c - 1) * divisor) by (nonlinear_arith)
            requires
                row <= c - 1,
                divisor >= 1,
        ;
        assert((c - 1) * divisor == c * divisor - divisor) by (nonlinear_arith);
    }
}

proof fn lemma_grid_fits(
    plane: int,
    plane_width: int,
    plane_height: int,
    nominal_width: int,
    nominal_height: int,
)
    requires
        0 <= plane <= 2,
        1 <= plane_width <= u32::MAX,
        1 <= plane_height <= u32::MAX,
        1 <= nominal_width <= u32::MAX,
        1 <= nominal_height <= u32::MAX,
    ensures
        forall|i: int|
            0 <= i < grid_count(plane_width, plane_height, nominal_width, nominal_height) ==> {
                let t = #[trigger] grid_tile(
                    plane,
                    plane_width,
                    plane_height,
                    nominal_width,
                    nominal_height,
                    i,
                );
                &&& tile_fits(t, plane_width, plane_height)
                &&& t.plane == plane
                &&& t.width <= nominal_width
                &&& t.height <= nominal_height
            },
{
    lemma_ceil_div(plane_width, nominal_width);
    lemma_ceil_div(plane_height, nominal_height);
    let columns = ceil_div(plane_width, nominal_width);
    let rows = ceil_div(plane_height, nominal_height);
    assert forall|i: int| 0 <= i < rows * columns implies {
        let t = #[trigger] grid_tile(plane, plane_width, plane_height, nominal_width, nominal_height, i);
        &&& tile_fits(t, plane_width, plane_height)
        &&& t.plane == plane
        &&& t.width <= nominal_width
        &&& t.height <= nominal_height
    } by {
        let row = i / columns;
        let column = i % columns;
        assert(0 <= row < rows) by (nonlinear_arith)
            requires
                0 <= i < rows * columns,
                columns >= 1,
                row == i / columns,
        ;
        assert(0 <= column < columns);
        assert(column * nominal_width < plane_width);
        assert(row * nominal_height < plane_height);
        assert(column * nominal_width >= 0) by (nonlinear_arith)
            requires
                column >= 0,
                nominal_width >= 1,
        ;
        assert(row * nominal_height >= 0) by (nonlinear_arith)
            requires
                row >= 0,
                nominal_height >= 1,
        ;
        let t = grid_tile(plane, plane_width, plane_height, nominal_width, nominal_height, i);
        let x = column * nominal_width;
        let y = row * nominal_height;
        assert(t.x == x);
        assert(t.y == y);
        assert(t.width == min(nominal_width, plane_width - x));
        assert(t.height == min(nominal_height, plane_height - y));
    }
}

/// Samples covered by a tile.
pub open spec fn tile_area(tile: Tile) -> int {
    tile.width * tile.height
}

/// Samples covered by the first `count` tiles, counted with repetition.
pub open spec fn area_sum(tiles: Seq<Tile>, count: int) -> int
    decreases count,
{
    if count <= 0 {
        0
    } else {
        area_sum(tiles, count - 1) + tile_area(tiles[count - 1])
    }
}

proof fn lemma_area_sum_prefix(a: Seq<Tile>, b: Seq<Tile>, count: int)
    requires
        0 <= count <= a.len(),
    ensures
        area_sum(a + b, count) == area_sum(a, count),
    decreases count,
{
    if count > 0 {
        lemma_area_sum_prefix(a, b, count - 1);
        assert((a + b)[count - 1] == a[count - 1]);
    }
}

/// The area of a concatenation of tile sequences is the sum of their areas.
proof fn lemma_area_sum_concat(a: Seq<Tile>, b: Seq<Tile>, count: int)
    requires
        0 <= count <= b.len(),
    ensures
        area_sum(a + b, a.len() + count) == area_sum(a, a.len() as int) + area_sum(b, count),
    decreases count,
{
    if count == 0 {
        lemma_area_sum_prefix(a, b, a.len() as int);
    } else {
        lemma_area_sum_concat(a, b, count - 1);
        assert((a + b)[a.len() + count - 1] == b[count - 1]);
    }
}

/// The first `k` tiles of a plane grid: whole rows of tiles, then part of a row.
proof fn lemma_grid_area(
    plane: int,
    plane_width: int,
    plane_height: int,
    nominal_width: int,
    nominal_height: int,
    k: int,
)
    requires
        0 <= plane <= 2,
        1 <= plane_width <= u32::MAX,
        1 <= plane_height <= u32::MAX,
        1 <= nominal_width <= u32::MAX,
        1 <= nominal_height <= u32::MAX,
        0 <= k <= grid_count(plane_width, plane_height, nominal_width, nominal_height),
    ensures
        ({
            let columns = ceil_div(plane_width, nominal_width);
            let row = k / columns;
            let column = k % columns;
            area_sum(plane_grid(plane, plane_width, plane_height, nominal_width, nominal_height), k)
                == plane_width * min(row * nominal_height, plane_height) + min(
                nominal_height,
                plane_height - row * nominal_height,
            ) * min(column * nominal_width, plane_width)
        }),
    decreases k,
{
    let columns = ceil_div(plane_width, nominal_width);
    let rows = ceil_div(plane_height, nominal_height);
    lemma_ceil_div(plane_width, nominal_width);
    lemma_ceil_div(plane_height, nominal_height);
    let grid = plane_grid(plane, plane_width, plane_height, nominal_width, nominal_height);
    if k == 0 {
        assert(0int / columns == 0 && 0int % columns == 0);
        let m1 = min(0 * nominal_height, plane_height);
        let m2 = min(0 * nominal_width, plane_width);
        assert(m1 == 0 && m2 == 0);
        assert(plane_width * m1 == 0 && min(nominal_height, plane_height) * m2 == 0) by (nonlinear_arith)
            requires
                m1 == 0,
                m2 == 0,
        ;
    } else {
        let j = k - 1;
        lemma_grid_area(plane, plane_width, plane_height, nominal_width, nominal_height, j);
        vstd::arithmetic::div_mod::lemma_fundamental_div_mod(j, columns);
        let r = j / columns;
        let c = j % columns;
        assert(0 <= r < rows) by (nonlinear_arith)
            requires
                0 <= j < rows * columns,
                columns >= 1,
                r == j / columns,
        ;
        assert(0 <= c < columns);
        assert(c * nominal_width < plane_width);
        assert(r * nominal_height < plane_height);
        assert(c * nominal_width >= 0 && r * nominal_height >= 0) by (nonlinear_arith)
            requires
                c >= 0,
                r >= 0,
                nominal_width >= 1,
                nominal_height >= 1,
        ;
        assert(grid_count(plane_width, plane_height, nominal_width, nominal_height) == rows * columns);
        let t = grid[j];
        assert(t == grid_tile(plane, plane_width, plane_height, nominal_width, nominal_height, j));
        let w = min(nominal_width, plane_width - c * nominal_width);
        let h = min(nominal_height, plane_height - r * nominal_height);
        assert(t.width == w && t.height == h);
        assert(area_sum(grid, k) == area_sum(grid, j) + w * h);
        let before_row = plane_width * min(r * nominal_height, plane_height);
        assert(min(r * nominal_height, plane_height) == r * nominal_height);
        if c + 1 < columns {
            assert(k == r * columns + (c + 1)) by (nonlinear_arith)
                requires
                    j == columns * r + c,
                    k == j + 1,
            ;
            vstd::arithmetic::div_mod::lemma_fundamental_div_mod_converse(k, columns, r, c + 1);
            assert((c + 1) * nominal_width == c * nominal_width + nominal_width) by (nonlinear_arith);
            assert(min(c * nominal_width, plane_width) == c * nominal_width);
            assert(min(c * nominal_width, plane_width) + w == min((c + 1) * nominal_width, plane_width));
            assert(h * min(c * nominal_width, plane_width) + w * h == h * min((c + 1) * nominal_width, plane_width))
                by (nonlinear_arith)
                requires
                    min(c * nominal_width, plane_width) + w == min((c + 1) * nominal_width, plane_width),
            ;
        } else {
            assert(c == columns - 1);
            assert(k == (r + 1) * columns + 0) by (nonlinear_arith)
                requires
                    j == columns * r + c,
                    c == columns - 1,
                    k == j + 1,
            ;
            vstd::arithmetic::div_mod::lemma_fundamental_div_mod_converse(k, columns, r + 1, 0);
            assert(columns * nominal_width >= plane_width) by (nonlinear_arith)
                requires
                    columns == (plane_width + nominal_width - 1) / nominal_width,
                    nominal_width >= 1,
            ;
            assert(c * nominal_width + nominal_width == columns * nominal_width) by (nonlinear_arith)
                requires
                    c == columns - 1,
            ;
            assert(min(c * nominal_width, plane_width) + w == plane_width);
            assert((r + 1) * nominal_height == r * nominal_height + nominal_height) by (nonlinear_arith);
            assert(min(r * nominal_height, plane_height) + h == min((r + 1) * nominal_height, plane_height));
            assert(plane_width * min(r * nominal_height, plane_height) + h * min(c * nominal_width, plane_width)
                + w * h == plane_width * min((r + 1) * nominal_height, plane_height)) by (nonlinear_arith)
                requires
                    min(c * nominal_width, plane_width) + w == plane_width,
                    min(r * nominal_height, plane_height) + h == min((r + 1) * nominal_height, plane_height),
            ;
            let m2 = min(0 * nominal_width, plane_width);
            assert(m2 == 0);
            assert(min(nominal_height, plane_height - (r + 1) * nominal_height) * m2 == 0) by (nonlinear_arith)
                requires
                    m2 == 0,
            ;
        }
    }
}

/// The tiles of a plane grid cover the plane's samples once each.
proof fn lemma_grid_total_area(
    plane: int,
    plane_width: int,
    plane_height: int,
    nominal_width: int,
    nominal_height: int,
)
    requires
        0 <= plane <= 2,
        1 <= plane_width <= u32::MAX,
        1 <= plane_height <= u32::MAX,
        1 <= nominal_width <= u32::MAX,
        1 <= nominal_height <= u32::MAX,
    ensures
        area_sum(
            plane_grid(plane, plane_width, plane_height, nominal_width, nominal_height),
            grid_count(plane_width, plane_height, nominal_width, nominal_height),
        ) == plane_width * plane_height,
{
    let columns = ceil_div(plane_width, nominal_width);
    let rows = ceil_div(plane_height, nominal_height);
    lemma_ceil_div(plane_width, nominal_width);
    lemma_ceil_div(plane_height, nominal_height);
    let k = grid_count(plane_width, plane_height, nominal_width, nominal_height);
    lemma_grid_area(plane, plane_width, plane_height, nominal_width, nominal_height, k);
    assert(k == rows * columns + 0);
    vstd::arithmetic::div_mod::lemma_fundamental_div_mod_converse(k, columns, rows, 0);
    assert(rows * nominal_height >= plane_height) by (nonlinear_arith)
        requires
            rows == (plane_height + nominal_height - 1) / nominal_height,
            nominal_height >= 1,
    ;
    let m2 = min(0 * nominal_width, plane_width);
    assert(m2 == 0);
    assert(min(nominal_height, plane_height - rows * nominal_height) * m2 == 0) by (nonlinear_arith)
        requires
            m2 == 0,
    ;
}

proof fn lemma_tiles_upto_area(dims: Seq<(u32, u32)>, tile_width: u16, tile_height: u16, count: int)
    requires
        0 <= count <= dims.len(),
        dims.len() <= 3,
        forall|i: int| 0 <= i < dims.len() ==> #[trigger] dims[i].0 >= 1 && dims[i].1 >= 1,
        tile_width >= 1,
        tile_height >= 1,
    ensures
        area_sum(tiles_upto(dims, tile_width, tile_height, count), tiles_upto(dims, tile_width, tile_height, count).len() as int)
            == crate::model::partial_area(dims, count),
    decreases count,
{
    if count > 0 {
        let p = count - 1;
        lemma_tiles_upto_area(dims, tile_width, tile_height, p);
        let prefix = tiles_upto(dims, tile_width, tile_height, p);
        let nominal = nominal_tile_width(p, tile_width);
        assert(dims[p].0 >= 1 && dims[p].1 >= 1);
        assert(1 <= nominal <= u32::MAX) by {
            if p > 0 {
                assert(half_up(tile_width as int) >= 1);
            }
        }
        let grid = plane_grid(p, dims[p].0 as int, dims[p].1 as int, nominal, tile_height as int);
        lemma_grid_total_area(p, dims[p].0 as int, dims[p].1 as int, nominal, tile_height as int);
        lemma_area_sum_concat(prefix, grid, grid.len() as int);
        assert(tiles_upto(dims, tile_width, tile_height, count) == prefix + grid);
    }
}

/// The tiles of the canonical tiling cover the frame's samples once each, and there
/// are no more tiles than samples.
pub proof fn lemma_spec_tiles_area(width: u32, height: u32, grayscale: bool, tile_width: u16, tile_height: u16)
    requires
        width >= 1,
        height >= 1,
        tile_width >= 1,
        tile_height >= 1,
    ensures
        area_sum(
            spec_tiles(width, height, grayscale, tile_width, tile_height),
            spec_tiles(width, height, grayscale, tile_width, tile_height).len() as int,
        ) == crate::model::frame_samples(width, height, grayscale),
        spec_tiles(width, height, grayscale, tile_width, tile_height).len() <= crate::model::frame_samples(
            width,
            height,
            grayscale,
        ),
{
    let dims = plane_dims(width, height, grayscale);
    let tiles = spec_tiles(width, height, grayscale, tile_width, tile_height);
    assert(half_up(width as int) >= 1);
    lemma_tiles_upto_area(dims, tile_width, tile_height, dims.len() as int);
    crate::model::lemma_frame_samples_is_partial_area(width, height, grayscale);
    lemma_spec_tiles_fit(width, height, grayscale, tile_width, tile_height);
    lemma_area_sum_at_least_count(tiles, dims, tiles.len() as int);
}

proof fn lemma_area_sum_at_least_count(tiles: Seq<Tile>, dims: Seq<(u32, u32)>, count: int)
    requires
        0 <= count <= tiles.len(),
        tiles_fit(tiles, dims),
    ensures
        area_sum(tiles, count) >= count,
    decreases count,
{
    if count > 0 {
        lemma_area_sum_at_least_count(tiles, dims, count - 1);
        let t = tiles[count - 1];
        assert(tiles[count - 1].plane < dims.len());
        assert(t.width >= 1 && t.height >= 1);
        assert(tile_area(t) >= 1) by (nonlinear_arith)
            requires
                t.width >= 1,
                t.height >= 1,
        ;
    }
}

/// Plane dimensions as a vector, in plane order.
pub fn plane_dimensions(width: u32, height: u32, format: PixelFormat) -> (dims: Vec<(u32, u32)>)
    ensures
        dims@ == plane_dims(width, height, format.spec_is_grayscale()),
{
    let mut dims = Vec::new();
    dims.push((width, height));
    if !format.is_grayscale() {
        let chroma = half_up_u32(width);
        dims.push((chroma, height));
        dims.push((chroma, height));
    }
    proof {
        assert(dims@ =~= plane_dims(width, height, format.spec_is_grayscale()));
    }
    dims
}

fn div_ceil_u32(value: u32, divisor: u32) -> (r: u32)
    requires
        divisor >= 1,
    ensures
        r == ceil_div(value as int, divisor as int),
{
    let quotient = value / divisor;
    proof {
        assert(ceil_div(value as int, divisor as int) == if value % divisor == 0 {
            quotient as int
        } else {
            quotient + 1
        }) by (nonlinear_arith)
            requires
                divisor >= 1,
                quotient == value / divisor,
        ;
    }
    if value % divisor == 0 {
        quotient
    } else {
        proof {
            assert(quotient < u32::MAX) by (nonlinear_arith)
                requires
                    divisor >= 1,
                    quotient == value / divisor,
                    value % divisor != 0,
                    value <= u32::MAX,
            ;
        }
        quotient + 1
    }
}

/// Whether the canonical tiling is within the limits that `expected_tiles` enforces.
pub open spec fn tiling_ok(
    width: u32,
    height: u32,
    grayscale: bool,
    tile_width: u16,
    tile_height: u16,
    limit_tiles: bool,
) -> bool {
    let dims = plane_dims(width, height, grayscale);
    &&& forall|i: int| 0 <= i < dims.len() ==> #[trigger] dims[i].0 * dims[i].1 <= MAX_FRAME_BYTES
    &&& limit_tiles ==> spec_tiles(width, height, grayscale, tile_width, tile_height).len()
        <= MAX_TILES
}

/// The canonical tiling: each plane is cut into a raster grid of nominal tiles,
/// chroma tiles being half as wide; edge tiles are cropped to the plane.
/// With `limit_tiles`, more than `MAX_TILES` tiles are refused.
pub fn expected_tiles(
    width: u32,
    height: u32,
    format: PixelFormat,
    tile_width: u16,
    tile_height: u16,
    limit_tiles: bool,
) -> (r: Result<Vec<Tile>, CodecError>)
    requires
        tile_width >= 1,
        tile_height >= 1,
    ensures
        r matches Ok(tiles) ==> tiles@ == spec_tiles(
            width,
            height,
            format.spec_is_grayscale(),
            tile_width,
            tile_height,
        ),
        r is Ok <==> tiling_ok(
            width,
            height,
            format.spec_is_grayscale(),
            tile_width,
            tile_height,
            limit_tiles,
        ),
        r is Err ==> r matches Err(CodecError::LimitExceeded(_)),
{
    let dims = plane_dimensions(width, height, format);
    let ghost grayscale = format.spec_is_grayscale();
    let mut tiles: Vec<Tile> = Vec::new();
    let mut plane: usize = 0;
    while plane < dims.len()
        invariant
            dims@ == plane_dims(width, height, grayscale),
            grayscale == format.spec_is_grayscale(),
            tile_width >= 1,
            tile_height >= 1,
            plane <= dims.len(),
            tiles@ == tiles_upto(dims@, tile_width, tile_height, plane as int),
            forall|i: int| 0 <= i < plane ==> #[trigger] dims@[i].0 * dims@[i].1 <= MAX_FRAME_BYTES,
            limit_tiles ==> tiles.len() <= MAX_TILES,
            tiles.len() <= MAX_FRAME_BYTES * plane,
        decreases dims.len() - plane,
    {
        let (plane_width, plane_height) = dims[plane];
        let area = match checked_area(plane_width, plane_height) {
            Ok(area) => area,
            Err(error) => {
                return Err(error);
            },
        };
        let nominal_width: u32 = if plane == 0 {
            tile_width as u32
        } else {
            half_up_u32(tile_width as u32)
        };
        let nominal_height = tile_height as u32;
        let columns = div_ceil_u32(plane_width, nominal_width);
        let rows = div_ceil_u32(plane_height, nominal_height);
        proof {
            lemma_ceil_div(plane_width as int, nominal_width as int);
            lemma_ceil_div(plane_height as int, nominal_height as int);
            assert(rows * columns <= plane_height * plane_width) by (nonlinear_arith)
                requires
                    0 <= rows <= plane_height,
                    0 <= columns <= plane_width,
            ;
            assert(plane_height * plane_width == plane_width * plane_height) by (nonlinear_arith);
        }
        let count = rows as usize * columns as usize;
        if limit_tiles && count > MAX_TILES - tiles.len() {
            proof {
                lemma_tiles_upto_len_monotone(dims@, tile_width, tile_height, plane as int + 1);
                assert(tiles_upto(dims@, tile_width, tile_height, plane as int + 1).len()
                    == tiles.len() + count);
            }
            return Err(CodecError::LimitExceeded("too many tiles"));
        }
        let ghost base = tiles@;
        let ghost grid = plane_grid(
            plane as int,
            plane_width as int,
            plane_height as int,
            nominal_width as int,
            nominal_height as int,
        );
        let mut row: u32 = 0;
        while row < rows
            invariant
                base == tiles_upto(dims@, tile_width, tile_height, plane as int),
                grid == plane_grid(
                    plane as int,
                    plane_width as int,
                    plane_height as int,
                    nominal_width as int,
                    nominal_height as int,
                ),
                columns == ceil_div(plane_width as int, nominal_width as int),
                rows == ceil_div(plane_height as int, nominal_height as int),
                nominal_width >= 1,
                nominal_height >= 1,
                row <= rows,
                tiles@ == base + grid.take(row * columns),
                rows * columns <= plane_height * plane_width,
                plane_width * plane_height <= MAX_FRAME_BYTES,
                forall|r: int| 0 <= r < rows ==> #[trigger] (r * nominal_height) < plane_height,
                forall|c: int| 0 <= c < columns ==> #[trigger] (c * nominal_width) < plane_width,
            decreases rows - row,
        {
            proof {
                assert(row * nominal_height < plane_height);
            }
            let y = row * nominal_height;
            let mut column: u32 = 0;
            while column < columns
                invariant
                    grid == plane_grid(
                        plane as int,
                        plane_width as int,
                        plane_height as int,
                        nominal_width as int,
                        nominal_height as int,
                    ),
                    columns == ceil_div(plane_width as int, nominal_width as int),
                    rows == ceil_div(plane_height as int, nominal_height as int),
                    nominal_width >= 1,
                    nominal_height >= 1,
                    row < rows,
                    column <= columns,
                    y == row * nominal_height,
                    y < plane_height,
                    tiles@ == base + grid.take(row * columns + column),
                    rows * columns <= plane_height * plane_width,
                    forall|c: int| 0 <= c < columns ==> #[trigger] (c * nominal_width) < plane_width,
                decreases columns - column,
            {
                proof {
                    assert(column * nominal_width < plane_width);
                }
                let x = column * nominal_width;
                let tile_w = if nominal_width < plane_width - x {
                    nominal_width
                } else {
                    plane_width - x
                };
                let tile_h = if nominal_height < plane_height - y {
                    nominal_height
                } else {
                    plane_height - y
                };
                let tile = Tile { plane, x, y, width: tile_w, height: tile_h };
                proof {
                    let k = row * columns + column;
                    assert(k < rows * columns) by (nonlinear_arith)
                        requires
                            row < rows,
                            column < columns,
                            k == row * columns + column,
                    ;
                    vstd::arithmetic::div_mod::lemma_fundamental_div_mod_converse(
                        k,
                        columns as int,
                        row as int,
                        column as int,
                    );
                    assert(grid[k] == tile);
                    assert(grid.take(k + 1) =~= grid.take(k).push(tile));
                }
                tiles.push(tile);
                column = column + 1;
            }
            proof {
                assert((row + 1) * columns == row * columns + columns) by (nonlinear_arith);
            }
            row = row + 1;
        }
        proof {
            assert(grid.take(rows * columns) =~= grid);
            assert(tiles@ == tiles_upto(dims@, tile_width, tile_height, plane as int + 1));
            assert(tiles.len() <= MAX_FRAME_BYTES * (plane + 1)) by (nonlinear_arith)
                requires
                    tiles.len() == base.len() + rows * columns,
                    base.len() <= MAX_FRAME_BYTES * plane,
                    rows * columns <= MAX_FRAME_BYTES,
            ;
        }
        plane = plane + 1;
    }
    proof {
        assert(tiling_ok(width, height, grayscale, tile_width, tile_height, limit_tiles));
    }
    Ok(tiles)
}

proof fn lemma_tiles_upto_len_monotone(
    dims: Seq<(u32, u32)>,
    tile_width: u16,
    tile_height: u16,
    count: int,
)
    requires
        0 <= count <= dims.len(),
    ensures
        forall|later: int|
            count <= later <= dims.len() ==> tiles_upto(dims, tile_width, tile_height, count).len()
                <= #[trigger] tiles_upto(dims, tile_width, tile_height, later).len(),
    decreases dims.len() - count,
{
    if count < dims.len() {
        lemma_tiles_upto_len_monotone(dims, tile_width, tile_height, count + 1);
    }
}

/// Every tile of the canonical tiling of a frame with nonzero dimensions lies inside its plane.
pub proof fn lemma_spec_tiles_fit(
    width: u32,
    height: u32,
    grayscale: bool,
    tile_width: u16,
    tile_height: u16,
)
    requires
        width >= 1,
        height >= 1,
        tile_width >= 1,
        tile_height >= 1,
    ensures
        tiles_fit(
            spec_tiles(width, height, grayscale, tile_width, tile_height),
            plane_dims(width, height, grayscale),
        ),
{
    let dims = plane_dims(width, height, grayscale);
    lemma_tiles_upto_fit(dims, tile_width, tile_height, dims.len() as int, height);
}

proof fn lemma_tiles_upto_fit(
    dims: Seq<(u32, u32)>,
    tile_width: u16,
    tile_height: u16,
    count: int,
    height: u32,
)
    requires
        0 <= count <= dims.len(),
        dims.len() <= 3,
        forall|i: int| 0 <= i < dims.len() ==> #[trigger] dims[i].0 >= 1 && dims[i].1 >= 1,
        tile_width >= 1,
        tile_height >= 1,
    ensures
        tiles_fit(tiles_upto(dims, tile_width, tile_height, count), dims),
    decreases count,
{
    if count > 0 {
        lemma_tiles_upto_fit(dims, tile_width, tile_height, count - 1, height);
        let p = count - 1;
        let nominal = nominal_tile_width(p, tile_width);
        assert(dims[p].0 >= 1 && dims[p].1 >= 1);
        lemma_grid_fits(p, dims[p].0 as int, dims[p].1 as int, nominal, tile_height as int);
        let prefix = tiles_upto(dims, tile_width, tile_height, p);
        let grid = plane_grid(p, dims[p].0 as int, dims[p].1 as int, nominal, tile_height as int);
        let all = tiles_upto(dims, tile_width, tile_height, count);
        assert(all == prefix + grid);
        assert forall|i: int| 0 <= i < all.len() implies {
            &&& #[trigger] all[i].plane < dims.len()
            &&& tile_fits(all[i], dims[all[i].plane as int].0 as int, dims[all[i].plane as int].1 as int)
        } by {
            if i >= prefix.len() {
                assert(all[i] == grid[i - prefix.len()]);
            } else {
                assert(all[i] == prefix[i]);
            }
        }
    }
}

/// Tile `tile` covers the point at column `x` and row `y` of its plane.
pub open spec fn covers(tile: Tile, x: int, y: int) -> bool {
    &&& tile.x <= x < tile.x + tile.width
    &&& tile.y <= y < tile.y + tile.height
}

/// A point of a plane lies in exactly one tile of the plane's grid: the tile in its
/// row and column of tiles.
proof fn lemma_grid_point(
    plane: int,
    plane_width: int,
    plane_height: int,
    nominal_width: int,
    nominal_height: int,
    x: int,
    y: int,
)
    requires
        0 <= plane <= 2,
        1 <= plane_width <= u32::MAX,
        1 <= plane_height <= u32::MAX,
        1 <= nominal_width <= u32::MAX,
        1 <= nominal_height <= u32::MAX,
        0 <= x < plane_width,
        0 <= y < plane_height,
    ensures
        ({
            let local = (y / nominal_height) * ceil_div(plane_width, nominal_width) + x / nominal_width;
            &&& 0 <= local < grid_count(plane_width, plane_height, nominal_width, nominal_height)
            &&& covers(grid_tile(plane, plane_width, plane_height, nominal_width, nominal_height, local), x, y)
            &&& forall|other: int|
                0 <= other < grid_count(plane_width, plane_height, nominal_width, nominal_height) && covers(
                    #[trigger] grid_tile(plane, plane_width, plane_height, nominal_width, nominal_height, other),
                    x,
                    y,
                ) ==> other == local
        }),
{
    lemma_ceil_div(plane_width, nominal_width);
    lemma_ceil_div(plane_height, nominal_height);
    lemma_grid_fits(plane, plane_width, plane_height, nominal_width, nominal_height);
    let columns = ceil_div(plane_width, nominal_width);
    let rows = ceil_div(plane_height, nominal_height);
    let c = x / nominal_width;
    let r = y / nominal_height;
    let local = r * columns + c;
    assert(columns * nominal_width >= plane_width && rows * nominal_height >= plane_height) by (nonlinear_arith)
        requires
            columns == (plane_width + nominal_width - 1) / nominal_width,
            rows == (plane_height + nominal_height - 1) / nominal_height,
            nominal_width >= 1,
            nominal_height >= 1,
    ;
    assert(0 <= c < columns && c * nominal_width <= x < c * nominal_width + nominal_width) by (nonlinear_arith)
        requires
            c == x / nominal_width,
            0 <= x < plane_width,
            nominal_width >= 1,
            columns * nominal_width >= plane_width,
    ;
    assert(0 <= r < rows && r * nominal_height <= y < r * nominal_height + nominal_height) by (nonlinear_arith)
        requires
            r == y / nominal_height,
            0 <= y < plane_height,
            nominal_height >= 1,
            rows * nominal_height >= plane_height,
    ;
    assert(0 <= local < rows * columns) by (nonlinear_arith)
        requires
            local == r * columns + c,
            0 <= r < rows,
            0 <= c < columns,
    ;
    crate::tile_coding::lemma_raster_position(r, c, columns);
    let t = grid_tile(plane, plane_width, plane_height, nominal_width, nominal_height, local);
    assert(t.x == c * nominal_width);
    assert(t.y == r * nominal_height);
    assert(covers(t, x, y));
    assert forall|other: int|
        0 <= other < grid_count(plane_width, plane_height, nominal_width, nominal_height) && covers(
            #[trigger] grid_tile(plane, plane_width, plane_height, nominal_width, nominal_height, other),
            x,
            y,
        ) implies other == local by {
        let u = grid_tile(plane, plane_width, plane_height, nominal_width, nominal_height, other);
        let oc = other % columns;
        let orow = other / columns;
        assert(0 <= orow < rows) by (nonlinear_arith)
            requires
                0 <= other < rows * columns,
                columns >= 1,
                orow == other / columns,
        ;
        assert(0 <= oc < columns);
        assert(oc * nominal_width < plane_width);
        assert(orow * nominal_height < plane_height);
        assert(oc * nominal_width >= 0 && orow * nominal_height >= 0) by (nonlinear_arith)
            requires
                oc >= 0,
                orow >= 0,
                nominal_width >= 1,
                nominal_height >= 1,
        ;
        assert(u.x == oc * nominal_width);
        assert(u.y == orow * nominal_height);
        assert(oc == c) by (nonlinear_arith)
            requires
                oc * nominal_width <= x < oc * nominal_width + nominal_width,
                c * nominal_width <= x < c * nominal_width + nominal_width,
                nominal_width >= 1,
        ;
        assert(orow == r) by (nonlinear_arith)
            requires
                orow * nominal_height <= y < orow * nominal_height + nominal_height,
                r * nominal_height <= y < r * nominal_height + nominal_height,
                nominal_height >= 1,
        ;
        assert(other == orow * columns + oc) by (nonlinear_arith)
            requires
                columns >= 1,
                orow == other / columns,
                oc == other % columns,
        ;
    }
}

/// Plane-grid tile `local` of plane `plane` is tile `tiles_upto(.., plane).len() + local`.
proof fn lemma_tiles_upto_grid(
    dims: Seq<(u32, u32)>,
    tile_width: u16,
    tile_height: u16,
    count: int,
    plane: int,
    local: int,
)
    requires
        0 <= plane < count <= dims.len(),
        0 <= local < grid_count(
            dims[plane].0 as int,
            dims[plane].1 as int,
            nominal_tile_width(plane, tile_width),
            tile_height as int,
        ),
    ensures
        tiles_upto(dims, tile_width, tile_height, plane).len() + local < tiles_upto(
            dims,
            tile_width,
            tile_height,
            count,
        ).len(),
        tiles_upto(dims, tile_width, tile_height, count)[tiles_upto(dims, tile_width, tile_height, plane).len()
            + local] == grid_tile(
            plane,
            dims[plane].0 as int,
            dims[plane].1 as int,
            nominal_tile_width(plane, tile_width),
            tile_height as int,
            local,
        ),
    decreases count,
{
    let prefix = tiles_upto(dims, tile_width, tile_height, count - 1);
    let grid = plane_grid(
        count - 1,
        dims[count - 1].0 as int,
        dims[count - 1].1 as int,
        nominal_tile_width(count - 1, tile_width),
        tile_height as int,
    );
    assert(tiles_upto(dims, tile_width, tile_height, count) == prefix + grid);
    if plane < count - 1 {
        lemma_tiles_upto_grid(dims, tile_width, tile_height, count - 1, plane, local);
    }
}

/// Tile `index` of `tiles_upto(.., count)` is a grid tile of its plane, at its local
/// position in that plane's grid.
proof fn lemma_tiles_upto_member(
    dims: Seq<(u32, u32)>,
    tile_width: u16,
    tile_height: u16,
    count: int,
    index: int,
) -> (local: int)
    requires
        0 <= count <= dims.len(),
        dims.len() <= 3,
        tile_width >= 1,
        tile_height >= 1,
        0 <= index < tiles_upto(dims, tile_width, tile_height, count).len(),
    ensures
        ({
            let plane = tiles_upto(dims, tile_width, tile_height, count)[index].plane as int;
            &&& 0 <= plane < count
            &&& index == tiles_upto(dims, tile_width, tile_height, plane).len() + local
            &&& 0 <= local < grid_count(
                dims[plane].0 as int,
                dims[plane].1 as int,
                nominal_tile_width(plane, tile_width),
                tile_height as int,
            )
            &&& tiles_upto(dims, tile_width, tile_height, count)[index] == grid_tile(
                plane,
                dims[plane].0 as int,
                dims[plane].1 as int,
                nominal_tile_width(plane, tile_width),
                tile_height as int,
                local,
            )
        }),
    decreases count,
{
    let prefix = tiles_upto(dims, tile_width, tile_height, count - 1);
    let grid = plane_grid(
        count - 1,
        dims[count - 1].0 as int,
        dims[count - 1].1 as int,
        nominal_tile_width(count - 1, tile_width),
        tile_height as int,
    );
    assert(tiles_upto(dims, tile_width, tile_height, count) == prefix + grid);
    if index < prefix.len() {
        let local = lemma_tiles_upto_member(dims, tile_width, tile_height, count - 1, index);
        assert(tiles_upto(dims, tile_width, tile_height, count)[index] == prefix[index]);
        local
    } else {
        let local = index - prefix.len();
        let nominal = nominal_tile_width(count - 1, tile_width);
        lemma_ceil_div(dims[count - 1].0 as int, nominal);
        lemma_ceil_div(dims[count - 1].1 as int, tile_height as int);
        let columns = ceil_div(dims[count - 1].0 as int, nominal);
        let rows = ceil_div(dims[count - 1].1 as int, tile_height as int);
        assert(rows * columns >= 0) by (nonlinear_arith)
            requires
                rows >= 0,
                columns >= 0,
        ;
        assert(tiles_upto(dims, tile_width, tile_height, count)[index] == grid[local]);
        assert(grid[local] == grid_tile(
            count - 1,
            dims[count - 1].0 as int,
            dims[count - 1].1 as int,
            nominal_tile_width(count - 1, tile_width),
            tile_height as int,
            local,
        ));
        local
    }
}

/// Distinct tiles of the canonical tiling of one plane share no point.
pub proof fn lemma_spec_tiles_disjoint(
    width: u32,
    height: u32,
    grayscale: bool,
    tile_width: u16,
    tile_height: u16,
    first: int,
    second: int,
    x: int,
    y: int,
)
    requires
        width >= 1,
        height >= 1,
        tile_width >= 1,
        tile_height >= 1,
        0 <= first < spec_tiles(width, height, grayscale, tile_width, tile_height).len(),
        0 <= second < spec_tiles(width, height, grayscale, tile_width, tile_height).len(),
        first != second,
        spec_tiles(width, height, grayscale, tile_width, tile_height)[first].plane == spec_tiles(
            width,
            height,
            grayscale,
            tile_width,
            tile_height,
        )[second].plane,
    ensures
        !(covers(spec_tiles(width, height, grayscale, tile_width, tile_height)[first], x, y) && covers(
            spec_tiles(width, height, grayscale, tile_width, tile_height)[second],
            x,
            y,
        )),
{
    let dims = plane_dims(width, height, grayscale);
    let tiles = spec_tiles(width, height, grayscale, tile_width, tile_height);
    let count = dims.len() as int;
    let a = lemma_tiles_upto_member(dims, tile_width, tile_height, count, first);
    let b = lemma_tiles_upto_member(dims, tile_width, tile_height, count, second);
    let plane = tiles[first].plane as int;
    if covers(tiles[first], x, y) && covers(tiles[second], x, y) {
        let nominal = nominal_tile_width(plane, tile_width);
        let pw = dims[plane].0 as int;
        let ph = dims[plane].1 as int;
        assert(pw >= 1 && ph >= 1);
        assert(nominal >= 1);
        lemma_grid_fits(plane, pw, ph, nominal, tile_height as int);
        let t = grid_tile(plane, pw, ph, nominal, tile_height as int, a);
        assert(tile_fits(t, pw, ph));
        lemma_grid_point(plane, pw, ph, nominal, tile_height as int, x, y);
        assert(a == b);
    }
}

/// Every point of every plane lies in a tile of the canonical tiling; returns its index.
pub proof fn lemma_spec_tiles_cover(
    width: u32,
    height: u32,
    grayscale: bool,
    tile_width: u16,
    tile_height: u16,
    plane: int,
    x: int,
    y: int,
) -> (index: int)
    requires
        width >= 1,
        height >= 1,
        tile_width >= 1,
        tile_height >= 1,
        0 <= plane < plane_dims(width, height, grayscale).len(),
        0 <= x < plane_dims(width, height, grayscale)[plane].0,
        0 <= y < plane_dims(width, height, grayscale)[plane].1,
    ensures
        0 <= index < spec_tiles(width, height, grayscale, tile_width, tile_height).len(),
        spec_tiles(width, height, grayscale, tile_width, tile_height)[index].plane == plane,
        covers(spec_tiles(width, height, grayscale, tile_width, tile_height)[index], x, y),
{
    let dims = plane_dims(width, height, grayscale);
    let nominal = nominal_tile_width(plane, tile_width);
    let pw = dims[plane].0 as int;
    let ph = dims[plane].1 as int;
    assert(nominal >= 1);
    lemma_grid_point(plane, pw, ph, nominal, tile_height as int, x, y);
    let local = (y / (tile_height as int)) * ceil_div(pw, nominal) + x / nominal;
    lemma_tiles_upto_grid(dims, tile_width, tile_height, dims.len() as int, plane, local);
    lemma_grid_fits(plane, pw, ph, nominal, tile_height as int);
    tiles_upto(dims, tile_width, tile_height, plane).len() + local
}

} // verus!
