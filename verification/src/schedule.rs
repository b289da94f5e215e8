//! Work division: which rows each worker renders, and in what order a
//! worker walks the pixels of its band.
//!
//! The image is cut into contiguous horizontal bands, one per worker. Every
//! band but the last has `height / workers` rows; the last also takes the
//! rows that the division leaves over.
use vstd::prelude::*;
use vstd::arithmetic::div_mod::{
    lemma_div_pos_is_pos,
    lemma_fundamental_div_mod,
    lemma_fundamental_div_mod_converse,
    lemma_mod_pos_bound,
};
use vstd::arithmetic::mul::{
    lemma_mul_basics,
    lemma_mul_inequality,
    lemma_mul_is_commutative,
    lemma_mul_is_distributive_add_other_way,
    lemma_mul_nonnegative,
};

verus! {

/// `(i + 1) * step` is one step past `i * step`.
proof fn lemma_next_multiple(i: int, step: int)
    ensures
        (i + 1) * step == i * step + step,
{
    lemma_mul_is_distributive_add_other_way(step, i, 1);
    lemma_mul_basics(step);
}

/// Rows in every band but the last.
pub open spec fn band_height(height: int, workers: int) -> int {
    height / workers
}

/// First row of band `i`.
pub open spec fn band_start(height: int, workers: int, i: int) -> int {
    i * band_height(height, workers)
}

/// One past the last row of band `i`.
pub open spec fn band_end(height: int, workers: int, i: int) -> int {
    if i == workers - 1 {
        height
    } else {
        (i + 1) * band_height(height, workers)
    }
}

/// Whether band `i` holds `row`.
pub open spec fn in_band(height: int, workers: int, i: int, row: int) -> bool {
    band_start(height, workers, i) <= row < band_end(height, workers, i)
}

/// The band that owns `row`.
pub open spec fn band_of(height: int, workers: int, row: int) -> int {
    let rows = band_height(height, workers);
    if rows == 0 || row / rows >= workers {
        workers - 1
    } else {
        row / rows
    }
}

/// Whether `bands` is the division of `height` rows among its workers.
pub open spec fn is_partition(bands: Seq<(usize, usize)>, height: int) -> bool {
    forall|i: int|
        0 <= i < bands.len() ==> {
            &&& (#[trigger] bands[i]).0 == band_start(height, bands.len() as int, i)
            &&& bands[i].1 == band_end(height, bands.len() as int, i)
        }
}

/// A multiple of the band height up to the `workers`-th stays inside the image.
pub proof fn lemma_band_bounds(height: int, workers: int, i: int)
    requires
        0 <= height,
        0 < workers,
        0 <= i <= workers,
    ensures
        0 <= height / workers,
        0 <= i * (height / workers) <= height,
        i < workers ==> (i + 1) * (height / workers) <= height,
        i * (height / workers) <= (i + 1) * (height / workers),
{
    let rows = height / workers;
    lemma_div_pos_is_pos(height, workers);
    lemma_fundamental_div_mod(height, workers);
    lemma_mod_pos_bound(height, workers);
    lemma_mul_is_commutative(workers, rows);
    lemma_mul_nonnegative(i, rows);
    lemma_mul_inequality(i, workers, rows);
    lemma_next_multiple(i, rows);
    if i < workers {
        lemma_mul_inequality(i + 1, workers, rows);
    }
}

/// Dividing by a positive band height places a row in one band only.
proof fn lemma_quotient(row: int, rows: int, i: int)
    requires
        0 < rows,
        0 <= row,
    ensures
        0 <= row / rows,
        (row / rows) * rows <= row < (row / rows + 1) * rows,
        i * rows <= row < (i + 1) * rows ==> i == row / rows,
{
    let q = row / rows;
    lemma_div_pos_is_pos(row, rows);
    lemma_fundamental_div_mod(row, rows);
    lemma_mod_pos_bound(row, rows);
    lemma_mul_is_commutative(rows, q);
    lemma_next_multiple(q, rows);
    lemma_next_multiple(i, rows);
    if i * rows <= row < (i + 1) * rows {
        lemma_fundamental_div_mod_converse(row, rows, i, row - i * rows);
    }
}

/// Multiples of a non-negative band height grow with their index.
proof fn lemma_multiples_ordered(rows: int, i: int, j: int)
    requires
        0 <= rows,
        i <= j,
    ensures
        i * rows <= j * rows,
{
    lemma_mul_inequality(i, j, rows);
}

/// The bands tile the image: the first starts at row 0, each ends where
/// the next starts, the last ends at the image's last row, and none has a
/// negative extent.
pub proof fn lemma_bands_tile(height: int, workers: int, i: int)
    requires
        0 <= height,
        0 < workers,
        0 <= i < workers,
    ensures
        band_start(height, workers, 0) == 0,
        band_end(height, workers, workers - 1) == height,
        i + 1 < workers ==> band_end(height, workers, i) == band_start(height, workers, i + 1),
        0 <= band_start(height, workers, i) <= band_end(height, workers, i) <= height,
{
    lemma_band_bounds(height, workers, i);
    lemma_mul_basics(band_height(height, workers));
}

/// Every row of the image lies in exactly one band, the one that `band_of`
/// names: no row is dropped and none is rendered twice.
pub proof fn lemma_row_in_one_band(height: int, workers: int, row: int)
    requires
        0 < workers,
        0 <= row < height,
    ensures
        0 <= band_of(height, workers, row) < workers,
        in_band(height, workers, band_of(height, workers, row), row),
        forall|i: int|
            0 <= i < workers && #[trigger] in_band(height, workers, i, row) ==> i == band_of(
                height,
                workers,
                row,
            ),
{
    let rows = band_height(height, workers);
    let owner = band_of(height, workers, row);
    lemma_band_bounds(height, workers, workers - 1);
    if rows == 0 {
        assert((workers - 1) * rows == 0) by {
            lemma_mul_basics(workers - 1);
        }
        assert forall|i: int|
            0 <= i < workers && #[trigger] in_band(height, workers, i, row) implies i
            == owner by {
            if i != workers - 1 {
                lemma_mul_basics(i);
                lemma_mul_basics(i + 1);
            }
        }
    } else {
        let q = row / rows;
        lemma_quotient(row, rows, q);
        if q >= workers - 1 {
            lemma_multiples_ordered(rows, workers - 1, q);
        }
        assert forall|i: int|
            0 <= i < workers && #[trigger] in_band(height, workers, i, row) implies i
            == owner by {
            if i != workers - 1 {
                lemma_quotient(row, rows, i);
            } else {
                if q < workers - 1 {
                    lemma_multiples_ordered(rows, q + 1, workers - 1);
                }
            }
        }
    }
}

/// The rows `[start, end)` of band `i` when `height` rows are divided among
/// `workers` workers.
pub fn band(height: usize, workers: usize, i: usize) -> (rows: (usize, usize))
    requires
        i < workers,
    ensures
        rows.0 == band_start(height as int, workers as int, i as int),
        rows.1 == band_end(height as int, workers as int, i as int),
        rows.0 <= rows.1 <= height,
{
    proof {
        lemma_band_bounds(height as int, workers as int, i as int);
    }
    let rows: usize = height / workers;
    let start: usize = i * rows;
    let end: usize = if i == workers - 1 {
        height
    } else {
        (i + 1) * rows
    };
    (start, end)
}

/// The bands of all workers, in order.
pub fn partition_rows(height: usize, workers: usize) -> (bands: Vec<(usize, usize)>)
    requires
        workers > 0,
    ensures
        bands.len() == workers,
        is_partition(bands@, height as int),
{
    let mut bands: Vec<(usize, usize)> = Vec::new();
    let mut i: usize = 0;
    while i < workers
        invariant
            i <= workers,
            bands.len() == i,
            forall|k: int|
                0 <= k < i ==> {
                    &&& (#[trigger] bands[k]).0 == band_start(height as int, workers as int, k)
                    &&& bands[k].1 == band_end(height as int, workers as int, k)
                },
        decreases workers - i,
    {
        let rows = band(height, workers, i);
        bands.push(rows);
        i += 1;
    }
    bands
}

/// The bands of `workers` workers, or `None` where there is no worker to
/// give a row to.
pub fn plan_for(height: usize, workers: usize) -> (plan: Option<Vec<(usize, usize)>>)
    ensures
        workers == 0 <==> plan is None,
        plan matches Some(bands) ==> bands.len() == workers && is_partition(
            bands@,
            height as int,
        ),
{
    if workers == 0 {
        None
    } else {
        Some(partition_rows(height, workers))
    }
}

/// The number of logical processors that `num_cpus::get` reports for this
/// process. It depends on the machine and on the limits set for the
/// process, so nothing is claimed of it.
#[verifier::external_body]
fn available_workers() -> (workers: usize) {
    num_cpus::get()
}

/// Divides `height` rows among one worker per processor this process may
/// use. Whatever that number is, the bands are its partition of the rows;
/// `None` only where no processor is reported at all.
pub fn plan_rows(height: usize) -> (plan: Option<Vec<(usize, usize)>>)
    ensures
        plan matches Some(bands) ==> bands.len() > 0 && is_partition(bands@, height as int),
{
    plan_for(height, available_workers())
}

/// Columns in the block `x_range.0 .. x_range.1`; none if the range is empty.
pub open spec fn block_width(x_range: (usize, usize)) -> int {
    if x_range.0 < x_range.1 {
        x_range.1 - x_range.0
    } else {
        0
    }
}

/// Pixels in the block of the columns `x_range` and the rows `y_range`.
pub open spec fn block_len(x_range: (usize, usize), y_range: (usize, usize)) -> int {
    block_width(x_range) * block_width(y_range)
}

/// Column and row of the `k`-th pixel of the block: rows in order, and the
/// columns of each row in order.
pub open spec fn pixel_at(x_range: (usize, usize), y_range: (usize, usize), k: int) -> (int, int) {
    (x_range.0 + k % block_width(x_range), y_range.0 + k / block_width(x_range))
}

/// Place `k` of the block's pixel at `(x, y)`.
pub open spec fn place_of(x_range: (usize, usize), y_range: (usize, usize), x: int, y: int) -> int {
    (y - y_range.0) * block_width(x_range) + (x - x_range.0)
}

/// Row-major places and coordinates determine each other.
proof fn lemma_row_major(width: int, row: int, column: int, k: int)
    requires
        0 < width,
        0 <= row,
        0 <= column < width,
    ensures
        (row * width + column) / width == row,
        (row * width + column) % width == column,
        0 <= row * width + column,
        0 <= k && k / width == row && k % width == column ==> k == row * width + column,
{
    lemma_fundamental_div_mod_converse(row * width + column, width, row, column);
    lemma_mul_nonnegative(row, width);
    lemma_fundamental_div_mod(k, width);
    lemma_mul_is_commutative(width, k / width);
}

/// Places below the block's length are those of its rows.
proof fn lemma_place_bounds(width: int, height: int, row: int, column: int, k: int)
    requires
        0 < width,
        0 <= height,
        0 <= column < width,
    ensures
        0 <= row < height ==> row * width + column < width * height,
        0 <= k < width * height ==> 0 <= k / width < height && 0 <= k % width < width,
{
    lemma_mul_is_commutative(width, height);
    if 0 <= row < height {
        lemma_next_multiple(row, width);
        lemma_mul_inequality(row + 1, height, width);
    }
    if 0 <= k < width * height {
        let q = k / width;
        lemma_div_pos_is_pos(k, width);
        lemma_fundamental_div_mod(k, width);
        lemma_mod_pos_bound(k, width);
        lemma_mul_is_commutative(width, q);
        if q >= height {
            lemma_mul_inequality(height, q, width);
        }
    }
}

/// Every pixel of the block has exactly one place in the walk: each is
/// rendered once and none is left out.
pub proof fn lemma_pixel_once(x_range: (usize, usize), y_range: (usize, usize), x: int, y: int)
    requires
        x_range.0 <= x < x_range.1,
        y_range.0 <= y < y_range.1,
    ensures
        0 <= place_of(x_range, y_range, x, y) < block_len(x_range, y_range),
        pixel_at(x_range, y_range, place_of(x_range, y_range, x, y)) == (x, y),
        forall|k: int|
            0 <= k < block_len(x_range, y_range) && #[trigger] pixel_at(x_range, y_range, k) == (
                x,
                y,
            ) ==> k == place_of(x_range, y_range, x, y),
{
    let width = block_width(x_range);
    let height = block_width(y_range);
    let row = y - y_range.0;
    let column = x - x_range.0;
    lemma_row_major(width, row, column, 0);
    lemma_place_bounds(width, height, row, column, 0);
    assert forall|k: int|
        0 <= k < block_len(x_range, y_range) && #[trigger] pixel_at(x_range, y_range, k) == (
            x,
            y,
        ) implies k == place_of(x_range, y_range, x, y) by {
        lemma_row_major(width, row, column, k);
    }
}

/// Every place of the walk is a pixel of the block.
pub proof fn lemma_place_in_block(x_range: (usize, usize), y_range: (usize, usize), k: int)
    requires
        0 <= k < block_len(x_range, y_range),
    ensures
        x_range.0 <= pixel_at(x_range, y_range, k).0 < x_range.1,
        y_range.0 <= pixel_at(x_range, y_range, k).1 < y_range.1,
{
    let width = block_width(x_range);
    let height = block_width(y_range);
    if width == 0 || height == 0 {
        lemma_mul_basics(width);
        lemma_mul_basics(height);
    }
    lemma_place_bounds(width, height, 0, 0, k);
}

/// Rendering the full width of every band renders every pixel of the image
/// exactly once: the pixel in column `x` of row `y` has a place in the walk
/// of the band that owns the row, and in no other walk and at no other
/// place.
pub proof fn lemma_image_covered_once(
    bands: Seq<(usize, usize)>,
    width: usize,
    height: usize,
    x: int,
    y: int,
)
    requires
        bands.len() > 0,
        is_partition(bands, height as int),
        0 <= x < width,
        0 <= y < height,
    ensures
        ({
            let i = band_of(height as int, bands.len() as int, y);
            let k = place_of((0usize, width), bands[i], x, y);
            &&& 0 <= i < bands.len()
            &&& 0 <= k < block_len((0usize, width), bands[i])
            &&& pixel_at((0usize, width), bands[i], k) == (x, y)
            &&& forall|j: int, m: int|
                0 <= j < bands.len() && 0 <= m < block_len((0usize, width), bands[j])
                    && #[trigger] pixel_at((0usize, width), bands[j], m) == (x, y) ==> j == i && m
                    == k
        }),
{
    let columns = (0usize, width);
    let workers = bands.len() as int;
    let i = band_of(height as int, workers, y);
    lemma_row_in_one_band(height as int, workers, y);
    assert(in_band(height as int, workers, i, y));
    assert(bands[i].0 <= y < bands[i].1);
    lemma_pixel_once(columns, bands[i], x, y);
    let k = place_of(columns, bands[i], x, y);
    assert forall|j: int, m: int|
        0 <= j < bands.len() && 0 <= m < block_len(columns, bands[j]) && #[trigger] pixel_at(
            columns,
            bands[j],
            m,
        ) == (x, y) implies j == i && m == k by {
        lemma_place_in_block(columns, bands[j], m);
        assert(bands[j].0 <= y < bands[j].1);
        assert(in_band(height as int, workers, j, y));
    }
}

/// Whether `sums` records how the samples of the pixel in column `x` of
/// row `y` were gathered: it starts with `zero`, and each later entry is
/// what `sample` made of the one before it.
pub open spec fn gathers<A, S: Fn(usize, usize, A) -> A>(
    sample: S,
    x: usize,
    y: usize,
    zero: A,
    sums: Seq<A>,
) -> bool {
    &&& sums.len() > 0
    &&& sums[0] == zero
    &&& forall|j: int|
        0 <= j < sums.len() - 1 ==> call_ensures(sample, (x, y, #[trigger] sums[j]), sums[j + 1])
}

/// Whether `pixel` was rendered from `samples` samples: `sample` was
/// applied that many times, starting from `zero`, and `finish` turned the
/// last sum into the pixel's colour.
pub open spec fn rendered<A, S: Fn(usize, usize, A) -> A, Q: Fn(A) -> [u8; 3]>(
    sample: S,
    finish: Q,
    zero: A,
    samples: u32,
    pixel: (usize, usize, [u8; 3]),
) -> bool {
    exists|sums: Seq<A>|
        {
            &&& #[trigger] gathers(sample, pixel.0, pixel.1, zero, sums)
            &&& sums.len() == samples + 1
            &&& call_ensures(finish, (sums.last(),), pixel.2)
        }
}

/// Renders the block of the columns `x_range` and the rows `y_range`, both
/// half-open. The pixels are taken row by row. For each, `sample` is
/// applied `samples_per_pixel` times to a sum that starts at `zero`, each
/// time with the pixel's column and row, and `finish` turns the last sum
/// into the colour. The colours come back with their coordinates.
pub fn render_pixels<A: Copy, S: Fn(usize, usize, A) -> A, Q: Fn(A) -> [u8; 3]>(
    x_range: (usize, usize),
    y_range: (usize, usize),
    samples_per_pixel: u32,
    zero: A,
    sample: S,
    finish: Q,
) -> (pixels: Vec<(usize, usize, [u8; 3])>)
    requires
        forall|x: usize, y: usize, sum: A|
            x_range.0 <= x < x_range.1 && y_range.0 <= y < y_range.1 ==> call_requires(
                sample,
                (x, y, sum),
            ),
        forall|sum: A| call_requires(finish, (sum,)),
    ensures
        pixels.len() == block_len(x_range, y_range),
        forall|k: int|
            0 <= k < pixels.len() ==> {
                &&& (#[trigger] pixels[k]).0 == pixel_at(x_range, y_range, k).0
                &&& pixels[k].1 == pixel_at(x_range, y_range, k).1
                &&& rendered(sample, finish, zero, samples_per_pixel, pixels[k])
            },
{
    let mut pixels: Vec<(usize, usize, [u8; 3])> = Vec::new();
    if x_range.0 >= x_range.1 || y_range.0 >= y_range.1 {
        proof {
            lemma_mul_basics(block_width(x_range));
            lemma_mul_basics(block_width(y_range));
        }
        return pixels;
    }
    let ghost width = block_width(x_range);
    let ghost height = block_width(y_range);
    let mut y: usize = y_range.0;
    while y < y_range.1
        invariant
            x_range.0 < x_range.1,
            y_range.0 <= y <= y_range.1,
            width == block_width(x_range),
            height == block_width(y_range),
            pixels.len() == (y - y_range.0) * width,
            forall|x: usize, y: usize, sum: A|
                x_range.0 <= x < x_range.1 && y_range.0 <= y < y_range.1 ==> call_requires(
                    sample,
                    (x, y, sum),
                ),
            forall|sum: A| call_requires(finish, (sum,)),
            forall|k: int|
                0 <= k < pixels.len() ==> {
                    &&& (#[trigger] pixels[k]).0 == pixel_at(x_range, y_range, k).0
                    &&& pixels[k].1 == pixel_at(x_range, y_range, k).1
                    &&& rendered(sample, finish, zero, samples_per_pixel, pixels[k])
                },
        decreases y_range.1 - y,
    {
        let mut x: usize = x_range.0;
        while x < x_range.1
            invariant
                x_range.0 <= x <= x_range.1,
                y_range.0 <= y < y_range.1,
                width == block_width(x_range),
                width > 0,
                pixels.len() == (y - y_range.0) * width + (x - x_range.0),
                forall|x: usize, y: usize, sum: A|
                    x_range.0 <= x < x_range.1 && y_range.0 <= y < y_range.1 ==> call_requires(
                        sample,
                        (x, y, sum),
                    ),
                forall|sum: A| call_requires(finish, (sum,)),
                forall|k: int|
                    0 <= k < pixels.len() ==> {
                        &&& (#[trigger] pixels[k]).0 == pixel_at(x_range, y_range, k).0
                        &&& pixels[k].1 == pixel_at(x_range, y_range, k).1
                        &&& rendered(sample, finish, zero, samples_per_pixel, pixels[k])
                    },
            decreases x_range.1 - x,
        {
            let mut sum = zero;
            let mut taken: u32 = 0;
            let ghost mut sums: Seq<A> = seq![zero];
            while taken < samples_per_pixel
                invariant
                    x_range.0 <= x < x_range.1,
                    y_range.0 <= y < y_range.1,
                    taken <= samples_per_pixel,
                    forall|x: usize, y: usize, sum: A|
                        x_range.0 <= x < x_range.1 && y_range.0 <= y < y_range.1
                            ==> call_requires(sample, (x, y, sum)),
                    gathers(sample, x, y, zero, sums),
                    sums.len() == taken + 1,
                    sums.last() == sum,
                decreases samples_per_pixel - taken,
            {
                let ghost before = sums;
                let next = sample(x, y, sum);
                proof {
                    sums = sums.push(next);
                    assert forall|j: int| 0 <= j < sums.len() - 1 implies call_ensures(
                        sample,
                        (x, y, #[trigger] sums[j]),
                        sums[j + 1],
                    ) by {
                        if j < before.len() - 1 {
                            assert(sums[j] == before[j]);
                            assert(sums[j + 1] == before[j + 1]);
                        }
                    }
                }
                sum = next;
                taken += 1;
            }
            let color = finish(sum);
            proof {
                lemma_row_major(width, y - y_range.0, x - x_range.0, 0);
                let pixel = (x, y, color);
                assert(gathers(sample, pixel.0, pixel.1, zero, sums));
                assert(sums.len() == samples_per_pixel + 1);
                assert(call_ensures(finish, (sums.last(),), pixel.2));
                assert(rendered(sample, finish, zero, samples_per_pixel, pixel));
            }
            pixels.push((x, y, color));
            x += 1;
        }
        proof {
            lemma_next_multiple(y - y_range.0, width);
        }
        y += 1;
    }
    proof {
        lemma_mul_is_commutative(width, height);
    }
    pixels
}

} // verus!
