//! The output image: a grid of 8-bit RGB pixels that the collector paints
//! as the workers' pixels arrive.
//!
//! The pixels are kept in an `image::RgbImage`. Row 0 is the first row of
//! the stored image; the renderer's rows count upward from the bottom of the
//! view, so a finished picture is turned upright before it is stored.
use vstd::prelude::*;
use vstd::arithmetic::mul::lemma_mul_upper_bound;

verus! {

/// The model of a colour: red, green, blue.
pub type Rgb = (u8, u8, u8);

/// The colour that three channel bytes stand for.
pub open spec fn rgb(channels: [u8; 3]) -> Rgb {
    (channels[0], channels[1], channels[2])
}

/// An `image::RgbImage`, opaque to the verifier.
#[verifier::external_body]
pub struct Buffer {
    inner: image::RgbImage,
}

/// The pixels of a buffer: one sequence per row, first row first, and in
/// each row one colour per column, first column first.
pub uninterp spec fn buffer_rows(buffer: Buffer) -> Seq<Seq<Rgb>>;

/// Whether `rows` is a grid of the given size.
pub open spec fn is_grid(rows: Seq<Seq<Rgb>>, width: int, height: int) -> bool {
    &&& rows.len() == height
    &&& forall|y: int| 0 <= y < height ==> (#[trigger] rows[y]).len() == width
}

/// The grid of the given size whose pixels are all black.
pub open spec fn black(width: nat, height: nat) -> Seq<Seq<Rgb>> {
    Seq::new(height, |y: int| Seq::new(width, |x: int| (0u8, 0u8, 0u8)))
}

/// `image::RgbImage::new`: a buffer of `width` by `height` pixels, every
/// channel of every pixel zero. The call works out the number of channel
/// bytes as 3 times the width, times the height, and panics where either
/// product overflows or the bytes are more than a vector can hold; the two
/// bounds keep clear of that.
#[verifier::external_body]
fn buffer_new(width: u32, height: u32) -> (buffer: Buffer)
    requires
        3 * width <= usize::MAX,
        3 * (width * height) <= isize::MAX,
    ensures
        buffer_rows(buffer) == black(width as nat, height as nat),
{
    Buffer { inner: image::RgbImage::new(width, height) }
}

/// `image::ImageBuffer::put_pixel`: the pixel in column `x` of row `y`
/// becomes `color`, and nothing else changes. The call panics outside the
/// image.
#[verifier::external_body]
fn buffer_put(buffer: &mut Buffer, x: u32, y: u32, color: [u8; 3])
    requires
        y < buffer_rows(*old(buffer)).len(),
        x < buffer_rows(*old(buffer))[y as int].len(),
    ensures
        buffer_rows(*final(buffer)) == buffer_rows(*old(buffer)).update(
            y as int,
            buffer_rows(*old(buffer))[y as int].update(x as int, rgb(color)),
        ),
{
    buffer.inner.put_pixel(x, y, image::Rgb(color))
}

/// The grid with each row back to front.
pub open spec fn mirrored(rows: Seq<Seq<Rgb>>) -> Seq<Seq<Rgb>> {
    rows.map_values(|row: Seq<Rgb>| row.reverse())
}

/// The grid after a half turn about its centre: the rows in reverse order,
/// each back to front.
pub open spec fn half_turned(rows: Seq<Seq<Rgb>>) -> Seq<Seq<Rgb>> {
    mirrored(rows.reverse())
}

/// `image::imageops::rotate180_in_place`: the image is turned by a half
/// turn about its centre.
#[verifier::external_body]
fn buffer_half_turn(buffer: &mut Buffer)
    ensures
        buffer_rows(*final(buffer)) == half_turned(buffer_rows(*old(buffer))),
{
    image::imageops::rotate180_in_place(&mut buffer.inner)
}

/// `image::imageops::flip_horizontal_in_place`: every row of the image is
/// turned back to front.
#[verifier::external_body]
fn buffer_mirror(buffer: &mut Buffer)
    ensures
        buffer_rows(*final(buffer)) == mirrored(buffer_rows(*old(buffer))),
{
    image::imageops::flip_horizontal_in_place(&mut buffer.inner)
}

/// The three channel bytes of a colour, in storage order.
pub open spec fn channels(color: Rgb) -> Seq<u8> {
    seq![color.0, color.1, color.2]
}

/// The channel bytes of a grid: row after row, pixel after pixel.
pub open spec fn samples(rows: Seq<Seq<Rgb>>) -> Seq<u8> {
    rows.map_values(|row: Seq<Rgb>| row.map_values(|color: Rgb| channels(color)).flatten()).flatten()
}

/// `image::ImageBuffer::into_raw`: the channel bytes as the image stores
/// them, row after row and pixel after pixel.
#[verifier::external_body]
fn buffer_into_raw(buffer: Buffer) -> (bytes: Vec<u8>)
    ensures
        bytes@ == samples(buffer_rows(buffer)),
{
    buffer.inner.into_raw()
}

/// Whether every pixel of `pixels` lies inside a grid of the given size.
pub open spec fn fits(pixels: Seq<(usize, usize, [u8; 3])>, width: int, height: int) -> bool {
    forall|j: int| 0 <= j < pixels.len() ==> (#[trigger] pixels[j]).0 < width && pixels[j].1 < height
}

/// The grid after one pixel was painted: its colour stands in column
/// `pixel.0` of row `pixel.1`.
pub open spec fn dabbed(rows: Seq<Seq<Rgb>>, pixel: (usize, usize, [u8; 3])) -> Seq<Seq<Rgb>> {
    rows.update(pixel.1 as int, rows[pixel.1 as int].update(pixel.0 as int, rgb(pixel.2)))
}

/// The grid after `pixels` were painted one after the other.
pub open spec fn painted(rows: Seq<Seq<Rgb>>, pixels: Seq<(usize, usize, [u8; 3])>) -> Seq<Seq<Rgb>>
    decreases pixels.len(),
{
    if pixels.len() == 0 {
        rows
    } else {
        dabbed(painted(rows, pixels.drop_last()), pixels.last())
    }
}

/// Painting pixels that fit leaves a grid of the same size.
pub proof fn lemma_painted_grid(
    rows: Seq<Seq<Rgb>>,
    pixels: Seq<(usize, usize, [u8; 3])>,
    width: int,
    height: int,
)
    requires
        is_grid(rows, width, height),
        fits(pixels, width, height),
    ensures
        is_grid(painted(rows, pixels), width, height),
    decreases pixels.len(),
{
    if pixels.len() > 0 {
        let before = pixels.drop_last();
        assert forall|j: int| 0 <= j < before.len() implies (#[trigger] before[j]).0 < width
            && before[j].1 < height by {
            assert(before[j] == pixels[j]);
        }
        lemma_painted_grid(rows, before, width, height);
    }
}

/// Whether `pixel` is painted in column `x` of row `y`.
pub open spec fn lies_at(pixel: (usize, usize, [u8; 3]), x: int, y: int) -> bool {
    pixel.0 == x && pixel.1 == y
}

/// Whether no place receives two colours: pixels of `pixels` that share
/// their coordinates share their colour.
pub open spec fn one_colour_per_place(pixels: Seq<(usize, usize, [u8; 3])>) -> bool {
    forall|i: int, j: int|
        0 <= i < pixels.len() && 0 <= j < pixels.len() && lies_at(
            #[trigger] pixels[i],
            pixels[j].0 as int,
            pixels[j].1 as int,
        ) ==> pixels[i].2 == (#[trigger] pixels[j]).2
}

/// What a place shows after painting: where no pixel was painted it is
/// unchanged, and otherwise it has the colour of one of the pixels painted
/// there.
pub proof fn lemma_painted_place(
    rows: Seq<Seq<Rgb>>,
    pixels: Seq<(usize, usize, [u8; 3])>,
    width: int,
    height: int,
    x: int,
    y: int,
)
    requires
        is_grid(rows, width, height),
        fits(pixels, width, height),
        0 <= x < width,
        0 <= y < height,
    ensures
        (forall|j: int| 0 <= j < pixels.len() ==> !lies_at(#[trigger] pixels[j], x, y))
            ==> painted(rows, pixels)[y][x] == rows[y][x],
        (exists|j: int| 0 <= j < pixels.len() && lies_at(#[trigger] pixels[j], x, y))
            ==> exists|j: int|
            0 <= j < pixels.len() && lies_at(#[trigger] pixels[j], x, y) && painted(
                rows,
                pixels,
            )[y][x] == rgb(pixels[j].2),
    decreases pixels.len(),
{
    if pixels.len() > 0 {
        let before = pixels.drop_last();
        let last = pixels.last();
        assert forall|j: int| 0 <= j < before.len() implies (#[trigger] before[j]).0 < width
            && before[j].1 < height by {
            assert(before[j] == pixels[j]);
        }
        lemma_painted_place(rows, before, width, height, x, y);
        lemma_painted_grid(rows, before, width, height);
        let earlier = painted(rows, before);
        assert(last == pixels[pixels.len() - 1]);
        if lies_at(last, x, y) {
            assert(painted(rows, pixels)[y][x] == rgb(last.2));
            assert(lies_at(pixels[pixels.len() - 1], x, y));
        } else {
            assert(painted(rows, pixels)[y][x] == earlier[y][x]);
            if exists|j: int| 0 <= j < pixels.len() && lies_at(#[trigger] pixels[j], x, y) {
                let j = choose|j: int| 0 <= j < pixels.len() && lies_at(#[trigger] pixels[j], x, y);
                assert(before[j] == pixels[j]);
                let k = choose|k: int|
                    0 <= k < before.len() && lies_at(#[trigger] before[k], x, y) && earlier[y][x]
                        == rgb(before[k].2);
                assert(before[k] == pixels[k]);
            } else {
                assert forall|j: int| 0 <= j < before.len() implies !lies_at(
                    #[trigger] before[j],
                    x,
                    y,
                ) by {
                    assert(before[j] == pixels[j]);
                }
            }
        }
    }
}

/// The order in which pixels are painted does not matter: where no place
/// receives two colours, two lists that hold the same pixels, in any order
/// and however often, paint the same picture.
pub proof fn lemma_paint_order_free(
    rows: Seq<Seq<Rgb>>,
    a: Seq<(usize, usize, [u8; 3])>,
    b: Seq<(usize, usize, [u8; 3])>,
    width: int,
    height: int,
)
    requires
        is_grid(rows, width, height),
        fits(a, width, height),
        one_colour_per_place(a),
        forall|k: int| 0 <= k < b.len() ==> a.contains(#[trigger] b[k]),
        forall|k: int| 0 <= k < a.len() ==> b.contains(#[trigger] a[k]),
    ensures
        painted(rows, a) == painted(rows, b),
{
    assert forall|k: int| 0 <= k < b.len() implies (#[trigger] b[k]).0 < width && b[k].1
        < height by {
        assert(a.contains(b[k]));
        let i = choose|i: int| 0 <= i < a.len() && a[i] == b[k];
        assert(a[i].0 < width);
    }
    lemma_painted_grid(rows, a, width, height);
    lemma_painted_grid(rows, b, width, height);
    let pa = painted(rows, a);
    let pb = painted(rows, b);
    assert forall|y: int| 0 <= y < height implies #[trigger] pa[y] == pb[y] by {
        assert forall|x: int| 0 <= x < width implies pa[y][x] == pb[y][x] by {
            lemma_painted_place(rows, a, width, height, x, y);
            lemma_painted_place(rows, b, width, height, x, y);
            if exists|j: int| 0 <= j < a.len() && lies_at(#[trigger] a[j], x, y) {
                let j = choose|j: int|
                    0 <= j < a.len() && lies_at(#[trigger] a[j], x, y) && pa[y][x] == rgb(a[j].2);
                assert(b.contains(a[j]));
                let k0 = choose|k: int| 0 <= k < b.len() && b[k] == a[j];
                assert(lies_at(b[k0], x, y));
                let k = choose|k: int|
                    0 <= k < b.len() && lies_at(#[trigger] b[k], x, y) && pb[y][x] == rgb(b[k].2);
                assert(a.contains(b[k]));
                let i = choose|i: int| 0 <= i < a.len() && a[i] == b[k];
                assert(lies_at(a[i], a[j].0 as int, a[j].1 as int));
                assert(a[i].2 == a[j].2);
            } else {
                assert forall|k: int| 0 <= k < b.len() implies !lies_at(#[trigger] b[k], x, y) by {
                    assert(a.contains(b[k]));
                    let i = choose|i: int| 0 <= i < a.len() && a[i] == b[k];
                    assert(!lies_at(a[i], x, y));
                }
            }
        }
        assert(pa[y] =~= pb[y]);
    }
    assert(pa =~= pb);
}

/// An 8-bit RGB image of a fixed size.
pub struct Canvas {
    width: u32,
    height: u32,
    buffer: Buffer,
}

impl View for Canvas {
    type V = Seq<Seq<Rgb>>;

    /// The pixels: one sequence per row, first row first.
    closed spec fn view(&self) -> Seq<Seq<Rgb>> {
        buffer_rows(self.buffer)
    }
}

impl Canvas {
    /// Number of columns.
    pub closed spec fn columns(self) -> int {
        self.width as int
    }

    /// Number of rows.
    pub closed spec fn lines(self) -> int {
        self.height as int
    }

    /// The pixels form a grid of the canvas's size. Every canvas that this
    /// module hands out is well formed, and its methods keep it so.
    pub closed spec fn wf(self) -> bool {
        is_grid(buffer_rows(self.buffer), self.width as int, self.height as int)
    }

    /// A well-formed canvas shows a grid of its size.
    pub proof fn lemma_wf_grid(self)
        requires
            self.wf(),
        ensures
            is_grid(self@, self.columns(), self.lines()),
    {
    }

    /// Whether an image of this size can be held: the channel bytes of one
    /// row must be countable, also where there is no row, and the channel
    /// bytes of the whole image must be addressable.
    pub open spec fn holdable(width: u32, height: u32) -> bool {
        &&& 3 * width <= usize::MAX
        &&& 3 * (width * height) <= isize::MAX
    }

    /// A canvas of `width` by `height` black pixels, or `None` where an
    /// image of that size cannot be held.
    pub fn new(width: u32, height: u32) -> (canvas: Option<Canvas>)
        ensures
            canvas is Some <==> Self::holdable(width, height),
            canvas matches Some(c) ==> {
                &&& c.wf()
                &&& c.columns() == width
                &&& c.lines() == height
                &&& c@ == black(width as nat, height as nat)
            },
    {
        proof {
            lemma_mul_upper_bound(width as int, 0xffff_ffff, height as int, 0xffff_ffff);
        }
        let row_bytes: u64 = 3 * (width as u64);
        let pixels: u64 = (width as u64) * (height as u64);
        if row_bytes <= usize::MAX as u64 && pixels <= (isize::MAX as u64) / 3 {
            Some(Canvas { width, height, buffer: buffer_new(width, height) })
        } else {
            None
        }
    }

    /// Number of columns.
    pub fn width(&self) -> (width: u32)
        ensures
            width == self.columns(),
    {
        self.width
    }

    /// Number of rows.
    pub fn height(&self) -> (height: u32)
        ensures
            height == self.lines(),
    {
        self.height
    }

    /// Sets the pixel in column `x` of row `y`.
    pub fn put_pixel(&mut self, x: usize, y: usize, color: [u8; 3])
        requires
            old(self).wf(),
            x < old(self).columns(),
            y < old(self).lines(),
        ensures
            final(self).wf(),
            final(self).columns() == old(self).columns(),
            final(self).lines() == old(self).lines(),
            final(self)@ == dabbed(old(self)@, (x, y, color)),
    {
        buffer_put(&mut self.buffer, x as u32, y as u32, color);
    }

    /// Whether every pixel of `pixels` lies inside the canvas.
    pub fn holds(&self, pixels: &Vec<(usize, usize, [u8; 3])>) -> (inside: bool)
        ensures
            inside == fits(pixels@, self.columns(), self.lines()),
    {
        let mut j: usize = 0;
        while j < pixels.len()
            invariant
                j <= pixels.len(),
                forall|k: int|
                    0 <= k < j ==> (#[trigger] pixels[k]).0 < self.columns() && pixels[k].1
                        < self.lines(),
            decreases pixels.len() - j,
        {
            let pixel = &pixels[j];
            if pixel.0 >= self.width as usize || pixel.1 >= self.height as usize {
                return false;
            }
            j += 1;
        }
        true
    }

    /// Paints `pixels` one after the other, each at its own coordinates.
    pub fn paint(&mut self, pixels: &Vec<(usize, usize, [u8; 3])>)
        requires
            old(self).wf(),
            fits(pixels@, old(self).columns(), old(self).lines()),
        ensures
            final(self).wf(),
            final(self).columns() == old(self).columns(),
            final(self).lines() == old(self).lines(),
            final(self)@ == painted(old(self)@, pixels@),
    {
        let mut j: usize = 0;
        while j < pixels.len()
            invariant
                j <= pixels.len(),
                self.wf(),
                self.columns() == old(self).columns(),
                self.lines() == old(self).lines(),
                fits(pixels@, self.columns(), self.lines()),
                self@ == painted(old(self)@, pixels@.take(j as int)),
            decreases pixels.len() - j,
        {
            let pixel = &pixels[j];
            proof {
                assert(pixels@.take(j as int + 1).drop_last() =~= pixels@.take(j as int));
            }
            self.put_pixel(pixel.0, pixel.1, pixel.2);
            j += 1;
        }
        proof {
            assert(pixels@.take(pixels.len() as int) =~= pixels@);
        }
    }

    /// Paints `pixels` if every one of them lies inside the canvas, and
    /// otherwise leaves the canvas as it is. Says whether it painted.
    pub fn paint_checked(&mut self, pixels: &Vec<(usize, usize, [u8; 3])>) -> (done: bool)
        requires
            old(self).wf(),
        ensures
            final(self).wf(),
            final(self).columns() == old(self).columns(),
            final(self).lines() == old(self).lines(),
            done == fits(pixels@, old(self).columns(), old(self).lines()),
            done ==> final(self)@ == painted(old(self)@, pixels@),
            !done ==> final(self)@ == old(self)@,
    {
        if self.holds(pixels) {
            self.paint(pixels);
            true
        } else {
            false
        }
    }

    /// Turns the picture upright: the rows come to stand in reverse order,
    /// each as it was. Done by a half turn and then a mirroring of each row.
    pub fn upright(&mut self)
        requires
            old(self).wf(),
        ensures
            final(self).wf(),
            final(self).columns() == old(self).columns(),
            final(self).lines() == old(self).lines(),
            final(self)@ == old(self)@.reverse(),
    {
        let ghost before = buffer_rows(self.buffer);
        buffer_half_turn(&mut self.buffer);
        buffer_mirror(&mut self.buffer);
        proof {
            let after = buffer_rows(self.buffer);
            let flipped = before.reverse();
            assert(after.len() == flipped.len());
            assert forall|y: int| 0 <= y < after.len() implies after[y] == flipped[y] by {
                assert(after[y] == flipped[y].reverse().reverse());
                assert(flipped[y].reverse().reverse() =~= flipped[y]);
            }
            assert(after =~= flipped);
        }
    }

    /// Gives up the canvas for its channel bytes, as an encoder takes them:
    /// row after row, pixel after pixel, red, green, blue.
    pub fn into_raw(self) -> (bytes: Vec<u8>)
        ensures
            bytes@ == samples(self@),
    {
        buffer_into_raw(self.buffer)
    }
}

} // verus!
