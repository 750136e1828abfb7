//! Raster storage and the row-major enumeration of pixel coordinates.

use vstd::prelude::*;
use vstd::arithmetic::div_mod::{
    lemma_fundamental_div_mod,
    lemma_fundamental_div_mod_converse,
    lemma_mod_bound,
};
use crate::colors::{pixel_lines, Rgb};
use crate::ppm::{header, push_header};

verus! {

/// The pixel coordinates `(x, y)` of a `width` by `height` image, left to
/// right and then top to bottom.
pub open spec fn row_major(width: nat, height: nat) -> Seq<(usize, usize)> {
    Seq::new(width * height, |i: int| coordinate(i, width))
}

/// The coordinate of the `i`-th pixel in row-major order.
pub open spec fn coordinate(i: int, width: nat) -> (usize, usize) {
    ((i % width as int) as usize, (i / width as int) as usize)
}

/// Walks the coordinates of an image row by row.
///
/// The view of an iterator is the sequence of coordinates it has yet to hand
/// out.
pub struct PixelIterator {
    current: usize,
    width: usize,
    max: usize,
}

impl View for PixelIterator {
    type V = Seq<(usize, usize)>;

    closed spec fn view(&self) -> Seq<(usize, usize)> {
        Seq::new(
            (self.max - self.current) as nat,
            |i: int| coordinate(self.current + i, self.width as nat),
        )
    }
}

impl PixelIterator {
    #[verifier::type_invariant]
    spec fn inv(self) -> bool {
        &&& self.current <= self.max
        &&& self.max > 0 ==> self.width > 0
    }

    /// An iterator over every pixel of a `width` by `height` image.
    pub fn new(width: usize, height: usize) -> (iter: Self)
        requires
            width * height <= usize::MAX,
        ensures
            iter@ == row_major(width as nat, height as nat),
    {
        let iter = Self { current: 0, max: width * height, width };
        iter
    }

    /// Hands out the next coordinate, or `None` once all have been handed out.
    pub fn next(&mut self) -> (item: Option<(usize, usize)>)
        ensures
            old(self)@.len() == 0 ==> item.is_none() && final(self)@ == old(self)@,
            old(self)@.len() > 0 ==> item == Some(old(self)@[0]) && final(self)@ == old(self)@.skip(
                1,
            ),
    {
        proof {
            use_type_invariant(&*self);
        }
        if self.current < self.max {
            let curr: usize = self.current;
            let width: usize = self.width;
            self.current += 1;
            assert(self@ =~= old(self)@.skip(1));
            Some((curr % width, curr / width))
        } else {
            None
        }
    }
}

/// The place of pixel `(x, y)` in the row-major storage of an image that is
/// `width` pixels wide.
pub open spec fn offset(x: nat, y: nat, width: nat) -> nat {
    y * width + x
}

/// A plain-text PPM file: the header, then one line for each pixel in
/// row-major order.
pub open spec fn ppm_document(width: nat, height: nat, colors: Seq<Rgb>) -> Seq<u8> {
    header(width, height) + pixel_lines(colors)
}

/// A pixel inside the image has its place inside the storage.
pub proof fn lemma_offset_in_bounds(x: nat, y: nat, width: nat, height: nat)
    requires
        x < width,
        y < height,
    ensures
        y * width <= offset(x, y, width) < width * height,
{
    assert(y * width + x < width * height) by (nonlinear_arith)
        requires
            x < width,
            y < height,
    ;
}

/// Two pixels of one image that share a place in the storage are the same
/// pixel.
pub proof fn lemma_offset_injective(x: nat, y: nat, other_x: nat, other_y: nat, width: nat)
    requires
        x < width,
        other_x < width,
        offset(x, y, width) == offset(other_x, other_y, width),
    ensures
        x == other_x,
        y == other_y,
{
    assert(y == other_y) by (nonlinear_arith)
        requires
            x < width,
            other_x < width,
            y * width + x == other_y * width + other_x,
    ;
}

/// Step `i` of the row-major walk lies in column `i mod width` of row
/// `i / width`, inside the image.
pub proof fn lemma_coordinate_in_image(i: int, width: nat, height: nat)
    requires
        0 <= i < width * height,
        width * height <= usize::MAX,
    ensures
        coordinate(i, width).0 == i % (width as int),
        coordinate(i, width).1 == i / (width as int),
        coordinate(i, width).0 < width,
        coordinate(i, width).1 < height,
        offset(coordinate(i, width).0 as nat, coordinate(i, width).1 as nat, width) == i,
{
    let w = width as int;
    assert(width > 0) by (nonlinear_arith)
        requires
            0 <= i < width * height,
    ;
    lemma_mod_bound(i, w);
    lemma_fundamental_div_mod(i, w);
    let q = i / w;
    let r = i % w;
    assert(0 <= q < height && q <= i && q * w + r == i) by (nonlinear_arith)
        requires
            i == w * q + r,
            0 <= r < w,
            0 <= i < w * height,
    ;
}

/// The row-major walk reaches pixel `(x, y)` at step `offset(x, y, width)`:
/// the walk and the storage agree on the order of the pixels.
pub proof fn lemma_row_major_visits(width: nat, height: nat, x: nat, y: nat)
    requires
        x < width,
        y < height,
        width * height <= usize::MAX,
    ensures
        offset(x, y, width) < width * height,
        row_major(width, height)[offset(x, y, width) as int] == (x as usize, y as usize),
        row_major(width, height).contains((x as usize, y as usize)),
{
    let i = offset(x, y, width) as int;
    lemma_offset_in_bounds(x, y, width, height);
    assert(y <= y * width + x) by (nonlinear_arith)
        requires
            x < width,
    ;
    assert(i == (width as int) * (y as int) + (x as int)) by (nonlinear_arith)
        requires
            i == y * width + x,
    ;
    lemma_fundamental_div_mod_converse(i, width as int, y as int, x as int);
}

/// The row-major walk visits no pixel twice, and none outside the image.
pub proof fn lemma_row_major_distinct(width: nat, height: nat)
    requires
        width * height <= usize::MAX,
    ensures
        row_major(width, height).no_duplicates(),
        forall|i: int|
            0 <= i < row_major(width, height).len() ==> (#[trigger] row_major(width, height)[i]).0
                < width && row_major(width, height)[i].1 < height,
{
    let walk = row_major(width, height);
    assert forall|i: int| 0 <= i < walk.len() implies (#[trigger] walk[i]).0 < width && walk[i].1
        < height by {
        lemma_coordinate_in_image(i, width, height);
    }
    assert forall|i: int, j: int|
        0 <= i < walk.len() && 0 <= j < walk.len() && i != j implies walk[i] != walk[j] by {
        lemma_coordinate_in_image(i, width, height);
        lemma_coordinate_in_image(j, width, height);
    }
}

/// A raster of colours with a 2-D interface.
///
/// The view of a buffer is its colours in row-major order: the colour of
/// pixel `(x, y)` stands at `offset(x, y, width)`.
pub struct PixelBuffer {
    colors: Vec<Rgb>,
    width: usize,
    height: usize,
}

impl View for PixelBuffer {
    type V = Seq<Rgb>;

    closed spec fn view(&self) -> Seq<Rgb> {
        self.colors@
    }
}

impl PixelBuffer {
    /// The storage holds exactly one colour for each pixel.
    pub closed spec fn wf(self) -> bool {
        &&& self.colors@.len() == self.width * self.height
        &&& self.width * self.height <= usize::MAX
    }

    /// The number of pixels in a row.
    pub closed spec fn spec_width(self) -> nat {
        self.width as nat
    }

    /// The number of rows.
    pub closed spec fn spec_height(self) -> nat {
        self.height as nat
    }

    /// The colour of pixel `(x, y)`.
    pub open spec fn pixel(self, x: nat, y: nat) -> Rgb {
        self@[offset(x, y, self.spec_width()) as int]
    }

    /// A well-formed buffer holds one colour for each of its pixels, and no
    /// more pixels than the machine can address.
    pub proof fn lemma_one_color_per_pixel(self)
        requires
            self.wf(),
        ensures
            self@.len() == self.spec_width() * self.spec_height(),
            self.spec_width() * self.spec_height() <= usize::MAX,
    {
    }

    /// Whether an image of `width` by `height` pixels has a pixel count that
    /// the machine can address, so that a buffer or an iterator can be made
    /// for it.
    pub fn fits(width: usize, height: usize) -> (ok: bool)
        ensures
            ok == (width * height <= usize::MAX),
    {
        width.checked_mul(height).is_some()
    }

    /// A buffer of `width` by `height` pixels, all of them black.
    pub fn new(width: usize, height: usize) -> (buffer: Self)
        requires
            width * height <= usize::MAX,
        ensures
            buffer.wf(),
            buffer.spec_width() == width,
            buffer.spec_height() == height,
            buffer@ == Seq::new((width * height) as nat, |i: int| Rgb { r: 0, g: 0, b: 0 }),
            forall|x: nat, y: nat|
                x < width && y < height ==> #[trigger] buffer.pixel(x, y) == (Rgb {
                    r: 0,
                    g: 0,
                    b: 0,
                }),
    {
        let size: usize = width * height;
        let initial_color = Rgb::black();
        let mut colors: Vec<Rgb> = Vec::new();
        while colors.len() < size
            invariant
                colors@.len() <= size,
                initial_color == (Rgb { r: 0, g: 0, b: 0 }),
                forall|i: int| 0 <= i < colors@.len() ==> colors@[i] == initial_color,
            decreases size - colors@.len(),
        {
            colors.push(initial_color);
        }
        let buffer = Self { colors, width, height };
        assert forall|x: nat, y: nat| x < width && y < height implies #[trigger] buffer.pixel(x, y)
            == (Rgb { r: 0, g: 0, b: 0 }) by {
            lemma_offset_in_bounds(x, y, width as nat, height as nat);
        }
        buffer
    }

    /// The number of pixels in a row.
    pub fn width(&self) -> (width: usize)
        ensures
            width == self.spec_width(),
    {
        self.width
    }

    /// The number of rows.
    pub fn height(&self) -> (height: usize)
        ensures
            height == self.spec_height(),
    {
        self.height
    }

    /// Gives pixel `(x, y)` the colour `color` and leaves every other pixel as
    /// it was. Both coordinates count from zero.
    pub fn set_pixel(&mut self, x: usize, y: usize, color: Rgb)
        requires
            old(self).wf(),
            x < old(self).spec_width(),
            y < old(self).spec_height(),
        ensures
            final(self).wf(),
            final(self).spec_width() == old(self).spec_width(),
            final(self).spec_height() == old(self).spec_height(),
            final(self)@ == old(self)@.update(
                offset(x as nat, y as nat, old(self).spec_width()) as int,
                color,
            ),
            final(self).pixel(x as nat, y as nat) == color,
            forall|other_x: nat, other_y: nat|
                other_x < old(self).spec_width() && other_y < old(self).spec_height() && (
                    other_x,
                    other_y,
                ) != (x as nat, y as nat) ==> #[trigger] final(self).pixel(other_x, other_y) == old(
                    self,
                ).pixel(other_x, other_y),
    {
        proof {
            lemma_offset_in_bounds(x as nat, y as nat, self.width as nat, self.height as nat);
        }
        let at: usize = y * self.width + x;
        self.colors.set(at, color);
        proof {
            let width = self.width as nat;
            assert forall|other_x: nat, other_y: nat|
                other_x < width && other_y < self.height && (other_x, other_y) != (
                    x as nat,
                    y as nat,
                ) implies #[trigger] self.pixel(other_x, other_y) == old(self).pixel(
                    other_x,
                    other_y,
                ) by {
                lemma_offset_in_bounds(other_x, other_y, width, self.height as nat);
                if offset(other_x, other_y, width) == offset(x as nat, y as nat, width) {
                    lemma_offset_injective(x as nat, y as nat, other_x, other_y, width);
                }
            }
        }
    }

    /// The colour of pixel `(x, y)`. Both coordinates count from zero.
    pub fn get_pixel(&self, x: usize, y: usize) -> (color: Rgb)
        requires
            self.wf(),
            x < self.spec_width(),
            y < self.spec_height(),
        ensures
            color == self.pixel(x as nat, y as nat),
    {
        proof {
            lemma_offset_in_bounds(x as nat, y as nat, self.width as nat, self.height as nat);
        }
        let at: usize = y * self.width + x;
        self.colors[at]
    }

    /// An iterator over the coordinates of every pixel, left to right and then
    /// top to bottom.
    pub fn iter(&self) -> (iter: PixelIterator)
        requires
            self.wf(),
        ensures
            iter@ == row_major(self.spec_width(), self.spec_height()),
            forall|i: int|
                0 <= i < iter@.len() ==> (#[trigger] iter@[i]).0 < self.spec_width() && iter@[i].1
                    < self.spec_height(),
    {
        proof {
            lemma_row_major_distinct(self.width as nat, self.height as nat);
        }
        PixelIterator::new(self.width, self.height)
    }

    /// The image as a plain-text PPM file.
    pub fn to_ppm(&self) -> (bytes: Vec<u8>)
        ensures
            bytes@ == ppm_document(self.spec_width(), self.spec_height(), self@),
    {
        let mut bytes: Vec<u8> = Vec::new();
        push_header(&mut bytes, self.width, self.height);
        let mut at: usize = 0;
        while at < self.colors.len()
            invariant
                at <= self.colors@.len(),
                bytes@ == header(self.width as nat, self.height as nat) + pixel_lines(
                    self.colors@.take(at as int),
                ),
            decreases self.colors@.len() - at,
        {
            let color = self.colors[at];
            color.push_ppm(&mut bytes);
            proof {
                let done = self.colors@.take(at + 1);
                assert(done.drop_last() =~= self.colors@.take(at as int));
                assert(bytes@ =~= header(self.width as nat, self.height as nat) + pixel_lines(
                    done,
                ));
            }
            at += 1;
        }
        assert(self.colors@.take(at as int) =~= self.colors@);
        bytes
    }
}

} // verus!
