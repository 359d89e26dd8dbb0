//! The image as plain text: three header lines, then one line for each
//! pixel, holding its red, green and blue values.

use crate::decimal::{decimal, is_digit, lemma_decimal, lemma_digits_len, push_decimal};
use crate::lines::{
    count_byte, is_unbroken, lemma_count_absent, lemma_count_concat, lemma_count_single,
    lemma_line_at_front, lemma_line_count_concat, lemma_unbroken_has_no_lines, line_at,
    line_count, NEWLINE, SPACE,
};
use crate::raster::{Pixel, Raster};
use vstd::prelude::*;

verus! {

/// The largest value of a colour channel that the header announces.
pub const MAX_VALUE: i32 = 255;

/// The two bytes `P3`, which open an image written as text.
pub open spec fn magic() -> Seq<u8> {
    seq![80u8, 51u8]
}

/// The colour of a pixel as three whole numbers. Nothing confines them to
/// the range that the header announces.
#[derive(Clone, Copy, Debug, PartialEq, Eq, Structural)]
pub struct Rgb {
    pub r: i32,
    pub g: i32,
    pub b: i32,
}

/// Why an image could not be written.
#[derive(Clone, Copy, Debug, PartialEq, Eq, Structural)]
pub enum RenderError {
    /// The pixel values handed over are not as many as the raster has pixels.
    PixelCount,
}

impl Rgb {
    /// The three values in decimal, a space between each two.
    pub open spec fn text(self) -> Seq<u8> {
        decimal(self.r as int) + seq![SPACE] + decimal(self.g as int) + seq![SPACE] + decimal(
            self.b as int,
        )
    }

    /// Whether each value lies between zero and `MAX_VALUE`.
    pub open spec fn in_range(self) -> bool {
        &&& 0 <= self.r <= MAX_VALUE
        &&& 0 <= self.g <= MAX_VALUE
        &&& 0 <= self.b <= MAX_VALUE
    }

    /// The colour with the given red, green and blue values.
    pub fn new(r: i32, g: i32, b: i32) -> (colour: Rgb)
        ensures
            colour == (Rgb { r, g, b }),
    {
        Rgb { r, g, b }
    }

    /// Appends the line of this colour to `out`.
    pub fn write_color(self, out: &mut Vec<u8>)
        ensures
            final(out)@ == old(out)@ + self.text() + seq![NEWLINE],
    {
        push_decimal(out, self.r);
        out.push(SPACE);
        push_decimal(out, self.g);
        out.push(SPACE);
        push_decimal(out, self.b);
        out.push(NEWLINE);
    }
}

/// Whether `line` holds three whole numbers between zero and `MAX_VALUE`,
/// a space between each two, and nothing else.
pub open spec fn is_colour_line(line: Seq<u8>) -> bool {
    exists|colour: Rgb| colour.in_range() && line == #[trigger] colour.text()
}

/// The second header line: width and height.
pub open spec fn size_text(raster: Raster) -> Seq<u8> {
    decimal(raster.cols()) + seq![SPACE] + decimal(raster.rows())
}

/// The three header lines: the magic bytes, the size, the largest value.
pub open spec fn header_text(raster: Raster) -> Seq<u8> {
    magic() + seq![NEWLINE] + size_text(raster) + seq![NEWLINE] + decimal(MAX_VALUE as int)
        + seq![NEWLINE]
}

/// The lines of the pixels, in the order of `pixels`.
pub open spec fn body_text(pixels: Seq<Rgb>) -> Seq<u8>
    decreases pixels.len(),
{
    if pixels.len() == 0 {
        Seq::empty()
    } else {
        body_text(pixels.drop_last()) + pixels.last().text() + seq![NEWLINE]
    }
}

/// The whole image: header, then pixels.
pub open spec fn image_text(raster: Raster, pixels: Seq<Rgb>) -> Seq<u8> {
    header_text(raster) + body_text(pixels)
}

/// Appends the three header lines of an image of this size to `out`.
pub fn write_header(raster: &Raster, out: &mut Vec<u8>)
    ensures
        final(out)@ == old(out)@ + header_text(*raster),
{
    out.push(80);
    out.push(51);
    out.push(NEWLINE);
    push_decimal(out, raster.image_width());
    out.push(SPACE);
    push_decimal(out, raster.image_height());
    out.push(NEWLINE);
    push_decimal(out, MAX_VALUE);
    out.push(NEWLINE);
}

/// Appends the whole image to `out`: the header, then the line of each
/// pixel, `pixels` holding them in the order in which the raster is visited.
/// Where `pixels` has not one value for each pixel of the raster, nothing is
/// written.
pub fn render(raster: &Raster, pixels: &Vec<Rgb>, out: &mut Vec<u8>) -> (result: Result<
    (),
    RenderError,
>)
    ensures
        pixels@.len() == raster.pixel_count() ==> result is Ok && final(out)@ == old(out)@
            + image_text(*raster, pixels@),
        pixels@.len() != raster.pixel_count() ==> result == Err::<(), RenderError>(
            RenderError::PixelCount,
        ) && final(out)@ == old(out)@,
{
    if pixels.len() as u64 != raster.len() {
        return Err(RenderError::PixelCount);
    }
    write_header(raster, out);
    let mut done: usize = 0;
    while done < pixels.len()
        invariant
            done <= pixels@.len(),
            out@ == old(out)@ + header_text(*raster) + body_text(pixels@.take(done as int)),
        decreases pixels@.len() - done,
    {
        pixels[done].write_color(out);
        assert(pixels@.take(done + 1).drop_last() =~= pixels@.take(done as int));
        done = done + 1;
    }
    assert(pixels@.take(done as int) =~= pixels@);
    Ok(())
}

/// The line of a colour holds no line end: it is one line.
pub proof fn lemma_text_unbroken(colour: Rgb)
    ensures
        is_unbroken(colour.text()),
{
    lemma_decimal(colour.r as int);
    lemma_decimal(colour.g as int);
    lemma_decimal(colour.b as int);
}

/// The line of a colour whose values are in range holds three runs of
/// digits, one to three digits each, and the two spaces between them.
pub proof fn lemma_text_in_range(colour: Rgb)
    requires
        colour.in_range(),
    ensures
        forall|i: int|
            0 <= i < colour.text().len() ==> is_digit(#[trigger] colour.text()[i])
                || colour.text()[i] == SPACE,
        count_byte(colour.text(), SPACE) == 2,
        5 <= colour.text().len() <= 11,
{
    let r = decimal(colour.r as int);
    let g = decimal(colour.g as int);
    let b = decimal(colour.b as int);
    lemma_decimal(colour.r as int);
    lemma_decimal(colour.g as int);
    lemma_decimal(colour.b as int);
    lemma_digits_len(colour.r as nat);
    lemma_digits_len(colour.g as nat);
    lemma_digits_len(colour.b as nat);
    lemma_count_absent(r, SPACE);
    lemma_count_absent(g, SPACE);
    lemma_count_absent(b, SPACE);
    lemma_count_concat(r, seq![SPACE], SPACE);
    lemma_count_concat(r + seq![SPACE], g, SPACE);
    lemma_count_concat(r + seq![SPACE] + g, seq![SPACE], SPACE);
    lemma_count_concat(r + seq![SPACE] + g + seq![SPACE], b, SPACE);
    lemma_count_single(SPACE, SPACE);
}

/// The header is three lines: the magic bytes, the size, the largest value.
pub proof fn lemma_header_lines(raster: Raster)
    ensures
        line_count(header_text(raster)) == 3,
        line_at(header_text(raster), 0) == magic(),
        line_at(header_text(raster), 1) == size_text(raster),
        line_at(header_text(raster), 2) == decimal(MAX_VALUE as int),
{
    lemma_header_front(raster, Seq::empty(), 0);
    let nl = seq![NEWLINE];
    let size = size_text(raster);
    let max = decimal(MAX_VALUE as int);
    lemma_size_text_unbroken(raster);
    lemma_decimal(MAX_VALUE as int);
    lemma_unbroken_has_no_lines(magic());
    lemma_unbroken_has_no_lines(size);
    lemma_unbroken_has_no_lines(max);
    lemma_count_single(NEWLINE, NEWLINE);
    lemma_line_count_concat(magic(), nl);
    lemma_line_count_concat(magic() + nl, size);
    lemma_line_count_concat(magic() + nl + size, nl);
    lemma_line_count_concat(magic() + nl + size + nl, max);
    lemma_line_count_concat(magic() + nl + size + nl + max, nl);
}

/// An image has three lines and one more for each pixel.
pub proof fn lemma_image_line_count(raster: Raster, pixels: Seq<Rgb>)
    ensures
        line_count(image_text(raster, pixels)) == 3 + pixels.len(),
{
    lemma_header_lines(raster);
    lemma_body_line_count(pixels);
    lemma_line_count_concat(header_text(raster), body_text(pixels));
}

/// An image with a value in range for each pixel of a raster that is not of
/// negative width has three lines and as many more as width times height,
/// and each of these holds three whole numbers between zero and `MAX_VALUE`.
pub proof fn lemma_image_lines(raster: Raster, pixels: Seq<Rgb>)
    requires
        raster.wf(),
        raster.cols() >= 0,
        pixels.len() == raster.pixel_count(),
        forall|k: int| 0 <= k < pixels.len() ==> (#[trigger] pixels[k]).in_range(),
    ensures
        line_count(image_text(raster, pixels)) == 3 + raster.cols() * raster.rows(),
        forall|k: int|
            0 <= k < raster.cols() * raster.rows() ==> is_colour_line(
                #[trigger] line_at(image_text(raster, pixels), (3 + k) as nat),
            ),
{
    lemma_image_line_count(raster, pixels);
    assert(raster.cols() == 0 ==> raster.cols() * raster.rows() == 0) by (nonlinear_arith);
    assert forall|k: int| 0 <= k < raster.cols() * raster.rows() implies is_colour_line(
        #[trigger] line_at(image_text(raster, pixels), (3 + k) as nat),
    ) by {
        lemma_image_pixel_line(raster, pixels, k);
    }
}

/// Pixel `k` is written on line `3 + k`, as its three values.
pub proof fn lemma_image_pixel_line(raster: Raster, pixels: Seq<Rgb>, k: int)
    requires
        0 <= k < pixels.len(),
    ensures
        line_at(image_text(raster, pixels), (3 + k) as nat) == pixels[k].text(),
{
    lemma_header_front(raster, body_text(pixels), k as nat);
    lemma_body_line(pixels, k);
}

/// The pixel at a place inside the raster is written on the line that its
/// turn in the visiting order gives, after the three header lines.
pub proof fn lemma_image_line_of_pixel(raster: Raster, pixels: Seq<Rgb>, p: Pixel)
    requires
        raster.contains(p),
        pixels.len() == raster.pixel_count(),
    ensures
        0 <= raster.index_of(p) < pixels.len(),
        line_at(image_text(raster, pixels), (3 + raster.index_of(p)) as nat)
            == pixels[raster.index_of(p)].text(),
{
    raster.lemma_index_in_range(p);
    lemma_image_pixel_line(raster, pixels, raster.index_of(p));
}

proof fn lemma_size_text_unbroken(raster: Raster)
    ensures
        is_unbroken(size_text(raster)),
{
    lemma_decimal(raster.cols());
    lemma_decimal(raster.rows());
}

/// Behind the header, line `3 + k` of the whole is line `k` of what follows.
proof fn lemma_header_front(raster: Raster, rest: Seq<u8>, k: nat)
    ensures
        line_at(header_text(raster) + rest, 0) == magic(),
        line_at(header_text(raster) + rest, 1) == size_text(raster),
        line_at(header_text(raster) + rest, 2) == decimal(MAX_VALUE as int),
        line_at(header_text(raster) + rest, 3 + k) == line_at(rest, k),
{
    let nl = seq![NEWLINE];
    let size = size_text(raster);
    let max = decimal(MAX_VALUE as int);
    let whole = header_text(raster) + rest;
    let after_max = rest;
    let after_size = max + nl + after_max;
    let after_magic = size + nl + after_size;
    assert(whole =~= magic() + nl + after_magic);
    lemma_size_text_unbroken(raster);
    lemma_decimal(MAX_VALUE as int);
    lemma_line_at_front(magic(), after_magic, 0);
    lemma_line_at_front(magic(), after_magic, 1);
    lemma_line_at_front(magic(), after_magic, k + 2);
    lemma_line_at_front(size, after_size, 0);
    lemma_line_at_front(size, after_size, k + 1);
    lemma_line_at_front(max, after_max, k);
}

proof fn lemma_body_line_count(pixels: Seq<Rgb>)
    ensures
        line_count(body_text(pixels)) == pixels.len(),
    decreases pixels.len(),
{
    if pixels.len() > 0 {
        let nl = seq![NEWLINE];
        let sooner = body_text(pixels.drop_last());
        let line = pixels.last().text();
        lemma_body_line_count(pixels.drop_last());
        lemma_text_unbroken(pixels.last());
        lemma_unbroken_has_no_lines(line);
        lemma_count_single(NEWLINE, NEWLINE);
        lemma_line_count_concat(sooner, line);
        lemma_line_count_concat(sooner + line, nl);
    }
}

/// The lines of the pixels start with the line of the first pixel.
proof fn lemma_body_front(pixels: Seq<Rgb>)
    requires
        pixels.len() > 0,
    ensures
        body_text(pixels) == pixels[0].text() + seq![NEWLINE] + body_text(pixels.skip(1)),
    decreases pixels.len(),
{
    if pixels.len() == 1 {
        assert(pixels.drop_last() =~= Seq::<Rgb>::empty());
        assert(pixels.skip(1) =~= Seq::<Rgb>::empty());
    } else {
        lemma_body_front(pixels.drop_last());
        assert(pixels.drop_last().skip(1) =~= pixels.skip(1).drop_last());
    }
}

proof fn lemma_body_line(pixels: Seq<Rgb>, k: int)
    requires
        0 <= k < pixels.len(),
    ensures
        line_at(body_text(pixels), k as nat) == pixels[k].text(),
    decreases k,
{
    lemma_body_front(pixels);
    lemma_text_unbroken(pixels[0]);
    let rest = body_text(pixels.skip(1));
    if k == 0 {
        lemma_line_at_front(pixels[0].text(), rest, 0);
    } else {
        lemma_line_at_front(pixels[0].text(), rest, (k - 1) as nat);
        lemma_body_line(pixels.skip(1), k - 1);
    }
}

} // verus!
