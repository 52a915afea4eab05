//! The raster an identicon is painted on, and its encoded form.

use crate::colors::Color;
use image::{ImageBuffer, ImageError, ImageOutputFormat, Rgb, RgbImage};
use std::io::Cursor;
use vstd::prelude::*;

verus! {

/// An RGB raster, kept in an `image::RgbImage`. The buffer itself is out of
/// the verifier's sight; what is known of a canvas is what the functions
/// below state of `canvas_rows`.
#[verifier::external_body]
pub struct Canvas {
    image: RgbImage,
}

/// The pixels of a canvas: its rows from top to bottom, each from left to
/// right.
pub uninterp spec fn canvas_rows(canvas: Canvas) -> Seq<Seq<(u8, u8, u8)>>;

/// What the PNG encoder of the `image` crate makes of a raster with these
/// rows: the bytes of the file, or `None` where it turns the raster down.
pub uninterp spec fn png_outcome(rows: Seq<Seq<(u8, u8, u8)>>) -> Option<Seq<u8>>;

/// `image::ImageError`, carried from the encoder to where it is turned into
/// an `EncodeError`. Nothing inside it is read.
#[verifier::external_type_specification]
#[verifier::external_body]
pub struct ExImageError(ImageError);

/// Why a picture could not be encoded.
#[derive(Debug, Clone, PartialEq, Eq)]
pub struct EncodeError {
    /// What the encoder reported.
    pub message: String,
}

impl View for Canvas {
    type V = Seq<Seq<Color>>;

    open spec fn view(&self) -> Seq<Seq<Color>> {
        canvas_rows(*self)
    }
}

/// Whether the encoder turns a raster with these rows down.
pub open spec fn png_fails(rows: Seq<Seq<Color>>) -> bool {
    png_outcome(rows) is None
}

/// The bytes of the PNG file for a raster with these rows, where the
/// encoder takes it.
pub open spec fn png_encoding(rows: Seq<Seq<Color>>) -> Seq<u8>
    recommends
        !png_fails(rows),
{
    png_outcome(rows)->Some_0
}

/// Whether `bytes` are the file of the raster `rows` and of no other: the
/// format loses nothing, so the pixels can be told from the bytes.
pub open spec fn encodes_only(bytes: Seq<u8>, rows: Seq<Seq<Color>>) -> bool {
    &&& png_outcome(rows) == Some(bytes)
    &&& forall|other: Seq<Seq<Color>>|
        (#[trigger] png_outcome(other)) == Some(bytes) ==> other == rows
}

/// A raster of `height` rows of `width` pixels, all of one colour.
pub open spec fn uniform_rows(width: int, height: int, color: Color) -> Seq<Seq<Color>> {
    Seq::new(height as nat, |y: int| Seq::new(width as nat, |x: int| color))
}

/// Whether `rows` is a rectangle `width` pixels wide and `height` high.
pub open spec fn is_raster(rows: Seq<Seq<Color>>, width: int, height: int) -> bool {
    &&& rows.len() == height
    &&& forall|y: int| 0 <= y < height ==> (#[trigger] rows[y]).len() == width
}

/// `rows` with the pixel in column `x` of row `y` set to `color`.
pub open spec fn with_pixel(rows: Seq<Seq<Color>>, x: int, y: int, color: Color) -> Seq<Seq<Color>>
    recommends
        0 <= y < rows.len(),
        0 <= x < rows[y].len(),
{
    rows.update(y, rows[y].update(x, color))
}

/// The pixel in column `x` of row `y`, where there is one.
pub open spec fn pixel_of(rows: Seq<Seq<Color>>, x: int, y: int) -> Option<Color> {
    if 0 <= y < rows.len() && 0 <= x < rows[y].len() {
        Some(rows[y][x])
    } else {
        None
    }
}

/// Calls `ImageBuffer::from_pixel`, which panics only when the buffer of
/// three bytes per pixel is more than a vector can hold. Claims that the
/// raster handed back has the asked size and the asked colour everywhere.
#[verifier::external_body]
fn from_pixel(width: u32, height: u32, color: Color) -> (canvas: Canvas)
    requires
        3 * width * height <= isize::MAX,
    ensures
        canvas_rows(canvas) == uniform_rows(width as int, height as int, color),
{
    Canvas { image: ImageBuffer::from_pixel(width, height, Rgb([color.0, color.1, color.2])) }
}

/// Calls `ImageBuffer::put_pixel`, which panics outside the raster. Claims
/// that exactly the pixel at `(x, y)` changes, to `color`.
#[verifier::external_body]
pub(crate) fn put_pixel(canvas: &mut Canvas, x: u32, y: u32, color: Color)
    requires
        y < canvas_rows(*old(canvas)).len(),
        x < canvas_rows(*old(canvas))[y as int].len(),
    ensures
        canvas_rows(*final(canvas)) == with_pixel(canvas_rows(*old(canvas)), x as int, y as int, color),
{
    canvas.image.put_pixel(x, y, Rgb([color.0, color.1, color.2]))
}

/// Calls `ImageBuffer::get_pixel_checked`. Claims that it hands out the
/// pixel at `(x, y)`, and `None` exactly when that lies outside the raster.
#[verifier::external_body]
fn get_pixel_checked(canvas: &Canvas, x: u32, y: u32) -> (pixel: Option<Color>)
    ensures
        pixel == pixel_of(canvas_rows(*canvas), x as int, y as int),
{
    canvas.image.get_pixel_checked(x, y).map(|p| (p.0[0], p.0[1], p.0[2]))
}

/// Calls `ImageBuffer::write_to` with the PNG format on a buffer in memory.
/// Claims that the answer depends on nothing but the pixels, both whether
/// there is a file and what its bytes are, and that no two rasters are
/// written as the same bytes, PNG being lossless. Which rasters the encoder
/// turns down is not claimed.
#[verifier::external_body]
fn write_png(canvas: &Canvas) -> (out: Result<Vec<u8>, ImageError>)
    ensures
        out is Err <==> png_outcome(canvas_rows(*canvas)) is None,
        out matches Ok(bytes) ==> png_outcome(canvas_rows(*canvas)) == Some(bytes@),
        out matches Ok(bytes) ==> forall|other: Seq<Seq<(u8, u8, u8)>>|
            (#[trigger] png_outcome(other)) == Some(bytes@) ==> other == canvas_rows(*canvas),
{
    let mut buf = Vec::new();
    let written = canvas.image.write_to(&mut Cursor::new(&mut buf), ImageOutputFormat::Png);
    match written {
        Ok(()) => Ok(buf),
        Err(e) => Err(e),
    }
}

/// Formats an `image::ImageError` through its `Display` impl. Nothing is
/// claimed about the text.
#[verifier::external_body]
fn error_text(error: &ImageError) -> (text: String) {
    format!("{}", error)
}

impl Canvas {
    /// A canvas of the given size with every pixel set to `color`. Its
    /// three bytes per pixel have to fit in one allocation.
    pub fn filled(width: u32, height: u32, color: Color) -> (canvas: Canvas)
        requires
            3 * width * height <= isize::MAX,
        ensures
            canvas@ == uniform_rows(width as int, height as int, color),
            is_raster(canvas@, width as int, height as int),
    {
        from_pixel(width, height, color)
    }

    /// The pixel in column `x` of row `y`, or `None` outside the canvas.
    pub fn pixel(&self, x: u32, y: u32) -> (pixel: Option<Color>)
        ensures
            pixel == pixel_of(self@, x as int, y as int),
    {
        get_pixel_checked(self, x, y)
    }
}

/// Serialises a canvas as a PNG file in memory. Whether there is a file and
/// what its bytes are depends on the pixels alone, so encoding the same
/// picture twice gives the same answer; the format is lossless, so no other
/// picture gives the same bytes. Where the encoder turns the canvas down,
/// that comes back as an error and leaves nothing behind.
pub fn encode(canvas: &Canvas) -> (out: Result<Vec<u8>, EncodeError>)
    ensures
        out is Err <==> png_fails(canvas@),
        out matches Ok(bytes) ==> bytes@ == png_encoding(canvas@) && encodes_only(bytes@, canvas@),
{
    // Whether there are bytes is for the encoder to decide; what becomes
    // of its answer is for `encoded` to say.
    let written = write_png(canvas);
    encoded(written)
}

/// What `encode` answers once the encoder has answered: the bytes it wrote,
/// as they are, or else an error that carries the encoder's own words.
pub fn encoded(written: Result<Vec<u8>, ImageError>) -> (out: Result<Vec<u8>, EncodeError>)
    ensures
        (match written {
            Ok(bytes) => out == Ok::<Vec<u8>, EncodeError>(bytes),
            Err(_) => out is Err,
        }),
{
    match written {
        Ok(bytes) => Ok(bytes),
        Err(error) => Err(EncodeError { message: error_text(&error) }),
    }
}

} // verus!
