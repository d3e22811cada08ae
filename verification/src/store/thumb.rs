//! Thumbnails for image entries.
//!
//! This is the only place the daemon decodes a picture, and it exists so that
//! nothing else has to. A shell extension that decoded a twenty-megabyte
//! screenshot would do it on the compositor's own thread, which is the single
//! thing this architecture is arranged to prevent. The daemon does it once, at
//! capture, on its own thread, and every later draw is a small PNG read.

use vstd::prelude::*;

verus! {

/// The longest edge of a generated thumbnail, in pixels.
///
/// A list row draws at roughly ninety logical pixels; this covers that at a
/// 2x scale factor with room to spare, and still encodes to a few kilobytes.
pub const EDGE: u32 = 256;

/// Refuse to decode an image with more pixels than this.
///
/// A decoded frame costs four bytes a pixel whatever the encoded size, so a
/// small file can still describe an enormous allocation. Forty megapixels is
/// past any screenshot and well short of a problem.
pub const MAX_PIXELS: u64 = 40_000_000;

/// The longest edge an image with samples deeper than eight bits is scaled down
/// from as it is. Beyond it so many of them may fall on one pixel that their sum
/// does not fit its counter, and they are brought to eight bits first.
pub const LONG_EDGE: u32 = 50_000;

/// What decoding an image may allocate.
pub const MAX_ALLOC: u64 = 160_000_000;

// ---------------------------------------------------------------------------
// What the image decoder does
// ---------------------------------------------------------------------------

/// The width and height an image's header states, where it is an image that can
/// be read.
pub uninterp spec fn measured(content: Seq<u8>) -> Option<(u32, u32)>;

/// `ImageReader::into_dimensions`, the format guessed from the content: what
/// the header says, which depends on the content alone.
#[verifier::external_body]
fn measure(content: &[u8]) -> (size: Option<(u32, u32)>)
    ensures
        size == measured(content@),
{
    let reader = image::ImageReader::new(std::io::Cursor::new(content));
    reader.with_guessed_format().ok()?.into_dimensions().ok()
}

/// An image decoded within an allocation limit and encoded as PNG, where both
/// can be done.
pub uninterp spec fn as_png(content: Seq<u8>, max_alloc: u64) -> Option<Seq<u8>>;

/// `ImageReader::decode` and `DynamicImage::write_to` as PNG: the result
/// depends on the content and the limit alone, and has the size of the image it
/// was made from.
#[verifier::external_body]
fn encode_png(content: &[u8], max_alloc: u64) -> (png: Option<Vec<u8>>)
    requires
        max_alloc <= MAX_ALLOC,
    ensures
        optional_bytes(png) == as_png(content@, max_alloc),
        png matches Some(made) ==> measured(made@) == measured(content@),
{
    let reader = image::ImageReader::new(std::io::Cursor::new(content));
    let mut reader = reader.with_guessed_format().ok()?;
    let mut limits = image::Limits::default();
    limits.max_alloc = Some(max_alloc);
    reader.limits(limits);
    let mut png = std::io::Cursor::new(Vec::new());
    reader.decode().ok()?.write_to(&mut png, image::ImageFormat::Png).ok()?;
    Some(png.into_inner())
}

/// How many bits a decoded pixel of an image takes, and how many samples it is
/// made of, where it is an image that can be read.
pub uninterp spec fn laid_out(content: Seq<u8>) -> Option<(u16, u8)>;

/// `ImageDecoder::color_type`, the format guessed from the content, with
/// `ColorType::bits_per_pixel` and `ColorType::channel_count`: what the header
/// says, which depends on the content alone.
#[verifier::external_body]
fn lay_out(content: &[u8]) -> (layout: Option<(u16, u8)>)
    ensures
        layout == laid_out(content@),
{
    let reader = image::ImageReader::new(std::io::Cursor::new(content));
    let decoder = reader.with_guessed_format().ok()?.into_decoder().ok()?;
    let colour = image::ImageDecoder::color_type(&decoder);
    Some((colour.bits_per_pixel(), colour.channel_count()))
}

/// Whether the samples of an image may take more than eight bits.
pub open spec fn deep(layout: Option<(u16, u8)>) -> bool {
    match layout {
        Some((bits, samples)) => bits > 8 * samples,
        None => true,
    }
}

/// Whether either edge of an image is longer than deep samples may be summed
/// over.
pub open spec fn long(size: Option<(u32, u32)>) -> bool {
    match size {
        Some((width, height)) => width > LONG_EDGE || height > LONG_EDGE,
        None => true,
    }
}

/// An image decoded within an allocation limit, scaled into a square box and
/// encoded as PNG, where all of it can be done.
pub uninterp spec fn as_boxed_png(content: Seq<u8>, max_alloc: u64, edge: u32) -> Option<Seq<u8>>;

/// `ImageReader::decode`, `DynamicImage::thumbnail` and `DynamicImage::write_to`
/// as PNG: the result depends on the content, the limit and the box alone, and
/// fits in the box.
///
/// `thumbnail` sums all samples that fall on one pixel in thirty-two bits. What
/// decodes within the limit and is spread over a box of this edge leaves far
/// fewer samples of eight bits on any pixel than that holds, and no more than
/// sixty thousand of any depth where neither edge is long.
#[verifier::external_body]
fn encode_boxed_png(content: &[u8], max_alloc: u64, edge: u32) -> (png: Option<Vec<u8>>)
    requires
        max_alloc <= MAX_ALLOC,
        edge == EDGE,
        !deep(laid_out(content@)) || !long(measured(content@)),
    ensures
        optional_bytes(png) == as_boxed_png(content@, max_alloc, edge),
        png matches Some(made) ==> (measured(made@) matches Some((width, height)) && width <= edge
            && height <= edge),
{
    let reader = image::ImageReader::new(std::io::Cursor::new(content));
    let mut reader = reader.with_guessed_format().ok()?;
    let mut limits = image::Limits::default();
    limits.max_alloc = Some(max_alloc);
    reader.limits(limits);
    let small = reader.decode().ok()?.thumbnail(edge, edge);
    let mut png = std::io::Cursor::new(Vec::new());
    small.write_to(&mut png, image::ImageFormat::Png).ok()?;
    Some(png.into_inner())
}

/// An image decoded within an allocation limit, brought to eight bits a sample,
/// scaled into a square box and encoded as PNG, where all of it can be done.
pub uninterp spec fn as_flat_png(content: Seq<u8>, max_alloc: u64, edge: u32) -> Option<Seq<u8>>;

/// `DynamicImage::into_rgba8` between `ImageReader::decode` and
/// `DynamicImage::thumbnail`, and then `DynamicImage::write_to` as PNG: the
/// result depends on the content, the limit and the box alone, and fits in the
/// box.
#[verifier::external_body]
fn encode_flat_png(content: &[u8], max_alloc: u64, edge: u32) -> (png: Option<Vec<u8>>)
    requires
        max_alloc <= MAX_ALLOC,
        edge == EDGE,
    ensures
        optional_bytes(png) == as_flat_png(content@, max_alloc, edge),
        png matches Some(made) ==> (measured(made@) matches Some((width, height)) && width <= edge
            && height <= edge),
{
    let reader = image::ImageReader::new(std::io::Cursor::new(content));
    let mut reader = reader.with_guessed_format().ok()?;
    let mut limits = image::Limits::default();
    limits.max_alloc = Some(max_alloc);
    reader.limits(limits);
    let rgba = reader.decode().ok()?.into_rgba8();
    let small = image::DynamicImage::from(rgba).thumbnail(edge, edge);
    let mut png = std::io::Cursor::new(Vec::new());
    small.write_to(&mut png, image::ImageFormat::Png).ok()?;
    Some(png.into_inner())
}

/// An image decoded within an allocation limit and encoded as a Windows bitmap,
/// where both can be done.
pub uninterp spec fn as_bmp(content: Seq<u8>, max_alloc: u64) -> Option<Seq<u8>>;

/// `ImageReader::decode` and `DynamicImage::write_to` as BMP: the result
/// depends on the content and the limit alone.
#[verifier::external_body]
fn encode_bmp(content: &[u8], max_alloc: u64) -> (bmp: Option<Vec<u8>>)
    requires
        max_alloc <= MAX_ALLOC,
    ensures
        optional_bytes(bmp) == as_bmp(content@, max_alloc),
{
    let reader = image::ImageReader::new(std::io::Cursor::new(content));
    let mut reader = reader.with_guessed_format().ok()?;
    let mut limits = image::Limits::default();
    limits.max_alloc = Some(max_alloc);
    reader.limits(limits);
    let mut bmp = std::io::Cursor::new(Vec::new());
    reader.decode().ok()?.write_to(&mut bmp, image::ImageFormat::Bmp).ok()?;
    Some(bmp.into_inner())
}

/// An image decoded into straight RGBA pixels, with its width and height.
pub uninterp spec fn unpacked(content: Seq<u8>) -> Option<(Seq<u8>, u32, u32)>;

/// `image::load_from_memory` and `DynamicImage::to_rgba8`: the pixels depend on
/// the content alone, four bytes each and without padding.
#[verifier::external_body]
fn unpack(content: &[u8]) -> (pixels: Option<(Vec<u8>, u32, u32)>)
    ensures
        unpacked(content@) == (match pixels {
            Some((rgba, width, height)) => Some((rgba@, width, height)),
            None => None,
        }),
        pixels matches Some((rgba, width, height)) ==> rgba@.len() == width * height * 4,
{
    let rgba = image::load_from_memory(content).ok()?.to_rgba8();
    let (width, height) = rgba.dimensions();
    Some((rgba.into_raw(), width, height))
}

/// The bytes some optional buffer holds.
pub open spec fn optional_bytes(bytes: Option<Vec<u8>>) -> Option<Seq<u8>> {
    match bytes {
        Some(bytes) => Some(bytes@),
        None => None,
    }
}

// ---------------------------------------------------------------------------
// Thumbnails
// ---------------------------------------------------------------------------

/// What could be learned about an image representation.
#[derive(Debug, PartialEq, Eq)]
pub struct Thumbnail {
    pub width: Option<u32>,
    pub height: Option<u32>,
    /// An encoded PNG, or `None` when one could not be produced.
    pub png: Option<Vec<u8>>,
}

/// The same as the contracts speak of it.
pub struct ThumbnailView {
    pub width: Option<u32>,
    pub height: Option<u32>,
    pub png: Option<Seq<u8>>,
}

impl View for Thumbnail {
    type V = ThumbnailView;

    open spec fn view(&self) -> ThumbnailView {
        ThumbnailView {
            width: self.width,
            height: self.height,
            png: optional_bytes(self.png),
        }
    }
}

/// Nothing learned.
pub open spec fn nothing_learned() -> ThumbnailView {
    ThumbnailView { width: None, height: None, png: None }
}

impl Default for Thumbnail {
    fn default() -> (thumbnail: Thumbnail)
        ensures
            thumbnail@ == nothing_learned(),
    {
        Thumbnail { width: None, height: None, png: None }
    }
}

/// How an image of some size gets its thumbnail.
#[derive(Debug, Clone, Copy, PartialEq, Eq, Structural)]
pub enum Treatment {
    /// It is not an image.
    Unreadable,
    /// It is too large to decode: only its size is recorded.
    Measured,
    /// It fits in the box as it is.
    Whole,
    /// It is scaled into the box.
    Boxed,
    /// It is brought to eight bits a sample and scaled into the box.
    Flattened,
}

/// How an image of some size and layout gets its thumbnail.
pub open spec fn treatment(size: Option<(u32, u32)>, layout: Option<(u16, u8)>) -> Treatment {
    match size {
        Some((width, height)) => if width * height > MAX_PIXELS {
            Treatment::Measured
        } else if width <= EDGE && height <= EDGE {
            Treatment::Whole
        } else if deep(layout) && long(size) {
            Treatment::Flattened
        } else {
            Treatment::Boxed
        },
        None => Treatment::Unreadable,
    }
}

/// Decides from its size and layout how an image gets its thumbnail.
///
/// Scaling to a box keeps the aspect ratio but scales in both directions, so an
/// image already inside the box would come back enlarged and blurry. A
/// thumbnail only ever shrinks.
pub fn treat(size: Option<(u32, u32)>, layout: Option<(u16, u8)>) -> (how: Treatment)
    ensures
        how == treatment(size, layout),
        size matches Some((width, height)) ==> {
            &&& how == Treatment::Measured <==> width * height > MAX_PIXELS
            &&& how != Treatment::Unreadable
        },
        size is None ==> how == Treatment::Unreadable,
{
    let deep: bool = match layout {
        Some((bits, samples)) => bits > 8 * samples as u16,
        None => true,
    };
    match size {
        Some((width, height)) => {
            assert(width * height <= 0xffff_ffff * 0xffff_ffff) by (nonlinear_arith)
                requires
                    width <= 0xffff_ffff,
                    height <= 0xffff_ffff,
            ;
            if width as u64 * height as u64 > MAX_PIXELS {
                Treatment::Measured
            } else if width <= EDGE && height <= EDGE {
                Treatment::Whole
            } else if deep && (width > LONG_EDGE || height > LONG_EDGE) {
                Treatment::Flattened
            } else {
                Treatment::Boxed
            }
        },
        None => Treatment::Unreadable,
    }
}

/// What is learned about an image.
pub open spec fn made(content: Seq<u8>) -> ThumbnailView {
    match measured(content) {
        Some((width, height)) => ThumbnailView {
            width: Some(width),
            height: Some(height),
            png: match treatment(measured(content), laid_out(content)) {
                Treatment::Whole => as_png(content, MAX_ALLOC),
                Treatment::Boxed => as_boxed_png(content, MAX_ALLOC, EDGE),
                Treatment::Flattened => as_flat_png(content, MAX_ALLOC, EDGE),
                _ => None,
            },
        },
        None => nothing_learned(),
    }
}

/// What is learned about an image from its header alone.
pub open spec fn sized(content: Seq<u8>) -> ThumbnailView {
    match measured(content) {
        Some((width, height)) => ThumbnailView {
            width: Some(width),
            height: Some(height),
            png: None,
        },
        None => nothing_learned(),
    }
}

/// Reads an image's dimensions and nothing else of it.
pub fn size_up(content: &[u8]) -> (thumbnail: Thumbnail)
    ensures
        thumbnail@ == sized(content@),
{
    match measure(content) {
        Some((width, height)) => Thumbnail { width: Some(width), height: Some(height), png: None },
        None => Thumbnail { width: None, height: None, png: None },
    }
}

/// Reads an image's dimensions and renders a thumbnail of it.
///
/// Never fails: an image this build cannot decode is simply an entry without a
/// thumbnail, and the UI draws a kind icon instead. A corrupt or hostile
/// payload must not cost the archive the entry.
///
/// The thumbnail is never larger than the box, and an image already inside the
/// box keeps its own size.
pub fn make(content: &[u8]) -> (thumbnail: Thumbnail)
    ensures
        thumbnail@ == made(content@),
        thumbnail.png matches Some(png) ==> (measured(png@) matches Some((width, height)) && width
            <= EDGE && height <= EDGE),
        thumbnail.png is Some && treatment(measured(content@), laid_out(content@))
            == Treatment::Whole ==> measured(thumbnail.png->0@) == measured(content@),
{
    let size = measure(content);
    let (width, height) = match size {
        Some((width, height)) => (width, height),
        None => {
            return Thumbnail { width: None, height: None, png: None };
        },
    };
    // Dimensions are worth recording even when the thumbnail is not worth
    // making: the UI shows them, and they cost only a header read.
    let png: Option<Vec<u8>> = match treat(size, lay_out(content)) {
        Treatment::Whole => encode_png(content, MAX_ALLOC),
        Treatment::Boxed => encode_boxed_png(content, MAX_ALLOC, EDGE),
        Treatment::Flattened => encode_flat_png(content, MAX_ALLOC, EDGE),
        _ => None,
    };
    Thumbnail { width: Some(width), height: Some(height), png }
}

/// A thumbnail as the pixels a compositor can upload directly.
pub struct Pixels {
    pub rgba: Vec<u8>,
    pub width: u32,
    pub height: u32,
}

impl Pixels {
    /// Four bytes a pixel, no padding, and rows whose length can be stated.
    pub open spec fn well_formed(self) -> bool {
        &&& self.rgba@.len() == self.width * self.height * 4
        &&& self.width * 4 <= u32::MAX
    }

    /// Bytes per row. Always tight: the decoder produces no padding.
    pub fn stride(&self) -> (bytes: u32)
        requires
            self.width * 4 <= u32::MAX,
        ensures
            bytes == self.width * 4,
    {
        self.width * 4
    }
}

/// Decodes a stored thumbnail into straight RGBA.
///
/// Thumbnails are stored as PNG because a few kilobytes is the right thing to
/// keep on disk, and served as pixels because the only way a GNOME Shell
/// extension can draw arbitrary image data is `St.ImageContent.set_bytes`,
/// which wants exactly this. Doing the decode here rather than there is the
/// same rule as everywhere else: a picker opening forty rows must not run
/// forty decodes on the compositor's thread.
///
/// An image whose rows are too long for their length to be stated is none that
/// was stored as a thumbnail, and yields nothing.
pub fn decode(png: &[u8]) -> (pixels: Option<Pixels>)
    ensures
        match pixels {
            Some(pixels) => unpacked(png@) == Some((pixels.rgba@, pixels.width, pixels.height))
                && pixels.well_formed(),
            None => unpacked(png@) matches Some((_, width, _)) ==> width * 4 > u32::MAX,
        },
{
    match unpack(png) {
        Some((rgba, width, height)) => {
            if width > u32::MAX / 4 {
                None
            } else {
                Some(Pixels { rgba, width, height })
            }
        },
        None => None,
    }
}

/// Renders an image as a Windows bitmap, the one form an RDP clipboard channel
/// relays.
pub fn to_bmp(content: &[u8]) -> (bmp: Option<Vec<u8>>)
    ensures
        optional_bytes(bmp) == as_bmp(content@, MAX_ALLOC),
{
    encode_bmp(content, MAX_ALLOC)
}

// ---------------------------------------------------------------------------
// What a thumbnail promises
// ---------------------------------------------------------------------------

/// Every readable picture of at most forty million pixels gets a thumbnail, and
/// a picture of more is only measured, whichever way round it lies.
pub proof fn every_picture_of_bounded_size_gets_a_thumbnail(
    width: u32,
    height: u32,
    layout: Option<(u16, u8)>,
)
    ensures
        ({
            let how = treatment(Some((width, height)), layout);
            let small = width * height <= 40_000_000;
            &&& small <==> how == Treatment::Whole || how == Treatment::Boxed || how
                == Treatment::Flattened
            &&& !small <==> how == Treatment::Measured
            &&& how == treatment(Some((height, width)), layout)
        }),
        treatment(None, layout) == Treatment::Unreadable,
{
    assert(width * height == height * width) by (nonlinear_arith);
}

/// A picture that fits in the box is kept at its own size; a larger one is
/// scaled into the box, by way of eight-bit samples only where its samples are
/// wider or unknown and one of its sides is very long.
pub proof fn a_thumbnail_only_ever_shrinks(width: u32, height: u32, layout: Option<(u16, u8)>)
    requires
        width * height <= 40_000_000,
    ensures
        ({
            let how = treatment(Some((width, height)), layout);
            &&& how == Treatment::Whole <==> width <= 256 && height <= 256
            &&& width <= 50_000 && height <= 50_000 ==> how != Treatment::Flattened
            &&& (layout matches Some((bits, samples)) && bits <= 8 * samples) ==> how
                != Treatment::Flattened
            &&& (layout matches Some((bits, samples)) ==> bits > 8 * samples) && (width > 50_000
                || height > 50_000) ==> how == Treatment::Flattened
        }),
{
    assert(width <= 256 && height <= 256 ==> width * height <= 256 * 256) by (nonlinear_arith);
}

/// What is recorded of a picture is its own size, whatever becomes of its
/// thumbnail; of anything else nothing is recorded. The thumbnail is the
/// picture itself where it fits in the box, and the picture scaled into the box
/// otherwise.
pub proof fn a_picture_is_recorded_by_its_own_size(content: Seq<u8>)
    ensures
        measured(content) is None ==> made(content).width is None && made(content).height is None
            && made(content).png is None,
        measured(content) matches Some((width, height)) ==> {
            &&& made(content).width == Some(width)
            &&& made(content).height == Some(height)
            &&& width * height > 40_000_000 ==> made(content).png is None
            &&& width <= 256 && height <= 256 ==> made(content).png == as_png(
                content,
                160_000_000,
            )
            &&& width * height <= 40_000_000 && !(width <= 256 && height <= 256) && width <= 50_000
                && height <= 50_000 ==> made(content).png == as_boxed_png(
                content,
                160_000_000,
                256,
            )
            &&& width * height <= 40_000_000 && (width > 50_000 || height > 50_000) ==> made(
                content,
            ).png == (if laid_out(content) matches Some((bits, samples)) && bits <= 8 * samples {
                as_boxed_png(content, 160_000_000, 256)
            } else {
                as_flat_png(content, 160_000_000, 256)
            })
        },
        sized(content).width == made(content).width,
        sized(content).height == made(content).height,
        sized(content).png is None,
{
    if let Some((width, height)) = measured(content) {
        assert(width <= 256 && height <= 256 ==> width * height <= 256 * 256) by (nonlinear_arith);
    }
}

} // verus!
