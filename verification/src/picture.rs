//! Decoded photos: turning them upright, scaling them, and what is computed
//! from their pixels.

use crate::exif_read::read_exif_orientation;
use crate::text::joined;
use vstd::arithmetic::div_mod::lemma_fundamental_div_mod_converse;
use vstd::prelude::*;

verus! {

/// `image::DynamicImage`.
#[verifier::external_type_specification]
#[verifier::external_body]
pub struct ExDynamicImage(image::DynamicImage);

/// How the bytes of a pixel give its colour: the variants of `DynamicImage`.
pub enum Layout {
    Luma8,
    LumaA8,
    Rgb8,
    Rgba8,
    Luma16,
    LumaA16,
    Rgb16,
    Rgba16,
    Rgb32F,
    Rgba32F,
}

/// What an image holds: rows of `width` pixels from the top down, each pixel as
/// the bytes of its samples, the lowest byte of a sample first on every machine.
#[verifier::ext_equal]
pub struct Raster {
    pub layout: Layout,
    pub width: nat,
    pub rows: Seq<Seq<Seq<u8>>>,
}

/// What a decoded image holds.
pub uninterp spec fn raster(img: image::DynamicImage) -> Raster;

/// An image scaled to exactly this width and height with the triangle filter.
pub uninterp spec fn scaled(r: Raster, width: nat, height: nat) -> Raster;

/// An image scaled with the triangle filter to the largest size within this
/// width and height that keeps its proportions.
pub uninterp spec fn fitted(r: Raster, width: nat, height: nat) -> Raster;

/// The gray values of an image, row after row.
pub uninterp spec fn luma(r: Raster) -> Seq<u8>;

/// The bytes of an image as eight-bit RGB, row after row.
pub uninterp spec fn rgb8(r: Raster) -> Seq<u8>;

/// The JPEG file of an image, its pixels taken as eight-bit RGB.
pub uninterp spec fn jpeg(r: Raster) -> Seq<u8>;

/// What decoding the bytes of a file gives: an image, or the text of an error.
pub uninterp spec fn decoded(content: Seq<u8>) -> Result<Raster, Seq<char>>;

impl Raster {
    pub open spec fn height(self) -> nat {
        self.rows.len()
    }

    /// Every row has `width` pixels.
    pub open spec fn well_formed(self) -> bool {
        forall|y: int| 0 <= y < self.height() ==> (#[trigger] self.rows[y]).len() == self.width
    }

    /// Its rows can become columns: the bytes of a row of as many pixels can be
    /// counted even where there are no pixels.
    pub open spec fn turnable(self) -> bool {
        self.width > 0 || self.height() * 4 <= usize::MAX
    }

    /// The pixel in column `x` of row `y`.
    pub open spec fn pixel(self, x: int, y: int) -> Seq<u8> {
        self.rows[y][x]
    }

    /// An image of the same layout with these pixels.
    pub open spec fn redrawn(
        self,
        width: nat,
        height: nat,
        pixel: spec_fn(int, int) -> Seq<u8>,
    ) -> Raster {
        Raster {
            layout: self.layout,
            width,
            rows: Seq::new(height, |y: int| Seq::new(width, |x: int| pixel(x, y))),
        }
    }

    /// Left and right exchanged.
    pub open spec fn mirrored(self) -> Raster {
        self.redrawn(self.width, self.height(), |x: int, y: int| self.pixel(self.width - 1 - x, y))
    }

    /// Top and bottom exchanged.
    pub open spec fn flipped(self) -> Raster {
        self.redrawn(
            self.width,
            self.height(),
            |x: int, y: int| self.pixel(x, self.height() - 1 - y),
        )
    }

    /// Turned upside down.
    pub open spec fn half_turned(self) -> Raster {
        self.redrawn(
            self.width,
            self.height(),
            |x: int, y: int| self.pixel(self.width - 1 - x, self.height() - 1 - y),
        )
    }

    /// Turned clockwise by a right angle.
    pub open spec fn turned_right(self) -> Raster {
        self.redrawn(
            self.height(),
            self.width,
            |x: int, y: int| self.pixel(y, self.height() - 1 - x),
        )
    }

    /// Turned counterclockwise by a right angle.
    pub open spec fn turned_left(self) -> Raster {
        self.redrawn(
            self.height(),
            self.width,
            |x: int, y: int| self.pixel(self.width - 1 - y, x),
        )
    }

    /// Rows and columns exchanged, along the diagonal from the top left.
    pub open spec fn transposed(self) -> Raster {
        self.redrawn(self.height(), self.width, |x: int, y: int| self.pixel(y, x))
    }

    /// Rows and columns exchanged, along the diagonal from the top right.
    pub open spec fn transversed(self) -> Raster {
        self.redrawn(
            self.height(),
            self.width,
            |x: int, y: int| self.pixel(self.width - 1 - y, self.height() - 1 - x),
        )
    }

    /// As it is meant to be seen, by its Exif orientation.
    pub open spec fn oriented(self, orientation: u32) -> Raster {
        match orientation {
            2 => self.mirrored(),
            3 => self.half_turned(),
            4 => self.flipped(),
            5 => self.transposed(),
            6 => self.turned_right(),
            7 => self.transversed(),
            8 => self.turned_left(),
            _ => self,
        }
    }
}

/// `DynamicImage::width`.
#[verifier::external_body]
pub(crate) fn width_of(img: &image::DynamicImage) -> (w: u32)
    ensures
        w == raster(*img).width,
{
    img.width()
}

/// `DynamicImage::height`.
#[verifier::external_body]
pub(crate) fn height_of(img: &image::DynamicImage) -> (h: u32)
    ensures
        h == raster(*img).height(),
{
    img.height()
}

/// `DynamicImage::fliph` exchanges left and right.
#[verifier::external_body]
fn fliph(img: &image::DynamicImage) -> (r: image::DynamicImage)
    ensures
        raster(r) == raster(*img).mirrored(),
{
    img.fliph()
}

/// `DynamicImage::flipv` exchanges top and bottom.
#[verifier::external_body]
fn flipv(img: &image::DynamicImage) -> (r: image::DynamicImage)
    ensures
        raster(r) == raster(*img).flipped(),
{
    img.flipv()
}

/// `DynamicImage::rotate90` turns clockwise by 90 degrees. It panics where a row
/// of the result has more bytes than can be counted; where there are pixels,
/// none has.
#[verifier::external_body]
fn rotate90(img: &image::DynamicImage) -> (r: image::DynamicImage)
    requires
        raster(*img).turnable(),
    ensures
        raster(r) == raster(*img).turned_right(),
{
    img.rotate90()
}

/// `DynamicImage::rotate180` turns by 180 degrees.
#[verifier::external_body]
fn rotate180(img: &image::DynamicImage) -> (r: image::DynamicImage)
    ensures
        raster(r) == raster(*img).half_turned(),
{
    img.rotate180()
}

/// `DynamicImage::rotate270` turns clockwise by 270 degrees. It panics where a row
/// of the result has more bytes than can be counted; where there are pixels,
/// none has.
#[verifier::external_body]
fn rotate270(img: &image::DynamicImage) -> (r: image::DynamicImage)
    requires
        raster(*img).turnable(),
    ensures
        raster(r) == raster(*img).turned_left(),
{
    img.rotate270()
}

/// `DynamicImage::resize_exact` with the triangle filter: an image of exactly
/// this size, which is a function of the pixels and the size.
#[verifier::external_body]
pub(crate) fn resize_exact(img: &image::DynamicImage, width: u32, height: u32) -> (r: image::DynamicImage)
    requires
        width < 0x10000,
        height < 0x10000,
    ensures
        raster(r) == scaled(raster(*img), width as nat, height as nat),
        raster(r).width == width,
        raster(r).height() == height,
{
    img.resize_exact(width, height, image::imageops::FilterType::Triangle)
}

/// `DynamicImage::resize` with the triangle filter: an image that keeps the
/// proportions and fits into this size, at least one pixel wide and high. It is
/// a function of the pixels and the size.
#[verifier::external_body]
fn resize(img: &image::DynamicImage, width: u32, height: u32) -> (r: image::DynamicImage)
    requires
        0 < width < 0x10000,
        0 < height < 0x10000,
    ensures
        raster(r) == fitted(raster(*img), width as nat, height as nat),
        0 < raster(r).width <= width,
        0 < raster(r).height() <= height,
{
    img.resize(width, height, image::imageops::FilterType::Triangle)
}

/// `DynamicImage::to_luma8`, then the bytes of the gray image: one for each
/// pixel.
#[verifier::external_body]
fn gray_values(img: &image::DynamicImage) -> (gray: Vec<u8>)
    ensures
        gray@ == luma(raster(*img)),
        gray@.len() == raster(*img).width * raster(*img).height(),
{
    img.to_luma8().into_raw()
}

/// `DynamicImage::to_rgb8`, then the bytes of the RGB image: three for each
/// pixel.
#[verifier::external_body]
pub(crate) fn rgb_values(img: &image::DynamicImage) -> (rgb: Vec<u8>)
    requires
        3 * raster(*img).width <= usize::MAX,
        3 * (raster(*img).width * raster(*img).height()) <= usize::MAX,
    ensures
        rgb@ == rgb8(raster(*img)),
        rgb@.len() == 3 * (raster(*img).width * raster(*img).height()),
{
    img.to_rgb8().into_raw()
}

/// `DynamicImage::to_rgb8`, then `ImageBuffer::write_to` as JPEG into memory,
/// which takes images of up to 65535 pixels a side. The bytes are a function of
/// the pixels.
#[verifier::external_body]
fn jpeg_file(img: &image::DynamicImage) -> (bytes: Vec<u8>)
    requires
        raster(*img).width < 0x10000,
        raster(*img).height() < 0x10000,
        3 * (raster(*img).width * raster(*img).height()) <= usize::MAX,
    ensures
        bytes@ == jpeg(raster(*img)),
{
    let mut bytes = Vec::new();
    let rgb = img.to_rgb8();
    rgb.write_to(&mut std::io::Cursor::new(&mut bytes), image::ImageFormat::Jpeg)
        .expect("jpeg encode");
    bytes
}

/// The three bytes of each pixel, row after row, as an image.
pub open spec fn rgb_raster(width: nat, height: nat, data: Seq<u8>) -> Raster {
    Raster {
        layout: Layout::Rgb8,
        width,
        rows: Seq::new(
            height,
            |y: int|
                Seq::new(
                    width,
                    |x: int| data.subrange((y * width + x) * 3, (y * width + x) * 3 + 3),
                ),
        ),
    }
}

/// There are enough bytes for the pixels of an image of this size, and those of
/// a row can be counted.
pub open spec fn fills(width: nat, height: nat, len: nat) -> bool {
    width * 3 <= usize::MAX && width * height * 3 <= len
}

/// `RgbImage::from_raw`: an image from the bytes of its pixels, row after row,
/// or `None` where these are too few, or the bytes of a row cannot be counted.
#[verifier::external_body]
fn from_raw(width: u32, height: u32, data: Vec<u8>) -> (r: Option<image::DynamicImage>)
    ensures
        r is Some <==> fills(width as nat, height as nat, data@.len()),
        r matches Some(img) ==> raster(img) == rgb_raster(
            width as nat,
            height as nat,
            data@,
        ),
{
    image::RgbImage::from_raw(width, height, data).map(image::DynamicImage::ImageRgb8)
}

/// An image from eight-bit RGB pixels; `mismatch` is the error where there are
/// fewer bytes than the size asks for.
pub fn rgb_image(width: u32, height: u32, data: Vec<u8>, mismatch: &str) -> (r: Result<
    image::DynamicImage,
    String,
>)
    ensures
        match r {
            Ok(img) => fills(width as nat, height as nat, data@.len()) && raster(img)
                == rgb_raster(width as nat, height as nat, data@),
            Err(e) => !fills(width as nat, height as nat, data@.len()) && e@ == mismatch@,
        },
{
    match from_raw(width, height, data) {
        Some(img) => Ok(img),
        None => Err(mismatch.to_owned()),
    }
}

/// Turns a photo as its Exif orientation says. An orientation outside 2 to 8
/// leaves it as it is.
pub fn apply_exif_orientation(
    img: image::DynamicImage,
    orientation: u32,
) -> (r: image::DynamicImage)
    requires
        5 <= orientation <= 8 ==> raster(img).turnable(),
    ensures
        raster(r) == raster(img).oriented(orientation),
{
    let ghost old_raster = raster(img);
    match orientation {
        2 => fliph(&img),
        3 => rotate180(&img),
        4 => flipv(&img),
        5 => {
            let r = fliph(&rotate90(&img));
            proof {
                assert(old_raster.turned_right().mirrored() =~~= old_raster.transposed());
            }
            r
        },
        6 => rotate90(&img),
        7 => {
            let r = fliph(&rotate270(&img));
            proof {
                assert(old_raster.turned_left().mirrored() =~~= old_raster.transversed());
            }
            r
        },
        8 => rotate270(&img),
        _ => img,
    }
}

/// The first bytes of every PNG file.
pub open spec fn png_signature() -> Seq<u8> {
    seq![0x89, 0x50, 0x4e, 0x47, 0x0d, 0x0a, 0x1a, 0x0a]
}

/// The first bytes of every BMP file.
pub open spec fn bmp_signature() -> Seq<u8> {
    seq![0x42, 0x4d]
}

/// The bytes of a file begin with these.
pub open spec fn begins_with(content: Seq<u8>, start: Seq<u8>) -> bool {
    start.len() <= content.len() && content.take(start.len() as int) == start
}

/// What names the palette of a PNG file.
pub open spec fn palette_name() -> Seq<u8> {
    seq![0x50, 0x4c, 0x54, 0x45]
}

/// The number that the four bytes from `at` on write, most significant first.
pub open spec fn big_endian(content: Seq<u8>, at: int) -> nat {
    (content[at] as nat * 256 + content[at + 1] as nat) * 65536 + content[at + 2] as nat * 256
        + content[at + 3] as nat
}

/// From `at` on stands the length of a palette, in bytes, then its name.
pub open spec fn palette_at(content: Seq<u8>, at: int) -> bool {
    0 <= at && at + 8 <= content.len() && content.subrange(at + 4, at + 8) == palette_name()
}

/// A palette of this many bytes has whole colours and no more than 256.
pub open spec fn palette_fits(length: nat) -> bool {
    length % 3 == 0 && length <= 3 * 256
}

/// A PNG file in which no palette is torn or too long.
pub open spec fn is_sound_png(content: Seq<u8>) -> bool {
    begins_with(content, png_signature()) && forall|at: int| #[trigger]
        palette_at(content, at) ==> palette_fits(big_endian(content, at))
}

/// A BMP file whose width, of which the lower half stands here, is not 0.
pub open spec fn is_sound_bmp(content: Seq<u8>) -> bool {
    begins_with(content, bmp_signature()) && (content.len() >= 20 ==> content[18] != 0
        || content[19] != 0)
}

/// A file whose decoder gives an image or an error, whatever else is in it, on a
/// machine that counts bytes in 64 bits.
pub open spec fn is_plain_image(content: Seq<u8>) -> bool {
    usize::MAX == u64::MAX && (is_sound_png(content) || is_sound_bmp(content))
}

/// Whether bytes begin with others.
fn starts_with_bytes(content: &[u8], start: &[u8]) -> (r: bool)
    ensures
        r == begins_with(content@, start@),
{
    if content.len() < start.len() {
        return false;
    }
    for i in 0..start.len()
        invariant
            start@.len() <= content@.len(),
            forall|k: int| 0 <= k < i ==> content@[k] == #[trigger] start@[k],
    {
        if content[i] != start[i] {
            proof {
                assert(content@.take(start@.len() as int)[i as int] != start@[i as int]);
            }
            return false;
        }
    }
    proof {
        assert(content@.take(start@.len() as int) =~= start@);
    }
    true
}

/// Whether a palette of a PNG file may stand at `at`, and is torn or too long.
fn is_torn_palette(content: &[u8], at: usize) -> (r: bool)
    requires
        at + 8 <= content@.len() <= usize::MAX,
    ensures
        r == (palette_at(content@, at as int) && !palette_fits(big_endian(content@, at as int))),
{
    let named = content[at + 4] == 0x50 && content[at + 5] == 0x4c && content[at + 6] == 0x54
        && content[at + 7] == 0x45;
    let ghost name = content@.subrange(at + 4, at + 8);
    proof {
        if named {
            assert(name =~= palette_name());
        } else {
            assert(name[0] != 0x50 || name[1] != 0x4c || name[2] != 0x54 || name[3] != 0x45);
            assert(palette_name()[0] == 0x50 && palette_name()[1] == 0x4c && palette_name()[2]
                == 0x54 && palette_name()[3] == 0x45);
        }
    }
    let length = (content[at] as u64 * 256 + content[at + 1] as u64) * 65536 + content[at
        + 2] as u64 * 256 + content[at + 3] as u64;
    named && (length % 3 != 0 || length > 3 * 256)
}

/// Whether the decoder of a file gives an image or an error, whatever else is
/// in the file, on this machine.
pub fn plain_image(content: &[u8]) -> (r: bool)
    ensures
        r == is_plain_image(content@),
{
    if usize::MAX as u64 != u64::MAX {
        return false;
    }
    let bmp: [u8; 2] = [0x42, 0x4d];
    let png: [u8; 8] = [0x89, 0x50, 0x4e, 0x47, 0x0d, 0x0a, 0x1a, 0x0a];
    proof {
        assert(bmp@ =~= bmp_signature());
        assert(png@ =~= png_signature());
    }
    if starts_with_bytes(content, &bmp) {
        proof {
            assert(content@.take(2)[0] == content@[0]);
            assert(is_sound_png(content@) ==> content@.take(8)[0] == content@[0]);
        }
        return content.len() < 20 || content[18] != 0 || content[19] != 0;
    }
    if !starts_with_bytes(content, &png) {
        return false;
    }
    for at in 0..content.len() - 7
        invariant
            usize::MAX == u64::MAX,
            content@.len() >= 8,
            !begins_with(content@, bmp_signature()),
            forall|k: int|
                0 <= k < at ==> (#[trigger] palette_at(content@, k) ==> palette_fits(
                    big_endian(content@, k),
                )),
    {
        if is_torn_palette(content, at) {
            return false;
        }
    }
    true
}

/// `image::ImageReader` over bytes in memory: the format is that of the content;
/// then the decoded image, or the text of the error. Both are a function of the
/// bytes. Only the decoders of PNG and BMP are relied on not to panic, and only
/// where bytes are counted in 64 bits. That of PNG panics on a palette that is
/// torn or has more than 256 colours and that of BMP on an image without width,
/// so these are left out; so are the other formats, whose decoders panic on
/// more files than can be told apart here.
#[verifier::external_body]
fn decode(content: &[u8]) -> (r: Result<image::DynamicImage, String>)
    requires
        is_plain_image(content@),
    ensures
        decoded_view(r) == decoded(content@),
{
    let reader = image::ImageReader::new(std::io::Cursor::new(content));
    let reader = reader.with_guessed_format().map_err(|e| e.to_string())?;
    reader.decode().map_err(|e| e.to_string())
}

/// What the outcome of decoding holds: an image, or the text of an error.
pub open spec fn decoded_view(r: Result<image::DynamicImage, String>) -> Result<
    Raster,
    Seq<char>,
> {
    match r {
        Ok(img) => Ok(raster(img)),
        Err(e) => Err(e@),
    }
}

/// The orientation in the Exif fields of a file; upright where there is none.
pub open spec fn orientation_of(fields: Option<crate::exif_read::Fields>) -> u32 {
    match fields {
        Some(f) => match f.number(crate::exif_read::NumberField::Orientation) {
            Some(n) => n,
            None => crate::exif_read::UPRIGHT,
        },
        None => crate::exif_read::UPRIGHT,
    }
}

/// Turns the image that was decoded from a file as the Exif fields of the file
/// say.
pub fn upright(img: image::DynamicImage, content: &[u8]) -> (r: image::DynamicImage)
    requires
        raster(img).turnable(),
    ensures
        raster(r) == raster(img).oriented(
            orientation_of(crate::exif_read::container_fields(content@)),
        ),
{
    apply_exif_orientation(img, read_exif_orientation(content))
}

/// A decoded image turned as the Exif fields of its file say; one that cannot
/// be turned stays as it is, and so does an error.
pub open spec fn turned_upright(
    outcome: Result<Raster, Seq<char>>,
    content: Seq<u8>,
) -> Result<Raster, Seq<char>> {
    match outcome {
        Ok(r) => if r.turnable() {
            Ok(r.oriented(orientation_of(crate::exif_read::container_fields(content))))
        } else {
            Ok(r)
        },
        Err(e) => Err(e),
    }
}

/// Whether an image can be turned by a right angle.
fn can_turn(img: &image::DynamicImage) -> (r: bool)
    ensures
        r == raster(*img).turnable(),
{
    width_of(img) > 0 || height_of(img) as u64 * 4 <= usize::MAX as u64
}

/// Turns what was decoded from a file as the Exif fields of the file say; an
/// image that cannot be turned stays as it is, and so does an error.
pub fn turn_decoded(outcome: Result<image::DynamicImage, String>, content: &[u8]) -> (r: Result<
    image::DynamicImage,
    String,
>)
    ensures
        decoded_view(r) == turned_upright(decoded_view(outcome), content@),
{
    match outcome {
        Ok(img) => if can_turn(&img) {
            Ok(upright(img, content))
        } else {
            Ok(img)
        },
        Err(e) => Err(e),
    }
}

/// The image in a file, whatever its extension says, as it is meant to be seen.
/// `None` where the file is not a plain one: such a file is decoded elsewhere,
/// and `turn_decoded` does the rest.
pub fn open_image(content: &[u8]) -> (r: Option<Result<image::DynamicImage, String>>)
    ensures
        match r {
            Some(outcome) => is_plain_image(content@) && decoded_view(outcome) == turned_upright(
                decoded(content@),
                content@,
            ),
            None => !is_plain_image(content@),
        },
{
    if plain_image(content) {
        Some(turn_decoded(decode(content), content))
    } else {
        None
    }
}

/// The orientation that undoes another.
pub open spec fn undoing(orientation: u32) -> u32 {
    match orientation {
        6 => 8,
        8 => 6,
        _ => orientation,
    }
}

/// Every orientation can be undone, keeps the number of pixels and the layout,
/// and exchanges width and height just where it turns by a right angle.
pub proof fn law_orientation_loses_nothing(r: Raster, orientation: u32)
    requires
        r.well_formed(),
    ensures
        r.oriented(orientation).well_formed(),
        r.oriented(orientation).layout == r.layout,
        5 <= orientation <= 8 ==> r.oriented(orientation).width == r.height() && r.oriented(
            orientation,
        ).height() == r.width,
        !(5 <= orientation <= 8) ==> r.oriented(orientation).width == r.width && r.oriented(
            orientation,
        ).height() == r.height(),
        r.oriented(orientation).oriented(undoing(orientation)) == r,
{
    assert(r.oriented(orientation).oriented(undoing(orientation)) =~~= r);
}

/// The sum of values.
pub open spec fn total(values: Seq<u8>) -> nat
    decreases values.len(),
{
    if values.len() == 0 {
        0
    } else {
        total(values.drop_last()) + values.last() as nat
    }
}

/// The side of the square that a photo is scaled to for its hash.
pub const HASH_SIDE: u32 = 8;

/// A value is at least the mean of all of them.
pub open spec fn is_bright(values: Seq<u8>, i: int) -> bool {
    values[i] * values.len() >= total(values)
}

/// A hash whose bit `i` tells whether value `i` is at least the mean.
pub open spec fn is_average_hash(hash: u64, values: Seq<u8>) -> bool {
    forall|i: int|
        0 <= i < values.len() ==> (#[trigger] crate::dedup::bit(hash, i as nat) == is_bright(
            values,
            i,
        ))
}

proof fn lemma_set_bit(hash: u64, i: u64, k: u64)
    requires
        i < 64,
        k < 64,
    ensures
        crate::dedup::bit(hash | (1u64 << i), k as nat) == (k == i || crate::dedup::bit(
            hash,
            k as nat,
        )),
{
    assert((((hash | (1u64 << i)) >> k) & 1 == 1) == (k == i || (hash >> k) & 1 == 1))
        by (bit_vector)
        requires
            i < 64,
            k < 64,
    ;
}

/// The average hash of 64 gray values.
pub fn hash_of_pixels(values: &[u8]) -> (hash: u64)
    requires
        values@.len() == 64,
    ensures
        is_average_hash(hash, values@),
{
    let mut sum: u32 = 0;
    for i in 0..values.len()
        invariant
            values@.len() == 64,
            sum == total(values@.take(i as int)),
            sum <= 255 * i,
    {
        proof {
            assert(values@.take(i + 1).drop_last() == values@.take(i as int));
        }
        sum = sum + values[i] as u32;
    }
    proof {
        assert(values@.take(64) == values@);
    }
    let mut hash: u64 = 0;
    proof {
        assert forall|k: int| 0 <= k < 64 implies !#[trigger] crate::dedup::bit(0, k as nat) by {
            let j = k as u64;
            assert((0u64 >> j) & 1 == 0) by (bit_vector);
        }
    }
    for i in 0..values.len()
        invariant
            values@.len() == 64,
            sum == total(values@),
            forall|k: int|
                0 <= k < 64 ==> (#[trigger] crate::dedup::bit(hash, k as nat) == (k < i
                    && is_bright(values@, k))),
    {
        if values[i] as u32 * 64 >= sum {
            let ghost before = hash;
            hash = hash | (1u64 << (i as u64));
            proof {
                assert forall|k: int| 0 <= k < 64 implies (#[trigger] crate::dedup::bit(
                    hash,
                    k as nat,
                ) == (k < i + 1 && is_bright(values@, k))) by {
                    lemma_set_bit(before, i as u64, k as u64);
                }
            }
        }
    }
    hash
}

/// A hash is that of a photo: of its gray pixels, scaled to 8 by 8.
pub open spec fn is_hash_of(hash: u64, r: Raster) -> bool {
    let gray = luma(scaled(r, HASH_SIDE as nat, HASH_SIDE as nat));
    gray.len() == 64 && is_average_hash(hash, gray)
}

/// The perceptual hash of a photo: it is scaled to 8 by 8 gray pixels, and each
/// bit of the hash tells whether a pixel is at least as bright as the mean.
pub fn perceptual_hash(img: &image::DynamicImage) -> (hash: u64)
    ensures
        luma(scaled(raster(*img), HASH_SIDE as nat, HASH_SIDE as nat)).len() == 64,
        is_average_hash(hash, luma(scaled(raster(*img), HASH_SIDE as nat, HASH_SIDE as nat))),
        is_hash_of(hash, raster(*img)),
{
    let gray = gray_values(&resize_exact(img, HASH_SIDE, HASH_SIDE));
    hash_of_pixels(&gray)
}

/// Photos whose 8 by 8 gray pixels are alike have the same hash.
pub proof fn law_hash_is_unique(a: u64, b: u64, values: Seq<u8>)
    requires
        values.len() == 64,
        is_average_hash(a, values),
        is_average_hash(b, values),
    ensures
        a == b,
{
    crate::dedup::law_distance_is_a_metric(a, b, b);
    lemma_same_bits_no_distance(a, b, 64, values);
}

proof fn lemma_same_bits_no_distance(a: u64, b: u64, n: nat, values: Seq<u8>)
    requires
        n <= 64,
        values.len() == 64,
        is_average_hash(a, values),
        is_average_hash(b, values),
    ensures
        crate::dedup::bits_differing(a, b, n) == 0,
    decreases n,
{
    if n > 0 {
        lemma_same_bits_no_distance(a, b, (n - 1) as nat, values);
        let k = n - 1;
        assert(crate::dedup::bit(a, k as nat) == is_bright(values, k));
        assert(crate::dedup::bit(b, k as nat) == is_bright(values, k));
    }
}

/// How much a gray value differs from its four neighbours.
pub open spec fn response(gray: Seq<u8>, width: int, x: int, y: int) -> int {
    gray[(y - 1) * width + x] + gray[(y + 1) * width + x] + gray[y * width + x - 1] + gray[y * width
        + x + 1] - 4 * gray[y * width + x]
}

/// The response of every value that has four neighbours, row after row.
pub open spec fn laplacian(gray: Seq<u8>, width: int, height: int) -> Seq<int> {
    if width < 3 || height < 3 {
        seq![]
    } else {
        Seq::new(
            ((width - 2) * (height - 2)) as nat,
            |k: int| response(gray, width, 1 + k % (width - 2), 1 + k / (width - 2)),
        )
    }
}

/// Position and coordinates of a cell in a grid that is counted row after row.
pub proof fn lemma_grid_position(width: int, height: int, x: int, y: int)
    requires
        0 <= x < width,
        0 <= y < height,
    ensures
        0 <= y * width + x < width * height,
        (y * width + x) % width == x,
        (y * width + x) / width == y,
{
    assert(0 <= y * width) by (nonlinear_arith)
        requires
            0 <= y,
            0 <= width,
    ;
    assert(y * width + width <= width * height) by (nonlinear_arith)
        requires
            y + 1 <= height,
            0 < width,
    ;
    lemma_fundamental_div_mod_converse(y * width + x, width, y, x);
}

/// The responses of a gray image.
pub fn laplacian_of(gray: &[u8], width: u32, height: u32) -> (r: Vec<i32>)
    requires
        gray@.len() == width * height,
    ensures
        r@.map_values(|v: i32| v as int) == laplacian(gray@, width as int, height as int),
{
    let mut r: Vec<i32> = Vec::new();
    if width < 3 || height < 3 {
        proof {
            assert(r@.map_values(|v: i32| v as int) == Seq::<int>::empty());
        }
        return r;
    }
    let w = width as usize;
    let h = height as usize;
    let n = gray.len();
    let ghost all = laplacian(gray@, w as int, h as int);
    proof {
        lemma_grid_position(w - 2, h - 2, 0, 0);
    }
    for y in 1..h - 1
        invariant
            w == width,
            h == height,
            3 <= w,
            3 <= h,
            gray@.len() == w * h,
            gray@.len() == n,
            all == laplacian(gray@, w as int, h as int),
            r@.len() == (y - 1) * (w - 2),
            forall|k: int| 0 <= k < r@.len() ==> #[trigger] r@[k] == all[k],
    {
        for x in 1..w - 1
            invariant
                w == width,
                h == height,
                3 <= w,
                3 <= h,
                1 <= y < h - 1,
                gray@.len() == w * h,
                gray@.len() == n,
                all == laplacian(gray@, w as int, h as int),
                r@.len() == (y - 1) * (w - 2) + x - 1,
                forall|k: int| 0 <= k < r@.len() ==> #[trigger] r@[k] == all[k],
        {
            proof {
                lemma_grid_position(w as int, h as int, x as int, y as int);
                lemma_grid_position(w as int, h as int, x as int, y - 1);
                lemma_grid_position(w as int, h as int, x as int, y + 1);
                lemma_grid_position(w as int, h as int, x - 1, y as int);
                lemma_grid_position(w as int, h as int, x + 1, y as int);
                lemma_grid_position(w - 2, h - 2, x - 1, y - 1);
                assert((y + 1) * w == y * w + w) by (nonlinear_arith);
                assert((y - 1) * w == y * w - w) by (nonlinear_arith);
            }
            let at = y * w + x;
            let center = gray[at] as i32;
            let up = gray[at - w] as i32;
            let down = gray[at + w] as i32;
            let left = gray[at - 1] as i32;
            let right = gray[at + 1] as i32;
            let v: i32 = up + down + left + right - 4 * center;
            proof {
                assert(v == all[r@.len() as int]);
            }
            r.push(v);
        }
        proof {
            assert((y - 1) * (w - 2) + (w - 2) == y * (w - 2)) by (nonlinear_arith);
        }
    }
    proof {
        assert((w - 2) * (h - 2) == (h - 2) * (w - 2)) by (nonlinear_arith);
        assert(r@.map_values(|v: i32| v as int) =~= all);
    }
    r
}

/// The side of the square that a photo is fitted into for its blur estimate.
pub const BLUR_SIDE: u32 = 400;

/// The responses of a photo that is fitted into a square of 400 pixels a side.
pub open spec fn responses_of(r: Raster) -> Seq<int> {
    let small = fitted(r, BLUR_SIDE as nat, BLUR_SIDE as nat);
    laplacian(luma(small), small.width as int, small.height() as int)
}

/// What the blur estimate of a photo is computed from: how much each pixel of
/// the photo, scaled down to gray, differs from its neighbours. Empty where the
/// scaled photo is less than three pixels wide or high.
pub fn blur_responses(img: &image::DynamicImage) -> (r: Vec<i32>)
    ensures
        ({
            let small = fitted(raster(*img), BLUR_SIDE as nat, BLUR_SIDE as nat);
            r@.map_values(|v: i32| v as int) == laplacian(
                luma(small),
                small.width as int,
                small.height() as int,
            )
        }),
        r@.map_values(|v: i32| v as int) == responses_of(raster(*img)),
{
    let small = resize(img, BLUR_SIDE, BLUR_SIDE);
    let gray = gray_values(&small);
    laplacian_of(&gray, width_of(&small), height_of(&small))
}

/// The character for six bits.
pub open spec fn base64_char(n: nat) -> char {
    if n < 26 {
        (65 + n) as char
    } else if n < 52 {
        (71 + n) as char
    } else if n < 62 {
        (n - 4) as char
    } else if n == 62 {
        '+'
    } else {
        '/'
    }
}

/// The lowest `count` groups of six bits of `n` as characters.
pub open spec fn base64_chars(n: nat, count: nat) -> Seq<char>
    decreases count,
{
    if count == 0 {
        seq![]
    } else {
        base64_chars(n / 64, (count - 1) as nat).push(base64_char(n % 64))
    }
}

/// Bytes in base64: four characters for three bytes, the last group filled up
/// with equals signs.
pub open spec fn base64(s: Seq<u8>) -> Seq<char>
    decreases s.len(),
{
    if s.len() == 0 {
        seq![]
    } else if s.len() == 1 {
        base64_chars(s[0] as nat * 16, 2) + seq!['=', '=']
    } else if s.len() == 2 {
        base64_chars((s[0] as nat * 256 + s[1] as nat) * 4, 3) + seq!['=']
    } else {
        base64_chars(s[0] as nat * 65536 + s[1] as nat * 256 + s[2] as nat, 4) + base64(s.skip(3))
    }
}

/// `base64`'s engine `STANDARD` encodes with the alphabet of letters, digits,
/// plus and slash, and with padding.
#[verifier::external_body]
fn base64_text(bytes: &[u8]) -> (s: String)
    ensures
        s@ == base64(bytes@),
{
    base64::Engine::encode(&base64::engine::general_purpose::STANDARD, bytes)
}

/// The longest side of a photo that is shown to a vision model.
pub const SHOWN_SIDE: u32 = 1024;

/// What a data URL of a JPEG file begins with.
pub open spec fn data_url_of(file: Seq<u8>) -> Seq<char> {
    "data:image/jpeg;base64,"@ + base64(file)
}

/// The data URL under which a photo is shown to a vision model.
pub open spec fn shown_as(r: Raster) -> Seq<char> {
    data_url_of(jpeg(fitted(r, SHOWN_SIDE as nat, SHOWN_SIDE as nat)))
}

/// A photo as a data URL, scaled so that its longer side has 1024 pixels, as
/// JPEG in base64.
pub fn image_to_data_url(img: &image::DynamicImage) -> (url: String)
    ensures
        url@ == data_url_of(jpeg(fitted(raster(*img), SHOWN_SIDE as nat, SHOWN_SIDE as nat))),
        url@ == shown_as(raster(*img)),
{
    let small = resize(img, SHOWN_SIDE, SHOWN_SIDE);
    proof {
        let r = raster(small);
        assert(r.width * r.height() <= SHOWN_SIDE * SHOWN_SIDE) by (nonlinear_arith)
            requires
                r.width <= SHOWN_SIDE,
                r.height() <= SHOWN_SIDE,
        ;
    }
    joined("data:image/jpeg;base64,", &base64_text(&jpeg_file(&small)))
}

/// The payload of the data URL of a file is the file in base64.
pub proof fn law_payload_of_data_url(file: Seq<u8>)
    ensures
        crate::vision::payload(data_url_of(file)) == base64(file),
{
    reveal_strlit("data:image/jpeg;base64,");
    let prefix = "data:image/jpeg;base64,"@;
    let url = data_url_of(file);
    crate::text::lemma_find(url, ',');
    let n = crate::text::find(url, ',') as int;
    assert(url[22] == ',');
    if n < 22 {
        assert(url[n] == prefix[n]);
    }
    assert(url.skip(23) == base64(file));
}

/// Where each pixel of a photo is shown, by the Exif orientation of the photo: the
/// first row of what is stored lies at the top (1 and 2), at the bottom (3 and 4),
/// on the left (5 and 8) or on the right (6 and 7), and its first pixel at the left
/// (1 and 4), at the right (2 and 3), at the top (5 and 6) or at the bottom (7 and
/// 8).
pub proof fn law_rows_and_columns_go_where_exif_says(r: Raster, x: int, y: int)
    requires
        r.well_formed(),
        0 <= x < r.width,
        0 <= y < r.height(),
    ensures
        ({
            let (right, bottom) = (r.width - 1, r.height() - 1);
            let stored = r.pixel(x, y);
            &&& r.oriented(1).pixel(x, y) == stored
            &&& r.oriented(2).pixel(right - x, y) == stored
            &&& r.oriented(3).pixel(right - x, bottom - y) == stored
            &&& r.oriented(4).pixel(x, bottom - y) == stored
            &&& r.oriented(5).pixel(y, x) == stored
            &&& r.oriented(6).pixel(bottom - y, x) == stored
            &&& r.oriented(7).pixel(bottom - y, right - x) == stored
            &&& r.oriented(8).pixel(y, right - x) == stored
        }),
        r.oriented(0) == r,
        r.oriented(1) == r,
        forall|n: u32| n > 8 ==> #[trigger] r.oriented(n) == r,
{
}

/// A photo is turned by the orientation that its Exif fields give; one without that
/// field, or without any, stays as it is.
pub proof fn law_photo_is_turned_by_its_field(
    fields: crate::exif_read::Fields,
    n: u32,
    r: Raster,
)
    ensures
        fields.numbers.contains_pair(crate::exif_read::NumberField::Orientation, n)
            ==> orientation_of(Some(fields)) == n,
        !fields.numbers.contains_key(crate::exif_read::NumberField::Orientation) ==> r.oriented(
            orientation_of(Some(fields)),
        ) == r,
        r.oriented(orientation_of(None)) == r,
{
}

/// The sum of values is that of their parts.
pub proof fn law_total_adds_up(a: Seq<u8>, b: Seq<u8>)
    ensures
        total(a + b) == total(a) + total(b),
        forall|v: u8| #[trigger] total(seq![v]) == v,
        total(seq![]) == 0,
    decreases b.len(),
{
    assert forall|v: u8| #[trigger] total(seq![v]) == v by {
        assert(seq![v].drop_last() =~= Seq::<u8>::empty());
        assert(total(seq![v].drop_last()) == 0);
    }
    if b.len() == 0 {
        assert(a + b =~= a);
    } else {
        law_total_adds_up(a, b.drop_last());
        assert((a + b).drop_last() =~= a + b.drop_last());
    }
}

proof fn lemma_total_bounds(values: Seq<u8>, low: int, high: int)
    requires
        forall|i: int| 0 <= i < values.len() ==> low <= #[trigger] values[i] <= high,
    ensures
        low * values.len() <= total(values) <= high * values.len(),
    decreases values.len(),
{
    if values.len() > 0 {
        let rest = values.drop_last();
        assert forall|i: int| 0 <= i < rest.len() implies low <= #[trigger] rest[i] <= high by {
            assert(rest[i] == values[i]);
        }
        lemma_total_bounds(rest, low, high);
        assert(values.last() == values[values.len() - 1]);
        assert(low * values.len() == low * rest.len() + low) by (nonlinear_arith)
            requires
                values.len() == rest.len() + 1,
        ;
        assert(high * values.len() == high * rest.len() + high) by (nonlinear_arith)
            requires
                values.len() == rest.len() + 1,
        ;
    }
}

proof fn lemma_total_below(values: Seq<u8>, high: int, i: int)
    requires
        forall|k: int| 0 <= k < values.len() ==> #[trigger] values[k] >= high,
        0 <= i < values.len(),
        values[i] > high,
    ensures
        total(values) > high * values.len(),
    decreases values.len(),
{
    let rest = values.drop_last();
    assert(values.last() == values[values.len() - 1]);
    assert forall|k: int| 0 <= k < rest.len() implies high <= #[trigger] rest[k] <= 255 by {
        assert(rest[k] == values[k]);
    }
    assert(high * values.len() == high * rest.len() + high) by (nonlinear_arith)
        requires
            values.len() == rest.len() + 1,
    ;
    if i < rest.len() {
        assert forall|k: int| 0 <= k < rest.len() implies #[trigger] rest[k] >= high by {
            assert(rest[k] == values[k]);
        }
        lemma_total_below(rest, high, i);
    } else {
        lemma_total_bounds(rest, high, 255);
    }
}

/// Each bit of the hash tells whether its pixel is at least as bright as all
/// pixels are on average. So a photo of one colour has all bits set; of another
/// one the brightest pixel has its bit set and the darkest has not; and of two
/// pixels the brighter one never lacks a bit that the other has.
pub proof fn law_hash_tells_bright_from_dark(hash: u64, values: Seq<u8>, i: int, j: int)
    requires
        values.len() == 64,
        is_average_hash(hash, values),
        0 <= i < 64,
        0 <= j < 64,
    ensures
        (hash >> (i as u64)) & 1 == 1 <==> 64 * values[i] >= total(values),
        (forall|k: int| 0 <= k < 64 ==> #[trigger] values[k] <= values[i]) ==> (hash >> (
        i as u64)) & 1 == 1,
        (forall|k: int| 0 <= k < 64 ==> #[trigger] values[k] >= values[i]) && values[i] < values[j]
            ==> (hash >> (i as u64)) & 1 != 1,
        values[i] <= values[j] && (hash >> (i as u64)) & 1 == 1 ==> (hash >> (j as u64)) & 1 == 1,
{
    assert(crate::dedup::bit(hash, i as nat) == is_bright(values, i));
    assert(crate::dedup::bit(hash, j as nat) == is_bright(values, j));
    if forall|k: int| 0 <= k < 64 ==> #[trigger] values[k] <= values[i] {
        lemma_total_bounds(values, 0, values[i] as int);
    }
    if (forall|k: int| 0 <= k < 64 ==> #[trigger] values[k] >= values[i]) && values[i] < values[j] {
        lemma_total_below(values, values[i] as int, j);
    }
}

/// A response is how much the four neighbours of a pixel differ from it together,
/// and there is one for each pixel that has four neighbours, row after row. So a
/// photo of one colour has only responses of zero.
pub proof fn law_responses_are_differences(
    gray: Seq<u8>,
    width: int,
    height: int,
    x: int,
    y: int,
)
    requires
        gray.len() == width * height,
        1 <= x < width - 1,
        1 <= y < height - 1,
    ensures
        ({
            let at = |x: int, y: int| gray[y * width + x] as int;
            let r = laplacian(gray, width, height);
            let k = (y - 1) * (width - 2) + (x - 1);
            &&& r.len() == (width - 2) * (height - 2)
            &&& 0 <= k < r.len()
            &&& r[k] == (at(x - 1, y) - at(x, y)) + (at(x + 1, y) - at(x, y)) + (at(x, y - 1) - at(
                x,
                y,
            )) + (at(x, y + 1) - at(x, y))
        }),
{
    lemma_grid_position(width - 2, height - 2, x - 1, y - 1);
    assert((y - 1) * width == y * width - width) by (nonlinear_arith);
    assert((y + 1) * width == y * width + width) by (nonlinear_arith);
}

/// Without a pixel that has four neighbours there are no responses.
pub proof fn law_small_photos_have_no_responses(gray: Seq<u8>, width: int, height: int)
    requires
        width < 3 || height < 3,
    ensures
        laplacian(gray, width, height).len() == 0,
{
}

/// An image made of bytes has the three bytes of each pixel in their order, pixel
/// by pixel and row by row.
pub proof fn law_bytes_become_pixels(
    width: nat,
    height: nat,
    data: Seq<u8>,
    x: int,
    y: int,
    colour: int,
)
    requires
        0 <= x < width,
        0 <= y < height,
        0 <= colour < 3,
        data.len() >= width * height * 3,
    ensures
        ({
            let r = rgb_raster(width, height, data);
            &&& r.well_formed()
            &&& r.width == width && r.height() == height
            &&& r.layout is Rgb8
            &&& r.pixel(x, y).len() == 3
            &&& r.pixel(x, y)[colour] == data[3 * (y * width + x) + colour]
        }),
{
    lemma_grid_position(width as int, height as int, x, y);
    assert(width * height * 3 == 3 * (width * height)) by (nonlinear_arith);
}

/// An image that was decoded is turned by the orientation in the Exif fields of its
/// file; without one it stays as it is, and an error stays an error.
pub proof fn law_decoded_image_is_turned(
    r: Raster,
    content: Seq<u8>,
    fields: crate::exif_read::Fields,
    n: u32,
    e: Seq<char>,
)
    requires
        r.width > 0,
    ensures
        crate::exif_read::container_fields(content) == Some(fields) && fields.numbers.contains_pair(
            crate::exif_read::NumberField::Orientation,
            n,
        ) ==> turned_upright(Ok(r), content) == Ok::<Raster, Seq<char>>(r.oriented(n)),
        crate::exif_read::container_fields(content) is None ==> turned_upright(Ok(r), content)
            == Ok::<Raster, Seq<char>>(r),
        turned_upright(Err(e), content) == Err::<Raster, Seq<char>>(e),
{
}

/// The data URL of a photo begins with the words for a JPEG file in base64, of
/// which four characters stand for each three bytes.
pub proof fn law_data_url_names_its_kind(file: Seq<u8>)
    ensures
        data_url_of(file).take(23) == "data:image/jpeg;base64,"@,
        data_url_of(file).skip(23) == base64(file),
        4 * file.len() <= 3 * base64(file).len() <= 4 * (file.len() + 2),
    decreases file.len(),
{
    reveal_strlit("data:image/jpeg;base64,");
    assert(data_url_of(file).take(23) =~= "data:image/jpeg;base64,"@);
    assert(data_url_of(file).skip(23) =~= base64(file));
    reveal_with_fuel(base64_chars, 5);
    if file.len() > 2 {
        law_data_url_names_its_kind(file.skip(3));
    }
}

/// A bit of the hash of a photo is set exactly where its pixel, of the photo scaled
/// to 8 by 8 gray ones, is at least as bright as these are on average.
pub proof fn law_hash_is_that_of_small_gray_pixels(hash: u64, r: Raster, i: int)
    requires
        is_hash_of(hash, r),
        0 <= i < 64,
    ensures
        ({
            let gray = luma(scaled(r, 8, 8));
            gray.len() == 64 && ((hash >> (i as u64)) & 1 == 1 <==> 64 * gray[i] >= total(gray))
        }),
{
    law_hash_tells_bright_from_dark(hash, luma(scaled(r, 8, 8)), i, i);
}

/// The blur estimate of a photo is made of the differences between neighbours in
/// the photo, fitted into 400 by 400 pixels and made gray.
pub proof fn law_blur_is_that_of_the_small_photo(r: Raster, x: int, y: int)
    requires
        1 <= x < fitted(r, 400, 400).width - 1,
        1 <= y < fitted(r, 400, 400).height() - 1,
        luma(fitted(r, 400, 400)).len() == fitted(r, 400, 400).width * fitted(
            r,
            400,
            400,
        ).height(),
    ensures
        ({
            let small = fitted(r, 400, 400);
            let w = small.width as int;
            let at = |x: int, y: int| luma(small)[y * w + x] as int;
            let k = (y - 1) * (w - 2) + (x - 1);
            &&& responses_of(r).len() == (w - 2) * (small.height() - 2)
            &&& 0 <= k < responses_of(r).len()
            &&& responses_of(r)[k] == at(x - 1, y) + at(x + 1, y) + at(x, y - 1) + at(x, y + 1) - 4
                * at(x, y)
        }),
{
    let small = fitted(r, 400, 400);
    law_responses_are_differences(
        luma(small),
        small.width as int,
        small.height() as int,
        x,
        y,
    );
}

/// A photo is shown as the JPEG file of what fits into 1024 by 1024 pixels.
pub proof fn law_shown_photo_is_a_jpeg(r: Raster)
    ensures
        shown_as(r).take(23) == "data:image/jpeg;base64,"@,
        shown_as(r).skip(23) == base64(jpeg(fitted(r, 1024, 1024))),
{
    law_data_url_names_its_kind(jpeg(fitted(r, 1024, 1024)));
}

} // verus!
