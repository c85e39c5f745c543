//! The kinds of files that can be indexed, told by their extension.

use crate::face::is_image;
use crate::path::extension_of;
use crate::text::{joined, same_text};
use vstd::prelude::*;

verus! {

/// How a file is read.
#[derive(Debug, Clone, Copy, PartialEq, Eq, Structural)]
pub enum MediaKind {
    Image,
    Raw,
    Heic,
    Video,
}

/// The lowercase extension of the file that a path leads to; empty where there
/// is none.
pub open spec fn lower_extension(path: Seq<char>) -> Seq<char> {
    match crate::path::extension(path) {
        Some(e) => crate::text::lowercase(e),
        None => seq![],
    }
}

/// The extensions of raw camera files.
pub open spec fn raw_extension(e: Seq<char>) -> bool {
    e == "cr2"@ || e == "cr3"@ || e == "nef"@ || e == "arw"@ || e == "dng"@ || e == "orf"@ || e
        == "rw2"@ || e == "raf"@ || e == "pef"@ || e == "srw"@
}

/// The extensions of HEIF files.
pub open spec fn heic_extension(e: Seq<char>) -> bool {
    e == "heic"@ || e == "heif"@
}

/// The extensions of videos.
pub open spec fn video_extension(e: Seq<char>) -> bool {
    e == "mp4"@ || e == "mov"@ || e == "avi"@ || e == "m4v"@ || e == "mkv"@
}

/// The kind of the file with this lowercase extension.
pub open spec fn extension_kind(e: Seq<char>) -> MediaKind {
    if video_extension(e) {
        MediaKind::Video
    } else if raw_extension(e) {
        MediaKind::Raw
    } else if heic_extension(e) {
        MediaKind::Heic
    } else {
        MediaKind::Image
    }
}

/// The lowercase extension of the file that `path` leads to; empty where there
/// is none.
pub fn ext_lower(path: &str) -> (e: String)
    ensures
        e@ == lower_extension(path@),
{
    match extension_of(path) {
        Some(e) => e.as_str().to_lowercase(),
        None => String::new(),
    }
}

fn has_raw_extension(e: &str) -> (r: bool)
    ensures
        r == raw_extension(e@),
{
    same_text(e, "cr2") || same_text(e, "cr3") || same_text(e, "nef") || same_text(e, "arw")
        || same_text(e, "dng") || same_text(e, "orf") || same_text(e, "rw2") || same_text(e, "raf")
        || same_text(e, "pef") || same_text(e, "srw")
}

fn has_heic_extension(e: &str) -> (r: bool)
    ensures
        r == heic_extension(e@),
{
    same_text(e, "heic") || same_text(e, "heif")
}

fn has_video_extension(e: &str) -> (r: bool)
    ensures
        r == video_extension(e@),
{
    same_text(e, "mp4") || same_text(e, "mov") || same_text(e, "avi") || same_text(e, "m4v")
        || same_text(e, "mkv")
}

/// Whether `path` leads to a raw camera file.
pub fn is_raw(path: &str) -> (r: bool)
    ensures
        r == raw_extension(lower_extension(path@)),
{
    has_raw_extension(&ext_lower(path))
}

/// Whether `path` leads to a HEIF file.
pub fn is_heic(path: &str) -> (r: bool)
    ensures
        r == heic_extension(lower_extension(path@)),
{
    has_heic_extension(&ext_lower(path))
}

/// Whether `path` leads to a video.
pub fn is_video(path: &str) -> (r: bool)
    ensures
        r == video_extension(lower_extension(path@)),
{
    has_video_extension(&ext_lower(path))
}

/// A file with this lowercase extension can be indexed.
pub open spec fn supported_extension(e: Seq<char>) -> bool {
    crate::face::image_extension(e) || raw_extension(e) || heic_extension(e) || video_extension(e)
}

/// Whether the file that `path` leads to can be indexed.
pub fn is_supported(path: &str) -> (r: bool)
    ensures
        r == supported_extension(lower_extension(path@)),
{
    is_image(path) || is_raw(path) || is_heic(path) || is_video(path)
}

/// The kind of the file that `path` leads to.
pub fn kind(path: &str) -> (k: MediaKind)
    ensures
        k == extension_kind(lower_extension(path@)),
{
    if is_video(path) {
        MediaKind::Video
    } else if is_raw(path) {
        MediaKind::Raw
    } else if is_heic(path) {
        MediaKind::Heic
    } else {
        MediaKind::Image
    }
}

/// What the index calls a kind.
pub open spec fn kind_label(kind: MediaKind) -> Seq<char> {
    match kind {
        MediaKind::Image => "image"@,
        MediaKind::Raw => "raw"@,
        MediaKind::Heic => "heic"@,
        MediaKind::Video => "video"@,
    }
}

impl MediaKind {
    /// What the index calls this kind.
    pub fn label(self) -> (s: &'static str)
        ensures
            s@ == kind_label(self),
    {
        match self {
            MediaKind::Image => "image",
            MediaKind::Raw => "raw",
            MediaKind::Heic => "heic",
            MediaKind::Video => "video",
        }
    }
}

/// No extension belongs to two kinds, and the kinds have different labels.
pub proof fn law_kinds_are_disjoint(e: Seq<char>, a: MediaKind, b: MediaKind)
    ensures
        !(raw_extension(e) && heic_extension(e)),
        !(raw_extension(e) && video_extension(e)),
        !(heic_extension(e) && video_extension(e)),
        crate::face::image_extension(e) ==> extension_kind(e) == MediaKind::Image,
        supported_extension(e) && extension_kind(e) == MediaKind::Image
            ==> crate::face::image_extension(e),
        kind_label(a) == kind_label(b) ==> a == b,
{
    reveal_strlit("cr2");
    reveal_strlit("cr3");
    reveal_strlit("nef");
    reveal_strlit("arw");
    reveal_strlit("dng");
    reveal_strlit("orf");
    reveal_strlit("rw2");
    reveal_strlit("raf");
    reveal_strlit("pef");
    reveal_strlit("srw");
    reveal_strlit("heic");
    reveal_strlit("heif");
    reveal_strlit("mp4");
    reveal_strlit("mov");
    reveal_strlit("avi");
    reveal_strlit("m4v");
    reveal_strlit("mkv");
    reveal_strlit("jpg");
    reveal_strlit("jpeg");
    reveal_strlit("png");
    reveal_strlit("bmp");
    reveal_strlit("tif");
    reveal_strlit("tiff");
    reveal_strlit("image");
    reveal_strlit("raw");
    reveal_strlit("video");
    assert("cr2"@[0] == 'c' && "cr2"@[1] == 'r');
    assert("cr3"@[0] == 'c' && "cr3"@[1] == 'r');
    assert("nef"@[0] == 'n' && "nef"@[1] == 'e');
    assert("arw"@[0] == 'a' && "arw"@[1] == 'r');
    assert("dng"@[0] == 'd' && "dng"@[1] == 'n');
    assert("orf"@[0] == 'o' && "orf"@[1] == 'r');
    assert("rw2"@[0] == 'r' && "rw2"@[1] == 'w');
    assert("raf"@[0] == 'r' && "raf"@[1] == 'a');
    assert("pef"@[0] == 'p' && "pef"@[1] == 'e');
    assert("srw"@[0] == 's' && "srw"@[1] == 'r');
    assert("heic"@[0] == 'h' && "heic"@[1] == 'e');
    assert("heif"@[0] == 'h' && "heif"@[1] == 'e');
    assert("mp4"@[0] == 'm' && "mp4"@[1] == 'p');
    assert("mov"@[0] == 'm' && "mov"@[1] == 'o');
    assert("avi"@[0] == 'a' && "avi"@[1] == 'v');
    assert("m4v"@[0] == 'm' && "m4v"@[1] == '4');
    assert("mkv"@[0] == 'm' && "mkv"@[1] == 'k');
    assert("jpg"@[0] == 'j' && "jpg"@[1] == 'p');
    assert("jpeg"@[0] == 'j' && "jpeg"@[1] == 'p');
    assert("png"@[0] == 'p' && "png"@[1] == 'n');
    assert("bmp"@[0] == 'b' && "bmp"@[1] == 'm');
    assert("tif"@[0] == 't' && "tif"@[1] == 'i');
    assert("tiff"@[0] == 't' && "tiff"@[1] == 'i');
    assert("image"@[0] == 'i' && "image"@[1] == 'm');
    assert("raw"@[0] == 'r' && "raw"@[1] == 'a');
    assert("video"@[0] == 'v' && "video"@[1] == 'i');
}

/// Why a raw camera file that was decoded gave no image.
pub open spec fn raw_mismatch() -> Seq<char> {
    "RAW decode: pixel buffer/size mismatch"@
}

/// What comes of decoding a raw camera file: the image, or why there is none.
pub open spec fn raw_outcome(width: nat, height: nat, data: Seq<u8>) -> Result<
    crate::picture::Raster,
    Seq<char>,
> {
    let w = width % 0x1_0000_0000;
    let h = height % 0x1_0000_0000;
    if crate::picture::fills(w, h, data.len()) {
        Ok(crate::picture::rgb_raster(w, h, data))
    } else {
        Err(raw_mismatch())
    }
}

/// The image of a raw camera file from what its decoder gave: width, height
/// and eight-bit RGB pixels. Only the lowest 32 bits of the size count.
pub fn raw_image(width: usize, height: usize, data: Vec<u8>) -> (r: Result<
    image::DynamicImage,
    String,
>)
    ensures
        ({
            let w = width as nat % 0x1_0000_0000;
            let h = height as nat % 0x1_0000_0000;
            match r {
                Ok(img) => crate::picture::fills(w, h, data@.len()) && crate::picture::raster(img)
                    == crate::picture::rgb_raster(w, h, data@),
                Err(e) => !crate::picture::fills(w, h, data@.len()) && e@ == raw_mismatch(),
            }
        }),
        crate::picture::decoded_view(r) == raw_outcome(width as nat, height as nat, data@),
{
    let w = width as u64;
    let h = height as u64;
    assert(w as u32 == w % 0x1_0000_0000) by (bit_vector);
    assert(h as u32 == h % 0x1_0000_0000) by (bit_vector);
    crate::picture::rgb_image(
        #[verifier::truncate]
        (w as u32),
        #[verifier::truncate]
        (h as u32),
        data,
        "RAW decode: pixel buffer/size mismatch",
    )
}

/// The text of an error in decoding a raw camera file.
pub fn raw_failure(e: &str) -> (s: String)
    ensures
        s@ == "RAW decode failed: "@ + e@,
{
    joined("RAW decode failed: ", e)
}

/// The name of the file that holds the program `name`.
pub open spec fn tool_name(name: Seq<char>, windows: bool) -> Seq<char> {
    if windows {
        name + ".exe"@
    } else {
        name
    }
}

/// The name of the file that holds the program `name`.
pub fn tool_file_name(name: &str, windows: bool) -> (s: String)
    ensures
        s@ == if windows {
            name@ + ".exe"@
        } else {
            name@
        },
        s@ == tool_name(name@, windows),
{
    if windows {
        joined(name, ".exe")
    } else {
        name.to_owned()
    }
}

/// Where a program is taken from.
#[derive(Debug, Clone, Copy, PartialEq, Eq, Structural)]
pub enum Tool {
    /// It lies next to this program.
    Bundled,
    /// The system finds it by its name.
    OnPath,
}

/// Which program is taken, by whether each tells its version.
pub open spec fn tool_of(bundled_responds: bool, path_responds: bool) -> Option<Tool> {
    if bundled_responds {
        Some(Tool::Bundled)
    } else if path_responds {
        Some(Tool::OnPath)
    } else {
        None
    }
}

/// Which program is taken, by whether each tells its version: the bundled one
/// comes first. `None` where neither does.
pub fn find_tool(bundled_responds: bool, path_responds: bool) -> (r: Option<Tool>)
    ensures
        r == if bundled_responds {
            Some(Tool::Bundled)
        } else if path_responds {
            Some(Tool::OnPath)
        } else {
            None
        },
        r == tool_of(bundled_responds, path_responds),
{
    if bundled_responds {
        Some(Tool::Bundled)
    } else if path_responds {
        Some(Tool::OnPath)
    } else {
        None
    }
}

/// The kind of a file depends on its extension alone, whatever directory it lies
/// in, whatever its stem and whichever letters of the extension are capital.
pub proof fn law_kind_is_told_by_the_extension(
    directory: Seq<char>,
    stem: Seq<char>,
    ext: Seq<char>,
    other_directory: Seq<char>,
    other_stem: Seq<char>,
    other_ext: Seq<char>,
)
    requires
        directory.len() > 0 ==> directory.last() == '/',
        stem.len() > 0 && stem != seq!['.'] && !stem.contains('/'),
        !ext.contains('/') && !ext.contains('.'),
        other_directory.len() > 0 ==> other_directory.last() == '/',
        other_stem.len() > 0 && other_stem != seq!['.'] && !other_stem.contains('/'),
        !other_ext.contains('/') && !other_ext.contains('.'),
        crate::text::all_ascii(ext),
        crate::text::all_ascii(other_ext),
        crate::text::same_ignoring_ascii_case(ext, other_ext),
    ensures
        ({
            let a = lower_extension(directory + (stem + seq!['.'] + ext));
            let b = lower_extension(other_directory + (other_stem + seq!['.'] + other_ext));
            &&& a == b
            &&& a.len() == ext.len()
            &&& forall|i: int|
                0 <= i < ext.len() ==> #[trigger] a[i] as int == if 'A' <= ext[i] <= 'Z' {
                    ext[i] as int + 32
                } else {
                    ext[i] as int
                }
        }),
{
    crate::path::law_name_is_stem_and_extension(directory, stem, ext);
    crate::path::law_name_is_stem_and_extension(other_directory, other_stem, other_ext);
}

/// Which extensions are those of videos, raw camera files, HEIF files and images;
/// every other file is not indexed. A file is read as an image where it is none of
/// the others.
pub proof fn law_extensions_of_the_kinds(e: Seq<char>)
    ensures
        extension_kind(e) == MediaKind::Video <==> seq![
            "mp4"@, "mov"@, "avi"@, "m4v"@, "mkv"@,
        ].contains(e),
        extension_kind(e) == MediaKind::Raw <==> seq![
            "cr2"@, "cr3"@, "nef"@, "arw"@, "dng"@, "orf"@, "rw2"@, "raf"@, "pef"@, "srw"@,
        ].contains(e),
        extension_kind(e) == MediaKind::Heic <==> seq!["heic"@, "heif"@].contains(e),
        supported_extension(e) <==> extension_kind(e) != MediaKind::Image || seq![
            "jpg"@, "jpeg"@, "png"@, "bmp"@, "tif"@, "tiff"@,
        ].contains(e),
{
    law_kinds_are_disjoint(e, MediaKind::Image, MediaKind::Image);
    let videos = seq!["mp4"@, "mov"@, "avi"@, "m4v"@, "mkv"@];
    let raws = seq![
        "cr2"@, "cr3"@, "nef"@, "arw"@, "dng"@, "orf"@, "rw2"@, "raf"@, "pef"@, "srw"@,
    ];
    let heics = seq!["heic"@, "heif"@];
    let images = seq!["jpg"@, "jpeg"@, "png"@, "bmp"@, "tif"@, "tiff"@];
    if video_extension(e) {
        assert(videos[0] == e || videos[1] == e || videos[2] == e || videos[3] == e || videos[4]
            == e);
    }
    if raw_extension(e) {
        assert(raws[0] == e || raws[1] == e || raws[2] == e || raws[3] == e || raws[4] == e
            || raws[5] == e || raws[6] == e || raws[7] == e || raws[8] == e || raws[9] == e);
    }
    if heic_extension(e) {
        assert(heics[0] == e || heics[1] == e);
    }
    if crate::face::image_extension(e) {
        assert(images[0] == e || images[1] == e || images[2] == e || images[3] == e || images[4]
            == e || images[5] == e);
    }
}

/// A program is taken where one responds, the bundled one before the other, and
/// none that does not respond.
pub proof fn law_program_that_responds_is_taken(bundled: bool, on_path: bool)
    ensures
        tool_of(bundled, on_path) is Some <==> bundled || on_path,
        tool_of(bundled, on_path) == Some(Tool::Bundled) <==> bundled,
        tool_of(bundled, on_path) == Some(Tool::OnPath) ==> on_path,
{
}

/// The file of a program has its name, on Windows with `.exe` behind it.
pub proof fn law_file_of_a_program(name: Seq<char>)
    ensures
        tool_name(name, false) == name,
        tool_name(name, true).take(name.len() as int) == name,
        tool_name(name, true).skip(name.len() as int) == ".exe"@,
{
    assert((name + ".exe"@).take(name.len() as int) =~= name);
    assert((name + ".exe"@).skip(name.len() as int) =~= ".exe"@);
}

/// The decoder of a raw camera file gives an image of the size it tells where it
/// gives three bytes for each pixel, and an error where it gives fewer.
pub proof fn law_raw_image_needs_its_bytes(width: nat, height: nat, data: Seq<u8>)
    requires
        width < 0x1_0000_0000,
        height < 0x1_0000_0000,
        width * 3 <= usize::MAX,
    ensures
        data.len() >= 3 * (width * height) ==> raw_outcome(width, height, data) == Ok::<
            crate::picture::Raster,
            Seq<char>,
        >(crate::picture::rgb_raster(width, height, data)),
        data.len() < 3 * (width * height) ==> raw_outcome(width, height, data) == Err::<
            crate::picture::Raster,
            Seq<char>,
        >("RAW decode: pixel buffer/size mismatch"@),
{
    assert(width * height * 3 == 3 * (width * height)) by (nonlinear_arith);
}

} // verus!
