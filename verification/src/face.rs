//! Faces: which files may show them, which detections stand, and whom a face
//! belongs to. Scores, overlaps and similarities come as the bits of
//! single-precision numbers.

use crate::ieee::{at_least32, less32};
use crate::media::ext_lower;
use crate::path::extension_of;
use crate::picture::{resize_exact, rgb_values};
use crate::text::{joined, same_text};
use vstd::arithmetic::div_mod::{lemma_fundamental_div_mod, lemma_fundamental_div_mod_converse};
use vstd::prelude::*;

verus! {

/// The extensions of images.
pub open spec fn image_extension(e: Seq<char>) -> bool {
    e == "jpg"@ || e == "jpeg"@ || e == "png"@ || e == "bmp"@ || e == "tif"@ || e == "tiff"@
}

/// Whether `path` leads to an image.
pub fn is_image(path: &str) -> (r: bool)
    ensures
        r == image_extension(crate::media::lower_extension(path@)),
{
    let e = ext_lower(path);
    same_text(&e, "jpg") || same_text(&e, "jpeg") || same_text(&e, "png") || same_text(&e, "bmp")
        || same_text(&e, "tif") || same_text(&e, "tiff")
}

/// The extensions of photos that can show a person for reference.
pub open spec fn reference_extension(e: Seq<char>) -> bool {
    e == "jpg"@ || e == "jpeg"@ || e == "png"@ || e == "bmp"@
}

/// Whether `path` leads to a photo that can show a person for reference.
pub fn is_reference_photo(path: &str) -> (r: bool)
    ensures
        r == match crate::path::extension(path@) {
            Some(e) => reference_extension(crate::text::lowercase(e)),
            None => false,
        },
{
    match extension_of(path) {
        Some(e) => {
            let e = e.as_str().to_lowercase();
            same_text(&e, "jpg") || same_text(&e, "jpeg") || same_text(&e, "png") || same_text(
                &e,
                "bmp",
            )
        },
        None => false,
    }
}

/// What is reported of a person in whose photos `faces` faces were found: a
/// warning where there are none, as that person is left out.
pub fn reference_warning(name: &str, faces: usize) -> (r: Option<String>)
    ensures
        crate::geocode::optional_view(r) == if faces == 0 {
            Some("  reference: "@ + name@ + " -- WARNING: no face detected in any photo, skipped"@)
        } else {
            None
        },
{
    if faces == 0 {
        Some(
            joined(
                &joined("  reference: ", name),
                " -- WARNING: no face detected in any photo, skipped",
            ),
        )
    } else {
        None
    }
}

/// Byte `k` of the planes of an RGB image.
pub open spec fn plane_byte(rgb: Seq<u8>, pixels: int, k: int) -> u8 {
    rgb[3 * (k % pixels) + 2 - k / pixels]
}

/// The pixels of an RGB image as three planes: blue, green, red.
pub fn bgr_planes(rgb: &[u8], pixels: usize) -> (planes: Vec<u8>)
    requires
        rgb@.len() == 3 * pixels,
    ensures
        planes@.len() == 3 * pixels,
        planes@ == Seq::new(
            (3 * pixels) as nat,
            |k: int| plane_byte(rgb@, pixels as int, k),
        ),
        forall|c: int, i: int|
            #![trigger planes@[c * pixels + i]]
            0 <= c < 3 && 0 <= i < pixels ==> planes@[c * pixels + i] == rgb@[3 * i + 2 - c],
{
    let mut planes: Vec<u8> = Vec::new();
    let n = rgb.len();
    proof {
        assert(0 * pixels == 0) by (nonlinear_arith);
    }
    for c in 0..3usize
        invariant
            n == rgb@.len(),
            n == 3 * pixels,
            planes@.len() == c * pixels,
            forall|d: int, i: int|
                #![trigger planes@[d * pixels + i]]
                0 <= d < c && 0 <= i < pixels ==> planes@[d * pixels + i] == rgb@[3 * i + 2 - d],
    {
        for i in 0..pixels
            invariant
                n == rgb@.len(),
                n == 3 * pixels,
                c < 3,
                planes@.len() == c * pixels + i,
                forall|d: int, k: int|
                    #![trigger planes@[d * pixels + k]]
                    (0 <= d < c && 0 <= k < pixels || d == c && 0 <= k < i) ==> planes@[d * pixels
                        + k] == rgb@[3 * k + 2 - d],
        {
            let ghost before = planes@;
            planes.push(rgb[3 * i + 2 - c]);
            proof {
                assert forall|d: int, k: int|
                    #![trigger planes@[d * pixels + k]]
                    (0 <= d < c && 0 <= k < pixels || d == c && 0 <= k < i + 1) implies planes@[d
                    * pixels + k] == rgb@[3 * k + 2 - d] by {
                    if d < c {
                        assert(0 <= d * pixels && d * pixels + pixels <= c * pixels)
                            by (nonlinear_arith)
                            requires
                                0 <= d,
                                d + 1 <= c,
                                0 <= pixels,
                        ;
                        assert(planes@[d * pixels + k] == before[d * pixels + k]);
                    } else if k < i {
                        assert(planes@[d * pixels + k] == before[d * pixels + k]);
                    }
                }
            }
        }
        proof {
            assert(c * pixels + pixels == (c + 1) * pixels) by (nonlinear_arith);
        }
    }
    proof {
        let all = Seq::new((3 * pixels) as nat, |k: int| plane_byte(rgb@, pixels as int, k));
        assert forall|k: int| 0 <= k < planes@.len() implies planes@[k] == all[k] by {
            let (c, i) = (k / (pixels as int), k % (pixels as int));
            lemma_fundamental_div_mod(k, pixels as int);
            assert(0 <= c < 3) by (nonlinear_arith)
                requires
                    k == pixels * c + i,
                    0 <= k < 3 * pixels,
                    0 <= i < pixels,
            ;
            assert(pixels * c == c * pixels) by (nonlinear_arith);
            assert(planes@[c * pixels + i] == rgb@[3 * i + 2 - c]);
        }
        assert(planes@ =~= all);
    }
    planes
}

/// The planes of an image follow each other as blue, green and red, each with
/// its pixels in order.
pub proof fn law_planes_are_blue_green_red(rgb: Seq<u8>, pixels: int, i: int)
    requires
        0 <= i < pixels,
    ensures
        plane_byte(rgb, pixels, i) == rgb[3 * i + 2],
        plane_byte(rgb, pixels, pixels + i) == rgb[3 * i + 1],
        plane_byte(rgb, pixels, 2 * pixels + i) == rgb[3 * i],
{
    lemma_fundamental_div_mod_converse(i, pixels, 0, i);
    lemma_fundamental_div_mod_converse(pixels + i, pixels, 1, i);
    lemma_fundamental_div_mod_converse(2 * pixels + i, pixels, 2, i);
}

/// The photos that can show a person are the images other than TIFF files.
pub proof fn law_reference_photos_are_images(e: Seq<char>)
    ensures
        reference_extension(e) <==> image_extension(e) && e != "tif"@ && e != "tiff"@,
{
    reveal_strlit("jpg");
    reveal_strlit("jpeg");
    reveal_strlit("png");
    reveal_strlit("bmp");
    reveal_strlit("tif");
    reveal_strlit("tiff");
    assert("jpg"@[0] == 'j' && "jpeg"@[0] == 'j' && "png"@[0] == 'p' && "bmp"@[0] == 'b');
    assert("tif"@[0] == 't' && "tiff"@[0] == 't');
}

/// The side of the square image that faces are detected on.
pub const DETECTION_SIDE: u32 = 640;

/// The bytes of that image: three for each pixel.
pub const SQUARE_BYTES: u32 = 1_228_800;

/// The space left of, or above, an image of this width, or height, in the middle
/// of the square.
pub open spec fn margin(size: int) -> int {
    (DETECTION_SIDE - size) / 2
}

/// Byte `k` of the square, three bytes for each pixel row after row, with an
/// image of this size in its middle and black around it.
pub open spec fn boxed(rgb: Seq<u8>, width: int, height: int, k: int) -> u8 {
    let side = DETECTION_SIDE as int;
    let x = k / 3 % side - margin(width);
    let y = k / 3 / side - margin(height);
    if 0 <= x < width && 0 <= y < height {
        rgb[3 * (y * width + x) + k % 3]
    } else {
        0
    }
}

fn box_pixels(rgb: &Vec<u8>, width: u32, height: u32) -> (square: Vec<u8>)
    requires
        width <= DETECTION_SIDE,
        height <= DETECTION_SIDE,
        rgb@.len() == 3 * (width * height),
    ensures
        square@ == Seq::new(
            SQUARE_BYTES as nat,
            |k: int| boxed(rgb@, width as int, height as int, k),
        ),
{
    let left = (DETECTION_SIDE - width) / 2;
    let top = (DETECTION_SIDE - height) / 2;
    let mut square: Vec<u8> = Vec::new();
    for k in 0..SQUARE_BYTES
        invariant
            width <= DETECTION_SIDE,
            height <= DETECTION_SIDE,
            rgb@.len() == 3 * (width * height),
            left == margin(width as int),
            top == margin(height as int),
            square@ == Seq::new(
                k as nat,
                |k: int| boxed(rgb@, width as int, height as int, k),
            ),
    {
        let x = k / 3 % DETECTION_SIDE;
        let y = k / 3 / DETECTION_SIDE;
        if left <= x && x - left < width && top <= y && y - top < height {
            proof {
                crate::picture::lemma_grid_position(
                    width as int,
                    height as int,
                    x - left,
                    y - top,
                );
                assert((y - top) * width <= 640 * 640) by (nonlinear_arith)
                    requires
                        0 <= y - top <= 640,
                        0 <= width <= 640,
                ;
            }
            let at = (y - top) * width + (x - left);
            square.push(rgb[(3 * at + k % 3) as usize]);
        } else {
            square.push(0);
        }
        proof {
            assert(square@ =~= Seq::new(
                (k + 1) as nat,
                |k: int| boxed(rgb@, width as int, height as int, k),
            ));
        }
    }
    square
}

/// The bytes of an RGB image of this size in the middle of a black square, and the
/// space left of it and above it.
pub open spec fn square_of(rgb: Seq<u8>, width: int, height: int) -> (Seq<u8>, int, int) {
    (
        Seq::new(SQUARE_BYTES as nat, |k: int| boxed(rgb, width, height, k)),
        margin(width),
        margin(height),
    )
}

/// An image scaled to this size in the middle of a black square: its bytes, and
/// the space left of it and above it.
pub fn letterbox(img: &image::DynamicImage, width: u32, height: u32) -> (r: (Vec<u8>, u32, u32))
    requires
        width <= DETECTION_SIDE,
        height <= DETECTION_SIDE,
    ensures
        ({
            let rgb = crate::picture::rgb8(
                crate::picture::scaled(
                    crate::picture::raster(*img),
                    width as nat,
                    height as nat,
                ),
            );
            r.0@ == Seq::new(
                SQUARE_BYTES as nat,
                |k: int| boxed(rgb, width as int, height as int, k),
            )
        }),
        r.1 == margin(width as int),
        r.2 == margin(height as int),
        (r.0@, r.1 as int, r.2 as int) == square_of(
            crate::picture::rgb8(
                crate::picture::scaled(
                    crate::picture::raster(*img),
                    width as nat,
                    height as nat,
                ),
            ),
            width as int,
            height as int,
        ),
{
    proof {
        assert(width * height <= DETECTION_SIDE * DETECTION_SIDE) by (nonlinear_arith)
            requires
                width <= DETECTION_SIDE,
                height <= DETECTION_SIDE,
        ;
    }
    let rgb = rgb_values(&resize_exact(img, width, height));
    let square = box_pixels(&rgb, width, height);
    (square, (DETECTION_SIDE - width) / 2, (DETECTION_SIDE - height) / 2)
}

/// The bits of 0.9, the lowest score of a detection that counts.
pub const SCORE_THRESHOLD: u32 = 0x3f66_6666;

/// The bits of 0.3, the largest overlap of detections that both stand.
pub const NMS_THRESHOLD: u32 = 0x3e99_999a;

/// The bits of 0.363, the lowest similarity of faces of one person.
pub const MATCH_THRESHOLD: u32 = 0x3eb9_db23;

/// Where among the single-precision numbers a bit pattern stands.
pub open spec fn place(bits: u32) -> Option<int> {
    crate::ieee::place32(bits)
}

/// A score counts: it is not below the threshold.
pub open spec fn counts(score: u32) -> bool {
    !crate::ieee::below(place(score), place(SCORE_THRESHOLD))
}

/// The positions of the scores that count, in order.
pub open spec fn counting(scores: Seq<u32>) -> Seq<int>
    decreases scores.len(),
{
    if scores.len() == 0 {
        seq![]
    } else if counts(scores.last()) {
        counting(scores.drop_last()).push(scores.len() - 1)
    } else {
        counting(scores.drop_last())
    }
}

/// The positions of the scores of a grid that count, in order.
pub fn candidate_cells(scores: &[u32]) -> (cells: Vec<usize>)
    ensures
        cells@.map_values(|i: usize| i as int) == counting(scores@),
{
    let mut cells: Vec<usize> = Vec::new();
    proof {
        assert(cells@.map_values(|i: usize| i as int) == Seq::<int>::empty());
    }
    for i in 0..scores.len()
        invariant
            cells@.map_values(|i: usize| i as int) == counting(scores@.take(i as int)),
    {
        let ghost before = cells@;
        proof {
            assert(scores@.take(i + 1).drop_last() == scores@.take(i as int));
        }
        if !less32(scores[i], SCORE_THRESHOLD) {
            cells.push(i);
            proof {
                assert(cells@.map_values(|i: usize| i as int) == before.map_values(
                    |i: usize| i as int,
                ).push(i as int));
            }
        }
    }
    proof {
        assert(scores@.take(scores@.len() as int) == scores@);
    }
    cells
}

/// All scores are numbers.
pub open spec fn all_numbers(scores: Seq<u32>) -> bool {
    forall|i: int| 0 <= i < scores.len() ==> place(#[trigger] scores[i]) is Some
}

/// Detection `i` comes before `j`: its score is higher, or the same and it was
/// found earlier.
pub open spec fn ranked_before(scores: Seq<u32>, i: int, j: int) -> bool {
    place(scores[i])->0 > place(scores[j])->0 || place(scores[i])->0 == place(scores[j])->0 && i < j
}

/// Detections `i` and `j` overlap too much for both to stand.
pub open spec fn overlapping(overlap: Seq<Vec<u32>>, i: int, j: int) -> bool {
    crate::ieee::below(place(NMS_THRESHOLD), place(overlap[i]@[j]))
}

/// A detection of `kept` comes before `i` and overlaps it.
pub open spec fn suppressed(
    scores: Seq<u32>,
    overlap: Seq<Vec<u32>>,
    kept: Seq<usize>,
    i: int,
) -> bool {
    exists|a: int|
        0 <= a < kept.len() && ranked_before(scores, (#[trigger] kept[a]) as int, i)
            && overlapping(overlap, i, kept[a] as int)
}

/// These detections are in order, and every other comes behind one of them that
/// it overlaps.
pub open spec fn are_survivors(
    scores: Seq<u32>,
    overlap: Seq<Vec<u32>>,
    kept: Seq<usize>,
) -> bool {
    &&& forall|a: int| 0 <= a < kept.len() ==> #[trigger] kept[a] < scores.len()
    &&& forall|a: int, b: int|
        0 <= a < b < kept.len() ==> ranked_before(
            scores,
            (#[trigger] kept[a]) as int,
            (#[trigger] kept[b]) as int,
        )
    &&& forall|i: int|
        0 <= i < scores.len() ==> (#[trigger] kept.contains(i as usize) <==> !suppressed(
            scores,
            overlap,
            kept,
            i,
        ))
}

/// The positions of all scores, highest first, equal ones as they come.
fn ranking(scores: &[u32]) -> (order: Vec<usize>)
    requires
        scores@.len() >= 2 ==> all_numbers(scores@),
    ensures
        order@.len() == scores@.len(),
        forall|a: int| 0 <= a < order@.len() ==> #[trigger] order@[a] < scores@.len(),
        forall|a: int, b: int|
            0 <= a < b < order@.len() ==> ranked_before(
                scores@,
                (#[trigger] order@[a]) as int,
                (#[trigger] order@[b]) as int,
            ),
        forall|i: int| 0 <= i < scores@.len() ==> #[trigger] order@.contains(i as usize),
{
    let mut order: Vec<usize> = Vec::new();
    for i in 0..scores.len()
        invariant
            scores@.len() >= 2 ==> all_numbers(scores@),
            order@.len() == i,
            forall|a: int| 0 <= a < order@.len() ==> #[trigger] order@[a] < i,
            forall|a: int, b: int|
                0 <= a < b < order@.len() ==> ranked_before(
                    scores@,
                    (#[trigger] order@[a]) as int,
                    (#[trigger] order@[b]) as int,
                ),
            forall|j: int| 0 <= j < i ==> #[trigger] order@.contains(j as usize),
    {
        let mut p = order.len();
        while p > 0 && less32(scores[order[p - 1]], scores[i])
            invariant
                i < scores@.len(),
                scores@.len() >= 2 ==> all_numbers(scores@),
                p <= order@.len(),
                order@.len() == i,
                forall|a: int| 0 <= a < order@.len() ==> #[trigger] order@[a] < i,
                forall|a: int|
                    p <= a < order@.len() ==> place(scores@[(#[trigger] order@[a]) as int])->0
                        < place(scores@[i as int])->0,
            decreases p,
        {
            p = p - 1;
        }
        let ghost before = order@;
        order.insert(p, i);
        proof {
            assert(before.len() > 0 ==> all_numbers(scores@));
            assert forall|a: int| 0 <= a < p implies place(
                scores@[(#[trigger] before[a]) as int],
            )->0 >= place(scores@[i as int])->0 by {
                let last = before[p - 1];
                assert(place(scores@[last as int]) is Some);
                assert(place(scores@[i as int]) is Some);
                if a < p - 1 {
                    assert(ranked_before(scores@, before[a] as int, before[p - 1] as int));
                }
            }
            assert forall|a: int, b: int| 0 <= a < b < order@.len() implies ranked_before(
                scores@,
                (#[trigger] order@[a]) as int,
                (#[trigger] order@[b]) as int,
            ) by {
                let x = if a < p {
                    a
                } else {
                    a - 1
                };
                let y = if b < p {
                    b
                } else {
                    b - 1
                };
                if a != p && b != p {
                    assert(order@[a] == before[x] && order@[b] == before[y]);
                } else if a == p {
                    assert(order@[b] == before[y]);
                } else {
                    assert(order@[a] == before[x]);
                }
            }
            assert forall|j: int| 0 <= j < i + 1 implies #[trigger] order@.contains(
                j as usize,
            ) by {
                if j == i {
                    assert(order@[p as int] == i);
                } else {
                    assert(before.contains(j as usize));
                    let a = choose|a: int| 0 <= a < before.len() && before[a] == j as usize;
                    if a < p {
                        assert(order@[a] == before[a]);
                    } else {
                        assert(order@[a + 1] == before[a]);
                    }
                }
            }
        }
    }
    order
}

/// The detections that stand, highest score first: one that overlaps a standing
/// detection with a higher score falls. `overlap[i][j]` is the overlap of the
/// boxes of `i` and `j`. Of several detections every score must be a number.
pub fn nms(scores: &[u32], overlap: &Vec<Vec<u32>>) -> (kept: Vec<usize>)
    requires
        scores@.len() >= 2 ==> all_numbers(scores@),
        overlap@.len() == scores@.len(),
        forall|i: int| 0 <= i < overlap@.len() ==> (#[trigger] overlap@[i])@.len() == scores@.len(),
    ensures
        are_survivors(scores@, overlap@, kept@),
{
    let order = ranking(scores);
    let mut kept: Vec<usize> = Vec::new();
    for t in 0..order.len()
        invariant
            overlap@.len() == scores@.len(),
            forall|i: int|
                0 <= i < overlap@.len() ==> (#[trigger] overlap@[i])@.len() == scores@.len(),
            order@.len() == scores@.len(),
            forall|a: int| 0 <= a < order@.len() ==> #[trigger] order@[a] < scores@.len(),
            forall|a: int, b: int|
                0 <= a < b < order@.len() ==> ranked_before(
                    scores@,
                    (#[trigger] order@[a]) as int,
                    (#[trigger] order@[b]) as int,
                ),
            forall|a: int|
                0 <= a < kept@.len() ==> #[trigger] kept@[a] < scores@.len() && (exists|s: int|
                    0 <= s < t && #[trigger] order@[s] == kept@[a]),
            forall|a: int, b: int|
                0 <= a < b < kept@.len() ==> ranked_before(
                    scores@,
                    (#[trigger] kept@[a]) as int,
                    (#[trigger] kept@[b]) as int,
                ),
            forall|s: int|
                0 <= s < t ==> (kept@.contains(#[trigger] order@[s]) <==> !suppressed(
                    scores@,
                    overlap@,
                    kept@,
                    order@[s] as int,
                )),
    {
        let d = order[t];
        let mut falls = false;
        for a in 0..kept.len()
            invariant
                d < scores@.len(),
                overlap@.len() == scores@.len(),
                forall|i: int|
                    0 <= i < overlap@.len() ==> (#[trigger] overlap@[i])@.len() == scores@.len(),
                forall|a: int| 0 <= a < kept@.len() ==> #[trigger] kept@[a] < scores@.len(),
                falls <==> exists|b: int|
                    0 <= b < a && overlapping(overlap@, d as int, (#[trigger] kept@[b]) as int),
        {
            if less32(NMS_THRESHOLD, overlap[d][kept[a]]) {
                proof {
                    assert(overlapping(overlap@, d as int, kept@[a as int] as int));
                }
                falls = true;
            }
        }
        let ghost before = kept@;
        proof {
            assert forall|a: int| 0 <= a < before.len() implies ranked_before(
                scores@,
                (#[trigger] before[a]) as int,
                d as int,
            ) by {
                let s = choose|s: int| 0 <= s < t && #[trigger] order@[s] == before[a];
                assert(ranked_before(scores@, order@[s] as int, order@[t as int] as int));
            }
        }
        if !falls {
            kept.push(d);
            proof {
                assert forall|s: int| 0 <= s < t + 1 implies (kept@.contains(
                    #[trigger] order@[s],
                ) <==> !suppressed(scores@, overlap@, kept@, order@[s] as int)) by {
                    lemma_one_more(scores@, overlap@, before, d, order@[s]);
                    if s < t {
                        assert(ranked_before(scores@, order@[s] as int, order@[t as int] as int));
                    } else {
                        assert(kept@[before.len() as int] == d);
                    }
                }
                assert forall|a: int| 0 <= a < kept@.len() implies #[trigger] kept@[a]
                    < scores@.len() && (exists|s: int|
                    0 <= s < t + 1 && #[trigger] order@[s] == kept@[a]) by {
                    if a < before.len() {
                        let s = choose|s: int| 0 <= s < t && #[trigger] order@[s] == before[a];
                        assert(order@[s] == kept@[a]);
                    } else {
                        assert(order@[t as int] == kept@[a]);
                    }
                }
            }
        } else {
            proof {
                let b = choose|b: int|
                    0 <= b < kept@.len() && overlapping(
                        overlap@,
                        d as int,
                        (#[trigger] kept@[b]) as int,
                    );
                assert(ranked_before(scores@, kept@[b] as int, d as int));
                assert(suppressed(scores@, overlap@, kept@, d as int));
                if kept@.contains(d) {
                    let a = choose|a: int| 0 <= a < kept@.len() && kept@[a] == d;
                    assert(ranked_before(scores@, kept@[a] as int, d as int));
                }
            }
        }
    }
    proof {
        assert forall|i: int| 0 <= i < scores@.len() implies (#[trigger] kept@.contains(
            i as usize,
        ) <==> !suppressed(scores@, overlap@, kept@, i)) by {
            assert(order@.contains(i as usize));
            let s = choose|s: int| 0 <= s < order@.len() && order@[s] == i as usize;
            assert(order@[s] == i);
        }
    }
    kept
}

/// A detection that does not come before another does not suppress it.
proof fn lemma_one_more(
    scores: Seq<u32>,
    overlap: Seq<Vec<u32>>,
    kept: Seq<usize>,
    d: usize,
    i: usize,
)
    ensures
        !ranked_before(scores, d as int, i as int) ==> suppressed(
            scores,
            overlap,
            kept.push(d),
            i as int,
        ) == suppressed(scores, overlap, kept, i as int),
        i != d ==> kept.push(d).contains(i) == kept.contains(i),
{
    let more = kept.push(d);
    if !ranked_before(scores, d as int, i as int) {
        if suppressed(scores, overlap, kept, i as int) {
            let a = choose|a: int|
                0 <= a < kept.len() && ranked_before(scores, (#[trigger] kept[a]) as int, i as int)
                    && overlapping(overlap, i as int, kept[a] as int);
            assert(more[a] == kept[a]);
        }
        if suppressed(scores, overlap, more, i as int) {
            let a = choose|a: int|
                0 <= a < more.len() && ranked_before(scores, (#[trigger] more[a]) as int, i as int)
                    && overlapping(overlap, i as int, more[a] as int);
            assert(more[a] == kept[a]);
        }
    }
    if kept.contains(i) {
        let a = choose|a: int| 0 <= a < kept.len() && kept[a] == i;
        assert(more[a] == i);
    }
    if i != d && more.contains(i) {
        let a = choose|a: int| 0 <= a < more.len() && more[a] == i;
        assert(kept[a] == i);
    }
}

proof fn lemma_same_survivor(
    scores: Seq<u32>,
    overlap: Seq<Vec<u32>>,
    a: Seq<usize>,
    b: Seq<usize>,
    i: usize,
)
    requires
        all_numbers(scores),
        are_survivors(scores, overlap, a),
        are_survivors(scores, overlap, b),
        i < scores.len(),
        a.contains(i),
    ensures
        b.contains(i),
    decreases 0x8000_0000 - place(scores[i as int])->0, i,
{
    assert(place(scores[i as int]) is Some);
    assert(a.contains((i as int) as usize));
    if !b.contains((i as int) as usize) {
        assert(suppressed(scores, overlap, b, i as int));
        let k = choose|k: int|
            0 <= k < b.len() && ranked_before(scores, (#[trigger] b[k]) as int, i as int)
                && overlapping(overlap, i as int, b[k] as int);
        let j = b[k];
        assert(place(scores[j as int]) is Some);
        lemma_same_survivor(scores, overlap, b, a, j);
        let m = choose|m: int| 0 <= m < a.len() && a[m] == j;
        assert(suppressed(scores, overlap, a, i as int)) by {
            assert(a[m] == j);
        }
    }
}

proof fn lemma_same_sequence(scores: Seq<u32>, a: Seq<usize>, b: Seq<usize>)
    requires
        forall|x: int, y: int|
            0 <= x < y < a.len() ==> ranked_before(
                scores,
                (#[trigger] a[x]) as int,
                (#[trigger] a[y]) as int,
            ),
        forall|x: int, y: int|
            0 <= x < y < b.len() ==> ranked_before(
                scores,
                (#[trigger] b[x]) as int,
                (#[trigger] b[y]) as int,
            ),
        forall|i: usize| #[trigger] a.contains(i) <==> b.contains(i),
    ensures
        a == b,
    decreases a.len(),
{
    if a.len() == 0 {
        if b.len() > 0 {
            assert(b.contains(b[0]));
            assert(a.contains(b[0]));
        }
    } else {
        assert(a.contains(a[0]));
        let p = choose|p: int| 0 <= p < b.len() && b[p] == a[0];
        assert(b.contains(b[0]));
        assert(a.contains(b[0]));
        let q = choose|q: int| 0 <= q < a.len() && a[q] == b[0];
        if p > 0 {
            assert(ranked_before(scores, b[0] as int, b[p] as int));
            if q > 0 {
                assert(ranked_before(scores, a[0] as int, a[q] as int));
            }
        }
        let (c, d) = (a.drop_first(), b.drop_first());
        assert forall|x: int, y: int| 0 <= x < y < c.len() implies ranked_before(
            scores,
            (#[trigger] c[x]) as int,
            (#[trigger] c[y]) as int,
        ) by {
            assert(c[x] == a[x + 1] && c[y] == a[y + 1]);
        }
        assert forall|x: int, y: int| 0 <= x < y < d.len() implies ranked_before(
            scores,
            (#[trigger] d[x]) as int,
            (#[trigger] d[y]) as int,
        ) by {
            assert(d[x] == b[x + 1] && d[y] == b[y + 1]);
        }
        assert forall|i: usize| #[trigger] c.contains(i) <==> d.contains(i) by {
            lemma_rest_contains(scores, a, i);
            lemma_rest_contains(scores, b, i);
            assert(a.contains(i) <==> b.contains(i));
        }
        lemma_same_sequence(scores, c, d);
        assert(a == seq![a[0]] + c);
        assert(b == seq![b[0]] + d);
    }
}

proof fn lemma_rest_contains(scores: Seq<u32>, a: Seq<usize>, i: usize)
    requires
        a.len() > 0,
        forall|x: int, y: int|
            0 <= x < y < a.len() ==> ranked_before(
                scores,
                (#[trigger] a[x]) as int,
                (#[trigger] a[y]) as int,
            ),
    ensures
        a.drop_first().contains(i) <==> a.contains(i) && i != a[0],
{
    let c = a.drop_first();
    if c.contains(i) {
        let x = choose|x: int| 0 <= x < c.len() && c[x] == i;
        assert(a[x + 1] == i);
        assert(ranked_before(scores, a[0] as int, a[x + 1] as int));
    }
    if a.contains(i) && i != a[0] {
        let x = choose|x: int| 0 <= x < a.len() && a[x] == i;
        assert(c[x - 1] == i);
    }
}

/// Scores and overlaps determine which detections stand, and in which order.
pub proof fn law_survivors_are_unique(
    scores: Seq<u32>,
    overlap: Seq<Vec<u32>>,
    a: Seq<usize>,
    b: Seq<usize>,
)
    requires
        all_numbers(scores),
        are_survivors(scores, overlap, a),
        are_survivors(scores, overlap, b),
    ensures
        a == b,
{
    assert forall|i: usize| #[trigger] a.contains(i) <==> b.contains(i) by {
        if a.contains(i) {
            let x = choose|x: int| 0 <= x < a.len() && a[x] == i;
            lemma_same_survivor(scores, overlap, a, b, i);
        }
        if b.contains(i) {
            let x = choose|x: int| 0 <= x < b.len() && b[x] == i;
            lemma_same_survivor(scores, overlap, b, a, i);
        }
    }
    lemma_same_sequence(scores, a, b);
}

/// No two detections that stand overlap too much, the later one measured
/// against the earlier one.
pub proof fn law_survivors_do_not_overlap(
    scores: Seq<u32>,
    overlap: Seq<Vec<u32>>,
    kept: Seq<usize>,
    x: int,
    y: int,
)
    requires
        are_survivors(scores, overlap, kept),
        0 <= x < y < kept.len(),
    ensures
        !overlapping(overlap, kept[y] as int, kept[x] as int),
{
    assert(ranked_before(scores, kept[x] as int, kept[y] as int));
    assert(kept.contains((kept[y] as int) as usize));
    assert(!suppressed(scores, overlap, kept, kept[y] as int));
}

/// Position `i` holds the highest score, and no later one is as high.
pub open spec fn is_best(scores: Seq<u32>, i: int) -> bool {
    &&& 0 <= i < scores.len()
    &&& forall|j: int|
        0 <= j < scores.len() ==> place(#[trigger] scores[j])->0 <= place(scores[i])->0
    &&& forall|j: int|
        i < j < scores.len() ==> place(#[trigger] scores[j])->0 < place(scores[i])->0
}

/// The detection with the highest score, the last one of several. Of several
/// detections every score must be a number.
pub fn best_detection(scores: &[u32]) -> (r: Option<usize>)
    requires
        scores@.len() >= 2 ==> all_numbers(scores@),
    ensures
        match r {
            Some(i) => is_best(scores@, i as int),
            None => scores@.len() == 0,
        },
{
    if scores.len() == 0 {
        return None;
    }
    let mut best: usize = 0;
    for i in 1..scores.len()
        invariant
            scores@.len() >= 2 ==> all_numbers(scores@),
            best < i,
            scores@.len() > 0,
            forall|j: int|
                0 <= j < i ==> place(#[trigger] scores@[j])->0 <= place(scores@[best as int])->0,
            forall|j: int|
                best < j < i ==> place(#[trigger] scores@[j])->0 < place(scores@[best as int])->0,
    {
        proof {
            assert(place(scores@[i as int]) is Some);
            assert(place(scores@[best as int]) is Some);
        }
        if !less32(scores[i], scores[best]) {
            best = i;
        }
    }
    Some(best)
}

/// The first of these similarities that no earlier one reaches and no later one
/// exceeds, as a scan from the start finds it.
pub open spec fn most_similar(faces: Seq<(usize, u32)>) -> Option<(usize, u32)>
    decreases faces.len(),
{
    if faces.len() == 0 {
        None
    } else {
        match most_similar(faces.drop_last()) {
            None => Some(faces.last()),
            Some(best) => if crate::ieee::below(place(best.1), place(faces.last().1)) {
                Some(faces.last())
            } else {
                Some(best)
            },
        }
    }
}

/// Position `i` holds the highest similarity, and no earlier one is as high.
pub open spec fn is_first_best(faces: Seq<(usize, u32)>, i: int) -> bool {
    &&& 0 <= i < faces.len()
    &&& forall|j: int|
        0 <= j < faces.len() ==> place((#[trigger] faces[j]).1)->0 <= place(faces[i].1)->0
    &&& forall|j: int| 0 <= j < i ==> place((#[trigger] faces[j]).1)->0 < place(faces[i].1)->0
}

/// Where all similarities are numbers, the known face that is found is the
/// first of those with the highest similarity.
pub proof fn law_most_similar_is_first_best(faces: Seq<(usize, u32)>)
    requires
        faces.len() > 0,
        forall|i: int| 0 <= i < faces.len() ==> place((#[trigger] faces[i]).1) is Some,
    ensures
        exists|i: int| #[trigger]
            is_first_best(faces, i) && most_similar(faces) == Some(faces[i]),
    decreases faces.len(),
{
    let rest = faces.drop_last();
    let n = faces.len() - 1;
    if rest.len() == 0 {
        assert(most_similar(rest) is None);
        assert(is_first_best(faces, 0));
    } else {
        assert forall|i: int| 0 <= i < rest.len() implies place(
            (#[trigger] rest[i]).1,
        ) is Some by {
            assert(faces[i] == rest[i]);
        }
        law_most_similar_is_first_best(rest);
        let i = choose|i: int| #[trigger]
            is_first_best(rest, i) && most_similar(rest) == Some(rest[i]);
        assert(faces[i] == rest[i]);
        assert forall|j: int| 0 <= j < n implies place((#[trigger] faces[j]).1)->0 <= place(
            faces[i].1,
        )->0 by {
            assert(faces[j] == rest[j]);
        }
        assert forall|j: int| 0 <= j < i implies place((#[trigger] faces[j]).1)->0 < place(
            faces[i].1,
        )->0 by {
            assert(faces[j] == rest[j]);
        }
        if place(faces[i].1)->0 < place(faces[n].1)->0 {
            assert(is_first_best(faces, n));
        } else {
            assert(is_first_best(faces, i));
        }
    }
}

/// The person whom a face shows, if it is similar enough to a known face.
/// `faces` holds the known faces: whose each is, and how similar.
pub open spec fn person_of(faces: Seq<(usize, u32)>) -> Option<usize> {
    match most_similar(faces) {
        Some((person, similarity)) => if place(similarity) is Some && place(similarity)->0 >= place(
            MATCH_THRESHOLD,
        )->0 {
            Some(person)
        } else {
            None
        },
        None => None,
    }
}

/// The person whom a face shows, by its similarity to the known faces.
pub fn identify(faces: &Vec<(usize, u32)>) -> (r: Option<usize>)
    ensures
        r == person_of(faces@),
{
    let mut best: Option<(usize, u32)> = None;
    for i in 0..faces.len()
        invariant
            best == most_similar(faces@.take(i as int)),
    {
        proof {
            assert(faces@.take(i + 1).drop_last() == faces@.take(i as int));
            assert(faces@.take(i + 1).last() == faces@[i as int]);
        }
        let face = faces[i];
        best = match best {
            None => Some(face),
            Some(b) => if less32(b.1, face.1) {
                Some(face)
            } else {
                Some(b)
            },
        };
    }
    proof {
        assert(faces@.take(faces@.len() as int) == faces@);
    }
    match best {
        Some((person, similarity)) => if at_least32(similarity, MATCH_THRESHOLD) {
            Some(person)
        } else {
            None
        },
        None => None,
    }
}

/// What a list of similarities to known faces holds, for each face of a photo.
pub open spec fn similarities(faces: Seq<Vec<(usize, u32)>>) -> Seq<Seq<(usize, u32)>> {
    faces.map_values(|f: Vec<(usize, u32)>| f@)
}

/// The names of the persons whom the faces of a photo show, in order.
pub open spec fn recognized(
    faces: Seq<Seq<(usize, u32)>>,
    names: Seq<Seq<char>>,
) -> Seq<Seq<char>>
    decreases faces.len(),
{
    if faces.len() == 0 {
        seq![]
    } else {
        match person_of(faces.last()) {
            Some(p) => recognized(faces.drop_last(), names).push(names[p as int]),
            None => recognized(faces.drop_last(), names),
        }
    }
}

/// Who is on a photo: the names for its faces, and how many faces remain
/// unknown. `faces` tells for each face how similar it is to the known ones.
pub fn identify_faces(faces: &Vec<Vec<(usize, u32)>>, names: &Vec<String>) -> (r: (
    Vec<String>,
    usize,
))
    requires
        forall|i: int, k: int|
            0 <= i < faces@.len() && 0 <= k < faces@[i]@.len() ==> (
            #[trigger] faces@[i]@[k]).0 < names@.len(),
    ensures
        crate::text::views(r.0@) == recognized(
            similarities(faces@),
            crate::text::views(names@),
        ),
        r.0@.len() + r.1 == faces@.len(),
{
    let mut matched: Vec<String> = Vec::new();
    let mut unmatched: usize = 0;
    let ghost all = similarities(faces@);
    let ghost people = crate::text::views(names@);
    proof {
        assert(crate::text::views(matched@) == Seq::<Seq<char>>::empty());
    }
    for i in 0..faces.len()
        invariant
            all == similarities(faces@),
            people == crate::text::views(names@),
            forall|i: int, k: int|
                0 <= i < faces@.len() && 0 <= k < faces@[i]@.len() ==> (
                #[trigger] faces@[i]@[k]).0 < names@.len(),
            crate::text::views(matched@) == recognized(all.take(i as int), people),
            matched@.len() + unmatched == i,
    {
        let ghost before = crate::text::views(matched@);
        proof {
            assert(all.take(i + 1).drop_last() == all.take(i as int));
            assert(all.take(i + 1).last() == faces@[i as int]@);
            lemma_known_person(faces@[i as int]@, names@.len());
        }
        match identify(&faces[i]) {
            Some(p) => {
                matched.push(names[p].clone());
                proof {
                    assert(crate::text::views(matched@) == before.push(people[p as int]));
                }
            },
            None => {
                unmatched = unmatched + 1;
            },
        }
    }
    proof {
        assert(all.take(faces@.len() as int) == all);
    }
    (matched, unmatched)
}

proof fn lemma_known_person(faces: Seq<(usize, u32)>, people: nat)
    requires
        forall|k: int| 0 <= k < faces.len() ==> (#[trigger] faces[k]).0 < people,
    ensures
        most_similar(faces) matches Some(best) ==> best.0 < people,
    decreases faces.len(),
{
    if faces.len() > 0 {
        let rest = faces.drop_last();
        assert forall|k: int| 0 <= k < rest.len() implies (#[trigger] rest[k]).0 < people by {
            assert(rest[k] == faces[k]);
        }
        lemma_known_person(rest, people);
        assert(faces.last() == faces[faces.len() - 1]);
    }
}

/// Where all similarities are numbers, a face is given a person exactly where
/// the highest similarity is at least 0.363, and then the person of the first
/// known face with that similarity. A face that is compared with none is given
/// nobody.
pub proof fn law_face_belongs_to_the_most_similar(faces: Seq<(usize, u32)>, i: int)
    requires
        0 <= i < faces.len(),
        forall|k: int|
            0 <= k < faces.len() ==> crate::ieee::place32((#[trigger] faces[k]).1) is Some,
        forall|k: int|
            0 <= k < faces.len() ==> crate::ieee::place32((#[trigger] faces[k]).1)->0
                <= crate::ieee::place32(faces[i].1)->0,
        forall|k: int|
            0 <= k < i ==> crate::ieee::place32((#[trigger] faces[k]).1)->0
                < crate::ieee::place32(faces[i].1)->0,
    ensures
        crate::ieee::place32(faces[i].1)->0 >= 0x3eb9_db23 ==> person_of(faces) == Some(faces[i].0),
        crate::ieee::place32(faces[i].1)->0 < 0x3eb9_db23 ==> person_of(faces) is None,
        person_of(seq![]) is None,
{
    law_most_similar_is_first_best(faces);
    let j = choose|j: int| #[trigger]
        is_first_best(faces, j) && most_similar(faces) == Some(faces[j]);
    if j < i {
        assert(place(faces[j].1)->0 < place(faces[i].1)->0);
    } else if i < j {
        assert(place(faces[i].1)->0 < place(faces[j].1)->0);
    }
    assert(place(MATCH_THRESHOLD) == Some(0x3eb9_db23int));
}

/// A face that becomes more similar to a known one, or is compared with one
/// more, is recognized still.
pub proof fn law_more_similar_stays_recognized(
    faces: Seq<(usize, u32)>,
    k: int,
    more: u32,
    further: (usize, u32),
)
    requires
        forall|n: int|
            0 <= n < faces.len() ==> crate::ieee::place32((#[trigger] faces[n]).1) is Some,
        0 <= k < faces.len(),
        crate::ieee::place32(more) is Some,
        crate::ieee::place32(more)->0 >= crate::ieee::place32(faces[k].1)->0,
        crate::ieee::place32(further.1) is Some,
        person_of(faces) is Some,
    ensures
        person_of(faces.update(k, (faces[k].0, more))) is Some,
        person_of(faces.push(further)) is Some,
{
    let closer = faces.update(k, (faces[k].0, more));
    let longer = faces.push(further);
    law_most_similar_is_first_best(faces);
    let i = choose|i: int| #[trigger]
        is_first_best(faces, i) && most_similar(faces) == Some(faces[i]);
    law_most_similar_is_first_best(closer);
    let j = choose|j: int| #[trigger]
        is_first_best(closer, j) && most_similar(closer) == Some(closer[j]);
    assert(place(closer[i].1)->0 >= place(faces[i].1)->0);
    law_most_similar_is_first_best(longer);
    let l = choose|l: int| #[trigger]
        is_first_best(longer, l) && most_similar(longer) == Some(longer[l]);
    assert(longer[i] == faces[i]);
}

/// Each face of a photo is named on its own: by the name of the person it is
/// given, or not at all.
pub proof fn law_faces_are_named_one_by_one(
    before: Seq<Seq<(usize, u32)>>,
    face: Seq<(usize, u32)>,
    behind: Seq<Seq<(usize, u32)>>,
    names: Seq<Seq<char>>,
)
    ensures
        recognized(before + seq![face] + behind, names) == recognized(before, names) + (
        match person_of(face) {
            Some(p) => seq![names[p as int]],
            None => Seq::<Seq<char>>::empty(),
        }) + recognized(behind, names),
    decreases behind.len(),
{
    let all = before + seq![face] + behind;
    if behind.len() == 0 {
        assert(all.drop_last() == before);
        assert(all.last() == face);
        assert(recognized(behind, names) == Seq::<Seq<char>>::empty());
    } else {
        law_faces_are_named_one_by_one(before, face, behind.drop_last(), names);
        assert(all.drop_last() == before + seq![face] + behind.drop_last());
        assert(all.last() == behind.last());
    }
    assert(recognized(all, names) =~= recognized(before, names) + (match person_of(face) {
        Some(p) => seq![names[p as int]],
        None => Seq::<Seq<char>>::empty(),
    }) + recognized(behind, names));
}

/// The cells that count are those whose score is not below 0.9, each once and in
/// order.
pub proof fn law_cells_that_count(scores: Seq<u32>, i: int)
    ensures
        counting(scores).contains(i) <==> 0 <= i < scores.len() && !(crate::ieee::place32(
            scores[i],
        ) is Some && crate::ieee::place32(scores[i])->0 < 0x3f66_6666),
        forall|a: int, b: int|
            0 <= a < b < counting(scores).len() ==> #[trigger] counting(scores)[a]
                < #[trigger] counting(scores)[b],
        forall|a: int|
            0 <= a < counting(scores).len() ==> 0 <= #[trigger] counting(scores)[a] < scores.len(),
    decreases scores.len(),
{
    assert(place(SCORE_THRESHOLD) == Some(0x3f66_6666int));
    if scores.len() > 0 {
        let fewer = scores.drop_last();
        law_cells_that_count(fewer, i);
        let before = counting(fewer);
        let all = counting(scores);
        let n = scores.len() - 1;
        if counts(scores.last()) {
            assert(all == before.push(n));
            assert(all[before.len() as int] == n);
            if before.contains(i) {
                let k = choose|k: int| 0 <= k < before.len() && before[k] == i;
                assert(all[k] == i);
            }
            if all.contains(i) && i != n {
                let k = choose|k: int| 0 <= k < all.len() && all[k] == i;
                assert(before[k] == i);
            }
        }
        if 0 <= i < n {
            assert(fewer[i] == scores[i]);
        }
    }
}

/// Of the detections that stand, an earlier one has no lower score than a later
/// one, and their boxes do not overlap by more than 0.3. One that falls has such
/// an overlap with a standing one that has no lower score. So the first of those
/// with the highest score stands.
pub proof fn law_detections_stand_or_fall(
    scores: Seq<u32>,
    overlap: Seq<Vec<u32>>,
    kept: Seq<usize>,
    i: int,
)
    requires
        are_survivors(scores, overlap, kept),
        forall|k: int|
            0 <= k < scores.len() ==> crate::ieee::place32(#[trigger] scores[k]) is Some,
        0 <= i < scores.len(),
    ensures
        forall|x: int, y: int|
            0 <= x < y < kept.len() ==> {
                &&& crate::ieee::place32(scores[(#[trigger] kept[x]) as int])->0
                    >= crate::ieee::place32(scores[(#[trigger] kept[y]) as int])->0
                &&& !(crate::ieee::place32(overlap[kept[y] as int]@[kept[x] as int]) is Some
                    && crate::ieee::place32(overlap[kept[y] as int]@[kept[x] as int])->0
                    > 0x3e99_999a)
            },
        !kept.contains(i as usize) ==> exists|x: int|
            0 <= x < kept.len() && {
                &&& crate::ieee::place32(scores[(#[trigger] kept[x]) as int])->0
                    >= crate::ieee::place32(scores[i])->0
                &&& crate::ieee::place32(overlap[i]@[kept[x] as int]) is Some
                &&& crate::ieee::place32(overlap[i]@[kept[x] as int])->0 > 0x3e99_999a
            },
        (forall|k: int|
            0 <= k < scores.len() ==> crate::ieee::place32(#[trigger] scores[k])->0
                <= crate::ieee::place32(scores[i])->0) && (forall|k: int|
            0 <= k < i ==> crate::ieee::place32(#[trigger] scores[k])->0 < crate::ieee::place32(
                scores[i],
            )->0) ==> kept.contains(i as usize),
{
    assert(place(NMS_THRESHOLD) == Some(0x3e99_999aint));
    assert forall|x: int, y: int| 0 <= x < y < kept.len() implies {
        &&& crate::ieee::place32(scores[(#[trigger] kept[x]) as int])->0 >= crate::ieee::place32(
            scores[(#[trigger] kept[y]) as int],
        )->0
        &&& !(crate::ieee::place32(overlap[kept[y] as int]@[kept[x] as int]) is Some
            && crate::ieee::place32(overlap[kept[y] as int]@[kept[x] as int])->0 > 0x3e99_999a)
    } by {
        law_survivors_do_not_overlap(scores, overlap, kept, x, y);
        assert(ranked_before(scores, kept[x] as int, kept[y] as int));
    }
    if !kept.contains(i as usize) {
        assert(suppressed(scores, overlap, kept, i));
        let x = choose|x: int|
            0 <= x < kept.len() && ranked_before(scores, (#[trigger] kept[x]) as int, i)
                && overlapping(overlap, i, kept[x] as int);
        assert(place(scores[kept[x] as int])->0 >= place(scores[i])->0);
    }
}

/// The best detection has the highest score, and of several with that score it
/// is the last.
pub proof fn law_best_detection_is_the_highest(scores: Seq<u32>, best: int, i: int)
    requires
        is_best(scores, best),
        0 <= i < scores.len(),
    ensures
        crate::ieee::place32(scores[i])->0 <= crate::ieee::place32(scores[best])->0,
        i > best ==> crate::ieee::place32(scores[i])->0 < crate::ieee::place32(scores[best])->0,
        is_best(scores, i) ==> i == best,
{
    assert(place(scores[i])->0 <= place(scores[best])->0);
    if i > best {
        assert(place(scores[i])->0 < place(scores[best])->0);
    }
    if is_best(scores, i) && i < best {
        assert(place(scores[best])->0 < place(scores[i])->0);
    }
}

/// In the square an image keeps its pixels, row by row and colour by colour, behind
/// the space that is told, which is the same on both sides, and above and below, up
/// to a pixel. The rest is black.
pub proof fn law_square_holds_the_image(
    rgb: Seq<u8>,
    width: int,
    height: int,
    x: int,
    y: int,
    colour: int,
)
    requires
        0 <= width <= 640,
        0 <= height <= 640,
        0 <= x < 640,
        0 <= y < 640,
        0 <= colour < 3,
    ensures
        ({
            let (square, left, top) = square_of(rgb, width, height);
            let (right, bottom) = (640 - width - left, 640 - height - top);
            let byte = square[3 * (640 * y + x) + colour];
            &&& square.len() == 3 * 640 * 640
            &&& 0 <= left <= right <= left + 1
            &&& 0 <= top <= bottom <= top + 1
            &&& left <= x < left + width && top <= y < top + height ==> byte == rgb[3 * ((y - top)
                * width + (x - left)) + colour]
            &&& !(left <= x < left + width && top <= y < top + height) ==> byte == 0
        }),
{
    let k = 3 * (640 * y + x) + colour;
    assert(k / 3 == 640 * y + x && k % 3 == colour);
    assert((640 * y + x) % 640 == x && (640 * y + x) / 640 == y);
    assert(0 <= k < 3 * 640 * 640);
}

/// Whatever the similarities, a face is given only a person to one of whose known
/// faces its similarity is a number of at least 0.363.
pub proof fn law_nobody_is_made_up(faces: Seq<(usize, u32)>)
    ensures
        person_of(faces) matches Some(p) ==> exists|i: int|
            0 <= i < faces.len() && (#[trigger] faces[i]).0 == p && crate::ieee::place32(
                faces[i].1,
            ) is Some && crate::ieee::place32(faces[i].1)->0 >= 0x3eb9_db23,
{
    assert(place(MATCH_THRESHOLD) == Some(0x3eb9_db23int));
    if faces.len() > 0 {
        let i = lemma_most_similar_is_one(faces);
        assert(faces[i].0 == faces[i].0);
    }
}

proof fn lemma_most_similar_is_one(faces: Seq<(usize, u32)>) -> (i: int)
    requires
        faces.len() > 0,
    ensures
        0 <= i < faces.len(),
        most_similar(faces) == Some(faces[i]),
    decreases faces.len(),
{
    let rest = faces.drop_last();
    if most_similar(faces) == Some(faces.last()) {
        faces.len() - 1
    } else {
        if rest.len() == 0 {
            assert(most_similar(rest) is None);
        }
        lemma_most_similar_is_one(rest)
    }
}

/// A face whose similarity to a known face is no number is treated as if that face
/// were not known, as long as it is not the first.
pub proof fn law_similarity_that_is_no_number_does_not_count(
    faces: Seq<(usize, u32)>,
    further: (usize, u32),
)
    requires
        faces.len() > 0,
        crate::ieee::place32(further.1) is None,
    ensures
        person_of(faces.push(further)) == person_of(faces),
{
    assert(faces.push(further).drop_last() =~= faces);
    let i = lemma_most_similar_is_one(faces);
}

/// A detection that is alone stands, whatever its score.
pub proof fn law_lone_detection_stands(
    scores: Seq<u32>,
    overlap: Seq<Vec<u32>>,
    kept: Seq<usize>,
)
    requires
        scores.len() == 1,
        are_survivors(scores, overlap, kept),
    ensures
        kept == seq![0usize],
{
    if suppressed(scores, overlap, kept, 0) {
        let a = choose|a: int|
            0 <= a < kept.len() && ranked_before(scores, (#[trigger] kept[a]) as int, 0)
                && overlapping(overlap, 0, kept[a] as int);
        assert(kept[a] < scores.len());
    }
    assert(kept.contains(0int as usize));
    if kept.len() > 1 {
        assert(kept[0] < scores.len() && kept[1] < scores.len());
        assert(ranked_before(scores, kept[0] as int, kept[1] as int));
    }
    assert(kept[0] < scores.len());
    assert(kept =~= seq![0usize]);
}

} // verus!
