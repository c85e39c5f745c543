//! The rows of the index: what is known of one file, and the fields that it
//! is written as.

use crate::csv_text::write_line;
use crate::dedup::{group_by_hash, group_sizes};
use crate::media::MediaKind;
use crate::number::{decimal, hex16};
use crate::text::join;
use crate::vision::VisionResult;
use vstd::prelude::*;

verus! {

/// What is known of one file. Coordinates, duration and blur estimate are
/// numbers as text.
pub struct RowRecord {
    pub rel_path: String,
    pub media_type: MediaKind,
    pub datetime: String,
    pub gps_lat: String,
    pub gps_lon: String,
    pub place: String,
    pub camera: String,
    pub resolution: String,
    pub duration: String,
    pub orientation: &'static str,
    pub flash: &'static str,
    pub blur: String,
    pub phash: u64,
    pub is_screenshot: &'static str,
    pub matched_names: Vec<String>,
    pub unmatched: usize,
    pub face_count: usize,
    pub vres: VisionResult,
    /// Why the file could not be read.
    pub error: Option<String>,
}

/// The number of columns.
pub const COLUMNS: usize = 21;

/// The titles of the columns.
pub open spec fn header() -> Seq<Seq<char>> {
    seq![
        "file"@,
        "media_type"@,
        "date_taken"@,
        "gps_lat"@,
        "gps_lon"@,
        "place"@,
        "camera"@,
        "resolution"@,
        "duration"@,
        "orientation"@,
        "flash"@,
        "blur_score"@,
        "phash"@,
        "duplicate_group"@,
        "is_screenshot"@,
        "people"@,
        "unknown_faces"@,
        "face_count"@,
        "tags"@,
        "ocr_text"@,
        "description"@,
    ]
}

/// The titles of the columns.
pub fn csv_header() -> (titles: Vec<String>)
    ensures
        crate::text::views(titles@) == header(),
        titles@.len() == COLUMNS,
{
    let mut t: Vec<String> = Vec::new();
    t.push("file".to_owned());
    t.push("media_type".to_owned());
    t.push("date_taken".to_owned());
    t.push("gps_lat".to_owned());
    t.push("gps_lon".to_owned());
    t.push("place".to_owned());
    t.push("camera".to_owned());
    t.push("resolution".to_owned());
    t.push("duration".to_owned());
    t.push("orientation".to_owned());
    t.push("flash".to_owned());
    t.push("blur_score".to_owned());
    t.push("phash".to_owned());
    t.push("duplicate_group".to_owned());
    t.push("is_screenshot".to_owned());
    t.push("people".to_owned());
    t.push("unknown_faces".to_owned());
    t.push("face_count".to_owned());
    t.push("tags".to_owned());
    t.push("ocr_text".to_owned());
    t.push("description".to_owned());
    proof {
        assert(crate::text::views(t@) =~= header());
    }
    t
}

/// A count as text; nothing for zero.
pub open spec fn count_text(n: nat) -> Seq<char> {
    if n > 0 {
        crate::number::digits(n)
    } else {
        seq![]
    }
}

fn count(n: usize) -> (s: String)
    ensures
        s@ == count_text(n as nat),
{
    if n > 0 {
        decimal(n as u64)
    } else {
        String::new()
    }
}

/// The fields of the row for `r`, whose duplicate group shows as `group`. The
/// row of a file that could not be read holds only what the file is and, in the
/// last column, why.
pub open spec fn fields_of(r: RowRecord, group: Seq<char>) -> Seq<Seq<char>> {
    match r.error {
        Some(e) => seq![r.rel_path@, crate::media::kind_label(r.media_type)] + Seq::new(
            18,
            |i: int| Seq::<char>::empty(),
        ) + seq![e@],
        None => seq![
            r.rel_path@,
            crate::media::kind_label(r.media_type),
            r.datetime@,
            r.gps_lat@,
            r.gps_lon@,
            r.place@,
            r.camera@,
            r.resolution@,
            r.duration@,
            r.orientation@,
            r.flash@,
            r.blur@,
            crate::number::hex_digits(r.phash as nat, 16),
            group,
            r.is_screenshot@,
            crate::text::joined_with(crate::text::views(r.matched_names@), ", "@),
            count_text(r.unmatched as nat),
            count_text(r.face_count as nat),
            r.vres@.tags,
            r.vres@.ocr_text,
            r.vres@.description,
        ],
    }
}

/// The fields of the row for `r`, whose duplicate group shows as `group`.
pub fn row_fields(r: &RowRecord, group: &str) -> (fields: Vec<String>)
    ensures
        crate::text::views(fields@) == fields_of(*r, group@),
        fields@.len() == COLUMNS,
{
    let mut f: Vec<String> = Vec::new();
    f.push(r.rel_path.clone());
    f.push(r.media_type.label().to_owned());
    if let Some(e) = &r.error {
        for i in 0..18usize
            invariant
                f@.len() == 2 + i,
                f@[0]@ == r.rel_path@,
                f@[1]@ == crate::media::kind_label(r.media_type),
                forall|k: int| 2 <= k < f@.len() ==> (#[trigger] f@[k])@ == Seq::<char>::empty(),
        {
            f.push(String::new());
        }
        f.push(e.clone());
        proof {
            assert(crate::text::views(f@) =~= fields_of(*r, group@));
        }
        return f;
    }
    f.push(r.datetime.clone());
    f.push(r.gps_lat.clone());
    f.push(r.gps_lon.clone());
    f.push(r.place.clone());
    f.push(r.camera.clone());
    f.push(r.resolution.clone());
    f.push(r.duration.clone());
    f.push(r.orientation.to_owned());
    f.push(r.flash.to_owned());
    f.push(r.blur.clone());
    f.push(hex16(r.phash));
    f.push(group.to_owned());
    f.push(r.is_screenshot.to_owned());
    f.push(join(&r.matched_names, ", "));
    f.push(count(r.unmatched));
    f.push(count(r.face_count));
    f.push(r.vres.tags.clone());
    f.push(r.vres.ocr_text.clone());
    f.push(r.vres.description.clone());
    proof {
        assert(crate::text::views(f@) =~= fields_of(*r, group@));
    }
    f
}

/// What an index file begins with: the titles of the columns, unless rows are
/// appended to a file that is there.
pub fn opening_text(append: bool) -> (text: Vec<u8>)
    ensures
        text@ == if append {
            Seq::<u8>::empty()
        } else {
            crate::csv_text::csv_line(header())
        },
{
    if append {
        Vec::new()
    } else {
        write_line(&csv_header())
    }
}

/// The text of the row for `r`, whose duplicate group shows as `group`.
pub fn row_text(r: &RowRecord, group: &str) -> (text: Vec<u8>)
    ensures
        text@ == crate::csv_text::csv_line(fields_of(*r, group@)),
{
    write_line(&row_fields(r, group))
}

/// Every row has all columns, that of a file that could not be read too.
pub proof fn law_rows_have_all_columns(r: RowRecord, group: Seq<char>)
    ensures
        fields_of(r, group).len() == COLUMNS,
        header().len() == COLUMNS,
{
}

/// How the group of photo `i` shows: its id, where the group has other members.
pub open spec fn duplicate_text(ids: Seq<usize>, i: int) -> Seq<char> {
    if ids[i] != 0 && crate::dedup::occurrences(ids, ids[i]) > 1 {
        crate::number::digits(ids[i] as nat)
    } else {
        seq![]
    }
}

/// The ids of the groups of photos with these hashes: all zero where photos are
/// not grouped.
pub open spec fn grouped(
    hashes: Seq<u64>,
    no_dedup: bool,
    threshold: u32,
    ids: Seq<usize>,
) -> bool {
    if no_dedup {
        ids == Seq::new(hashes.len(), |i: int| 0usize)
    } else {
        crate::dedup::are_groups(hashes, threshold, ids)
    }
}

/// How the group of each photo shows.
pub fn duplicate_texts(hashes: &Vec<u64>, no_dedup: bool, threshold: u32) -> (texts: Vec<String>)
    requires
        hashes@.len() < usize::MAX,
    ensures
        texts@.len() == hashes@.len(),
        exists|ids: Seq<usize>|
            grouped(hashes@, no_dedup, threshold, ids) && forall|i: int|
                0 <= i < texts@.len() ==> (#[trigger] texts@[i])@ == duplicate_text(ids, i),
{
    let ids: Vec<usize> = if no_dedup {
        vec![0usize; hashes.len()]
    } else {
        group_by_hash(hashes, threshold)
    };
    proof {
        if no_dedup {
            assert(ids@ =~= Seq::new(hashes@.len(), |i: int| 0usize));
        }
        assert(grouped(hashes@, no_dedup, threshold, ids@));
    }
    let sizes = group_sizes(&ids);
    let mut texts: Vec<String> = Vec::new();
    for i in 0..ids.len()
        invariant
            ids@.len() == hashes@.len(),
            texts@.len() == i,
            forall|k: int| 0 <= k < ids@.len() ==> (#[trigger] ids@[k]) < sizes@.len(),
            forall|g: int|
                0 <= g < sizes@.len() ==> #[trigger] sizes@[g] == crate::dedup::occurrences(
                    ids@,
                    g as usize,
                ),
            forall|k: int|
                0 <= k < texts@.len() ==> (#[trigger] texts@[k])@ == duplicate_text(ids@, k),
    {
        let g: usize = ids[i];
        proof {
            assert(sizes@[g as int] == crate::dedup::occurrences(ids@, g));
        }
        if g != 0 && sizes[g] > 1 {
            texts.push(decimal(g as u64));
        } else {
            texts.push(String::new());
        }
    }
    texts
}

/// A count that is not zero shows as the number it is; zero does not show.
pub proof fn law_counts_read_back(n: usize)
    ensures
        n > 0 ==> crate::number::number(count_text(n as nat), usize::MAX as nat) == Some(n as nat),
        count_text(0).len() == 0,
{
    crate::number::law_written_number_reads_back(n as nat, 0, usize::MAX as nat);
}

/// A photo shows a group exactly where another photo is of the same shot, and two
/// photos show the same group exactly where they are of one shot. Where photos are
/// not grouped, none shows a group.
pub proof fn law_photos_of_a_shot_show_one_group(
    hashes: Seq<u64>,
    threshold: u32,
    ids: Seq<usize>,
    i: int,
    j: int,
)
    requires
        0 <= i < hashes.len(),
        0 <= j < hashes.len(),
        i != j,
    ensures
        grouped(hashes, false, threshold, ids) ==> {
            &&& duplicate_text(ids, i).len() > 0 <==> exists|k: int|
                0 <= k < hashes.len() && k != i && #[trigger] crate::dedup::same_shot(
                    hashes,
                    threshold,
                    i,
                    k,
                )
            &&& crate::dedup::same_shot(hashes, threshold, i, j) ==> duplicate_text(ids, i)
                == duplicate_text(ids, j) && duplicate_text(ids, i).len() > 0
            &&& duplicate_text(ids, i) == duplicate_text(ids, j) && duplicate_text(ids, i).len()
                > 0 ==> crate::dedup::same_shot(hashes, threshold, i, j)
        },
        grouped(hashes, true, threshold, ids) ==> duplicate_text(ids, i).len() == 0,
{
    if grouped(hashes, false, threshold, ids) {
        crate::dedup::law_group_size_tells_duplicates(hashes, threshold, ids, i);
        crate::dedup::law_group_size_tells_duplicates(hashes, threshold, ids, j);
        crate::number::law_written_number_reads_back(ids[i] as nat, 0, usize::MAX as nat);
        crate::number::law_written_number_reads_back(ids[j] as nat, 0, usize::MAX as nat);
        assert(1 <= ids[i] && 1 <= ids[j]);
        assert(ids[i] == ids[j] <==> crate::dedup::same_shot(hashes, threshold, i, j));
        if crate::dedup::same_shot(hashes, threshold, i, j) {
            crate::dedup::law_same_shot_is_an_equivalence(hashes, threshold, i, j, i);
        }
    }
}

} // verus!
