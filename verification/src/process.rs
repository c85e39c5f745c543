//! From a file to its row: how it is read, what is said where that fails, and
//! what the row shows where it succeeds.

use crate::exif_read::{is_screenshot_heuristic, Coordinate, ExifData};
use crate::media::MediaKind;
use crate::number::decimal;
use crate::picture::{height_of, perceptual_hash, width_of};
use crate::rows::RowRecord;
use crate::text::{joined, trimmed};
use crate::video::VideoMeta;
use crate::vision::VisionResult;
use vstd::prelude::*;

verus! {

/// Where the image of a file comes from.
pub enum Source {
    /// A frame of the video, whose container is asked too.
    VideoFrame,
    /// A frame that `ffmpeg` makes of a HEIF file.
    HeicFrame,
    /// The file itself.
    Still,
    /// Nowhere, and what is said instead.
    Skipped(String),
}

/// What a `Source` holds.
pub enum SourceView {
    VideoFrame,
    HeicFrame,
    Still,
    Skipped(Seq<char>),
}

impl View for Source {
    type V = SourceView;

    open spec fn view(&self) -> SourceView {
        match self {
            Source::VideoFrame => SourceView::VideoFrame,
            Source::HeicFrame => SourceView::HeicFrame,
            Source::Still => SourceView::Still,
            Source::Skipped(s) => SourceView::Skipped(s@),
        }
    }
}

/// Where the image of a file of this kind comes from, by the programs that
/// were found. Videos need both, HEIF files need `ffmpeg`.
pub open spec fn source_of(kind: MediaKind, ffmpeg: bool, ffprobe: bool) -> SourceView {
    match kind {
        MediaKind::Video => if ffmpeg && ffprobe {
            SourceView::VideoFrame
        } else {
            SourceView::Skipped(
                "[skipped: ffmpeg/ffprobe not found -- video support needs both on PATH or bundled next to this binary, see README \"Supported formats\"]"@,
            )
        },
        MediaKind::Heic => if ffmpeg {
            SourceView::HeicFrame
        } else {
            SourceView::Skipped(
                "[skipped: ffmpeg not found -- HEIC support needs the bundled ffmpeg (see README \"Supported formats\")]"@,
            )
        },
        MediaKind::Image | MediaKind::Raw => SourceView::Still,
    }
}

/// Where the image of a file of this kind comes from.
pub fn choose_source(kind: MediaKind, ffmpeg: bool, ffprobe: bool) -> (s: Source)
    ensures
        s@ == source_of(kind, ffmpeg, ffprobe),
{
    match kind {
        MediaKind::Video => if ffmpeg && ffprobe {
            Source::VideoFrame
        } else {
            Source::Skipped(
                "[skipped: ffmpeg/ffprobe not found -- video support needs both on PATH or bundled next to this binary, see README \"Supported formats\"]".to_owned(),
            )
        },
        MediaKind::Heic => if ffmpeg {
            Source::HeicFrame
        } else {
            Source::Skipped(
                "[skipped: ffmpeg not found -- HEIC support needs the bundled ffmpeg (see README \"Supported formats\")]".to_owned(),
            )
        },
        MediaKind::Image => Source::Still,
        MediaKind::Raw => Source::Still,
    }
}

/// What decodes a still image.
#[derive(Debug, Clone, Copy, PartialEq, Eq, Structural)]
pub enum StillDecoder {
    Raw,
    Image,
}

/// What decodes a still image of this kind, if anything does.
pub open spec fn decoder_of(kind: MediaKind) -> Option<StillDecoder> {
    match kind {
        MediaKind::Heic => None,
        MediaKind::Raw => Some(StillDecoder::Raw),
        _ => Some(StillDecoder::Image),
    }
}

/// What decodes a still image of this kind; HEIF files are left to `ffmpeg`.
pub fn open_still_image(kind: MediaKind) -> (r: Result<StillDecoder, String>)
    ensures
        match r {
            Ok(d) => kind != MediaKind::Heic && (d == StillDecoder::Raw <==> kind
                == MediaKind::Raw),
            Err(e) => kind == MediaKind::Heic && e@
                == "HEIC: decoded via the bundled ffmpeg (not the image crate)"@,
        },
        r.ok() == decoder_of(kind),
{
    match kind {
        MediaKind::Raw => Ok(StillDecoder::Raw),
        MediaKind::Heic => Err(
            "HEIC: decoded via the bundled ffmpeg (not the image crate)".to_owned(),
        ),
        _ => Ok(StillDecoder::Image),
    }
}

/// What is said of a file of this kind that could not be read.
pub open spec fn failure_text(kind: MediaKind, e: Seq<char>) -> Seq<char> {
    match kind {
        MediaKind::Video => "[video read error: "@ + e + "]"@,
        MediaKind::Heic => "[HEIC read error: "@ + e + "]"@,
        MediaKind::Image | MediaKind::Raw => "[read error: "@ + e + "]"@,
    }
}

/// What is said of a file of this kind that could not be read because of `e`.
pub fn read_failure(kind: MediaKind, e: &str) -> (s: String)
    ensures
        s@ == failure_text(kind, e@),
{
    let begin = match kind {
        MediaKind::Video => joined("[video read error: ", e),
        MediaKind::Heic => joined("[HEIC read error: ", e),
        MediaKind::Image => joined("[read error: ", e),
        MediaKind::Raw => joined("[read error: ", e),
    };
    joined(&begin, "]")
}

/// `r` is the record of a file that gave no image: it names the file and says
/// why, and nothing else.
pub open spec fn says_only(
    r: RowRecord,
    rel_path: Seq<char>,
    kind: MediaKind,
    message: Seq<char>,
) -> bool {
    &&& r.rel_path@ == rel_path
    &&& r.media_type == kind
    &&& r.datetime@.len() == 0
    &&& r.gps_lat@.len() == 0
    &&& r.gps_lon@.len() == 0
    &&& r.place@.len() == 0
    &&& r.camera@.len() == 0
    &&& r.resolution@.len() == 0
    &&& r.duration@.len() == 0
    &&& r.orientation@.len() == 0
    &&& r.flash@.len() == 0
    &&& r.blur@.len() == 0
    &&& r.phash == 0
    &&& r.is_screenshot@.len() == 0
    &&& r.matched_names@.len() == 0
    &&& r.unmatched == 0
    &&& r.face_count == 0
    &&& r.vres@ == crate::vision::blank()
    &&& r.error is Some
    &&& r.error->Some_0@ == message
}

/// The record of a file that gave no image.
pub fn error_record(rel_path: String, kind: MediaKind, message: String) -> (r: RowRecord)
    ensures
        says_only(r, rel_path@, kind, message@),
        crate::rows::fields_of(r, seq![]) == seq![
            rel_path@,
            crate::media::kind_label(kind),
        ] + Seq::new(18, |i: int| Seq::<char>::empty()) + seq![message@],
{
    proof {
        reveal_strlit("");
    }
    RowRecord {
        rel_path,
        media_type: kind,
        datetime: String::new(),
        gps_lat: String::new(),
        gps_lon: String::new(),
        place: String::new(),
        camera: String::new(),
        resolution: String::new(),
        duration: String::new(),
        orientation: "",
        flash: "",
        blur: String::new(),
        phash: 0,
        is_screenshot: "",
        matched_names: Vec::new(),
        unmatched: 0,
        face_count: 0,
        vres: VisionResult::default(),
        error: Some(message),
    }
}

/// What the index shows of a video: when it was made, and where.
pub open spec fn video_photo_data(meta: VideoMeta) -> crate::exif_read::PhotoData {
    crate::exif_read::PhotoData {
        datetime: match meta.creation_time {
            Some(s) => s@,
            None => seq![],
        },
        gps_lat: match meta.gps {
            Some((lat, _)) => Some(Coordinate::Decimal(lat)),
            None => None,
        },
        gps_lon: match meta.gps {
            Some((_, lon)) => Some(Coordinate::Decimal(lon)),
            None => None,
        },
        ..crate::exif_read::no_data()
    }
}

/// What the index shows of a video.
pub fn video_data(meta: VideoMeta) -> (d: ExifData)
    ensures
        d@ == video_photo_data(meta),
{
    let (gps_lat, gps_lon) = match meta.gps {
        Some((lat, lon)) => (Some(Coordinate::Decimal(lat)), Some(Coordinate::Decimal(lon))),
        None => (None, None),
    };
    ExifData {
        datetime: match meta.creation_time {
            Some(s) => s,
            None => String::new(),
        },
        gps_lat,
        gps_lon,
        camera_make: String::new(),
        camera_model: String::new(),
        flash_fired: None,
    }
}

/// The size of an image as text.
pub open spec fn size_text(width: nat, height: nat) -> Seq<char> {
    crate::number::digits(width) + "x"@ + crate::number::digits(height)
}

/// The size of an image as text.
pub fn resolution_of(width: u32, height: u32) -> (s: String)
    ensures
        s@ == size_text(width as nat, height as nat),
{
    joined(&joined(&decimal(width as u64), "x"), &decimal(height as u64))
}

/// Whether an image is wide, high or neither.
pub open spec fn shape(width: nat, height: nat) -> Seq<char> {
    if width > height {
        "landscape"@
    } else if height > width {
        "portrait"@
    } else {
        "square"@
    }
}

/// Whether an image is wide, high or neither.
pub fn orientation_of(width: u32, height: u32) -> (s: &'static str)
    ensures
        s@ == shape(width as nat, height as nat),
{
    if width > height {
        "landscape"
    } else if height > width {
        "portrait"
    } else {
        "square"
    }
}

/// Make and model of a camera together.
pub open spec fn camera_text(make: Seq<char>, model: Seq<char>) -> Seq<char> {
    crate::text::trim(make + " "@ + model)
}

/// Make and model of a camera together.
pub fn camera_of(make: &str, model: &str) -> (s: String)
    ensures
        s@ == camera_text(make@, model@),
{
    trimmed(&joined(&joined(make, " "), model))
}

/// Whether the flash fired, as text.
pub open spec fn flash_text(fired: Option<bool>) -> Seq<char> {
    match fired {
        Some(true) => "yes"@,
        Some(false) => "no"@,
        None => ""@,
    }
}

/// Whether the flash fired, as text.
pub fn flash_of(fired: Option<bool>) -> (s: &'static str)
    ensures
        s@ == flash_text(fired),
{
    match fired {
        Some(true) => "yes",
        Some(false) => "no",
        None => "",
    }
}

/// Whether a file looks like a screenshot, as text. A video never does: its
/// frame has no camera to name.
pub open spec fn screenshot_text(
    kind: MediaKind,
    data: crate::exif_read::PhotoData,
) -> Seq<char> {
    if kind != MediaKind::Video && data.camera_make.len() == 0 && data.camera_model.len() == 0 {
        "yes"@
    } else {
        ""@
    }
}

/// Whether a file looks like a screenshot, as text.
pub fn screenshot_of(kind: MediaKind, data: &ExifData) -> (s: &'static str)
    ensures
        s@ == screenshot_text(kind, data@),
{
    if kind != MediaKind::Video && is_screenshot_heuristic(data) {
        "yes"
    } else {
        ""
    }
}

/// Whether a place is asked for: the position is known in both directions, and
/// places are wanted.
pub fn wants_place(data: &ExifData, geocode: bool) -> (r: bool)
    ensures
        r == (geocode && data@.gps_lat is Some && data@.gps_lon is Some),
{
    data.gps_lat.is_some() && data.gps_lon.is_some() && geocode
}

/// Who is asked to describe a photo.
#[derive(Debug, Clone, Copy, PartialEq, Eq, Structural)]
pub enum Describer {
    Nobody,
    Ollama,
    OpenAiCompatible,
}

/// Who is asked to describe photos.
pub open spec fn describer_of(no_vision: bool, ollama: bool, usable: bool) -> Describer {
    if no_vision || !ollama && !usable {
        Describer::Nobody
    } else if ollama {
        Describer::Ollama
    } else {
        Describer::OpenAiCompatible
    }
}

/// Who is asked to describe photos: nobody where that is not wanted; a local
/// Ollama instance where one is given; else the configured service where it is
/// usable.
pub fn choose_describer(no_vision: bool, ollama: bool, usable: bool) -> (d: Describer)
    ensures
        d == if no_vision || !ollama && !usable {
            Describer::Nobody
        } else if ollama {
            Describer::Ollama
        } else {
            Describer::OpenAiCompatible
        },
        d == describer_of(no_vision, ollama, usable),
{
    if no_vision {
        Describer::Nobody
    } else if ollama {
        Describer::Ollama
    } else if usable {
        Describer::OpenAiCompatible
    } else {
        Describer::Nobody
    }
}

/// What a run provides for every file.
#[derive(Debug, Clone, Copy, PartialEq, Eq, Structural)]
pub struct Means {
    /// `ffmpeg` was found.
    pub ffmpeg: bool,
    /// `ffprobe` was found.
    pub ffprobe: bool,
    /// Places are asked for.
    pub geocode: bool,
    /// The models that find faces are there.
    pub faces: bool,
    /// Who describes photos.
    pub describer: Describer,
}

/// What is done next about a file.
#[derive(Debug, Clone, Copy, PartialEq, Eq, Structural)]
pub enum Task {
    /// Ask `ffprobe` about the video.
    Probe,
    /// Take a frame of the file with `ffmpeg`.
    TakeFrame,
    /// Decode the file.
    OpenStill,
    /// Read the Exif fields of the file.
    ReadFields,
    /// Ask what place is at the position.
    AskPlace,
    /// Find the faces on the image.
    FindFaces,
    /// Have the image described.
    Describe,
    /// Write the row.
    WriteRow,
}

/// What came of a task.
pub enum Outcome {
    /// What `ffprobe` told.
    Probed(VideoMeta),
    /// Why there is no image, if there is none.
    Decoded(Option<String>),
    /// The Exif fields.
    FieldsRead(ExifData),
    /// The place, if one was named.
    Placed(Option<String>),
    /// The names for the faces and how many remain unknown, if faces could be
    /// looked for.
    FacesFound(Option<(Vec<String>, usize)>),
    /// The description.
    Described(VisionResult),
}

/// The work on one file.
pub struct Job {
    rel_path: String,
    kind: MediaKind,
    means: Means,
    task: Task,
    data: ExifData,
    /// The duration of a video in seconds, a decimal number as text.
    duration: Option<String>,
    place: String,
    matched_names: Vec<String>,
    unmatched: usize,
    vres: VisionResult,
    /// Why there is no image.
    error: Option<String>,
}

/// What a `Job` holds.
pub struct JobState {
    pub rel_path: Seq<char>,
    pub kind: MediaKind,
    pub means: Means,
    pub task: Task,
    pub data: crate::exif_read::PhotoData,
    pub duration: Option<Seq<char>>,
    pub place: Seq<char>,
    pub matched_names: Seq<Seq<char>>,
    pub unmatched: usize,
    pub vres: crate::vision::Scene,
    pub error: Option<Seq<char>>,
}

impl View for Job {
    type V = JobState;

    closed spec fn view(&self) -> JobState {
        JobState {
            rel_path: self.rel_path@,
            kind: self.kind,
            means: self.means,
            task: self.task,
            data: self.data@,
            duration: crate::geocode::optional_view(self.duration),
            place: self.place@,
            matched_names: crate::text::views(self.matched_names@),
            unmatched: self.unmatched,
            vres: self.vres@,
            error: crate::geocode::optional_view(self.error),
        }
    }
}

/// A job that goes on with `task`.
pub open spec fn turned_to(s: JobState, task: Task) -> JobState {
    JobState { task, ..s }
}

/// A job that ends with an error.
pub open spec fn given_up(s: JobState, error: Seq<char>) -> JobState {
    JobState { task: Task::WriteRow, error: Some(error), ..s }
}

/// A job that is yet to begin.
pub open spec fn fresh(rel_path: Seq<char>, kind: MediaKind, means: Means) -> JobState {
    JobState {
        rel_path,
        kind,
        means,
        task: Task::OpenStill,
        data: crate::exif_read::no_data(),
        duration: None,
        place: seq![],
        matched_names: seq![],
        unmatched: 0,
        vres: crate::vision::blank(),
        error: None,
    }
}

/// How the job of a file begins: where its image comes from decides.
pub open spec fn begun(rel_path: Seq<char>, kind: MediaKind, means: Means) -> JobState {
    let s = fresh(rel_path, kind, means);
    match source_of(kind, means.ffmpeg, means.ffprobe) {
        SourceView::VideoFrame => turned_to(s, Task::Probe),
        SourceView::HeicFrame => turned_to(s, Task::TakeFrame),
        SourceView::Still => s,
        SourceView::Skipped(message) => given_up(s, message),
    }
}

/// A photo is described last, where anybody describes it.
pub open spec fn with_faces_done(s: JobState) -> JobState {
    turned_to(
        s,
        if s.means.describer == Describer::Nobody {
            Task::WriteRow
        } else {
            Task::Describe
        },
    )
}

/// Faces are looked for once the place is known or not asked for.
pub open spec fn with_place_done(s: JobState) -> JobState {
    if s.means.faces {
        turned_to(s, Task::FindFaces)
    } else {
        with_faces_done(s)
    }
}

/// The place is asked for where places are wanted and the position is known.
pub open spec fn with_fields_done(s: JobState) -> JobState {
    if s.means.geocode && s.data.gps_lat is Some && s.data.gps_lon is Some {
        turned_to(s, Task::AskPlace)
    } else {
        with_place_done(s)
    }
}

/// The outcome `o` is one that the task can have.
pub open spec fn fits(s: JobState, o: Outcome) -> bool {
    match s.task {
        Task::Probe => o is Probed,
        Task::TakeFrame | Task::OpenStill => o is Decoded,
        Task::ReadFields => o is FieldsRead,
        Task::AskPlace => o is Placed,
        Task::FindFaces => o is FacesFound && (o->FacesFound_0 matches Some((names, n))
            ==> names@.len() + n <= usize::MAX),
        Task::Describe => o is Described,
        Task::WriteRow => false,
    }
}

/// The job after the outcome `o` of its task.
pub open spec fn job_after(s: JobState, o: Outcome) -> JobState {
    match o {
        Outcome::Probed(meta) => JobState {
            data: video_photo_data(meta),
            duration: crate::geocode::optional_view(meta.duration_secs),
            ..turned_to(s, Task::TakeFrame)
        },
        Outcome::Decoded(failure) => match failure {
            Some(e) => given_up(s, failure_text(s.kind, e@)),
            None => if s.kind == MediaKind::Video {
                with_fields_done(s)
            } else {
                turned_to(s, Task::ReadFields)
            },
        },
        Outcome::FieldsRead(data) => with_fields_done(JobState { data: data@, ..s }),
        Outcome::Placed(place) => with_place_done(
            JobState {
                place: match place {
                    Some(p) => p@,
                    None => seq![],
                },
                ..s
            },
        ),
        Outcome::FacesFound(found) => with_faces_done(
            JobState {
                matched_names: match found {
                    Some((names, _)) => crate::text::views(names@),
                    None => seq![],
                },
                unmatched: match found {
                    Some((_, n)) => n,
                    None => 0,
                },
                ..s
            },
        ),
        Outcome::Described(vres) => JobState { vres: vres@, ..turned_to(s, Task::WriteRow) },
    }
}

/// A job is in a state that it can be in: a file without an image is only
/// written down, with nothing found out and nobody asked; places, faces and
/// descriptions are asked for only where the run provides them.
pub open spec fn is_sound(s: JobState) -> bool {
    &&& s.error is Some ==> s.task == Task::WriteRow && s.place.len() == 0
        && s.matched_names.len() == 0 && s.unmatched == 0 && s.vres == crate::vision::blank()
    &&& s.task == Task::Probe ==> s.means.ffmpeg && s.means.ffprobe && s.kind == MediaKind::Video
    &&& s.task == Task::TakeFrame ==> s.means.ffmpeg && (s.kind == MediaKind::Video || s.kind
        == MediaKind::Heic)
    &&& s.task == Task::OpenStill ==> s.kind == MediaKind::Image || s.kind == MediaKind::Raw
    &&& s.task == Task::ReadFields ==> s.kind != MediaKind::Video
    &&& s.task == Task::AskPlace ==> s.means.geocode && s.data.gps_lat is Some
        && s.data.gps_lon is Some
    &&& s.task == Task::FindFaces ==> s.means.faces
    &&& s.task == Task::Describe ==> s.means.describer != Describer::Nobody
    &&& s.place.len() > 0 ==> s.means.geocode && s.data.gps_lat is Some && s.data.gps_lon is Some
    &&& s.matched_names.len() > 0 || s.unmatched > 0 ==> s.means.faces
    &&& s.matched_names.len() + s.unmatched <= usize::MAX
    &&& s.means.describer == Describer::Nobody ==> s.vres == crate::vision::blank()
    &&& s.duration is Some ==> s.kind == MediaKind::Video
    &&& s.task == Task::Probe || s.task == Task::TakeFrame || s.task == Task::OpenStill || s.task
        == Task::ReadFields || s.task == Task::AskPlace ==> s.place.len() == 0
    &&& !(s.task == Task::Describe || s.task == Task::WriteRow) ==> s.matched_names.len() == 0
        && s.unmatched == 0
    &&& s.task != Task::WriteRow ==> s.vres == crate::vision::blank()
}

/// How far a job is from its end.
pub open spec fn tasks_left(task: Task) -> nat {
    match task {
        Task::Probe => 7,
        Task::TakeFrame => 6,
        Task::OpenStill => 6,
        Task::ReadFields => 5,
        Task::AskPlace => 4,
        Task::FindFaces => 3,
        Task::Describe => 2,
        Task::WriteRow => 1,
    }
}

/// Every job begins in a sound state, every outcome keeps it sound and brings
/// it nearer to its row, and a file that gives no image gets a row that says
/// why, without anybody having been asked about it.
pub proof fn law_every_file_gets_its_row(
    rel_path: Seq<char>,
    kind: MediaKind,
    means: Means,
    s: JobState,
    o: Outcome,
)
    requires
        is_sound(s),
        fits(s, o),
    ensures
        is_sound(begun(rel_path, kind, means)),
        is_sound(job_after(s, o)),
        tasks_left(job_after(s, o).task) < tasks_left(s.task),
        job_after(s, o).rel_path == s.rel_path,
        job_after(s, o).kind == s.kind,
        job_after(s, o).means == s.means,
        job_after(s, o).error is Some <==> o matches Outcome::Decoded(Some(_)),
{
}

/// Begins the work on a file.
pub fn begin_job(rel_path: String, kind: MediaKind, means: Means) -> (j: Job)
    ensures
        j@ == begun(rel_path@, kind, means),
        is_sound(j@),
{
    let (task, error) = match choose_source(kind, means.ffmpeg, means.ffprobe) {
        Source::VideoFrame => (Task::Probe, None),
        Source::HeicFrame => (Task::TakeFrame, None),
        Source::Still => (Task::OpenStill, None),
        Source::Skipped(message) => (Task::WriteRow, Some(message)),
    };
    let j = Job {
        rel_path,
        kind,
        means,
        task,
        data: ExifData::default(),
        duration: None,
        place: String::new(),
        matched_names: Vec::new(),
        unmatched: 0,
        vres: VisionResult::default(),
        error,
    };
    proof {
        assert(j@.matched_names =~= Seq::<Seq<char>>::empty());
    }
    j
}

impl Job {
    fn after_faces(&mut self)
        ensures
            final(self)@ == with_faces_done(old(self)@),
    {
        self.task = match self.means.describer {
            Describer::Nobody => Task::WriteRow,
            _ => Task::Describe,
        };
    }

    fn after_place(&mut self)
        ensures
            final(self)@ == with_place_done(old(self)@),
    {
        if self.means.faces {
            self.task = Task::FindFaces;
        } else {
            self.after_faces();
        }
    }

    fn after_fields(&mut self)
        ensures
            final(self)@ == with_fields_done(old(self)@),
    {
        if wants_place(&self.data, self.means.geocode) {
            self.task = Task::AskPlace;
        } else {
            self.after_place();
        }
    }

    /// What is to be done next.
    pub fn task(&self) -> (t: Task)
        ensures
            t == self@.task,
    {
        self.task
    }

    /// What the file tells of itself, as far as it was read.
    pub fn data(&self) -> (d: &ExifData)
        ensures
            d@ == self@.data,
    {
        &self.data
    }

    /// The duration of a video in seconds, a decimal number as text.
    pub fn duration(&self) -> (d: &Option<String>)
        ensures
            crate::geocode::optional_view(*d) == self@.duration,
    {
        &self.duration
    }

    /// Why there is no image, if there is none.
    pub fn error(&self) -> (e: &Option<String>)
        ensures
            crate::geocode::optional_view(*e) == self@.error,
    {
        &self.error
    }

    /// Takes the outcome of the task and goes on to the next.
    pub fn take_outcome(&mut self, outcome: Outcome)
        requires
            is_sound(old(self)@),
            fits(old(self)@, outcome),
        ensures
            final(self)@ == job_after(old(self)@, outcome),
            is_sound(final(self)@),
    {
        proof {
            law_every_file_gets_its_row(
                self@.rel_path,
                self@.kind,
                self@.means,
                self@,
                outcome,
            );
        }
        match outcome {
            Outcome::Probed(meta) => {
                self.duration = match &meta.duration_secs {
                    Some(d) => Some(d.clone()),
                    None => None,
                };
                self.data = video_data(meta);
                self.task = Task::TakeFrame;
            },
            Outcome::Decoded(failure) => match failure {
                Some(e) => {
                    self.error = Some(read_failure(self.kind, &e));
                    self.task = Task::WriteRow;
                },
                None => if self.kind == MediaKind::Video {
                    self.after_fields();
                } else {
                    self.task = Task::ReadFields;
                },
            },
            Outcome::FieldsRead(data) => {
                self.data = data;
                self.after_fields();
            },
            Outcome::Placed(place) => {
                self.place = match place {
                    Some(p) => p,
                    None => String::new(),
                };
                self.after_place();
            },
            Outcome::FacesFound(found) => {
                match found {
                    Some((names, n)) => {
                        self.matched_names = names;
                        self.unmatched = n;
                    },
                    None => {
                        self.matched_names = Vec::new();
                        self.unmatched = 0;
                        proof {
                            assert(self@.matched_names =~= Seq::<Seq<char>>::empty());
                        }
                    },
                }
                self.after_faces();
            },
            Outcome::Described(vres) => {
                self.vres = vres;
                self.task = Task::WriteRow;
            },
        }
    }
}

/// The record of a job that ended with an error.
pub fn failed_record(job: Job) -> (r: RowRecord)
    requires
        job@.error is Some,
    ensures
        says_only(r, job@.rel_path, job@.kind, job@.error->Some_0),
{
    let message = match job.error {
        Some(message) => message,
        None => String::new(),
    };
    error_record(job.rel_path, job.kind, message)
}

/// Numbers of a row as text.
pub struct NumberTexts {
    pub gps_lat: String,
    pub gps_lon: String,
    pub duration: String,
    pub blur: String,
}

/// The text of a number that is known, else nothing.
pub open spec fn text_if(known: bool, text: Seq<char>) -> Seq<char> {
    if known {
        text
    } else {
        seq![]
    }
}

fn if_known(known: bool, text: String) -> (s: String)
    ensures
        s@ == text_if(known, text@),
{
    if known {
        text
    } else {
        String::new()
    }
}

/// `r` is the record of a job that gave an image of this size and hash.
pub open spec fn records(
    r: RowRecord,
    s: JobState,
    t: NumberTexts,
    width: nat,
    height: nat,
    phash: u64,
) -> bool {
    &&& r.rel_path@ == s.rel_path
    &&& r.media_type == s.kind
    &&& r.datetime@ == s.data.datetime
    &&& r.gps_lat@ == text_if(s.data.gps_lat is Some, t.gps_lat@)
    &&& r.gps_lon@ == text_if(s.data.gps_lon is Some, t.gps_lon@)
    &&& r.place@ == s.place
    &&& r.camera@ == camera_text(s.data.camera_make, s.data.camera_model)
    &&& r.resolution@ == size_text(width, height)
    &&& r.duration@ == text_if(s.duration is Some, t.duration@)
    &&& r.orientation@ == shape(width, height)
    &&& r.flash@ == flash_text(s.data.flash_fired)
    &&& r.blur@ == t.blur@
    &&& r.phash == phash
    &&& r.is_screenshot@ == screenshot_text(s.kind, s.data)
    &&& crate::text::views(r.matched_names@) == s.matched_names
    &&& r.unmatched == s.unmatched
    &&& r.face_count == s.matched_names.len() + s.unmatched
    &&& r.vres@ == s.vres
    &&& r.error is None
}

/// The record of a job that gave an image of this size and hash.
pub fn record_of(
    job: Job,
    t: NumberTexts,
    width: u32,
    height: u32,
    phash: u64,
) -> (r: RowRecord)
    requires
        is_sound(job@),
        job@.task == Task::WriteRow,
        job@.error is None,
    ensures
        records(r, job@, t, width as nat, height as nat, phash),
{
    let camera = camera_of(&job.data.camera_make, &job.data.camera_model);
    let is_screenshot = screenshot_of(job.kind, &job.data);
    let face_count = job.matched_names.len() + job.unmatched;
    RowRecord {
        rel_path: job.rel_path,
        media_type: job.kind,
        datetime: job.data.datetime,
        gps_lat: if_known(job.data.gps_lat.is_some(), t.gps_lat),
        gps_lon: if_known(job.data.gps_lon.is_some(), t.gps_lon),
        place: job.place,
        camera,
        resolution: resolution_of(width, height),
        duration: if_known(job.duration.is_some(), t.duration),
        orientation: orientation_of(width, height),
        flash: flash_of(job.data.flash_fired),
        blur: t.blur,
        phash,
        is_screenshot,
        matched_names: job.matched_names,
        unmatched: job.unmatched,
        face_count,
        vres: job.vres,
        error: None,
    }
}

/// The record of a job that gave the image `img`.
pub fn process_one(job: Job, t: NumberTexts, img: &image::DynamicImage) -> (r: RowRecord)
    requires
        is_sound(job@),
        job@.task == Task::WriteRow,
        job@.error is None,
    ensures
        records(
            r,
            job@,
            t,
            crate::picture::raster(*img).width,
            crate::picture::raster(*img).height(),
            r.phash,
        ),
        ({
            let gray = crate::picture::luma(
                crate::picture::scaled(
                    crate::picture::raster(*img),
                    crate::picture::HASH_SIDE as nat,
                    crate::picture::HASH_SIDE as nat,
                ),
            );
            gray.len() == 64 && crate::picture::is_average_hash(r.phash, gray)
        }),
        crate::picture::is_hash_of(r.phash, crate::picture::raster(*img)),
{
    record_of(job, t, width_of(img), height_of(img), perceptual_hash(img))
}

/// A row shows a place only where places are asked for and the position is
/// known, faces only where they are looked for, a description, tags and text
/// only where somebody describes photos, a duration only of a video and a
/// position only where the file tells it. A video never looks like a
/// screenshot; another file does exactly where it names no camera.
pub proof fn law_row_shows_only_what_was_found(
    r: RowRecord,
    s: JobState,
    t: NumberTexts,
    width: nat,
    height: nat,
    phash: u64,
)
    requires
        is_sound(s),
        records(r, s, t, width, height, phash),
    ensures
        r.face_count == r.matched_names@.len() + r.unmatched,
        !s.means.faces ==> r.face_count == 0,
        s.means.describer == Describer::Nobody ==> r.vres@ == crate::vision::blank(),
        !s.means.geocode || s.data.gps_lat is None || s.data.gps_lon is None ==> r.place@.len()
            == 0,
        s.kind != MediaKind::Video ==> r.duration@.len() == 0,
        s.data.gps_lat is None ==> r.gps_lat@.len() == 0,
        s.data.gps_lon is None ==> r.gps_lon@.len() == 0,
        r.is_screenshot@ == "yes"@ <==> s.kind != MediaKind::Video && s.data.camera_make.len()
            == 0 && s.data.camera_model.len() == 0,
        r.is_screenshot@ == "yes"@ || r.is_screenshot@.len() == 0,
        r.error is None,
{
    reveal_strlit("yes");
    reveal_strlit("");
    assert("yes"@.len() == 3 && ""@.len() == 0);
    assert(crate::text::views(r.matched_names@).len() == r.matched_names@.len());
}

/// The most threads that are used where their number is not given.
pub const MAX_AUTO_THREADS: usize = 4;

/// How many threads work on photos.
pub open spec fn thread_count(asked: usize, available: Option<usize>) -> usize {
    if asked > 0 {
        asked
    } else {
        match available {
            Some(a) => if a < MAX_AUTO_THREADS {
                a
            } else {
                MAX_AUTO_THREADS
            },
            None => MAX_AUTO_THREADS,
        }
    }
}

/// How many threads work on photos: as many as asked for; else as many as the
/// machine runs at once, but no more than four, and four where it does not
/// tell.
pub fn worker_threads(asked: usize, available: Option<usize>) -> (n: usize)
    ensures
        n == if asked > 0 {
            asked
        } else {
            match available {
                Some(a) => if a < MAX_AUTO_THREADS {
                    a
                } else {
                    MAX_AUTO_THREADS
                },
                None => MAX_AUTO_THREADS,
            }
        },
        n == thread_count(asked, available),
{
    if asked > 0 {
        asked
    } else {
        match available {
            Some(a) => if a < MAX_AUTO_THREADS {
                a
            } else {
                MAX_AUTO_THREADS
            },
            None => MAX_AUTO_THREADS,
        }
    }
}

/// The position of a video goes from the location in its report to the data of
/// its job: the first number of the location is the latitude and the second,
/// signed one the longitude.
pub proof fn law_location_reaches_the_job(
    s: JobState,
    report: crate::json::JsonTree,
    meta: VideoMeta,
    north: Seq<char>,
    whole: Seq<char>,
    point: Seq<char>,
    fraction: Seq<char>,
    east: Seq<char>,
    other_whole: Seq<char>,
    other_point: Seq<char>,
    other_fraction: Seq<char>,
    altitude: Seq<char>,
)
    requires
        crate::video::are_number_parts(north, whole, point, fraction),
        crate::video::are_number_parts(east, other_whole, other_point, other_fraction),
        east.len() > 0,
        altitude.len() > 0 ==> (altitude[0] == '+' || altitude[0] == '-') && altitude.last() != '/',
        report.member("format"@).member("tags"@).member("com.apple.quicktime.location.ISO6709"@)
            == crate::json::JsonTree::Text(
            north + whole + point + fraction + (east + other_whole + other_point + other_fraction)
                + altitude + seq!['/'],
        ),
        meta@ == crate::video::reported(report),
    ensures
        ({
            let data = job_after(s, Outcome::Probed(meta)).data;
            &&& data.gps_lat matches Some(Coordinate::Decimal(t)) && t@ == north + whole + point
                + fraction
            &&& data.gps_lon matches Some(Coordinate::Decimal(t)) && t@ == east + other_whole
                + other_point + other_fraction
        }),
{
    crate::video::law_latitude_comes_before_longitude(
        north,
        whole,
        point,
        fraction,
        east,
        other_whole,
        other_point,
        other_fraction,
        altitude,
    );
    crate::video::law_report_gives_the_location(
        report,
        north + whole + point + fraction + (east + other_whole + other_point + other_fraction)
            + altitude + seq!['/'],
    );
}

/// What a video tells of itself is in the data of its job: the date, the position
/// and the duration, each in its place, and nothing else.
pub proof fn law_video_data_is_what_the_container_tells(s: JobState, meta: VideoMeta)
    ensures
        ({
            let after = job_after(s, Outcome::Probed(meta));
            let told = meta@;
            &&& after.task == Task::TakeFrame
            &&& told.creation_time matches Some(t) ==> after.data.datetime == t
            &&& told.creation_time is None ==> after.data.datetime.len() == 0
            &&& after.duration == told.duration_secs
            &&& told.gps is None ==> after.data.gps_lat is None && after.data.gps_lon is None
            &&& told.gps matches Some(p) ==> (after.data.gps_lat matches Some(
                Coordinate::Decimal(t),
            ) && t@ == p.0) && (after.data.gps_lon matches Some(Coordinate::Decimal(t)) && t@
                == p.1)
            &&& after.data.camera_make.len() == 0
            &&& after.data.camera_model.len() == 0
            &&& after.data.flash_fired is None
        }),
{
}


/// What is found out about a photo comes together in its job: its fields, then
/// the place, the faces and the description. Where the run provides all of them,
/// these are asked for in this order, and the photo is decoded first.
pub proof fn law_photo_job_gathers_everything(
    rel_path: Seq<char>,
    kind: MediaKind,
    means: Means,
    data: ExifData,
    place: Option<String>,
    found: Option<(Vec<String>, usize)>,
    vres: VisionResult,
)
    requires
        kind == MediaKind::Image || kind == MediaKind::Raw || kind == MediaKind::Heic
            && means.ffmpeg,
        means.geocode,
        means.faces,
        means.describer != Describer::Nobody,
        data@.gps_lat is Some,
        data@.gps_lon is Some,
    ensures
        ({
            let start = begun(rel_path, kind, means);
            let decoded = job_after(start, Outcome::Decoded(None));
            let read = job_after(decoded, Outcome::FieldsRead(data));
            let placed = job_after(read, Outcome::Placed(place));
            let faced = job_after(placed, Outcome::FacesFound(found));
            let end = job_after(faced, Outcome::Described(vres));
            &&& start.task == if kind == MediaKind::Heic {
                Task::TakeFrame
            } else {
                Task::OpenStill
            }
            &&& decoded.task == Task::ReadFields
            &&& read.task == Task::AskPlace
            &&& placed.task == Task::FindFaces
            &&& faced.task == Task::Describe
            &&& end.task == Task::WriteRow
            &&& end.error is None
            &&& end.rel_path == rel_path
            &&& end.kind == kind
            &&& end.data == data@
            &&& end.duration is None
            &&& place matches Some(p) ==> end.place == p@
            &&& place is None ==> end.place.len() == 0
            &&& found matches Some(f) ==> end.matched_names == crate::text::views(f.0@)
                && end.unmatched == f.1
            &&& found is None ==> end.matched_names.len() == 0 && end.unmatched == 0
            &&& end.vres == vres@
        }),
{
}

/// A run that lacks something goes on with what comes next: without places or a
/// position with the faces, without face models with the description, and without
/// anybody to describe photos with the row. A video is asked about before its
/// frame is taken, and keeps what its container tells.
pub proof fn law_job_passes_over_what_is_missing(
    s: JobState,
    data: ExifData,
    place: Option<String>,
    found: Option<(Vec<String>, usize)>,
    meta: VideoMeta,
    rel_path: Seq<char>,
    means: Means,
)
    ensures
        ({
            let read = job_after(s, Outcome::FieldsRead(data));
            &&& read.task == Task::AskPlace <==> s.means.geocode && data@.gps_lat is Some
                && data@.gps_lon is Some
            &&& read.task != Task::AskPlace ==> (read.task == Task::FindFaces <==> s.means.faces)
            &&& read.task != Task::AskPlace && !s.means.faces ==> (read.task == Task::Describe
                <==> s.means.describer != Describer::Nobody)
            &&& read.data == data@
        }),
        ({
            let placed = job_after(s, Outcome::Placed(place));
            &&& placed.task == Task::FindFaces <==> s.means.faces
            &&& !s.means.faces ==> (placed.task == Task::Describe <==> s.means.describer
                != Describer::Nobody)
            &&& !s.means.faces && s.means.describer == Describer::Nobody ==> placed.task
                == Task::WriteRow
        }),
        ({
            let faced = job_after(s, Outcome::FacesFound(found));
            &&& faced.task == Task::Describe <==> s.means.describer != Describer::Nobody
            &&& s.means.describer == Describer::Nobody ==> faced.task == Task::WriteRow
        }),
        ({
            let start = begun(rel_path, MediaKind::Video, means);
            let probed = job_after(start, Outcome::Probed(meta));
            let decoded = job_after(probed, Outcome::Decoded(None));
            means.ffmpeg && means.ffprobe ==> {
                &&& start.task == Task::Probe
                &&& probed.task == Task::TakeFrame
                &&& decoded.data == probed.data
                &&& decoded.duration == meta@.duration_secs
                &&& decoded.task != Task::ReadFields
            }
        }),
{
}

/// A file is skipped exactly where a program that it needs is missing: a video
/// needs both, a HEIF file needs `ffmpeg`, other photos need none. A program more
/// never makes a file be skipped.
pub proof fn law_skipped_for_want_of_programs(
    rel_path: Seq<char>,
    kind: MediaKind,
    means: Means,
)
    ensures
        begun(rel_path, kind, means).error is Some <==> kind == MediaKind::Video && !(means.ffmpeg
            && means.ffprobe) || kind == MediaKind::Heic && !means.ffmpeg,
        begun(rel_path, kind, means).rel_path == rel_path,
        begun(rel_path, kind, means).kind == kind,
        begun(rel_path, kind, means).means == means,
        begun(rel_path, kind, means).error is Some ==> begun(rel_path, kind, means).task
            == Task::WriteRow,
{
}

/// The row of a file that could not be decoded names the error between the words
/// for its kind, and the file stays the same.
pub proof fn law_failure_is_told(s: JobState, e: String)
    ensures
        ({
            let after = job_after(s, Outcome::Decoded(Some(e)));
            let n = e@.len() as int;
            let k: int = match s.kind {
                MediaKind::Video => 19,
                MediaKind::Heic => 18,
                _ => 13,
            };
            &&& after.task == Task::WriteRow
            &&& after.rel_path == s.rel_path
            &&& after.kind == s.kind
            &&& after.error matches Some(t) && t.len() == k + n + 1 && t.subrange(k, k + n) == e@
                && t[0] == '[' && t.last() == ']' && (s.kind == MediaKind::Video ==> t.take(k)
                == "[video read error: "@) && (s.kind == MediaKind::Heic ==> t.take(k)
                == "[HEIC read error: "@) && (s.kind == MediaKind::Image || s.kind
                == MediaKind::Raw ==> t.take(k) == "[read error: "@)
        }),
{
    reveal_strlit("[video read error: ");
    reveal_strlit("[HEIC read error: ");
    reveal_strlit("[read error: ");
    reveal_strlit("]");
    let n = e@.len() as int;
    let t = failure_text(s.kind, e@);
    let k: int = match s.kind {
        MediaKind::Video => 19,
        MediaKind::Heic => 18,
        _ => 13,
    };
    assert(t.subrange(k, k + n) =~= e@);
    match s.kind {
        MediaKind::Video => {
            assert(t.take(k) =~= "[video read error: "@);
        },
        MediaKind::Heic => {
            assert(t.take(k) =~= "[HEIC read error: "@);
        },
        _ => {
            assert(t.take(k) =~= "[read error: "@);
        },
    }
}

/// The size of an image is written as its width, an `x` and its height, and both
/// can be read back.
pub proof fn law_size_reads_back(width: u32, height: u32)
    ensures
        ({
            let s = size_text(width as nat, height as nat);
            let n = crate::text::find(s, 'x') as int;
            &&& n < s.len()
            &&& crate::number::number(s.take(n), u32::MAX as nat) == Some(width as nat)
            &&& crate::number::number(s.skip(n + 1), u32::MAX as nat) == Some(height as nat)
        }),
{
    let (a, b) = (crate::number::digits(width as nat), crate::number::digits(height as nat));
    let s = size_text(width as nat, height as nat);
    reveal_strlit("x");
    crate::number::law_written_number_reads_back(width as nat, 0, u32::MAX as nat);
    crate::number::law_written_number_reads_back(height as nat, 0, u32::MAX as nat);
    assert(crate::number::zero_filled(a, 0) == a);
    let n = a.len() as int;
    crate::text::lemma_find(s, 'x');
    assert(s[n] == 'x');
    let k = crate::text::find(s, 'x') as int;
    if k < n {
        assert(s[k] == a[k]);
        assert(crate::number::is_digit(a[k]));
    }
    assert(s.take(n) == a);
    assert(s.skip(n + 1) == b);
}

/// A wide image is a landscape and a high one a portrait; turned by a right angle
/// the one becomes the other, and a square stays a square.
pub proof fn law_shape_tells_the_longer_side(width: nat, height: nat)
    ensures
        shape(width, height) == "landscape"@ <==> width > height,
        shape(width, height) == "portrait"@ <==> height > width,
        shape(width, height) == "square"@ <==> width == height,
        shape(width, height) == "landscape"@ <==> shape(height, width) == "portrait"@,
{
    reveal_strlit("landscape");
    reveal_strlit("portrait");
    reveal_strlit("square");
    assert("landscape"@.len() == 9 && "portrait"@.len() == 8 && "square"@.len() == 6);
}

proof fn lemma_clean_ends(s: Seq<char>)
    requires
        crate::text::trim(s) == s,
    ensures
        s.len() > 0 ==> !crate::text::white_space(s[0]) && !crate::text::white_space(s.last()),
{
    crate::text::law_trimmed_text_is_a_part(s);
}

/// A camera is named by its make and its model with a space between them; by one
/// of them where the other is missing; and not at all where both are.
pub proof fn law_camera_is_make_and_model(make: Seq<char>, model: Seq<char>)
    requires
        crate::text::trim(make) == make,
        crate::text::trim(model) == model,
    ensures
        make.len() > 0 && model.len() > 0 ==> camera_text(make, model) == make + seq![' '] + model,
        make.len() > 0 && model.len() == 0 ==> camera_text(make, model) == make,
        make.len() == 0 && model.len() > 0 ==> camera_text(make, model) == model,
        make.len() == 0 && model.len() == 0 ==> camera_text(make, model).len() == 0,
{
    reveal_strlit(" ");
    let blank = seq![' '];
    let none = Seq::<char>::empty();
    assert(" "@ =~= blank);
    lemma_clean_ends(make);
    lemma_clean_ends(model);
    let whole = make + " "@ + model;
    let (before, s, behind) = if make.len() > 0 && model.len() > 0 {
        (none, make + blank + model, none)
    } else if make.len() > 0 {
        (none, make, blank)
    } else {
        (blank, model, none)
    };
    assert(before + s + behind =~= whole);
    assert(s.len() > 0 ==> !crate::text::white_space(s[0]) && !crate::text::white_space(s.last()));
    crate::text::law_trim_takes_only_white_space(before, s, behind);
}

/// The row of a photo shows, under each title, what the job of the photo found
/// out, and numbers as their texts.
pub proof fn law_row_shows_the_job(
    r: RowRecord,
    s: JobState,
    t: NumberTexts,
    width: nat,
    height: nat,
    phash: u64,
    group: Seq<char>,
)
    requires
        records(r, s, t, width, height, phash),
    ensures
        ({
            let row = crate::rows::fields_of(r, group);
            let titles = crate::rows::header();
            &&& row.len() == 21 && titles.len() == 21
            &&& titles[0] == "file"@ && row[0] == s.rel_path
            &&& titles[1] == "media_type"@ && row[1] == crate::media::kind_label(s.kind)
            &&& titles[2] == "date_taken"@ && row[2] == s.data.datetime
            &&& titles[3] == "gps_lat"@ && (s.data.gps_lat is Some ==> row[3] == t.gps_lat@) && (
            s.data.gps_lat is None ==> row[3].len() == 0)
            &&& titles[4] == "gps_lon"@ && (s.data.gps_lon is Some ==> row[4] == t.gps_lon@) && (
            s.data.gps_lon is None ==> row[4].len() == 0)
            &&& titles[5] == "place"@ && row[5] == s.place
            &&& titles[6] == "camera"@ && row[6] == camera_text(
                s.data.camera_make,
                s.data.camera_model,
            )
            &&& titles[7] == "resolution"@ && row[7] == size_text(width, height)
            &&& titles[8] == "duration"@ && (s.duration is Some ==> row[8] == t.duration@) && (
            s.duration is None ==> row[8].len() == 0)
            &&& titles[9] == "orientation"@ && row[9] == shape(width, height)
            &&& titles[10] == "flash"@ && (s.data.flash_fired == Some(true) ==> row[10] == "yes"@)
                && (s.data.flash_fired == Some(false) ==> row[10] == "no"@) && (s.data.flash_fired
                is None ==> row[10].len() == 0)
            &&& titles[11] == "blur_score"@ && row[11] == t.blur@
            &&& titles[12] == "phash"@ && row[12] == crate::number::hex_digits(phash as nat, 16)
            &&& titles[13] == "duplicate_group"@ && row[13] == group
            &&& titles[14] == "is_screenshot"@ && (row[14] == "yes"@ <==> s.kind
                != MediaKind::Video && s.data.camera_make.len() == 0 && s.data.camera_model.len()
                == 0)
            &&& titles[15] == "people"@ && row[15] == crate::text::joined_with(
                s.matched_names,
                ", "@,
            )
            &&& titles[16] == "unknown_faces"@ && (s.unmatched > 0 ==> row[16]
                == crate::number::digits(s.unmatched as nat)) && (s.unmatched == 0 ==> row[16].len()
                == 0)
            &&& titles[17] == "face_count"@ && (s.matched_names.len() + s.unmatched > 0 ==> row[17]
                == crate::number::digits(s.matched_names.len() + s.unmatched as nat)) && (
            s.matched_names.len() + s.unmatched == 0 ==> row[17].len() == 0)
            &&& titles[18] == "tags"@ && row[18] == s.vres.tags
            &&& titles[19] == "ocr_text"@ && row[19] == s.vres.ocr_text
            &&& titles[20] == "description"@ && row[20] == s.vres.description
        }),
{
    reveal_strlit("yes");
    reveal_strlit("no");
    reveal_strlit("");
    assert("yes"@.len() == 3 && ""@.len() == 0);
}

/// The row of a file that gave no image shows its name, its kind and, under
/// `description`, why; all other columns are empty.
pub proof fn law_row_of_a_failure(
    r: RowRecord,
    rel_path: Seq<char>,
    kind: MediaKind,
    message: Seq<char>,
    group: Seq<char>,
    i: int,
)
    requires
        says_only(r, rel_path, kind, message),
        0 <= i < 21,
    ensures
        ({
            let row = crate::rows::fields_of(r, group);
            &&& row.len() == 21
            &&& row[0] == rel_path
            &&& row[1] == crate::media::kind_label(kind)
            &&& 2 <= i < 20 ==> row[i].len() == 0
            &&& row[20] == message
            &&& r.phash == 0
        }),
{
}

/// Photos are described by an Ollama instance wherever one is given, by the
/// configured service where only that can be called, and by nobody where that is
/// not wanted or there is neither.
pub proof fn law_local_describer_comes_first(no_vision: bool, ollama: bool, usable: bool)
    ensures
        describer_of(no_vision, ollama, usable) == Describer::Nobody <==> no_vision || !(ollama
            || usable),
        describer_of(no_vision, ollama, usable) == Describer::Ollama <==> !no_vision && ollama,
        describer_of(no_vision, ollama, usable) == Describer::OpenAiCompatible <==> !no_vision
            && !ollama && usable,
{
}

/// As many threads work as were asked for. Where no number was given, no more than
/// four do, and no more than the machine runs at once.
pub proof fn law_threads_keep_their_bounds(asked: usize, available: usize)
    ensures
        asked > 0 ==> thread_count(asked, Some(available)) == asked && thread_count(asked, None)
            == asked,
        thread_count(0, Some(available)) <= 4,
        thread_count(0, Some(available)) <= available,
        thread_count(0, Some(available)) == 4 || thread_count(0, Some(available)) == available,
        thread_count(0, None) == 4,
{
}

/// Every outcome of a task brings what it found into the job, whatever the run
/// provides and whatever was found before, and leaves everything else as it was.
pub proof fn law_outcomes_are_kept(
    s: JobState,
    data: ExifData,
    place: Option<String>,
    found: Option<(Vec<String>, usize)>,
    vres: VisionResult,
    meta: VideoMeta,
)
    ensures
        ({
            let t = job_after(s, Outcome::Decoded(None));
            t == (JobState { task: t.task, ..s })
        }),
        ({
            let t = job_after(s, Outcome::FieldsRead(data));
            t.data == data@ && t == (JobState { task: t.task, data: t.data, ..s })
        }),
        ({
            let t = job_after(s, Outcome::Placed(place));
            &&& place matches Some(p) ==> t.place == p@
            &&& place is None ==> t.place.len() == 0
            &&& t == (JobState { task: t.task, place: t.place, ..s })
        }),
        ({
            let t = job_after(s, Outcome::FacesFound(found));
            &&& found matches Some(f) ==> t.unmatched == f.1 && t.matched_names.len() == f.0@.len()
                && forall|i: int|
                    0 <= i < f.0@.len() ==> #[trigger] t.matched_names[i] == f.0@[i]@
            &&& found is None ==> t.matched_names.len() == 0 && t.unmatched == 0
            &&& t == (JobState {
                task: t.task,
                matched_names: t.matched_names,
                unmatched: t.unmatched,
                ..s
            })
        }),
        ({
            let t = job_after(s, Outcome::Described(vres));
            &&& t.vres == vres@
            &&& t.task == Task::WriteRow
            &&& t == (JobState { task: t.task, vres: t.vres, ..s })
        }),
        ({
            let t = job_after(s, Outcome::Probed(meta));
            t == (JobState { task: t.task, data: t.data, duration: t.duration, ..s })
        }),
{
}

/// A photo that was decoded has its fields read; a video has told them already.
pub proof fn law_photos_have_their_fields_read(s: JobState)
    ensures
        s.kind != MediaKind::Video ==> job_after(s, Outcome::Decoded(None)).task
            == Task::ReadFields,
        s.kind == MediaKind::Video && s.means.geocode && s.data.gps_lat is Some
            && s.data.gps_lon is Some ==> job_after(s, Outcome::Decoded(None)).task
            == Task::AskPlace,
        s.kind == MediaKind::Video && (!s.means.geocode || s.data.gps_lat is None
            || s.data.gps_lon is None) && s.means.faces ==> job_after(
            s,
            Outcome::Decoded(None),
        ).task == Task::FindFaces,
        s.kind == MediaKind::Video && (!s.means.geocode || s.data.gps_lat is None
            || s.data.gps_lon is None) && !s.means.faces && s.means.describer
            != Describer::Nobody ==> job_after(s, Outcome::Decoded(None)).task == Task::Describe,
{
}

/// Raw camera files have a decoder of their own, HEIF files have none here, and all
/// other files are decoded as images.
pub proof fn law_decoders_of_the_kinds(kind: MediaKind)
    ensures
        decoder_of(kind) == Some(StillDecoder::Raw) <==> kind == MediaKind::Raw,
        decoder_of(kind) is None <==> kind == MediaKind::Heic,
        decoder_of(kind) == Some(StillDecoder::Image) <==> kind == MediaKind::Image || kind
            == MediaKind::Video,
{
}

} // verus!
