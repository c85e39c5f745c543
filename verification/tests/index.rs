use image::{DynamicImage, RgbImage};
use imageindex::chunks::{
    appends, chunk_file_name, chunk_number, chunk_stem, find_existing_chunks, room_for,
    start_chunk,
    ChunkCursor,
};
use imageindex::exif_read::{Coordinate, ExifData};
use imageindex::facets::{facet_entries, facets_csv, year_month, Facet};
use imageindex::media::MediaKind;
use imageindex::output::index_files;
use imageindex::process::{
    begin_job, camera_of, choose_describer, error_record, failed_record, flash_of, open_still_image,
    orientation_of, process_one, read_failure, record_of, resolution_of, screenshot_of,
    wants_place, worker_threads, Describer, Job, Means, NumberTexts, Outcome, StillDecoder, Task,
};
use imageindex::resume::{indexed_files, remaining_files, resumed};
use imageindex::rows::{csv_header, duplicate_texts, opening_text, row_fields, row_text};
use imageindex::video::VideoMeta;
use imageindex::vision::VisionResult;
use imageindex::walk::{excluded_names, visit, Entry, Visit, Walk};

fn strings(v: &[&str]) -> Vec<String> {
    v.iter().map(|s| s.to_string()).collect()
}

fn means() -> Means {
    Means { ffmpeg: true, ffprobe: true, geocode: true, faces: true, describer: Describer::Ollama }
}

fn texts() -> NumberTexts {
    NumberTexts {
        gps_lat: "48.135100".to_string(),
        gps_lon: "11.582000".to_string(),
        duration: String::new(),
        blur: "12.3".to_string(),
    }
}

fn located() -> ExifData {
    ExifData {
        gps_lat: Some(Coordinate::Decimal("1".to_string())),
        gps_lon: Some(Coordinate::Decimal("2".to_string())),
        ..ExifData::default()
    }
}

#[test]
fn excluded_directories() {
    assert_eq!(excluded_names(" _Index, ,_SELECTIONS,"), vec!["_index", "_selections"]);
    assert_eq!(excluded_names(""), Vec::<String>::new());
    let ex = strings(&["_index"]);
    assert_eq!(visit(Entry::Directory, Some("_INDEX"), &ex), Visit::Skip);
    assert_eq!(visit(Entry::Directory, Some("photos"), &ex), Visit::Enter);
    assert_eq!(visit(Entry::Directory, None, &ex), Visit::Enter);
    assert_eq!(visit(Entry::File, Some("_index"), &ex), Visit::Find);
    assert_eq!(visit(Entry::OtherLink, None, &ex), Visit::Find);
    assert_eq!(visit(Entry::LinkToDirectory, None, &ex), Visit::Skip);
    assert_eq!(visit(Entry::Other, None, &ex), Visit::Skip);
}

#[test]
fn walk_enters_and_finds() {
    let mut w = Walk::new("root".to_string(), strings(&["skip"]));
    assert_eq!(w.next_directory(), Some("root".to_string()));
    w.take_entry("a".to_string(), Entry::Directory, Some("a"));
    w.take_entry("f".to_string(), Entry::File, Some("f"));
    w.take_entry("b".to_string(), Entry::Directory, Some("b"));
    w.take_entry("s".to_string(), Entry::Directory, Some("Skip"));
    assert_eq!(w.next_directory(), Some("b".to_string()));
    w.take_entry("g".to_string(), Entry::OtherLink, Some("g"));
    assert_eq!(w.next_directory(), Some("a".to_string()));
    assert_eq!(w.next_directory(), None);
    assert_eq!(w.into_found(), vec!["f", "g"]);
}

#[test]
fn walk_stops_at_its_depth() {
    let mut w = Walk::new(0usize, Vec::new());
    let mut entered = 0;
    while let Some(depth) = w.next_directory() {
        entered += 1;
        w.take_entry(depth, Entry::File, None);
        w.take_entry(depth + 1, Entry::Directory, None);
    }
    assert_eq!(entered, 65);
    assert_eq!(w.into_found().last(), Some(&64));
}

#[test]
fn chunk_files_are_named_and_found() {
    assert_eq!(chunk_stem("_index/index.csv"), "index");
    assert_eq!(chunk_stem(".."), "index");
    assert_eq!(chunk_file_name("index", 1), "index_001.csv");
    assert_eq!(chunk_file_name("index", 12345), "index_12345.csv");
    assert_eq!(chunk_number("index_001.csv", "index"), Some(1));
    assert_eq!(chunk_number("index_0012.csv", "index"), Some(12));
    assert_eq!(chunk_number("index_1.csv", "index"), None);
    assert_eq!(chunk_number("index_12.csv", "index"), None);
    assert_eq!(chunk_number("index_+12.csv", "index"), None);
    assert_eq!(chunk_number("index_+123.csv", "index"), None);
    assert_eq!(chunk_number("index_.csv", "index"), None);
    assert_eq!(chunk_number("index_x.csv", "index"), None);
    assert_eq!(chunk_number("other_001.csv", "index"), None);
    assert_eq!(chunk_number("index_001.txt", "index"), None);
    assert_eq!(chunk_number("index_99999999999999999999.csv", "index"), None);
    let names = strings(&[
        "index.csv",
        "index_010.csv",
        "index_002.csv",
        "index_1000.csv",
        "index_5.csv",
        "index_notes.csv",
        "facets.csv",
        "index_0010.csv",
    ]);
    assert_eq!(
        find_existing_chunks(&names, "index"),
        vec![(2, 2), (10, 1), (10, 7), (1000, 3)]
    );
}

#[test]
fn rows_fill_chunks() {
    let mut c = start_chunk(3, false, 9, 2);
    assert_eq!(c, ChunkCursor { chunk_no: 1, rows_in_chunk: 0, continuing: false });
    let opened: Vec<bool> = (0..7).map(|_| c.take_row(3)).collect();
    assert_eq!(opened, vec![false, false, false, true, false, false, true]);
    assert_eq!((c.chunk_no, c.rows_in_chunk), (3, 1));
    let c = start_chunk(3, true, 4, 2);
    assert_eq!(c, ChunkCursor { chunk_no: 4, rows_in_chunk: 2, continuing: true });
    let c = start_chunk(3, true, 4, 3);
    assert_eq!(c, ChunkCursor { chunk_no: 5, rows_in_chunk: 0, continuing: false });
    let mut c = start_chunk(0, true, 4, 3);
    assert!((0..100).all(|_| !c.take_row(0)));
    assert_eq!((c.chunk_no, c.rows_in_chunk), (1, 100));
    let c = start_chunk(3, true, usize::MAX, 2);
    assert!(room_for(c, 3, 0) && room_for(c, 3, 1) && !room_for(c, 3, 2));
    assert!(room_for(start_chunk(2, true, usize::MAX - 2, 2), 2, 4));
    assert!(!room_for(start_chunk(2, true, usize::MAX - 2, 2), 2, 5));
    assert!(room_for(start_chunk(0, false, usize::MAX, 9), 0, 1000));
    assert!(appends(true, 5, true, false) && !appends(true, 5, false, true));
    assert!(appends(true, 0, false, true) && !appends(false, 0, true, true));
}

#[test]
fn months_of_dates() {
    assert_eq!(year_month("2026:08:30 14:02:11"), Some("2026-08".to_string()));
    assert_eq!(year_month("2026-08"), Some("2026-08".to_string()));
    for dt in ["", "2026-0", "2026/08/30", "20a6-08-30", "2026-x8-30", "\u{662}026-08"] {
        assert_eq!(year_month(dt), None);
    }
}

#[test]
fn facets_count_values() {
    let row = |kind: &str, date: &str, place: &str| strings(&["f", kind, date, "", "", place, " ", "1x1"]);
    let rows = vec![
        row("image", "2026:08:30 1", "Rome"),
        row("image", "none", "Bonn"),
        row("video", "2026-08-01", " Rome "),
        strings(&["g", "raw"]),
        row("image", "2025:01:01", "Acre"),
    ];
    let list = |f: Facet| facet_entries(f, &rows);
    let entry = |s: &str, n: usize| (s.to_string(), n);
    assert_eq!(list(Facet::MediaType), vec![entry("image", 3), entry("raw", 1), entry("video", 1)]);
    assert_eq!(list(Facet::DateMonth), vec![entry("2026-08", 2), entry("2025-01", 1)]);
    assert_eq!(list(Facet::Place), vec![entry("Rome", 2), entry("Acre", 1), entry("Bonn", 1)]);
    assert_eq!(list(Facet::Camera), Vec::new());
    assert_eq!(list(Facet::Resolution), vec![entry("1x1", 4)]);
    assert_eq!(list(Facet::Place).iter().map(|e| e.1).sum::<usize>(), 4);
}

#[test]
fn facet_file_of_two_chunks() {
    let header = "file,media_type,date_taken,gps_lat,gps_lon,place,camera,resolution\n";
    let one = format!("{header}a,image,2026:08:30 1,,,\"Rome, Italy\",Ac,2x1\n");
    let two = format!("{header}b,image,,,,,Ac,1x2\nshort,row\n");
    let text = facets_csv(&vec![one.into_bytes(), two.into_bytes(), b"".to_vec()]);
    assert_eq!(
        String::from_utf8(text).unwrap(),
        "dimension,value,count\ncamera,Ac,2\ndate_month,2026-08,1\nmedia_type,image,2\n\
         place,\"Rome, Italy\",1\nresolution,1x2,1\nresolution,2x1,1\n"
    );
    assert_eq!(facets_csv(&Vec::new()), b"dimension,value,count\n".to_vec());
}

#[test]
fn written_rows_are_read_back() {
    let mut file = opening_text(false);
    assert!(file.starts_with(b"file,media_type,date_taken,"));
    let names = ["a.jpg", "dir/b, \"c\".png", "line\nbreak.jpg", ""];
    for n in names {
        let r = error_record(n.to_string(), MediaKind::Image, "[read error: x]".to_string());
        file.extend(row_text(&r, ""));
    }
    let (files, rows) = indexed_files(&file);
    assert_eq!(files, names);
    assert_eq!(rows, 4);
    assert_eq!(opening_text(true), Vec::<u8>::new());
    let r = error_record("a, \"b\".jpg".to_string(), MediaKind::Raw, "x\r\u{e4}".to_string());
    let expected = format!("\"a, \"\"b\"\".jpg\",raw{}\"x\r\u{e4}\"\n", ",".repeat(19));
    assert_eq!(row_text(&r, ""), expected.into_bytes());
    assert_eq!(indexed_files(b""), (Vec::new(), 0));
}

#[test]
fn resumed_runs_index_the_rest() {
    let files = strings(&["a", "b", "c", "b"]);
    assert_eq!(remaining_files(&files, &strings(&["b", "x"])), vec![0, 2]);
    assert_eq!(remaining_files(&files, &Vec::new()), vec![0, 1, 2, 3]);
    assert_eq!(remaining_files(&Vec::new(), &files), Vec::<usize>::new());
}

#[test]
fn earlier_runs_are_read_back() {
    let one = Some(b"file\na\nb\n".to_vec());
    let two = Some(b"file\nc\n".to_vec());
    let names = |v: &[&str]| strings(v);
    assert_eq!(
        resumed(&vec![one.clone(), two.clone()], true),
        (names(&["a", "b", "c"]), 1, false)
    );
    assert_eq!(resumed(&vec![one.clone()], false), (names(&["a", "b"]), 0, false));
    assert_eq!(
        resumed(&vec![two.clone(), None, one.clone()], true),
        (names(&["c", "a", "b"]), 2, true)
    );
    assert_eq!(resumed(&vec![one, None], true), (names(&["a", "b"]), 0, true));
    assert_eq!(resumed(&Vec::new(), true), (Vec::new(), 0, false));
}

#[test]
fn duplicates_show_their_group() {
    let hashes = vec![7, u64::MAX, 6, 1 << 40];
    assert_eq!(duplicate_texts(&hashes, false, 1), vec!["1", "", "1", ""]);
    assert_eq!(duplicate_texts(&hashes, true, 1), vec!["", "", "", ""]);
    assert_eq!(duplicate_texts(&Vec::new(), false, 6), Vec::<String>::new());
}

#[test]
fn rows_have_all_columns() {
    let titles = csv_header();
    assert_eq!(titles.len(), 21);
    assert_eq!((titles[0].as_str(), titles[13].as_str()), ("file", "duplicate_group"));
    assert_eq!(titles[20], "description");
    let r = error_record("v.mp4".to_string(), MediaKind::Video, "why".to_string());
    let f = row_fields(&r, "3");
    assert_eq!(f.len(), 21);
    assert_eq!((f[0].as_str(), f[1].as_str(), f[20].as_str()), ("v.mp4", "video", "why"));
    assert!(f[2..20].iter().all(|s| s.is_empty()));
}

#[test]
fn row_of_a_photo() {
    let mut job = begin_job("dir/a.jpg".to_string(), MediaKind::Image, means());
    assert_eq!(job.task(), Task::OpenStill);
    job.take_outcome(Outcome::Decoded(None));
    assert_eq!(job.task(), Task::ReadFields);
    let data = ExifData {
        datetime: "2026-08-30 14:02:11".to_string(),
        camera_make: "Acme".to_string(),
        camera_model: "One".to_string(),
        flash_fired: Some(false),
        ..located()
    };
    job.take_outcome(Outcome::FieldsRead(data));
    assert_eq!(job.task(), Task::AskPlace);
    job.take_outcome(Outcome::Placed(Some("Rome, Italy".to_string())));
    assert_eq!(job.task(), Task::FindFaces);
    job.take_outcome(Outcome::FacesFound(Some((strings(&["Ann", "Bob"]), 1))));
    assert_eq!(job.task(), Task::Describe);
    job.take_outcome(Outcome::Described(VisionResult {
        description: "d".to_string(),
        tags: "t".to_string(),
        ocr_text: "o".to_string(),
    }));
    assert_eq!(job.task(), Task::WriteRow);
    let r = record_of(job, texts(), 4000, 3000, 0xab);
    assert_eq!(
        row_fields(&r, "2"),
        vec![
            "dir/a.jpg",
            "image",
            "2026-08-30 14:02:11",
            "48.135100",
            "11.582000",
            "Rome, Italy",
            "Acme One",
            "4000x3000",
            "",
            "landscape",
            "no",
            "12.3",
            "00000000000000ab",
            "2",
            "",
            "Ann, Bob",
            "1",
            "3",
            "t",
            "o",
            "d"
        ]
    );
}

#[test]
fn row_of_a_video() {
    let mut job = begin_job("a.mp4".to_string(), MediaKind::Video, means());
    assert_eq!(job.task(), Task::Probe);
    job.take_outcome(Outcome::Probed(VideoMeta {
        creation_time: Some("2024".to_string()),
        duration_secs: Some("8.5".to_string()),
        gps: None,
        width: None,
        height: None,
    }));
    assert_eq!(job.task(), Task::TakeFrame);
    assert_eq!(job.duration().as_deref(), Some("8.5"));
    job.take_outcome(Outcome::Decoded(None));
    assert_eq!(job.task(), Task::FindFaces);
    job.take_outcome(Outcome::FacesFound(None));
    job.take_outcome(Outcome::Described(VisionResult::default()));
    let img = DynamicImage::ImageRgb8(RgbImage::new(2, 3));
    let texts = NumberTexts { duration: "8.5".to_string(), ..texts() };
    let r = process_one(job, texts, &img);
    assert_eq!(r.datetime, "2024");
    assert_eq!(r.duration, "8.5");
    assert_eq!((r.gps_lat.as_str(), r.gps_lon.as_str(), r.place.as_str()), ("", "", ""));
    assert_eq!(r.resolution, "2x3");
    assert_eq!(r.orientation, "portrait");
    assert_eq!(r.is_screenshot, "");
    assert_eq!(r.phash, u64::MAX);
    assert_eq!(r.face_count, 0);
}

#[test]
fn jobs_ask_only_for_what_is_there() {
    let few = Means {
        geocode: false,
        faces: false,
        describer: Describer::Nobody,
        ..means()
    };
    let run = |m: Means, data: ExifData| -> Job {
        let mut job = begin_job("a.png".to_string(), MediaKind::Image, m);
        job.take_outcome(Outcome::Decoded(None));
        job.take_outcome(Outcome::FieldsRead(data));
        job
    };
    assert_eq!(run(few, located()).task(), Task::WriteRow);
    assert_eq!(run(Means { describer: Describer::OpenAiCompatible, ..few }, located()).task(), Task::Describe);
    assert_eq!(run(Means { faces: true, ..few }, located()).task(), Task::FindFaces);
    assert_eq!(run(Means { geocode: true, ..few }, located()).task(), Task::AskPlace);
    assert_eq!(run(Means { geocode: true, ..few }, ExifData::default()).task(), Task::WriteRow);
    let heic = begin_job("a.heic".to_string(), MediaKind::Heic, Means { ffprobe: false, ..few });
    assert_eq!(heic.task(), Task::TakeFrame);
}

#[test]
fn rows_show_only_what_was_found() {
    let bare = Means { geocode: false, faces: false, describer: Describer::Nobody, ..means() };
    let mut job = begin_job("a.png".to_string(), MediaKind::Image, bare);
    job.take_outcome(Outcome::Decoded(None));
    job.take_outcome(Outcome::FieldsRead(ExifData::default()));
    assert_eq!(job.task(), Task::WriteRow);
    assert!(job.error().is_none() && job.data().gps_lat.is_none());
    let texts = NumberTexts { duration: "1.0".to_string(), ..texts() };
    let r = record_of(job, texts, 1, 2, 3);
    assert_eq!((r.gps_lat.as_str(), r.gps_lon.as_str(), r.place.as_str()), ("", "", ""));
    assert_eq!((r.duration.as_str(), r.face_count, r.is_screenshot), ("", 0, "yes"));
    assert_eq!(r.vres.description, "");
    assert_eq!(r.blur, "12.3");
}

#[test]
fn files_without_an_image() {
    let none = Means { ffmpeg: false, ..means() };
    let job = begin_job("a.mp4".to_string(), MediaKind::Video, Means { ffprobe: false, ..means() });
    assert_eq!(job.task(), Task::WriteRow);
    assert_eq!(
        job.error().as_deref().unwrap(),
        "[skipped: ffmpeg/ffprobe not found -- video support needs both on PATH or bundled next to this binary, see README \"Supported formats\"]"
    );
    let r = failed_record(job);
    assert_eq!(r.rel_path, "a.mp4");
    assert_eq!(r.media_type, MediaKind::Video);
    let blank = [&r.datetime, &r.gps_lat, &r.gps_lon, &r.place, &r.camera, &r.resolution];
    assert!(blank.iter().all(|s| s.is_empty()));
    assert!(r.duration.is_empty() && r.orientation.is_empty() && r.flash.is_empty());
    assert!(r.blur.is_empty() && r.is_screenshot.is_empty() && r.matched_names.is_empty());
    assert_eq!((r.phash, r.unmatched, r.face_count), (0, 0, 0));
    assert!(r.vres.description.is_empty() && r.vres.tags.is_empty() && r.vres.ocr_text.is_empty());
    assert!(r.error.unwrap().starts_with("[skipped: ffmpeg/ffprobe not found"));
    let job = begin_job("a.heif".to_string(), MediaKind::Heic, none);
    assert_eq!(
        job.error().as_deref().unwrap(),
        "[skipped: ffmpeg not found -- HEIC support needs the bundled ffmpeg (see README \"Supported formats\")]"
    );
    let mut job = begin_job("a.cr2".to_string(), MediaKind::Raw, none);
    job.take_outcome(Outcome::Decoded(Some("bad".to_string())));
    assert_eq!(job.task(), Task::WriteRow);
    assert_eq!(job.error().as_deref().unwrap(), "[read error: bad]");
    assert_eq!(read_failure(MediaKind::Video, "x"), "[video read error: x]");
    assert_eq!(read_failure(MediaKind::Heic, "x"), "[HEIC read error: x]");
    assert_eq!(open_still_image(MediaKind::Raw), Ok(StillDecoder::Raw));
    assert_eq!(open_still_image(MediaKind::Image), Ok(StillDecoder::Image));
    assert_eq!(
        open_still_image(MediaKind::Heic),
        Err("HEIC: decoded via the bundled ffmpeg (not the image crate)".to_string())
    );
}

#[test]
fn texts_of_a_row() {
    assert_eq!(resolution_of(0, u32::MAX), "0x4294967295");
    assert_eq!(orientation_of(5, 5), "square");
    assert_eq!(camera_of("", "One "), "One");
    assert_eq!(camera_of("", ""), "");
    assert_eq!((flash_of(Some(true)), flash_of(Some(false)), flash_of(None)), ("yes", "no", ""));
    assert_eq!(screenshot_of(MediaKind::Image, &ExifData::default()), "yes");
    assert_eq!(screenshot_of(MediaKind::Video, &ExifData::default()), "");
    assert!(wants_place(&located(), true) && !wants_place(&located(), false));
    assert!(!wants_place(&ExifData { gps_lon: None, ..located() }, true));
}

#[test]
fn choices_of_a_run() {
    assert_eq!(choose_describer(true, true, true), Describer::Nobody);
    assert_eq!(choose_describer(false, true, true), Describer::Ollama);
    assert_eq!(choose_describer(false, false, true), Describer::OpenAiCompatible);
    assert_eq!(choose_describer(false, false, false), Describer::Nobody);
    assert_eq!(worker_threads(9, Some(2)), 9);
    assert_eq!(worker_threads(0, Some(2)), 2);
    assert_eq!(worker_threads(0, Some(64)), 4);
    assert_eq!(worker_threads(0, None), 4);
}

#[test]
fn files_of_an_index() {
    let records: Vec<_> = ["a", "b", "c", "d", "e"]
        .iter()
        .map(|n| error_record(n.to_string(), MediaKind::Image, "x".to_string()))
        .collect();
    let groups = strings(&["", "", "", "", ""]);
    let files = index_files(&records, &groups, start_chunk(2, true, 4, 1), true, 2);
    let numbers: Vec<usize> = files.iter().map(|f| f.chunk_no).collect();
    assert_eq!(numbers, vec![4, 5, 6]);
    let appended: Vec<bool> = files.iter().map(|f| f.append).collect();
    assert_eq!(appended, vec![true, false, false]);
    assert_eq!(files[0].content, row_text(&records[0], ""));
    assert_eq!(indexed_files(&files[1].content), (strings(&["b", "c"]), 2));
    assert_eq!(indexed_files(&files[2].content), (strings(&["d", "e"]), 2));

    let files = index_files(&records, &groups, start_chunk(0, false, 0, 0), false, 0);
    assert_eq!(files.len(), 1);
    assert_eq!(indexed_files(&files[0].content), (strings(&["a", "b", "c", "d", "e"]), 5));
    let more = index_files(&records, &groups, start_chunk(0, true, 0, 0), true, 0);
    assert!(more[0].append);
    let mut all = files[0].content.clone();
    all.extend(&more[0].content);
    assert_eq!(indexed_files(&all).1, 10);

    let none = index_files(&Vec::new(), &Vec::new(), start_chunk(2, false, 0, 0), false, 2);
    assert_eq!(none.len(), 1);
    assert_eq!(none[0].content, opening_text(false));
}
