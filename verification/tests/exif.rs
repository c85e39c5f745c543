use imageindex::exif_read::{
    clean, first_text, flash_of, is_screenshot_heuristic, position_of, read_all,
    read_exif_orientation, Coordinate, ExifData,
};

fn entry(out: &mut Vec<u8>, tag: u16, kind: u16, count: u32, value: [u8; 4]) {
    out.extend_from_slice(&tag.to_le_bytes());
    out.extend_from_slice(&kind.to_le_bytes());
    out.extend_from_slice(&count.to_le_bytes());
    out.extend_from_slice(&value);
}

/// A TIFF file with make, orientation, date, flash and position.
fn tiff() -> Vec<u8> {
    let mut t = b"II*\0\x08\0\0\0".to_vec();
    // Image: make, orientation, two directories, at 8; ends at 62.
    t.extend_from_slice(&4u16.to_le_bytes());
    entry(&mut t, 0x010f, 2, 4, *b"Ac \0");
    entry(&mut t, 0x0112, 3, 1, [6, 0, 0, 0]);
    entry(&mut t, 0x8769, 4, 1, 62u32.to_le_bytes());
    entry(&mut t, 0x8825, 4, 1, 92u32.to_le_bytes());
    t.extend_from_slice(&0u32.to_le_bytes());
    // Exif: date, flash, at 62; ends at 92.
    t.extend_from_slice(&2u16.to_le_bytes());
    entry(&mut t, 0x9003, 2, 20, 146u32.to_le_bytes());
    entry(&mut t, 0x9209, 3, 1, [9, 0, 0, 0]);
    t.extend_from_slice(&0u32.to_le_bytes());
    // Position, at 92; ends at 146.
    t.extend_from_slice(&4u16.to_le_bytes());
    entry(&mut t, 1, 2, 2, *b"S\0\0\0");
    entry(&mut t, 2, 5, 3, 166u32.to_le_bytes());
    entry(&mut t, 3, 2, 2, *b"E\0\0\0");
    entry(&mut t, 4, 5, 3, 190u32.to_le_bytes());
    t.extend_from_slice(&0u32.to_le_bytes());
    t.extend_from_slice(b"2026:08:30 14:02:11\0");
    for n in [33u32, 1, 51, 1, 3050, 100, 151, 1, 12, 1, 7, 2] {
        t.extend_from_slice(&n.to_le_bytes());
    }
    t
}

#[test]
fn fields_of_a_photo() {
    let d = read_all(&tiff());
    assert_eq!(d.datetime, "2026-08-30 14:02:11");
    assert_eq!(d.camera_make, "Ac");
    assert_eq!(d.camera_model, "");
    assert_eq!(d.flash_fired, Some(true));
    match d.gps_lat {
        Some(Coordinate::Angle(a)) => {
            assert_eq!((a.degrees, a.minutes, a.seconds), ((33, 1), (51, 1), (3050, 100)));
            assert!(a.negative);
        }
        _ => panic!("no latitude"),
    }
    match d.gps_lon {
        Some(Coordinate::Angle(a)) => {
            assert_eq!((a.degrees, a.minutes, a.seconds), ((151, 1), (12, 1), (7, 2)));
            assert!(!a.negative);
        }
        _ => panic!("no longitude"),
    }
    assert_eq!(read_exif_orientation(&tiff()), 6);
}

#[test]
fn photo_without_fields() {
    for content in [&b""[..], &b"not an image"[..], &b"\xff\xd8\xff\xd9"[..]] {
        let d = read_all(content);
        assert_eq!(d.datetime, "");
        assert!(d.gps_lat.is_none() && d.gps_lon.is_none() && d.flash_fired.is_none());
        assert!(is_screenshot_heuristic(&d));
        assert_eq!(read_exif_orientation(content), 1);
    }
}

#[test]
fn texts_are_cleaned() {
    assert_eq!(clean("\" Canon \""), "Canon");
    assert_eq!(clean("\"\"EOS \"R\"\""), "EOS \"R");
    assert_eq!(clean(" \"x\" "), "\"x\"");
    assert_eq!(clean("\""), "");
}

#[test]
fn dates_in_order() {
    let some = |s: &str| Some(s.to_string());
    assert_eq!(first_text(some("a"), some("b"), some("c")), "a");
    assert_eq!(first_text(None, some("b"), some("c")), "b");
    assert_eq!(first_text(None, None, some("c")), "c");
    assert_eq!(first_text(None, None, None), "");
}

#[test]
fn positions_need_three_parts() {
    let parts = vec![(1, 1), (2, 1), (3, 1)];
    assert!(position_of(None, Some("N".to_string()), 'S').is_none());
    assert!(position_of(Some(vec![(1, 1)]), None, 'S').is_none());
    let negative = |r: Option<String>, mark: char| match position_of(Some(parts.clone()), r, mark) {
        Some(Coordinate::Angle(a)) => a.negative,
        _ => panic!("no position"),
    };
    assert!(negative(Some("South".to_string()), 'S'));
    assert!(negative(Some("W".to_string()), 'W'));
    assert!(!negative(Some("N".to_string()), 'S'));
    assert!(!negative(Some("".to_string()), 'S'));
    assert!(!negative(None, 'S'));
}

#[test]
fn flash_is_the_lowest_bit() {
    assert_eq!(flash_of(Some(0x19)), Some(true));
    assert_eq!(flash_of(Some(0x18)), Some(false));
    assert_eq!(flash_of(None), None);
}

#[test]
fn cameras_are_no_screenshots() {
    let mut d = ExifData::default();
    assert!(is_screenshot_heuristic(&d));
    d.camera_model = "X".to_string();
    assert!(!is_screenshot_heuristic(&d));
}
