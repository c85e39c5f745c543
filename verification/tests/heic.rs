use imageindex::heic::{
    err_text, libheif_library_names, open_heic, pack_rows, HeicAction, HeicDecode, HeicEvent,
};

fn called(code: i32, object: bool) -> HeicEvent {
    HeicEvent::Called { code, message: None, object }
}

fn ready() -> HeicDecode {
    let mut d = open_heic(true, Some("a.heic"));
    for e in [HeicEvent::Found(None), HeicEvent::Allocated(true), HeicEvent::Found(None)] {
        d.step(e);
    }
    d.step(HeicEvent::Found(None));
    assert_eq!(d.action(), HeicAction::ReadFile);
    d
}

fn finish(mut d: HeicDecode) -> String {
    assert_eq!(d.action(), HeicAction::FreeContext);
    d.step(HeicEvent::Released);
    assert_eq!(d.action(), HeicAction::Finish);
    assert!(d.holds_nothing());
    d.result().unwrap_err()
}

#[test]
fn libraries_by_system() {
    assert_eq!(
        libheif_library_names("illumos"),
        vec!["/opt/ooce/lib/amd64/libheif.so.1", "libheif.so.1", "libheif.so"]
    );
    assert_eq!(libheif_library_names("macos"), vec!["libheif.dylib"]);
    assert_eq!(libheif_library_names("windows"), vec!["libheif.dll", "libheif-1.dll"]);
    assert_eq!(libheif_library_names("linux"), vec!["libheif.so.1", "libheif.so"]);
}

#[test]
fn errors_have_a_text() {
    assert_eq!(err_text(7, &Some("bad box".to_string())), "bad box");
    assert_eq!(err_text(7, &None), "libheif error code 7");
    assert_eq!(err_text(-12, &None), "libheif error code -12");
    assert_eq!(err_text(i32::MIN, &None), "libheif error code -2147483648");
}

#[test]
fn rows_are_packed() {
    assert_eq!(pack_rows(&vec![1, 2, 3, 9, 4, 5, 6], 4, 3, 2), vec![1, 2, 3, 4, 5, 6]);
    assert_eq!(pack_rows(&vec![1, 2, 3], 1, 2, 2), vec![1, 2, 2, 3]);
}

#[test]
fn early_failures() {
    assert_eq!(
        open_heic(false, None).result().unwrap_err(),
        "HEIC: system libheif not available at runtime (dlopen failed); install libheif to enable HEIC/HEIF"
    );
    assert_eq!(open_heic(true, None).result().unwrap_err(), "HEIC: non-UTF-8 path");
    assert_eq!(
        open_heic(true, Some("a\0b")).result().unwrap_err(),
        "HEIC: path contains NUL byte"
    );
}

#[test]
fn failures_before_there_is_a_context() {
    let mut d = open_heic(true, Some("a"));
    d.step(HeicEvent::Found(Some("no alloc".to_string())));
    assert_eq!(d.result().unwrap_err(), "no alloc");
    let mut d = open_heic(true, Some("a"));
    d.step(HeicEvent::Found(None));
    d.step(HeicEvent::Allocated(false));
    assert_eq!(d.result().unwrap_err(), "HEIC: heif_context_alloc failed");
    let mut d = open_heic(true, Some("a"));
    d.step(HeicEvent::Found(None));
    d.step(HeicEvent::Allocated(true));
    d.step(HeicEvent::Found(Some("no free".to_string())));
    assert_eq!(d.action(), HeicAction::Finish);
    assert_eq!(d.result().unwrap_err(), "no free");
}

#[test]
fn failures_of_the_library() {
    let mut d = open_heic(true, Some("a"));
    d.step(HeicEvent::Found(None));
    d.step(HeicEvent::Allocated(true));
    d.step(HeicEvent::Found(None));
    d.step(HeicEvent::Found(Some("no decoder".to_string())));
    assert_eq!(finish(d), "HEIC: no decoder");
    let mut d = ready();
    d.step(HeicEvent::Called { code: 3, message: Some("m".to_string()), object: true });
    assert_eq!(finish(d), "HEIC open: m");
    let mut d = ready();
    d.step(called(0, true));
    d.step(called(0, false));
    assert_eq!(finish(d), "HEIC handle: libheif error code 0");
    let mut d = ready();
    d.step(called(0, true));
    d.step(called(0, true));
    d.step(called(5, false));
    assert_eq!(d.action(), HeicAction::ReleaseHandle);
    d.step(HeicEvent::Released);
    assert_eq!(finish(d), "HEIC decode: libheif error code 5");
    let mut d = ready();
    for _ in 0..3 {
        d.step(called(0, true));
    }
    d.step(HeicEvent::Released);
    assert_eq!(d.action(), HeicAction::ReadPlane);
    d.step(HeicEvent::Plane { present: true, width: 2, height: 0, stride: 6 });
    assert_eq!(d.action(), HeicAction::ReleaseImage);
    d.step(HeicEvent::Released);
    assert_eq!(finish(d), "HEIC: no interleaved RGB plane");
}

#[test]
fn decoded_file_gives_its_image() {
    let mut d = ready();
    for _ in 0..3 {
        d.step(called(0, true));
    }
    d.step(HeicEvent::Released);
    d.step(HeicEvent::Plane { present: true, width: 1, height: 2, stride: 5 });
    assert_eq!(d.action(), HeicAction::CopyPlane);
    assert!(!d.holds_nothing());
    assert_eq!(d.plane_len(), Some(8));
    d.step(HeicEvent::Copied(vec![1, 2, 3, 0, 0, 4, 5, 6]));
    d.step(HeicEvent::Released);
    d.step(HeicEvent::Released);
    assert_eq!(d.action(), HeicAction::Finish);
    let img = d.result().unwrap().to_rgb8();
    assert_eq!((img.width(), img.height()), (1, 2));
    assert_eq!(img.into_raw(), vec![1, 2, 3, 4, 5, 6]);
}
