use imageindex::face::{is_image, is_reference_photo};
use imageindex::media::{
    ext_lower, find_tool, is_heic, is_raw, is_supported, is_video, kind, raw_failure, raw_image,
    tool_file_name, MediaKind, Tool,
};
use imageindex::path::{extension_of, stem_of};

#[test]
fn kind_detects_extensions() {
    assert_eq!(kind("a.CR2"), MediaKind::Raw);
    assert_eq!(kind("a.heic"), MediaKind::Heic);
    assert_eq!(kind("a.mp4"), MediaKind::Video);
    assert_eq!(kind("a.jpg"), MediaKind::Image);
}

#[test]
fn extensions_are_told_apart() {
    assert_eq!(ext_lower("/photos/Trip.2024/IMG.JpEg"), "jpeg");
    assert_eq!(ext_lower("/photos/.hidden"), "");
    assert_eq!(ext_lower("noextension"), "");
    assert_eq!(ext_lower("dot."), "");
    for e in ["cr2", "cr3", "nef", "arw", "dng", "orf", "rw2", "raf", "pef", "srw"] {
        assert!(is_raw(&format!("x.{e}")));
    }
    for e in ["heic", "HEIF"] {
        assert!(is_heic(&format!("x.{e}")));
    }
    for e in ["mp4", "mov", "avi", "m4v", "MKV"] {
        assert!(is_video(&format!("x.{e}")));
    }
    for e in ["jpg", "jpeg", "png", "bmp", "tif", "TIFF"] {
        assert!(is_image(&format!("x.{e}")));
        assert!(is_supported(&format!("x.{e}")));
        assert_eq!(kind(&format!("x.{e}")), MediaKind::Image);
    }
    assert!(!is_supported("notes.txt"));
    assert_eq!(kind("notes.txt"), MediaKind::Image);
    assert!(is_supported("x.srw") && is_supported("x.heif") && is_supported("x.avi"));
}

#[test]
fn reference_photos_are_fewer_kinds() {
    assert!(is_reference_photo("ann/1.JPG"));
    assert!(is_reference_photo("ann/1.bmp"));
    assert!(!is_reference_photo("ann/1.tif"));
    assert!(!is_reference_photo("ann/jpg"));
}

#[test]
fn labels_of_kinds() {
    assert_eq!(MediaKind::Image.label(), "image");
    assert_eq!(MediaKind::Raw.label(), "raw");
    assert_eq!(MediaKind::Heic.label(), "heic");
    assert_eq!(MediaKind::Video.label(), "video");
}

#[test]
fn file_names_of_tools() {
    assert_eq!(tool_file_name("ffmpeg", true), "ffmpeg.exe");
    assert_eq!(tool_file_name("ffmpeg", false), "ffmpeg");
}

#[test]
fn bundled_tools_come_first() {
    assert_eq!(find_tool(true, true), Some(Tool::Bundled));
    assert_eq!(find_tool(true, false), Some(Tool::Bundled));
    assert_eq!(find_tool(false, true), Some(Tool::OnPath));
    assert_eq!(find_tool(false, false), None);
}

#[test]
fn raw_image_needs_all_its_pixels() {
    let img = raw_image(2, 1, vec![1, 2, 3, 4, 5, 6]).unwrap();
    assert_eq!(img.to_rgb8().get_pixel(1, 0).0, [4, 5, 6]);
    assert_eq!(
        raw_image(2, 1, vec![1, 2, 3, 4, 5]).unwrap_err(),
        "RAW decode: pixel buffer/size mismatch"
    );
    assert_eq!(raw_failure("bad file"), "RAW decode failed: bad file");
}

#[test]
fn stems_and_extensions_of_paths() {
    assert_eq!(extension_of("a/b.tar.gz"), Some("gz".to_string()));
    assert_eq!(extension_of("a.b/c"), None);
    assert_eq!(extension_of("a/.."), None);
    assert_eq!(stem_of("a/b.tar.gz"), Some("b.tar".to_string()));
    assert_eq!(stem_of("a/b.csv/"), Some("b".to_string()));
    assert_eq!(stem_of("a/.rc"), Some(".rc".to_string()));
    assert_eq!(stem_of("/"), None);
    assert_eq!(stem_of("x/./"), Some("x".to_string()));
    assert_eq!(extension_of("a\\b.c"), Some("c".to_string()));
    assert_eq!(extension_of(".cr2"), None);
}
