use imageindex::video::{
    frame_error, frame_file_name, parse_iso6709, probe_video, seek, video_meta, writes_decimal,
    FrameRun,
};

fn degrees(s: &str) -> Option<(f64, f64)> {
    parse_iso6709(s).map(|(lat, lon)| (lat.parse().unwrap(), lon.parse().unwrap()))
}

#[test]
fn parses_iso6709_basic() {
    assert_eq!(degrees("+48.1351+011.5820/"), Some((48.1351, 11.5820)));
}

#[test]
fn parses_iso6709_negative_lon() {
    assert_eq!(degrees("+40.7128-074.0060/"), Some((40.7128, -74.0060)));
}

#[test]
fn parses_iso6709_with_altitude_suffix() {
    let (lat, lon) = degrees("+48.1351+011.5820+123.4/").unwrap();
    assert!((lat - 48.1351).abs() < 1e-6);
    assert!((lon - 11.5820).abs() < 1e-6);
}

#[test]
fn locations_that_are_none() {
    assert_eq!(parse_iso6709(""), None);
    assert_eq!(parse_iso6709("/"), None);
    assert_eq!(parse_iso6709("+48.1"), None);
    assert_eq!(parse_iso6709("north+11"), None);
    assert_eq!(parse_iso6709("+48.1+"), None);
    assert_eq!(parse_iso6709("+48.1+\u{e4}"), None);
    assert_eq!(parse_iso6709("+48.1+11\u{e4}"), Some(("+48.1".into(), "+11".into())));
    assert_eq!(parse_iso6709("48-0///"), Some(("48".into(), "-0".into())));
}

#[test]
fn decimals_are_those_that_rust_reads() {
    for s in [
        "1", "+1.5", "-.5", "5.", "1e5", "1.5E-3", "inf", "-Infinity", "NaN", "+011.5820",
        "0.0e+07",
    ] {
        assert!(writes_decimal(s) && s.parse::<f64>().is_ok(), "{}", s);
    }
    for s in [
        "", "+", ".", "e5", "1e", "1e+", "1.2.3", "1 ", " 1", "0x10", "infi", "--1", "1f", "+-1",
        "1e5.0", "\u{663}",
    ] {
        assert!(!writes_decimal(s) && s.parse::<f64>().is_err(), "{}", s);
    }
}

#[test]
fn report_of_a_phone_video() {
    let report = br#"{"streams":[
        {"codec_type":"audio","width":1,"tags":{"creation_time":"audio time"}},
        {"codec_type":"video","width":1920,"height":1080},
        {"codec_type":"video","width":7,"height":7}],
      "format":{"duration":"12.5","tags":{"location":"+1+2/",
        "com.apple.quicktime.location.ISO6709":"+48.1351+011.5820+500/"}}}"#;
    let m = probe_video(report);
    assert_eq!(m.creation_time.as_deref(), Some("audio time"));
    assert_eq!(m.duration_secs.as_deref(), Some("12.5"));
    assert_eq!(m.gps, Some(("+48.1351".to_string(), "+011.5820".to_string())));
    assert_eq!((m.width, m.height), (Some(1920), Some(1080)));
}

#[test]
fn report_of_a_plain_video() {
    let report = r#"{"streams":[{"codec_type":"video","width":4294967297,"height":"1080"}],
      "format":{"duration":"N/A","tags":{"creation_time":"2024-05-01","location":"+1+2/"}}}"#;
    let m = video_meta(&serde_json::from_str(report).unwrap());
    assert_eq!(m.creation_time.as_deref(), Some("2024-05-01"));
    assert_eq!(m.duration_secs, None);
    assert_eq!(m.gps, Some(("+1".to_string(), "+2".to_string())));
    assert_eq!((m.width, m.height), (Some(1), None));
}

#[test]
fn report_that_tells_nothing() {
    for report in ["", "not json", "[]", "{}", r#"{"streams":3,"format":{"duration":12.5}}"#] {
        let m = probe_video(report.as_bytes());
        assert_eq!(m.creation_time, None);
        assert_eq!(m.duration_secs, None);
        assert_eq!(m.gps, None);
        assert_eq!((m.width, m.height), (None, None));
    }
}

#[test]
fn frames_of_long_videos_come_later() {
    for d in [4.0001, 60.0, f64::INFINITY] {
        assert_eq!(seek(Some(d.to_bits())), "2");
    }
    for d in [4.0, 3.9, 0.0, -0.0, -5.0, -60.0, f64::NAN, -f64::NAN, f64::NEG_INFINITY] {
        assert_eq!(seek(Some(d.to_bits())), "0");
    }
    assert_eq!(seek(None), "0");
}

#[test]
fn frames_that_fail() {
    assert_eq!(frame_file_name(42, 7), "cs-imageindex-frame-42-7.jpg");
    assert_eq!(frame_error(&FrameRun::Finished), None);
    assert_eq!(
        frame_error(&FrameRun::Failed("no stream".to_string())).unwrap(),
        "ffmpeg frame extraction failed: no stream"
    );
    assert_eq!(
        frame_error(&FrameRun::NotRunnable("gone".to_string())).unwrap(),
        "ffmpeg not runnable: gone"
    );
}
