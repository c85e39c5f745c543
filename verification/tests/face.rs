use image::{DynamicImage, Rgb, RgbImage};
use imageindex::face::{
    best_detection, bgr_planes, candidate_cells, identify, identify_faces, letterbox, nms,
    reference_warning, MATCH_THRESHOLD, NMS_THRESHOLD, SCORE_THRESHOLD,
};

fn bits(v: &[f32]) -> Vec<u32> {
    v.iter().map(|x| x.to_bits()).collect()
}

fn matrix(v: &[&[f32]]) -> Vec<Vec<u32>> {
    v.iter().map(|r| bits(r)).collect()
}

#[test]
fn thresholds_are_these_numbers() {
    assert_eq!(f32::from_bits(SCORE_THRESHOLD), 0.9);
    assert_eq!(f32::from_bits(NMS_THRESHOLD), 0.3);
    assert_eq!(f32::from_bits(MATCH_THRESHOLD), 0.363);
}

#[test]
fn planes_are_blue_green_red() {
    assert_eq!(bgr_planes(&[1, 2, 3, 4, 5, 6], 2), vec![3, 6, 2, 5, 1, 4]);
    assert_eq!(bgr_planes(&[], 0), Vec::<u8>::new());
}

#[test]
fn cells_with_a_score_count() {
    assert_eq!(candidate_cells(&bits(&[0.1, 0.9, 0.95, 0.8999, f32::NAN, 1.0])), vec![1, 2, 4, 5]);
    assert_eq!(candidate_cells(&[]), Vec::<usize>::new());
}

#[test]
fn overlapping_detections_fall() {
    let scores = bits(&[0.91, 0.99, 0.95, 0.95]);
    let overlap = matrix(&[
        &[1.0, 0.0, 0.5, 0.0],
        &[0.0, 1.0, 0.4, 0.3],
        &[0.5, 0.4, 1.0, 0.0],
        &[0.0, 0.3, 0.0, 1.0],
    ]);
    assert_eq!(nms(&scores, &overlap), vec![1, 3, 0]);
}

#[test]
fn equal_scores_keep_their_order() {
    let scores = bits(&[0.9, 0.9, 0.95]);
    let apart = matrix(&[&[0.0; 3], &[0.0; 3], &[0.0; 3]]);
    assert_eq!(nms(&scores, &apart), vec![2, 0, 1]);
    let close = matrix(&[&[0.9; 3], &[0.9; 3], &[0.9; 3]]);
    assert_eq!(nms(&scores, &close), vec![2]);
    assert_eq!(nms(&[], &Vec::new()), Vec::<usize>::new());
    assert_eq!(nms(&bits(&[f32::NAN]), &matrix(&[&[1.0]])), vec![0]);
}

#[test]
fn last_of_the_best_detections() {
    assert_eq!(best_detection(&[]), None);
    assert_eq!(best_detection(&bits(&[0.5])), Some(0));
    assert_eq!(best_detection(&bits(&[0.5, 0.9, 0.9, -1.0])), Some(2));
}

#[test]
fn faces_match_the_most_similar_person() {
    let face = |v: &[(usize, f32)]| -> Vec<(usize, u32)> {
        v.iter().map(|(p, s)| (*p, s.to_bits())).collect()
    };
    assert_eq!(identify(&face(&[(0, 0.2), (1, 0.5), (2, 0.5)])), Some(1));
    assert_eq!(identify(&face(&[(0, 0.363)])), Some(0));
    assert_eq!(identify(&face(&[(0, 0.3629)])), None);
    assert_eq!(identify(&face(&[(0, f32::NAN), (1, 0.9)])), None);
    assert_eq!(identify(&face(&[(0, 0.4), (1, f32::NAN)])), Some(0));
    assert_eq!(identify(&Vec::new()), None);
}

#[test]
fn every_face_is_counted() {
    let names = vec!["Ann".to_string(), "Bob".to_string()];
    let face = |a: f32, b: f32| vec![(0, a.to_bits()), (1, b.to_bits())];
    let faces = vec![face(0.1, 0.8), face(0.1, 0.2), face(0.9, 0.8), face(0.7, 0.8)];
    let (matched, unmatched) = identify_faces(&faces, &names);
    assert_eq!(matched, vec!["Bob", "Ann", "Bob"]);
    assert_eq!(unmatched, 1);
    assert_eq!(identify_faces(&vec![Vec::new()], &Vec::new()), (Vec::new(), 1));
}

#[test]
fn persons_without_faces_are_reported() {
    assert_eq!(
        reference_warning("Ann", 0).unwrap(),
        "  reference: Ann -- WARNING: no face detected in any photo, skipped"
    );
    assert_eq!(reference_warning("Ann", 2), None);
}

#[test]
fn image_in_the_middle_of_the_square() {
    let mut img = RgbImage::new(4, 2);
    for x in 0..4 {
        for y in 0..2 {
            img.put_pixel(x, y, Rgb([10 + x as u8, 20, 30 + y as u8]));
        }
    }
    let img = DynamicImage::ImageRgb8(img);
    let (square, left, top) = letterbox(&img, 4, 2);
    assert_eq!(square.len(), 3 * 640 * 640);
    assert_eq!((left, top), (318, 319));
    let pixel = |x: usize, y: usize| &square[3 * (640 * y + x)..3 * (640 * y + x) + 3];
    assert_eq!(pixel(318, 319), [10, 20, 30]);
    assert_eq!(pixel(321, 320), [13, 20, 31]);
    for (x, y) in [(317, 319), (322, 319), (318, 318), (318, 321), (0, 0), (639, 639)] {
        assert_eq!(pixel(x, y), [0, 0, 0]);
    }
    let (square, left, top) = letterbox(&img, 640, 0);
    assert_eq!((left, top), (0, 320));
    assert!(square.iter().all(|b| *b == 0));
}
