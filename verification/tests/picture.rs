use base64::Engine;
use image::{DynamicImage, GrayImage, Luma, Rgb, RgbImage};
use imageindex::dedup::hamming_distance;
use imageindex::picture::{
    apply_exif_orientation, blur_responses, hash_of_pixels, image_to_data_url, laplacian_of,
    open_image, perceptual_hash, plain_image, rgb_image, turn_decoded, upright,
};
use imageindex::video::{extract_video_frame, FrameRun};
use std::io::Cursor;
use imageindex::vision::ollama_request;

fn numbered() -> DynamicImage {
    let mut img = RgbImage::new(3, 2);
    for y in 0..2u32 {
        for x in 0..3u32 {
            img.put_pixel(x, y, Rgb([(10 * y + x) as u8, 7, 9]));
        }
    }
    DynamicImage::ImageRgb8(img)
}

fn grid(img: &DynamicImage) -> Vec<Vec<u8>> {
    let rgb = img.to_rgb8();
    (0..rgb.height()).map(|y| (0..rgb.width()).map(|x| rgb.get_pixel(x, y)[0]).collect()).collect()
}

#[test]
fn orientations_turn_the_photo() {
    let turned = |n: u32| grid(&apply_exif_orientation(numbered(), n));
    assert_eq!(turned(1), vec![vec![0, 1, 2], vec![10, 11, 12]]);
    assert_eq!(turned(2), vec![vec![2, 1, 0], vec![12, 11, 10]]);
    assert_eq!(turned(3), vec![vec![12, 11, 10], vec![2, 1, 0]]);
    assert_eq!(turned(4), vec![vec![10, 11, 12], vec![0, 1, 2]]);
    assert_eq!(turned(5), vec![vec![0, 10], vec![1, 11], vec![2, 12]]);
    assert_eq!(turned(6), vec![vec![10, 0], vec![11, 1], vec![12, 2]]);
    assert_eq!(turned(7), vec![vec![12, 2], vec![11, 1], vec![10, 0]]);
    assert_eq!(turned(8), vec![vec![2, 12], vec![1, 11], vec![0, 10]]);
    assert_eq!(turned(0), turned(1));
    assert_eq!(turned(9), turned(1));
}

#[test]
fn orientations_can_be_undone() {
    for n in 0..10 {
        let undo = match n {
            6 => 8,
            8 => 6,
            _ => n,
        };
        let back = apply_exif_orientation(apply_exif_orientation(numbered(), n), undo);
        assert_eq!(grid(&back), grid(&numbered()));
    }
}

#[test]
fn hash_marks_bright_pixels() {
    let mut values = [0u8; 64];
    values[0] = 252;
    values[63] = 4;
    assert_eq!(hash_of_pixels(&values), 1 | 1 << 63);
    values[63] = 3;
    assert_eq!(hash_of_pixels(&values), 1);
    assert_eq!(hash_of_pixels(&[9u8; 64]), u64::MAX);
}

#[test]
fn hash_of_a_photo() {
    let mut img = GrayImage::new(8, 8);
    for y in 0..8 {
        img.put_pixel(0, y, Luma([200]));
    }
    let column = DynamicImage::ImageLuma8(img);
    assert_eq!(perceptual_hash(&column), 0x0101_0101_0101_0101);
    assert_eq!(perceptual_hash(&DynamicImage::new_rgb8(40, 30)), u64::MAX);
    let mut spotted = column.to_luma8();
    spotted.put_pixel(5, 5, Luma([150]));
    let spotted = DynamicImage::ImageLuma8(spotted);
    assert_eq!(hamming_distance(perceptual_hash(&column), perceptual_hash(&spotted)), 1);
}

#[test]
fn responses_of_gray_pixels() {
    let gray = [0, 0, 0, 0, 0, 9, 1, 0, 0, 0, 2, 0];
    assert_eq!(laplacian_of(&gray, 4, 3), vec![-35, 7]);
    assert_eq!(laplacian_of(&gray, 3, 4), vec![9, 3]);
    assert_eq!(laplacian_of(&gray, 2, 6), Vec::<i32>::new());
    assert_eq!(laplacian_of(&[], 0, 7), Vec::<i32>::new());
}

#[test]
fn responses_of_a_photo() {
    let img = DynamicImage::new_luma8(1000, 500);
    let r = blur_responses(&img);
    assert_eq!(r.len(), 398 * 198);
    assert!(r.iter().all(|v| *v == 0));
    assert_eq!(blur_responses(&DynamicImage::new_luma8(4000, 10)), Vec::<i32>::new());
}

#[test]
fn data_url_holds_a_jpeg() {
    let url = image_to_data_url(&numbered());
    let payload = url.strip_prefix("data:image/jpeg;base64,").unwrap();
    assert!(payload.starts_with("/9j/"));
    assert_eq!(ollama_request(&url, "m")["images"][0], payload);
    let file = base64::engine::general_purpose::STANDARD.decode(payload).unwrap();
    let shown = image::load_from_memory(&file).unwrap();
    assert_eq!((shown.width(), shown.height()), (1024, 683));
}

#[test]
fn image_from_bytes() {
    let img = rgb_image(1, 2, vec![1, 2, 3, 4, 5, 6, 7], "short").unwrap();
    assert_eq!(grid(&img), vec![vec![1], vec![4]]);
    assert_eq!(rgb_image(1, 3, vec![0; 8], "short").unwrap_err(), "short");
}

fn png() -> Vec<u8> {
    file_of(image::ImageFormat::Png)
}

/// A PNG file whose Exif fields give this orientation.
fn turned_png(orientation: u8) -> Vec<u8> {
    let mut fields = b"eXIfII*\0\x08\0\0\0\x01\0\x12\x01\x03\0\x01\0\0\0".to_vec();
    fields.extend_from_slice(&[orientation, 0, 0, 0, 0, 0, 0, 0]);
    let mut file = png();
    file.splice(33..33, chunk_of(&fields));
    file
}

/// An image of this format in memory.
fn file_of(format: image::ImageFormat) -> Vec<u8> {
    let mut file = Vec::new();
    numbered().write_to(&mut Cursor::new(&mut file), format).unwrap();
    file
}

/// A chunk of a PNG file.
fn chunk_of(name_and_data: &[u8]) -> Vec<u8> {
    let mut chunk = ((name_and_data.len() - 4) as u32).to_be_bytes().to_vec();
    let mut crc = !0u32;
    for b in name_and_data {
        crc ^= *b as u32;
        for _ in 0..8 {
            crc = if crc & 1 == 1 { crc >> 1 ^ 0xedb8_8320 } else { crc >> 1 };
        }
    }
    chunk.extend_from_slice(name_and_data);
    chunk.extend_from_slice(&(!crc).to_be_bytes());
    chunk
}

/// A PNG file of one pixel, the first colour of a palette with these bytes.
fn palette_png(palette: &[u8]) -> Vec<u8> {
    let mut file = b"\x89PNG\r\n\x1a\n".to_vec();
    file.extend(chunk_of(b"IHDR\0\0\0\x01\0\0\0\x01\x08\x03\0\0\0"));
    file.extend(chunk_of(&[b"PLTE", palette].concat()));
    file.extend(chunk_of(b"IDAT\x78\x01\x01\x02\0\xfd\xff\0\0\0\x02\0\x01"));
    file.extend(chunk_of(b"IEND"));
    file
}

#[test]
fn images_are_told_by_their_content() {
    for file in [png(), file_of(image::ImageFormat::Bmp)] {
        assert!(plain_image(&file));
        let img = open_image(&file).unwrap().unwrap();
        assert_eq!(grid(&img), grid(&numbered()));
        assert!(open_image(&file[..30]).unwrap().is_err());
    }
    assert!(open_image(b"BM").unwrap().is_err());
    assert!(open_image(b"no image").is_none());
    assert!(open_image(b"").is_none());
}

#[test]
fn palettes_are_whole() {
    let img = open_image(&palette_png(&[9, 8, 7, 6, 5, 4])).unwrap().unwrap();
    assert_eq!(img.to_rgb8().get_pixel(0, 0).0, [9, 8, 7]);
    assert!(plain_image(&palette_png(&[1; 768])));
    for torn in [1, 2, 5, 769, 771] {
        assert!(!plain_image(&palette_png(&vec![1; torn])));
        assert!(open_image(&palette_png(&vec![1; torn])).is_none());
    }
}

#[test]
fn other_files_are_decoded_elsewhere() {
    for format in [image::ImageFormat::Jpeg, image::ImageFormat::Tiff] {
        let file = file_of(format);
        assert!(!plain_image(&file));
        assert!(open_image(&file).is_none());
    }
    let mut narrow = file_of(image::ImageFormat::Bmp);
    narrow[18] = 0;
    assert!(open_image(&narrow).is_none());
    let turned = turn_decoded(Ok(numbered()), &turned_png(8)).unwrap();
    assert_eq!(grid(&turned), vec![vec![2, 12], vec![1, 11], vec![0, 10]]);
    assert_eq!(turn_decoded(Err("bad".to_string()), &png()).unwrap_err(), "bad");
}

#[test]
fn images_are_opened_upright() {
    let img = open_image(&turned_png(6)).unwrap().unwrap();
    assert_eq!(grid(&img), vec![vec![10, 0], vec![11, 1], vec![12, 2]]);
    assert_eq!(grid(&upright(numbered(), &turned_png(2))), vec![vec![2, 1, 0], vec![12, 11, 10]]);
    assert_eq!(grid(&upright(numbered(), &png())), grid(&numbered()));
}

#[test]
fn frames_come_from_a_finished_run() {
    let frame = extract_video_frame(&FrameRun::Finished, Ok(numbered())).unwrap();
    assert_eq!(grid(&frame), grid(&numbered()));
    let gone = extract_video_frame(&FrameRun::Finished, Err("gone".to_string()));
    assert_eq!(gone.unwrap_err(), "gone");
    let failed = extract_video_frame(&FrameRun::Failed("bad".to_string()), Ok(numbered()));
    assert_eq!(failed.unwrap_err(), "ffmpeg frame extraction failed: bad");
    let missing = extract_video_frame(&FrameRun::NotRunnable("no".to_string()), Ok(numbered()));
    assert_eq!(missing.unwrap_err(), "ffmpeg not runnable: no");
}
