use realphoto::scanner::{
    classify_extension, classify_lowercase_extension, compute_md5, compute_phash, date_from_exif_entries, exif_date,
    file_date, hash_bytes_to_phash, plan_scan, process_file, scan_opening_progress, scan_progress_due, to_hex, MediaKind,
};

fn png_bytes() -> Vec<u8> {
    let img = image::RgbImage::from_fn(32, 32, |x, y| image::Rgb([(x * 8) as u8, (y * 8) as u8, ((x + y) * 4) as u8]));
    let mut buf = std::io::Cursor::new(Vec::new());
    image::DynamicImage::ImageRgb8(img).write_to(&mut buf, image::ImageFormat::Png).unwrap();
    buf.into_inner()
}

/// A little-endian TIFF header holding one ASCII `DateTime` entry.
fn tiff_with_date(date: &str) -> Vec<u8> {
    let mut b = vec![0x49, 0x49, 0x2a, 0x00, 0x08, 0x00, 0x00, 0x00];
    b.extend_from_slice(&[0x01, 0x00]);
    let count = (date.len() + 1) as u32;
    b.extend_from_slice(&[0x32, 0x01, 0x02, 0x00]);
    b.extend_from_slice(&count.to_le_bytes());
    b.extend_from_slice(&26u32.to_le_bytes());
    b.extend_from_slice(&[0, 0, 0, 0]);
    b.extend_from_slice(date.as_bytes());
    b.push(0);
    b
}

#[test]
fn classify_known_extensions_in_any_case() {
    assert_eq!(classify_extension("JPG"), Some("image"));
    assert_eq!(classify_extension("jpeg"), Some("image"));
    assert_eq!(classify_extension("HeIc"), Some("image"));
    assert_eq!(classify_extension("tif"), Some("image"));
    assert_eq!(classify_extension("MOV"), Some("video"));
    assert_eq!(classify_extension("webm"), Some("video"));
    assert_eq!(classify_extension("FLAC"), Some("audio"));
    assert_eq!(classify_extension("m4a"), Some("audio"));
}

#[test]
fn classify_unknown_extensions() {
    assert_eq!(classify_extension("txt"), None);
    assert_eq!(classify_extension(""), None);
    assert_eq!(classify_extension("jpgx"), None);
}

#[test]
fn classify_lowercase_only() {
    assert_eq!(classify_lowercase_extension("png"), Some(MediaKind::Image));
    assert_eq!(classify_lowercase_extension("PNG"), None);
    assert_eq!(MediaKind::Video.as_str(), "video");
}

#[test]
fn exif_entries_first_valid_date_wins() {
    let entries = vec![
        (0x010f_u32, "Canon".to_string()),
        (0x9003_u32, "0000:00:00 00:00:00".to_string()),
        (0x0132_u32, "   ".to_string()),
        (0x0132_u32, "  2020:01:02 03:04:05 ".to_string()),
        (0x9003_u32, "2019:01:01 00:00:00".to_string()),
    ];
    assert_eq!(date_from_exif_entries(&entries), Some("2020-01-02T03:04:05".to_string()));
}

#[test]
fn exif_entries_without_date() {
    let entries = vec![(0x010f_u32, "2020:01:02 03:04:05".to_string())];
    assert_eq!(date_from_exif_entries(&entries), None);
    assert_eq!(date_from_exif_entries(&vec![]), None);
}

#[test]
fn exif_date_from_tiff_bytes() {
    let bytes = tiff_with_date("2021:03:04 05:06:07");
    assert_eq!(exif_date(&bytes), Some("2021-03-04T05:06:07".to_string()));
}

#[test]
fn exif_date_from_non_image_bytes() {
    assert_eq!(exif_date(b"hello world"), None);
}

#[test]
fn phash_from_hash_bytes_is_big_endian() {
    assert_eq!(hash_bytes_to_phash(&[0, 0, 0, 0, 0, 0, 1, 2]), Some(0x0102));
    assert_eq!(hash_bytes_to_phash(&[0xff; 8]), Some(-1));
    assert_eq!(hash_bytes_to_phash(&[0x80, 0, 0, 0, 0, 0, 0, 0, 9]), Some(i64::MIN));
    assert_eq!(hash_bytes_to_phash(&[1, 2, 3]), None);
}

#[test]
fn phash_of_a_picture_and_of_garbage() {
    let png = png_bytes();
    let h1 = compute_phash(&png, "png");
    assert!(h1.is_some());
    assert_eq!(compute_phash(&png, "PNG"), h1);
    assert_eq!(compute_phash(b"not a picture", "png"), None);
}

#[test]
fn phash_decodes_in_the_format_the_extension_names() {
    let png = png_bytes();
    assert_eq!(compute_phash(&png, "jpg"), None);
    assert_eq!(compute_phash(&png, ""), None);
    assert_eq!(compute_phash(&png, "xyz"), None);
}

#[test]
fn md5_hex_of_known_inputs() {
    assert_eq!(compute_md5(b""), "d41d8cd98f00b204e9800998ecf8427e");
    assert_eq!(compute_md5(b"abc"), "900150983cd24fb0d6963f7d28e17f72");
}

#[test]
fn hex_is_lower_case_two_digits_per_byte() {
    assert_eq!(to_hex(&[0x00, 0x0f, 0xa0, 0xff]), "000fa0ff");
    assert_eq!(to_hex(&[]), "");
}

#[test]
fn file_date_prefers_modification_time() {
    assert_eq!(file_date(Some((0, 0)), Some((86400, 0))), Some("1970-01-01T00:00:00+00:00".to_string()));
    assert_eq!(file_date(None, Some((86400, 0))), Some("1970-01-02T00:00:00+00:00".to_string()));
    assert_eq!(file_date(None, None), None);
}

#[test]
fn plan_scan_counts_kinds_and_new_paths() {
    let paths = vec!["/a/1.JPG".to_string(), "/a/2.mp4".to_string(), "/a/3.mp3".to_string(), "/a/4".to_string()];
    let exts = vec![Some("JPG".to_string()), Some("mp4".to_string()), Some("mp3".to_string()), None];
    let existing = vec!["/a/2.mp4".to_string(), "/b/9.png".to_string()];
    let (r, fresh) = plan_scan(&paths, &exts, &existing);
    assert_eq!((r.total_files, r.images, r.videos, r.audios), (4, 1, 1, 1));
    assert_eq!(fresh, vec![0, 2, 3]);
}

#[test]
fn scan_progress_every_fifth_and_last() {
    assert!(scan_progress_due(5, 12));
    assert!(scan_progress_due(12, 12));
    assert!(!scan_progress_due(7, 12));
}

#[test]
fn process_file_of_a_picture() {
    let png = png_bytes();
    let md5 = Some(compute_md5(&png));
    let r = process_file("proj", "/a/p.PNG", "p.PNG", Some("PNG"), 123, Some(&png), Some((0, 0)), None, md5, "now");
    assert_eq!(r.id.len(), 36);
    assert_eq!(r.project_id, "proj");
    assert_eq!(r.path, "/a/p.PNG");
    assert_eq!(r.file_name, "p.PNG");
    assert_eq!(r.file_size, 123);
    assert_eq!(r.file_type, "image");
    assert_eq!(r.taken_at, Some("1970-01-01T00:00:00+00:00".to_string()));
    assert!(r.phash.is_some());
    assert_eq!(r.md5, Some(compute_md5(&png)));
    assert_eq!(r.group_id, None);
    assert_eq!(r.created_at, "now");
}

#[test]
fn process_file_of_a_picture_with_exif_date() {
    let tiff = tiff_with_date("2021:03:04 05:06:07");
    let r = process_file("proj", "/a/t.tif", "t.tif", Some("tif"), 40, Some(&tiff), Some((0, 0)), None, None, "now");
    assert_eq!(r.file_type, "image");
    assert_eq!(r.taken_at, Some("2021-03-04T05:06:07".to_string()));
}

#[test]
fn process_file_of_other_media_ignores_exif() {
    let tiff = tiff_with_date("2021:03:04 05:06:07");
    let r = process_file(
        "proj",
        "/a/v.mp4",
        "v.mp4",
        Some("mp4"),
        40,
        Some(&tiff),
        None,
        Some((86400, 0)),
        Some("abc".to_string()),
        "now",
    );
    assert_eq!(r.file_type, "video");
    assert_eq!(r.taken_at, Some("1970-01-02T00:00:00+00:00".to_string()));
    assert_eq!(r.phash, None);
    assert_eq!(r.md5, Some(compute_md5(&tiff)));
    let streamed = process_file("proj", "/a/v.mp4", "v.mp4", Some("mp4"), 40, None, None, None, Some("abc".to_string()), "now");
    assert_eq!(streamed.md5, Some("abc".to_string()));
}

#[test]
fn process_file_unknown_and_unreadable() {
    let r = process_file("proj", "/a/readme", "readme", None, 0, None, None, None, None, "now");
    assert_eq!(r.file_type, "unknown");
    assert_eq!(r.taken_at, None);
    assert_eq!(r.phash, None);
    assert_eq!(r.md5, None);
}

#[test]
fn a_second_scan_finds_nothing_new() {
    let paths = vec!["/a/1.jpg".to_string(), "/a/2.mov".to_string(), "/a/3.wav".to_string()];
    let exts = vec![Some("jpg".to_string()), Some("mov".to_string()), Some("wav".to_string())];
    let existing = vec!["/a/2.mov".to_string()];
    let (first, fresh) = plan_scan(&paths, &exts, &existing);
    assert_eq!(fresh, vec![0, 2]);
    let mut recorded = existing.clone();
    for &i in &fresh {
        recorded.push(paths[i].clone());
    }
    let (second, fresh2) = plan_scan(&paths, &exts, &recorded);
    assert!(fresh2.is_empty());
    assert_eq!(
        (first.total_files, first.images, first.videos, first.audios),
        (second.total_files, second.images, second.videos, second.audios)
    );
    let (opening, done) = scan_opening_progress(second.total_files, fresh2.len());
    assert!(done);
    assert_eq!((opening.total, opening.scanned, opening.current_file.as_str()), (3, 3, ""));
}

#[test]
fn a_scan_with_new_files_opens_at_zero() {
    let (opening, done) = scan_opening_progress(10, 4);
    assert!(!done);
    assert_eq!((opening.total, opening.scanned, opening.current_file.as_str()), (4, 0, "开始并行处理..."));
}

#[test]
fn picture_md5_comes_from_its_bytes() {
    let png = png_bytes();
    let r = process_file("p", "/a/x.png", "x.png", Some("png"), 1, Some(&png), None, None, Some("ignored".to_string()), "now");
    assert_eq!(r.md5, Some(compute_md5(&png)));
}

#[test]
fn process_file_of_a_mislabelled_picture_has_no_hash() {
    let png = png_bytes();
    let r = process_file("proj", "/a/p.jpg", "p.jpg", Some("jpg"), 10, Some(&png), None, None, None, "now");
    assert_eq!(r.file_type, "image");
    assert_eq!(r.phash, None);
    assert_eq!(r.md5, Some(compute_md5(&png)));
}
