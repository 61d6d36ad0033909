use realphoto::models::FileRecord;
use realphoto::organizer::{
    apply_pattern, conflict_name, conflict_suffix, fresh_conflict_name, parse_date_components, select_files, FilePlan,
    OrganizeRun,
};

fn record(path: &str, file_type: &str, taken_at: Option<&str>, md5: Option<&str>) -> FileRecord {
    FileRecord {
        id: format!("id-{}", path),
        project_id: "p".to_string(),
        path: path.to_string(),
        file_name: path.rsplit('/').next().unwrap().to_string(),
        file_size: 10,
        file_type: file_type.to_string(),
        taken_at: taken_at.map(|s| s.to_string()),
        phash: None,
        md5: md5.map(|s| s.to_string()),
        group_id: None,
        created_at: "2024-01-01T00:00:00+00:00".to_string(),
    }
}

#[test]
fn parse_date_with_t_separator() {
    let r = parse_date_components("2024-05-06T07:08:09");
    assert_eq!(r, Some(("2024".to_string(), "05".to_string(), "06".to_string())));
}

#[test]
fn parse_date_with_space_separator() {
    let r = parse_date_components("2023-12-31 23:59:59");
    assert_eq!(r, Some(("2023".to_string(), "12".to_string(), "31".to_string())));
}

#[test]
fn parse_date_rfc3339_with_offset() {
    let r = parse_date_components("2021-03-04T05:06:07+00:00");
    assert_eq!(r, Some(("2021".to_string(), "03".to_string(), "04".to_string())));
}

#[test]
fn parse_date_too_few_fields() {
    assert_eq!(parse_date_components("2024-05"), None);
    assert_eq!(parse_date_components(""), None);
    assert_eq!(parse_date_components("20240506"), None);
}

#[test]
fn parse_date_keeps_extra_fields_out() {
    let r = parse_date_components("1-2-3-4");
    assert_eq!(r, Some(("1".to_string(), "2".to_string(), "3".to_string())));
}

#[test]
fn apply_pattern_day_folders() {
    assert_eq!(apply_pattern("YYYY/MM/DD", "2024", "05", "06"), "2024/05/06");
}

#[test]
fn apply_pattern_month_folders() {
    assert_eq!(apply_pattern("YYYY_MM", "2024", "05", "06"), "2024_05");
}

#[test]
fn apply_pattern_without_tokens_is_unchanged() {
    assert_eq!(apply_pattern("photos/all", "2024", "05", "06"), "photos/all");
}

#[test]
fn apply_pattern_replaces_every_occurrence() {
    assert_eq!(apply_pattern("YYYY-YYYY/DD", "2020", "01", "09"), "2020-2020/09");
}

#[test]
fn conflict_name_with_and_without_extension() {
    assert_eq!(conflict_name("photo", "jpg", "abc123"), "photo_abc123.jpg");
    assert_eq!(conflict_name("notes", "", "abc123"), "notes_abc123");
}

#[test]
fn conflict_suffix_takes_six_characters() {
    assert_eq!(conflict_suffix("0123456789abcdef"), "012345");
}

#[test]
fn fresh_conflict_names_have_a_six_character_suffix() {
    let a = fresh_conflict_name("photo", "jpg");
    assert!(a.starts_with("photo_"));
    assert!(a.ends_with(".jpg"));
    assert_eq!(a.len(), "photo_".len() + 6 + ".jpg".len());
    let suffix = &a["photo_".len().."photo_".len() + 6];
    assert!(suffix.chars().all(|c| c.is_ascii_hexdigit()));
}

#[test]
fn select_files_by_type() {
    let files = vec![
        record("/a/1.jpg", "image", None, None),
        record("/a/2.mp4", "video", None, None),
        record("/a/3.png", "image", None, None),
    ];
    assert_eq!(select_files(&files, &vec!["image".to_string()]), vec![0, 2]);
    assert_eq!(select_files(&files, &vec![]), vec![0, 1, 2]);
    assert_eq!(select_files(&files, &vec!["audio".to_string()]), Vec::<usize>::new());
}

#[test]
fn organize_run_places_dated_file() {
    let mut run = OrganizeRun::new(1, &vec![], &vec![]);
    let f = record("/src/a.jpg", "image", Some("2024-05-06T07:08:09"), Some("m1"));
    match run.plan(&f, true, "YYYY/MM") {
        FilePlan::Place { sub_dir } => assert_eq!(sub_dir, "2024/05"),
        FilePlan::Skip => panic!("expected a placement"),
    }
    run.record_transfer(true);
    let r = run.result();
    assert_eq!((r.total, r.success, r.skipped), (1, 1, 0));
    assert!(run.progress_due());
}

#[test]
fn organize_run_skips_missing_duplicate_and_undated() {
    let existing = vec![record("/t/x.jpg", "image", None, Some("dup"))];
    let mut run = OrganizeRun::new(4, &existing, &vec![true]);
    let missing = record("/src/m.jpg", "image", Some("2024-01-01"), Some("m2"));
    let dup = record("/src/d.jpg", "image", Some("2024-01-01"), Some("dup"));
    let undated = record("/src/u.jpg", "image", None, Some("m3"));
    let bad_date = record("/src/b.jpg", "image", Some("2024"), Some("m4"));
    assert!(matches!(run.plan(&missing, false, "YYYY"), FilePlan::Skip));
    assert!(matches!(run.plan(&dup, true, "YYYY"), FilePlan::Skip));
    assert!(matches!(run.plan(&undated, true, "YYYY"), FilePlan::Skip));
    assert!(matches!(run.plan(&bad_date, true, "YYYY"), FilePlan::Skip));
    let r = run.result();
    assert_eq!((r.total, r.success, r.skipped), (4, 0, 4));
    assert_eq!(run.processed_count(), 4);
}

#[test]
fn organize_run_ignores_target_files_not_on_disk() {
    let existing = vec![record("/t/x.jpg", "image", None, Some("same"))];
    let mut run = OrganizeRun::new(1, &existing, &vec![false]);
    let f = record("/src/a.jpg", "image", Some("2024-02-03"), Some("same"));
    assert!(matches!(run.plan(&f, true, "YYYY-MM-DD"), FilePlan::Place { .. }));
}

#[test]
fn organize_run_skips_second_copy_in_same_run() {
    let mut run = OrganizeRun::new(2, &vec![], &vec![]);
    let a = record("/src/a.jpg", "image", Some("2024-02-03"), Some("same"));
    let b = record("/src/b.jpg", "image", Some("2024-02-03"), Some("same"));
    assert!(matches!(run.plan(&a, true, "YYYY"), FilePlan::Place { .. }));
    run.record_transfer(true);
    assert!(matches!(run.plan(&b, true, "YYYY"), FilePlan::Skip));
    let r = run.result();
    assert_eq!((r.total, r.success, r.skipped), (2, 1, 1));
}

#[test]
fn organize_run_counts_failed_transfers_and_folders() {
    let mut run = OrganizeRun::new(2, &vec![], &vec![]);
    let a = record("/src/a.jpg", "image", Some("2024-02-03"), None);
    let b = record("/src/b.jpg", "image", Some("2024-02-04"), None);
    assert!(matches!(run.plan(&a, true, "YYYY"), FilePlan::Place { .. }));
    run.record_skip();
    assert!(matches!(run.plan(&b, true, "YYYY"), FilePlan::Place { .. }));
    run.record_transfer(false);
    let r = run.result();
    assert_eq!((r.total, r.success, r.skipped), (2, 0, 2));
}

#[test]
fn organize_progress_every_fifth_file() {
    let mut run = OrganizeRun::new(7, &vec![], &vec![]);
    let mut due = Vec::new();
    for i in 0..7 {
        let f = record(&format!("/src/{}.jpg", i), "image", Some("2024-02-03"), None);
        assert!(matches!(run.plan(&f, true, "YYYY"), FilePlan::Place { .. }));
        run.record_transfer(true);
        due.push(run.progress_due());
    }
    assert_eq!(due, vec![false, false, false, false, true, false, true]);
}
