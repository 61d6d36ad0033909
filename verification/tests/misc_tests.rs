use realphoto::embedder::{ai_status, engine_code, engine_from_code, engine_name, parse_engine, AiEngine};
use realphoto::ids::{new_id, random_suffix};
use realphoto::models::{DuplicateGroup, FileRecord, Project, ProjectDetail};
use realphoto::projects::{
    deletable_paths, empty_dedup_result, folders_to_add, is_under_target, keep_reviewable_groups, like_prefix_pattern,
    normalize_separators, require_project, require_project_detail, require_target_dir, split_by_target,
};
use realphoto::text::{replace_first_chars, trim_chars};
use realphoto::thumbnail::{render_thumbnail, thumbnail_cache_key, ThumbnailCache};

fn record(path: &str) -> FileRecord {
    FileRecord {
        id: path.to_string(),
        project_id: "p".to_string(),
        path: path.to_string(),
        file_name: path.to_string(),
        file_size: 1,
        file_type: "image".to_string(),
        taken_at: None,
        phash: None,
        md5: None,
        group_id: None,
        created_at: String::new(),
    }
}

fn project(target: Option<&str>) -> Project {
    Project {
        id: "p1".to_string(),
        name: "Trip".to_string(),
        target_dir: target.map(|s| s.to_string()),
        created_at: "t0".to_string(),
        updated_at: "t0".to_string(),
    }
}

fn png_bytes() -> Vec<u8> {
    let img = image::RgbImage::from_fn(64, 32, |x, y| image::Rgb([(x * 4) as u8, (y * 8) as u8, 128]));
    let mut buf = std::io::Cursor::new(Vec::new());
    image::DynamicImage::ImageRgb8(img).write_to(&mut buf, image::ImageFormat::Png).unwrap();
    buf.into_inner()
}

#[test]
fn engine_names() {
    assert_eq!(engine_name(AiEngine::Tract), "tract (Pure Rust)");
    assert_eq!(engine_name(AiEngine::Ort), "ort (ONNX Runtime)");
}

#[test]
fn engine_codes_round_trip() {
    assert_eq!(engine_from_code(engine_code(AiEngine::Ort)), AiEngine::Ort);
    assert_eq!(engine_from_code(engine_code(AiEngine::Tract)), AiEngine::Tract);
    assert_eq!(engine_from_code(7), AiEngine::Tract);
}

#[test]
fn engine_parsing() {
    assert_eq!(parse_engine("ort"), Ok(AiEngine::Ort));
    assert_eq!(parse_engine("tract"), Ok(AiEngine::Tract));
    assert_eq!(parse_engine("cuda"), Err("Unknown engine: cuda".to_string()));
    assert_eq!(parse_engine("ORT"), Err("Unknown engine: ORT".to_string()));
}

#[test]
fn ai_status_reports() {
    let on = ai_status(true, AiEngine::Ort);
    assert!(on.available);
    assert_eq!(on.model_name, "MobileNet-v3-Small");
    assert_eq!(on.engine, "ort (ONNX Runtime)");
    assert_eq!(on.message, "AI 向量检测已启用");
    let off = ai_status(false, AiEngine::Ort);
    assert!(!off.available);
    assert_eq!(off.model_name, "");
    assert_eq!(off.engine, "");
    assert_eq!(off.message, "AI 模型未加载，仅使用 pHash");
}

#[test]
fn ids_have_their_shapes() {
    let a = new_id();
    let b = new_id();
    assert_eq!(a.len(), 36);
    assert_ne!(a, b);
    assert_eq!(a.matches('-').count(), 4);
    let s = random_suffix();
    assert_eq!(s.len(), 6);
    assert!(s.chars().all(|c| c.is_ascii_hexdigit() && !c.is_ascii_uppercase()));
}

#[test]
fn path_keys_lower_case_beyond_ascii() {
    assert_eq!(realphoto::dedup::path_key("D:\\ÄBC\\Ö.JPG"), "d:/äbc/ö.jpg");
}

#[test]
fn separators_and_target_membership() {
    assert_eq!(normalize_separators("D:\\Pics\\2024"), "D:/Pics/2024");
    assert!(is_under_target("D:\\Pics\\2024\\a.jpg", "D:/Pics"));
    assert!(!is_under_target("D:/Other/a.jpg", "D:\\Pics"));
    assert!(is_under_target("/t", "/t"));
    assert!(!is_under_target("/t", "/t/"));
    assert_eq!(like_prefix_pattern("D:\\Pics"), "D:/Pics%");
}

#[test]
fn split_files_by_target_folder() {
    let files = vec![record("/src/a.jpg"), record("/tgt/b.jpg"), record("\\tgt\\c.jpg"), record("/src/d.jpg")];
    let (sources, targets) = split_by_target(files, "/tgt");
    let s: Vec<&str> = sources.iter().map(|f| f.path.as_str()).collect();
    let t: Vec<&str> = targets.iter().map(|f| f.path.as_str()).collect();
    assert_eq!(s, vec!["/src/a.jpg", "/src/d.jpg"]);
    assert_eq!(t, vec!["/tgt/b.jpg", "\\tgt\\c.jpg"]);
}

#[test]
fn only_target_files_are_deletable() {
    let paths = vec!["/tgt/a.jpg".to_string(), "/src/b.jpg".to_string(), "\\tgt\\c.jpg".to_string()];
    assert_eq!(deletable_paths(&paths, "/tgt"), vec![0, 2]);
}

#[test]
fn only_groups_of_two_or_more_are_reviewed() {
    let groups = vec![
        DuplicateGroup { group_id: "g1".to_string(), files: vec![record("/a"), record("/b")] },
        DuplicateGroup { group_id: "g2".to_string(), files: vec![record("/c")] },
        DuplicateGroup { group_id: "g3".to_string(), files: vec![record("/d"), record("/e"), record("/f")] },
    ];
    let kept = keep_reviewable_groups(groups);
    let ids: Vec<&str> = kept.iter().map(|g| g.group_id.as_str()).collect();
    assert_eq!(ids, vec!["g1", "g3"]);
}

#[test]
fn missing_project_and_target_messages() {
    assert_eq!(require_project(None).err(), Some("Project not found".to_string()));
    assert_eq!(require_project(Some(project(None))).map(|p| p.id), Ok("p1".to_string()));
    assert_eq!(require_project_detail(None, "abc").err(), Some("Project not found: abc".to_string()));
    let detail = ProjectDetail { project: project(None), source_folders: vec![] };
    assert!(require_project_detail(Some(detail), "p1").is_ok());
    assert_eq!(require_target_dir(&project(None)), Err("Target directory not set".to_string()));
    assert_eq!(require_target_dir(&project(Some("/tgt"))), Ok("/tgt".to_string()));
}

#[test]
fn empty_search_result() {
    let r = empty_dedup_result();
    assert_eq!((r.total_target_images, r.groups_found, r.total_duplicates), (0, 0, 0));
    assert!(r.methods.is_empty() && r.timings.is_empty());
    assert_eq!((r.suspect_pairs_checked, r.ai_confirmed, r.total_duration_ms), (0, 0, 0));
}

#[test]
fn thumbnail_keys() {
    assert_eq!(thumbnail_cache_key("/a/b.jpg", 300), "/a/b.jpg:300");
    assert_eq!(thumbnail_cache_key("x", 0), "x:0");
    assert_ne!(thumbnail_cache_key("a:1", 2), thumbnail_cache_key("a", 12));
}

#[test]
fn thumbnail_cache_gives_back_what_was_stored() {
    let mut cache = ThumbnailCache::new();
    assert_eq!(cache.lookup("/a.jpg", 300), None);
    cache.store("/a.jpg", 300, "data:one".to_string());
    assert_eq!(cache.lookup("/a.jpg", 300), Some("data:one".to_string()));
    assert_eq!(cache.lookup("/a.jpg", 200), None);
    cache.store("/a.jpg", 300, "data:two".to_string());
    assert_eq!(cache.lookup("/a.jpg", 300), Some("data:two".to_string()));
}

#[test]
fn thumbnail_cache_forgets_least_recently_used() {
    let mut cache = ThumbnailCache::new();
    for i in 0..500u32 {
        cache.store("/p", i, format!("uri{}", i));
    }
    assert_eq!(cache.lookup("/p", 0), Some("uri0".to_string()));
    cache.store("/p", 500, "uri500".to_string());
    assert_eq!(cache.lookup("/p", 1), None);
    assert_eq!(cache.lookup("/p", 0), Some("uri0".to_string()));
    assert_eq!(cache.lookup("/p", 500), Some("uri500".to_string()));
}

#[test]
fn thumbnails_are_jpeg_data_uris() {
    let uri = render_thumbnail(&png_bytes(), "png", 16).unwrap();
    assert!(uri.starts_with("data:image/jpeg;base64,/9j/"));
    let err = render_thumbnail(b"nope", "png", 16).unwrap_err();
    assert!(err.starts_with("Failed to open image: "));
}

#[test]
fn text_helpers() {
    assert_eq!(trim_chars(&[' ', '\t', 'a', ' ', 'b', '\n']), vec!['a', ' ', 'b']);
    assert_eq!(trim_chars(&[' ', '\u{3000}']), Vec::<char>::new());
    let cs: Vec<char> = "2020:01:02 03:04:05".chars().collect();
    let once = replace_first_chars(&cs, ':', '-', 2);
    assert_eq!(once.iter().collect::<String>(), "2020-01-02 03:04:05");
}

#[test]
fn folders_are_added_once() {
    let existing = vec!["/a".to_string()];
    let requested = vec!["/a".to_string(), "/b".to_string(), "/c".to_string(), "/b".to_string()];
    assert_eq!(folders_to_add(&existing, &requested), vec![1, 2]);
    assert_eq!(folders_to_add(&vec![], &vec![]), Vec::<usize>::new());
}

#[test]
fn thumbnail_renders_exactly_when_the_picture_decodes() {
    assert!(render_thumbnail(&png_bytes(), "png", 300).is_ok());
    assert!(render_thumbnail(&[], "png", 300).is_err());
    assert!(render_thumbnail(&png_bytes(), "jpeg", 300).unwrap_err().starts_with("Failed to open image: "));
    assert!(render_thumbnail(&png_bytes(), "", 300).unwrap_err().starts_with("Failed to open image: "));
}
