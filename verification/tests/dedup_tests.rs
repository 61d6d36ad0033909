use realphoto::clusters::Clusters;
use realphoto::dedup::{
    ai_candidate_pairs, ai_merge_and_split, check_mode_available, dedup_methods, final_groups, keep_first_by_key,
    md5_clusters, parse_dedup_mode, path_key, phash_compare, phash_mode, run_phash_oversized_split,
    run_phash_postvalidation, AiVerdicts, DedupConfig, DedupMode, PairVerdict, PhashAiSearch, PhashRule,
    DEFAULT_PHASH_THRESHOLD, MAX_GROUP_SIZE,
};
use realphoto::models::FileRecord;
use realphoto::phash::hamming_distance;

fn sorted_groups(c: &Clusters) -> Vec<Vec<usize>> {
    let mut gs: Vec<Vec<usize>> = c
        .get_groups()
        .into_iter()
        .map(|mut g| {
            g.sort();
            g
        })
        .collect();
    gs.sort();
    gs
}

fn verdicts(n: usize, similar: &[(usize, usize)], distant: &[(usize, usize)], missing: &[usize]) -> AiVerdicts {
    let mut table = vec![vec![PairVerdict { similar: false, distant: false, strong: false }; n]; n];
    for &(a, b) in similar {
        table[a][b] = PairVerdict { similar: true, distant: false, strong: true };
        table[b][a] = PairVerdict { similar: true, distant: false, strong: true };
    }
    for &(a, b) in distant {
        table[a][b] = PairVerdict { similar: false, distant: true, strong: false };
        table[b][a] = PairVerdict { similar: false, distant: true, strong: false };
    }
    let has_vector = (0..n).map(|i| !missing.contains(&i)).collect();
    AiVerdicts { has_vector, table }
}

fn record(path: &str) -> FileRecord {
    FileRecord {
        id: path.to_string(),
        project_id: "p".to_string(),
        path: path.to_string(),
        file_name: path.to_string(),
        file_size: 1,
        file_type: "image".to_string(),
        taken_at: None,
        phash: Some(0),
        md5: None,
        group_id: None,
        created_at: String::new(),
    }
}

#[test]
fn hamming_distance_counts_differing_bits() {
    assert_eq!(hamming_distance(0, 0), 0);
    assert_eq!(hamming_distance(0, -1), 64);
    assert_eq!(hamming_distance(0b1011, 0b0001), 2);
    assert_eq!(hamming_distance(0x0f, 0xf0), hamming_distance(0xf0, 0x0f));
}

#[test]
fn config_thresholds() {
    let cfg = DedupConfig::new(DEFAULT_PHASH_THRESHOLD);
    assert_eq!((cfg.phash_threshold, cfg.phash_suspect_max), (8, 12));
    assert_eq!(MAX_GROUP_SIZE, 20);
}

#[test]
fn clusters_merge_and_evict() {
    let mut c = Clusters::new(4);
    assert_eq!(c.len(), 4);
    assert!(c.get_groups().is_empty());
    c.force_merge(0, 2);
    assert_eq!(c.cluster_of(0), c.cluster_of(2));
    assert_eq!(sorted_groups(&c), vec![vec![0, 2]]);
    let hashes = vec![0i64, 0, 1, -1];
    let rule = PhashRule { hashes: &hashes, max_distance: 8 };
    assert!(c.try_merge(1, 0, &rule));
    assert!(!c.try_merge(3, 0, &rule));
    assert!(!c.try_merge(1, 2, &rule));
    assert_eq!(sorted_groups(&c), vec![vec![0, 1, 2]]);
    assert_eq!(c.cluster_size(1), 3);
    c.evict(2);
    assert_eq!(sorted_groups(&c), vec![vec![0, 1]]);
    c.evict(3);
    assert_eq!(sorted_groups(&c), vec![vec![0, 1]]);
}

#[test]
fn complete_linkage_refuses_a_far_member() {
    let hashes = vec![0i64, 0xff, 0xffff];
    let rule = PhashRule { hashes: &hashes, max_distance: 8 };
    let mut c = Clusters::new(3);
    assert!(c.try_merge(0, 1, &rule));
    assert!(!c.try_merge(1, 2, &rule));
    assert_eq!(sorted_groups(&c), vec![vec![0, 1]]);
}

#[test]
fn md5_joins_identical_contents() {
    let md5s = vec![Some("a".to_string()), None, Some("b".to_string()), Some("a".to_string()), None];
    let c = md5_clusters(&md5s);
    assert_eq!(sorted_groups(&c), vec![vec![0, 3]]);
}

#[test]
fn phash_mode_groups_close_pictures() {
    let hashes = vec![0i64, 1, 3, 0xff, -1];
    let md5s = vec![None; 5];
    let cfg = DedupConfig::new(8);
    let c = phash_mode(&hashes, &md5s, &cfg);
    assert_eq!(sorted_groups(&c), vec![vec![0, 1, 2, 3]]);
    let (groups, found, total) = final_groups(&c);
    assert_eq!(found, 1);
    assert_eq!(total, 4);
    assert_eq!(groups.len(), 1);
}

#[test]
fn phash_mode_groups_are_tight() {
    let hashes: Vec<i64> = vec![0, 0x7, 0x3f, 0xfff, 0xffff, 0x1, 0x7fff, 0x3ffff];
    let md5s = vec![None; hashes.len()];
    let cfg = DedupConfig::new(8);
    let c = phash_mode(&hashes, &md5s, &cfg);
    for g in c.get_groups() {
        for &a in &g {
            for &b in &g {
                assert!(hamming_distance(hashes[a], hashes[b]) <= cfg.phash_threshold);
            }
        }
    }
}

#[test]
fn postvalidation_breaks_up_loose_groups() {
    let hashes = vec![0i64, -1, 0];
    let md5s = vec![Some("x".to_string()), Some("x".to_string()), Some("x".to_string())];
    let cfg = DedupConfig::new(8);
    let mut c = md5_clusters(&md5s);
    assert_eq!(sorted_groups(&c), vec![vec![0, 1, 2]]);
    run_phash_postvalidation(&mut c, &hashes, &cfg);
    assert!(c.get_groups().is_empty());
}

#[test]
fn postvalidation_keeps_tight_groups() {
    let hashes = vec![0i64, 0xff, 0x3];
    let md5s = vec![Some("x".to_string()), Some("x".to_string()), Some("x".to_string())];
    let cfg = DedupConfig::new(8);
    let mut c = md5_clusters(&md5s);
    run_phash_postvalidation(&mut c, &hashes, &cfg);
    assert_eq!(sorted_groups(&c), vec![vec![0, 1, 2]]);
}

#[test]
fn postvalidation_evicts_members_beyond_the_threshold() {
    let hashes = vec![0i64, 1, 3, 0x1ff];
    let md5s = vec![Some("x".to_string()); 4];
    let cfg = DedupConfig::new(8);
    let mut c = md5_clusters(&md5s);
    run_phash_postvalidation(&mut c, &hashes, &cfg);
    assert_eq!(sorted_groups(&c), vec![vec![1, 2]]);
}

#[test]
fn oversized_groups_are_split_by_half_threshold() {
    let n = 22;
    let hashes: Vec<i64> = (0..n).map(|i| if i % 2 == 0 { 0 } else { 0x3f }).collect();
    let md5s = vec![Some("same".to_string()); n];
    let cfg = DedupConfig::new(8);
    let mut c = md5_clusters(&md5s);
    assert_eq!(c.get_groups()[0].len(), 22);
    run_phash_oversized_split(&mut c, &hashes, &cfg);
    let gs = sorted_groups(&c);
    assert_eq!(gs.len(), 2);
    assert_eq!(gs[0], (0..n).filter(|i| i % 2 == 0).collect::<Vec<usize>>());
    assert_eq!(gs[1], (0..n).filter(|i| i % 2 == 1).collect::<Vec<usize>>());
}

#[test]
fn phash_compare_returns_suspects() {
    let hashes = vec![0i64, 0x3ff, 0xffff_ffff];
    let cfg = DedupConfig::new(8);
    let mut c = Clusters::new(3);
    let suspects = phash_compare(&mut c, &hashes, &cfg, true);
    assert_eq!(suspects, vec![(0, 1)]);
    assert!(c.get_groups().is_empty());
    let mut c2 = Clusters::new(3);
    assert!(phash_compare(&mut c2, &hashes, &cfg, false).is_empty());
}

#[test]
fn combined_search_without_embeddings() {
    let hashes = vec![0i64, 1, 0x3ff];
    let md5s = vec![None; 3];
    let cfg = DedupConfig::new(8);
    let mut search = PhashAiSearch::start(hashes, &md5s, &cfg, false);
    assert_eq!(search.current_stage(), 0);
    assert!(!search.uses_ai());
    search.compare();
    assert_eq!(search.current_stage(), 1);
    assert_eq!(search.size(), 3);
    assert_eq!(search.suspect_count(), 0);
    let c = search.finish();
    assert_eq!(sorted_groups(&c), vec![vec![0, 1]]);
}

#[test]
fn staged_hash_search_matches_hash_mode() {
    let hashes = vec![0i64, 1, 3, 0xff, -1, 0x7f];
    let md5s = vec![None, Some("a".to_string()), None, None, None, Some("a".to_string())];
    let cfg = DedupConfig::new(8);
    let expected = sorted_groups(&phash_mode(&hashes, &md5s, &cfg));
    let mut search = PhashAiSearch::start(hashes, &md5s, &cfg, false);
    search.compare();
    assert_eq!(sorted_groups(&search.finish()), expected);
}

#[test]
fn combined_search_evicts_and_never_joins_suspects() {
    let hashes = vec![0i64, 1, 0x3ff, -1];
    let md5s = vec![None; 4];
    let cfg = DedupConfig::new(8);
    let mut search = PhashAiSearch::start(hashes, &md5s, &cfg, true);
    search.compare();
    assert_eq!(search.suspect_count(), 2);
    assert_eq!(search.vector_demand(), vec![true, true, true, false]);
    let v = verdicts(4, &[(0, 2), (1, 2)], &[(0, 1)], &[]);
    search.validate_groups(v);
    assert_eq!(search.current_stage(), 2);
    let confirmed = search.confirm_suspects();
    assert_eq!(search.current_stage(), 3);
    assert_eq!(confirmed, 0);
    let c = search.finish();
    assert!(sorted_groups(&c).is_empty());
}

#[test]
fn combined_search_keeps_groups_within_the_threshold() {
    let hashes = vec![0i64, 1, 0x3ff, 0x1ff];
    let md5s = vec![None; 4];
    let cfg = DedupConfig::new(8);
    let mut search = PhashAiSearch::start(hashes.clone(), &md5s, &cfg, true);
    search.compare();
    assert_eq!(search.suspect_count(), 3);
    let v = verdicts(4, &[(0, 1), (0, 2), (0, 3), (1, 2), (1, 3), (2, 3)], &[], &[]);
    search.validate_groups(v);
    assert_eq!(search.confirm_suspects(), 0);
    let c = search.finish();
    assert_eq!(sorted_groups(&c), vec![vec![0, 1], vec![2, 3]]);
    for g in c.get_groups() {
        for &a in &g {
            for &b in &g {
                assert!(hamming_distance(hashes[a], hashes[b]) <= cfg.phash_threshold);
            }
        }
    }
}

#[test]
fn combined_search_missing_vector_leaves_group() {
    let hashes = vec![0i64, 1, 3];
    let md5s = vec![None; 3];
    let cfg = DedupConfig::new(8);
    let mut search = PhashAiSearch::start(hashes, &md5s, &cfg, true);
    search.compare();
    let v = verdicts(3, &[(0, 1), (0, 2), (1, 2)], &[], &[2]);
    search.validate_groups(v);
    let confirmed = search.confirm_suspects();
    assert_eq!(confirmed, 0);
    let c = search.finish();
    assert_eq!(sorted_groups(&c), vec![vec![0, 1]]);
}

#[test]
fn ai_only_search_merges_similar_pairs() {
    let v = verdicts(4, &[(0, 3), (1, 2)], &[], &[]);
    let mut c = Clusters::new(4);
    let pairs = ai_candidate_pairs(&c, &v);
    assert_eq!(pairs, vec![(0, 3), (1, 2)]);
    let merged = ai_merge_and_split(&mut c, &pairs, &v);
    assert_eq!(merged, 2);
    assert_eq!(sorted_groups(&c), vec![vec![0, 3], vec![1, 2]]);
}

#[test]
fn dedup_modes_and_methods() {
    assert_eq!(parse_dedup_mode(Some("phash")), DedupMode::Phash);
    assert_eq!(parse_dedup_mode(Some("ai")), DedupMode::Ai);
    assert_eq!(parse_dedup_mode(Some("other")), DedupMode::PhashAi);
    assert_eq!(parse_dedup_mode(None), DedupMode::PhashAi);
    assert_eq!(dedup_methods(DedupMode::Phash, true), vec!["pHash".to_string()]);
    assert_eq!(dedup_methods(DedupMode::Ai, true), vec!["AI(MobileNet-v3)".to_string()]);
    assert_eq!(dedup_methods(DedupMode::PhashAi, true), vec!["pHash".to_string(), "AI(MobileNet-v3)".to_string()]);
    assert_eq!(dedup_methods(DedupMode::PhashAi, false), vec!["pHash".to_string()]);
}

#[test]
fn ai_mode_needs_the_model() {
    assert_eq!(
        check_mode_available(DedupMode::Ai, false),
        Err("AI engine not available. Cannot use Pure AI mode.".to_string())
    );
    assert_eq!(check_mode_available(DedupMode::Ai, true), Ok(()));
    assert_eq!(check_mode_available(DedupMode::Phash, false), Ok(()));
}

#[test]
fn path_keys_ignore_separators_and_case() {
    assert_eq!(path_key("C:\\Photos\\IMG.JPG"), "c:/photos/img.jpg");
    let files = vec![record("C:\\P\\a.jpg"), record("c:/p/A.JPG"), record("c:/p/b.jpg")];
    let keys: Vec<String> = files.iter().map(|f| path_key(&f.path)).collect();
    let kept = keep_first_by_key(files, &keys);
    let paths: Vec<&str> = kept.iter().map(|f| f.path.as_str()).collect();
    assert_eq!(paths, vec!["C:\\P\\a.jpg", "c:/p/b.jpg"]);
}

#[test]
fn phash_mode_groups_stay_within_the_threshold() {
    let hashes: Vec<i64> = vec![0, 0xf, 0xff, 0xfff, 0x3, 0x30, 0x300];
    let md5s = vec![None; hashes.len()];
    let cfg = DedupConfig::new(4);
    let c = phash_mode(&hashes, &md5s, &cfg);
    assert!(!c.get_groups().is_empty());
    for g in c.get_groups() {
        for &a in &g {
            for &b in &g {
                assert!(hamming_distance(hashes[a], hashes[b]) <= 4);
            }
        }
    }
}

#[test]
fn identical_md5s_share_a_group() {
    let md5s = vec![Some("q".to_string()), Some("r".to_string()), Some("q".to_string()), Some("q".to_string())];
    let c = md5_clusters(&md5s);
    assert_eq!(c.cluster_of(0), c.cluster_of(2));
    assert_eq!(c.cluster_of(0), c.cluster_of(3));
    assert_ne!(c.cluster_of(0), c.cluster_of(1));
}

#[test]
fn oversized_split_keeps_small_groups() {
    let n = 24;
    let mut hashes: Vec<i64> = (0..21).map(|i| if i % 2 == 0 { 0 } else { 0x3f }).collect();
    hashes.extend_from_slice(&[0x7fff_0000, 0x7fff_0000, 0x7fff_0001]);
    let mut md5s = vec![Some("big".to_string()); 21];
    md5s.extend_from_slice(&[Some("small".to_string()), Some("small".to_string()), Some("small".to_string())]);
    assert_eq!(hashes.len(), n);
    let cfg = DedupConfig::new(8);
    let mut c = md5_clusters(&md5s);
    let small_id = c.cluster_of(21);
    let before = c.members_of(small_id);
    run_phash_oversized_split(&mut c, &hashes, &cfg);
    assert_eq!(c.cluster_of(21), small_id);
    assert_eq!(c.members_of(small_id), before);
    assert_eq!(sorted_groups(&c).len(), 3);
}
