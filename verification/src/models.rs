//! The records that the library hands to the application and back.

use vstd::prelude::*;

verus! {

/// An organising project: source folders to file into one target folder.
#[derive(Debug, Clone)]
pub struct Project {
    pub id: String,
    pub name: String,
    pub target_dir: Option<String>,
    pub created_at: String,
    pub updated_at: String,
}

/// A folder whose media a project files away.
#[derive(Debug, Clone)]
pub struct SourceFolder {
    pub id: String,
    pub project_id: String,
    pub path: String,
    pub created_at: String,
}

/// A project with its source folders.
#[derive(Debug, Clone)]
pub struct ProjectDetail {
    pub project: Project,
    pub source_folders: Vec<SourceFolder>,
}

/// One scanned media file.
#[derive(Debug, Clone)]
pub struct FileRecord {
    pub id: String,
    pub project_id: String,
    pub path: String,
    pub file_name: String,
    pub file_size: i64,
    pub file_type: String,
    pub taken_at: Option<String>,
    pub phash: Option<i64>,
    pub md5: Option<String>,
    pub group_id: Option<String>,
    pub created_at: String,
}

/// Progress of a scan.
#[derive(Debug, Clone)]
pub struct ScanProgress {
    pub total: u64,
    pub scanned: u64,
    pub current_file: String,
}

/// Outcome of a scan: the media files found, by kind.
#[derive(Debug, Clone)]
pub struct ScanResult {
    pub total_files: u64,
    pub images: u64,
    pub videos: u64,
    pub audios: u64,
}

/// Progress of an organising run.
#[derive(Debug, Clone)]
pub struct OrganizeProgress {
    pub total: u64,
    pub processed: u64,
    pub current_file: String,
}

/// Outcome of an organising run.
#[derive(Debug, Clone)]
pub struct OrganizeResult {
    pub total: u64,
    pub success: u64,
    pub skipped: u64,
}

/// A group of similar pictures.
#[derive(Debug, Clone)]
pub struct DuplicateGroup {
    pub group_id: String,
    pub files: Vec<FileRecord>,
}

/// Progress of a duplicate search.
#[derive(Debug, Clone)]
pub struct DedupProgress {
    pub stage: String,
    pub current: u64,
    pub total: u64,
    pub current_file: String,
}

/// How long one stage of a duplicate search took.
#[derive(Debug, Clone)]
pub struct StageTiming {
    pub name: String,
    pub duration_ms: u64,
}

/// Outcome of a duplicate search.
#[derive(Debug, Clone)]
pub struct DedupResult {
    pub total_target_images: u64,
    pub groups_found: u64,
    pub total_duplicates: u64,
    pub methods: Vec<String>,
    pub suspect_pairs_checked: u64,
    pub ai_confirmed: u64,
    pub timings: Vec<StageTiming>,
    pub total_duration_ms: u64,
}

/// Whether image embeddings are available, and with which engine.
#[derive(Debug, Clone)]
pub struct AiStatus {
    pub available: bool,
    pub model_name: String,
    pub engine: String,
    pub message: String,
}

} // verus!
