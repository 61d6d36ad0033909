//! The rules around projects and their files: which files lie in the
//! target folder, which may be deleted, which groups are shown, and the
//! answers to requests about missing projects or folders.

use vstd::prelude::*;
use crate::models::{DedupResult, DuplicateGroup, FileRecord, Project, ProjectDetail};
use crate::text::{append_chars, chars_of, has_prefix, replace_char, replace_char_in, starts_with, string_from_chars};

verus! {

/// A path with backslashes read as slashes.
pub open spec fn normalized(path: Seq<char>) -> Seq<char> {
    replace_char(path, '\\', '/')
}

/// A path with backslashes read as slashes.
pub fn normalize_separators(path: &str) -> (r: String)
    ensures
        r@ == normalized(path@),
{
    replace_char_in(path, '\\', '/')
}

/// Whether a path lies in the target folder: its normalised form begins
/// with the normalised target folder.
pub open spec fn under_target(path: Seq<char>, target_dir: Seq<char>) -> bool {
    has_prefix(normalized(path), normalized(target_dir))
}

/// Whether `path` lies in the target folder `target_dir`.
pub fn is_under_target(path: &str, target_dir: &str) -> (r: bool)
    ensures
        r == under_target(path@, target_dir@),
{
    let p = chars_of(normalize_separators(path).as_str());
    let t = chars_of(normalize_separators(target_dir).as_str());
    starts_with(p.as_slice(), t.as_slice())
}

/// The `LIKE` pattern matching the paths below a folder: the normalised
/// folder followed by `%`.
pub fn like_prefix_pattern(prefix: &str) -> (r: String)
    ensures
        r@ == normalized(prefix@) + seq!['%'],
{
    let mut cs = chars_of(normalize_separators(prefix).as_str());
    cs.push('%');
    string_from_chars(cs.as_slice())
}

/// The files among the first `k` that lie in the target folder (`inside`)
/// or outside it (`!inside`), in order.
pub open spec fn files_where(files: Seq<FileRecord>, target_dir: Seq<char>, inside: bool, k: nat) -> Seq<FileRecord>
    decreases k,
{
    if k == 0 {
        Seq::empty()
    } else {
        let prev = files_where(files, target_dir, inside, (k - 1) as nat);
        if under_target(files[k - 1].path@, target_dir) == inside {
            prev.push(files[k - 1])
        } else {
            prev
        }
    }
}

/// The project's files split into those outside the target folder (the
/// sources to organise) and those inside it, each in the given order.
pub fn split_by_target(files: Vec<FileRecord>, target_dir: &str) -> (r: (Vec<FileRecord>, Vec<FileRecord>))
    ensures
        r.0@ == files_where(files@, target_dir@, false, files@.len()),
        r.1@ == files_where(files@, target_dir@, true, files@.len()),
{
    let ghost orig = files@;
    let n = files.len();
    let mut files = files;
    let mut rev: Vec<FileRecord> = Vec::new();
    while files.len() > 0
        invariant
            files@.len() + rev@.len() == n,
            n == orig.len(),
            files@ == orig.take(files@.len() as int),
            forall|k: int| 0 <= k < rev@.len() ==> #[trigger] rev@[k] == orig[n - 1 - k],
        decreases files@.len(),
    {
        let x = files.pop().unwrap();
        rev.push(x);
        assert(files@ =~= orig.take(files@.len() as int));
    }
    let mut sources: Vec<FileRecord> = Vec::new();
    let mut targets: Vec<FileRecord> = Vec::new();
    let mut i: usize = 0;
    while i < n
        invariant
            n == orig.len(),
            i <= n,
            rev@.len() == n - i,
            forall|k: int| 0 <= k < rev@.len() ==> #[trigger] rev@[k] == orig[n - 1 - k],
            sources@ == files_where(orig, target_dir@, false, i as nat),
            targets@ == files_where(orig, target_dir@, true, i as nat),
        decreases n - i,
    {
        let f = rev.pop().unwrap();
        assert(f == orig[i as int]);
        if is_under_target(f.path.as_str(), target_dir) {
            targets.push(f);
        } else {
            sources.push(f);
        }
        i = i + 1;
    }
    (sources, targets)
}

/// Every file lands in exactly one of the two parts: the parts' sizes add
/// up to the number of files.
pub proof fn lemma_split_covers(files: Seq<FileRecord>, target_dir: Seq<char>, k: nat)
    ensures
        files_where(files, target_dir, false, k).len() + files_where(files, target_dir, true, k).len() == k,
    decreases k,
{
    if k > 0 {
        lemma_split_covers(files, target_dir, (k - 1) as nat);
    }
}

/// The positions among the first `k` paths of those that lie in the target
/// folder.
pub open spec fn deletable_upto(paths: Seq<String>, target_dir: Seq<char>, k: nat) -> Seq<usize>
    decreases k,
{
    if k == 0 {
        Seq::empty()
    } else {
        let prev = deletable_upto(paths, target_dir, (k - 1) as nat);
        if under_target(paths[k - 1]@, target_dir) {
            prev.push((k - 1) as usize)
        } else {
            prev
        }
    }
}

/// Of the paths asked to be deleted, the positions of those the deletion
/// may touch: only files in the target folder are ever deleted.
pub fn deletable_paths(paths: &Vec<String>, target_dir: &str) -> (r: Vec<usize>)
    ensures
        r@ == deletable_upto(paths@, target_dir@, paths@.len()),
        forall|k: int| 0 <= k < r@.len() ==> (#[trigger] r@[k] as int) < paths@.len() && under_target(
            paths@[r@[k] as int]@,
            target_dir@,
        ),
{
    let mut r: Vec<usize> = Vec::new();
    let mut i: usize = 0;
    while i < paths.len()
        invariant
            i <= paths@.len(),
            r@ == deletable_upto(paths@, target_dir@, i as nat),
            forall|k: int| 0 <= k < r@.len() ==> (#[trigger] r@[k] as int) < i && under_target(
                paths@[r@[k] as int]@,
                target_dir@,
            ),
        decreases paths@.len() - i,
    {
        if is_under_target(paths[i].as_str(), target_dir) {
            r.push(i);
        }
        i = i + 1;
    }
    r
}

/// The positions among the first `k` requested folders that are added: those
/// the project does not hold yet and that were not requested earlier.
pub open spec fn added_upto(known: Set<Seq<char>>, requested: Seq<Seq<char>>, k: nat) -> Seq<usize>
    decreases k,
{
    if k == 0 {
        Seq::empty()
    } else {
        let prev = added_upto(known, requested, (k - 1) as nat);
        let p = requested[k - 1];
        if known.contains(p) || requested.take(k - 1).contains(p) {
            prev
        } else {
            prev.push((k - 1) as usize)
        }
    }
}

pub open spec fn text_views(v: Seq<String>) -> Seq<Seq<char>> {
    v.map_values(|s: String| s@)
}

/// Which of the requested source folders a project gains: each path it does
/// not hold yet, once.
pub fn folders_to_add(existing: &Vec<String>, requested: &Vec<String>) -> (r: Vec<usize>)
    ensures
        r@ == added_upto(text_views(existing@).to_set(), text_views(requested@), requested@.len()),
{
    let ghost known = text_views(existing@).to_set();
    let ghost rq = text_views(requested@);
    let mut seen = vstd::hash_set::StringHashSet::new();
    let mut q: usize = 0;
    while q < existing.len()
        invariant
            q <= existing@.len(),
            forall|t: Seq<char>| #[trigger] seen@.contains(t) <==> text_views(existing@).take(q as int).contains(t),
        decreases existing@.len() - q,
    {
        proof {
            let vs = text_views(existing@);
            crate::clusters::lemma_contains_last(vs.take(q + 1));
            assert(vs.take(q + 1).drop_last() =~= vs.take(q as int));
            assert(vs.take(q + 1).last() == existing@[q as int]@);
        }
        seen.insert(existing[q].clone());
        q = q + 1;
    }
    assert(text_views(existing@).take(existing@.len() as int) =~= text_views(existing@));
    let mut r: Vec<usize> = Vec::new();
    let mut i: usize = 0;
    while i < requested.len()
        invariant
            i <= requested@.len(),
            rq == text_views(requested@),
            known == text_views(existing@).to_set(),
            forall|t: Seq<char>| #[trigger] seen@.contains(t) <==> (known.contains(t) || rq.take(i as int).contains(t)),
            r@ == added_upto(known, rq, i as nat),
        decreases requested@.len() - i,
    {
        proof {
            crate::clusters::lemma_contains_last(rq.take(i + 1));
            assert(rq.take(i + 1).drop_last() =~= rq.take(i as int));
            assert(rq.take(i + 1).last() == requested@[i as int]@);
        }
        let fresh = seen.insert(requested[i].clone());
        if fresh {
            r.push(i);
        }
        i = i + 1;
    }
    r
}

/// The groups among the first `k` that hold two files or more, in order.
pub open spec fn shown_groups(groups: Seq<DuplicateGroup>, k: nat) -> Seq<DuplicateGroup>
    decreases k,
{
    if k == 0 {
        Seq::empty()
    } else {
        let prev = shown_groups(groups, (k - 1) as nat);
        if groups[k - 1].files@.len() >= 2 {
            prev.push(groups[k - 1])
        } else {
            prev
        }
    }
}

/// The duplicate groups shown for review: those still holding two files or
/// more.
pub fn keep_reviewable_groups(groups: Vec<DuplicateGroup>) -> (r: Vec<DuplicateGroup>)
    ensures
        r@ == shown_groups(groups@, groups@.len()),
        forall|k: int| 0 <= k < r@.len() ==> (#[trigger] r@[k]).files@.len() >= 2,
{
    let ghost orig = groups@;
    let n = groups.len();
    let mut groups = groups;
    let mut rev: Vec<DuplicateGroup> = Vec::new();
    while groups.len() > 0
        invariant
            groups@.len() + rev@.len() == n,
            n == orig.len(),
            groups@ == orig.take(groups@.len() as int),
            forall|k: int| 0 <= k < rev@.len() ==> #[trigger] rev@[k] == orig[n - 1 - k],
        decreases groups@.len(),
    {
        let x = groups.pop().unwrap();
        rev.push(x);
        assert(groups@ =~= orig.take(groups@.len() as int));
    }
    let mut out: Vec<DuplicateGroup> = Vec::new();
    let mut i: usize = 0;
    while i < n
        invariant
            n == orig.len(),
            i <= n,
            rev@.len() == n - i,
            forall|k: int| 0 <= k < rev@.len() ==> #[trigger] rev@[k] == orig[n - 1 - k],
            out@ == shown_groups(orig, i as nat),
            forall|k: int| 0 <= k < out@.len() ==> (#[trigger] out@[k]).files@.len() >= 2,
        decreases n - i,
    {
        let g = rev.pop().unwrap();
        assert(g == orig[i as int]);
        if g.files.len() >= 2 {
            out.push(g);
        }
        i = i + 1;
    }
    out
}

pub open spec fn project_not_found() -> Seq<char> {
    "Project not found"@
}

pub open spec fn target_not_set() -> Seq<char> {
    "Target directory not set"@
}

/// The project, or the answer that it does not exist.
pub fn require_project(project: Option<Project>) -> (r: Result<Project, String>)
    ensures
        match project {
            Some(p) => r == Ok::<Project, String>(p),
            None => r matches Err(msg) && msg@ == project_not_found(),
        },
{
    match project {
        Some(p) => Ok(p),
        None => Err("Project not found".to_string()),
    }
}

/// The project with its folders, or the answer naming the project that does
/// not exist.
pub fn require_project_detail(detail: Option<ProjectDetail>, project_id: &str) -> (r: Result<ProjectDetail, String>)
    ensures
        match detail {
            Some(d) => r == Ok::<ProjectDetail, String>(d),
            None => r matches Err(msg) && msg@ == project_not_found() + ": "@ + project_id@,
        },
{
    match detail {
        Some(d) => Ok(d),
        None => {
            let mut cs = chars_of("Project not found: ");
            let id = chars_of(project_id);
            append_chars(&mut cs, id.as_slice());
            proof {
                reveal_strlit("Project not found: ");
                reveal_strlit("Project not found");
                reveal_strlit(": ");
            }
            assert(cs@ =~= project_not_found() + ": "@ + project_id@);
            Err(string_from_chars(cs.as_slice()))
        },
    }
}

/// The project's target folder, or the answer that none is set.
pub fn require_target_dir(project: &Project) -> (r: Result<String, String>)
    ensures
        match &project.target_dir {
            Some(t) => r matches Ok(d) && d@ == t@,
            None => r matches Err(msg) && msg@ == target_not_set(),
        },
{
    match &project.target_dir {
        Some(t) => Ok(t.clone()),
        None => Err("Target directory not set".to_string()),
    }
}

/// The result of a duplicate search over no pictures.
pub fn empty_dedup_result() -> (r: DedupResult)
    ensures
        r.total_target_images == 0,
        r.groups_found == 0,
        r.total_duplicates == 0,
        r.methods@.len() == 0,
        r.suspect_pairs_checked == 0,
        r.ai_confirmed == 0,
        r.timings@.len() == 0,
        r.total_duration_ms == 0,
{
    DedupResult {
        total_target_images: 0,
        groups_found: 0,
        total_duplicates: 0,
        methods: Vec::new(),
        suspect_pairs_checked: 0,
        ai_confirmed: 0,
        timings: Vec::new(),
        total_duration_ms: 0,
    }
}

} // verus!
