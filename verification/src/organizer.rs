//! Filing media into dated folders: reading the date of a timestamp,
//! expanding a folder pattern, and the per-file decisions of an organising
//! run (which files are skipped, where the others go, what is counted).

use vstd::prelude::*;
use crate::models::{FileRecord, OrganizeResult};
use crate::text::{
    append_chars, before_first, chars_of, replace_all, replace_all_chars, split_chars, split_on,
    string_from_chars,
};

verus! {

/// The date part of a timestamp: what precedes the first `T`, and of that
/// what precedes the first space.
pub open spec fn date_part(taken_at: Seq<char>) -> Seq<char> {
    split_on(split_on(taken_at, 'T')[0], ' ')[0]
}

/// The dash-separated fields of the date part.
pub open spec fn date_fields(taken_at: Seq<char>) -> Seq<Seq<char>> {
    split_on(date_part(taken_at), '-')
}

/// Year, month and day of a timestamp such as `2024-05-06T07:08:09` or
/// `2024-05-06 07:08:09`: the first three dash-separated fields of its date
/// part, when it has at least three.
pub fn parse_date_components(taken_at: &str) -> (r: Option<(String, String, String)>)
    ensures
        r is Some <==> date_fields(taken_at@).len() >= 3,
        r matches Some((y, m, d)) ==> y@ == date_fields(taken_at@)[0] && m@ == date_fields(taken_at@)[1] && d@
            == date_fields(taken_at@)[2],
{
    let cs = chars_of(taken_at);
    let before_t = before_first(cs.as_slice(), 'T');
    let date = before_first(before_t.as_slice(), ' ');
    let parts = split_chars(date.as_slice(), '-');
    if parts.len() >= 3 {
        let year = string_from_chars(parts[0].as_slice());
        let month = string_from_chars(parts[1].as_slice());
        let day = string_from_chars(parts[2].as_slice());
        Some((year, month, day))
    } else {
        None
    }
}

pub open spec fn year_token() -> Seq<char> {
    seq!['Y', 'Y', 'Y', 'Y']
}

pub open spec fn month_token() -> Seq<char> {
    seq!['M', 'M']
}

pub open spec fn day_token() -> Seq<char> {
    seq!['D', 'D']
}

/// A folder pattern with every `YYYY` replaced by the year, then every `MM`
/// by the month, then every `DD` by the day.
pub open spec fn spec_apply_pattern(pattern: Seq<char>, year: Seq<char>, month: Seq<char>, day: Seq<char>) -> Seq<
    char,
> {
    replace_all(replace_all(replace_all(pattern, year_token(), year), month_token(), month), day_token(), day)
}

/// Expands a folder pattern such as `YYYY/MM/DD` for a date.
pub fn apply_pattern(pattern: &str, year: &str, month: &str, day: &str) -> (r: String)
    ensures
        r@ == spec_apply_pattern(pattern@, year@, month@, day@),
{
    let p = chars_of(pattern);
    let y = chars_of(year);
    let m = chars_of(month);
    let d = chars_of(day);
    let yt = vec!['Y', 'Y', 'Y', 'Y'];
    let mt = vec!['M', 'M'];
    let dt = vec!['D', 'D'];
    assert(yt@ =~= year_token());
    assert(mt@ =~= month_token());
    assert(dt@ =~= day_token());
    let step1 = replace_all_chars(p.as_slice(), yt.as_slice(), y.as_slice());
    let step2 = replace_all_chars(step1.as_slice(), mt.as_slice(), m.as_slice());
    let step3 = replace_all_chars(step2.as_slice(), dt.as_slice(), d.as_slice());
    string_from_chars(step3.as_slice())
}

/// Whether a file of type `file_type` is among those chosen (no choice
/// means every type).
pub open spec fn type_chosen(file_types: Seq<Seq<char>>, file_type: Seq<char>) -> bool {
    file_types.len() == 0 || file_types.contains(file_type)
}

pub open spec fn string_views(v: Seq<String>) -> Seq<Seq<char>> {
    v.map_values(|s: String| s@)
}

/// The positions, among `files[0..k]`, of the files of a chosen type.
pub open spec fn chosen_upto(files: Seq<FileRecord>, file_types: Seq<Seq<char>>, k: nat) -> Seq<usize>
    decreases k,
{
    if k == 0 {
        Seq::empty()
    } else {
        let prev = chosen_upto(files, file_types, (k - 1) as nat);
        if type_chosen(file_types, files[k - 1].file_type@) {
            prev.push((k - 1) as usize)
        } else {
            prev
        }
    }
}

/// The positions of the files of a chosen type, in order.
pub fn select_files(files: &Vec<FileRecord>, file_types: &Vec<String>) -> (r: Vec<usize>)
    ensures
        r@ == chosen_upto(files@, string_views(file_types@), files@.len()),
{
    let ghost tv = string_views(file_types@);
    let mut r: Vec<usize> = Vec::new();
    let mut i: usize = 0;
    while i < files.len()
        invariant
            i <= files@.len(),
            tv == string_views(file_types@),
            r@ == chosen_upto(files@, tv, i as nat),
        decreases files@.len() - i,
    {
        let mut chosen = file_types.len() == 0;
        let mut k: usize = 0;
        while k < file_types.len() && !chosen
            invariant
                k <= file_types@.len(),
                tv == string_views(file_types@),
                (i as int) < files@.len(),
                chosen <==> (tv.len() == 0 || tv.take(k as int).contains(files@[i as int].file_type@)),
            decreases file_types@.len() - k,
        {
            proof {
                crate::clusters::lemma_contains_last(tv.take(k + 1));
                assert(tv.take(k + 1).drop_last() =~= tv.take(k as int));
            }
            assert(tv[k as int] == file_types@[k as int]@);
            if file_types[k] == files[i].file_type {
                chosen = true;
            }
            k = k + 1;
        }
        proof {
            if !chosen {
                assert(tv.take(k as int) =~= tv);
            } else if tv.len() > 0 {
                let j = choose|j: int| 0 <= j < tv.take(k as int).len() && tv.take(k as int)[j] == files@[i as int].file_type@;
                assert(tv[j] == files@[i as int].file_type@);
            }
        }
        if chosen {
            r.push(i);
        }
        i = i + 1;
    }
    r
}

/// What becomes of one file: skipped, or filed into the folder `sub_dir`
/// below the target.
pub enum FilePlan {
    Skip,
    Place { sub_dir: String },
}

/// The decisions and tallies of an organising run.
pub struct OrganizeRun {
    seen_md5: vstd::hash_set::StringHashSet,
    total: u64,
    processed: u64,
    success: u64,
    skipped: u64,
}

/// The MD5 texts of the target files that are on disk.
pub open spec fn present_md5s(existing: Seq<FileRecord>, on_disk: Seq<bool>, k: nat) -> Set<Seq<char>>
    decreases k,
{
    if k == 0 {
        Set::empty()
    } else {
        let prev = present_md5s(existing, on_disk, (k - 1) as nat);
        match existing[k - 1].md5 {
            Some(m) => if on_disk[k - 1] {
                prev.insert(m@)
            } else {
                prev
            },
            None => prev,
        }
    }
}

impl OrganizeRun {
    pub closed spec fn seen(&self) -> Set<Seq<char>> {
        self.seen_md5@
    }

    pub closed spec fn total(&self) -> u64 {
        self.total
    }

    pub closed spec fn processed(&self) -> u64 {
        self.processed
    }

    pub closed spec fn success(&self) -> u64 {
        self.success
    }

    pub closed spec fn skipped(&self) -> u64 {
        self.skipped
    }

    /// Every processed file was either filed or skipped, and no more files
    /// were processed than the run holds.
    pub open spec fn wf(&self) -> bool {
        &&& self.success() + self.skipped() == self.processed()
        &&& self.processed() <= self.total()
    }

    /// A run over `total` files, remembering the contents of the target
    /// files already on disk (`on_disk[i]` for `existing[i]`).
    pub fn new(total: u64, existing: &Vec<FileRecord>, on_disk: &Vec<bool>) -> (r: OrganizeRun)
        requires
            on_disk@.len() == existing@.len(),
        ensures
            r.wf(),
            r.total() == total,
            r.processed() == 0,
            r.success() == 0,
            r.skipped() == 0,
            r.seen() == present_md5s(existing@, on_disk@, existing@.len()),
    {
        let mut seen = vstd::hash_set::StringHashSet::new();
        let mut i: usize = 0;
        while i < existing.len()
            invariant
                i <= existing@.len(),
                on_disk@.len() == existing@.len(),
                seen@ == present_md5s(existing@, on_disk@, i as nat),
            decreases existing@.len() - i,
        {
            match &existing[i].md5 {
                Some(m) => {
                    if on_disk[i] {
                        seen.insert(m.clone());
                    }
                },
                None => {},
            }
            i = i + 1;
        }
        OrganizeRun { seen_md5: seen, total, processed: 0, success: 0, skipped: 0 }
    }

    /// Decides the fate of the next file. It is skipped when its source is
    /// gone, when a file with the same MD5 was met before (its MD5 is
    /// remembered either way), when it has no date, or when its date has no
    /// day; otherwise it goes to the folder the pattern gives for its date.
    /// A skip is counted at once; a placement is counted when its outcome is
    /// recorded.
    pub fn plan(&mut self, file: &FileRecord, source_exists: bool, pattern: &str) -> (r: FilePlan)
        requires
            old(self).wf(),
            old(self).processed() < old(self).total(),
        ensures
            final(self).wf(),
            final(self).total() == old(self).total(),
            final(self).success() == old(self).success(),
            final(self).seen() == (if source_exists {
                match file.md5 {
                    Some(m) => old(self).seen().insert(m@),
                    None => old(self).seen(),
                }
            } else {
                old(self).seen()
            }),
            ({
                let dup = match file.md5 {
                    Some(m) => old(self).seen().contains(m@),
                    None => false,
                };
                let placed = source_exists && !dup && match file.taken_at {
                    Some(t) => date_fields(t@).len() >= 3,
                    None => false,
                };
                &&& placed <==> r is Place
                &&& placed ==> final(self).processed() == old(self).processed() && final(self).skipped() == old(
                    self,
                ).skipped()
                &&& !placed ==> final(self).processed() == old(self).processed() + 1 && final(self).skipped()
                    == old(self).skipped() + 1
            }),
            r matches FilePlan::Place { sub_dir } ==> ({
                let f = date_fields(file.taken_at->0@);
                sub_dir@ == spec_apply_pattern(pattern@, f[0], f[1], f[2])
            }),
    {
        if !source_exists {
            self.skipped = self.skipped + 1;
            self.processed = self.processed + 1;
            return FilePlan::Skip;
        }
        match &file.md5 {
            Some(m) => {
                if !self.seen_md5.insert(m.clone()) {
                    self.skipped = self.skipped + 1;
                    self.processed = self.processed + 1;
                    return FilePlan::Skip;
                }
            },
            None => {},
        }
        let taken_at = match &file.taken_at {
            Some(t) => t,
            None => {
                self.skipped = self.skipped + 1;
                self.processed = self.processed + 1;
                return FilePlan::Skip;
            },
        };
        match parse_date_components(taken_at.as_str()) {
            Some((year, month, day)) => {
                let sub_dir = apply_pattern(pattern, year.as_str(), month.as_str(), day.as_str());
                FilePlan::Place { sub_dir }
            },
            None => {
                self.skipped = self.skipped + 1;
                self.processed = self.processed + 1;
                FilePlan::Skip
            },
        }
    }

    /// Counts a placed file whose folder could not be made as skipped.
    pub fn record_skip(&mut self)
        requires
            old(self).wf(),
            old(self).processed() < old(self).total(),
        ensures
            final(self).wf(),
            final(self).seen() == old(self).seen(),
            final(self).total() == old(self).total(),
            final(self).processed() == old(self).processed() + 1,
            final(self).success() == old(self).success(),
            final(self).skipped() == old(self).skipped() + 1,
    {
        self.skipped = self.skipped + 1;
        self.processed = self.processed + 1;
    }

    /// Counts a placed file as filed (`ok`) or skipped (the copy or move failed).
    pub fn record_transfer(&mut self, ok: bool)
        requires
            old(self).wf(),
            old(self).processed() < old(self).total(),
        ensures
            final(self).wf(),
            final(self).seen() == old(self).seen(),
            final(self).total() == old(self).total(),
            final(self).processed() == old(self).processed() + 1,
            final(self).success() == old(self).success() + if ok { 1int } else { 0int },
            final(self).skipped() == old(self).skipped() + if ok { 0int } else { 1int },
    {
        if ok {
            self.success = self.success + 1;
        } else {
            self.skipped = self.skipped + 1;
        }
        self.processed = self.processed + 1;
    }

    /// Whether progress is reported after this file: every fifth file, and
    /// the last.
    pub fn progress_due(&self) -> (r: bool)
        ensures
            r == (self.processed() % 5 == 0 || self.processed() == self.total()),
    {
        self.processed % 5 == 0 || self.processed == self.total
    }

    /// The number of files processed so far.
    pub fn processed_count(&self) -> (r: u64)
        ensures
            r == self.processed(),
    {
        self.processed
    }

    /// The tallies of the run.
    pub fn result(&self) -> (r: OrganizeResult)
        ensures
            r.total == self.total(),
            r.success == self.success(),
            r.skipped == self.skipped(),
    {
        OrganizeResult { total: self.total, success: self.success, skipped: self.skipped }
    }
}

/// The name tried when a file name is taken: `stem_suffix.ext`, or
/// `stem_suffix` for a name without extension.
pub open spec fn spec_conflict_name(stem: Seq<char>, ext: Seq<char>, suffix: Seq<char>) -> Seq<char> {
    if ext.len() == 0 {
        stem + seq!['_'] + suffix
    } else {
        stem + seq!['_'] + suffix + seq!['.'] + ext
    }
}

/// A new name for a file whose name is taken in the destination.
pub fn conflict_name(stem: &str, ext: &str, suffix: &str) -> (r: String)
    ensures
        r@ == spec_conflict_name(stem@, ext@, suffix@),
{
    let mut out = chars_of(stem);
    out.push('_');
    let s = chars_of(suffix);
    append_chars(&mut out, s.as_slice());
    let e = chars_of(ext);
    if e.len() > 0 {
        out.push('.');
        append_chars(&mut out, e.as_slice());
    }
    string_from_chars(out.as_slice())
}

/// The first six characters of a random token, used as a name suffix.
pub fn conflict_suffix(token: &str) -> (r: String)
    requires
        token@.len() >= 6,
    ensures
        r@ == token@.take(6),
{
    let cs = chars_of(token);
    let mut out: Vec<char> = Vec::new();
    let mut i: usize = 0;
    while i < 6
        invariant
            i <= 6,
            cs@.len() >= 6,
            out@ == cs@.take(i as int),
        decreases 6 - i,
    {
        out.push(cs[i]);
        assert(cs@.take(i as int).push(cs@[i as int]) =~= cs@.take(i + 1));
        i = i + 1;
    }
    string_from_chars(out.as_slice())
}

/// A new name for a file whose name is taken, with a fresh random suffix of
/// six lower-case hexadecimal digits.
pub fn fresh_conflict_name(stem: &str, ext: &str) -> (r: String)
    ensures
        exists|suffix: Seq<char>|
            suffix.len() == 6 && crate::text::all_lower_hex(suffix) && r@ == spec_conflict_name(stem@, ext@, suffix),
{
    let suffix = crate::ids::random_suffix();
    let r = conflict_name(stem, ext, suffix.as_str());
    assert(suffix@.len() == 6 && crate::text::all_lower_hex(suffix@) && r@ == spec_conflict_name(stem@, ext@, suffix@));
    r
}

/// The files an organising run takes (`select_files`): the positions, in
/// increasing order, of exactly those files whose type equals one of the
/// chosen types, or of every file when no type is chosen.
pub proof fn lemma_selected_files(files: Seq<FileRecord>, file_types: Seq<String>)
    requires
        files.len() <= usize::MAX,
    ensures
        forall|a: int, b: int|
            0 <= a < b < chosen_upto(files, string_views(file_types), files.len()).len() ==> #[trigger] chosen_upto(
                files,
                string_views(file_types),
                files.len(),
            )[a] < #[trigger] chosen_upto(files, string_views(file_types), files.len())[b],
        forall|k: int|
            #![trigger files[k]]
            0 <= k < files.len() ==> (chosen_upto(files, string_views(file_types), files.len()).contains(k as usize) <==> (
            file_types.len() == 0 || exists|j: int| 0 <= j < file_types.len() && #[trigger] file_types[j]@ == files[k].file_type@)),
        forall|i: int|
            0 <= i < chosen_upto(files, string_views(file_types), files.len()).len() ==> (#[trigger] chosen_upto(
                files,
                string_views(file_types),
                files.len(),
            )[i] as int) < files.len(),
{
    lemma_chosen_upto_facts(files, string_views(file_types), files.len());
    let tv = string_views(file_types);
    assert forall|k: int| #![trigger files[k]] 0 <= k < files.len() implies (chosen_upto(files, tv, files.len()).contains(k as usize) <==> (
    file_types.len() == 0 || exists|j: int| 0 <= j < file_types.len() && #[trigger] file_types[j]@ == files[k].file_type@)) by {
        if tv.contains(files[k].file_type@) {
            let j = choose|j: int| 0 <= j < tv.len() && tv[j] == files[k].file_type@;
            assert(file_types[j]@ == files[k].file_type@);
        }
        if exists|j: int| 0 <= j < file_types.len() && #[trigger] file_types[j]@ == files[k].file_type@ {
            let j = choose|j: int| 0 <= j < file_types.len() && #[trigger] file_types[j]@ == files[k].file_type@;
            assert(tv[j] == files[k].file_type@);
        }
    }
}

proof fn lemma_chosen_upto_facts(files: Seq<FileRecord>, tv: Seq<Seq<char>>, n: nat)
    requires
        n <= files.len(),
        files.len() <= usize::MAX + 1,
    ensures
        forall|a: int, b: int|
            0 <= a < b < chosen_upto(files, tv, n).len() ==> #[trigger] chosen_upto(files, tv, n)[a]
                < #[trigger] chosen_upto(files, tv, n)[b],
        forall|i: int| 0 <= i < chosen_upto(files, tv, n).len() ==> (#[trigger] chosen_upto(files, tv, n)[i] as int) < n,
        forall|k: int|
            0 <= k < n ==> (chosen_upto(files, tv, n).contains(k as usize) <==> type_chosen(tv, #[trigger] files[k].file_type@)),
    decreases n,
{
    if n > 0 {
        let m = (n - 1) as nat;
        lemma_chosen_upto_facts(files, tv, m);
        let prev = chosen_upto(files, tv, m);
        crate::clusters::lemma_contains_push(prev, m as usize);
        if type_chosen(tv, files[m as int].file_type@) {
            let cur = prev.push(m as usize);
            assert(chosen_upto(files, tv, n) == cur);
            assert forall|a: int, b: int| 0 <= a < b < cur.len() implies #[trigger] cur[a] < #[trigger] cur[b] by {
                if b < prev.len() {
                    assert(cur[a] == prev[a]);
                    assert(cur[b] == prev[b]);
                } else {
                    assert(cur[a] == prev[a]);
                }
            }
            assert forall|i: int| 0 <= i < cur.len() implies (#[trigger] cur[i] as int) < n by {
                if i < prev.len() {
                    assert(cur[i] == prev[i]);
                }
            }
            assert forall|k: int| 0 <= k < n implies (cur.contains(k as usize) <==> type_chosen(
                tv,
                #[trigger] files[k].file_type@,
            )) by {
                if k < m {
                    if prev.contains(k as usize) {
                    }
                }
            }
        } else {
            assert(chosen_upto(files, tv, n) == prev);
            assert forall|k: int| 0 <= k < n implies (prev.contains(k as usize) <==> type_chosen(
                tv,
                #[trigger] files[k].file_type@,
            )) by {
                if k == m {
                    if prev.contains(k as usize) {
                        let i = choose|i: int| 0 <= i < prev.len() && prev[i] == k as usize;
                    }
                }
            }
        }
    }
}

} // verus!
