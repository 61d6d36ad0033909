//! What a scan learns of one media file: its kind by extension, its capture
//! date from EXIF data, its perceptual hash and MD5, and the tallies of a
//! scan over many paths.

use vstd::prelude::*;
use crate::models::{FileRecord, ScanProgress, ScanResult};
use crate::text::{
    chars_of, chars_equal, lowercase_of, replace_first, replace_first_chars, string_from_chars, to_lowercase, trim,
    trim_chars,
};

verus! {

/// The kinds of media a scan files.
#[derive(Clone, Copy, Debug, PartialEq, Eq, Structural)]
pub enum MediaKind {
    Image,
    Video,
    Audio,
}

pub open spec fn image_extensions() -> Seq<Seq<char>> {
    seq![
        seq!['j', 'p', 'g'],
        seq!['j', 'p', 'e', 'g'],
        seq!['p', 'n', 'g'],
        seq!['h', 'e', 'i', 'c'],
        seq!['w', 'e', 'b', 'p'],
        seq!['b', 'm', 'p'],
        seq!['t', 'i', 'f', 'f'],
        seq!['t', 'i', 'f'],
    ]
}

pub open spec fn video_extensions() -> Seq<Seq<char>> {
    seq![
        seq!['m', 'p', '4'],
        seq!['m', 'o', 'v'],
        seq!['a', 'v', 'i'],
        seq!['m', 'k', 'v'],
        seq!['w', 'm', 'v'],
        seq!['f', 'l', 'v'],
        seq!['w', 'e', 'b', 'm'],
    ]
}

pub open spec fn audio_extensions() -> Seq<Seq<char>> {
    seq![
        seq!['m', 'p', '3'],
        seq!['w', 'a', 'v'],
        seq!['f', 'l', 'a', 'c'],
        seq!['a', 'a', 'c'],
        seq!['o', 'g', 'g'],
        seq!['w', 'm', 'a'],
        seq!['m', '4', 'a'],
    ]
}

/// The kind of a lower-case extension, if it is one the scan knows.
pub open spec fn kind_of_extension(e: Seq<char>) -> Option<MediaKind> {
    if image_extensions().contains(e) {
        Some(MediaKind::Image)
    } else if video_extensions().contains(e) {
        Some(MediaKind::Video)
    } else if audio_extensions().contains(e) {
        Some(MediaKind::Audio)
    } else {
        None
    }
}

impl MediaKind {
    /// The name under which files of this kind are recorded.
    pub open spec fn name(self) -> Seq<char> {
        match self {
            MediaKind::Image => seq!['i', 'm', 'a', 'g', 'e'],
            MediaKind::Video => seq!['v', 'i', 'd', 'e', 'o'],
            MediaKind::Audio => seq!['a', 'u', 'd', 'i', 'o'],
        }
    }

    /// The name under which files of this kind are recorded.
    pub fn as_str(&self) -> (r: &'static str)
        ensures
            r@ == self.name(),
    {
        proof {
            reveal_strlit("image");
            reveal_strlit("video");
            reveal_strlit("audio");
        }
        match self {
            MediaKind::Image => "image",
            MediaKind::Video => "video",
            MediaKind::Audio => "audio",
        }
    }
}

pub open spec fn views_of(list: Seq<Vec<char>>) -> Seq<Seq<char>> {
    list.map_values(|v: Vec<char>| v@)
}

fn extension_list(kind: MediaKind) -> (r: Vec<Vec<char>>)
    ensures
        views_of(r@) == match kind {
            MediaKind::Image => image_extensions(),
            MediaKind::Video => video_extensions(),
            MediaKind::Audio => audio_extensions(),
        },
{
    let r = match kind {
        MediaKind::Image => vec![
            vec!['j', 'p', 'g'],
            vec!['j', 'p', 'e', 'g'],
            vec!['p', 'n', 'g'],
            vec!['h', 'e', 'i', 'c'],
            vec!['w', 'e', 'b', 'p'],
            vec!['b', 'm', 'p'],
            vec!['t', 'i', 'f', 'f'],
            vec!['t', 'i', 'f'],
        ],
        MediaKind::Video => vec![
            vec!['m', 'p', '4'],
            vec!['m', 'o', 'v'],
            vec!['a', 'v', 'i'],
            vec!['m', 'k', 'v'],
            vec!['w', 'm', 'v'],
            vec!['f', 'l', 'v'],
            vec!['w', 'e', 'b', 'm'],
        ],
        MediaKind::Audio => vec![
            vec!['m', 'p', '3'],
            vec!['w', 'a', 'v'],
            vec!['f', 'l', 'a', 'c'],
            vec!['a', 'a', 'c'],
            vec!['o', 'g', 'g'],
            vec!['w', 'm', 'a'],
            vec!['m', '4', 'a'],
        ],
    };
    assert(views_of(r@) =~= match kind {
        MediaKind::Image => image_extensions(),
        MediaKind::Video => video_extensions(),
        MediaKind::Audio => audio_extensions(),
    });
    r
}

/// Whether `e` is one of the texts of `list`.
fn is_listed(list: &Vec<Vec<char>>, e: &[char]) -> (r: bool)
    ensures
        r == views_of(list@).contains(e@),
{
    let ghost vs = views_of(list@);
    let mut k: usize = 0;
    while k < list.len()
        invariant
            k <= list@.len(),
            vs == views_of(list@),
            !vs.take(k as int).contains(e@),
        decreases list@.len() - k,
    {
        assert(vs[k as int] == list@[k as int]@);
        if chars_equal(list[k].as_slice(), e) {
            assert(vs[k as int] == e@);
            return true;
        }
        proof {
            crate::clusters::lemma_contains_last(vs.take(k + 1));
            assert(vs.take(k + 1).drop_last() =~= vs.take(k as int));
        }
        k = k + 1;
    }
    assert(vs.take(k as int) =~= vs);
    false
}

/// The kind of an extension that is already lower case.
pub fn classify_lowercase_extension(ext: &str) -> (r: Option<MediaKind>)
    ensures
        r == kind_of_extension(ext@),
{
    let e = chars_of(ext);
    let images = extension_list(MediaKind::Image);
    let videos = extension_list(MediaKind::Video);
    let audios = extension_list(MediaKind::Audio);
    if is_listed(&images, e.as_slice()) {
        Some(MediaKind::Image)
    } else if is_listed(&videos, e.as_slice()) {
        Some(MediaKind::Video)
    } else if is_listed(&audios, e.as_slice()) {
        Some(MediaKind::Audio)
    } else {
        None
    }
}

/// The kind of a file by its extension, in any case: `"image"`, `"video"`
/// or `"audio"`, or nothing for an extension the scan does not know.
pub fn classify_extension(ext: &str) -> (r: Option<&'static str>)
    ensures
        r is Some <==> kind_of_extension(lowercase_of(ext@)) is Some,
        r matches Some(name) ==> name@ == kind_of_extension(lowercase_of(ext@))->0.name(),
{
    let lower = to_lowercase(ext);
    match classify_lowercase_extension(lower.as_str()) {
        Some(kind) => Some(kind.as_str()),
        None => None,
    }
}

/// The EXIF entries `rexif` reads from the bytes of an image, each as its
/// tag code and its readable value, or nothing when the bytes hold no EXIF
/// data it can parse.
pub uninterp spec fn exif_entries_of(bytes: Seq<u8>) -> Option<Seq<(u32, Seq<char>)>>;

pub open spec fn entry_views(entries: Seq<(u32, String)>) -> Seq<(u32, Seq<char>)> {
    entries.map_values(|e: (u32, String)| (e.0, e.1@))
}

/// `rexif::parse_buffer_quiet`: the EXIF entries of `bytes`, each as the
/// code of its `ExifTag` and its `value_more_readable` text, under the name
/// `exif_entries_of`; nothing when the parse fails.
#[verifier::external_body]
fn read_exif_entries(bytes: &[u8]) -> (r: Option<Vec<(u32, String)>>)
    ensures
        exif_entries_of(bytes@) == match r {
            Some(v) => Some(entry_views(v@)),
            None => None,
        },
{
    match rexif::parse_buffer_quiet(bytes).0 {
        Ok(exif) => Some(exif.entries.iter().map(|e| (e.tag as u32, e.value_more_readable.to_string())).collect()),
        Err(_) => None,
    }
}

/// The tag codes of the original capture time and of the file change time.
pub open spec fn is_date_tag(tag: u32) -> bool {
    tag == 0x9003 || tag == 0x0132
}

/// The placeholder some cameras write for an unknown date.
pub open spec fn zero_date() -> Seq<char> {
    seq!['0', '0', '0', '0', ':', '0', '0', ':', '0', '0', ' ', '0', '0', ':', '0', '0', ':', '0', '0']
}

/// An EXIF date `YYYY:MM:DD HH:MM:SS` in ISO form `YYYY-MM-DDTHH:MM:SS`: the
/// first two colons become dashes, then the first space a `T`.
pub open spec fn normalize_exif_date(v: Seq<char>) -> Seq<char> {
    replace_first(replace_first(v, ':', '-', 2), ' ', 'T', 1)
}

/// The date of the first date entry whose trimmed value is neither empty
/// nor the placeholder, normalised.
pub open spec fn exif_date_in(entries: Seq<(u32, Seq<char>)>) -> Option<Seq<char>>
    decreases entries.len(),
{
    if entries.len() == 0 {
        None
    } else {
        let v = trim(entries[0].1);
        if is_date_tag(entries[0].0) && v.len() > 0 && v != zero_date() {
            Some(normalize_exif_date(v))
        } else {
            exif_date_in(entries.skip(1))
        }
    }
}

/// The capture date among EXIF entries.
pub fn date_from_exif_entries(entries: &Vec<(u32, String)>) -> (r: Option<String>)
    ensures
        match r {
            Some(d) => exif_date_in(entry_views(entries@)) == Some(d@),
            None => exif_date_in(entry_views(entries@)) is None,
        },
{
    let ghost es = entry_views(entries@);
    let zero = vec!['0', '0', '0', '0', ':', '0', '0', ':', '0', '0', ' ', '0', '0', ':', '0', '0', ':', '0', '0'];
    assert(zero@ =~= zero_date());
    let mut k: usize = 0;
    assert(es.skip(0) =~= es);
    while k < entries.len()
        invariant
            k <= entries@.len(),
            es == entry_views(entries@),
            zero@ == zero_date(),
            exif_date_in(es.skip(k as int)) == exif_date_in(es),
        decreases entries@.len() - k,
    {
        let ghost rest = es.skip(k as int);
        assert(rest[0] == (entries@[k as int].0, entries@[k as int].1@));
        assert(rest.skip(1) =~= es.skip(k + 1));
        let tag = entries[k].0;
        let cs = chars_of(entries[k].1.as_str());
        let v = trim_chars(cs.as_slice());
        if (tag == 0x9003 || tag == 0x0132) && v.len() > 0 && !chars_equal(v.as_slice(), zero.as_slice()) {
            let dashed = replace_first_chars(v.as_slice(), ':', '-', 2);
            let iso = replace_first_chars(dashed.as_slice(), ' ', 'T', 1);
            return Some(string_from_chars(iso.as_slice()));
        }
        k = k + 1;
    }
    None
}

/// The capture date the EXIF data of `bytes` records, if any.
pub open spec fn exif_date_of(bytes: Seq<u8>) -> Option<Seq<char>> {
    match exif_entries_of(bytes) {
        Some(es) => exif_date_in(es),
        None => None,
    }
}

/// The capture date recorded in the EXIF data at the start of an image
/// file, as `YYYY-MM-DDTHH:MM:SS`.
pub fn exif_date(bytes: &[u8]) -> (r: Option<String>)
    ensures
        opt_view(r) == exif_date_of(bytes@),
{
    match read_exif_entries(bytes) {
        Some(entries) => date_from_exif_entries(&entries),
        None => None,
    }
}

/// Whether `image` decodes the bytes as a picture in the format that the
/// file extension `ext` names.
pub uninterp spec fn image_decodes(bytes: Seq<u8>, ext: Seq<char>) -> bool;

/// The bytes of the 8 by 8 gradient hash that `image_hasher` computes for
/// the picture `image` decodes from `encoded` in the format `ext` names.
pub uninterp spec fn gradient_hash_of(encoded: Seq<u8>, ext: Seq<char>) -> Seq<u8>;

/// `image::ImageFormat::from_extension` and an `image::ImageReader` over the
/// bytes in that format (without a format when the extension names none, as
/// `image::open` does for such a path), decoded; then `image_hasher`'s
/// `Hasher::hash_image` under an 8 by 8 gradient configuration: the hash
/// bytes, named `gradient_hash_of`, eight of them (64 comparisons of
/// neighbouring pixels of a 9 by 8 grey thumbnail, packed eight to a byte);
/// nothing when the bytes do not decode (`image_decodes`).
#[verifier::external_body]
fn gradient_hash_encoded(bytes: &[u8], ext: &str) -> (r: Option<Vec<u8>>)
    ensures
        r is Some <==> image_decodes(bytes@, ext@),
        r matches Some(h) ==> h@ == gradient_hash_of(bytes@, ext@) && h@.len() == 8,
{
    let reader = match image::ImageFormat::from_extension(ext) {
        Some(format) => image::ImageReader::with_format(std::io::Cursor::new(bytes), format),
        None => image::ImageReader::new(std::io::Cursor::new(bytes)),
    };
    match reader.decode() {
        Ok(img) => {
            let config = image_hasher::HasherConfig::new().hash_size(8, 8).hash_alg(image_hasher::HashAlg::Gradient);
            Some(config.to_hasher().hash_image(&img).as_bytes().to_vec())
        },
        Err(_) => None,
    }
}

/// The first `k` bytes of `b` read as a big-endian number.
pub open spec fn be_value(b: Seq<u8>, k: nat) -> nat
    decreases k,
{
    if k == 0 {
        0
    } else {
        be_value(b, (k - 1) as nat) * 256 + b[k - 1] as nat
    }
}

pub open spec fn pow256(k: nat) -> nat
    decreases k,
{
    if k == 0 {
        1
    } else {
        pow256((k - 1) as nat) * 256
    }
}

/// The perceptual hash of a picture from its hash bytes: the first eight
/// bytes read as a big-endian signed 64-bit number, when there are eight.
pub open spec fn phash_from_bytes(b: Seq<u8>) -> Option<i64> {
    if b.len() >= 8 {
        Some(be_value(b, 8) as i64)
    } else {
        None
    }
}

/// The perceptual hash from the hash bytes.
pub fn hash_bytes_to_phash(bytes: &[u8]) -> (r: Option<i64>)
    ensures
        r == phash_from_bytes(bytes@),
{
    if bytes.len() < 8 {
        return None;
    }
    let mut acc: u64 = 0;
    let mut k: usize = 0;
    while k < 8
        invariant
            bytes@.len() >= 8,
            k <= 8,
            acc == be_value(bytes@, k as nat),
            acc < pow256(k as nat),
        decreases 8 - k,
    {
        let b = bytes[k];
        proof {
            let a = acc as int;
            let p = pow256(k as nat) as int;
            assert(a * 256 + b as int <= (p - 1) * 256 + 255) by (nonlinear_arith)
                requires
                    a < p,
                    0 <= b < 256,
            ;
            assert(pow256(8) == 0x1_0000_0000_0000_0000nat) by {
                reveal_with_fuel(pow256, 9);
            }
            if k < 7 {
                lemma_pow256_monotone((k + 1) as nat, 8);
            }
        }
        acc = acc * 256 + b as u64;
        k = k + 1;
    }
    Some(acc as i64)
}

proof fn lemma_pow256_monotone(a: nat, b: nat)
    requires
        a <= b,
    ensures
        pow256(a) <= pow256(b),
    decreases b,
{
    if a < b {
        lemma_pow256_monotone(a, (b - 1) as nat);
    }
}

/// The perceptual hash of an encoded picture in the format its file
/// extension `ext` names: its gradient hash read as a signed 64-bit number,
/// when it decodes.
pub open spec fn phash_of_encoded(encoded: Seq<u8>, ext: Seq<char>) -> Option<i64> {
    if image_decodes(encoded, ext) {
        phash_from_bytes(gradient_hash_of(encoded, ext))
    } else {
        None
    }
}

/// The perceptual hash of an encoded picture (an 8 by 8 gradient hash as a
/// signed 64-bit number), decoded in the format its file extension `ext`
/// names; nothing exactly when the picture cannot be decoded so.
pub fn compute_phash(encoded: &[u8], ext: &str) -> (r: Option<i64>)
    ensures
        r == phash_of_encoded(encoded@, ext@),
        r is Some <==> image_decodes(encoded@, ext@),
{
    match gradient_hash_encoded(encoded, ext) {
        Some(bytes) => hash_bytes_to_phash(bytes.as_slice()),
        None => None,
    }
}

/// The MD5 digest of a byte string.
pub uninterp spec fn md5_of(bytes: Seq<u8>) -> Seq<u8>;

/// `md5::Md5::digest`: the 16-byte MD5 digest of `bytes`, under the name
/// `md5_of`.
#[verifier::external_body]
fn md5_digest(bytes: &[u8]) -> (r: Vec<u8>)
    ensures
        r@ == md5_of(bytes@),
        r@.len() == 16,
{
    <md5::Md5 as md5::Digest>::digest(bytes).to_vec()
}

/// The lower-case hexadecimal digit for `d < 16`.
pub open spec fn hex_digit(d: nat) -> char {
    if d < 10 {
        (('0' as nat) + d) as char
    } else {
        (('a' as nat) + d - 10) as char
    }
}

/// Two lower-case hexadecimal digits per byte, high half first.
pub open spec fn hex_lower(b: Seq<u8>) -> Seq<char>
    decreases b.len(),
{
    if b.len() == 0 {
        Seq::empty()
    } else {
        hex_lower(b.drop_last()) + seq![hex_digit(b.last() as nat / 16), hex_digit(b.last() as nat % 16)]
    }
}

fn hex_digit_char(d: u8) -> (r: char)
    requires
        d < 16,
    ensures
        r == hex_digit(d as nat),
{
    if d < 10 {
        (('0' as u8) + d) as char
    } else {
        (('a' as u8) + d - 10) as char
    }
}

/// The bytes as lower-case hexadecimal text.
pub fn to_hex(bytes: &[u8]) -> (r: String)
    ensures
        r@ == hex_lower(bytes@),
{
    let mut out: Vec<char> = Vec::new();
    let mut k: usize = 0;
    while k < bytes.len()
        invariant
            k <= bytes@.len(),
            out@ == hex_lower(bytes@.take(k as int)),
        decreases bytes@.len() - k,
    {
        let b = bytes[k];
        out.push(hex_digit_char(b / 16));
        out.push(hex_digit_char(b % 16));
        assert(bytes@.take(k + 1).drop_last() =~= bytes@.take(k as int));
        k = k + 1;
    }
    assert(bytes@.take(bytes@.len() as int) =~= bytes@);
    string_from_chars(out.as_slice())
}

/// The MD5 of a file's contents as 32 lower-case hexadecimal digits.
pub fn compute_md5(contents: &[u8]) -> (r: String)
    ensures
        r@ == hex_lower(md5_of(contents@)),
{
    let digest = md5_digest(contents);
    to_hex(digest.as_slice())
}

/// The RFC 3339 text of the UTC date and time `secs` seconds and `nanos`
/// nanoseconds after the Unix epoch, when `chrono` can represent it.
pub uninterp spec fn utc_rfc3339_of(secs: i64, nanos: u32) -> Option<Seq<char>>;

/// `chrono::DateTime::<Utc>::from_timestamp` followed by `to_rfc3339`: the
/// RFC 3339 text of a Unix timestamp in UTC, under the name
/// `utc_rfc3339_of`; nothing when `chrono` cannot represent the instant.
#[verifier::external_body]
fn utc_rfc3339(secs: i64, nanos: u32) -> (r: Option<String>)
    ensures
        utc_rfc3339_of(secs, nanos) == match r {
            Some(t) => Some(t@),
            None => None,
        },
{
    match chrono::DateTime::<chrono::Utc>::from_timestamp(secs, nanos) {
        Some(dt) => Some(dt.to_rfc3339()),
        None => None,
    }
}

pub open spec fn opt_view(o: Option<String>) -> Option<Seq<char>> {
    match o {
        Some(s) => Some(s@),
        None => None,
    }
}

/// The date a file is filed under when it has no EXIF date: its
/// modification time, else its creation time (each as seconds and
/// nanoseconds since the Unix epoch), as RFC 3339 text in UTC.
pub fn file_date(modified: Option<(i64, u32)>, created: Option<(i64, u32)>) -> (r: Option<String>)
    ensures
        opt_view(r) == match modified {
            Some(t) => utc_rfc3339_of(t.0, t.1),
            None => match created {
                Some(t) => utc_rfc3339_of(t.0, t.1),
                None => None,
            },
        },
{
    match modified {
        Some(t) => utc_rfc3339(t.0, t.1),
        None => match created {
            Some(t) => utc_rfc3339(t.0, t.1),
            None => None,
        },
    }
}

/// The kind of a path's extension, if it has one the scan knows.
pub open spec fn kind_of_path(ext: Option<Seq<char>>) -> Option<MediaKind> {
    match ext {
        Some(e) => kind_of_extension(lowercase_of(e)),
        None => None,
    }
}

pub open spec fn ext_views(exts: Seq<Option<String>>) -> Seq<Option<Seq<char>>> {
    exts.map_values(|o: Option<String>| opt_view(o))
}

/// How many of the first `k` extensions are of kind `kind`.
pub open spec fn count_kind(exts: Seq<Option<Seq<char>>>, kind: MediaKind, k: nat) -> nat
    decreases k,
{
    if k == 0 {
        0
    } else {
        count_kind(exts, kind, (k - 1) as nat) + if kind_of_path(exts[k - 1]) == Some(kind) {
            1nat
        } else {
            0nat
        }
    }
}

/// The positions, among the first `k` paths, of those not already known.
pub open spec fn new_positions(paths: Seq<Seq<char>>, known: Set<Seq<char>>, k: nat) -> Seq<usize>
    decreases k,
{
    if k == 0 {
        Seq::empty()
    } else {
        let prev = new_positions(paths, known, (k - 1) as nat);
        if known.contains(paths[k - 1]) {
            prev
        } else {
            prev.push((k - 1) as usize)
        }
    }
}

/// The paths at the given positions.
pub open spec fn paths_at(paths: Seq<Seq<char>>, positions: Seq<usize>) -> Set<Seq<char>> {
    positions.map_values(|i: usize| paths[i as int]).to_set()
}

proof fn lemma_new_positions_member(paths: Seq<Seq<char>>, known: Set<Seq<char>>, k: nat, i: int)
    requires
        k <= paths.len(),
        paths.len() <= usize::MAX,
        0 <= i < k,
        !known.contains(paths[i]),
    ensures
        new_positions(paths, known, k).contains(i as usize),
    decreases k,
{
    let prev = new_positions(paths, known, (k - 1) as nat);
    if i < k - 1 {
        lemma_new_positions_member(paths, known, (k - 1) as nat, i);
        let j = choose|j: int| 0 <= j < prev.len() && prev[j] == i as usize;
        if !known.contains(paths[k - 1]) {
            assert(prev.push((k - 1) as usize)[j] == i as usize);
        }
    } else {
        assert(prev.push((k - 1) as usize)[prev.len() as int] == i as usize);
    }
}

proof fn lemma_new_positions_none(paths: Seq<Seq<char>>, known: Set<Seq<char>>, k: nat)
    requires
        k <= paths.len(),
        forall|i: int| 0 <= i < k ==> known.contains(#[trigger] paths[i]),
    ensures
        new_positions(paths, known, k).len() == 0,
    decreases k,
{
    if k > 0 {
        lemma_new_positions_none(paths, known, (k - 1) as nat);
    }
}

/// A second scan of the same paths, once the paths the first scan found new
/// are recorded, finds nothing new; its tallies, which depend on the paths
/// alone (`plan_scan`), are the same.
pub proof fn lemma_rescan_finds_nothing_new(paths: Seq<Seq<char>>, known: Set<Seq<char>>)
    requires
        paths.len() <= usize::MAX,
    ensures
        new_positions(
            paths,
            known.union(paths_at(paths, new_positions(paths, known, paths.len()))),
            paths.len(),
        ).len() == 0,
{
    let fresh = new_positions(paths, known, paths.len());
    let added = paths_at(paths, fresh);
    assert forall|i: int| 0 <= i < paths.len() implies known.union(added).contains(#[trigger] paths[i]) by {
        if !known.contains(paths[i]) {
            lemma_new_positions_member(paths, known, paths.len(), i);
            let j = choose|j: int| 0 <= j < fresh.len() && fresh[j] == i as usize;
            assert(fresh.map_values(|x: usize| paths[x as int])[j] == paths[i]);
            assert(fresh.map_values(|x: usize| paths[x as int]).contains(paths[i]));
        }
    }
    lemma_new_positions_none(paths, known.union(added), paths.len());
}

pub open spec fn path_views(v: Seq<String>) -> Seq<Seq<char>> {
    v.map_values(|s: String| s@)
}

proof fn lemma_count_kind_le(exts: Seq<Option<Seq<char>>>, kind: MediaKind, k: nat)
    ensures
        count_kind(exts, kind, k) <= k,
    decreases k,
{
    if k > 0 {
        lemma_count_kind_le(exts, kind, (k - 1) as nat);
    }
}

/// The first step of a scan: the paths found by kind (`extensions[i]` is
/// the extension of `paths[i]`, if it has one), and the positions of the
/// paths the project does not hold yet (`existing`), in order.
pub fn plan_scan(paths: &Vec<String>, extensions: &Vec<Option<String>>, existing: &Vec<String>) -> (r: (
    ScanResult,
    Vec<usize>,
))
    requires
        extensions@.len() == paths@.len(),
    ensures
        r.0.total_files == paths@.len(),
        r.0.images == count_kind(ext_views(extensions@), MediaKind::Image, paths@.len()),
        r.0.videos == count_kind(ext_views(extensions@), MediaKind::Video, paths@.len()),
        r.0.audios == count_kind(ext_views(extensions@), MediaKind::Audio, paths@.len()),
        r.1@ == new_positions(path_views(paths@), path_views(existing@).to_set(), paths@.len()),
{
    let ghost ev = ext_views(extensions@);
    let ghost pv = path_views(paths@);
    let ghost known = path_views(existing@).to_set();
    let mut seen = vstd::hash_set::StringHashSet::new();
    let mut q: usize = 0;
    while q < existing.len()
        invariant
            q <= existing@.len(),
            forall|t: Seq<char>| #[trigger] seen@.contains(t) <==> path_views(existing@).take(q as int).contains(t),
        decreases existing@.len() - q,
    {
        proof {
            let vs = path_views(existing@);
            crate::clusters::lemma_contains_last(vs.take(q + 1));
            assert(vs.take(q + 1).drop_last() =~= vs.take(q as int));
            assert(vs.take(q + 1).last() == existing@[q as int]@);
        }
        seen.insert(existing[q].clone());
        q = q + 1;
    }
    assert(path_views(existing@).take(existing@.len() as int) =~= path_views(existing@));
    let mut images: u64 = 0;
    let mut videos: u64 = 0;
    let mut audios: u64 = 0;
    let mut fresh: Vec<usize> = Vec::new();
    let mut i: usize = 0;
    while i < paths.len()
        invariant
            i <= paths@.len(),
            extensions@.len() == paths@.len(),
            ev == ext_views(extensions@),
            pv == path_views(paths@),
            known == path_views(existing@).to_set(),
            forall|t: Seq<char>| #[trigger] seen@.contains(t) <==> known.contains(t),
            images == count_kind(ev, MediaKind::Image, i as nat),
            videos == count_kind(ev, MediaKind::Video, i as nat),
            audios == count_kind(ev, MediaKind::Audio, i as nat),
            fresh@ == new_positions(pv, known, i as nat),
        decreases paths@.len() - i,
    {
        proof {
            lemma_count_kind_le(ev, MediaKind::Image, i as nat);
            lemma_count_kind_le(ev, MediaKind::Video, i as nat);
            lemma_count_kind_le(ev, MediaKind::Audio, i as nat);
        }
        assert(ev[i as int] == opt_view(extensions@[i as int]));
        match &extensions[i] {
            Some(e) => {
                let lower = to_lowercase(e.as_str());
                match classify_lowercase_extension(lower.as_str()) {
                    Some(MediaKind::Image) => {
                        images = images + 1;
                    },
                    Some(MediaKind::Video) => {
                        videos = videos + 1;
                    },
                    Some(MediaKind::Audio) => {
                        audios = audios + 1;
                    },
                    None => {},
                }
            },
            None => {},
        }
        assert(pv[i as int] == paths@[i as int]@);
        if !seen.contains(paths[i].as_str()) {
            fresh.push(i);
        }
        i = i + 1;
    }
    (ScanResult { total_files: paths.len() as u64, images, videos, audios }, fresh)
}

/// Whether scan progress is reported after `done` of `total` files: every
/// fifth file, and the last.
pub fn scan_progress_due(done: u64, total: u64) -> (r: bool)
    ensures
        r == (done % 5 == 0 || done == total),
{
    done % 5 == 0 || done == total
}

/// The text shown while the new files are being read.
pub open spec fn scan_start_text() -> Seq<char> {
    seq!['开', '始', '并', '行', '处', '理', '.', '.', '.']
}

/// The first progress event of a scan that found `total` media files of
/// which `fresh` are new, and whether the scan is over with it. With nothing
/// new the scan ends at once, reporting all files scanned; otherwise the
/// count of new files starts at zero.
pub fn scan_opening_progress(total: u64, fresh: usize) -> (r: (ScanProgress, bool))
    ensures
        r.1 == (fresh == 0),
        fresh == 0 ==> r.0.total == total && r.0.scanned == total && r.0.current_file@ == Seq::<char>::empty(),
        fresh > 0 ==> r.0.total == fresh && r.0.scanned == 0 && r.0.current_file@ == scan_start_text(),
{
    if fresh == 0 {
        (ScanProgress { total, scanned: total, current_file: String::new() }, true)
    } else {
        let cs = vec!['开', '始', '并', '行', '处', '理', '.', '.', '.'];
        assert(cs@ =~= scan_start_text());
        (ScanProgress { total: fresh as u64, scanned: 0, current_file: string_from_chars(cs.as_slice()) }, false)
    }
}

/// How many bytes at the start of a file the EXIF data is looked for in.
pub const EXIF_WINDOW: usize = 65536;

/// The first `n` bytes of `bytes` (all of them when there are fewer).
fn prefix(bytes: &[u8], n: usize) -> (r: Vec<u8>)
    ensures
        r@ == bytes@.take(if bytes@.len() < n { bytes@.len() as int } else { n as int }),
{
    let m = if bytes.len() < n { bytes.len() } else { n };
    let mut out: Vec<u8> = Vec::new();
    let mut k: usize = 0;
    while k < m
        invariant
            m <= bytes@.len(),
            k <= m,
            out@ == bytes@.take(k as int),
        decreases m - k,
    {
        out.push(bytes[k]);
        assert(bytes@.take(k as int).push(bytes@[k as int]) =~= bytes@.take(k + 1));
        k = k + 1;
    }
    out
}

/// The name recorded as the type of a file with extension `ext`.
pub open spec fn file_type_name(ext: Option<Seq<char>>) -> Seq<char> {
    match kind_of_path(ext) {
        Some(k) => k.name(),
        None => seq!['u', 'n', 'k', 'n', 'o', 'w', 'n'],
    }
}

/// The capture date of a file: for a picture, the EXIF date in the first
/// `EXIF_WINDOW` bytes, else the file date; for other media, the file date.
pub open spec fn taken_at_of(ext: Option<Seq<char>>, contents: Option<Seq<u8>>, fdate: Option<Seq<char>>) -> Option<
    Seq<char>,
> {
    let exif = match contents {
        Some(c) => exif_date_of(c.take(if c.len() < EXIF_WINDOW { c.len() as int } else { EXIF_WINDOW as int })),
        None => None,
    };
    if kind_of_path(ext) == Some(MediaKind::Image) && exif is Some {
        exif
    } else {
        fdate
    }
}

/// The record of one scanned file. `ext` is the file's extension, if it has
/// one; `contents` its bytes, if they were read whole (for a picture they
/// give the EXIF date and the hash); `modified` and `created` its file times
/// (seconds and
/// nanoseconds since the Unix epoch); `md5` the hexadecimal MD5 of its
/// contents as streamed by the caller, used when the contents were not
/// read whole; `created_at` the time of the scan.
/// The record gets a fresh id, the file's kind, capture date, perceptual
/// hash (pictures only) and MD5, and no group.
pub fn process_file(
    project_id: &str,
    path: &str,
    file_name: &str,
    ext: Option<&str>,
    file_size: i64,
    contents: Option<&[u8]>,
    modified: Option<(i64, u32)>,
    created: Option<(i64, u32)>,
    md5: Option<String>,
    created_at: &str,
) -> (r: FileRecord)
    ensures
        r.id@.len() == 36,
        r.project_id@ == project_id@,
        r.path@ == path@,
        r.file_name@ == file_name@,
        r.file_size == file_size,
        r.file_type@ == file_type_name(match ext {
            Some(e) => Some(e@),
            None => None,
        }),
        opt_view(r.taken_at) == taken_at_of(
            match ext {
                Some(e) => Some(e@),
                None => None,
            },
            match contents {
                Some(c) => Some(c@),
                None => None,
            },
            match modified {
                Some(t) => utc_rfc3339_of(t.0, t.1),
                None => match created {
                    Some(t) => utc_rfc3339_of(t.0, t.1),
                    None => None,
                },
            },
        ),
        r.phash == (if kind_of_path(match ext {
            Some(e) => Some(e@),
            None => None,
        }) == Some(MediaKind::Image) && contents is Some {
            phash_of_encoded(contents->0@, ext->0@)
        } else {
            None
        }),
        opt_view(r.md5) == match contents {
            Some(c) => Some(hex_lower(md5_of(c@))),
            None => opt_view(md5),
        },
        r.group_id is None,
        r.created_at@ == created_at@,
{
    let kind = match ext {
        Some(e) => {
            let lower = to_lowercase(e);
            classify_lowercase_extension(lower.as_str())
        },
        None => None,
    };
    let file_type = match kind {
        Some(k) => k.as_str().to_string(),
        None => {
            let u = vec!['u', 'n', 'k', 'n', 'o', 'w', 'n'];
            assert(u@ =~= seq!['u', 'n', 'k', 'n', 'o', 'w', 'n']);
            string_from_chars(u.as_slice())
        },
    };
    let is_image = match kind {
        Some(MediaKind::Image) => true,
        _ => false,
    };
    let fdate = file_date(modified, created);
    let taken_at = if is_image {
        let exif = match contents {
            Some(c) => {
                let head = prefix(c, EXIF_WINDOW);
                exif_date(head.as_slice())
            },
            None => None,
        };
        match exif {
            Some(d) => Some(d),
            None => fdate,
        }
    } else {
        fdate
    };
    let phash = if is_image {
        match (contents, ext) {
            (Some(c), Some(e)) => compute_phash(c, e),
            _ => None,
        }
    } else {
        None
    };
    let md5 = match contents {
        Some(c) => Some(compute_md5(c)),
        None => md5,
    };
    FileRecord {
        id: crate::ids::new_id(),
        project_id: project_id.to_string(),
        path: path.to_string(),
        file_name: file_name.to_string(),
        file_size,
        file_type,
        taken_at,
        phash,
        md5,
        group_id: None,
        created_at: created_at.to_string(),
    }
}

/// The extensions a scan knows, in lower case: pictures are jpg, jpeg, png,
/// heic, webp, bmp, tiff and tif; videos mp4, mov, avi, mkv, wmv, flv and
/// webm; audio mp3, wav, flac, aac, ogg, wma and m4a; nothing else has a
/// kind. (`classify_extension` applies this to the lower-cased extension.)
pub proof fn lemma_known_extensions(e: Seq<char>)
    ensures
        kind_of_extension(e) == Some(MediaKind::Image) <==> (e == "jpg"@ || e == "jpeg"@ || e == "png"@ || e == "heic"@
            || e == "webp"@ || e == "bmp"@ || e == "tiff"@ || e == "tif"@),
        kind_of_extension(e) == Some(MediaKind::Video) <==> (e == "mp4"@ || e == "mov"@ || e == "avi"@ || e == "mkv"@
            || e == "wmv"@ || e == "flv"@ || e == "webm"@),
        kind_of_extension(e) == Some(MediaKind::Audio) <==> (e == "mp3"@ || e == "wav"@ || e == "flac"@ || e == "aac"@
            || e == "ogg"@ || e == "wma"@ || e == "m4a"@),
{
    reveal_strlit("jpg");
    reveal_strlit("jpeg");
    reveal_strlit("png");
    reveal_strlit("heic");
    reveal_strlit("webp");
    reveal_strlit("bmp");
    reveal_strlit("tiff");
    reveal_strlit("tif");
    reveal_strlit("mp4");
    reveal_strlit("mov");
    reveal_strlit("avi");
    reveal_strlit("mkv");
    reveal_strlit("wmv");
    reveal_strlit("flv");
    reveal_strlit("webm");
    reveal_strlit("mp3");
    reveal_strlit("wav");
    reveal_strlit("flac");
    reveal_strlit("aac");
    reveal_strlit("ogg");
    reveal_strlit("wma");
    reveal_strlit("m4a");
    assert("jpg"@ =~= seq!['j', 'p', 'g']);
    assert("jpeg"@ =~= seq!['j', 'p', 'e', 'g']);
    assert("png"@ =~= seq!['p', 'n', 'g']);
    assert("heic"@ =~= seq!['h', 'e', 'i', 'c']);
    assert("webp"@ =~= seq!['w', 'e', 'b', 'p']);
    assert("bmp"@ =~= seq!['b', 'm', 'p']);
    assert("tiff"@ =~= seq!['t', 'i', 'f', 'f']);
    assert("tif"@ =~= seq!['t', 'i', 'f']);
    assert("mp4"@ =~= seq!['m', 'p', '4']);
    assert("mov"@ =~= seq!['m', 'o', 'v']);
    assert("avi"@ =~= seq!['a', 'v', 'i']);
    assert("mkv"@ =~= seq!['m', 'k', 'v']);
    assert("wmv"@ =~= seq!['w', 'm', 'v']);
    assert("flv"@ =~= seq!['f', 'l', 'v']);
    assert("webm"@ =~= seq!['w', 'e', 'b', 'm']);
    assert("mp3"@ =~= seq!['m', 'p', '3']);
    assert("wav"@ =~= seq!['w', 'a', 'v']);
    assert("flac"@ =~= seq!['f', 'l', 'a', 'c']);
    assert("aac"@ =~= seq!['a', 'a', 'c']);
    assert("ogg"@ =~= seq!['o', 'g', 'g']);
    assert("wma"@ =~= seq!['w', 'm', 'a']);
    assert("m4a"@ =~= seq!['m', '4', 'a']);
    let im = image_extensions();
    let vi = video_extensions();
    let au = audio_extensions();
    assert(im =~= seq!["jpg"@, "jpeg"@, "png"@, "heic"@, "webp"@, "bmp"@, "tiff"@, "tif"@]);
    assert(vi =~= seq!["mp4"@, "mov"@, "avi"@, "mkv"@, "wmv"@, "flv"@, "webm"@]);
    assert(au =~= seq!["mp3"@, "wav"@, "flac"@, "aac"@, "ogg"@, "wma"@, "m4a"@]);
    assert(im.contains(e) <==> (e == im[0] || e == im[1] || e == im[2] || e == im[3] || e == im[4] || e == im[5]
        || e == im[6] || e == im[7]));
    assert(vi.contains(e) <==> (e == vi[0] || e == vi[1] || e == vi[2] || e == vi[3] || e == vi[4] || e == vi[5]
        || e == vi[6]));
    assert(au.contains(e) <==> (e == au[0] || e == au[1] || e == au[2] || e == au[3] || e == au[4] || e == au[5]
        || e == au[6]));
}

} // verus!
