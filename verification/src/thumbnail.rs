//! Thumbnails as JPEG data URIs, remembered in a bounded least-recently-used
//! cache keyed by path and size.

use vstd::prelude::*;
use crate::scanner::image_decodes;
use crate::text::{append_chars, chars_of, string_from_chars};

verus! {

#[verifier::external_type_specification]
#[verifier::external_body]
#[verifier::reject_recursive_types(K)]
#[verifier::reject_recursive_types(V)]
#[verifier::reject_recursive_types(S)]
pub struct ExLruCache<K, V, S>(lru::LruCache<K, V, S>);

#[verifier::external_type_specification]
#[verifier::external_body]
pub struct ExLruHasher(lru::DefaultHasher);

/// The entries an `lru::LruCache` of texts holds, key to value.
pub uninterp spec fn lru_entries(c: lru::LruCache<String, String>) -> Map<Seq<char>, Seq<char>>;

/// The number of entries an `lru::LruCache` was made to hold.
pub uninterp spec fn lru_capacity(c: lru::LruCache<String, String>) -> nat;

/// The keys of an `lru::LruCache` of texts from the most recently used to
/// the least (the order of its list from head to tail).
pub uninterp spec fn lru_order(c: lru::LruCache<String, String>) -> Seq<Seq<char>>;

/// The cache holds finitely many entries, no more than its capacity, and
/// lists each of their keys once in its recency order.
pub open spec fn lru_bounded(c: lru::LruCache<String, String>) -> bool {
    &&& lru_entries(c).dom().finite()
    &&& lru_entries(c).dom().len() <= lru_capacity(c)
    &&& lru_order(c).no_duplicates()
    &&& lru_order(c).len() == lru_entries(c).dom().len()
    &&& forall|j: Seq<char>| #[trigger] lru_order(c).contains(j) <==> lru_entries(c).dom().contains(j)
}

/// `lru::LruCache::new`: an empty cache holding up to `cap` entries.
#[verifier::external_body]
fn lru_new(cap: usize) -> (r: lru::LruCache<String, String>)
    requires
        cap > 0,
    ensures
        lru_entries(r).dom() == Set::<Seq<char>>::empty(),
        lru_order(r).len() == 0,
        lru_capacity(r) == cap,
        lru_bounded(r),
{
    lru::LruCache::new(std::num::NonZeroUsize::new(cap).unwrap())
}

/// `lru::LruCache::get`: the value under `k`, if any (cloned). A hit moves
/// `k` to the front of the recency order; no entry changes.
#[verifier::external_body]
fn lru_get(c: &mut lru::LruCache<String, String>, k: &str) -> (r: Option<String>)
    requires
        lru_bounded(*old(c)),
    ensures
        lru_entries(*final(c)) == lru_entries(*old(c)),
        lru_capacity(*final(c)) == lru_capacity(*old(c)),
        lru_bounded(*final(c)),
        match r {
            Some(v) => lru_entries(*old(c)).dom().contains(k@) && lru_entries(*old(c))[k@] == v@ && lru_order(*final(c))
                == seq![k@] + lru_order(*old(c)).filter(|j: Seq<char>| j != k@),
            None => !lru_entries(*old(c)).dom().contains(k@) && lru_order(*final(c)) == lru_order(*old(c)),
        },
{
    c.get(k).cloned()
}

/// `lru::LruCache::put`: stores `v` under `k` and moves `k` to the front of
/// the recency order. When `k` is new and the cache is full, the least
/// recently used entry (the last of the order) leaves.
#[verifier::external_body]
fn lru_put(c: &mut lru::LruCache<String, String>, k: String, v: String)
    requires
        lru_bounded(*old(c)),
    ensures
        lru_capacity(*final(c)) == lru_capacity(*old(c)),
        lru_bounded(*final(c)),
        lru_entries(*old(c)).dom().contains(k@) ==> lru_entries(*final(c)) == lru_entries(*old(c)).insert(k@, v@)
            && lru_order(*final(c)) == seq![k@] + lru_order(*old(c)).filter(|j: Seq<char>| j != k@),
        !lru_entries(*old(c)).dom().contains(k@) && lru_entries(*old(c)).dom().len() < lru_capacity(*old(c))
            ==> lru_entries(*final(c)) == lru_entries(*old(c)).insert(k@, v@) && lru_order(*final(c)) == seq![k@]
            + lru_order(*old(c)),
        !lru_entries(*old(c)).dom().contains(k@) && lru_entries(*old(c)).dom().len() >= lru_capacity(*old(c))
            ==> lru_entries(*final(c)) == lru_entries(*old(c)).remove(lru_order(*old(c)).last()).insert(k@, v@)
            && lru_order(*final(c)) == seq![k@] + lru_order(*old(c)).drop_last(),
{
    c.put(k, v);
}

/// The decimal digit for `d < 10`.
pub open spec fn digit_char(d: nat) -> char {
    (('0' as nat) + d) as char
}

/// The decimal form of `n`.
pub open spec fn decimal(n: nat) -> Seq<char>
    decreases n,
{
    if n < 10 {
        seq![digit_char(n)]
    } else {
        decimal(n / 10).push(digit_char(n % 10))
    }
}

fn push_decimal(n: u32, out: &mut Vec<char>)
    ensures
        final(out)@ == old(out)@ + decimal(n as nat),
    decreases n,
{
    if n >= 10 {
        push_decimal(n / 10, out);
    }
    let d = (n % 10) as u8;
    out.push((('0' as u8) + d) as char);
    assert(old(out)@ + decimal(n as nat) =~= if n >= 10 {
        old(out)@ + decimal((n / 10) as nat) + seq![digit_char((n % 10) as nat)]
    } else {
        old(out)@ + seq![digit_char(n as nat)]
    });
}

/// The key a thumbnail is cached under: the path, a colon, and the size.
pub open spec fn spec_cache_key(path: Seq<char>, max_size: u32) -> Seq<char> {
    path + seq![':'] + decimal(max_size as nat)
}

proof fn lemma_decimal_digits(n: nat)
    ensures
        decimal(n).len() >= 1,
        n < 10 <==> decimal(n).len() == 1,
        forall|i: int| 0 <= i < decimal(n).len() ==> '0' <= #[trigger] decimal(n)[i] <= '9',
    decreases n,
{
    if n >= 10 {
        lemma_decimal_digits(n / 10);
        let d = decimal(n / 10);
        assert forall|i: int| 0 <= i < decimal(n).len() implies '0' <= #[trigger] decimal(n)[i] <= '9' by {
            if i < d.len() {
                assert(decimal(n)[i] == d[i]);
            }
        }
    }
}

proof fn lemma_digit_char(d: nat)
    requires
        d < 10,
    ensures
        digit_char(d) as nat == '0' as nat + d,
{
}

/// Different numbers have different decimal forms.
proof fn lemma_decimal_injective(a: nat, b: nat)
    requires
        decimal(a) == decimal(b),
    ensures
        a == b,
    decreases a,
{
    lemma_decimal_digits(a);
    lemma_decimal_digits(b);
    if a >= 10 && b >= 10 {
        let da = decimal(a);
        let db = decimal(b);
        assert(decimal(a / 10) =~= da.drop_last());
        assert(decimal(b / 10) =~= db.drop_last());
        lemma_decimal_injective(a / 10, b / 10);
        assert(da.last() == digit_char(a % 10));
        assert(db.last() == digit_char(b % 10));
        lemma_digit_char(a % 10);
        lemma_digit_char(b % 10);
    } else if a < 10 && b < 10 {
        assert(decimal(a)[0] == digit_char(a));
        assert(decimal(b)[0] == digit_char(b));
        lemma_digit_char(a);
        lemma_digit_char(b);
    }
}

/// Different paths or sizes never share a cache key.
pub proof fn lemma_cache_key_injective(p1: Seq<char>, s1: u32, p2: Seq<char>, s2: u32)
    requires
        spec_cache_key(p1, s1) == spec_cache_key(p2, s2),
    ensures
        p1 == p2,
        s1 == s2,
{
    let d1 = decimal(s1 as nat);
    let d2 = decimal(s2 as nat);
    let k1 = p1 + seq![':'] + d1;
    let k2 = p2 + seq![':'] + d2;
    assert(k1 == k2);
    lemma_decimal_digits(s1 as nat);
    lemma_decimal_digits(s2 as nat);
    if p1.len() < p2.len() {
        assert(k2[p2.len() as int] == ':');
        assert(k1[p2.len() as int] == d1[p2.len() - p1.len() - 1]);
    } else if p2.len() < p1.len() {
        assert(k1[p1.len() as int] == ':');
        assert(k2[p1.len() as int] == d2[p1.len() - p2.len() - 1]);
    }
    assert(p1 =~= k1.take(p1.len() as int));
    assert(p2 =~= k2.take(p2.len() as int));
    assert(d1 =~= k1.skip((p1.len() + 1) as int));
    assert(d2 =~= k2.skip((p2.len() + 1) as int));
    lemma_decimal_injective(s1 as nat, s2 as nat);
}

/// The key a thumbnail is cached under.
pub fn thumbnail_cache_key(path: &str, max_size: u32) -> (r: String)
    ensures
        r@ == spec_cache_key(path@, max_size),
{
    let mut out = chars_of(path);
    out.push(':');
    push_decimal(max_size, &mut out);
    string_from_chars(out.as_slice())
}

/// How many thumbnails the cache keeps.
pub const THUMBNAIL_CACHE_SIZE: usize = 500;

/// The thumbnails made so far, by path and size, the least recently used
/// leaving first when the cache is full.
pub struct ThumbnailCache {
    entries: lru::LruCache<String, String>,
}

impl ThumbnailCache {
    /// The thumbnail cached for `path` at `max_size`, if any.
    pub closed spec fn cached(&self, path: Seq<char>, max_size: u32) -> Option<Seq<char>> {
        let m = lru_entries(self.entries);
        let k = spec_cache_key(path, max_size);
        if m.dom().contains(k) {
            Some(m[k])
        } else {
            None
        }
    }

    /// How many thumbnails the cache holds.
    pub closed spec fn len(&self) -> nat {
        lru_entries(self.entries).dom().len()
    }

    /// The keys of the cached thumbnails, the most recently used first.
    pub closed spec fn recency(&self) -> Seq<Seq<char>> {
        lru_order(self.entries)
    }

    /// Whether the thumbnail for `path` at `max_size` is among the `n` most
    /// recently used.
    pub open spec fn among_recent(&self, path: Seq<char>, max_size: u32, n: nat) -> bool {
        exists|i: int| 0 <= i < n && i < self.recency().len() && self.recency()[i] == spec_cache_key(path, max_size)
    }

    pub closed spec fn wf(&self) -> bool {
        &&& lru_bounded(self.entries)
        &&& lru_capacity(self.entries) == THUMBNAIL_CACHE_SIZE
    }

    /// An empty cache.
    pub fn new() -> (r: ThumbnailCache)
        ensures
            r.wf(),
            forall|p: Seq<char>, s: u32| #[trigger] r.cached(p, s) is None,
    {
        let entries = lru_new(THUMBNAIL_CACHE_SIZE);
        assert(lru_entries(entries).dom() =~= Set::<Seq<char>>::empty());
        ThumbnailCache { entries }
    }

    /// The thumbnail cached for `path` at `max_size`, if any; a hit makes it
    /// the most recently used.
    pub fn lookup(&mut self, path: &str, max_size: u32) -> (r: Option<String>)
        requires
            old(self).wf(),
        ensures
            final(self).wf(),
            forall|p: Seq<char>, s: u32| #[trigger] final(self).cached(p, s) == old(self).cached(p, s),
            match r {
                Some(uri) => old(self).cached(path@, max_size) == Some(uri@) && final(self).recency().len() > 0
                    && final(self).recency()[0] == spec_cache_key(path@, max_size),
                None => old(self).cached(path@, max_size) is None && final(self).recency() == old(self).recency(),
            },
    {
        let key = thumbnail_cache_key(path, max_size);
        lru_get(&mut self.entries, key.as_str())
    }

    /// Remembers the thumbnail `uri` for `path` at `max_size`. A later lookup
    /// of the same path and size gives it back until it leaves the cache.
    pub fn store(&mut self, path: &str, max_size: u32, uri: String)
        requires
            old(self).wf(),
        ensures
            final(self).wf(),
            final(self).cached(path@, max_size) == Some(uri@),
            forall|p: Seq<char>, s: u32|
                #[trigger] final(self).cached(p, s) is Some && !(p == path@ && s == max_size) ==> final(self).cached(p, s)
                    == old(self).cached(p, s),
            old(self).cached(path@, max_size) is Some || old(self).len() < THUMBNAIL_CACHE_SIZE ==> forall|
                p: Seq<char>,
                s: u32,
            | !(p == path@ && s == max_size) ==> #[trigger] final(self).cached(p, s) == old(self).cached(p, s),
            final(self).recency().len() > 0,
            final(self).recency()[0] == spec_cache_key(path@, max_size),
            forall|p: Seq<char>, s: u32|
                !(p == path@ && s == max_size) && #[trigger] old(self).among_recent(p, s, (THUMBNAIL_CACHE_SIZE - 1) as nat)
                    ==> final(self).cached(p, s) == old(self).cached(p, s),
    {
        let key = thumbnail_cache_key(path, max_size);
        lru_put(&mut self.entries, key, uri);
        proof {
            let o = lru_order(old(self).entries);
            let m = lru_entries(old(self).entries);
            assert forall|p: Seq<char>, s: u32|
                !(p == path@ && s == max_size) && #[trigger] old(self).among_recent(
                    p,
                    s,
                    (THUMBNAIL_CACHE_SIZE - 1) as nat,
                ) implies self.cached(p, s) == old(self).cached(p, s) by {
                let j = spec_cache_key(p, s);
                let i = choose|i: int| 0 <= i < THUMBNAIL_CACHE_SIZE - 1 && i < o.len() && o[i] == j;
                if j == spec_cache_key(path@, max_size) {
                    lemma_cache_key_injective(p, s, path@, max_size);
                }
                assert(o.contains(j));
                assert(m.dom().contains(j));
                if !m.dom().contains(spec_cache_key(path@, max_size)) && m.dom().len() >= THUMBNAIL_CACHE_SIZE {
                    assert(o[o.len() - 1] == o.last());
                    assert(o.last() != j);
                }
            }
            if old(self).cached(path@, max_size) is Some || old(self).len() < THUMBNAIL_CACHE_SIZE {
                assert forall|p: Seq<char>, s: u32|
                    !(p == path@ && s == max_size) implies #[trigger] self.cached(p, s) == old(self).cached(p, s) by {
                    if spec_cache_key(p, s) == spec_cache_key(path@, max_size) {
                        lemma_cache_key_injective(p, s, path@, max_size);
                    }
                }
            }
            assert forall|p: Seq<char>, s: u32|
                #[trigger] self.cached(p, s) is Some && !(p == path@ && s == max_size) implies self.cached(p, s) == old(
                self,
            ).cached(p, s) by {
                if spec_cache_key(p, s) == spec_cache_key(path@, max_size) {
                    lemma_cache_key_injective(p, s, path@, max_size);
                }
            }
        }
    }
}

/// The digit of the standard base64 alphabet for `v < 64`.
pub open spec fn base64_digit(v: int) -> char {
    if v < 26 {
        (('A' as int) + v) as char
    } else if v < 52 {
        (('a' as int) + v - 26) as char
    } else if v < 62 {
        (('0' as int) + v - 52) as char
    } else if v == 62 {
        '+'
    } else {
        '/'
    }
}

/// The standard base64 text of a byte string (RFC 4648, section 4): every
/// three bytes, as 24 bits, give four digits of six bits each; a last group
/// of one or two bytes is padded with zero bits and `=`.
pub open spec fn base64_of(b: Seq<u8>) -> Seq<char>
    decreases b.len(),
{
    let x: int = if b.len() > 0 { b[0] as int } else { 0 };
    let y: int = if b.len() > 1 { b[1] as int } else { 0 };
    let z: int = if b.len() > 2 { b[2] as int } else { 0 };
    if b.len() == 0 {
        Seq::empty()
    } else if b.len() == 1 {
        seq![base64_digit(x / 4), base64_digit((x % 4) * 16), '=', '=']
    } else if b.len() == 2 {
        seq![base64_digit(x / 4), base64_digit((x % 4) * 16 + y / 16), base64_digit((y % 16) * 4), '=']
    } else {
        seq![
            base64_digit(x / 4),
            base64_digit((x % 4) * 16 + y / 16),
            base64_digit((y % 16) * 4 + z / 64),
            base64_digit(z % 64)
        ] + base64_of(b.subrange(3, b.len() as int))
    }
}

/// `base64::engine::general_purpose::STANDARD.encode`: the standard,
/// padded base64 text of `bytes` (`base64_of`).
#[verifier::external_body]
fn base64_encode(bytes: &[u8]) -> (r: String)
    ensures
        r@ == base64_of(bytes@),
{
    base64::Engine::encode(&base64::engine::general_purpose::STANDARD, bytes)
}

/// The JPEG bytes of the thumbnail `image` makes of the picture it decodes
/// from `encoded` in the format the file extension `ext` names, resized to
/// fit `max_size` by `max_size`; nothing when the bytes do not decode or the
/// JPEG encoding fails.
pub uninterp spec fn jpeg_thumbnail_of(encoded: Seq<u8>, ext: Seq<char>, max_size: u32) -> Option<Seq<u8>>;

/// `image::ImageFormat::from_extension` and an `image::ImageReader` over the
/// bytes in that format (without a format when the extension names none, as
/// `image::open` does for such a path), decoded; then
/// `DynamicImage::thumbnail` (resized, keeping the aspect ratio, to fit
/// `max_size` by `max_size`; a smaller picture is enlarged), then
/// `DynamicImage::write_to` in JPEG format: the JPEG bytes, named
/// `jpeg_thumbnail_of`; or whether the decoding failed (`image_decodes`)
/// together with the error's text. Nothing is claimed of the pixels or of
/// the text.
#[verifier::external_body]
fn jpeg_thumbnail(bytes: &[u8], ext: &str, max_size: u32) -> (r: Result<Vec<u8>, (bool, String)>)
    ensures
        r is Ok <==> jpeg_thumbnail_of(bytes@, ext@, max_size) is Some,
        r matches Ok(j) ==> jpeg_thumbnail_of(bytes@, ext@, max_size) == Some(j@) && image_decodes(bytes@, ext@),
        r matches Err(e) ==> e.0 == !image_decodes(bytes@, ext@),
{
    let reader = match image::ImageFormat::from_extension(ext) {
        Some(format) => image::ImageReader::with_format(std::io::Cursor::new(bytes), format),
        None => image::ImageReader::new(std::io::Cursor::new(bytes)),
    };
    match reader.decode() {
        Err(e) => Err((true, e.to_string())),
        Ok(img) => {
            let thumb = img.thumbnail(max_size, max_size);
            let mut buf = std::io::Cursor::new(Vec::new());
            match thumb.write_to(&mut buf, image::ImageFormat::Jpeg) {
                Ok(()) => Ok(buf.into_inner()),
                Err(e) => Err((false, e.to_string())),
            }
        },
    }
}

pub open spec fn data_uri_prefix() -> Seq<char> {
    "data:image/jpeg;base64,"@
}

pub open spec fn open_failure_prefix() -> Seq<char> {
    "Failed to open image: "@
}

pub open spec fn encode_failure_prefix() -> Seq<char> {
    "Failed to encode thumbnail: "@
}

/// `prefix` followed by `rest`, as one text.
fn joined(prefix: &str, rest: &str) -> (r: String)
    ensures
        r@ == prefix@ + rest@,
{
    let mut out = chars_of(prefix);
    let tail = chars_of(rest);
    append_chars(&mut out, tail.as_slice());
    string_from_chars(out.as_slice())
}

/// A thumbnail of an encoded picture, decoded in the format its file
/// extension `ext` names (empty for a path without one) and resized to fit
/// `max_size` by `max_size` pixels, as a JPEG data URI; or the reason it
/// could not be made.
pub fn render_thumbnail(encoded: &[u8], ext: &str, max_size: u32) -> (r: Result<String, String>)
    ensures
        r is Ok <==> jpeg_thumbnail_of(encoded@, ext@, max_size) is Some,
        r matches Ok(uri) ==> uri@ == data_uri_prefix() + base64_of(jpeg_thumbnail_of(encoded@, ext@, max_size)->0),
        r matches Err(msg) ==> if image_decodes(encoded@, ext@) {
            exists|e: Seq<char>| msg@ == encode_failure_prefix() + e
        } else {
            exists|e: Seq<char>| msg@ == open_failure_prefix() + e
        },
{
    match jpeg_thumbnail(encoded, ext, max_size) {
        Err((at_decoding, e)) => {
            if at_decoding {
                let msg = joined("Failed to open image: ", e.as_str());
                assert(msg@ == open_failure_prefix() + e@);
                Err(msg)
            } else {
                let msg = joined("Failed to encode thumbnail: ", e.as_str());
                assert(msg@ == encode_failure_prefix() + e@);
                Err(msg)
            }
        },
        Ok(jpeg) => {
            let b64 = base64_encode(jpeg.as_slice());
            let uri = joined("data:image/jpeg;base64,", b64.as_str());
            assert(uri@ == data_uri_prefix() + base64_of(jpeg@));
            Ok(uri)
        },
    }
}

} // verus!
