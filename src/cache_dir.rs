//! Cache directories: the label shown for one, the summary of what it holds,
//! and which of the two layouts a browser profile uses.
use vstd::prelude::*;
use vstd::string::StringSliceAdditionalSpecFns;
use vstd::string::StringExecFns;
use vstd::utf8::{
    encode_utf8, decode_utf8, valid_utf8, encode_utf8_valid_utf8, valid_utf8_split,
    is_char_boundary_iff_not_is_continuation_byte,
};
use crate::names::{is_cache_file, cache_file_name};
use crate::text::{contains, contains_chars, lowercase, lowercase_of, lossy_text};

verus! {

/// What a cache directory holds, as shown for it.
#[derive(Debug)]
pub struct CachePathInfo {
    pub path: String,
    pub exists: bool,
    pub file_count: usize,
    pub total_size: u64,
    pub client_name: String,
}

/// Which directory of a browser profile holds its cache.
#[derive(Clone, Copy, Debug, PartialEq, Eq, Structural)]
pub enum CacheDirLayout {
    /// `Cache/Cache_Data`.
    CacheData,
    /// `Cache`.
    CacheOnly,
}

/// `/` or `\`.
pub open spec fn is_sep(b: u8) -> bool {
    b == 0x2f || b == 0x5c
}

/// End of the path segment that starts at `i`.
pub open spec fn seg_end(b: Seq<u8>, i: int) -> int
    decreases b.len() - i,
{
    if i < 0 || i >= b.len() || is_sep(b[i]) {
        i
    } else {
        seg_end(b, i + 1)
    }
}

/// The bytes of `Profile `.
pub open spec fn profile_prefix() -> Seq<u8> {
    seq![0x50u8, 0x72, 0x6f, 0x66, 0x69, 0x6c, 0x65, 0x20]
}

/// `b[s..e]` begins with `Profile `.
pub open spec fn starts_profile(b: Seq<u8>, s: int, e: int) -> bool {
    e - s >= 8 && forall|k: int| 0 <= k < 8 ==> #[trigger] b[s + k] == profile_prefix()[k]
}

/// The first segment from the one at `s` on that begins with `Profile `.
pub open spec fn profile_segment(b: Seq<u8>, s: int) -> Option<(int, int)>
    decreases b.len() - s,
{
    if s < 0 || s > b.len() {
        None
    } else if starts_profile(b, s, seg_end(b, s)) {
        Some((s, seg_end(b, s)))
    } else if seg_end(b, s) >= b.len() || seg_end(b, s) < s {
        None
    } else {
        profile_segment(b, seg_end(b, s) + 1)
    }
}

/// The client family that a lowercased cache path names.
pub open spec fn client_base(lower: Seq<char>) -> Seq<char> {
    if contains_chars(lower, "discorddevelopment"@) {
        "Discord Development"@
    } else if contains_chars(lower, "discordcanary"@) {
        "Discord Canary"@
    } else if contains_chars(lower, "discordptb"@) {
        "Discord PTB"@
    } else if contains_chars(lower, "discord"@) {
        "Discord"@
    } else if contains_chars(lower, "brave"@) {
        "Brave"@
    } else if (contains_chars(lower, "google"@) && contains_chars(lower, "chrome"@))
        || contains_chars(lower, "google-chrome"@) {
        "Chrome"@
    } else if contains_chars(lower, "edge"@) || contains_chars(lower, "microsoft-edge"@) {
        "Edge"@
    } else if contains_chars(lower, "opera"@) {
        "Opera"@
    } else {
        "Custom"@
    }
}

fn segment_end(b: &[u8], i: usize) -> (r: usize)
    requires
        i <= b@.len(),
    ensures
        r == seg_end(b@, i as int),
        i <= r <= b@.len(),
        r == b@.len() || is_sep(b@[r as int]),
{
    let mut j = i;
    while j < b.len() && b[j] != 0x2f && b[j] != 0x5c
        invariant
            i <= j <= b@.len(),
            seg_end(b@, i as int) == seg_end(b@, j as int),
        decreases b@.len() - j,
    {
        j = j + 1;
    }
    j
}

fn profile_byte(k: usize) -> (r: u8)
    requires
        k < 8,
    ensures
        r == profile_prefix()[k as int],
{
    match k {
        0 => 0x50,
        1 => 0x72,
        2 => 0x6f,
        3 => 0x66,
        4 => 0x69,
        5 => 0x6c,
        6 => 0x65,
        _ => 0x20,
    }
}

/// Whether `b[s..e]` begins with `Profile `.
fn begins_with_profile(b: &[u8], s: usize, e: usize) -> (r: bool)
    requires
        s <= e <= b@.len(),
    ensures
        r == starts_profile(b@, s as int, e as int),
{
    if e - s < 8 {
        return false;
    }
    let mut k: usize = 0;
    while k < 8
        invariant
            k <= 8,
            s + 8 <= e <= b@.len(),
            forall|j: int| 0 <= j < k ==> #[trigger] b@[s + j] == profile_prefix()[j],
        decreases 8 - k,
    {
        if b[s + k] != profile_byte(k) {
            return false;
        }
        k = k + 1;
    }
    true
}

/// Whether a directory name is that of a numbered browser profile.
pub fn is_profile_dir_name(name: &str) -> (r: bool)
    ensures
        r == starts_profile(name.spec_bytes(), 0, name.spec_bytes().len() as int),
{
    let b = name.as_bytes();
    begins_with_profile(b, 0, b.len())
}

/// A segment of valid UTF-8 cut at `/` or `\` (or at either end) is valid
/// UTF-8: separators are ASCII and fall on character boundaries.
proof fn lemma_segment_valid(b: Seq<u8>, s: int, e: int)
    requires
        valid_utf8(b),
        0 <= s <= e <= b.len(),
        s == 0 || is_sep(b[s - 1]),
        e == b.len() || is_sep(b[e]),
    ensures
        valid_utf8(b.subrange(s, e)),
{
    let t = b.subrange(0, e);
    if e == b.len() {
        assert(t =~= b);
    } else {
        is_char_boundary_iff_not_is_continuation_byte(b, e);
        valid_utf8_split(b, e);
    }
    assert(valid_utf8(t));
    if s == 0 {
        assert(t.subrange(0, e) =~= t);
        assert(b.subrange(s, e) =~= t);
    } else {
        assert(t[s - 1] == b[s - 1]);
        is_char_boundary_iff_not_is_continuation_byte(t, s - 1);
        valid_utf8_split(t, s - 1);
        let u = t.subrange(s - 1, e);
        assert(valid_utf8(u));
        assert(u[0] == b[s - 1]);
        assert(u.subrange(1, u.len() as int) =~= b.subrange(s, e));
    }
}

/// The first segment of the path, `/` and `\` both separating, that begins
/// with `Profile `: the profile a cache directory belongs to.
pub fn extract_profile_label(path: &str) -> (r: Option<String>)
    ensures
        r is Some <==> profile_segment(path.spec_bytes(), 0) is Some,
        r matches Some(t) ==> profile_segment(path.spec_bytes(), 0) matches Some((s, e)) && t@
            == decode_utf8(path.spec_bytes().subrange(s, e)),
{
    let b = path.as_bytes();
    let n = b.len();
    let mut s: usize = 0;
    proof {
        encode_utf8_valid_utf8(path@);
    }
    loop
        invariant
            s <= n,
            n == b@.len(),
            b@ == path.spec_bytes(),
            valid_utf8(b@),
            s == 0 || (0 < s && is_sep(b@[s - 1])),
            profile_segment(b@, 0) == profile_segment(b@, s as int),
        decreases n - s,
    {
        let e = segment_end(b, s);
        if begins_with_profile(b, s, e) {
            proof {
                lemma_segment_valid(b@, s as int, e as int);
            }
            return Some(lossy_text(&b[s..e]));
        }
        if e >= n {
            return None;
        }
        s = e + 1;
    }
}

/// The client family named by a lowercased path.
fn client_base_name(lower: &str) -> (r: &'static str)
    ensures
        r@ == client_base(lower@),
{
    if contains(lower, "discorddevelopment") {
        "Discord Development"
    } else if contains(lower, "discordcanary") {
        "Discord Canary"
    } else if contains(lower, "discordptb") {
        "Discord PTB"
    } else if contains(lower, "discord") {
        "Discord"
    } else if contains(lower, "brave") {
        "Brave"
    } else if (contains(lower, "google") && contains(lower, "chrome")) || contains(
        lower,
        "google-chrome",
    ) {
        "Chrome"
    } else if contains(lower, "edge") || contains(lower, "microsoft-edge") {
        "Edge"
    } else if contains(lower, "opera") {
        "Opera"
    } else {
        "Custom"
    }
}

/// `base (label)`: a client family with the profile it belongs to.
fn with_label(base: &str, label: &str) -> (r: String)
    ensures
        r@ == base@ + seq![' ', '('] + label@ + seq![')'],
{
    let mut r = String::from_str(base);
    r.append(" (");
    r.append(label);
    r.append(")");
    proof {
        reveal_strlit(" (");
        reveal_strlit(")");
    }
    assert(r@ =~= base@ + seq![' ', '('] + label@ + seq![')']);
    r
}

/// The label shown for a cache directory: the client family its lowercased
/// path names, with the profile in parentheses where the path has one.
pub fn extract_client_name(path: &str) -> (r: String)
    ensures
        profile_segment(path.spec_bytes(), 0) is None ==> r@ == client_base(lowercase_of(path@)),
        profile_segment(path.spec_bytes(), 0) matches Some((s, e)) ==> r@ == client_base(
            lowercase_of(path@),
        ) + seq![' ', '('] + decode_utf8(path.spec_bytes().subrange(s, e)) + seq![')'],
{
    let lower = lowercase(path);
    let base = client_base_name(lower.as_str());
    match extract_profile_label(path) {
        Some(p) => with_label(base, p.as_str()),
        None => base.to_owned(),
    }
}

/// The cache directory of a browser profile: `Cache/Cache_Data` where it is a
/// directory, else `Cache` where that is, else `Cache/Cache_Data` as the
/// canonical default.
pub fn resolve_cache_dir(cache_data_is_dir: bool, cache_is_dir: bool) -> (r: CacheDirLayout)
    ensures
        r == (if !cache_data_is_dir && cache_is_dir {
            CacheDirLayout::CacheOnly
        } else {
            CacheDirLayout::CacheData
        }),
{
    if cache_data_is_dir {
        CacheDirLayout::CacheData
    } else if cache_is_dir {
        CacheDirLayout::CacheOnly
    } else {
        CacheDirLayout::CacheData
    }
}

/// The file has a cache entry name.
pub open spec fn counts(f: (String, u64)) -> bool {
    cache_file_name(encode_utf8(f.0@))
}

/// How many of the files have a cache entry name.
pub open spec fn cache_file_count(files: Seq<(String, u64)>) -> nat
    decreases files.len(),
{
    if files.len() == 0 {
        0
    } else {
        cache_file_count(files.drop_last()) + if counts(files.last()) {
            1nat
        } else {
            0nat
        }
    }
}

/// The total size of the files that have a cache entry name.
pub open spec fn cache_file_bytes(files: Seq<(String, u64)>) -> nat
    decreases files.len(),
{
    if files.len() == 0 {
        0
    } else {
        cache_file_bytes(files.drop_last()) + if counts(files.last()) {
            files.last().1 as nat
        } else {
            0nat
        }
    }
}

/// Summarises a cache directory from its regular files, each given by name
/// and size: how many have a cache entry name and their total size (at most
/// `u64::MAX`), with the label of the directory. A directory that does not
/// exist holds nothing.
pub fn summarize_cache_dir(path: &str, exists: bool, files: &Vec<(String, u64)>) -> (r:
    CachePathInfo)
    ensures
        r.path@ == path@,
        r.exists == exists,
        !exists ==> r.file_count == 0 && r.total_size == 0,
        exists ==> r.file_count == cache_file_count(files@),
        exists ==> r.total_size as int == if cache_file_bytes(files@) > u64::MAX {
            u64::MAX as int
        } else {
            cache_file_bytes(files@) as int
        },
        profile_segment(path.spec_bytes(), 0) is None ==> r.client_name@ == client_base(
            lowercase_of(path@),
        ),
        profile_segment(path.spec_bytes(), 0) matches Some((s, e)) ==> r.client_name@
            == client_base(lowercase_of(path@)) + seq![' ', '('] + decode_utf8(
            path.spec_bytes().subrange(s, e),
        ) + seq![')'],
{
    let client_name = extract_client_name(path);
    let mut file_count: usize = 0;
    let mut total_size: u64 = 0;
    if exists {
        let m = files.len();
        let mut k: usize = 0;
        while k < m
            invariant
                k <= m,
                m == files@.len(),
                file_count == cache_file_count(files@.take(k as int)),
                file_count <= k,
                total_size as int == if cache_file_bytes(files@.take(k as int)) > u64::MAX {
                    u64::MAX as int
                } else {
                    cache_file_bytes(files@.take(k as int)) as int
                },
            decreases m - k,
        {
            assert(files@.take(k as int + 1).drop_last() =~= files@.take(k as int));
            assert(files@.take(k as int + 1).last() == files@[k as int]);
            let name = files[k].0.as_str();
            if is_cache_file(name) {
                file_count = file_count + 1;
                total_size = total_size.saturating_add(files[k].1);
            }
            k = k + 1;
        }
        assert(files@.take(m as int) =~= files@);
    }
    CachePathInfo { path: path.to_owned(), exists, file_count, total_size, client_name }
}

/// Application state shared across requests: whether a scan or a recovery is
/// running.
#[derive(Clone, Copy, Debug, PartialEq, Eq, Structural)]
pub struct AppState {
    pub scan_running: bool,
    pub recovery_running: bool,
}

} // verus!
