//! The std string and path operations the library relies on, with what their
//! documentation promises.
use vstd::prelude::*;
use vstd::utf8::{valid_utf8, decode_utf8};

verus! {

/// What `String::from_utf8_lossy` makes of the bytes.
pub uninterp spec fn lossy_text_of(b: Seq<u8>) -> Seq<char>;

/// What `str::to_lowercase` makes of the characters.
pub uninterp spec fn lowercase_of(s: Seq<char>) -> Seq<char>;

/// What `str::trim` makes of the characters.
pub uninterp spec fn trimmed_of(s: Seq<char>) -> Seq<char>;

/// `needle` occurs in `hay`.
pub open spec fn contains_chars(hay: Seq<char>, needle: Seq<char>) -> bool {
    exists|i: int| 0 <= i && i + needle.len() <= hay.len() && #[trigger] hay.subrange(i, i + needle.len())
        == needle
}

/// Relies on `String::from_utf8_lossy`: the text the bytes encode, invalid
/// sequences replaced; on valid UTF-8, exactly the decoded characters.
#[verifier::external_body]
pub(crate) fn lossy_text(b: &[u8]) -> (r: String)
    ensures
        r@ == lossy_text_of(b@),
        valid_utf8(b@) ==> r@ == decode_utf8(b@),
{
    String::from_utf8_lossy(b).into_owned()
}

/// Relies on `str::to_lowercase`: the lowercase form depends on the
/// characters alone.
#[verifier::external_body]
pub(crate) fn lowercase(s: &str) -> (r: String)
    ensures
        r@ == lowercase_of(s@),
{
    s.to_lowercase()
}

/// Relies on `str::trim`: the characters with leading and trailing white
/// space removed.
#[verifier::external_body]
pub(crate) fn trim(s: &str) -> (r: &str)
    ensures
        r@ == trimmed_of(s@),
{
    s.trim()
}

/// Relies on `str::contains` with a `&str` pattern: whether `needle` occurs
/// in `hay`.
#[verifier::external_body]
pub(crate) fn contains(hay: &str, needle: &str) -> (r: bool)
    ensures
        r == contains_chars(hay@, needle@),
{
    hay.contains(needle)
}

/// A path that is a single plain component on every platform: not empty, no
/// `/`, `\` or `:` (so no separator and no drive or verbatim prefix), and not
/// `.` or `..`.
pub open spec fn bare_name(s: Seq<char>) -> bool {
    &&& s.len() > 0
    &&& forall|i: int| 0 <= i < s.len() ==> #[trigger] s[i] != '/' && s[i] != '\\' && s[i] != ':'
    &&& s != seq!['.']
    &&& s != seq!['.', '.']
}

/// Relies on `std::path::Path::file_name` and `OsStr::to_str`: the final
/// component of the path, or an empty string where there is none or it is not
/// UTF-8. Which characters separate components depends on the platform; a
/// path that is one plain component on every platform is its own file name.
#[verifier::external_body]
pub(crate) fn file_name_of(path: &str) -> (r: &str)
    ensures
        bare_name(path@) ==> r@ == path@,
{
    std::path::Path::new(path).file_name().and_then(|f| f.to_str()).unwrap_or("")
}

} // verus!
