//! Calls into std and into outside crates. Their contracts are believed, not
//! proved; each says what it claims and of which function.
#[allow(unused_imports)]
use crate::text::{last_of, last_separator, lower_text, strip_back, CharClass};
use vstd::prelude::*;
#[allow(unused_imports)]
use vstd::utf8::*;

verus! {

/// `String::from_utf8`: the text of `bytes`, if and only if they are valid
/// UTF-8.
#[verifier::external_body]
pub(crate) fn utf8_text(bytes: Vec<u8>) -> (r: Option<String>)
    ensures
        r is Some <==> valid_utf8(bytes@),
        r is Some ==> r->0@ == decode_utf8(bytes@),
{
    String::from_utf8(bytes).ok()
}

/// The text that `String::from_utf8_lossy` makes of bytes.
pub uninterp spec fn lossy_text(bytes: Seq<u8>) -> Seq<char>;

/// `String::from_utf8_lossy`: valid UTF-8 as it stands; otherwise replacement
/// characters stand for what is not, one for at least one byte, so that there
/// are no more characters than bytes. Which bytes share a replacement
/// character is left unsaid.
#[verifier::external_body]
pub(crate) fn lossy(bytes: &[u8]) -> (r: String)
    ensures
        r@ == lossy_text(bytes@),
        valid_utf8(bytes@) ==> r@ == decode_utf8(bytes@),
        r@.len() <= bytes@.len(),
{
    String::from_utf8_lossy(bytes).into_owned()
}

/// The text that `str::to_lowercase` makes of a text.
pub uninterp spec fn full_lower(s: Seq<char>) -> Seq<char>;

/// `str::to_lowercase`: the lower case after Unicode, of which it is only said
/// what it does to ASCII: a text of ASCII characters gets its letters in lower
/// case.
#[verifier::external_body]
pub(crate) fn to_lower_full(s: &str) -> (r: String)
    ensures
        r@ == full_lower(s@),
        is_ascii_chars(s@) ==> r@ == lower_text(s@),
{
    s.to_lowercase()
}

/// The extension of a file name: what follows its last full stop, unless that
/// is its first character.
pub open spec fn name_extension(name: Seq<char>) -> Option<Seq<char>> {
    let k = last_of(name, '.');
    if k <= 0 {
        None
    } else {
        Some(name.skip(k + 1))
    }
}

/// Whether every platform takes `s` for the name of a file: it is not empty,
/// holds no separator and no colon, and is neither `.` nor `..`.
pub open spec fn plain_name(s: Seq<char>) -> bool {
    &&& s.len() > 0
    &&& !s.contains('/')
    &&& !s.contains('\\')
    &&& !s.contains(':')
    &&& s != seq!['.']
    &&& s != seq!['.', '.']
}

/// What stands behind the last separator, of either kind.
pub open spec fn last_part(s: Seq<char>) -> Seq<char> {
    s.skip(last_separator(s) + 1)
}

/// Whether `s` begins with two separators, as the name of a share does.
pub open spec fn begins_share(s: Seq<char>) -> bool {
    s.len() >= 2 && (s[0] == '/' || s[0] == '\\') && (s[1] == '/' || s[1] == '\\')
}

/// Whether `e` may be the extension of the path `s`. Slashes separate the parts
/// of a path everywhere, and those at its end count for nothing. Backslashes
/// separate them on some platforms only; but where the part behind the last
/// separator of either kind has a full stop behind its first character, the
/// extension is the same on all. Colons and shares mean something else on each
/// platform.
pub open spec fn may_have_extension(s: Seq<char>, e: Option<Seq<char>>) -> bool {
    let t = strip_back(s, CharClass::ForwardSlash);
    let p = last_part(s);
    &&& !s.contains('\\') && !s.contains(':') && !begins_share(s) && plain_name(last_part(t))
        ==> e == name_extension(last_part(t))
    &&& !s.contains(':') && !begins_share(s) && plain_name(p) && last_of(p, '.') > 0 ==> e
        == name_extension(p)
}

/// `Path::extension`: the extension of the file name with which the path ends.
/// Where the name that a path ends with depends on the platform and its
/// extension with it, nothing is said.
#[verifier::external_body]
pub(crate) fn path_extension(s: &str) -> (r: Option<String>)
    ensures
        may_have_extension(
            s@,
            match r {
                Some(e) => Some(e@),
                None => None,
            },
        ),
{
    std::path::Path::new(s).extension().and_then(|e| e.to_str()).map(|e| e.to_owned())
}

/// The text that the digest of `md5::compute` has in lower-case hexadecimal.
pub uninterp spec fn md5_text(bytes: Seq<u8>) -> Seq<char>;

/// `md5::compute`, formatted with `{:x}`: sixteen bytes of two digits each.
#[verifier::external_body]
pub(crate) fn md5_hex(bytes: &[u8]) -> (r: String)
    ensures
        r@ == md5_text(bytes@),
        r@.len() == 32,
        forall|i: int| 0 <= i < 32 ==> is_lower_hex(#[trigger] r@[i]),
{
    format!("{:x}", md5::compute(bytes))
}

/// Whether `c` is one of the lower-case hexadecimal digits.
pub open spec fn is_lower_hex(c: char) -> bool {
    ('0' <= c && c <= '9') || ('a' <= c && c <= 'f')
}

/// The string to which a JSON pointer leads in a JSON document.
pub uninterp spec fn json_text(bytes: Seq<u8>, pointer: Seq<char>) -> Option<Seq<char>>;

/// `serde_json::from_slice` to a value, `Value::pointer` and `Value::as_str`:
/// the string to which the pointer leads, or nothing where the bytes are no
/// JSON, the pointer leads nowhere or to something else.
#[verifier::external_body]
pub(crate) fn json_text_at(bytes: &[u8], pointer: &str) -> (r: Option<String>)
    ensures
        (match r {
            Some(t) => Some(t@),
            None => None,
        }) == json_text(bytes@, pointer@),
{
    let value = serde_json::from_slice::<serde_json::Value>(bytes).ok()?;
    value.pointer(pointer)?.as_str().map(|t| t.to_owned())
}

/// The unsigned number to which a JSON pointer leads in a JSON document.
pub uninterp spec fn json_number(bytes: Seq<u8>, pointer: Seq<char>) -> Option<u64>;

/// `serde_json::from_slice` to a value, `Value::pointer` and `Value::as_u64`:
/// the number to which the pointer leads, or nothing where the bytes are no
/// JSON, the pointer leads nowhere or to something else.
#[verifier::external_body]
pub(crate) fn json_number_at(bytes: &[u8], pointer: &str) -> (r: Option<u64>)
    ensures
        r == json_number(bytes@, pointer@),
{
    let value = serde_json::from_slice::<serde_json::Value>(bytes).ok()?;
    value.pointer(pointer)?.as_u64()
}

/// The number of elements of the array to which a JSON pointer leads.
pub uninterp spec fn json_length(bytes: Seq<u8>, pointer: Seq<char>) -> Option<usize>;

/// `serde_json::from_slice` to a value, `Value::pointer` and `Value::as_array`:
/// the number of elements of the array to which the pointer leads, or nothing
/// where the bytes are no JSON, the pointer leads nowhere or to something else.
#[verifier::external_body]
pub(crate) fn json_length_at(bytes: &[u8], pointer: &str) -> (r: Option<usize>)
    ensures
        r == json_length(bytes@, pointer@),
{
    let value = serde_json::from_slice::<serde_json::Value>(bytes).ok()?;
    value.pointer(pointer)?.as_array().map(|a| a.len())
}

/// Whether bytes are a JSON document.
pub uninterp spec fn json_document(bytes: Seq<u8>) -> bool;

/// `serde_json::from_slice` to a value: whether it succeeds.
#[verifier::external_body]
pub(crate) fn is_json(bytes: &[u8]) -> (r: bool)
    ensures
        r == json_document(bytes@),
{
    serde_json::from_slice::<serde_json::Value>(bytes).is_ok()
}

/// The address that `append_pair` makes of an address.
pub uninterp spec fn query_url(url: Seq<char>, key: Seq<char>, value: Seq<char>) -> Option<Seq<char>>;

/// The longest address without a query that one is appended to: its
/// serialization stays below the four gigabytes that positions in it can count.
pub const MAX_URL_CHARS: usize = 0x1000_0000;

/// `reqwest::Url::parse`, `query_pairs_mut` and `append_pair`: the address with
/// the pair appended to its query, form-encoded, or nothing where it cannot be
/// parsed. How the pair is encoded is left unsaid, but for the number sign, which
/// an encoding never holds; so an address without a fragment stays without one.
/// The address must have none: it would be put back behind the pair, at a
/// position that may be too far for its 32 bits. Nor may it be too long, unless
/// it has a query already, whose beginning is then known.
#[verifier::external_body]
pub(crate) fn append_query(url: &str, key: &str, value: &str) -> (r: Option<String>)
    requires
        !url@.contains('#'),
        url@.len() <= MAX_URL_CHARS || url@.contains('?'),
    ensures
        (match r {
            Some(u) => Some(u@),
            None => None,
        }) == query_url(url@, key@, value@),
        r matches Some(u) ==> !u@.contains('#') && u@.contains('?'),
{
    let mut parsed = reqwest::Url::parse(url).ok()?;
    parsed.query_pairs_mut().append_pair(key, value);
    Some(parsed.as_str().to_owned())
}

} // verus!
