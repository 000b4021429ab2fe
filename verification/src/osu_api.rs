//! The addresses of the osu! API.
#[allow(unused_imports)]
use crate::local::opt_text;
use crate::number::decimal_signed;
#[allow(unused_imports)]
use crate::number::decimal_int;
use crate::text::{chars_of, join2, trim};
#[allow(unused_imports)]
use crate::text::trim_text;
use crate::trusted::append_query;
#[allow(unused_imports)]
use crate::trusted::query_url;
#[allow(unused_imports)]
use crate::trusted::MAX_URL_CHARS;
use vstd::prelude::*;
use vstd::string::*;

verus! {

/// The address of the search for sets.
pub open spec fn search_base() -> Seq<char> {
    "https://osu.ppy.sh/api/v2/beatmapsets/search"@
}

/// The address after the words were appended, unless they are blank.
pub open spec fn with_words(words: Seq<char>) -> Option<Seq<char>> {
    if trim_text(words).len() == 0 {
        Some(search_base())
    } else {
        query_url(search_base(), "q"@, words)
    }
}

/// The address after the place to go on at was appended, if there is one.
pub open spec fn with_cursor(url: Seq<char>, cursor: Option<Seq<char>>) -> Option<Seq<char>> {
    match cursor {
        None => Some(url),
        Some(c) => query_url(url, "cursor_string"@, c),
    }
}

/// The address after the place to go on at was appended, if there is one.
fn add_cursor(url: String, cursor: Option<&str>) -> (r: Option<String>)
    requires
        !url@.contains('#'),
        url@.len() <= MAX_URL_CHARS || url@.contains('?'),
    ensures
        opt_text(r) == with_cursor(
            url@,
            match cursor {
                Some(c) => Some(c@),
                None => None,
            },
        ),
{
    match cursor {
        None => Some(url),
        Some(c) => append_query(&url, "cursor_string", c),
    }
}

/// The address of a search for sets, if there is one.
pub fn search_url(words: &str, cursor: Option<&str>) -> (r: Option<String>)
    ensures
        opt_text(r) == (match with_words(words@) {
            None => None,
            Some(url) => with_cursor(
                url,
                match cursor {
                    Some(c) => Some(c@),
                    None => None,
                },
            ),
        }),
{
    let base = "https://osu.ppy.sh/api/v2/beatmapsets/search";
    proof {
        reveal_strlit("https://osu.ppy.sh/api/v2/beatmapsets/search");
        assert(base@.len() == 44);
        assert(!base@.contains('#'));
    }
    let url = if chars_of(&trim(words)).len() == 0 {
        Some(base.to_owned())
    } else {
        append_query(base, "q", words)
    };
    match url {
        None => None,
        Some(u) => add_cursor(u, cursor),
    }
}

/// The address of a set.
pub fn api_set_url(beatmapset_id: i64) -> (r: String)
    ensures
        r@ == "https://osu.ppy.sh/api/v2/beatmapsets/"@ + decimal_int(beatmapset_id as int),
{
    join2("https://osu.ppy.sh/api/v2/beatmapsets/", &decimal_signed(beatmapset_id))
}

/// The address of the archive of a set.
pub fn api_download_url(beatmapset_id: i64) -> (r: String)
    ensures
        r@ == "https://osu.ppy.sh/api/v2/beatmapsets/"@ + decimal_int(beatmapset_id as int)
            + "/download"@,
{
    let mut r = api_set_url(beatmapset_id);
    r.append("/download");
    r
}

/// Words that are not blank are sent along, and so is the place to go on at, where
/// there is one; without either the address stays as it is.
pub proof fn law_search_addresses(words: Seq<char>, url: Seq<char>, cursor: Seq<char>)
    ensures
        trim_text(words).len() == 0 ==> with_words(words) == Some(search_base()),
        trim_text(words).len() > 0 ==> with_words(words) == query_url(search_base(), "q"@, words),
        with_cursor(url, None) == Some(url),
        with_cursor(url, Some(cursor)) == query_url(url, "cursor_string"@, cursor),
{
}

} // verus!
