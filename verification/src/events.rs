//! The `[Events]` of beatmaps and storyboards, and the files they name.
use crate::order::TextSet;
use crate::text::{
    chars_of, contains_str, lines, replace, same_ignoring_case, same_text, starts_with, strip_ends,
    to_lower, trim, CharClass,
};
#[allow(unused_imports)]
use crate::text::{
    all_chars, contains_text, first_of, has_prefix, lemma_first_of, lemma_first_of_meaning,
    lemma_lines_keep, lemma_strip_keeps, lemma_trim_last, lines_text, lower_text, replace_char,
    strip_both, strip_front, texts, trim_text, without_cr,
};
#[allow(unused_imports)]
use crate::trusted::full_lower;
use crate::trusted::to_lower_full;
use vstd::prelude::*;
use vstd::string::*;
#[allow(unused_imports)]
use vstd::utf8::is_ascii_chars;

verus! {

/// Whether a trimmed line is the header of a section.
pub open spec fn is_header(line: Seq<char>) -> bool {
    line.len() > 0 && line[0] == '[' && line.last() == ']'
}

/// Whether a trimmed line is the header of a section.
pub fn header(line: &str) -> (r: bool)
    ensures
        r == is_header(line@),
{
    let cs = chars_of(line);
    cs.len() > 0 && cs[0] == '[' && cs[cs.len() - 1] == ']'
}

/// The lines of the `[Events]` sections, each followed by a line feed, where
/// `inside` says whether the first line stands in one.
pub open spec fn events_body(all: Seq<Seq<char>>, inside: bool) -> Seq<char>
    decreases all.len(),
{
    if all.len() == 0 {
        seq![]
    } else {
        let t = trim_text(all[0]);
        let rest = all.drop_first();
        if is_header(t) {
            events_body(rest, lower_text(t) == lower_text("[Events]"@))
        } else if inside {
            all[0] + "\n"@ + events_body(rest, inside)
        } else {
            events_body(rest, inside)
        }
    }
}

/// The lines of the `[Events]` sections of a text, each followed by a line
/// feed.
pub fn events_section(text: &str) -> (r: String)
    ensures
        r@ == events_body(lines_text(text@), false),
{
    let all = lines(text);
    let ghost seqs = texts(all@);
    let mut inside = false;
    let mut body = String::new();
    let mut i: usize = 0;
    proof {
        assert(seqs.skip(0) =~= seqs);
        assert(body@ + events_body(seqs, false) =~= events_body(seqs, false));
    }
    while i < all.len()
        invariant
            i <= all@.len(),
            seqs == texts(all@),
            body@ + events_body(seqs.skip(i as int), inside) == events_body(seqs, false),
        decreases all@.len() - i,
    {
        let trimmed = trim(&all[i]);
        let ghost before = body@;
        proof {
            let rest = seqs.skip(i as int);
            assert(rest[0] == all@[i as int]@);
            assert(rest.drop_first() =~= seqs.skip(i as int + 1));
        }
        if header(&trimmed) {
            inside = same_ignoring_case(&trimmed, "[Events]");
        } else if inside {
            body.append(&all[i]);
            body.append("\n");
            proof {
                let tail = events_body(seqs.skip(i as int + 1), inside);
                assert(before + (all@[i as int]@ + "\n"@ + tail) =~= body@ + tail);
            }
        }
        i = i + 1;
    }
    assert(seqs.skip(i as int) =~= Seq::empty());
    assert(body@ + Seq::<char>::empty() =~= body@);
    body
}

/// The fields of an event line: commas part them, but not inside double
/// quotes, which are dropped; white space around a field is dropped too. Here
/// `inside` says whether a quote is open, and `current` is what the field holds
/// so far.
pub open spec fn event_fields(s: Seq<char>, inside: bool, current: Seq<char>) -> Seq<Seq<char>>
    decreases s.len(),
{
    if s.len() == 0 {
        seq![trim_text(current)]
    } else if s[0] == '"' {
        event_fields(s.drop_first(), !inside, current)
    } else if s[0] == ',' && !inside {
        seq![trim_text(current)] + event_fields(s.drop_first(), inside, seq![])
    } else {
        event_fields(s.drop_first(), inside, current.push(s[0]))
    }
}

/// The fields of an event line.
pub open spec fn fields_of(line: Seq<char>) -> Seq<Seq<char>> {
    event_fields(line, false, seq![])
}

/// The fields of an event line.
pub fn split_event_line(line: &str) -> (fields: Vec<String>)
    ensures
        texts(fields@) == fields_of(line@),
{
    let cs = chars_of(line);
    let mut inside = false;
    let mut current = String::new();
    let mut fields: Vec<String> = Vec::new();
    let mut i: usize = 0;
    proof {
        assert(cs@.skip(0) =~= cs@);
        assert(current@ =~= seq![]);
        assert(texts(fields@) =~= seq![]);
        assert(texts(fields@) + fields_of(line@) =~= fields_of(line@));
    }
    while i < cs.len()
        invariant
            i <= cs@.len(),
            texts(fields@) + event_fields(cs@.skip(i as int), inside, current@) == fields_of(line@),
        decreases cs@.len() - i,
    {
        let c = cs[i];
        let ghost before = texts(fields@);
        proof {
            assert(cs@.skip(i as int)[0] == c);
            assert(cs@.skip(i as int).drop_first() =~= cs@.skip(i as int + 1));
        }
        if c == '"' {
            inside = !inside;
        } else if c == ',' && !inside {
            let field = trim(&current);
            fields.push(field);
            current = String::new();
            proof {
                assert(current@ =~= seq![]);
                assert(texts(fields@) =~= before.push(field@));
                let tail = event_fields(cs@.skip(i as int + 1), inside, seq![]);
                assert(before + (seq![field@] + tail) =~= before.push(field@) + tail);
            }
        } else {
            current.push(c);
        }
        i = i + 1;
    }
    let ghost before = texts(fields@);
    let field = trim(&current);
    fields.push(field);
    assert(cs@.skip(i as int).len() == 0);
    assert(texts(fields@) =~= before + seq![field@]);
    fields
}

/// The form in which names of files are compared: without white space and
/// quotes around them, with slashes between folders.
pub open spec fn plain_asset(name: Seq<char>) -> Seq<char> {
    replace_char(strip_both(trim_text(name), CharClass::Quote), '\\', '/')
}

/// A name of a file without white space and quotes around it, with slashes
/// between folders.
pub fn norm_name(name: &str) -> (r: String)
    ensures
        r@ == plain_asset(name@),
{
    replace(&strip_ends(&trim(name), CharClass::Quote), '\\', '/')
}

/// The key under which a name of a file is known, whatever its case.
pub open spec fn asset_key(name: Seq<char>) -> Seq<char> {
    full_lower(plain_asset(name))
}

/// The key under which a name of a file is known, whatever its case.
pub fn key_of(name: &str) -> (r: String)
    ensures
        r@ == asset_key(name@),
        is_ascii_chars(plain_asset(name@)) ==> r@ == lower_text(plain_asset(name@)),
{
    to_lower_full(&norm_name(name))
}

/// What an event uses a file for.
#[derive(Clone, Copy, Debug, PartialEq, Eq, Structural)]
pub enum EventUse {
    Video,
    Sprite,
    Sample,
}

/// What the first field of an event line says it uses a file for.
pub open spec fn use_of_head(head: Seq<char>) -> Option<EventUse> {
    let h = lower_text(head);
    if h == "video"@ || h == "1"@ {
        Some(EventUse::Video)
    } else if h == "sprite"@ || h == "animation"@ || h == "l"@ {
        Some(EventUse::Sprite)
    } else if h == "sample"@ || h == "s"@ {
        Some(EventUse::Sample)
    } else {
        None
    }
}

/// The file that a line of an events body names, and what for: videos in the
/// third field, images and sounds in the fourth. Comments name none.
pub open spec fn event_asset(raw: Seq<char>) -> Option<(EventUse, Seq<char>)> {
    let line = trim_text(raw);
    if line.len() == 0 || has_prefix(line, "//"@) {
        None
    } else {
        let fields = fields_of(line);
        match use_of_head(fields[0]) {
            None => None,
            Some(u) => {
                let at: int = if u == EventUse::Video {
                    2
                } else {
                    3
                };
                if at < fields.len() && asset_key(fields[at]).len() > 0 {
                    Some((u, asset_key(fields[at])))
                } else {
                    None
                }
            },
        }
    }
}

/// The keys of the files that the lines name for `u`.
pub open spec fn event_assets(all: Seq<Seq<char>>, u: EventUse) -> Set<Seq<char>> {
    Set::new(
        |key: Seq<char>|
            exists|i: int| 0 <= i < all.len() && event_asset(#[trigger] all[i]) == Some((u, key)),
    )
}

/// What the first field of an event line says it uses a file for.
fn head_use(head: &str) -> (r: Option<EventUse>)
    ensures
        r == use_of_head(head@),
{
    let h = to_lower(head);
    if same_text(&h, "video") || same_text(&h, "1") {
        Some(EventUse::Video)
    } else if same_text(&h, "sprite") || same_text(&h, "animation") || same_text(&h, "l") {
        Some(EventUse::Sprite)
    } else if same_text(&h, "sample") || same_text(&h, "s") {
        Some(EventUse::Sample)
    } else {
        None
    }
}

/// There is always a first field.
proof fn lemma_fields_some(s: Seq<char>, inside: bool, current: Seq<char>)
    ensures
        event_fields(s, inside, current).len() > 0,
    decreases s.len(),
{
    if s.len() > 0 {
        if s[0] == '"' {
            lemma_fields_some(s.drop_first(), !inside, current);
        } else if s[0] == ',' && !inside {
        } else {
            lemma_fields_some(s.drop_first(), inside, current.push(s[0]));
        }
    }
}

/// Whether a key holds neither quotes nor backslashes.
pub open spec fn is_clean_key(key: Seq<char>) -> bool {
    !key.contains('"') && !key.contains('\\')
}

/// Whether a key is the lower case of a name with neither quotes nor
/// backslashes, and not empty.
pub open spec fn is_event_key(key: Seq<char>) -> bool {
    key.len() > 0 && exists|name: Seq<char>| is_clean_key(name) && key == #[trigger] full_lower(name)
}

/// The ASCII characters but for the quote.
spec fn unquoted_ascii() -> spec_fn(char) -> bool {
    |c: char| '\0' <= c <= '\u{7f}' && c != '"'
}

/// All characters but the quote.
spec fn unquoted_char() -> spec_fn(char) -> bool {
    |c: char| c != '"'
}

/// Whether all characters of `s` but the quotes pass `p`.
spec fn unquoted_pass(s: Seq<char>, p: spec_fn(char) -> bool) -> bool {
    forall|i: int| 0 <= i < s.len() && s[i] != '"' ==> p(#[trigger] s[i])
}

/// The fields of an event line hold characters of the line, but no quotes.
proof fn lemma_fields_keep(
    s: Seq<char>,
    inside: bool,
    current: Seq<char>,
    p: spec_fn(char) -> bool,
)
    requires
        unquoted_pass(s, p),
        all_chars(current, p),
    ensures
        forall|i: int|
            0 <= i < event_fields(s, inside, current).len() ==> all_chars(
                #[trigger] event_fields(s, inside, current)[i],
                p,
            ),
    decreases s.len(),
{
    let all = event_fields(s, inside, current);
    lemma_strip_keeps(current, CharClass::Space, p);
    lemma_strip_keeps(strip_front(current, CharClass::Space), CharClass::Space, p);
    assert(all_chars(trim_text(current), p));
    if s.len() > 0 {
        let t = s.drop_first();
        assert forall|i: int| 0 <= i < t.len() && t[i] != '"' implies p(#[trigger] t[i]) by {
            assert(t[i] == s[i + 1]);
        }
        if s[0] == '"' {
            lemma_fields_keep(t, !inside, current, p);
            assert(all == event_fields(t, !inside, current));
        } else if s[0] == ',' && !inside {
            lemma_fields_keep(t, inside, seq![], p);
            assert(all == seq![trim_text(current)] + event_fields(t, inside, seq![]));
            assert forall|i: int| 0 <= i < all.len() implies all_chars(#[trigger] all[i], p) by {
                if i > 0 {
                    assert(all[i] == event_fields(t, inside, seq![])[i - 1]);
                }
            }
        } else {
            assert(p(s[0]));
            assert(all_chars(current.push(s[0]), p));
            lemma_fields_keep(t, inside, current.push(s[0]), p);
            assert(all == event_fields(t, inside, current.push(s[0])));
        }
    } else {
        assert(all == seq![trim_text(current)]);
        assert(all[0] == trim_text(current));
    }
}

/// The plain form of a name holds characters of the name, but no backslashes.
proof fn lemma_plain_keeps(name: Seq<char>, p: spec_fn(char) -> bool)
    requires
        all_chars(name, p),
        p('/'),
    ensures
        all_chars(plain_asset(name), p),
        !plain_asset(name).contains('\\'),
{
    lemma_strip_keeps(name, CharClass::Space, p);
    lemma_strip_keeps(strip_front(name, CharClass::Space), CharClass::Space, p);
    let t = trim_text(name);
    lemma_strip_keeps(t, CharClass::Quote, p);
    lemma_strip_keeps(strip_front(t, CharClass::Quote), CharClass::Quote, p);
    let u = strip_both(t, CharClass::Quote);
    assert forall|i: int| 0 <= i < plain_asset(name).len() implies p(
        #[trigger] plain_asset(name)[i],
    ) by {
        assert(p(u[i]));
    }
}

/// The plain form of a field without quotes is a clean key.
proof fn lemma_clean_name(name: Seq<char>)
    requires
        all_chars(name, unquoted_char()),
    ensures
        is_clean_key(plain_asset(name)),
{
    lemma_plain_keeps(name, unquoted_char());
    assert forall|i: int| 0 <= i < plain_asset(name).len() implies #[trigger] plain_asset(
        name,
    )[i] != '"' by {
        assert(unquoted_char()(plain_asset(name)[i]));
    }
}

/// The key of an ASCII field without quotes holds neither quotes nor
/// backslashes.
proof fn lemma_clean_key(name: Seq<char>)
    requires
        all_chars(name, unquoted_ascii()),
    ensures
        is_ascii_chars(plain_asset(name)),
        is_clean_key(lower_text(plain_asset(name))),
{
    let p = unquoted_ascii();
    lemma_plain_keeps(name, p);
    let plain = plain_asset(name);
    let low = lower_text(plain);
    assert forall|i: int| 0 <= i < plain.len() implies '\0' <= #[trigger] plain[i] <= '\u{7f}'
        && plain[i] != '"' by {
        assert(p(plain[i]));
    }
    assert forall|i: int| 0 <= i < low.len() implies #[trigger] low[i] != '"' && low[i] != '\\' by {
        assert(plain.contains(plain[i]));
        assert(low[i] == crate::text::lower_char(plain[i]));
    }
}

/// What an event line names is the lower case of a clean name.
proof fn lemma_event_key(raw: Seq<char>)
    ensures
        event_asset(raw) matches Some((u, key)) ==> is_event_key(key),
{
    let line = trim_text(raw);
    lemma_fields_keep(line, false, seq![], unquoted_char());
    if let Some((u, key)) = event_asset(raw) {
        let at: int = if u == EventUse::Video {
            2
        } else {
            3
        };
        let name = fields_of(line)[at];
        assert(all_chars(name, unquoted_char()));
        lemma_clean_name(name);
        assert(key == full_lower(plain_asset(name)));
    }
}

/// The file that a line of an events body names, and what for. A key is never
/// empty, and is the lower case of a name with neither quotes nor backslashes.
/// That it holds none itself is said of ASCII lines only: of other characters it
/// is not known here what lower case makes of them.
pub fn parse_event_asset(raw: &str) -> (r: Option<(EventUse, String)>)
    ensures
        match r {
            Some((u, key)) => event_asset(raw@) == Some((u, key@)),
            None => event_asset(raw@) is None,
        },
        r matches Some((u, key)) ==> is_event_key(key@) && (is_ascii_chars(raw@) ==> is_clean_key(
            key@,
        )),
{
    let line = trim(raw);
    if chars_of(&line).len() == 0 || starts_with(&line, "//") {
        return None;
    }
    let fields = split_event_line(&line);
    proof {
        lemma_fields_some(line@, false, seq![]);
    }
    assert(texts(fields@).len() == fields@.len());
    assert(texts(fields@)[0] == fields@[0]@);
    let u = match head_use(&fields[0]) {
        Some(u) => u,
        None => return None,
    };
    let at: usize = if u == EventUse::Video {
        2
    } else {
        3
    };
    if at >= fields.len() {
        return None;
    }
    let key = key_of(&fields[at]);
    assert(texts(fields@)[at as int] == fields@[at as int]@);
    proof {
        if is_ascii_chars(raw@) {
            let p = |c: char| '\0' <= c <= '\u{7f}';
            lemma_strip_keeps(raw@, CharClass::Space, p);
            lemma_strip_keeps(strip_front(raw@, CharClass::Space), CharClass::Space, p);
            assert forall|i: int| 0 <= i < line@.len() implies '\0' <= #[trigger] line@[i]
                <= '\u{7f}' by {
                assert(p(line@[i]));
            }
            lemma_fields_keep(line@, false, seq![], unquoted_ascii());
            lemma_clean_key(fields@[at as int]@);
        }
        lemma_event_key(raw@);
    }
    if chars_of(&key).len() == 0 {
        return None;
    }
    Some((u, key))
}

/// The keys of the videos, the images and the sounds that an events body
/// names.
pub fn parse_event_assets(body: &str) -> (r: (TextSet, TextSet, TextSet))
    ensures
        r.0.wf() && r.1.wf() && r.2.wf(),
        r.0@ == event_assets(lines_text(body@), EventUse::Video),
        r.1@ == event_assets(lines_text(body@), EventUse::Sprite),
        r.2@ == event_assets(lines_text(body@), EventUse::Sample),
        forall|key: Seq<char>| #[trigger] r.0@.contains(key) ==> is_event_key(key),
        forall|key: Seq<char>| #[trigger] r.1@.contains(key) ==> is_event_key(key),
        forall|key: Seq<char>| #[trigger] r.2@.contains(key) ==> is_event_key(key),
        is_ascii_chars(body@) ==> forall|key: Seq<char>| #[trigger] r.0@.contains(key)
            ==> is_clean_key(key),
        is_ascii_chars(body@) ==> forall|key: Seq<char>| #[trigger] r.1@.contains(key)
            ==> is_clean_key(key),
        is_ascii_chars(body@) ==> forall|key: Seq<char>| #[trigger] r.2@.contains(key)
            ==> is_clean_key(key),
{
    let all = lines(body);
    let ghost seqs = texts(all@);
    proof {
        if is_ascii_chars(body@) {
            lemma_lines_keep(body@, |c: char| '\0' <= c <= '\u{7f}');
        }
    }
    let mut videos = TextSet::new();
    let mut sprites = TextSet::new();
    let mut samples = TextSet::new();
    let mut i: usize = 0;
    assert(videos@ =~= event_assets(seqs.take(0), EventUse::Video));
    assert(sprites@ =~= event_assets(seqs.take(0), EventUse::Sprite));
    assert(samples@ =~= event_assets(seqs.take(0), EventUse::Sample));
    while i < all.len()
        invariant
            i <= all@.len(),
            seqs == texts(all@),
            seqs == lines_text(body@),
            is_ascii_chars(body@) ==> forall|j: int|
                0 <= j < seqs.len() ==> all_chars(
                    #[trigger] seqs[j],
                    |c: char| '\0' <= c <= '\u{7f}',
                ),
            is_ascii_chars(body@) ==> forall|key: Seq<char>| #[trigger] videos@.contains(key)
                ==> is_clean_key(key),
            is_ascii_chars(body@) ==> forall|key: Seq<char>| #[trigger] sprites@.contains(key)
                ==> is_clean_key(key),
            is_ascii_chars(body@) ==> forall|key: Seq<char>| #[trigger] samples@.contains(key)
                ==> is_clean_key(key),
            videos.wf() && sprites.wf() && samples.wf(),
            videos@ == event_assets(seqs.take(i as int), EventUse::Video),
            sprites@ == event_assets(seqs.take(i as int), EventUse::Sprite),
            samples@ == event_assets(seqs.take(i as int), EventUse::Sample),
        decreases all@.len() - i,
    {
        let found = parse_event_asset(&all[i]);
        proof {
            assert(seqs[i as int] == all@[i as int]@);
            if is_ascii_chars(body@) {
                let p = |c: char| '\0' <= c <= '\u{7f}';
                assert(all_chars(seqs[i as int], p));
                assert forall|j: int| 0 <= j < all@[i as int]@.len() implies '\0'
                    <= #[trigger] all@[i as int]@[j] <= '\u{7f}' by {
                    assert(p(seqs[i as int][j]));
                }
            }
            lemma_event_assets_step(seqs, i as int, EventUse::Video);
            lemma_event_assets_step(seqs, i as int, EventUse::Sprite);
            lemma_event_assets_step(seqs, i as int, EventUse::Sample);
        }
        if let Some((u, key)) = found {
            match u {
                EventUse::Video => {
                    videos.insert(key);
                },
                EventUse::Sprite => {
                    sprites.insert(key);
                },
                EventUse::Sample => {
                    samples.insert(key);
                },
            }
        }
        i = i + 1;
    }
    proof {
        assert(seqs.take(i as int) =~= seqs);
        assert forall|key: Seq<char>| #[trigger] videos@.contains(key) implies is_event_key(key) by {
            law_event_names(body@, EventUse::Video, key);
        }
        assert forall|key: Seq<char>| #[trigger] sprites@.contains(key) implies is_event_key(
            key,
        ) by {
            law_event_names(body@, EventUse::Sprite, key);
        }
        assert forall|key: Seq<char>| #[trigger] samples@.contains(key) implies is_event_key(
            key,
        ) by {
            law_event_names(body@, EventUse::Sample, key);
        }
    }
    (videos, sprites, samples)
}

/// One line more names at most one file more.
proof fn lemma_event_assets_step(all: Seq<Seq<char>>, i: int, u: EventUse)
    requires
        0 <= i < all.len(),
    ensures
        event_assets(all.take(i + 1), u) == (match event_asset(all[i]) {
            Some((v, key)) => if v == u {
                event_assets(all.take(i), u).insert(key)
            } else {
                event_assets(all.take(i), u)
            },
            None => event_assets(all.take(i), u),
        }),
{
    let a = event_assets(all.take(i), u);
    let b = event_assets(all.take(i + 1), u);
    assert forall|key: Seq<char>| #[trigger] b.contains(key) implies a.contains(key) || event_asset(
        all[i],
    ) == Some((u, key)) by {
        let j = choose|j: int|
            0 <= j < i + 1 && event_asset(#[trigger] all.take(i + 1)[j]) == Some((u, key));
        if j < i {
            assert(all.take(i)[j] == all.take(i + 1)[j]);
        }
    }
    assert forall|key: Seq<char>| #[trigger] a.contains(key) implies b.contains(key) by {
        let j = choose|j: int|
            0 <= j < i && event_asset(#[trigger] all.take(i)[j]) == Some((u, key));
        assert(all.take(i + 1)[j] == all.take(i)[j]);
    }
    assert forall|key: Seq<char>| event_asset(all[i]) == Some((u, key)) implies #[trigger] b.contains(
        key,
    ) by {
        assert(all.take(i + 1)[i] == all[i]);
    }
    assert(b =~= (match event_asset(all[i]) {
        Some((v, key)) => if v == u {
            a.insert(key)
        } else {
            a
        },
        None => a,
    }));
}

/// Two lists of lines in a row name what each of them names.
proof fn lemma_event_assets_joined(a: Seq<Seq<char>>, b: Seq<Seq<char>>, u: EventUse)
    ensures
        event_assets(a + b, u) == event_assets(a, u).union(event_assets(b, u)),
{
    let both = event_assets(a + b, u);
    assert forall|key: Seq<char>| #[trigger] both.contains(key) implies event_assets(
        a,
        u,
    ).contains(key) || event_assets(b, u).contains(key) by {
        let j = choose|j: int|
            0 <= j < (a + b).len() && event_asset(#[trigger] (a + b)[j]) == Some((u, key));
        if j < a.len() {
            assert(event_asset(a[j]) == Some((u, key)));
        } else {
            assert(event_asset(b[j - a.len()]) == Some((u, key)));
        }
    }
    assert forall|key: Seq<char>| #[trigger] event_assets(a, u).contains(
        key,
    ) implies both.contains(key) by {
        let j = choose|j: int| 0 <= j < a.len() && event_asset(#[trigger] a[j]) == Some((u, key));
        assert((a + b)[j] == a[j]);
    }
    assert forall|key: Seq<char>| #[trigger] event_assets(b, u).contains(
        key,
    ) implies both.contains(key) by {
        let j = choose|j: int| 0 <= j < b.len() && event_asset(#[trigger] b[j]) == Some((u, key));
        assert((a + b)[a.len() + j] == b[j]);
    }
    assert(both =~= event_assets(a, u).union(event_assets(b, u)));
}

/// The events of two texts with a line feed between them name what the events
/// of the first and those of the second name: the order and the grouping of
/// lines decide nothing.
pub proof fn law_joined_events(a: Seq<char>, b: Seq<char>, u: EventUse)
    ensures
        event_assets(lines_text(a + seq!['\n'] + b), u) == event_assets(lines_text(a), u).union(
            event_assets(lines_text(b), u),
        ),
    decreases a.len(),
{
    let s = a + seq!['\n'] + b;
    let k = first_of(a, '\n') as int;
    lemma_first_of_meaning(a, '\n');
    assert forall|i: int| 0 <= i < k implies s[i] != '\n' by {
        assert(s[i] == a[i]);
    }
    lemma_first_of(s, '\n', k);
    assert(s.take(k) =~= a.take(k));
    let line = without_cr(a.take(k));
    let one = seq![line];
    if k < a.len() {
        let rest = a.skip(k + 1);
        assert(s.skip(k + 1) =~= rest + seq!['\n'] + b);
        law_joined_events(rest, b, u);
        assert(lines_text(s) == one + lines_text(rest + seq!['\n'] + b));
        assert(lines_text(a) == one + lines_text(rest));
        lemma_event_assets_joined(one, lines_text(rest + seq!['\n'] + b), u);
        lemma_event_assets_joined(one, lines_text(rest), u);
        assert(event_assets(lines_text(s), u) =~= event_assets(lines_text(a), u).union(
            event_assets(lines_text(b), u),
        ));
    } else {
        assert(a.take(k) =~= a);
        assert(s.skip(k + 1) =~= b);
        assert(lines_text(s) == one + lines_text(b));
        lemma_event_assets_joined(one, lines_text(b), u);
        if a.len() > 0 {
            if a.last() == '\r' {
                lemma_trim_last(a);
            }
            assert(event_asset(line) == event_asset(a));
            assert(lines_text(a) =~= seq![a]);
            assert(seq![a][0] == a);
            assert(one[0] == line);
            assert(event_assets(one, u) =~= event_assets(seq![a], u));
        } else {
            assert(line.len() == 0);
            assert(trim_text(line) == line);
            assert(event_asset(line) is None);
            assert(event_assets(one, u) =~= event_assets(lines_text(a), u));
        }
    }
}

/// No name in the events of a text is empty, and each is the lower case of a
/// name with neither quotes nor backslashes.
pub proof fn law_event_names(text: Seq<char>, u: EventUse, key: Seq<char>)
    requires
        event_assets(lines_text(text), u).contains(key),
    ensures
        key.len() > 0,
        exists|name: Seq<char>| is_clean_key(name) && key == #[trigger] full_lower(name),
{
    let all = lines_text(text);
    let i = choose|i: int| 0 <= i < all.len() && event_asset(#[trigger] all[i]) == Some((u, key));
    lemma_event_key(all[i]);
}

/// Whether a name is one that the game plays as a hitsound without any
/// beatmap naming it.
pub open spec fn hitsound_name(name: Seq<char>) -> bool {
    let s = lower_text(name);
    ||| has_prefix(s, "normal-"@)
    ||| has_prefix(s, "soft-"@)
    ||| has_prefix(s, "drum-"@)
    ||| contains_text(s, "hitnormal"@)
    ||| contains_text(s, "hitclap"@)
    ||| contains_text(s, "hitfinish"@)
    ||| contains_text(s, "hitwhistle"@)
    ||| contains_text(s, "slidertick"@)
    ||| contains_text(s, "sliderslide"@)
    ||| contains_text(s, "sliderwhistle"@)
}

/// Whether a name is one that the game plays as a hitsound without any
/// beatmap naming it.
pub fn is_hitsound_name(name: &str) -> (r: bool)
    ensures
        r == hitsound_name(name@),
{
    let s = to_lower(name);
    starts_with(&s, "normal-") || starts_with(&s, "soft-") || starts_with(&s, "drum-")
        || contains_str(&s, "hitnormal") || contains_str(&s, "hitclap") || contains_str(
        &s,
        "hitfinish",
    ) || contains_str(&s, "hitwhistle") || contains_str(&s, "slidertick") || contains_str(
        &s,
        "sliderslide",
    ) || contains_str(&s, "sliderwhistle")
}

/// Characters that are neither quotes nor, outside of quotes, commas only grow
/// the field that they stand in.
proof fn lemma_field_grows(a: Seq<char>, rest: Seq<char>, inside: bool, current: Seq<char>)
    requires
        !a.contains('"'),
        inside || !a.contains(','),
    ensures
        event_fields(a + rest, inside, current) == event_fields(rest, inside, current + a),
    decreases a.len(),
{
    if a.len() == 0 {
        assert(a + rest =~= rest);
        assert(current + a =~= current);
    } else {
        let s = a + rest;
        let t = a.drop_first();
        assert(a.contains(a[0]));
        assert(s[0] == a[0]);
        assert(s.drop_first() =~= t + rest);
        assert forall|c: char| t.contains(c) implies a.contains(c) by {
            let i = choose|i: int| 0 <= i < t.len() && t[i] == c;
            assert(a[i + 1] == c);
        }
        lemma_field_grows(t, rest, inside, current.push(a[0]));
        assert(current.push(a[0]) + t =~= current + a);
    }
}

/// A comma ends a field, and a comma between quotes does not. The quotes
/// themselves and the white space around a field are dropped.
pub proof fn law_event_fields(a: Seq<char>, q: Seq<char>, rest: Seq<char>)
    requires
        !a.contains('"') && !a.contains(','),
        !q.contains('"'),
    ensures
        fields_of(a) == seq![trim_text(a)],
        fields_of(a + seq![','] + rest) == seq![trim_text(a)] + fields_of(rest),
        fields_of(seq!['"'] + q + seq!['"']) == seq![trim_text(q)],
        fields_of(seq!['"'] + q + seq!['"', ','] + rest) == seq![trim_text(q)] + fields_of(rest),
{
    let none = Seq::<char>::empty();
    assert(a + none =~= a);
    lemma_field_grows(a, none, false, none);
    assert(none + a =~= a);
    let s = a + seq![','] + rest;
    assert(s =~= a + (seq![','] + rest));
    lemma_field_grows(a, seq![','] + rest, false, none);
    assert((seq![','] + rest).drop_first() =~= rest);
    let one = seq!['"'] + q + seq!['"'];
    assert(one.drop_first() =~= q + seq!['"']);
    lemma_field_grows(q, seq!['"'], true, none);
    assert(none + q =~= q);
    assert(seq!['"'].drop_first() =~= none);
    assert(event_fields(none, false, q) == seq![trim_text(q)]);
    assert(event_fields(seq!['"'], true, q) == event_fields(none, false, q));
    let two = seq!['"'] + q + seq!['"', ','] + rest;
    let behind = seq!['"', ','] + rest;
    assert(two.drop_first() =~= q + behind);
    lemma_field_grows(q, behind, true, none);
    assert(behind.drop_first() =~= seq![','] + rest);
    assert(event_fields(behind, true, q) == event_fields(seq![','] + rest, false, q));
}

/// A video line names its third field, a sprite or animation line and a sample
/// line name their fourth, each by its word or its short form; other lines name
/// nothing.
pub proof fn law_event_words(head: Seq<char>)
    ensures
        lower_text(head) == "video"@ || head == "1"@ ==> use_of_head(head) == Some(EventUse::Video),
        lower_text(head) == "sprite"@ || lower_text(head) == "animation"@ || lower_text(head)
            == "l"@ ==> use_of_head(head) == Some(EventUse::Sprite),
        lower_text(head) == "sample"@ || lower_text(head) == "s"@ ==> use_of_head(head) == Some(
            EventUse::Sample,
        ),
        lower_text(head) == "background"@ || head == "0"@ || head == "2"@ ==> use_of_head(head) is None,
        use_of_head(head) is Some ==> lower_text(head) == "video"@ || head == "1"@ || lower_text(
            head,
        ) == "sprite"@ || lower_text(head) == "animation"@ || lower_text(head) == "l"@
            || lower_text(head) == "sample"@ || lower_text(head) == "s"@,
{
    reveal_strlit("video");
    reveal_strlit("1");
    reveal_strlit("sprite");
    reveal_strlit("animation");
    reveal_strlit("l");
    reveal_strlit("sample");
    reveal_strlit("s");
    reveal_strlit("background");
    reveal_strlit("0");
    reveal_strlit("2");
    let h = lower_text(head);
    assert("1"@[0] == '1' && "0"@[0] == '0' && "2"@[0] == '2');
    assert("l"@[0] == 'l' && "s"@[0] == 's');
    assert(lower_text("1"@) =~= "1"@);
    assert(lower_text("0"@) =~= "0"@);
    assert(lower_text("2"@) =~= "2"@);
    assert("video"@.len() == 5 && "animation"@.len() == 9 && "background"@.len() == 10);
    assert("sprite"@.len() == 6 && "sprite"@[1] == 'p');
    assert("sample"@.len() == 6 && "sample"@[1] == 'a');
    assert("1"@.len() == 1 && "0"@.len() == 1 && "2"@.len() == 1);
    assert("l"@.len() == 1 && "s"@.len() == 1);
    if head == "0"@ {
        assert(h[0] == '0');
    }
    if head == "2"@ {
        assert(h[0] == '2');
    }
    if h == "1"@ {
        assert(head.len() == 1);
        assert(h[0] == '1');
        assert(head =~= "1"@);
    }
}

/// The file that a line names stands in the third field of a video line and in
/// the fourth of the others.
pub proof fn law_event_files(raw: Seq<char>, name: Seq<char>)
    requires
        ({
            let line = trim_text(raw);
            let fields = fields_of(line);
            &&& line.len() > 0 && !(line.len() > 1 && line[0] == '/' && line[1] == '/')
            &&& use_of_head(fields[0]) is Some
            &&& use_of_head(fields[0]) == Some(EventUse::Video) ==> fields.len() > 2 && fields[2]
                == name
            &&& use_of_head(fields[0]) != Some(EventUse::Video) ==> fields.len() > 3 && fields[3]
                == name
            &&& asset_key(name).len() > 0
        }),
    ensures
        event_asset(raw) == Some((use_of_head(fields_of(trim_text(raw))[0])->0, asset_key(name))),
{
    reveal_strlit("//");
    let line = trim_text(raw);
    if has_prefix(line, "//"@) {
        assert(line.take(2)[0] == '/' && line.take(2)[1] == '/');
    }
}

/// Blank lines and comments name nothing.
pub proof fn law_comments_name_nothing(raw: Seq<char>, rest: Seq<char>)
    requires
        trim_text(raw).len() == 0 || trim_text(raw) == seq!['/', '/'] + rest,
    ensures
        event_asset(raw) is None,
{
    reveal_strlit("//");
    assert((seq!['/', '/'] + rest).take(2) =~= "//"@);
}

/// Names that differ in slashes, quotes or white space around them only have the
/// same key.
pub proof fn law_same_key(a: Seq<char>, b: Seq<char>)
    requires
        a.len() == b.len(),
        forall|i: int|
            0 <= i < a.len() ==> #[trigger] a[i] == b[i] || (a[i] == '\\' && b[i] == '/') || (a[i]
                == '/' && b[i] == '\\'),
        a.len() > 0 ==> !crate::text::is_space(a[0]) && !crate::text::is_space(a.last()) && a[0]
            != '"' && a.last() != '"',
    ensures
        asset_key(a) == asset_key(b),
        asset_key(seq!['"'] + a + seq!['"']) == asset_key(a),
{
    if a.len() > 0 {
        assert(a[0] == b[0] || !crate::text::is_space(b[0]));
        assert(!crate::text::is_space(b[0]) && b[0] != '"');
        let n = a.len() - 1;
        assert(a[n] == b[n] || !crate::text::is_space(b[n]));
        assert(!crate::text::is_space(b.last()) && b.last() != '"');
    }
    assert(trim_text(a) == a && trim_text(b) == b);
    assert(strip_both(a, CharClass::Quote) == a && strip_both(b, CharClass::Quote) == b);
    assert(plain_asset(a) =~= plain_asset(b));
    let q = seq!['"'] + a + seq!['"'];
    assert(trim_text(q) == q);
    assert(q.drop_first() =~= a + seq!['"']);
    let f = a + seq!['"'];
    if a.len() > 0 {
        assert(f[0] == a[0]);
        assert(strip_front(f, CharClass::Quote) == f);
        assert(q[0] == '"');
        assert(strip_front(q, CharClass::Quote) == strip_front(q.drop_first(), CharClass::Quote));
        assert(f.drop_last() =~= a);
        assert(crate::text::strip_back(f, CharClass::Quote) == a);
    } else {
        assert(f.drop_first() =~= a);
        assert(strip_front(f, CharClass::Quote) == a);
        assert(strip_front(q, CharClass::Quote) == a);
        assert(crate::text::strip_back(a, CharClass::Quote) == a);
    }
}

/// Only the lines of the sections called Events count, whatever the case of the
/// word; a header ends the section before it.
pub proof fn law_events_sections(
    before: Seq<Seq<char>>,
    line: Seq<char>,
    header_line: Seq<char>,
    inside: bool,
)
    requires
        !is_header(trim_text(line)),
        is_header(trim_text(header_line)),
    ensures
        events_body(seq![line] + before, true) == line + seq!['\n'] + events_body(before, true),
        events_body(seq![line] + before, false) == events_body(before, false),
        events_body(seq![header_line] + before, inside) == events_body(
            before,
            lower_text(trim_text(header_line)) == seq!['[', 'e', 'v', 'e', 'n', 't', 's', ']'],
        ),
{
    reveal_strlit("\n");
    reveal_strlit("[Events]");
    assert((seq![line] + before).drop_first() =~= before);
    assert((seq![header_line] + before).drop_first() =~= before);
    assert("\n"@ =~= seq!['\n']);
    assert(lower_text("[Events]"@) =~= seq!['[', 'e', 'v', 'e', 'n', 't', 's', ']']);
}

/// The sounds of the game are known by the beginning of their names or by the
/// word for the hit in them, whatever the case.
pub proof fn law_hitsound_names(a: Seq<char>, b: Seq<char>, name: Seq<char>)
    ensures
        lower_text(name) == "normal-"@ + b || lower_text(name) == "soft-"@ + b || lower_text(name)
            == "drum-"@ + b ==> hitsound_name(name),
        lower_text(name) == a + "hitnormal"@ + b || lower_text(name) == a + "hitclap"@ + b
            || lower_text(name) == a + "hitfinish"@ + b || lower_text(name) == a + "hitwhistle"@ + b
            || lower_text(name) == a + "slidertick"@ + b || lower_text(name) == a + "sliderslide"@
            + b || lower_text(name) == a + "sliderwhistle"@ + b ==> hitsound_name(name),
{
    crate::text::law_parts_of_texts("normal-"@, b, b, b);
    crate::text::law_parts_of_texts("soft-"@, b, b, b);
    crate::text::law_parts_of_texts("drum-"@, b, b, b);
    crate::text::law_parts_of_texts(a, "hitnormal"@, b, b);
    crate::text::law_parts_of_texts(a, "hitclap"@, b, b);
    crate::text::law_parts_of_texts(a, "hitfinish"@, b, b);
    crate::text::law_parts_of_texts(a, "hitwhistle"@, b, b);
    crate::text::law_parts_of_texts(a, "slidertick"@, b, b);
    crate::text::law_parts_of_texts(a, "sliderslide"@, b, b);
    crate::text::law_parts_of_texts(a, "sliderwhistle"@, b, b);
}

} // verus!
