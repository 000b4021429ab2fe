//! Text as sequences of characters: trimming, splitting, searching and
//! comparing, each stated over `Seq<char>`.
use vstd::prelude::*;
#[allow(unused_imports)]
use vstd::std_specs::iter::IteratorSpec;
use vstd::string::*;

verus! {

/// `String::push` appends one character.
pub assume_specification[ String::push ](s: &mut String, c: char)
    ensures
        final(s)@ == old(s)@.push(c),
;

/// The views of a list of strings.
pub open spec fn texts(v: Seq<String>) -> Seq<Seq<char>> {
    Seq::new(v.len(), |i: int| v[i]@)
}

/// A set of characters that trimming can take off the ends of a text.
#[derive(Clone, Copy, Debug, PartialEq, Eq, Structural)]
pub enum CharClass {
    /// The characters with the Unicode property `White_Space`.
    Space,
    /// The double quote.
    Quote,
    /// The digit zero.
    Zero,
    /// The full stop.
    Dot,
    /// The backslash and the slash.
    Slash,
    /// The slash.
    ForwardSlash,
}

/// The characters with the Unicode property `White_Space`.
pub open spec fn is_space(c: char) -> bool {
    let n = c as u32;
    ||| 9 <= n <= 13
    ||| n == 0x20
    ||| n == 0x85
    ||| n == 0xa0
    ||| n == 0x1680
    ||| 0x2000 <= n <= 0x200a
    ||| n == 0x2028
    ||| n == 0x2029
    ||| n == 0x202f
    ||| n == 0x205f
    ||| n == 0x3000
}

/// Whether `c` belongs to `class`.
pub open spec fn in_class(class: CharClass, c: char) -> bool {
    match class {
        CharClass::Space => is_space(c),
        CharClass::Quote => c == '"',
        CharClass::Zero => c == '0',
        CharClass::Dot => c == '.',
        CharClass::Slash => c == '\\' || c == '/',
        CharClass::ForwardSlash => c == '/',
    }
}

/// `s` without its longest prefix of characters of `class`.
pub open spec fn strip_front(s: Seq<char>, class: CharClass) -> Seq<char>
    decreases s.len(),
{
    if s.len() > 0 && in_class(class, s[0]) {
        strip_front(s.drop_first(), class)
    } else {
        s
    }
}

/// `s` without its longest suffix of characters of `class`.
pub open spec fn strip_back(s: Seq<char>, class: CharClass) -> Seq<char>
    decreases s.len(),
{
    if s.len() > 0 && in_class(class, s.last()) {
        strip_back(s.drop_last(), class)
    } else {
        s
    }
}

/// `s` without the characters of `class` at both ends.
pub open spec fn strip_both(s: Seq<char>, class: CharClass) -> Seq<char> {
    strip_back(strip_front(s, class), class)
}

/// `s` without the white space at both ends.
pub open spec fn trim_text(s: Seq<char>) -> Seq<char> {
    strip_both(s, CharClass::Space)
}

/// How many characters stand before the first `c` in `s`: all of them where
/// `c` does not occur.
pub open spec fn first_of(s: Seq<char>, c: char) -> nat
    decreases s.len(),
{
    if s.len() == 0 || s[0] == c {
        0
    } else {
        1 + first_of(s.drop_first(), c)
    }
}

/// The position of the last `c` in `s`, or -1.
pub open spec fn last_of(s: Seq<char>, c: char) -> int
    decreases s.len(),
{
    if s.len() == 0 {
        -1
    } else if s.last() == c {
        s.len() - 1
    } else {
        last_of(s.drop_last(), c)
    }
}

/// The position of the last slash or backslash in `s`, or -1.
pub open spec fn last_separator(s: Seq<char>) -> int {
    let slash = last_of(s, '/');
    let backslash = last_of(s, '\\');
    if slash > backslash {
        slash
    } else {
        backslash
    }
}

/// The parts of `s` between the occurrences of `c`.
pub open spec fn split_text(s: Seq<char>, c: char) -> Seq<Seq<char>>
    decreases s.len(),
{
    let k = first_of(s, c) as int;
    if k >= s.len() {
        seq![s]
    } else {
        seq![s.take(k)] + split_text(s.skip(k + 1), c)
    }
}

/// `s` parted at the first `c`, which is left out.
pub open spec fn split_once_text(s: Seq<char>, c: char) -> Option<(Seq<char>, Seq<char>)> {
    let k = first_of(s, c) as int;
    if k >= s.len() {
        None
    } else {
        Some((s.take(k), s.skip(k + 1)))
    }
}

/// A line that ended in a line feed, without the carriage return before it.
pub open spec fn without_cr(s: Seq<char>) -> Seq<char> {
    if s.len() > 0 && s.last() == '\r' {
        s.drop_last()
    } else {
        s
    }
}

/// The lines of `s`: each ends in a line feed, which may follow a carriage
/// return, or at the end of the text. An empty rest is no line.
pub open spec fn lines_text(s: Seq<char>) -> Seq<Seq<char>>
    decreases s.len(),
{
    let k = first_of(s, '\n') as int;
    if s.len() == 0 {
        seq![]
    } else if k >= s.len() {
        seq![s]
    } else {
        seq![without_cr(s.take(k))] + lines_text(s.skip(k + 1))
    }
}

/// Whether `s` begins with `prefix`.
pub open spec fn has_prefix(s: Seq<char>, prefix: Seq<char>) -> bool {
    prefix.len() <= s.len() && s.take(prefix.len() as int) == prefix
}

/// Whether `s` ends with `suffix`.
pub open spec fn has_suffix(s: Seq<char>, suffix: Seq<char>) -> bool {
    suffix.len() <= s.len() && s.skip(s.len() - suffix.len()) == suffix
}

/// Whether `needle` stands in `s` at position `i`.
pub open spec fn occurs_at(s: Seq<char>, needle: Seq<char>, i: int) -> bool {
    0 <= i && i + needle.len() <= s.len() && s.subrange(i, i + needle.len()) == needle
}

/// Whether `needle` stands anywhere in `s`.
pub open spec fn contains_text(s: Seq<char>, needle: Seq<char>) -> bool {
    exists|i: int| occurs_at(s, needle, i)
}

/// The ASCII lower case of a character; other characters stay.
pub open spec fn lower_char(c: char) -> char {
    if 'A' <= c && c <= 'Z' {
        ((c as u32) + 32) as char
    } else {
        c
    }
}

/// `s` with its ASCII letters in lower case.
pub open spec fn lower_text(s: Seq<char>) -> Seq<char> {
    Seq::new(s.len(), |i: int| lower_char(s[i]))
}

/// `s` with every `from` made a `to`.
pub open spec fn replace_char(s: Seq<char>, from: char, to: char) -> Seq<char> {
    Seq::new(s.len(), |i: int| if s[i] == from { to } else { s[i] })
}

/// The parts in a row, with `sep` between them.
pub open spec fn join_texts(parts: Seq<Seq<char>>, sep: Seq<char>) -> Seq<char>
    decreases parts.len(),
{
    if parts.len() == 0 {
        seq![]
    } else if parts.len() == 1 {
        parts[0]
    } else {
        join_texts(parts.drop_last(), sep) + sep + parts.last()
    }
}

pub proof fn lemma_first_of(s: Seq<char>, c: char, k: int)
    requires
        0 <= k <= s.len(),
        forall|i: int| 0 <= i < k ==> s[i] != c,
        k == s.len() || s[k] == c,
    ensures
        first_of(s, c) == k,
    decreases s.len(),
{
    if s.len() > 0 && s[0] != c {
        assert forall|i: int| 0 <= i < k - 1 implies s.drop_first()[i] != c by {
            assert(s.drop_first()[i] == s[i + 1]);
        }
        lemma_first_of(s.drop_first(), c, k - 1);
    }
}

/// What `first_of` says of the characters before it and at it.
pub proof fn lemma_first_of_meaning(s: Seq<char>, c: char)
    ensures
        first_of(s, c) <= s.len(),
        forall|i: int| 0 <= i < first_of(s, c) ==> s[i] != c,
        first_of(s, c) < s.len() ==> s[first_of(s, c) as int] == c,
        first_of(s, c) < s.len() <==> s.contains(c),
    decreases s.len(),
{
    if s.len() > 0 && s[0] != c {
        let t = s.drop_first();
        lemma_first_of_meaning(t, c);
        assert forall|i: int| 0 <= i < first_of(s, c) implies s[i] != c by {
            if i > 0 {
                assert(s[i] == t[i - 1]);
            }
        }
        if s.contains(c) {
            let j = choose|j: int| 0 <= j < s.len() && s[j] == c;
            assert(t[j - 1] == c);
        }
    }
}

/// White space at the end of a text is trimmed off, also where it is the end
/// of a line.
pub proof fn lemma_trim_last(s: Seq<char>)
    requires
        s.len() > 0,
        is_space(s.last()),
    ensures
        trim_text(s.drop_last()) == trim_text(s),
    decreases s.len(),
{
    let t = s.drop_last();
    if t.len() == 0 {
        assert(s.drop_first().len() == 0);
        assert(strip_front(s.drop_first(), CharClass::Space) == s.drop_first());
        assert(strip_front(s, CharClass::Space) == s.drop_first());
        assert(s.drop_first() =~= t);
    } else if is_space(s[0]) {
        assert(s.drop_first().drop_last() =~= t.drop_first());
        lemma_trim_last(s.drop_first());
    }
}

/// Whether all characters of `s` pass `p`.
pub open spec fn all_chars(s: Seq<char>, p: spec_fn(char) -> bool) -> bool {
    forall|i: int| 0 <= i < s.len() ==> p(#[trigger] s[i])
}

/// What is left after characters were taken off the ends of a text stood in it
/// before.
pub proof fn lemma_strip_keeps(s: Seq<char>, class: CharClass, p: spec_fn(char) -> bool)
    requires
        all_chars(s, p),
    ensures
        all_chars(strip_front(s, class), p),
        all_chars(strip_back(s, class), p),
    decreases s.len(),
{
    if s.len() > 0 {
        assert(all_chars(s.drop_first(), p)) by {
            assert forall|i: int| 0 <= i < s.drop_first().len() implies p(
                #[trigger] s.drop_first()[i],
            ) by {
                assert(s.drop_first()[i] == s[i + 1]);
            }
        }
        assert(all_chars(s.drop_last(), p));
        lemma_strip_keeps(s.drop_first(), class, p);
        lemma_strip_keeps(s.drop_last(), class, p);
    }
}

/// The lines of a text hold only characters of the text.
pub proof fn lemma_lines_keep(s: Seq<char>, p: spec_fn(char) -> bool)
    requires
        all_chars(s, p),
    ensures
        forall|i: int| 0 <= i < lines_text(s).len() ==> all_chars(#[trigger] lines_text(s)[i], p),
    decreases s.len(),
{
    let k = first_of(s, '\n') as int;
    if 0 < s.len() && k < s.len() {
        let t = s.skip(k + 1);
        assert(all_chars(t, p)) by {
            assert forall|i: int| 0 <= i < t.len() implies p(#[trigger] t[i]) by {
                assert(t[i] == s[i + k + 1]);
            }
        }
        lemma_lines_keep(t, p);
        let first = without_cr(s.take(k));
        assert(all_chars(first, p));
        assert forall|i: int| 0 <= i < lines_text(s).len() implies all_chars(
            #[trigger] lines_text(s)[i],
            p,
        ) by {
            if i > 0 {
                assert(lines_text(s)[i] == lines_text(t)[i - 1]);
            }
        }
    }
}

pub proof fn lemma_last_of(s: Seq<char>, c: char, k: int)
    requires
        -1 <= k < s.len(),
        forall|i: int| k < i < s.len() ==> s[i] != c,
        k >= 0 ==> s[k] == c,
    ensures
        last_of(s, c) == k,
    decreases s.len(),
{
    if s.len() > 0 && s.last() != c {
        lemma_last_of(s.drop_last(), c, k);
    }
}

/// What `last_of` says of the characters behind it and at it.
pub proof fn lemma_last_of_meaning(s: Seq<char>, c: char)
    ensures
        -1 <= last_of(s, c) < s.len(),
        forall|i: int| last_of(s, c) < i < s.len() ==> s[i] != c,
        last_of(s, c) >= 0 ==> s[last_of(s, c)] == c,
    decreases s.len(),
{
    if s.len() > 0 && s.last() != c {
        lemma_last_of_meaning(s.drop_last(), c);
        assert forall|i: int| last_of(s, c) < i < s.len() implies s[i] != c by {
            if i < s.len() - 1 {
                assert(s[i] == s.drop_last()[i]);
            }
        }
    }
}

/// The characters of a string.
pub fn chars_of(s: &str) -> (r: Vec<char>)
    ensures
        r@ == s@,
{
    broadcast use axiom_spec_iter;

    let mut r: Vec<char> = Vec::new();
    for c in it: s.chars()
        invariant
            it.seq() == s@,
            r@ == s@.take(it.index() as int),
    {
        r.push(c);
        assert(r@ =~= s@.take(it.index() as int + 1));
    }
    assert(s@.take(s@.len() as int) =~= s@);
    r
}

/// The characters from `from` up to `to`, as a string.
pub fn text_between(cs: &Vec<char>, from: usize, to: usize) -> (r: String)
    requires
        from <= to <= cs@.len(),
    ensures
        r@ == cs@.subrange(from as int, to as int),
{
    let mut r = String::new();
    let mut i: usize = from;
    assert(r@ =~= cs@.subrange(from as int, from as int));
    while i < to
        invariant
            from <= i <= to <= cs@.len(),
            r@ == cs@.subrange(from as int, i as int),
        decreases to - i,
    {
        r.push(cs[i]);
        i = i + 1;
        assert(r@ =~= cs@.subrange(from as int, i as int));
    }
    r
}

/// Whether two lists hold the same characters.
pub fn same_chars(a: &Vec<char>, b: &Vec<char>) -> (r: bool)
    ensures
        r == (a@ == b@),
{
    if a.len() != b.len() {
        return false;
    }
    let mut i: usize = 0;
    while i < a.len()
        invariant
            a@.len() == b@.len(),
            0 <= i <= a@.len(),
            forall|j: int| 0 <= j < i ==> a@[j] == b@[j],
        decreases a@.len() - i,
    {
        if a[i] != b[i] {
            assert(a@[i as int] != b@[i as int]);
            return false;
        }
        i = i + 1;
    }
    assert(a@ =~= b@);
    true
}

/// Whether two strings hold the same characters.
pub fn same_text(a: &str, b: &str) -> (r: bool)
    ensures
        r == (a@ == b@),
{
    same_chars(&chars_of(a), &chars_of(b))
}

/// Whether `c` has the Unicode property `White_Space`.
pub fn space(c: char) -> (r: bool)
    ensures
        r == is_space(c),
{
    let n: u32 = c as u32;
    (9 <= n && n <= 13) || n == 0x20 || n == 0x85 || n == 0xa0 || n == 0x1680 || (0x2000 <= n && n
        <= 0x200a) || n == 0x2028 || n == 0x2029 || n == 0x202f || n == 0x205f || n == 0x3000
}

/// Whether `c` belongs to `class`.
pub fn class_holds(class: CharClass, c: char) -> (r: bool)
    ensures
        r == in_class(class, c),
{
    match class {
        CharClass::Space => space(c),
        CharClass::Quote => c == '"',
        CharClass::Zero => c == '0',
        CharClass::Dot => c == '.',
        CharClass::Slash => c == '\\' || c == '/',
        CharClass::ForwardSlash => c == '/',
    }
}

/// The end of the characters of `class` with which `cs` begins.
fn front_end(cs: &Vec<char>, class: CharClass) -> (lo: usize)
    ensures
        lo <= cs@.len(),
        cs@.skip(lo as int) == strip_front(cs@, class),
{
    let mut i: usize = 0;
    assert(cs@.skip(0) =~= cs@);
    while i < cs.len() && class_holds(class, cs[i])
        invariant
            i <= cs@.len(),
            strip_front(cs@.skip(i as int), class) == strip_front(cs@, class),
        decreases cs@.len() - i,
    {
        assert(cs@.skip(i as int).drop_first() =~= cs@.skip(i as int + 1));
        i = i + 1;
    }
    i
}

/// The start of the characters of `class` with which `cs`, from `lo` on, ends.
fn back_start(cs: &Vec<char>, lo: usize, class: CharClass) -> (hi: usize)
    requires
        lo <= cs@.len(),
    ensures
        lo <= hi <= cs@.len(),
        cs@.subrange(lo as int, hi as int) == strip_back(cs@.skip(lo as int), class),
{
    let mut i: usize = cs.len();
    assert(cs@.subrange(lo as int, i as int) =~= cs@.skip(lo as int));
    while lo < i && class_holds(class, cs[i - 1])
        invariant
            lo <= i <= cs@.len(),
            strip_back(cs@.subrange(lo as int, i as int), class) == strip_back(
                cs@.skip(lo as int),
                class,
            ),
        decreases i,
    {
        assert(cs@.subrange(lo as int, i as int).drop_last() =~= cs@.subrange(
            lo as int,
            i as int - 1,
        ));
        assert(cs@.subrange(lo as int, i as int).last() == cs@[i as int - 1]);
        i = i - 1;
    }
    if lo < i {
        assert(cs@.subrange(lo as int, i as int).last() == cs@[i as int - 1]);
    }
    i
}

/// `s` without the characters of `class` at its start.
pub fn strip_start(s: &str, class: CharClass) -> (r: String)
    ensures
        r@ == strip_front(s@, class),
{
    let cs = chars_of(s);
    let lo: usize = front_end(&cs, class);
    assert(cs@.subrange(lo as int, cs@.len() as int) =~= cs@.skip(lo as int));
    text_between(&cs, lo, cs.len())
}

/// `s` without the characters of `class` at its end.
pub fn strip_end(s: &str, class: CharClass) -> (r: String)
    ensures
        r@ == strip_back(s@, class),
{
    let cs = chars_of(s);
    assert(cs@.skip(0) =~= cs@);
    let hi: usize = back_start(&cs, 0, class);
    text_between(&cs, 0, hi)
}

/// `s` without the characters of `class` at both ends.
pub fn strip_ends(s: &str, class: CharClass) -> (r: String)
    ensures
        r@ == strip_both(s@, class),
{
    let cs = chars_of(s);
    let lo: usize = front_end(&cs, class);
    let hi: usize = back_start(&cs, lo, class);
    text_between(&cs, lo, hi)
}

/// `s` without the white space at both ends.
pub fn trim(s: &str) -> (r: String)
    ensures
        r@ == trim_text(s@),
{
    strip_ends(s, CharClass::Space)
}

/// The position of the first `c` from `from` on, or the length of `cs`.
fn position_from(cs: &Vec<char>, from: usize, c: char) -> (k: usize)
    requires
        from <= cs@.len(),
    ensures
        from <= k <= cs@.len(),
        k - from == first_of(cs@.skip(from as int), c),
        cs@.skip(from as int).take(k - from) == cs@.subrange(from as int, k as int),
        k < cs@.len() ==> cs@.skip(from as int).skip(k - from + 1) == cs@.skip(k as int + 1),
{
    let mut k: usize = from;
    while k < cs.len() && cs[k] != c
        invariant
            from <= k <= cs@.len(),
            forall|i: int| from <= i < k ==> cs@[i] != c,
        decreases cs@.len() - k,
    {
        k = k + 1;
    }
    proof {
        let t = cs@.skip(from as int);
        assert forall|i: int| 0 <= i < k - from implies t[i] != c by {
            assert(t[i] == cs@[from + i]);
        }
        lemma_first_of(t, c, k - from);
        assert(t.take(k - from) =~= cs@.subrange(from as int, k as int));
        if k < cs@.len() {
            assert(t.skip(k - from + 1) =~= cs@.skip(k as int + 1));
        }
    }
    k
}

/// The parts of `s` between the occurrences of `c`.
pub fn split_on(s: &str, c: char) -> (r: Vec<String>)
    ensures
        texts(r@) == split_text(s@, c),
{
    let cs = chars_of(s);
    let mut r: Vec<String> = Vec::new();
    let mut from: usize = 0;
    assert(texts(r@) =~= Seq::empty());
    assert(cs@.skip(0) =~= cs@);
    assert(Seq::<Seq<char>>::empty() + split_text(cs@, c) =~= split_text(cs@, c));
    loop
        invariant
            from <= cs@.len(),
            texts(r@) + split_text(cs@.skip(from as int), c) == split_text(s@, c),
        decreases cs@.len() - from,
    {
        let k: usize = position_from(&cs, from, c);
        let part = text_between(&cs, from, k);
        let ghost before = texts(r@);
        r.push(part);
        assert(texts(r@) =~= before.push(part@));
        if k >= cs.len() {
            proof {
                let t = cs@.skip(from as int);
                assert(cs@.subrange(from as int, k as int) =~= t);
                assert(before.push(part@) =~= before + seq![t]);
            }
            return r;
        }
        proof {
            let t = cs@.skip(from as int);
            assert(split_text(t, c) == seq![t.take(k - from)] + split_text(t.skip(k - from + 1), c));
            assert(before + (seq![part@] + split_text(cs@.skip(k as int + 1), c)) =~= before.push(
                part@,
            ) + split_text(cs@.skip(k as int + 1), c));
        }
        from = k + 1;
    }
}

/// `s` parted at the first `c`, which is left out.
pub fn split_once(s: &str, c: char) -> (r: Option<(String, String)>)
    ensures
        match r {
            Some((a, b)) => split_once_text(s@, c) == Some((a@, b@)),
            None => split_once_text(s@, c) is None,
        },
{
    let cs = chars_of(s);
    assert(cs@.skip(0) =~= cs@);
    let k: usize = position_from(&cs, 0, c);
    if k >= cs.len() {
        return None;
    }
    let a = text_between(&cs, 0, k);
    let b = text_between(&cs, k + 1, cs.len());
    assert(cs@.subrange(k as int + 1, cs@.len() as int) =~= cs@.skip(k as int + 1));
    Some((a, b))
}

/// The lines of `s`.
pub fn lines(s: &str) -> (r: Vec<String>)
    ensures
        texts(r@) == lines_text(s@),
{
    let cs = chars_of(s);
    let mut r: Vec<String> = Vec::new();
    let mut from: usize = 0;
    assert(texts(r@) =~= Seq::empty());
    assert(cs@.skip(0) =~= cs@);
    assert(Seq::<Seq<char>>::empty() + lines_text(cs@) =~= lines_text(cs@));
    while from < cs.len()
        invariant
            from <= cs@.len(),
            cs@ == s@,
            texts(r@) + lines_text(cs@.skip(from as int)) == lines_text(s@),
        decreases cs@.len() - from,
    {
        let k: usize = position_from(&cs, from, '\n');
        let ghost before = texts(r@);
        let ghost t = cs@.skip(from as int);
        if k >= cs.len() {
            let part = text_between(&cs, from, k);
            r.push(part);
            assert(texts(r@) =~= before.push(part@));
            proof {
                assert(cs@.subrange(from as int, k as int) =~= t);
                assert(before.push(part@) =~= before + seq![t]);
            }
            return r;
        }
        let ghost whole = cs@.subrange(from as int, k as int);
        let end: usize = if from < k && cs[k - 1] == '\r' {
            k - 1
        } else {
            k
        };
        proof {
            if from < k {
                assert(whole.last() == cs@[k as int - 1]);
                assert(whole.drop_last() =~= cs@.subrange(from as int, k as int - 1));
            }
        }
        let part = text_between(&cs, from, end);
        r.push(part);
        assert(texts(r@) =~= before.push(part@));
        proof {
            assert(lines_text(t) == seq![without_cr(t.take(k - from))] + lines_text(
                t.skip(k - from + 1),
            ));
            assert(before + (seq![part@] + lines_text(cs@.skip(k as int + 1))) =~= before.push(
                part@,
            ) + lines_text(cs@.skip(k as int + 1)));
        }
        from = k + 1;
    }
    assert(cs@.skip(from as int) =~= Seq::empty());
    assert(texts(r@) + lines_text(cs@.skip(from as int)) =~= texts(r@));
    r
}

/// Whether `cs` holds `needle` at position `at`.
fn matches_at(cs: &Vec<char>, needle: &Vec<char>, at: usize) -> (r: bool)
    requires
        at + needle@.len() <= cs@.len(),
    ensures
        r == occurs_at(cs@, needle@, at as int),
{
    let mut i: usize = 0;
    let total: usize = cs.len();
    while i < needle.len()
        invariant
            at + needle@.len() <= cs@.len(),
            total == cs@.len(),
            i <= needle@.len(),
            forall|j: int| 0 <= j < i ==> cs@[at + j] == needle@[j],
        decreases needle@.len() - i,
    {
        if cs[at + i] != needle[i] {
            assert(cs@.subrange(at as int, at + needle@.len())[i as int] != needle@[i as int]);
            return false;
        }
        i = i + 1;
    }
    assert(cs@.subrange(at as int, at + needle@.len()) =~= needle@);
    true
}

/// Whether `s` begins with `prefix`.
pub fn starts_with(s: &str, prefix: &str) -> (r: bool)
    ensures
        r == has_prefix(s@, prefix@),
{
    let cs = chars_of(s);
    let p = chars_of(prefix);
    if p.len() > cs.len() {
        return false;
    }
    assert(cs@.subrange(0, p@.len() as int) =~= cs@.take(p@.len() as int));
    matches_at(&cs, &p, 0)
}

/// Whether `s` ends with `suffix`.
pub fn ends_with(s: &str, suffix: &str) -> (r: bool)
    ensures
        r == has_suffix(s@, suffix@),
{
    let cs = chars_of(s);
    let p = chars_of(suffix);
    if p.len() > cs.len() {
        return false;
    }
    let at: usize = cs.len() - p.len();
    assert(cs@.subrange(at as int, at + p@.len()) =~= cs@.skip(at as int));
    matches_at(&cs, &p, at)
}

/// What follows `prefix` in `s`, where `s` begins with it.
pub fn after_prefix(s: &str, prefix: &str) -> (r: Option<String>)
    ensures
        r is Some <==> has_prefix(s@, prefix@),
        r is Some ==> r->0@ == s@.skip(prefix@.len() as int),
{
    if !starts_with(s, prefix) {
        return None;
    }
    let cs = chars_of(s);
    let n: usize = chars_of(prefix).len();
    assert(cs@.subrange(n as int, cs@.len() as int) =~= cs@.skip(n as int));
    Some(text_between(&cs, n, cs.len()))
}

/// Whether `needle` stands anywhere in `s`.
pub fn contains_str(s: &str, needle: &str) -> (r: bool)
    ensures
        r == contains_text(s@, needle@),
{
    let cs = chars_of(s);
    let n = chars_of(needle);
    if n.len() > cs.len() {
        return false;
    }
    let count: usize = cs.len() - n.len();
    let mut i: usize = 0;
    while i < count
        invariant
            cs@ == s@,
            n@ == needle@,
            count + n@.len() == cs@.len(),
            i <= count,
            forall|j: int| 0 <= j < i ==> !occurs_at(cs@, n@, j),
        decreases count - i,
    {
        if matches_at(&cs, &n, i) {
            return true;
        }
        i = i + 1;
    }
    matches_at(&cs, &n, count)
}

/// Whether `c` stands anywhere in `s`.
pub fn contains_char(s: &str, c: char) -> (r: bool)
    ensures
        r == s@.contains(c),
{
    let cs = chars_of(s);
    let mut i: usize = 0;
    while i < cs.len()
        invariant
            cs@ == s@,
            i <= cs@.len(),
            forall|j: int| 0 <= j < i ==> cs@[j] != c,
        decreases cs@.len() - i,
    {
        if cs[i] == c {
            assert(cs@[i as int] == c);
            return true;
        }
        i = i + 1;
    }
    false
}

/// The ASCII lower case of a character.
pub fn lower(c: char) -> (r: char)
    ensures
        r == lower_char(c),
{
    if 'A' <= c && c <= 'Z' {
        let n: u8 = c as u8;
        (n + 32) as char
    } else {
        c
    }
}

/// `s` with its ASCII letters in lower case.
pub fn to_lower(s: &str) -> (r: String)
    ensures
        r@ == lower_text(s@),
{
    let cs = chars_of(s);
    let mut r = String::new();
    let mut i: usize = 0;
    while i < cs.len()
        invariant
            i <= cs@.len(),
            r@ == lower_text(cs@.take(i as int)),
        decreases cs@.len() - i,
    {
        r.push(lower(cs[i]));
        i = i + 1;
        assert(r@ =~= lower_text(cs@.take(i as int)));
    }
    assert(cs@.take(i as int) =~= cs@);
    r
}

/// Whether two strings are the same but for the case of ASCII letters.
pub fn same_ignoring_case(a: &str, b: &str) -> (r: bool)
    ensures
        r == (lower_text(a@) == lower_text(b@)),
{
    to_lower(a) == to_lower(b)
}

/// `s` with every `from` made a `to`.
pub fn replace(s: &str, from: char, to: char) -> (r: String)
    ensures
        r@ == replace_char(s@, from, to),
{
    let cs = chars_of(s);
    let mut r = String::new();
    let mut i: usize = 0;
    while i < cs.len()
        invariant
            i <= cs@.len(),
            r@ == replace_char(cs@.take(i as int), from, to),
        decreases cs@.len() - i,
    {
        let c = cs[i];
        r.push(if c == from { to } else { c });
        i = i + 1;
        assert(r@ =~= replace_char(cs@.take(i as int), from, to));
    }
    assert(cs@.take(i as int) =~= cs@);
    r
}

/// The parts in a row, with `sep` between them.
pub fn join(parts: &Vec<String>, sep: &str) -> (r: String)
    ensures
        r@ == join_texts(texts(parts@), sep@),
{
    let mut r = String::new();
    let mut i: usize = 0;
    assert(r@ =~= Seq::empty());
    while i < parts.len()
        invariant
            i <= parts@.len(),
            r@ == join_texts(texts(parts@).take(i as int), sep@),
        decreases parts@.len() - i,
    {
        if i > 0 {
            r.append(sep);
        }
        r.append(&parts[i]);
        proof {
            let t = texts(parts@).take(i as int + 1);
            assert(t.drop_last() =~= texts(parts@).take(i as int));
            if i == 0 {
                assert(r@ =~= t[0]);
            }
        }
        i = i + 1;
    }
    assert(texts(parts@).take(i as int) =~= texts(parts@));
    r
}

/// `a` followed by `b`.
pub fn join2(a: &str, b: &str) -> (r: String)
    ensures
        r@ == a@ + b@,
{
    let mut r = a.to_owned();
    r.append(b);
    r
}

/// `a` followed by `b` and `c`.
pub fn join3(a: &str, b: &str, c: &str) -> (r: String)
    ensures
        r@ == a@ + b@ + c@,
{
    let mut r = a.to_owned();
    r.append(b);
    r.append(c);
    r
}

/// Whether `s` is one of `list`.
pub fn is_listed(list: &Vec<String>, s: &str) -> (r: bool)
    ensures
        r == texts(list@).contains(s@),
{
    let mut i: usize = 0;
    while i < list.len()
        invariant
            i <= list@.len(),
            forall|j: int| 0 <= j < i ==> texts(list@)[j] != s@,
        decreases list@.len() - i,
    {
        if same_text(&list[i], s) {
            assert(texts(list@)[i as int] == s@);
            return true;
        }
        i = i + 1;
    }
    false
}

/// A copy of a list of strings.
pub fn copy_texts(list: &Vec<String>) -> (r: Vec<String>)
    ensures
        r@ == list@,
{
    let mut r: Vec<String> = Vec::new();
    let mut i: usize = 0;
    while i < list.len()
        invariant
            i <= list@.len(),
            r@ == list@.take(i as int),
        decreases list@.len() - i,
    {
        r.push(list[i].clone());
        i = i + 1;
        assert(r@ =~= list@.take(i as int));
    }
    assert(list@.take(i as int) =~= list@);
    r
}

proof fn lemma_strip_front_parts(s: Seq<char>, class: CharClass)
    ensures
        strip_front(s, class).len() <= s.len(),
        s.skip(s.len() - strip_front(s, class).len()) == strip_front(s, class),
        forall|i: int|
            0 <= i < s.len() - strip_front(s, class).len() ==> in_class(class, #[trigger] s[i]),
        strip_front(s, class).len() > 0 ==> !in_class(class, strip_front(s, class)[0]),
    decreases s.len(),
{
    let r = strip_front(s, class);
    if s.len() > 0 && in_class(class, s[0]) {
        let t = s.drop_first();
        lemma_strip_front_parts(t, class);
        assert(s.skip(s.len() - r.len()) =~= t.skip(t.len() - r.len()));
        assert forall|i: int| 0 <= i < s.len() - r.len() implies in_class(class, #[trigger] s[i]) by {
            if i > 0 {
                assert(s[i] == t[i - 1]);
            }
        }
    } else {
        assert(s.skip(0) =~= s);
    }
}

proof fn lemma_strip_back_parts(s: Seq<char>, class: CharClass)
    ensures
        strip_back(s, class).len() <= s.len(),
        s.take(strip_back(s, class).len() as int) == strip_back(s, class),
        forall|i: int|
            strip_back(s, class).len() <= i < s.len() ==> in_class(class, #[trigger] s[i]),
        strip_back(s, class).len() > 0 ==> !in_class(class, strip_back(s, class).last()),
    decreases s.len(),
{
    let r = strip_back(s, class);
    if s.len() > 0 && in_class(class, s.last()) {
        let t = s.drop_last();
        lemma_strip_back_parts(t, class);
        assert(s.take(r.len() as int) =~= t.take(r.len() as int));
        assert forall|i: int| r.len() <= i < s.len() implies in_class(class, #[trigger] s[i]) by {
            if i < s.len() - 1 {
                assert(s[i] == t[i]);
            }
        }
    } else {
        assert(s.take(s.len() as int) =~= s);
    }
}

/// A text is what is left of it after trimming with white space around, and what
/// is left neither begins nor ends with white space. Spaces, tabs and the ends of
/// lines are white space; what can be seen in ASCII is not.
pub proof fn law_trim(s: Seq<char>) -> (k: int)
    ensures
        0 <= k <= k + trim_text(s).len() <= s.len(),
        trim_text(s) == s.subrange(k, k + trim_text(s).len()),
        forall|i: int| 0 <= i < k ==> is_space(#[trigger] s[i]),
        forall|i: int| k + trim_text(s).len() <= i < s.len() ==> is_space(#[trigger] s[i]),
        trim_text(s).len() > 0 ==> !is_space(trim_text(s)[0]) && !is_space(trim_text(s).last()),
        is_space(' ') && is_space('\t') && is_space('\r') && is_space('\n'),
        forall|c: char| '!' <= c <= '~' ==> !#[trigger] is_space(c),
{
    let f = strip_front(s, CharClass::Space);
    let r = strip_back(f, CharClass::Space);
    lemma_strip_front_parts(s, CharClass::Space);
    lemma_strip_back_parts(f, CharClass::Space);
    let k = s.len() - f.len();
    assert(r =~= s.subrange(k, k + r.len()));
    assert forall|i: int| k + r.len() <= i < s.len() implies is_space(#[trigger] s[i]) by {
        assert(f[i - k] == s[i]);
    }
    if r.len() > 0 {
        assert(r[0] == f[0]);
    }
    k
}

/// A text without white space at its ends is left as it is.
pub proof fn law_trimmed_stays(s: Seq<char>)
    requires
        s.len() > 0 ==> !is_space(s[0]) && !is_space(s.last()),
    ensures
        trim_text(s) == s,
{
}

/// A text with a separator in it is parted there: what stands before the first
/// one comes first, and what stands behind it is parted in turn.
pub proof fn law_split(a: Seq<char>, c: char, rest: Seq<char>)
    requires
        !a.contains(c),
    ensures
        split_text(a, c) == seq![a],
        split_text(a + seq![c] + rest, c) == seq![a] + split_text(rest, c),
        split_once_text(a, c) is None,
        split_once_text(a + seq![c] + rest, c) == Some((a, rest)),
{
    let s = a + seq![c] + rest;
    assert forall|i: int| 0 <= i < a.len() implies a[i] != c by {
        assert(a.contains(a[i]));
    }
    lemma_first_of(a, c, a.len() as int);
    assert forall|i: int| 0 <= i < a.len() implies s[i] != c by {
        assert(s[i] == a[i]);
    }
    lemma_first_of(s, c, a.len() as int);
    assert(s.take(a.len() as int) =~= a);
    assert(s.skip(a.len() as int + 1) =~= rest);
}

/// A line ends at a line feed, before the carriage return that may stand in front
/// of it. Behind the last line feed the rest is a line, unless nothing is there.
pub proof fn law_lines(a: Seq<char>, rest: Seq<char>)
    requires
        !a.contains('\n'),
    ensures
        lines_text(Seq::empty()) == Seq::<Seq<char>>::empty(),
        a.len() > 0 ==> lines_text(a) == seq![a],
        a.len() == 0 || a.last() != '\r' ==> lines_text(a + seq!['\n'] + rest) == seq![a]
            + lines_text(rest) && lines_text(a + seq!['\r', '\n'] + rest) == seq![a] + lines_text(
            rest,
        ),
{
    let s = a + seq!['\n'] + rest;
    let t = a + seq!['\r', '\n'] + rest;
    let n = a.len() as int;
    assert forall|i: int| 0 <= i < n implies a[i] != '\n' by {
        assert(a.contains(a[i]));
    }
    lemma_first_of(a, '\n', n);
    assert forall|i: int| 0 <= i < n implies s[i] != '\n' by {
        assert(s[i] == a[i]);
    }
    lemma_first_of(s, '\n', n);
    assert forall|i: int| 0 <= i < n + 1 implies t[i] != '\n' by {
        if i < n {
            assert(t[i] == a[i]);
        }
    }
    lemma_first_of(t, '\n', n + 1);
    assert(s.take(n) =~= a);
    assert(s.skip(n + 1) =~= rest);
    assert(t.take(n + 1) =~= a.push('\r'));
    assert(a.push('\r').drop_last() =~= a);
    assert(t.skip(n + 2) =~= rest);
}

/// A text begins with the first of its parts, ends with the last one, and holds
/// each of them. What it begins with, ends with or holds is such a part.
pub proof fn law_parts_of_texts(a: Seq<char>, b: Seq<char>, c: Seq<char>, s: Seq<char>)
    ensures
        has_prefix(a + b, a),
        has_suffix(a + b, b),
        contains_text(a + b + c, b),
        has_prefix(s, a) ==> exists|rest: Seq<char>| s == #[trigger] (a + rest),
        has_suffix(s, a) ==> exists|front: Seq<char>| s == #[trigger] (front + a),
        contains_text(s, a) ==> exists|x: Seq<char>, y: Seq<char>| s == #[trigger] (x + a + y),
{
    assert((a + b).take(a.len() as int) =~= a);
    assert((a + b).skip((a + b).len() - b.len()) =~= b);
    let t = a + b + c;
    assert(t.subrange(a.len() as int, (a.len() + b.len()) as int) =~= b);
    assert(occurs_at(t, b, a.len() as int));
    if has_prefix(s, a) {
        assert(s =~= s.take(a.len() as int) + s.skip(a.len() as int));
        assert(s == a + s.skip(a.len() as int));
    }
    if has_suffix(s, a) {
        let k = s.len() - a.len();
        assert(s =~= s.take(k) + s.skip(k));
        assert(s == s.take(k) + a);
    }
    if contains_text(s, a) {
        let i = choose|i: int| occurs_at(s, a, i);
        let x = s.take(i);
        let y = s.skip(i + a.len());
        assert forall|j: int| 0 <= j < s.len() implies s[j] == (x + a + y)[j] by {
            if i <= j < i + a.len() {
                assert(s.subrange(i, i + a.len())[j - i] == s[j]);
            }
        }
        assert(s =~= x + a + y);
    }
}

/// Lower case changes the letters A to Z into those from a to z, and nothing
/// else; texts that differ in case only have the same lower case.
pub proof fn law_lower_case(s: Seq<char>, i: int)
    requires
        0 <= i < s.len(),
    ensures
        lower_text(s).len() == s.len(),
        'A' <= s[i] <= 'Z' ==> lower_text(s)[i] as int == s[i] as int + ('a' as int - 'A' as int),
        !('A' <= s[i] <= 'Z') ==> lower_text(s)[i] == s[i],
        lower_text(lower_text(s)) == lower_text(s),
{
    assert(lower_text(lower_text(s)) =~= lower_text(s));
}

/// Parts are joined with what separates them between each two, and nowhere
/// else.
pub proof fn law_join(parts: Seq<Seq<char>>, sep: Seq<char>, last: Seq<char>)
    ensures
        join_texts(seq![], sep) == Seq::<char>::empty(),
        join_texts(seq![last], sep) == last,
        parts.len() > 0 ==> join_texts(parts.push(last), sep) == join_texts(parts, sep) + sep + last,
{
    assert(parts.push(last).drop_last() =~= parts);
}

/// Replacing a character changes that one wherever it stands, and no other.
pub proof fn law_replaced(s: Seq<char>, from: char, to: char, i: int)
    requires
        0 <= i < s.len(),
    ensures
        replace_char(s, from, to).len() == s.len(),
        s[i] == from ==> replace_char(s, from, to)[i] == to,
        s[i] != from ==> replace_char(s, from, to)[i] == s[i],
{
}

} // verus!
