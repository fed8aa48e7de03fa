//! Text as sequences of characters.

use vstd::prelude::*;

verus! {

/// `String::push` of the standard library appends one character to the end of
/// the string.
pub assume_specification[ String::push ](s: &mut String, c: char)
    ensures
        final(s)@ == old(s)@.push(c),
;

/// Where `c` first occurs in `s`, or the length of `s` where it does not occur.
pub open spec fn find(s: Seq<char>, c: char) -> nat
    decreases s.len(),
{
    if s.len() == 0 || s[0] == c {
        0
    } else {
        1 + find(s.drop_first(), c)
    }
}

/// What `find` says of the characters of `s`.
pub proof fn lemma_find(s: Seq<char>, c: char)
    ensures
        find(s, c) <= s.len(),
        find(s, c) < s.len() ==> s[find(s, c) as int] == c,
        forall|i: int| 0 <= i < find(s, c) ==> s[i] != c,
    decreases s.len(),
{
    if s.len() > 0 && s[0] != c {
        lemma_find(s.drop_first(), c);
        assert forall|i: int| 0 <= i < find(s, c) implies s[i] != c by {
            if i > 0 {
                assert(s[i] == s.drop_first()[i - 1]);
            }
        }
    }
}

/// A position whose character is `c`, with none before it, is the one `find` gives.
pub proof fn lemma_find_is(s: Seq<char>, c: char, at: nat)
    requires
        at <= s.len(),
        at < s.len() ==> s[at as int] == c,
        forall|i: int| 0 <= i < at ==> s[i] != c,
    ensures
        find(s, c) == at,
{
    lemma_find(s, c);
    let f = find(s, c);
    if f < at {
        assert(s[f as int] != c);
    }
    if at < f {
        assert(s[at as int] != c);
    }
}

/// Where `c` first occurs in `s` at or after `from`, or the length of `s`.
pub fn find_from(s: &[char], c: char, from: usize) -> (r: usize)
    requires
        from <= s@.len(),
    ensures
        from <= r <= s@.len(),
        r == from + find(s@.skip(from as int), c),
{
    let mut i: usize = from;
    while i < s.len() && s[i] != c
        invariant
            from <= i <= s@.len(),
            forall|j: int| from <= j < i ==> s@[j] != c,
        decreases s.len() - i,
    {
        i = i + 1;
    }
    proof {
        let t = s@.skip(from as int);
        assert forall|j: int| 0 <= j < i - from implies t[j] != c by {
            assert(t[j] == s@[from + j]);
        }
        lemma_find_is(t, c, (i - from) as nat);
    }
    i
}

/// A character with the letters `A` to `Z` made small.
pub open spec fn ascii_lower(c: char) -> char {
    if 'A' <= c && c <= 'Z' {
        (c as u32 + 32) as char
    } else {
        c
    }
}

/// A text with the letters `A` to `Z` made small.
pub open spec fn ascii_lowercase(s: Seq<char>) -> Seq<char> {
    s.map_values(|c: char| ascii_lower(c))
}

/// `c` with the letters `A` to `Z` made small.
pub fn lower(c: char) -> (r: char)
    ensures
        r == ascii_lower(c),
{
    if 'A' <= c && c <= 'Z' {
        (c as u8 + 32) as char
    } else {
        c
    }
}

/// `s` with the letters `A` to `Z` made small.
pub fn lowercase(s: &[char]) -> (r: Vec<char>)
    ensures
        r@ == ascii_lowercase(s@),
{
    let mut out: Vec<char> = Vec::new();
    let mut i: usize = 0;
    while i < s.len()
        invariant
            i <= s.len(),
            out@ == ascii_lowercase(s@.take(i as int)),
        decreases s.len() - i,
    {
        out.push(lower(s[i]));
        i = i + 1;
        assert(ascii_lowercase(s@.take(i as int)) =~= ascii_lowercase(s@.take(i - 1)).push(
            ascii_lower(s@[i - 1]),
        ));
    }
    assert(s@.take(i as int) =~= s@);
    out
}

/// Whether `s` is the text `other`.
pub fn is(s: &[char], other: &str) -> (r: bool)
    ensures
        r == (s@ == other@),
{
    same(string_of(s).as_str(), other)
}

/// `str::to_lowercase` of the standard library: the text in lower case.
pub uninterp spec fn unicode_lowercase(s: Seq<char>) -> Seq<char>;

/// Calls `str::to_lowercase` of the standard library. The result is a function of
/// the text alone, here named; where the text is ASCII, only the letters `A` to
/// `Z` change. What it is elsewhere is a matter of Unicode's tables and not stated.
#[verifier::external_body]
fn to_lowercase(s: &str) -> (r: String)
    ensures
        r@ == unicode_lowercase(s@),
        vstd::utf8::is_ascii_chars(s@) ==> r@ == ascii_lowercase(s@),
{
    s.to_lowercase()
}

/// The text in lower case. Of an ASCII text only the letters `A` to `Z` change.
pub fn lower_case(s: &str) -> (r: String)
    ensures
        r@ == unicode_lowercase(s@),
        vstd::utf8::is_ascii_chars(s@) ==> r@ == ascii_lowercase(s@),
{
    to_lowercase(s)
}

/// `String::from_utf8_lossy` of the standard library: the text of some bytes.
pub uninterp spec fn lossy(bytes: Seq<u8>) -> Seq<char>;

/// Calls `String::from_utf8_lossy` of the standard library. The result is a
/// function of the bytes alone, here named; bytes that are valid UTF-8 are decoded
/// as such. How many replacement characters stand for other bytes is not stated.
#[verifier::external_body]
fn decode_lossy(bytes: &[u8]) -> (r: String)
    ensures
        r@ == lossy(bytes@),
        vstd::utf8::valid_utf8(bytes@) ==> r@ == vstd::utf8::decode_utf8(bytes@),
{
    String::from_utf8_lossy(bytes).into_owned()
}

/// The text of some bytes. Bytes that are valid UTF-8 are decoded as such.
pub fn decode(bytes: &[u8]) -> (r: String)
    ensures
        r@ == lossy(bytes@),
        vstd::utf8::valid_utf8(bytes@) ==> r@ == vstd::utf8::decode_utf8(bytes@),
{
    decode_lossy(bytes)
}

/// Appends `more` to `s`.
pub fn add(s: &mut Vec<char>, more: &str)
    ensures
        final(s)@ == old(s)@ + more@,
{
    let mut new_part: Vec<char> = characters(more);
    s.append(&mut new_part);
}

/// Appends `more` to `s`.
pub fn add_all(s: &mut Vec<char>, more: Vec<char>)
    ensures
        final(s)@ == old(s)@ + more@,
{
    let mut new_part: Vec<char> = more;
    s.append(&mut new_part);
}

/// The characters of `s` from `from` up to `to`.
pub fn part(s: &[char], from: usize, to: usize) -> (r: Vec<char>)
    requires
        from <= to <= s@.len(),
    ensures
        r@ == s@.subrange(from as int, to as int),
{
    let mut out: Vec<char> = Vec::new();
    let mut i: usize = from;
    while i < to
        invariant
            from <= i <= to <= s@.len(),
            out@ == s@.subrange(from as int, i as int),
        decreases to - i,
    {
        out.push(s[i]);
        i = i + 1;
    }
    out
}

/// The characters of `s`.
pub fn characters(s: &str) -> (r: Vec<char>)
    ensures
        r@ == s@,
{
    let mut out: Vec<char> = Vec::new();
    for c in it: s.chars()
        invariant
            out@ == it.seq().take(it.index() as int),
            it.seq() == s@,
    {
        out.push(c);
    }
    out
}

/// The string made of `characters`.
pub fn string_of(characters: &[char]) -> (r: String)
    ensures
        r@ == characters@,
{
    let mut out: String = String::new();
    let mut i: usize = 0;
    while i < characters.len()
        invariant
            i <= characters.len(),
            out@ == characters@.take(i as int),
        decreases characters.len() - i,
    {
        out.push(characters[i]);
        i = i + 1;
    }
    out
}

/// Whether the two texts are the same.
pub fn same(a: &str, b: &str) -> (r: bool)
    ensures
        r == (a@ == b@),
{
    a.to_owned() == b.to_owned()
}

/// Whether `c` is white space: the characters with the Unicode property
/// `White_Space`.
pub open spec fn white_space(c: char) -> bool {
    ||| '\u{9}' <= c && c <= '\u{d}'
    ||| c == ' '
    ||| c == '\u{85}'
    ||| c == '\u{a0}'
    ||| c == '\u{1680}'
    ||| '\u{2000}' <= c && c <= '\u{200a}'
    ||| c == '\u{2028}'
    ||| c == '\u{2029}'
    ||| c == '\u{202f}'
    ||| c == '\u{205f}'
    ||| c == '\u{3000}'
}

/// Whether `c` is white space.
pub fn is_space(c: char) -> (r: bool)
    ensures
        r == white_space(c),
{
    ('\u{9}' <= c && c <= '\u{d}') || c == ' ' || c == '\u{85}' || c == '\u{a0}' || c
        == '\u{1680}' || ('\u{2000}' <= c && c <= '\u{200a}') || c == '\u{2028}' || c
        == '\u{2029}' || c == '\u{202f}' || c == '\u{205f}' || c == '\u{3000}'
}

/// `s` without the white space at its start.
pub open spec fn trimmed_start(s: Seq<char>) -> Seq<char>
    decreases s.len(),
{
    if s.len() > 0 && white_space(s[0]) {
        trimmed_start(s.drop_first())
    } else {
        s
    }
}

/// `s` without the white space at its end.
pub open spec fn trimmed_end(s: Seq<char>) -> Seq<char>
    decreases s.len(),
{
    if s.len() > 0 && white_space(s.last()) {
        trimmed_end(s.drop_last())
    } else {
        s
    }
}

/// `s` without the white space at either end.
pub open spec fn trimmed(s: Seq<char>) -> Seq<char> {
    trimmed_end(trimmed_start(s))
}

/// `s` without the copies of `c` at its start.
pub open spec fn without_leading(s: Seq<char>, c: char) -> Seq<char>
    decreases s.len(),
{
    if s.len() > 0 && s[0] == c {
        without_leading(s.drop_first(), c)
    } else {
        s
    }
}

/// Whether `s` starts with `start`.
pub open spec fn starts(s: Seq<char>, start: Seq<char>) -> bool {
    start.len() <= s.len() && s.take(start.len() as int) == start
}

/// Whether `s` ends with `end`.
pub open spec fn ends(s: Seq<char>, end: Seq<char>) -> bool {
    end.len() <= s.len() && s.skip(s.len() - end.len()) == end
}

/// Whether `part` occurs in `s`.
pub open spec fn has(s: Seq<char>, part: Seq<char>) -> bool {
    exists|i: int| 0 <= i <= s.len() && starts(#[trigger] s.skip(i), part)
}

/// The lines of `s`: each ends at a line feed, which is left out along with a
/// carriage return before it; the last one may end with the text.
pub open spec fn lines(s: Seq<char>) -> Seq<Seq<char>>
    decreases s.len(),
{
    if s.len() == 0 {
        seq![]
    } else {
        let end = find(s, '\n') as int;
        if end < s.len() {
            seq![without_return(s.take(end))] + lines(s.skip(end + 1))
        } else {
            seq![s]
        }
    }
}

/// `s` without a carriage return at its end.
pub open spec fn without_return(s: Seq<char>) -> Seq<char> {
    if s.len() > 0 && s.last() == '\r' {
        s.drop_last()
    } else {
        s
    }
}

/// Where the white space of `s` begins, or the length of `s`.
pub open spec fn word_end(s: Seq<char>) -> nat
    decreases s.len(),
{
    if s.len() == 0 || white_space(s[0]) {
        0
    } else {
        1 + word_end(s.drop_first())
    }
}

/// The words of `s`: the pieces between runs of white space.
pub open spec fn words(s: Seq<char>) -> Seq<Seq<char>>
    decreases s.len(),
{
    if s.len() == 0 {
        seq![]
    } else if white_space(s[0]) {
        words(s.drop_first())
    } else {
        proof {
            lemma_word_end(s);
        }
        let end = word_end(s) as int;
        seq![s.take(end)] + words(s.skip(end))
    }
}

/// `s` with every `from` replaced by `to`, from the left.
pub open spec fn replaced(s: Seq<char>, from: Seq<char>, to: Seq<char>) -> Seq<char>
    decreases s.len(),
{
    if from.len() == 0 || s.len() < from.len() {
        s
    } else if starts(s, from) {
        to + replaced(s.skip(from.len() as int), from, to)
    } else {
        seq![s[0]] + replaced(s.drop_first(), from, to)
    }
}

/// What `word_end` says of the characters of `s`.
pub proof fn lemma_word_end(s: Seq<char>)
    ensures
        word_end(s) <= s.len(),
        forall|i: int| 0 <= i < word_end(s) ==> !white_space(s[i]),
        word_end(s) < s.len() ==> white_space(s[word_end(s) as int]),
        s.len() > 0 && !white_space(s[0]) ==> word_end(s) > 0,
    decreases s.len(),
{
    if s.len() > 0 && !white_space(s[0]) {
        lemma_word_end(s.drop_first());
        assert forall|i: int| 0 <= i < word_end(s) implies !white_space(s[i]) by {
            if i > 0 {
                assert(s[i] == s.drop_first()[i - 1]);
            }
        }
    }
}

proof fn lemma_word_end_is(s: Seq<char>, at: nat)
    requires
        at <= s.len(),
        at < s.len() ==> white_space(s[at as int]),
        forall|i: int| 0 <= i < at ==> !white_space(s[i]),
    ensures
        word_end(s) == at,
{
    lemma_word_end(s);
    let f = word_end(s);
    if f < at {
        assert(!white_space(s[f as int]));
    }
    if at < f {
        assert(!white_space(s[at as int]));
    }
}

proof fn lemma_trimmed_start(s: Seq<char>, at: nat)
    requires
        at <= s.len(),
        forall|i: int| 0 <= i < at ==> white_space(s[i]),
        at < s.len() ==> !white_space(s[at as int]),
    ensures
        trimmed_start(s) == s.skip(at as int),
    decreases at,
{
    if at > 0 {
        assert forall|i: int| 0 <= i < at - 1 implies white_space(s.drop_first()[i]) by {
            assert(s.drop_first()[i] == s[i + 1]);
        }
        lemma_trimmed_start(s.drop_first(), (at - 1) as nat);
        assert(s.drop_first().skip(at - 1) =~= s.skip(at as int));
    } else {
        assert(s.skip(0) =~= s);
    }
}

proof fn lemma_trimmed_end(s: Seq<char>, to: nat)
    requires
        to <= s.len(),
        forall|i: int| to <= i < s.len() ==> white_space(s[i]),
        to > 0 ==> !white_space(s[to - 1]),
    ensures
        trimmed_end(s) == s.take(to as int),
    decreases s.len(),
{
    if to < s.len() {
        lemma_trimmed_end(s.drop_last(), to);
        assert(s.drop_last().take(to as int) =~= s.take(to as int));
    } else {
        assert(s.take(to as int) =~= s);
    }
}

/// `s` without the white space at either end.
pub fn trim(s: &[char]) -> (r: Vec<char>)
    ensures
        r@ == trimmed(s@),
{
    let mut from: usize = 0;
    while from < s.len() && is_space(s[from])
        invariant
            from <= s.len(),
            forall|i: int| 0 <= i < from ==> white_space(s@[i]),
        decreases s.len() - from,
    {
        from = from + 1;
    }
    let mut to: usize = s.len();
    while to > from && is_space(s[to - 1])
        invariant
            from <= to <= s.len(),
            forall|i: int| to <= i < s.len() ==> white_space(s@[i]),
        decreases to,
    {
        to = to - 1;
    }
    proof {
        lemma_trimmed_start(s@, from as nat);
        let t = s@.skip(from as int);
        assert forall|i: int| to - from <= i < t.len() implies white_space(t[i]) by {
            assert(t[i] == s@[from + i]);
        }
        lemma_trimmed_end(t, (to - from) as nat);
        assert(t.take(to - from) =~= s@.subrange(from as int, to as int));
    }
    part(s, from, to)
}

/// `s` without the copies of `c` at its start.
pub fn skip_leading(s: &[char], c: char) -> (r: Vec<char>)
    ensures
        r@ == without_leading(s@, c),
{
    let mut from: usize = 0;
    assert(s@.skip(0) =~= s@);
    while from < s.len() && s[from] == c
        invariant
            from <= s.len(),
            without_leading(s@, c) == without_leading(s@.skip(from as int), c),
        decreases s.len() - from,
    {
        assert(s@.skip(from as int).drop_first() =~= s@.skip(from + 1));
        from = from + 1;
    }
    let out: Vec<char> = part(s, from, s.len());
    assert(out@ =~= s@.skip(from as int));
    out
}

/// Whether `start` stands in `s` at `at`.
pub fn starts_at(s: &[char], at: usize, start: &[char]) -> (r: bool)
    requires
        at <= s@.len(),
    ensures
        r == starts(s@.skip(at as int), start@),
{
    if s.len() - at < start.len() {
        return false;
    }
    let mut i: usize = 0;
    while i < start.len()
        invariant
            i <= start.len(),
            at + start.len() <= s.len(),
            forall|j: int| 0 <= j < i ==> s@[at + j] == start@[j],
        decreases start.len() - i,
    {
        if s[at + i] != start[i] {
            proof {
                let t = s@.skip(at as int).take(start@.len() as int);
                assert(t[i as int] != start@[i as int]);
            }
            return false;
        }
        i = i + 1;
    }
    assert(s@.skip(at as int).take(start@.len() as int) =~= start@);
    true
}

/// Whether `s` starts with `start`.
pub fn starts_with(s: &[char], start: &str) -> (r: bool)
    ensures
        r == starts(s@, start@),
{
    assert(s@.skip(0) =~= s@);
    starts_at(s, 0, characters(start).as_slice())
}

/// Whether `part` occurs in `s`.
pub fn contains(s: &[char], part: &str) -> (r: bool)
    ensures
        r == has(s@, part@),
{
    let needle: Vec<char> = characters(part);
    let mut i: usize = 0;
    while i < s.len()
        invariant
            i <= s.len(),
            needle@ == part@,
            forall|j: int| 0 <= j < i ==> !starts(#[trigger] s@.skip(j), part@),
        decreases s.len() - i,
    {
        if starts_at(s, i, needle.as_slice()) {
            return true;
        }
        i = i + 1;
    }
    starts_at(s, i, needle.as_slice())
}

/// What follows `start` in `s`, where `s` starts with it.
pub fn after_prefix(s: &[char], start: &str) -> (r: Option<Vec<char>>)
    ensures
        starts(s@, start@) ==> (r matches Some(v) && v@ == s@.skip(start@.len() as int)),
        !starts(s@, start@) ==> r is None,
{
    if starts_with(s, start) {
        let n: usize = characters(start).len();
        let out: Vec<char> = part(s, n, s.len());
        assert(out@ =~= s@.skip(n as int));
        Some(out)
    } else {
        None
    }
}

/// What comes before `end` in `s`, where `s` ends with it.
pub fn before_suffix(s: &[char], end: &str) -> (r: Option<Vec<char>>)
    ensures
        ends(s@, end@) ==> (r matches Some(v) && v@ == s@.take(s@.len() - end@.len())),
        !ends(s@, end@) ==> r is None,
{
    let tail: Vec<char> = characters(end);
    if s.len() < tail.len() {
        return None;
    }
    let at: usize = s.len() - tail.len();
    let found: bool = starts_at(s, at, tail.as_slice());
    assert(s@.skip(at as int).take(tail@.len() as int) =~= s@.skip(at as int));
    if found {
        let out: Vec<char> = part(s, 0, at);
        assert(out@ =~= s@.take(at as int));
        Some(out)
    } else {
        None
    }
}

/// The characters of each of a row of texts.
pub open spec fn views(v: Seq<Vec<char>>) -> Seq<Seq<char>> {
    v.map_values(|x: Vec<char>| x@)
}

/// Texts by what they hold.
pub open spec fn texts(v: Seq<String>) -> Seq<Seq<char>> {
    Seq::new(v.len(), |i: int| v[i]@)
}

/// The lines of `s`.
pub fn split_lines(s: &[char]) -> (r: Vec<Vec<char>>)
    ensures
        views(r@) == lines(s@),
{
    let mut out: Vec<Vec<char>> = Vec::new();
    let mut i: usize = 0;
    assert(s@.skip(0) =~= s@);
    while i < s.len()
        invariant
            i <= s.len(),
            lines(s@) == views(out@) + lines(s@.skip(i as int)),
        decreases s.len() - i,
    {
        let ghost rest = s@.skip(i as int);
        let ghost before = views(out@);
        let end: usize = find_from(s, '\n', i);
        if end < s.len() {
            let stop: usize = if end > i && s[end - 1] == '\r' {
                end - 1
            } else {
                end
            };
            let line: Vec<char> = part(s, i, stop);
            assert(line@ =~= without_return(rest.take(end - i)));
            out.push(line);
            assert(rest.skip(end - i + 1) =~= s@.skip(end + 1));
            assert(views(out@) =~= before.push(line@));
            assert(before + (seq![line@] + lines(s@.skip(end + 1))) =~= before.push(line@)
                + lines(s@.skip(end + 1)));
            i = end + 1;
        } else {
            let line: Vec<char> = part(s, i, end);
            assert(line@ =~= rest);
            out.push(line);
            assert(views(out@) =~= before.push(line@));
            assert(s@.skip(end as int) =~= seq![]);
            assert(lines(s@.skip(end as int)) =~= seq![]);
            assert(before + seq![rest] =~= before.push(line@) + lines(s@.skip(end as int)));
            i = end;
        }
    }
    assert(lines(s@.skip(i as int)) =~= seq![]);
    out
}

/// The words of `s`.
pub fn split_words(s: &[char]) -> (r: Vec<Vec<char>>)
    ensures
        views(r@) == words(s@),
{
    let mut out: Vec<Vec<char>> = Vec::new();
    let mut i: usize = 0;
    assert(s@.skip(0) =~= s@);
    while i < s.len()
        invariant
            i <= s.len(),
            words(s@) == views(out@) + words(s@.skip(i as int)),
        decreases s.len() - i,
    {
        let ghost rest = s@.skip(i as int);
        if is_space(s[i]) {
            assert(rest.drop_first() =~= s@.skip(i + 1));
            i = i + 1;
        } else {
            let mut end: usize = i + 1;
            while end < s.len() && !is_space(s[end])
                invariant
                    i < end <= s.len(),
                    forall|j: int| i <= j < end ==> !white_space(s@[j]),
                decreases s.len() - end,
            {
                end = end + 1;
            }
            let word: Vec<char> = part(s, i, end);
            let ghost before = views(out@);
            proof {
                lemma_word_end_is(rest, (end - i) as nat);
                assert(word@ =~= rest.take(end - i));
                assert(rest.skip(end - i) =~= s@.skip(end as int));
            }
            out.push(word);
            assert(views(out@) =~= before.push(word@));
            assert(before + (seq![word@] + words(s@.skip(end as int))) =~= before.push(word@)
                + words(s@.skip(end as int)));
            i = end;
        }
    }
    assert(words(s@.skip(i as int)) =~= seq![]);
    out
}

/// `s` with every `from` replaced by `to`.
pub fn replace(s: &[char], from: &str, to: &str) -> (r: Vec<char>)
    requires
        from@.len() > 0,
    ensures
        r@ == replaced(s@, from@, to@),
{
    let old_part: Vec<char> = characters(from);
    let mut out: Vec<char> = Vec::new();
    let mut i: usize = 0;
    assert(s@.skip(0) =~= s@);
    while i < s.len()
        invariant
            i <= s.len(),
            old_part@ == from@,
            from@.len() > 0,
            replaced(s@, from@, to@) == out@ + replaced(s@.skip(i as int), from@, to@),
        decreases s.len() - i,
    {
        let ghost rest = s@.skip(i as int);
        let ghost before = out@;
        if starts_at(s, i, old_part.as_slice()) {
            let mut new_part: Vec<char> = characters(to);
            out.append(&mut new_part);
            assert(rest.skip(from@.len() as int) =~= s@.skip(i + from@.len()));
            assert(before + (to@ + replaced(s@.skip(i + from@.len()), from@, to@)) =~= (before
                + to@) + replaced(s@.skip(i + from@.len()), from@, to@));
            i = i + old_part.len();
        } else {
            out.push(s[i]);
            proof {
                let next = s@.skip(i + 1);
                assert(rest.drop_first() =~= next);
                if rest.len() < from@.len() {
                    assert(replaced(next, from@, to@) == next);
                    assert(before + rest =~= before.push(rest[0]) + next);
                } else {
                    assert(before + (seq![rest[0]] + replaced(next, from@, to@)) =~= before.push(
                        rest[0],
                    ) + replaced(next, from@, to@));
                }
            }
            i = i + 1;
        }
    }
    assert(replaced(s@.skip(i as int), from@, to@) =~= seq![]);
    out
}

/// All copies of a character at the start of a text are left out, and nothing else is.
pub proof fn law_leading_copies_are_left_out(s: Seq<char>, c: char)
    ensures
        ({
            let rest = without_leading(s, c);
            let k = s.len() - rest.len();
            &&& 0 <= k <= s.len()
            &&& rest == s.skip(k)
            &&& forall|i: int| 0 <= i < k ==> #[trigger] s[i] == c
            &&& rest.len() > 0 ==> rest[0] != c
        }),
    decreases s.len(),
{
    if s.len() > 0 && s[0] == c {
        let later = s.drop_first();
        law_leading_copies_are_left_out(later, c);
        let rest = without_leading(s, c);
        let k = s.len() - rest.len();
        assert(later.skip(k - 1) =~= s.skip(k));
        assert forall|i: int| 0 <= i < k implies #[trigger] s[i] == c by {
            if i > 0 {
                assert(later[i - 1] == s[i]);
            }
        }
    } else {
        assert(s.skip(0) =~= s);
    }
}

} // verus!
