//! Text as sequences of characters: searching, splitting, and whole numbers.

use vstd::prelude::*;

verus! {

/// `String::push` appends one character.
pub assume_specification[ String::push ](s: &mut String, c: char)
    ensures
        final(s)@ == old(s)@.push(c),
;

/// The characters of a string.
pub fn chars_of(s: &str) -> (chars: Vec<char>)
    ensures
        chars@ == s@,
{
    let mut chars: Vec<char> = Vec::new();
    for c in it: s.chars()
        invariant
            it.seq() == s@,
            chars@ == it.seq().take(it.index() as int),
    {
        chars.push(c);
    }
    chars
}

/// The string of a sequence of characters.
pub fn string_of(chars: &Vec<char>) -> (s: String)
    ensures
        s@ == chars@,
{
    let mut s = String::new();
    let mut i: usize = 0;
    while i < chars.len()
        invariant
            i <= chars@.len(),
            s@ == chars@.take(i as int),
        decreases chars.len() - i,
    {
        s.push(chars[i]);
        i = i + 1;
    }
    s
}

/// The characters of each text of a list.
pub open spec fn views(texts: Seq<Vec<char>>) -> Seq<Seq<char>> {
    texts.map_values(|text: Vec<char>| text@)
}

/// The characters from index `from` up to index `to`.
pub fn part(chars: &Vec<char>, from: usize, to: usize) -> (text: Vec<char>)
    requires
        from <= to <= chars@.len(),
    ensures
        text@ == chars@.subrange(from as int, to as int),
{
    let mut text: Vec<char> = Vec::new();
    let mut i: usize = from;
    while i < to
        invariant
            from <= i <= to <= chars@.len(),
            text@ == chars@.subrange(from as int, i as int),
        decreases to - i,
    {
        text.push(chars[i]);
        i = i + 1;
    }
    text
}

/// Whether `pattern` stands in `chars` at index `at`.
pub fn stands_at(chars: &Vec<char>, at: usize, pattern: &Vec<char>) -> (stands: bool)
    requires
        at <= chars@.len(),
    ensures
        stands == (at + pattern@.len() <= chars@.len() && chars@.subrange(
            at as int,
            at + pattern@.len(),
        ) == pattern@),
{
    if chars.len() - at < pattern.len() {
        return false;
    }
    let mut i: usize = 0;
    while i < pattern.len()
        invariant
            i <= pattern@.len(),
            at + pattern@.len() <= chars.len(),
            forall|j: int| 0 <= j < i ==> chars@[at + j] == pattern@[j],
        decreases pattern.len() - i,
    {
        if chars[at + i] != pattern[i] {
            proof {
                let stretch = chars@.subrange(at as int, at + pattern@.len());
                assert(stretch[i as int] != pattern@[i as int]);
            }
            return false;
        }
        i = i + 1;
    }
    proof {
        assert(chars@.subrange(at as int, at + pattern@.len()) =~= pattern@);
    }
    true
}

/// Whether two texts are the same.
pub fn same(a: &Vec<char>, b: &Vec<char>) -> (equal: bool)
    ensures
        equal == (a@ == b@),
{
    if a.len() != b.len() {
        return false;
    }
    let equal: bool = stands_at(a, 0, b);
    proof {
        assert(a@.subrange(0, a@.len() as int) =~= a@);
    }
    equal
}

/// The index of the first `c` from index `i` on, or the length where there is none.
pub open spec fn char_index(s: Seq<char>, c: char, i: int) -> int
    decreases s.len() - i,
{
    if 0 <= i < s.len() && s[i] != c {
        char_index(s, c, i + 1)
    } else {
        i
    }
}

/// Finds the first `c` from index `from` on, or the end where there is none.
pub fn find_char(chars: &Vec<char>, c: char, from: usize) -> (at: usize)
    requires
        from <= chars@.len(),
    ensures
        at == char_index(chars@, c, from as int),
        from <= at <= chars@.len(),
{
    let mut i: usize = from;
    while i < chars.len() && chars[i] != c
        invariant
            from <= i <= chars@.len(),
            char_index(chars@, c, i as int) == char_index(chars@, c, from as int),
        decreases chars.len() - i,
    {
        i = i + 1;
    }
    i
}

/// The first `c` stands where nothing before it is one.
pub proof fn lemma_char_index(s: Seq<char>, c: char, i: int, at: int)
    requires
        0 <= i <= at <= s.len(),
        forall|k: int| i <= k < at ==> s[k] != c,
        at < s.len() ==> s[at] == c,
    ensures
        char_index(s, c, i) == at,
    decreases at - i,
{
    if i < at {
        lemma_char_index(s, c, i + 1, at);
    }
}

/// The pieces of the text from index `i` on that stand between the separators `c`.
pub open spec fn pieces(s: Seq<char>, c: char, i: int) -> Seq<Seq<char>>
    decreases s.len() - i,
{
    let e = char_index(s, c, i);
    if 0 <= i <= e < s.len() {
        seq![s.subrange(i, e)] + pieces(s, c, e + 1)
    } else {
        seq![s.subrange(i, s.len() as int)]
    }
}

/// Splits a text at each `c`.
pub fn split_at_char(chars: &Vec<char>, c: char) -> (parts: Vec<Vec<char>>)
    ensures
        views(parts@) == pieces(chars@, c, 0),
{
    let mut parts: Vec<Vec<char>> = Vec::new();
    let mut i: usize = 0;
    proof {
        assert(views(parts@) + pieces(chars@, c, 0) =~= pieces(chars@, c, 0));
    }
    loop
        invariant
            i <= chars@.len(),
            views(parts@) + pieces(chars@, c, i as int) == pieces(chars@, c, 0),
        decreases chars.len() - i,
    {
        let e: usize = find_char(chars, c, i);
        let piece = part(chars, i, e);
        let ghost before = parts@;
        parts.push(piece);
        proof {
            assert(views(parts@) =~= views(before).push(piece@));
            if e < chars@.len() {
                assert(views(parts@) + pieces(chars@, c, e + 1) =~= views(before) + pieces(
                    chars@,
                    c,
                    i as int,
                ));
            } else {
                assert(views(parts@) =~= views(before) + pieces(chars@, c, i as int));
            }
        }
        if e >= chars.len() {
            return parts;
        }
        i = e + 1;
    }
}

/// The first index from `i` on at which `pattern` stands.
pub open spec fn pattern_index(s: Seq<char>, pattern: Seq<char>, i: int) -> Option<int>
    decreases s.len() + 1 - i,
{
    if i < 0 || i + pattern.len() > s.len() {
        None
    } else if s.subrange(i, i + pattern.len()) == pattern {
        Some(i)
    } else {
        pattern_index(s, pattern, i + 1)
    }
}

/// Finds the first index from `from` on at which `pattern` stands.
pub fn find_pattern(chars: &Vec<char>, pattern: &Vec<char>, from: usize) -> (at: Option<usize>)
    requires
        from <= chars@.len(),
    ensures
        match at {
            Some(at) => pattern_index(chars@, pattern@, from as int) == Some(at as int) && from
                <= at && at + pattern@.len() <= chars@.len(),
            None => pattern_index(chars@, pattern@, from as int) is None,
        },
{
    let mut i: usize = from;
    while i < chars.len()
        invariant
            from <= i <= chars@.len(),
            pattern_index(chars@, pattern@, i as int) == pattern_index(
                chars@,
                pattern@,
                from as int,
            ),
        decreases chars.len() - i,
    {
        if chars.len() - i < pattern.len() {
            return None;
        }
        if stands_at(chars, i, pattern) {
            return Some(i);
        }
        i = i + 1;
    }
    if pattern.len() == 0 {
        proof {
            assert(chars@.subrange(i as int, i as int) =~= pattern@);
        }
        Some(i)
    } else {
        None
    }
}

/// Whether `pattern` stands anywhere in a text.
pub open spec fn contains(s: Seq<char>, pattern: Seq<char>) -> bool {
    pattern_index(s, pattern, 0) is Some
}

/// The pieces of the text from index `i` on that stand between the patterns.
pub open spec fn pieces_between(s: Seq<char>, pattern: Seq<char>, i: int) -> Seq<Seq<char>>
    decreases s.len() - i,
{
    match pattern_index(s, pattern, i) {
        Some(e) => if pattern.len() > 0 && 0 <= i <= e && e + pattern.len() <= s.len() {
            seq![s.subrange(i, e)] + pieces_between(s, pattern, e + pattern.len())
        } else {
            seq![s.subrange(i, s.len() as int)]
        },
        None => seq![s.subrange(i, s.len() as int)],
    }
}

/// Splits a text at each occurrence of a pattern.
pub fn split_at_pattern(chars: &Vec<char>, pattern: &Vec<char>) -> (parts: Vec<Vec<char>>)
    requires
        pattern@.len() > 0,
    ensures
        views(parts@) == pieces_between(chars@, pattern@, 0),
{
    let mut parts: Vec<Vec<char>> = Vec::new();
    let mut i: usize = 0;
    proof {
        assert(views(parts@) + pieces_between(chars@, pattern@, 0) =~= pieces_between(
            chars@,
            pattern@,
            0,
        ));
    }
    loop
        invariant
            pattern@.len() > 0,
            i <= chars@.len(),
            views(parts@) + pieces_between(chars@, pattern@, i as int) == pieces_between(
                chars@,
                pattern@,
                0,
            ),
        decreases chars.len() - i,
    {
        let ghost before = parts@;
        match find_pattern(chars, pattern, i) {
            Some(e) => {
                let piece = part(chars, i, e);
                parts.push(piece);
                proof {
                    assert(views(parts@) =~= views(before).push(piece@));
                    assert(views(parts@) + pieces_between(chars@, pattern@, e + pattern@.len())
                        =~= views(before) + pieces_between(chars@, pattern@, i as int));
                }
                i = e + pattern.len();
            },
            None => {
                let piece = part(chars, i, chars.len());
                parts.push(piece);
                proof {
                    assert(views(parts@) =~= views(before).push(piece@));
                    assert(views(parts@) =~= views(before) + pieces_between(
                        chars@,
                        pattern@,
                        i as int,
                    ));
                }
                return parts;
            },
        }
    }
}

/// The characters with the Unicode property `White_Space`.
pub open spec fn is_space(c: char) -> bool {
    ||| '\u{9}' <= c <= '\u{d}'
    ||| c == '\u{20}'
    ||| c == '\u{85}'
    ||| c == '\u{a0}'
    ||| c == '\u{1680}'
    ||| '\u{2000}' <= c <= '\u{200a}'
    ||| c == '\u{2028}'
    ||| c == '\u{2029}'
    ||| c == '\u{202f}'
    ||| c == '\u{205f}'
    ||| c == '\u{3000}'
}

/// Whether a character has the Unicode property `White_Space`.
pub fn space(c: char) -> (result: bool)
    ensures
        result == is_space(c),
{
    ('\u{9}' <= c && c <= '\u{d}') || c == '\u{20}' || c == '\u{85}' || c == '\u{a0}' || c
        == '\u{1680}' || ('\u{2000}' <= c && c <= '\u{200a}') || c == '\u{2028}' || c == '\u{2029}'
        || c == '\u{202f}' || c == '\u{205f}' || c == '\u{3000}'
}

/// A text without the white space before it.
pub open spec fn trim_start(s: Seq<char>) -> Seq<char>
    decreases s.len(),
{
    if s.len() > 0 && is_space(s[0]) {
        trim_start(s.drop_first())
    } else {
        s
    }
}

/// A text without the white space after it.
pub open spec fn trim_end(s: Seq<char>) -> Seq<char>
    decreases s.len(),
{
    if s.len() > 0 && is_space(s.last()) {
        trim_end(s.drop_last())
    } else {
        s
    }
}

/// A text without the white space around it.
pub open spec fn trim(s: Seq<char>) -> Seq<char> {
    trim_end(trim_start(s))
}

/// Leaves out the white space around a text.
pub fn trimmed(chars: &Vec<char>) -> (text: Vec<char>)
    ensures
        text@ == trim(chars@),
{
    let mut from: usize = 0;
    proof {
        assert(chars@.skip(0) =~= chars@);
    }
    while from < chars.len() && space(chars[from])
        invariant
            from <= chars@.len(),
            trim_start(chars@.skip(from as int)) == trim_start(chars@),
        decreases chars.len() - from,
    {
        proof {
            assert(chars@.skip(from as int).drop_first() =~= chars@.skip(from + 1));
        }
        from = from + 1;
    }
    let mut to: usize = chars.len();
    proof {
        assert(chars@.subrange(from as int, to as int) =~= chars@.skip(from as int));
    }
    while from < to && space(chars[to - 1])
        invariant
            from <= to <= chars@.len(),
            trim_end(chars@.subrange(from as int, to as int)) == trim(chars@),
        decreases to,
    {
        proof {
            assert(chars@.subrange(from as int, to as int).drop_last() =~= chars@.subrange(
                from as int,
                to - 1,
            ));
        }
        to = to - 1;
    }
    part(chars, from, to)
}

/// The first index from `i` on that holds no white space.
pub open spec fn word_start(s: Seq<char>, i: int) -> int
    decreases s.len() - i,
{
    if 0 <= i < s.len() && is_space(s[i]) {
        word_start(s, i + 1)
    } else {
        i
    }
}

/// The first index from `i` on that holds white space.
pub open spec fn word_end(s: Seq<char>, i: int) -> int
    decreases s.len() - i,
{
    if 0 <= i < s.len() && !is_space(s[i]) {
        word_end(s, i + 1)
    } else {
        i
    }
}

/// The words of the text from index `i` on.
pub open spec fn words(s: Seq<char>, i: int) -> Seq<Seq<char>>
    decreases s.len() - i,
{
    let b = word_start(s, i);
    let e = word_end(s, b);
    if 0 <= i <= b < e <= s.len() {
        seq![s.subrange(b, e)] + words(s, e)
    } else {
        seq![]
    }
}

/// Splits a text at its white space.
pub fn split_words(chars: &Vec<char>) -> (parts: Vec<Vec<char>>)
    ensures
        views(parts@) == words(chars@, 0),
{
    let mut parts: Vec<Vec<char>> = Vec::new();
    let mut i: usize = 0;
    proof {
        assert(views(parts@) + words(chars@, 0) =~= words(chars@, 0));
    }
    loop
        invariant
            i <= chars@.len(),
            views(parts@) + words(chars@, i as int) == words(chars@, 0),
        decreases chars.len() - i,
    {
        let mut b: usize = i;
        while b < chars.len() && space(chars[b])
            invariant
                i <= b <= chars@.len(),
                word_start(chars@, b as int) == word_start(chars@, i as int),
            decreases chars.len() - b,
        {
            b = b + 1;
        }
        let mut e: usize = b;
        while e < chars.len() && !space(chars[e])
            invariant
                b <= e <= chars@.len(),
                word_end(chars@, e as int) == word_end(chars@, b as int),
            decreases chars.len() - e,
        {
            e = e + 1;
        }
        if b == e {
            proof {
                assert(views(parts@) + words(chars@, i as int) =~= views(parts@));
            }
            return parts;
        }
        let ghost before = parts@;
        let word = part(chars, b, e);
        parts.push(word);
        proof {
            assert(views(parts@) =~= views(before).push(word@));
            assert(views(parts@) + words(chars@, e as int) =~= views(before) + words(
                chars@,
                i as int,
            ));
        }
        i = e;
    }
}

/// A word is a text that holds no white space, and holds something.
pub open spec fn is_one_word(s: Seq<char>) -> bool {
    s.len() > 0 && forall|i: int| 0 <= i < s.len() ==> !is_space(#[trigger] s[i])
}

/// Words in a row, with a space between one and the next.
pub open spec fn spaced(parts: Seq<Seq<char>>) -> Seq<char>
    decreases parts.len(),
{
    if parts.len() == 0 {
        seq![]
    } else if parts.len() == 1 {
        parts[0]
    } else {
        parts[0] + seq![' '] + spaced(parts.drop_first())
    }
}

proof fn lemma_word_end(s: Seq<char>, i: int, end: int)
    requires
        0 <= i <= end <= s.len(),
        forall|k: int| i <= k < end ==> !is_space(#[trigger] s[k]),
        end < s.len() ==> is_space(s[end]),
    ensures
        word_end(s, i) == end,
    decreases end - i,
{
    if i < end {
        lemma_word_end(s, i + 1, end);
    }
}

/// Words in a row are split into those words.
pub proof fn lemma_words_of_spaced(s: Seq<char>, i: int, parts: Seq<Seq<char>>)
    requires
        0 <= i <= s.len(),
        s.skip(i) == spaced(parts),
        forall|k: int| 0 <= k < parts.len() ==> is_one_word(#[trigger] parts[k]),
    ensures
        words(s, i) == parts,
    decreases parts.len(),
{
    if parts.len() == 0 {
        assert(s.skip(i).len() == 0);
        assert(words(s, i) =~= parts);
    } else {
        let word = parts[0];
        let size: int = word.len() as int;
        let end = i + size;
        let rest = parts.drop_first();
        assert(is_one_word(word));
        assert(s.skip(i).len() == s.len() - i && spaced(parts).len() >= size);
        assert(s.skip(i).take(size) =~= word);
        assert forall|k: int| i <= k < end implies !is_space(#[trigger] s[k]) by {
            assert(s.skip(i).take(size)[k - i] == s[k]);
        }
        assert(s.subrange(i, end) =~= word);
        if parts.len() == 1 {
            assert(s.len() == end);
            lemma_word_end(s, i, end);
            assert(words(s, end) =~= seq![]);
        } else {
            assert(s.skip(i)[size] == ' ');
            assert(s[end] == ' ');
            lemma_word_end(s, i, end);
            assert(s.skip(end + 1) =~= s.skip(i).skip(size + 1));
            assert(s.skip(i).skip(size + 1) =~= spaced(rest));
            assert forall|k: int| 0 <= k < rest.len() implies is_one_word(#[trigger] rest[k]) by {
                assert(rest[k] == parts[k + 1]);
            }
            lemma_words_of_spaced(s, end + 1, rest);
            assert(words(s, end) == words(s, end + 1));
        }
        assert(parts =~= seq![word] + rest);
    }
}

/// A row of words ends with the last character of its last word.
pub proof fn lemma_spaced_end(parts: Seq<Seq<char>>)
    requires
        parts.len() > 0,
        forall|k: int| 0 <= k < parts.len() ==> is_one_word(#[trigger] parts[k]),
    ensures
        spaced(parts).len() > 0,
        !is_space(spaced(parts).last()),
    decreases parts.len(),
{
    assert(is_one_word(parts[0]));
    if parts.len() > 1 {
        let rest = parts.drop_first();
        assert forall|k: int| 0 <= k < rest.len() implies is_one_word(#[trigger] rest[k]) by {
            assert(rest[k] == parts[k + 1]);
        }
        lemma_spaced_end(rest);
    }
}

/// White space around a text is left out.
pub proof fn lemma_trim(s: Seq<char>, end: Seq<char>)
    requires
        s.len() > 0,
        !is_space(s[0]),
        !is_space(s.last()),
        forall|k: int| 0 <= k < end.len() ==> is_space(#[trigger] end[k]),
    ensures
        trim(s + end) == s,
    decreases end.len(),
{
    if end.len() == 0 {
        assert(s + end =~= s);
    } else {
        lemma_trim(s, end.drop_last());
        assert((s + end).drop_last() =~= s + end.drop_last());
        assert((s + end).last() == end[end.len() - 1]);
        assert(trim_start(s + end) == s + end);
        assert(trim_start(s + end.drop_last()) == s + end.drop_last());
    }
}

/// Nothing but white space.
pub open spec fn is_blank(s: Seq<char>) -> bool {
    forall|i: int| 0 <= i < s.len() ==> is_space(#[trigger] s[i])
}

proof fn lemma_trim_start(s: Seq<char>)
    ensures
        exists|n: int|
            0 <= n <= s.len() && is_blank(#[trigger] s.take(n)) && trim_start(s) == s.skip(n),
        trim_start(s).len() > 0 ==> !is_space(trim_start(s)[0]),
    decreases s.len(),
{
    if s.len() > 0 && is_space(s[0]) {
        let rest = s.drop_first();
        lemma_trim_start(rest);
        let n = choose|n: int|
            0 <= n <= rest.len() && is_blank(#[trigger] rest.take(n)) && trim_start(rest)
                == rest.skip(n);
        assert forall|i: int| 0 <= i < n + 1 implies is_space(#[trigger] s.take(n + 1)[i]) by {
            if i > 0 {
                assert(rest.take(n)[i - 1] == s[i]);
            }
        }
        assert(is_blank(s.take(n + 1)));
        assert(rest.skip(n) =~= s.skip(n + 1));
    } else {
        assert(is_blank(s.take(0)));
        assert(s.skip(0) =~= s);
    }
}

proof fn lemma_trim_end(s: Seq<char>)
    ensures
        exists|n: int|
            0 <= n <= s.len() && is_blank(#[trigger] s.skip(n)) && trim_end(s) == s.take(n),
        trim_end(s).len() > 0 ==> !is_space(trim_end(s).last()),
    decreases s.len(),
{
    if s.len() > 0 && is_space(s.last()) {
        let rest = s.drop_last();
        lemma_trim_end(rest);
        let n = choose|n: int|
            0 <= n <= rest.len() && is_blank(#[trigger] rest.skip(n)) && trim_end(rest)
                == rest.take(n);
        let tail = s.skip(n);
        assert forall|i: int| 0 <= i < tail.len() implies is_space(#[trigger] tail[i]) by {
            if i < rest.len() - n {
                assert(rest.skip(n)[i] == s[n + i]);
            }
        }
        assert(is_blank(s.skip(n)));
        assert(rest.take(n) =~= s.take(n));
    } else {
        assert(is_blank(s.skip(s.len() as int)));
        assert(s.take(s.len() as int) =~= s);
    }
}

/// Trimming takes white space away from both ends of a text, and nothing else, until neither end
/// is white space.
pub proof fn law_trimming_takes_white_space_away(s: Seq<char>)
    ensures
        exists|a: Seq<char>, b: Seq<char>| #[trigger]
            (a + trim(s) + b) == s && is_blank(a) && is_blank(b),
        trim(s).len() > 0 ==> !is_space(trim(s)[0]) && !is_space(trim(s).last()),
{
    lemma_trim_start(s);
    let t = trim_start(s);
    lemma_trim_end(t);
    let m = choose|m: int|
        0 <= m <= s.len() && is_blank(#[trigger] s.take(m)) && trim_start(s) == s.skip(m);
    let n = choose|n: int|
        0 <= n <= t.len() && is_blank(#[trigger] t.skip(n)) && trim_end(t) == t.take(n);
    let a = s.take(m);
    let b = t.skip(n);
    assert(a + trim(s) + b =~= s);
    if trim(s).len() > 0 {
        assert(trim(s)[0] == t[0]);
    }
}

/// Pieces in a row, with a separator between one and the next.
pub open spec fn separated(parts: Seq<Seq<char>>, c: char) -> Seq<char>
    decreases parts.len(),
{
    if parts.len() == 0 {
        seq![]
    } else if parts.len() == 1 {
        parts[0]
    } else {
        parts[0] + seq![c] + separated(parts.drop_first(), c)
    }
}

proof fn lemma_index_found(s: Seq<char>, c: char, i: int)
    requires
        0 <= i <= s.len(),
    ensures
        i <= char_index(s, c, i) <= s.len(),
        forall|k: int| i <= k < char_index(s, c, i) ==> #[trigger] s[k] != c,
        char_index(s, c, i) < s.len() ==> s[char_index(s, c, i)] == c,
    decreases s.len() - i,
{
    if i < s.len() && s[i] != c {
        lemma_index_found(s, c, i + 1);
    }
}

/// A text that is split at a separator gives pieces without it, which make up the text again when
/// the separator is put between them.
pub proof fn law_pieces_make_up_the_text(s: Seq<char>, c: char, i: int)
    requires
        0 <= i <= s.len(),
    ensures
        pieces(s, c, i).len() > 0,
        separated(pieces(s, c, i), c) == s.skip(i),
        forall|k: int, n: int|
            0 <= k < pieces(s, c, i).len() && 0 <= n < pieces(s, c, i)[k].len()
                ==> #[trigger] pieces(s, c, i)[k][n] != c,
    decreases s.len() - i,
{
    let e = char_index(s, c, i);
    lemma_index_found(s, c, i);
    let all = pieces(s, c, i);
    if e < s.len() {
        law_pieces_make_up_the_text(s, c, e + 1);
        let rest = pieces(s, c, e + 1);
        assert(all.drop_first() =~= rest);
        assert(s.subrange(i, e) + seq![c] + s.skip(e + 1) =~= s.skip(i));
        assert forall|k: int, n: int|
            0 <= k < all.len() && 0 <= n < all[k].len() implies #[trigger] all[k][n] != c by {
            if k > 0 {
                assert(all[k] == rest[k - 1]);
                assert(rest[k - 1][n] != c);
            } else {
                assert(all[0][n] == s[i + n]);
            }
        }
    } else {
        assert(all[0] =~= s.skip(i));
    }
}

/// A pattern stands first where it stands, if it does not stand anywhere before.
pub proof fn lemma_pattern_first(s: Seq<char>, pattern: Seq<char>, i: int, at: int)
    requires
        0 <= i <= at,
        at + pattern.len() <= s.len(),
        s.subrange(at, at + pattern.len()) == pattern,
        forall|k: int| i <= k < at ==> #[trigger] s.subrange(k, k + pattern.len()) != pattern,
    ensures
        pattern_index(s, pattern, i) == Some(at),
    decreases at - i,
{
    if i < at {
        assert(s.subrange(i, i + pattern.len()) != pattern);
        lemma_pattern_first(s, pattern, i + 1, at);
    }
}

/// Where a pattern is not found, it does not stand.
pub proof fn lemma_pattern_missing(s: Seq<char>, pattern: Seq<char>, i: int, k: int)
    requires
        pattern_index(s, pattern, i) is None,
        0 <= i <= k,
        k + pattern.len() <= s.len(),
    ensures
        s.subrange(k, k + pattern.len()) != pattern,
    decreases k - i,
{
    if i < k {
        lemma_pattern_missing(s, pattern, i + 1, k);
    }
}

/// Where a pattern is found, it stands.
pub proof fn lemma_pattern_found(s: Seq<char>, pattern: Seq<char>, i: int)
    ensures
        pattern_index(s, pattern, i) matches Some(e) ==> i <= e && 0 <= e && e + pattern.len()
            <= s.len() && s.subrange(e, e + pattern.len()) == pattern,
    decreases s.len() + 1 - i,
{
    if 0 <= i && i + pattern.len() <= s.len() && s.subrange(i, i + pattern.len()) != pattern {
        lemma_pattern_found(s, pattern, i + 1);
    }
}

/// A text holds a pattern exactly where it is something, then the pattern, then something.
pub proof fn law_pattern_is_contained(s: Seq<char>, pattern: Seq<char>)
    ensures
        contains(s, pattern) <==> exists|a: Seq<char>, b: Seq<char>| s == #[trigger] (a + pattern
            + b),
{
    if contains(s, pattern) {
        lemma_pattern_found(s, pattern, 0);
        let e = pattern_index(s, pattern, 0)->0;
        let a = s.take(e);
        let b = s.skip(e + pattern.len());
        assert(s =~= a + pattern + b) by {
            assert forall|k: int| 0 <= k < s.len() implies s[k] == (a + pattern + b)[k] by {
                if e <= k < e + pattern.len() {
                    assert(s.subrange(e, e + pattern.len())[k - e] == s[k]);
                }
            }
        }
    }
    if exists|a: Seq<char>, b: Seq<char>| s == #[trigger] (a + pattern + b) {
        let (a, b) = choose|a: Seq<char>, b: Seq<char>| s == #[trigger] (a + pattern + b);
        let at = a.len() as int;
        assert(s.subrange(at, at + pattern.len()) =~= pattern);
        if !contains(s, pattern) {
            lemma_pattern_missing(s, pattern, 0, at);
        }
    }
}

/// What stands between two texts is contained.
pub proof fn lemma_contained(a: Seq<char>, pattern: Seq<char>, b: Seq<char>)
    ensures
        contains(a + pattern + b, pattern),
{
    law_pattern_is_contained(a + pattern + b, pattern);
}

/// White space are the characters with these code points, and no other.
pub proof fn law_white_space_has_its_code_points(c: char)
    ensures
        is_space(c) <==> {
            let n = c as int;
            ||| 9 <= n <= 13
            ||| n == 32 || n == 133 || n == 160 || n == 5760
            ||| 8192 <= n <= 8202
            ||| n == 8232 || n == 8233 || n == 8239 || n == 8287 || n == 12288
        },
{
}

} // verus!
