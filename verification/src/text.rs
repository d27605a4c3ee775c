use vstd::prelude::*;
use vstd::string::*;
use vstd::utf8::*;

verus! {

/// The characters of `text` that its UTF-8 bytes from `start` up to `end`
/// encode.
pub open spec fn byte_range(text: Seq<char>, start: int, end: int) -> Seq<char> {
    decode_utf8(encode_utf8(text).subrange(start, end))
}

/// Whether byte offset `at` of `text` in UTF-8 stands between two characters,
/// at the start or at the end.
pub open spec fn is_boundary(text: Seq<char>, at: int) -> bool {
    is_char_boundary(encode_utf8(text), at)
}

/// The number of bytes of `text` in UTF-8.
pub open spec fn byte_len(text: Seq<char>) -> nat {
    encode_utf8(text).len()
}

/// The characters of a string that may be missing.
pub open spec fn text_of(s: Option<&str>) -> Option<Seq<char>> {
    match s {
        Some(s) => Some(s@),
        None => None,
    }
}

/// The characters of an owned string that may be missing.
pub open spec fn owned_text_of(s: Option<String>) -> Option<Seq<char>> {
    match s {
        Some(s) => Some(s@),
        None => None,
    }
}

/// The strings as sequences of characters.
pub open spec fn texts_of(strings: Seq<String>) -> Seq<Seq<char>> {
    strings.map_values(|s: String| s@)
}

/// A boundary lies within the text.
pub proof fn lemma_boundary_in_bounds(text: Seq<char>, at: int)
    requires
        is_boundary(text, at),
    ensures
        0 <= at <= byte_len(text),
{
    broadcast use group_utf8_lib;
}

/// The start and the end of a text are boundaries, and between them lies the
/// whole text.
pub proof fn lemma_whole_range(text: Seq<char>)
    ensures
        is_boundary(text, 0),
        is_boundary(text, byte_len(text) as int),
        byte_range(text, 0, byte_len(text) as int) == text,
{
    broadcast use group_utf8_lib;
    let bytes = encode_utf8(text);
    assert(bytes.subrange(0, bytes.len() as int) =~= bytes);
}

/// Between a boundary and itself lies nothing.
pub proof fn lemma_empty_range(text: Seq<char>, at: int)
    requires
        is_boundary(text, at),
    ensures
        byte_range(text, at, at) == Seq::<char>::empty(),
{
    broadcast use group_utf8_lib;
    assert(encode_utf8(text).subrange(at, at) =~= Seq::<u8>::empty());
}

/// A range between two boundaries has as many bytes as lie between them.
pub proof fn lemma_range_len(text: Seq<char>, start: int, end: int)
    requires
        start <= end,
        is_boundary(text, start),
        is_boundary(text, end),
    ensures
        byte_len(byte_range(text, start, end)) == end - start,
{
    broadcast use group_utf8_lib;
    lemma_whole_range(text);
    lemma_boundary_in_range(encode_utf8(text), 0, start, end);
    lemma_boundary_in_range(encode_utf8(text), start, start, end);
}

/// Two ranges that meet at a boundary make up the range around both.
pub proof fn lemma_ranges_join(text: Seq<char>, start: int, mid: int, end: int)
    requires
        start <= mid <= end,
        is_boundary(text, start),
        is_boundary(text, mid),
        is_boundary(text, end),
    ensures
        byte_range(text, start, mid) + byte_range(text, mid, end) == byte_range(text, start, end),
{
    broadcast use group_utf8_lib;
    let bytes = encode_utf8(text);
    lemma_boundary_in_range(bytes, start, mid, end);
    let part = bytes.subrange(start, end);
    decode_utf8_split(part, mid - start);
    assert(part.subrange(0, mid - start) =~= bytes.subrange(start, mid));
    assert(part.subrange(mid - start, part.len() as int) =~= bytes.subrange(mid, end));
}

/// What stands in a range of a text stands in the text.
pub proof fn lemma_range_within(text: Seq<char>, start: int, end: int, c: char)
    requires
        start <= end,
        is_boundary(text, start),
        is_boundary(text, end),
        byte_range(text, start, end).contains(c),
    ensures
        text.contains(c),
{
    lemma_whole_range(text);
    lemma_boundary_in_bounds(text, start);
    lemma_boundary_in_bounds(text, end);
    lemma_ranges_join(text, 0, start, end);
    lemma_ranges_join(text, 0, end, byte_len(text) as int);
    let before = byte_range(text, 0, start);
    let part = byte_range(text, start, end);
    let after = byte_range(text, end, byte_len(text) as int);
    assert(text == before + part + after);
    let i = choose|i: int| 0 <= i < part.len() && part[i] == c;
    assert(text[before.len() + i] == c);
}

/// Whether `part` stands somewhere in `text` as it is.
pub open spec fn is_part(part: Seq<char>, text: Seq<char>) -> bool {
    exists|at: int|
        0 <= at && at + part.len() <= text.len() && #[trigger] text.subrange(
            at,
            at + part.len() as int,
        ) == part
}

/// A range of a part of a text is a part of the text.
pub proof fn lemma_part_of_part(part: Seq<char>, text: Seq<char>, start: int, end: int)
    requires
        is_part(part, text),
        0 <= start <= end <= part.len(),
    ensures
        is_part(part.subrange(start, end), text),
{
    let at = choose|at: int|
        0 <= at && at + part.len() <= text.len() && #[trigger] text.subrange(
            at,
            at + part.len() as int,
        ) == part;
    assert(text.subrange(at + start, at + start + (end - start)) =~= part.subrange(start, end));
}

/// What is left of a part of a text without the white space at its ends is a
/// part of the text.
pub proof fn lemma_trimmed_part(part: Seq<char>, text: Seq<char>)
    requires
        is_part(part, text),
    ensures
        is_part(trimmed(part), text),
{
    lemma_leading_spaces(part);
    lemma_trailing_spaces(part);
    if leading_spaces(part) == part.len() {
        lemma_part_of_part(part, text, 0, 0);
        assert(part.subrange(0, 0) =~= trimmed(part));
    } else {
        lemma_trimmed_shape(part);
        lemma_part_of_part(
            part,
            text,
            leading_spaces(part) as int,
            part.len() - trailing_spaces(part),
        );
    }
}

/// A range of a text between two boundaries is a part of the text.
pub proof fn lemma_range_is_part(text: Seq<char>, start: int, end: int)
    requires
        start <= end,
        is_boundary(text, start),
        is_boundary(text, end),
    ensures
        is_part(byte_range(text, start, end), text),
{
    lemma_whole_range(text);
    lemma_boundary_in_bounds(text, start);
    lemma_boundary_in_bounds(text, end);
    lemma_ranges_join(text, 0, start, end);
    lemma_ranges_join(text, 0, end, byte_len(text) as int);
    let before = byte_range(text, 0, start);
    let part = byte_range(text, start, end);
    let after = byte_range(text, end, byte_len(text) as int);
    assert(text == before + part + after);
    assert(text.subrange(before.len() as int, before.len() as int + part.len()) =~= part);
}

/// A boundary of a text is a boundary of each of its ranges that holds it.
proof fn lemma_boundary_in_range(bytes: Seq<u8>, start: int, at: int, end: int)
    requires
        valid_utf8(bytes),
        start <= at <= end,
        is_char_boundary(bytes, start),
        is_char_boundary(bytes, at),
        is_char_boundary(bytes, end),
    ensures
        0 <= start <= end <= bytes.len(),
        valid_utf8(bytes.subrange(start, end)),
        is_char_boundary(bytes.subrange(start, end), at - start),
{
    broadcast use group_utf8_lib;
    let head = bytes.subrange(0, end);
    valid_utf8_split(bytes, end);
    if start < end {
        is_char_boundary_iff_not_is_continuation_byte(bytes, start);
        is_char_boundary_iff_not_is_continuation_byte(head, start);
    } else {
        is_char_boundary_start_end_of_seq(head);
    }
    valid_utf8_split(head, start);
    let part = head.subrange(start, head.len() as int);
    assert(part =~= bytes.subrange(start, end));
    if at < end {
        is_char_boundary_iff_not_is_continuation_byte(bytes, at);
        is_char_boundary_iff_not_is_continuation_byte(part, at - start);
    } else {
        is_char_boundary_start_end_of_seq(part);
    }
}

/// The part of `text` between two byte offsets that stand between characters.
pub fn slice<'a>(text: &'a str, start: usize, end: usize) -> (r: &'a str)
    requires
        start <= end,
        is_boundary(text@, start as int),
        is_boundary(text@, end as int),
    ensures
        r@ == byte_range(text@, start as int, end as int),
{
    proof {
        encode_utf8_valid_utf8(text@);
        lemma_whole_range(text@);
        lemma_boundary_in_range(encode_utf8(text@), 0, start as int, end as int);
    }
    let (head, _) = text.split_at(end);
    let (_, r) = head.split_at(start);
    proof {
        let bytes = encode_utf8(text@);
        assert(r.spec_bytes() =~= bytes.subrange(start as int, end as int));
        encode_utf8_decode_utf8(r@);
    }
    r
}

/// Whether two strings hold the same characters.
pub fn same(a: &str, b: &str) -> (r: bool)
    ensures
        r == (a@ == b@),
{
    let x = a.as_bytes();
    let y = b.as_bytes();
    proof {
        encode_utf8_decode_utf8(a@);
        encode_utf8_decode_utf8(b@);
    }
    if x.len() != y.len() {
        return false;
    }
    let mut i: usize = 0;
    while i < x.len()
        invariant
            i <= x.len(),
            x.len() == y.len(),
            x@ == encode_utf8(a@),
            y@ == encode_utf8(b@),
            forall|k: int| 0 <= k < i ==> x@[k] == y@[k],
        decreases x.len() - i,
    {
        if x[i] != y[i] {
            return false;
        }
        i += 1;
    }
    assert(x@ =~= y@);
    true
}

/// The characters of `text`.
pub fn chars_of(text: &str) -> (v: Vec<char>)
    ensures
        v@ == text@,
{
    let mut v: Vec<char> = Vec::new();
    for c in it: text.chars()
        invariant
            v@ == it.seq().take(it.index()),
    {
        v.push(c);
    }
    v
}

/// White space as Unicode's property White_Space has it.
pub open spec fn is_space(c: char) -> bool {
    ||| '\t' <= c <= '\r'
    ||| c == ' '
    ||| c == '\u{85}'
    ||| c == '\u{a0}'
    ||| c == '\u{1680}'
    ||| '\u{2000}' <= c <= '\u{200a}'
    ||| c == '\u{2028}'
    ||| c == '\u{2029}'
    ||| c == '\u{202f}'
    ||| c == '\u{205f}'
    ||| c == '\u{3000}'
}

/// Whether `c` is white space.
pub fn is_space_char(c: char) -> (r: bool)
    ensures
        r == is_space(c),
{
    ('\t' <= c && c <= '\r') || c == ' ' || c == '\u{85}' || c == '\u{a0}' || c == '\u{1680}' || (
    '\u{2000}' <= c && c <= '\u{200a}') || c == '\u{2028}' || c == '\u{2029}' || c == '\u{202f}'
        || c == '\u{205f}' || c == '\u{3000}'
}

/// How many white space characters `s` starts with.
pub open spec fn leading_spaces(s: Seq<char>) -> nat
    decreases s.len(),
{
    if s.len() > 0 && is_space(s[0]) {
        1 + leading_spaces(s.drop_first())
    } else {
        0
    }
}

/// How many white space characters `s` ends with.
pub open spec fn trailing_spaces(s: Seq<char>) -> nat
    decreases s.len(),
{
    if s.len() > 0 && is_space(s.last()) {
        1 + trailing_spaces(s.drop_last())
    } else {
        0
    }
}

/// `s` without the white space at its two ends.
pub open spec fn trimmed(s: Seq<char>) -> Seq<char> {
    if leading_spaces(s) == s.len() {
        Seq::empty()
    } else {
        s.subrange(leading_spaces(s) as int, s.len() - trailing_spaces(s))
    }
}

/// The leading white space ends at the first character that is none.
pub proof fn lemma_leading_spaces(s: Seq<char>)
    ensures
        leading_spaces(s) <= s.len(),
        forall|i: int| 0 <= i < leading_spaces(s) ==> is_space(#[trigger] s[i]),
        leading_spaces(s) < s.len() ==> !is_space(s[leading_spaces(s) as int]),
    decreases s.len(),
{
    if s.len() > 0 && is_space(s[0]) {
        let rest = s.drop_first();
        lemma_leading_spaces(rest);
        assert forall|i: int| 0 <= i < leading_spaces(s) implies is_space(#[trigger] s[i]) by {
            if i > 0 {
                assert(s[i] == rest[i - 1]);
            }
        }
        if leading_spaces(s) < s.len() {
            assert(s[leading_spaces(s) as int] == rest[leading_spaces(rest) as int]);
        }
    }
}

/// The trailing white space starts behind the last character that is none.
pub proof fn lemma_trailing_spaces(s: Seq<char>)
    ensures
        trailing_spaces(s) <= s.len(),
        forall|i: int| s.len() - trailing_spaces(s) <= i < s.len() ==> is_space(#[trigger] s[i]),
        trailing_spaces(s) < s.len() ==> !is_space(s[s.len() - trailing_spaces(s) - 1]),
    decreases s.len(),
{
    if s.len() > 0 && is_space(s.last()) {
        let rest = s.drop_last();
        lemma_trailing_spaces(rest);
        assert forall|i: int| s.len() - trailing_spaces(s) <= i < s.len() implies is_space(
            #[trigger] s[i],
        ) by {
            if i < s.len() - 1 {
                assert(s[i] == rest[i]);
            }
        }
        if trailing_spaces(s) < s.len() {
            assert(s[s.len() - trailing_spaces(s) - 1] == rest[rest.len() - trailing_spaces(rest)
                - 1]);
        }
    }
}

/// What is left of a text without the white space at its ends neither starts
/// nor ends with white space.
pub proof fn lemma_trimmed(s: Seq<char>)
    ensures
        trimmed(s).len() > 0 ==> !is_space(trimmed(s)[0]) && !is_space(trimmed(s).last()),
        trimmed(s).len() == 0 <==> leading_spaces(s) == s.len(),
{
    lemma_leading_spaces(s);
    lemma_trailing_spaces(s);
    if leading_spaces(s) < s.len() {
        assert(!is_space(s[leading_spaces(s) as int]));
        assert(leading_spaces(s) < s.len() - trailing_spaces(s));
    }
}

/// Where anything is left of a text without the white space at its ends, the
/// text is white space, then what is left, then white space.
pub proof fn lemma_trimmed_shape(s: Seq<char>)
    ensures
        trimmed(s).len() > 0 ==> leading_spaces(s) + trimmed(s).len() + trailing_spaces(s)
            == s.len(),
        forall|i: int| 0 <= i < trimmed(s).len() ==> trimmed(s)[i] == s[leading_spaces(s) + i],
        forall|i: int| 0 <= i < leading_spaces(s) ==> is_space(#[trigger] s[i]),
        forall|i: int| s.len() - trailing_spaces(s) <= i < s.len() ==> is_space(#[trigger] s[i]),
{
    lemma_trimmed(s);
    lemma_leading_spaces(s);
    lemma_trailing_spaces(s);
    if leading_spaces(s) < s.len() {
        assert(!is_space(s[leading_spaces(s) as int]));
        assert(leading_spaces(s) < s.len() - trailing_spaces(s));
    }
}

/// Counts the white space characters that `v` starts with.
pub fn count_leading_spaces(v: &Vec<char>) -> (n: usize)
    ensures
        n == leading_spaces(v@),
        n <= v.len(),
{
    let mut i: usize = 0;
    assert(v@.skip(0) =~= v@);
    while i < v.len() && is_space_char(v[i])
        invariant
            i <= v.len(),
            leading_spaces(v@) == i + leading_spaces(v@.skip(i as int)),
        decreases v.len() - i,
    {
        assert(v@.skip(i as int).drop_first() =~= v@.skip(i + 1));
        i += 1;
    }
    i
}

/// Counts the white space characters that `v` ends with.
pub fn count_trailing_spaces(v: &Vec<char>) -> (n: usize)
    ensures
        n == trailing_spaces(v@),
        n <= v.len(),
{
    let mut j: usize = v.len();
    assert(v@.take(j as int) =~= v@);
    while j > 0 && is_space_char(v[j - 1])
        invariant
            j <= v.len(),
            trailing_spaces(v@) == (v.len() - j) + trailing_spaces(v@.take(j as int)),
        decreases j,
    {
        assert(v@.take(j as int).drop_last() =~= v@.take(j - 1));
        j -= 1;
    }
    v.len() - j
}

/// `text` without the white space at its two ends.
pub fn trim<'a>(text: &'a str) -> (r: &'a str)
    ensures
        r@ == trimmed(text@),
{
    let v = chars_of(text);
    let start: usize = count_leading_spaces(&v);
    if start == v.len() {
        text.substring_char(0, 0)
    } else {
        let back: usize = count_trailing_spaces(&v);
        proof {
            lemma_leading_spaces(v@);
            lemma_trailing_spaces(v@);
        }
        text.substring_char(start, v.len() - back)
    }
}

/// Whether `s` holds no white space.
pub open spec fn no_space(s: Seq<char>) -> bool {
    forall|i: int| 0 <= i < s.len() ==> !is_space(#[trigger] s[i])
}

/// Whether `s` is white space alone.
pub open spec fn all_space(s: Seq<char>) -> bool {
    forall|i: int| 0 <= i < s.len() ==> is_space(#[trigger] s[i])
}

/// Whether `text` holds no white space.
pub fn has_no_space(text: &str) -> (r: bool)
    ensures
        r == no_space(text@),
{
    let v = chars_of(text);
    let mut i: usize = 0;
    while i < v.len()
        invariant
            i <= v.len(),
            v@ == text@,
            forall|k: int| 0 <= k < i ==> !is_space(#[trigger] v@[k]),
        decreases v.len() - i,
    {
        if is_space_char(v[i]) {
            return false;
        }
        i += 1;
    }
    true
}

/// Whether `text` is white space alone.
pub fn is_blank(text: &str) -> (r: bool)
    ensures
        r == all_space(text@),
{
    let v = chars_of(text);
    proof {
        lemma_leading_spaces(v@);
    }
    count_leading_spaces(&v) == v.len()
}

/// A text that ends with a character that is no white space, with white space
/// behind it, ends with just as much white space.
pub proof fn lemma_trailing_spaces_behind(head: Seq<char>, spaces: Seq<char>)
    requires
        head.len() > 0,
        !is_space(head.last()),
        all_space(spaces),
    ensures
        trailing_spaces(head + spaces) == spaces.len(),
{
    let s = head + spaces;
    lemma_trailing_spaces(s);
    assert(s[head.len() - 1] == head.last());
    if trailing_spaces(s) < spaces.len() {
        assert(s[s.len() - trailing_spaces(s) - 1] == spaces[spaces.len() - trailing_spaces(s)
            - 1]);
    }
}

/// Whether `s` is empty or ends with white space.
pub open spec fn open_end(s: Seq<char>) -> bool {
    s.len() == 0 || is_space(s.last())
}

/// Whether `text` is empty or ends with white space.
pub fn has_open_end(text: &str) -> (r: bool)
    ensures
        r == open_end(text@),
{
    let v = chars_of(text);
    v.len() == 0 || is_space_char(v[v.len() - 1])
}

/// In a line that is white space, a word and white space, a stretch that
/// holds no white space, has nothing but white space behind it and white
/// space or nothing before it is the word.
pub proof fn lemma_only_word(
    line: Seq<char>,
    before: Seq<char>,
    word: Seq<char>,
    after: Seq<char>,
    start: int,
    end: int,
)
    requires
        line == before + word + after,
        all_space(before),
        all_space(after),
        no_space(word),
        0 <= start < end <= line.len(),
        forall|i: int| start <= i < end ==> !is_space(#[trigger] line[i]),
        forall|i: int| end <= i < line.len() ==> is_space(#[trigger] line[i]),
        start == 0 || is_space(line[start - 1]),
    ensures
        line.subrange(start, end) == word,
{
    let first = before.len() as int;
    let last = (before.len() + word.len()) as int;
    assert forall|i: int| 0 <= i < line.len() implies is_space(#[trigger] line[i]) == !(first <= i
        < last) by {
        if i < first {
            assert(line[i] == before[i]);
        } else if i < last {
            assert(line[i] == word[i - first]);
        } else {
            assert(line[i] == after[i - last]);
        }
    }
    assert(!is_space(line[end - 1]));
    assert(!is_space(line[start]));
    if end < last {
        assert(is_space(line[end]));
    }
    if start > first {
        assert(!is_space(line[start - 1]));
    }
    assert(line.subrange(start, end) =~= word);
}

/// Whether `c` occurs in `text`.
pub fn contains_char(text: &str, c: char) -> (r: bool)
    ensures
        r == text@.contains(c),
{
    let v = chars_of(text);
    let mut i: usize = 0;
    while i < v.len()
        invariant
            i <= v.len(),
            v@ == text@,
            forall|k: int| 0 <= k < i ==> v@[k] != c,
        decreases v.len() - i,
    {
        if v[i] == c {
            return true;
        }
        i += 1;
    }
    false
}

/// Whether `s` starts with the character `c`.
pub open spec fn starts_with_char(s: Seq<char>, c: char) -> bool {
    s.len() > 0 && s[0] == c
}

/// Whether `s` ends with the character `c`.
pub open spec fn ends_with_char(s: Seq<char>, c: char) -> bool {
    s.len() > 0 && s.last() == c
}

/// Whether `text` starts with `c`.
pub fn starts_with(text: &str, c: char) -> (r: bool)
    ensures
        r == starts_with_char(text@, c),
{
    let v = chars_of(text);
    v.len() > 0 && v[0] == c
}

/// Whether `text` ends with `c`.
pub fn ends_with(text: &str, c: char) -> (r: bool)
    ensures
        r == ends_with_char(text@, c),
{
    let v = chars_of(text);
    v.len() > 0 && v[v.len() - 1] == c
}

/// Whether `pattern` stands in `s` at index `at`.
pub open spec fn occurs_at(s: Seq<char>, pattern: Seq<char>, at: int) -> bool {
    0 <= at && at + pattern.len() <= s.len() && s.subrange(at, at + pattern.len()) == pattern
}

/// `s` with every occurrence of `pattern` replaced by `with`, the occurrences
/// taken from the left and none overlapping another. An empty pattern occurs
/// nowhere.
pub open spec fn replaced(s: Seq<char>, pattern: Seq<char>, with: Seq<char>) -> Seq<char>
    decreases s.len(),
{
    if pattern.len() == 0 || s.len() < pattern.len() {
        s
    } else if occurs_at(s, pattern, 0) {
        with + replaced(s.skip(pattern.len() as int), pattern, with)
    } else {
        s.take(1) + replaced(s.skip(1), pattern, with)
    }
}

/// Whether `pattern` stands in `v` at index `at`.
fn occurs(v: &Vec<char>, pattern: &Vec<char>, at: usize) -> (r: bool)
    requires
        at + pattern.len() <= v.len(),
    ensures
        r == occurs_at(v@, pattern@, at as int),
{
    let mut k: usize = 0;
    while k < pattern.len()
        invariant
            k <= pattern.len(),
            at + pattern.len() <= v.len(),
            forall|j: int| 0 <= j < k ==> v@[at + j] == pattern@[j],
        decreases pattern.len() - k,
    {
        if v[at + k] != pattern[k] {
            assert(v@.subrange(at as int, at + pattern.len())[k as int] != pattern@[k as int]);
            return false;
        }
        k += 1;
    }
    assert(v@.subrange(at as int, at + pattern.len()) =~= pattern@);
    true
}

/// Replaces every occurrence of `pattern` in `text` by `with`.
pub fn replace_all(text: &str, pattern: &str, with: &str) -> (out: String)
    ensures
        out@ == replaced(text@, pattern@, with@),
{
    let v = chars_of(text);
    let p = chars_of(pattern);
    if p.len() == 0 {
        return String::from_str(text);
    }
    let mut out = String::new();
    let mut kept: usize = 0;
    let mut i: usize = 0;
    assert(v@.skip(0) =~= v@);
    assert(v@.subrange(0, 0) =~= Seq::<char>::empty());
    while i < v.len() && v.len() - i >= p.len()
        invariant
            kept <= i <= v.len(),
            v@ == text@,
            p@ == pattern@,
            p.len() > 0,
            out@ + v@.subrange(kept as int, i as int) + replaced(v@.skip(i as int), p@, with@)
                == replaced(v@, p@, with@),
        decreases v.len() - i,
    {
        let ghost rest = v@.skip(i as int);
        assert(rest.subrange(0, p.len() as int) =~= v@.subrange(i as int, i + p.len()));
        if occurs(&v, &p, i) {
            out.append(text.substring_char(kept, i));
            out.append(with);
            assert(rest.skip(p.len() as int) =~= v@.skip(i + p.len()));
            i += p.len();
            kept = i;
            assert(v@.subrange(kept as int, i as int) =~= Seq::<char>::empty());
        } else {
            assert(rest.skip(1) =~= v@.skip(i + 1));
            assert(v@.subrange(kept as int, i as int) + rest.take(1) =~= v@.subrange(
                kept as int,
                i + 1,
            ));
            i += 1;
        }
    }
    assert(v@.subrange(kept as int, i as int) + v@.skip(i as int) =~= v@.skip(kept as int));
    out.append(text.substring_char(kept, v.len()));
    out
}

/// The items in a row, with `separator` between each two.
pub open spec fn joined(items: Seq<Seq<char>>, separator: Seq<char>) -> Seq<char>
    decreases items.len(),
{
    if items.len() == 0 {
        Seq::empty()
    } else if items.len() == 1 {
        items[0]
    } else {
        joined(items.drop_last(), separator) + separator + items.last()
    }
}

/// Puts the items in a row, with `separator` between each two.
pub fn join(items: &Vec<String>, separator: &str) -> (out: String)
    ensures
        out@ == joined(texts_of(items@), separator@),
{
    let mut out = String::new();
    let mut i: usize = 0;
    let ghost texts = texts_of(items@);
    assert(texts.take(0) =~= Seq::<Seq<char>>::empty());
    while i < items.len()
        invariant
            i <= items.len(),
            texts == texts_of(items@),
            out@ == joined(texts.take(i as int), separator@),
        decreases items.len() - i,
    {
        if i > 0 {
            out.append(separator);
        }
        out.append(items[i].as_str());
        proof {
            let next = texts.take(i + 1);
            assert(next.drop_last() =~= texts.take(i as int));
            assert(next.last() == items@[i as int]@);
        }
        i += 1;
    }
    assert(texts.take(i as int) =~= texts);
    out
}

/// Two texts that do not hold a character do not hold it in a row either.
pub proof fn lemma_joined_without(first: Seq<char>, second: Seq<char>, c: char)
    requires
        !first.contains(c),
        !second.contains(c),
    ensures
        !(first + second).contains(c),
{
    let both = first + second;
    if both.contains(c) {
        let i = choose|i: int| 0 <= i < both.len() && both[i] == c;
        if i < first.len() {
            assert(first[i] == c);
        } else {
            assert(second[i - first.len()] == c);
        }
    }
}

/// What follows the last place where `pattern` could stand is not touched:
/// where `pattern` can neither start in `tail` nor reach into it, replacing in
/// `head + tail` is replacing in `head`.
pub proof fn lemma_replaced_before_tail(
    head: Seq<char>,
    tail: Seq<char>,
    pattern: Seq<char>,
    with: Seq<char>,
)
    requires
        pattern.len() > 0,
        tail.len() > 0 ==> !pattern.contains(tail[0]),
        forall|k: int| 0 <= k < tail.len() ==> tail[k] != pattern[0],
    ensures
        replaced(head + tail, pattern, with) == replaced(head, pattern, with) + tail,
    decreases head.len() + tail.len(),
{
    let s = head + tail;
    let m = pattern.len() as int;
    if s.len() < m {
        assert(head.len() < m);
    } else if occurs_at(s, pattern, 0) {
        assert(s.subrange(0, m)[0] == pattern[0]);
        if head.len() < m {
            if head.len() == 0 {
                assert(s[0] == tail[0]);
            } else {
                assert(s.subrange(0, m)[head.len() as int] == tail[0]);
                assert(pattern.contains(pattern[head.len() as int]));
            }
            assert(false);
        }
        assert(head.subrange(0, m) =~= s.subrange(0, m));
        assert(s.skip(m) =~= head.skip(m) + tail);
        lemma_replaced_before_tail(head.skip(m), tail, pattern, with);
        assert(with + (replaced(head.skip(m), pattern, with) + tail) =~= (with + replaced(
            head.skip(m),
            pattern,
            with,
        )) + tail);
    } else if head.len() == 0 {
        assert(s =~= tail);
        lemma_replaced_nowhere(tail, pattern, with);
        assert(Seq::<char>::empty() + tail =~= tail);
    } else {
        assert(s.skip(1) =~= head.skip(1) + tail);
        lemma_replaced_before_tail(head.skip(1), tail, pattern, with);
        assert(s.take(1) =~= head.take(1));
        if head.len() < m {
            assert(head.skip(1).len() < m);
            assert(head.take(1) + head.skip(1) =~= head);
            assert(head.take(1) + (head.skip(1) + tail) =~= head + tail);
        } else {
            assert(head.subrange(0, m) =~= s.subrange(0, m));
            assert(head.take(1) + (replaced(head.skip(1), pattern, with) + tail) =~= (head.take(1)
                + replaced(head.skip(1), pattern, with)) + tail);
        }
    }
}

/// A text in which the first character of `pattern` does not occur holds no
/// occurrence of it.
pub proof fn lemma_replaced_nowhere(s: Seq<char>, pattern: Seq<char>, with: Seq<char>)
    requires
        pattern.len() > 0,
        forall|k: int| 0 <= k < s.len() ==> s[k] != pattern[0],
    ensures
        replaced(s, pattern, with) == s,
    decreases s.len(),
{
    let m = pattern.len() as int;
    if s.len() >= m {
        if occurs_at(s, pattern, 0) {
            assert(s.subrange(0, m)[0] == pattern[0]);
        }
        lemma_replaced_nowhere(s.skip(1), pattern, with);
        assert(s.take(1) + s.skip(1) =~= s);
    }
}

} // verus!
