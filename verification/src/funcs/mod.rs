use crate::funcs::param_list::{params_text, transpile_params};
use crate::matcher::{
    find_all, found, group, group_span, group_text, groups_of, lemma_found_in, lemma_splice_same,
    match_in, matches_in, span_of, span_text, splice, spliced, whole, Captures, Groups,
};
use crate::text::{
    all_space, byte_len, byte_range, has_no_space, has_open_end, is_space, leading_spaces,
    lemma_boundary_in_bounds, lemma_only_word, lemma_range_within, lemma_ranges_join,
    lemma_trimmed_shape, lemma_whole_range, no_space, open_end, same, slice, starts_with,
    starts_with_char, text_of, texts_of, trim, trimmed,
};
use crate::utils::{is_keyword, is_keyword_text, lemma_keyword_is_word};
use vstd::prelude::*;
use vstd::string::*;

pub mod param_item;
pub mod param_list;
pub mod pieces;

verus! {

/// The head of a function declaration: at the start of a line white space, a
/// return type unless it is a constructor, the name, the parameter list in
/// parentheses, which may hold parentheses of its own one level deep and run
/// over several lines, and then what tells a declaration from a call: a colon,
/// an arrow or an opening brace. Groups 1 to 5 are the white space, the return
/// type, the name, the parameter list and the marker with the white space
/// before it.
pub const HEADER_PATTERN: &'static str = r"(?x)(?m)
    ^(?P<leading_space>\s*)
    (?:
        (?P<rtype>\w+)  # the return type
        \s+
    )?                  # a constructor has none
    (?P<fname>\w+)      # the name
    \s*
    \(\s*
        (?P<params>
            (?:
                [^()]*
                (?:\([^()]*\)[^()]*)*  # parentheses, one level deep
                \n
            )*                         # whole lines
            (?:
                [^()]*
                (?:\([^()]*\)[^()]*)*
            )?                         # the last line
        )
    \s*\)
    (?P<trailing>\s*(?::|=>|\{))       # what a call does not have
";

/// The qualifier of a declaration that is visible from outside.
pub const PUBLIC: &'static str = "public ";

/// The parts of the head of a function declaration.
pub ghost struct HeaderParts {
    /// The white space before the declaration.
    pub leading_space: Seq<char>,
    /// The return type; a constructor has none.
    pub return_type: Option<Seq<char>>,
    /// The name of the function.
    pub name: Seq<char>,
    /// What stands between the parentheses.
    pub raw_params: Seq<char>,
    /// The marker behind the parameter list, with the white space before it.
    pub trailing: Seq<char>,
}

/// Whether `trailing` is white space and then a colon, an arrow or an opening
/// brace.
pub open spec fn has_marker(trailing: Seq<char>) -> bool {
    trimmed(trailing) == ":"@ || trimmed(trailing) == "=>"@ || trimmed(trailing) == "{"@
}

impl HeaderParts {
    /// Whether the parts make a declaration: the name is no reserved word, and
    /// a marker follows the parameter list.
    pub open spec fn is_declaration(self) -> bool {
        !is_keyword_text(self.name) && has_marker(self.trailing)
    }

    /// The parts, where they make a declaration.
    pub open spec fn declaration(self) -> Option<HeaderParts> {
        if self.is_declaration() {
            Some(self)
        } else {
            None
        }
    }
}

/// The head of one function declaration found in a text. Its name is never a
/// reserved word, and a marker always follows its parameter list.
pub struct HeaderMatch<'a> {
    leading_space: &'a str,
    return_type: Option<&'a str>,
    name: &'a str,
    raw_params: &'a str,
    trailing: &'a str,
}

impl<'a> View for HeaderMatch<'a> {
    type V = HeaderParts;

    closed spec fn view(&self) -> HeaderParts {
        HeaderParts {
            leading_space: self.leading_space@,
            return_type: text_of(self.return_type),
            name: self.name@,
            raw_params: self.raw_params@,
            trailing: self.trailing@,
        }
    }
}

/// The view of a declaration that may be missing.
pub open spec fn parts_of(header: Option<HeaderMatch>) -> Option<HeaderParts> {
    match header {
        Some(header) => Some(header@),
        None => None,
    }
}

/// Whether `trailing` carries one of the three markers.
fn marked(trailing: &str) -> (r: bool)
    ensures
        r == has_marker(trailing@),
{
    let marker = trim(trailing);
    same(marker, ":") || same(marker, "=>") || same(marker, "{")
}

impl<'a> HeaderMatch<'a> {
    #[verifier::type_invariant]
    spec fn well_formed(self) -> bool {
        self@.is_declaration()
    }

    /// Makes a declaration of its parts; there is none where the name is a
    /// reserved word, and none where `trailing` carries no marker.
    pub fn new(
        leading_space: &'a str,
        return_type: Option<&'a str>,
        name: &'a str,
        raw_params: &'a str,
        trailing: &'a str,
    ) -> (header: Option<HeaderMatch<'a>>)
        ensures
            parts_of(header) == (HeaderParts {
                leading_space: leading_space@,
                return_type: text_of(return_type),
                name: name@,
                raw_params: raw_params@,
                trailing: trailing@,
            }).declaration(),
    {
        if is_keyword(name) || !marked(trailing) {
            None
        } else {
            Some(HeaderMatch { leading_space, return_type, name, raw_params, trailing })
        }
    }

    /// The white space before the declaration.
    pub fn leading_space(&self) -> (r: &'a str)
        ensures
            r@ == self@.leading_space,
    {
        self.leading_space
    }

    /// The return type; a constructor has none.
    pub fn return_type(&self) -> (r: Option<&'a str>)
        ensures
            text_of(r) == self@.return_type,
    {
        self.return_type
    }

    /// The name of the function.
    pub fn name(&self) -> (r: &'a str)
        ensures
            r@ == self@.name,
            !is_keyword_text(r@),
    {
        proof {
            use_type_invariant(self);
        }
        self.name
    }

    /// What stands between the parentheses.
    pub fn raw_params(&self) -> (r: &'a str)
        ensures
            r@ == self@.raw_params,
    {
        self.raw_params
    }

    /// The marker behind the parameter list, with the white space before it.
    pub fn trailing(&self) -> (r: &'a str)
        ensures
            r@ == self@.trailing,
            has_marker(r@),
    {
        proof {
            use_type_invariant(self);
        }
        self.trailing
    }
}

/// Whether the name and the parameter list of a match stand as those of a
/// declaration do: the name is a word of its own, with no white space in it
/// and white space or nothing before it; between the name and the list lies
/// an opening parenthesis, and between the list and the marker a closing one,
/// each with nothing but white space around it.
pub open spec fn well_placed(text: Seq<char>, groups: Captures) -> bool {
    match (group_span(groups, 3), group_span(groups, 4), group_span(groups, 5)) {
        (Some(name), Some(params), Some(trailing)) => {
            &&& span_text(text, name).len() > 0
            &&& no_space(span_text(text, name))
            &&& open_end(byte_range(text, 0, name.0 as int))
            &&& name.1 <= params.0
            &&& trimmed(byte_range(text, name.1 as int, params.0 as int)) == "("@
            &&& params.1 <= trailing.0
            &&& trimmed(byte_range(text, params.1 as int, trailing.0 as int)) == ")"@
        },
        _ => false,
    }
}

/// The declaration that a match stands for: none where the match lacks the
/// white space, the name, the parameter list or the marker, none where the
/// name and the list do not stand as those of a declaration do, and none where
/// the parts make no declaration.
pub open spec fn header_given(text: Seq<char>, groups: Captures) -> Option<HeaderParts> {
    match (
        group_text(text, groups, 1),
        group_text(text, groups, 3),
        group_text(text, groups, 4),
        group_text(text, groups, 5),
    ) {
        (Some(leading_space), Some(name), Some(raw_params), Some(trailing)) => {
            if well_placed(text, groups) {
                (HeaderParts {
                    leading_space,
                    return_type: group_text(text, groups, 2),
                    name,
                    raw_params,
                    trailing,
                }).declaration()
            } else {
                None
            }
        },
        _ => None,
    }
}

/// Whether the name and the parameter list of a match stand as those of a
/// declaration do.
fn placed_well(text: &str, groups: &Groups) -> (r: bool)
    requires
        match_in(text@, groups@),
    ensures
        r == well_placed(text@, groups@),
{
    match (span_of(groups, 3), span_of(groups, 4), span_of(groups, 5)) {
        (Some(name), Some(params), Some(trailing)) => {
            if name.1 > params.0 || params.1 > trailing.0 {
                return false;
            }
            proof {
                lemma_whole_range(text@);
            }
            let word = slice(text, name.0, name.1);
            !word.is_empty() && has_no_space(word) && has_open_end(slice(text, 0, name.0)) && same(
                trim(slice(text, name.1, params.0)),
                "(",
            ) && same(trim(slice(text, params.1, trailing.0)), ")")
        },
        _ => false,
    }
}

/// Reads a match as a function declaration, and turns it down where it is
/// none.
pub fn accept_header<'a>(text: &'a str, groups: &Groups) -> (header: Option<HeaderMatch<'a>>)
    requires
        match_in(text@, groups@),
    ensures
        parts_of(header) == header_given(text@, groups@),
{
    let leading_space = group(text, groups, 1);
    let name = group(text, groups, 3);
    let raw_params = group(text, groups, 4);
    let trailing = group(text, groups, 5);
    if !placed_well(text, groups) {
        return None;
    }
    match (leading_space, name, raw_params, trailing) {
        (Some(leading_space), Some(name), Some(raw_params), Some(trailing)) => HeaderMatch::new(
            leading_space,
            group(text, groups, 2),
            name,
            raw_params,
            trailing,
        ),
        _ => None,
    }
}

/// The qualifier that a name earns: none where it starts with an underscore.
pub open spec fn visibility(name: Seq<char>) -> Seq<char> {
    if starts_with_char(name, '_') {
        Seq::empty()
    } else {
        PUBLIC@
    }
}

/// The return type and a space, or nothing for a constructor.
pub open spec fn return_prefix(return_type: Option<Seq<char>>) -> Seq<char> {
    match return_type {
        Some(return_type) => return_type + " "@,
        None => Seq::empty(),
    }
}

/// The declaration written with the parameter list `params`.
pub open spec fn header_text(header: HeaderParts, params: Seq<char>) -> Seq<char> {
    header.leading_space + visibility(header.name) + return_prefix(header.return_type)
        + header.name + "("@ + params + ")"@ + header.trailing
}

/// The declaration, rewritten.
pub open spec fn rewritten(header: HeaderParts) -> Seq<char> {
    header_text(header, params_text(header.raw_params))
}

/// Writes the declaration with the parameter list `params`.
pub fn assemble_header(header: &HeaderMatch, params: &str) -> (out: String)
    ensures
        out@ == header_text(header@, params@),
{
    let mut out = String::from_str(header.leading_space);
    if !starts_with(header.name, '_') {
        out.append(PUBLIC);
    }
    match header.return_type {
        Some(return_type) => {
            out.append(return_type);
            out.append(" ");
        },
        None => {},
    }
    out.append(header.name);
    out.append("(");
    out.append(params);
    out.append(")");
    out.append(header.trailing);
    out
}

/// Rewrites the declaration: its qualifier follows from its name, and its
/// parameter list is rewritten.
pub fn rewrite_header(header: &HeaderMatch) -> (out: String)
    ensures
        out@ == rewritten(header@),
{
    let params = transpile_params(header.raw_params);
    assemble_header(header, params.as_str())
}

/// What stands in place of a match: the rewritten declaration, or the matched
/// text itself where the match is no declaration.
pub open spec fn replacement(text: Seq<char>, groups: Captures) -> Seq<char> {
    match header_given(text, groups) {
        Some(header) => rewritten(header),
        None => span_text(text, whole(groups)),
    }
}

/// What stands in place of each of the matches.
pub open spec fn replacements(text: Seq<char>, matches: Seq<Captures>) -> Seq<Seq<char>> {
    Seq::new(matches.len(), |i: int| replacement(text, matches[i]))
}

/// `text` with each of the given matches that is a declaration rewritten.
pub open spec fn rewritten_given(text: Seq<char>, matches: Seq<Captures>) -> Seq<char> {
    spliced(text, matches, replacements(text, matches))
}

/// `text` with the head of each function declaration rewritten.
pub open spec fn headers_rewritten(text: Seq<char>) -> Seq<char> {
    rewritten_given(text, found(HEADER_PATTERN@, text))
}

/// Rewrites those of the given matches in `text` that are declarations.
pub fn rewrite_from(text: &str, matches: &Vec<Groups>) -> (out: String)
    requires
        matches_in(text@, groups_of(matches@)),
    ensures
        out@ == rewritten_given(text@, groups_of(matches@)),
{
    let mut texts: Vec<String> = Vec::new();
    let mut i: usize = 0;
    while i < matches.len()
        invariant
            i <= matches.len(),
            matches_in(text@, groups_of(matches@)),
            texts.len() == i,
            forall|k: int|
                0 <= k < i ==> (#[trigger] texts@[k])@ == replacement(
                    text@,
                    groups_of(matches@)[k],
                ),
        decreases matches.len() - i,
    {
        assert(match_in(text@, groups_of(matches@)[i as int]));
        let replaced = match accept_header(text, &matches[i]) {
            Some(header) => rewrite_header(&header),
            None => {
                let span = matches[i][0].unwrap();
                String::from_str(slice(text, span.0, span.1))
            },
        };
        texts.push(replaced);
        i += 1;
    }
    assert(texts_of(texts@) =~= replacements(text@, groups_of(matches@)));
    splice(text, matches, &texts)
}

/// Rewrites the head of each function declaration in `input`: it becomes
/// public unless its name starts with an underscore, a function among its
/// parameters becomes a parameter of a delegate type, and each parameter
/// passed by name has a default value. All other text stays as it is, also
/// what looks like a declaration and has a reserved word for a name.
pub fn transpile_func_head(input: &str) -> (out: String)
    ensures
        out@ == headers_rewritten(input@),
{
    let matches = find_all(HEADER_PATTERN, input);
    rewrite_from(input, &matches)
}

/// A match whose name is a reserved word is no declaration: its text stays as
/// it is.
pub proof fn lemma_keyword_header_kept(text: Seq<char>, groups: Captures)
    requires
        group_text(text, groups, 3) matches Some(name) && is_keyword_text(name),
    ensures
        replacement(text, groups) == span_text(text, whole(groups)),
{
}

/// A match that no colon, arrow or opening brace follows is no declaration but
/// a call: its text stays as it is.
pub proof fn lemma_call_kept(text: Seq<char>, groups: Captures)
    requires
        group_text(text, groups, 5) matches Some(trailing) ==> !has_marker(trailing),
    ensures
        replacement(text, groups) == span_text(text, whole(groups)),
{
}

/// A text in which no match is a declaration stays as it is.
pub proof fn lemma_kept_where_no_declaration(text: Seq<char>, matches: Seq<Captures>)
    requires
        matches_in(text, matches),
        forall|i: int| 0 <= i < matches.len() ==> header_given(text, #[trigger] matches[i]) is None,
    ensures
        rewritten_given(text, matches) == text,
{
    lemma_splice_same(text, matches, replacements(text, matches));
}

/// Whether every place in `text` that has the shape of a declaration has a
/// reserved word for a name.
pub open spec fn only_keyword_headers(text: Seq<char>) -> bool {
    forall|i: int|
        0 <= i < found(HEADER_PATTERN@, text).len() ==> (group_text(
            text,
            #[trigger] found(HEADER_PATTERN@, text)[i],
            3,
        ) matches Some(name) && is_keyword_text(name))
}

/// Whether no place in `text` that has the shape of a declaration is followed
/// by a colon, an arrow or an opening brace.
pub open spec fn only_calls(text: Seq<char>) -> bool {
    forall|i: int|
        0 <= i < found(HEADER_PATTERN@, text).len() ==> (group_text(
            text,
            #[trigger] found(HEADER_PATTERN@, text)[i],
            5,
        ) matches Some(trailing) ==> !has_marker(trailing))
}

/// A text in which nothing has the shape of a declaration is rewritten to
/// itself.
pub proof fn lemma_kept_without_header(text: Seq<char>)
    ensures
        found(HEADER_PATTERN@, text).len() == 0 ==> headers_rewritten(text) == text,
{
    lemma_found_in(HEADER_PATTERN@, text);
    if found(HEADER_PATTERN@, text).len() == 0 {
        lemma_kept_where_no_declaration(text, found(HEADER_PATTERN@, text));
    }
}

/// A text in which all that has the shape of a declaration is named by a
/// reserved word is rewritten to itself.
pub proof fn lemma_keyword_headers_kept(text: Seq<char>)
    ensures
        only_keyword_headers(text) ==> headers_rewritten(text) == text,
{
    lemma_found_in(HEADER_PATTERN@, text);
    if only_keyword_headers(text) {
        lemma_kept_where_no_declaration(text, found(HEADER_PATTERN@, text));
    }
}

/// A text in which nothing that has the shape of a declaration is followed by
/// a colon, an arrow or an opening brace is rewritten to itself.
pub proof fn lemma_calls_kept(text: Seq<char>)
    ensures
        only_calls(text) ==> headers_rewritten(text) == text,
{
    lemma_found_in(HEADER_PATTERN@, text);
    if only_calls(text) {
        lemma_kept_where_no_declaration(text, found(HEADER_PATTERN@, text));
    }
}

/// A text without an opening parenthesis is rewritten to itself.
pub proof fn lemma_kept_without_parenthesis(text: Seq<char>)
    ensures
        !text.contains('(') ==> headers_rewritten(text) == text,
{
    lemma_found_in(HEADER_PATTERN@, text);
    let matches = found(HEADER_PATTERN@, text);
    if !text.contains('(') {
        assert forall|i: int| 0 <= i < matches.len() implies header_given(
            text,
            #[trigger] matches[i],
        ) is None by {
            let groups = matches[i];
            assert(match_in(text, groups));
            if well_placed(text, groups) {
                reveal_strlit("(");
                let name = group_span(groups, 3).unwrap();
                let params = group_span(groups, 4).unwrap();
                let between = byte_range(text, name.1 as int, params.0 as int);
                lemma_trimmed_shape(between);
                assert(trimmed(between).len() == 1 && trimmed(between)[0] == '(');
                assert(between[leading_spaces(between) as int] == '(');
                lemma_range_within(text, name.1 as int, params.0 as int, '(');
            }
        }
        lemma_kept_where_no_declaration(text, matches);
    }
}

/// Where a text starts with white space, a word and white space, and its
/// only opening parenthesis follows, the name of a match that stands as a
/// declaration does is that word.
proof fn lemma_name_before_parenthesis(
    text: Seq<char>,
    groups: Captures,
    indent: Seq<char>,
    word: Seq<char>,
    gap: Seq<char>,
)
    requires
        match_in(text, groups),
        well_placed(text, groups),
        all_space(indent),
        all_space(gap),
        no_space(word),
        (indent + word + gap).len() <= text.len(),
        text.subrange(0, (indent + word + gap).len() as int) == indent + word + gap,
        forall|j: int|
            0 <= j < text.len() && text[j] == '(' ==> j == (indent + word + gap).len(),
    ensures
        group_text(text, groups, 3) == Some(word),
{
    reveal_strlit("(");
    let line = indent + word + gap;
    let name = group_span(groups, 3).unwrap();
    let params = group_span(groups, 4).unwrap();
    let end = byte_len(text) as int;
    lemma_whole_range(text);
    lemma_boundary_in_bounds(text, params.0 as int);
    lemma_ranges_join(text, 0, name.0 as int, name.1 as int);
    lemma_ranges_join(text, 0, name.1 as int, params.0 as int);
    lemma_ranges_join(text, 0, params.0 as int, end);
    let head = byte_range(text, 0, name.0 as int);
    let found = byte_range(text, name.0 as int, name.1 as int);
    let between = byte_range(text, name.1 as int, params.0 as int);
    let tail = byte_range(text, params.0 as int, end);
    assert(text == head + found + between + tail);
    lemma_trimmed_shape(between);
    assert(trimmed(between).len() == 1 && trimmed(between)[0] == '(');
    let start = head.len() as int;
    let stop = (head.len() + found.len()) as int;
    assert(text[stop + leading_spaces(between)] == between[leading_spaces(between) as int]);
    assert(stop + leading_spaces(between) == line.len());
    assert forall|k: int| start <= k < stop implies !is_space(#[trigger] line[k]) by {
        assert(line[k] == text[k]);
        assert(text[k] == found[k - start]);
    }
    assert forall|k: int| stop <= k < line.len() implies is_space(#[trigger] line[k]) by {
        assert(line[k] == text[k]);
        assert(text[k] == between[k - stop]);
    }
    assert(start == 0 || is_space(line[start - 1])) by {
        if start > 0 {
            assert(line[start - 1] == text[start - 1]);
            assert(text[start - 1] == head.last());
        }
    }
    lemma_only_word(line, indent, word, gap, start, stop);
    assert(found =~= line.subrange(start, stop)) by {
        assert forall|k: int| 0 <= k < found.len() implies found[k] == line.subrange(
            start,
            stop,
        )[k] by {
            assert(line[start + k] == text[start + k]);
            assert(text[start + k] == found[k]);
        }
    }
}

/// In white space, a reserved word, white space, an opening parenthesis and a
/// rest without one, the parenthesis is the only one.
proof fn lemma_one_parenthesis(
    indent: Seq<char>,
    keyword: Seq<char>,
    gap: Seq<char>,
    rest: Seq<char>,
)
    requires
        is_keyword_text(keyword),
        all_space(indent),
        all_space(gap),
        !rest.contains('('),
    ensures
        (indent + keyword + gap + "("@ + rest).subrange(0, (indent + keyword + gap).len() as int)
            == indent + keyword + gap,
        (indent + keyword + gap).len() < (indent + keyword + gap + "("@ + rest).len(),
        forall|j: int|
            0 <= j < (indent + keyword + gap + "("@ + rest).len() && (indent + keyword + gap
                + "("@ + rest)[j] == '(' ==> j == (indent + keyword + gap).len(),
{
    reveal_strlit("(");
    lemma_keyword_is_word(keyword);
    let text = indent + keyword + gap + "("@ + rest;
    let line = indent + keyword + gap;
    let open = line.len() as int;
    assert(text.subrange(0, open) =~= line);
    assert forall|j: int| 0 <= j < text.len() && text[j] == '(' implies j == open by {
        if j < indent.len() {
            assert(text[j] == indent[j]);
        } else if j < indent.len() + keyword.len() {
            assert(text[j] == keyword[j - indent.len()]);
            assert(keyword.contains(text[j]));
        } else if j < open {
            assert(text[j] == gap[j - indent.len() - keyword.len()]);
        } else if j > open {
            assert(text[j] == rest[j - open - 1]);
            assert(rest.contains(text[j]));
        }
    }
}

/// What starts with a reserved word and an opening parenthesis, with nothing
/// but white space before and between them, and holds no other opening
/// parenthesis, is rewritten to itself: a reserved word names no function.
pub proof fn lemma_keyword_line_kept(
    indent: Seq<char>,
    keyword: Seq<char>,
    gap: Seq<char>,
    rest: Seq<char>,
)
    requires
        is_keyword_text(keyword),
        all_space(indent),
        all_space(gap),
        !rest.contains('('),
    ensures
        headers_rewritten(indent + keyword + gap + "("@ + rest) == indent + keyword + gap + "("@
            + rest,
{
    let text = indent + keyword + gap + "("@ + rest;
    lemma_keyword_is_word(keyword);
    lemma_one_parenthesis(indent, keyword, gap, rest);
    lemma_found_in(HEADER_PATTERN@, text);
    let matches = found(HEADER_PATTERN@, text);
    assert forall|i: int| 0 <= i < matches.len() implies header_given(
        text,
        #[trigger] matches[i],
    ) is None by {
        assert(match_in(text, matches[i]));
        if well_placed(text, matches[i]) {
            lemma_name_before_parenthesis(text, matches[i], indent, keyword, gap);
        }
    }
    lemma_kept_where_no_declaration(text, matches);
}

/// Whether a colon, an arrow or an opening brace stands in `s` at index `at`.
pub open spec fn marker_at(s: Seq<char>, at: int) -> bool {
    &&& 0 <= at < s.len()
    &&& s[at] == ':' || s[at] == '{' || (s[at] == '=' && at + 1 < s.len() && s[at + 1] == '>')
}

/// Whether a closing parenthesis stands in `s` at index `close`, and behind
/// it, with nothing but white space between, a marker at index `marker`.
pub open spec fn closed_at(s: Seq<char>, close: int, marker: int) -> bool {
    &&& 0 <= close < marker
    &&& s[close] == ')'
    &&& marker_at(s, marker)
    &&& forall|k: int| close < k < marker ==> is_space(#[trigger] s[k])
}

/// Whether somewhere in `s` a parameter list is closed as that of a
/// declaration is: by a parenthesis which a marker follows, with nothing but
/// white space between them.
pub open spec fn has_closed_list(s: Seq<char>) -> bool {
    exists|close: int, marker: int| closed_at(s, close, marker)
}

/// A match that is a declaration closes its parameter list as a declaration
/// does.
proof fn lemma_declaration_closes_list(text: Seq<char>, groups: Captures)
    requires
        match_in(text, groups),
        header_given(text, groups) is Some,
    ensures
        has_closed_list(text),
{
    reveal_strlit(")");
    reveal_strlit(":");
    reveal_strlit("=>");
    reveal_strlit("{");
    let params = group_span(groups, 4).unwrap();
    let trailing = group_span(groups, 5).unwrap();
    let end = byte_len(text) as int;
    lemma_whole_range(text);
    lemma_boundary_in_bounds(text, trailing.1 as int);
    lemma_ranges_join(text, 0, params.1 as int, trailing.0 as int);
    lemma_ranges_join(text, 0, trailing.0 as int, trailing.1 as int);
    lemma_ranges_join(text, 0, trailing.1 as int, end);
    let head = byte_range(text, 0, params.1 as int);
    let mid = byte_range(text, params.1 as int, trailing.0 as int);
    let tail = byte_range(text, trailing.0 as int, trailing.1 as int);
    let rest = byte_range(text, trailing.1 as int, end);
    assert(text == head + mid + tail + rest);
    lemma_trimmed_shape(mid);
    lemma_trimmed_shape(tail);
    assert(trimmed(mid).len() == 1 && trimmed(mid)[0] == ')');
    assert(trimmed(tail).len() > 0);
    let close = (head.len() + leading_spaces(mid)) as int;
    let marker = (head.len() + mid.len() + leading_spaces(tail)) as int;
    assert(text[close] == mid[leading_spaces(mid) as int]);
    assert(text[marker] == tail[leading_spaces(tail) as int]);
    assert(tail[leading_spaces(tail) as int] == trimmed(tail)[0]);
    if trimmed(tail) == "=>"@ {
        assert(trimmed(tail)[1] == tail[(leading_spaces(tail) + 1) as int]);
        assert(text[marker + 1] == tail[(leading_spaces(tail) + 1) as int]);
    }
    assert(marker_at(text, marker));
    assert forall|k: int| close < k < marker implies is_space(#[trigger] text[k]) by {
        if k < head.len() + mid.len() {
            assert(text[k] == mid[k - head.len()]);
        } else {
            assert(text[k] == tail[k - head.len() - mid.len()]);
        }
    }
    assert(closed_at(text, close, marker));
}

/// A text in which no closing parenthesis is followed by a colon, an arrow or
/// an opening brace, with nothing but white space between them, holds calls
/// and no declaration, and is rewritten to itself.
pub proof fn lemma_kept_without_closed_list(text: Seq<char>)
    ensures
        !has_closed_list(text) ==> headers_rewritten(text) == text,
{
    lemma_found_in(HEADER_PATTERN@, text);
    let matches = found(HEADER_PATTERN@, text);
    if !has_closed_list(text) {
        assert forall|i: int| 0 <= i < matches.len() implies header_given(
            text,
            #[trigger] matches[i],
        ) is None by {
            assert(match_in(text, matches[i]));
            if header_given(text, matches[i]) is Some {
                lemma_declaration_closes_list(text, matches[i]);
            }
        }
        lemma_kept_where_no_declaration(text, matches);
    }
}

/// A declaration whose name starts with an underscore is written without the
/// qualifier, every other one with it.
pub proof fn lemma_visibility(header: HeaderParts, params: Seq<char>)
    ensures
        starts_with_char(header.name, '_') ==> header_text(header, params) == header.leading_space
            + return_prefix(header.return_type) + header.name + "("@ + params + ")"@
            + header.trailing,
        !starts_with_char(header.name, '_') ==> header_text(header, params)
            == header.leading_space + PUBLIC@ + return_prefix(header.return_type) + header.name
            + "("@ + params + ")"@ + header.trailing,
{
    if starts_with_char(header.name, '_') {
        assert(header.leading_space + Seq::<char>::empty() =~= header.leading_space);
    }
}

} // verus!
