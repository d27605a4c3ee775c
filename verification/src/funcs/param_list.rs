use crate::funcs::param_item::{
    append_default_value, create_function_action, delegate_form, end_given, has_default,
    lemma_delegate_without_default, lemma_null_default_appended, required_resolved, with_default,
    LAST_PATTERN, NULL_DEFAULT,
};
use crate::funcs::pieces::{
    all_items, depth_after, done_pieces, lemma_all_items_both, lemma_done_pieces_are_items,
    lemma_pieces_are_items, open_piece, pieces, split_at_commas, split_pieces,
};
use crate::matcher::{
    find_all, found, group, group_span, group_text, groups_of, lemma_resume_at, match_in,
    matches_in, resume_at, span_of, span_text, span_within, whole, Captures, Groups,
};
use crate::text::{
    byte_len, byte_range, chars_of, ends_with, ends_with_char, is_part, is_space, join, joined,
    leading_spaces, lemma_part_of_part, lemma_range_is_part, lemma_trimmed, lemma_trimmed_part,
    lemma_trimmed_shape, lemma_whole_range, slice, text_of, texts_of, trailing_spaces, trim,
    trimmed,
};
use vstd::prelude::*;
use vstd::string::*;

verus! {

/// A parameter list: what is passed by position, then, in braces, what is
/// passed by name. Group 1 is the first part, group 2 what stands in the
/// braces.
pub const SECTION_PATTERN: &'static str = r"(?x)
    ^\s*(?P<positional>[^{}]*)?                    # passed by position
    \s*
    (?:\{\s*(?P<named>(?:.*\n)*(?:.*)?)\s*\}\s*)?  # passed by name
    $
";

/// One item of a section and the comma behind it. Group 1 is the item:
/// `this.` and a name, or a type, which may have type arguments with white
/// space around them, and a name, either with or without a default value; or
/// a function with its own parameters.
pub const ITEM_PATTERN: &'static str = r"(?x)
    (?:\s*
        (?P<item>
            (?:
                this\.
                |
                \w+(?:
                    <\s*(\w+\s*,\s*)*\w+\s*>  # type arguments
                )?\s+
            )\w+
            (?:\s*=[^,]*)?                    # a default value
            |
            \w+\s+\w+\s*\((\w+\s+\w+\s*,\s*)*(\w+\s+\w+\s*)?\)
        )\s*,
    )\s*
";

/// What separates two parameters of a rewritten list.
pub const SEPARATOR: &'static str = ",\n";

/// `s` without the white space at its ends, if anything is left.
pub open spec fn section_text(s: Seq<char>) -> Option<Seq<char>> {
    if trimmed(s).len() == 0 {
        None
    } else {
        Some(trimmed(s))
    }
}

/// How many characters of `s` stand before its first brace.
pub open spec fn brace_free(s: Seq<char>) -> nat
    decreases s.len(),
{
    if s.len() > 0 && s[0] != '{' && s[0] != '}' {
        1 + brace_free(s.drop_first())
    } else {
        0
    }
}

/// What is passed by position in `s`: what stands before its first brace,
/// without the white space at its ends, if anything is left.
pub open spec fn positional_section(s: Seq<char>) -> Option<Seq<char>> {
    section_text(s.take(brace_free(s) as int))
}

/// The two sections as the given matches of `text` set them, one after the
/// other: each match sets the sections whose group took part in it.
pub open spec fn sections_seen(text: Seq<char>, matches: Seq<Captures>) -> (
    Option<Seq<char>>,
    Option<Seq<char>>,
)
    decreases matches.len(),
{
    if matches.len() == 0 {
        (None, None)
    } else {
        let before = sections_seen(text, matches.drop_last());
        (
            match group_text(text, matches.last(), 1) {
                Some(positional) => positional_section(positional),
                None => before.0,
            },
            match group_text(text, matches.last(), 2) {
                Some(named) => section_text(named),
                None => before.1,
            },
        )
    }
}

/// The two sections of `text` as the given matches show them. Where there is
/// no match, `text` has no part in braces that could be told from the rest:
/// what stands before its first brace is passed by position, and nothing by
/// name.
pub open spec fn sections_given(text: Seq<char>, matches: Seq<Captures>) -> (
    Option<Seq<char>>,
    Option<Seq<char>>,
) {
    if matches.len() == 0 {
        (positional_section(text), None)
    } else {
        sections_seen(text, matches)
    }
}

/// Whether `section` can be a section: it is not empty, and neither starts
/// nor ends with white space.
pub open spec fn is_section(section: Seq<char>) -> bool {
    section.len() > 0 && !is_space(section[0]) && !is_space(section.last())
}

/// Whether `section` holds a brace.
pub open spec fn has_brace(section: Seq<char>) -> bool {
    section.contains('{') || section.contains('}')
}

/// The positional and the named section of the parameter list `text`.
pub open spec fn sections(text: Seq<char>) -> (Option<Seq<char>>, Option<Seq<char>>) {
    sections_given(text, found(SECTION_PATTERN@, text))
}

/// A section is never empty, and neither starts nor ends with white space.
pub proof fn lemma_section_trimmed(s: Seq<char>)
    ensures
        section_text(s) matches Some(inner) ==> is_section(inner),
        section_text(s) is None <==> leading_spaces(s) == s.len(),
{
    lemma_trimmed(s);
}

/// No brace stands before the first brace.
pub proof fn lemma_brace_free(s: Seq<char>)
    ensures
        brace_free(s) <= s.len(),
        !has_brace(s.take(brace_free(s) as int)),
    decreases s.len(),
{
    let head = s.take(brace_free(s) as int);
    if s.len() > 0 && s[0] != '{' && s[0] != '}' {
        let rest = s.drop_first();
        lemma_brace_free(rest);
        let before = rest.take(brace_free(rest) as int);
        if has_brace(head) {
            let i = choose|i: int| 0 <= i < head.len() && (head[i] == '{' || head[i] == '}');
            assert(i > 0);
            assert(before[i - 1] == head[i]);
            assert(before.contains(head[i]));
        }
    } else {
        assert(head =~= Seq::<char>::empty());
    }
}

/// What is passed by position is a section without a brace.
pub proof fn lemma_positional_section(s: Seq<char>)
    ensures
        positional_section(s) matches Some(inner) ==> is_section(inner) && !has_brace(inner),
{
    let head = s.take(brace_free(s) as int);
    lemma_brace_free(s);
    lemma_section_trimmed(head);
    lemma_trimmed_shape(head);
    let inner = trimmed(head);
    if inner.len() > 0 && has_brace(inner) {
        let i = choose|i: int| 0 <= i < inner.len() && (inner[i] == '{' || inner[i] == '}');
        assert(head[leading_spaces(head) + i] == inner[i]);
        assert(head.contains(inner[i]));
    }
}

/// What is passed by position in a part of a text is a part of the text.
proof fn lemma_positional_part(s: Seq<char>, text: Seq<char>)
    requires
        is_part(s, text),
    ensures
        positional_section(s) matches Some(inner) ==> is_part(inner, text),
{
    lemma_brace_free(s);
    lemma_part_of_part(s, text, 0, brace_free(s) as int);
    lemma_trimmed_part(s.take(brace_free(s) as int), text);
}

/// Each of the two sections is a section and a part of the text, and what is
/// passed by position holds no brace.
pub proof fn lemma_sections_given(text: Seq<char>, matches: Seq<Captures>)
    requires
        matches_in(text, matches),
    ensures
        sections_seen(text, matches).0 matches Some(p) ==> is_section(p) && !has_brace(p)
            && is_part(p, text),
        sections_seen(text, matches).1 matches Some(n) ==> is_section(n) && is_part(n, text),
        sections_given(text, matches).0 matches Some(p) ==> is_section(p) && !has_brace(p)
            && is_part(p, text),
        sections_given(text, matches).1 matches Some(n) ==> is_section(n) && is_part(n, text),
    decreases matches.len(),
{
    lemma_positional_section(text);
    assert(is_part(text, text)) by {
        assert(text.subrange(0, 0 + text.len() as int) =~= text);
    }
    lemma_positional_part(text, text);
    if matches.len() > 0 {
        let rest = matches.drop_last();
        assert(matches_in(text, rest)) by {
            assert forall|i: int| 0 <= i < rest.len() implies match_in(
                text,
                #[trigger] rest[i],
            ) by {
                assert(rest[i] == matches[i]);
            }
            assert forall|i: int| 0 < i < rest.len() implies whole(rest[i - 1]).1 <= whole(
                #[trigger] rest[i],
            ).0 by {
                assert(rest[i] == matches[i]);
                assert(rest[i - 1] == matches[i - 1]);
            }
        }
        lemma_sections_given(text, rest);
        let groups = matches.last();
        assert(match_in(text, groups));
        match group_span(groups, 1) {
            Some(span) => {
                lemma_positional_section(span_text(text, span));
                lemma_range_is_part(text, span.0 as int, span.1 as int);
                lemma_positional_part(span_text(text, span), text);
            },
            None => {},
        }
        match group_span(groups, 2) {
            Some(span) => {
                lemma_section_trimmed(span_text(text, span));
                lemma_range_is_part(text, span.0 as int, span.1 as int);
                lemma_trimmed_part(span_text(text, span), text);
            },
            None => {},
        }
    }
}

/// Cuts `s` down to what stands between the white space at its ends.
fn section<'a>(s: &'a str) -> (r: Option<&'a str>)
    ensures
        text_of(r) == section_text(s@),
{
    let inner = trim(s);
    if inner.is_empty() {
        None
    } else {
        Some(inner)
    }
}

/// Cuts `s` down to what is passed by position in it.
fn positional<'a>(s: &'a str) -> (r: Option<&'a str>)
    ensures
        text_of(r) == positional_section(s@),
{
    let v = chars_of(s);
    let mut i: usize = 0;
    assert(v@.skip(0) =~= v@);
    while i < v.len() && v[i] != '{' && v[i] != '}'
        invariant
            i <= v.len(),
            brace_free(v@) == i + brace_free(v@.skip(i as int)),
        decreases v.len() - i,
    {
        assert(v@.skip(i as int).drop_first() =~= v@.skip(i + 1));
        i += 1;
    }
    section(s.substring_char(0, i))
}

/// Takes the two sections of `input` from the given matches.
pub fn sections_from<'a>(input: &'a str, matches: &Vec<Groups>) -> (r: (
    Option<&'a str>,
    Option<&'a str>,
))
    requires
        matches_in(input@, groups_of(matches@)),
    ensures
        (text_of(r.0), text_of(r.1)) == sections_given(input@, groups_of(matches@)),
        r.0 matches Some(p) ==> is_section(p@) && !has_brace(p@) && is_part(p@, input@),
        r.1 matches Some(n) ==> is_section(n@) && is_part(n@, input@),
{
    proof {
        lemma_sections_given(input@, groups_of(matches@));
    }
    if matches.len() == 0 {
        return (positional(input), None);
    }
    let mut positional: Option<&'a str> = None;
    let mut named: Option<&'a str> = None;
    let mut i: usize = 0;
    while i < matches.len()
        invariant
            i <= matches.len(),
            matches_in(input@, groups_of(matches@)),
            (text_of(positional), text_of(named)) == sections_seen(
                input@,
                groups_of(matches@).take(i as int),
            ),
        decreases matches.len() - i,
    {
        proof {
            let seen = groups_of(matches@).take(i + 1);
            assert(match_in(input@, groups_of(matches@)[i as int]));
            assert(seen.drop_last() =~= groups_of(matches@).take(i as int));
            assert(seen.last() == matches@[i as int]@);
        }
        match group(input, &matches[i], 1) {
            Some(expr) => {
                positional = self::positional(expr);
            },
            None => {},
        }
        match group(input, &matches[i], 2) {
            Some(expr) => {
                named = section(expr);
            },
            None => {},
        }
        i += 1;
    }
    assert(groups_of(matches@).take(i as int) =~= groups_of(matches@));
    (positional, named)
}

/// Splits a parameter list into what is passed by position and what, in
/// braces, is passed by name. A section that is empty is `None`. Of a list of
/// another shape, what stands before the first brace is passed by position.
/// Each section is a part of the list, without white space at its ends, and
/// what is passed by position holds no brace.
pub fn split_positioned_named<'a>(input: &'a str) -> (r: (Option<&'a str>, Option<&'a str>))
    ensures
        (text_of(r.0), text_of(r.1)) == sections(input@),
        r.0 matches Some(p) ==> is_section(p@) && !has_brace(p@) && is_part(p@, input@),
        r.1 matches Some(n) ==> is_section(n@) && is_part(n@, input@),
{
    let matches = find_all(SECTION_PATTERN, input);
    sections_from(input, &matches)
}

/// The section without the white space at its ends, and with a comma behind
/// it where it does not end with one.
pub open spec fn comma_ended(section: Seq<char>) -> Seq<char> {
    if ends_with_char(trimmed(section), ',') {
        trimmed(section)
    } else {
        trimmed(section) + ","@
    }
}

/// What lies in a match before its item.
pub open spec fn item_gap(text: Seq<char>, groups: Captures) -> Seq<char> {
    match group_span(groups, 1) {
        Some(span) => byte_range(text, whole(groups).0 as int, span.0 as int),
        None => Seq::empty(),
    }
}

/// The item of a match with what belongs to it: `rest`, which was left over
/// before the match, what lies in the match before its item, and the item
/// that the match found. A match without an item leaves `rest` alone.
pub open spec fn composed(text: Seq<char>, rest: Seq<char>, groups: Captures) -> Seq<char> {
    match group_text(text, groups, 1) {
        Some(item) => rest + item_gap(text, groups) + item,
        None => rest,
    }
}

/// What no match covers before the last of the given matches.
pub open spec fn stretch_before(text: Seq<char>, matches: Seq<Captures>) -> Seq<char> {
    byte_range(text, resume_at(matches, matches.len() - 1), whole(matches.last()).0 as int)
}

/// What lies in a match behind its item.
pub open spec fn item_end(text: Seq<char>, groups: Captures) -> Seq<char> {
    match group_span(groups, 1) {
        Some(span) => byte_range(text, span.1 as int, whole(groups).1 as int),
        None => Seq::empty(),
    }
}

/// The items of `text` up to the end of the last of the given matches, in
/// their order, and what is carried over from there. What no match covers
/// before a match is cut at each comma outside brackets; what is left over
/// behind the last such comma goes with the item of the match. An item that
/// leaves a bracket open is no item yet: it is carried over, with what lies
/// behind it in its match, into what follows.
pub open spec fn items_upto(text: Seq<char>, matches: Seq<Captures>) -> (
    Seq<Seq<char>>,
    Seq<char>,
)
    decreases matches.len(),
{
    if matches.len() == 0 {
        (Seq::empty(), Seq::empty())
    } else {
        let before = items_upto(text, matches.drop_last());
        let stretch = before.1 + stretch_before(text, matches);
        let item = composed(text, open_piece(stretch, true), matches.last());
        if depth_after(item, 0) == 0 {
            (before.0 + done_pieces(stretch, true) + pieces(item), Seq::empty())
        } else {
            (before.0 + done_pieces(stretch, true), item + item_end(text, matches.last()))
        }
    }
}

/// What no match covers at the end of `text`.
pub open spec fn tail_of(text: Seq<char>, matches: Seq<Captures>) -> Seq<char> {
    byte_range(text, resume_at(matches, matches.len() as int), byte_len(text) as int)
}

/// The items that the given matches show in `text`, in their order. What no
/// match covers is not lost: it is cut into items at each comma outside
/// brackets.
pub open spec fn items_given(text: Seq<char>, matches: Seq<Captures>) -> Seq<Seq<char>> {
    items_upto(text, matches).0 + pieces(items_upto(text, matches).1 + tail_of(text, matches))
}

/// The items of a section, in their order.
pub open spec fn items(section: Seq<char>) -> Seq<Seq<char>> {
    items_given(comma_ended(section), found(ITEM_PATTERN@, comma_ended(section)))
}

/// Every item is not empty, and each comma in it stands within brackets.
pub proof fn lemma_items_given(text: Seq<char>, matches: Seq<Captures>)
    ensures
        all_items(items_upto(text, matches).0),
        all_items(items_given(text, matches)),
    decreases matches.len(),
{
    if matches.len() > 0 {
        let before = items_upto(text, matches.drop_last());
        let stretch = before.1 + stretch_before(text, matches);
        let item = composed(text, open_piece(stretch, true), matches.last());
        lemma_items_given(text, matches.drop_last());
        lemma_done_pieces_are_items(stretch, true);
        lemma_pieces_are_items(item);
        lemma_all_items_both(before.0, done_pieces(stretch, true));
        lemma_all_items_both(before.0 + done_pieces(stretch, true), pieces(item));
    }
    lemma_pieces_are_items(items_upto(text, matches).1 + tail_of(text, matches));
    lemma_all_items_both(
        items_upto(text, matches).0,
        pieces(items_upto(text, matches).1 + tail_of(text, matches)),
    );
}

/// The items of a section can each be an item.
pub proof fn lemma_items(section: Seq<char>)
    ensures
        all_items(items(section)),
{
    lemma_items_given(comma_ended(section), found(ITEM_PATTERN@, comma_ended(section)));
}

/// A section in which no item is recognised is cut at each comma outside
/// brackets, and nothing else of it is lost.
pub proof fn lemma_unrecognised_section_kept(section: Seq<char>)
    ensures
        found(ITEM_PATTERN@, comma_ended(section)).len() == 0 ==> items(section) == pieces(
            comma_ended(section),
        ),
{
    let text = comma_ended(section);
    if found(ITEM_PATTERN@, text).len() == 0 {
        lemma_whole_range(text);
        assert(tail_of(text, Seq::empty()) == text);
        assert(Seq::<char>::empty() + text =~= text);
        assert(Seq::<Seq<char>>::empty() + pieces(text) =~= pieces(text));
    }
}

/// Adds `more` to `items`.
fn add_items(items: &mut Vec<String>, more: Vec<String>)
    ensures
        texts_of(final(items)@) == texts_of(old(items)@) + texts_of(more@),
{
    let ghost added = more@;
    let mut more = more;
    items.append(&mut more);
    assert(texts_of(items@) =~= texts_of(old(items)@) + texts_of(added));
}

/// Writes the item of a match with what belongs to it.
fn compose(text: &str, rest: &str, groups: &Groups) -> (item: String)
    requires
        match_in(text@, groups@),
    ensures
        item@ == composed(text@, rest@, groups@),
{
    let mut item = String::from_str(rest);
    match span_of(groups, 1) {
        Some(span) => {
            let start: usize = groups[0].unwrap().0;
            assert(span_within(groups@, span));
            item.append(slice(text, start, span.0));
            item.append(slice(text, span.0, span.1));
        },
        None => {},
    }
    item
}

/// Reads what lies in a match behind its item.
fn end_of_item<'a>(text: &'a str, groups: &Groups) -> (r: Option<&'a str>)
    requires
        match_in(text@, groups@),
    ensures
        r matches Some(end) ==> end@ == item_end(text@, groups@),
        r is None ==> item_end(text@, groups@) == Seq::<char>::empty(),
{
    match span_of(groups, 1) {
        Some(span) => {
            assert(span_within(groups@, span));
            Some(slice(text, span.1, groups[0].unwrap().1))
        },
        None => None,
    }
}

/// Takes the items of `text` from the given matches.
pub fn items_from(text: &str, matches: &Vec<Groups>) -> (r: Vec<String>)
    requires
        matches_in(text@, groups_of(matches@)),
    ensures
        texts_of(r@) == items_given(text@, groups_of(matches@)),
        all_items(texts_of(r@)),
{
    let mut result: Vec<String> = Vec::new();
    let mut carried = String::new();
    let mut last: usize = 0;
    let mut i: usize = 0;
    assert(texts_of(result@) =~= Seq::<Seq<char>>::empty());
    while i < matches.len()
        invariant
            i <= matches.len(),
            matches_in(text@, groups_of(matches@)),
            last == resume_at(groups_of(matches@), i as int),
            texts_of(result@) == items_upto(text@, groups_of(matches@).take(i as int)).0,
            carried@ == items_upto(text@, groups_of(matches@).take(i as int)).1,
        decreases matches.len() - i,
    {
        proof {
            let all = groups_of(matches@);
            let seen = all.take(i + 1);
            lemma_resume_at(text@, all, i as int);
            assert(match_in(text@, all[i as int]));
            assert(seen.drop_last() =~= all.take(i as int));
            assert(seen.last() == matches@[i as int]@);
            assert(resume_at(seen, i as int) == resume_at(all, i as int)) by {
                if i > 0 {
                    assert(seen[i - 1] == all[i - 1]);
                }
            }
        }
        let span = matches[i][0].unwrap();
        let mut stretch = carried;
        stretch.append(slice(text, last, span.0));
        let (done, rest, _) = split_pieces(stretch.as_str(), true);
        add_items(&mut result, done);
        let mut item = compose(text, rest, &matches[i]);
        let (_, _, closed) = split_pieces(item.as_str(), true);
        if closed {
            add_items(&mut result, split_at_commas(item.as_str()));
            carried = String::new();
        } else {
            match end_of_item(text, &matches[i]) {
                Some(end) => {
                    item.append(end);
                },
                None => {
                    assert(item@ + Seq::<char>::empty() =~= item@);
                },
            }
            carried = item;
        }
        last = span.1;
        i += 1;
    }
    proof {
        assert(groups_of(matches@).take(i as int) =~= groups_of(matches@));
        lemma_resume_at(text@, groups_of(matches@), i as int);
        lemma_whole_range(text@);
        lemma_items_given(text@, groups_of(matches@));
    }
    carried.append(slice(text, last, text.as_bytes().len()));
    add_items(&mut result, split_at_commas(carried.as_str()));
    result
}

/// Splits one section of a parameter list into its items. Each item is not
/// empty and holds no comma outside angle brackets and parentheses.
pub fn split_single_parameter_list(input: &str) -> (r: Vec<String>)
    ensures
        texts_of(r@) == items(input@),
        all_items(texts_of(r@)),
{
    let inner = trim(input);
    let mut text = String::from_str(inner);
    if !ends_with(inner, ',') {
        text.append(",");
    }
    let matches = find_all(ITEM_PATTERN, text.as_str());
    items_from(text.as_str(), &matches)
}

/// The items of a section that may be missing.
pub open spec fn section_items(section: Option<Seq<char>>) -> Seq<Seq<char>> {
    match section {
        Some(section) => items(section),
        None => Seq::empty(),
    }
}

/// The items of the parameter list `text`: those passed by position, and those
/// passed by name.
pub open spec fn parameter_items(text: Seq<char>) -> (Seq<Seq<char>>, Seq<Seq<char>>) {
    (section_items(sections(text).0), section_items(sections(text).1))
}

/// Splits a parameter list into the items passed by position and the items
/// passed by name. Each item is not empty and holds no comma outside angle
/// brackets and parentheses.
pub fn split_parameter_list(input: &str) -> (r: (Vec<String>, Vec<String>))
    ensures
        (texts_of(r.0@), texts_of(r.1@)) == parameter_items(input@),
        all_items(texts_of(r.0@)),
        all_items(texts_of(r.1@)),
{
    let (positional, named) = split_positioned_named(input);
    let positional = match positional {
        Some(expr) => split_single_parameter_list(expr),
        None => Vec::new(),
    };
    let named = match named {
        Some(expr) => split_single_parameter_list(expr),
        None => Vec::new(),
    };
    assert(texts_of(Seq::<String>::empty()) =~= Seq::<Seq<char>>::empty());
    (positional, named)
}

/// An item passed by position, rewritten.
pub open spec fn positional_text(item: Seq<char>) -> Seq<char> {
    delegate_form(item)
}

/// An item passed by name, rewritten.
pub open spec fn named_text(item: Seq<char>) -> Seq<char> {
    with_default(delegate_form(item))
}

/// An item passed by name that assigns no default value ends, rewritten,
/// with the null default and the white space that it ended with, where the
/// search shows the end of the item; where it shows none, the item gets no
/// default.
pub proof fn lemma_named_item_defaulted(item: Seq<char>)
    requires
        !has_default(item),
    ensures
        end_given(delegate_form(item), found(LAST_PATTERN@, delegate_form(item))) is Some
            ==> named_text(item) == required_resolved(
            delegate_form(item).take(
                delegate_form(item).len() - trailing_spaces(delegate_form(item)),
            ),
        ) + NULL_DEFAULT@ + delegate_form(item).skip(
            delegate_form(item).len() - trailing_spaces(delegate_form(item)),
        ),
        end_given(delegate_form(item), found(LAST_PATTERN@, delegate_form(item))) is None
            ==> named_text(item) == required_resolved(delegate_form(item)),
{
    lemma_delegate_without_default(item);
    lemma_null_default_appended(delegate_form(item));
}

/// The two rows of rewritten items as one parameter list.
pub open spec fn sections_joined(positional: Seq<Seq<char>>, named: Seq<Seq<char>>) -> Seq<char> {
    let first = joined(positional, SEPARATOR@);
    let second = joined(named, SEPARATOR@);
    if first.len() == 0 || second.len() == 0 {
        first + second
    } else {
        first + SEPARATOR@ + second
    }
}

/// The parameter list `raw`, rewritten.
pub open spec fn params_text(raw: Seq<char>) -> Seq<char> {
    sections_joined(
        parameter_items(raw).0.map_values(|item: Seq<char>| positional_text(item)),
        parameter_items(raw).1.map_values(|item: Seq<char>| named_text(item)),
    )
}

/// Writes the rewritten items of the two sections as one parameter list.
pub fn join_sections(positional: &Vec<String>, named: &Vec<String>) -> (out: String)
    ensures
        out@ == sections_joined(texts_of(positional@), texts_of(named@)),
{
    let first = join(positional, SEPARATOR);
    let second = join(named, SEPARATOR);
    let mut out = first;
    if !out.as_str().is_empty() && !second.as_str().is_empty() {
        out.append(SEPARATOR);
    }
    out.append(second.as_str());
    out
}

/// Rewrites a parameter list: a function among the items becomes a parameter
/// of a delegate type, and every item passed by name has a default value.
pub fn transpile_params(input: &str) -> (out: String)
    ensures
        out@ == params_text(input@),
{
    let (positional, named) = split_parameter_list(input);
    let mut first: Vec<String> = Vec::new();
    let mut i: usize = 0;
    while i < positional.len()
        invariant
            i <= positional.len(),
            first.len() == i,
            forall|k: int|
                0 <= k < i ==> (#[trigger] first@[k])@ == positional_text(positional@[k]@),
        decreases positional.len() - i,
    {
        first.push(create_function_action(positional[i].as_str()));
        i += 1;
    }
    let mut second: Vec<String> = Vec::new();
    let mut j: usize = 0;
    while j < named.len()
        invariant
            j <= named.len(),
            second.len() == j,
            forall|k: int| 0 <= k < j ==> (#[trigger] second@[k])@ == named_text(named@[k]@),
        decreases named.len() - j,
    {
        let item = create_function_action(named[j].as_str());
        second.push(append_default_value(item.as_str()));
        j += 1;
    }
    assert(texts_of(first@) =~= texts_of(positional@).map_values(
        |item: Seq<char>| positional_text(item),
    ));
    assert(texts_of(second@) =~= texts_of(named@).map_values(|item: Seq<char>| named_text(item)));
    join_sections(&first, &second)
}

} // verus!
