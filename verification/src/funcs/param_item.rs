use crate::matcher::{
    find_all, found, group, group_span, group_text, groups_of, lemma_found_in,
    lemma_group_within, lemma_spliced_within, match_in, matches_in, span_of, span_text, splice,
    spliced, Captures, Groups,
};
use crate::text::{
    all_space, byte_len, byte_range, contains_char, has_no_space, is_blank, is_boundary,
    is_space, lemma_boundary_in_bounds, lemma_joined_without, lemma_ranges_join,
    lemma_replaced_before_tail, lemma_trailing_spaces, lemma_trailing_spaces_behind,
    lemma_whole_range, no_space, owned_text_of, replace_all, replaced, same, slice, texts_of,
    trailing_spaces,
};
use vstd::prelude::*;
use vstd::string::*;

verus! {

/// The annotation that marks a named parameter as required.
pub const REQUIRED_MARK: &'static str = "@required";

/// What stands in place of the annotation.
pub const REQUIRED_NOTE: &'static str = "/* TODO: check null */";

/// The default that a parameter without one is given.
pub const NULL_DEFAULT: &'static str = " = null";

/// Whether the item assigns a default value itself.
pub open spec fn has_default(item: Seq<char>) -> bool {
    item.contains('=')
}

/// The last character of an item that is no white space, and the white space
/// behind it. Group 1 is the character, group 2 the white space.
pub const LAST_PATTERN: &'static str = r"(?P<nospace>\S)(?P<trailing>\s*)$";

/// Where the default of `item` goes as the given matches show it: the byte
/// offset behind the character that the first match found, if that is no white
/// space and nothing but white space follows it up to the end of the item.
pub open spec fn end_given(item: Seq<char>, matches: Seq<Captures>) -> Option<int> {
    if matches.len() == 0 {
        None
    } else {
        match (group_span(matches[0], 1), group_span(matches[0], 2)) {
            (Some(last), Some(spaces)) => {
                if last.1 == spaces.0 && spaces.1 == byte_len(item) && span_text(
                    item,
                    last,
                ).len() > 0 && no_space(span_text(item, last)) && all_space(
                    span_text(item, spaces),
                ) {
                    Some(last.1 as int)
                } else {
                    None
                }
            },
            _ => None,
        }
    }
}

/// The item with the null default where the given matches show its end; an
/// item of which they show no end is left as it is.
pub open spec fn with_null_given(item: Seq<char>, matches: Seq<Captures>) -> Seq<char> {
    match end_given(item, matches) {
        Some(end) => byte_range(item, 0, end) + NULL_DEFAULT@ + byte_range(
            item,
            end,
            byte_len(item) as int,
        ),
        None => item,
    }
}

/// The item with the null default behind its last character that is no white
/// space.
pub open spec fn with_null(item: Seq<char>) -> Seq<char> {
    with_null_given(item, found(LAST_PATTERN@, item))
}

/// The item with each annotation replaced by the note.
pub open spec fn required_resolved(item: Seq<char>) -> Seq<char> {
    replaced(item, REQUIRED_MARK@, REQUIRED_NOTE@)
}

/// The item as a parameter that can be left out: with the null default where
/// it assigns none itself, and with its annotations resolved.
pub open spec fn with_default(item: Seq<char>) -> Seq<char> {
    required_resolved(
        if has_default(item) {
            item
        } else {
            with_null(item)
        },
    )
}

/// Reads from the given matches where the default of `input` goes.
fn end_from(input: &str, matches: &Vec<Groups>) -> (end: Option<usize>)
    requires
        matches_in(input@, groups_of(matches@)),
    ensures
        end matches Some(at) ==> end_given(input@, groups_of(matches@)) == Some(at as int)
            && is_boundary(input@, at as int),
        end is None ==> end_given(input@, groups_of(matches@)) is None,
{
    if matches.len() == 0 {
        return None;
    }
    assert(match_in(input@, groups_of(matches@)[0]));
    match (span_of(&matches[0], 1), span_of(&matches[0], 2)) {
        (Some(last), Some(spaces)) => {
            if last.1 != spaces.0 || spaces.1 != input.as_bytes().len() {
                return None;
            }
            let found = slice(input, last.0, last.1);
            if !found.is_empty() && has_no_space(found) && is_blank(
                slice(input, spaces.0, spaces.1),
            ) {
                Some(last.1)
            } else {
                None
            }
        },
        _ => None,
    }
}

/// Gives `input` the null default where the given matches show its end.
pub fn null_default_from(input: &str, matches: &Vec<Groups>) -> (out: String)
    requires
        matches_in(input@, groups_of(matches@)),
    ensures
        out@ == with_null_given(input@, groups_of(matches@)),
{
    match end_from(input, matches) {
        Some(end) => {
            proof {
                lemma_whole_range(input@);
                lemma_boundary_in_bounds(input@, end as int);
            }
            let mut item = String::from_str(slice(input, 0, end));
            item.append(NULL_DEFAULT);
            item.append(slice(input, end, input.as_bytes().len()));
            item
        },
        None => String::from_str(input),
    }
}

/// Gives the item the null default where it has none, and resolves its
/// annotations.
pub fn append_default_value(input: &str) -> (out: String)
    ensures
        out@ == with_default(input@),
{
    if contains_char(input, '=') {
        return replace_all(input, REQUIRED_MARK, REQUIRED_NOTE);
    }
    let matches = find_all(LAST_PATTERN, input);
    let item = null_default_from(input, &matches);
    replace_all(item.as_str(), REQUIRED_MARK, REQUIRED_NOTE)
}

/// Where the given matches show the end of an item, it is the end that the
/// item has: behind its last character that is no white space.
pub proof fn lemma_end_given(item: Seq<char>, matches: Seq<Captures>)
    requires
        matches_in(item, matches),
        end_given(item, matches) is Some,
    ensures
        trailing_spaces(item) < item.len(),
        byte_range(item, 0, end_given(item, matches).unwrap()) == item.take(
            item.len() - trailing_spaces(item),
        ),
        byte_range(item, end_given(item, matches).unwrap(), byte_len(item) as int) == item.skip(
            item.len() - trailing_spaces(item),
        ),
{
    assert(match_in(item, matches[0]));
    let last = group_span(matches[0], 1).unwrap();
    let spaces = group_span(matches[0], 2).unwrap();
    let end = byte_len(item) as int;
    lemma_whole_range(item);
    lemma_ranges_join(item, 0, last.0 as int, last.1 as int);
    lemma_ranges_join(item, 0, last.1 as int, end);
    let head = byte_range(item, 0, last.1 as int);
    let tail = byte_range(item, last.1 as int, end);
    let found = byte_range(item, last.0 as int, last.1 as int);
    assert(head.last() == found.last());
    assert(!is_space(found[found.len() - 1]));
    lemma_trailing_spaces_behind(head, tail);
    assert(item.take(head.len() as int) =~= head);
    assert(item.skip(head.len() as int) =~= tail);
}

/// An item that assigns no default value ends, where the search shows its
/// end, with the null default and the white space that it ended with; before
/// that stands the rest of the item, its annotations resolved. Where the
/// search shows no end, only the annotations are resolved.
pub proof fn lemma_null_default_appended(item: Seq<char>)
    requires
        !has_default(item),
    ensures
        end_given(item, found(LAST_PATTERN@, item)) is Some ==> trailing_spaces(item) < item.len()
            && with_default(item) == required_resolved(
            item.take(item.len() - trailing_spaces(item)),
        ) + NULL_DEFAULT@ + item.skip(item.len() - trailing_spaces(item)),
        end_given(item, found(LAST_PATTERN@, item)) is None ==> with_default(item)
            == required_resolved(item),
{
    let matches = found(LAST_PATTERN@, item);
    lemma_found_in(LAST_PATTERN@, item);
    if end_given(item, matches) is Some {
        reveal_strlit("@required");
        reveal_strlit(" = null");
        lemma_end_given(item, matches);
        lemma_trailing_spaces(item);
        let cut = item.len() - trailing_spaces(item);
        let head = item.take(cut);
        let spaces = item.skip(cut);
        let tail = NULL_DEFAULT@ + spaces;
        assert(with_null(item) =~= head + tail);
        assert(tail[0] == ' ');
        assert forall|k: int| 0 <= k < tail.len() implies tail[k] != REQUIRED_MARK@[0] by {
            if k >= NULL_DEFAULT@.len() {
                assert(tail[k] == item[cut + k - NULL_DEFAULT@.len()]);
                assert(is_space(tail[k]));
            }
        }
        assert(!REQUIRED_MARK@.contains(' ')) by {
            if REQUIRED_MARK@.contains(' ') {
                let i = choose|i: int| 0 <= i < REQUIRED_MARK@.len() && REQUIRED_MARK@[i] == ' ';
                assert(false);
            }
        }
        lemma_replaced_before_tail(head, tail, REQUIRED_MARK@, REQUIRED_NOTE@);
        assert(required_resolved(head) + tail =~= required_resolved(head) + NULL_DEFAULT@
            + spaces);
    }
}

/// An item that assigns a default value keeps it: only its annotations are
/// resolved.
pub proof fn lemma_explicit_default_kept(item: Seq<char>)
    requires
        has_default(item),
    ensures
        with_default(item) == required_resolved(item),
{
}

/// A parameter that is itself a function: white space, the type it returns,
/// its name, its own parameters in parentheses, white space. Groups 1, 2, 3,
/// 4 and 7 are these five parts.
pub const FUNCTION_PATTERN: &'static str = r"(?x)
    ^(?P<leading>\s*)(?P<rtype>\w+)\s+(?P<fname>\w+)\s*\(   # the type it returns, and its name
        \s*(?P<params>(\w+\s+\w+\s*,\s*)*(\w+\s+\w+)?)?\s*  # its own parameters
    \)(?P<trailing>\s*)$
";

/// A type and a name. Group 1 is the type.
pub const PAIR_PATTERN: &'static str = r"(?P<type>\w+)\s+(?P<name>\w+)";

/// The type that stands for no result.
pub const VOID: &'static str = "void";

/// For each pair of a type and a name found in `params`, the type.
pub open spec fn pair_types(params: Seq<char>, matches: Seq<Captures>) -> Seq<Seq<char>> {
    Seq::new(
        matches.len(),
        |i: int|
            match group_text(params, matches[i], 1) {
                Some(name) => name,
                None => Seq::empty(),
            },
    )
}

/// `params` with each of the given pairs of a type and a name replaced by the
/// type.
pub open spec fn types_given(params: Seq<char>, matches: Seq<Captures>) -> Seq<char> {
    spliced(params, matches, pair_types(params, matches))
}

/// `params` with each pair of a type and a name replaced by the type.
pub open spec fn arg_types(params: Seq<char>) -> Seq<char> {
    types_given(params, found(PAIR_PATTERN@, params))
}

/// Replaces each of the given pairs of a type and a name in `params` by the
/// type.
pub fn types_from(params: &str, matches: &Vec<Groups>) -> (out: String)
    requires
        matches_in(params@, groups_of(matches@)),
    ensures
        out@ == types_given(params@, groups_of(matches@)),
{
    let mut types: Vec<String> = Vec::new();
    let mut i: usize = 0;
    while i < matches.len()
        invariant
            i <= matches.len(),
            matches_in(params@, groups_of(matches@)),
            types.len() == i,
            forall|k: int|
                0 <= k < i ==> (#[trigger] types@[k])@ == pair_types(
                    params@,
                    groups_of(matches@),
                )[k],
        decreases matches.len() - i,
    {
        assert(match_in(params@, groups_of(matches@)[i as int]));
        let name = match group(params, &matches[i], 1) {
            Some(name) => String::from_str(name),
            None => String::new(),
        };
        types.push(name);
        i += 1;
    }
    assert(texts_of(types@) =~= pair_types(params@, groups_of(matches@)));
    splice(params, matches, &types)
}

/// Drops the names from a list of pairs of a type and a name.
pub fn drop_names(params: &str) -> (out: String)
    ensures
        out@ == arg_types(params@),
{
    let matches = find_all(PAIR_PATTERN, params);
    types_from(params, &matches)
}

/// The delegate type that stands for a function with the given result and
/// parameter types, before the parameter's name and between the white space
/// that stood around the parameter.
pub open spec fn delegate_text(
    leading: Seq<char>,
    return_type: Seq<char>,
    name: Seq<char>,
    arg_types: Seq<char>,
    trailing: Seq<char>,
) -> Seq<char> {
    if return_type == VOID@ {
        if arg_types.len() == 0 {
            leading + "Action "@ + name + trailing
        } else {
            leading + "Action<"@ + arg_types + "> "@ + name + trailing
        }
    } else {
        if arg_types.len() == 0 {
            leading + "Function<"@ + return_type + "> "@ + name + trailing
        } else {
            leading + "Function<"@ + arg_types + ", "@ + return_type + "> "@ + name + trailing
        }
    }
}

/// Writes a parameter of a delegate type.
pub fn delegate(
    leading: &str,
    return_type: &str,
    name: &str,
    arg_types: &str,
    trailing: &str,
) -> (out: String)
    ensures
        out@ == delegate_text(leading@, return_type@, name@, arg_types@, trailing@),
{
    let mut out = String::from_str(leading);
    if same(return_type, VOID) {
        if arg_types.is_empty() {
            out.append("Action ");
        } else {
            out.append("Action<");
            out.append(arg_types);
            out.append("> ");
        }
    } else {
        out.append("Function<");
        if !arg_types.is_empty() {
            out.append(arg_types);
            out.append(", ");
        }
        out.append(return_type);
        out.append("> ");
    }
    out.append(name);
    out.append(trailing);
    out
}

/// The parameter of a delegate type for an item of which the first of the
/// given matches says that it is a function; `None` where there is no match,
/// or where it lacks one of the parts.
pub open spec fn delegate_given(item: Seq<char>, matches: Seq<Captures>) -> Option<Seq<char>> {
    if matches.len() == 0 {
        None
    } else {
        let first = matches[0];
        match (
            group_text(item, first, 1),
            group_text(item, first, 2),
            group_text(item, first, 3),
            group_text(item, first, 7),
        ) {
            (Some(leading), Some(return_type), Some(name), Some(trailing)) => Some(
                delegate_text(
                    leading,
                    return_type,
                    name,
                    match group_text(item, first, 4) {
                        Some(params) => arg_types(params),
                        None => Seq::empty(),
                    },
                    trailing,
                ),
            ),
            _ => None,
        }
    }
}

/// The item as a parameter of a delegate type where it is a function, else as
/// it is.
pub open spec fn delegate_form(item: Seq<char>) -> Seq<char> {
    match delegate_given(item, found(FUNCTION_PATTERN@, item)) {
        Some(text) => text,
        None => item,
    }
}

/// Writes the parameter of a delegate type for an item of which the first of
/// the given matches says that it is a function.
pub fn delegate_from(item: &str, matches: &Vec<Groups>) -> (out: Option<String>)
    requires
        matches_in(item@, groups_of(matches@)),
    ensures
        owned_text_of(out) == delegate_given(item@, groups_of(matches@)),
{
    if matches.len() == 0 {
        return None;
    }
    assert(match_in(item@, groups_of(matches@)[0]));
    let first = &matches[0];
    let leading = group(item, first, 1);
    let return_type = group(item, first, 2);
    let name = group(item, first, 3);
    let trailing = group(item, first, 7);
    match (leading, return_type, name, trailing) {
        (Some(leading), Some(return_type), Some(name), Some(trailing)) => {
            let types = match group(item, first, 4) {
                Some(params) => drop_names(params),
                None => String::new(),
            };
            Some(delegate(leading, return_type, name, types.as_str(), trailing))
        },
        _ => None,
    }
}

/// Turns an item that is a function into a parameter of a delegate type, and
/// leaves any other item as it is.
pub fn create_function_action(input: &str) -> (out: String)
    ensures
        out@ == delegate_form(input@),
{
    let matches = find_all(FUNCTION_PATTERN, input);
    match delegate_from(input, &matches) {
        Some(text) => text,
        None => String::from_str(input),
    }
}

/// The types of a list of parameters hold no equals sign where the list holds
/// none.
pub proof fn lemma_arg_types_without_default(params: Seq<char>)
    requires
        !has_default(params),
    ensures
        !has_default(arg_types(params)),
{
    let matches = found(PAIR_PATTERN@, params);
    lemma_found_in(PAIR_PATTERN@, params);
    let types = pair_types(params, matches);
    assert forall|i: int| 0 <= i < types.len() implies !(#[trigger] types[i]).contains('=') by {
        assert(match_in(params, matches[i]));
        if types[i].contains('=') {
            lemma_group_within(params, matches[i], 1, '=');
        }
    }
    lemma_spliced_within(params, matches, types, '=');
}

/// A parameter of a delegate type holds no equals sign where its parts hold
/// none.
proof fn lemma_delegate_text_without_default(
    leading: Seq<char>,
    return_type: Seq<char>,
    name: Seq<char>,
    arg_types: Seq<char>,
    trailing: Seq<char>,
)
    requires
        !has_default(leading),
        !has_default(return_type),
        !has_default(name),
        !has_default(arg_types),
        !has_default(trailing),
    ensures
        !has_default(delegate_text(leading, return_type, name, arg_types, trailing)),
{
    reveal_strlit("Action ");
    reveal_strlit("Action<");
    reveal_strlit("> ");
    reveal_strlit("Function<");
    reveal_strlit(", ");
    assert(!has_default("Action "@) && !has_default("Action<"@) && !has_default("> "@));
    assert(!has_default("Function<"@) && !has_default(", "@));
    if return_type == VOID@ {
        if arg_types.len() == 0 {
            lemma_joined_without(leading, "Action "@, '=');
            lemma_joined_without(leading + "Action "@, name, '=');
            lemma_joined_without(leading + "Action "@ + name, trailing, '=');
        } else {
            lemma_joined_without(leading, "Action<"@, '=');
            lemma_joined_without(leading + "Action<"@, arg_types, '=');
            lemma_joined_without(leading + "Action<"@ + arg_types, "> "@, '=');
            lemma_joined_without(leading + "Action<"@ + arg_types + "> "@, name, '=');
            lemma_joined_without(leading + "Action<"@ + arg_types + "> "@ + name, trailing, '=');
        }
    } else {
        if arg_types.len() == 0 {
            lemma_joined_without(leading, "Function<"@, '=');
            lemma_joined_without(leading + "Function<"@, return_type, '=');
            lemma_joined_without(leading + "Function<"@ + return_type, "> "@, '=');
            lemma_joined_without(leading + "Function<"@ + return_type + "> "@, name, '=');
            lemma_joined_without(
                leading + "Function<"@ + return_type + "> "@ + name,
                trailing,
                '=',
            );
        } else {
            lemma_joined_without(leading, "Function<"@, '=');
            lemma_joined_without(leading + "Function<"@, arg_types, '=');
            lemma_joined_without(leading + "Function<"@ + arg_types, ", "@, '=');
            lemma_joined_without(leading + "Function<"@ + arg_types + ", "@, return_type, '=');
            lemma_joined_without(
                leading + "Function<"@ + arg_types + ", "@ + return_type,
                "> "@,
                '=',
            );
            lemma_joined_without(
                leading + "Function<"@ + arg_types + ", "@ + return_type + "> "@,
                name,
                '=',
            );
            lemma_joined_without(
                leading + "Function<"@ + arg_types + ", "@ + return_type + "> "@ + name,
                trailing,
                '=',
            );
        }
    }
}

/// An item that assigns no default value assigns none as a parameter of a
/// delegate type either.
pub proof fn lemma_delegate_without_default(item: Seq<char>)
    requires
        !has_default(item),
    ensures
        !has_default(delegate_form(item)),
{
    let matches = found(FUNCTION_PATTERN@, item);
    lemma_found_in(FUNCTION_PATTERN@, item);
    if delegate_given(item, matches) is Some {
        let first = matches[0];
        assert(match_in(item, first));
        let leading = group_text(item, first, 1).unwrap();
        let return_type = group_text(item, first, 2).unwrap();
        let name = group_text(item, first, 3).unwrap();
        let trailing = group_text(item, first, 7).unwrap();
        let types = match group_text(item, first, 4) {
            Some(params) => arg_types(params),
            None => Seq::empty(),
        };
        if leading.contains('=') {
            lemma_group_within(item, first, 1, '=');
        }
        if return_type.contains('=') {
            lemma_group_within(item, first, 2, '=');
        }
        if name.contains('=') {
            lemma_group_within(item, first, 3, '=');
        }
        if trailing.contains('=') {
            lemma_group_within(item, first, 7, '=');
        }
        if group_text(item, first, 4) is Some {
            let params = group_text(item, first, 4).unwrap();
            if params.contains('=') {
                lemma_group_within(item, first, 4, '=');
            }
            lemma_arg_types_without_default(params);
        }
        lemma_delegate_text_without_default(leading, return_type, name, types, trailing);
    }
}

} // verus!
