use crate::text::{
    byte_len, byte_range, is_boundary, lemma_boundary_in_bounds, lemma_empty_range,
    lemma_joined_without, lemma_range_within, lemma_ranges_join, lemma_whole_range, slice, text_of,
    texts_of,
};
use regex::Regex;
use vstd::prelude::*;
use vstd::string::*;

verus! {

/// The byte offsets where a part of a text starts and ends.
pub type Span = (usize, usize);

/// One match of a pattern: first the span of the whole match, then for each
/// capture group, in the order of the opening parentheses, its span, or `None`
/// for a group that took no part.
pub type Groups = Vec<Option<Span>>;

/// One match of a pattern as a sequence.
pub type Captures = Seq<Option<Span>>;

/// What a search for all matches of `pattern` in `text` reports: `None` where
/// `pattern` is no regular expression, else the successive matches.
pub uninterp spec fn regex_captures(pattern: Seq<char>, text: Seq<char>) -> Option<
    Seq<Seq<Option<(usize, usize)>>>,
>;

/// The matches as sequences of groups.
pub open spec fn groups_of(matches: Seq<Groups>) -> Seq<Captures> {
    matches.map_values(|groups: Groups| groups@)
}

/// The outcome of a search as sequences.
pub open spec fn reported(r: Option<Vec<Groups>>) -> Option<Seq<Captures>> {
    match r {
        Some(matches) => Some(groups_of(matches@)),
        None => None,
    }
}

/// A span that can be cut out of `text`.
pub open spec fn span_in(text: Seq<char>, span: Span) -> bool {
    &&& span.0 <= span.1
    &&& is_boundary(text, span.0 as int)
    &&& is_boundary(text, span.1 as int)
}

/// The span of the whole match.
pub open spec fn whole(groups: Captures) -> Span {
    groups[0].unwrap()
}

/// Whether `span` lies within the whole of the match.
pub open spec fn span_within(groups: Captures, span: Span) -> bool {
    whole(groups).0 <= span.0 && span.1 <= whole(groups).1
}

/// A match of `text`: the whole match is there, and every group that took part
/// can be cut out of `text` and lies within the whole match.
pub open spec fn match_in(text: Seq<char>, groups: Captures) -> bool {
    &&& groups.len() >= 1
    &&& groups[0] is Some
    &&& forall|j: int|
        0 <= j < groups.len() ==> ((#[trigger] groups[j]) matches Some(span) ==> span_in(
            text,
            span,
        ) && span_within(groups, span))
}

/// Successive matches of `text`: each starts where the one before it ended, or
/// later.
pub open spec fn matches_in(text: Seq<char>, matches: Seq<Captures>) -> bool {
    &&& forall|i: int| 0 <= i < matches.len() ==> match_in(text, #[trigger] matches[i])
    &&& forall|i: int|
        0 < i < matches.len() ==> whole(matches[i - 1]).1 <= whole(#[trigger] matches[i]).0
}

/// Calls `Regex::new` of the regex crate on `pattern` and, where that compiles,
/// `Regex::captures_iter` on `text`, and hands out the offsets of every group
/// of every match, as `Captures::iter`, `Match::start` and `Match::end` give
/// them. The contract names the outcome after the two arguments, and claims
/// nothing else of it.
#[verifier::external_body]
fn captures_iter(pattern: &str, text: &str) -> (r: Option<Vec<Groups>>)
    ensures
        reported(r) == regex_captures(pattern@, text@),
{
    match Regex::new(pattern) {
        Ok(re) => Some(
            re.captures_iter(text).map(
                |c| c.iter().map(|g| g.map(|m| (m.start(), m.end()))).collect(),
            ).collect(),
        ),
        Err(_) => None,
    }
}

/// The matches of `pattern` in `text`; none where `pattern` is no regular
/// expression, and none where what the search reports are not successive
/// matches of `text`.
pub open spec fn found(pattern: Seq<char>, text: Seq<char>) -> Seq<Captures> {
    match regex_captures(pattern, text) {
        Some(matches) => if matches_in(text, matches) {
            matches
        } else {
            Seq::empty()
        },
        None => Seq::empty(),
    }
}

/// What is found in a text are matches of that text.
pub proof fn lemma_found_in(pattern: Seq<char>, text: Seq<char>)
    ensures
        matches_in(text, found(pattern, text)),
{
}

/// Whether `span` can be cut out of `text`.
fn span_fits(text: &str, span: Span) -> (fits: bool)
    ensures
        fits == span_in(text@, span),
{
    span.0 <= span.1 && text.is_char_boundary(span.0) && text.is_char_boundary(span.1)
}

/// Whether `groups` is a match of `text`.
fn match_fits(text: &str, groups: &Groups) -> (fits: bool)
    ensures
        fits == match_in(text@, groups@),
{
    if groups.len() == 0 || groups[0].is_none() {
        return false;
    }
    let all = groups[0].unwrap();
    let mut j: usize = 0;
    while j < groups.len()
        invariant
            j <= groups.len(),
            groups@.len() >= 1,
            groups@[0] == Some(all),
            forall|k: int|
                0 <= k < j ==> ((#[trigger] groups@[k]) matches Some(span) ==> span_in(
                    text@,
                    span,
                ) && span_within(groups@, span)),
        decreases groups.len() - j,
    {
        match groups[j] {
            Some(span) => {
                if !span_fits(text, span) || all.0 > span.0 || span.1 > all.1 {
                    return false;
                }
            },
            None => {},
        }
        j += 1;
    }
    true
}

/// Whether `matches` are successive matches of `text`.
fn matches_fit(text: &str, matches: &Vec<Groups>) -> (fit: bool)
    ensures
        fit == matches_in(text@, groups_of(matches@)),
{
    let mut i: usize = 0;
    while i < matches.len()
        invariant
            i <= matches.len(),
            matches_in(text@, groups_of(matches@).take(i as int)),
        decreases matches.len() - i,
    {
        let ghost all = groups_of(matches@);
        if !match_fits(text, &matches[i]) {
            assert(!match_in(text@, all[i as int]));
            return false;
        }
        if i > 0 {
            assert(match_in(text@, all.take(i as int)[i - 1]));
            if matches[i - 1][0].unwrap().1 > matches[i][0].unwrap().0 {
                assert(whole(all[i - 1]).1 > whole(all[i as int]).0);
                return false;
            }
        }
        proof {
            let seen = all.take(i + 1);
            assert forall|k: int| 0 <= k < seen.len() implies match_in(
                text@,
                #[trigger] seen[k],
            ) by {
                if k < i {
                    assert(seen[k] == all.take(i as int)[k]);
                }
            }
            assert forall|k: int| 0 < k < seen.len() implies whole(seen[k - 1]).1 <= whole(
                #[trigger] seen[k],
            ).0 by {
                if k < i {
                    assert(seen[k] == all.take(i as int)[k]);
                    assert(seen[k - 1] == all.take(i as int)[k - 1]);
                }
            }
        }
        i += 1;
    }
    assert(groups_of(matches@).take(i as int) =~= groups_of(matches@));
    true
}

/// Searches `text` for all matches of `pattern`.
pub fn find_all(pattern: &str, text: &str) -> (matches: Vec<Groups>)
    ensures
        groups_of(matches@) == found(pattern@, text@),
        matches_in(text@, groups_of(matches@)),
{
    assert(groups_of(Seq::<Groups>::empty()) =~= Seq::empty());
    match captures_iter(pattern, text) {
        Some(matches) => {
            if matches_fit(text, &matches) {
                matches
            } else {
                Vec::new()
            }
        },
        None => Vec::new(),
    }
}

/// The byte offset up to which `text` is used once `n` matches are dealt with.
pub open spec fn resume_at(matches: Seq<Captures>, n: int) -> int {
    if n <= 0 {
        0
    } else {
        whole(matches[n - 1]).1 as int
    }
}

/// `text` up to the end of its `n`-th match, with each of these matches
/// replaced by the replacement of the same index.
pub open spec fn spliced_upto(
    text: Seq<char>,
    matches: Seq<Captures>,
    replacements: Seq<Seq<char>>,
    n: int,
) -> Seq<char>
    decreases n,
{
    if n <= 0 {
        Seq::empty()
    } else {
        spliced_upto(text, matches, replacements, n - 1) + byte_range(
            text,
            resume_at(matches, n - 1),
            whole(matches[n - 1]).0 as int,
        ) + replacements[n - 1]
    }
}

/// `text` with each match replaced by the replacement of the same index, and
/// all that lies between, before and after the matches kept.
pub open spec fn spliced(
    text: Seq<char>,
    matches: Seq<Captures>,
    replacements: Seq<Seq<char>>,
) -> Seq<char> {
    spliced_upto(text, matches, replacements, matches.len() as int) + byte_range(
        text,
        resume_at(matches, matches.len() as int),
        byte_len(text) as int,
    )
}

/// The text of a span.
pub open spec fn span_text(text: Seq<char>, span: Span) -> Seq<char> {
    byte_range(text, span.0 as int, span.1 as int)
}

/// The span that group `index` of a match took, if the pattern has such a
/// group and it took part.
pub open spec fn group_span(groups: Captures, index: int) -> Option<Span> {
    if 0 <= index < groups.len() {
        groups[index]
    } else {
        None
    }
}

/// Reads the span of group `index` of a match.
pub fn span_of(groups: &Groups, index: usize) -> (r: Option<Span>)
    ensures
        r == group_span(groups@, index as int),
{
    if index < groups.len() {
        groups[index]
    } else {
        None
    }
}

/// The text that group `index` of a match took, if the pattern has such a
/// group and it took part.
pub open spec fn group_text(text: Seq<char>, groups: Captures, index: int) -> Option<Seq<char>> {
    if 0 <= index < groups.len() {
        match groups[index] {
            Some(span) => Some(span_text(text, span)),
            None => None,
        }
    } else {
        None
    }
}

/// Cuts the text of group `index` of a match out of `text`.
pub fn group<'a>(text: &'a str, groups: &Groups, index: usize) -> (r: Option<&'a str>)
    requires
        match_in(text@, groups@),
    ensures
        text_of(r) == group_text(text@, groups@, index as int),
{
    if index < groups.len() {
        match groups[index] {
            Some(span) => Some(slice(text, span.0, span.1)),
            None => None,
        }
    } else {
        None
    }
}

/// Where the search resumes is a boundary, and no later than the next match.
pub proof fn lemma_resume_at(text: Seq<char>, matches: Seq<Captures>, n: int)
    requires
        matches_in(text, matches),
        0 <= n <= matches.len(),
    ensures
        is_boundary(text, resume_at(matches, n)),
        0 <= resume_at(matches, n) <= byte_len(text),
        n < matches.len() ==> resume_at(matches, n) <= whole(matches[n]).0,
{
    lemma_whole_range(text);
    if n > 0 {
        assert(match_in(text, matches[n - 1]));
        lemma_boundary_in_bounds(text, resume_at(matches, n));
    }
    if n < matches.len() {
        assert(match_in(text, matches[n]));
    }
}

/// Replaces each match in `text` by the replacement of the same index.
pub fn splice(text: &str, matches: &Vec<Groups>, replacements: &Vec<String>) -> (out: String)
    requires
        matches_in(text@, groups_of(matches@)),
        replacements.len() == matches.len(),
    ensures
        out@ == spliced(text@, groups_of(matches@), texts_of(replacements@)),
{
    let mut out = String::new();
    let mut last: usize = 0;
    let mut i: usize = 0;
    while i < matches.len()
        invariant
            i <= matches.len(),
            replacements.len() == matches.len(),
            matches_in(text@, groups_of(matches@)),
            last == resume_at(groups_of(matches@), i as int),
            out@ == spliced_upto(text@, groups_of(matches@), texts_of(replacements@), i as int),
        decreases matches.len() - i,
    {
        proof {
            lemma_resume_at(text@, groups_of(matches@), i as int);
            assert(match_in(text@, groups_of(matches@)[i as int]));
        }
        let span = matches[i][0].unwrap();
        out.append(slice(text, last, span.0));
        out.append(replacements[i].as_str());
        last = span.1;
        i += 1;
    }
    proof {
        lemma_resume_at(text@, groups_of(matches@), i as int);
        lemma_whole_range(text@);
    }
    out.append(slice(text, last, text.as_bytes().len()));
    out
}

/// Where every match is replaced by its own text, the text is as it was.
pub proof fn lemma_splice_same(
    text: Seq<char>,
    matches: Seq<Captures>,
    replacements: Seq<Seq<char>>,
)
    requires
        matches_in(text, matches),
        replacements.len() == matches.len(),
        forall|i: int|
            0 <= i < matches.len() ==> #[trigger] replacements[i] == span_text(
                text,
                whole(matches[i]),
            ),
    ensures
        spliced(text, matches, replacements) == text,
{
    lemma_splice_same_upto(text, matches, replacements, matches.len() as int);
    lemma_resume_at(text, matches, matches.len() as int);
    lemma_whole_range(text);
    lemma_ranges_join(text, 0, resume_at(matches, matches.len() as int), byte_len(text) as int);
}

proof fn lemma_splice_same_upto(
    text: Seq<char>,
    matches: Seq<Captures>,
    replacements: Seq<Seq<char>>,
    n: int,
)
    requires
        matches_in(text, matches),
        replacements.len() == matches.len(),
        0 <= n <= matches.len(),
        forall|i: int|
            0 <= i < matches.len() ==> #[trigger] replacements[i] == span_text(
                text,
                whole(matches[i]),
            ),
    ensures
        spliced_upto(text, matches, replacements, n) == byte_range(text, 0, resume_at(matches, n)),
    decreases n,
{
    lemma_whole_range(text);
    if n <= 0 {
        lemma_empty_range(text, 0);
    } else {
        lemma_splice_same_upto(text, matches, replacements, n - 1);
        lemma_resume_at(text, matches, n - 1);
        assert(match_in(text, matches[n - 1]));
        let span = whole(matches[n - 1]);
        lemma_ranges_join(text, 0, resume_at(matches, n - 1), span.0 as int);
        lemma_ranges_join(text, 0, span.0 as int, span.1 as int);
    }
}

/// What stands in a group of a match stands in the text.
pub proof fn lemma_group_within(text: Seq<char>, groups: Captures, index: int, c: char)
    requires
        match_in(text, groups),
        group_text(text, groups, index) matches Some(part) && part.contains(c),
    ensures
        text.contains(c),
{
    let span = groups[index].unwrap();
    lemma_range_within(text, span.0 as int, span.1 as int, c);
}

/// What stands in a spliced text stands in the text or in a replacement.
pub proof fn lemma_spliced_within(
    text: Seq<char>,
    matches: Seq<Captures>,
    replacements: Seq<Seq<char>>,
    c: char,
)
    requires
        matches_in(text, matches),
        replacements.len() == matches.len(),
        !text.contains(c),
        forall|i: int| 0 <= i < replacements.len() ==> !(#[trigger] replacements[i]).contains(c),
    ensures
        !spliced(text, matches, replacements).contains(c),
{
    let n = matches.len() as int;
    lemma_spliced_upto_within(text, matches, replacements, n, c);
    lemma_resume_at(text, matches, n);
    lemma_whole_range(text);
    let done = spliced_upto(text, matches, replacements, n);
    let rest = byte_range(text, resume_at(matches, n), byte_len(text) as int);
    if rest.contains(c) {
        lemma_range_within(text, resume_at(matches, n), byte_len(text) as int, c);
    }
    lemma_joined_without(done, rest, c);
}

proof fn lemma_spliced_upto_within(
    text: Seq<char>,
    matches: Seq<Captures>,
    replacements: Seq<Seq<char>>,
    n: int,
    c: char,
)
    requires
        matches_in(text, matches),
        replacements.len() == matches.len(),
        0 <= n <= matches.len(),
        !text.contains(c),
        forall|i: int| 0 <= i < replacements.len() ==> !(#[trigger] replacements[i]).contains(c),
    ensures
        !spliced_upto(text, matches, replacements, n).contains(c),
    decreases n,
{
    if n > 0 {
        lemma_spliced_upto_within(text, matches, replacements, n - 1, c);
        lemma_resume_at(text, matches, n - 1);
        assert(match_in(text, matches[n - 1]));
        let before = spliced_upto(text, matches, replacements, n - 1);
        let between = byte_range(text, resume_at(matches, n - 1), whole(matches[n - 1]).0 as int);
        if between.contains(c) {
            lemma_range_within(text, resume_at(matches, n - 1), whole(matches[n - 1]).0 as int, c);
        }
        lemma_joined_without(before, between, c);
        lemma_joined_without(before + between, replacements[n - 1], c);
    }
}

} // verus!
