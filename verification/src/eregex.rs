use crate::matcher::{
    find_all, found, groups_of, match_in, matches_in, span_text, whole, Captures, Groups,
};
use crate::text::{
    byte_len, byte_range, is_boundary, lemma_boundary_in_bounds, lemma_range_len,
    lemma_whole_range, slice,
};
use vstd::prelude::*;
use vstd::string::*;

verus! {

/// A part of a text: the byte offsets where it starts and ends, and what
/// stands between them.
#[derive(Debug, PartialEq)]
pub struct TextPart {
    pub start: usize,
    pub end: usize,
    pub text: String,
}

/// A part of a text as offsets and a sequence of characters.
pub ghost struct Part {
    pub start: int,
    pub end: int,
    pub text: Seq<char>,
}

impl View for TextPart {
    type V = Part;

    open spec fn view(&self) -> Part {
        Part { start: self.start as int, end: self.end as int, text: self.text@ }
    }
}

/// The unit of parsing. The simplest element is a regular expression; others
/// are made of simpler ones.
pub trait Element {
    /// What an element tells of a place where it was found.
    type Detail;

    /// Looks in `text`, from byte offset `start` on, for the first place that
    /// fits the element, and reads it.
    fn find_at(&self, text: &str, start: usize) -> Option<(TextPart, Self::Detail)>
        requires
            start < byte_len(text@) ==> is_boundary(text@, start as int),
    ;
}

/// An element that is one regular expression. Its first capture group is what
/// it tells of a place.
#[derive(Debug)]
pub struct BasicElement {
    pattern: String,
}

/// The part that the whole of the first of the given matches covers in `rest`,
/// which is the text from offset `start` on.
pub open spec fn whole_given(rest: Seq<char>, start: int, matches: Seq<Captures>) -> Option<Part> {
    if matches.len() == 0 {
        None
    } else {
        Some(
            Part {
                start: start + whole(matches[0]).0,
                end: start + whole(matches[0]).1,
                text: span_text(rest, whole(matches[0])),
            },
        )
    }
}

/// The part that group 1 of the first of the given matches covers in
/// `matched`, which stands in the whole text at offset `start`.
pub open spec fn detail_given(matched: Seq<char>, start: int, matches: Seq<Captures>) -> Option<
    Part,
> {
    if matches.len() > 0 && 1 < matches[0].len() && matches[0][1] is Some {
        Some(
            Part {
                start: start + matches[0][1].unwrap().0,
                end: start + matches[0][1].unwrap().1,
                text: span_text(matched, matches[0][1].unwrap()),
            },
        )
    } else {
        None
    }
}

/// The first place from offset `start` on where `pattern` fits `text`, and
/// what its first group covers when the pattern is put to that place alone.
pub open spec fn found_at(pattern: Seq<char>, text: Seq<char>, start: int) -> Option<(Part, Part)> {
    if start >= byte_len(text) {
        None
    } else {
        let rest = byte_range(text, start, byte_len(text) as int);
        match whole_given(rest, start, found(pattern, rest)) {
            Some(place) => match detail_given(
                place.text,
                place.start,
                found(pattern, place.text),
            ) {
                Some(detail) => Some((place, detail)),
                None => None,
            },
            None => None,
        }
    }
}

/// The view of a part that may be missing.
pub open spec fn part_of(part: Option<TextPart>) -> Option<Part> {
    match part {
        Some(part) => Some(part@),
        None => None,
    }
}

/// The views of two parts that may be missing.
pub open spec fn parts_of(parts: Option<(TextPart, TextPart)>) -> Option<(Part, Part)> {
    match parts {
        Some(parts) => Some((parts.0@, parts.1@)),
        None => None,
    }
}

/// Reads the whole of the first of the given matches of `rest`, which is a
/// text from offset `start` on.
pub fn whole_from(rest: &str, start: usize, matches: &Vec<Groups>) -> (part: Option<TextPart>)
    requires
        matches_in(rest@, groups_of(matches@)),
        start + byte_len(rest@) <= usize::MAX,
    ensures
        part_of(part) == whole_given(rest@, start as int, groups_of(matches@)),
{
    if matches.len() == 0 {
        return None;
    }
    assert(match_in(rest@, groups_of(matches@)[0]));
    let span = matches[0][0].unwrap();
    proof {
        lemma_boundary_in_bounds(rest@, span.1 as int);
    }
    Some(
        TextPart {
            start: start + span.0,
            end: start + span.1,
            text: String::from_str(slice(rest, span.0, span.1)),
        },
    )
}

/// Reads group 1 of the first of the given matches of `matched`, which
/// stands in the whole text at offset `start`.
pub fn detail_from(matched: &str, start: usize, matches: &Vec<Groups>) -> (part: Option<TextPart>)
    requires
        matches_in(matched@, groups_of(matches@)),
        start + byte_len(matched@) <= usize::MAX,
    ensures
        part_of(part) == detail_given(matched@, start as int, groups_of(matches@)),
{
    if matches.len() == 0 || matches[0].len() < 2 {
        return None;
    }
    assert(match_in(matched@, groups_of(matches@)[0]));
    match matches[0][1] {
        Some(span) => {
            proof {
                lemma_boundary_in_bounds(matched@, span.1 as int);
            }
            Some(
                TextPart {
                    start: start + span.0,
                    end: start + span.1,
                    text: String::from_str(slice(matched, span.0, span.1)),
                },
            )
        },
        None => None,
    }
}

impl BasicElement {
    /// An element for the regular expression `pattern`.
    pub fn new(pattern: &str) -> (element: BasicElement)
        ensures
            element.pattern() == pattern@,
    {
        BasicElement { pattern: String::from_str(pattern) }
    }

    /// The regular expression of the element.
    pub closed spec fn pattern(&self) -> Seq<char> {
        self.pattern@
    }
}

impl Element for BasicElement {
    type Detail = TextPart;

    fn find_at(&self, text: &str, start: usize) -> (found: Option<(TextPart, TextPart)>)
        ensures
            parts_of(found) == found_at(self.pattern(), text@, start as int),
    {
        let len: usize = text.as_bytes().len();
        if start >= len {
            return None;
        }
        proof {
            lemma_whole_range(text@);
            lemma_range_len(text@, start as int, len as int);
        }
        let rest = slice(text, start, len);
        let outer = find_all(self.pattern.as_str(), rest);
        match whole_from(rest, start, &outer) {
            Some(place) => {
                proof {
                    assert(match_in(rest@, groups_of(outer@)[0]));
                    let span = whole(groups_of(outer@)[0]);
                    lemma_boundary_in_bounds(rest@, span.1 as int);
                    lemma_range_len(rest@, span.0 as int, span.1 as int);
                }
                let inner = find_all(self.pattern.as_str(), place.text.as_str());
                match detail_from(place.text.as_str(), place.start, &inner) {
                    Some(detail) => Some((place, detail)),
                    None => None,
                }
            },
            None => None,
        }
    }
}

} // verus!
