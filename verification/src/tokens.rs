use crate::eregex::{found_at, parts_of, BasicElement, Element, TextPart};
use vstd::prelude::*;

verus! {

/// A word, with the white space before it. Group 1 is the word.
pub const WORD_PATTERN: &'static str = r"^\s*\b(\w+)\b";

/// The element that finds a word.
pub struct Word {
    element: BasicElement,
}

impl Word {
    /// The element that finds a word.
    pub fn new() -> (word: Word)
        ensures
            word.pattern() == WORD_PATTERN@,
    {
        Word { element: BasicElement::new(WORD_PATTERN) }
    }

    /// The regular expression that the element looks for.
    pub closed spec fn pattern(&self) -> Seq<char> {
        self.element.pattern()
    }

    /// A word element looks for words.
    #[verifier::type_invariant]
    spec fn looks_for_words(self) -> bool {
        self.pattern() == WORD_PATTERN@
    }
}

impl Element for Word {
    type Detail = TextPart;

    fn find_at(&self, text: &str, start: usize) -> (found: Option<(TextPart, TextPart)>)
        ensures
            parts_of(found) == found_at(WORD_PATTERN@, text@, start as int),
    {
        proof {
            use_type_invariant(self);
        }
        self.element.find_at(text, start)
    }
}

} // verus!
