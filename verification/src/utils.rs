use crate::text::{is_space, no_space, same};
use vstd::prelude::*;

verus! {

/// The reserved words that may stand before a parenthesis without naming a
/// function.
pub open spec fn is_keyword_text(word: Seq<char>) -> bool {
    word == "if"@ || word == "while"@ || word == "for"@ || word == "final"@ || word == "class"@
}

/// A reserved word is not empty and holds neither white space nor a
/// parenthesis.
pub proof fn lemma_keyword_is_word(word: Seq<char>)
    requires
        is_keyword_text(word),
    ensures
        word.len() > 0,
        no_space(word),
        !word.contains('('),
{
    reveal_strlit("if");
    reveal_strlit("while");
    reveal_strlit("for");
    reveal_strlit("final");
    reveal_strlit("class");
    assert forall|i: int| 0 <= i < word.len() implies !is_space(#[trigger] word[i]) && word[i]
        != '(' by {
        assert(word.len() <= 5);
        assert(i == 0 || i == 1 || i == 2 || i == 3 || i == 4);
    }
    if word.contains('(') {
        let i = choose|i: int| 0 <= i < word.len() && word[i] == '(';
        assert(word[i] != '(');
    }
}

/// Whether `word` is one of the reserved words.
pub fn is_keyword(word: &str) -> (r: bool)
    ensures
        r == is_keyword_text(word@),
{
    same(word, "if") || same(word, "while") || same(word, "for") || same(word, "final") || same(
        word,
        "class",
    )
}

} // verus!
