use crate::matcher::{find_all, found, groups_of, matches_in, splice, spliced, Captures, Groups};
use crate::text::texts_of;
use vstd::prelude::*;

verus! {

/// A run of import lines with the empty lines behind it.
pub const IMPORT_PATTERN: &'static str = r"(^import\s+.*\n)*(import\s+.*)(\s*\n)*";

/// As many empty texts as there are matches.
pub open spec fn nothing_for_each(matches: Seq<Captures>) -> Seq<Seq<char>> {
    Seq::new(matches.len(), |i: int| Seq::empty())
}

/// `text` without the given matches.
pub open spec fn removed_given(text: Seq<char>, matches: Seq<Captures>) -> Seq<char> {
    spliced(text, matches, nothing_for_each(matches))
}

/// `text` without its import lines.
pub open spec fn imports_removed(text: Seq<char>) -> Seq<char> {
    removed_given(text, found(IMPORT_PATTERN@, text))
}

/// Cuts the given matches out of `text`.
pub fn remove_from(text: &str, matches: &Vec<Groups>) -> (out: String)
    requires
        matches_in(text@, groups_of(matches@)),
    ensures
        out@ == removed_given(text@, groups_of(matches@)),
{
    let mut nothing: Vec<String> = Vec::new();
    let mut i: usize = 0;
    while i < matches.len()
        invariant
            i <= matches.len(),
            nothing.len() == i,
            forall|k: int| 0 <= k < i ==> (#[trigger] nothing@[k])@ == Seq::<char>::empty(),
        decreases matches.len() - i,
    {
        nothing.push(String::new());
        i += 1;
    }
    assert(texts_of(nothing@) =~= nothing_for_each(groups_of(matches@)));
    splice(text, matches, &nothing)
}

/// Removes the import lines from `input`.
pub fn remove_import(input: &str) -> (out: String)
    ensures
        out@ == imports_removed(input@),
{
    let matches = find_all(IMPORT_PATTERN, input);
    remove_from(input, &matches)
}

} // verus!
