use vstd::prelude::*;

pub mod cleanup;
pub mod eregex;
pub mod funcs;
pub mod matcher;
pub mod text;
pub mod tokens;
pub mod utils;

verus! {

/// `text` without its import lines and with the head of each function
/// declaration rewritten.
pub open spec fn transpiled(text: Seq<char>) -> Seq<char> {
    funcs::headers_rewritten(cleanup::imports_removed(text))
}

/// Rewrites a source text: the import lines go, and the head of each function
/// declaration is rewritten.
pub fn transpile(input: &str) -> (out: String)
    ensures
        out@ == transpiled(input@),
{
    let result = cleanup::remove_import(input);
    funcs::transpile_func_head(result.as_str())
}

} // verus!
