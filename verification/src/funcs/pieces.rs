use crate::text::{
    all_space, chars_of, is_space, leading_spaces, lemma_leading_spaces, lemma_trimmed_shape,
    texts_of, trailing_spaces, trim, trimmed,
};
use vstd::prelude::*;
use vstd::string::*;

verus! {

/// How deep in angle brackets and parentheses a scan stands behind `c`, where
/// it stood `depth` deep before it. A closing bracket that closes nothing
/// counts for nothing.
pub open spec fn depth_behind(depth: nat, c: char) -> nat {
    if c == '<' || c == '(' {
        depth + 1
    } else if (c == '>' || c == ')') && depth > 0 {
        (depth - 1) as nat
    } else {
        depth
    }
}

/// How deep in brackets a scan stands behind `s`, where it stood `depth` deep
/// before it.
pub open spec fn depth_after(s: Seq<char>, depth: nat) -> nat
    decreases s.len(),
{
    if s.len() == 0 {
        depth
    } else {
        depth_behind(depth_after(s.drop_last(), depth), s.last())
    }
}

/// Whether `s` ends with a comma that cuts it: with `deep`, a comma outside
/// all brackets, without it any comma.
pub open spec fn ends_piece(s: Seq<char>, deep: bool) -> bool {
    s.len() > 0 && s.last() == ',' && (!deep || depth_after(s.drop_last(), 0) == 0)
}

/// Whether no comma cuts `s`.
pub open spec fn unsplit(s: Seq<char>, deep: bool) -> bool {
    forall|at: int| 0 <= at < s.len() ==> !ends_piece(#[trigger] s.take(at + 1), deep)
}

/// Whether `s` can be one item of a parameter list: it is not empty, and it
/// holds no comma at all, or each comma in it stands within brackets that are
/// opened before it and closed behind it.
pub open spec fn is_item(s: Seq<char>) -> bool {
    s.len() > 0 && (unsplit(s, false) || (unsplit(s, true) && depth_after(s, 0) == 0))
}

/// Whether each of `items` can be one item of a parameter list.
pub open spec fn all_items(items: Seq<Seq<char>>) -> bool {
    forall|i: int| 0 <= i < items.len() ==> is_item(#[trigger] items[i])
}

/// What `s` holds behind the last comma that cuts it.
pub open spec fn open_piece(s: Seq<char>, deep: bool) -> Seq<char>
    decreases s.len(),
{
    if s.len() == 0 || ends_piece(s, deep) {
        Seq::empty()
    } else {
        open_piece(s.drop_last(), deep).push(s.last())
    }
}

/// `s` without the white space at its ends as one piece, or no piece where
/// nothing is left.
pub open spec fn kept(s: Seq<char>) -> Seq<Seq<char>> {
    if trimmed(s).len() == 0 {
        Seq::empty()
    } else {
        seq![trimmed(s)]
    }
}

/// The pieces of `s` that a comma ends, in their order, each without the white
/// space at its ends; a piece of white space alone is left out.
pub open spec fn done_pieces(s: Seq<char>, deep: bool) -> Seq<Seq<char>>
    decreases s.len(),
{
    if s.len() == 0 {
        Seq::empty()
    } else if ends_piece(s, deep) {
        done_pieces(s.drop_last(), deep) + kept(open_piece(s.drop_last(), deep))
    } else {
        done_pieces(s.drop_last(), deep)
    }
}

/// The pieces of what stands behind the last comma outside brackets. Where a
/// bracket is left open in it, no comma in it is sure to stand within
/// brackets, and it is cut at every comma.
pub open spec fn last_pieces(rest: Seq<char>) -> Seq<Seq<char>> {
    if depth_after(rest, 0) == 0 {
        kept(rest)
    } else {
        done_pieces(rest, false) + kept(open_piece(rest, false))
    }
}

/// The pieces into which the commas outside brackets cut `s`.
pub open spec fn pieces(s: Seq<char>) -> Seq<Seq<char>> {
    done_pieces(s, true) + last_pieces(open_piece(s, true))
}

/// A scan through two texts in a row is a scan through the second that starts
/// where the scan through the first ended.
pub proof fn lemma_depth_after_both(first: Seq<char>, second: Seq<char>, depth: nat)
    ensures
        depth_after(first + second, depth) == depth_after(second, depth_after(first, depth)),
    decreases second.len(),
{
    if second.len() == 0 {
        assert(first + second =~= first);
    } else {
        assert((first + second).drop_last() =~= first + second.drop_last());
        lemma_depth_after_both(first, second.drop_last(), depth);
    }
}

/// White space leaves the depth as it is.
pub proof fn lemma_depth_after_space(s: Seq<char>, depth: nat)
    requires
        all_space(s),
    ensures
        depth_after(s, depth) == depth,
    decreases s.len(),
{
    if s.len() > 0 {
        assert(is_space(s.last()));
        assert forall|i: int| 0 <= i < s.drop_last().len() implies is_space(
            #[trigger] s.drop_last()[i],
        ) by {
            assert(s.drop_last()[i] == s[i]);
        }
        lemma_depth_after_space(s.drop_last(), depth);
    }
}

/// What stands behind the last comma that cuts a text is cut by no comma, and
/// a scan stands as deep behind it as behind the whole text.
pub proof fn lemma_open_piece(s: Seq<char>, deep: bool)
    ensures
        unsplit(open_piece(s, deep), deep),
        deep ==> depth_after(open_piece(s, deep), 0) == depth_after(s, 0),
        open_piece(s, deep).len() <= s.len(),
        open_piece(s, deep) == s.skip(s.len() - open_piece(s, deep).len()),
    decreases s.len(),
{
    if s.len() == 0 {
        assert(open_piece(s, deep) =~= s.skip(0));
    } else if ends_piece(s, deep) {
        assert(open_piece(s, deep) =~= s.skip(s.len() as int));
    } else {
        let rest = s.drop_last();
        let before = open_piece(rest, deep);
        let piece = open_piece(s, deep);
        lemma_open_piece(rest, deep);
        assert(piece.drop_last() =~= before);
        assert(piece =~= s.skip(s.len() - piece.len())) by {
            assert(before == rest.skip(rest.len() - before.len()));
        }
        assert forall|at: int| 0 <= at < piece.len() implies !ends_piece(
            #[trigger] piece.take(at + 1),
            deep,
        ) by {
            if at + 1 < piece.len() {
                assert(piece.take(at + 1) =~= before.take(at + 1));
            } else {
                assert(piece.take(at + 1) =~= piece);
            }
        }
    }
}

/// A text that no comma cuts is cut by none without the white space at its
/// ends either, and a scan stands as deep behind it.
pub proof fn lemma_trimmed_unsplit(s: Seq<char>, deep: bool)
    requires
        unsplit(s, deep),
    ensures
        unsplit(trimmed(s), deep),
        depth_after(trimmed(s), 0) == depth_after(s, 0),
{
    let inner = trimmed(s);
    lemma_trimmed_shape(s);
    lemma_leading_spaces(s);
    let lead = leading_spaces(s) as int;
    let spaces = s.take(lead);
    assert(all_space(spaces)) by {
        assert forall|i: int| 0 <= i < spaces.len() implies is_space(#[trigger] spaces[i]) by {
            assert(spaces[i] == s[i]);
        }
    }
    lemma_depth_after_space(spaces, 0);
    assert forall|at: int| 0 <= at < inner.len() implies !ends_piece(
        #[trigger] inner.take(at + 1),
        deep,
    ) by {
        assert(s.take(lead + at + 1).drop_last() =~= spaces + inner.take(at + 1).drop_last());
        lemma_depth_after_both(spaces, inner.take(at + 1).drop_last(), 0);
        assert(!ends_piece(s.take(lead + at + 1), deep));
        assert(s.take(lead + at + 1).last() == inner.take(at + 1).last());
    }
    if inner.len() == 0 {
        assert(inner =~= Seq::<char>::empty());
        assert(all_space(s));
        lemma_depth_after_space(s, 0);
    } else {
        let tail = s.skip(s.len() - trailing_spaces(s));
        assert(all_space(tail)) by {
            assert forall|i: int| 0 <= i < tail.len() implies is_space(#[trigger] tail[i]) by {
                assert(tail[i] == s[s.len() - trailing_spaces(s) + i]);
            }
        }
        assert(s =~= spaces + inner + tail);
        lemma_depth_after_both(spaces + inner, tail, 0);
        lemma_depth_after_both(spaces, inner, 0);
        lemma_depth_after_space(tail, depth_after(spaces + inner, 0));
    }
}

/// What is kept of a text that no comma cuts, and in which with `deep` every
/// bracket is closed, can be an item.
pub proof fn lemma_kept_items(s: Seq<char>, deep: bool)
    requires
        unsplit(s, deep),
        deep ==> depth_after(s, 0) == 0,
    ensures
        all_items(kept(s)),
{
    lemma_trimmed_unsplit(s, deep);
}

/// Two rows of items in a row are a row of items.
pub proof fn lemma_all_items_both(first: Seq<Seq<char>>, second: Seq<Seq<char>>)
    requires
        all_items(first),
        all_items(second),
    ensures
        all_items(first + second),
{
    assert forall|i: int| 0 <= i < (first + second).len() implies is_item(
        #[trigger] (first + second)[i],
    ) by {
        if i < first.len() {
            assert((first + second)[i] == first[i]);
        } else {
            assert((first + second)[i] == second[i - first.len()]);
        }
    }
}

/// Every piece that a comma ends can be an item.
pub proof fn lemma_done_pieces_are_items(s: Seq<char>, deep: bool)
    ensures
        all_items(done_pieces(s, deep)),
    decreases s.len(),
{
    if s.len() > 0 {
        lemma_done_pieces_are_items(s.drop_last(), deep);
        if ends_piece(s, deep) {
            lemma_open_piece(s.drop_last(), deep);
            lemma_kept_items(open_piece(s.drop_last(), deep), deep);
            lemma_all_items_both(
                done_pieces(s.drop_last(), deep),
                kept(open_piece(s.drop_last(), deep)),
            );
        }
    }
}

/// The pieces of a rest that no comma outside brackets cuts can each be an
/// item.
pub proof fn lemma_last_pieces(rest: Seq<char>)
    requires
        unsplit(rest, true),
    ensures
        all_items(last_pieces(rest)),
{
    lemma_open_piece(rest, false);
    lemma_kept_items(open_piece(rest, false), false);
    lemma_done_pieces_are_items(rest, false);
    lemma_all_items_both(done_pieces(rest, false), kept(open_piece(rest, false)));
    if depth_after(rest, 0) == 0 {
        lemma_kept_items(rest, true);
    }
}

/// Every piece can be an item: it is not empty, and each comma in it stands
/// within brackets.
pub proof fn lemma_pieces_are_items(s: Seq<char>)
    ensures
        all_items(pieces(s)),
{
    lemma_open_piece(s, true);
    lemma_last_pieces(open_piece(s, true));
    lemma_done_pieces_are_items(s, true);
    lemma_all_items_both(done_pieces(s, true), last_pieces(open_piece(s, true)));
}

/// Adds what is kept of `piece`.
pub fn push_kept(items: &mut Vec<String>, piece: &str)
    ensures
        texts_of(final(items)@) == texts_of(old(items)@) + kept(piece@),
{
    let inner = trim(piece);
    if !inner.is_empty() {
        items.push(String::from_str(inner));
        assert(texts_of(items@) =~= texts_of(old(items)@) + seq![inner@]);
    } else {
        assert(texts_of(items@) =~= texts_of(old(items)@) + Seq::<Seq<char>>::empty());
    }
}

/// Cuts `text` at each comma, with `deep` at each comma outside brackets: the
/// pieces that a comma ends, what stands behind the last such comma, as it
/// is, and whether every bracket in the text is closed.
pub fn split_pieces<'a>(text: &'a str, deep: bool) -> (r: (Vec<String>, &'a str, bool))
    ensures
        texts_of(r.0@) == done_pieces(text@, deep),
        r.1@ == open_piece(text@, deep),
        r.2 == (depth_after(text@, 0) == 0),
{
    let v = chars_of(text);
    let mut done: Vec<String> = Vec::new();
    let mut from: usize = 0;
    let mut depth: usize = 0;
    let mut i: usize = 0;
    assert(texts_of(done@) =~= Seq::<Seq<char>>::empty());
    assert(v@.take(0) =~= Seq::<char>::empty());
    assert(v@.subrange(0, 0) =~= Seq::<char>::empty());
    while i < v.len()
        invariant
            from <= i <= v.len(),
            v@ == text@,
            depth <= i,
            depth == depth_after(v@.take(i as int), 0),
            texts_of(done@) == done_pieces(v@.take(i as int), deep),
            v@.subrange(from as int, i as int) == open_piece(v@.take(i as int), deep),
        decreases v.len() - i,
    {
        let c = v[i];
        proof {
            let seen = v@.take(i + 1);
            assert(seen.drop_last() =~= v@.take(i as int));
            assert(seen.last() == c);
        }
        if c == ',' && (!deep || depth == 0) {
            push_kept(&mut done, text.substring_char(from, i));
            from = i + 1;
            assert(v@.subrange(from as int, i + 1) =~= Seq::<char>::empty());
        } else {
            assert(v@.subrange(from as int, i + 1) =~= v@.subrange(from as int, i as int).push(c));
        }
        if c == '<' || c == '(' {
            depth += 1;
        } else if (c == '>' || c == ')') && depth > 0 {
            depth -= 1;
        }
        i += 1;
    }
    assert(v@.take(i as int) =~= v@);
    (done, text.substring_char(from, v.len()), depth == 0)
}

/// Cuts `text` into items at each comma outside brackets.
pub fn split_at_commas(text: &str) -> (r: Vec<String>)
    ensures
        texts_of(r@) == pieces(text@),
        all_items(texts_of(r@)),
{
    let (mut done, rest, closed) = split_pieces(text, true);
    proof {
        lemma_open_piece(text@, true);
        lemma_pieces_are_items(text@);
    }
    if closed {
        push_kept(&mut done, rest);
    } else {
        let (mut more, last, _) = split_pieces(rest, false);
        push_kept(&mut more, last);
        let ghost before = done@;
        let ghost added = more@;
        done.append(&mut more);
        assert(texts_of(done@) =~= texts_of(before) + texts_of(added));
    }
    done
}

} // verus!
