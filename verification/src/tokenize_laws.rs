//! What holds of the arguments cut from a list, for all inputs.

use crate::text::brace_free;
use crate::text::white_space;
use crate::tokenize::comma_split;
use crate::tokenize::depth;
use crate::tokenize::is_separator;
use crate::tokenize::kept;
use crate::tokenize::lemma_kept_push;
use crate::tokenize::lemma_trim_start_blank;
use crate::tokenize::pieces;
use crate::tokenize::tokens;
use crate::tokenize::trim_end;
use crate::tokenize::trim_start;
use crate::tokenize::trimmed;
use vstd::prelude::*;

verus! {

/// The pieces in `ps` with a comma between each two of them.
pub open spec fn comma_joined(ps: Seq<Seq<char>>) -> Seq<char>
    decreases ps.len(),
{
    if ps.len() == 0 {
        Seq::empty()
    } else if ps.len() == 1 {
        ps[0]
    } else {
        comma_joined(ps.drop_last()).push(',') + ps.last()
    }
}

/// Empty text holds no argument.
pub proof fn lemma_tokens_of_empty()
    ensures
        tokens(Seq::empty()) == Seq::<Seq<char>>::empty(),
{
    lemma_kept_push(Seq::empty(), Seq::empty());
    assert(pieces(Seq::empty()) == Seq::<Seq<char>>::empty().push(Seq::empty()));
    assert(kept(Seq::empty()) == Seq::<Seq<char>>::empty()) by {
        reveal(Seq::filter);
    }
}

/// A piece trims to nothing if and only if it holds whitespace alone. Such
/// pieces, the empty one among them, leave no argument.
pub proof fn lemma_blank_piece_is_dropped(ps: Seq<Seq<char>>, p: Seq<char>)
    ensures
        trimmed(p).len() == 0 <==> forall|k: int| 0 <= k < p.len() ==> white_space(#[trigger] p[k]),
        trimmed(p).len() == 0 ==> kept(ps.push(p)) == kept(ps),
{
    lemma_kept_push(ps, p);
    lemma_trimmed_shape(p);
    if forall|k: int| 0 <= k < p.len() ==> white_space(#[trigger] p[k]) {
        lemma_trim_start_blank(p);
    }
    if trimmed(p).len() == 0 {
        lemma_trim_start_shape(p);
        lemma_trim_end_blank(trim_start(p));
        assert forall|k: int| 0 <= k < p.len() implies white_space(#[trigger] p[k]) by {
            lemma_trim_start_prefix(p, k);
        }
    }
}

/// Without braces the depth is zero.
pub proof fn lemma_depth_of_brace_free(s: Seq<char>)
    requires
        brace_free(s),
    ensures
        depth(s) == 0,
    decreases s.len(),
{
    if s.len() > 0 {
        lemma_depth_of_brace_free(s.drop_last());
    }
}

/// Without braces every comma separates: the arguments are the pieces
/// between the commas, each trimmed, without the empty ones.
pub proof fn lemma_tokens_without_braces(s: Seq<char>)
    requires
        brace_free(s),
    ensures
        pieces(s) == comma_split(s),
        tokens(s) == kept(comma_split(s)),
    decreases s.len(),
{
    if s.len() > 0 {
        lemma_tokens_without_braces(s.drop_last());
        lemma_depth_of_brace_free(s.drop_last());
        assert(s.take(s.len() - 1) == s.drop_last());
    }
}

/// Cutting loses the separators and nothing else: the pieces, with a comma
/// between each two, are the text.
pub proof fn lemma_pieces_join(s: Seq<char>)
    ensures
        pieces(s).len() > 0,
        comma_joined(pieces(s)) == s,
    decreases s.len(),
{
    if s.len() > 0 {
        let head = s.drop_last();
        let before = pieces(head);
        lemma_pieces_join(head);
        assert(head.push(s.last()) == s);
        if is_separator(s, s.len() - 1) {
            assert(before.push(Seq::empty()).drop_last() == before);
            assert(comma_joined(before).push(',') + Seq::<char>::empty() == s);
        } else {
            let grown = before.last().push(s.last());
            let after = before.update(before.len() - 1, grown);
            if before.len() == 1 {
                assert(grown == s);
            } else {
                assert(after.drop_last() == before.drop_last());
                assert(comma_joined(before.drop_last()).push(',') + grown == (comma_joined(
                    before.drop_last(),
                ).push(',') + before.last()).push(s.last()));
            }
        }
    }
}

/// The last piece is the end of the text.
pub proof fn lemma_last_piece_is_suffix(s: Seq<char>)
    ensures
        pieces(s).len() > 0,
        pieces(s).last().len() <= s.len(),
        pieces(s).last() == s.skip(s.len() - pieces(s).last().len()),
    decreases s.len(),
{
    if s.len() > 0 {
        lemma_last_piece_is_suffix(s.drop_last());
    }
}

/// Where the depth does not come back to zero, no comma separates: with an
/// unmatched brace before index `from`, all of the text from there on lies
/// in the last piece.
pub proof fn lemma_unbalanced_rest_is_one_piece(s: Seq<char>, from: int)
    requires
        0 <= from <= s.len(),
        forall|j: int| from <= j < s.len() ==> #[trigger] depth(s.take(j)) != 0,
    ensures
        pieces(s).len() > 0,
        pieces(s).last().len() >= s.len() - from,
    decreases s.len(),
{
    lemma_last_piece_is_suffix(s);
    if s.len() > from {
        let head = s.drop_last();
        assert forall|j: int| from <= j < head.len() implies #[trigger] depth(head.take(j))
            != 0 by {
            assert(head.take(j) == s.take(j));
        }
        lemma_unbalanced_rest_is_one_piece(head, from);
        assert(depth(s.take(s.len() - 1)) != 0);
    }
}

/// Trimming the start leaves nothing, or text that starts with a character
/// that is not whitespace; the end of the text is kept.
proof fn lemma_trim_start_shape(s: Seq<char>)
    ensures
        trim_start(s).len() <= s.len(),
        trim_start(s) == s.skip(s.len() - trim_start(s).len()),
        trim_start(s).len() > 0 ==> !white_space(trim_start(s).first()),
    decreases s.len(),
{
    if s.len() > 0 && white_space(s.first()) {
        lemma_trim_start_shape(s.drop_first());
        let n = trim_start(s).len();
        assert(s.drop_first().skip(s.len() - 1 - n) == s.skip(s.len() - n));
    } else {
        assert(s.skip(0) == s);
    }
}

/// What trimming the start drops is whitespace.
proof fn lemma_trim_start_prefix(s: Seq<char>, k: int)
    requires
        0 <= k < s.len() - trim_start(s).len(),
    ensures
        white_space(s[k]),
    decreases s.len(),
{
    if k > 0 {
        lemma_trim_start_prefix(s.drop_first(), k - 1);
    }
}

/// If trimming the end leaves nothing, the text is whitespace alone, and
/// trimming its start leaves nothing either.
proof fn lemma_trim_end_blank(s: Seq<char>)
    requires
        trim_end(s).len() == 0,
    ensures
        s.len() > 0 ==> white_space(s.first()),
    decreases s.len(),
{
    if s.len() > 1 {
        lemma_trim_end_blank(s.drop_last());
    }
}

/// Trimming the end leaves nothing, or text that ends with a character
/// that is not whitespace; the start of the text is kept.
proof fn lemma_trim_end_shape(s: Seq<char>)
    ensures
        trim_end(s).len() <= s.len(),
        trim_end(s) == s.take(trim_end(s).len() as int),
        trim_end(s).len() > 0 ==> !white_space(trim_end(s).last()),
    decreases s.len(),
{
    if s.len() > 0 && white_space(s.last()) {
        lemma_trim_end_shape(s.drop_last());
        let n = trim_end(s).len() as int;
        assert(s.drop_last().take(n) == s.take(n));
    } else {
        assert(s.take(s.len() as int) == s);
    }
}

/// Trimmed text is a stretch of the text it was trimmed from, and if it is
/// not empty, whitespace stands neither at its start nor at its end.
pub proof fn lemma_trimmed_shape(s: Seq<char>)
    ensures
        exists|from: int, to: int| 0 <= from <= to <= s.len() && trimmed(s) == s.subrange(from, to),
        trimmed(s).len() > 0 ==> !white_space(trimmed(s).first()) && !white_space(
            trimmed(s).last(),
        ),
{
    lemma_trim_start_shape(s);
    lemma_trim_end_shape(trim_start(s));
    let from = s.len() - trim_start(s).len();
    let to = from + trimmed(s).len();
    assert(trimmed(s) == s.subrange(from, to));
    if trimmed(s).len() > 0 {
        assert(trimmed(s).first() == trim_start(s).first());
    }
}

/// Every argument holds at least one character, and whitespace stands
/// neither at its start nor at its end.
pub proof fn lemma_tokens_are_trimmed(s: Seq<char>)
    ensures
        forall|k: int|
            0 <= k < tokens(s).len() ==> {
                &&& (#[trigger] tokens(s)[k]).len() > 0
                &&& !white_space(tokens(s)[k].first())
                &&& !white_space(tokens(s)[k].last())
            },
{
    let trim = |p: Seq<char>| trimmed(p);
    let full = |t: Seq<char>| t.len() > 0;
    let all = pieces(s).map_values(trim);
    assert forall|k: int| 0 <= k < tokens(s).len() implies {
        &&& (#[trigger] tokens(s)[k]).len() > 0
        &&& !white_space(tokens(s)[k].first())
        &&& !white_space(tokens(s)[k].last())
    } by {
        let t = tokens(s)[k];
        all.lemma_filter_pred(full, k);
        assert(all.filter(full).contains(t));
        all.lemma_filter_contains_rev(full, t);
        let j = choose|j: int| 0 <= j < all.len() && all[j] == t;
        lemma_trimmed_shape(pieces(s)[j]);
    }
}

} // verus!
