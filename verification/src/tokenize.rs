//! Cutting an argument list into its arguments.
//!
//! Commas separate the arguments, but not inside braces: a comma counts only
//! where as many braces have closed as have opened before it. Each piece is
//! trimmed, and the pieces that are left empty are dropped.

use crate::text::brace_free;
use crate::text::char_range;
use crate::tokenize_laws::lemma_tokens_without_braces;
use crate::text::white_space;
use vstd::prelude::*;
use vstd::std_specs::iter::IteratorSpec;

verus! {

/// What the character `c` adds to the brace depth.
pub open spec fn depth_step(c: char) -> int {
    if c == '{' {
        1
    } else if c == '}' {
        -1
    } else {
        0
    }
}

/// The brace depth after `s`: the opening braces in `s` minus the closing
/// ones. It is negative where more have closed than opened.
pub open spec fn depth(s: Seq<char>) -> int
    decreases s.len(),
{
    if s.len() == 0 {
        0
    } else {
        depth(s.drop_last()) + depth_step(s.last())
    }
}

/// Whether the character at index `i` of `s` separates two arguments: it is a
/// comma, and the depth before it is zero.
pub open spec fn is_separator(s: Seq<char>, i: int) -> bool {
    0 <= i < s.len() && s[i] == ',' && depth(s.take(i)) == 0
}

/// `s` cut at its separators. The separators themselves are dropped, so `n`
/// separators leave `n + 1` pieces, some of which may be empty.
pub open spec fn pieces(s: Seq<char>) -> Seq<Seq<char>>
    decreases s.len(),
{
    if s.len() == 0 {
        seq![Seq::empty()]
    } else if is_separator(s, s.len() - 1) {
        pieces(s.drop_last()).push(Seq::empty())
    } else {
        pieces(s.drop_last()).update(
            pieces(s.drop_last()).len() - 1,
            pieces(s.drop_last()).last().push(s.last()),
        )
    }
}

/// `s` cut at every comma, whatever stands around it.
pub open spec fn comma_split(s: Seq<char>) -> Seq<Seq<char>>
    decreases s.len(),
{
    if s.len() == 0 {
        seq![Seq::empty()]
    } else if s.last() == ',' {
        comma_split(s.drop_last()).push(Seq::empty())
    } else {
        comma_split(s.drop_last()).update(
            comma_split(s.drop_last()).len() - 1,
            comma_split(s.drop_last()).last().push(s.last()),
        )
    }
}

/// `s` without the whitespace at its start.
pub open spec fn trim_start(s: Seq<char>) -> Seq<char>
    decreases s.len(),
{
    if s.len() > 0 && white_space(s.first()) {
        trim_start(s.drop_first())
    } else {
        s
    }
}

/// `s` without the whitespace at its end.
pub open spec fn trim_end(s: Seq<char>) -> Seq<char>
    decreases s.len(),
{
    if s.len() > 0 && white_space(s.last()) {
        trim_end(s.drop_last())
    } else {
        s
    }
}

/// `s` without the whitespace at its start and at its end.
pub open spec fn trimmed(s: Seq<char>) -> Seq<char> {
    trim_end(trim_start(s))
}

/// The pieces in `ps`, each trimmed, without those that trimming leaves empty.
pub open spec fn kept(ps: Seq<Seq<char>>) -> Seq<Seq<char>> {
    ps.map_values(|p: Seq<char>| trimmed(p)).filter(|t: Seq<char>| t.len() > 0)
}

/// The arguments in `s`.
pub open spec fn tokens(s: Seq<char>) -> Seq<Seq<char>> {
    kept(pieces(s))
}

/// The characters of each string slice in `parts`.
pub open spec fn views(parts: Seq<&str>) -> Seq<Seq<char>> {
    parts.map_values(|part: &str| part@)
}

/// The depth after `s` lies within the length of `s`.
proof fn lemma_depth_bounds(s: Seq<char>)
    ensures
        -s.len() <= depth(s) <= s.len(),
    decreases s.len(),
{
    if s.len() > 0 {
        lemma_depth_bounds(s.drop_last());
    }
}

/// Keeping from a list with one more piece.
pub proof fn lemma_kept_push(ps: Seq<Seq<char>>, p: Seq<char>)
    ensures
        kept(ps.push(p)) == if trimmed(p).len() > 0 {
            kept(ps).push(trimmed(p))
        } else {
            kept(ps)
        },
{
    let trim = |p: Seq<char>| trimmed(p);
    let full = |t: Seq<char>| t.len() > 0;
    assert(ps.push(p).map_values(trim) == ps.map_values(trim).push(trimmed(p)));
    ps.map_values(trim).lemma_filter_push(trimmed(p), full);
}

/// A piece of whitespace alone trims to nothing.
pub proof fn lemma_trim_start_blank(s: Seq<char>)
    requires
        forall|k: int| 0 <= k < s.len() ==> white_space(#[trigger] s[k]),
    ensures
        trim_start(s).len() == 0,
    decreases s.len(),
{
    if s.len() > 0 {
        lemma_trim_start_blank(s.drop_first());
    }
}

/// Trimming the start drops exactly the whitespace before the first other
/// character.
proof fn lemma_trim_start_at(s: Seq<char>, a: int)
    requires
        0 <= a < s.len(),
        forall|k: int| 0 <= k < a ==> white_space(#[trigger] s[k]),
        !white_space(s[a]),
    ensures
        trim_start(s) == s.skip(a),
    decreases a,
{
    if a > 0 {
        lemma_trim_start_at(s.drop_first(), a - 1);
        assert(s.drop_first().skip(a - 1) == s.skip(a));
    } else {
        assert(s.skip(0) == s);
    }
}

/// Trimming the end drops exactly the whitespace after the last other
/// character.
proof fn lemma_trim_end_at(s: Seq<char>, b: int)
    requires
        0 < b <= s.len(),
        forall|k: int| b <= k < s.len() ==> white_space(#[trigger] s[k]),
        !white_space(s[b - 1]),
    ensures
        trim_end(s) == s.take(b),
    decreases s.len() - b,
{
    if b < s.len() {
        lemma_trim_end_at(s.drop_last(), b);
        assert(s.drop_last().take(b) == s.take(b));
    } else {
        assert(s.take(b) == s);
    }
}

/// Cuts a comma-separated argument list into its arguments.
///
/// A comma separates two arguments where the braces before it are balanced;
/// inside braces it is part of the argument. Each argument is returned
/// without the whitespace around it, as a slice of `input`, and arguments
/// that are empty or whitespace alone are left out.
pub fn parse_arguments(input: &str) -> (arguments: Vec<&str>)
    ensures
        views(arguments@) == tokens(input@),
        brace_free(input@) ==> views(arguments@) == kept(comma_split(input@)),
{
    let mut arguments: Vec<&str> = Vec::new();
    let len = input.unicode_len();
    let ascii = input.is_ascii();
    let mut level: i128 = 0;
    let mut index: usize = 0;
    // Whether the current piece holds a character that is not whitespace, and
    // if so, where the first one stands and where the last one ends.
    let mut filled = false;
    let mut first: usize = 0;
    let mut end: usize = 0;
    let mut chars = input.chars();
    let ghost mut start: int = 0;
    proof {
        assert(input@.skip(0) == input@);
        assert(views(arguments@) == Seq::<Seq<char>>::empty());
        assert(pieces(input@.take(0)).drop_last() == Seq::<Seq<char>>::empty());
        assert(kept(Seq::<Seq<char>>::empty()) == Seq::<Seq<char>>::empty()) by {
            reveal(Seq::filter);
        }
    }
    loop
        invariant
            len == input@.len(),
            ascii ==> input.is_ascii(),
            0 <= start <= index <= len,
            chars.remaining() == input@.skip(index as int),
            level == depth(input@.take(index as int)),
            pieces(input@.take(index as int)).len() > 0,
            pieces(input@.take(index as int)).last() == input@.subrange(start, index as int),
            views(arguments@) == kept(pieces(input@.take(index as int)).drop_last()),
            filled ==> {
                &&& start <= first < end <= index
                &&& forall|k: int| start <= k < first ==> white_space(#[trigger] input@[k])
                &&& !white_space(input@[first as int])
                &&& !white_space(input@[end - 1])
                &&& forall|k: int| end <= k < index ==> white_space(#[trigger] input@[k])
            },
            !filled ==> forall|k: int| start <= k < index ==> white_space(#[trigger] input@[k]),
        ensures
            index == len,
        decreases len - index,
    {
        let next = chars.next();
        let c = match next {
            Some(c) => c,
            None => {
                break ;
            },
        };
        let ghost before = pieces(input@.take(index as int));
        let ghost after = pieces(input@.take(index + 1));
        proof {
            assert(input@.take(index + 1).drop_last() == input@.take(index as int));
            assert(input@.take(index + 1).take(index as int) == input@.take(index as int));
            lemma_depth_bounds(input@.take(index as int));
            lemma_depth_bounds(input@.take(index + 1));
        }
        if c == ',' && level == 0 {
            proof {
                assert(after == before.push(Seq::empty()));
                assert(after.drop_last() == before);
                assert(before == before.drop_last().push(before.last()));
                lemma_kept_push(before.drop_last(), before.last());
                lemma_trimmed_of_span(input@, start, index as int, filled, first as int, end as int);
            }
            if filled {
                let argument = char_range(input, ascii, first, end);
                arguments.push(argument);
                proof {
                    assert(views(arguments@) == views(arguments@.drop_last()).push(argument@));
                }
            }
            filled = false;
            proof {
                start = index + 1;
                assert(after.last() == input@.subrange(start, index + 1));
            }
        } else {
            if c == '{' {
                level = level + 1;
            } else if c == '}' {
                level = level - 1;
            }
            if !c.is_whitespace() {
                if !filled {
                    first = index;
                    filled = true;
                }
                end = index + 1;
            }
            proof {
                assert(after == before.update(before.len() - 1, before.last().push(c)));
                assert(after.drop_last() == before.drop_last());
                assert(after.last() == input@.subrange(start, index + 1));
            }
        }
        index = index + 1;
        proof {
            assert(input@.skip(index - 1).drop_first() == input@.skip(index as int));
        }
    }
    let ghost all = pieces(input@);
    proof {
        assert(input@.take(index as int) == input@);
        assert(all == all.drop_last().push(all.last()));
        lemma_kept_push(all.drop_last(), all.last());
        lemma_trimmed_of_span(input@, start, index as int, filled, first as int, end as int);
    }
    if filled {
        let argument = char_range(input, ascii, first, end);
        arguments.push(argument);
        proof {
            assert(views(arguments@) == views(arguments@.drop_last()).push(argument@));
        }
    }
    proof {
        if brace_free(input@) {
            lemma_tokens_without_braces(input@);
        }
    }
    arguments
}

/// What trimming makes of the piece `s[start..stop]`, from what a scan of
/// the piece has found: whether it holds anything but whitespace, and if so,
/// where the first such character stands and where the last one ends.
proof fn lemma_trimmed_of_span(
    s: Seq<char>,
    start: int,
    stop: int,
    filled: bool,
    first: int,
    end: int,
)
    requires
        0 <= start <= stop <= s.len(),
        filled ==> {
            &&& start <= first < end <= stop
            &&& forall|k: int| start <= k < first ==> white_space(#[trigger] s[k])
            &&& !white_space(s[first])
            &&& !white_space(s[end - 1])
            &&& forall|k: int| end <= k < stop ==> white_space(#[trigger] s[k])
        },
        !filled ==> forall|k: int| start <= k < stop ==> white_space(#[trigger] s[k]),
    ensures
        filled ==> trimmed(s.subrange(start, stop)) == s.subrange(first, end),
        filled ==> end > first,
        !filled ==> trimmed(s.subrange(start, stop)).len() == 0,
{
    let piece = s.subrange(start, stop);
    if filled {
        assert forall|k: int| 0 <= k < first - start implies white_space(#[trigger] piece[k]) by {
            assert(piece[k] == s[start + k]);
        }
        lemma_trim_start_at(piece, first - start);
        let rest = piece.skip(first - start);
        assert(rest == s.subrange(first, stop));
        assert forall|k: int| end - first <= k < rest.len() implies white_space(
            #[trigger] rest[k],
        ) by {
            assert(rest[k] == s[first + k]);
        }
        lemma_trim_end_at(rest, end - first);
        assert(rest.take(end - first) == s.subrange(first, end));
    } else {
        assert forall|k: int| 0 <= k < piece.len() implies white_space(#[trigger] piece[k]) by {
            assert(piece[k] == s[start + k]);
        }
        lemma_trim_start_blank(piece);
    }
}

} // verus!
