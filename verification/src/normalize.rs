//! Normalizing a raw message line.
//!
//! The text is read as a sequence of runs, each ending with the brace that
//! closes it. A run that begins with an opening brace starts a payload: that
//! run and the run after it pass through unchanged. Every other run loses
//! its line breaks and is folded to lowercase.
//!
//! A run ends with its first brace, so a run that begins with an opening
//! brace is that brace alone. A payload is therefore kept as it stands where
//! its opening brace is the first character of the text or follows another
//! brace directly; after other text the opening brace belongs to the run of
//! that text, and the payload is cleaned with the rest.

use crate::normalize_laws::lemma_normalized_is_identity_on_normal_text;
use crate::normalize_laws::lemma_normalized_without_braces;
use crate::text::brace_free;
use crate::text::is_brace;
use crate::text::is_line_break;
use crate::text::is_lowercase;
use crate::text::line_break_free;
use crate::text::lowercased;
use crate::text::push_lowercased;
use vstd::prelude::*;
use vstd::std_specs::iter::IteratorSpec;

verus! {

/// `s` is empty or ends with a brace: a run ends where `s` ends.
pub open spec fn ends_run(s: Seq<char>) -> bool {
    s.len() == 0 || is_brace(s.last())
}

/// The runs of `s`: `s` cut after each brace. The cuts keep every character,
/// so a run holds a brace only as its last character, and only the last run
/// can be without one.
pub open spec fn runs(s: Seq<char>) -> Seq<Seq<char>>
    decreases s.len(),
{
    if s.len() == 0 {
        Seq::empty()
    } else if ends_run(s.drop_last()) {
        runs(s.drop_last()).push(seq![s.last()])
    } else {
        runs(s.drop_last()).update(
            runs(s.drop_last()).len() - 1,
            runs(s.drop_last()).last().push(s.last()),
        )
    }
}

/// A run that begins with an opening brace. Such a run starts a payload.
pub open spec fn opens_payload(run: Seq<char>) -> bool {
    run.len() > 0 && run[0] == '{'
}

/// Whether the run at index `k` is copied as it stands: it starts a payload,
/// or the run before it does.
pub open spec fn passes_through(rs: Seq<Seq<char>>, k: int) -> bool {
    opens_payload(rs[k]) || (k > 0 && opens_payload(rs[k - 1]))
}

/// `s` without its line feeds and carriage returns.
pub open spec fn without_line_breaks(s: Seq<char>) -> Seq<char> {
    s.filter(|c: char| !is_line_break(c))
}

/// `s` without its line breaks, in lowercase.
pub open spec fn cleaned(s: Seq<char>) -> Seq<char> {
    lowercased(without_line_breaks(s))
}

/// What the run at index `k` contributes to the normalized text.
pub open spec fn contribution(rs: Seq<Seq<char>>, k: int) -> Seq<char> {
    if passes_through(rs, k) {
        rs[k]
    } else {
        cleaned(rs[k])
    }
}

/// The contributions of all runs, in order.
pub open spec fn contributions(rs: Seq<Seq<char>>) -> Seq<Seq<char>> {
    Seq::new(rs.len(), |k: int| contribution(rs, k))
}

/// The normalized form of `text`: what its runs contribute, joined.
pub open spec fn normalized(text: Seq<char>) -> Seq<char> {
    contributions(runs(text)).flatten()
}

/// A non-empty text has at least one run, and no run is empty.
pub proof fn lemma_runs_nonempty(s: Seq<char>)
    ensures
        s.len() > 0 ==> runs(s).len() > 0,
        forall|k: int| 0 <= k < runs(s).len() ==> #[trigger] runs(s)[k].len() > 0,
    decreases s.len(),
{
    if s.len() > 0 {
        lemma_runs_nonempty(s.drop_last());
    }
}

/// Removing line breaks from text with one more character.
pub proof fn lemma_without_line_breaks_push(s: Seq<char>, c: char)
    ensures
        without_line_breaks(s.push(c)) == if is_line_break(c) {
            without_line_breaks(s)
        } else {
            without_line_breaks(s).push(c)
        },
        without_line_breaks(Seq::empty()) == Seq::<char>::empty(),
{
    s.lemma_filter_push(c, |c: char| !is_line_break(c));
    assert(Seq::<char>::empty().filter(|c: char| !is_line_break(c)) == Seq::<char>::empty())
        by {
        reveal(Seq::filter);
    }
}

/// The joined contributions are those of all runs but the last, followed by
/// that of the last.
proof fn lemma_contributions_end(rs: Seq<Seq<char>>)
    requires
        rs.len() > 0,
    ensures
        contributions(rs).flatten() == contributions(rs).drop_last().flatten() + contribution(
            rs,
            rs.len() - 1,
        ),
{
    let last = contribution(rs, rs.len() - 1);
    assert(contributions(rs) == contributions(rs).drop_last().push(last));
    contributions(rs).drop_last().lemma_flatten_push(last);
}

/// What one more character does to the runs of `s` and to what they
/// contribute. After the end of a run the character begins a new run, to
/// which a payload opened by the run before extends. Otherwise it joins the
/// last run, which keeps its standing.
proof fn lemma_runs_step(s: Seq<char>, c: char)
    ensures
        runs(s.push(c)).len() > 0,
        runs(s.push(c)).last().len() > 0,
        ends_run(s) ==> {
            &&& runs(s.push(c)).last() == seq![c]
            &&& contributions(runs(s.push(c))).drop_last() == contributions(runs(s))
            &&& passes_through(runs(s.push(c)), runs(s.push(c)).len() - 1) == (c == '{' || (runs(
                s,
            ).len() > 0 && opens_payload(runs(s).last())))
        },
        !ends_run(s) ==> {
            &&& runs(s).len() > 0
            &&& runs(s.push(c)).last() == runs(s).last().push(c)
            &&& contributions(runs(s.push(c))).drop_last() == contributions(runs(s)).drop_last()
            &&& passes_through(runs(s.push(c)), runs(s.push(c)).len() - 1) == passes_through(
                runs(s),
                runs(s).len() - 1,
            )
            &&& opens_payload(runs(s.push(c)).last()) == opens_payload(runs(s).last())
        },
{
    assert(s.push(c).drop_last() == s);
    lemma_runs_nonempty(s);
    if ends_run(s) {
        assert(contributions(runs(s).push(seq![c])).drop_last() == contributions(runs(s)));
    } else {
        let grown = runs(s).update(runs(s).len() - 1, runs(s).last().push(c));
        assert(grown.last()[0] == runs(s).last()[0]);
        assert(contributions(grown).drop_last() == contributions(runs(s)).drop_last());
    }
}

/// What the scan has done after the characters `seen` of the text.
///
/// `fresh` tells that a run ends with `seen`, and `opened` that this run
/// opened a payload; all contributions are then written. Otherwise the last
/// run is still growing: `verbatim` tells whether it passes through, in which
/// case it is written as far as it goes; if it does not, it waits in
/// `pending` without its line breaks.
spec fn scanned(
    seen: Seq<char>,
    result: Seq<char>,
    pending: Seq<char>,
    fresh: bool,
    opened: bool,
    verbatim: bool,
) -> bool {
    let rs = runs(seen);
    let last = rs.len() - 1;
    &&& fresh == ends_run(seen)
    &&& fresh ==> {
        &&& opened == (rs.len() > 0 && opens_payload(rs.last()))
        &&& result == contributions(rs).flatten()
        &&& pending.len() == 0
    }
    &&& !fresh ==> {
        &&& rs.len() > 0
        &&& !opens_payload(rs.last())
        &&& verbatim == passes_through(rs, last)
        &&& verbatim ==> result == contributions(rs).drop_last().flatten() + rs.last()
            && pending.len() == 0
        &&& !verbatim ==> result == contributions(rs).drop_last().flatten() && pending
            == without_line_breaks(rs.last())
    }
}

/// Normalizes a raw message line.
///
/// The text is cut into runs after each brace. A run that begins with an
/// opening brace, and the run that follows it, are copied unchanged. All
/// other runs are copied without their line feeds and carriage returns and
/// in lowercase, each run lowercased on its own.
///
/// In particular, text without braces comes back without its line breaks and
/// in lowercase, and such text that is already in that form comes back as it
/// is.
pub fn clean_message(text: &str) -> (result: String)
    ensures
        result@ == normalized(text@),
        brace_free(text@) ==> result@ == cleaned(text@),
        brace_free(text@) && line_break_free(text@) && is_lowercase(text@) ==> result@ == text@,
{
    let mut result = String::new();
    // The current run without its line breaks, while it waits to be lowercased.
    let mut pending = String::new();
    // A run has just ended, or none has begun.
    let mut fresh = true;
    // The run that has just ended opened a payload.
    let mut opened = false;
    // The current run is copied unchanged.
    let mut verbatim = false;
    let mut chars = text.chars();
    let ghost mut seen: int = 0;
    proof {
        assert(text@.skip(0) == text@);
        assert(contributions(runs(text@.take(0))) == Seq::<Seq<char>>::empty());
    }
    loop
        invariant
            0 <= seen <= text@.len(),
            chars.remaining() == text@.skip(seen),
            scanned(text@.take(seen), result@, pending@, fresh, opened, verbatim),
        ensures
            seen == text@.len(),
        decreases text@.len() - seen,
    {
        let next = chars.next();
        let c = match next {
            Some(c) => c,
            None => {
                break ;
            },
        };
        proof {
            assert(text@.take(seen + 1) == text@.take(seen).push(c));
            assert(text@.skip(seen).drop_first() == text@.skip(seen + 1));
            lemma_runs_step(text@.take(seen), c);
            lemma_contributions_end(runs(text@.take(seen + 1)));
            if fresh {
                lemma_without_line_breaks_push(Seq::empty(), c);
                assert(seq![c] == Seq::<char>::empty().push(c));
            } else {
                lemma_without_line_breaks_push(runs(text@.take(seen)).last(), c);
            }
            seen = seen + 1;
        }
        if fresh {
            verbatim = opened || c == '{';
        }
        if verbatim {
            result.push(c);
        } else if c != '\n' && c != '\r' {
            pending.push(c);
        }
        proof {
            // The run that now ends the text is written, or waits, in full.
            let run = runs(text@.take(seen)).last();
            assert(text@.take(seen).last() == c);
            assert(verbatim ==> result@ == contributions(runs(text@.take(seen))).drop_last().flatten()
                + run);
            assert(!verbatim ==> pending@ == without_line_breaks(run));
        }
        if c == '{' || c == '}' {
            if !verbatim {
                push_lowercased(&mut result, pending.as_str());
                pending = String::new();
            }
            opened = fresh && c == '{';
            fresh = true;
        } else {
            fresh = false;
        }
    }
    if !fresh && !verbatim {
        push_lowercased(&mut result, pending.as_str());
    }
    proof {
        assert(text@.take(seen) == text@);
        if !fresh {
            lemma_contributions_end(runs(text@));
        }
        if brace_free(text@) {
            lemma_normalized_without_braces(text@);
            if line_break_free(text@) && is_lowercase(text@) {
                lemma_normalized_is_identity_on_normal_text(text@);
            }
        }
    }
    result
}

} // verus!
