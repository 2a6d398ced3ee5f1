//! What holds of normalized text, for all inputs.

use crate::normalize::cleaned;
use crate::normalize::lemma_runs_nonempty;
use crate::normalize::normalized;
use crate::normalize::opens_payload;
use crate::normalize::passes_through;
use crate::normalize::contribution;
use crate::normalize::contributions;
use crate::normalize::ends_run;
use crate::normalize::runs;
use crate::normalize::without_line_breaks;
use crate::text::brace_free;
use crate::text::is_brace;
use crate::text::is_lowercase;
use crate::text::line_break_free;
use vstd::prelude::*;
use vstd::seq_lib::lemma_flatten_concat;

verus! {

/// Empty text is normalized to empty text.
pub proof fn lemma_normalized_of_empty()
    ensures
        normalized(Seq::empty()) == Seq::<char>::empty(),
{
    assert(contributions(runs(Seq::empty())) == Seq::<Seq<char>>::empty());
}

/// The runs are a cut of the text: joined, they give it back; none is empty;
/// a brace stands only at the end of a run; and every run but the last ends
/// with one.
pub proof fn lemma_runs_cut_after_braces(s: Seq<char>)
    ensures
        runs(s).flatten() == s,
        forall|k: int| 0 <= k < runs(s).len() ==> #[trigger] runs(s)[k].len() > 0,
        forall|k: int, j: int|
            0 <= k < runs(s).len() && 0 <= j < runs(s)[k].len() - 1 ==> !is_brace(
                #[trigger] runs(s)[k][j],
            ),
        forall|k: int| 0 <= k < runs(s).len() - 1 ==> is_brace(#[trigger] runs(s)[k].last()),
        s.len() > 0 ==> runs(s).len() > 0 && runs(s).last().last() == s.last(),
    decreases s.len(),
{
    if s.len() > 0 {
        let head = s.drop_last();
        let before = runs(head);
        lemma_runs_cut_after_braces(head);
        assert(s == head.push(s.last()));
        if head.len() == 0 || is_brace(head.last()) {
            before.lemma_flatten_push(seq![s.last()]);
            assert(head + seq![s.last()] == s);
        } else {
            let grown = before.last().push(s.last());
            assert(before == before.drop_last().push(before.last()));
            assert(runs(s) == before.drop_last().push(grown));
            before.drop_last().lemma_flatten_push(before.last());
            before.drop_last().lemma_flatten_push(grown);
            assert(before.drop_last().flatten() + grown == (before.drop_last().flatten()
                + before.last()).push(s.last()));
            assert forall|k: int, j: int|
                0 <= k < runs(s).len() && 0 <= j < runs(s)[k].len() - 1 implies !is_brace(
                #[trigger] runs(s)[k][j],
            ) by {
                if k < before.len() - 1 {
                    assert(runs(s)[k] == before[k]);
                } else if j < before.last().len() - 1 {
                    assert(runs(s)[k][j] == before[k][j]);
                } else {
                    assert(runs(s)[k][j] == before.last().last());
                }
            }
        }
    } else {
        assert(runs(s).flatten() == s);
    }
}

/// A text without braces is a single run, or none if it is empty.
pub proof fn lemma_runs_of_brace_free(s: Seq<char>)
    requires
        brace_free(s),
    ensures
        runs(s) == if s.len() == 0 {
            Seq::<Seq<char>>::empty()
        } else {
            seq![s]
        },
    decreases s.len(),
{
    if s.len() > 0 {
        let head = s.drop_last();
        lemma_runs_of_brace_free(head);
        if head.len() > 0 {
            assert(!is_brace(head.last())) by {
                assert(head.last() == s[head.len() - 1]);
            }
            assert(head.push(s.last()) == s);
            assert(seq![head].update(0, s) == seq![s]);
        } else {
            assert(seq![s.last()] == s);
        }
    }
}

/// Text without braces is cleaned as a whole: the result is the text without
/// its line breaks, in lowercase.
pub proof fn lemma_normalized_without_braces(text: Seq<char>)
    requires
        brace_free(text),
    ensures
        normalized(text) == cleaned(text),
{
    lemma_runs_of_brace_free(text);
    if text.len() == 0 {
        assert(contributions(runs(text)) == Seq::<Seq<char>>::empty());
        assert(without_line_breaks(text) == text) by {
            reveal(Seq::filter);
        }
    } else {
        assert(!is_brace(text[0]));
        assert(contributions(runs(text)) == seq![cleaned(text)]);
        contributions(runs(text)).lemma_flatten_singleton();
    }
}

/// Text without line breaks loses nothing when they are removed.
pub proof fn lemma_without_line_breaks_is_identity(s: Seq<char>)
    requires
        line_break_free(s),
    ensures
        without_line_breaks(s) == s,
    decreases s.len(),
{
    reveal(Seq::filter);
    if s.len() > 0 {
        lemma_without_line_breaks_is_identity(s.drop_last());
        assert(s.drop_last().push(s.last()) == s);
    }
}

/// Normalizing is a no-op on text that is already normal: text in lowercase,
/// without line breaks and without braces.
pub proof fn lemma_normalized_is_identity_on_normal_text(text: Seq<char>)
    requires
        brace_free(text),
        line_break_free(text),
        is_lowercase(text),
    ensures
        normalized(text) == text,
{
    lemma_normalized_without_braces(text);
    lemma_without_line_breaks_is_identity(text);
}

/// Where a run ends with `a`, the runs of `a + b` are those of `a` followed
/// by those of `b`.
pub proof fn lemma_runs_concat(a: Seq<char>, b: Seq<char>)
    requires
        ends_run(a),
    ensures
        runs(a + b) == runs(a) + runs(b),
    decreases b.len(),
{
    if b.len() == 0 {
        assert(a + b == a);
        assert(runs(a) + runs(b) == runs(a));
    } else {
        let head = b.drop_last();
        lemma_runs_concat(a, head);
        lemma_runs_nonempty(head);
        assert((a + b).drop_last() == a + head);
        if head.len() == 0 {
            assert(a + head == a);
            assert(runs(a) + runs(head).push(seq![b.last()]) == runs(a).push(seq![b.last()]));
        } else if is_brace(head.last()) {
            assert(runs(a) + runs(head).push(seq![b.last()]) == (runs(a) + runs(head)).push(
                seq![b.last()],
            ));
        } else {
            let grown = runs(head).last().push(b.last());
            assert(runs(a) + runs(head).update(runs(head).len() - 1, grown) == (runs(a) + runs(
                head,
            )).update((runs(a) + runs(head)).len() - 1, grown));
        }
    }
}

/// What the runs `rs` contribute where they follow other runs. With `pending`
/// set, the last of those opened a payload, and the first of `rs` is copied.
spec fn contributions_after(pending: bool, rs: Seq<Seq<char>>) -> Seq<Seq<char>> {
    Seq::new(
        rs.len(),
        |k: int|
            if k == 0 && pending {
                rs[0]
            } else {
                contribution(rs, k)
            },
    )
}

/// The contributions of two lists of runs, one after the other.
proof fn lemma_contributions_concat(ra: Seq<Seq<char>>, rb: Seq<Seq<char>>)
    ensures
        contributions(ra + rb) == contributions(ra) + contributions_after(
            ra.len() > 0 && opens_payload(ra.last()),
            rb,
        ),
{
    let pending = ra.len() > 0 && opens_payload(ra.last());
    let joint = contributions(ra) + contributions_after(pending, rb);
    assert forall|k: int| 0 <= k < (ra + rb).len() implies contributions(ra + rb)[k] == joint[k] by {
        if k < ra.len() {
            assert((ra + rb)[k] == ra[k]);
            if k > 0 {
                assert((ra + rb)[k - 1] == ra[k - 1]);
            }
        } else {
            let j = k - ra.len();
            assert((ra + rb)[k] == rb[j]);
            if j > 0 {
                assert((ra + rb)[k - 1] == rb[j - 1]);
            } else if k > 0 {
                assert((ra + rb)[k - 1] == ra.last());
            }
        }
    }
}

/// A run that opens a payload is the opening brace alone.
pub proof fn lemma_opening_run_is_brace_alone(s: Seq<char>, k: int)
    requires
        0 <= k < runs(s).len(),
        opens_payload(runs(s)[k]),
    ensures
        runs(s)[k] == seq!['{'],
{
    lemma_runs_cut_after_braces(s);
    let run = runs(s)[k];
    if run.len() > 1 {
        assert(!is_brace(run[0]));
    }
    assert(run == seq!['{']);
}

/// Text that follows a closing brace is normalized on its own: what stands
/// before that brace has no bearing on it.
pub proof fn lemma_normalized_after_closing_brace(a: Seq<char>, b: Seq<char>)
    requires
        a.len() == 0 || a.last() == '}',
    ensures
        normalized(a + b) == normalized(a) + normalized(b),
{
    lemma_runs_concat(a, b);
    lemma_contributions_concat(runs(a), runs(b));
    lemma_runs_cut_after_braces(a);
    if runs(a).len() > 0 && opens_payload(runs(a).last()) {
        lemma_opening_run_is_brace_alone(a, runs(a).len() - 1);
    }
    assert(contributions_after(false, runs(b)) == contributions(runs(b)));
    lemma_flatten_concat(contributions(runs(a)), contributions(runs(b)));
}

/// The runs of text that holds one brace, at its end.
proof fn lemma_runs_of_closed_run(content: Seq<char>, closing: char)
    requires
        brace_free(content),
        is_brace(closing),
    ensures
        runs(content.push(closing)) == seq![content.push(closing)],
{
    lemma_runs_of_brace_free(content);
    assert(content.push(closing).drop_last() == content);
    if content.len() > 0 {
        assert(seq![content].update(0, content.push(closing)) == seq![content.push(closing)]);
    } else {
        assert(seq![closing] == content.push(closing));
        assert(Seq::<Seq<char>>::empty().push(seq![closing]) == seq![content.push(closing)]);
    }
}

/// An opening brace at the start of the text, or right after another brace,
/// is copied as it stands.
pub proof fn lemma_opening_brace_after_brace(before: Seq<char>)
    requires
        ends_run(before),
    ensures
        normalized(before.push('{')) == normalized(before).push('{'),
{
    let open = seq!['{'];
    assert(before.push('{').drop_last() == before);
    assert(runs(before.push('{')) == runs(before) + seq![open]);
    lemma_contributions_concat(runs(before), seq![open]);
    let pending = runs(before).len() > 0 && opens_payload(runs(before).last());
    assert(contributions_after(pending, seq![open]) == seq![open]);
    lemma_flatten_concat(contributions(runs(before)), seq![open]);
    seq![open].lemma_flatten_singleton();
    assert(normalized(before) + open == normalized(before).push('{'));
}

/// A payload `{content}` is returned unchanged, case and line breaks
/// included, where its opening brace stands at the start of the text or
/// right after another brace; what follows it is normalized on its own.
/// After other text the payload is cleaned like that text, so there it
/// comes back unchanged only if cleaning does not change it.
pub proof fn lemma_payload_passes_through(
    before: Seq<char>,
    content: Seq<char>,
    after: Seq<char>,
)
    requires
        brace_free(content),
        ends_run(before) || cleaned(content.push('}')) == content.push('}'),
    ensures
        normalized(before.push('{') + content.push('}') + after) == normalized(before.push('{'))
            + content.push('}') + normalized(after),
        ends_run(before) ==> normalized(before.push('{')) == normalized(before).push('{'),
{
    let open = before.push('{');
    let payload = content.push('}');
    lemma_normalized_after_closing_brace(open + payload, after);
    lemma_runs_concat(open, payload);
    lemma_runs_of_closed_run(content, '}');
    lemma_contributions_concat(runs(open), seq![payload]);
    let pending = runs(open).len() > 0 && opens_payload(runs(open).last());
    assert(!opens_payload(payload)) by {
        if content.len() > 0 {
            assert(payload[0] == content[0]);
        }
    }
    if ends_run(before) {
        assert(open.drop_last() == before);
        assert(runs(open).last() == seq!['{']);
        lemma_opening_brace_after_brace(before);
    }
    assert(contributions_after(pending, seq![payload]) == seq![payload]);
    lemma_flatten_concat(contributions(runs(open)), seq![payload]);
    seq![payload].lemma_flatten_singleton();
}

/// An opening brace that stands at the start of the text or right after
/// another brace, and that no brace follows, passes the rest of the text
/// through unchanged.
pub proof fn lemma_dangling_open_passes_through(before: Seq<char>, rest: Seq<char>)
    requires
        ends_run(before),
        brace_free(rest),
    ensures
        normalized(before.push('{') + rest) == normalized(before).push('{') + rest,
{
    let open = before.push('{');
    lemma_opening_brace_after_brace(before);
    lemma_runs_concat(open, rest);
    lemma_runs_of_brace_free(rest);
    assert(open.drop_last() == before);
    assert(runs(open).last() == seq!['{']);
    lemma_contributions_concat(runs(open), runs(rest));
    if rest.len() == 0 {
        assert(open + rest == open);
    } else {
        assert(contributions_after(true, seq![rest]) == seq![rest]);
        lemma_flatten_concat(contributions(runs(open)), seq![rest]);
        seq![rest].lemma_flatten_singleton();
    }
}

} // verus!
