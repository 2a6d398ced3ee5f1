//! Character classes of message text, and the few facts about the standard
//! library's text functions that the rest of the crate takes on trust.

use vstd::prelude::*;

verus! {

/// The two characters that delimit a payload.
pub open spec fn is_brace(c: char) -> bool {
    c == '{' || c == '}'
}

/// The two characters that end a line on the wire.
pub open spec fn is_line_break(c: char) -> bool {
    c == '\n' || c == '\r'
}

/// What `str::to_lowercase` returns for the text `s`. Unicode lowercasing
/// looks at a character's neighbours and may change the number of characters,
/// so it is named here and not spelled out.
pub uninterp spec fn lowercase_of(s: Seq<char>) -> Seq<char>;

/// Whether `char::is_whitespace` holds of `c`, that is, whether `c` has the
/// Unicode property `White_Space`.
pub uninterp spec fn white_space(c: char) -> bool;

/// Trusted: `str::to_lowercase` depends on the characters of its argument
/// alone, so its result is `lowercase_of` of them. Nothing else is claimed.
pub assume_specification[ str::to_lowercase ](s: &str) -> (lowered: String)
    ensures
        lowered@ == lowercase_of(s@),
;

/// Trusted: `char::is_whitespace` depends on the character alone, so its
/// result is `white_space` of it. Nothing else is claimed.
pub assume_specification[ char::is_whitespace ](c: char) -> (b: bool)
    ensures
        b == white_space(c),
;

/// Trusted: `String::push` appends the one character to the end of the string
/// and leaves the rest as it was.
pub assume_specification[ String::push ](s: &mut String, ch: char)
    ensures
        final(s)@ == old(s)@.push(ch),
;

/// No character of `s` is a brace.
pub open spec fn brace_free(s: Seq<char>) -> bool {
    forall|i: int| 0 <= i < s.len() ==> !is_brace(#[trigger] s[i])
}

/// No character of `s` is a line feed or a carriage return.
pub open spec fn line_break_free(s: Seq<char>) -> bool {
    forall|i: int| 0 <= i < s.len() ==> !is_line_break(#[trigger] s[i])
}

/// `s` is its own lowercase form.
pub open spec fn is_lowercase(s: Seq<char>) -> bool {
    lowercased(s) == s
}

/// The lowercase form of `s`. Empty text is its own lowercase form.
pub open spec fn lowercased(s: Seq<char>) -> Seq<char> {
    if s.len() == 0 {
        s
    } else {
        lowercase_of(s)
    }
}

/// The characters of `text` from index `from` up to, not including, `to`,
/// borrowed from `text`. With `ascii` set, which asks that `text` is ASCII,
/// the cut takes constant time; without it, time in proportion to `to`.
pub(crate) fn char_range<'a>(text: &'a str, ascii: bool, from: usize, to: usize) -> (part: &'a str)
    requires
        ascii ==> text.is_ascii(),
        from <= to <= text@.len(),
    ensures
        part@ == text@.subrange(from as int, to as int),
{
    if ascii {
        text.substring_ascii(from, to)
    } else {
        text.substring_char(from, to)
    }
}

/// Appends the lowercase form of `part` to `out`.
pub(crate) fn push_lowercased(out: &mut String, part: &str)
    ensures
        final(out)@ == old(out)@ + lowercased(part@),
{
    if !part.is_empty() {
        let lowered = part.to_lowercase();
        out.append(lowered.as_str());
    }
}

} // verus!
