//! How many columns a character takes on the screen.
use vstd::prelude::*;
use crate::text::control;

verus! {

/// The columns that a character takes; a control character takes none of its own.
pub uninterp spec fn columns(c: char) -> Option<nat>;

/// Hiragana, katakana and the unified ideographs.
pub open spec fn wide(c: char) -> bool {
    '\u{3041}' <= c <= '\u{3096}' || '\u{30a1}' <= c <= '\u{30fa}' || '\u{4e00}' <= c <= '\u{9fff}'
}

/// `unicode_width::UnicodeWidthChar::width`: the outcome depends on the character alone.
/// Exactly the control characters have no width, the printable characters of ASCII take one
/// column, and hiragana, katakana and the unified ideographs take two.
#[verifier::external_body]
pub(crate) fn char_width(c: char) -> (r: Option<usize>)
    ensures
        match r {
            Some(n) => columns(c) == Some(n as nat),
            None => columns(c) is None,
        },
        r is None <==> control(c),
        ' ' <= c <= '~' ==> r == Some(1usize),
        wide(c) ==> r == Some(2usize),
{
    unicode_width::UnicodeWidthChar::width(c)
}

} // verus!
