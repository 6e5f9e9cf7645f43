//! Display width of characters: how many terminal columns a character
//! occupies.  The measurement itself comes from the `unicode_width`
//! crate; the rest of the library speaks of it only through the name
//! `char_width_of`.

use vstd::prelude::*;
use unicode_width::UnicodeWidthChar;

verus! {

/// The number of columns one character occupies on a terminal.  The
/// value is a function of the character alone; control characters
/// count as zero columns.
pub uninterp spec fn char_width_of(c: char) -> nat;

/// Relies on `unicode_width::UnicodeWidthChar::width`: the displayed
/// width of one character, a pure function of the character.  Its
/// documented rules assign every character 0, 1, 2 or (for one Khmer
/// sign) 3 columns; control characters yield `None`, counted here as
/// zero.
#[verifier::external_body]
pub fn char_width(c: char) -> (w: usize)
    ensures
        w == char_width_of(c),
        w <= 3,
{
    UnicodeWidthChar::width(c).unwrap_or(0)
}

/// The display width of a text run: the sum of its characters' widths.
pub open spec fn text_width_of(t: Seq<char>) -> nat
    decreases t.len(),
{
    if t.len() == 0 {
        0
    } else {
        char_width_of(t[0]) + text_width_of(t.skip(1))
    }
}

/// Measures the display width of a text run.
pub fn text_width(t: &Vec<char>) -> (w: usize)
    requires
        3 * t@.len() <= usize::MAX,
    ensures
        w == text_width_of(t@),
        w <= 3 * t@.len(),
{
    let mut w: usize = 0;
    let mut i: usize = 0;
    proof {
        assert(t@.skip(0) =~= t@);
    }
    while i < t.len()
        invariant
            i <= t@.len(),
            3 * t@.len() <= usize::MAX,
            w <= 3 * i,
            w + text_width_of(t@.skip(i as int)) == text_width_of(t@),
        decreases t@.len() - i,
    {
        let cw = char_width(t[i]);
        proof {
            assert(t@.skip(i as int)[0] == t@[i as int]);
            assert(t@.skip(i as int).skip(1) =~= t@.skip(i as int + 1));
        }
        w = w + cw;
        i = i + 1;
    }
    proof {
        assert(t@.skip(t@.len() as int) =~= Seq::<char>::empty());
    }
    w
}

} // verus!
