//! Reading direction of a segment, written `+` or `-`.

use vstd::prelude::*;

verus! {

/// Whether `c` is one of the two orientation symbols.
pub open spec fn is_ori(c: char) -> bool {
    c == '+' || c == '-'
}

/// The opposite reading direction of `c`.
pub open spec fn flip(c: char) -> char {
    if c == '+' {
        '-'
    } else {
        '+'
    }
}

/// Executable test for an orientation symbol.
pub fn is_orientation(c: char) -> (b: bool)
    ensures
        b == is_ori(c),
{
    c == '+' || c == '-'
}

/// Reverses an orientation symbol: `+` becomes `-` and `-` becomes `+`.
pub fn rev_ori(a: char) -> (r: char)
    requires
        is_ori(a),
    ensures
        r == flip(a),
        is_ori(r),
{
    if a == '+' {
        '-'
    } else {
        '+'
    }
}

/// Flipping an orientation twice gives the orientation back.
pub proof fn lemma_flip_involution(c: char)
    requires
        is_ori(c),
    ensures
        is_ori(flip(c)),
        flip(c) != c,
        flip(flip(c)) == c,
{
}

} // verus!
