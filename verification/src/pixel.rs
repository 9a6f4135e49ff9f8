use vstd::prelude::*;

verus! {

/// Byte `c` of pixel `p` in an RGBA buffer sits at `4 * p + c`.
pub proof fn lemma_rgba_byte(p: int, c: int)
    requires
        0 <= p,
        0 <= c < 4,
    ensures
        (4 * p + c) / 4 == p,
        (4 * p + c) % 4 == c,
{
    vstd::arithmetic::div_mod::lemma_fundamental_div_mod_converse(4 * p + c, 4, p, c);
}

/// In a row-major image of width `w`, pixel `y * w + x` is column `x` of row `y`.
pub proof fn lemma_row_major(x: int, y: int, w: int)
    requires
        0 <= x < w,
        0 <= y,
    ensures
        (y * w + x) / w == y,
        (y * w + x) % w == x,
{
    vstd::arithmetic::div_mod::lemma_fundamental_div_mod_converse(y * w + x, w, y, x);
}

} // verus!
