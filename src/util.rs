use vstd::prelude::*;

use crate::MIN_ALIGN;

verus! {

/// `r` is `size` rounded up to a multiple of `align`.
pub open spec fn is_round_up(r: int, size: int, align: int) -> bool {
    &&& r % align == 0
    &&& size <= r
    &&& r < size + align
}

/// Rounding up has one result.
pub proof fn lemma_round_up_unique(a: int, b: int, size: int, align: int)
    requires
        align > 0,
        is_round_up(a, size, align),
        is_round_up(b, size, align),
    ensures
        a == b,
{
    vstd::arithmetic::div_mod::lemma_fundamental_div_mod(a, align);
    vstd::arithmetic::div_mod::lemma_fundamental_div_mod(b, align);
    let qa = a / align;
    let qb = b / align;
    assert(qa == qb) by (nonlinear_arith)
        requires
            a == align * qa,
            b == align * qb,
            a - b < align,
            b - a < align,
            align > 0,
    ;
}

/// `n` is a power of two.
pub open spec fn is_pow2(n: nat) -> bool
    decreases n,
{
    if n <= 1 {
        n == 1
    } else {
        n % 2 == 0 && is_pow2(n / 2)
    }
}

/// A size together with the alignment it was padded to.
#[derive(Clone, Copy, Debug, PartialEq, Eq, Structural)]
pub struct Layout {
    pub size: usize,
    pub align: usize,
}

/// The size cannot be padded to the alignment: the alignment is not a power
/// of two, or the padded size would not fit in `isize`.
#[derive(Clone, Copy, Debug, PartialEq, Eq, Structural)]
pub struct LayoutErr;

impl Layout {
    pub fn size(&self) -> (r: usize)
        ensures
            r == self.size,
    {
        self.size
    }

    pub fn align(&self) -> (r: usize)
        ensures
            r == self.align,
    {
        self.align
    }
}

/// Rounds `x` up to a multiple of `align`, without an overflow check on the caller's side.
fn round_up_exec(x: usize, align: usize) -> (r: usize)
    requires
        align > 0,
        x + align - 1 <= usize::MAX,
    ensures
        is_round_up(r as int, x as int, align as int),
{
    let y: usize = x + (align - 1);
    let r: usize = y - y % align;
    proof {
        vstd::arithmetic::div_mod::lemma_fundamental_div_mod(y as int, align as int);
        vstd::arithmetic::div_mod::lemma_mod_multiples_basic(y as int / align as int, align as int);
        assert(r as int == (y as int / align as int) * align as int) by (nonlinear_arith)
            requires
                y as int == align as int * (y as int / align as int) + y as int % align as int,
                r as int == y as int - y as int % align as int,
        ;
    }
    r
}

/// Tells whether `n` is a power of two.
fn is_power_of_two(n: usize) -> (r: bool)
    ensures
        r == is_pow2(n as nat),
{
    if n == 0 {
        return false;
    }
    let mut a: usize = n;
    while a > 1 && a % 2 == 0
        invariant
            a > 0,
            is_pow2(n as nat) == is_pow2(a as nat),
        decreases a,
    {
        a = a / 2;
    }
    a == 1
}

/// Aligns `val` up to a multiple of `MIN_ALIGN`; the caller rules out overflow.
pub fn min_align_unchecked(val: usize) -> (r: usize)
    requires
        val + MIN_ALIGN - 1 <= usize::MAX,
    ensures
        is_round_up(r as int, val as int, MIN_ALIGN as int),
{
    round_up_exec(val, MIN_ALIGN)
}

/// Returns a `Layout` of `size` padded to `MIN_ALIGN`.
pub fn pad_min_align(size: usize) -> (r: Result<Layout, LayoutErr>)
    ensures
        r.is_ok() <==> size + MIN_ALIGN - 1 <= isize::MAX,
        r matches Ok(l) ==> l.align == MIN_ALIGN && is_round_up(
            l.size as int,
            size as int,
            MIN_ALIGN as int,
        ),
{
    proof {
        reveal_with_fuel(is_pow2, 5);
    }
    pad_to_align(size, MIN_ALIGN)
}

/// Returns a `Layout` of `size` padded to `align`, which must be a power of
/// two; the padded size must fit in `isize`.
pub fn pad_to_align(size: usize, align: usize) -> (r: Result<Layout, LayoutErr>)
    ensures
        r.is_ok() <==> (is_pow2(align as nat) && size + align - 1 <= isize::MAX),
        r matches Ok(l) ==> l.align == align && is_round_up(l.size as int, size as int, align as int),
{
    if !is_power_of_two(align) {
        return Err(LayoutErr);
    }
    if align - 1 > isize::MAX as usize || size > isize::MAX as usize - (align - 1) {
        return Err(LayoutErr);
    }
    Ok(Layout { size: round_up_exec(size, align), align })
}

} // verus!
