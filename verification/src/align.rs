//! Rounding up to a multiple of an alignment.
use vstd::arithmetic::power2;
use vstd::bits;
use vstd::prelude::*;

verus! {

/// The least multiple of `alignment` that is not below `value`.
pub open spec fn aligned(value: int, alignment: int) -> int
    recommends
        alignment > 0,
{
    ((value + alignment - 1) / alignment) * alignment
}

/// Whether a number is a power of two that fits in 32 bits.
pub open spec fn is_power_of_two(n: int) -> bool {
    exists|k: nat| k < 32 && n == #[trigger] power2::pow2(k)
}

/// `aligned(value, alignment)` is a multiple of `alignment`, is at least `value` and exceeds it
/// by less than `alignment`.
pub proof fn aligned_is_next_multiple(value: int, alignment: int)
    requires
        alignment > 0,
    ensures
        aligned(value, alignment) % alignment == 0,
        value <= aligned(value, alignment) < value + alignment,
{
    let q = (value + alignment - 1) / alignment;
    assert((q * alignment) % alignment == 0) by (nonlinear_arith)
        requires
            alignment > 0,
    ;
    assert(value <= q * alignment < value + alignment) by (nonlinear_arith)
        requires
            alignment > 0,
            q == (value + alignment - 1) / alignment,
    ;
}

/// No smaller multiple of `alignment` reaches `value`.
pub proof fn aligned_is_least_multiple(value: int, alignment: int, multiple: int)
    requires
        alignment > 0,
        multiple % alignment == 0,
        value <= multiple,
    ensures
        aligned(value, alignment) <= multiple,
{
    let q = (value + alignment - 1) / alignment;
    let p = multiple / alignment;
    aligned_is_next_multiple(value, alignment);
    assert(multiple == p * alignment) by (nonlinear_arith)
        requires
            alignment > 0,
            multiple % alignment == 0,
            p == multiple / alignment,
    ;
    if p < q {
        assert(p * alignment <= q * alignment - alignment) by (nonlinear_arith)
            requires
                p + 1 <= q,
                alignment > 0,
        ;
    } else {
        assert(p * alignment >= q * alignment) by (nonlinear_arith)
            requires
                p >= q,
                alignment > 0,
        ;
    }
}

/// A number that is already a multiple of the alignment stays as it is.
pub proof fn aligned_is_idempotent(value: int, alignment: int)
    requires
        alignment > 0,
        value % alignment == 0,
    ensures
        aligned(value, alignment) == value,
{
    aligned_is_next_multiple(value, alignment);
    aligned_is_least_multiple(value, alignment, value);
}

/// Returns `value` rounded up to `alignment`, a power of two.
pub fn align_up(value: u32, alignment: u32) -> (r: u32)
    requires
        alignment >= 1,
        value + alignment <= u32::MAX,
    ensures
        r == ((value + alignment - 1) as u32) & !((alignment - 1) as u32),
        is_power_of_two(alignment as int) ==> r == aligned(value as int, alignment as int),
{
    let x: u32 = value + alignment - 1;
    let m: u32 = alignment - 1;
    proof {
        assert(x & !m == x - (x & m)) by (bit_vector);
        if is_power_of_two(alignment as int) {
            let k = choose|k: nat| k < 32 && alignment == #[trigger] power2::pow2(k);
            assert(m == bits::low_bits_mask(k));
            bits::lemma_u32_low_bits_mask_is_mod(x, k);
            assert(x & m == x % alignment);
            let a = alignment as int;
            let y = x as int;
            assert(y - y % a == (y / a) * a) by (nonlinear_arith)
                requires
                    a > 0,
            ;
        }
    }
    x & !m
}

} // verus!
