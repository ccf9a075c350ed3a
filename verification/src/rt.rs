//! Settings of the audio thread.
use vstd::prelude::*;

verus! {

/// The bits of the floating-point control word that flush tiny results to zero
/// and take tiny operands for zero.
pub const FLUSH_BITS: u32 = 0x8040;

/// The control word `csr` with denormal numbers switched off. The tails of echo
/// and convolution are full of them, and they are slow.
pub fn enable_flush_denormals(csr: u32) -> (r: u32)
    ensures
        r == csr | FLUSH_BITS,
{
    csr | FLUSH_BITS
}

/// Both bits are set, and no other is touched.
pub proof fn only_the_flush_bits_change(csr: u32)
    ensures
        (csr | FLUSH_BITS) & FLUSH_BITS == FLUSH_BITS,
        (csr | FLUSH_BITS) & !FLUSH_BITS == csr & !FLUSH_BITS,
{
    assert((csr | 0x8040u32) & 0x8040u32 == 0x8040u32) by (bit_vector);
    assert((csr | 0x8040u32) & !0x8040u32 == csr & !0x8040u32) by (bit_vector);
}

/// Switching off twice is switching off once.
pub proof fn flushing_twice_is_flushing_once(csr: u32)
    ensures
        (csr | FLUSH_BITS) | FLUSH_BITS == csr | FLUSH_BITS,
{
    assert((csr | 0x8040u32) | 0x8040u32 == csr | 0x8040u32) by (bit_vector);
}

} // verus!
