//! Blocks of memory that are aligned more strictly than the host's own.
//!
//! Such a block is cut out of a larger one: the address of the larger one is kept in the word below the
//! block, so that it can be given back.

use vstd::prelude::*;

verus! {

/// The alignment that the host gives every block.
pub const MALLOC_ALIGN: usize = 16;

/// Whether a block has to be cut out of a larger one.
pub fn needs_cutting(align: usize) -> (r: bool)
    ensures
        r == (align > MALLOC_ALIGN),
{
    align > MALLOC_ALIGN
}

/// How many bytes to ask the host for: those of the block, what aligning it may skip, and a word. Nothing
/// where no address space holds them.
pub fn padded_size(size: usize, align: usize, word: usize) -> (r: Option<usize>)
    ensures
        r == (if size + align + word <= usize::MAX {
            Some((size + align + word) as usize)
        } else {
            None
        }),
{
    match size.checked_add(align) {
        Some(n) => n.checked_add(word),
        None => None,
    }
}

/// The first address that is aligned and has a word below it in the host's block.
pub open spec fn is_first_aligned(address: int, base: int, align: int, word: int) -> bool {
    &&& address % align == 0
    &&& base + word <= address < base + word + align
}

/// Finds where in the host's block at `base` the aligned one starts.
pub fn aligned_address(base: usize, align: usize, word: usize) -> (r: usize)
    requires
        align > 0,
        base + word + align - 1 <= usize::MAX,
    ensures
        is_first_aligned(r as int, base as int, align as int, word as int),
{
    let reserved: usize = base + word;
    let over: usize = reserved % align;
    proof {
        let (m, a) = (reserved as int, align as int);
        vstd::arithmetic::div_mod::lemma_fundamental_div_mod(m, a);
        let q = m / a;
        if over == 0 {
            assert(m % a == 0);
        } else {
            assert(m + (a - over) == a * (q + 1)) by (nonlinear_arith)
                requires
                    m == a * q + over,
            ;
            vstd::arithmetic::div_mod::lemma_mod_multiples_basic(q + 1, a);
            assert(a * (q + 1) == (q + 1) * a) by (nonlinear_arith);
        }
    }
    if over == 0 {
        reserved
    } else {
        reserved + (align - over)
    }
}

/// The aligned block and the word below it lie in the host's block.
pub proof fn law_cut_block_fits(base: int, size: int, align: int, word: int, address: int)
    requires
        is_first_aligned(address, base, align, word),
    ensures
        base <= address - word,
        address + size <= base + (size + align + word),
{
}

/// There is only one first aligned address.
pub proof fn law_first_aligned_is_one(base: int, align: int, word: int, a: int, b: int)
    requires
        align > 0,
        is_first_aligned(a, base, align, word),
        is_first_aligned(b, base, align, word),
    ensures
        a == b,
{
    vstd::arithmetic::div_mod::lemma_fundamental_div_mod(a, align);
    vstd::arithmetic::div_mod::lemma_fundamental_div_mod(b, align);
    let (p, q) = (a / align, b / align);
    assert(p == q) by (nonlinear_arith)
        requires
            align > 0,
            -align < align * p - align * q < align,
    ;
}

} // verus!
