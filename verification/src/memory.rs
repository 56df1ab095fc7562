//! Page-size arithmetic and memory-map descriptors.

use vstd::prelude::*;

verus! {

/// Size in bytes of one firmware page, fixed by the platform's
/// page-granular allocation service.
pub const PAGE_SIZE: usize = 4096;

/// Size in bytes of one serialized memory descriptor record, as reported
/// to the kernel in the boot parameter block.
pub const DESCRIPTOR_SIZE: u32 = 40;

/// Version of the memory descriptor record layout.
pub const DESCRIPTOR_VERSION: u32 = 1;

/// The number of pages needed to hold `bytes` bytes: the exact ceiling of
/// `bytes / PAGE_SIZE`.
pub open spec fn spec_page_count(bytes: int) -> int {
    (bytes + (PAGE_SIZE - 1)) / (PAGE_SIZE as int)
}

/// Gets how many pages are required for a specified number of bytes.
pub fn page_count(bytes: usize) -> (r: usize)
    ensures
        r == spec_page_count(bytes as int),
{
    proof {
        lemma_page_count_is_ceil(bytes as int);
    }
    (bytes / PAGE_SIZE) + if bytes % PAGE_SIZE == 0 {
        0
    } else {
        1
    }
}

/// The page count is the least number of whole pages covering `bytes`
/// bytes: it is zero exactly for zero bytes, covers the request, and no
/// smaller number of pages does.
pub proof fn lemma_page_count_is_ceil(bytes: int)
    requires
        bytes >= 0,
    ensures
        spec_page_count(bytes) == bytes / (PAGE_SIZE as int) + if bytes % (PAGE_SIZE as int) == 0 {
            0int
        } else {
            1int
        },
        spec_page_count(bytes) * (PAGE_SIZE as int) >= bytes,
        bytes > 0 ==> (spec_page_count(bytes) - 1) * (PAGE_SIZE as int) < bytes,
        spec_page_count(0) == 0,
{
    let p = PAGE_SIZE as int;
    vstd::arithmetic::div_mod::lemma_fundamental_div_mod(bytes, p);
    vstd::arithmetic::div_mod::lemma_fundamental_div_mod(bytes + p - 1, p);
    let q = bytes / p;
    let r = bytes % p;
    vstd::arithmetic::div_mod::lemma_mod_bound(bytes, p);
    if r == 0 {
        assert(bytes + p - 1 == q * p + (p - 1));
        vstd::arithmetic::div_mod::lemma_div_multiples_vanish_fancy(q, p - 1, p);
        assert((q * p + (p - 1)) / p == q);
    } else {
        assert(bytes + p - 1 == (q + 1) * p + (r - 1)) by {
            assert((q + 1) * p == q * p + p) by (nonlinear_arith);
        }
        vstd::arithmetic::div_mod::lemma_div_multiples_vanish_fancy(q + 1, r - 1, p);
        assert(((q + 1) * p + (r - 1)) / p == q + 1);
    }
    assert(spec_page_count(bytes) * p >= bytes) by {
        if r == 0 {
            assert(q * p == bytes);
        } else {
            assert((q + 1) * p == q * p + p) by (nonlinear_arith);
        }
    }
    if bytes > 0 {
        assert((spec_page_count(bytes) - 1) * p < bytes) by {
            if r == 0 {
                assert((q - 1) * p == q * p - p) by (nonlinear_arith);
            } else {
                assert(q * p <= bytes);
            }
        }
    }
}

/// One entry of the firmware's enumerated physical memory layout.
#[derive(Clone, Copy, PartialEq, Eq, Structural, Debug)]
pub struct MemoryDescriptor {
    /// Classification of the region.
    pub ty: u32,
    /// Physical base address of the region.
    pub physical_start: u64,
    /// Virtual base address of the region.
    pub virtual_start: u64,
    /// Length of the region in pages.
    pub number_of_pages: u64,
    /// Capability attributes of the region.
    pub attribute: u64,
}

} // verus!
