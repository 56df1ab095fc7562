//! Firmware context model: page and pool allocation, the memory-map
//! snapshot with its single-use exit token, and services termination.
//!
//! The context is an explicit value passed into every component that needs
//! firmware access. Addresses are served from a fixed range by a cursor
//! that only grows; every allocation or release changes the current token,
//! so a memory-map snapshot taken earlier can no longer authorize ending
//! boot services.

use vstd::prelude::*;

use crate::memory::MemoryDescriptor;
use crate::memory::DESCRIPTOR_SIZE;
use crate::status::Status;

verus! {

/// Lowest address served by the allocators.
pub const ADDR_BASE: u64 = 0x1_0000_0000;

/// Exclusive end of the address range served by the allocators.
pub const ADDR_LIMIT: u64 = 0x1_0400_0000;

/// Placement request for a page allocation.
#[derive(Clone, Copy, PartialEq, Eq, Structural, Debug)]
pub enum AllocateType {
    /// Any free pages.
    AnyPages,
    /// Pages below a maximum address.
    MaxAddress,
    /// Pages at an exact address.
    Address,
}

/// Classification tag attached to allocated memory.
#[derive(Clone, Copy, PartialEq, Eq, Structural, Debug)]
pub enum MemoryType {
    /// Code of the loaded application.
    LoaderCode,
    /// Data of the loaded application.
    LoaderData,
    /// Data internal to boot services.
    BootServicesData,
}

/// The base address aligned to the next page boundary at or above `c`.
pub open spec fn round_up_4k(c: int) -> int {
    ((c + 4095) / 4096) * 4096
}

/// The address aligned to the next 8-byte boundary at or above `c`.
pub open spec fn round_up_8(c: int) -> int {
    ((c + 7) / 8) * 8
}

/// Whether `pages` pages fit between the aligned cursor and the end of the
/// served range.
pub open spec fn pages_fit(cursor: int, pages: int) -> bool {
    round_up_4k(cursor) + pages * 4096 <= ADDR_LIMIT
}

proof fn lemma_round_up(c: int, a: int)
    requires
        0 <= c,
        a == 4096 || a == 8,
    ensures
        c <= ((c + a - 1) / a) * a < c + a,
        (((c + a - 1) / a) * a) % a == 0,
        forall|l: int| c <= l && #[trigger] (l % a) == 0 ==> ((c + a - 1) / a) * a <= l,
{
    let r = ((c + a - 1) / a) * a;
    vstd::arithmetic::div_mod::lemma_fundamental_div_mod(c + a - 1, a);
    vstd::arithmetic::div_mod::lemma_mod_bound(c + a - 1, a);
    assert(r == c + a - 1 - ((c + a - 1) % a));
    assert(c <= r < c + a);
    assert(r % a == 0) by {
        vstd::arithmetic::div_mod::lemma_mod_multiples_basic((c + a - 1) / a, a);
    }
    assert forall|l: int| c <= l && #[trigger] (l % a) == 0 implies r <= l by {
        vstd::arithmetic::div_mod::lemma_fundamental_div_mod(l, a);
        let qr = r / a;
        let ql = l / a;
        vstd::arithmetic::div_mod::lemma_fundamental_div_mod(r, a);
        vstd::arithmetic::div_mod::lemma_mod_bound(r, a);
        assert(r == qr * a);
        assert(l == ql * a);
        if qr > ql {
            assert(qr * a >= ql * a + a) by (nonlinear_arith)
                requires
                    qr > ql,
                    a > 0,
            ;
            assert(false);
        }
        assert(qr * a <= ql * a) by (nonlinear_arith)
            requires
                qr <= ql,
                a > 0,
        ;
    }
}

/// The page-aligned base lies at or above the cursor, within one page.
pub proof fn lemma_round_up_4k_bounds(c: int)
    requires
        0 <= c,
    ensures
        c <= round_up_4k(c) < c + 4096,
        round_up_4k(c) % 4096 == 0,
{
    lemma_round_up(c, 4096);
}

/// The 8-byte-aligned bound lies at or above the value, within one word.
pub proof fn lemma_round_up_8_bounds(c: int)
    requires
        0 <= c,
    ensures
        c <= round_up_8(c) < c + 8,
        round_up_8(c) % 8 == 0,
{
    lemma_round_up(c, 8);
}

/// An owned, contiguous region of whole pages.
#[derive(Debug)]
pub struct Pages {
    addr: u64,
    mem_type: MemoryType,
    data: Vec<u8>,
}

impl Pages {
    /// The region's base address.
    pub closed spec fn spec_addr(&self) -> u64 {
        self.addr
    }

    /// The region's memory-type tag.
    pub closed spec fn spec_mem_type(&self) -> MemoryType {
        self.mem_type
    }

    /// The region's bytes.
    pub closed spec fn contents(&self) -> Seq<u8> {
        self.data@
    }

    /// The region is well formed: page-aligned, inside the served range,
    /// and a whole number of pages long.
    pub open spec fn wf(&self) -> bool {
        &&& self.spec_addr() % 4096 == 0
        &&& ADDR_BASE <= self.spec_addr()
        &&& self.spec_addr() + self.contents().len() <= ADDR_LIMIT
        &&& self.contents().len() % 4096 == 0
    }

    /// The region's base address.
    pub fn addr(&self) -> (r: u64)
        ensures
            r == self.spec_addr(),
    {
        self.addr
    }

    /// The region's length in bytes.
    pub fn len(&self) -> (r: usize)
        ensures
            r == self.contents().len(),
    {
        self.data.len()
    }

    /// Borrows the region's bytes.
    pub fn bytes(&self) -> (r: &Vec<u8>)
        ensures
            r@ == self.contents(),
    {
        &self.data
    }

    /// Mutably borrows the region's bytes.
    pub fn bytes_mut(&mut self) -> (r: &mut Vec<u8>)
        ensures
            r@ == old(self).contents(),
            final(self).contents() == final(r)@,
            final(self).spec_addr() == old(self).spec_addr(),
            final(self).spec_mem_type() == old(self).spec_mem_type(),
    {
        &mut self.data
    }
}

/// The mathematical content of one pool block.
#[verifier::ext_equal]
pub ghost struct BlockV {
    /// Base address of the block's backing allocation.
    pub base: int,
    /// The block's bytes.
    pub data: Seq<u8>,
    /// Whether the block is still allocated.
    pub live: bool,
}

/// One pool-backed allocation.
struct PoolBlock {
    base: u64,
    data: Vec<u8>,
    live: bool,
}

impl PoolBlock {
    spec fn view(&self) -> BlockV {
        BlockV { base: self.base as int, data: self.data@, live: self.live }
    }
}

/// The firmware context: one value holding the allocators' state, the
/// memory layout to report, and the boot-services flag.
pub struct Firmware {
    next_addr: u64,
    mem_ops: usize,
    pool: Vec<PoolBlock>,
    descriptors: Vec<MemoryDescriptor>,
    systab_addr: u64,
    services_active: bool,
    exit_faults: u32,
}

impl Firmware {
    /// The allocation cursor: the lowest address not yet served.
    pub closed spec fn cursor(&self) -> u64 {
        self.next_addr
    }

    /// The current token: a memory-map snapshot authorizes ending boot
    /// services only while its token equals this value.
    pub closed spec fn token(&self) -> usize {
        self.mem_ops
    }

    /// The pool blocks served so far, in allocation order.
    pub closed spec fn pool_view(&self) -> Seq<BlockV> {
        self.pool@.map_values(|b: PoolBlock| b.view())
    }

    /// The memory layout this firmware reports.
    pub closed spec fn descriptors_view(&self) -> Seq<MemoryDescriptor> {
        self.descriptors@
    }

    /// Address of the firmware system table.
    pub closed spec fn systab(&self) -> u64 {
        self.systab_addr
    }

    /// Whether boot services are still available.
    pub closed spec fn services_active(&self) -> bool {
        self.services_active
    }

    /// How many times the services-termination call will still reject a
    /// current token.
    pub closed spec fn exit_faults_left(&self) -> u32 {
        self.exit_faults
    }

    /// The context is well formed.
    pub open spec fn wf(&self) -> bool {
        &&& ADDR_BASE <= self.cursor() <= ADDR_LIMIT
        &&& self.cursor() % 8 == 0
        &&& forall|k: int|
            0 <= k < self.pool_view().len() ==> {
                let b = #[trigger] self.pool_view()[k];
                &&& b.base % 8 == 0
                &&& ADDR_BASE <= b.base
                &&& b.base + b.data.len() <= self.cursor()
            }
        &&& forall|k1: int, k2: int|
            0 <= k1 < k2 < self.pool_view().len() ==> #[trigger] self.pool_view()[k1].base
                + self.pool_view()[k1].data.len() <= #[trigger] self.pool_view()[k2].base
    }

    /// Makes a firmware context reporting the given memory layout and
    /// system-table address, with `exit_faults` injected token rejections.
    pub fn new(systab_addr: u64, descriptors: Vec<MemoryDescriptor>, exit_faults: u32) -> (r:
        Firmware)
        ensures
            r.wf(),
            r.cursor() == ADDR_BASE,
            r.pool_view() =~= Seq::<BlockV>::empty(),
            r.descriptors_view() == descriptors@,
            r.systab() == systab_addr,
            r.services_active(),
            r.exit_faults_left() == exit_faults,
    {
        Firmware {
            next_addr: ADDR_BASE,
            mem_ops: 0,
            pool: Vec::new(),
            descriptors,
            systab_addr,
            services_active: true,
            exit_faults,
        }
    }

    /// The allocation cursor: the lowest address not yet served.
    pub fn allocation_cursor(&self) -> (r: u64)
        ensures
            r == self.cursor(),
    {
        self.next_addr
    }

    /// Whether boot services are still available.
    pub fn services_are_active(&self) -> (r: bool)
        ensures
            r == self.services_active(),
    {
        self.services_active
    }

    /// Address of the firmware system table.
    pub fn systab_address(&self) -> (r: u64)
        ensures
            r == self.systab(),
    {
        self.systab_addr
    }

    fn bump_token(&mut self)
        ensures
            final(self).token() != old(self).token(),
            final(self).cursor() == old(self).cursor(),
            final(self).pool_view() == old(self).pool_view(),
            final(self).descriptors_view() == old(self).descriptors_view(),
            final(self).systab() == old(self).systab(),
            final(self).services_active() == old(self).services_active(),
            final(self).exit_faults_left() == old(self).exit_faults_left(),
    {
        if self.mem_ops == usize::MAX {
            self.mem_ops = 0;
        } else {
            self.mem_ops = self.mem_ops + 1;
        }
    }
}

/// Acquires `pages` contiguous, page-aligned, zero-filled pages tagged
/// `mt`. Only the any-pages placement is served; a request that does not
/// fit in the remaining range is `OutOfResources`. Any allocation changes
/// the current token.
pub fn allocate_pages(fw: &mut Firmware, at: AllocateType, mt: MemoryType, pages: usize, addr: u64)
    -> (r: Result<Pages, Status>)
    requires
        old(fw).wf(),
    ensures
        final(fw).wf(),
        final(fw).pool_view() == old(fw).pool_view(),
        final(fw).descriptors_view() == old(fw).descriptors_view(),
        final(fw).systab() == old(fw).systab(),
        final(fw).services_active() == old(fw).services_active(),
        final(fw).exit_faults_left() == old(fw).exit_faults_left(),
        match r {
            Ok(p) => {
                &&& at is AnyPages
                &&& pages_fit(old(fw).cursor() as int, pages as int)
                &&& p.wf()
                &&& p.spec_addr() == round_up_4k(old(fw).cursor() as int)
                &&& p.spec_mem_type() == mt
                &&& p.contents().len() == pages * 4096
                &&& forall|i: int| 0 <= i < p.contents().len() ==> p.contents()[i] == 0
                &&& final(fw).cursor() == p.spec_addr() + pages * 4096
                &&& final(fw).token() != old(fw).token()
            },
            Err(s) => {
                &&& *final(fw) == *old(fw)
                &&& (if !(at is AnyPages) {
                    s == Status::Unsupported
                } else {
                    &&& s == Status::OutOfResources
                    &&& !pages_fit(old(fw).cursor() as int, pages as int)
                })
            },
        },
{
    match at {
        AllocateType::AnyPages => (),
        _ => {
            return Err(Status::Unsupported);
        },
    }
    let cursor = fw.next_addr;
    proof {
        lemma_round_up(cursor as int, 4096);
        assert(ADDR_LIMIT as int % 4096 == 0);
    }
    let base = ((cursor + 4095) / 4096) * 4096;
    assert(base == round_up_4k(cursor as int));
    assert(base <= ADDR_LIMIT);
    let room = (ADDR_LIMIT - base) / 4096;
    if pages as u64 > room {
        proof {
            assert(!pages_fit(cursor as int, pages as int)) by {
                let d = ADDR_LIMIT - base;
                assert(d % 4096 == 0) by (nonlinear_arith)
                    requires
                        base % 4096 == 0,
                        base == round_up_4k(cursor as int),
                        d == ADDR_LIMIT - base,
                        ADDR_LIMIT as int % 4096 == 0,
                ;
                vstd::arithmetic::div_mod::lemma_fundamental_div_mod(d as int, 4096);
                assert(d == room * 4096);
                assert(pages * 4096 >= (room + 1) * 4096) by (nonlinear_arith)
                    requires
                        pages > room,
                ;
            }
        }
        return Err(Status::OutOfResources);
    }
    proof {
        vstd::arithmetic::div_mod::lemma_fundamental_div_mod((ADDR_LIMIT - base) as int, 4096);
        vstd::arithmetic::div_mod::lemma_mod_bound((ADDR_LIMIT - base) as int, 4096);
        assert(pages * 4096 <= room * 4096) by (nonlinear_arith)
            requires
                pages <= room,
        ;
        assert(room * 4096 <= ADDR_LIMIT - base);
    }
    let bytes_u64 = (pages as u64) * 4096;
    let bytes: usize = bytes_u64 as usize;
    let data: Vec<u8> = vec![0u8; bytes];
    let region = Pages { addr: base, mem_type: mt, data };
    fw.next_addr = base + bytes_u64;
    fw.bump_token();
    proof {
        assert(region.wf());
        assert(fw.wf()) by {
            assert forall|k: int| 0 <= k < fw.pool_view().len() implies {
                let b = #[trigger] fw.pool_view()[k];
                &&& b.base % 8 == 0
                &&& ADDR_BASE <= b.base
                &&& b.base + b.data.len() <= fw.cursor()
            } by {
                assert(old(fw).pool_view()[k].base + old(fw).pool_view()[k].data.len() <= old(
                    fw,
                ).cursor());
            }
            assert forall|k1: int, k2: int|
                0 <= k1 < k2 < fw.pool_view().len() implies #[trigger] fw.pool_view()[k1].base
                + fw.pool_view()[k1].data.len() <= #[trigger] fw.pool_view()[k2].base by {
                assert(old(fw).pool_view()[k1].base + old(fw).pool_view()[k1].data.len() <= old(
                    fw,
                ).pool_view()[k2].base);
            }
            assert(fw.cursor() % 8 == 0) by {
                vstd::arithmetic::div_mod::lemma_fundamental_div_mod(base as int, 4096);
                let q = base as int / 4096;
                assert(base as int + pages * 4096 == 8 * (512 * q + 512 * pages))
                    by (nonlinear_arith)
                    requires
                        base as int == 4096 * q,
                ;
                vstd::arithmetic::div_mod::lemma_mod_multiples_basic(512 * q + 512 * pages, 8);
            }
        }
    }
    Ok(region)
}

/// Releases a page region back to the firmware. The model reuses no
/// addresses, so the release only gives the region up and invalidates
/// the current token; regions handed to the kernel are never released.
pub fn free_pages(fw: &mut Firmware, _region: Pages)
    requires
        old(fw).wf(),
    ensures
        final(fw).wf(),
        final(fw).cursor() == old(fw).cursor(),
        final(fw).pool_view() == old(fw).pool_view(),
        final(fw).descriptors_view() == old(fw).descriptors_view(),
        final(fw).systab() == old(fw).systab(),
        final(fw).services_active() == old(fw).services_active(),
        final(fw).exit_faults_left() == old(fw).exit_faults_left(),
        final(fw).token() != old(fw).token(),
{
    fw.bump_token();
    proof {
        lemma_wf_same_memory(old(fw), fw);
    }
}

/// A sequence of `n` zero bytes.
pub open spec fn zeros(n: int) -> Seq<u8> {
    Seq::new(n as nat, |i: int| 0u8)
}

/// `s` with the bytes of `t` written at offset `off`.
pub open spec fn splice(s: Seq<u8>, off: int, t: Seq<u8>) -> Seq<u8> {
    Seq::new(
        s.len(),
        |i: int|
            if off <= i < off + t.len() {
                t[i - off]
            } else {
                s[i]
            },
    )
}

/// Spare room requested beyond the caller's size so the base can be
/// shifted into alignment: nothing for alignments the pool grants anyway.
pub open spec fn pool_extra(align: int) -> int {
    if align <= 8 {
        0int
    } else {
        align - 8
    }
}

/// Bytes requested from the pool for a `(size, align)` allocation: the
/// caller's size, the alignment spare, and one word for the shift.
pub open spec fn pool_alloc_size(size: int, align: int) -> int {
    size + pool_extra(align) + 8
}

/// The smallest forward shift aligning `base` to `align`.
pub open spec fn adjust_of(base: int, align: int) -> int {
    (align - base % align) % align
}

/// Whether a `(size, align)` pool allocation fits at `cursor`.
pub open spec fn pool_fits(cursor: int, size: int, align: int) -> bool {
    cursor + round_up_8(pool_alloc_size(size, align)) <= ADDR_LIMIT
}

/// The block a `(size, align)` allocation at `cursor` creates: zero bytes,
/// with the shift stored in the word just past the user-visible region.
pub open spec fn fresh_block(cursor: int, size: int, align: int) -> BlockV {
    let adjust = adjust_of(cursor, align);
    BlockV {
        base: cursor,
        data: splice(
            zeros(pool_alloc_size(size, align)),
            adjust + size,
            vstd::bytes::spec_u64_to_le_bytes(adjust as u64),
        ),
        live: true,
    }
}

/// Whether `b` is live and its bytes cover the address `ptr`.
pub open spec fn covers(b: BlockV, ptr: int) -> bool {
    b.live && b.base <= ptr < b.base + b.data.len()
}

/// Index of the first live block whose bytes cover `ptr`, or -1.
pub open spec fn block_containing(pool: Seq<BlockV>, ptr: int) -> int
    decreases pool.len(),
{
    if pool.len() == 0 {
        -1int
    } else if covers(pool[0], ptr) {
        0int
    } else {
        let t = block_containing(pool.drop_first(), ptr);
        if t == -1 {
            -1int
        } else {
            t + 1
        }
    }
}

/// `block_containing` names the first covering block: it is a covering
/// index, everything before it does not cover, and -1 means nothing does.
pub proof fn lemma_block_containing(pool: Seq<BlockV>, ptr: int)
    ensures
        block_containing(pool, ptr) == -1 ==> forall|j: int|
            0 <= j < pool.len() ==> !covers(#[trigger] pool[j], ptr),
        block_containing(pool, ptr) != -1 ==> {
            let k = block_containing(pool, ptr);
            &&& 0 <= k < pool.len()
            &&& covers(pool[k], ptr)
            &&& forall|j: int| 0 <= j < k ==> !covers(#[trigger] pool[j], ptr)
        },
    decreases pool.len(),
{
    if pool.len() == 0 {
    } else if covers(pool[0], ptr) {
    } else {
        lemma_block_containing(pool.drop_first(), ptr);
        let t = block_containing(pool.drop_first(), ptr);
        if t == -1 {
            assert forall|j: int| 0 <= j < pool.len() implies !covers(
                #[trigger] pool[j],
                ptr,
            ) by {
                if j > 0 {
                    assert(pool.drop_first()[j - 1] == pool[j]);
                    assert(!covers(pool.drop_first()[j - 1], ptr));
                }
            }
        } else {
            assert(pool[t + 1] == pool.drop_first()[t]);
            assert forall|j: int| 0 <= j < t + 1 implies !covers(#[trigger] pool[j], ptr) by {
                if j > 0 {
                    assert(pool.drop_first()[j - 1] == pool[j]);
                    assert(!covers(pool.drop_first()[j - 1], ptr));
                }
            }
        }
    }
}

/// The forward shift lands within the spare room and aligns the base.
pub proof fn lemma_pool_adjust(base: int, align: int)
    requires
        base % 8 == 0,
        base >= 0,
        align >= 1,
        8int % align == 0 || align % 8 == 0,
    ensures
        0 <= adjust_of(base, align) <= pool_extra(align),
        adjust_of(base, align) < align,
        (base + adjust_of(base, align)) % align == 0,
{
    let r = base % align;
    vstd::arithmetic::div_mod::lemma_mod_bound(base, align);
    vstd::arithmetic::div_mod::lemma_fundamental_div_mod(base, align);
    let q = base / align;
    if 8int % align == 0 {
        // align divides 8 and 8 divides base, so the base is aligned.
        vstd::arithmetic::div_mod::lemma_fundamental_div_mod(8, align);
        vstd::arithmetic::div_mod::lemma_fundamental_div_mod(base, 8);
        let t = 8int / align;
        let m = base / 8;
        assert(base == (m * t) * align) by (nonlinear_arith)
            requires
                base == m * 8,
                8 == t * align,
        ;
        vstd::arithmetic::div_mod::lemma_mod_multiples_basic(m * t, align);
        assert(r == 0);
        vstd::arithmetic::div_mod::lemma_mod_multiples_basic(1, align);
        assert(adjust_of(base, align) == (align - 0) % align == align % align);
        assert(align == 1 * align);
        assert(align % align == 0);
        assert((base + 0) % align == 0);
    } else {
        // 8 divides the alignment and the base, so it divides the rest.
        vstd::arithmetic::div_mod::lemma_fundamental_div_mod(align, 8);
        vstd::arithmetic::div_mod::lemma_fundamental_div_mod(base, 8);
        let a8 = align / 8;
        let b8 = base / 8;
        assert(r == 8 * (b8 - q * a8)) by (nonlinear_arith)
            requires
                base == q * align + r,
                align == a8 * 8,
                base == b8 * 8,
        ;
        vstd::arithmetic::div_mod::lemma_mod_multiples_basic(b8 - q * a8, 8);
        assert(r % 8 == 0);
        if r == 0 {
            vstd::arithmetic::div_mod::lemma_mod_multiples_basic(1, align);
            assert(adjust_of(base, align) == align % align);
            assert(align == 1 * align);
            assert((base + 0) % align == 0);
        } else {
            assert(r >= 8) by {
                vstd::arithmetic::div_mod::lemma_fundamental_div_mod(r, 8);
                let r8 = r / 8;
                assert(r == r8 * 8);
                assert(r8 >= 1) by (nonlinear_arith)
                    requires
                        r == r8 * 8,
                        r > 0,
                ;
            }
            vstd::arithmetic::div_mod::lemma_small_mod((align - r) as nat, align as nat);
            assert(adjust_of(base, align) == align - r);
            assert(align - r <= align - 8);
            assert(align % 8 == 0 && align > 0 ==> align >= 8) by {
                if align < 8 {
                    vstd::arithmetic::div_mod::lemma_small_mod(align as nat, 8nat);
                }
            }
            assert(base + (align - r) == (q + 1) * align) by (nonlinear_arith)
                requires
                    base == q * align + r,
            ;
            vstd::arithmetic::div_mod::lemma_mod_multiples_basic(q + 1, align);
        }
    }
}

impl Firmware {
    /// Writes `bytes` into the live pool block covering `addr`, at the
    /// matching offset. The write changes no other block and no other byte
    /// of that block.
    pub fn write_pool(&mut self, addr: u64, bytes: &Vec<u8>)
        requires
            old(self).wf(),
            block_containing(old(self).pool_view(), addr as int) >= 0,
            ({
                let k = block_containing(old(self).pool_view(), addr as int);
                let b = old(self).pool_view()[k];
                addr - b.base + bytes@.len() <= b.data.len()
            }),
        ensures
            final(self).wf(),
            final(self).cursor() == old(self).cursor(),
            final(self).token() == old(self).token(),
            final(self).descriptors_view() == old(self).descriptors_view(),
            final(self).systab() == old(self).systab(),
            final(self).services_active() == old(self).services_active(),
            final(self).exit_faults_left() == old(self).exit_faults_left(),
            ({
                let k = block_containing(old(self).pool_view(), addr as int);
                let b = old(self).pool_view()[k];
                final(self).pool_view() == old(self).pool_view().update(
                    k,
                    BlockV {
                        base: b.base,
                        data: splice(b.data, addr - b.base, bytes@),
                        live: true,
                    },
                )
            }),
    {
        proof {
            lemma_block_containing(old(self).pool_view(), addr as int);
        }
        let ghost k = block_containing(old(self).pool_view(), addr as int);
        let n = self.pool.len();
        let mut i: usize = 0;
        while i < n
            invariant
                old(self).wf(),
                *self == *old(self),
                n == self.pool@.len(),
                0 <= i <= n,
                0 <= k < n,
                k == block_containing(old(self).pool_view(), addr as int),
                covers(old(self).pool_view()[k], addr as int),
                forall|j: int|
                    0 <= j < k ==> !covers(#[trigger] old(self).pool_view()[j], addr as int),
                addr - old(self).pool_view()[k].base + bytes@.len() <= old(
                    self,
                ).pool_view()[k].data.len(),
                forall|j: int|
                    0 <= j < i ==> !covers(#[trigger] old(self).pool_view()[j], addr as int),
            decreases n - i,
        {
            proof {
                assert(self.pool_view()[i as int] == self.pool@[i as int].view());
            }
            let hit = self.pool[i].live && self.pool[i].base <= addr && {
                let blen = self.pool[i].data.len();
                addr - self.pool[i].base < blen as u64
            };
            if hit {
                proof {
                    assert(covers(old(self).pool_view()[i as int], addr as int));
                    assert(i as int == k);
                }
                let base = self.pool[i].base;
                let ghost prev = self.pool@;
                let mut blk = self.pool.remove(i);
                let off: usize = (addr - base) as usize;
                let blen = blk.data.len();
                let m = bytes.len();
                let mut t: usize = 0;
                while t < m
                    invariant
                        0 <= t <= m,
                        m == bytes@.len(),
                        off + m <= blen,
                        blen == blk.data@.len(),
                        blk.base == old(self).pool_view()[k].base,
                        blk.live == old(self).pool_view()[k].live,
                        forall|j: int|
                            0 <= j < t ==> #[trigger] blk.data@[off + j] == bytes@[j],
                        forall|j: int|
                            0 <= j < blen && !(off <= j < off + t) ==> blk.data@[j] == old(
                                self,
                            ).pool_view()[k].data[j],
                    decreases m - t,
                {
                    let b = bytes[t];
                    blk.data.set(off + t, b);
                    t += 1;
                }
                let ghost blkv = blk;
                self.pool.insert(i, blk);
                proof {
                    let ghost b = old(self).pool_view()[k];
                    let ghost nb = BlockV {
                        base: b.base,
                        data: splice(b.data, addr - b.base, bytes@),
                        live: true,
                    };
                    let ghost mid = prev.remove(i as int);
                    assert forall|ii: int| 0 <= ii < blkv.data@.len() implies blkv.data@[ii]
                        == nb.data[ii] by {
                        if addr - b.base <= ii < addr - b.base + bytes@.len() {
                            assert(blkv.data@[off + (ii - off)] == bytes@[ii - off]);
                        }
                    }
                    assert(blkv.data@ =~= nb.data);
                    assert(blkv.view() =~= nb);
                    assert(self.pool@ == mid.insert(i as int, blkv));
                    assert(self.pool@.len() == prev.len());
                    assert forall|j: int| 0 <= j < self.pool_view().len() implies self.pool_view()[j]
                        == old(self).pool_view().update(k, nb)[j] by {
                        assert(self.pool_view()[j] == self.pool@[j].view());
                        if j < i {
                            assert(mid[j] == prev[j]);
                            assert(self.pool@[j] == mid[j]);
                        } else if j == i {
                            assert(self.pool@[j] == blkv);
                        } else {
                            assert(mid[j - 1] == prev[j]);
                            assert(self.pool@[j] == mid[j - 1]);
                        }
                    }
                    assert(self.pool_view() =~= old(self).pool_view().update(k, nb));
                    assert(self.wf()) by {
                        assert forall|j: int| 0 <= j < self.pool_view().len() implies {
                            let bb = #[trigger] self.pool_view()[j];
                            &&& bb.base % 8 == 0
                            &&& ADDR_BASE <= bb.base
                            &&& bb.base + bb.data.len() <= self.cursor()
                        } by {
                            assert(old(self).pool_view()[j].base % 8 == 0);
                            assert(old(self).pool_view()[j].base + old(
                                self,
                            ).pool_view()[j].data.len() <= old(self).cursor());
                        }
                        assert forall|k1: int, k2: int|
                            0 <= k1 < k2 < self.pool_view().len() implies #[trigger] self.pool_view()[k1].base
                            + self.pool_view()[k1].data.len()
                            <= #[trigger] self.pool_view()[k2].base by {
                            assert(old(self).pool_view()[k1].base + old(
                                self,
                            ).pool_view()[k1].data.len() <= old(self).pool_view()[k2].base);
                        }
                    }
                }
                return ;
            }
            proof {
                assert(!covers(old(self).pool_view()[i as int], addr as int));
            }
            i += 1;
        }
        proof {
            assert(!covers(old(self).pool_view()[k], addr as int));
            assert(false);
        }
    }

    /// Reads `len` bytes from the live pool block covering `addr`, at the
    /// matching offset.
    pub fn read_pool(&self, addr: u64, len: usize) -> (r: Option<Vec<u8>>)
        requires
            self.wf(),
            block_containing(self.pool_view(), addr as int) >= 0,
            ({
                let k = block_containing(self.pool_view(), addr as int);
                let b = self.pool_view()[k];
                addr - b.base + len <= b.data.len()
            }),
        ensures
            ({
                let k = block_containing(self.pool_view(), addr as int);
                let b = self.pool_view()[k];
                match r {
                    Some(v) => v@ == b.data.subrange(addr - b.base, addr - b.base + len),
                    None => false,
                }
            }),
    {
        proof {
            lemma_block_containing(self.pool_view(), addr as int);
        }
        let ghost k = block_containing(self.pool_view(), addr as int);
        let n = self.pool.len();
        let mut i: usize = 0;
        while i < n
            invariant
                self.wf(),
                n == self.pool@.len(),
                0 <= i <= n,
                0 <= k < n,
                k == block_containing(self.pool_view(), addr as int),
                covers(self.pool_view()[k], addr as int),
                addr - self.pool_view()[k].base + len <= self.pool_view()[k].data.len(),
                forall|j: int| 0 <= j < i ==> !covers(#[trigger] self.pool_view()[j], addr as int),
            decreases n - i,
        {
            proof {
                assert(self.pool_view()[i as int] == self.pool@[i as int].view());
            }
            let hit = self.pool[i].live && self.pool[i].base <= addr && {
                let blen = self.pool[i].data.len();
                addr - self.pool[i].base < blen as u64
            };
            if hit {
                proof {
                    lemma_block_containing(self.pool_view(), addr as int);
                    assert(covers(self.pool_view()[i as int], addr as int));
                    assert(i as int == k);
                }
                let base = self.pool[i].base;
                let off: usize = (addr - base) as usize;
                let blen = self.pool[i].data.len();
                let mut out: Vec<u8> = Vec::new();
                let mut t: usize = 0;
                while t < len
                    invariant
                        0 <= t <= len,
                        0 <= i < self.pool@.len(),
                        i == k,
                        base == self.pool@[i as int].view().base,
                        off == addr - base,
                        off + len <= blen,
                        blen == self.pool@[i as int].view().data.len(),
                        out@ =~= self.pool@[i as int].view().data.subrange(
                            off as int,
                            off + t,
                        ),
                    decreases len - t,
                {
                    let b = self.pool[i].data[off + t];
                    out.push(b);
                    proof {
                        assert(out@ =~= self.pool@[i as int].view().data.subrange(
                            off as int,
                            off + t + 1,
                        ));
                    }
                    t += 1;
                }
                proof {
                    assert(self.pool_view()[k] == self.pool@[i as int].view());
                }
                return Some(out);
            }
            proof {
                assert(!covers(self.pool_view()[i as int], addr as int));
            }
            i += 1;
        }
        proof {
            assert(!covers(self.pool_view()[k], addr as int));
            assert(false);
        }
        None
    }
}

/// General-purpose allocation on top of the pool, which only grants 8-byte
/// alignment: the base is shifted forward into alignment and the shift is
/// stored in the word just past the user-visible region, so that release
/// can recover the backing allocation without a side table.
pub struct PoolAllocator;

impl PoolAllocator {
    /// Allocates `size` bytes aligned to `align`. The supported alignments
    /// are those in a divisibility relation with the pool's own 8-byte
    /// grain, which covers every power of two. Any allocation changes the
    /// current token.
    pub fn allocate(&self, fw: &mut Firmware, size: usize, align: usize) -> (r: Option<u64>)
        requires
            old(fw).wf(),
            align >= 1,
            8u64 % align as u64 == 0 || align as u64 % 8 == 0,
        ensures
            final(fw).wf(),
            final(fw).descriptors_view() == old(fw).descriptors_view(),
            final(fw).systab() == old(fw).systab(),
            final(fw).services_active() == old(fw).services_active(),
            final(fw).exit_faults_left() == old(fw).exit_faults_left(),
            match r {
                Some(user) => {
                    &&& pool_fits(old(fw).cursor() as int, size as int, align as int)
                    &&& user == old(fw).cursor() + adjust_of(old(fw).cursor() as int, align as int)
                    &&& user as int % align as int == 0
                    &&& final(fw).pool_view() == old(fw).pool_view().push(
                        fresh_block(old(fw).cursor() as int, size as int, align as int),
                    )
                    &&& final(fw).cursor() == old(fw).cursor() + round_up_8(
                        pool_alloc_size(size as int, align as int),
                    )
                    &&& final(fw).token() != old(fw).token()
                },
                None => {
                    &&& *final(fw) == *old(fw)
                    &&& !pool_fits(old(fw).cursor() as int, size as int, align as int)
                },
            },
    {
        let cursor = fw.next_addr;
        if size as u64 > ADDR_LIMIT || align as u64 > ADDR_LIMIT {
            proof {
                lemma_round_up(pool_alloc_size(size as int, align as int), 8);
            }
            return None;
        }
        let extra: u64 = if align <= 8 {
            0
        } else {
            (align - 8) as u64
        };
        let total: u64 = size as u64 + extra + 8;
        let rounded: u64 = ((total + 7) / 8) * 8;
        proof {
            lemma_round_up(total as int, 8);
            assert(rounded == round_up_8(pool_alloc_size(size as int, align as int)));
        }
        if rounded > ADDR_LIMIT - cursor {
            return None;
        }
        proof {
            lemma_pool_adjust(cursor as int, align as int);
        }
        let align64 = align as u64;
        let mis = cursor % align64;
        let adjust: u64 = if mis == 0 {
            0
        } else {
            align64 - mis
        };
        proof {
            if mis != 0 {
                vstd::arithmetic::div_mod::lemma_small_mod(
                    (align64 - mis) as nat,
                    align64 as nat,
                );
            } else {
                assert(align64 == 1 * align64);
                vstd::arithmetic::div_mod::lemma_mod_multiples_basic(1, align64 as int);
            }
            assert(adjust == adjust_of(cursor as int, align as int));
        }
        assert(adjust + 8 <= total && total <= 0x0400_0000) by {
            assert(adjust <= pool_extra(align as int));
        }
        let total_usize: usize = total as usize;
        let mut data: Vec<u8> = vec![0u8; total_usize];
        let word = vstd::bytes::u64_to_le_bytes(adjust);
        let woff: usize = adjust as usize + size;
        let mut k: usize = 0;
        while k < 8
            invariant
                0 <= k <= 8,
                woff + 8 <= data@.len(),
                data@.len() == total as int,
                total <= 0x0400_0000,
                word@.len() == 8,
                word@ == vstd::bytes::spec_u64_to_le_bytes(adjust),
                forall|j: int| 0 <= j < k ==> #[trigger] data@[woff + j] == word@[j],
                forall|j: int|
                    0 <= j < data@.len() && !(woff <= j < woff + k) ==> data@[j] == 0,
            decreases 8 - k,
        {
            let b = word[k];
            data.set(woff + k, b);
            k += 1;
        }
        let ghost fresh = fresh_block(cursor as int, size as int, align as int);
        proof {
            assert forall|i: int| 0 <= i < data@.len() implies data@[i] == fresh.data[i] by {
                if woff <= i < woff + 8 {
                    assert(data@[woff + (i - woff)] == word@[i - woff]);
                }
            }
            assert(data@ =~= fresh.data);
        }
        let ghost dview = data@;
        let ghost prev = fw.pool@;
        let user = cursor + adjust;
        fw.pool.push(PoolBlock { base: cursor, data, live: true });
        proof {
            assert(fw.pool@.len() == prev.len() + 1);
            assert(fw.pool@.last().view() =~= fresh);
            assert forall|j: int| 0 <= j < fw.pool_view().len() implies fw.pool_view()[j] == (
            if j < prev.len() {
                old(fw).pool_view()[j]
            } else {
                fresh
            }) by {
                assert(fw.pool_view()[j] == fw.pool@[j].view());
                if j < prev.len() {
                    assert(fw.pool@[j] == prev[j]);
                    assert(old(fw).pool_view()[j] == prev[j].view());
                } else {
                    assert(fw.pool@[j] == fw.pool@.last());
                }
            }
            assert(fw.pool_view() =~= old(fw).pool_view().push(fresh));
        }
        let ghost mid_view = fw.pool_view();
        fw.next_addr = cursor + rounded;
        fw.bump_token();
        proof {
            assert(fw.pool_view() == mid_view);
            assert(fw.wf()) by {
                assert(fw.cursor() % 8 == 0);
                assert forall|j: int| 0 <= j < fw.pool_view().len() implies {
                    let b = #[trigger] fw.pool_view()[j];
                    &&& b.base % 8 == 0
                    &&& ADDR_BASE <= b.base
                    &&& b.base + b.data.len() <= fw.cursor()
                } by {
                    if j < prev.len() {
                        assert(old(fw).pool_view()[j].base + old(fw).pool_view()[j].data.len()
                            <= old(fw).cursor());
                    }
                }
                assert forall|k1: int, k2: int|
                    0 <= k1 < k2 < fw.pool_view().len() implies #[trigger] fw.pool_view()[k1].base
                    + fw.pool_view()[k1].data.len() <= #[trigger] fw.pool_view()[k2].base by {
                    if k2 < prev.len() {
                        assert(old(fw).pool_view()[k1].base + old(fw).pool_view()[k1].data.len()
                            <= old(fw).pool_view()[k2].base);
                    } else {
                        assert(old(fw).pool_view()[k1].base + old(fw).pool_view()[k1].data.len()
                            <= old(fw).cursor());
                    }
                }
            }
            assert((user as int) % (align as int) == 0);
        }
        Some(user)
    }

    /// Releases the allocation whose user-visible base is `ptr` and whose
    /// size was `size`: the word past the user-visible region names the
    /// shift applied at allocation, and the backing block at `ptr` minus
    /// that shift is released. Returns the recovered backing address. Any
    /// release changes the current token.
    #[verifier::rlimit(100)]
    pub fn deallocate(&self, fw: &mut Firmware, ptr: u64, size: usize) -> (r: u64)
        requires
            old(fw).wf(),
            block_containing(old(fw).pool_view(), ptr as int) >= 0,
            ({
                let k = block_containing(old(fw).pool_view(), ptr as int);
                let b = old(fw).pool_view()[k];
                &&& ptr - b.base + size + 8 <= b.data.len()
                &&& vstd::bytes::spec_u64_from_le_bytes(
                    b.data.subrange(ptr - b.base + size, ptr - b.base + size + 8),
                ) == ptr - b.base
            }),
        ensures
            final(fw).wf(),
            final(fw).cursor() == old(fw).cursor(),
            final(fw).descriptors_view() == old(fw).descriptors_view(),
            final(fw).systab() == old(fw).systab(),
            final(fw).services_active() == old(fw).services_active(),
            final(fw).exit_faults_left() == old(fw).exit_faults_left(),
            final(fw).token() != old(fw).token(),
            ({
                let k = block_containing(old(fw).pool_view(), ptr as int);
                let b = old(fw).pool_view()[k];
                &&& r == b.base
                &&& final(fw).pool_view() == old(fw).pool_view().update(
                    k,
                    BlockV { base: b.base, data: b.data, live: false },
                )
            }),
    {
        proof {
            lemma_block_containing(old(fw).pool_view(), ptr as int);
        }
        let ghost k = block_containing(old(fw).pool_view(), ptr as int);
        let n = fw.pool.len();
        let mut i: usize = 0;
        while i < n
            invariant
                old(fw).wf(),
                *fw == *old(fw),
                n == fw.pool@.len(),
                0 <= i <= n,
                0 <= k < n,
                k == block_containing(old(fw).pool_view(), ptr as int),
                covers(old(fw).pool_view()[k], ptr as int),
                forall|j: int| 0 <= j < k ==> !covers(#[trigger] old(fw).pool_view()[j], ptr as int),
                ptr - old(fw).pool_view()[k].base + size + 8 <= old(fw).pool_view()[k].data.len(),
                vstd::bytes::spec_u64_from_le_bytes(
                    old(fw).pool_view()[k].data.subrange(
                        ptr - old(fw).pool_view()[k].base + size,
                        ptr - old(fw).pool_view()[k].base + size + 8,
                    ),
                ) == ptr - old(fw).pool_view()[k].base,
                forall|j: int| 0 <= j < i ==> !covers(#[trigger] old(fw).pool_view()[j], ptr as int),
            decreases n - i,
        {
            proof {
                assert(fw.pool_view()[i as int] == fw.pool@[i as int].view());
            }
            let hit = fw.pool[i].live && fw.pool[i].base <= ptr && {
                let blen = fw.pool[i].data.len();
                ptr - fw.pool[i].base < blen as u64
            };
            if hit {
                proof {
                    assert(covers(old(fw).pool_view()[i as int], ptr as int));
                    assert(i as int == k);
                }
                let base = fw.pool[i].base;
                let blen = fw.pool[i].data.len();
                let off: usize = (ptr - base) as usize + size;
                let mut wordbuf: Vec<u8> = Vec::new();
                let mut t: usize = 0;
                while t < 8
                    invariant
                        *fw == *old(fw),
                        0 <= t <= 8,
                        0 <= i < fw.pool@.len(),
                        i == k,
                        base == fw.pool@[i as int].view().base,
                        off == ptr - base + size,
                        blen == fw.pool@[i as int].view().data.len(),
                        off + 8 <= blen,
                        wordbuf@ =~= fw.pool@[i as int].view().data.subrange(
                            off as int,
                            off + t,
                        ),
                    decreases 8 - t,
                {
                    let b = fw.pool[i].data[off + t];
                    wordbuf.push(b);
                    proof {
                        assert(wordbuf@ =~= fw.pool@[i as int].view().data.subrange(
                            off as int,
                            off + t + 1,
                        ));
                    }
                    t += 1;
                }
                let stored = vstd::bytes::u64_from_le_bytes(wordbuf.as_slice());
                proof {
                    assert(stored == ptr - base);
                }
                let recovered = ptr - stored;
                let ghost prev = fw.pool@;
                let mut blk = fw.pool.remove(i);
                blk.live = false;
                let ghost blkv = blk;
                fw.pool.insert(i, blk);
                proof {
                    let ghost mid = prev.remove(i as int);
                    let ghost b = old(fw).pool_view()[k];
                    assert(blkv.view() =~= BlockV { base: b.base, data: b.data, live: false });
                    assert(fw.pool@ == mid.insert(i as int, blkv));
                    assert(fw.pool@.len() == prev.len());
                    assert forall|j: int| 0 <= j < fw.pool_view().len() implies fw.pool_view()[j]
                        == old(fw).pool_view().update(
                        k,
                        BlockV { base: b.base, data: b.data, live: false },
                    )[j] by {
                        assert(fw.pool_view()[j] == fw.pool@[j].view());
                        if j < i {
                            assert(mid[j] == prev[j]);
                            assert(fw.pool@[j] == mid[j]);
                        } else if j == i {
                            assert(fw.pool@[j] == blkv);
                        } else {
                            assert(mid[j - 1] == prev[j]);
                            assert(fw.pool@[j] == mid[j - 1]);
                        }
                    }
                    assert(fw.pool_view() =~= old(fw).pool_view().update(
                        k,
                        BlockV { base: b.base, data: b.data, live: false },
                    ));
                }
                let ghost mid_view = fw.pool_view();
                fw.bump_token();
                proof {
                    let ghost b = old(fw).pool_view()[k];
                    assert(fw.pool_view() == mid_view);
                    assert(fw.wf()) by {
                        assert forall|j: int| 0 <= j < fw.pool_view().len() implies {
                            let bb = #[trigger] fw.pool_view()[j];
                            &&& bb.base % 8 == 0
                            &&& ADDR_BASE <= bb.base
                            &&& bb.base + bb.data.len() <= fw.cursor()
                        } by {
                            assert(old(fw).pool_view()[j].base % 8 == 0);
                            assert(old(fw).pool_view()[j].base + old(
                                fw,
                            ).pool_view()[j].data.len() <= old(fw).cursor());
                        }
                        assert forall|k1: int, k2: int|
                            0 <= k1 < k2 < fw.pool_view().len() implies #[trigger] fw.pool_view()[k1].base
                            + fw.pool_view()[k1].data.len()
                            <= #[trigger] fw.pool_view()[k2].base by {
                            assert(old(fw).pool_view()[k1].base + old(
                                fw,
                            ).pool_view()[k1].data.len() <= old(fw).pool_view()[k2].base);
                        }
                    }
                }
                proof {
                    let ghost b = old(fw).pool_view()[k];
                    assert(base == b.base);
                    assert(stored == ptr - base);
                    assert(recovered == b.base);
                    assert(fw.pool_view() == old(fw).pool_view().update(
                        k,
                        BlockV { base: b.base, data: b.data, live: false },
                    ));
                }
                return recovered;
            }
            proof {
                assert(!covers(old(fw).pool_view()[i as int], ptr as int));
            }
            i += 1;
        }
        proof {
            assert(!covers(old(fw).pool_view()[k], ptr as int));
            assert(false);
        }
        0
    }
}

/// Law: a pool allocation can always be released through its stored
/// shift word alone. The block an allocation at `cursor` creates serves a
/// user base aligned to `align`; the word just past the user-visible
/// region lies inside the block and names the shift, so release recovers
/// exactly the backing base address.
pub proof fn lemma_pool_allocation_recoverable(cursor: int, size: int, align: int)
    requires
        cursor % 8 == 0,
        0 <= cursor,
        0 <= size,
        align >= 1,
        align <= ADDR_LIMIT,
        8int % align == 0 || align % 8 == 0,
    ensures
        ({
            let b = fresh_block(cursor, size, align);
            let user = cursor + adjust_of(cursor, align);
            &&& user % align == 0
            &&& b.base <= user
            &&& user - b.base + size + 8 <= b.data.len()
            &&& vstd::bytes::spec_u64_from_le_bytes(
                b.data.subrange(user - b.base + size, user - b.base + size + 8),
            ) == user - b.base
            &&& user - (user - b.base) == b.base
        }),
{
    lemma_pool_adjust(cursor, align);
    let adjust = adjust_of(cursor, align);
    let b = fresh_block(cursor, size, align);
    let user = cursor + adjust;
    vstd::bytes::lemma_auto_spec_u64_to_from_le_bytes();
    let word = vstd::bytes::spec_u64_to_le_bytes(adjust as u64);
    assert(word.len() == 8);
    assert(b.data.len() == pool_alloc_size(size, align));
    assert(adjust + size + 8 <= b.data.len());
    assert forall|i: int| 0 <= i < 8 implies b.data.subrange(
        adjust + size,
        adjust + size + 8,
    )[i] == word[i] by {
        assert(b.data[adjust + size + i] == word[i]);
    }
    assert(b.data.subrange(adjust + size, adjust + size + 8) =~= word);
    assert(adjust as u64 as int == adjust);
    assert(user - b.base == adjust);
}

/// An ordered snapshot of the memory layout, the address it was staged
/// at, and the single-use token that authorizes ending boot services.
pub struct MemoryMapSnapshot {
    descriptors: Vec<MemoryDescriptor>,
    addr: u64,
    key: usize,
}

impl MemoryMapSnapshot {
    /// The captured memory descriptors, in order.
    pub closed spec fn descriptors_view(&self) -> Seq<MemoryDescriptor> {
        self.descriptors@
    }

    /// The address the serialized snapshot was staged at.
    pub closed spec fn spec_addr(&self) -> u64 {
        self.addr
    }

    /// The exit token captured with the snapshot.
    pub closed spec fn spec_key(&self) -> usize {
        self.key
    }

    /// The captured memory descriptors, in order.
    pub fn descriptors(&self) -> (r: &Vec<MemoryDescriptor>)
        ensures
            r@ == self.descriptors_view(),
    {
        &self.descriptors
    }

    /// The address the serialized snapshot was staged at.
    pub fn addr(&self) -> (r: u64)
        ensures
            r == self.spec_addr(),
    {
        self.addr
    }

    /// The exit token captured with the snapshot.
    pub fn key(&self) -> (r: usize)
        ensures
            r == self.spec_key(),
    {
        self.key
    }

    /// Enumerates the memory layout and stages the serialized map. The
    /// returned token is current as of this call; any later allocation or
    /// release invalidates it, so this must be the last thing obtained
    /// before ending boot services.
    pub fn capture(fw: &mut Firmware) -> (r: Result<MemoryMapSnapshot, Status>)
        requires
            old(fw).wf(),
        ensures
            final(fw).wf(),
            final(fw).pool_view() == old(fw).pool_view(),
            final(fw).descriptors_view() == old(fw).descriptors_view(),
            final(fw).systab() == old(fw).systab(),
            final(fw).services_active() == old(fw).services_active(),
            final(fw).exit_faults_left() == old(fw).exit_faults_left(),
            match r {
                Ok(s) => {
                    &&& s.descriptors_view() == old(fw).descriptors_view()
                    &&& s.spec_addr() == old(fw).cursor()
                    &&& s.spec_key() == final(fw).token()
                    &&& final(fw).cursor() == old(fw).cursor() + (DESCRIPTOR_SIZE as int) * old(
                        fw,
                    ).descriptors_view().len()
                    &&& final(fw).token() != old(fw).token()
                },
                Err(s) => {
                    &&& *final(fw) == *old(fw)
                    &&& s == Status::OutOfResources
                    &&& old(fw).cursor() + (DESCRIPTOR_SIZE as int) * old(
                        fw,
                    ).descriptors_view().len() > ADDR_LIMIT
                },
            },
    {
        let n = fw.descriptors.len();
        if n as u64 > 0x0040_0000 {
            proof {
                assert((DESCRIPTOR_SIZE as int) * (n as int) > ADDR_LIMIT - ADDR_BASE)
                    by (nonlinear_arith)
                    requires
                        n as int > 0x0040_0000,
                ;
            }
            return Err(Status::OutOfResources);
        }
        let bytes: u64 = (n as u64) * (DESCRIPTOR_SIZE as u64);
        if bytes > ADDR_LIMIT - fw.next_addr {
            return Err(Status::OutOfResources);
        }
        let mut copied: Vec<MemoryDescriptor> = Vec::new();
        let mut i: usize = 0;
        while i < n
            invariant
                n == fw.descriptors@.len(),
                0 <= i <= n,
                copied@ =~= fw.descriptors@.subrange(0, i as int),
            decreases n - i,
        {
            copied.push(fw.descriptors[i]);
            assert(copied@ =~= fw.descriptors@.subrange(0, i + 1));
            i += 1;
        }
        proof {
            assert(copied@ =~= fw.descriptors@);
        }
        let addr = fw.next_addr;
        fw.next_addr = addr + bytes;
        fw.bump_token();
        let snap = MemoryMapSnapshot { descriptors: copied, addr, key: fw.mem_ops };
        proof {
            assert(fw.cursor() % 8 == 0) by {
                vstd::arithmetic::div_mod::lemma_fundamental_div_mod(addr as int, 8);
                let q = addr as int / 8;
                assert(addr as int + 40 * (n as int) == 8 * (q + 5 * n)) by (nonlinear_arith)
                    requires
                        addr as int == 8 * q,
                ;
                vstd::arithmetic::div_mod::lemma_mod_multiples_basic(q + 5 * (n as int), 8);
            }
            assert(fw.wf()) by {
                assert forall|k: int| 0 <= k < fw.pool_view().len() implies {
                    let b = #[trigger] fw.pool_view()[k];
                    &&& b.base % 8 == 0
                    &&& ADDR_BASE <= b.base
                    &&& b.base + b.data.len() <= fw.cursor()
                } by {
                    assert(old(fw).pool_view()[k].base + old(fw).pool_view()[k].data.len() <= old(
                        fw,
                    ).cursor());
                }
                assert forall|k1: int, k2: int|
                    0 <= k1 < k2 < fw.pool_view().len() implies #[trigger] fw.pool_view()[k1].base
                    + fw.pool_view()[k1].data.len() <= #[trigger] fw.pool_view()[k2].base by {
                    assert(old(fw).pool_view()[k1].base + old(fw).pool_view()[k1].data.len() <= old(
                        fw,
                    ).pool_view()[k2].base);
                }
            }
        }
        Ok(snap)
    }
}

/// Enumerates the memory layout, returning the descriptors and the exit
/// token. The token is invalidated by any later allocation or release.
pub fn get_memory_map(fw: &mut Firmware) -> (r: Result<(Vec<MemoryDescriptor>, usize), Status>)
    requires
        old(fw).wf(),
    ensures
        final(fw).wf(),
        final(fw).pool_view() == old(fw).pool_view(),
        final(fw).descriptors_view() == old(fw).descriptors_view(),
        final(fw).systab() == old(fw).systab(),
        final(fw).services_active() == old(fw).services_active(),
        final(fw).exit_faults_left() == old(fw).exit_faults_left(),
        match r {
            Ok(p) => {
                &&& p.0@ == old(fw).descriptors_view()
                &&& p.1 == final(fw).token()
                &&& final(fw).token() != old(fw).token()
            },
            Err(s) => {
                &&& *final(fw) == *old(fw)
                &&& s == Status::OutOfResources
            },
        },
{
    match MemoryMapSnapshot::capture(fw) {
        Ok(snap) => {
            let MemoryMapSnapshot { descriptors, addr: _, key } = snap;
            Ok((descriptors, key))
        },
        Err(s) => Err(s),
    }
}

proof fn lemma_wf_same_memory(a: &Firmware, b: &Firmware)
    requires
        a.wf(),
        b.pool_view() == a.pool_view(),
        b.cursor() == a.cursor(),
    ensures
        b.wf(),
{
    assert forall|k: int| 0 <= k < b.pool_view().len() implies {
        let blk = #[trigger] b.pool_view()[k];
        &&& blk.base % 8 == 0
        &&& ADDR_BASE <= blk.base
        &&& blk.base + blk.data.len() <= b.cursor()
    } by {
        assert(a.pool_view()[k].base + a.pool_view()[k].data.len() <= a.cursor());
        assert(a.pool_view()[k].base % 8 == 0);
    }
    assert forall|k1: int, k2: int|
        0 <= k1 < k2 < b.pool_view().len() implies #[trigger] b.pool_view()[k1].base
        + b.pool_view()[k1].data.len() <= #[trigger] b.pool_view()[k2].base by {
        assert(a.pool_view()[k1].base + a.pool_view()[k1].data.len() <= a.pool_view()[k2].base);
    }
}

/// Irrevocably ends boot services. The call succeeds exactly when the
/// token is current and no injected rejection is left; a failed call
/// changes the current token, so the caller must take a fresh snapshot
/// before retrying.
pub fn exit_boot_services(fw: &mut Firmware, key: usize) -> (r: Result<(), Status>)
    requires
        old(fw).wf(),
        old(fw).services_active(),
    ensures
        final(fw).wf(),
        final(fw).cursor() == old(fw).cursor(),
        final(fw).pool_view() == old(fw).pool_view(),
        final(fw).descriptors_view() == old(fw).descriptors_view(),
        final(fw).systab() == old(fw).systab(),
        match r {
            Ok(()) => {
                &&& old(fw).exit_faults_left() == 0
                &&& key == old(fw).token()
                &&& !final(fw).services_active()
                &&& final(fw).token() == old(fw).token()
                &&& final(fw).exit_faults_left() == 0
            },
            Err(s) => {
                &&& s == Status::InvalidParameter
                &&& old(fw).exit_faults_left() > 0 || key != old(fw).token()
                &&& final(fw).services_active()
                &&& final(fw).token() != old(fw).token()
                &&& final(fw).exit_faults_left() == (if old(fw).exit_faults_left() > 0 {
                    (old(fw).exit_faults_left() - 1) as u32
                } else {
                    0u32
                })
            },
        },
{
    if fw.exit_faults > 0 {
        fw.exit_faults = fw.exit_faults - 1;
        fw.bump_token();
        proof {
            lemma_wf_same_memory(old(fw), fw);
        }
        return Err(Status::InvalidParameter);
    }
    if key != fw.mem_ops {
        fw.bump_token();
        proof {
            lemma_wf_same_memory(old(fw), fw);
        }
        return Err(Status::InvalidParameter);
    }
    fw.services_active = false;
    proof {
        lemma_wf_same_memory(old(fw), fw);
    }
    Ok(())
}

} // verus!
