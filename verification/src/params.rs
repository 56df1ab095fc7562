//! The boot parameter block: a fixed-layout structure handed to the
//! kernel at its entry point. Every field offset is mandated by the
//! kernel's boot protocol and must not be altered. 64-bit addresses are
//! split across pairs of 32-bit fields for historical compatibility.

use vstd::prelude::*;

use crate::firmware::splice;
use crate::firmware::zeros;

verus! {

/// Total size in bytes of the boot parameter block.
pub const BP_SIZE: usize = 4096;

/// Offset of the high half of the initrd base address.
pub const EXT_RAMDISK_IMAGE: usize = 0x0c0;

/// Offset of the high half of the initrd byte size.
pub const EXT_RAMDISK_SIZE: usize = 0x0c4;

/// Offset of the high half of the command-line address.
pub const EXT_CMD_LINE_PTR: usize = 0x0c8;

/// Offset of the firmware-info signature.
pub const EFI_LOADER_SIGNATURE: usize = 0x1c0;

/// Offset of the low half of the system-table address.
pub const EFI_SYSTAB: usize = 0x1c4;

/// Offset of the memory descriptor record size.
pub const EFI_MEMDESC_SIZE: usize = 0x1c8;

/// Offset of the memory descriptor record version.
pub const EFI_MEMDESC_VERSION: usize = 0x1cc;

/// Offset of the low half of the memory-map address.
pub const EFI_MEMMAP: usize = 0x1d0;

/// Offset of the memory map's total byte size.
pub const EFI_MEMMAP_SIZE: usize = 0x1d4;

/// Offset of the high half of the system-table address.
pub const EFI_SYSTAB_HI: usize = 0x1d8;

/// Offset of the high half of the memory-map address.
pub const EFI_MEMMAP_HI: usize = 0x1dc;

/// Offset of the setup header within the block, and of the kernel's
/// sector count byte within it.
pub const SETUP_HEADER: usize = 0x1f1;

/// Offset of the video-mode field.
pub const VID_MODE: usize = 0x1fa;

/// Offset of the byte whose value gives the setup header's true length,
/// counted from the two-byte jump that follows it.
pub const JUMP_LEN: usize = 0x201;

/// Offset of the header magic.
pub const HDR_MAGIC: usize = 0x202;

/// Offset of the boot-protocol version.
pub const HDR_VERSION: usize = 0x206;

/// Offset of the loader-identifier byte.
pub const TYPE_OF_LOADER: usize = 0x210;

/// Offset of the load-flags byte.
pub const LOADFLAGS: usize = 0x211;

/// Offset of the low half of the initrd base address.
pub const RAMDISK_IMAGE: usize = 0x218;

/// Offset of the low half of the initrd byte size.
pub const RAMDISK_SIZE: usize = 0x21c;

/// Offset of the low half of the command-line address.
pub const CMD_LINE_PTR: usize = 0x228;

/// Largest known size of the setup header in bytes.
pub const SETUP_HEADER_MAX: usize = 123;

/// The fixed signature a supported kernel image carries in its header.
pub const MAGIC_VALUE: u32 = 0x53726448;

/// The lowest boot-protocol version this loader supports.
pub const MIN_VERSION: u16 = 0x206;

/// Firmware-info signature reported to a 64-bit kernel.
pub const LOADER_SIGNATURE: u32 = 0x34364c45;

/// The byte of `s` at `off`.
pub open spec fn u8_at(s: Seq<u8>, off: int) -> u8 {
    s[off]
}

/// The 16-bit little-endian value of `s` at `off`.
pub open spec fn u16_at(s: Seq<u8>, off: int) -> u16 {
    vstd::bytes::spec_u16_from_le_bytes(s.subrange(off, off + 2))
}

/// The 32-bit little-endian value of `s` at `off`.
pub open spec fn u32_at(s: Seq<u8>, off: int) -> u32 {
    vstd::bytes::spec_u32_from_le_bytes(s.subrange(off, off + 4))
}

/// `s` with the byte at `off` replaced by `v`.
pub open spec fn with_u8(s: Seq<u8>, off: int, v: u8) -> Seq<u8> {
    splice(s, off, seq![v])
}

/// `s` with the two bytes at `off` replaced by `v` in little-endian order.
pub open spec fn with_u16(s: Seq<u8>, off: int, v: u16) -> Seq<u8> {
    splice(s, off, vstd::bytes::spec_u16_to_le_bytes(v))
}

/// `s` with the four bytes at `off` replaced by `v` in little-endian
/// order.
pub open spec fn with_u32(s: Seq<u8>, off: int, v: u32) -> Seq<u8> {
    splice(s, off, vstd::bytes::spec_u32_to_le_bytes(v))
}

/// The low 32 bits of a 64-bit address.
pub open spec fn spec_addr_low(a: u64) -> u32 {
    (a & 0xFFFF_FFFF) as u32
}

/// The high 32 bits of a 64-bit address.
pub open spec fn spec_addr_high(a: u64) -> u32 {
    (a >> 32) as u32
}

/// The 64-bit address a low/high pair decodes to.
pub open spec fn spec_addr_join(low: u32, high: u32) -> u64 {
    ((high as u64) << 32) | (low as u64)
}

/// The low 32 bits of a 64-bit address.
pub fn addr_low(a: u64) -> (r: u32)
    ensures
        r == spec_addr_low(a),
{
    proof {
        assert(a & 0xFFFF_FFFF < 0x1_0000_0000) by (bit_vector);
    }
    (a & 0xFFFF_FFFF) as u32
}

/// The high 32 bits of a 64-bit address.
pub fn addr_high(a: u64) -> (r: u32)
    ensures
        r == spec_addr_high(a),
{
    proof {
        assert(a >> 32 < 0x1_0000_0000) by (bit_vector);
    }
    (a >> 32) as u32
}

/// Law: splitting a 64-bit address into its low and high halves and
/// joining them again yields the address, for every address.
pub proof fn lemma_addr_split_round_trip(a: u64)
    ensures
        spec_addr_join(spec_addr_low(a), spec_addr_high(a)) == a,
        spec_addr_low(a) == a % 0x1_0000_0000,
        spec_addr_high(a) == a / 0x1_0000_0000,
{
    assert(a & 0xFFFF_FFFF < 0x1_0000_0000 && a >> 32 < 0x1_0000_0000) by (bit_vector);
    assert((((a >> 32) as u64) << 32) | ((a & 0xFFFF_FFFF) as u64) == a) by (bit_vector);
    assert(a & 0xFFFF_FFFF == a % 0x1_0000_0000) by (bit_vector);
    assert(a >> 32 == a / 0x1_0000_0000) by (bit_vector);
}

/// How many header bytes the kernel image says to copy: the distance from
/// the setup header to the end of the region its length byte describes,
/// capped at the largest known header size.
pub open spec fn header_size_of(image: Seq<u8>) -> int {
    let computed = 0x202 + (image[JUMP_LEN as int] as int) - (SETUP_HEADER as int);
    if computed <= SETUP_HEADER_MAX {
        computed
    } else {
        SETUP_HEADER_MAX as int
    }
}

/// `bp` with the setup header region overwritten by the image's header
/// bytes, exactly `header_size_of(image)` of them.
pub open spec fn staged_header(bp: Seq<u8>, image: Seq<u8>) -> Seq<u8> {
    splice(
        bp,
        SETUP_HEADER as int,
        image.subrange(SETUP_HEADER as int, SETUP_HEADER + header_size_of(image)),
    )
}

/// Whether a parameter block holds a supported setup header: the fixed
/// signature, and a protocol version at or above the supported minimum.
pub open spec fn header_accepted(s: Seq<u8>) -> bool {
    &&& u32_at(s, HDR_MAGIC as int) == MAGIC_VALUE
    &&& u16_at(s, HDR_VERSION as int) >= MIN_VERSION
}

/// Why a kernel image's header was rejected.
#[derive(Clone, Copy, PartialEq, Eq, Structural, Debug)]
pub enum FormatError {
    /// The magic does not match the fixed signature.
    NotSupported,
    /// The boot-protocol version is below the supported minimum.
    TooOld,
}

/// Law: a header whose magic is not the fixed signature is rejected,
/// whatever its version field holds.
pub proof fn lemma_rejects_wrong_magic(s: Seq<u8>)
    requires
        u32_at(s, HDR_MAGIC as int) != MAGIC_VALUE,
    ensures
        !header_accepted(s),
{
}

/// Law: with the correct magic, acceptance turns exactly on the version
/// reaching the supported minimum.
pub proof fn lemma_version_gate(s: Seq<u8>)
    requires
        u32_at(s, HDR_MAGIC as int) == MAGIC_VALUE,
    ensures
        header_accepted(s) <==> u16_at(s, HDR_VERSION as int) >= MIN_VERSION,
{
}

/// Law: staging copies exactly `header_size_of(image)` bytes from the
/// image into the header region and leaves every other byte alone.
pub proof fn lemma_staged_header_bytes(bp: Seq<u8>, image: Seq<u8>)
    requires
        bp.len() == BP_SIZE,
        image.len() >= SETUP_HEADER + SETUP_HEADER_MAX,
    ensures
        staged_header(bp, image).len() == BP_SIZE,
        forall|i: int|
            SETUP_HEADER <= i < SETUP_HEADER + header_size_of(image) ==> staged_header(bp, image)[i]
                == image[i],
        forall|i: int|
            0 <= i < BP_SIZE && !(SETUP_HEADER <= i < SETUP_HEADER + header_size_of(image))
                ==> staged_header(bp, image)[i] == bp[i],
{
    assert forall|i: int|
        SETUP_HEADER <= i < SETUP_HEADER + header_size_of(image) implies staged_header(bp, image)[i]
        == image[i] by {
        assert(staged_header(bp, image)[i] == image.subrange(
            SETUP_HEADER as int,
            SETUP_HEADER + header_size_of(image),
        )[i - SETUP_HEADER]);
    }
}

/// The boot parameter block under construction: all-zero at first,
/// written incrementally through named, offset-exact operations.
#[derive(Debug)]
pub struct BootParams {
    bytes: Vec<u8>,
}

impl BootParams {
    /// The block's bytes.
    pub closed spec fn view(&self) -> Seq<u8> {
        self.bytes@
    }

    /// The block has its fixed size.
    pub open spec fn wf(&self) -> bool {
        self.view().len() == BP_SIZE
    }

    /// Makes an all-zero parameter block.
    pub fn new() -> (r: BootParams)
        ensures
            r.wf(),
            r.view() == zeros(BP_SIZE as int),
    {
        let bytes: Vec<u8> = vec![0u8; BP_SIZE];
        let r = BootParams { bytes };
        proof {
            assert(r.view() =~= zeros(BP_SIZE as int));
        }
        r
    }

    /// The byte at `off`.
    pub fn read_u8(&self, off: usize) -> (r: u8)
        requires
            self.wf(),
            off < BP_SIZE,
        ensures
            r == u8_at(self.view(), off as int),
    {
        self.bytes[off]
    }

    /// The 16-bit little-endian value at `off`.
    pub fn read_u16(&self, off: usize) -> (r: u16)
        requires
            self.wf(),
            off + 2 <= BP_SIZE,
        ensures
            r == u16_at(self.view(), off as int),
    {
        let lo = self.bytes[off];
        let hi = self.bytes[off + 1];
        let mut pair: Vec<u8> = Vec::new();
        pair.push(lo);
        pair.push(hi);
        proof {
            assert(pair@ =~= self.view().subrange(off as int, off + 2));
        }
        vstd::bytes::u16_from_le_bytes(pair.as_slice())
    }

    /// The 32-bit little-endian value at `off`.
    pub fn read_u32(&self, off: usize) -> (r: u32)
        requires
            self.wf(),
            off + 4 <= BP_SIZE,
        ensures
            r == u32_at(self.view(), off as int),
    {
        let mut quad: Vec<u8> = Vec::new();
        let mut k: usize = 0;
        while k < 4
            invariant
                self.wf(),
                0 <= k <= 4,
                off + 4 <= BP_SIZE,
                quad@ =~= self.view().subrange(off as int, off + k),
            decreases 4 - k,
        {
            let b = self.bytes[off + k];
            quad.push(b);
            proof {
                assert(quad@ =~= self.view().subrange(off as int, off + k + 1));
            }
            k += 1;
        }
        vstd::bytes::u32_from_le_bytes(quad.as_slice())
    }

    fn write_bytes(&mut self, off: usize, src: &Vec<u8>)
        requires
            old(self).wf(),
            off + src@.len() <= BP_SIZE,
        ensures
            final(self).wf(),
            final(self).view() == splice(old(self).view(), off as int, src@),
    {
        let m = src.len();
        let mut t: usize = 0;
        while t < m
            invariant
                0 <= t <= m,
                m == src@.len(),
                off + m <= BP_SIZE,
                self.bytes@.len() == BP_SIZE,
                forall|j: int| 0 <= j < t ==> #[trigger] self.bytes@[off + j] == src@[j],
                forall|j: int|
                    0 <= j < BP_SIZE && !(off <= j < off + t) ==> self.bytes@[j] == old(
                        self,
                    ).view()[j],
            decreases m - t,
        {
            let b = src[t];
            self.bytes.set(off + t, b);
            t += 1;
        }
        proof {
            assert forall|i: int| 0 <= i < BP_SIZE implies self.bytes@[i] == splice(
                old(self).view(),
                off as int,
                src@,
            )[i] by {
                if off <= i < off + m {
                    assert(self.bytes@[off + (i - off)] == src@[i - off]);
                }
            }
            assert(final(self).view() =~= splice(old(self).view(), off as int, src@));
        }
    }

    /// Writes the byte `v` at `off`.
    pub fn write_u8(&mut self, off: usize, v: u8)
        requires
            old(self).wf(),
            off < BP_SIZE,
        ensures
            final(self).wf(),
            final(self).view() == with_u8(old(self).view(), off as int, v),
    {
        let mut one: Vec<u8> = Vec::new();
        one.push(v);
        proof {
            assert(one@ =~= seq![v]);
        }
        self.write_bytes(off, &one);
    }

    /// Writes `v` at `off` in little-endian order.
    pub fn write_u16(&mut self, off: usize, v: u16)
        requires
            old(self).wf(),
            off + 2 <= BP_SIZE,
        ensures
            final(self).wf(),
            final(self).view() == with_u16(old(self).view(), off as int, v),
    {
        let src = vstd::bytes::u16_to_le_bytes(v);
        self.write_bytes(off, &src);
    }

    /// Writes `v` at `off` in little-endian order.
    pub fn write_u32(&mut self, off: usize, v: u32)
        requires
            old(self).wf(),
            off + 4 <= BP_SIZE,
        ensures
            final(self).wf(),
            final(self).view() == with_u32(old(self).view(), off as int, v),
    {
        let src = vstd::bytes::u32_to_le_bytes(v);
        self.write_bytes(off, &src);
    }

    /// Copies the setup header out of the loaded kernel image: the length
    /// byte inside the image gives the true header size, bounded by the
    /// largest known size, and exactly that many bytes are copied.
    pub fn copy_setup_header(&mut self, image: &Vec<u8>)
        requires
            old(self).wf(),
            image@.len() >= SETUP_HEADER + SETUP_HEADER_MAX,
        ensures
            final(self).wf(),
            final(self).view() == staged_header(old(self).view(), image@),
    {
        let len_byte = image[JUMP_LEN];
        let computed = 0x202 + (len_byte as usize) - SETUP_HEADER;
        let n = if computed <= SETUP_HEADER_MAX {
            computed
        } else {
            SETUP_HEADER_MAX
        };
        assert(n == header_size_of(image@));
        let mut src: Vec<u8> = Vec::new();
        let mut t: usize = 0;
        while t < n
            invariant
                0 <= t <= n,
                n <= SETUP_HEADER_MAX,
                image@.len() >= SETUP_HEADER + SETUP_HEADER_MAX,
                src@ =~= image@.subrange(SETUP_HEADER as int, SETUP_HEADER + t),
            decreases n - t,
        {
            let b = image[SETUP_HEADER + t];
            src.push(b);
            proof {
                assert(src@ =~= image@.subrange(SETUP_HEADER as int, SETUP_HEADER + t + 1));
            }
            t += 1;
        }
        proof {
            assert(src@ =~= image@.subrange(SETUP_HEADER as int, SETUP_HEADER + n));
        }
        self.write_bytes(SETUP_HEADER, &src);
    }

    /// Validates the staged setup header: the magic must be the fixed
    /// signature and the version at least the supported minimum. A wrong
    /// magic is rejected whatever the version holds.
    pub fn validate_header(&self) -> (r: Result<(), FormatError>)
        requires
            self.wf(),
        ensures
            match r {
                Ok(()) => header_accepted(self.view()),
                Err(e) => {
                    &&& !header_accepted(self.view())
                    &&& (e == FormatError::NotSupported <==> u32_at(self.view(), HDR_MAGIC as int)
                        != MAGIC_VALUE)
                    &&& (e == FormatError::TooOld <==> (u32_at(self.view(), HDR_MAGIC as int)
                        == MAGIC_VALUE && u16_at(self.view(), HDR_VERSION as int) < MIN_VERSION))
                },
            },
    {
        let magic = self.read_u32(HDR_MAGIC);
        if magic != MAGIC_VALUE {
            return Err(FormatError::NotSupported);
        }
        let version = self.read_u16(HDR_VERSION);
        if version < MIN_VERSION {
            return Err(FormatError::TooOld);
        }
        Ok(())
    }
}

} // verus!
