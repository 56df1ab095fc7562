//! The boot orchestration: loading and validating the kernel image,
//! staging the payload bundle and the command line, building the
//! parameter block, snapshotting the memory map, ending boot services,
//! and computing the kernel entry point for the final transfer.

use vstd::prelude::*;

use crate::firmware::allocate_pages;
use crate::firmware::block_containing;
use crate::firmware::covers;
use crate::firmware::exit_boot_services;
use crate::firmware::free_pages;
use crate::firmware::lemma_block_containing;
use crate::firmware::pages_fit;
use crate::firmware::pool_alloc_size;
use crate::firmware::pool_fits;
use crate::firmware::round_up_4k;
use crate::firmware::round_up_8;
use crate::firmware::ADDR_LIMIT;
use crate::firmware::zeros;
use crate::firmware::AllocateType;
use crate::firmware::Firmware;
use crate::firmware::MemoryMapSnapshot;
use crate::firmware::MemoryType;
use crate::firmware::Pages;
use crate::firmware::PoolAllocator;
use crate::fs::File;
use crate::memory::page_count;
use crate::memory::spec_page_count;
use crate::memory::DESCRIPTOR_SIZE;
use crate::memory::DESCRIPTOR_VERSION;
use crate::params::addr_high;
use crate::params::addr_low;
use crate::params::header_accepted;
use crate::params::HDR_MAGIC;
use crate::params::HDR_VERSION;
use crate::params::spec_addr_high;
use crate::params::spec_addr_low;
use crate::params::staged_header;
use crate::params::u16_at;
use crate::params::u32_at;
use crate::params::u8_at;
use crate::params::with_u16;
use crate::params::with_u32;
use crate::params::with_u8;
use crate::params::BootParams;
use crate::params::FormatError;
use crate::params::BP_SIZE;
use crate::params::CMD_LINE_PTR;
use crate::params::EFI_LOADER_SIGNATURE;
use crate::params::EFI_MEMDESC_SIZE;
use crate::params::EFI_MEMDESC_VERSION;
use crate::params::EFI_MEMMAP;
use crate::params::EFI_MEMMAP_HI;
use crate::params::EFI_MEMMAP_SIZE;
use crate::params::EFI_SYSTAB;
use crate::params::EFI_SYSTAB_HI;
use crate::params::EXT_CMD_LINE_PTR;
use crate::params::EXT_RAMDISK_IMAGE;
use crate::params::EXT_RAMDISK_SIZE;
use crate::params::LOADER_SIGNATURE;
use crate::params::LOADFLAGS;
use crate::params::RAMDISK_IMAGE;
use crate::params::RAMDISK_SIZE;
use crate::params::SETUP_HEADER;
use crate::params::SETUP_HEADER_MAX;
use crate::params::TYPE_OF_LOADER;
use crate::params::VID_MODE;
use crate::status::Status;

verus! {

/// `c` extended with zero bytes to the whole pages that hold it.
pub open spec fn padded(c: Seq<u8>) -> Seq<u8> {
    c + zeros(spec_page_count(c.len() as int) * 4096 - c.len())
}

/// The contents of each file, in order.
pub open spec fn contents_of(files: Seq<File>) -> Seq<Seq<u8>> {
    files.map_values(|f: File| f.contents())
}

/// The concatenation of the byte sequences, in order, with no padding
/// between them.
pub open spec fn concat_files(files: Seq<Seq<u8>>) -> Seq<u8>
    decreases files.len(),
{
    if files.len() == 0 {
        Seq::empty()
    } else {
        files[0] + concat_files(files.drop_first())
    }
}

/// Where the `k`-th byte sequence begins inside the concatenation.
pub open spec fn offset_of(files: Seq<Seq<u8>>, k: int) -> int {
    concat_files(files.take(k)).len() as int
}

proof fn lemma_concat_split(files: Seq<Seq<u8>>, k: int)
    requires
        0 <= k <= files.len(),
    ensures
        concat_files(files) == concat_files(files.take(k)) + concat_files(files.skip(k)),
    decreases k,
{
    if k == 0 {
        assert(files.take(0) =~= Seq::<Seq<u8>>::empty());
        assert(files.skip(0) =~= files);
        assert(concat_files(files) =~= concat_files(files.take(0)) + concat_files(files.skip(0)));
    } else {
        let df = files.drop_first();
        lemma_concat_split(df, k - 1);
        assert(files.take(k).drop_first() =~= df.take(k - 1));
        assert(files.skip(k) =~= df.skip(k - 1));
        assert(files.take(k).len() == k);
        assert(concat_files(files.take(k)) == files[0] + concat_files(df.take(k - 1)));
        assert(concat_files(files) == files[0] + concat_files(df));
        assert(concat_files(files) =~= concat_files(files.take(k)) + concat_files(files.skip(k)));
    }
}

proof fn lemma_concat_snoc(files: Seq<Seq<u8>>, k: int)
    requires
        0 <= k < files.len(),
    ensures
        concat_files(files.take(k + 1)) == concat_files(files.take(k)) + files[k],
{
    let t = files.take(k + 1);
    lemma_concat_split(t, k);
    assert(t.take(k) =~= files.take(k));
    assert(t.skip(k) =~= seq![files[k]]);
    assert(concat_files(seq![files[k]]) =~= files[k]) by {
        assert(seq![files[k]].drop_first() =~= Seq::<Seq<u8>>::empty());
        assert(concat_files(Seq::<Seq<u8>>::empty()) =~= Seq::<u8>::empty());
        assert(seq![files[k]][0] == files[k]);
    }
    assert(concat_files(files.take(k + 1)) =~= concat_files(files.take(k)) + files[k]);
}

/// Appending one more sequence grows the concatenation by its length.
pub proof fn lemma_take_snoc_len(files: Seq<Seq<u8>>, k: int)
    requires
        0 <= k < files.len(),
    ensures
        concat_files(files.take(k + 1)).len() == concat_files(files.take(k)).len()
            + files[k].len(),
{
    lemma_concat_snoc(files, k);
}

/// A prefix of the sequences concatenates to no more than the whole.
pub proof fn lemma_concat_prefix_len(files: Seq<Seq<u8>>, k: int)
    requires
        0 <= k <= files.len(),
    ensures
        concat_files(files.take(k)).len() <= concat_files(files).len(),
{
    lemma_concat_split(files, k);
}

/// Law: the concatenated bundle lays the byte sequences out in listed
/// order with no padding: its length is the sum of theirs, and the byte
/// range starting at each sequence's offset equals that sequence exactly.
pub proof fn lemma_bundle_layout(files: Seq<Seq<u8>>, k: int)
    requires
        0 <= k < files.len(),
    ensures
        offset_of(files, k) + files[k].len() == offset_of(files, k + 1),
        offset_of(files, files.len() as int) == concat_files(files).len(),
        concat_files(files).subrange(offset_of(files, k), offset_of(files, k) + files[k].len())
            == files[k],
{
    lemma_concat_snoc(files, k);
    assert(files.take(files.len() as int) =~= files);
    lemma_concat_split(files, k + 1);
    let pre = concat_files(files.take(k));
    let rest = concat_files(files.skip(k + 1));
    assert(concat_files(files) == (pre + files[k]) + rest);
    assert(concat_files(files).subrange(offset_of(files, k), offset_of(files, k) + files[k].len())
        =~= files[k]);
}

/// An error that aborts the boot orchestration.
#[derive(Debug)]
pub enum BootError {
    /// The kernel image region could not be allocated.
    KernelAlloc(Status),
    /// The kernel image's metadata query or a read of it failed.
    KernelIo(Status),
    /// A payload's metadata query or a read of it failed.
    InitrdIo(Status),
    /// The kernel image is not supported: wrong signature or a protocol
    /// version below the minimum.
    Format(FormatError),
    /// The command-line buffer could not be allocated.
    CmdLineAlloc(Status),
    /// The payload bundle region could not be allocated.
    InitrdAlloc(Status),
    /// The memory map could not be captured.
    MemoryMap(Status),
    /// The exit token was rejected, and the one retry with a fresh
    /// snapshot was rejected too.
    ServiceTermination(Status),
}

/// Everything the terminal transfer consumes: the parameter block, the
/// staged regions, and the kernel entry address.
#[derive(Debug)]
pub struct Handoff {
    /// The completed boot parameter block.
    pub bp: BootParams,
    /// The staged kernel image.
    pub kernel: Pages,
    /// The staged payload bundle.
    pub initrd: Pages,
    /// Address of the NUL-terminated command-line copy.
    pub cmd_line_addr: u64,
    /// Address of the serialized memory map.
    pub map_addr: u64,
    /// The kernel entry address.
    pub entry: u64,
}

/// Stages the payload bundle: sums the files' sizes, allocates one page
/// region for the total, and copies each file's bytes at its running
/// offset, preserving listed order.
#[verifier::loop_isolation(false)]
pub fn stage_initrds(fw: &mut Firmware, initrds: Vec<File>) -> (r: Result<(Pages, usize), BootError>)
    requires
        old(fw).wf(),
        forall|i: int|
            0 <= i < initrds@.len() ==> {
                &&& (#[trigger] initrds@[i]).wf()
                &&& !initrds@[i].is_directory()
                &&& initrds@[i].position() == 0
            },
        concat_files(contents_of(initrds@)).len() < usize::MAX - 4096,
    ensures
        final(fw).wf(),
        final(fw).pool_view() == old(fw).pool_view(),
        final(fw).descriptors_view() == old(fw).descriptors_view(),
        final(fw).systab() == old(fw).systab(),
        final(fw).services_active() == old(fw).services_active(),
        final(fw).exit_faults_left() == old(fw).exit_faults_left(),
        match r {
            Ok(p) => {
                &&& forall|j: int|
                    0 <= j < initrds@.len() ==> !(#[trigger] initrds@[j]).info_fails()
                        && initrds@[j].read_faults() == 0
                &&& p.1 == concat_files(contents_of(initrds@)).len()
                &&& p.0.wf()
                &&& p.0.spec_addr() == round_up_4k(old(fw).cursor() as int)
                &&& p.0.contents() == padded(concat_files(contents_of(initrds@)))
                &&& final(fw).cursor() == p.0.spec_addr() + p.0.contents().len()
                &&& final(fw).token() != old(fw).token()
                &&& pages_fit(
                    old(fw).cursor() as int,
                    spec_page_count(concat_files(contents_of(initrds@)).len() as int),
                )
            },
            Err(e) => match e {
                BootError::InitrdAlloc(s) => {
                    &&& *final(fw) == *old(fw)
                    &&& s == Status::OutOfResources
                    &&& !pages_fit(
                        old(fw).cursor() as int,
                        spec_page_count(concat_files(contents_of(initrds@)).len() as int),
                    )
                },
                BootError::InitrdIo(s) => {
                    &&& s == Status::DeviceError
                    &&& exists|j: int|
                        0 <= j < initrds@.len() && ((#[trigger] initrds@[j]).info_fails()
                            || initrds@[j].read_faults() > 0)
                },
                _ => false,
            },
        },
{
    let ghost orig = contents_of(initrds@);
    let n = initrds.len();
    // Sum the files' sizes.
    let mut total: usize = 0;
    let mut i: usize = 0;
    while i < n
        invariant
            n == initrds@.len(),
            0 <= i <= n,
            total == concat_files(orig.take(i as int)).len(),
            forall|j: int| 0 <= j < i ==> !(#[trigger] initrds@[j]).info_fails(),
        decreases n - i,
    {
        proof {
            lemma_concat_snoc(orig, i as int);
            lemma_concat_split(orig, i + 1);
            assert(concat_files(orig.take(i + 1)).len() <= concat_files(orig).len()) by {
                assert(concat_files(orig) == concat_files(orig.take(i + 1)) + concat_files(
                    orig.skip(i + 1),
                ));
            }
            assert(orig[i as int] == initrds@[i as int].contents());
        }
        let info = initrds[i].info();
        let size: usize = match info {
            Ok(inf) => inf.file_size() as usize,
            Err(s) => {
                proof {
                    assert(initrds@[i as int].info_fails());
                }
                return Err(BootError::InitrdIo(s));
            },
        };
        total = total + size;
        i += 1;
    }
    proof {
        assert(orig.take(n as int) =~= orig);
    }
    // Allocate one region for the whole bundle.
    let pages = page_count(total);
    let mut region = match allocate_pages(fw, AllocateType::AnyPages, MemoryType::LoaderData, pages, 0) {
        Ok(p) => p,
        Err(s) => {
            return Err(BootError::InitrdAlloc(s));
        },
    };
    proof {
        crate::memory::lemma_page_count_is_ceil(total as int);
    }
    // Copy each file's bytes at its running offset, in listed order.
    let mut rest = initrds;
    proof {
        assert(rest@ =~= initrds@.skip(0));
    }
    let mut off: usize = 0;
    let mut k: usize = 0;
    while k < n
        invariant
            n == orig.len(),
            0 <= k <= n,
            rest@ =~= initrds@.skip(k as int),
            contents_of(rest@) =~= orig.skip(k as int),
            forall|j: int| 0 <= j < n ==> !(#[trigger] initrds@[j]).info_fails(),
            forall|j: int| 0 <= j < k ==> (#[trigger] initrds@[j]).read_faults() == 0,
            forall|j: int|
                0 <= j < rest@.len() ==> {
                    &&& (#[trigger] rest@[j]).wf()
                    &&& !rest@[j].is_directory()
                    &&& rest@[j].position() == 0
                },
            off == concat_files(orig.take(k as int)).len(),
            region.contents().len() == pages * 4096,
            region.contents().len() >= concat_files(orig).len(),
            region.spec_addr() == round_up_4k(old(fw).cursor() as int),
            region.wf(),
            region.contents().subrange(0, off as int) =~= concat_files(orig.take(k as int)),
            forall|j: int| off <= j < region.contents().len() ==> region.contents()[j] == 0,
            fw.wf(),
            fw.pool_view() == old(fw).pool_view(),
            fw.descriptors_view() == old(fw).descriptors_view(),
            fw.systab() == old(fw).systab(),
            fw.services_active() == old(fw).services_active(),
            fw.exit_faults_left() == old(fw).exit_faults_left(),
            fw.cursor() == region.spec_addr() + region.contents().len(),
            fw.token() != old(fw).token(),
        decreases n - k,
    {
        let mut f = rest.remove(0);
        proof {
            assert(f == initrds@.skip(k as int)[0]);
            assert(f == initrds@[k as int]);
            assert(rest@ =~= initrds@.skip(k + 1));
            lemma_concat_snoc(orig, k as int);
            lemma_concat_split(orig, k as int);
            assert(orig.skip(k as int)[0] == orig[k as int]);
            assert(contents_of(rest@).len() == rest@.len());
            assert(f.contents() == orig[k as int]);
            assert(concat_files(orig) == concat_files(orig.take(k as int)) + concat_files(
                orig.skip(k as int),
            ));
            assert(concat_files(orig.skip(k as int)) == orig[k as int] + concat_files(
                orig.skip(k as int).drop_first(),
            ));
            assert(off + orig[k as int].len() <= concat_files(orig).len());
        }
        let ghost region_before = region.contents();
        let read = f.read(region.bytes_mut(), off);
        let got = match read {
            Ok(g) => g,
            Err(s) => {
                proof {
                    assert(initrds@[k as int].read_faults() > 0);
                }
                free_pages(fw, region);
                return Err(BootError::InitrdIo(s));
            },
        };
        proof {
            assert(got == orig[k as int].len());
            assert(region.contents().subrange(0, off + got) =~= concat_files(
                orig.take(k + 1),
            )) by {
                assert forall|j: int| 0 <= j < off + got implies region.contents()[j]
                    == concat_files(orig.take(k + 1))[j] by {
                    if j < off {
                        assert(region.contents()[j] == region_before[j]);
                        assert(region_before.subrange(0, off as int)[j] == concat_files(
                            orig.take(k as int),
                        )[j]);
                    } else {
                        assert(region.contents()[off + (j - off)] == orig[k as int][j - off]);
                    }
                }
            }
            assert forall|j: int| off + got <= j < region.contents().len() implies region.contents()[j]
                == 0 by {
                assert(region.contents()[j] == region_before[j]);
            }
            assert(contents_of(rest@) =~= orig.skip(k + 1)) by {
                assert(orig.skip(k as int).drop_first() =~= orig.skip(k + 1));
            }
        }
        off = off + got;
        k += 1;
    }
    proof {
        assert(orig.take(n as int) =~= orig);
        assert(region.contents() =~= padded(concat_files(orig))) by {
            assert forall|j: int| 0 <= j < region.contents().len() implies region.contents()[j]
                == padded(concat_files(orig))[j] by {
                if j < off {
                    assert(region.contents().subrange(0, off as int)[j] == concat_files(orig)[j]);
                }
            }
        }
    }
    Ok((region, total))
}

/// Stages the NUL-terminated command line in a pool allocation and
/// returns its address.
#[verifier::loop_isolation(false)]
fn stage_cmd_line(fw: &mut Firmware, cmd_line: &Vec<u8>) -> (r: Result<u64, BootError>)
    requires
        old(fw).wf(),
        cmd_line@.len() < usize::MAX - 16,
    ensures
        final(fw).wf(),
        final(fw).descriptors_view() == old(fw).descriptors_view(),
        final(fw).systab() == old(fw).systab(),
        final(fw).services_active() == old(fw).services_active(),
        final(fw).exit_faults_left() == old(fw).exit_faults_left(),
        match r {
            Ok(addr) => {
                &&& final(fw).pool_view().len() == old(fw).pool_view().len() + 1
                &&& forall|j: int|
                    0 <= j < old(fw).pool_view().len() ==> final(fw).pool_view()[j] == old(
                        fw,
                    ).pool_view()[j]
                &&& ({
                    let b = final(fw).pool_view().last();
                    &&& b.live
                    &&& b.base == addr
                    &&& b.data.len() == cmd_line@.len() + 9
                    &&& b.data.subrange(0, cmd_line@.len() as int + 1) == cmd_line@.push(0)
                })
                &&& addr == old(fw).cursor()
                &&& final(fw).cursor() == old(fw).cursor() + crate::firmware::round_up_8(
                    crate::firmware::pool_alloc_size(cmd_line@.len() as int + 1, 1),
                )
                &&& final(fw).cursor() > old(fw).cursor()
                &&& final(fw).token() != old(fw).token()
            },
            Err(e) => {
                &&& e matches BootError::CmdLineAlloc(s) && s == Status::OutOfResources
                &&& *final(fw) == *old(fw)
                &&& !crate::firmware::pool_fits(
                    old(fw).cursor() as int,
                    cmd_line@.len() as int + 1,
                    1,
                )
            },
        },
{
    let n = cmd_line.len();
    proof {
        crate::firmware::lemma_pool_adjust(old(fw).cursor() as int, 1);
    }
    let allocator = PoolAllocator;
    let user = match allocator.allocate(fw, n + 1, 1) {
        Some(u) => u,
        None => {
            return Err(BootError::CmdLineAlloc(Status::OutOfResources));
        },
    };
    proof {
        assert(crate::firmware::adjust_of(old(fw).cursor() as int, 1) == 0);
        assert(user == old(fw).cursor());
        assert(crate::firmware::pool_alloc_size(n + 1, 1) == n + 9);
    }
    let mut bytes: Vec<u8> = Vec::new();
    let mut t: usize = 0;
    while t < n
        invariant
            0 <= t <= n,
            n == cmd_line@.len(),
            bytes@ =~= cmd_line@.subrange(0, t as int),
        decreases n - t,
    {
        let b = cmd_line[t];
        bytes.push(b);
        proof {
            assert(bytes@ =~= cmd_line@.subrange(0, t + 1));
        }
        t += 1;
    }
    bytes.push(0);
    proof {
        assert(cmd_line@.subrange(0, n as int) =~= cmd_line@);
        assert(bytes@ =~= cmd_line@.push(0));
    }
    let ghost mid = fw.pool_view();
    let ghost k = mid.len() - 1;
    proof {
        let b = mid[k];
        assert(b == crate::firmware::fresh_block(old(fw).cursor() as int, n + 1, 1));
        assert(covers(b, user as int));
        lemma_block_containing(mid, user as int);
        let bc = block_containing(mid, user as int);
        if bc == -1 {
            assert(!covers(mid[k], user as int));
            assert(false);
        }
        if bc < k {
            assert(mid[bc] == old(fw).pool_view()[bc]);
            assert(old(fw).pool_view()[bc].base + old(fw).pool_view()[bc].data.len() <= old(
                fw,
            ).cursor());
            assert(covers(mid[bc], user as int));
            assert(false);
        }
        if bc > k {
            assert(!covers(mid[k], user as int));
            assert(false);
        }
        assert(bc == k);
        assert(user - mid[k].base + bytes@.len() <= mid[k].data.len());
    }
    fw.write_pool(user, &bytes);
    proof {
        let b = mid[k];
        let nb = crate::firmware::BlockV {
            base: b.base,
            data: crate::firmware::splice(b.data, user - b.base, bytes@),
            live: true,
        };
        assert(fw.pool_view() == mid.update(k, nb));
        assert(fw.pool_view().last() == nb);
        assert(nb.data.subrange(0, n + 1) =~= bytes@) by {
            assert forall|j: int| 0 <= j < n + 1 implies nb.data.subrange(0, n + 1)[j]
                == bytes@[j] by {
                assert(nb.data[j] == bytes@[j]);
            }
        }
        assert forall|j: int| 0 <= j < old(fw).pool_view().len() implies fw.pool_view()[j] == old(
            fw,
        ).pool_view()[j] by {
            assert(mid[j] == old(fw).pool_view()[j]);
        }
    }
    Ok(user)
}

/// The finished parameter block as a function of the staged kernel image
/// and the staged addresses, in construction order: the copied setup
/// header, the handoff normalization, the split command-line and initrd
/// fields, and the firmware-info fields.
pub open spec fn final_block(
    kdata: Seq<u8>,
    cmd_addr: u64,
    rd_addr: u64,
    rd_total: u64,
    map_addr: u64,
    map_size: u32,
    systab: u64,
) -> Seq<u8> {
    let s0 = staged_header(zeros(BP_SIZE as int), kdata);
    let s1 = with_u16(s0, VID_MODE as int, 0xFFFD);
    let s2 = with_u8(s1, TYPE_OF_LOADER as int, 0xFF);
    let s3 = with_u8(s2, LOADFLAGS as int, u8_at(s2, LOADFLAGS as int) & 0x5F);
    let s4 = with_u32(s3, CMD_LINE_PTR as int, spec_addr_low(cmd_addr));
    let s5 = with_u32(s4, EXT_CMD_LINE_PTR as int, spec_addr_high(cmd_addr));
    let s6 = with_u32(s5, RAMDISK_SIZE as int, spec_addr_low(rd_total));
    let s7 = with_u32(s6, EXT_RAMDISK_SIZE as int, spec_addr_high(rd_total));
    let s8 = with_u32(s7, RAMDISK_IMAGE as int, spec_addr_low(rd_addr));
    let s9 = with_u32(s8, EXT_RAMDISK_IMAGE as int, spec_addr_high(rd_addr));
    let s10 = with_u32(s9, EFI_LOADER_SIGNATURE as int, LOADER_SIGNATURE);
    let s11 = with_u32(s10, EFI_MEMDESC_SIZE as int, DESCRIPTOR_SIZE);
    let s12 = with_u32(s11, EFI_MEMDESC_VERSION as int, DESCRIPTOR_VERSION);
    let s13 = with_u32(s12, EFI_MEMMAP as int, spec_addr_low(map_addr));
    let s14 = with_u32(s13, EFI_MEMMAP_HI as int, spec_addr_high(map_addr));
    let s15 = with_u32(s14, EFI_MEMMAP_SIZE as int, map_size);
    let s16 = with_u32(s15, EFI_SYSTAB as int, spec_addr_low(systab));
    with_u32(s16, EFI_SYSTAB_HI as int, spec_addr_high(systab))
}

/// The cursor after the kernel image is staged, starting from `c0`.
pub open spec fn cursor_after_kernel(c0: int, klen: int) -> int {
    round_up_4k(c0) + spec_page_count(klen) * 4096
}

/// The cursor after the command line is staged as well.
pub open spec fn cursor_after_cmd_line(c0: int, klen: int, cmd_len: int) -> int {
    cursor_after_kernel(c0, klen) + round_up_8(pool_alloc_size(cmd_len + 1, 1))
}

/// The cursor after the payload bundle is staged as well.
pub open spec fn cursor_after_bundle(c0: int, klen: int, cmd_len: int, bundle_len: int) -> int {
    round_up_4k(cursor_after_cmd_line(c0, klen, cmd_len)) + spec_page_count(bundle_len) * 4096
}

/// Whether a boot whose kernel, bundle, command line and memory map have
/// the given sizes is sure to fit between the cursor and the end of the
/// served range, with room for every alignment gap and for the one
/// repeated snapshot.
pub open spec fn boot_would_fit(
    cursor: int,
    klen: int,
    bundle_len: int,
    cmd_len: int,
    desc_count: int,
) -> bool {
    cursor + spec_page_count(klen) * 4096 + spec_page_count(bundle_len) * 4096 + cmd_len + 2 * (
    DESCRIPTOR_SIZE as int) * desc_count + 16384 <= crate::firmware::ADDR_LIMIT
}

/// Law: every named field of the finished parameter block, read back
/// from its offset. The setup-header fields not rewritten by the handoff
/// normalization keep the staged image's values; the load-flags byte
/// keeps the staged value with the two legacy bits cleared.
pub proof fn lemma_final_block_fields(
    kdata: Seq<u8>,
    cmd_addr: u64,
    rd_addr: u64,
    rd_total: u64,
    map_addr: u64,
    map_size: u32,
    systab: u64,
)
    ensures
        ({
            let s = final_block(kdata, cmd_addr, rd_addr, rd_total, map_addr, map_size, systab);
            let st = staged_header(zeros(BP_SIZE as int), kdata);
            &&& s.len() == BP_SIZE
            &&& u16_at(s, VID_MODE as int) == 0xFFFD
            &&& u8_at(s, TYPE_OF_LOADER as int) == 0xFF
            &&& u8_at(s, LOADFLAGS as int) == (u8_at(st, LOADFLAGS as int) & 0x5F)
            &&& u32_at(s, CMD_LINE_PTR as int) == spec_addr_low(cmd_addr)
            &&& u32_at(s, EXT_CMD_LINE_PTR as int) == spec_addr_high(cmd_addr)
            &&& u32_at(s, RAMDISK_SIZE as int) == spec_addr_low(rd_total)
            &&& u32_at(s, EXT_RAMDISK_SIZE as int) == spec_addr_high(rd_total)
            &&& u32_at(s, RAMDISK_IMAGE as int) == spec_addr_low(rd_addr)
            &&& u32_at(s, EXT_RAMDISK_IMAGE as int) == spec_addr_high(rd_addr)
            &&& u32_at(s, EFI_LOADER_SIGNATURE as int) == LOADER_SIGNATURE
            &&& u32_at(s, EFI_MEMDESC_SIZE as int) == DESCRIPTOR_SIZE
            &&& u32_at(s, EFI_MEMDESC_VERSION as int) == DESCRIPTOR_VERSION
            &&& u32_at(s, EFI_MEMMAP as int) == spec_addr_low(map_addr)
            &&& u32_at(s, EFI_MEMMAP_HI as int) == spec_addr_high(map_addr)
            &&& u32_at(s, EFI_MEMMAP_SIZE as int) == map_size
            &&& u32_at(s, EFI_SYSTAB as int) == spec_addr_low(systab)
            &&& u32_at(s, EFI_SYSTAB_HI as int) == spec_addr_high(systab)
            &&& u8_at(s, SETUP_HEADER as int) == u8_at(st, SETUP_HEADER as int)
            &&& u32_at(s, HDR_MAGIC as int) == u32_at(st, HDR_MAGIC as int)
            &&& u16_at(s, HDR_VERSION as int) == u16_at(st, HDR_VERSION as int)
        }),
{
    vstd::bytes::lemma_auto_spec_u16_to_from_le_bytes();
    vstd::bytes::lemma_auto_spec_u32_to_from_le_bytes();
    let s = final_block(kdata, cmd_addr, rd_addr, rd_total, map_addr, map_size, systab);
    let st = staged_header(zeros(BP_SIZE as int), kdata);
    assert(s.subrange(VID_MODE as int, VID_MODE as int + 2)
        =~= vstd::bytes::spec_u16_to_le_bytes(0xFFFD));
    assert(s.subrange(CMD_LINE_PTR as int, CMD_LINE_PTR as int + 4)
        =~= vstd::bytes::spec_u32_to_le_bytes(spec_addr_low(cmd_addr)));
    assert(s.subrange(EXT_CMD_LINE_PTR as int, EXT_CMD_LINE_PTR as int + 4)
        =~= vstd::bytes::spec_u32_to_le_bytes(spec_addr_high(cmd_addr)));
    assert(s.subrange(RAMDISK_SIZE as int, RAMDISK_SIZE as int + 4)
        =~= vstd::bytes::spec_u32_to_le_bytes(spec_addr_low(rd_total)));
    assert(s.subrange(EXT_RAMDISK_SIZE as int, EXT_RAMDISK_SIZE as int + 4)
        =~= vstd::bytes::spec_u32_to_le_bytes(spec_addr_high(rd_total)));
    assert(s.subrange(RAMDISK_IMAGE as int, RAMDISK_IMAGE as int + 4)
        =~= vstd::bytes::spec_u32_to_le_bytes(spec_addr_low(rd_addr)));
    assert(s.subrange(EXT_RAMDISK_IMAGE as int, EXT_RAMDISK_IMAGE as int + 4)
        =~= vstd::bytes::spec_u32_to_le_bytes(spec_addr_high(rd_addr)));
    assert(s.subrange(EFI_LOADER_SIGNATURE as int, EFI_LOADER_SIGNATURE as int + 4)
        =~= vstd::bytes::spec_u32_to_le_bytes(LOADER_SIGNATURE));
    assert(s.subrange(EFI_MEMDESC_SIZE as int, EFI_MEMDESC_SIZE as int + 4)
        =~= vstd::bytes::spec_u32_to_le_bytes(DESCRIPTOR_SIZE));
    assert(s.subrange(EFI_MEMDESC_VERSION as int, EFI_MEMDESC_VERSION as int + 4)
        =~= vstd::bytes::spec_u32_to_le_bytes(DESCRIPTOR_VERSION));
    assert(s.subrange(EFI_MEMMAP as int, EFI_MEMMAP as int + 4)
        =~= vstd::bytes::spec_u32_to_le_bytes(spec_addr_low(map_addr)));
    assert(s.subrange(EFI_MEMMAP_HI as int, EFI_MEMMAP_HI as int + 4)
        =~= vstd::bytes::spec_u32_to_le_bytes(spec_addr_high(map_addr)));
    assert(s.subrange(EFI_MEMMAP_SIZE as int, EFI_MEMMAP_SIZE as int + 4)
        =~= vstd::bytes::spec_u32_to_le_bytes(map_size));
    assert(s.subrange(EFI_SYSTAB as int, EFI_SYSTAB as int + 4)
        =~= vstd::bytes::spec_u32_to_le_bytes(spec_addr_low(systab)));
    assert(s.subrange(EFI_SYSTAB_HI as int, EFI_SYSTAB_HI as int + 4)
        =~= vstd::bytes::spec_u32_to_le_bytes(spec_addr_high(systab)));
    assert(s.subrange(HDR_MAGIC as int, HDR_MAGIC as int + 4) =~= st.subrange(
        HDR_MAGIC as int,
        HDR_MAGIC as int + 4,
    ));
    assert(s.subrange(HDR_VERSION as int, HDR_VERSION as int + 2) =~= st.subrange(
        HDR_VERSION as int,
        HDR_VERSION as int + 2,
    ));
}

/// The kernel entry address: past the real-mode sectors named by the
/// staged header, into the protected-mode entry point.
pub open spec fn entry_of(kernel_addr: u64, kdata: Seq<u8>) -> int {
    kernel_addr + (u8_at(staged_header(zeros(BP_SIZE as int), kdata), SETUP_HEADER as int) + 1)
        * 512 + 0x200
}

/// Boots the loaded kernel: stages the image, validates and normalizes
/// its setup header, stages the command line and the payload bundle,
/// records every address split across its low/high field pair, snapshots
/// the memory map, ends boot services — retrying exactly once with a
/// fresh snapshot if the token is rejected — fills in the firmware-info
/// fields, and hands back everything the terminal transfer consumes.
pub fn boot(fw: &mut Firmware, kernel: File, initrds: Vec<File>, cmd_line: &Vec<u8>) -> (r: Result<
    Handoff,
    BootError,
>)
    requires
        old(fw).wf(),
        old(fw).services_active(),
        kernel.wf(),
        !kernel.is_directory(),
        kernel.position() == 0,
        forall|i: int|
            0 <= i < initrds@.len() ==> {
                &&& (#[trigger] initrds@[i]).wf()
                &&& !initrds@[i].is_directory()
                &&& initrds@[i].position() == 0
            },
        forall|i: int| 0 <= i < cmd_line@.len() ==> cmd_line@[i] != 0,
        cmd_line@.len() < usize::MAX - 16,
        concat_files(contents_of(initrds@)).len() < usize::MAX - 4096,
        kernel.contents().len() < usize::MAX - 4096,
    ensures
        final(fw).wf(),
        final(fw).descriptors_view() == old(fw).descriptors_view(),
        final(fw).systab() == old(fw).systab(),
        ({
            let bundle_len = concat_files(contents_of(initrds@)).len() as int;
            (old(fw).exit_faults_left() <= 1 && kernel.contents().len() > 0 && header_accepted(
                staged_header(zeros(BP_SIZE as int), padded(kernel.contents())),
            ) && !kernel.info_fails() && kernel.read_faults() == 0 && (forall|i: int|
                0 <= i < initrds@.len() ==> !(#[trigger] initrds@[i]).info_fails()
                    && initrds@[i].read_faults() == 0) && boot_would_fit(
                old(fw).cursor() as int,
                kernel.contents().len() as int,
                bundle_len,
                cmd_line@.len() as int,
                old(fw).descriptors_view().len() as int,
            )) ==> r is Ok
        }),
        match r {
            Ok(h) => {
                &&& !final(fw).services_active()
                &&& old(fw).exit_faults_left() <= 1
                &&& final(fw).exit_faults_left() == 0
                &&& !kernel.info_fails()
                &&& kernel.read_faults() == 0
                &&& forall|j: int|
                    0 <= j < initrds@.len() ==> !(#[trigger] initrds@[j]).info_fails()
                        && initrds@[j].read_faults() == 0
                &&& kernel.contents().len() > 0
                &&& h.kernel.wf()
                &&& h.kernel.contents() == padded(kernel.contents())
                &&& h.kernel.spec_addr() == round_up_4k(old(fw).cursor() as int)
                &&& header_accepted(staged_header(zeros(BP_SIZE as int), padded(kernel.contents())))
                &&& h.initrd.wf()
                &&& h.initrd.contents() == padded(concat_files(contents_of(initrds@)))
                &&& h.cmd_line_addr == h.kernel.spec_addr() + h.kernel.contents().len()
                &&& h.cmd_line_addr < h.initrd.spec_addr()
                &&& h.initrd.spec_addr() + h.initrd.contents().len() <= h.map_addr
                &&& final(fw).pool_view().len() == old(fw).pool_view().len() + 1
                &&& forall|j: int|
                    0 <= j < old(fw).pool_view().len() ==> final(fw).pool_view()[j] == old(
                        fw,
                    ).pool_view()[j]
                &&& ({
                    let b = final(fw).pool_view().last();
                    &&& b.live
                    &&& b.base == h.cmd_line_addr
                    &&& b.data.subrange(0, cmd_line@.len() as int + 1) == cmd_line@.push(0)
                })
                &&& h.bp.wf()
                &&& h.bp.view() == final_block(
                    padded(kernel.contents()),
                    h.cmd_line_addr,
                    h.initrd.spec_addr(),
                    concat_files(contents_of(initrds@)).len() as u64,
                    h.map_addr,
                    ((DESCRIPTOR_SIZE as int) * old(fw).descriptors_view().len()) as u32,
                    old(fw).systab(),
                )
                &&& h.entry == entry_of(h.kernel.spec_addr(), padded(kernel.contents()))
            },
            Err(e) => {
                &&& final(fw).services_active()
                &&& match e {
                    BootError::KernelAlloc(s) => s == Status::OutOfResources && !pages_fit(
                        old(fw).cursor() as int,
                        spec_page_count(kernel.contents().len() as int),
                    ),
                    BootError::KernelIo(s) => s == Status::DeviceError && (kernel.info_fails()
                        || kernel.read_faults() > 0),
                    BootError::InitrdIo(s) => {
                        &&& s == Status::DeviceError
                        &&& exists|j: int|
                            0 <= j < initrds@.len() && ((#[trigger] initrds@[j]).info_fails()
                                || initrds@[j].read_faults() > 0)
                    },
                    BootError::Format(_) => kernel.contents().len() == 0 || !header_accepted(
                        staged_header(zeros(BP_SIZE as int), padded(kernel.contents())),
                    ),
                    BootError::CmdLineAlloc(s) => {
                        &&& s == Status::OutOfResources
                        &&& !pool_fits(
                            cursor_after_kernel(
                                old(fw).cursor() as int,
                                kernel.contents().len() as int,
                            ),
                            cmd_line@.len() as int + 1,
                            1,
                        )
                    },
                    BootError::InitrdAlloc(s) => {
                        &&& s == Status::OutOfResources
                        &&& !pages_fit(
                            cursor_after_cmd_line(
                                old(fw).cursor() as int,
                                kernel.contents().len() as int,
                                cmd_line@.len() as int,
                            ),
                            spec_page_count(concat_files(contents_of(initrds@)).len() as int),
                        )
                    },
                    BootError::MemoryMap(s) => {
                        let c3 = cursor_after_bundle(
                            old(fw).cursor() as int,
                            kernel.contents().len() as int,
                            cmd_line@.len() as int,
                            concat_files(contents_of(initrds@)).len() as int,
                        );
                        let d = (DESCRIPTOR_SIZE as int) * old(fw).descriptors_view().len();
                        &&& s == Status::OutOfResources
                        &&& (c3 + d > ADDR_LIMIT || (old(fw).exit_faults_left() > 0 && c3 + 2 * d
                            > ADDR_LIMIT))
                    },
                    BootError::ServiceTermination(s) => s == Status::InvalidParameter && old(
                        fw,
                    ).exit_faults_left() >= 2,
                }
            },
        },
{
    let ghost kcontents = kernel.contents();
    let ghost c0 = old(fw).cursor() as int;
    let ghost bundle_len = concat_files(contents_of(initrds@)).len() as int;
    let ghost hyp = old(fw).exit_faults_left() <= 1 && kcontents.len() > 0 && header_accepted(
        staged_header(zeros(BP_SIZE as int), padded(kcontents)),
    ) && !kernel.info_fails() && kernel.read_faults() == 0 && (forall|i: int|
        0 <= i < initrds@.len() ==> !(#[trigger] initrds@[i]).info_fails()
            && initrds@[i].read_faults() == 0) && boot_would_fit(
        c0,
        kcontents.len() as int,
        bundle_len,
        cmd_line@.len() as int,
        old(fw).descriptors_view().len() as int,
    );
    proof {
        crate::memory::lemma_page_count_is_ceil(bundle_len);
    }
    let mut kernel = kernel;
    // Stage the kernel image.
    let ksize: usize = match kernel.info() {
        Ok(inf) => inf.file_size() as usize,
        Err(s) => {
            proof {
                if hyp {
                    assert(false);
                }
            }
            return Err(BootError::KernelIo(s));
        },
    };
    let kpages = page_count(ksize);
    proof {
        crate::memory::lemma_page_count_is_ceil(ksize as int);
    }
    let mut kregion = match allocate_pages(
        fw,
        AllocateType::AnyPages,
        MemoryType::LoaderData,
        kpages,
        0,
    ) {
        Ok(p) => p,
        Err(s) => {
            proof {
                if hyp {
                    crate::firmware::lemma_round_up_4k_bounds(c0);
                    assert(false);
                }
            }
            return Err(BootError::KernelAlloc(s));
        },
    };
    let ghost kregion_before = kregion.contents();
    let kread = kernel.read(kregion.bytes_mut(), 0);
    let kgot = match kread {
        Ok(g) => g,
        Err(s) => {
            proof {
                if hyp {
                    assert(false);
                }
            }
            free_pages(fw, kregion);
            return Err(BootError::KernelIo(s));
        },
    };
    proof {
        assert(kgot == ksize);
        assert(kregion.contents() =~= padded(kcontents)) by {
            assert forall|j: int| 0 <= j < kregion.contents().len() implies kregion.contents()[j]
                == padded(kcontents)[j] by {
                if j < ksize {
                    assert(kregion.contents()[0 + j] == kcontents[0 + j]);
                } else {
                    assert(kregion.contents()[j] == kregion_before[j]);
                }
            }
        }
    }
    if kpages == 0 {
        proof {
            if hyp {
                assert(false);
            }
        }
        free_pages(fw, kregion);
        return Err(BootError::Format(FormatError::NotSupported));
    }
    proof {
        assert(kregion.contents().len() >= SETUP_HEADER + SETUP_HEADER_MAX);
    }
    // Copy and validate the setup header.
    let mut bp = BootParams::new();
    bp.copy_setup_header(kregion.bytes());
    let sects = bp.read_u8(SETUP_HEADER);
    match bp.validate_header() {
        Ok(()) => {},
        Err(e) => {
            proof {
                if hyp {
                    assert(bp.view() == staged_header(zeros(BP_SIZE as int), padded(kcontents)));
                    assert(false);
                }
            }
            free_pages(fw, kregion);
            return Err(BootError::Format(e));
        },
    }
    // Normalize the header for a firmware handoff: ask for video-mode
    // detection, report a generic loader, and clear the legacy-only
    // loading flags.
    bp.write_u16(VID_MODE, 0xFFFD);
    bp.write_u8(TYPE_OF_LOADER, 0xFF);
    let lf = bp.read_u8(LOADFLAGS);
    bp.write_u8(LOADFLAGS, lf & 0x5F);
    // Stage the command line and record its split address.
    let ghost c1 = fw.cursor() as int;
    proof {
        crate::firmware::lemma_round_up_4k_bounds(c0);
        assert(c1 <= c0 + 4095 + spec_page_count(kcontents.len() as int) * 4096);
    }
    let cmd_addr = match stage_cmd_line(fw, cmd_line) {
        Ok(a) => a,
        Err(e) => {
            proof {
                if hyp {
                    crate::firmware::lemma_round_up_8_bounds(cmd_line@.len() as int + 9);
                    assert(crate::firmware::pool_alloc_size(cmd_line@.len() as int + 1, 1)
                        == cmd_line@.len() + 9);
                    assert(false);
                }
            }
            free_pages(fw, kregion);
            return Err(e);
        },
    };
    bp.write_u32(CMD_LINE_PTR, addr_low(cmd_addr));
    bp.write_u32(EXT_CMD_LINE_PTR, addr_high(cmd_addr));
    // Stage the payload bundle and record its length and split address.
    let ghost c2 = fw.cursor() as int;
    proof {
        crate::firmware::lemma_round_up_8_bounds(cmd_line@.len() as int + 9);
        assert(c2 <= c1 + cmd_line@.len() + 16);
    }
    let staged = match stage_initrds(fw, initrds) {
        Ok(p) => p,
        Err(e) => {
            proof {
                if hyp {
                    crate::firmware::lemma_round_up_4k_bounds(c2);
                    assert(false);
                }
            }
            free_pages(fw, kregion);
            return Err(e);
        },
    };
    let (initrd_region, total) = staged;
    bp.write_u32(RAMDISK_SIZE, addr_low(total as u64));
    bp.write_u32(EXT_RAMDISK_SIZE, addr_high(total as u64));
    bp.write_u32(RAMDISK_IMAGE, addr_low(initrd_region.addr()));
    bp.write_u32(EXT_RAMDISK_IMAGE, addr_high(initrd_region.addr()));
    // Snapshot the memory map and end boot services; a rejected token is
    // retried exactly once with a fresh snapshot.
    let ghost c3 = fw.cursor() as int;
    proof {
        crate::firmware::lemma_round_up_4k_bounds(c2);
        assert(c3 <= c2 + 4095 + spec_page_count(bundle_len) * 4096);
    }
    let snap = match MemoryMapSnapshot::capture(fw) {
        Ok(s) => s,
        Err(s) => {
            proof {
                if hyp {
                    assert(false);
                }
            }
            free_pages(fw, kregion);
            free_pages(fw, initrd_region);
            return Err(BootError::MemoryMap(s));
        },
    };
    let snap = match exit_boot_services(fw, snap.key()) {
        Ok(()) => snap,
        Err(_) => {
            let snap2 = match MemoryMapSnapshot::capture(fw) {
                Ok(s) => s,
                Err(s) => {
                    proof {
                        if hyp {
                            assert(false);
                        }
                    }
                    free_pages(fw, kregion);
                    free_pages(fw, initrd_region);
                    return Err(BootError::MemoryMap(s));
                },
            };
            match exit_boot_services(fw, snap2.key()) {
                Ok(()) => snap2,
                Err(s) => {
                    proof {
                        if hyp {
                            assert(false);
                        }
                    }
                    free_pages(fw, kregion);
                    free_pages(fw, initrd_region);
                    return Err(BootError::ServiceTermination(s));
                },
            }
        },
    };
    // Fill in the firmware-info fields.
    bp.write_u32(EFI_LOADER_SIGNATURE, LOADER_SIGNATURE);
    bp.write_u32(EFI_MEMDESC_SIZE, DESCRIPTOR_SIZE);
    bp.write_u32(EFI_MEMDESC_VERSION, DESCRIPTOR_VERSION);
    bp.write_u32(EFI_MEMMAP, addr_low(snap.addr()));
    bp.write_u32(EFI_MEMMAP_HI, addr_high(snap.addr()));
    let map_count = snap.descriptors().len();
    proof {
        assert((DESCRIPTOR_SIZE as int) * map_count <= 0x0400_0000);
    }
    let map_size: u32 = ((map_count as u64) * (DESCRIPTOR_SIZE as u64)) as u32;
    bp.write_u32(EFI_MEMMAP_SIZE, map_size);
    let systab = fw.systab_address();
    bp.write_u32(EFI_SYSTAB, addr_low(systab));
    bp.write_u32(EFI_SYSTAB_HI, addr_high(systab));
    // Compute the entry address for the terminal transfer.
    let entry = kregion.addr() + ((sects as u64) + 1) * 512 + 0x200;
    let h = Handoff {
        bp,
        kernel: kregion,
        initrd: initrd_region,
        cmd_line_addr: cmd_addr,
        map_addr: snap.addr(),
        entry,
    };
    proof {
        assert(h.bp.view() == final_block(
            padded(kcontents),
            cmd_addr,
            h.initrd.spec_addr(),
            total as u64,
            h.map_addr,
            ((DESCRIPTOR_SIZE as int) * old(fw).descriptors_view().len()) as u32,
            old(fw).systab(),
        ));
    }
    Ok(h)
}

} // verus!
