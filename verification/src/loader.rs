//! The top-level run: open and parse the configuration on the volume,
//! check it names a kernel, payloads and a command line, open those
//! files, and boot.

use vstd::prelude::*;

use crate::boot::boot;
use crate::boot::boot_would_fit;
use crate::boot::concat_files;
use crate::boot::contents_of;
use crate::boot::entry_of;
use crate::boot::final_block;
use crate::boot::padded;
use crate::boot::BootError;
use crate::boot::Handoff;
use crate::config::err_matches;
use crate::config::parse_config;
use crate::config::Config;
use crate::config::LoadError;
use crate::firmware::pages_fit;
use crate::firmware::round_up_4k;
use crate::firmware::zeros;
use crate::firmware::Firmware;
use crate::firmware::ADDR_BASE;
use crate::firmware::ADDR_LIMIT;
use crate::fs::lookup;
use crate::fs::lookup_entry;
use crate::fs::EntryV;
use crate::fs::File;
use crate::fs::FileAttributes;
use crate::fs::FileModes;
use crate::fs::SimpleFileSystem;
use crate::memory::spec_page_count;
use crate::memory::DESCRIPTOR_SIZE;
use crate::params::header_accepted;
use crate::params::staged_header;
use crate::params::BP_SIZE;
use crate::status::Status;
use crate::string::EfiStr;
use crate::string::EfiString;

verus! {

/// The bytes an entry name resolves to on the volume; empty when the
/// name is absent.
pub open spec fn data_of(entries: Seq<EntryV>, name: Seq<u16>) -> Seq<u8> {
    match lookup(entries, name) {
        Some(d) => d,
        None => Seq::empty(),
    }
}

/// The bytes each named payload resolves to, in listed order.
pub open spec fn initrd_datas(entries: Seq<EntryV>, names: Seq<Seq<u16>>) -> Seq<Seq<u8>> {
    names.map_values(|nm: Seq<u16>| data_of(entries, nm))
}

/// The named entry exists and carries no injected transient fault.
pub open spec fn entry_fault_free(entries: Seq<EntryV>, name: Seq<u16>) -> bool {
    &&& lookup_entry(entries, name) is Some
    &&& !lookup_entry(entries, name)->Some_0.info_fails
    &&& lookup_entry(entries, name)->Some_0.read_faults == 0
}

/// An error that aborts the run before or during the boot orchestration.
#[derive(Debug)]
pub enum LoaderError {
    /// The configuration file could not be opened.
    ConfigOpen(Status),
    /// The configuration could not be parsed.
    ConfigLoad(LoadError),
    /// No kernel has been configured.
    NoKernel,
    /// The configured kernel could not be opened.
    KernelOpen(Status),
    /// No payload has been configured.
    NoInitrd,
    /// A configured payload could not be opened; carries its path.
    InitrdOpen(EfiString, Status),
    /// No command line has been configured.
    NoCommandLine,
    /// The boot orchestration aborted.
    Boot(BootError),
}

/// Runs the loader against a volume: loads `config_path`, parses it,
/// requires a kernel, at least one payload and a command line, opens
/// those files in order, and boots. Each gate is checked before any later
/// file is opened: an empty `kernel` value is rejected before the kernel
/// or any payload is looked up.
#[verifier::loop_isolation(false)]
pub fn run(fw: &mut Firmware, fs: &SimpleFileSystem, config_path: &EfiStr) -> (r: Result<
    Handoff,
    LoaderError,
>)
    requires
        old(fw).wf(),
        old(fw).services_active(),
        fs.wf(),
        config_path.wf(),
        forall|i: int|
            0 <= i < fs.entries().len() ==> (#[trigger] fs.entries()[i]).data.len() < usize::MAX
                - 4096,
    ensures
        final(fw).wf(),
        final(fw).descriptors_view() == old(fw).descriptors_view(),
        final(fw).systab() == old(fw).systab(),
        ({
            let cdata = data_of(fs.entries(), config_path.units());
            let cv = parse_config(cdata)->Ok_0;
            let kdata = data_of(fs.entries(), cv.kernel);
            let bundle_len = concat_files(initrd_datas(fs.entries(), cv.initrd)).len() as int;
            (lookup(fs.entries(), config_path.units()) is Some && parse_config(cdata) is Ok
                && cv.kernel.len() > 1 && cv.initrd.len() > 0 && cv.command_line.len() > 0
                && lookup(fs.entries(), cv.kernel) is Some && (forall|i: int|
                0 <= i < cv.initrd.len() ==> lookup(
                    fs.entries(),
                    #[trigger] cv.initrd[i],
                ) is Some) && old(fw).exit_faults_left() <= 1 && kdata.len() > 0
                && header_accepted(staged_header(zeros(BP_SIZE as int), padded(kdata))) && ({
                let ce = lookup_entry(fs.entries(), config_path.units())->Some_0;
                !ce.info_fails && ce.read_faults == 0
            }) && ({
                let ke = lookup_entry(fs.entries(), cv.kernel)->Some_0;
                !ke.info_fails && ke.read_faults == 0
            }) && (forall|i: int|
                0 <= i < cv.initrd.len() ==> {
                    let e = lookup_entry(fs.entries(), #[trigger] cv.initrd[i])->Some_0;
                    !e.info_fails && e.read_faults == 0
                }) && boot_would_fit(
                old(fw).cursor() as int,
                kdata.len() as int,
                bundle_len,
                cv.command_line.len() as int,
                old(fw).descriptors_view().len() as int,
            )) ==> r is Ok
        }),
        ({
            let cdata = data_of(fs.entries(), config_path.units());
            match r {
                Ok(h) => {
                    let cv = parse_config(cdata)->Ok_0;
                    let kdata = data_of(fs.entries(), cv.kernel);
                    let bundle = concat_files(initrd_datas(fs.entries(), cv.initrd));
                    &&& lookup(fs.entries(), config_path.units()) is Some
                    &&& parse_config(cdata) is Ok
                    &&& cv.kernel.len() > 1
                    &&& cv.initrd.len() > 0
                    &&& cv.command_line.len() > 0
                    &&& lookup(fs.entries(), cv.kernel) is Some
                    &&& entry_fault_free(fs.entries(), config_path.units())
                    &&& entry_fault_free(fs.entries(), cv.kernel)
                    &&& forall|i: int|
                        0 <= i < cv.initrd.len() ==> entry_fault_free(
                            fs.entries(),
                            #[trigger] cv.initrd[i],
                        )
                    &&& !final(fw).services_active()
                    &&& old(fw).exit_faults_left() <= 1
                    &&& final(fw).exit_faults_left() == 0
                    &&& h.kernel.contents() == padded(kdata)
                    &&& header_accepted(staged_header(zeros(BP_SIZE as int), padded(kdata)))
                    &&& h.initrd.contents() == padded(bundle)
                    &&& h.cmd_line_addr == h.kernel.spec_addr() + h.kernel.contents().len()
                    &&& final(fw).pool_view().len() == old(fw).pool_view().len() + 1
                    &&& ({
                        let b = final(fw).pool_view().last();
                        &&& b.live
                        &&& b.base == h.cmd_line_addr
                        &&& b.data.subrange(0, cv.command_line.len() as int + 1)
                            == cv.command_line.push(0)
                    })
                    &&& h.bp.wf()
                    &&& h.bp.view() == final_block(
                        padded(kdata),
                        h.cmd_line_addr,
                        h.initrd.spec_addr(),
                        bundle.len() as u64,
                        h.map_addr,
                        ((DESCRIPTOR_SIZE as int) * old(fw).descriptors_view().len()) as u32,
                        old(fw).systab(),
                    )
                    &&& h.entry == entry_of(h.kernel.spec_addr(), padded(kdata))
                },
                Err(e) => {
                    &&& final(fw).services_active()
                    &&& match e {
                        LoaderError::ConfigOpen(s) => {
                            &&& lookup(fs.entries(), config_path.units()) is None
                            &&& s == Status::NotFound
                        },
                        LoaderError::ConfigLoad(le) => {
                            &&& lookup(fs.entries(), config_path.units()) is Some
                            &&& match le {
                                LoadError::GetFileInfoFailed(s) => s == Status::DeviceError
                                    && lookup_entry(
                                    fs.entries(),
                                    config_path.units(),
                                )->Some_0.info_fails,
                                LoadError::ReadFileFailed(s) => s == Status::DeviceError
                                    && !lookup_entry(
                                    fs.entries(),
                                    config_path.units(),
                                )->Some_0.info_fails && lookup_entry(
                                    fs.entries(),
                                    config_path.units(),
                                )->Some_0.read_faults > 0,
                                _ => entry_fault_free(fs.entries(), config_path.units())
                                    && parse_config(cdata) is Err && err_matches(
                                    &le,
                                    parse_config(cdata)->Err_0,
                                ),
                            }
                        },
                        LoaderError::NoKernel => {
                            &&& lookup(fs.entries(), config_path.units()) is Some
                            &&& entry_fault_free(fs.entries(), config_path.units())
                            &&& parse_config(cdata) is Ok
                            &&& parse_config(cdata)->Ok_0.kernel.len() == 1
                        },
                        LoaderError::KernelOpen(s) => {
                            &&& entry_fault_free(fs.entries(), config_path.units())
                            &&& parse_config(cdata) is Ok
                            &&& parse_config(cdata)->Ok_0.kernel.len() > 1
                            &&& lookup(fs.entries(), parse_config(cdata)->Ok_0.kernel) is None
                            &&& s == Status::NotFound
                        },
                        LoaderError::NoInitrd => {
                            &&& entry_fault_free(fs.entries(), config_path.units())
                            &&& parse_config(cdata) is Ok
                            &&& parse_config(cdata)->Ok_0.kernel.len() > 1
                            &&& lookup(fs.entries(), parse_config(cdata)->Ok_0.kernel) is Some
                            &&& parse_config(cdata)->Ok_0.initrd.len() == 0
                        },
                        LoaderError::InitrdOpen(p, s) => {
                            &&& entry_fault_free(fs.entries(), config_path.units())
                            &&& parse_config(cdata) is Ok
                            &&& parse_config(cdata)->Ok_0.kernel.len() > 1
                            &&& lookup(fs.entries(), parse_config(cdata)->Ok_0.kernel) is Some
                            &&& s == Status::NotFound
                            &&& exists|i: int|
                                0 <= i < parse_config(cdata)->Ok_0.initrd.len() && p.units()
                                    == parse_config(cdata)->Ok_0.initrd[i] && lookup(
                                    fs.entries(),
                                    #[trigger] parse_config(cdata)->Ok_0.initrd[i],
                                ) is None
                        },
                        LoaderError::NoCommandLine => {
                            &&& entry_fault_free(fs.entries(), config_path.units())
                            &&& parse_config(cdata) is Ok
                            &&& parse_config(cdata)->Ok_0.kernel.len() > 1
                            &&& lookup(fs.entries(), parse_config(cdata)->Ok_0.kernel) is Some
                            &&& parse_config(cdata)->Ok_0.initrd.len() > 0
                            &&& forall|i: int|
                                0 <= i < parse_config(cdata)->Ok_0.initrd.len() ==> lookup(
                                    fs.entries(),
                                    #[trigger] parse_config(cdata)->Ok_0.initrd[i],
                                ) is Some
                            &&& parse_config(cdata)->Ok_0.command_line.len() == 0
                        },
                        LoaderError::Boot(_) => {
                            &&& entry_fault_free(fs.entries(), config_path.units())
                            &&& parse_config(cdata) is Ok
                            &&& parse_config(cdata)->Ok_0.kernel.len() > 1
                            &&& lookup(fs.entries(), parse_config(cdata)->Ok_0.kernel) is Some
                            &&& parse_config(cdata)->Ok_0.initrd.len() > 0
                            &&& parse_config(cdata)->Ok_0.command_line.len() > 0
                            &&& forall|i: int|
                                0 <= i < parse_config(cdata)->Ok_0.initrd.len() ==> lookup(
                                    fs.entries(),
                                    #[trigger] parse_config(cdata)->Ok_0.initrd[i],
                                ) is Some
                        },
                    }
                },
            }
        }),
{
    let ghost gcdata = data_of(fs.entries(), config_path.units());
    let ghost gcv = parse_config(gcdata)->Ok_0;
    let ghost gkdata = data_of(fs.entries(), gcv.kernel);
    let ghost gbundle_len = concat_files(initrd_datas(fs.entries(), gcv.initrd)).len() as int;
    let ghost hyp = lookup(fs.entries(), config_path.units()) is Some && parse_config(
        gcdata,
    ) is Ok && gcv.kernel.len() > 1 && gcv.initrd.len() > 0 && gcv.command_line.len() > 0
        && lookup(fs.entries(), gcv.kernel) is Some && (forall|i: int|
        0 <= i < gcv.initrd.len() ==> lookup(fs.entries(), #[trigger] gcv.initrd[i]) is Some)
        && old(fw).exit_faults_left() <= 1 && gkdata.len() > 0 && header_accepted(
        staged_header(zeros(BP_SIZE as int), padded(gkdata)),
    ) && ({
        let ce = lookup_entry(fs.entries(), config_path.units())->Some_0;
        !ce.info_fails && ce.read_faults == 0
    }) && ({
        let ke = lookup_entry(fs.entries(), gcv.kernel)->Some_0;
        !ke.info_fails && ke.read_faults == 0
    }) && (forall|i: int|
        0 <= i < gcv.initrd.len() ==> {
            let e = lookup_entry(fs.entries(), #[trigger] gcv.initrd[i])->Some_0;
            !e.info_fails && e.read_faults == 0
        }) && boot_would_fit(
        old(fw).cursor() as int,
        gkdata.len() as int,
        gbundle_len,
        gcv.command_line.len() as int,
        old(fw).descriptors_view().len() as int,
    );
    // Open the root directory and the configuration file.
    let root = match fs.open() {
        Ok(v) => v,
        Err(s) => {
            return Err(LoaderError::ConfigOpen(s));
        },
    };
    let mut config_file = match root.open(config_path, FileModes::read(), FileAttributes::empty()) {
        Ok(v) => v,
        Err(s) => {
            proof {
                if hyp {
                    assert(false);
                }
            }
            return Err(LoaderError::ConfigOpen(s));
        },
    };
    let ghost ce = lookup_entry(fs.entries(), config_path.units())->Some_0;
    proof {
        assert(config_file.view_as_entry() == ce);
    }
    // Read the whole configuration.
    let csize: usize = match config_file.info() {
        Ok(inf) => inf.file_size() as usize,
        Err(s) => {
            proof {
                if hyp {
                    assert(false);
                }
            }
            return Err(LoaderError::ConfigLoad(LoadError::GetFileInfoFailed(s)));
        },
    };
    proof {
        assert(!ce.info_fails);
    }
    let mut cdata: Vec<u8> = vec![0u8; csize];
    let got = match config_file.read(&mut cdata, 0) {
        Ok(g) => g,
        Err(s) => {
            proof {
                if hyp {
                    assert(false);
                }
            }
            return Err(LoaderError::ConfigLoad(LoadError::ReadFileFailed(s)));
        },
    };
    proof {
        crate::fs::lemma_lookup_found(fs.entries(), config_path.units());
        assert forall|j: int| 0 <= j < csize implies cdata@[j] == config_file.contents()[j] by {
            assert(cdata@[0 + j] == config_file.contents()[0 + j]);
        }
        assert(cdata@ =~= config_file.contents());
        assert(cdata@ == data_of(fs.entries(), config_path.units()));
        assert(cdata@.len() < usize::MAX - 4096);
        crate::config::lemma_parse_config_cmd(cdata@);
        assert(ce.read_faults == 0);
        assert(entry_fault_free(fs.entries(), config_path.units()));
    }
    // Parse the configuration.
    let config = match Config::load(cdata.as_slice()) {
        Ok(c) => c,
        Err(e) => {
            proof {
                if hyp {
                    assert(false);
                }
            }
            return Err(LoaderError::ConfigLoad(e));
        },
    };
    let ghost cv = parse_config(cdata@)->Ok_0;
    // A kernel must be configured before any further file is opened.
    if config.kernel().is_empty() {
        proof {
            if hyp {
                assert(false);
            }
        }
        return Err(LoaderError::NoKernel);
    }
    // Open the kernel.
    let kernel = match root.open(config.kernel(), FileModes::read(), FileAttributes::empty()) {
        Ok(f) => f,
        Err(s) => {
            proof {
                if hyp {
                    assert(false);
                }
            }
            return Err(LoaderError::KernelOpen(s));
        },
    };
    proof {
        assert(kernel.view_as_entry() == lookup_entry(fs.entries(), gcv.kernel)->Some_0);
    }
    // At least one payload must be configured.
    if config.initrd().len() == 0 {
        proof {
            assert(crate::config::initrd_units(Seq::<EfiString>::empty()) =~= Seq::<
                Seq<u16>,
            >::empty());
            if hyp {
                assert(false);
            }
        }
        return Err(LoaderError::NoInitrd);
    }
    // Open every payload, in listed order.
    let paths = config.initrd();
    let m = paths.len();
    let mut initrd_files: Vec<File> = Vec::new();
    let mut i: usize = 0;
    while i < m
        invariant
            m == paths@.len(),
            m == cv.initrd.len(),
            0 <= i <= m,
            config.wf(),
            root.wf(),
            root.is_directory(),
            root.entries() == fs.entries(),
            crate::config::initrd_units(paths@) == cv.initrd,
            initrd_files@.len() == i,
            forall|j: int|
                0 <= j < i ==> {
                    &&& (#[trigger] initrd_files@[j]).wf()
                    &&& !initrd_files@[j].is_directory()
                    &&& initrd_files@[j].position() == 0
                    &&& lookup(fs.entries(), cv.initrd[j]) == Some(initrd_files@[j].contents())
                    &&& lookup_entry(fs.entries(), cv.initrd[j]) == Some(
                        initrd_files@[j].view_as_entry(),
                    )
                },
        decreases m - i,
    {
        proof {
            assert(crate::config::initrd_units(paths@)[i as int] == paths@[i as int].units());
            assert(cv.initrd[i as int] == paths@[i as int].units());
        }
        let path = &paths[i];
        match root.open(path.as_str(), FileModes::read(), FileAttributes::empty()) {
            Ok(f) => {
                initrd_files.push(f);
            },
            Err(s) => {
                proof {
                    assert(lookup(fs.entries(), cv.initrd[i as int]) is None);
                    if hyp {
                        assert(lookup(fs.entries(), gcv.initrd[i as int]) is Some);
                        assert(false);
                    }
                }
                return Err(LoaderError::InitrdOpen(path.as_str().to_owned(), s));
            },
        }
        i += 1;
    }
    // A command line must be configured.
    if config.command_line().len() == 0 {
        proof {
            assert forall|j: int| 0 <= j < gcv.initrd.len() implies lookup(
                fs.entries(),
                #[trigger] gcv.initrd[j],
            ) is Some by {
                assert(lookup_entry(fs.entries(), gcv.initrd[j]) == Some(
                    initrd_files@[j].view_as_entry(),
                ));
            }
            if hyp {
                assert(false);
            }
        }
        return Err(LoaderError::NoCommandLine);
    }
    proof {
        assert(contents_of(initrd_files@) =~= initrd_datas(fs.entries(), cv.initrd)) by {
            assert forall|j: int| 0 <= j < m implies contents_of(initrd_files@)[j] == initrd_datas(
                fs.entries(),
                cv.initrd,
            )[j] by {
                assert(contents_of(initrd_files@)[j] == initrd_files@[j].contents());
                assert(initrd_datas(fs.entries(), cv.initrd)[j] == data_of(
                    fs.entries(),
                    cv.initrd[j],
                ));
            }
        }
    }
    proof {
        assert forall|j: int| 0 <= j < gcv.initrd.len() implies lookup(
            fs.entries(),
            #[trigger] gcv.initrd[j],
        ) is Some by {
            assert(lookup_entry(fs.entries(), gcv.initrd[j]) == Some(
                initrd_files@[j].view_as_entry(),
            ));
        }
    }
    // A bundle or kernel too large for the served range can never be
    // staged: report the allocation failure before summing overflows.
    let ghost bundle = concat_files(initrd_datas(fs.entries(), cv.initrd));
    let span: u64 = ADDR_LIMIT - ADDR_BASE;
    if kernel.len_bytes() as u64 > span {
        proof {
            lemma_over_span_never_fits(fw.cursor() as int, kernel.contents().len() as int);
            if hyp {
                crate::memory::lemma_page_count_is_ceil(gkdata.len() as int);
                assert(false);
            }
        }
        return Err(LoaderError::Boot(BootError::KernelAlloc(Status::OutOfResources)));
    }
    let mut total_check: u64 = 0;
    let mut t: usize = 0;
    while t < m
        invariant
            m == initrd_files@.len(),
            0 <= t <= m,
            forall|j: int|
                0 <= j < m ==> {
                    &&& (#[trigger] initrd_files@[j]).wf()
                    &&& !initrd_files@[j].is_directory()
                    &&& initrd_files@[j].position() == 0
                },
            total_check == concat_files(contents_of(initrd_files@).take(t as int)).len() || (
            total_check > ADDR_LIMIT - ADDR_BASE && concat_files(contents_of(initrd_files@)).len()
                > ADDR_LIMIT - ADDR_BASE),
            total_check <= ADDR_LIMIT,
        decreases m - t,
    {
        proof {
            crate::boot::lemma_take_snoc_len(contents_of(initrd_files@), t as int);
            crate::boot::lemma_concat_prefix_len(contents_of(initrd_files@), t + 1);
            assert(contents_of(initrd_files@)[t as int] == initrd_files@[t as int].contents());
        }
        let flen = initrd_files[t].len_bytes();
        if flen as u64 > span || total_check > span {
            total_check = span + 1;
        } else {
            total_check = total_check + flen as u64;
            if total_check > span {
                total_check = span + 1;
            }
        }
        t += 1;
    }
    proof {
        assert(contents_of(initrd_files@).take(m as int) =~= contents_of(initrd_files@));
    }
    if total_check > span {
        proof {
            lemma_over_span_never_fits(fw.cursor() as int, bundle.len() as int);
            if hyp {
                crate::memory::lemma_page_count_is_ceil(gbundle_len);
                assert(false);
            }
        }
        return Err(LoaderError::Boot(BootError::InitrdAlloc(Status::OutOfResources)));
    }
    // Boot.
    proof {
        crate::fs::lemma_lookup_found(fs.entries(), cv.kernel);
        assert(kernel.contents().len() < usize::MAX - 4096);
        assert(concat_files(contents_of(initrd_files@)).len() < usize::MAX - 4096);
        assert(config.view().command_line == cv.command_line);
        assert forall|i: int| 0 <= i < cv.command_line.len() implies cv.command_line[i] != 0 by {
            assert(crate::config::value_byte_ok(cv.command_line[i]));
        }
    }
    match boot(fw, kernel, initrd_files, config.command_line()) {
        Ok(h) => {
            proof {
                assert(entry_fault_free(fs.entries(), gcv.kernel));
                assert forall|i: int| 0 <= i < gcv.initrd.len() implies entry_fault_free(
                    fs.entries(),
                    #[trigger] gcv.initrd[i],
                ) by {
                    assert(lookup_entry(fs.entries(), gcv.initrd[i]) == Some(
                        initrd_files@[i].view_as_entry(),
                    ));
                    assert(!initrd_files@[i].info_fails() && initrd_files@[i].read_faults() == 0);
                }
            }
            Ok(h)
        },
        Err(e) => {
            proof {
                if hyp {
                    assert(!kernel.info_fails() && kernel.read_faults() == 0);
                    assert forall|j: int| 0 <= j < initrd_files@.len() implies !(
                    #[trigger] initrd_files@[j]).info_fails() && initrd_files@[j].read_faults()
                        == 0 by {
                        let e = lookup_entry(fs.entries(), gcv.initrd[j])->Some_0;
                        assert(!e.info_fails && e.read_faults == 0);
                        assert(initrd_files@[j].view_as_entry() == e);
                    }
                    assert(false);
                }
            }
            Err(LoaderError::Boot(e))
        },
    }
}

/// A request larger than the whole served address range never fits,
/// whatever the cursor.
proof fn lemma_over_span_never_fits(cursor: int, bytes: int)
    requires
        ADDR_BASE <= cursor,
        bytes > ADDR_LIMIT - ADDR_BASE,
    ensures
        !pages_fit(cursor, spec_page_count(bytes)),
{
    crate::memory::lemma_page_count_is_ceil(bytes);
    crate::firmware::lemma_round_up_4k_bounds(cursor);
    assert(spec_page_count(bytes) * 4096 >= bytes);
    assert(round_up_4k(cursor) + spec_page_count(bytes) * 4096 > ADDR_LIMIT);
}

} // verus!
