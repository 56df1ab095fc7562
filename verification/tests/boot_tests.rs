use tcg_loader::boot::{stage_initrds, BootError};
use tcg_loader::firmware::Firmware;
use tcg_loader::fs::{File, FileAttributes, FileModes, SimpleFileSystem, VolumeFile};
use tcg_loader::loader::{run, LoaderError};
use tcg_loader::memory::MemoryDescriptor;
use tcg_loader::params::{
    CMD_LINE_PTR, EFI_LOADER_SIGNATURE, EFI_MEMDESC_SIZE, EFI_MEMDESC_VERSION, EFI_MEMMAP,
    EFI_MEMMAP_HI, EFI_MEMMAP_SIZE, EFI_SYSTAB, EFI_SYSTAB_HI, EXT_CMD_LINE_PTR, EXT_RAMDISK_IMAGE,
    EXT_RAMDISK_SIZE, HDR_MAGIC, HDR_VERSION, JUMP_LEN, LOADFLAGS, RAMDISK_IMAGE, RAMDISK_SIZE,
    SETUP_HEADER, TYPE_OF_LOADER, VID_MODE,
};
use tcg_loader::string::EfiString;

fn name(s: &[u8]) -> EfiString {
    EfiString::from_bytes(s).unwrap()
}

fn descriptor(start: u64, pages: u64) -> MemoryDescriptor {
    MemoryDescriptor {
        ty: 7,
        physical_start: start,
        virtual_start: 0,
        number_of_pages: pages,
        attribute: 0xF,
    }
}

fn firmware(exit_faults: u32) -> Firmware {
    Firmware::new(0xFEED_0000, vec![descriptor(0, 256), descriptor(0x100000, 64)], exit_faults)
}

/// A minimal supported kernel image: magic 0x53726448, version 0x206,
/// five setup sectors, and load flags with the legacy bits set.
fn kernel_image() -> Vec<u8> {
    let mut image = vec![0u8; 2000];
    image[SETUP_HEADER] = 4;  // setup_sects
    image[JUMP_LEN] = 106;  // full known header
    image[HDR_MAGIC..HDR_MAGIC + 4].copy_from_slice(&0x53726448u32.to_le_bytes());
    image[HDR_VERSION..HDR_VERSION + 2].copy_from_slice(&0x206u16.to_le_bytes());
    image[LOADFLAGS] = 0xA1;  // both legacy bits and one ordinary bit
    image
}

fn join(low: u32, high: u32) -> u64 {
    ((high as u64) << 32) | (low as u64)
}

fn open(root: &File, path: &[u8]) -> File {
    root.open(name(path).as_str(), FileModes::read(), FileAttributes::empty()).unwrap()
}

#[test]
fn bundle_concatenates_payloads_in_listed_order() {
    let fs = SimpleFileSystem::new(vec![
        VolumeFile::new(name(b"one"), vec![1, 2, 3]),
        VolumeFile::new(name(b"two"), vec![4, 5]),
        VolumeFile::new(name(b"three"), vec![6, 7, 8, 9]),
    ]);
    let root = fs.open().unwrap();
    let files = vec![open(&root, b"one"), open(&root, b"two"), open(&root, b"three")];
    let mut fw = firmware(0);
    let (region, total) = stage_initrds(&mut fw, files).unwrap();
    assert_eq!(total, 9);
    let bytes = region.bytes();
    assert_eq!(&bytes[0..3], &[1, 2, 3]);
    assert_eq!(&bytes[3..5], &[4, 5]);
    assert_eq!(&bytes[5..9], &[6, 7, 8, 9]);
    assert_eq!(bytes.len(), 4096);
    assert!(bytes[9..].iter().all(|&b| b == 0));
}

fn full_volume(config: &[u8]) -> SimpleFileSystem {
    SimpleFileSystem::new(vec![
        VolumeFile::new(name(b"boot.conf"), config.to_vec()),
        VolumeFile::new(name(b"vmlinuz"), kernel_image()),
        VolumeFile::new(name(b"initrd.img"), vec![9, 8, 7, 6, 5, 4, 3, 2, 1, 0]),
    ])
}

#[test]
fn boots_a_valid_configuration_end_to_end() {
    let cmd = b"root=/dev/sda1";
    let fs = full_volume(b"kernel=vmlinuz\ninitrd=initrd.img\ncommand_line=root=/dev/sda1\n");
    let mut fw = firmware(0);
    let h = run(&mut fw, &fs, name(b"boot.conf").as_str()).unwrap();

    // The run reached the terminal transfer: boot services have ended.
    assert!(!fw.services_are_active());

    // The bundle holds the ten payload bytes, and the parameter block
    // reports exactly that length.
    assert_eq!(h.bp.read_u32(RAMDISK_SIZE), 10);
    assert_eq!(h.bp.read_u32(EXT_RAMDISK_SIZE), 0);
    assert_eq!(&h.initrd.bytes()[0..10], &[9, 8, 7, 6, 5, 4, 3, 2, 1, 0]);
    assert_eq!(
        join(h.bp.read_u32(RAMDISK_IMAGE), h.bp.read_u32(EXT_RAMDISK_IMAGE)),
        h.initrd.addr()
    );

    // The split command-line pointer decodes to a NUL-terminated copy of
    // the configured string.
    let cmd_addr = join(h.bp.read_u32(CMD_LINE_PTR), h.bp.read_u32(EXT_CMD_LINE_PTR));
    assert_eq!(cmd_addr, h.cmd_line_addr);
    let mut expected = cmd.to_vec();
    expected.push(0);
    assert_eq!(fw.read_pool(cmd_addr, cmd.len() + 1), Some(expected));

    // The kernel image was staged unchanged, normalized for a firmware
    // handoff.
    assert_eq!(&h.kernel.bytes()[0..2000], kernel_image().as_slice());
    assert_eq!(h.bp.read_u32(HDR_MAGIC), 0x53726448);
    assert_eq!(h.bp.read_u16(HDR_VERSION), 0x206);
    assert_eq!(h.bp.read_u16(VID_MODE), 0xFFFD);
    assert_eq!(h.bp.read_u8(TYPE_OF_LOADER), 0xFF);
    assert_eq!(h.bp.read_u8(LOADFLAGS), 0x01);

    // Firmware info: signature, record geometry, split map and table
    // addresses.
    assert_eq!(h.bp.read_u32(EFI_LOADER_SIGNATURE), 0x34364c45);
    assert_eq!(h.bp.read_u32(EFI_MEMDESC_SIZE), 40);
    assert_eq!(h.bp.read_u32(EFI_MEMDESC_VERSION), 1);
    assert_eq!(join(h.bp.read_u32(EFI_MEMMAP), h.bp.read_u32(EFI_MEMMAP_HI)), h.map_addr);
    assert_eq!(h.bp.read_u32(EFI_MEMMAP_SIZE), 2 * 40);
    assert_eq!(join(h.bp.read_u32(EFI_SYSTAB), h.bp.read_u32(EFI_SYSTAB_HI)), 0xFEED_0000);

    // The entry point lies past the five real-mode sectors.
    assert_eq!(h.entry, h.kernel.addr() + 5 * 512 + 0x200);
}

#[test]
fn empty_kernel_value_is_rejected_before_any_file_is_opened() {
    // The volume serves no kernel and no payload: reaching for either
    // would fail with a different, file-specific error.
    let fs = SimpleFileSystem::new(vec![VolumeFile::new(
        name(b"boot.conf"),
        b"kernel=\ninitrd=initrd.img\ncommand_line=x\n".to_vec(),
    )]);
    let mut fw = firmware(0);
    let e = run(&mut fw, &fs, name(b"boot.conf").as_str()).unwrap_err();
    assert!(matches!(e, LoaderError::NoKernel));
    assert!(fw.services_are_active());
}

#[test]
fn one_rejected_token_is_retried_with_a_fresh_snapshot() {
    let fs = full_volume(b"kernel=vmlinuz\ninitrd=initrd.img\ncommand_line=quiet\n");
    let mut fw = firmware(1);
    let h = run(&mut fw, &fs, name(b"boot.conf").as_str()).unwrap();
    assert!(!fw.services_are_active());
    assert_eq!(h.bp.read_u32(RAMDISK_SIZE), 10);
}

#[test]
fn a_second_rejected_token_is_fatal() {
    let fs = full_volume(b"kernel=vmlinuz\ninitrd=initrd.img\ncommand_line=quiet\n");
    let mut fw = firmware(2);
    let e = run(&mut fw, &fs, name(b"boot.conf").as_str()).unwrap_err();
    assert!(matches!(e, LoaderError::Boot(BootError::ServiceTermination(_))));
    assert!(fw.services_are_active());
}

#[test]
fn oversized_kernel_cannot_be_staged() {
    // Larger than the whole served address range: allocation must fail.
    let big = vec![0u8; 0x0400_0001];
    let fs = SimpleFileSystem::new(vec![
        VolumeFile::new(
            name(b"boot.conf"),
            b"kernel=vmlinuz\ninitrd=i\ncommand_line=x\n".to_vec(),
        ),
        VolumeFile::new(name(b"vmlinuz"), big),
        VolumeFile::new(name(b"i"), vec![1]),
    ]);
    let mut fw = firmware(0);
    let e = run(&mut fw, &fs, name(b"boot.conf").as_str()).unwrap_err();
    assert!(matches!(
        e,
        LoaderError::Boot(BootError::KernelAlloc(tcg_loader::status::Status::OutOfResources))
    ));
}

#[test]
fn oversized_bundle_cannot_be_staged() {
    let big = vec![0u8; 0x0400_0001];
    let fs = SimpleFileSystem::new(vec![
        VolumeFile::new(
            name(b"boot.conf"),
            b"kernel=vmlinuz\ninitrd=big\ncommand_line=x\n".to_vec(),
        ),
        VolumeFile::new(name(b"vmlinuz"), kernel_image()),
        VolumeFile::new(name(b"big"), big),
    ]);
    let mut fw = firmware(0);
    let e = run(&mut fw, &fs, name(b"boot.conf").as_str()).unwrap_err();
    assert!(matches!(
        e,
        LoaderError::Boot(BootError::InitrdAlloc(tcg_loader::status::Status::OutOfResources))
    ));
}

#[test]
fn config_read_fault_is_reported() {
    let fs = SimpleFileSystem::new(vec![VolumeFile::faulty(
        name(b"boot.conf"),
        b"kernel=vmlinuz\n".to_vec(),
        1,
        false,
    )]);
    let mut fw = firmware(0);
    let e = run(&mut fw, &fs, name(b"boot.conf").as_str()).unwrap_err();
    assert!(matches!(
        e,
        LoaderError::ConfigLoad(tcg_loader::config::LoadError::ReadFileFailed(
            tcg_loader::status::Status::DeviceError,
        ))
    ));
}

#[test]
fn config_metadata_fault_is_reported() {
    let fs = SimpleFileSystem::new(vec![VolumeFile::faulty(
        name(b"boot.conf"),
        b"kernel=vmlinuz\n".to_vec(),
        0,
        true,
    )]);
    let mut fw = firmware(0);
    let e = run(&mut fw, &fs, name(b"boot.conf").as_str()).unwrap_err();
    assert!(matches!(
        e,
        LoaderError::ConfigLoad(tcg_loader::config::LoadError::GetFileInfoFailed(
            tcg_loader::status::Status::DeviceError,
        ))
    ));
}

#[test]
fn kernel_read_fault_aborts_the_boot() {
    let fs = SimpleFileSystem::new(vec![
        VolumeFile::new(
            name(b"boot.conf"),
            b"kernel=vmlinuz\ninitrd=i\ncommand_line=x\n".to_vec(),
        ),
        VolumeFile::faulty(name(b"vmlinuz"), kernel_image(), 1, false),
        VolumeFile::new(name(b"i"), vec![1]),
    ]);
    let mut fw = firmware(0);
    let e = run(&mut fw, &fs, name(b"boot.conf").as_str()).unwrap_err();
    assert!(matches!(
        e,
        LoaderError::Boot(BootError::KernelIo(tcg_loader::status::Status::DeviceError))
    ));
    assert!(fw.services_are_active());
}

#[test]
fn initrd_metadata_fault_aborts_the_boot() {
    let fs = SimpleFileSystem::new(vec![
        VolumeFile::new(
            name(b"boot.conf"),
            b"kernel=vmlinuz\ninitrd=i\ncommand_line=x\n".to_vec(),
        ),
        VolumeFile::new(name(b"vmlinuz"), kernel_image()),
        VolumeFile::faulty(name(b"i"), vec![1], 0, true),
    ]);
    let mut fw = firmware(0);
    let e = run(&mut fw, &fs, name(b"boot.conf").as_str()).unwrap_err();
    assert!(matches!(
        e,
        LoaderError::Boot(BootError::InitrdIo(tcg_loader::status::Status::DeviceError))
    ));
}

#[test]
fn initrd_read_fault_aborts_the_boot() {
    let fs = SimpleFileSystem::new(vec![
        VolumeFile::new(
            name(b"boot.conf"),
            b"kernel=vmlinuz\ninitrd=i\ncommand_line=x\n".to_vec(),
        ),
        VolumeFile::new(name(b"vmlinuz"), kernel_image()),
        VolumeFile::faulty(name(b"i"), vec![1, 2, 3], 1, false),
    ]);
    let mut fw = firmware(0);
    let e = run(&mut fw, &fs, name(b"boot.conf").as_str()).unwrap_err();
    assert!(matches!(
        e,
        LoaderError::Boot(BootError::InitrdIo(tcg_loader::status::Status::DeviceError))
    ));
}

#[test]
fn missing_configuration_file_is_reported() {
    let fs = full_volume(b"kernel=vmlinuz\ninitrd=initrd.img\ncommand_line=quiet\n");
    let mut fw = firmware(0);
    let e = run(&mut fw, &fs, name(b"other.conf").as_str()).unwrap_err();
    assert!(matches!(e, LoaderError::ConfigOpen(_)));
}

#[test]
fn malformed_configuration_is_reported_with_its_line() {
    let fs = full_volume(b"kernel=vmlinuz\nbroken\n");
    let mut fw = firmware(0);
    let e = run(&mut fw, &fs, name(b"boot.conf").as_str()).unwrap_err();
    match e {
        LoaderError::ConfigLoad(tcg_loader::config::LoadError::SyntaxError(l)) => assert_eq!(l, 2),
        _ => panic!("expected a syntax error"),
    }
}

#[test]
fn missing_kernel_file_is_reported() {
    let fs = SimpleFileSystem::new(vec![VolumeFile::new(
        name(b"boot.conf"),
        b"kernel=vmlinuz\ninitrd=initrd.img\ncommand_line=x\n".to_vec(),
    )]);
    let mut fw = firmware(0);
    let e = run(&mut fw, &fs, name(b"boot.conf").as_str()).unwrap_err();
    assert!(matches!(e, LoaderError::KernelOpen(_)));
}

#[test]
fn missing_initrd_entry_is_rejected() {
    let fs = full_volume(b"kernel=vmlinuz\ncommand_line=x\n");
    let mut fw = firmware(0);
    let e = run(&mut fw, &fs, name(b"boot.conf").as_str()).unwrap_err();
    assert!(matches!(e, LoaderError::NoInitrd));
}

#[test]
fn missing_initrd_file_is_reported_with_its_path() {
    let fs = full_volume(b"kernel=vmlinuz\ninitrd=absent.img\ncommand_line=x\n");
    let mut fw = firmware(0);
    let e = run(&mut fw, &fs, name(b"boot.conf").as_str()).unwrap_err();
    match e {
        LoaderError::InitrdOpen(p, _) => assert!(p.as_str().same_as(name(b"absent.img").as_str())),
        _ => panic!("expected an initrd-open error"),
    }
}

#[test]
fn missing_command_line_is_rejected() {
    let fs = full_volume(b"kernel=vmlinuz\ninitrd=initrd.img\n");
    let mut fw = firmware(0);
    let e = run(&mut fw, &fs, name(b"boot.conf").as_str()).unwrap_err();
    assert!(matches!(e, LoaderError::NoCommandLine));
}

#[test]
fn unsupported_kernel_image_is_rejected() {
    let mut bad = kernel_image();
    bad[HDR_MAGIC] = 0x11;
    let fs = SimpleFileSystem::new(vec![
        VolumeFile::new(name(b"boot.conf"), b"kernel=vmlinuz\ninitrd=i\ncommand_line=x\n".to_vec()),
        VolumeFile::new(name(b"vmlinuz"), bad),
        VolumeFile::new(name(b"i"), vec![1]),
    ]);
    let mut fw = firmware(0);
    let e = run(&mut fw, &fs, name(b"boot.conf").as_str()).unwrap_err();
    assert!(matches!(
        e,
        LoaderError::Boot(BootError::Format(tcg_loader::params::FormatError::NotSupported))
    ));
}

#[test]
fn too_old_kernel_image_is_rejected() {
    let mut old = kernel_image();
    old[HDR_VERSION..HDR_VERSION + 2].copy_from_slice(&0x205u16.to_le_bytes());
    let fs = SimpleFileSystem::new(vec![
        VolumeFile::new(name(b"boot.conf"), b"kernel=vmlinuz\ninitrd=i\ncommand_line=x\n".to_vec()),
        VolumeFile::new(name(b"vmlinuz"), old),
        VolumeFile::new(name(b"i"), vec![1]),
    ]);
    let mut fw = firmware(0);
    let e = run(&mut fw, &fs, name(b"boot.conf").as_str()).unwrap_err();
    assert!(matches!(
        e,
        LoaderError::Boot(BootError::Format(tcg_loader::params::FormatError::TooOld))
    ));
}
