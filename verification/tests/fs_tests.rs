use tcg_loader::fs::{File, FileAttributes, FileModes, SimpleFileSystem, VolumeFile};
use tcg_loader::status::Status;
use tcg_loader::string::EfiString;

fn name(s: &[u8]) -> EfiString {
    EfiString::from_bytes(s).unwrap()
}

fn volume(files: Vec<(&[u8], Vec<u8>)>) -> SimpleFileSystem {
    let mut entries = Vec::new();
    for (n, data) in files {
        entries.push(VolumeFile::new(name(n), data));
    }
    SimpleFileSystem::new(entries)
}

fn open(root: &File, path: &[u8]) -> Result<File, Status> {
    root.open(name(path).as_str(), FileModes::read(), FileAttributes::empty())
}

#[test]
fn opens_a_named_file() {
    let fs = volume(vec![(b"a.txt", vec![1, 2, 3])]);
    let root = fs.open().unwrap();
    let f = open(&root, b"a.txt").unwrap();
    let info = f.info().unwrap();
    assert_eq!(info.file_size(), 3);
    assert!(info.file_name().same_as(name(b"a.txt").as_str()));
}

#[test]
fn missing_names_are_not_found() {
    let fs = volume(vec![(b"a.txt", vec![1])]);
    let root = fs.open().unwrap();
    let e = open(&root, b"b.txt").unwrap_err();
    assert_eq!(e, Status::NotFound);
}

#[test]
fn opening_through_a_regular_file_is_unsupported() {
    let fs = volume(vec![(b"a.txt", vec![1])]);
    let root = fs.open().unwrap();
    let f = open(&root, b"a.txt").unwrap();
    let e = open(&f, b"a.txt").unwrap_err();
    assert_eq!(e, Status::Unsupported);
}

#[test]
fn read_fills_the_buffer_and_advances() {
    let fs = volume(vec![(b"a", vec![10, 20, 30, 40, 50])]);
    let root = fs.open().unwrap();
    let mut f = open(&root, b"a").unwrap();
    let mut buf = vec![0u8; 3];
    assert_eq!(f.read(&mut buf, 0).unwrap(), 3);
    assert_eq!(buf, vec![10, 20, 30]);
    assert_eq!(f.read(&mut buf, 0).unwrap(), 2);
    assert_eq!(buf, vec![40, 50, 30]);
    assert_eq!(f.read(&mut buf, 0).unwrap(), 0);
}

#[test]
fn read_at_an_offset_leaves_other_bytes() {
    let fs = volume(vec![(b"a", vec![7, 8])]);
    let root = fs.open().unwrap();
    let mut f = open(&root, b"a").unwrap();
    let mut buf = vec![0xFFu8; 4];
    assert_eq!(f.read(&mut buf, 1).unwrap(), 2);
    assert_eq!(buf, vec![0xFF, 7, 8, 0xFF]);
}

#[test]
fn set_position_rewinds() {
    let fs = volume(vec![(b"a", vec![1, 2, 3])]);
    let root = fs.open().unwrap();
    let mut f = open(&root, b"a").unwrap();
    let mut buf = vec![0u8; 3];
    assert_eq!(f.read(&mut buf, 0).unwrap(), 3);
    f.set_position(1).unwrap();
    let mut two = vec![0u8; 2];
    assert_eq!(f.read(&mut two, 0).unwrap(), 2);
    assert_eq!(two, vec![2, 3]);
}

#[test]
fn metadata_retry_serves_long_names() {
    // The first probe uses a minimal buffer; a long name forces the
    // reported-size retry, which must succeed in one step.
    let long = vec![b'x'; 200];
    let fs = volume(vec![(long.as_slice(), vec![9; 17])]);
    let root = fs.open().unwrap();
    let f = open(&root, long.as_slice()).unwrap();
    let info = f.info().unwrap();
    assert_eq!(info.file_size(), 17);
    assert!(info.file_name().same_as(name(long.as_slice()).as_str()));
}

#[test]
fn injected_read_faults_fail_then_clear() {
    let fs = SimpleFileSystem::new(vec![VolumeFile::faulty(name(b"a"), vec![5, 6], 1, false)]);
    let root = fs.open().unwrap();
    let mut f = open(&root, b"a").unwrap();
    let mut buf = vec![0u8; 2];
    assert_eq!(f.read(&mut buf, 0).unwrap_err(), Status::DeviceError);
    assert_eq!(buf, vec![0, 0]);
    assert_eq!(f.read(&mut buf, 0).unwrap(), 2);
    assert_eq!(buf, vec![5, 6]);
}

#[test]
fn injected_metadata_fault_fails_the_query() {
    let fs = SimpleFileSystem::new(vec![VolumeFile::faulty(name(b"a"), vec![1], 0, true)]);
    let root = fs.open().unwrap();
    let f = open(&root, b"a").unwrap();
    assert_eq!(f.info().unwrap_err(), Status::DeviceError);
}

#[test]
fn first_matching_entry_wins() {
    let fs = volume(vec![(b"a", vec![1]), (b"a", vec![2])]);
    let root = fs.open().unwrap();
    let f = open(&root, b"a").unwrap();
    let info = f.info().unwrap();
    assert_eq!(info.file_size(), 1);
}
