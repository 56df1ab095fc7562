//! Volume and file model: a root directory serving named byte contents,
//! with the metadata query's probe-then-retry protocol.

use vstd::prelude::*;

use crate::status::Status;
use crate::string::{EfiStr, EfiString};

verus! {

/// Flags controlling how [`File::open`] opens a file.
#[derive(Clone, Copy, PartialEq, Eq, Structural, Debug)]
pub struct FileModes {
    bits: u64,
}

impl FileModes {
    /// Open for reading.
    pub fn read() -> (r: FileModes)
        ensures
            r.spec_bits() == 1u64,
    {
        FileModes { bits: 1 }
    }

    /// The raw mode bits.
    pub closed spec fn spec_bits(&self) -> u64 {
        self.bits
    }
}

/// Attributes applied when a file is created. The volume model is
/// read-only, so no attribute bit is defined.
#[derive(Clone, Copy, PartialEq, Eq, Structural, Debug)]
pub struct FileAttributes {
    bits: u64,
}

impl FileAttributes {
    /// No attribute.
    pub fn empty() -> (r: FileAttributes)
        ensures
            r.spec_bits() == 0u64,
    {
        FileAttributes { bits: 0 }
    }

    /// The raw attribute bits.
    pub closed spec fn spec_bits(&self) -> u64 {
        self.bits
    }
}

/// The mathematical content of one directory entry: its name units
/// (including the final NUL), its byte contents, and its injected
/// transient I/O faults.
#[verifier::ext_equal]
pub ghost struct EntryV {
    /// The entry's name units, including the final NUL.
    pub name: Seq<u16>,
    /// The entry's byte contents.
    pub data: Seq<u8>,
    /// How many upcoming reads of this entry's file will fail.
    pub read_faults: u32,
    /// Whether metadata queries on this entry's file fail.
    pub info_fails: bool,
}

/// Longest name the volume model serves, in units including the final
/// NUL. The bound carries no protocol meaning; it only keeps the
/// metadata-record size arithmetic of [`File::info`] within `usize` on
/// every target.
pub const NAME_UNITS_MAX: usize = 4096;

/// An entry's name is a well-formed, non-empty string within the model's
/// name bound.
pub open spec fn entry_wf(e: EntryV) -> bool {
    &&& e.name.len() >= 2
    &&& e.name.len() <= NAME_UNITS_MAX
    &&& e.name.last() == 0
    &&& forall|i: int| 0 <= i < e.name.len() - 1 ==> e.name[i] != 0
}

/// The entries' mathematical content, in order.
pub open spec fn entries_of(files: Seq<VolumeFile>) -> Seq<EntryV> {
    files.map_values(|f: VolumeFile| f.view())
}

/// The first entry whose name units equal `name`, walking the entries in
/// order.
pub open spec fn lookup_entry(entries: Seq<EntryV>, name: Seq<u16>) -> Option<EntryV>
    decreases entries.len(),
{
    if entries.len() == 0 {
        None
    } else if entries[0].name == name {
        Some(entries[0])
    } else {
        lookup_entry(entries.drop_first(), name)
    }
}

/// The contents of the first entry whose name units equal `name`.
pub open spec fn lookup(entries: Seq<EntryV>, name: Seq<u16>) -> Option<Seq<u8>> {
    match lookup_entry(entries, name) {
        Some(e) => Some(e.data),
        None => None,
    }
}

/// A successful lookup names some entry of the sequence.
pub proof fn lemma_lookup_found(entries: Seq<EntryV>, name: Seq<u16>)
    ensures
        lookup_entry(entries, name) is Some ==> exists|i: int|
            0 <= i < entries.len() && (#[trigger] entries[i]).name == name && entries[i]
                == lookup_entry(entries, name)->Some_0,
    decreases entries.len(),
{
    if entries.len() > 0 && !(entries[0].name == name) {
        lemma_lookup_found(entries.drop_first(), name);
        if lookup_entry(entries, name) is Some {
            let i = choose|i: int|
                0 <= i < entries.drop_first().len() && (#[trigger] entries.drop_first()[i]).name
                    == name && entries.drop_first()[i] == lookup_entry(
                    entries.drop_first(),
                    name,
                )->Some_0;
            assert(entries[i + 1] == entries.drop_first()[i]);
        }
    }
}

/// One named file stored on the volume.
#[derive(Debug)]
pub struct VolumeFile {
    name: EfiString,
    data: Vec<u8>,
    read_faults: u32,
    info_fails: bool,
}

impl VolumeFile {
    /// The entry's mathematical content.
    pub closed spec fn view(&self) -> EntryV {
        EntryV {
            name: self.name.units(),
            data: self.data@,
            read_faults: self.read_faults,
            info_fails: self.info_fails,
        }
    }

    /// The entry is well formed; see [`entry_wf`].
    pub open spec fn wf(&self) -> bool {
        entry_wf(self.view())
    }

    /// Makes a volume entry from a non-empty name and its contents.
    pub fn new(name: EfiString, data: Vec<u8>) -> (r: VolumeFile)
        requires
            name.wf(),
            name.units().len() >= 2,
            name.units().len() <= NAME_UNITS_MAX,
        ensures
            r.wf(),
            r.view() == (EntryV {
                name: name.units(),
                data: data@,
                read_faults: 0,
                info_fails: false,
            }),
    {
        VolumeFile { name, data, read_faults: 0, info_fails: false }
    }

    /// Makes a volume entry whose file will reject its next `read_faults`
    /// reads, and whose metadata queries fail while `info_fails` holds.
    pub fn faulty(name: EfiString, data: Vec<u8>, read_faults: u32, info_fails: bool) -> (r:
        VolumeFile)
        requires
            name.wf(),
            name.units().len() >= 2,
            name.units().len() <= NAME_UNITS_MAX,
        ensures
            r.wf(),
            r.view() == (EntryV { name: name.units(), data: data@, read_faults, info_fails }),
    {
        VolumeFile { name, data, read_faults, info_fails }
    }

    fn duplicate(&self) -> (r: VolumeFile)
        ensures
            r.view() == self.view(),
    {
        let mut data: Vec<u8> = Vec::new();
        let n = self.data.len();
        let mut i: usize = 0;
        while i < n
            invariant
                n == self.data@.len(),
                0 <= i <= n,
                data@ =~= self.data@.subrange(0, i as int),
            decreases n - i,
        {
            data.push(self.data[i]);
            i += 1;
        }
        assert(data@ =~= self.data@);
        let r = VolumeFile {
            name: self.name.as_str().to_owned(),
            data,
            read_faults: self.read_faults,
            info_fails: self.info_fails,
        };
        assert(r.view() =~= self.view());
        r
    }
}

/// The simple file system protocol: access to one volume's root directory.
pub struct SimpleFileSystem {
    files: Vec<VolumeFile>,
}

impl SimpleFileSystem {
    /// The volume's entries, in directory order.
    pub closed spec fn entries(&self) -> Seq<EntryV> {
        entries_of(self.files@)
    }

    /// The volume is well formed: every entry is.
    pub open spec fn wf(&self) -> bool {
        forall|i: int| 0 <= i < self.entries().len() ==> entry_wf(#[trigger] self.entries()[i])
    }

    /// Makes a volume serving the given files.
    pub fn new(files: Vec<VolumeFile>) -> (r: SimpleFileSystem)
        requires
            forall|i: int| 0 <= i < files@.len() ==> (#[trigger] files@[i]).wf(),
        ensures
            r.wf(),
            r.entries() == entries_of(files@),
    {
        let r = SimpleFileSystem { files };
        proof {
            assert forall|i: int| 0 <= i < r.entries().len() implies entry_wf(
                #[trigger] r.entries()[i],
            ) by {
                assert(r.entries()[i] == r.files@[i].view());
            }
        }
        r
    }

    /// Opens the root directory on the volume.
    pub fn open(&self) -> (r: Result<File, Status>)
        requires
            self.wf(),
        ensures
            match r {
                Ok(root) => {
                    &&& root.wf()
                    &&& root.is_directory()
                    &&& root.entries() == self.entries()
                    &&& root.read_faults() == 0
                    &&& !root.info_fails()
                },
                Err(_) => false,
            },
    {
        let mut entries: Vec<VolumeFile> = Vec::new();
        let n = self.files.len();
        let mut i: usize = 0;
        while i < n
            invariant
                n == self.files@.len(),
                0 <= i <= n,
                entries_of(entries@) =~= self.entries().subrange(0, i as int),
            decreases n - i,
        {
            let dup = self.files[i].duplicate();
            let ghost prev = entries@;
            entries.push(dup);
            proof {
                assert(entries@ =~= prev.push(dup));
                assert(entries_of(prev).len() == prev.len());
                assert(entries_of(prev) =~= self.entries().subrange(0, i as int));
                assert(prev.len() == i);
                assert(entries@.len() == i + 1);
                assert forall|j: int| 0 <= j < i + 1 implies entries_of(entries@)[j]
                    == self.entries().subrange(0, i + 1)[j] by {
                    assert(prev.push(dup)[j] == if j < i {
                        prev[j]
                    } else {
                        dup
                    });
                    assert(entries_of(entries@)[j] == entries@[j].view());
                    assert(self.entries().subrange(0, i + 1)[j] == self.files@[j].view());
                    if j < i {
                        assert(entries_of(prev)[j] == self.entries().subrange(0, i as int)[j]);
                        assert(entries@[j] == prev[j]);
                    } else {
                        assert(entries@[j] == dup);
                    }
                }
                assert(entries_of(entries@) =~= self.entries().subrange(0, i + 1));
            }
            i += 1;
        }
        let root = File {
            is_dir: true,
            entries,
            name: EfiString::new(),
            contents: Vec::new(),
            position: 0,
            read_faults: 0,
            info_fails: false,
        };
        proof {
            assert(self.entries().subrange(0, n as int) =~= self.entries());
            assert(root.entries() =~= self.entries());
        }
        Ok(root)
    }
}

/// Size in bytes of the fixed part of a metadata record, before the
/// variable-length name that follows it.
pub const INFO_FIXED_SIZE: usize = 80;

/// An open handle: either the root directory or one regular file on it.
#[derive(Debug)]
pub struct File {
    is_dir: bool,
    entries: Vec<VolumeFile>,
    name: EfiString,
    contents: Vec<u8>,
    position: u64,
    read_faults: u32,
    info_fails: bool,
}

/// Result of one raw metadata probe with a caller-sized buffer.
enum InfoProbe {
    TooSmall(usize),
    Done(FileInfo),
    Failed,
}

impl File {
    /// Whether this handle is the root directory.
    pub closed spec fn is_directory(&self) -> bool {
        self.is_dir
    }

    /// The directory entries behind this handle.
    pub closed spec fn entries(&self) -> Seq<EntryV> {
        entries_of(self.entries@)
    }

    /// The handle's name units, including the final NUL.
    pub closed spec fn name_units(&self) -> Seq<u16> {
        self.name.units()
    }

    /// The handle's file contents; empty for a directory.
    pub closed spec fn contents(&self) -> Seq<u8> {
        self.contents@
    }

    /// The current read position.
    pub closed spec fn position(&self) -> u64 {
        self.position
    }

    /// How many upcoming reads of this handle will fail.
    pub closed spec fn read_faults(&self) -> u32 {
        self.read_faults
    }

    /// Whether metadata queries on this handle fail.
    pub closed spec fn info_fails(&self) -> bool {
        self.info_fails
    }

    /// The entry a regular handle was opened from.
    pub open spec fn view_as_entry(&self) -> EntryV {
        EntryV {
            name: self.name_units(),
            data: self.contents(),
            read_faults: self.read_faults(),
            info_fails: self.info_fails(),
        }
    }

    /// The handle is well formed.
    pub open spec fn wf(&self) -> bool {
        &&& self.name_units().len() >= 1
        &&& self.name_units().len() <= NAME_UNITS_MAX
        &&& self.name_units().last() == 0
        &&& forall|i: int| 0 <= i < self.name_units().len() - 1 ==> self.name_units()[i] != 0
        &&& forall|i: int| 0 <= i < self.entries().len() ==> entry_wf(#[trigger] self.entries()[i])
        &&& (self.is_directory() ==> self.contents().len() == 0)
    }

    /// Opens a new file relative to this directory. The first entry whose
    /// name matches is served; a missing name is `NotFound`. Only a
    /// directory handle can open names.
    pub fn open(&self, name: &EfiStr, _modes: FileModes, _attrs: FileAttributes) -> (r: Result<
        File,
        Status,
    >)
        requires
            self.wf(),
        ensures
            match r {
                Ok(f) => {
                    &&& self.is_directory()
                    &&& lookup_entry(self.entries(), name.units()) == Some(f.view_as_entry())
                    &&& lookup(self.entries(), name.units()) == Some(f.contents())
                    &&& f.wf()
                    &&& !f.is_directory()
                    &&& f.name_units() == name.units()
                    &&& f.position() == 0
                },
                Err(s) => {
                    &&& (!self.is_directory() ==> s == Status::Unsupported)
                    &&& (self.is_directory() ==> {
                        &&& s == Status::NotFound
                        &&& lookup(self.entries(), name.units()) is None
                    })
                },
            },
    {
        if !self.is_dir {
            return Err(Status::Unsupported);
        }
        let n = self.entries.len();
        proof {
            assert(self.entries().subrange(0, n as int) =~= self.entries());
        }
        let mut i: usize = 0;
        while i < n
            invariant
                self.wf(),
                self.is_directory(),
                n == self.entries().len(),
                0 <= i <= n,
                lookup_entry(self.entries().subrange(i as int, n as int), name.units())
                    == lookup_entry(self.entries(), name.units()),
            decreases n - i,
        {
            let ghost rest = self.entries().subrange(i as int, n as int);
            proof {
                assert(rest[0] == self.entries()[i as int]);
            }
            if self.entries[i].name.as_str().same_as(name) {
                assert(rest[0].name == name.units());
                let data = self.entries[i].duplicate();
                let VolumeFile { name: fname, data: fdata, read_faults, info_fails } = data;
                let f = File {
                    is_dir: false,
                    entries: Vec::new(),
                    name: fname,
                    contents: fdata,
                    position: 0,
                    read_faults,
                    info_fails,
                };
                proof {
                    assert(entry_wf(self.entries()[i as int]));
                    assert(lookup_entry(rest, name.units()) == Some(rest[0]));
                    assert(f.view_as_entry() =~= rest[0]);
                    assert(f.entries() =~= Seq::<EntryV>::empty());
                }
                return Ok(f);
            }
            proof {
                assert(rest[0].name != name.units());
                assert(rest.drop_first() =~= self.entries().subrange(i + 1, n as int));
            }
            i += 1;
        }
        proof {
            assert(self.entries().subrange(n as int, n as int) =~= Seq::<EntryV>::empty());
        }
        Err(Status::NotFound)
    }

    /// Reads from the current position into `buf` starting at `off`,
    /// filling as many bytes as the buffer and the remaining contents
    /// allow, and advances the position by the number read. While the
    /// handle has an injected fault pending, a read attempt consumes one
    /// fault and fails instead.
    pub fn read(&mut self, buf: &mut Vec<u8>, off: usize) -> (r: Result<usize, Status>)
        requires
            old(self).wf(),
            !old(self).is_directory(),
            off <= old(buf)@.len(),
        ensures
            final(self).wf(),
            final(self).is_directory() == old(self).is_directory(),
            final(self).name_units() == old(self).name_units(),
            final(self).contents() == old(self).contents(),
            final(self).info_fails() == old(self).info_fails(),
            match r {
                Ok(n) => {
                    let remaining = if old(self).position() <= old(self).contents().len() {
                        old(self).contents().len() - old(self).position()
                    } else {
                        0
                    };
                    let space = old(buf)@.len() - off;
                    &&& old(self).read_faults() == 0
                    &&& final(self).read_faults() == 0
                    &&& n == if remaining <= space {
                        remaining
                    } else {
                        space
                    }
                    &&& final(self).position() == old(self).position() + n
                    &&& final(buf)@.len() == old(buf)@.len()
                    &&& forall|k: int|
                        0 <= k < n ==> #[trigger] final(buf)@[off + k] == old(self).contents()[old(
                            self,
                        ).position() + k]
                    &&& forall|k: int|
                        0 <= k < old(buf)@.len() && !(off <= k < off + n) ==> final(buf)@[k] == old(
                            buf,
                        )@[k]
                },
                Err(s) => {
                    &&& s == Status::DeviceError
                    &&& old(self).read_faults() > 0
                    &&& final(self).read_faults() == (old(self).read_faults() - 1) as u32
                    &&& final(self).position() == old(self).position()
                    &&& final(buf)@ == old(buf)@
                },
            },
    {
        if self.read_faults > 0 {
            self.read_faults = self.read_faults - 1;
            proof {
                assert forall|i: int| 0 <= i < self.entries().len() implies entry_wf(
                    #[trigger] self.entries()[i],
                ) by {
                    assert(self.entries() == old(self).entries());
                    assert(entry_wf(old(self).entries()[i]));
                }
            }
            return Err(Status::DeviceError);
        }
        let len = self.contents.len();
        let space = buf.len() - off;
        let mut n: usize = 0;
        let mut start: usize = 0;
        if self.position <= len as u64 {
            start = self.position as usize;
            let remaining = len - start;
            n = if remaining <= space {
                remaining
            } else {
                space
            };
        }
        let mut k: usize = 0;
        while k < n
            invariant
                0 <= k <= n,
                len == self.contents@.len(),
                start + n <= len || n == 0,
                n > 0 ==> start == old(self).position(),
                off + n <= buf@.len(),
                buf@.len() <= usize::MAX,
                buf@.len() == old(buf)@.len(),
                self.contents@ == old(self).contents(),
                forall|j: int| 0 <= j < k ==> #[trigger] buf@[off + j] == self.contents@[start + j],
                forall|j: int|
                    0 <= j < buf@.len() && !(off <= j < off + k) ==> buf@[j] == old(buf)@[j],
            decreases n - k,
        {
            let b = self.contents[start + k];
            buf.set(off + k, b);
            k += 1;
        }
        self.position = self.position + n as u64;
        proof {
            assert forall|i: int| 0 <= i < self.entries().len() implies entry_wf(
                #[trigger] self.entries()[i],
            ) by {
                assert(self.entries() == old(self).entries());
                assert(entry_wf(old(self).entries()[i]));
            }
        }
        Ok(n)
    }

    /// The length in bytes of the handle's contents.
    pub fn len_bytes(&self) -> (r: usize)
        ensures
            r == self.contents().len(),
    {
        self.contents.len()
    }

    /// Sets the file's current read position. A directory handle does not
    /// support seeking.
    pub fn set_position(&mut self, position: u64) -> (r: Result<(), Status>)
        requires
            old(self).wf(),
        ensures
            final(self).wf(),
            final(self).is_directory() == old(self).is_directory(),
            final(self).name_units() == old(self).name_units(),
            final(self).contents() == old(self).contents(),
            final(self).entries() == old(self).entries(),
            final(self).read_faults() == old(self).read_faults(),
            final(self).info_fails() == old(self).info_fails(),
            match r {
                Ok(()) => !old(self).is_directory() && final(self).position() == position,
                Err(s) => {
                    &&& old(self).is_directory()
                    &&& s == Status::Unsupported
                    &&& final(self).position() == old(self).position()
                },
            },
    {
        if self.is_dir {
            return Err(Status::Unsupported);
        }
        self.position = position;
        proof {
            assert forall|i: int| 0 <= i < self.entries().len() implies entry_wf(
                #[trigger] self.entries()[i],
            ) by {
                assert(self.entries() == old(self).entries());
                assert(entry_wf(old(self).entries()[i]));
            }
        }
        Ok(())
    }

    /// One raw metadata probe: reports the exact record size needed when
    /// the caller's buffer is too small, the record otherwise, and an
    /// outright failure while an injected metadata fault holds.
    fn info_raw(&self, buf_len: usize) -> (r: InfoProbe)
        requires
            self.wf(),
        ensures
            match r {
                InfoProbe::TooSmall(needed) => {
                    &&& !self.info_fails()
                    &&& needed == INFO_FIXED_SIZE + 2 * self.name_units().len()
                    &&& buf_len < needed
                },
                InfoProbe::Done(info) => {
                    &&& !self.info_fails()
                    &&& buf_len >= INFO_FIXED_SIZE + 2 * self.name_units().len()
                    &&& info.spec_size() == self.contents().len()
                    &&& info.spec_name_units() == self.name_units()
                },
                InfoProbe::Failed => self.info_fails(),
            },
    {
        if self.info_fails {
            return InfoProbe::Failed;
        }
        let needed = INFO_FIXED_SIZE + 2 * self.name.as_str().len() + 2;
        assert(needed == INFO_FIXED_SIZE + 2 * self.name_units().len());
        if buf_len < needed {
            return InfoProbe::TooSmall(needed);
        }
        InfoProbe::Done(
            FileInfo { size: self.contents.len() as u64, name: self.name.as_str().to_owned() },
        )
    }

    /// Queries this handle's metadata: probe with a minimal buffer, and on
    /// a too-small report retry exactly once with the reported size. Any
    /// other failure, or a second shortfall, is a device error with no
    /// further retry.
    pub fn info(&self) -> (r: Result<FileInfo, Status>)
        requires
            self.wf(),
        ensures
            match r {
                Ok(info) => {
                    &&& !self.info_fails()
                    &&& info.spec_size() == self.contents().len()
                    &&& info.spec_name_units() == self.name_units()
                },
                Err(s) => self.info_fails() && s == Status::DeviceError,
            },
    {
        let initial = INFO_FIXED_SIZE + 2;
        match self.info_raw(initial) {
            InfoProbe::Done(info) => Ok(info),
            InfoProbe::Failed => Err(Status::DeviceError),
            InfoProbe::TooSmall(needed) => match self.info_raw(needed) {
                InfoProbe::Done(info) => Ok(info),
                InfoProbe::Failed => Err(Status::DeviceError),
                InfoProbe::TooSmall(_) => Err(Status::DeviceError),
            },
        }
    }
}

/// Metadata of one file: its byte size and its name.
#[derive(Debug)]
pub struct FileInfo {
    size: u64,
    name: EfiString,
}

impl FileInfo {
    /// The file's size in bytes.
    pub closed spec fn spec_size(&self) -> u64 {
        self.size
    }

    /// The file's name units, including the final NUL.
    pub closed spec fn spec_name_units(&self) -> Seq<u16> {
        self.name.units()
    }

    /// The file's size in bytes.
    pub fn file_size(&self) -> (r: u64)
        ensures
            r == self.spec_size(),
    {
        self.size
    }

    /// The file's name.
    pub fn file_name(&self) -> (r: &EfiStr)
        ensures
            r.units() == self.spec_name_units(),
    {
        self.name.as_str()
    }
}

} // verus!
