//! The flags with which a file is opened, and what they ask of the
//! filesystem.

use vstd::prelude::*;
use crate::table::{allocates, find_free, installed, vacated};

verus! {

/// Open for reading only: no flag is set.
pub const RDONLY: u32 = 0;

/// Open for writing only.
pub const WRONLY: u32 = 1 << 0;

/// Open for reading and writing.
pub const RDWR: u32 = 1 << 1;

/// Create the file if there is none, and empty it if there is one.
pub const CREATE: u32 = 1 << 9;

/// Empty the file.
pub const TRUNC: u32 = 1 << 10;

/// Every bit that is a flag.
pub const ALL: u32 = WRONLY | RDWR | CREATE | TRUNC;

/// A set of the flags above.
#[derive(Clone, Copy, Debug, PartialEq, Eq, Structural)]
pub struct OpenFlags {
    bits: u32,
}

impl View for OpenFlags {
    type V = u32;

    closed spec fn view(&self) -> u32 {
        self.bits
    }
}

/// Whether a file opened with the flags `bits` can be read.
pub open spec fn readable(bits: u32) -> bool {
    bits == 0 || bits & WRONLY != WRONLY
}

/// Whether a file opened with the flags `bits` can be written.
pub open spec fn writable(bits: u32) -> bool {
    bits != 0
}

impl OpenFlags {
    /// The set with exactly the flags in `bits`; `None` where a bit of
    /// `bits` is no flag.
    pub fn from_bits(bits: u32) -> (flags: Option<OpenFlags>)
        ensures
            flags is Some <==> bits & !ALL == 0,
            flags is Some ==> flags.unwrap()@ == bits,
    {
        if bits & !ALL == 0 {
            Some(OpenFlags { bits })
        } else {
            None
        }
    }

    /// The flags as bits.
    pub fn bits(&self) -> (bits: u32)
        ensures
            bits == self@,
    {
        self.bits
    }

    /// Whether no flag is set.
    pub fn is_empty(&self) -> (empty: bool)
        ensures
            empty == (self@ == 0),
    {
        self.bits == 0
    }

    /// Whether every flag of `other` is set.
    pub fn contains(&self, other: OpenFlags) -> (all: bool)
        ensures
            all == (self@ & other@ == other@),
    {
        (self.bits & other.bits) == other.bits
    }

    /// Whether a file opened with these flags can be read, and whether
    /// it can be written: read only without any flag, write only with
    /// `WRONLY`, and both otherwise.
    pub fn read_write(&self) -> (access: (bool, bool))
        ensures
            access.0 == readable(self@),
            access.1 == writable(self@),
    {
        if self.is_empty() {
            (true, false)
        } else if self.bits & WRONLY == WRONLY {
            (false, true)
        } else {
            (true, true)
        }
    }
}

/// What the filesystem is to do for a request to open a file.
#[derive(Clone, Copy, Debug, PartialEq, Eq, Structural)]
pub enum OpenAction {
    /// There is no such file, and none is to be made: the request fails.
    Fail,
    /// Make the file and open it; the request fails if it cannot be made.
    Create,
    /// Open the file as it is.
    Open,
    /// Empty the file and open it.
    Clear,
}

/// What a request with the flags `bits` asks for, given whether the
/// file exists.
pub open spec fn open_action_for(bits: u32, exists: bool) -> OpenAction {
    if bits & CREATE == CREATE {
        if exists {
            OpenAction::Clear
        } else {
            OpenAction::Create
        }
    } else if !exists {
        OpenAction::Fail
    } else if bits & TRUNC == TRUNC {
        OpenAction::Clear
    } else {
        OpenAction::Open
    }
}

/// Decides what is to be done to open a file with `flags`. With
/// `CREATE`, a file that exists is emptied and one that does not is
/// made. Without it, a file that does not exist cannot be opened, and
/// one that exists is emptied first where `TRUNC` is set.
pub fn open_action(flags: OpenFlags, exists: bool) -> (action: OpenAction)
    ensures
        action == open_action_for(flags@, exists),
{
    if flags.bits & CREATE == CREATE {
        if exists {
            OpenAction::Clear
        } else {
            OpenAction::Create
        }
    } else if !exists {
        OpenAction::Fail
    } else if flags.bits & TRUNC == TRUNC {
        OpenAction::Clear
    } else {
        OpenAction::Open
    }
}

/// An open file as the table of a task records it.
#[derive(Clone, Copy, Debug, PartialEq, Eq, Structural)]
pub struct OpenFile {
    pub readable: bool,
    pub writable: bool,
    /// The number under which the filesystem knows the file.
    pub inode_id: u32,
}

/// The open files of a task, each under its descriptor: the number of
/// its slot.
pub struct FdTable {
    files: Vec<Option<OpenFile>>,
}

impl View for FdTable {
    type V = Seq<Option<OpenFile>>;

    closed spec fn view(&self) -> Seq<Option<OpenFile>> {
        self.files@
    }
}

impl FdTable {
    /// A table without open files.
    pub fn new() -> (table: Self)
        ensures
            table@ == Seq::<Option<OpenFile>>::empty(),
    {
        Self { files: Vec::new() }
    }

    /// The file that is open under `fd`, if there is one.
    pub fn get(&self, fd: usize) -> (file: Option<OpenFile>)
        ensures
            file == (if fd < self@.len() {
                self@[fd as int]
            } else {
                None
            }),
    {
        if fd < self.files.len() {
            self.files[fd]
        } else {
            None
        }
    }

    /// The file under `fd` if it is open for reading.
    pub fn readable_file(&self, fd: usize) -> (file: Option<OpenFile>)
        ensures
            file == (if fd < self@.len() && self@[fd as int] is Some
                && self@[fd as int].unwrap().readable {
                self@[fd as int]
            } else {
                None
            }),
    {
        match self.get(fd) {
            Some(file) => if file.readable {
                Some(file)
            } else {
                None
            },
            None => None,
        }
    }

    /// The file under `fd` if it is open for writing.
    pub fn writable_file(&self, fd: usize) -> (file: Option<OpenFile>)
        ensures
            file == (if fd < self@.len() && self@[fd as int] is Some
                && self@[fd as int].unwrap().writable {
                self@[fd as int]
            } else {
                None
            }),
    {
        match self.get(fd) {
            Some(file) => if file.writable {
                Some(file)
            } else {
                None
            },
            None => None,
        }
    }
}

/// Records the file that the filesystem has opened with the flags
/// `flags`, and returns its descriptor: the lowest free slot of the
/// table. `inode` is the file's number, or `None` where the filesystem
/// could not open it: the result is then -1 and the table as before.
pub fn sys_open(fd_table: &mut FdTable, flags: OpenFlags, inode: Option<u32>) -> (fd: isize)
    requires
        old(fd_table)@.len() < isize::MAX,
    ensures
        inode is None ==> fd == -1 && final(fd_table)@ == old(fd_table)@,
        inode is Some ==> allocates(old(fd_table)@, fd as int) && final(fd_table)@ == installed(
            old(fd_table)@,
            fd as int,
            OpenFile {
                readable: readable(flags@),
                writable: writable(flags@),
                inode_id: inode.unwrap(),
            },
        ),
{
    match inode {
        Some(inode_id) => {
            let (readable, writable) = flags.read_write();
            let fd: usize = find_free(&fd_table.files);
            let file = OpenFile { readable, writable, inode_id };
            if fd < fd_table.files.len() {
                fd_table.files[fd] = Some(file);
            } else {
                fd_table.files.push(Some(file));
            }
            fd as isize
        },
        None => -1,
    }
}

/// Closes the file under `fd` and returns 0: its slot is free again.
/// Where no file is open under `fd` the result is -1 and nothing changes.
pub fn sys_close(fd_table: &mut FdTable, fd: usize) -> (code: isize)
    ensures
        code == (if fd < old(fd_table)@.len() && old(fd_table)@[fd as int] is Some {
            0isize
        } else {
            -1isize
        }),
        final(fd_table)@ == (if code == 0 {
            vacated(old(fd_table)@, fd as int)
        } else {
            old(fd_table)@
        }),
{
    if fd >= fd_table.files.len() {
        return -1;
    }
    if fd_table.files[fd].is_none() {
        return -1;
    }
    fd_table.files[fd] = None;
    0
}

} // verus!
