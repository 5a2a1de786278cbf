//! What is known of a file or directory on disk.

use vstd::prelude::*;

verus! {

/// What the tree reads of a file or directory on disk.
#[derive(Debug, PartialEq, Eq, Structural, Clone, Copy)]
pub struct Metadata {
    pub is_dir: bool,
    /// When the contents changed last, in nanoseconds after the start of 1970.
    pub mtime: i128,
    pub size: usize,
    pub inode: u64,
}

/// The kinds of things that a path can lead to.
#[derive(Debug, PartialEq, Eq, Structural, Clone, Copy)]
pub enum FileKind {
    RegularFile,
    Directory,
    Symlink,
    Fifo,
    Socket,
    CharacterDevice,
    BlockDevice,
    Unknown,
}

/// The kind that the type bits of a file mode stand for.
pub open spec fn mode_kind(mode: u32) -> FileKind {
    let bits = mode & 0xf000;
    if bits == 0x8000 {
        FileKind::RegularFile
    } else if bits == 0x4000 {
        FileKind::Directory
    } else if bits == 0xa000 {
        FileKind::Symlink
    } else if bits == 0x1000 {
        FileKind::Fifo
    } else if bits == 0xc000 {
        FileKind::Socket
    } else if bits == 0x2000 {
        FileKind::CharacterDevice
    } else if bits == 0x6000 {
        FileKind::BlockDevice
    } else {
        FileKind::Unknown
    }
}

/// The kind that the type bits of a file mode stand for.
pub fn file_kind(mode: u32) -> (r: FileKind)
    ensures
        r == mode_kind(mode),
{
    match mode & 0xf000 {
        0x8000 => FileKind::RegularFile,
        0x4000 => FileKind::Directory,
        0xa000 => FileKind::Symlink,
        0x1000 => FileKind::Fifo,
        0xc000 => FileKind::Socket,
        0x2000 => FileKind::CharacterDevice,
        0x6000 => FileKind::BlockDevice,
        _ => FileKind::Unknown,
    }
}

/// A time of `secs` seconds and `nanos` nanoseconds, both counted away from the start of 1970: into
/// the past where `secs` is negative.
pub open spec fn unix_time(secs: int, nanos: int) -> int {
    if secs >= 0 {
        secs * 1_000_000_000 + nanos
    } else {
        secs * 1_000_000_000 - nanos
    }
}

/// A time given by the number of ticks of 100 nanoseconds since the start of 1601.
pub open spec fn tick_time(high: u32, low: u32) -> int {
    (high * 0x1_0000_0000 + low - 11_644_473_600 * 10_000_000) * 100
}

/// The bit that marks a directory among file attributes.
pub const FILE_ATTRIBUTE_DIRECTORY: u32 = 0x10;

/// The bit that marks a link among file attributes.
pub const FILE_ATTRIBUTE_REPARSE_POINT: u32 = 0x400;

/// Converts ticks of 100 nanoseconds since the start of 1601, in two halves, to nanoseconds after
/// the start of 1970.
pub fn filetime_to_system_time(high: u32, low: u32) -> (r: i128)
    ensures
        r == tick_time(high, low),
{
    let ticks: i128 = high as i128 * 0x1_0000_0000 + low as i128;
    (ticks - 116_444_736_000_000_000) * 100
}

impl Metadata {
    /// What a status record says. Only regular files and directories are followed.
    pub fn from_stat(mode: u32, secs: i64, nanos: u32, size: usize, inode: u64) -> (r: Option<
        Metadata,
    >)
        ensures
            match r {
                Some(meta) => {
                    &&& mode_kind(mode) == FileKind::RegularFile || mode_kind(mode)
                        == FileKind::Directory
                    &&& meta.is_dir == (mode_kind(mode) == FileKind::Directory)
                    &&& meta.mtime == unix_time(secs as int, nanos as int)
                    &&& meta.size == size
                    &&& meta.inode == inode
                },
                None => mode_kind(mode) != FileKind::RegularFile && mode_kind(mode)
                    != FileKind::Directory,
            },
            r is Some <==> mode & 0xf000 == 0x8000 || mode & 0xf000 == 0x4000,
            r matches Some(meta) ==> (meta.is_dir <==> mode & 0xf000 == 0x4000),
    {
        let whole: i128 = secs as i128 * 1_000_000_000;
        let mtime: i128 = if secs >= 0 {
            whole + nanos as i128
        } else {
            whole - nanos as i128
        };
        let is_dir: bool = match file_kind(mode) {
            FileKind::RegularFile => false,
            FileKind::Directory => true,
            _ => {
                return None;
            },
        };
        Some(Metadata { is_dir, mtime, size, inode })
    }

    /// What file attributes say. Links are not followed. There is no number that identifies the
    /// file, so all have the same.
    pub fn from_attributes(
        attributes: u32,
        size_high: u32,
        size_low: u32,
        write_high: u32,
        write_low: u32,
    ) -> (r: Option<Metadata>)
        ensures
            match r {
                Some(meta) => {
                    &&& attributes & FILE_ATTRIBUTE_REPARSE_POINT == 0
                    &&& meta.is_dir == (attributes & FILE_ATTRIBUTE_DIRECTORY != 0)
                    &&& meta.mtime == tick_time(write_high, write_low)
                    &&& meta.size == (size_high * 0x1_0000_0000 + size_low) as usize
                    &&& meta.inode == 0
                },
                None => attributes & FILE_ATTRIBUTE_REPARSE_POINT != 0,
            },
            r is Some <==> attributes & 0x400 == 0,
            r matches Some(meta) ==> (meta.is_dir <==> attributes & 0x10 != 0),
    {
        if attributes & FILE_ATTRIBUTE_REPARSE_POINT != 0 {
            return None;
        }
        let size: u64 = size_high as u64 * 0x1_0000_0000 + size_low as u64;
        Some(
            Metadata {
                is_dir: attributes & FILE_ATTRIBUTE_DIRECTORY != 0,
                mtime: filetime_to_system_time(write_high, write_low),
                size: size as usize,
                inode: 0,
            },
        )
    }
}

/// The type bits of a file mode tell regular files and directories from each other and from
/// everything else, and tell all kinds that are known apart. The other bits have no say.
pub proof fn law_type_bits_tell_kinds_apart(a: u32, b: u32)
    ensures
        mode_kind(a) == FileKind::RegularFile <==> a & 0xf000 == 0x8000,
        mode_kind(a) == FileKind::Directory <==> a & 0xf000 == 0x4000,
        mode_kind(a) == FileKind::Symlink <==> a & 0xf000 == 0xa000,
        mode_kind(a) == FileKind::Fifo <==> a & 0xf000 == 0x1000,
        mode_kind(a) == FileKind::Socket <==> a & 0xf000 == 0xc000,
        mode_kind(a) == FileKind::CharacterDevice <==> a & 0xf000 == 0x2000,
        mode_kind(a) == FileKind::BlockDevice <==> a & 0xf000 == 0x6000,
        a & 0xf000 == b & 0xf000 ==> mode_kind(a) == mode_kind(b),
        mode_kind(a) == mode_kind(b) && mode_kind(a) != FileKind::Unknown ==> a & 0xf000 == b
            & 0xf000,
{
}

/// Times are counted from the start of 1970: a second is a thousand million nanoseconds, and
/// nanoseconds count away from it, so that no two times that are told apart are taken for the same
/// on the same side of it.
pub proof fn law_time_is_counted_from_1970(secs: int, nanos: int)
    ensures
        unix_time(0, 0) == 0,
        secs != -1 ==> unix_time(secs + 1, nanos) == unix_time(secs, nanos) + 1_000_000_000,
        secs >= 0 ==> unix_time(secs, nanos + 1) == unix_time(secs, nanos) + 1,
        secs < 0 ==> unix_time(secs, nanos + 1) == unix_time(secs, nanos) - 1,
        unix_time(-1, nanos) == -1_000_000_000 - nanos,
{
}

/// One tick more is a hundred nanoseconds later, also from one half of the number to the other, and
/// the ticks between the start of 1601 and that of 1970 make the start of 1970.
pub proof fn law_ticks_are_a_hundred_nanoseconds(high: u32, low: u32, later_high: u32, later: u32)
    ensures
        high * 4294967296 + low == 116444736000000000 ==> tick_time(high, low) == 0,
        later_high * 4294967296 + later == high * 4294967296 + low + 1 ==> tick_time(
            later_high,
            later,
        ) == tick_time(high, low) + 100,
        later_high == high + 1 && later == low ==> tick_time(later_high, later) == tick_time(
            high,
            low,
        ) + 429496729600,
{
}

} // verus!
