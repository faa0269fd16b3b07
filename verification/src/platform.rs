//! Directory readers: what each platform's packed directory records say.

use vstd::prelude::*;

use crate::walker::EntryKind;

pub mod linux;
pub mod macos;
pub mod windows;

use crate::platform::linux::GetDents64Reader;
use crate::platform::macos::{AttrListBulkReader, ReaddirReader};
use crate::platform::windows::NtQueryReader;

verus! {

/// The byte order in which a kernel writes the numbers of its records.
#[derive(Debug, Clone, Copy, PartialEq, Eq, Structural)]
pub enum ByteOrder {
    Little,
    Big,
}

/// The 16-bit number at `at`.
pub open spec fn u16_at(s: Seq<u8>, at: int, order: ByteOrder) -> int {
    match order {
        ByteOrder::Little => s[at] + 0x100 * s[at + 1],
        ByteOrder::Big => 0x100 * s[at] + s[at + 1],
    }
}

/// The 32-bit number at `at`.
pub open spec fn u32_at(s: Seq<u8>, at: int, order: ByteOrder) -> int {
    let first = u16_at(s, at, order);
    let second = u16_at(s, at + 2, order);
    match order {
        ByteOrder::Little => first + 0x1_0000 * second,
        ByteOrder::Big => 0x1_0000 * first + second,
    }
}

/// The 64-bit number at `at`.
pub open spec fn u64_at(s: Seq<u8>, at: int, order: ByteOrder) -> int {
    let first = u32_at(s, at, order);
    let second = u32_at(s, at + 4, order);
    match order {
        ByteOrder::Little => first + 0x1_0000_0000 * second,
        ByteOrder::Big => 0x1_0000_0000 * first + second,
    }
}

/// The signed 32-bit number at `at`, in two's complement.
pub open spec fn i32_at(s: Seq<u8>, at: int, order: ByteOrder) -> int {
    let raw = u32_at(s, at, order);
    if raw >= 0x8000_0000 {
        raw - 0x1_0000_0000
    } else {
        raw
    }
}

pub fn read_u16(buf: &[u8], at: usize, order: ByteOrder) -> (value: u16)
    requires
        at + 2 <= buf@.len(),
    ensures
        value == u16_at(buf@, at as int, order),
{
    let a: u16 = buf[at] as u16;
    let b: u16 = buf[at + 1] as u16;
    match order {
        ByteOrder::Little => a + 0x100 * b,
        ByteOrder::Big => 0x100 * a + b,
    }
}

pub fn read_u32(buf: &[u8], at: usize, order: ByteOrder) -> (value: u32)
    requires
        at + 4 <= buf@.len(),
    ensures
        value == u32_at(buf@, at as int, order),
{
    assert(buf@.len() == buf.len());
    let a: u32 = read_u16(buf, at, order) as u32;
    let b: u32 = read_u16(buf, at + 2, order) as u32;
    match order {
        ByteOrder::Little => a + 0x1_0000 * b,
        ByteOrder::Big => 0x1_0000 * a + b,
    }
}

pub fn read_u64(buf: &[u8], at: usize, order: ByteOrder) -> (value: u64)
    requires
        at + 8 <= buf@.len(),
    ensures
        value == u64_at(buf@, at as int, order),
{
    assert(buf@.len() == buf.len());
    let a: u64 = read_u32(buf, at, order) as u64;
    let b: u64 = read_u32(buf, at + 4, order) as u64;
    match order {
        ByteOrder::Little => a + 0x1_0000_0000 * b,
        ByteOrder::Big => 0x1_0000_0000 * a + b,
    }
}

pub fn read_i32(buf: &[u8], at: usize, order: ByteOrder) -> (value: i64)
    requires
        at + 4 <= buf@.len(),
    ensures
        value == i32_at(buf@, at as int, order),
{
    let raw: i64 = read_u32(buf, at, order) as i64;
    if raw >= 0x8000_0000 {
        raw - 0x1_0000_0000
    } else {
        raw
    }
}

/// One entry that a directory lists.
#[derive(Debug)]
pub struct RawEntry {
    pub name: Vec<u8>,
    pub kind: EntryKind,
    pub size: Option<u64>,
}

/// What a [`RawEntry`] says.
pub struct EntryFacts {
    pub name: Seq<u8>,
    pub kind: EntryKind,
    pub size: Option<u64>,
}

impl View for RawEntry {
    type V = EntryFacts;

    open spec fn view(&self) -> EntryFacts {
        EntryFacts { name: self.name@, kind: self.kind, size: self.size }
    }
}

/// What a listing says, entry by entry.
pub open spec fn listing_facts(listing: Seq<RawEntry>) -> Seq<EntryFacts> {
    listing.map_values(|e: RawEntry| e@)
}

/// A directory lists itself as `.` and its parent as `..`.
pub open spec fn is_dot_name(name: Seq<u8>) -> bool {
    name == seq![0x2eu8] || name == seq![0x2eu8, 0x2eu8]
}

pub fn is_dot(name: &[u8]) -> (dot: bool)
    ensures
        dot == is_dot_name(name@),
{
    if name.len() == 1 && name[0] == 0x2e {
        assert(name@ =~= seq![0x2eu8]);
        true
    } else if name.len() == 2 && name[0] == 0x2e && name[1] == 0x2e {
        assert(name@ =~= seq![0x2eu8, 0x2eu8]);
        true
    } else {
        proof {
            if name@ == seq![0x2eu8] {
                assert(name@[0] == 0x2e);
            }
            if name@ == seq![0x2eu8, 0x2eu8] {
                assert(name@[0] == 0x2e && name@[1] == 0x2e);
            }
        }
        false
    }
}

/// What a directory reader is asked for.
#[derive(Debug, Clone, Copy, PartialEq, Eq, Structural)]
pub struct ReaderOptions {
    /// Request file sizes. On macOS this selects `getattrlistbulk`; without it `readdir` is
    /// used, which is faster where the kernel need not look attributes up.
    pub with_size: bool,
}

impl Default for ReaderOptions {
    fn default() -> (options: Self)
        ensures
            !options.with_size,
    {
        ReaderOptions { with_size: false }
    }
}

#[derive(Debug, Clone, Copy, PartialEq, Eq, Structural)]
pub enum Platform {
    MacOs,
    Linux,
    Windows,
}

/// The reader of a platform.
#[derive(Debug)]
pub enum Reader {
    AttrListBulk(AttrListBulkReader),
    Readdir(ReaddirReader),
    GetDents64(GetDents64Reader),
    NtQuery(NtQueryReader),
}

/// The reader that a platform uses: only macOS has one of its own for listings with sizes.
pub open spec fn is_reader_for(
    reader: Reader,
    options: ReaderOptions,
    platform: Platform,
) -> bool {
    match platform {
        Platform::MacOs => if options.with_size {
            reader matches Reader::AttrListBulk(bulk) && bulk.requests_size()
        } else {
            reader matches Reader::Readdir(plain) && !plain.wants_size()
        },
        Platform::Linux => reader is GetDents64,
        Platform::Windows => reader is NtQuery,
    }
}

/// The reader that a platform uses.
pub fn build_reader(options: ReaderOptions, platform: Platform) -> (reader: Reader)
    ensures
        is_reader_for(reader, options, platform),
{
    match platform {
        Platform::MacOs => {
            if options.with_size {
                Reader::AttrListBulk(AttrListBulkReader::new().with_size(true))
            } else {
                Reader::Readdir(ReaddirReader::new())
            }
        },
        Platform::Linux => Reader::GetDents64(GetDents64Reader::new()),
        Platform::Windows => Reader::NtQuery(NtQueryReader::new()),
    }
}

} // verus!
