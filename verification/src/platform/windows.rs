//! Windows: `FILE_DIRECTORY_INFORMATION` records of `NtQueryDirectoryFile`.

use vstd::prelude::*;

use crate::platform::{read_u16, read_u32, read_u64, ByteOrder};
use crate::platform;
use crate::walker::EntryKind;

verus! {

/// The size of a record without its name, and the place of the name in it.
pub const RECORD_SIZE: usize = 72;

pub const NAME_OFFSET: usize = 64;

pub const FILE_ATTRIBUTE_DIRECTORY: u32 = 0x10;

pub const FILE_ATTRIBUTE_REPARSE_POINT: u32 = 0x400;

/// One record: a name in UTF-16 units, what the entry is, and its size.
#[derive(Debug)]
pub struct NtEntry {
    pub name: Vec<u16>,
    pub kind: EntryKind,
    pub size: u64,
}

/// What an [`NtEntry`] says.
pub struct NtFacts {
    pub name: Seq<u16>,
    pub kind: EntryKind,
    pub size: u64,
}

impl View for NtEntry {
    type V = NtFacts;

    open spec fn view(&self) -> NtFacts {
        NtFacts { name: self.name@, kind: self.kind, size: self.size }
    }
}

pub open spec fn nt_facts(entries: Seq<NtEntry>) -> Seq<NtFacts> {
    entries.map_values(|e: NtEntry| e@)
}

/// What file attributes stand for.
pub open spec fn attribute_kind(attributes: u32) -> EntryKind {
    if attributes & FILE_ATTRIBUTE_REPARSE_POINT != 0 {
        EntryKind::Symlink
    } else if attributes & FILE_ATTRIBUTE_DIRECTORY != 0 {
        EntryKind::Dir
    } else {
        EntryKind::File
    }
}

/// The UTF-16 units at `at`.
pub open spec fn units_at(buf: Seq<u8>, at: int, count: int) -> Seq<u16> {
    Seq::new(count as nat, |i: int| platform::u16_at(buf, at + 2 * i, ByteOrder::Little) as u16)
}

pub open spec fn is_dot_units(name: Seq<u16>) -> bool {
    name == seq![0x2eu16] || name == seq![0x2eu16, 0x2eu16]
}

/// How many UTF-16 units the name of the record at `at` has.
pub open spec fn name_units(buf: Seq<u8>, at: int) -> int {
    platform::u32_at(buf, at + 60, ByteOrder::Little) / 2
}

/// What the record at `at` says, unless it is `.` or `..`.
pub open spec fn record_facts(buf: Seq<u8>, at: int) -> Option<NtFacts> {
    let name = units_at(buf, at + 64, name_units(buf, at));
    if is_dot_units(name) {
        None
    } else {
        Some(
            NtFacts {
                name,
                kind: attribute_kind(platform::u32_at(buf, at + 56, ByteOrder::Little) as u32),
                size: platform::u64_at(buf, at + 40, ByteOrder::Little) as u64,
            },
        )
    }
}

pub open spec fn listed(entry: Option<NtFacts>) -> Seq<NtFacts> {
    match entry {
        Some(entry) => seq![entry],
        None => seq![],
    }
}

/// What the chain of records that starts at `at` says. It ends with a record that has no
/// successor, and before one that passes the end of the buffer.
pub open spec fn records(buf: Seq<u8>, at: int) -> Seq<NtFacts>
    decreases
            if at <= buf.len() {
                buf.len() - at
            } else {
                0
            },
{
    let next = platform::u32_at(buf, at, ByteOrder::Little);
    if at + 72 > buf.len() || at + 64 + 2 * name_units(buf, at) > buf.len() {
        seq![]
    } else if next <= 0 {
        listed(record_facts(buf, at))
    } else {
        listed(record_facts(buf, at)) + records(buf, at + next)
    }
}

fn kind_of(attributes: u32) -> (kind: EntryKind)
    ensures
        kind == attribute_kind(attributes),
{
    if attributes & FILE_ATTRIBUTE_REPARSE_POINT != 0 {
        EntryKind::Symlink
    } else if attributes & FILE_ATTRIBUTE_DIRECTORY != 0 {
        EntryKind::Dir
    } else {
        EntryKind::File
    }
}

fn read_units(buf: &[u8], at: usize, count: usize) -> (name: Vec<u16>)
    requires
        at + 2 * count <= buf@.len(),
    ensures
        name@ == units_at(buf@, at as int, count as int),
{
    assert(buf@.len() == buf.len());
    let mut name: Vec<u16> = Vec::new();
    let mut i: usize = 0;
    while i < count
        invariant
            i <= count,
            at + 2 * count <= buf@.len(),
            buf@.len() == buf.len(),
            name@ == units_at(buf@, at as int, i as int),
        decreases count - i,
    {
        name.push(read_u16(buf, at + 2 * i, ByteOrder::Little));
        i = i + 1;
        assert(name@ =~= units_at(buf@, at as int, i as int));
    }
    name
}

fn is_dot(name: &Vec<u16>) -> (dot: bool)
    ensures
        dot == is_dot_units(name@),
{
    if name.len() == 1 && name[0] == 0x2e {
        assert(name@ =~= seq![0x2eu16]);
        true
    } else if name.len() == 2 && name[0] == 0x2e && name[1] == 0x2e {
        assert(name@ =~= seq![0x2eu16, 0x2eu16]);
        true
    } else {
        proof {
            if name@ == seq![0x2eu16] {
                assert(name@[0] == 0x2e);
            }
            if name@ == seq![0x2eu16, 0x2eu16] {
                assert(name@[0] == 0x2e && name@[1] == 0x2e);
            }
        }
        false
    }
}

/// The entries that the records in `buf` say.
pub fn parse_records(buf: &[u8]) -> (entries: Vec<NtEntry>)
    ensures
        nt_facts(entries@) == records(buf@, 0),
{
    assert(buf@.len() == buf.len());
    let mut entries: Vec<NtEntry> = Vec::new();
    let mut at: usize = 0;
    let ghost whole = records(buf@, 0);
    assert(nt_facts(entries@) + whole =~= whole);
    while buf.len() - at >= RECORD_SIZE
        invariant
            at <= buf@.len(),
            buf@.len() == buf.len(),
            whole == records(buf@, 0),
            nt_facts(entries@) + records(buf@, at as int) == whole,
        decreases buf@.len() - at,
    {
        let ghost said = nt_facts(entries@);
        let ghost rest = records(buf@, at as int);
        let next: u32 = read_u32(buf, at, ByteOrder::Little);
        let attributes: u32 = read_u32(buf, at + 56, ByteOrder::Little);
        let units: u32 = read_u32(buf, at + 60, ByteOrder::Little) / 2;
        if units as u64 * 2 > (buf.len() - at - NAME_OFFSET) as u64 {
            assert(said + rest =~= said);
            return entries;
        }
        let name = read_units(buf, at + NAME_OFFSET, units as usize);
        let size: u64 = read_u64(buf, at + 40, ByteOrder::Little);
        let ghost here = listed(record_facts(buf@, at as int));
        if !is_dot(&name) {
            let entry = NtEntry { name, kind: kind_of(attributes), size };
            proof {
                assert(here == seq![entry@]);
                assert(nt_facts(entries@.push(entry)) =~= said.push(entry@));
            }
            entries.push(entry);
        }
        assert(nt_facts(entries@) =~= said + here);
        if next == 0 {
            return entries;
        }
        assert(nt_facts(entries@) + records(buf@, at + next) =~= said + rest);
        if next as u64 > (buf.len() - at) as u64 {
            assert(records(buf@, at + next) =~= seq![]);
            assert(nt_facts(entries@) =~= whole);
            return entries;
        }
        at = at + next as usize;
    }
    assert(records(buf@, at as int) =~= seq![]);
    assert(nt_facts(entries@) =~= whole);
    entries
}

/// `record` holds its fixed part and its name, and points to what stands `next` further on.
pub open spec fn is_whole_record(record: Seq<u8>, next: int) -> bool {
    &&& 72 <= record.len()
    &&& 64 + 2 * name_units(record, 0) <= record.len()
    &&& platform::u32_at(record, 0, ByteOrder::Little) == next
}

/// A record says the same wherever in a buffer it stands.
proof fn lemma_record_is_local(pre: Seq<u8>, r: Seq<u8>, post: Seq<u8>, next: int)
    requires
        is_whole_record(r, next),
    ensures
        ({
            let buf = pre + r + post;
            let at = pre.len() as int;
            &&& platform::u32_at(buf, at, ByteOrder::Little) == next
            &&& name_units(buf, at) == name_units(r, 0)
            &&& record_facts(buf, at) == record_facts(r, 0)
        }),
{
    let buf = pre + r + post;
    let at = pre.len() as int;
    let le = ByteOrder::Little;
    assert forall|k: int| 0 <= k < r.len() implies buf[at + k] == #[trigger] r[k] by {}
    assert forall|k: int| 0 <= k && k + 2 <= r.len() implies #[trigger] platform::u16_at(
        buf,
        at + k,
        le,
    ) == platform::u16_at(r, k, le) by {
        assert(buf[at + k] == r[k] && buf[at + (k + 1)] == r[k + 1]);
    }
    assert forall|k: int| 0 <= k && k + 4 <= r.len() implies #[trigger] platform::u32_at(
        buf,
        at + k,
        le,
    ) == platform::u32_at(r, k, le) by {
        assert(platform::u16_at(buf, at + k, le) == platform::u16_at(r, k, le));
        assert(platform::u16_at(buf, at + (k + 2), le) == platform::u16_at(r, k + 2, le));
    }
    assert(platform::u32_at(buf, at + 0, le) == platform::u32_at(r, 0, le));
    assert(platform::u32_at(buf, at + 60, le) == platform::u32_at(r, 60, le));
    assert(platform::u32_at(buf, at + 56, le) == platform::u32_at(r, 56, le));
    assert(platform::u32_at(buf, at + 40, le) == platform::u32_at(r, 40, le));
    assert(platform::u32_at(buf, at + 44, le) == platform::u32_at(r, 44, le));
    let count = name_units(r, 0);
    assert(units_at(buf, at + 64, count) =~= units_at(r, 64, count)) by {
        assert forall|i: int| 0 <= i < count implies #[trigger] units_at(buf, at + 64, count)[i]
            == units_at(r, 64, count)[i] by {
            assert(platform::u16_at(buf, at + (64 + 2 * i), le) == platform::u16_at(
                r,
                64 + 2 * i,
                le,
            ));
        }
    }
}

/// What records say, one after another.
pub open spec fn said_by(written: Seq<Seq<u8>>) -> Seq<NtFacts>
    decreases written.len(),
{
    if written.len() == 0 {
        seq![]
    } else {
        listed(record_facts(written[0], 0)) + said_by(written.drop_first())
    }
}

/// Each record leads to the next one, and the last one nowhere.
pub open spec fn is_chain(written: Seq<Seq<u8>>) -> bool {
    forall|i: int|
        0 <= i < written.len() ==> is_whole_record(
            #[trigger] written[i],
            if i + 1 < written.len() {
                written[i].len() as int
            } else {
                0
            },
        )
}

proof fn lemma_records_one_by_one(pre: Seq<u8>, written: Seq<Seq<u8>>, tail: Seq<u8>)
    requires
        is_chain(written),
        written.len() > 0,
    ensures
        records(pre + written.flatten() + tail, pre.len() as int) == said_by(written),
    decreases written.len(),
{
    let buf = pre + written.flatten() + tail;
    let at = pre.len() as int;
    let r = written[0];
    let rest = written.drop_first();
    let next = if written.len() > 1 {
        r.len() as int
    } else {
        0
    };
    assert(is_whole_record(r, next));
    assert(buf =~= pre + r + (rest.flatten() + tail));
    lemma_record_is_local(pre, r, rest.flatten() + tail, next);
    if written.len() > 1 {
        assert forall|i: int| 0 <= i < rest.len() implies is_whole_record(
            #[trigger] rest[i],
            if i + 1 < rest.len() {
                rest[i].len() as int
            } else {
                0
            },
        ) by {
            assert(rest[i] == written[i + 1]);
        }
        assert(buf =~= (pre + r) + rest.flatten() + tail);
        lemma_records_one_by_one(pre + r, rest, tail);
    } else {
        assert(said_by(rest) =~= seq![]);
        assert(said_by(written) =~= listed(record_facts(r, 0)));
    }
}

/// A buffer says what its records say one by one, whatever is left in the buffer behind them.
pub proof fn records_are_read_one_by_one(written: Seq<Seq<u8>>, tail: Seq<u8>)
    requires
        is_chain(written),
        written.len() > 0,
    ensures
        records(written.flatten() + tail, 0) == said_by(written),
{
    lemma_records_one_by_one(seq![], written, tail);
    assert(seq![] + written.flatten() + tail =~= written.flatten() + tail);
}

/// What the status of one `NtQueryDirectoryFile` call means.
#[derive(Debug, PartialEq, Eq, Structural)]
pub enum NtStep {
    /// The directory is exhausted.
    Exhausted,
    /// The call failed with this status.
    Failed(i32),
    /// The buffer holds records.
    Records,
}

pub const STATUS_SUCCESS: i32 = 0;

/// The status `0x80000006`.
pub const STATUS_NO_MORE_FILES: i32 = -2147483642;

/// What a call that returned this status means.
pub open spec fn nt_outcome(status: i32) -> NtStep {
    if status == STATUS_NO_MORE_FILES {
        NtStep::Exhausted
    } else if status != STATUS_SUCCESS {
        NtStep::Failed(status)
    } else {
        NtStep::Records
    }
}

pub fn nt_step(status: i32) -> (step: NtStep)
    ensures
        step == nt_outcome(status),
{
    if status == STATUS_NO_MORE_FILES {
        NtStep::Exhausted
    } else if status != STATUS_SUCCESS {
        NtStep::Failed(status)
    } else {
        NtStep::Records
    }
}

/// Reads directories with `NtQueryDirectoryFile`.
#[derive(Debug, PartialEq, Eq, Structural)]
pub struct NtQueryReader;

impl NtQueryReader {
    pub fn new() -> (reader: Self)
        ensures
            reader == NtQueryReader,
    {
        NtQueryReader
    }
}

} // verus!
