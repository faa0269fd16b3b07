//! Linux: packed records of `getdents64(2)`.
//!
//! A record is an inode number and an offset of eight bytes each, its own length in two bytes,
//! a type byte, and right behind it the NUL-terminated name.

use vstd::prelude::*;

use crate::paths::append_range;
use crate::platform::{is_dot, read_u16, ByteOrder, RawEntry};
use crate::platform;
use crate::walker::EntryKind;

verus! {

/// What a `d_type` stands for; `None` where the file system did not tell.
pub open spec fn d_type_kind(d_type: u8) -> Option<EntryKind> {
    if d_type == 8 {
        Some(EntryKind::File)
    } else if d_type == 4 {
        Some(EntryKind::Dir)
    } else if d_type == 10 {
        Some(EntryKind::Symlink)
    } else if d_type == 0 {
        None
    } else {
        Some(EntryKind::Other)
    }
}

/// One record: a name and, where the file system told it, what the entry is.
#[derive(Debug)]
pub struct Dirent {
    pub name: Vec<u8>,
    pub kind: Option<EntryKind>,
}

/// What a [`Dirent`] says.
pub struct DirentFacts {
    pub name: Seq<u8>,
    pub kind: Option<EntryKind>,
}

impl View for Dirent {
    type V = DirentFacts;

    open spec fn view(&self) -> DirentFacts {
        DirentFacts { name: self.name@, kind: self.kind }
    }
}

pub open spec fn dirent_facts(dirents: Seq<Dirent>) -> Seq<DirentFacts> {
    dirents.map_values(|d: Dirent| d@)
}

/// The index of the first NUL at or after `i`, or `end`.
pub open spec fn name_end(buf: Seq<u8>, i: int, end: int) -> int
    decreases end - i,
{
    if i >= end || buf[i] == 0 {
        i
    } else {
        name_end(buf, i + 1, end)
    }
}

/// What the record `buf[start..end]` says, if it names an entry other than `.` and `..`.
pub open spec fn record_facts(buf: Seq<u8>, start: int, end: int) -> Option<DirentFacts> {
    let name = buf.subrange(start + 19, name_end(buf, start + 19, end));
    if end <= start + 19 || name.len() == 0 || platform::is_dot_name(name) {
        None
    } else {
        Some(DirentFacts { name, kind: d_type_kind(buf[start + 18]) })
    }
}

pub open spec fn listed(entry: Option<DirentFacts>) -> Seq<DirentFacts> {
    match entry {
        Some(entry) => seq![entry],
        None => seq![],
    }
}

/// What the records from `offset` to `total` say. A cut record, one of no length, or one that
/// passes `total`, ends the listing.
pub open spec fn records(buf: Seq<u8>, offset: int, total: int, order: ByteOrder) -> Seq<
    DirentFacts,
>
    decreases total - offset,
{
    let length = platform::u16_at(buf, offset + 16, order);
    if offset + 19 > total || length <= 0 || offset + length > total {
        seq![]
    } else {
        listed(record_facts(buf, offset, offset + length)) + records(
            buf,
            offset + length,
            total,
            order,
        )
    }
}

fn kind_of(d_type: u8) -> (kind: Option<EntryKind>)
    ensures
        kind == d_type_kind(d_type),
{
    match d_type {
        8 => Some(EntryKind::File),
        4 => Some(EntryKind::Dir),
        10 => Some(EntryKind::Symlink),
        0 => None,
        _ => Some(EntryKind::Other),
    }
}

fn read_record(buf: &[u8], start: usize, end: usize) -> (dirent: Option<Dirent>)
    requires
        start + 19 <= buf@.len(),
        start <= end <= buf@.len(),
    ensures
        match dirent {
            Some(dirent) => record_facts(buf@, start as int, end as int) == Some(dirent@),
            None => record_facts(buf@, start as int, end as int) is None,
        },
{
    if end - start <= 19 {
        return None;
    }
    let first: usize = start + 19;
    let mut last: usize = first;
    while last < end && buf[last] != 0
        invariant
            first <= last <= end <= buf@.len(),
            name_end(buf@, first as int, end as int) == name_end(buf@, last as int, end as int),
        decreases end - last,
    {
        last = last + 1;
    }
    let mut name: Vec<u8> = Vec::new();
    append_range(&mut name, buf, first, last);
    assert(name@ =~= buf@.subrange(first as int, last as int));
    if name.len() == 0 || is_dot(name.as_slice()) {
        return None;
    }
    Some(Dirent { name, kind: kind_of(buf[start + 18]) })
}

/// The entries that the first `total` bytes of `buf` say.
pub fn parse_dirents(buf: &[u8], total: usize, order: ByteOrder) -> (dirents: Vec<Dirent>)
    requires
        total <= buf@.len(),
    ensures
        dirent_facts(dirents@) == records(buf@, 0, total as int, order),
{
    assert(buf@.len() == buf.len());
    let mut dirents: Vec<Dirent> = Vec::new();
    let mut offset: usize = 0;
    let ghost whole = records(buf@, 0, total as int, order);
    assert(dirent_facts(dirents@) + whole =~= whole);
    while offset < total
        invariant
            offset <= total <= buf@.len(),
            buf@.len() == buf.len(),
            whole == records(buf@, 0, total as int, order),
            dirent_facts(dirents@) + records(buf@, offset as int, total as int, order) == whole,
        decreases total - offset,
    {
        let ghost said = dirent_facts(dirents@);
        let ghost rest = records(buf@, offset as int, total as int, order);
        if total - offset < 19 {
            assert(said + rest =~= said);
            return dirents;
        }
        let length: usize = read_u16(buf, offset + 16, order) as usize;
        if length == 0 || length > total - offset {
            assert(said + rest =~= said);
            return dirents;
        }
        let end: usize = offset + length;
        match read_record(buf, offset, end) {
            Some(dirent) => {
                proof {
                    assert(dirent_facts(dirents@.push(dirent)) =~= said.push(dirent@));
                    assert(said.push(dirent@) + records(buf@, end as int, total as int, order)
                        =~= said + rest);
                }
                dirents.push(dirent);
            },
            None => {
                assert(records(buf@, end as int, total as int, order) =~= rest);
            },
        }
        offset = end;
    }
    assert(records(buf@, offset as int, total as int, order) =~= seq![]);
    assert(dirent_facts(dirents@) =~= whole);
    dirents
}

/// `record` is what the kernel writes for an entry: behind fields of sixteen bytes its own
/// length, the type, and the name with a NUL behind it; some padding may follow.
pub open spec fn is_record_of(
    record: Seq<u8>,
    name: Seq<u8>,
    d_type: u8,
    order: ByteOrder,
) -> bool {
    &&& 19 + name.len() < record.len()
    &&& platform::u16_at(record, 16, order) == record.len()
    &&& record[18] == d_type
    &&& record.subrange(19, 19 + name.len() as int) == name
    &&& record[19 + name.len() as int] == 0
}

/// A name that a record can carry and that is listed.
pub open spec fn is_listed_name(name: Seq<u8>) -> bool {
    &&& name.len() > 0
    &&& !platform::is_dot_name(name)
    &&& forall|i: int| 0 <= i < name.len() ==> #[trigger] name[i] != 0
}

pub(crate) proof fn lemma_name_end(buf: Seq<u8>, i: int, nul: int, end: int)
    requires
        0 <= i <= nul < end <= buf.len(),
        buf[nul] == 0,
        forall|k: int| i <= k < nul ==> #[trigger] buf[k] != 0,
    ensures
        name_end(buf, i, end) == nul,
    decreases nul - i,
{
    if i < nul {
        lemma_name_end(buf, i + 1, nul, end);
    }
}

proof fn lemma_read_back(
    pre: Seq<u8>,
    written: Seq<Seq<u8>>,
    names: Seq<Seq<u8>>,
    types: Seq<u8>,
    order: ByteOrder,
)
    requires
        written.len() == names.len() == types.len(),
        forall|i: int|
            0 <= i < written.len() ==> is_record_of(
                #[trigger] written[i],
                names[i],
                types[i],
                order,
            ) && is_listed_name(names[i]),
    ensures
        ({
            let buf = pre + written.flatten();
            records(buf, pre.len() as int, buf.len() as int, order) == Seq::new(
                names.len(),
                |i: int| DirentFacts { name: names[i], kind: d_type_kind(types[i]) },
            )
        }),
    decreases written.len(),
{
    let buf = pre + written.flatten();
    let said = Seq::new(
        names.len(),
        |i: int| DirentFacts { name: names[i], kind: d_type_kind(types[i]) },
    );
    if written.len() == 0 {
        assert(records(buf, pre.len() as int, buf.len() as int, order) =~= said);
    } else {
        let r = written[0];
        let rest = written.drop_first();
        let at = pre.len() as int;
        let name = names[0];
        assert(is_record_of(r, name, types[0], order));
        assert(buf =~= (pre + r) + rest.flatten());
        assert forall|k: int| 0 <= k < r.len() implies buf[at + k] == #[trigger] r[k] by {}
        assert forall|k: int| 0 <= k < name.len() implies #[trigger] name[k] == buf[at + 19 + k] by {
            assert(r.subrange(19, 19 + name.len() as int)[k] == r[19 + k]);
        }
        let nul = at + 19 + name.len();
        assert forall|k: int| at + 19 <= k < nul implies #[trigger] buf[k] != 0 by {
            assert(name[k - at - 19] == buf[k]);
        }
        lemma_name_end(buf, at + 19, nul, at + r.len());
        assert(buf.subrange(at + 19, nul) =~= name);
        assert(platform::u16_at(buf, at + 16, order) == platform::u16_at(r, 16, order));
        assert(r[18] == buf[at + 18]);
        let first = DirentFacts { name, kind: d_type_kind(types[0]) };
        assert(record_facts(buf, at, at + r.len()) == Some(first));
        assert forall|i: int| 0 <= i < rest.len() implies is_record_of(
            #[trigger] rest[i],
            names.drop_first()[i],
            types.drop_first()[i],
            order,
        ) && is_listed_name(names.drop_first()[i]) by {
            assert(rest[i] == written[i + 1]);
        }
        lemma_read_back(pre + r, rest, names.drop_first(), types.drop_first(), order);
        assert(records(buf, at, buf.len() as int, order) =~= said);
    }
}

/// What the kernel wrote is read back: the names and types of all records, in order.
pub proof fn written_records_are_read_back(
    written: Seq<Seq<u8>>,
    names: Seq<Seq<u8>>,
    types: Seq<u8>,
    order: ByteOrder,
)
    requires
        written.len() == names.len() == types.len(),
        forall|i: int|
            0 <= i < written.len() ==> is_record_of(
                #[trigger] written[i],
                names[i],
                types[i],
                order,
            ) && is_listed_name(names[i]),
    ensures
        records(written.flatten(), 0, written.flatten().len() as int, order) == Seq::new(
            names.len(),
            |i: int| DirentFacts { name: names[i], kind: d_type_kind(types[i]) },
        ),
{
    assert forall|i: int| 0 <= i < written.len() implies is_record_of(
        #[trigger] written[i],
        names[i],
        types[i],
        order,
    ) && is_listed_name(names[i]) by {
        let record = written[i];
        assert(is_record_of(record, names[i], types[i], order));
    }
    lemma_read_back(seq![], written, names, types, order);
    assert(seq![] + written.flatten() =~= written.flatten());
}

/// The bits of a mode that tell the file type.
pub const S_IFMT: u16 = 0o170000;

pub const S_IFREG: u16 = 0o100000;

pub const S_IFDIR: u16 = 0o040000;

pub const S_IFLNK: u16 = 0o120000;

/// What a mode stands for.
pub open spec fn mode_kind(mode: u16) -> EntryKind {
    if mode & S_IFMT == S_IFREG {
        EntryKind::File
    } else if mode & S_IFMT == S_IFDIR {
        EntryKind::Dir
    } else if mode & S_IFMT == S_IFLNK {
        EntryKind::Symlink
    } else {
        EntryKind::Other
    }
}

/// What a `statx` call that returned `result` and `mode` tells, if it succeeded.
pub open spec fn statx_outcome(result: i32, mode: u16) -> Option<EntryKind> {
    if result != 0 {
        None
    } else {
        Some(mode_kind(mode))
    }
}

/// What a `statx` call that returned `result` and `mode` tells, if it succeeded.
pub fn statx_kind(result: i32, mode: u16) -> (kind: Option<EntryKind>)
    ensures
        kind == statx_outcome(result, mode),
{
    if result != 0 {
        return None;
    }
    let file_type: u16 = mode & S_IFMT;
    if file_type == S_IFREG {
        Some(EntryKind::File)
    } else if file_type == S_IFDIR {
        Some(EntryKind::Dir)
    } else if file_type == S_IFLNK {
        Some(EntryKind::Symlink)
    } else {
        Some(EntryKind::Other)
    }
}

/// What an entry is: what the record tells, or else what a look-up found.
pub open spec fn resolved_kind(told: Option<EntryKind>, looked_up: Option<EntryKind>) -> EntryKind {
    match told {
        Some(kind) => kind,
        None => match looked_up {
            Some(kind) => kind,
            None => EntryKind::Other,
        },
    }
}

impl Dirent {
    /// The entry, with what a look-up found where the record did not tell. Sizes are not read.
    pub fn resolve(self, looked_up: Option<EntryKind>) -> (entry: RawEntry)
        ensures
            entry.name@ == self.name@,
            entry.kind == resolved_kind(self.kind, looked_up),
            entry.size is None,
    {
        let kind = match self.kind {
            Some(kind) => kind,
            None => match looked_up {
                Some(kind) => kind,
                None => EntryKind::Other,
            },
        };
        RawEntry { name: self.name, kind, size: None }
    }
}

/// What one call of `getdents64` means.
#[derive(Debug, PartialEq, Eq, Structural)]
pub enum DentsStep {
    /// The call failed.
    Failed,
    /// The directory is exhausted.
    Exhausted,
    /// The call filled this many bytes.
    Filled(u64),
}

/// What a call that returned this means.
pub open spec fn dents_outcome(returned: i64) -> DentsStep {
    if returned < 0 {
        DentsStep::Failed
    } else if returned == 0 {
        DentsStep::Exhausted
    } else {
        DentsStep::Filled(returned as u64)
    }
}

pub fn dents_step(returned: i64) -> (step: DentsStep)
    ensures
        step == dents_outcome(returned),
{
    if returned < 0 {
        DentsStep::Failed
    } else if returned == 0 {
        DentsStep::Exhausted
    } else {
        DentsStep::Filled(returned as u64)
    }
}

/// Reads directories with `getdents64`.
#[derive(Debug, PartialEq, Eq, Structural)]
pub struct GetDents64Reader;

impl GetDents64Reader {
    pub fn new() -> (reader: Self)
        ensures
            reader == GetDents64Reader,
    {
        GetDents64Reader
    }
}

} // verus!
