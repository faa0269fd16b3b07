//! macOS: records of `getattrlistbulk(2)` and entries of `readdir(3)`.

use vstd::prelude::*;

use crate::paths::{append_range, copy_bytes};
use crate::platform::{is_dot, read_i32, read_u32, read_u64, ByteOrder, EntryFacts, RawEntry};
use crate::platform;
use crate::walker::EntryKind;

verus! {

/// The record carries a name.
pub const ATTR_CMN_NAME: u32 = 0x0000_0001;

/// The record carries an object type.
pub const ATTR_CMN_OBJTYPE: u32 = 0x0000_0008;

/// The record starts with the set of the attributes that it carries.
pub const ATTR_CMN_RETURNED_ATTRS: u32 = 0x8000_0000;

/// The record carries the length of a file's data.
pub const ATTR_FILE_DATALENGTH: u32 = 0x0000_0200;

/// How many attribute groups a request names.
pub const ATTR_BIT_MAP_COUNT: u16 = 5;

/// What an object type stands for.
pub open spec fn object_kind(object_type: int) -> EntryKind {
    if object_type == 1 {
        EntryKind::File
    } else if object_type == 2 {
        EntryKind::Dir
    } else if object_type == 5 {
        EntryKind::Symlink
    } else {
        EntryKind::Other
    }
}

/// The name that the reference at `at` points to. It may lie anywhere in the buffer, and its
/// length counts the NUL behind it.
pub open spec fn referenced_name(buf: Seq<u8>, at: int, order: ByteOrder) -> Option<Seq<u8>> {
    let start = at + platform::i32_at(buf, at, order);
    let length = platform::u32_at(buf, at + 4, order);
    if start >= 0 && length > 0 && start + length <= buf.len() {
        Some(buf.subrange(start, start + length - 1))
    } else {
        None
    }
}

/// What the record `buf[start..end]` says, if it names an entry. A record starts with its own
/// length and five attribute words; the attributes that these announce follow, in order.
pub open spec fn record_facts(buf: Seq<u8>, start: int, end: int, order: ByteOrder) -> Option<
    EntryFacts,
> {
    let common = platform::u32_at(buf, start + 4, order) as u32;
    let file = platform::u32_at(buf, start + 16, order) as u32;
    let named = common & ATTR_CMN_NAME != 0;
    let type_at = if named {
        start + 32
    } else {
        start + 24
    };
    let typed = common & ATTR_CMN_OBJTYPE != 0 && type_at + 4 <= end;
    let size_at = if typed {
        type_at + 4
    } else {
        type_at
    };
    let kind = if typed {
        object_kind(platform::u32_at(buf, type_at, order))
    } else {
        EntryKind::Other
    };
    let size = if file & ATTR_FILE_DATALENGTH != 0 && size_at + 8 <= end {
        Some(platform::u64_at(buf, size_at, order) as u64)
    } else {
        None
    };
    if start + 24 > end || !named || start + 32 > end {
        None
    } else {
        match referenced_name(buf, start + 24, order) {
            Some(name) => if name.len() > 0 {
                Some(EntryFacts { name, kind, size })
            } else {
                None
            },
            None => None,
        }
    }
}

/// An optional entry as a sequence of none or one.
pub open spec fn listed(entry: Option<EntryFacts>) -> Seq<EntryFacts> {
    match entry {
        Some(entry) => seq![entry],
        None => seq![],
    }
}

/// What the first `count` records from `cursor` on say. A record of no length, or one that
/// passes the end of the buffer, ends the listing.
pub open spec fn records(buf: Seq<u8>, cursor: int, count: nat, order: ByteOrder) -> Seq<EntryFacts>
    decreases count,
{
    let length = platform::u32_at(buf, cursor, order);
    if count == 0 || cursor + 4 > buf.len() || length == 0 || cursor + length > buf.len() {
        seq![]
    } else {
        listed(record_facts(buf, cursor, cursor + length, order)) + records(
            buf,
            cursor + length,
            (count - 1) as nat,
            order,
        )
    }
}

fn kind_of_object(object_type: u32) -> (kind: EntryKind)
    ensures
        kind == object_kind(object_type as int),
{
    match object_type {
        1 => EntryKind::File,
        2 => EntryKind::Dir,
        5 => EntryKind::Symlink,
        _ => EntryKind::Other,
    }
}

fn read_name(buf: &[u8], at: usize, order: ByteOrder) -> (name: Option<Vec<u8>>)
    requires
        at + 8 <= buf@.len(),
    ensures
        match name {
            Some(name) => referenced_name(buf@, at as int, order) == Some(name@),
            None => referenced_name(buf@, at as int, order) is None,
        },
{
    assert(buf@.len() == buf.len());
    let offset: i128 = read_i32(buf, at, order) as i128;
    let length: i128 = read_u32(buf, at + 4, order) as i128;
    let start: i128 = at as i128 + offset;
    if start >= 0 && length > 0 && start + length <= buf.len() as i128 {
        let mut name: Vec<u8> = Vec::new();
        append_range(&mut name, buf, start as usize, (start + length - 1) as usize);
        assert(name@ =~= buf@.subrange(start as int, start + length - 1));
        Some(name)
    } else {
        None
    }
}

fn read_record(buf: &[u8], start: usize, end: usize, order: ByteOrder) -> (entry: Option<RawEntry>)
    requires
        start <= end <= buf@.len(),
    ensures
        match entry {
            Some(entry) => record_facts(buf@, start as int, end as int, order) == Some(entry@),
            None => record_facts(buf@, start as int, end as int, order) is None,
        },
{
    if end - start < 24 {
        return None;
    }
    let common: u32 = read_u32(buf, start + 4, order);
    let file: u32 = read_u32(buf, start + 16, order);
    if common & ATTR_CMN_NAME == 0 || end - start < 32 {
        return None;
    }
    let name = match read_name(buf, start + 24, order) {
        Some(name) => name,
        None => {
            return None;
        },
    };
    let mut field: usize = start + 32;
    let mut kind = EntryKind::Other;
    if common & ATTR_CMN_OBJTYPE != 0 && end - field >= 4 {
        kind = kind_of_object(read_u32(buf, field, order));
        field = field + 4;
    }
    let mut size: Option<u64> = None;
    if file & ATTR_FILE_DATALENGTH != 0 && end - field >= 8 {
        size = Some(read_u64(buf, field, order));
    }
    if name.len() == 0 {
        return None;
    }
    Some(RawEntry { name, kind, size })
}

/// The entries that `entries` packed records say.
#[verifier::spinoff_prover]
#[verifier::rlimit(50)]
pub fn parse_buffer(buf: &[u8], entries: usize, order: ByteOrder) -> (listing: Vec<RawEntry>)
    ensures
        platform::listing_facts(listing@) == records(buf@, 0, entries as nat, order),
{
    let mut listing: Vec<RawEntry> = Vec::new();
    let mut cursor: usize = 0;
    let mut left: usize = entries;
    let ghost whole = records(buf@, 0, entries as nat, order);
    assert(platform::listing_facts(listing@) + whole =~= whole);
    while left > 0
        invariant
            cursor <= buf@.len(),
            whole == records(buf@, 0, entries as nat, order),
            platform::listing_facts(listing@) + records(buf@, cursor as int, left as nat, order)
                == whole,
        decreases left,
    {
        let ghost said = platform::listing_facts(listing@);
        let ghost rest = records(buf@, cursor as int, left as nat, order);
        if buf.len() - cursor < 4 {
            assert(said + rest =~= said);
            return listing;
        }
        let length: u32 = read_u32(buf, cursor, order);
        if length == 0 || (buf.len() - cursor) as u64 <= (length - 1) as u64 {
            assert(said + rest =~= said);
            return listing;
        }
        let end: usize = cursor + length as usize;
        match read_record(buf, cursor, end, order) {
            Some(entry) => {
                proof {
                    assert(platform::listing_facts(listing@.push(entry)) =~= said.push(entry@));
                    assert(said.push(entry@) + records(
                        buf@,
                        end as int,
                        (left - 1) as nat,
                        order,
                    ) =~= said + rest);
                }
                listing.push(entry);
            },
            None => {
                assert(records(buf@, end as int, (left - 1) as nat, order) =~= rest);
            },
        }
        cursor = end;
        left = left - 1;
    }
    assert(records(buf@, cursor as int, 0, order) =~= seq![]);
    assert(platform::listing_facts(listing@) =~= whole);
    listing
}

/// `record` starts with its own length and holds the name that it refers to.
pub open spec fn is_whole_record(record: Seq<u8>, order: ByteOrder) -> bool {
    let start = 24 + platform::i32_at(record, 24, order);
    let length = platform::u32_at(record, 28, order);
    &&& 32 <= record.len()
    &&& platform::u32_at(record, 0, order) == record.len()
    &&& 0 <= start
    &&& 0 < length
    &&& start + length <= record.len()
}

/// A record says the same wherever in a buffer it stands.
proof fn lemma_record_is_local(pre: Seq<u8>, r: Seq<u8>, post: Seq<u8>, order: ByteOrder)
    requires
        is_whole_record(r, order),
    ensures
        ({
            let buf = pre + r + post;
            let at = pre.len() as int;
            &&& platform::u32_at(buf, at, order) == r.len()
            &&& record_facts(buf, at, at + r.len(), order) == record_facts(
                r,
                0,
                r.len() as int,
                order,
            )
        }),
{
    let buf = pre + r + post;
    let at = pre.len() as int;
    assert forall|k: int| 0 <= k < r.len() implies buf[at + k] == #[trigger] r[k] by {}
    assert forall|k: int| 0 <= k && k + 4 <= r.len() implies #[trigger] platform::u32_at(
        buf,
        at + k,
        order,
    ) == platform::u32_at(r, k, order) by {
        assert(buf[at + k] == r[k] && buf[at + (k + 1)] == r[k + 1] && buf[at + (k + 2)] == r[k
            + 2] && buf[at + (k + 3)] == r[k + 3]);
    }
    assert(platform::u32_at(buf, at + 0, order) == platform::u32_at(r, 0, order));
    assert(platform::u32_at(buf, at + 4, order) == platform::u32_at(r, 4, order));
    assert(platform::u32_at(buf, at + 16, order) == platform::u32_at(r, 16, order));
    assert(platform::u32_at(buf, at + 24, order) == platform::u32_at(r, 24, order));
    assert(platform::u32_at(buf, at + 28, order) == platform::u32_at(r, 28, order));
    assert forall|k: int| 0 <= k && k + 8 <= r.len() implies #[trigger] platform::u64_at(
        buf,
        at + k,
        order,
    ) == platform::u64_at(r, k, order) by {
        assert(platform::u32_at(buf, at + k, order) == platform::u32_at(r, k, order));
        assert(platform::u32_at(buf, at + (k + 4), order) == platform::u32_at(r, k + 4, order));
    }
    let start = 24 + platform::i32_at(r, 24, order);
    let length = platform::u32_at(r, 28, order);
    assert(buf.subrange(at + start, at + start + length - 1) =~= r.subrange(
        start,
        start + length - 1,
    ));
    if r.len() >= 36 {
        assert(platform::u32_at(buf, at + 32, order) == platform::u32_at(r, 32, order));
    }
    if r.len() >= 40 {
        assert(platform::u64_at(buf, at + 32, order) == platform::u64_at(r, 32, order));
    }
    if r.len() >= 44 {
        assert(platform::u64_at(buf, at + 36, order) == platform::u64_at(r, 36, order));
    }
}

/// What records say, one after another.
pub open spec fn said_by(written: Seq<Seq<u8>>, order: ByteOrder) -> Seq<EntryFacts>
    decreases written.len(),
{
    if written.len() == 0 {
        seq![]
    } else {
        listed(record_facts(written[0], 0, written[0].len() as int, order)) + said_by(
            written.drop_first(),
            order,
        )
    }
}

proof fn lemma_records_one_by_one(
    pre: Seq<u8>,
    written: Seq<Seq<u8>>,
    tail: Seq<u8>,
    order: ByteOrder,
)
    requires
        forall|i: int| 0 <= i < written.len() ==> is_whole_record(#[trigger] written[i], order),
    ensures
        records(pre + written.flatten() + tail, pre.len() as int, written.len(), order) == said_by(
            written,
            order,
        ),
    decreases written.len(),
{
    let buf = pre + written.flatten() + tail;
    let at = pre.len() as int;
    if written.len() > 0 {
        let r = written[0];
        let rest = written.drop_first();
        assert(is_whole_record(r, order));
        assert(buf =~= pre + r + (rest.flatten() + tail));
        lemma_record_is_local(pre, r, rest.flatten() + tail, order);
        assert forall|i: int| 0 <= i < rest.len() implies is_whole_record(
            #[trigger] rest[i],
            order,
        ) by {
            assert(rest[i] == written[i + 1]);
        }
        assert(buf =~= (pre + r) + rest.flatten() + tail);
        lemma_records_one_by_one(pre + r, rest, tail, order);
    }
}

/// A buffer says what its records say one by one, whatever is left in the buffer behind them.
pub proof fn records_are_read_one_by_one(
    written: Seq<Seq<u8>>,
    tail: Seq<u8>,
    order: ByteOrder,
)
    requires
        forall|i: int| 0 <= i < written.len() ==> is_whole_record(#[trigger] written[i], order),
    ensures
        records(written.flatten() + tail, 0, written.len(), order) == said_by(written, order),
{
    lemma_records_one_by_one(seq![], written, tail, order);
    assert(seq![] + written.flatten() + tail =~= written.flatten() + tail);
}

/// What one call of `getattrlistbulk` means.
#[derive(Debug, PartialEq, Eq, Structural)]
pub enum BulkStep {
    /// The call failed.
    Failed,
    /// The directory is exhausted.
    Exhausted,
    /// The buffer holds this many records.
    Records(usize),
}

/// What a call that returned this means.
pub open spec fn bulk_outcome(entries_returned: i32) -> BulkStep {
    if entries_returned < 0 {
        BulkStep::Failed
    } else if entries_returned == 0 {
        BulkStep::Exhausted
    } else {
        BulkStep::Records(entries_returned as usize)
    }
}

pub fn bulk_step(entries_returned: i32) -> (step: BulkStep)
    ensures
        step == bulk_outcome(entries_returned),
{
    if entries_returned < 0 {
        BulkStep::Failed
    } else if entries_returned == 0 {
        BulkStep::Exhausted
    } else {
        BulkStep::Records(entries_returned as usize)
    }
}

/// The attributes that a reader asks the kernel for.
#[derive(Debug, PartialEq, Eq, Structural)]
pub struct AttrRequest {
    pub bitmapcount: u16,
    pub commonattr: u32,
    pub fileattr: u32,
}

/// Names and types always, the data length of files where sizes are asked for.
pub open spec fn request_for(sizes: bool) -> AttrRequest {
    AttrRequest {
        bitmapcount: 5,
        commonattr: ATTR_CMN_RETURNED_ATTRS | ATTR_CMN_NAME | ATTR_CMN_OBJTYPE,
        fileattr: if sizes {
            ATTR_FILE_DATALENGTH
        } else {
            0
        },
    }
}

/// Reads directories with `getattrlistbulk`.
#[derive(Debug, PartialEq, Eq, Structural)]
pub struct AttrListBulkReader {
    request_size: bool,
}

impl AttrListBulkReader {
    /// Whether file sizes are asked for.
    pub closed spec fn requests_size(self) -> bool {
        self.request_size
    }

    /// A reader that does not ask for sizes.
    pub fn new() -> (reader: Self)
        ensures
            !reader.requests_size(),
    {
        AttrListBulkReader { request_size: false }
    }

    pub fn with_size(self, request_size: bool) -> (reader: Self)
        ensures
            reader.requests_size() == request_size,
    {
        AttrListBulkReader { request_size }
    }

    /// Names and types always, the data length of files where sizes are asked for.
    pub fn request(&self) -> (request: AttrRequest)
        ensures
            request == request_for(self.requests_size()),
    {
        AttrRequest {
            bitmapcount: ATTR_BIT_MAP_COUNT,
            commonattr: ATTR_CMN_RETURNED_ATTRS | ATTR_CMN_NAME | ATTR_CMN_OBJTYPE,
            fileattr: if self.request_size {
                ATTR_FILE_DATALENGTH
            } else {
                0
            },
        }
    }
}

/// What a `d_type` stands for.
pub open spec fn d_type_kind(d_type: u8) -> EntryKind {
    if d_type == 8 {
        EntryKind::File
    } else if d_type == 4 {
        EntryKind::Dir
    } else if d_type == 10 {
        EntryKind::Symlink
    } else {
        EntryKind::Other
    }
}

/// Reads directories with `readdir`.
#[derive(Debug, PartialEq, Eq, Structural)]
pub struct ReaddirReader {
    want_size: bool,
}

/// What is to be done with an entry that `readdir` handed out.
#[derive(Debug, PartialEq, Eq, Structural)]
pub enum ReaddirStep {
    /// The directory itself or its parent: not an entry.
    Skip,
    /// An entry without a size.
    Report(EntryKind),
    /// A file whose size has to be looked up.
    LookUp,
}

impl ReaddirReader {
    /// Whether file sizes are looked up.
    pub closed spec fn wants_size(self) -> bool {
        self.want_size
    }

    /// A reader that does not look sizes up.
    pub fn new() -> (reader: Self)
        ensures
            !reader.wants_size(),
    {
        ReaddirReader { want_size: false }
    }

    pub fn with_size(self, want: bool) -> (reader: Self)
        ensures
            reader.wants_size() == want,
    {
        ReaddirReader { want_size: want }
    }

    /// What is to be done with the entry `name`.
    pub fn step(&self, name: &[u8], d_type: u8) -> (step: ReaddirStep)
        ensures
            step == readdir_step(self.wants_size(), name@, d_type),
    {
        if is_dot(name) {
            return ReaddirStep::Skip;
        }
        let kind = match d_type {
            8 => EntryKind::File,
            4 => EntryKind::Dir,
            10 => EntryKind::Symlink,
            _ => EntryKind::Other,
        };
        if self.want_size && kind == EntryKind::File {
            ReaddirStep::LookUp
        } else {
            ReaddirStep::Report(kind)
        }
    }

    /// Adds the entry `name` to a listing; `looked_up` is the size that was looked up where a step
    /// asked for it.
    pub fn take(
        &self,
        name: &[u8],
        d_type: u8,
        looked_up: Option<u64>,
        listing: &mut Vec<RawEntry>,
    )
        ensures
            platform::listing_facts(final(listing)@) == platform::listing_facts(old(listing)@)
                + readdir_adds(self.wants_size(), name@, d_type, looked_up),
    {
        let (kind, size) = match self.step(name, d_type) {
            ReaddirStep::Skip => {
                assert(platform::listing_facts(listing@) + seq![] =~= platform::listing_facts(
                    listing@,
                ));
                return ;
            },
            ReaddirStep::Report(kind) => (kind, None),
            ReaddirStep::LookUp => (EntryKind::File, looked_up),
        };
        let entry = RawEntry { name: copy_bytes(name), kind, size };
        assert(platform::listing_facts(listing@.push(entry)) =~= platform::listing_facts(listing@)
            + readdir_adds(self.wants_size(), name@, d_type, looked_up));
        listing.push(entry);
    }
}

/// What is to be done with an entry, by a reader that wants sizes or not.
pub open spec fn readdir_step(wants_size: bool, name: Seq<u8>, d_type: u8) -> ReaddirStep {
    if platform::is_dot_name(name) {
        ReaddirStep::Skip
    } else if wants_size && d_type_kind(d_type) is File {
        ReaddirStep::LookUp
    } else {
        ReaddirStep::Report(d_type_kind(d_type))
    }
}

/// What `readdir` adds to a listing with an entry; `looked_up` is the size that was looked up.
pub open spec fn readdir_adds(
    wants_size: bool,
    name: Seq<u8>,
    d_type: u8,
    looked_up: Option<u64>,
) -> Seq<EntryFacts> {
    let kind = d_type_kind(d_type);
    if platform::is_dot_name(name) {
        seq![]
    } else {
        seq![
            EntryFacts {
                name,
                kind,
                size: if wants_size && kind is File {
                    looked_up
                } else {
                    None
                },
            },
        ]
    }
}

/// What it means that `readdir` hands out no entry, from the error number after a call before
/// which it was zero: the directory is exhausted, or reading it has failed with that number.
pub open spec fn end_of_listing(errno: i32) -> Result<(), i32> {
    if errno != 0 {
        Err(errno)
    } else {
        Ok(())
    }
}

/// What it means that `readdir` hands out no entry.
pub fn readdir_end(errno: i32) -> (ended: Result<(), i32>)
    ensures
        ended == end_of_listing(errno),
{
    if errno != 0 {
        Err(errno)
    } else {
        Ok(())
    }
}

/// The NUL-terminated path under which the size of `name` in `dir` is looked up.
pub open spec fn nul_path(dir: Seq<u8>, name: Seq<u8>) -> Seq<u8> {
    (if dir.len() > 0 && dir.last() == 0x2f {
        dir
    } else {
        dir.push(0x2f)
    }) + name + seq![0u8]
}

/// The NUL-terminated path under which the size of `name` in `dir` is looked up.
pub fn look_up_path(dir: &[u8], name: &[u8]) -> (path: Vec<u8>)
    ensures
        path@ == nul_path(dir@, name@),
{
    let mut path: Vec<u8> = Vec::new();
    append_range(&mut path, dir, 0, dir.len());
    if !(dir.len() > 0 && dir[dir.len() - 1] == 0x2f) {
        path.push(0x2f);
    }
    append_range(&mut path, name, 0, name.len());
    path.push(0);
    proof {
        assert(dir@.subrange(0, dir@.len() as int) =~= dir@);
        assert(name@.subrange(0, name@.len() as int) =~= name@);
        assert(Seq::<u8>::empty() + dir@ =~= dir@);
    }
    path
}

/// The size that a look-up found; a negative one is read as unsigned.
pub open spec fn size_told(result: i32, st_size: i64) -> Option<int> {
    if result != 0 {
        None
    } else if st_size >= 0 {
        Some(st_size as int)
    } else {
        Some(st_size + 0x1_0000_0000_0000_0000)
    }
}

/// The size that a look-up found.
pub fn looked_up_size(result: i32, st_size: i64) -> (size: Option<u64>)
    ensures
        match size {
            Some(size) => size_told(result, st_size) == Some(size as int),
            None => size_told(result, st_size) is None,
        },
{
    if result != 0 {
        None
    } else if st_size >= 0 {
        Some(st_size as u64)
    } else {
        Some(u64::MAX - (-(st_size + 1)) as u64)
    }
}

} // verus!
