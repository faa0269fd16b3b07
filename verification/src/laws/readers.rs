//! Laws of reading directories: what a kernel has written into its records is what is listed,
//! entry by entry, and nothing but `.` and `..` is left out.

use vstd::prelude::*;

use crate::platform::linux::{Dirent, DirentFacts, DentsStep};
use crate::platform::macos::{BulkStep, ReaddirStep};
use crate::platform::windows::{NtEntry, NtFacts, NtStep};
use crate::platform::{ByteOrder, EntryFacts, Platform, Reader, ReaderOptions};
use crate::walker::EntryKind;
use crate::platform;
use crate::platform::linux;
use crate::platform::macos;
use crate::platform::windows;

verus! {

// ── Numbers ─────────────────────────────────────────────────────────────

/// Numbers are read byte by byte, from the byte that counts least to the one that counts most, or
/// the other way round.
pub proof fn numbers_are_read_byte_by_byte(s: Seq<u8>, at: int)
    ensures
        platform::u16_at(s, at, ByteOrder::Little) == s[at] + 256 * s[at + 1],
        platform::u16_at(s, at, ByteOrder::Big) == s[at + 1] + 256 * s[at],
        platform::u32_at(s, at, ByteOrder::Little) == s[at] + 256 * s[at + 1] + 65536 * s[at + 2]
            + 16777216 * s[at + 3],
        platform::u32_at(s, at, ByteOrder::Big) == s[at + 3] + 256 * s[at + 2] + 65536 * s[at + 1]
            + 16777216 * s[at],
        platform::u64_at(s, at, ByteOrder::Little) == s[at] + 256 * s[at + 1] + 65536 * s[at + 2]
            + 16777216 * s[at + 3] + 4294967296 * s[at + 4] + 1099511627776 * s[at + 5]
            + 281474976710656 * s[at + 6] + 72057594037927936 * s[at + 7],
        platform::u64_at(s, at, ByteOrder::Big) == s[at + 7] + 256 * s[at + 6] + 65536 * s[at + 5]
            + 16777216 * s[at + 4] + 4294967296 * s[at + 3] + 1099511627776 * s[at + 2]
            + 281474976710656 * s[at + 1] + 72057594037927936 * s[at],
{
}

/// A signed number is the unsigned one, or that less 2^32, whichever 32 bits can hold with a sign.
pub proof fn signed_numbers_are_in_twos_complement(s: Seq<u8>, at: int, order: ByteOrder)
    ensures
        -2147483648 <= platform::i32_at(s, at, order) <= 2147483647,
        platform::i32_at(s, at, order) == platform::u32_at(s, at, order) || platform::i32_at(
            s,
            at,
            order,
        ) == platform::u32_at(s, at, order) - 4294967296,
{
    numbers_are_read_byte_by_byte(s, at);
}

// ── Names ───────────────────────────────────────────────────────────────

/// The names that a directory gives to itself and to its parent: one dot, and two.
pub open spec fn is_one_or_two_dots(name: Seq<u8>) -> bool {
    1 <= name.len() <= 2 && forall|i: int| 0 <= i < name.len() ==> #[trigger] name[i] == 46
}

/// Only the names of one dot and of two dots are passed over. A name of three or more bytes never
/// is, whatever it starts with.
pub proof fn only_one_and_two_dots_are_passed_over(name: Seq<u8>)
    ensures
        platform::is_dot_name(name) <==> is_one_or_two_dots(name),
        name.len() >= 3 ==> !platform::is_dot_name(name),
        name.len() > 0 && name[0] != 46 ==> !platform::is_dot_name(name),
{
    if is_one_or_two_dots(name) {
        if name.len() == 1 {
            assert(name[0] == 46);
            assert(name =~= seq![46u8]);
        } else {
            assert(name[0] == 46 && name[1] == 46);
            assert(name =~= seq![46u8, 46u8]);
        }
    }
}

/// The same of names in UTF-16.
pub proof fn only_one_and_two_dots_are_passed_over_in_utf16(name: Seq<u16>)
    ensures
        windows::is_dot_units(name) <==> 1 <= name.len() <= 2 && forall|i: int|
            0 <= i < name.len() ==> #[trigger] name[i] == 46,
{
    if 1 <= name.len() <= 2 && forall|i: int| 0 <= i < name.len() ==> #[trigger] name[i] == 46 {
        if name.len() == 1 {
            assert(name[0] == 46);
            assert(name =~= seq![46u16]);
        } else {
            assert(name[0] == 46 && name[1] == 46);
            assert(name =~= seq![46u16, 46u16]);
        }
    }
}

// ── Linux ───────────────────────────────────────────────────────────────

/// What a type byte of a Linux kernel stands for.
pub open spec fn linux_kind(d_type: u8) -> Option<EntryKind> {
    match d_type {
        0 => None,
        4 => Some(EntryKind::Dir),
        8 => Some(EntryKind::File),
        10 => Some(EntryKind::Symlink),
        _ => Some(EntryKind::Other),
    }
}

/// `record` is what a Linux kernel writes for `name`: sixteen bytes that do not matter here, the
/// length of the record, the type, the name, and a NUL; some padding may follow.
pub open spec fn is_linux_record(
    record: Seq<u8>,
    name: Seq<u8>,
    d_type: u8,
    order: ByteOrder,
) -> bool {
    &&& record.len() > 19 + name.len()
    &&& match order {
        ByteOrder::Little => record[16] + 256 * record[17],
        ByteOrder::Big => record[17] + 256 * record[16],
    } == record.len()
    &&& record[18] == d_type
    &&& forall|k: int|
        0 <= k < name.len() ==> record[19 + k] == #[trigger] name[k] && name[k] != 0
    &&& record[19 + name.len() as int] == 0
}

/// What is listed for a name: an entry, unless the name is empty, one dot or two dots.
pub open spec fn linux_entry(name: Seq<u8>, d_type: u8) -> Seq<DirentFacts> {
    if name.len() == 0 || is_one_or_two_dots(name) {
        seq![]
    } else {
        seq![DirentFacts { name, kind: linux_kind(d_type) }]
    }
}

proof fn lemma_linux(
    pre: Seq<u8>,
    written: Seq<Seq<u8>>,
    names: Seq<Seq<u8>>,
    types: Seq<u8>,
    order: ByteOrder,
)
    requires
        written.len() == names.len() == types.len(),
        forall|i: int|
            0 <= i < written.len() ==> is_linux_record(
                #[trigger] written[i],
                names[i],
                types[i],
                order,
            ),
    ensures
        ({
            let buf = pre + written.flatten();
            linux::records(buf, pre.len() as int, buf.len() as int, order) == Seq::new(
                names.len(),
                |i: int| linux_entry(names[i], types[i]),
            ).flatten()
        }),
    decreases written.len(),
{
    let buf = pre + written.flatten();
    let said = Seq::new(names.len(), |i: int| linux_entry(names[i], types[i]));
    if written.len() == 0 {
        assert(linux::records(buf, pre.len() as int, buf.len() as int, order) =~= said.flatten());
    } else {
        let r = written[0];
        let rest = written.drop_first();
        let at = pre.len() as int;
        let name = names[0];
        assert(is_linux_record(r, name, types[0], order));
        assert(buf =~= (pre + r) + rest.flatten());
        assert forall|k: int| 0 <= k < r.len() implies buf[at + k] == #[trigger] r[k] by {}
        assert forall|k: int| 0 <= k < name.len() implies #[trigger] name[k] == buf[at + 19
            + k] by {
            assert(r[19 + k] == name[k]);
        }
        let nul = at + 19 + name.len();
        assert(r[19 + name.len() as int] == buf[at + (19 + name.len() as int)]);
        assert forall|k: int| at + 19 <= k < nul implies #[trigger] buf[k] != 0 by {
            assert(name[k - at - 19] == buf[k]);
        }
        linux::lemma_name_end(buf, at + 19, nul, at + r.len());
        assert(buf.subrange(at + 19, nul) =~= name);
        assert(r[16] == buf[at + 16] && r[17] == buf[at + 17] && r[18] == buf[at + 18]);
        numbers_are_read_byte_by_byte(buf, at + 16);
        only_one_and_two_dots_are_passed_over(name);
        assert(linux::listed(linux::record_facts(buf, at, at + r.len())) =~= linux_entry(
            name,
            types[0],
        ));
        assert forall|i: int| 0 <= i < rest.len() implies is_linux_record(
            #[trigger] rest[i],
            names.drop_first()[i],
            types.drop_first()[i],
            order,
        ) by {
            assert(rest[i] == written[i + 1]);
        }
        lemma_linux(pre + r, rest, names.drop_first(), types.drop_first(), order);
        assert(said.drop_first() =~= Seq::new(
            names.drop_first().len(),
            |i: int| linux_entry(names.drop_first()[i], types.drop_first()[i]),
        ));
        assert(linux::records(buf, at, buf.len() as int, order) =~= said.flatten());
    }
}

/// Every record that a Linux kernel has written is read back with its name and its type, in
/// order. Only empty names, one dot and two dots are left out.
pub proof fn linux_records_are_read_back(
    written: Seq<Seq<u8>>,
    names: Seq<Seq<u8>>,
    types: Seq<u8>,
    order: ByteOrder,
)
    requires
        written.len() == names.len() == types.len(),
        forall|i: int|
            0 <= i < written.len() ==> is_linux_record(
                #[trigger] written[i],
                names[i],
                types[i],
                order,
            ),
    ensures
        linux::records(written.flatten(), 0, written.flatten().len() as int, order) == Seq::new(
            names.len(),
            |i: int| linux_entry(names[i], types[i]),
        ).flatten(),
{
    lemma_linux(seq![], written, names, types, order);
    assert(seq![] + written.flatten() =~= written.flatten());
}

/// A mode tells the file type in its upper four bits, whatever the others are.
pub proof fn modes_tell_the_file_type(mode: u16)
    ensures
        linux::mode_kind(mode) == EntryKind::File <==> mode / 4096 == 8,
        linux::mode_kind(mode) == EntryKind::Dir <==> mode / 4096 == 4,
        linux::mode_kind(mode) == EntryKind::Symlink <==> mode / 4096 == 10,
{
    assert((mode & 0o170000 == 0o100000) <==> mode / 4096 == 8) by (bit_vector);
    assert((mode & 0o170000 == 0o040000) <==> mode / 4096 == 4) by (bit_vector);
    assert((mode & 0o170000 == 0o120000) <==> mode / 4096 == 10) by (bit_vector);
}

/// What a record tells of an entry stands; only where it tells nothing does the look-up count.
pub proof fn a_look_up_fills_in_what_was_not_told(kind: EntryKind, found: Option<EntryKind>)
    ensures
        linux::resolved_kind(Some(kind), found) == kind,
        linux::resolved_kind(None, Some(kind)) == kind,
        linux::resolved_kind(None, None) == EntryKind::Other,
{
}

/// A call fails with a negative number, ends the listing with zero, and otherwise has filled as
/// many bytes as it returned.
pub proof fn calls_of_linux_say_how_they_went(returned: i64)
    ensures
        returned < 0 <==> linux::dents_outcome(returned) == DentsStep::Failed,
        returned == 0 <==> linux::dents_outcome(returned) == DentsStep::Exhausted,
        returned > 0 ==> (linux::dents_outcome(returned) matches DentsStep::Filled(bytes) && bytes
            == returned),
{
}

/// Records are taken as they stand.
pub proof fn linux_records_are_taken_as_they_stand(dirents: Seq<Dirent>, i: int)
    requires
        0 <= i < dirents.len(),
    ensures
        linux::dirent_facts(dirents).len() == dirents.len(),
        linux::dirent_facts(dirents)[i].name == dirents[i].name@,
        linux::dirent_facts(dirents)[i].kind == dirents[i].kind,
{
}

// ── macOS ───────────────────────────────────────────────────────────────

/// What an object type of macOS stands for.
pub open spec fn object_type_kind(object_type: int) -> EntryKind {
    if object_type == 1 {
        EntryKind::File
    } else if object_type == 2 {
        EntryKind::Dir
    } else if object_type == 5 {
        EntryKind::Symlink
    } else {
        EntryKind::Other
    }
}

/// `record` is what macOS writes for an entry of which it tells the name, the type and, where
/// `size` is there, the length: the length of the record, five words that say which attributes
/// follow, a reference to the name, the type and the length.
pub open spec fn is_macos_record(
    record: Seq<u8>,
    name: Seq<u8>,
    object_type: int,
    size: Option<u64>,
    order: ByteOrder,
) -> bool {
    let common = platform::u32_at(record, 4, order) as u32;
    let file = platform::u32_at(record, 16, order) as u32;
    let start = 24 + platform::i32_at(record, 24, order);
    &&& record.len() >= 36
    &&& platform::u32_at(record, 0, order) == record.len()
    &&& common & 1 != 0
    &&& common & 8 != 0
    &&& name.len() > 0
    &&& 0 <= start
    &&& start + name.len() + 1 <= record.len()
    &&& platform::u32_at(record, 28, order) == name.len() + 1
    &&& forall|k: int| 0 <= k < name.len() ==> record[start + k] == #[trigger] name[k]
    &&& platform::u32_at(record, 32, order) == object_type
    &&& match size {
        Some(bytes) => file & 512 != 0 && record.len() >= 44 && platform::u64_at(record, 36, order)
            == bytes,
        None => file & 512 == 0,
    }
}

proof fn lemma_macos_record(
    record: Seq<u8>,
    name: Seq<u8>,
    object_type: int,
    size: Option<u64>,
    order: ByteOrder,
)
    requires
        is_macos_record(record, name, object_type, size, order),
    ensures
        macos::is_whole_record(record, order),
        macos::record_facts(record, 0, record.len() as int, order) == Some(
            EntryFacts { name, kind: object_type_kind(object_type), size },
        ),
{
    let start = 24 + platform::i32_at(record, 24, order);
    assert(record.subrange(start, start + name.len() as int) =~= name);
}

/// Every record that macOS has written is read back with its name, its type and its size, in
/// order, whatever is left in the buffer behind them.
pub proof fn macos_records_are_read_back(
    written: Seq<Seq<u8>>,
    said: Seq<EntryFacts>,
    types: Seq<int>,
    tail: Seq<u8>,
    order: ByteOrder,
)
    requires
        written.len() == said.len() == types.len(),
        forall|i: int|
            0 <= i < written.len() ==> is_macos_record(
                #[trigger] written[i],
                said[i].name,
                types[i],
                said[i].size,
                order,
            ) && said[i].kind == object_type_kind(types[i]),
    ensures
        macos::records(written.flatten() + tail, 0, written.len(), order) == said,
{
    assert forall|i: int| 0 <= i < written.len() implies macos::is_whole_record(
        #[trigger] written[i],
        order,
    ) by {
        lemma_macos_record(written[i], said[i].name, types[i], said[i].size, order);
    }
    macos::records_are_read_one_by_one(written, tail, order);
    lemma_macos_said(written, said, types, order);
}

proof fn lemma_macos_said(
    written: Seq<Seq<u8>>,
    said: Seq<EntryFacts>,
    types: Seq<int>,
    order: ByteOrder,
)
    requires
        written.len() == said.len() == types.len(),
        forall|i: int|
            0 <= i < written.len() ==> is_macos_record(
                #[trigger] written[i],
                said[i].name,
                types[i],
                said[i].size,
                order,
            ) && said[i].kind == object_type_kind(types[i]),
    ensures
        macos::said_by(written, order) == said,
    decreases written.len(),
{
    if written.len() > 0 {
        lemma_macos_record(written[0], said[0].name, types[0], said[0].size, order);
        let rest = written.drop_first();
        assert forall|i: int| 0 <= i < rest.len() implies is_macos_record(
            #[trigger] rest[i],
            said.drop_first()[i].name,
            types.drop_first()[i],
            said.drop_first()[i].size,
            order,
        ) && said.drop_first()[i].kind == object_type_kind(types.drop_first()[i]) by {
            assert(rest[i] == written[i + 1]);
        }
        lemma_macos_said(rest, said.drop_first(), types.drop_first(), order);
        assert(said =~= seq![said[0]] + said.drop_first());
    } else {
        assert(macos::said_by(written, order) =~= said);
    }
}

/// `readdir` lists every name but one dot and two dots, with what its type stands for. A size is
/// looked up for files alone, and where it is wanted, and is then the size of the entry.
pub proof fn readdir_lists_every_name(
    wants_size: bool,
    name: Seq<u8>,
    d_type: u8,
    looked_up: Option<u64>,
)
    ensures
        ({
            let added = macos::readdir_adds(wants_size, name, d_type, looked_up);
            let step = macos::readdir_step(wants_size, name, d_type);
            if is_one_or_two_dots(name) {
                added.len() == 0 && step == ReaddirStep::Skip
            } else {
                &&& added.len() == 1
                &&& added[0].name == name
                &&& added[0].kind == EntryKind::File <==> d_type == 8
                &&& added[0].kind == EntryKind::Dir <==> d_type == 4
                &&& added[0].kind == EntryKind::Symlink <==> d_type == 10
                &&& if wants_size && d_type == 8 {
                    step == ReaddirStep::LookUp && added[0].size == looked_up
                } else {
                    step == ReaddirStep::Report(added[0].kind) && added[0].size is None
                }
            }
        }),
{
    only_one_and_two_dots_are_passed_over(name);
}

/// A call fails with a negative number, ends the listing with zero, and otherwise has given as
/// many records as it returned.
pub proof fn calls_of_macos_say_how_they_went(returned: i32)
    ensures
        returned < 0 <==> macos::bulk_outcome(returned) == BulkStep::Failed,
        returned == 0 <==> macos::bulk_outcome(returned) == BulkStep::Exhausted,
        returned > 0 ==> (macos::bulk_outcome(returned) matches BulkStep::Records(count) && count
            == returned),
{
}

// ── Windows ─────────────────────────────────────────────────────────────

/// `record` is what Windows writes for an entry: where the next record stands, the length of the
/// data, the attributes, and the name in UTF-16 with its length in bytes.
pub open spec fn is_windows_record(
    record: Seq<u8>,
    name: Seq<u16>,
    attributes: u32,
    size: u64,
    next: int,
) -> bool {
    let le = ByteOrder::Little;
    &&& record.len() >= 72
    &&& record.len() >= 64 + 2 * name.len()
    &&& platform::u32_at(record, 0, le) == next
    &&& platform::u64_at(record, 40, le) == size
    &&& platform::u32_at(record, 56, le) == attributes
    &&& platform::u32_at(record, 60, le) == 2 * name.len()
    &&& forall|k: int|
        0 <= k < name.len() ==> platform::u16_at(record, 64 + 2 * k, le) == #[trigger] name[k]
}

/// What is listed for a name: an entry, unless the name is one dot or two dots.
pub open spec fn windows_entry(name: Seq<u16>, attributes: u32, size: u64) -> Seq<NtFacts> {
    if 1 <= name.len() <= 2 && forall|i: int| 0 <= i < name.len() ==> #[trigger] name[i] == 46 {
        seq![]
    } else {
        seq![
            NtFacts {
                name,
                kind: if attributes & 1024 != 0 {
                    EntryKind::Symlink
                } else if attributes & 16 != 0 {
                    EntryKind::Dir
                } else {
                    EntryKind::File
                },
                size,
            },
        ]
    }
}

proof fn lemma_windows_record(
    record: Seq<u8>,
    name: Seq<u16>,
    attributes: u32,
    size: u64,
    next: int,
)
    requires
        is_windows_record(record, name, attributes, size, next),
    ensures
        windows::is_whole_record(record, next),
        windows::listed(windows::record_facts(record, 0)) == windows_entry(name, attributes, size),
{
    assert(windows::name_units(record, 0) == name.len());
    assert(windows::units_at(record, 64, name.len() as int) =~= name) by {
        assert forall|k: int| 0 <= k < name.len() implies windows::units_at(
            record,
            64,
            name.len() as int,
        )[k] == #[trigger] name[k] by {}
    }
    only_one_and_two_dots_are_passed_over_in_utf16(name);
    assert(windows::listed(windows::record_facts(record, 0)) =~= windows_entry(
        name,
        attributes,
        size,
    ));
}

/// The chain of records, each of which leads to the next one, the last one nowhere.
pub open spec fn is_windows_chain(
    written: Seq<Seq<u8>>,
    names: Seq<Seq<u16>>,
    attributes: Seq<u32>,
    sizes: Seq<u64>,
) -> bool {
    &&& written.len() == names.len() == attributes.len() == sizes.len()
    &&& forall|i: int|
        0 <= i < written.len() ==> is_windows_record(
            #[trigger] written[i],
            names[i],
            attributes[i],
            sizes[i],
            if i + 1 < written.len() {
                written[i].len() as int
            } else {
                0
            },
        )
}

proof fn lemma_windows_said(
    written: Seq<Seq<u8>>,
    names: Seq<Seq<u16>>,
    attributes: Seq<u32>,
    sizes: Seq<u64>,
)
    requires
        is_windows_chain(written, names, attributes, sizes),
    ensures
        windows::said_by(written) == Seq::new(
            names.len(),
            |i: int| windows_entry(names[i], attributes[i], sizes[i]),
        ).flatten(),
    decreases written.len(),
{
    let said = Seq::new(
        names.len(),
        |i: int| windows_entry(names[i], attributes[i], sizes[i]),
    );
    if written.len() > 0 {
        let next = if 1 < written.len() {
            written[0].len() as int
        } else {
            0
        };
        assert(is_windows_record(written[0], names[0], attributes[0], sizes[0], next));
        lemma_windows_record(written[0], names[0], attributes[0], sizes[0], next);
        let rest = written.drop_first();
        let ns = names.drop_first();
        let ats = attributes.drop_first();
        let szs = sizes.drop_first();
        assert forall|i: int| 0 <= i < rest.len() implies is_windows_record(
            #[trigger] rest[i],
            ns[i],
            ats[i],
            szs[i],
            if i + 1 < rest.len() {
                rest[i].len() as int
            } else {
                0
            },
        ) by {
            assert(rest[i] == written[i + 1]);
        }
        lemma_windows_said(rest, ns, ats, szs);
        assert(said.drop_first() =~= Seq::new(
            ns.len(),
            |i: int| windows_entry(ns[i], ats[i], szs[i]),
        ));
        assert(windows::said_by(written) =~= said.flatten());
    } else {
        assert(windows::said_by(written) =~= said.flatten());
    }
}

/// Every record that Windows has written is read back with its name, what its attributes stand
/// for and its size, in order. Only one dot and two dots are left out.
pub proof fn windows_records_are_read_back(
    written: Seq<Seq<u8>>,
    names: Seq<Seq<u16>>,
    attributes: Seq<u32>,
    sizes: Seq<u64>,
    tail: Seq<u8>,
)
    requires
        is_windows_chain(written, names, attributes, sizes),
        written.len() > 0,
    ensures
        windows::records(written.flatten() + tail, 0) == Seq::new(
            names.len(),
            |i: int| windows_entry(names[i], attributes[i], sizes[i]),
        ).flatten(),
{
    assert forall|i: int| 0 <= i < written.len() implies windows::is_whole_record(
        #[trigger] written[i],
        if i + 1 < written.len() {
            written[i].len() as int
        } else {
            0
        },
    ) by {
        lemma_windows_record(
            written[i],
            names[i],
            attributes[i],
            sizes[i],
            if i + 1 < written.len() {
                written[i].len() as int
            } else {
                0
            },
        );
    }
    windows::records_are_read_one_by_one(written, tail);
    lemma_windows_said(written, names, attributes, sizes);
}

/// A status of zero brings records, 0x80000006 ends the listing, and any other is the error.
pub proof fn calls_of_windows_say_how_they_went(status: i32)
    ensures
        status == 0 <==> windows::nt_outcome(status) == NtStep::Records,
        status == -2147483642 <==> windows::nt_outcome(status) == NtStep::Exhausted,
        status != 0 && status != -2147483642 ==> windows::nt_outcome(status) == NtStep::Failed(
            status,
        ),
{
}

/// Records are taken as they stand.
pub proof fn windows_records_are_taken_as_they_stand(entries: Seq<NtEntry>, i: int)
    requires
        0 <= i < entries.len(),
    ensures
        windows::nt_facts(entries).len() == entries.len(),
        windows::nt_facts(entries)[i].name == entries[i].name@,
        windows::nt_facts(entries)[i].kind == entries[i].kind,
        windows::nt_facts(entries)[i].size == entries[i].size,
{
}

// ── Around the records ──────────────────────────────────────────────────

/// Each platform has its reader; only macOS has one of its own for listings with sizes, and that
/// one asks for them.
pub proof fn each_platform_has_its_reader(reader: Reader, options: ReaderOptions)
    ensures
        platform::is_reader_for(reader, options, Platform::Linux) <==> reader is GetDents64,
        platform::is_reader_for(reader, options, Platform::Windows) <==> reader is NtQuery,
        platform::is_reader_for(reader, options, Platform::MacOs) ==> (reader is AttrListBulk
            <==> options.with_size) && (reader is Readdir <==> !options.with_size),
        platform::is_reader_for(reader, options, Platform::MacOs) && options.with_size
            ==> reader->AttrListBulk_0.requests_size(),
        platform::is_reader_for(reader, options, Platform::MacOs) && !options.with_size
            ==> !reader->Readdir_0.wants_size(),
{
}

/// Names and types are always asked for, lengths exactly where sizes are wanted.
pub proof fn what_macos_is_asked_for(sizes: bool)
    ensures
        macos::request_for(sizes).bitmapcount == 5,
        macos::request_for(sizes).commonattr == 0x8000_0009,
        macos::request_for(true).fileattr == 0x200,
        macos::request_for(false).fileattr == 0,
{
    assert(0x8000_0000u32 | 1u32 | 8u32 == 0x8000_0009u32) by (bit_vector);
}

/// A size is looked up under the path of the entry, which ends with a NUL. It is told where the
/// call succeeds, and read without a sign.
pub proof fn sizes_are_looked_up_by_path(dir: Seq<u8>, name: Seq<u8>, result: i32, st_size: i64)
    ensures
        ({
            let path = macos::nul_path(dir, name);
            &&& path.len() > name.len()
            &&& path.last() == 0
            &&& path.subrange(path.len() - 1 - name.len(), path.len() - 1) == name
            &&& path[path.len() - 2 - name.len()] == 47
            &&& path.take(dir.len() as int) == dir
            &&& dir.len() > 0 && dir.last() == 47 ==> path.len() == dir.len() + name.len() + 1
            &&& !(dir.len() > 0 && dir.last() == 47) ==> path.len() == dir.len() + name.len() + 2
        }),
        result != 0 <==> macos::size_told(result, st_size) is None,
        result == 0 && st_size >= 0 ==> macos::size_told(result, st_size) == Some(st_size as int),
        result == 0 && st_size < 0 ==> macos::size_told(result, st_size) == Some(
            st_size + 18446744073709551616,
        ),
{
    let path = macos::nul_path(dir, name);
    assert(path.subrange(path.len() - 1 - name.len(), path.len() - 1) =~= name);
    assert(path.take(dir.len() as int) =~= dir);
}

/// A listing ends well where no error is left, and else with that error.
pub proof fn listings_end_well_or_with_their_error(errno: i32)
    ensures
        errno == 0 <==> macos::end_of_listing(errno) is Ok,
        errno != 0 ==> macos::end_of_listing(errno) == Err::<(), i32>(errno),
{
}

/// A look-up tells something exactly where it succeeds.
pub proof fn look_ups_tell_where_they_succeed(result: i32, mode: u16)
    ensures
        result != 0 <==> linux::statx_outcome(result, mode) is None,
        result == 0 ==> linux::statx_outcome(result, mode) == Some(linux::mode_kind(mode)),
{
}

} // verus!
