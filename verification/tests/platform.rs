use kosu::platform::linux::{
    dents_step, parse_dirents, statx_kind, DentsStep, Dirent, GetDents64Reader,
};
use kosu::platform::macos::{
    bulk_step, look_up_path, looked_up_size, parse_buffer, readdir_end, AttrListBulkReader,
    BulkStep, ReaddirReader, ReaddirStep,
};
use kosu::platform::windows::{nt_step, parse_records, NtQueryReader, NtStep};
use kosu::platform::{
    build_reader, is_dot, read_i32, read_u16, read_u32, read_u64, ByteOrder, Platform, RawEntry,
    Reader, ReaderOptions,
};
use kosu::walker::EntryKind;

#[test]
fn numbers_are_read_in_both_byte_orders() {
    let buf = [0x01u8, 0x02, 0x03, 0x04, 0x05, 0x06, 0x07, 0xff];
    assert_eq!(read_u16(&buf, 1, ByteOrder::Little), 0x0302);
    assert_eq!(read_u16(&buf, 1, ByteOrder::Big), 0x0203);
    assert_eq!(read_u32(&buf, 0, ByteOrder::Little), 0x04030201);
    assert_eq!(read_u32(&buf, 0, ByteOrder::Big), 0x01020304);
    assert_eq!(read_u64(&buf, 0, ByteOrder::Little), u64::from_le_bytes(buf));
    assert_eq!(read_u64(&buf, 0, ByteOrder::Big), u64::from_be_bytes(buf));
    assert_eq!(read_i32(&buf, 4, ByteOrder::Little), i32::from_le_bytes([5, 6, 7, 0xff]) as i64);
    assert_eq!(read_i32(&buf, 0, ByteOrder::Little), 0x04030201);
}

#[test]
fn dots_are_not_entries() {
    assert!(is_dot(b"."));
    assert!(is_dot(b".."));
    assert!(!is_dot(b"..."));
    assert!(!is_dot(b".a"));
    assert!(!is_dot(b""));
}

fn dirent(name: &[u8], d_type: u8) -> Vec<u8> {
    let mut len = 19 + name.len() + 1;
    len += (8 - len % 8) % 8;
    let mut r = vec![7u8; 16];
    r.extend_from_slice(&(len as u16).to_le_bytes());
    r.push(d_type);
    r.extend_from_slice(name);
    r.push(0);
    while r.len() < len {
        r.push(0xee);
    }
    r
}

#[test]
fn linux_records_are_read_back() {
    let mut buf = Vec::new();
    for (name, t) in [
        (&b"."[..], 4u8),
        (b"..", 4),
        (b"file.txt", 8),
        (b"dir", 4),
        (b"link", 10),
        (b"unknown", 0),
        (b"fifo", 1),
    ] {
        buf.extend_from_slice(&dirent(name, t));
    }
    let total = buf.len();
    buf.resize(total + 100, 0);
    let got = parse_dirents(&buf, total, ByteOrder::Little);
    let flat: Vec<(Vec<u8>, Option<EntryKind>)> = got.into_iter().map(|d| (d.name, d.kind)).collect();
    assert_eq!(
        flat,
        vec![
            (b"file.txt".to_vec(), Some(EntryKind::File)),
            (b"dir".to_vec(), Some(EntryKind::Dir)),
            (b"link".to_vec(), Some(EntryKind::Symlink)),
            (b"unknown".to_vec(), None),
            (b"fifo".to_vec(), Some(EntryKind::Other)),
        ]
    );
}

#[test]
fn linux_broken_records_end_the_listing() {
    let whole = dirent(b"a", 8);
    let mut buf = whole.clone();
    buf.extend_from_slice(&dirent(b"b", 8));
    assert_eq!(parse_dirents(&buf, buf.len(), ByteOrder::Little).len(), 2);
    assert_eq!(parse_dirents(&buf, buf.len() - 1, ByteOrder::Little).len(), 1);
    assert_eq!(parse_dirents(&buf, 18, ByteOrder::Little).len(), 0);
    buf[16] = 0;
    buf[17] = 0;
    assert_eq!(parse_dirents(&buf, buf.len(), ByteOrder::Little).len(), 0);
}

#[test]
fn linux_unknown_types_are_looked_up() {
    assert_eq!(statx_kind(-1, 0o040755), None);
    assert_eq!(statx_kind(0, 0o040755), Some(EntryKind::Dir));
    assert_eq!(statx_kind(0, 0o100644), Some(EntryKind::File));
    assert_eq!(statx_kind(0, 0o120777), Some(EntryKind::Symlink));
    assert_eq!(statx_kind(0, 0o010644), Some(EntryKind::Other));
    let unknown = || Dirent { name: b"u".to_vec(), kind: None };
    assert_eq!(unknown().resolve(Some(EntryKind::Dir)).kind, EntryKind::Dir);
    assert_eq!(unknown().resolve(None).kind, EntryKind::Other);
    let known = Dirent { name: b"k".to_vec(), kind: Some(EntryKind::File) };
    let entry = known.resolve(Some(EntryKind::Dir));
    assert_eq!(entry.kind, EntryKind::File);
    assert_eq!(entry.name, b"k".to_vec());
    assert!(entry.size.is_none());
}

#[test]
fn linux_calls() {
    assert_eq!(dents_step(-1), DentsStep::Failed);
    assert_eq!(dents_step(0), DentsStep::Exhausted);
    assert_eq!(dents_step(120), DentsStep::Filled(120));
}

fn bulk(name: &[u8], object_type: u32, size: Option<u64>) -> Vec<u8> {
    let mut fields = Vec::new();
    fields.extend_from_slice(&(0x8000_0000u32 | 1 | 8).to_le_bytes());
    fields.extend_from_slice(&[0; 8]);
    fields.extend_from_slice(&(if size.is_some() { 0x200u32 } else { 0 }).to_le_bytes());
    fields.extend_from_slice(&[0; 4]);
    let after = 8 + 4 + if size.is_some() { 8 } else { 0 };
    fields.extend_from_slice(&(after as i32).to_le_bytes());
    fields.extend_from_slice(&((name.len() + 1) as u32).to_le_bytes());
    fields.extend_from_slice(&object_type.to_le_bytes());
    if let Some(bytes) = size {
        fields.extend_from_slice(&bytes.to_le_bytes());
    }
    fields.extend_from_slice(name);
    fields.push(0);
    while (fields.len() + 4) % 4 != 0 {
        fields.push(0);
    }
    let mut r = ((fields.len() + 4) as u32).to_le_bytes().to_vec();
    r.extend_from_slice(&fields);
    r
}

#[test]
fn macos_records_are_read_one_by_one() {
    let mut buf = bulk(b"a.txt", 1, Some(77));
    buf.extend_from_slice(&bulk(b"dir", 2, None));
    buf.extend_from_slice(&bulk(b"link", 5, None));
    buf.extend_from_slice(&bulk(b"fifo", 7, None));
    let used = buf.len();
    buf.resize(used + 64, 0xaa);
    let got = parse_buffer(&buf, 4, ByteOrder::Little);
    let flat: Vec<(Vec<u8>, EntryKind, Option<u64>)> =
        got.into_iter().map(|e| (e.name, e.kind, e.size)).collect();
    assert_eq!(
        flat,
        vec![
            (b"a.txt".to_vec(), EntryKind::File, Some(77)),
            (b"dir".to_vec(), EntryKind::Dir, None),
            (b"link".to_vec(), EntryKind::Symlink, None),
            (b"fifo".to_vec(), EntryKind::Other, None),
        ]
    );
    assert_eq!(parse_buffer(&buf, 2, ByteOrder::Little).len(), 2);
    assert_eq!(parse_buffer(&buf[..used - 1], 4, ByteOrder::Little).len(), 3);
}

#[test]
fn macos_records_without_a_name_are_passed_over() {
    let mut nameless = bulk(b"x", 1, None);
    nameless[4] = 8;
    let mut buf = nameless;
    buf.extend_from_slice(&bulk(b"", 1, None));
    buf.extend_from_slice(&[8, 0, 0, 0, 0, 0, 0, 0]);
    buf.extend_from_slice(&bulk(b"y", 1, None));
    let got = parse_buffer(&buf, 4, ByteOrder::Little);
    assert_eq!(got.len(), 1);
    assert_eq!(got[0].name, b"y".to_vec());
    assert_eq!(parse_buffer(&[0, 0, 0, 0], 1, ByteOrder::Little).len(), 0);
    assert_eq!(parse_buffer(&[1, 0, 0], 1, ByteOrder::Little).len(), 0);
}

#[test]
fn macos_calls_and_requests() {
    assert_eq!(bulk_step(-1), BulkStep::Failed);
    assert_eq!(bulk_step(0), BulkStep::Exhausted);
    assert_eq!(bulk_step(800), BulkStep::Records(800));
    let plain = AttrListBulkReader::new().request();
    assert_eq!(plain.bitmapcount, 5);
    assert_eq!(plain.commonattr, 0x8000_0009);
    assert_eq!(plain.fileattr, 0);
    assert_eq!(AttrListBulkReader::new().with_size(true).request().fileattr, 0x200);
    assert_eq!(AttrListBulkReader::new().with_size(true).with_size(false).request().fileattr, 0);
}

#[test]
fn macos_readdir_steps() {
    let plain = ReaddirReader::new();
    assert_eq!(plain.step(b".", 4), ReaddirStep::Skip);
    assert_eq!(plain.step(b"..", 4), ReaddirStep::Skip);
    assert_eq!(plain.step(b"a", 8), ReaddirStep::Report(EntryKind::File));
    assert_eq!(plain.step(b"a", 4), ReaddirStep::Report(EntryKind::Dir));
    assert_eq!(plain.step(b"a", 10), ReaddirStep::Report(EntryKind::Symlink));
    assert_eq!(plain.step(b"a", 0), ReaddirStep::Report(EntryKind::Other));
    let sized = ReaddirReader::new().with_size(true);
    assert_eq!(sized.step(b"a", 8), ReaddirStep::LookUp);
    assert_eq!(sized.step(b"a", 4), ReaddirStep::Report(EntryKind::Dir));
    assert_eq!(look_up_path(b"/d", b"f"), b"/d/f\0".to_vec());
    assert_eq!(looked_up_size(0, 12), Some(12));
    assert_eq!(looked_up_size(-1, 12), None);
    let mut listing: Vec<RawEntry> = Vec::new();
    let reader = ReaddirReader::new().with_size(true);
    for (name, d_type, looked_up) in [
        (&b"."[..], 4, None),
        (b"f", 8, Some(7)),
        (b"..", 4, None),
        (b"d", 4, Some(9)),
        (b"g", 8, None),
    ] {
        reader.take(name, d_type, looked_up, &mut listing);
    }
    ReaddirReader::new().take(b"h", 8, Some(7), &mut listing);
    let seen: Vec<(&[u8], EntryKind, Option<u64>)> =
        listing.iter().map(|e| (e.name.as_slice(), e.kind, e.size)).collect();
    assert_eq!(
        seen,
        vec![
            (&b"f"[..], EntryKind::File, Some(7)),
            (b"d", EntryKind::Dir, None),
            (b"g", EntryKind::File, None),
            (b"h", EntryKind::File, None),
        ]
    );
    assert_eq!(readdir_end(0), Ok(()));
    assert_eq!(readdir_end(5), Err(5));
    assert_eq!(readdir_end(-1), Err(-1));
}

fn nt(name: &str, attributes: u32, size: u64, last: bool) -> Vec<u8> {
    let units: Vec<u16> = name.encode_utf16().collect();
    let mut r = vec![0u8; 64];
    r[40..48].copy_from_slice(&size.to_le_bytes());
    r[56..60].copy_from_slice(&attributes.to_le_bytes());
    r[60..64].copy_from_slice(&((units.len() * 2) as u32).to_le_bytes());
    for u in units {
        r.extend_from_slice(&u.to_le_bytes());
    }
    while r.len() < 72 || r.len() % 8 != 0 {
        r.push(0);
    }
    let next = if last { 0 } else { r.len() as u32 };
    r[0..4].copy_from_slice(&next.to_le_bytes());
    r
}

#[test]
fn windows_records_are_read_one_by_one() {
    let mut buf = nt(".", 0x10, 0, false);
    buf.extend_from_slice(&nt("..", 0x10, 0, false));
    buf.extend_from_slice(&nt("file.txt", 0x20, 5, false));
    buf.extend_from_slice(&nt("dir", 0x10, 0, false));
    buf.extend_from_slice(&nt("junction", 0x410, 0, true));
    let used = buf.len();
    buf.extend_from_slice(&nt("stale", 0x20, 5, true));
    let got = parse_records(&buf);
    let flat: Vec<(String, EntryKind, u64)> =
        got.into_iter().map(|e| (String::from_utf16(&e.name).unwrap(), e.kind, e.size)).collect();
    assert_eq!(
        flat,
        vec![
            ("file.txt".to_owned(), EntryKind::File, 5),
            ("dir".to_owned(), EntryKind::Dir, 0),
            ("junction".to_owned(), EntryKind::Symlink, 0),
        ]
    );
    assert_eq!(parse_records(&buf[..used - 10]).len(), 2);
    assert_eq!(parse_records(&buf[..71]).len(), 0);
}

#[test]
fn windows_calls() {
    assert_eq!(nt_step(0), NtStep::Records);
    assert_eq!(nt_step(0x8000_0006u32 as i32), NtStep::Exhausted);
    assert_eq!(nt_step(-5), NtStep::Failed(-5));
}

#[test]
fn readers_by_platform() {
    let plain = ReaderOptions::default();
    assert!(!plain.with_size);
    let sized = ReaderOptions { with_size: true };
    match build_reader(sized, Platform::MacOs) {
        Reader::AttrListBulk(r) => assert_eq!(r.request().fileattr, 0x200),
        other => panic!("{:?}", other),
    }
    match build_reader(plain, Platform::MacOs) {
        Reader::Readdir(r) => assert_eq!(r.step(b"a", 8), ReaddirStep::Report(EntryKind::File)),
        other => panic!("{:?}", other),
    }
    for options in [plain, sized] {
        assert!(matches!(build_reader(options, Platform::Linux), Reader::GetDents64(_)));
        assert!(matches!(build_reader(options, Platform::Windows), Reader::NtQuery(_)));
    }
    assert_eq!(GetDents64Reader::new(), GetDents64Reader);
    assert_eq!(NtQueryReader::new(), NtQueryReader);
}
