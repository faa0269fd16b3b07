use kosu::text::{decimal_text, display, fmt_size, pad_l, pad_r, push_decimal, push_run};

fn by_floats(b: u64) -> String {
    const KB: u64 = 1024;
    const MB: u64 = 1024 * KB;
    const GB: u64 = 1024 * MB;
    if b >= GB {
        format!("{:.1} GB", b as f64 / GB as f64)
    } else if b >= MB {
        format!("{:.1} MB", b as f64 / MB as f64)
    } else if b >= KB {
        format!("{:.0} KB", b as f64 / KB as f64)
    } else {
        format!("{} B", b)
    }
}

#[test]
fn sizes_have_their_units() {
    assert_eq!(fmt_size(0), "0 B");
    assert_eq!(fmt_size(1023), "1023 B");
    assert_eq!(fmt_size(1024), "1 KB");
    assert_eq!(fmt_size(1536), "2 KB");
    assert_eq!(fmt_size(2560), "2 KB");
    assert_eq!(fmt_size(1024 * 1024), "1.0 MB");
    assert_eq!(fmt_size(1024 * 1024 - 1), "1024 KB");
    assert_eq!(fmt_size(1024 * 1024 * 1024), "1.0 GB");
    assert_eq!(fmt_size(1610612736), "1.5 GB");
    assert_eq!(fmt_size(u64::MAX), "17179869184.0 GB");
}

#[test]
fn sizes_are_what_floating_point_gives() {
    let mut x: u64 = 0x9e37_79b9_7f4a_7c15;
    for shift in 0..64u32 {
        for _ in 0..200 {
            x ^= x << 13;
            x ^= x >> 7;
            x ^= x << 17;
            let b = x >> shift;
            assert_eq!(fmt_size(b), by_floats(b), "{}", b);
        }
    }
    for k in 0..20000u64 {
        let b = 1024 * 1024 * 7 + k * 52429;
        assert_eq!(fmt_size(b), by_floats(b), "{}", b);
    }
    for b in [1024u64, 1048576, 1073741824, 53687091, 53687092, 161061273, 1u64 << 53] {
        for d in 0..4u64 {
            assert_eq!(fmt_size(b + d), by_floats(b + d));
            assert_eq!(fmt_size(b - d), by_floats(b - d));
        }
    }
    for e in 30..64u32 {
        let b = 1u64 << e;
        for d in 0..9u64 {
            assert_eq!(fmt_size(b - d), by_floats(b - d));
            assert_eq!(fmt_size(b + d), by_floats(b + d));
        }
    }
}

#[test]
fn padding_counts_characters() {
    assert_eq!(pad_r("ab", 5), "ab   ");
    assert_eq!(pad_l("ab", 5), "   ab");
    assert_eq!(pad_r("abcdef", 5), "abcdef");
    assert_eq!(pad_l("abcdef", 5), "abcdef");
    assert_eq!(pad_r("é", 3), format!("{:<3}", "é"));
    assert_eq!(pad_l("─", 3), format!("{:>3}", "─"));
}

#[test]
fn numbers_in_decimal() {
    for n in [0u64, 7, 10, 99, 100, 12345, u64::MAX] {
        assert_eq!(decimal_text(n), n.to_string());
    }
    let mut s = String::from("n=");
    push_decimal(&mut s, 42);
    assert_eq!(s, "n=42");
    push_run(&mut s, "─", 3);
    assert_eq!(s, "n=42───");
}

#[test]
fn names_are_decoded() {
    assert_eq!(display("naïve/─".as_bytes()), "naïve/─");
    assert_eq!(display(b"a\xffb"), "a\u{fffd}b");
}
