//! Numbers, sizes and names as text.

use vstd::prelude::*;

verus! {

/// The character of a decimal digit.
pub open spec fn digit(d: nat) -> char {
    (48 + d) as char
}

/// A number in decimal.
pub open spec fn decimal(n: nat) -> Seq<char>
    decreases n,
{
    if n < 10 {
        seq![digit(n)]
    } else {
        decimal(n / 10).push(digit(n % 10))
    }
}

/// `count` times the same character.
pub open spec fn run_of(c: char, count: int) -> Seq<char> {
    Seq::new(
        if count > 0 {
            count as nat
        } else {
            0
        },
        |i: int| c,
    )
}

fn digit_text(d: u64) -> (text: &'static str)
    requires
        d < 10,
    ensures
        text@ == seq![digit(d as nat)],
{
    proof {
        reveal_strlit("0");
        reveal_strlit("1");
        reveal_strlit("2");
        reveal_strlit("3");
        reveal_strlit("4");
        reveal_strlit("5");
        reveal_strlit("6");
        reveal_strlit("7");
        reveal_strlit("8");
        reveal_strlit("9");
    }
    let text: &'static str = match d {
        0 => "0",
        1 => "1",
        2 => "2",
        3 => "3",
        4 => "4",
        5 => "5",
        6 => "6",
        7 => "7",
        8 => "8",
        _ => "9",
    };
    assert(text@ =~= seq![digit(d as nat)]);
    text
}

/// Appends `n` in decimal.
pub fn push_decimal(out: &mut String, n: u64)
    ensures
        final(out)@ == old(out)@ + decimal(n as nat),
    decreases n,
{
    if n >= 10 {
        push_decimal(out, n / 10);
    }
    let ghost before = out@;
    out.append(digit_text(n % 10));
    proof {
        assert(seq![digit((n % 10) as nat)] =~= Seq::<char>::empty().push(digit((n % 10) as nat)));
        if n >= 10 {
            assert(out@ =~= old(out)@ + decimal(n as nat));
        }
    }
}

/// `n` in decimal.
pub fn decimal_text(n: u64) -> (text: String)
    ensures
        text@ == decimal(n as nat),
{
    let mut text = String::new();
    push_decimal(&mut text, n);
    assert(text@ =~= decimal(n as nat));
    text
}

/// Appends `text`, which holds one character, `count` times.
pub fn push_run(out: &mut String, text: &str, count: usize)
    requires
        text@.len() == 1,
    ensures
        final(out)@ == old(out)@ + run_of(text@[0], count as int),
{
    let ghost c = text@[0];
    let ghost before = out@;
    let mut i: usize = 0;
    assert(out@ =~= before + run_of(c, 0));
    while i < count
        invariant
            i <= count,
            text@.len() == 1,
            c == text@[0],
            out@ == before + run_of(c, i as int),
        decreases count - i,
    {
        out.append(text);
        i = i + 1;
        assert(out@ =~= before + run_of(c, i as int));
    }
}

/// `v` followed by blanks up to `w` characters.
pub open spec fn padded_right(v: Seq<char>, w: int) -> Seq<char> {
    v + run_of(' ', w - v.len())
}

/// `v` preceded by blanks up to `w` characters.
pub open spec fn padded_left(v: Seq<char>, w: int) -> Seq<char> {
    run_of(' ', w - v.len()) + v
}

fn push_blanks(out: &mut String, count: usize)
    ensures
        final(out)@ == old(out)@ + run_of(' ', count as int),
{
    proof {
        reveal_strlit(" ");
    }
    push_run(out, " ", count);
}

pub fn pad_r(v: &str, w: usize) -> (text: String)
    ensures
        text@ == padded_right(v@, w as int),
{
    let mut text = String::new();
    text.append(v);
    let len: usize = v.unicode_len();
    if len < w {
        push_blanks(&mut text, w - len);
    }
    assert(text@ =~= padded_right(v@, w as int));
    text
}

pub fn pad_l(v: &str, w: usize) -> (text: String)
    ensures
        text@ == padded_left(v@, w as int),
{
    let mut text = String::new();
    let len: usize = v.unicode_len();
    if len < w {
        push_blanks(&mut text, w - len);
    }
    text.append(v);
    assert(text@ =~= padded_left(v@, w as int));
    text
}

/// `n / d`, to the nearest whole number, and to the even one of two that are as near.
pub open spec fn rounded(n: nat, d: nat) -> nat {
    if 2 * (n % d) > d || (2 * (n % d) == d && (n / d) % 2 == 1) {
        n / d + 1
    } else {
        n / d
    }
}

/// The least `unit * 2^k` that splits `b` into fewer than `2^53` steps.
pub open spec fn step_for(b: nat, unit: nat) -> nat
    decreases b - unit,
{
    if unit == 0 || b < 0x20_0000_0000_0000 * unit {
        unit
    } else {
        step_for(b, 2 * unit)
    }
}

/// `b` to the 53 significant bits in which sizes are divided.
pub open spec fn significant(b: nat) -> nat {
    rounded(b, step_for(b, 1)) * step_for(b, 1)
}

/// A number of tenths, with one decimal.
pub open spec fn with_tenth(tenths: nat) -> Seq<char> {
    decimal(tenths / 10) + "."@ + decimal(tenths % 10)
}

/// A size as people read it: whole bytes and kilobytes, tenths of mega- and gigabytes.
pub open spec fn size_text(b: nat) -> Seq<char> {
    if b >= 0x4000_0000 {
        with_tenth(rounded(10 * significant(b), 0x4000_0000)) + " GB"@
    } else if b >= 0x10_0000 {
        with_tenth(rounded(10 * significant(b), 0x10_0000)) + " MB"@
    } else if b >= 0x400 {
        decimal(rounded(significant(b), 0x400)) + " KB"@
    } else {
        decimal(b) + " B"@
    }
}

fn round_div(n: u128, d: u128) -> (q: u128)
    requires
        0 < d <= 0x4000_0000,
        n < 0x100_0000_0000_0000_0000,
    ensures
        q == rounded(n as nat, d as nat),
        q <= n + 1,
{
    let whole: u128 = n / d;
    let rest: u128 = n % d;
    proof {
        assert(whole <= n) by (nonlinear_arith)
            requires
                d > 0,
                whole == n / d,
        ;
    }
    if 2 * rest > d || (2 * rest == d && whole % 2 == 1) {
        whole + 1
    } else {
        whole
    }
}

/// `b` to 53 significant bits.
fn to_significant(b: u64) -> (v: u128)
    ensures
        v == significant(b as nat),
        v <= 0x1_0000_0000_0000_0000,
{
    let mut unit: u128 = 1;
    while b as u128 >= 0x20_0000_0000_0000 * unit
        invariant
            is_step(unit as nat),
            unit == 1 || 0x10_0000_0000_0000 * unit <= b,
            step_for(b as nat, 1) == step_for(b as nat, unit as nat),
        decreases 0x2000 - unit,
    {
        unit = 2 * unit;
    }
    let steps: u128 = round_div(b as u128, unit);
    proof {
        lemma_significant_bound(b as nat, unit as nat);
    }
    steps * unit
}

/// A power of two that 64 bits can need to be cut to 53.
spec fn is_step(unit: nat) -> bool {
    unit == 1 || unit == 2 || unit == 4 || unit == 8 || unit == 16 || unit == 32 || unit == 64
        || unit == 128 || unit == 256 || unit == 512 || unit == 1024 || unit == 2048
}

proof fn lemma_significant_bound(b: nat, unit: nat)
    requires
        b < 0x1_0000_0000_0000_0000,
        is_step(unit),
    ensures
        rounded(b, unit) * unit <= 0x1_0000_0000_0000_0000,
{
    let m = 0x1_0000_0000_0000_0000nat / unit;
    assert(m * unit == 0x1_0000_0000_0000_0000nat) by {
        assert(0x1_0000_0000_0000_0000nat % unit == 0);
        vstd::arithmetic::div_mod::lemma_fundamental_div_mod(
            0x1_0000_0000_0000_0000int,
            unit as int,
        );
        assert(m * unit == unit * m) by (nonlinear_arith);
    }
    let q = b / unit;
    vstd::arithmetic::div_mod::lemma_fundamental_div_mod(b as int, unit as int);
    assert(q + 1 <= m) by (nonlinear_arith)
        requires
            m * unit == 0x1_0000_0000_0000_0000nat,
            b < 0x1_0000_0000_0000_0000nat,
            b == unit * q + b % unit,
            unit > 0,
    ;
    assert((q + 1) * unit <= m * unit) by (nonlinear_arith)
        requires
            q + 1 <= m,
    ;
    assert(q * unit <= (q + 1) * unit) by (nonlinear_arith);
}

fn push_with_tenth(out: &mut String, tenths: u64)
    ensures
        final(out)@ == old(out)@ + with_tenth(tenths as nat),
{
    push_decimal(out, tenths / 10);
    out.append(".");
    push_decimal(out, tenths % 10);
    assert(out@ =~= old(out)@ + with_tenth(tenths as nat));
}

/// A size as people read it.
pub fn fmt_size(b: u64) -> (text: String)
    ensures
        text@ == size_text(b as nat),
{
    let mut text = String::new();
    let v: u128 = to_significant(b);
    if b >= 0x4000_0000 {
        let tenths: u128 = round_div(10 * v, 0x4000_0000);
        proof {
            assert(tenths <= 10 * v / 0x4000_0000 + 1);
        }
        push_with_tenth(&mut text, tenths as u64);
        text.append(" GB");
    } else if b >= 0x10_0000 {
        let tenths: u128 = round_div(10 * v, 0x10_0000);
        proof {
            lemma_exact(b as nat);
            assert(tenths <= 10 * v / 0x10_0000 + 1);
        }
        push_with_tenth(&mut text, tenths as u64);
        text.append(" MB");
    } else if b >= 0x400 {
        let kilobytes: u128 = round_div(v, 0x400);
        proof {
            lemma_exact(b as nat);
            assert(kilobytes <= v / 0x400 + 1);
        }
        push_decimal(&mut text, kilobytes as u64);
        text.append(" KB");
    } else {
        push_decimal(&mut text, b);
        text.append(" B");
    }
    assert(text@ =~= size_text(b as nat));
    text
}

/// Sizes below `2^53` keep all their bits.
proof fn lemma_exact(b: nat)
    requires
        b < 0x20_0000_0000_0000,
    ensures
        significant(b) == b,
{
    assert(step_for(b, 1) == 1);
    assert(rounded(b, 1) == b);
}

/// The text that bytes stand for, each invalid piece replaced by U+FFFD.
pub uninterp spec fn lossy_text(bytes: Seq<u8>) -> Seq<char>;

/// `String::from_utf8_lossy`: valid UTF-8 is decoded as it stands. What replaces an invalid
/// sequence has a name, [`lossy_text`], and no further statement.
#[verifier::external_body]
pub(crate) fn lossy(bytes: &[u8]) -> (text: String)
    ensures
        text@ == lossy_text(bytes@),
        vstd::utf8::valid_utf8(bytes@) ==> text@ == vstd::utf8::decode_utf8(bytes@),
{
    String::from_utf8_lossy(bytes).into_owned()
}

/// A path or a file name as text.
pub fn display(bytes: &[u8]) -> (text: String)
    ensures
        text@ == lossy_text(bytes@),
        vstd::utf8::valid_utf8(bytes@) ==> text@ == vstd::utf8::decode_utf8(bytes@),
{
    lossy(bytes)
}

} // verus!
