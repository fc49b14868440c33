//! Reading and writing unsigned 32-bit numbers as decimal or hexadecimal
//! text, with the behaviour of `str::parse::<u32>`, `u32::from_str_radix`
//! and the `{:0width$}` / `{:0width$x}` formats.

use vstd::prelude::*;

use crate::text::{chars_of, string_of};

verus! {

/// Why a text is not an unsigned 32-bit number (as `std::num::IntErrorKind`).
#[derive(Debug, Clone, Copy, PartialEq, Eq, Structural)]
pub enum NumError {
    /// The text is empty.
    Empty,
    /// The text holds a character that is not a digit of the radix.
    InvalidDigit,
    /// The number is larger than `u32::MAX`.
    PosOverflow,
}

/// The radixes that identifiers are written in.
pub open spec fn supported_radix(radix: nat) -> bool {
    radix == 10 || radix == 16
}

/// The value of `c` as a digit of `radix` (`char::to_digit`): `0`-`9`, then
/// letters in either case from 10 on.
pub open spec fn digit_of(c: char, radix: nat) -> Option<nat> {
    let v: int = if '0' <= c && c <= '9' {
        c as int - '0' as int
    } else if 'a' <= c && c <= 'z' {
        c as int - 'a' as int + 10
    } else if 'A' <= c && c <= 'Z' {
        c as int - 'A' as int + 10
    } else {
        36
    };
    if v < radix {
        Some(v as nat)
    } else {
        None
    }
}

/// Reads `ds` from the left, starting from the value `acc`: the first
/// character that is no digit gives `InvalidDigit`, the first digit that
/// takes the value past `u32::MAX` gives `PosOverflow`.
pub open spec fn scan_digits(ds: Seq<char>, radix: nat, acc: nat) -> Result<nat, NumError>
    decreases ds.len(),
{
    if ds.len() == 0 {
        Ok(acc)
    } else {
        match digit_of(ds[0], radix) {
            None => Err(NumError::InvalidDigit),
            Some(d) => if acc * radix + d > u32::MAX {
                Err(NumError::PosOverflow)
            } else {
                scan_digits(ds.skip(1), radix, acc * radix + d)
            },
        }
    }
}

/// The number that `s` writes in `radix`, with an optional leading `+`,
/// or why it writes none.
pub open spec fn parse_u32_text(s: Seq<char>, radix: nat) -> Result<u32, NumError> {
    if s.len() == 0 {
        Err(NumError::Empty)
    } else if s.len() == 1 && (s[0] == '+' || s[0] == '-') {
        Err(NumError::InvalidDigit)
    } else {
        let ds = if s[0] == '+' {
            s.skip(1)
        } else {
            s
        };
        match scan_digits(ds, radix, 0) {
            Ok(n) => Ok(n as u32),
            Err(e) => Err(e),
        }
    }
}

/// The lower-case character of the digit `d` (below 16).
pub open spec fn digit_char(d: nat) -> char {
    if d < 10 {
        (('0' as int) + d) as char
    } else {
        (('a' as int) + d - 10) as char
    }
}

/// The digits of `n` in `radix`, most significant first, without leading
/// zeros (`0` is written `0`).
pub open spec fn digits_of(n: nat, radix: nat) -> Seq<char>
    decreases n,
{
    if radix < 2 || n < radix {
        seq![digit_char(n)]
    } else {
        proof {
            assert(n / radix < n) by (nonlinear_arith)
                requires
                    radix >= 2,
                    n >= radix,
            ;
        }
        digits_of(n / radix, radix).push(digit_char(n % radix))
    }
}

/// `s` preceded by as many `0` as it takes to reach `width` characters.
pub open spec fn zero_pad(s: Seq<char>, width: nat) -> Seq<char> {
    if s.len() < width {
        Seq::new((width - s.len()) as nat, |i: int| '0') + s
    } else {
        s
    }
}

fn digit_value(c: char, radix: u32) -> (r: Option<u32>)
    requires
        supported_radix(radix as nat),
    ensures
        match r {
            Some(v) => digit_of(c, radix as nat) == Some(v as nat),
            None => digit_of(c, radix as nat) is None,
        },
{
    let v: u32 = if '0' <= c && c <= '9' {
        (c as u32) - ('0' as u32)
    } else if 'a' <= c && c <= 'z' {
        (c as u32) - ('a' as u32) + 10
    } else if 'A' <= c && c <= 'Z' {
        (c as u32) - ('A' as u32) + 10
    } else {
        36
    };
    if v < radix {
        Some(v)
    } else {
        None
    }
}

/// Reads an unsigned 32-bit number written in `radix` (10 or 16), as
/// `u32::from_str_radix` does.
pub fn parse_u32(s: &str, radix: u32) -> (r: Result<u32, NumError>)
    requires
        supported_radix(radix as nat),
    ensures
        r == parse_u32_text(s@, radix as nat),
{
    parse_u32_chars(&chars_of(s), radix)
}

/// Reads an unsigned 32-bit number, given as characters, written in `radix`.
pub fn parse_u32_chars(cs: &Vec<char>, radix: u32) -> (r: Result<u32, NumError>)
    requires
        supported_radix(radix as nat),
    ensures
        r == parse_u32_text(cs@, radix as nat),
{
    if cs.len() == 0 {
        return Err(NumError::Empty);
    }
    if cs.len() == 1 && (cs[0] == '+' || cs[0] == '-') {
        return Err(NumError::InvalidDigit);
    }
    let start: usize = if cs[0] == '+' {
        1
    } else {
        0
    };
    let ghost ds = if cs@[0] == '+' {
        cs@.skip(1)
    } else {
        cs@
    };
    assert(ds =~= cs@.skip(start as int));
    let mut acc: u32 = 0;
    let mut i: usize = start;
    while i < cs.len()
        invariant
            supported_radix(radix as nat),
            start <= i <= cs.len(),
            parse_u32_text(cs@, radix as nat) == match scan_digits(
                cs@.skip(i as int),
                radix as nat,
                acc as nat,
            ) {
                Ok(n) => Ok(n as u32),
                Err(e) => Err(e),
            },
        decreases cs.len() - i,
    {
        assert(cs@.skip(i as int).skip(1) =~= cs@.skip(i + 1));
        match digit_value(cs[i], radix) {
            None => {
                return Err(NumError::InvalidDigit);
            },
            Some(d) => {
                let wide: u64 = acc as u64 * radix as u64 + d as u64;
                assert(wide == acc * radix + d) by (nonlinear_arith)
                    requires
                        wide == acc as u64 * radix as u64 + d as u64,
                        acc <= u32::MAX,
                        radix <= 16,
                        d < 16,
                ;
                if wide > u32::MAX as u64 {
                    return Err(NumError::PosOverflow);
                }
                acc = wide as u32;
            },
        }
        i = i + 1;
    }
    assert(cs@.skip(i as int) =~= Seq::<char>::empty());
    Ok(acc)
}

fn digit_char_exec(d: u32) -> (c: char)
    requires
        d < 16,
    ensures
        c == digit_char(d as nat),
{
    let ds: [char; 16] = [
        '0', '1', '2', '3', '4', '5', '6', '7', '8', '9', 'a', 'b', 'c', 'd', 'e', 'f',
    ];
    let c = ds[d as usize];
    assert(c == digit_char(d as nat)) by {
        assert(ds@[d as int] == c);
    }
    c
}

/// Writes `n` in `radix` (10 or 16, lower-case letters), left-padded with
/// `0` to at least `width` characters: `format!("{:0width$}", n)` or
/// `format!("{:0width$x}", n)`.
pub fn format_u32(n: u32, radix: u32, width: usize) -> (r: String)
    requires
        supported_radix(radix as nat),
    ensures
        r@ == zero_pad(digits_of(n as nat, radix as nat), width as nat),
{
    let mut tail: Vec<char> = Vec::new();
    let mut m: u32 = n;
    while m >= radix
        invariant
            supported_radix(radix as nat),
            digits_of(n as nat, radix as nat) == digits_of(m as nat, radix as nat) + tail@,
        decreases m,
    {
        let c = digit_char_exec(m % radix);
        tail.insert(0, c);
        assert(digits_of(m as nat, radix as nat) == digits_of((m / radix) as nat, radix as nat).push(
            digit_char((m % radix) as nat),
        ));
        m = m / radix;
    }
    let mut ds: Vec<char> = Vec::new();
    ds.push(digit_char_exec(m));
    let mut rest = tail;
    ds.append(&mut rest);
    assert(ds@ =~= digits_of(n as nat, radix as nat));
    let mut out: Vec<char> = Vec::new();
    let mut k: usize = ds.len();
    while k < width
        invariant
            ds.len() <= k <= width || (width <= ds.len() && k == ds.len()),
            out@ == Seq::new((k - ds.len()) as nat, |i: int| '0'),
        decreases width - k,
    {
        out.push('0');
        k = k + 1;
        assert(out@ =~= Seq::new((k - ds.len()) as nat, |i: int| '0'));
    }
    out.append(&mut ds);
    assert(out@ =~= zero_pad(digits_of(n as nat, radix as nat), width as nat));
    string_of(&out)
}

} // verus!

verus! {

proof fn lemma_digit_char_reads_back(d: nat, radix: nat)
    requires
        supported_radix(radix),
        d < radix,
    ensures
        digit_of(digit_char(d), radix) == Some(d),
        digit_char(d) != '+',
        digit_char(d) != '-',
{
}

proof fn lemma_scan_concat(a: Seq<char>, b: Seq<char>, radix: nat, acc: nat)
    ensures
        scan_digits(a + b, radix, acc) == match scan_digits(a, radix, acc) {
            Ok(x) => scan_digits(b, radix, x),
            Err(e) => Err(e),
        },
    decreases a.len(),
{
    if a.len() == 0 {
        assert(a + b =~= b);
    } else {
        assert((a + b)[0] == a[0]);
        assert((a + b).skip(1) =~= a.skip(1) + b);
        match digit_of(a[0], radix) {
            None => {},
            Some(d) => {
                if acc * radix + d <= u32::MAX {
                    lemma_scan_concat(a.skip(1), b, radix, acc * radix + d);
                }
            },
        }
    }
}

proof fn lemma_scan_written(n: nat, radix: nat)
    requires
        supported_radix(radix),
        n <= u32::MAX,
    ensures
        scan_digits(digits_of(n, radix), radix, 0) == Ok::<nat, NumError>(n),
    decreases n,
{
    if n < radix {
        lemma_digit_char_reads_back(n, radix);
        let ds = digits_of(n, radix);
        assert(ds == seq![digit_char(n)]);
        assert(ds.skip(1) =~= Seq::<char>::empty());
        assert(0 * radix + n == n);
        assert(scan_digits(ds.skip(1), radix, n) == Ok::<nat, NumError>(n));
    } else {
        let q = n / radix;
        let r = n % radix;
        assert(q < n && r < radix && q * radix + r == n) by (nonlinear_arith)
            requires
                radix >= 2,
                n >= radix,
                q == n / radix,
                r == n % radix,
        ;
        lemma_scan_written(q, radix);
        lemma_digit_char_reads_back(r, radix);
        let last = seq![digit_char(r)];
        assert(digits_of(n, radix) =~= digits_of(q, radix) + last);
        lemma_scan_concat(digits_of(q, radix), last, radix, 0);
        assert(last.skip(1) =~= Seq::<char>::empty());
        assert(scan_digits(last.skip(1), radix, n) == Ok::<nat, NumError>(n));
        assert(scan_digits(last, radix, q) == Ok::<nat, NumError>(n));
        assert(scan_digits(digits_of(q, radix) + last, radix, 0) == Ok::<nat, NumError>(n));
    }
}

proof fn lemma_scan_zeros(k: nat, radix: nat)
    requires
        supported_radix(radix),
    ensures
        scan_digits(Seq::new(k, |i: int| '0'), radix, 0) == Ok::<nat, NumError>(0),
    decreases k,
{
    let z = Seq::new(k, |i: int| '0');
    if k > 0 {
        lemma_scan_zeros((k - 1) as nat, radix);
        assert(z.skip(1) =~= Seq::new((k - 1) as nat, |i: int| '0'));
    }
}

/// A number written in decimal or hexadecimal, padded with zeros to any
/// width, reads back as the same number.
pub proof fn lemma_written_number_reads_back(n: u32, radix: nat, width: nat)
    requires
        supported_radix(radix),
    ensures
        parse_u32_text(zero_pad(digits_of(n as nat, radix), width), radix) == Ok::<u32, NumError>(
            n,
        ),
{
    let ds = digits_of(n as nat, radix);
    lemma_scan_written(n as nat, radix);
    lemma_first_digit(n as nat, radix);
    let s = zero_pad(ds, width);
    if ds.len() < width {
        let z = Seq::new((width - ds.len()) as nat, |i: int| '0');
        lemma_scan_zeros((width - ds.len()) as nat, radix);
        lemma_scan_concat(z, ds, radix, 0);
        assert(s[0] == '0');
    } else {
        assert(s[0] == ds[0]);
    }
}

proof fn lemma_first_digit(n: nat, radix: nat)
    requires
        supported_radix(radix),
    ensures
        digits_of(n, radix).len() >= 1,
        digits_of(n, radix)[0] != '+',
        digits_of(n, radix)[0] != '-',
    decreases n,
{
    if n >= radix {
        let q = n / radix;
        assert(q < n) by (nonlinear_arith)
            requires
                radix >= 2,
                n >= radix,
                q == n / radix,
        ;
        lemma_first_digit(q, radix);
    } else {
        lemma_digit_char_reads_back(n, radix);
    }
}

} // verus!
