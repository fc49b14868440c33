//! Generation of the identifier of a new error.

use vstd::prelude::*;

use rand::RngExt;

use crate::model::{IdGenerator, UuidVersion};
use crate::numeric::{
    digit_char, digits_of, format_u32, parse_u32_chars, parse_u32_text, zero_pad, NumError,
};
use crate::pattern::{
    can_match, char_from_u32, checked_len, find_outside, full_match, has_match, in_ranges,
    in_ranges_exec, len_of, lemma_match_len, match_at, nonempty, parse_pattern, rep_at,
    parse_regex, pattern_outcome, pattern_wf, ranges_wf, rlen, valid_range, Pattern, PatternError,
    Regex,
};
use crate::text::{chars_of, push_all, string_of};

verus! {

/// Why no identifier could be generated.
#[derive(Debug, Clone, Copy, PartialEq, Eq, Structural)]
pub enum IdError {
    /// The last identifier is not a number of the counter's radix.
    Number(NumError),
    /// The custom pattern describes no identifier.
    Pattern(PatternError),
}

/// rand's `ThreadRng`, the thread-local generator, carried through opaque.
#[verifier::external_type_specification]
#[verifier::external_body]
pub struct ExThreadRng(rand::rngs::ThreadRng);

/// rand's `rand::rng`: a handle on the thread-local generator, seeded from
/// the operating system. Nothing is promised of it; it panics if the
/// operating system's random source fails, which no argument can rule out.
#[verifier::external_body]
fn thread_rng() -> rand::rngs::ThreadRng {
    rand::rng()
}

/// rand's `RngExt::random::<u8>`: a uniformly distributed byte. Any byte
/// may come back.
#[verifier::external_body]
fn random_byte(rng: &mut rand::rngs::ThreadRng) -> u8 {
    rng.random::<u8>()
}

/// Whether `c` is an ASCII letter or digit.
pub open spec fn is_ascii_alnum(c: char) -> bool {
    ||| ('0' <= c && c <= '9')
    ||| ('a' <= c && c <= 'z')
    ||| ('A' <= c && c <= 'Z')
}

/// rand's `SampleString::sample_string` for `Alphanumeric`: the source
/// shows that it appends exactly `len` characters, each sampled from
/// `A`-`Z`, `a`-`z`, `0`-`9`. Which characters come is left open.
#[verifier::external_body]
fn sample_alphanumeric(rng: &mut rand::rngs::ThreadRng, len: usize) -> (s: String)
    ensures
        s@.len() == len,
        forall|i: int| 0 <= i < s@.len() ==> is_ascii_alnum(#[trigger] s@[i]),
{
    rand::distr::SampleString::sample_string(&rand::distr::Alphanumeric, rng, len)
}

/// Whether `c` is a lower-case hexadecimal digit.
pub open spec fn is_lower_hex(c: char) -> bool {
    ('0' <= c && c <= '9') || ('a' <= c && c <= 'f')
}

/// Whether `s` is the hyphenated lower-case text of a version 4 UUID:
/// `xxxxxxxx-xxxx-4xxx-Vxxx-xxxxxxxxxxxx` with `V` one of `8`, `9`, `a`, `b`.
pub open spec fn is_uuid_v4_text(s: Seq<char>) -> bool {
    &&& s.len() == 36
    &&& forall|i: int|
        0 <= i < 36 ==> if i == 8 || i == 13 || i == 18 || i == 23 {
            s[i] == '-'
        } else {
            is_lower_hex(#[trigger] s[i])
        }
    &&& s[14] == '4'
    &&& (s[19] == '8' || s[19] == '9' || s[19] == 'a' || s[19] == 'b')
}

/// uuid's `Uuid::new_v4` followed by its `to_string`: a random UUID whose
/// version nibble is 4 and whose variant bits are `10`, written as hyphenated
/// lower-case hexadecimal. Which UUID comes is left open.
#[verifier::external_body]
fn uuid_v4_text() -> (s: String)
    ensures
        is_uuid_v4_text(s@),
{
    uuid::Uuid::new_v4().to_string()
}

/// The two lower-case hexadecimal digits of each byte, in order
/// (`format!("{:02x}", b)` for each byte `b`).
pub open spec fn hex_of_bytes(bs: Seq<u8>) -> Seq<char>
    decreases bs.len(),
{
    if bs.len() == 0 {
        seq![]
    } else {
        hex_of_bytes(bs.drop_last()) + seq![
            digit_char((bs.last() / 16) as nat),
            digit_char((bs.last() % 16) as nat),
        ]
    }
}

/// Whether `s` could come from the random hexadecimal generator: the first
/// `length` hexadecimal digits of `(length + 1) / 2` bytes.
pub open spec fn is_random_hex_id(s: Seq<char>, length: nat) -> bool {
    exists|bs: Seq<u8>|
        #![trigger hex_of_bytes(bs)]
        bs.len() == (length + 1) / 2 && s == hex_of_bytes(bs).take(length as int)
}

/// Whether `s` could come from the random alphanumeric generator.
pub open spec fn is_random_hash_id(s: Seq<char>, length: nat) -> bool {
    &&& s.len() == length
    &&& forall|i: int| 0 <= i < s.len() ==> is_ascii_alnum(#[trigger] s[i])
}

/// What a counter in `radix` writes before its digits: `0x` for
/// hexadecimal (ids `0x1a`, `0x1b`...), nothing for decimal.
pub open spec fn count_prefix(radix: nat) -> Seq<char> {
    if radix == 16 {
        seq!['0', 'x']
    } else {
        seq![]
    }
}

/// The digits of a counter identifier: `last` without its `0x` prefix in
/// hexadecimal (a bare number is read too).
pub open spec fn count_digits(last: Seq<char>, radix: nat) -> Seq<char> {
    if radix == 16 && last.len() >= 2 && last[0] == '0' && last[1] == 'x' {
        last.skip(2)
    } else {
        last
    }
}

/// The identifier that follows `last` in a counter written in `radix` with
/// at least `digits` digits, or why `last` is not a number.
pub open spec fn next_in_count(last: Seq<char>, radix: nat, digits: nat) -> Result<
    Seq<char>,
    IdError,
> {
    match parse_u32_text(count_digits(last, radix), radix) {
        Err(e) => Err(IdError::Number(e)),
        Ok(v) => Ok(count_prefix(radix) + zero_pad(digits_of((v + 1) as nat, radix), digits)),
    }
}

/// Whether the next identifier of a counter would not fit in 32 bits.
pub open spec fn count_overflows(gen: IdGenerator, last: Seq<char>) -> bool {
    match gen {
        IdGenerator::Sequential { .. } => parse_u32_text(count_digits(last, 10), 10) == Ok::<
            u32,
            NumError,
        >(u32::MAX),
        IdGenerator::SequentialHex { .. } => parse_u32_text(count_digits(last, 16), 16) == Ok::<
            u32,
            NumError,
        >(u32::MAX),
        _ => false,
    }
}

/// The characters of a generated identifier, or the error.
pub open spec fn text_result(r: Result<String, IdError>) -> Result<Seq<char>, IdError> {
    match r {
        Ok(s) => Ok(s@),
        Err(e) => Err(e),
    }
}

/// What `generate_id` may give for `gen` after `last`: counters give exactly
/// the next number (hexadecimal ones with `0x` in front), random generators
/// any identifier of their shape, and pattern generators any identifier that
/// matches the pattern in full, or why the pattern describes none.
pub open spec fn is_generated_id(
    gen: IdGenerator,
    last: Seq<char>,
    r: Result<Seq<char>, IdError>,
) -> bool {
    match gen {
        IdGenerator::Sequential { digits } => r == next_in_count(last, 10, digits as nat),
        IdGenerator::SequentialHex { digits } => r == next_in_count(last, 16, digits as nat),
        IdGenerator::RandomHex { length } => r matches Ok(s) && is_random_hex_id(s, length as nat),
        IdGenerator::RandomHash { length } => r matches Ok(s) && is_random_hash_id(
            s,
            length as nat,
        ),
        IdGenerator::Uuid { .. } => r matches Ok(s) && is_uuid_v4_text(s),
        IdGenerator::Custom { regex } => match pattern_outcome(regex@) {
            Err(e) => r == Err::<Seq<char>, IdError>(IdError::Pattern(e)),
            Ok(t) => r matches Ok(s) && full_match(s, t),
        },
    }
}

impl IdGenerator {
    /// The identifier of the next error, given the last one.
    pub fn generate_id(&self, last: &str) -> (r: Result<String, IdError>)
        requires
            !count_overflows(*self, last@),
        ensures
            is_generated_id(*self, last@, text_result(r)),
    {
        match self {
            IdGenerator::Sequential { digits } => Self::sequential(last, *digits),
            IdGenerator::SequentialHex { digits } => Self::sequential_hex(last, *digits),
            IdGenerator::RandomHex { length } => Self::random_hex(*length),
            IdGenerator::RandomHash { length } => Self::random_hash(*length),
            IdGenerator::Custom { regex } => Self::custom(regex),
            IdGenerator::Uuid { version } => Self::uuid(version),
        }
    }

    fn uuid(version: &UuidVersion) -> (r: Result<String, IdError>)
        ensures
            r matches Ok(s) && is_uuid_v4_text(s@),
    {
        match version {
            UuidVersion::V4 => Ok(uuid_v4_text()),
        }
    }

    fn last_count(last: &str, radix: u32) -> (r: Result<u32, NumError>)
        requires
            radix == 10 || radix == 16,
        ensures
            r == parse_u32_text(count_digits(last@, radix as nat), radix as nat),
    {
        let cs = chars_of(last);
        if radix == 16 && cs.len() >= 2 && cs[0] == '0' && cs[1] == 'x' {
            let mut rest: Vec<char> = Vec::new();
            for i in 2..cs.len()
                invariant
                    2 <= cs.len(),
                    rest@ == cs@.subrange(2, i as int),
            {
                rest.push(cs[i]);
                assert(cs@.subrange(2, i + 1) =~= cs@.subrange(2, i as int).push(cs@[i as int]));
            }
            assert(rest@ =~= cs@.skip(2));
            parse_u32_chars(&rest, radix)
        } else {
            parse_u32_chars(&cs, radix)
        }
    }

    /// Whether the identifier after `last` would not fit in 32 bits.
    pub fn next_would_overflow(&self, last: &str) -> (r: bool)
        ensures
            r == count_overflows(*self, last@),
    {
        let radix: u32 = match self {
            IdGenerator::Sequential { .. } => 10,
            IdGenerator::SequentialHex { .. } => 16,
            _ => {
                return false;
            },
        };
        match Self::last_count(last, radix) {
            Ok(v) => v == u32::MAX,
            Err(_) => false,
        }
    }

    fn count(last: &str, radix: u32, digits: u8) -> (r: Result<String, IdError>)
        requires
            radix == 10 || radix == 16,
            parse_u32_text(count_digits(last@, radix as nat), radix as nat) != Ok::<u32, NumError>(
                u32::MAX,
            ),
        ensures
            text_result(r) == next_in_count(last@, radix as nat, digits as nat),
    {
        match Self::last_count(last, radix) {
            Err(e) => Err(IdError::Number(e)),
            Ok(v) => {
                let body = chars_of(format_u32(v + 1, radix, digits as usize).as_str());
                let mut id: Vec<char> = Vec::new();
                if radix == 16 {
                    id.push('0');
                    id.push('x');
                }
                push_all(&mut id, &body);
                assert(id@ =~= count_prefix(radix as nat) + body@);
                Ok(string_of(&id))
            },
        }
    }

    fn sequential(last: &str, digits: u8) -> (r: Result<String, IdError>)
        requires
            parse_u32_text(count_digits(last@, 10), 10) != Ok::<u32, NumError>(u32::MAX),
        ensures
            text_result(r) == next_in_count(last@, 10, digits as nat),
    {
        Self::count(last, 10, digits)
    }

    fn sequential_hex(last: &str, digits: u8) -> (r: Result<String, IdError>)
        requires
            parse_u32_text(count_digits(last@, 16), 16) != Ok::<u32, NumError>(u32::MAX),
        ensures
            text_result(r) == next_in_count(last@, 16, digits as nat),
    {
        Self::count(last, 16, digits)
    }

    /// The first `length` lower-case hexadecimal digits of `bytes`.
    pub fn hex_id_from_bytes(bytes: &Vec<u8>, length: usize) -> (r: String)
        requires
            length <= 2 * bytes.len(),
        ensures
            r@ == hex_of_bytes(bytes@).take(length as int),
    {
        let mut hex: Vec<char> = Vec::new();
        for i in 0..bytes.len()
            invariant
                hex@ == hex_of_bytes(bytes@.take(i as int)),
        {
            let b = bytes[i];
            hex.push(digit_char_of(b / 16));
            hex.push(digit_char_of(b % 16));
            assert(bytes@.take(i + 1).drop_last() =~= bytes@.take(i as int));
        }
        assert(bytes@.take(bytes.len() as int) =~= bytes@);
        proof {
            lemma_hex_len(bytes@);
        }
        let mut out: Vec<char> = Vec::new();
        for i in 0..length
            invariant
                length <= hex@.len(),
                out@ == hex@.take(i as int),
        {
            out.push(hex[i]);
            assert(hex@.take(i + 1) =~= hex@.take(i as int).push(hex@[i as int]));
        }
        string_of(&out)
    }

    fn random_hex(length: u8) -> (r: Result<String, IdError>)
        ensures
            r matches Ok(s) && is_random_hex_id(s@, length as nat),
    {
        let mut rng = thread_rng();
        let n: u8 = length / 2 + length % 2;
        let mut bytes: Vec<u8> = Vec::new();
        for _i in 0..n
            invariant
                bytes.len() == _i,
        {
            bytes.push(random_byte(&mut rng));
        }
        let s = Self::hex_id_from_bytes(&bytes, length as usize);
        assert(hex_of_bytes(bytes@).take(length as int) == s@);
        Ok(s)
    }

    fn random_hash(length: u8) -> (r: Result<String, IdError>)
        ensures
            r matches Ok(s) && is_random_hash_id(s@, length as nat),
    {
        let mut rng = thread_rng();
        Ok(sample_alphanumeric(&mut rng, length as usize))
    }

    fn custom(regex: &str) -> (r: Result<String, IdError>)
        ensures
            match pattern_outcome(regex@) {
                Err(e) => r == Err::<String, IdError>(IdError::Pattern(e)),
                Ok(t) => r matches Ok(s) && full_match(s@, t),
            },
    {
        let t = match parse_regex(regex) {
            Err(e) => {
                return Err(IdError::Pattern(e));
            },
            Ok(t) => t,
        };
        if let Err(e) = crate::pattern::check_len(&t) {
            return Err(IdError::Pattern(e));
        }
        if !has_match(&t, true, true) {
            return Err(IdError::Pattern(PatternError::NoMatch));
        }
        let mut rng = thread_rng();
        let out = generate_match(&mut rng, &t, true, true);
        Ok(string_of(&out))
    }
}

/// rand's `RngExt::random_range(0..n)`: a number below `n`. Which one is
/// left open; it panics for an empty range, which `requires` rules out.
#[verifier::external_body]
fn random_index(rng: &mut rand::rngs::ThreadRng, n: usize) -> (r: usize)
    requires
        n > 0,
    ensures
        r < n,
{
    rng.random_range(0..n)
}

/// A random character of one of the ranges: a range first, then a code
/// point of it (its low end where that point is a surrogate).
fn pick_char(rng: &mut rand::rngs::ThreadRng, ranges: &Vec<(char, char)>) -> (c: char)
    requires
        ranges@.len() > 0,
        ranges_wf(ranges@),
    ensures
        in_ranges(c, ranges@),
{
    let k = random_index(rng, ranges.len());
    let (lo, hi) = ranges[k];
    assert(ranges@[k as int] == (lo, hi));
    assert(valid_range(lo, hi));
    let l: u32 = lo as u32;
    let h: u32 = hi as u32;
    proof {
        vstd::utf8::char_is_scalar(lo);
        vstd::utf8::char_is_scalar(hi);
    }
    let width: u32 = h - l + 1;
    let off = random_index(rng, width as usize) as u32;
    let x: u32 = l + off;
    match char_from_u32(x) {
        Some(c) => c,
        None => lo,
    }
}

/// A random character outside all the ranges: a random code point first
/// (surrogates skipped), and where that one lies in a range, the lowest
/// character outside them.
fn pick_outside(rng: &mut rand::rngs::ThreadRng, ranges: &Vec<(char, char)>) -> (c: char)
    requires
        exists|c: char| !in_ranges(c, ranges@),
    ensures
        !in_ranges(c, ranges@),
{
    let off = random_index(rng, 0x10F800) as u32;
    let x: u32 = if off < 0xD800 {
        off
    } else {
        off + 0x800
    };
    if let Some(c) = char_from_u32(x) {
        if !in_ranges_exec(c, ranges) {
            return c;
        }
    }
    match find_outside(ranges) {
        Some(c) => c,
        None => {
            let ghost w = choose|c: char| !in_ranges(c, ranges@);
            assert(in_ranges(w, ranges@));
            ' '
        },
    }
}

/// An empty piece that matches a pattern of no length, repeated `n`
/// times, is that empty piece.
proof fn lemma_empty_repeat(a: Pattern, n: nat, at_start: bool, at_end: bool)
    requires
        match_at(Seq::<char>::empty(), a, at_start, at_end),
        rlen(a) == 0,
    ensures
        rep_at(Seq::<char>::empty(), a, n, at_start, at_end),
    decreases n,
{
    if n > 0 {
        lemma_empty_repeat(a, (n - 1) as nat, at_start, at_end);
        assert(Seq::<char>::empty().take(0) =~= Seq::<char>::empty());
        assert(Seq::<char>::empty().skip(0) =~= Seq::<char>::empty());
    }
}

/// A random text that matches the pattern, as a piece placed as
/// `match_at` says.
#[verifier::loop_isolation(false)]
fn generate_match(rng: &mut rand::rngs::ThreadRng, r: &Regex, at_start: bool, at_end: bool) -> (out:
    Vec<char>)
    requires
        pattern_wf(r@),
        checked_len(r@) is Ok,
        can_match(r@, at_start, at_end),
    ensures
        match_at(out@, r@, at_start, at_end),
    decreases r,
{
    match r {
        Regex::Empty => Vec::new(),
        Regex::Start => Vec::new(),
        Regex::End => Vec::new(),
        Regex::Class(rs, neg) => {
            let c = if *neg {
                pick_outside(rng, rs)
            } else {
                pick_char(rng, rs)
            };
            let mut v: Vec<char> = Vec::new();
            v.push(c);
            v
        },
        Regex::Concat(a, b) => {
            let la = len_of(&**a);
            let lb = len_of(&**b);
            let mut x = generate_match(rng, &**a, at_start, at_end && lb == 0);
            let y = generate_match(rng, &**b, at_start && la == 0, at_end);
            proof {
                lemma_match_len(x@, a@, at_start, at_end && lb == 0);
                lemma_match_len(y@, b@, at_start && la == 0, at_end);
            }
            let ghost xs = x@;
            crate::text::push_all(&mut x, &y);
            assert(x@.take(rlen(a@) as int) =~= xs);
            assert(x@.skip(rlen(a@) as int) =~= y@);
            x
        },
        Regex::Alt(a, b) => {
            let left = if !has_match(&**b, at_start, at_end) {
                true
            } else if !has_match(&**a, at_start, at_end) {
                false
            } else {
                random_index(rng, 2) == 0
            };
            if left {
                generate_match(rng, &**a, at_start, at_end)
            } else {
                generate_match(rng, &**b, at_start, at_end)
            }
        },
        Regex::Repeat(a, n) => {
            let n = *n;
            if n == 0 {
                assert(rep_at(Seq::<char>::empty(), a@, 0, at_start, at_end));
                return Vec::new();
            }
            if len_of(&**a) == 0 {
                let first = generate_match(rng, &**a, at_start, at_end);
                proof {
                    lemma_match_len(first@, a@, at_start, at_end);
                    assert(first@ =~= Seq::<char>::empty());
                    lemma_empty_repeat(a@, n as nat, at_start, at_end);
                }
                return first;
            }
            let mut out: Vec<char> = Vec::new();
            let mut i: usize = 0;
            while i + 1 < n
                invariant
                    i + 1 <= n,
                    n >= 1,
                    rlen(a@) > 0,
                    i > 0 ==> n >= 2,
                    rep_at(out@, a@, i as nat, at_start, false),
                    out@.len() == rlen(a@) * i,
                decreases n - i,
            {
                let piece = generate_match(rng, &**a, at_start && i == 0, false);
                proof {
                    lemma_match_len(piece@, a@, at_start && i == 0, false);
                }
                let ghost before = out@;
                crate::text::push_all(&mut out, &piece);
                assert(out@.take(out@.len() - rlen(a@)) =~= before);
                assert(out@.skip(out@.len() - rlen(a@)) =~= piece@);
                assert(rlen(a@) * (i + 1) == rlen(a@) * i + rlen(a@)) by (nonlinear_arith);
                assert(rlen(a@) * i == 0 <==> i == 0) by (nonlinear_arith)
                    requires
                        rlen(a@) > 0,
                ;
                i = i + 1;
            }
            let piece = generate_match(rng, &**a, at_start && n == 1, at_end);
            proof {
                lemma_match_len(piece@, a@, at_start && n == 1, at_end);
            }
            let ghost before = out@;
            crate::text::push_all(&mut out, &piece);
            assert(out@.take(out@.len() - rlen(a@)) =~= before);
            assert(out@.skip(out@.len() - rlen(a@)) =~= piece@);
            assert(rlen(a@) * i == 0 <==> i == 0) by (nonlinear_arith)
                requires
                    rlen(a@) > 0,
            ;
            assert(i + 1 == n);
            assert(before.len() == out@.len() - rlen(a@));
            assert(rep_at(out@.take(out@.len() - rlen(a@)), a@, (n - 1) as nat, at_start, false));
            assert(match_at(
                out@.skip(out@.len() - rlen(a@)),
                a@,
                at_start && out@.len() - rlen(a@) == 0,
                at_end,
            ));
            assert(rep_at(out@, a@, n as nat, at_start, at_end));
            out
        },
    }
}

fn digit_char_of(d: u8) -> (c: char)
    requires
        d < 16,
    ensures
        c == digit_char(d as nat),
{
    if d < 10 {
        ('0' as u8 + d) as char
    } else {
        ('a' as u8 + d - 10) as char
    }
}

proof fn lemma_hex_len(bs: Seq<u8>)
    ensures
        hex_of_bytes(bs).len() == 2 * bs.len(),
    decreases bs.len(),
{
    if bs.len() > 0 {
        lemma_hex_len(bs.drop_last());
    }
}


/// A counter generator counts: the identifier it gives after `last` reads
/// back, once its prefix is set aside, as the number one above `last`,
/// whatever the width.
pub proof fn lemma_count_ids_follow(last: Seq<char>, radix: nat, digits: nat, v: u32)
    requires
        radix == 10 || radix == 16,
        parse_u32_text(count_digits(last, radix), radix) == Ok::<u32, NumError>(v),
        v < u32::MAX,
    ensures
        next_in_count(last, radix, digits) matches Ok(s) && s.take(count_prefix(radix).len() as int)
            == count_prefix(radix) && parse_u32_text(count_digits(s, radix), radix) == Ok::<
            u32,
            NumError,
        >((v + 1) as u32),
{
    crate::numeric::lemma_written_number_reads_back((v + 1) as u32, radix, digits);
    let body = zero_pad(digits_of((v + 1) as nat, radix), digits);
    let s = count_prefix(radix) + body;
    assert(s.take(count_prefix(radix).len() as int) =~= count_prefix(radix));
    if radix == 16 {
        assert(s.skip(2) =~= body);
    } else {
        assert(s =~= body);
    }
}

/// The counters count: whenever `last` is a number below `u32::MAX`, any
/// identifier a counter generator may give after it reads back as that
/// number plus one.
pub proof fn lemma_counter_ids_count_up(gen: IdGenerator, last: Seq<char>, id: Seq<char>, v: u32)
    requires
        gen is Sequential || gen is SequentialHex,
        parse_u32_text(
            count_digits(last, if gen is Sequential { 10nat } else { 16nat }),
            if gen is Sequential { 10nat } else { 16nat },
        ) == Ok::<u32, NumError>(v),
        v < u32::MAX,
        is_generated_id(gen, last, Ok(id)),
    ensures
        parse_u32_text(
            count_digits(id, if gen is Sequential { 10nat } else { 16nat }),
            if gen is Sequential { 10nat } else { 16nat },
        ) == Ok::<u32, NumError>((v + 1) as u32),
{
    match gen {
        IdGenerator::Sequential { digits } => lemma_count_ids_follow(last, 10, digits as nat, v),
        IdGenerator::SequentialHex { digits } => lemma_count_ids_follow(last, 16, digits as nat, v),
        _ => {},
    }
}

/// A pattern generator serves every pattern that reads, fixes a length
/// that fits in a machine word, and matches some text: it gives an
/// identifier that matches the pattern in full, of the length the pattern
/// implies.
pub proof fn lemma_custom_ids_have_pattern_length(
    regex: String,
    last: Seq<char>,
    r: Result<Seq<char>, IdError>,
    t: Pattern,
    n: nat,
)
    requires
        parse_pattern(regex@) == Ok::<Pattern, PatternError>(t),
        checked_len(t) == Ok::<nat, PatternError>(n),
        nonempty(t),
        is_generated_id(IdGenerator::Custom { regex }, last, r),
    ensures
        r matches Ok(s) && full_match(s, t) && s.len() == n,
{
    if let Ok(s) = r {
        lemma_match_len(s, t, true, true);
    }
}

} // verus!
