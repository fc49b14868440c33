//! Identifier patterns: regular expressions whose length the pattern
//! implies, and what it takes for a text to match one in full.
//!
//! Read: literal characters (`]` and `}` included), `.` (any character but
//! a line break), the escapes `\d` and `\w` (their ASCII characters), `\s`
//! (Unicode white space) and `\S`, `\n`, `\t`, `\r`, `\f`, `\v`, `\a`, the
//! hexadecimal escapes `\xHH`, `\uHHHH`, `\UHHHHHHHH` and `\x{H..}`, and
//! escaped punctuation, classes `[...]` and negated classes `[^...]` with
//! ranges (a `]` first in a class is literal), groups `(...)`, `(?:...)`,
//! `(?<name>...)` and `(?P<name>...)` (names of ASCII letters, digits and
//! `_`), alternation `|`, repetition `{n}` and `{n,n}` for any count a
//! machine word holds, and the anchors `^` and `\A` (start of the text) and
//! `$` and `\z` (end of the text) wherever they stand. A pattern whose
//! branches differ in length, or that repeats with `*`, `+`, `?`, `{n,}` or
//! `{n,m}` with `n < m`, implies no length. Flags, `\b`, `\p{..}`, `\D`,
//! `\W`, nested classes and class operators are refused.

use vstd::prelude::*;

verus! {

/// Why a pattern gives no identifier.
#[derive(Debug, Clone, Copy, PartialEq, Eq, Structural)]
pub enum PatternError {
    /// A construct outside the supported language.
    Unsupported,
    /// The pattern does not fix the identifier's length.
    VariableLength,
    /// The pattern is not well formed.
    Malformed,
    /// A count or a length does not fit in a machine word.
    TooLong,
    /// No text matches the pattern.
    NoMatch,
}

/// A pattern, as a tree: the empty text, the start and the end of the
/// text (`^`, `$`), a character class (ranges, and whether it is negated),
/// concatenation, alternation, repetition.
pub enum Pattern {
    Empty,
    Start,
    End,
    Class(Seq<(char, char)>, bool),
    Concat(Box<Pattern>, Box<Pattern>),
    Alt(Box<Pattern>, Box<Pattern>),
    Repeat(Box<Pattern>, nat),
}

/// An open group while a pattern is read: the branches closed so far, the
/// concatenation so far, and the last atom (which a count may follow).
pub struct PFrame {
    pub alt: Option<Pattern>,
    pub cur: Pattern,
    pub pending: Option<Pattern>,
}

/// Whether `lo..=hi` is a non-empty range.
pub open spec fn valid_range(lo: char, hi: char) -> bool {
    (lo as u32) <= (hi as u32)
}

/// Whether `c` lies in one of the ranges.
pub open spec fn in_ranges(c: char, rs: Seq<(char, char)>) -> bool {
    exists|i: int|
        0 <= i < rs.len() && ((#[trigger] rs[i]).0 as u32) <= (c as u32) && (c as u32) <= (
        rs[i].1 as u32)
}

/// Whether all ranges are valid.
pub open spec fn ranges_wf(rs: Seq<(char, char)>) -> bool {
    forall|j: int| 0 <= j < rs.len() ==> valid_range(#[trigger] rs[j].0, rs[j].1)
}

/// The Unicode white space characters, as ranges.
pub open spec fn space_ranges() -> Seq<(char, char)> {
    seq![
        ('\t', '\r'),
        (' ', ' '),
        ('\u{85}', '\u{85}'),
        ('\u{a0}', '\u{a0}'),
        ('\u{1680}', '\u{1680}'),
        ('\u{2000}', '\u{200a}'),
        ('\u{2028}', '\u{2029}'),
        ('\u{202f}', '\u{202f}'),
        ('\u{205f}', '\u{205f}'),
        ('\u{3000}', '\u{3000}'),
    ]
}

/// The class an escape `\c` stands for, and whether it is negated; `None`
/// for the escapes that are not supported.
pub open spec fn escape_class(c: char) -> Option<(Seq<(char, char)>, bool)> {
    if c == 'd' {
        Some((seq![('0', '9')], false))
    } else if c == 'w' {
        Some((seq![('0', '9'), ('A', 'Z'), ('_', '_'), ('a', 'z')], false))
    } else if c == 's' {
        Some((space_ranges(), false))
    } else if c == 'S' {
        Some((space_ranges(), true))
    } else if c == 'n' {
        Some((seq![('\n', '\n')], false))
    } else if c == 't' {
        Some((seq![('\t', '\t')], false))
    } else if c == 'r' {
        Some((seq![('\r', '\r')], false))
    } else if c == 'f' {
        Some((seq![('\u{c}', '\u{c}')], false))
    } else if c == 'v' {
        Some((seq![('\u{b}', '\u{b}')], false))
    } else if c == 'a' {
        Some((seq![('\u{7}', '\u{7}')], false))
    } else if ('0' <= c && c <= '9') || ('a' <= c && c <= 'z') || ('A' <= c && c <= 'Z') {
        None
    } else {
        Some((seq![(c, c)], false))
    }
}

/// Whether a class operator (`&&`, `--`, `~~`) starts at position `i`.
pub open spec fn is_set_operator(p: Seq<char>, i: int) -> bool {
    &&& 0 <= i && i + 1 < p.len()
    &&& p[i] == p[i + 1]
    &&& (p[i] == '&' || p[i] == '-' || p[i] == '~')
}

/// The value of hexadecimal digit `c`, if it is one.
pub open spec fn hex_value(c: char) -> Option<nat> {
    if '0' <= c && c <= '9' {
        Some((c as int - '0' as int) as nat)
    } else if 'a' <= c && c <= 'f' {
        Some((c as int - 'a' as int + 10) as nat)
    } else if 'A' <= c && c <= 'F' {
        Some((c as int - 'A' as int + 10) as nat)
    } else {
        None
    }
}

/// Exactly `left` more hexadecimal digits from position `k`, read on top
/// of `acc`, and the position after them; a value past the last code point
/// is refused as it grows.
pub open spec fn hex_fixed(p: Seq<char>, k: int, left: nat, acc: nat) -> Result<
    (nat, int),
    PatternError,
>
    decreases left,
{
    if left == 0 {
        Ok((acc, k))
    } else if k < 0 || k >= p.len() {
        Err(PatternError::Malformed)
    } else {
        match hex_value(p[k]) {
            None => Err(PatternError::Malformed),
            Some(d) => if acc * 16 + d > 0x10FFFF {
                Err(PatternError::Malformed)
            } else {
                hex_fixed(p, k + 1, (left - 1) as nat, acc * 16 + d)
            },
        }
    }
}

/// Hexadecimal digits from position `k` up to `}`, read on top of `acc`
/// (`seen`: a digit came already), and the position after the `}`; a
/// value past the last code point is refused as it grows.
pub open spec fn hex_braced(p: Seq<char>, k: int, acc: nat, seen: bool) -> Result<
    (nat, int),
    PatternError,
>
    decreases p.len() - k,
{
    if k < 0 || k >= p.len() {
        Err(PatternError::Malformed)
    } else if p[k] == '}' && seen {
        Ok((acc, k + 1))
    } else {
        match hex_value(p[k]) {
            None => Err(PatternError::Malformed),
            Some(d) => if acc * 16 + d > 0x10FFFF {
                Err(PatternError::Malformed)
            } else {
                hex_braced(p, k + 1, acc * 16 + d, true)
            },
        }
    }
}

/// Whether `v` is the code point of a character.
pub open spec fn is_code_point(v: nat) -> bool {
    v <= 0x10FFFF && !(0xD800 <= v && v <= 0xDFFF)
}

/// The character a hexadecimal escape names (`\xHH`, `\uHHHH`,
/// `\UHHHHHHHH`, or any of them with the digits in braces), `k` the
/// position of its letter, and the position after it.
pub open spec fn hex_escape(p: Seq<char>, k: int) -> Result<(char, int), PatternError> {
    let width: nat = if p[k] == 'x' {
        2
    } else if p[k] == 'u' {
        4
    } else {
        8
    };
    let r = if k + 1 < p.len() && p[k + 1] == '{' {
        hex_braced(p, k + 2, 0, false)
    } else {
        hex_fixed(p, k + 1, width, 0)
    };
    match r {
        Err(e) => Err(e),
        Ok((v, j)) => if is_code_point(v) {
            Ok(((v as u32) as char, j))
        } else {
            Err(PatternError::Malformed)
        },
    }
}

/// The escape whose `\` is at position `i`: the ranges it stands for,
/// whether they are negated, and the position after it.
pub open spec fn escape_at(p: Seq<char>, i: int) -> Result<(Seq<(char, char)>, bool, int), PatternError> {
    if i + 1 >= p.len() {
        Err(PatternError::Malformed)
    } else if p[i + 1] == 'x' || p[i + 1] == 'u' || p[i + 1] == 'U' {
        match hex_escape(p, i + 1) {
            Err(e) => Err(e),
            Ok((c, j)) => Ok((seq![(c, c)], false, j)),
        }
    } else {
        match escape_class(p[i + 1]) {
            None => Err(PatternError::Unsupported),
            Some((set, n)) => Ok((set, n, i + 2)),
        }
    }
}

/// Whether ranges are one single character.
pub open spec fn is_single(set: Seq<(char, char)>) -> bool {
    set.len() == 1 && set[0].0 == set[0].1
}

/// The upper end of a class range at position `k`: a character or an
/// escape naming one, and the position after it.
pub open spec fn range_end(p: Seq<char>, k: int) -> Result<(char, int), PatternError> {
    if p[k] == '\\' {
        match escape_at(p, k) {
            Err(e) => Err(e),
            Ok((set, n, j)) => if !n && is_single(set) {
                Ok((set[0].0, j))
            } else {
                Err(PatternError::Unsupported)
            },
        }
    } else if p[k] == '[' {
        Err(PatternError::Unsupported)
    } else {
        Ok((p[k], k + 1))
    }
}

/// One item of a class at position `i` (a character, an escape, or a
/// range between two characters), as ranges, and the position after it;
/// `neg` tells whether the class is negated (`\d` and `\w` are then
/// refused).
pub open spec fn class_item(p: Seq<char>, i: int, neg: bool) -> Result<
    (Seq<(char, char)>, int),
    PatternError,
> {
    let head = if p[i] == '\\' {
        if i + 1 < p.len() && neg && (p[i + 1] == 'd' || p[i + 1] == 'w') {
            Err(PatternError::Unsupported)
        } else {
            escape_at(p, i)
        }
    } else {
        Ok((seq![(p[i], p[i])], false, i + 1))
    };
    match head {
        Err(e) => Err(e),
        Ok((set, n, j)) => if n {
            Err(PatternError::Unsupported)
        } else if j + 1 < p.len() && p[j] == '-' && p[j + 1] != ']' {
            if !is_single(set) {
                Err(PatternError::Unsupported)
            } else {
                match range_end(p, j + 1) {
                    Err(e) => Err(e),
                    Ok((hi, k)) => if valid_range(set[0].0, hi) {
                        Ok((seq![(set[0].0, hi)], k))
                    } else {
                        Err(PatternError::Malformed)
                    },
                }
            }
        } else {
            Ok((set, j))
        },
    }
}

proof fn lemma_hex_fixed_advances(p: Seq<char>, k: int, left: nat, acc: nat)
    ensures
        hex_fixed(p, k, left, acc) matches Ok((_, j)) ==> j == k + left && j <= p.len() || left
            == 0 && j == k,
    decreases left,
{
    if left > 0 && 0 <= k < p.len() {
        if let Some(d) = hex_value(p[k]) {
            lemma_hex_fixed_advances(p, k + 1, (left - 1) as nat, acc * 16 + d);
        }
    }
}

proof fn lemma_hex_braced_advances(p: Seq<char>, k: int, acc: nat, seen: bool)
    ensures
        hex_braced(p, k, acc, seen) matches Ok((_, j)) ==> k < j <= p.len(),
    decreases p.len() - k,
{
    if 0 <= k < p.len() && !(p[k] == '}' && seen) {
        if let Some(d) = hex_value(p[k]) {
            lemma_hex_braced_advances(p, k + 1, acc * 16 + d, true);
        }
    }
}

/// An escape that reads ends after its `\`, within the pattern.
pub proof fn lemma_escape_advances(p: Seq<char>, i: int)
    requires
        0 <= i,
    ensures
        escape_at(p, i) matches Ok((_, _, j)) ==> i + 1 < j <= p.len(),
{
    if i + 1 < p.len() && (p[i + 1] == 'x' || p[i + 1] == 'u' || p[i + 1] == 'U') {
        lemma_hex_braced_advances(p, i + 3, 0, false);
        let width: nat = if p[i + 1] == 'x' {
            2
        } else if p[i + 1] == 'u' {
            4
        } else {
            8
        };
        lemma_hex_fixed_advances(p, i + 2, width, 0);
    }
}

/// A class item that reads ends after where it starts, within the pattern.
pub proof fn lemma_item_advances(p: Seq<char>, i: int, neg: bool)
    requires
        0 <= i < p.len(),
    ensures
        class_item(p, i, neg) matches Ok((_, j)) ==> i < j <= p.len(),
{
    lemma_escape_advances(p, i);
    if p[i] == '\\' {
        if let Ok((_, _, j)) = escape_at(p, i) {
            if j + 1 < p.len() {
                lemma_escape_advances(p, j + 1);
            }
        }
    } else if i + 2 < p.len() {
        lemma_escape_advances(p, i + 2);
    }
}

/// The items of a class from position `i`, added to `acc`, and the position
/// after the closing `]`. `first` tells whether no item came yet (a `]`
/// there is literal).
pub open spec fn parse_class(
    p: Seq<char>,
    i: int,
    acc: Seq<(char, char)>,
    neg: bool,
    first: bool,
) -> Result<(Seq<(char, char)>, int), PatternError>
    decreases p.len() - i,
{
    if i < 0 || i >= p.len() {
        Err(PatternError::Malformed)
    } else if p[i] == ']' && !first {
        Ok((acc, i + 1))
    } else if p[i] == '[' || is_set_operator(p, i) {
        Err(PatternError::Unsupported)
    } else {
        match class_item(p, i, neg) {
            Err(e) => Err(e),
            Ok((set, j)) => {
                proof {
                    lemma_item_advances(p, i, neg);
                }
                parse_class(p, j, acc + set, neg, false)
            },
        }
    }
}

/// The atom at position `i` (not a group, a `|`, a `)` or a repetition),
/// and the position after it.
pub open spec fn parse_atom(p: Seq<char>, i: int) -> Result<(Pattern, int), PatternError> {
    if i < 0 || i >= p.len() {
        Err(PatternError::Malformed)
    } else {
        let c = p[i];
        if c == '\\' && i + 1 < p.len() && p[i + 1] == 'A' {
            Ok((Pattern::Start, i + 2))
        } else if c == '\\' && i + 1 < p.len() && p[i + 1] == 'z' {
            Ok((Pattern::End, i + 2))
        } else if c == '\\' {
            match escape_at(p, i) {
                Err(e) => Err(e),
                Ok((set, n, j)) => Ok((Pattern::Class(set, n), j)),
            }
        } else if c == '[' {
            let neg = i + 1 < p.len() && p[i + 1] == '^';
            match parse_class(p, if neg { i + 2 } else { i + 1 }, seq![], neg, true) {
                Err(e) => Err(e),
                Ok((set, j)) => Ok((Pattern::Class(set, neg), j)),
            }
        } else if c == '.' {
            Ok((Pattern::Class(seq![('\n', '\n')], true), i + 1))
        } else if c == '^' {
            Ok((Pattern::Start, i + 1))
        } else if c == '$' {
            Ok((Pattern::End, i + 1))
        } else {
            Ok((Pattern::Class(seq![(c, c)], false), i + 1))
        }
    }
}

/// A class that parses ends after where it starts, within the pattern.
pub proof fn lemma_class_advances(
    p: Seq<char>,
    i: int,
    acc: Seq<(char, char)>,
    neg: bool,
    first: bool,
)
    ensures
        parse_class(p, i, acc, neg, first) matches Ok((_, j)) ==> i < j <= p.len(),
    decreases p.len() - i,
{
    if 0 <= i < p.len() && !(p[i] == ']' && !first) && p[i] != '[' && !is_set_operator(p, i) {
        lemma_item_advances(p, i, neg);
        if let Ok((set, j)) = class_item(p, i, neg) {
            lemma_class_advances(p, j, acc + set, neg, false);
        }
    }
}

/// An atom that parses ends after where it starts, within the pattern.
pub proof fn lemma_atom_advances(p: Seq<char>, i: int)
    ensures
        parse_atom(p, i) matches Ok((_, j)) ==> i < j <= p.len(),
{
    if 0 <= i < p.len() && p[i] == '\\' {
        lemma_escape_advances(p, i);
    }
    if 0 <= i < p.len() && p[i] == '[' {
        let neg = i + 1 < p.len() && p[i + 1] == '^';
        lemma_class_advances(p, if neg { i + 2 } else { i + 1 }, seq![], neg, true);
    }
}

/// The digits of a count from position `k` up to `}`, read on top of
/// `acc`; `seen` tells whether a digit came already.
pub open spec fn parse_count(p: Seq<char>, k: int, acc: nat, seen: bool) -> Result<
    (nat, int),
    PatternError,
>
    decreases p.len() - k,
{
    if k < 0 || k >= p.len() {
        Err(PatternError::Malformed)
    } else if '0' <= p[k] && p[k] <= '9' {
        let a = acc * 10 + (p[k] as int - '0' as int) as nat;
        if a > usize::MAX {
            Err(PatternError::TooLong)
        } else {
            parse_count(p, k + 1, a, true)
        }
    } else if p[k] == ',' {
        if !seen {
            Err(PatternError::VariableLength)
        } else {
            match parse_upper(p, k + 1, 0, false) {
                Err(e) => Err(e),
                Ok((None, _)) => Err(PatternError::VariableLength),
                Ok((Some(m), j)) => if m < acc {
                    Err(PatternError::Malformed)
                } else if m > acc {
                    Err(PatternError::VariableLength)
                } else {
                    Ok((acc, j))
                },
            }
        }
    } else if p[k] == '}' && seen {
        Ok((acc, k + 1))
    } else {
        Err(PatternError::Malformed)
    }
}

/// The upper bound of a count `{n,m}`, its digits read from position `k`
/// on top of `acc` (`seen`: a digit came already) up to `}`, and the
/// position after the `}`; `None` for a count without an upper bound.
pub open spec fn parse_upper(p: Seq<char>, k: int, acc: nat, seen: bool) -> Result<
    (Option<nat>, int),
    PatternError,
>
    decreases p.len() - k,
{
    if k < 0 || k >= p.len() {
        Err(PatternError::Malformed)
    } else if '0' <= p[k] && p[k] <= '9' {
        let a = acc * 10 + (p[k] as int - '0' as int) as nat;
        if a > usize::MAX {
            Err(PatternError::TooLong)
        } else {
            parse_upper(p, k + 1, a, true)
        }
    } else if p[k] == '}' {
        Ok(
            (
                if seen {
                    Some(acc)
                } else {
                    None
                },
                k + 1,
            ),
        )
    } else {
        Err(PatternError::Malformed)
    }
}

proof fn lemma_upper_advances(p: Seq<char>, k: int, acc: nat, seen: bool)
    ensures
        parse_upper(p, k, acc, seen) matches Ok((_, j)) ==> k < j <= p.len(),
    decreases p.len() - k,
{
    if 0 <= k < p.len() && '0' <= p[k] && p[k] <= '9' {
        let a = acc * 10 + (p[k] as int - '0' as int) as nat;
        lemma_upper_advances(p, k + 1, a, true);
    }
}

/// A count that parses ends after where it starts, within the pattern.
pub proof fn lemma_count_advances(p: Seq<char>, k: int, acc: nat, seen: bool)
    ensures
        parse_count(p, k, acc, seen) matches Ok((_, j)) ==> k < j <= p.len(),
    decreases p.len() - k,
{
    if 0 <= k < p.len() && '0' <= p[k] && p[k] <= '9' {
        let a = acc * 10 + (p[k] as int - '0' as int) as nat;
        lemma_count_advances(p, k + 1, a, true);
    }
    lemma_upper_advances(p, k + 1, 0, false);
}

/// The position after the `>` that ends a group's name, the name read
/// from position `k` (`first`: no character of it came yet). A name is
/// ASCII letters, digits and `_`, not starting with a digit.
pub open spec fn name_end(p: Seq<char>, k: int, first: bool) -> Result<int, PatternError>
    decreases p.len() - k,
{
    if k < 0 || k >= p.len() {
        Err(PatternError::Malformed)
    } else if p[k] == '>' {
        if first {
            Err(PatternError::Malformed)
        } else {
            Ok(k + 1)
        }
    } else if p[k] == '_' || ('a' <= p[k] && p[k] <= 'z') || ('A' <= p[k] && p[k] <= 'Z') || (!first
        && '0' <= p[k] && p[k] <= '9') {
        name_end(p, k + 1, false)
    } else {
        Err(PatternError::Unsupported)
    }
}

/// Where the inside of the group opened at position `i` starts: after
/// `(`, `(?:`, `(?<name>` or `(?P<name>`; other groups with `?` (flags)
/// are refused.
pub open spec fn group_start(p: Seq<char>, i: int) -> Result<int, PatternError> {
    if i + 1 < p.len() && p[i + 1] == '?' {
        if i + 2 < p.len() && p[i + 2] == ':' {
            Ok(i + 3)
        } else if i + 2 < p.len() && p[i + 2] == '<' {
            name_end(p, i + 3, true)
        } else if i + 3 < p.len() && p[i + 2] == 'P' && p[i + 3] == '<' {
            name_end(p, i + 4, true)
        } else {
            Err(PatternError::Unsupported)
        }
    } else {
        Ok(i + 1)
    }
}

proof fn lemma_name_advances(p: Seq<char>, k: int, first: bool)
    ensures
        name_end(p, k, first) matches Ok(j) ==> k < j <= p.len(),
    decreases p.len() - k,
{
    if 0 <= k < p.len() && p[k] != '>' {
        lemma_name_advances(p, k + 1, false);
    }
}

/// A group opener that reads ends after where it starts, within the
/// pattern.
pub proof fn lemma_group_advances(p: Seq<char>, i: int)
    requires
        0 <= i < p.len(),
    ensures
        group_start(p, i) matches Ok(j) ==> i < j <= p.len(),
{
    lemma_name_advances(p, i + 3, true);
    lemma_name_advances(p, i + 4, true);
}

/// A new, empty group.
pub open spec fn new_frame() -> PFrame {
    PFrame { alt: None, cur: Pattern::Empty, pending: None }
}

/// The concatenation of a group, its last atom included.
pub open spec fn flush(f: PFrame) -> Pattern {
    match f.pending {
        Some(a) => Pattern::Concat(Box::new(f.cur), Box::new(a)),
        None => f.cur,
    }
}

/// A finished group: its branches, the last one included.
pub open spec fn close(f: PFrame) -> Pattern {
    match f.alt {
        Some(a) => Pattern::Alt(Box::new(a), Box::new(flush(f))),
        None => flush(f),
    }
}

/// A group that takes `a` as its new last atom.
pub open spec fn with_atom(f: PFrame, a: Pattern) -> PFrame {
    PFrame { alt: f.alt, cur: flush(f), pending: Some(a) }
}

/// Reads the pattern from position `i`, with `frames` the groups open so
/// far (the outermost first).
pub open spec fn parse_from(p: Seq<char>, i: int, frames: Seq<PFrame>) -> Result<Pattern, PatternError>
    decreases p.len() - i,
{
    if frames.len() == 0 {
        Err(PatternError::Malformed)
    } else if i < 0 || i >= p.len() {
        if frames.len() == 1 {
            Ok(close(frames[0]))
        } else {
            Err(PatternError::Malformed)
        }
    } else {
        let f = frames.last();
        let rest = frames.drop_last();
        let c = p[i];
        if c == '(' {
            match group_start(p, i) {
                Err(e) => Err(e),
                Ok(j) => {
                    proof {
                        lemma_group_advances(p, i);
                    }
                    parse_from(p, j, frames.push(new_frame()))
                },
            }
        } else if c == ')' {
            if rest.len() == 0 {
                Err(PatternError::Malformed)
            } else {
                parse_from(p, i + 1, rest.drop_last().push(with_atom(rest.last(), close(f))))
            }
        } else if c == '|' {
            parse_from(p, i + 1, rest.push(PFrame { alt: Some(close(f)), cur: Pattern::Empty, pending: None }))
        } else if c == '*' || c == '+' || c == '?' {
            if f.pending is Some {
                Err(PatternError::VariableLength)
            } else {
                Err(PatternError::Malformed)
            }
        } else if c == '{' {
            match f.pending {
                None => Err(PatternError::Malformed),
                Some(a) => match parse_count(p, i + 1, 0, false) {
                    Err(e) => Err(e),
                    Ok((n, k)) => {
                        proof {
                            lemma_count_advances(p, i + 1, 0, false);
                        }
                        // `{n}?` repeats as `{n}` does
                        let next = if k < p.len() && p[k] == '?' {
                            k + 1
                        } else {
                            k
                        };
                        parse_from(
                            p,
                            next,
                            rest.push(
                                PFrame {
                                    alt: f.alt,
                                    cur: Pattern::Concat(
                                        Box::new(f.cur),
                                        Box::new(Pattern::Repeat(Box::new(a), n)),
                                    ),
                                    pending: None,
                                },
                            ),
                        )
                    },
                },
            }
        } else {
            match parse_atom(p, i) {
                Err(e) => Err(e),
                Ok((a, j)) => {
                    proof {
                        lemma_atom_advances(p, i);
                    }
                    parse_from(p, j, rest.push(with_atom(f, a)))
                },
            }
        }
    }
}

/// The tree a pattern reads as, or why it reads as none.
pub open spec fn parse_pattern(p: Seq<char>) -> Result<Pattern, PatternError> {
    parse_from(p, 0, seq![new_frame()])
}

/// The length of the texts a pattern matches, read from left to right:
/// branches of different lengths imply none, and lengths past a machine
/// word are too long.
pub open spec fn checked_len(r: Pattern) -> Result<nat, PatternError>
    decreases r,
{
    match r {
        Pattern::Class(_, _) => Ok(1),
        Pattern::Concat(a, b) => match checked_len(*a) {
            Err(e) => Err(e),
            Ok(la) => match checked_len(*b) {
                Err(e) => Err(e),
                Ok(lb) => if la + lb > usize::MAX {
                    Err(PatternError::TooLong)
                } else {
                    Ok(la + lb)
                },
            },
        },
        Pattern::Alt(a, b) => match checked_len(*a) {
            Err(e) => Err(e),
            Ok(la) => match checked_len(*b) {
                Err(e) => Err(e),
                Ok(lb) => if la != lb {
                    Err(PatternError::VariableLength)
                } else {
                    Ok(la)
                },
            },
        },
        Pattern::Repeat(a, n) => match checked_len(*a) {
            Err(e) => Err(e),
            Ok(la) => if la * n > usize::MAX {
                Err(PatternError::TooLong)
            } else {
                Ok(la * n)
            },
        },
        _ => Ok(0),
    }
}

/// The length of the texts a pattern of fixed length matches.
pub open spec fn rlen(r: Pattern) -> nat
    decreases r,
{
    match r {
        Pattern::Class(_, _) => 1,
        Pattern::Concat(a, b) => rlen(*a) + rlen(*b),
        Pattern::Alt(a, _) => rlen(*a),
        Pattern::Repeat(a, n) => rlen(*a) * n,
        _ => 0,
    }
}

/// Whether `s` matches the pattern, as a piece of a text that starts where
/// `s` starts when `at_start` holds and ends where `s` ends when `at_end`
/// holds.
pub open spec fn match_at(s: Seq<char>, r: Pattern, at_start: bool, at_end: bool) -> bool
    decreases r, 0nat,
{
    match r {
        Pattern::Empty => s.len() == 0,
        Pattern::Start => s.len() == 0 && at_start,
        Pattern::End => s.len() == 0 && at_end,
        Pattern::Class(rs, neg) => s.len() == 1 && in_ranges(s[0], rs) != neg,
        Pattern::Concat(a, b) => {
            let k = rlen(*a);
            &&& s.len() >= k
            &&& match_at(s.take(k as int), *a, at_start, at_end && s.len() == k)
            &&& match_at(s.skip(k as int), *b, at_start && k == 0, at_end)
        },
        Pattern::Alt(a, b) => match_at(s, *a, at_start, at_end) || match_at(s, *b, at_start, at_end),
        Pattern::Repeat(a, n) => rep_at(s, *a, n, at_start, at_end),
    }
}

/// Whether `s` is `n` pieces in a row, each matching `a`, as a piece of a
/// text placed as `match_at` says.
pub open spec fn rep_at(s: Seq<char>, a: Pattern, n: nat, at_start: bool, at_end: bool) -> bool
    decreases a, n,
{
    if n == 0 {
        s.len() == 0
    } else {
        let k = (s.len() - rlen(a)) as int;
        &&& s.len() >= rlen(a)
        &&& rep_at(s.take(k), a, (n - 1) as nat, at_start, at_end && rlen(a) == 0)
        &&& match_at(s.skip(k), a, at_start && k == 0, at_end)
    }
}

/// Whether `s` matches the pattern in full.
pub open spec fn full_match(s: Seq<char>, r: Pattern) -> bool {
    match_at(s, r, true, true)
}

/// Whether some text matches the pattern, as a piece placed as `match_at`
/// says, for a pattern of checked length.
pub open spec fn can_match(r: Pattern, at_start: bool, at_end: bool) -> bool
    decreases r,
{
    match r {
        Pattern::Empty => true,
        Pattern::Start => at_start,
        Pattern::End => at_end,
        Pattern::Class(rs, neg) => exists|c: char| in_ranges(c, rs) != neg,
        Pattern::Concat(a, b) => can_match(*a, at_start, at_end && rlen(*b) == 0) && can_match(
            *b,
            at_start && rlen(*a) == 0,
            at_end,
        ),
        Pattern::Alt(a, b) => can_match(*a, at_start, at_end) || can_match(*b, at_start, at_end),
        Pattern::Repeat(a, n) => n == 0 || if rlen(*a) == 0 || n == 1 {
            can_match(*a, at_start, at_end)
        } else {
            &&& can_match(*a, at_start, false)
            &&& can_match(*a, false, at_end)
            &&& (n >= 3 ==> can_match(*a, false, false))
        },
    }
}

/// Whether some text matches the pattern in full.
pub open spec fn nonempty(r: Pattern) -> bool {
    can_match(r, true, true)
}

/// Whether every class has valid ranges and a plain class at least one.
pub open spec fn pattern_wf(r: Pattern) -> bool
    decreases r,
{
    match r {
        Pattern::Class(rs, neg) => ranges_wf(rs) && (neg || rs.len() > 0),
        Pattern::Concat(a, b) => pattern_wf(*a) && pattern_wf(*b),
        Pattern::Alt(a, b) => pattern_wf(*a) && pattern_wf(*b),
        Pattern::Repeat(a, _) => pattern_wf(*a),
        _ => true,
    }
}

/// What a pattern gives: the tree of a pattern that reads, fixes its
/// length, fits in a machine word and matches some text, or why it gives
/// no identifier.
pub open spec fn pattern_outcome(p: Seq<char>) -> Result<Pattern, PatternError> {
    match parse_pattern(p) {
        Err(e) => Err(e),
        Ok(r) => match checked_len(r) {
            Err(e) => Err(e),
            Ok(_) => if nonempty(r) {
                Ok(r)
            } else {
                Err(PatternError::NoMatch)
            },
        },
    }
}

/// A pattern of checked length matches texts of the length `rlen` gives.
pub proof fn lemma_rlen(r: Pattern)
    requires
        checked_len(r) is Ok,
    ensures
        checked_len(r) == Ok::<nat, PatternError>(rlen(r)),
    decreases r,
{
    match r {
        Pattern::Concat(a, b) => {
            lemma_rlen(*a);
            lemma_rlen(*b);
        },
        Pattern::Alt(a, b) => {
            lemma_rlen(*a);
            lemma_rlen(*b);
        },
        Pattern::Repeat(a, _) => {
            lemma_rlen(*a);
        },
        _ => {},
    }
}

/// A piece that matches a pattern of checked length has that length, and
/// the pattern can match where the piece stands.
pub proof fn lemma_match_len(s: Seq<char>, r: Pattern, at_start: bool, at_end: bool)
    requires
        checked_len(r) is Ok,
        match_at(s, r, at_start, at_end),
    ensures
        checked_len(r) == Ok::<nat, PatternError>(s.len()),
        rlen(r) == s.len(),
        can_match(r, at_start, at_end),
    decreases r, 0nat,
{
    lemma_rlen(r);
    match r {
        Pattern::Class(rs, neg) => {
            assert(in_ranges(s[0], rs) != neg);
        },
        Pattern::Concat(a, b) => {
            let k = rlen(*a);
            lemma_match_len(s.take(k as int), *a, at_start, at_end && s.len() == k);
            lemma_match_len(s.skip(k as int), *b, at_start && k == 0, at_end);
        },
        Pattern::Alt(a, b) => {
            if match_at(s, *a, at_start, at_end) {
                lemma_match_len(s, *a, at_start, at_end);
            } else {
                lemma_match_len(s, *b, at_start, at_end);
            }
        },
        Pattern::Repeat(a, n) => {
            lemma_rep_len(s, *a, n, at_start, at_end);
        },
        _ => {},
    }
}

proof fn lemma_rep_len(s: Seq<char>, a: Pattern, n: nat, at_start: bool, at_end: bool)
    requires
        checked_len(a) is Ok,
        rep_at(s, a, n, at_start, at_end),
    ensures
        s.len() == rlen(a) * n,
        can_match(Pattern::Repeat(Box::new(a), n), at_start, at_end),
    decreases a, n,
{
    if n > 0 {
        let k = (s.len() - rlen(a)) as int;
        lemma_rep_len(s.take(k), a, (n - 1) as nat, at_start, at_end && rlen(a) == 0);
        lemma_match_len(s.skip(k), a, at_start && k == 0, at_end);
        assert(rlen(a) * n == rlen(a) * (n - 1) + rlen(a)) by (nonlinear_arith);
        if rlen(a) > 0 && n >= 2 {
            assert(rlen(a) * (n - 1) > 0) by (nonlinear_arith)
                requires
                    rlen(a) > 0,
                    n >= 2,
            ;
        }
    } else {
        assert(rlen(a) * 0 == 0);
    }
}

/// No text matches a pattern of checked length in full when `nonempty`
/// says so.
pub proof fn lemma_no_match(r: Pattern, s: Seq<char>)
    requires
        checked_len(r) is Ok,
        !nonempty(r),
    ensures
        !full_match(s, r),
{
    if full_match(s, r) {
        lemma_match_len(s, r, true, true);
    }
}

/// A text that matches the pattern as a piece placed as `match_at` says,
/// where `can_match` holds.
pub open spec fn witness(r: Pattern, at_start: bool, at_end: bool) -> Seq<char>
    decreases r, 0nat,
{
    match r {
        Pattern::Class(rs, neg) => seq![choose|c: char| in_ranges(c, rs) != neg],
        Pattern::Concat(a, b) => witness(*a, at_start, at_end && rlen(*b) == 0) + witness(
            *b,
            at_start && rlen(*a) == 0,
            at_end,
        ),
        Pattern::Alt(a, b) => if can_match(*a, at_start, at_end) {
            witness(*a, at_start, at_end)
        } else {
            witness(*b, at_start, at_end)
        },
        Pattern::Repeat(a, n) => witness_rep(*a, n, at_start, at_end),
        _ => seq![],
    }
}

/// `n` pieces in a row, each a witness for `a` where it stands.
pub open spec fn witness_rep(a: Pattern, n: nat, at_start: bool, at_end: bool) -> Seq<char>
    decreases a, n,
{
    if n == 0 {
        seq![]
    } else {
        witness_rep(a, (n - 1) as nat, at_start, at_end && rlen(a) == 0) + witness(
            a,
            at_start && (n == 1 || rlen(a) == 0),
            at_end,
        )
    }
}

proof fn lemma_witness(r: Pattern, at_start: bool, at_end: bool)
    requires
        checked_len(r) is Ok,
        can_match(r, at_start, at_end),
    ensures
        match_at(witness(r, at_start, at_end), r, at_start, at_end),
        witness(r, at_start, at_end).len() == rlen(r),
    decreases r, 0nat,
{
    lemma_rlen(r);
    match r {
        Pattern::Class(rs, neg) => {
            let c = choose|c: char| in_ranges(c, rs) != neg;
            assert(witness(r, at_start, at_end)[0] == c);
        },
        Pattern::Concat(a, b) => {
            lemma_witness(*a, at_start, at_end && rlen(*b) == 0);
            lemma_witness(*b, at_start && rlen(*a) == 0, at_end);
            let x = witness(*a, at_start, at_end && rlen(*b) == 0);
            let y = witness(*b, at_start && rlen(*a) == 0, at_end);
            assert((x + y).take(rlen(*a) as int) =~= x);
            assert((x + y).skip(rlen(*a) as int) =~= y);
        },
        Pattern::Alt(a, b) => {
            lemma_rlen(*a);
            lemma_rlen(*b);
            if can_match(*a, at_start, at_end) {
                lemma_witness(*a, at_start, at_end);
            } else {
                lemma_witness(*b, at_start, at_end);
            }
        },
        Pattern::Repeat(a, n) => {
            lemma_witness_rep(*a, n, at_start, at_end);
        },
        _ => {},
    }
}

proof fn lemma_witness_rep(a: Pattern, n: nat, at_start: bool, at_end: bool)
    requires
        checked_len(a) is Ok,
        can_match(Pattern::Repeat(Box::new(a), n), at_start, at_end),
    ensures
        rep_at(witness_rep(a, n, at_start, at_end), a, n, at_start, at_end),
        witness_rep(a, n, at_start, at_end).len() == rlen(a) * n,
    decreases a, n,
{
    if n == 0 {
        assert(rlen(a) * 0 == 0);
    } else {
        let m = (n - 1) as nat;
        let pre = witness_rep(a, m, at_start, at_end && rlen(a) == 0);
        let last = witness(a, at_start && (n == 1 || rlen(a) == 0), at_end);
        lemma_witness_rep(a, m, at_start, at_end && rlen(a) == 0);
        lemma_witness(a, at_start && (n == 1 || rlen(a) == 0), at_end);
        let s = pre + last;
        assert(rlen(a) * n == rlen(a) * m + rlen(a)) by (nonlinear_arith)
            requires
                m == n - 1,
        ;
        assert(rlen(a) * m == 0 <==> (n == 1 || rlen(a) == 0)) by (nonlinear_arith)
            requires
                m == n - 1,
                n >= 1,
        ;
        assert(s.take(s.len() - rlen(a)) =~= pre);
        assert(s.skip(s.len() - rlen(a)) =~= last);
    }
}

/// A pattern of checked length has a text that matches it in full exactly
/// when `nonempty` says so.
pub proof fn lemma_nonempty_exact(r: Pattern)
    requires
        checked_len(r) is Ok,
    ensures
        nonempty(r) <==> exists|s: Seq<char>| full_match(s, r),
{
    if nonempty(r) {
        lemma_witness(r, true, true);
        assert(full_match(witness(r, true, true), r));
    } else {
        assert forall|s: Seq<char>| !full_match(s, r) by {
            lemma_no_match(r, s);
        }
    }
}

/// A pattern as the program holds it.
#[derive(Debug)]
pub enum Regex {
    Empty,
    Start,
    End,
    Class(Vec<(char, char)>, bool),
    Concat(Box<Regex>, Box<Regex>),
    Alt(Box<Regex>, Box<Regex>),
    Repeat(Box<Regex>, usize),
}

/// The tree a held pattern stands for.
pub open spec fn pattern_of(r: Regex) -> Pattern
    decreases r,
{
    match r {
        Regex::Empty => Pattern::Empty,
        Regex::Start => Pattern::Start,
        Regex::End => Pattern::End,
        Regex::Class(rs, neg) => Pattern::Class(rs@, neg),
        Regex::Concat(a, b) => Pattern::Concat(Box::new(pattern_of(*a)), Box::new(pattern_of(*b))),
        Regex::Alt(a, b) => Pattern::Alt(Box::new(pattern_of(*a)), Box::new(pattern_of(*b))),
        Regex::Repeat(a, n) => Pattern::Repeat(Box::new(pattern_of(*a)), n as nat),
    }
}

impl View for Regex {
    type V = Pattern;

    open spec fn view(&self) -> Pattern {
        pattern_of(*self)
    }
}

/// An open group as the reader holds it.
struct Frame {
    alt: Option<Regex>,
    cur: Regex,
    pending: Option<Regex>,
}

spec fn opt_view(o: Option<Regex>) -> Option<Pattern> {
    match o {
        Some(r) => Some(r@),
        None => None,
    }
}

spec fn opt_wf(o: Option<Pattern>) -> bool {
    match o {
        Some(r) => pattern_wf(r),
        None => true,
    }
}

spec fn frame_view(f: Frame) -> PFrame {
    PFrame { alt: opt_view(f.alt), cur: f.cur@, pending: opt_view(f.pending) }
}

spec fn frames_view(v: Seq<Frame>) -> Seq<PFrame> {
    Seq::new(v.len(), |j: int| frame_view(v[j]))
}

spec fn frame_wf(f: PFrame) -> bool {
    opt_wf(f.alt) && pattern_wf(f.cur) && opt_wf(f.pending)
}

spec fn frames_wf(v: Seq<Frame>) -> bool {
    forall|j: int| 0 <= j < v.len() ==> frame_wf(#[trigger] frame_view(v[j]))
}

proof fn lemma_frames_push(fs: Seq<Frame>, h: Frame)
    requires
        frames_wf(fs),
        frame_wf(frame_view(h)),
    ensures
        frames_wf(fs.push(h)),
        frames_view(fs.push(h)) == frames_view(fs).push(frame_view(h)),
{
    assert(frames_view(fs.push(h)) =~= frames_view(fs).push(frame_view(h)));
    assert forall|j: int| 0 <= j < fs.push(h).len() implies frame_wf(
        #[trigger] frame_view(fs.push(h)[j]),
    ) by {
        if j < fs.len() {
            assert(fs.push(h)[j] == fs[j]);
        }
    }
}

proof fn lemma_frames_pop(fs: Seq<Frame>)
    requires
        fs.len() > 0,
        frames_wf(fs),
    ensures
        frames_wf(fs.drop_last()),
        frame_wf(frame_view(fs.last())),
        frames_view(fs.drop_last()) == frames_view(fs).drop_last(),
        frames_view(fs).last() == frame_view(fs.last()),
{
    assert(frames_view(fs.drop_last()) =~= frames_view(fs).drop_last());
    assert(frame_wf(frame_view(fs[fs.len() - 1])));
    assert forall|j: int| 0 <= j < fs.drop_last().len() implies frame_wf(
        #[trigger] frame_view(fs.drop_last()[j]),
    ) by {
        assert(fs.drop_last()[j] == fs[j]);
    }
}

fn flush_exec(cur: Regex, pending: Option<Regex>) -> (r: Regex)
    ensures
        r@ == flush(PFrame { alt: None, cur: cur@, pending: opt_view(pending) }),
        pattern_wf(cur@) && opt_wf(opt_view(pending)) ==> pattern_wf(r@),
{
    match pending {
        Some(a) => Regex::Concat(Box::new(cur), Box::new(a)),
        None => cur,
    }
}

fn close_exec(f: Frame) -> (r: Regex)
    ensures
        r@ == close(frame_view(f)),
        frame_wf(frame_view(f)) ==> pattern_wf(r@),
{
    let Frame { alt, cur, pending } = f;
    let body = flush_exec(cur, pending);
    match alt {
        Some(a) => Regex::Alt(Box::new(a), Box::new(body)),
        None => body,
    }
}

fn with_atom_exec(f: Frame, a: Regex) -> (g: Frame)
    ensures
        frame_view(g) == with_atom(frame_view(f), a@),
        frame_wf(frame_view(f)) && pattern_wf(a@) ==> frame_wf(frame_view(g)),
{
    let Frame { alt, cur, pending } = f;
    Frame { alt, cur: flush_exec(cur, pending), pending: Some(a) }
}

fn valid_range_exec(lo: char, hi: char) -> (r: bool)
    ensures
        r == valid_range(lo, hi),
{
    (lo as u32) <= (hi as u32)
}

fn single(c: char) -> (v: Vec<(char, char)>)
    ensures
        v@ == seq![(c, c)],
{
    let mut v: Vec<(char, char)> = Vec::new();
    v.push((c, c));
    assert(v@ =~= seq![(c, c)]);
    v
}

fn space_ranges_exec() -> (v: Vec<(char, char)>)
    ensures
        v@ == space_ranges(),
{
    let mut v: Vec<(char, char)> = Vec::new();
    v.push(('\t', '\r'));
    v.push((' ', ' '));
    v.push(('\u{85}', '\u{85}'));
    v.push(('\u{a0}', '\u{a0}'));
    v.push(('\u{1680}', '\u{1680}'));
    v.push(('\u{2000}', '\u{200a}'));
    v.push(('\u{2028}', '\u{2029}'));
    v.push(('\u{202f}', '\u{202f}'));
    v.push(('\u{205f}', '\u{205f}'));
    v.push(('\u{3000}', '\u{3000}'));
    assert(v@ =~= space_ranges());
    v
}

fn escape_exec(c: char) -> (r: Option<(Vec<(char, char)>, bool)>)
    ensures
        match r {
            Some((v, n)) => escape_class(c) == Some((v@, n)) && ranges_wf(v@) && v@.len() > 0,
            None => escape_class(c) is None,
        },
{
    if c == 'd' {
        Some((single_range('0', '9'), false))
    } else if c == 'w' {
        let mut v: Vec<(char, char)> = Vec::new();
        v.push(('0', '9'));
        v.push(('A', 'Z'));
        v.push(('_', '_'));
        v.push(('a', 'z'));
        assert(v@ =~= seq![('0', '9'), ('A', 'Z'), ('_', '_'), ('a', 'z')]);
        Some((v, false))
    } else if c == 's' || c == 'S' {
        Some((space_ranges_exec(), c == 'S'))
    } else if c == 'n' {
        Some((single('\n'), false))
    } else if c == 't' {
        Some((single('\t'), false))
    } else if c == 'r' {
        Some((single('\r'), false))
    } else if c == 'f' {
        Some((single('\u{c}'), false))
    } else if c == 'v' {
        Some((single('\u{b}'), false))
    } else if c == 'a' {
        Some((single('\u{7}'), false))
    } else if ('0' <= c && c <= '9') || ('a' <= c && c <= 'z') || ('A' <= c && c <= 'Z') {
        None
    } else {
        Some((single(c), false))
    }
}

fn single_range(lo: char, hi: char) -> (v: Vec<(char, char)>)
    ensures
        v@ == seq![(lo, hi)],
{
    let mut v: Vec<(char, char)> = Vec::new();
    v.push((lo, hi));
    assert(v@ =~= seq![(lo, hi)]);
    v
}

fn is_set_operator_exec(p: &Vec<char>, i: usize) -> (r: bool)
    requires
        i < p.len(),
    ensures
        r == is_set_operator(p@, i as int),
{
    i + 1 < p.len() && p[i] == p[i + 1] && (p[i] == '&' || p[i] == '-' || p[i] == '~')
}

fn hex_value_exec(c: char) -> (r: Option<u32>)
    ensures
        match r {
            Some(d) => hex_value(c) == Some(d as nat) && d < 16,
            None => hex_value(c) is None,
        },
{
    if '0' <= c && c <= '9' {
        Some((c as u32) - ('0' as u32))
    } else if 'a' <= c && c <= 'f' {
        Some((c as u32) - ('a' as u32) + 10)
    } else if 'A' <= c && c <= 'F' {
        Some((c as u32) - ('A' as u32) + 10)
    } else {
        None
    }
}

fn hex_fixed_exec(p: &Vec<char>, k: usize, left: usize, acc: u32) -> (r: Result<
    (u32, usize),
    PatternError,
>)
    requires
        k <= p.len(),
        acc <= 0x10FFFF,
    ensures
        match r {
            Ok((v, j)) => hex_fixed(p@, k as int, left as nat, acc as nat) == Ok::<
                (nat, int),
                PatternError,
            >((v as nat, j as int)),
            Err(e) => hex_fixed(p@, k as int, left as nat, acc as nat) == Err::<
                (nat, int),
                PatternError,
            >(e),
        },
    decreases left,
{
    if left == 0 {
        return Ok((acc, k));
    }
    if k >= p.len() {
        return Err(PatternError::Malformed);
    }
    match hex_value_exec(p[k]) {
        None => Err(PatternError::Malformed),
        Some(d) => {
            let a = acc * 16 + d;
            if a > 0x10FFFF {
                Err(PatternError::Malformed)
            } else {
                hex_fixed_exec(p, k + 1, left - 1, a)
            }
        },
    }
}

fn hex_braced_exec(p: &Vec<char>, k: usize, acc: u32, seen: bool) -> (r: Result<
    (u32, usize),
    PatternError,
>)
    requires
        k <= p.len(),
        acc <= 0x10FFFF,
    ensures
        match r {
            Ok((v, j)) => hex_braced(p@, k as int, acc as nat, seen) == Ok::<(nat, int), PatternError>(
                (v as nat, j as int),
            ),
            Err(e) => hex_braced(p@, k as int, acc as nat, seen) == Err::<(nat, int), PatternError>(
                e,
            ),
        },
    decreases p.len() - k,
{
    if k >= p.len() {
        return Err(PatternError::Malformed);
    }
    if p[k] == '}' && seen {
        return Ok((acc, k + 1));
    }
    match hex_value_exec(p[k]) {
        None => Err(PatternError::Malformed),
        Some(d) => {
            let a = acc * 16 + d;
            if a > 0x10FFFF {
                Err(PatternError::Malformed)
            } else {
                hex_braced_exec(p, k + 1, a, true)
            }
        },
    }
}

fn hex_escape_exec(p: &Vec<char>, k: usize) -> (r: Result<(char, usize), PatternError>)
    requires
        k < p.len(),
    ensures
        match r {
            Ok((c, j)) => hex_escape(p@, k as int) == Ok::<(char, int), PatternError>((c, j as int)),
            Err(e) => hex_escape(p@, k as int) == Err::<(char, int), PatternError>(e),
        },
{
    let width: usize = if p[k] == 'x' {
        2
    } else if p[k] == 'u' {
        4
    } else {
        8
    };
    let r = if k + 1 < p.len() && p[k + 1] == '{' {
        hex_braced_exec(p, k + 2, 0, false)
    } else {
        hex_fixed_exec(p, k + 1, width, 0)
    };
    match r {
        Err(e) => Err(e),
        Ok((v, j)) => {
            if v <= 0x10FFFF && !(0xD800 <= v && v <= 0xDFFF) {
                match char_from_u32(v) {
                    Some(c) => {
                        proof {
                            vstd::utf8::char_u32_cast(c, v);
                        }
                        Ok((c, j))
                    },
                    None => Err(PatternError::Malformed),
                }
            } else {
                Err(PatternError::Malformed)
            }
        },
    }
}

fn escape_at_exec(p: &Vec<char>, i: usize) -> (r: Result<(Vec<(char, char)>, bool, usize), PatternError>)
    requires
        i < p.len(),
    ensures
        match r {
            Ok((set, n, j)) => escape_at(p@, i as int) == Ok::<
                (Seq<(char, char)>, bool, int),
                PatternError,
            >((set@, n, j as int)) && ranges_wf(set@) && set@.len() > 0,
            Err(e) => escape_at(p@, i as int) == Err::<(Seq<(char, char)>, bool, int), PatternError>(e),
        },
{
    if i + 1 >= p.len() {
        return Err(PatternError::Malformed);
    }
    let e = p[i + 1];
    if e == 'x' || e == 'u' || e == 'U' {
        match hex_escape_exec(p, i + 1) {
            Err(e) => Err(e),
            Ok((c, j)) => Ok((single(c), false, j)),
        }
    } else {
        match escape_exec(e) {
            None => Err(PatternError::Unsupported),
            Some((set, n)) => Ok((set, n, i + 2)),
        }
    }
}

fn range_end_exec(p: &Vec<char>, k: usize) -> (r: Result<(char, usize), PatternError>)
    requires
        k < p.len(),
    ensures
        match r {
            Ok((c, j)) => range_end(p@, k as int) == Ok::<(char, int), PatternError>((c, j as int)),
            Err(e) => range_end(p@, k as int) == Err::<(char, int), PatternError>(e),
        },
{
    if p[k] == '\\' {
        match escape_at_exec(p, k) {
            Err(e) => Err(e),
            Ok((set, n, j)) => {
                if !n && set.len() == 1 && set[0].0 == set[0].1 {
                    Ok((set[0].0, j))
                } else {
                    Err(PatternError::Unsupported)
                }
            },
        }
    } else if p[k] == '[' {
        Err(PatternError::Unsupported)
    } else {
        Ok((p[k], k + 1))
    }
}

fn class_item_exec(p: &Vec<char>, i: usize, neg: bool) -> (r: Result<
    (Vec<(char, char)>, usize),
    PatternError,
>)
    requires
        i < p.len(),
    ensures
        match r {
            Ok((set, j)) => class_item(p@, i as int, neg) == Ok::<
                (Seq<(char, char)>, int),
                PatternError,
            >((set@, j as int)) && ranges_wf(set@) && set@.len() > 0,
            Err(e) => class_item(p@, i as int, neg) == Err::<(Seq<(char, char)>, int), PatternError>(
                e,
            ),
        },
{
    proof {
        lemma_escape_advances(p@, i as int);
    }
    let head = if p[i] == '\\' {
        if i + 1 < p.len() && neg && (p[i + 1] == 'd' || p[i + 1] == 'w') {
            Err(PatternError::Unsupported)
        } else {
            escape_at_exec(p, i)
        }
    } else {
        Ok((single(p[i]), false, i + 1))
    };
    match head {
        Err(e) => Err(e),
        Ok((set, n, j)) => {
            if n {
                Err(PatternError::Unsupported)
            } else if j < p.len() && p.len() - j > 1 && p[j] == '-' && p[j + 1] != ']' {
                if !(set.len() == 1 && set[0].0 == set[0].1) {
                    Err(PatternError::Unsupported)
                } else {
                    let lo = set[0].0;
                    match range_end_exec(p, j + 1) {
                        Err(e) => Err(e),
                        Ok((hi, k)) => {
                            if valid_range_exec(lo, hi) {
                                Ok((single_range(lo, hi), k))
                            } else {
                                Err(PatternError::Malformed)
                            }
                        },
                    }
                }
            } else {
                Ok((set, j))
            }
        },
    }
}

fn class_exec(p: &Vec<char>, i: usize, acc: Vec<(char, char)>, neg: bool, first: bool) -> (r:
    Result<(Vec<(char, char)>, usize), PatternError>)
    requires
        i <= p.len(),
        ranges_wf(acc@),
        first || acc@.len() > 0,
    ensures
        match r {
            Ok((set, j)) => parse_class(p@, i as int, acc@, neg, first) == Ok::<
                (Seq<(char, char)>, int),
                PatternError,
            >((set@, j as int)) && ranges_wf(set@) && set@.len() > 0,
            Err(e) => parse_class(p@, i as int, acc@, neg, first) == Err::<
                (Seq<(char, char)>, int),
                PatternError,
            >(e),
        },
    decreases p.len() - i,
{
    let mut acc = acc;
    if i >= p.len() {
        return Err(PatternError::Malformed);
    }
    let c = p[i];
    if c == ']' && !first {
        Ok((acc, i + 1))
    } else if c == '[' || is_set_operator_exec(p, i) {
        Err(PatternError::Unsupported)
    } else {
        proof {
            lemma_item_advances(p@, i as int, neg);
        }
        match class_item_exec(p, i, neg) {
            Err(e) => Err(e),
            Ok((set, j)) => {
                let mut set = set;
                let ghost old_acc = acc@;
                let ghost s = set@;
                acc.append(&mut set);
                assert(acc@ =~= old_acc + s);
                assert(ranges_wf(acc@)) by {
                    assert forall|k: int| 0 <= k < acc@.len() implies valid_range(
                        #[trigger] acc@[k].0,
                        acc@[k].1,
                    ) by {
                        if k < old_acc.len() {
                            assert(acc@[k] == old_acc[k]);
                        } else {
                            assert(acc@[k] == s[k - old_acc.len()]);
                        }
                    }
                }
                class_exec(p, j, acc, neg, false)
            },
        }
    }
}

fn atom_exec(p: &Vec<char>, i: usize) -> (r: Result<(Regex, usize), PatternError>)
    requires
        i <= p.len(),
    ensures
        match r {
            Ok((a, j)) => parse_atom(p@, i as int) == Ok::<(Pattern, int), PatternError>(
                (a@, j as int),
            ) && pattern_wf(a@),
            Err(e) => parse_atom(p@, i as int) == Err::<(Pattern, int), PatternError>(e),
        },
{
    if i >= p.len() {
        return Err(PatternError::Malformed);
    }
    let c = p[i];
    if c == '\\' && i + 1 < p.len() && p[i + 1] == 'A' {
        Ok((Regex::Start, i + 2))
    } else if c == '\\' && i + 1 < p.len() && p[i + 1] == 'z' {
        Ok((Regex::End, i + 2))
    } else if c == '\\' {
        match escape_at_exec(p, i) {
            Err(e) => Err(e),
            Ok((set, n, j)) => Ok((Regex::Class(set, n), j)),
        }
    } else if c == '[' {
        let neg = i + 1 < p.len() && p[i + 1] == '^';
        let start = if neg {
            i + 2
        } else {
            i + 1
        };
        match class_exec(p, start, Vec::new(), neg, true) {
            Err(e) => Err(e),
            Ok((set, j)) => Ok((Regex::Class(set, neg), j)),
        }
    } else if c == '.' {
        Ok((Regex::Class(single('\n'), true), i + 1))
    } else if c == '^' {
        Ok((Regex::Start, i + 1))
    } else if c == '$' {
        Ok((Regex::End, i + 1))
    } else {
        Ok((Regex::Class(single(c), false), i + 1))
    }
}

fn count_exec(p: &Vec<char>, k: usize, acc: usize, seen: bool) -> (r: Result<(usize, usize), PatternError>)
    requires
        k <= p.len(),
    ensures
        match r {
            Ok((n, j)) => parse_count(p@, k as int, acc as nat, seen) == Ok::<(nat, int), PatternError>(
                (n as nat, j as int),
            ),
            Err(e) => parse_count(p@, k as int, acc as nat, seen) == Err::<(nat, int), PatternError>(
                e,
            ),
        },
    decreases p.len() - k,
{
    if k >= p.len() {
        return Err(PatternError::Malformed);
    }
    let c = p[k];
    if '0' <= c && c <= '9' {
        let d: usize = ((c as u32) - ('0' as u32)) as usize;
        match acc.checked_mul(10) {
            None => Err(PatternError::TooLong),
            Some(m) => match m.checked_add(d) {
                None => Err(PatternError::TooLong),
                Some(a) => count_exec(p, k + 1, a, true),
            },
        }
    } else if c == ',' {
        if !seen {
            Err(PatternError::VariableLength)
        } else {
            match upper_exec(p, k + 1, 0, false) {
                Err(e) => Err(e),
                Ok((None, _)) => Err(PatternError::VariableLength),
                Ok((Some(m), j)) => {
                    if m < acc {
                        Err(PatternError::Malformed)
                    } else if m > acc {
                        Err(PatternError::VariableLength)
                    } else {
                        Ok((acc, j))
                    }
                },
            }
        }
    } else if c == '}' && seen {
        Ok((acc, k + 1))
    } else {
        Err(PatternError::Malformed)
    }
}

fn upper_exec(p: &Vec<char>, k: usize, acc: usize, seen: bool) -> (r: Result<
    (Option<usize>, usize),
    PatternError,
>)
    requires
        k <= p.len(),
    ensures
        match r {
            Ok((m, j)) => parse_upper(p@, k as int, acc as nat, seen) == Ok::<
                (Option<nat>, int),
                PatternError,
            >(
                (
                    match m {
                        Some(v) => Some(v as nat),
                        None => None,
                    },
                    j as int,
                ),
            ),
            Err(e) => parse_upper(p@, k as int, acc as nat, seen) == Err::<
                (Option<nat>, int),
                PatternError,
            >(e),
        },
    decreases p.len() - k,
{
    if k >= p.len() {
        return Err(PatternError::Malformed);
    }
    let c = p[k];
    if '0' <= c && c <= '9' {
        let d: usize = ((c as u32) - ('0' as u32)) as usize;
        match acc.checked_mul(10) {
            None => Err(PatternError::TooLong),
            Some(m) => match m.checked_add(d) {
                None => Err(PatternError::TooLong),
                Some(a) => upper_exec(p, k + 1, a, true),
            },
        }
    } else if c == '}' {
        Ok(
            (
                if seen {
                    Some(acc)
                } else {
                    None
                },
                k + 1,
            ),
        )
    } else {
        Err(PatternError::Malformed)
    }
}

fn name_end_exec(p: &Vec<char>, k: usize, first: bool) -> (r: Result<usize, PatternError>)
    requires
        k <= p.len(),
    ensures
        match r {
            Ok(j) => name_end(p@, k as int, first) == Ok::<int, PatternError>(j as int),
            Err(e) => name_end(p@, k as int, first) == Err::<int, PatternError>(e),
        },
    decreases p.len() - k,
{
    if k >= p.len() {
        return Err(PatternError::Malformed);
    }
    let c = p[k];
    if c == '>' {
        if first {
            Err(PatternError::Malformed)
        } else {
            Ok(k + 1)
        }
    } else if c == '_' || ('a' <= c && c <= 'z') || ('A' <= c && c <= 'Z') || (!first && '0' <= c
        && c <= '9') {
        name_end_exec(p, k + 1, false)
    } else {
        Err(PatternError::Unsupported)
    }
}

fn group_start_exec(p: &Vec<char>, i: usize) -> (r: Result<usize, PatternError>)
    requires
        i < p.len(),
    ensures
        match r {
            Ok(j) => group_start(p@, i as int) == Ok::<int, PatternError>(j as int),
            Err(e) => group_start(p@, i as int) == Err::<int, PatternError>(e),
        },
{
    if i + 1 < p.len() && p[i + 1] == '?' {
        if i + 2 < p.len() && p[i + 2] == ':' {
            Ok(i + 3)
        } else if i + 2 < p.len() && p[i + 2] == '<' {
            name_end_exec(p, i + 3, true)
        } else if p.len() - i > 3 && p[i + 2] == 'P' && p[i + 3] == '<' {
            name_end_exec(p, i + 4, true)
        } else {
            Err(PatternError::Unsupported)
        }
    } else {
        Ok(i + 1)
    }
}

/// Reads a pattern: the tree it reads as, with valid classes, or why it
/// reads as none.
pub fn parse_regex(pattern: &str) -> (r: Result<Regex, PatternError>)
    ensures
        match r {
            Ok(t) => parse_pattern(pattern@) == Ok::<Pattern, PatternError>(t@) && pattern_wf(t@),
            Err(e) => parse_pattern(pattern@) == Err::<Pattern, PatternError>(e),
        },
{
    let p = crate::text::chars_of(pattern);
    let mut frames: Vec<Frame> = Vec::new();
    frames.push(Frame { alt: None, cur: Regex::Empty, pending: None });
    assert(frames_view(frames@) =~= seq![new_frame()]);
    let mut i: usize = 0;
    while i < p.len()
        invariant
            i <= p.len(),
            frames@.len() >= 1,
            p@ == pattern@,
            parse_from(p@, i as int, frames_view(frames@)) == parse_pattern(pattern@),
            frames_wf(frames@),
        decreases p.len() - i,
    {
        let ghost fs = frames@;
        let ghost fv = frames_view(frames@);
        proof {
            lemma_frames_pop(fs);
        }
        let c = p[i];
        if c == '(' {
            proof {
                lemma_group_advances(p@, i as int);
            }
            let j = match group_start_exec(&p, i) {
                Err(e) => {
                    return Err(e);
                },
                Ok(j) => j,
            };
            let g = Frame { alt: None, cur: Regex::Empty, pending: None };
            assert(frame_view(g) == new_frame());
            frames.push(g);
            proof {
                lemma_frames_push(fs, g);
            }
            i = j;
        } else if c == ')' {
            if frames.len() < 2 {
                return Err(PatternError::Malformed);
            }
            let f = frames.pop().unwrap();
            proof {
                lemma_frames_pop(fs.drop_last());
            }
            let g = frames.pop().unwrap();
            let a = close_exec(f);
            let h = with_atom_exec(g, a);
            proof {
                lemma_frames_push(frames@, h);
            }
            frames.push(h);
            assert(parse_from(p@, i + 1, frames_view(frames@)) == parse_from(p@, i as int, fv));
            i = i + 1;
        } else if c == '|' {
            let f = frames.pop().unwrap();
            let a = close_exec(f);
            let h = Frame { alt: Some(a), cur: Regex::Empty, pending: None };
            proof {
                lemma_frames_push(frames@, h);
            }
            frames.push(h);
            i = i + 1;
        } else if c == '*' || c == '+' || c == '?' {
            if frames[frames.len() - 1].pending.is_some() {
                return Err(PatternError::VariableLength);
            } else {
                return Err(PatternError::Malformed);
            }
        } else if c == '{' {
            let f = frames.pop().unwrap();
            let Frame { alt, cur, pending } = f;
            match pending {
                None => {
                    return Err(PatternError::Malformed);
                },
                Some(a) => match count_exec(&p, i + 1, 0, false) {
                    Err(e) => {
                        return Err(e);
                    },
                    Ok((n, k)) => {
                        proof {
                            lemma_count_advances(p@, i + 1, 0, false);
                        }
                        let ghost fl = fv.last();
                        assert(fl.pending == Some(a@));
                        assert(opt_view(alt) == fl.alt && cur@ == fl.cur);
                        let rep = Regex::Repeat(Box::new(a), n);
                        assert(rep@ == Pattern::Repeat(Box::new(a@), n as nat));
                        let cat = Regex::Concat(Box::new(cur), Box::new(rep));
                        assert(cat@ == Pattern::Concat(Box::new(cur@), Box::new(rep@)));
                        assert(pattern_wf(a@) && pattern_wf(rep@));
                        assert(pattern_wf(cat@));
                        let h = Frame { alt, cur: cat, pending: None };
                        assert(frame_view(h) == PFrame {
                            alt: fl.alt,
                            cur: Pattern::Concat(
                                Box::new(fl.cur),
                                Box::new(Pattern::Repeat(Box::new(a@), n as nat)),
                            ),
                            pending: None,
                        });
                        proof {
                            lemma_frames_push(frames@, h);
                        }
                        frames.push(h);
                        i = if k < p.len() && p[k] == '?' {
                            k + 1
                        } else {
                            k
                        };
                    },
                },
            }
        } else {
            proof {
                lemma_atom_advances(p@, i as int);
            }
            match atom_exec(&p, i) {
                Err(e) => {
                    return Err(e);
                },
                Ok((a, j)) => {
                    let f = frames.pop().unwrap();
                    let h = with_atom_exec(f, a);
                    proof {
                        lemma_frames_push(frames@, h);
                    }
                    frames.push(h);
                    i = j;
                },
            }
        }
    }
    if frames.len() != 1 {
        return Err(PatternError::Malformed);
    }
    assert(frame_view(frames@[0]) == frames_view(frames@)[0]);
    assert(frame_wf(frame_view(frames@[0])));
    let f = frames.pop().unwrap();
    Ok(close_exec(f))
}

/// std's `char::from_u32`: the character with code point `x`, present
/// exactly when `x` is not a surrogate and at most `0x10FFFF`.
#[verifier::external_body]
pub(crate) fn char_from_u32(x: u32) -> (r: Option<char>)
    ensures
        (x <= 0xD7FF || (0xE000 <= x && x <= 0x10FFFF)) <==> r is Some,
        r matches Some(c) ==> c as u32 == x,
{
    char::from_u32(x)
}

/// Whether `c` lies in one of the ranges.
pub fn in_ranges_exec(c: char, rs: &Vec<(char, char)>) -> (b: bool)
    ensures
        b == in_ranges(c, rs@),
{
    for k in 0..rs.len()
        invariant
            forall|j: int|
                0 <= j < k ==> !(((#[trigger] rs@[j]).0 as u32) <= (c as u32) && (c as u32) <= (
                rs@[j].1 as u32)),
    {
        let (lo, hi) = rs[k];
        if (lo as u32) <= (c as u32) && (c as u32) <= (hi as u32) {
            assert(rs@[k as int] == (lo, hi));
            return true;
        }
    }
    false
}

/// A character outside all the ranges, the one of lowest code point, or
/// `None` when the ranges hold every character.
pub fn find_outside(rs: &Vec<(char, char)>) -> (r: Option<char>)
    ensures
        r matches Some(c) ==> !in_ranges(c, rs@),
        r is None ==> forall|c: char| in_ranges(c, rs@),
{
    let mut x: u32 = 0;
    while x < 0x110000
        invariant
            x <= 0x110000,
            forall|c: char| (c as u32) < x ==> in_ranges(c, rs@),
        decreases 0x110000 - x,
    {
        let found = char_from_u32(x);
        if let Some(c) = found {
            if !in_ranges_exec(c, rs) {
                return Some(c);
            }
        }
        assert forall|c: char| (c as u32) < x + 1 implies in_ranges(c, rs@) by {
            if c as u32 == x {
                vstd::utf8::char_is_scalar(c);
                vstd::utf8::char_u32_cast(c, x);
                if let Some(d) = found {
                    vstd::utf8::char_u32_cast(d, x);
                }
            }
        }
        x = x + 1;
    }
    assert forall|c: char| in_ranges(c, rs@) by {
        vstd::utf8::char_is_scalar(c);
    }
    None
}

/// The length of the texts a held pattern matches, or why it has none.
pub fn check_len(r: &Regex) -> (res: Result<usize, PatternError>)
    ensures
        match res {
            Ok(n) => checked_len(r@) == Ok::<nat, PatternError>(n as nat),
            Err(e) => checked_len(r@) == Err::<nat, PatternError>(e),
        },
    decreases r,
{
    match r {
        Regex::Empty | Regex::Start | Regex::End => Ok(0),
        Regex::Class(_, _) => Ok(1),
        Regex::Concat(a, b) => match check_len(&**a) {
            Err(e) => Err(e),
            Ok(la) => match check_len(&**b) {
                Err(e) => Err(e),
                Ok(lb) => match la.checked_add(lb) {
                    None => Err(PatternError::TooLong),
                    Some(n) => Ok(n),
                },
            },
        },
        Regex::Alt(a, b) => match check_len(&**a) {
            Err(e) => Err(e),
            Ok(la) => match check_len(&**b) {
                Err(e) => Err(e),
                Ok(lb) => if la != lb {
                    Err(PatternError::VariableLength)
                } else {
                    Ok(la)
                },
            },
        },
        Regex::Repeat(a, n) => match check_len(&**a) {
            Err(e) => Err(e),
            Ok(la) => match la.checked_mul(*n) {
                None => Err(PatternError::TooLong),
                Some(m) => Ok(m),
            },
        },
    }
}

/// The length of the texts a held pattern of checked length matches.
pub fn len_of(r: &Regex) -> (n: usize)
    requires
        checked_len(r@) is Ok,
    ensures
        n == rlen(r@),
{
    proof {
        lemma_rlen(r@);
    }
    match check_len(r) {
        Ok(n) => n,
        Err(_) => 0,
    }
}

/// Whether some text matches a held pattern of checked length, as a piece
/// placed as `match_at` says.
pub fn has_match(r: &Regex, at_start: bool, at_end: bool) -> (b: bool)
    requires
        pattern_wf(r@),
        checked_len(r@) is Ok,
    ensures
        b == can_match(r@, at_start, at_end),
    decreases r,
{
    match r {
        Regex::Empty => true,
        Regex::Start => at_start,
        Regex::End => at_end,
        Regex::Class(rs, neg) => {
            if !*neg {
                assert(valid_range(rs@[0].0, rs@[0].1));
                assert(in_ranges(rs@[0].0, rs@));
                true
            } else {
                find_outside(rs).is_some()
            }
        },
        Regex::Concat(a, b) => {
            let la = len_of(&**a);
            let lb = len_of(&**b);
            has_match(&**a, at_start, at_end && lb == 0) && has_match(
                &**b,
                at_start && la == 0,
                at_end,
            )
        },
        Regex::Alt(a, b) => has_match(&**a, at_start, at_end) || has_match(&**b, at_start, at_end),
        Regex::Repeat(a, n) => {
            if *n == 0 {
                true
            } else if len_of(&**a) == 0 || *n == 1 {
                has_match(&**a, at_start, at_end)
            } else {
                has_match(&**a, at_start, false) && has_match(&**a, false, at_end) && (*n < 3
                    || has_match(&**a, false, false))
            }
        },
    }
}

} // verus!
