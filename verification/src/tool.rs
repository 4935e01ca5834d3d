//! What the command-line inspector computes: numbers from its arguments,
//! and a dump of the bytes it read.
use crate::text;
use crate::text::{push_hex_byte, push_number};
use vstd::prelude::*;

verus! {

/// The most bytes that are dumped at once.
pub const MAX_DUMP_LEN: u64 = 4_194_304;

/// The default dynamic block size.
pub const DEFAULT_BLOCK_SIZE: u64 = 2_097_152;

/// What is wrong with a number.
#[derive(Debug, Clone, Copy, PartialEq, Eq, Structural)]
pub enum ParseFault {
    Empty,
    InvalidDigit,
    TooLarge,
}

/// A number that could not be read.
#[derive(Debug, Clone, Copy, PartialEq, Eq, Structural)]
pub struct ParseFailure {
    /// It was taken as hexadecimal, not as decimal.
    pub hex: bool,
    pub fault: ParseFault,
}

/// The value of a digit; `None` where the character is no digit in this
/// base.
pub open spec fn digit_value(c: char, radix: int) -> Option<int> {
    let v = if '0' <= c <= '9' {
        c as int - '0' as int
    } else if 'a' <= c <= 'f' {
        c as int - 'a' as int + 10
    } else if 'A' <= c <= 'F' {
        c as int - 'A' as int + 10
    } else {
        16
    };
    if v < radix {
        Some(v)
    } else {
        None
    }
}

/// The value of the digits `s[from..to]`, or what is wrong with the first
/// that does not fit.
pub open spec fn digits_value(s: Seq<char>, from: int, to: int, radix: int) -> std::result::Result<
    int,
    ParseFault,
>
    decreases to,
{
    if to <= from || to <= 0 {
        Ok(0)
    } else {
        match digits_value(s, from, to - 1, radix) {
            Err(fault) => Err(fault),
            Ok(v) => match digit_value(s[to - 1], radix) {
                None => Err(ParseFault::InvalidDigit),
                Some(d) => if v * radix + d > u64::MAX {
                    Err(ParseFault::TooLarge)
                } else {
                    Ok(v * radix + d)
                },
            },
        }
    }
}

/// The value of the text `s[from..]`: digits, with or without a plus sign
/// before them.
pub open spec fn unsigned_value(s: Seq<char>, from: int, radix: int) -> std::result::Result<
    int,
    ParseFault,
> {
    if from >= s.len() {
        Err(ParseFault::Empty)
    } else if s[from] == '+' && from + 1 == s.len() {
        Err(ParseFault::InvalidDigit)
    } else if s[from] == '+' {
        digits_value(s, from + 1, s.len() as int, radix)
    } else {
        digits_value(s, from, s.len() as int, radix)
    }
}

/// The text is marked as hexadecimal.
pub open spec fn hex_marked(s: Seq<char>) -> bool {
    s.len() >= 2 && s[0] == '0' && (s[1] == 'x' || s[1] == 'X')
}

/// The value of a number: hexadecimal behind `0x` or `0X`, else decimal.
pub open spec fn parsed(s: Seq<char>) -> std::result::Result<int, ParseFault> {
    if hex_marked(s) {
        unsigned_value(s, 2, 16)
    } else {
        unsigned_value(s, 0, 10)
    }
}

impl ParseFault {
    /// What is wrong, in words.
    pub fn words(self) -> (r: &'static str)
        ensures
            r == match self {
                ParseFault::Empty => "cannot parse integer from empty string",
                ParseFault::InvalidDigit => "invalid digit found in string",
                ParseFault::TooLarge => "number too large to fit in target type",
            },
    {
        match self {
            ParseFault::Empty => "cannot parse integer from empty string",
            ParseFault::InvalidDigit => "invalid digit found in string",
            ParseFault::TooLarge => "number too large to fit in target type",
        }
    }
}

fn value_of_digit(c: char, radix: u64) -> (r: Option<u64>)
    requires
        radix <= 16,
    ensures
        match r {
            Some(v) => digit_value(c, radix as int) == Some(v as int) && v < radix,
            None => digit_value(c, radix as int) is None,
        },
{
    let v: u64 = if '0' <= c && c <= '9' {
        (c as u32 - '0' as u32) as u64
    } else if 'a' <= c && c <= 'f' {
        (c as u32 - 'a' as u32) as u64 + 10
    } else if 'A' <= c && c <= 'F' {
        (c as u32 - 'A' as u32) as u64 + 10
    } else {
        16
    };
    if v < radix {
        Some(v)
    } else {
        None
    }
}

proof fn lemma_fault_stands(s: Seq<char>, from: int, to: int, end: int, radix: int)
    requires
        digits_value(s, from, to, radix) is Err,
        from < to <= end,
        0 <= from,
    ensures
        digits_value(s, from, end, radix) == digits_value(s, from, to, radix),
    decreases end - to,
{
    if to < end {
        lemma_fault_stands(s, from, to, end - 1, radix);
    }
}

fn parse_digits(s: &str, from: usize, radix: u64) -> (r: std::result::Result<u64, ParseFault>)
    requires
        from <= s@.len(),
        2 <= radix <= 16,
    ensures
        match r {
            Ok(v) => digits_value(s@, from as int, s@.len() as int, radix as int) == Ok::<
                int,
                ParseFault,
            >(v as int),
            Err(fault) => digits_value(s@, from as int, s@.len() as int, radix as int) == Err::<
                int,
                ParseFault,
            >(fault),
        },
{
    let n: usize = s.unicode_len();
    let mut v: u64 = 0;
    let mut i: usize = from;
    while i < n
        invariant
            from <= i <= n,
            n == s@.len(),
            2 <= radix <= 16,
            digits_value(s@, from as int, i as int, radix as int) == Ok::<int, ParseFault>(
                v as int,
            ),
        decreases n - i,
    {
        let d: u64 = match value_of_digit(s.get_char(i), radix) {
            Some(d) => d,
            None => {
                proof {
                    lemma_fault_stands(s@, from as int, i + 1, n as int, radix as int);
                }
                return Err(ParseFault::InvalidDigit);
            },
        };
        let room: u64 = (u64::MAX - d) / radix;
        proof {
            assert(v > room <==> v * radix + d > u64::MAX) by (nonlinear_arith)
                requires
                    room == (u64::MAX - d) / radix as int,
                    radix >= 2,
                    d < radix,
            ;
        }
        if v > room {
            proof {
                lemma_fault_stands(s@, from as int, i + 1, n as int, radix as int);
            }
            return Err(ParseFault::TooLarge);
        }
        v = v * radix + d;
        i += 1;
    }
    Ok(v)
}

/// Read a number: hexadecimal behind `0x` or `0X`, else decimal.
pub fn parse_u64(s: &str) -> (r: std::result::Result<u64, ParseFailure>)
    ensures
        match r {
            Ok(v) => parsed(s@) == Ok::<int, ParseFault>(v as int),
            Err(failure) => parsed(s@) == Err::<int, ParseFault>(failure.fault) && failure.hex
                == hex_marked(s@),
        },
{
    let n: usize = s.unicode_len();
    let hex: bool = n >= 2 && s.get_char(0) == '0' && (s.get_char(1) == 'x' || s.get_char(1)
        == 'X');
    let from: usize = if hex {
        2
    } else {
        0
    };
    let radix: u64 = if hex {
        16
    } else {
        10
    };
    if from == n {
        return Err(ParseFailure { hex, fault: ParseFault::Empty });
    }
    let signed: bool = s.get_char(from) == '+';
    if signed && from + 1 == n {
        return Err(ParseFailure { hex, fault: ParseFault::InvalidDigit });
    }
    let start: usize = if signed {
        from + 1
    } else {
        from
    };
    match parse_digits(s, start, radix) {
        Ok(v) => Ok(v),
        Err(fault) => Err(ParseFailure { hex, fault }),
    }
}

/// Why an input of `len` bytes does not go at `offset` of a disk of `size`
/// bytes, in words; `None` where it does. Nothing at all goes anywhere.
pub fn overrun(offset: u64, len: u64, size: u64) -> (r: Option<String>)
    ensures
        r is Some <==> len > 0 && offset + len > size,
        r matches Some(words) ==> words@ == text::number(len as int, 10) + " bytes at "@
            + text::number(offset as int, 10) + " run past the virtual disk of "@ + text::number(
            size as int,
            10,
        ) + " bytes"@,
{
    if len == 0 || (offset <= size && len <= size - offset) {
        return None;
    }
    let mut words = String::new();
    push_number(&mut words, len, 10);
    words.append(" bytes at ");
    push_number(&mut words, offset, 10);
    words.append(" run past the virtual disk of ");
    push_number(&mut words, size, 10);
    words.append(" bytes");
    proof {
        assert(words@ =~= text::number(len as int, 10) + " bytes at "@ + text::number(
            offset as int,
            10,
        ) + " run past the virtual disk of "@ + text::number(size as int, 10) + " bytes"@);
    }
    Some(words)
}

/// An offset in hexadecimal, eight digits or more.
pub open spec fn offset_text(off: int) -> Seq<char> {
    let digits = text::number(off, 16);
    let missing = if digits.len() < 8 { 8 - digits.len() } else { 0 };
    Seq::new(missing as nat, |i: int| '0') + digits
}

/// The bytes of a line in hexadecimal, with a wider gap behind the eighth.
pub open spec fn bytes_text(line: Seq<u8>) -> Seq<char>
    decreases line.len(),
{
    if line.len() == 0 {
        seq![]
    } else {
        let j = line.len() - 1;
        bytes_text(line.drop_last()) + text::hex_byte(line.last()) + if j == 7 {
            seq![' ', ' ']
        } else {
            seq![' ']
        }
    }
}

/// A byte as a character, a dot where it has none that prints.
pub open spec fn shown(b: u8) -> char {
    if 0x20 <= b < 0x7f {
        b as char
    } else {
        '.'
    }
}

/// One line of a dump: offset, bytes, characters.
pub open spec fn line_text(off: int, line: Seq<u8>) -> Seq<char> {
    offset_text(off) + "  "@ + bytes_text(line) + Seq::new(
        (3 * (16 - line.len())) as nat,
        |i: int| ' ',
    ) + " |"@ + line.map_values(|b: u8| shown(b)) + "|\n"@
}

/// The first `n` lines of the dump of `bytes`, which stand at `start`.
pub open spec fn dump_text(start: int, bytes: Seq<u8>, n: int) -> Seq<char>
    decreases n,
{
    if n <= 0 {
        seq![]
    } else {
        let from = 16 * (n - 1);
        let to = if from + 16 < bytes.len() { from + 16 } else { bytes.len() as int };
        dump_text(start, bytes, n - 1) + line_text(start + from, bytes.subrange(from, to))
    }
}

fn push_times(out: &mut String, c: char, n: usize)
    ensures
        final(out)@ == old(out)@ + Seq::new(n as nat, |i: int| c),
{
    let mut i: usize = 0;
    while i < n
        invariant
            i <= n,
            out@ == old(out)@ + Seq::new(i as nat, |i: int| c),
        decreases n - i,
    {
        out.push(c);
        i += 1;
        proof {
            assert(out@ =~= old(out)@ + Seq::new(i as nat, |i: int| c));
        }
    }
}

fn push_offset(out: &mut String, off: u64)
    ensures
        final(out)@ == old(out)@ + offset_text(off as int),
{
    let mut digits = String::new();
    push_number(&mut digits, off, 16);
    proof {
        assert(digits@ =~= text::number(off as int, 16));
    }
    let n: usize = digits.as_str().unicode_len();
    if n < 8 {
        push_times(out, '0', 8 - n);
    } else {
        push_times(out, '0', 0);
    }
    out.append(digits.as_str());
    proof {
        assert(out@ =~= old(out)@ + offset_text(off as int));
    }
}

/// Append one line of a dump.
pub fn push_line(out: &mut String, off: u64, line: &[u8])
    requires
        line@.len() <= 16,
    ensures
        final(out)@ == old(out)@ + line_text(off as int, line@),
{
    push_offset(out, off);
    out.append("  ");
    let ghost before = out@;
    let mut j: usize = 0;
    while j < line.len()
        invariant
            j <= line@.len() <= 16,
            out@ == before + bytes_text(line@.take(j as int)),
        decreases line@.len() - j,
    {
        push_hex_byte(out, line[j]);
        if j == 7 {
            out.push(' ');
        }
        out.push(' ');
        proof {
            assert(line@.take(j + 1).drop_last() =~= line@.take(j as int));
            assert(line@.take(j + 1).last() == line@[j as int]);
            assert(out@ =~= before + bytes_text(line@.take(j + 1)));
        }
        j += 1;
    }
    proof {
        assert(line@.take(j as int) =~= line@);
    }
    push_times(out, ' ', 3 * (16 - line.len()));
    out.append(" |");
    let ghost before = out@;
    let mut j: usize = 0;
    while j < line.len()
        invariant
            j <= line@.len() <= 16,
            out@ == before + line@.take(j as int).map_values(|b: u8| shown(b)),
        decreases line@.len() - j,
    {
        let b: u8 = line[j];
        out.push(
            if 0x20 <= b && b < 0x7f {
                b as char
            } else {
                '.'
            },
        );
        proof {
            assert(out@ =~= before + line@.take(j + 1).map_values(|b: u8| shown(b)));
        }
        j += 1;
    }
    proof {
        assert(line@.take(j as int) =~= line@);
    }
    out.append("|\n");
    proof {
        assert(out@ =~= old(out)@ + line_text(off as int, line@));
    }
}

/// The dump of `bytes`, which stand at `start`: sixteen to a line.
pub fn hex_dump(start: u64, bytes: &[u8]) -> (r: String)
    requires
        start + bytes@.len() <= u64::MAX,
    ensures
        r@ == dump_text(start as int, bytes@, (bytes@.len() + 15) as int / 16),
{
    let mut r = String::new();
    let mut from: usize = 0;
    let ghost mut n: int = 0;
    while from < bytes.len()
        invariant
            n >= 0,
            from <= bytes@.len(),
            start + bytes@.len() <= u64::MAX,
            from == 16 * n || (from == bytes@.len() && n == (bytes@.len() + 15) / 16),
            from < 16 * n ==> n == (bytes@.len() + 15) / 16,
            r@ == dump_text(start as int, bytes@, n),
        decreases bytes@.len() - from,
    {
        let to: usize = if bytes.len() - from > 16 {
            from + 16
        } else {
            bytes.len()
        };
        let line = vstd::slice::slice_subrange(bytes, from, to);
        push_line(&mut r, start + from as u64, line);
        proof {
            n = n + 1;
        }
        from = to;
    }
    r
}

} // verus!
