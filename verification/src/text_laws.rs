//! What numbers, bytes and errors look like as text, and what text is read
//! as a number.
use crate::error;
use crate::error::Error;
use crate::opening;
use crate::text;
use crate::tool;
use crate::tool::ParseFault;
use vstd::prelude::*;

verus! {

/// What a digit is worth: `0` to `9`, and `a` to `f` in either case. Any
/// other character is worth more than a digit can be.
pub open spec fn worth(c: char) -> int {
    let n = c as int;
    if 48 <= n <= 57 {
        n - 48
    } else if 97 <= n <= 102 {
        n - 87
    } else if 65 <= n <= 70 {
        n - 55
    } else {
        99
    }
}

/// What a run of digits is worth.
pub open spec fn value(digits: Seq<char>, radix: int) -> int {
    digits.fold_left(0int, |v: int, c: char| v * radix + worth(c))
}

/// Every character is a digit of this base.
pub open spec fn all_digits(digits: Seq<char>, radix: int) -> bool {
    forall|i: int| 0 <= i < digits.len() ==> worth(#[trigger] digits[i]) < radix
}

proof fn lemma_value_step(digits: Seq<char>, radix: int)
    ensures
        digits.len() == 0 ==> value(digits, radix) == 0,
        digits.len() > 0 ==> value(digits, radix) == value(digits.drop_last(), radix) * radix + worth(
            digits.last(),
        ),
{
    reveal_with_fuel(Seq::fold_left, 2);
}

proof fn lemma_value_is_natural(digits: Seq<char>, radix: int)
    requires
        radix >= 2,
    ensures
        value(digits, radix) >= 0,
    decreases digits.len(),
{
    lemma_value_step(digits, radix);
    if digits.len() > 0 {
        lemma_value_is_natural(digits.drop_last(), radix);
        let v = value(digits.drop_last(), radix);
        assert(v * radix >= 0) by (nonlinear_arith)
            requires
                v >= 0,
                radix >= 2,
        ;
    }
}

/// The digit for a number below sixteen is worth that number, and no letter
/// in it is a capital.
pub proof fn law_digit_is_worth_its_number(n: int)
    requires
        0 <= n < 16,
    ensures
        worth(text::digit(n)) == n,
        48 <= text::digit(n) as int <= 57 || 97 <= text::digit(n) as int <= 102,
{
}

/// A number written in any base up to sixteen is digits of that base that
/// are worth it, with no zero in front but for zero itself.
#[verifier::rlimit(40)]
pub proof fn law_number_is_worth_itself(n: int, radix: int)
    requires
        0 <= n,
        2 <= radix <= 16,
    ensures
        text::number(n, radix).len() > 0,
        value(text::number(n, radix), radix) == n,
        all_digits(text::number(n, radix), radix),
        text::number(n, radix).len() > 1 ==> worth(text::number(n, radix)[0]) > 0,
        n > 0 ==> worth(text::number(n, radix)[0]) > 0,
        forall|i: int|
            0 <= i < text::number(n, radix).len() ==> !(65 <= (#[trigger] text::number(
                n,
                radix,
            )[i]) as int <= 70),
    decreases n,
{
    let t = text::number(n, radix);
    lemma_value_step(t, radix);
    if n < radix {
        law_digit_is_worth_its_number(n);
        lemma_value_step(t.drop_last(), radix);
        assert(t == seq![text::digit(n)]);
        assert(0 * radix == 0);
    } else {
        vstd::arithmetic::div_mod::lemma_div_decreases(n, radix);
        vstd::arithmetic::div_mod::lemma_div_pos_is_pos(n, radix);
        vstd::arithmetic::div_mod::lemma_fundamental_div_mod(n, radix);
        vstd::arithmetic::div_mod::lemma_mod_bound(n, radix);
        assert(n / radix >= 1) by (nonlinear_arith)
            requires
                n >= radix,
                radix >= 2,
        ;
        law_number_is_worth_itself(n / radix, radix);
        law_digit_is_worth_its_number(n % radix);
        let front = text::number(n / radix, radix);
        assert(t == front.push(text::digit(n % radix)));
        assert(t.drop_last() =~= front);
        assert(t[0] == front[0]);
        assert(radix * (n / radix) == n / radix * radix) by (nonlinear_arith);
        assert forall|i: int| 0 <= i < t.len() implies worth(#[trigger] t[i]) < radix && !(65
            <= t[i] as int <= 70) by {
            if i < front.len() {
                assert(t[i] == front[i]);
                assert(worth(front[i]) < radix);
            }
        }
    }
}

/// Bytes in hexadecimal: two digits for each, the upper half first.
pub proof fn law_hex_text_has_two_digits_for_each_byte(bytes: Seq<u8>, i: int)
    ensures
        text::hex_text(bytes).len() == 2 * bytes.len(),
        0 <= i < bytes.len() ==> worth(text::hex_text(bytes)[2 * i]) == bytes[i] as int / 16 && worth(
            text::hex_text(bytes)[2 * i + 1],
        ) == bytes[i] as int % 16,
        0 <= i < 2 * bytes.len() ==> !(65 <= text::hex_text(bytes)[i] as int <= 70),
    decreases bytes.len(),
{
    if bytes.len() > 0 {
        let front = text::hex_text(bytes.drop_last());
        let b = bytes.last();
        law_hex_text_has_two_digits_for_each_byte(bytes.drop_last(), i);
        law_digit_is_worth_its_number(b as int / 16);
        law_digit_is_worth_its_number(b as int % 16);
        assert(text::hex_text(bytes) == front + text::hex_byte(b));
        if 0 <= i < bytes.len() - 1 {
            assert(bytes.drop_last()[i] == bytes[i]);
        }
    }
}

proof fn lemma_digit_value(c: char, radix: int)
    requires
        2 <= radix <= 16,
    ensures
        worth(c) < radix ==> tool::digit_value(c, radix) == Some(worth(c)),
        worth(c) >= radix ==> tool::digit_value(c, radix) is None,
        0 <= worth(c),
{
}

proof fn lemma_digits_value(s: Seq<char>, from: int, to: int, radix: int)
    requires
        0 <= from <= to <= s.len(),
        2 <= radix <= 16,
        all_digits(s.subrange(from, to), radix),
    ensures
        value(s.subrange(from, to), radix) <= 0xFFFF_FFFF_FFFF_FFFF ==> tool::digits_value(
            s,
            from,
            to,
            radix,
        ) == Ok::<int, ParseFault>(value(s.subrange(from, to), radix)),
        value(s.subrange(from, to), radix) > 0xFFFF_FFFF_FFFF_FFFF ==> tool::digits_value(
            s,
            from,
            to,
            radix,
        ) == Err::<int, ParseFault>(ParseFault::TooLarge),
    decreases to - from,
{
    let body = s.subrange(from, to);
    lemma_value_step(body, radix);
    if from < to {
        let front = s.subrange(from, to - 1);
        assert(body.drop_last() =~= front);
        assert forall|i: int| 0 <= i < front.len() implies worth(#[trigger] front[i]) < radix by {
            assert(front[i] == body[i]);
        }
        lemma_digits_value(s, from, to - 1, radix);
        lemma_digit_value(s[to - 1], radix);
        assert(body.last() == s[to - 1]);
        assert(worth(body[to - from - 1]) < radix);
        lemma_value_is_natural(front, radix);
        let v = value(front, radix);
        assert(v * radix >= v) by (nonlinear_arith)
            requires
                v >= 0,
                radix >= 2,
        ;
    }
}

/// The text that is read as a number: a mark before hexadecimal digits, a
/// plus sign if there is one, then the digits.
pub open spec fn written(mark: Seq<char>, plus: bool, digits: Seq<char>) -> Seq<char> {
    mark + (if plus {
        seq!['+']
    } else {
        seq![]
    }) + digits
}

/// The base that a mark stands for: sixteen for `0x` and `0X`, ten for none.
pub open spec fn base_of(mark: Seq<char>, radix: int) -> bool {
    ||| mark.len() == 0 && radix == 10
    ||| mark == seq!['0', 'x'] && radix == 16
    ||| mark == seq!['0', 'X'] && radix == 16
}

/// Digits are read as the number that they are worth, as far as 64 bits
/// hold it: hexadecimal behind `0x` or `0X`, else decimal, with or without
/// a plus sign.
#[verifier::rlimit(40)]
pub proof fn law_digits_are_read_as_their_worth(
    mark: Seq<char>,
    plus: bool,
    digits: Seq<char>,
    radix: int,
)
    requires
        base_of(mark, radix),
        digits.len() > 0,
        all_digits(digits, radix),
    ensures
        value(digits, radix) <= 0xFFFF_FFFF_FFFF_FFFF ==> tool::parsed(written(mark, plus, digits))
            == Ok::<int, ParseFault>(value(digits, radix)),
        value(digits, radix) > 0xFFFF_FFFF_FFFF_FFFF ==> tool::parsed(written(mark, plus, digits))
            == Err::<int, ParseFault>(ParseFault::TooLarge),
        tool::hex_marked(written(mark, plus, digits)) <==> radix == 16,
{
    let s = written(mark, plus, digits);
    let from = mark.len() + if plus {
        1int
    } else {
        0
    };
    assert(s.subrange(from, s.len() as int) =~= digits);
    assert(worth(digits[0]) < radix);
    lemma_digits_value(s, from, s.len() as int, radix);
    if mark.len() == 0 {
        if plus {
            assert(s[0] == '+');
        } else {
            assert(s[0] == digits[0]);
            if s.len() >= 2 {
                assert(s[1] == digits[1]);
                assert(worth(digits[1]) < 10);
            }
        }
        assert(!tool::hex_marked(s));
    } else {
        assert(s[0] == mark[0] && s[1] == mark[1]);
    }
    if !plus {
        assert(s[mark.len() as int] == digits[0]);
    } else {
        assert(s[mark.len() as int] == '+');
    }
}

/// Every number of 64 bits that is written out is read as itself, decimal
/// and hexadecimal.
pub proof fn law_every_number_is_read_back(n: u64)
    ensures
        tool::parsed(text::number(n as int, 10)) == Ok::<int, ParseFault>(n as int),
        tool::parsed(seq!['0', 'x'] + text::number(n as int, 16)) == Ok::<int, ParseFault>(n as int),
{
    let none: Seq<char> = seq![];
    law_number_is_worth_itself(n as int, 10);
    law_number_is_worth_itself(n as int, 16);
    law_digits_are_read_as_their_worth(none, false, text::number(n as int, 10), 10);
    law_digits_are_read_as_their_worth(seq!['0', 'x'], false, text::number(n as int, 16), 16);
    assert(written(none, false, text::number(n as int, 10)) =~= text::number(n as int, 10));
    assert(written(seq!['0', 'x'], false, text::number(n as int, 16)) =~= seq!['0', 'x']
        + text::number(n as int, 16));
}

proof fn lemma_bad_digit(s: Seq<char>, from: int, to: int, radix: int, at: int)
    requires
        0 <= from <= at < to <= s.len(),
        2 <= radix <= 16,
        all_digits(s.subrange(from, at), radix),
        worth(s[at]) >= radix,
    ensures
        tool::digits_value(s, from, to, radix) == Err::<int, ParseFault>(
            if value(s.subrange(from, at), radix) <= 0xFFFF_FFFF_FFFF_FFFF {
                ParseFault::InvalidDigit
            } else {
                ParseFault::TooLarge
            },
        ),
    decreases to - at,
{
    if at < to - 1 {
        lemma_bad_digit(s, from, to - 1, radix, at);
    } else {
        lemma_digits_value(s, from, at, radix);
        lemma_digit_value(s[at], radix);
    }
}

/// Text in which something else than a digit stands is no number: the fault
/// is that character, unless the digits before it are too many already. A
/// plus sign alone is a fault, and so is nothing at all.
#[verifier::rlimit(40)]
pub proof fn law_other_text_is_no_number(
    mark: Seq<char>,
    plus: bool,
    digits: Seq<char>,
    other: char,
    rest: Seq<char>,
    radix: int,
)
    requires
        base_of(mark, radix),
        all_digits(digits, radix),
        worth(other) >= radix,
        // What stands first is no sign, and no mark has been taken for digits.
        other != '+' || plus || digits.len() > 0,
        !(mark.len() == 0 && !plus && digits == seq!['0'] && (other == 'x' || other == 'X')),
    ensures
        tool::parsed(written(mark, plus, digits + seq![other] + rest)) == Err::<int, ParseFault>(
            if value(digits, radix) <= 0xFFFF_FFFF_FFFF_FFFF {
                ParseFault::InvalidDigit
            } else {
                ParseFault::TooLarge
            },
        ),
        tool::hex_marked(written(mark, plus, digits + seq![other] + rest)) <==> radix == 16,
        tool::hex_marked(mark) <==> radix == 16,
        tool::parsed(mark) == Err::<int, ParseFault>(ParseFault::Empty),
        tool::parsed(mark + seq!['+']) == Err::<int, ParseFault>(ParseFault::InvalidDigit),
{
    let body = digits + seq![other] + rest;
    let s = written(mark, plus, body);
    let from = mark.len() + if plus {
        1int
    } else {
        0
    };
    assert(s.subrange(from, from + digits.len()) =~= digits);
    assert(s[from + digits.len()] == other);
    lemma_bad_digit(s, from, s.len() as int, radix, from + digits.len());
    if mark.len() == 0 {
        if plus {
            assert(s[0] == '+');
        } else {
            assert(s[0] == body[0]);
            if digits.len() > 1 {
                assert(s[1] == digits[1]);
                assert(worth(digits[1]) < 10);
            } else if digits.len() == 1 {
                assert(s[1] == other);
                if digits[0] == '0' {
                    assert(digits =~= seq!['0']);
                }
            } else {
                assert(s[0] == other);
            }
        }
        assert(!tool::hex_marked(s));
        assert(mark + seq!['+'] =~= seq!['+']);
    } else {
        assert(s[0] == mark[0] && s[1] == mark[1]);
        let t = mark + seq!['+'];
        assert(t[0] == mark[0] && t[1] == mark[1] && t[2] == '+');
    }
    if plus {
        assert(s[mark.len() as int] == '+');
    } else if digits.len() > 0 {
        assert(s[mark.len() as int] == digits[0]);
        assert(worth(digits[0]) < radix);
    } else {
        assert(s[mark.len() as int] == other);
    }
}

proof fn lemma_zeros_are_worth_nothing(zeros: nat, digits: Seq<char>, radix: int)
    requires
        radix >= 2,
    ensures
        value(Seq::new(zeros, |i: int| '0') + digits, radix) == value(digits, radix),
    decreases zeros + digits.len(),
{
    let z = Seq::new(zeros, |i: int| '0');
    let t = z + digits;
    lemma_value_step(t, radix);
    lemma_value_step(digits, radix);
    if digits.len() > 0 {
        lemma_zeros_are_worth_nothing(zeros, digits.drop_last(), radix);
        assert(t.drop_last() =~= z + digits.drop_last());
        assert(t.last() == digits.last());
    } else if zeros > 0 {
        lemma_zeros_are_worth_nothing((zeros - 1) as nat, digits, radix);
        assert(t.drop_last() =~= Seq::new((zeros - 1) as nat, |i: int| '0') + digits);
        assert(t.last() == '0');
        assert(0 * radix == 0);
    }
}

/// The offset that a line of a dump starts with: hexadecimal, worth the
/// offset, eight digits or more, and more only where it has to be.
pub proof fn law_offset_text_is_worth_the_offset(off: int)
    requires
        0 <= off,
    ensures
        value(tool::offset_text(off), 16) == off,
        tool::offset_text(off).len() >= 8,
        tool::offset_text(off).len() > 8 ==> worth(tool::offset_text(off)[0]) > 0,
        all_digits(tool::offset_text(off), 16),
{
    let digits = text::number(off, 16);
    law_number_is_worth_itself(off, 16);
    let missing = if digits.len() < 8 {
        (8 - digits.len()) as nat
    } else {
        0
    };
    lemma_zeros_are_worth_nothing(missing, digits, 16);
    let t = tool::offset_text(off);
    assert(t =~= Seq::new(missing, |i: int| '0') + digits);
    assert forall|i: int| 0 <= i < t.len() implies worth(#[trigger] t[i]) < 16 by {
        if i >= missing {
            assert(t[i] == digits[i - missing]);
        }
    }
}

/// Where the digits of byte `j` of a line stand: three characters for each
/// byte before it, and one more behind the eighth.
pub open spec fn column(j: int) -> int {
    3 * j + if j >= 8 {
        1int
    } else {
        0
    }
}

proof fn lemma_bytes_text(line: Seq<u8>, j: int)
    ensures
        tool::bytes_text(line).len() == column(line.len() as int),
        0 <= j < line.len() ==> {
            let t = tool::bytes_text(line);
            &&& worth(t[column(j)]) == line[j] as int / 16
            &&& worth(t[column(j) + 1]) == line[j] as int % 16
            &&& t[column(j) + 2] == ' '
        },
        line.len() >= 8 ==> tool::bytes_text(line)[24] == ' ',
    decreases line.len(),
{
    if line.len() > 0 {
        let front = line.drop_last();
        let b = line.last();
        lemma_bytes_text(front, j);
        law_digit_is_worth_its_number(b as int / 16);
        law_digit_is_worth_its_number(b as int % 16);
        let n = column(line.len() - 1);
        let t = tool::bytes_text(line);
        assert(t[n] == text::hex_byte(b)[0]);
        assert(t[n + 1] == text::hex_byte(b)[1]);
        assert(t[n + 2] == ' ');
        if 0 <= j < front.len() {
            assert(front[j] == line[j]);
            let f = tool::bytes_text(front);
            assert(t[column(j)] == f[column(j)]);
            assert(t[column(j) + 1] == f[column(j) + 1]);
            assert(t[column(j) + 2] == f[column(j) + 2]);
        }
        if line.len() > 8 {
            assert(t[24] == tool::bytes_text(front)[24]);
        }
    }
}

/// A line of a dump, character by character: the offset; two spaces; two
/// digits and a space for each byte, with one more space behind the eighth,
/// and spaces in their place where there are fewer than sixteen; a space
/// and a bar; each byte as its character where it has one that prints, else
/// as a dot; a bar and the line's end.
#[verifier::rlimit(40)]
pub proof fn law_line_shows_every_byte(off: int, line: Seq<u8>, j: int)
    requires
        0 <= off,
        line.len() <= 16,
    ensures
        ({
            let t = tool::line_text(off, line);
            let o = tool::offset_text(off).len() as int;
            let wide = column(line.len() as int) + 3 * (16 - line.len());
            let c = o + 2 + wide + 2;
            &&& t.len() == c + line.len() + 2
            &&& t.take(o) == tool::offset_text(off)
            &&& t[o] == ' ' && t[o + 1] == ' '
            &&& 0 <= j < line.len() ==> {
                &&& worth(t[o + 2 + column(j)]) == line[j] as int / 16
                &&& worth(t[o + 2 + column(j) + 1]) == line[j] as int % 16
                &&& t[o + 2 + column(j) + 2] == ' '
                &&& t[c + j] as int == if 32 <= line[j] <= 126 {
                    line[j] as int
                } else {
                    46
                }
            }
            &&& column(line.len() as int) <= j < wide ==> t[o + 2 + j] == ' '
            &&& t[c - 2] == ' ' && t[c - 1] == '|'
            &&& t[c + line.len()] == '|' && t[c + line.len() + 1] == '\n'
        }),
{
    reveal_strlit("  ");
    reveal_strlit(" |");
    reveal_strlit("|\n");
    lemma_bytes_text(line, j);
    let t = tool::line_text(off, line);
    let o = tool::offset_text(off);
    let b = tool::bytes_text(line);
    assert(t.take(o.len() as int) =~= o);
    if 0 <= j < line.len() {
        assert(t[o.len() + 2 + column(j)] == b[column(j)]);
        assert(t[o.len() + 2 + column(j) + 1] == b[column(j) + 1]);
        assert(t[o.len() + 2 + column(j) + 2] == b[column(j) + 2]);
    }
}

/// A dump of no line is empty, and one of a line more has the next sixteen
/// bytes, or what is left of them, behind it.
pub proof fn law_dump_is_line_by_line(start: int, bytes: Seq<u8>, n: int)
    requires
        0 <= n,
        16 * n < bytes.len(),
    ensures
        tool::dump_text(start, bytes, 0).len() == 0,
        16 * n + 16 <= bytes.len() ==> tool::dump_text(start, bytes, n + 1) == tool::dump_text(
            start,
            bytes,
            n,
        ) + tool::line_text(start + 16 * n, bytes.subrange(16 * n, 16 * n + 16)),
        16 * n + 16 > bytes.len() ==> tool::dump_text(start, bytes, n + 1) == tool::dump_text(
            start,
            bytes,
            n,
        ) + tool::line_text(start + 16 * n, bytes.skip(16 * n)),
{
    assert(bytes.skip(16 * n) =~= bytes.subrange(16 * n, bytes.len() as int));
}

/// What is said of each error.
pub proof fn law_words_of_errors(e: Error)
    ensures
        match e {
            Error::Io(_) => e.words() == "io: "@,
            Error::NotVhd => e.words() == "not a VHD image (missing or invalid footer)"@,
            Error::BadChecksum { expected, found, what } => e.words() == what@
                + " checksum mismatch: expected 0x"@ + text::number(expected as int, 16)
                + ", found 0x"@ + text::number(found as int, 16),
            Error::UnsupportedDiskType(t) => e.words() == "unsupported VHD disk type: "@
                + text::number(t as int, 10),
            Error::Corrupt(what) => e.words() == "corrupt VHD: "@ + what@,
            Error::Unsupported(what) => e.words() == "unsupported VHD feature: "@ + what@,
            Error::OutOfBounds { offset, len, size } => e.words() == "read ["@ + text::number(
                offset as int,
                10,
            ) + ", "@ + text::number(offset as int, 10) + "+"@ + text::number(len as int, 10)
                + ") past virtual size "@ + text::number(size as int, 10),
            Error::ParentTooDeep => e.words() == "differencing chain too deep (cycle?)"@,
            Error::ParentNotFound(what) => e.words() == "differencing parent not found: "@ + what@,
            Error::ReadOnly => e.words()
                == "VHD is read-only (opened RO, or write path not yet implemented for this subtype)"@,
            Error::Custom(what) => e.words() == what@,
        },
{
}

/// What is said of a parent that is another than its child names, of one
/// that is not there, and of a read that came up short.
pub proof fn law_words_of_particulars(
    found: Seq<u8>,
    named: Seq<u8>,
    shown: Seq<char>,
    offset: u64,
    want: usize,
    got: usize,
)
    ensures
        opening::stranger_text(found, named) == "found a parent whose unique_id is "@
            + text::hex_text(found) + " where the child names "@ + text::hex_text(named),
        opening::tried_text(shown) == "tried '"@ + shown + "'"@,
        error::short_read_words(offset as int, want as int, got as int) == "short read at "@
            + text::number(offset as int, 10) + ": wanted "@ + text::number(want as int, 10)
            + " got "@ + text::number(got as int, 10),
{
}

} // verus!
