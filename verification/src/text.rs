//! Numbers and identifiers as text a person reads.
use vstd::prelude::*;

verus! {

/// The digit for `n` in any base up to sixteen.
pub open spec fn digit(n: int) -> char {
    if n < 10 {
        (0x30 + n) as char
    } else {
        (0x57 + n) as char
    }
}

/// `n` in base `radix`, without leading zeros.
pub open spec fn number(n: int, radix: int) -> Seq<char>
    decreases n,
{
    if n < radix || radix < 2 {
        seq![digit(n)]
    } else {
        proof {
            vstd::arithmetic::div_mod::lemma_div_decreases(n, radix);
            vstd::arithmetic::div_mod::lemma_div_pos_is_pos(n, radix);
        }
        number(n / radix, radix).push(digit(n % radix))
    }
}

/// One byte as two hexadecimal digits.
pub open spec fn hex_byte(b: u8) -> Seq<char> {
    seq![digit(b as int / 16), digit(b as int % 16)]
}

/// Bytes as hexadecimal digits, two for each.
pub open spec fn hex_text(bytes: Seq<u8>) -> Seq<char>
    decreases bytes.len(),
{
    if bytes.len() == 0 {
        seq![]
    } else {
        hex_text(bytes.drop_last()) + hex_byte(bytes.last())
    }
}

/// `String::push`: the character goes to the end of the text.
pub assume_specification[ String::push ](s: &mut String, c: char)
    ensures
        final(s)@ == old(s)@.push(c),
;

/// Append the digit for `n`.
pub fn push_digit(out: &mut String, n: u8)
    requires
        n < 16,
    ensures
        final(out)@ == old(out)@.push(digit(n as int)),
{
    if n < 10 {
        out.push((0x30 + n) as char);
    } else {
        out.push((0x57 + n) as char);
    }
}

/// Append `n` in base `radix`.
pub fn push_number(out: &mut String, n: u64, radix: u64)
    requires
        2 <= radix <= 16,
    ensures
        final(out)@ == old(out)@ + number(n as int, radix as int),
    decreases n,
{
    if n < radix {
        push_digit(out, n as u8);
    } else {
        proof {
            vstd::arithmetic::div_mod::lemma_div_decreases(n as int, radix as int);
        }
        push_number(out, n / radix, radix);
        push_digit(out, (n % radix) as u8);
    }
    proof {
        assert(out@ =~= old(out)@ + number(n as int, radix as int));
    }
}

/// Append one byte as two hexadecimal digits.
pub fn push_hex_byte(out: &mut String, b: u8)
    ensures
        final(out)@ == old(out)@ + hex_byte(b),
{
    push_digit(out, b / 16);
    push_digit(out, b % 16);
    proof {
        assert(out@ =~= old(out)@ + hex_byte(b));
    }
}

/// Sixteen bytes as hex, for an error a person reads.
pub fn hex16(id: &[u8; 16]) -> (r: String)
    ensures
        r@ == hex_text(id@),
{
    let mut r = String::new();
    let mut i: usize = 0;
    while i < 16
        invariant
            i <= 16,
            r@ == hex_text(id@.take(i as int)),
        decreases 16 - i,
    {
        push_hex_byte(&mut r, id[i]);
        proof {
            assert(id@.take(i + 1).drop_last() =~= id@.take(i as int));
            assert(id@.take(i + 1).last() == id@[i as int]);
        }
        i += 1;
    }
    proof {
        assert(id@.take(16) =~= id@);
    }
    r
}

} // verus!
