//! Verified text rendering for the diagnostic dump of the backing storage:
//! fixed-width hexadecimal fingerprints and decimal bucket labels.

use vstd::prelude::*;
use vstd::string::StringExecFns;

verus! {

/// The character for one digit value in base 16.
pub open spec fn digit_char(n: int) -> char {
    if n == 0 {
        '0'
    } else if n == 1 {
        '1'
    } else if n == 2 {
        '2'
    } else if n == 3 {
        '3'
    } else if n == 4 {
        '4'
    } else if n == 5 {
        '5'
    } else if n == 6 {
        '6'
    } else if n == 7 {
        '7'
    } else if n == 8 {
        '8'
    } else if n == 9 {
        '9'
    } else if n == 10 {
        'a'
    } else if n == 11 {
        'b'
    } else if n == 12 {
        'c'
    } else if n == 13 {
        'd'
    } else if n == 14 {
        'e'
    } else {
        'f'
    }
}

/// A 64-bit value as 16 hexadecimal characters, most significant first.
pub open spec fn hex16(v: u64) -> Seq<char> {
    Seq::new(16, |i: int| digit_char(((v >> (((15 - i) * 4) as u64)) & 0xf) as int))
}

/// A non-negative number in decimal, most significant digit first.
pub open spec fn dec_digits(n: int) -> Seq<char>
    decreases n,
{
    if n < 10 {
        seq![digit_char(n)]
    } else {
        dec_digits(n / 10).push(digit_char(n % 10))
    }
}

/// A decimal number padded with a space to a width of at least two.
pub open spec fn dec_label(n: int) -> Seq<char> {
    if n < 10 {
        seq![' '] + dec_digits(n)
    } else {
        dec_digits(n)
    }
}

/// The one-character string for a digit value below 16.
fn digit_str(d: u64) -> (r: &'static str)
    requires
        d < 16,
    ensures
        r@ == seq![digit_char(d as int)],
{
    proof {
        reveal_strlit("0");
        reveal_strlit("1");
        reveal_strlit("2");
        reveal_strlit("3");
        reveal_strlit("4");
        reveal_strlit("5");
        reveal_strlit("6");
        reveal_strlit("7");
        reveal_strlit("8");
        reveal_strlit("9");
        reveal_strlit("a");
        reveal_strlit("b");
        reveal_strlit("c");
        reveal_strlit("d");
        reveal_strlit("e");
        reveal_strlit("f");
    }
    let r: &'static str = match d {
        0 => "0",
        1 => "1",
        2 => "2",
        3 => "3",
        4 => "4",
        5 => "5",
        6 => "6",
        7 => "7",
        8 => "8",
        9 => "9",
        10 => "a",
        11 => "b",
        12 => "c",
        13 => "d",
        14 => "e",
        _ => "f",
    };
    proof {
        assert(r@ =~= seq![digit_char(d as int)]);
    }
    r
}

/// Append the 16 hexadecimal characters of `v`.
pub fn push_hex16(s: &mut String, v: u64)
    ensures
        final(s)@ == old(s)@ + hex16(v),
{
    let ghost start = s@;
    let mut i: u64 = 0;
    while i < 16
        invariant
            i <= 16,
            s@ == start + hex16(v).subrange(0, i as int),
        decreases 16 - i,
    {
        let shift: u64 = (15 - i) * 4;
        let nibble: u64 = (v >> shift) & 0xf;
        proof {
            assert(nibble < 16) by (bit_vector)
                requires
                    nibble == (v >> shift) & 0xf,
            ;
            assert(hex16(v)[i as int] == digit_char(nibble as int));
        }
        s.append(digit_str(nibble));
        proof {
            assert(hex16(v).subrange(0, i + 1) =~= hex16(v).subrange(0, i as int).push(
                hex16(v)[i as int],
            ));
            assert(start + hex16(v).subrange(0, i as int) + seq![digit_char(nibble as int)]
                =~= start + hex16(v).subrange(0, i + 1));
        }
        i += 1;
    }
    proof {
        assert(hex16(v).subrange(0, 16) =~= hex16(v));
    }
}

/// Append the decimal digits of `n`.
pub fn push_dec(s: &mut String, n: usize)
    ensures
        final(s)@ == old(s)@ + dec_digits(n as int),
    decreases n,
{
    if n < 10 {
        s.append(digit_str(n as u64));
    } else {
        push_dec(s, n / 10);
        let d: usize = n % 10;
        s.append(digit_str(d as u64));
        proof {
            assert(old(s)@ + dec_digits((n / 10) as int) + seq![digit_char((n % 10) as int)]
                =~= old(s)@ + dec_digits(n as int));
        }
    }
}

/// Append the width-padded decimal bucket label of `n`.
pub fn push_dec_label(s: &mut String, n: usize)
    ensures
        final(s)@ == old(s)@ + dec_label(n as int),
{
    proof {
        reveal_strlit(" ");
    }
    if n < 10 {
        s.append(" ");
        push_dec(s, n);
        proof {
            assert(old(s)@ + " "@ + dec_digits(n as int) =~= old(s)@ + dec_label(n as int));
        }
    } else {
        push_dec(s, n);
    }
}

} // verus!
