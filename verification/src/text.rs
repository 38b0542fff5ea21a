//! Numbers as text, for the messages the simulation's refusals read as.

use vstd::prelude::*;
use crate::fx::{dec_digits, push_decimal};

verus! {

/// A signed integer in decimal: a minus sign for a negative one, then its
/// magnitude without leading zeros.
pub open spec fn dec_int(v: int) -> Seq<char> {
    if v < 0 {
        seq!['-'] + dec_digits((-v) as nat)
    } else {
        dec_digits(v as nat)
    }
}

/// A lowercase hexadecimal digit.
pub open spec fn hex_char(d: int) -> char {
    if d < 10 {
        crate::fx::digit_char(d)
    } else if d == 10 {
        'a'
    } else if d == 11 {
        'b'
    } else if d == 12 {
        'c'
    } else if d == 13 {
        'd'
    } else if d == 14 {
        'e'
    } else {
        'f'
    }
}

/// The last `n` hexadecimal digits of `v`, zero-padded, most significant
/// first.
pub open spec fn hex_digits(v: nat, n: nat) -> Seq<char>
    decreases n,
{
    if n == 0 {
        Seq::empty()
    } else {
        hex_digits(v / 16, (n - 1) as nat) + seq![hex_char((v % 16) as int)]
    }
}

/// Appends an unsigned number in decimal.
pub fn push_unsigned(s: &mut String, n: u64)
    ensures
        final(s)@ == old(s)@ + dec_digits(n as nat),
{
    push_decimal(s, n);
}

/// Appends a signed number in decimal.
pub fn push_signed(s: &mut String, v: i64)
    ensures
        final(s)@ == old(s)@ + dec_int(v as int),
{
    if v < 0 {
        s.append("-");
        proof {
            reveal_strlit("-");
        }
        let m: u64 = if v == i64::MIN { 0x8000_0000_0000_0000u64 } else { (-v) as u64 };
        push_decimal(s, m);
        proof {
            assert(old(s)@ + seq!['-'] + dec_digits(m as nat) =~= old(s)@ + dec_int(v as int));
        }
    } else {
        push_decimal(s, v as u64);
    }
}

fn hex_str(d: u64) -> (r: &'static str)
    requires
        d < 16,
    ensures
        r@ == seq![hex_char(d as int)],
{
    proof {
        reveal_strlit("0");
        reveal_strlit("1");
        reveal_strlit("2");
        reveal_strlit("3");
        reveal_strlit("4");
        reveal_strlit("5");
        reveal_strlit("6");
        reveal_strlit("7");
        reveal_strlit("8");
        reveal_strlit("9");
        reveal_strlit("a");
        reveal_strlit("b");
        reveal_strlit("c");
        reveal_strlit("d");
        reveal_strlit("e");
        reveal_strlit("f");
    }
    if d == 0 { "0" } else if d == 1 { "1" } else if d == 2 { "2" } else if d == 3 { "3" } else if d == 4 { "4" }
    else if d == 5 { "5" } else if d == 6 { "6" } else if d == 7 { "7" } else if d == 8 { "8" } else if d == 9 { "9" }
    else if d == 10 { "a" } else if d == 11 { "b" } else if d == 12 { "c" } else if d == 13 { "d" } else if d == 14 { "e" }
    else { "f" }
}

/// Appends the last `n` hexadecimal digits of `v`, zero-padded.
pub fn push_hex(s: &mut String, v: u64, n: u32)
    ensures
        final(s)@ == old(s)@ + hex_digits(v as nat, n as nat),
    decreases n,
{
    if n > 0 {
        push_hex(s, v / 16, n - 1);
        s.append(hex_str(v % 16));
        proof {
            assert(old(s)@ + hex_digits((v / 16) as nat, (n - 1) as nat) + seq![hex_char((v % 16) as int)] =~= old(s)@
                + hex_digits(v as nat, n as nat));
        }
    } else {
        proof {
            assert(old(s)@ + hex_digits(v as nat, 0) =~= old(s)@);
        }
    }
}

} // verus!
