//! Rendering of unsigned integers as text, as the error messages print them.
use vstd::prelude::*;

verus! {

/// `==` on two string slices: true exactly when they hold the same characters.
#[verifier::external_body]
pub(crate) fn str_equal(a: &str, b: &str) -> (r: bool)
    ensures
        r == (a@ == b@),
{
    a == b
}

/// The character of a digit below sixteen: `0`-`9`, then upper-case `A`-`F`.
pub open spec fn digit_char(d: nat) -> char {
    if d == 0 { '0' }
    else if d == 1 { '1' }
    else if d == 2 { '2' }
    else if d == 3 { '3' }
    else if d == 4 { '4' }
    else if d == 5 { '5' }
    else if d == 6 { '6' }
    else if d == 7 { '7' }
    else if d == 8 { '8' }
    else if d == 9 { '9' }
    else if d == 10 { 'A' }
    else if d == 11 { 'B' }
    else if d == 12 { 'C' }
    else if d == 13 { 'D' }
    else if d == 14 { 'E' }
    else { 'F' }
}

/// The decimal digits of `n`, most significant first, without leading zeros
/// (zero itself is the single digit `0`).
pub open spec fn decimal_digits(n: nat) -> Seq<char>
    decreases n,
{
    if n < 10 {
        seq![digit_char(n)]
    } else {
        decimal_digits(n / 10).push(digit_char(n % 10))
    }
}

/// The upper-case hexadecimal digits of `n`, most significant first, without
/// leading zeros (zero itself is the single digit `0`).
pub open spec fn hex_digits(n: nat) -> Seq<char>
    decreases n,
{
    if n < 16 {
        seq![digit_char(n)]
    } else {
        hex_digits(n / 16).push(digit_char(n % 16))
    }
}

/// The one-character text of a digit below sixteen.
fn digit_str(d: u8) -> (s: &'static str)
    requires
        d < 16,
    ensures
        s@ == seq![digit_char(d as nat)],
{
    match d {
        0 => {
            proof { reveal_strlit("0"); }
            "0"
        },
        1 => {
            proof { reveal_strlit("1"); }
            "1"
        },
        2 => {
            proof { reveal_strlit("2"); }
            "2"
        },
        3 => {
            proof { reveal_strlit("3"); }
            "3"
        },
        4 => {
            proof { reveal_strlit("4"); }
            "4"
        },
        5 => {
            proof { reveal_strlit("5"); }
            "5"
        },
        6 => {
            proof { reveal_strlit("6"); }
            "6"
        },
        7 => {
            proof { reveal_strlit("7"); }
            "7"
        },
        8 => {
            proof { reveal_strlit("8"); }
            "8"
        },
        9 => {
            proof { reveal_strlit("9"); }
            "9"
        },
        10 => {
            proof { reveal_strlit("A"); }
            "A"
        },
        11 => {
            proof { reveal_strlit("B"); }
            "B"
        },
        12 => {
            proof { reveal_strlit("C"); }
            "C"
        },
        13 => {
            proof { reveal_strlit("D"); }
            "D"
        },
        14 => {
            proof { reveal_strlit("E"); }
            "E"
        },
        _ => {
            proof { reveal_strlit("F"); }
            "F"
        },
    }
}

/// Writes `n` in decimal, as `{}` formats an unsigned integer.
pub fn decimal_string(n: u64) -> (s: String)
    ensures
        s@ == decimal_digits(n as nat),
    decreases n,
{
    if n < 10 {
        String::from_str(digit_str(n as u8))
    } else {
        let mut s = decimal_string(n / 10);
        s.append(digit_str((n % 10) as u8));
        s
    }
}

/// Writes `n` in upper-case hexadecimal, as `{:X}` formats an unsigned integer.
pub fn hex_string(n: u32) -> (s: String)
    ensures
        s@ == hex_digits(n as nat),
    decreases n,
{
    if n < 16 {
        String::from_str(digit_str(n as u8))
    } else {
        let mut s = hex_string(n / 16);
        s.append(digit_str((n % 16) as u8));
        s
    }
}

/// The number a digit character stands for: `0`-`9` are zero to nine,
/// `A`-`F` ten to fifteen.
pub open spec fn char_digit_value(c: char) -> int {
    if '0' <= c && c <= '9' {
        (c as int) - ('0' as int)
    } else {
        (c as int) - ('A' as int) + 10
    }
}

/// The number that the digits `s`, most significant first, stand for in `base`.
pub open spec fn digits_value(s: Seq<char>, base: int) -> int
    decreases s.len(),
{
    if s.len() == 0 {
        0
    } else {
        digits_value(s.drop_last(), base) * base + char_digit_value(s.last())
    }
}

/// The decimal text of `n` reads back as `n`: it is made of the digits `0`-`9`
/// only, it has no leading zero (zero itself is the single digit `0`), and
/// its digits stand for `n`.
pub proof fn law_decimal_digits_read_back(n: nat)
    ensures
        decimal_digits(n).len() >= 1,
        forall|i: int| 0 <= i < decimal_digits(n).len() ==> '0' <= #[trigger] decimal_digits(n)[i] && decimal_digits(n)[i] <= '9',
        decimal_digits(n)[0] == '0' ==> n == 0 && decimal_digits(n).len() == 1,
        digits_value(decimal_digits(n), 10) == n,
    decreases n,
{
    if n >= 10 {
        law_decimal_digits_read_back(n / 10);
        let prev = decimal_digits(n / 10);
        let d = decimal_digits(n);
        assert(d == prev.push(digit_char(n % 10)));
        assert(d.drop_last() =~= prev);
        assert(char_digit_value(digit_char(n % 10)) == n % 10);
        assert forall|i: int| 0 <= i < d.len() implies '0' <= #[trigger] d[i] && d[i] <= '9' by {
            if i < prev.len() {
                assert(d[i] == prev[i]);
            }
        }
        assert(d[0] == prev[0]);
        assert(d.last() == digit_char(n % 10));
        assert(digits_value(d, 10) == digits_value(prev, 10) * 10 + char_digit_value(d.last()));
        assert((n / 10) * 10 + n % 10 == n);
    } else {
        let d = decimal_digits(n);
        assert(d == seq![digit_char(n)]);
        assert(d.drop_last() =~= Seq::<char>::empty());
        assert(char_digit_value(digit_char(n)) == n);
        assert(digits_value(d, 10) == digits_value(Seq::<char>::empty(), 10) * 10 + char_digit_value(d.last()));
    }
}

/// The hexadecimal text of `n` reads back as `n`: it is made of the digits
/// `0`-`9` and `A`-`F` only, it has no leading zero (zero itself is the
/// single digit `0`), and its digits stand for `n`.
pub proof fn law_hex_digits_read_back(n: nat)
    ensures
        hex_digits(n).len() >= 1,
        forall|i: int|
            0 <= i < hex_digits(n).len() ==> ('0' <= #[trigger] hex_digits(n)[i] && hex_digits(n)[i] <= '9') || (
            'A' <= hex_digits(n)[i] && hex_digits(n)[i] <= 'F'),
        hex_digits(n)[0] == '0' ==> n == 0 && hex_digits(n).len() == 1,
        digits_value(hex_digits(n), 16) == n,
    decreases n,
{
    if n >= 16 {
        law_hex_digits_read_back(n / 16);
        let prev = hex_digits(n / 16);
        let d = hex_digits(n);
        assert(d == prev.push(digit_char(n % 16)));
        assert(d.drop_last() =~= prev);
        assert(char_digit_value(digit_char(n % 16)) == n % 16);
        assert forall|i: int|
            0 <= i < d.len() implies ('0' <= #[trigger] d[i] && d[i] <= '9') || ('A' <= d[i] && d[i] <= 'F') by {
            if i < prev.len() {
                assert(d[i] == prev[i]);
            }
        }
        assert(d[0] == prev[0]);
        assert(d.last() == digit_char(n % 16));
        assert(digits_value(d, 16) == digits_value(prev, 16) * 16 + char_digit_value(d.last()));
        assert((n / 16) * 16 + n % 16 == n);
    } else {
        let d = hex_digits(n);
        assert(d == seq![digit_char(n)]);
        assert(d.drop_last() =~= Seq::<char>::empty());
        assert(char_digit_value(digit_char(n)) == n);
        assert(digits_value(d, 16) == digits_value(Seq::<char>::empty(), 16) * 16 + char_digit_value(d.last()));
    }
}

} // verus!
