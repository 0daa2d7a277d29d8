//! Character-level text utilities: template-marker detection and decimal
//! number reading and writing, verified against sequence-of-character specs.

use vstd::prelude::*;

verus! {

/// Whether a string contains the opening template marker `{{`.
pub open spec fn has_marker(s: Seq<char>) -> bool {
    exists|i: int| 0 <= i && i + 1 < s.len() && #[trigger] s[i] == '{' && s[i + 1] == '{'
}

/// Scans for the template marker `{{`.
pub fn contains_marker(s: &str) -> (r: bool)
    ensures
        r == has_marker(s@),
{
    let n = s.unicode_len();
    if n < 2 {
        return false;
    }
    let mut i: usize = 0;
    while i + 1 < n
        invariant
            n == s@.len(),
            i + 1 <= n,
            forall|k: int| 0 <= k && k + 1 < i + 1 ==> !(#[trigger] s@[k] == '{' && s@[k + 1]
                == '{'),
        decreases n - i,
    {
        if s.get_char(i) == '{' && s.get_char(i + 1) == '{' {
            return true;
        }
        i = i + 1;
    }
    false
}

/// The ten decimal digit characters.
pub open spec fn is_digit(c: char) -> bool {
    c == '0' || c == '1' || c == '2' || c == '3' || c == '4' || c == '5' || c == '6' || c == '7'
        || c == '8' || c == '9'
}

/// The numeric value of a digit character.
pub open spec fn digit_val(c: char) -> int {
    if c == '0' {
        0
    } else if c == '1' {
        1
    } else if c == '2' {
        2
    } else if c == '3' {
        3
    } else if c == '4' {
        4
    } else if c == '5' {
        5
    } else if c == '6' {
        6
    } else if c == '7' {
        7
    } else if c == '8' {
        8
    } else {
        9
    }
}

/// The digit character for a value below ten.
pub open spec fn digit_char(d: int) -> char {
    if d == 0 {
        '0'
    } else if d == 1 {
        '1'
    } else if d == 2 {
        '2'
    } else if d == 3 {
        '3'
    } else if d == 4 {
        '4'
    } else if d == 5 {
        '5'
    } else if d == 6 {
        '6'
    } else if d == 7 {
        '7'
    } else if d == 8 {
        '8'
    } else {
        '9'
    }
}

/// Whether a string is one or more decimal digits.
pub open spec fn all_digits(s: Seq<char>) -> bool {
    forall|i: int| 0 <= i < s.len() ==> is_digit(#[trigger] s[i])
}

/// The value of a digit string, read left to right.
pub open spec fn dec_val(s: Seq<char>) -> int
    decreases s,
{
    if s.len() == 0 {
        0
    } else {
        dec_val(s.drop_last()) * 10 + digit_val(s.last())
    }
}

/// The decimal digit string of a natural number, without leading zeros.
pub open spec fn dec_digits(n: nat) -> Seq<char>
    decreases n,
{
    if n < 10 {
        seq![digit_char(n as int)]
    } else {
        dec_digits(n / 10).push(digit_char((n % 10) as int))
    }
}

/// A digit string's value never shrinks as the string grows to the right.
pub proof fn lemma_dec_val_grows(s: Seq<char>, i: int)
    requires
        0 <= i <= s.len(),
        all_digits(s),
    ensures
        dec_val(s.take(i)) <= dec_val(s),
    decreases s.len() - i,
{
    if i < s.len() {
        lemma_dec_val_grows(s, i + 1);
        assert(s.take(i + 1).drop_last() =~= s.take(i));
        assert(s.take(i + 1).last() == s[i]);
        assert(dec_val(s.take(i)) * 10 + digit_val(s[i]) == dec_val(s.take(i + 1)));
        assert(dec_val(s.take(i)) >= 0) by {
            lemma_dec_val_nonneg(s.take(i));
        }
    } else {
        assert(s.take(i) =~= s);
    }
}

/// A digit string's value is never negative.
pub proof fn lemma_dec_val_nonneg(s: Seq<char>)
    requires
        all_digits(s),
    ensures
        dec_val(s) >= 0,
    decreases s,
{
    if s.len() > 0 {
        assert(all_digits(s.drop_last()));
        lemma_dec_val_nonneg(s.drop_last());
    }
}

/// Looks a character up in the digit table.
pub fn digit_of(c: char) -> (r: Option<u8>)
    ensures
        r is Some <==> is_digit(c),
        r matches Some(d) ==> d == digit_val(c) && d < 10,
{
    match c {
        '0' => Some(0),
        '1' => Some(1),
        '2' => Some(2),
        '3' => Some(3),
        '4' => Some(4),
        '5' => Some(5),
        '6' => Some(6),
        '7' => Some(7),
        '8' => Some(8),
        '9' => Some(9),
        _ => None,
    }
}

/// Reads an unsigned decimal number, as `str::parse` does for unsigned
/// integers: an optional leading `+`, then one or more digits, rejecting
/// values over the platform's `usize` range.
pub open spec fn usize_dec_spec(s: Seq<char>) -> Option<usize> {
    let digits: Seq<char> = if s.len() > 0 && s[0] == '+' {
        s.drop_first()
    } else {
        s
    };
    if digits.len() > 0 && all_digits(digits) && dec_val(digits) <= usize::MAX {
        Some(dec_val(digits) as usize)
    } else {
        None
    }
}

/// Parses an unsigned decimal number.
pub fn parse_usize(s: &str) -> (r: Option<usize>)
    ensures
        r == usize_dec_spec(s@),
{
    let n = s.unicode_len();
    let mut i: usize = 0;
    if n > 0 && s.get_char(0) == '+' {
        i = 1;
    }
    let ghost digits: Seq<char> = s@.subrange(i as int, n as int);
    let start = i;
    proof {
        if start == 1 {
            assert(digits =~= s@.drop_first());
        } else {
            assert(digits =~= s@);
        }
    }
    if i == n {
        return None;
    }
    let mut acc: u128 = 0;
    while i < n
        invariant
            n == s@.len(),
            start <= i <= n,
            start < n,
            digits == s@.subrange(start as int, n as int),
            start == 1 ==> s@.len() > 0 && s@[0] == '+' && digits == s@.drop_first(),
            start == 0 ==> !(s@.len() > 0 && s@[0] == '+') && digits == s@,
            start == 0 || start == 1,
            all_digits(digits.take(i - start)),
            acc == dec_val(digits.take(i - start)),
            acc <= usize::MAX,
        decreases n - i,
    {
        let c = s.get_char(i);
        proof {
            assert(digits[i - start] == s@[i as int]);
        }
        match digit_of(c) {
            None => {
                proof {
                    assert(!all_digits(digits));
                }
                return None;
            },
            Some(d) => {
                let next: u128 = acc * 10 + (d as u128);
                proof {
                    assert(digits.take(i + 1 - start).drop_last() =~= digits.take(i - start));
                    assert(digits.take(i + 1 - start).last() == digits[i - start]);
                }
                if next > (usize::MAX as u128) {
                    proof {
                        assert(all_digits(digits.take(i + 1 - start)));
                        if all_digits(digits) {
                            lemma_dec_val_grows(digits, i + 1 - start);
                        }
                    }
                    return None;
                }
                acc = next;
            },
        }
        i = i + 1;
    }
    proof {
        assert(digits.take(n - start) =~= digits);
    }
    Some(acc as usize)
}

/// Reads a signed decimal number, as `str::parse::<i32>` does: an optional
/// sign, then one or more digits, rejecting values outside the `i32` range.
pub open spec fn i32_dec_spec(s: Seq<char>) -> Option<i32> {
    let neg = s.len() > 0 && s[0] == '-';
    let digits: Seq<char> = if s.len() > 0 && (s[0] == '+' || s[0] == '-') {
        s.drop_first()
    } else {
        s
    };
    if digits.len() > 0 && all_digits(digits) {
        let mag = dec_val(digits);
        if neg && -mag >= i32::MIN {
            Some((-mag) as i32)
        } else if !neg && mag <= i32::MAX {
            Some(mag as i32)
        } else {
            None
        }
    } else {
        None
    }
}

/// Parses a signed decimal number into an `i32`.
pub fn parse_i32(s: &str) -> (r: Option<i32>)
    ensures
        r == i32_dec_spec(s@),
{
    let n = s.unicode_len();
    let mut i: usize = 0;
    let mut neg = false;
    if n > 0 && s.get_char(0) == '+' {
        i = 1;
    } else if n > 0 && s.get_char(0) == '-' {
        i = 1;
        neg = true;
    }
    let ghost digits: Seq<char> = s@.subrange(i as int, n as int);
    let start = i;
    proof {
        if start == 1 {
            assert(digits =~= s@.drop_first());
        } else {
            assert(digits =~= s@);
        }
    }
    if i == n {
        return None;
    }
    let mut acc: u128 = 0;
    while i < n
        invariant
            n == s@.len(),
            start <= i <= n,
            start < n,
            digits == s@.subrange(start as int, n as int),
            start == 1 ==> s@.len() > 0 && (s@[0] == '+' || s@[0] == '-') && digits
                == s@.drop_first(),
            start == 0 ==> !(s@.len() > 0 && (s@[0] == '+' || s@[0] == '-')) && digits == s@,
            start == 0 || start == 1,
            neg == (s@.len() > 0 && s@[0] == '-'),
            all_digits(digits.take(i - start)),
            acc == dec_val(digits.take(i - start)),
            acc <= 0x8000_0000u128,
        decreases n - i,
    {
        let c = s.get_char(i);
        proof {
            assert(digits[i - start] == s@[i as int]);
        }
        match digit_of(c) {
            None => {
                proof {
                    assert(!all_digits(digits));
                }
                return None;
            },
            Some(d) => {
                let next: u128 = acc * 10 + (d as u128);
                proof {
                    assert(digits.take(i + 1 - start).drop_last() =~= digits.take(i - start));
                    assert(digits.take(i + 1 - start).last() == digits[i - start]);
                }
                if next > 0x8000_0000u128 {
                    proof {
                        assert(all_digits(digits.take(i + 1 - start)));
                        if all_digits(digits) {
                            lemma_dec_val_grows(digits, i + 1 - start);
                        }
                    }
                    return None;
                }
                acc = next;
            },
        }
        i = i + 1;
    }
    proof {
        assert(digits.take(n - start) =~= digits);
    }
    if neg {
        if acc == 0x8000_0000u128 {
            Some(i32::MIN)
        } else {
            Some(-((acc as u32) as i32))
        }
    } else {
        if acc == 0x8000_0000u128 {
            None
        } else {
            Some((acc as u32) as i32)
        }
    }
}

/// Compares two strings character by character.
pub fn str_eq(a: &str, b: &str) -> (r: bool)
    ensures
        r == (a@ == b@),
{
    let na = a.unicode_len();
    let nb = b.unicode_len();
    if na != nb {
        return false;
    }
    let mut i: usize = 0;
    while i < na
        invariant
            na == a@.len(),
            na == b@.len(),
            i <= na,
            forall|k: int| 0 <= k < i ==> a@[k] == b@[k],
        decreases na - i,
    {
        if a.get_char(i) != b.get_char(i) {
            return false;
        }
        i = i + 1;
    }
    proof {
        assert(a@ =~= b@);
    }
    true
}

/// Writes a digit below ten as a one-character string.
pub fn digit_str(d: u128) -> (r: &'static str)
    requires
        d < 10,
    ensures
        r@ =~= seq![digit_char(d as int)],
{
    if d == 0 {
        let r = "0";
        proof {
            reveal_strlit("0");
        }
        r
    } else if d == 1 {
        let r = "1";
        proof {
            reveal_strlit("1");
        }
        r
    } else if d == 2 {
        let r = "2";
        proof {
            reveal_strlit("2");
        }
        r
    } else if d == 3 {
        let r = "3";
        proof {
            reveal_strlit("3");
        }
        r
    } else if d == 4 {
        let r = "4";
        proof {
            reveal_strlit("4");
        }
        r
    } else if d == 5 {
        let r = "5";
        proof {
            reveal_strlit("5");
        }
        r
    } else if d == 6 {
        let r = "6";
        proof {
            reveal_strlit("6");
        }
        r
    } else if d == 7 {
        let r = "7";
        proof {
            reveal_strlit("7");
        }
        r
    } else if d == 8 {
        let r = "8";
        proof {
            reveal_strlit("8");
        }
        r
    } else {
        let r = "9";
        proof {
            reveal_strlit("9");
        }
        r
    }
}

/// Writes a natural number in decimal.
pub fn dec_string(n: u128) -> (r: String)
    ensures
        r@ == dec_digits(n as nat),
    decreases n,
{
    if n < 10 {
        let mut s = String::new();
        s.append(digit_str(n));
        s
    } else {
        let mut s = dec_string(n / 10);
        s.append(digit_str(n % 10));
        s
    }
}

} // verus!
