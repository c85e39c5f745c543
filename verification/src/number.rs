//! Numbers written as text, and text read as numbers.

use crate::text::chars_of;
use vstd::prelude::*;

verus! {

/// The decimal digit for `d`.
pub open spec fn digit_char(d: nat) -> char {
    (48 + d) as char
}

/// `n` in decimal digits, without leading zeros.
pub open spec fn digits(n: nat) -> Seq<char>
    decreases n,
{
    if n < 10 {
        seq![digit_char(n)]
    } else {
        digits(n / 10).push(digit_char(n % 10))
    }
}

/// `s` filled up with zeros on the left to at least `width` characters.
pub open spec fn zero_filled(s: Seq<char>, width: nat) -> Seq<char>
    decreases width - s.len(),
{
    if s.len() >= width {
        s
    } else {
        zero_filled(seq!['0'] + s, width)
    }
}

fn digit(d: u64) -> (c: char)
    requires
        d < 10,
    ensures
        c == digit_char(d as nat),
{
    (48u8 + d as u8) as char
}

/// `n` in decimal digits.
pub fn decimal(n: u64) -> (s: String)
    ensures
        s@ == digits(n as nat),
    decreases n,
{
    let mut s = if n < 10 {
        String::new()
    } else {
        decimal(n / 10)
    };
    s.push(digit(n % 10));
    s
}

/// `n` in decimal digits, filled up with zeros to at least `width` characters.
pub fn zero_filled_decimal(n: u64, width: usize) -> (s: String)
    ensures
        s@ == zero_filled(digits(n as nat), width as nat),
{
    let mut s = decimal(n);
    let mut len = chars_of(&s).len();
    while len < width
        invariant
            len == s@.len(),
            zero_filled(s@, width as nat) == zero_filled(digits(n as nat), width as nat),
        decreases width - len,
    {
        proof {
            reveal_strlit("0");
            assert("0"@ == seq!['0']);
        }
        s = "0".to_owned().concat(&s);
        len = len + 1;
    }
    s
}

/// The lowercase hexadecimal digit for `d`.
pub open spec fn hex_char(d: nat) -> char {
    if d < 10 {
        (48 + d) as char
    } else {
        (87 + d) as char
    }
}

/// The lowest `count` hexadecimal digits of `x`.
pub open spec fn hex_digits(x: nat, count: nat) -> Seq<char>
    decreases count,
{
    if count == 0 {
        seq![]
    } else {
        hex_digits(x / 16, (count - 1) as nat).push(hex_char(x % 16))
    }
}

fn hex_digit(d: u64) -> (c: char)
    requires
        d < 16,
    ensures
        c == hex_char(d as nat),
{
    if d < 10 {
        (48u8 + d as u8) as char
    } else {
        (87u8 + d as u8) as char
    }
}

fn hex_text(x: u64, count: u64) -> (s: String)
    ensures
        s@ == hex_digits(x as nat, count as nat),
    decreases count,
{
    if count == 0 {
        String::new()
    } else {
        let mut s = hex_text(x / 16, count - 1);
        s.push(hex_digit(x % 16));
        s
    }
}

/// `x` in sixteen lowercase hexadecimal digits.
pub fn hex16(x: u64) -> (s: String)
    ensures
        s@ == hex_digits(x as nat, 16),
{
    hex_text(x, 16)
}

/// `c` is a decimal digit.
pub open spec fn is_digit(c: char) -> bool {
    '0' <= c <= '9'
}

/// What decimal digits stand for.
pub open spec fn value(s: Seq<char>) -> nat
    decreases s.len(),
{
    if s.len() == 0 {
        0
    } else {
        value(s.drop_last()) * 10 + (s.last() as nat - 48) as nat
    }
}

/// Only decimal digits.
pub open spec fn all_digits(s: Seq<char>) -> bool {
    forall|i: int| 0 <= i < s.len() ==> is_digit(#[trigger] s[i])
}

/// Whether `s` holds only decimal digits.
pub fn only_digits(s: &str) -> (r: bool)
    ensures
        r == all_digits(s@),
{
    let v = chars_of(s);
    for i in 0..v.len()
        invariant
            v@ == s@,
            forall|k: int| 0 <= k < i ==> is_digit(#[trigger] s@[k]),
    {
        if !('0' <= v[i] && v[i] <= '9') {
            proof {
                assert(!is_digit(s@[i as int]));
            }
            return false;
        }
    }
    true
}

/// A number without the plus sign that it may begin with.
pub open spec fn without_plus(s: Seq<char>) -> Seq<char> {
    if s.len() > 0 && s[0] == '+' {
        s.drop_first()
    } else {
        s
    }
}

/// The natural number up to `max` that `s` writes: decimal digits, of which
/// there is at least one, behind an optional plus sign.
pub open spec fn number(s: Seq<char>, max: nat) -> Option<nat> {
    let d = without_plus(s);
    if d.len() > 0 && all_digits(d) && value(d) <= max {
        Some(value(d))
    } else {
        None
    }
}

proof fn lemma_value_grows(s: Seq<char>, k: int)
    requires
        0 <= k <= s.len(),
        all_digits(s),
    ensures
        value(s.take(k)) <= value(s),
    decreases s.len(),
{
    if k < s.len() {
        let rest = s.drop_last();
        assert(all_digits(rest)) by {
            assert forall|i: int| 0 <= i < rest.len() implies is_digit(#[trigger] rest[i]) by {
                assert(is_digit(s[i]));
            }
        }
        lemma_value_grows(rest, k);
        assert(rest.take(k) == s.take(k));
    } else {
        assert(s.take(k) == s);
    }
}

/// Reads a natural number up to `max`.
pub fn parse_number(s: &str, max: u64) -> (r: Option<u64>)
    ensures
        match r {
            Some(n) => number(s@, max as nat) == Some(n as nat),
            None => number(s@, max as nat) is None,
        },
{
    let v = chars_of(s);
    let start: usize = if v.len() > 0 && v[0] == '+' {
        1
    } else {
        0
    };
    let ghost d = without_plus(s@);
    proof {
        assert(d == v@.skip(start as int));
    }
    if start == v.len() {
        return None;
    }
    for i in start..v.len()
        invariant
            start <= v@.len(),
            d == v@.skip(start as int),
            d == without_plus(s@),
            forall|k: int| 0 <= k < i - start ==> is_digit(#[trigger] d[k]),
    {
        if !('0' <= v[i] && v[i] <= '9') {
            proof {
                assert(!is_digit(d[i - start]));
            }
            return None;
        }
    }
    let mut n: u64 = 0;
    for i in start..v.len()
        invariant
            start < v@.len(),
            d == v@.skip(start as int),
            d == without_plus(s@),
            all_digits(d),
            n <= max,
            n == value(d.take(i - start)),
    {
        let c: char = v[i];
        let ghost now = d.take(i - start + 1);
        proof {
            assert(now.drop_last() == d.take(i - start));
            assert(now.last() == c);
            assert(is_digit(d[i - start]));
            lemma_value_grows(d, i - start + 1);
        }
        let x: u64 = (c as u32 - 48) as u64;
        let next: u128 = n as u128 * 10 + x as u128;
        if next > max as u128 {
            return None;
        }
        n = next as u64;
    }
    proof {
        assert(d.take(d.len() as int) == d);
    }
    Some(n)
}

proof fn lemma_digits_read_back(n: nat)
    ensures
        digits(n).len() > 0,
        all_digits(digits(n)),
        value(digits(n)) == n,
    decreases n,
{
    if n < 10 {
        let s = digits(n);
        assert(s.drop_last() == Seq::<char>::empty());
        assert(value(s.drop_last()) == 0);
    } else {
        lemma_digits_read_back(n / 10);
        let s = digits(n);
        assert(s.drop_last() == digits(n / 10));
        assert forall|i: int| 0 <= i < s.len() implies is_digit(#[trigger] s[i]) by {
            if i < s.len() - 1 {
                assert(is_digit(digits(n / 10)[i]));
            }
        }
    }
}

proof fn lemma_leading_zero(s: Seq<char>)
    requires
        all_digits(s),
    ensures
        all_digits(seq!['0'] + s),
        value(seq!['0'] + s) == value(s),
    decreases s.len(),
{
    let t = seq!['0'] + s;
    assert forall|i: int| 0 <= i < t.len() implies is_digit(#[trigger] t[i]) by {
        if i > 0 {
            assert(is_digit(s[i - 1]));
        }
    }
    if s.len() == 0 {
        assert(t.drop_last() == Seq::<char>::empty());
        assert(value(t.drop_last()) == 0);
    } else {
        let rest = s.drop_last();
        assert forall|i: int| 0 <= i < rest.len() implies is_digit(#[trigger] rest[i]) by {
            assert(is_digit(s[i]));
        }
        lemma_leading_zero(rest);
        assert(t.drop_last() == seq!['0'] + rest);
    }
}

proof fn lemma_zero_filled(s: Seq<char>, width: nat)
    requires
        s.len() > 0,
        all_digits(s),
    ensures
        zero_filled(s, width).len() > 0,
        zero_filled(s, width).len() >= width,
        all_digits(zero_filled(s, width)),
        value(zero_filled(s, width)) == value(s),
    decreases width - s.len(),
{
    if s.len() < width {
        lemma_leading_zero(s);
        lemma_zero_filled(seq!['0'] + s, width);
    }
}

/// A number that was written in decimal, with or without leading zeros, reads
/// back as itself; one filled up to a width has at least so many digits.
pub proof fn law_written_number_reads_back(n: nat, width: nat, max: nat)
    requires
        n <= max,
    ensures
        number(digits(n), max) == Some(n),
        number(zero_filled(digits(n), width), max) == Some(n),
        all_digits(zero_filled(digits(n), width)),
        zero_filled(digits(n), width).len() >= width,
{
    lemma_digits_read_back(n);
    lemma_zero_filled(digits(n), width);
    assert(is_digit(digits(n)[0]));
    assert(is_digit(zero_filled(digits(n), width)[0]));
}

/// What a lowercase hexadecimal digit stands for.
pub open spec fn hex_worth(c: char) -> int {
    if '0' <= c <= '9' {
        c as int - '0' as int
    } else {
        c as int - 'a' as int + 10
    }
}

/// What lowercase hexadecimal digits stand for.
pub open spec fn hex_value(s: Seq<char>) -> int
    decreases s.len(),
{
    if s.len() == 0 {
        0
    } else {
        16 * hex_value(s.drop_last()) + hex_worth(s.last())
    }
}

/// How many numbers `count` hexadecimal digits can write.
spec fn sixteen_to(count: nat) -> nat
    decreases count,
{
    if count == 0 {
        1
    } else {
        16 * sixteen_to((count - 1) as nat)
    }
}

proof fn lemma_hex(x: nat, count: nat)
    requires
        x < sixteen_to(count),
    ensures
        hex_digits(x, count).len() == count,
        hex_value(hex_digits(x, count)) == x,
        forall|i: int|
            0 <= i < count ==> ('0' <= #[trigger] hex_digits(x, count)[i] <= '9' || 'a'
                <= hex_digits(x, count)[i] <= 'f'),
    decreases count,
{
    if count > 0 {
        lemma_hex(x / 16, (count - 1) as nat);
        let rest = hex_digits(x / 16, (count - 1) as nat);
        let s = hex_digits(x, count);
        assert(s.drop_last() == rest);
        assert forall|i: int| 0 <= i < count implies ('0' <= #[trigger] s[i] <= '9' || 'a' <= s[i]
            <= 'f') by {
            if i < count - 1 {
                assert(s[i] == rest[i]);
            }
        }
    }
}

/// A hash is written in sixteen lowercase hexadecimal digits, the highest first,
/// and can be read back from them.
pub proof fn law_hash_reads_back(x: u64)
    ensures
        hex_digits(x as nat, 16).len() == 16,
        hex_value(hex_digits(x as nat, 16)) == x,
        forall|i: int|
            0 <= i < 16 ==> ('0' <= #[trigger] hex_digits(x as nat, 16)[i] <= '9' || 'a'
                <= hex_digits(x as nat, 16)[i] <= 'f'),
{
    reveal_with_fuel(sixteen_to, 17);
    assert(sixteen_to(16) == 0x1_0000_0000_0000_0000);
    lemma_hex(x as nat, 16);
}

/// A number of one digit is written as that digit, and the digit at the end of a
/// longer one counts ones, what stands before it tens.
pub proof fn law_digits_count_tens_and_ones(n: nat, d: nat)
    requires
        d < 10,
    ensures
        digits(d).len() == 1,
        digits(d)[0] as int == '0' as int + d,
        n > 0 ==> digits(10 * n + d) == digits(n) + digits(d),
        value(digits(n) + digits(d)) == 10 * n + d,
{
    lemma_digits_read_back(n);
    lemma_digits_read_back(10 * n + d);
    let s = digits(n) + digits(d);
    assert(s.drop_last() == digits(n));
    assert((10 * n + d) / 10 == n && (10 * n + d) % 10 == d);
    if n > 0 {
        assert(digits(10 * n + d) =~= s);
    }
}

/// A number is read where it consists of digits, of which there is at least one,
/// behind an optional plus sign, and does not exceed the limit; nothing else is
/// read as a number.
pub proof fn law_only_digits_are_numbers(s: Seq<char>, max: nat)
    ensures
        number(seq![], max) is None,
        number(seq!['+'], max) is None,
        (exists|i: int|
            0 <= i < s.len() && !('0' <= #[trigger] s[i] <= '9') && !(i == 0 && s[i] == '+'))
            ==> number(s, max) is None,
        s.len() > 0 && s[0] != '+' ==> number(seq!['+'] + s, max) == number(s, max),
        number(s, max) matches Some(n) ==> n <= max,
{
    assert(without_plus(seq!['+']) =~= Seq::<char>::empty());
    assert((seq!['+'] + s).drop_first() =~= s);
    if exists|i: int|
        0 <= i < s.len() && !('0' <= #[trigger] s[i] <= '9') && !(i == 0 && s[i] == '+') {
        let i = choose|i: int|
            0 <= i < s.len() && !('0' <= #[trigger] s[i] <= '9') && !(i == 0 && s[i] == '+');
        let d = without_plus(s);
        if s[0] == '+' {
            assert(d[i - 1] == s[i]);
        } else {
            assert(d[i] == s[i]);
        }
    }
}

} // verus!
