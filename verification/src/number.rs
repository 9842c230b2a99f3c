//! Integers in text: decimal rendering, and parsing with the rules of the
//! standard library's `from_str_radix` (an optional sign, digits of the
//! radix, and range checks), together with the messages its errors display.

use vstd::prelude::*;

verus! {

/// The character of the decimal digit `d`.
pub open spec fn digit_char(d: nat) -> char {
    ((d + 48) as u8) as char
}

/// The decimal rendering of `n`, without sign or leading zeros.
pub open spec fn decimal(n: nat) -> Seq<char>
    decreases n,
{
    if n < 10 {
        seq![digit_char(n)]
    } else {
        decimal(n / 10).push(digit_char(n % 10))
    }
}

/// Appends the decimal rendering of `n` to `out`.
pub fn push_decimal(out: &mut String, n: u64)
    ensures
        final(out)@ == old(out)@ + decimal(n as nat),
    decreases n,
{
    if n >= 10 {
        push_decimal(out, n / 10);
    }
    let d = (n % 10) as u8;
    out.push((d + 48u8) as char);
    proof {
        if n < 10 {
            assert(old(out)@ + decimal(n as nat) =~= old(out)@.push(digit_char(n as nat)));
        } else {
            assert(old(out)@ + decimal(n as nat) =~= (old(out)@ + decimal((n / 10) as nat)).push(
                digit_char((n % 10) as nat),
            ));
        }
    }
}

/// The decimal rendering of `n`.
pub fn decimal_string(n: u64) -> (r: String)
    ensures
        r@ == decimal(n as nat),
{
    let mut r = String::new();
    push_decimal(&mut r, n);
    assert(Seq::<char>::empty() + decimal(n as nat) =~= decimal(n as nat));
    r
}

/// Why a text is not an integer, as `core::num::IntErrorKind` tells it.
#[derive(Clone, Copy, Debug, PartialEq, Eq, Structural)]
pub enum IntErrorKind {
    Empty,
    InvalidDigit,
    PosOverflow,
    NegOverflow,
}

/// The message that the standard library's `ParseIntError` displays for `kind`.
pub open spec fn int_error_text(kind: IntErrorKind) -> Seq<char> {
    match kind {
        IntErrorKind::Empty => "cannot parse integer from empty string"@,
        IntErrorKind::InvalidDigit => "invalid digit found in string"@,
        IntErrorKind::PosOverflow => "number too large to fit in target type"@,
        IntErrorKind::NegOverflow => "number too small to fit in target type"@,
    }
}

impl IntErrorKind {
    /// The message that the standard library's `ParseIntError` displays.
    pub fn message(&self) -> (r: String)
        ensures
            r@ == int_error_text(*self),
    {
        match self {
            IntErrorKind::Empty => String::from_str("cannot parse integer from empty string"),
            IntErrorKind::InvalidDigit => String::from_str("invalid digit found in string"),
            IntErrorKind::PosOverflow => String::from_str("number too large to fit in target type"),
            IntErrorKind::NegOverflow => String::from_str("number too small to fit in target type"),
        }
    }
}

/// The value of `c` as a digit of `radix`, as `char::to_digit` gives it.
pub open spec fn digit_value(c: char, radix: nat) -> Option<nat> {
    let v: int = if '0' <= c && c <= '9' {
        c as int - 48
    } else if 'a' <= c && c <= 'z' {
        c as int - 97 + 10
    } else if 'A' <= c && c <= 'Z' {
        c as int - 65 + 10
    } else {
        36
    };
    if v < radix {
        Some(v as nat)
    } else {
        None
    }
}

/// `char::to_digit` for radixes up to 36.
pub fn to_digit(c: char, radix: u32) -> (r: Option<u32>)
    requires
        2 <= radix <= 36,
    ensures
        match r {
            Some(d) => digit_value(c, radix as nat) == Some(d as nat),
            None => digit_value(c, radix as nat) is None,
        },
{
    let v: u32 = if '0' <= c && c <= '9' {
        (c as u32) - 48
    } else if 'a' <= c && c <= 'z' {
        (c as u32) - 97 + 10
    } else if 'A' <= c && c <= 'Z' {
        (c as u32) - 65 + 10
    } else {
        36
    };
    if v < radix {
        Some(v)
    } else {
        None
    }
}

/// The number of digits of `radix` that `s` starts with.
pub open spec fn digit_run(s: Seq<char>, radix: nat) -> nat
    decreases s.len(),
{
    if s.len() > 0 && digit_value(s[0], radix) is Some {
        1 + digit_run(s.drop_first(), radix)
    } else {
        0
    }
}

/// The value of the digits `s` in `radix`, most significant first.
pub open spec fn digits_value(s: Seq<char>, radix: nat) -> nat
    decreases s.len(),
{
    if s.len() == 0 {
        0
    } else {
        digits_value(s.drop_last(), radix) * radix + match digit_value(s.last(), radix) {
            Some(d) => d,
            None => 0,
        }
    }
}

/// A run of digits, as `from_str_radix` reads it after any sign: the value,
/// unless it exceeds `max` before the first character that is not a digit,
/// or such a character is there at all.
pub open spec fn parse_digits(d: Seq<char>, radix: nat, max: nat) -> Result<nat, IntErrorKind> {
    let j = digit_run(d, radix);
    if digits_value(d.take(j as int), radix) > max {
        Err(IntErrorKind::PosOverflow)
    } else if j < d.len() {
        Err(IntErrorKind::InvalidDigit)
    } else {
        Ok(digits_value(d, radix))
    }
}

/// An unsigned integer no greater than `max` written in `radix`, as the
/// standard library's `from_str_radix` reads it for an unsigned type.
pub open spec fn parse_unsigned(s: Seq<char>, radix: nat, max: nat) -> Result<nat, IntErrorKind> {
    if s.len() == 0 {
        Err(IntErrorKind::Empty)
    } else if (s[0] == '+' || s[0] == '-') && s.len() == 1 {
        Err(IntErrorKind::InvalidDigit)
    } else if s[0] == '+' {
        parse_digits(s.drop_first(), radix, max)
    } else {
        parse_digits(s, radix, max)
    }
}

/// What `parse_unsigned` accepts is within its bound.
pub proof fn lemma_parse_unsigned_bound(s: Seq<char>, radix: nat, max: nat)
    ensures
        parse_unsigned(s, radix, max) matches Ok(v) ==> v <= max,
{
    if s.len() > 0 {
        let d = if s[0] == '+' {
            s.drop_first()
        } else {
            s
        };
        lemma_digit_run(d, radix);
        assert(d.take(d.len() as int) =~= d);
    }
}

/// A decimal `i32`, as `str::parse::<i32>` reads it.
pub open spec fn parse_i32(s: Seq<char>) -> Result<int, IntErrorKind> {
    if s.len() == 0 {
        Err(IntErrorKind::Empty)
    } else if (s[0] == '+' || s[0] == '-') && s.len() == 1 {
        Err(IntErrorKind::InvalidDigit)
    } else if s[0] == '-' {
        match parse_digits(s.drop_first(), 10, 0x8000_0000) {
            Ok(v) => Ok(-v),
            Err(IntErrorKind::PosOverflow) => Err(IntErrorKind::NegOverflow),
            Err(e) => Err(e),
        }
    } else if s[0] == '+' {
        match parse_digits(s.drop_first(), 10, 0x7fff_ffff) {
            Ok(v) => Ok(v as int),
            Err(e) => Err(e),
        }
    } else {
        match parse_digits(s, 10, 0x7fff_ffff) {
            Ok(v) => Ok(v as int),
            Err(e) => Err(e),
        }
    }
}

proof fn lemma_digit_run(s: Seq<char>, radix: nat)
    ensures
        digit_run(s, radix) <= s.len(),
        forall|j: int| 0 <= j < digit_run(s, radix) ==> #[trigger] digit_value(s[j], radix) is Some,
        digit_run(s, radix) < s.len() ==> digit_value(s[digit_run(s, radix) as int], radix) is None,
    decreases s.len(),
{
    if s.len() > 0 && digit_value(s[0], radix) is Some {
        lemma_digit_run(s.drop_first(), radix);
        assert forall|j: int| 0 < j < digit_run(s, radix) implies #[trigger] digit_value(s[j], radix) is Some by {
            assert(s[j] == s.drop_first()[j - 1]);
        }
    }
}

/// The digit run is the first position holding no digit.
proof fn lemma_digit_run_at(s: Seq<char>, radix: nat, i: int)
    requires
        0 <= i <= s.len(),
        forall|j: int| 0 <= j < i ==> #[trigger] digit_value(s[j], radix) is Some,
        i < s.len() ==> digit_value(s[i], radix) is None,
    ensures
        digit_run(s, radix) == i,
{
    lemma_digit_run(s, radix);
    let r = digit_run(s, radix) as int;
    if r < i {
        assert(digit_value(s[r], radix) is Some);
    } else if r > i {
        assert(digit_value(s[i], radix) is Some);
    }
}

proof fn lemma_digits_value_step(s: Seq<char>, radix: nat, i: int)
    requires
        0 <= i < s.len(),
    ensures
        digits_value(s.take(i + 1), radix) == digits_value(s.take(i), radix) * radix + match digit_value(
            s[i],
            radix,
        ) {
            Some(d) => d,
            None => 0,
        },
{
    assert(s.take(i + 1).drop_last() =~= s.take(i));
}

proof fn lemma_mul_grows(v: nat, r: nat, d: nat)
    requires
        r >= 1,
    ensures
        v * r + d >= v,
{
    assert(v * r >= v) by (nonlinear_arith)
        requires
            r >= 1,
    ;
}

/// Adding digits never makes the value smaller.
proof fn lemma_digits_value_monotone(s: Seq<char>, radix: nat, k: int, j: int)
    requires
        radix >= 1,
        0 <= k <= j <= s.len(),
    ensures
        digits_value(s.take(k), radix) <= digits_value(s.take(j), radix),
    decreases j - k,
{
    if k < j {
        lemma_digits_value_monotone(s, radix, k, j - 1);
        lemma_digits_value_step(s, radix, j - 1);
        let d = match digit_value(s[j - 1], radix) {
            Some(d) => d,
            None => 0,
        };
        lemma_mul_grows(digits_value(s.take(j - 1), radix), radix, d);
    }
}

proof fn lemma_decimal_digits(n: nat)
    ensures
        decimal(n).len() >= 1,
        forall|j: int| 0 <= j < decimal(n).len() ==> #[trigger] digit_value(decimal(n)[j], 10) is Some,
        digits_value(decimal(n), 10) == n,
    decreases n,
{
    let d = n % 10;
    assert(digit_char(d) as int == d + 48);
    assert(digit_value(digit_char(d), 10) == Some(d));
    if n < 10 {
        assert(n % 10 == n);
        assert(decimal(n).drop_last() =~= Seq::<char>::empty());
        assert(decimal(n).last() == digit_char(d));
        assert(digits_value(decimal(n), 10) == digits_value(Seq::<char>::empty(), 10) * 10 + d);
    } else {
        lemma_decimal_digits(n / 10);
        let s = decimal(n);
        assert(s.drop_last() =~= decimal(n / 10));
        assert(forall|j: int| 0 <= j < s.len() - 1 ==> s[j] == decimal(n / 10)[j]);
        assert(s.last() == digit_char(d));
        assert((n / 10) * 10 + n % 10 == n) by (nonlinear_arith);
        assert(digits_value(s, 10) == digits_value(decimal(n / 10), 10) * 10 + d);
    }
}

/// A decimal rendering is a non-empty run of the characters `0` to `9`.
pub proof fn lemma_decimal_chars(n: nat)
    ensures
        decimal(n).len() >= 1,
        forall|j: int| 0 <= j < decimal(n).len() ==> '0' <= #[trigger] decimal(n)[j] && decimal(n)[j] <= '9',
{
    lemma_decimal_digits(n);
    assert forall|j: int| 0 <= j < decimal(n).len() implies '0' <= #[trigger] decimal(n)[j] && decimal(n)[j] <= '9' by {
        assert(digit_value(decimal(n)[j], 10) is Some);
    }
}

/// Every decimal rendering reads back, with `from_str_radix` in radix 10, as
/// the number it renders, whenever that number is within the target range.
pub proof fn decimal_reads_back(n: nat, max: nat)
    requires
        n <= max,
    ensures
        parse_unsigned(decimal(n), 10, max) == Ok::<nat, IntErrorKind>(n),
{
    lemma_decimal_digits(n);
    let s = decimal(n);
    assert(digit_value(s[0], 10) is Some);
    lemma_digit_run_at(s, 10, s.len() as int);
    assert(s.take(s.len() as int) =~= s);
}

/// The character of the hexadecimal digit `d`, in lower case.
pub open spec fn hex_digit_char(d: nat) -> char {
    if d < 10 {
        ((d + 48) as u8) as char
    } else {
        ((d - 10 + 97) as u8) as char
    }
}

/// The lower-case hexadecimal rendering of `n`, without leading zeros.
pub open spec fn hex_text(n: nat) -> Seq<char>
    decreases n,
{
    if n < 16 {
        seq![hex_digit_char(n)]
    } else {
        hex_text(n / 16).push(hex_digit_char(n % 16))
    }
}

/// A hexadecimal rendering is a non-empty run of `0`-`9` and `a`-`f`, whose value is `n`.
pub proof fn lemma_hex_text(n: nat)
    ensures
        hex_text(n).len() >= 1,
        forall|j: int| 0 <= j < hex_text(n).len() ==> {
            let c = #[trigger] hex_text(n)[j];
            ('0' <= c && c <= '9') || ('a' <= c && c <= 'f')
        },
        forall|j: int| 0 <= j < hex_text(n).len() ==> #[trigger] digit_value(hex_text(n)[j], 16) is Some,
        digits_value(hex_text(n), 16) == n,
    decreases n,
{
    let d = n % 16;
    assert(digit_value(hex_digit_char(d), 16) == Some(d));
    if n < 16 {
        assert(n % 16 == n);
        assert(hex_text(n).drop_last() =~= Seq::<char>::empty());
        assert(hex_text(n).last() == hex_digit_char(d));
        assert(digits_value(hex_text(n), 16) == digits_value(Seq::<char>::empty(), 16) * 16 + d);
    } else {
        lemma_hex_text(n / 16);
        let s = hex_text(n);
        assert(s.drop_last() =~= hex_text(n / 16));
        assert(forall|j: int| 0 <= j < s.len() - 1 ==> s[j] == hex_text(n / 16)[j]);
        assert(s.last() == hex_digit_char(d));
        assert((n / 16) * 16 + n % 16 == n) by (nonlinear_arith);
        assert(digits_value(s, 16) == digits_value(hex_text(n / 16), 16) * 16 + d);
    }
}

/// Every hexadecimal rendering reads back, with `from_str_radix` in radix 16,
/// as the number it renders, whenever that number is within the target range.
pub proof fn hex_reads_back(n: nat, max: nat)
    requires
        n <= max,
    ensures
        parse_unsigned(hex_text(n), 16, max) == Ok::<nat, IntErrorKind>(n),
{
    lemma_hex_text(n);
    let s = hex_text(n);
    assert(digit_value(s[0], 16) is Some);
    lemma_digit_run_at(s, 16, s.len() as int);
    assert(s.take(s.len() as int) =~= s);
}

/// `parse_digits` on `s[start..]`.
pub fn parse_digit_run(s: &[char], start: usize, radix: u32, max: u64) -> (r: Result<u64, IntErrorKind>)
    requires
        start <= s@.len(),
        2 <= radix <= 36,
    ensures
        match r {
            Ok(v) => parse_digits(s@.skip(start as int), radix as nat, max as nat) == Ok::<nat, IntErrorKind>(v as nat),
            Err(e) => parse_digits(s@.skip(start as int), radix as nat, max as nat) == Err::<nat, IntErrorKind>(e),
        },
        r matches Ok(v) ==> v <= max,
{
    let ghost d = s@.skip(start as int);
    let n = s.len();
    let mut i: usize = start;
    let mut acc: u128 = 0;
    assert(d.take(0) =~= Seq::<char>::empty());
    while i < n
        invariant
            n == s@.len(),
            start <= i <= n,
            d == s@.skip(start as int),
            2 <= radix <= 36,
            acc <= max,
            acc == digits_value(d.take(i - start), radix as nat),
            forall|j: int| 0 <= j < i - start ==> #[trigger] digit_value(d[j], radix as nat) is Some,
        decreases n - i,
    {
        let k: usize = i - start;
        assert(d[k as int] == s@[i as int]);
        match to_digit(s[i], radix) {
            None => {
                proof {
                    lemma_digit_run_at(d, radix as nat, k as int);
                }
                return Err(IntErrorKind::InvalidDigit);
            },
            Some(v) => {
                proof {
                    lemma_digits_value_step(d, radix as nat, k as int);
                }
                assert(acc * (radix as u128) <= 0xffff_ffff_ffff_ffffu128 * 36) by (nonlinear_arith)
                    requires
                        acc <= 0xffff_ffff_ffff_ffffu128,
                        radix <= 36,
                ;
                let next: u128 = acc * (radix as u128) + (v as u128);
                if next > max as u128 {
                    proof {
                        lemma_digit_run(d, radix as nat);
                        let j = digit_run(d, radix as nat) as int;
                        if j < k + 1 {
                            assert(digit_value(d[j], radix as nat) is Some);
                        }
                        lemma_digits_value_monotone(d, radix as nat, k + 1, j);
                    }
                    return Err(IntErrorKind::PosOverflow);
                }
                acc = next;
                i = i + 1;
            },
        }
    }
    proof {
        lemma_digit_run_at(d, radix as nat, (n - start) as int);
        assert(d.take(n - start) =~= d);
    }
    Ok(acc as u64)
}

/// An unsigned integer of at most `max`, read as `from_str_radix` reads it.
pub fn parse_unsigned_chars(s: &[char], radix: u32, max: u64) -> (r: Result<u64, IntErrorKind>)
    requires
        2 <= radix <= 36,
    ensures
        match r {
            Ok(v) => parse_unsigned(s@, radix as nat, max as nat) == Ok::<nat, IntErrorKind>(v as nat),
            Err(e) => parse_unsigned(s@, radix as nat, max as nat) == Err::<nat, IntErrorKind>(e),
        },
        r matches Ok(v) ==> v <= max,
{
    if s.len() == 0 {
        return Err(IntErrorKind::Empty);
    }
    if (s[0] == '+' || s[0] == '-') && s.len() == 1 {
        return Err(IntErrorKind::InvalidDigit);
    }
    if s[0] == '+' {
        assert(s@.skip(1) =~= s@.drop_first());
        parse_digit_run(s, 1, radix, max)
    } else {
        assert(s@.skip(0) =~= s@);
        parse_digit_run(s, 0, radix, max)
    }
}

/// A decimal `i32`, read as `str::parse::<i32>` reads it.
pub fn parse_i32_chars(s: &[char]) -> (r: Result<i32, IntErrorKind>)
    ensures
        match r {
            Ok(v) => parse_i32(s@) == Ok::<int, IntErrorKind>(v as int),
            Err(e) => parse_i32(s@) == Err::<int, IntErrorKind>(e),
        },
{
    if s.len() == 0 {
        return Err(IntErrorKind::Empty);
    }
    if (s[0] == '+' || s[0] == '-') && s.len() == 1 {
        return Err(IntErrorKind::InvalidDigit);
    }
    assert(s@.skip(1) =~= s@.drop_first());
    assert(s@.skip(0) =~= s@);
    if s[0] == '-' {
        match parse_digit_run(s, 1, 10, 0x8000_0000) {
            Ok(v) => {
                if v == 0x8000_0000 {
                    Ok(i32::MIN)
                } else {
                    Ok(-(v as i32))
                }
            },
            Err(IntErrorKind::PosOverflow) => Err(IntErrorKind::NegOverflow),
            Err(e) => Err(e),
        }
    } else {
        let start: usize = if s[0] == '+' {
            1
        } else {
            0
        };
        match parse_digit_run(s, start, 10, 0x7fff_ffff) {
            Ok(v) => Ok(v as i32),
            Err(e) => Err(e),
        }
    }
}

} // verus!
