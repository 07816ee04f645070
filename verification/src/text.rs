//! Numbers as text: decimal and hexadecimal, written and read.
use vstd::prelude::*;
use vstd::string::StringExecFns;

verus! {

/// `String::push` of the standard library appends the given character to the end
/// of the string; that the new content is the old one followed by that character
/// is taken from its documentation.
pub assume_specification[ String::push ](s: &mut String, c: char)
    ensures
        final(s)@ == old(s)@.push(c),
;

/// The character of a decimal digit.
pub open spec fn digit_char(digit: int) -> char {
    (48 + digit) as char
}

/// A natural number in decimal, without leading zeros.
pub open spec fn decimal(n: nat) -> Seq<char>
    decreases n,
{
    if n < 10 {
        seq![digit_char(n as int)]
    } else {
        decimal(n / 10).push(digit_char((n % 10) as int))
    }
}

/// An integer in decimal, with a minus sign before a negative one.
pub open spec fn signed_decimal(n: int) -> Seq<char> {
    if n < 0 {
        seq!['-'] + decimal((-n) as nat)
    } else {
        decimal(n as nat)
    }
}

/// The character of a hexadecimal digit, in lower case.
pub open spec fn hex_char(digit: int) -> char {
    if digit < 10 {
        (48 + digit) as char
    } else {
        (87 + digit) as char
    }
}

/// The last `width` hexadecimal digits of a natural number.
pub open spec fn hex_text(n: nat, width: nat) -> Seq<char>
    decreases width,
{
    if width == 0 {
        Seq::empty()
    } else {
        hex_text(n / 16, (width - 1) as nat).push(hex_char((n % 16) as int))
    }
}

/// The value of an alphanumeric digit; 36 where the byte is no such digit.
pub open spec fn digit_value(byte: u8) -> int {
    if 48 <= byte <= 57 {
        byte - 48
    } else if 97 <= byte <= 122 {
        byte - 87
    } else if 65 <= byte <= 90 {
        byte - 55
    } else {
        36
    }
}

/// The number that a run of digits writes in the given radix.
pub open spec fn digits_value(digits: Seq<u8>, radix: int) -> int
    decreases digits.len(),
{
    if digits.len() == 0 {
        0
    } else {
        digits_value(digits.drop_last(), radix) * radix + digit_value(digits.last())
    }
}

/// Whether every byte is a digit of the given radix.
pub open spec fn all_digits(digits: Seq<u8>, radix: int) -> bool {
    forall|i: int| 0 <= i < digits.len() ==> digit_value(#[trigger] digits[i]) < radix
}

/// What follows an optional plus sign.
pub open spec fn after_plus(bytes: Seq<u8>) -> Seq<u8> {
    if bytes.len() > 0 && bytes[0] == 43 {
        bytes.subrange(1, bytes.len() as int)
    } else {
        bytes
    }
}

/// The number up to `max` that a text writes: an optional plus sign, then one or
/// more digits of the radix and nothing else.
pub open spec fn unsigned_value(bytes: Seq<u8>, radix: int, max: int) -> Option<int> {
    let digits = after_plus(bytes);
    if digits.len() > 0 && all_digits(digits, radix) && digits_value(digits, radix) <= max {
        Some(digits_value(digits, radix))
    } else {
        None
    }
}

/// Why a text writes no number in range.
#[derive(Clone, Copy, Debug, PartialEq, Eq, Structural)]
pub enum Fault {
    /// There is no text.
    Empty,
    /// A character is no digit, or there are no digits.
    InvalidDigit,
    /// The number is above the range.
    TooLarge,
}

/// Whether the digits that a text begins with already write a number above `max`.
pub open spec fn overflows(digits: Seq<u8>, radix: int, max: int) -> bool {
    exists|n: int|
        0 <= n <= digits.len() && all_digits(#[trigger] digits.subrange(0, n), radix)
            && digits_value(digits.subrange(0, n), radix) > max
}

/// Why a text that writes no number up to `max` writes none: what is found first when it
/// is read from the left.
pub open spec fn fault_of(bytes: Seq<u8>, radix: int, max: int) -> Fault {
    if bytes.len() == 0 {
        Fault::Empty
    } else if overflows(after_plus(bytes), radix, max) {
        Fault::TooLarge
    } else {
        Fault::InvalidDigit
    }
}

impl Fault {
    /// The fault in words.
    pub open spec fn text(self) -> Seq<char> {
        match self {
            Fault::Empty => "cannot parse integer from empty string"@,
            Fault::InvalidDigit => "invalid digit found in string"@,
            Fault::TooLarge => "number too large to fit in target type"@,
        }
    }

    /// The fault in words.
    pub fn describe(self) -> (words: String)
        ensures
            words@ == self.text(),
    {
        match self {
            Fault::Empty => "cannot parse integer from empty string".to_owned(),
            Fault::InvalidDigit => "invalid digit found in string".to_owned(),
            Fault::TooLarge => "number too large to fit in target type".to_owned(),
        }
    }
}

/// Appends a text.
pub(crate) fn append(text: &mut String, more: &str)
    ensures
        final(text)@ == old(text)@ + more@,
{
    StringExecFns::append(text, more);
}

/// Appends a natural number in decimal.
pub(crate) fn append_decimal(text: &mut String, n: u64)
    ensures
        final(text)@ == old(text)@ + decimal(n as nat),
    decreases n,
{
    if n < 10 {
        text.push((48u8 + n as u8) as char);
    } else {
        append_decimal(text, n / 10);
        text.push((48u8 + (n % 10) as u8) as char);
    }
}

/// Appends an integer in decimal.
pub(crate) fn append_signed(text: &mut String, n: i64)
    ensures
        final(text)@ == old(text)@ + signed_decimal(n as int),
{
    if n < 0 {
        text.push('-');
        let size: u64 = if n == i64::MIN {
            0x8000_0000_0000_0000
        } else {
            (-n) as u64
        };
        append_decimal(text, size);
    } else {
        append_decimal(text, n as u64);
    }
}

/// Appends the last `width` hexadecimal digits of `n`, in lower case.
pub(crate) fn append_hex(text: &mut String, n: u64, width: u32)
    ensures
        final(text)@ == old(text)@ + hex_text(n as nat, width as nat),
    decreases width,
{
    if width > 0 {
        append_hex(text, n / 16, width - 1);
        let digit = (n % 16) as u8;
        let c = if digit < 10 {
            (48u8 + digit) as char
        } else {
            (87u8 + digit) as char
        };
        text.push(c);
    }
}

/// Whether an owned and a borrowed text are the same.
pub(crate) fn same_text(a: &String, b: &str) -> (same: bool)
    ensures
        same == (a@ == b@),
{
    *a == b.to_owned()
}

/// The number up to `max` that `bytes` writes in the given radix.
pub(crate) fn parse_unsigned(bytes: &[u8], radix: u64, max: u64) -> (value: Result<u64, Fault>)
    requires
        2 <= radix <= 36,
    ensures
        match value {
            Ok(v) => unsigned_value(bytes@, radix as int, max as int) == Some(v as int),
            Err(fault) => unsigned_value(bytes@, radix as int, max as int) is None && fault
                == fault_of(bytes@, radix as int, max as int),
        },
{
    let len = bytes.len();
    if len == 0 {
        return Err(Fault::Empty);
    }
    let first: usize = if bytes[0] == 43 {
        1
    } else {
        0
    };
    let ghost digits = after_plus(bytes@);
    if first == len {
        assert(digits.len() == 0);
        assert(!overflows(digits, radix as int, max as int)) by {
            assert forall|n: int| 0 <= n <= digits.len() implies digits_value(
                #[trigger] digits.subrange(0, n),
                radix as int,
            ) <= max by {
                assert(digits.subrange(0, n).len() == 0);
            }
        }
        return Err(Fault::InvalidDigit);
    }
    let mut value: u64 = 0;
    let mut i: usize = first;
    assert(digits.subrange(0, 0) =~= Seq::<u8>::empty());
    while i < len
        invariant
            2 <= radix <= 36,
            len == bytes@.len(),
            first <= i <= len,
            first == 0 || first == 1,
            digits == after_plus(bytes@),
            digits.len() == len - first,
            forall|j: int| first <= j < len ==> bytes@[j] == #[trigger] digits[j - first],
            all_digits(digits.subrange(0, i - first), radix as int),
            value == digits_value(digits.subrange(0, i - first), radix as int),
            value <= max,
        decreases len - i,
    {
        let byte = bytes[i];
        let digit: u64 = if 48 <= byte && byte <= 57 {
            (byte - 48) as u64
        } else if 97 <= byte && byte <= 122 {
            (byte - 87) as u64
        } else if 65 <= byte && byte <= 90 {
            (byte - 55) as u64
        } else {
            36
        };
        let ghost at = i - first;
        proof {
            assert(digits[at] == byte);
            assert(digits.subrange(0, at + 1).drop_last() =~= digits.subrange(0, at));
        }
        if digit >= radix {
            proof {
                lemma_no_overflow(digits, radix as int, max as int, at);
            }
            return Err(Fault::InvalidDigit);
        }
        assert(value as u128 * radix as u128 <= u64::MAX as u128 * 36) by (nonlinear_arith)
            requires
                value <= u64::MAX,
                radix <= 36,
        ;
        let next: u128 = value as u128 * radix as u128 + digit as u128;
        if next > max as u128 {
            proof {
                lemma_digits_value_grows(digits, radix as int, at + 1);
                assert(all_digits(digits.subrange(0, at + 1), radix as int));
                assert(overflows(digits, radix as int, max as int));
            }
            return Err(Fault::TooLarge);
        }
        value = next as u64;
        i = i + 1;
    }
    assert(digits.subrange(0, digits.len() as int) =~= digits);
    Ok(value)
}

/// Digits in range before a character that is no digit write no number above the range.
proof fn lemma_no_overflow(digits: Seq<u8>, radix: int, max: int, at: int)
    requires
        radix >= 1,
        0 <= at < digits.len(),
        digit_value(digits[at]) >= radix,
        digits_value(digits.subrange(0, at), radix) <= max,
    ensures
        !overflows(digits, radix, max),
        !all_digits(digits, radix),
{
    assert forall|n: int|
        0 <= n <= digits.len() && all_digits(#[trigger] digits.subrange(0, n), radix) implies
        digits_value(digits.subrange(0, n), radix) <= max by {
        if n > at {
            assert(digits.subrange(0, n)[at] == digits[at]);
        } else {
            lemma_digits_value_grows(digits.subrange(0, at), radix, n);
            assert(digits.subrange(0, at).subrange(0, n) =~= digits.subrange(0, n));
        }
    }
}

/// A longer run of digits writes no smaller number.
proof fn lemma_digits_value_grows(digits: Seq<u8>, radix: int, n: int)
    requires
        radix >= 1,
        0 <= n <= digits.len(),
    ensures
        0 <= digits_value(digits.subrange(0, n), radix) <= digits_value(digits, radix),
    decreases digits.len(),
{
    if digits.len() == 0 {
        assert(digits.subrange(0, n) =~= digits);
    } else {
        let rest = digits.drop_last();
        let v = digits_value(rest, radix);
        if n == digits.len() {
            assert(digits.subrange(0, n) =~= digits);
            lemma_digits_value_grows(rest, radix, 0);
        } else {
            assert(digits.subrange(0, n) =~= rest.subrange(0, n));
            lemma_digits_value_grows(rest, radix, n);
        }
        assert(v * radix >= v) by (nonlinear_arith)
            requires
                v >= 0,
                radix >= 1,
        ;
    }
}

/// The bytes of a text.
pub open spec fn bytes_of(text: Seq<char>) -> Seq<u8> {
    vstd::utf8::encode_utf8(text)
}

/// The texts of a list of strings.
pub open spec fn texts_of(strings: Seq<String>) -> Seq<Seq<char>> {
    Seq::new(strings.len(), |i: int| strings[i]@)
}

/// What is left of a number above its last `width` hexadecimal digits.
spec fn above(n: nat, width: nat) -> nat
    decreases width,
{
    if width == 0 {
        n
    } else {
        above(n / 16, (width - 1) as nat)
    }
}

/// Hexadecimal digits read back as the number that they were written for.
proof fn lemma_hex_digits(n: nat, width: nat, bytes: Seq<u8>)
    requires
        above(n, width) == 0,
        bytes.len() == width,
        forall|i: int| 0 <= i < width ==> #[trigger] bytes[i] == hex_text(n, width)[i] as u8,
    ensures
        hex_text(n, width).len() == width,
        all_digits(bytes, 16),
        digits_value(bytes, 16) == n,
        forall|i: int| 0 <= i < width ==> #[trigger] bytes[i] != 43,
    decreases width,
{
    lemma_hex_ascii(n, width);
    if width > 0 {
        let m = (width - 1) as nat;
        let head = bytes.drop_last();
        lemma_hex_ascii(n / 16, m);
        assert forall|i: int| 0 <= i < m implies #[trigger] head[i] == hex_text(n / 16, m)[i] as u8 by {
            assert(bytes[i] == hex_text(n, width)[i] as u8);
        }
        lemma_hex_digits(n / 16, m, head);
        assert(bytes[m as int] == hex_char((n % 16) as int) as u8);
        assert(digit_value(bytes.last()) == n % 16);
        assert forall|i: int| 0 <= i < bytes.len() implies digit_value(#[trigger] bytes[i]) < 16
            && bytes[i] != 43 by {
            if i < m {
                assert(head[i] == bytes[i]);
            }
        }
    }
}

/// Hexadecimal text has the stated length and holds ASCII characters alone.
pub proof fn lemma_hex_ascii(n: nat, width: nat)
    ensures
        hex_text(n, width).len() == width,
        vstd::utf8::is_ascii_chars(hex_text(n, width)),
    decreases width,
{
    if width > 0 {
        lemma_hex_ascii(n / 16, (width - 1) as nat);
    }
}

/// Sixteen hexadecimal digits read back as the 64-bit number that they were written
/// for.
pub proof fn lemma_hex_round_trip(n: u64, bytes: Seq<u8>)
    requires
        bytes.len() == 16,
        forall|i: int| 0 <= i < 16 ==> #[trigger] bytes[i] == hex_text(n as nat, 16)[i] as u8,
    ensures
        unsigned_value(bytes, 16, u64::MAX as int) == Some(n as int),
{
    assert(above(n as nat, 16) == 0) by {
        reveal_with_fuel(above, 17);
    }
    lemma_hex_digits(n as nat, 16, bytes);
    assert(bytes[0] != 43);
}

/// Decimal text is made of decimal digits.
pub proof fn lemma_decimal_digits(n: nat)
    ensures
        decimal(n).len() > 0,
        forall|i: int| 0 <= i < decimal(n).len() ==> '0' <= #[trigger] decimal(n)[i] <= '9',
    decreases n,
{
    if n >= 10 {
        lemma_decimal_digits(n / 10);
    }
}

/// The bytes of decimal text are digits that write its number.
proof fn lemma_decimal_bytes(n: nat)
    ensures
        bytes_of(decimal(n)).len() == decimal(n).len(),
        all_digits(bytes_of(decimal(n)), 10),
        digits_value(bytes_of(decimal(n)), 10) == n,
        bytes_of(decimal(n))[0] != 43,
    decreases n,
{
    let text = decimal(n);
    let bytes = bytes_of(text);
    lemma_decimal_digits(n);
    vstd::utf8::is_ascii_chars_encode_utf8(text);
    assert forall|i: int| 0 <= i < bytes.len() implies #[trigger] bytes[i] == text[i] as u8
        && 48 <= bytes[i] <= 57 by {}
    reveal_with_fuel(digits_value, 2);
    if n < 10 {
        assert(bytes.drop_last() =~= Seq::<u8>::empty());
        assert(bytes.last() == digit_char(n as int) as u8);
    } else {
        lemma_decimal_bytes(n / 10);
        lemma_decimal_digits(n / 10);
        vstd::utf8::is_ascii_chars_encode_utf8(decimal(n / 10));
        assert(bytes.drop_last() =~= bytes_of(decimal(n / 10)));
        assert(bytes.last() == digit_char((n % 10) as int) as u8);
    }
}

/// A number up to `max` reads back from its decimal text, with or without a plus sign.
pub proof fn lemma_decimal_round_trip(n: nat, max: int)
    requires
        n <= max,
    ensures
        unsigned_value(bytes_of(decimal(n)), 10, max) == Some(n as int),
        unsigned_value(bytes_of(seq!['+'] + decimal(n)), 10, max) == Some(n as int),
{
    let text = decimal(n);
    let signed = seq!['+'] + text;
    lemma_decimal_bytes(n);
    lemma_decimal_digits(n);
    assert forall|i: int| 0 <= i < signed.len() implies '\0' <= #[trigger] signed[i] <= '\u{7f}' by {
        if i > 0 {
            assert(signed[i] == text[i - 1]);
        }
    }
    vstd::utf8::is_ascii_chars_encode_utf8(text);
    vstd::utf8::is_ascii_chars_encode_utf8(signed);
    let bytes = bytes_of(signed);
    assert(bytes[0] == 43);
    assert forall|i: int| 0 <= i < text.len() implies #[trigger] bytes[i + 1] == bytes_of(
        text,
    )[i] by {
        assert(signed[i + 1] == text[i]);
    }
    assert(bytes.subrange(1, bytes.len() as int) =~= bytes_of(text));
}

/// A division by ten or sixteen taken out of the place of a digit.
proof fn lemma_place(n: nat, radix: int, i: nat)
    requires
        radix > 1,
        i > 0,
    ensures
        (n as int / radix) / vstd::arithmetic::power::pow(radix, (i - 1) as nat) == n as int / vstd::arithmetic::power::pow(radix, i),
        vstd::arithmetic::power::pow(radix, i) == radix * vstd::arithmetic::power::pow(radix, (i - 1) as nat),
{
    reveal(vstd::arithmetic::power::pow);
    vstd::arithmetic::power::lemma_pow_positive(radix, (i - 1) as nat);
    vstd::arithmetic::div_mod::lemma_div_denominator(
        n as int,
        radix,
        vstd::arithmetic::power::pow(radix, (i - 1) as nat),
    );
}

/// In a decimal text, the character `i` places from the right is the digit of that power
/// of ten in the number.
pub proof fn law_decimal_digit_by_place(n: nat, i: nat)
    requires
        i < decimal(n).len(),
    ensures
        decimal(n)[decimal(n).len() - 1 - i] as int == 48 + (n as int / vstd::arithmetic::power::pow(10, i)) % 10,
    decreases n,
{
    vstd::arithmetic::power::lemma_pow0(10);
    if i == 0 {
        assert(n as int / 1 == n);
    } else {
        law_decimal_digit_by_place(n / 10, (i - 1) as nat);
        lemma_place(n, 10, i);
    }
}

/// A decimal text has as many characters as the number has digits: no leading zeros.
pub proof fn law_decimal_length(n: nat)
    ensures
        n == 0 ==> decimal(n).len() == 1,
        n > 0 ==> vstd::arithmetic::power::pow(10, (decimal(n).len() - 1) as nat) <= n < vstd::arithmetic::power::pow(10, decimal(n).len()),
        decimal(n).len() >= 1,
    decreases n,
{
    vstd::arithmetic::power::lemma_pow0(10);
    vstd::arithmetic::power::lemma_pow1(10);
    if n >= 10 {
        law_decimal_length(n / 10);
        let len = decimal(n).len();
        lemma_place(n, 10, len);
        lemma_place(n, 10, (len - 1) as nat);
    }
}

/// Different numbers have different decimal texts.
pub proof fn law_decimal_is_unambiguous(a: int, b: int)
    requires
        signed_decimal(a) == signed_decimal(b),
    ensures
        a == b,
{
    let (m, n) = (
        if a < 0 {
            (-a) as nat
        } else {
            a as nat
        },
        if b < 0 {
            (-b) as nat
        } else {
            b as nat
        },
    );
    lemma_decimal_digits(m);
    lemma_decimal_digits(n);
    lemma_decimal_bytes(m);
    lemma_decimal_bytes(n);
    let (s, t) = (signed_decimal(a), signed_decimal(b));
    if a < 0 {
        assert(s[0] == '-');
    } else {
        assert(s[0] == decimal(m)[0]);
    }
    if b < 0 {
        assert(t[0] == '-');
    } else {
        assert(t[0] == decimal(n)[0]);
    }
    assert((a < 0) == (b < 0));
    if a < 0 {
        assert(s.subrange(1, s.len() as int) =~= decimal(m));
        assert(t.subrange(1, t.len() as int) =~= decimal(n));
    }
}

/// A signed text is the decimal text of the number's size, behind a minus sign exactly where
/// the number is negative.
pub proof fn law_signed_decimal(n: nat)
    ensures
        signed_decimal(n as int) == decimal(n),
        n > 0 ==> signed_decimal(-n) == seq!['-'] + decimal(n),
{
}

/// In a hexadecimal text, the character `i` places from the right is the digit of that power
/// of sixteen in the number, in lower case.
pub proof fn law_hex_digit_by_place(n: nat, width: nat, i: nat)
    requires
        i < width,
    ensures
        hex_text(n, width).len() == width,
        ({
            let digit = (n as int / vstd::arithmetic::power::pow(16, i)) % 16;
            hex_text(n, width)[width - 1 - i] as int == if digit < 10 {
                48 + digit
            } else {
                87 + digit
            }
        }),
    decreases width,
{
    vstd::arithmetic::power::lemma_pow0(16);
    lemma_hex_ascii(n, width);
    if i == 0 {
        assert(n as int / 1 == n);
    } else {
        lemma_hex_ascii(n / 16, (width - 1) as nat);
        law_hex_digit_by_place(n / 16, (width - 1) as nat, (i - 1) as nat);
        lemma_place(n, 16, i);
    }
}

/// A digit behind a text that writes a number writes the number that many times the radix,
/// plus the digit; a single digit writes itself. What is above the range is no number.
pub proof fn law_appended_digit_counts(bytes: Seq<u8>, byte: u8, x: int, radix: int, max: int)
    requires
        2 <= radix <= 36,
        0 <= x < radix,
        x < 10 ==> byte == 48 + x,
        x >= 10 ==> byte == 87 + x || byte == 55 + x,
    ensures
        unsigned_value(seq![byte], radix, max) == if x <= max {
            Some(x)
        } else {
            None
        },
        unsigned_value(bytes, radix, max) matches Some(v) ==> unsigned_value(
            bytes.push(byte),
            radix,
            max,
        ) == if v * radix + x <= max {
            Some(v * radix + x)
        } else {
            None
        },
        unsigned_value(bytes, radix, max) is None && bytes.len() > 0 && bytes != seq![43u8]
            ==> unsigned_value(bytes.push(byte), radix, max) is None,
{
    reveal_with_fuel(digits_value, 2);
    assert(digit_value(byte) == x);
    assert(seq![byte].drop_last() =~= Seq::<u8>::empty());
    let (old, new) = (after_plus(bytes), after_plus(bytes.push(byte)));
    if bytes.len() > 0 {
        assert(bytes.push(byte)[0] == bytes[0]);
        assert(new =~= old.push(byte));
        assert(new.drop_last() =~= old);
        assert forall|i: int| 0 <= i < old.len() implies new[i] == #[trigger] old[i] by {}
        if all_digits(new, radix) {
            assert forall|i: int| 0 <= i < old.len() implies digit_value(#[trigger] old[i])
                < radix by {
                assert(new[i] == old[i]);
            }
        }
        if all_digits(old, radix) {
            lemma_digits_value_grows(new, radix, old.len() as int);
            assert(new.subrange(0, old.len() as int) =~= old);
            assert forall|i: int| 0 <= i < new.len() implies digit_value(#[trigger] new[i])
                < radix by {
                if i < old.len() {
                    assert(new[i] == old[i]);
                }
            }
        }
        if bytes[0] == 43 && old.len() == 0 {
            assert(bytes =~= seq![43u8]);
        }
    }
}

/// A plus sign before a text changes nothing, nothing and a lone plus sign write no number,
/// and nor does a text with any other character that is no digit.
pub proof fn law_other_texts_are_no_numbers(bytes: Seq<u8>, radix: int, max: int, i: int)
    requires
        2 <= radix <= 36,
    ensures
        bytes.len() > 0 && bytes[0] != 43 ==> unsigned_value(seq![43u8] + bytes, radix, max)
            == unsigned_value(bytes, radix, max),
        unsigned_value(Seq::empty(), radix, max) is None,
        unsigned_value(seq![43u8], radix, max) is None,
        0 <= i < bytes.len() && (i > 0 || bytes[i] != 43) && !(48 <= bytes[i] <= 57 && bytes[i]
            < 48 + radix) && !(97 <= bytes[i] < 87 + radix) && !(65 <= bytes[i] < 55 + radix)
            ==> unsigned_value(bytes, radix, max) is None,
{
    let signed = seq![43u8] + bytes;
    assert(signed.subrange(1, signed.len() as int) =~= bytes);
    if 0 <= i < bytes.len() && (i > 0 || bytes[i] != 43) {
        let digits = after_plus(bytes);
        let j = if bytes[0] == 43 {
            i - 1
        } else {
            i
        };
        assert(digits[j] == bytes[i]);
    }
}

/// The range decides only whether the number is taken, not which one it is.
pub proof fn law_range_only_limits(bytes: Seq<u8>, radix: int, low: int, high: int)
    requires
        low <= high,
    ensures
        unsigned_value(bytes, radix, low) == match unsigned_value(bytes, radix, high) {
            Some(v) => if v <= low {
                Some(v)
            } else {
                None
            },
            None => None,
        },
{
}

/// Why a text is refused: there is none, its leading digits already pass the range whatever
/// follows them, or a character that is no digit comes before that.
pub proof fn law_refusals_tell_the_first_fault(
    digits: Seq<u8>,
    rest: Seq<u8>,
    bad: u8,
    radix: int,
    max: int,
)
    requires
        2 <= radix <= 36,
        max >= 0,
        forall|i: int| 0 <= i < digits.len() ==> digit_value(#[trigger] digits[i]) < radix,
    ensures
        fault_of(Seq::empty(), radix, max) == Fault::Empty,
        digits.len() > 0 && unsigned_value(digits, radix, max) is None ==> fault_of(
            digits + rest,
            radix,
            max,
        ) == Fault::TooLarge,
        digit_value(bad) >= radix && (digits.len() > 0 ==> unsigned_value(digits, radix, max)
            is Some) && (digits.len() == 0 ==> bad != 43) ==> fault_of(
            digits.push(bad) + rest,
            radix,
            max,
        ) == Fault::InvalidDigit,
{
    if digits.len() > 0 {
        assert(digit_value(digits[0]) < radix);
        assert(digits[0] != 43);
        assert(after_plus(digits) == digits);
        assert(all_digits(digits, radix));
        let all = digits + rest;
        assert(all[0] == digits[0]);
        assert(all.subrange(0, digits.len() as int) =~= digits);
        if unsigned_value(digits, radix, max) is None {
            assert(overflows(all, radix, max));
        }
    }
    let broken = digits.push(bad) + rest;
    if digit_value(bad) >= radix && (digits.len() > 0 ==> unsigned_value(digits, radix, max)
        is Some) && (digits.len() == 0 ==> bad != 43) {
        let at = digits.len() as int;
        assert(broken[0] == if digits.len() > 0 {
            digits[0]
        } else {
            bad
        });
        assert(broken[0] != 43);
        assert(broken[at] == bad);
        assert(broken.subrange(0, at) =~= digits);
        reveal_with_fuel(digits_value, 1);
        lemma_no_overflow(broken, radix, max, at);
    }
}

/// The texts of a list are those of its strings, in their order.
pub proof fn law_texts_are_those_of_the_strings(strings: Seq<String>)
    ensures
        texts_of(strings).len() == strings.len(),
        forall|i: int| 0 <= i < strings.len() ==> #[trigger] texts_of(strings)[i] == strings[i]@,
{
}

/// A number that is read is in range.
pub proof fn lemma_value_in_range(bytes: Seq<u8>, radix: int, max: int)
    requires
        radix >= 1,
    ensures
        unsigned_value(bytes, radix, max) matches Some(v) ==> 0 <= v <= max,
{
    lemma_digits_value_grows(after_plus(bytes), radix, 0);
}

} // verus!
