//! Path counts: natural numbers without bound, stored as decimal text.
//!
//! The numbers themselves are `BigUint` values of the `num-bigint` crate. What that
//! crate's operations return is taken from its source; each is stated next to the
//! function below that calls it.
use num_bigint::BigUint;
use num_traits::Zero;
use std::str::FromStr;
use vstd::prelude::*;

use crate::error::{Error, ErrorView};
use crate::text;

verus! {

/// The unbounded natural number of the `num-bigint` crate.
#[verifier::external_type_specification]
#[verifier::external_body]
pub struct ExBigUint(BigUint);

/// The number that a `BigUint` holds.
pub uninterp spec fn big_value(n: BigUint) -> nat;

/// What follows an optional plus sign.
pub open spec fn unsigned_part(text: Seq<char>) -> Seq<char> {
    if text.len() > 0 && text[0] == '+' {
        text.subrange(1, text.len() as int)
    } else {
        text
    }
}

/// The number that a run of decimal digits writes; underscores between them count for
/// nothing.
pub open spec fn separated_value(digits: Seq<char>) -> nat
    decreases digits.len(),
{
    if digits.len() == 0 {
        0
    } else if digits.last() == '_' {
        separated_value(digits.drop_last())
    } else {
        (separated_value(digits.drop_last()) * 10 + (digits.last() as int - 48)) as nat
    }
}

/// The number that a count text writes: an optional plus sign, a decimal digit, and
/// then decimal digits and underscores alone.
pub open spec fn count_value(text: Seq<char>) -> Option<nat> {
    let digits = unsigned_part(text);
    if digits.len() > 0 && digits[0] != '_' && (forall|i: int|
        0 <= i < digits.len() ==> '0' <= #[trigger] digits[i] <= '9' || digits[i] == '_') {
        Some(separated_value(digits))
    } else {
        None
    }
}

/// Why a text that writes no count writes none: nothing follows the optional plus sign, or
/// what follows is not made of digits.
pub open spec fn count_fault(text: Seq<char>) -> Seq<char> {
    if unsigned_part(text).len() == 0 {
        "cannot parse integer from empty string"@
    } else {
        "invalid digit found in string"@
    }
}

/// The count that a stored text holds, or the error that refuses it.
pub open spec fn stored_count(text: Seq<char>) -> Result<nat, ErrorView> {
    match count_value(text) {
        Some(n) => Ok(n),
        None => Err(ErrorView::Count { value: text, cause: count_fault(text) }),
    }
}

/// Calls `BigUint::from_str`, which reads decimal digits after an optional plus sign
/// and skips underscores behind the first digit. It is taken to succeed on exactly the
/// texts of `count_value`, with the number that they write. Its error is handed on as the
/// words that it displays, which are taken to be those of `count_fault`.
#[verifier::external_body]
fn big_from_str(text: &str) -> (number: Result<BigUint, String>)
    ensures
        match number {
            Ok(n) => count_value(text@) == Some(big_value(n)),
            Err(words) => count_value(text@) is None && words@ == count_fault(text@),
        },
{
    match BigUint::from_str(text) {
        Ok(n) => Ok(n),
        Err(error) => Err(error.to_string()),
    }
}

/// Calls `to_string`, the `Display` output of `BigUint`, which is taken to be the
/// number in decimal without leading zeros.
#[verifier::external_body]
pub(crate) fn big_to_string(n: &BigUint) -> (text: String)
    ensures
        text@ == text::decimal(big_value(*n)),
{
    n.to_string()
}

/// Calls `Zero::zero` of `num-traits` for `BigUint`, which is taken to be 0.
#[verifier::external_body]
pub(crate) fn big_zero() -> (n: BigUint)
    ensures
        big_value(n) == 0,
{
    BigUint::zero()
}

/// Calls `BigUint::from` on a byte, which is taken to keep the number.
#[verifier::external_body]
pub(crate) fn big_from_u8(value: u8) -> (n: BigUint)
    ensures
        big_value(n) == value,
{
    BigUint::from(value)
}

/// Calls `+` on a `BigUint` and a borrowed one, which is taken to be the sum.
#[verifier::external_body]
pub(crate) fn big_add(a: BigUint, b: &BigUint) -> (sum: BigUint)
    ensures
        big_value(sum) == big_value(a) + big_value(*b),
{
    a + b
}

/// Calls `-` on two borrowed `BigUint` values, which is taken to be the difference; it
/// panics where that would be negative.
#[verifier::external_body]
pub(crate) fn big_sub(a: &BigUint, b: &BigUint) -> (difference: BigUint)
    requires
        big_value(*b) <= big_value(*a),
    ensures
        big_value(difference) == big_value(*a) - big_value(*b),
{
    a - b
}

/// Calls `==` on two `BigUint` values, which is taken to compare the numbers.
#[verifier::external_body]
pub(crate) fn big_eq(a: &BigUint, b: &BigUint) -> (equal: bool)
    ensures
        equal == (big_value(*a) == big_value(*b)),
{
    a == b
}

/// Calls `<` on two `BigUint` values, which is taken to compare the numbers.
#[verifier::external_body]
pub(crate) fn big_lt(a: &BigUint, b: &BigUint) -> (less: bool)
    ensures
        less == (big_value(*a) < big_value(*b)),
{
    a < b
}

/// Calls `clone` on a `BigUint`, which is taken to keep the number.
#[verifier::external_body]
pub(crate) fn big_clone(n: &BigUint) -> (copy: BigUint)
    ensures
        big_value(copy) == big_value(*n),
{
    n.clone()
}

/// A parsed count with its error taken by content.
pub open spec fn count_outcome(result: Result<BigUint, Error>) -> Result<nat, ErrorView> {
    match result {
        Ok(n) => Ok(big_value(n)),
        Err(error) => Err(error@),
    }
}

/// A text result with its parts taken by content.
pub open spec fn text_outcome(result: Result<String, Error>) -> Result<Seq<char>, ErrorView> {
    match result {
        Ok(text) => Ok(text@),
        Err(error) => Err(error@),
    }
}

/// The count that a stored text holds.
pub fn parse_big(value: &str) -> (count: Result<BigUint, Error>)
    ensures
        count_outcome(count) == stored_count(value@),
{
    match big_from_str(value) {
        Ok(n) => Ok(n),
        Err(cause) => Err(Error::Count { value: value.to_owned(), cause }),
    }
}

/// The text of a stored count after `delta` more paths.
pub open spec fn raised_count(old_text: Seq<char>, delta: nat) -> Result<Seq<char>, ErrorView> {
    match stored_count(old_text) {
        Ok(n) => Ok(text::decimal(n + delta)),
        Err(error) => Err(error),
    }
}

/// The text of the reach count of a position after `delta` more paths reach it.
pub fn add_reach_count(old_text: &str, delta: &BigUint) -> (next: Result<String, Error>)
    ensures
        text_outcome(next) == raised_count(old_text@, big_value(*delta)),
{
    match parse_big(old_text) {
        Err(error) => Err(error),
        Ok(n) => Ok(big_to_string(&big_add(n, delta))),
    }
}

/// The text of a score bucket after `delta` more paths end in it; a bucket that is not
/// stored yet holds none.
pub open spec fn raised_bucket(
    old_text: Option<Seq<char>>,
    delta: nat,
) -> Result<Seq<char>, ErrorView> {
    match old_text {
        Some(stored) => raised_count(stored, delta),
        None => Ok(text::decimal(delta)),
    }
}

/// The text of a score bucket after `delta` more paths end in it.
pub fn add_terminal_paths(old_text: &Option<String>, delta: &BigUint) -> (next: Result<
    String,
    Error,
>)
    ensures
        text_outcome(next) == raised_bucket(
            match *old_text {
                Some(stored) => Some(stored@),
                None => None,
            },
            big_value(*delta),
        ),
{
    match old_text {
        Some(stored) => add_reach_count(stored.as_str(), delta),
        None => Ok(big_to_string(delta)),
    }
}

/// The sum of the first stored counts, or the error of the first one that holds none.
pub open spec fn counts_total(texts: Seq<Seq<char>>) -> Result<nat, ErrorView>
    decreases texts.len(),
{
    if texts.len() == 0 {
        Ok(0)
    } else {
        match counts_total(texts.drop_last()) {
            Err(error) => Err(error),
            Ok(sum) => match stored_count(texts.last()) {
                Err(error) => Err(error),
                Ok(n) => Ok(sum + n),
            },
        }
    }
}

/// A total of the leading texts that failed stays failed.
proof fn lemma_total_fails(texts: Seq<Seq<char>>, n: int)
    requires
        0 <= n <= texts.len(),
        counts_total(texts.subrange(0, n)) is Err,
    ensures
        counts_total(texts) == counts_total(texts.subrange(0, n)),
    decreases texts.len(),
{
    if n == texts.len() {
        assert(texts.subrange(0, n) =~= texts);
    } else {
        let head = texts.drop_last();
        assert(head.subrange(0, n) =~= texts.subrange(0, n));
        lemma_total_fails(head, n);
    }
}

/// The sum of the stored counts.
pub fn terminal_path_total(texts: &Vec<String>) -> (total: Result<BigUint, Error>)
    ensures
        count_outcome(total) == counts_total(text::texts_of(texts@)),
{
    let mut total = big_zero();
    let mut i: usize = 0;
    let ghost all = text::texts_of(texts@);
    assert(all.subrange(0, 0) =~= Seq::<Seq<char>>::empty());
    while i < texts.len()
        invariant
            i <= texts.len(),
            all == text::texts_of(texts@),
            counts_total(all.subrange(0, i as int)) == Ok::<nat, ErrorView>(big_value(total)),
        decreases texts.len() - i,
    {
        assert(all.subrange(0, i + 1).drop_last() =~= all.subrange(0, i as int));
        assert(all.subrange(0, i + 1).last() == texts[i as int]@);
        match parse_big(texts[i].as_str()) {
            Err(error) => {
                proof {
                    lemma_total_fails(all, i + 1);
                }
                return Err(error);
            },
            Ok(n) => {
                total = big_add(total, &n);
            },
        }
        i = i + 1;
    }
    assert(all.subrange(0, i as int) =~= all);
    Ok(total)
}

/// A count reads back from its decimal text.
pub proof fn law_count_round_trip(n: nat)
    ensures
        count_value(text::decimal(n)) == Some(n),
{
    text::lemma_decimal_digits(n);
    lemma_decimal_value(n);
    let digits = text::decimal(n);
    assert(digits[0] != '+');
    assert(unsigned_part(digits) == digits);
}

/// Decimal text writes its number.
proof fn lemma_decimal_value(n: nat)
    ensures
        separated_value(text::decimal(n)) == n,
    decreases n,
{
    let digits = text::decimal(n);
    reveal_with_fuel(separated_value, 2);
    if n < 10 {
        assert(digits.drop_last() =~= Seq::<char>::empty());
        assert(digits.last() == text::digit_char(n as int));
    } else {
        lemma_decimal_value(n / 10);
        assert(digits.drop_last() =~= text::decimal(n / 10));
        assert(digits.last() == text::digit_char((n % 10) as int));
    }
}

/// Adding to a stored count twice stores the count of both additions.
pub proof fn law_raised_count_accumulates(n: nat, a: nat, b: nat)
    ensures
        raised_count(text::decimal(n), a) == Ok::<Seq<char>, ErrorView>(text::decimal(n + a)),
        raised_count(text::decimal(n + a), b) == raised_count(text::decimal(n), a + b),
{
    law_count_round_trip(n);
    law_count_round_trip(n + a);
}

/// Adding paths to a stored count of any form: the new text is in plain decimal and writes
/// the old number and the added one together; a text that is no count is refused.
pub proof fn law_raised_count_is_the_sum(old_text: Seq<char>, delta: nat)
    ensures
        count_value(old_text) matches Some(n) ==> (raised_count(old_text, delta) matches Ok(next)
            && count_value(next) == Some(n + delta) && next == text::decimal(n + delta)),
        count_value(old_text) is None ==> raised_count(old_text, delta) == Err::<
            Seq<char>,
            ErrorView,
        >(ErrorView::Count { value: old_text, cause: count_fault(old_text) }),
        raised_bucket(Some(old_text), delta) == raised_count(old_text, delta),
        raised_bucket(None, delta) matches Ok(first) && count_value(first) == Some(delta) && first
            == text::decimal(delta),
{
    law_count_round_trip(delta);
    if count_value(old_text) is Some {
        law_count_round_trip(count_value(old_text)->0 + delta);
    }
}

/// The total of two lists in a row is the sum of their totals, one count's total is the
/// count, and a list with a text that is no count has the error of the first such text.
pub proof fn law_totals_add_up(a: Seq<Seq<char>>, b: Seq<Seq<char>>, text: Seq<char>)
    ensures
        counts_total(Seq::empty()) == Ok::<nat, ErrorView>(0),
        counts_total(seq![text]) == match count_value(text) {
            Some(n) => Ok::<nat, ErrorView>(n),
            None => Err(ErrorView::Count { value: text, cause: count_fault(text) }),
        },
        counts_total(a + b) == match (counts_total(a), counts_total(b)) {
            (Ok(x), Ok(y)) => Ok::<nat, ErrorView>(x + y),
            (Err(error), _) => Err(error),
            (Ok(_), Err(error)) => Err(error),
        },
    decreases b.len(),
{
    reveal_with_fuel(counts_total, 2);
    assert(seq![text].drop_last() =~= Seq::<Seq<char>>::empty());
    if b.len() == 0 {
        assert(a + b =~= a);
    } else {
        law_totals_add_up(a, b.drop_last(), text);
        assert((a + b).drop_last() =~= a + b.drop_last());
    }
}

/// Results of this module and their contents agree on success and failure, value and error.
pub proof fn law_count_outcomes(count: Result<BigUint, Error>, next: Result<String, Error>)
    ensures
        count matches Ok(n) ==> count_outcome(count) == Ok::<nat, ErrorView>(big_value(n)),
        count matches Err(error) ==> count_outcome(count) == Err::<nat, ErrorView>(error@),
        next matches Ok(words) ==> text_outcome(next) == Ok::<Seq<char>, ErrorView>(words@),
        next matches Err(error) ==> text_outcome(next) == Err::<Seq<char>, ErrorView>(error@),
{
}

} // verus!
