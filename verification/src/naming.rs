//! How table files are named: the sequence number in decimal, padded with
//! zeros to eight digits, and the extension `.sst`. Names are byte strings.

use vstd::prelude::*;
use crate::lexical::{is_split, lex_lt};

verus! {

/// The extension with its dot: ".sst".
pub open spec fn extension() -> Seq<u8> {
    seq![46u8, 115u8, 115u8, 116u8]
}

/// The name carries the extension after a stem that is not empty.
pub open spec fn is_table_name(name: Seq<u8>) -> bool {
    name.len() > 4 && name.subrange(name.len() - 4, name.len() as int) == extension()
}

/// The byte is an ASCII digit.
pub open spec fn is_digit(b: u8) -> bool {
    48 <= b <= 57
}

/// Every byte is an ASCII digit.
pub open spec fn all_digits(s: Seq<u8>) -> bool {
    forall|i: int| 0 <= i < s.len() ==> is_digit(#[trigger] s[i])
}

/// The number that a string of digits spells in decimal.
pub open spec fn decimal_value(digits: Seq<u8>) -> nat
    decreases digits.len(),
{
    if digits.len() == 0 {
        0
    } else {
        decimal_value(digits.drop_last()) * 10 + (digits.last() - 48) as nat
    }
}

/// The digits of a stem: what follows one leading plus sign, if there is one.
pub open spec fn digits_of(stem: Seq<u8>) -> Seq<u8> {
    if stem.len() > 0 && stem[0] == 43u8 {
        stem.drop_first()
    } else {
        stem
    }
}

/// The sequence number that a table name carries: its stem read as a decimal
/// number, where the stem is one or more digits, after at most one plus
/// sign, and the number fits.
pub open spec fn number_of(name: Seq<u8>) -> Option<usize>
    recommends
        is_table_name(name),
{
    let digits = digits_of(name.subrange(0, name.len() - 4));
    if digits.len() > 0 && all_digits(digits) && decimal_value(digits) <= usize::MAX {
        Some(decimal_value(digits) as usize)
    } else {
        None
    }
}

/// The decimal digits of a number, without leading zeros.
pub open spec fn decimal_digits(n: nat) -> Seq<u8>
    decreases n,
{
    if n < 10 {
        seq![(48 + n) as u8]
    } else {
        decimal_digits(n / 10).push((48 + n % 10) as u8)
    }
}

/// A string of `k` zeros.
pub open spec fn zeros(k: nat) -> Seq<u8> {
    Seq::new(k, |i: int| 48u8)
}

/// The decimal digits of a number, with zeros in front where there are
/// fewer than eight.
pub open spec fn padded_digits(n: nat) -> Seq<u8> {
    let digits = decimal_digits(n);
    if digits.len() >= 8 {
        digits
    } else {
        zeros((8 - digits.len()) as nat) + digits
    }
}

/// The name of the table file with the sequence number `number`.
pub open spec fn table_name(number: usize) -> Seq<u8> {
    padded_digits(number as nat) + extension()
}

/// A longer string of digits spells no smaller number than its beginning.
pub proof fn lemma_decimal_value_grows(digits: Seq<u8>, n: int)
    requires
        all_digits(digits),
        0 <= n <= digits.len(),
    ensures
        decimal_value(digits.take(n)) <= decimal_value(digits),
    decreases digits.len() - n,
{
    if n == digits.len() {
        assert(digits.take(n) =~= digits);
    } else {
        lemma_decimal_value_grows(digits, n + 1);
        assert(digits.take(n + 1).drop_last() =~= digits.take(n));
    }
}

/// Zeros in front do not change the number that digits spell.
pub proof fn lemma_leading_zeros(k: nat, digits: Seq<u8>)
    ensures
        decimal_value(zeros(k) + digits) == decimal_value(digits),
    decreases digits.len(), k,
{
    let whole = zeros(k) + digits;
    if digits.len() > 0 {
        assert(whole.drop_last() =~= zeros(k) + digits.drop_last());
        lemma_leading_zeros(k, digits.drop_last());
    } else if k > 0 {
        assert(whole.drop_last() =~= zeros((k - 1) as nat) + digits);
        lemma_leading_zeros((k - 1) as nat, digits);
    }
}

/// The decimal digits of a number are digits, at least one, and spell the
/// number.
pub proof fn lemma_decimal_digits(n: nat)
    ensures
        decimal_digits(n).len() >= 1,
        all_digits(decimal_digits(n)),
        decimal_value(decimal_digits(n)) == n,
    decreases n,
{
    let digits = decimal_digits(n);
    if n < 10 {
        assert(decimal_value(digits.drop_last()) == 0);
    } else {
        lemma_decimal_digits(n / 10);
        assert(digits.drop_last() =~= decimal_digits(n / 10));
    }
}

/// The name of a table file is a table name and carries the file's number.
pub proof fn lemma_number_of_table_name(number: usize)
    ensures
        is_table_name(table_name(number)),
        number_of(table_name(number)) == Some(number),
{
    let n = number as nat;
    let digits = decimal_digits(n);
    let padded = padded_digits(n);
    let name = table_name(number);
    lemma_decimal_digits(n);
    assert(name.subrange(name.len() - 4, name.len() as int) =~= extension());
    assert(name.subrange(0, name.len() - 4) =~= padded);
    if digits.len() < 8 {
        lemma_leading_zeros((8 - digits.len()) as nat, digits);
    }
}

/// The last `width` decimal digits of a number, zeros included.
pub open spec fn fixed_digits(n: nat, width: nat) -> Seq<u8>
    decreases width,
{
    if width == 0 {
        Seq::empty()
    } else {
        fixed_digits(n / 10, (width - 1) as nat).push((48 + n % 10) as u8)
    }
}

/// Ten to the power `k`.
pub open spec fn pow10(k: nat) -> nat
    decreases k,
{
    if k == 0 {
        1
    } else {
        10 * pow10((k - 1) as nat)
    }
}

/// The numbers whose names have eight digits lie below this one.
pub const EIGHT_DIGITS: usize = 100_000_000;

/// Digits of fixed width are that many.
pub proof fn lemma_fixed_digits_len(n: nat, width: nat)
    ensures
        fixed_digits(n, width).len() == width,
    decreases width,
{
    if width > 0 {
        lemma_fixed_digits_len(n / 10, (width - 1) as nat);
    }
}

/// Zero in fixed width is all zeros.
pub proof fn lemma_fixed_digits_of_zero(width: nat)
    ensures
        fixed_digits(0, width) == zeros(width),
    decreases width,
{
    if width > 0 {
        lemma_fixed_digits_of_zero((width - 1) as nat);
    }
}

/// A number below ten to the `width` has at most `width` digits, and in
/// fixed width it is those digits with zeros in front.
pub proof fn lemma_fixed_digits_pad(n: nat, width: nat)
    requires
        width >= 1,
        n < pow10(width),
    ensures
        decimal_digits(n).len() <= width,
        fixed_digits(n, width) == zeros((width - decimal_digits(n).len()) as nat) + decimal_digits(
            n,
        ),
    decreases width,
{
    if n < 10 {
        lemma_fixed_digits_of_zero((width - 1) as nat);
    } else {
        assert(pow10(1) == 10) by {
            reveal_with_fuel(pow10, 2);
        }
        lemma_fixed_digits_pad(n / 10, (width - 1) as nat);
    }
}

/// A key that sorts before another of the same length still does so when
/// both are continued.
pub proof fn lemma_lex_lt_continued(a: Seq<u8>, b: Seq<u8>, more_a: Seq<u8>, more_b: Seq<u8>)
    requires
        lex_lt(a, b),
        a.len() == b.len(),
    ensures
        lex_lt(a + more_a, b + more_b),
{
    let i = choose|i: int| is_split(a, b, i);
    assert((a + more_a).subrange(0, i) =~= a.subrange(0, i));
    assert((b + more_b).subrange(0, i) =~= b.subrange(0, i));
    assert(is_split(a + more_a, b + more_b, i));
}

/// In fixed width the smaller number sorts first.
pub proof fn lemma_fixed_digits_ascend(a: nat, b: nat, width: nat)
    requires
        a < b < pow10(width),
    ensures
        lex_lt(fixed_digits(a, width), fixed_digits(b, width)),
    decreases width,
{
    if width > 0 {
        let front_a = fixed_digits(a / 10, (width - 1) as nat);
        let front_b = fixed_digits(b / 10, (width - 1) as nat);
        let fa = fixed_digits(a, width);
        let fb = fixed_digits(b, width);
        lemma_fixed_digits_len(a / 10, (width - 1) as nat);
        lemma_fixed_digits_len(b / 10, (width - 1) as nat);
        if a / 10 < b / 10 {
            lemma_fixed_digits_ascend(a / 10, b / 10, (width - 1) as nat);
            assert(fa =~= front_a + seq![(48 + a % 10) as u8]);
            assert(fb =~= front_b + seq![(48 + b % 10) as u8]);
            lemma_lex_lt_continued(
                front_a,
                front_b,
                seq![(48 + a % 10) as u8],
                seq![(48 + b % 10) as u8],
            );
        } else {
            assert(fa.subrange(0, width - 1) =~= front_a);
            assert(fb.subrange(0, width - 1) =~= front_b);
            assert(is_split(fa, fb, width - 1));
        }
    }
}

/// As long as sequence numbers have eight digits, the names of table files
/// sort as their numbers do.
pub proof fn lemma_table_names_ascend(a: usize, b: usize)
    requires
        a < b < EIGHT_DIGITS,
    ensures
        lex_lt(table_name(a), table_name(b)),
{
    assert(pow10(8) == 100_000_000) by {
        reveal_with_fuel(pow10, 9);
    }
    lemma_fixed_digits_pad(a as nat, 8);
    lemma_fixed_digits_pad(b as nat, 8);
    lemma_fixed_digits_len(a as nat, 8);
    lemma_fixed_digits_len(b as nat, 8);
    lemma_fixed_digits_ascend(a as nat, b as nat, 8);
    lemma_lex_lt_continued(
        padded_digits(a as nat),
        padded_digits(b as nat),
        extension(),
        extension(),
    );
}

/// Whether the name is that of a table file.
pub fn is_table_file_name(name: &[u8]) -> (b: bool)
    ensures
        b == is_table_name(name@),
{
    let n = name.len();
    if n <= 4 {
        return false;
    }
    let b = name[n - 4] == 46u8 && name[n - 3] == 115u8 && name[n - 2] == 115u8 && name[n - 1]
        == 116u8;
    proof {
        let tail = name@.subrange(n - 4, n as int);
        assert(tail[0] == name@[n - 4] && tail[1] == name@[n - 3] && tail[2] == name@[n - 2]
            && tail[3] == name@[n - 1]);
        if b {
            assert(tail =~= extension());
        }
    }
    b
}

/// The sequence number in the name of a table file, if its stem is one.
pub fn sequence_number(name: &[u8]) -> (r: Option<usize>)
    requires
        is_table_name(name@),
    ensures
        r == number_of(name@),
{
    let end = name.len() - 4;
    let start: usize = if name[0] == 43u8 {
        1
    } else {
        0
    };
    let ghost stem = name@.subrange(0, end as int);
    let ghost digits = digits_of(stem);
    if start == end {
        return None;
    }
    let mut value: usize = 0;
    let mut i: usize = start;
    while i < end
        invariant
            start <= i <= end,
            start < end,
            end == name.len() - 4,
            is_table_name(name@),
            digits == digits_of(name@.subrange(0, end as int)),
            digits == name@.subrange(start as int, end as int),
            all_digits(digits.take(i - start)),
            value == decimal_value(digits.take(i - start)),
        decreases end - i,
    {
        let b = name[i];
        let ghost upto = digits.take(i - start + 1);
        proof {
            assert(upto.drop_last() =~= digits.take(i - start));
        }
        if b < 48u8 || b > 57u8 {
            proof {
                assert(digits[i - start] == b);
            }
            return None;
        }
        let d = (b - 48u8) as usize;
        if value > (usize::MAX - d) / 10 {
            proof {
                if all_digits(digits) {
                    lemma_decimal_value_grows(digits, i - start + 1);
                }
            }
            return None;
        }
        value = value * 10 + d;
        i += 1;
    }
    proof {
        assert(digits.take(end - start) =~= digits);
    }
    Some(value)
}

/// The name under which the table with the sequence number `number` is
/// stored.
pub fn table_file_name(number: usize) -> (name: Vec<u8>)
    ensures
        name@ == table_name(number),
{
    let mut name: Vec<u8> = Vec::new();
    name.push(48u8 + (number % 10) as u8);
    let mut rest: usize = number / 10;
    while rest > 0
        invariant
            name@.len() > 0,
            decimal_digits(number as nat) == if rest > 0 {
                decimal_digits(rest as nat) + name@
            } else {
                name@
            },
        decreases rest,
    {
        let ghost before = name@;
        name.insert(0, 48u8 + (rest % 10) as u8);
        proof {
            if rest >= 10 {
                assert(decimal_digits(rest as nat) + before =~= decimal_digits(
                    (rest / 10) as nat,
                ) + name@);
            }
        }
        rest = rest / 10;
    }
    let ghost digits = name@;
    while name.len() < 8
        invariant
            digits.len() > 0,
            name@.len() >= digits.len(),
            name@.len() > digits.len() ==> name@.len() <= 8,
            name@ == zeros((name@.len() - digits.len()) as nat) + digits,
        decreases 8 - name.len(),
    {
        name.insert(0, 48u8);
    }
    name.push(46u8);
    name.push(115u8);
    name.push(115u8);
    name.push(116u8);
    name
}

} // verus!
