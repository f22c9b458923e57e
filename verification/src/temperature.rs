//! Fixed-point parsing of one temperature field.
//!
//! A temperature field is the byte slice between the `;` separator and the
//! record terminator: an optional `-`, one or two integer digits, a `.`, and
//! exactly one fractional digit. The parser folds the ASCII digits left to
//! right (skipping the decimal point) into an integer number of tenths of a
//! degree, and negates it when the field starts with `-`.

use vstd::prelude::*;

verus! {

/// An ASCII decimal digit, `0` to `9`.
pub open spec fn is_ascii_digit_byte(b: u8) -> bool {
    48 <= b <= 57
}

/// Numeric value of an ASCII digit byte.
pub open spec fn digit_value(b: u8) -> int {
    b - 48
}

/// The magnitude the parser accumulates over `s`, starting from `acc`:
/// each ASCII digit shifts the accumulator one decimal place and is added,
/// every other byte is skipped.
pub open spec fn digits_fold(s: Seq<u8>, acc: int) -> int
    decreases s.len(),
{
    if s.len() == 0 {
        acc
    } else {
        digits_fold(
            s.drop_first(),
            if is_ascii_digit_byte(s[0]) {
                acc * 10 + digit_value(s[0])
            } else {
                acc
            },
        )
    }
}

/// The fixed-point reading of a temperature field, in tenths of a degree:
/// the folded digit magnitude, negated when the field starts with `-`.
pub open spec fn temp_value(s: Seq<u8>) -> int {
    if s.len() > 0 && s[0] == 45 {
        -digits_fold(s, 0)
    } else {
        digits_fold(s, 0)
    }
}

/// An unsigned temperature field: one or two integer digits, a decimal
/// point, and exactly one fractional digit.
pub open spec fn wf_temp_mag(s: Seq<u8>) -> bool {
    ||| (s.len() == 3 && is_ascii_digit_byte(s[0]) && s[1] == 46 && is_ascii_digit_byte(s[2]))
    ||| (s.len() == 4 && is_ascii_digit_byte(s[0]) && is_ascii_digit_byte(s[1]) && s[2] == 46
        && is_ascii_digit_byte(s[3]))
}

/// A well-formed temperature field: an unsigned field, optionally preceded
/// by a `-` sign.
pub open spec fn wf_temp(s: Seq<u8>) -> bool {
    ||| wf_temp_mag(s)
    ||| (s.len() > 0 && s[0] == 45 && wf_temp_mag(s.drop_first()))
}

/// On a well-formed unsigned field the digit fold is the plain decimal
/// reading of the digits, which is at most 999 tenths.
pub proof fn lemma_digits_fold_mag(s: Seq<u8>)
    requires
        wf_temp_mag(s),
    ensures
        s.len() == 3 ==> digits_fold(s, 0) == 10 * digit_value(s[0]) + digit_value(s[2]),
        s.len() == 4 ==> digits_fold(s, 0) == 100 * digit_value(s[0]) + 10 * digit_value(s[1])
            + digit_value(s[3]),
        0 <= digits_fold(s, 0) <= 999,
{
    reveal_with_fuel(digits_fold, 5);
    if s.len() == 3 {
        assert(digits_fold(s, 0) == digits_fold(s.drop_first(), digit_value(s[0])));
        assert(s.drop_first()[0] == s[1] && s.drop_first().drop_first()[0] == s[2]);
    } else {
        assert(s.drop_first()[0] == s[1]);
        assert(s.drop_first().drop_first()[0] == s[2]);
        assert(s.drop_first().drop_first().drop_first()[0] == s[3]);
    }
}

/// The fixed-point value of a well-formed field lies within one decimal
/// place of the stated range of readings.
pub proof fn lemma_temp_value_range(s: Seq<u8>)
    requires
        wf_temp(s),
    ensures
        -999 <= temp_value(s) <= 999,
        wf_temp_mag(s) ==> temp_value(s) == digits_fold(s, 0),
        !wf_temp_mag(s) ==> temp_value(s) == -digits_fold(s.drop_first(), 0),
{
    if wf_temp_mag(s) {
        lemma_digits_fold_mag(s);
    } else {
        lemma_digits_fold_mag(s.drop_first());
        assert(digits_fold(s, 0) == digits_fold(s.drop_first(), 0));
    }
}

/// Parses one temperature field into tenths of a degree.
pub fn parse_temp(line: &[u8]) -> (temp: i32)
    requires
        wf_temp(line@),
    ensures
        temp == temp_value(line@),
        -999 <= temp <= 999,
{
    proof {
        lemma_temp_value_range(line@);
        if !wf_temp_mag(line@) {
            lemma_digits_fold_mag(line@.drop_first());
        } else {
            lemma_digits_fold_mag(line@);
        }
    }
    let neg = line[0] == 45;
    let off: usize = if neg { 1 } else { 0 };
    let mag: i32 = if line.len() - off == 3 {
        10 * ((line[off] - 48) as i32) + ((line[off + 2] - 48) as i32)
    } else {
        100 * ((line[off] - 48) as i32) + 10 * ((line[off + 1] - 48) as i32) + ((line[off + 3]
            - 48) as i32)
    };
    proof {
        if neg {
            assert forall|k: int| 0 <= k < line@.len() - 1 implies line@.drop_first()[k] == line@[k
                + 1] by {}
        }
    }
    if neg {
        -mag
    } else {
        mag
    }
}

} // verus!
