//! Edges written as text: two numbers separated by a tab.

use vstd::prelude::*;
use crate::adjacencylist_convert::RoadRecord;

verus! {

/// The byte that separates the fields of a line.
pub const TAB: u8 = 0x09;

/// The byte `+`, which may stand before a number.
pub const PLUS: u8 = 0x2b;

/// The byte of the digit 0.
pub const ZERO: u8 = 0x30;

/// `byte` is a decimal digit.
pub open spec fn is_digit(byte: u8) -> bool {
    ZERO <= byte <= ZERO + 9
}

/// The number that the decimal digits `digits` denote.
pub open spec fn digits_value(digits: Seq<u8>) -> nat
    decreases digits.len(),
{
    if digits.len() == 0 {
        0
    } else {
        digits_value(digits.drop_last()) * 10 + (digits.last() - ZERO) as nat
    }
}

/// The digits of `field`: all of it but a `+` at its start.
pub open spec fn field_digits(field: Seq<u8>) -> Seq<u8> {
    if field.len() > 0 && field[0] == PLUS {
        field.skip(1)
    } else {
        field
    }
}

/// The number that `field` denotes: one decimal digit or more, after a `+`
/// or without one. Anything else denotes no number.
pub open spec fn field_number(field: Seq<u8>) -> Option<nat> {
    let digits = field_digits(field);
    if digits.len() > 0 && (forall|i: int| 0 <= i < digits.len() ==> is_digit(#[trigger] digits[i])) {
        Some(digits_value(digits))
    } else {
        None
    }
}

/// The place of the first tab of `text` at or after `from`, or the length of
/// `text` where there is none.
pub open spec fn next_tab(text: Seq<u8>, from: int) -> int
    decreases text.len() - from,
{
    if from >= text.len() {
        text.len() as int
    } else if text[from] == TAB {
        from
    } else {
        next_tab(text, from + 1)
    }
}

/// The end of the second field of `text`: the place of the tab after the
/// first tab, or the length of `text`.
pub open spec fn second_field_end(text: Seq<u8>) -> int {
    next_tab(text, next_tab(text, 0) + 1)
}

/// The edge that the line `text` denotes.
///
/// Tabs separate the fields of a line. The first field is the source and the
/// second the target; further fields are not looked at. A line with one
/// field, or with a field that denotes no number or a number larger than any
/// `usize`, denotes no edge.
pub open spec fn record_of(text: Seq<u8>) -> Option<RoadRecord> {
    let first = next_tab(text, 0);
    if first >= text.len() {
        None
    } else {
        match (
            field_number(text.subrange(0, first)),
            field_number(text.subrange(first + 1, second_field_end(text))),
        ) {
            (Some(source), Some(target)) => if source <= usize::MAX && target <= usize::MAX {
                Some(RoadRecord { source: source as usize, target: target as usize })
            } else {
                None
            },
            _ => None,
        }
    }
}

/// Further digits make a number no smaller.
proof fn lemma_digits_grow(digits: Seq<u8>, n: int)
    requires
        0 <= n <= digits.len(),
        forall|i: int| 0 <= i < digits.len() ==> is_digit(#[trigger] digits[i]),
    ensures
        digits_value(digits.take(n)) <= digits_value(digits),
    decreases digits.len() - n,
{
    if n < digits.len() {
        lemma_digits_grow(digits, n + 1);
        assert(digits.take(n + 1).drop_last() =~= digits.take(n));
    } else {
        assert(digits.take(n) =~= digits);
    }
}

/// The place of the first tab of `text` at or after `from`, or the length of
/// `text`.
fn find_tab(text: &[u8], from: usize) -> (at: usize)
    requires
        from <= text@.len(),
    ensures
        at == next_tab(text@, from as int),
        from <= at <= text@.len(),
{
    let mut at = from;
    while at < text.len() && text[at] != TAB
        invariant
            from <= at <= text@.len(),
            next_tab(text@, from as int) == next_tab(text@, at as int),
        decreases text@.len() - at,
    {
        at += 1;
    }
    at
}

/// The number that the bytes of `text` from `from` up to `to` denote, where
/// they denote one that fits in a `usize`.
fn parse_number(text: &[u8], from: usize, to: usize) -> (number: Option<usize>)
    requires
        from <= to <= text@.len(),
    ensures
        match number {
            Some(value) => field_number(text@.subrange(from as int, to as int)) == Some(
                value as nat,
            ),
            None => match field_number(text@.subrange(from as int, to as int)) {
                Some(value) => value > usize::MAX,
                None => true,
            },
        },
{
    let ghost field = text@.subrange(from as int, to as int);
    let ghost digits = field_digits(field);
    let start = if from < to && text[from] == PLUS {
        from + 1
    } else {
        from
    };
    proof {
        assert(digits =~= text@.subrange(start as int, to as int));
    }
    if start == to {
        return None;
    }
    let mut value: usize = 0;
    let mut i: usize = start;
    while i < to
        invariant
            from <= start <= i <= to <= text@.len(),
            digits == field_digits(text@.subrange(from as int, to as int)),
            digits == text@.subrange(start as int, to as int),
            forall|k: int| 0 <= k < i - start ==> is_digit(#[trigger] digits[k]),
            value == digits_value(digits.take(i - start)),
        decreases to - i,
    {
        let byte = text[i];
        if byte < ZERO || byte > ZERO + 9 {
            proof {
                assert(!is_digit(digits[i - start]));
            }
            return None;
        }
        let ghost before = digits.take(i - start);
        let ghost after = digits.take(i - start + 1);
        proof {
            assert(after.drop_last() =~= before);
            assert(after.last() == byte);
        }
        let next = match value.checked_mul(10) {
            Some(tens) => tens.checked_add((byte - ZERO) as usize),
            None => None,
        };
        match next {
            Some(sum) => {
                value = sum;
            },
            None => {
                proof {
                    assert(digits_value(after) > usize::MAX);
                    if forall|k: int| 0 <= k < digits.len() ==> is_digit(#[trigger] digits[k]) {
                        lemma_digits_grow(digits, i - start + 1);
                    }
                }
                return None;
            },
        }
        i += 1;
    }
    proof {
        assert(digits.take(i - start) =~= digits);
    }
    Some(value)
}

/// The edge that the line `text` denotes, if it denotes one.
///
/// `text` is a line without the white space around it.
pub fn parse_record(text: &[u8]) -> (record: Option<RoadRecord>)
    ensures
        record == record_of(text@),
{
    let first = find_tab(text, 0);
    if first >= text.len() {
        return None;
    }
    let second = find_tab(text, first + 1);
    let source = parse_number(text, 0, first);
    let target = parse_number(text, first + 1, second);
    match (source, target) {
        (Some(source), Some(target)) => Some(RoadRecord { source, target }),
        _ => None,
    }
}

} // verus!
