//! The edge list as text: one edge per line, two vertex numbers with a tab
//! between them.

use vstd::prelude::*;

verus! {

/// What one line of an edge list holds.
#[derive(Clone, Copy, Debug, PartialEq, Eq, Structural)]
pub enum Line {
    /// Two vertex numbers with one tab between them.
    Edge(u32, u32),
    /// Not two columns: the line is passed over.
    Skipped,
    /// Two columns of which one is not a vertex number.
    Malformed,
}

/// Whether the byte is a decimal digit.
pub open spec fn is_digit(byte: u8) -> bool {
    48 <= byte <= 57
}

/// Whether every byte is a decimal digit.
pub open spec fn all_digits(text: Seq<u8>) -> bool {
    forall|i: int| 0 <= i < text.len() ==> is_digit(#[trigger] text[i])
}

/// The number that the digits write in base ten.
pub open spec fn decimal_value(digits: Seq<u8>) -> nat
    decreases digits.len(),
{
    if digits.len() == 0 {
        0
    } else {
        10 * decimal_value(digits.drop_last()) + (digits.last() - 48) as nat
    }
}

/// The text without a leading plus sign.
pub open spec fn unsigned_part(text: Seq<u8>) -> Seq<u8> {
    if text.len() > 0 && text[0] == 43 {
        text.skip(1)
    } else {
        text
    }
}

/// The vertex number that the text writes: an optional plus sign and at
/// least one digit, nothing else, of a value that fits in 32 bits.
pub open spec fn number_of(text: Seq<u8>) -> Option<u32> {
    let digits = unsigned_part(text);
    if digits.len() > 0 && all_digits(digits) && decimal_value(digits) <= u32::MAX {
        Some(decimal_value(digits) as u32)
    } else {
        None
    }
}

/// Whether the only tab of the text stands at position `at`.
pub open spec fn sole_tab(text: Seq<u8>, at: int) -> bool {
    &&& 0 <= at < text.len()
    &&& text[at] == 9
    &&& forall|j: int| 0 <= j < text.len() && j != at ==> #[trigger] text[j] != 9
}

/// The line whose two columns write the given numbers, if they do.
pub open spec fn line_of_columns(from: Option<u32>, to: Option<u32>) -> Line {
    match (from, to) {
        (Some(a), Some(b)) => Line::Edge(a, b),
        _ => Line::Malformed,
    }
}

/// A longer row of digits writes no smaller number.
proof fn lemma_value_grows(digits: Seq<u8>, k: int)
    requires
        all_digits(digits),
        0 <= k <= digits.len(),
    ensures
        decimal_value(digits.take(k)) <= decimal_value(digits),
    decreases digits.len() - k,
{
    if k == digits.len() {
        assert(digits.take(k) =~= digits);
    } else {
        lemma_value_grows(digits, k + 1);
        assert(digits.take(k + 1).drop_last() =~= digits.take(k));
        assert(is_digit(digits[k]));
        assert(digits.take(k + 1).last() == digits[k]);
    }
}

/// Reads the vertex number written between the positions `from` and `to`.
pub fn parse_number(text: &[u8], from: usize, to: usize) -> (number: Option<u32>)
    requires
        from <= to <= text@.len(),
    ensures
        number == number_of(text@.subrange(from as int, to as int)),
{
    let ghost field = text@.subrange(from as int, to as int);
    let mut i: usize = from;
    if i < to && text[i] == 43 {
        i += 1;
    }
    let ghost digits = unsigned_part(field);
    let first: usize = i;
    assert(digits =~= text@.subrange(first as int, to as int));
    if i == to {
        return None;
    }
    let mut value: u64 = 0;
    while i < to
        invariant
            from <= first <= i <= to <= text@.len(),
            field == text@.subrange(from as int, to as int),
            digits == unsigned_part(field),
            digits == text@.subrange(first as int, to as int),
            all_digits(digits.take(i - first)),
            value == decimal_value(digits.take(i - first)),
            value <= u32::MAX,
        decreases to - i,
    {
        let byte = text[i];
        if byte < 48 || byte > 57 {
            assert(!is_digit(digits[i - first]));
            return None;
        }
        proof {
            assert(digits.take(i - first + 1).drop_last() =~= digits.take(i - first));
            assert(digits.take(i - first + 1).last() == byte);
        }
        value = value * 10 + ((byte - 48) as u64);
        if value > 0xffff_ffff {
            proof {
                if all_digits(digits) {
                    lemma_value_grows(digits, i - first + 1);
                }
            }
            return None;
        }
        i += 1;
    }
    assert(digits.take(to - first) =~= digits);
    Some(value as u32)
}

/// Reads one line of an edge list. A line with exactly one tab holds two
/// columns: it is an edge if both write a vertex number, and malformed if
/// not. Any other line is passed over.
pub fn parse_edge_line(line: &[u8]) -> (parsed: Line)
    ensures
        (forall|at: int| !sole_tab(line@, at)) ==> parsed == Line::Skipped,
        forall|at: int| #[trigger]
            sole_tab(line@, at) ==> parsed == line_of_columns(
                number_of(line@.take(at)),
                number_of(line@.skip(at + 1)),
            ),
{
    let mut tabs: usize = 0;
    let mut position: usize = 0;
    let mut i: usize = 0;
    while i < line.len()
        invariant
            i <= line.len(),
            tabs <= i,
            tabs == 0 ==> forall|j: int| 0 <= j < i ==> #[trigger] line@[j] != 9,
            tabs >= 1 ==> position < i && line@[position as int] == 9,
            tabs == 1 ==> forall|j: int| 0 <= j < i && j != position ==> #[trigger] line@[j] != 9,
            tabs >= 2 ==> exists|j: int| 0 <= j < i && j != position && #[trigger] line@[j] == 9,
        decreases line.len() - i,
    {
        if line[i] == 9 {
            if tabs == 0 {
                position = i;
            }
            tabs += 1;
        }
        i += 1;
    }
    if tabs != 1 {
        proof {
            assert forall|at: int| !sole_tab(line@, at) by {
                if sole_tab(line@, at) {
                    if tabs >= 2 {
                        let j = choose|j: int|
                            0 <= j < line@.len() && j != position && #[trigger] line@[j] == 9;
                        assert(line@[position as int] == 9);
                    }
                }
            }
        }
        return Line::Skipped;
    }
    let from = parse_number(line, 0, position);
    let to = parse_number(line, position + 1, line.len());
    proof {
        assert(line@.subrange(0, position as int) =~= line@.take(position as int));
        assert(line@.subrange(position + 1, line@.len() as int) =~= line@.skip(position + 1));
        assert(sole_tab(line@, position as int));
        assert forall|at: int| #[trigger] sole_tab(line@, at) implies at == position by {
            if at != position {
                assert(line@[position as int] != 9);
            }
        }
    }
    match (from, to) {
        (Some(a), Some(b)) => Line::Edge(a, b),
        _ => Line::Malformed,
    }
}

} // verus!
