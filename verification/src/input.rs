//! The input format: one line per pair, two unsigned decimal integers
//! separated by a comma. Every line adds its two integers to the dataset, in
//! the order read.

use vstd::prelude::*;
use crate::error::RunError;

verus! {

/// The byte that ends a line.
pub const NEWLINE: u8 = 10;

/// The byte that may stand before the newline.
pub const CARRIAGE_RETURN: u8 = 13;

/// The byte between the two fields of a line.
pub const COMMA: u8 = 44;

/// The sign that a field may begin with.
pub const PLUS: u8 = 43;

/// The digit `0`.
pub const ZERO: u8 = 48;

/// The digit `9`.
pub const NINE: u8 = 57;

/// How many bytes of `s` stand before the first `stop`; the length of `s` if
/// it holds none.
pub open spec fn prefix_len(s: Seq<u8>, stop: u8) -> nat
    decreases s.len(),
{
    if s.len() == 0 || s[0] == stop {
        0
    } else {
        1 + prefix_len(s.skip(1), stop)
    }
}

/// Every byte of `s` is a decimal digit.
pub open spec fn all_digits(s: Seq<u8>) -> bool {
    forall|i: int| 0 <= i < s.len() ==> ZERO <= #[trigger] s[i] <= NINE
}

/// The number that the decimal digits `s` write, most significant first.
pub open spec fn digits_value(s: Seq<u8>) -> nat
    decreases s.len(),
{
    if s.len() == 0 {
        0
    } else {
        digits_value(s.drop_last()) * 10 + (s.last() - ZERO) as nat
    }
}

/// A field without its optional leading plus sign.
pub open spec fn unsigned_part(s: Seq<u8>) -> Seq<u8> {
    if s.len() > 0 && s[0] == PLUS {
        s.skip(1)
    } else {
        s
    }
}

/// The integer that a field writes: an optional plus sign, then one or more
/// decimal digits whose value fits the machine word. `None` for any other
/// text.
pub open spec fn field_value(s: Seq<u8>) -> Option<usize> {
    let digits = unsigned_part(s);
    if digits.len() > 0 && all_digits(digits) && digits_value(digits) <= usize::MAX {
        Some(digits_value(digits) as usize)
    } else {
        None
    }
}

/// The two integers of a line: the field before its first comma and the
/// field after it. `None` if the line has no comma, or more than one, or if
/// either field is no integer.
pub open spec fn line_value(line: Seq<u8>) -> Option<(usize, usize)> {
    let c = prefix_len(line, COMMA);
    if c < line.len() {
        match (field_value(line.take(c as int)), field_value(line.skip(c as int + 1))) {
            (Some(first), Some(second)) => Some((first, second)),
            _ => None,
        }
    } else {
        None
    }
}

/// A line without the carriage return that may end it.
pub open spec fn trim_cr(line: Seq<u8>) -> Seq<u8> {
    if line.len() > 0 && line.last() == CARRIAGE_RETURN {
        line.drop_last()
    } else {
        line
    }
}

/// `tail` with `head` in front of it, where there is a tail.
pub open spec fn prepend(head: Seq<usize>, tail: Option<Seq<usize>>) -> Option<Seq<usize>> {
    match tail {
        Some(t) => Some(head + t),
        None => None,
    }
}

/// The dataset that `text` writes. Lines end at a newline, or at a carriage
/// return and a newline; the last line needs no newline. `None` if any line
/// is malformed; an empty line is.
pub open spec fn parse_spec(text: Seq<u8>) -> Option<Seq<usize>>
    decreases text.len(),
{
    if text.len() == 0 {
        Some(Seq::empty())
    } else {
        let k = prefix_len(text, NEWLINE);
        let line = if k < text.len() {
            trim_cr(text.take(k as int))
        } else {
            text
        };
        let rest = if k < text.len() {
            text.skip(k as int + 1)
        } else {
            Seq::empty()
        };
        match line_value(line) {
            Some((first, second)) => prepend(seq![first, second], parse_spec(rest)),
            None => None,
        }
    }
}

/// The first `stop` is where one stands with none before it.
proof fn lemma_prefix_len(s: Seq<u8>, stop: u8, k: int)
    requires
        0 <= k <= s.len(),
        forall|j: int| 0 <= j < k ==> s[j] != stop,
        k < s.len() ==> s[k] == stop,
    ensures
        prefix_len(s, stop) == k,
    decreases k,
{
    if k > 0 {
        let t = s.skip(1);
        assert forall|j: int| 0 <= j < k - 1 implies t[j] != stop by {
            assert(t[j] == s[j + 1]);
        }
        lemma_prefix_len(t, stop, k - 1);
    }
}

/// Further digits never lower the value written so far.
proof fn lemma_digits_value_grows(s: Seq<u8>, m: int)
    requires
        0 <= m <= s.len(),
    ensures
        digits_value(s.take(m)) <= digits_value(s),
    decreases s.len() - m,
{
    if m == s.len() {
        assert(s.take(m) =~= s);
    } else {
        lemma_digits_value_grows(s, m + 1);
        assert(s.take(m + 1).drop_last() =~= s.take(m));
    }
}

/// Putting `a` in front of what has `b` in front is putting `a + b` in front.
proof fn lemma_prepend_twice(a: Seq<usize>, b: Seq<usize>, tail: Option<Seq<usize>>)
    ensures
        prepend(a, prepend(b, tail)) == prepend(a + b, tail),
        prepend(Seq::empty(), tail) == tail,
        prepend(a, Some(Seq::empty())) == Some(a),
{
    if tail is Some {
        assert(a + (b + tail->Some_0) =~= (a + b) + tail->Some_0);
        assert(Seq::<usize>::empty() + tail->Some_0 =~= tail->Some_0);
    }
    assert(a + Seq::<usize>::empty() =~= a);
}

/// One step of reading: the text from `pos` on is its first line, which ends
/// at `end`, and then the text from `next` on.
proof fn lemma_parse_step(text: Seq<u8>, pos: int, k: int, end: int, next: int)
    requires
        0 <= pos < text.len(),
        pos <= k <= text.len(),
        k - pos == prefix_len(text.subrange(pos, text.len() as int), NEWLINE),
        end == if k < text.len() && k > pos && text[k - 1] == CARRIAGE_RETURN {
            k - 1
        } else {
            k
        },
        next == if k < text.len() {
            k + 1
        } else {
            text.len() as int
        },
    ensures
        parse_spec(text.skip(pos)) == match line_value(text.subrange(pos, end)) {
            Some((first, second)) => prepend(seq![first, second], parse_spec(text.skip(next))),
            None => None,
        },
{
    let cur = text.skip(pos);
    assert(cur =~= text.subrange(pos, text.len() as int));
    let line = if k < text.len() {
        trim_cr(cur.take(k - pos))
    } else {
        cur
    };
    let rest = if k < text.len() {
        cur.skip(k - pos + 1)
    } else {
        Seq::empty()
    };
    assert(line =~= text.subrange(pos, end)) by {
        assert(cur.take(k - pos) =~= text.subrange(pos, k));
    }
    assert(rest =~= text.skip(next));
}

/// The first index in `[from, to)` at which `text` holds `stop`, or `to`.
fn find_byte(text: &[u8], from: usize, to: usize, stop: u8) -> (k: usize)
    requires
        from <= to <= text@.len(),
    ensures
        from <= k <= to,
        k - from == prefix_len(text@.subrange(from as int, to as int), stop),
{
    let mut k: usize = from;
    while k < to && text[k] != stop
        invariant
            from <= k <= to <= text@.len(),
            forall|j: int| from <= j < k ==> text@[j] != stop,
        decreases to - k,
    {
        k += 1;
    }
    proof {
        lemma_prefix_len(text@.subrange(from as int, to as int), stop, k - from);
    }
    k
}

/// Reads the bytes `[from, to)` of `text` as one field.
fn parse_field(text: &[u8], from: usize, to: usize) -> (value: Option<usize>)
    requires
        from <= to <= text@.len(),
    ensures
        value == field_value(text@.subrange(from as int, to as int)),
{
    let ghost field = text@.subrange(from as int, to as int);
    let mut start: usize = from;
    if start < to && text[start] == PLUS {
        start += 1;
    }
    let ghost digits = text@.subrange(start as int, to as int);
    assert(unsigned_part(field) =~= digits);
    if start == to {
        return None;
    }
    let mut value: usize = 0;
    let mut j: usize = start;
    assert(text@.subrange(start as int, j as int) =~= Seq::<u8>::empty());
    while j < to
        invariant
            from <= start <= j <= to <= text@.len(),
            digits == text@.subrange(start as int, to as int),
            digits == unsigned_part(text@.subrange(from as int, to as int)),
            all_digits(text@.subrange(start as int, j as int)),
            value == digits_value(text@.subrange(start as int, j as int)),
        decreases to - j,
    {
        let b: u8 = text[j];
        if b < ZERO || b > NINE {
            assert(digits[j - start] == b);
            return None;
        }
        let digit: usize = (b - ZERO) as usize;
        let ghost seen = text@.subrange(start as int, j + 1);
        proof {
            assert(seen.drop_last() =~= text@.subrange(start as int, j as int));
            assert(seen.last() == b);
            assert(digits.take(j + 1 - start) =~= seen);
            lemma_digits_value_grows(digits, j + 1 - start);
        }
        let shifted: usize = match value.checked_mul(10) {
            Some(shifted) => shifted,
            None => {
                return None;
            },
        };
        value = match shifted.checked_add(digit) {
            Some(next) => next,
            None => {
                return None;
            },
        };
        j += 1;
    }
    Some(value)
}

/// Reads the bytes `[from, to)` of `text` as one line.
fn parse_line(text: &[u8], from: usize, to: usize) -> (pair: Option<(usize, usize)>)
    requires
        from <= to <= text@.len(),
    ensures
        pair == line_value(text@.subrange(from as int, to as int)),
{
    let ghost line = text@.subrange(from as int, to as int);
    let c: usize = find_byte(text, from, to, COMMA);
    if c == to {
        return None;
    }
    proof {
        assert(line.take(c - from) =~= text@.subrange(from as int, c as int));
        assert(line.skip(c - from + 1) =~= text@.subrange(c + 1, to as int));
    }
    let first: Option<usize> = parse_field(text, from, c);
    let second: Option<usize> = parse_field(text, c + 1, to);
    match (first, second) {
        (Some(a), Some(b)) => Some((a, b)),
        _ => None,
    }
}

/// Reads a whole input into the dataset. Succeeds exactly on the texts that
/// the format admits; any malformed line is a load error, and nothing of the
/// input is then returned.
pub fn parse_dataset(text: &[u8]) -> (outcome: Result<Vec<usize>, RunError>)
    ensures
        parse_spec(text@) is Some ==> outcome is Ok && outcome->Ok_0@ == parse_spec(text@)->Some_0,
        parse_spec(text@) is None ==> outcome is Err && outcome->Err_0 == RunError::Load,
{
    let n: usize = text.len();
    let mut dataset: Vec<usize> = Vec::new();
    let mut pos: usize = 0;
    proof {
        assert(text@.skip(0) =~= text@);
        lemma_prepend_twice(Seq::empty(), Seq::empty(), parse_spec(text@));
    }
    while pos < n
        invariant
            pos <= n == text@.len(),
            parse_spec(text@) == prepend(dataset@, parse_spec(text@.skip(pos as int))),
        decreases n - pos,
    {
        let ghost before = dataset@;
        assert(text@.skip(pos as int) =~= text@.subrange(pos as int, n as int));
        let k: usize = find_byte(text, pos, n, NEWLINE);
        let mut end: usize = k;
        if k < n && end > pos && text[end - 1] == CARRIAGE_RETURN {
            end -= 1;
        }
        let next: usize = if k < n {
            k + 1
        } else {
            n
        };
        proof {
            lemma_parse_step(text@, pos as int, k as int, end as int, next as int);
        }
        match parse_line(text, pos, end) {
            Some((first, second)) => {
                dataset.push(first);
                dataset.push(second);
                proof {
                    assert(dataset@ =~= before + seq![first, second]);
                    lemma_prepend_twice(
                        before,
                        seq![first, second],
                        parse_spec(text@.skip(next as int)),
                    );
                }
            },
            None => {
                return Err(RunError::Load);
            },
        }
        pos = next;
    }
    proof {
        assert(text@.skip(pos as int).len() == 0);
        lemma_prepend_twice(dataset@, Seq::empty(), Some(Seq::empty()));
    }
    Ok(dataset)
}

} // verus!
