//! What goes to the result sink: one line per prime found, and a last line
//! with the grand total. The lines are rendered here; appending them, under
//! whatever lock guards the sink, is the caller's part.

use vstd::prelude::*;
use crate::coordinator::{all_primes, RunReport};
use crate::worker::WorkerResult;

verus! {

/// The character that writes the digit `d`.
pub open spec fn digit_char(d: nat) -> char
    recommends
        d < 10,
{
    if d == 0 {
        '0'
    } else if d == 1 {
        '1'
    } else if d == 2 {
        '2'
    } else if d == 3 {
        '3'
    } else if d == 4 {
        '4'
    } else if d == 5 {
        '5'
    } else if d == 6 {
        '6'
    } else if d == 7 {
        '7'
    } else if d == 8 {
        '8'
    } else {
        '9'
    }
}

/// `n` in decimal, without leading zeros.
pub open spec fn decimal(n: nat) -> Seq<char>
    decreases n,
{
    if n < 10 {
        seq![digit_char(n)]
    } else {
        decimal(n / 10).push(digit_char(n % 10))
    }
}

/// The primes as they stand in the sink: each in decimal and ended by a
/// newline, in the order given.
pub open spec fn block_text(primes: Seq<usize>) -> Seq<char>
    decreases primes.len(),
{
    if primes.len() == 0 {
        Seq::empty()
    } else {
        block_text(primes.drop_last()) + decimal(primes.last() as nat).push('\n')
    }
}

/// The text before the number in the last line of the sink.
pub open spec fn total_prefix() -> Seq<char> {
    "Total prime numbers found: "@
}

/// The one-character text of the digit `d`.
fn digit_str(d: usize) -> (text: &'static str)
    requires
        d < 10,
    ensures
        text@ == seq![digit_char(d as nat)],
{
    proof {
        reveal_strlit("0");
        reveal_strlit("1");
        reveal_strlit("2");
        reveal_strlit("3");
        reveal_strlit("4");
        reveal_strlit("5");
        reveal_strlit("6");
        reveal_strlit("7");
        reveal_strlit("8");
        reveal_strlit("9");
    }
    let text: &'static str = if d == 0 {
        "0"
    } else if d == 1 {
        "1"
    } else if d == 2 {
        "2"
    } else if d == 3 {
        "3"
    } else if d == 4 {
        "4"
    } else if d == 5 {
        "5"
    } else if d == 6 {
        "6"
    } else if d == 7 {
        "7"
    } else if d == 8 {
        "8"
    } else {
        "9"
    };
    assert(text@ =~= seq![digit_char(d as nat)]);
    text
}

/// Renders `n` in decimal.
pub fn decimal_string(n: usize) -> (text: String)
    ensures
        text@ == decimal(n as nat),
    decreases n,
{
    if n < 10 {
        String::from_str(digit_str(n))
    } else {
        let head: String = decimal_string(n / 10);
        let text: String = head.concat(digit_str(n % 10));
        assert(text@ =~= decimal((n / 10) as nat).push(digit_char((n % 10) as nat)));
        text
    }
}

/// The sink's last line: the grand total after its fixed prefix.
pub fn total_line(total: usize) -> (line: String)
    ensures
        line@ == total_prefix() + decimal(total as nat),
{
    let number: String = decimal_string(total);
    String::from_str("Total prime numbers found: ").concat(number.as_str())
}

impl WorkerResult {
    /// The lines that this worker appends to the sink: its primes in decimal,
    /// one per line, in the order found.
    pub fn prime_lines(&self) -> (lines: Vec<String>)
        ensures
            lines@.len() == self.primes_found@.len(),
            forall|i: int|
                0 <= i < lines@.len() ==> (#[trigger] lines@[i])@ == decimal(
                    self.primes_found@[i] as nat,
                ),
    {
        let mut lines: Vec<String> = Vec::new();
        let mut i: usize = 0;
        while i < self.primes_found.len()
            invariant
                i <= self.primes_found@.len(),
                lines@.len() == i,
                forall|j: int|
                    0 <= j < i ==> (#[trigger] lines@[j])@ == decimal(self.primes_found@[j] as nat),
            decreases self.primes_found@.len() - i,
        {
            lines.push(decimal_string(self.primes_found[i]));
            i += 1;
        }
        lines
    }
}

impl WorkerResult {
    /// Everything that this worker appends to the sink, as one text to be
    /// written in one piece: its primes, one per line, in the order found.
    pub fn prime_block(&self) -> (text: String)
        ensures
            text@ == block_text(self.primes_found@),
    {
        let mut text: String = String::new();
        let mut i: usize = 0;
        assert(self.primes_found@.take(0) =~= Seq::<usize>::empty());
        while i < self.primes_found.len()
            invariant
                i <= self.primes_found@.len(),
                text@ == block_text(self.primes_found@.take(i as int)),
            decreases self.primes_found@.len() - i,
        {
            let number: String = decimal_string(self.primes_found[i]);
            proof {
                reveal_strlit("\n");
                assert(self.primes_found@.take(i + 1).drop_last() =~= self.primes_found@.take(
                    i as int,
                ));
                assert(number@ + "\n"@ =~= number@.push('\n'));
            }
            text.append(number.as_str());
            text.append("\n");
            assert(text@ =~= block_text(self.primes_found@.take(i + 1)));
            i += 1;
        }
        assert(self.primes_found@.take(i as int) =~= self.primes_found@);
        text
    }
}

impl RunReport {
    /// The sink after a run in which the workers wrote in worker order: every
    /// worker's lines, then the line with the total.
    pub fn sink_lines(&self) -> (lines: Vec<String>)
        ensures
            lines@.len() == all_primes(self.results@).len() + 1,
            forall|i: int|
                0 <= i < lines@.len() - 1 ==> (#[trigger] lines@[i])@ == decimal(
                    all_primes(self.results@)[i] as nat,
                ),
            lines@[lines@.len() - 1]@ == total_prefix() + decimal(self.total as nat),
    {
        let mut lines: Vec<String> = Vec::new();
        let mut r: usize = 0;
        assert(self.results@.take(0) =~= Seq::<WorkerResult>::empty());
        while r < self.results.len()
            invariant
                r <= self.results@.len(),
                lines@.len() == all_primes(self.results@.take(r as int)).len(),
                forall|i: int|
                    0 <= i < lines@.len() ==> (#[trigger] lines@[i])@ == decimal(
                        all_primes(self.results@.take(r as int))[i] as nat,
                    ),
            decreases self.results@.len() - r,
        {
            let mut block: Vec<String> = self.results[r].prime_lines();
            proof {
                assert(self.results@.take(r + 1).drop_last() =~= self.results@.take(r as int));
                assert(self.results@.take(r + 1).last() == self.results@[r as int]);
            }
            lines.append(&mut block);
            r += 1;
        }
        assert(self.results@.take(r as int) =~= self.results@);
        lines.push(total_line(self.total));
        lines
    }
}

} // verus!
