//! The textual protocol: a node count on the first line, then one line for
//! each row of the distance matrix; the answer is one decimal line.

use vstd::prelude::*;
use vstd::string::StringExecFns;
use crate::cost::UNREACHABLE;
use crate::recurrence::optimal_cost;
use crate::tour::{is_answer, is_square};
use crate::solver::{matrix_view, table_fits, DpSolver, Engine};
use crate::text::{
    after_lines,
    decimal,
    is_whitespace,
    line_end,
    line_end_from,
    nth_line,
    parse_at_most,
    parse_unsigned,
    push_decimal,
    to_chars,
    tokens,
    word_end_from,
    word_len,
};

verus! {

/// Why an input is no instance.
#[derive(Clone, Copy, Debug, PartialEq, Eq)]
pub enum MalformedInput {
    /// The first line does not hold a node count and nothing else.
    NodeCount,
    /// A row of the matrix does not hold one value for each node.
    RowLength {
        /// The number of the row, counted from 1.
        line: usize,
        /// The number of values that the row should hold.
        expected: usize,
        /// The number of values that the row holds.
        found: usize,
    },
}

/// The node count that a first line holds: the line is one number token
/// between optional whitespace, and the number fits a `usize`.
pub open spec fn node_count(header: Seq<char>) -> Option<usize> {
    let words = tokens(header);
    if words.len() == 1 {
        match parse_at_most(words[0], usize::MAX as nat) {
            Some(n) => Some(n as usize),
            None => None,
        }
    } else {
        None
    }
}

/// The distance that a token stands for: its number where it denotes one
/// that fits 32 bits, [`UNREACHABLE`] for any other token.
pub open spec fn cell_of(token: Seq<char>) -> u32 {
    match parse_at_most(token, u32::MAX as nat) {
        Some(v) => v as u32,
        None => UNREACHABLE,
    }
}

/// The distances on one line, token by token.
pub open spec fn row_of(row: Seq<char>) -> Seq<u32> {
    tokens(row).map_values(|token: Seq<char>| cell_of(token))
}

/// The line of `text` that holds the matrix row `k`, counted from 0.
pub open spec fn row_line(text: Seq<char>, k: nat) -> Seq<char> {
    nth_line(text, k + 1)
}

/// The first of the rows `0, .., upto - 1` that does not hold `n` tokens.
pub open spec fn first_bad_row(text: Seq<char>, n: nat, upto: nat) -> Option<nat>
    decreases upto,
{
    if upto == 0 {
        None
    } else {
        match first_bad_row(text, n, (upto - 1) as nat) {
            Some(k) => Some(k),
            None => if tokens(row_line(text, (upto - 1) as nat)).len() != n {
                Some((upto - 1) as nat)
            } else {
                None
            },
        }
    }
}

/// The matrix that the first `n` rows of `text` hold.
pub open spec fn matrix_of(text: Seq<char>, n: nat) -> Seq<Seq<u32>> {
    Seq::new(n, |k: int| row_of(row_line(text, k as nat)))
}

/// The instance that `text` holds, or why it holds none. Only the first
/// line and the `n` lines after it are looked at, `n` being the node count.
pub open spec fn parse_instance(text: Seq<char>) -> Result<Seq<Seq<u32>>, MalformedInput> {
    match node_count(nth_line(text, 0)) {
        None => Err(MalformedInput::NodeCount),
        Some(n) => match first_bad_row(text, n as nat, n as nat) {
            Some(k) => Err(
                MalformedInput::RowLength {
                    line: (k + 1) as usize,
                    expected: n,
                    found: tokens(row_line(text, k)).len() as usize,
                },
            ),
            None => Ok(matrix_of(text, n as nat)),
        },
    }
}

/// The line that answers with `cost`.
pub open spec fn answer_line(cost: int) -> Seq<char> {
    decimal(cost as nat).push('\n')
}

/// What the protocol answers to `text`.
pub open spec fn expected_answer(text: Seq<char>) -> Result<Seq<char>, MalformedInput> {
    match parse_instance(text) {
        Ok(dist) => Ok(answer_line(optimal_cost(dist))),
        Err(why) => Err(why),
    }
}

/// The table for the instance that `text` holds can be addressed on this
/// machine. Every text that holds no instance is solvable: the answer is
/// the error.
pub open spec fn solvable(text: Seq<char>) -> bool {
    parse_instance(text) matches Ok(dist) ==> table_fits(dist.len() as int)
}

/// A bad row stays the first bad row when more rows are looked at.
proof fn lemma_first_bad_row_stays(text: Seq<char>, n: nat, k: nat, upto: nat)
    requires
        first_bad_row(text, n, k + 1) == Some(k),
        k < upto,
    ensures
        first_bad_row(text, n, upto) == Some(k),
    decreases upto,
{
    if upto > k + 1 {
        lemma_first_bad_row_stays(text, n, k, (upto - 1) as nat);
    }
}

/// Where the tokens of `chars[from..to]` start and end.
fn token_spans(chars: &Vec<char>, from: usize, to: usize) -> (spans: Vec<(usize, usize)>)
    requires
        from <= to <= chars.len(),
    ensures
        spans@.len() == tokens(chars@.subrange(from as int, to as int)).len(),
        forall|i: int|
            0 <= i < spans@.len() ==> {
                &&& from <= (#[trigger] spans@[i]).0 <= spans@[i].1 <= to
                &&& chars@.subrange(spans@[i].0 as int, spans@[i].1 as int) == tokens(
                    chars@.subrange(from as int, to as int),
                )[i]
            },
{
    let ghost whole = chars@.subrange(from as int, to as int);
    let mut spans: Vec<(usize, usize)> = Vec::new();
    let ghost mut done: Seq<Seq<char>> = Seq::empty();
    let mut at = from;
    while at < to
        invariant
            from <= at <= to <= chars.len(),
            whole == chars@.subrange(from as int, to as int),
            tokens(whole) == done + tokens(chars@.subrange(at as int, to as int)),
            spans@.len() == done.len(),
            forall|i: int|
                0 <= i < spans@.len() ==> {
                    &&& from <= (#[trigger] spans@[i]).0 <= spans@[i].1 <= to
                    &&& chars@.subrange(spans@[i].0 as int, spans@[i].1 as int) == done[i]
                },
        decreases to - at,
    {
        let ghost rest = chars@.subrange(at as int, to as int);
        if is_whitespace(chars[at]) {
            assert(rest.skip(1) =~= chars@.subrange(at + 1, to as int));
            at += 1;
        } else {
            let end = word_end_from(chars, at, to);
            proof {
                assert(rest.skip(word_len(rest)) =~= chars@.subrange(end as int, to as int));
                done = done.push(rest.take(word_len(rest)));
            }
            spans.push((at, end));
            at = end;
        }
    }
    spans
}

/// Reads the node count from the line `chars[from..to]`.
fn parse_count(chars: &Vec<char>, from: usize, to: usize) -> (count: Option<usize>)
    requires
        from <= to <= chars.len(),
    ensures
        count == node_count(chars@.subrange(from as int, to as int)),
{
    let spans = token_spans(chars, from, to);
    if spans.len() != 1 {
        return None;
    }
    let (start, end) = spans[0];
    match parse_unsigned(chars, start, end, usize::MAX as u64) {
        Some(n) => Some(n as usize),
        None => None,
    }
}

/// Reads the distances on the line `chars[from..to]`.
fn parse_row(chars: &Vec<char>, from: usize, to: usize) -> (row: Vec<u32>)
    requires
        from <= to <= chars.len(),
    ensures
        row@ == row_of(chars@.subrange(from as int, to as int)),
{
    let ghost words = tokens(chars@.subrange(from as int, to as int));
    let spans = token_spans(chars, from, to);
    let mut row: Vec<u32> = Vec::new();
    for i in 0..spans.len()
        invariant
            to <= chars.len(),
            words == tokens(chars@.subrange(from as int, to as int)),
            spans@.len() == words.len(),
            forall|i: int|
                0 <= i < spans@.len() ==> {
                    &&& from <= (#[trigger] spans@[i]).0 <= spans@[i].1 <= to
                    &&& chars@.subrange(spans@[i].0 as int, spans@[i].1 as int) == words[i]
                },
            row@.len() == i,
            forall|k: int| 0 <= k < i ==> #[trigger] row@[k] == cell_of(words[k]),
    {
        let (start, end) = spans[i];
        let cell = match parse_unsigned(chars, start, end, u32::MAX as u64) {
            Some(v) => v as u32,
            None => u32::MAX,
        };
        row.push(cell);
    }
    row
}

/// Reads the instance that `input` holds: the node count `n` from the
/// first line, then `n` rows of `n` distances each. A distance that is no
/// number, or none that fits 32 bits, is read as [`UNREACHABLE`].
pub fn parse_matrix(input: &str) -> (result: Result<Vec<Vec<u32>>, MalformedInput>)
    ensures
        match result {
            Ok(dist) => parse_instance(input@) == Ok::<Seq<Seq<u32>>, MalformedInput>(
                matrix_view(dist),
            ),
            Err(why) => parse_instance(input@) == Err::<Seq<Seq<u32>>, MalformedInput>(why),
        },
{
    let ghost text = input@;
    let chars = to_chars(input);
    let header_end = line_end_from(&chars, 0);
    proof {
        assert(chars@.skip(0) =~= text);
    }
    let n = match parse_count(&chars, 0, header_end) {
        Some(n) => n,
        None => {
            return Err(MalformedInput::NodeCount);
        },
    };
    let mut dist: Vec<Vec<u32>> = Vec::new();
    let mut at = header_end;
    for line_idx in 0..n
        invariant
            text == input@,
            chars@ == text,
            node_count(nth_line(text, 0)) == Some(n),
            at <= chars.len(),
            chars@.skip(at as int) == after_lines(text, (line_idx + 1) as nat),
            first_bad_row(text, n as nat, line_idx as nat) is None,
            dist@.len() == line_idx,
            forall|k: int|
                0 <= k < line_idx ==> (#[trigger] dist@[k])@ == row_of(row_line(text, k as nat)),
    {
        let end = line_end_from(&chars, at);
        proof {
            let rest = chars@.skip(at as int);
            assert(rest.take(line_end(rest)) =~= chars@.subrange(at as int, end as int));
        }
        let row = parse_row(&chars, at, end);
        if row.len() != n {
            proof {
                lemma_first_bad_row_stays(text, n as nat, line_idx as nat, n as nat);
            }
            return Err(
                MalformedInput::RowLength { line: line_idx + 1, expected: n, found: row.len() },
            );
        }
        dist.push(row);
        at = end;
    }
    proof {
        assert(matrix_view(dist) =~= matrix_of(text, n as nat));
    }
    Ok(dist)
}

impl MalformedInput {
    /// The error in words.
    pub open spec fn message_text(self) -> Seq<char> {
        match self {
            MalformedInput::NodeCount => "Invalid N"@,
            MalformedInput::RowLength { line, expected, found } => "Line "@ + decimal(line as nat)
                + ": expected "@ + decimal(expected as nat) + " values, got "@ + decimal(
                found as nat,
            ),
        }
    }

    /// The error in words: which row is at fault, how many values it
    /// should hold and how many it holds.
    pub fn message(&self) -> (text: String)
        ensures
            text@ == self.message_text(),
    {
        match self {
            MalformedInput::NodeCount => String::from_str("Invalid N"),
            MalformedInput::RowLength { line, expected, found } => {
                let mut text = String::from_str("Line ");
                push_decimal(&mut text, *line as u64);
                text.append(": expected ");
                push_decimal(&mut text, *expected as u64);
                text.append(" values, got ");
                push_decimal(&mut text, *found as u64);
                text
            },
        }
    }
}

/// The instance that `input` holds is square: it has as many rows as the
/// first line says, and as many distances in each row.
pub proof fn lemma_instance_is_square(text: Seq<char>)
    ensures
        parse_instance(text) matches Ok(dist) ==> is_square(dist) && node_count(nth_line(text, 0))
            == Some(dist.len() as usize),
{
    if let Some(n) = node_count(nth_line(text, 0)) {
        if first_bad_row(text, n as nat, n as nat) is None {
            let dist = matrix_of(text, n as nat);
            assert forall|k: int| 0 <= k < n implies (#[trigger] dist[k]).len() == n by {
                lemma_no_bad_row(text, n as nat, n as nat, k as nat);
            }
        }
    }
}

/// Where no row is bad, every row holds `n` tokens.
proof fn lemma_no_bad_row(text: Seq<char>, n: nat, upto: nat, k: nat)
    requires
        first_bad_row(text, n, upto) is None,
        k < upto,
    ensures
        tokens(row_line(text, k)).len() == n,
    decreases upto,
{
    if k + 1 < upto {
        lemma_no_bad_row(text, n, (upto - 1) as nat, k);
    }
}

/// Reads the node count from the first line of an input.
pub fn parse_node_count(header: &str) -> (count: Option<usize>)
    ensures
        count == node_count(header@),
{
    let chars = to_chars(header);
    assert(chars@.subrange(0, chars@.len() as int) =~= header@);
    parse_count(&chars, 0, chars.len())
}

/// Solves the instance `dist` and writes the answer line.
fn answer_for(dist: Vec<Vec<u32>>, engine: Engine) -> (output: String)
    requires
        table_fits(matrix_view(dist).len() as int),
        is_square(matrix_view(dist)),
    ensures
        output@ == answer_line(optimal_cost(matrix_view(dist))),
        is_answer(matrix_view(dist), optimal_cost(matrix_view(dist))),
{
    let mut solver = DpSolver::new(dist.len(), dist);
    let ans = solver.compute(engine);
    let mut output = String::new();
    push_decimal(&mut output, ans as u64);
    output.append("\n");
    proof {
        reveal_strlit("\n");
    }
    output
}

/// Parse input, validate, run the solver with the engine asked for, and
/// hand back the output: the least tour cost on one line. An input that is
/// no instance gives the error and no output.
pub fn solve_tsp(input: &str, engine: Engine) -> (result: Result<String, MalformedInput>)
    requires
        solvable(input@),
    ensures
        match result {
            Ok(output) => expected_answer(input@) == Ok::<Seq<char>, MalformedInput>(output@),
            Err(why) => expected_answer(input@) == Err::<Seq<char>, MalformedInput>(why),
        },
        parse_instance(input@) matches Ok(dist) ==> is_answer(dist, optimal_cost(dist)),
{
    match parse_matrix(input) {
        Ok(dist) => {
            proof {
                lemma_instance_is_square(input@);
            }
            Ok(answer_for(dist, engine))
        },
        Err(why) => Err(why),
    }
}

/// As [`solve_tsp`], for every input: `None` where the input holds an
/// instance whose table cannot be addressed on this machine.
pub fn try_solve_tsp(input: &str, engine: Engine) -> (result: Option<
    Result<String, MalformedInput>,
>)
    ensures
        result is Some <==> solvable(input@),
        match result {
            Some(Ok(output)) => expected_answer(input@) == Ok::<Seq<char>, MalformedInput>(output@),
            Some(Err(why)) => expected_answer(input@) == Err::<Seq<char>, MalformedInput>(why),
            None => true,
        },
{
    match parse_matrix(input) {
        Ok(dist) => {
            if !DpSolver::fits(dist.len()) {
                return None;
            }
            proof {
                lemma_instance_is_square(input@);
            }
            Some(Ok(answer_for(dist, engine)))
        },
        Err(why) => Some(Err(why)),
    }
}

} // verus!
