//! Integer-set datasets: one set per line, its members separated by whitespace.

use vstd::prelude::*;

use crate::order;
use crate::text;
use crate::text::NumberError;

verus! {

/// A token of a dataset that spells no number.
#[derive(Debug, Clone, PartialEq, Eq)]
pub struct DatasetError {
    /// The line, counted from one.
    pub line: usize,
    /// The token.
    pub token: Vec<char>,
    /// What is wrong with it.
    pub error: NumberError,
}

/// The numbers that the first `upto` tokens spell, or the first of them that
/// spells none.
pub open spec fn row_numbers(tokens: Seq<Seq<char>>, upto: nat) -> Result<
    Seq<u64>,
    (Seq<char>, NumberError),
>
    decreases upto,
{
    if upto == 0 {
        Ok(Seq::empty())
    } else {
        match row_numbers(tokens, (upto - 1) as nat) {
            Err(error) => Err(error),
            Ok(numbers) => match text::parsed(tokens[upto - 1], u64::MAX) {
                Err(error) => Err((tokens[upto - 1], error)),
                Ok(number) => Ok(numbers.push(number as u64)),
            },
        }
    }
}

/// The rows of the first `upto` lines, at most `limit` of them, or the first
/// token that spells no number. Lines without tokens hold no row, and lines
/// after the last row are not looked at.
pub open spec fn rows(lines: Seq<Seq<char>>, upto: nat, limit: nat) -> Result<
    Seq<Seq<u64>>,
    (nat, Seq<char>, NumberError),
>
    decreases upto,
{
    if upto == 0 {
        Ok(Seq::empty())
    } else {
        match rows(lines, (upto - 1) as nat, limit) {
            Err(error) => Err(error),
            Ok(found) => if found.len() >= limit {
                Ok(found)
            } else {
                let tokens = text::words(lines[upto - 1]);
                match row_numbers(tokens, tokens.len()) {
                    Err((token, error)) => Err((upto, token, error)),
                    Ok(numbers) => if numbers.len() == 0 {
                        Ok(found)
                    } else {
                        Ok(found.push(numbers))
                    },
                }
            },
        }
    }
}

/// The row holds the numbers, each once, in ascending order.
pub open spec fn is_row(row: Seq<u64>, numbers: Seq<u64>) -> bool {
    order::increasing(row) && row.to_set() == numbers.to_set()
}

/// The rows hold the numbers of the lines.
pub open spec fn are_rows(found: Seq<Vec<u64>>, numbers: Seq<Seq<u64>>) -> bool {
    &&& found.len() == numbers.len()
    &&& forall|i: int| 0 <= i < found.len() ==> is_row((#[trigger] found[i])@, numbers[i])
}

proof fn lemma_row_error(tokens: Seq<Seq<char>>, upto: nat, all: nat)
    requires
        upto <= all,
        row_numbers(tokens, upto) is Err,
    ensures
        row_numbers(tokens, all) == row_numbers(tokens, upto),
    decreases all,
{
    if upto < all {
        lemma_row_error(tokens, upto, (all - 1) as nat);
    }
}

proof fn lemma_rows_settled(lines: Seq<Seq<char>>, upto: nat, all: nat, limit: nat)
    requires
        upto <= all,
        rows(lines, upto, limit) is Err || (rows(lines, upto, limit) matches Ok(found)
            && found.len() >= limit),
    ensures
        rows(lines, all, limit) == rows(lines, upto, limit),
    decreases all,
{
    if upto < all {
        lemma_rows_settled(lines, upto, (all - 1) as nat, limit);
    }
}

fn parse_row(line: &Vec<char>) -> (result: Result<Vec<u64>, (Vec<char>, NumberError)>)
    ensures
        ({
            let tokens = text::words(line@);
            match row_numbers(tokens, tokens.len()) {
                Err((token, error)) => result matches Err(found) && found.0@ == token && found.1
                    == error,
                Ok(numbers) => result matches Ok(row) && row@ == numbers,
            }
        }),
{
    let tokens = text::words_of(line);
    let ghost words = text::words(line@);
    let mut row: Vec<u64> = Vec::new();
    let mut index: usize = 0;
    while index < tokens.len()
        invariant
            index <= tokens@.len(),
            words == text::words(line@),
            words == text::views(tokens@),
            row_numbers(words, index as nat) == Ok::<Seq<u64>, (Seq<char>, NumberError)>(row@),
        decreases tokens@.len() - index,
    {
        assert(words[index as int] == tokens@[index as int]@);
        match text::parse_number(&tokens[index], u64::MAX) {
            Ok(number) => {
                row.push(number);
            },
            Err(error) => {
                proof {
                    lemma_row_error(words, (index + 1) as nat, words.len());
                }
                let token = text::part(&tokens[index], 0, tokens[index].len());
                assert(token@ =~= tokens@[index as int]@);
                return Err((token, error));
            },
        }
        index = index + 1;
    }
    Ok(row)
}

/// Read at most `limit` rows of a dataset.
pub fn parse_set_dataset(contents: &str, limit: usize) -> (result: Result<
    Vec<Vec<u64>>,
    DatasetError,
>)
    ensures
        ({
            let lines = text::lines(contents@);
            match rows(lines, lines.len(), limit as nat) {
                Err((line, token, error)) => result matches Err(found) && found.line == line
                    && found.token@ == token && found.error == error,
                Ok(numbers) => result matches Ok(found) && are_rows(found@, numbers),
            }
        }),
{
    let lines = text::lines_of(&text::chars_of(contents));
    let ghost all = text::lines(contents@);
    let mut found: Vec<Vec<u64>> = Vec::new();
    let mut index: usize = 0;
    let size: usize = lines.len();
    while index < size
        invariant
            index <= size == lines@.len(),
            all == text::lines(contents@),
            all == text::views(lines@),
            rows(all, index as nat, limit as nat) matches Ok(numbers) && are_rows(found@, numbers),
        decreases size - index,
    {
        let ghost numbers = rows(all, index as nat, limit as nat)->Ok_0;
        if found.len() >= limit {
            proof {
                lemma_rows_settled(all, index as nat, all.len(), limit as nat);
            }
            return Ok(found);
        }
        assert(all[index as int] == lines@[index as int]@);
        match parse_row(&lines[index]) {
            Err((token, error)) => {
                proof {
                    lemma_rows_settled(all, (index + 1) as nat, all.len(), limit as nat);
                }
                return Err(DatasetError { line: index + 1, token, error });
            },
            Ok(row) => {
                if row.len() > 0 {
                    let ghost before = found@;
                    let ghost raw = row@;
                    found.push(order::sorted_unique(row));
                    proof {
                        let after = numbers.push(raw);
                        assert forall|i: int| 0 <= i < found@.len() implies is_row(
                            (#[trigger] found@[i])@,
                            after[i],
                        ) by {
                            if i < before.len() {
                                assert(found@[i] == before[i]);
                                assert(is_row(before[i]@, numbers[i]));
                            }
                        }
                    }
                }
            },
        }
        index = index + 1;
    }
    Ok(found)
}

/// A row is read exactly where every token of it spells a number, and then has the numbers
/// of all tokens, in order.
pub proof fn law_rows_have_every_number(tokens: Seq<Seq<char>>, upto: nat)
    requires
        upto <= tokens.len(),
    ensures
        row_numbers(tokens, upto) is Ok == forall|i: int|
            0 <= i < upto ==> text::parsed(#[trigger] tokens[i], u64::MAX) is Ok,
        row_numbers(tokens, upto) matches Ok(numbers) ==> numbers.len() == upto && forall|i: int|
            0 <= i < upto ==> #[trigger] numbers[i] == text::parsed(tokens[i], u64::MAX)->Ok_0 as u64,
    decreases upto,
{
    if upto > 0 {
        law_rows_have_every_number(tokens, (upto - 1) as nat);
        if row_numbers(tokens, upto) is Err && row_numbers(tokens, (upto - 1) as nat) is Ok {
            assert(text::parsed(tokens[upto - 1], u64::MAX) is Err);
        }
    }
}

/// A set lists the numbers of its row in ascending order, each once.
pub proof fn law_sets_list_their_numbers(row: Seq<u64>, numbers: Seq<u64>)
    requires
        is_row(row, numbers),
    ensures
        forall|i: int, j: int| 0 <= i < j < row.len() ==> row[i] < row[j],
        forall|number: u64| #[trigger] row.contains(number) == numbers.contains(number),
{
    assert forall|number: u64| #[trigger] row.contains(number) == numbers.contains(number) by {
        assert(row.to_set().contains(number) == numbers.to_set().contains(number));
    }
}

/// Each line that holds numbers adds one row, until there are as many as were asked for.
pub proof fn law_lines_add_rows(lines: Seq<Seq<char>>, upto: nat, limit: nat)
    requires
        rows(lines, upto, limit) is Ok,
    ensures
        ({
            let found = rows(lines, upto, limit)->Ok_0;
            let tokens = text::words(lines[upto as int]);
            &&& found.len() <= limit
            &&& found.len() == limit ==> rows(lines, upto + 1, limit) == rows(lines, upto, limit)
            &&& found.len() < limit && tokens.len() == 0 ==> rows(lines, upto + 1, limit) == rows(
                lines,
                upto,
                limit,
            )
            &&& found.len() < limit && tokens.len() > 0 ==> rows(lines, upto + 1, limit) is Ok
                == row_numbers(tokens, tokens.len()) is Ok
            &&& found.len() < limit && tokens.len() > 0 && row_numbers(tokens, tokens.len()) is Ok
                ==> rows(lines, upto + 1, limit)->Ok_0 == found.push(
                row_numbers(tokens, tokens.len())->Ok_0,
            )
        }),
    decreases upto,
{
    let tokens = text::words(lines[upto as int]);
    law_rows_have_every_number(tokens, tokens.len());
    if upto > 0 {
        law_lines_add_rows(lines, (upto - 1) as nat, limit);
    }
}

} // verus!
