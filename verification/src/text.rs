//! Text as sequences of characters.

use vstd::prelude::*;
use vstd::string::*;

verus! {

/// A character with the Unicode `White_Space` property.
pub open spec fn spec_is_whitespace(c: char) -> bool {
    let code = c as u32;
    ||| 0x09 <= code <= 0x0D
    ||| code == 0x20
    ||| code == 0x85
    ||| code == 0xA0
    ||| code == 0x1680
    ||| 0x2000 <= code <= 0x200A
    ||| code == 0x2028
    ||| code == 0x2029
    ||| code == 0x202F
    ||| code == 0x205F
    ||| code == 0x3000
}

/// The characters from the first that is no whitespace on.
pub open spec fn trim_start(text: Seq<char>) -> Seq<char>
    decreases text.len(),
{
    if text.len() > 0 && spec_is_whitespace(text.first()) {
        trim_start(text.skip(1))
    } else {
        text
    }
}

/// The characters up to the last that is no whitespace.
pub open spec fn trim_end(text: Seq<char>) -> Seq<char>
    decreases text.len(),
{
    if text.len() > 0 && spec_is_whitespace(text.last()) {
        trim_end(text.drop_last())
    } else {
        text
    }
}

/// The text without leading and trailing whitespace.
pub open spec fn trimmed(text: Seq<char>) -> Seq<char> {
    trim_end(trim_start(text))
}

/// The lower-case form of an ASCII letter; any other character stays.
pub open spec fn spec_ascii_lower(c: char) -> char {
    if 'A' <= c <= 'Z' {
        ((c as u8 + 32) as u8) as char
    } else {
        c
    }
}

/// The text with its ASCII letters in lower case.
pub open spec fn lowered(text: Seq<char>) -> Seq<char> {
    text.map_values(|c: char| spec_ascii_lower(c))
}

/// Whether a character is whitespace.
pub fn is_whitespace(c: char) -> (whitespace: bool)
    ensures
        whitespace == spec_is_whitespace(c),
{
    let code: u32 = c as u32;
    (0x09 <= code && code <= 0x0D) || code == 0x20 || code == 0x85 || code == 0xA0 || code == 0x1680
        || (0x2000 <= code && code <= 0x200A) || code == 0x2028 || code == 0x2029 || code == 0x202F
        || code == 0x205F || code == 0x3000
}

/// The lower-case form of an ASCII letter; any other character stays.
pub fn ascii_lower(c: char) -> (lower: char)
    ensures
        lower == spec_ascii_lower(c),
{
    if 'A' <= c && c <= 'Z' {
        (c as u8 + 32) as char
    } else {
        c
    }
}

/// The characters of a string.
pub fn chars_of(text: &str) -> (chars: Vec<char>)
    ensures
        chars@ == text@,
{
    let mut chars: Vec<char> = Vec::new();
    for c in iter: text.chars()
        invariant
            iter.seq() == text@,
            chars@ == text@.take(iter.index()),
    {
        assert(text@.take(iter.index() + 1) =~= text@.take(iter.index()).push(c));
        chars.push(c);
    }
    assert(text@.take(text@.len() as int) =~= text@);
    chars
}

/// Drop leading and trailing whitespace and lower the ASCII letters.
pub fn normalize(chars: &Vec<char>) -> (normal: Vec<char>)
    ensures
        normal@ == lowered(trimmed(chars@)),
{
    let mut start: usize = 0;
    assert(chars@.skip(0) =~= chars@);
    while start < chars.len() && is_whitespace(chars[start])
        invariant
            start <= chars@.len(),
            trim_start(chars@) == trim_start(chars@.skip(start as int)),
        decreases chars@.len() - start,
    {
        assert(chars@.skip(start as int).skip(1) =~= chars@.skip(start + 1));
        start = start + 1;
    }
    let ghost tail = chars@.skip(start as int);
    assert(trim_start(chars@) == tail);
    let mut end: usize = chars.len();
    assert(chars@.subrange(start as int, end as int) =~= tail);
    while start < end && is_whitespace(chars[end - 1])
        invariant
            start <= end <= chars@.len(),
            tail == chars@.skip(start as int),
            trim_end(tail) == trim_end(chars@.subrange(start as int, end as int)),
        decreases end - start,
    {
        assert(chars@.subrange(start as int, end as int).drop_last() =~= chars@.subrange(
            start as int,
            end - 1,
        ));
        end = end - 1;
    }
    let ghost middle = chars@.subrange(start as int, end as int);
    assert(trim_end(tail) == middle);
    let mut normal: Vec<char> = Vec::new();
    let mut index: usize = start;
    while index < end
        invariant
            start <= index <= end <= chars@.len(),
            middle == chars@.subrange(start as int, end as int),
            normal@ == lowered(middle.take(index - start)),
        decreases end - index,
    {
        assert(middle.take(index + 1 - start) =~= middle.take(index - start).push(
            chars@[index as int],
        ));
        normal.push(ascii_lower(chars[index]));
        assert(normal@ =~= lowered(middle.take(index + 1 - start)));
        index = index + 1;
    }
    assert(middle.take(end - start) =~= middle);
    normal
}

/// Whether the characters spell the text.
pub fn spells(chars: &Vec<char>, text: &str) -> (same: bool)
    ensures
        same == (chars@ == text@),
{
    let other = chars_of(text);
    if chars.len() != other.len() {
        return false;
    }
    let mut index: usize = 0;
    while index < chars.len()
        invariant
            index <= chars@.len(),
            chars@.len() == other@.len(),
            other@ == text@,
            forall|i: int| 0 <= i < index ==> chars@[i] == other@[i],
        decreases chars@.len() - index,
    {
        if chars[index] != other[index] {
            return false;
        }
        index = index + 1;
    }
    assert(chars@ =~= text@);
    true
}

/// A number in decimal digits, without leading zeros.
pub open spec fn decimal(number: nat) -> Seq<char>
    decreases number,
{
    if number < 10 {
        seq![digit(number)]
    } else {
        decimal(number / 10).push(digit(number % 10))
    }
}

/// The character of a decimal digit.
pub open spec fn digit(number: nat) -> char {
    (48 + number) as char
}

/// The text of a decimal digit.
fn digit_text(number: u64) -> (text: &'static str)
    requires
        number < 10,
    ensures
        text@ == seq![digit(number as nat)],
{
    let text = match number {
        0 => "0",
        1 => "1",
        2 => "2",
        3 => "3",
        4 => "4",
        5 => "5",
        6 => "6",
        7 => "7",
        8 => "8",
        _ => "9",
    };
    proof {
        reveal_strlit("0");
        reveal_strlit("1");
        reveal_strlit("2");
        reveal_strlit("3");
        reveal_strlit("4");
        reveal_strlit("5");
        reveal_strlit("6");
        reveal_strlit("7");
        reveal_strlit("8");
        reveal_strlit("9");
    }
    assert(text@ =~= seq![digit(number as nat)]);
    text
}

/// Append a number in decimal digits.
pub fn push_decimal(out: &mut String, number: u64)
    ensures
        final(out)@ == old(out)@ + decimal(number as nat),
    decreases number,
{
    if number >= 10 {
        push_decimal(out, number / 10);
    }
    out.append(digit_text(number % 10));
    proof {
        assert(out@ =~= old(out)@ + decimal(number as nat));
    }
}

/// The end of the first line: the position of the first line feed, or the
/// length of the text.
pub open spec fn line_end(text: Seq<char>) -> nat
    decreases text.len(),
{
    if text.len() == 0 || text[0] == '\n' {
        0
    } else {
        line_end(text.skip(1)) + 1
    }
}

/// The lines of a text. A line ends with a line feed, or with a carriage return
/// and a line feed, or with the text; what ends it does not belong to it.
pub open spec fn lines(text: Seq<char>) -> Seq<Seq<char>>
    decreases text.len(),
{
    if text.len() == 0 {
        Seq::empty()
    } else {
        let end = line_end(text);
        if end >= text.len() {
            seq![text]
        } else {
            let line = text.take(end as int);
            let kept = if line.len() > 0 && line.last() == '\r' {
                line.drop_last()
            } else {
                line
            };
            seq![kept] + lines(text.skip((end + 1) as int))
        }
    }
}

/// The number of characters before the first whitespace.
pub open spec fn word_len(text: Seq<char>) -> nat
    decreases text.len(),
{
    if text.len() == 0 || spec_is_whitespace(text[0]) {
        0
    } else {
        word_len(text.skip(1)) + 1
    }
}

proof fn lemma_word_len(text: Seq<char>)
    ensures
        word_len(text) <= text.len(),
        forall|i: int| 0 <= i < word_len(text) ==> !spec_is_whitespace(#[trigger] text[i]),
        word_len(text) < text.len() ==> spec_is_whitespace(text[word_len(text) as int]),
    decreases text.len(),
{
    if text.len() > 0 && !spec_is_whitespace(text[0]) {
        lemma_word_len(text.skip(1));
        assert forall|i: int| 0 <= i < word_len(text) implies !spec_is_whitespace(
            #[trigger] text[i],
        ) by {
            if i > 0 {
                assert(text.skip(1)[i - 1] == text[i]);
            }
        }
    }
}

proof fn lemma_trim_start_shortens(text: Seq<char>)
    ensures
        trim_start(text).len() <= text.len(),
    decreases text.len(),
{
    if text.len() > 0 && spec_is_whitespace(text.first()) {
        lemma_trim_start_shortens(text.skip(1));
    }
}

/// The maximal runs of characters other than whitespace.
pub open spec fn words(text: Seq<char>) -> Seq<Seq<char>>
    decreases text.len(),
    via words_decreases
{
    let rest = trim_start(text);
    if rest.len() == 0 {
        Seq::empty()
    } else {
        seq![rest.take(word_len(rest) as int)] + words(rest.skip(word_len(rest) as int))
    }
}

#[via_fn]
proof fn words_decreases(text: Seq<char>) {
    lemma_trim_start_shortens(text);
    let rest = trim_start(text);
    if rest.len() > 0 {
        lemma_trim_start_done(text);
        lemma_word_len(rest);
    }
}

proof fn lemma_trim_start_done(text: Seq<char>)
    ensures
        trim_start(text).len() > 0 ==> !spec_is_whitespace(trim_start(text)[0]),
    decreases text.len(),
{
    if text.len() > 0 && spec_is_whitespace(text.first()) {
        lemma_trim_start_done(text.skip(1));
    }
}

/// What is wrong with a text that spells no number.
#[derive(Debug, Clone, Copy, PartialEq, Eq, Structural)]
pub enum NumberError {
    /// There is no digit.
    Empty,
    /// A character is no decimal digit.
    InvalidDigit,
    /// The number is too large.
    TooLarge,
}

/// The value of a decimal digit.
pub open spec fn digit_value(c: char) -> Option<nat> {
    if '0' <= c <= '9' {
        Some((c as u32 - 48) as nat)
    } else {
        None
    }
}

/// The number that decimal digits spell, read from the left: the first digit
/// that is none, or with which the number exceeds the limit, is the error.
pub open spec fn digits_value(digits: Seq<char>, limit: u64) -> Result<nat, NumberError>
    decreases digits.len(),
{
    if digits.len() == 0 {
        Ok(0)
    } else {
        match digits_value(digits.drop_last(), limit) {
            Err(error) => Err(error),
            Ok(high) => match digit_value(digits.last()) {
                None => Err(NumberError::InvalidDigit),
                Some(low) => if high * 10 + low > limit {
                    Err(NumberError::TooLarge)
                } else {
                    Ok(high * 10 + low)
                },
            },
        }
    }
}

/// The unsigned number that a text spells, with an optional plus sign before
/// its digits.
pub open spec fn parsed(text: Seq<char>, limit: u64) -> Result<nat, NumberError> {
    if text.len() == 0 {
        Err(NumberError::Empty)
    } else if text.len() == 1 && text[0] == '+' {
        Err(NumberError::InvalidDigit)
    } else if text[0] == '+' {
        digits_value(text.skip(1), limit)
    } else {
        digits_value(text, limit)
    }
}

proof fn lemma_digits_error_stands(digits: Seq<char>, upto: int, limit: u64)
    requires
        0 <= upto <= digits.len(),
        digits_value(digits.take(upto), limit) is Err,
    ensures
        digits_value(digits, limit) == digits_value(digits.take(upto), limit),
    decreases digits.len() - upto,
{
    if upto < digits.len() {
        assert(digits.take(upto + 1).drop_last() =~= digits.take(upto));
        lemma_digits_error_stands(digits, upto + 1, limit);
    } else {
        assert(digits.take(upto) =~= digits);
    }
}

/// The unsigned number up to `limit` that a text spells.
pub fn parse_number(chars: &Vec<char>, limit: u64) -> (result: Result<u64, NumberError>)
    ensures
        match parsed(chars@, limit) {
            Err(error) => result == Err::<u64, NumberError>(error),
            Ok(value) => result matches Ok(number) && number as nat == value,
        },
{
    if chars.len() == 0 {
        return Err(NumberError::Empty);
    }
    let start: usize = if chars[0] == '+' {
        1
    } else {
        0
    };
    if start == 1 && chars.len() == 1 {
        return Err(NumberError::InvalidDigit);
    }
    let ghost digits = chars@.skip(start as int);
    let mut number: u64 = 0;
    let mut index: usize = start;
    assert(digits.take(0) =~= Seq::empty());
    assert(start == 0 ==> digits =~= chars@);
    while index < chars.len()
        invariant
            start <= index <= chars@.len(),
            digits == chars@.skip(start as int),
            parsed(chars@, limit) == digits_value(digits, limit),
            digits_value(digits.take(index - start), limit) == Ok::<nat, NumberError>(
                number as nat,
            ),
        decreases chars@.len() - index,
    {
        let c = chars[index];
        proof {
            let next = digits.take(index + 1 - start);
            assert(next.drop_last() =~= digits.take(index - start));
            assert(next.last() == c);
            if digits_value(next, limit) is Err {
                lemma_digits_error_stands(digits, index + 1 - start, limit);
            }
        }
        if !('0' <= c && c <= '9') {
            return Err(NumberError::InvalidDigit);
        }
        let low: u64 = (c as u32 - 48) as u64;
        let larger: Option<u64> = match number.checked_mul(10) {
            Some(high) => high.checked_add(low),
            None => None,
        };
        match larger {
            Some(value) => {
                if value > limit {
                    return Err(NumberError::TooLarge);
                }
                number = value;
            },
            None => {
                return Err(NumberError::TooLarge);
            },
        }
        index = index + 1;
    }
    assert(digits.take(index - start) =~= digits);
    Ok(number)
}

/// The texts that vectors of characters hold.
pub open spec fn views(parts: Seq<Vec<char>>) -> Seq<Seq<char>> {
    Seq::new(parts.len(), |i: int| parts[i]@)
}

/// The characters from `start` up to `end`.
pub fn part(chars: &Vec<char>, start: usize, end: usize) -> (text: Vec<char>)
    requires
        start <= end <= chars@.len(),
    ensures
        text@ == chars@.subrange(start as int, end as int),
{
    let mut text: Vec<char> = Vec::new();
    let mut index: usize = start;
    while index < end
        invariant
            start <= index <= end <= chars@.len(),
            text@ == chars@.subrange(start as int, index as int),
        decreases end - index,
    {
        text.push(chars[index]);
        index = index + 1;
        assert(text@ =~= chars@.subrange(start as int, index as int));
    }
    text
}

proof fn lemma_word_len_is(text: Seq<char>, count: int)
    requires
        0 <= count <= text.len(),
        forall|i: int| 0 <= i < count ==> !spec_is_whitespace(#[trigger] text[i]),
        count < text.len() ==> spec_is_whitespace(text[count]),
    ensures
        word_len(text) == count,
    decreases text.len(),
{
    if count > 0 {
        assert(!spec_is_whitespace(text[0]));
        assert forall|i: int| 0 <= i < count - 1 implies !spec_is_whitespace(
            #[trigger] text.skip(1)[i],
        ) by {
            assert(text.skip(1)[i] == text[i + 1]);
        }
        lemma_word_len_is(text.skip(1), count - 1);
    }
}

/// The maximal runs of characters other than whitespace.
pub fn words_of(chars: &Vec<char>) -> (parts: Vec<Vec<char>>)
    ensures
        views(parts@) == words(chars@),
{
    let mut parts: Vec<Vec<char>> = Vec::new();
    let mut index: usize = 0;
    assert(chars@.skip(0) =~= chars@);
    assert(views(parts@) + words(chars@.skip(0)) =~= words(chars@));
    while index < chars.len()
        invariant
            index <= chars@.len(),
            views(parts@) + words(chars@.skip(index as int)) == words(chars@),
        decreases chars@.len() - index,
    {
        if is_whitespace(chars[index]) {
            proof {
                assert(chars@.skip(index as int).skip(1) =~= chars@.skip(index + 1));
                assert(trim_start(chars@.skip(index as int)) == trim_start(chars@.skip(index + 1)));
                reveal_with_fuel(words, 2);
            }
            index = index + 1;
            continue;
        }
        let start: usize = index;
        let ghost rest = chars@.skip(start as int);
        while index < chars.len() && !is_whitespace(chars[index])
            invariant
                start <= index <= chars@.len(),
                forall|i: int| start <= i < index ==> !spec_is_whitespace(#[trigger] chars@[i]),
            decreases chars@.len() - index,
        {
            index = index + 1;
        }
        let word = part(chars, start, index);
        proof {
            assert(trim_start(rest) == rest);
            assert forall|i: int| 0 <= i < index - start implies !spec_is_whitespace(
                #[trigger] rest[i],
            ) by {
                assert(rest[i] == chars@[start + i]);
            }
            lemma_word_len_is(rest, index - start);
            assert(rest.take(index - start) =~= word@);
            assert(rest.skip(index - start) =~= chars@.skip(index as int));
            assert(words(rest) == seq![word@] + words(chars@.skip(index as int)));
        }
        let ghost before = parts@;
        parts.push(word);
        proof {
            assert(views(parts@) =~= views(before).push(word@));
            assert(views(parts@) + words(chars@.skip(index as int)) =~= views(before) + words(rest));
        }
    }
    proof {
        assert(chars@.skip(index as int) =~= Seq::empty());
        assert(words(chars@.skip(index as int)) =~= Seq::empty());
        assert(views(parts@) =~= words(chars@));
    }
    parts
}

proof fn lemma_line_end_is(text: Seq<char>, count: int)
    requires
        0 <= count <= text.len(),
        forall|i: int| 0 <= i < count ==> #[trigger] text[i] != '\n',
        count < text.len() ==> text[count] == '\n',
    ensures
        line_end(text) == count,
    decreases text.len(),
{
    if count > 0 {
        assert(text[0] != '\n');
        assert forall|i: int| 0 <= i < count - 1 implies #[trigger] text.skip(1)[i] != '\n' by {
            assert(text.skip(1)[i] == text[i + 1]);
        }
        lemma_line_end_is(text.skip(1), count - 1);
    }
}

/// The lines of a text.
pub fn lines_of(chars: &Vec<char>) -> (parts: Vec<Vec<char>>)
    ensures
        views(parts@) == lines(chars@),
{
    let mut parts: Vec<Vec<char>> = Vec::new();
    let mut index: usize = 0;
    assert(chars@.skip(0) =~= chars@);
    assert(views(parts@) + lines(chars@.skip(0)) =~= lines(chars@));
    while index < chars.len()
        invariant
            index <= chars@.len(),
            views(parts@) + lines(chars@.skip(index as int)) == lines(chars@),
        decreases chars@.len() - index,
    {
        let start: usize = index;
        let ghost rest = chars@.skip(start as int);
        while index < chars.len() && chars[index] != '\n'
            invariant
                start <= index <= chars@.len(),
                forall|i: int| start <= i < index ==> #[trigger] chars@[i] != '\n',
            decreases chars@.len() - index,
        {
            index = index + 1;
        }
        proof {
            assert forall|i: int| 0 <= i < index - start implies #[trigger] rest[i] != '\n' by {
                assert(rest[i] == chars@[start + i]);
            }
            lemma_line_end_is(rest, index - start);
        }
        let mut end: usize = index;
        if index < chars.len() {
            if end > start && chars[end - 1] == '\r' {
                end = end - 1;
            }
            index = index + 1;
        }
        let line = part(chars, start, end);
        let ghost before = parts@;
        parts.push(line);
        proof {
            let after = chars@.skip(index as int);
            if line_end(rest) >= rest.len() {
                assert(line@ =~= rest);
                assert(after =~= Seq::empty());
                assert(lines(rest) =~= seq![line@] + lines(after));
            } else {
                let whole = rest.take(line_end(rest) as int);
                assert(whole =~= chars@.subrange(start as int, index - 1));
                assert(rest.skip((line_end(rest) + 1) as int) =~= after);
                if whole.len() > 0 && whole.last() == '\r' {
                    assert(whole.drop_last() =~= line@);
                } else {
                    assert(whole =~= line@);
                }
                assert(lines(rest) == seq![line@] + lines(after));
            }
            assert(views(parts@) =~= views(before).push(line@));
            assert(views(parts@) + lines(after) =~= views(before) + lines(rest));
        }
    }
    proof {
        assert(chars@.skip(index as int) =~= Seq::empty());
        assert(views(parts@) =~= lines(chars@));
    }
    parts
}

/// A number in decimal digits, with a minus sign where it is negative.
pub open spec fn signed(number: i64) -> Seq<char> {
    if number < 0 {
        "-"@ + decimal((-number) as nat)
    } else {
        decimal(number as nat)
    }
}

/// Append a number in decimal digits, with a minus sign where it is negative.
pub fn push_signed(out: &mut String, number: i64)
    ensures
        final(out)@ == old(out)@ + signed(number),
{
    if number < 0 {
        out.append("-");
        let size: u64 = if number == i64::MIN {
            0x8000_0000_0000_0000
        } else {
            (-number) as u64
        };
        push_decimal(out, size);
        assert(out@ =~= old(out)@ + signed(number));
    } else {
        push_decimal(out, number as u64);
    }
}

/// The character of a hexadecimal digit.
pub open spec fn hex_digit(number: nat) -> char {
    if number < 10 {
        digit(number)
    } else {
        (87 + number) as char
    }
}

/// The low `width` hexadecimal digits of a number, most significant digit
/// first.
pub open spec fn hex(number: nat, width: nat) -> Seq<char>
    decreases width,
{
    if width == 0 {
        Seq::empty()
    } else {
        hex(number / 16, (width - 1) as nat).push(hex_digit(number % 16))
    }
}

/// The text of a hexadecimal digit.
fn hex_text(number: u64) -> (text: &'static str)
    requires
        number < 16,
    ensures
        text@ == seq![hex_digit(number as nat)],
{
    if number < 10 {
        return digit_text(number);
    }
    let text = match number {
        10 => "a",
        11 => "b",
        12 => "c",
        13 => "d",
        14 => "e",
        _ => "f",
    };
    proof {
        reveal_strlit("a");
        reveal_strlit("b");
        reveal_strlit("c");
        reveal_strlit("d");
        reveal_strlit("e");
        reveal_strlit("f");
    }
    assert(text@ =~= seq![hex_digit(number as nat)]);
    text
}

/// Append the low `width` hexadecimal digits of a number.
pub fn push_hex(out: &mut String, number: u64, width: usize)
    ensures
        final(out)@ == old(out)@ + hex(number as nat, width as nat),
    decreases width,
{
    if width > 0 {
        push_hex(out, number / 16, width - 1);
        out.append(hex_text(number % 16));
    }
    assert(out@ =~= old(out)@ + hex(number as nat, width as nat));
}

/// Trimming takes whitespace off both ends and nothing else.
pub proof fn law_trimming_takes_the_whitespace_at_the_ends(text: Seq<char>)
    ensures
        trimmed(text).len() > 0 ==> !spec_is_whitespace(trimmed(text).first())
            && !spec_is_whitespace(trimmed(text).last()),
        exists|start: int, end: int|
            0 <= start <= end <= text.len() && trimmed(text) == #[trigger] text.subrange(
                start,
                end,
            ) && (forall|i: int| 0 <= i < start ==> spec_is_whitespace(#[trigger] text[i])) && (
            forall|i: int| end <= i < text.len() ==> spec_is_whitespace(#[trigger] text[i])),
{
    let start = lemma_trimmed_start(text);
    let rest = text.skip(start);
    let end = lemma_trimmed_end(rest);
    assert(text.subrange(start, start + end) =~= rest.take(end));
    assert forall|i: int| start + end <= i < text.len() implies spec_is_whitespace(
        #[trigger] text[i],
    ) by {
        assert(rest[i - start] == text[i]);
    }
}

proof fn lemma_trimmed_start(text: Seq<char>) -> (start: int)
    ensures
        0 <= start <= text.len(),
        trim_start(text) == text.skip(start),
        forall|i: int| 0 <= i < start ==> spec_is_whitespace(#[trigger] text[i]),
        start < text.len() ==> !spec_is_whitespace(text[start]),
    decreases text.len(),
{
    if text.len() > 0 && spec_is_whitespace(text.first()) {
        let rest = lemma_trimmed_start(text.skip(1));
        assert(text.skip(1).skip(rest) =~= text.skip(rest + 1));
        assert forall|i: int| 0 <= i < rest + 1 implies spec_is_whitespace(#[trigger] text[i]) by {
            if i > 0 {
                assert(text.skip(1)[i - 1] == text[i]);
            }
        }
        rest + 1
    } else {
        assert(text.skip(0) =~= text);
        0
    }
}

proof fn lemma_trimmed_end(text: Seq<char>) -> (end: int)
    ensures
        0 <= end <= text.len(),
        trim_end(text) == text.take(end),
        forall|i: int| end <= i < text.len() ==> spec_is_whitespace(#[trigger] text[i]),
        end > 0 ==> !spec_is_whitespace(text[end - 1]),
    decreases text.len(),
{
    if text.len() > 0 && spec_is_whitespace(text.last()) {
        let end = lemma_trimmed_end(text.drop_last());
        assert(text.drop_last().take(end) =~= text.take(end));
        assert forall|i: int| end <= i < text.len() implies spec_is_whitespace(
            #[trigger] text[i],
        ) by {
            if i < text.len() - 1 {
                assert(text.drop_last()[i] == text[i]);
            }
        }
        end
    } else {
        assert(text.take(text.len() as int) =~= text);
        text.len() as int
    }
}

/// Lowering keeps the length and every character but the letters from `A` to `Z`.
pub proof fn law_lowering_changes_capitals(text: Seq<char>, index: int)
    requires
        0 <= index < text.len(),
    ensures
        lowered(text).len() == text.len(),
        'A' <= text[index] <= 'Z' ==> lowered(text)[index] as u32 == text[index] as u32 + 32,
        !('A' <= text[index] <= 'Z') ==> lowered(text)[index] == text[index],
{
}

/// What a number is written as reads back as that number.
pub proof fn law_decimal_reads_back(number: nat, limit: u64)
    requires
        number <= limit,
    ensures
        parsed(decimal(number), limit) == Ok::<nat, NumberError>(number),
        decimal(number).len() > 0,
        forall|i: int| 0 <= i < decimal(number).len() ==> '0' <= #[trigger] decimal(number)[i] <= '9',
        decimal(number).len() > 1 ==> decimal(number)[0] != '0',
    decreases number,
{
    lemma_decimal_value(number, limit);
}

proof fn lemma_decimal_value(number: nat, limit: u64)
    requires
        number <= limit,
    ensures
        digits_value(decimal(number), limit) == Ok::<nat, NumberError>(number),
        decimal(number).len() > 0,
        forall|i: int| 0 <= i < decimal(number).len() ==> '0' <= #[trigger] decimal(number)[i] <= '9',
        number > 0 ==> decimal(number)[0] != '0',
        number < 10 ==> decimal(number).len() == 1,
    decreases number,
{
    let low = number % 10;
    assert(digit_value(digit(low)) == Some(low));
    if number < 10 {
        let digits = decimal(number);
        assert(digits.drop_last() =~= Seq::empty());
        assert(digits.last() == digit(number));
        assert(digits_value(digits.drop_last(), limit) == Ok::<nat, NumberError>(0));
    } else {
        lemma_decimal_value(number / 10, limit);
        let digits = decimal(number);
        assert(digits.drop_last() =~= decimal(number / 10));
        assert(digits.last() == digit(low));
    }
}

/// The number that digits spell grows with each digit, as decimal notation has it, until
/// it exceeds the limit.
pub proof fn law_digits_have_their_weight(digits: Seq<char>, last: char, limit: u64)
    requires
        digits_value(digits, limit) is Ok,
        '0' <= last <= '9',
    ensures
        ({
            let longer = 10 * digits_value(digits, limit)->Ok_0 + (last as u32 - 48) as nat;
            if longer <= limit {
                digits_value(digits.push(last), limit) == Ok::<nat, NumberError>(longer)
            } else {
                digits_value(digits.push(last), limit) == Err::<nat, NumberError>(
                    NumberError::TooLarge,
                )
            }
        }),
{
    assert(digits.push(last).drop_last() =~= digits);
}

/// A character that is no digit makes a text no number.
pub proof fn law_only_digits_are_numbers(text: Seq<char>, at: int, limit: u64)
    requires
        0 <= at < text.len(),
        !('0' <= text[at] <= '9'),
        at > 0 || text[0] != '+' || text.len() == 1,
    ensures
        parsed(text, limit) is Err,
{
    if text.len() > 1 && text[0] == '+' {
        let digits = text.skip(1);
        assert(digits[at - 1] == text[at]);
        lemma_bad_digit(digits, at - 1, limit);
    } else {
        lemma_bad_digit(text, at, limit);
    }
}

proof fn lemma_bad_digit(digits: Seq<char>, at: int, limit: u64)
    requires
        0 <= at < digits.len(),
        !('0' <= digits[at] <= '9'),
    ensures
        digits_value(digits, limit) is Err,
    decreases digits.len(),
{
    if at < digits.len() - 1 {
        lemma_bad_digit(digits.drop_last(), at, limit);
    }
}

/// A negative number has a minus sign before its size.
pub proof fn law_signed_numbers(number: i64)
    ensures
        number >= 0 ==> signed(number) == decimal(number as nat),
        number < 0 ==> signed(number) == seq!['-'] + decimal((-number) as nat),
{
    reveal_strlit("-");
    assert("-"@ =~= seq!['-']);
}

proof fn lemma_line_end(line: Seq<char>, rest: Seq<char>)
    requires
        forall|i: int| 0 <= i < line.len() ==> #[trigger] line[i] != '\n',
    ensures
        line_end(line + seq!['\n'] + rest) == line.len(),
        line_end(line) == line.len(),
    decreases line.len(),
{
    let text = line + seq!['\n'] + rest;
    if line.len() > 0 {
        assert(text[0] == line[0]);
        assert(text.skip(1) =~= line.skip(1) + seq!['\n'] + rest);
        lemma_line_end(line.skip(1), rest);
    } else {
        assert(text[0] == '\n');
    }
}

/// The lines of a text are what stands between its line feeds: a line feed ends a line,
/// and a carriage return before it is dropped with it.
pub proof fn law_line_feeds_end_lines(line: Seq<char>, rest: Seq<char>)
    requires
        forall|i: int| 0 <= i < line.len() ==> #[trigger] line[i] != '\n',
    ensures
        lines(line + seq!['\n'] + rest) == seq![
            if line.len() > 0 && line.last() == '\r' {
                line.drop_last()
            } else {
                line
            },
        ] + lines(rest),
        line.len() > 0 ==> lines(line) == seq![line],
        lines(Seq::<char>::empty()) == Seq::<Seq<char>>::empty(),
{
    lemma_line_end(line, rest);
    let text = line + seq!['\n'] + rest;
    assert(text.take(line.len() as int) =~= line);
    assert(text.skip((line.len() + 1) as int) =~= rest);
}

proof fn lemma_word_of(word: Seq<char>, rest: Seq<char>)
    requires
        forall|i: int| 0 <= i < word.len() ==> !spec_is_whitespace(#[trigger] word[i]),
        rest.len() > 0 ==> spec_is_whitespace(rest[0]),
    ensures
        word_len(word + rest) == word.len(),
    decreases word.len(),
{
    let text = word + rest;
    if word.len() > 0 {
        assert(text[0] == word[0]);
        assert(text.skip(1) =~= word.skip(1) + rest);
        lemma_word_of(word.skip(1), rest);
    } else {
        assert(text =~= rest);
    }
}

/// The words of a text are what stands between its whitespace.
pub proof fn law_whitespace_parts_words(word: Seq<char>, rest: Seq<char>)
    requires
        word.len() > 0,
        forall|i: int| 0 <= i < word.len() ==> !spec_is_whitespace(#[trigger] word[i]),
        rest.len() > 0 ==> spec_is_whitespace(rest[0]),
    ensures
        words(word + rest) == seq![word] + words(rest),
        rest.len() > 0 ==> words(rest) == words(rest.skip(1)),
        words(Seq::<char>::empty()) == Seq::<Seq<char>>::empty(),
{
    lemma_word_of(word, rest);
    let text = word + rest;
    assert(text[0] == word[0]);
    assert(trim_start(text) == text);
    assert(text.take(word.len() as int) =~= word);
    assert(text.skip(word.len() as int) =~= rest);
}

/// Hexadecimal digits: each is what is left of the number after the digits behind it.
pub proof fn law_hex_digits(number: nat, width: nat)
    ensures
        hex(number, width).len() == width,
        width > 0 ==> hex(number, width).drop_last() == hex(number / 16, (width - 1) as nat),
        width > 0 ==> hex(number, width).last() as u32 == (if number % 16 < 10 {
            48 + number % 16
        } else {
            87 + number % 16
        }),
    decreases width,
{
    if width > 0 {
        law_hex_digits(number / 16, (width - 1) as nat);
        assert(hex(number, width).drop_last() =~= hex(number / 16, (width - 1) as nat));
    }
}

/// Every part is read, in its place.
pub proof fn law_every_part_is_read(parts: Seq<Vec<char>>)
    ensures
        views(parts).len() == parts.len(),
        forall|i: int| 0 <= i < parts.len() ==> #[trigger] views(parts)[i] == parts[i]@,
{
}

} // verus!
