//! Reading the text of a grammar: white space, the count of production
//! lines, the arrow of a production line, and its alternatives.

use vstd::prelude::*;
use crate::symbol::{classify_all, Symbol};

verus! {

/// Whether `c` is white space: a character with the Unicode property
/// `White_Space`.
pub open spec fn is_space(c: char) -> bool {
    ||| c == ' '
    ||| ('\u{9}' <= c && c <= '\u{d}')
    ||| c == '\u{85}'
    ||| c == '\u{a0}'
    ||| c == '\u{1680}'
    ||| ('\u{2000}' <= c && c <= '\u{200a}')
    ||| c == '\u{2028}'
    ||| c == '\u{2029}'
    ||| c == '\u{202f}'
    ||| c == '\u{205f}'
    ||| c == '\u{3000}'
}

/// Whether `c` is white space.
pub fn char_is_space(c: char) -> (b: bool)
    ensures
        b == is_space(c),
{
    c == ' ' || ('\u{9}' <= c && c <= '\u{d}') || c == '\u{85}' || c == '\u{a0}' || c == '\u{1680}' || (
    '\u{2000}' <= c && c <= '\u{200a}') || c == '\u{2028}' || c == '\u{2029}' || c == '\u{202f}' || c
        == '\u{205f}' || c == '\u{3000}'
}

/// The characters of `s`.
pub fn chars_of(s: &str) -> (v: Vec<char>)
    ensures
        v@ == s@,
{
    let mut v: Vec<char> = Vec::new();
    for c in iter: s.chars()
        invariant
            v@ == iter.seq().take(iter.index() as int),
            iter.seq() == s@,
    {
        v.push(c);
    }
    v
}

/// The first place from `from` on that holds no white space; the length
/// where there is none.
pub open spec fn skip_spaces(s: Seq<char>, from: int) -> int
    decreases s.len() - from,
{
    if 0 <= from < s.len() && is_space(s[from]) {
        skip_spaces(s, from + 1)
    } else {
        from
    }
}

/// The place after the last character that is no white space; 0 where there
/// is none.
pub open spec fn trim_end(s: Seq<char>) -> int
    decreases s.len(),
{
    if s.len() > 0 && is_space(s.last()) {
        trim_end(s.drop_last())
    } else {
        s.len() as int
    }
}

/// `s` without the white space at its two ends.
pub open spec fn trim(s: Seq<char>) -> Seq<char> {
    if skip_spaces(s, 0) >= trim_end(s) {
        Seq::empty()
    } else {
        s.subrange(skip_spaces(s, 0), trim_end(s))
    }
}

/// The first place from `from` on that holds no white space.
pub fn after_spaces(s: &Vec<char>, from: usize) -> (at: usize)
    requires
        from <= s@.len(),
    ensures
        at == skip_spaces(s@, from as int),
        from <= at <= s@.len(),
{
    let mut at: usize = from;
    while at < s.len() && char_is_space(s[at])
        invariant
            from <= at <= s@.len(),
            skip_spaces(s@, from as int) == skip_spaces(s@, at as int),
        decreases s.len() - at,
    {
        at += 1;
    }
    at
}

/// The place after the last character that is no white space.
pub fn before_spaces(s: &Vec<char>) -> (end: usize)
    ensures
        end == trim_end(s@),
        end <= s@.len(),
{
    let mut end: usize = s.len();
    proof {
        assert(s@.take(end as int) =~= s@);
    }
    while end > 0 && char_is_space(s[end - 1])
        invariant
            end <= s@.len(),
            trim_end(s@) == trim_end(s@.take(end as int)),
        decreases end,
    {
        proof {
            assert(s@.take(end as int).drop_last() =~= s@.take(end as int - 1));
        }
        end -= 1;
    }
    end
}

/// Why a text is no count.
pub enum NumberError {
    /// The text is empty.
    Empty,
    /// A character is no decimal digit.
    InvalidDigit,
    /// The number does not fit the machine's word.
    TooLarge,
}

/// Whether `c` is a decimal digit.
pub open spec fn is_digit(c: char) -> bool {
    '0' <= c && c <= '9'
}

/// The value of a decimal digit.
pub open spec fn digit_value(c: char) -> nat {
    match c {
        '1' => 1,
        '2' => 2,
        '3' => 3,
        '4' => 4,
        '5' => 5,
        '6' => 6,
        '7' => 7,
        '8' => 8,
        '9' => 9,
        _ => 0,
    }
}

/// The number that the digits of `s` write, read from the left: each digit
/// multiplies what was read by ten and adds its value. The reading fails at
/// the first step that leaves the machine's word, or meets a character that
/// is no digit.
pub open spec fn read_digits(s: Seq<char>) -> Result<nat, NumberError>
    decreases s.len(),
{
    if s.len() == 0 {
        Ok(0)
    } else {
        match read_digits(s.drop_last()) {
            Err(e) => Err(e),
            Ok(value) => {
                if value * 10 > usize::MAX {
                    Err(NumberError::TooLarge)
                } else if !is_digit(s.last()) {
                    Err(NumberError::InvalidDigit)
                } else if value * 10 + digit_value(s.last()) > usize::MAX {
                    Err(NumberError::TooLarge)
                } else {
                    Ok(value * 10 + digit_value(s.last()))
                }
            },
        }
    }
}

/// The count that `s` writes: decimal digits, after a plus sign or none.
pub open spec fn read_number(s: Seq<char>) -> Result<nat, NumberError> {
    if s.len() == 0 {
        Err(NumberError::Empty)
    } else if s.len() == 1 && (s[0] == '+' || s[0] == '-') {
        Err(NumberError::InvalidDigit)
    } else if s[0] == '+' {
        read_digits(s.skip(1))
    } else {
        read_digits(s)
    }
}

/// The count that a line writes between the white space at its ends.
pub open spec fn read_count(line: Seq<char>) -> Result<nat, NumberError> {
    read_number(trim(line))
}

/// The value of a decimal digit; none for another character.
fn digit_of(c: char) -> (r: Option<usize>)
    ensures
        r is Some == is_digit(c),
        r matches Some(d) ==> d == digit_value(c) && d <= 9,
{
    match c {
        '0' => Some(0),
        '1' => Some(1),
        '2' => Some(2),
        '3' => Some(3),
        '4' => Some(4),
        '5' => Some(5),
        '6' => Some(6),
        '7' => Some(7),
        '8' => Some(8),
        '9' => Some(9),
        _ => None,
    }
}

/// Reads the count that `line` writes.
pub fn parse_count(line: &Vec<char>) -> (r: Result<usize, NumberError>)
    ensures
        match r {
            Ok(n) => read_count(line@) == Ok::<nat, NumberError>(n as nat),
            Err(e) => read_count(line@) == Err::<nat, NumberError>(e),
        },
{
    let start = after_spaces(line, 0);
    let end = before_spaces(line);
    if start >= end {
        return Err(NumberError::Empty);
    }
    let ghost text = line@.subrange(start as int, end as int);
    if end - start == 1 && (line[start] == '+' || line[start] == '-') {
        return Err(NumberError::InvalidDigit);
    }
    let first = if line[start] == '+' {
        start + 1
    } else {
        start
    };
    let ghost digits = line@.subrange(first as int, end as int);
    proof {
        assert(text[0] == line@[start as int]);
        if line@[start as int] == '+' {
            assert(text.skip(1) =~= digits);
        }
        assert(read_number(text) == read_digits(digits));
        assert(digits.take(0) =~= Seq::<char>::empty());
    }
    let mut value: usize = 0;
    let mut at: usize = first;
    while at < end
        invariant
            first <= at <= end <= line@.len(),
            digits == line@.subrange(first as int, end as int),
            read_count(line@) == read_digits(digits),
            read_digits(digits.take(at - first)) == Ok::<nat, NumberError>(value as nat),
        decreases end - at,
    {
        let ghost seen = digits.take(at - first);
        let ghost next = digits.take(at - first + 1);
        proof {
            assert(next.drop_last() =~= seen);
            assert(next.last() == line@[at as int]);
            assert(digits.take(end - first) =~= digits);
        }
        if value > usize::MAX / 10 {
            proof {
                assert(read_digits(next) == Err::<nat, NumberError>(NumberError::TooLarge));
                lemma_read_digits_fails(digits, at - first + 1);
            }
            return Err(NumberError::TooLarge);
        }
        let tens = value * 10;
        match digit_of(line[at]) {
            None => {
                proof {
                    assert(read_digits(next) == Err::<nat, NumberError>(NumberError::InvalidDigit));
                    lemma_read_digits_fails(digits, at - first + 1);
                }
                return Err(NumberError::InvalidDigit);
            },
            Some(digit) => {
                if tens > usize::MAX - digit {
                    proof {
                        assert(read_digits(next) == Err::<nat, NumberError>(NumberError::TooLarge));
                        lemma_read_digits_fails(digits, at - first + 1);
                    }
                    return Err(NumberError::TooLarge);
                }
                value = tens + digit;
            },
        }
        at += 1;
    }
    proof {
        assert(digits.take(end - first) =~= digits);
    }
    Ok(value)
}

/// A reading that fails on the first `n` characters fails on all.
proof fn lemma_read_digits_fails(s: Seq<char>, n: int)
    requires
        0 <= n <= s.len(),
        read_digits(s.take(n)) is Err,
    ensures
        read_digits(s) == read_digits(s.take(n)),
    decreases s.len() - n,
{
    if n == s.len() {
        assert(s.take(n) =~= s);
    } else {
        assert(s.take(n + 1).drop_last() =~= s.take(n));
        lemma_read_digits_fails(s, n + 1);
    }
}

/// Whether the arrow of a production line, a hyphen and a greater-than sign,
/// stands at place `i`.
pub open spec fn arrow_at(s: Seq<char>, i: int) -> bool {
    0 <= i && i + 1 < s.len() && s[i] == '-' && s[i + 1] == '>'
}

/// Whether the only arrow of `s` stands at place `i`.
pub open spec fn sole_arrow_at(s: Seq<char>, i: int) -> bool {
    arrow_at(s, i) && forall|j: int| #[trigger] arrow_at(s, j) ==> j == i
}

/// The place of the arrow of `s`, where it has exactly one.
pub fn find_arrow(s: &Vec<char>) -> (r: Option<usize>)
    ensures
        match r {
            Some(i) => sole_arrow_at(s@, i as int),
            None => forall|i: int| !sole_arrow_at(s@, i),
        },
{
    let mut found: Option<usize> = None;
    let mut at: usize = 0;
    while at < s.len() && at + 1 < s.len()
        invariant
            at <= s@.len(),
            match found {
                Some(i) => i < at && arrow_at(s@, i as int) && forall|j: int|
                    j < at && #[trigger] arrow_at(s@, j) ==> j == i,
                None => forall|j: int| j < at ==> !#[trigger] arrow_at(s@, j),
            },
        decreases s.len() - at,
    {
        if s[at] == '-' && s[at + 1] == '>' {
            match found {
                Some(i) => {
                    proof {
                        assert(arrow_at(s@, at as int));
                        assert forall|k: int| !sole_arrow_at(s@, k) by {
                            if sole_arrow_at(s@, k) {
                                assert(arrow_at(s@, i as int));
                                assert(arrow_at(s@, at as int));
                            }
                        }
                    }
                    return None;
                },
                None => {
                    found = Some(at);
                },
            }
        }
        at += 1;
    }
    proof {
        match found {
            Some(i) => {
                assert forall|j: int| #[trigger] arrow_at(s@, j) implies j == i by {
                    assert(j < at);
                }
            },
            None => {
                assert forall|k: int| !sole_arrow_at(s@, k) by {
                    if arrow_at(s@, k) {
                        assert(k < at);
                    }
                }
            },
        }
    }
    found
}

/// The place after the run of characters without white space that starts at
/// `from`.
pub open spec fn word_end(s: Seq<char>, from: int) -> int
    decreases s.len() - from,
{
    if 0 <= from < s.len() && !is_space(s[from]) {
        word_end(s, from + 1)
    } else {
        from
    }
}

/// A word is at least as long as its first character.
pub proof fn lemma_word_end(s: Seq<char>, from: int)
    requires
        0 <= from <= s.len(),
    ensures
        from <= word_end(s, from) <= s.len(),
        0 <= from < s.len() && !is_space(s[from]) ==> from < word_end(s, from),
    decreases s.len() - from,
{
    if from < s.len() && !is_space(s[from]) {
        lemma_word_end(s, from + 1);
    }
}

/// The alternatives that `s` lists from `from` on: the runs of characters
/// between white space, each as the symbols of its characters.
pub open spec fn alternatives(s: Seq<char>, from: int) -> Seq<Seq<Symbol>>
    decreases s.len() - from, 1int,
    when 0 <= from
    via alternatives_decreases
{
    if from >= s.len() {
        Seq::empty()
    } else if is_space(s[from]) {
        alternatives(s, from + 1)
    } else {
        seq![classify_all(s.subrange(from, word_end(s, from)))] + alternatives(s, word_end(s, from))
    }
}

/// A word that starts at `from` ends after `from`.
#[via_fn]
proof fn alternatives_decreases(s: Seq<char>, from: int) {
    if from < s.len() && !is_space(s[from]) {
        lemma_word_end(s, from);
    }
}

} // verus!
