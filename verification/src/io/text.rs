//! Small text helpers for reading tables: the characters of a string, the
//! fields of a line, blank space at the ends of a field, and whole numbers
//! written in decimal digits.
use vstd::prelude::*;
use vstd::string::StrSliceExecFns;

verus! {

/// The characters of `s`, one by one.
pub fn chars_of(s: &str) -> (chars: Vec<char>)
    ensures
        chars@ == s@,
{
    let mut chars: Vec<char> = Vec::new();
    for c in it: s.chars()
        invariant
            chars@ == it.seq().take(it.index() as int),
            it.seq() == s@,
    {
        chars.push(c);
        proof {
            assert(it.seq().take(it.index() + 1) =~= it.seq().take(it.index() as int).push(c));
        }
    }
    proof {
        assert(chars@ =~= s@);
    }
    chars
}

/// The fields of the first `upto` characters of a line: a comma ends a field
/// and begins the next, any other character belongs to the field it stands
/// in.
pub open spec fn fields_upto(line: Seq<char>, upto: int) -> Seq<Seq<char>>
    decreases upto,
{
    if upto <= 0 {
        seq![Seq::<char>::empty()]
    } else {
        let before = fields_upto(line, upto - 1);
        if line[upto - 1] == ',' {
            before.push(Seq::empty())
        } else {
            before.update(before.len() - 1, before[before.len() - 1].push(line[upto - 1]))
        }
    }
}

/// The fields of a line, which commas separate. A line without a comma is
/// one field; an empty line is one empty field.
pub open spec fn fields_of(line: Seq<char>) -> Seq<Seq<char>> {
    fields_upto(line, line.len() as int)
}

/// The texts of a list of strings.
pub open spec fn texts(list: Seq<String>) -> Seq<Seq<char>> {
    Seq::new(list.len(), |i: int| list[i]@)
}

/// There is always at least one field.
pub proof fn lemma_fields_nonempty(line: Seq<char>, upto: int)
    ensures
        fields_upto(line, upto).len() >= 1,
    decreases upto,
{
    if upto > 0 {
        lemma_fields_nonempty(line, upto - 1);
    }
}

/// Splits a line into its fields.
pub fn split_fields(line: &str) -> (fields: Vec<String>)
    ensures
        texts(fields@) == fields_of(line@),
        fields@.len() >= 1,
{
    let chars = chars_of(line);
    let mut fields: Vec<String> = Vec::new();
    let mut start: usize = 0;
    let mut i: usize = 0;
    while i < chars.len()
        invariant
            chars@ == line@,
            start <= i <= chars.len(),
            fields_upto(line@, i as int).len() == fields@.len() + 1,
            forall|k: int| 0 <= k < fields@.len() ==> (#[trigger] fields@[k])@ == fields_upto(line@, i as int)[k],
            fields_upto(line@, i as int)[fields@.len() as int] == line@.subrange(start as int, i as int),
        decreases chars.len() - i,
    {
        let ghost before = fields_upto(line@, i as int);
        if chars[i] == ',' {
            let field = line.substring_char(start, i).to_owned();
            fields.push(field);
            start = i + 1;
            proof {
                assert(line@.subrange(start as int, i + 1) =~= Seq::<char>::empty());
            }
        } else {
            proof {
                assert(line@.subrange(start as int, i + 1) =~= line@.subrange(start as int, i as int).push(
                    line@[i as int],
                ));
            }
        }
        i += 1;
    }
    let field = line.substring_char(start, i).to_owned();
    fields.push(field);
    proof {
        assert(texts(fields@) =~= fields_of(line@));
    }
    fields
}

/// Whether `c` is blank space.
pub open spec fn is_blank(c: char) -> bool {
    let n = c as u32;
    n == 0x20 || (0x09 <= n <= 0x0d) || n == 0x85 || n == 0xa0 || n == 0x1680 || (0x2000 <= n <= 0x200a)
        || n == 0x2028 || n == 0x2029 || n == 0x202f || n == 0x205f || n == 0x3000
}

/// Whether `c` is blank space.
pub fn blank(c: char) -> (b: bool)
    ensures
        b == is_blank(c),
{
    let n = c as u32;
    n == 0x20 || (0x09 <= n && n <= 0x0d) || n == 0x85 || n == 0xa0 || n == 0x1680 || (0x2000 <= n && n
        <= 0x200a) || n == 0x2028 || n == 0x2029 || n == 0x202f || n == 0x205f || n == 0x3000
}

/// `from` and `to` bound what is left of `s` without the blank space at its
/// ends.
pub open spec fn trims_to(s: Seq<char>, from: int, to: int) -> bool {
    &&& 0 <= from <= to <= s.len()
    &&& forall|i: int| 0 <= i < from ==> is_blank(#[trigger] s[i])
    &&& forall|i: int| to <= i < s.len() ==> is_blank(#[trigger] s[i])
    &&& from < to ==> !is_blank(s[from]) && !is_blank(s[to - 1])
}

/// `s` without the blank space at its ends.
pub open spec fn trimmed(s: Seq<char>) -> Seq<char> {
    let (from, to) = choose|from: int, to: int| trims_to(s, from, to);
    s.subrange(from, to)
}

/// Whatever bounds trim `s` give the same text.
pub proof fn lemma_trim_unique(s: Seq<char>, from: int, to: int)
    requires
        trims_to(s, from, to),
    ensures
        trimmed(s) == s.subrange(from, to),
{
    let (a, b) = choose|a: int, b: int| trims_to(s, a, b);
    assert(trims_to(s, a, b));
    if from < to {
        assert(a < b) by {
            if a == b {
                if from < a {
                    assert(is_blank(s[from]));
                } else {
                    assert(is_blank(s[from]));
                }
            }
        }
        assert(a == from) by {
            if a < from {
                assert(is_blank(s[a]));
            } else if from < a {
                assert(is_blank(s[from]));
            }
        }
        assert(b == to) by {
            if b < to {
                assert(is_blank(s[to - 1]));
            } else if to < b {
                assert(is_blank(s[b - 1]));
            }
        }
    } else {
        assert(a == b) by {
            if a < b {
                if a < from {
                    assert(is_blank(s[a]));
                } else {
                    assert(is_blank(s[a]));
                }
            }
        }
        assert(s.subrange(a, b) =~= s.subrange(from, to));
    }
}

/// `s` without the blank space at its ends.
pub fn trim_text(s: &str) -> (t: String)
    ensures
        t@ == trimmed(s@),
{
    let chars = chars_of(s);
    let mut from: usize = 0;
    while from < chars.len() && blank(chars[from])
        invariant
            from <= chars.len(),
            forall|i: int| 0 <= i < from ==> is_blank(#[trigger] chars@[i]),
        decreases chars.len() - from,
    {
        from += 1;
    }
    let mut to: usize = chars.len();
    while to > from && blank(chars[to - 1])
        invariant
            from <= to <= chars.len(),
            forall|i: int| to <= i < chars.len() ==> is_blank(#[trigger] chars@[i]),
        decreases to,
    {
        to -= 1;
    }
    proof {
        assert(trims_to(s@, from as int, to as int));
        lemma_trim_unique(s@, from as int, to as int);
    }
    s.substring_char(from, to).to_owned()
}

/// Why a text is not a whole number.
#[derive(Clone, Copy, Debug, PartialEq, Eq, Structural)]
pub enum NumberError {
    /// The text is empty.
    Empty,
    /// The text holds something other than digits after an optional `+`.
    InvalidDigit,
    /// The number is too large for the machine.
    TooLarge,
}

/// Whether `c` is a decimal digit.
pub open spec fn is_digit(c: char) -> bool {
    0x30 <= c as u32 <= 0x39
}

/// The number that the digits `d` write.
pub open spec fn digits_value(d: Seq<char>) -> nat
    decreases d.len(),
{
    if d.len() == 0 {
        0
    } else {
        (digits_value(d.drop_last()) * 10 + (d.last() as u32 - 0x30)) as nat
    }
}

/// The digits of a number text: the text without a leading `+`.
pub open spec fn digits_of(s: Seq<char>) -> Seq<char> {
    if s.len() > 0 && s[0] == '+' {
        s.skip(1)
    } else {
        s
    }
}

/// Reading the digits `d` from the left stops at position `i`: there stands
/// something other than a digit, or with the digit there the number becomes
/// too large.
pub open spec fn stops_at(d: Seq<char>, i: int) -> bool {
    !is_digit(d[i]) || digits_value(d.take(i + 1)) > usize::MAX
}

/// What reading `s` as a whole number gives: the number, or the reason why
/// it is none. Reading goes from the left and stops at the first character
/// that is no digit or makes the number too large.
pub open spec fn reads_as(s: Seq<char>, res: Result<usize, NumberError>) -> bool {
    let d = digits_of(s);
    match res {
        Ok(value) => {
            &&& d.len() > 0
            &&& forall|i: int| 0 <= i < d.len() ==> !stops_at(d, i)
            &&& value == digits_value(d)
        },
        Err(NumberError::Empty) => s.len() == 0,
        Err(NumberError::InvalidDigit) => s.len() > 0 && (d.len() == 0 || exists|i: int|
            0 <= i < d.len() && !is_digit(d[i]) && forall|j: int| 0 <= j < i ==> !stops_at(d, j)),
        Err(NumberError::TooLarge) => exists|i: int|
            0 <= i < d.len() && is_digit(d[i]) && #[trigger] stops_at(d, i) && forall|j: int|
                0 <= j < i ==> !stops_at(d, j),
    }
}

/// The number that the text `s` writes, where it writes one.
pub open spec fn count_of(s: Seq<char>) -> nat {
    digits_value(digits_of(s))
}

/// A text reads in one way only: as a number or as a failure, never as
/// both, and as no two numbers or failures.
pub proof fn lemma_reads_one_way(s: Seq<char>, first: Result<usize, NumberError>, second: Result<usize, NumberError>)
    requires
        reads_as(s, first),
        reads_as(s, second),
    ensures
        first == second,
        first matches Ok(value) ==> value == count_of(s),
{
    let d = digits_of(s);
    if s.len() == 0 {
        assert(d.len() == 0);
    }
    match (first, second) {
        (Ok(_), Ok(_)) => {},
        (Err(NumberError::Empty), Err(NumberError::Empty)) => {},
        (Err(NumberError::InvalidDigit), Err(NumberError::InvalidDigit)) => {},
        (Err(NumberError::TooLarge), Err(NumberError::TooLarge)) => {},
        (Ok(_), Err(error)) => {
            lemma_number_is_no_failure(s, error);
        },
        (Err(error), Ok(_)) => {
            lemma_number_is_no_failure(s, error);
        },
        (Err(NumberError::InvalidDigit), Err(NumberError::TooLarge)) => {
            lemma_one_first_stop(s);
        },
        (Err(NumberError::TooLarge), Err(NumberError::InvalidDigit)) => {
            lemma_one_first_stop(s);
        },
        _ => {},
    }
}

/// A text that reads as a number reads as no failure.
proof fn lemma_number_is_no_failure(s: Seq<char>, error: NumberError)
    requires
        exists|value: usize| reads_as(s, Ok(value)),
    ensures
        !reads_as(s, Err(error)),
{
    let d = digits_of(s);
    let value = choose|value: usize| reads_as(s, Ok(value));
    assert(reads_as(s, Ok(value)));
    if reads_as(s, Err(error)) {
        match error {
            NumberError::Empty => {
                assert(d.len() == 0);
            },
            NumberError::InvalidDigit => {
                if d.len() > 0 {
                    let i = choose|i: int|
                        0 <= i < d.len() && !is_digit(d[i]) && forall|j: int| 0 <= j < i ==> !stops_at(d, j);
                    assert(stops_at(d, i));
                }
            },
            NumberError::TooLarge => {
                let i = choose|i: int|
                    0 <= i < d.len() && is_digit(d[i]) && #[trigger] stops_at(d, i) && forall|j: int|
                        0 <= j < i ==> !stops_at(d, j);
                assert(stops_at(d, i));
            },
        }
    }
}

/// Reading stops first at one place only, so a text does not fail both for
/// a character that is no digit and for a number that is too large.
proof fn lemma_one_first_stop(s: Seq<char>)
    ensures
        !(reads_as(s, Err(NumberError::InvalidDigit)) && reads_as(s, Err(NumberError::TooLarge))),
{
    let d = digits_of(s);
    if reads_as(s, Err(NumberError::InvalidDigit)) && reads_as(s, Err(NumberError::TooLarge)) {
        let j = choose|i: int|
            0 <= i < d.len() && is_digit(d[i]) && #[trigger] stops_at(d, i) && forall|j: int|
                0 <= j < i ==> !stops_at(d, j);
        assert(d.len() > 0);
        let i = choose|i: int|
            0 <= i < d.len() && !is_digit(d[i]) && forall|j: int| 0 <= j < i ==> !stops_at(d, j);
        assert(stops_at(d, i));
        if i < j {
            assert(!stops_at(d, i));
        } else if j < i {
            assert(!stops_at(d, j));
        }
    }
}

/// Reads `s` as a whole number in decimal digits, with an optional `+` in
/// front.
pub fn parse_count(s: &str) -> (res: Result<usize, NumberError>)
    ensures
        reads_as(s@, res),
{
    let chars = chars_of(s);
    if chars.len() == 0 {
        return Err(NumberError::Empty);
    }
    let first: usize = if chars[0] == '+' {
        1
    } else {
        0
    };
    let ghost d = digits_of(s@);
    proof {
        assert(d =~= s@.skip(first as int));
    }
    if first == chars.len() {
        return Err(NumberError::InvalidDigit);
    }
    let mut value: usize = 0;
    let mut i: usize = first;
    while i < chars.len()
        invariant
            chars@ == s@,
            d == s@.skip(first as int),
            d == digits_of(s@),
            first <= i <= chars.len(),
            first < chars.len(),
            forall|j: int| 0 <= j < i - first ==> !stops_at(d, j),
            value == digits_value(d.take(i - first)),
        decreases chars.len() - i,
    {
        let c = chars[i];
        let n = c as u32;
        proof {
            assert(d[i - first] == c);
            assert(d.take(i - first + 1).drop_last() =~= d.take(i - first));
        }
        if n < 0x30 || n > 0x39 {
            return Err(NumberError::InvalidDigit);
        }
        let digit = (n - 0x30) as usize;
        if value > (usize::MAX - digit) / 10 {
            proof {
                assert(digits_value(d.take(i - first + 1)) == value * 10 + digit);
                assert(stops_at(d, i - first));
            }
            return Err(NumberError::TooLarge);
        }
        value = value * 10 + digit;
        i += 1;
    }
    proof {
        assert(d.take(i - first) =~= d);
    }
    Ok(value)
}

} // verus!
