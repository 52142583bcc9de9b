//! Text form of sequence elements: `S` or `G` followed by at least two decimal digits.

use crate::sequence_element::SequenceElement;
use vstd::prelude::*;

verus! {

/// The decimal digit character for `d`.
pub open spec fn digit_char(d: int) -> char {
    if d == 0 { '0' } else if d == 1 { '1' } else if d == 2 { '2' } else if d == 3 { '3' }
    else if d == 4 { '4' } else if d == 5 { '5' } else if d == 6 { '6' } else if d == 7 { '7' }
    else if d == 8 { '8' } else { '9' }
}

/// The value of a digit character.
pub open spec fn digit_value(c: char) -> int {
    c as int - '0' as int
}

pub open spec fn is_digit(c: char) -> bool {
    '0' <= c && c <= '9'
}

/// Decimal representation of `n` without leading zeros.
pub open spec fn decimal(n: nat) -> Seq<char>
    decreases n,
{
    if n < 10 {
        seq![digit_char(n as int)]
    } else {
        decimal(n / 10).push(digit_char((n % 10) as int))
    }
}

/// Left-pads a digit string with `0` to a width of at least two.
pub open spec fn pad_two(s: Seq<char>) -> Seq<char> {
    if s.len() < 2 {
        seq!['0'] + s
    } else {
        s
    }
}

/// The text form of an element, such as `G01` or `S255`.
pub open spec fn element_text(e: SequenceElement) -> Seq<char> {
    match e {
        SequenceElement::Gap(g) => seq!['G'] + pad_two(decimal(g as nat)),
        SequenceElement::Size(s) => seq!['S'] + pad_two(decimal(s as nat)),
    }
}

/// Value of a string of decimal digits.
pub open spec fn digits_value(s: Seq<char>) -> int
    decreases s.len(),
{
    if s.len() == 0 {
        0
    } else {
        digits_value(s.drop_last()) * 10 + digit_value(s.last())
    }
}

pub open spec fn all_digits(s: Seq<char>) -> bool {
    forall|i: int| 0 <= i < s.len() ==> is_digit(#[trigger] s[i])
}

/// The digits of an unsigned number in text, after an optional leading `+`.
pub open spec fn unsigned_body(s: Seq<char>) -> Seq<char> {
    if s.len() > 0 && s[0] == '+' {
        s.drop_first()
    } else {
        s
    }
}

/// Parsing an unsigned integer no larger than `max`, as `str::parse` does for unsigned types.
pub open spec fn spec_parse_unsigned(s: Seq<char>, max: int) -> Option<int> {
    let body = unsigned_body(s);
    if body.len() == 0 || !all_digits(body) || digits_value(body) > max {
        None
    } else {
        Some(digits_value(body))
    }
}

/// Why a text could not be read as an element.
#[derive(Clone, Copy, PartialEq, Eq, Structural, Debug)]
pub enum ElementParseError {
    /// The text has fewer than two characters; holds the number it has.
    TooShort { chars: usize },
    /// The text does not start with `G` or `S`; holds the first character.
    InvalidStart { start: char },
    /// The characters after the first are not a number in range.
    InvalidNumber,
}

/// Reading the text form of an element.
pub open spec fn spec_parse_element(s: Seq<char>) -> Result<SequenceElement, ElementParseError> {
    if s.len() < 2 {
        Err(ElementParseError::TooShort { chars: s.len() as usize })
    } else if s[0] == 'G' {
        match spec_parse_unsigned(s.drop_first(), u16::MAX as int) {
            Some(v) => Ok(SequenceElement::Gap(v as u16)),
            None => Err(ElementParseError::InvalidNumber),
        }
    } else if s[0] == 'S' {
        match spec_parse_unsigned(s.drop_first(), u8::MAX as int) {
            Some(v) => Ok(SequenceElement::Size(v as u8)),
            None => Err(ElementParseError::InvalidNumber),
        }
    } else {
        Err(ElementParseError::InvalidStart { start: s[0] })
    }
}

fn digit_str(d: u64) -> (r: &'static str)
    requires
        d < 10,
    ensures
        r@ == seq![digit_char(d as int)],
{
    proof {
        reveal_strlit("0");
        reveal_strlit("1");
        reveal_strlit("2");
        reveal_strlit("3");
        reveal_strlit("4");
        reveal_strlit("5");
        reveal_strlit("6");
        reveal_strlit("7");
        reveal_strlit("8");
        reveal_strlit("9");
    }
    match d {
        0 => "0",
        1 => "1",
        2 => "2",
        3 => "3",
        4 => "4",
        5 => "5",
        6 => "6",
        7 => "7",
        8 => "8",
        _ => "9",
    }
}

/// Appends the decimal representation of `n` to `out`.
pub fn push_decimal(out: &mut String, n: u64)
    ensures
        final(out)@ == old(out)@ + decimal(n as nat),
    decreases n,
{
    if n >= 10 {
        push_decimal(out, n / 10);
    }
    let d = digit_str(n % 10);
    out.append(d);
    proof {
        if n >= 10 {
            assert(decimal(n as nat) == decimal((n / 10) as nat).push(digit_char((n % 10) as int)));
        }
    }
}

/// Appends `n` in decimal, left-padded with `0` to at least two digits.
pub fn push_decimal_pad_two(out: &mut String, n: u64)
    ensures
        final(out)@ == old(out)@ + pad_two(decimal(n as nat)),
{
    proof {
        reveal_strlit("0");
    }
    if n < 10 {
        out.append("0");
        push_decimal(out, n);
        assert(decimal(n as nat).len() == 1);
    } else {
        push_decimal(out, n);
        assert(decimal(n as nat).len() >= 2) by {
            assert(decimal((n / 10) as nat).len() >= 1) by {
                lemma_decimal_nonempty((n / 10) as nat);
            }
        }
    }
}

/// Decimal representations are never empty and consist of digits.
pub proof fn lemma_decimal_nonempty(n: nat)
    ensures
        decimal(n).len() >= 1,
        all_digits(decimal(n)),
        n < 10 <==> decimal(n).len() == 1,
    decreases n,
{
    if n >= 10 {
        lemma_decimal_nonempty(n / 10);
    }
}

/// The value of the decimal representation of `n` is `n`.
pub proof fn lemma_decimal_value(n: nat)
    ensures
        digits_value(decimal(n)) == n,
    decreases n,
{
    lemma_digit_char_value(n % 10);
    if n < 10 {
        assert(decimal(n).drop_last() =~= Seq::<char>::empty());
        assert(digits_value(Seq::<char>::empty()) == 0);
    } else {
        lemma_decimal_value(n / 10);
        assert(decimal(n).drop_last() =~= decimal(n / 10));
    }
}

proof fn lemma_digit_char_value(d: nat)
    requires
        d < 10,
    ensures
        digit_value(digit_char(d as int)) == d,
        is_digit(digit_char(d as int)),
{
}

/// A leading `0` does not change the value of a digit string.
pub proof fn lemma_leading_zero(s: Seq<char>)
    ensures
        digits_value(seq!['0'] + s) == digits_value(s),
    decreases s.len(),
{
    if s.len() == 0 {
        assert((seq!['0'] + s).drop_last() =~= Seq::<char>::empty());
        assert(digits_value(Seq::<char>::empty()) == 0);
        assert(digit_value('0') == 0);
    } else {
        lemma_leading_zero(s.drop_last());
        assert((seq!['0'] + s).drop_last() =~= seq!['0'] + s.drop_last());
    }
}

/// Adding a digit at the end multiplies by ten and adds the digit.
proof fn lemma_digits_value_push(s: Seq<char>, c: char)
    ensures
        digits_value(s.push(c)) == digits_value(s) * 10 + digit_value(c),
{
    assert(s.push(c).drop_last() =~= s);
}

/// A prefix of a digit string has a value no larger than the whole string.
proof fn lemma_digits_value_prefix(s: Seq<char>, i: int)
    requires
        0 <= i <= s.len(),
        all_digits(s),
    ensures
        digits_value(s.take(i)) <= digits_value(s),
        digits_value(s.take(i)) >= 0,
    decreases s.len() - i,
{
    if i < s.len() {
        lemma_digits_value_prefix(s, i + 1);
        assert(s.take(i + 1).drop_last() =~= s.take(i));
        assert(is_digit(s[i]));
    } else {
        assert(s.take(i) =~= s);
        lemma_digits_value_nonneg(s);
    }
}

proof fn lemma_digits_value_nonneg(s: Seq<char>)
    requires
        all_digits(s),
    ensures
        digits_value(s) >= 0,
    decreases s.len(),
{
    if s.len() > 0 {
        lemma_digits_value_nonneg(s.drop_last());
        assert(is_digit(s[s.len() - 1]));
    }
}

/// Parses the characters of `s` from index `from` on as an unsigned number no larger than `max`.
pub fn parse_unsigned(s: &str, from: usize, max: u64) -> (r: Option<u64>)
    requires
        from <= s@.len(),
        max <= u32::MAX,
    ensures
        r is Some <==> spec_parse_unsigned(s@.skip(from as int), max as int) is Some,
        r matches Some(v) ==> spec_parse_unsigned(s@.skip(from as int), max as int) == Some(
            v as int,
        ) && v <= max,
{
    let len = s.unicode_len();
    let ghost t = s@.skip(from as int);
    let mut i = from;
    if i < len && s.get_char(i) == '+' {
        i = i + 1;
    }
    let ghost body = unsigned_body(t);
    assert(body =~= s@.skip(i as int));
    if i == len {
        return None;
    }
    let start = i;
    let mut acc: u64 = 0;
    while i < len
        invariant
            start <= i <= len,
            len == s@.len(),
            start < len,
            body =~= s@.skip(start as int),
            body == unsigned_body(s@.skip(from as int)),
            max <= u32::MAX,
            acc <= max,
            acc == digits_value(body.take(i - start)),
            all_digits(body.take(i - start)),
        decreases len - i,
    {
        let c = s.get_char(i);
        if !('0' <= c && c <= '9') {
            assert(!is_digit(body[i - start]));
            return None;
        }
        let d = (c as u32 - 48u32) as u64;
        proof {
            assert(body.take(i - start + 1) =~= body.take(i - start).push(c));
            lemma_digits_value_push(body.take(i - start), c);
        }
        acc = acc * 10 + d;
        i = i + 1;
        if acc > max {
            proof {
                if all_digits(body) {
                    lemma_digits_value_prefix(body, i - start);
                }
            }
            return None;
        }
    }
    assert(body.take(i - start) =~= body);
    Some(acc)
}

/// Reads an element from its text form.
pub fn parse_element(value: &str) -> (r: Result<SequenceElement, ElementParseError>)
    ensures
        r == spec_parse_element(value@),
{
    let chars = value.unicode_len();
    if chars < 2 {
        return Err(ElementParseError::TooShort { chars });
    }
    let start = value.get_char(0);
    assert(value@.skip(1) =~= value@.drop_first());
    if start == 'G' {
        match parse_unsigned(value, 1, 65535) {
            Some(v) => {
                assert(spec_parse_unsigned(value@.drop_first(), u16::MAX as int) == Some(v as int));
                Ok(SequenceElement::Gap(v as u16))
            },
            None => Err(ElementParseError::InvalidNumber),
        }
    } else if start == 'S' {
        match parse_unsigned(value, 1, 255) {
            Some(v) => Ok(SequenceElement::Size(v as u8)),
            None => Err(ElementParseError::InvalidNumber),
        }
    } else {
        Err(ElementParseError::InvalidStart { start })
    }
}

/// The text form of an element: `G` or `S` and the value with at least two digits.
pub fn element_to_string(e: SequenceElement) -> (r: String)
    ensures
        r@ == element_text(e),
{
    let mut out = String::new();
    proof {
        reveal_strlit("G");
        reveal_strlit("S");
    }
    match e {
        SequenceElement::Gap(g) => {
            out.append("G");
            push_decimal_pad_two(&mut out, g as u64);
        },
        SequenceElement::Size(s) => {
            out.append("S");
            push_decimal_pad_two(&mut out, s as u64);
        },
    }
    out
}

/// Reading the text form of an element gives the element back.
pub proof fn lemma_parse_element_text(e: SequenceElement)
    ensures
        spec_parse_element(element_text(e)) == Ok::<SequenceElement, ElementParseError>(e),
{
    let n: nat = match e {
        SequenceElement::Gap(g) => g as nat,
        SequenceElement::Size(s) => s as nat,
    };
    lemma_decimal_nonempty(n);
    lemma_decimal_value(n);
    let d = decimal(n);
    let p = pad_two(d);
    if d.len() < 2 {
        lemma_leading_zero(d);
    }
    assert(digits_value(p) == n);
    assert(all_digits(p)) by {
        assert forall|i: int| 0 <= i < p.len() implies is_digit(#[trigger] p[i]) by {
            if d.len() < 2 {
                if i > 0 {
                    assert(p[i] == d[i - 1]);
                }
            }
        }
    }
    assert(p.len() >= 1);
    assert(p[0] != '+') by {
        assert(is_digit(p[0]));
    }
    let t = element_text(e);
    assert(t.drop_first() =~= p);
    assert(unsigned_body(p) == p);
}

} // verus!
