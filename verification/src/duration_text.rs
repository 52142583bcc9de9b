//! Durations as text: whole seconds with an optional fraction of up to nine digits, such as
//! `12`, `-3` or `1.25`.

use crate::element_text::{
    all_digits, decimal, digits_value, is_digit, lemma_decimal_nonempty, lemma_decimal_value,
    lemma_leading_zero, push_decimal,
};
use vstd::prelude::*;

verus! {

/// Nanoseconds in a second.
pub const NANOS_PER_SECOND: i128 = 1_000_000_000;

/// The largest number of whole seconds a duration can hold: `i64::MAX` milliseconds.
pub const MAX_DURATION_SECONDS: i128 = 9_223_372_036_854_775;

/// The largest duration in nanoseconds: `i64::MAX` milliseconds.
pub const MAX_DURATION_NANOS: i128 = 9_223_372_036_854_775_807_000_000;

/// Why a text is no duration.
#[derive(Clone, Copy, Debug, PartialEq, Eq, Structural)]
pub enum DurationParseError {
    /// The text is not seconds with an optional fraction.
    Invalid,
    /// The fraction has more than nine digits.
    TooPrecise,
}

/// The first position from `i` on holding a `.`, or the length if there is none.
pub open spec fn first_dot(s: Seq<char>, i: int) -> int
    decreases s.len() - i,
{
    if i >= s.len() {
        s.len() as int
    } else if s[i] == '.' {
        i
    } else {
        first_dot(s, i + 1)
    }
}

/// The value of a non-empty string of digits, if it is at most `max`.
pub open spec fn parse_digits(s: Seq<char>, max: int) -> Option<int> {
    if s.len() == 0 || !all_digits(s) || digits_value(s) > max {
        None
    } else {
        Some(digits_value(s))
    }
}

/// Reading a number of type `i64`: an optional sign and digits.
pub open spec fn spec_parse_i64(s: Seq<char>) -> Option<int> {
    if s.len() > 0 && s[0] == '-' {
        match parse_digits(s.drop_first(), i64::MAX + 1) {
            Some(v) => Some(-v),
            None => None,
        }
    } else if s.len() > 0 && s[0] == '+' {
        parse_digits(s.drop_first(), i64::MAX as int)
    } else {
        parse_digits(s, i64::MAX as int)
    }
}

/// Reading a number of type `u32`: an optional `+` and digits.
pub open spec fn spec_parse_u32(s: Seq<char>) -> Option<int> {
    if s.len() > 0 && s[0] == '+' {
        parse_digits(s.drop_first(), u32::MAX as int)
    } else {
        parse_digits(s, u32::MAX as int)
    }
}

/// Ten to the power of `n`.
pub open spec fn pow10(n: nat) -> nat
    decreases n,
{
    if n == 0 {
        1
    } else {
        10 * pow10((n - 1) as nat)
    }
}

/// Reading a duration: the whole seconds and the nanoseconds of the fraction. The fraction is
/// scaled by the number of its characters (a sign counts), so `1.5` is one and a half seconds.
pub open spec fn spec_parse_duration(s: Seq<char>) -> Result<(int, int), DurationParseError> {
    let d = first_dot(s, 0);
    if d == s.len() {
        match spec_parse_i64(s) {
            Some(sec) => Ok((sec, 0)),
            None => Err(DurationParseError::Invalid),
        }
    } else {
        let fraction = s.skip(d + 1);
        if first_dot(s, d + 1) < s.len() {
            Err(DurationParseError::Invalid)
        } else {
            match spec_parse_i64(s.take(d)) {
                None => Err(DurationParseError::Invalid),
                Some(sec) => if fraction.len() > 9 {
                    Err(DurationParseError::TooPrecise)
                } else {
                    match spec_parse_u32(fraction) {
                        None => Err(DurationParseError::Invalid),
                        Some(v) => Ok((sec, v * pow10((9 - fraction.len()) as nat))),
                    }
                },
            }
        }
    }
}

/// Whether what `s` reads as fits a duration.
pub open spec fn duration_text_in_range(s: Seq<char>) -> bool {
    spec_parse_duration(s) matches Ok((sec, nanos)) ==> -MAX_DURATION_SECONDS <= sec
        <= MAX_DURATION_SECONDS && sec * NANOS_PER_SECOND + nanos <= MAX_DURATION_NANOS
}

fn chars_of(s: &str) -> (r: Vec<char>)
    ensures
        r@ == s@,
{
    let n = s.unicode_len();
    let mut out: Vec<char> = Vec::new();
    let mut i: usize = 0;
    while i < n
        invariant
            i <= n,
            n == s@.len(),
            out@ == s@.take(i as int),
        decreases n - i,
    {
        out.push(s.get_char(i));
        i = i + 1;
        assert(out@ =~= s@.take(i as int));
    }
    assert(s@.take(n as int) =~= s@);
    out
}

proof fn lemma_first_dot_bounds(s: Seq<char>, i: int)
    requires
        0 <= i <= s.len(),
    ensures
        i <= first_dot(s, i) <= s.len(),
    decreases s.len() - i,
{
    if i < s.len() && s[i] != '.' {
        lemma_first_dot_bounds(s, i + 1);
    }
}

fn find_dot(s: &Vec<char>, from: usize) -> (r: usize)
    requires
        from <= s@.len(),
    ensures
        r == first_dot(s@, from as int),
{
    let mut i = from;
    while i < s.len()
        invariant
            from <= i <= s@.len(),
            first_dot(s@, from as int) == first_dot(s@, i as int),
        decreases s@.len() - i,
    {
        if s[i] == '.' {
            return i;
        }
        i = i + 1;
    }
    i
}

proof fn lemma_digits_prefix_bound(s: Seq<char>, k: int)
    requires
        0 <= k <= s.len(),
        all_digits(s),
    ensures
        0 <= digits_value(s.take(k)) <= digits_value(s),
    decreases s.len() - k,
{
    if k < s.len() {
        lemma_digits_prefix_bound(s, k + 1);
        assert(s.take(k + 1).drop_last() =~= s.take(k));
        assert(is_digit(s[k]));
    } else {
        assert(s.take(k) =~= s);
        lemma_digits_nonneg(s);
    }
}

proof fn lemma_digits_nonneg(s: Seq<char>)
    requires
        all_digits(s),
    ensures
        digits_value(s) >= 0,
    decreases s.len(),
{
    if s.len() > 0 {
        lemma_digits_nonneg(s.drop_last());
        assert(is_digit(s[s.len() - 1]));
    }
}

/// The value of the digits `s[from..to]`, if they are digits and their value is at most `max`.
fn parse_digits_range(s: &Vec<char>, from: usize, to: usize, max: u128) -> (r: Option<u128>)
    requires
        from <= to <= s@.len(),
        max <= u64::MAX,
    ensures
        r is None <==> parse_digits(s@.subrange(from as int, to as int), max as int) is None,
        r matches Some(x) ==> x <= max && parse_digits(s@.subrange(from as int, to as int), max as int)
            == Some(x as int),
{
    let ghost body = s@.subrange(from as int, to as int);
    if from == to {
        return None;
    }
    let mut acc: u128 = 0;
    let mut i = from;
    while i < to
        invariant
            from <= i <= to <= s@.len(),
            from < to,
            body == s@.subrange(from as int, to as int),
            max <= u64::MAX,
            acc <= max,
            acc == digits_value(body.take(i - from)),
            all_digits(body.take(i - from)),
        decreases to - i,
    {
        let c = s[i];
        if !('0' <= c && c <= '9') {
            assert(!is_digit(body[i - from]));
            return None;
        }
        let d = (c as u32 - 48u32) as u128;
        proof {
            assert(body.take(i - from + 1) =~= body.take(i - from).push(c));
            assert(body.take(i - from + 1).drop_last() =~= body.take(i - from));
        }
        acc = acc * 10 + d;
        i = i + 1;
        if acc > max {
            proof {
                if all_digits(body) {
                    lemma_digits_prefix_bound(body, i - from);
                }
            }
            return None;
        }
    }
    assert(body.take(to - from) =~= body);
    Some(acc)
}

fn parse_i64_range(s: &Vec<char>, from: usize, to: usize) -> (r: Option<i128>)
    requires
        from <= to <= s@.len(),
    ensures
        r is None <==> spec_parse_i64(s@.subrange(from as int, to as int)) is None,
        r matches Some(x) ==> spec_parse_i64(s@.subrange(from as int, to as int)) == Some(x as int),
{
    let ghost t = s@.subrange(from as int, to as int);
    if from < to && s[from] == '-' {
        assert(t.drop_first() =~= s@.subrange(from + 1, to as int));
        match parse_digits_range(s, from + 1, to, 9_223_372_036_854_775_808u128) {
            Some(v) => Some(-(v as i128)),
            None => None,
        }
    } else if from < to && s[from] == '+' {
        assert(t.drop_first() =~= s@.subrange(from + 1, to as int));
        match parse_digits_range(s, from + 1, to, 9_223_372_036_854_775_807u128) {
            Some(v) => Some(v as i128),
            None => None,
        }
    } else {
        match parse_digits_range(s, from, to, 9_223_372_036_854_775_807u128) {
            Some(v) => Some(v as i128),
            None => None,
        }
    }
}

fn parse_u32_range(s: &Vec<char>, from: usize, to: usize) -> (r: Option<u32>)
    requires
        from <= to <= s@.len(),
    ensures
        r is None <==> spec_parse_u32(s@.subrange(from as int, to as int)) is None,
        r matches Some(x) ==> spec_parse_u32(s@.subrange(from as int, to as int)) == Some(x as int),
{
    let ghost t = s@.subrange(from as int, to as int);
    let r = if from < to && s[from] == '+' {
        assert(t.drop_first() =~= s@.subrange(from + 1, to as int));
        parse_digits_range(s, from + 1, to, 4_294_967_295u128)
    } else {
        parse_digits_range(s, from, to, 4_294_967_295u128)
    };
    match r {
        Some(v) => Some(v as u32),
        None => None,
    }
}

/// Reads a duration in nanoseconds from its text (see [`spec_parse_duration`]).
pub fn parse_duration(value: &str) -> (r: Result<i128, DurationParseError>)
    requires
        duration_text_in_range(value@),
    ensures
        match r {
            Ok(n) => spec_parse_duration(value@) matches Ok((sec, nanos)) && n == sec
                * NANOS_PER_SECOND + nanos,
            Err(e) => spec_parse_duration(value@) == Err::<(int, int), DurationParseError>(e),
        },
{
    let s = chars_of(value);
    let n = s.len();
    let d = find_dot(&s, 0);
    proof {
        lemma_first_dot_bounds(s@, 0);
    }
    assert(s@.subrange(0, n as int) =~= s@);
    if d == n {
        return match parse_i64_range(&s, 0, n) {
            Some(sec) => Ok(sec * NANOS_PER_SECOND),
            None => Err(DurationParseError::Invalid),
        };
    }
    assert(s@.subrange(d + 1, n as int) =~= s@.skip(d + 1));
    assert(s@.subrange(0, d as int) =~= s@.take(d as int));
    if find_dot(&s, d + 1) < n {
        return Err(DurationParseError::Invalid);
    }
    let sec = match parse_i64_range(&s, 0, d) {
        Some(v) => v,
        None => {
            return Err(DurationParseError::Invalid);
        },
    };
    let len = n - (d + 1);
    if len > 9 {
        return Err(DurationParseError::TooPrecise);
    }
    let fraction = match parse_u32_range(&s, d + 1, n) {
        Some(v) => v as i128,
        None => {
            return Err(DurationParseError::Invalid);
        },
    };
    // Scale the fraction to nanoseconds.
    let mut scale: i128 = 1;
    let mut k: usize = len;
    while k < 9
        invariant
            len <= k <= 9,
            scale == pow10((k - len) as nat),
            scale <= 1_000_000_000,
        decreases 9 - k,
    {
        proof {
            lemma_pow10_bound((k + 1 - len) as nat);
        }
        scale = scale * 10;
        k = k + 1;
    }
    proof {
        lemma_fraction_bound(fraction as int, len as nat);
    }
    Ok(sec * NANOS_PER_SECOND + fraction * scale)
}

proof fn lemma_pow10_bound(n: nat)
    requires
        n <= 9,
    ensures
        pow10(n) <= 1_000_000_000,
        pow10(n) >= 1,
    decreases n,
{
    reveal_with_fuel(pow10, 10);
}

proof fn lemma_fraction_bound(v: int, len: nat)
    requires
        0 <= v <= u32::MAX,
        len <= 9,
    ensures
        v * pow10((9 - len) as nat) <= u32::MAX * 1_000_000_000,
{
    lemma_pow10_bound((9 - len) as nat);
    assert(v * pow10((9 - len) as nat) <= u32::MAX * 1_000_000_000) by (nonlinear_arith)
        requires
            0 <= v <= u32::MAX,
            0 <= pow10((9 - len) as nat) <= 1_000_000_000,
    ;
}

/// The text of `n` padded with `0` on the left to `width` characters.
pub open spec fn pad_zeros(s: Seq<char>, width: nat) -> Seq<char> {
    if s.len() >= width {
        s
    } else {
        Seq::new((width - s.len()) as nat, |i: int| '0') + s
    }
}

/// The text of a whole number: its digits, after a `-` if it is negative.
pub open spec fn signed_decimal(v: int) -> Seq<char> {
    if v < 0 {
        seq!['-'] + decimal((-v) as nat)
    } else {
        decimal(v as nat)
    }
}

/// The text of a duration: the whole seconds (rounded toward zero), a `.`, and the rest in
/// nanoseconds padded to nine characters, the sign first where the rest is negative.
pub open spec fn spec_duration_text(nanos: int) -> Seq<char> {
    let sec = if nanos >= 0 {
        nanos / NANOS_PER_SECOND as int
    } else {
        -((-nanos) / NANOS_PER_SECOND as int)
    };
    let rest = nanos - sec * NANOS_PER_SECOND;
    let rest_text = if rest < 0 {
        seq!['-'] + pad_zeros(decimal((-rest) as nat), 8)
    } else {
        pad_zeros(decimal(rest as nat), 9)
    };
    signed_decimal(sec) + seq!['.'] + rest_text
}

fn push_zeros(out: &mut String, count: usize)
    ensures
        final(out)@ == old(out)@ + Seq::new(count as nat, |i: int| '0'),
{
    proof {
        reveal_strlit("0");
    }
    let mut i: usize = 0;
    while i < count
        invariant
            i <= count,
            out@ == old(out)@ + Seq::new(i as nat, |j: int| '0'),
        decreases count - i,
    {
        proof {
            reveal_strlit("0");
        }
        out.append("0");
        i = i + 1;
        assert(out@ =~= old(out)@ + Seq::new(i as nat, |j: int| '0'));
    }
}

/// Appends `n` in decimal, padded with `0` on the left to `width` characters.
fn push_padded(out: &mut String, n: u64, width: usize)
    ensures
        final(out)@ == old(out)@ + pad_zeros(decimal(n as nat), width as nat),
{
    let mut digits = String::new();
    push_decimal(&mut digits, n);
    assert(digits@ =~= decimal(n as nat));
    let len = digits.as_str().unicode_len();
    if len < width {
        push_zeros(out, width - len);
    }
    out.append(digits.as_str());
}

/// Writes a duration of `nanos` nanoseconds as text (see [`spec_duration_text`]).
pub fn format_duration(nanos: i128) -> (r: String)
    requires
        -MAX_DURATION_NANOS <= nanos <= MAX_DURATION_NANOS,
    ensures
        r@ == spec_duration_text(nanos as int),
        // What is written reads back (with `parse_duration`) as the same duration, unless it
        // is negative and not a whole number of seconds.
        (nanos >= 0 || nanos % NANOS_PER_SECOND == 0) ==> duration_text_in_range(r@),
        (nanos >= 0 || nanos % NANOS_PER_SECOND == 0) ==> (spec_parse_duration(r@) matches Ok((sec, frac))
            && sec * NANOS_PER_SECOND + frac == nanos),
{
    proof {
        if nanos >= 0 || nanos % NANOS_PER_SECOND == 0 {
            assert(nanos as int >= 0 || (nanos as int) % (NANOS_PER_SECOND as int) == 0);
            lemma_duration_text_round_trip(nanos as int);
        }
    }
    let sec = nanos / NANOS_PER_SECOND;
    let rest = nanos % NANOS_PER_SECOND;
    let mut out = String::new();
    proof {
        reveal_strlit("-");
        reveal_strlit(".");
    }
    if sec < 0 {
        out.append("-");
        push_decimal(&mut out, (-sec) as u64);
    } else {
        push_decimal(&mut out, sec as u64);
    }
    out.append(".");
    if rest < 0 {
        out.append("-");
        push_padded(&mut out, (-rest) as u64, 8);
    } else {
        push_padded(&mut out, rest as u64, 9);
    }
    out
}

// ---------------------------------------------------------------------------------------------
// Reading back what was written

/// Numbers below `10^k` have at most `k` digits.
proof fn lemma_decimal_len(n: nat, k: nat)
    requires
        k >= 1,
        n < pow10(k),
    ensures
        decimal(n).len() <= k,
    decreases k,
{
    if n >= 10 {
        assert(k >= 2) by {
            if k == 1 {
                assert(pow10(1) == 10 * pow10(0));
            }
        }
        assert(pow10(k) == 10 * pow10((k - 1) as nat));
        lemma_decimal_len(n / 10, (k - 1) as nat);
    }
}

/// Leading zeros neither change the value nor break the digits.
proof fn lemma_zeros_prefix(m: nat, t: Seq<char>)
    requires
        all_digits(t),
    ensures
        digits_value(Seq::new(m, |i: int| '0') + t) == digits_value(t),
        all_digits(Seq::new(m, |i: int| '0') + t),
    decreases m,
{
    if m > 0 {
        let shorter = Seq::new((m - 1) as nat, |i: int| '0') + t;
        lemma_zeros_prefix((m - 1) as nat, t);
        assert(Seq::new(m, |i: int| '0') + t =~= seq!['0'] + shorter);
        lemma_leading_zero(shorter);
        assert forall|i: int| 0 <= i < (seq!['0'] + shorter).len() implies is_digit(
            #[trigger] (seq!['0'] + shorter)[i],
        ) by {
            if i > 0 {
                assert((seq!['0'] + shorter)[i] == shorter[i - 1]);
            }
        }
    }
}

/// The position of the first `.` from `i` on is `k` when `s[k]` is one and none comes before.
proof fn lemma_first_dot_at(s: Seq<char>, i: int, k: int)
    requires
        0 <= i <= k <= s.len(),
        k == s.len() || s[k] == '.',
        forall|j: int| i <= j < k ==> s[j] != '.',
    ensures
        first_dot(s, i) == k,
    decreases k - i,
{
    if i < k {
        lemma_first_dot_at(s, i + 1, k);
    }
}

/// The nine-character fraction of `rest` nanoseconds reads back as `rest`.
proof fn lemma_fraction_text(rest: nat)
    requires
        rest < 1_000_000_000,
    ensures
        pad_zeros(decimal(rest), 9).len() == 9,
        all_digits(pad_zeros(decimal(rest), 9)),
        spec_parse_u32(pad_zeros(decimal(rest), 9)) == Some(rest as int),
{
    reveal_with_fuel(pow10, 10);
    lemma_decimal_len(rest, 9);
    lemma_decimal_nonempty(rest);
    lemma_decimal_value(rest);
    let t = pad_zeros(decimal(rest), 9);
    lemma_zeros_prefix((9 - decimal(rest).len()) as nat, decimal(rest));
    if decimal(rest).len() >= 9 {
        assert(t == decimal(rest));
    }
    assert(is_digit(t[0]));
}

/// Whole seconds read back from their text.
proof fn lemma_seconds_text(sec: int)
    requires
        -MAX_DURATION_SECONDS <= sec <= MAX_DURATION_SECONDS,
    ensures
        spec_parse_i64(signed_decimal(sec)) == Some(sec),
        forall|j: int| 0 <= j < signed_decimal(sec).len() ==> signed_decimal(sec)[j] != '.',
{
    let n: nat = if sec < 0 { (-sec) as nat } else { sec as nat };
    lemma_decimal_nonempty(n);
    lemma_decimal_value(n);
    if sec < 0 {
        assert((seq!['-'] + decimal(n)).drop_first() =~= decimal(n));
        assert forall|j: int| 0 <= j < signed_decimal(sec).len() implies signed_decimal(sec)[j]
            != '.' by {
            if j > 0 {
                assert(signed_decimal(sec)[j] == decimal(n)[j - 1]);
                assert(is_digit(decimal(n)[j - 1]));
            }
        }
    } else {
        assert(is_digit(decimal(n)[0]));
        assert forall|j: int| 0 <= j < signed_decimal(sec).len() implies signed_decimal(sec)[j]
            != '.' by {
            assert(is_digit(decimal(n)[j]));
        }
    }
}

/// A written duration reads back as the same duration, as long as it is not negative or a
/// whole number of seconds.
pub proof fn lemma_duration_text_round_trip(nanos: int)
    requires
        -MAX_DURATION_NANOS <= nanos <= MAX_DURATION_NANOS,
        nanos >= 0 || nanos % (NANOS_PER_SECOND as int) == 0,
    ensures
        spec_parse_duration(spec_duration_text(nanos)) matches Ok((sec, frac)) && sec
            * NANOS_PER_SECOND + frac == nanos,
        duration_text_in_range(spec_duration_text(nanos)),
{
    let sec = if nanos >= 0 {
        nanos / NANOS_PER_SECOND as int
    } else {
        -((-nanos) / NANOS_PER_SECOND as int)
    };
    let rest = nanos - sec * NANOS_PER_SECOND;
    assert(0 <= rest < NANOS_PER_SECOND) by {
        if nanos < 0 {
            assert((-nanos) % (NANOS_PER_SECOND as int) == 0);
        }
    }
    assert(-MAX_DURATION_SECONDS <= sec <= MAX_DURATION_SECONDS);
    lemma_seconds_text(sec);
    lemma_fraction_text(rest as nat);
    let a = signed_decimal(sec);
    let f = pad_zeros(decimal(rest as nat), 9);
    let text = spec_duration_text(nanos);
    assert(text == a + seq!['.'] + f);
    assert forall|j: int| 0 <= j < a.len() implies text[j] != '.' by {
        assert(text[j] == a[j]);
    }
    lemma_first_dot_at(text, 0, a.len() as int);
    assert forall|j: int| a.len() + 1 <= j < text.len() implies text[j] != '.' by {
        assert(text[j] == f[j - a.len() - 1]);
        assert(is_digit(f[j - a.len() - 1]));
    }
    lemma_first_dot_at(text, a.len() as int + 1, text.len() as int);
    assert(text.take(a.len() as int) =~= a);
    assert(text.skip(a.len() as int + 1) =~= f);
    assert(first_dot(text, 0) == a.len());
    assert(first_dot(text, a.len() as int + 1) == text.len());
    assert(spec_parse_i64(text.take(a.len() as int)) == Some(sec));
    assert(spec_parse_u32(text.skip(a.len() as int + 1)) == Some(rest));
    assert(text.skip(a.len() as int + 1).len() == 9);
    assert(pow10(0) == 1);
    assert(text.len() == a.len() + 10);
    assert(rest * pow10(0) == rest);
    assert(spec_parse_duration(text) == Ok::<(int, int), DurationParseError>((sec, rest)));
}

} // verus!
