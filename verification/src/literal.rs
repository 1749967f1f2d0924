//! The grammar of numeric literals.
//!
//! The text of a number is read as a floating-point literal when an expression is
//! evaluated. The grammar is the one of the standard library's `f64::from_str`:
//!
//! ```text
//! Float  ::= Sign? ( 'inf' | 'infinity' | 'nan' | Number )
//! Number ::= ( Digit+ | Digit+ '.' Digit* | Digit* '.' Digit+ ) Exp?
//! Exp    ::= 'e' Sign? Digit+
//! Sign   ::= [+-]
//! Digit  ::= [0-9]
//! ```
//!
//! where letters match in either case.
use vstd::prelude::*;
use vstd::string::StrSliceExecFns;
use crate::text::chars_of;
use crate::token::is_sign;

verus! {

/// `c` is a decimal digit.
pub open spec fn spec_is_digit(c: char) -> bool {
    '0' <= c && c <= '9'
}

/// Tells whether `c` is a decimal digit.
#[verifier::when_used_as_spec(spec_is_digit)]
pub fn is_digit(c: char) -> (yes: bool)
    ensures
        yes == spec_is_digit(c),
{
    '0' <= c && c <= '9'
}

/// The number of digits that `text` starts with.
pub open spec fn digit_run(text: Seq<char>) -> nat
    decreases text.len(),
{
    if text.len() > 0 && is_digit(text[0]) {
        1 + digit_run(text.skip(1))
    } else {
        0
    }
}

/// `text` is `lower` letter by letter, each letter in either case; `upper` is
/// `lower` in capitals.
pub open spec fn spells(text: Seq<char>, lower: Seq<char>, upper: Seq<char>) -> bool {
    &&& text.len() == lower.len()
    &&& forall|k: int| 0 <= k < text.len() ==> text[k] == lower[k] || text[k] == upper[k]
}

/// `body` names an infinity or a NaN.
pub open spec fn special_literal(body: Seq<char>) -> bool {
    ||| spells(body, "inf"@, "INF"@)
    ||| spells(body, "infinity"@, "INFINITY"@)
    ||| spells(body, "nan"@, "NAN"@)
}

/// `rest` is an exponent: `e` or `E`, an optional sign, and one digit or more up to
/// the end.
pub open spec fn exponent_part(rest: Seq<char>) -> bool {
    &&& rest.len() > 0
    &&& rest[0] == 'e' || rest[0] == 'E'
    &&& {
        let digits = if rest.len() > 1 && is_sign(rest[1]) {
            rest.skip(2)
        } else {
            rest.skip(1)
        };
        digits.len() > 0 && digit_run(digits) == digits.len()
    }
}

/// `body` is a decimal number: digits with at most one decimal point among them,
/// at least one digit in all, and possibly an exponent behind them.
pub open spec fn decimal_literal(body: Seq<char>) -> bool {
    let whole = digit_run(body) as int;
    let tail = body.skip(whole);
    let pointed = tail.len() > 0 && tail[0] == '.';
    let fraction = if pointed {
        digit_run(tail.skip(1)) as int
    } else {
        0
    };
    let rest = if pointed {
        tail.skip(1 + fraction)
    } else {
        tail
    };
    whole + fraction > 0 && (rest.len() == 0 || exponent_part(rest))
}

/// `text` is a numeric literal: an optional sign in front of a decimal number, an
/// infinity or a NaN.
pub open spec fn number_literal(text: Seq<char>) -> bool {
    let body = if text.len() > 0 && is_sign(text[0]) {
        text.skip(1)
    } else {
        text
    };
    special_literal(body) || decimal_literal(body)
}

/// The position behind the digits that start at `from`.
fn digits_end(chars: &Vec<char>, from: usize) -> (end: usize)
    requires
        from <= chars.len(),
    ensures
        from <= end <= chars.len(),
        end - from == digit_run(chars@.skip(from as int)),
{
    let mut end: usize = from;
    while end < chars.len() && is_digit(chars[end])
        invariant
            from <= end <= chars.len(),
            digit_run(chars@.skip(from as int)) == (end - from) + digit_run(
                chars@.skip(end as int),
            ),
        decreases chars.len() - end,
    {
        assert(chars@.skip(end as int).skip(1) =~= chars@.skip(end + 1));
        end += 1;
    }
    end
}

/// Tells whether the characters from `from` on spell `lower`, in either case.
fn spells_from(chars: &Vec<char>, from: usize, lower: &str, upper: &str) -> (yes: bool)
    requires
        from <= chars.len(),
        lower@.len() == upper@.len(),
    ensures
        yes == spells(chars@.skip(from as int), lower@, upper@),
{
    let ghost text = chars@.skip(from as int);
    let count = lower.unicode_len();
    if chars.len() - from != count {
        return false;
    }
    let mut k: usize = 0;
    while k < count
        invariant
            k <= count,
            count == lower@.len(),
            count == upper@.len(),
            from + count == chars.len(),
            text == chars@.skip(from as int),
            forall|j: int| 0 <= j < k ==> text[j] == lower@[j] || text[j] == upper@[j],
        decreases count - k,
    {
        let c = chars[from + k];
        assert(c == text[k as int]);
        if c != lower.get_char(k) && c != upper.get_char(k) {
            return false;
        }
        k += 1;
    }
    true
}

/// Tells whether the characters from `from` on name an infinity or a NaN.
fn is_special_from(chars: &Vec<char>, from: usize) -> (yes: bool)
    requires
        from <= chars.len(),
    ensures
        yes == special_literal(chars@.skip(from as int)),
{
    proof {
        reveal_strlit("inf");
        reveal_strlit("INF");
        reveal_strlit("infinity");
        reveal_strlit("INFINITY");
        reveal_strlit("nan");
        reveal_strlit("NAN");
    }
    spells_from(chars, from, "inf", "INF") || spells_from(chars, from, "infinity", "INFINITY")
        || spells_from(chars, from, "nan", "NAN")
}

/// Tells whether the characters from `from` on are an exponent.
fn is_exponent_from(chars: &Vec<char>, from: usize) -> (yes: bool)
    requires
        from <= chars.len(),
    ensures
        yes == exponent_part(chars@.skip(from as int)),
{
    let n = chars.len();
    let ghost rest = chars@.skip(from as int);
    if from == n || (chars[from] != 'e' && chars[from] != 'E') {
        return false;
    }
    let mut first: usize = from + 1;
    if first < n && is_sign(chars[first]) {
        assert(rest[1] == chars[first as int]);
        first = first + 1;
    }
    assert(rest.skip(first - from) =~= chars@.skip(first as int));
    let end = digits_end(chars, first);
    first < n && end == n
}

/// Tells whether the characters from `from` on are a decimal number.
fn is_decimal_from(chars: &Vec<char>, from: usize) -> (yes: bool)
    requires
        from <= chars.len(),
    ensures
        yes == decimal_literal(chars@.skip(from as int)),
{
    let n = chars.len();
    let ghost body = chars@.skip(from as int);
    let whole_end = digits_end(chars, from);
    let ghost tail = body.skip(whole_end - from);
    assert(tail =~= chars@.skip(whole_end as int));
    let mut at: usize = whole_end;
    let mut digits: usize = whole_end - from;
    if at < n && chars[at] == '.' {
        let fraction_end = digits_end(chars, at + 1);
        assert(tail[0] == '.');
        assert(tail.skip(1) =~= chars@.skip(at + 1));
        assert(tail.skip(1 + (fraction_end - (at + 1))) =~= chars@.skip(fraction_end as int));
        digits = digits + (fraction_end - (at + 1));
        at = fraction_end;
    } else {
        assert(tail.len() > 0 ==> tail[0] == chars@[at as int]);
    }
    digits > 0 && (at == n || is_exponent_from(chars, at))
}

/// Tells whether `text` is a numeric literal.
pub fn is_number_literal(text: &str) -> (ok: bool)
    ensures
        ok == number_literal(text@),
{
    let chars = chars_of(text);
    let from: usize = if chars.len() > 0 && is_sign(chars[0]) {
        1
    } else {
        0
    };
    assert(chars@.skip(0) =~= chars@);
    is_special_from(&chars, from) || is_decimal_from(&chars, from)
}

} // verus!
