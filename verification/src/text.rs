//! Rendering of integers and bytes as text.

use vstd::prelude::*;

verus! {

/// The character for one digit below sixteen: `0`..`9`, then `a`..`f`.
pub open spec fn digit_char(d: int) -> char {
    if 0 <= d < 10 {
        ((48 + d) as u8) as char
    } else {
        ((87 + d) as u8) as char
    }
}

/// The digits of `n` in `base`, most significant first. Zero is one digit.
pub open spec fn digits(n: nat, base: nat) -> Seq<char>
    decreases n,
{
    if base < 2 || n < base {
        seq![digit_char(n as int)]
    } else {
        proof {
            assert(n / base < n) by (nonlinear_arith)
                requires
                    2 <= base <= n,
            ;
        }
        digits(n / base, base).push(digit_char((n % base) as int))
    }
}

/// A number has one digit in `base` exactly when its quotient by `base` is
/// zero, and is then its own remainder.
proof fn lemma_quotient_zero(n: nat, base: nat)
    requires
        base >= 2,
    ensures
        n / base == 0 <==> n < base,
        n < base ==> n % base == n,
{
    assert((n / base == 0 <==> n < base) && (n < base ==> n % base == n)) by (nonlinear_arith)
        requires
            base >= 2,
    ;
}

/// Decimal text of a signed integer: a minus sign for negative numbers,
/// then the digits of the magnitude.
pub open spec fn decimal(i: int) -> Seq<char> {
    if i < 0 {
        seq!['-'] + digits((-i) as nat, 10)
    } else {
        digits(i as nat, 10)
    }
}

/// Lowercase hexadecimal text of bytes, two digits for each byte.
pub open spec fn hex_of_bytes(bytes: Seq<u8>) -> Seq<char>
    decreases bytes.len(),
{
    if bytes.len() == 0 {
        Seq::empty()
    } else {
        hex_of_bytes(bytes.drop_last()).push(digit_char(bytes.last() as int / 16)).push(
            digit_char(bytes.last() as int % 16),
        )
    }
}

/// Appends one character to a string.
///
/// Trusted: the body is one call of `String::push`, which puts the
/// character at the end of the string and leaves the rest as it is.
#[verifier::external_body]
pub(crate) fn push_char(text: &mut String, c: char)
    ensures
        final(text)@ == old(text)@.push(c),
{
    text.push(c)
}

/// The character of a digit below sixteen.
pub(crate) fn digit_to_char(d: u8) -> (c: char)
    requires
        d < 16,
    ensures
        c == digit_char(d as int),
{
    if d < 10 {
        (48u8 + d) as char
    } else {
        (87u8 + d) as char
    }
}

/// Appends the digits of `n` in `base` to `out`.
pub(crate) fn push_digits(out: &mut String, n: u64, base: u64)
    requires
        2 <= base <= 16,
    ensures
        final(out)@ == old(out)@ + digits(n as nat, base as nat),
{
    // Digits come out least significant first; collect, then append reversed.
    let mut pending: Vec<char> = Vec::new();
    let mut rest: u64 = n / base;
    pending.push(digit_to_char((n % base) as u8));
    proof {
        lemma_quotient_zero(n as nat, base as nat);
        assert(pending@.reverse() =~= seq![digit_char((n % base) as int)]);
        if rest > 0 {
            assert(digits(n as nat, base as nat) =~= digits(rest as nat, base as nat)
                + pending@.reverse());
        } else {
            assert(digits(n as nat, base as nat) =~= Seq::<char>::empty() + pending@.reverse());
        }
    }
    while rest > 0
        invariant
            2 <= base <= 16,
            pending@.len() > 0,
            digits(n as nat, base as nat) == (if rest > 0 {
                digits(rest as nat, base as nat)
            } else {
                Seq::<char>::empty()
            }) + pending@.reverse(),
        decreases rest,
    {
        let ghost before = pending@;
        pending.push(digit_to_char((rest % base) as u8));
        proof {
            lemma_quotient_zero(rest as nat, base as nat);
            assert(pending@.reverse() =~= seq![digit_char((rest % base) as int)]
                + before.reverse());
            if rest / base > 0 {
                assert(digits(rest as nat, base as nat) =~= digits(
                    (rest / base) as nat,
                    base as nat,
                ) + seq![digit_char((rest % base) as int)]);
            } else {
                assert(digits(rest as nat, base as nat) =~= seq![
                    digit_char((rest % base) as int),
                ]);
            }
        }
        rest = rest / base;
    }
    let mut left: usize = pending.len();
    while left > 0
        invariant
            left <= pending@.len(),
            out@ == old(out)@ + pending@.reverse().subrange(0, pending@.len() - left),
        decreases left,
    {
        left = left - 1;
        push_char(out, pending[left]);
        proof {
            let rev = pending@.reverse();
            let k = pending@.len() - left - 1;
            assert(rev[k] == pending@[left as int]);
            assert(rev.subrange(0, k + 1) =~= rev.subrange(0, k).push(rev[k]));
            assert(out@ =~= old(out)@ + rev.subrange(0, k + 1));
        }
    }
    proof {
        assert(pending@.reverse().subrange(0, pending@.len() as int) =~= pending@.reverse());
    }
}

/// Decimal text of a signed 64-bit integer.
pub fn decimal_string(i: i64) -> (text: String)
    ensures
        text@ == decimal(i as int),
{
    let mut text = String::new();
    if i < 0 {
        push_char(&mut text, '-');
        let magnitude: u64 = if i == i64::MIN {
            9223372036854775808u64
        } else {
            (-i) as u64
        };
        push_digits(&mut text, magnitude, 10);
    } else {
        push_digits(&mut text, i as u64, 10);
    }
    text
}

/// Decimal text of an unsigned 64-bit integer.
pub fn unsigned_string(n: u64) -> (text: String)
    ensures
        text@ == decimal(n as int),
{
    let mut text = String::new();
    push_digits(&mut text, n, 10);
    text
}

/// Lowercase hexadecimal text of a 64-bit number, without leading zeros.
pub fn hex_string(n: u64) -> (text: String)
    ensures
        text@ == digits(n as nat, 16),
{
    let mut text = String::new();
    push_digits(&mut text, n, 16);
    text
}

/// Lowercase hexadecimal text of bytes, two digits for each byte.
pub fn hex_of(bytes: &[u8]) -> (text: String)
    ensures
        text@ == hex_of_bytes(bytes@),
{
    let mut text = String::new();
    let mut i: usize = 0;
    while i < bytes.len()
        invariant
            i <= bytes@.len(),
            text@ == hex_of_bytes(bytes@.subrange(0, i as int)),
        decreases bytes@.len() - i,
    {
        let b: u8 = bytes[i];
        push_char(&mut text, digit_to_char(b / 16));
        push_char(&mut text, digit_to_char(b % 16));
        proof {
            let next = bytes@.subrange(0, i + 1);
            assert(next.drop_last() =~= bytes@.subrange(0, i as int));
            assert(next.last() == b);
        }
        i = i + 1;
    }
    proof {
        assert(bytes@.subrange(0, bytes@.len() as int) =~= bytes@);
    }
    text
}

/// The characters of a string, in order.
pub fn chars_of(s: &str) -> (chars: Vec<char>)
    ensures
        chars@ == s@,
{
    let mut chars: Vec<char> = Vec::new();
    for c in it: s.chars()
        invariant
            it.seq() == s@,
            chars@ == it.seq().take(it.index() as int),
    {
        chars.push(c);
        assert(it.seq().take(it.index() + 1) =~= it.seq().take(it.index() as int).push(c));
    }
    assert(s@.take(s@.len() as int) =~= s@);
    chars
}

/// Whether `c` is a decimal digit.
pub open spec fn is_digit(c: char) -> bool {
    '0' <= c <= '9'
}

/// Whether every character is a decimal digit.
pub open spec fn all_digits(s: Seq<char>) -> bool {
    forall|i: int| 0 <= i < s.len() ==> is_digit(#[trigger] s[i])
}

/// The number that the first `n` characters of `s` spell in decimal.
pub open spec fn number(s: Seq<char>, n: nat) -> nat
    decreases n,
{
    if n == 0 || n > s.len() {
        0
    } else {
        number(s, (n - 1) as nat) * 10 + (s[n - 1] as u32 - 48) as nat
    }
}

/// The number spelled by digits grows with each digit that is added.
pub proof fn lemma_number_grows(s: Seq<char>, k: nat, m: nat)
    requires
        k <= m <= s.len(),
        all_digits(s),
    ensures
        number(s, k) <= number(s, m),
    decreases m,
{
    if k < m {
        lemma_number_grows(s, k, (m - 1) as nat);
        assert(is_digit(s[m - 1]));
    }
}

/// The decimal digits of a number are digits, at least one, and spell the
/// number.
pub proof fn lemma_decimal_digits(n: nat)
    ensures
        digits(n, 10).len() >= 1,
        all_digits(digits(n, 10)),
        number(digits(n, 10), digits(n, 10).len()) == n,
    decreases n,
{
    let text = digits(n, 10);
    if n < 10 {
        assert(text =~= seq![digit_char(n as int)]);
        assert(number(text, 0) == 0);
        assert(number(text, 1) == number(text, 0) * 10 + (text[0] as u32 - 48) as nat);
    } else {
        let front = digits(n / 10, 10);
        lemma_decimal_digits(n / 10);
        assert(text == front.push(digit_char((n % 10) as int)));
        assert forall|i: int| 0 <= i < text.len() implies is_digit(#[trigger] text[i]) by {
            if i < front.len() {
                assert(text[i] == front[i]);
            }
        }
        lemma_number_prefix(front, text, front.len());
    }
}

/// The number spelled by a prefix does not depend on what follows it.
pub proof fn lemma_number_prefix(a: Seq<char>, b: Seq<char>, n: nat)
    requires
        n <= a.len() <= b.len(),
        forall|i: int| 0 <= i < n ==> a[i] == b[i],
    ensures
        number(a, n) == number(b, n),
    decreases n,
{
    if n > 0 {
        lemma_number_prefix(a, b, (n - 1) as nat);
    }
}

/// The signed 64-bit integer that a text spells in decimal: digits, at
/// least one, after an optional minus sign, with a value in range.
pub open spec fn signed(s: Seq<char>) -> Option<i64> {
    if s.len() > 0 && s[0] == '-' {
        signed_digits(s.drop_first(), true)
    } else {
        signed_digits(s, false)
    }
}

/// The signed 64-bit integer that digits spell with the given sign.
pub open spec fn signed_digits(body: Seq<char>, negative: bool) -> Option<i64> {
    if body.len() > 0 && all_digits(body) {
        let value = if negative {
            -(number(body, body.len()) as int)
        } else {
            number(body, body.len()) as int
        };
        if i64::MIN <= value <= i64::MAX {
            Some(value as i64)
        } else {
            None
        }
    } else {
        None
    }
}

/// The signed 64-bit integer that a text spells in decimal.
pub fn parse_signed(text: &str) -> (r: Option<i64>)
    ensures
        r == signed(text@),
{
    let chars = chars_of(text);
    let n = chars.len();
    let negative = n > 0 && chars[0] == '-';
    let first: usize = if negative {
        1
    } else {
        0
    };
    let ghost body = chars@.subrange(first as int, n as int);
    proof {
        if negative {
            assert(body =~= chars@.drop_first());
        } else {
            assert(body =~= chars@);
        }
    }
    if first == n {
        return None;
    }
    let mut value: u64 = 0;
    let mut i: usize = first;
    while i < n
        invariant
            first <= i <= n,
            n == chars@.len(),
            body == chars@.subrange(first as int, n as int),
            signed(text@) == signed_digits(body, negative),
            forall|k: int| 0 <= k < i - first ==> is_digit(#[trigger] body[k]),
            value == number(body, (i - first) as nat),
            value <= 0x8000_0000_0000_0000,
        decreases n - i,
    {
        let c = chars[i];
        assert(body[i - first] == c);
        if !('0' <= c && c <= '9') {
            assert(!is_digit(body[i - first]));
            return None;
        }
        let digit: u64 = (c as u32 - 48) as u64;
        let next = match value.checked_mul(10) {
            Some(tens) => tens.checked_add(digit),
            None => None,
        };
        let grown = match next {
            Some(v) => if v <= 0x8000_0000_0000_0000 {
                Some(v)
            } else {
                None
            },
            None => None,
        };
        match grown {
            Some(v) => {
                value = v;
            },
            None => {
                proof {
                    assert(number(body, (i - first + 1) as nat) == value * 10 + digit);
                    if all_digits(body) {
                        lemma_number_grows(body, (i - first + 1) as nat, body.len());
                    }
                }
                return None;
            },
        }
        i = i + 1;
    }
    if negative {
        if value == 0x8000_0000_0000_0000 {
            Some(i64::MIN)
        } else {
            Some(-(value as i64))
        }
    } else if value <= 0x7fff_ffff_ffff_ffff {
        Some(value as i64)
    } else {
        None
    }
}

/// The decimal text of a signed 64-bit integer spells that integer.
pub proof fn lemma_signed_decimal(i: i64)
    ensures
        signed(decimal(i as int)) == Some(i),
{
    let magnitude: nat = if i < 0 {
        (-(i as int)) as nat
    } else {
        i as nat
    };
    lemma_decimal_digits(magnitude);
    let body = digits(magnitude, 10);
    if i < 0 {
        assert(decimal(i as int).drop_first() =~= body);
        assert(decimal(i as int)[0] == '-');
    } else {
        assert(is_digit(body[0]));
    }
}

} // verus!
