use vstd::prelude::*;
use vstd::string::*;

verus! {

/// The character of the decimal digit `d`.
pub open spec fn digit_char(d: nat) -> char
    recommends
        d < 10,
{
    ((48 + d) as u8) as char
}

/// The decimal digits of `n`, most significant first, with no leading zero;
/// zero is the single digit `0`.
pub open spec fn dec_digits(n: nat) -> Seq<char>
    decreases n,
{
    if n < 10 {
        seq![digit_char(n)]
    } else {
        dec_digits(n / 10).push(digit_char(n % 10))
    }
}

/// The canonical lexical form of the integer `n`: a minus sign if it is
/// negative, then the decimal digits of its magnitude.
pub open spec fn int_text(n: int) -> Seq<char> {
    if n < 0 {
        seq!['-'] + dec_digits((-n) as nat)
    } else {
        dec_digits(n as nat)
    }
}

/// Whether `s` is the canonical lexical form of a 64-bit integer.
pub open spec fn is_canonical_integer(s: Seq<char>) -> bool {
    exists|n: i64| #[trigger] int_text(n as int) == s
}

/// The number that a string of decimal digits stands for.
pub open spec fn digits_value(s: Seq<char>) -> nat
    decreases s.len(),
{
    if s.len() == 0 {
        0
    } else {
        (digits_value(s.drop_last()) * 10 + (s.last() as u32 - 48)) as nat
    }
}

/// Whether `c` is a decimal digit.
pub open spec fn is_digit(c: char) -> bool {
    '0' <= c <= '9'
}

/// The power `10^k`.
pub open spec fn pow10(k: nat) -> nat
    decreases k,
{
    if k == 0 {
        1
    } else {
        10 * pow10((k - 1) as nat)
    }
}

proof fn lemma_dec_digits(n: nat)
    ensures
        dec_digits(n).len() >= 1,
        forall|i: int| 0 <= i < dec_digits(n).len() ==> is_digit(#[trigger] dec_digits(n)[i]),
        digits_value(dec_digits(n)) == n,
    decreases n,
{
    if n < 10 {
        let s = dec_digits(n);
        assert(s.drop_last() =~= Seq::<char>::empty());
        assert(digits_value(s.drop_last()) == 0);
    } else {
        lemma_dec_digits(n / 10);
        let head = dec_digits(n / 10);
        let s = dec_digits(n);
        assert(s.drop_last() =~= head);
        assert(s.last() == digit_char(n % 10));
        assert forall|i: int| 0 <= i < s.len() implies is_digit(#[trigger] s[i]) by {
            if i < head.len() {
                assert(s[i] == head[i]);
            }
        }
    }
}

proof fn lemma_dec_digits_len(n: nat, k: nat)
    requires
        k >= 1,
        n < pow10(k),
    ensures
        dec_digits(n).len() <= k,
    decreases n,
{
    if n >= 10 {
        assert(pow10(1) == 10) by {
            reveal_with_fuel(pow10, 2);
        }
        assert(k >= 2);
        lemma_dec_digits_len(n / 10, (k - 1) as nat);
    }
}

/// A string of `k` decimal digits stands for a number below `10^k`.
pub proof fn lemma_digits_value_bound(s: Seq<char>)
    requires
        forall|i: int| 0 <= i < s.len() ==> is_digit(#[trigger] s[i]),
    ensures
        digits_value(s) < pow10(s.len()),
    decreases s.len(),
{
    if s.len() > 0 {
        let head = s.drop_last();
        assert forall|i: int| 0 <= i < head.len() implies is_digit(#[trigger] head[i]) by {
            assert(head[i] == s[i]);
        }
        lemma_digits_value_bound(head);
        assert(is_digit(s.last()));
    }
}

/// What the canonical form of a 64-bit integer looks like: an optional minus
/// sign, then between 1 and 19 digits that stand for its magnitude.
proof fn lemma_canonical_shape(n: i64)
    ensures
        ({
            let s = int_text(n as int);
            let start: int = if n < 0 { 1 } else { 0 };
            let magnitude: nat = if n < 0 { (-n) as nat } else { n as nat };
            &&& start < s.len() <= start + 19
            &&& (s[0] == '-') == (n < 0)
            &&& forall|i: int| start <= i < s.len() ==> is_digit(#[trigger] s[i])
            &&& s.subrange(start, s.len() as int) == dec_digits(magnitude)
            &&& digits_value(s.subrange(start, s.len() as int)) == magnitude
        }),
{
    let s = int_text(n as int);
    let magnitude: nat = if n < 0 { (-n) as nat } else { n as nat };
    let digits = dec_digits(magnitude);
    lemma_dec_digits(magnitude);
    assert(pow10(19) == 10_000_000_000_000_000_000nat) by {
        reveal_with_fuel(pow10, 20);
    }
    lemma_dec_digits_len(magnitude, 19);
    if n < 0 {
        assert(s.subrange(1, s.len() as int) =~= digits);
        assert forall|i: int| 1 <= i < s.len() implies is_digit(#[trigger] s[i]) by {
            assert(s[i] == digits[i - 1]);
        }
    } else {
        assert(s.subrange(0, s.len() as int) =~= digits);
        assert(is_digit(s[0]));
    }
}

/// Two integers with the same canonical form are equal.
pub proof fn lemma_int_text_injective(a: i64, b: i64)
    requires
        int_text(a as int) == int_text(b as int),
    ensures
        a == b,
{
    lemma_canonical_shape(a);
    lemma_canonical_shape(b);
}

/// The text of one decimal digit, through a string literal.
fn digit_text(d: u64) -> (text: &'static str)
    requires
        d < 10,
    ensures
        text@ == seq![digit_char(d as nat)],
{
    proof {
        reveal_strlit("0");
        reveal_strlit("1");
        reveal_strlit("2");
        reveal_strlit("3");
        reveal_strlit("4");
        reveal_strlit("5");
        reveal_strlit("6");
        reveal_strlit("7");
        reveal_strlit("8");
        reveal_strlit("9");
    }
    let text = if d == 0 {
        "0"
    } else if d == 1 {
        "1"
    } else if d == 2 {
        "2"
    } else if d == 3 {
        "3"
    } else if d == 4 {
        "4"
    } else if d == 5 {
        "5"
    } else if d == 6 {
        "6"
    } else if d == 7 {
        "7"
    } else if d == 8 {
        "8"
    } else {
        "9"
    };
    assert(text@ =~= seq![digit_char(d as nat)]);
    text
}

pub fn append_digits(text: &mut String, n: u64)
    ensures
        final(text)@ == old(text)@ + dec_digits(n as nat),
    decreases n,
{
    if n >= 10 {
        append_digits(text, n / 10);
    }
    text.append(digit_text(n % 10));
    assert(text@ =~= old(text)@ + dec_digits(n as nat));
}

/// The magnitude of an integer.
pub open spec fn magnitude(n: int) -> nat {
    if n < 0 {
        (-n) as nat
    } else {
        n as nat
    }
}

/// The first digits after the point of `r / b`, for `r` below `b`: at most
/// `k` of them, and none after the digit with which the division ends.
pub open spec fn fraction_digits(r: nat, b: nat, k: nat) -> Seq<char>
    decreases k,
{
    if k == 0 || r == 0 || b == 0 {
        Seq::empty()
    } else {
        seq![digit_char((r * 10) / b)] + fraction_digits((r * 10) % b, b, (k - 1) as nat)
    }
}

/// The lexical form of the decimal number `n / d`, for `d` other than
/// zero: a minus sign where it is negative, the digits of its whole part,
/// a point, and the digits after the point, cut off after the twentieth;
/// `0` stands after the point where the division leaves no rest.
pub open spec fn decimal_text(n: int, d: int) -> Seq<char> {
    let a = magnitude(n);
    let b = magnitude(d);
    let sign = if n != 0 && ((n < 0) != (d < 0)) {
        seq!['-']
    } else {
        Seq::empty()
    };
    sign + dec_digits(a / b) + seq!['.'] + (if a % b == 0 {
        seq!['0']
    } else {
        fraction_digits(a % b, b, 20)
    })
}

/// The magnitude of a 64-bit integer.
fn magnitude_of(n: i64) -> (m: u64)
    ensures
        m == magnitude(n as int),
{
    if n < 0 {
        ((-(n + 1)) as u64) + 1
    } else {
        n as u64
    }
}

/// The lexical form of the decimal number `n / d`.
pub fn decimal_of(n: i64, d: i64) -> (text: String)
    requires
        d != 0,
    ensures
        text@ == decimal_text(n as int, d as int),
{
    let a = magnitude_of(n);
    let b = magnitude_of(d);
    let mut text = String::new();
    if n != 0 && ((n < 0) != (d < 0)) {
        proof {
            reveal_strlit("-");
        }
        text.append("-");
    }
    append_digits(&mut text, a / b);
    proof {
        reveal_strlit(".");
        reveal_strlit("0");
    }
    text.append(".");
    let rest = a % b;
    if rest == 0 {
        text.append("0");
        assert(text@ =~= decimal_text(n as int, d as int));
    } else {
        let ghost head = text@;
        let mut r: u64 = rest;
        let mut k: u8 = 20;
        assert(head + fraction_digits(rest as nat, b as nat, 20) =~= decimal_text(
            n as int,
            d as int,
        ));
        while k > 0 && r != 0
            invariant
                b > 0,
                r < b,
                text@ + fraction_digits(r as nat, b as nat, k as nat) == decimal_text(
                    n as int,
                    d as int,
                ),
            decreases k,
        {
            let ghost before = text@;
            let scaled: u128 = (r as u128) * 10;
            let wide: u128 = b as u128;
            assert(scaled / wide < 10) by (nonlinear_arith)
                requires
                    scaled < wide * 10,
                    wide > 0,
            ;
            let digit: u64 = (scaled / wide) as u64;
            let next: u64 = (scaled % wide) as u64;
            text.append(digit_text(digit));
            assert(before + fraction_digits(r as nat, b as nat, k as nat) =~= text@
                + fraction_digits(next as nat, b as nat, (k - 1) as nat));
            r = next;
            k = k - 1;
        }
    }
    text
}

/// The canonical lexical form of `n`.
pub fn integer_text(n: i64) -> (text: String)
    ensures
        text@ == int_text(n as int),
{
    let mut text = String::new();
    if n < 0 {
        proof {
            reveal_strlit("-");
        }
        text.append("-");
        let magnitude: u64 = ((-(n + 1)) as u64) + 1;
        append_digits(&mut text, magnitude);
        assert(text@ =~= int_text(n as int));
    } else {
        append_digits(&mut text, n as u64);
        assert(text@ =~= int_text(n as int));
    }
    text
}

/// Reads `s` as a 64-bit integer in canonical form: `Some(n)` exactly when
/// `s` is the canonical form of `n`, `None` for every other string (one with
/// a plus sign, a leading zero, `-0`, a stray character, or out of range).
pub fn parse_canonical_integer(s: &str) -> (parsed: Option<i64>)
    ensures
        parsed is Some <==> is_canonical_integer(s@),
        parsed matches Some(n) ==> int_text(n as int) == s@,
{
    let len = s.unicode_len();
    if len == 0 || len > 20 {
        proof {
            assert forall|n: i64| #[trigger] int_text(n as int) != s@ by {
                lemma_canonical_shape(n);
            }
        }
        return None;
    }
    let negative = s.get_char(0) == '-';
    let start: usize = if negative { 1 } else { 0 };
    if len - start == 0 || len - start > 19 {
        proof {
            assert forall|n: i64| #[trigger] int_text(n as int) != s@ by {
                lemma_canonical_shape(n);
            }
        }
        return None;
    }
    let mut value: u64 = 0;
    let mut i: usize = start;
    proof {
        assert(pow10(19) == 10_000_000_000_000_000_000nat) by {
            reveal_with_fuel(pow10, 20);
        }
        assert(s@.subrange(start as int, start as int) =~= Seq::<char>::empty());
    }
    while i < len
        invariant
            start <= i <= len,
            len == s@.len(),
            len - start <= 19,
            start == (if s@[0] == '-' { 1int } else { 0int }),
            forall|j: int| start <= j < i ==> is_digit(#[trigger] s@[j]),
            value == digits_value(s@.subrange(start as int, i as int)),
        decreases len - i,
    {
        let c = s.get_char(i);
        if c < '0' || c > '9' {
            proof {
                assert forall|n: i64| #[trigger] int_text(n as int) != s@ by {
                    lemma_canonical_shape(n);
                    if int_text(n as int) == s@ {
                        assert(is_digit(s@[i as int]));
                    }
                }
            }
            return None;
        }
        proof {
            let prefix = s@.subrange(start as int, i as int);
            let next = s@.subrange(start as int, i + 1);
            assert(next.drop_last() =~= prefix);
            assert(next.last() == c);
            assert forall|j: int| 0 <= j < prefix.len() implies is_digit(#[trigger] prefix[j]) by {
                assert(prefix[j] == s@[start + j]);
            }
            lemma_digits_value_bound(prefix);
            lemma_pow10_monotone(prefix.len(), 18);
            assert(pow10(18) == 1_000_000_000_000_000_000nat) by {
                reveal_with_fuel(pow10, 19);
            }
        }
        value = value * 10 + ((c as u32 - 48) as u64);
        i = i + 1;
    }
    let ghost digits = s@.subrange(start as int, len as int);
    let candidate: i64 = if negative {
        if value > 9223372036854775808 {
            proof {
                assert forall|n: i64| #[trigger] int_text(n as int) != s@ by {
                    lemma_canonical_shape(n);
                }
            }
            return None;
        } else if value == 9223372036854775808 {
            -9223372036854775808
        } else {
            -(value as i64)
        }
    } else {
        if value > 9223372036854775807 {
            proof {
                assert forall|n: i64| #[trigger] int_text(n as int) != s@ by {
                    lemma_canonical_shape(n);
                }
            }
            return None;
        }
        value as i64
    };
    let text = integer_text(candidate);
    let given = s.to_owned();
    if text == given {
        assert(int_text(candidate as int) == s@);
        Some(candidate)
    } else {
        proof {
            assert forall|n: i64| #[trigger] int_text(n as int) != s@ by {
                lemma_canonical_shape(n);
                if int_text(n as int) == s@ {
                    assert(n == candidate);
                }
            }
        }
        None
    }
}

/// Powers of ten grow with their exponent.
pub proof fn lemma_pow10_monotone(a: nat, b: nat)
    requires
        a <= b,
    ensures
        pow10(a) <= pow10(b),
    decreases b,
{
    if a < b {
        lemma_pow10_monotone(a, (b - 1) as nat);
    }
}

/// A string whose first character is neither a digit nor a minus sign is the
/// canonical form of no integer.
pub proof fn lemma_not_canonical_letter(s: Seq<char>)
    requires
        s.len() > 0,
        !is_digit(s[0]),
        s[0] != '-',
    ensures
        !is_canonical_integer(s),
{
    assert forall|n: i64| #[trigger] int_text(n as int) != s by {
        lemma_canonical_shape(n);
    }
}

} // verus!
