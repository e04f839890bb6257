//! Decimal and boolean string codecs.
//!
//! The configuration store keeps every value as a string; the typed
//! accessors go through these functions.  Both directions are written
//! against one spec-level grammar, so the round trip can be proved.

use vstd::prelude::*;

verus! {

/// The character for one decimal digit.
pub open spec fn digit_char(d: int) -> char {
    if d == 0 {
        '0'
    } else if d == 1 {
        '1'
    } else if d == 2 {
        '2'
    } else if d == 3 {
        '3'
    } else if d == 4 {
        '4'
    } else if d == 5 {
        '5'
    } else if d == 6 {
        '6'
    } else if d == 7 {
        '7'
    } else if d == 8 {
        '8'
    } else {
        '9'
    }
}

/// Whether a character is a decimal digit.
pub open spec fn is_digit(c: char) -> bool {
    '0' <= c && c <= '9'
}

/// The numeric value of a decimal digit character.
pub open spec fn digit_val(c: char) -> int {
    (c as int) - ('0' as int)
}

/// The decimal digit string of a natural number, most significant first.
pub open spec fn dec_digits(n: nat) -> Seq<char>
    decreases n,
{
    if n < 10 {
        seq![digit_char(n as int)]
    } else {
        dec_digits(n / 10).push(digit_char((n % 10) as int))
    }
}

/// The canonical string form of a signed integer.
pub open spec fn spec_i64_string(v: int) -> Seq<char> {
    if v >= 0 {
        dec_digits(v as nat)
    } else {
        seq!['-'] + dec_digits((-v) as nat)
    }
}

/// The value denoted by a digit string, most significant first.
pub open spec fn val_of_digits(s: Seq<char>) -> int
    decreases s.len(),
{
    if s.len() == 0 {
        0
    } else {
        val_of_digits(s.drop_last()) * 10 + digit_val(s.last())
    }
}

/// Whether every character of a string is a decimal digit.
pub open spec fn all_digits(s: Seq<char>) -> bool {
    forall|i: int| 0 <= i < s.len() ==> is_digit(#[trigger] s[i])
}

/// The signed integer denoted by a string: an optional sign, then at
/// least one digit, and the value must fit in an `i64`.
pub open spec fn spec_parse_i64(s: Seq<char>) -> Option<i64> {
    let neg = s.len() > 0 && s[0] == '-';
    let body = if s.len() > 0 && (s[0] == '-' || s[0] == '+') {
        s.drop_first()
    } else {
        s
    };
    if body.len() == 0 || !all_digits(body) {
        None
    } else {
        let v = val_of_digits(body);
        if neg {
            if -v >= i64::MIN {
                Some((-v) as i64)
            } else {
                None
            }
        } else {
            if v <= i64::MAX {
                Some(v as i64)
            } else {
                None
            }
        }
    }
}

/// The boolean denoted by a string: exactly "true" or "false".
pub open spec fn spec_parse_bool(s: Seq<char>) -> Option<bool> {
    if s == "true"@ {
        Some(true)
    } else if s == "false"@ {
        Some(false)
    } else {
        None
    }
}

/// A digit string denotes a non-negative value.
proof fn lemma_val_nonneg(s: Seq<char>)
    requires
        all_digits(s),
    ensures
        val_of_digits(s) >= 0,
    decreases s.len(),
{
    if s.len() > 0 {
        lemma_val_nonneg(s.drop_last());
        assert(is_digit(s[s.len() - 1]));
    }
}

/// The digit string of a natural number is non-empty, made of digits,
/// and denotes that number.
pub proof fn lemma_dec_digits_val(n: nat)
    ensures
        dec_digits(n).len() > 0,
        all_digits(dec_digits(n)),
        val_of_digits(dec_digits(n)) == n,
    decreases n,
{
    if n < 10 {
        let s = dec_digits(n);
        assert(s =~= seq![digit_char(n as int)]);
        assert(s.drop_last() =~= Seq::<char>::empty());
        assert(val_of_digits(s.drop_last()) == 0);
        assert(s.last() == digit_char(n as int));
        assert(digit_val(digit_char(n as int)) == n);
        assert(val_of_digits(s) == n);
    } else {
        lemma_dec_digits_val(n / 10);
        let d = dec_digits(n / 10);
        let whole = d.push(digit_char((n % 10) as int));
        assert(whole.drop_last() =~= d);
        assert(val_of_digits(whole) == val_of_digits(d) * 10 + (n % 10));
        vstd::arithmetic::div_mod::lemma_fundamental_div_mod(n as int, 10);
    }
}

/// Parsing inverts formatting: the canonical string of any `i64`
/// parses back to the same value.
pub proof fn lemma_i64_round_trip(v: i64)
    ensures
        spec_parse_i64(spec_i64_string(v as int)) == Some(v),
{
    if v >= 0 {
        lemma_dec_digits_val(v as nat);
        let s = dec_digits(v as nat);
        assert(s[0] != '-' && s[0] != '+');
        assert(spec_parse_i64(s) == Some(v));
    } else {
        lemma_dec_digits_val((-(v as int)) as nat);
        let d = dec_digits((-(v as int)) as nat);
        let s = seq!['-'] + d;
        assert(s[0] == '-');
        assert(s.drop_first() =~= d);
        assert(spec_parse_i64(s) == Some(v));
    }
}

/// The canonical string of a digit, used when formatting numbers.
fn digit_str(d: u64) -> (r: &'static str)
    requires
        d < 10,
    ensures
        r@ =~= seq![digit_char(d as int)],
{
    proof {
        reveal_strlit("0");
        reveal_strlit("1");
        reveal_strlit("2");
        reveal_strlit("3");
        reveal_strlit("4");
        reveal_strlit("5");
        reveal_strlit("6");
        reveal_strlit("7");
        reveal_strlit("8");
        reveal_strlit("9");
    }
    if d == 0 {
        "0"
    } else if d == 1 {
        "1"
    } else if d == 2 {
        "2"
    } else if d == 3 {
        "3"
    } else if d == 4 {
        "4"
    } else if d == 5 {
        "5"
    } else if d == 6 {
        "6"
    } else if d == 7 {
        "7"
    } else if d == 8 {
        "8"
    } else {
        "9"
    }
}

/// Format an unsigned integer in decimal.
pub fn u64_to_string(n: u64) -> (r: String)
    ensures
        r@ == dec_digits(n as nat),
    decreases n,
{
    if n < 10 {
        digit_str(n).to_owned()
    } else {
        let mut s = u64_to_string(n / 10);
        s.append(digit_str(n % 10));
        proof {
            assert(s@ =~= dec_digits((n / 10) as nat) + seq![digit_char((n % 10) as int)]);
            assert(dec_digits(n as nat) =~= dec_digits((n / 10) as nat).push(
                digit_char((n % 10) as int),
            ));
            assert(s@ =~= dec_digits(n as nat));
        }
        s
    }
}

/// Format a signed integer in decimal, with a leading minus sign when
/// the value is negative.
pub fn i64_to_string(v: i64) -> (r: String)
    ensures
        r@ == spec_i64_string(v as int),
{
    if v >= 0 {
        u64_to_string(v as u64)
    } else {
        proof {
            reveal_strlit("-");
        }
        let mut s = String::from_str("-");
        let mag: u64 = if v == i64::MIN {
            9223372036854775808u64
        } else {
            (-v) as u64
        };
        let digits = u64_to_string(mag);
        s.append(digits.as_str());
        proof {
            assert(s@ =~= seq!['-'] + dec_digits((-(v as int)) as nat));
        }
        s
    }
}

/// Format a boolean as "true" or "false".
pub fn bool_to_string(b: bool) -> (r: String)
    ensures
        b ==> r@ == "true"@,
        !b ==> r@ == "false"@,
{
    if b {
        String::from_str("true")
    } else {
        String::from_str("false")
    }
}

/// Once a digit prefix is already past the limit, the whole string is.
proof fn lemma_val_prefix_exceeds(s: Seq<char>, i: int, limit: int)
    requires
        all_digits(s),
        0 <= i <= s.len(),
        limit >= 0,
        val_of_digits(s.take(i)) > limit,
    ensures
        val_of_digits(s) > limit,
    decreases s.len() - i,
{
    if i == s.len() {
        assert(s.take(i) =~= s);
    } else {
        let t = s.take(i + 1);
        assert(t.drop_last() =~= s.take(i));
        assert(is_digit(s[i]));
        assert(t.last() == s[i]);
        lemma_val_nonneg(s.take(i));
        assert(val_of_digits(t) == val_of_digits(s.take(i)) * 10 + digit_val(s[i]));
        assert(val_of_digits(s.take(i)) * 10 >= val_of_digits(s.take(i))) by (nonlinear_arith)
            requires
                val_of_digits(s.take(i)) >= 0,
        ;
        lemma_val_prefix_exceeds(s, i + 1, limit);
    }
}

/// Parse a signed decimal integer; `None` on an empty body, a stray
/// character, or a value outside the `i64` range.
pub fn parse_i64(s: &str) -> (r: Option<i64>)
    ensures
        r == spec_parse_i64(s@),
{
    let n = s.unicode_len();
    if n == 0 {
        return None;
    }
    let first = s.get_char(0);
    let neg = first == '-';
    let start: usize = if first == '-' || first == '+' {
        1
    } else {
        0
    };
    let ghost body = if start == 1 {
        s@.drop_first()
    } else {
        s@
    };
    if n == start {
        proof {
            assert(body.len() == 0);
        }
        return None;
    }
    let limit: u64 = if neg {
        9223372036854775808u64
    } else {
        9223372036854775807u64
    };
    let mut acc: u64 = 0;
    let mut i: usize = start;
    while i < n
        invariant
            start <= i <= n,
            n == s@.len(),
            start == 0 || start == 1,
            start == 1 ==> s@.len() > 0 && (s@[0] == '-' || s@[0] == '+'),
            start == 0 ==> s@.len() > 0 && s@[0] != '-' && s@[0] != '+',
            neg == (s@[0] == '-'),
            body == if start == 1 {
                s@.drop_first()
            } else {
                s@
            },
            limit == if neg {
                9223372036854775808u64
            } else {
                9223372036854775807u64
            },
            all_digits(body.take(i - start)),
            acc == val_of_digits(body.take(i - start)),
            acc <= limit,
        decreases n - i,
    {
        let c = s.get_char(i);
        if !('0' <= c && c <= '9') {
            proof {
                assert(body[i - start] == c);
            }
            return None;
        }
        let d: u64 = (c as u32 as u64) - 48;
        proof {
            assert(d == digit_val(c));
            assert(d < 10);
        }
        if acc > (limit - d) / 10 {
            // The accumulated prefix alone already exceeds the range.
            proof {
                let p = body.take(i - start);
                assert(acc * 10 + d > limit) by (nonlinear_arith)
                    requires
                        acc > (limit - d) / 10,
                        d < 10,
                        d <= limit,
                        limit == (limit - d) / 10 * 10 + (limit - d) % 10 + d,
                        (limit - d) % 10 < 10,
                ;
                let t = body.take(i - start + 1);
                assert(t.drop_last() =~= p);
                assert(t.last() == body[i - start]);
                assert(body[i - start] == c);
                assert(val_of_digits(t) == acc * 10 + d);
                if all_digits(body) {
                    lemma_val_prefix_exceeds(body, i - start + 1, limit as int);
                    assert(val_of_digits(body) > limit);
                }
            }
            return None;
        }
        proof {
            assert(acc * 10 + d <= limit) by (nonlinear_arith)
                requires
                    acc <= (limit - d) / 10,
                    d < 10,
                    d <= limit,
                    limit - d == (limit - d) / 10 * 10 + (limit - d) % 10,
                    (limit - d) % 10 >= 0,
            ;
            let p = body.take(i - start);
            let t = body.take(i - start + 1);
            assert(t.drop_last() =~= p);
            assert(t.last() == body[i - start]);
            assert(body[i - start] == c);
        }
        acc = acc * 10 + d;
        i = i + 1;
    }
    proof {
        assert(body.take(n - start) =~= body);
        vstd::arithmetic::div_mod::lemma_fundamental_div_mod(limit - 0, 10);
    }
    if neg {
        if acc == 9223372036854775808u64 {
            Some(i64::MIN)
        } else {
            Some(-(acc as i64))
        }
    } else {
        Some(acc as i64)
    }
}

/// Parse a boolean: exactly "true" or "false".
pub fn parse_bool(s: &str) -> (r: Option<bool>)
    ensures
        r == spec_parse_bool(s@),
{
    proof {
        reveal_strlit("true");
        reveal_strlit("false");
    }
    let n = s.unicode_len();
    if n == 4 && s.get_char(0) == 't' && s.get_char(1) == 'r' && s.get_char(2) == 'u'
        && s.get_char(3) == 'e' {
        proof {
            assert(s@ =~= "true"@);
        }
        Some(true)
    } else if n == 5 && s.get_char(0) == 'f' && s.get_char(1) == 'a' && s.get_char(2) == 'l'
        && s.get_char(3) == 's' && s.get_char(4) == 'e' {
        proof {
            assert(s@ =~= "false"@);
        }
        Some(false)
    } else {
        proof {
            if s@ == "true"@ {
                assert(s@.len() == 4);
                assert(s@[0] == 't' && s@[1] == 'r' && s@[2] == 'u' && s@[3] == 'e');
            }
            if s@ == "false"@ {
                assert(s@.len() == 5);
                assert(s@[0] == 'f' && s@[1] == 'a' && s@[2] == 'l' && s@[3] == 's' && s@[4]
                    == 'e');
            }
        }
        None
    }
}

} // verus!

