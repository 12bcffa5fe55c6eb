//! Normalization of one CSV record into a fixed-point `(seconds, millis)`
//! pair: timestamp resolution auto-detection and decimal-to-fixed-point
//! price conversion.

use vstd::prelude::*;
use vstd::string::StrSliceExecFns;
use crate::entry::SolanaPriceEntry;

verus! {

/// Field-level failure while normalizing one record; carries the exact
/// substring whose integer parse failed.
#[derive(Debug, PartialEq, Eq)]
pub enum ParseFieldError {
    Timestamp { text: String },
    Price { text: String },
}

pub open spec fn is_digit(c: char) -> bool {
    48 <= c as u32 && c as u32 <= 57
}

pub open spec fn digit_val(c: char) -> nat {
    (c as u32 - 48) as nat
}

pub open spec fn all_digits(s: Seq<char>) -> bool {
    forall|i: int| 0 <= i < s.len() ==> is_digit(#[trigger] s[i])
}

/// Value of a decimal digit string, most significant digit first.
pub open spec fn str_val(s: Seq<char>) -> nat
    decreases s.len(),
{
    if s.len() == 0 {
        0
    } else {
        str_val(s.drop_last()) * 10 + digit_val(s.last())
    }
}

/// The digits of `s` once an optional single leading `+` sign is removed.
pub open spec fn digits_part(s: Seq<char>) -> Seq<char> {
    if s.len() > 0 && s[0] == '+' {
        s.skip(1)
    } else {
        s
    }
}

/// What parsing `s` as a `u32` yields: an optional `+` sign, then at least
/// one decimal digit, and a value within range.
pub open spec fn parse_u32_spec(s: Seq<char>) -> Option<u32> {
    let body = digits_part(s);
    if body.len() > 0 && all_digits(body) && str_val(body) <= u32::MAX {
        Some(str_val(body) as u32)
    } else {
        None
    }
}

/// The value of any prefix of a digit string never exceeds the whole.
proof fn lemma_str_val_prefix_le(s: Seq<char>, i: int)
    requires
        0 <= i <= s.len(),
    ensures
        str_val(s.take(i)) <= str_val(s),
    decreases s.len(),
{
    if i < s.len() {
        assert(s.drop_last().take(i) =~= s.take(i));
        lemma_str_val_prefix_le(s.drop_last(), i);
    } else {
        assert(s.take(i) =~= s);
    }
}

/// Parses a decimal string as an unsigned 32-bit integer: `None` exactly
/// when the string is empty, holds a non-digit past an optional leading
/// `+`, or overflows.
pub fn parse_u32(s: &str) -> (r: Option<u32>)
    ensures
        r == parse_u32_spec(s@),
{
    let n: usize = s.unicode_len();
    let start: usize = if n > 0 && s.get_char(0) == '+' {
        1
    } else {
        0
    };
    let ghost body = digits_part(s@);
    assert(body =~= s@.skip(start as int));
    if n == start {
        return None;
    }
    let mut acc: u64 = 0;
    let mut i: usize = start;
    while i < n
        invariant
            start <= i <= n,
            n == s@.len(),
            body == digits_part(s@),
            body == s@.skip(start as int),
            acc == str_val(body.take(i - start)),
            acc <= u32::MAX,
            all_digits(body.take(i - start)),
        decreases n - i,
    {
        let c = s.get_char(i);
        let cv: u32 = c as u32;
        proof {
            assert(body[i - start] == s@[i as int]);
        }
        if cv < 48 || cv > 57 {
            assert(!is_digit(body[i - start]));
            return None;
        }
        let d: u64 = (cv - 48) as u64;
        proof {
            assert(body.take(i - start + 1).drop_last() =~= body.take(i - start));
            assert(body.take(i - start + 1).last() == body[i - start]);
        }
        let next: u64 = acc * 10 + d;
        assert(next == str_val(body.take(i - start + 1)));
        if next > 0xFFFF_FFFF {
            proof {
                lemma_str_val_prefix_le(body, i - start + 1);
            }
            return None;
        }
        acc = next;
        i = i + 1;
    }
    proof {
        assert(body.take(n - start) =~= body);
    }
    Some(acc as u32)
}

/// The timestamp string after resolution auto-detection: exactly 13
/// characters means milliseconds (drop the last 3), anything else means a
/// finer resolution (drop the last 6). A string too short to truncate is
/// left as it is.
pub open spec fn time_trunc(s: Seq<char>) -> Seq<char> {
    if s.len() == 13 {
        s.take(10)
    } else if s.len() >= 6 {
        s.take(s.len() - 6)
    } else {
        s
    }
}

/// The decoded second-resolution timestamp, or `None` when the truncated
/// string does not parse as a `u32` (a string shorter than the digits to
/// drop never does).
pub open spec fn time_spec(s: Seq<char>) -> Option<u32> {
    if s.len() >= 6 {
        parse_u32_spec(time_trunc(s))
    } else {
        None
    }
}

/// Decodes a raw timestamp string to seconds since the epoch.
pub fn standardize_time(time: &str) -> (r: Result<u32, ParseFieldError>)
    ensures
        time_spec(time@) matches Some(v) ==> r matches Ok(rv) && rv == v,
        time_spec(time@) is None ==> (r matches Err(e) && e matches ParseFieldError::Timestamp {
            text,
        } && text@ == time_trunc(time@)),
{
    let n: usize = time.unicode_len();
    if n < 6 {
        return Err(ParseFieldError::Timestamp { text: time.to_owned() });
    }
    let keep: usize = if n == 13 {
        10
    } else {
        n - 6
    };
    let trunc = time.substring_char(0, keep);
    assert(trunc@ == time_trunc(time@));
    match parse_u32(trunc) {
        Some(v) => Ok(v),
        None => Err(ParseFieldError::Timestamp { text: trunc.to_owned() }),
    }
}

/// Index of the first `.` in `s`, or `s.len()` when there is none.
pub open spec fn dot_pos(s: Seq<char>) -> int
    decreases s.len(),
{
    if s.len() == 0 {
        0
    } else if s[0] == '.' {
        0
    } else {
        1 + dot_pos(s.skip(1))
    }
}

proof fn lemma_dot_pos(s: Seq<char>)
    ensures
        0 <= dot_pos(s) <= s.len(),
        dot_pos(s) < s.len() ==> s[dot_pos(s)] == '.',
        forall|j: int| 0 <= j < dot_pos(s) ==> s[j] != '.',
    decreases s.len(),
{
    if s.len() > 0 && s[0] != '.' {
        lemma_dot_pos(s.skip(1));
        assert forall|j: int| 0 <= j < dot_pos(s) implies s[j] != '.' by {
            if j >= 1 {
                assert(s.skip(1)[j - 1] == s[j]);
            }
        }
    }
}

/// The integer part concatenated with up to the first three fractional
/// digits; a price with no decimal point contributes an empty fraction.
pub open spec fn combined_digits(s: Seq<char>) -> Seq<char> {
    let dot = dot_pos(s);
    if dot == s.len() {
        s
    } else {
        let frac = s.skip(dot + 1);
        s.take(dot) + (if frac.len() >= 3 {
            frac.take(3)
        } else {
            frac
        })
    }
}

pub open spec fn pow10(n: nat) -> nat
    decreases n,
{
    if n == 0 {
        1
    } else {
        10 * pow10((n - 1) as nat)
    }
}

/// The value of two digit strings laid end to end: the left part shifted by
/// one decimal place per right-hand digit, plus the right part.
pub proof fn lemma_str_val_concat(a: Seq<char>, b: Seq<char>)
    ensures
        str_val(a + b) == str_val(a) * pow10(b.len()) + str_val(b),
    decreases b.len(),
{
    if b.len() == 0 {
        assert(a + b =~= a);
        assert(str_val(a) * 1 == str_val(a)) by (nonlinear_arith);
    } else {
        lemma_str_val_concat(a, b.drop_last());
        assert((a + b).drop_last() =~= a + b.drop_last());
        assert((a + b).last() == b.last());
        let x = str_val(a);
        let p = pow10((b.len() - 1) as nat);
        assert((x * p + str_val(b.drop_last())) * 10 + digit_val(b.last()) == x * (10 * p) + (
        str_val(b.drop_last()) * 10 + digit_val(b.last()))) by (nonlinear_arith);
    }
}

/// The decoded fixed-point price with three implied decimal digits, or
/// `None` when the concatenated digit string does not parse as a `u32`.
pub open spec fn price_spec(s: Seq<char>) -> Option<u32> {
    parse_u32_spec(combined_digits(s))
}

/// Converts a decimal price string to a fixed-point integer with three
/// implied fractional digits, truncating (never rounding, never padding)
/// beyond the third.
pub fn standardize_price(price: &str) -> (r: Result<u32, ParseFieldError>)
    ensures
        price_spec(price@) matches Some(v) ==> r matches Ok(rv) && rv == v,
        price_spec(price@) is None ==> (r matches Err(e) && e matches ParseFieldError::Price {
            text,
        } && text@ == combined_digits(price@)),
{
    let n: usize = price.unicode_len();
    let mut p: usize = 0;
    let mut found: bool = false;
    while !found && p < n
        invariant
            0 <= p <= n,
            n == price@.len(),
            forall|j: int| 0 <= j < p ==> price@[j] != '.',
            found ==> p < n && price@[p as int] == '.',
        decreases (if found { 0int } else { n - p + 1 }),
    {
        if price.get_char(p) == '.' {
            found = true;
        } else {
            p = p + 1;
        }
    }
    proof {
        lemma_dot_pos(price@);
        if found {
            assert(p == dot_pos(price@)) by {
                if p < dot_pos(price@) {
                    assert(price@[p as int] != '.');
                } else if dot_pos(price@) < p {
                    assert(price@[dot_pos(price@)] != '.');
                }
            }
        } else {
            assert(p == n);
            assert(dot_pos(price@) == n) by {
                if dot_pos(price@) < n {
                    assert(price@[dot_pos(price@)] != '.');
                }
            }
        }
    }
    let mut combined: String = price.substring_char(0, p).to_owned();
    if p < n {
        let frac_end: usize = if n - (p + 1) >= 3 {
            p + 1 + 3
        } else {
            n
        };
        let frac = price.substring_char(p + 1, frac_end);
        proof {
            let fr = price@.skip(p + 1);
            assert(frac@ =~= (if fr.len() >= 3 {
                fr.take(3)
            } else {
                fr
            }));
        }
        combined.append(frac);
    }
    assert(combined@ == combined_digits(price@));
    match parse_u32(combined.as_str()) {
        Some(v) => Ok(v),
        None => Err(ParseFieldError::Price { text: combined }),
    }
}

/// With a decimal point and at least three fractional digits available, the
/// decoded price is the integer part scaled by 1000 plus the first three
/// fractional digits: the price truncated, not rounded, at the third place.
pub proof fn lemma_price_value(s: Seq<char>)
    requires
        dot_pos(s) < s.len(),
        s.skip(dot_pos(s) + 1).len() >= 3,
        all_digits(s.take(dot_pos(s))),
        all_digits(s.skip(dot_pos(s) + 1)),
        price_spec(s) is Some,
    ensures
        price_spec(s).unwrap() == str_val(s.take(dot_pos(s))) * 1000 + str_val(
            s.skip(dot_pos(s) + 1).take(3),
        ),
{
    let before = s.take(dot_pos(s));
    let frac3 = s.skip(dot_pos(s) + 1).take(3);
    lemma_dot_pos(s);
    assert(combined_digits(s) == before + frac3);
    assert(digits_part(before + frac3) == before + frac3) by {
        if (before + frac3).len() > 0 {
            if before.len() > 0 {
                assert(is_digit((before + frac3)[0]));
            } else {
                assert((before + frac3)[0] == s.skip(dot_pos(s) + 1)[0]);
                assert(is_digit((before + frac3)[0]));
            }
            assert(('+' as u32) == 43);
        }
    }
    lemma_str_val_concat(before, frac3);
    assert(pow10(3) == 1000) by {
        assert(pow10(0) == 1);
        assert(pow10(1) == 10);
        assert(pow10(2) == 100);
    }
}

/// With a decimal point but fewer than three fractional digits, the decoded
/// price is the integer part shifted by only as many places as there are
/// digits — truncation without padding.
pub proof fn lemma_price_value_short_fraction(s: Seq<char>)
    requires
        dot_pos(s) < s.len(),
        s.skip(dot_pos(s) + 1).len() < 3,
        all_digits(s.take(dot_pos(s))),
        all_digits(s.skip(dot_pos(s) + 1)),
        price_spec(s) is Some,
    ensures
        price_spec(s).unwrap() == str_val(s.take(dot_pos(s))) * pow10(
            s.skip(dot_pos(s) + 1).len(),
        ) + str_val(s.skip(dot_pos(s) + 1)),
{
    let before = s.take(dot_pos(s));
    let frac = s.skip(dot_pos(s) + 1);
    lemma_dot_pos(s);
    assert(combined_digits(s) == before + frac);
    assert(digits_part(before + frac) == before + frac) by {
        if (before + frac).len() > 0 {
            if before.len() > 0 {
                assert(is_digit((before + frac)[0]));
            } else {
                assert((before + frac)[0] == frac[0]);
                assert(is_digit((before + frac)[0]));
            }
            assert(('+' as u32) == 43);
        }
    }
    lemma_str_val_concat(before, frac);
}

/// Normalizes one CSV record: field 0 is the raw timestamp and field 4 the
/// close price. A record missing either field is skipped (`Ok(None)`), not
/// an error; a timestamp that does not parse takes precedence over a bad
/// price.
pub fn normalize_record(row: &Vec<String>) -> (r: Result<Option<SolanaPriceEntry>, ParseFieldError>)
    ensures
        row.deep_view().len() < 5 ==> r matches Ok(None),
        row.deep_view().len() >= 5 ==> {
            let t = time_spec(row.deep_view()[0]);
            let p = price_spec(row.deep_view()[4]);
            &&& (t is Some && p is Some) ==> (r matches Ok(Some(e)) && e.time == t.unwrap()
                && e.close_price == p.unwrap())
            &&& t is None ==> (r matches Err(e) && e matches ParseFieldError::Timestamp { text }
                && text@ == time_trunc(row.deep_view()[0]))
            &&& (t is Some && p is None) ==> (r matches Err(e) && e matches ParseFieldError::Price {
                text,
            } && text@ == combined_digits(row.deep_view()[4]))
        },
{
    if row.len() < 5 {
        return Ok(None);
    }
    let time = standardize_time(row[0].as_str())?;
    let close_price = standardize_price(row[4].as_str())?;
    Ok(Some(SolanaPriceEntry { time, close_price }))
}

} // verus!
