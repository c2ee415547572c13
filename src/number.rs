use vstd::prelude::*;
use vstd::string::*;

verus! {

/// One more than the largest magnitude that any supported integer type can hold.
pub const MAGNITUDE_CAP: u128 = 0x1_0000_0000_0000_0000;

pub open spec fn is_digit(c: char) -> bool {
    '0' <= c <= '9'
}

pub open spec fn all_digits(d: Seq<char>) -> bool {
    forall|i: int| 0 <= i < d.len() ==> is_digit(#[trigger] d[i])
}

/// The value of the decimal digits `d`, most significant first.
pub open spec fn digits_value(d: Seq<char>) -> int
    decreases d.len(),
{
    if d.len() == 0 {
        0
    } else {
        digits_value(d.drop_last()) * 10 + (d.last() as u32 - '0' as u32)
    }
}

/// The integer that `s` writes in decimal, where it lies in `[lo, hi]`: an optional
/// `+` (or `-` where `lo` is negative) followed by at least one ASCII digit.
pub open spec fn int_in_range(s: Seq<char>, lo: int, hi: int) -> Option<int> {
    let neg = lo < 0 && s.len() > 0 && s[0] == '-';
    let digits = if s.len() > 0 && (s[0] == '+' || neg) {
        s.drop_first()
    } else {
        s
    };
    let v = if neg {
        -digits_value(digits)
    } else {
        digits_value(digits)
    };
    if digits.len() > 0 && all_digits(digits) && lo <= v <= hi {
        Some(v)
    } else {
        None
    }
}

proof fn lemma_digits_value_nonneg(d: Seq<char>)
    requires
        all_digits(d),
    ensures
        digits_value(d) >= 0,
    decreases d.len(),
{
    if d.len() > 0 {
        assert(is_digit(d[d.len() - 1]));
        lemma_digits_value_nonneg(d.drop_last());
    }
}

/// The value of the digits `d`, saturated at one past `MAGNITUDE_CAP`; `None` unless `d` is
/// a non-empty run of ASCII digits.
fn magnitude(d: &str) -> (r: Option<u128>)
    ensures
        r is Some <==> (d@.len() > 0 && all_digits(d@)),
        r matches Some(v) ==> (digits_value(d@) <= MAGNITUDE_CAP ==> v == digits_value(d@)) && (
        digits_value(d@) > MAGNITUDE_CAP ==> v == MAGNITUDE_CAP + 1),
{
    let mut ok = true;
    let mut any = false;
    let mut acc: u128 = 0;
    let ghost mut prev: Seq<char> = seq![];
    for c in it: d.chars()
        invariant
            it.seq() == d@,
            prev == d@.take(it.index() as int),
            any <==> prev.len() > 0,
            ok <==> all_digits(prev),
            ok ==> acc <= MAGNITUDE_CAP + 1,
            ok ==> (digits_value(prev) <= MAGNITUDE_CAP ==> acc == digits_value(prev)),
            ok ==> (digits_value(prev) > MAGNITUDE_CAP ==> acc == MAGNITUDE_CAP + 1),
    {
        let ghost next = d@.take(it.index() + 1);
        assert(next.drop_last() =~= prev);
        assert(next.last() == c);
        assert(all_digits(next) <==> all_digits(prev) && is_digit(c)) by {
            if all_digits(prev) && is_digit(c) {
                assert forall|i: int| 0 <= i < next.len() implies is_digit(#[trigger] next[i]) by {
                    if i < prev.len() {
                        assert(next[i] == prev[i]);
                    }
                }
            }
            if all_digits(next) {
                assert(is_digit(next[next.len() - 1]));
                assert forall|i: int| 0 <= i < prev.len() implies is_digit(#[trigger] prev[i]) by {
                    assert(next[i] == prev[i]);
                }
            }
        }
        if '0' <= c && c <= '9' {
            if ok {
                proof {
                    lemma_digits_value_nonneg(prev);
                }
                let digit = (c as u32 - '0' as u32) as u128;
                if acc <= MAGNITUDE_CAP {
                    let grown = acc * 10 + digit;
                    acc = if grown > MAGNITUDE_CAP {
                        MAGNITUDE_CAP + 1
                    } else {
                        grown
                    };
                } else {
                    assert(digits_value(next) >= digits_value(prev)) by (nonlinear_arith)
                        requires
                            digits_value(next) == digits_value(prev) * 10 + digit,
                            digits_value(prev) >= 0,
                            digit >= 0,
                    ;
                }
            }
        } else {
            ok = false;
        }
        any = true;
        proof {
            prev = next;
        }
    }
    assert(prev =~= d@);
    if ok && any {
        Some(acc)
    } else {
        None
    }
}

/// Reads `s` as a decimal integer within `[lo, hi]`.
pub fn parse_int(s: &str, lo: i128, hi: i128) -> (r: Option<i128>)
    requires
        -MAGNITUDE_CAP <= lo <= 0 <= hi <= MAGNITUDE_CAP,
    ensures
        match r {
            Some(v) => int_in_range(s@, lo as int, hi as int) == Some(v as int),
            None => int_in_range(s@, lo as int, hi as int) is None,
        },
{
    let n = s.unicode_len();
    if n == 0 {
        return None;
    }
    let first = s.get_char(0);
    let neg = lo < 0 && first == '-';
    let digits = if first == '+' || neg {
        s.substring_char(1, n)
    } else {
        s
    };
    assert(first == '+' || neg ==> digits@ =~= s@.drop_first());
    match magnitude(digits) {
        None => None,
        Some(m) => {
            if m > MAGNITUDE_CAP {
                None
            } else {
                let v: i128 = if neg {
                    -(m as i128)
                } else {
                    m as i128
                };
                if lo <= v && v <= hi {
                    Some(v)
                } else {
                    None
                }
            }
        },
    }
}

} // verus!
