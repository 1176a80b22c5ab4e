//! Decimal integers as `str::parse::<i64>` reads them: an optional `+` or `-`
//! and then one or more ASCII digits, of a value that fits in an `i64`.
use vstd::prelude::*;

verus! {

/// An ASCII decimal digit.
pub open spec fn is_digit(c: char) -> bool {
    '0' <= c <= '9'
}

/// The value of a digit.
pub open spec fn digit_value(c: char) -> nat {
    (c as u32 - '0' as u32) as nat
}

/// Every char of `s` is a digit.
pub open spec fn all_digits(s: Seq<char>) -> bool {
    forall|i: int| 0 <= i < s.len() ==> is_digit(#[trigger] s[i])
}

/// The value of a string of digits, most significant first.
pub open spec fn digits_value(s: Seq<char>) -> nat
    decreases s.len(),
{
    if s.len() == 0 {
        0
    } else {
        digits_value(s.drop_last()) * 10 + digit_value(s.last())
    }
}

/// Whether `s` starts with a minus sign.
pub open spec fn has_minus(s: Seq<char>) -> bool {
    s.len() > 0 && s[0] == '-'
}

/// The digits of `s`: `s` without its leading sign, if it has one.
pub open spec fn unsigned_part(s: Seq<char>) -> Seq<char> {
    if s.len() > 0 && (s[0] == '-' || s[0] == '+') {
        s.drop_first()
    } else {
        s
    }
}

/// The integer that `s` denotes, if `str::parse::<i64>` accepts it.
pub open spec fn integer_value(s: Seq<char>) -> Option<int> {
    let body = unsigned_part(s);
    if body.len() == 0 || !all_digits(body) {
        None
    } else {
        let v: int = if has_minus(s) {
            -digits_value(body)
        } else {
            digits_value(body) as int
        };
        if i64::MIN <= v <= i64::MAX {
            Some(v)
        } else {
            None
        }
    }
}

/// A string of digits never loses value when digits are appended.
proof fn lemma_digits_value_grows(s: Seq<char>, k: int)
    requires
        0 <= k <= s.len(),
        all_digits(s),
    ensures
        digits_value(s.take(k)) <= digits_value(s),
    decreases s.len() - k,
{
    if k < s.len() {
        lemma_digits_value_grows(s, k + 1);
        assert(s.take(k + 1).drop_last() =~= s.take(k));
    } else {
        assert(s.take(k) =~= s);
    }
}

/// How integers are read. A digit alone is its value; a digit appended to
/// digits multiplies their value by ten and adds its own, as long as the
/// result fits in an `i64`; a leading `+` changes nothing and a leading `-`
/// negates; an empty token, a sign alone, and a token with a char that is
/// neither a digit nor a leading sign are refused.
pub proof fn lemma_integer_reading(s: Seq<char>, c: char)
    ensures
        '0' <= c <= '9' ==> integer_value(seq![c]) == Some((c as u32 - '0' as u32) as int),
        integer_value(Seq::empty()) is None,
        integer_value(seq!['+']) is None,
        integer_value(seq!['-']) is None,
        (s.len() > 0 && all_digits(s) && '0' <= c <= '9') ==> (integer_value(s.push(c))
            is Some <==> 10 * digits_value(s) + (c as u32 - '0' as u32) <= i64::MAX),
        (s.len() > 0 && all_digits(s) && '0' <= c <= '9' && integer_value(s.push(c)) is Some)
            ==> integer_value(s) is Some && integer_value(s.push(c))->0 == 10 * integer_value(
            s,
        )->0 + (c as u32 - '0' as u32),
        (s.len() > 0 && all_digits(s)) ==> integer_value(seq!['+'] + s) == integer_value(s),
        (s.len() > 0 && all_digits(s) && integer_value(s) is Some) ==> integer_value(
            seq!['-'] + s,
        ) == Some(-integer_value(s)->0),
        forall|i: int|
            0 <= i < s.len() && !('0' <= #[trigger] s[i] <= '9') && !(i == 0 && (s[0] == '+'
                || s[0] == '-')) ==> integer_value(s) is None,
{
    let one = seq![c];
    assert(one.drop_last() =~= Seq::<char>::empty());
    if '0' <= c <= '9' {
        assert(unsigned_part(one) == one);
        assert(all_digits(one));
        assert(one.last() == c);
        assert(digits_value(one) == digit_value(c));
        assert(!has_minus(one));
    }
    let e = Seq::<char>::empty();
    assert(unsigned_part(seq!['+']) =~= e);
    assert(unsigned_part(seq!['-']) =~= e);
    if s.len() > 0 && all_digits(s) {
        let sp = s.push(c);
        assert(sp.drop_last() =~= s);
        assert(unsigned_part(s) == s);
        if '0' <= c <= '9' {
            assert(unsigned_part(sp) == sp);
            assert(all_digits(sp));
        }
        assert((seq!['+'] + s).drop_first() =~= s);
        assert((seq!['-'] + s).drop_first() =~= s);
        assert(unsigned_part(seq!['+'] + s) == s);
        assert(unsigned_part(seq!['-'] + s) == s);
    }
    assert forall|i: int|
        0 <= i < s.len() && !('0' <= #[trigger] s[i] <= '9') && !(i == 0 && (s[0] == '+' || s[0]
            == '-')) implies integer_value(s) is None by {
        let body = unsigned_part(s);
        if s[0] == '+' || s[0] == '-' {
            assert(body[i - 1] == s[i]);
        } else {
            assert(body[i] == s[i]);
        }
    }
}

/// Parses `s` as `str::parse::<i64>` does.
pub fn parse_integer(s: &Vec<char>) -> (r: Option<i64>)
    ensures
        r matches Some(v) ==> integer_value(s@) == Some(v as int),
        r is None ==> integer_value(s@) is None,
{
    let n = s.len();
    let mut start: usize = 0;
    let mut negative = false;
    if n > 0 && (s[0] == '-' || s[0] == '+') {
        negative = s[0] == '-';
        start = 1;
    }
    let ghost body = unsigned_part(s@);
    proof {
        if start == 1 {
            assert(body =~= s@.skip(1));
        } else {
            assert(body =~= s@.skip(0));
        }
    }
    if start == n {
        return None;
    }
    let mut magnitude: u64 = 0;
    let mut i: usize = start;
    while i < n
        invariant
            n == s@.len(),
            start <= i <= n,
            start <= 1,
            body == s@.skip(start as int),
            body == unsigned_part(s@),
            negative == has_minus(s@),
            all_digits(body.take(i - start)),
            magnitude == digits_value(body.take(i - start)),
        decreases n - i,
    {
        let c = s[i];
        let ghost k = i - start;
        proof {
            assert(body.take(k + 1).drop_last() =~= body.take(k));
            assert(body[k] == c);
        }
        if !('0' <= c && c <= '9') {
            proof {
                assert(k < body.len());
                assert(!is_digit(body[k]));
                assert(!all_digits(body));
            }
            return None;
        }
        let d = (c as u32 - '0' as u32) as u64;
        let next = match magnitude.checked_mul(10) {
            Some(m) => m.checked_add(d),
            None => None,
        };
        match next {
            Some(m) => {
                magnitude = m;
            },
            None => {
                proof {
                    assert(all_digits(body.take(k + 1)));
                    assert(body.take(k + 1).last() == c);
                    assert(digit_value(c) == d);
                    assert(digits_value(body.take(k + 1)) == magnitude * 10 + d);
                    if all_digits(body) {
                        lemma_digits_value_grows(body, k + 1);
                    }
                }
                return None;
            },
        }
        i = i + 1;
    }
    proof {
        assert(body.take(n - start) =~= body);
    }
    if negative {
        if magnitude <= 0x8000_0000_0000_0000u64 {
            if magnitude == 0x8000_0000_0000_0000u64 {
                Some(i64::MIN)
            } else {
                Some(-(magnitude as i64))
            }
        } else {
            None
        }
    } else {
        if magnitude <= 0x7fff_ffff_ffff_ffffu64 {
            Some(magnitude as i64)
        } else {
            None
        }
    }
}

} // verus!
