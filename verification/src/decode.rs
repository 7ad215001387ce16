use vstd::prelude::*;

use crate::AggError;

verus! {

/// Smallest scaled value that fits the 32-bit record fields.
pub const TEMP_MIN: i64 = -2147483648;

/// Largest scaled value that fits the 32-bit record fields.
pub const TEMP_MAX: i64 = 2147483647;

pub open spec fn is_digit(b: u8) -> bool {
    48 <= b <= 57
}

pub open spec fn all_digits(s: Seq<u8>) -> bool {
    forall|i: int| 0 <= i < s.len() ==> is_digit(#[trigger] s[i])
}

/// Value of a big-endian decimal digit string (most significant digit first).
pub open spec fn digits_val(s: Seq<u8>) -> int
    decreases s.len(),
{
    if s.len() == 0 {
        0
    } else {
        digits_val(s.drop_last()) * 10 + (s.last() - 48)
    }
}

/// The byte shape `-?[0-9]+\.[0-9]`: an optional sign, one or more integral
/// digits, a single dot, and exactly one fractional digit.
pub open spec fn temp_shape(s: Seq<u8>) -> bool {
    let body = if s.len() > 0 && s[0] == 45 {
        s.drop_first()
    } else {
        s
    };
    &&& body.len() >= 3
    &&& all_digits(body.subrange(0, body.len() - 2))
    &&& body[body.len() - 2] == 46
    &&& is_digit(body[body.len() - 1])
}

/// The scaled value (ten times the written value) of a well-shaped input.
pub open spec fn temp_val(s: Seq<u8>) -> int {
    let body = if s.len() > 0 && s[0] == 45 {
        s.drop_first()
    } else {
        s
    };
    let mag = digits_val(body.subrange(0, body.len() - 2)) * 10 + (body[body.len() - 1] - 48);
    if s.len() > 0 && s[0] == 45 {
        -mag
    } else {
        mag
    }
}

/// What decoding returns: the scaled value when the bytes are well shaped and
/// the value fits the 32-bit range, nothing otherwise.
pub open spec fn decode_spec(s: Seq<u8>) -> Option<int> {
    if temp_shape(s) && TEMP_MIN <= temp_val(s) <= TEMP_MAX {
        Some(temp_val(s))
    } else {
        None
    }
}

pub proof fn lemma_digits_val_nonneg(s: Seq<u8>)
    requires
        all_digits(s),
    ensures
        digits_val(s) >= 0,
    decreases s.len(),
{
    if s.len() > 0 {
        assert(all_digits(s.drop_last()));
        lemma_digits_val_nonneg(s.drop_last());
    }
}

proof fn lemma_digits_val_step(s: Seq<u8>, i: int)
    requires
        0 <= i < s.len(),
    ensures
        digits_val(s.subrange(0, i + 1)) == digits_val(s.subrange(0, i)) * 10 + (s[i] - 48),
{
    let pre = s.subrange(0, i + 1);
    assert(pre.drop_last() =~= s.subrange(0, i));
    assert(pre.last() == s[i]);
}

/// Decodes an ASCII fixed-point number with exactly one fractional digit into
/// its value scaled by ten, rejecting malformed or out-of-range inputs.
pub fn parse_temp(bytes: &[u8]) -> (r: Result<i32, AggError>)
    ensures
        match decode_spec(bytes@) {
            Some(v) => r == Ok::<i32, AggError>(v as i32),
            None => r == Err::<i32, AggError>(AggError::MalformedRecord),
        },
{
    let n = bytes.len();
    let ghost s = bytes@;
    let (neg, start): (bool, usize) = if n > 0 && bytes[0] == 45 {
        (true, 1)
    } else {
        (false, 0)
    };
    let ghost body = if neg {
        s.drop_first()
    } else {
        s
    };
    if n < start + 3 {
        assert(!temp_shape(s));
        return Err(AggError::MalformedRecord);
    }
    if bytes[n - 2] != 46 {
        assert(!temp_shape(s)) by {
            assert(body[body.len() - 2] == s[n - 2]);
        }
        return Err(AggError::MalformedRecord);
    }
    let frac = bytes[n - 1];
    if frac < 48 || frac > 57 {
        assert(!temp_shape(s)) by {
            assert(body[body.len() - 1] == s[n - 1]);
        }
        return Err(AggError::MalformedRecord);
    }
    let ghost digits = body.subrange(0, body.len() - 2);
    let mut val: i64 = 0;
    let mut over: bool = false;
    let mut i: usize = start;
    while i < n - 2
        invariant
            start <= i <= n - 2,
            s == bytes@,
            n == s.len(),
            n >= start + 3,
            neg == (s.len() > 0 && s[0] == 45),
            start == if neg { 1int } else { 0int },
            body == if neg { s.drop_first() } else { s },
            digits == body.subrange(0, body.len() - 2),
            digits.len() == n - 2 - start,
            forall|j: int| 0 <= j < i - start ==> is_digit(#[trigger] digits[j]),
            forall|j: int| 0 <= j < i - start ==> digits[j] == s[j + start],
            !over ==> val == digits_val(digits.subrange(0, i - start)),
            !over ==> 0 <= val <= 0x8000_0000,
            over ==> digits_val(digits.subrange(0, i - start)) > 0x8000_0000,
        decreases n - i,
    {
        let c = bytes[i];
        if c < 48 || c > 57 {
            assert(!temp_shape(s)) by {
                assert(body[i - start] == s[i as int]);
                assert(digits[i - start] == body[i - start]);
            }
            return Err(AggError::MalformedRecord);
        }
        proof {
            assert(digits[i - start] == body[i - start]);
            assert(body[i - start] == s[i as int]);
            lemma_digits_val_step(digits, i - start);
        }
        if !over {
            val = val * 10 + (c - 48) as i64;
            if val > 0x8000_0000 {
                over = true;
            }
        } else {
            proof {
                let pre = digits.subrange(0, i - start);
                assert(all_digits(pre));
                lemma_digits_val_nonneg(pre);
            }
        }
        i += 1;
    }
    proof {
        assert(digits.subrange(0, digits.len() as int) =~= digits);
        assert(temp_shape(s)) by {
            assert(body[body.len() - 2] == s[n - 2]);
            assert(body[body.len() - 1] == s[n - 1]);
        }
    }
    if over {
        proof {
            lemma_digits_val_nonneg(digits);
            assert(temp_val(s) > TEMP_MAX || temp_val(s) < TEMP_MIN) by {
                assert(digits_val(digits) * 10 >= digits_val(digits));
            }
        }
        return Err(AggError::MalformedRecord);
    }
    let total: i64 = val * 10 + (frac - 48) as i64;
    proof {
        assert(body[body.len() - 1] == s[n - 1]);
        assert(temp_val(s) == if neg { -total as int } else { total as int });
    }
    if neg {
        if total > 2147483648 {
            return Err(AggError::MalformedRecord);
        }
        Ok((-total) as i32)
    } else {
        if total > 2147483647 {
            return Err(AggError::MalformedRecord);
        }
        Ok(total as i32)
    }
}

/// Decimal digit string of a non-negative number, most significant digit first.
pub open spec fn dec_digits(n: nat) -> Seq<u8>
    decreases n,
{
    if n < 10 {
        seq![(48 + n) as u8]
    } else {
        dec_digits(n / 10).push((48 + n % 10) as u8)
    }
}

/// The canonical rendering of a scaled value: optional sign, the integral
/// digits, a dot, and the single fractional digit.
pub open spec fn render_spec(v: int) -> Seq<u8> {
    let m = if v < 0 {
        -v
    } else {
        v
    };
    let core = dec_digits((m / 10) as nat).push(46u8).push((48 + m % 10) as u8);
    if v < 0 {
        seq![45u8] + core
    } else {
        core
    }
}

pub proof fn lemma_dec_digits_props(n: nat)
    ensures
        dec_digits(n).len() >= 1,
        all_digits(dec_digits(n)),
        digits_val(dec_digits(n)) == n,
    decreases n,
{
    if n >= 10 {
        lemma_dec_digits_props(n / 10);
        let d = dec_digits(n);
        assert(d.drop_last() =~= dec_digits(n / 10));
        assert(d.last() == (48 + n % 10) as u8);
        assert(n == 10 * (n / 10) + n % 10) by (nonlinear_arith);
        assert(digits_val(d) == digits_val(d.drop_last()) * 10 + (d.last() - 48));
        assert(all_digits(d)) by {
            assert(forall|i: int|
                0 <= i < d.len() - 1 ==> d[i] == #[trigger] dec_digits(n / 10)[i]);
        }
    } else {
        let d = dec_digits(n);
        assert(d.len() == 1);
        assert(d.last() == (48 + n) as u8);
        assert(d.drop_last() =~= Seq::<u8>::empty());
        assert(digits_val(d.drop_last()) == 0);
    }
}

/// Decoding inverts rendering: every representable scaled value reads back
/// from its own rendering as exactly itself.
pub proof fn lemma_decode_render(v: int)
    requires
        TEMP_MIN <= v <= TEMP_MAX,
    ensures
        decode_spec(render_spec(v)) == Some(v),
{
    let m = if v < 0 {
        -v
    } else {
        v
    };
    let dd = dec_digits((m / 10) as nat);
    lemma_dec_digits_props((m / 10) as nat);
    let s = render_spec(v);
    let body = if s.len() > 0 && s[0] == 45 {
        s.drop_first()
    } else {
        s
    };
    assert(is_digit(dd[0]));
    if v < 0 {
        assert(s[0] == 45);
        assert(body =~= dd.push(46u8).push((48 + m % 10) as u8));
    } else {
        assert(s[0] == dd[0]);
        assert(body =~= dd.push(46u8).push((48 + m % 10) as u8));
    }
    assert(body.len() == dd.len() + 2);
    assert(body.subrange(0, body.len() - 2) =~= dd);
    assert(body[body.len() - 2] == 46);
    assert(body[body.len() - 1] == (48 + m % 10) as u8);
    assert(temp_shape(s));
    assert(temp_val(s) == if v < 0 { -m } else { m });
}

fn push_digits(out: &mut Vec<u8>, n: u64)
    ensures
        final(out)@ == old(out)@ + dec_digits(n as nat),
    decreases n,
{
    if n < 10 {
        out.push((48 + n) as u8);
        assert(final(out)@ =~= old(out)@ + dec_digits(n as nat));
    } else {
        push_digits(out, n / 10);
        out.push(48 + (n % 10) as u8);
        assert(final(out)@ =~= old(out)@ + dec_digits(n as nat));
    }
}

/// Renders a scaled value as ASCII text with exactly one fractional digit.
pub fn render_temp(v: i32) -> (r: Vec<u8>)
    ensures
        r@ == render_spec(v as int),
{
    let mut out: Vec<u8> = Vec::new();
    let m: u64 = if v < 0 {
        out.push(45);
        (-(v as i64)) as u64
    } else {
        v as u64
    };
    push_digits(&mut out, m / 10);
    out.push(46);
    out.push(48 + (m % 10) as u8);
    proof {
        assert(out@ =~= render_spec(v as int));
    }
    out
}

} // verus!
