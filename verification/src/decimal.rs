//! Decimal integers in ASCII, as RESP and the command arguments write them.
use vstd::prelude::*;

verus! {

pub open spec fn is_digit(b: u8) -> bool {
    48 <= b <= 57
}

pub open spec fn all_digits(s: Seq<u8>) -> bool {
    forall|i: int| 0 <= i < s.len() ==> is_digit(#[trigger] s[i])
}

/// The number that a sequence of ASCII digits denotes, most significant first.
pub open spec fn digits_value(s: Seq<u8>) -> nat
    decreases s.len(),
{
    if s.len() == 0 {
        0
    } else {
        digits_value(s.drop_last()) * 10 + (s.last() - 48) as nat
    }
}

/// The shortest decimal digits of `n`.
pub open spec fn nat_digits(n: nat) -> Seq<u8>
    decreases n,
{
    if n < 10 {
        seq![(48 + n) as u8]
    } else {
        nat_digits(n / 10).push((48 + n % 10) as u8)
    }
}

/// How Rust's `Display` writes an integer: a minus sign for negatives, then the digits.
pub open spec fn int_decimal(n: int) -> Seq<u8> {
    if n < 0 {
        seq![45u8] + nat_digits((-n) as nat)
    } else {
        nat_digits(n as nat)
    }
}

/// How `str::parse::<i64>` reads ASCII bytes: an optional `+` or `-`, then at least
/// one digit, and a value that fits.
pub open spec fn parse_i64_spec(s: Seq<u8>) -> Option<i64> {
    if s.len() == 0 {
        None
    } else if s[0] == 45u8 {
        let d = s.skip(1);
        if d.len() > 0 && all_digits(d) && digits_value(d) <= 9223372036854775808 {
            Some((-(digits_value(d) as int)) as i64)
        } else {
            None
        }
    } else {
        let d = if s[0] == 43u8 { s.skip(1) } else { s };
        if d.len() > 0 && all_digits(d) && digits_value(d) <= i64::MAX {
            Some(digits_value(d) as i64)
        } else {
            None
        }
    }
}

/// How `str::parse::<u64>` reads ASCII bytes: an optional `+`, then at least one
/// digit, and a value that fits.
pub open spec fn parse_u64_spec(s: Seq<u8>) -> Option<u64> {
    let d = if s.len() > 0 && s[0] == 43u8 { s.skip(1) } else { s };
    if d.len() > 0 && all_digits(d) && digits_value(d) <= u64::MAX {
        Some(digits_value(d) as u64)
    } else {
        None
    }
}

proof fn lemma_digits_value_prefix_mono(d: Seq<u8>, k: int, m: int)
    requires
        0 <= k <= m <= d.len(),
        all_digits(d),
    ensures
        digits_value(d.take(k)) <= digits_value(d.take(m)),
    decreases m - k,
{
    if k < m {
        lemma_digits_value_prefix_mono(d, k, m - 1);
        assert(d.take(m).drop_last() =~= d.take(m - 1));
    }
}

/// Reads `d` as decimal digits; `None` when a byte is no digit, `d` is empty, or the
/// value exceeds `limit`.
fn digits_up_to(d: &[u8], start: usize, limit: u64) -> (res: Option<u64>)
    requires
        start <= d@.len(),
    ensures
        ({
            let s = d@.skip(start as int);
            match res {
                Some(v) => s.len() > 0 && all_digits(s) && digits_value(s) <= limit
                    && v == digits_value(s),
                None => !(s.len() > 0 && all_digits(s) && digits_value(s) <= limit),
            }
        }),
{
    let ghost s = d@.skip(start as int);
    if start >= d.len() {
        return None;
    }
    let mut acc: u64 = 0;
    let mut i: usize = start;
    while i < d.len()
        invariant
            start <= i <= d@.len(),
            s == d@.skip(start as int),
            all_digits(s.take(i - start)),
            acc == digits_value(s.take(i - start)),
            acc <= limit,
        decreases d@.len() - i,
    {
        let b = d[i];
        if b < 48 || b > 57 {
            assert(s[i - start] == b);
            return None;
        }
        let digit: u64 = (b - 48) as u64;
        let wide: u128 = (acc as u128) * 10 + (digit as u128);
        assert(s.take(i + 1 - start).drop_last() =~= s.take(i - start));
        assert(s.take(i + 1 - start).last() == b);
        if wide > limit as u128 {
            proof {
                if all_digits(s) {
                    lemma_digits_value_prefix_mono(s, i + 1 - start, s.len() as int);
                    assert(s.take(s.len() as int) =~= s);
                }
            }
            return None;
        }
        acc = wide as u64;
        i = i + 1;
        assert(all_digits(s.take(i - start))) by {
            assert forall|j: int| 0 <= j < s.take(i - start).len() implies is_digit(
                #[trigger] s.take(i - start)[j],
            ) by {
                if j < i - 1 - start {
                    assert(s.take(i - start)[j] == s.take(i - 1 - start)[j]);
                }
            }
        }
    }
    assert(s.take(i - start) =~= s);
    Some(acc)
}

/// Parses a decimal `i64` exactly as `str::parse::<i64>` does on these bytes.
pub fn parse_i64(s: &[u8]) -> (res: Option<i64>)
    ensures
        res == parse_i64_spec(s@),
{
    if s.len() == 0 {
        return None;
    }
    if s[0] == 45u8 {
        match digits_up_to(s, 1, 9223372036854775808u64) {
            Some(m) => {
                let v: i64 = if m == 9223372036854775808u64 {
                    i64::MIN
                } else {
                    -(m as i64)
                };
                Some(v)
            },
            None => None,
        }
    } else {
        let start: usize = if s[0] == 43u8 {
            1
        } else {
            0
        };
        assert(s@.skip(0) =~= s@);
        match digits_up_to(s, start, 9223372036854775807u64) {
            Some(m) => Some(m as i64),
            None => None,
        }
    }
}

/// Parses a decimal `u64` exactly as `str::parse::<u64>` does on these bytes.
pub fn parse_u64(s: &[u8]) -> (res: Option<u64>)
    ensures
        res == parse_u64_spec(s@),
{
    let start: usize = if s.len() > 0 && s[0] == 43u8 {
        1
    } else {
        0
    };
    assert(s@.skip(0) =~= s@);
    digits_up_to(s, start, u64::MAX)
}

/// Appends the decimal digits of `n`.
fn push_digits(out: &mut Vec<u8>, n: u64)
    ensures
        final(out)@ == old(out)@ + nat_digits(n as nat),
    decreases n,
{
    if n >= 10 {
        push_digits(out, n / 10);
    }
    out.push((48 + n % 10) as u8);
}

/// Appends `n` as `Display` writes it for an `i64`.
pub fn push_i64(out: &mut Vec<u8>, n: i64)
    ensures
        final(out)@ == old(out)@ + int_decimal(n as int),
{
    if n < 0 {
        out.push(45u8);
        let m: u64 = (-(n as i128)) as u64;
        push_digits(out, m);
    } else {
        push_digits(out, n as u64);
    }
}

/// Appends `n` as `Display` writes it for a `usize`.
pub fn push_usize(out: &mut Vec<u8>, n: usize)
    ensures
        final(out)@ == old(out)@ + int_decimal(n as int),
{
    push_digits(out, n as u64);
}

/// The digits of a number are digits, and read back as that number.
pub proof fn lemma_nat_digits(n: nat)
    ensures
        nat_digits(n).len() >= 1,
        all_digits(nat_digits(n)),
        digits_value(nat_digits(n)) == n,
    decreases n,
{
    if n >= 10 {
        lemma_nat_digits(n / 10);
        let s = nat_digits(n);
        assert(s.drop_last() =~= nat_digits(n / 10));
        assert(s.last() == (48 + n % 10) as u8);
        assert(n == (n / 10) * 10 + n % 10);
        assert((s.last() - 48) as nat == n % 10);
        assert(digits_value(s) == digits_value(s.drop_last()) * 10 + (s.last() - 48) as nat);
        assert(digits_value(s.drop_last()) == n / 10);
        assert(digits_value(s) == n);
        assert forall|i: int| 0 <= i < s.len() implies is_digit(#[trigger] s[i]) by {
            if i < s.len() - 1 {
                assert(s[i] == nat_digits(n / 10)[i]);
            }
        }
    } else {
        let s = nat_digits(n);
        assert(s.drop_last() =~= Seq::<u8>::empty());
        assert(digits_value(s) == digits_value(s.drop_last()) * 10 + (s.last() - 48) as nat);
    }
}

/// Writing an `i64` in decimal and parsing it back gives the same number.
pub proof fn lemma_i64_decimal_roundtrip(n: i64)
    ensures
        parse_i64_spec(int_decimal(n as int)) == Some(n),
{
    if n < 0 {
        let m = (-n) as nat;
        lemma_nat_digits(m);
        let s = int_decimal(n as int);
        assert(s.skip(1) =~= nat_digits(m));
    } else {
        lemma_nat_digits(n as nat);
        let s = nat_digits(n as nat);
        assert(s[0] != 45u8 && s[0] != 43u8) by {
            assert(is_digit(s[0]));
        }
    }
}

} // verus!
