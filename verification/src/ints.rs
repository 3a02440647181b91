//! Decimal integers: the grammar a numeric capture must follow, the
//! canonical decimal rendering, and the arithmetic the operators use.
//!
//! Parsing accepts an optional sign followed by one or more ASCII digits,
//! with the value bounded by the machine's signed word, exactly as the
//! standard signed-integer grammar does.  Rendering produces the canonical
//! decimal form: no leading zeros, a minus sign only for negative values.

use vstd::prelude::*;

verus! {

use crate::errors::{ErrorKind, RegopError};

/// ASCII `0`.
pub const DIGIT_ZERO: u8 = 48;

/// ASCII `9`.
pub const DIGIT_NINE: u8 = 57;

/// ASCII `+`.
pub const PLUS: u8 = 43;

/// ASCII `-`.
pub const MINUS: u8 = 45;

/// True of the ASCII decimal digits.
pub open spec fn is_digit(b: u8) -> bool {
    DIGIT_ZERO <= b <= DIGIT_NINE
}

/// True when every byte of `s` is an ASCII decimal digit.
pub open spec fn all_digits(s: Seq<u8>) -> bool {
    forall|i: int| 0 <= i < s.len() ==> is_digit(#[trigger] s[i])
}

/// Numeric value of a string of decimal digits, most significant first.
pub open spec fn digits_val(s: Seq<u8>) -> int
    decreases s.len(),
{
    if s.len() == 0 {
        0
    } else {
        digits_val(s.drop_last()) * 10 + (s.last() - DIGIT_ZERO)
    }
}

/// Canonical decimal digits of a non-negative integer.
pub open spec fn nat_dec(n: nat) -> Seq<u8>
    decreases n,
{
    if n < 10 {
        seq![(DIGIT_ZERO + n) as u8]
    } else {
        nat_dec(n / 10).push((DIGIT_ZERO + n % 10) as u8)
    }
}

/// Canonical decimal rendering of an integer: a minus sign for negative
/// values, then the digits with no leading zeros.
pub open spec fn int_to_dec(v: int) -> Seq<u8> {
    if v < 0 {
        seq![MINUS] + nat_dec((-v) as nat)
    } else {
        nat_dec(v as nat)
    }
}

/// The signed decimal integer grammar: an optional `+` or `-` sign, then
/// one or more digits; the value must fit the machine's signed word.
pub open spec fn parse_int_spec(s: Seq<u8>) -> Option<int> {
    let has_sign = s.len() > 0 && (s[0] == PLUS || s[0] == MINUS);
    let neg = s.len() > 0 && s[0] == MINUS;
    let ds = if has_sign {
        s.drop_first()
    } else {
        s
    };
    if ds.len() == 0 || !all_digits(ds) {
        None
    } else {
        let v = if neg {
            -digits_val(ds)
        } else {
            digits_val(ds)
        };
        if isize::MIN <= v <= isize::MAX {
            Some(v)
        } else {
            None
        }
    }
}

proof fn lemma_digits_val_nonneg(s: Seq<u8>)
    requires
        all_digits(s),
    ensures
        digits_val(s) >= 0,
    decreases s.len(),
{
    if s.len() > 0 {
        assert(all_digits(s.drop_last()));
        lemma_digits_val_nonneg(s.drop_last());
    }
}

proof fn lemma_digits_val_take_succ(s: Seq<u8>, k: int)
    requires
        0 <= k < s.len(),
    ensures
        digits_val(s.take(k + 1)) == digits_val(s.take(k)) * 10 + (s[k] - DIGIT_ZERO),
{
    assert(s.take(k + 1).drop_last() =~= s.take(k));
    assert(s.take(k + 1).last() == s[k]);
}

proof fn lemma_digits_val_prefix_le(s: Seq<u8>, k: int)
    requires
        all_digits(s),
        0 <= k <= s.len(),
    ensures
        digits_val(s.take(k)) <= digits_val(s),
    decreases s.len() - k,
{
    if k == s.len() {
        assert(s.take(k) =~= s);
    } else {
        assert(all_digits(s.take(k)));
        lemma_digits_val_nonneg(s.take(k));
        lemma_digits_val_take_succ(s, k);
        lemma_digits_val_prefix_le(s, k + 1);
    }
}

/// Parses `s` as a signed decimal integer: an optional sign, then one or
/// more digits; fails with `InvalidNumber` on any other shape, or when
/// the value does not fit the machine's signed word.
pub fn parse_int(s: &[u8]) -> (r: Result<isize, RegopError>)
    ensures
        match r {
            Ok(v) => parse_int_spec(s@) == Some(v as int),
            Err(e) => parse_int_spec(s@) is None && e.kind == ErrorKind::InvalidNumber,
        },
{
    let n = s.len();
    let (neg, start): (bool, usize) = if n > 0 && (s[0] == PLUS || s[0] == MINUS) {
        (s[0] == MINUS, 1)
    } else {
        (false, 0)
    };
    let ghost ds: Seq<u8> = if start == 1 {
        s@.drop_first()
    } else {
        s@
    };
    if n == start {
        return Err(RegopError::new(ErrorKind::InvalidNumber, "cannot parse text as int: empty"));
    }
    let bound: u128 = (isize::MAX as u128) + if neg {
        1u128
    } else {
        0u128
    };
    let mut acc: u128 = 0;
    let mut i: usize = start;
    while i < n
        invariant
            start <= i <= n,
            n == s@.len(),
            start == 0 || start == 1,
            (start == 1) == (n > 0 && (s@[0] == PLUS || s@[0] == MINUS)),
            neg == (n > 0 && s@[0] == MINUS),
            start == 1 ==> ds == s@.drop_first(),
            start == 0 ==> ds == s@,
            ds.len() == n - start,
            forall|j: int| start <= j < i ==> #[trigger] is_digit(s@[j]),
            all_digits(ds.take(i - start)),
            acc == digits_val(ds.take(i - start)),
            acc <= bound,
            bound == isize::MAX as u128 + if neg { 1int } else { 0int },
        decreases n - i,
    {
        let b = s[i];
        proof {
            assert(ds[i - start] == s@[i as int]);
        }
        if b < DIGIT_ZERO || b > DIGIT_NINE {
            proof {
                assert(!is_digit(ds[i - start]));
                assert(!all_digits(ds));
            }
            return Err(RegopError::new(ErrorKind::InvalidNumber, "cannot parse text as int"));
        }
        let d: u128 = (b - DIGIT_ZERO) as u128;
        assert(acc * 10 + d <= bound * 10 + 9);
        let next: u128 = acc * 10 + d;
        proof {
            lemma_digits_val_take_succ(ds, i - start);
            assert(ds.take(i - start + 1) =~= ds.take(i - start).push(ds[i - start]));
        }
        if next > bound {
            proof {
                assert(isize::MIN == -isize::MAX - 1);
                if all_digits(ds) {
                    lemma_digits_val_prefix_le(ds, i - start + 1);
                    assert(digits_val(ds) >= next);
                }
            }
            return Err(
                RegopError::new(ErrorKind::InvalidNumber, "cannot parse text as int: out of range"),
            );
        }
        acc = next;
        i = i + 1;
    }
    proof {
        assert(ds.take(i - start) =~= ds);
        assert(isize::MIN == -isize::MAX - 1);
    }
    if neg {
        if acc == (isize::MAX as u128) + 1 {
            Ok(isize::MIN)
        } else {
            Ok(-(acc as isize))
        }
    } else {
        Ok(acc as isize)
    }
}

/// Renders `v` in its canonical decimal form.
pub fn format_int(v: isize) -> (r: Vec<u8>)
    ensures
        r@ == int_to_dec(v as int),
{
    let mut m: u128 = if v < 0 {
        (-(v as i128)) as u128
    } else {
        v as u128
    };
    let ghost m0: nat = m as nat;
    let mut digits: Vec<u8> = Vec::new();
    while m >= 10
        invariant
            nat_dec(m0) == nat_dec(m as nat) + digits@,
        decreases m,
    {
        let d: u8 = DIGIT_ZERO + (m % 10) as u8;
        digits.insert(0, d);
        proof {
            assert(nat_dec((m / 10) as nat).push(d) + digits@.drop_first() =~= nat_dec(
                (m / 10) as nat,
            ) + digits@);
        }
        m = m / 10;
    }
    let d: u8 = DIGIT_ZERO + m as u8;
    digits.insert(0, d);
    proof {
        assert(nat_dec(m as nat) =~= seq![d]);
        assert(seq![d] + digits@.drop_first() =~= digits@);
    }
    if v < 0 {
        let mut r: Vec<u8> = Vec::new();
        r.push(MINUS);
        r.append(&mut digits);
        proof {
            assert(r@ =~= seq![MINUS] + nat_dec(m0));
        }
        r
    } else {
        digits
    }
}

/// Renders a machine-word count in its canonical decimal form.
pub fn format_usize(v: usize) -> (r: Vec<u8>)
    ensures
        r@ == nat_dec(v as nat),
{
    let mut m: u128 = v as u128;
    let ghost m0: nat = m as nat;
    let mut digits: Vec<u8> = Vec::new();
    while m >= 10
        invariant
            nat_dec(m0) == nat_dec(m as nat) + digits@,
        decreases m,
    {
        let d: u8 = DIGIT_ZERO + (m % 10) as u8;
        digits.insert(0, d);
        proof {
            assert(nat_dec((m / 10) as nat).push(d) + digits@.drop_first() =~= nat_dec(
                (m / 10) as nat,
            ) + digits@);
        }
        m = m / 10;
    }
    let d: u8 = DIGIT_ZERO + m as u8;
    digits.insert(0, d);
    proof {
        assert(nat_dec(m as nat) =~= seq![d]);
        assert(seq![d] + digits@.drop_first() =~= digits@);
    }
    digits
}

/// Absolute value.
pub open spec fn abs_val(x: int) -> nat {
    if x < 0 {
        (-x) as nat
    } else {
        x as nat
    }
}

/// Truncating integer division, as the machine's division operator
/// computes it: the magnitudes are divided and the quotient takes the
/// sign of the operands' product.
pub open spec fn trunc_div(a: int, b: int) -> int {
    let q = abs_val(a) / abs_val(b);
    if (a < 0) != (b < 0) {
        -q
    } else {
        q as int
    }
}

/// Truncating division of machine words.  The one quotient that does not
/// fit the signed word (the smallest value divided by minus one) wraps to
/// the smallest value, so the operation is total for nonzero divisors.
pub open spec fn div_wrapped(a: int, b: int) -> int {
    let t = trunc_div(a, b);
    if t > isize::MAX {
        isize::MIN as int
    } else {
        t
    }
}

/// Divides `a` by `b`, truncating toward zero; wraps on the single
/// overflowing quotient.
pub fn div_isize(a: isize, b: isize) -> (r: isize)
    requires
        b != 0,
    ensures
        r as int == div_wrapped(a as int, b as int),
{
    let ma: u128 = if a < 0 {
        (-(a as i128)) as u128
    } else {
        a as u128
    };
    let mb: u128 = if b < 0 {
        (-(b as i128)) as u128
    } else {
        b as u128
    };
    let q: u128 = ma / mb;
    proof {
        assert(ma == abs_val(a as int));
        assert(mb == abs_val(b as int));
        assert(q == abs_val(a as int) / abs_val(b as int));
        assert(q <= ma) by (nonlinear_arith)
            requires
                mb >= 1,
                q == ma / mb,
        ;
    }
    if (a < 0) != (b < 0) {
        if q > isize::MAX as u128 {
            isize::MIN
        } else {
            -(q as isize)
        }
    } else {
        if q > isize::MAX as u128 {
            isize::MIN
        } else {
            q as isize
        }
    }
}

/// Rendering then parsing is the identity: the canonical decimal form of
/// any machine integer parses back to that integer.
pub proof fn lemma_dec_round_trip(v: int)
    requires
        isize::MIN <= v <= isize::MAX,
    ensures
        parse_int_spec(int_to_dec(v)) == Some(v),
{
    if v < 0 {
        lemma_nat_dec_props((-v) as nat);
        let s = seq![MINUS] + nat_dec((-v) as nat);
        assert(s[0] == MINUS);
        assert(s.drop_first() =~= nat_dec((-v) as nat));
    } else {
        lemma_nat_dec_props(v as nat);
        let s = nat_dec(v as nat);
        assert(is_digit(s[0]));
    }
}

proof fn lemma_nat_dec_props(n: nat)
    ensures
        nat_dec(n).len() >= 1,
        all_digits(nat_dec(n)),
        digits_val(nat_dec(n)) == n,
    decreases n,
{
    if n < 10 {
        let s = seq![(DIGIT_ZERO + n) as u8];
        assert(nat_dec(n) =~= s);
        assert(s.drop_last() =~= Seq::<u8>::empty());
        assert(digits_val(Seq::<u8>::empty()) == 0);
        assert(digits_val(s) == s[0] - DIGIT_ZERO);
    } else {
        lemma_nat_dec_props(n / 10);
        let s = nat_dec(n);
        let prev = nat_dec(n / 10);
        assert(s == prev.push((DIGIT_ZERO + n % 10) as u8));
        assert(s.drop_last() =~= prev);
        assert(s.last() == (DIGIT_ZERO + n % 10) as u8);
        assert(all_digits(s)) by {
            assert(forall|i: int|
                0 <= i < s.len() ==> #[trigger] s[i] == if i < prev.len() {
                    prev[i]
                } else {
                    (DIGIT_ZERO + n % 10) as u8
                });
        }
        assert(digits_val(s) == digits_val(prev) * 10 + (n % 10));
        assert((n / 10) * 10 + n % 10 == n);
    }
}

} // verus!
