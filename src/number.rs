use vstd::prelude::*;
use crate::frame::FloatWrapper;

verus! {

/// Decimal digits of a natural number, most significant first, without leading zeros.
pub open spec fn decimal(n: nat) -> Seq<u8>
    decreases n,
{
    if n < 10 {
        seq![(48 + n) as u8]
    } else {
        decimal(n / 10).push((48 + n % 10) as u8)
    }
}

/// An integer with its explicit sign: `+` for zero and above, `-` below.
pub open spec fn signed_decimal(i: int) -> Seq<u8> {
    if i < 0 {
        seq![45u8] + decimal((-i) as nat)
    } else {
        seq![43u8] + decimal(i as nat)
    }
}

pub open spec fn pow10(n: nat) -> nat
    decreases n,
{
    if n == 0 {
        1
    } else {
        10 * pow10((n - 1) as nat)
    }
}

/// `n` zero digits.
pub open spec fn zeros(n: nat) -> Seq<u8> {
    Seq::new(n, |i: int| 48u8)
}

/// True when the absolute value of the double exceeds `10^8`.
pub open spec fn is_large(w: FloatWrapper) -> bool {
    if w.exponent >= 0 {
        w.mantissa * pow10(w.exponent as nat) > pow10(8)
    } else {
        w.mantissa > pow10((8 - w.exponent) as nat)
    }
}

/// The absolute value of a double as plain decimal notation, with no forced fraction.
pub open spec fn fixed_text(w: FloatWrapper) -> Seq<u8> {
    let d = decimal(w.mantissa as nat);
    let n = d.len() as int;
    if w.exponent >= 0 {
        d + zeros(w.exponent as nat)
    } else {
        let k = -w.exponent;
        if n > k {
            d.subrange(0, n - k) + seq![46u8] + d.subrange(n - k, n)
        } else {
            seq![48u8, 46u8] + zeros((k - n) as nat) + d
        }
    }
}

/// An exponent in scientific notation: its digits, with `-` only when negative.
pub open spec fn exponent_text(x: int) -> Seq<u8> {
    if x < 0 {
        seq![45u8] + decimal((-x) as nat)
    } else {
        decimal(x as nat)
    }
}

/// The absolute value of a double in scientific notation: one leading digit, the rest as
/// fraction when there is any, then `e` and the exponent.
pub open spec fn scientific_text(w: FloatWrapper) -> Seq<u8> {
    let d = decimal(w.mantissa as nat);
    let n = d.len() as int;
    let frac = if n > 1 {
        seq![46u8] + d.subrange(1, n)
    } else {
        Seq::<u8>::empty()
    };
    seq![d[0]] + frac + seq![101u8] + exponent_text(n - 1 + w.exponent)
}

/// A double with its explicit sign, in scientific notation above `10^8` in absolute value,
/// in plain notation otherwise; `+inf`, `-inf` and `+NaN` for the values that have no digits.
pub open spec fn double_text(w: FloatWrapper) -> Seq<u8> {
    if w.nan {
        seq![43u8, 78u8, 97u8, 78u8]
    } else if w.infinite {
        seq![if w.negative { 45u8 } else { 43u8 }, 105u8, 110u8, 102u8]
    } else {
        seq![if w.negative { 45u8 } else { 43u8 }] + if is_large(w) {
            scientific_text(w)
        } else {
            fixed_text(w)
        }
    }
}

pub proof fn lemma_decimal_nonempty(n: nat)
    ensures
        decimal(n).len() >= 1,
        n < 10 ==> decimal(n).len() == 1,
    decreases n,
{
    if n >= 10 {
        lemma_decimal_nonempty(n / 10);
    }
}

pub proof fn lemma_decimal_digits(n: nat)
    ensures
        forall|i: int| 0 <= i < decimal(n).len() ==> 48 <= #[trigger] decimal(n)[i] <= 57,
    decreases n,
{
    if n >= 10 {
        lemma_decimal_digits(n / 10);
        let d = decimal(n / 10);
        assert forall|i: int| 0 <= i < decimal(n).len() implies 48 <= #[trigger] decimal(n)[i]
            <= 57 by {
            if i < d.len() {
                assert(decimal(n)[i] == d[i]);
            }
        }
    }
}

pub proof fn lemma_decimal_len(n: nat, k: nat)
    requires
        k >= 1,
        n < pow10(k),
    ensures
        decimal(n).len() <= k,
    decreases k,
{
    if n >= 10 {
        if k == 1 {
            reveal_with_fuel(pow10, 2);
        } else {
            assert(n / 10 < pow10((k - 1) as nat));
            lemma_decimal_len(n / 10, (k - 1) as nat);
        }
    }
}

pub proof fn lemma_u64_decimal_len(n: u64)
    ensures
        1 <= decimal(n as nat).len() <= 20,
{
    reveal_with_fuel(pow10, 21);
    lemma_decimal_len(n as nat, 20);
    lemma_decimal_nonempty(n as nat);
}

pub proof fn lemma_decimal_shape(n: nat)
    ensures
        n >= 10 ==> decimal(n).len() >= 2,
        decimal(n).len() == 1 ==> n < 10,
        n >= 1 ==> decimal(n)[0] != 48u8,
        decimal(n)[decimal(n).len() - 1] == (48 + n % 10) as u8,
    decreases n,
{
    lemma_decimal_nonempty(n);
    if n >= 10 {
        lemma_decimal_shape(n / 10);
        lemma_decimal_nonempty(n / 10);
        assert(decimal(n)[0] == decimal(n / 10)[0]);
    }
}

pub proof fn lemma_decimal_injective(a: nat, b: nat)
    requires
        decimal(a) == decimal(b),
    ensures
        a == b,
    decreases a,
{
    lemma_decimal_shape(a);
    lemma_decimal_shape(b);
    if a >= 10 && b >= 10 {
        assert(decimal(a / 10) == decimal(a).drop_last());
        assert(decimal(b / 10) == decimal(b).drop_last());
        lemma_decimal_injective(a / 10, b / 10);
    }
}

/// A number whose digits begin the digits of `n` is at most `n`.
pub proof fn lemma_decimal_prefix_le(m: nat, n: nat, k: int)
    requires
        0 < k <= decimal(n).len(),
        decimal(m) == decimal(n).subrange(0, k),
    ensures
        m <= n,
    decreases n,
{
    if k == decimal(n).len() {
        assert(decimal(n).subrange(0, k) =~= decimal(n));
        lemma_decimal_injective(m, n);
    } else {
        lemma_decimal_shape(n);
        lemma_decimal_nonempty(n);
        if n < 10 {
        } else {
            assert(decimal(n / 10) == decimal(n).drop_last());
            assert(decimal(n / 10).subrange(0, k) =~= decimal(n).subrange(0, k));
            lemma_decimal_prefix_le(m, n / 10, k);
        }
    }
}

pub proof fn lemma_pow10_mono(a: nat, b: nat)
    requires
        a <= b,
    ensures
        pow10(a) <= pow10(b),
        pow10(a) >= 1,
    decreases b,
{
    if a < b {
        lemma_pow10_mono(a, (b - 1) as nat);
    } else if a > 0 {
        lemma_pow10_mono((a - 1) as nat, (a - 1) as nat);
    }
}

/// Appends the decimal digits of `n`.
pub fn push_decimal(buf: &mut Vec<u8>, n: u64)
    ensures
        final(buf)@ == old(buf)@ + decimal(n as nat),
    decreases n,
{
    if n >= 10 {
        push_decimal(buf, n / 10);
    }
    buf.push(48u8 + (n % 10) as u8);
    proof {
        assert(final(buf)@ =~= old(buf)@ + decimal(n as nat));
    }
}

/// Appends an integer with its explicit sign.
pub fn push_signed(buf: &mut Vec<u8>, i: i64)
    ensures
        final(buf)@ == old(buf)@ + signed_decimal(i as int),
{
    if i < 0 {
        buf.push(45u8);
        let mag: u64 = (0i128 - i as i128) as u64;
        push_decimal(buf, mag);
    } else {
        buf.push(43u8);
        push_decimal(buf, i as u64);
    }
    proof {
        assert(final(buf)@ =~= old(buf)@ + signed_decimal(i as int));
    }
}

/// `10^n` for exponents whose power fits comfortably in 128 bits.
fn pow10_exec(n: u32) -> (r: u128)
    requires
        n <= 30,
    ensures
        r == pow10(n as nat),
    decreases n,
{
    if n == 0 {
        1
    } else {
        let p = pow10_exec(n - 1);
        proof {
            lemma_pow10_mono((n - 1) as nat, 30);
            reveal_with_fuel(pow10, 31);
            assert(pow10(30) == 1000000000000000000000000000000nat);
        }
        10 * p
    }
}

/// Whether the double exceeds `10^8` in absolute value.
pub fn exceeds_threshold(w: &FloatWrapper) -> (r: bool)
    requires
        w.wf(),
    ensures
        r == is_large(*w),
{
    if w.exponent >= 0 {
        if w.exponent >= 9 {
            proof {
                lemma_pow10_mono(9, w.exponent as nat);
                reveal_with_fuel(pow10, 10);
                if w.mantissa > 0 {
                    assert(w.mantissa * pow10(w.exponent as nat) >= pow10(w.exponent as nat))
                        by (nonlinear_arith)
                        requires
                            w.mantissa >= 1,
                    ;
                }
            }
            w.mantissa > 0
        } else {
            let p = pow10_exec(w.exponent as u32);
            proof {
                lemma_pow10_mono(w.exponent as nat, 8);
                reveal_with_fuel(pow10, 9);
                assert(w.mantissa * pow10(w.exponent as nat) <= 0xffff_ffff_ffff_ffffnat
                    * 100000000nat) by (nonlinear_arith)
                    requires
                        w.mantissa <= 0xffff_ffff_ffff_ffffnat,
                        pow10(w.exponent as nat) <= 100000000nat,
                ;
            }
            (w.mantissa as u128) * p > pow10_exec(8)
        }
    } else {
        let k: u32 = (8 - w.exponent as i64) as u32;
        if k > 20 {
            proof {
                lemma_pow10_mono(20, k as nat);
                reveal_with_fuel(pow10, 21);
            }
            false
        } else {
            (w.mantissa as u128) > pow10_exec(k)
        }
    }
}

/// Appends `n` zero digits.
fn push_zeros(buf: &mut Vec<u8>, n: u64)
    ensures
        final(buf)@ == old(buf)@ + zeros(n as nat),
{
    let mut i: u64 = 0;
    while i < n
        invariant
            i <= n,
            buf@ == old(buf)@ + zeros(i as nat),
        decreases n - i,
    {
        buf.push(48u8);
        i = i + 1;
        proof {
            assert(buf@ =~= old(buf)@ + zeros(i as nat));
        }
    }
}

/// Appends `src[lo..hi]`.
pub fn push_range(buf: &mut Vec<u8>, src: &Vec<u8>, lo: usize, hi: usize)
    requires
        lo <= hi <= src@.len(),
    ensures
        final(buf)@ == old(buf)@ + src@.subrange(lo as int, hi as int),
{
    let mut i: usize = lo;
    while i < hi
        invariant
            lo <= i <= hi <= src@.len(),
            buf@ == old(buf)@ + src@.subrange(lo as int, i as int),
        decreases hi - i,
    {
        buf.push(src[i]);
        i = i + 1;
        proof {
            assert(buf@ =~= old(buf)@ + src@.subrange(lo as int, i as int));
        }
    }
}

/// Appends the absolute value of `w` in scientific notation, given its mantissa digits.
fn push_scientific(buf: &mut Vec<u8>, d: &Vec<u8>, w: &FloatWrapper)
    requires
        w.wf(),
        d@ == decimal(w.mantissa as nat),
        1 <= d@.len() <= 20,
    ensures
        final(buf)@ == old(buf)@ + scientific_text(*w),
{
    let n = d.len();
    buf.push(d[0]);
    if n > 1 {
        buf.push(46u8);
        push_range(buf, d, 1, n);
    }
    buf.push(101u8);
    let x: i64 = (n as i64) - 1 + w.exponent as i64;
    if x < 0 {
        buf.push(45u8);
        push_decimal(buf, (0 - x) as u64);
    } else {
        push_decimal(buf, x as u64);
    }
    proof {
        assert(final(buf)@ =~= old(buf)@ + scientific_text(*w));
    }
}

/// Appends the absolute value of `w` in plain notation, given its mantissa digits.
fn push_fixed(buf: &mut Vec<u8>, d: &Vec<u8>, w: &FloatWrapper)
    requires
        w.wf(),
        d@ == decimal(w.mantissa as nat),
        1 <= d@.len() <= 20,
    ensures
        final(buf)@ == old(buf)@ + fixed_text(*w),
{
    let n = d.len();
    if w.exponent >= 0 {
        push_range(buf, d, 0, n);
        push_zeros(buf, w.exponent as u64);
        proof {
            assert(d@.subrange(0, n as int) =~= d@);
        }
    } else {
        let k: usize = (0 - w.exponent as i64) as usize;
        if n > k {
            push_range(buf, d, 0, n - k);
            buf.push(46u8);
            push_range(buf, d, n - k, n);
        } else {
            buf.push(48u8);
            buf.push(46u8);
            push_zeros(buf, (k - n) as u64);
            push_range(buf, d, 0, n);
            proof {
                assert(d@.subrange(0, n as int) =~= d@);
            }
        }
    }
    proof {
        assert(final(buf)@ =~= old(buf)@ + fixed_text(*w));
    }
}

/// Appends a double with its explicit sign, as the protocol renders it.
pub fn push_double(buf: &mut Vec<u8>, w: &FloatWrapper)
    requires
        w.wf(),
    ensures
        final(buf)@ == old(buf)@ + double_text(*w),
{
    if w.nan {
        buf.push(43u8);
        buf.push(78u8);
        buf.push(97u8);
        buf.push(78u8);
        proof {
            assert(final(buf)@ =~= old(buf)@ + double_text(*w));
        }
        return;
    }
    if w.infinite {
        buf.push(if w.negative { 45u8 } else { 43u8 });
        buf.push(105u8);
        buf.push(110u8);
        buf.push(102u8);
        proof {
            assert(final(buf)@ =~= old(buf)@ + double_text(*w));
        }
        return;
    }
    buf.push(if w.negative { 45u8 } else { 43u8 });
    let mut d: Vec<u8> = Vec::new();
    push_decimal(&mut d, w.mantissa);
    proof {
        assert(d@ =~= decimal(w.mantissa as nat));
        lemma_u64_decimal_len(w.mantissa);
    }
    if exceeds_threshold(w) {
        push_scientific(buf, &d, w);
    } else {
        push_fixed(buf, &d, w);
    }
    proof {
        assert(final(buf)@ =~= old(buf)@ + double_text(*w));
    }
}

} // verus!
