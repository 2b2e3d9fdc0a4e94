//! Fixed-scale decimal numerals.
//!
//! Every price and quantity in the crate is carried as an integer mantissa
//! scaled by `SCALE_FACTOR` (eight fractional digits). This module defines
//! the decimal grammar used on the wire, a verified parser from bytes to
//! mantissas, and a verified renderer back to canonical bytes.

use vstd::prelude::*;

verus! {

/// `10^8`, the fixed scale of every mantissa.
pub const SCALE_FACTOR: u64 = 100_000_000;

/// Largest integer part accepted by the parser: values reach `10^9 - 1`,
/// so mantissas stay below `10^17` and sums of two of them, times five,
/// fit comfortably in `u64`.
pub const INT_PART_LIMIT: u64 = 1_000_000_000;

/// Upper bound (exclusive) on every parsed mantissa: `INT_PART_LIMIT * SCALE_FACTOR`.
pub const MANTISSA_LIMIT: u64 = 100_000_000_000_000_000;

pub const DIGIT_ZERO: u8 = 48;

pub const DOT: u8 = 46;

pub open spec fn pow10(k: nat) -> nat
    decreases k,
{
    if k == 0 {
        1
    } else {
        10 * pow10((k - 1) as nat)
    }
}

pub open spec fn is_digit(b: u8) -> bool {
    DIGIT_ZERO <= b <= DIGIT_ZERO + 9
}

pub open spec fn all_digits(s: Seq<u8>) -> bool {
    forall|i: int| 0 <= i < s.len() ==> is_digit(#[trigger] s[i])
}

/// Numeric value of a digit string, most significant digit first.
pub open spec fn digits_value(s: Seq<u8>) -> nat
    decreases s.len(),
{
    if s.len() == 0 {
        0
    } else {
        digits_value(s.drop_last()) * 10 + (s.last() - DIGIT_ZERO) as nat
    }
}

/// The decimal digits of `n`, without leading zeros (just "0" for zero).
pub open spec fn dec_digits(n: nat) -> Seq<u8>
    decreases n,
{
    if n < 10 {
        seq![(DIGIT_ZERO + n) as u8]
    } else {
        dec_digits(n / 10).push((DIGIT_ZERO + n % 10) as u8)
    }
}

/// The decimal digits of `n` zero-padded on the left to exactly `len` digits.
pub open spec fn pad_digits(n: nat, len: nat) -> Seq<u8>
    decreases len,
{
    if len == 0 {
        Seq::empty()
    } else {
        pad_digits(n / 10, (len - 1) as nat).push((DIGIT_ZERO + n % 10) as u8)
    }
}

pub proof fn lemma_pow10_positive(k: nat)
    ensures
        pow10(k) >= 1,
    decreases k,
{
    if k > 0 {
        lemma_pow10_positive((k - 1) as nat);
    }
}

pub proof fn lemma_pow10_monotone(a: nat, b: nat)
    requires
        a <= b,
    ensures
        pow10(a) <= pow10(b),
    decreases b,
{
    if a < b {
        lemma_pow10_monotone(a, (b - 1) as nat);
        lemma_pow10_positive((b - 1) as nat);
    }
}

pub proof fn lemma_dec_digits_value(n: nat)
    ensures
        digits_value(dec_digits(n)) == n,
        all_digits(dec_digits(n)),
        dec_digits(n).len() >= 1,
        n > 0 ==> dec_digits(n)[0] != DIGIT_ZERO,
        n < 10 ==> dec_digits(n).len() == 1,
    decreases n,
{
    if n < 10 {
        let s = dec_digits(n);
        assert(s.drop_last() =~= Seq::<u8>::empty());
        assert(digits_value(s) == digits_value(s.drop_last()) * 10 + (s.last() - DIGIT_ZERO) as nat);
        assert(digits_value(s) == n);
    } else {
        lemma_dec_digits_value(n / 10);
        let s = dec_digits(n);
        assert(s.drop_last() =~= dec_digits(n / 10));
        assert(s.last() == (DIGIT_ZERO + n % 10) as u8);
        assert(digits_value(s) == (n / 10) * 10 + n % 10);
        assert((n / 10) * 10 + n % 10 == n) by (nonlinear_arith);
        assert(s[0] == dec_digits(n / 10)[0]);
    }
}

pub proof fn lemma_pad_digits_value(n: nat, len: nat)
    requires
        n < pow10(len),
    ensures
        digits_value(pad_digits(n, len)) == n,
        all_digits(pad_digits(n, len)),
        pad_digits(n, len).len() == len,
    decreases len,
{
    if len == 0 {
        assert(pow10(0) == 1);
    } else {
        assert(pow10(len) == 10 * pow10((len - 1) as nat));
        assert(n / 10 < pow10((len - 1) as nat)) by (nonlinear_arith)
            requires
                n < 10 * pow10((len - 1) as nat),
        ;
        lemma_pad_digits_value(n / 10, (len - 1) as nat);
        let s = pad_digits(n, len);
        assert(s.drop_last() =~= pad_digits(n / 10, (len - 1) as nat));
        assert(digits_value(s) == (n / 10) * 10 + n % 10);
        assert((n / 10) * 10 + n % 10 == n) by (nonlinear_arith);
    }
}

/// Value of a digit string grows with its prefix: reading one more digit
/// multiplies the accumulated value by ten and adds that digit.
pub proof fn lemma_digits_value_step(s: Seq<u8>, i: int)
    requires
        0 <= i < s.len(),
        is_digit(s[i]),
    ensures
        digits_value(s.take(i + 1)) == digits_value(s.take(i)) * 10 + (s[i] - DIGIT_ZERO),
{
    let t = s.take(i + 1);
    assert(t.len() == i + 1);
    assert(t.drop_last() =~= s.take(i));
    assert(t.last() == s[i]);
    assert(digits_value(t) == digits_value(t.drop_last()) * 10 + (t.last() - DIGIT_ZERO) as nat);
}

/// A digit string's value never shrinks as more digits are read.
pub proof fn lemma_digits_value_monotone(s: Seq<u8>, i: int, j: int)
    requires
        0 <= i <= j <= s.len(),
        forall|p: int| 0 <= p < j ==> is_digit(#[trigger] s[p]),
    ensures
        digits_value(s.take(i)) <= digits_value(s.take(j)),
    decreases j - i,
{
    if i < j {
        lemma_digits_value_step(s, j - 1);
        lemma_digits_value_monotone(s, i, j - 1);
    }
}

/// Bound on a digit string's value from its length.
pub proof fn lemma_digits_value_bound(s: Seq<u8>)
    requires
        all_digits(s),
    ensures
        digits_value(s) < pow10(s.len() as nat),
    decreases s.len(),
{
    if s.len() == 0 {
    } else {
        lemma_digits_value_bound(s.drop_last());
        assert(pow10(s.len() as nat) == 10 * pow10((s.len() - 1) as nat));
        let v = digits_value(s.drop_last());
        assert(v * 10 + (s.last() - DIGIT_ZERO) < 10 * pow10((s.len() - 1) as nat))
            by (nonlinear_arith)
            requires
                v < pow10((s.len() - 1) as nat),
                s.last() - DIGIT_ZERO < 10,
                is_digit(s.last()),
        ;
    }
}

pub proof fn lemma_pow10_adds(a: nat, b: nat)
    ensures
        pow10(a + b) == pow10(a) * pow10(b),
    decreases a,
{
    if a == 0 {
        assert(pow10(b) == 1 * pow10(b));
    } else {
        lemma_pow10_adds((a - 1) as nat, b);
        assert(pow10(a + b) == 10 * pow10((a - 1) as nat + b));
        assert(10 * (pow10((a - 1) as nat) * pow10(b)) == (10 * pow10((a - 1) as nat)) * pow10(b))
            by (nonlinear_arith);
    }
}

pub proof fn lemma_pow10_8()
    ensures
        pow10(8) == SCALE_FACTOR,
{
    assert(pow10(8) == 100_000_000) by {
        assert(pow10(0) == 1);
        assert(pow10(1) == 10);
        assert(pow10(2) == 100);
        assert(pow10(3) == 1000);
        assert(pow10(4) == 10000);
        assert(pow10(5) == 100000);
        assert(pow10(6) == 1000000);
        assert(pow10(7) == 10000000);
        assert(pow10(8) == 100000000);
    }
}

/// A numeral with a fractional part: the dot sits at `k`, with a non-empty
/// all-digit integer part before it and one to eight digits after it.
pub open spec fn valid_scaled_at(s: Seq<u8>, k: int) -> bool {
    &&& 1 <= k < s.len()
    &&& s[k] == DOT
    &&& all_digits(s.take(k))
    &&& all_digits(s.skip(k + 1))
    &&& 1 <= s.len() - k - 1 <= 8
    &&& digits_value(s.take(k)) < INT_PART_LIMIT
}

/// The decimal grammar accepted on the wire: digits, optionally followed by
/// a dot and one to eight fractional digits, the integer part below
/// `INT_PART_LIMIT`.
pub open spec fn valid_scaled(s: Seq<u8>) -> bool {
    if all_digits(s) {
        s.len() >= 1 && digits_value(s) < INT_PART_LIMIT as nat
    } else {
        exists|k: int| valid_scaled_at(s, k)
    }
}

pub open spec fn scaled_value_at(s: Seq<u8>, k: int) -> nat {
    digits_value(s.take(k)) * (SCALE_FACTOR as nat) + digits_value(s.skip(k + 1)) * pow10(
        (8 - (s.len() - k - 1)) as nat,
    )
}

/// The mantissa denoted by a numeral in the grammar.
pub open spec fn scaled_value(s: Seq<u8>) -> nat {
    if all_digits(s) {
        digits_value(s) * (SCALE_FACTOR as nat)
    } else {
        scaled_value_at(s, choose|k: int| valid_scaled_at(s, k))
    }
}

/// At most one position can carry the dot.
pub proof fn lemma_valid_scaled_at_unique(s: Seq<u8>, k1: int, k2: int)
    requires
        valid_scaled_at(s, k1),
        valid_scaled_at(s, k2),
    ensures
        k1 == k2,
{
    if k1 < k2 {
        assert(is_digit(s.take(k2)[k1]));
        assert(s[k1] == DOT);
    }
    if k2 < k1 {
        assert(is_digit(s.take(k1)[k2]));
        assert(s[k2] == DOT);
    }
}

/// `10^k` as an executable value.
pub fn pow10_exec(k: u32) -> (r: u64)
    requires
        k <= 17,
    ensures
        r == pow10(k as nat),
{
    let mut r: u64 = 1;
    let mut j: u32 = 0;
    while j < k
        invariant
            j <= k <= 17,
            r == pow10(j as nat),
        decreases k - j,
    {
        proof {
            lemma_pow10_monotone((j + 1) as nat, 17);
            lemma_pow10_monotone(17, 17);
            assert(pow10(17) == 100_000_000_000_000_000) by {
                lemma_pow10_8();
                lemma_pow10_adds(8, 8);
                lemma_pow10_adds(16, 1);
            }
        }
        r = r * 10;
        j = j + 1;
    }
    r
}

/// Index just past the run of digit bytes starting at `from`.
fn scan_digits(s: &[u8], from: usize) -> (r: usize)
    requires
        from <= s@.len(),
    ensures
        from <= r <= s@.len(),
        forall|p: int| from <= p < r ==> is_digit(#[trigger] s@[p]),
        r < s@.len() ==> !is_digit(s@[r as int]),
{
    let n = s.len();
    let mut i: usize = from;
    loop
        invariant
            from <= i <= n == s@.len(),
            forall|p: int| from <= p < i ==> is_digit(#[trigger] s@[p]),
        ensures
            from <= i <= s@.len(),
            forall|p: int| from <= p < i ==> is_digit(#[trigger] s@[p]),
            i < s@.len() ==> !is_digit(s@[i as int]),
        decreases n - i,
    {
        if i == n {
            break;
        }
        let b = s[i];
        if b < DIGIT_ZERO || b > DIGIT_ZERO + 9 {
            break;
        }
        i = i + 1;
    }
    i
}

/// Value of the digit run `s[from..to]`, refused once it reaches
/// `INT_PART_LIMIT`.
fn digits_to_value(s: &[u8], from: usize, to: usize) -> (r: Option<u64>)
    requires
        from <= to <= s@.len(),
        forall|p: int| from <= p < to ==> is_digit(#[trigger] s@[p]),
    ensures
        match r {
            Some(v) => v == digits_value(s@.subrange(from as int, to as int)) && v
                < INT_PART_LIMIT,
            None => digits_value(s@.subrange(from as int, to as int)) >= INT_PART_LIMIT,
        },
{
    let ghost t = s@.subrange(from as int, to as int);
    let mut i: usize = from;
    let mut val: u64 = 0;
    while i < to
        invariant
            from <= i <= to <= s@.len(),
            forall|p: int| from <= p < to ==> is_digit(#[trigger] s@[p]),
            t == s@.subrange(from as int, to as int),
            val == digits_value(t.take(i - from)),
            val < INT_PART_LIMIT,
        decreases to - i,
    {
        let b = s[i];
        proof {
            assert(is_digit(s@[i as int]));
            assert(t[i - from] == s@[i as int]);
            lemma_digits_value_step(t, i - from);
        }
        if val >= INT_PART_LIMIT / 10 {
            proof {
                lemma_digits_value_monotone(t, i - from + 1, t.len() as int);
                assert(t.take(t.len() as int) =~= t);
            }
            return None;
        }
        val = val * 10 + (b - DIGIT_ZERO) as u64;
        i = i + 1;
    }
    proof {
        assert(t.take(t.len() as int) =~= t);
    }
    Some(val)
}

/// Parses a decimal numeral to its mantissa at `SCALE_FACTOR`.
///
/// Returns the mantissa exactly when the bytes lie in the grammar; every
/// other input is rejected.
pub fn parse_scaled(s: &[u8]) -> (r: Option<u64>)
    ensures
        match r {
            Some(m) => valid_scaled(s@) && m == scaled_value(s@) && m < MANTISSA_LIMIT,
            None => !valid_scaled(s@),
        },
{
    let n = s.len();
    if n == 0 {
        return None;
    }
    let end_int = scan_digits(s, 0);
    if end_int == 0 {
        // The first byte is not a digit, so no reading of the grammar fits.
        proof {
            assert(!all_digits(s@)) by {
                assert(!is_digit(s@[0]));
            }
            assert forall|k: int| !valid_scaled_at(s@, k) by {
                if valid_scaled_at(s@, k) {
                    assert(is_digit(s@.take(k)[0]));
                }
            }
        }
        return None;
    }
    let int_val = match digits_to_value(s, 0, end_int) {
        Some(v) => v,
        None => {
            proof {
                assert(s@.subrange(0, end_int as int) =~= s@.take(end_int as int));
                lemma_no_valid_scaled_big(s@, end_int as int);
            }
            return None;
        },
    };
    proof {
        assert(s@.subrange(0, end_int as int) =~= s@.take(end_int as int));
    }
    if end_int == n {
        proof {
            assert(s@.take(n as int) =~= s@);
            assert(all_digits(s@));
            lemma_pow10_8();
        }
        return Some(int_val * SCALE_FACTOR);
    }
    proof {
        assert(!all_digits(s@));
    }
    let b = s[end_int];
    if b != DOT {
        proof {
            assert forall|k: int| !valid_scaled_at(s@, k) by {
                if valid_scaled_at(s@, k) {
                    lemma_dot_position(s@, k, end_int as int);
                }
            }
        }
        return None;
    }
    let dot = end_int;
    let frac_len = n - dot - 1;
    if frac_len < 1 || frac_len > 8 {
        proof {
            assert forall|k: int| !valid_scaled_at(s@, k) by {
                if valid_scaled_at(s@, k) {
                    lemma_dot_position(s@, k, dot as int);
                }
            }
        }
        return None;
    }
    let end_frac = scan_digits(s, dot + 1);
    if end_frac != n {
        // A non-digit sits inside the fractional part.
        proof {
            assert forall|k: int| !valid_scaled_at(s@, k) by {
                if valid_scaled_at(s@, k) {
                    lemma_dot_position(s@, k, dot as int);
                    assert(is_digit(s@.skip(dot + 1)[end_frac - dot - 1]));
                }
            }
            assert(!all_digits(s@));
        }
        return None;
    }
    let frac_val = match digits_to_value(s, dot + 1, n) {
        Some(v) => v,
        None => {
            proof {
                let f = s@.subrange(dot + 1, n as int);
                lemma_digits_value_bound(f);
                lemma_pow10_monotone(f.len() as nat, 8);
                lemma_pow10_8();
            }
            return None;
        },
    };
    let scale_rest = pow10_exec((8 - frac_len) as u32);
    proof {
        let f = s@.skip(dot + 1);
        assert(s@.subrange(dot + 1, n as int) =~= f);
        assert(valid_scaled_at(s@, dot as int));
        let kk = choose|k: int| valid_scaled_at(s@, k);
        lemma_valid_scaled_at_unique(s@, kk, dot as int);
        lemma_digits_value_bound(f);
        lemma_pow10_adds((frac_len) as nat, (8 - frac_len) as nat);
        lemma_pow10_8();
        lemma_pow10_positive((8 - frac_len) as nat);
        assert(digits_value(f) * pow10((8 - frac_len) as nat) < pow10(frac_len as nat) * pow10(
            (8 - frac_len) as nat,
        )) by (nonlinear_arith)
            requires
                digits_value(f) < pow10(frac_len as nat),
                pow10((8 - frac_len) as nat) >= 1,
        ;
        assert(frac_val * scale_rest < SCALE_FACTOR);
        assert(int_val * SCALE_FACTOR + frac_val * scale_rest < MANTISSA_LIMIT)
            by (nonlinear_arith)
            requires
                int_val < INT_PART_LIMIT,
                frac_val * scale_rest < SCALE_FACTOR,
                INT_PART_LIMIT == 1_000_000_000u64,
                SCALE_FACTOR == 100_000_000u64,
                MANTISSA_LIMIT == 100_000_000_000_000_000u64,
        ;
    }
    Some(int_val * SCALE_FACTOR + frac_val * scale_rest)
}

/// Once ten digits have been read, no reading of the grammar accepts the bytes.
proof fn lemma_no_valid_scaled_big(s: Seq<u8>, i: int)
    requires
        0 < i <= s.len(),
        forall|p: int| 0 <= p < i ==> is_digit(#[trigger] s[p]),
        digits_value(s.take(i)) >= INT_PART_LIMIT,
    ensures
        !valid_scaled(s),
{
    if all_digits(s) {
        lemma_digits_value_monotone(s, i, s.len() as int);
        assert(s.take(s.len() as int) =~= s);
    } else {
        assert forall|k: int| !valid_scaled_at(s, k) by {
            if valid_scaled_at(s, k) {
                assert(s[k] == DOT);
                assert(!is_digit(s[k]));
                assert(k >= i);
                assert forall|p: int| 0 <= p < k implies is_digit(#[trigger] s[p]) by {
                    assert(is_digit(s.take(k)[p]));
                }
                lemma_digits_value_monotone(s, i, k);
            }
        }
    }
}

/// In a valid dotted numeral the dot stands at the first non-digit byte.
proof fn lemma_dot_position(s: Seq<u8>, k: int, i: int)
    requires
        valid_scaled_at(s, k),
        0 <= i < s.len(),
        !is_digit(s[i]),
        forall|p: int| 0 <= p < i ==> is_digit(#[trigger] s[p]),
    ensures
        k == i,
{
    if k < i {
        assert(is_digit(s[k]));
        assert(s[k] == DOT);
    }
    if k > i {
        assert(is_digit(s.take(k)[i]));
    }
}


/// Fractional digits with trailing zeros removed: `(value, digit count)`.
pub open spec fn trim_frac(f: nat, len: nat) -> (nat, nat)
    decreases len,
{
    if len <= 1 {
        (f, len)
    } else if f % 10 == 0 {
        trim_frac(f / 10, (len - 1) as nat)
    } else {
        (f, len)
    }
}

pub proof fn lemma_trim_frac(f: nat, len: nat)
    requires
        f < pow10(len),
        1 <= len,
    ensures
        1 <= trim_frac(f, len).1 <= len,
        trim_frac(f, len).0 < pow10(trim_frac(f, len).1),
        f == trim_frac(f, len).0 * pow10((len - trim_frac(f, len).1) as nat),
    decreases len,
{
    if len <= 1 {
        assert(pow10(0) == 1);
        assert(f == f * 1);
    } else if f % 10 == 0 {
        assert(pow10(len) == 10 * pow10((len - 1) as nat));
        assert(f / 10 < pow10((len - 1) as nat)) by (nonlinear_arith)
            requires
                f < 10 * pow10((len - 1) as nat),
        ;
        lemma_trim_frac(f / 10, (len - 1) as nat);
        let t = trim_frac(f, len);
        assert(t == trim_frac(f / 10, (len - 1) as nat));
        assert(f == (f / 10) * 10) by (nonlinear_arith)
            requires
                f % 10 == 0,
        ;
        assert(pow10((len - t.1) as nat) == pow10(((len - 1) - t.1) as nat) * 10) by {
            lemma_pow10_adds(((len - 1) - t.1) as nat, 1);
            assert(pow10(0) == 1);
            assert(pow10(1) == 10);
        }
        assert((t.0 * pow10(((len - 1) - t.1) as nat)) * 10 == t.0 * (pow10(
            ((len - 1) - t.1) as nat,
        ) * 10)) by (nonlinear_arith);
    } else {
        assert(pow10(0) == 1);
        assert(f == f * 1);
    }
}

/// The canonical byte rendering of a mantissa: integer part, then, when the
/// fractional part is not zero, a dot and the fractional digits with
/// trailing zeros removed.
pub open spec fn scaled_bytes(m: nat) -> Seq<u8> {
    let i = m / (SCALE_FACTOR as nat);
    let f = m % (SCALE_FACTOR as nat);
    if f == 0 {
        dec_digits(i)
    } else {
        let t = trim_frac(f, 8);
        dec_digits(i) + seq![DOT] + pad_digits(t.0, t.1)
    }
}

/// The decimal digits of `n`, as a vector.
pub fn render_u64(n: u64) -> (r: Vec<u8>)
    ensures
        r@ == dec_digits(n as nat),
{
    let mut out: Vec<u8> = Vec::new();
    if n < 10 {
        out.push(DIGIT_ZERO + (n as u8));
        proof {
            assert(out@ =~= dec_digits(n as nat));
        }
        return out;
    }
    let mut cur: u64 = n;
    loop
        invariant
            cur > 0 ==> dec_digits(n as nat) =~= dec_digits(cur as nat) + out@,
            cur == 0 ==> dec_digits(n as nat) =~= out@,
        ensures
            out@ == dec_digits(n as nat),
        decreases cur,
    {
        if cur == 0 {
            break;
        }
        let d = DIGIT_ZERO + ((cur % 10) as u8);
        out.insert(0, d);
        proof {
            if cur >= 10 {
                assert(dec_digits(cur as nat) =~= dec_digits((cur as nat) / 10) + seq![d]);
            } else {
                assert(dec_digits(cur as nat) =~= seq![d]);
            }
        }
        cur = cur / 10;
    }
    out
}

/// The decimal digits of `n` zero-padded on the left to `len` digits.
pub fn render_padded(n: u64, len: usize) -> (r: Vec<u8>)
    requires
        len <= 17,
        n < pow10(len as nat),
    ensures
        r@ == pad_digits(n as nat, len as nat),
{
    let mut out: Vec<u8> = Vec::new();
    let mut cur: u64 = n;
    let mut left: usize = len;
    loop
        invariant
            left <= len,
            pad_digits(n as nat, len as nat) =~= pad_digits(cur as nat, left as nat) + out@,
        ensures
            out@ == pad_digits(n as nat, len as nat),
        decreases left,
    {
        if left == 0 {
            proof {
                assert(pad_digits(cur as nat, 0) =~= Seq::<u8>::empty());
                assert(pad_digits(n as nat, len as nat) =~= out@);
            }
            break;
        }
        let d = DIGIT_ZERO + ((cur % 10) as u8);
        out.insert(0, d);
        proof {
            assert(pad_digits(cur as nat, left as nat) =~= pad_digits(
                (cur as nat) / 10,
                (left - 1) as nat,
            ) + seq![d]);
        }
        cur = cur / 10;
        left = left - 1;
    }
    out
}

/// Renders a mantissa as its canonical decimal numeral.
pub fn render_scaled(m: u64) -> (r: Vec<u8>)
    ensures
        r@ == scaled_bytes(m as nat),
{
    let int_part = m / SCALE_FACTOR;
    let frac = m % SCALE_FACTOR;
    let mut out = render_u64(int_part);
    if frac == 0 {
        return out;
    }
    out.push(DOT);
    let mut f: u64 = frac;
    let mut flen: usize = 8;
    proof {
        lemma_pow10_8();
    }
    loop
        invariant
            1 <= flen <= 8,
            f < pow10(flen as nat),
            0 < f,
            trim_frac(frac as nat, 8) == trim_frac(f as nat, flen as nat),
        ensures
            1 <= flen <= 8,
            f < pow10(flen as nat),
            trim_frac(frac as nat, 8) == (f as nat, flen as nat),
        decreases flen,
    {
        if flen == 1 || f % 10 != 0 {
            break;
        }
        proof {
            assert(pow10(flen as nat) == 10 * pow10((flen - 1) as nat));
            assert(f / 10 < pow10((flen - 1) as nat)) by (nonlinear_arith)
                requires
                    f < 10 * pow10((flen - 1) as nat),
            ;
        }
        f = f / 10;
        flen = flen - 1;
    }
    let mut tail = render_padded(f, flen);
    let ghost before = out@;
    out.append(&mut tail);
    proof {
        assert(out@ =~= scaled_bytes(m as nat));
    }
    out
}

/// Rendering a mantissa and parsing the result gives the mantissa back:
/// the canonical numeral lies in the grammar and denotes exactly `m`.
pub proof fn lemma_scaled_round_trip(m: nat)
    requires
        m < MANTISSA_LIMIT,
    ensures
        valid_scaled(scaled_bytes(m)),
        scaled_value(scaled_bytes(m)) == m,
{
    let sf = SCALE_FACTOR as nat;
    let i = m / sf;
    let f = m % sf;
    lemma_pow10_8();
    assert(m == sf * i + f) by {
        vstd::arithmetic::div_mod::lemma_fundamental_div_mod(m as int, sf as int);
    }
    assert(i < INT_PART_LIMIT) by (nonlinear_arith)
        requires
            m < MANTISSA_LIMIT,
            i == m / sf,
            sf == 100_000_000,
            MANTISSA_LIMIT == 100_000_000_000_000_000u64,
    ;
    lemma_dec_digits_value(i);
    let d = dec_digits(i);
    if f == 0 {
        assert(scaled_bytes(m) == d);
        assert(valid_scaled(d));
        assert(scaled_value(d) == i * sf);
        assert(i * sf == sf * i) by (nonlinear_arith);
    } else {
        lemma_trim_frac(f, 8);
        let t = trim_frac(f, 8);
        lemma_pad_digits_value(t.0, t.1);
        let pd = pad_digits(t.0, t.1);
        let s = d + seq![DOT] + pd;
        assert(scaled_bytes(m) == s);
        let k = d.len() as int;
        assert(valid_scaled_at(s, k)) by {
            assert(s[k] == DOT);
            assert(s.take(k) =~= d);
            assert(s.skip(k + 1) =~= pd);
            assert(1 <= s.len() - k - 1 <= 8);
        }
        assert(!all_digits(s)) by {
            assert(s[k] == DOT && !is_digit(DOT));
        }
        let kk = choose|k2: int| valid_scaled_at(s, k2);
        assert(valid_scaled_at(s, kk));
        lemma_valid_scaled_at_unique(s, kk, k);
        assert(s.take(k) =~= d);
        assert(s.skip(k + 1) =~= pd);
        assert(s.len() - k - 1 == t.1);
        assert(scaled_value(s) == scaled_value_at(s, k));
        assert(scaled_value(s) == i * sf + t.0 * pow10((8 - t.1) as nat));
        assert(f == t.0 * pow10((8 - t.1) as nat));
        assert(i * sf == sf * i) by (nonlinear_arith);
    }
}

} // verus!\n