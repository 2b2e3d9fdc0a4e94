//! Generators for order, client-order, trace and span identifiers.
//!
//! The variable parts come from the wall clock and from random draws, so
//! the contracts pin the shape of each identifier: its prefix, its
//! separators, and the character classes of its variable fields.

use vstd::prelude::*;

use crate::decimal::dec_digits;
use crate::decimal::lemma_dec_digits_value;
use crate::sys::clock_now;
use crate::sys::random_u128;
use crate::text::from_ascii_bytes;

verus! {

/// The decimal digits of `n` as characters.
pub open spec fn dec_chars(n: nat) -> Seq<char> {
    dec_digits(n).map(|i: int, b: u8| b as char)
}

/// The hexadecimal digit characters of `n`, zero-padded to `len` digits.
pub open spec fn hex_chars(n: nat, len: nat) -> Seq<char>
    decreases len,
{
    if len == 0 {
        Seq::empty()
    } else {
        hex_chars(n / 16, (len - 1) as nat).push(hex_digit(n % 16))
    }
}

pub open spec fn hex_digit(d: nat) -> char {
    if d < 10 {
        ((48 + d) as u8) as char
    } else {
        ((87 + d) as u8) as char
    }
}

/// The decimal digits of `n`, as an owned string.
fn render_u64_string(n: u64) -> (r: String)
    ensures
        r@ == dec_chars(n as nat),
{
    let bytes = crate::decimal::render_u64(n);
    proof {
        lemma_dec_digits_value(n as nat);
        assert(forall|i: int| 0 <= i < bytes@.len() ==> #[trigger] bytes@[i] < 128);
    }
    let s = from_ascii_bytes(bytes);
    proof {
        assert(s@ =~= dec_chars(n as nat));
    }
    s
}

/// The low 64 bits of `n` in hexadecimal, sixteen digits.
fn render_hex16(n: u64) -> (r: String)
    ensures
        r@ == hex_chars(n as nat, 16),
{
    let mut bytes: Vec<u8> = Vec::new();
    let mut cur: u64 = n;
    let mut left: usize = 16;
    loop
        invariant
            left <= 16,
            hex_chars(n as nat, 16) =~= hex_chars(cur as nat, left as nat) + bytes@.map(
                |i: int, b: u8| b as char,
            ),
            forall|i: int| 0 <= i < bytes@.len() ==> #[trigger] bytes@[i] < 128,
        ensures
            bytes@.map(|i: int, b: u8| b as char) == hex_chars(n as nat, 16),
            forall|i: int| 0 <= i < bytes@.len() ==> #[trigger] bytes@[i] < 128,
        decreases left,
    {
        if left == 0 {
            proof {
                assert(hex_chars(cur as nat, 0) =~= Seq::<char>::empty());
                assert(hex_chars(n as nat, 16) =~= bytes@.map(|i: int, b: u8| b as char));
            }
            break;
        }
        let d = (cur % 16) as u8;
        let c: u8 = if d < 10 {
            48 + d
        } else {
            87 + d
        };
        let ghost prev = bytes@;
        bytes.insert(0, c);
        proof {
            assert(c as char == hex_digit((cur as nat) % 16));
            assert(hex_chars(cur as nat, left as nat) =~= hex_chars(
                (cur as nat) / 16,
                (left - 1) as nat,
            ) + seq![hex_digit((cur as nat) % 16)]);
            assert(bytes@.map(|i: int, b: u8| b as char) =~= seq![hex_digit((cur as nat) % 16)]
                + prev.map(|i: int, b: u8| b as char));
        }
        cur = cur / 16;
        left = left - 1;
    }
    from_ascii_bytes(bytes)
}

/// `prefix`, an underscore, then the decimal digits of `stamp`.
pub fn format_id(prefix: &str, stamp: u64) -> (r: String)
    ensures
        r@ == prefix@ + seq!['_'] + dec_chars(stamp as nat),
{
    let mut out = crate::text::owned_str(prefix);
    out.append("_");
    let digits = render_u64_string(stamp);
    out.append(digits.as_str());
    proof {
        reveal_strlit("_");
        assert(out@ =~= prefix@ + seq!['_'] + dec_chars(stamp as nat));
    }
    out
}

/// A fresh order id: the prefix, an underscore, and the wall clock in
/// nanoseconds.
pub fn generate_order_id(prefix: &str) -> (r: String)
    ensures
        exists|t: u64| r@ == prefix@ + seq!['_'] + dec_chars(t as nat),
{
    let (secs, nanos) = clock_now();
    let stamp: u64 = if secs > 18_000_000_000 {
        u64::MAX
    } else {
        secs * 1_000_000_000 + nanos as u64
    };
    let r = format_id(prefix, stamp);
    proof {
        assert(r@ == prefix@ + seq!['_'] + dec_chars(stamp as nat));
    }
    r
}

/// A fresh client order id: the strategy id, an underscore, the wall
/// clock in milliseconds, an underscore, and a fresh draw.
pub fn generate_client_order_id(strategy_id: &str) -> (r: String)
    ensures
        exists|t: u64, c: u64|
            r@ == strategy_id@ + seq!['_'] + dec_chars(t as nat) + seq!['_'] + dec_chars(c as nat),
{
    let (secs, nanos) = clock_now();
    let stamp: u64 = if secs > 18_000_000_000_000 {
        u64::MAX
    } else {
        secs * 1_000 + (nanos / 1_000_000) as u64
    };
    let draw = (random_u128() % 0x1_0000_0000_0000_0000) as u64;
    let mut out = format_id(strategy_id, stamp);
    out.append("_");
    let digits = render_u64_string(draw);
    out.append(digits.as_str());
    proof {
        reveal_strlit("_");
        assert(out@ =~= strategy_id@ + seq!['_'] + dec_chars(stamp as nat) + seq!['_'] + dec_chars(
            draw as nat,
        ));
    }
    out
}

/// A fresh span id: sixteen hexadecimal digits of a random draw.
pub fn generate_span_id() -> (r: String)
    ensures
        exists|v: u64| r@ == hex_chars(v as nat, 16),
        r@.len() == 16,
{
    let draw = (random_u128() % 0x1_0000_0000_0000_0000) as u64;
    let r = render_hex16(draw);
    proof {
        lemma_hex_chars_len(draw as nat, 16);
    }
    r
}

/// A fresh trace id: thirty-two hexadecimal digits of a random draw.
pub fn generate_trace_id() -> (r: String)
    ensures
        r@.len() == 32,
{
    let draw = random_u128();
    let high = (draw >> 64) as u64;
    let low = (draw % 0x1_0000_0000_0000_0000) as u64;
    let mut out = render_hex16(high);
    let tail = render_hex16(low);
    out.append(tail.as_str());
    proof {
        lemma_hex_chars_len(high as nat, 16);
        lemma_hex_chars_len(low as nat, 16);
    }
    out
}

pub proof fn lemma_hex_chars_len(n: nat, len: nat)
    ensures
        hex_chars(n, len).len() == len,
    decreases len,
{
    if len > 0 {
        lemma_hex_chars_len(n / 16, (len - 1) as nat);
    }
}

} // verus!
