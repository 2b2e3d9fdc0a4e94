//! The canonical order-book payload.
//!
//! A book is published as one JSON object,
//! `{"symbol":S,"bids":{P:Q,...},"asks":{P:Q,...},"last_update_id":N,"timestamp":N}`,
//! with bids keyed best (highest) price first, asks best (lowest) price
//! first, prices as quoted canonical decimal numerals and quantities as
//! bare ones. `json_book` is the byte-exact specification of that text;
//! the emitter produces exactly it, the parser accepts exactly it, and
//! the payload determines the book (`lemma_payload_identifies_book`).

use vstd::prelude::*;

use crate::book::OrderBook;
use crate::book::PriceLevel;
use crate::book::symbol_wf;
use crate::decimal::MANTISSA_LIMIT;
use crate::decimal::scaled_bytes;
use crate::decimal::dec_digits;
use crate::decimal::digits_value;

verus! {

pub const QUOTE: u8 = 34;

pub const COMMA: u8 = 44;

pub const COLON: u8 = 58;

pub const LBRACE: u8 = 123;

pub const RBRACE: u8 = 125;

/// `{"symbol":"`
pub open spec fn lit_head() -> Seq<u8> {
    seq![123u8, 34u8, 115u8, 121u8, 109u8, 98u8, 111u8, 108u8, 34u8, 58u8, 34u8]
}

/// `","bids":`
pub open spec fn lit_bids() -> Seq<u8> {
    seq![34u8, 44u8, 34u8, 98u8, 105u8, 100u8, 115u8, 34u8, 58u8]
}

/// `,"asks":`
pub open spec fn lit_asks() -> Seq<u8> {
    seq![44u8, 34u8, 97u8, 115u8, 107u8, 115u8, 34u8, 58u8]
}

/// `,"last_update_id":`
pub open spec fn lit_luid() -> Seq<u8> {
    seq![44u8, 34u8, 108u8, 97u8, 115u8, 116u8, 95u8, 117u8, 112u8, 100u8, 97u8, 116u8, 101u8, 95u8, 105u8, 100u8, 34u8, 58u8]
}

/// `,"timestamp":`
pub open spec fn lit_ts() -> Seq<u8> {
    seq![44u8, 34u8, 116u8, 105u8, 109u8, 101u8, 115u8, 116u8, 97u8, 109u8, 112u8, 34u8, 58u8]
}

/// ASCII bytes of a symbol.
pub open spec fn sym_bytes(sym: Seq<char>) -> Seq<u8> {
    Seq::new(sym.len(), |i: int| sym[i] as u8)
}

/// `"P":Q` for one level.
pub open spec fn entry_bytes(l: PriceLevel) -> Seq<u8> {
    seq![QUOTE] + scaled_bytes(l.price as nat) + seq![QUOTE, COLON] + scaled_bytes(
        l.quantity as nat,
    )
}

/// Comma-separated entries of one side.
pub open spec fn side_entries(ls: Seq<PriceLevel>) -> Seq<u8>
    decreases ls.len(),
{
    if ls.len() == 0 {
        Seq::empty()
    } else if ls.len() == 1 {
        entry_bytes(ls[0])
    } else {
        entry_bytes(ls[0]) + seq![COMMA] + side_entries(ls.skip(1))
    }
}

/// One side as a JSON object.
pub open spec fn side_obj(ls: Seq<PriceLevel>) -> Seq<u8> {
    seq![LBRACE] + side_entries(ls) + seq![RBRACE]
}

/// The canonical payload text of a book.
pub open spec fn json_book(b: &OrderBook) -> Seq<u8> {
    lit_head() + sym_bytes(b.symbol@) + lit_bids() + side_obj(b.bids@.reverse()) + lit_asks()
        + side_obj(b.asks@) + lit_luid() + dec_digits(b.last_update_id as nat) + lit_ts()
        + dec_digits(b.timestamp as nat) + seq![RBRACE]
}

/// Appending one more level appends a comma and its entry.
pub proof fn lemma_side_entries_snoc(ls: Seq<PriceLevel>, l: PriceLevel)
    requires
        ls.len() >= 1,
    ensures
        side_entries(ls.push(l)) == side_entries(ls) + seq![COMMA] + entry_bytes(l),
    decreases ls.len(),
{
    let s = ls.push(l);
    if ls.len() == 1 {
        assert(s.len() == 2);
        assert(s[0] == ls[0]);
        assert(s.skip(1) =~= seq![l]);
        assert(side_entries(s.skip(1)) == entry_bytes(l));
        assert(side_entries(s) =~= entry_bytes(ls[0]) + seq![COMMA] + entry_bytes(l));
        assert(side_entries(ls) == entry_bytes(ls[0]));
    } else {
        assert(s[0] == ls[0]);
        assert(s.skip(1) =~= ls.skip(1).push(l));
        lemma_side_entries_snoc(ls.skip(1), l);
        assert(side_entries(s) =~= entry_bytes(ls[0]) + seq![COMMA] + side_entries(ls.skip(1))
            + seq![COMMA] + entry_bytes(l));
        assert(side_entries(ls) + seq![COMMA] + entry_bytes(l) =~= entry_bytes(ls[0])
            + seq![COMMA] + side_entries(ls.skip(1)) + seq![COMMA] + entry_bytes(l));
    }
}

/// Pushes `"P":Q` for one level.
fn emit_entry(out: &mut Vec<u8>, l: PriceLevel)
    ensures
        final(out)@ == old(out)@ + entry_bytes(l),
{
    out.push(QUOTE);
    let mut p = crate::decimal::render_scaled(l.price);
    out.append(&mut p);
    out.push(QUOTE);
    out.push(COLON);
    let mut q = crate::decimal::render_scaled(l.quantity);
    out.append(&mut q);
    proof {
        assert(final(out)@ =~= old(out)@ + entry_bytes(l));
    }
}

/// Pushes one side as a JSON object, entries in the order given.
fn emit_side(out: &mut Vec<u8>, ls: &Vec<PriceLevel>)
    ensures
        final(out)@ == old(out)@ + side_obj(ls@),
{
    out.push(LBRACE);
    let n = ls.len();
    if n > 0 {
        emit_entry(out, ls[0]);
        proof {
            assert(ls@.take(1) =~= seq![ls@[0]]);
            assert(side_entries(ls@.take(1)) == entry_bytes(ls@[0]));
        }
        let mut i: usize = 1;
        while i < n
            invariant
                1 <= i <= n == ls@.len(),
                out@ == old(out)@ + seq![LBRACE] + side_entries(ls@.take(i as int)),
            decreases n - i,
        {
            out.push(COMMA);
            emit_entry(out, ls[i]);
            proof {
                assert(ls@.take(i + 1) =~= ls@.take(i as int).push(ls@[i as int]));
                lemma_side_entries_snoc(ls@.take(i as int), ls@[i as int]);
                assert(out@ =~= old(out)@ + seq![LBRACE] + side_entries(ls@.take(i + 1)));
            }
            i = i + 1;
        }
        proof {
            assert(ls@.take(n as int) =~= ls@);
        }
    }
    out.push(RBRACE);
    proof {
        assert(final(out)@ =~= old(out)@ + side_obj(ls@));
    }
}

/// The bids of a book in best-first (descending price) order.
fn reversed_levels(v: &Vec<PriceLevel>) -> (r: Vec<PriceLevel>)
    ensures
        r@ == v@.reverse(),
{
    let n = v.len();
    let mut out: Vec<PriceLevel> = Vec::new();
    let mut i: usize = 0;
    while i < n
        invariant
            0 <= i <= n == v@.len(),
            out@.len() == i,
            forall|k: int| 0 <= k < i ==> out@[k] == v@[n - 1 - k],
        decreases n - i,
    {
        out.push(v[n - 1 - i]);
        i = i + 1;
    }
    proof {
        assert(out@ =~= v@.reverse());
    }
    out
}

/// Serializes a book to its canonical payload text.
#[verifier::rlimit(100)]
#[verifier::spinoff_prover]
pub fn book_payload(b: &OrderBook) -> (r: Vec<u8>)
    requires
        symbol_wf(b.symbol@),
    ensures
        r@ == json_book(b),
{
    let mut out: Vec<u8> = Vec::new();
    out.push(123u8);
    out.push(34u8);
    out.push(115u8);
    out.push(121u8);
    out.push(109u8);
    out.push(98u8);
    out.push(111u8);
    out.push(108u8);
    out.push(34u8);
    out.push(58u8);
    out.push(34u8);
    proof {
        assert(out@ =~= lit_head());
    }
    push_symbol(&mut out, &b.symbol);
    out.push(34u8);
    out.push(44u8);
    out.push(34u8);
    out.push(98u8);
    out.push(105u8);
    out.push(100u8);
    out.push(115u8);
    out.push(34u8);
    out.push(58u8);
    proof {
        assert(out@ =~= lit_head() + sym_bytes(b.symbol@) + lit_bids());
    }
    let desc_bids = reversed_levels(&b.bids);
    emit_side(&mut out, &desc_bids);
    out.push(44u8);
    out.push(34u8);
    out.push(97u8);
    out.push(115u8);
    out.push(107u8);
    out.push(115u8);
    out.push(34u8);
    out.push(58u8);
    proof {
        assert(out@ =~= lit_head() + sym_bytes(b.symbol@) + lit_bids() + side_obj(
            b.bids@.reverse(),
        ) + lit_asks());
    }
    emit_side(&mut out, &b.asks);
    let ghost mid = lit_head() + sym_bytes(b.symbol@) + lit_bids() + side_obj(b.bids@.reverse())
        + lit_asks() + side_obj(b.asks@);
    out.push(44u8);
    out.push(34u8);
    out.push(108u8);
    out.push(97u8);
    out.push(115u8);
    out.push(116u8);
    out.push(95u8);
    out.push(117u8);
    out.push(112u8);
    out.push(100u8);
    out.push(97u8);
    out.push(116u8);
    out.push(101u8);
    out.push(95u8);
    out.push(105u8);
    out.push(100u8);
    out.push(34u8);
    out.push(58u8);
    proof {
        assert(out@ =~= mid + lit_luid());
    }
    let mut luid = crate::decimal::render_u64(b.last_update_id);
    out.append(&mut luid);
    out.push(44u8);
    out.push(34u8);
    out.push(116u8);
    out.push(105u8);
    out.push(109u8);
    out.push(101u8);
    out.push(115u8);
    out.push(116u8);
    out.push(97u8);
    out.push(109u8);
    out.push(112u8);
    out.push(34u8);
    out.push(58u8);
    proof {
        assert(out@ =~= mid + lit_luid() + dec_digits(b.last_update_id as nat) + lit_ts());
    }
    let mut ts = crate::decimal::render_u64(b.timestamp);
    out.append(&mut ts);
    out.push(125u8);
    proof {
        assert(out@ =~= json_book(b));
    }
    out
}

/// Pushes the ASCII bytes of a well-formed symbol.
pub fn push_symbol(out: &mut Vec<u8>, sym: &String)
    requires
        symbol_wf(sym@),
    ensures
        final(out)@ == old(out)@ + sym_bytes(sym@),
{
    let bytes = sym.as_str().as_bytes();
    proof {
        assert(vstd::utf8::is_ascii_chars(sym@)) by {
            assert forall|i: int| 0 <= i < sym@.len() implies '\0' <= #[trigger] sym@[i]
                <= '\u{7f}' by {
                assert(crate::book::symbol_char_ok(sym@[i]));
            }
        }
        vstd::utf8::is_ascii_chars_encode_utf8(sym@);
        assert(bytes@ =~= sym_bytes(sym@));
    }
    let n = bytes.len();
    let mut i: usize = 0;
    while i < n
        invariant
            0 <= i <= n == bytes@.len(),
            bytes@ == sym_bytes(sym@),
            out@ == old(out)@ + bytes@.take(i as int),
        decreases n - i,
    {
        out.push(bytes[i]);
        proof {
            assert(old(out)@ + bytes@.take(i as int) + seq![bytes@[i as int]] =~= old(out)@
                + bytes@.take(i + 1));
        }
        i = i + 1;
    }
    proof {
        assert(bytes@.take(n as int) =~= bytes@);
    }
}


/// Whether two byte strings are equal.
pub fn bytes_eq(a: &[u8], b: &[u8]) -> (r: bool)
    ensures
        r == (a@ == b@),
{
    if a.len() != b.len() {
        return false;
    }
    let n = a.len();
    let mut i: usize = 0;
    while i < n
        invariant
            0 <= i <= n == a@.len() == b@.len(),
            forall|k: int| 0 <= k < i ==> a@[k] == b@[k],
        decreases n - i,
    {
        if a[i] != b[i] {
            return false;
        }
        i = i + 1;
    }
    proof {
        assert(a@ =~= b@);
    }
    true
}

pub open spec fn is_numeral_byte(b: u8) -> bool {
    crate::decimal::is_digit(b) || b == crate::decimal::DOT
}

/// Parses the canonical numeral beginning at `from`: the maximal run of
/// digits and dots there must render back byte-for-byte from its value.
/// Exactly the canonical numerals are accepted: whenever one ends at the
/// run's boundary, the parse returns it.
pub fn parse_numeral_at(s: &[u8], from: usize) -> (r: Option<(u64, usize)>)
    requires
        from <= s@.len(),
    ensures
        r matches Some((m, j)) ==> {
            &&& from <= j <= s@.len()
            &&& s@.subrange(from as int, j as int) == scaled_bytes(m as nat)
            &&& m < MANTISSA_LIMIT
            &&& j == s@.len() || !is_numeral_byte(s@[j as int])
        },
        r is None ==> forall|m: u64, j0: int|
            #![trigger s@.subrange(from as int, j0), scaled_bytes(m as nat)]
            !(from <= j0 <= s@.len() && s@.subrange(from as int, j0) == scaled_bytes(m as nat) && m
                < MANTISSA_LIMIT && (j0 == s@.len() || !is_numeral_byte(s@[j0]))),
{
    let n = s.len();
    let mut j: usize = from;
    while j < n && (s[j] == crate::decimal::DOT || (s[j] >= crate::decimal::DIGIT_ZERO && s[j]
        <= crate::decimal::DIGIT_ZERO + 9))
        invariant
            from <= j <= n == s@.len(),
            forall|k: int| from <= k < j ==> is_numeral_byte(#[trigger] s@[k]),
        decreases n - j,
    {
        j = j + 1;
    }
    let region = vstd::slice::slice_subrange(s, from, j);
    let parsed = crate::decimal::parse_scaled(region);
    proof {
        if parsed is None {
            assert forall|m: u64, j0: int|
                #![trigger s@.subrange(from as int, j0), scaled_bytes(m as nat)]
                !(from <= j0 <= s@.len() && s@.subrange(from as int, j0) == scaled_bytes(m as nat)
                    && m < MANTISSA_LIMIT && (j0 == s@.len() || !is_numeral_byte(s@[j0]))) by {
                if from <= j0 <= s@.len() && s@.subrange(from as int, j0) == scaled_bytes(m as nat)
                    && m < MANTISSA_LIMIT && (j0 == s@.len() || !is_numeral_byte(s@[j0])) {
                    lemma_numeral_run_end(s@, from as int, j as int, j0, m as nat);
                    crate::decimal::lemma_scaled_round_trip(m as nat);
                }
            }
        }
    }
    let m = match parsed {
        Some(m) => m,
        None => {
            return None;
        },
    };
    let rendered = crate::decimal::render_scaled(m);
    if bytes_eq(region, rendered.as_slice()) {
        Some((m, j))
    } else {
        proof {
            assert forall|m0: u64, j0: int|
                #![trigger s@.subrange(from as int, j0), scaled_bytes(m0 as nat)]
                !(from <= j0 <= s@.len() && s@.subrange(from as int, j0) == scaled_bytes(m0 as nat)
                    && m0 < MANTISSA_LIMIT && (j0 == s@.len() || !is_numeral_byte(s@[j0]))) by {
                if from <= j0 <= s@.len() && s@.subrange(from as int, j0) == scaled_bytes(
                    m0 as nat,
                ) && m0 < MANTISSA_LIMIT && (j0 == s@.len() || !is_numeral_byte(s@[j0])) {
                    lemma_numeral_run_end(s@, from as int, j as int, j0, m0 as nat);
                    crate::decimal::lemma_scaled_round_trip(m0 as nat);
                    assert(m == m0);
                }
            }
        }
        None
    }
}

/// A canonical numeral laid over a maximal digit-and-dot run ends
/// exactly at the run's end.
proof fn lemma_numeral_run_end(s: Seq<u8>, from: int, j: int, j0: int, m: nat)
    requires
        0 <= from <= j <= s.len(),
        from <= j0 <= s.len(),
        forall|k: int| from <= k < j ==> is_numeral_byte(#[trigger] s[k]),
        j == s.len() || !is_numeral_byte(s[j as int]),
        s.subrange(from, j0) == scaled_bytes(m),
        j0 == s.len() || !is_numeral_byte(s[j0]),
    ensures
        j0 == j,
{
    lemma_scaled_bytes_class(m);
    assert forall|k: int| from <= k < j0 implies is_numeral_byte(#[trigger] s[k]) by {
        assert(s[k] == s.subrange(from, j0)[k - from]);
    }
    if j0 < j {
        assert(is_numeral_byte(s[j0]));
    }
    if j < j0 {
        assert(is_numeral_byte(s[j as int]));
    }
}

/// Parses the canonical integer beginning at `from` the same way:
/// exactly the texts `dec_digits` produces for a `u64` are accepted.
pub fn parse_integer_at(s: &[u8], from: usize) -> (r: Option<(u64, usize)>)
    requires
        from <= s@.len(),
    ensures
        r matches Some((m, j)) ==> {
            &&& from <= j <= s@.len()
            &&& s@.subrange(from as int, j as int) == dec_digits(m as nat)
            &&& j == s@.len() || !crate::decimal::is_digit(s@[j as int])
        },
        r is None ==> forall|m: u64, j0: int|
            #![trigger s@.subrange(from as int, j0), dec_digits(m as nat)]
            !(from <= j0 <= s@.len() && s@.subrange(from as int, j0) == dec_digits(m as nat) && (
            j0 == s@.len() || !crate::decimal::is_digit(s@[j0]))),
{
    let n = s.len();
    let mut j: usize = from;
    let mut val: u64 = 0;
    let mut overflowed = false;
    while j < n && s[j] >= crate::decimal::DIGIT_ZERO && s[j] <= crate::decimal::DIGIT_ZERO + 9
        invariant
            from <= j <= n == s@.len(),
            forall|k: int| from <= k < j ==> crate::decimal::is_digit(#[trigger] s@[k]),
            !overflowed ==> val == digits_value(s@.subrange(from as int, j as int)),
            overflowed ==> digits_value(s@.subrange(from as int, j as int)) > u64::MAX,
        decreases n - j,
    {
        let d = (s[j] - crate::decimal::DIGIT_ZERO) as u64;
        proof {
            let t = s@.subrange(from as int, j + 1);
            assert(t.drop_last() =~= s@.subrange(from as int, j as int));
            assert(t.last() == s@[j as int]);
            assert(digits_value(t) == digits_value(t.drop_last()) * 10 + (t.last()
                - crate::decimal::DIGIT_ZERO) as nat);
        }
        if overflowed || val > (u64::MAX - d) / 10 {
            proof {
                if !overflowed {
                    assert(val * 10 + d > u64::MAX) by (nonlinear_arith)
                        requires
                            val > (u64::MAX - d) / 10,
                            d <= 9,
                    ;
                }
            }
            overflowed = true;
            val = 0;
        } else {
            proof {
                assert(val * 10 + d <= u64::MAX) by (nonlinear_arith)
                    requires
                        val <= (u64::MAX - d) / 10,
                        d <= 9,
                ;
            }
            val = val * 10 + d;
        }
        j = j + 1;
    }
    let ghost region_view = s@.subrange(from as int, j as int);
    if overflowed {
        proof {
            assert forall|m: u64, j0: int|
                #![trigger s@.subrange(from as int, j0), dec_digits(m as nat)]
                !(from <= j0 <= s@.len() && s@.subrange(from as int, j0) == dec_digits(m as nat)
                    && (j0 == s@.len() || !crate::decimal::is_digit(s@[j0]))) by {
                if from <= j0 <= s@.len() && s@.subrange(from as int, j0) == dec_digits(m as nat)
                    && (j0 == s@.len() || !crate::decimal::is_digit(s@[j0])) {
                    lemma_integer_run_end(s@, from as int, j as int, j0, m as nat);
                    crate::decimal::lemma_dec_digits_value(m as nat);
                }
            }
        }
        return None;
    }
    let region = vstd::slice::slice_subrange(s, from, j);
    let rendered = crate::decimal::render_u64(val);
    if bytes_eq(region, rendered.as_slice()) {
        Some((val, j))
    } else {
        proof {
            assert forall|m: u64, j0: int|
                #![trigger s@.subrange(from as int, j0), dec_digits(m as nat)]
                !(from <= j0 <= s@.len() && s@.subrange(from as int, j0) == dec_digits(m as nat)
                    && (j0 == s@.len() || !crate::decimal::is_digit(s@[j0]))) by {
                if from <= j0 <= s@.len() && s@.subrange(from as int, j0) == dec_digits(m as nat)
                    && (j0 == s@.len() || !crate::decimal::is_digit(s@[j0])) {
                    lemma_integer_run_end(s@, from as int, j as int, j0, m as nat);
                    crate::decimal::lemma_dec_digits_value(m as nat);
                    assert(val == m);
                }
            }
        }
        None
    }
}

/// A canonical integer laid over a maximal digit run ends exactly at the
/// run's end.
proof fn lemma_integer_run_end(s: Seq<u8>, from: int, j: int, j0: int, m: nat)
    requires
        0 <= from <= j <= s.len(),
        from <= j0 <= s.len(),
        forall|k: int| from <= k < j ==> crate::decimal::is_digit(#[trigger] s[k]),
        j == s.len() || !crate::decimal::is_digit(s[j as int]),
        s.subrange(from, j0) == dec_digits(m),
        j0 == s.len() || !crate::decimal::is_digit(s[j0]),
    ensures
        j0 == j,
{
    crate::decimal::lemma_dec_digits_value(m);
    assert forall|k: int| from <= k < j0 implies crate::decimal::is_digit(#[trigger] s[k]) by {
        assert(s[k] == s.subrange(from, j0)[k - from]);
    }
    if j0 < j {
        assert(crate::decimal::is_digit(s[j0]));
    }
    if j < j0 {
        assert(crate::decimal::is_digit(s[j as int]));
    }
}

/// Parses `{"P":Q,...}` beginning at `from`; returns the levels in the
/// order written. Exactly the renderings of well-formed sides are
/// accepted, and the one accepted is the only one that fits there.
#[verifier::rlimit(100)]
#[verifier::spinoff_prover]
fn parse_side(s: &[u8], from: usize) -> (r: Option<(Vec<PriceLevel>, usize)>)
    requires
        from <= s@.len(),
    ensures
        r matches Some((ls, j)) ==> {
            &&& from <= j <= s@.len()
            &&& s@.subrange(from as int, j as int) == side_obj(ls@)
            &&& forall|k: int| 0 <= k < ls@.len() ==> crate::book::stored_level_ok(#[trigger] ls@[k])
            &&& forall|ls0: Seq<PriceLevel>, j0: int|
                #[trigger] side_at(s@, from as int, ls0, j0) ==> ls0 == ls@ && j0 == j
        },
        r is None ==> forall|ls0: Seq<PriceLevel>, j0: int|
            !#[trigger] side_at(s@, from as int, ls0, j0),
{
    let n = s.len();
    if from >= n || s[from] != LBRACE {
        proof {
            assert forall|ls0: Seq<PriceLevel>, j0: int|
                !#[trigger] side_at(s@, from as int, ls0, j0) by {
                if side_at(s@, from as int, ls0, j0) {
                    assert(s@.subrange(from as int, j0).len() == side_obj(ls0).len());
                    assert(side_obj(ls0).len() >= 2);
                    assert(s@[from as int] == s@.subrange(from as int, j0)[0]);
                    assert(side_obj(ls0)[0] == LBRACE);
                }
            }
        }
        return None;
    }
    let mut i = from + 1;
    let mut levels: Vec<PriceLevel> = Vec::new();
    if i < n && s[i] == RBRACE {
        proof {
            assert(s@.subrange(from as int, i + 1) =~= side_obj(levels@));
            assert forall|ls0: Seq<PriceLevel>, j0: int|
                #[trigger] side_at(s@, from as int, ls0, j0) implies ls0 == levels@ && j0 == i
                + 1 by {
                if ls0.len() > 0 {
                    lemma_entry_region(s@, from as int, ls0, j0, 0);
                    lemma_entry_head_byte(ls0);
                    assert(s@[from + 1] == entry_bytes(ls0[0])[0]);
                } else {
                    assert(side_obj(ls0).len() == 2);
                    assert(ls0 =~= levels@);
                }
            }
        }
        return Some((levels, i + 1));
    }
    proof {
        assert forall|ls0: Seq<PriceLevel>, j0: int|
            #[trigger] side_at(s@, from as int, ls0, j0) implies ls0.len() > 0 && ls0.take(0)
                == levels@ by {
            if ls0.len() == 0 {
                assert(side_obj(ls0).len() == 2);
                assert(s@[from + 1] == side_obj(ls0)[1]);
            }
            assert(ls0.take(0) =~= levels@);
        }
    }
    loop
        invariant_except_break
            levels@.len() >= 1 ==> s@.subrange(from + 1, i as int) == side_entries(levels@)
                + seq![COMMA],
            levels@.len() == 0 ==> i == from + 1,
            forall|ls0: Seq<PriceLevel>, j0: int|
                #[trigger] side_at(s@, from as int, ls0, j0) ==> levels@.len() < ls0.len()
                    && ls0.take(levels@.len() as int) == levels@,
        invariant
            from + 1 <= i <= n == s@.len(),
            s@[from as int] == LBRACE,
            forall|k: int| 0 <= k < levels@.len() ==> crate::book::stored_level_ok(#[trigger] levels@[k]),
        ensures
            from + 1 <= i <= n,
            levels@.len() >= 1,
            s@.subrange(from + 1, i as int) == side_entries(levels@),
            i < n && s@[i as int] == RBRACE,
            forall|ls0: Seq<PriceLevel>, j0: int|
                #[trigger] side_at(s@, from as int, ls0, j0) ==> ls0 == levels@ && j0 == i + 1,
        decreases n - i,
    {
        let ghost k = levels@.len() as int;
        proof {
            assert forall|ls0: Seq<PriceLevel>, j0: int|
                #[trigger] side_at(s@, from as int, ls0, j0) implies entry_starts_at(
                s@,
                ls0,
                j0,
                k,
                i as int,
            ) by {
                lemma_entry_region(s@, from as int, ls0, j0, k);
                assert(side_entries(ls0.take(k)) == side_entries(levels@));
            }
        }
        // One entry: "P":Q
        if i >= n || s[i] != QUOTE {
            proof {
                assert forall|ls0: Seq<PriceLevel>, j0: int|
                    !#[trigger] side_at(s@, from as int, ls0, j0) by {
                    if side_at(s@, from as int, ls0, j0) {
                        lemma_entry_layout(s@, i as int, ls0[k]);
                    }
                }
            }
            return None;
        }
        let (price, after_p) = match parse_numeral_at(s, i + 1) {
            Some(v) => v,
            None => {
                proof {
                    assert forall|ls0: Seq<PriceLevel>, j0: int|
                        !#[trigger] side_at(s@, from as int, ls0, j0) by {
                        if side_at(s@, from as int, ls0, j0) {
                            assert(crate::book::stored_level_ok(ls0[k]));
                            lemma_entry_layout(s@, i as int, ls0[k]);
                            assert(s@.subrange(
                                i + 1,
                                i + 1 + scaled_bytes(ls0[k].price as nat).len() as int,
                            ) == scaled_bytes(ls0[k].price as nat));
                        }
                    }
                }
                return None;
            },
        };
        proof {
            assert forall|ls0: Seq<PriceLevel>, j0: int|
                #[trigger] side_at(s@, from as int, ls0, j0) implies ls0[k].price == price
                    && after_p == i + 1 + scaled_bytes(ls0[k].price as nat).len() by {
                assert(crate::book::stored_level_ok(ls0[k]));
                lemma_entry_layout(s@, i as int, ls0[k]);
                lemma_two_numerals(
                    s@,
                    i + 1,
                    after_p as int,
                    price as nat,
                    i + 1 + scaled_bytes(ls0[k].price as nat).len() as int,
                    ls0[k].price as nat,
                );
            }
        }
        if price == 0 {
            proof {
                assert forall|ls0: Seq<PriceLevel>, j0: int|
                    !#[trigger] side_at(s@, from as int, ls0, j0) by {
                    if side_at(s@, from as int, ls0, j0) {
                        assert(crate::book::stored_level_ok(ls0[k]));
                    }
                }
            }
            return None;
        }
        if after_p >= n || s[after_p] != QUOTE {
            proof {
                assert forall|ls0: Seq<PriceLevel>, j0: int|
                    !#[trigger] side_at(s@, from as int, ls0, j0) by {
                    if side_at(s@, from as int, ls0, j0) {
                        lemma_entry_layout(s@, i as int, ls0[k]);
                    }
                }
            }
            return None;
        }
        if after_p + 1 >= n || s[after_p + 1] != COLON {
            proof {
                assert forall|ls0: Seq<PriceLevel>, j0: int|
                    !#[trigger] side_at(s@, from as int, ls0, j0) by {
                    if side_at(s@, from as int, ls0, j0) {
                        lemma_entry_layout(s@, i as int, ls0[k]);
                    }
                }
            }
            return None;
        }
        let (qty, after_q) = match parse_numeral_at(s, after_p + 2) {
            Some(v) => v,
            None => {
                proof {
                    assert forall|ls0: Seq<PriceLevel>, j0: int|
                        !#[trigger] side_at(s@, from as int, ls0, j0) by {
                        if side_at(s@, from as int, ls0, j0) {
                            assert(crate::book::stored_level_ok(ls0[k]));
                            lemma_entry_layout(s@, i as int, ls0[k]);
                            lemma_qty_boundary(s@, i as int, ls0[k], j0, ls0, k);
                            assert(s@.subrange(
                                after_p + 2,
                                after_p + 2 + scaled_bytes(ls0[k].quantity as nat).len() as int,
                            ) == scaled_bytes(ls0[k].quantity as nat));
                        }
                    }
                }
                return None;
            },
        };
        proof {
            assert forall|ls0: Seq<PriceLevel>, j0: int|
                #[trigger] side_at(s@, from as int, ls0, j0) implies ls0[k].quantity == qty
                    && after_q == i + entry_bytes(ls0[k]).len() by {
                assert(crate::book::stored_level_ok(ls0[k]));
                lemma_entry_layout(s@, i as int, ls0[k]);
                lemma_qty_boundary(s@, i as int, ls0[k], j0, ls0, k);
                assert(s@.subrange(
                    after_p + 2,
                    after_p + 2 + scaled_bytes(ls0[k].quantity as nat).len() as int,
                ) == scaled_bytes(ls0[k].quantity as nat));
                lemma_two_numerals(
                    s@,
                    after_p + 2,
                    after_q as int,
                    qty as nat,
                    after_p + 2 + scaled_bytes(ls0[k].quantity as nat).len() as int,
                    ls0[k].quantity as nat,
                );
            }
        }
        if qty == 0 {
            proof {
                assert forall|ls0: Seq<PriceLevel>, j0: int|
                    !#[trigger] side_at(s@, from as int, ls0, j0) by {
                    if side_at(s@, from as int, ls0, j0) {
                        assert(crate::book::stored_level_ok(ls0[k]));
                    }
                }
            }
            return None;
        }
        let level = PriceLevel { price, quantity: qty };
        proof {
            assert(s@.subrange(i as int, after_q as int) =~= entry_bytes(level));
            if levels@.len() == 0 {
            } else {
                lemma_side_entries_snoc(levels@, level);
            }
            assert(s@.subrange(from + 1, after_q as int) =~= side_entries(levels@.push(level)))
                by {
                if levels@.len() == 0 {
                    assert(s@.subrange(from + 1, after_q as int) =~= entry_bytes(level));
                    assert(side_entries(seq![level]) == entry_bytes(level));
                    assert(levels@.push(level) =~= seq![level]);
                } else {
                    assert(s@.subrange(from + 1, i as int) == side_entries(levels@)
                        + seq![COMMA]);
                    assert(s@.subrange(from + 1, after_q as int) =~= side_entries(levels@)
                        + seq![COMMA] + entry_bytes(level));
                }
            }
            assert forall|ls0: Seq<PriceLevel>, j0: int|
                #[trigger] side_at(s@, from as int, ls0, j0) implies ls0.take(k + 1)
                    == levels@.push(level) && (k + 1 < ls0.len() ==> s@[after_q as int] == COMMA)
                    && (k + 1 == ls0.len() ==> after_q == j0 - 1 && s@[j0 - 1] == RBRACE) by {
                lemma_entry_region(s@, from as int, ls0, j0, k);
                assert(side_entries(ls0.take(k)) == side_entries(levels@));
                assert(ls0[k] == level);
                assert(ls0.take(k + 1) =~= ls0.take(k).push(ls0[k]));
                assert(ls0.take(k) == levels@);
            }
        }
        levels.push(level);
        i = after_q;
        if i < n && s[i] == RBRACE {
            proof {
                assert forall|ls0: Seq<PriceLevel>, j0: int|
                    #[trigger] side_at(s@, from as int, ls0, j0) implies ls0 == levels@ && j0 == i
                    + 1 by {
                    if levels@.len() < ls0.len() {
                        assert(s@[i as int] == COMMA);
                    }
                    assert(ls0.take(levels@.len() as int) =~= ls0);
                }
            }
            break;
        }
        if i >= n || s[i] != COMMA {
            proof {
                assert forall|ls0: Seq<PriceLevel>, j0: int|
                    !#[trigger] side_at(s@, from as int, ls0, j0) by {
                    if side_at(s@, from as int, ls0, j0) {
                        if levels@.len() < ls0.len() {
                            assert(s@[i as int] == COMMA);
                        } else {
                            assert(i as int == j0 - 1 && s@[j0 - 1] == RBRACE);
                        }
                    }
                }
            }
            return None;
        }
        proof {
            assert forall|ls0: Seq<PriceLevel>, j0: int|
                #[trigger] side_at(s@, from as int, ls0, j0) implies levels@.len()
                < ls0.len() by {
                if levels@.len() == ls0.len() {
                    assert(i as int == j0 - 1 && s@[j0 - 1] == RBRACE);
                }
            }
        }
        i = i + 1;
        proof {
            // The comma just consumed sits between this entry and the next.
            assert(s@.subrange(from + 1, i as int) =~= side_entries(levels@) + seq![COMMA]);
        }
    }
    proof {
        assert(s@.subrange(from as int, i + 1) =~= side_obj(levels@));
    }
    Some((levels, i + 1))
}

/// Where the next entry of a hypothetical side sits, relative to the
/// parser's position.
pub open spec fn entry_starts_at(s: Seq<u8>, ls0: Seq<PriceLevel>, j0: int, k: int, i: int) -> bool {
    &&& 0 <= k < ls0.len()
    &&& 0 <= i
    &&& i + entry_bytes(ls0[k]).len() <= j0 - 1
    &&& s.subrange(i, i + entry_bytes(ls0[k]).len() as int) == entry_bytes(ls0[k])
    &&& (k + 1 < ls0.len() ==> s[i + entry_bytes(ls0[k]).len() as int] == COMMA)
    &&& (k + 1 == ls0.len() ==> i + entry_bytes(ls0[k]).len() as int == j0 - 1)
    &&& s[j0 - 1] == RBRACE
    &&& j0 <= s.len()
}

/// The byte after the entry at `i` is a comma or the side's closing
/// brace, so never part of a numeral.
proof fn lemma_qty_boundary(s: Seq<u8>, i: int, l: PriceLevel, j0: int, ls0: Seq<PriceLevel>, k: int)
    requires
        entry_starts_at(s, ls0, j0, k, i),
        ls0[k] == l,
    ensures
        i + entry_bytes(l).len() < s.len(),
        !is_numeral_byte(s[i + entry_bytes(l).len() as int]),
{
    if k + 1 < ls0.len() {
        assert(s[i + entry_bytes(l).len() as int] == COMMA);
    } else {
        assert(s[i + entry_bytes(l).len() as int] == RBRACE);
    }
}

/// The first byte of a non-empty side's entries is the quote that opens
/// its first entry.
proof fn lemma_entry_head_byte(v: Seq<PriceLevel>)
    requires
        v.len() >= 1,
    ensures
        entry_bytes(v[0])[0] == QUOTE,
{
}

/// The byte layout of one entry sitting at `i`, spelled out for the
/// parser: the opening quote, the price numeral and its closing quote,
/// the colon, and the quantity numeral.
proof fn lemma_entry_layout(s: Seq<u8>, i: int, l: PriceLevel)
    requires
        0 <= i,
        i + entry_bytes(l).len() <= s.len(),
        s.subrange(i, i + entry_bytes(l).len() as int) == entry_bytes(l),
    ensures
        ({
            let sp = scaled_bytes(l.price as nat);
            let sq = scaled_bytes(l.quantity as nat);
            &&& s[i] == QUOTE
            &&& s.subrange(i + 1, i + 1 + sp.len() as int) == sp
            &&& s[i + 1 + sp.len() as int] == QUOTE
            &&& s[i + 2 + sp.len() as int] == COLON
            &&& s.subrange(i + 3 + sp.len() as int, i + 3 + sp.len() + sq.len() as int) == sq
            &&& i + 3 + sp.len() + sq.len() as int == i + entry_bytes(l).len()
        }),
{
    let e = entry_bytes(l);
    let sp = scaled_bytes(l.price as nat);
    let sq = scaled_bytes(l.quantity as nat);
    assert(e == seq![QUOTE] + sp + seq![QUOTE, COLON] + sq);
    assert forall|t: int| 0 <= t < e.len() implies s[i + t] == e[t] by {
        assert(s[i + t] == s.subrange(i, i + e.len() as int)[t]);
    }
    assert(s.subrange(i + 1, i + 1 + sp.len() as int) =~= sp) by {
        assert(forall|t: int| 0 <= t < sp.len() ==> e[1 + t] == #[trigger] sp[t]);
    }
    assert(s.subrange(i + 3 + sp.len() as int, i + 3 + sp.len() + sq.len() as int) =~= sq) by {
        assert(forall|t: int| 0 <= t < sq.len() ==> e[3 + sp.len() + t] == #[trigger] sq[t]);
    }
    assert(e[0] == QUOTE);
    assert(e[1 + sp.len() as int] == QUOTE);
    assert(e[2 + sp.len() as int] == COLON);
}

/// Parses a canonical payload back to a book.
///
/// Accepts exactly the texts that `book_payload` produces: whenever it
/// returns a book, the input is byte-for-byte that book's canonical
/// payload, and whenever it refuses, no well-formed book's payload is
/// that text. With `lemma_payload_identifies_book` this is the round
/// trip: parsing a book's payload succeeds and yields that book.
#[verifier::rlimit(100)]
#[verifier::spinoff_prover]
pub fn parse_book_payload(s: &[u8]) -> (r: Option<OrderBook>)
    ensures
        r matches Some(b) ==> b.wf() && s@ == json_book(&b),
        r is None ==> !payload_of_some_book(s@),
{
    let n = s.len();
    // {"symbol":"
    let mut head: Vec<u8> = Vec::new();
    head.push(123u8);
    head.push(34u8);
    head.push(115u8);
    head.push(121u8);
    head.push(109u8);
    head.push(98u8);
    head.push(111u8);
    head.push(108u8);
    head.push(34u8);
    head.push(58u8);
    head.push(34u8);
    proof {
        assert(head@ =~= lit_head());
    }
    if n < 11 {
        proof {
            lemma_no_payload_short(s@);
        }
        return None;
    }
    if !bytes_eq(vstd::slice::slice_subrange(s, 0, 11), head.as_slice()) {
        proof {
            lemma_no_payload_short(s@);
        }
        return None;
    }
    // symbol characters up to the closing quote
    let mut i: usize = 11;
    let mut sym_raw: Vec<u8> = Vec::new();
    loop
        invariant
            11 <= i <= n == s@.len(),
            s@.subrange(0, 11) == lit_head(),
            sym_raw@ =~= s@.subrange(11, i as int),
            forall|k: int|
                0 <= k < sym_raw@.len() ==> (symbol_byte_class())(#[trigger] sym_raw@[k]),
        ensures
            11 <= i < n,
            s@[i as int] == QUOTE,
            sym_raw@ == s@.subrange(11, i as int),
            forall|k: int|
                0 <= k < sym_raw@.len() ==> (symbol_byte_class())(#[trigger] sym_raw@[k]),
        decreases n - i,
    {
        proof {
            assert forall|k: int| 11 <= k < i implies (symbol_byte_class())(
                #[trigger] s@[k],
            ) by {
                assert(s@[k] == sym_raw@[k - 11]);
            }
        }
        if i >= n {
            proof {
                lemma_no_payload_sym(s@, i as int);
            }
            return None;
        }
        let b = s[i];
        if b == QUOTE {
            break;
        }
        if !((b >= 65 && b <= 90) || (b >= 48 && b <= 57)) {
            proof {
                assert(s@[i as int] == b);
                assert(!(symbol_byte_class())(s@[i as int]) && s@[i as int] != QUOTE);
                lemma_no_payload_sym(s@, i as int);
            }
            return None;
        }
        sym_raw.push(b);
        proof {
            assert(sym_raw@ =~= s@.subrange(11, i + 1));
        }
        i = i + 1;
    }
    proof {
        assert forall|k: int| 11 <= k < i implies (symbol_byte_class())(#[trigger] s@[k]) by {
            assert(s@[k] == sym_raw@[k - 11]);
        }
    }
    let sym_len = sym_raw.len();
    if sym_len < 1 || sym_len > 32 {
        proof {
            lemma_no_payload_symlen(s@, i as int);
        }
        return None;
    }
    let ghost sym_raw_view = sym_raw@;
    let symbol = crate::text::from_ascii_bytes(sym_raw);
    proof {
        assert(symbol_wf(symbol@));
        assert(sym_bytes(symbol@) =~= sym_raw_view);
    }
    // ","bids":
    let mut kb: Vec<u8> = Vec::new();
    kb.push(34u8);
    kb.push(44u8);
    kb.push(34u8);
    kb.push(98u8);
    kb.push(105u8);
    kb.push(100u8);
    kb.push(115u8);
    kb.push(34u8);
    kb.push(58u8);
    proof {
        assert(kb@ =~= lit_bids());
    }
    if n - i < 9 {
        proof {
            lemma_no_payload_bids_lit(s@, i as int);
        }
        return None;
    }
    if !bytes_eq(vstd::slice::slice_subrange(s, i, i + 9), kb.as_slice()) {
        proof {
            lemma_no_payload_bids_lit(s@, i as int);
        }
        return None;
    }
    let (desc_bids, after_bids) = match parse_side(s, i + 9) {
        Some(v) => v,
        None => {
            proof {
                lemma_no_payload_bids_side(s@, i as int);
            }
            return None;
        },
    };
    if !strictly_descending(&desc_bids) {
        proof {
            lemma_no_payload_bids_order(s@, i as int, desc_bids@, after_bids as int);
        }
        return None;
    }
    let bids = reversed_levels(&desc_bids);
    proof {
        assert(crate::book::side_wf(bids@));
        assert(bids@.reverse() =~= desc_bids@);
    }
    // ,"asks":
    let mut ka: Vec<u8> = Vec::new();
    ka.push(44u8);
    ka.push(34u8);
    ka.push(97u8);
    ka.push(115u8);
    ka.push(107u8);
    ka.push(115u8);
    ka.push(34u8);
    ka.push(58u8);
    proof {
        assert(ka@ =~= lit_asks());
    }
    if n - after_bids < 8 {
        proof {
            lemma_no_payload_asks_lit(s@, i as int, desc_bids@, after_bids as int);
        }
        return None;
    }
    if !bytes_eq(vstd::slice::slice_subrange(s, after_bids, after_bids + 8), ka.as_slice()) {
        proof {
            lemma_no_payload_asks_lit(s@, i as int, desc_bids@, after_bids as int);
        }
        return None;
    }
    let (asks, after_asks) = match parse_side(s, after_bids + 8) {
        Some(v) => v,
        None => {
            proof {
                lemma_no_payload_asks_side(s@, i as int, desc_bids@, after_bids as int);
            }
            return None;
        },
    };
    if !strictly_ascending(&asks) {
        proof {
            lemma_no_payload_asks_order(s@, i as int, desc_bids@, after_bids as int, asks@,
                after_asks as int);
        }
        return None;
    }
    // ,"last_update_id":
    let mut kl: Vec<u8> = Vec::new();
    kl.push(44u8);
    kl.push(34u8);
    kl.push(108u8);
    kl.push(97u8);
    kl.push(115u8);
    kl.push(116u8);
    kl.push(95u8);
    kl.push(117u8);
    kl.push(112u8);
    kl.push(100u8);
    kl.push(97u8);
    kl.push(116u8);
    kl.push(101u8);
    kl.push(95u8);
    kl.push(105u8);
    kl.push(100u8);
    kl.push(34u8);
    kl.push(58u8);
    proof {
        assert(kl@ =~= lit_luid());
    }
    if n - after_asks < 18 {
        proof {
            lemma_no_payload_luid_lit(s@, i as int, desc_bids@, after_bids as int, asks@,
                after_asks as int);
        }
        return None;
    }
    if !bytes_eq(vstd::slice::slice_subrange(s, after_asks, after_asks + 18), kl.as_slice()) {
        proof {
            lemma_no_payload_luid_lit(s@, i as int, desc_bids@, after_bids as int, asks@,
                after_asks as int);
        }
        return None;
    }
    let (luid, after_luid) = match parse_integer_at(s, after_asks + 18) {
        Some(v) => v,
        None => {
            proof {
                lemma_no_payload_luid_none(s@, i as int, desc_bids@, after_bids as int, asks@,
                    after_asks as int);
            }
            return None;
        },
    };
    // ,"timestamp":
    let mut kt: Vec<u8> = Vec::new();
    kt.push(44u8);
    kt.push(34u8);
    kt.push(116u8);
    kt.push(105u8);
    kt.push(109u8);
    kt.push(101u8);
    kt.push(115u8);
    kt.push(116u8);
    kt.push(97u8);
    kt.push(109u8);
    kt.push(112u8);
    kt.push(34u8);
    kt.push(58u8);
    proof {
        assert(kt@ =~= lit_ts());
    }
    if n - after_luid < 13 {
        proof {
            lemma_no_payload_ts_lit(s@, i as int, desc_bids@, after_bids as int, asks@,
                after_asks as int, luid, after_luid as int);
        }
        return None;
    }
    if !bytes_eq(vstd::slice::slice_subrange(s, after_luid, after_luid + 13), kt.as_slice()) {
        proof {
            lemma_no_payload_ts_lit(s@, i as int, desc_bids@, after_bids as int, asks@,
                after_asks as int, luid, after_luid as int);
        }
        return None;
    }
    let (ts, after_ts) = match parse_integer_at(s, after_luid + 13) {
        Some(v) => v,
        None => {
            proof {
                lemma_no_payload_ts_none(s@, i as int, desc_bids@, after_bids as int, asks@,
                    after_asks as int, luid, after_luid as int);
            }
            return None;
        },
    };
    if after_ts != n - 1 || s[after_ts] != RBRACE {
        proof {
            lemma_no_payload_tail(s@, i as int, desc_bids@, after_bids as int, asks@,
                after_asks as int, luid, after_luid as int, ts, after_ts as int);
        }
        return None;
    }
    // the book must not be crossed
    if bids.len() > 0 && asks.len() > 0 && bids[bids.len() - 1].price >= asks[0].price {
        proof {
            assert(bids@[bids@.len() - 1] == desc_bids@[0]);
            lemma_no_payload_crossed(s@, i as int, desc_bids@, after_bids as int, asks@,
                after_asks as int);
        }
        return None;
    }
    let book = OrderBook { symbol, bids, asks, last_update_id: luid, timestamp: ts };
    proof {
        assert(book.wf());
        assert(s@ =~= json_book(&book)) by {
            assert(s@.subrange(0, 11) == lit_head());
            assert(s@.subrange(11, i as int) == sym_bytes(book.symbol@));
            assert(s@.subrange(i as int, i + 9) == lit_bids());
            assert(s@.subrange(i + 9, after_bids as int) == side_obj(book.bids@.reverse()));
            assert(s@.subrange(after_bids as int, after_bids + 8) == lit_asks());
            assert(s@.subrange(after_bids + 8, after_asks as int) == side_obj(book.asks@));
            assert(s@.subrange(after_asks as int, after_asks + 18) == lit_luid());
            assert(s@.subrange(after_asks + 18, after_luid as int) == dec_digits(
                book.last_update_id as nat,
            ));
            assert(s@.subrange(after_luid as int, after_luid + 13) == lit_ts());
            assert(s@.subrange(after_luid + 13, after_ts as int) == dec_digits(
                book.timestamp as nat,
            ));
            assert(s@.subrange(after_ts as int, n as int) =~= seq![RBRACE]);
        }
    }
    Some(book)
}

/// Whether the levels run by strictly descending price.
fn strictly_descending(v: &Vec<PriceLevel>) -> (r: bool)
    ensures
        r == (forall|i: int, j: int|
            0 <= i < j < v@.len() ==> (#[trigger] v@[i]).price > (#[trigger] v@[j]).price),
{
    let n = v.len();
    if n == 0 {
        return true;
    }
    let mut i: usize = 1;
    while i < n
        invariant
            1 <= i <= n == v@.len(),
            forall|a: int, b: int|
                0 <= a < b < i ==> (#[trigger] v@[a]).price > (#[trigger] v@[b]).price,
        decreases n - i,
    {
        if v[i - 1].price <= v[i].price {
            return false;
        }
        i = i + 1;
    }
    true
}

/// Whether the levels run by strictly ascending price.
fn strictly_ascending(v: &Vec<PriceLevel>) -> (r: bool)
    ensures
        r == (forall|i: int, j: int|
            0 <= i < j < v@.len() ==> (#[trigger] v@[i]).price < (#[trigger] v@[j]).price),
{
    let n = v.len();
    if n == 0 {
        return true;
    }
    let mut i: usize = 1;
    while i < n
        invariant
            1 <= i <= n == v@.len(),
            forall|a: int, b: int|
                0 <= a < b < i ==> (#[trigger] v@[a]).price < (#[trigger] v@[b]).price,
        decreases n - i,
    {
        if v[i - 1].price >= v[i].price {
            return false;
        }
        i = i + 1;
    }
    true
}


/// Splits a shared text at the first byte outside a class: when two
/// class-pure prefixes of one text end at class-breaking bytes (or at the
/// text's end), they are the same prefix.
proof fn lemma_split_class(x1: Seq<u8>, y1: Seq<u8>, x2: Seq<u8>, y2: Seq<u8>, p: spec_fn(u8) -> bool)
    requires
        x1 + y1 == x2 + y2,
        forall|i: int| 0 <= i < x1.len() ==> p(#[trigger] x1[i]),
        forall|i: int| 0 <= i < x2.len() ==> p(#[trigger] x2[i]),
        y1.len() > 0 ==> !p(y1[0]),
        y2.len() > 0 ==> !p(y2[0]),
    ensures
        x1 == x2,
        y1 == y2,
{
    let t = x1 + y1;
    assert(t.len() == x1.len() + y1.len() && t.len() == x2.len() + y2.len());
    if x1.len() < x2.len() {
        assert(t[x1.len() as int] == y1[0]);
        assert(t[x1.len() as int] == x2[x1.len() as int]);
        assert(y1.len() > 0);
        assert(false);
    }
    if x2.len() < x1.len() {
        assert(t[x2.len() as int] == y2[0]);
        assert(t[x2.len() as int] == x1[x2.len() as int]);
        assert(y2.len() > 0);
        assert(false);
    }
    assert(x1 =~= x2) by {
        assert(forall|i: int| 0 <= i < x1.len() ==> t[i] == #[trigger] x1[i] && t[i] == x2[i]);
    }
    assert(y1 =~= y2) by {
        assert(forall|i: int|
            0 <= i < y1.len() ==> t[x1.len() + i] == #[trigger] y1[i] && t[x1.len() + i]
                == y2[i]);
    }
}

/// Dropping one shared prefix of two equal concatenations.
proof fn lemma_strip_prefix(x: Seq<u8>, a: Seq<u8>, b: Seq<u8>)
    requires
        x + a == x + b,
    ensures
        a == b,
{
    let t = x + a;
    assert((x + a).len() == x.len() + a.len());
    assert((x + b).len() == x.len() + b.len());
    assert(a.len() == b.len());
    assert(a =~= b) by {
        assert(forall|i: int| 0 <= i < a.len() ==> #[trigger] a[i] == t[x.len() + i] && b[i] == t[
            x.len() + i
        ]);
    }
}

pub open spec fn numeral_class() -> spec_fn(u8) -> bool {
    |b: u8| is_numeral_byte(b)
}

/// Every byte of a canonical numeral is a digit or the dot, and there is
/// at least one.
proof fn lemma_scaled_bytes_class(m: nat)
    ensures
        forall|i: int|
            0 <= i < scaled_bytes(m).len() ==> is_numeral_byte(#[trigger] scaled_bytes(m)[i]),
        scaled_bytes(m).len() >= 1,
{
    let sf = crate::decimal::SCALE_FACTOR as nat;
    let i0 = m / sf;
    let f = m % sf;
    crate::decimal::lemma_dec_digits_value(i0);
    if f != 0 {
        crate::decimal::lemma_pow10_8();
        crate::decimal::lemma_trim_frac(f, 8);
        let t = crate::decimal::trim_frac(f, 8);
        crate::decimal::lemma_pad_digits_value(t.0, t.1);
    }
}

/// Equal canonical numerals denote equal mantissas.
proof fn lemma_scaled_bytes_injective(m1: nat, m2: nat)
    requires
        m1 < MANTISSA_LIMIT,
        m2 < MANTISSA_LIMIT,
        scaled_bytes(m1) == scaled_bytes(m2),
    ensures
        m1 == m2,
{
    crate::decimal::lemma_scaled_round_trip(m1);
    crate::decimal::lemma_scaled_round_trip(m2);
}

/// Equal canonical integers denote equal values.
proof fn lemma_dec_digits_injective(n1: nat, n2: nat)
    requires
        dec_digits(n1) == dec_digits(n2),
    ensures
        n1 == n2,
{
    crate::decimal::lemma_dec_digits_value(n1);
    crate::decimal::lemma_dec_digits_value(n2);
}

/// Equal texts beginning with two entries: the entries and the tails agree.
#[verifier::spinoff_prover]
proof fn lemma_entry_prefix_injective(l1: PriceLevel, l2: PriceLevel, tail1: Seq<u8>, tail2: Seq<u8>)
    requires
        crate::book::stored_level_ok(l1),
        crate::book::stored_level_ok(l2),
        entry_bytes(l1) + tail1 == entry_bytes(l2) + tail2,
        tail1.len() > 0 ==> !is_numeral_byte(tail1[0]),
        tail2.len() > 0 ==> !is_numeral_byte(tail2[0]),
    ensures
        l1 == l2,
        tail1 == tail2,
{
    let t = entry_bytes(l1) + tail1;
    let p1 = scaled_bytes(l1.price as nat);
    let q1 = scaled_bytes(l1.quantity as nat);
    let p2 = scaled_bytes(l2.price as nat);
    let q2 = scaled_bytes(l2.quantity as nat);
    let rest1 = q1 + tail1;
    let rest2 = q2 + tail2;
    let mid1 = seq![QUOTE, COLON] + rest1;
    let mid2 = seq![QUOTE, COLON] + rest2;
    let body1 = p1 + mid1;
    let body2 = p2 + mid2;
    assert(t =~= seq![QUOTE] + body1);
    assert(t =~= seq![QUOTE] + body2);
    lemma_scaled_bytes_class(l1.price as nat);
    lemma_scaled_bytes_class(l2.price as nat);
    lemma_scaled_bytes_class(l1.quantity as nat);
    lemma_scaled_bytes_class(l2.quantity as nat);
    lemma_strip_prefix(seq![QUOTE], body1, body2);
    assert(mid1[0] == QUOTE && mid2[0] == QUOTE);
    lemma_split_class(p1, mid1, p2, mid2, numeral_class());
    lemma_scaled_bytes_injective(l1.price as nat, l2.price as nat);
    lemma_strip_prefix(seq![QUOTE, COLON], rest1, rest2);
    lemma_split_class(q1, tail1, q2, tail2, numeral_class());
    lemma_scaled_bytes_injective(l1.quantity as nat, l2.quantity as nat);
}

/// Equal entry lists under equal texts: the comma-separated rendering of
/// a side is injective.
#[verifier::spinoff_prover]
proof fn lemma_side_entries_injective(
    v1: Seq<PriceLevel>,
    v2: Seq<PriceLevel>,
    r1: Seq<u8>,
    r2: Seq<u8>,
)
    requires
        forall|k: int| 0 <= k < v1.len() ==> crate::book::stored_level_ok(#[trigger] v1[k]),
        forall|k: int| 0 <= k < v2.len() ==> crate::book::stored_level_ok(#[trigger] v2[k]),
        side_entries(v1) + r1 == side_entries(v2) + r2,
        r1.len() > 0 ==> !is_numeral_byte(r1[0]) && r1[0] != QUOTE && r1[0] != COMMA,
        r2.len() > 0 ==> !is_numeral_byte(r2[0]) && r2[0] != QUOTE && r2[0] != COMMA,
    ensures
        v1 == v2,
        r1 == r2,
    decreases v1.len(),
{
    let t = side_entries(v1) + r1;
    if v1.len() == 0 && v2.len() == 0 {
        assert(v1 =~= v2);
        assert(r1 =~= r2) by {
            assert(side_entries(v1) =~= Seq::<u8>::empty());
            assert(side_entries(v2) =~= Seq::<u8>::empty());
            assert(forall|i: int| 0 <= i < r1.len() ==> #[trigger] r1[i] == t[i] && r2[i] == t[i]);
        }
    } else if v1.len() == 0 {
        lemma_entry_head(v2);
        assert(t[0] == side_entries(v2)[0]);
        if r1.len() == 0 {
            assert(t.len() == 0);
        } else {
            assert(t[0] == r1[0]);
        }
        assert(false);
    } else if v2.len() == 0 {
        lemma_entry_head(v1);
        assert(t[0] == side_entries(v1)[0]);
        if r2.len() == 0 {
            assert(t.len() == 0);
        } else {
            assert(t[0] == r2[0]);
        }
        assert(false);
    } else {
        let l1 = v1[0];
        let l2 = v2[0];
        let tail1: Seq<u8> = if v1.len() == 1 {
            r1
        } else {
            seq![COMMA] + (side_entries(v1.skip(1)) + r1)
        };
        let tail2: Seq<u8> = if v2.len() == 1 {
            r2
        } else {
            seq![COMMA] + (side_entries(v2.skip(1)) + r2)
        };
        assert(t =~= entry_bytes(l1) + tail1);
        assert(side_entries(v2) + r2 =~= entry_bytes(l2) + tail2);
        lemma_entry_prefix_injective(l1, l2, tail1, tail2);
        if v1.len() == 1 && v2.len() == 1 {
            assert(v1 =~= v2);
        } else if v1.len() == 1 {
            assert(tail2[0] == COMMA);
            assert(false);
        } else if v2.len() == 1 {
            assert(tail1[0] == COMMA);
            assert(false);
        } else {
            lemma_strip_prefix(
                seq![COMMA],
                side_entries(v1.skip(1)) + r1,
                side_entries(v2.skip(1)) + r2,
            );
            lemma_side_entries_injective(v1.skip(1), v2.skip(1), r1, r2);
            assert(v1.skip(1).len() == v1.len() - 1);
            assert(v1.len() == v2.len());
            assert forall|i: int| 0 <= i < v1.len() implies v1[i] == v2[i] by {
                if i > 0 {
                    assert(v1[i] == v1.skip(1)[i - 1]);
                    assert(v2[i] == v2.skip(1)[i - 1]);
                }
            }
            assert(v1 =~= v2);
        }
    }
}

/// A non-empty side's entries text begins with a quote.
proof fn lemma_entry_head(v: Seq<PriceLevel>)
    requires
        v.len() >= 1,
    ensures
        side_entries(v).len() >= 1,
        side_entries(v)[0] == QUOTE,
{
    let e = entry_bytes(v[0]);
    assert(e[0] == QUOTE);
    if v.len() == 1 {
        assert(side_entries(v) == e);
    } else {
        assert(side_entries(v) == e + seq![COMMA] + side_entries(v.skip(1)));
        assert(side_entries(v)[0] == e[0]);
    }
}


pub open spec fn symbol_byte_class() -> spec_fn(u8) -> bool {
    |b: u8| (65 <= b <= 90) || (48 <= b <= 57)
}

/// The ASCII bytes of a well-formed symbol lie in the capital/digit class,
/// and equal byte strings come only from equal symbols.
proof fn lemma_sym_bytes(s: Seq<char>)
    requires
        symbol_wf(s),
    ensures
        forall|i: int|
            0 <= i < sym_bytes(s).len() ==> (symbol_byte_class())(#[trigger] sym_bytes(s)[i]),
        sym_bytes(s).len() == s.len(),
{
    assert forall|i: int| 0 <= i < sym_bytes(s).len() implies (symbol_byte_class())(
        #[trigger] sym_bytes(s)[i],
    ) by {
        assert(crate::book::symbol_char_ok(s[i]));
    }
}

proof fn lemma_sym_bytes_injective(s1: Seq<char>, s2: Seq<char>)
    requires
        symbol_wf(s1),
        symbol_wf(s2),
        sym_bytes(s1) == sym_bytes(s2),
    ensures
        s1 == s2,
{
    assert(s1.len() == s2.len()) by {
        assert(sym_bytes(s1).len() == s1.len());
        assert(sym_bytes(s2).len() == s2.len());
    }
    assert forall|i: int| 0 <= i < s1.len() implies s1[i] == s2[i] by {
        assert(crate::book::symbol_char_ok(s1[i]));
        assert(crate::book::symbol_char_ok(s2[i]));
        assert(sym_bytes(s1)[i] == s1[i] as u8);
        assert(sym_bytes(s2)[i] == s2[i] as u8);
    }
    assert(s1 =~= s2);
}

/// The payload text regrouped towards the right, piece by piece.
pub open spec fn jtail_ts(b: &OrderBook) -> Seq<u8> {
    dec_digits(b.timestamp as nat) + seq![RBRACE]
}

pub open spec fn jtail_luid(b: &OrderBook) -> Seq<u8> {
    dec_digits(b.last_update_id as nat) + (lit_ts() + jtail_ts(b))
}

pub open spec fn jtail_asks(b: &OrderBook) -> Seq<u8> {
    side_entries(b.asks@) + (seq![RBRACE] + (lit_luid() + jtail_luid(b)))
}

pub open spec fn jtail_bids(b: &OrderBook) -> Seq<u8> {
    side_entries(b.bids@.reverse()) + (seq![RBRACE] + (lit_asks() + (seq![LBRACE] + jtail_asks(
        b,
    ))))
}

pub open spec fn jtail_sym(b: &OrderBook) -> Seq<u8> {
    sym_bytes(b.symbol@) + (lit_bids() + (seq![LBRACE] + jtail_bids(b)))
}

#[verifier::rlimit(100)]
proof fn lemma_json_assoc(b: &OrderBook)
    ensures
        json_book(b) == lit_head() + jtail_sym(b),
{
    assert(json_book(b) =~= lit_head() + jtail_sym(b));
}

proof fn lemma_stage_sym(b1: &OrderBook, b2: &OrderBook)
    requires
        symbol_wf(b1.symbol@),
        symbol_wf(b2.symbol@),
        jtail_sym(b1) == jtail_sym(b2),
    ensures
        b1.symbol@ == b2.symbol@,
        jtail_bids(b1) == jtail_bids(b2),
{
    lemma_sym_bytes(b1.symbol@);
    lemma_sym_bytes(b2.symbol@);
    lemma_split_class(
        sym_bytes(b1.symbol@),
        lit_bids() + (seq![LBRACE] + jtail_bids(b1)),
        sym_bytes(b2.symbol@),
        lit_bids() + (seq![LBRACE] + jtail_bids(b2)),
        symbol_byte_class(),
    );
    lemma_sym_bytes_injective(b1.symbol@, b2.symbol@);
    lemma_strip_prefix(lit_bids(), seq![LBRACE] + jtail_bids(b1), seq![LBRACE] + jtail_bids(b2));
    lemma_strip_prefix(seq![LBRACE], jtail_bids(b1), jtail_bids(b2));
}

proof fn lemma_stage_bids(b1: &OrderBook, b2: &OrderBook)
    requires
        b1.wf(),
        b2.wf(),
        jtail_bids(b1) == jtail_bids(b2),
    ensures
        b1.bids@ == b2.bids@,
        jtail_asks(b1) == jtail_asks(b2),
{
    assert forall|k: int|
        0 <= k < b1.bids@.reverse().len() implies crate::book::stored_level_ok(
        #[trigger] b1.bids@.reverse()[k],
    ) by {
        assert(b1.bids@.reverse()[k] == b1.bids@[b1.bids@.len() - 1 - k]);
    }
    assert forall|k: int|
        0 <= k < b2.bids@.reverse().len() implies crate::book::stored_level_ok(
        #[trigger] b2.bids@.reverse()[k],
    ) by {
        assert(b2.bids@.reverse()[k] == b2.bids@[b2.bids@.len() - 1 - k]);
    }
    lemma_side_entries_injective(
        b1.bids@.reverse(),
        b2.bids@.reverse(),
        seq![RBRACE] + (lit_asks() + (seq![LBRACE] + jtail_asks(b1))),
        seq![RBRACE] + (lit_asks() + (seq![LBRACE] + jtail_asks(b2))),
    );
    assert(b1.bids@ =~= b2.bids@) by {
        assert(b1.bids@.reverse() == b2.bids@.reverse());
        assert(b1.bids@.len() == b2.bids@.len());
        assert(forall|i: int|
            0 <= i < b1.bids@.len() ==> #[trigger] b1.bids@[i] == b1.bids@.reverse()[b1.bids@.len()
                - 1 - i] && b2.bids@[i] == b2.bids@.reverse()[b2.bids@.len() - 1 - i]);
    }
    lemma_strip_prefix(
        seq![RBRACE],
        lit_asks() + (seq![LBRACE] + jtail_asks(b1)),
        lit_asks() + (seq![LBRACE] + jtail_asks(b2)),
    );
    lemma_strip_prefix(lit_asks(), seq![LBRACE] + jtail_asks(b1), seq![LBRACE] + jtail_asks(b2));
    lemma_strip_prefix(seq![LBRACE], jtail_asks(b1), jtail_asks(b2));
}

proof fn lemma_stage_asks(b1: &OrderBook, b2: &OrderBook)
    requires
        b1.wf(),
        b2.wf(),
        jtail_asks(b1) == jtail_asks(b2),
    ensures
        b1.asks@ == b2.asks@,
        jtail_luid(b1) == jtail_luid(b2),
{
    lemma_side_entries_injective(
        b1.asks@,
        b2.asks@,
        seq![RBRACE] + (lit_luid() + jtail_luid(b1)),
        seq![RBRACE] + (lit_luid() + jtail_luid(b2)),
    );
    lemma_strip_prefix(seq![RBRACE], lit_luid() + jtail_luid(b1), lit_luid() + jtail_luid(b2));
    lemma_strip_prefix(lit_luid(), jtail_luid(b1), jtail_luid(b2));
}

proof fn lemma_stage_ids(b1: &OrderBook, b2: &OrderBook)
    requires
        jtail_luid(b1) == jtail_luid(b2),
    ensures
        b1.last_update_id == b2.last_update_id,
        b1.timestamp == b2.timestamp,
{
    crate::decimal::lemma_dec_digits_value(b1.last_update_id as nat);
    crate::decimal::lemma_dec_digits_value(b2.last_update_id as nat);
    lemma_split_class(
        dec_digits(b1.last_update_id as nat),
        lit_ts() + jtail_ts(b1),
        dec_digits(b2.last_update_id as nat),
        lit_ts() + jtail_ts(b2),
        |b: u8| crate::decimal::is_digit(b),
    );
    lemma_dec_digits_injective(b1.last_update_id as nat, b2.last_update_id as nat);
    lemma_strip_prefix(lit_ts(), jtail_ts(b1), jtail_ts(b2));
    crate::decimal::lemma_dec_digits_value(b1.timestamp as nat);
    crate::decimal::lemma_dec_digits_value(b2.timestamp as nat);
    lemma_split_class(
        dec_digits(b1.timestamp as nat),
        seq![RBRACE],
        dec_digits(b2.timestamp as nat),
        seq![RBRACE],
        |b: u8| crate::decimal::is_digit(b),
    );
    lemma_dec_digits_injective(b1.timestamp as nat, b2.timestamp as nat);
}

/// The canonical payload identifies the book: two books with the same
/// payload text agree on every field, the timestamp included. Together
/// with the contracts of `book_payload` and `parse_book_payload` this is
/// the round trip: parsing a book's payload can only yield that book.
pub proof fn lemma_payload_identifies_book(b1: &OrderBook, b2: &OrderBook)
    requires
        b1.wf(),
        b2.wf(),
        json_book(b1) == json_book(b2),
    ensures
        b1.symbol@ == b2.symbol@,
        b1.bids@ == b2.bids@,
        b1.asks@ == b2.asks@,
        b1.last_update_id == b2.last_update_id,
        b1.timestamp == b2.timestamp,
{
    lemma_json_assoc(b1);
    lemma_json_assoc(b2);
    lemma_strip_prefix(lit_head(), jtail_sym(b1), jtail_sym(b2));
    lemma_stage_sym(b1, b2);
    lemma_stage_bids(b1, b2);
    lemma_stage_asks(b1, b2);
    lemma_stage_ids(b1, b2);
}


/// Parses a symbol (capitals and digits, one to thirty-two of them)
/// beginning at `from`, up to but not including the byte that ends it.
/// Exactly the well-formed symbols ending at that boundary are accepted.
pub fn parse_symbol_at(s: &[u8], from: usize) -> (r: Option<(String, usize)>)
    requires
        from <= s@.len(),
    ensures
        r matches Some((sym, j)) ==> {
            &&& from <= j <= s@.len()
            &&& s@.subrange(from as int, j as int) == sym_bytes(sym@)
            &&& symbol_wf(sym@)
            &&& j == s@.len() || !(symbol_byte_class())(s@[j as int])
        },
        r is None ==> forall|sym: Seq<char>, j0: int|
            #![trigger s@.subrange(from as int, j0), sym_bytes(sym)]
            !(from <= j0 <= s@.len() && s@.subrange(from as int, j0) == sym_bytes(sym)
                && symbol_wf(sym) && (j0 == s@.len() || !(symbol_byte_class())(s@[j0]))),
{
    let n = s.len();
    let mut i: usize = from;
    let mut raw: Vec<u8> = Vec::new();
    loop
        invariant
            from <= i <= n == s@.len(),
            raw@ =~= s@.subrange(from as int, i as int),
            forall|k: int|
                0 <= k < raw@.len() ==> (65 <= #[trigger] raw@[k] <= 90 || 48 <= raw@[k] <= 57),
        ensures
            from <= i <= n,
            raw@ == s@.subrange(from as int, i as int),
            forall|k: int|
                0 <= k < raw@.len() ==> (65 <= #[trigger] raw@[k] <= 90 || 48 <= raw@[k] <= 57),
            i == n || !(symbol_byte_class())(s@[i as int]),
        decreases n - i,
    {
        if i >= n {
            break;
        }
        let b = s[i];
        if !((b >= 65 && b <= 90) || (b >= 48 && b <= 57)) {
            break;
        }
        raw.push(b);
        proof {
            assert(raw@ =~= s@.subrange(from as int, i + 1));
        }
        i = i + 1;
    }
    let len = raw.len();
    if len < 1 || len > 32 {
        proof {
            assert forall|sym: Seq<char>, j0: int|
                #![trigger s@.subrange(from as int, j0), sym_bytes(sym)]
                !(from <= j0 <= s@.len() && s@.subrange(from as int, j0) == sym_bytes(sym)
                    && symbol_wf(sym) && (j0 == s@.len() || !(symbol_byte_class())(
                    s@[j0],
                ))) by {
                if from <= j0 <= s@.len() && s@.subrange(from as int, j0) == sym_bytes(sym)
                    && symbol_wf(sym) && (j0 == s@.len() || !(symbol_byte_class())(s@[j0])) {
                    assert forall|k: int|
                        from <= k < i implies (symbol_byte_class())(#[trigger] s@[k]) by {
                        assert(s@[k] == raw@[k - from]);
                    }
                    lemma_symbol_run_end(s@, from as int, i as int, j0, sym);
                }
            }
        }
        return None;
    }
    let ghost raw_view = raw@;
    let sym = crate::text::from_ascii_bytes(raw);
    proof {
        assert(symbol_wf(sym@));
        assert(sym_bytes(sym@) =~= raw_view);
    }
    Some((sym, i))
}

/// A symbol's bytes laid over a maximal capital-and-digit run end
/// exactly at the run's end.
proof fn lemma_symbol_run_end(s: Seq<u8>, from: int, i: int, j0: int, sym: Seq<char>)
    requires
        0 <= from <= i <= s.len(),
        from <= j0 <= s.len(),
        forall|k: int| from <= k < i ==> (symbol_byte_class())(#[trigger] s[k]),
        i == s.len() || !(symbol_byte_class())(s[i as int]),
        s.subrange(from, j0) == sym_bytes(sym),
        symbol_wf(sym),
        j0 == s.len() || !(symbol_byte_class())(s[j0]),
    ensures
        j0 == i,
        j0 - from == sym.len(),
{
    lemma_sym_bytes(sym);
    assert forall|k: int| from <= k < j0 implies (symbol_byte_class())(#[trigger] s[k]) by {
        assert(s[k] == s.subrange(from, j0)[k - from]);
        assert((symbol_byte_class())(sym_bytes(sym)[k - from]));
    }
    if j0 < i {
        assert((symbol_byte_class())(s[j0]));
    }
    if i < j0 {
        assert((symbol_byte_class())(s[i as int]));
    }
}


/// Two canonical numerals starting at the same position, each followed
/// by a non-numeral byte (or the text's end), are the same numeral.
pub proof fn lemma_two_numerals(s: Seq<u8>, a: int, b1: int, m1: nat, b2: int, m2: nat)
    requires
        0 <= a <= b1 <= s.len(),
        a <= b2 <= s.len(),
        s.subrange(a, b1) == scaled_bytes(m1),
        s.subrange(a, b2) == scaled_bytes(m2),
        b1 == s.len() || !is_numeral_byte(s[b1]),
        b2 == s.len() || !is_numeral_byte(s[b2]),
        m1 < MANTISSA_LIMIT,
        m2 < MANTISSA_LIMIT,
    ensures
        b1 == b2,
        m1 == m2,
{
    lemma_scaled_bytes_class(m1);
    lemma_scaled_bytes_class(m2);
    assert forall|k: int| a <= k < b1 implies is_numeral_byte(#[trigger] s[k]) by {
        assert(s[k] == s.subrange(a, b1)[k - a]);
    }
    assert forall|k: int| a <= k < b2 implies is_numeral_byte(#[trigger] s[k]) by {
        assert(s[k] == s.subrange(a, b2)[k - a]);
    }
    if b1 < b2 {
        assert(is_numeral_byte(s[b1]));
    }
    if b2 < b1 {
        assert(is_numeral_byte(s[b2]));
    }
    assert(scaled_bytes(m1) == scaled_bytes(m2));
    crate::decimal::lemma_scaled_round_trip(m1);
    crate::decimal::lemma_scaled_round_trip(m2);
}

/// Two canonical integers starting at the same position, each followed
/// by a non-digit byte (or the text's end), are the same integer.
pub proof fn lemma_two_integers(s: Seq<u8>, a: int, b1: int, m1: nat, b2: int, m2: nat)
    requires
        0 <= a <= b1 <= s.len(),
        a <= b2 <= s.len(),
        s.subrange(a, b1) == dec_digits(m1),
        s.subrange(a, b2) == dec_digits(m2),
        b1 == s.len() || !crate::decimal::is_digit(s[b1]),
        b2 == s.len() || !crate::decimal::is_digit(s[b2]),
    ensures
        b1 == b2,
        m1 == m2,
{
    crate::decimal::lemma_dec_digits_value(m1);
    crate::decimal::lemma_dec_digits_value(m2);
    assert forall|k: int| a <= k < b1 implies crate::decimal::is_digit(#[trigger] s[k]) by {
        assert(s[k] == s.subrange(a, b1)[k - a]);
    }
    assert forall|k: int| a <= k < b2 implies crate::decimal::is_digit(#[trigger] s[k]) by {
        assert(s[k] == s.subrange(a, b2)[k - a]);
    }
    if b1 < b2 {
        assert(crate::decimal::is_digit(s[b1]));
    }
    if b2 < b1 {
        assert(crate::decimal::is_digit(s[b2]));
    }
    assert(dec_digits(m1) == dec_digits(m2));
}


/// A well-formed side rendering sits at `[from, j)` of the text.
pub open spec fn side_at(s: Seq<u8>, from: int, ls: Seq<PriceLevel>, j: int) -> bool {
    &&& 0 <= from <= j <= s.len()
    &&& s.subrange(from, j) == side_obj(ls)
    &&& forall|k: int| 0 <= k < ls.len() ==> crate::book::stored_level_ok(#[trigger] ls[k])
}

/// Splitting a side's entries text at an interior entry boundary.
proof fn lemma_entries_take_skip(ls: Seq<PriceLevel>, k: int)
    requires
        0 < k < ls.len(),
    ensures
        side_entries(ls) == side_entries(ls.take(k)) + seq![COMMA] + side_entries(ls.skip(k)),
    decreases k,
{
    if k == 1 {
        assert(ls.take(1) =~= seq![ls[0]]);
        assert(side_entries(seq![ls[0]]) == entry_bytes(ls[0]));
        assert(side_entries(ls) == entry_bytes(ls[0]) + seq![COMMA] + side_entries(ls.skip(1)));
        assert(side_entries(ls.take(1)) == entry_bytes(ls[0]));
    } else {
        let t = ls.skip(1);
        lemma_entries_take_skip(t, k - 1);
        assert(ls.len() >= 2);
        assert(side_entries(ls) == entry_bytes(ls[0]) + seq![COMMA] + side_entries(t));
        let tk = ls.take(k);
        assert(tk.len() == k >= 2);
        assert(tk[0] == ls[0]);
        assert(tk.skip(1) =~= t.take(k - 1));
        assert(side_entries(tk) == entry_bytes(tk[0]) + seq![COMMA] + side_entries(tk.skip(1)));
        assert(t.skip(k - 1) =~= ls.skip(k));
        assert(side_entries(ls) =~= side_entries(ls.take(k)) + seq![COMMA] + side_entries(
            ls.skip(k),
        ));
    }
}

/// Where entry `k` of a side rendering sits, and which byte follows it.
#[verifier::rlimit(100)]
#[verifier::spinoff_prover]
proof fn lemma_entry_region(s: Seq<u8>, from: int, ls0: Seq<PriceLevel>, j0: int, k: int)
    requires
        side_at(s, from, ls0, j0),
        0 <= k < ls0.len(),
    ensures
        ({
            let start = from + 1 + side_entries(ls0.take(k)).len() + if k > 0 {
                1int
            } else {
                0int
            };
            let e = entry_bytes(ls0[k]);
            &&& from + 1 <= start
            &&& start + e.len() <= j0 - 1
            &&& s.subrange(start, start + e.len() as int) == e
            &&& (k + 1 < ls0.len() ==> s[start + e.len() as int] == COMMA)
            &&& (k + 1 == ls0.len() ==> start + e.len() as int == j0 - 1)
            &&& s[j0 - 1] == RBRACE
            &&& j0 >= from + 2
        }),
{
    let ee = side_entries(ls0);
    assert(s.subrange(from, j0) == seq![LBRACE] + ee + seq![RBRACE]);
    assert(j0 - from == 2 + ee.len());
    assert(s[j0 - 1] == (seq![LBRACE] + ee + seq![RBRACE])[j0 - 1 - from]);
    assert(s[j0 - 1] == RBRACE);
    assert forall|t: int| 0 <= t < ee.len() implies s[from + 1 + t] == ee[t] by {
        assert(s[from + 1 + t] == (seq![LBRACE] + ee + seq![RBRACE])[1 + t]);
    }
    let e = entry_bytes(ls0[k]);
    if k == 0 {
        let start = from + 1;
        if ls0.len() == 1 {
            assert(ee == e);
        } else {
            assert(ee == e + seq![COMMA] + side_entries(ls0.skip(1)));
            assert(ee[e.len() as int] == COMMA);
        }
        assert(s.subrange(start, start + e.len() as int) =~= e) by {
            assert forall|t: int| 0 <= t < e.len() implies s[start + t] == e[t] by {
                assert(ee[t] == e[t]);
            }
        }
    } else {
        lemma_entries_take_skip(ls0, k);
        let pre = side_entries(ls0.take(k));
        let suf = side_entries(ls0.skip(k));
        assert(ee == pre + seq![COMMA] + suf);
        let start = from + 1 + pre.len() + 1;
        assert(ls0.skip(k).len() == ls0.len() - k);
        assert(ls0.skip(k)[0] == ls0[k]);
        if ls0.len() - k == 1 {
            assert(suf == e);
        } else {
            assert(ls0.skip(k).skip(1) =~= ls0.skip(k + 1));
            assert(suf == e + seq![COMMA] + side_entries(ls0.skip(k).skip(1)));
        }
        assert forall|t: int| 0 <= t < suf.len() implies ee[pre.len() + 1 + t] == suf[t] by {}
        assert(s.subrange(start, start + e.len() as int) =~= e) by {
            assert forall|t: int| 0 <= t < e.len() implies s[start + t] == e[t] by {
                assert(ee[pre.len() + 1 + t] == suf[t]);
                assert(suf[t] == e[t]);
            }
        }
        if k + 1 < ls0.len() {
            assert(suf[e.len() as int] == COMMA);
            assert(ee[pre.len() as int + 1 + e.len() as int] == COMMA);
        }
    }
}


/// Positions of the payload's pieces for a given book.
pub open spec fn p_sym_end(b: &OrderBook) -> int {
    11 + b.symbol@.len() as int
}

pub open spec fn p_bids_start(b: &OrderBook) -> int {
    p_sym_end(b) + 9
}

pub open spec fn p_bids_end(b: &OrderBook) -> int {
    p_bids_start(b) + side_obj(b.bids@.reverse()).len() as int
}

pub open spec fn p_asks_start(b: &OrderBook) -> int {
    p_bids_end(b) + 8
}

pub open spec fn p_asks_end(b: &OrderBook) -> int {
    p_asks_start(b) + side_obj(b.asks@).len() as int
}

pub open spec fn p_luid_start(b: &OrderBook) -> int {
    p_asks_end(b) + 18
}

pub open spec fn p_luid_end(b: &OrderBook) -> int {
    p_luid_start(b) + dec_digits(b.last_update_id as nat).len() as int
}

pub open spec fn p_ts_start(b: &OrderBook) -> int {
    p_luid_end(b) + 13
}

pub open spec fn p_ts_end(b: &OrderBook) -> int {
    p_ts_start(b) + dec_digits(b.timestamp as nat).len() as int
}

/// Where each piece of a well-formed book's payload sits.
#[verifier::rlimit(100)]
#[verifier::spinoff_prover]
proof fn lemma_payload_regions(b: &OrderBook)
    requires
        b.wf(),
    ensures
        ({
            let s = json_book(b);
            &&& s.len() == p_ts_end(b) + 1
            &&& 12 <= p_sym_end(b) <= 43
            &&& p_bids_end(b) >= p_bids_start(b) + 2
            &&& p_asks_end(b) >= p_asks_start(b) + 2
            &&& p_luid_end(b) >= p_luid_start(b) + 1
            &&& p_ts_end(b) >= p_ts_start(b) + 1
            &&& s.subrange(0, 11) == lit_head()
            &&& s.subrange(11, p_sym_end(b)) == sym_bytes(b.symbol@)
            &&& s.subrange(p_sym_end(b), p_bids_start(b)) == lit_bids()
            &&& side_at(s, p_bids_start(b), b.bids@.reverse(), p_bids_end(b))
            &&& s.subrange(p_bids_end(b), p_asks_start(b)) == lit_asks()
            &&& side_at(s, p_asks_start(b), b.asks@, p_asks_end(b))
            &&& s.subrange(p_asks_end(b), p_luid_start(b)) == lit_luid()
            &&& s.subrange(p_luid_start(b), p_luid_end(b)) == dec_digits(b.last_update_id as nat)
            &&& s.subrange(p_luid_end(b), p_ts_start(b)) == lit_ts()
            &&& s.subrange(p_ts_start(b), p_ts_end(b)) == dec_digits(b.timestamp as nat)
            &&& s[p_ts_end(b)] == RBRACE
        }),
{
    let s = json_book(b);
    let sym = sym_bytes(b.symbol@);
    let bo = side_obj(b.bids@.reverse());
    let ao = side_obj(b.asks@);
    let ld = dec_digits(b.last_update_id as nat);
    let td = dec_digits(b.timestamp as nat);
    crate::decimal::lemma_dec_digits_value(b.last_update_id as nat);
    crate::decimal::lemma_dec_digits_value(b.timestamp as nat);
    assert(s =~= lit_head() + sym + lit_bids() + bo + lit_asks() + ao + lit_luid() + ld + lit_ts()
        + td + seq![RBRACE]);
    assert(s.len() == 11 + sym.len() + 9 + bo.len() + 8 + ao.len() + 18 + ld.len() + 13 + td.len()
        + 1);
    assert(s.subrange(0, 11) =~= lit_head());
    assert(s.subrange(11, p_sym_end(b)) =~= sym);
    assert(s.subrange(p_sym_end(b), p_bids_start(b)) =~= lit_bids());
    assert(s.subrange(p_bids_start(b), p_bids_end(b)) =~= bo);
    assert(s.subrange(p_bids_end(b), p_asks_start(b)) =~= lit_asks());
    assert(s.subrange(p_asks_start(b), p_asks_end(b)) =~= ao);
    assert(s.subrange(p_asks_end(b), p_luid_start(b)) =~= lit_luid());
    assert(s.subrange(p_luid_start(b), p_luid_end(b)) =~= ld);
    assert(s.subrange(p_luid_end(b), p_ts_start(b)) =~= lit_ts());
    assert(s.subrange(p_ts_start(b), p_ts_end(b)) =~= td);
    assert forall|k: int|
        0 <= k < b.bids@.reverse().len() implies crate::book::stored_level_ok(
        #[trigger] b.bids@.reverse()[k],
    ) by {
        assert(b.bids@.reverse()[k] == b.bids@[b.bids@.len() - 1 - k]);
    }
}


/// Whether some well-formed book's canonical payload is exactly this text.
pub open spec fn payload_of_some_book(s: Seq<u8>) -> bool {
    exists|b: OrderBook| #[trigger] json_book(&b) == s && b.wf()
}

/// In a canonical payload, a maximal run of symbol-class bytes from
/// position 11 ends exactly where the symbol ends.
proof fn lemma_sym_pos(s: Seq<u8>, b: &OrderBook, i: int)
    requires
        b.wf(),
        json_book(b) == s,
        11 <= i <= s.len(),
        forall|k: int| 11 <= k < i ==> (symbol_byte_class())(#[trigger] s[k]),
        i == s.len() || !(symbol_byte_class())(s[i]),
    ensures
        i == p_sym_end(b),
        s[p_sym_end(b)] == QUOTE,
        p_sym_end(b) < s.len(),
{
    lemma_payload_regions(b);
    lemma_sym_bytes(b.symbol@);
    let e = p_sym_end(b);
    assert forall|k: int| 11 <= k < e implies (symbol_byte_class())(#[trigger] s[k]) by {
        assert(s[k] == s.subrange(11, e)[k - 11]);
        assert((symbol_byte_class())(sym_bytes(b.symbol@)[k - 11]));
    }
    assert(s[e] == s.subrange(e, p_bids_start(b))[0]);
    assert(s[e] == QUOTE);
    assert(!(symbol_byte_class())(QUOTE));
    if i < e {
        assert((symbol_byte_class())(s[i]));
        assert(i < s.len());
    }
    if e < i {
        assert((symbol_byte_class())(s[e]));
    }
}

/// Everything a hypothetical canonical payload pins down once its head
/// literal and the symbol run have been matched.
#[verifier::rlimit(100)]
#[verifier::spinoff_prover]
proof fn lemma_payload_frame(s: Seq<u8>, b2: &OrderBook, i: int)
    requires
        b2.wf(),
        json_book(b2) == s,
        11 <= i <= s.len(),
        forall|k: int| 11 <= k < i ==> (symbol_byte_class())(#[trigger] s[k]),
        i == s.len() || !(symbol_byte_class())(s[i]),
    ensures
        i == p_sym_end(b2),
        s[i] == QUOTE,
        1 <= b2.symbol@.len() <= 32,
        i + 9 == p_bids_start(b2),
        s.subrange(i, i + 9) == lit_bids(),
        side_at(s, i + 9, b2.bids@.reverse(), p_bids_end(b2)),
        p_asks_start(b2) == p_bids_end(b2) + 8,
        s.subrange(p_bids_end(b2), p_asks_start(b2)) == lit_asks(),
        side_at(s, p_asks_start(b2), b2.asks@, p_asks_end(b2)),
        p_luid_start(b2) == p_asks_end(b2) + 18,
        s.subrange(p_asks_end(b2), p_luid_start(b2)) == lit_luid(),
        s.subrange(p_luid_start(b2), p_luid_end(b2)) == dec_digits(b2.last_update_id as nat),
        s[p_luid_end(b2)] == COMMA,
        p_ts_start(b2) == p_luid_end(b2) + 13,
        s.subrange(p_luid_end(b2), p_ts_start(b2)) == lit_ts(),
        s.subrange(p_ts_start(b2), p_ts_end(b2)) == dec_digits(b2.timestamp as nat),
        s[p_ts_end(b2)] == RBRACE,
        s.len() == p_ts_end(b2) + 1,
        p_ts_end(b2) >= p_ts_start(b2) + 1,
        p_luid_end(b2) >= p_luid_start(b2) + 1,
        sym_bytes(b2.symbol@) == s.subrange(11, i),
{
    lemma_payload_regions(b2);
    lemma_sym_pos(s, b2, i);
    assert(s[p_luid_end(b2)] == s.subrange(p_luid_end(b2), p_ts_start(b2))[0]);
    assert(lit_ts()[0] == COMMA);
}


/// The parser's state once the head literal and the symbol run are
/// matched: everything before `i` is forced, and `i` carries the quote
/// that closes a plausible symbol.
pub open spec fn sym_scan_state(s: Seq<u8>, i: int) -> bool {
    &&& s.len() >= 11
    &&& s.subrange(0, 11) == lit_head()
    &&& 11 <= i < s.len()
    &&& forall|k: int| 11 <= k < i ==> (symbol_byte_class())(#[trigger] s[k])
    &&& s[i] == QUOTE
    &&& 1 <= i - 11 <= 32
}

/// The bids side parsed at `i + 9`: any side rendering there is the one
/// found, ending where it ended.
pub open spec fn bids_resolved(s: Seq<u8>, i: int, desc: Seq<PriceLevel>, ab: int) -> bool {
    forall|ls0: Seq<PriceLevel>, j0: int|
        #[trigger] side_at(s, i + 9, ls0, j0) ==> ls0 == desc && j0 == ab
}

/// The asks side parsed at `ab + 8`, likewise.
pub open spec fn asks_resolved(s: Seq<u8>, ab: int, asks: Seq<PriceLevel>, aa: int) -> bool {
    forall|ls0: Seq<PriceLevel>, j0: int|
        #[trigger] side_at(s, ab + 8, ls0, j0) ==> ls0 == asks && j0 == aa
}

proof fn lemma_no_payload_short(s: Seq<u8>)
    requires
        s.len() < 11 || s.subrange(0, 11) != lit_head(),
    ensures
        !payload_of_some_book(s),
{
    if payload_of_some_book(s) {
        let b2 = choose|b2: OrderBook| #[trigger] json_book(&b2) == s && b2.wf();
        lemma_payload_regions(&b2);
    }
}

proof fn lemma_no_payload_sym(s: Seq<u8>, i: int)
    requires
        s.len() >= 11,
        s.subrange(0, 11) == lit_head(),
        11 <= i <= s.len(),
        forall|k: int| 11 <= k < i ==> (symbol_byte_class())(#[trigger] s[k]),
        i == s.len() || (!(symbol_byte_class())(s[i]) && s[i] != QUOTE),
    ensures
        !payload_of_some_book(s),
{
    if payload_of_some_book(s) {
        let b2 = choose|b2: OrderBook| #[trigger] json_book(&b2) == s && b2.wf();
        lemma_payload_frame(s, &b2, i);
    }
}

proof fn lemma_no_payload_symlen(s: Seq<u8>, i: int)
    requires
        s.len() >= 11,
        s.subrange(0, 11) == lit_head(),
        11 <= i < s.len(),
        forall|k: int| 11 <= k < i ==> (symbol_byte_class())(#[trigger] s[k]),
        s[i] == QUOTE,
        !(1 <= i - 11 <= 32),
    ensures
        !payload_of_some_book(s),
{
    if payload_of_some_book(s) {
        let b2 = choose|b2: OrderBook| #[trigger] json_book(&b2) == s && b2.wf();
        lemma_payload_frame(s, &b2, i);
    }
}

proof fn lemma_no_payload_bids_lit(s: Seq<u8>, i: int)
    requires
        sym_scan_state(s, i),
        !(i + 9 <= s.len() && s.subrange(i, i + 9) == lit_bids()),
    ensures
        !payload_of_some_book(s),
{
    if payload_of_some_book(s) {
        let b2 = choose|b2: OrderBook| #[trigger] json_book(&b2) == s && b2.wf();
        lemma_payload_frame(s, &b2, i);
    }
}

proof fn lemma_no_payload_bids_side(s: Seq<u8>, i: int)
    requires
        sym_scan_state(s, i),
        forall|ls0: Seq<PriceLevel>, j0: int| !#[trigger] side_at(s, i + 9, ls0, j0),
    ensures
        !payload_of_some_book(s),
{
    if payload_of_some_book(s) {
        let b2 = choose|b2: OrderBook| #[trigger] json_book(&b2) == s && b2.wf();
        lemma_payload_frame(s, &b2, i);
    }
}

proof fn lemma_no_payload_bids_order(s: Seq<u8>, i: int, desc: Seq<PriceLevel>, ab: int)
    requires
        sym_scan_state(s, i),
        bids_resolved(s, i, desc, ab),
        !(forall|a: int, c: int|
            0 <= a < c < desc.len() ==> (#[trigger] desc[a]).price > (#[trigger] desc[c]).price),
    ensures
        !payload_of_some_book(s),
{
    if payload_of_some_book(s) {
        let b2 = choose|b2: OrderBook| #[trigger] json_book(&b2) == s && b2.wf();
        lemma_payload_frame(s, &b2, i);
        assert(desc == b2.bids@.reverse());
        assert forall|a: int, c: int|
            0 <= a < c < desc.len() implies (#[trigger] desc[a]).price > (
        #[trigger] desc[c]).price by {
            assert(desc[a] == b2.bids@[b2.bids@.len() - 1 - a]);
            assert(desc[c] == b2.bids@[b2.bids@.len() - 1 - c]);
        }
    }
}

proof fn lemma_no_payload_asks_lit(s: Seq<u8>, i: int, desc: Seq<PriceLevel>, ab: int)
    requires
        sym_scan_state(s, i),
        bids_resolved(s, i, desc, ab),
        !(0 <= ab && ab + 8 <= s.len() && s.subrange(ab, ab + 8) == lit_asks()),
    ensures
        !payload_of_some_book(s),
{
    if payload_of_some_book(s) {
        let b2 = choose|b2: OrderBook| #[trigger] json_book(&b2) == s && b2.wf();
        lemma_payload_frame(s, &b2, i);
        assert(ab == p_bids_end(&b2));
    }
}

proof fn lemma_no_payload_asks_side(s: Seq<u8>, i: int, desc: Seq<PriceLevel>, ab: int)
    requires
        sym_scan_state(s, i),
        bids_resolved(s, i, desc, ab),
        forall|ls0: Seq<PriceLevel>, j0: int| !#[trigger] side_at(s, ab + 8, ls0, j0),
    ensures
        !payload_of_some_book(s),
{
    if payload_of_some_book(s) {
        let b2 = choose|b2: OrderBook| #[trigger] json_book(&b2) == s && b2.wf();
        lemma_payload_frame(s, &b2, i);
        assert(ab == p_bids_end(&b2));
        assert(side_at(s, ab + 8, b2.asks@, p_asks_end(&b2)));
    }
}

proof fn lemma_no_payload_asks_order(
    s: Seq<u8>,
    i: int,
    desc: Seq<PriceLevel>,
    ab: int,
    asks: Seq<PriceLevel>,
    aa: int,
)
    requires
        sym_scan_state(s, i),
        bids_resolved(s, i, desc, ab),
        asks_resolved(s, ab, asks, aa),
        !(forall|a: int, c: int|
            0 <= a < c < asks.len() ==> (#[trigger] asks[a]).price < (#[trigger] asks[c]).price),
    ensures
        !payload_of_some_book(s),
{
    if payload_of_some_book(s) {
        let b2 = choose|b2: OrderBook| #[trigger] json_book(&b2) == s && b2.wf();
        lemma_payload_frame(s, &b2, i);
        assert(ab == p_bids_end(&b2));
        assert(asks == b2.asks@);
    }
}

proof fn lemma_no_payload_luid_lit(
    s: Seq<u8>,
    i: int,
    desc: Seq<PriceLevel>,
    ab: int,
    asks: Seq<PriceLevel>,
    aa: int,
)
    requires
        sym_scan_state(s, i),
        bids_resolved(s, i, desc, ab),
        asks_resolved(s, ab, asks, aa),
        !(0 <= aa && aa + 18 <= s.len() && s.subrange(aa, aa + 18) == lit_luid()),
    ensures
        !payload_of_some_book(s),
{
    if payload_of_some_book(s) {
        let b2 = choose|b2: OrderBook| #[trigger] json_book(&b2) == s && b2.wf();
        lemma_payload_frame(s, &b2, i);
        assert(ab == p_bids_end(&b2));
        assert(aa == p_asks_end(&b2));
    }
}

proof fn lemma_no_payload_luid_none(
    s: Seq<u8>,
    i: int,
    desc: Seq<PriceLevel>,
    ab: int,
    asks: Seq<PriceLevel>,
    aa: int,
)
    requires
        sym_scan_state(s, i),
        bids_resolved(s, i, desc, ab),
        asks_resolved(s, ab, asks, aa),
        forall|m: u64, j0: int|
            #![trigger s.subrange(aa + 18, j0), dec_digits(m as nat)]
            !(aa + 18 <= j0 <= s.len() && s.subrange(aa + 18, j0) == dec_digits(m as nat) && (j0
                == s.len() || !crate::decimal::is_digit(s[j0]))),
    ensures
        !payload_of_some_book(s),
{
    if payload_of_some_book(s) {
        let b2 = choose|b2: OrderBook| #[trigger] json_book(&b2) == s && b2.wf();
        lemma_payload_frame(s, &b2, i);
        assert(ab == p_bids_end(&b2));
        assert(aa == p_asks_end(&b2));
        assert(s.subrange(aa + 18, p_luid_end(&b2)) == dec_digits(b2.last_update_id as nat));
        assert(!crate::decimal::is_digit(s[p_luid_end(&b2)]));
    }
}

proof fn lemma_no_payload_ts_lit(
    s: Seq<u8>,
    i: int,
    desc: Seq<PriceLevel>,
    ab: int,
    asks: Seq<PriceLevel>,
    aa: int,
    luid: u64,
    al: int,
)
    requires
        sym_scan_state(s, i),
        bids_resolved(s, i, desc, ab),
        asks_resolved(s, ab, asks, aa),
        0 <= aa && aa + 18 <= al <= s.len(),
        s.subrange(aa + 18, al) == dec_digits(luid as nat),
        al == s.len() || !crate::decimal::is_digit(s[al]),
        !(al + 13 <= s.len() && s.subrange(al, al + 13) == lit_ts()),
    ensures
        !payload_of_some_book(s),
{
    if payload_of_some_book(s) {
        let b2 = choose|b2: OrderBook| #[trigger] json_book(&b2) == s && b2.wf();
        lemma_payload_frame(s, &b2, i);
        assert(ab == p_bids_end(&b2));
        assert(aa == p_asks_end(&b2));
        assert(!crate::decimal::is_digit(s[p_luid_end(&b2)]));
        lemma_two_integers(s, aa + 18, al, luid as nat, p_luid_end(&b2),
            b2.last_update_id as nat);
    }
}

proof fn lemma_no_payload_ts_none(
    s: Seq<u8>,
    i: int,
    desc: Seq<PriceLevel>,
    ab: int,
    asks: Seq<PriceLevel>,
    aa: int,
    luid: u64,
    al: int,
)
    requires
        sym_scan_state(s, i),
        bids_resolved(s, i, desc, ab),
        asks_resolved(s, ab, asks, aa),
        0 <= aa && aa + 18 <= al <= s.len(),
        s.subrange(aa + 18, al) == dec_digits(luid as nat),
        al == s.len() || !crate::decimal::is_digit(s[al]),
        forall|m: u64, j0: int|
            #![trigger s.subrange(al + 13, j0), dec_digits(m as nat)]
            !(al + 13 <= j0 <= s.len() && s.subrange(al + 13, j0) == dec_digits(m as nat) && (j0
                == s.len() || !crate::decimal::is_digit(s[j0]))),
    ensures
        !payload_of_some_book(s),
{
    if payload_of_some_book(s) {
        let b2 = choose|b2: OrderBook| #[trigger] json_book(&b2) == s && b2.wf();
        lemma_payload_frame(s, &b2, i);
        assert(ab == p_bids_end(&b2));
        assert(aa == p_asks_end(&b2));
        assert(!crate::decimal::is_digit(s[p_luid_end(&b2)]));
        lemma_two_integers(s, aa + 18, al, luid as nat, p_luid_end(&b2),
            b2.last_update_id as nat);
        assert(s.subrange(al + 13, p_ts_end(&b2)) == dec_digits(b2.timestamp as nat));
        assert(!crate::decimal::is_digit(s[p_ts_end(&b2)]));
    }
}

proof fn lemma_no_payload_tail(
    s: Seq<u8>,
    i: int,
    desc: Seq<PriceLevel>,
    ab: int,
    asks: Seq<PriceLevel>,
    aa: int,
    luid: u64,
    al: int,
    ts: u64,
    at: int,
)
    requires
        sym_scan_state(s, i),
        bids_resolved(s, i, desc, ab),
        asks_resolved(s, ab, asks, aa),
        0 <= aa && aa + 18 <= al <= s.len(),
        s.subrange(aa + 18, al) == dec_digits(luid as nat),
        al == s.len() || !crate::decimal::is_digit(s[al]),
        al + 13 <= at <= s.len(),
        s.subrange(al + 13, at) == dec_digits(ts as nat),
        at == s.len() || !crate::decimal::is_digit(s[at]),
        !(at == s.len() - 1 && s[at] == RBRACE),
    ensures
        !payload_of_some_book(s),
{
    if payload_of_some_book(s) {
        let b2 = choose|b2: OrderBook| #[trigger] json_book(&b2) == s && b2.wf();
        lemma_payload_frame(s, &b2, i);
        assert(ab == p_bids_end(&b2));
        assert(aa == p_asks_end(&b2));
        assert(!crate::decimal::is_digit(s[p_luid_end(&b2)]));
        lemma_two_integers(s, aa + 18, al, luid as nat, p_luid_end(&b2),
            b2.last_update_id as nat);
        assert(!crate::decimal::is_digit(s[p_ts_end(&b2)]));
        lemma_two_integers(s, al + 13, at, ts as nat, p_ts_end(&b2), b2.timestamp as nat);
    }
}

proof fn lemma_no_payload_crossed(
    s: Seq<u8>,
    i: int,
    desc: Seq<PriceLevel>,
    ab: int,
    asks: Seq<PriceLevel>,
    aa: int,
)
    requires
        sym_scan_state(s, i),
        bids_resolved(s, i, desc, ab),
        asks_resolved(s, ab, asks, aa),
        desc.len() > 0 && asks.len() > 0,
        desc[0].price >= asks[0].price,
    ensures
        !payload_of_some_book(s),
{
    if payload_of_some_book(s) {
        let b2 = choose|b2: OrderBook| #[trigger] json_book(&b2) == s && b2.wf();
        lemma_payload_frame(s, &b2, i);
        assert(ab == p_bids_end(&b2));
        assert(desc == b2.bids@.reverse());
        assert(asks == b2.asks@);
        assert(desc[0] == b2.bids@[b2.bids@.len() - 1]);
        assert(b2.bids@.last().price < b2.asks@.first().price);
    }
}


/// The round trip, assembled: a well-formed book's canonical payload is
/// the payload of some well-formed book — namely itself — so by the
/// parser's contract `parse_book_payload` cannot refuse it, and by its
/// soundness and `lemma_payload_identifies_book` the book it returns
/// agrees with the original on every field, the timestamp included.
pub proof fn lemma_payload_round_trip(b: &OrderBook)
    requires
        b.wf(),
    ensures
        payload_of_some_book(json_book(b)),
{
    assert(json_book(b) == json_book(b) && b.wf());
}

} // verus!\n