//! The publisher: fan-out of book, quote and trade events.
//!
//! For one book event the publisher prepares, in order, a bus publish of
//! the canonical book payload, a TTL-bounded cache write of the derived
//! quote summary, a bus publish of that same quote, and a ring write of
//! the raw book payload bytes. The plan pins each channel name, payload
//! and the TTL, and the ring record is byte-for-byte the bus payload, so
//! every sink sees the same logical book. The binary executes the bus
//! steps; the ring write happens here. Each sink's failure is its own:
//! nothing in the plan lets one sink's outcome change another's input.

use vstd::prelude::*;

use crate::book::OrderBook;
use crate::book::symbol_wf;
use crate::decimal::DOT;
use crate::decimal::dec_digits;
use crate::decimal::pad_digits;
use crate::decimal::trim_frac;
use crate::decimal::lemma_pow10_8;
use crate::decimal::lemma_pow10_adds;
use crate::ring::RingError;
use crate::ring::SharedMemoryRing;
use crate::wire::json_book;
use crate::wire::sym_bytes;
use crate::wire::book_payload;

verus! {

/// A trade record as the feed reports it: price and quantity at the
/// crate scale, the trade time in milliseconds.
#[derive(Clone, Debug)]
pub struct Trade {
    pub symbol: String,
    pub trade_id: u64,
    pub price: u64,
    pub quantity: u64,
    pub timestamp: u64,
    pub is_buyer_maker: bool,
}

/// The reduced projection of a book: best bid, best ask and their
/// midpoint. The mid is carried at nine fractional digits so the
/// halving is exact; it is zero whenever either side is empty, as are
/// the missing sides' prices.
#[derive(Clone, Debug)]
pub struct QuoteSummary {
    pub symbol: String,
    /// Mid price as a mantissa at nine fractional digits.
    pub last_price: u64,
    pub bid_price: u64,
    pub ask_price: u64,
    /// Microseconds since the epoch.
    pub updated_at: u64,
}

/// The quote a book projects to at time `now`.
pub open spec fn quote_of(b: &OrderBook, now: u64) -> QuoteSummary {
    QuoteSummary {
        symbol: b.symbol,
        last_price: if b.bids@.len() > 0 && b.asks@.len() > 0 {
            (5 * (b.bids@.last().price + b.asks@.first().price)) as u64
        } else {
            0
        },
        bid_price: if b.bids@.len() > 0 {
            b.bids@.last().price
        } else {
            0
        },
        ask_price: if b.asks@.len() > 0 {
            b.asks@.first().price
        } else {
            0
        },
        updated_at: now,
    }
}

/// Derives the quote summary of a book.
pub fn derive_quote(b: &OrderBook, now_micros: u64) -> (r: QuoteSummary)
    requires
        b.wf(),
    ensures
        r == quote_of(b, now_micros),
{
    let bid_price: u64 = if b.bids.len() > 0 {
        b.bids[b.bids.len() - 1].price
    } else {
        0
    };
    let ask_price: u64 = if b.asks.len() > 0 {
        b.asks[0].price
    } else {
        0
    };
    let last_price: u64 = if b.bids.len() > 0 && b.asks.len() > 0 {
        5 * (bid_price + ask_price)
    } else {
        0
    };
    QuoteSummary {
        symbol: b.symbol.clone(),
        last_price,
        bid_price,
        ask_price,
        updated_at: now_micros,
    }
}

/// The canonical numeral of a mantissa at nine fractional digits.
pub open spec fn scaled9_bytes(m: nat) -> Seq<u8> {
    let i = m / 1_000_000_000;
    let f = m % 1_000_000_000;
    if f == 0 {
        dec_digits(i)
    } else {
        let t = trim_frac(f, 9);
        dec_digits(i) + seq![DOT] + pad_digits(t.0, t.1)
    }
}

/// Renders a mantissa at nine fractional digits.
pub fn render_scaled9(m: u64) -> (r: Vec<u8>)
    ensures
        r@ == scaled9_bytes(m as nat),
{
    let int_part = m / 1_000_000_000;
    let frac = m % 1_000_000_000;
    let mut out = crate::decimal::render_u64(int_part);
    if frac == 0 {
        return out;
    }
    out.push(DOT);
    let mut f: u64 = frac;
    let mut flen: usize = 9;
    proof {
        lemma_pow10_8();
        lemma_pow10_adds(8, 1);
    }
    loop
        invariant
            1 <= flen <= 9,
            f < crate::decimal::pow10(flen as nat),
            0 < f,
            trim_frac(frac as nat, 9) == trim_frac(f as nat, flen as nat),
        ensures
            1 <= flen <= 9,
            f < crate::decimal::pow10(flen as nat),
            trim_frac(frac as nat, 9) == (f as nat, flen as nat),
        decreases flen,
    {
        if flen == 1 || f % 10 != 0 {
            break;
        }
        proof {
            assert(crate::decimal::pow10(flen as nat) == 10 * crate::decimal::pow10(
                (flen - 1) as nat,
            ));
            assert(f / 10 < crate::decimal::pow10((flen - 1) as nat)) by (nonlinear_arith)
                requires
                    f < 10 * crate::decimal::pow10((flen - 1) as nat),
            ;
        }
        f = f / 10;
        flen = flen - 1;
    }
    let mut tail = crate::decimal::render_padded(f, flen);
    out.append(&mut tail);
    proof {
        assert(out@ =~= scaled9_bytes(m as nat));
    }
    out
}

/// `{"symbol":"`
pub open spec fn qlit_head() -> Seq<u8> {
    seq![123u8, 34u8, 115u8, 121u8, 109u8, 98u8, 111u8, 108u8, 34u8, 58u8, 34u8]
}

/// `","last_price":`
pub open spec fn qlit_last() -> Seq<u8> {
    seq![34u8, 44u8, 34u8, 108u8, 97u8, 115u8, 116u8, 95u8, 112u8, 114u8, 105u8, 99u8, 101u8, 34u8, 58u8]
}

/// `,"bid_price":`
pub open spec fn qlit_bid() -> Seq<u8> {
    seq![44u8, 34u8, 98u8, 105u8, 100u8, 95u8, 112u8, 114u8, 105u8, 99u8, 101u8, 34u8, 58u8]
}

/// `,"ask_price":`
pub open spec fn qlit_ask() -> Seq<u8> {
    seq![44u8, 34u8, 97u8, 115u8, 107u8, 95u8, 112u8, 114u8, 105u8, 99u8, 101u8, 34u8, 58u8]
}

/// `,"updated_at":`
pub open spec fn qlit_updated() -> Seq<u8> {
    seq![44u8, 34u8, 117u8, 112u8, 100u8, 97u8, 116u8, 101u8, 100u8, 95u8, 97u8, 116u8, 34u8, 58u8]
}

/// The canonical quote payload: prices at the crate scale, the mid at
/// nine digits, the update time in microseconds.
pub open spec fn json_quote(q: &QuoteSummary) -> Seq<u8> {
    qlit_head() + sym_bytes(q.symbol@) + qlit_last() + scaled9_bytes(q.last_price as nat)
        + qlit_bid() + crate::decimal::scaled_bytes(q.bid_price as nat) + qlit_ask()
        + crate::decimal::scaled_bytes(q.ask_price as nat) + qlit_updated() + dec_digits(
        q.updated_at as nat,
    ) + seq![125u8]
}

/// Serializes a quote summary to its canonical payload.
#[verifier::rlimit(100)]
pub fn quote_payload(q: &QuoteSummary) -> (r: Vec<u8>)
    requires
        symbol_wf(q.symbol@),
    ensures
        r@ == json_quote(q),
{
    let mut out: Vec<u8> = Vec::new();
    push_bytes_head(&mut out);
    crate::wire::push_symbol(&mut out, &q.symbol);
    push_lit_last(&mut out);
    let mut lp = render_scaled9(q.last_price);
    out.append(&mut lp);
    push_lit_bid(&mut out);
    let mut bp = crate::decimal::render_scaled(q.bid_price);
    out.append(&mut bp);
    push_lit_ask(&mut out);
    let mut ap = crate::decimal::render_scaled(q.ask_price);
    out.append(&mut ap);
    push_lit_updated(&mut out);
    let mut ua = crate::decimal::render_u64(q.updated_at);
    out.append(&mut ua);
    out.push(125u8);
    proof {
        assert(out@ =~= json_quote(q));
    }
    out
}

fn push_bytes_head(out: &mut Vec<u8>)
    ensures
        final(out)@ == old(out)@ + qlit_head(),
{
    out.push(123u8);
    out.push(34u8);
    out.push(115u8);
    out.push(121u8);
    out.push(109u8);
    out.push(98u8);
    out.push(111u8);
    out.push(108u8);
    out.push(34u8);
    out.push(58u8);
    out.push(34u8);
    proof {
        assert(final(out)@ =~= old(out)@ + qlit_head());
    }
}

fn push_lit_last(out: &mut Vec<u8>)
    ensures
        final(out)@ == old(out)@ + qlit_last(),
{
    out.push(34u8);
    out.push(44u8);
    out.push(34u8);
    out.push(108u8);
    out.push(97u8);
    out.push(115u8);
    out.push(116u8);
    out.push(95u8);
    out.push(112u8);
    out.push(114u8);
    out.push(105u8);
    out.push(99u8);
    out.push(101u8);
    out.push(34u8);
    out.push(58u8);
    proof {
        assert(final(out)@ =~= old(out)@ + qlit_last());
    }
}

fn push_lit_bid(out: &mut Vec<u8>)
    ensures
        final(out)@ == old(out)@ + qlit_bid(),
{
    out.push(44u8);
    out.push(34u8);
    out.push(98u8);
    out.push(105u8);
    out.push(100u8);
    out.push(95u8);
    out.push(112u8);
    out.push(114u8);
    out.push(105u8);
    out.push(99u8);
    out.push(101u8);
    out.push(34u8);
    out.push(58u8);
    proof {
        assert(final(out)@ =~= old(out)@ + qlit_bid());
    }
}

fn push_lit_ask(out: &mut Vec<u8>)
    ensures
        final(out)@ == old(out)@ + qlit_ask(),
{
    out.push(44u8);
    out.push(34u8);
    out.push(97u8);
    out.push(115u8);
    out.push(107u8);
    out.push(95u8);
    out.push(112u8);
    out.push(114u8);
    out.push(105u8);
    out.push(99u8);
    out.push(101u8);
    out.push(34u8);
    out.push(58u8);
    proof {
        assert(final(out)@ =~= old(out)@ + qlit_ask());
    }
}

fn push_lit_updated(out: &mut Vec<u8>)
    ensures
        final(out)@ == old(out)@ + qlit_updated(),
{
    out.push(44u8);
    out.push(34u8);
    out.push(117u8);
    out.push(112u8);
    out.push(100u8);
    out.push(97u8);
    out.push(116u8);
    out.push(101u8);
    out.push(100u8);
    out.push(95u8);
    out.push(97u8);
    out.push(116u8);
    out.push(34u8);
    out.push(58u8);
    proof {
        assert(final(out)@ =~= old(out)@ + qlit_updated());
    }
}

/// The cache TTL of a quote summary, in seconds.
pub const QUOTE_TTL_SECONDS: u64 = 300;

/// Everything one book event sends out, pinned before any sink runs.
pub struct PublishPlan {
    /// Bus channel of the full book payload.
    pub book_channel: String,
    /// The canonical book payload.
    pub book_payload: Vec<u8>,
    /// Cache key of the quote summary.
    pub quote_key: String,
    /// Bus channel of the quote summary.
    pub quote_channel: String,
    /// The canonical quote payload.
    pub quote_payload: Vec<u8>,
    /// Cache TTL of the quote, in seconds.
    pub quote_ttl_seconds: u64,
    /// The ring record: the same bytes as the bus book payload.
    pub ring_payload: Vec<u8>,
}

/// Prepares the whole fan-out of one book event.
///
/// The four sinks appear exactly once each: the book payload on
/// `orderbook:SYMBOL`, the quote under cache key `market_data:SYMBOL`
/// with the fixed TTL, the same quote on channel `market_data:SYMBOL`,
/// and the ring record, which is byte-for-byte the book payload.
pub fn build_orderbook_plan(b: &OrderBook, now_micros: u64) -> (r: PublishPlan)
    requires
        b.wf(),
    ensures
        r.book_channel@ == "orderbook:"@ + b.symbol@,
        r.book_payload@ == json_book(b),
        r.quote_key@ == "market_data:"@ + b.symbol@,
        r.quote_channel@ == "market_data:"@ + b.symbol@,
        r.quote_payload@ == json_quote(&quote_of(b, now_micros)),
        r.quote_ttl_seconds == QUOTE_TTL_SECONDS,
        r.ring_payload@ == r.book_payload@,
{
    let mut book_channel = crate::text::owned_str("orderbook:");
    book_channel.append(b.symbol.as_str());
    let mut quote_key = crate::text::owned_str("market_data:");
    quote_key.append(b.symbol.as_str());
    let mut quote_channel = crate::text::owned_str("market_data:");
    quote_channel.append(b.symbol.as_str());
    let payload = book_payload(b);
    let ring_copy = vstd::slice::slice_to_vec(payload.as_slice());
    let q = derive_quote(b, now_micros);
    let qp = quote_payload(&q);
    PublishPlan {
        book_channel,
        book_payload: payload,
        quote_key,
        quote_channel,
        quote_payload: qp,
        quote_ttl_seconds: QUOTE_TTL_SECONDS,
        ring_payload: ring_copy,
    }
}

/// `","trade_id":`
pub open spec fn tlit_id() -> Seq<u8> {
    seq![34u8, 44u8, 34u8, 116u8, 114u8, 97u8, 100u8, 101u8, 95u8, 105u8, 100u8, 34u8, 58u8]
}

/// `,"price":`
pub open spec fn tlit_price() -> Seq<u8> {
    seq![44u8, 34u8, 112u8, 114u8, 105u8, 99u8, 101u8, 34u8, 58u8]
}

/// `,"quantity":`
pub open spec fn tlit_qty() -> Seq<u8> {
    seq![44u8, 34u8, 113u8, 117u8, 97u8, 110u8, 116u8, 105u8, 116u8, 121u8, 34u8, 58u8]
}

/// `,"timestamp":`
pub open spec fn tlit_ts() -> Seq<u8> {
    seq![44u8, 34u8, 116u8, 105u8, 109u8, 101u8, 115u8, 116u8, 97u8, 109u8, 112u8, 34u8, 58u8]
}

/// `,"is_buyer_maker":`
pub open spec fn tlit_maker() -> Seq<u8> {
    seq![44u8, 34u8, 105u8, 115u8, 95u8, 98u8, 117u8, 121u8, 101u8, 114u8, 95u8, 109u8, 97u8, 107u8, 101u8, 114u8, 34u8, 58u8]
}

pub open spec fn bool_bytes(b: bool) -> Seq<u8> {
    if b {
        seq![116u8, 114u8, 117u8, 101u8]
    } else {
        seq![102u8, 97u8, 108u8, 115u8, 101u8]
    }
}

/// The canonical trade payload.
pub open spec fn json_trade(t: &Trade) -> Seq<u8> {
    qlit_head() + sym_bytes(t.symbol@) + tlit_id() + dec_digits(t.trade_id as nat) + tlit_price()
        + crate::decimal::scaled_bytes(t.price as nat) + tlit_qty()
        + crate::decimal::scaled_bytes(t.quantity as nat) + tlit_ts() + dec_digits(
        t.timestamp as nat,
    ) + tlit_maker() + bool_bytes(t.is_buyer_maker) + seq![125u8]
}

/// Serializes a trade to its canonical payload.
#[verifier::rlimit(100)]
pub fn trade_payload(t: &Trade) -> (r: Vec<u8>)
    requires
        symbol_wf(t.symbol@),
    ensures
        r@ == json_trade(t),
{
    let mut out: Vec<u8> = Vec::new();
    push_bytes_head(&mut out);
    crate::wire::push_symbol(&mut out, &t.symbol);
    push_tlit_id(&mut out);
    let mut tid = crate::decimal::render_u64(t.trade_id);
    out.append(&mut tid);
    push_tlit_price(&mut out);
    let mut pp = crate::decimal::render_scaled(t.price);
    out.append(&mut pp);
    push_tlit_qty(&mut out);
    let mut qq = crate::decimal::render_scaled(t.quantity);
    out.append(&mut qq);
    push_tlit_ts(&mut out);
    let mut ts = crate::decimal::render_u64(t.timestamp);
    out.append(&mut ts);
    push_tlit_maker(&mut out);
    if t.is_buyer_maker {
        out.push(116u8);
        out.push(114u8);
        out.push(117u8);
        out.push(101u8);
    } else {
        out.push(102u8);
        out.push(97u8);
        out.push(108u8);
        out.push(115u8);
        out.push(101u8);
    }
    out.push(125u8);
    proof {
        assert(out@ =~= json_trade(t));
    }
    out
}

fn push_tlit_id(out: &mut Vec<u8>)
    ensures
        final(out)@ == old(out)@ + tlit_id(),
{
    out.push(34u8);
    out.push(44u8);
    out.push(34u8);
    out.push(116u8);
    out.push(114u8);
    out.push(97u8);
    out.push(100u8);
    out.push(101u8);
    out.push(95u8);
    out.push(105u8);
    out.push(100u8);
    out.push(34u8);
    out.push(58u8);
    proof {
        assert(final(out)@ =~= old(out)@ + tlit_id());
    }
}

fn push_tlit_price(out: &mut Vec<u8>)
    ensures
        final(out)@ == old(out)@ + tlit_price(),
{
    out.push(44u8);
    out.push(34u8);
    out.push(112u8);
    out.push(114u8);
    out.push(105u8);
    out.push(99u8);
    out.push(101u8);
    out.push(34u8);
    out.push(58u8);
    proof {
        assert(final(out)@ =~= old(out)@ + tlit_price());
    }
}

fn push_tlit_qty(out: &mut Vec<u8>)
    ensures
        final(out)@ == old(out)@ + tlit_qty(),
{
    out.push(44u8);
    out.push(34u8);
    out.push(113u8);
    out.push(117u8);
    out.push(97u8);
    out.push(110u8);
    out.push(116u8);
    out.push(105u8);
    out.push(116u8);
    out.push(121u8);
    out.push(34u8);
    out.push(58u8);
    proof {
        assert(final(out)@ =~= old(out)@ + tlit_qty());
    }
}

fn push_tlit_ts(out: &mut Vec<u8>)
    ensures
        final(out)@ == old(out)@ + tlit_ts(),
{
    out.push(44u8);
    out.push(34u8);
    out.push(116u8);
    out.push(105u8);
    out.push(109u8);
    out.push(101u8);
    out.push(115u8);
    out.push(116u8);
    out.push(97u8);
    out.push(109u8);
    out.push(112u8);
    out.push(34u8);
    out.push(58u8);
    proof {
        assert(final(out)@ =~= old(out)@ + tlit_ts());
    }
}

fn push_tlit_maker(out: &mut Vec<u8>)
    ensures
        final(out)@ == old(out)@ + tlit_maker(),
{
    out.push(44u8);
    out.push(34u8);
    out.push(105u8);
    out.push(115u8);
    out.push(95u8);
    out.push(98u8);
    out.push(117u8);
    out.push(121u8);
    out.push(101u8);
    out.push(114u8);
    out.push(95u8);
    out.push(109u8);
    out.push(97u8);
    out.push(107u8);
    out.push(101u8);
    out.push(114u8);
    out.push(34u8);
    out.push(58u8);
    proof {
        assert(final(out)@ =~= old(out)@ + tlit_maker());
    }
}

/// A prepared trade publish: one channel, one payload.
pub struct TradePlan {
    /// Bus channel `trades:SYMBOL`.
    pub channel: String,
    pub payload: Vec<u8>,
}

/// Prepares the publish of one trade: its payload on `trades:SYMBOL`,
/// with no cache write and no ring write.
pub fn build_trade_plan(t: &Trade) -> (r: TradePlan)
    requires
        symbol_wf(t.symbol@),
    ensures
        r.channel@ == "trades:"@ + t.symbol@,
        r.payload@ == json_trade(t),
{
    let mut channel = crate::text::owned_str("trades:");
    channel.append(t.symbol.as_str());
    TradePlan { channel, payload: trade_payload(t) }
}

/// The publisher's verified half: it owns the ring and prepares every
/// bus payload; the binary performs the bus sends around it.
pub struct Publisher {
    pub ring: SharedMemoryRing,
}

impl Publisher {
    pub fn new(ring: SharedMemoryRing) -> Publisher {
        Publisher { ring }
    }

    /// Writes a plan's ring record; the last fan-out step.
    pub fn ring_write(&self, plan: &PublishPlan) -> (r: Result<(), RingError>)
        ensures
            r == Err::<(), RingError>(RingError::TooLarge) <==> plan.ring_payload@.len()
                > self.ring.spec_max_message_size(),
            plan.ring_payload@.len() <= self.ring.spec_max_message_size() ==> (r is Ok || r
                == Err::<(), RingError>(RingError::Full)),
    {
        self.ring.write(plan.ring_payload.as_slice())
    }
}

} // verus!
