//! Inbound feed frames.
//!
//! The exchange multiplexes two sub-streams into text frames of the
//! shape `{"stream":NAME,"data":{...}}`: depth deltas and aggregate
//! trades. This module parses those frames directly from their bytes.
//! Whenever a frame is accepted, the input is byte-for-byte the
//! canonical text of the returned record, so nothing can be smuggled in
//! or silently reinterpreted; any other text is dropped as a decode
//! failure, which the feed counts and survives.

use vstd::prelude::*;

use crate::book::DepthUpdate;
use crate::book::PriceLevel;
use crate::book::symbol_wf;
use crate::decimal::MANTISSA_LIMIT;
use crate::decimal::dec_digits;
use crate::decimal::scaled_bytes;
use crate::feed::StreamKind;
use crate::feed::classify_stream;
use crate::feed::has_substring;
use crate::publish::Trade;
use crate::publish::bool_bytes;
use crate::wire::COLON;
use crate::wire::COMMA;
use crate::wire::QUOTE;
use crate::wire::RBRACE;
use crate::wire::sym_bytes;

verus! {

/// Bytes allowed in a stream name: printable ASCII except the quote
/// and the backslash.
pub open spec fn stream_byte_ok(b: u8) -> bool {
    33 <= b <= 126 && b != 34 && b != 92
}

pub const LBRACKET: u8 = 91;

pub const RBRACKET: u8 = 93;

/// `{"stream":"`
pub open spec fn flit_head() -> Seq<u8> {
    seq![123u8, 34u8, 115u8, 116u8, 114u8, 101u8, 97u8, 109u8, 34u8, 58u8, 34u8]
}

/// `","data":`
pub open spec fn flit_data() -> Seq<u8> {
    seq![34u8, 44u8, 34u8, 100u8, 97u8, 116u8, 97u8, 34u8, 58u8]
}

/// `{"e":"depthUpdate","s":"`
pub open spec fn flit_depth_event() -> Seq<u8> {
    seq![123u8, 34u8, 101u8, 34u8, 58u8, 34u8, 100u8, 101u8, 112u8, 116u8, 104u8, 85u8, 112u8, 100u8, 97u8, 116u8, 101u8, 34u8, 44u8, 34u8, 115u8, 34u8, 58u8, 34u8]
}

/// `","U":`
pub open spec fn flit_first_id() -> Seq<u8> {
    seq![34u8, 44u8, 34u8, 85u8, 34u8, 58u8]
}

/// `,"u":`
pub open spec fn flit_last_id() -> Seq<u8> {
    seq![44u8, 34u8, 117u8, 34u8, 58u8]
}

/// `,"b":`
pub open spec fn flit_bids() -> Seq<u8> {
    seq![44u8, 34u8, 98u8, 34u8, 58u8]
}

/// `,"a":`
pub open spec fn flit_asks() -> Seq<u8> {
    seq![44u8, 34u8, 97u8, 34u8, 58u8]
}

/// `{"e":"aggTrade","s":"`
pub open spec fn flit_trade_event() -> Seq<u8> {
    seq![123u8, 34u8, 101u8, 34u8, 58u8, 34u8, 97u8, 103u8, 103u8, 84u8, 114u8, 97u8, 100u8, 101u8, 34u8, 44u8, 34u8, 115u8, 34u8, 58u8, 34u8]
}

/// `","a":`
pub open spec fn flit_trade_id() -> Seq<u8> {
    seq![34u8, 44u8, 34u8, 97u8, 34u8, 58u8]
}

/// `,"p":"`
pub open spec fn flit_price() -> Seq<u8> {
    seq![44u8, 34u8, 112u8, 34u8, 58u8, 34u8]
}

/// `","q":"`
pub open spec fn flit_qty() -> Seq<u8> {
    seq![34u8, 44u8, 34u8, 113u8, 34u8, 58u8, 34u8]
}

/// `","T":`
pub open spec fn flit_time() -> Seq<u8> {
    seq![34u8, 44u8, 34u8, 84u8, 34u8, 58u8]
}

/// `,"m":`
pub open spec fn flit_maker() -> Seq<u8> {
    seq![44u8, 34u8, 109u8, 34u8, 58u8]
}

/// `["P","Q"]` for one update level.
pub open spec fn level_bytes(l: PriceLevel) -> Seq<u8> {
    seq![LBRACKET, QUOTE] + scaled_bytes(l.price as nat) + seq![QUOTE, COMMA, QUOTE]
        + scaled_bytes(l.quantity as nat) + seq![QUOTE, RBRACKET]
}

/// Comma-separated levels.
pub open spec fn levels_entries(ls: Seq<PriceLevel>) -> Seq<u8>
    decreases ls.len(),
{
    if ls.len() == 0 {
        Seq::empty()
    } else if ls.len() == 1 {
        level_bytes(ls[0])
    } else {
        level_bytes(ls[0]) + seq![COMMA] + levels_entries(ls.skip(1))
    }
}

/// A level array `[["P","Q"],...]`.
pub open spec fn levels_array(ls: Seq<PriceLevel>) -> Seq<u8> {
    seq![LBRACKET] + levels_entries(ls) + seq![RBRACKET]
}

/// The canonical depth frame for a stream name and a delta.
pub open spec fn depth_frame_bytes(stream: Seq<u8>, u: &DepthUpdate) -> Seq<u8> {
    flit_head() + stream + flit_data() + flit_depth_event() + sym_bytes(u.symbol@)
        + flit_first_id() + dec_digits(u.first_update_id as nat) + flit_last_id() + dec_digits(
        u.last_update_id as nat,
    ) + flit_bids() + levels_array(u.bids@) + flit_asks() + levels_array(u.asks@) + seq![
        RBRACE,
        RBRACE,
    ]
}

/// The canonical trade frame for a stream name and a trade.
pub open spec fn trade_frame_bytes(stream: Seq<u8>, t: &Trade) -> Seq<u8> {
    flit_head() + stream + flit_data() + flit_trade_event() + sym_bytes(t.symbol@)
        + flit_trade_id() + dec_digits(t.trade_id as nat) + flit_price() + scaled_bytes(
        t.price as nat,
    ) + flit_qty() + scaled_bytes(t.quantity as nat) + flit_time() + dec_digits(
        t.timestamp as nat,
    ) + flit_maker() + bool_bytes(t.is_buyer_maker) + seq![RBRACE, RBRACE]
}

/// Appending one more level appends a comma and its bytes.
proof fn lemma_levels_entries_snoc(ls: Seq<PriceLevel>, l: PriceLevel)
    requires
        ls.len() >= 1,
    ensures
        levels_entries(ls.push(l)) == levels_entries(ls) + seq![COMMA] + level_bytes(l),
    decreases ls.len(),
{
    let s = ls.push(l);
    if ls.len() == 1 {
        assert(s[0] == ls[0]);
        assert(s.skip(1) =~= seq![l]);
        assert(levels_entries(seq![l]) == level_bytes(l));
        assert(levels_entries(s) == level_bytes(s[0]) + seq![COMMA] + levels_entries(s.skip(1)));
        assert(levels_entries(ls) == level_bytes(ls[0]));
        assert(levels_entries(s) =~= level_bytes(ls[0]) + seq![COMMA] + level_bytes(l));
    } else {
        assert(s[0] == ls[0]);
        assert(s.skip(1) =~= ls.skip(1).push(l));
        lemma_levels_entries_snoc(ls.skip(1), l);
        assert(levels_entries(s) =~= level_bytes(ls[0]) + seq![COMMA] + levels_entries(
            ls.skip(1),
        ) + seq![COMMA] + level_bytes(l));
        assert(levels_entries(ls) + seq![COMMA] + level_bytes(l) =~= level_bytes(ls[0])
            + seq![COMMA] + levels_entries(ls.skip(1)) + seq![COMMA] + level_bytes(l));
    }
}

/// Parses `["P","Q"]` starting at `from`. A price of zero is refused;
/// a quantity of zero is kept: it deletes the price downstream.
fn parse_level(s: &[u8], from: usize) -> (r: Option<(PriceLevel, usize)>)
    requires
        from <= s@.len(),
    ensures
        r matches Some((l, j)) ==> {
            &&& from <= j <= s@.len()
            &&& s@.subrange(from as int, j as int) == level_bytes(l)
            &&& crate::book::level_ok(l)
        },
{
    let n = s.len();
    if from >= n || s[from] != LBRACKET {
        return None;
    }
    if from + 1 >= n || s[from + 1] != QUOTE {
        return None;
    }
    let (price, after_p) = match crate::wire::parse_numeral_at(s, from + 2) {
        Some(v) => v,
        None => {
            return None;
        },
    };
    if price == 0 {
        return None;
    }
    if after_p >= n || s[after_p] != QUOTE {
        return None;
    }
    if n - after_p < 3 || s[after_p + 1] != COMMA || s[after_p + 2] != QUOTE {
        return None;
    }
    let (qty, after_q) = match crate::wire::parse_numeral_at(s, after_p + 3) {
        Some(v) => v,
        None => {
            return None;
        },
    };
    if after_q >= n || s[after_q] != QUOTE {
        return None;
    }
    if after_q + 1 >= n || s[after_q + 1] != RBRACKET {
        return None;
    }
    let l = PriceLevel { price, quantity: qty };
    proof {
        assert(s@.subrange(from as int, after_q + 2) =~= level_bytes(l));
    }
    Some((l, after_q + 2))
}

/// Parses `[["P","Q"],...]` starting at `from`.
fn parse_levels(s: &[u8], from: usize) -> (r: Option<(Vec<PriceLevel>, usize)>)
    requires
        from <= s@.len(),
    ensures
        r matches Some((ls, j)) ==> {
            &&& from <= j <= s@.len()
            &&& s@.subrange(from as int, j as int) == levels_array(ls@)
            &&& forall|k: int| 0 <= k < ls@.len() ==> crate::book::level_ok(#[trigger] ls@[k])
        },
{
    let n = s.len();
    if from >= n || s[from] != LBRACKET {
        return None;
    }
    let mut i = from + 1;
    let mut levels: Vec<PriceLevel> = Vec::new();
    if i < n && s[i] == RBRACKET {
        proof {
            assert(s@.subrange(from as int, i + 1) =~= levels_array(levels@));
        }
        return Some((levels, i + 1));
    }
    loop
        invariant_except_break
            levels@.len() >= 1 ==> s@.subrange(from + 1, i as int) == levels_entries(levels@)
                + seq![COMMA],
            levels@.len() == 0 ==> i == from + 1,
        invariant
            from + 1 <= i <= n == s@.len(),
            forall|k: int| 0 <= k < levels@.len() ==> crate::book::level_ok(#[trigger] levels@[k]),
        ensures
            from + 1 <= i <= n,
            levels@.len() >= 1,
            s@.subrange(from + 1, i as int) == levels_entries(levels@),
            i < n && s@[i as int] == RBRACKET,
        decreases n - i,
    {
        let (level, after) = match parse_level(s, i) {
            Some(v) => v,
            None => {
                return None;
            },
        };
        proof {
            if levels@.len() == 0 {
                assert(s@.subrange(from + 1, after as int) =~= levels_entries(
                    levels@.push(level),
                )) by {
                    assert(levels@.push(level) =~= seq![level]);
                    assert(s@.subrange(from + 1, after as int) =~= level_bytes(level));
                }
            } else {
                lemma_levels_entries_snoc(levels@, level);
                assert(s@.subrange(from + 1, after as int) =~= levels_entries(levels@)
                    + seq![COMMA] + level_bytes(level));
            }
        }
        levels.push(level);
        i = after;
        if i < n && s[i] == RBRACKET {
            break;
        }
        if i >= n || s[i] != COMMA {
            return None;
        }
        i = i + 1;
    }
    proof {
        assert(s@.subrange(from as int, i + 1) =~= levels_array(levels@));
    }
    Some((levels, i + 1))
}

/// A decoded inbound frame.
pub enum Frame {
    Depth(DepthUpdate),
    Trade(Trade),
    /// A frame of a stream this service does not consume.
    Other,
}

/// A decoded frame together with its stream name.
pub struct ParsedFrame {
    pub stream: String,
    pub body: Frame,
}

/// Parses one inbound text frame.
///
/// A depth or trade frame is accepted exactly when the text is the
/// canonical frame of the returned record: its stream name routes it
/// (`depth` wins over `aggTrade`), its fields are in range, and the
/// returned delta or trade is well-formed. Frames of other streams
/// come back as `Other`; everything else is refused.
#[verifier::rlimit(100)]
#[verifier::spinoff_prover]
pub fn parse_frame(s: &[u8]) -> (r: Option<ParsedFrame>)
    ensures
        r matches Some(f) ==> match f.body {
            Frame::Depth(u) => {
                &&& u.wf()
                &&& s@ == depth_frame_bytes(sym_bytes(f.stream@), &u)
                &&& has_substring(f.stream@, "depth"@)
            },
            Frame::Trade(t) => {
                &&& symbol_wf(t.symbol@)
                &&& s@ == trade_frame_bytes(sym_bytes(f.stream@), &t)
                &&& !has_substring(f.stream@, "depth"@) && has_substring(f.stream@, "aggTrade"@)
            },
            Frame::Other => !has_substring(f.stream@, "depth"@) && !has_substring(
                f.stream@,
                "aggTrade"@,
            ),
        },
{
    let n = s.len();
    let mut head: Vec<u8> = Vec::new();
    head.push(123u8);
    head.push(34u8);
    head.push(115u8);
    head.push(116u8);
    head.push(114u8);
    head.push(101u8);
    head.push(97u8);
    head.push(109u8);
    head.push(34u8);
    head.push(58u8);
    head.push(34u8);
    proof {
        assert(head@ =~= flit_head());
    }
    if n < 11 {
        return None;
    }
    if !crate::wire::bytes_eq(vstd::slice::slice_subrange(s, 0, 11), head.as_slice()) {
        return None;
    }
    // stream name up to the closing quote
    let mut i: usize = 11;
    let mut raw: Vec<u8> = Vec::new();
    loop
        invariant
            11 <= i <= n == s@.len(),
            raw@ =~= s@.subrange(11, i as int),
            forall|k: int| 0 <= k < raw@.len() ==> stream_byte_ok(#[trigger] raw@[k]),
        ensures
            11 <= i < n,
            s@[i as int] == QUOTE,
            raw@ == s@.subrange(11, i as int),
            forall|k: int| 0 <= k < raw@.len() ==> stream_byte_ok(#[trigger] raw@[k]),
        decreases n - i,
    {
        if i >= n {
            return None;
        }
        let b = s[i];
        if b == QUOTE {
            break;
        }
        if b < 33 || b > 126 || b == 92 {
            return None;
        }
        raw.push(b);
        proof {
            assert(raw@ =~= s@.subrange(11, i + 1));
        }
        i = i + 1;
    }
    let ghost raw_view = raw@;
    let stream = crate::text::from_ascii_bytes(raw);
    proof {
        assert(vstd::utf8::is_ascii_chars(stream@));
        assert(sym_bytes(stream@) =~= raw_view);
    }
    // ","data":
    let mut kd: Vec<u8> = Vec::new();
    kd.push(34u8);
    kd.push(44u8);
    kd.push(34u8);
    kd.push(100u8);
    kd.push(97u8);
    kd.push(116u8);
    kd.push(97u8);
    kd.push(34u8);
    kd.push(58u8);
    proof {
        assert(kd@ =~= flit_data());
    }
    if n - i < 9 {
        return None;
    }
    if !crate::wire::bytes_eq(vstd::slice::slice_subrange(s, i, i + 9), kd.as_slice()) {
        return None;
    }
    let body_start = i + 9;
    match classify_stream(stream.as_str()) {
        StreamKind::Depth => {
            match parse_depth_body(s, body_start) {
                Some(u) => {
                    proof {
                        assert(s@.subrange(0, 11) == flit_head());
                        assert(s@.subrange(11, i as int) == sym_bytes(stream@));
                        assert(s@.subrange(i as int, body_start as int) == flit_data());
                        assert(s@ =~= s@.subrange(0, 11) + s@.subrange(11, i as int) + s@.subrange(
                            i as int,
                            body_start as int,
                        ) + s@.subrange(body_start as int, n as int));
                        assert(s@ =~= depth_frame_bytes(sym_bytes(stream@), &u));
                    }
                    Some(ParsedFrame { stream, body: Frame::Depth(u) })
                },
                None => None,
            }
        },
        StreamKind::Trade => {
            match parse_trade_body(s, body_start) {
                Some(t) => {
                    proof {
                        assert(s@.subrange(0, 11) == flit_head());
                        assert(s@.subrange(11, i as int) == sym_bytes(stream@));
                        assert(s@.subrange(i as int, body_start as int) == flit_data());
                        assert(s@ =~= s@.subrange(0, 11) + s@.subrange(11, i as int) + s@.subrange(
                            i as int,
                            body_start as int,
                        ) + s@.subrange(body_start as int, n as int));
                        assert(s@ =~= trade_frame_bytes(sym_bytes(stream@), &t));
                    }
                    Some(ParsedFrame { stream, body: Frame::Trade(t) })
                },
                None => None,
            }
        },
        StreamKind::Other => Some(ParsedFrame { stream, body: Frame::Other }),
    }
}

/// Parses the depth payload and the frame's two closing braces.
#[verifier::rlimit(100)]
#[verifier::spinoff_prover]
fn parse_depth_body(s: &[u8], from: usize) -> (r: Option<DepthUpdate>)
    requires
        from <= s@.len(),
    ensures
        r matches Some(u) ==> {
            &&& u.wf()
            &&& s@.subrange(from as int, s@.len() as int) == flit_depth_event() + sym_bytes(
                u.symbol@,
            ) + flit_first_id() + dec_digits(u.first_update_id as nat) + flit_last_id()
                + dec_digits(u.last_update_id as nat) + flit_bids() + levels_array(u.bids@)
                + flit_asks() + levels_array(u.asks@) + seq![RBRACE, RBRACE]
        },
{
    let n = s.len();
    let mut ke: Vec<u8> = Vec::new();
    ke.push(123u8);
    ke.push(34u8);
    ke.push(101u8);
    ke.push(34u8);
    ke.push(58u8);
    ke.push(34u8);
    ke.push(100u8);
    ke.push(101u8);
    ke.push(112u8);
    ke.push(116u8);
    ke.push(104u8);
    ke.push(85u8);
    ke.push(112u8);
    ke.push(100u8);
    ke.push(97u8);
    ke.push(116u8);
    ke.push(101u8);
    ke.push(34u8);
    ke.push(44u8);
    ke.push(34u8);
    ke.push(115u8);
    ke.push(34u8);
    ke.push(58u8);
    ke.push(34u8);
    proof {
        assert(ke@ =~= flit_depth_event());
    }
    if n - from < 24 {
        return None;
    }
    if !crate::wire::bytes_eq(vstd::slice::slice_subrange(s, from, from + 24), ke.as_slice()) {
        return None;
    }
    let (symbol, after_sym) = match crate::wire::parse_symbol_at(s, from + 24) {
        Some(v) => v,
        None => {
            return None;
        },
    };
    // ","U":
    let mut ku: Vec<u8> = Vec::new();
    ku.push(34u8);
    ku.push(44u8);
    ku.push(34u8);
    ku.push(85u8);
    ku.push(34u8);
    ku.push(58u8);
    proof {
        assert(ku@ =~= flit_first_id());
    }
    if n - after_sym < 6 {
        return None;
    }
    if !crate::wire::bytes_eq(
        vstd::slice::slice_subrange(s, after_sym, after_sym + 6),
        ku.as_slice(),
    ) {
        return None;
    }
    let (first_id, after_first) = match crate::wire::parse_integer_at(s, after_sym + 6) {
        Some(v) => v,
        None => {
            return None;
        },
    };
    // ,"u":
    let mut kl: Vec<u8> = Vec::new();
    kl.push(44u8);
    kl.push(34u8);
    kl.push(117u8);
    kl.push(34u8);
    kl.push(58u8);
    proof {
        assert(kl@ =~= flit_last_id());
    }
    if n - after_first < 5 {
        return None;
    }
    if !crate::wire::bytes_eq(
        vstd::slice::slice_subrange(s, after_first, after_first + 5),
        kl.as_slice(),
    ) {
        return None;
    }
    let (last_id, after_last) = match crate::wire::parse_integer_at(s, after_first + 5) {
        Some(v) => v,
        None => {
            return None;
        },
    };
    if first_id > last_id {
        return None;
    }
    // ,"b":
    let mut kb: Vec<u8> = Vec::new();
    kb.push(44u8);
    kb.push(34u8);
    kb.push(98u8);
    kb.push(34u8);
    kb.push(58u8);
    proof {
        assert(kb@ =~= flit_bids());
    }
    if n - after_last < 5 {
        return None;
    }
    if !crate::wire::bytes_eq(
        vstd::slice::slice_subrange(s, after_last, after_last + 5),
        kb.as_slice(),
    ) {
        return None;
    }
    let (bids, after_bids) = match parse_levels(s, after_last + 5) {
        Some(v) => v,
        None => {
            return None;
        },
    };
    // ,"a":
    let mut ka: Vec<u8> = Vec::new();
    ka.push(44u8);
    ka.push(34u8);
    ka.push(97u8);
    ka.push(34u8);
    ka.push(58u8);
    proof {
        assert(ka@ =~= flit_asks());
    }
    if n - after_bids < 5 {
        return None;
    }
    if !crate::wire::bytes_eq(
        vstd::slice::slice_subrange(s, after_bids, after_bids + 5),
        ka.as_slice(),
    ) {
        return None;
    }
    let (asks, after_asks) = match parse_levels(s, after_bids + 5) {
        Some(v) => v,
        None => {
            return None;
        },
    };
    if n - after_asks != 2 || s[after_asks] != RBRACE || s[after_asks + 1] != RBRACE {
        return None;
    }
    let u = DepthUpdate {
        symbol,
        first_update_id: first_id,
        last_update_id: last_id,
        bids,
        asks,
    };
    proof {
        assert(s@.subrange(from as int, s@.len() as int) =~= flit_depth_event() + sym_bytes(
            u.symbol@,
        ) + flit_first_id() + dec_digits(u.first_update_id as nat) + flit_last_id() + dec_digits(
            u.last_update_id as nat,
        ) + flit_bids() + levels_array(u.bids@) + flit_asks() + levels_array(u.asks@) + seq![
            RBRACE,
            RBRACE,
        ]);
    }
    Some(u)
}

/// Parses the trade payload and the frame's two closing braces.
#[verifier::rlimit(100)]
#[verifier::spinoff_prover]
fn parse_trade_body(s: &[u8], from: usize) -> (r: Option<Trade>)
    requires
        from <= s@.len(),
    ensures
        r matches Some(t) ==> {
            &&& symbol_wf(t.symbol@)
            &&& s@.subrange(from as int, s@.len() as int) == flit_trade_event() + sym_bytes(
                t.symbol@,
            ) + flit_trade_id() + dec_digits(t.trade_id as nat) + flit_price() + scaled_bytes(
                t.price as nat,
            ) + flit_qty() + scaled_bytes(t.quantity as nat) + flit_time() + dec_digits(
                t.timestamp as nat,
            ) + flit_maker() + bool_bytes(t.is_buyer_maker) + seq![RBRACE, RBRACE]
        },
{
    let n = s.len();
    let mut ke: Vec<u8> = Vec::new();
    ke.push(123u8);
    ke.push(34u8);
    ke.push(101u8);
    ke.push(34u8);
    ke.push(58u8);
    ke.push(34u8);
    ke.push(97u8);
    ke.push(103u8);
    ke.push(103u8);
    ke.push(84u8);
    ke.push(114u8);
    ke.push(97u8);
    ke.push(100u8);
    ke.push(101u8);
    ke.push(34u8);
    ke.push(44u8);
    ke.push(34u8);
    ke.push(115u8);
    ke.push(34u8);
    ke.push(58u8);
    ke.push(34u8);
    proof {
        assert(ke@ =~= flit_trade_event());
    }
    if n - from < 21 {
        return None;
    }
    if !crate::wire::bytes_eq(vstd::slice::slice_subrange(s, from, from + 21), ke.as_slice()) {
        return None;
    }
    let (symbol, after_sym) = match crate::wire::parse_symbol_at(s, from + 21) {
        Some(v) => v,
        None => {
            return None;
        },
    };
    let (trade_id, price, quantity, timestamp, is_buyer_maker) = match parse_trade_tail(
        s,
        after_sym,
    ) {
        Some(v) => v,
        None => {
            return None;
        },
    };
    let t = Trade { symbol, trade_id, price, quantity, timestamp, is_buyer_maker };
    proof {
        assert(s@.subrange(from as int, n as int) =~= s@.subrange(from as int, from + 21)
            + s@.subrange(from + 21, after_sym as int) + s@.subrange(after_sym as int, n as int));
        assert(s@.subrange(from as int, s@.len() as int) =~= flit_trade_event() + sym_bytes(
            t.symbol@,
        ) + flit_trade_id() + dec_digits(t.trade_id as nat) + flit_price() + scaled_bytes(
            t.price as nat,
        ) + flit_qty() + scaled_bytes(t.quantity as nat) + flit_time() + dec_digits(
            t.timestamp as nat,
        ) + flit_maker() + bool_bytes(t.is_buyer_maker) + seq![RBRACE, RBRACE]);
    }
    Some(t)
}

/// Parses a trade's fields from the trade id key to the end of the
/// frame.
#[verifier::rlimit(100)]
#[verifier::spinoff_prover]
fn parse_trade_tail(s: &[u8], from: usize) -> (r: Option<(u64, u64, u64, u64, bool)>)
    requires
        from <= s@.len(),
    ensures
        r matches Some((trade_id, price, quantity, timestamp, maker)) ==> {
            &&& s@.subrange(from as int, s@.len() as int) == flit_trade_id() + dec_digits(
                trade_id as nat,
            ) + flit_price() + scaled_bytes(price as nat) + flit_qty() + scaled_bytes(
                quantity as nat,
            ) + flit_time() + dec_digits(timestamp as nat) + flit_maker() + bool_bytes(maker)
                + seq![RBRACE, RBRACE]
            &&& price < MANTISSA_LIMIT && quantity < MANTISSA_LIMIT
        },
{
    let n = s.len();
    // ","a":
    let mut kid: Vec<u8> = Vec::new();
    kid.push(34u8);
    kid.push(44u8);
    kid.push(34u8);
    kid.push(97u8);
    kid.push(34u8);
    kid.push(58u8);
    proof {
        assert(kid@ =~= flit_trade_id());
    }
    if n - from < 6 {
        return None;
    }
    if !crate::wire::bytes_eq(vstd::slice::slice_subrange(s, from, from + 6), kid.as_slice()) {
        return None;
    }
    let (trade_id, after_id) = match crate::wire::parse_integer_at(s, from + 6) {
        Some(v) => v,
        None => {
            return None;
        },
    };
    // ,"p":"
    let mut kp: Vec<u8> = Vec::new();
    kp.push(44u8);
    kp.push(34u8);
    kp.push(112u8);
    kp.push(34u8);
    kp.push(58u8);
    kp.push(34u8);
    proof {
        assert(kp@ =~= flit_price());
    }
    if n - after_id < 6 {
        return None;
    }
    if !crate::wire::bytes_eq(
        vstd::slice::slice_subrange(s, after_id, after_id + 6),
        kp.as_slice(),
    ) {
        return None;
    }
    let (price, after_price) = match crate::wire::parse_numeral_at(s, after_id + 6) {
        Some(v) => v,
        None => {
            return None;
        },
    };
    // ","q":"
    let mut kq: Vec<u8> = Vec::new();
    kq.push(34u8);
    kq.push(44u8);
    kq.push(34u8);
    kq.push(113u8);
    kq.push(34u8);
    kq.push(58u8);
    kq.push(34u8);
    proof {
        assert(kq@ =~= flit_qty());
    }
    if n - after_price < 7 {
        return None;
    }
    if !crate::wire::bytes_eq(
        vstd::slice::slice_subrange(s, after_price, after_price + 7),
        kq.as_slice(),
    ) {
        return None;
    }
    let (quantity, after_qty) = match crate::wire::parse_numeral_at(s, after_price + 7) {
        Some(v) => v,
        None => {
            return None;
        },
    };
    // ","T":
    let mut kt: Vec<u8> = Vec::new();
    kt.push(34u8);
    kt.push(44u8);
    kt.push(34u8);
    kt.push(84u8);
    kt.push(34u8);
    kt.push(58u8);
    proof {
        assert(kt@ =~= flit_time());
    }
    if n - after_qty < 6 {
        return None;
    }
    if !crate::wire::bytes_eq(
        vstd::slice::slice_subrange(s, after_qty, after_qty + 6),
        kt.as_slice(),
    ) {
        return None;
    }
    let (timestamp, after_time) = match crate::wire::parse_integer_at(s, after_qty + 6) {
        Some(v) => v,
        None => {
            return None;
        },
    };
    // ,"m":
    let mut km: Vec<u8> = Vec::new();
    km.push(44u8);
    km.push(34u8);
    km.push(109u8);
    km.push(34u8);
    km.push(58u8);
    proof {
        assert(km@ =~= flit_maker());
    }
    if n - after_time < 5 {
        return None;
    }
    if !crate::wire::bytes_eq(
        vstd::slice::slice_subrange(s, after_time, after_time + 5),
        km.as_slice(),
    ) {
        return None;
    }
    let mpos = after_time + 5;
    let (maker, after_maker) = if n - mpos >= 4 && s[mpos] == 116 && s[mpos + 1] == 114 && s[mpos
        + 2] == 117 && s[mpos + 3] == 101 {
        (true, mpos + 4)
    } else if n - mpos >= 5 && s[mpos] == 102 && s[mpos + 1] == 97 && s[mpos + 2] == 108 && s[mpos
        + 3] == 115 && s[mpos + 4] == 101 {
        (false, mpos + 5)
    } else {
        return None;
    };
    proof {
        assert(s@.subrange(mpos as int, after_maker as int) =~= bool_bytes(maker));
    }
    if n - after_maker != 2 || s[after_maker] != RBRACE || s[after_maker + 1] != RBRACE {
        return None;
    }
    proof {
        assert(s@.subrange(from as int, n as int) =~= flit_trade_id() + dec_digits(
            trade_id as nat,
        ) + flit_price() + scaled_bytes(price as nat) + flit_qty() + scaled_bytes(quantity as nat)
            + flit_time() + dec_digits(timestamp as nat) + flit_maker() + bool_bytes(maker)
            + seq![RBRACE, RBRACE]);
    }
    Some((trade_id, price, quantity, timestamp, maker))
}

} // verus!
