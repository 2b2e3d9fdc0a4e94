//! The per-symbol feed client's decisions.
//!
//! The binary owns the socket; every decision the client makes — how
//! long to back off, which stream a frame belongs to, and what one depth
//! delta or trade does to the store and the publisher — is a verified
//! function here, from plain values to plain values.

use vstd::prelude::*;

use crate::book::ApplyError;
use crate::book::DepthUpdate;
use crate::book::OrderBook;
use crate::book::symbol_wf;
use crate::publish::PublishPlan;
use crate::publish::build_orderbook_plan;
use crate::store::OrderBookManager;

verus! {

use vstd::string::StringSliceAdditionalSpecFns;

/// Where a feed client stands.
#[derive(Clone, Copy, PartialEq, Eq, Structural, Debug)]
pub enum FeedState {
    Idle,
    Connecting,
    Streaming,
    Backoff,
}

/// The reconnect backoff: each failed attempt sleeps the current delay
/// and doubles it up to the cap; a success resets it.
pub struct Backoff {
    pub initial_ms: u64,
    pub max_ms: u64,
    pub current_ms: u64,
}

impl Backoff {
    pub open spec fn wf(&self) -> bool {
        &&& 1 <= self.initial_ms <= self.max_ms
        &&& self.initial_ms <= self.current_ms <= self.max_ms
        &&& self.max_ms <= 0x7fff_ffff_ffff_ffff
    }

    pub fn new(initial_ms: u64, max_ms: u64) -> (r: Backoff)
        requires
            1 <= initial_ms <= max_ms <= 0x7fff_ffff_ffff_ffff,
        ensures
            r.wf(),
            r.initial_ms == initial_ms,
            r.max_ms == max_ms,
            r.current_ms == initial_ms,
    {
        Backoff { initial_ms, max_ms, current_ms: initial_ms }
    }

    /// Sleep time for this failed attempt: the current delay, which
    /// doubles for the next attempt, capped at the maximum.
    pub fn next_delay_ms(&mut self) -> (r: u64)
        requires
            old(self).wf(),
        ensures
            final(self).wf(),
            r == old(self).current_ms,
            final(self).current_ms == vstd::math::min(
                2 * old(self).current_ms as int,
                old(self).max_ms as int,
            ),
            final(self).initial_ms == old(self).initial_ms,
            final(self).max_ms == old(self).max_ms,
    {
        let delay = self.current_ms;
        let doubled = self.current_ms * 2;
        self.current_ms = if doubled < self.max_ms {
            doubled
        } else {
            self.max_ms
        };
        delay
    }

    /// A successful connection resets the delay to the initial value.
    pub fn on_success(&mut self)
        requires
            old(self).wf(),
        ensures
            final(self).wf(),
            final(self).current_ms == old(self).initial_ms,
            final(self).initial_ms == old(self).initial_ms,
            final(self).max_ms == old(self).max_ms,
    {
        self.current_ms = self.initial_ms;
    }
}

/// Whether `pat` occurs inside `s`.
pub open spec fn has_substring(s: Seq<char>, pat: Seq<char>) -> bool {
    exists|i: int|
        0 <= i <= s.len() - pat.len() && #[trigger] s.subrange(i, i + pat.len()) == pat
}

/// Finds whether `pat` occurs inside `s`; both strings must be ASCII,
/// as every stream name on this feed is.
pub fn contains_str(s: &str, pat: &str) -> (r: bool)
    requires
        vstd::utf8::is_ascii_chars(s@),
        vstd::utf8::is_ascii_chars(pat@),
    ensures
        r == has_substring(s@, pat@),
{
    let sb = s.as_bytes();
    let pb = pat.as_bytes();
    proof {
        vstd::utf8::is_ascii_chars_encode_utf8(s@);
        vstd::utf8::is_ascii_chars_encode_utf8(pat@);
    }
    let n = sb.len();
    let m = pb.len();
    if m > n {
        proof {
            lemma_no_substring_longer(s@, pat@);
        }
        return false;
    }
    let mut i: usize = 0;
    while i <= n - m
        invariant
            0 <= i <= n - m + 1,
            m <= n,
            n == sb@.len() == s@.len(),
            m == pb@.len() == pat@.len(),
            sb@ == s.spec_bytes(),
            pb@ == pat.spec_bytes(),
            vstd::utf8::is_ascii_chars(s@),
            vstd::utf8::is_ascii_chars(pat@),
            forall|k: int| 0 <= k < i ==> #[trigger] s@.subrange(k, k + pat@.len()) != pat@,
        decreases n - m - i + 1,
    {
        let mut j: usize = 0;
        let mut matched = true;
        while j < m
            invariant
                0 <= j <= m,
                i + m <= n,
                n == sb@.len(),
                m == pb@.len(),
                sb@ == s.spec_bytes(),
                pb@ == pat.spec_bytes(),
                matched <==> (forall|k: int| 0 <= k < j ==> sb@[i + k] == pb@[k]),
            decreases m - j,
        {
            if sb[i + j] != pb[j] {
                matched = false;
                proof {
                    assert(sb@[i + j as int] != pb@[j as int]);
                }
                j = m;
            } else {
                proof {
                    assert(sb@[i + j as int] == pb@[j as int]);
                }
                j = j + 1;
            }
        }
        if matched {
            proof {
                lemma_bytes_match_substring(s@, pat@, i as int);
            }
            return true;
        }
        proof {
            lemma_bytes_mismatch_substring(s@, pat@, i as int);
        }
        i = i + 1;
    }
    proof {
        assert forall|k: int|
            0 <= k <= s@.len() - pat@.len() implies #[trigger] s@.subrange(k, k + pat@.len())
            != pat@ by {
            assert(k < i);
        }
    }
    false
}

/// Matching bytes at one offset of ASCII strings means the characters
/// match there.
proof fn lemma_bytes_match_substring(s: Seq<char>, pat: Seq<char>, i: int)
    requires
        0 <= i,
        i + pat.len() <= s.len(),
        vstd::utf8::is_ascii_chars(s),
        vstd::utf8::is_ascii_chars(pat),
        forall|k: int|
            0 <= k < pat.len() ==> vstd::utf8::encode_utf8(s)[i + k] == vstd::utf8::encode_utf8(
                pat,
            )[k],
    ensures
        has_substring(s, pat),
{
    vstd::utf8::is_ascii_chars_encode_utf8(s);
    vstd::utf8::is_ascii_chars_encode_utf8(pat);
    assert(s.subrange(i, i + pat.len()) =~= pat) by {
        assert forall|k: int| 0 <= k < pat.len() implies s.subrange(i, i + pat.len())[k]
            == pat[k] by {
            assert(s[i + k] as u8 == pat[k] as u8);
            lemma_ascii_char_cast(s[i + k], pat[k]);
        }
    }
}

/// Mismatching bytes at one offset of ASCII strings means the
/// characters differ there.
proof fn lemma_bytes_mismatch_substring(s: Seq<char>, pat: Seq<char>, i: int)
    requires
        0 <= i,
        i + pat.len() <= s.len(),
        vstd::utf8::is_ascii_chars(s),
        vstd::utf8::is_ascii_chars(pat),
        exists|k: int|
            0 <= k < pat.len() && vstd::utf8::encode_utf8(s)[i + k] != vstd::utf8::encode_utf8(
                pat,
            )[k],
    ensures
        s.subrange(i, i + pat.len()) != pat,
{
    vstd::utf8::is_ascii_chars_encode_utf8(s);
    vstd::utf8::is_ascii_chars_encode_utf8(pat);
    let k = choose|k: int|
        0 <= k < pat.len() && vstd::utf8::encode_utf8(s)[i + k] != vstd::utf8::encode_utf8(pat)[k];
    if s.subrange(i, i + pat.len()) == pat {
        assert(s[i + k] == pat[k]);
    }
}

/// Two ASCII characters with the same low byte are the same character.
proof fn lemma_ascii_char_cast(a: char, b: char)
    requires
        a <= '\u{7f}',
        b <= '\u{7f}',
        a as u8 == b as u8,
    ensures
        a == b,
{
    let ua = a as u32;
    let ub = b as u32;
    assert(ua == ub) by (bit_vector)
        requires
            ua <= 0x7f,
            ub <= 0x7f,
            ua as u8 == ub as u8,
    ;
    vstd::utf8::char_u32_cast(a, ua);
    vstd::utf8::char_u32_cast(b, ub);
}

proof fn lemma_no_substring_longer(s: Seq<char>, pat: Seq<char>)
    requires
        pat.len() > s.len(),
    ensures
        !has_substring(s, pat),
{
}

/// Which sub-stream a frame belongs to.
#[derive(Clone, Copy, PartialEq, Eq, Structural, Debug)]
pub enum StreamKind {
    Depth,
    Trade,
    Other,
}

/// Routes a frame by its stream name: depth first, then aggregate
/// trades, everything else ignored.
pub fn classify_stream(stream: &str) -> (r: StreamKind)
    requires
        vstd::utf8::is_ascii_chars(stream@),
    ensures
        r == StreamKind::Depth <==> has_substring(stream@, "depth"@),
        r == StreamKind::Trade <==> (!has_substring(stream@, "depth"@) && has_substring(
            stream@,
            "aggTrade"@,
        )),
{
    proof {
        reveal_strlit("depth");
        reveal_strlit("aggTrade");
        assert(vstd::utf8::is_ascii_chars("depth"@));
        assert(vstd::utf8::is_ascii_chars("aggTrade"@));
    }
    if contains_str(stream, "depth") {
        StreamKind::Depth
    } else if contains_str(stream, "aggTrade") {
        StreamKind::Trade
    } else {
        StreamKind::Other
    }
}

/// What one depth delta did, and what remains to be done outside.
pub enum DepthOutcome {
    /// Applied, both sides populated: publish the plan and count one
    /// book update.
    Publish(PublishPlan, OrderBook),
    /// Applied, but a side is still empty: nothing to publish.
    AppliedQuiet(OrderBook),
    /// Stale delta: dropped silently, the book untouched.
    Stale,
    /// Sequence gap or crossed book: one sequence error to count; the
    /// book entry was dropped so the next delta re-bootstraps. The
    /// connection stays up.
    ResetBook(ApplyError),
}

/// Applies one depth delta and decides the fan-out, as the feed client
/// does for every depth frame.
///
/// A fresh in-window delta lands in the store and, when both sides are
/// populated, yields a publish plan built from the new snapshot; a
/// stale delta is dropped with no other effect; a gap or a crossed
/// book drops the symbol's entry so the next delta re-bootstraps.
pub fn handle_depth(
    store: &mut OrderBookManager,
    symbol: &str,
    update: &DepthUpdate,
    now_micros: u64,
) -> (r: DepthOutcome)
    requires
        old(store).wf(),
        update.wf(),
        symbol_wf(symbol@),
    ensures
        final(store).wf(),
        forall|sym: Seq<char>|
            sym != symbol@ ==> final(store).spec_get(sym) == old(store).spec_get(sym),
        match r {
            DepthOutcome::Publish(plan, snap) => {
                &&& snap.wf()
                &&& snap.bids@.len() > 0 && snap.asks@.len() > 0
                &&& plan.book_payload@ == crate::wire::json_book(&snap)
                &&& plan.ring_payload@ == plan.book_payload@
                &&& snap.symbol@ == symbol@
                &&& match old(store).spec_get(symbol@) {
                    Some(ob) => crate::book::update_accepted(ob, *update)
                        && crate::book::applied_book(ob, *update, now_micros, snap),
                    None => crate::book::bootstrap_accepted(*update)
                        && crate::book::bootstrapped_book(*update, now_micros, snap),
                }
                &&& match final(store).spec_get(symbol@) {
                    Some(nb) => nb.same_state(&snap) && nb.timestamp == snap.timestamp,
                    None => false,
                }
            },
            DepthOutcome::AppliedQuiet(snap) => {
                &&& snap.wf()
                &&& !(snap.bids@.len() > 0 && snap.asks@.len() > 0)
                &&& snap.symbol@ == symbol@
                &&& match old(store).spec_get(symbol@) {
                    Some(ob) => crate::book::update_accepted(ob, *update)
                        && crate::book::applied_book(ob, *update, now_micros, snap),
                    None => crate::book::bootstrap_accepted(*update)
                        && crate::book::bootstrapped_book(*update, now_micros, snap),
                }
                &&& match final(store).spec_get(symbol@) {
                    Some(nb) => nb.same_state(&snap) && nb.timestamp == snap.timestamp,
                    None => false,
                }
            },
            DepthOutcome::Stale => {
                &&& final(store).spec_get(symbol@) == old(store).spec_get(symbol@)
                &&& match old(store).spec_get(symbol@) {
                    Some(ob) => update.last_update_id <= ob.last_update_id,
                    None => false,
                }
            },
            DepthOutcome::ResetBook(e) => {
                &&& final(store).spec_get(symbol@) is None
                &&& e != ApplyError::Stale
                &&& match old(store).spec_get(symbol@) {
                    Some(ob) => {
                        &&& !crate::book::update_accepted(ob, *update)
                        &&& update.last_update_id > ob.last_update_id
                        &&& (e == ApplyError::Gap <==> update.first_update_id
                            > ob.last_update_id as int + 1)
                        &&& (e == ApplyError::Crossed <==> update.first_update_id
                            <= ob.last_update_id as int + 1)
                    },
                    None => !crate::book::bootstrap_accepted(*update) && e
                        == ApplyError::Crossed,
                }
            },
        },
{
    match store.update(symbol, update, now_micros) {
        Ok(snap) => {
            if snap.bids.len() > 0 && snap.asks.len() > 0 {
                let plan = build_orderbook_plan(&snap, now_micros);
                DepthOutcome::Publish(plan, snap)
            } else {
                DepthOutcome::AppliedQuiet(snap)
            }
        },
        Err(e) => {
            match e {
                ApplyError::Stale => DepthOutcome::Stale,
                _ => {
                    store.reset(symbol);
                    DepthOutcome::ResetBook(e)
                },
            }
        },
    }
}

} // verus!
