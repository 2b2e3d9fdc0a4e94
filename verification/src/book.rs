//! The per-symbol limit order book.
//!
//! A book holds its bids and asks as vectors sorted by strictly ascending
//! price, so the best bid is the last bid entry and the best ask is the
//! first ask entry. Each side denotes a finite map from price to quantity
//! (`side_map`), and the contract of every operation is stated over that
//! map. No stored level ever has quantity zero, and a well-formed book is
//! never crossed.

use vstd::prelude::*;

use crate::decimal::MANTISSA_LIMIT;

verus! {

/// One price level: price and quantity as mantissas at the crate scale.
/// A quantity of zero in an update means "delete this price"; a stored
/// level always has a positive quantity.
#[derive(Clone, Copy, PartialEq, Eq, Structural, Debug)]
pub struct PriceLevel {
    pub price: u64,
    pub quantity: u64,
}

/// An incremental depth delta for one symbol, covering the exchange
/// update ids `first_update_id ..= last_update_id`.
#[derive(Clone, Debug)]
pub struct DepthUpdate {
    pub symbol: String,
    pub first_update_id: u64,
    pub last_update_id: u64,
    pub bids: Vec<PriceLevel>,
    pub asks: Vec<PriceLevel>,
}

/// The state of one symbol's book.
#[derive(Clone, Debug)]
pub struct OrderBook {
    pub symbol: String,
    /// Sorted by strictly ascending price; the best bid is the last entry.
    pub bids: Vec<PriceLevel>,
    /// Sorted by strictly ascending price; the best ask is the first entry.
    pub asks: Vec<PriceLevel>,
    pub last_update_id: u64,
    /// Microseconds since the Unix epoch at the last successful apply.
    pub timestamp: u64,
}

/// Why a depth update was not applied.
#[derive(Clone, Copy, PartialEq, Eq, Structural, Debug)]
pub enum ApplyError {
    /// The update ends at or before the book's sequence position.
    Stale,
    /// The update starts beyond the next expected sequence id.
    Gap,
    /// Applying the update would have crossed the book.
    Crossed,
}

pub open spec fn level_ok(l: PriceLevel) -> bool {
    0 < l.price < MANTISSA_LIMIT && l.quantity < MANTISSA_LIMIT
}

pub open spec fn stored_level_ok(l: PriceLevel) -> bool {
    level_ok(l) && l.quantity > 0
}

pub open spec fn side_sorted(s: Seq<PriceLevel>) -> bool {
    forall|i: int, j: int| 0 <= i < j < s.len() ==> s[i].price < s[j].price
}

/// A well-formed side: sorted by strictly ascending price and free of
/// zero-quantity levels.
pub open spec fn side_wf(s: Seq<PriceLevel>) -> bool {
    side_sorted(s) && forall|i: int| 0 <= i < s.len() ==> stored_level_ok(#[trigger] s[i])
}

pub open spec fn contains_price(s: Seq<PriceLevel>, p: u64) -> bool {
    exists|i: int| 0 <= i < s.len() && s[i].price == p
}

pub open spec fn index_of_price(s: Seq<PriceLevel>, p: u64) -> int {
    choose|i: int| 0 <= i < s.len() && s[i].price == p
}

pub open spec fn qty_at(s: Seq<PriceLevel>, p: u64) -> u64 {
    s[index_of_price(s, p)].quantity
}

/// The finite price-to-quantity map a side denotes.
pub open spec fn side_map(s: Seq<PriceLevel>) -> Map<u64, u64> {
    Map::new(|p: u64| contains_price(s, p), |p: u64| qty_at(s, p))
}

/// One level applied to a side's map: quantity zero deletes the price,
/// anything else upserts it.
pub open spec fn apply_one(m: Map<u64, u64>, l: PriceLevel) -> Map<u64, u64> {
    if l.quantity == 0 {
        m.remove(l.price)
    } else {
        m.insert(l.price, l.quantity)
    }
}

/// A whole update side folded over a side's map, in order.
pub open spec fn apply_levels(m: Map<u64, u64>, ls: Seq<PriceLevel>) -> Map<u64, u64>
    decreases ls.len(),
{
    if ls.len() == 0 {
        m
    } else {
        apply_levels(apply_one(m, ls[0]), ls.skip(1))
    }
}

pub open spec fn symbol_char_ok(c: char) -> bool {
    ('A' <= c && c <= 'Z') || ('0' <= c && c <= '9')
}

/// Symbols are short, non-empty strings of capitals and digits.
pub open spec fn symbol_wf(s: Seq<char>) -> bool {
    1 <= s.len() <= 32 && forall|i: int| 0 <= i < s.len() ==> symbol_char_ok(#[trigger] s[i])
}

/// Both sides present implies the best bid sits strictly below the best ask.
pub open spec fn uncrossed(bids: Seq<PriceLevel>, asks: Seq<PriceLevel>) -> bool {
    bids.len() > 0 && asks.len() > 0 ==> bids.last().price < asks.first().price
}

impl DepthUpdate {
    pub open spec fn wf(&self) -> bool {
        &&& self.first_update_id <= self.last_update_id
        &&& symbol_wf(self.symbol@)
        &&& forall|i: int| 0 <= i < self.bids@.len() ==> level_ok(#[trigger] self.bids@[i])
        &&& forall|i: int| 0 <= i < self.asks@.len() ==> level_ok(#[trigger] self.asks@[i])
    }
}

impl OrderBook {
    pub open spec fn wf(&self) -> bool {
        &&& symbol_wf(self.symbol@)
        &&& side_wf(self.bids@)
        &&& side_wf(self.asks@)
        &&& uncrossed(self.bids@, self.asks@)
    }

    /// Two books carry the same market state: every field but the
    /// timestamp agrees.
    pub open spec fn same_state(&self, other: &OrderBook) -> bool {
        &&& self.symbol@ == other.symbol@
        &&& self.bids@ == other.bids@
        &&& self.asks@ == other.asks@
        &&& self.last_update_id == other.last_update_id
    }
}

/// In a sorted side each price occurs at most once, so the quantity read
/// back at a stored level's price is that level's quantity.
pub proof fn lemma_qty_at(s: Seq<PriceLevel>, i: int)
    requires
        side_sorted(s),
        0 <= i < s.len(),
    ensures
        contains_price(s, s[i].price),
        index_of_price(s, s[i].price) == i,
        qty_at(s, s[i].price) == s[i].quantity,
{
    assert(contains_price(s, s[i].price));
    let j = index_of_price(s, s[i].price);
    assert(0 <= j < s.len() && s[j].price == s[i].price);
    if i < j {
        assert(s[i].price < s[j].price);
    }
    if j < i {
        assert(s[j].price < s[i].price);
    }
}


/// Inserting a level between the strictly-smaller prefix and the
/// strictly-larger suffix keeps the side well-formed and upserts the map.
proof fn lemma_side_insert(s: Seq<PriceLevel>, idx: int, l: PriceLevel)
    requires
        side_wf(s),
        stored_level_ok(l),
        0 <= idx <= s.len(),
        forall|i: int| 0 <= i < idx ==> (#[trigger] s[i]).price < l.price,
        forall|i: int| idx <= i < s.len() ==> (#[trigger] s[i]).price > l.price,
    ensures
        side_wf(s.insert(idx, l)),
        side_map(s.insert(idx, l)) == side_map(s).insert(l.price, l.quantity),
{
    let s2 = s.insert(idx, l);
    assert forall|i: int, j: int| 0 <= i < j < s2.len() implies s2[i].price < s2[j].price by {
        if i < idx && j < idx {
        } else if i > idx && j > idx {
        }
    }
    assert forall|i: int| 0 <= i < s2.len() implies stored_level_ok(#[trigger] s2[i]) by {}
    assert(side_map(s2) =~= side_map(s).insert(l.price, l.quantity)) by {
        assert forall|p: u64| #![all_triggers] true implies {
            &&& contains_price(s2, p) <==> (contains_price(s, p) || p == l.price)
            &&& (contains_price(s2, p) ==> qty_at(s2, p) == if p == l.price {
                l.quantity
            } else {
                qty_at(s, p)
            })
        } by {
            if contains_price(s, p) {
                let i = index_of_price(s, p);
                lemma_qty_at(s, i);
                let i2: int = if i < idx {
                    i
                } else {
                    i + 1
                };
                assert(s2[i2] == s[i]);
                lemma_qty_at(s2, i2);
            }
            assert(s2[idx] == l);
            lemma_qty_at(s2, idx);
            if contains_price(s2, p) && p != l.price {
                let i2 = index_of_price(s2, p);
                lemma_qty_at(s2, i2);
                let i: int = if i2 < idx {
                    i2
                } else {
                    i2 - 1
                };
                assert(i2 != idx);
                assert(s[i] == s2[i2]);
                lemma_qty_at(s, i);
            }
        }
    }
}

/// Replacing the level at a price keeps the side well-formed and upserts
/// the map.
proof fn lemma_side_update(s: Seq<PriceLevel>, idx: int, l: PriceLevel)
    requires
        side_wf(s),
        stored_level_ok(l),
        0 <= idx < s.len(),
        s[idx].price == l.price,
    ensures
        side_wf(s.update(idx, l)),
        side_map(s.update(idx, l)) == side_map(s).insert(l.price, l.quantity),
{
    let s2 = s.update(idx, l);
    assert forall|i: int, j: int| 0 <= i < j < s2.len() implies s2[i].price < s2[j].price by {
        assert(s[i].price < s[j].price);
    }
    assert(side_map(s2) =~= side_map(s).insert(l.price, l.quantity)) by {
        assert forall|p: u64| #![all_triggers] true implies {
            &&& contains_price(s2, p) <==> (contains_price(s, p) || p == l.price)
            &&& (contains_price(s2, p) ==> qty_at(s2, p) == if p == l.price {
                l.quantity
            } else {
                qty_at(s, p)
            })
        } by {
            assert(s2[idx] == l);
            lemma_qty_at(s2, idx);
            lemma_qty_at(s, idx);
            if contains_price(s, p) && p != l.price {
                let i = index_of_price(s, p);
                lemma_qty_at(s, i);
                assert(i != idx);
                assert(s2[i] == s[i]);
                lemma_qty_at(s2, i);
            }
            if contains_price(s2, p) && p != l.price {
                let i2 = index_of_price(s2, p);
                lemma_qty_at(s2, i2);
                assert(i2 != idx);
                assert(s[i2] == s2[i2]);
                lemma_qty_at(s, i2);
            }
        }
    }
}

/// Removing the level at a price keeps the side well-formed and removes
/// the price from the map.
proof fn lemma_side_remove(s: Seq<PriceLevel>, idx: int)
    requires
        side_wf(s),
        0 <= idx < s.len(),
    ensures
        side_wf(s.remove(idx)),
        side_map(s.remove(idx)) == side_map(s).remove(s[idx].price),
{
    let s2 = s.remove(idx);
    let pr = s[idx].price;
    assert forall|i: int, j: int| 0 <= i < j < s2.len() implies s2[i].price < s2[j].price by {
        let i0: int = if i < idx {
            i
        } else {
            i + 1
        };
        let j0: int = if j < idx {
            j
        } else {
            j + 1
        };
        assert(s2[i] == s[i0] && s2[j] == s[j0]);
    }
    assert forall|i: int| 0 <= i < s2.len() implies stored_level_ok(#[trigger] s2[i]) by {
        let i0: int = if i < idx {
            i
        } else {
            i + 1
        };
        assert(s2[i] == s[i0]);
    }
    assert(side_map(s2) =~= side_map(s).remove(pr)) by {
        assert forall|p: u64| #![all_triggers] true implies {
            &&& contains_price(s2, p) <==> (contains_price(s, p) && p != pr)
            &&& (contains_price(s2, p) ==> qty_at(s2, p) == qty_at(s, p))
        } by {
            lemma_qty_at(s, idx);
            if contains_price(s, p) && p != pr {
                let i = index_of_price(s, p);
                lemma_qty_at(s, i);
                assert(i != idx);
                let i2: int = if i < idx {
                    i
                } else {
                    i - 1
                };
                assert(s2[i2] == s[i]);
                lemma_qty_at(s2, i2);
            }
            if contains_price(s2, p) {
                let i2 = index_of_price(s2, p);
                lemma_qty_at(s2, i2);
                let i0: int = if i2 < idx {
                    i2
                } else {
                    i2 + 1
                };
                assert(s2[i2] == s[i0]);
                lemma_qty_at(s, i0);
                assert(p != pr);
            }
        }
    }
}

/// Deleting an absent price leaves the map as it stands.
proof fn lemma_side_absent_remove(s: Seq<PriceLevel>, p: u64)
    requires
        !contains_price(s, p),
    ensures
        side_map(s) == side_map(s).remove(p),
{
    assert(side_map(s) =~= side_map(s).remove(p));
}

/// Applies one level of an update to a sorted side: quantity zero deletes
/// the price, anything else inserts or replaces it.
fn side_apply(side: &mut Vec<PriceLevel>, level: PriceLevel)
    requires
        side_wf(old(side)@),
        level_ok(level),
    ensures
        side_wf(final(side)@),
        side_map(final(side)@) == apply_one(side_map(old(side)@), level),
{
    let n = side.len();
    let mut idx: usize = 0;
    // Find the first entry whose price is at least the level's price.
    loop
        invariant
            0 <= idx <= n == side@.len(),
            side_wf(side@),
            side@ == old(side)@,
            forall|i: int| 0 <= i < idx ==> (#[trigger] side@[i]).price < level.price,
        ensures
            0 <= idx <= n,
            side@ == old(side)@,
            forall|i: int| 0 <= i < idx ==> (#[trigger] side@[i]).price < level.price,
            idx < n ==> side@[idx as int].price >= level.price,
        decreases n - idx,
    {
        if idx == n {
            break;
        }
        if side[idx].price >= level.price {
            break;
        }
        idx = idx + 1;
    }
    let found = idx < n && side[idx].price == level.price;
    if level.quantity == 0 {
        if found {
            proof {
                lemma_side_remove(side@, idx as int);
            }
            side.remove(idx);
        } else {
            proof {
                assert(!contains_price(side@, level.price)) by {
                    if contains_price(side@, level.price) {
                        let i = index_of_price(side@, level.price);
                        if i < idx {
                            assert(side@[i].price < level.price);
                        } else {
                            assert(side@[idx as int].price <= side@[i].price);
                        }
                    }
                }
                lemma_side_absent_remove(side@, level.price);
            }
        }
    } else {
        if found {
            proof {
                lemma_side_update(side@, idx as int, level);
            }
            let _ = side.remove(idx);
            side.insert(idx, level);
            proof {
                assert(final(side)@ =~= old(side)@.update(idx as int, level));
            }
        } else {
            proof {
                assert(forall|i: int|
                    idx <= i < side@.len() ==> (#[trigger] side@[i]).price > level.price) by {
                    assert forall|i: int|
                        idx <= i < side@.len() implies (#[trigger] side@[i]).price
                        > level.price by {
                        assert(side@[idx as int].price <= side@[i].price);
                        assert(side@[idx as int].price != level.price || idx == side@.len());
                    }
                }
                lemma_side_insert(side@, idx as int, level);
            }
            side.insert(idx, level);
        }
    }
}


/// The map form of "not crossed": every bid price sits strictly below
/// every ask price.
pub open spec fn map_uncrossed(bids: Map<u64, u64>, asks: Map<u64, u64>) -> bool {
    forall|pb: u64, pa: u64|
        bids.dom().contains(pb) && asks.dom().contains(pa) ==> pb < pa
}

/// On well-formed sides the sequence form and the map form of "not
/// crossed" agree.
pub proof fn lemma_uncrossed_equiv(bids: Seq<PriceLevel>, asks: Seq<PriceLevel>)
    requires
        side_wf(bids),
        side_wf(asks),
    ensures
        uncrossed(bids, asks) <==> map_uncrossed(side_map(bids), side_map(asks)),
{
    if uncrossed(bids, asks) {
        assert forall|pb: u64, pa: u64|
            side_map(bids).dom().contains(pb) && side_map(asks).dom().contains(pa) implies pb
            < pa by {
            let i = index_of_price(bids, pb);
            let j = index_of_price(asks, pa);
            assert(bids[i].price == pb && asks[j].price == pa);
            assert(bids[i].price <= bids.last().price) by {
                if i < bids.len() - 1 {
                    assert(bids[i].price < bids[bids.len() - 1].price);
                }
            }
            assert(asks.first().price <= asks[j].price) by {
                if 0 < j {
                    assert(asks[0].price < asks[j].price);
                }
            }
        }
    }
    if map_uncrossed(side_map(bids), side_map(asks)) && bids.len() > 0 && asks.len() > 0 {
        lemma_qty_at(bids, bids.len() - 1);
        lemma_qty_at(asks, 0);
        assert(side_map(bids).dom().contains(bids.last().price));
        assert(side_map(asks).dom().contains(asks.first().price));
    }
}

/// Folding one more level equals folding the prefix and applying the level.
pub proof fn lemma_apply_levels_snoc(m: Map<u64, u64>, ls: Seq<PriceLevel>, l: PriceLevel)
    ensures
        apply_levels(m, ls.push(l)) == apply_one(apply_levels(m, ls), l),
    decreases ls.len(),
{
    let s = ls.push(l);
    assert(s.len() == ls.len() + 1);
    if ls.len() == 0 {
        assert(s[0] == l);
        assert(s.skip(1) =~= Seq::<PriceLevel>::empty());
        assert(apply_levels(m, s) == apply_levels(apply_one(m, l), s.skip(1)));
        assert(apply_levels(apply_one(m, l), s.skip(1)) == apply_one(m, l));
        assert(apply_levels(m, ls) == m);
    } else {
        assert(s[0] == ls[0]);
        assert(s.skip(1) =~= ls.skip(1).push(l));
        assert(apply_levels(m, s) == apply_levels(apply_one(m, s[0]), s.skip(1)));
        lemma_apply_levels_snoc(apply_one(m, ls[0]), ls.skip(1), l);
        assert(apply_levels(m, ls) == apply_levels(apply_one(m, ls[0]), ls.skip(1)));
    }
}

/// A copy of a level vector.
fn copy_levels(v: &Vec<PriceLevel>) -> (r: Vec<PriceLevel>)
    ensures
        r@ == v@,
{
    let mut out: Vec<PriceLevel> = Vec::new();
    let n = v.len();
    let mut i: usize = 0;
    while i < n
        invariant
            0 <= i <= n == v@.len(),
            out@ =~= v@.take(i as int),
        decreases n - i,
    {
        out.push(v[i]);
        proof {
            assert(out@ =~= v@.take(i + 1));
        }
        i = i + 1;
    }
    proof {
        assert(v@.take(n as int) =~= v@);
    }
    out
}

/// Applies every level of one update side to a copy of a stored side.
fn fold_side(side: &Vec<PriceLevel>, levels: &Vec<PriceLevel>) -> (r: Vec<PriceLevel>)
    requires
        side_wf(side@),
        forall|i: int| 0 <= i < levels@.len() ==> level_ok(#[trigger] levels@[i]),
    ensures
        side_wf(r@),
        side_map(r@) == apply_levels(side_map(side@), levels@),
{
    let mut out = copy_levels(side);
    let n = levels.len();
    let mut i: usize = 0;
    while i < n
        invariant
            0 <= i <= n == levels@.len(),
            forall|k: int| 0 <= k < levels@.len() ==> level_ok(#[trigger] levels@[k]),
            side_wf(out@),
            side_map(out@) == apply_levels(side_map(side@), levels@.take(i as int)),
        decreases n - i,
    {
        proof {
            assert(levels@.take(i + 1) =~= levels@.take(i as int).push(levels@[i as int]));
            lemma_apply_levels_snoc(side_map(side@), levels@.take(i as int), levels@[i as int]);
        }
        side_apply(&mut out, levels[i]);
        i = i + 1;
    }
    proof {
        assert(levels@.take(n as int) =~= levels@);
    }
    out
}

impl OrderBook {
    /// An empty book for a symbol, seated at sequence position zero.
    pub fn new(symbol: String) -> (r: OrderBook)
        requires
            symbol_wf(symbol@),
        ensures
            r.wf(),
            r.symbol@ == symbol@,
            r.bids@.len() == 0,
            r.asks@.len() == 0,
            r.last_update_id == 0,
            r.timestamp == 0,
    {
        OrderBook { symbol, bids: Vec::new(), asks: Vec::new(), last_update_id: 0, timestamp: 0 }
    }

    /// Applies one depth delta under the sequence rule.
    ///
    /// An update ending at or before the book's position is stale and
    /// dropped; one starting beyond the next expected id is a gap; one
    /// whose application would cross the book is refused. Exactly the
    /// remaining updates are applied: each side's map becomes the fold of
    /// the update's levels over it, and the book's position moves to the
    /// update's last id. On any error the book is left unchanged.
    pub fn apply_update(&mut self, update: &DepthUpdate, now_micros: u64) -> (r: Result<
        (),
        ApplyError,
    >)
        requires
            old(self).wf(),
            update.wf(),
        ensures
            final(self).wf(),
            final(self).symbol@ == old(self).symbol@,
            r is Ok <==> {
                &&& update.last_update_id > old(self).last_update_id
                &&& update.first_update_id <= old(self).last_update_id as int + 1
                &&& map_uncrossed(
                    apply_levels(side_map(old(self).bids@), update.bids@),
                    apply_levels(side_map(old(self).asks@), update.asks@),
                )
            },
            match r {
                Ok(()) => {
                    &&& final(self).last_update_id == update.last_update_id
                    &&& side_map(final(self).bids@) == apply_levels(
                        side_map(old(self).bids@),
                        update.bids@,
                    )
                    &&& side_map(final(self).asks@) == apply_levels(
                        side_map(old(self).asks@),
                        update.asks@,
                    )
                    &&& final(self).timestamp == now_micros
                },
                Err(e) => {
                    &&& *final(self) == *old(self)
                    &&& (e == ApplyError::Stale <==> update.last_update_id <= old(
                        self,
                    ).last_update_id)
                    &&& (e == ApplyError::Gap <==> update.last_update_id > old(
                        self,
                    ).last_update_id && update.first_update_id > old(self).last_update_id as int
                        + 1)
                },
            },
    {
        if update.last_update_id <= self.last_update_id {
            return Err(ApplyError::Stale);
        }
        if update.first_update_id > self.last_update_id && update.first_update_id
            - self.last_update_id > 1 {
            return Err(ApplyError::Gap);
        }
        let new_bids = fold_side(&self.bids, &update.bids);
        let new_asks = fold_side(&self.asks, &update.asks);
        let crossed = new_bids.len() > 0 && new_asks.len() > 0
            && new_bids[new_bids.len() - 1].price >= new_asks[0].price;
        proof {
            lemma_uncrossed_equiv(new_bids@, new_asks@);
        }
        if crossed {
            return Err(ApplyError::Crossed);
        }
        self.bids = new_bids;
        self.asks = new_asks;
        self.last_update_id = update.last_update_id;
        self.timestamp = now_micros;
        Ok(())
    }

    /// The highest-priced bid, if any.
    pub fn best_bid(&self) -> (r: Option<PriceLevel>)
        ensures
            match r {
                Some(l) => self.bids@.len() > 0 && l == self.bids@.last(),
                None => self.bids@.len() == 0,
            },
    {
        if self.bids.len() > 0 {
            Some(self.bids[self.bids.len() - 1])
        } else {
            None
        }
    }

    /// The lowest-priced ask, if any.
    pub fn best_ask(&self) -> (r: Option<PriceLevel>)
        ensures
            match r {
                Some(l) => self.asks@.len() > 0 && l == self.asks@.first(),
                None => self.asks@.len() == 0,
            },
    {
        if self.asks.len() > 0 {
            Some(self.asks[0])
        } else {
            None
        }
    }

    /// The mid price, `(best_bid + best_ask) / 2`, as a mantissa at nine
    /// fractional digits so that the halving is exact. `None` whenever
    /// either side is empty.
    pub fn mid_price(&self) -> (r: Option<u64>)
        requires
            self.wf(),
        ensures
            match r {
                Some(m) => self.bids@.len() > 0 && self.asks@.len() > 0 && m == 5 * (
                self.bids@.last().price + self.asks@.first().price),
                None => self.bids@.len() == 0 || self.asks@.len() == 0,
            },
    {
        if self.bids.len() > 0 && self.asks.len() > 0 {
            let bb = self.bids[self.bids.len() - 1].price;
            let ba = self.asks[0].price;
            Some((bb + ba) * 5)
        } else {
            None
        }
    }

    /// The spread, `best_ask - best_bid`, at the crate scale. `None`
    /// whenever either side is empty.
    pub fn spread(&self) -> (r: Option<u64>)
        requires
            self.wf(),
        ensures
            match r {
                Some(sp) => self.bids@.len() > 0 && self.asks@.len() > 0 && sp
                    == self.asks@.first().price - self.bids@.last().price,
                None => self.bids@.len() == 0 || self.asks@.len() == 0,
            },
    {
        if self.bids.len() > 0 && self.asks.len() > 0 {
            let bb = self.bids[self.bids.len() - 1].price;
            let ba = self.asks[0].price;
            Some(ba - bb)
        } else {
            None
        }
    }

    /// The best `depth` levels of each side: bids by strictly descending
    /// price, asks by strictly ascending price, each at most `depth` long.
    pub fn get_top_levels(&self, depth: usize) -> (r: (Vec<PriceLevel>, Vec<PriceLevel>))
        requires
            self.wf(),
        ensures
            r.0@.len() == vstd::math::min(depth as int, self.bids@.len() as int),
            r.1@.len() == vstd::math::min(depth as int, self.asks@.len() as int),
            forall|i: int|
                0 <= i < r.0@.len() ==> r.0@[i] == self.bids@[self.bids@.len() - 1 - i],
            forall|i: int| 0 <= i < r.1@.len() ==> r.1@[i] == self.asks@[i],
            forall|i: int, j: int| 0 <= i < j < r.0@.len() ==> r.0@[i].price > r.0@[j].price,
            forall|i: int, j: int| 0 <= i < j < r.1@.len() ==> r.1@[i].price < r.1@[j].price,
    {
        let nb = self.bids.len();
        let take_b = if depth < nb {
            depth
        } else {
            nb
        };
        let mut top_bids: Vec<PriceLevel> = Vec::new();
        let mut i: usize = 0;
        while i < take_b
            invariant
                0 <= i <= take_b <= nb == self.bids@.len(),
                top_bids@.len() == i,
                forall|k: int| 0 <= k < i ==> top_bids@[k] == self.bids@[nb - 1 - k],
            decreases take_b - i,
        {
            top_bids.push(self.bids[nb - 1 - i]);
            i = i + 1;
        }
        let na = self.asks.len();
        let take_a = if depth < na {
            depth
        } else {
            na
        };
        let mut top_asks: Vec<PriceLevel> = Vec::new();
        let mut j: usize = 0;
        while j < take_a
            invariant
                0 <= j <= take_a <= na == self.asks@.len(),
                top_asks@.len() == j,
                forall|k: int| 0 <= k < j ==> top_asks@[k] == self.asks@[k],
            decreases take_a - j,
        {
            top_asks.push(self.asks[j]);
            j = j + 1;
        }
        (top_bids, top_asks)
    }
}


/// The empty side denotes the empty map.
pub proof fn lemma_side_map_empty()
    ensures
        side_map(Seq::<PriceLevel>::empty()) == Map::<u64, u64>::empty(),
{
    assert(side_map(Seq::<PriceLevel>::empty()) =~= Map::<u64, u64>::empty());
}

/// A book accepts an update when it moves the sequence forward, starts
/// within the window, and does not cross the book.
pub open spec fn update_accepted(b: OrderBook, u: DepthUpdate) -> bool {
    &&& u.last_update_id > b.last_update_id
    &&& u.first_update_id <= b.last_update_id as int + 1
    &&& map_uncrossed(
        apply_levels(side_map(b.bids@), u.bids@),
        apply_levels(side_map(b.asks@), u.asks@),
    )
}

/// What a successful apply leaves behind.
pub open spec fn applied_book(old_b: OrderBook, u: DepthUpdate, now: u64, new_b: OrderBook) -> bool {
    &&& new_b.symbol@ == old_b.symbol@
    &&& new_b.last_update_id == u.last_update_id
    &&& side_map(new_b.bids@) == apply_levels(side_map(old_b.bids@), u.bids@)
    &&& side_map(new_b.asks@) == apply_levels(side_map(old_b.asks@), u.asks@)
    &&& new_b.timestamp == now
}

/// The first delta for an absent symbol is taken as baseline whenever the
/// book it builds is not crossed; its sequence ids are not examined.
pub open spec fn bootstrap_accepted(u: DepthUpdate) -> bool {
    map_uncrossed(
        apply_levels(Map::<u64, u64>::empty(), u.bids@),
        apply_levels(Map::<u64, u64>::empty(), u.asks@),
    )
}

/// What bootstrapping from one delta leaves behind.
pub open spec fn bootstrapped_book(u: DepthUpdate, now: u64, b: OrderBook) -> bool {
    &&& b.last_update_id == u.last_update_id
    &&& side_map(b.bids@) == apply_levels(Map::<u64, u64>::empty(), u.bids@)
    &&& side_map(b.asks@) == apply_levels(Map::<u64, u64>::empty(), u.asks@)
    &&& b.timestamp == now
}

impl OrderBook {
    /// Builds a baseline book for an absent symbol from one delta,
    /// ignoring the delta's sequence ids. Refused only when the built
    /// book would be crossed.
    pub fn bootstrap(symbol: String, update: &DepthUpdate, now_micros: u64) -> (r: Result<
        OrderBook,
        ApplyError,
    >)
        requires
            update.wf(),
            symbol_wf(symbol@),
        ensures
            r matches Ok(b) ==> {
                &&& b.wf()
                &&& b.symbol@ == symbol@
                &&& bootstrapped_book(*update, now_micros, b)
            },
            r is Ok <==> bootstrap_accepted(*update),
            r matches Err(e) ==> e == ApplyError::Crossed,
    {
        proof {
            lemma_side_map_empty();
        }
        let empty: Vec<PriceLevel> = Vec::new();
        let new_bids = fold_side(&empty, &update.bids);
        let new_asks = fold_side(&empty, &update.asks);
        let crossed = new_bids.len() > 0 && new_asks.len() > 0
            && new_bids[new_bids.len() - 1].price >= new_asks[0].price;
        proof {
            lemma_uncrossed_equiv(new_bids@, new_asks@);
        }
        if crossed {
            return Err(ApplyError::Crossed);
        }
        Ok(
            OrderBook {
                symbol,
                bids: new_bids,
                asks: new_asks,
                last_update_id: update.last_update_id,
                timestamp: now_micros,
            },
        )
    }
}


/// A well-formed book stores no level with quantity zero, on either
/// side; since every apply leaves the book well-formed, no stored price
/// ever carries quantity zero.
pub proof fn lemma_book_stores_no_zero_quantity(b: &OrderBook)
    requires
        b.wf(),
    ensures
        forall|i: int| 0 <= i < b.bids@.len() ==> (#[trigger] b.bids@[i]).quantity > 0,
        forall|i: int| 0 <= i < b.asks@.len() ==> (#[trigger] b.asks@[i]).quantity > 0,
{
}

/// In a well-formed book with both sides populated, every bid price
/// sits strictly below every ask price; in particular the highest bid
/// sits below the lowest ask.
pub proof fn lemma_book_uncrossed(b: &OrderBook)
    requires
        b.wf(),
    ensures
        forall|i: int, j: int|
            0 <= i < b.bids@.len() && 0 <= j < b.asks@.len() ==> (#[trigger] b.bids@[i]).price < (
            #[trigger] b.asks@[j]).price,
{
    assert forall|i: int, j: int|
        0 <= i < b.bids@.len() && 0 <= j < b.asks@.len() implies (#[trigger] b.bids@[i]).price < (
    #[trigger] b.asks@[j]).price by {
        if i < b.bids@.len() - 1 {
            assert(b.bids@[i].price < b.bids@[b.bids@.len() - 1].price);
        }
        if 0 < j {
            assert(b.asks@[0].price < b.asks@[j].price);
        }
    }
}

/// Whether the first delta for an absent symbol is accepted does not
/// depend on its sequence ids: two deltas with the same levels are
/// either both taken as baseline or both refused.
pub proof fn lemma_bootstrap_ignores_ids(u1: &DepthUpdate, u2: &DepthUpdate)
    requires
        u1.bids@ == u2.bids@,
        u1.asks@ == u2.asks@,
    ensures
        bootstrap_accepted(*u1) == bootstrap_accepted(*u2),
{
}

} // verus!\n