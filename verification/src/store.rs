//! The order book store: one book per symbol, under one owner.
//!
//! The store applies depth deltas with sequence validation, hands out
//! snapshot copies that share no state with it, and drops a symbol's entry
//! on reset so that the next delta re-bootstraps the book. The first delta
//! seen for an absent symbol is accepted as the baseline regardless of its
//! sequence ids.

use vstd::prelude::*;

use crate::book::ApplyError;
use crate::book::DepthUpdate;
use crate::book::OrderBook;
use crate::book::PriceLevel;
use crate::book::symbol_wf;

verus! {

use vstd::string::StringSliceAdditionalSpecFns;

/// Whether two strings hold the same characters.
pub fn str_eq(a: &str, b: &str) -> (r: bool)
    ensures
        r == (a@ == b@),
{
    let ab = a.as_bytes();
    let bb = b.as_bytes();
    proof {
        vstd::utf8::encode_utf8_decode_utf8(a@);
        vstd::utf8::encode_utf8_decode_utf8(b@);
    }
    if ab.len() != bb.len() {
        return false;
    }
    let n = ab.len();
    let mut i: usize = 0;
    while i < n
        invariant
            0 <= i <= n == ab@.len() == bb@.len(),
            ab@ == a.spec_bytes(),
            bb@ == b.spec_bytes(),
            forall|k: int| 0 <= k < i ==> ab@[k] == bb@[k],
        decreases n - i,
    {
        if ab[i] != bb[i] {
            proof {
                assert(a.spec_bytes() != b.spec_bytes());
            }
            return false;
        }
        i = i + 1;
    }
    proof {
        assert(a.spec_bytes() =~= b.spec_bytes());
    }
    true
}

/// A deep copy of a book; the copy shares no state with the original.
pub fn clone_book(b: &OrderBook) -> (r: OrderBook)
    ensures
        r.symbol@ == b.symbol@,
        r.bids@ == b.bids@,
        r.asks@ == b.asks@,
        r.last_update_id == b.last_update_id,
        r.timestamp == b.timestamp,
        r.same_state(b),
        b.wf() ==> r.wf(),
{
    OrderBook {
        symbol: b.symbol.clone(),
        bids: copy_level_vec(&b.bids),
        asks: copy_level_vec(&b.asks),
        last_update_id: b.last_update_id,
        timestamp: b.timestamp,
    }
}

fn copy_level_vec(v: &Vec<PriceLevel>) -> (r: Vec<PriceLevel>)
    ensures
        r@ == v@,
{
    let mut out: Vec<PriceLevel> = Vec::new();
    let n = v.len();
    let mut i: usize = 0;
    while i < n
        invariant
            0 <= i <= n == v@.len(),
            out@ =~= v@.take(i as int),
        decreases n - i,
    {
        out.push(v[i]);
        proof {
            assert(out@ =~= v@.take(i + 1));
        }
        i = i + 1;
    }
    proof {
        assert(v@.take(n as int) =~= v@);
    }
    out
}

/// Books keyed by symbol: each well-formed, no symbol twice.
pub open spec fn books_wf(bs: Seq<OrderBook>) -> bool {
    &&& forall|i: int| 0 <= i < bs.len() ==> (#[trigger] bs[i]).wf()
    &&& forall|i: int, j: int| 0 <= i < j < bs.len() ==> bs[i].symbol@ != bs[j].symbol@
}

pub open spec fn has_symbol(bs: Seq<OrderBook>, sym: Seq<char>) -> bool {
    exists|i: int| 0 <= i < bs.len() && (#[trigger] bs[i]).symbol@ == sym
}

pub open spec fn index_of_symbol(bs: Seq<OrderBook>, sym: Seq<char>) -> int {
    choose|i: int| 0 <= i < bs.len() && (#[trigger] bs[i]).symbol@ == sym
}

/// Owns every per-symbol book.
pub struct OrderBookManager {
    books: Vec<OrderBook>,
    depth: usize,
}

/// Since symbols are unique, the entry found for a stored book's symbol is
/// that book.
pub proof fn lemma_index_of_symbol(bs: Seq<OrderBook>, i: int)
    requires
        books_wf(bs),
        0 <= i < bs.len(),
    ensures
        has_symbol(bs, bs[i].symbol@),
        index_of_symbol(bs, bs[i].symbol@) == i,
{
    assert(has_symbol(bs, bs[i].symbol@));
    let j = index_of_symbol(bs, bs[i].symbol@);
    if i < j {
        assert(bs[i].symbol@ != bs[j].symbol@);
    }
    if j < i {
        assert(bs[j].symbol@ != bs[i].symbol@);
    }
}

impl OrderBookManager {
    pub closed spec fn wf(&self) -> bool {
        books_wf(self.books@)
    }

    /// The book stored for a symbol, if any.
    pub closed spec fn spec_get(&self, sym: Seq<char>) -> Option<OrderBook> {
        if has_symbol(self.books@, sym) {
            Some(self.books@[index_of_symbol(self.books@, sym)])
        } else {
            None
        }
    }

    /// An empty store that will cap snapshots at `depth` levels.
    pub fn new(depth: usize) -> (r: OrderBookManager)
        ensures
            r.wf(),
            forall|sym: Seq<char>| r.spec_get(sym) is None,
            r.spec_depth() == depth,
    {
        OrderBookManager { books: Vec::new(), depth }
    }

    pub closed spec fn spec_depth(&self) -> usize {
        self.depth
    }

    /// The configured snapshot depth.
    pub fn depth(&self) -> (r: usize)
        ensures
            r == self.spec_depth(),
    {
        self.depth
    }

    /// Index of the book stored for `symbol`, if any.
    fn find(&self, symbol: &str) -> (r: Option<usize>)
        requires
            self.wf(),
        ensures
            match r {
                Some(i) => i < self.books@.len() && self.books@[i as int].symbol@ == symbol@
                    && has_symbol(self.books@, symbol@) && index_of_symbol(self.books@, symbol@)
                    == i,
                None => !has_symbol(self.books@, symbol@),
            },
    {
        let n = self.books.len();
        let mut i: usize = 0;
        while i < n
            invariant
                0 <= i <= n == self.books@.len(),
                self.wf(),
                forall|k: int| 0 <= k < i ==> (#[trigger] self.books@[k]).symbol@ != symbol@,
            decreases n - i,
        {
            if str_eq(self.books[i].symbol.as_str(), symbol) {
                proof {
                    lemma_index_of_symbol(self.books@, i as int);
                }
                return Some(i);
            }
            i = i + 1;
        }
        None
    }

    /// Read-only copy of a symbol's book.
    pub fn get(&self, symbol: &str) -> (r: Option<OrderBook>)
        requires
            self.wf(),
        ensures
            match r {
                Some(b) => match self.spec_get(symbol@) {
                    Some(sb) => b.same_state(&sb) && b.timestamp == sb.timestamp && b.wf(),
                    None => false,
                },
                None => self.spec_get(symbol@) is None,
            },
    {
        match self.find(symbol) {
            Some(i) => Some(clone_book(&self.books[i])),
            None => None,
        }
    }

    /// Drops a symbol's entry, so the next delta re-bootstraps the book.
    pub fn reset(&mut self, symbol: &str)
        requires
            old(self).wf(),
        ensures
            final(self).wf(),
            final(self).spec_get(symbol@) is None,
            forall|sym: Seq<char>|
                sym != symbol@ ==> final(self).spec_get(sym) == old(self).spec_get(sym),
            final(self).spec_depth() == old(self).spec_depth(),
    {
        match self.find(symbol) {
            Some(i) => {
                let ghost bs0 = self.books@;
                let _ = self.books.remove(i);
                proof {
                    let bs1 = self.books@;
                    assert forall|sym: Seq<char>|
                        sym != symbol@ implies final(self).spec_get(sym) == old(self).spec_get(
                        sym,
                    ) by {
                        lemma_spec_get_remove(bs0, i as int, sym);
                    }
                    if has_symbol(bs1, symbol@) {
                        let j = index_of_symbol(bs1, symbol@);
                        let j0: int = if j < i {
                            j
                        } else {
                            j + 1
                        };
                        assert(bs1[j] == bs0[j0]);
                        assert(bs0[j0].symbol@ != bs0[i as int].symbol@);
                    }
                }
            },
            None => {},
        }
    }
}

/// Removing the entry at `i` does not change which book any other symbol
/// maps to.
proof fn lemma_spec_get_remove(bs: Seq<OrderBook>, i: int, sym: Seq<char>)
    requires
        books_wf(bs),
        0 <= i < bs.len(),
        sym != bs[i].symbol@,
    ensures
        books_wf(bs.remove(i)),
        has_symbol(bs.remove(i), sym) == has_symbol(bs, sym),
        has_symbol(bs, sym) ==> bs.remove(i)[index_of_symbol(bs.remove(i), sym)] == bs[
            index_of_symbol(bs, sym)
        ],
{
    let bs1 = bs.remove(i);
    assert forall|a: int, b: int| 0 <= a < b < bs1.len() implies bs1[a].symbol@
        != bs1[b].symbol@ by {
        let a0: int = if a < i {
            a
        } else {
            a + 1
        };
        let b0: int = if b < i {
            b
        } else {
            b + 1
        };
        assert(bs1[a] == bs[a0] && bs1[b] == bs[b0]);
    }
    assert forall|a: int| 0 <= a < bs1.len() implies (#[trigger] bs1[a]).wf() by {
        let a0: int = if a < i {
            a
        } else {
            a + 1
        };
        assert(bs1[a] == bs[a0]);
    }
    if has_symbol(bs, sym) {
        let j = index_of_symbol(bs, sym);
        assert(bs[j].symbol@ == sym);
        assert(j != i);
        let j1: int = if j < i {
            j
        } else {
            j - 1
        };
        assert(bs1[j1] == bs[j]);
        lemma_index_of_symbol(bs1, j1);
        lemma_index_of_symbol(bs, j);
    }
    if has_symbol(bs1, sym) {
        let j1 = index_of_symbol(bs1, sym);
        let j0: int = if j1 < i {
            j1
        } else {
            j1 + 1
        };
        assert(bs1[j1] == bs[j0]);
        assert(has_symbol(bs, sym));
    }
}


/// Replacing the entry at `i` with a well-formed book of the same symbol
/// keeps the store well-formed and changes only that symbol's entry.
proof fn lemma_spec_get_update(bs: Seq<OrderBook>, i: int, b2: OrderBook)
    requires
        books_wf(bs),
        0 <= i < bs.len(),
        b2.wf(),
        b2.symbol@ == bs[i].symbol@,
    ensures
        books_wf(bs.update(i, b2)),
        has_symbol(bs.update(i, b2), b2.symbol@),
        bs.update(i, b2)[index_of_symbol(bs.update(i, b2), b2.symbol@)] == b2,
        forall|sym: Seq<char>|
            sym != b2.symbol@ ==> #[trigger] has_symbol(bs.update(i, b2), sym) == has_symbol(
                bs,
                sym,
            ) && (has_symbol(bs, sym) ==> bs.update(i, b2)[index_of_symbol(bs.update(i, b2), sym)]
                == bs[index_of_symbol(bs, sym)]),
{
    let bs1 = bs.update(i, b2);
    assert forall|a: int, b: int| 0 <= a < b < bs1.len() implies bs1[a].symbol@
        != bs1[b].symbol@ by {
        assert(bs1[a].symbol@ == bs[a].symbol@ && bs1[b].symbol@ == bs[b].symbol@);
    }
    assert forall|a: int| 0 <= a < bs1.len() implies (#[trigger] bs1[a]).wf() by {
        if a != i {
            assert(bs1[a] == bs[a]);
        }
    }
    lemma_index_of_symbol(bs1, i);
    assert forall|sym: Seq<char>| sym != b2.symbol@ implies #[trigger] has_symbol(bs1, sym)
        == has_symbol(bs, sym) && (has_symbol(bs, sym) ==> bs1[index_of_symbol(bs1, sym)] == bs[
        index_of_symbol(bs, sym)
    ]) by {
        if has_symbol(bs, sym) {
            let j = index_of_symbol(bs, sym);
            assert(j != i);
            assert(bs1[j] == bs[j]);
            lemma_index_of_symbol(bs1, j);
            lemma_index_of_symbol(bs, j);
        }
        if has_symbol(bs1, sym) {
            let j = index_of_symbol(bs1, sym);
            assert(j != i);
            assert(bs1[j] == bs[j]);
            assert(has_symbol(bs, sym));
        }
    }
}

/// Appending a book with a new symbol keeps the store well-formed and
/// changes only that symbol's entry.
proof fn lemma_spec_get_push(bs: Seq<OrderBook>, b2: OrderBook)
    requires
        books_wf(bs),
        b2.wf(),
        !has_symbol(bs, b2.symbol@),
    ensures
        books_wf(bs.push(b2)),
        has_symbol(bs.push(b2), b2.symbol@),
        bs.push(b2)[index_of_symbol(bs.push(b2), b2.symbol@)] == b2,
        forall|sym: Seq<char>|
            sym != b2.symbol@ ==> #[trigger] has_symbol(bs.push(b2), sym) == has_symbol(bs, sym)
                && (has_symbol(bs, sym) ==> bs.push(b2)[index_of_symbol(bs.push(b2), sym)] == bs[
                index_of_symbol(bs, sym)
            ]),
{
    let bs1 = bs.push(b2);
    assert forall|a: int, b: int| 0 <= a < b < bs1.len() implies bs1[a].symbol@
        != bs1[b].symbol@ by {
        if b == bs.len() {
            assert(bs1[a] == bs[a]);
            if bs[a].symbol@ == b2.symbol@ {
                assert(has_symbol(bs, b2.symbol@));
            }
        } else {
            assert(bs1[a] == bs[a] && bs1[b] == bs[b]);
        }
    }
    assert forall|a: int| 0 <= a < bs1.len() implies (#[trigger] bs1[a]).wf() by {
        if a != bs.len() {
            assert(bs1[a] == bs[a]);
        }
    }
    lemma_index_of_symbol(bs1, bs.len() as int);
    assert forall|sym: Seq<char>| sym != b2.symbol@ implies #[trigger] has_symbol(bs1, sym)
        == has_symbol(bs, sym) && (has_symbol(bs, sym) ==> bs1[index_of_symbol(bs1, sym)] == bs[
        index_of_symbol(bs, sym)
    ]) by {
        if has_symbol(bs, sym) {
            let j = index_of_symbol(bs, sym);
            assert(bs1[j] == bs[j]);
            lemma_index_of_symbol(bs1, j);
            lemma_index_of_symbol(bs, j);
        }
        if has_symbol(bs1, sym) {
            let j = index_of_symbol(bs1, sym);
            assert(j != bs.len());
            assert(bs1[j] == bs[j]);
            assert(has_symbol(bs, sym));
        }
    }
}

impl OrderBookManager {
    /// Applies one depth delta to a symbol's book under the sequence rule,
    /// creating the book from the delta when the symbol is absent.
    ///
    /// On success the stored book is replaced and a snapshot copy of it is
    /// returned; on any error the store is left unchanged and the error
    /// says why: `Stale` updates end at or before the book's position,
    /// `Gap` updates start beyond the next expected id, and `Crossed`
    /// updates would cross the book.
    pub fn update(&mut self, symbol: &str, update: &DepthUpdate, now_micros: u64) -> (r: Result<
        OrderBook,
        ApplyError,
    >)
        requires
            old(self).wf(),
            update.wf(),
            symbol_wf(symbol@),
        ensures
            final(self).wf(),
            final(self).spec_depth() == old(self).spec_depth(),
            forall|sym: Seq<char>|
                sym != symbol@ ==> final(self).spec_get(sym) == old(self).spec_get(sym),
            r is Ok <==> (match old(self).spec_get(symbol@) {
                Some(ob) => crate::book::update_accepted(ob, *update),
                None => crate::book::bootstrap_accepted(*update),
            }),
            match r {
                Ok(snap) => {
                    &&& snap.wf()
                    &&& snap.symbol@ == symbol@
                    &&& match old(self).spec_get(symbol@) {
                        Some(ob) => crate::book::applied_book(ob, *update, now_micros, snap),
                        None => crate::book::bootstrapped_book(*update, now_micros, snap),
                    }
                    &&& match final(self).spec_get(symbol@) {
                        Some(nb) => nb.same_state(&snap) && nb.timestamp == snap.timestamp,
                        None => false,
                    }
                },
                Err(e) => {
                    &&& final(self).spec_get(symbol@) == old(self).spec_get(symbol@)
                    &&& match old(self).spec_get(symbol@) {
                        Some(ob) => (e == ApplyError::Stale <==> update.last_update_id
                            <= ob.last_update_id) && (e == ApplyError::Gap
                            <==> update.last_update_id > ob.last_update_id
                            && update.first_update_id > ob.last_update_id as int + 1),
                        None => e == ApplyError::Crossed,
                    }
                },
            },
    {
        match self.find(symbol) {
            Some(i) => {
                let ghost bs0 = self.books@;
                proof {
                    assert(old(self).spec_get(symbol@) == Some(bs0[i as int]));
                }
                let mut b = self.books.remove(i);
                let ghost b0 = b;
                let res = b.apply_update(update, now_micros);
                self.books.insert(i, b);
                proof {
                    assert(b0 == bs0[i as int]);
                    assert(self.books@ =~= bs0.update(i as int, b));
                    lemma_spec_get_update(bs0, i as int, b);
                }
                match res {
                    Ok(()) => Ok(clone_book(&self.books[i])),
                    Err(e) => Err(e),
                }
            },
            None => {
                let owned = crate::text::owned_str(symbol);
                match OrderBook::bootstrap(owned, update, now_micros) {
                    Ok(b) => {
                        let snap = clone_book(&b);
                        proof {
                            lemma_spec_get_push(self.books@, b);
                        }
                        self.books.push(b);
                        Ok(snap)
                    },
                    Err(e) => Err(e),
                }
            },
        }
    }

    /// Snapshot copy of a symbol's book, created empty when absent; the
    /// original behaviour for read paths that tolerate an empty book.
    pub fn get_or_create(&mut self, symbol: &str) -> (r: OrderBook)
        requires
            old(self).wf(),
            symbol_wf(symbol@),
        ensures
            final(self).wf(),
            final(self).spec_depth() == old(self).spec_depth(),
            forall|sym: Seq<char>|
                sym != symbol@ ==> final(self).spec_get(sym) == old(self).spec_get(sym),
            r.wf(),
            r.symbol@ == symbol@,
            match final(self).spec_get(symbol@) {
                Some(nb) => nb.same_state(&r) && nb.timestamp == r.timestamp,
                None => false,
            },
            match old(self).spec_get(symbol@) {
                Some(ob) => r.same_state(&ob) && r.timestamp == ob.timestamp
                    && final(self).spec_get(symbol@) == old(self).spec_get(symbol@),
                None => r.bids@.len() == 0 && r.asks@.len() == 0 && r.last_update_id == 0,
            },
    {
        match self.find(symbol) {
            Some(i) => {
                proof {
                    lemma_index_of_symbol(self.books@, i as int);
                }
                clone_book(&self.books[i])
            },
            None => {
                let owned = crate::text::owned_str(symbol);
                let b = OrderBook::new(owned);
                let snap = clone_book(&b);
                proof {
                    lemma_spec_get_push(self.books@, b);
                }
                self.books.push(b);
                snap
            },
        }
    }

    /// The best `depth` levels of each side of a symbol's book: bids by
    /// strictly descending price, asks by strictly ascending price.
    pub fn snapshot(&self, symbol: &str, depth: usize) -> (r: Option<
        (Vec<PriceLevel>, Vec<PriceLevel>),
    >)
        requires
            self.wf(),
        ensures
            match r {
                Some(tops) => match self.spec_get(symbol@) {
                    Some(b) => {
                        &&& tops.0@.len() == vstd::math::min(depth as int, b.bids@.len() as int)
                        &&& tops.1@.len() == vstd::math::min(depth as int, b.asks@.len() as int)
                        &&& forall|i: int|
                            0 <= i < tops.0@.len() ==> tops.0@[i] == b.bids@[b.bids@.len() - 1 - i]
                        &&& forall|i: int| 0 <= i < tops.1@.len() ==> tops.1@[i] == b.asks@[i]
                        &&& forall|i: int, j: int|
                            0 <= i < j < tops.0@.len() ==> tops.0@[i].price > tops.0@[j].price
                        &&& forall|i: int, j: int|
                            0 <= i < j < tops.1@.len() ==> tops.1@[i].price < tops.1@[j].price
                    },
                    None => false,
                },
                None => self.spec_get(symbol@) is None,
            },
    {
        match self.find(symbol) {
            Some(i) => {
                proof {
                    lemma_index_of_symbol(self.books@, i as int);
                }
                Some(self.books[i].get_top_levels(depth))
            },
            None => None,
        }
    }
}

} // verus!\n