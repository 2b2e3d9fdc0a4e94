//! The health endpoint's fixed responses, and the snapshot fetcher's
//! settings.

use vstd::prelude::*;

use crate::book::PriceLevel;
use crate::decimal::MANTISSA_LIMIT;
use crate::decimal::scaled_value;
use crate::decimal::valid_scaled;

verus! {

use vstd::string::StringSliceAdditionalSpecFns;

/// The level a snapshot pair denotes, if any: both numerals must lie in
/// the wire grammar and be positive; anything else is left out, since
/// the book never stores such a level.
pub open spec fn snapshot_level(p: Seq<char>, q: Seq<char>) -> Option<PriceLevel> {
    let pb = vstd::utf8::encode_utf8(p);
    let qb = vstd::utf8::encode_utf8(q);
    if valid_scaled(pb) && valid_scaled(qb) && scaled_value(pb) > 0 && scaled_value(qb) > 0 {
        Some(
            PriceLevel {
                price: scaled_value(pb) as u64,
                quantity: scaled_value(qb) as u64,
            },
        )
    } else {
        None
    }
}

/// The levels a snapshot side denotes, in the order given.
pub open spec fn snapshot_levels(pairs: Seq<(String, String)>) -> Seq<PriceLevel>
    decreases pairs.len(),
{
    if pairs.len() == 0 {
        Seq::empty()
    } else {
        let rest = snapshot_levels(pairs.skip(1));
        match snapshot_level(pairs[0].0@, pairs[0].1@) {
            Some(l) => seq![l] + rest,
            None => rest,
        }
    }
}

/// Parses the levels of one REST snapshot side.
pub fn levels_from_pairs(pairs: &Vec<(String, String)>) -> (r: Vec<PriceLevel>)
    ensures
        r@ == snapshot_levels(pairs@),
        forall|k: int| 0 <= k < r@.len() ==> crate::book::level_ok(#[trigger] r@[k]),
{
    let mut out: Vec<PriceLevel> = Vec::new();
    let n = pairs.len();
    let mut i: usize = 0;
    while i < n
        invariant
            0 <= i <= n == pairs@.len(),
            out@ == snapshot_levels(pairs@.take(i as int)),
            forall|k: int| 0 <= k < out@.len() ==> crate::book::level_ok(#[trigger] out@[k]),
        decreases n - i,
    {
        proof {
            lemma_snapshot_levels_snoc(pairs@.take(i as int), pairs@[i as int]);
            assert(pairs@.take(i + 1) =~= pairs@.take(i as int).push(pairs@[i as int]));
        }
        let (p, q) = (&pairs[i].0, &pairs[i].1);
        let price = crate::decimal::parse_scaled(p.as_str().as_bytes());
        let qty = crate::decimal::parse_scaled(q.as_str().as_bytes());
        match (price, qty) {
            (Some(pv), Some(qv)) => {
                if pv > 0 && qv > 0 {
                    out.push(PriceLevel { price: pv, quantity: qv });
                }
            },
            _ => {},
        }
        i = i + 1;
    }
    proof {
        assert(pairs@.take(n as int) =~= pairs@);
    }
    out
}

/// One more pair appends its level, if it has one.
proof fn lemma_snapshot_levels_snoc(pairs: Seq<(String, String)>, x: (String, String))
    ensures
        snapshot_levels(pairs.push(x)) == snapshot_levels(pairs) + (match snapshot_level(
            x.0@,
            x.1@,
        ) {
            Some(l) => seq![l],
            None => Seq::<PriceLevel>::empty(),
        }),
    decreases pairs.len(),
{
    let s = pairs.push(x);
    if pairs.len() == 0 {
        assert(s[0] == x);
        assert(s.skip(1) =~= Seq::<(String, String)>::empty());
        assert(snapshot_levels(s.skip(1)) == Seq::<PriceLevel>::empty());
        assert(snapshot_level(s[0].0@, s[0].1@) == snapshot_level(x.0@, x.1@));
        match snapshot_level(x.0@, x.1@) {
            Some(l) => {
                assert(snapshot_levels(s) == seq![l] + snapshot_levels(s.skip(1)));
                assert(snapshot_levels(s) =~= seq![l]);
                assert(snapshot_levels(pairs) + seq![l] =~= seq![l]);
            },
            None => {
                assert(snapshot_levels(s) == snapshot_levels(s.skip(1)));
                assert(snapshot_levels(s) =~= Seq::<PriceLevel>::empty());
                assert(snapshot_levels(pairs) + Seq::<PriceLevel>::empty()
                    =~= Seq::<PriceLevel>::empty());
            },
        }
    } else {
        assert(s[0] == pairs[0]);
        assert(snapshot_level(s[0].0@, s[0].1@) == snapshot_level(pairs[0].0@, pairs[0].1@));
        assert(s.skip(1) =~= pairs.skip(1).push(x));
        lemma_snapshot_levels_snoc(pairs.skip(1), x);
        match snapshot_level(x.0@, x.1@) {
            Some(l) => {
                match snapshot_level(pairs[0].0@, pairs[0].1@) {
                    Some(h) => {
                        assert(snapshot_levels(s) =~= seq![h] + (snapshot_levels(pairs.skip(1))
                            + seq![l]));
                        assert(snapshot_levels(pairs) + seq![l] =~= seq![h] + (snapshot_levels(
                            pairs.skip(1),
                        ) + seq![l]));
                    },
                    None => {
                        assert(snapshot_levels(s) =~= snapshot_levels(pairs.skip(1)) + seq![l]);
                        assert(snapshot_levels(pairs) + seq![l] =~= snapshot_levels(pairs.skip(1))
                            + seq![l]);
                    },
                }
            },
            None => {
                match snapshot_level(pairs[0].0@, pairs[0].1@) {
                    Some(h) => {
                        assert(snapshot_levels(s) =~= seq![h] + snapshot_levels(pairs.skip(1)));
                        assert(snapshot_levels(pairs) + Seq::<PriceLevel>::empty() =~= seq![h]
                            + snapshot_levels(pairs.skip(1)));
                    },
                    None => {
                        assert(snapshot_levels(s) =~= snapshot_levels(pairs.skip(1)));
                        assert(snapshot_levels(pairs) + Seq::<PriceLevel>::empty()
                            =~= snapshot_levels(pairs.skip(1)));
                    },
                }
            },
        }
    }
}

/// Serves liveness, readiness and metrics over HTTP; the binary binds
/// the socket and routes, the library fixes the response bodies.
pub struct HealthServer {
    pub port: u16,
}

impl HealthServer {
    pub fn new(port: u16) -> (r: HealthServer)
        ensures
            r.port == port,
    {
        HealthServer { port }
    }
}

/// Fetches depth snapshots from the exchange's REST endpoint; the
/// binary performs the request, the library holds the endpoint.
pub struct SnapshotFetcher {
    pub rest_api_url: String,
}

impl SnapshotFetcher {
    pub fn new(rest_api_url: String) -> (r: SnapshotFetcher)
        ensures
            r.rest_api_url@ == rest_api_url@,
    {
        SnapshotFetcher { rest_api_url }
    }
}

/// `{"status":"healthy","service":"market-data","version":"0.1.0"}`
pub open spec fn health_body_bytes() -> Seq<u8> {
    seq![123u8, 34u8, 115u8, 116u8, 97u8, 116u8, 117u8, 115u8, 34u8, 58u8, 34u8, 104u8, 101u8, 97u8, 108u8, 116u8, 104u8, 121u8, 34u8, 44u8, 34u8, 115u8, 101u8, 114u8, 118u8, 105u8, 99u8, 101u8, 34u8, 58u8, 34u8, 109u8, 97u8, 114u8, 107u8, 101u8, 116u8, 45u8, 100u8, 97u8, 116u8, 97u8, 34u8, 44u8, 34u8, 118u8, 101u8, 114u8, 115u8, 105u8, 111u8, 110u8, 34u8, 58u8, 34u8, 48u8, 46u8, 49u8, 46u8, 48u8, 34u8, 125u8]
}

/// `{"status":"ready"}`
pub open spec fn ready_body_bytes() -> Seq<u8> {
    seq![123u8, 34u8, 115u8, 116u8, 97u8, 116u8, 117u8, 115u8, 34u8, 58u8, 34u8, 114u8, 101u8, 97u8, 100u8, 121u8, 34u8, 125u8]
}

/// The liveness response body.
#[verifier::rlimit(100)]
pub fn health_body() -> (r: Vec<u8>)
    ensures
        r@ == health_body_bytes(),
{
    let mut out: Vec<u8> = Vec::new();
    out.push(123u8);
    out.push(34u8);
    out.push(115u8);
    out.push(116u8);
    out.push(97u8);
    out.push(116u8);
    out.push(117u8);
    out.push(115u8);
    out.push(34u8);
    out.push(58u8);
    out.push(34u8);
    out.push(104u8);
    out.push(101u8);
    out.push(97u8);
    out.push(108u8);
    out.push(116u8);
    out.push(104u8);
    out.push(121u8);
    out.push(34u8);
    out.push(44u8);
    out.push(34u8);
    out.push(115u8);
    out.push(101u8);
    out.push(114u8);
    out.push(118u8);
    out.push(105u8);
    out.push(99u8);
    out.push(101u8);
    out.push(34u8);
    out.push(58u8);
    out.push(34u8);
    out.push(109u8);
    out.push(97u8);
    out.push(114u8);
    out.push(107u8);
    out.push(101u8);
    out.push(116u8);
    out.push(45u8);
    out.push(100u8);
    out.push(97u8);
    out.push(116u8);
    out.push(97u8);
    out.push(34u8);
    out.push(44u8);
    out.push(34u8);
    out.push(118u8);
    out.push(101u8);
    out.push(114u8);
    out.push(115u8);
    out.push(105u8);
    out.push(111u8);
    out.push(110u8);
    out.push(34u8);
    out.push(58u8);
    out.push(34u8);
    out.push(48u8);
    out.push(46u8);
    out.push(49u8);
    out.push(46u8);
    out.push(48u8);
    out.push(34u8);
    out.push(125u8);
    proof {
        assert(out@ =~= health_body_bytes());
    }
    out
}

/// The readiness response body.
pub fn ready_body() -> (r: Vec<u8>)
    ensures
        r@ == ready_body_bytes(),
{
    let mut out: Vec<u8> = Vec::new();
    out.push(123u8);
    out.push(34u8);
    out.push(115u8);
    out.push(116u8);
    out.push(97u8);
    out.push(116u8);
    out.push(117u8);
    out.push(115u8);
    out.push(34u8);
    out.push(58u8);
    out.push(34u8);
    out.push(114u8);
    out.push(101u8);
    out.push(97u8);
    out.push(100u8);
    out.push(121u8);
    out.push(34u8);
    out.push(125u8);
    proof {
        assert(out@ =~= ready_body_bytes());
    }
    out
}

} // verus!
