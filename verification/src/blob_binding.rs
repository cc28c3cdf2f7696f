//! What the points that are drawn from a blob say of the blob: whoever draws the same
//! point has the same data.

use crate::account_family_native::flat;
use crate::big::be_value;
use crate::hash::{
    compresses, elements_are_faithful, hashed, injective, injective_sponge, HashOut,
};
use crate::kzg::{
    account_limbs, all_funding_limbs, be_values_are_distinct, blob_data_hashed, challenge_limbs,
    challenge_value, chunk_end, chunk_values, delta_point_drawn, funding_limbs, lemma_bytes_bound,
    market_limbs, reserved_limbs, versioned, MarketLimbs,
};
use crate::digest::sha256_of;
use crate::leaf_binding::{lemma_flat_len, lemma_flat_parts, lemma_split};
use vstd::arithmetic::power::*;
use vstd::prelude::*;

verus! {

proof fn lemma_chunk_count(a: Seq<u8>, b: Seq<u8>, from: int, end: int, size: int)
    requires
        0 <= from,
        size > 0,
    ensures
        chunk_values(a, from, end, size).len() == chunk_values(b, from, end, size).len(),
    decreases end - from,
{
    if from < end {
        lemma_chunk_count(a, b, chunk_end(from, size, end), end, size);
    }
}

/// Bytes are determined by the numbers that their chunks stand for.
proof fn lemma_chunks_bind(a: Seq<u8>, b: Seq<u8>, from: int, end: int, size: int)
    requires
        0 <= from <= end <= a.len(),
        a.len() == b.len(),
        0 < size <= 8,
        chunk_values(a, from, end, size) == chunk_values(b, from, end, size),
    ensures
        a.subrange(from, end) == b.subrange(from, end),
    decreases end - from,
{
    if from < end {
        let stop = chunk_end(from, size, end);
        let (x, y) = (a.subrange(from, stop), b.subrange(from, stop));
        let (u, v) = (chunk_values(a, stop, end, size), chunk_values(b, stop, end, size));
        lemma_chunk_count(a, b, stop, end, size);
        lemma_split(seq![be_value(x) as u64], u, seq![be_value(y) as u64], v);
        assert(seq![be_value(x) as u64][0] == seq![be_value(y) as u64][0]);
        lemma_bytes_bound(x);
        lemma_bytes_bound(y);
        lemma_pow_increases(256, x.len(), 8);
        assert(pow(256, 8) == 0x1_0000_0000_0000_0000) by {
            reveal_with_fuel(pow, 9);
        }
        be_values_are_distinct(x, y);
        lemma_chunks_bind(a, b, stop, end, size);
        assert(a.subrange(from, end) =~= x + a.subrange(stop, end));
        assert(b.subrange(from, end) =~= y + b.subrange(stop, end));
    } else {
        assert(a.subrange(from, end) =~= b.subrange(from, end));
    }
}

spec fn funding_parts(m: Seq<MarketLimbs>) -> Seq<Seq<u64>> {
    m.map_values(|x: MarketLimbs| funding_limbs(x))
}

proof fn lemma_fundings(m: Seq<MarketLimbs>)
    ensures
        all_funding_limbs(m) == flat(funding_parts(m)),
    decreases m.len(),
{
    if m.len() > 0 {
        lemma_fundings(m.drop_last());
        assert(funding_parts(m).drop_last() =~= funding_parts(m.drop_last()));
    }
}

proof fn lemma_market_binds(a: Seq<MarketLimbs>, b: Seq<MarketLimbs>)
    requires
        a.len() == b.len(),
        market_limbs(a) == market_limbs(b),
    ensures
        a == b,
{
    lemma_fundings(a);
    lemma_fundings(b);
    lemma_flat_len(funding_parts(a), 3);
    lemma_flat_len(funding_parts(b), 3);
    let (pa, pb) = (
        a.map_values(|m: MarketLimbs| m.mark_price),
        b.map_values(|m: MarketLimbs| m.mark_price),
    );
    let (qa, qb) = (
        a.map_values(|m: MarketLimbs| m.quote_multiplier),
        b.map_values(|m: MarketLimbs| m.quote_multiplier),
    );
    let (fa, fb) = (all_funding_limbs(a), all_funding_limbs(b));
    lemma_split(pa + fa, qa, pb + fb, qb);
    lemma_split(pa, fa, pb, fb);
    assert forall|i: int| 0 <= i < a.len() implies a[i] == b[i] by {
        lemma_flat_parts(funding_parts(a), funding_parts(b), 3, i);
        let (u, v) = (funding_limbs(a[i]), funding_limbs(b[i]));
        assert(funding_parts(a)[i] == u && funding_parts(b)[i] == v);
        assert(u[0] == v[0] && u[1] == v[1] && u[2] == v[2]);
        assert(pa[i] == a[i].mark_price && pb[i] == b[i].mark_price);
        assert(qa[i] == a[i].quote_multiplier && qb[i] == b[i].quote_multiplier);
    }
    assert(a =~= b);
}

/// The digest of a blob's data stands for one version and one run of reserved bytes,
/// one list of market slots and one root of account deltas, where the sponge and the
/// compression tell their inputs apart.
pub proof fn blob_data_binds<H: Fn(&Vec<u64>) -> HashOut, T: Fn(HashOut, HashOut) -> HashOut>(
    h: H,
    t: T,
    a: Seq<u8>,
    b: Seq<u8>,
    market_a: Seq<MarketLimbs>,
    market_b: Seq<MarketLimbs>,
    root_a: HashOut,
    root_b: HashOut,
    out: HashOut,
)
    requires
        injective_sponge(h),
        injective(t),
        a.len() == b.len() == 126_976,
        market_a.len() == market_b.len(),
        blob_data_hashed(h, t, a, market_a, root_a, out),
        blob_data_hashed(h, t, b, market_b, root_b, out),
    ensures
        a.take(34) == b.take(
            34,
        ),
        market_a == market_b,
        root_a == root_b,
{
    let (ra, pa, ba) = choose|reserved: HashOut, prices: HashOut, both: HashOut|
        #![trigger compresses(t, reserved, prices, both)]
        {
            &&& hashed(h, reserved_limbs(a), reserved)
            &&& hashed(h, market_limbs(market_a), prices)
            &&& compresses(t, reserved, prices, both)
            &&& compresses(t, both, root_a, out)
        };
    let (rb, pb, bb) = choose|reserved: HashOut, prices: HashOut, both: HashOut|
        #![trigger compresses(t, reserved, prices, both)]
        {
            &&& hashed(h, reserved_limbs(b), reserved)
            &&& hashed(h, market_limbs(market_b), prices)
            &&& compresses(t, reserved, prices, both)
            &&& compresses(t, both, root_b, out)
        };
    assert(ba == bb && root_a == root_b);
    assert(ra == rb && pa == pb);
    lemma_market_binds(market_a, market_b);
    let (v, r, m) = (
        crate::blob_encode::BLOB_VERSION_INDEX as int,
        crate::blob_encode::BLOB_RESERVED_INDEX as int,
        crate::blob_encode::BLOB_MARK_PRICE_INDEX as int,
    );
    lemma_chunk_count(a, b, v, r, 2);
    lemma_split(
        chunk_values(a, v, r, 2),
        chunk_values(a, r, m, 4),
        chunk_values(b, v, r, 2),
        chunk_values(b, r, m, 4),
    );
    lemma_chunks_bind(a, b, v, r, 2);
    lemma_chunks_bind(a, b, r, m, 4);
    assert(a.take(m) =~= a.subrange(v, r) + a.subrange(r, m));
    assert(b.take(m) =~= b.subrange(v, r) + b.subrange(r, m));
}

/// What the opening point is drawn from stands for one digest of the blob's data and
/// one versioned hash, all of its bytes, and different digests of it are different
/// numbers.
pub proof fn opening_points_bind(
    a: HashOut,
    b: HashOut,
    versioned_a: Seq<u8>,
    versioned_b: Seq<u8>,
)
    ensures
        challenge_limbs(a, versioned_a) == challenge_limbs(b, versioned_b) ==> a == b && versioned_a
            == versioned_b,
        challenge_value(a) == challenge_value(b) ==> a == b,
        0 <= challenge_value(a),
{
    let (x, y) = (
        versioned_a.map_values(|b: u8| b as u64),
        versioned_b.map_values(|b: u8| b as u64),
    );
    if challenge_limbs(a, versioned_a) == challenge_limbs(b, versioned_b) {
        lemma_split(a.elements(), x, b.elements(), y);
        elements_are_faithful(a, b);
        assert(versioned_a.len() == x.len() && versioned_b.len() == y.len());
        assert forall|i: int| 0 <= i < versioned_a.len() implies versioned_a[i] == versioned_b[i] by {
            assert(x[i] == versioned_a[i] as u64 && y[i] == versioned_b[i] as u64);
        }
        assert(versioned_a =~= versioned_b);
    }
}

/// The point for the aggregated delta stands for all account bytes of one blob, and
/// one root of account deltas.
pub proof fn delta_points_bind<H: Fn(&Vec<u64>) -> HashOut, T: Fn(HashOut, HashOut) -> HashOut>(
    h: H,
    t: T,
    a: Seq<u8>,
    b: Seq<u8>,
    root_a: HashOut,
    root_b: HashOut,
    out: HashOut,
)
    requires
        injective_sponge(h),
        injective(t),
        a.len() == b.len() == 126_976,
        delta_point_drawn(h, t, a, root_a, out),
        delta_point_drawn(h, t, b, root_b, out),
    ensures
        a.skip(3_859) == b.skip(
            3_859,
        ),
        root_a == root_b,
{
    let la = choose|leaves: HashOut| #[trigger]
        hashed(h, account_limbs(a), leaves) && compresses(t, leaves, root_a, out);
    let lb = choose|leaves: HashOut| #[trigger]
        hashed(h, account_limbs(b), leaves) && compresses(t, leaves, root_b, out);
    assert(la == lb);
    let o = crate::blob_encode::BLOB_ACCOUNT_OFFSET as int;
    lemma_chunks_bind(a, b, o, 126_976, 7);
    assert(a.skip(o) =~= a.subrange(o, 126_976));
    assert(b.skip(o) =~= b.subrange(o, 126_976));
}

/// A versioned hash is a SHA-256 digest but for its first byte, which is 1.
pub proof fn versioned_hashes_keep_the_digest(commitment: Seq<u8>, i: int)
    requires
        sha256_of(commitment).len() == 32,
        0 <= i < 32,
    ensures
        versioned(commitment).len() == 32,
        versioned(commitment)[i] == if i == 0 {
            1u8
        } else {
            sha256_of(commitment)[i]
        },
{
}

} // verus!
