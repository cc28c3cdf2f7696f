//! What a leaf says of the value behind it: values with the same leaf are the same in
//! every field that the leaf stands for.

use crate::account_family_native::{
    all_params, all_pub_params, bucket_at, bucket_hashed, buckets_hashed, extended, flat, limbs16,
    limbs16_are_faithful, limbs32, limbs32_are_faithful, sign_element, signed16, signed32,
    signed_element, Account, AccountDelta, Market, PendingUnlock, PositionView,
    Protocol, PublicPoolShare, PublicPoolShareDelta, TwoHashes,
};
use crate::big::{trimmed_digits, SignedBig, SignedView};
use crate::hash::{
    elements_are_faithful, hashed, injective_sponge, never_zero, zero_hash, HashOut,
};
use vstd::prelude::*;

verus! {

pub(crate) proof fn lemma_split<T>(x: Seq<T>, y: Seq<T>, u: Seq<T>, v: Seq<T>)
    requires
        x.len() == u.len() || y.len() == v.len(),
        x + y == u + v,
    ensures
        x == u,
        y == v,
{
    assert((x + y).len() == (u + v).len());
    assert(x =~= (x + y).subrange(0, x.len() as int));
    assert(u =~= (u + v).subrange(0, u.len() as int));
    assert(y =~= (x + y).subrange(x.len() as int, (x + y).len() as int));
    assert(v =~= (u + v).subrange(u.len() as int, (u + v).len() as int));
}

pub(crate) proof fn lemma_flat_len(parts: Seq<Seq<u64>>, k: nat)
    requires
        forall|i: int| 0 <= i < parts.len() ==> (#[trigger] parts[i]).len() == k,
    ensures
        flat(parts).len() == k * parts.len(),
    decreases parts.len(),
{
    if parts.len() > 0 {
        let n = parts.len();
        assert(parts[n - 1].len() == k);
        lemma_flat_len(parts.drop_last(), k);
        assert(k * n == k * (n - 1) + k) by (nonlinear_arith);
    } else {
        assert(k * 0 == 0);
    }
}

/// Parts of one length are determined by what they are one after the other.
pub(crate) proof fn lemma_flat_parts(a: Seq<Seq<u64>>, b: Seq<Seq<u64>>, k: nat, i: int)
    requires
        a.len() == b.len(),
        forall|j: int| 0 <= j < a.len() ==> (#[trigger] a[j]).len() == k,
        forall|j: int| 0 <= j < b.len() ==> (#[trigger] b[j]).len() == k,
        flat(a) == flat(b),
        0 <= i < a.len(),
    ensures
        a[i] == b[i],
    decreases a.len(),
{
    let n = a.len() - 1;
    assert(a[n].len() == k && b[n].len() == k);
    lemma_split(flat(a.drop_last()), a.last(), flat(b.drop_last()), b.last());
    if i < n {
        lemma_flat_parts(a.drop_last(), b.drop_last(), k, i);
        assert(a.drop_last()[i] == a[i] && b.drop_last()[i] == b[i]);
    }
}

/// Whether a number is spelled without leading zeros, and only zero has no sign.
pub open spec fn tidy(v: SignedView) -> bool {
    &&& -1 <= v.sign <= 1
    &&& v.sign == 0 <==> v.digits.len() == 0
    &&& trimmed_digits(v.digits)
}

proof fn lemma_signed32(a: SignedView, b: SignedView, n: nat)
    requires
        tidy(a),
        tidy(b),
        a.digits.len() <= n,
        b.digits.len() <= n,
        signed32(a, n) == signed32(b, n),
    ensures
        a == b,
{
    assert(signed32(a, n)[n as int] == sign_element(a.sign));
    assert(signed32(b, n)[n as int] == sign_element(b.sign));
    assert(limbs32(a.digits, n) =~= signed32(a, n).drop_last());
    assert(limbs32(b.digits, n) =~= signed32(b, n).drop_last());
    limbs32_are_faithful(a.digits, b.digits, n);
}

proof fn lemma_signed16(a: SignedView, b: SignedView, n: nat)
    requires
        tidy(a),
        tidy(b),
        2 * a.digits.len() <= n,
        2 * b.digits.len() <= n,
        signed16(a, n) == signed16(b, n),
    ensures
        a == b,
{
    assert(signed16(a, n)[n as int] == sign_element(a.sign));
    assert(signed16(b, n)[n as int] == sign_element(b.sign));
    assert(limbs16(a.digits, n) =~= signed16(a, n).drop_last());
    assert(limbs16(b.digits, n) =~= signed16(b, n).drop_last());
    limbs16_are_faithful(a.digits, b.digits, n);
}

/// Whether the numbers of a position are spelled in one way only.
pub open spec fn tidy_position(p: PositionView) -> bool {
    &&& p.fits()
    &&& tidy(p.last_funding_rate_prefix_sum)
    &&& tidy(p.position)
    &&& tidy(p.allocated_margin)
}

proof fn lemma_pub_params(a: PositionView, b: PositionView)
    requires
        tidy_position(a),
        tidy_position(b),
        a.pub_params() == b.pub_params(),
    ensures
        a.last_funding_rate_prefix_sum == b.last_funding_rate_prefix_sum,
        a.position == b.position,
{
    lemma_split(
        signed16(a.last_funding_rate_prefix_sum, 4),
        signed16(a.position, 4),
        signed16(b.last_funding_rate_prefix_sum, 4),
        signed16(b.position, 4),
    );
    lemma_signed16(a.last_funding_rate_prefix_sum, b.last_funding_rate_prefix_sum, 4);
    lemma_signed16(a.position, b.position, 4);
}

proof fn lemma_params(a: PositionView, b: PositionView)
    requires
        tidy_position(a),
        tidy_position(b),
        a.params() == b.params(),
    ensures
        a.allocated_margin == b.allocated_margin,
        a.margin_mode == b.margin_mode,
        a.entry_quote == b.entry_quote,
        a.initial_margin_fraction == b.initial_margin_fraction,
        a.total_order_count == b.total_order_count,
        a.total_position_tied_order_count == b.total_position_tied_order_count,
{
    let (x, y) = (a.params(), b.params());
    assert(signed32(a.allocated_margin, 3) =~= x.subrange(0, 4));
    assert(signed32(b.allocated_margin, 3) =~= y.subrange(0, 4));
    lemma_signed32(a.allocated_margin, b.allocated_margin, 3);
    assert(x[4] == a.margin_mode as u64 && y[4] == b.margin_mode as u64);
    assert(x[5] == a.entry_quote as u64 && y[5] == b.entry_quote as u64);
    assert(x[6] == a.initial_margin_fraction as u64 && y[6] == b.initial_margin_fraction as u64);
    assert(x[7] == a.total_order_count as u64 && y[7] == b.total_order_count as u64);
    assert(x[8] == a.total_position_tied_order_count as u64);
    assert(y[8] == b.total_position_tied_order_count as u64);
}

spec fn params_parts(ps: Seq<PositionView>) -> Seq<Seq<u64>> {
    ps.map_values(|p: PositionView| p.params())
}

spec fn pub_params_parts(ps: Seq<PositionView>) -> Seq<Seq<u64>> {
    ps.map_values(|p: PositionView| p.pub_params())
}

proof fn lemma_all_params(ps: Seq<PositionView>)
    ensures
        all_params(ps) == flat(params_parts(ps)),
        all_pub_params(ps) == flat(pub_params_parts(ps)),
    decreases ps.len(),
{
    if ps.len() > 0 {
        lemma_all_params(ps.drop_last());
        assert(params_parts(ps).drop_last() =~= params_parts(ps.drop_last()));
        assert(pub_params_parts(ps).drop_last() =~= pub_params_parts(ps.drop_last()));
    }
}

/// Buckets with the same public digest hold the same public data.
proof fn lemma_bucket_pub(a: Seq<PositionView>, b: Seq<PositionView>, i: int)
    requires
        a.len() == b.len(),
        all_pub_params(a) == all_pub_params(b),
        0 <= i < a.len(),
        forall|j: int| 0 <= j < a.len() ==> tidy_position(#[trigger] a[j]),
        forall|j: int| 0 <= j < b.len() ==> tidy_position(#[trigger] b[j]),
    ensures
        a[i].last_funding_rate_prefix_sum == b[i].last_funding_rate_prefix_sum,
        a[i].position == b[i].position,
{
    lemma_all_params(a);
    lemma_all_params(b);
    lemma_flat_parts(pub_params_parts(a), pub_params_parts(b), 10, i);
    assert(tidy_position(a[i]) && tidy_position(b[i]));
    lemma_pub_params(a[i], b[i]);
}

proof fn lemma_bucket_rest(a: Seq<PositionView>, b: Seq<PositionView>, i: int)
    requires
        a.len() == b.len(),
        all_params(a) == all_params(b),
        0 <= i < a.len(),
        forall|j: int| 0 <= j < a.len() ==> tidy_position(#[trigger] a[j]),
        forall|j: int| 0 <= j < b.len() ==> tidy_position(#[trigger] b[j]),
    ensures
        a[i].allocated_margin == b[i].allocated_margin,
        a[i].margin_mode == b[i].margin_mode,
        a[i].entry_quote == b[i].entry_quote,
        a[i].initial_margin_fraction == b[i].initial_margin_fraction,
        a[i].total_order_count == b[i].total_order_count,
        a[i].total_position_tied_order_count == b[i].total_position_tied_order_count,
{
    lemma_all_params(a);
    lemma_all_params(b);
    lemma_flat_parts(params_parts(a), params_parts(b), 9, i);
    assert(tidy_position(a[i]) && tidy_position(b[i]));
    lemma_params(a[i], b[i]);
}

/// The bucket and the place in it of position `j`.
proof fn lemma_place(n: int, size: int, count: int, j: int) -> (at: (int, int))
    requires
        size > 0,
        size * (count - 1) < n <= size * count,
        0 <= j < n,
    ensures
        0 <= at.0 < count,
        0 <= at.1 < size,
        size * at.0 + at.1 == j,
{
    vstd::arithmetic::div_mod::lemma_fundamental_div_mod(j, size);
    vstd::arithmetic::div_mod::lemma_mod_bound(j, size);
    let i = j / size;
    assert(0 <= i < count) by (nonlinear_arith)
        requires
            size > 0,
            j == size * i + j % size,
            0 <= j % size < size,
            0 <= j < size * count,
    ;
    (i, j % size)
}

/// Position lists whose buckets have the same public digests hold the same public
/// data; with the same full digests, they are the same.
proof fn lemma_buckets<H: Fn(&Vec<u64>) -> HashOut>(
    h: H,
    a: Seq<PositionView>,
    b: Seq<PositionView>,
    size: int,
    x: Seq<TwoHashes>,
    y: Seq<TwoHashes>,
    j: int,
)
    requires
        injective_sponge(h),
        size > 0,
        a.len() == b.len(),
        buckets_hashed(h, a, size, x),
        buckets_hashed(h, b, size, y),
        forall|i: int| 0 <= i < a.len() ==> tidy_position(#[trigger] a[i]),
        forall|i: int| 0 <= i < b.len() ==> tidy_position(#[trigger] b[i]),
        0 <= j < a.len(),
    ensures
        x.len() == y.len(),
        (forall|i: int| 0 <= i < x.len() ==> (#[trigger] x[i]).pub_data == y[i].pub_data)
            ==> a[j].last_funding_rate_prefix_sum == b[j].last_funding_rate_prefix_sum
            && a[j].position == b[j].position,
        (forall|i: int| 0 <= i < x.len() ==> (#[trigger] x[i]).full == y[i].full) ==> a[j] == b[j],
{
    let (m, n) = (x.len() as int, y.len() as int);
    assert(m == n) by (nonlinear_arith)
        requires
            size > 0,
            size * (m - 1) < a.len() <= size * m,
            size * (n - 1) < a.len() <= size * n,
    ;
    let (i, o) = lemma_place(a.len() as int, size, m, j);
    let (p, q) = (bucket_at(a, size * i, size), bucket_at(b, size * i, size));
    assert(size * i >= 0) by (nonlinear_arith)
        requires
            size > 0,
            i >= 0,
    ;
    assert(size * i <= size * (m - 1)) by (nonlinear_arith)
        requires
            size > 0,
            i <= m - 1,
    ;
    assert(bucket_hashed(h, p, x[i]));
    assert(bucket_hashed(h, q, y[i]));
    assert(p.len() == q.len());
    assert(p[o] == a[j] && q[o] == b[j]);
    assert forall|k: int| 0 <= k < p.len() implies tidy_position(#[trigger] p[k]) by {
        assert(p[k] == a[size * i + k]);
    }
    assert forall|k: int| 0 <= k < q.len() implies tidy_position(#[trigger] q[k]) by {
        assert(q[k] == b[size * i + k]);
    }
    if forall|k: int| 0 <= k < x.len() ==> (#[trigger] x[k]).pub_data == y[k].pub_data {
        assert(x[i].pub_data == y[i].pub_data);
        lemma_bucket_pub(p, q, o);
    }
    if forall|k: int| 0 <= k < x.len() ==> (#[trigger] x[k]).full == y[k].full {
        assert(x[i].full == y[i].full);
        lemma_split(
            x[i].pub_data.elements(),
            all_params(p),
            y[i].pub_data.elements(),
            all_params(q),
        );
        elements_are_faithful(x[i].pub_data, y[i].pub_data);
        lemma_bucket_pub(p, q, o);
        lemma_bucket_rest(p, q, o);
    }
}

/// Whether every number of an account is spelled in one way only.
pub open spec fn tidy_account(a: Account) -> bool {
    &&& a.fits()
    &&& trimmed_digits(a.l1_address@)
    &&& tidy(a.collateral@)
    &&& forall|i: int| 0 <= i < a.positions@.len() ==> tidy_position((#[trigger] a.positions@[i])@)
    &&& forall|i: int|
        0 <= i < a.public_pool_info.strategies@.len() ==> tidy(
            (#[trigger] a.public_pool_info.strategies@[i])@,
        )
    &&& forall|i: int|
        0 <= i < a.pending_unlocks@.len() ==> trimmed_digits(
            (#[trigger] a.pending_unlocks@[i]).amount@,
        )
}

/// Whether two accounts have lists of the same lengths, as all accounts do.
pub open spec fn same_shape(a: Account, b: Account) -> bool {
    &&& a.positions@.len() == b.positions@.len()
    &&& a.public_pool_shares@.len() == b.public_pool_shares@.len()
    &&& a.public_pool_info.strategies@.len() == b.public_pool_info.strategies@.len()
    &&& a.pending_unlocks@.len() == b.pending_unlocks@.len()
}

/// Whether two accounts agree in all that is public of them but their balances.
pub open spec fn same_pub_holdings(a: Account, b: Account) -> bool {
    &&& forall|i: int|
        0 <= i < a.positions@.len() ==> (#[trigger] a.positions@[i])@.position
            == b.positions@[i]@.position && a.positions@[i]@.last_funding_rate_prefix_sum
            == b.positions@[i]@.last_funding_rate_prefix_sum
    &&& forall|i: int|
        0 <= i < a.public_pool_shares@.len() ==> (#[trigger] a.public_pool_shares@[i]).share_amount
            == b.public_pool_shares@[i].share_amount && a.public_pool_shares@[i].public_pool_index
            == b.public_pool_shares@[i].public_pool_index
    &&& a.public_pool_info.total_shares == b.public_pool_info.total_shares
    &&& a.public_pool_info.operator_shares == b.public_pool_info.operator_shares
}

/// Whether two accounts agree in all that their leaf stands for.
pub open spec fn same_account(a: Account, b: Account) -> bool {
    &&& same_pub_holdings(a, b)
    &&& forall|i: int|
        0 <= i < a.positions@.len() ==> (#[trigger] a.positions@[i])@ == b.positions@[i]@
    &&& forall|i: int|
        0 <= i < a.public_pool_shares@.len() ==> #[trigger] a.public_pool_shares@[i]
            == b.public_pool_shares@[i]
    &&& a.public_pool_info.status == b.public_pool_info.status
    &&& a.public_pool_info.operator_fee == b.public_pool_info.operator_fee
    &&& a.public_pool_info.min_operator_share_rate == b.public_pool_info.min_operator_share_rate
    &&& forall|i: int|
        0 <= i < a.public_pool_info.strategies@.len() ==> (
        #[trigger] a.public_pool_info.strategies@[i])@ == b.public_pool_info.strategies@[i]@
    &&& forall|i: int|
        0 <= i < a.pending_unlocks@.len() ==> (#[trigger] a.pending_unlocks@[i]).unlock_timestamp
            == b.pending_unlocks@[i].unlock_timestamp && a.pending_unlocks@[i].asset_index
            == b.pending_unlocks@[i].asset_index && a.pending_unlocks@[i].amount@
            == b.pending_unlocks@[i].amount@
    &&& a.master_account_index == b.master_account_index
    &&& a.account_type == b.account_type
    &&& a.account_trading_mode == b.account_trading_mode
    &&& a.l1_address@ == b.l1_address@
    &&& a.collateral@ == b.collateral@
    &&& a.total_order_count == b.total_order_count
    &&& a.total_non_cross_order_count == b.total_non_cross_order_count
    &&& a.cancel_all_time == b.cancel_all_time
    &&& a.api_key_root == b.api_key_root
    &&& a.account_orders_root == b.account_orders_root
    &&& a.asset_root == b.asset_root
}

spec fn tidy_ext(a: Account) -> bool {
    forall|i: int|
        0 <= i < extended(a.positions@).len() ==> tidy_position(#[trigger] extended(a.positions@)[i])
}

proof fn lemma_tidy_ext(a: Account)
    requires
        tidy_account(a),
    ensures
        tidy_ext(a),
        extended(a.positions@).len() == a.positions@.len() + 1,
        forall|i: int|
            0 <= i < a.positions@.len() ==> (#[trigger] a.positions@[i])@ == extended(a.positions@)[i],
{
    let e = extended(a.positions@);
    assert forall|i: int| 0 <= i < e.len() implies tidy_position(#[trigger] e[i]) by {
        if i < a.positions@.len() {
            assert(tidy_position(a.positions@[i]@));
        }
    }
}

spec fn pub_share_parts(a: Account) -> Seq<Seq<u64>> {
    a.public_pool_shares@.map_values(|s: PublicPoolShare| s.pub_params())
}

spec fn share_parts(a: Account) -> Seq<Seq<u64>> {
    a.public_pool_shares@.map_values(|s: PublicPoolShare| s.params())
}

spec fn unlock_parts(a: Account) -> Seq<Seq<u64>> {
    a.pending_unlocks@.map_values(|u: PendingUnlock| u.params())
}

spec fn strategy_parts(a: Account) -> Seq<Seq<u64>> {
    a.public_pool_info.strategies@.map_values(|s: SignedBig| signed32(s@, 3))
}

spec fn pub_digests(x: Seq<TwoHashes>) -> Seq<Seq<u64>> {
    x.map_values(|b: TwoHashes| b.pub_data.elements())
}

spec fn full_digests(x: Seq<TwoHashes>) -> Seq<Seq<u64>> {
    x.map_values(|b: TwoHashes| b.full.elements())
}

/// The same partial public digest stands for the same public holdings.
proof fn lemma_pub_partial<H: Fn(&Vec<u64>) -> HashOut>(
    h: H,
    size: int,
    a: Account,
    b: Account,
    x: Seq<TwoHashes>,
    y: Seq<TwoHashes>,
    out: HashOut,
)
    requires
        injective_sponge(h),
        size > 0,
        tidy_account(a),
        tidy_account(b),
        same_shape(a, b),
        buckets_hashed(h, extended(a.positions@), size, x),
        buckets_hashed(h, extended(b.positions@), size, y),
        hashed(h, flat(pub_digests(x)) + a.pool_pub_params(), out),
        hashed(h, flat(pub_digests(y)) + b.pool_pub_params(), out),
    ensures
        same_pub_holdings(a, b),
        x.len() == y.len(),
{
    lemma_tidy_ext(a);
    lemma_tidy_ext(b);
    let (ea, eb) = (extended(a.positions@), extended(b.positions@));
    lemma_buckets(h, ea, eb, size, x, y, 0);
    lemma_flat_len(pub_digests(x), 4);
    lemma_flat_len(pub_digests(y), 4);
    lemma_split(
        flat(pub_digests(x)),
        a.pool_pub_params(),
        flat(pub_digests(y)),
        b.pool_pub_params(),
    );
    assert forall|i: int| 0 <= i < x.len() implies (#[trigger] x[i]).pub_data == y[i].pub_data by {
        lemma_flat_parts(pub_digests(x), pub_digests(y), 4, i);
        assert(pub_digests(x)[i] == x[i].pub_data.elements());
        assert(pub_digests(y)[i] == y[i].pub_data.elements());
        elements_are_faithful(x[i].pub_data, y[i].pub_data);
    }
    assert forall|i: int| 0 <= i < a.positions@.len() implies (#[trigger] a.positions@[i])@.position
        == b.positions@[i]@.position && a.positions@[i]@.last_funding_rate_prefix_sum
        == b.positions@[i]@.last_funding_rate_prefix_sum by {
        lemma_buckets(h, ea, eb, size, x, y, i);
        assert(a.positions@[i]@ == ea[i] && b.positions@[i]@ == eb[i]);
    }
    let (sa, sb) = (flat(pub_share_parts(a)), flat(pub_share_parts(b)));
    let ta = seq![
        a.public_pool_info.total_shares as u64,
        a.public_pool_info.operator_shares as u64,
    ];
    let tb = seq![
        b.public_pool_info.total_shares as u64,
        b.public_pool_info.operator_shares as u64,
    ];
    assert(a.pool_pub_params() == sa + ta);
    assert(b.pool_pub_params() == sb + tb);
    lemma_split(sa, ta, sb, tb);
    assert(ta[0] == tb[0] && ta[1] == tb[1]);
    assert forall|i: int| 0 <= i < a.public_pool_shares@.len() implies (
    #[trigger] a.public_pool_shares@[i]).share_amount == b.public_pool_shares@[i].share_amount
        && a.public_pool_shares@[i].public_pool_index == b.public_pool_shares@[i].public_pool_index by {
        lemma_flat_parts(pub_share_parts(a), pub_share_parts(b), 2, i);
        let (u, v) = (pub_share_parts(a)[i], pub_share_parts(b)[i]);
        assert(u[0] == v[0] && u[1] == v[1]);
        assert(a.public_pool_shares@[i].fits() && b.public_pool_shares@[i].fits());
    }
}

/// The same partial digest stands for the same holdings.
proof fn lemma_full_partial<H: Fn(&Vec<u64>) -> HashOut>(
    h: H,
    size: int,
    a: Account,
    b: Account,
    x: Seq<TwoHashes>,
    y: Seq<TwoHashes>,
    p: TwoHashes,
    q: TwoHashes,
)
    requires
        injective_sponge(h),
        size > 0,
        tidy_account(a),
        tidy_account(b),
        same_shape(a, b),
        buckets_hashed(h, extended(a.positions@), size, x),
        buckets_hashed(h, extended(b.positions@), size, y),
        a.partially_hashed(h, x, p),
        b.partially_hashed(h, y, q),
        p.full == q.full,
    ensures
        same_pub_holdings(a, b),
        forall|i: int|
            0 <= i < a.positions@.len() ==> (#[trigger] a.positions@[i])@ == b.positions@[i]@,
        forall|i: int|
            0 <= i < a.public_pool_shares@.len() ==> #[trigger] a.public_pool_shares@[i]
                == b.public_pool_shares@[i],
        a.public_pool_info.status == b.public_pool_info.status,
        a.public_pool_info.operator_fee == b.public_pool_info.operator_fee,
        a.public_pool_info.min_operator_share_rate == b.public_pool_info.min_operator_share_rate,
        forall|i: int|
            0 <= i < a.pending_unlocks@.len() ==> (#[trigger] a.pending_unlocks@[i]).unlock_timestamp
                == b.pending_unlocks@[i].unlock_timestamp && a.pending_unlocks@[i].asset_index
                == b.pending_unlocks@[i].asset_index && a.pending_unlocks@[i].amount@
                == b.pending_unlocks@[i].amount@,
{
    lemma_tidy_ext(a);
    lemma_tidy_ext(b);
    let (ea, eb) = (extended(a.positions@), extended(b.positions@));
    lemma_buckets(h, ea, eb, size, x, y, 0);
    let (fx, fy) = (flat(full_digests(x)), flat(full_digests(y)));
    lemma_flat_len(full_digests(x), 4);
    lemma_flat_len(full_digests(y), 4);
    lemma_flat_len(share_parts(a), 2);
    lemma_flat_len(share_parts(b), 2);
    let ua = choose|u: HashOut| #[trigger]
        hashed(h, a.unlock_params(), u) && hashed(
            h,
            p.pub_data.elements() + fx + a.pool_params() + u.elements(),
            p.full,
        );
    let ub = choose|u: HashOut| #[trigger]
        hashed(h, b.unlock_params(), u) && hashed(
            h,
            q.pub_data.elements() + fy + b.pool_params() + u.elements(),
            q.full,
        );
    let (pa, pb) = (p.pub_data.elements(), q.pub_data.elements());
    lemma_split(
        pa + fx + a.pool_params(),
        ua.elements(),
        pb + fy + b.pool_params(),
        ub.elements(),
    );
    lemma_split(pa + fx, a.pool_params(), pb + fy, b.pool_params());
    lemma_split(pa, fx, pb, fy);
    elements_are_faithful(p.pub_data, q.pub_data);
    elements_are_faithful(ua, ub);
    lemma_pub_partial(h, size, a, b, x, y, p.pub_data);
    assert forall|i: int| 0 <= i < x.len() implies (#[trigger] x[i]).full == y[i].full by {
        lemma_flat_parts(full_digests(x), full_digests(y), 4, i);
        assert(full_digests(x)[i] == x[i].full.elements());
        assert(full_digests(y)[i] == y[i].full.elements());
        elements_are_faithful(x[i].full, y[i].full);
    }
    assert forall|i: int| 0 <= i < a.positions@.len() implies (#[trigger] a.positions@[i])@
        == b.positions@[i]@ by {
        lemma_buckets(h, ea, eb, size, x, y, i);
        assert(a.positions@[i]@ == ea[i] && b.positions@[i]@ == eb[i]);
    }
    let (ra, rb) = (
        seq![
            a.public_pool_info.status as u64,
            a.public_pool_info.min_operator_share_rate as u64,
            a.public_pool_info.operator_fee as u64,
        ],
        seq![
            b.public_pool_info.status as u64,
            b.public_pool_info.min_operator_share_rate as u64,
            b.public_pool_info.operator_fee as u64,
        ],
    );
    assert(a.pool_params() == flat(share_parts(a)) + ra);
    assert(b.pool_params() == flat(share_parts(b)) + rb);
    lemma_split(flat(share_parts(a)), ra, flat(share_parts(b)), rb);
    assert(ra[0] == rb[0] && ra[1] == rb[1] && ra[2] == rb[2]);
    assert forall|i: int| 0 <= i < a.public_pool_shares@.len() implies
        #[trigger] a.public_pool_shares@[i] == b.public_pool_shares@[i] by {
        lemma_flat_parts(share_parts(a), share_parts(b), 2, i);
        let (u, v) = (share_parts(a)[i], share_parts(b)[i]);
        assert(u[0] == v[0] && u[1] == v[1]);
        assert(a.public_pool_shares@[i].fits() && b.public_pool_shares@[i].fits());
        assert(a.public_pool_shares@[i].share_amount == b.public_pool_shares@[i].share_amount);
    }
    assert(a.unlock_params() == flat(unlock_parts(a)));
    assert(b.unlock_params() == flat(unlock_parts(b)));
    assert forall|i: int| 0 <= i < a.pending_unlocks@.len() implies (
    #[trigger] a.pending_unlocks@[i]).unlock_timestamp == b.pending_unlocks@[i].unlock_timestamp
        && a.pending_unlocks@[i].asset_index == b.pending_unlocks@[i].asset_index
        && a.pending_unlocks@[i].amount@ == b.pending_unlocks@[i].amount@ by {
        lemma_flat_parts(unlock_parts(a), unlock_parts(b), 5, i);
        let (u, v) = (a.pending_unlocks@[i], b.pending_unlocks@[i]);
        assert(u.fits() && v.fits());
        assert(trimmed_digits(u.amount@) && trimmed_digits(v.amount@));
        assert(unlock_parts(a)[i] == u.params() && unlock_parts(b)[i] == v.params());
        assert(u.params()[0] == v.params()[0] && u.params()[1] == v.params()[1]);
        assert(limbs32(u.amount@, 3) =~= u.params().subrange(2, 5));
        assert(limbs32(v.amount@, 3) =~= v.params().subrange(2, 5));
        limbs32_are_faithful(u.amount@, v.amount@, 3);
    }
}

/// A leaf of the account tree stands for one account only: accounts with the same
/// leaf agree in every field that the leaf stands for, where the sponge tells its
/// inputs apart and gives no zeros.
pub proof fn account_leaves_bind<H: Fn(&Vec<u64>) -> HashOut>(
    h: H,
    p: Protocol,
    a: Account,
    b: Account,
    x: (HashOut, HashOut, bool),
    y: (HashOut, HashOut, bool),
)
    requires
        injective_sponge(h),
        never_zero(h),
        p.position_bucket_size > 0,
        tidy_account(a),
        tidy_account(b),
        same_shape(a, b),
        a.leaves_hashed(h, p, x),
        b.leaves_hashed(h, p, y),
        x.0 == y.0,
    ensures
        same_account(a, b),
{
    let size = p.position_bucket_size as int;
    let (ba, pa) = choose|buckets: Seq<TwoHashes>, partial: TwoHashes|
        {
            &&& buckets_hashed(h, extended(a.positions@), size, buckets)
            &&& #[trigger] a.partially_hashed(h, buckets, partial)
            &&& a.hashed_from_partial(h, p, partial, x)
        };
    let (bb, pb) = choose|buckets: Seq<TwoHashes>, partial: TwoHashes|
        {
            &&& buckets_hashed(h, extended(b.positions@), size, buckets)
            &&& #[trigger] b.partially_hashed(h, buckets, partial)
            &&& b.hashed_from_partial(h, p, partial, y)
        };
    let (sa, fa) = lemma_full_of(h, p, a, pa, x);
    let (sb, fb) = lemma_full_of(h, p, b, pb, y);
    assert(fa == fb);
    let (ea, eb) = (a.elements(pa, sa), b.elements(pb, sb));
    assert(ea == eb);
    lemma_account_elements(a, b, pa, pb, sa, sb);
    lemma_full_partial(h, size, a, b, ba, bb, pa, pb);
    assert(a.strategy_params() == flat(strategy_parts(a)));
    assert(b.strategy_params() == flat(strategy_parts(b)));
    assert forall|i: int| 0 <= i < a.public_pool_info.strategies@.len() implies (
    #[trigger] a.public_pool_info.strategies@[i])@ == b.public_pool_info.strategies@[i]@ by {
        lemma_flat_parts(strategy_parts(a), strategy_parts(b), 4, i);
        let (u, v) = (a.public_pool_info.strategies@[i], b.public_pool_info.strategies@[i]);
        assert(tidy(u@) && tidy(v@));
        assert(strategy_parts(a)[i] == signed32(u@, 3));
        assert(strategy_parts(b)[i] == signed32(v@, 3));
        lemma_signed32(u@, v@, 3);
    }
}

/// The digest of all of an account, which its leaf is unless the account is empty,
/// and that of its strategies.
proof fn lemma_full_of<H: Fn(&Vec<u64>) -> HashOut>(
    h: H,
    p: Protocol,
    a: Account,
    partial: TwoHashes,
    out: (HashOut, HashOut, bool),
) -> (r: (HashOut, HashOut))
    requires
        never_zero(h),
        a.hashed_from_partial(h, p, partial, out),
    ensures
        hashed(h, a.strategy_params(), r.0),
        hashed(h, a.elements(partial, r.0), r.1),
        r.1 != zero_hash(),
        out.0 == zero_hash() ==> r.1 == p.empty_account_hash,
        out.0 != zero_hash() ==> r.1 == out.0,
{
    let (s, f, q) = choose|strategies: HashOut, full: HashOut, pub_data: HashOut|
        {
            &&& hashed(h, a.strategy_params(), strategies)
            &&& #[trigger] hashed(h, a.elements(partial, strategies), full)
            &&& #[trigger] hashed(h, a.pub_elements(partial), pub_data)
            &&& out.2 == (full == p.empty_account_hash && a.account_index
                != p.treasury_account_index)
            &&& out.0 == crate::account_family_native::selected(out.2, full)
            &&& out.1 == crate::account_family_native::selected(out.2, pub_data)
        };
    (s, f)
}

proof fn lemma_account_elements(
    a: Account,
    b: Account,
    pa: TwoHashes,
    pb: TwoHashes,
    sa: HashOut,
    sb: HashOut,
)
    requires
        tidy_account(a),
        tidy_account(b),
        a.elements(pa, sa) == b.elements(pb, sb),
    ensures
        pa.full == pb.full,
        sa == sb,
        a.master_account_index == b.master_account_index,
        a.account_type == b.account_type,
        a.account_trading_mode == b.account_trading_mode,
        a.l1_address@ == b.l1_address@,
        a.collateral@ == b.collateral@,
        a.total_order_count == b.total_order_count,
        a.total_non_cross_order_count == b.total_non_cross_order_count,
        a.cancel_all_time == b.cancel_all_time,
        a.api_key_root == b.api_key_root,
        a.account_orders_root == b.account_orders_root,
        a.asset_root == b.asset_root,
{
    let (x, y) = (a.elements(pa, sa), b.elements(pb, sb));
    assert(pa.full.elements() =~= x.subrange(0, 4));
    assert(pb.full.elements() =~= y.subrange(0, 4));
    elements_are_faithful(pa.full, pb.full);
    assert(x[4] == a.master_account_index as u64 && y[4] == b.master_account_index as u64);
    assert(limbs32(a.l1_address@, 5) =~= x.subrange(5, 10));
    assert(limbs32(b.l1_address@, 5) =~= y.subrange(5, 10));
    limbs32_are_faithful(a.l1_address@, b.l1_address@, 5);
    assert(x[10] == a.account_type as u64 && y[10] == b.account_type as u64);
    assert(signed32(a.collateral@, 3) =~= x.subrange(11, 15));
    assert(signed32(b.collateral@, 3) =~= y.subrange(11, 15));
    lemma_signed32(a.collateral@, b.collateral@, 3);
    assert(sa.elements() =~= x.subrange(15, 19));
    assert(sb.elements() =~= y.subrange(15, 19));
    elements_are_faithful(sa, sb);
    assert(x[19] == a.total_order_count as u64 && y[19] == b.total_order_count as u64);
    assert(x[20] == a.total_non_cross_order_count as u64);
    assert(y[20] == b.total_non_cross_order_count as u64);
    assert(x[21] == a.cancel_all_time as u64 && y[21] == b.cancel_all_time as u64);
    assert(x[22] == a.account_trading_mode as u64 && y[22] == b.account_trading_mode as u64);
    assert(a.api_key_root.elements() =~= x.subrange(23, 27));
    assert(b.api_key_root.elements() =~= y.subrange(23, 27));
    elements_are_faithful(a.api_key_root, b.api_key_root);
    assert(a.account_orders_root.elements() =~= x.subrange(27, 31));
    assert(b.account_orders_root.elements() =~= y.subrange(27, 31));
    elements_are_faithful(a.account_orders_root, b.account_orders_root);
    assert(a.asset_root.elements() =~= x.subrange(31, 35));
    assert(b.asset_root.elements() =~= y.subrange(31, 35));
    elements_are_faithful(a.asset_root, b.asset_root);
}

/// A leaf of the public-account tree that is not the empty one stands for one account
/// only, as far as accounts are public.
pub proof fn account_pub_leaves_bind<H: Fn(&Vec<u64>) -> HashOut>(
    h: H,
    p: Protocol,
    a: Account,
    b: Account,
    x: (HashOut, HashOut, bool),
    y: (HashOut, HashOut, bool),
)
    requires
        injective_sponge(h),
        p.position_bucket_size > 0,
        tidy_account(a),
        tidy_account(b),
        same_shape(a, b),
        a.leaves_hashed(h, p, x),
        b.leaves_hashed(h, p, y),
        x.1 == y.1,
        x.1 != zero_hash(),
    ensures
        same_pub_holdings(a, b),
        a.l1_address@ == b.l1_address@,
        a.account_type == b.account_type,
        a.aggregated_balances_root == b.aggregated_balances_root,
{
    let size = p.position_bucket_size as int;
    let (ba, pa) = choose|buckets: Seq<TwoHashes>, partial: TwoHashes|
        {
            &&& buckets_hashed(h, extended(a.positions@), size, buckets)
            &&& #[trigger] a.partially_hashed(h, buckets, partial)
            &&& a.hashed_from_partial(h, p, partial, x)
        };
    let (bb, pb) = choose|buckets: Seq<TwoHashes>, partial: TwoHashes|
        {
            &&& buckets_hashed(h, extended(b.positions@), size, buckets)
            &&& #[trigger] b.partially_hashed(h, buckets, partial)
            &&& b.hashed_from_partial(h, p, partial, y)
        };
    assert(hashed(h, a.pub_elements(pa), x.1));
    assert(hashed(h, b.pub_elements(pb), y.1));
    let (u, v) = (a.pub_elements(pa), b.pub_elements(pb));
    assert(pa.pub_data.elements() =~= u.subrange(0, 4));
    assert(pb.pub_data.elements() =~= v.subrange(0, 4));
    elements_are_faithful(pa.pub_data, pb.pub_data);
    assert(limbs32(a.l1_address@, 5) =~= u.subrange(4, 9));
    assert(limbs32(b.l1_address@, 5) =~= v.subrange(4, 9));
    limbs32_are_faithful(a.l1_address@, b.l1_address@, 5);
    assert(u[9] == a.account_type as u64 && v[9] == b.account_type as u64);
    assert(a.aggregated_balances_root.elements() =~= u.subrange(10, 14));
    assert(b.aggregated_balances_root.elements() =~= v.subrange(10, 14));
    elements_are_faithful(a.aggregated_balances_root, b.aggregated_balances_root);
    lemma_pub_partial(h, size, a, b, ba, bb, pa.pub_data);
}

/// Whether a change is small enough that field elements tell its sign.
pub open spec fn small(v: i64) -> bool {
    -0x4000_0000_0000_0000 < v < 0x4000_0000_0000_0000
}

/// Whether every number of a delta is spelled in one way only.
pub open spec fn tidy_delta(d: AccountDelta) -> bool {
    &&& d.fits()
    &&& trimmed_digits(d.l1_address@)
    &&& small(d.public_pool_info_delta.total_shares_delta)
    &&& small(d.public_pool_info_delta.operator_shares_delta)
    &&& forall|i: int|
        0 <= i < d.public_pool_shares_delta@.len() ==> small(
            (#[trigger] d.public_pool_shares_delta@[i]).shares_delta,
        )
}

/// Whether two deltas agree in all that their leaf stands for but the assets. The
/// index of a share that did not change does not matter.
pub open spec fn same_delta(a: AccountDelta, b: AccountDelta) -> bool {
    &&& forall|i: int|
        0 <= i < a.public_pool_shares_delta@.len() ==> (
        #[trigger] a.public_pool_shares_delta@[i]).shares_delta
            == b.public_pool_shares_delta@[i].shares_delta && (
        a.public_pool_shares_delta@[i].shares_delta == 0
            || a.public_pool_shares_delta@[i].public_pool_index
            == b.public_pool_shares_delta@[i].public_pool_index)
    &&& a.public_pool_info_delta.total_shares_delta == b.public_pool_info_delta.total_shares_delta
    &&& a.public_pool_info_delta.operator_shares_delta
        == b.public_pool_info_delta.operator_shares_delta
    &&& a.l1_address@ == b.l1_address@
    &&& a.account_type == b.account_type
    &&& a.position_delta_root == b.position_delta_root
}

spec fn delta_parts(d: AccountDelta) -> Seq<Seq<u64>> {
    d.public_pool_shares_delta@.map_values(|s: PublicPoolShareDelta| s.params())
}

proof fn lemma_delta_elements(a: AccountDelta, b: AccountDelta)
    requires
        tidy_delta(a),
        tidy_delta(b),
        a.public_pool_shares_delta@.len() == b.public_pool_shares_delta@.len(),
        a.elements() == b.elements(),
    ensures
        same_delta(a, b),
{
    let (x, y) = (a.elements(), b.elements());
    let (fa, fb) = (flat(delta_parts(a)), flat(delta_parts(b)));
    lemma_flat_len(delta_parts(a), 2);
    lemma_flat_len(delta_parts(b), 2);
    let n = fa.len() as int;
    assert(fa =~= x.subrange(0, n));
    assert(fb =~= y.subrange(0, n));
    let (ia, ib) = (a.public_pool_info_delta, b.public_pool_info_delta);
    assert(x[n] == signed_element(ia.total_shares_delta));
    assert(y[n] == signed_element(ib.total_shares_delta));
    assert(x[n + 1] == signed_element(ia.operator_shares_delta));
    assert(y[n + 1] == signed_element(ib.operator_shares_delta));
    assert(limbs32(a.l1_address@, 5) =~= x.subrange(n + 2, n + 7));
    assert(limbs32(b.l1_address@, 5) =~= y.subrange(n + 2, n + 7));
    limbs32_are_faithful(a.l1_address@, b.l1_address@, 5);
    assert(x[n + 7] == a.account_type as u64 && y[n + 7] == b.account_type as u64);
    assert(a.position_delta_root.elements() =~= x.subrange(n + 8, n + 12));
    assert(b.position_delta_root.elements() =~= y.subrange(n + 8, n + 12));
    elements_are_faithful(a.position_delta_root, b.position_delta_root);
    assert forall|i: int| 0 <= i < a.public_pool_shares_delta@.len() implies (
    #[trigger] a.public_pool_shares_delta@[i]).shares_delta
        == b.public_pool_shares_delta@[i].shares_delta
        && a.public_pool_shares_delta@[i].public_pool_index
        == b.public_pool_shares_delta@[i].public_pool_index by {
        lemma_flat_parts(delta_parts(a), delta_parts(b), 2, i);
        let (u, v) = (delta_parts(a)[i], delta_parts(b)[i]);
        let (s, t) = (a.public_pool_shares_delta@[i], b.public_pool_shares_delta@[i]);
        assert(u == s.params() && v == t.params());
        assert(u[0] == v[0] && u[1] == v[1]);
        assert(small(s.shares_delta) && small(t.shares_delta));
        assert(s.public_pool_index >= 0 && t.public_pool_index >= 0);
    }
}

/// Whether a delta changes nothing but, perhaps, assets: no share, no pool, no
/// address, no type and no position.
pub open spec fn idle(d: AccountDelta, p: Protocol) -> bool {
    &&& forall|i: int|
        0 <= i < d.public_pool_shares_delta@.len() ==> (
        #[trigger] d.public_pool_shares_delta@[i]).shares_delta == 0
    &&& d.public_pool_info_delta.total_shares_delta == 0
    &&& d.public_pool_info_delta.operator_shares_delta == 0
    &&& d.l1_address@.len() == 0
    &&& d.account_type == 0
    &&& d.position_delta_root == p.empty_position_delta_tree_root
}

proof fn lemma_idle(d: AccountDelta, p: Protocol)
    requires
        tidy_delta(d),
    ensures
        d.nothing_changed(p) <==> idle(d, p),
{
    if d.nothing_changed(p) && d.l1_address@.len() > 0 {
        assert(d.l1_address@[d.l1_address@.len() - 1] == 0);
    }
}

/// A leaf of the account-delta tree stands for one change only: changes with the same
/// leaf agree in every field that the leaf stands for, where the sponge tells its
/// inputs apart and gives no zeros. In particular the leaf is zero exactly where
/// nothing changed: no position, no asset, and nothing else.
pub proof fn delta_leaves_bind<H: Fn(&Vec<u64>) -> HashOut>(
    h: H,
    p: Protocol,
    a: AccountDelta,
    b: AccountDelta,
    x: HashOut,
    y: HashOut,
)
    requires
        injective_sponge(h),
        never_zero(h),
        tidy_delta(a),
        tidy_delta(b),
        a.public_pool_shares_delta@.len() == b.public_pool_shares_delta@.len(),
        a.leaf_hashed(h, p, x),
        b.leaf_hashed(h, p, y),
    ensures
        x == y ==> same_delta(a, b) && a.asset_delta_root == b.asset_delta_root,
        x == zero_hash() <==> idle(a, p) && a.asset_delta_root == p.empty_asset_tree_root,
{
    lemma_idle(a, p);
    lemma_idle(b, p);
    let (pa, fa) = lemma_delta_partial(h, p, a, x);
    let (pb, fb) = lemma_delta_partial(h, p, b, y);
    if x == y {
        if x == zero_hash() {
            assert(same_delta(a, b)) by {
                assert(a.l1_address@ =~= b.l1_address@);
            }
        } else {
            assert(fa == fb);
            lemma_split(
                pa.elements(),
                a.asset_delta_root.elements(),
                pb.elements(),
                b.asset_delta_root.elements(),
            );
            elements_are_faithful(pa, pb);
            elements_are_faithful(a.asset_delta_root, b.asset_delta_root);
            if a.nothing_changed(p) {
                assert(a.l1_address@ =~= b.l1_address@);
            } else {
                lemma_delta_elements(a, b);
            }
        }
    }
}

proof fn lemma_delta_partial<H: Fn(&Vec<u64>) -> HashOut>(
    h: H,
    p: Protocol,
    d: AccountDelta,
    out: HashOut,
) -> (r: (HashOut, HashOut))
    requires
        never_zero(h),
        d.leaf_hashed(h, p, out),
    ensures
        d.partially_hashed(h, p, r.0),
        r.0 == zero_hash() <==> d.nothing_changed(p),
        hashed(h, r.0.elements() + d.asset_delta_root.elements(), r.1),
        out == zero_hash() <==> d.nothing_changed(p) && d.asset_delta_root
            == p.empty_asset_tree_root,
        out != zero_hash() ==> out == r.1,
{
    choose|partial: HashOut, full: HashOut|
        {
            &&& #[trigger] d.partially_hashed(h, p, partial)
            &&& #[trigger] hashed(h, partial.elements() + d.asset_delta_root.elements(), full)
            &&& out == crate::account_family_native::selected(
                partial == zero_hash() && d.asset_delta_root == p.empty_asset_tree_root,
                full,
            )
        }
}

/// Whether two markets agree in every field but their index and their order book.
pub open spec fn same_market(a: Market, b: Market) -> bool {
    &&& a.market_type == b.market_type
    &&& a.status == b.status
    &&& a.base_asset_id == b.base_asset_id
    &&& a.quote_asset_id == b.quote_asset_id
    &&& a.ask_nonce == b.ask_nonce
    &&& a.bid_nonce == b.bid_nonce
    &&& a.taker_fee == b.taker_fee
    &&& a.maker_fee == b.maker_fee
    &&& a.liquidation_fee == b.liquidation_fee
    &&& a.size_extension_multiplier == b.size_extension_multiplier
    &&& a.quote_extension_multiplier == b.quote_extension_multiplier
    &&& a.total_order_count == b.total_order_count
    &&& a.min_base_amount == b.min_base_amount
    &&& a.min_quote_amount == b.min_quote_amount
    &&& a.order_quote_limit == b.order_quote_limit
}

proof fn lemma_scalars(a: Market, b: Market)
    requires
        a.fits(),
        b.fits(),
        a.scalars() == b.scalars(),
    ensures
        same_market(a, b),
{
    let (x, y) = (a.scalars(), b.scalars());
    assert(x[0] == y[0] && x[1] == y[1] && x[2] == y[2] && x[3] == y[3] && x[4] == y[4]);
    assert(x[5] == y[5] && x[6] == y[6] && x[7] == y[7] && x[8] == y[8] && x[9] == y[9]);
    assert(x[10] == y[10] && x[11] == y[11] && x[12] == y[12] && x[13] == y[13] && x[14] == y[14]);
}

/// A leaf of the market tree stands for one market only: markets with the same leaf
/// agree in every field but their index, where the sponge tells its inputs apart and
/// gives no zeros. Only of two empty markets, whose leaf is zero, the order books may
/// differ.
pub proof fn market_leaves_bind<H: Fn(&Vec<u64>) -> HashOut>(
    h: H,
    a: Market,
    b: Market,
    x: HashOut,
    y: HashOut,
)
    requires
        injective_sponge(h),
        never_zero(h),
        a.fits(),
        b.fits(),
        a.leaf_hashed(h, x),
        b.leaf_hashed(h, y),
        x == y,
    ensures
        same_market(a, b),
        x != zero_hash() ==> a.order_book_root == b.order_book_root,
{
    if x == zero_hash() {
        assert(a.is_empty() && b.is_empty());
        assert(a.scalars() =~= b.scalars());
    } else {
        let (ra, rb) = (a.order_book_root.elements(), b.order_book_root.elements());
        lemma_split(a.scalars(), ra, b.scalars(), rb);
        elements_are_faithful(a.order_book_root, b.order_book_root);
    }
    lemma_scalars(a, b);
}

} // verus!
