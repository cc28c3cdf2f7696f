//! The leaves of the account, public-account, account-delta and market trees.
//!
//! A leaf is the digest of a value's fields, one field element each. Numbers of
//! any size are spelled as limbs of fixed count with a sign behind them. The
//! sponge is the caller's.

use crate::big::{trimmed_digits, SignedBig, SignedView};
use crate::hash::{
    functional_sponge, hashed, push_hash, sponge, total_sponge, zero_hash, HashOut,
    GOLDILOCKS_ORDER,
};
use vstd::prelude::*;

verus! {

/// 32-bit limbs of a 96-bit number.
pub const BIG_U96_LIMBS: usize = 3;

/// 32-bit limbs of a 160-bit number.
pub const BIG_U160_LIMBS: usize = 5;

/// 16-bit limbs of a 64-bit number.
pub const BIGU16_U64_LIMBS: usize = 4;

/// `n` limbs of 32 bits, the least significant one first.
pub open spec fn limbs32(d: Seq<u32>, n: nat) -> Seq<u64> {
    Seq::new(
        n,
        |i: int|
            if i < d.len() {
                d[i] as u64
            } else {
                0u64
            },
    )
}

/// `n` limbs of 16 bits, the least significant one first.
pub open spec fn limbs16(d: Seq<u32>, n: nat) -> Seq<u64> {
    Seq::new(
        n,
        |i: int|
            if i / 2 >= d.len() {
                0u64
            } else if i % 2 == 0 {
                (d[i / 2] % 0x1_0000) as u64
            } else {
                (d[i / 2] / 0x1_0000) as u64
            },
    )
}

/// The field element for a sign.
pub open spec fn sign_element(sign: int) -> u64 {
    if sign > 0 {
        1
    } else if sign < 0 {
        (GOLDILOCKS_ORDER - 1) as u64
    } else {
        0
    }
}

/// The field element for a number that may be negative.
pub open spec fn signed_element(v: i64) -> u64 {
    if v < 0 {
        (GOLDILOCKS_ORDER + v) as u64
    } else {
        v as u64
    }
}

/// A signed number in 32-bit limbs, with its sign behind them.
pub open spec fn signed32(v: SignedView, n: nat) -> Seq<u64> {
    limbs32(v.digits, n).push(sign_element(v.sign))
}

/// A signed number in 16-bit limbs, with its sign behind them.
pub open spec fn signed16(v: SignedView, n: nat) -> Seq<u64> {
    limbs16(v.digits, n).push(sign_element(v.sign))
}

/// The digit at `i`, or zero beyond the digits.
spec fn digit_or_zero(d: Seq<u32>, i: int) -> u32 {
    if i < d.len() {
        d[i]
    } else {
        0
    }
}

proof fn lemma_same_digits(a: Seq<u32>, b: Seq<u32>, n: nat)
    requires
        trimmed_digits(a),
        trimmed_digits(b),
        a.len() <= n,
        b.len() <= n,
        forall|i: int| 0 <= i < n ==> #[trigger] digit_or_zero(a, i) == digit_or_zero(b, i),
    ensures
        a == b,
{
    if a.len() < b.len() {
        assert(digit_or_zero(a, b.len() - 1) == digit_or_zero(b, b.len() - 1));
    } else if b.len() < a.len() {
        assert(digit_or_zero(a, a.len() - 1) == digit_or_zero(b, a.len() - 1));
    } else {
        assert forall|i: int| 0 <= i < a.len() implies a[i] == b[i] by {
            assert(digit_or_zero(a, i) == digit_or_zero(b, i));
        }
        assert(a =~= b);
    }
}

/// Two numbers with the same 32-bit limbs are equal.
pub proof fn limbs32_are_faithful(a: Seq<u32>, b: Seq<u32>, n: nat)
    requires
        trimmed_digits(a),
        trimmed_digits(b),
        a.len() <= n,
        b.len() <= n,
        limbs32(a, n) == limbs32(b, n),
    ensures
        a == b,
{
    let (la, lb) = (limbs32(a, n), limbs32(b, n));
    assert forall|i: int| 0 <= i < n implies #[trigger] digit_or_zero(a, i) == digit_or_zero(
        b,
        i,
    ) by {
        assert(la[i] == digit_or_zero(a, i) as u64);
        assert(lb[i] == digit_or_zero(b, i) as u64);
    }
    lemma_same_digits(a, b, n);
}

/// Two numbers with the same 16-bit limbs are equal.
pub proof fn limbs16_are_faithful(a: Seq<u32>, b: Seq<u32>, n: nat)
    requires
        trimmed_digits(a),
        trimmed_digits(b),
        2 * a.len() <= n,
        2 * b.len() <= n,
        limbs16(a, n) == limbs16(b, n),
    ensures
        a == b,
{
    let (la, lb) = (limbs16(a, n), limbs16(b, n));
    assert forall|i: int| 0 <= i < n / 2 implies #[trigger] digit_or_zero(a, i) == digit_or_zero(
        b,
        i,
    ) by {
        assert((2 * i) / 2 == i && (2 * i + 1) / 2 == i);
        assert(la[2 * i] == (digit_or_zero(a, i) % 0x1_0000) as u64);
        assert(lb[2 * i] == (digit_or_zero(b, i) % 0x1_0000) as u64);
        assert(la[2 * i + 1] == (digit_or_zero(a, i) / 0x1_0000) as u64);
        assert(lb[2 * i + 1] == (digit_or_zero(b, i) / 0x1_0000) as u64);
    }
    lemma_same_digits(a, b, n / 2);
}

/// Two signed numbers that are spelled alike in 32-bit limbs are equal.
pub proof fn signed32_is_faithful(a: SignedBig, b: SignedBig, n: nat)
    requires
        a.wf(),
        b.wf(),
        a.digits@.len() <= n,
        b.digits@.len() <= n,
        signed32(a@, n) == signed32(b@, n),
    ensures
        a@ == b@,
        a.value() == b.value(),
{
    assert(signed32(a@, n)[n as int] == sign_element(a@.sign));
    assert(signed32(b@, n)[n as int] == sign_element(b@.sign));
    assert(limbs32(a@.digits, n) =~= signed32(a@, n).drop_last());
    assert(limbs32(b@.digits, n) =~= signed32(b@, n).drop_last());
    limbs32_are_faithful(a.digits@, b.digits@, n);
}

/// Two signed numbers that are spelled alike in 16-bit limbs are equal.
pub proof fn signed16_is_faithful(a: SignedBig, b: SignedBig, n: nat)
    requires
        a.wf(),
        b.wf(),
        2 * a.digits@.len() <= n,
        2 * b.digits@.len() <= n,
        signed16(a@, n) == signed16(b@, n),
    ensures
        a@ == b@,
        a.value() == b.value(),
{
    assert(signed16(a@, n)[n as int] == sign_element(a@.sign));
    assert(signed16(b@, n)[n as int] == sign_element(b@.sign));
    assert(limbs16(a@.digits, n) =~= signed16(a@, n).drop_last());
    assert(limbs16(b@.digits, n) =~= signed16(b@, n).drop_last());
    limbs16_are_faithful(a.digits@, b.digits@, n);
}

/// Appends the digits `d` in `num_limbs` 32-bit limbs.
fn push_biguint_u32_limbs(elements: &mut Vec<u64>, d: &Vec<u32>, num_limbs: usize)
    requires
        d@.len() <= num_limbs,
    ensures
        final(elements)@ == old(elements)@ + limbs32(d@, num_limbs as nat),
{
    let ghost before = elements@;
    let ghost all = limbs32(d@, num_limbs as nat);
    let mut i: usize = 0;
    assert(elements@ =~= before + all.take(0));
    while i < num_limbs
        invariant
            i <= num_limbs,
            d@.len() <= num_limbs,
            all == limbs32(d@, num_limbs as nat),
            elements@ == before + all.take(i as int),
        decreases num_limbs - i,
    {
        if i < d.len() {
            elements.push(d[i] as u64);
        } else {
            elements.push(0);
        }
        assert(elements@ =~= before + all.take(i + 1));
        i = i + 1;
    }
    assert(all.take(num_limbs as int) =~= all);
}

/// The field element for a number's sign.
fn sign_field(value: &SignedBig) -> (r: u64)
    ensures
        r == sign_element(value@.sign),
{
    if value.sign > 0 {
        1
    } else if value.sign < 0 {
        GOLDILOCKS_ORDER - 1
    } else {
        0
    }
}

/// The field element for a number that may be negative.
fn signed_field(v: i64) -> (r: u64)
    ensures
        r == signed_element(v),
{
    if v < 0 {
        (GOLDILOCKS_ORDER as i128 + v as i128) as u64
    } else {
        v as u64
    }
}

/// Appends a signed number in `num_limbs` 32-bit limbs, with its sign.
fn push_signed_u32_limbs(elements: &mut Vec<u64>, value: &SignedBig, num_limbs: usize)
    requires
        value.digits@.len() <= num_limbs,
    ensures
        final(elements)@ == old(elements)@ + signed32(value@, num_limbs as nat),
{
    push_biguint_u32_limbs(elements, &value.digits, num_limbs);
    elements.push(sign_field(value));
    assert(elements@ =~= old(elements)@ + signed32(value@, num_limbs as nat));
}

/// Appends a signed number in `num_limbs` 16-bit limbs, with its sign.
fn push_signed_u16_limbs(elements: &mut Vec<u64>, value: &SignedBig, num_limbs: usize)
    requires
        2 * value.digits@.len() <= num_limbs,
    ensures
        final(elements)@ == old(elements)@ + signed16(value@, num_limbs as nat),
{
    let d: &Vec<u32> = &value.digits;
    let ghost before = elements@;
    let ghost all = limbs16(d@, num_limbs as nat);
    let mut i: usize = 0;
    assert(elements@ =~= before + all.take(0));
    while i < num_limbs
        invariant
            i <= num_limbs,
            *d == value.digits,
            all == limbs16(d@, num_limbs as nat),
            elements@ == before + all.take(i as int),
        decreases num_limbs - i,
    {
        if i / 2 >= d.len() {
            elements.push(0);
        } else if i % 2 == 0 {
            elements.push((d[i / 2] % 0x1_0000) as u64);
        } else {
            elements.push((d[i / 2] / 0x1_0000) as u64);
        }
        assert(elements@ =~= before + all.take(i + 1));
        i = i + 1;
    }
    assert(all.take(num_limbs as int) =~= all);
    elements.push(sign_field(value));
    assert(elements@ =~= before + signed16(value@, num_limbs as nat));
}

/// The leaf of an empty value is the digest of zeros.
pub open spec fn selected(is_empty: bool, non_empty: HashOut) -> HashOut {
    if is_empty {
        zero_hash()
    } else {
        non_empty
    }
}

/// The leaf of an empty value is the digest of zeros.
fn select_empty(is_empty: bool, non_empty: HashOut) -> (r: HashOut)
    ensures
        r == selected(is_empty, non_empty),
{
    if is_empty {
        HashOut::zero()
    } else {
        non_empty
    }
}

/// What the protocol fixes: the digest and the index that decide whether an
/// account is empty, the roots of empty trees, and how many positions are hashed
/// together.
#[derive(Debug, Clone, Copy)]
pub struct Protocol {
    pub empty_account_hash: HashOut,
    pub treasury_account_index: i64,
    pub empty_position_delta_tree_root: HashOut,
    pub empty_asset_tree_root: HashOut,
    pub position_bucket_size: usize,
}

/// A position of an account in one market.
#[derive(Debug, Clone)]
pub struct AccountPosition {
    pub last_funding_rate_prefix_sum: SignedBig,
    pub position: SignedBig,
    pub entry_quote: i64,
    pub initial_margin_fraction: u16,
    pub total_order_count: i64,
    pub total_position_tied_order_count: i64,
    pub margin_mode: u8,
    pub allocated_margin: SignedBig,
}

/// What a position holds.
pub struct PositionView {
    pub last_funding_rate_prefix_sum: SignedView,
    pub position: SignedView,
    pub entry_quote: i64,
    pub initial_margin_fraction: u16,
    pub total_order_count: i64,
    pub total_position_tied_order_count: i64,
    pub margin_mode: u8,
    pub allocated_margin: SignedView,
}

/// The number zero.
pub open spec fn zero_view() -> SignedView {
    SignedView { sign: 0, digits: Seq::empty() }
}

/// An empty position.
pub open spec fn empty_position() -> PositionView {
    PositionView {
        last_funding_rate_prefix_sum: zero_view(),
        position: zero_view(),
        entry_quote: 0,
        initial_margin_fraction: 0,
        total_order_count: 0,
        total_position_tied_order_count: 0,
        margin_mode: 0,
        allocated_margin: zero_view(),
    }
}

impl View for AccountPosition {
    type V = PositionView;

    open spec fn view(&self) -> PositionView {
        PositionView {
            last_funding_rate_prefix_sum: self.last_funding_rate_prefix_sum@,
            position: self.position@,
            entry_quote: self.entry_quote,
            initial_margin_fraction: self.initial_margin_fraction,
            total_order_count: self.total_order_count,
            total_position_tied_order_count: self.total_position_tied_order_count,
            margin_mode: self.margin_mode,
            allocated_margin: self.allocated_margin@,
        }
    }
}

impl PositionView {
    /// Whether every number fits its limbs and every count is a field element.
    pub open spec fn fits(self) -> bool {
        &&& 2 * self.last_funding_rate_prefix_sum.digits.len() <= BIGU16_U64_LIMBS
        &&& 2 * self.position.digits.len() <= BIGU16_U64_LIMBS
        &&& self.allocated_margin.digits.len() <= BIG_U96_LIMBS
        &&& self.entry_quote >= 0
        &&& self.total_order_count >= 0
        &&& self.total_position_tied_order_count >= 0
    }

    /// What the position contributes to the digest of all of its account.
    pub open spec fn params(self) -> Seq<u64> {
        signed32(self.allocated_margin, BIG_U96_LIMBS as nat) + seq![
            self.margin_mode as u64,
            self.entry_quote as u64,
            self.initial_margin_fraction as u64,
            self.total_order_count as u64,
            self.total_position_tied_order_count as u64,
        ]
    }

    /// What the position contributes to the digest of its account's public data.
    pub open spec fn pub_params(self) -> Seq<u64> {
        signed16(self.last_funding_rate_prefix_sum, BIGU16_U64_LIMBS as nat) + signed16(
            self.position,
            BIGU16_U64_LIMBS as nat,
        )
    }
}

impl Default for AccountPosition {
    /// An empty position.
    fn default() -> (r: Self)
        ensures
            r@ == empty_position(),
    {
        let r = AccountPosition {
            last_funding_rate_prefix_sum: SignedBig::zero(),
            position: SignedBig::zero(),
            entry_quote: 0,
            initial_margin_fraction: 0,
            total_order_count: 0,
            total_position_tied_order_count: 0,
            margin_mode: 0,
            allocated_margin: SignedBig::zero(),
        };
        assert(r.position@.digits =~= Seq::<u32>::empty());
        assert(r.last_funding_rate_prefix_sum@.digits =~= Seq::<u32>::empty());
        assert(r.allocated_margin@.digits =~= Seq::<u32>::empty());
        r
    }
}

/// Appends what `p` contributes to the digest of all of its account.
fn append_position_hash_params(p: &AccountPosition, elements: &mut Vec<u64>)
    requires
        p@.fits(),
    ensures
        final(elements)@ == old(elements)@ + p@.params(),
{
    push_signed_u32_limbs(elements, &p.allocated_margin, BIG_U96_LIMBS);
    elements.push(p.margin_mode as u64);
    elements.push(p.entry_quote as u64);
    elements.push(p.initial_margin_fraction as u64);
    elements.push(p.total_order_count as u64);
    elements.push(p.total_position_tied_order_count as u64);
    assert(elements@ =~= old(elements)@ + p@.params());
}

/// Appends what `p` contributes to the digest of its account's public data.
fn append_position_pub_data_hash_params(p: &AccountPosition, elements: &mut Vec<u64>)
    requires
        p@.fits(),
    ensures
        final(elements)@ == old(elements)@ + p@.pub_params(),
{
    push_signed_u16_limbs(elements, &p.last_funding_rate_prefix_sum, BIGU16_U64_LIMBS);
    push_signed_u16_limbs(elements, &p.position, BIGU16_U64_LIMBS);
    assert(elements@ =~= old(elements)@ + p@.pub_params());
}

/// What positions contribute to the digest of all of their account.
pub open spec fn all_params(ps: Seq<PositionView>) -> Seq<u64>
    decreases ps.len(),
{
    if ps.len() == 0 {
        Seq::empty()
    } else {
        all_params(ps.drop_last()) + ps.last().params()
    }
}

/// What positions contribute to the digest of their account's public data.
pub open spec fn all_pub_params(ps: Seq<PositionView>) -> Seq<u64>
    decreases ps.len(),
{
    if ps.len() == 0 {
        Seq::empty()
    } else {
        all_pub_params(ps.drop_last()) + ps.last().pub_params()
    }
}

/// The digests of a bucket of positions: of all of it, and of its public data.
#[derive(Debug, Clone, Copy, PartialEq, Eq, Structural)]
pub struct TwoHashes {
    pub full: HashOut,
    pub pub_data: HashOut,
}

/// Whether `out` may be the digests of the positions `bucket`: of their public
/// data, and of that digest and the rest of them.
pub open spec fn bucket_hashed<H: Fn(&Vec<u64>) -> HashOut>(
    h: H,
    bucket: Seq<PositionView>,
    out: TwoHashes,
) -> bool {
    &&& hashed(h, all_pub_params(bucket), out.pub_data)
    &&& hashed(h, out.pub_data.elements() + all_params(bucket), out.full)
}

/// The positions, and one empty position behind them.
pub open spec fn extended(positions: Seq<AccountPosition>) -> Seq<PositionView> {
    positions.map_values(|p: AccountPosition| p@).push(empty_position())
}

/// The digests of the positions from `from` up to `end`, where the position
/// behind the last one is empty.
fn position_bucket_hash<H: Fn(&Vec<u64>) -> HashOut>(
    positions: &Vec<AccountPosition>,
    from: usize,
    end: usize,
    h: &H,
) -> (r: TwoHashes)
    requires
        from <= end <= positions@.len() + 1,
        forall|i: int| 0 <= i < positions@.len() ==> (#[trigger] positions@[i])@.fits(),
        total_sponge(*h),
    ensures
        bucket_hashed(*h, extended(positions@).subrange(from as int, end as int), r),
{
    let ghost ext = extended(positions@);
    let ghost bucket = ext.subrange(from as int, end as int);
    let empty: AccountPosition = AccountPosition::default();
    let mut pub_params: Vec<u64> = Vec::new();
    let mut i: usize = from;
    assert(bucket.take(0) =~= Seq::<PositionView>::empty());
    while i < end
        invariant
            from <= i <= end <= positions@.len() + 1,
            forall|j: int| 0 <= j < positions@.len() ==> (#[trigger] positions@[j])@.fits(),
            ext == extended(positions@),
            bucket == ext.subrange(from as int, end as int),
            empty@ == empty_position(),
            pub_params@ == all_pub_params(bucket.take(i - from)),
        decreases end - i,
    {
        let p: &AccountPosition = if i < positions.len() {
            &positions[i]
        } else {
            &empty
        };
        append_position_pub_data_hash_params(p, &mut pub_params);
        proof {
            let next = bucket.take(i - from + 1);
            assert(next.drop_last() =~= bucket.take(i - from));
            assert(next.last() == ext[i as int]);
        }
        i = i + 1;
    }
    assert(bucket.take(end - from) =~= bucket);
    let pub_data: HashOut = sponge(h, &pub_params);
    let mut params: Vec<u64> = Vec::new();
    push_hash(&mut params, pub_data);
    let mut k: usize = from;
    assert(params@ =~= pub_data.elements() + all_params(bucket.take(0)));
    while k < end
        invariant
            from <= k <= end <= positions@.len() + 1,
            forall|j: int| 0 <= j < positions@.len() ==> (#[trigger] positions@[j])@.fits(),
            ext == extended(positions@),
            bucket == ext.subrange(from as int, end as int),
            empty@ == empty_position(),
            params@ == pub_data.elements() + all_params(bucket.take(k - from)),
        decreases end - k,
    {
        let p: &AccountPosition = if k < positions.len() {
            &positions[k]
        } else {
            &empty
        };
        append_position_hash_params(p, &mut params);
        proof {
            let next = bucket.take(k - from + 1);
            assert(next.drop_last() =~= bucket.take(k - from));
            assert(next.last() == ext[k as int]);
            assert(params@ =~= pub_data.elements() + (all_params(bucket.take(k - from)) + p@.params()));
        }
        k = k + 1;
    }
    let full: HashOut = sponge(h, &params);
    TwoHashes { full, pub_data }
}

/// The bucket of at most `size` items of `s` that starts at `at`.
pub open spec fn bucket_at(s: Seq<PositionView>, at: int, size: int) -> Seq<PositionView> {
    s.subrange(
        at,
        if at + size <= s.len() {
            at + size
        } else {
            s.len() as int
        },
    )
}

/// Whether `out` may be the digests of the positions, `size` at a time.
pub open spec fn buckets_hashed<H: Fn(&Vec<u64>) -> HashOut>(
    h: H,
    positions: Seq<PositionView>,
    size: int,
    out: Seq<TwoHashes>,
) -> bool {
    &&& size * (out.len() - 1) < positions.len() <= size * out.len()
    &&& forall|i: int|
        0 <= i < out.len() ==> bucket_hashed(h, bucket_at(positions, size * i, size), #[trigger] out[i])
}

/// The digests of an account's positions and one empty position behind them, a
/// bucket at a time.
pub fn position_bucket_hashes<H: Fn(&Vec<u64>) -> HashOut>(
    positions: &Vec<AccountPosition>,
    size: usize,
    h: &H,
) -> (r: Vec<TwoHashes>)
    requires
        size > 0,
        positions@.len() < usize::MAX,
        forall|i: int| 0 <= i < positions@.len() ==> (#[trigger] positions@[i])@.fits(),
        total_sponge(*h),
    ensures
        buckets_hashed(*h, extended(positions@), size as int, r@),
{
    let ghost ext = extended(positions@);
    let n: usize = positions.len() + 1;
    let mut r: Vec<TwoHashes> = Vec::new();
    let mut at: usize = 0;
    assert(size * r@.len() == 0) by (nonlinear_arith)
        requires
            r@.len() == 0,
    ;
    while at < n
        invariant
            at <= n == positions@.len() + 1,
            n == ext.len(),
            size > 0,
            ext == extended(positions@),
            forall|j: int| 0 <= j < positions@.len() ==> (#[trigger] positions@[j])@.fits(),
            total_sponge(*h),
            at < n ==> at == size * r@.len(),
            at == n ==> size * (r@.len() - 1) < n <= size * r@.len(),
            forall|i: int|
                0 <= i < r@.len() ==> bucket_hashed(
                    *h,
                    bucket_at(ext, size * i, size as int),
                    #[trigger] r@[i],
                ),
        decreases n - at,
    {
        let end: usize = if n - at >= size {
            at + size
        } else {
            n
        };
        r.push(position_bucket_hash(positions, at, end, h));
        assert(size * r@.len() == size * (r@.len() - 1) + size) by (nonlinear_arith);
        at = end;
    }
    r
}

/// A share of a public pool.
#[derive(Debug, Clone, Copy)]
pub struct PublicPoolShare {
    pub public_pool_index: i64,
    pub share_amount: i64,
    pub principal_amount: i64,
    pub entry_timestamp: i64,
}

/// A public pool.
#[derive(Debug, Clone)]
pub struct PublicPoolInfo {
    pub status: u8,
    pub operator_fee: i64,
    pub min_operator_share_rate: i64,
    pub total_shares: i64,
    pub operator_shares: i64,
    pub strategies: Vec<SignedBig>,
}

/// An amount that is unlocked later; the amount by its digits.
#[derive(Debug, Clone)]
pub struct PendingUnlock {
    pub unlock_timestamp: i64,
    pub asset_index: i64,
    pub amount: Vec<u32>,
}

/// An account; the address by its digits.
#[derive(Debug, Clone)]
pub struct Account {
    pub account_index: i64,
    pub master_account_index: i64,
    pub account_type: u8,
    pub account_trading_mode: u8,
    pub l1_address: Vec<u32>,
    pub collateral: SignedBig,
    pub total_order_count: i64,
    pub total_non_cross_order_count: i64,
    pub cancel_all_time: i64,
    pub positions: Vec<AccountPosition>,
    pub public_pool_shares: Vec<PublicPoolShare>,
    pub public_pool_info: PublicPoolInfo,
    pub pending_unlocks: Vec<PendingUnlock>,
    pub api_key_root: HashOut,
    pub account_orders_root: HashOut,
    pub asset_root: HashOut,
    pub aggregated_balances_root: HashOut,
    pub partial_hash: HashOut,
    pub partial_hash_for_pub_data: HashOut,
}

impl PublicPoolShare {
    /// Whether every field is a field element.
    pub open spec fn fits(self) -> bool {
        &&& self.public_pool_index >= 0
        &&& self.share_amount >= 0
        &&& self.principal_amount >= 0
        &&& self.entry_timestamp >= 0
    }

    /// What the share contributes to the digest of its account's public data.
    pub open spec fn pub_params(self) -> Seq<u64> {
        seq![self.public_pool_index as u64, self.share_amount as u64]
    }

    /// What else the share contributes to the digest of its account.
    pub open spec fn params(self) -> Seq<u64> {
        seq![self.principal_amount as u64, self.entry_timestamp as u64]
    }
}

impl PublicPoolInfo {
    /// Whether every field is a field element or fits its limbs.
    pub open spec fn fits(self) -> bool {
        &&& self.operator_fee >= 0
        &&& self.min_operator_share_rate >= 0
        &&& self.total_shares >= 0
        &&& self.operator_shares >= 0
        &&& forall|i: int|
            0 <= i < self.strategies@.len() ==> (#[trigger] self.strategies@[i])@.digits.len()
                <= BIG_U96_LIMBS
    }
}

impl PendingUnlock {
    /// Whether every field is a field element or fits its limbs.
    pub open spec fn fits(self) -> bool {
        &&& self.unlock_timestamp >= 0
        &&& self.asset_index >= 0
        &&& self.amount@.len() <= BIG_U96_LIMBS
    }

    /// What the unlock contributes to the digest of its account.
    pub open spec fn params(self) -> Seq<u64> {
        seq![self.unlock_timestamp as u64, self.asset_index as u64] + limbs32(
            self.amount@,
            BIG_U96_LIMBS as nat,
        )
    }
}

/// Sequences one after the other.
pub open spec fn flat(parts: Seq<Seq<u64>>) -> Seq<u64>
    decreases parts.len(),
{
    if parts.len() == 0 {
        Seq::empty()
    } else {
        flat(parts.drop_last()) + parts.last()
    }
}

proof fn lemma_flat_push(parts: Seq<Seq<u64>>, i: int)
    requires
        0 <= i < parts.len(),
    ensures
        flat(parts.take(i + 1)) == flat(parts.take(i)) + parts[i],
{
    assert(parts.take(i + 1).drop_last() =~= parts.take(i));
}

impl Account {
    /// Whether every field is a field element or fits its limbs.
    pub open spec fn fits(self) -> bool {
        &&& self.master_account_index >= 0
        &&& self.l1_address@.len() <= BIG_U160_LIMBS
        &&& self.collateral@.digits.len() <= BIG_U96_LIMBS
        &&& self.total_order_count >= 0
        &&& self.total_non_cross_order_count >= 0
        &&& self.cancel_all_time >= 0
        &&& self.positions@.len() < usize::MAX
        &&& forall|i: int| 0 <= i < self.positions@.len() ==> (#[trigger] self.positions@[i])@.fits()
        &&& forall|i: int|
            0 <= i < self.public_pool_shares@.len() ==> (#[trigger] self.public_pool_shares@[i]).fits()
        &&& self.public_pool_info.fits()
        &&& forall|i: int|
            0 <= i < self.pending_unlocks@.len() ==> (#[trigger] self.pending_unlocks@[i]).fits()
    }

    /// The pools' part of the public data: the shares, and how many there are.
    pub open spec fn pool_pub_params(self) -> Seq<u64> {
        flat(self.public_pool_shares@.map_values(|s: PublicPoolShare| s.pub_params())) + seq![
            self.public_pool_info.total_shares as u64,
            self.public_pool_info.operator_shares as u64,
        ]
    }

    /// The rest of the pools' part.
    pub open spec fn pool_params(self) -> Seq<u64> {
        flat(self.public_pool_shares@.map_values(|s: PublicPoolShare| s.params())) + seq![
            self.public_pool_info.status as u64,
            self.public_pool_info.min_operator_share_rate as u64,
            self.public_pool_info.operator_fee as u64,
        ]
    }

    /// The pending unlocks.
    pub open spec fn unlock_params(self) -> Seq<u64> {
        flat(self.pending_unlocks@.map_values(|u: PendingUnlock| u.params()))
    }

    /// The strategies of the account's pool.
    pub open spec fn strategy_params(self) -> Seq<u64> {
        flat(
            self.public_pool_info.strategies@.map_values(
                |s: SignedBig| signed32(s@, BIG_U96_LIMBS as nat),
            ),
        )
    }

    /// Whether `out` may be the partial digests of the account, given the digests
    /// of its positions.
    pub open spec fn partially_hashed<H: Fn(&Vec<u64>) -> HashOut>(
        self,
        h: H,
        buckets: Seq<TwoHashes>,
        out: TwoHashes,
    ) -> bool {
        &&& hashed(
            h,
            flat(buckets.map_values(|b: TwoHashes| b.pub_data.elements())) + self.pool_pub_params(),
            out.pub_data,
        )
        &&& exists|unlocks: HashOut| #[trigger]
            hashed(h, self.unlock_params(), unlocks) && hashed(
                h,
                out.pub_data.elements() + flat(
                    buckets.map_values(|b: TwoHashes| b.full.elements()),
                ) + self.pool_params() + unlocks.elements(),
                out.full,
            )
    }

    /// The public data of the account, given its partial digest.
    pub open spec fn pub_elements(self, partial: TwoHashes) -> Seq<u64> {
        partial.pub_data.elements() + limbs32(self.l1_address@, BIG_U160_LIMBS as nat) + seq![
            self.account_type as u64,
        ] + self.aggregated_balances_root.elements()
    }

    /// All of the account, given its partial digest and that of its strategies.
    pub open spec fn elements(self, partial: TwoHashes, strategies: HashOut) -> Seq<u64> {
        partial.full.elements() + seq![self.master_account_index as u64] + limbs32(
            self.l1_address@,
            BIG_U160_LIMBS as nat,
        ) + seq![self.account_type as u64] + signed32(self.collateral@, BIG_U96_LIMBS as nat)
            + strategies.elements() + seq![
            self.total_order_count as u64,
            self.total_non_cross_order_count as u64,
            self.cancel_all_time as u64,
            self.account_trading_mode as u64,
        ] + self.api_key_root.elements() + self.account_orders_root.elements()
            + self.asset_root.elements()
    }

    /// Whether `out` may be the leaves of the account, given its partial digests.
    /// The leaves are those of an empty account where the digest is that of the
    /// empty account, unless the account is the treasury.
    pub open spec fn hashed_from_partial<H: Fn(&Vec<u64>) -> HashOut>(
        self,
        h: H,
        p: Protocol,
        partial: TwoHashes,
        out: (HashOut, HashOut, bool),
    ) -> bool {
        exists|strategies: HashOut, full: HashOut, pub_data: HashOut|
            {
                &&& hashed(h, self.strategy_params(), strategies)
                &&& #[trigger] hashed(h, self.elements(partial, strategies), full)
                &&& #[trigger] hashed(h, self.pub_elements(partial), pub_data)
                &&& out.2 == (full == p.empty_account_hash && self.account_index
                    != p.treasury_account_index)
                &&& out.0 == selected(out.2, full)
                &&& out.1 == selected(out.2, pub_data)
            }
    }

    /// Whether `out` may be the leaves of the account.
    pub open spec fn leaves_hashed<H: Fn(&Vec<u64>) -> HashOut>(
        self,
        h: H,
        p: Protocol,
        out: (HashOut, HashOut, bool),
    ) -> bool {
        exists|buckets: Seq<TwoHashes>, partial: TwoHashes|
            {
                &&& buckets_hashed(
                    h,
                    extended(self.positions@),
                    p.position_bucket_size as int,
                    buckets,
                )
                &&& #[trigger] self.partially_hashed(h, buckets, partial)
                &&& self.hashed_from_partial(h, p, partial, out)
            }
    }
}

/// The partial digests of an account.
pub fn account_partial_hash<H: Fn(&Vec<u64>) -> HashOut>(
    account: &Account,
    buckets: &Vec<TwoHashes>,
    h: &H,
) -> (r: TwoHashes)
    requires
        account.fits(),
        total_sponge(*h),
    ensures
        account.partially_hashed(*h, buckets@, r),
{
    let ghost pub_parts = buckets@.map_values(|b: TwoHashes| b.pub_data.elements());
    let ghost full_parts = buckets@.map_values(|b: TwoHashes| b.full.elements());
    let shares: &Vec<PublicPoolShare> = &account.public_pool_shares;
    let ghost share_pub_parts = shares@.map_values(|s: PublicPoolShare| s.pub_params());
    let ghost share_parts = shares@.map_values(|s: PublicPoolShare| s.params());
    let unlocks: &Vec<PendingUnlock> = &account.pending_unlocks;
    let ghost unlock_parts = unlocks@.map_values(|u: PendingUnlock| u.params());

    let mut pub_elements: Vec<u64> = Vec::new();
    let mut i: usize = 0;
    assert(pub_parts.take(0) =~= Seq::<Seq<u64>>::empty());
    while i < buckets.len()
        invariant
            i <= buckets@.len(),
            pub_parts == buckets@.map_values(|b: TwoHashes| b.pub_data.elements()),
            pub_elements@ == flat(pub_parts.take(i as int)),
        decreases buckets@.len() - i,
    {
        push_hash(&mut pub_elements, buckets[i].pub_data);
        proof {
            lemma_flat_push(pub_parts, i as int);
        }
        i = i + 1;
    }
    assert(pub_parts.take(buckets@.len() as int) =~= pub_parts);
    i = 0;
    assert(share_pub_parts.take(0) =~= Seq::<Seq<u64>>::empty());
    assert(pub_elements@ =~= flat(pub_parts) + flat(share_pub_parts.take(0)));
    while i < shares.len()
        invariant
            i <= shares@.len(),
            forall|j: int| 0 <= j < shares@.len() ==> (#[trigger] shares@[j]).fits(),
            share_pub_parts == shares@.map_values(|s: PublicPoolShare| s.pub_params()),
            pub_elements@ == flat(pub_parts) + flat(share_pub_parts.take(i as int)),
        decreases shares@.len() - i,
    {
        assert(shares@[i as int].fits());
        let ghost before = pub_elements@;
        pub_elements.push(shares[i].public_pool_index as u64);
        pub_elements.push(shares[i].share_amount as u64);
        proof {
            lemma_flat_push(share_pub_parts, i as int);
            assert(pub_elements@ =~= flat(pub_parts) + (flat(share_pub_parts.take(i as int))
                + share_pub_parts[i as int]));
        }
        i = i + 1;
    }
    assert(share_pub_parts.take(shares@.len() as int) =~= share_pub_parts);
    pub_elements.push(account.public_pool_info.total_shares as u64);
    pub_elements.push(account.public_pool_info.operator_shares as u64);
    assert(pub_elements@ =~= flat(pub_parts) + account.pool_pub_params());
    let pub_data: HashOut = sponge(h, &pub_elements);

    let mut unlock_params: Vec<u64> = Vec::new();
    i = 0;
    assert(unlock_parts.take(0) =~= Seq::<Seq<u64>>::empty());
    while i < unlocks.len()
        invariant
            i <= unlocks@.len(),
            forall|j: int| 0 <= j < unlocks@.len() ==> (#[trigger] unlocks@[j]).fits(),
            unlock_parts == unlocks@.map_values(|u: PendingUnlock| u.params()),
            unlock_params@ == flat(unlock_parts.take(i as int)),
        decreases unlocks@.len() - i,
    {
        assert(unlocks@[i as int].fits());
        unlock_params.push(unlocks[i].unlock_timestamp as u64);
        unlock_params.push(unlocks[i].asset_index as u64);
        push_biguint_u32_limbs(&mut unlock_params, &unlocks[i].amount, BIG_U96_LIMBS);
        proof {
            lemma_flat_push(unlock_parts, i as int);
            assert(unlock_params@ =~= flat(unlock_parts.take(i as int)) + unlock_parts[i as int]);
        }
        i = i + 1;
    }
    assert(unlock_parts.take(unlocks@.len() as int) =~= unlock_parts);
    let unlocks_hash: HashOut = sponge(h, &unlock_params);
    assert(hashed(*h, account.unlock_params(), unlocks_hash));

    let mut elements: Vec<u64> = Vec::new();
    push_hash(&mut elements, pub_data);
    let ghost front = pub_data.elements();
    i = 0;
    assert(full_parts.take(0) =~= Seq::<Seq<u64>>::empty());
    assert(elements@ =~= front + flat(full_parts.take(0)));
    while i < buckets.len()
        invariant
            i <= buckets@.len(),
            full_parts == buckets@.map_values(|b: TwoHashes| b.full.elements()),
            elements@ == front + flat(full_parts.take(i as int)),
        decreases buckets@.len() - i,
    {
        push_hash(&mut elements, buckets[i].full);
        proof {
            lemma_flat_push(full_parts, i as int);
            assert(elements@ =~= front + (flat(full_parts.take(i as int)) + full_parts[i as int]));
        }
        i = i + 1;
    }
    assert(full_parts.take(buckets@.len() as int) =~= full_parts);
    i = 0;
    let ghost middle = elements@;
    assert(share_parts.take(0) =~= Seq::<Seq<u64>>::empty());
    assert(elements@ =~= middle + flat(share_parts.take(0)));
    while i < shares.len()
        invariant
            i <= shares@.len(),
            forall|j: int| 0 <= j < shares@.len() ==> (#[trigger] shares@[j]).fits(),
            share_parts == shares@.map_values(|s: PublicPoolShare| s.params()),
            elements@ == middle + flat(share_parts.take(i as int)),
        decreases shares@.len() - i,
    {
        assert(shares@[i as int].fits());
        elements.push(shares[i].principal_amount as u64);
        elements.push(shares[i].entry_timestamp as u64);
        proof {
            lemma_flat_push(share_parts, i as int);
            assert(elements@ =~= middle + (flat(share_parts.take(i as int)) + share_parts[i as int]));
        }
        i = i + 1;
    }
    assert(share_parts.take(shares@.len() as int) =~= share_parts);
    elements.push(account.public_pool_info.status as u64);
    elements.push(account.public_pool_info.min_operator_share_rate as u64);
    elements.push(account.public_pool_info.operator_fee as u64);
    push_hash(&mut elements, unlocks_hash);
    assert(elements@ =~= front + flat(full_parts) + account.pool_params()
        + unlocks_hash.elements());
    let full: HashOut = sponge(h, &elements);
    TwoHashes { full, pub_data }
}

/// The digest of the strategies of an account's pool.
fn strategy_hash<H: Fn(&Vec<u64>) -> HashOut>(account: &Account, h: &H) -> (r: HashOut)
    requires
        account.public_pool_info.fits(),
        total_sponge(*h),
    ensures
        hashed(*h, account.strategy_params(), r),
{
    let strategies: &Vec<SignedBig> = &account.public_pool_info.strategies;
    let ghost parts = strategies@.map_values(|s: SignedBig| signed32(s@, BIG_U96_LIMBS as nat));
    let mut params: Vec<u64> = Vec::new();
    let mut i: usize = 0;
    assert(parts.take(0) =~= Seq::<Seq<u64>>::empty());
    while i < strategies.len()
        invariant
            i <= strategies@.len(),
            account.public_pool_info.fits(),
            *strategies == account.public_pool_info.strategies,
            parts == strategies@.map_values(|s: SignedBig| signed32(s@, BIG_U96_LIMBS as nat)),
            params@ == flat(parts.take(i as int)),
        decreases strategies@.len() - i,
    {
        assert(strategies@[i as int]@.digits.len() <= BIG_U96_LIMBS);
        push_signed_u32_limbs(&mut params, &strategies[i], BIG_U96_LIMBS);
        proof {
            lemma_flat_push(parts, i as int);
        }
        i = i + 1;
    }
    assert(parts.take(strategies@.len() as int) =~= parts);
    sponge(h, &params)
}

/// The leaves of an account, given its partial digests, and whether it is empty.
pub fn account_hash_from_partial<H: Fn(&Vec<u64>) -> HashOut>(
    account: &Account,
    partial: &TwoHashes,
    p: &Protocol,
    h: &H,
) -> (r: (HashOut, HashOut, bool))
    requires
        account.fits(),
        total_sponge(*h),
    ensures
        account.hashed_from_partial(*h, *p, *partial, r),
{
    let mut pub_elements: Vec<u64> = Vec::new();
    push_hash(&mut pub_elements, partial.pub_data);
    push_biguint_u32_limbs(&mut pub_elements, &account.l1_address, BIG_U160_LIMBS);
    pub_elements.push(account.account_type as u64);
    push_hash(&mut pub_elements, account.aggregated_balances_root);
    assert(pub_elements@ =~= account.pub_elements(*partial));

    let strategies: HashOut = strategy_hash(account, h);
    let mut elements: Vec<u64> = Vec::new();
    push_hash(&mut elements, partial.full);
    elements.push(account.master_account_index as u64);
    push_biguint_u32_limbs(&mut elements, &account.l1_address, BIG_U160_LIMBS);
    elements.push(account.account_type as u64);
    push_signed_u32_limbs(&mut elements, &account.collateral, BIG_U96_LIMBS);
    push_hash(&mut elements, strategies);
    elements.push(account.total_order_count as u64);
    elements.push(account.total_non_cross_order_count as u64);
    elements.push(account.cancel_all_time as u64);
    elements.push(account.account_trading_mode as u64);
    push_hash(&mut elements, account.api_key_root);
    push_hash(&mut elements, account.account_orders_root);
    push_hash(&mut elements, account.asset_root);
    assert(elements@ =~= account.elements(*partial, strategies));

    let full: HashOut = sponge(h, &elements);
    let pub_data: HashOut = sponge(h, &pub_elements);
    assert(hashed(*h, account.elements(*partial, strategies), full));
    assert(hashed(*h, account.pub_elements(*partial), pub_data));
    let is_empty: bool = full == p.empty_account_hash && account.account_index
        != p.treasury_account_index;
    (select_empty(is_empty, full), select_empty(is_empty, pub_data), is_empty)
}

/// The leaves of an account, in the account tree and in the public-account tree,
/// and whether it is empty.
pub fn account_hash_native<H: Fn(&Vec<u64>) -> HashOut>(
    account: &Account,
    p: &Protocol,
    h: &H,
) -> (r: (HashOut, HashOut, bool))
    requires
        account.fits(),
        p.position_bucket_size > 0,
        total_sponge(*h),
    ensures
        account.leaves_hashed(*h, *p, r),
        r.2 ==> r.0 == zero_hash() && r.1 == zero_hash(),
{
    let buckets: Vec<TwoHashes> = position_bucket_hashes(
        &account.positions,
        p.position_bucket_size,
        h,
    );
    let partial: TwoHashes = account_partial_hash(account, &buckets, h);
    let r: (HashOut, HashOut, bool) = account_hash_from_partial(account, &partial, p, h);
    assert(account.partially_hashed(*h, buckets@, partial));
    r
}

/// The leaf of an account in the account tree.
pub fn account_leaf_hash<H: Fn(&Vec<u64>) -> HashOut>(account: &Account, p: &Protocol, h: &H) -> (r:
    HashOut)
    requires
        account.fits(),
        p.position_bucket_size > 0,
        total_sponge(*h),
    ensures
        exists|pub_data: HashOut, is_empty: bool| #[trigger]
            account.leaves_hashed(*h, *p, (r, pub_data, is_empty)),
{
    let r: (HashOut, HashOut, bool) = account_hash_native(account, p, h);
    assert(account.leaves_hashed(*h, *p, (r.0, r.1, r.2)));
    r.0
}

/// The leaf of an account in the public-account tree.
pub fn account_pub_data_leaf_hash<H: Fn(&Vec<u64>) -> HashOut>(
    account: &Account,
    p: &Protocol,
    h: &H,
) -> (r: HashOut)
    requires
        account.fits(),
        p.position_bucket_size > 0,
        total_sponge(*h),
    ensures
        exists|full: HashOut, is_empty: bool| #[trigger]
            account.leaves_hashed(*h, *p, (full, r, is_empty)),
{
    let r: (HashOut, HashOut, bool) = account_hash_native(account, p, h);
    assert(account.leaves_hashed(*h, *p, (r.0, r.1, r.2)));
    r.1
}

/// The change of a share of a public pool.
#[derive(Debug, Clone, Copy)]
pub struct PublicPoolShareDelta {
    pub public_pool_index: i64,
    pub shares_delta: i64,
}

/// The change of a public pool.
#[derive(Debug, Clone, Copy)]
pub struct PublicPoolInfoDelta {
    pub total_shares_delta: i64,
    pub operator_shares_delta: i64,
}

/// The change of an account; the address by its digits.
#[derive(Debug, Clone)]
pub struct AccountDelta {
    pub account_index: i64,
    pub account_type: u8,
    pub l1_address: Vec<u32>,
    pub public_pool_shares_delta: Vec<PublicPoolShareDelta>,
    pub public_pool_info_delta: PublicPoolInfoDelta,
    pub asset_delta_root: HashOut,
    pub position_delta_root: HashOut,
    pub partial_hash: HashOut,
}

impl PublicPoolShareDelta {
    /// What the share contributes to the digest of its delta.
    pub open spec fn params(self) -> Seq<u64> {
        seq![self.public_pool_index as u64, signed_element(self.shares_delta)]
    }
}

impl AccountDelta {
    /// Whether every field is a field element or fits its limbs.
    pub open spec fn fits(self) -> bool {
        &&& self.l1_address@.len() <= BIG_U160_LIMBS
        &&& forall|i: int|
            0 <= i < self.public_pool_shares_delta@.len() ==> (
            #[trigger] self.public_pool_shares_delta@[i]).public_pool_index >= 0
    }

    /// Whether nothing but the assets may have changed.
    pub open spec fn nothing_changed(self, p: Protocol) -> bool {
        &&& forall|i: int|
            0 <= i < self.public_pool_shares_delta@.len() ==> (
            #[trigger] self.public_pool_shares_delta@[i]).shares_delta == 0
        &&& self.public_pool_info_delta.total_shares_delta == 0
        &&& self.public_pool_info_delta.operator_shares_delta == 0
        &&& forall|i: int| 0 <= i < self.l1_address@.len() ==> #[trigger] self.l1_address@[i] == 0
        &&& self.account_type == 0
        &&& self.position_delta_root == p.empty_position_delta_tree_root
    }

    /// All of the delta but its assets.
    pub open spec fn elements(self) -> Seq<u64> {
        flat(self.public_pool_shares_delta@.map_values(|s: PublicPoolShareDelta| s.params())) + seq![
            signed_element(self.public_pool_info_delta.total_shares_delta),
            signed_element(self.public_pool_info_delta.operator_shares_delta),
        ] + limbs32(self.l1_address@, BIG_U160_LIMBS as nat) + seq![self.account_type as u64]
            + self.position_delta_root.elements()
    }

    /// Whether `out` may be the digest of all of the delta but its assets: zeros
    /// where nothing changed.
    pub open spec fn partially_hashed<H: Fn(&Vec<u64>) -> HashOut>(
        self,
        h: H,
        p: Protocol,
        out: HashOut,
    ) -> bool {
        if self.nothing_changed(p) {
            out == zero_hash()
        } else {
            hashed(h, self.elements(), out)
        }
    }

    /// Whether `out` may be the leaf of the delta.
    pub open spec fn leaf_hashed<H: Fn(&Vec<u64>) -> HashOut>(
        self,
        h: H,
        p: Protocol,
        out: HashOut,
    ) -> bool {
        exists|partial: HashOut, full: HashOut|
            {
                &&& #[trigger] self.partially_hashed(h, p, partial)
                &&& #[trigger] hashed(
                    h,
                    partial.elements() + self.asset_delta_root.elements(),
                    full,
                )
                &&& out == selected(
                    partial == zero_hash() && self.asset_delta_root == p.empty_asset_tree_root,
                    full,
                )
            }
    }
}

/// The digest of all of a delta but its assets.
pub fn account_delta_partial_hash<H: Fn(&Vec<u64>) -> HashOut>(
    delta: &AccountDelta,
    p: &Protocol,
    h: &H,
) -> (r: HashOut)
    requires
        delta.fits(),
        total_sponge(*h),
    ensures
        delta.partially_hashed(*h, *p, r),
{
    let shares: &Vec<PublicPoolShareDelta> = &delta.public_pool_shares_delta;
    let ghost parts = shares@.map_values(|s: PublicPoolShareDelta| s.params());
    let mut elements: Vec<u64> = Vec::new();
    let mut nothing_changed: bool = true;
    let mut i: usize = 0;
    assert(parts.take(0) =~= Seq::<Seq<u64>>::empty());
    while i < shares.len()
        invariant
            i <= shares@.len(),
            forall|j: int| 0 <= j < shares@.len() ==> (#[trigger] shares@[j]).public_pool_index >= 0,
            parts == shares@.map_values(|s: PublicPoolShareDelta| s.params()),
            elements@ == flat(parts.take(i as int)),
            nothing_changed == (forall|j: int|
                0 <= j < i ==> (#[trigger] shares@[j]).shares_delta == 0),
        decreases shares@.len() - i,
    {
        assert(shares@[i as int].public_pool_index >= 0);
        elements.push(shares[i].public_pool_index as u64);
        elements.push(signed_field(shares[i].shares_delta));
        if shares[i].shares_delta != 0 {
            nothing_changed = false;
        }
        proof {
            lemma_flat_push(parts, i as int);
            assert(elements@ =~= flat(parts.take(i as int)) + parts[i as int]);
        }
        i = i + 1;
    }
    assert(parts.take(shares@.len() as int) =~= parts);
    elements.push(signed_field(delta.public_pool_info_delta.total_shares_delta));
    elements.push(signed_field(delta.public_pool_info_delta.operator_shares_delta));
    if delta.public_pool_info_delta.total_shares_delta != 0 {
        nothing_changed = false;
    }
    if delta.public_pool_info_delta.operator_shares_delta != 0 {
        nothing_changed = false;
    }
    push_biguint_u32_limbs(&mut elements, &delta.l1_address, BIG_U160_LIMBS);
    if !all_zero(&delta.l1_address) {
        nothing_changed = false;
    }
    elements.push(delta.account_type as u64);
    if delta.account_type != 0 {
        nothing_changed = false;
    }
    push_hash(&mut elements, delta.position_delta_root);
    if delta.position_delta_root != p.empty_position_delta_tree_root {
        nothing_changed = false;
    }
    assert(nothing_changed == delta.nothing_changed(*p));
    assert(elements@ =~= delta.elements());
    if nothing_changed {
        HashOut::zero()
    } else {
        sponge(h, &elements)
    }
}

/// Whether every digit is zero.
fn all_zero(d: &Vec<u32>) -> (r: bool)
    ensures
        r == (forall|i: int| 0 <= i < d@.len() ==> #[trigger] d@[i] == 0),
{
    let mut i: usize = 0;
    while i < d.len()
        invariant
            i <= d@.len(),
            forall|j: int| 0 <= j < i ==> #[trigger] d@[j] == 0,
        decreases d@.len() - i,
    {
        if d[i] != 0 {
            return false;
        }
        i = i + 1;
    }
    true
}

/// The leaf of an account's change: the digest of zeros where nothing changed.
pub fn account_delta_leaf_hash<H: Fn(&Vec<u64>) -> HashOut>(
    delta: &AccountDelta,
    p: &Protocol,
    h: &H,
) -> (r: HashOut)
    requires
        delta.fits(),
        total_sponge(*h),
    ensures
        delta.leaf_hashed(*h, *p, r),
        delta.nothing_changed(*p) && delta.asset_delta_root == p.empty_asset_tree_root ==> r
            == zero_hash(),
{
    let partial: HashOut = account_delta_partial_hash(delta, p, h);
    let mut elements: Vec<u64> = Vec::new();
    push_hash(&mut elements, partial);
    push_hash(&mut elements, delta.asset_delta_root);
    let full: HashOut = sponge(h, &elements);
    assert(elements@ =~= partial.elements() + delta.asset_delta_root.elements());
    assert(hashed(*h, partial.elements() + delta.asset_delta_root.elements(), full));
    let is_empty: bool = partial == HashOut::zero() && delta.asset_delta_root
        == p.empty_asset_tree_root;
    select_empty(is_empty, full)
}

/// A market.
#[derive(Debug, Clone, Copy)]
pub struct Market {
    pub market_index: u16,
    pub market_type: u8,
    pub status: u8,
    pub base_asset_id: u16,
    pub quote_asset_id: u16,
    pub ask_nonce: i64,
    pub bid_nonce: i64,
    pub taker_fee: u32,
    pub maker_fee: u32,
    pub liquidation_fee: u32,
    pub size_extension_multiplier: i64,
    pub quote_extension_multiplier: i64,
    pub total_order_count: i64,
    pub min_base_amount: u64,
    pub min_quote_amount: u64,
    pub order_quote_limit: i64,
    pub order_book_root: HashOut,
}

impl Market {
    /// Whether every field is a field element.
    pub open spec fn fits(self) -> bool {
        &&& self.ask_nonce >= 0
        &&& self.bid_nonce >= 0
        &&& self.size_extension_multiplier >= 0
        &&& self.quote_extension_multiplier >= 0
        &&& self.total_order_count >= 0
        &&& self.order_quote_limit >= 0
        &&& self.min_base_amount < GOLDILOCKS_ORDER
        &&& self.min_quote_amount < GOLDILOCKS_ORDER
    }

    /// The fifteen fields that decide whether the market is empty.
    pub open spec fn scalars(self) -> Seq<u64> {
        seq![
            self.market_type as u64,
            self.status as u64,
            self.base_asset_id as u64,
            self.quote_asset_id as u64,
            self.ask_nonce as u64,
            self.bid_nonce as u64,
            self.taker_fee as u64,
            self.maker_fee as u64,
            self.liquidation_fee as u64,
            self.min_base_amount,
            self.min_quote_amount,
            self.order_quote_limit as u64,
            self.total_order_count as u64,
            self.size_extension_multiplier as u64,
            self.quote_extension_multiplier as u64,
        ]
    }

    /// Whether every scalar is zero; the order book does not matter.
    pub open spec fn is_empty(self) -> bool {
        forall|i: int| 0 <= i < self.scalars().len() ==> #[trigger] self.scalars()[i] == 0
    }

    /// Whether `out` may be the leaf of the market.
    pub open spec fn leaf_hashed<H: Fn(&Vec<u64>) -> HashOut>(self, h: H, out: HashOut) -> bool {
        exists|full: HashOut| #[trigger]
            hashed(h, self.scalars() + self.order_book_root.elements(), full) && out == selected(
                self.is_empty(),
                full,
            )
    }
}

/// The leaf of a market: the digest of zeros for an empty one.
pub fn market_leaf_hash<H: Fn(&Vec<u64>) -> HashOut>(market: &Market, h: &H) -> (r: HashOut)
    requires
        market.fits(),
        total_sponge(*h),
    ensures
        market.leaf_hashed(*h, r),
{
    let mut elements: Vec<u64> = Vec::new();
    elements.push(market.market_type as u64);
    elements.push(market.status as u64);
    elements.push(market.base_asset_id as u64);
    elements.push(market.quote_asset_id as u64);
    elements.push(market.ask_nonce as u64);
    elements.push(market.bid_nonce as u64);
    elements.push(market.taker_fee as u64);
    elements.push(market.maker_fee as u64);
    elements.push(market.liquidation_fee as u64);
    elements.push(market.min_base_amount);
    elements.push(market.min_quote_amount);
    elements.push(market.order_quote_limit as u64);
    elements.push(market.total_order_count as u64);
    elements.push(market.size_extension_multiplier as u64);
    elements.push(market.quote_extension_multiplier as u64);
    assert(elements@ =~= market.scalars());
    let mut is_empty: bool = true;
    let mut i: usize = 0;
    while i < elements.len()
        invariant
            i <= elements@.len(),
            elements@ == market.scalars(),
            is_empty == (forall|j: int| 0 <= j < i ==> #[trigger] market.scalars()[j] == 0),
        decreases elements@.len() - i,
    {
        if elements[i] != 0 {
            is_empty = false;
            assert(market.scalars()[i as int] != 0);
        }
        i = i + 1;
    }
    push_hash(&mut elements, market.order_book_root);
    let full: HashOut = sponge(h, &elements);
    assert(hashed(*h, market.scalars() + market.order_book_root.elements(), full));
    select_empty(is_empty, full)
}

/// An account has one leaf in each tree, where the sponge is a function: whoever
/// hashes the same account finds the same leaves.
pub proof fn account_leaves_are_unique<H: Fn(&Vec<u64>) -> HashOut>(
    h: H,
    p: Protocol,
    account: Account,
    a: (HashOut, HashOut, bool),
    b: (HashOut, HashOut, bool),
)
    requires
        functional_sponge(h),
        p.position_bucket_size > 0,
        account.leaves_hashed(h, p, a),
        account.leaves_hashed(h, p, b),
    ensures
        a == b,
{
    let size = p.position_bucket_size as int;
    let ext = extended(account.positions@);
    let (ba, pa) = choose|buckets: Seq<TwoHashes>, partial: TwoHashes|
        {
            &&& buckets_hashed(h, ext, size, buckets)
            &&& #[trigger] account.partially_hashed(h, buckets, partial)
            &&& account.hashed_from_partial(h, p, partial, a)
        };
    let (bb, pb) = choose|buckets: Seq<TwoHashes>, partial: TwoHashes|
        {
            &&& buckets_hashed(h, ext, size, buckets)
            &&& #[trigger] account.partially_hashed(h, buckets, partial)
            &&& account.hashed_from_partial(h, p, partial, b)
        };
    lemma_buckets_are_unique(h, ext, size, ba, bb);
    assert(pa.pub_data == pb.pub_data);
    assert(pa.full == pb.full);
    assert(pa == pb);
}

proof fn lemma_buckets_are_unique<H: Fn(&Vec<u64>) -> HashOut>(
    h: H,
    positions: Seq<PositionView>,
    size: int,
    a: Seq<TwoHashes>,
    b: Seq<TwoHashes>,
)
    requires
        functional_sponge(h),
        size > 0,
        buckets_hashed(h, positions, size, a),
        buckets_hashed(h, positions, size, b),
    ensures
        a == b,
{
    let (m, n) = (a.len() as int, b.len() as int);
    assert(m == n) by (nonlinear_arith)
        requires
            size > 0,
            size * (m - 1) < positions.len() <= size * m,
            size * (n - 1) < positions.len() <= size * n,
    ;
    assert forall|i: int| 0 <= i < m implies a[i] == b[i] by {
        assert(bucket_hashed(h, bucket_at(positions, size * i, size), a[i]));
        assert(bucket_hashed(h, bucket_at(positions, size * i, size), b[i]));
        assert(a[i].pub_data == b[i].pub_data);
        assert(a[i].full == b[i].full);
    }
    assert(a =~= b);
}

/// A change has one leaf, where the sponge is a function.
pub proof fn delta_leaves_are_unique<H: Fn(&Vec<u64>) -> HashOut>(
    h: H,
    p: Protocol,
    delta: AccountDelta,
    a: HashOut,
    b: HashOut,
)
    requires
        functional_sponge(h),
        delta.leaf_hashed(h, p, a),
        delta.leaf_hashed(h, p, b),
    ensures
        a == b,
{
}

} // verus!
