//! The commitment to a blob and the opening of its polynomial.
//!
//! The versioned hash comes of the commitment that `c_kzg` computes. The opening
//! point comes of a transcript over the blob's data and that hash, and the
//! opening value is the blob's polynomial at that point. The sponge and the
//! two-to-one compression are the caller's.

use crate::big::{
    be_value, big_add, big_modpow, big_mul, big_rem, big_sub, bytes_of_digits, digits_are_unique,
    digits_of_bytes, digits_of_decimal, digits_value, lemma_top_byte, trimmed_digits,
};
use crate::blob_encode::{
    BLOB_ACCOUNT_OFFSET, BLOB_DATA_BYTES_COUNT, BLOB_MARK_PRICE_INDEX, BLOB_RESERVED_INDEX,
    BLOB_VERSION_INDEX, BLOB_WIDTH,
};
use crate::digest::{sha256_of, versioned_hash};
use crate::hash::{
    compresses, functional, functional_sponge, hashed, push_hash, sponge, total, total_sponge,
    HashOut,
};
use crate::kzg_setup::{read_setup, setup_points, SetupPoints};
use crate::polynomial::{
    congruent, fermat, geometric, is_prime, lemma_congruent_chain, lemma_congruent_mod,
    lemma_congruent_product, lemma_congruent_same, lemma_congruent_sum, lemma_euclid, lemma_geometric,
    lemma_poly_scaled, lemma_small_congruent, lemma_weighted_at_root, lemma_weighted_is_polynomial,
    lemma_weighted_len, lemma_weighted_step, lemma_zeros, poly_at, poly_scaled, roots_of_unity,
    weighted,
};
use crate::text::{all_digits, dec_value, pieces_from, split_on};
use vstd::arithmetic::div_mod::{lemma_mod_add_multiples_vanish, lemma_small_mod};
use vstd::arithmetic::power::*;
use vstd::prelude::*;
use vstd::string::*;

verus! {

/// Bytes of a blob with every element in 32 bytes.
pub const BYTES_PER_BLOB: usize = 131_072;

/// Where the public trusted setup is kept.
pub const DEFAULT_TRUSTED_SETUP_PATH: &'static str = "bench/assets/trusted_setup.txt";

/// What the circuits read of a market slot.
#[derive(Clone, Copy, Debug, PartialEq, Eq, Structural)]
pub struct MarketLimbs {
    pub mark_price: u64,
    pub funding_is_negative: bool,
    pub funding_limb_hi: u64,
    pub funding_limb_lo: u64,
    pub quote_multiplier: u64,
}

/// An empty market slot.
pub open spec fn empty_market_slot() -> MarketLimbs {
    MarketLimbs {
        mark_price: 0,
        funding_is_negative: false,
        funding_limb_hi: 0,
        funding_limb_lo: 0,
        quote_multiplier: 0,
    }
}

impl Default for MarketLimbs {
    fn default() -> (r: Self)
        ensures
            r == empty_market_slot(),
    {
        MarketLimbs {
            mark_price: 0,
            funding_is_negative: false,
            funding_limb_hi: 0,
            funding_limb_lo: 0,
            quote_multiplier: 0,
        }
    }
}


/// `packed` with a zero byte in front of every 31 bytes.
pub open spec fn canonical_blob(packed: Seq<u8>) -> Seq<u8> {
    Seq::new(
        BYTES_PER_BLOB as nat,
        |i: int|
            if i % 32 == 0 {
                0u8
            } else {
                packed[i / 32 * 31 + i % 32 - 1]
            },
    )
}

/// The blob with every element in 32 bytes.
pub fn packed_blob_to_canonical(packed: &Vec<u8>) -> (r: Vec<u8>)
    requires
        packed@.len() == BLOB_DATA_BYTES_COUNT,
    ensures
        r@ == canonical_blob(packed@),
{
    let mut r: Vec<u8> = Vec::new();
    let mut i: usize = 0;
    while i < BLOB_WIDTH
        invariant
            i <= BLOB_WIDTH,
            packed@.len() == BLOB_DATA_BYTES_COUNT,
            r@.len() == 32 * i,
            forall|q: int| 0 <= q < r@.len() ==> r@[q] == canonical_blob(packed@)[q],
        decreases BLOB_WIDTH - i,
    {
        r.push(0u8);
        let mut j: usize = 0;
        while j < 31
            invariant
                i < BLOB_WIDTH,
                j <= 31,
                packed@.len() == BLOB_DATA_BYTES_COUNT,
                r@.len() == 32 * i + 1 + j,
                forall|q: int| 0 <= q < r@.len() ==> r@[q] == canonical_blob(packed@)[q],
            decreases 31 - j,
        {
            r.push(packed[i * 31 + j]);
            j = j + 1;
        }
        i = i + 1;
    }
    assert(r@ =~= canonical_blob(packed@));
    r
}

/// Dropping the first of every 32 bytes gives the packed blob back.
pub proof fn canonical_blob_is_lossless(packed: Seq<u8>, i: int)
    requires
        packed.len() == BLOB_DATA_BYTES_COUNT,
        0 <= i < BLOB_WIDTH,
    ensures
        canonical_blob(packed)[32 * i] == 0,
        canonical_blob(packed).subrange(32 * i + 1, 32 * i + 32) == packed.subrange(
            31 * i,
            31 * i + 31,
        ),
{
    assert(canonical_blob(packed).subrange(32 * i + 1, 32 * i + 32) =~= packed.subrange(
        31 * i,
        31 * i + 31,
    ));
}

/// The digits of the order of the scalar field.
pub open spec fn order_digits() -> Seq<u32> {
    seq![
        0x0000_0001,
        0xffff_ffff,
        0xfffe_5bfe,
        0x53bd_a402,
        0x09a1_d805,
        0x3339_d808,
        0x299d_7d48,
        0x73ed_a753,
    ]
}

/// The order of the scalar field.
pub open spec fn scalar_order() -> int {
    digits_value(order_digits()) as int
}

/// An element of the scalar field: the digits of a number below its order.
#[derive(Debug, Clone)]
pub struct Scalar {
    pub digits: Vec<u32>,
}

impl Scalar {
    pub open spec fn value(&self) -> int {
        digits_value(self.digits@) as int
    }

    pub open spec fn wf(&self) -> bool {
        self.value() < scalar_order()
    }
}

/// The numbers that scalars stand for.
pub open spec fn values(s: Seq<Scalar>) -> Seq<int> {
    s.map_values(|x: Scalar| x.value())
}

pub open spec fn all_wf(s: Seq<Scalar>) -> bool {
    forall|i: int| 0 <= i < s.len() ==> (#[trigger] s[i]).wf()
}

proof fn lemma_digits_bound(d: Seq<u32>)
    ensures
        digits_value(d) < pow(0x1_0000_0000, d.len()),
    decreases d.len(),
{
    reveal(pow);
    if d.len() > 0 {
        lemma_digits_bound(d.drop_first());
        assert(pow(0x1_0000_0000, d.len()) == 0x1_0000_0000 * pow(
            0x1_0000_0000,
            (d.len() - 1) as nat,
        ));
    }
}

pub(crate) proof fn lemma_bytes_bound(b: Seq<u8>)
    ensures
        be_value(b) < pow(256, b.len()),
    decreases b.len(),
{
    reveal(pow);
    if b.len() > 0 {
        lemma_bytes_bound(b.drop_last());
        assert(pow(256, b.len()) == 256 * pow(256, (b.len() - 1) as nat));
    }
}

/// The order lies between the largest element of a packed blob and 32 bytes.
proof fn lemma_order()
    ensures
        pow(256, 31) < scalar_order() < pow(256, 32),
        scalar_order() > 4096,
{
    let d = order_digits();
    lemma_digits_bound(d);
    reveal(pow);
    reveal_with_fuel(digits_value, 9);
    lemma_pow_multiplies(256, 4, 8);
    assert(pow(256, 4) == 0x1_0000_0000) by {
        reveal_with_fuel(pow, 5);
    }
    let w = 0x1_0000_0000int;
    lemma_pow_multiplies(256, 4, 7);
    lemma_pow_adds(256, 28, 3);
    assert(pow(256, 3) == 0x100_0000) by {
        reveal_with_fuel(pow, 4);
    }
    assert(pow(w, 7) == w * (w * (w * (w * (w * (w * w)))))) by {
        reveal_with_fuel(pow, 8);
    }
    assert(d.drop_first()[0] == 0xffff_ffffu32);
    assert(digits_value(d) >= 0x73ed_a753 * (w * (w * (w * (w * (w * (w * w))))))) by {
        let d1 = d.drop_first();
        let d2 = d1.drop_first();
        let d3 = d2.drop_first();
        let d4 = d3.drop_first();
        let d5 = d4.drop_first();
        let d6 = d5.drop_first();
        let d7 = d6.drop_first();
        assert(d7.len() == 1 && d7[0] == 0x73ed_a753u32);
        assert(digits_value(d7) == 0x73ed_a753);
        assert(digits_value(d6) >= w * 0x73ed_a753);
        assert(digits_value(d5) >= w * (w * 0x73ed_a753));
        assert(digits_value(d4) >= w * (w * (w * 0x73ed_a753)));
        assert(digits_value(d3) >= w * (w * (w * (w * 0x73ed_a753))));
        assert(digits_value(d2) >= w * (w * (w * (w * (w * 0x73ed_a753)))));
        assert(digits_value(d1) >= w * (w * (w * (w * (w * (w * 0x73ed_a753))))));
        assert(digits_value(d) >= w * (w * (w * (w * (w * (w * (w * 0x73ed_a753)))))));
    }
}

/// The order of the scalar field.
fn bls_order() -> (r: Vec<u32>)
    ensures
        r@ == order_digits(),
        digits_value(r@) == scalar_order(),
        scalar_order() > 4096,
{
    let r: Vec<u32> = vec![
        0x0000_0001,
        0xffff_ffff,
        0xfffe_5bfe,
        0x53bd_a402,
        0x09a1_d805,
        0x3339_d808,
        0x299d_7d48,
        0x73ed_a753,
    ];
    assert(r@ =~= order_digits());
    proof {
        lemma_order();
    }
    r
}

/// The inverse of `b` in the scalar field, by the exponent two below its order.
pub open spec fn inverse(b: int) -> int {
    pow(b, (scalar_order() - 2) as nat) % scalar_order()
}

/// `a` over `b` in the scalar field.
pub open spec fn quotient(a: int, b: int) -> int {
    (a * inverse(b)) % scalar_order()
}

/// `a - b` in the scalar field.
fn scalar_sub(a: &Scalar, b: &Scalar) -> (r: Scalar)
    requires
        a.wf(),
        b.wf(),
    ensures
        r.wf(),
        r.value() == (a.value() - b.value()) % scalar_order(),
        trimmed_digits(r.digits@),
{
    let order: Vec<u32> = bls_order();
    let raised: Vec<u32> = big_add(&a.digits, &order);
    let difference: Vec<u32> = big_sub(&raised, &b.digits);
    let digits: Vec<u32> = big_rem(&difference, &order);
    proof {
        lemma_mod_add_multiples_vanish(
            a.value() - b.value(),
            scalar_order(),
        );
    }
    Scalar { digits }
}

/// `a + b` in the scalar field.
fn scalar_add(a: &Scalar, b: &Scalar) -> (r: Scalar)
    ensures
        r.wf(),
        r.value() == (a.value() + b.value()) % scalar_order(),
{
    let order: Vec<u32> = bls_order();
    let sum: Vec<u32> = big_add(&a.digits, &b.digits);
    Scalar { digits: big_rem(&sum, &order) }
}

/// `a * b` in the scalar field.
fn scalar_mul(a: &Scalar, b: &Scalar) -> (r: Scalar)
    ensures
        r.wf(),
        r.value() == (a.value() * b.value()) % scalar_order(),
{
    let order: Vec<u32> = bls_order();
    let product: Vec<u32> = big_mul(&a.digits, &b.digits);
    proof {
        assert(a.value() * b.value() >= 0) by (nonlinear_arith)
            requires
                a.value() >= 0,
                b.value() >= 0,
        ;
    }
    Scalar { digits: big_rem(&product, &order) }
}

/// `a^e` in the scalar field.
fn scalar_pow(a: &Scalar, e: &Vec<u32>) -> (r: Scalar)
    ensures
        r.wf(),
        r.value() == pow(a.value(), digits_value(e@)) % scalar_order(),
{
    let order: Vec<u32> = bls_order();
    Scalar { digits: big_modpow(&a.digits, e, &order) }
}

/// `a / b` in the scalar field.
fn scalar_div(a: &Scalar, b: &Scalar) -> (r: Scalar)
    ensures
        r.wf(),
        r.value() == quotient(a.value(), b.value()),
{
    let order: Vec<u32> = bls_order();
    let two: Vec<u32> = vec![2u32];
    assert(digits_value(two@) == 2) by {
        reveal_with_fuel(digits_value, 2);
    }
    let exponent: Vec<u32> = big_sub(&order, &two);
    let inverted: Scalar = scalar_pow(b, &exponent);
    scalar_mul(a, &inverted)
}

/// The scalar `v`.
fn scalar_of(v: u32) -> (r: Scalar)
    requires
        0 < v <= 4096,
    ensures
        r.wf(),
        r.value() == v,
{
    let digits: Vec<u32> = vec![v];
    proof {
        lemma_order();
        reveal_with_fuel(digits_value, 2);
    }
    Scalar { digits }
}

/// The last of the first `n` roots that equals `x`.
pub open spec fn root_index(roots: Seq<int>, x: int, n: int) -> Option<int>
    decreases n,
{
    if n <= 0 {
        None
    } else if roots[n - 1] == x {
        Some(n - 1)
    } else {
        root_index(roots, x, n - 1)
    }
}

/// The sum of `roots[i] * blob[i] / (x - roots[i])` over the first `n` roots other
/// than `x`.
pub open spec fn barycentric(roots: Seq<int>, blob: Seq<int>, x: int, n: int) -> int
    decreases n,
{
    if n <= 0 {
        0
    } else {
        let before = barycentric(roots, blob, x, n - 1);
        if roots[n - 1] == x {
            before
        } else {
            (before + quotient(
                (roots[n - 1] * blob[n - 1]) % scalar_order(),
                (x - roots[n - 1]) % scalar_order(),
            )) % scalar_order()
        }
    }
}

/// The polynomial with the values `blob` at the roots of unity, at `x`.
pub open spec fn evaluated(roots: Seq<int>, blob: Seq<int>, x: int) -> int {
    match root_index(roots, x, BLOB_WIDTH as int) {
        Some(i) => blob[i],
        None => (barycentric(roots, blob, x, BLOB_WIDTH as int) * quotient(
            (pow(x, BLOB_WIDTH as nat) % scalar_order() - 1) % scalar_order(),
            BLOB_WIDTH as int,
        )) % scalar_order(),
    }
}

/// The blob's polynomial at `x`, from its values at the roots of unity.
pub fn eval_blob_polynomial(blob: &Vec<Scalar>, x: &Scalar, roots: &Vec<Scalar>) -> (r: Scalar)
    requires
        blob@.len() == BLOB_WIDTH,
        roots@.len() >= BLOB_WIDTH,
        all_wf(blob@),
        all_wf(roots@),
        x.wf(),
    ensures
        r.wf(),
        r.value() == evaluated(values(roots@), values(blob@), x.value()),
{
    let ghost rv = values(roots@);
    let ghost bv = values(blob@);
    let mut sum: Scalar = Scalar { digits: Vec::new() };
    let mut at_root: Option<usize> = None;
    let mut i: usize = 0;
    proof {
        lemma_order();
    }
    while i < BLOB_WIDTH
        invariant
            i <= BLOB_WIDTH,
            blob@.len() == BLOB_WIDTH,
            roots@.len() >= BLOB_WIDTH,
            all_wf(blob@),
            all_wf(roots@),
            x.wf(),
            rv == values(roots@),
            bv == values(blob@),
            sum.wf(),
            sum.value() == barycentric(rv, bv, x.value(), i as int),
            root_index(rv, x.value(), i as int) == match at_root {
                Some(j) => Some(j as int),
                None => None,
            },
            at_root matches Some(j) ==> j < i,
        decreases BLOB_WIDTH - i,
    {
        let root: &Scalar = &roots[i];
        assert(root.wf() && blob@[i as int].wf());
        assert(rv[i as int] == root.value() && bv[i as int] == blob@[i as int].value());
        let denominator: Scalar = scalar_sub(x, root);
        proof {
            lemma_difference_is_zero(x.value(), root.value());
            lemma_zero_digits(denominator.digits@);
        }
        if denominator.digits.len() == 0 {
            at_root = Some(i);
        } else {
            let weighted: Scalar = scalar_mul(root, &blob[i]);
            let term: Scalar = scalar_div(&weighted, &denominator);
            sum = scalar_add(&sum, &term);
        }
        i = i + 1;
    }
    match at_root {
        Some(j) => {
            assert(blob@[j as int].wf());
            Scalar { digits: copy_digits(&blob[j].digits) }
        },
        None => {
            let width: Scalar = scalar_of(4096);
            let one: Scalar = scalar_of(1);
            let power: Scalar = scalar_pow(x, &width.digits);
            let numerator: Scalar = scalar_sub(&power, &one);
            let factor: Scalar = scalar_div(&numerator, &width);
            scalar_mul(&sum, &factor)
        },
    }
}

/// A copy of `d`.
fn copy_digits(d: &Vec<u32>) -> (r: Vec<u32>)
    ensures
        r@ == d@,
{
    let r: Vec<u32> = d.clone();
    assert(r@ =~= d@);
    r
}

proof fn lemma_difference_is_zero(a: int, b: int)
    requires
        0 <= a < scalar_order(),
        0 <= b < scalar_order(),
    ensures
        (a - b) % scalar_order() == 0 <==> a == b,
{
    let n = scalar_order();
    if a >= b {
        lemma_small_mod((a - b) as nat, n as nat);
    } else {
        lemma_small_mod((a - b + n) as nat, n as nat);
        lemma_mod_add_multiples_vanish(a - b, n);
    }
}

proof fn lemma_zero_digits(d: Seq<u32>)
    requires
        trimmed_digits(d),
    ensures
        digits_value(d) == 0 <==> d.len() == 0,
{
    if digits_value(d) == 0 {
        digits_are_unique(d, Seq::<u32>::empty());
    }
}

/// At a root of unity the polynomial is the blob's element there.
pub proof fn opening_at_a_root_is_the_element(roots: Seq<int>, blob: Seq<int>, i: int)
    requires
        0 <= i < BLOB_WIDTH,
        roots.len() == BLOB_WIDTH,
        forall|a: int, b: int| 0 <= a < b < BLOB_WIDTH ==> roots[a] != roots[b],
    ensures
        evaluated(roots, blob, roots[i]) == blob[i],
{
    lemma_root_index(roots, i, BLOB_WIDTH as int);
}

proof fn lemma_root_index(roots: Seq<int>, i: int, n: int)
    requires
        0 <= i < n <= roots.len(),
        forall|a: int, b: int| 0 <= a < b < roots.len() ==> roots[a] != roots[b],
    ensures
        root_index(roots, roots[i], n) == Some(i),
    decreases n,
{
    if i < n - 1 {
        lemma_root_index(roots, i, n - 1);
    }
}

/// Dividing by anything but zero is undone by multiplying, as the order is prime.
pub proof fn quotients_are_undone(a: int, b: int)
    requires
        is_prime(scalar_order()),
        0 < b < scalar_order(),
    ensures
        congruent(quotient(a, b) * b, a, scalar_order()),
{
    let r = scalar_order();
    let e = pow(b, (r - 2) as nat);
    fermat(b, r);
    assert(pow(b, (r - 1) as nat) == b * e) by {
        reveal(pow);
    }
    let i = inverse(b);
    lemma_congruent_mod(e, r);
    lemma_congruent_same(b, r);
    lemma_congruent_product(i, e, b, b, r);
    assert(e * b == b * e) by (nonlinear_arith);
    lemma_congruent_chain(i * b, e * b, 1, r);
    lemma_congruent_mod(a * i, r);
    lemma_congruent_product(quotient(a, b), a * i, b, b, r);
    assert((a * i) * b == a * (i * b)) by (nonlinear_arith);
    lemma_congruent_same(a, r);
    lemma_congruent_product(a, a, i * b, 1, r);
    assert(a * 1 == a);
    lemma_congruent_chain(quotient(a, b) * b, a * (i * b), a, r);
}

/// Numbers below the order, all of which are roots of unity, and all different.
pub open spec fn are_the_roots(roots: Seq<int>) -> bool {
    &&& roots_of_unity(roots, 4096, scalar_order())
    &&& forall|i: int| 0 <= i < 4096 ==> 0 <= #[trigger] roots[i] < scalar_order()
}

proof fn lemma_no_root(roots: Seq<int>, x: int, n: int, i: int)
    requires
        root_index(roots, x, n) is None,
        0 <= i < n,
    ensures
        roots[i] != x,
    decreases n,
{
    if i < n - 1 {
        lemma_no_root(roots, x, n - 1, i);
    }
}

proof fn lemma_found_root(roots: Seq<int>, x: int, n: int)
    requires
        root_index(roots, x, n) is Some,
    ensures
        0 <= root_index(roots, x, n)->0 < n,
        roots[root_index(roots, x, n)->0] == x,
    decreases n,
{
    if roots[n - 1] != x {
        lemma_found_root(roots, x, n - 1);
    }
}

proof fn lemma_barycentric(roots: Seq<int>, blob: Seq<int>, x: int, k: nat)
    requires
        is_prime(scalar_order()),
        are_the_roots(roots),
        0 <= x < scalar_order(),
        k <= 4096,
        forall|i: int| 0 <= i < k ==> #[trigger] roots[i] != x,
    ensures
        congruent(
            barycentric(roots, blob, x, k as int) * (pow(x, 4096) - 1),
            poly_at(weighted(roots, blob, 4096, k), x),
            scalar_order(),
        ),
    decreases k,
{
    let r = scalar_order();
    let t = pow(x, 4096) - 1;
    if k == 0 {
        lemma_zeros(4096, x);
        assert(0 * t == 0);
        lemma_congruent_same(0, r);
    } else {
        let i = k - 1;
        let (w, v) = (roots[i], blob[i]);
        assert(roots[i] != x);
        lemma_barycentric(roots, blob, x, (k - 1) as nat);
        let before = barycentric(roots, blob, x, k - 1);
        let d = (x - w) % r;
        lemma_difference_is_zero(x, w);
        vstd::arithmetic::div_mod::lemma_mod_bound(x - w, r);
        let a = (w * v) % r;
        let q = quotient(a, d);
        quotients_are_undone(a, d);
        // q * (x - w) is w * v.
        lemma_congruent_mod(x - w, r);
        lemma_congruent_same(q, r);
        lemma_congruent_product(q, q, x - w, d, r);
        lemma_congruent_mod(w * v, r);
        lemma_congruent_chain(q * (x - w), q * d, a, r);
        lemma_congruent_chain(q * (x - w), a, w * v, r);
        // x^n - 1 is (x - w) * g.
        lemma_geometric(w, 4096, x);
        let g = poly_at(geometric(w, 4096), x);
        assert(congruent(pow(roots[i], 4096), 1, r));
        lemma_congruent_same(pow(x, 4096), r);
        lemma_congruent_sum(pow(x, 4096), pow(x, 4096), pow(w, 4096), 1, r);
        lemma_congruent_same(t, r);
        lemma_congruent_chain((x - w) * g, t, t, r);
        // q * (x^n - 1) is w * v * g.
        lemma_congruent_product(q, q, t, (x - w) * g, r);
        assert(q * ((x - w) * g) == (q * (x - w)) * g) by (nonlinear_arith);
        lemma_congruent_same(g, r);
        lemma_congruent_product(q * (x - w), w * v, g, g, r);
        lemma_congruent_chain(q * t, (q * (x - w)) * g, (w * v) * g, r);
        // Put together.
        let old_w = poly_at(weighted(roots, blob, 4096, (k - 1) as nat), x);
        lemma_congruent_sum(before * t, old_w, q * t, (w * v) * g, r);
        assert((before + q) * t == before * t + q * t) by (nonlinear_arith);
        lemma_congruent_mod(before + q, r);
        lemma_congruent_product((before + q) % r, before + q, t, t, r);
        lemma_weighted_step(roots, blob, 4096, k, x);
        lemma_congruent_chain(
            ((before + q) % r) * t,
            (before + q) * t,
            poly_at(weighted(roots, blob, 4096, k), x),
            r,
        );
    }
}

/// Off the roots, the opening is the weighted sum over 4096.
proof fn lemma_evaluated(roots: Seq<int>, blob: Seq<int>, x: int)
    requires
        is_prime(scalar_order()),
        are_the_roots(roots),
        0 <= x < scalar_order(),
        forall|i: int| 0 <= i < 4096 ==> #[trigger] roots[i] != x,
    ensures
        0 <= evaluated(roots, blob, x) < scalar_order(),
        congruent(
            evaluated(roots, blob, x) * 4096,
            poly_at(weighted(roots, blob, 4096, 4096), x),
            scalar_order(),
        ),
{
    let r = scalar_order();
    lemma_order();
    if root_index(roots, x, 4096) is Some {
        lemma_found_root(roots, x, 4096);
    }
    lemma_barycentric(roots, blob, x, 4096);
    let t = pow(x, 4096) - 1;
    let b = barycentric(roots, blob, x, 4096);
    let n = (pow(x, 4096) % r - 1) % r;
    let f = quotient(n, 4096);
    quotients_are_undone(n, 4096);
    lemma_congruent_mod(pow(x, 4096), r);
    lemma_congruent_same(1, r);
    lemma_congruent_sum(pow(x, 4096) % r, pow(x, 4096), 1, 1, r);
    lemma_congruent_mod(pow(x, 4096) % r - 1, r);
    lemma_congruent_chain(n, pow(x, 4096) % r - 1, t, r);
    lemma_congruent_chain(f * 4096, n, t, r);
    lemma_congruent_same(b, r);
    lemma_congruent_product(b, b, f * 4096, t, r);
    assert(b * (f * 4096) == (b * f) * 4096) by (nonlinear_arith);
    lemma_congruent_mod(b * f, r);
    lemma_congruent_same(4096, r);
    lemma_congruent_product((b * f) % r, b * f, 4096, 4096, r);
    lemma_congruent_chain(((b * f) % r) * 4096, (b * f) * 4096, b * t, r);
    lemma_congruent_chain(
        ((b * f) % r) * 4096,
        b * t,
        poly_at(weighted(roots, blob, 4096, 4096), x),
        r,
    );
    vstd::arithmetic::div_mod::lemma_mod_bound(b * f, r);
}

/// An equation modulo the order may be divided by 4096.
proof fn lemma_cancel_width(a: int, b: int)
    requires
        is_prime(scalar_order()),
        congruent(a * 4096, 4096 * b, scalar_order()),
    ensures
        congruent(a, b, scalar_order()),
{
    let r = scalar_order();
    lemma_order();
    assert(a * 4096 - 4096 * b == 4096 * (a - b));
    lemma_euclid(4096, a - b, r);
    lemma_small_mod(4096, r as nat);
}

/// The opening is the value of the blob's polynomial: whatever polynomial of degree
/// below 4096 takes the blob's elements at the 4096 roots of unity, it takes at `x`
/// what the opening says. The order is prime.
pub proof fn openings_are_values_of_the_polynomial(
    roots: Seq<int>,
    blob: Seq<int>,
    x: int,
    c: Seq<int>,
)
    requires
        is_prime(scalar_order()),
        are_the_roots(roots),
        blob.len() == 4096,
        forall|i: int| 0 <= i < 4096 ==> 0 <= #[trigger] blob[i] < scalar_order(),
        0 <= x < scalar_order(),
        c.len() == 4096,
        forall|i: int|
            0 <= i < 4096 ==> congruent(poly_at(c, #[trigger] roots[i]), blob[i], scalar_order()),
    ensures
        evaluated(roots, blob, x) == poly_at(c, x) % scalar_order(),
{
    let r = scalar_order();
    lemma_order();
    let y = evaluated(roots, blob, x);
    let v = poly_at(c, x);
    if root_index(roots, x, 4096) is Some {
        lemma_found_root(roots, x, 4096);
        let i = root_index(roots, x, 4096)->0;
        assert(congruent(poly_at(c, roots[i]), blob[i], r));
        lemma_congruent_same(blob[i], r);
        lemma_congruent_chain(v, y, y, r);
    } else {
        assert forall|i: int| 0 <= i < 4096 implies #[trigger] roots[i] != x by {
            lemma_no_root(roots, x, 4096, i);
        }
        lemma_evaluated(roots, blob, x);
        lemma_weighted_is_polynomial(roots, blob, 4096, c, x, r);
        lemma_congruent_chain(
            y * 4096,
            poly_at(weighted(roots, blob, 4096, 4096), x),
            4096 * v,
            r,
        );
        lemma_cancel_width(y, v);
    }
    lemma_congruent_mod(v, r);
    lemma_congruent_chain(y, v, v % r, r);
    vstd::arithmetic::div_mod::lemma_mod_bound(v, r);
    lemma_small_congruent(y, v % r, r);
}

/// Every blob has such a polynomial.
pub proof fn every_blob_has_a_polynomial(roots: Seq<int>, blob: Seq<int>) -> (c: Seq<int>)
    requires
        is_prime(scalar_order()),
        are_the_roots(roots),
    ensures
        c.len() == 4096,
        forall|i: int|
            0 <= i < 4096 ==> congruent(poly_at(c, #[trigger] roots[i]), blob[i], scalar_order()),
{
    let r = scalar_order();
    lemma_order();
    let q = weighted(roots, blob, 4096, 4096);
    lemma_weighted_len(roots, blob, 4096, 4096);
    let k = quotient(1, 4096);
    quotients_are_undone(1, 4096);
    let c = poly_scaled(k, q);
    assert forall|i: int| 0 <= i < 4096 implies congruent(
        poly_at(c, #[trigger] roots[i]),
        blob[i],
        r,
    ) by {
        let x = roots[i];
        lemma_poly_scaled(k, q, x);
        lemma_weighted_at_root(roots, blob, 4096, 4096, i, r);
        lemma_congruent_same(k, r);
        lemma_congruent_product(k, k, poly_at(q, x), 4096 * blob[i], r);
        assert(k * (4096 * blob[i]) == (k * 4096) * blob[i]) by (nonlinear_arith);
        lemma_congruent_same(blob[i], r);
        lemma_congruent_product(k * 4096, 1, blob[i], blob[i], r);
        assert(1 * blob[i] == blob[i]);
        lemma_congruent_chain(poly_at(c, x), (k * 4096) * blob[i], blob[i], r);
    }
    c
}

/// Every element of a blob counts: at a point that is no root of unity, blobs that
/// differ in one element, whichever it is, have different openings.
pub proof fn every_element_counts(roots: Seq<int>, a: Seq<int>, b: Seq<int>, i: int, x: int)
    requires
        is_prime(scalar_order()),
        are_the_roots(roots),
        0 <= x < scalar_order(),
        !congruent(pow(x, 4096), 1, scalar_order()),
        0 <= i < 4096,
        forall|j: int| 0 <= j < 4096 && j != i ==> #[trigger] a[j] == b[j],
        !congruent(a[i], b[i], scalar_order()),
    ensures
        evaluated(roots, a, x) != evaluated(roots, b, x),
{
    let r = scalar_order();
    lemma_order();
    assert forall|j: int| 0 <= j < 4096 implies #[trigger] roots[j] != x by {
        assert(congruent(pow(roots[j], 4096), 1, r));
    }
    lemma_evaluated(roots, a, x);
    lemma_evaluated(roots, b, x);
    lemma_one_weight(roots, a, b, i, x, 4096);
    let w = roots[i];
    let g = poly_at(geometric(w, 4096), x);
    let (pa, pb) = (
        poly_at(weighted(roots, a, 4096, 4096), x),
        poly_at(weighted(roots, b, 4096, 4096), x),
    );
    if evaluated(roots, a, x) == evaluated(roots, b, x) {
        let y = evaluated(roots, a, x) * 4096;
        lemma_congruent_sum(y, pa, y, pb, r);
        lemma_congruent_same(pa - pb, r);
        lemma_congruent_chain(y - y, pa - pb, pa - pb, r);
        let e = a[i] - b[i];
        assert(congruent(w * e * g, 0, r));
        lemma_euclid(w * e, g, r);
        lemma_geometric(w, 4096, x);
        assert(congruent(pow(roots[i], 4096), 1, r));
        if g % r == 0 {
            lemma_congruent_same(x - w, r);
            lemma_congruent_product(x - w, x - w, g, 0, r);
            assert((x - w) * 0 == 0);
            lemma_congruent_sum(pow(x, 4096) - pow(w, 4096), 0, pow(w, 4096), 1, r);
        } else {
            lemma_euclid(w, e, r);
            // A root of unity is not zero.
            if w % r == 0 {
                lemma_small_mod(w as nat, r as nat);
                assert(pow(0, 4096) == 0) by {
                    reveal(pow);
                }
                lemma_small_mod(1, r as nat);
                lemma_congruent_same(1, r);
                lemma_congruent_chain(0, 1, 1, r);
            }
        }
    }
}

proof fn lemma_one_weight(roots: Seq<int>, a: Seq<int>, b: Seq<int>, i: int, x: int, k: nat)
    requires
        k <= 4096,
        forall|j: int| 0 <= j < k && j != i ==> #[trigger] a[j] == b[j],
    ensures
        poly_at(weighted(roots, a, 4096, k), x) - poly_at(weighted(roots, b, 4096, k), x) == if 0 <= i
            < k {
            roots[i] * (a[i] - b[i]) * poly_at(geometric(roots[i], 4096), x)
        } else {
            0
        },
    decreases k,
{
    if k > 0 {
        lemma_one_weight(roots, a, b, i, x, (k - 1) as nat);
        lemma_weighted_step(roots, a, 4096, k, x);
        lemma_weighted_step(roots, b, 4096, k, x);
        let j = k - 1;
        if j == i {
            let (w, u, v, g) = (roots[i], a[i], b[i], poly_at(geometric(roots[i], 4096), x));
            assert(w * u * g - w * v * g == w * (u - v) * g) by (nonlinear_arith);
        } else {
            assert(a[j] == b[j]);
        }
    }
}

/// Whether `list` is a list of decimal numerals between commas.
pub open spec fn is_numeral_list(list: Seq<char>) -> bool {
    forall|i: int|
        0 <= i < pieces_from(list, ',', 0).len() ==> (#[trigger] pieces_from(list, ',', 0)[i]).len() > 0
            && all_digits(pieces_from(list, ',', 0)[i])
}

/// The scalars that a list of decimal numerals stands for.
pub fn brp_roots_of_unity(list: &str) -> (r: Vec<Scalar>)
    requires
        is_numeral_list(list@),
    ensures
        all_wf(r@),
        values(r@) == pieces_from(list@, ',', 0).map_values(
            |p: Seq<char>| dec_value(p) as int % scalar_order(),
        ),
{
    let pieces: Vec<String> = split_on(list, ',');
    let order: Vec<u32> = bls_order();
    let ghost parts = pieces_from(list@, ',', 0);
    assert(pieces@.map_values(|w: String| w@).len() == parts.len());
    let mut r: Vec<Scalar> = Vec::new();
    let mut i: usize = 0;
    while i < pieces.len()
        invariant
            i <= pieces@.len(),
            parts == pieces_from(list@, ',', 0),
            pieces@.map_values(|w: String| w@) == parts,
            pieces@.len() == parts.len(),
            is_numeral_list(list@),
            digits_value(order@) == scalar_order(),
            scalar_order() > 0,
            r@.len() == i,
            all_wf(r@),
            forall|j: int|
                0 <= j < i ==> (#[trigger] r@[j]).value() == dec_value(parts[j]) as int
                    % scalar_order(),
        decreases pieces@.len() - i,
    {
        assert(parts[i as int] == pieces@[i as int]@);
        let number: Vec<u32> = digits_of_decimal(pieces[i].as_str());
        let digits: Vec<u32> = big_rem(&number, &order);
        r.push(Scalar { digits });
        i = i + 1;
    }
    assert(values(r@) =~= parts.map_values(|p: Seq<char>| dec_value(p) as int % scalar_order()));
    r
}

/// The numbers that every 31 bytes of a packed blob stand for.
pub open spec fn blob_values(packed: Seq<u8>) -> Seq<int> {
    Seq::new(
        BLOB_WIDTH as nat,
        |i: int| be_value(packed.subrange(31 * i, 31 * i + 31)) as int,
    )
}

/// The elements of a packed blob.
pub fn packed_blob_to_scalars(packed: &Vec<u8>) -> (r: Vec<Scalar>)
    requires
        packed@.len() == BLOB_DATA_BYTES_COUNT,
    ensures
        all_wf(r@),
        values(r@) == blob_values(packed@),
{
    let mut r: Vec<Scalar> = Vec::new();
    let mut i: usize = 0;
    while i < BLOB_WIDTH
        invariant
            i <= BLOB_WIDTH,
            packed@.len() == BLOB_DATA_BYTES_COUNT,
            r@.len() == i,
            all_wf(r@),
            forall|j: int| 0 <= j < i ==> (#[trigger] r@[j]).value() == blob_values(packed@)[j],
        decreases BLOB_WIDTH - i,
    {
        let chunk: &[u8] = vstd::slice::slice_subrange(packed.as_slice(), 31 * i, 31 * i + 31);
        let digits: Vec<u32> = digits_of_bytes(chunk);
        proof {
            lemma_bytes_bound(chunk@);
            lemma_order();
        }
        r.push(Scalar { digits });
        i = i + 1;
    }
    assert(values(r@) =~= blob_values(packed@));
    r
}

/// A scalar in 32 bytes, the most significant one first.
pub fn scalar_to_be32(s: &Scalar) -> (r: [u8; 32])
    requires
        s.wf(),
    ensures
        be_value(r@) == s.value(),
{
    let bytes: Vec<u8> = bytes_of_digits(&s.digits);
    proof {
        lemma_order();
        if bytes@.len() > 32 {
            lemma_top_byte(bytes@);
            lemma_pow_increases(256, 32, (bytes@.len() - 1) as nat);
        }
    }
    let mut r: [u8; 32] = [0u8; 32];
    let pad: usize = 32 - bytes.len();
    let mut i: usize = 0;
    while i < bytes.len()
        invariant
            pad + bytes@.len() == 32,
            i <= bytes@.len(),
            forall|j: int| 0 <= j < pad ==> r@[j] == 0,
            forall|j: int| 0 <= j < i ==> r@[pad + j] == bytes@[j],
        decreases bytes@.len() - i,
    {
        r[pad + i] = bytes[i];
        i = i + 1;
    }
    proof {
        let zeros = Seq::new(pad as nat, |j: int| 0u8);
        assert(r@ =~= zeros + bytes@);
        lemma_leading_zeros(zeros, bytes@);
    }
    r
}

proof fn lemma_zero_bytes(b: Seq<u8>)
    requires
        forall|i: int| 0 <= i < b.len() ==> b[i] == 0,
    ensures
        be_value(b) == 0,
    decreases b.len(),
{
    if b.len() > 0 {
        lemma_zero_bytes(b.drop_last());
    }
}

proof fn lemma_leading_zeros(zeros: Seq<u8>, b: Seq<u8>)
    requires
        forall|i: int| 0 <= i < zeros.len() ==> zeros[i] == 0,
    ensures
        be_value(zeros + b) == be_value(b),
    decreases b.len(),
{
    if b.len() == 0 {
        assert(zeros + b =~= zeros);
        lemma_zero_bytes(zeros);
    } else {
        assert((zeros + b).drop_last() =~= zeros + b.drop_last());
        lemma_leading_zeros(zeros, b.drop_last());
    }
}

/// Bytes of one length are determined by the number that they stand for.
pub proof fn be_values_are_distinct(a: Seq<u8>, b: Seq<u8>)
    requires
        a.len() == b.len(),
        be_value(a) == be_value(b),
    ensures
        a == b,
    decreases a.len(),
{
    if a.len() == 0 {
        assert(a =~= b);
    } else {
        assert(a.last() == b.last() && be_value(a.drop_last()) == be_value(b.drop_last()));
        be_values_are_distinct(a.drop_last(), b.drop_last());
        assert(a =~= a.drop_last().push(a.last()));
        assert(b =~= b.drop_last().push(b.last()));
    }
}

/// The end of the chunk of `size` bytes that starts at `at`, in bytes that end at
/// `end`.
pub open spec fn chunk_end(at: int, size: int, end: int) -> int {
    if at + size <= end {
        at + size
    } else {
        end
    }
}

/// The numbers that the chunks of `size` bytes from `from` up to `end` stand for;
/// the last chunk may be shorter.
pub open spec fn chunk_values(bytes: Seq<u8>, from: int, end: int, size: int) -> Seq<u64>
    decreases end - from,
{
    if from >= end || size <= 0 {
        Seq::empty()
    } else {
        seq![be_value(bytes.subrange(from, chunk_end(from, size, end))) as u64] + chunk_values(
            bytes,
            chunk_end(from, size, end),
            end,
            size,
        )
    }
}

/// The number that the bytes from `from` up to `end` stand for.
fn chunk_value(bytes: &Vec<u8>, from: usize, end: usize) -> (r: u64)
    requires
        from <= end <= bytes@.len(),
        end - from <= 8,
    ensures
        r == be_value(bytes@.subrange(from as int, end as int)),
{
    let mut v: u64 = 0;
    let mut i: usize = from;
    while i < end
        invariant
            from <= i <= end <= bytes@.len(),
            end - from <= 8,
            v == be_value(bytes@.subrange(from as int, i as int)),
        decreases end - i,
    {
        proof {
            let next = bytes@.subrange(from as int, i + 1);
            assert(next.drop_last() =~= bytes@.subrange(from as int, i as int));
            lemma_bytes_bound(next);
            lemma_pow_increases(256, next.len(), 8);
            assert(pow(256, 8) == 0x1_0000_0000_0000_0000) by {
                reveal_with_fuel(pow, 9);
            }
        }
        v = v * 256 + bytes[i] as u64;
        i = i + 1;
    }
    v
}

/// Appends the numbers that the chunks of `size` bytes stand for.
fn push_chunks(out: &mut Vec<u64>, bytes: &Vec<u8>, from: usize, end: usize, size: usize)
    requires
        from <= end <= bytes@.len(),
        0 < size <= 8,
    ensures
        final(out)@ == old(out)@ + chunk_values(bytes@, from as int, end as int, size as int),
{
    let mut at: usize = from;
    let ghost before = out@;
    let ghost all = chunk_values(bytes@, from as int, end as int, size as int);
    assert(out@ + all =~= before + all);
    while at < end
        invariant
            from <= at <= end <= bytes@.len(),
            0 < size <= 8,
            out@ + chunk_values(bytes@, at as int, end as int, size as int) == before + all,
        decreases end - at,
    {
        let stop: usize = if end - at >= size {
            at + size
        } else {
            end
        };
        let v: u64 = chunk_value(bytes, at, stop);
        let ghost sofar = out@;
        out.push(v);
        proof {
            let rest = chunk_values(bytes@, stop as int, end as int, size as int);
            assert(sofar + (seq![v] + rest) =~= sofar.push(v) + rest);
        }
        at = stop;
    }
    assert(out@ + Seq::<u64>::empty() =~= out@);
}

/// What the version and the reserved bytes contribute: the version in one
/// element, and every four reserved bytes in one.
pub open spec fn reserved_limbs(packed: Seq<u8>) -> Seq<u64> {
    chunk_values(packed, BLOB_VERSION_INDEX as int, BLOB_RESERVED_INDEX as int, 2) + chunk_values(
        packed,
        BLOB_RESERVED_INDEX as int,
        BLOB_MARK_PRICE_INDEX as int,
        4,
    )
}

/// The digest of the version and the reserved bytes.
pub fn version_and_reserved_bytes_hash<H: Fn(&Vec<u64>) -> HashOut>(
    packed: &Vec<u8>,
    h: &H,
) -> (r: HashOut)
    requires
        packed@.len() == BLOB_DATA_BYTES_COUNT,
        total_sponge(*h),
    ensures
        hashed(*h, reserved_limbs(packed@), r),
{
    let mut limbs: Vec<u64> = Vec::new();
    push_chunks(&mut limbs, packed, BLOB_VERSION_INDEX, BLOB_RESERVED_INDEX, 2);
    push_chunks(&mut limbs, packed, BLOB_RESERVED_INDEX, BLOB_MARK_PRICE_INDEX, 4);
    assert(limbs@ =~= reserved_limbs(packed@));
    sponge(h, &limbs)
}

/// The funding of a market slot: its sign and its two limbs.
pub open spec fn funding_limbs(m: MarketLimbs) -> Seq<u64> {
    seq![
        if m.funding_is_negative {
            1u64
        } else {
            0u64
        },
        m.funding_limb_hi,
        m.funding_limb_lo,
    ]
}

/// The fundings of market slots, one after the other.
pub open spec fn all_funding_limbs(market: Seq<MarketLimbs>) -> Seq<u64>
    decreases market.len(),
{
    if market.len() == 0 {
        Seq::empty()
    } else {
        all_funding_limbs(market.drop_last()) + funding_limbs(market.last())
    }
}

/// What market slots contribute: all mark prices, then all fundings, then all
/// quote multipliers.
pub open spec fn market_limbs(market: Seq<MarketLimbs>) -> Seq<u64> {
    market.map_values(|m: MarketLimbs| m.mark_price) + all_funding_limbs(market)
        + market.map_values(|m: MarketLimbs| m.quote_multiplier)
}

/// The digest of the market slots.
pub fn market_data_hash<H: Fn(&Vec<u64>) -> HashOut>(market: &Vec<MarketLimbs>, h: &H) -> (r:
    HashOut)
    requires
        total_sponge(*h),
    ensures
        hashed(*h, market_limbs(market@), r),
{
    let mut limbs: Vec<u64> = Vec::new();
    let n: usize = market.len();
    let ghost prices = market@.map_values(|m: MarketLimbs| m.mark_price);
    let ghost multipliers = market@.map_values(|m: MarketLimbs| m.quote_multiplier);
    let mut i: usize = 0;
    assert(limbs@ =~= prices.take(0));
    while i < n
        invariant
            i <= n == market@.len(),
            prices == market@.map_values(|m: MarketLimbs| m.mark_price),
            limbs@ == prices.take(i as int),
        decreases n - i,
    {
        limbs.push(market[i].mark_price);
        assert(limbs@ =~= prices.take(i + 1));
        i = i + 1;
    }
    assert(prices.take(n as int) =~= prices);
    assert(limbs@ =~= prices + all_funding_limbs(market@.take(0)));
    let mut j: usize = 0;
    while j < n
        invariant
            j <= n == market@.len(),
            limbs@ == prices + all_funding_limbs(market@.take(j as int)),
        decreases n - j,
    {
        limbs.push(
            if market[j].funding_is_negative {
                1
            } else {
                0
            },
        );
        limbs.push(market[j].funding_limb_hi);
        limbs.push(market[j].funding_limb_lo);
        proof {
            let next = market@.take(j + 1);
            assert(next.drop_last() =~= market@.take(j as int));
            assert(limbs@ =~= prices + (all_funding_limbs(market@.take(j as int)) + funding_limbs(
                next.last(),
            )));
        }
        j = j + 1;
    }
    assert(market@.take(n as int) =~= market@);
    let ghost front = limbs@;
    let mut k: usize = 0;
    assert(limbs@ =~= front + multipliers.take(0));
    while k < n
        invariant
            k <= n == market@.len(),
            multipliers == market@.map_values(|m: MarketLimbs| m.quote_multiplier),
            limbs@ == front + multipliers.take(k as int),
        decreases n - k,
    {
        limbs.push(market[k].quote_multiplier);
        assert(limbs@ =~= front + multipliers.take(k + 1));
        k = k + 1;
    }
    assert(multipliers.take(n as int) =~= multipliers);
    sponge(h, &limbs)
}

/// Whether `out` may be the digest of a blob's data.
pub open spec fn blob_data_hashed<
    H: Fn(&Vec<u64>) -> HashOut,
    T: Fn(HashOut, HashOut) -> HashOut,
>(
    h: H,
    t: T,
    packed: Seq<u8>,
    market: Seq<MarketLimbs>,
    account_delta_tree_root: HashOut,
    out: HashOut,
) -> bool {
    exists|reserved: HashOut, prices: HashOut, both: HashOut|
        #![trigger compresses(t, reserved, prices, both)]
        {
            &&& hashed(h, reserved_limbs(packed), reserved)
            &&& hashed(h, market_limbs(market), prices)
            &&& compresses(t, reserved, prices, both)
            &&& compresses(t, both, account_delta_tree_root, out)
        }
}

/// The digest of a blob's data: of its reserved bytes, its market slots and the
/// root of the account deltas, compressed two at a time from the left.
pub fn blob_data_hash<H: Fn(&Vec<u64>) -> HashOut, T: Fn(HashOut, HashOut) -> HashOut>(
    packed: &Vec<u8>,
    market: &Vec<MarketLimbs>,
    account_delta_tree_root: HashOut,
    h: &H,
    t: &T,
) -> (r: HashOut)
    requires
        packed@.len() == BLOB_DATA_BYTES_COUNT,
        total_sponge(*h),
        total(*t),
    ensures
        blob_data_hashed(*h, *t, packed@, market@, account_delta_tree_root, r),
{
    let reserved: HashOut = version_and_reserved_bytes_hash(packed, h);
    let prices: HashOut = market_data_hash(market, h);
    let both: HashOut = t(reserved, prices);
    let r: HashOut = t(both, account_delta_tree_root);
    assert(compresses(*t, reserved, prices, both));
    assert(compresses(*t, both, account_delta_tree_root, r));
    r
}

/// What the opening point is drawn from: the digest of the blob's data and the
/// bytes of the versioned hash, one element each.
pub open spec fn challenge_limbs(blob_data_hash: HashOut, versioned: Seq<u8>) -> Seq<u64> {
    blob_data_hash.elements() + versioned.map_values(|b: u8| b as u64)
}

/// The number that the elements of a digest stand for, 64 bits each from the
/// least significant one up.
pub open spec fn challenge_value(h: HashOut) -> int {
    h.e0 + 0x1_0000_0000_0000_0000 * (h.e1 + 0x1_0000_0000_0000_0000 * (h.e2
        + 0x1_0000_0000_0000_0000 * h.e3))
}

/// Whether `x` may be the opening point.
pub open spec fn is_opening_point<H: Fn(&Vec<u64>) -> HashOut>(
    h: H,
    blob_data_hash: HashOut,
    versioned: Seq<u8>,
    x: int,
) -> bool {
    exists|out: HashOut| #[trigger]
        hashed(h, challenge_limbs(blob_data_hash, versioned), out) && x == challenge_value(out)
            % scalar_order()
}

/// The opening point.
pub fn pce_evaluation_point<H: Fn(&Vec<u64>) -> HashOut>(
    blob_data_hash: HashOut,
    kzg_versioned_hash: &[u8; 32],
    h: &H,
) -> (r: Scalar)
    requires
        total_sponge(*h),
    ensures
        r.wf(),
        is_opening_point(*h, blob_data_hash, kzg_versioned_hash@, r.value()),
{
    let mut limbs: Vec<u64> = Vec::new();
    push_hash(&mut limbs, blob_data_hash);
    let ghost bytes = kzg_versioned_hash@.map_values(|b: u8| b as u64);
    let mut i: usize = 0;
    assert(limbs@ =~= blob_data_hash.elements() + bytes.take(0));
    while i < 32
        invariant
            i <= 32,
            bytes == kzg_versioned_hash@.map_values(|b: u8| b as u64),
            limbs@ == blob_data_hash.elements() + bytes.take(i as int),
        decreases 32 - i,
    {
        limbs.push(kzg_versioned_hash[i] as u64);
        assert(limbs@ =~= blob_data_hash.elements() + bytes.take(i + 1));
        i = i + 1;
    }
    assert(bytes.take(32) =~= bytes);
    assert(limbs@ == challenge_limbs(blob_data_hash, kzg_versioned_hash@));
    let out: HashOut = sponge(h, &limbs);
    let mut value: Vec<u32> = Vec::new();
    push_halves(&mut value, out.e0);
    push_halves(&mut value, out.e1);
    push_halves(&mut value, out.e2);
    push_halves(&mut value, out.e3);
    proof {
        let none = Seq::<u32>::empty();
        lemma_halves(out.e3, none);
        lemma_halves(out.e2, halves(out.e3) + none);
        lemma_halves(out.e1, halves(out.e2) + (halves(out.e3) + none));
        lemma_halves(out.e0, halves(out.e1) + (halves(out.e2) + (halves(out.e3) + none)));
        assert(value@ =~= halves(out.e0) + (halves(out.e1) + (halves(out.e2) + (halves(out.e3)
            + none))));
        assert(digits_value(value@) == challenge_value(out));
    }
    let order: Vec<u32> = bls_order();
    let digits: Vec<u32> = big_rem(&value, &order);
    assert(hashed(*h, challenge_limbs(blob_data_hash, kzg_versioned_hash@), out));
    assert(digits_value(digits@) as int == challenge_value(out) % scalar_order());
    Scalar { digits }
}

/// The two digits of `v`, the least significant one first.
pub open spec fn halves(v: u64) -> Seq<u32> {
    seq![(v % 0x1_0000_0000) as u32, (v / 0x1_0000_0000) as u32]
}

proof fn lemma_halves(v: u64, rest: Seq<u32>)
    ensures
        digits_value(halves(v) + rest) == v + 0x1_0000_0000_0000_0000 * digits_value(rest),
{
    let d = halves(v) + rest;
    reveal_with_fuel(digits_value, 3);
    assert(d.drop_first().drop_first() =~= rest);
    assert(d[0] == (v % 0x1_0000_0000) as u32);
    assert(d.drop_first()[0] == (v / 0x1_0000_0000) as u32);
}

/// Appends the two digits of `v`.
fn push_halves(out: &mut Vec<u32>, v: u64)
    ensures
        final(out)@ == old(out)@ + halves(v),
{
    out.push((v % 0x1_0000_0000) as u32);
    out.push((v / 0x1_0000_0000) as u32);
    assert(out@ =~= old(out)@ + halves(v));
}

/// The steps that lead to the commitment to a blob.
#[derive(Clone, Copy, Debug, PartialEq, Eq, Structural)]
pub enum KzgStep {
    /// Load the trusted setup.
    Setup,
    /// Take the bytes as a blob.
    Blob,
    /// Commit to the blob.
    Commitment,
}

/// The commitment that the points of a trusted setup give to the blob `blob`, or the
/// step that failed with what `c_kzg` says of it.
pub uninterp spec fn kzg_commitment_of(
    g1_monomial: Seq<u8>,
    g1_lagrange: Seq<u8>,
    g2_monomial: Seq<u8>,
    blob: Seq<u8>,
) -> Result<Seq<u8>, (KzgStep, Seq<char>)>;

/// The commitment to `blob`, by `KzgSettings::load_trusted_setup`, `Blob::from_bytes`
/// and `KzgSettings::blob_to_kzg_commitment` of `c_kzg`, or the first of them that
/// failed with the `Debug` text of its error. It depends on the points and the bytes
/// of the blob alone. Bytes are a blob where there are as many as a blob has.
#[verifier::external_body]
fn kzg_commitment(points: &SetupPoints, blob: &Vec<u8>) -> (r: Result<[u8; 48], (KzgStep, String)>)
    ensures
        kzg_commitment_of(
            points@.g1_monomial,
            points@.g1_lagrange,
            points@.g2_monomial,
            blob@,
        ) == match r {
            Ok(c) => Ok::<Seq<u8>, (KzgStep, Seq<char>)>(c@),
            Err(e) => Err((e.0, e.1@)),
        },
        r is Ok ==> blob@.len() == BYTES_PER_BLOB,
        r matches Err(e) ==> (e.0 == KzgStep::Blob ==> blob@.len() != BYTES_PER_BLOB),
{
    let (g1, lagrange) = (points.g1_monomial.as_slice(), points.g1_lagrange.as_slice());
    let settings = c_kzg::KzgSettings::load_trusted_setup(g1, lagrange, &points.g2_monomial, 0)
        .map_err(|e| (KzgStep::Setup, format!("{e:?}")))?;
    let blob = c_kzg::Blob::from_bytes(blob.as_slice())
        .map_err(|e| (KzgStep::Blob, format!("{e:?}")))?;
    let commitment = settings.blob_to_kzg_commitment(&blob)
        .map_err(|e| (KzgStep::Commitment, format!("{e:?}")))?;
    Ok(commitment.to_bytes().into_inner())
}

/// What is said of a setup whose text does not have the form of one.
pub open spec fn malformed_setup() -> Seq<char> {
    "InvalidTrustedSetup(\"Invalid trusted setup: C_KZG_BADARGS\")"@
}

/// The commitment that the setup with the text `setup` gives to `blob`, or the step
/// that failed and why.
pub open spec fn committed(setup: Seq<u8>, blob: Seq<u8>) -> Result<
    Seq<u8>,
    (KzgStep, Seq<char>),
> {
    match setup_points(setup) {
        Some(points) => kzg_commitment_of(
            points.g1_monomial,
            points.g1_lagrange,
            points.g2_monomial,
            blob,
        ),
        None => Err((KzgStep::Setup, malformed_setup())),
    }
}

/// Why there is no commitment: the step that failed, what was said of it, and where
/// the setup came from.
#[derive(Debug, PartialEq, Eq)]
pub struct KzgFailure {
    pub step: KzgStep,
    pub detail: String,
    pub setup_path: String,
}

impl KzgFailure {
    /// Whether this is the failure `(step, detail)` with the setup from `path`.
    pub open spec fn tells(&self, failure: (KzgStep, Seq<char>), path: Seq<char>) -> bool {
        self.step == failure.0 && self.detail@ == failure.1 && self.setup_path@ == path
    }

    /// The error's text.
    pub open spec fn text(&self) -> Seq<char> {
        match self.step {
            KzgStep::Setup => "the public Ethereum KZG ceremony trusted setup must exist at "@
                + self.setup_path@ + " (see docs/decisions/ADR-0005)"@,
            KzgStep::Blob => "c-kzg Blob::from_bytes: "@ + self.detail@,
            KzgStep::Commitment => "c-kzg blob_to_kzg_commitment: "@ + self.detail@,
        }
    }

    /// The error's text.
    pub fn message(&self) -> (r: String)
        ensures
            r@ == self.text(),
    {
        match self.step {
            KzgStep::Setup => {
                let mut r = String::from_str(
                    "the public Ethereum KZG ceremony trusted setup must exist at ",
                );
                r.append(self.setup_path.as_str());
                r.append(" (see docs/decisions/ADR-0005)");
                r
            },
            KzgStep::Blob => {
                let mut r = String::from_str("c-kzg Blob::from_bytes: ");
                r.append(self.detail.as_str());
                r
            },
            KzgStep::Commitment => {
                let mut r = String::from_str("c-kzg blob_to_kzg_commitment: ");
                r.append(self.detail.as_str());
                r
            },
        }
    }

    /// What lies behind the error, where its text does not say it: how loading the
    /// setup failed.
    pub fn cause(&self) -> (r: Option<String>)
        ensures
            r is Some <==> self.step == KzgStep::Setup,
            r matches Some(text) ==> text@ == "load trusted setup from "@ + self.setup_path@ + ": "@
                + self.detail@,
    {
        match self.step {
            KzgStep::Setup => {
                let mut r = String::from_str("load trusted setup from ");
                r.append(self.setup_path.as_str());
                r.append(": ");
                r.append(self.detail.as_str());
                Some(r)
            },
            _ => None,
        }
    }
}

/// The commitment that the setup with the text `setup` gives to `blob`.
fn commit(blob: &Vec<u8>, setup: &Vec<u8>) -> (r: Result<[u8; 48], (KzgStep, String)>)
    ensures
        match committed(setup@, blob@) {
            Ok(c) => r is Ok && r->Ok_0@ == c && blob@.len() == BYTES_PER_BLOB,
            Err(failure) => {
                &&& r matches Err(e)
                &&& e.0 == failure.0
                &&& e.1@ == failure.1
                &&& e.0 == KzgStep::Blob ==> blob@.len() != BYTES_PER_BLOB
            },
        },
{
    match read_setup(setup) {
        Some(points) => kzg_commitment(&points, blob),
        None => Err(
            (
                KzgStep::Setup,
                String::from_str("InvalidTrustedSetup(\"Invalid trusted setup: C_KZG_BADARGS\")"),
            ),
        ),
    }
}

/// The versioned hash of a commitment: its SHA-256 with the version byte 1 in
/// front.
pub open spec fn versioned(commitment: Seq<u8>) -> Seq<u8> {
    sha256_of(commitment).update(0, 1u8)
}

/// The versioned hash of the commitment to a blob, or why there is none. `setup` is
/// what the file `setup_path` holds.
pub fn kzg_versioned_hash(canonical: &Vec<u8>, setup: &Vec<u8>, setup_path: &str) -> (r: Result<
    [u8; 32],
    KzgFailure,
>)
    ensures
        match committed(setup@, canonical@) {
            Ok(c) => r is Ok && r->Ok_0@ == versioned(c),
            Err(failure) => r is Err && r->Err_0.tells(failure, setup_path@),
        },
        r is Ok ==> canonical@.len() == BYTES_PER_BLOB,
        r matches Err(e) ==> (e.step == KzgStep::Blob ==> canonical@.len() != BYTES_PER_BLOB),
{
    match commit(canonical, setup) {
        Ok(c) => Ok(versioned_hash(c.as_slice())),
        Err(e) => Err(KzgFailure { step: e.0, detail: e.1, setup_path: setup_path.to_owned() }),
    }
}

/// Whether `(x, y)` may be the opening of a blob.
pub open spec fn is_opening<H: Fn(&Vec<u64>) -> HashOut, T: Fn(HashOut, HashOut) -> HashOut>(
    h: H,
    t: T,
    roots: Seq<Scalar>,
    packed: Seq<u8>,
    market: Seq<MarketLimbs>,
    account_delta_tree_root: HashOut,
    kzg_versioned_hash: Seq<u8>,
    x: Seq<u8>,
    y: Seq<u8>,
) -> bool {
    &&& exists|data: HashOut| #[trigger]
        blob_data_hashed(h, t, packed, market, account_delta_tree_root, data) && is_opening_point(
            h,
            data,
            kzg_versioned_hash,
            be_value(x) as int,
        )
    &&& be_value(y) == evaluated(values(roots), blob_values(packed), be_value(x) as int)
}

/// A blob has one opening, where the sponge and the compression are functions:
/// whoever computes it from the same data finds the same 32 bytes twice.
pub proof fn openings_are_unique<H: Fn(&Vec<u64>) -> HashOut, T: Fn(HashOut, HashOut) -> HashOut>(
    h: H,
    t: T,
    roots: Seq<Scalar>,
    packed: Seq<u8>,
    market: Seq<MarketLimbs>,
    account_delta_tree_root: HashOut,
    kzg_versioned_hash: Seq<u8>,
    a: (Seq<u8>, Seq<u8>),
    b: (Seq<u8>, Seq<u8>),
)
    requires
        functional_sponge(h),
        functional(t),
        a.0.len() == 32,
        a.1.len() == 32,
        b.0.len() == 32,
        b.1.len() == 32,
        is_opening(
            h,
            t,
            roots,
            packed,
            market,
            account_delta_tree_root,
            kzg_versioned_hash,
            a.0,
            a.1,
        ),
        is_opening(
            h,
            t,
            roots,
            packed,
            market,
            account_delta_tree_root,
            kzg_versioned_hash,
            b.0,
            b.1,
        ),
    ensures
        a == b,
{
    let da = choose|data: HashOut| #[trigger]
        blob_data_hashed(h, t, packed, market, account_delta_tree_root, data) && is_opening_point(
            h,
            data,
            kzg_versioned_hash,
            be_value(a.0) as int,
        );
    let db = choose|data: HashOut| #[trigger]
        blob_data_hashed(h, t, packed, market, account_delta_tree_root, data) && is_opening_point(
            h,
            data,
            kzg_versioned_hash,
            be_value(b.0) as int,
        );
    assert(da == db);
    assert(be_value(a.0) == be_value(b.0));
    be_values_are_distinct(a.0, b.0);
    be_values_are_distinct(a.1, b.1);
}

/// The opening of a blob: the point and the value there, in 32 bytes each, the
/// most significant one first.
pub fn compute_pce_opening<H: Fn(&Vec<u64>) -> HashOut, T: Fn(HashOut, HashOut) -> HashOut>(
    packed: &Vec<u8>,
    market: &Vec<MarketLimbs>,
    account_delta_tree_root: HashOut,
    kzg_versioned_hash: &[u8; 32],
    roots: &Vec<Scalar>,
    h: &H,
    t: &T,
) -> (r: ([u8; 32], [u8; 32]))
    requires
        packed@.len() == BLOB_DATA_BYTES_COUNT,
        roots@.len() >= BLOB_WIDTH,
        all_wf(roots@),
        total_sponge(*h),
        total(*t),
    ensures
        is_opening(
            *h,
            *t,
            roots@,
            packed@,
            market@,
            account_delta_tree_root,
            kzg_versioned_hash@,
            r.0@,
            r.1@,
        ),
{
    let data: HashOut = blob_data_hash(packed, market, account_delta_tree_root, h, t);
    let x: Scalar = pce_evaluation_point(data, kzg_versioned_hash, h);
    let scalars: Vec<Scalar> = packed_blob_to_scalars(packed);
    assert(values(scalars@).len() == BLOB_WIDTH);
    let y: Scalar = eval_blob_polynomial(&scalars, &x, roots);
    (scalar_to_be32(&x), scalar_to_be32(&y))
}

/// What the inner wrapper proves about a blob.
#[derive(Debug, Clone)]
pub struct WrapperInput {
    pub kzg_versioned_hash: [u8; 32],
    pub batch_commitment: [u8; 32],
    pub blob_bytes: Vec<u8>,
    pub blob_polynomial_opening_x: [u8; 32],
    pub blob_polynomial_opening_y: [u8; 32],
}

/// The wrapper's input for a packed blob, or why the blob has no commitment.
pub fn build_wrapper_input<H: Fn(&Vec<u64>) -> HashOut, T: Fn(HashOut, HashOut) -> HashOut>(
    packed: Vec<u8>,
    market: &Vec<MarketLimbs>,
    account_delta_tree_root: HashOut,
    batch_commitment: [u8; 32],
    setup: &Vec<u8>,
    setup_path: &str,
    roots: &Vec<Scalar>,
    h: &H,
    t: &T,
) -> (r: Result<WrapperInput, KzgFailure>)
    requires
        packed@.len() == BLOB_DATA_BYTES_COUNT,
        roots@.len() >= BLOB_WIDTH,
        all_wf(roots@),
        total_sponge(*h),
        total(*t),
    ensures
        match committed(setup@, canonical_blob(packed@)) {
            Ok(c) => {
                &&& r matches Ok(input)
                &&& input.kzg_versioned_hash@ == versioned(c)
                &&& input.batch_commitment == batch_commitment
                &&& input.blob_bytes == packed
                &&& is_opening(
                    *h,
                    *t,
                    roots@,
                    packed@,
                    market@,
                    account_delta_tree_root,
                    versioned(c),
                    input.blob_polynomial_opening_x@,
                    input.blob_polynomial_opening_y@,
                )
            },
            Err(failure) => {
                &&& r matches Err(e)
                &&& e.tells(failure, setup_path@)
                &&& e.step != KzgStep::Blob
            },
        },
{
    let canonical: Vec<u8> = packed_blob_to_canonical(&packed);
    match kzg_versioned_hash(&canonical, setup, setup_path) {
        Ok(kvh) => {
            let opening: ([u8; 32], [u8; 32]) = compute_pce_opening(
                &packed,
                market,
                account_delta_tree_root,
                &kvh,
                roots,
                h,
                t,
            );
            Ok(
                WrapperInput {
                    kzg_versioned_hash: kvh,
                    batch_commitment,
                    blob_bytes: packed,
                    blob_polynomial_opening_x: opening.0,
                    blob_polynomial_opening_y: opening.1,
                },
            )
        },
        Err(e) => Err(e),
    }
}

/// What the account leaves of a blob contribute: every seven bytes in one
/// element. The last element has what is left.
pub open spec fn account_limbs(packed: Seq<u8>) -> Seq<u64> {
    chunk_values(packed, BLOB_ACCOUNT_OFFSET as int, BLOB_DATA_BYTES_COUNT as int, 7)
}

/// The digest of a blob's account leaves.
pub fn blob_pub_data_hash<H: Fn(&Vec<u64>) -> HashOut>(packed: &Vec<u8>, h: &H) -> (r: HashOut)
    requires
        packed@.len() == BLOB_DATA_BYTES_COUNT,
        total_sponge(*h),
    ensures
        hashed(*h, account_limbs(packed@), r),
{
    let mut limbs: Vec<u64> = Vec::new();
    push_chunks(&mut limbs, packed, BLOB_ACCOUNT_OFFSET, BLOB_DATA_BYTES_COUNT, 7);
    assert(limbs@ =~= account_limbs(packed@));
    sponge(h, &limbs)
}

/// Whether `out` may be the point at which the aggregated delta is evaluated.
pub open spec fn delta_point_drawn<
    H: Fn(&Vec<u64>) -> HashOut,
    T: Fn(HashOut, HashOut) -> HashOut,
>(h: H, t: T, packed: Seq<u8>, account_delta_tree_root: HashOut, out: HashOut) -> bool {
    exists|leaves: HashOut| #[trigger]
        hashed(h, account_limbs(packed), leaves) && compresses(
            t,
            leaves,
            account_delta_tree_root,
            out,
        )
}

/// The point at which the aggregated delta is evaluated: the digest of the
/// blob's account leaves, compressed with the root of the account deltas.
pub fn wrapper_delta_evaluation_point<
    H: Fn(&Vec<u64>) -> HashOut,
    T: Fn(HashOut, HashOut) -> HashOut,
>(packed: &Vec<u8>, account_delta_tree_root: HashOut, h: &H, t: &T) -> (r: HashOut)
    requires
        packed@.len() == BLOB_DATA_BYTES_COUNT,
        total_sponge(*h),
        total(*t),
    ensures
        delta_point_drawn(*h, *t, packed@, account_delta_tree_root, r),
{
    let leaves: HashOut = blob_pub_data_hash(packed, h);
    let r: HashOut = t(leaves, account_delta_tree_root);
    assert(compresses(*t, leaves, account_delta_tree_root, r));
    r
}

/// What the blob circuit proves: a blob, its commitment and its opening, with the
/// market details `D` that it holds.
#[derive(Debug, Clone)]
pub struct BlobEvaluation<D> {
    pub kzg_versioned_hash: [u8; 32],
    pub blob_bytes: Vec<u8>,
    pub blob_polynomial_opening_x: [u8; 32],
    pub blob_polynomial_opening_y: [u8; 32],
    pub account_delta_tree_root: HashOut,
    pub public_market_details: Vec<D>,
}

/// The blob circuit's input for a packed blob, or why the blob has no commitment.
pub fn build_blob_evaluation<
    D,
    H: Fn(&Vec<u64>) -> HashOut,
    T: Fn(HashOut, HashOut) -> HashOut,
>(
    packed: Vec<u8>,
    market: &Vec<MarketLimbs>,
    account_delta_tree_root: HashOut,
    public_market_details: Vec<D>,
    setup: &Vec<u8>,
    setup_path: &str,
    roots: &Vec<Scalar>,
    h: &H,
    t: &T,
) -> (r: Result<BlobEvaluation<D>, KzgFailure>)
    requires
        packed@.len() == BLOB_DATA_BYTES_COUNT,
        roots@.len() >= BLOB_WIDTH,
        all_wf(roots@),
        total_sponge(*h),
        total(*t),
    ensures
        match committed(setup@, canonical_blob(packed@)) {
            Ok(c) => {
                &&& r matches Ok(evaluation)
                &&& evaluation.kzg_versioned_hash@ == versioned(c)
                &&& evaluation.blob_bytes == packed
                &&& evaluation.account_delta_tree_root == account_delta_tree_root
                &&& evaluation.public_market_details == public_market_details
                &&& is_opening(
                    *h,
                    *t,
                    roots@,
                    packed@,
                    market@,
                    account_delta_tree_root,
                    versioned(c),
                    evaluation.blob_polynomial_opening_x@,
                    evaluation.blob_polynomial_opening_y@,
                )
            },
            Err(failure) => {
                &&& r matches Err(e)
                &&& e.tells(failure, setup_path@)
                &&& e.step != KzgStep::Blob
            },
        },
{
    match build_wrapper_input(
        packed,
        market,
        account_delta_tree_root,
        [0u8; 32],
        setup,
        setup_path,
        roots,
        h,
        t,
    ) {
        Ok(input) => Ok(
            BlobEvaluation {
                kzg_versioned_hash: input.kzg_versioned_hash,
                blob_bytes: input.blob_bytes,
                blob_polynomial_opening_x: input.blob_polynomial_opening_x,
                blob_polynomial_opening_y: input.blob_polynomial_opening_y,
                account_delta_tree_root,
                public_market_details,
            },
        ),
        Err(e) => Err(e),
    }
}

/// The opening speaks of the same elements as the commitment: every element of a blob
/// is the number that its 32 bytes of the canonical blob stand for.
pub proof fn elements_are_those_of_the_canonical_blob(packed: Seq<u8>, i: int)
    requires
        packed.len() == 126_976,
        0 <= i < 4096,
    ensures
        blob_values(packed).len() == 4096,
        blob_values(packed)[i] == be_value(canonical_blob(packed).subrange(32 * i, 32 * i + 32)),
        blob_values(packed)[i] == be_value(packed.subrange(31 * i, 31 * i + 31)),
{
    canonical_blob_is_lossless(packed, i);
    let c = canonical_blob(packed).subrange(32 * i, 32 * i + 32);
    let s = packed.subrange(31 * i, 31 * i + 31);
    assert(c =~= seq![0u8] + s) by {
        assert forall|j: int| 0 <= j < 32 implies c[j] == (seq![0u8] + s)[j] by {
            if j > 0 {
                assert(canonical_blob(packed).subrange(32 * i + 1, 32 * i + 32)[j - 1] == c[j]);
            }
        }
    }
    lemma_leading_zeros(seq![0u8], s);
}

} // verus!
