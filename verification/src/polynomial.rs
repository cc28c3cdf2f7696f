//! Polynomials modulo a prime: how many roots they have, and what one of them takes
//! at a point where its values at the roots of unity are known.

use vstd::arithmetic::div_mod::*;
use vstd::arithmetic::power::*;
use vstd::prelude::*;
use vstd::seq_lib::*;

verus! {

/// Whether `p` is prime.
pub open spec fn is_prime(p: int) -> bool {
    p >= 2 && forall|d: int| 1 < d < p ==> #[trigger] (p % d) != 0
}

/// Whether `a` and `b` are the same modulo `p`.
pub open spec fn congruent(a: int, b: int, p: int) -> bool {
    (a - b) % p == 0
}

proof fn lemma_multiple(x: int, k: int, p: int)
    requires
        p > 0,
        x == k * p,
    ensures
        x % p == 0,
{
    lemma_mod_multiples_basic(k, p);
}

proof fn lemma_witness(x: int, p: int) -> (k: int)
    requires
        p > 0,
        x % p == 0,
    ensures
        x == k * p,
{
    lemma_fundamental_div_mod(x, p);
    assert(p * (x / p) == (x / p) * p) by (nonlinear_arith);
    x / p
}

pub(crate) proof fn lemma_congruent_mod(a: int, p: int)
    requires
        p > 0,
    ensures
        congruent(a % p, a, p),
        congruent(a, a % p, p),
{
    lemma_fundamental_div_mod(a, p);
    let q = a / p;
    assert(p * q == q * p) by (nonlinear_arith);
    assert((-q) * p == -(q * p)) by (nonlinear_arith);
    lemma_multiple(a % p - a, -q, p);
    lemma_multiple(a - a % p, q, p);
}

pub(crate) proof fn lemma_congruent_sum(a: int, b: int, c: int, d: int, p: int)
    requires
        p > 0,
        congruent(a, b, p),
        congruent(c, d, p),
    ensures
        congruent(a + c, b + d, p),
        congruent(a - c, b - d, p),
{
    let k = lemma_witness(a - b, p);
    let l = lemma_witness(c - d, p);
    assert((k + l) * p == k * p + l * p) by (nonlinear_arith);
    assert((k - l) * p == k * p - l * p) by (nonlinear_arith);
    lemma_multiple((a + c) - (b + d), k + l, p);
    lemma_multiple((a - c) - (b - d), k - l, p);
}

pub(crate) proof fn lemma_congruent_product(a: int, b: int, c: int, d: int, p: int)
    requires
        p > 0,
        congruent(a, b, p),
        congruent(c, d, p),
    ensures
        congruent(a * c, b * d, p),
{
    let k = lemma_witness(a - b, p);
    let l = lemma_witness(c - d, p);
    assert(a * c - b * d == (k * c + b * l) * p) by (nonlinear_arith)
        requires
            a - b == k * p,
            c - d == l * p,
    ;
    lemma_multiple(a * c - b * d, k * c + b * l, p);
}

pub(crate) proof fn lemma_congruent_chain(a: int, b: int, c: int, p: int)
    requires
        p > 0,
        congruent(a, b, p),
        congruent(b, c, p),
    ensures
        congruent(a, c, p),
        congruent(b, a, p),
{
    let k = lemma_witness(a - b, p);
    let l = lemma_witness(b - c, p);
    assert((k + l) * p == k * p + l * p) by (nonlinear_arith);
    assert((-k) * p == -(k * p)) by (nonlinear_arith);
    lemma_multiple(a - c, k + l, p);
    lemma_multiple(b - a, -k, p);
}

pub(crate) proof fn lemma_congruent_same(a: int, p: int)
    requires
        p > 0,
    ensures
        congruent(a, a, p),
{
    lemma_multiple(a - a, 0, p);
}

pub(crate) proof fn lemma_small_congruent(a: int, b: int, p: int)
    requires
        0 <= a < p,
        0 <= b < p,
        congruent(a, b, p),
    ensures
        a == b,
{
    let k = lemma_witness(a - b, p);
    if k >= 1 {
        assert(k * p >= p) by (nonlinear_arith)
            requires
                k >= 1,
                p > 0,
        ;
    } else if k <= -1 {
        assert(k * p <= -p) by (nonlinear_arith)
            requires
                k <= -1,
                p > 0,
        ;
    }
}

/// A prime divides a product only where it divides a factor.
pub(crate) proof fn lemma_euclid(a: int, b: int, p: int)
    requires
        is_prime(p),
        (a * b) % p == 0,
    ensures
        a % p == 0 || b % p == 0,
{
    if a % p != 0 {
        let m = a % p;
        lemma_congruent_mod(a, p);
        lemma_congruent_same(b, p);
        lemma_congruent_product(m, a, b, b, p);
        assert(congruent(a * b, 0, p));
        lemma_congruent_chain(m * b, a * b, 0, p);
        lemma_mod_bound(a, p);
        lemma_euclid_small(m, b, p);
    }
}

proof fn lemma_euclid_small(m: int, t: int, p: int)
    requires
        is_prime(p),
        0 < m < p,
        (m * t) % p == 0,
    ensures
        t % p == 0,
    decreases m,
{
    if m == 1 {
        assert(1 * t == t);
    } else {
        let s = p % m;
        let q = p / m;
        lemma_fundamental_div_mod(p, m);
        lemma_mod_bound(p, m);
        assert(s != 0);
        let k = lemma_witness(m * t, p);
        assert(s * t == (t - q * k) * p) by (nonlinear_arith)
            requires
                p == m * q + s,
                m * t == k * p,
        ;
        lemma_multiple(s * t, t - q * k, p);
        lemma_euclid_small(s, t, p);
    }
}

/// The product of numbers.
spec fn product(s: Seq<int>) -> int
    decreases s.len(),
{
    if s.len() == 0 {
        1
    } else {
        s.last() * product(s.drop_last())
    }
}

spec fn times() -> spec_fn(int, int) -> int {
    |x: int, v: int| x * v
}

proof fn lemma_product_fold(s: Seq<int>, v: int)
    ensures
        s.fold_right(times(), v) == product(s) * v,
    decreases s.len(),
{
    if s.len() > 0 {
        let l = s.last();
        lemma_product_fold(s.drop_last(), l * v);
        let q = product(s.drop_last());
        assert(q * (l * v) == (l * q) * v) by (nonlinear_arith);
    } else {
        assert(1 * v == v);
    }
}

/// The numbers from 1 up to `n`.
spec fn counting(n: nat) -> Seq<int> {
    Seq::new(n, |i: int| i + 1)
}

/// The multiples of `a` by 1 up to `n`, modulo `p`.
spec fn multiples(a: int, n: nat, p: int) -> Seq<int> {
    Seq::new(n, |i: int| (a * (i + 1)) % p)
}

proof fn lemma_multiples_differ(a: int, p: int, i: int, j: int)
    requires
        is_prime(p),
        0 < a < p,
        0 < i < p,
        0 < j < p,
        (a * i) % p == (a * j) % p,
    ensures
        i == j,
{
    lemma_congruent_mod(a * i, p);
    lemma_congruent_mod(a * j, p);
    lemma_congruent_chain(a * i, (a * i) % p, a * j, p);
    assert(a * i - a * j == a * (i - j)) by (nonlinear_arith);
    lemma_euclid(a, i - j, p);
    lemma_small_mod(a as nat, p as nat);
    lemma_small_congruent(i, j, p);
}

proof fn lemma_multiples_permute(a: int, p: int)
    requires
        is_prime(p),
        0 < a < p,
    ensures
        multiples(a, (p - 1) as nat, p).to_multiset() == counting((p - 1) as nat).to_multiset(),
{
    let n = (p - 1) as nat;
    let (s, t) = (multiples(a, n, p), counting(n));
    assert(s.no_duplicates()) by {
        assert forall|i: int, j: int| 0 <= i < s.len() && 0 <= j < s.len() && i != j implies s[i]
            != s[j] by {
            if s[i] == s[j] {
                lemma_multiples_differ(a, p, i + 1, j + 1);
            }
        }
    }
    assert(t.no_duplicates());
    s.unique_seq_to_set();
    t.unique_seq_to_set();
    assert(s.to_set().subset_of(t.to_set())) by {
        assert forall|x: int| s.to_set().contains(x) implies t.to_set().contains(x) by {
            let i = choose|i: int| 0 <= i < s.len() && s[i] == x;
            lemma_mod_bound(a * (i + 1), p);
            if x == 0 {
                lemma_euclid(a, i + 1, p);
                lemma_small_mod(a as nat, p as nat);
                lemma_small_mod((i + 1) as nat, p as nat);
            }
            assert(t[x - 1] == x);
        }
    }
    seq_to_set_is_finite(s);
    seq_to_set_is_finite(t);
    vstd::set_lib::lemma_subset_equality(s.to_set(), t.to_set());
    s.lemma_multiset_has_no_duplicates();
    t.lemma_multiset_has_no_duplicates();
    broadcast use group_to_multiset_ensures;
    assert forall|x: int| s.to_multiset().count(x) == t.to_multiset().count(x) by {
        assert(s.contains(x) <==> s.to_set().contains(x));
        assert(t.contains(x) <==> t.to_set().contains(x));
        assert(s.contains(x) <==> s.to_multiset().count(x) > 0);
        assert(t.contains(x) <==> t.to_multiset().count(x) > 0);
    }
    assert(s.to_multiset() =~= t.to_multiset());
}

proof fn lemma_multiples_product(a: int, n: nat, p: int)
    requires
        p > 0,
    ensures
        congruent(product(multiples(a, n, p)), pow(a, n) * product(counting(n)), p),
    decreases n,
{
    reveal(pow);
    let (s, t) = (multiples(a, n, p), counting(n));
    if n == 0 {
        assert(pow(a, 0) == 1);
        lemma_congruent_same(1, p);
    } else {
        let m = (n - 1) as nat;
        lemma_multiples_product(a, m, p);
        assert(s.drop_last() =~= multiples(a, m, p));
        assert(t.drop_last() =~= counting(m));
        assert(s.last() == (a * n) % p);
        assert(t.last() == n);
        lemma_congruent_mod(a * n, p);
        lemma_congruent_product(
            (a * n) % p,
            a * n,
            product(s.drop_last()),
            pow(a, m) * product(t.drop_last()),
            p,
        );
        let (x, y) = (pow(a, m), product(t.drop_last()));
        assert((a * n) * (x * y) == (a * x) * (n * y)) by (nonlinear_arith);
        assert(pow(a, n) == a * x);
    }
}

proof fn lemma_factorial_counts(n: nat, p: int)
    requires
        is_prime(p),
        n < p,
    ensures
        product(counting(n)) % p != 0,
    decreases n,
{
    let t = counting(n);
    if n == 0 {
        lemma_small_mod(1, p as nat);
    } else {
        assert(t.drop_last() =~= counting((n - 1) as nat));
        assert(t.last() == n);
        lemma_factorial_counts((n - 1) as nat, p);
        if product(t) % p == 0 {
            lemma_euclid(n as int, product(t.drop_last()), p);
            lemma_small_mod(n, p as nat);
        }
    }
}

/// Fermat's little theorem: modulo a prime, every number but zero to the power of one
/// less than the prime is one.
pub proof fn fermat(a: int, p: int)
    requires
        is_prime(p),
        0 < a < p,
    ensures
        congruent(pow(a, (p - 1) as nat), 1, p),
{
    let n = (p - 1) as nat;
    let (s, t) = (multiples(a, n, p), counting(n));
    lemma_multiples_permute(a, p);
    assert(commutative_foldr(times())) by {
        assert forall|x: int, y: int, v: int| #[trigger] times()(x, times()(y, v)) == times()(
            y,
            times()(x, v),
        ) by {
            assert(x * (y * v) == y * (x * v)) by (nonlinear_arith);
        }
    }
    lemma_fold_right_permutation(s, t, times(), 1);
    lemma_product_fold(s, 1);
    lemma_product_fold(t, 1);
    let f = product(t);
    assert(product(s) == f);
    lemma_multiples_product(a, n, p);
    let x = pow(a, n);
    assert(f - x * f == (1 - x) * f) by (nonlinear_arith);
    lemma_euclid(1 - x, f, p);
    lemma_factorial_counts(n, p);
    assert(congruent(1, x, p));
    lemma_congruent_same(x, p);
    lemma_congruent_chain(1, x, x, p);
}

/// What the polynomial with the coefficients `c`, the constant one first, takes at
/// `x`.
pub open spec fn poly_at(c: Seq<int>, x: int) -> int
    decreases c.len(),
{
    if c.len() == 0 {
        0
    } else {
        c[0] + x * poly_at(c.drop_first(), x)
    }
}

pub open spec fn poly_sum(c: Seq<int>, d: Seq<int>) -> Seq<int> {
    Seq::new(c.len(), |i: int| c[i] + d[i])
}

pub open spec fn poly_scaled(k: int, c: Seq<int>) -> Seq<int> {
    Seq::new(c.len(), |i: int| k * c[i])
}

proof fn lemma_poly_sum(c: Seq<int>, d: Seq<int>, x: int)
    requires
        c.len() == d.len(),
    ensures
        poly_at(poly_sum(c, d), x) == poly_at(c, x) + poly_at(d, x),
    decreases c.len(),
{
    if c.len() > 0 {
        let (e, f) = (c.drop_first(), d.drop_first());
        assert(poly_sum(c, d).drop_first() =~= poly_sum(e, f));
        lemma_poly_sum(e, f, x);
        let (u, v) = (poly_at(e, x), poly_at(f, x));
        assert(x * (u + v) == x * u + x * v) by (nonlinear_arith);
    }
}

pub(crate) proof fn lemma_poly_scaled(k: int, c: Seq<int>, x: int)
    ensures
        poly_at(poly_scaled(k, c), x) == k * poly_at(c, x),
    decreases c.len(),
{
    if c.len() > 0 {
        let e = c.drop_first();
        assert(poly_scaled(k, c).drop_first() =~= poly_scaled(k, e));
        lemma_poly_scaled(k, e, x);
        let (a, u) = (c[0], poly_at(e, x));
        assert(k * a + x * (k * u) == k * (a + x * u)) by (nonlinear_arith);
    } else {
        assert(k * 0 == 0);
    }
}

/// The quotient of a polynomial by the line through zero at `a`.
spec fn poly_quotient(c: Seq<int>, a: int) -> Seq<int>
    decreases c.len(),
{
    if c.len() <= 1 {
        Seq::empty()
    } else {
        seq![poly_at(c.drop_first(), a)] + poly_quotient(c.drop_first(), a)
    }
}

proof fn lemma_poly_quotient(c: Seq<int>, a: int, x: int)
    requires
        c.len() >= 1,
    ensures
        poly_quotient(c, a).len() == c.len() - 1,
        poly_at(c, x) == poly_at(c, a) + (x - a) * poly_at(poly_quotient(c, a), x),
    decreases c.len(),
{
    let e = c.drop_first();
    if c.len() == 1 {
        assert(poly_at(e, x) == 0 && poly_at(e, a) == 0);
        assert(x * 0 == 0 && a * 0 == 0 && (x - a) * 0 == 0) by (nonlinear_arith);
    } else {
        lemma_poly_quotient(e, a, x);
        let q = poly_quotient(c, a);
        assert(q.drop_first() =~= poly_quotient(e, a));
        let (ea, ex, qx) = (poly_at(e, a), poly_at(e, x), poly_at(poly_quotient(e, a), x));
        assert(q[0] == ea);
        assert(c[0] + x * ex == c[0] + a * ea + (x - a) * (ea + x * qx)) by (nonlinear_arith)
            requires
                ex == ea + (x - a) * qx,
        ;
    }
}

/// A polynomial with as many roots as it has coefficients, all different modulo a
/// prime, is zero everywhere.
pub proof fn a_polynomial_has_few_roots(c: Seq<int>, roots: Seq<int>, x: int, p: int)
    requires
        is_prime(p),
        roots.len() == c.len(),
        forall|i: int, j: int|
            0 <= i < j < roots.len() ==> !congruent(#[trigger] roots[i], #[trigger] roots[j], p),
        forall|i: int| 0 <= i < roots.len() ==> congruent(poly_at(c, #[trigger] roots[i]), 0, p),
    ensures
        congruent(poly_at(c, x), 0, p),
    decreases c.len(),
{
    if c.len() == 0 {
        lemma_congruent_same(0, p);
    } else {
        let a = roots.last();
        let q = poly_quotient(c, a);
        let fewer = roots.drop_last();
        assert(roots[roots.len() - 1] == a);
        lemma_poly_quotient(c, a, x);
        assert forall|i: int| 0 <= i < fewer.len() implies congruent(
            poly_at(q, #[trigger] fewer[i]),
            0,
            p,
        ) by {
            let r = roots[i];
            assert(fewer[i] == r);
            lemma_poly_quotient(c, a, r);
            lemma_congruent_sum(poly_at(c, r), 0, poly_at(c, a), 0, p);
            assert(poly_at(c, r) - poly_at(c, a) == (r - a) * poly_at(q, r));
            assert(!congruent(roots[i], roots[roots.len() - 1], p));
            lemma_euclid(r - a, poly_at(q, r), p);
        }
        assert forall|i: int, j: int| 0 <= i < j < fewer.len() implies !congruent(
            #[trigger] fewer[i],
            #[trigger] fewer[j],
            p,
        ) by {
            assert(fewer[i] == roots[i] && fewer[j] == roots[j]);
        }
        a_polynomial_has_few_roots(q, fewer, x, p);
        lemma_congruent_same(x - a, p);
        lemma_congruent_product(x - a, x - a, poly_at(q, x), 0, p);
        lemma_congruent_sum(poly_at(c, a), 0, (x - a) * poly_at(q, x), (x - a) * 0, p);
        assert((x - a) * 0 == 0);
    }
}

/// The coefficients of `(x^n - w^n) / (x - w)`.
pub open spec fn geometric(w: int, n: nat) -> Seq<int>
    decreases n,
{
    if n == 0 {
        Seq::empty()
    } else {
        seq![pow(w, (n - 1) as nat)] + geometric(w, (n - 1) as nat)
    }
}

pub(crate) proof fn lemma_geometric(w: int, n: nat, x: int)
    ensures
        geometric(w, n).len() == n,
        (x - w) * poly_at(geometric(w, n), x) == pow(x, n) - pow(w, n),
        n > 0 ==> poly_at(geometric(w, n), w) == n * pow(w, (n - 1) as nat),
    decreases n,
{
    reveal(pow);
    let g = geometric(w, n);
    if n == 0 {
        assert((x - w) * 0 == 0);
        assert(pow(x, 0) == 1 && pow(w, 0) == 1);
    } else {
        let m = (n - 1) as nat;
        lemma_geometric(w, m, x);
        assert(g.drop_first() =~= geometric(w, m));
        assert(g[0] == pow(w, m));
        let (gx, gw) = (poly_at(geometric(w, m), x), poly_at(geometric(w, m), w));
        let (a, b) = (pow(x, m), pow(w, m));
        assert(pow(x, n) == x * a && pow(w, n) == w * b);
        assert((x - w) * (b + x * gx) == x * a - w * b) by (nonlinear_arith)
            requires
                (x - w) * gx == a - b,
        ;
        if m == 0 {
            assert(poly_at(geometric(w, 0), w) == 0);
            assert(w * 0 == 0);
            assert(b == 1);
        } else {
            let c = pow(w, (m - 1) as nat);
            assert(b == w * c);
            assert(b + w * gw == n * b) by (nonlinear_arith)
                requires
                    gw == m * c,
                    b == w * c,
                    n == m + 1,
            ;
        }
    }
}

/// The sum of `roots[i] * values[i] * (x^n - roots[i]^n) / (x - roots[i])` over the
/// first `k` roots, as a polynomial in `x`.
pub open spec fn weighted(roots: Seq<int>, values: Seq<int>, n: nat, k: nat) -> Seq<int>
    decreases k,
{
    if k == 0 {
        Seq::new(n, |i: int| 0)
    } else {
        let i = k - 1;
        poly_sum(
            weighted(roots, values, n, (k - 1) as nat),
            poly_scaled(roots[i] * values[i], geometric(roots[i], n)),
        )
    }
}

pub(crate) proof fn lemma_zeros(n: nat, x: int)
    ensures
        poly_at(Seq::new(n, |i: int| 0int), x) == 0,
    decreases n,
{
    let z = Seq::new(n, |i: int| 0int);
    if n > 0 {
        assert(z.drop_first() =~= Seq::new((n - 1) as nat, |i: int| 0int));
        lemma_zeros((n - 1) as nat, x);
        assert(x * 0 == 0);
    }
}

pub(crate) proof fn lemma_weighted_step(roots: Seq<int>, values: Seq<int>, n: nat, k: nat, x: int)
    requires
        k > 0,
    ensures
        weighted(roots, values, n, k).len() == n,
        poly_at(weighted(roots, values, n, k), x) == poly_at(
            weighted(roots, values, n, (k - 1) as nat),
            x,
        ) + roots[k - 1] * values[k - 1] * poly_at(geometric(roots[k - 1], n), x),
{
    let i = k - 1;
    lemma_weighted_len(roots, values, n, (k - 1) as nat);
    lemma_geometric(roots[i], n, x);
    let g = geometric(roots[i], n);
    lemma_poly_sum(
        weighted(roots, values, n, (k - 1) as nat),
        poly_scaled(roots[i] * values[i], g),
        x,
    );
    lemma_poly_scaled(roots[i] * values[i], g, x);
}

pub(crate) proof fn lemma_weighted_len(roots: Seq<int>, values: Seq<int>, n: nat, k: nat)
    ensures
        weighted(roots, values, n, k).len() == n,
    decreases k,
{
    if k > 0 {
        lemma_weighted_len(roots, values, n, (k - 1) as nat);
    }
}

/// Whether the first `n` of `roots` are `n` different `n`th roots of unity modulo `p`.
pub open spec fn roots_of_unity(roots: Seq<int>, n: nat, p: int) -> bool {
    &&& roots.len() >= n
    &&& forall|i: int| 0 <= i < n ==> congruent(pow(#[trigger] roots[i], n), 1, p)
    &&& forall|i: int, j: int|
        0 <= i < j < n ==> !congruent(#[trigger] roots[i], #[trigger] roots[j], p)
}

pub(crate) proof fn lemma_weighted_at_root(
    roots: Seq<int>,
    values: Seq<int>,
    n: nat,
    k: nat,
    j: int,
    p: int,
)
    requires
        is_prime(p),
        roots_of_unity(roots, n, p),
        k <= n,
        0 <= j < n,
    ensures
        congruent(
            poly_at(weighted(roots, values, n, k), roots[j]),
            if j < k {
                n * values[j]
            } else {
                0
            },
            p,
        ),
    decreases k,
{
    let x = roots[j];
    if k == 0 {
        lemma_zeros(n, x);
        lemma_congruent_same(0, p);
    } else {
        let i = k - 1;
        let (w, v) = (roots[i], values[i]);
        lemma_weighted_at_root(roots, values, n, (k - 1) as nat, j, p);
        lemma_weighted_step(roots, values, n, k, x);
        lemma_geometric(w, n, x);
        let g = poly_at(geometric(w, n), x);
        let before = poly_at(weighted(roots, values, n, (k - 1) as nat), x);
        assert(congruent(pow(roots[i], n), 1, p));
        assert(congruent(pow(roots[j], n), 1, p));
        if i == j {
            // w * v * (n * w^(n - 1)) == n * v * w^n
            let c = pow(w, (n - 1) as nat);
            assert(pow(w, n) == w * c) by {
                reveal(pow);
            }
            assert(w * v * g == (n * v) * pow(w, n)) by (nonlinear_arith)
                requires
                    g == n * c,
                    pow(w, n) == w * c,
            ;
            lemma_congruent_same(n * v, p);
            lemma_congruent_product(n * v, n * v, pow(w, n), 1, p);
            lemma_congruent_sum(before, 0, w * v * g, (n * v) * 1, p);
        } else {
            lemma_congruent_sum(pow(x, n), 1, pow(w, n), 1, p);
            assert(congruent((x - w) * g, 0, p));
            lemma_euclid(x - w, g, p);
            if (x - w) % p == 0 {
                if i < j {
                    lemma_congruent_same(w, p);
                    lemma_congruent_chain(x, w, w, p);
                    assert(congruent(roots[i], roots[j], p));
                } else {
                    assert(congruent(roots[j], roots[i], p));
                }
            }
            lemma_congruent_same(w * v, p);
            lemma_congruent_product(w * v, w * v, g, 0, p);
            assert((w * v) * 0 == 0);
            let target = if j < k - 1 {
                n * values[j]
            } else {
                0
            };
            lemma_congruent_sum(before, target, w * v * g, 0, p);
        }
    }
}

/// The weighted sum is `n` times the one polynomial of fewer than `n` degrees that
/// takes the values at the roots.
pub(crate) proof fn lemma_weighted_is_polynomial(
    roots: Seq<int>,
    values: Seq<int>,
    n: nat,
    c: Seq<int>,
    x: int,
    p: int,
)
    requires
        is_prime(p),
        roots_of_unity(roots, n, p),
        c.len() == n,
        forall|i: int|
            0 <= i < n ==> congruent(poly_at(c, #[trigger] roots[i]), values[i], p),
    ensures
        congruent(poly_at(weighted(roots, values, n, n), x), n * poly_at(c, x), p),
{
    let q = weighted(roots, values, n, n);
    lemma_weighted_len(roots, values, n, n);
    let minus = poly_scaled(-n, c);
    let d = poly_sum(q, minus);
    let r = roots.take(n as int);
    assert forall|i: int| 0 <= i < r.len() implies congruent(poly_at(d, #[trigger] r[i]), 0, p) by {
        assert(r[i] == roots[i]);
        lemma_poly_sum(q, minus, r[i]);
        lemma_poly_scaled(-n, c, r[i]);
        lemma_weighted_at_root(roots, values, n, n, i, p);
        let u = poly_at(c, roots[i]);
        assert(congruent(u, values[i], p));
        lemma_congruent_same(n as int, p);
        lemma_congruent_product(n as int, n as int, u, values[i], p);
        lemma_congruent_sum(poly_at(q, roots[i]), n * values[i], n * u, n * values[i], p);
        assert((-n) * u == -(n * u)) by (nonlinear_arith);
    }
    assert forall|i: int, j: int| 0 <= i < j < r.len() implies !congruent(
        #[trigger] r[i],
        #[trigger] r[j],
        p,
    ) by {
        assert(r[i] == roots[i] && r[j] == roots[j]);
    }
    a_polynomial_has_few_roots(d, r, x, p);
    lemma_poly_sum(q, minus, x);
    lemma_poly_scaled(-n, c, x);
    let u = poly_at(c, x);
    assert((-n) * u == -(n * u)) by (nonlinear_arith);
}

} // verus!
