//! The shape of a `radix`-ary reduction tree over `n` leaves.

use vstd::arithmetic::div_mod::*;
use vstd::arithmetic::mul::*;
use vstd::arithmetic::power::*;
use vstd::prelude::*;

verus! {

/// `a / b`, rounded up.
pub open spec fn ceil_div(a: int, b: int) -> int {
    (a + b - 1) / b
}

/// The number of nodes at `level` over `n` leaves: `ceil(n / radix^level)`, at
/// least one. The leaves are level 0.
pub open spec fn node_count(n: int, radix: int, level: nat) -> int {
    if level == 0 {
        n
    } else {
        let c = ceil_div(n, pow(radix, level));
        if c < 1 {
            1
        } else {
            c
        }
    }
}

/// How many children the node `node_idx` at `level` has: its slice of `radix`
/// nodes of the level below, as far as these exist.
pub open spec fn child_count(n: int, radix: int, level: nat, node_idx: int) -> int {
    let below = node_count(n, radix, (level - 1) as nat);
    let left = below - node_idx * radix;
    if left <= 0 {
        0
    } else if left < radix {
        left
    } else {
        radix
    }
}

/// Whether `depth` is the least number of levels that bring `n` leaves down to
/// one node.
pub open spec fn is_depth(n: int, radix: int, depth: nat) -> bool {
    &&& n <= pow(radix, depth)
    &&& depth > 0 ==> pow(radix, (depth - 1) as nat) < n
}

fn saturating_product(a: usize, b: usize) -> (r: usize)
    ensures
        r == if a * b > usize::MAX {
            usize::MAX as int
        } else {
            a * b
        },
{
    match a.checked_mul(b) {
        Some(p) => p,
        None => usize::MAX,
    }
}

/// `ceil(log_radix(n))`: the number of node levels above `n` leaves.
pub fn tree_depth(n: usize, radix: usize) -> (r: usize)
    requires
        radix >= 2,
    ensures
        is_depth(n as int, radix as int, r as nat),
{
    reveal(pow);
    if n <= 1 {
        assert(pow(radix as int, 0) == 1);
        return 0;
    }
    let mut depth: usize = 0;
    let mut span: usize = 1;
    assert(pow(radix as int, 0) == 1);
    while span < n
        invariant
            radix >= 2,
            n > 1,
            depth < span,
            span == if pow(radix as int, depth as nat) > usize::MAX {
                usize::MAX as int
            } else {
                pow(radix as int, depth as nat)
            },
            depth > 0 ==> pow(radix as int, (depth - 1) as nat) < n,
        decreases usize::MAX - span,
    {
        proof {
            assert(pow(radix as int, (depth + 1) as nat) == radix * pow(radix as int, depth as nat))
                by {
                reveal(pow);
            }
            assert(span * radix >= span * 2) by (nonlinear_arith)
                requires
                    radix >= 2,
                    span >= 1,
            ;
            assert(span == pow(radix as int, depth as nat));
            assert(span * radix == radix * pow(radix as int, depth as nat)) by {
                lemma_mul_is_commutative(span as int, radix as int);
            }
        }
        span = saturating_product(span, radix);
        depth = depth + 1;
    }
    depth
}

proof fn lemma_pow_at_least_one(b: int, e: nat)
    requires
        b >= 2,
    ensures
        pow(b, e) >= 1,
    decreases e,
{
    reveal(pow);
    if e > 0 {
        lemma_pow_at_least_one(b, (e - 1) as nat);
        assert(b * pow(b, (e - 1) as nat) >= 1) by (nonlinear_arith)
            requires
                b >= 2,
                pow(b, (e - 1) as nat) >= 1,
        ;
    }
}

/// `ceil(a / b)`.
pub fn div_up(a: usize, b: usize) -> (r: usize)
    requires
        b > 0,
    ensures
        r == ceil_div(a as int, b as int),
{
    proof {
        lemma_fundamental_div_mod(a as int, b as int);
        lemma_mod_bound(a as int, b as int);
        let q = a as int / b as int;
        let m = a as int % b as int;
        assert(b * q == q * b) by (nonlinear_arith);
        if m == 0 {
            lemma_fundamental_div_mod_converse(a + b - 1, b as int, q, b - 1);
        } else {
            assert(b * q + b == b * (q + 1)) by (nonlinear_arith);
            lemma_fundamental_div_mod_converse(a + b - 1, b as int, q + 1, m - 1);
            assert(q < a) by (nonlinear_arith)
                requires
                    a == b * q + m,
                    m > 0,
                    b > 0,
                    q >= 0,
            ;
        }
    }
    let q: usize = a / b;
    if a % b == 0 {
        q
    } else {
        q + 1
    }
}

/// The number of nodes at `level`.
pub fn nodes_at_level(n: usize, radix: usize, level: usize) -> (r: usize)
    requires
        level >= 1,
        radix >= 2,
    ensures
        r == node_count(n as int, radix as int, level as nat),
{
    let mut divisor: usize = 1;
    let mut i: usize = 0;
    assert(pow(radix as int, 0) == 1) by {
        reveal(pow);
    }
    while i < level
        invariant
            i <= level,
            radix >= 2,
            divisor == if pow(radix as int, i as nat) > usize::MAX {
                usize::MAX as int
            } else {
                pow(radix as int, i as nat)
            },
        decreases level - i,
    {
        proof {
            let p = pow(radix as int, i as nat);
            assert(pow(radix as int, (i + 1) as nat) == radix * p) by {
                reveal(pow);
            }
            lemma_pow_at_least_one(radix as int, i as nat);
            lemma_mul_is_commutative(divisor as int, radix as int);
            if p > usize::MAX {
                assert(radix * p > usize::MAX) by (nonlinear_arith)
                    requires
                        radix >= 2,
                        p > usize::MAX,
                ;
                assert(divisor * radix >= usize::MAX * 2) by (nonlinear_arith)
                    requires
                        radix >= 2,
                        divisor == usize::MAX,
                ;
            }
        }
        divisor = saturating_product(divisor, radix);
        i = i + 1;
    }
    proof {
        let p = pow(radix as int, level as nat);
        lemma_pow_at_least_one(radix as int, level as nat);
        if p > usize::MAX {
            // Both divisors reach past `n`, so both quotients round up to at most one.
            lemma_small_ceil(n as int, p);
            lemma_small_ceil(n as int, divisor as int);
        }
    }
    let c: usize = div_up(n, divisor);
    if c < 1 {
        1
    } else {
        c
    }
}

proof fn lemma_small_ceil(a: int, b: int)
    requires
        0 <= a <= b,
        b > 0,
    ensures
        ceil_div(a, b) == if a == 0 {
            0int
        } else {
            1int
        },
{
    if a == 0 {
        lemma_fundamental_div_mod_converse(b - 1, b, 0, b - 1);
    } else {
        lemma_fundamental_div_mod_converse(a + b - 1, b, 1, a - 1);
    }
}

/// How many children the node `node_idx` at `level` really has.
pub fn real_children_for_node(n: usize, radix: usize, level: usize, node_idx: usize) -> (r: usize)
    requires
        level >= 1,
        radix >= 2,
        node_idx * radix <= usize::MAX,
    ensures
        r == child_count(n as int, radix as int, level as nat, node_idx as int),
{
    let population: usize = if level == 1 {
        n
    } else {
        nodes_at_level(n, radix, level - 1)
    };
    let first: usize = node_idx * radix;
    if first >= population {
        return 0;
    }
    let left: usize = population - first;
    if left < radix {
        left
    } else {
        radix
    }
}

/// The root level has a single node.
pub proof fn root_is_single(n: int, radix: int, depth: nat)
    requires
        n >= 1,
        radix >= 2,
        is_depth(n, radix, depth),
    ensures
        node_count(n, radix, depth) == 1,
{
    lemma_pow_at_least_one(radix, depth);
    if depth > 0 {
        lemma_small_ceil(n, pow(radix, depth));
    } else {
        assert(pow(radix, 0) == 1) by {
            reveal(pow);
        }
    }
}

/// Every level folds the nodes of the level below, `radix` at a time.
pub proof fn levels_fold_by_radix(n: int, radix: int, level: nat)
    requires
        n >= 1,
        radix >= 2,
    ensures
        node_count(n, radix, level + 1) == ceil_div(node_count(n, radix, level), radix),
{
    let p = pow(radix, level);
    lemma_pow_at_least_one(radix, level);
    lemma_pow_at_least_one(radix, level + 1);
    assert(pow(radix, level + 1) == radix * p) by {
        reveal(pow);
    }
    assert(pow(radix, 0) == 1) by {
        reveal(pow);
    }
    lemma_mul_is_commutative(radix, p);
    lemma_ceil_positive(n, p);
    lemma_ceil_positive(n, p * radix);
    lemma_ceil_of_ceil(n, p, radix);
    if level == 0 {
        lemma_div_basics(n);
    }
}

proof fn lemma_ceil_positive(a: int, b: int)
    requires
        a >= 1,
        b >= 1,
    ensures
        ceil_div(a, b) >= 1,
{
    lemma_div_is_ordered(b, a + b - 1, b);
    lemma_div_basics(b);
}

proof fn lemma_ceil_of_ceil(a: int, b: int, c: int)
    requires
        a >= 1,
        b >= 1,
        c >= 1,
    ensures
        ceil_div(ceil_div(a, b), c) == ceil_div(a, b * c),
{
    // With x = a - 1, ceil(a / b) = x / b + 1.
    let x = a - 1;
    lemma_ceil_as_floor(a, b);
    lemma_div_pos_is_pos(x, b);
    lemma_ceil_as_floor(x / b + 1, c);
    lemma_mul_strictly_positive(b, c);
    lemma_ceil_as_floor(a, b * c);
    lemma_div_denominator(x, b, c);
}

proof fn lemma_ceil_as_floor(a: int, b: int)
    requires
        a >= 1,
        b >= 1,
    ensures
        ceil_div(a, b) == (a - 1) / b + 1,
{
    lemma_div_plus_one(a - 1, b);
    assert(a - 1 + b == a + b - 1);
}

proof fn lemma_div_plus_one(x: int, b: int)
    requires
        b >= 1,
    ensures
        (x + b) / b == x / b + 1,
{
    lemma_fundamental_div_mod(x, b);
    lemma_mod_bound(x, b);
    let q = x / b;
    assert(b * (q + 1) == b * q + b) by (nonlinear_arith);
    lemma_fundamental_div_mod_converse(x + b, b, q + 1, x % b);
}

/// Every node below the root has exactly one parent: the node `child / radix` of
/// the next level exists, and `child` lies in its slice and in no other's.
pub proof fn every_child_has_one_parent(n: int, radix: int, level: nat, child: int, parent: int)
    requires
        n >= 1,
        radix >= 2,
        level >= 1,
        0 <= child < node_count(n, radix, (level - 1) as nat),
        parent >= 0,
    ensures
        child / radix < node_count(n, radix, level),
        parent == child / radix <==> parent * radix <= child < parent * radix + child_count(
            n,
            radix,
            level,
            parent,
        ),
{
    let below = node_count(n, radix, (level - 1) as nat);
    levels_fold_by_radix(n, radix, (level - 1) as nat);
    lemma_ceil_as_floor(below, radix);
    lemma_div_is_ordered(child, below - 1, radix);
    lemma_fundamental_div_mod(child, radix);
    lemma_mod_bound(child, radix);
    let q = child / radix;
    assert(radix * q == q * radix) by (nonlinear_arith);
    if parent < q {
        assert(parent * radix + radix <= q * radix) by (nonlinear_arith)
            requires
                parent + 1 <= q,
                radix >= 2,
        ;
    }
    if parent > q {
        assert(q * radix + radix <= parent * radix) by (nonlinear_arith)
            requires
                q + 1 <= parent,
                radix >= 2,
        ;
    }
}

/// Every node of the tree has at least one child.
pub proof fn every_node_has_a_child(n: int, radix: int, level: nat, node_idx: int)
    requires
        n >= 1,
        radix >= 2,
        level >= 1,
        0 <= node_idx < node_count(n, radix, level),
    ensures
        1 <= child_count(n, radix, level, node_idx) <= radix,
{
    let below = node_count(n, radix, (level - 1) as nat);
    levels_fold_by_radix(n, radix, (level - 1) as nat);
    assert(below >= 1) by {
        lemma_pow_at_least_one(radix, (level - 1) as nat);
    }
    lemma_ceil_as_floor(below, radix);
    lemma_fundamental_div_mod(below - 1, radix);
    lemma_mod_bound(below - 1, radix);
    let q = (below - 1) / radix;
    assert(node_idx * radix <= q * radix) by (nonlinear_arith)
        requires
            node_idx <= q,
            radix >= 2,
    ;
    assert(radix * q == q * radix) by (nonlinear_arith);
}

} // verus!
