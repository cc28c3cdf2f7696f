//! Circuits that are built once and kept, and the towers in which each level is
//! built from the one below.

use crate::prover_node::tree::CircuitKey;
use vstd::prelude::*;

verus! {

/// The circuits `C` that a process has built, each under its key.
#[derive(Debug)]
pub struct CircuitRegistry<C> {
    pub entries: Vec<(CircuitKey, C)>,
}

impl<C> CircuitRegistry<C> {
    /// Whether a circuit is kept under `key`.
    pub open spec fn holds(&self, key: CircuitKey) -> bool {
        exists|i: int| 0 <= i < self.entries@.len() && (#[trigger] self.entries@[i]).0 == key
    }

    /// Whether no key is used twice.
    pub open spec fn wf(&self) -> bool {
        forall|i: int, j: int|
            0 <= i < j < self.entries@.len() ==> (#[trigger] self.entries@[i]).0 != (
            #[trigger] self.entries@[j]).0
    }

    /// A registry without circuits.
    pub fn new() -> (r: Self)
        ensures
            r.wf(),
            r.entries@.len() == 0,
    {
        CircuitRegistry { entries: Vec::new() }
    }

    /// Where the circuit of `key` is kept.
    pub fn find(&self, key: CircuitKey) -> (r: Option<usize>)
        requires
            self.wf(),
        ensures
            r is Some <==> self.holds(key),
            r matches Some(i) ==> i < self.entries@.len() && self.entries@[i as int].0 == key,
    {
        let mut i: usize = 0;
        while i < self.entries.len()
            invariant
                i <= self.entries@.len(),
                forall|j: int| 0 <= j < i ==> (#[trigger] self.entries@[j]).0 != key,
            decreases self.entries@.len() - i,
        {
            if self.entries[i].0 == key {
                return Some(i);
            }
            i = i + 1;
        }
        None
    }

    /// The place of the circuit of `key`, which is built where it is not there yet.
    /// A circuit that is there is not built again, and stays where it is.
    pub fn get_or_build<B: Fn(CircuitKey) -> C>(&mut self, key: CircuitKey, build: &B) -> (r: usize)
        requires
            old(self).wf(),
            call_requires(*build, (key,)),
        ensures
            final(self).wf(),
            r < final(self).entries@.len(),
            final(self).entries@[r as int].0 == key,
            old(self).holds(key) ==> final(self).entries@ == old(self).entries@,
            !old(self).holds(key) ==> {
                &&& r == old(self).entries@.len()
                &&& final(self).entries@ == old(self).entries@.push(final(self).entries@[r as int])
                &&& call_ensures(*build, (key,), final(self).entries@[r as int].1)
            },
    {
        match self.find(key) {
            Some(i) => i,
            None => {
                let at: usize = self.entries.len();
                let circuit: C = build(key);
                self.entries.push((key, circuit));
                assert(self.entries@ =~= old(self).entries@.push(self.entries@[at as int]));
                at
            },
        }
    }
}

/// Asking twice for a circuit gives one and the same: the second time the registry
/// does not change and the place is the first one.
pub proof fn circuits_are_built_once<C>(
    first: CircuitRegistry<C>,
    second: CircuitRegistry<C>,
    key: CircuitKey,
    at: int,
    again: int,
)
    requires
        first.wf(),
        0 <= at < first.entries@.len(),
        first.entries@[at].0 == key,
        first.holds(key) ==> second.entries@ == first.entries@,
        0 <= again < second.entries@.len(),
        second.entries@[again].0 == key,
    ensures
        again == at,
        second.entries@[again] == first.entries@[at],
{
    assert(first.holds(key));
    if again < at {
        assert(first.entries@[again].0 != first.entries@[at].0);
    } else if at < again {
        assert(first.entries@[at].0 != first.entries@[again].0);
    }
}

/// Nothing is built before it is asked for: after asking for `key`, the registry
/// holds `key` and what it held before.
pub proof fn circuits_are_built_on_demand<C>(
    before: CircuitRegistry<C>,
    after: CircuitRegistry<C>,
    key: CircuitKey,
    other: CircuitKey,
)
    requires
        after.holds(key),
        before.holds(key) ==> after.entries@ == before.entries@,
        !before.holds(key) ==> after.entries@.len() == before.entries@.len() + 1
            && after.entries@.drop_last() == before.entries@ && after.entries@.last().0 == key,
    ensures
        after.holds(other) <==> other == key || before.holds(other),
{
    if !before.holds(key) {
        assert(after.entries@ =~= before.entries@.push(after.entries@.last()));
        if before.holds(other) {
            let i = choose|i: int|
                0 <= i < before.entries@.len() && (#[trigger] before.entries@[i]).0 == other;
            assert(after.entries@[i] == before.entries@[i]);
        }
        if after.holds(other) && other != key {
            let i = choose|i: int|
                0 <= i < after.entries@.len() && (#[trigger] after.entries@[i]).0 == other;
            assert(before.entries@[i] == after.entries@[i]);
        }
    }
}

/// Whether `p` may stand at `level` of a tower: the first level is built from
/// nothing, and every other one from the one below.
pub open spec fn stands_at<P, First: Fn() -> P, Next: Fn(usize, &P) -> P>(
    first: First,
    next: Next,
    level: int,
    p: P,
) -> bool
    decreases level,
{
    if level <= 1 {
        call_ensures(first, (), p)
    } else {
        exists|below: P|
            stands_at(first, next, level - 1, below) && #[trigger] call_ensures(
                next,
                (level as usize, &below),
                p,
            )
    }
}

/// A tower of circuits, or of proofs: what stands at the levels 1, 2 and so on, as
/// far as it was built.
#[derive(Debug)]
pub struct Tower<P> {
    pub levels: Vec<P>,
}

impl<P> Tower<P> {
    /// Whether every level may stand where it does.
    pub open spec fn sound<First: Fn() -> P, Next: Fn(usize, &P) -> P>(
        &self,
        first: First,
        next: Next,
    ) -> bool {
        forall|i: int|
            0 <= i < self.levels@.len() ==> stands_at(first, next, i + 1, #[trigger] self.levels@[i])
    }

    /// A tower without levels.
    pub fn new() -> (r: Self)
        ensures
            r.levels@.len() == 0,
    {
        Tower { levels: Vec::new() }
    }

    /// Builds up to `level`, and gives what stands there. Levels that stand are not
    /// built again.
    pub fn up_to<First: Fn() -> P, Next: Fn(usize, &P) -> P>(
        &mut self,
        level: usize,
        first: &First,
        next: &Next,
    ) -> (r: &P)
        requires
            level >= 1,
            old(self).sound(*first, *next),
            call_requires(*first, ()),
            forall|l: usize, p: P| l >= 2 ==> #[trigger] call_requires(*next, (l, &p)),
        ensures
            final(self).sound(*first, *next),
            final(self).levels@.len() == if old(self).levels@.len() < level {
                level as int
            } else {
                old(self).levels@.len() as int
            },
            forall|i: int|
                0 <= i < old(self).levels@.len() ==> final(self).levels@[i] == old(self).levels@[i],
            *r == final(self).levels@[level - 1],
    {
        while self.levels.len() < level
            invariant
                level >= 1,
                self.sound(*first, *next),
                call_requires(*first, ()),
                forall|l: usize, p: P| l >= 2 ==> #[trigger] call_requires(*next, (l, &p)),
                old(self).levels@.len() <= self.levels@.len(),
                self.levels@.len() <= level || self.levels@.len() == old(self).levels@.len(),
                forall|i: int|
                    0 <= i < old(self).levels@.len() ==> self.levels@[i] == old(self).levels@[i],
            decreases level - self.levels.len(),
        {
            let n: usize = self.levels.len();
            let p: P = if n == 0 {
                first()
            } else {
                next(n + 1, &self.levels[n - 1])
            };
            assert(stands_at(*first, *next, n + 1, p)) by {
                if n > 0 {
                    assert(stands_at(*first, *next, (n - 1) + 1, self.levels@[n - 1]));
                }
            }
            self.levels.push(p);
        }
        &self.levels[level - 1]
    }
}

/// Where building depends on nothing but its inputs, two processes build the same
/// towers.
pub proof fn towers_agree<P, First: Fn() -> P, Next: Fn(usize, &P) -> P>(
    first: First,
    next: Next,
    level: int,
    a: P,
    b: P,
)
    requires
        forall|x: P, y: P| #[trigger]
            call_ensures(first, (), x) && #[trigger] call_ensures(first, (), y) ==> x == y,
        forall|l: usize, below: P, x: P, y: P| #[trigger]
            call_ensures(next, (l, &below), x) && #[trigger] call_ensures(next, (l, &below), y) ==> x
                == y,
        stands_at(first, next, level, a),
        stands_at(first, next, level, b),
    ensures
        a == b,
    decreases level,
{
    if level > 1 {
        let x = choose|below: P|
            stands_at(first, next, level - 1, below) && #[trigger] call_ensures(
                next,
                (level as usize, &below),
                a,
            );
        let y = choose|below: P|
            stands_at(first, next, level - 1, below) && #[trigger] call_ensures(
                next,
                (level as usize, &below),
                b,
            );
        towers_agree(first, next, level - 1, x, y);
    }
}

} // verus!
