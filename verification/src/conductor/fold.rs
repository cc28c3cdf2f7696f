//! The cross-machine merge-tree fold.
//!
//! The leader pairs the nodes of a level, hands one merge task per pair to a
//! transport, waits for the whole level, puts the results back into pair order
//! and goes on with the next level, carrying an odd node up unchanged. Proofs
//! travel by key: leaves under the keys they were uploaded to, merge outputs
//! under `{height}/m/{level}/{index}`.

use crate::clock;
use crate::conductor::storage::{merge_key, merge_keys_are_distinct, merge_object_key};
use crate::ordering::{
    ascending, is_permutation, lemma_moved, moved, moved_source, sort_ascending,
};
use crate::text::{dec, push_dec};
use crate::text_map::TextMap;
use vstd::pervasive::cloned;
use vstd::prelude::*;
use vstd::string::*;

verus! {

/// A proof that can travel through the proof store.
pub trait MergeProof: Sized + Clone {
    /// The number of bytes of the proof's wire form, or `None` where it cannot
    /// be encoded.
    fn encoded_len(&self) -> Option<usize>;
}

/// One merge task of a level. `index` is the position of the pair in the level.
#[derive(Debug, Clone, PartialEq, Eq)]
pub struct LevelTask {
    pub height: u64,
    pub level: u64,
    pub index: u64,
    pub left_key: String,
    pub left_is_merge: bool,
    pub right_key: String,
    pub right_is_merge: bool,
    pub output_key: String,
}

/// What a worker reports of one merge task.
#[derive(Debug, Clone, PartialEq, Eq)]
pub struct TaskResult {
    pub index: u64,
    pub output_key: String,
    pub prove_ms: u64,
}

/// The barrier measurements of one level.
#[derive(Debug, Clone, PartialEq)]
pub struct LevelBarrierMetric {
    /// The level, counted from 1.
    pub level: u64,
    /// Merge tasks of the level.
    pub tasks: usize,
    /// Whether an odd node was carried up.
    pub odd_carry: bool,
    /// From the release of the level until all its results were in.
    pub barrier_ms: u64,
    pub slowest_prove_ms: u64,
    pub median_prove_ms: u64,
    /// How much longer than the median the slowest merge took.
    pub straggler_ms: u64,
}

/// The folded proof with what was measured on the way.
#[derive(Debug)]
pub struct DistributedFoldOutcome<P> {
    pub final_proof: P,
    /// Whether at least one merge was made.
    pub final_is_merge: bool,
    /// The number of merge levels.
    pub depth: usize,
    /// The number of merges over all levels.
    pub merges: usize,
    /// Prove time summed over all merges, in milliseconds.
    pub merge_prove_total: u128,
    pub level_metrics: Vec<LevelBarrierMetric>,
    /// Time the leader spent fetching merge outputs, in the transport's unit.
    pub transit_total: u128,
    /// The largest wire form among the merge outputs, in bytes.
    pub max_intermediate_bytes: usize,
}

/// Whether `key` is the key of some merge output of the block at `height`.
pub open spec fn in_merge_namespace(height: nat, key: Seq<char>) -> bool {
    exists|level: nat, index: nat| key == #[trigger] merge_key(height, level, index)
}

/// Whether the tasks of a level can run in any order: no output key is an input
/// key, and no two tasks share an output key.
pub open spec fn isolated(tasks: Seq<LevelTask>) -> bool {
    &&& forall|i: int, j: int|
        0 <= i < tasks.len() && 0 <= j < tasks.len() ==> #[trigger] tasks[i].output_key@
            != #[trigger] tasks[j].left_key@
    &&& forall|i: int, j: int|
        0 <= i < tasks.len() && 0 <= j < tasks.len() ==> #[trigger] tasks[i].output_key@
            != #[trigger] tasks[j].right_key@
    &&& forall|i: int, j: int|
        0 <= i < j < tasks.len() ==> #[trigger] tasks[i].output_key@
            != #[trigger] tasks[j].output_key@
}

/// Whether both inputs of every task are in the store.
pub open spec fn inputs_stored<P>(store: Map<Seq<char>, P>, tasks: Seq<LevelTask>) -> bool {
    forall|i: int|
        #![trigger tasks[i]]
        0 <= i < tasks.len() ==> store.contains_key(tasks[i].left_key@) && store.contains_key(
            tasks[i].right_key@,
        )
}

/// Whether `merge_fn` may give `out` for the inputs that `task` finds in `store`.
pub open spec fn merges_to<P, F: Fn(&P, bool, &P, bool) -> Result<P, String>>(
    merge_fn: F,
    store: Map<Seq<char>, P>,
    task: LevelTask,
    out: P,
) -> bool {
    call_ensures(
        merge_fn,
        (&store[task.left_key@], task.left_is_merge, &store[task.right_key@], task.right_is_merge),
        Ok(out),
    )
}

/// Whether `merge_fn` accepts all inputs.
pub open spec fn callable<P, F: Fn(&P, bool, &P, bool) -> Result<P, String>>(merge_fn: F) -> bool {
    forall|l: &P, lm: bool, r: &P, rm: bool| #[trigger] call_requires(merge_fn, (l, lm, r, rm))
}

/// Whether `merge_fn` never fails.
pub open spec fn infallible<P, F: Fn(&P, bool, &P, bool) -> Result<P, String>>(merge_fn: F) -> bool {
    forall|l: &P, lm: bool, r: &P, rm: bool, out: Result<P, String>| #[trigger]
        call_ensures(merge_fn, (l, lm, r, rm), out) ==> out is Ok
}

/// Whether `after` differs from `before` under the tasks' output keys only.
pub open spec fn confined<P>(
    before: Map<Seq<char>, P>,
    after: Map<Seq<char>, P>,
    tasks: Seq<LevelTask>,
) -> bool {
    forall|k: Seq<char>|
        (forall|i: int| 0 <= i < tasks.len() ==> #[trigger] tasks[i].output_key@ != k) ==> (
        #[trigger] after.contains_key(k) == before.contains_key(k)) && after[k] == before[k]
}

/// What the store holds once the tasks of an isolated level are done: each
/// output under its key, and everything else as before.
pub open spec fn level_stored<P, F: Fn(&P, bool, &P, bool) -> Result<P, String>>(
    merge_fn: F,
    before: Map<Seq<char>, P>,
    after: Map<Seq<char>, P>,
    tasks: Seq<LevelTask>,
) -> bool {
    &&& inputs_stored(before, tasks)
    &&& forall|i: int|
        #![trigger tasks[i]]
        0 <= i < tasks.len() ==> after.contains_key(tasks[i].output_key@) && merges_to(
            merge_fn,
            before,
            tasks[i],
            after[tasks[i].output_key@],
        )
    &&& confined(before, after, tasks)
}

/// Whether `who` says for each result which task it answers, no task twice.
pub open spec fn answers_as(
    tasks: Seq<LevelTask>,
    results: Seq<TaskResult>,
    who: Seq<int>,
) -> bool {
    &&& who.len() == results.len()
    &&& forall|j: int|
        #![trigger results[j]]
        #![trigger who[j]]
        0 <= j < results.len() ==> 0 <= who[j] < tasks.len() && results[j].index
            == tasks[who[j]].index && results[j].output_key@ == tasks[who[j]].output_key@
    &&& forall|i: int, j: int| 0 <= i < j < who.len() ==> #[trigger] who[i] != #[trigger] who[j]
}

/// Whether every result answers one of the tasks, no task twice.
pub open spec fn answers(tasks: Seq<LevelTask>, results: Seq<TaskResult>) -> bool {
    exists|who: Seq<int>| answers_as(tasks, results, who)
}

/// A level that was run: its tasks, and the results where it did not fail.
pub struct LevelRun {
    pub tasks: Seq<LevelTask>,
    pub answer: Option<Seq<TaskResult>>,
}

/// The level `tasks` with what came of it.
pub open spec fn level_run(tasks: Seq<LevelTask>, r: Result<Vec<TaskResult>, String>) -> LevelRun {
    LevelRun {
        tasks,
        answer: match r {
            Ok(results) => Some(results@),
            Err(_) => None,
        },
    }
}

/// Whether every task of the level was answered.
pub open spec fn in_full(run: LevelRun) -> bool {
    run.answer is Some && run.answer->0.len() == run.tasks.len()
}

/// Moves proofs between machines and runs merge tasks on workers. A transport
/// never makes a result up: what it cannot do it reports as an error.
pub trait FoldTransport<P: MergeProof> {
    /// What the proof store holds.
    spec fn stored(&self) -> Map<Seq<char>, P>;

    /// The levels that were run so far, in order.
    spec fn levels(&self) -> Seq<LevelRun>;

    /// Whether the transport itself never fails.
    spec fn reliable(&self) -> bool;

    /// Stores a copy of `proof` under `key`; returns the time it took. A failure
    /// leaves the other keys alone too.
    fn put(&mut self, key: &str, proof: &P) -> (r: Result<u64, String>)
        ensures
            final(self).reliable() == old(self).reliable(),
            final(self).levels() == old(self).levels(),
            forall|k: Seq<char>|
                k != key@ ==> (#[trigger] final(self).stored().contains_key(k) == old(
                    self,
                ).stored().contains_key(k)) && final(self).stored()[k] == old(self).stored()[k],
            r is Ok ==> exists|q: P|
                cloned(*proof, q) && final(self).stored() == #[trigger] old(self).stored().insert(key@, q),
            old(self).reliable() ==> r is Ok,
    ;

    /// Fetches a copy of the proof stored under `key`, and the time it took.
    fn get(&self, key: &str) -> (r: Result<(P, u64), String>)
        ensures
            r matches Ok(got) ==> self.stored().contains_key(key@) && cloned(
                self.stored()[key@],
                got.0,
            ),
            self.reliable() && self.stored().contains_key(key@) ==> r is Ok,
    ;

    /// Runs the tasks of one level: each worker fetches its two inputs, merges
    /// them and stores the output. Any failure fails the level; what was stored
    /// until then stands under output keys of the level.
    fn run_level<F: Fn(&P, bool, &P, bool) -> Result<P, String>>(
        &mut self,
        tasks: &Vec<LevelTask>,
        merge_fn: &F,
    ) -> (r: Result<Vec<TaskResult>, String>)
        requires
            callable(*merge_fn),
        ensures
            final(self).reliable() == old(self).reliable(),
            final(self).levels() == old(self).levels().push(level_run(tasks@, r)),
            confined(old(self).stored(), final(self).stored(), tasks@),
            r matches Ok(results) ==> answers(tasks@, results@),
            r is Ok && isolated(tasks@) ==> level_stored(
                *merge_fn,
                old(self).stored(),
                final(self).stored(),
                tasks@,
            ),
            old(self).reliable() && isolated(tasks@) && inputs_stored(old(self).stored(), tasks@)
                && infallible(*merge_fn) ==> r is Ok && r->Ok_0@.len() == tasks@.len(),
    ;
}

/// One level of the fold: each pair is merged and an odd last node stays.
pub open spec fn level_step<P, F: Fn(&P, bool, &P, bool) -> Result<P, String>>(
    merge_fn: F,
    cur: Seq<(P, bool)>,
    next: Seq<(P, bool)>,
) -> bool {
    &&& next.len() == (cur.len() + 1) / 2
    &&& forall|i: int|
        #![trigger next[i]]
        0 <= i < cur.len() / 2 ==> next[i].1 && call_ensures(
            merge_fn,
            (&cur[2 * i].0, cur[2 * i].1, &cur[2 * i + 1].0, cur[2 * i + 1].1),
            Ok(next[i].0),
        )
    &&& cur.len() % 2 == 1 ==> next.last() == cur.last()
}

/// Whether folding the nodes `cur` level by level, left to right, may give `top`.
/// A node is a proof and whether it is a merge.
pub open spec fn folds_to<P, F: Fn(&P, bool, &P, bool) -> Result<P, String>>(
    merge_fn: F,
    cur: Seq<(P, bool)>,
    top: (P, bool),
) -> bool
    decreases cur.len(),
{
    if cur.len() == 0 {
        false
    } else if cur.len() == 1 {
        top == cur[0]
    } else {
        exists|next: Seq<(P, bool)>| #[trigger]
            level_step(merge_fn, cur, next) && next.len() < cur.len() && folds_to(
                merge_fn,
                next,
                top,
            )
    }
}

/// The leaves of a fold as nodes: what the store holds under their keys.
pub open spec fn stored_leaves<P>(store: Map<Seq<char>, P>, keys: Seq<String>) -> Seq<(P, bool)> {
    Seq::new(keys.len(), |i: int| (store[keys[i]@], false))
}

/// Whether the store holds every leaf, none of them under a merge key.
pub open spec fn staged<P>(height: nat, store: Map<Seq<char>, P>, keys: Seq<String>) -> bool {
    forall|i: int|
        #![trigger keys[i]]
        0 <= i < keys.len() ==> store.contains_key(keys[i]@) && !in_merge_namespace(height, keys[i]@)
}

/// The number of merge levels over `n` leaves.
pub open spec fn fold_depth(n: nat) -> nat
    decreases n,
{
    if n <= 1 {
        0
    } else {
        1 + fold_depth(((n + 1) / 2) as nat)
    }
}

/// The number of nodes that are left of `n` leaves after `levels` levels.
pub open spec fn width_after(n: nat, levels: nat) -> nat
    decreases levels,
{
    if levels == 0 {
        n
    } else {
        (width_after(n, (levels - 1) as nat) + 1) / 2
    }
}

/// The sum of `s`.
pub open spec fn total(s: Seq<u64>) -> int
    decreases s.len(),
{
    if s.len() == 0 {
        0
    } else {
        total(s.drop_last()) + s.last()
    }
}

/// The sum of all the numbers in `s`.
pub open spec fn grand_total(s: Seq<Seq<u64>>) -> int
    decreases s.len(),
{
    if s.len() == 0 {
        0
    } else {
        grand_total(s.drop_last()) + total(s.last())
    }
}

/// The largest of the sizes that are known, 0 if none is.
pub open spec fn largest(s: Seq<Option<usize>>) -> int
    decreases s.len(),
{
    if s.len() == 0 {
        0
    } else {
        match s.last() {
            Some(b) if b > largest(s.drop_last()) => b as int,
            _ => largest(s.drop_last()),
        }
    }
}

/// The last of the ascending prove times, 0 if there is none.
pub open spec fn slowest(proves: Seq<u64>) -> u64 {
    if proves.len() == 0 {
        0
    } else {
        ascending(proves).last()
    }
}

/// The upper median of the prove times, 0 if there is none.
pub open spec fn median(proves: Seq<u64>) -> u64 {
    if proves.len() == 0 {
        0
    } else {
        ascending(proves)[proves.len() as int / 2]
    }
}

/// The measurements of a level whose merges took `proves` milliseconds.
pub open spec fn metric_of(m: LevelBarrierMetric, level: nat, width: nat, proves: Seq<u64>) -> bool {
    &&& m.level == level
    &&& m.tasks == width / 2
    &&& m.odd_carry == (width % 2 == 1)
    &&& m.slowest_prove_ms == slowest(proves)
    &&& m.median_prove_ms == median(proves)
    &&& m.straggler_ms == slowest(proves) - median(proves)
}

/// The measurements of the first levels of a fold over `n` leaves, one level
/// for each element of `proves`.
pub open spec fn measured(
    metrics: Seq<LevelBarrierMetric>,
    n: nat,
    proves: Seq<Seq<u64>>,
) -> bool {
    &&& metrics.len() == proves.len()
    &&& forall|i: int|
        0 <= i < metrics.len() ==> (#[trigger] proves[i]).len() == width_after(n, i as nat) / 2
    &&& forall|i: int|
        0 <= i < metrics.len() ==> metric_of(
            #[trigger] metrics[i],
            (i + 1) as nat,
            width_after(n, i as nat),
            proves[i],
        )
}

/// Whether `key` is the key of a merge of one of the first `levels` levels of the
/// fold of `n` leaves.
pub open spec fn is_fold_key(height: nat, n: nat, levels: nat, key: Seq<char>) -> bool {
    exists|l: nat, i: nat|
        1 <= l <= levels && i < width_after(n, (l - 1) as nat) / 2 && key == #[trigger] merge_key(
            height,
            l,
            i,
        )
}

/// Whether `now` differs from `before` only in the merge outputs of the first
/// `levels` levels of the fold of `n` leaves.
pub open spec fn only_merges_changed<P>(
    height: nat,
    n: nat,
    levels: nat,
    before: Map<Seq<char>, P>,
    now: Map<Seq<char>, P>,
) -> bool {
    forall|k: Seq<char>|
        !is_fold_key(height, n, levels, k) ==> (#[trigger] now.contains_key(k)
            == before.contains_key(k)) && now[k] == before[k]
}

/// Whether `now` holds the merge outputs of the first `levels` levels of the fold
/// of `n` leaves.
pub open spec fn merges_present<P>(
    height: nat,
    n: nat,
    levels: nat,
    now: Map<Seq<char>, P>,
) -> bool {
    forall|l: nat, i: nat|
        1 <= l <= levels && i < width_after(n, (l - 1) as nat) / 2 ==> now.contains_key(
            #[trigger] merge_key(height, l, i),
        )
}

/// What the instrumentation of a fold over `n` leaves says, where the workers
/// reported the times `proves` (per level), the fetches took `gets` and the
/// outputs had the sizes `sizes`.
pub open spec fn instrumented<P>(
    o: DistributedFoldOutcome<P>,
    n: nat,
    proves: Seq<Seq<u64>>,
    gets: Seq<u64>,
    sizes: Seq<Option<usize>>,
) -> bool {
    &&& o.level_metrics@.len() == fold_depth(n)
    &&& measured(o.level_metrics@, n, proves)
    &&& o.merge_prove_total == grand_total(proves)
    &&& gets.len() == n - 1
    &&& o.transit_total == total(gets)
    &&& sizes.len() == n - 1
    &&& o.max_intermediate_bytes == largest(sizes)
}

/// Whether the worker of task `i` reported the time `ms`.
pub open spec fn reported_at(results: Seq<TaskResult>, i: int, ms: u64) -> bool {
    exists|j: int|
        0 <= j < results.len() && (#[trigger] results[j]).index == i && results[j].prove_ms == ms
}

/// Whether `proves` are the times that the workers reported in the levels that were
/// run from `before` to `now`.
pub open spec fn proved_as_reported(
    before: Seq<LevelRun>,
    now: Seq<LevelRun>,
    proves: Seq<Seq<u64>>,
) -> bool {
    forall|l: int, i: int|
        0 <= l < proves.len() && 0 <= i < proves[l].len() ==> reported_at(
            now[before.len() + l].answer->0,
            i,
            #[trigger] proves[l][i],
        )
}

/// Whether a copy of `stored` may have a wire form of `size` bytes.
pub open spec fn encoded_as<P: MergeProof>(stored: P, size: Option<usize>) -> bool {
    exists|copy: P|
        cloned(stored, copy) && #[trigger] call_ensures(P::encoded_len, (&copy,), size)
}

/// Whether `sizes` are the sizes of the merge outputs that `store` holds for the
/// first `levels` levels of the fold of `n` leaves, level by level.
pub open spec fn sized_as_stored<P: MergeProof>(
    height: nat,
    n: nat,
    levels: nat,
    store: Map<Seq<char>, P>,
    sizes: Seq<Option<usize>>,
) -> bool {
    forall|l: nat, i: nat|
        1 <= l <= levels && i < width_after(n, (l - 1) as nat) / 2 ==> encoded_as(
            store[#[trigger] merge_key(height, l, i)],
            sizes[(merges_in(n, (l - 1) as nat) + i) as int],
        )
}

/// Puts results into the order of their index.
fn sort_results(v: Vec<TaskResult>) -> (r: Vec<TaskResult>)
    ensures
        r@.len() == v@.len(),
        forall|i: int, j: int| 0 <= i <= j < r@.len() ==> r@[i].index <= r@[j].index,
        exists|p: Seq<int>|
            is_permutation(p, v@.len()) && forall|k: int|
                0 <= k < v@.len() ==> #[trigger] r@[k] == v@[p[k]],
{
    let mut r = v;
    let n: usize = r.len();
    let mut i: usize = 0;
    let ghost mut p: Seq<int> = Seq::new(n as nat, |k: int| k);
    while i < n
        invariant
            i <= n,
            n == r@.len(),
            n == v@.len(),
            is_permutation(p, n as nat),
            forall|k: int| 0 <= k < n ==> #[trigger] r@[k] == v@[p[k]],
            forall|a: int, b: int| 0 <= a <= b < i ==> r@[a].index <= r@[b].index,
        decreases n - i,
    {
        let mut j: usize = i;
        while j > 0 && r[j - 1].index > r[i].index
            invariant
                j <= i < n,
                n == r@.len(),
                forall|a: int| j <= a < i ==> r@[a].index > r@[i as int].index,
            decreases j,
        {
            j = j - 1;
        }
        let ghost before = r@;
        let ghost q = p;
        proof {
            lemma_moved(before, i as int, j as int);
            lemma_moved(q, i as int, j as int);
            p = moved(q, i as int, j as int);
        }
        let x: TaskResult = r.remove(i);
        r.insert(j, x);
        assert(r@ == moved(before, i as int, j as int));
        assert forall|a: int, b: int| 0 <= a <= b < i + 1 implies r@[a].index <= r@[b].index by {
            assert(r@[a] == before[moved_source(i as int, j as int, a)]);
            assert(r@[b] == before[moved_source(i as int, j as int, b)]);
        }
        i = i + 1;
    }
    r
}

proof fn lemma_sorted_answers(
    tasks: Seq<LevelTask>,
    results: Seq<TaskResult>,
    sorted: Seq<TaskResult>,
    p: Seq<int>,
)
    requires
        answers(tasks, results),
        sorted.len() == results.len() == tasks.len(),
        is_permutation(p, results.len()),
        forall|k: int| 0 <= k < results.len() ==> #[trigger] sorted[k] == results[p[k]],
        forall|i: int, j: int| 0 <= i <= j < sorted.len() ==> sorted[i].index <= sorted[j].index,
        forall|i: int| 0 <= i < tasks.len() ==> (#[trigger] tasks[i]).index == i,
    ensures
        forall|j: int|
            0 <= j < sorted.len() ==> (#[trigger] sorted[j]).index == j && sorted[j].output_key@
                == tasks[j].output_key@,
{
    let m = tasks.len();
    let who = choose|who: Seq<int>| answers_as(tasks, results, who);
    assert forall|j: int| 0 <= j < m implies (#[trigger] sorted[j]).index == who[p[j]]
        && sorted[j].output_key@ == tasks[who[p[j]]].output_key@ && 0 <= who[p[j]] < m by {
        assert(sorted[j] == results[p[j]]);
        assert(tasks[who[p[j]]].index == who[p[j]]);
    }
    assert forall|i: int, j: int| 0 <= i < j < m implies sorted[i].index < sorted[j].index by {
        assert(p[i] != p[j]);
        assert(who[p[i]] != who[p[j]]);
        assert(sorted[i].index == who[p[i]]);
        assert(sorted[j].index == who[p[j]]);
    }
    assert forall|j: int| 0 <= j < m implies (#[trigger] sorted[j]).index == j
        && sorted[j].output_key@ == tasks[j].output_key@ by {
        lemma_at_least(sorted, j);
        lemma_at_most(sorted, j);
    }
}

proof fn lemma_at_least(s: Seq<TaskResult>, j: int)
    requires
        0 <= j < s.len(),
        forall|a: int, b: int| 0 <= a < b < s.len() ==> s[a].index < s[b].index,
    ensures
        s[j].index >= j,
    decreases j,
{
    if j > 0 {
        lemma_at_least(s, j - 1);
        assert(s[j - 1].index < s[j].index);
    }
}

proof fn lemma_at_most(s: Seq<TaskResult>, j: int)
    requires
        0 <= j < s.len(),
        forall|a: int, b: int| 0 <= a < b < s.len() ==> s[a].index < s[b].index,
        forall|a: int| 0 <= a < s.len() ==> s[a].index < s.len(),
    ensures
        s[j].index <= j,
    decreases s.len() - j,
{
    if j < s.len() - 1 {
        lemma_at_most(s, j + 1);
        assert(s[j].index < s[j + 1].index);
    }
}

/// The prove times that `results` report.
pub open spec fn prove_times(results: Seq<TaskResult>) -> Seq<u64> {
    results.map_values(|r: TaskResult| r.prove_ms)
}

/// The measurements of a level, from its results.
pub fn barrier_metric(
    level: u64,
    odd_carry: bool,
    barrier_ms: u64,
    results: &Vec<TaskResult>,
) -> (r: LevelBarrierMetric)
    ensures
        r.level == level,
        r.tasks == results@.len(),
        r.odd_carry == odd_carry,
        r.barrier_ms == barrier_ms,
        r.slowest_prove_ms == slowest(prove_times(results@)),
        r.median_prove_ms == median(prove_times(results@)),
        r.straggler_ms == r.slowest_prove_ms - r.median_prove_ms,
{
    let n: usize = results.len();
    let mut proves: Vec<u64> = Vec::new();
    let mut i: usize = 0;
    while i < n
        invariant
            i <= n,
            n == results@.len(),
            proves@.len() == i,
            forall|j: int| 0 <= j < i ==> proves@[j] == results@[j].prove_ms,
        decreases n - i,
    {
        proves.push(results[i].prove_ms);
        i = i + 1;
    }
    assert(proves@ =~= prove_times(results@));
    let sorted: Vec<u64> = sort_ascending(proves);
    let slowest_prove_ms: u64 = if n == 0 {
        0
    } else {
        sorted[n - 1]
    };
    let median_prove_ms: u64 = if n == 0 {
        0
    } else {
        sorted[n / 2]
    };
    LevelBarrierMetric {
        level,
        tasks: n,
        odd_carry,
        barrier_ms,
        slowest_prove_ms,
        median_prove_ms,
        straggler_ms: slowest_prove_ms.saturating_sub(median_prove_ms),
    }
}

/// A transport inside one process: an in-memory store, and tasks that run in
/// waves of at most `max_workers` (0: all tasks of the level in one wave).
pub struct InMemoryFoldTransport<P: MergeProof> {
    store: TextMap<P>,
    max_workers: usize,
    ran: Ghost<Seq<LevelRun>>,
}

/// Whether `store` holds copies of `leaves` under `keys` and nothing else. Where
/// a key occurs twice, the last leaf counts.
pub open spec fn seeded<P: Clone>(
    store: Map<Seq<char>, P>,
    keys: Seq<String>,
    leaves: Seq<P>,
) -> bool {
    let n = if keys.len() < leaves.len() {
        keys.len()
    } else {
        leaves.len()
    };
    exists|copies: Seq<P>| #[trigger]
        copies.len() == n && (forall|i: int|
            0 <= i < n ==> cloned(leaves[i], #[trigger] copies[i])) && store == stored_under(
            keys.take(n as int),
            copies,
        )
}

/// `values` stored under `keys`, one after the other.
pub open spec fn stored_under<P>(keys: Seq<String>, values: Seq<P>) -> Map<Seq<char>, P>
    decreases keys.len(),
{
    if keys.len() == 0 {
        Map::empty()
    } else {
        stored_under(keys.drop_last(), values.drop_last()).insert(keys.last()@, values.last())
    }
}

/// The error for a key that the in-memory store does not hold.
pub open spec fn missing_key_text(key: Seq<char>) -> Seq<char> {
    "in-memory transit: missing key '"@ + key + "'"@
}

/// The error for a merge that failed with `cause`.
pub open spec fn merge_failed_text(index: nat, level: nat, cause: Seq<char>) -> Seq<char> {
    "distributed fold: merge task #"@ + dec(index) + " (level "@ + dec(level) + ") failed: "@
        + cause
}

/// Whether `task` may fail with the error `e` on what `store` holds: an input is
/// missing, or the merge failed.
pub open spec fn task_failed<P, F: Fn(&P, bool, &P, bool) -> Result<P, String>>(
    merge_fn: F,
    store: Map<Seq<char>, P>,
    task: LevelTask,
    e: Seq<char>,
) -> bool {
    if !store.contains_key(task.left_key@) {
        e == missing_key_text(task.left_key@)
    } else if !store.contains_key(task.right_key@) {
        e == missing_key_text(task.right_key@)
    } else {
        exists|cause: String|
            e == merge_failed_text(task.index as nat, task.level as nat, cause@)
                && #[trigger] call_ensures(
                merge_fn,
                (
                    &store[task.left_key@],
                    task.left_is_merge,
                    &store[task.right_key@],
                    task.right_is_merge,
                ),
                Err(cause),
            )
    }
}

/// Whether the merge of `task` can succeed on what `store` holds.
pub open spec fn mergeable<P, F: Fn(&P, bool, &P, bool) -> Result<P, String>>(
    merge_fn: F,
    store: Map<Seq<char>, P>,
    task: LevelTask,
) -> bool {
    exists|out: P| #[trigger] merges_to(merge_fn, store, task, out)
}

/// Whether there is one result for each task, in the order of the tasks.
pub open spec fn reported_in_order(tasks: Seq<LevelTask>, results: Seq<TaskResult>) -> bool {
    &&& results.len() == tasks.len()
    &&& forall|j: int|
        0 <= j < results.len() ==> (#[trigger] results[j]).index == tasks[j].index
            && results[j].output_key@ == tasks[j].output_key@
}

/// Whether the output of `task` is in the store.
pub open spec fn merged<P, F: Fn(&P, bool, &P, bool) -> Result<P, String>>(
    merge_fn: F,
    before: Map<Seq<char>, P>,
    after: Map<Seq<char>, P>,
    task: LevelTask,
) -> bool {
    after.contains_key(task.output_key@) && merges_to(
        merge_fn,
        before,
        task,
        after[task.output_key@],
    )
}

/// Whether the store holds under the output key of `task` what it held before.
pub open spec fn unmerged<P>(
    before: Map<Seq<char>, P>,
    after: Map<Seq<char>, P>,
    task: LevelTask,
) -> bool {
    after.contains_key(task.output_key@) == before.contains_key(task.output_key@)
        && after[task.output_key@] == before[task.output_key@]
}

/// The end of the wave that task `i` of `n` runs in.
pub open spec fn wave_end(i: int, n: int, max_workers: int) -> int {
    if max_workers == 0 || (i / max_workers + 1) * max_workers > n {
        n
    } else {
        (i / max_workers + 1) * max_workers
    }
}

/// What the store holds once task `i`, the first to fail, has failed: the outputs
/// of the tasks before it, of the later tasks of its wave those that succeeded,
/// and nothing of the waves after it.
pub open spec fn first_failed<P, F: Fn(&P, bool, &P, bool) -> Result<P, String>>(
    merge_fn: F,
    before: Map<Seq<char>, P>,
    after: Map<Seq<char>, P>,
    tasks: Seq<LevelTask>,
    max_workers: int,
    i: int,
    e: Seq<char>,
) -> bool {
    &&& 0 <= i < tasks.len()
    &&& task_failed(merge_fn, before, tasks[i], e)
    &&& forall|j: int| 0 <= j < i ==> merged(merge_fn, before, after, #[trigger] tasks[j])
    &&& unmerged(before, after, tasks[i])
    &&& forall|j: int|
        i < j < wave_end(i, tasks.len() as int, max_workers) ==> merged(
            merge_fn,
            before,
            after,
            #[trigger] tasks[j],
        ) || unmerged(before, after, tasks[j])
    &&& forall|j: int|
        wave_end(i, tasks.len() as int, max_workers) <= j < tasks.len() ==> unmerged(
            before,
            after,
            #[trigger] tasks[j],
        )
}

/// What the store holds once a level has failed with the error `e` of its first
/// task that failed.
pub open spec fn level_failed<P, F: Fn(&P, bool, &P, bool) -> Result<P, String>>(
    merge_fn: F,
    before: Map<Seq<char>, P>,
    after: Map<Seq<char>, P>,
    tasks: Seq<LevelTask>,
    max_workers: int,
    e: Seq<char>,
) -> bool {
    exists|i: int| #[trigger] first_failed(merge_fn, before, after, tasks, max_workers, i, e)
}

impl<P: MergeProof> InMemoryFoldTransport<P> {
    pub closed spec fn contents(&self) -> Map<Seq<char>, P> {
        self.store@
    }

    pub closed spec fn workers(&self) -> usize {
        self.max_workers
    }

    /// The levels that were run, in order.
    pub closed spec fn history(&self) -> Seq<LevelRun> {
        self.ran@
    }

    /// A transport whose store holds each leaf under its key.
    pub fn with_leaves(leaf_keys: &Vec<String>, leaves: &Vec<P>, max_workers: usize) -> (r: Self)
        ensures
            seeded(r.contents(), leaf_keys@, leaves@),
            r.workers() == max_workers,
            r.history() == Seq::<LevelRun>::empty(),
    {
        let mut store: TextMap<P> = TextMap::new();
        let n: usize = if leaf_keys.len() < leaves.len() {
            leaf_keys.len()
        } else {
            leaves.len()
        };
        let mut i: usize = 0;
        let ghost mut copies: Seq<P> = Seq::empty();
        assert(stored_under(leaf_keys@.take(0), copies) =~= Map::<Seq<char>, P>::empty());
        while i < n
            invariant
                i <= n <= leaf_keys@.len(),
                n <= leaves@.len(),
                copies.len() == i,
                forall|j: int| 0 <= j < i ==> cloned(leaves@[j], #[trigger] copies[j]),
                store@ == stored_under(leaf_keys@.take(i as int), copies),
            decreases n - i,
        {
            let copy: P = leaves[i].clone();
            let ghost before = copies;
            proof {
                copies = copies.push(copy);
                assert(leaf_keys@.take(i + 1).drop_last() =~= leaf_keys@.take(i as int));
                assert(copies.drop_last() =~= before);
            }
            store.insert(leaf_keys[i].clone(), copy);
            i = i + 1;
        }
        let r = InMemoryFoldTransport { store, max_workers, ran: Ghost(Seq::empty()) };
        proof {
            assert(copies.len() == n);
            assert(seeded(r.contents(), leaf_keys@, leaves@));
        }
        r
    }

    /// A copy of the proof stored under `key`.
    pub fn read(&self, key: &str) -> (r: Option<P>)
        ensures
            match r {
                Some(p) => self.contents().contains_key(key@) && cloned(self.contents()[key@], p),
                None => !self.contents().contains_key(key@),
            },
    {
        match self.store.get(key) {
            Some(p) => Some(p.clone()),
            None => None,
        }
    }

    /// Stores `proof` under `key`.
    pub fn write(&mut self, key: &str, proof: P)
        ensures
            final(self).contents() == old(self).contents().insert(key@, proof),
            final(self).workers() == old(self).workers(),
            final(self).history() == old(self).history(),
    {
        self.store.insert(key.to_owned(), proof);
    }

    /// The keys that the store holds.
    pub fn keys(&self) -> (r: Vec<String>)
        ensures
            forall|i: int| 0 <= i < r@.len() ==> self.contents().contains_key(#[trigger] r@[i]@),
            forall|k: Seq<char>| #[trigger]
                self.contents().contains_key(k) ==> exists|i: int|
                    0 <= i < r@.len() && #[trigger] r@[i]@ == k,
    {
        self.store.keys()
    }

    /// Runs one task: fetches its inputs, merges them and stores the output.
    fn run_task<F: Fn(&P, bool, &P, bool) -> Result<P, String>>(
        &mut self,
        task: &LevelTask,
        merge_fn: &F,
    ) -> (r: Result<TaskResult, String>)
        requires
            callable(*merge_fn),
        ensures
            final(self).workers() == old(self).workers(),
            final(self).history() == old(self).history(),
            match r {
                Ok(t) => {
                    &&& t.index == task.index
                    &&& t.output_key@ == task.output_key@
                    &&& old(self).contents().contains_key(task.left_key@)
                    &&& old(self).contents().contains_key(task.right_key@)
                    &&& exists|out: P|
                        #![trigger merges_to(*merge_fn, old(self).contents(), *task, out)]
                        merges_to(*merge_fn, old(self).contents(), *task, out) && final(self).contents()
                            == old(self).contents().insert(task.output_key@, out)
                },
                Err(e) => {
                    &&& final(self).contents() == old(self).contents()
                    &&& task_failed(*merge_fn, old(self).contents(), *task, e@)
                },
            },
    {
        let left: &P = match self.store.get(task.left_key.as_str()) {
            Some(p) => p,
            None => {
                return Err(missing_key(task.left_key.as_str()));
            },
        };
        let right: &P = match self.store.get(task.right_key.as_str()) {
            Some(p) => p,
            None => {
                return Err(missing_key(task.right_key.as_str()));
            },
        };
        let started = clock::now();
        let merged: Result<P, String> = merge_fn(
            left,
            task.left_is_merge,
            right,
            task.right_is_merge,
        );
        let prove_ms: u64 = clock::millis_since(&started);
        match merged {
            Ok(out) => {
                let ghost before = self.contents();
                assert(merges_to(*merge_fn, before, *task, out));
                self.store.insert(task.output_key.clone(), out);
                Ok(TaskResult { index: task.index, output_key: task.output_key.clone(), prove_ms })
            },
            Err(cause) => {
                let mut e = String::from_str("distributed fold: merge task #");
                push_dec(&mut e, task.index);
                e.append(" (level ");
                push_dec(&mut e, task.level);
                e.append(") failed: ");
                e.append(cause.as_str());
                assert(e@ == merge_failed_text(task.index as nat, task.level as nat, cause@));
                Err(e)
            },
        }
    }
}

fn missing_key(key: &str) -> (r: String)
    ensures
        r@ == missing_key_text(key@),
{
    let mut e = String::from_str("in-memory transit: missing key '");
    e.append(key);
    e.append("'");
    e
}

impl<P: MergeProof> FoldTransport<P> for InMemoryFoldTransport<P> {
    open spec fn stored(&self) -> Map<Seq<char>, P> {
        self.contents()
    }

    open spec fn levels(&self) -> Seq<LevelRun> {
        self.history()
    }

    open spec fn reliable(&self) -> bool {
        true
    }

    fn put(&mut self, key: &str, proof: &P) -> (r: Result<u64, String>) {
        let started = clock::now();
        let copy: P = proof.clone();
        let ghost before = self.stored();
        self.write(key, copy);
        assert(self.stored() == before.insert(key@, copy));
        Ok(clock::millis_since(&started))
    }

    fn get(&self, key: &str) -> (r: Result<(P, u64), String>)
        ensures
            r is Ok <==> self.stored().contains_key(key@),
            r matches Err(e) ==> e@ == missing_key_text(key@),
    {
        let started = clock::now();
        match self.read(key) {
            Some(proof) => Ok((proof, clock::millis_since(&started))),
            None => Err(missing_key(key)),
        }
    }

    fn run_level<F: Fn(&P, bool, &P, bool) -> Result<P, String>>(
        &mut self,
        tasks: &Vec<LevelTask>,
        merge_fn: &F,
    ) -> (r: Result<Vec<TaskResult>, String>)
        ensures
            final(self).workers() == old(self).workers(),
            r matches Ok(results) ==> reported_in_order(tasks@, results@),
            isolated(tasks@) && r is Err ==> level_failed(
                *merge_fn,
                old(self).stored(),
                final(self).stored(),
                tasks@,
                old(self).workers() as int,
                r->Err_0@,
            ),
            isolated(tasks@) && deterministic(*merge_fn) ==> (r is Ok <==> inputs_stored(
                old(self).stored(),
                tasks@,
            ) && forall|i: int|
                0 <= i < tasks@.len() ==> mergeable(
                    *merge_fn,
                    old(self).stored(),
                    #[trigger] tasks@[i],
                )),
    {
        let n: usize = tasks.len();
        let width: usize = if self.max_workers == 0 {
            n
        } else {
            self.max_workers
        };
        let ghost before = self.stored();
        let ghost max = self.workers() as int;
        let mut results: Vec<TaskResult> = Vec::new();
        let mut done: usize = 0;
        let ghost mut waves: int = 0;
        assert(tasks@.take(0) =~= Seq::<LevelTask>::empty());
        while done < n
            invariant
                done <= n,
                n == tasks@.len(),
                n > 0 ==> width > 0,
                width == (if max == 0 {
                    n as int
                } else {
                    max
                }),
                done < n ==> done == waves * width,
                callable(*merge_fn),
                before == old(self).stored(),
                max == old(self).workers(),
                self.workers() == old(self).workers(),
                self.history() == old(self).history(),
                reported_in_order(tasks@.take(done as int), results@),
                confined(before, self.stored(), tasks@.take(done as int)),
                isolated(tasks@) ==> level_stored(
                    *merge_fn,
                    before,
                    self.stored(),
                    tasks@.take(done as int),
                ),
            decreases n - done,
        {
            let end: usize = if n - done < width {
                n
            } else {
                done + width
            };
            let mut failed: Option<String> = None;
            let ghost mut bad: int = 0;
            let mut i: usize = done;
            while i < end
                invariant
                    done <= i <= end <= n,
                    done < end,
                    n == tasks@.len(),
                    callable(*merge_fn),
                    before == old(self).stored(),
                    self.workers() == old(self).workers(),
                    self.history() == old(self).history(),
                    confined(before, self.stored(), tasks@.take(i as int)),
                    failed matches Some(e) ==> done <= bad < i && (isolated(tasks@) ==> part_failed(
                        *merge_fn,
                        before,
                        self.stored(),
                        tasks@,
                        i as int,
                        bad,
                        e@,
                    )),
                    failed is None ==> {
                        &&& reported_in_order(tasks@.take(i as int), results@)
                        &&& isolated(tasks@) ==> level_stored(
                            *merge_fn,
                            before,
                            self.stored(),
                            tasks@.take(i as int),
                        )
                    },
                decreases end - i,
            {
                let ghost held = self.stored();
                let ran: Result<TaskResult, String> = self.run_task(&tasks[i], merge_fn);
                proof {
                    lemma_task_confined(before, held, self.stored(), tasks@, i as int);
                    if isolated(tasks@) {
                        lemma_inputs_kept(before, held, tasks@, i as int);
                        if failed is Some {
                            lemma_part_failed(
                                *merge_fn,
                                before,
                                held,
                                self.stored(),
                                tasks@,
                                i as int,
                                bad,
                                failed->0@,
                            );
                        } else if ran is Err {
                            lemma_first_failure(
                                *merge_fn,
                                before,
                                held,
                                tasks@,
                                i as int,
                                ran->Err_0@,
                            );
                        } else {
                            lemma_task_stored(
                                *merge_fn,
                                before,
                                held,
                                self.stored(),
                                tasks@,
                                i as int,
                            );
                        }
                    }
                }
                match ran {
                    Ok(result) => {
                        if failed.is_none() {
                            results.push(result);
                        }
                    },
                    Err(e) => {
                        if failed.is_none() {
                            proof {
                                bad = i as int;
                            }
                            failed = Some(e);
                        }
                    },
                }
                i = i + 1;
            }
            match failed {
                Some(e) => {
                    proof {
                        lemma_widen_confined(before, self.stored(), tasks@, end as int);
                        if isolated(tasks@) {
                            lemma_wave_end(waves, done as int, bad, n as int, max, width as int);
                            lemma_level_failed(
                                *merge_fn,
                                before,
                                self.stored(),
                                tasks@,
                                end as int,
                                max,
                                bad,
                                e@,
                            );
                        }
                    }
                    let r: Result<Vec<TaskResult>, String> = Err(e);
                    self.ran = Ghost(self.ran@.push(level_run(tasks@, r)));
                    return r;
                },
                None => {},
            }
            proof {
                assert(done + width == (waves + 1) * width) by (nonlinear_arith)
                    requires
                        done == waves * width,
                ;
                waves = waves + 1;
            }
            done = end;
        }
        proof {
            assert(tasks@.take(n as int) =~= tasks@);
            let who = Seq::new(n as nat, |j: int| j);
            assert(answers_as(tasks@, results@, who));
            if isolated(tasks@) {
                assert forall|i: int| 0 <= i < tasks@.len() implies mergeable(
                    *merge_fn,
                    before,
                    #[trigger] tasks@[i],
                ) by {
                    assert(merges_to(
                        *merge_fn,
                        before,
                        tasks@[i],
                        self.stored()[tasks@[i].output_key@],
                    ));
                }
            }
        }
        let r: Result<Vec<TaskResult>, String> = Ok(results);
        self.ran = Ghost(self.ran@.push(level_run(tasks@, r)));
        r
    }
}

/// What the store holds after the first `upto` tasks, of which `bad` is the first
/// to fail.
spec fn part_failed<P, F: Fn(&P, bool, &P, bool) -> Result<P, String>>(
    merge_fn: F,
    before: Map<Seq<char>, P>,
    after: Map<Seq<char>, P>,
    tasks: Seq<LevelTask>,
    upto: int,
    bad: int,
    e: Seq<char>,
) -> bool {
    &&& 0 <= bad < upto <= tasks.len()
    &&& task_failed(merge_fn, before, tasks[bad], e)
    &&& forall|j: int| 0 <= j < bad ==> merged(merge_fn, before, after, #[trigger] tasks[j])
    &&& unmerged(before, after, tasks[bad])
    &&& forall|j: int|
        bad < j < upto ==> merged(merge_fn, before, after, #[trigger] tasks[j]) || unmerged(
            before,
            after,
            tasks[j],
        )
}

/// An output key of an isolated level is no output key of the tasks before.
proof fn lemma_own_output(tasks: Seq<LevelTask>, i: int, j: int)
    requires
        isolated(tasks),
        0 <= i <= j < tasks.len(),
    ensures
        forall|k: int| 0 <= k < i ==> #[trigger] tasks.take(i)[k].output_key@ != tasks[j].output_key@,
{
    assert forall|k: int| 0 <= k < i implies #[trigger] tasks.take(i)[k].output_key@
        != tasks[j].output_key@ by {
        assert(tasks.take(i)[k] == tasks[k]);
        assert(tasks[k].output_key@ != tasks[j].output_key@);
    }
}

/// A task that failed, or that stored its output, keeps the level confined.
proof fn lemma_task_confined<P>(
    before: Map<Seq<char>, P>,
    held: Map<Seq<char>, P>,
    after: Map<Seq<char>, P>,
    tasks: Seq<LevelTask>,
    i: int,
)
    requires
        0 <= i < tasks.len(),
        confined(before, held, tasks.take(i)),
        after == held || exists|out: P| after == #[trigger] held.insert(tasks[i].output_key@, out),
    ensures
        confined(before, after, tasks.take(i + 1)),
{
    let done = tasks.take(i);
    let next = tasks.take(i + 1);
    assert forall|k: Seq<char>|
        (forall|j: int| 0 <= j < next.len() ==> #[trigger] next[j].output_key@ != k) implies (
    #[trigger] after.contains_key(k) == before.contains_key(k)) && after[k] == before[k] by {
        assert(next[i].output_key@ != k);
        assert forall|j: int| 0 <= j < done.len() implies #[trigger] done[j].output_key@ != k by {
            assert(next[j] == done[j]);
        }
        assert(held.contains_key(k) == before.contains_key(k));
    }
}

proof fn lemma_widen_confined<P>(
    before: Map<Seq<char>, P>,
    after: Map<Seq<char>, P>,
    tasks: Seq<LevelTask>,
    upto: int,
)
    requires
        0 <= upto <= tasks.len(),
        confined(before, after, tasks.take(upto)),
    ensures
        confined(before, after, tasks),
{
    assert forall|k: Seq<char>|
        (forall|j: int| 0 <= j < tasks.len() ==> #[trigger] tasks[j].output_key@ != k) implies (
    #[trigger] after.contains_key(k) == before.contains_key(k)) && after[k] == before[k] by {
        let done = tasks.take(upto);
        assert forall|j: int| 0 <= j < done.len() implies #[trigger] done[j].output_key@ != k by {
            assert(done[j] == tasks[j]);
        }
        assert(after.contains_key(k) == before.contains_key(k));
    }
}

proof fn lemma_first_failure<P, F: Fn(&P, bool, &P, bool) -> Result<P, String>>(
    merge_fn: F,
    before: Map<Seq<char>, P>,
    held: Map<Seq<char>, P>,
    tasks: Seq<LevelTask>,
    i: int,
    e: Seq<char>,
)
    requires
        0 <= i < tasks.len(),
        isolated(tasks),
        level_stored(merge_fn, before, held, tasks.take(i)),
        task_failed(merge_fn, held, tasks[i], e),
    ensures
        part_failed(merge_fn, before, held, tasks, i + 1, i, e),
{
    lemma_inputs_kept(before, held, tasks, i);
    lemma_own_output(tasks, i, i);
    assert(held.contains_key(tasks[i].output_key@) == before.contains_key(tasks[i].output_key@));
    assert forall|j: int| 0 <= j < i implies merged(merge_fn, before, held, #[trigger] tasks[j]) by {
        assert(tasks.take(i)[j] == tasks[j]);
    }
}

proof fn lemma_part_failed<P, F: Fn(&P, bool, &P, bool) -> Result<P, String>>(
    merge_fn: F,
    before: Map<Seq<char>, P>,
    held: Map<Seq<char>, P>,
    after: Map<Seq<char>, P>,
    tasks: Seq<LevelTask>,
    i: int,
    bad: int,
    e: Seq<char>,
)
    requires
        0 <= i < tasks.len(),
        isolated(tasks),
        confined(before, held, tasks.take(i)),
        part_failed(merge_fn, before, held, tasks, i, bad, e),
        after == held || exists|out: P|
            #![trigger merges_to(merge_fn, held, tasks[i], out)]
            merges_to(merge_fn, held, tasks[i], out) && after == held.insert(
                tasks[i].output_key@,
                out,
            ),
    ensures
        part_failed(merge_fn, before, after, tasks, i + 1, bad, e),
{
    lemma_inputs_kept(before, held, tasks, i);
    lemma_own_output(tasks, i, i);
    assert(held.contains_key(tasks[i].output_key@) == before.contains_key(tasks[i].output_key@));
    assert forall|j: int| 0 <= j < i implies tasks[j].output_key@ != tasks[i].output_key@ by {
        assert(tasks[j].output_key@ != tasks[i].output_key@);
    }
    assert forall|j: int| bad < j < i + 1 implies merged(
        merge_fn,
        before,
        after,
        #[trigger] tasks[j],
    ) || unmerged(before, after, tasks[j]) by {
        if j == i {
            if after != held {
                let out = choose|out: P|
                    #![trigger merges_to(merge_fn, held, tasks[i], out)]
                    merges_to(merge_fn, held, tasks[i], out) && after == held.insert(
                        tasks[i].output_key@,
                        out,
                    );
                assert(merges_to(merge_fn, before, tasks[i], out));
                assert(after[tasks[i].output_key@] == out);
            }
        } else {
            assert(merged(merge_fn, before, held, tasks[j]) || unmerged(before, held, tasks[j]));
        }
    }
}

proof fn lemma_wave_end(waves: int, done: int, bad: int, n: int, max: int, width: int)
    requires
        0 <= done <= bad < n,
        done == waves * width,
        width == (if max == 0 {
            n
        } else {
            max
        }),
        max >= 0,
        bad < done + width,
    ensures
        wave_end(bad, n, max) == (if n - done < width {
            n
        } else {
            done + width
        }),
{
    if max == 0 {
        assert(done == 0) by (nonlinear_arith)
            requires
                done == waves * n,
                0 <= done < n,
        ;
    } else {
        vstd::arithmetic::div_mod::lemma_fundamental_div_mod_converse(
            bad,
            width,
            waves,
            bad - done,
        );
        assert((waves + 1) * width == done + width) by (nonlinear_arith)
            requires
                done == waves * width,
        ;
    }
}

proof fn lemma_level_failed<P: MergeProof, F: Fn(&P, bool, &P, bool) -> Result<P, String>>(
    merge_fn: F,
    before: Map<Seq<char>, P>,
    after: Map<Seq<char>, P>,
    tasks: Seq<LevelTask>,
    end: int,
    max: int,
    bad: int,
    e: Seq<char>,
)
    requires
        isolated(tasks),
        confined(before, after, tasks.take(end)),
        part_failed(merge_fn, before, after, tasks, end, bad, e),
        end == wave_end(bad, tasks.len() as int, max),
    ensures
        level_failed(merge_fn, before, after, tasks, max, e),
        !(infallible(merge_fn) && inputs_stored(before, tasks)),
        deterministic(merge_fn) ==> !(inputs_stored(before, tasks) && forall|i: int|
            0 <= i < tasks.len() ==> mergeable(merge_fn, before, #[trigger] tasks[i])),
{
    assert forall|j: int| end <= j < tasks.len() implies unmerged(
        before,
        after,
        #[trigger] tasks[j],
    ) by {
        lemma_own_output(tasks, end, j);
        assert(after.contains_key(tasks[j].output_key@) == before.contains_key(tasks[j].output_key@));
    }
    assert(first_failed(merge_fn, before, after, tasks, max, bad, e));
    let task = tasks[bad];
    if inputs_stored(before, tasks) {
        let args = (
            &before[task.left_key@],
            task.left_is_merge,
            &before[task.right_key@],
            task.right_is_merge,
        );
        let cause = choose|cause: String|
            e == merge_failed_text(task.index as nat, task.level as nat, cause@)
                && #[trigger] call_ensures(merge_fn, args, Err(cause));
        assert(call_ensures(merge_fn, args, Err(cause)));
        if deterministic(merge_fn) && mergeable(merge_fn, before, task) {
            let out = choose|out: P| #[trigger] merges_to(merge_fn, before, task, out);
            assert(call_ensures(merge_fn, args, Ok(out)));
        }
    }
}

proof fn lemma_inputs_kept<P>(
    before: Map<Seq<char>, P>,
    held: Map<Seq<char>, P>,
    tasks: Seq<LevelTask>,
    i: int,
)
    requires
        0 <= i < tasks.len(),
        isolated(tasks),
        confined(before, held, tasks.take(i)),
    ensures
        held.contains_key(tasks[i].left_key@) == before.contains_key(tasks[i].left_key@),
        held[tasks[i].left_key@] == before[tasks[i].left_key@],
        held.contains_key(tasks[i].right_key@) == before.contains_key(tasks[i].right_key@),
        held[tasks[i].right_key@] == before[tasks[i].right_key@],
{
    let done = tasks.take(i);
    assert forall|j: int| 0 <= j < done.len() implies #[trigger] done[j].output_key@
        != tasks[i].left_key@ by {
        assert(done[j] == tasks[j]);
    }
    assert forall|j: int| 0 <= j < done.len() implies #[trigger] done[j].output_key@
        != tasks[i].right_key@ by {
        assert(done[j] == tasks[j]);
    }
}

proof fn lemma_task_stored<P, F: Fn(&P, bool, &P, bool) -> Result<P, String>>(
    merge_fn: F,
    before: Map<Seq<char>, P>,
    held: Map<Seq<char>, P>,
    after: Map<Seq<char>, P>,
    tasks: Seq<LevelTask>,
    i: int,
)
    requires
        0 <= i < tasks.len(),
        isolated(tasks),
        level_stored(merge_fn, before, held, tasks.take(i)),
        held.contains_key(tasks[i].left_key@),
        held.contains_key(tasks[i].right_key@),
        exists|out: P|
            #![trigger merges_to(merge_fn, held, tasks[i], out)]
            merges_to(merge_fn, held, tasks[i], out) && after == held.insert(
                tasks[i].output_key@,
                out,
            ),
    ensures
        level_stored(merge_fn, before, after, tasks.take(i + 1)),
{
    let out = choose|out: P|
        #![trigger merges_to(merge_fn, held, tasks[i], out)]
        merges_to(merge_fn, held, tasks[i], out) && after == held.insert(tasks[i].output_key@, out);
    let done = tasks.take(i);
    let next = tasks.take(i + 1);
    lemma_inputs_kept(before, held, tasks, i);
    assert forall|j: int| 0 <= j < next.len() implies before.contains_key(
        (#[trigger] next[j]).left_key@,
    ) && before.contains_key(next[j].right_key@) by {
        if j < i {
            assert(next[j] == done[j]);
        }
    }
    assert forall|j: int|
        #![trigger next[j]]
        0 <= j < next.len() implies after.contains_key(next[j].output_key@) && merges_to(
        merge_fn,
        before,
        next[j],
        after[next[j].output_key@],
    ) by {
        if j < i {
            assert(next[j] == done[j]);
            assert(done[j] == tasks[j]);
            assert(tasks[j].output_key@ != tasks[i].output_key@);
        }
    }
    assert forall|k: Seq<char>|
        (forall|j: int| 0 <= j < next.len() ==> #[trigger] next[j].output_key@ != k) implies (
    #[trigger] after.contains_key(k) == before.contains_key(k)) && after[k] == before[k] by {
        assert(next[i].output_key@ != k);
        assert forall|j: int| 0 <= j < done.len() implies #[trigger] done[j].output_key@ != k by {
            assert(next[j] == done[j]);
        }
        assert(held.contains_key(k) == before.contains_key(k));
    }
}

/// A node of the level that the leader works on.
struct FoldNode<P> {
    proof: P,
    is_merge: bool,
    key: String,
}

/// Whether `task` merges the nodes `2 * i` and `2 * i + 1`.
spec fn pairs_up<P>(
    task: LevelTask,
    height: u64,
    level: nat,
    i: int,
    nodes: Seq<FoldNode<P>>,
) -> bool {
    &&& task.height == height
    &&& task.level == level
    &&& task.index == i
    &&& task.left_key@ == nodes[2 * i].key@
    &&& task.left_is_merge == nodes[2 * i].is_merge
    &&& task.right_key@ == nodes[2 * i + 1].key@
    &&& task.right_is_merge == nodes[2 * i + 1].is_merge
    &&& task.output_key@ == merge_key(height as nat, level, i as nat)
}

/// The merge tasks of a level: one per pair of adjacent nodes.
fn form_tasks<P>(height: u64, level: u64, nodes: &Vec<FoldNode<P>>) -> (r: Vec<LevelTask>)
    ensures
        r@.len() == nodes@.len() / 2,
        forall|i: int|
            0 <= i < r@.len() ==> pairs_up(#[trigger] r@[i], height, level as nat, i, nodes@),
{
    let count: usize = nodes.len();
    let n: usize = count / 2;
    let mut r: Vec<LevelTask> = Vec::new();
    let mut i: usize = 0;
    while i < n
        invariant
            i <= n,
            count == nodes@.len(),
            n == count / 2,
            r@.len() == i,
            forall|j: int|
                0 <= j < i ==> pairs_up(#[trigger] r@[j], height, level as nat, j, nodes@),
        decreases n - i,
    {
        let left: &FoldNode<P> = &nodes[2 * i];
        let right: &FoldNode<P> = &nodes[2 * i + 1];
        r.push(
            LevelTask {
                height,
                level,
                index: i as u64,
                left_key: left.key.clone(),
                left_is_merge: left.is_merge,
                right_key: right.key.clone(),
                right_is_merge: right.is_merge,
                output_key: merge_object_key(height, level, i as u64),
            },
        );
        i = i + 1;
    }
    r
}

/// Whether `key` is a leaf key, or the key of a merge of one of the first
/// `depth` levels.
spec fn key_up_to(height: nat, depth: nat, key: Seq<char>) -> bool {
    ||| !in_merge_namespace(height, key)
    ||| exists|level: nat, index: nat|
        level <= depth && key == #[trigger] merge_key(height, level, index)
}

/// Whether the store holds the nodes of a level, with the values `vals`.
spec fn held_level<P: Clone>(
    height: nat,
    depth: nat,
    store: Map<Seq<char>, P>,
    nodes: Seq<FoldNode<P>>,
    vals: Seq<(P, bool)>,
) -> bool {
    &&& vals.len() == nodes.len()
    &&& forall|i: int|
        #![trigger nodes[i]]
        #![trigger vals[i]]
        0 <= i < nodes.len() ==> {
            &&& store.contains_key(nodes[i].key@)
            &&& store[nodes[i].key@] == vals[i].0
            &&& vals[i].1 == nodes[i].is_merge
            &&& nodes[i].is_merge ==> cloned(vals[i].0, nodes[i].proof)
            &&& key_up_to(height, depth, nodes[i].key@)
        }
}

proof fn lemma_isolated<P: Clone>(
    height: u64,
    depth: nat,
    store: Map<Seq<char>, P>,
    nodes: Seq<FoldNode<P>>,
    vals: Seq<(P, bool)>,
    tasks: Seq<LevelTask>,
)
    requires
        held_level(height as nat, depth, store, nodes, vals),
        tasks.len() == nodes.len() / 2,
        forall|i: int|
            0 <= i < tasks.len() ==> pairs_up(#[trigger] tasks[i], height, depth + 1, i, nodes),
    ensures
        isolated(tasks),
        inputs_stored(store, tasks),
        nodes.len() % 2 == 1 ==> forall|i: int|
            0 <= i < tasks.len() ==> #[trigger] tasks[i].output_key@ != nodes.last().key@,
{
    let h = height as nat;
    assert forall|i: int, n: int| 0 <= i < tasks.len() && 0 <= n < nodes.len() implies #[trigger] tasks[i].output_key@
        != #[trigger] nodes[n].key@ by {
        assert(pairs_up(tasks[i], height, depth + 1, i, nodes));
        let key = nodes[n].key@;
        assert(key_up_to(h, depth, key));
        if tasks[i].output_key@ == key {
            assert(in_merge_namespace(h, key));
            let (level, index) = choose|level: nat, index: nat|
                level <= depth && key == #[trigger] merge_key(h, level, index);
            merge_keys_are_distinct(h, depth + 1, i as nat, h, level, index);
        }
    }
    assert forall|i: int, j: int| 0 <= i < j < tasks.len() implies #[trigger] tasks[i].output_key@
        != #[trigger] tasks[j].output_key@ by {
        assert(pairs_up(tasks[i], height, depth + 1, i, nodes));
        assert(pairs_up(tasks[j], height, depth + 1, j, nodes));
        if tasks[i].output_key@ == tasks[j].output_key@ {
            merge_keys_are_distinct(h, depth + 1, i as nat, h, depth + 1, j as nat);
        }
    }
    assert forall|i: int, j: int| 0 <= i < tasks.len() && 0 <= j < tasks.len() implies #[trigger] tasks[i].output_key@
        != #[trigger] tasks[j].left_key@ by {
        assert(pairs_up(tasks[j], height, depth + 1, j, nodes));
        assert(tasks[i].output_key@ != nodes[2 * j].key@);
    }
    assert forall|i: int, j: int| 0 <= i < tasks.len() && 0 <= j < tasks.len() implies #[trigger] tasks[i].output_key@
        != #[trigger] tasks[j].right_key@ by {
        assert(pairs_up(tasks[j], height, depth + 1, j, nodes));
        assert(tasks[i].output_key@ != nodes[2 * j + 1].key@);
    }
    assert forall|i: int|
        #![trigger tasks[i]]
        0 <= i < tasks.len() implies store.contains_key(tasks[i].left_key@) && store.contains_key(
        tasks[i].right_key@,
    ) by {
        assert(pairs_up(tasks[i], height, depth + 1, i, nodes));
        assert(store.contains_key(nodes[2 * i].key@));
        assert(store.contains_key(nodes[2 * i + 1].key@));
    }
}

/// The values of the next level, where the merge outputs are in `store`.
spec fn next_vals<P>(
    store: Map<Seq<char>, P>,
    tasks: Seq<LevelTask>,
    vals: Seq<(P, bool)>,
) -> Seq<(P, bool)> {
    Seq::new(
        (vals.len() + 1) / 2,
        |i: int|
            if i < tasks.len() {
                (store[tasks[i].output_key@], true)
            } else {
                vals.last()
            },
    )
}

proof fn lemma_level_step<P: Clone, F: Fn(&P, bool, &P, bool) -> Result<P, String>>(
    merge_fn: F,
    height: u64,
    depth: nat,
    before: Map<Seq<char>, P>,
    after: Map<Seq<char>, P>,
    nodes: Seq<FoldNode<P>>,
    vals: Seq<(P, bool)>,
    tasks: Seq<LevelTask>,
)
    requires
        held_level(height as nat, depth, before, nodes, vals),
        tasks.len() == nodes.len() / 2,
        nodes.len() >= 2,
        forall|i: int|
            0 <= i < tasks.len() ==> pairs_up(#[trigger] tasks[i], height, depth + 1, i, nodes),
        level_stored(merge_fn, before, after, tasks),
    ensures
        level_step(merge_fn, vals, next_vals(after, tasks, vals)),
        forall|top: (P, bool)|
            folds_to(merge_fn, next_vals(after, tasks, vals), top) ==> #[trigger] folds_to(
                merge_fn,
                vals,
                top,
            ),
{
    let next = next_vals(after, tasks, vals);
    assert forall|i: int|
        #![trigger next[i]]
        0 <= i < vals.len() / 2 implies next[i].1 && call_ensures(
        merge_fn,
        (&vals[2 * i].0, vals[2 * i].1, &vals[2 * i + 1].0, vals[2 * i + 1].1),
        Ok(next[i].0),
    ) by {
        assert(pairs_up(tasks[i], height, depth + 1, i, nodes));
        assert(merges_to(merge_fn, before, tasks[i], after[tasks[i].output_key@]));
        assert(nodes[2 * i].key@ == tasks[i].left_key@);
        assert(nodes[2 * i + 1].key@ == tasks[i].right_key@);
    }
    assert(level_step(merge_fn, vals, next));
}

/// The error for a fold without leaves.
pub open spec fn no_leaves_text() -> Seq<char> {
    "distributed fold: no leaf proofs to fold"@
}

/// The error for a fold whose leaves and keys do not match up.
pub open spec fn key_count_text(leaves: nat, keys: nat) -> Seq<char> {
    "distributed fold: "@ + dec(leaves) + " leaves but "@ + dec(keys)
        + " leaf keys (must match 1:1)"@
}

fn key_count_error(leaves: usize, keys: usize) -> (r: String)
    ensures
        r@ == key_count_text(leaves as nat, keys as nat),
{
    let mut e = String::from_str("distributed fold: ");
    push_dec(&mut e, leaves as u64);
    e.append(" leaves but ");
    push_dec(&mut e, keys as u64);
    e.append(" leaf keys (must match 1:1)");
    e
}

fn incomplete_level_error(level: u64, tasks: usize, results: usize) -> (r: String)
    ensures
        r@ == "distributed fold: level "@ + dec(level as nat) + " emitted "@ + dec(tasks as nat)
            + " tasks but got "@ + dec(results as nat)
            + " results (honest-partial \u{2014} refusing to fold an incomplete level)"@,
{
    let mut e = String::from_str("distributed fold: level ");
    push_dec(&mut e, level);
    e.append(" emitted ");
    push_dec(&mut e, tasks as u64);
    e.append(" tasks but got ");
    push_dec(&mut e, results as u64);
    e.append(" results (honest-partial \u{2014} refusing to fold an incomplete level)");
    e
}

/// The nodes of level 0: the leaves under their keys.
fn leaf_nodes<P>(leaves: Vec<P>, leaf_keys: Vec<String>) -> (r: Vec<FoldNode<P>>)
    requires
        leaves@.len() == leaf_keys@.len(),
    ensures
        r@.len() == leaves@.len(),
        forall|i: int|
            0 <= i < r@.len() ==> (#[trigger] r@[i]).proof == leaves@[i] && !r@[i].is_merge
                && r@[i].key@ == leaf_keys@[i]@,
{
    let mut ps = leaves;
    let mut ks = leaf_keys;
    let n: usize = ps.len();
    let mut r: Vec<FoldNode<P>> = Vec::new();
    while ps.len() > 0
        invariant
            ps@.len() == ks@.len(),
            ps@.len() + r@.len() == n,
            n == leaves@.len() == leaf_keys@.len(),
            forall|i: int| 0 <= i < ps@.len() ==> ps@[i] == leaves@[i + r@.len()],
            forall|i: int| 0 <= i < ks@.len() ==> ks@[i] == leaf_keys@[i + r@.len()],
            forall|i: int|
                0 <= i < r@.len() ==> (#[trigger] r@[i]).proof == leaves@[i] && !r@[i].is_merge
                    && r@[i].key@ == leaf_keys@[i]@,
        decreases ps@.len(),
    {
        let proof: P = ps.remove(0);
        let key: String = ks.remove(0);
        r.push(FoldNode { proof, is_merge: false, key });
    }
    r
}

proof fn lemma_measured_push(
    metrics: Seq<LevelBarrierMetric>,
    n: nat,
    proves: Seq<Seq<u64>>,
    metric: LevelBarrierMetric,
    spent: Seq<u64>,
)
    requires
        measured(metrics, n, proves),
        spent.len() == width_after(n, metrics.len()) / 2,
        metric_of(metric, metrics.len() + 1, width_after(n, metrics.len()), spent),
    ensures
        measured(metrics.push(metric), n, proves.push(spent)),
{
    let ms = metrics.push(metric);
    let ps = proves.push(spent);
    assert forall|i: int| 0 <= i < ms.len() implies (#[trigger] ps[i]).len() == width_after(
        n,
        i as nat,
    ) / 2 by {
        if i < metrics.len() {
            assert(ps[i] == proves[i]);
        }
    }
    assert forall|i: int| 0 <= i < ms.len() implies metric_of(
        #[trigger] ms[i],
        (i + 1) as nat,
        width_after(n, i as nat),
        ps[i],
    ) by {
        if i < metrics.len() {
            assert(ms[i] == metrics[i]);
            assert(ps[i] == proves[i]);
        }
    }
}

/// The key of node `p` once `level` levels of the fold are done: a merge output of
/// that level, or of the last node the key that it had.
pub open spec fn node_key(height: nat, keys: Seq<String>, level: nat, p: int) -> Seq<char>
    decreases level,
{
    if level == 0 {
        keys[p]@
    } else if p < width_after(keys.len(), (level - 1) as nat) / 2 {
        merge_key(height, level, p as nat)
    } else {
        node_key(height, keys, (level - 1) as nat, 2 * p)
    }
}

/// Whether node `p` is a merge once `level` levels of the fold of `n` leaves are
/// done.
pub open spec fn node_merged(n: nat, level: nat, p: int) -> bool
    decreases level,
{
    if level == 0 {
        false
    } else if p < width_after(n, (level - 1) as nat) / 2 {
        true
    } else {
        node_merged(n, (level - 1) as nat, 2 * p)
    }
}

/// Whether `tasks` are those of the level `level` of the fold over the leaves with
/// `keys`: one for each pair of neighbours.
pub open spec fn planned_level(
    height: u64,
    keys: Seq<String>,
    level: nat,
    tasks: Seq<LevelTask>,
) -> bool {
    let below = (level - 1) as nat;
    &&& tasks.len() == width_after(keys.len(), below) / 2
    &&& forall|i: int|
        #![trigger tasks[i]]
        0 <= i < tasks.len() ==> {
            &&& tasks[i].height == height
            &&& tasks[i].level == level
            &&& tasks[i].index == i
            &&& tasks[i].left_key@ == node_key(height as nat, keys, below, 2 * i)
            &&& tasks[i].left_is_merge == node_merged(keys.len(), below, 2 * i)
            &&& tasks[i].right_key@ == node_key(height as nat, keys, below, 2 * i + 1)
            &&& tasks[i].right_is_merge == node_merged(keys.len(), below, 2 * i + 1)
            &&& tasks[i].output_key@ == merge_key(height as nat, level, i as nat)
        }
}

/// Whether from `before` to `now` the first levels of the fold over the leaves with
/// `keys` were run, each of them once, and only once those before it were answered in
/// full.
pub open spec fn ran_in_turn(
    height: u64,
    keys: Seq<String>,
    before: Seq<LevelRun>,
    now: Seq<LevelRun>,
) -> bool {
    let first = before.len() as int;
    &&& first <= now.len() <= first + fold_depth(keys.len())
    &&& now.take(first) == before
    &&& forall|l: int|
        first <= l < now.len() ==> planned_level(
            height,
            keys,
            (l - first + 1) as nat,
            (#[trigger] now[l]).tasks,
        )
    &&& forall|l: int| first <= l < now.len() - 1 ==> in_full(#[trigger] now[l])
}

/// Whether every level of the fold of `n` leaves was answered in full.
pub open spec fn ran_through(n: nat, before: Seq<LevelRun>, now: Seq<LevelRun>) -> bool {
    &&& now.len() == before.len() + fold_depth(n)
    &&& forall|l: int| before.len() <= l < now.len() ==> in_full(#[trigger] now[l])
}

/// Whether the nodes of a level have the keys and marks that they should.
spec fn named_level<P>(
    height: nat,
    keys: Seq<String>,
    level: nat,
    nodes: Seq<FoldNode<P>>,
) -> bool {
    &&& nodes.len() == width_after(keys.len(), level)
    &&& forall|p: int|
        #![trigger nodes[p]]
        0 <= p < nodes.len() ==> nodes[p].key@ == node_key(height, keys, level, p)
            && nodes[p].is_merge == node_merged(keys.len(), level, p)
}

proof fn lemma_planned<P>(
    height: u64,
    keys: Seq<String>,
    level: nat,
    nodes: Seq<FoldNode<P>>,
    tasks: Seq<LevelTask>,
)
    requires
        named_level(height as nat, keys, level, nodes),
        tasks.len() == nodes.len() / 2,
        forall|i: int|
            0 <= i < tasks.len() ==> pairs_up(#[trigger] tasks[i], height, level + 1, i, nodes),
    ensures
        planned_level(height, keys, level + 1, tasks),
{
    assert forall|i: int|
        #![trigger tasks[i]]
        0 <= i < tasks.len() implies {
        &&& tasks[i].height == height
        &&& tasks[i].level == level + 1
        &&& tasks[i].index == i
        &&& tasks[i].left_key@ == node_key(height as nat, keys, level, 2 * i)
        &&& tasks[i].left_is_merge == node_merged(keys.len(), level, 2 * i)
        &&& tasks[i].right_key@ == node_key(height as nat, keys, level, 2 * i + 1)
        &&& tasks[i].right_is_merge == node_merged(keys.len(), level, 2 * i + 1)
        &&& tasks[i].output_key@ == merge_key(height as nat, level + 1, i as nat)
    } by {
        assert(pairs_up(tasks[i], height, level + 1, i, nodes));
        assert(nodes[2 * i].key@ == tasks[i].left_key@);
        assert(nodes[2 * i + 1].key@ == tasks[i].right_key@);
    }
}

proof fn lemma_named_next<P>(
    height: u64,
    keys: Seq<String>,
    level: nat,
    nodes: Seq<FoldNode<P>>,
    tasks: Seq<LevelTask>,
    next: Seq<FoldNode<P>>,
)
    requires
        named_level(height as nat, keys, level, nodes),
        nodes.len() >= 2,
        planned_level(height, keys, level + 1, tasks),
        next.len() == (nodes.len() + 1) / 2,
        forall|j: int|
            0 <= j < tasks.len() ==> (#[trigger] next[j]).is_merge && next[j].key@
                == tasks[j].output_key@,
        nodes.len() % 2 == 1 ==> next.last() == nodes.last(),
    ensures
        named_level(height as nat, keys, level + 1, next),
{
    assert forall|p: int|
        #![trigger next[p]]
        0 <= p < next.len() implies next[p].key@ == node_key(height as nat, keys, level + 1, p)
        && next[p].is_merge == node_merged(keys.len(), level + 1, p) by {
        if p < tasks.len() {
            assert(tasks[p].output_key@ == merge_key(height as nat, level + 1, p as nat));
        } else {
            assert(next[p] == nodes[2 * p]);
        }
    }
}

proof fn lemma_run_added(
    height: u64,
    keys: Seq<String>,
    before: Seq<LevelRun>,
    now: Seq<LevelRun>,
    run: LevelRun,
)
    requires
        ran_in_turn(height, keys, before, now),
        forall|l: int| before.len() <= l < now.len() ==> in_full(#[trigger] now[l]),
        now.len() < before.len() + fold_depth(keys.len()),
        planned_level(height, keys, (now.len() - before.len() + 1) as nat, run.tasks),
    ensures
        ran_in_turn(height, keys, before, now.push(run)),
        in_full(run) ==> forall|l: int|
            before.len() <= l < now.push(run).len() ==> in_full(#[trigger] now.push(run)[l]),
{
    let more = now.push(run);
    assert(more.take(before.len() as int) =~= now.take(before.len() as int));
    assert forall|l: int| before.len() <= l < more.len() implies planned_level(
        height,
        keys,
        (l - before.len() + 1) as nat,
        (#[trigger] more[l]).tasks,
    ) by {
        if l < now.len() {
            assert(more[l] == now[l]);
        }
    }
    assert forall|l: int| before.len() <= l < more.len() - 1 implies in_full(#[trigger] more[l]) by {
        assert(more[l] == now[l]);
    }
}

proof fn lemma_proves_added(
    before: Seq<LevelRun>,
    now: Seq<LevelRun>,
    run: LevelRun,
    proves: Seq<Seq<u64>>,
    spent: Seq<u64>,
)
    requires
        proved_as_reported(before, now, proves),
        now.len() == before.len() + proves.len(),
        forall|i: int|
            0 <= i < spent.len() ==> reported_at(run.answer->0, i, #[trigger] spent[i]),
    ensures
        proved_as_reported(before, now.push(run), proves.push(spent)),
{
    let more = proves.push(spent);
    assert forall|l: int, i: int| 0 <= l < more.len() && 0 <= i < more[l].len() implies reported_at(
        now.push(run)[before.len() + l].answer->0,
        i,
        #[trigger] more[l][i],
    ) by {
        if l < proves.len() {
            assert(more[l] == proves[l]);
            assert(reported_at(now[before.len() + l].answer->0, i, proves[l][i]));
        } else {
            assert(more[l][i] == spent[i]);
        }
    }
}

/// The times of sorted results are those that their workers reported.
proof fn lemma_times_reported(
    reported: Seq<TaskResult>,
    sorted: Seq<TaskResult>,
    p: Seq<int>,
)
    requires
        is_permutation(p, reported.len()),
        sorted.len() == reported.len(),
        forall|k: int| 0 <= k < reported.len() ==> #[trigger] sorted[k] == reported[p[k]],
        forall|j: int| 0 <= j < sorted.len() ==> (#[trigger] sorted[j]).index == j,
    ensures
        forall|i: int|
            0 <= i < sorted.len() ==> reported_at(
                reported,
                i,
                #[trigger] prove_times(sorted)[i],
            ),
{
    assert forall|i: int| 0 <= i < sorted.len() implies reported_at(
        reported,
        i,
        #[trigger] prove_times(sorted)[i],
    ) by {
        assert(sorted[i] == reported[p[i]]);
        assert(0 <= p[i] < reported.len());
    }
}

proof fn lemma_sizes_added<P: MergeProof>(
    height: u64,
    n: nat,
    depth: nat,
    before: Map<Seq<char>, P>,
    after: Map<Seq<char>, P>,
    nodes: Seq<FoldNode<P>>,
    tasks: Seq<LevelTask>,
    had: Seq<Option<usize>>,
    sizes: Seq<Option<usize>>,
)
    requires
        sized_as_stored(height as nat, n, depth, before, had),
        confined(before, after, tasks),
        had.len() == merges_in(n, depth),
        had.len() <= sizes.len(),
        sizes.take(had.len() as int) == had,
        tasks.len() == width_after(n, depth) / 2,
        forall|i: int|
            0 <= i < tasks.len() ==> pairs_up(#[trigger] tasks[i], height, depth + 1, i, nodes),
        forall|i: int|
            0 <= i < tasks.len() ==> encoded_as(
                after[(#[trigger] tasks[i]).output_key@],
                sizes[had.len() + i],
            ),
    ensures
        sized_as_stored(height as nat, n, depth + 1, after, sizes),
{
    let h = height as nat;
    assert forall|l: nat, i: nat|
        1 <= l <= depth + 1 && i < width_after(n, (l - 1) as nat) / 2 implies encoded_as(
        after[#[trigger] merge_key(h, l, i)],
        sizes[(merges_in(n, (l - 1) as nat) + i) as int],
    ) by {
        let k = merge_key(h, l, i);
        if l == depth + 1 {
            assert(pairs_up(tasks[i as int], height, depth + 1, i as int, nodes));
        } else {
            assert forall|j: int| 0 <= j < tasks.len() implies #[trigger] tasks[j].output_key@ != k by {
                assert(pairs_up(tasks[j], height, depth + 1, j, nodes));
                if tasks[j].output_key@ == k {
                    merge_keys_are_distinct(h, depth + 1, j as nat, h, l, i);
                }
            }
            assert(after.contains_key(k) == before.contains_key(k));
            let at = (merges_in(n, (l - 1) as nat) + i) as int;
            lemma_merges_grow(n, l, depth);
            assert(at < had.len());
            assert(sizes[at] == sizes.take(had.len() as int)[at]);
        }
    }
}

proof fn lemma_merges_grow(n: nat, few: nat, many: nat)
    requires
        few <= many,
    ensures
        merges_in(n, few) <= merges_in(n, many),
    decreases many,
{
    if few < many {
        lemma_merges_grow(n, few, (many - 1) as nat);
    }
}

/// The outputs of a level as the leader fetched them, and what that took.
struct Fetched<P> {
    nodes: Vec<FoldNode<P>>,
    transit: u128,
    prove: u128,
    largest_bytes: usize,
    gets: Ghost<Seq<u64>>,
    sizes: Ghost<Seq<Option<usize>>>,
}

/// Whether `f` holds the outputs that `results` name, from `store`.
spec fn fetched_from<P: MergeProof>(
    store: Map<Seq<char>, P>,
    results: Seq<TaskResult>,
    f: Fetched<P>,
) -> bool {
    &&& f.nodes@.len() == results.len()
    &&& f.gets@.len() == results.len()
    &&& f.sizes@.len() == results.len()
    &&& forall|j: int|
        #![trigger f.nodes@[j]]
        #![trigger results[j]]
        0 <= j < results.len() ==> {
            let key = results[j].output_key@;
            &&& f.nodes@[j].is_merge
            &&& f.nodes@[j].key@ == key
            &&& store.contains_key(key)
            &&& cloned(store[key], f.nodes@[j].proof)
            &&& encoded_as(store[key], f.sizes@[j])
        }
    &&& f.transit == total(f.gets@)
    &&& f.transit <= results.len() * 0xffff_ffff_ffff_ffff
    &&& f.prove == total(prove_times(results))
    &&& f.prove <= results.len() * 0xffff_ffff_ffff_ffff
    &&& f.largest_bytes == largest(f.sizes@)
}

/// Fetches the outputs that `results` name, in order.
fn fetch_outputs<P: MergeProof, T: FoldTransport<P>>(
    transport: &T,
    results: &Vec<TaskResult>,
) -> (r: Result<Fetched<P>, String>)
    ensures
        r matches Ok(f) ==> fetched_from(transport.stored(), results@, f),
        r is Err ==> !(transport.reliable() && forall|j: int|
            0 <= j < results@.len() ==> transport.stored().contains_key(
                (#[trigger] results@[j]).output_key@,
            )),
{
    let ghost store = transport.stored();
    let ghost spent = prove_times(results@);
    let ghost mut gets: Seq<u64> = Seq::empty();
    let ghost mut sizes: Seq<Option<usize>> = Seq::empty();
    let m: usize = results.len();
    let mut nodes: Vec<FoldNode<P>> = Vec::new();
    let mut transit: u128 = 0;
    let mut prove: u128 = 0;
    let mut largest_bytes: usize = 0;
    let mut i: usize = 0;
    assert(spent.take(0) =~= Seq::<u64>::empty());
    while i < m
        invariant
            i <= m == results@.len(),
            store == transport.stored(),
            spent == prove_times(results@),
            nodes@.len() == i,
            gets.len() == i,
            sizes.len() == i,
            forall|j: int|
                #![trigger nodes@[j]]
                0 <= j < i ==> {
                    let key = results@[j].output_key@;
                    &&& nodes@[j].is_merge
                    &&& nodes@[j].key@ == key
                    &&& store.contains_key(key)
                    &&& cloned(store[key], nodes@[j].proof)
                    &&& encoded_as(store[key], sizes[j])
                },
            transit == total(gets),
            transit <= i * 0xffff_ffff_ffff_ffff,
            prove == total(spent.take(i as int)),
            prove <= i * 0xffff_ffff_ffff_ffff,
            largest_bytes == largest(sizes),
        decreases m - i,
    {
        let got: (P, u64) = match transport.get(results[i].output_key.as_str()) {
            Ok(got) => got,
            Err(e) => {
                return Err(e);
            },
        };
        let ghost gets_before = gets;
        let ghost sizes_before = sizes;
        transit = transit + got.1 as u128;
        prove = prove + results[i].prove_ms as u128;
        let size: Option<usize> = got.0.encoded_len();
        match size {
            Some(bytes) => {
                if bytes > largest_bytes {
                    largest_bytes = bytes;
                }
            },
            None => {},
        }
        proof {
            gets = gets.push(got.1);
            sizes = sizes.push(size);
            assert(gets.drop_last() =~= gets_before);
            assert(sizes.drop_last() =~= sizes_before);
            assert(spent.take(i + 1).drop_last() =~= spent.take(i as int));
            assert(encoded_as(store[results@[i as int].output_key@], size)) by {
                assert(call_ensures(P::encoded_len, (&got.0,), size));
            }
        }
        nodes.push(FoldNode { proof: got.0, is_merge: true, key: results[i].output_key.clone() });
        i = i + 1;
    }
    let f = Fetched {
        nodes,
        transit,
        prove,
        largest_bytes,
        gets: Ghost(gets),
        sizes: Ghost(sizes),
    };
    proof {
        assert(spent.take(m as int) =~= spent);
        assert forall|j: int|
            #![trigger f.nodes@[j]]
            #![trigger results@[j]]
            0 <= j < results@.len() implies {
            let key = results@[j].output_key@;
            &&& f.nodes@[j].is_merge
            &&& f.nodes@[j].key@ == key
            &&& store.contains_key(key)
            &&& cloned(store[key], f.nodes@[j].proof)
            &&& encoded_as(store[key], f.sizes@[j])
        } by {
            assert(nodes@[j].is_merge);
        }
    }
    Ok(f)
}

proof fn lemma_total_joined(a: Seq<u64>, b: Seq<u64>)
    ensures
        total(a + b) == total(a) + total(b),
    decreases b.len(),
{
    if b.len() == 0 {
        assert(a + b =~= a);
    } else {
        assert((a + b).drop_last() =~= a + b.drop_last());
        lemma_total_joined(a, b.drop_last());
    }
}

proof fn lemma_largest_joined(a: Seq<Option<usize>>, b: Seq<Option<usize>>)
    ensures
        largest(a + b) == if largest(b) > largest(a) {
            largest(b)
        } else {
            largest(a)
        },
        largest(b) >= 0,
    decreases b.len(),
{
    if b.len() == 0 {
        assert(a + b =~= a);
        lemma_largest_floor(a);
    } else {
        assert((a + b).drop_last() =~= a + b.drop_last());
        assert((a + b).last() == b.last());
        lemma_largest_joined(a, b.drop_last());
    }
}

proof fn lemma_largest_floor(a: Seq<Option<usize>>)
    ensures
        largest(a) >= 0,
    decreases a.len(),
{
    if a.len() > 0 {
        lemma_largest_floor(a.drop_last());
    }
}

/// The store holds the nodes of the next level.
proof fn lemma_held_next<P: MergeProof, F: Fn(&P, bool, &P, bool) -> Result<P, String>>(
    merge_fn: F,
    height: u64,
    depth: nat,
    before: Map<Seq<char>, P>,
    after: Map<Seq<char>, P>,
    nodes: Seq<FoldNode<P>>,
    vals: Seq<(P, bool)>,
    tasks: Seq<LevelTask>,
    next: Seq<FoldNode<P>>,
)
    requires
        held_level(height as nat, depth, before, nodes, vals),
        level_stored(merge_fn, before, after, tasks),
        nodes.len() >= 2,
        tasks.len() == nodes.len() / 2,
        next.len() == (nodes.len() + 1) / 2,
        forall|i: int|
            0 <= i < tasks.len() ==> pairs_up(#[trigger] tasks[i], height, depth + 1, i, nodes),
        forall|j: int|
            0 <= j < tasks.len() ==> (#[trigger] next[j]).is_merge && next[j].key@
                == tasks[j].output_key@ && cloned(after[tasks[j].output_key@], next[j].proof),
        nodes.len() % 2 == 1 ==> next.last() == nodes.last() && forall|i: int|
            0 <= i < tasks.len() ==> #[trigger] tasks[i].output_key@ != nodes.last().key@,
    ensures
        held_level(height as nat, depth + 1, after, next, next_vals(after, tasks, vals)),
{
    let h = height as nat;
    let new_vals = next_vals(after, tasks, vals);
    assert forall|j: int|
        #![trigger next[j]]
        #![trigger new_vals[j]]
        0 <= j < next.len() implies {
        &&& after.contains_key(next[j].key@)
        &&& after[next[j].key@] == new_vals[j].0
        &&& new_vals[j].1 == next[j].is_merge
        &&& next[j].is_merge ==> cloned(new_vals[j].0, next[j].proof)
        &&& key_up_to(h, depth + 1, next[j].key@)
    } by {
        if j < tasks.len() {
            assert(pairs_up(tasks[j], height, depth + 1, j, nodes));
            assert(next[j].key@ == merge_key(h, depth + 1, j as nat));
        } else {
            let last = nodes[nodes.len() - 1];
            assert(next[j] == last);
            let key = last.key@;
            assert(before.contains_key(key));
            assert(after.contains_key(key) == before.contains_key(key));
            assert(key_up_to(h, depth, key));
            if in_merge_namespace(h, key) {
                let (l, x) = choose|l: nat, x: nat|
                    l <= depth && key == #[trigger] merge_key(h, l, x);
                assert(l <= depth + 1 && key == merge_key(h, l, x));
            }
        }
    }
}

/// What a level changes in the store.
proof fn lemma_level_changes<P>(
    height: u64,
    n: nat,
    depth: nat,
    store: Map<Seq<char>, P>,
    before: Map<Seq<char>, P>,
    after: Map<Seq<char>, P>,
    nodes: Seq<FoldNode<P>>,
    tasks: Seq<LevelTask>,
)
    requires
        only_merges_changed(height as nat, n, depth, store, before),
        confined(before, after, tasks),
        tasks.len() == width_after(n, depth) / 2,
        forall|i: int|
            0 <= i < tasks.len() ==> pairs_up(#[trigger] tasks[i], height, depth + 1, i, nodes),
    ensures
        only_merges_changed(height as nat, n, depth + 1, store, after),
        merges_present(height as nat, n, depth, before) && (forall|i: int|
            0 <= i < tasks.len() ==> after.contains_key((#[trigger] tasks[i]).output_key@))
            ==> merges_present(height as nat, n, depth + 1, after),
{
    let h = height as nat;
    assert forall|k: Seq<char>| !is_fold_key(h, n, depth + 1, k) implies (
    #[trigger] after.contains_key(k) == store.contains_key(k)) && after[k] == store[k] by {
        assert forall|j: int| 0 <= j < tasks.len() implies #[trigger] tasks[j].output_key@ != k by {
            assert(pairs_up(tasks[j], height, depth + 1, j, nodes));
            if tasks[j].output_key@ == k {
                assert(k == merge_key(h, depth + 1, j as nat));
            }
        }
        if is_fold_key(h, n, depth, k) {
            let (l, i) = choose|l: nat, i: nat|
                1 <= l <= depth && i < width_after(n, (l - 1) as nat) / 2 && k
                    == #[trigger] merge_key(h, l, i);
            assert(1 <= l <= depth + 1 && k == merge_key(h, l, i));
        }
        assert(before.contains_key(k) == store.contains_key(k));
        assert(after.contains_key(k) == before.contains_key(k));
    }
    if merges_present(h, n, depth, before) && (forall|i: int|
        0 <= i < tasks.len() ==> after.contains_key((#[trigger] tasks[i]).output_key@)) {
        assert forall|l: nat, i: nat|
            1 <= l <= depth + 1 && i < width_after(n, (l - 1) as nat) / 2 implies after.contains_key(
            #[trigger] merge_key(h, l, i),
        ) by {
            let k = merge_key(h, l, i);
            if l == depth + 1 {
                assert(pairs_up(tasks[i as int], height, depth + 1, i as int, nodes));
            } else {
                assert forall|j: int| 0 <= j < tasks.len() implies #[trigger] tasks[j].output_key@
                    != k by {
                    assert(pairs_up(tasks[j], height, depth + 1, j, nodes));
                    if tasks[j].output_key@ == k {
                        merge_keys_are_distinct(h, depth + 1, j as nat, h, l, i);
                    }
                }
                assert(after.contains_key(k) == before.contains_key(k));
            }
        }
    }
}

/// What the first levels changed, the whole fold changed.
proof fn lemma_more_levels<P>(
    height: nat,
    n: nat,
    levels: nat,
    more: nat,
    before: Map<Seq<char>, P>,
    now: Map<Seq<char>, P>,
)
    requires
        only_merges_changed(height, n, levels, before, now),
        levels <= more,
    ensures
        only_merges_changed(height, n, more, before, now),
{
    assert forall|k: Seq<char>| !is_fold_key(height, n, more, k) implies (
    #[trigger] now.contains_key(k) == before.contains_key(k)) && now[k] == before[k] by {
        if is_fold_key(height, n, levels, k) {
            let (l, i) = choose|l: nat, i: nat|
                1 <= l <= levels && i < width_after(n, (l - 1) as nat) / 2 && k
                    == #[trigger] merge_key(height, l, i);
            assert(1 <= l <= more && k == merge_key(height, l, i));
        }
        assert(now.contains_key(k) == before.contains_key(k));
    }
}

/// Where a fold stands once `depth` levels are done: what was run since `ran`, what
/// changed in the store since `store`, and what was reported and measured.
#[verifier::opaque]
spec fn progress<P: MergeProof>(
    height: u64,
    keys: Seq<String>,
    depth: nat,
    ran: Seq<LevelRun>,
    now: Seq<LevelRun>,
    store: Map<Seq<char>, P>,
    held: Map<Seq<char>, P>,
    nodes: Seq<FoldNode<P>>,
    proves: Seq<Seq<u64>>,
    sizes: Seq<Option<usize>>,
) -> bool {
    let h = height as nat;
    let n = keys.len();
    &&& now.len() == ran.len() + depth
    &&& ran_in_turn(height, keys, ran, now)
    &&& forall|l: int| ran.len() <= l < now.len() ==> in_full(#[trigger] now[l])
    &&& named_level(h, keys, depth, nodes)
    &&& proves.len() == depth
    &&& proved_as_reported(ran, now, proves)
    &&& sizes.len() == merges_in(n, depth)
    &&& sized_as_stored(h, n, depth, held, sizes)
    &&& only_merges_changed(h, n, depth, store, held)
    &&& merges_present(h, n, depth, held)
}

proof fn lemma_progress_start<P: MergeProof>(
    height: u64,
    keys: Seq<String>,
    ran: Seq<LevelRun>,
    store: Map<Seq<char>, P>,
    nodes: Seq<FoldNode<P>>,
)
    requires
        nodes.len() == keys.len(),
        forall|i: int|
            0 <= i < nodes.len() ==> !(#[trigger] nodes[i]).is_merge && nodes[i].key@ == keys[i]@,
    ensures
        progress(
            height,
            keys,
            0,
            ran,
            ran,
            store,
            store,
            nodes,
            Seq::<Seq<u64>>::empty(),
            Seq::<Option<usize>>::empty(),
        ),
{
    reveal(progress);
    assert(ran.take(ran.len() as int) =~= ran);
}

/// What holds once a level was run, whatever came of it.
proof fn lemma_progress_run<P: MergeProof>(
    height: u64,
    keys: Seq<String>,
    depth: nat,
    ran: Seq<LevelRun>,
    now: Seq<LevelRun>,
    store: Map<Seq<char>, P>,
    held: Map<Seq<char>, P>,
    after: Map<Seq<char>, P>,
    nodes: Seq<FoldNode<P>>,
    proves: Seq<Seq<u64>>,
    sizes: Seq<Option<usize>>,
    run: LevelRun,
)
    requires
        progress(height, keys, depth, ran, now, store, held, nodes, proves, sizes),
        depth < fold_depth(keys.len()),
        run.tasks.len() == nodes.len() / 2,
        confined(held, after, run.tasks),
        forall|i: int|
            0 <= i < run.tasks.len() ==> pairs_up(
                #[trigger] run.tasks[i],
                height,
                depth + 1,
                i,
                nodes,
            ),
    ensures
        ran_in_turn(height, keys, ran, now.push(run)),
        only_merges_changed(height as nat, keys.len(), fold_depth(keys.len()), store, after),
{
    reveal(progress);
    let n = keys.len();
    lemma_planned(height, keys, depth, nodes, run.tasks);
    lemma_run_added(height, keys, ran, now, run);
    lemma_level_changes(height, n, depth, store, held, after, nodes, run.tasks);
    lemma_more_levels(height as nat, n, depth + 1, fold_depth(n), store, after);
}

/// Where the fold stands once a level was answered in full and its outputs were
/// fetched.
proof fn lemma_progress_step<P: MergeProof>(
    height: u64,
    keys: Seq<String>,
    depth: nat,
    ran: Seq<LevelRun>,
    now: Seq<LevelRun>,
    store: Map<Seq<char>, P>,
    held: Map<Seq<char>, P>,
    after: Map<Seq<char>, P>,
    nodes: Seq<FoldNode<P>>,
    next: Seq<FoldNode<P>>,
    proves: Seq<Seq<u64>>,
    sizes: Seq<Option<usize>>,
    run: LevelRun,
    results: Seq<TaskResult>,
    fetched: Fetched<P>,
)
    requires
        progress(height, keys, depth, ran, now, store, held, nodes, proves, sizes),
        depth < fold_depth(keys.len()),
        nodes.len() >= 2,
        run.tasks.len() == nodes.len() / 2,
        confined(held, after, run.tasks),
        forall|i: int|
            0 <= i < run.tasks.len() ==> pairs_up(
                #[trigger] run.tasks[i],
                height,
                depth + 1,
                i,
                nodes,
            ),
        in_full(run),
        results.len() == run.tasks.len(),
        forall|i: int|
            0 <= i < results.len() ==> reported_at(
                run.answer->0,
                i,
                #[trigger] prove_times(results)[i],
            ),
        forall|j: int|
            0 <= j < results.len() ==> (#[trigger] results[j]).output_key@
                == run.tasks[j].output_key@,
        fetched_from(after, results, fetched),
        next.len() == (nodes.len() + 1) / 2,
        forall|j: int| 0 <= j < results.len() ==> #[trigger] next[j] == fetched.nodes@[j],
        nodes.len() % 2 == 1 ==> next.last() == nodes.last(),
    ensures
        progress(
            height,
            keys,
            depth + 1,
            ran,
            now.push(run),
            store,
            after,
            next,
            proves.push(prove_times(results)),
            sizes + fetched.sizes@,
        ),
{
    reveal(progress);
    let n = keys.len();
    let more = sizes + fetched.sizes@;
    lemma_planned(height, keys, depth, nodes, run.tasks);
    lemma_run_added(height, keys, ran, now, run);
    lemma_level_changes(height, n, depth, store, held, after, nodes, run.tasks);
    lemma_proves_added(ran, now, run, proves, prove_times(results));
    assert(more.take(sizes.len() as int) =~= sizes);
    assert forall|j: int| 0 <= j < run.tasks.len() implies encoded_as(
        after[(#[trigger] run.tasks[j]).output_key@],
        more[sizes.len() + j],
    ) && after.contains_key(run.tasks[j].output_key@) by {
        assert(results[j].output_key@ == run.tasks[j].output_key@);
    }
    lemma_sizes_added(height, n, depth, held, after, nodes, run.tasks, sizes, more);
    assert forall|j: int| 0 <= j < run.tasks.len() implies (#[trigger] next[j]).is_merge
        && next[j].key@ == run.tasks[j].output_key@ by {
        assert(next[j] == fetched.nodes@[j]);
        assert(results[j].output_key@ == run.tasks[j].output_key@);
    }
    lemma_named_next(height, keys, depth, nodes, run.tasks, next);
}

/// What holds once every level is done.
proof fn lemma_progress_end<P: MergeProof>(
    height: u64,
    keys: Seq<String>,
    depth: nat,
    ran: Seq<LevelRun>,
    now: Seq<LevelRun>,
    store: Map<Seq<char>, P>,
    held: Map<Seq<char>, P>,
    nodes: Seq<FoldNode<P>>,
    proves: Seq<Seq<u64>>,
    sizes: Seq<Option<usize>>,
)
    requires
        progress(height, keys, depth, ran, now, store, held, nodes, proves, sizes),
        depth == fold_depth(keys.len()),
    ensures
        ran_in_turn(height, keys, ran, now),
        ran_through(keys.len(), ran, now),
        proved_as_reported(ran, now, proves),
        sized_as_stored(height as nat, keys.len(), depth, held, sizes),
        only_merges_changed(height as nat, keys.len(), depth, store, held),
        merges_present(height as nat, keys.len(), depth, held),
{
    reveal(progress);
}

/// Folds `leaves` into one proof: each pair of a level becomes a merge task that
/// `transport` runs, and the outputs are fetched by key for the next level.
///
/// `leaf_keys` are the keys under which the leaves are already stored. Whatever
/// comes of the fold, the store changes in the merge outputs of this fold only, and
/// no level is run after one that was not answered in full.
pub fn fold_distributed<
    P: MergeProof,
    T: FoldTransport<P>,
    F: Fn(&P, bool, &P, bool) -> Result<P, String>,
>(
    height: u64,
    leaves: Vec<P>,
    leaf_keys: Vec<String>,
    transport: &mut T,
    merge_fn: &F,
) -> (r: Result<DistributedFoldOutcome<P>, String>)
    requires
        callable(*merge_fn),
    ensures
        leaves@.len() == 0 ==> r is Err && r->Err_0@ == no_leaves_text() && *final(transport)
            == *old(transport),
        leaves@.len() != 0 && leaves@.len() != leaf_keys@.len() ==> r is Err && r->Err_0@
            == key_count_text(leaves@.len(), leaf_keys@.len()) && *final(transport) == *old(
            transport,
        ),
        leaves@.len() == 1 && leaf_keys@.len() == 1 ==> r is Ok && r->Ok_0.final_proof == leaves@[0]
            && *final(transport) == *old(transport),
        only_merges_changed(
            height as nat,
            leaves@.len(),
            fold_depth(leaves@.len()),
            old(transport).stored(),
            final(transport).stored(),
        ),
        leaves@.len() > 0 && leaves@.len() == leaf_keys@.len() ==> ran_in_turn(
            height,
            leaf_keys@,
            old(transport).levels(),
            final(transport).levels(),
        ),
        r is Ok ==> ran_through(
            leaves@.len(),
            old(transport).levels(),
            final(transport).levels(),
        ),
        r is Ok ==> merges_present(
            height as nat,
            leaves@.len(),
            fold_depth(leaves@.len()),
            final(transport).stored(),
        ),
        old(transport).reliable() && infallible(*merge_fn) && staged(
            height as nat,
            old(transport).stored(),
            leaf_keys@,
        ) && leaves@.len() == leaf_keys@.len() && leaves@.len() > 0 ==> r is Ok,
        r matches Ok(o) ==> {
            let n = leaves@.len();
            &&& n == leaf_keys@.len() && n > 0
            &&& o.final_is_merge == (n > 1)
            &&& o.depth == fold_depth(n)
            &&& o.merges == n - 1
            &&& exists|proves: Seq<Seq<u64>>, gets: Seq<u64>, sizes: Seq<Option<usize>>| #[trigger]
                instrumented(o, n, proves, gets, sizes) && proved_as_reported(
                    old(transport).levels(),
                    final(transport).levels(),
                    proves,
                ) && sized_as_stored(
                    height as nat,
                    n,
                    fold_depth(n),
                    final(transport).stored(),
                    sizes,
                )
        },
        r is Ok && staged(height as nat, old(transport).stored(), leaf_keys@) ==> {
            let store = old(transport).stored();
            exists|top: (P, bool)| #[trigger]
                folds_to(*merge_fn, stored_leaves(store, leaf_keys@), top) && top.1
                    == r->Ok_0.final_is_merge && (top.1 ==> cloned(top.0, r->Ok_0.final_proof))
        },
{
    let ghost ran = transport.levels();
    if leaves.len() == 0 {
        return Err(String::from_str("distributed fold: no leaf proofs to fold"));
    }
    if leaves.len() != leaf_keys.len() {
        return Err(key_count_error(leaves.len(), leaf_keys.len()));
    }
    let n: usize = leaves.len();
    let ghost store = transport.stored();
    let ghost h = height as nat;
    let ghost ok = staged(h, store, leaf_keys@);
    let ghost good = ok && transport.reliable() && infallible(*merge_fn);
    let ghost base = stored_leaves(store, leaf_keys@);
    let ghost mut vals = base;
    let ghost mut proves: Seq<Seq<u64>> = Seq::empty();
    let ghost mut gets: Seq<u64> = Seq::empty();
    let ghost mut sizes: Seq<Option<usize>> = Seq::empty();

    let mut level: Vec<FoldNode<P>> = leaf_nodes(leaves, leaf_keys);
    let mut depth: usize = 0;
    let mut merges: usize = 0;
    let mut merge_prove_total: u128 = 0;
    let mut transit_total: u128 = 0;
    let mut max_intermediate_bytes: usize = 0;
    let mut level_metrics: Vec<LevelBarrierMetric> = Vec::new();

    proof {
        assert forall|i: int| 0 <= i < level@.len() && ok implies key_up_to(
            h,
            0,
            (#[trigger] level@[i]).key@,
        ) && store.contains_key(level@[i].key@) by {
            assert(leaf_keys@[i]@ == level@[i].key@);
        }
        assert(ok ==> held_level(h, 0, store, level@, vals));
        lemma_progress_start(height, leaf_keys@, ran, store, level@);
    }
    while level.len() > 1
        invariant
            callable(*merge_fn),
            h == height as nat,
            n == leaves@.len(),
            n == leaf_keys@.len(),
            n > 0,
            store == old(transport).stored(),
            ok == staged(h, store, leaf_keys@),
            good == (ok && old(transport).reliable() && infallible(*merge_fn)),
            transport.reliable() == old(transport).reliable(),
            level@.len() >= 1,
            level@.len() == width_after(n as nat, depth as nat),
            fold_depth(n as nat) == depth + fold_depth(level@.len()),
            merges + level@.len() == n,
            depth + level@.len() <= n,
            depth == 0 ==> level@[0].proof == leaves@[0] && !level@[0].is_merge,
            (depth > 0) == (merges > 0),
            depth > 0 ==> level@[0].is_merge,
            base == stored_leaves(store, leaf_keys@),
            ok ==> held_level(h, depth as nat, transport.stored(), level@, vals),
            ok ==> forall|top: (P, bool)|
                folds_to(*merge_fn, vals, top) ==> #[trigger] folds_to(*merge_fn, base, top),
            depth == 0 ==> *transport == *old(transport),
            ran == old(transport).levels(),
            progress(
                height,
                leaf_keys@,
                depth as nat,
                ran,
                transport.levels(),
                store,
                transport.stored(),
                level@,
                proves,
                sizes,
            ),
            level_metrics@.len() == depth,
            measured(level_metrics@, n as nat, proves),
            merge_prove_total == grand_total(proves),
            merge_prove_total <= merges * 0xffff_ffff_ffff_ffff,
            gets.len() == merges,
            transit_total == total(gets),
            transit_total <= merges * 0xffff_ffff_ffff_ffff,
            sizes.len() == merges,
            max_intermediate_bytes == largest(sizes),
        decreases level@.len(),
    {
        let ghost cur = level@;
        let ghost width = level@.len();
        let ghost before = transport.stored();
        let ghost was_depth = depth as nat;
        let ghost ran_before = transport.levels();
        depth = depth + 1;
        let tasks: Vec<LevelTask> = form_tasks(height, depth as u64, &level);
        proof {
            if ok {
                lemma_isolated(height, was_depth, before, cur, vals, tasks@);
            }
        }
        let carry: Option<FoldNode<P>> = if level.len() % 2 == 1 {
            level.pop()
        } else {
            None
        };

        let released = clock::now();
        let answered: Result<Vec<TaskResult>, String> = transport.run_level(&tasks, merge_fn);
        let barrier_ms: u64 = clock::millis_since(&released);
        let ghost after = transport.stored();
        let ghost run = level_run(tasks@, answered);
        let unsorted: Vec<TaskResult> = match answered {
            Ok(rs) => rs,
            Err(e) => {
                proof {
                    lemma_progress_run(
                        height,
                        leaf_keys@,
                        was_depth,
                        ran,
                        ran_before,
                        store,
                        before,
                        after,
                        cur,
                        proves,
                        sizes,
                        run,
                    );
                }
                return Err(e);
            },
        };
        if unsorted.len() != tasks.len() {
            proof {
                lemma_progress_run(
                    height,
                    leaf_keys@,
                    was_depth,
                    ran,
                    ran_before,
                    store,
                    before,
                    after,
                    cur,
                    proves,
                    sizes,
                    run,
                );
            }
            return Err(incomplete_level_error(depth as u64, tasks.len(), unsorted.len()));
        }
        let ghost reported = unsorted@;
        let results: Vec<TaskResult> = sort_results(unsorted);
        proof {
            let p = choose|p: Seq<int>|
                is_permutation(p, reported.len()) && forall|k: int|
                    0 <= k < reported.len() ==> #[trigger] results@[k] == reported[p[k]];
            assert forall|i: int| 0 <= i < tasks@.len() implies (#[trigger] tasks@[i]).index == i by {
                assert(pairs_up(tasks@[i], height, depth as nat, i, cur));
            }
            lemma_sorted_answers(tasks@, reported, results@, p);
            lemma_times_reported(reported, results@, p);
            if ok {
                lemma_level_step(*merge_fn, height, was_depth, before, after, cur, vals, tasks@);
            }
        }
        let metric: LevelBarrierMetric = barrier_metric(
            depth as u64,
            carry.is_some(),
            barrier_ms,
            &results,
        );

        let m: usize = results.len();
        let ghost spent = prove_times(results@);
        let fetched: Fetched<P> = match fetch_outputs(&*transport, &results) {
            Ok(fetched) => fetched,
            Err(e) => {
                proof {
                    lemma_progress_run(
                        height,
                        leaf_keys@,
                        was_depth,
                        ran,
                        ran_before,
                        store,
                        before,
                        after,
                        cur,
                        proves,
                        sizes,
                        run,
                    );
                }
                assert(!good) by {
                    if good {
                        assert forall|j: int| 0 <= j < m implies after.contains_key(
                            (#[trigger] results@[j]).output_key@,
                        ) by {
                            assert(after.contains_key(tasks@[j].output_key@));
                        }
                    }
                }
                return Err(e);
            },
        };
        let ghost proves_before = proves;
        let ghost sizes_had = sizes;
        proof {
            lemma_total_joined(gets, fetched.gets@);
            lemma_largest_joined(sizes, fetched.sizes@);
            gets = gets + fetched.gets@;
            sizes = sizes + fetched.sizes@;
            proves = proves.push(spent);
            assert(proves.drop_last() =~= proves_before);
        }
        merges = merges + m;
        transit_total = transit_total + fetched.transit;
        merge_prove_total = merge_prove_total + fetched.prove;
        if fetched.largest_bytes > max_intermediate_bytes {
            max_intermediate_bytes = fetched.largest_bytes;
        }
        let mut next: Vec<FoldNode<P>> = fetched.nodes;
        match carry {
            Some(node) => {
                next.push(node);
            },
            None => {},
        }
        let ghost metrics_before = level_metrics@;
        level_metrics.push(metric);
        level = next;
        proof {
            lemma_progress_step(
                height,
                leaf_keys@,
                was_depth,
                ran,
                ran_before,
                store,
                before,
                after,
                cur,
                level@,
                proves_before,
                sizes_had,
                run,
                results@,
                fetched,
            );
            assert(spent.len() == width / 2);
            lemma_measured_push(metrics_before, n as nat, proves_before, metric, spent);
            if ok {
                lemma_held_next(
                    *merge_fn,
                    height,
                    was_depth,
                    before,
                    after,
                    cur,
                    vals,
                    tasks@,
                    level@,
                );
                vals = next_vals(after, tasks@, vals);
            }
        }
    }
    proof {
        assert(fold_depth(1) == 0);
        lemma_progress_end(
            height,
            leaf_keys@,
            depth as nat,
            ran,
            transport.levels(),
            store,
            transport.stored(),
            level@,
            proves,
            sizes,
        );
    }
    let top: FoldNode<P> = match level.pop() {
        Some(node) => node,
        None => {
            return Err(String::new());
        },
    };
    let r = DistributedFoldOutcome {
        final_proof: top.proof,
        final_is_merge: top.is_merge,
        depth,
        merges,
        merge_prove_total,
        level_metrics,
        transit_total,
        max_intermediate_bytes,
    };
    proof {
        assert(fold_depth(n as nat) == depth);
        assert(r.depth == fold_depth(n as nat));
        assert(instrumented(r, n as nat, proves, gets, sizes));
        if ok {
            assert(folds_to(*merge_fn, vals, vals[0]));
            assert(folds_to(*merge_fn, base, vals[0]));
        }
        assert(r.merges == n - 1);
        assert(r.final_is_merge == (n > 1));
    }
    Ok(r)
}

/// Leaves as nodes of a fold.
pub open spec fn as_leaves<P>(leaves: Seq<P>) -> Seq<(P, bool)> {
    leaves.map_values(|p: P| (p, false))
}

/// Folds `leaves` in this process, level by level: each pair is merged and an odd
/// last node is carried up. Gives the folded proof and whether it is a merge.
pub fn fold_in_process<P, F: Fn(&P, bool, &P, bool) -> Result<P, String>>(
    leaves: Vec<P>,
    merge_fn: &F,
) -> (r: Result<(P, bool), String>)
    requires
        callable(*merge_fn),
    ensures
        leaves@.len() == 0 ==> r is Err && r->Err_0@ == no_leaves_text(),
        leaves@.len() > 0 && infallible(*merge_fn) ==> r is Ok,
        r matches Ok(top) ==> folds_to(*merge_fn, as_leaves(leaves@), top),
{
    let ghost base = as_leaves(leaves@);
    let mut rest = leaves;
    let mut level: Vec<(P, bool)> = Vec::new();
    while rest.len() > 0
        invariant
            base == as_leaves(leaves@),
            rest@.len() + level@.len() == leaves@.len(),
            forall|i: int| 0 <= i < rest@.len() ==> rest@[i] == leaves@[i + level@.len()],
            forall|i: int| 0 <= i < level@.len() ==> level@[i] == base[i],
        decreases rest@.len(),
    {
        let p: P = rest.remove(0);
        level.push((p, false));
    }
    assert(level@ =~= base);
    while level.len() > 1
        invariant
            callable(*merge_fn),
            level@.len() == 0 ==> leaves@.len() == 0,
            leaves@.len() == 0 ==> level@.len() == 0,
            forall|top: (P, bool)|
                folds_to(*merge_fn, level@, top) ==> #[trigger] folds_to(*merge_fn, base, top),
        decreases level@.len(),
    {
        let ghost cur = level@;
        let ghost width = cur.len();
        let mut next: Vec<(P, bool)> = Vec::new();
        while level.len() > 1
            invariant
                callable(*merge_fn),
                leaves@.len() > 0,
                width == cur.len(),
                level@.len() + 2 * next@.len() == width,
                forall|i: int| 0 <= i < level@.len() ==> level@[i] == cur[i + 2 * next@.len()],
                forall|i: int|
                    #![trigger next@[i]]
                    0 <= i < next@.len() ==> next@[i].1 && call_ensures(
                        *merge_fn,
                        (&cur[2 * i].0, cur[2 * i].1, &cur[2 * i + 1].0, cur[2 * i + 1].1),
                        Ok(next@[i].0),
                    ),
            decreases level@.len(),
        {
            let left: (P, bool) = level.remove(0);
            let right: (P, bool) = level.remove(0);
            assert(left == cur[2 * next@.len() as int]);
            assert(right == cur[2 * next@.len() as int + 1]);
            match merge_fn(&left.0, left.1, &right.0, right.1) {
                Ok(p) => {
                    next.push((p, true));
                },
                Err(e) => {
                    return Err(e);
                },
            }
        }
        match level.pop() {
            Some(node) => {
                next.push(node);
            },
            None => {},
        }
        proof {
            assert(level_step(*merge_fn, cur, next@));
            assert forall|top: (P, bool)| folds_to(*merge_fn, next@, top) implies #[trigger] folds_to(
                *merge_fn,
                base,
                top,
            ) by {
                assert(folds_to(*merge_fn, cur, top));
            }
        }
        level = next;
    }
    match level.pop() {
        Some(top) => {
            assert(folds_to(*merge_fn, seq![top], top));
            Ok(top)
        },
        None => Err(String::from_str("distributed fold: no leaf proofs to fold")),
    }
}

/// Whether `merge_fn` gives one output for each pair of inputs.
pub open spec fn deterministic<P, F: Fn(&P, bool, &P, bool) -> Result<P, String>>(
    merge_fn: F,
) -> bool {
    forall|l: &P, lm: bool, r: &P, rm: bool, a: Result<P, String>, b: Result<P, String>|
        #[trigger] call_ensures(merge_fn, (l, lm, r, rm), a) && #[trigger] call_ensures(
            merge_fn,
            (l, lm, r, rm),
            b,
        ) ==> a == b
}

/// With a deterministic merge, the same leaves fold to the same proof: the fold
/// across machines equals the fold within one process, whichever worker proved
/// which merge and in whichever order the results came in.
pub proof fn fold_is_unique<P, F: Fn(&P, bool, &P, bool) -> Result<P, String>>(
    merge_fn: F,
    nodes: Seq<(P, bool)>,
    a: (P, bool),
    b: (P, bool),
)
    requires
        deterministic(merge_fn),
        folds_to(merge_fn, nodes, a),
        folds_to(merge_fn, nodes, b),
    ensures
        a == b,
    decreases nodes.len(),
{
    if nodes.len() > 1 {
        let na = choose|next: Seq<(P, bool)>| #[trigger]
            level_step(merge_fn, nodes, next) && next.len() < nodes.len() && folds_to(
                merge_fn,
                next,
                a,
            );
        let nb = choose|next: Seq<(P, bool)>| #[trigger]
            level_step(merge_fn, nodes, next) && next.len() < nodes.len() && folds_to(
                merge_fn,
                next,
                b,
            );
        assert forall|i: int| 0 <= i < na.len() implies na[i] == nb[i] by {
            if i < nodes.len() / 2 {
                let args = (
                    &nodes[2 * i].0,
                    nodes[2 * i].1,
                    &nodes[2 * i + 1].0,
                    nodes[2 * i + 1].1,
                );
                assert(na[i].1 && nb[i].1);
                assert(call_ensures(merge_fn, args, Ok(na[i].0)));
                assert(call_ensures(merge_fn, args, Ok(nb[i].0)));
            } else {
                assert(na[i] == na.last());
            }
        }
        assert(na =~= nb);
        fold_is_unique(merge_fn, na, a, b);
    }
}

/// The identifiers of the nodes, one after the other.
pub open spec fn ids_of<P>(ids: spec_fn(P) -> Seq<int>, nodes: Seq<(P, bool)>) -> Seq<int>
    decreases nodes.len(),
{
    if nodes.len() == 0 {
        Seq::empty()
    } else {
        ids_of(ids, nodes.drop_last()) + ids(nodes.last().0)
    }
}

/// Whether a merge carries the identifiers of its left input, then those of its
/// right input.
pub open spec fn concatenates<P, F: Fn(&P, bool, &P, bool) -> Result<P, String>>(
    merge_fn: F,
    ids: spec_fn(P) -> Seq<int>,
) -> bool {
    forall|l: &P, lm: bool, r: &P, rm: bool, out: P| #[trigger]
        call_ensures(merge_fn, (l, lm, r, rm), Ok(out)) ==> ids(out) == ids(*l) + ids(*r)
}

/// The fold keeps the leaves in order, odd nodes included: where a merge
/// concatenates what its inputs carry, the folded proof carries what the leaves
/// carry, from left to right.
pub proof fn fold_keeps_leaf_order<P, F: Fn(&P, bool, &P, bool) -> Result<P, String>>(
    merge_fn: F,
    ids: spec_fn(P) -> Seq<int>,
    nodes: Seq<(P, bool)>,
    top: (P, bool),
)
    requires
        concatenates(merge_fn, ids),
        folds_to(merge_fn, nodes, top),
    ensures
        ids(top.0) == ids_of(ids, nodes),
    decreases nodes.len(),
{
    reveal_with_fuel(ids_of, 3);
    if nodes.len() == 1 {
        assert(nodes.drop_last() =~= Seq::<(P, bool)>::empty());
        assert(ids_of(ids, nodes) =~= ids(top.0));
    } else {
        let next = choose|next: Seq<(P, bool)>| #[trigger]
            level_step(merge_fn, nodes, next) && next.len() < nodes.len() && folds_to(
                merge_fn,
                next,
                top,
            );
        fold_keeps_leaf_order(merge_fn, ids, next, top);
        lemma_step_keeps_ids(merge_fn, ids, nodes, next, nodes.len() as int / 2);
        let half = nodes.len() as int / 2;
        if nodes.len() % 2 == 1 {
            assert(next.drop_last() =~= next.take(half));
            assert(nodes.drop_last() =~= nodes.take(2 * half));
        } else {
            assert(next =~= next.take(half));
            assert(nodes =~= nodes.take(2 * half));
        }
    }
}

proof fn lemma_step_keeps_ids<P, F: Fn(&P, bool, &P, bool) -> Result<P, String>>(
    merge_fn: F,
    ids: spec_fn(P) -> Seq<int>,
    cur: Seq<(P, bool)>,
    next: Seq<(P, bool)>,
    k: int,
)
    requires
        concatenates(merge_fn, ids),
        level_step(merge_fn, cur, next),
        0 <= k <= cur.len() / 2,
    ensures
        ids_of(ids, next.take(k)) == ids_of(ids, cur.take(2 * k)),
    decreases k,
{
    reveal_with_fuel(ids_of, 3);
    if k > 0 {
        lemma_step_keeps_ids(merge_fn, ids, cur, next, k - 1);
        let c = cur.take(2 * k);
        assert(next.take(k).drop_last() =~= next.take(k - 1));
        assert(c.drop_last().drop_last() =~= cur.take(2 * (k - 1)));
        assert(c.last() == cur[2 * (k - 1) + 1]);
        assert(c.drop_last().last() == cur[2 * (k - 1)]);
        assert(next[k - 1].1);
        assert(ids(next[k - 1].0) == ids(cur[2 * (k - 1)].0) + ids(cur[2 * (k - 1) + 1].0));
        assert(ids_of(ids, next.take(k)) =~= ids_of(ids, c));
    } else {
        assert(next.take(0) =~= Seq::<(P, bool)>::empty());
        assert(cur.take(0) =~= Seq::<(P, bool)>::empty());
    }
}

/// The fold of `n` leaves has the least number of levels whose power of two
/// reaches `n`, and those levels leave a single node.
pub proof fn fold_depth_is_logarithmic(n: nat)
    requires
        n >= 1,
    ensures
        n <= vstd::arithmetic::power2::pow2(fold_depth(n)),
        n > 1 ==> vstd::arithmetic::power2::pow2((fold_depth(n) - 1) as nat) < n,
        width_after(n, fold_depth(n)) == 1,
    decreases n,
{
    vstd::arithmetic::power2::lemma2_to64();
    if n > 1 {
        let half = ((n + 1) / 2) as nat;
        fold_depth_is_logarithmic(half);
        vstd::arithmetic::power2::lemma_pow2_unfold(fold_depth(n));
        if half > 1 {
            vstd::arithmetic::power2::lemma_pow2_unfold((fold_depth(n) - 1) as nat);
        }
        lemma_width_of_half(n, fold_depth(half));
    }
}

/// The number of merges in the first `levels` levels over `n` leaves.
pub open spec fn merges_in(n: nat, levels: nat) -> nat
    decreases levels,
{
    if levels == 0 {
        0
    } else {
        merges_in(n, (levels - 1) as nat) + width_after(n, (levels - 1) as nat) / 2
    }
}

/// Each merge leaves one node less: a fold over `n` leaves makes `n - 1` merges.
pub proof fn fold_makes_one_merge_less(n: nat)
    requires
        n >= 1,
    ensures
        merges_in(n, fold_depth(n)) == n - 1,
{
    fold_depth_is_logarithmic(n);
    lemma_merges_and_width(n, fold_depth(n));
}

proof fn lemma_merges_and_width(n: nat, levels: nat)
    ensures
        merges_in(n, levels) + width_after(n, levels) == n,
    decreases levels,
{
    if levels > 0 {
        lemma_merges_and_width(n, (levels - 1) as nat);
    }
}

proof fn lemma_width_of_half(n: nat, levels: nat)
    ensures
        width_after(n, levels + 1) == width_after(((n + 1) / 2) as nat, levels),
    decreases levels,
{
    if levels > 0 {
        lemma_width_of_half(n, (levels - 1) as nat);
    }
    reveal_with_fuel(width_after, 3);
}

/// Times add up.
pub proof fn measurements_add_up(a: Seq<u64>, b: Seq<u64>, t: u64)
    ensures
        total(a + b) == total(a) + total(b),
        total(seq![t]) == t,
{
    reveal_with_fuel(total, 2);
    assert(seq![t].drop_last() =~= Seq::<u64>::empty());
    lemma_total_joined(a, b);
}

/// The largest size is that of one of the outputs, unless none is known or all are
/// empty, and no output is larger.
pub proof fn the_largest_is_the_largest(s: Seq<Option<usize>>)
    ensures
        forall|i: int|
            0 <= i < s.len() && (#[trigger] s[i]) is Some ==> s[i]->0 <= largest(s),
        largest(s) == 0 || exists|i: int|
            0 <= i < s.len() && (#[trigger] s[i]) is Some && s[i]->0 == largest(s),
        largest(s) >= 0,
    decreases s.len(),
{
    if s.len() > 0 {
        let front = s.drop_last();
        let n = s.len() - 1;
        the_largest_is_the_largest(front);
        assert(s[n] == s.last());
        assert forall|i: int| 0 <= i < s.len() && (#[trigger] s[i]) is Some implies s[i]->0 <= largest(
            s,
        ) by {
            if i < n {
                assert(front[i] == s[i]);
            }
        }
        if largest(s) != 0 {
            if s.last() is Some && s.last()->0 > largest(front) {
                assert(s[n] is Some && s[n]->0 == largest(s));
            } else {
                let i = choose|i: int|
                    0 <= i < front.len() && (#[trigger] front[i]) is Some && front[i]->0 == largest(
                        front,
                    );
                assert(s[i] == front[i]);
            }
        }
    }
}

/// The slowest merge is one of the merges, and none took longer. The median is one of
/// them too: in ascending order, all up to the middle took no longer, and all from the
/// middle on took no less.
pub proof fn levels_are_measured_truly(proves: Seq<u64>)
    requires
        proves.len() > 0,
    ensures
        proves.contains(slowest(proves)),
        proves.contains(median(proves)),
        forall|x: u64| proves.contains(x) ==> x <= slowest(proves),
        ({
            let n = proves.len() as int;
            let s = ascending(proves);
            &&& s.to_multiset() == proves.to_multiset()
            &&& forall|i: int| 0 <= i <= n / 2 ==> #[trigger] s[i] <= median(proves)
            &&& forall|i: int| n / 2 <= i < n ==> #[trigger] s[i] >= median(proves)
        }),
{
    broadcast use vstd::seq_lib::group_to_multiset_ensures;

    let leq = |a: u64, b: u64| a <= b;
    let s = ascending(proves);
    let n = proves.len() as int;
    proves.lemma_sort_by_ensures(leq);
    assert(s.len() == proves.to_multiset().len());
    assert forall|i: int, j: int| 0 <= i <= j < n implies s[i] <= s[j] by {
        if i < j {
            assert(leq(s[i], s[j]));
        }
    }
    assert(s.contains(s[n - 1]));
    assert(s.contains(s[n / 2]));
    assert forall|x: u64| proves.contains(x) implies x <= slowest(proves) by {
        assert(proves.to_multiset().count(x) > 0);
        assert(s.contains(x));
        let i = choose|i: int| 0 <= i < s.len() && s[i] == x;
        assert(s[i] <= s[n - 1]);
    }
}

proof fn lemma_ids_of_leaves<P>(ids: spec_fn(P) -> Seq<int>, nodes: Seq<(P, bool)>, own: Seq<int>)
    requires
        nodes.len() == own.len(),
        forall|i: int| 0 <= i < own.len() ==> ids((#[trigger] nodes[i]).0) == seq![own[i]],
    ensures
        ids_of(ids, nodes) == own,
    decreases nodes.len(),
{
    if nodes.len() > 0 {
        lemma_ids_of_leaves(ids, nodes.drop_last(), own.drop_last());
        assert(nodes.last() == nodes[nodes.len() - 1]);
        assert(own =~= own.drop_last() + seq![own.last()]);
    } else {
        assert(ids_of(ids, nodes) =~= own);
    }
}

/// Every leaf is folded once and in its place, whether the leaves are at hand or in the
/// store: where a merge concatenates what its inputs carry and each leaf carries its
/// own number, the folded proof carries the numbers of all leaves, from left to right.
pub proof fn folds_take_every_leaf_once<P, F: Fn(&P, bool, &P, bool) -> Result<P, String>>(
    merge_fn: F,
    ids: spec_fn(P) -> Seq<int>,
    leaves: Seq<P>,
    store: Map<Seq<char>, P>,
    keys: Seq<String>,
    own: Seq<int>,
    top: (P, bool),
    far: (P, bool),
)
    requires
        concatenates(merge_fn, ids),
        leaves.len() == keys.len() == own.len(),
        forall|i: int| 0 <= i < own.len() ==> ids(#[trigger] leaves[i]) == seq![own[i]],
        forall|i: int| 0 <= i < own.len() ==> ids(store[(#[trigger] keys[i])@]) == seq![own[i]],
        folds_to(merge_fn, as_leaves(leaves), top),
        folds_to(merge_fn, stored_leaves(store, keys), far),
    ensures
        ids(top.0) == own,
        ids(far.0) == own,
{
    let near = as_leaves(leaves);
    let there = stored_leaves(store, keys);
    assert forall|i: int| 0 <= i < own.len() implies ids((#[trigger] near[i]).0) == seq![own[i]] by {
        assert(near[i].0 == leaves[i]);
    }
    assert forall|i: int| 0 <= i < own.len() implies ids((#[trigger] there[i]).0) == seq![own[i]] by {
        assert(there[i].0 == store[keys[i]@]);
    }
    lemma_ids_of_leaves(ids, near, own);
    lemma_ids_of_leaves(ids, there, own);
    fold_keeps_leaf_order(merge_fn, ids, near, top);
    fold_keeps_leaf_order(merge_fn, ids, there, far);
}

/// A merge is told of each input whether it is a merge itself: two leaves are merged as
/// leaves, and of three the third is merged as a leaf with the merge of the others.
pub proof fn merges_know_their_inputs<P, F: Fn(&P, bool, &P, bool) -> Result<P, String>>(
    merge_fn: F,
    a: P,
    b: P,
    c: P,
    two: (P, bool),
    three: (P, bool),
)
    requires
        folds_to(merge_fn, as_leaves(seq![a, b]), two),
        folds_to(merge_fn, as_leaves(seq![a, b, c]), three),
    ensures
        two.1,
        call_ensures(merge_fn, (&a, false, &b, false), Ok(two.0)),
        three.1,
        exists|m: P| #[trigger]
            call_ensures(merge_fn, (&a, false, &b, false), Ok(m)) && call_ensures(
                merge_fn,
                (&m, true, &c, false),
                Ok(three.0),
            ),
{
    let pair = as_leaves(seq![a, b]);
    let next = choose|next: Seq<(P, bool)>| #[trigger]
        level_step(merge_fn, pair, next) && next.len() < pair.len() && folds_to(
            merge_fn,
            next,
            two,
        );
    assert(next[0] == two);
    assert(pair[0] == (a, false) && pair[1] == (b, false));
    let trio = as_leaves(seq![a, b, c]);
    let mid = choose|next: Seq<(P, bool)>| #[trigger]
        level_step(merge_fn, trio, next) && next.len() < trio.len() && folds_to(
            merge_fn,
            next,
            three,
        );
    assert(trio[0] == (a, false) && trio[1] == (b, false) && trio[2] == (c, false));
    assert(mid.len() == 2);
    assert(mid[0].1);
    assert(mid[1] == (c, false));
    let last = choose|next: Seq<(P, bool)>| #[trigger]
        level_step(merge_fn, mid, next) && next.len() < mid.len() && folds_to(
            merge_fn,
            next,
            three,
        );
    assert(last[0] == three);
    assert(call_ensures(merge_fn, (&a, false, &b, false), Ok(mid[0].0)));
}

/// The tasks of the first level take the leaves, each once and as leaves; those of a
/// later level take the outputs of the level below, each once and as merges. The leaf
/// that is left over on the first level is taken as a leaf on the second.
pub proof fn every_node_is_merged_once(
    height: u64,
    keys: Seq<String>,
    level: nat,
    tasks: Seq<LevelTask>,
    uppers: Seq<LevelTask>,
    i: int,
)
    requires
        level >= 1,
        planned_level(height, keys, level, tasks),
        planned_level(height, keys, level + 1, uppers),
    ensures
        level == 1 ==> tasks.len() == keys.len() / 2,
        uppers.len() == (tasks.len() + width_after(keys.len(), (level - 1) as nat) % 2) / 2,
        level == 1 && 0 <= i < tasks.len() ==> {
            &&& tasks[i].left_key@ == keys[2 * i]@ && !tasks[i].left_is_merge
            &&& tasks[i].right_key@ == keys[2 * i + 1]@ && !tasks[i].right_is_merge
        },
        0 <= i < tasks.len() && i / 2 < uppers.len() ==> if i % 2 == 0 {
            uppers[i / 2].left_key@ == tasks[i].output_key@ && uppers[i / 2].left_is_merge
        } else {
            uppers[i / 2].right_key@ == tasks[i].output_key@ && uppers[i / 2].right_is_merge
        },
        level == 1 && keys.len() % 2 == 1 && tasks.len() / 2 < uppers.len() ==> {
            let last = keys[keys.len() - 1]@;
            let upper = uppers[tasks.len() as int / 2];
            upper.right_key@ == last && !upper.right_is_merge
        },
{
    reveal_with_fuel(node_key, 3);
    reveal_with_fuel(node_merged, 3);
    reveal_with_fuel(width_after, 3);
    let w = width_after(keys.len(), (level - 1) as nat);
    assert(width_after(keys.len(), level) == (w + 1) / 2);
    if 0 <= i < tasks.len() && i / 2 < uppers.len() {
        let u = uppers[i / 2];
        assert(u.index == i / 2);
        assert(tasks[i].output_key@ == merge_key(height as nat, level, i as nat));
        if i % 2 == 0 {
            assert(2 * (i / 2) == i);
        } else {
            assert(2 * (i / 2) + 1 == i);
        }
    }
    if level == 1 && keys.len() % 2 == 1 && tasks.len() / 2 < uppers.len() {
        let p = tasks.len() as int;
        let upper = uppers[p / 2];
        assert(upper.index == p / 2);
        assert(2 * p == keys.len() - 1);
        assert(uppers.len() == (p + 1) / 2);
        assert(p % 2 == 1);
        assert(2 * (p / 2) + 1 == p);
    }
}

/// A wave holds as many tasks as there are workers, the last one what is left, and all
/// tasks of a wave end with it.
pub proof fn waves_are_as_wide_as_the_workers(i: int, j: int, n: int, workers: int)
    requires
        0 <= i < n,
        workers >= 1,
        i <= j < wave_end(i, n, workers),
    ensures
        i < wave_end(i, n, workers) <= n,
        wave_end(i, n, workers) <= i + workers,
        wave_end(i, n, workers) == n || wave_end(i, n, workers) % workers == 0,
        wave_end(j, n, workers) == wave_end(i, n, workers),
        i % workers == 0 && i + workers <= n ==> wave_end(i, n, workers) == i + workers,
{
    let q = i / workers;
    let end = (q + 1) * workers;
    vstd::arithmetic::div_mod::lemma_fundamental_div_mod(i, workers);
    assert(end == workers * q + workers) by (nonlinear_arith)
        requires
            end == (q + 1) * workers,
    ;
    assert(0 <= i % workers < workers);
    vstd::arithmetic::div_mod::lemma_mod_multiples_basic(q + 1, workers);
    assert(j / workers == q) by {
        vstd::arithmetic::div_mod::lemma_fundamental_div_mod_converse(
            j,
            workers,
            q,
            j - workers * q,
        );
    }
}

/// The measurements of a fold account for every merge and every leaf: the first level
/// has all leaves, each level what the one below left, and a level is as slow as its
/// slowest task.
pub proof fn measured_levels_account_for_all(
    metrics: Seq<LevelBarrierMetric>,
    n: nat,
    proves: Seq<Seq<u64>>,
    i: int,
)
    requires
        measured(metrics, n, proves),
        0 <= i < metrics.len(),
    ensures
        metrics[i].level == i + 1,
        metrics[i].tasks == proves[i].len(),
        i == 0 ==> 2 * metrics[i].tasks + (if metrics[i].odd_carry {
            1int
        } else {
            0int
        }) == n,
        i > 0 ==> 2 * metrics[i].tasks + (if metrics[i].odd_carry {
            1int
        } else {
            0int
        }) == metrics[i - 1].tasks + (if metrics[i - 1].odd_carry {
            1int
        } else {
            0int
        }),
        metrics[i].straggler_ms + metrics[i].median_prove_ms == metrics[i].slowest_prove_ms,
{
    let w = width_after(n, i as nat);
    assert(metric_of(metrics[i], (i + 1) as nat, w, proves[i]));
    assert(proves[i].len() == w / 2);
    if i > 0 {
        let below = width_after(n, (i - 1) as nat);
        assert(metric_of(metrics[i - 1], i as nat, below, proves[i - 1]));
        assert(w == (below + 1) / 2);
    }
}

/// The times of a fold add up level by level.
pub proof fn level_times_add_up(s: Seq<Seq<u64>>, level: Seq<u64>)
    ensures
        grand_total(s.push(level)) == grand_total(s) + total(level),
        grand_total(Seq::<Seq<u64>>::empty()) == 0,
{
    assert(s.push(level).drop_last() =~= s);
}

/// A level whose inputs are stored does not fail where merging does not: what fails is a
/// task without its input, or a merge.
pub proof fn levels_fail_for_a_reason<P, F: Fn(&P, bool, &P, bool) -> Result<P, String>>(
    merge_fn: F,
    before: Map<Seq<char>, P>,
    after: Map<Seq<char>, P>,
    tasks: Seq<LevelTask>,
    workers: int,
    e: Seq<char>,
)
    requires
        inputs_stored(before, tasks),
        infallible(merge_fn),
    ensures
        !level_failed(merge_fn, before, after, tasks, workers, e),
{
    if level_failed(merge_fn, before, after, tasks, workers, e) {
        let i = choose|i: int| #[trigger]
            first_failed(merge_fn, before, after, tasks, workers, i, e);
        let t = tasks[i];
        assert(task_failed(merge_fn, before, t, e));
        assert(before.contains_key(t.left_key@) && before.contains_key(t.right_key@));
        let cause = choose|cause: String|
            e == merge_failed_text(t.index as nat, t.level as nat, cause@)
                && #[trigger] call_ensures(
                merge_fn,
                (&before[t.left_key@], t.left_is_merge, &before[t.right_key@], t.right_is_merge),
                Err(cause),
            );
        assert(Err::<P, String>(cause) is Ok);
    }
}

/// The tasks of all levels together.
pub open spec fn tasks_total(metrics: Seq<LevelBarrierMetric>) -> int
    decreases metrics.len(),
{
    if metrics.len() == 0 {
        0
    } else {
        tasks_total(metrics.drop_last()) + metrics.last().tasks
    }
}

proof fn lemma_tasks_total(metrics: Seq<LevelBarrierMetric>, n: nat, proves: Seq<Seq<u64>>, k: nat)
    requires
        measured(metrics, n, proves),
        k <= metrics.len(),
    ensures
        tasks_total(metrics.take(k as int)) == merges_in(n, k),
    decreases k,
{
    if k > 0 {
        lemma_tasks_total(metrics, n, proves, (k - 1) as nat);
        assert(metrics.take(k as int).drop_last() =~= metrics.take(k - 1));
        assert(metrics.take(k as int).last() == metrics[k - 1]);
        assert(metric_of(metrics[k - 1], k, width_after(n, (k - 1) as nat), proves[k - 1]));
    }
}

/// What a fold says of itself accounts for every merge: the tasks of its levels, the
/// fetches and the sizes are one less than the leaves, no output is larger than the
/// largest, and the first level has all leaves.
pub proof fn outcomes_account_for_all<P>(
    o: DistributedFoldOutcome<P>,
    n: nat,
    proves: Seq<Seq<u64>>,
    gets: Seq<u64>,
    sizes: Seq<Option<usize>>,
)
    requires
        n >= 1,
        instrumented(o, n, proves, gets, sizes),
    ensures
        tasks_total(o.level_metrics@) == n - 1,
        gets.len() == n - 1,
        sizes.len() == n - 1,
        proves.len() == o.level_metrics@.len(),
        o.level_metrics@.len() > 0 ==> 2 * o.level_metrics@[0].tasks + (
        if o.level_metrics@[0].odd_carry {
            1int
        } else {
            0int
        }) == n,
        forall|i: int|
            0 <= i < sizes.len() && (#[trigger] sizes[i]) is Some ==> sizes[i]->0
                <= o.max_intermediate_bytes,
        o.transit_total == total(gets),
        o.merge_prove_total == grand_total(proves),
{
    let metrics = o.level_metrics@;
    fold_makes_one_merge_less(n);
    lemma_tasks_total(metrics, n, proves, metrics.len());
    assert(metrics.take(metrics.len() as int) =~= metrics);
    the_largest_is_the_largest(sizes);
    if metrics.len() > 0 {
        measured_levels_account_for_all(metrics, n, proves, 0);
    }
}

/// A task says where it stands in the fold, its output is stored under that place, and
/// no two tasks of a fold have the same.
pub proof fn tasks_have_their_own_outputs(
    height: u64,
    keys: Seq<String>,
    la: nat,
    a: Seq<LevelTask>,
    i: int,
    lb: nat,
    b: Seq<LevelTask>,
    j: int,
)
    requires
        planned_level(height, keys, la, a),
        planned_level(height, keys, lb, b),
        0 <= i < a.len(),
        0 <= j < b.len(),
    ensures
        a[i].output_key@ == merge_key(a[i].height as nat, a[i].level as nat, a[i].index as nat),
        a[i].height == height,
        a[i].output_key@ == b[j].output_key@ <==> la == lb && i == j,
        a[i].level == b[j].level && a[i].index == b[j].index <==> la == lb && i == j,
{
    assert(a[i].index == i && b[j].index == j);
    if a[i].output_key@ == b[j].output_key@ {
        merge_keys_are_distinct(height as nat, la, i as nat, height as nat, lb, j as nat);
    }
}

/// The results of all levels together.
pub open spec fn answered(runs: Seq<LevelRun>) -> nat
    decreases runs.len(),
{
    if runs.len() == 0 {
        0
    } else {
        answered(runs.drop_last()) + runs.last().answer->0.len()
    }
}

proof fn lemma_answered(
    height: u64,
    keys: Seq<String>,
    before: Seq<LevelRun>,
    now: Seq<LevelRun>,
    k: nat,
)
    requires
        ran_in_turn(height, keys, before, now),
        ran_through(keys.len(), before, now),
        k <= fold_depth(keys.len()),
    ensures
        answered(now.subrange(before.len() as int, (before.len() + k) as int)) == merges_in(
            keys.len(),
            k,
        ),
    decreases k,
{
    let first = before.len() as int;
    let part = now.subrange(first, first + k);
    if k > 0 {
        lemma_answered(height, keys, before, now, (k - 1) as nat);
        assert(part.drop_last() =~= now.subrange(first, first + k - 1));
        assert(part.last() == now[first + k - 1]);
        assert(in_full(now[first + k - 1]));
        assert(planned_level(height, keys, k, now[first + k - 1].tasks));
    }
}

/// A fold that ran through adds its levels to what was run before, and has as many
/// results as merges: one less than leaves.
pub proof fn histories_are_extended(
    height: u64,
    keys: Seq<String>,
    before: Seq<LevelRun>,
    now: Seq<LevelRun>,
)
    requires
        keys.len() >= 1,
        ran_in_turn(height, keys, before, now),
        ran_through(keys.len(), before, now),
    ensures
        now.len() >= before.len(),
        forall|l: int| 0 <= l < before.len() ==> #[trigger] now[l] == before[l],
        answered(now.skip(before.len() as int)) == keys.len() - 1,
{
    let first = before.len() as int;
    assert forall|l: int| 0 <= l < before.len() implies #[trigger] now[l] == before[l] by {
        assert(now.take(first)[l] == now[l]);
    }
    lemma_answered(height, keys, before, now, fold_depth(keys.len()));
    fold_makes_one_merge_less(keys.len());
    assert(now.skip(first) =~= now.subrange(first, first + fold_depth(keys.len())));
}

/// Results in the order of the tasks answer every task, none of them twice.
pub proof fn ordered_results_answer(tasks: Seq<LevelTask>, results: Seq<TaskResult>)
    requires
        reported_in_order(tasks, results),
    ensures
        answers(tasks, results),
        results.len() == tasks.len(),
{
    let who = Seq::new(results.len(), |j: int| j);
    assert(answers_as(tasks, results, who));
}

} // verus!
