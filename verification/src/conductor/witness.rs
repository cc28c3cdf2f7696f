//! The witness plane: chunks are addressed by `{height, witness_index}` and
//! resolved to their payload where they are proved.

use crate::clock;
use std::collections::HashMap;
use vstd::pervasive::cloned;
use vstd::prelude::*;

verus! {

broadcast use vstd::std_specs::hash::group_hash_axioms;

/// A reference to the witness of one chunk.
#[derive(Debug, Clone, Copy, PartialEq, Eq, Hash, Structural)]
pub struct WitnessKey {
    /// The block.
    pub height: u64,
    /// The chunk, counted from 0.
    pub witness_index: u64,
}

impl WitnessKey {
    pub fn new(height: u64, witness_index: u64) -> (r: Self)
        ensures
            r.height == height,
            r.witness_index == witness_index,
    {
        WitnessKey { height, witness_index }
    }
}

/// A resolved witness: what a cell proves, and how many transactions that is.
#[derive(Debug, Clone)]
pub struct WitnessSlice<T> {
    pub key: WitnessKey,
    pub payload: T,
    pub tx_count: usize,
}

/// A resolved witness with the time that resolving it took.
#[derive(Debug, Clone)]
pub struct ResolvedWitness<T> {
    pub slice: WitnessSlice<T>,
    /// Milliseconds of the local read.
    pub fetch_ms: u64,
}

/// Resolves references to witnesses. Resolving is a local read.
pub trait WitnessResolver {
    type Payload;

    /// What always holds of the resolver.
    spec fn wf(&self) -> bool;

    /// Whether the witness is there.
    spec fn holds(&self, key: WitnessKey) -> bool;

    /// Whether `slice` is a witness that the resolver may hand out for `key`.
    spec fn delivers(&self, key: WitnessKey, slice: WitnessSlice<Self::Payload>) -> bool;

    /// How many chunks there are of the block at `height`, 0 if it is absent.
    spec fn width(&self, height: u64) -> u64;

    /// The witness for `key`, or none where it is absent.
    fn fetch(&self, key: WitnessKey) -> (r: Option<WitnessSlice<Self::Payload>>)
        requires
            self.wf(),
        ensures
            r is Some <==> self.holds(key),
            r matches Some(slice) ==> slice.key == key && self.delivers(key, slice),
    ;

    /// The witness for `key`, with the time that the read took.
    fn resolve(&self, key: WitnessKey) -> (r: Option<ResolvedWitness<Self::Payload>>)
        requires
            self.wf(),
        ensures
            r is Some <==> self.holds(key),
            r matches Some(w) ==> w.slice.key == key && self.delivers(key, w.slice),
    {
        let started = clock::now();
        match self.fetch(key) {
            Some(slice) => {
                let fetch_ms: u64 = clock::millis_since(&started);
                Some(ResolvedWitness { slice, fetch_ms })
            },
            None => None,
        }
    }

    /// How many chunks there are of the block at `height`.
    fn slice_count(&self, height: u64) -> (r: u64)
        requires
            self.wf(),
        ensures
            r == self.width(height),
    ;
}

/// A key as one number.
pub open spec fn packed(key: WitnessKey) -> u128 {
    (key.height * 0x1_0000_0000_0000_0000 + key.witness_index) as u128
}

/// The height in a packed key.
pub open spec fn packed_height(n: u128) -> int {
    n as int / 0x1_0000_0000_0000_0000
}

proof fn lemma_packed_height(key: WitnessKey)
    ensures
        packed_height(packed(key)) == key.height,
{
}

/// Different keys are different numbers.
pub proof fn packed_is_injective(a: WitnessKey, b: WitnessKey)
    requires
        packed(a) == packed(b),
    ensures
        a == b,
{
}

fn pack(key: WitnessKey) -> (r: u128)
    ensures
        r == packed(key),
{
    key.height as u128 * 0x1_0000_0000_0000_0000u128 + key.witness_index as u128
}

/// A corpus of witnesses mounted in memory.
#[derive(Debug)]
pub struct MountedCorpus<T> {
    /// Witnesses by packed key.
    slices: HashMap<u128, WitnessSlice<T>>,
    /// Number of chunks by height.
    counts: HashMap<u64, u64>,
}

impl<T> MountedCorpus<T> {
    pub closed spec fn contents(&self) -> Map<u128, WitnessSlice<T>> {
        self.slices@
    }

    pub closed spec fn widths(&self) -> Map<u64, u64> {
        self.counts@
    }

    /// Every witness is stored under its own key.
    pub open spec fn keyed(&self) -> bool {
        forall|n: u128|
            #![trigger self.contents().contains_key(n)]
            self.contents().contains_key(n) ==> packed(self.contents()[n].key) == n
    }

    /// The witnesses of a block are those of its chunks, and no others.
    pub open spec fn counted(&self) -> bool {
        forall|key: WitnessKey|
            #![trigger packed(key)]
            self.contents().contains_key(packed(key)) <==> key.witness_index < (
            if self.widths().contains_key(key.height) {
                self.widths()[key.height]
            } else {
                0
            })
    }
}

/// `before` with the witnesses of the block at `height` mounted in place of those
/// that it had: the chunk `i` is `slices[i]`, there are no others of that block,
/// and every other block is as before.
pub open spec fn mounted<T>(
    before: Map<u128, WitnessSlice<T>>,
    after: Map<u128, WitnessSlice<T>>,
    height: u64,
    slices: Seq<(T, usize)>,
) -> bool {
    &&& forall|key: WitnessKey|
        #![trigger packed(key)]
        key.height == height && key.witness_index < slices.len() ==> after.contains_key(
            packed(key),
        ) && after[packed(key)] == (WitnessSlice {
            key,
            payload: slices[key.witness_index as int].0,
            tx_count: slices[key.witness_index as int].1,
        })
    &&& forall|key: WitnessKey|
        #![trigger packed(key)]
        key.height == height && key.witness_index >= slices.len() ==> !after.contains_key(packed(key))
    &&& forall|n: u128|
        packed_height(n) != height ==> (#[trigger] after.contains_key(n) == before.contains_key(n))
            && after[n] == before[n]
}

impl<T: Clone> MountedCorpus<T> {
    /// A corpus that holds nothing.
    pub fn new() -> (r: Self)
        ensures
            r.wf(),
            r.contents() == Map::<u128, WitnessSlice<T>>::empty(),
            r.widths() == Map::<u64, u64>::empty(),
    {
        MountedCorpus { slices: HashMap::new(), counts: HashMap::new() }
    }

    /// Drops the witnesses of the block at `height`.
    fn clear_block(&mut self, height: u64)
        requires
            old(self).wf(),
        ensures
            final(self).keyed(),
            mounted(old(self).contents(), final(self).contents(), height, Seq::<(T, usize)>::empty()),
            final(self).widths() == old(self).widths(),
    {
        let had: u64 = self.slice_count(height);
        let ghost before = self.contents();
        let mut i: u64 = 0;
        while i < had
            invariant
                i <= had,
                self.keyed(),
                self.widths() == old(self).widths(),
                forall|key: WitnessKey|
                    #![trigger packed(key)]
                    key.height == height && (key.witness_index < i || key.witness_index >= had)
                        ==> !self.contents().contains_key(packed(key)),
                forall|n: u128|
                    packed_height(n) != height ==> (#[trigger] self.contents().contains_key(n)
                        == before.contains_key(n)) && self.contents()[n] == before[n],
            decreases had - i,
        {
            let key: WitnessKey = WitnessKey::new(height, i);
            let ghost held = self.contents();
            self.slices.remove(&pack(key));
            proof {
                lemma_packed_height(key);
                assert(self.contents() == held.remove(packed(key)));
                assert forall|k: WitnessKey|
                    #![trigger packed(k)]
                    k.height == height && (k.witness_index < i + 1 || k.witness_index >= had) implies
                    !self.contents().contains_key(packed(k)) by {
                    if k.witness_index == i {
                        assert(k == key);
                    }
                }
            }
            i = i + 1;
        }
    }

    /// Mounts the chunks of the block at `height`, in place of those that it had.
    pub fn mount_block(&mut self, height: u64, slices: Vec<(T, usize)>)
        requires
            old(self).wf(),
            slices@.len() <= u64::MAX,
        ensures
            final(self).wf(),
            mounted(old(self).contents(), final(self).contents(), height, slices@),
            final(self).widths() == old(self).widths().insert(height, slices@.len() as u64),
    {
        let k: usize = slices.len();
        let ghost all = slices@;
        let ghost before = self.contents();
        self.clear_block(height);
        let mut rest = slices;
        let mut i: u64 = 0;
        assert(all.take(0) =~= Seq::<(T, usize)>::empty());
        while rest.len() > 0
            invariant
                self.keyed(),
                k == all.len(),
                k <= u64::MAX,
                i + rest@.len() == k,
                rest@ == all.subrange(i as int, k as int),
                mounted(before, self.contents(), height, all.take(i as int)),
                self.widths() == old(self).widths(),
            decreases rest@.len(),
        {
            let item: (T, usize) = rest.remove(0);
            assert(item == all[i as int]);
            assert(rest@ =~= all.subrange(i + 1, k as int));
            let key: WitnessKey = WitnessKey::new(height, i);
            let ghost held = self.contents();
            self.slices.insert(
                pack(key),
                WitnessSlice { key, payload: item.0, tx_count: item.1 },
            );
            proof {
                lemma_mount_one(before, held, self.contents(), height, all, i, key);
            }
            i = i + 1;
        }
        assert(all.take(k as int) =~= all);
        let ghost held = self.widths();
        self.counts.insert(height, k as u64);
        proof {
            assert(self.widths() == held.insert(height, k as u64));
            assert forall|key: WitnessKey|
                #![trigger packed(key)]
                self.contents().contains_key(packed(key)) <==> key.witness_index < (
                if self.widths().contains_key(key.height) {
                    self.widths()[key.height]
                } else {
                    0
                }) by {
                lemma_packed_height(key);
                if key.height != height {
                    assert(self.contents().contains_key(packed(key)) == before.contains_key(
                        packed(key),
                    ));
                    assert(old(self).counted());
                }
            }
        }
    }

    /// A corpus with one block.
    pub fn single_block(height: u64, slices: Vec<(T, usize)>) -> (r: Self)
        requires
            slices@.len() <= u64::MAX,
        ensures
            r.wf(),
            mounted(Map::<u128, WitnessSlice<T>>::empty(), r.contents(), height, slices@),
            r.widths() == Map::<u64, u64>::empty().insert(height, slices@.len() as u64),
    {
        let mut c = Self::new();
        c.mount_block(height, slices);
        c
    }

    /// Witnesses over all heights.
    pub fn len(&self) -> (r: usize)
        ensures
            r == self.contents().len(),
    {
        self.slices.len()
    }

    pub fn is_empty(&self) -> (r: bool)
        ensures
            r == (self.contents() == Map::<u128, WitnessSlice<T>>::empty()),
    {
        let r: bool = self.slices.is_empty();
        proof {
            if r {
                assert(self.contents() =~= Map::<u128, WitnessSlice<T>>::empty());
            }
        }
        r
    }
}

proof fn lemma_mount_one<T>(
    before: Map<u128, WitnessSlice<T>>,
    held: Map<u128, WitnessSlice<T>>,
    after: Map<u128, WitnessSlice<T>>,
    height: u64,
    all: Seq<(T, usize)>,
    i: u64,
    key: WitnessKey,
)
    requires
        i < all.len(),
        key == (WitnessKey { height, witness_index: i }),
        mounted(before, held, height, all.take(i as int)),
        after == held.insert(
            packed(key),
            (WitnessSlice { key, payload: all[i as int].0, tx_count: all[i as int].1 }),
        ),
    ensures
        mounted(before, after, height, all.take(i + 1)),
{
    let now = all.take(i + 1);
    let was = all.take(i as int);
    assert forall|k: WitnessKey|
        #![trigger packed(k)]
        k.height == height && k.witness_index < now.len() implies after.contains_key(packed(k))
        && after[packed(k)] == (WitnessSlice {
        key: k,
        payload: now[k.witness_index as int].0,
        tx_count: now[k.witness_index as int].1,
    }) by {
        if k.witness_index < i {
            assert(was[k.witness_index as int] == now[k.witness_index as int]);
            if packed(k) == packed(key) {
                packed_is_injective(k, key);
            }
        } else {
            assert(k == key);
        }
    }
    assert forall|k: WitnessKey|
        #![trigger packed(k)]
        k.height == height && k.witness_index >= now.len() implies !after.contains_key(packed(k)) by {
        if packed(k) == packed(key) {
            packed_is_injective(k, key);
        }
    }
    lemma_packed_height(key);
    assert forall|n: u128| packed_height(n) != height implies (#[trigger] after.contains_key(n)
        == before.contains_key(n)) && after[n] == before[n] by {
        assert(held.contains_key(n) == before.contains_key(n));
    }
}

impl<T: Clone> WitnessResolver for MountedCorpus<T> {
    type Payload = T;

    open spec fn wf(&self) -> bool {
        self.keyed() && self.counted()
    }

    open spec fn holds(&self, key: WitnessKey) -> bool {
        self.contents().contains_key(packed(key))
    }

    open spec fn delivers(&self, key: WitnessKey, slice: WitnessSlice<T>) -> bool {
        let stored = self.contents()[packed(key)];
        slice.tx_count == stored.tx_count && cloned(stored.payload, slice.payload)
    }

    open spec fn width(&self, height: u64) -> u64 {
        if self.widths().contains_key(height) {
            self.widths()[height]
        } else {
            0
        }
    }

    fn fetch(&self, key: WitnessKey) -> (r: Option<WitnessSlice<T>>) {
        match self.slices.get(&pack(key)) {
            Some(slice) => Some(
                WitnessSlice { key, payload: slice.payload.clone(), tx_count: slice.tx_count },
            ),
            None => None,
        }
    }

    fn slice_count(&self, height: u64) -> (r: u64) {
        match self.counts.get(&height) {
            Some(k) => *k,
            None => 0,
        }
    }
}

/// A corpus holds exactly as many witnesses of a block as it counts: those of the
/// chunks before that number.
pub proof fn count_is_what_is_held<T: Clone>(corpus: MountedCorpus<T>, height: u64)
    requires
        corpus.wf(),
    ensures
        forall|i: u64|
            #[trigger] corpus.holds((WitnessKey { height, witness_index: i })) <==> i < corpus.width(
                height,
            ),
{
    assert forall|i: u64|
        #[trigger] corpus.holds((WitnessKey { height, witness_index: i })) <==> i < corpus.width(
            height,
        ) by {
        let key = WitnessKey { height, witness_index: i };
        assert(corpus.contents().contains_key(packed(key)) == corpus.holds(key));
    }
}

/// Every chunk of a mounted block is found under its own index, with its own
/// payload.
pub proof fn mounted_chunks_resolve<T: Clone>(
    before: Map<u128, WitnessSlice<T>>,
    corpus: MountedCorpus<T>,
    height: u64,
    slices: Seq<(T, usize)>,
    i: u64,
)
    requires
        mounted(before, corpus.contents(), height, slices),
        i < slices.len(),
    ensures
        corpus.holds((WitnessKey { height, witness_index: i })),
        corpus.contents()[packed((WitnessKey { height, witness_index: i }))].payload == slices[i as int].0,
        corpus.contents()[packed((WitnessKey { height, witness_index: i }))].tx_count
            == slices[i as int].1,
{
    let key = WitnessKey { height, witness_index: i };
    assert(packed(key) == packed(key));
}

} // verus!
