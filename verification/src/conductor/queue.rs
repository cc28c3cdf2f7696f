//! The outer tier: a queue from which coordinators pull whole blocks.

use std::collections::VecDeque;
use vstd::prelude::*;

verus! {

/// A block to prove: its height, and how many transactions it has.
#[derive(Debug, Clone, Copy, PartialEq, Eq, Structural)]
pub struct BlockJob {
    pub height: u64,
    pub tx_count: u64,
}

impl BlockJob {
    pub fn new(height: u64, tx_count: u64) -> (r: Self)
        ensures
            r.height == height,
            r.tx_count == tx_count,
    {
        BlockJob { height, tx_count }
    }
}

/// The block-dispatch queue. A pulled block belongs to the one that pulled it.
pub trait BlockQueue {
    /// The blocks that wait to be pulled, in order.
    spec fn waiting(&self) -> Seq<BlockJob>;

    /// The blocks that were acknowledged, in order.
    spec fn acked(&self) -> Seq<BlockJob>;

    /// Adds a block at the end.
    fn publish(&mut self, job: BlockJob)
        ensures
            final(self).waiting() == old(self).waiting().push(job),
            final(self).acked() == old(self).acked(),
    ;

    /// Takes the first block.
    fn pull(&mut self) -> (r: Option<BlockJob>)
        ensures
            match r {
                Some(job) => old(self).waiting().len() > 0 && job == old(self).waiting()[0]
                    && final(self).waiting() == old(self).waiting().drop_first(),
                None => old(self).waiting().len() == 0 && final(self).waiting() == old(
                    self).waiting(),
            },
            final(self).acked() == old(self).acked(),
    ;

    /// The block's proof was emitted: it is not delivered again.
    fn ack(&mut self, job: BlockJob)
        ensures
            final(self).waiting() == old(self).waiting(),
            final(self).acked() == old(self).acked().push(job),
    ;

    /// The block's coordinator failed: it is delivered again, before the others.
    fn nack(&mut self, job: BlockJob)
        ensures
            final(self).waiting() == seq![job] + old(self).waiting(),
            final(self).acked() == old(self).acked(),
    ;

    /// How many blocks wait.
    fn backlog(&self) -> (r: usize)
        ensures
            r == self.waiting().len(),
    ;
}

/// A queue in memory, with a record of what was acknowledged.
#[derive(Debug)]
pub struct LocalBlockQueue {
    inner: VecDeque<BlockJob>,
    done: Vec<BlockJob>,
}

impl LocalBlockQueue {
    /// An empty queue.
    pub fn new() -> (r: Self)
        ensures
            r.waiting() == Seq::<BlockJob>::empty(),
            r.acked() == Seq::<BlockJob>::empty(),
    {
        LocalBlockQueue { inner: VecDeque::new(), done: Vec::new() }
    }

    /// The blocks that were acknowledged, in order.
    pub fn acknowledged(&self) -> (r: &Vec<BlockJob>)
        ensures
            r@ == self.acked(),
    {
        &self.done
    }
}

impl Default for LocalBlockQueue {
    fn default() -> (r: Self)
        ensures
            r.waiting() == Seq::<BlockJob>::empty(),
            r.acked() == Seq::<BlockJob>::empty(),
    {
        Self::new()
    }
}

impl BlockQueue for LocalBlockQueue {
    closed spec fn waiting(&self) -> Seq<BlockJob> {
        self.inner@
    }

    closed spec fn acked(&self) -> Seq<BlockJob> {
        self.done@
    }

    fn publish(&mut self, job: BlockJob) {
        self.inner.push_back(job);
    }

    fn pull(&mut self) -> (r: Option<BlockJob>) {
        let r: Option<BlockJob> = self.inner.pop_front();
        proof {
            if r is Some {
                assert(self.waiting() =~= old(self).waiting().drop_first());
            }
        }
        r
    }

    fn ack(&mut self, job: BlockJob) {
        self.done.push(job);
    }

    fn nack(&mut self, job: BlockJob) {
        self.inner.push_front(job);
        assert(self.waiting() =~= seq![job] + old(self).waiting());
    }

    fn backlog(&self) -> (r: usize) {
        self.inner.len()
    }
}

/// A failed block comes back before every other.
pub proof fn nacked_block_comes_first(waiting: Seq<BlockJob>, job: BlockJob)
    ensures
        (seq![job] + waiting)[0] == job,
        (seq![job] + waiting).drop_first() == waiting,
{
    assert((seq![job] + waiting).drop_first() =~= waiting);
}

/// Blocks come out in the order in which they were published.
pub proof fn pulls_are_first_in_first_out(waiting: Seq<BlockJob>, job: BlockJob)
    ensures
        waiting.len() > 0 ==> waiting.push(job)[0] == waiting[0] && waiting.push(job).drop_first()
            == waiting.drop_first().push(job),
        waiting.len() == 0 ==> waiting.push(job)[0] == job && waiting.push(job).drop_first().len() == 0,
{
    if waiting.len() > 0 {
        assert(waiting.push(job).drop_first() =~= waiting.drop_first().push(job));
    }
}

} // verus!
