use vstd::prelude::*;

verus! {

use vstd::multiset::Multiset;
use crate::my_priority_queue::AbstractPriorityQueue;
use crate::iterator_manipulation::flushable_iterator::FlushableIterator;

/// One step per entry of the fill loop: each input entry leaves the front of
/// the input and lands in the queue whole — one enqueue for an `Ok` pair, one
/// batch enqueue for an `Err` batch that fits in memory — and the queue is
/// still short of `cap` before each step.
pub open spec fn fill_walk<T, Q: AbstractPriorityQueue<T>>(
    states: Seq<Q>,
    entries: Seq<Result<(T, u64), (Vec<T>, u64)>>,
    cap: usize,
) -> bool {
    &&& states.len() == entries.len() + 1
    &&& forall|i: int|
        0 <= i < entries.len() ==> {
            &&& (#[trigger] states[i]).valid()
            &&& states[i].contents().len() < cap
            &&& match entries[i] {
                Ok(pair) => states[i + 1].contents() == states[i].enqueue_contents(pair.0, pair.1),
                Err(batch) => states[i].contents().len() + batch.0@.len() <= usize::MAX
                    ==> states[i + 1].contents() == states[i].enqueue_batch_contents(
                    batch.0@,
                    batch.1,
                ),
            }
        }
}

/// The walk a drain makes: each pair handed out is the peek of the queue
/// state its own dequeue left from, and the walk ends on an empty queue.
pub open spec fn drain_walk<T, Q: AbstractPriorityQueue<T>>(
    states: Seq<Q>,
    out: Seq<(T, u64)>,
) -> bool {
    &&& states.len() == out.len() + 1
    &&& forall|i: int|
        0 <= i < out.len() ==> ((#[trigger] states[i]).valid() && states[i].peek_spec() == Some(
            out[i],
        ) && states[i + 1].contents() == states[i].contents().remove(out[i]))
    &&& states.last().contents().len() == 0
}

/// A lazy reordering stage: items pulled from the input are buffered in a
/// queue of the given capacity, and each step hands out whatever the queue
/// releases next.  An input entry is either one `(item, priority)` pair or a
/// whole batch at one priority.
pub struct Reordered<T, Q> {
    to_feed_in: Vec<Result<(T, u64), (Vec<T>, u64)>>,
    current_queue: Q,
    queue_capacity: usize,
}

impl<T, Q: AbstractPriorityQueue<T>> Reordered<T, Q> {
    /// The queue between the input and the consumer.
    pub closed spec fn queue(&self) -> Q {
        self.current_queue
    }

    /// The input entries not yet pulled.
    pub closed spec fn pending(&self) -> Seq<Result<(T, u64), (Vec<T>, u64)>> {
        self.to_feed_in@
    }

    /// The stage's capacity.
    pub closed spec fn capacity(&self) -> usize {
        self.queue_capacity
    }

    /// The stage is usable whenever its queue is.
    pub closed spec fn valid(&self) -> bool {
        self.current_queue.valid()
    }

    pub fn new(
        to_feed_in: Vec<Result<(T, u64), (Vec<T>, u64)>>,
        current_queue: Q,
        queue_capacity: usize,
    ) -> (r: Self)
        requires
            current_queue.valid(),
        ensures
            r.valid(),
            r.queue() == current_queue,
            r.pending() == to_feed_in@,
            r.capacity() == queue_capacity,
    {
        Reordered { to_feed_in, current_queue, queue_capacity }
    }

    /// Continue with more input once the current input runs dry.
    pub fn chain_more(self, more_stuff: Vec<Result<(T, u64), (Vec<T>, u64)>>) -> (r: Self)
        requires
            self.valid(),
        ensures
            r.valid(),
            r.queue() == self.queue(),
            r.pending() == self.pending() + more_stuff@,
            r.capacity() == self.capacity(),
    {
        let mut me = self;
        let mut extra = more_stuff;
        me.to_feed_in.append(&mut extra);
        me
    }

    /// Inject an entry straight into the queue, between pulls.  Whenever the
    /// machine limit leaves room, the entry lands in the queue whole.
    pub fn enqueue_now(&mut self, something_now: Result<(T, u64), (Vec<T>, u64)>)
        requires
            old(self).valid(),
        ensures
            final(self).valid(),
            final(self).pending() == old(self).pending(),
            final(self).capacity() == old(self).capacity(),
            something_now matches Ok(pair) ==> (old(self).queue().contents().len() < usize::MAX
                ==> final(self).queue().contents() == old(self).queue().enqueue_contents(
                pair.0,
                pair.1,
            )),
            something_now matches Err(batch) ==> (old(self).queue().contents().len()
                + batch.0@.len() <= usize::MAX ==> final(self).queue().contents() == old(
                self,
            ).queue().enqueue_batch_contents(batch.0@, batch.1)),
            inject_relation(*old(self), *final(self), something_now),
    {
        match something_now {
            Ok(pair) => {
                let n = self.current_queue.my_len();
                if n < usize::MAX {
                    self.current_queue.my_enqueue(pair.0, pair.1);
                }
                // a queue of usize::MAX items cannot exist in memory; the
                // test only discharges the machine limit
            },
            Err(batch) => {
                let n = self.current_queue.my_len();
                let (items, priority) = batch;
                if items.len() <= usize::MAX - n {
                    self.current_queue.enqueue_batch(items, priority);
                } else {
                    self.feed_one_by_one(items, priority);
                }
            },
        }
        proof {
            assert(inject_relation(*old(self), *self, something_now));
        }
    }

    /// Fall-back path: enqueue a batch member by member, each step guarded
    /// by the machine limit.
    fn feed_one_by_one(&mut self, items: Vec<T>, priority: u64)
        requires
            old(self).valid(),
        ensures
            final(self).valid(),
            final(self).pending() == old(self).pending(),
            final(self).capacity() == old(self).capacity(),
    {
        let mut rest = items;
        while rest.len() > 0
            invariant
                self.valid(),
                self.pending() == old(self).pending(),
                self.capacity() == old(self).capacity(),
            decreases rest@.len(),
        {
            let item = rest.remove(0);
            let n = self.current_queue.my_len();
            if n < usize::MAX {
                self.current_queue.my_enqueue(item, priority);
            }
        }
    }

    /// Pull from the input until the queue reaches capacity, then hand out
    /// what the queue releases.  The fill walk pins the discipline: entries
    /// leave the input front one at a time while the queue is short of
    /// capacity, and the result is the filled queue's own dequeue.  `None`
    /// means the stage is exhausted: with a positive capacity, both the
    /// queue and the input are empty.
    pub fn next(&mut self) -> (r: Option<(T, u64)>)
        requires
            old(self).valid(),
        ensures
            final(self).valid(),
            final(self).capacity() == old(self).capacity(),
            exists|k: int|
                #![trigger old(self).pending().skip(k)]
                0 <= k <= old(self).pending().len() && final(self).pending() == old(
                    self,
                ).pending().skip(k),
            exists|states: Seq<Q>, k: int|
                #![trigger states[0], old(self).pending().take(k)]
                {
                    &&& 0 <= k <= old(self).pending().len()
                    &&& fill_walk(states, old(self).pending().take(k), old(self).capacity())
                    &&& states[0] == old(self).queue()
                    &&& final(self).pending() == old(self).pending().skip(k)
                    &&& (states.last().contents().len() >= old(self).capacity() || k == old(
                        self,
                    ).pending().len())
                    &&& states.last().valid()
                    &&& r == states.last().peek_spec()
                    &&& match r {
                        Some(pair) => final(self).queue().contents() == states.last(
                        ).contents().remove(pair),
                        None => final(self).queue().contents() == states.last().contents(),
                    }
                },
            r is None ==> final(self).queue().contents().len() == 0 && (final(self).pending().len()
                == 0 || final(self).capacity() == 0),
            old(self).queue().contents().len() == 0 && old(self).pending().len() == 0 ==> r
                is None && final(self).queue().contents().len() == 0 && final(self).pending().len()
                == 0,
            pull_relation(*old(self), *final(self), r),
    {
        let ghost mut gstates: Seq<Q> = seq![self.current_queue];
        let ghost mut kk: int = 0;
        while self.current_queue_len() < self.queue_capacity && self.to_feed_in.len() > 0
            invariant
                self.valid(),
                self.capacity() == old(self).capacity(),
                0 <= kk <= old(self).pending().len(),
                self.pending() == old(self).pending().skip(kk),
                gstates.len() == kk + 1,
                fill_walk(gstates, old(self).pending().take(kk), old(self).capacity()),
                gstates[0] == old(self).queue(),
                gstates.last() == self.queue(),
            decreases self.to_feed_in@.len(),
        {
            let ghost pre_queue = self.current_queue;
            let ghost pre_len = self.current_queue.contents().len();
            let entry = self.to_feed_in.remove(0);
            proof {
                assert(entry == old(self).pending()[kk]);
                assert(self.to_feed_in@ =~= old(self).pending().skip(kk + 1));
            }
            match entry {
                Ok(pair) => {
                    self.current_queue.my_enqueue(pair.0, pair.1);
                },
                Err(batch) => {
                    let n = self.current_queue.my_len();
                    let (items, priority) = batch;
                    if items.len() <= usize::MAX - n {
                        self.current_queue.enqueue_batch(items, priority);
                    } else {
                        self.feed_one_by_one(items, priority);
                    }
                },
            }
            proof {
                let s2 = gstates.push(self.current_queue);
                let taken = old(self).pending().take(kk + 1);
                assert(taken =~= old(self).pending().take(kk).push(entry));
                assert forall|i: int| 0 <= i < taken.len() implies {
                    &&& (#[trigger] s2[i]).valid()
                    &&& s2[i].contents().len() < old(self).capacity()
                    &&& match taken[i] {
                        Ok(pair) => s2[i + 1].contents() == s2[i].enqueue_contents(pair.0, pair.1),
                        Err(batch) => s2[i].contents().len() + batch.0@.len() <= usize::MAX ==> s2[
                            i + 1].contents() == s2[i].enqueue_batch_contents(batch.0@, batch.1),
                    }
                } by {
                    if i < kk {
                        assert(s2[i] == gstates[i]);
                        assert(s2[i + 1] == gstates[i + 1]);
                        assert(taken[i] == old(self).pending().take(kk)[i]);
                    } else {
                        assert(s2[i] == pre_queue);
                        assert(s2[i + 1] == self.current_queue);
                        assert(taken[i] == entry);
                        assert(pre_len < old(self).capacity());
                    }
                }
                gstates = s2;
                kk = kk + 1;
            }
        }
        let ghost fill_done = self.current_queue;
        proof {
            if self.pending().len() == 0 {
                assert(old(self).pending().skip(kk).len() == 0);
                assert(kk == old(self).pending().len());
            }
        }
        let got = self.current_queue.my_dequeue();
        proof {
            if got is None {
                self.current_queue.lemma_peek_in_contents();
            }
            if old(self).queue().contents().len() == 0 && old(self).pending().len() == 0 {
                fill_done.lemma_peek_in_contents();
            }
            assert(fill_walk(gstates, old(self).pending().take(kk), old(self).capacity())
                && gstates[0] == old(self).queue());
            assert(self.pending() == old(self).pending().skip(kk));
            assert({
                &&& 0 <= kk <= old(self).pending().len()
                &&& fill_walk(gstates, old(self).pending().take(kk), old(self).capacity())
                &&& gstates[0] == old(self).queue()
                &&& self.pending() == old(self).pending().skip(kk)
                &&& (gstates.last().contents().len() >= old(self).capacity() || kk == old(
                    self,
                ).pending().len())
                &&& gstates.last().valid()
                &&& got == gstates.last().peek_spec()
                &&& match got {
                    Some(pair) => self.queue().contents() == gstates.last().contents().remove(
                        pair,
                    ),
                    None => self.queue().contents() == gstates.last().contents(),
                }
            });
            assert(pull_relation(*old(self), *self, got));
        }
        got
    }

    /// The number of items currently buffered.
    pub fn current_queue_len(&self) -> (r: usize)
        requires
            self.valid(),
        ensures
            r == self.queue().contents().len(),
    {
        self.current_queue.my_len()
    }
}

impl<T, Q: AbstractPriorityQueue<T>> FlushableIterator<(T, u64)> for Reordered<T, Q> {
    open spec fn flush_ready(&self) -> bool {
        self.valid()
    }

    /// Swap the queue for its empty copy and hand out the old contents in
    /// dequeue order — the drain walk pins each returned pair to the peek
    /// of the state its own dequeue left from; relies on nothing from the
    /// input.
    fn flush(&mut self) -> (r: Vec<(T, u64)>)
        ensures
            final(self).valid(),
            final(self).queue().contents().len() == 0,
            final(self).pending() == old(self).pending(),
            final(self).capacity() == old(self).capacity(),
            r@.to_multiset() == old(self).queue().contents(),
            exists|states: Seq<Q>|
                (#[trigger] drain_walk(states, r@)) && states[0] == old(self).queue(),
    {
        let mut replace_queue = self.current_queue.empty_copy();
        core::mem::swap(&mut replace_queue, &mut self.current_queue);
        let out = replace_queue.drain_all();
        proof {
            let states = choose|states: Seq<Q>|
                #![trigger states[0]]
                {
                    &&& states.len() == out@.len() + 1
                    &&& forall|i: int|
                        0 <= i < out@.len() ==> ((#[trigger] states[i]).valid() && states[i].peek_spec() == Some(out@[i]) && states[i + 1].contents() == states[i].contents().remove(out@[i]))
                    &&& states[0] == old(self).queue()
                    &&& states.last().contents().len() == 0
                };
            assert(drain_walk(states, out@) && states[0] == old(self).queue());
        }
        out
    }
}

/// The whole contract of one `next` call, as a relation between the stage
/// before, the stage after, and the pair handed out: the fill walk consumed
/// a prefix of the input, the result is the filled queue's own dequeue, and
/// an exhausted stage stays exhausted.
pub open spec fn pull_relation<T, Q: AbstractPriorityQueue<T>>(
    pre: Reordered<T, Q>,
    post: Reordered<T, Q>,
    r: Option<(T, u64)>,
) -> bool {
    &&& post.valid()
    &&& post.capacity() == pre.capacity()
    &&& exists|states: Seq<Q>, k: int|
        #![trigger states[0], pre.pending().take(k)]
        {
            &&& 0 <= k <= pre.pending().len()
            &&& fill_walk(states, pre.pending().take(k), pre.capacity())
            &&& states[0] == pre.queue()
            &&& post.pending() == pre.pending().skip(k)
            &&& (states.last().contents().len() >= pre.capacity() || k == pre.pending().len())
            &&& states.last().valid()
            &&& r == states.last().peek_spec()
            &&& match r {
                Some(pair) => post.queue().contents() == states.last().contents().remove(pair),
                None => post.queue().contents() == states.last().contents(),
            }
        }
    &&& r is None ==> post.queue().contents().len() == 0 && (post.pending().len() == 0
        || post.capacity() == 0)
    &&& pre.queue().contents().len() == 0 && pre.pending().len() == 0 ==> r is None
        && post.queue().contents().len() == 0 && post.pending().len() == 0
}

/// The whole contract of one `enqueue_now` call: input and capacity are
/// untouched, and the entry lands in the queue whole whenever the machine
/// limit leaves room.
pub open spec fn inject_relation<T, Q: AbstractPriorityQueue<T>>(
    pre: Reordered<T, Q>,
    post: Reordered<T, Q>,
    entry: Result<(T, u64), (Vec<T>, u64)>,
) -> bool {
    &&& post.valid()
    &&& post.pending() == pre.pending()
    &&& post.capacity() == pre.capacity()
    &&& (entry matches Ok(pair) ==> (pre.queue().contents().len() < usize::MAX
        ==> post.queue().contents() == pre.queue().enqueue_contents(pair.0, pair.1)))
    &&& (entry matches Err(batch) ==> (pre.queue().contents().len() + batch.0@.len() <= usize::MAX
        ==> post.queue().contents() == pre.queue().enqueue_batch_contents(batch.0@, batch.1)))
}

/// Anything that yields reorderable entries can be wrapped into a
/// `Reordered` stage directly.
pub trait Reorderable<T, Q: AbstractPriorityQueue<T>>: Sized {
    spec fn entries(self) -> Seq<Result<(T, u64), (Vec<T>, u64)>>;

    fn reorder(self, current_queue: Q, queue_capacity: usize) -> (r: Reordered<T, Q>)
        requires
            current_queue.valid(),
        ensures
            r.valid(),
            r.queue() == current_queue,
            r.pending() == self.entries(),
            r.capacity() == queue_capacity,
    ;
}

impl<T, Q: AbstractPriorityQueue<T>> Reorderable<T, Q> for Vec<Result<(T, u64), (Vec<T>, u64)>> {
    open spec fn entries(self) -> Seq<Result<(T, u64), (Vec<T>, u64)>> {
        self@
    }

    fn reorder(self, current_queue: Q, queue_capacity: usize) -> (r: Reordered<T, Q>) {
        Reordered::new(self, current_queue, queue_capacity)
    }
}

} // verus!
