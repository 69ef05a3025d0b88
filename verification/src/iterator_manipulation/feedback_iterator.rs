use vstd::prelude::*;

verus! {

use crate::my_priority_queue::AbstractPriorityQueue;
use crate::iterator_manipulation::reordered_iterator::Reordered;
use crate::iterator_manipulation::reordered_iterator::pull_relation;
use crate::iterator_manipulation::reordered_iterator::inject_relation;
use crate::iterator_manipulation::reordered_iterator::drain_walk;
use crate::iterator_manipulation::flushable_iterator::FlushableIterator;

/// What the post-processor decides about one pair pulled from the queue:
/// emit a finished value, push something back into the queue, or both.
pub enum FeedbackResult<Finished, T> {
    FinishedOnly(Finished),
    FinishedAndFeedOne(Finished, (T, u64)),
    FinishedAndFeedMany(Finished, (Vec<T>, u64)),
    JustFeedOne(T, u64),
    JustFeedMany(Vec<T>, u64),
}

/// What one turn of the feedback loop produced: a finished value, the end
/// of the stream, or only work fed back into the queue.
pub enum FeedbackStep<Finished> {
    Finished(Finished),
    Exhausted,
    FedBack,
}

/// The caller-supplied post-processing step of a feedback loop.
pub trait FeedbackProcessor<T, Finished>: Sized {
    /// Process one pair the queue released and decide what happens next.
    fn process(&mut self, item: T, priority: u64) -> FeedbackResult<Finished, T>;
}

/// Whether an outcome only feeds work back, emitting nothing.
pub open spec fn feeds_back<Finished, T>(o: FeedbackResult<Finished, T>) -> bool {
    o is JustFeedOne || o is JustFeedMany
}

/// Whether an outcome emits exactly the finished value `f`.
pub open spec fn finishes_with<Finished, T>(o: FeedbackResult<Finished, T>, f: Finished) -> bool {
    match o {
        FeedbackResult::FinishedOnly(g) => g == f,
        FeedbackResult::FinishedAndFeedOne(g, _) => g == f,
        FeedbackResult::FinishedAndFeedMany(g, _) => g == f,
        _ => false,
    }
}

/// What an outcome pushes back into the queue, as an injection entry.
pub open spec fn fed_entry<Finished, T>(o: FeedbackResult<Finished, T>) -> Option<
    Result<(T, u64), (Vec<T>, u64)>,
> {
    match o {
        FeedbackResult::FinishedOnly(_) => None,
        FeedbackResult::FinishedAndFeedOne(_, tp) => Some(Ok(tp)),
        FeedbackResult::FinishedAndFeedMany(_, b) => Some(Err(b)),
        FeedbackResult::JustFeedOne(t, p) => Some(Ok((t, p))),
        FeedbackResult::JustFeedMany(ts, p) => Some(Err((ts, p))),
    }
}

/// The finished values a run of outcomes emits, in order.
pub open spec fn finished_of<Finished, T>(
    outcomes: Seq<FeedbackResult<Finished, T>>,
) -> Seq<Finished>
    decreases outcomes.len(),
{
    if outcomes.len() == 0 {
        Seq::empty()
    } else {
        finished_of(outcomes.drop_last()) + (match outcomes.last() {
            FeedbackResult::FinishedOnly(f) => seq![f],
            FeedbackResult::FinishedAndFeedOne(f, _) => seq![f],
            FeedbackResult::FinishedAndFeedMany(f, _) => seq![f],
            _ => Seq::empty(),
        })
    }
}

/// One post-processing step over the wrapped stage: a pure emission changes
/// nothing, and anything fed back is injected whole.
pub open spec fn feed_step<T, Q: AbstractPriorityQueue<T>, Finished>(
    pre: Reordered<T, Q>,
    o: FeedbackResult<Finished, T>,
    post: Reordered<T, Q>,
) -> bool {
    match fed_entry(o) {
        None => post == pre,
        Some(entry) => inject_relation(pre, post, entry),
    }
}

/// One whole feedback turn over the wrapped stage: the stage pulled, the
/// processor decided `outcome`, fed work landed, and `step` reports what
/// happened — exhaustion carries no outcome, a finished step carries the
/// emitted value, a fed-back step a feed-only outcome.
pub open spec fn feedback_turn<T, Q: AbstractPriorityQueue<T>, Finished>(
    pre: Reordered<T, Q>,
    outcome: Option<FeedbackResult<Finished, T>>,
    post: Reordered<T, Q>,
    step: FeedbackStep<Finished>,
) -> bool {
    exists|mid: Reordered<T, Q>, pulled: Option<(T, u64)>|
        #![trigger pull_relation(pre, mid, pulled)]
        {
            &&& pull_relation(pre, mid, pulled)
            &&& match pulled {
                None => step is Exhausted && post == mid && outcome is None,
                Some(_) => match outcome {
                    None => false,
                    Some(o) => {
                        &&& feed_step(mid, o, post)
                        &&& match step {
                            FeedbackStep::Finished(f) => finishes_with(o, f),
                            FeedbackStep::FedBack => feeds_back(o),
                            FeedbackStep::Exhausted => false,
                        }
                    },
                },
            }
        }
}

/// A whole run of feedback turns: some feed-only turns walk the wrapped
/// stage, then the run closes — with a turn whose outcome emits the
/// returned value, with an exhausted pull, or with the patience grant
/// spent on one last feed-back turn.
pub open spec fn feedback_run<T, Q: AbstractPriorityQueue<T>, Finished>(
    pre: Reordered<T, Q>,
    post: Reordered<T, Q>,
    patience: usize,
    r: Option<Finished>,
) -> bool {
    exists|stages: Seq<Reordered<T, Q>>, fed: Seq<FeedbackResult<Finished, T>>|
        #![trigger stages[0], fed.len()]
        {
            &&& stages.len() == fed.len() + 1
            &&& stages[0] == pre
            &&& match r {
                Some(f) => {
                    &&& 1 <= fed.len() <= patience + 1
                    &&& forall|i: int| 0 <= i < fed.len() - 1 ==> feeds_back(#[trigger] fed[i])
                    &&& finishes_with(fed.last(), f)
                    &&& forall|i: int|
                        0 <= i < fed.len() ==> feedback_turn(
                            stages[i],
                            Some(#[trigger] fed[i]),
                            stages[i + 1],
                            if i == fed.len() - 1 {
                                FeedbackStep::<Finished>::Finished(f)
                            } else {
                                FeedbackStep::<Finished>::FedBack
                            },
                        )
                    &&& stages.last() == post
                },
                None => {
                    &&& forall|i: int|
                        0 <= i < fed.len() ==> (feeds_back(#[trigger] fed[i]) && feedback_turn(
                            stages[i],
                            Some(fed[i]),
                            stages[i + 1],
                            FeedbackStep::<Finished>::FedBack,
                        ))
                    &&& (fed.len() == patience + 1 && stages.last() == post) || (fed.len()
                        <= patience && feedback_turn(
                        stages.last(),
                        None::<FeedbackResult<Finished, T>>,
                        post,
                        FeedbackStep::<Finished>::Exhausted,
                    ))
                },
            }
        }
}

/// A reordering stage with a feedback loop: items leaving the queue are
/// post-processed, and the processor may hand finished values out, push
/// follow-up work back into the queue, or both.
pub struct Feedback<T, Q, F, Finished> {
    reordered_iterator: Reordered<T, Q>,
    processor: F,
    junk: core::marker::PhantomData<Finished>,
}

impl<T, Q: AbstractPriorityQueue<T>, Finished, F: FeedbackProcessor<T, Finished>> Feedback<
    T,
    Q,
    F,
    Finished,
> {
    /// The stage is usable whenever the wrapped reordering stage is.
    pub closed spec fn valid(&self) -> bool {
        self.reordered_iterator.valid()
    }

    /// The queue between the input and the post-processor.
    pub closed spec fn queue(&self) -> Q {
        self.reordered_iterator.queue()
    }

    /// The input entries not yet pulled.
    pub closed spec fn pending(&self) -> Seq<Result<(T, u64), (Vec<T>, u64)>> {
        self.reordered_iterator.pending()
    }

    /// The wrapped stage's capacity.
    pub closed spec fn capacity(&self) -> usize {
        self.reordered_iterator.capacity()
    }

    /// The wrapped reordering stage, whole.
    pub closed spec fn stage(&self) -> Reordered<T, Q> {
        self.reordered_iterator
    }

    pub fn new(
        to_feed_in: Vec<Result<(T, u64), (Vec<T>, u64)>>,
        current_queue: Q,
        queue_capacity: usize,
        processor: F,
    ) -> (r: Self)
        requires
            current_queue.valid(),
        ensures
            r.valid(),
            r.queue() == current_queue,
            r.pending() == to_feed_in@,
            r.capacity() == queue_capacity,
    {
        Feedback {
            reordered_iterator: Reordered::new(to_feed_in, current_queue, queue_capacity),
            processor,
            junk: core::marker::PhantomData,
        }
    }

    /// Continue with more input once the current input runs dry.
    pub fn chain_more(self, more_stuff: Vec<Result<(T, u64), (Vec<T>, u64)>>) -> (r: Self)
        requires
            self.valid(),
        ensures
            r.valid(),
            r.queue() == self.queue(),
            r.pending() == self.pending() + more_stuff@,
            r.capacity() == self.capacity(),
    {
        let Feedback { reordered_iterator, processor, junk } = self;
        Feedback {
            reordered_iterator: reordered_iterator.chain_more(more_stuff),
            processor,
            junk,
        }
    }

    /// Inject an entry straight into the queue, between pulls.  Whenever the
    /// machine limit leaves room, the entry lands in the queue whole.
    pub fn enqueue_now(&mut self, something_now: Result<(T, u64), (Vec<T>, u64)>)
        requires
            old(self).valid(),
        ensures
            final(self).valid(),
            final(self).pending() == old(self).pending(),
            final(self).capacity() == old(self).capacity(),
            something_now matches Ok(pair) ==> (old(self).queue().contents().len() < usize::MAX
                ==> final(self).queue().contents() == old(self).queue().enqueue_contents(
                pair.0,
                pair.1,
            )),
            something_now matches Err(batch) ==> (old(self).queue().contents().len()
                + batch.0@.len() <= usize::MAX ==> final(self).queue().contents() == old(
                self,
            ).queue().enqueue_batch_contents(batch.0@, batch.1)),
    {
        self.reordered_iterator.enqueue_now(something_now);
    }

    /// One turn of the loop: pull a pair from the reordering stage, if any,
    /// and post-process it.  Fed-back work lands in the queue before the
    /// call returns, so it is visible to later pulls.  On an already
    /// exhausted stage no processor call decides anything: the turn reports
    /// exhaustion and leaves the stage exhausted.
    pub fn next_step(&mut self) -> (r: FeedbackStep<Finished>)
        requires
            old(self).valid(),
        ensures
            final(self).valid(),
            final(self).capacity() == old(self).capacity(),
            exists|k: int|
                #![trigger old(self).pending().skip(k)]
                0 <= k <= old(self).pending().len() && final(self).pending() == old(
                    self,
                ).pending().skip(k),
            old(self).queue().contents().len() == 0 && old(self).pending().len() == 0 ==> r
                is Exhausted && final(self).queue().contents().len() == 0
                && final(self).pending().len() == 0,
            r is Exhausted ==> final(self).queue().contents().len() == 0
                && (final(self).pending().len() == 0 || final(self).capacity() == 0),
            exists|outcome: Option<FeedbackResult<Finished, T>>| #[trigger]
                feedback_turn(old(self).stage(), outcome, final(self).stage(), r),
    {
        let ghost pre_r = old(self).reordered_iterator;
        let got = self.reordered_iterator.next();
        let ghost mid_stage = self.reordered_iterator;
        proof {
            let k0 = choose|k: int|
                #![trigger pre_r.pending().skip(k)]
                0 <= k <= pre_r.pending().len() && self.reordered_iterator.pending()
                    == pre_r.pending().skip(k);
            assert(0 <= k0 <= old(self).pending().len() && self.pending() == old(
                self,
            ).pending().skip(k0));
            assert(pull_relation(old(self).stage(), mid_stage, got));
        }
        match got {
            None => {
                proof {
                    assert(feedback_turn(
                        old(self).stage(),
                        None::<FeedbackResult<Finished, T>>,
                        self.stage(),
                        FeedbackStep::<Finished>::Exhausted,
                    ));
                }
                FeedbackStep::Exhausted
            },
            Some(pair) => {
                let outcome = self.processor.process(pair.0, pair.1);
                let ghost oc = outcome;
                match outcome {
                    FeedbackResult::FinishedOnly(f) => {
                        proof {
                            assert(feed_step(mid_stage, oc, self.stage()));
                            assert(feedback_turn(
                                old(self).stage(),
                                Some(oc),
                                self.stage(),
                                FeedbackStep::<Finished>::Finished(f),
                            ));
                        }
                        FeedbackStep::Finished(f)
                    },
                    FeedbackResult::FinishedAndFeedOne(f, push_pair) => {
                        self.reordered_iterator.enqueue_now(Ok(push_pair));
                        proof {
                            assert(feed_step(mid_stage, oc, self.stage()));
                            assert(feedback_turn(
                                old(self).stage(),
                                Some(oc),
                                self.stage(),
                                FeedbackStep::<Finished>::Finished(f),
                            ));
                        }
                        FeedbackStep::Finished(f)
                    },
                    FeedbackResult::FinishedAndFeedMany(f, push_batch) => {
                        self.reordered_iterator.enqueue_now(Err(push_batch));
                        proof {
                            assert(feed_step(mid_stage, oc, self.stage()));
                            assert(feedback_turn(
                                old(self).stage(),
                                Some(oc),
                                self.stage(),
                                FeedbackStep::<Finished>::Finished(f),
                            ));
                        }
                        FeedbackStep::Finished(f)
                    },
                    FeedbackResult::JustFeedOne(item, priority) => {
                        self.reordered_iterator.enqueue_now(Ok((item, priority)));
                        proof {
                            assert(feed_step(mid_stage, oc, self.stage()));
                            assert(feedback_turn(
                                old(self).stage(),
                                Some(oc),
                                self.stage(),
                                FeedbackStep::<Finished>::FedBack,
                            ));
                        }
                        FeedbackStep::FedBack
                    },
                    FeedbackResult::JustFeedMany(items, priority) => {
                        self.reordered_iterator.enqueue_now(Err((items, priority)));
                        proof {
                            assert(feed_step(mid_stage, oc, self.stage()));
                            assert(feedback_turn(
                                old(self).stage(),
                                Some(oc),
                                self.stage(),
                                FeedbackStep::<Finished>::FedBack,
                            ));
                        }
                        FeedbackStep::FedBack
                    },
                }
            },
        }
    }

    /// Pull and post-process until a finished value appears or the stage
    /// runs dry.  Whether the loop ends at all is up to the processor, so
    /// the caller grants it a number of feed-back turns; `None` is returned
    /// when the stage is exhausted or the patience is spent.  The turn
    /// trace pins the run: some feed-only turns, then either a turn whose
    /// outcome emits the returned value, an exhausted pull, or the grant
    /// spent on the last feed-back turn.
    pub fn next(&mut self, patience: usize) -> (r: Option<Finished>)
        requires
            old(self).valid(),
        ensures
            final(self).valid(),
            final(self).capacity() == old(self).capacity(),
            exists|k: int|
                #![trigger old(self).pending().skip(k)]
                0 <= k <= old(self).pending().len() && final(self).pending() == old(
                    self,
                ).pending().skip(k),
            old(self).queue().contents().len() == 0 && old(self).pending().len() == 0 ==> r
                is None && final(self).queue().contents().len() == 0 && final(self).pending().len()
                == 0,
            feedback_run(old(self).stage(), final(self).stage(), patience, r),
    {
        let mut turns_left = patience;
        let ghost mut gstages: Seq<Reordered<T, Q>> = seq![old(self).stage()];
        let ghost mut gfed: Seq<FeedbackResult<Finished, T>> = Seq::empty();
        proof {
            assert(self.pending() == old(self).pending().skip(0));
        }
        loop
            invariant
                self.valid(),
                self.capacity() == old(self).capacity(),
                exists|k: int|
                    #![trigger old(self).pending().skip(k)]
                    0 <= k <= old(self).pending().len() && self.pending() == old(
                        self,
                    ).pending().skip(k),
                old(self).queue().contents().len() == 0 && old(self).pending().len() == 0
                    ==> self.queue().contents().len() == 0 && self.pending().len() == 0,
                gstages.len() == gfed.len() + 1,
                gstages[0] == old(self).stage(),
                gstages.last() == self.stage(),
                forall|i: int|
                    0 <= i < gfed.len() ==> (feeds_back(#[trigger] gfed[i]) && feedback_turn(
                        gstages[i],
                        Some(gfed[i]),
                        gstages[i + 1],
                        FeedbackStep::<Finished>::FedBack,
                    )),
                turns_left <= patience,
                gfed.len() == patience - turns_left,
            decreases turns_left,
        {
            let ghost pre = *self;
            let step = self.next_step();
            proof {
                let k1 = choose|k: int|
                    #![trigger old(self).pending().skip(k)]
                    0 <= k <= old(self).pending().len() && pre.pending() == old(
                        self,
                    ).pending().skip(k);
                let k2 = choose|k: int|
                    #![trigger pre.pending().skip(k)]
                    0 <= k <= pre.pending().len() && self.pending() == pre.pending().skip(k);
                assert(self.pending() =~= old(self).pending().skip(k1 + k2));
            }
            let ghost oc = choose|outcome: Option<FeedbackResult<Finished, T>>| #[trigger]
                feedback_turn(pre.stage(), outcome, self.stage(), step);
            match step {
                FeedbackStep::Finished(f) => {
                    proof {
                        assert(oc is Some && finishes_with(oc.unwrap(), f));
                        assert(feedback_turn(
                            gstages.last(),
                            Some(oc.unwrap()),
                            self.stage(),
                            FeedbackStep::<Finished>::Finished(f),
                        ));
                        let s2 = gstages.push(self.stage());
                        let f2 = gfed.push(oc.unwrap());
                        assert(s2[0] == gstages[0]);
                        assert(s2.last() == self.stage());
                        assert(f2.last() == oc.unwrap());
                        assert forall|i: int| 0 <= i < f2.len() - 1 implies feeds_back(
                            #[trigger] f2[i],
                        ) by {
                            assert(f2[i] == gfed[i]);
                        }
                        assert forall|i: int| 0 <= i < f2.len() implies feedback_turn(
                            s2[i],
                            Some(#[trigger] f2[i]),
                            s2[i + 1],
                            if i == f2.len() - 1 {
                                FeedbackStep::<Finished>::Finished(f)
                            } else {
                                FeedbackStep::<Finished>::FedBack
                            },
                        ) by {
                            if i < gfed.len() {
                                assert(s2[i] == gstages[i]);
                                assert(s2[i + 1] == gstages[i + 1]);
                                assert(f2[i] == gfed[i]);
                            } else {
                                assert(s2[i] == gstages.last());
                                assert(s2[i + 1] == self.stage());
                                assert(f2[i] == oc.unwrap());
                            }
                        }
                        assert(1 <= f2.len() <= patience + 1);
                        assert(feedback_run(old(self).stage(), self.stage(), patience, Some(f)));
                    }
                    return Some(f);
                },
                FeedbackStep::Exhausted => {
                    proof {
                        assert(oc is None);
                        assert(feedback_turn(
                            gstages.last(),
                            None::<FeedbackResult<Finished, T>>,
                            self.stage(),
                            FeedbackStep::<Finished>::Exhausted,
                        ));
                        assert(feedback_run(
                            old(self).stage(),
                            self.stage(),
                            patience,
                            None::<Finished>,
                        ));
                    }
                    return None;
                },
                FeedbackStep::FedBack => {
                    proof {
                        assert(oc is Some && feeds_back(oc.unwrap()));
                        let s2 = gstages.push(self.stage());
                        let f2 = gfed.push(oc.unwrap());
                        assert forall|i: int| 0 <= i < f2.len() implies (feeds_back(
                            #[trigger] f2[i],
                        ) && feedback_turn(
                            s2[i],
                            Some(f2[i]),
                            s2[i + 1],
                            FeedbackStep::<Finished>::FedBack,
                        )) by {
                            if i < gfed.len() {
                                assert(s2[i] == gstages[i]);
                                assert(s2[i + 1] == gstages[i + 1]);
                                assert(f2[i] == gfed[i]);
                            } else {
                                assert(s2[i] == gstages.last());
                                assert(s2[i + 1] == self.stage());
                                assert(f2[i] == oc.unwrap());
                            }
                        }
                        assert(s2[0] == gstages[0]);
                        assert(s2.last() == self.stage());
                        gstages = s2;
                        gfed = f2;
                    }
                    if turns_left == 0 {
                        proof {
                            assert(gfed.len() == patience + 1);
                            assert(gstages.last() == self.stage());
                            assert(gstages[0] == old(self).stage());
                            assert(gstages.len() == gfed.len() + 1);
                            assert(feedback_run(
                                old(self).stage(),
                                self.stage(),
                                patience,
                                None::<Finished>,
                            ));
                        }
                        return None;
                    }
                    turns_left = turns_left - 1;
                },
            }
        }
    }
}

impl<T, Q: AbstractPriorityQueue<T>, Finished, F: FeedbackProcessor<T, Finished>> FlushableIterator<
    Finished,
> for Feedback<T, Q, F, Finished> {
    open spec fn flush_ready(&self) -> bool {
        self.valid()
    }

    /// Drain the queue in dequeue order, post-process every drained pair,
    /// emit the finished values in order, and feed everything else back
    /// into the now-empty queue.  The trace pins it: one outcome per
    /// drained pair, the result is the outcomes' finished projection, and
    /// the final stage is the empty stage with exactly the fed-back
    /// entries injected, step by step.
    fn flush(&mut self) -> (r: Vec<Finished>)
        ensures
            final(self).valid(),
            final(self).pending() == old(self).pending(),
            final(self).capacity() == old(self).capacity(),
            r@.len() <= old(self).queue().contents().len(),
            old(self).queue().contents().len() == 0 ==> r@.len() == 0
                && final(self).queue().contents().len() == 0,
            exists|
                drained: Seq<(T, u64)>,
                outcomes: Seq<FeedbackResult<Finished, T>>,
                stages: Seq<Reordered<T, Q>>,
            |
                #![trigger drained.to_multiset(), outcomes.len(), stages[0]]
                {
                    &&& drained.to_multiset() == old(self).queue().contents()
                    &&& exists|ws: Seq<Q>|
                        (#[trigger] drain_walk(ws, drained)) && ws[0] == old(self).queue()
                    &&& outcomes.len() == drained.len()
                    &&& stages.len() == drained.len() + 1
                    &&& stages[0].queue().contents().len() == 0
                    &&& stages[0].pending() == old(self).pending()
                    &&& stages[0].capacity() == old(self).capacity()
                    &&& forall|i: int|
                        0 <= i < outcomes.len() ==> feed_step(
                            stages[i],
                            #[trigger] outcomes[i],
                            stages[i + 1],
                        )
                    &&& r@ == finished_of(outcomes)
                    &&& stages.last() == final(self).stage()
                },
    {
        let mut drained = self.reordered_iterator.flush();
        let ghost drained0 = drained@;
        let ghost mut gstages: Seq<Reordered<T, Q>> = seq![self.reordered_iterator];
        let ghost mut gouts: Seq<FeedbackResult<Finished, T>> = Seq::empty();
        let ghost mut done: int = 0;
        proof {
            broadcast use vstd::seq_lib::group_to_multiset_ensures;

            assert(drained@.to_multiset().len() == old(self).queue().contents().len());
            assert(finished_of(gouts) =~= Seq::<Finished>::empty());
        }
        let mut out: Vec<Finished> = Vec::new();
        while drained.len() > 0
            invariant
                self.valid(),
                self.pending() == old(self).pending(),
                self.capacity() == old(self).capacity(),
                out@.len() + drained@.len() <= old(self).queue().contents().len(),
                old(self).queue().contents().len() == 0 ==> self.queue().contents().len() == 0,
                0 <= done <= drained0.len(),
                drained@ == drained0.skip(done),
                gouts.len() == done,
                gstages.len() == done + 1,
                gstages[0].queue().contents().len() == 0,
                gstages[0].pending() == old(self).pending(),
                gstages[0].capacity() == old(self).capacity(),
                gstages.last() == self.stage(),
                forall|i: int|
                    0 <= i < gouts.len() ==> feed_step(
                        gstages[i],
                        #[trigger] gouts[i],
                        gstages[i + 1],
                    ),
                out@ == finished_of(gouts),
            decreases drained@.len(),
        {
            let pair = drained.remove(0);
            proof {
                assert(pair == drained0[done]);
                assert(drained@ =~= drained0.skip(done + 1));
            }
            let outcome = self.processor.process(pair.0, pair.1);
            let ghost oc = outcome;
            let ghost pre_stage = self.reordered_iterator;
            match outcome {
                FeedbackResult::FinishedOnly(f) => {
                    out.push(f);
                },
                FeedbackResult::FinishedAndFeedOne(f, push_pair) => {
                    self.reordered_iterator.enqueue_now(Ok(push_pair));
                    out.push(f);
                },
                FeedbackResult::FinishedAndFeedMany(f, push_batch) => {
                    self.reordered_iterator.enqueue_now(Err(push_batch));
                    out.push(f);
                },
                FeedbackResult::JustFeedOne(item, priority) => {
                    self.reordered_iterator.enqueue_now(Ok((item, priority)));
                },
                FeedbackResult::JustFeedMany(items, priority) => {
                    self.reordered_iterator.enqueue_now(Err((items, priority)));
                },
            }
            proof {
                assert(feed_step(pre_stage, oc, self.stage()));
                let s2 = gstages.push(self.stage());
                let o2 = gouts.push(oc);
                assert forall|i: int| 0 <= i < o2.len() implies feed_step(
                    s2[i],
                    #[trigger] o2[i],
                    s2[i + 1],
                ) by {
                    if i < gouts.len() {
                        assert(s2[i] == gstages[i]);
                        assert(s2[i + 1] == gstages[i + 1]);
                        assert(o2[i] == gouts[i]);
                    } else {
                        assert(s2[i] == pre_stage);
                        assert(s2[i + 1] == self.stage());
                        assert(o2[i] == oc);
                    }
                }
                assert(o2.drop_last() =~= gouts);
                assert(out@ =~= finished_of(o2));
                gstages = s2;
                gouts = o2;
                done = done + 1;
            }
        }
        proof {
            assert(drained0.skip(done).len() == 0);
            assert(done == drained0.len());
            let ws = choose|ws: Seq<Q>|
                (#[trigger] drain_walk(ws, drained0)) && ws[0] == old(self).queue();
            assert(drain_walk(ws, drained0) && ws[0] == old(self).queue());
            assert(drained0.to_multiset() == old(self).queue().contents() && gouts.len()
                == drained0.len() && gstages.len() == drained0.len() + 1 && out@ == finished_of(
                gouts,
            ) && gstages.last() == self.stage());
        }
        out
    }
}

} // verus!
