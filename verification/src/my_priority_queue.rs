use vstd::prelude::*;

verus! {

use vstd::multiset::Multiset;

/// The pairs a run decomposition covers, in order.
pub open spec fn runs_flatten<T>(runs: Seq<(Seq<T>, u64)>) -> Seq<(T, u64)>
    decreases runs.len(),
{
    if runs.len() == 0 {
        Seq::empty()
    } else {
        runs_flatten(runs.drop_last()) + runs.last().0.map_values(
            |t: T| (t, runs.last().1),
        )
    }
}

/// The contract every queue variant honors.  A queue holds a multiset of
/// `(item, priority)` pairs; higher priority leaves first, with the exact
/// discipline (coarse buckets, dependency order, friend groups, plain FIFO)
/// chosen by the implementing type.  `peek_spec` names the pair the next
/// `my_dequeue` returns, so peeking and dequeuing are provably in agreement.
pub trait AbstractPriorityQueue<T>: Sized {
    /// The internal well-formedness of this queue.
    spec fn valid(&self) -> bool;

    /// The multiset of `(item, effective priority)` pairs currently held.
    spec fn contents(&self) -> Multiset<(T, u64)>;

    /// The pair the next `my_dequeue` would return.
    spec fn peek_spec(&self) -> Option<(T, u64)>;

    /// The contents after one item is enqueued.  Variants may do more than
    /// add the pair: a friend group may be re-prioritized, a duplicate item
    /// may be collapsed.
    spec fn enqueue_contents(&self, new_obj: T, new_obj_priority: u64) -> Multiset<(T, u64)>;

    /// The contents after a whole batch is enqueued at one priority.  As
    /// with `enqueue_contents`, a variant may do more than add the pairs: a
    /// batch of friends may fuse into one group, a duplicate item may be
    /// collapsed.
    spec fn enqueue_batch_contents(&self, new_batch: Seq<T>, new_batch_priority: u64) -> Multiset<
        (T, u64),
    >;

    /// A batch of one changes the queue exactly as a single enqueue does.
    proof fn lemma_batch_of_one(&self, new_obj: T, new_obj_priority: u64)
        requires
            self.valid(),
        ensures
            self.enqueue_batch_contents(seq![new_obj], new_obj_priority) == self.enqueue_contents(
                new_obj,
                new_obj_priority,
            ),
    ;

    /// A peeked pair is in the queue, and only an empty queue has nothing to peek.
    proof fn lemma_peek_in_contents(&self)
        requires
            self.valid(),
        ensures
            match self.peek_spec() {
                Some(tp) => self.contents().contains(tp),
                None => self.contents().len() == 0,
            },
    ;

    /// A queue configured like `self` but holding no items.
    fn empty_copy(&self) -> (r: Self)
        requires
            self.valid(),
        ensures
            r.valid(),
            r.contents() == Multiset::<(T, u64)>::empty(),
    ;

    /// What would `my_dequeue` give, without disturbing the queue.
    fn my_peek(&self) -> (r: Option<(&T, &u64)>)
        requires
            self.valid(),
        ensures
            match (r, self.peek_spec()) {
                (Some(tp), Some(sp)) => *tp.0 == sp.0 && *tp.1 == sp.1,
                (None, None) => true,
                _ => false,
            },
    ;

    /// Insert an item with the specified priority.  The length bound is a
    /// machine limit: no queue can hold more than `usize::MAX` items.
    fn my_enqueue(&mut self, new_obj: T, new_obj_priority: u64)
        requires
            old(self).valid(),
            old(self).contents().len() < usize::MAX,
        ensures
            final(self).valid(),
            final(self).contents() == old(self).enqueue_contents(new_obj, new_obj_priority),
            final(self).contents().len() <= old(self).contents().len() + 1,
            final(self).contents().len() >= old(self).contents().len(),
    ;

    /// Enqueue many items, all at the same priority; variants may fuse the
    /// batch instead of inserting one by one.
    fn enqueue_batch(&mut self, new_batch: Vec<T>, new_batch_priority: u64)
        requires
            old(self).valid(),
            old(self).contents().len() + new_batch@.len() <= usize::MAX,
        ensures
            final(self).valid(),
            final(self).contents() == old(self).enqueue_batch_contents(
                new_batch@,
                new_batch_priority,
            ),
            final(self).contents().len() <= old(self).contents().len() + new_batch@.len(),
    ;

    /// Enqueue pairs at possibly differing priorities; maximal runs of equal
    /// priority are handed to `enqueue_batch` at once, so every pair of the
    /// input is inserted, in order, run by run.
    fn enqueue_many(&mut self, new_obj_and_priorities: Vec<(T, u64)>)
        requires
            old(self).valid(),
            old(self).contents().len() + new_obj_and_priorities@.len() <= usize::MAX,
        ensures
            final(self).valid(),
            final(self).contents().len() <= old(self).contents().len()
                + new_obj_and_priorities@.len(),
            exists|states: Seq<Self>, runs: Seq<(Seq<T>, u64)>|
                #![trigger states[0], runs_flatten(runs)]
                {
                    &&& states.len() == runs.len() + 1
                    &&& forall|i: int|
                        0 <= i < runs.len() ==> {
                            &&& (#[trigger] states[i]).valid()
                            &&& runs[i].0.len() >= 1
                            &&& states[i + 1].contents() == states[i].enqueue_batch_contents(
                                runs[i].0,
                                runs[i].1,
                            )
                        }
                    &&& forall|i: int|
                        0 <= i < runs.len() - 1 ==> (#[trigger] runs[i]).1 != runs[i + 1].1
                    &&& states[0] == *old(self)
                    &&& states.last() == *final(self)
                    &&& runs_flatten(runs) == new_obj_and_priorities@
                },
    {
        let ghost total = new_obj_and_priorities@;
        let mut pairs = new_obj_and_priorities;
        let ghost mut gstates: Seq<Self> = seq![*old(self)];
        let ghost mut gruns: Seq<(Seq<T>, u64)> = Seq::empty();
        let ghost mut consumed: int = 0;
        proof {
            assert(runs_flatten(gruns) =~= total.take(0));
        }
        while pairs.len() > 0
            invariant
                self.valid(),
                0 <= consumed <= total.len(),
                pairs@ == total.skip(consumed),
                self.contents().len() + pairs@.len() <= old(self).contents().len() + total.len(),
                old(self).contents().len() + total.len() <= usize::MAX,
                forall|i: int|
                    0 <= i < gruns.len() ==> {
                        &&& (#[trigger] gstates[i]).valid()
                        &&& gruns[i].0.len() >= 1
                        &&& gstates[i + 1].contents() == gstates[i].enqueue_batch_contents(
                            gruns[i].0,
                            gruns[i].1,
                        )
                    },
                gstates.len() == gruns.len() + 1,
                gstates[0] == *old(self),
                gstates.last() == *self,
                runs_flatten(gruns) == total.take(consumed),
                forall|i: int|
                    0 <= i < gruns.len() - 1 ==> (#[trigger] gruns[i]).1 != gruns[i + 1].1,
                gruns.len() > 0 && pairs@.len() > 0 ==> pairs@[0].1 != gruns.last().1,
            decreases pairs@.len(),
        {
            let ghost outer_len = pairs@.len();
            let (first_item, run_priority) = pairs.remove(0);
            proof {
                assert((first_item, run_priority) == total[consumed]);
                assert(pairs@ =~= total.skip(consumed + 1));
            }
            let mut batch_to_send: Vec<T> = Vec::new();
            batch_to_send.push(first_item);
            let ghost pool = self.contents().len() + pairs@.len();
            proof {
                assert(batch_to_send@.map_values(|t: T| (t, run_priority)) =~= total.subrange(
                    consumed,
                    consumed + 1,
                ));
            }
            while pairs.len() > 0 && pairs[0].1 == run_priority
                invariant
                    batch_to_send@.len() >= 1,
                    self.valid(),
                    pairs@.len() < outer_len,
                    self.contents().len() + pairs@.len() + batch_to_send@.len() == pool + 1,
                    pool + 1 <= usize::MAX,
                    0 <= consumed,
                    consumed + batch_to_send@.len() <= total.len(),
                    pairs@ == total.skip(consumed + batch_to_send@.len()),
                    batch_to_send@.map_values(|t: T| (t, run_priority)) == total.subrange(
                        consumed,
                        consumed + batch_to_send@.len(),
                    ),
                decreases pairs@.len(),
            {
                let ghost blen = batch_to_send@.len() as int;
                let (next_item, _next_priority) = pairs.remove(0);
                proof {
                    assert((next_item, _next_priority) == total[consumed + blen]);
                    assert(pairs@ =~= total.skip(consumed + blen + 1));
                }
                batch_to_send.push(next_item);
                proof {
                    assert(_next_priority == run_priority);
                    assert(batch_to_send@.map_values(|t: T| (t, run_priority)) =~= total.subrange(
                        consumed,
                        consumed + blen + 1,
                    ));
                }
            }
            let ghost runseq = batch_to_send@;
            let ghost pre_state = *self;
            if batch_to_send.len() == 1 {
                let single = batch_to_send.pop().unwrap();
                proof {
                    assert(runseq =~= seq![single]);
                    pre_state.lemma_batch_of_one(single, run_priority);
                }
                self.my_enqueue(single, run_priority);
            } else {
                self.enqueue_batch(batch_to_send, run_priority);
            }
            proof {
                assert(self.contents() == pre_state.enqueue_batch_contents(runseq, run_priority));
                let s2 = gstates.push(*self);
                let r2 = gruns.push((runseq, run_priority));
                assert forall|i: int|
                    0 <= i < r2.len() - 1 implies (#[trigger] r2[i]).1 != r2[i + 1].1 by {
                    if i < gruns.len() - 1 {
                        assert(r2[i] == gruns[i] && r2[i + 1] == gruns[i + 1]);
                    } else {
                        assert(r2[i] == gruns.last());
                        assert(r2[i + 1] == (runseq, run_priority));
                    }
                }
                assert forall|i: int| 0 <= i < r2.len() implies {
                    &&& (#[trigger] s2[i]).valid()
                    &&& r2[i].0.len() >= 1
                    &&& s2[i + 1].contents() == s2[i].enqueue_batch_contents(r2[i].0, r2[i].1)
                } by {
                    if i < gruns.len() {
                        assert(s2[i] == gstates[i]);
                        assert(s2[i + 1] == gstates[i + 1]);
                        assert(r2[i] == gruns[i]);
                    } else {
                        assert(s2[i] == pre_state);
                        assert(s2[i + 1] == *self);
                        assert(r2[i] == (runseq, run_priority));
                    }
                }
                assert(r2.drop_last() =~= gruns);
                assert(runs_flatten(r2) == runs_flatten(gruns) + runseq.map_values(
                    |t: T| (t, run_priority),
                ));
                let newly = consumed + runseq.len();
                assert(runs_flatten(r2) =~= total.take(newly)) by {
                    assert(runseq.map_values(|t: T| (t, run_priority)) == total.subrange(
                        consumed,
                        newly,
                    ));
                    assert(total.take(consumed) + total.subrange(consumed, newly) =~= total.take(
                        newly,
                    ));
                }
                gstates = s2;
                gruns = r2;
                consumed = newly;
            }
        }
        proof {
            assert(total.take(consumed) =~= total);
            assert(gstates[0] == *old(self) && gstates.last() == *self && runs_flatten(gruns)
                == new_obj_and_priorities@);
        }
    }

    /// If nonempty, remove and return the next pair; the order depends on the
    /// variant's discipline.
    fn my_dequeue(&mut self) -> (r: Option<(T, u64)>)
        requires
            old(self).valid(),
        ensures
            final(self).valid(),
            r == old(self).peek_spec(),
            match r {
                Some(tp) => final(self).contents() == old(self).contents().remove(tp),
                None => final(self).contents() == old(self).contents() && final(self).peek_spec() == old(self).peek_spec(),
            },
    ;

    /// Remove between `min(len, around_how_many)` and `min(len, hard_limit)`
    /// pairs; a variant may overshoot `around_how_many` up to `hard_limit` to
    /// keep a semantic group intact.
    fn dequeue_batch(&mut self, around_how_many: usize, hard_limit: usize) -> (r: Vec<(T, u64)>)
        requires
            old(self).valid(),
            around_how_many <= hard_limit,
        ensures
            final(self).valid(),
            old(self).contents() == final(self).contents().add(r@.to_multiset()),
            r@.len() <= hard_limit,
            r@.len() >= vstd::math::min(around_how_many as int, old(self).contents().len() as int),
    ;

    /// How many pairs are present.
    fn my_len(&self) -> (r: usize)
        requires
            self.valid(),
        ensures
            r == self.contents().len(),
    ;

    /// Whether the queue holds nothing.
    fn is_empty(&self) -> (r: bool)
        requires
            self.valid(),
        ensures
            r == (self.contents().len() == 0),
    ;

    /// Dequeue everything currently present, in dequeue order; the queue
    /// stays usable.  The walk pins the order: each returned pair is the
    /// peek of the state its own dequeue left from.
    fn drain_all(&mut self) -> (r: Vec<(T, u64)>)
        requires
            old(self).valid(),
        ensures
            final(self).valid(),
            final(self).contents().len() == 0,
            r@.to_multiset() == old(self).contents(),
            exists|states: Seq<Self>|
                #![trigger states[0]]
                {
                    &&& states.len() == r@.len() + 1
                    &&& forall|i: int|
                        0 <= i < r@.len() ==> ((#[trigger] states[i]).valid() && states[i].peek_spec() == Some(r@[i]) && states[i + 1].contents() == states[i].contents().remove(r@[i]))
                    &&& states[0] == *old(self)
                    &&& states.last().contents().len() == 0
                },
    {
        broadcast use vstd::seq_lib::group_to_multiset_ensures;
        broadcast use vstd::multiset::group_multiset_axioms;
        broadcast use vstd::multiset::group_multiset_properties;

        let mut out: Vec<(T, u64)> = Vec::new();
        let ghost mut gstates: Seq<Self> = seq![*old(self)];
        proof {
            assert(out@.to_multiset() =~= Multiset::<(T, u64)>::empty());
            assert(old(self).contents() =~= self.contents().add(out@.to_multiset()));
        }
        loop
            invariant_except_break
                self.valid(),
                old(self).contents() == self.contents().add(out@.to_multiset()),
                gstates.len() == out@.len() + 1,
                forall|i: int|
                    0 <= i < out@.len() ==> ((#[trigger] gstates[i]).valid() && gstates[i].peek_spec() == Some(out@[i]) && gstates[i + 1].contents() == gstates[i].contents().remove(out@[i])),
                gstates[0] == *old(self),
                gstates.last() == *self,
            ensures
                self.valid(),
                self.contents().len() == 0,
                old(self).contents() == self.contents().add(out@.to_multiset()),
                gstates.len() == out@.len() + 1,
                forall|i: int|
                    0 <= i < out@.len() ==> ((#[trigger] gstates[i]).valid() && gstates[i].peek_spec() == Some(out@[i]) && gstates[i + 1].contents() == gstates[i].contents().remove(out@[i])),
                gstates[0] == *old(self),
                gstates.last().contents().len() == 0,
            decreases self.contents().len(),
        {
            let ghost prev = *self;
            let got = self.my_dequeue();
            match got {
                Some(pair) => {
                    proof {
                        prev.lemma_peek_in_contents();
                    }
                    let ghost pre_out = out@;
                    out.push(pair);
                    proof {
                        let s2 = gstates.push(*self);
                        assert forall|i: int| 0 <= i < out@.len() implies ((#[trigger] s2[
                        i]).valid() && s2[i].peek_spec() == Some(out@[i]) && s2[i + 1].contents()
                            == s2[i].contents().remove(out@[i])) by {
                            if i < pre_out.len() {
                                assert(s2[i] == gstates[i]);
                                assert(s2[i + 1] == gstates[i + 1]);
                                assert(out@[i] == pre_out[i]);
                            } else {
                                assert(s2[i] == prev);
                                assert(s2[i + 1] == *self);
                                assert(out@[i] == pair);
                            }
                        }
                        gstates = s2;
                        assert(out@ == pre_out.push(pair));
                        vstd::seq_lib::to_multiset_build(pre_out, pair);
                        assert(out@.to_multiset() == pre_out.to_multiset().insert(pair));
                        assert(prev.contents().count(pair) >= 1);
                        assert(old(self).contents() =~= self.contents().add(out@.to_multiset()));
                    }
                },
                None => {
                    proof {
                        prev.lemma_peek_in_contents();
                    }
                    break;
                },
            }
        }
        proof {
            assert(old(self).contents() =~= out@.to_multiset());
            assert(gstates[0] == *old(self) && gstates.last().contents().len() == 0);
        }
        out
    }

    /// Consume the queue and hand back the items alone: the first components
    /// of the drained pairs, in dequeue order — the walk below pins each
    /// drained pair to the peek of the state its dequeue left from.
    fn all_items_iter(self) -> (r: Vec<T>)
        requires
            self.valid(),
        ensures
            r@.len() == self.contents().len(),
            exists|ps: Seq<(T, u64)>, states: Seq<Self>|
                #![trigger ps.to_multiset(), states[0]]
                {
                    &&& ps.to_multiset() == self.contents()
                    &&& r@ == ps.map_values(|tp: (T, u64)| tp.0)
                    &&& states.len() == ps.len() + 1
                    &&& forall|i: int|
                        0 <= i < ps.len() ==> ((#[trigger] states[i]).valid() && states[i].peek_spec() == Some(ps[i]) && states[i + 1].contents() == states[i].contents().remove(ps[i]))
                    &&& states[0] == self
                },
    {
        let mut me = self;
        let mut pairs = me.drain_all();
        proof {
            broadcast use vstd::seq_lib::group_to_multiset_ensures;

            assert(pairs@.len() == self.contents().len());
        }
        let ghost drained = pairs@;
        let ghost total = pairs@.len();
        let ghost mut done: int = 0;
        let mut out: Vec<T> = Vec::new();
        proof {
            assert(out@ =~= drained.take(0).map_values(|tp: (T, u64)| tp.0));
        }
        while pairs.len() > 0
            invariant
                out@.len() + pairs@.len() == total,
                0 <= done <= drained.len(),
                pairs@ == drained.skip(done),
                out@ == drained.take(done).map_values(|tp: (T, u64)| tp.0),
            decreases pairs@.len(),
        {
            let (item, _priority) = pairs.remove(0);
            proof {
                assert((item, _priority) == drained[done]);
                assert(pairs@ =~= drained.skip(done + 1));
            }
            out.push(item);
            proof {
                assert(drained.take(done + 1) =~= drained.take(done).push(drained[done]));
                assert(out@ =~= drained.take(done + 1).map_values(|tp: (T, u64)| tp.0));
                done = done + 1;
            }
        }
        proof {
            assert(drained.take(done) =~= drained);
            let states = choose|states: Seq<Self>|
                #![trigger states[0]]
                {
                    &&& states.len() == drained.len() + 1
                    &&& forall|i: int|
                        0 <= i < drained.len() ==> ((#[trigger] states[i]).valid() && states[i].peek_spec() == Some(drained[i]) && states[i + 1].contents() == states[i].contents().remove(drained[i]))
                    &&& states[0] == self
                    &&& states.last().contents().len() == 0
                };
            assert(drained.to_multiset() == self.contents() && out@ == drained.map_values(
                |tp: (T, u64)| tp.0,
            ) && states.len() == drained.len() + 1 && states[0] == self);
        }
        out
    }
}

} // verus!
