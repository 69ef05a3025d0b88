use vstd::prelude::*;

verus! {

use vstd::multiset::Multiset;
use crate::my_priority_queue::AbstractPriorityQueue;
use crate::israeli_priority::seq_pairs;

broadcast use {
    vstd::seq_lib::group_to_multiset_ensures,
    vstd::multiset::group_multiset_axioms,
    vstd::multiset::group_multiset_properties,
};

/// The trivial variant: a plain FIFO.  The priority handed to `my_enqueue`
/// is discarded and every stored pair carries priority zero, so dequeue
/// order is exactly insertion order.
pub struct NoPriorityQueue<T> {
    items: Vec<(T, u64)>,
}

impl<T> NoPriorityQueue<T> {
    pub fn new() -> (r: Self)
        ensures
            r.valid(),
            r.contents() == Multiset::<(T, u64)>::empty(),
    {
        proof {
            assert(Seq::<(T, u64)>::empty().to_multiset() =~= Multiset::<(T, u64)>::empty());
        }
        NoPriorityQueue { items: Vec::new() }
    }
}

impl<T> AbstractPriorityQueue<T> for NoPriorityQueue<T> {
    closed spec fn valid(&self) -> bool {
        true
    }

    closed spec fn contents(&self) -> Multiset<(T, u64)> {
        self.items@.to_multiset()
    }

    closed spec fn peek_spec(&self) -> Option<(T, u64)> {
        if self.items@.len() == 0 {
            None
        } else {
            Some(self.items@[0])
        }
    }

    open spec fn enqueue_contents(&self, new_obj: T, new_obj_priority: u64) -> Multiset<(T, u64)> {
        self.contents().insert((new_obj, 0u64))
    }

    open spec fn enqueue_batch_contents(&self, new_batch: Seq<T>, new_batch_priority: u64) -> Multiset<
        (T, u64),
    > {
        self.contents().add(seq_pairs(new_batch, 0u64))
    }

    proof fn lemma_batch_of_one(&self, new_obj: T, new_obj_priority: u64) {
        assert(seq![new_obj].map_values(|t: T| (t, 0u64)) =~= Seq::<(T, u64)>::empty().push(
            (new_obj, 0u64),
        ));
        assert(seq_pairs(seq![new_obj], 0u64) == Multiset::<(T, u64)>::empty().insert(
            (new_obj, 0u64),
        )) by {
            assert(Seq::<(T, u64)>::empty().to_multiset() =~= Multiset::<(T, u64)>::empty());
        }
        assert(self.contents().add(Multiset::<(T, u64)>::empty().insert((new_obj, 0u64)))
            =~= self.contents().insert((new_obj, 0u64)));
        assert(self.enqueue_batch_contents(seq![new_obj], new_obj_priority)
            == self.enqueue_contents(new_obj, new_obj_priority));
    }

    proof fn lemma_peek_in_contents(&self) {
        if self.items@.len() > 0 {
            assert(self.items@.contains(self.items@[0]));
        }
    }

    fn empty_copy(&self) -> (r: Self) {
        Self::new()
    }

    fn my_peek(&self) -> (r: Option<(&T, &u64)>) {
        if self.items.len() == 0 {
            None
        } else {
            let pair = &self.items[0];
            Some((&pair.0, &pair.1))
        }
    }

    fn my_enqueue(&mut self, new_obj: T, new_obj_priority: u64) {
        self.items.push((new_obj, 0u64));
        proof {
            assert(self.items@ == old(self).items@.push((new_obj, 0u64)));
            assert(self.items@.to_multiset()
                =~= old(self).items@.to_multiset().insert((new_obj, 0u64)));
            assert(self.items@.to_multiset()
                == old(self).items@.to_multiset().insert((new_obj, 0u64)));
            assert(self.contents() == old(self).enqueue_contents(new_obj, new_obj_priority));
        }
    }

    fn enqueue_batch(&mut self, new_batch: Vec<T>, new_batch_priority: u64) {
        let ghost total = new_batch@;
        let mut batch = new_batch;
        let ghost done: int = 0;
        proof {
            assert(self.items@ =~= old(self).items@ + total.take(0).map_values(
                |t: T| (t, 0u64),
            ));
        }
        while batch.len() > 0
            invariant
                0 <= done <= total.len(),
                batch@ == total.skip(done),
                self.items@ == old(self).items@ + total.take(done).map_values(|t: T| (t, 0u64)),
            decreases batch@.len(),
        {
            let item = batch.remove(0);
            proof {
                assert(item == total[done]);
                assert(batch@ =~= total.skip(done + 1));
            }
            self.items.push((item, 0u64));
            proof {
                assert(total.take(done + 1) =~= total.take(done).push(total[done]));
                assert(total.take(done + 1).map_values(|t: T| (t, 0u64)) =~= total.take(
                    done,
                ).map_values(|t: T| (t, 0u64)).push((total[done], 0u64)));
                assert(self.items@ =~= old(self).items@ + total.take(done + 1).map_values(
                    |t: T| (t, 0u64),
                ));
                done = done + 1;
            }
        }
        proof {
            assert(total.take(done) =~= total);
            assert(self.items@ == old(self).items@ + total.map_values(|t: T| (t, 0u64)));
            vstd::seq_lib::lemma_multiset_commutative(
                old(self).items@,
                total.map_values(|t: T| (t, 0u64)),
            );
        }
    }

    fn my_dequeue(&mut self) -> (r: Option<(T, u64)>) {
        if self.items.len() == 0 {
            None
        } else {
            let pair = self.items.remove(0);
            proof {
                assert(old(self).items@.contains(pair));
                assert(old(self).items@.remove(0).to_multiset()
                    == old(self).items@.to_multiset().remove(pair));
            }
            Some(pair)
        }
    }

    fn dequeue_batch(&mut self, around_how_many: usize, hard_limit: usize) -> (r: Vec<(T, u64)>)
        ensures
            r@.len() == vstd::math::min(around_how_many as int, old(self).contents().len() as int),
    {
        let mut to_return: Vec<(T, u64)> = Vec::new();
        proof {
            assert(old(self).contents() =~= self.contents().add(to_return@.to_multiset()));
        }
        while to_return.len() < around_how_many && self.items.len() > 0
            invariant
                old(self).contents() == self.contents().add(to_return@.to_multiset()),
                to_return@.len() <= around_how_many,
                self.items@.len() + to_return@.len() == old(self).items@.len(),
            decreases around_how_many - to_return@.len(),
        {
            let ghost pre_items = self.items@;
            let ghost pre_ret = to_return@;
            let pair = self.items.remove(0);
            to_return.push(pair);
            proof {
                assert(pre_items.contains(pair));
                assert(pre_items.remove(0).to_multiset() == pre_items.to_multiset().remove(pair));
                assert(to_return@.to_multiset() == pre_ret.to_multiset().insert(pair));
                assert(old(self).contents() =~= self.contents().add(to_return@.to_multiset()));
            }
        }
        to_return
    }

    fn my_len(&self) -> (r: usize) {
        self.items.len()
    }

    fn is_empty(&self) -> (r: bool) {
        self.items.len() == 0
    }
}

} // verus!
