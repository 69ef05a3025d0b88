use vstd::prelude::*;

verus! {

use vstd::multiset::Multiset;
use vstd::set_lib::lemma_map_size;
use crate::my_priority_queue::AbstractPriorityQueue;
use priority_queue::PriorityQueue;

broadcast use {
    vstd::seq_lib::group_to_multiset_ensures,
    vstd::multiset::group_multiset_axioms,
    vstd::multiset::group_multiset_properties,
    vstd::set_lib::group_set_properties,
};

#[verifier::external_type_specification]
#[verifier::external_body]
#[verifier::reject_recursive_types(I)]
#[verifier::reject_recursive_types(P)]
#[verifier::reject_recursive_types(H)]
pub struct ExPriorityQueue<I, P, H>(PriorityQueue<I, P, H>);

/// The concrete instantiation the verified code works with: `u64` items
/// carrying `u64` priorities.
pub type OrdinaryQueue = PriorityQueue<u64, u64>;

/// What a `priority_queue::PriorityQueue<u64, u64>` holds: a map from each
/// stored item to its current priority (the crate keeps items unique).
pub uninterp spec fn pq_contents(q: PriorityQueue<u64, u64>) -> Map<u64, u64>;

/// The `(item, priority)` pair at the root of the crate's heap: what `peek`
/// returns and what `pop` removes.
pub uninterp spec fn pq_front(q: PriorityQueue<u64, u64>) -> Option<(u64, u64)>;

/// Facts the crate maintains of every queue it hands out: the root pair is
/// stored and carries a maximal priority, and only an empty queue lacks one.
pub open spec fn pq_wf(q: PriorityQueue<u64, u64>) -> bool {
    &&& pq_contents(q).dom().finite()
    &&& match pq_front(q) {
        Some(kp) => pq_contents(q).contains_pair(kp.0, kp.1) && (forall|k2: u64|
            pq_contents(q).dom().contains(k2) ==> pq_contents(q)[k2] <= kp.1),
        None => pq_contents(q).dom() == Set::<u64>::empty(),
    }
}

/// Relies on `PriorityQueue::with_capacity`: a freshly built queue is empty.
#[verifier::external_body]
pub(crate) fn pq_with_capacity(capacity: usize) -> (r: OrdinaryQueue)
    ensures
        pq_wf(r),
        (pq_contents(r) == Map::<u64, u64>::empty()),
{
    PriorityQueue::with_capacity(capacity)
}

/// Relies on `PriorityQueue::len`: the number of stored items.
#[verifier::external_body]
pub(crate) fn pq_len(q: &PriorityQueue<u64, u64>) -> (r: usize)
    ensures
        r == pq_contents(*q).dom().len(),
{
    q.len()
}

/// Relies on `PriorityQueue::peek`: returns the root `(item, priority)` pair,
/// or `None` exactly when the queue is empty.
#[verifier::external_body]
pub(crate) fn pq_peek(q: &PriorityQueue<u64, u64>) -> (r: Option<(&u64, &u64)>)
    ensures
        match (r, pq_front(*q)) {
            (Some(rp), Some(kp)) => *rp.0 == kp.0 && *rp.1 == kp.1,
            (None, None) => true,
            _ => false,
        },
{
    q.peek()
}

/// Relies on `PriorityQueue::push`: inserts the item with the priority; if an
/// equal item was present its priority is replaced and the old one returned.
#[verifier::external_body]
pub(crate) fn pq_push(q: &mut PriorityQueue<u64, u64>, item: u64, priority: u64) -> (r: Option<u64>)
    requires
        pq_wf(*old(q)),
    ensures
        pq_wf(*final(q)),
        pq_contents(*final(q)) == pq_contents(*old(q)).insert(item, priority),
        r == (if pq_contents(*old(q)).dom().contains(item) {
            Some(pq_contents(*old(q))[item])
        } else {
            None::<u64>
        }),
{
    q.push(item, priority)
}

/// Relies on `PriorityQueue::pop`: removes and returns the root pair, the one
/// `peek` shows; an empty queue is left untouched.
#[verifier::external_body]
pub(crate) fn pq_pop(q: &mut PriorityQueue<u64, u64>) -> (r: Option<(u64, u64)>)
    requires
        pq_wf(*old(q)),
    ensures
        pq_wf(*final(q)),
        r == pq_front(*old(q)),
        match r {
            Some(kp) => pq_contents(*final(q)) == pq_contents(*old(q)).remove(kp.0),
            None => *final(q) == *old(q),
        },
{
    q.pop()
}

/// Relies on `PriorityQueue::get_priority`: the stored priority of the item,
/// or `None` when the item is absent.
#[verifier::external_body]
pub(crate) fn pq_get_priority(q: &PriorityQueue<u64, u64>, item: &u64) -> (r: Option<u64>)
    ensures
        r == (if pq_contents(*q).dom().contains(*item) {
            Some(pq_contents(*q)[*item])
        } else {
            None::<u64>
        }),
{
    q.get_priority(item).copied()
}

/// Relies on `PriorityQueue::change_priority`: replaces a present item's
/// priority and returns the old one; does nothing when the item is absent.
#[verifier::external_body]
pub(crate) fn pq_change_priority(
    q: &mut PriorityQueue<u64, u64>,
    item: &u64,
    new_priority: u64,
) -> (r: Option<u64>)
    requires
        pq_wf(*old(q)),
    ensures
        pq_wf(*final(q)),
        match r {
            Some(p) => pq_contents(*old(q)).dom().contains(*item)
                && p == pq_contents(*old(q))[*item]
                && pq_contents(*final(q)) == pq_contents(*old(q)).insert(*item, new_priority),
            None => !pq_contents(*old(q)).dom().contains(*item) && *final(q) == *old(q),
        },
{
    q.change_priority(item, new_priority)
}

/// A fresh oracle queue with room for the expected number of items: the one
/// public way for a verified caller to start with a well-formed empty heap.
pub fn ordinary_with_capacity(capacity: usize) -> (r: OrdinaryQueue)
    ensures
        r.valid(),
        r.contents() == Multiset::<(u64, u64)>::empty(),
{
    let q = pq_with_capacity(capacity);
    proof {
        lemma_pairs_of_len(pq_contents(q));
        assert(q.contents() =~= Multiset::<(u64, u64)>::empty());
    }
    q
}

/// Every item of a batch inserted into a priority map at one priority, in
/// order.
pub open spec fn map_insert_all(m: Map<u64, u64>, items: Seq<u64>, p: u64) -> Map<u64, u64>
    decreases items.len(),
{
    if items.len() == 0 {
        m
    } else {
        map_insert_all(m, items.drop_last(), p).insert(items.last(), p)
    }
}

/// The walk a run of pops makes: each step hands out the root pair of the
/// heap it leaves from, so the output lists successive dequeue results.
pub open spec fn pop_walk(states: Seq<OrdinaryQueue>, out: Seq<(u64, u64)>) -> bool {
    &&& states.len() == out.len() + 1
    &&& forall|i: int|
        0 <= i < out.len() ==> {
            &&& pq_wf(#[trigger] states[i])
            &&& pq_front(states[i]) == Some(out[i])
            &&& pq_contents(states[i + 1]) == pq_contents(states[i]).remove(out[i].0)
        }
}

/// The `(item, priority)` pairs of a priority map, one per item.
pub open spec fn pairs_of(m: Map<u64, u64>) -> Multiset<(u64, u64)> {
    Multiset::from_set(pair_set_of(m))
}

/// The set of `(item, priority)` pairs a priority map describes.
pub open spec fn pair_set_of(m: Map<u64, u64>) -> Set<(u64, u64)> {
    Set::new(|kv: (u64, u64)| m.contains_pair(kv.0, kv.1))
}

/// A multiset built from a finite set has one copy of each member.
pub proof fn lemma_from_set_counts(s: Set<(u64, u64)>)
    requires
        s.finite(),
    ensures
        forall|v: (u64, u64)| #[trigger]
            Multiset::from_set(s).count(v) == (if s.contains(v) {
                1nat
            } else {
                0nat
            }),
        Multiset::from_set(s).len() == s.len(),
    decreases s.len(),
{
    broadcast use vstd::multiset::group_multiset_axioms;

    let m = Map::new(|k: (u64, u64)| s.contains(k), |v: (u64, u64)| 1nat);
    assert(m.dom() == s);
    assert forall|v: (u64, u64)| #[trigger]
        Multiset::from_set(s).count(v) == (if s.contains(v) {
            1nat
        } else {
            0nat
        }) by {
        if s.contains(v) {
            assert(Multiset::from_map(m).count(v) == m[v]);
        }
    }
    if s.len() == 0 {
        assert(s == Set::<(u64, u64)>::empty());
        assert(Multiset::from_set(s) =~= Multiset::<(u64, u64)>::empty());
    } else {
        let v = s.choose();
        let s2 = s.remove(v);
        lemma_from_set_counts(s2);
        assert(Multiset::from_set(s) =~= Multiset::from_set(s2).insert(v));
    }
}

/// A priority map describes exactly as many pairs as it has items.
pub proof fn lemma_pairs_of_len(m: Map<u64, u64>)
    requires
        m.dom().finite(),
    ensures
        pair_set_of(m).finite(),
        pairs_of(m).len() == m.dom().len(),
        forall|kv: (u64, u64)| #[trigger]
            pairs_of(m).count(kv) == (if m.contains_pair(kv.0, kv.1) {
                1nat
            } else {
                0nat
            }),
{
    let f = |k: u64| (k, m[k]);
    assert(m.dom().map(f) =~= pair_set_of(m)) by {
        assert forall|kv: (u64, u64)| pair_set_of(m).contains(kv) implies m.dom().map(f).contains(
            kv,
        ) by {
            assert(m.dom().contains(kv.0) && f(kv.0) == kv);
        }
    }
    lemma_map_size(m.dom(), pair_set_of(m), f);
    lemma_from_set_counts(pair_set_of(m));
}

impl AbstractPriorityQueue<u64> for PriorityQueue<u64, u64> {
    open spec fn valid(&self) -> bool {
        pq_wf(*self)
    }

    open spec fn contents(&self) -> Multiset<(u64, u64)> {
        pairs_of(pq_contents(*self))
    }

    open spec fn peek_spec(&self) -> Option<(u64, u64)> {
        pq_front(*self)
    }

    open spec fn enqueue_contents(&self, new_obj: u64, new_obj_priority: u64) -> Multiset<
        (u64, u64),
    > {
        pairs_of(pq_contents(*self).insert(new_obj, new_obj_priority))
    }

    open spec fn enqueue_batch_contents(&self, new_batch: Seq<u64>, new_batch_priority: u64) -> Multiset<
        (u64, u64),
    > {
        pairs_of(map_insert_all(pq_contents(*self), new_batch, new_batch_priority))
    }

    proof fn lemma_batch_of_one(&self, new_obj: u64, new_obj_priority: u64) {
        let m = pq_contents(*self);
        assert(seq![new_obj].drop_last() =~= Seq::<u64>::empty());
        assert(map_insert_all(m, Seq::<u64>::empty(), new_obj_priority) == m);
        assert(map_insert_all(m, seq![new_obj], new_obj_priority) == m.insert(
            new_obj,
            new_obj_priority,
        ));
        assert(self.enqueue_batch_contents(seq![new_obj], new_obj_priority)
            == self.enqueue_contents(new_obj, new_obj_priority));
    }

    proof fn lemma_peek_in_contents(&self) {
        lemma_pairs_of_len(pq_contents(*self));
        match pq_front(*self) {
            Some(kp) => {
                assert(pairs_of(pq_contents(*self)).count(kp) == 1);
                assert(self.contents().contains(kp));
                assert(self.peek_spec() == Some(kp));
            },
            None => {
                assert(pq_contents(*self).dom().len() == 0);
                assert(self.contents().len() == 0);
            },
        }
    }

    fn empty_copy(&self) -> (r: Self) {
        let n = pq_len(self);
        let q = pq_with_capacity(n);
        proof {
            lemma_pairs_of_len(pq_contents(q));
            assert(q.contents() =~= Multiset::<(u64, u64)>::empty());
        }
        q
    }

    fn my_peek(&self) -> (r: Option<(&u64, &u64)>) {
        pq_peek(self)
    }

    fn my_enqueue(&mut self, new_obj: u64, new_obj_priority: u64) {
        pq_push(self, new_obj, new_obj_priority);
        proof {
            assert(pq_contents(*self) == pq_contents(*old(self)).insert(new_obj, new_obj_priority));
            assert(self.contents() == pairs_of(pq_contents(*self)));
            assert(old(self).enqueue_contents(new_obj, new_obj_priority) == pairs_of(
                pq_contents(*old(self)).insert(new_obj, new_obj_priority),
            ));
            let m = pq_contents(*old(self));
            lemma_pairs_of_len(m);
            lemma_pairs_of_len(m.insert(new_obj, new_obj_priority));
            assert(m.insert(new_obj, new_obj_priority).dom() == m.dom().insert(new_obj));
            if m.dom().contains(new_obj) {
                assert(m.dom().insert(new_obj) == m.dom());
            }
        }
    }

    fn enqueue_batch(&mut self, new_batch: Vec<u64>, new_batch_priority: u64) {
        let ghost m0 = pq_contents(*old(self));
        let ghost total = new_batch@;
        let mut batch = new_batch;
        let ghost mut done: int = 0;
        proof {
            assert(total.take(0) =~= Seq::<u64>::empty());
            assert(pq_contents(*self) == map_insert_all(m0, total.take(0), new_batch_priority));
            lemma_pairs_of_len(m0);
        }
        while batch.len() > 0
            invariant
                self.valid(),
                0 <= done <= total.len(),
                batch@ == total.skip(done),
                pq_contents(*self) == map_insert_all(m0, total.take(done), new_batch_priority),
                m0.dom().finite(),
                pq_contents(*self).dom().len() <= m0.dom().len() + done,
            decreases batch@.len(),
        {
            let item = batch.remove(0);
            proof {
                assert(item == total[done]);
                assert(batch@ =~= total.skip(done + 1));
                let m = pq_contents(*self);
                lemma_pairs_of_len(m);
                lemma_pairs_of_len(m.insert(item, new_batch_priority));
            }
            pq_push(self, item, new_batch_priority);
            proof {
                let mprev = map_insert_all(m0, total.take(done), new_batch_priority);
                assert(total.take(done + 1).drop_last() =~= total.take(done));
                assert(total.take(done + 1).last() == total[done]);
                assert(pq_contents(*self) == map_insert_all(
                    m0,
                    total.take(done + 1),
                    new_batch_priority,
                ));
                assert(pq_contents(*self).dom() == mprev.dom().insert(item));
                if mprev.dom().contains(item) {
                    assert(mprev.dom().insert(item) =~= mprev.dom());
                }
                done = done + 1;
            }
        }
        proof {
            assert(total.take(done) =~= total);
            lemma_pairs_of_len(pq_contents(*self));
            lemma_pairs_of_len(m0);
        }
    }

    fn my_dequeue(&mut self) -> (r: Option<(u64, u64)>) {
        let r = pq_pop(self);
        proof {
            let m = pq_contents(*old(self));
            assert(r == pq_front(*old(self)));
            assert(old(self).peek_spec() == pq_front(*old(self)));
            lemma_pairs_of_len(m);
            match r {
                Some(kp) => {
                    assert(m.contains_pair(kp.0, kp.1));
                    lemma_pairs_of_len(m.remove(kp.0));
                    assert(pairs_of(m.remove(kp.0)) =~= pairs_of(m).remove(kp));
                    assert(self.contents() == old(self).contents().remove(kp));
                },
                None => {},
            }
        }
        r
    }

    fn dequeue_batch(&mut self, around_how_many: usize, hard_limit: usize) -> (r: Vec<
        (u64, u64),
    >)
        ensures
            r@.len() == vstd::math::min(around_how_many as int, old(self).contents().len() as int),
            exists|states: Seq<OrdinaryQueue>|
                (#[trigger] pop_walk(states, r@)) && states[0] == *old(self) && states.last()
                    == *final(self),
    {
        let mut to_return: Vec<(u64, u64)> = Vec::new();
        let mut done = false;
        let ghost mut gstates: Seq<OrdinaryQueue> = seq![*old(self)];
        proof {
            assert(old(self).contents() =~= self.contents().add(to_return@.to_multiset()));
        }
        while !done && to_return.len() < around_how_many
            invariant
                self.valid(),
                old(self).contents() == self.contents().add(to_return@.to_multiset()),
                to_return@.len() <= around_how_many,
                done ==> self.contents().len() == 0,
                gstates.len() == to_return@.len() + 1,
                pop_walk(gstates, to_return@),
                gstates[0] == *old(self),
                gstates.last() == *self,
            decreases around_how_many - to_return@.len() + (if done {
                0int
            } else {
                1int
            }),
        {
            let ghost prev = *self;
            let put_in = pq_pop(self);
            match put_in {
                Some(pair) => {
                    proof {
                        prev.lemma_peek_in_contents();
                        let m = pq_contents(prev);
                        lemma_pairs_of_len(m);
                        assert(m.contains_pair(pair.0, pair.1));
                        lemma_pairs_of_len(m.remove(pair.0));
                        assert(pairs_of(m.remove(pair.0)) =~= pairs_of(m).remove(pair));
                    }
                    let ghost pre_ret = to_return@;
                    to_return.push(pair);
                    proof {
                        assert(to_return@.to_multiset() == pre_ret.to_multiset().insert(pair));
                        assert(old(self).contents() =~= self.contents().add(
                            to_return@.to_multiset(),
                        ));
                        let s2 = gstates.push(*self);
                        assert forall|i: int| 0 <= i < to_return@.len() implies {
                            &&& pq_wf(#[trigger] s2[i])
                            &&& pq_front(s2[i]) == Some(to_return@[i])
                            &&& pq_contents(s2[i + 1]) == pq_contents(s2[i]).remove(
                                to_return@[i].0,
                            )
                        } by {
                            if i < pre_ret.len() {
                                assert(s2[i] == gstates[i]);
                                assert(s2[i + 1] == gstates[i + 1]);
                                assert(to_return@[i] == pre_ret[i]);
                            } else {
                                assert(s2[i] == prev);
                                assert(s2[i + 1] == *self);
                                assert(to_return@[i] == pair);
                            }
                        }
                        gstates = s2;
                    }
                },
                None => {
                    proof {
                        prev.lemma_peek_in_contents();
                        lemma_pairs_of_len(pq_contents(prev));
                    }
                    done = true;
                },
            }
        }
        proof {
            broadcast use vstd::seq_lib::group_to_multiset_ensures;

            assert(pop_walk(gstates, to_return@) && gstates[0] == *old(self) && gstates.last()
                == *self);
            assert(old(self).contents().len() == self.contents().len()
                + to_return@.to_multiset().len());
        }
        to_return
    }

    fn my_len(&self) -> (r: usize) {
        proof {
            lemma_pairs_of_len(pq_contents(*self));
        }
        pq_len(self)
    }

    fn is_empty(&self) -> (r: bool) {
        proof {
            lemma_pairs_of_len(pq_contents(*self));
        }
        let n = pq_len(self);
        n == 0
    }
}

} // verus!
