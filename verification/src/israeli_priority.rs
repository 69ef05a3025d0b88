use vstd::prelude::*;

verus! {

use vstd::multiset::Multiset;
use std::collections::HashMap;
use priority_queue::PriorityQueue;
use crate::my_priority_queue::AbstractPriorityQueue;
use crate::ordinary_priority_queue::{
    pq_contents, pq_front, pq_wf, pq_with_capacity, pq_peek, pq_push, pq_pop, pq_get_priority,
    pq_change_priority,
};

broadcast use {
    vstd::seq_lib::group_to_multiset_ensures,
    vstd::multiset::group_multiset_axioms,
    vstd::multiset::group_multiset_properties,
    vstd::std_specs::hash::group_hash_axioms,
};

/// An item that can tell which friend group it belongs to: two items are
/// friends exactly when their shibboleths agree.
pub trait Friendly: Sized {
    /// The shibboleth, at the specification level.
    spec fn shibboleth_spec(&self) -> u64;

    /// Get the shibboleth.
    fn friendship_shibboleth(&self) -> (h: u64)
        ensures
            h == self.shibboleth_spec(),
    ;

    /// Use the shibboleths to determine whether two items are friends.
    fn is_friend(&self, other: &Self) -> (r: bool)
        ensures
            r == (self.shibboleth_spec() == other.shibboleth_spec()),
    {
        self.friendship_shibboleth() == other.friendship_shibboleth()
    }
}

/// How the priority of a group already in line and of a newly joining friend
/// merge.  The boolean reports whether the merged priority differs from the
/// current one.
pub trait PriorityCombiner: Sized + Copy {
    /// The merged priority, at the specification level.
    spec fn combine_spec(&self, current: u64, incoming: u64) -> u64;

    /// Merge; the flag is true exactly when the group's priority changes.
    fn combine(&self, current: &u64, incoming: &u64) -> (r: (bool, u64))
        ensures
            r.1 == self.combine_spec(*current, *incoming),
            r.0 == (self.combine_spec(*current, *incoming) != *current),
    ;
}

/// The default combiner: a group in line keeps the larger of its current
/// priority and a joining friend's priority, so one important member can pull
/// the whole group forward.
#[derive(Clone, Copy)]
pub struct MaxCombiner;

impl PriorityCombiner for MaxCombiner {
    open spec fn combine_spec(&self, current: u64, incoming: u64) -> u64 {
        if current < incoming {
            incoming
        } else {
            current
        }
    }

    fn combine(&self, current: &u64, incoming: &u64) -> (r: (bool, u64)) {
        if *current < *incoming {
            (true, *incoming)
        } else {
            (false, *current)
        }
    }
}

/// A priority folded through a combiner, one incoming priority at a time.
pub open spec fn combined_priority<C: PriorityCombiner>(c: C, start: u64, incoming: Seq<u64>) -> u64
    decreases incoming.len(),
{
    if incoming.len() == 0 {
        start
    } else {
        c.combine_spec(combined_priority(c, start, incoming.drop_last()), incoming.last())
    }
}

/// With the default combiner, the priority a group is served at equals the
/// greatest priority ever combined into it: the group's opening priority or
/// the largest one a late-joining friend brought.
pub proof fn lemma_default_combiner_serves_max(start: u64, incoming: Seq<u64>)
    ensures
        combined_priority(MaxCombiner, start, incoming) >= start,
        forall|i: int|
            0 <= i < incoming.len() ==> combined_priority(MaxCombiner, start, incoming)
                >= #[trigger] incoming[i],
        combined_priority(MaxCombiner, start, incoming) == start || incoming.contains(
            combined_priority(MaxCombiner, start, incoming),
        ),
    decreases incoming.len(),
{
    if incoming.len() > 0 {
        lemma_default_combiner_serves_max(start, incoming.drop_last());
        let prev = combined_priority(MaxCombiner, start, incoming.drop_last());
        let last = incoming.last();
        assert(incoming.contains(last));
        if prev != start && incoming.drop_last().contains(prev) {
            let i = choose|i: int|
                0 <= i < incoming.drop_last().len() && incoming.drop_last()[i] == prev;
            assert(incoming[i] == prev);
        }
        assert(forall|i: int|
            0 <= i < incoming.len() - 1 ==> #[trigger] incoming[i] == incoming.drop_last()[i]);
    }
}

/// A ready-made friendly item: a payload key tagged with the group it
/// belongs to.
#[derive(Clone, Copy, Debug, PartialEq, Eq, Structural)]
pub struct Keyed {
    pub key: u64,
    pub group: u64,
}

impl Friendly for Keyed {
    open spec fn shibboleth_spec(&self) -> u64 {
        self.group
    }

    fn friendship_shibboleth(&self) -> (h: u64) {
        self.group
    }
}

/// A never-empty list of friends: the first member plus the rest, in arrival
/// order.
pub(crate) struct FriendGroup<T> {
    head: T,
    rest: Vec<T>,
}

/// The members of a group, first member first.
pub(crate) closed spec fn grp_seq<T>(g: FriendGroup<T>) -> Seq<T> {
    seq![g.head] + g.rest@
}

impl<T> FriendGroup<T> {
    fn one(x: T) -> (r: Self)
        ensures
            grp_seq(r) == seq![x],
    {
        let r = FriendGroup { head: x, rest: Vec::new() };
        proof {
            assert(grp_seq(r) =~= seq![x]);
        }
        r
    }

    fn add_member(&mut self, x: T)
        ensures
            grp_seq(*final(self)) == grp_seq(*old(self)).push(x),
    {
        self.rest.push(x);
        proof {
            assert(grp_seq(*self) =~= grp_seq(*old(self)).push(x));
        }
    }

    /// Make a whole batch into one group, first member first.
    fn from_vec(items: Vec<T>) -> (r: Self)
        requires
            items@.len() >= 1,
        ensures
            grp_seq(r) == items@,
    {
        let mut items = items;
        let head = items.remove(0);
        let r = FriendGroup { head, rest: items };
        proof {
            assert(grp_seq(r) =~= items@.insert(0, head));
        }
        r
    }

    /// Append a whole batch of friends, in order.
    fn add_members(&mut self, items: Vec<T>)
        ensures
            grp_seq(*final(self)) == grp_seq(*old(self)) + items@,
    {
        let ghost total = items@;
        let mut rest = items;
        let ghost moved: int = 0;
        proof {
            assert(grp_seq(*self) =~= grp_seq(*old(self)) + total.take(0));
        }
        while rest.len() > 0
            invariant
                0 <= moved <= total.len(),
                rest@ == total.skip(moved),
                grp_seq(*self) == grp_seq(*old(self)) + total.take(moved),
            decreases rest@.len(),
        {
            let x = rest.remove(0);
            proof {
                assert(x == total[moved]);
                assert(rest@ =~= total.skip(moved + 1));
            }
            self.rest.push(x);
            proof {
                assert(grp_seq(*self) =~= (grp_seq(*old(self)) + total.take(moved)).push(x));
                assert(total.take(moved + 1) =~= total.take(moved).push(total[moved]));
                assert(grp_seq(*self) =~= grp_seq(*old(self)) + total.take(moved + 1));
                moved = moved + 1;
            }
        }
        proof {
            assert(total.take(moved) =~= total);
        }
    }

    fn size(&self) -> (r: usize)
        requires
            grp_seq(*self).len() <= usize::MAX,
        ensures
            r == grp_seq(*self).len(),
    {
        1 + self.rest.len()
    }

    /// Split off the first member; the remainder, if any, is still a group.
    fn take_first(self) -> (r: (T, Option<FriendGroup<T>>))
        ensures
            r.0 == grp_seq(self)[0],
            match r.1 {
                Some(g2) => grp_seq(g2) == grp_seq(self).drop_first() && grp_seq(self).len() >= 2,
                None => grp_seq(self).len() == 1,
            },
    {
        let FriendGroup { head, rest } = self;
        let mut rest = rest;
        if rest.len() == 0 {
            proof {
                assert(grp_seq(self) =~= seq![self.head]);
            }
            (head, None)
        } else {
            let new_head = rest.remove(0);
            let g2 = FriendGroup { head: new_head, rest };
            proof {
                assert(grp_seq(g2) =~= grp_seq(self).drop_first());
            }
            (head, Some(g2))
        }
    }
}

/// The pairs a member list contributes when served at one priority.
pub open spec fn seq_pairs<T>(s: Seq<T>, p: u64) -> Multiset<(T, u64)> {
    s.map_values(|t: T| (t, p)).to_multiset()
}

/// The grouping queue's whole abstract state: the group being served, the
/// order of the line, the waiting groups, and their current priorities.
pub struct GroupState<T> {
    pub serving: Option<(Seq<T>, u64)>,
    pub order: Seq<u64>,
    pub groups: Map<u64, Seq<T>>,
    pub prios: Map<u64, u64>,
}

/// The pairs an abstract state holds.
pub open spec fn state_contents<T>(st: GroupState<T>) -> Multiset<(T, u64)> {
    (match st.serving {
        Some(sp) => seq_pairs(sp.0, sp.1),
        None => Multiset::empty(),
    }).add(wait_pairs(st.order, st.groups, st.prios))
}

/// One enqueue, at the abstract level: join the friends already in line,
/// join the group being served, or open a new group at the back of the line.
pub open spec fn state_enqueue<T: Friendly, C: PriorityCombiner>(
    st: GroupState<T>,
    c: C,
    x: T,
    p: u64,
) -> GroupState<T> {
    let s = x.shibboleth_spec();
    if st.prios.dom().contains(s) {
        GroupState {
            serving: st.serving,
            order: st.order,
            groups: st.groups.insert(s, st.groups[s].push(x)),
            prios: st.prios.insert(s, c.combine_spec(st.prios[s], p)),
        }
    } else if st.serving is Some && st.serving.unwrap().0[0].shibboleth_spec() == s {
        GroupState {
            serving: Some(
                (st.serving.unwrap().0.push(x), c.combine_spec(st.serving.unwrap().1, p)),
            ),
            order: st.order,
            groups: st.groups,
            prios: st.prios,
        }
    } else {
        GroupState {
            serving: st.serving,
            order: st.order.push(s),
            groups: st.groups.insert(s, seq![x]),
            prios: st.prios.insert(s, p),
        }
    }
}

/// A whole single-shibboleth batch enqueued as one fused step: one combiner
/// call, one map update, under the same case analysis as a single enqueue.
pub open spec fn state_enqueue_fused<T: Friendly, C: PriorityCombiner>(
    st: GroupState<T>,
    c: C,
    batch: Seq<T>,
    p: u64,
) -> GroupState<T> {
    let s = batch[0].shibboleth_spec();
    if st.prios.dom().contains(s) {
        GroupState {
            serving: st.serving,
            order: st.order,
            groups: st.groups.insert(s, st.groups[s] + batch),
            prios: st.prios.insert(s, c.combine_spec(st.prios[s], p)),
        }
    } else if st.serving is Some && st.serving.unwrap().0[0].shibboleth_spec() == s {
        GroupState {
            serving: Some(
                (st.serving.unwrap().0 + batch, c.combine_spec(st.serving.unwrap().1, p)),
            ),
            order: st.order,
            groups: st.groups,
            prios: st.prios,
        }
    } else {
        GroupState {
            serving: st.serving,
            order: st.order.push(s),
            groups: st.groups.insert(s, batch),
            prios: st.prios.insert(s, p),
        }
    }
}

/// A mixed batch enqueued one member at a time, in order.
pub open spec fn state_enqueue_seq<T: Friendly, C: PriorityCombiner>(
    st: GroupState<T>,
    c: C,
    items: Seq<T>,
    p: u64,
) -> GroupState<T>
    decreases items.len(),
{
    if items.len() == 0 {
        st
    } else {
        state_enqueue_seq(state_enqueue(st, c, items[0], p), c, items.drop_first(), p)
    }
}

/// Whether every member of a list answers to the shibboleth `s`.
pub(crate) open spec fn all_shib<T: Friendly>(s: Seq<T>, shib: u64) -> bool {
    forall|i: int| 0 <= i < s.len() ==> #[trigger] s[i].shibboleth_spec() == shib
}

/// Are all items in that batch friends of each other?  Hands back the
/// first member's shibboleth either way.
fn are_all_friends<T: Friendly>(new_batch: &Vec<T>) -> (r: (bool, u64))
    requires
        new_batch@.len() >= 1,
    ensures
        r.1 == new_batch@[0].shibboleth_spec(),
        r.0 == all_shib(new_batch@, r.1),
{
    let the_shibboleth = new_batch[0].friendship_shibboleth();
    let n = new_batch.len();
    let mut k: usize = 1;
    while k < n
        invariant
            1 <= k <= n,
            n == new_batch@.len(),
            the_shibboleth == new_batch@[0].shibboleth_spec(),
            forall|i: int| 0 <= i < k ==> #[trigger] new_batch@[i].shibboleth_spec()
                == the_shibboleth,
        decreases n - k,
    {
        let same = new_batch[k].friendship_shibboleth() == the_shibboleth;
        if !same {
            return (false, the_shibboleth);
        }
        k += 1;
    }
    (true, the_shibboleth)
}

/// How many items wait in line, summed group by group.
pub open spec fn wait_sum<T>(order: Seq<u64>, gv: Map<u64, Seq<T>>) -> nat
    decreases order.len(),
{
    if order.len() == 0 {
        0
    } else {
        wait_sum(order.drop_last(), gv) + gv[order.last()].len()
    }
}

/// The pairs waiting in line: each group's members at the group's current
/// priority in the underlying queue.
pub open spec fn wait_pairs<T>(
    order: Seq<u64>,
    gv: Map<u64, Seq<T>>,
    prios: Map<u64, u64>,
) -> Multiset<(T, u64)>
    decreases order.len(),
{
    if order.len() == 0 {
        Multiset::empty()
    } else {
        wait_pairs(order.drop_last(), gv, prios).add(
            seq_pairs(gv[order.last()], prios[order.last()]),
        )
    }
}

/// The waiting pairs number exactly the waiting sum.
proof fn lemma_wait_len<T>(order: Seq<u64>, gv: Map<u64, Seq<T>>, prios: Map<u64, u64>)
    ensures
        wait_pairs(order, gv, prios).len() == wait_sum(order, gv),
    decreases order.len(),
{
    broadcast use vstd::seq_lib::group_to_multiset_ensures;
    broadcast use vstd::multiset::group_multiset_axioms;

    if order.len() > 0 {
        lemma_wait_len(order.drop_last(), gv, prios);
        let s = order.last();
        assert(gv[s].map_values(|t: T| (t, prios[s])).len() == gv[s].len());
    }
}

/// The waiting pairs and sum depend only on the groups and priorities of the
/// shibboleths actually in line.
proof fn lemma_wait_frame<T>(
    order: Seq<u64>,
    gv1: Map<u64, Seq<T>>,
    p1: Map<u64, u64>,
    gv2: Map<u64, Seq<T>>,
    p2: Map<u64, u64>,
)
    requires
        forall|s: u64| #[trigger] order.contains(s) ==> gv1[s] == gv2[s] && p1[s] == p2[s],
    ensures
        wait_pairs(order, gv1, p1) == wait_pairs(order, gv2, p2),
        wait_sum(order, gv1) == wait_sum(order, gv2),
    decreases order.len(),
{
    if order.len() > 0 {
        assert(order.contains(order.last()));
        assert forall|s: u64| #[trigger] order.drop_last().contains(s) implies gv1[s] == gv2[s]
            && p1[s] == p2[s] by {
            assert(order.contains(s));
        }
        lemma_wait_frame(order.drop_last(), gv1, p1, gv2, p2);
    }
}

/// Pulling one shibboleth out of the line splits off exactly its group.
#[verifier::rlimit(100)]
proof fn lemma_wait_extract<T>(order: Seq<u64>, gv: Map<u64, Seq<T>>, prios: Map<u64, u64>, s: u64)
    requires
        order.no_duplicates(),
        order.contains(s),
    ensures
        order.remove_value(s).no_duplicates(),
        !order.remove_value(s).contains(s),
        forall|x: u64| x != s ==> (order.remove_value(s).contains(x) <==> order.contains(x)),
        order.remove_value(s).len() == order.len() - 1,
        wait_pairs(order, gv, prios) == wait_pairs(order.remove_value(s), gv, prios).add(
            seq_pairs(gv[s], prios[s]),
        ),
        wait_sum(order, gv) == wait_sum(order.remove_value(s), gv) + gv[s].len(),
    decreases order.len(),
{
    broadcast use vstd::multiset::group_multiset_axioms;

    order.index_of_first_ensures(s);
    let i = order.index_of_first(s).unwrap();
    let rm = order.remove_value(s);
    assert(rm == order.remove(i));
    order.remove_ensures(i);
    assert(rm.len() == order.len() - 1);
    assert forall|x: u64| x != s implies (rm.contains(x) <==> order.contains(x)) by {
        if order.contains(x) {
            let j = choose|j: int| 0 <= j < order.len() && order[j] == x;
            if j < i {
                assert(rm[j] == x);
            } else {
                assert(j > i);
                assert(rm[j - 1] == x);
            }
        }
        if rm.contains(x) {
            let j = choose|j: int| 0 <= j < rm.len() && rm[j] == x;
            if j < i {
                assert(order[j] == x);
            } else {
                assert(order[j + 1] == x);
            }
        }
    }
    assert(!rm.contains(s)) by {
        if rm.contains(s) {
            let j = choose|j: int| 0 <= j < rm.len() && rm[j] == s;
            if j < i {
                assert(order[j] == s && order[i] == s);
            } else {
                assert(order[j + 1] == s && order[i] == s);
            }
        }
    }
    assert(rm.no_duplicates()) by {
        assert forall|a: int, b: int|
            0 <= a < rm.len() && 0 <= b < rm.len() && a != b implies rm[a] != rm[b] by {
            let a2: int = if a < i {
                a
            } else {
                a + 1
            };
            let b2: int = if b < i {
                b
            } else {
                b + 1
            };
            assert(rm[a] == order[a2] && rm[b] == order[b2]);
        }
    }
    if i == order.len() - 1 {
        assert(order.last() == s);
        assert(rm =~= order.drop_last());
    } else {
        let inner = order.drop_last();
        let last = order.last();
        assert(last != s) by {
            assert(order[order.len() - 1] == last && order[i] == s);
        }
        assert(inner.contains(s)) by {
            assert(inner[i] == s);
        }
        assert(inner.no_duplicates()) by {
            assert forall|a: int, b: int|
                0 <= a < inner.len() && 0 <= b < inner.len() && a != b implies inner[a]
                != inner[b] by {
                assert(inner[a] == order[a] && inner[b] == order[b]);
            }
        }
        lemma_wait_extract(inner, gv, prios, s);
        let rm2 = inner.remove_value(s);
        assert(inner.index_of_first(s) == Some(i)) by {
            inner.index_of_first_ensures(s);
            match inner.index_of_first(s) {
                Some(k) => {
                    assert(inner[k] == s && order[k] == s && order[i] == s);
                },
                None => {
                    assert(false);
                },
            }
        }
        assert(rm2 == inner.remove(i));
        inner.remove_ensures(i);
        assert(rm.drop_last() =~= rm2) by {
            assert forall|j: int| 0 <= j < rm.len() - 1 implies rm[j] == rm2[j] by {
                if j < i {
                    assert(rm[j] == order[j] && rm2[j] == inner[j] && inner[j] == order[j]);
                } else {
                    assert(rm[j] == order[j + 1] && rm2[j] == inner[j + 1]);
                    assert(inner[j + 1] == order[j + 1]);
                }
            }
        }
        assert(rm.last() == last) by {
            assert(rm[rm.len() - 1] == order[rm.len() as int]);
        }
        assert(wait_pairs(order, gv, prios) == wait_pairs(inner, gv, prios).add(
            seq_pairs(gv[last], prios[last]),
        ));
        assert(wait_pairs(rm, gv, prios) == wait_pairs(rm2, gv, prios).add(
            seq_pairs(gv[last], prios[last]),
        ));
        assert(wait_pairs(order, gv, prios) =~= wait_pairs(rm, gv, prios).add(
            seq_pairs(gv[s], prios[s]),
        ));
        assert(wait_sum(order, gv) == wait_sum(rm, gv) + gv[s].len());
    }
}

/// The walk a batch dequeue makes: each returned pair is the peek of the
/// queue state its own dequeue left from.  Groups are handed out member by
/// member along the walk, and an overshoot tail returns to the serving
/// slot, so the output order is exactly the successive-dequeue order.
pub open spec fn serve_walk<T: Friendly, C: PriorityCombiner>(
    states: Seq<IsraeliPriority<T, C>>,
    out: Seq<(T, u64)>,
) -> bool {
    &&& states.len() == out.len() + 1
    &&& forall|i: int|
        0 <= i < out.len() ==> ((#[trigger] states[i]).valid() && states[i].peek_spec() == Some(
            out[i],
        ) && states[i + 1].contents() == states[i].contents().remove(out[i]))
}

/// Extending a walk by one served pair.
proof fn lemma_serve_walk_push<T: Friendly, C: PriorityCombiner>(
    states: Seq<IsraeliPriority<T, C>>,
    out: Seq<(T, u64)>,
    mid: IsraeliPriority<T, C>,
    pair: (T, u64),
)
    requires
        serve_walk(states, out),
        states.last().valid(),
        states.last().peek_spec() == Some(pair),
        mid.contents() == states.last().contents().remove(pair),
    ensures
        serve_walk(states.push(mid), out.push(pair)),
{
    let s2 = states.push(mid);
    let o2 = out.push(pair);
    assert forall|i: int| 0 <= i < o2.len() implies ((#[trigger] s2[i]).valid() && s2[
    i].peek_spec() == Some(o2[i]) && s2[i + 1].contents() == s2[i].contents().remove(o2[i])) by {
        if i < out.len() {
            assert(s2[i] == states[i]);
            assert(s2[i + 1] == states[i + 1]);
            assert(o2[i] == out[i]);
        } else {
            assert(s2[i] == states.last());
            assert(s2[i + 1] == mid);
            assert(o2[i] == pair);
        }
    }
}

/// This is not quite the classical Israeli queue: a shibboleth replaces the
/// walk through the line looking for friends.  The underlying priority queue
/// orders the shibboleths, a map turns each shibboleth into its non-empty
/// list of waiting friends, and an optional serving group (the "foyer") holds
/// the friends currently being let in, who can still absorb late arrivals but
/// can no longer be overtaken.
pub struct IsraeliPriority<T, C> {
    underlying: PriorityQueue<u64, u64>,
    current_friend_group: Option<(FriendGroup<T>, u64)>,
    shibboleth_to_friends: HashMap<u64, FriendGroup<T>>,
    waiting_len: usize,
    priority_combiner: C,
    order: Ghost<Seq<u64>>,
}

impl<T: Friendly, C: PriorityCombiner> IsraeliPriority<T, C> {
    /// The waiting map at the level of member lists.
    pub(crate) closed spec fn gview(&self) -> Map<u64, Seq<T>> {
        Map::new(
            |s: u64| self.shibboleth_to_friends@.dom().contains(s),
            |s: u64| grp_seq(self.shibboleth_to_friends@[s]),
        )
    }

    /// The serving group's pairs.
    pub(crate) closed spec fn serving_pairs(&self) -> Multiset<(T, u64)> {
        match self.current_friend_group {
            Some((g, p)) => seq_pairs(grp_seq(g), p),
            None => Multiset::empty(),
        }
    }

    /// How many friends the serving group holds.
    pub(crate) closed spec fn serving_size(&self) -> nat {
        match self.current_friend_group {
            Some((g, p)) => grp_seq(g).len(),
            None => 0,
        }
    }

    /// The serving group's shibboleth (meaningful only when one is serving).
    pub(crate) closed spec fn serving_shib(&self) -> u64 {
        match self.current_friend_group {
            Some((g, p)) => g.head.shibboleth_spec(),
            None => 0,
        }
    }

    pub(crate) closed spec fn order_seq(&self) -> Seq<u64> {
        self.order@
    }

    /// The queue's abstract state.
    pub closed spec fn state(&self) -> GroupState<T> {
        GroupState {
            serving: match self.current_friend_group {
                Some(gp) => Some((grp_seq(gp.0), gp.1)),
                None => None,
            },
            order: self.order@,
            groups: self.gview(),
            prios: pq_contents(self.underlying),
        }
    }

    /// The combiner in use.
    pub closed spec fn combiner(&self) -> C {
        self.priority_combiner
    }

    /// The contents are exactly the abstract state's pairs.
    pub proof fn lemma_state_contents(&self)
        ensures
            state_contents(self.state()) == self.contents(),
    {
        match self.current_friend_group {
            Some(gp) => {
                assert(self.state().serving == Some((grp_seq(gp.0), gp.1)));
            },
            None => {
                assert(self.state().serving is None);
            },
        }
    }

    /// While a group is being served, the next dequeue takes its first
    /// member at the group's priority: no other group can be served first,
    /// whatever its priority.
    pub proof fn lemma_peek_of_serving(&self)
        requires
            self.valid(),
            self.state().serving is Some,
        ensures
            self.peek_spec() == Some(
                (self.state().serving.unwrap().0[0], self.state().serving.unwrap().1),
            ),
    {
        match self.current_friend_group {
            Some(gp) => {
                assert(self.state().serving == Some((grp_seq(gp.0), gp.1)));
            },
            None => {},
        }
    }

    /// Setup with capacity for the specified number of distinct friend
    /// groups; priorities merge through the default max combiner, so a
    /// high-priority member joining a group in line can pull that whole group
    /// forward.
    pub fn with_capacity(capacity: usize) -> (r: IsraeliPriority<T, MaxCombiner>)
        ensures
            r.valid(),
            r.contents() == Multiset::<(T, u64)>::empty(),
            r.combiner() == MaxCombiner,
            !r.is_serving(),
    {
        let r = IsraeliPriority {
            underlying: pq_with_capacity(capacity),
            current_friend_group: None,
            shibboleth_to_friends: HashMap::new(),
            waiting_len: 0,
            priority_combiner: MaxCombiner,
            order: Ghost(Seq::empty()),
        };
        proof {
            assert(pq_contents(r.underlying).dom() =~= r.shibboleth_to_friends@.dom());
        }
        r
    }

    /// Whether a friend group is being let in right now.
    pub closed spec fn is_serving(&self) -> bool {
        self.current_friend_group is Some
    }

    /// Whether a friend group is being let in right now.
    pub fn has_serving_group(&self) -> (r: bool)
        ensures
            r == self.is_serving(),
    {
        match &self.current_friend_group {
            Some(gp) => true,
            None => false,
        }
    }

    /// Provide a different way for priorities to combine when a portion of a
    /// friend group is already in line and a new friend joins it.
    pub fn change_combiner(&mut self, new_combiner: C)
        requires
            old(self).valid(),
        ensures
            final(self).valid(),
            final(self).contents() == old(self).contents(),
            final(self).combiner() == new_combiner,
    {
        self.priority_combiner = new_combiner;
        proof {
            assert(self.gview() =~= old(self).gview());
        }
    }

    /// Either a batch of friends is already going in: hand them all out with
    /// their shared priority.  Otherwise promote the next group in line and
    /// hand that out whole.
    fn israeli_dequeue_batch(&mut self) -> (r: Option<(FriendGroup<T>, u64)>)
        requires
            old(self).valid(),
        ensures
            final(self).valid(),
            final(self).current_friend_group is None,
            match r {
                Some(gp) => {
                    &&& grp_seq(gp.0).len() >= 1
                    &&& old(self).peek_spec() == Some((grp_seq(gp.0)[0], gp.1))
                    &&& all_shib(grp_seq(gp.0), gp.0.head.shibboleth_spec())
                    &&& !final(self).gview().dom().contains(gp.0.head.shibboleth_spec())
                    &&& old(self).contents() == final(self).contents().add(
                        seq_pairs(grp_seq(gp.0), gp.1),
                    )
                    &&& old(self).contents().len() == final(self).contents().len() + grp_seq(
                        gp.0,
                    ).len()
                },
                None => *final(self) == *old(self) && old(self).contents().len() == 0 && old(
                    self,
                ).peek_spec() is None,
            },
    {
        proof {
            lemma_wait_len(self.order@, self.gview(), pq_contents(self.underlying));
        }
        let taken = self.current_friend_group.take();
        match taken {
            Some((g, p)) => {
                proof {
                    assert(self.gview() =~= old(self).gview());
                    assert(grp_seq(g)[0] == g.head);
                    assert(old(self).peek_spec() == Some((grp_seq(g)[0], p)));
                    assert(old(self).contents() =~= self.contents().add(seq_pairs(grp_seq(g), p)));
                    assert(seq_pairs(grp_seq(g), p).len() == grp_seq(g).len());
                }
                Some((g, p))
            },
            None => {
                let popped = pq_pop(&mut self.underlying);
                match popped {
                    None => {
                        proof {
                            assert(pq_contents(self.underlying).dom().len() == 0);
                            assert(self.order@.len() == 0) by {
                                if self.order@.len() > 0 {
                                    assert(self.order@.contains(self.order@.last()));
                                }
                            }
                            assert(self.contents().len() == 0);
                            assert(*self == *old(self));
                            assert(pq_front(old(self).underlying) is None);
                            assert(old(self).peek_spec() is None);
                        }
                        None
                    },
                    Some((s, p)) => {
                        proof {
                            assert(pq_contents(old(self).underlying).dom().contains(s)) by {
                                assert(pq_contents(old(self).underlying).contains_pair(s, p));
                            }
                        }
                        let grp = match self.shibboleth_to_friends.remove(&s) {
                            Some(grp) => grp,
                            None => {
                                proof {
                                    assert(false);
                                }
                                vstd::pervasive::unreached()
                            },
                        };
                        proof {
                            lemma_wait_extract(
                                self.order@,
                                old(self).gview(),
                                pq_contents(old(self).underlying),
                                s,
                            );
                            self.order@ = self.order@.remove_value(s);
                        }
                        proof {
                            assert(grp_seq(grp).len() <= usize::MAX) by {
                                assert(old(self).gview()[s] == grp_seq(grp));
                            }
                        }
                        let n = grp.size();
                        self.waiting_len = self.waiting_len - n;
                        proof {
                            let ogv = old(self).gview();
                            let opq = pq_contents(old(self).underlying);
                            assert(self.gview() =~= ogv.remove(s));
                            assert forall|x: u64| #[trigger] self.order@.contains(x) implies self
                                .gview()[x] == ogv[x] && pq_contents(self.underlying)[x]
                                == opq[x] by {
                                assert(x != s);
                            }
                            lemma_wait_frame(
                                self.order@,
                                self.gview(),
                                pq_contents(self.underlying),
                                ogv,
                                opq,
                            );
                            lemma_wait_len(self.order@, self.gview(), pq_contents(self.underlying));
                            assert(opq[s] == p);
                            assert(ogv[s] == grp_seq(grp));
                            assert(old(self).contents() =~= self.contents().add(
                                seq_pairs(grp_seq(grp), p),
                            ));
                            assert(seq_pairs(grp_seq(grp), p).len() == grp_seq(grp).len()) by {
                                assert(grp_seq(grp).map_values(|t: T| (t, p)).len() == grp_seq(
                                    grp,
                                ).len());
                            }
                            assert(pq_contents(self.underlying).dom()
                                =~= self.shibboleth_to_friends@.dom());
                            assert(self.shibboleth_to_friends@.dom() =~= ogv.dom().remove(s));
                            assert forall|x: u64| #[trigger] self.order@.contains(x) implies self
                                .shibboleth_to_friends@.dom().contains(x) by {
                                assert(x != s);
                                assert(old(self).order@.contains(x));
                                assert(ogv.dom().contains(x));
                            }
                            assert forall|x: u64| #[trigger] self.shibboleth_to_friends@.dom(
                            ).contains(x) implies self.order@.contains(x) by {
                                assert(x != s);
                                assert(ogv.dom().contains(x));
                                assert(old(self).order@.contains(x));
                            }
                            self.lemma_serving_len();
                            old(self).lemma_serving_len();
                            assert(grp_seq(grp)[0] == grp.head);
                            assert(pq_front(old(self).underlying) == Some((s, p)));
                            assert(old(self).peek_spec() == Some((grp_seq(grp)[0], p)));
                        }
                        Some((grp, p))
                    },
                }
            },
        }
    }
}

impl<T: Friendly> Default for IsraeliPriority<T, MaxCombiner> {
    /// A small queue with the default max combiner.
    fn default() -> (r: Self)
        ensures
            r.valid(),
            r.contents() == Multiset::<(T, u64)>::empty(),
    {
        IsraeliPriority::<T, MaxCombiner>::with_capacity(8)
    }
}

impl<T: Friendly, C: PriorityCombiner> AbstractPriorityQueue<T> for IsraeliPriority<T, C> {
    closed spec fn valid(&self) -> bool {
        let m = self.shibboleth_to_friends@;
        let pq = pq_contents(self.underlying);
        let ord = self.order@;
        &&& pq_wf(self.underlying)
        &&& pq.dom() == m.dom()
        &&& ord.no_duplicates()
        &&& (forall|s: u64| ord.contains(s) <==> m.dom().contains(s))
        &&& (forall|s: u64| m.dom().contains(s) ==> all_shib(#[trigger] self.gview()[s], s))
        &&& (forall|s: u64| m.dom().contains(s) ==> (#[trigger] self.gview()[s]).len() >= 1)
        &&& self.waiting_len == wait_sum(ord, self.gview())
        &&& match self.current_friend_group {
            Some(gp) => all_shib(grp_seq(gp.0), gp.0.head.shibboleth_spec()) && !m.dom().contains(
                gp.0.head.shibboleth_spec(),
            ),
            None => true,
        }
        &&& self.serving_size() + self.waiting_len <= usize::MAX
    }

    closed spec fn contents(&self) -> Multiset<(T, u64)> {
        self.serving_pairs().add(
            wait_pairs(self.order@, self.gview(), pq_contents(self.underlying)),
        )
    }

    closed spec fn peek_spec(&self) -> Option<(T, u64)> {
        match self.current_friend_group {
            Some(gp) => Some((grp_seq(gp.0)[0], gp.1)),
            None => match pq_front(self.underlying) {
                None => None,
                Some(sp) => Some((self.gview()[sp.0][0], sp.1)),
            },
        }
    }

    closed spec fn enqueue_contents(&self, new_obj: T, new_obj_priority: u64) -> Multiset<
        (T, u64),
    > {
        let s = new_obj.shibboleth_spec();
        let pq = pq_contents(self.underlying);
        if pq.dom().contains(s) {
            let np = self.priority_combiner.combine_spec(pq[s], new_obj_priority);
            self.serving_pairs().add(
                wait_pairs(
                    self.order@,
                    self.gview().insert(s, self.gview()[s].push(new_obj)),
                    pq.insert(s, np),
                ),
            )
        } else if self.current_friend_group is Some && self.serving_shib() == s {
            let gp = self.current_friend_group.unwrap();
            seq_pairs(
                grp_seq(gp.0).push(new_obj),
                self.priority_combiner.combine_spec(gp.1, new_obj_priority),
            ).add(wait_pairs(self.order@, self.gview(), pq))
        } else {
            self.serving_pairs().add(
                wait_pairs(
                    self.order@.push(s),
                    self.gview().insert(s, seq![new_obj]),
                    pq.insert(s, new_obj_priority),
                ),
            )
        }
    }

    closed spec fn enqueue_batch_contents(&self, new_batch: Seq<T>, new_batch_priority: u64) -> Multiset<
        (T, u64),
    > {
        if new_batch.len() == 0 {
            self.contents()
        } else if all_shib(new_batch, new_batch[0].shibboleth_spec()) {
            state_contents(
                state_enqueue_fused(self.state(), self.combiner(), new_batch, new_batch_priority),
            )
        } else {
            state_contents(
                state_enqueue_seq(self.state(), self.combiner(), new_batch, new_batch_priority),
            )
        }
    }

    proof fn lemma_batch_of_one(&self, new_obj: T, new_obj_priority: u64) {
        let st = self.state();
        let c = self.combiner();
        let b = seq![new_obj];
        let s = new_obj.shibboleth_spec();
        assert(all_shib(b, b[0].shibboleth_spec()));
        let fused = state_enqueue_fused(st, c, b, new_obj_priority);
        let single = state_enqueue(st, c, new_obj, new_obj_priority);
        if st.prios.dom().contains(s) {
            assert(st.groups[s] + b =~= st.groups[s].push(new_obj));
            assert(fused.groups == single.groups);
            assert(fused == single);
        } else if st.serving is Some && st.serving.unwrap().0[0].shibboleth_spec() == s {
            assert(st.serving.unwrap().0 + b =~= st.serving.unwrap().0.push(new_obj));
            assert(fused.serving == single.serving);
            assert(fused == single);
        } else {
            assert(fused == single);
        }
        self.lemma_state_contents();
        assert(state_contents(single) == self.enqueue_contents(new_obj, new_obj_priority)) by {
            let pq = pq_contents(self.underlying);
            if pq.dom().contains(s) {
                assert(single.serving == st.serving);
                match self.current_friend_group {
                    Some(gp) => {
                        assert(state_contents(single) == seq_pairs(grp_seq(gp.0), gp.1).add(
                            wait_pairs(single.order, single.groups, single.prios),
                        ));
                    },
                    None => {},
                }
            } else if self.current_friend_group is Some && self.serving_shib() == s {
                let gp = self.current_friend_group.unwrap();
                assert(st.serving.unwrap().0[0] == grp_seq(gp.0)[0]);
                assert(grp_seq(gp.0)[0] == gp.0.head);
            } else {
                match self.current_friend_group {
                    Some(gp) => {
                        assert(st.serving.unwrap().0[0] == gp.0.head);
                        assert(self.serving_shib() == gp.0.head.shibboleth_spec());
                        assert(state_contents(single) == seq_pairs(grp_seq(gp.0), gp.1).add(
                            wait_pairs(single.order, single.groups, single.prios),
                        ));
                    },
                    None => {},
                }
            }
        }
        assert(self.enqueue_batch_contents(b, new_obj_priority) == self.enqueue_contents(
            new_obj,
            new_obj_priority,
        ));
        assert(self.enqueue_batch_contents(seq![new_obj], new_obj_priority)
            == self.enqueue_contents(new_obj, new_obj_priority));
    }

    proof fn lemma_peek_in_contents(&self) {
        lemma_wait_len(self.order@, self.gview(), pq_contents(self.underlying));
        match self.current_friend_group {
            Some(gp) => {
                let sq = grp_seq(gp.0);
                assert(sq.map_values(|t: T| (t, gp.1))[0] == (sq[0], gp.1));
                assert(sq.map_values(|t: T| (t, gp.1)).contains((sq[0], gp.1)));
                assert(self.serving_pairs().count((sq[0], gp.1)) > 0);
            },
            None => {
                match pq_front(self.underlying) {
                    None => {
                        assert(self.order@.len() == 0) by {
                            if self.order@.len() > 0 {
                                assert(self.order@.contains(self.order@.last()));
                            }
                        }
                    },
                    Some(sp) => {
                        let s = sp.0;
                        assert(pq_contents(self.underlying).dom().contains(s));
                        assert(self.order@.contains(s));
                        lemma_wait_extract(
                            self.order@,
                            self.gview(),
                            pq_contents(self.underlying),
                            s,
                        );
                        let sq = self.gview()[s];
                        assert(pq_contents(self.underlying)[s] == sp.1);
                        assert(sq.map_values(|t: T| (t, sp.1))[0] == (sq[0], sp.1));
                        assert(sq.map_values(|t: T| (t, sp.1)).contains((sq[0], sp.1)));
                        assert(seq_pairs(sq, sp.1).count((sq[0], sp.1)) > 0);
                        assert(self.contents().count((sq[0], sp.1)) > 0);
                    },
                }
            },
        }
    }

    fn empty_copy(&self) -> (r: Self)
        ensures
            r.combiner() == self.combiner(),
            !r.is_serving(),
    {
        let n = self.my_len();
        let r = IsraeliPriority {
            underlying: pq_with_capacity(n),
            current_friend_group: None,
            shibboleth_to_friends: HashMap::new(),
            waiting_len: 0,
            priority_combiner: self.priority_combiner,
            order: Ghost(Seq::empty()),
        };
        proof {
            assert(pq_contents(r.underlying).dom() =~= r.shibboleth_to_friends@.dom());
        }
        r
    }

    fn my_peek(&self) -> (r: Option<(&T, &u64)>) {
        match &self.current_friend_group {
            Some(gp) => {
                proof {
                    assert(grp_seq(gp.0)[0] == gp.0.head);
                }
                Some((&gp.0.head, &gp.1))
            },
            None => {
                match pq_peek(&self.underlying) {
                    None => None,
                    Some(sp) => {
                        proof {
                            assert(pq_contents(self.underlying).contains_pair(*sp.0, *sp.1));
                        }
                        match self.shibboleth_to_friends.get(sp.0) {
                            Some(g) => {
                                proof {
                                    let s0 = *sp.0;
                                    assert(self.gview()[s0] == grp_seq(
                                        self.shibboleth_to_friends@[s0],
                                    ));
                                    assert(grp_seq(self.shibboleth_to_friends@[s0])[0]
                                        == self.shibboleth_to_friends@[s0].head);
                                }
                                Some((&g.head, sp.1))
                            },
                            None => {
                                proof {
                                    assert(false);
                                }
                                vstd::pervasive::unreached()
                            },
                        }
                    },
                }
            },
        }
    }

    fn my_enqueue(&mut self, new_obj: T, new_obj_priority: u64)
        ensures
            final(self).state() == state_enqueue(
                old(self).state(),
                old(self).combiner(),
                new_obj,
                new_obj_priority,
            ),
            final(self).combiner() == old(self).combiner(),
            final(self).contents().len() == old(self).contents().len() + 1,
    {
        proof {
            lemma_wait_len(self.order@, self.gview(), pq_contents(self.underlying));
        }
        let s = new_obj.friendship_shibboleth();
        let found = pq_get_priority(&self.underlying, &s);
        match found {
            Some(old_priority) => {
                // friends are already waiting in line
                proof {
                    lemma_wait_extract(
                        self.order@,
                        self.gview(),
                        pq_contents(self.underlying),
                        s,
                    );
                }
                let (priority_changed, new_priority) = self.priority_combiner.combine(
                    &old_priority,
                    &new_obj_priority,
                );
                if priority_changed {
                    // this can make the group the head of the line, but cannot
                    // push it past the group already in the foyer
                    let _overwritten = pq_change_priority(&mut self.underlying, &s, new_priority);
                } else {
                    proof {
                        assert(pq_contents(self.underlying) =~= pq_contents(
                            old(self).underlying,
                        ).insert(s, new_priority));
                    }
                }
                let mut grp = match self.shibboleth_to_friends.remove(&s) {
                    Some(grp) => grp,
                    None => {
                        proof {
                            assert(false);
                        }
                        vstd::pervasive::unreached()
                    },
                };
                grp.add_member(new_obj);
                self.shibboleth_to_friends.insert(s, grp);
                self.waiting_len = self.waiting_len + 1;
                proof {
                    let ogv = old(self).gview();
                    let opq = pq_contents(old(self).underlying);
                    let np = old(self).priority_combiner.combine_spec(opq[s], new_obj_priority);
                    assert(self.gview() =~= ogv.insert(s, ogv[s].push(new_obj)));
                    assert(pq_contents(self.underlying) =~= opq.insert(s, np));
                    lemma_wait_extract(self.order@, self.gview(), pq_contents(self.underlying), s);
                    assert forall|x: u64| #[trigger] self.order@.remove_value(s).contains(
                        x,
                    ) implies self.gview()[x] == ogv[x] && pq_contents(self.underlying)[x]
                        == opq[x] by {
                        assert(x != s);
                    }
                    lemma_wait_frame(
                        self.order@.remove_value(s),
                        self.gview(),
                        pq_contents(self.underlying),
                        ogv,
                        opq,
                    );
                    assert(self.gview()[s] =~= ogv[s].push(new_obj));
                    assert(self.gview()[s].map_values(|t: T| (t, np)) =~= ogv[s].map_values(
                        |t: T| (t, np),
                    ).push((new_obj, np)));
                    lemma_wait_len(self.order@, self.gview(), pq_contents(self.underlying));
                    assert(self.contents() =~= old(self).enqueue_contents(
                        new_obj,
                        new_obj_priority,
                    ));
                    lemma_wait_len(self.order@, ogv, opq);
                    assert(pq_contents(self.underlying).dom() =~= self.shibboleth_to_friends@.dom());
                    assert(all_shib(self.gview()[s], s)) by {
                        assert(self.gview()[s] == ogv[s].push(new_obj));
                        assert(forall|i: int| 0 <= i < ogv[s].len() ==> self.gview()[s][i]
                            == ogv[s][i]);
                        assert(self.gview()[s][ogv[s].len() as int] == new_obj);
                    }
                    assert(self.gview()[s].len() == ogv[s].len() + 1);
                    assert(wait_sum(self.order@, self.gview()) == wait_sum(
                        self.order@.remove_value(s),
                        self.gview(),
                    ) + self.gview()[s].len());
                    assert(wait_sum(self.order@, ogv) == wait_sum(
                        self.order@.remove_value(s),
                        ogv,
                    ) + ogv[s].len());
                    assert(wait_sum(self.order@, self.gview()) == wait_sum(self.order@, ogv) + 1);
                    assert(self.serving_pairs() == old(self).serving_pairs());
                    assert(self.contents().len() == old(self).contents().len() + 1);
                    let stpost = state_enqueue(
                        old(self).state(),
                        old(self).priority_combiner,
                        new_obj,
                        new_obj_priority,
                    );
                    assert(old(self).state().prios.dom().contains(s));
                    assert(self.state().serving == stpost.serving);
                    assert(self.state().order == stpost.order);
                    assert(self.state().groups == stpost.groups);
                    assert(self.state().prios == stpost.prios);
                    assert(self.state() == stpost);
                }
            },
            None => {
                let serving = self.current_friend_group.take();
                match serving {
                    Some((g, group_priority)) => {
                        if g.head.friendship_shibboleth() == s {
                            // friends with the group going in right now: join it
                            let mut g2 = g;
                            g2.add_member(new_obj);
                            let (priority_changed, new_priority) = self.priority_combiner.combine(
                                &group_priority,
                                &new_obj_priority,
                            );
                            self.current_friend_group = Some((g2, new_priority));
                            proof {
                                lemma_wait_len(
                                    self.order@,
                                    self.gview(),
                                    pq_contents(self.underlying),
                                );
                                assert(grp_seq(g2)[0] == g2.head && grp_seq(g)[0] == g.head);
                                assert(g2.head == g.head);
                                assert(all_shib(grp_seq(g2), g2.head.shibboleth_spec())) by {
                                    assert(grp_seq(g2) == grp_seq(g).push(new_obj));
                                    assert(new_obj.shibboleth_spec() == g.head.shibboleth_spec());
                                    assert(forall|i: int| 0 <= i < grp_seq(g).len() ==> grp_seq(
                                        g2,
                                    )[i] == grp_seq(g)[i]);
                                }
                                assert(grp_seq(g2) =~= grp_seq(g).push(new_obj));
                                assert(grp_seq(g2).map_values(|t: T| (t, new_priority)) =~= grp_seq(
                                    g,
                                ).map_values(|t: T| (t, new_priority)).push((new_obj, new_priority)));
                                assert(self.gview() =~= old(self).gview());
                                assert(self.contents() =~= old(self).enqueue_contents(
                                    new_obj,
                                    new_obj_priority,
                                ));
                                assert(grp_seq(g2).map_values(|t: T| (t, new_priority)).len()
                                    == grp_seq(g2).len());
                                assert(grp_seq(g).map_values(|t: T| (t, group_priority)).len()
                                    == grp_seq(g).len());
                                assert(self.contents().len() == old(self).contents().len() + 1);
                                let stpost = state_enqueue(
                                    old(self).state(),
                                    old(self).priority_combiner,
                                    new_obj,
                                    new_obj_priority,
                                );
                                assert(!old(self).state().prios.dom().contains(s));
                                assert(old(self).state().serving == Some(
                                    (grp_seq(g), group_priority),
                                ));
                                assert(grp_seq(g)[0] == g.head);
                                assert(self.state().serving == stpost.serving);
                                assert(self.state().order == stpost.order);
                                assert(self.state().groups == stpost.groups);
                                assert(self.state().prios == stpost.prios);
                                assert(self.state() == stpost);
                            }
                        } else {
                            // not their friends: into the line, whatever the priority
                            self.current_friend_group = Some((g, group_priority));
                            let ghost the_item = new_obj;
                            let mut one = Vec::new();
                            one.push(new_obj);
                            proof {
                                assert(one@ =~= seq![the_item]);
                            }
                            self.push_new_group(one, new_obj_priority, s);
                            proof {
                                assert(self.contents() =~= old(self).enqueue_contents(
                                    the_item,
                                    new_obj_priority,
                                ));
                                let stpost = state_enqueue(
                                    old(self).state(),
                                    old(self).priority_combiner,
                                    new_obj,
                                    new_obj_priority,
                                );
                                assert(!old(self).state().prios.dom().contains(s));
                                assert(old(self).state().serving == Some(
                                    (grp_seq(g), group_priority),
                                ));
                                assert(grp_seq(g)[0] == g.head);
                                assert(self.state().serving == stpost.serving);
                                assert(self.state().order == stpost.order);
                                assert(self.state().groups == stpost.groups);
                                assert(self.state().prios == stpost.prios);
                                assert(self.state() == stpost);
                                assert(self.contents().len() == old(self).contents().len() + 1);
                            }
                        }
                    },
                    None => {
                        // nobody is being let in and no friends wait in line
                        self.current_friend_group = None;
                        let ghost the_item = new_obj;
                        let mut one = Vec::new();
                        one.push(new_obj);
                        proof {
                            assert(one@ =~= seq![the_item]);
                        }
                        self.push_new_group(one, new_obj_priority, s);
                        proof {
                            assert(self.contents() =~= old(self).enqueue_contents(
                                the_item,
                                new_obj_priority,
                            ));
                            let stpost = state_enqueue(
                                old(self).state(),
                                old(self).priority_combiner,
                                new_obj,
                                new_obj_priority,
                            );
                            assert(!old(self).state().prios.dom().contains(s));
                            assert(old(self).state().serving is None);
                            assert(self.state().serving == stpost.serving);
                            assert(self.state().order == stpost.order);
                            assert(self.state().groups == stpost.groups);
                            assert(self.state().prios == stpost.prios);
                            assert(self.state() == stpost);
                            assert(self.contents().len() == old(self).contents().len() + 1);
                        }
                    },
                }
            },
        }
    }

    fn enqueue_batch(&mut self, new_batch: Vec<T>, new_batch_priority: u64)
        ensures
            final(self).contents().len() == old(self).contents().len() + new_batch@.len(),
            final(self).combiner() == old(self).combiner(),
    {
        if new_batch.len() == 0 {
            proof {
                assert(new_batch@.len() == 0);
            }
            return;
        }
        let ghost total = new_batch@;
        let (all_friends, the_shibboleth) = are_all_friends(&new_batch);
        if !all_friends {
            // mixed company: they join the line one by one
            let ghost c0 = self.combiner();
            let mut batch = new_batch;
            let ghost budget = old(self).contents().len() + new_batch@.len();
            while batch.len() > 0
                invariant
                    self.valid(),
                    self.contents().len() + batch@.len() <= budget,
                    budget <= usize::MAX,
                    budget == old(self).contents().len() + total.len(),
                    self.contents().len() + batch@.len() == old(self).contents().len()
                        + total.len(),
                    self.combiner() == c0,
                    c0 == old(self).combiner(),
                    state_enqueue_seq(self.state(), c0, batch@, new_batch_priority)
                        == state_enqueue_seq(old(self).state(), c0, total, new_batch_priority),
                decreases batch@.len(),
            {
                let ghost pre_batch = batch@;
                let ghost pre_state = self.state();
                let x = batch.remove(0);
                proof {
                    assert(x == pre_batch[0]);
                    assert(batch@ =~= pre_batch.drop_first());
                }
                self.my_enqueue(x, new_batch_priority);
                proof {
                    assert(self.state() == state_enqueue(pre_state, c0, x, new_batch_priority));
                    assert(state_enqueue_seq(pre_state, c0, pre_batch, new_batch_priority)
                        == state_enqueue_seq(self.state(), c0, batch@, new_batch_priority));
                }
            }
            proof {
                assert(batch@.len() == 0);
                assert(state_enqueue_seq(self.state(), c0, batch@, new_batch_priority)
                    == self.state());
                self.lemma_state_contents();
                assert(!all_shib(total, total[0].shibboleth_spec()));
                assert(self.contents() == old(self).enqueue_batch_contents(
                    total,
                    new_batch_priority,
                ));
            }
            return;
        }
        // one whole batch of friends: fuse it in a single step
        let ghost n = new_batch@.len();
        let s = the_shibboleth;
        proof {
            lemma_wait_len(self.order@, self.gview(), pq_contents(self.underlying));
        }
        let found = pq_get_priority(&self.underlying, &s);
        match found {
            Some(old_priority) => {
                // more friends are already waiting in line
                proof {
                    lemma_wait_extract(
                        self.order@,
                        self.gview(),
                        pq_contents(self.underlying),
                        s,
                    );
                }
                let (priority_changed, new_priority) = self.priority_combiner.combine(
                    &old_priority,
                    &new_batch_priority,
                );
                if priority_changed {
                    let _overwritten = pq_change_priority(&mut self.underlying, &s, new_priority);
                } else {
                    proof {
                        assert(pq_contents(self.underlying) =~= pq_contents(
                            old(self).underlying,
                        ).insert(s, new_priority));
                    }
                }
                let mut grp = match self.shibboleth_to_friends.remove(&s) {
                    Some(grp) => grp,
                    None => {
                        proof {
                            assert(false);
                        }
                        vstd::pervasive::unreached()
                    },
                };
                let batch_size = new_batch.len();
                grp.add_members(new_batch);
                self.shibboleth_to_friends.insert(s, grp);
                self.waiting_len = self.waiting_len + batch_size;
                proof {
                    let ogv = old(self).gview();
                    let opq = pq_contents(old(self).underlying);
                    let np = old(self).priority_combiner.combine_spec(opq[s], new_batch_priority);
                    assert(self.gview() =~= ogv.insert(s, ogv[s] + new_batch@));
                    assert(pq_contents(self.underlying) =~= opq.insert(s, np));
                    lemma_wait_extract(self.order@, self.gview(), pq_contents(self.underlying), s);
                    assert forall|x: u64| #[trigger] self.order@.remove_value(s).contains(
                        x,
                    ) implies self.gview()[x] == ogv[x] && pq_contents(self.underlying)[x]
                        == opq[x] by {
                        assert(x != s);
                    }
                    lemma_wait_frame(
                        self.order@.remove_value(s),
                        self.gview(),
                        pq_contents(self.underlying),
                        ogv,
                        opq,
                    );
                    lemma_wait_len(self.order@, self.gview(), pq_contents(self.underlying));
                    lemma_wait_len(self.order@, ogv, opq);
                    assert(pq_contents(self.underlying).dom() =~= self.shibboleth_to_friends@.dom());
                    assert(all_shib(self.gview()[s], s)) by {
                        assert(self.gview()[s] == ogv[s] + new_batch@);
                        assert(forall|i: int| 0 <= i < ogv[s].len() ==> self.gview()[s][i]
                            == ogv[s][i]);
                        assert(forall|i: int|
                            ogv[s].len() <= i < self.gview()[s].len() ==> self.gview()[s][i]
                                == new_batch@[i - ogv[s].len()]);
                    }
                    assert(self.gview()[s].len() == ogv[s].len() + n);
                    assert(seq_pairs(self.gview()[s], np).len() == self.gview()[s].len()) by {
                        assert(self.gview()[s].map_values(|t: T| (t, np)).len() == self.gview()[
                            s].len());
                    }
                    assert(seq_pairs(ogv[s], opq[s]).len() == ogv[s].len()) by {
                        assert(ogv[s].map_values(|t: T| (t, opq[s])).len() == ogv[s].len());
                    }
                    assert(wait_sum(self.order@, self.gview()) == wait_sum(
                        self.order@.remove_value(s),
                        self.gview(),
                    ) + self.gview()[s].len());
                    assert(wait_sum(self.order@, ogv) == wait_sum(
                        self.order@.remove_value(s),
                        ogv,
                    ) + ogv[s].len());
                    assert(wait_sum(self.order@, self.gview()) == wait_sum(self.order@, ogv) + n);
                    assert(self.serving_pairs() == old(self).serving_pairs());
                    self.lemma_serving_len();
                    old(self).lemma_serving_len();
                    assert(self.contents().len() == old(self).contents().len() + n);
                    let stf = state_enqueue_fused(
                        old(self).state(),
                        old(self).combiner(),
                        total,
                        new_batch_priority,
                    );
                    assert(total[0].shibboleth_spec() == s);
                    assert(old(self).state().prios.dom().contains(s));
                    assert(self.state().serving == stf.serving);
                    assert(self.state().order == stf.order);
                    assert(self.state().groups == stf.groups);
                    assert(self.state().prios == stf.prios);
                    assert(self.state() == stf);
                    self.lemma_state_contents();
                    assert(self.contents() == old(self).enqueue_batch_contents(
                        total,
                        new_batch_priority,
                    ));
                }
            },
            None => {
                let serving = self.current_friend_group.take();
                match serving {
                    Some((g, group_priority)) => {
                        if g.head.friendship_shibboleth() == s {
                            // the whole batch joins the group going in now
                            let mut g2 = g;
                            let ghost gseq = grp_seq(g2);
                            g2.add_members(new_batch);
                            let (priority_changed, new_priority) = self.priority_combiner.combine(
                                &group_priority,
                                &new_batch_priority,
                            );
                            self.current_friend_group = Some((g2, new_priority));
                            proof {
                                lemma_wait_len(
                                    self.order@,
                                    self.gview(),
                                    pq_contents(self.underlying),
                                );
                                assert(grp_seq(g2) == gseq + new_batch@);
                                assert(grp_seq(g2)[0] == gseq[0]);
                                assert(g2.head == g.head);
                                assert(all_shib(grp_seq(g2), g2.head.shibboleth_spec())) by {
                                    assert(forall|i: int|
                                        0 <= i < gseq.len() ==> grp_seq(g2)[i] == gseq[i]);
                                    assert(forall|i: int|
                                        gseq.len() <= i < grp_seq(g2).len() ==> grp_seq(g2)[i]
                                            == new_batch@[i - gseq.len()]);
                                }
                                assert(self.gview() =~= old(self).gview());
                                assert(grp_seq(g2).map_values(|t: T| (t, new_priority)).len()
                                    == grp_seq(g2).len());
                                old(self).lemma_serving_len();
                                self.lemma_serving_len();
                                assert(self.serving_size() + self.waiting_len <= usize::MAX);
                                assert(gseq.map_values(|t: T| (t, group_priority)).len()
                                    == gseq.len());
                                assert(self.contents().len() == old(self).contents().len() + n);
                                let stf = state_enqueue_fused(
                                    old(self).state(),
                                    old(self).combiner(),
                                    total,
                                    new_batch_priority,
                                );
                                assert(total[0].shibboleth_spec() == s);
                                assert(!old(self).state().prios.dom().contains(s));
                                assert(old(self).state().serving == Some((gseq, group_priority)));
                                assert(gseq[0] == g.head);
                                assert(new_priority == old(self).combiner().combine_spec(
                                    group_priority,
                                    new_batch_priority,
                                ));
                                assert(self.state().serving == stf.serving);
                                assert(self.state().order == stf.order);
                                assert(self.state().groups == stf.groups);
                                assert(self.state().prios == stf.prios);
                                assert(self.state() == stf);
                                self.lemma_state_contents();
                                assert(self.contents() == old(self).enqueue_batch_contents(
                                    total,
                                    new_batch_priority,
                                ));
                            }
                        } else {
                            // not their friends: the batch goes into the line
                            self.current_friend_group = Some((g, group_priority));
                            self.push_new_group(new_batch, new_batch_priority, s);
                            proof {
                                let stf = state_enqueue_fused(
                                    old(self).state(),
                                    old(self).combiner(),
                                    total,
                                    new_batch_priority,
                                );
                                assert(total[0].shibboleth_spec() == s);
                                assert(!old(self).state().prios.dom().contains(s));
                                assert(old(self).state().serving == Some(
                                    (grp_seq(g), group_priority),
                                ));
                                assert(grp_seq(g)[0] == g.head);
                                assert(self.state().serving == stf.serving);
                                assert(self.state().order == stf.order);
                                assert(self.state().groups == stf.groups);
                                assert(self.state().prios == stf.prios);
                                assert(self.state() == stf);
                                self.lemma_state_contents();
                                assert(self.contents() == old(self).enqueue_batch_contents(
                                    total,
                                    new_batch_priority,
                                ));
                            }
                        }
                    },
                    None => {
                        // nobody is being let in and no friends wait in line
                        self.current_friend_group = None;
                        self.push_new_group(new_batch, new_batch_priority, s);
                        proof {
                            let stf = state_enqueue_fused(
                                old(self).state(),
                                old(self).combiner(),
                                total,
                                new_batch_priority,
                            );
                            assert(total[0].shibboleth_spec() == s);
                            assert(!old(self).state().prios.dom().contains(s));
                            assert(old(self).state().serving is None);
                            assert(self.state().serving == stf.serving);
                            assert(self.state().order == stf.order);
                            assert(self.state().groups == stf.groups);
                            assert(self.state().prios == stf.prios);
                            assert(self.state() == stf);
                            self.lemma_state_contents();
                            assert(self.contents() == old(self).enqueue_batch_contents(
                                total,
                                new_batch_priority,
                            ));
                        }
                    },
                }
            },
        }
    }

    fn my_dequeue(&mut self) -> (r: Option<(T, u64)>) {
        proof {
            lemma_wait_len(self.order@, self.gview(), pq_contents(self.underlying));
        }
        let taken = self.israeli_dequeue_batch();
        match taken {
            None => None,
            Some((g, p)) => {
                proof {
                    self.lemma_take_first_pairs(g, p);
                }
                let (first, rest) = g.take_first();
                match rest {
                    Some(g2) => {
                        proof {
                            assert(grp_seq(g2) == grp_seq(g).drop_first());
                            assert(grp_seq(g2)[0] == grp_seq(g)[1]);
                            assert(g2.head.shibboleth_spec() == g.head.shibboleth_spec());
                            assert(all_shib(grp_seq(g2), g2.head.shibboleth_spec())) by {
                                assert(forall|i: int| 0 <= i < grp_seq(g2).len() ==> grp_seq(g2)[i]
                                    == grp_seq(g)[i + 1]);
                            }
                        }
                        self.current_friend_group = Some((g2, p));
                        proof {
                            lemma_wait_len(self.order@, self.gview(), pq_contents(self.underlying));
                            assert(old(self).contents() =~= self.contents().insert((first, p)));
                            assert(self.contents() =~= old(self).contents().remove((first, p)));
                        }
                    },
                    None => {
                        proof {
                            assert(old(self).contents() =~= self.contents().insert((first, p)));
                            assert(self.contents() =~= old(self).contents().remove((first, p)));
                        }
                    },
                }
                Some((first, p))
            },
        }
    }

    fn dequeue_batch(&mut self, around_how_many: usize, hard_limit: usize) -> (r: Vec<(T, u64)>)
        ensures
            exists|states: Seq<Self>|
                #![trigger states[0]]
                {
                    &&& serve_walk(states, r@)
                    &&& states[0] == *old(self)
                    &&& states.last().valid()
                    &&& states.last().contents() == final(self).contents()
                    &&& states.last().peek_spec() == final(self).peek_spec()
                },
    {
        let mut to_return: Vec<(T, u64)> = Vec::new();
        let mut done = false;
        let ghost mut gstates: Seq<Self> = seq![*old(self)];
        proof {
            assert(old(self).contents() =~= self.contents().add(to_return@.to_multiset()));
        }
        while !done && to_return.len() < around_how_many
            invariant
                self.valid(),
                old(self).valid(),
                around_how_many <= hard_limit,
                old(self).contents() == self.contents().add(to_return@.to_multiset()),
                to_return@.len() <= hard_limit,
                done ==> self.contents().len() == 0 || to_return@.len() >= around_how_many,
                gstates.len() == to_return@.len() + 1,
                serve_walk(gstates, to_return@),
                gstates[0] == *old(self),
                gstates.last().valid(),
                gstates.last().contents() == self.contents(),
                gstates.last().peek_spec() == self.peek_spec(),
            decreases self.contents().len() + (if done {
                0int
            } else {
                1int
            }),
        {
            let got = self.israeli_dequeue_batch();
            match got {
                None => {
                    done = true;
                },
                Some((g, p)) => {
                    // hand the group out member by member; if the hard limit
                    // falls inside the group, the remainder goes back to the
                    // foyer so the friends stay together
                    let ghost entry_contents = self.contents();
                    let ghost entry_ret = to_return@;
                    let ghost gshib = g.head.shibboleth_spec();
                    proof {
                        lemma_wait_len(
                            old(self).order@,
                            old(self).gview(),
                            pq_contents(old(self).underlying),
                        );
                        old(self).lemma_serving_len();
                        self.lemma_serving_len();
                        lemma_wait_len(self.order@, self.gview(), pq_contents(self.underlying));
                        assert(old(self).contents().len() <= usize::MAX);
                        assert(seq_pairs(grp_seq(g), p).len() == grp_seq(g).len()) by {
                            assert(grp_seq(g).map_values(|t: T| (t, p)).len() == grp_seq(g).len());
                        }
                        assert(self.contents().len() == self.waiting_len);
                        assert(entry_contents.len() + seq_pairs(grp_seq(g), p).len() <= old(
                            self,
                        ).contents().len());
                        assert(grp_seq(g).len() + self.waiting_len <= usize::MAX);
                    }
                    proof {
                        assert(gstates.last().peek_spec() == Some((grp_seq(g)[0], p)));
                        assert(gstates.last().contents() == self.contents().add(
                            seq_pairs(grp_seq(g), p),
                        ));
                    }
                    let mut cur = g;
                    loop
                        invariant_except_break
                            to_return@.len() < hard_limit,
                            self.valid(),
                            self.current_friend_group is None,
                            all_shib(grp_seq(cur), gshib),
                            !self.gview().dom().contains(gshib),
                            grp_seq(cur).len() >= 1,
                            grp_seq(cur).len() <= grp_seq(g).len(),
                            grp_seq(cur).len() + self.waiting_len <= usize::MAX,
                            to_return@.len() >= entry_ret.len(),
                            old(self).valid(),
                            entry_contents.len() + seq_pairs(grp_seq(g), p).len() <= old(
                                self,
                            ).contents().len(),
                            entry_contents.add(entry_ret.to_multiset()).add(
                                seq_pairs(grp_seq(g), p),
                            ) == self.contents().add(to_return@.to_multiset()).add(
                                seq_pairs(grp_seq(cur), p),
                            ),
                            gstates.len() == to_return@.len() + 1,
                            serve_walk(gstates, to_return@),
                            gstates[0] == *old(self),
                            gstates.last().valid(),
                            gstates.last().contents() == self.contents().add(
                                seq_pairs(grp_seq(cur), p),
                            ),
                            gstates.last().peek_spec() == Some((grp_seq(cur)[0], p)),
                        ensures
                            self.valid(),
                            to_return@.len() <= hard_limit,
                            to_return@.len() > entry_ret.len(),
                            entry_contents.add(entry_ret.to_multiset()).add(
                                seq_pairs(grp_seq(g), p),
                            ) == self.contents().add(to_return@.to_multiset()),
                            gstates.len() == to_return@.len() + 1,
                            serve_walk(gstates, to_return@),
                            gstates[0] == *old(self),
                            gstates.last().valid(),
                            gstates.last().contents() == self.contents(),
                            gstates.last().peek_spec() == self.peek_spec(),
                        decreases grp_seq(cur).len(),
                    {
                        let ghost base = *self;
                        proof {
                            self.lemma_take_first_pairs(cur, p);
                            lemma_wait_len(self.order@, self.gview(), pq_contents(self.underlying));
                        }
                        let (first, rest) = cur.take_first();
                        let ghost served = gstates.last();
                        let ghost pre_ret = to_return@;
                        to_return.push((first, p));
                        proof {
                            assert(to_return@ == pre_ret.push((first, p)));
                        }
                        match rest {
                            None => {
                                proof {
                                    assert(grp_seq(cur).drop_first().len() == 0);
                                    assert(seq_pairs(grp_seq(cur).drop_first(), p).len() == 0) by {
                                        assert(grp_seq(cur).drop_first().map_values(
                                            |t: T| (t, p),
                                        ).len() == 0);
                                    }
                                    assert(seq_pairs(grp_seq(cur).drop_first(), p)
                                        =~= Multiset::empty());
                                    assert(entry_contents.add(entry_ret.to_multiset()).add(
                                        seq_pairs(grp_seq(g), p),
                                    ) =~= self.contents().add(to_return@.to_multiset()));
                                    // the walk closes the group on the live state
                                    let mid = *self;
                                    assert(mid.contents() =~= served.contents().remove(
                                        (first, p),
                                    ));
                                    lemma_serve_walk_push(gstates, pre_ret, mid, (first, p));
                                    gstates = gstates.push(mid);
                                    assert(gstates.last() == mid);
                                }
                                break;
                            },
                            Some(g2) => {
                                proof {
                                    assert(grp_seq(g2)[0] == grp_seq(cur)[1]);
                                    assert(g2.head.shibboleth_spec() == gshib) by {
                                        assert(grp_seq(g2)[0] == g2.head);
                                    }
                                    assert(all_shib(grp_seq(g2), gshib)) by {
                                        assert(forall|i: int|
                                            0 <= i < grp_seq(g2).len() ==> grp_seq(g2)[i]
                                                == grp_seq(cur)[i + 1]);
                                    }
                                }
                                if to_return.len() == hard_limit {
                                    self.current_friend_group = Some((g2, p));
                                    proof {
                                        lemma_wait_len(
                                            self.order@,
                                            self.gview(),
                                            pq_contents(self.underlying),
                                        );
                                        self.lemma_serving_len();
                                        assert(grp_seq(g2).len() < grp_seq(cur).len());
                                        assert(self.serving_size() + self.waiting_len
                                            <= usize::MAX);
                                        assert(seq_pairs(grp_seq(g2), p).len() == grp_seq(
                                            g2,
                                        ).len()) by {
                                            assert(grp_seq(g2).map_values(|t: T| (t, p)).len()
                                                == grp_seq(g2).len());
                                        }
                                        assert(entry_contents.add(entry_ret.to_multiset()).add(
                                            seq_pairs(grp_seq(g), p),
                                        ) =~= self.contents().add(to_return@.to_multiset()));
                                        // the overshoot tail returned to the
                                        // serving slot: the live state is the
                                        // walk's next station
                                        let mid = *self;
                                        assert(self.gview() == base.gview());
                                        assert(mid.contents() =~= served.contents().remove(
                                            (first, p),
                                        ));
                                        lemma_serve_walk_push(gstates, pre_ret, mid, (first, p));
                                        gstates = gstates.push(mid);
                                        assert(gstates.last() == mid);
                                        assert(mid.peek_spec() == Some((grp_seq(g2)[0], p)));
                                    }
                                    break;
                                }
                                proof {
                                    // between members the walk passes through
                                    // the state whose serving group is the
                                    // remainder of this one
                                    let mid = IsraeliPriority {
                                        underlying: self.underlying,
                                        current_friend_group: Some((g2, p)),
                                        shibboleth_to_friends: self.shibboleth_to_friends,
                                        waiting_len: self.waiting_len,
                                        priority_combiner: self.priority_combiner,
                                        order: self.order,
                                    };
                                    assert(mid.gview() == self.gview());
                                    assert(mid.order@ == self.order@);
                                    assert(pq_contents(mid.underlying) == pq_contents(
                                        self.underlying,
                                    ));
                                    lemma_wait_len(
                                        self.order@,
                                        self.gview(),
                                        pq_contents(self.underlying),
                                    );
                                    mid.lemma_serving_len();
                                    assert(grp_seq(g2).len() < grp_seq(cur).len());
                                    assert(mid.valid());
                                    assert(mid.peek_spec() == Some((grp_seq(g2)[0], p)));
                                    assert(mid.contents() =~= self.contents().add(
                                        seq_pairs(grp_seq(g2), p),
                                    ));
                                    assert(mid.contents() =~= served.contents().remove(
                                        (first, p),
                                    ));
                                    lemma_serve_walk_push(gstates, pre_ret, mid, (first, p));
                                    gstates = gstates.push(mid);
                                    assert(gstates.last() == mid);
                                }
                                cur = g2;
                            },
                        }
                    }
                    proof {
                        assert(old(self).contents() =~= self.contents().add(
                            to_return@.to_multiset(),
                        ));
                    }
                },
            }
        }
        proof {
            lemma_wait_len(self.order@, self.gview(), pq_contents(self.underlying));
            assert(serve_walk(gstates, to_return@) && gstates[0] == *old(self));
        }
        to_return
    }

    fn my_len(&self) -> (r: usize) {
        proof {
            lemma_wait_len(self.order@, self.gview(), pq_contents(self.underlying));
        }
        match &self.current_friend_group {
            Some(gp) => {
                proof {
                    assert(self.serving_pairs().len() == grp_seq(gp.0).len()) by {
                        assert(grp_seq(gp.0).map_values(|t: T| (t, gp.1)).len() == grp_seq(
                            gp.0,
                        ).len());
                    }
                }
                let k = gp.0.size();
                k + self.waiting_len
            },
            None => self.waiting_len,
        }
    }

    fn is_empty(&self) -> (r: bool) {
        proof {
            lemma_wait_len(self.order@, self.gview(), pq_contents(self.underlying));
        }
        match &self.current_friend_group {
            Some(gp) => {
                proof {
                    assert(self.serving_pairs().len() == grp_seq(gp.0).len()) by {
                        assert(grp_seq(gp.0).map_values(|t: T| (t, gp.1)).len() == grp_seq(
                            gp.0,
                        ).len());
                    }
                }
                false
            },
            None => self.waiting_len == 0,
        }
    }
}

impl<T: Friendly, C: PriorityCombiner> IsraeliPriority<T, C> {
    /// Open a new friend group at the back of the line, made of one batch
    /// of friends.
    fn push_new_group(&mut self, members: Vec<T>, new_priority: u64, s: u64)
        requires
            old(self).valid(),
            members@.len() >= 1,
            old(self).contents().len() + members@.len() <= usize::MAX,
            all_shib(members@, s),
            !pq_contents(old(self).underlying).dom().contains(s),
            old(self).current_friend_group is Some ==> old(self).serving_shib() != s,
        ensures
            final(self).valid(),
            final(self).current_friend_group == old(self).current_friend_group,
            final(self).contents() == old(self).serving_pairs().add(
                wait_pairs(
                    old(self).order_seq().push(s),
                    old(self).gview().insert(s, members@),
                    pq_contents(old(self).underlying).insert(s, new_priority),
                ),
            ),
            final(self).contents().len() == old(self).contents().len() + members@.len(),
            final(self).order_seq() == old(self).order_seq().push(s),
            final(self).gview() == old(self).gview().insert(s, members@),
            pq_contents(final(self).underlying) == pq_contents(old(self).underlying).insert(
                s,
                new_priority,
            ),
            final(self).priority_combiner == old(self).priority_combiner,
    {
        proof {
            lemma_wait_len(self.order@, self.gview(), pq_contents(self.underlying));
        }
        let ghost n = members@.len();
        pq_push(&mut self.underlying, s, new_priority);
        let group = FriendGroup::from_vec(members);
        let group_size = group.size();
        self.shibboleth_to_friends.insert(s, group);
        proof {
            self.order@ = self.order@.push(s);
        }
        self.waiting_len = self.waiting_len + group_size;
        proof {
            let ogv = old(self).gview();
            let opq = pq_contents(old(self).underlying);
            let ord = old(self).order@;
            assert(self.gview() =~= ogv.insert(s, members@));
            assert(self.order@.drop_last() == ord && self.order@.last() == s);
            assert(!ord.contains(s)) by {
                if ord.contains(s) {
                    assert(ogv.dom().contains(s));
                }
            }
            assert forall|x: u64| #[trigger] ord.contains(x) implies self.gview()[x] == ogv[x]
                && pq_contents(self.underlying)[x] == opq[x] by {
                assert(ogv.dom().contains(x));
                assert(x != s);
            }
            lemma_wait_frame(ord, self.gview(), pq_contents(self.underlying), ogv, opq);
            assert(seq_pairs(members@, new_priority).len() == n) by {
                assert(members@.map_values(|t: T| (t, new_priority)).len() == n);
            }
            lemma_wait_len(self.order@, self.gview(), pq_contents(self.underlying));
            lemma_wait_len(ord, ogv, opq);
            assert forall|x: u64| self.order@.contains(x) implies (ord.contains(x) || x == s) by {
                let j = choose|j: int| 0 <= j < self.order@.len() && self.order@[j] == x;
                if j < ord.len() {
                    assert(ord[j] == x);
                }
            }
            assert(ord.contains(s) == false);
            assert(self.order@.contains(s)) by {
                assert(self.order@[self.order@.len() - 1] == s);
            }
            assert forall|x: u64| ord.contains(x) implies self.order@.contains(x) by {
                let j = choose|j: int| 0 <= j < ord.len() && ord[j] == x;
                assert(self.order@[j] == x);
            }
            assert(self.gview()[s] == members@);
            assert(self.gview()[s].len() == n);
            assert(all_shib(self.gview()[s], s));
            assert(pq_contents(self.underlying).dom() =~= self.shibboleth_to_friends@.dom());
            assert(wait_sum(self.order@, self.gview()) == wait_sum(ord, ogv) + n);
            assert(self.serving_pairs() == old(self).serving_pairs());
            self.lemma_serving_len();
            old(self).lemma_serving_len();
            assert(self.order@.no_duplicates()) by {
                assert forall|a: int, b: int|
                    0 <= a < self.order@.len() && 0 <= b < self.order@.len() && a
                        != b implies self.order@[a] != self.order@[b] by {
                    if a < ord.len() && b < ord.len() {
                        assert(self.order@[a] == ord[a] && self.order@[b] == ord[b]);
                    } else if a == ord.len() && b < ord.len() {
                        assert(self.order@[a] == s && self.order@[b] == ord[b]);
                        if ord[b] == s {
                            assert(ord.contains(s));
                        }
                    } else if b == ord.len() && a < ord.len() {
                        assert(self.order@[b] == s && self.order@[a] == ord[a]);
                        if ord[a] == s {
                            assert(ord.contains(s));
                        }
                    }
                }
            }
            assert(self.shibboleth_to_friends@.dom() =~= ogv.dom().insert(s));
            assert forall|x: u64| #[trigger] self.order@.contains(x) implies self
                .shibboleth_to_friends@.dom().contains(x) by {
                if x != s {
                    assert(ord.contains(x));
                    assert(ogv.dom().contains(x));
                }
            }
            assert forall|x: u64| #[trigger] self.shibboleth_to_friends@.dom().contains(
                x,
            ) implies self.order@.contains(x) by {
                if x != s {
                    assert(ogv.dom().contains(x));
                    assert(ord.contains(x));
                }
            }
            assert(self.contents().len() == old(self).contents().len() + n);
            assert(self.serving_size() + self.waiting_len <= usize::MAX);
        }
    }

    /// The serving group contributes one pair per member.
    proof fn lemma_serving_len(&self)
        ensures
            self.serving_pairs().len() == self.serving_size(),
    {
        match self.current_friend_group {
            Some(gp) => {
                assert(grp_seq(gp.0).map_values(|t: T| (t, gp.1)).len() == grp_seq(gp.0).len());
            },
            None => {},
        }
    }

    /// Serving a group member by member: splitting off the first member
    /// removes exactly that pair from the queue-wide multiset.
    proof fn lemma_take_first_pairs(&self, g: FriendGroup<T>, p: u64)
        requires
            grp_seq(g).len() >= 1,
        ensures
            seq_pairs(grp_seq(g), p) == seq_pairs(grp_seq(g).drop_first(), p).insert(
                (grp_seq(g)[0], p),
            ),
    {
        broadcast use vstd::seq_lib::group_to_multiset_ensures;
        broadcast use vstd::multiset::group_multiset_axioms;

        let sq = grp_seq(g);
        let mapped = sq.map_values(|t: T| (t, p));
        assert(mapped.drop_first() =~= sq.drop_first().map_values(|t: T| (t, p)));
        assert(mapped =~= mapped.drop_first().insert(0, mapped[0]));
        assert(mapped.drop_first().insert(0, mapped[0]).to_multiset() == mapped.drop_first(
        ).to_multiset().insert(mapped[0]));
        assert(seq_pairs(sq, p) =~= seq_pairs(sq.drop_first(), p).insert((sq[0], p)));
    }
}

} // verus!
