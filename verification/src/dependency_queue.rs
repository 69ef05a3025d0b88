use vstd::prelude::*;

verus! {

use vstd::multiset::Multiset;
use crate::my_priority_queue::AbstractPriorityQueue;
use crate::israeli_priority::seq_pairs;
use petgraph::graph::Graph;
use petgraph::Directed;

broadcast use {
    vstd::seq_lib::group_to_multiset_ensures,
    vstd::seq_lib::group_seq_properties,
    vstd::std_specs::vec::group_vec_axioms,
    vstd::multiset::group_multiset_axioms,
    vstd::multiset::group_multiset_properties,
};

#[verifier::external_type_specification]
#[verifier::external_body]
#[verifier::reject_recursive_types(N)]
#[verifier::reject_recursive_types(E)]
#[verifier::reject_recursive_types(Ty)]
#[verifier::reject_recursive_types(Ix)]
pub struct ExGraph<N, E, Ty, Ix>(Graph<N, E, Ty, Ix>);

#[verifier::external_type_specification]
#[verifier::external_body]
pub struct ExDirected(Directed);

/// The edge store of a blocking queue: a directed petgraph graph whose nodes
/// carry no data (the payloads live beside it, index-aligned) and whose node
/// indices are plain `usize`, so they are never exhausted and never reused.
pub type Dag = Graph<(), (), Directed, usize>;

/// How many nodes a dag holds (tombstoned ones included).
pub uninterp spec fn graph_size(g: Dag) -> nat;

/// The multiset of directed edges of a dag, as `(source, target)` index pairs.
pub uninterp spec fn graph_edges(g: Dag) -> Multiset<(usize, usize)>;

/// Relies on `Graph::with_capacity`: a freshly built graph has no nodes and
/// no edges.
#[verifier::external_body]
fn dag_with_capacity(nodes: usize, edges: usize) -> (r: Dag)
    ensures
        graph_size(r) == 0,
        graph_edges(r) == Multiset::<(usize, usize)>::empty(),
{
    Graph::with_capacity(nodes, edges)
}

/// Relies on `Graph::add_node`: appends one node, whose index is the previous
/// node count; with `usize` indices the operation cannot fail.
#[verifier::external_body]
fn dag_add_node(g: &mut Dag) -> (r: usize)
    ensures
        r == graph_size(*old(g)),
        graph_size(*final(g)) == graph_size(*old(g)) + 1,
        graph_edges(*final(g)) == graph_edges(*old(g)),
{
    g.add_node(()).index()
}

/// Relies on `Graph::add_edge`: adds one directed edge between existing
/// nodes; with `usize` indices the operation cannot fail.
#[verifier::external_body]
fn dag_add_edge(g: &mut Dag, a: usize, b: usize)
    requires
        a < graph_size(*old(g)),
        b < graph_size(*old(g)),
    ensures
        graph_size(*final(g)) == graph_size(*old(g)),
        graph_edges(*final(g)) == graph_edges(*old(g)).insert((a, b)),
{
    g.add_edge(petgraph::graph::NodeIndex::new(a), petgraph::graph::NodeIndex::new(b), ());
}

/// Relies on `Graph::find_edge` and `Graph::remove_edge`: removes the one
/// edge from `a` to `b`.  Only edge indices are invalidated, and none are
/// kept anywhere.
#[verifier::external_body]
fn dag_remove_edge(g: &mut Dag, a: usize, b: usize)
    requires
        graph_edges(*old(g)).count((a, b)) == 1,
    ensures
        graph_size(*final(g)) == graph_size(*old(g)),
        graph_edges(*final(g)) == graph_edges(*old(g)).remove((a, b)),
{
    if let Some(e) = g.find_edge(
        petgraph::graph::NodeIndex::new(a),
        petgraph::graph::NodeIndex::new(b),
    ) {
        g.remove_edge(e);
    }
}

/// Relies on `Graph::neighbors_directed` with the outgoing direction: yields
/// one entry per outgoing edge of `v`, so without parallel edges the indices
/// are distinct and are exactly the edge targets.
#[verifier::external_body]
fn dag_out_neighbors(g: &Dag, v: usize) -> (r: Vec<usize>)
    requires
        v < graph_size(*g),
        forall|e: (usize, usize)| graph_edges(*g).count(e) <= 1,
    ensures
        r@.no_duplicates(),
        forall|b: usize| #[trigger] r@.contains(b) <==> graph_edges(*g).count((v, b)) > 0,
{
    g.neighbors_directed(petgraph::graph::NodeIndex::new(v), petgraph::Direction::Outgoing).map(
        |n| n.index(),
    ).collect()
}

/// An item that may insist on leaving the queue before some later arrival:
/// if `self` was enqueued before `other` and `am_i_blocker` holds, `self`
/// must be dequeued first, whatever the priorities say.
pub trait Blocker: Sized {
    /// The blocking relation, at the specification level.
    spec fn blocks_spec(&self, other: &Self) -> bool;

    /// If self was enqueued before other, do they have to be dequeued in
    /// that order too?
    fn am_i_blocker(&self, other: &Self) -> (r: bool)
        ensures
            r == self.blocks_spec(other),
    ;
}

/// A ready-made blocker for read/write commands over shared resources: an
/// earlier read must complete before a later write to the same resource.
#[derive(Clone, Copy, Debug, PartialEq, Eq, Structural)]
pub struct Access {
    pub is_write: bool,
    pub resource: u64,
}

impl Blocker for Access {
    open spec fn blocks_spec(&self, other: &Self) -> bool {
        !self.is_write && other.is_write && self.resource == other.resource
    }

    fn am_i_blocker(&self, other: &Self) -> (r: bool) {
        !self.is_write && other.is_write && self.resource == other.resource
    }
}

/// The test for an edge ending at node `i`.
pub closed spec fn edge_into(i: int) -> spec_fn((usize, usize)) -> bool {
    |e: (usize, usize)| e.1 == i
}

/// The test for an edge starting at node `i`.
pub closed spec fn edge_from(i: int) -> spec_fn((usize, usize)) -> bool {
    |e: (usize, usize)| e.0 == i
}

/// The pairs still stored: every slot not yet dequeued.
pub(crate) open spec fn live_pairs<T>(s: Seq<Option<(T, u64)>>) -> Multiset<(T, u64)>
    decreases s.len(),
{
    if s.len() == 0 {
        Multiset::empty()
    } else {
        match s.last() {
            Some(tp) => live_pairs(s.drop_last()).insert(tp),
            None => live_pairs(s.drop_last()),
        }
    }
}

/// Tombstoning one slot removes exactly its pair.
proof fn lemma_live_pairs_update<T>(s: Seq<Option<(T, u64)>>, i: int)
    requires
        0 <= i < s.len(),
        s[i] is Some,
    ensures
        live_pairs(s.update(i, None)) == live_pairs(s).remove(s[i].unwrap()),
    decreases s.len(),
{
    broadcast use vstd::multiset::group_multiset_axioms;

    let s2 = s.update(i, None);
    if i == s.len() - 1 {
        assert(s2.drop_last() =~= s.drop_last());
        assert(s2.last() is None);
        assert(live_pairs(s2) == live_pairs(s.drop_last()));
        assert(live_pairs(s) == live_pairs(s.drop_last()).insert(s[i].unwrap()));
        assert(live_pairs(s2) =~= live_pairs(s).remove(s[i].unwrap()));
    } else {
        assert(s2.drop_last() =~= s.drop_last().update(i, None));
        assert(s2.last() == s.last());
        lemma_live_pairs_update(s.drop_last(), i);
        assert(s.drop_last()[i] == s[i]);
        lemma_live_pairs_member(s.drop_last(), i);
        match s.last() {
            Some(tp) => {
                assert(live_pairs(s2) =~= live_pairs(s).remove(s[i].unwrap()));
            },
            None => {
                assert(live_pairs(s2) =~= live_pairs(s).remove(s[i].unwrap()));
            },
        }
    }
}

/// A nonempty store has a live slot.
proof fn lemma_live_pairs_nonempty<T>(s: Seq<Option<(T, u64)>>)
    requires
        live_pairs(s).len() > 0,
    ensures
        exists|i: int| 0 <= i < s.len() && s[i] is Some,
    decreases s.len(),
{
    if s.len() > 0 {
        match s.last() {
            Some(tp) => {
                assert(s[s.len() - 1] is Some);
            },
            None => {
                lemma_live_pairs_nonempty(s.drop_last());
                let i = choose|i: int| 0 <= i < s.drop_last().len() && s.drop_last()[i] is Some;
                assert(s[i] is Some);
            },
        }
    }
}

/// A live slot's pair is in the stored multiset.
proof fn lemma_live_pairs_member<T>(s: Seq<Option<(T, u64)>>, i: int)
    requires
        0 <= i < s.len(),
        s[i] is Some,
    ensures
        live_pairs(s).count(s[i].unwrap()) > 0,
    decreases s.len(),
{
    broadcast use vstd::multiset::group_multiset_axioms;

    if i == s.len() - 1 {
    } else {
        lemma_live_pairs_member(s.drop_last(), i);
        assert(s.drop_last()[i] == s[i]);
    }
}

/// Filtering distributes over inserting one element.
proof fn lemma_filter_insert<V>(m: Multiset<V>, e: V, f: spec_fn(V) -> bool)
    ensures
        f(e) ==> m.insert(e).filter(f) == m.filter(f).insert(e),
        !f(e) ==> m.insert(e).filter(f) == m.filter(f),
{
    broadcast use vstd::multiset::group_multiset_axioms;

    if f(e) {
        assert(m.insert(e).filter(f) =~= m.filter(f).insert(e));
    } else {
        assert(m.insert(e).filter(f) =~= m.filter(f));
    }
}

/// Filtering distributes over removing one element.
proof fn lemma_filter_remove<V>(m: Multiset<V>, e: V, f: spec_fn(V) -> bool)
    requires
        m.count(e) > 0,
    ensures
        f(e) ==> m.remove(e).filter(f) == m.filter(f).remove(e),
        !f(e) ==> m.remove(e).filter(f) == m.filter(f),
{
    broadcast use vstd::multiset::group_multiset_axioms;

    if f(e) {
        assert(m.remove(e).filter(f) =~= m.filter(f).remove(e));
    } else {
        assert(m.remove(e).filter(f) =~= m.filter(f));
    }
}

/// Two multisets that agree on everything a filter keeps have equal
/// filtered views.
proof fn lemma_filter_same<V>(m1: Multiset<V>, m2: Multiset<V>, f: spec_fn(V) -> bool)
    requires
        forall|v: V| #[trigger] f(v) ==> m1.count(v) == m2.count(v),
    ensures
        m1.filter(f) == m2.filter(f),
{
    broadcast use vstd::multiset::group_multiset_axioms;

    assert(m1.filter(f) =~= m2.filter(f));
}

/// A filter no member satisfies keeps nothing.
proof fn lemma_filter_none<V>(m: Multiset<V>, f: spec_fn(V) -> bool)
    requires
        forall|v: V| m.count(v) > 0 ==> !f(v),
    ensures
        m.filter(f).len() == 0,
{
    broadcast use vstd::multiset::group_multiset_axioms;

    assert(m.filter(f) =~= Multiset::empty());
}

/// Replace one slot with an empty one and hand its old value back, leaving
/// every other slot where it was.
fn take_slot<T>(v: &mut Vec<Option<T>>, i: usize) -> (r: Option<T>)
    requires
        i < old(v)@.len(),
    ensures
        r == old(v)@[i as int],
        final(v)@ == old(v)@.update(i as int, None),
{
    v.push(None);
    let r = v.swap_remove(i);
    proof {
        assert(v@ =~= old(v)@.update(i as int, None));
    }
    r
}

/// Imagine commands enqueued in arbitrary order, shuffled by priorities on
/// the way out, except that some must still leave before others, whatever
/// their priorities.  The queue keeps a DAG of those obligations and only
/// ever releases nodes that nothing still precedes.
pub struct BlockingQueue<T> {
    my_dag: Dag,
    payloads: Vec<Option<(T, u64)>>,
    indeg: Vec<usize>,
    srcs: Vec<usize>,
    sinks: Vec<usize>,
    live_count: usize,
}

impl<T: Blocker> BlockingQueue<T> {
    /// The edges of the obligation graph.
    pub closed spec fn edges(&self) -> Multiset<(usize, usize)> {
        graph_edges(self.my_dag)
    }

    /// How many node slots exist, dequeued ones included.
    pub closed spec fn slots(&self) -> int {
        self.payloads@.len() as int
    }

    /// Whether slot `i` still holds an item.
    pub closed spec fn is_live(&self, i: int) -> bool {
        0 <= i < self.slots() && self.payloads@[i] is Some
    }

    /// The pair stored at a live slot.
    pub closed spec fn pair_at(&self, i: int) -> (T, u64) {
        self.payloads@[i].unwrap()
    }

    /// The priority stored at a live slot.
    pub closed spec fn pri_at(&self, i: int) -> u64 {
        self.pair_at(i).1
    }

    /// How many edges end at node `i`.
    pub closed spec fn in_deg(&self, i: int) -> nat {
        self.edges().filter(edge_into(i)).len()
    }

    /// How many edges start at node `i`.
    pub closed spec fn out_deg(&self, i: int) -> nat {
        self.edges().filter(edge_from(i)).len()
    }

    /// A source: a live item nothing still precedes.
    pub closed spec fn is_src(&self, i: int) -> bool {
        self.is_live(i) && self.in_deg(i) == 0
    }

    /// The source the next dequeue takes: maximum priority, ties to the
    /// earliest-inserted (lowest) slot.
    pub closed spec fn is_best(&self, i: int) -> bool {
        self.is_src(i) && (forall|j: int|
            #[trigger] self.is_src(j) && j != i ==> self.pri_at(j) < self.pri_at(i) || (self.pri_at(
                j,
            ) == self.pri_at(i) && j > i))
    }

    /// Two best sources are the same source.
    proof fn lemma_best_unique(&self, i: int, j: int)
        requires
            self.is_best(i),
            self.is_best(j),
        ensures
            i == j,
    {
        if i != j {
            assert(self.is_src(i) && self.is_src(j));
        }
    }

    /// A queue never has more slots than `usize` can index.
    proof fn lemma_slots_bound(&self)
        ensures
            self.slots() <= usize::MAX,
    {
        assert(vstd::std_specs::vec::spec_vec_len(&self.payloads) == self.payloads@.len());
    }

    /// A sink: a live item nothing waits on.
    pub closed spec fn is_sink(&self, i: int) -> bool {
        self.is_live(i) && self.out_deg(i) == 0
    }

    /// Below any live slot sits a least live slot.
    proof fn lemma_min_live(&self, w: int)
        requires
            self.is_live(w),
        ensures
            exists|j: int|
                (#[trigger] self.is_live(j)) && (forall|k: int| 0 <= k < j ==> !self.is_live(k)),
        decreases w,
    {
        if forall|k: int| 0 <= k < w ==> !self.is_live(k) {
            assert(self.is_live(w) && (forall|k: int| 0 <= k < w ==> !self.is_live(k)));
        } else {
            let k = choose|k: int| 0 <= k < w && self.is_live(k);
            self.lemma_min_live(k);
        }
    }

    /// A nonempty blocking queue always has a source: edges point from
    /// earlier slots to later ones, so the least live slot has nothing
    /// before it.
    proof fn lemma_source_exists(&self)
        requires
            self.valid(),
            self.contents().len() > 0,
        ensures
            exists|i: int| #[trigger] self.is_src(i),
    {
        lemma_live_pairs_nonempty(self.payloads@);
        let w = choose|i: int| 0 <= i < self.payloads@.len() && self.payloads@[i] is Some;
        self.lemma_min_live(w);
        let j = choose|j: int|
            (#[trigger] self.is_live(j)) && (forall|k: int| 0 <= k < j ==> !self.is_live(k));
        assert forall|e: (usize, usize)| self.edges().count(e) > 0 implies !((e.1 as int)
            == j) by {
            if e.1 as int == j {
                assert(self.is_live(e.0 as int));
                assert((e.0 as int) < j);
            }
        }
        lemma_filter_none(self.edges(), edge_into(j));
        assert(self.is_src(j));
    }

    /// Among the sources up to a bound, some source beats the rest.
    #[verifier::rlimit(100)]
    proof fn lemma_best_among(&self, m: int)
        requires
            exists|i: int| 0 <= i < m && #[trigger] self.is_src(i),
        ensures
            exists|i: int|
                0 <= i < m && (#[trigger] self.is_src(i)) && (forall|j: int|
                    (#[trigger] self.is_src(j)) && 0 <= j < m && j != i ==> self.pri_at(j)
                        < self.pri_at(i) || (self.pri_at(j) == self.pri_at(i) && j > i)),
        decreases m,
    {
        let last = m - 1;
        if self.is_src(last) {
            if exists|i: int| 0 <= i < last && #[trigger] self.is_src(i) {
                self.lemma_best_among(last);
                let i0 = choose|i: int|
                    0 <= i < last && (#[trigger] self.is_src(i)) && (forall|j: int|
                        (#[trigger] self.is_src(j)) && 0 <= j < last && j != i ==> self.pri_at(j)
                            < self.pri_at(i) || (self.pri_at(j) == self.pri_at(i) && j > i));
                if self.pri_at(last) > self.pri_at(i0) {
                    assert(self.is_src(last) && (forall|j: int|
                        (#[trigger] self.is_src(j)) && 0 <= j < m && j != last ==> self.pri_at(j)
                            < self.pri_at(last) || (self.pri_at(j) == self.pri_at(last) && j
                            > last)));
                } else {
                    assert(self.is_src(i0) && (forall|j: int|
                        (#[trigger] self.is_src(j)) && 0 <= j < m && j != i0 ==> self.pri_at(j)
                            < self.pri_at(i0) || (self.pri_at(j) == self.pri_at(i0) && j > i0)));
                }
            } else {
                assert(self.is_src(last) && (forall|j: int|
                    (#[trigger] self.is_src(j)) && 0 <= j < m && j != last ==> self.pri_at(j)
                        < self.pri_at(last) || (self.pri_at(j) == self.pri_at(last) && j > last)));
            }
        } else {
            assert(exists|i: int| 0 <= i < last && #[trigger] self.is_src(i));
            self.lemma_best_among(last);
            let i0 = choose|i: int|
                0 <= i < last && (#[trigger] self.is_src(i)) && (forall|j: int|
                    (#[trigger] self.is_src(j)) && 0 <= j < last && j != i ==> self.pri_at(j)
                        < self.pri_at(i) || (self.pri_at(j) == self.pri_at(i) && j > i));
            assert(self.is_src(i0) && (forall|j: int|
                (#[trigger] self.is_src(j)) && 0 <= j < m && j != i0 ==> self.pri_at(j)
                    < self.pri_at(i0) || (self.pri_at(j) == self.pri_at(i0) && j > i0)));
        }
    }

    /// Read the priority stored at a live slot.
    fn priority_of(&self, i: usize) -> (r: u64)
        requires
            self.is_live(i as int),
        ensures
            r == self.pri_at(i as int),
    {
        match &self.payloads[i] {
            Some(tp) => tp.1,
            None => {
                proof {
                    assert(false);
                }
                vstd::pervasive::unreached()
            },
        }
    }
}

impl<T: Blocker> BlockingQueue<T> {
    /// An empty blocking queue.
    pub fn default_empty() -> (r: Self)
        ensures
            r.valid(),
            r.contents() == Multiset::<(T, u64)>::empty(),
    {
        BlockingQueue {
            my_dag: dag_with_capacity(0, 0),
            payloads: Vec::new(),
            indeg: Vec::new(),
            srcs: Vec::new(),
            sinks: Vec::new(),
            live_count: 0,
        }
    }
}

impl<T: Blocker> AbstractPriorityQueue<T> for BlockingQueue<T> {
    closed spec fn valid(&self) -> bool {
        let n = self.slots();
        &&& self.payloads@.len() == graph_size(self.my_dag)
        &&& self.indeg@.len() == self.payloads@.len()
        &&& (forall|i: int| 0 <= i < n ==> (#[trigger] self.indeg@[i]) == self.in_deg(i))
        &&& (forall|e: (usize, usize)|
            (#[trigger] self.edges().count(e)) > 0 ==> (e.0 as int) < (e.1 as int) && (e.1 as int)
                < n && self.is_live(e.0 as int) && self.is_live(e.1 as int))
        &&& (forall|e: (usize, usize)| (#[trigger] self.edges().count(e)) <= 1)
        &&& self.srcs@.no_duplicates()
        &&& (forall|k: int|
            0 <= k < self.srcs@.len() ==> self.is_src(#[trigger] self.srcs@[k] as int))
        &&& (forall|i: int| #[trigger] self.is_src(i) ==> self.srcs@.contains(i as usize))
        &&& self.sinks@.no_duplicates()
        &&& (forall|k: int|
            0 <= k < self.sinks@.len() ==> self.is_sink(#[trigger] self.sinks@[k] as int))
        &&& (forall|i: int| #[trigger] self.is_sink(i) ==> self.sinks@.contains(i as usize))
        &&& self.live_count == live_pairs(self.payloads@).len()
    }

    closed spec fn contents(&self) -> Multiset<(T, u64)> {
        live_pairs(self.payloads@)
    }

    closed spec fn peek_spec(&self) -> Option<(T, u64)> {
        if exists|i: int| #[trigger] self.is_best(i) {
            Some(self.pair_at(choose|i: int| #[trigger] self.is_best(i)))
        } else {
            None
        }
    }

    open spec fn enqueue_contents(&self, new_obj: T, new_obj_priority: u64) -> Multiset<
        (T, u64),
    > {
        self.contents().insert((new_obj, new_obj_priority))
    }

    open spec fn enqueue_batch_contents(&self, new_batch: Seq<T>, new_batch_priority: u64) -> Multiset<
        (T, u64),
    > {
        self.contents().add(seq_pairs(new_batch, new_batch_priority))
    }

    proof fn lemma_batch_of_one(&self, new_obj: T, new_obj_priority: u64) {
        let p = new_obj_priority;
        assert(seq![new_obj].map_values(|t: T| (t, p)) =~= Seq::<(T, u64)>::empty().push(
            (new_obj, p),
        ));
        assert(seq_pairs(seq![new_obj], p) == Multiset::<(T, u64)>::empty().insert((new_obj, p)))
            by {
            assert(Seq::<(T, u64)>::empty().to_multiset() =~= Multiset::<(T, u64)>::empty());
        }
        assert(self.contents().add(Multiset::<(T, u64)>::empty().insert((new_obj, p)))
            =~= self.contents().insert((new_obj, p)));
        assert(self.enqueue_batch_contents(seq![new_obj], p) == self.enqueue_contents(new_obj, p));
    }

    #[verifier::rlimit(60)]
    proof fn lemma_peek_in_contents(&self) {
        if exists|i: int| #[trigger] self.is_best(i) {
            let i = choose|i: int| #[trigger] self.is_best(i);
            lemma_live_pairs_member(self.payloads@, i);
        } else {
            if self.contents().len() > 0 {
                self.lemma_source_exists();
                let w = choose|i: int| #[trigger] self.is_src(i);
                assert(0 <= w < self.slots());
                self.lemma_best_among(self.slots());
                let i0 = choose|i: int|
                    0 <= i < self.slots() && (#[trigger] self.is_src(i)) && (forall|j: int|
                        (#[trigger] self.is_src(j)) && 0 <= j < self.slots() && j != i
                            ==> self.pri_at(j) < self.pri_at(i) || (self.pri_at(j) == self.pri_at(
                            i,
                        ) && j > i));
                assert(self.is_best(i0)) by {
                    assert forall|j: int|
                        (#[trigger] self.is_src(j)) && j != i0 implies self.pri_at(j)
                        < self.pri_at(i0) || (self.pri_at(j) == self.pri_at(i0) && j > i0) by {
                        assert(0 <= j < self.slots());
                    }
                }
            }
        }
    }

    fn empty_copy(&self) -> (r: Self) {
        let r = BlockingQueue {
            my_dag: dag_with_capacity(self.payloads.len(), 0),
            payloads: Vec::new(),
            indeg: Vec::new(),
            srcs: Vec::new(),
            sinks: Vec::new(),
            live_count: 0,
        };
        r
    }

    fn my_peek(&self) -> (r: Option<(&T, &u64)>) {
        if self.srcs.len() == 0 {
            proof {
                if self.contents().len() > 0 {
                    self.lemma_source_exists();
                    let i = choose|i: int| #[trigger] self.is_src(i);
                    assert(self.srcs@.contains(i as usize));
                }
                if exists|i: int| #[trigger] self.is_best(i) {
                    let i = choose|i: int| #[trigger] self.is_best(i);
                    assert(self.srcs@.contains(i as usize));
                }
            }
            None
        } else {
            let best = self.find_best_source();
            proof {
                assert(exists|i: int| #[trigger] self.is_best(i));
                self.lemma_best_unique(best as int, choose|i: int| #[trigger] self.is_best(i));
            }
            match &self.payloads[best] {
                Some(tp) => Some((&tp.0, &tp.1)),
                None => {
                    proof {
                        assert(false);
                    }
                    vstd::pervasive::unreached()
                },
            }
        }
    }

    fn my_len(&self) -> (r: usize) {
        self.live_count
    }

    fn is_empty(&self) -> (r: bool) {
        self.live_count == 0
    }

    fn my_enqueue(&mut self, new_obj: T, new_obj_priority: u64)
        ensures
            final(self).slots() == old(self).slots() + 1,
            final(self).is_live(old(self).slots()),
            final(self).pair_at(old(self).slots()) == (new_obj, new_obj_priority),
            forall|i: int|
                0 <= i < old(self).slots() ==> ((#[trigger] final(self).is_live(i)) == old(
                    self,
                ).is_live(i) && (old(self).is_live(i) ==> final(self).pair_at(i) == old(
                    self,
                ).pair_at(i))),
            forall|e: (usize, usize)|
                (e.1 as int) != old(self).slots() ==> (#[trigger] final(self).edges().count(e))
                    == old(self).edges().count(e),
            (exists|a: int|
                (#[trigger] old(self).is_sink(a)) && old(self).pair_at(a).0.blocks_spec(&new_obj))
                ==> (forall|e: (usize, usize)|
                (e.1 as int) == old(self).slots() ==> (#[trigger] final(self).edges().count(e)) == (
                if old(self).is_sink(e.0 as int) && old(self).pair_at(e.0 as int).0.blocks_spec(
                    &new_obj,
                ) {
                    1nat
                } else {
                    0nat
                })),
            (!(exists|a: int|
                (#[trigger] old(self).is_sink(a)) && old(self).pair_at(a).0.blocks_spec(&new_obj)))
                ==> (forall|e: (usize, usize)|
                (e.1 as int) == old(self).slots() ==> (#[trigger] final(self).edges().count(e)) == (
                if old(self).is_live(e.0 as int) && old(self).pair_at(e.0 as int).0.blocks_spec(
                    &new_obj,
                ) {
                    1nat
                } else {
                    0nat
                })),
    {
        let ghost oldq = *old(self);
        let ghost oldn = old(self).slots();
        let idx = dag_add_node(&mut self.my_dag);
        // classify the current sinks: the ones that block the newcomer will
        // gain an edge and stop being sinks; the rest stay
        let mut kept_sinks: Vec<usize> = Vec::new();
        let mut blockers: Vec<usize> = Vec::new();
        let n_sinks = self.sinks.len();
        let mut k: usize = 0;
        while k < n_sinks
            invariant
                oldq.valid(),
                self.payloads@ == oldq.payloads@,
                self.indeg@ == oldq.indeg@,
                self.srcs@ == oldq.srcs@,
                self.sinks@ == oldq.sinks@,
                self.live_count == oldq.live_count,
                graph_size(self.my_dag) == oldn + 1,
                graph_edges(self.my_dag) == oldq.edges(),
                idx == oldn,
                k <= n_sinks,
                n_sinks == self.sinks@.len(),
                blockers@.len() + kept_sinks@.len() == k,
                forall|j: int|
                    0 <= j < k ==> (if oldq.pair_at(
                        #[trigger] self.sinks@[j] as int,
                    ).0.blocks_spec(&new_obj) {
                        blockers@.contains(self.sinks@[j])
                    } else {
                        kept_sinks@.contains(self.sinks@[j])
                    }),
                forall|x: usize| #[trigger]
                    blockers@.contains(x) ==> (exists|j: int|
                        0 <= j < k && self.sinks@[j] == x) && oldq.pair_at(x as int).0.blocks_spec(
                        &new_obj,
                    ),
                forall|x: usize| #[trigger]
                    kept_sinks@.contains(x) ==> (exists|j: int|
                        0 <= j < k && self.sinks@[j] == x) && !oldq.pair_at(
                        x as int,
                    ).0.blocks_spec(&new_obj),
                blockers@.no_duplicates(),
                kept_sinks@.no_duplicates(),
            decreases n_sinks - k,
        {
            let s_idx = self.sinks[k];
            proof {
                assert(oldq.is_sink(s_idx as int));
            }
            let blocks = match &self.payloads[s_idx] {
                Some(tp) => tp.0.am_i_blocker(&new_obj),
                None => {
                    proof {
                        assert(false);
                    }
                    vstd::pervasive::unreached()
                },
            };
            proof {
                if blockers@.contains(s_idx) || kept_sinks@.contains(s_idx) {
                    let j = choose|j: int| 0 <= j < k && self.sinks@[j] == s_idx;
                    assert(self.sinks@[j] == self.sinks@[k as int]);
                    assert(false);
                }
            }
            if blocks {
                blockers.push(s_idx);
            } else {
                kept_sinks.push(s_idx);
            }
            k += 1;
        }
        let n_blockers = blockers.len();
        let ghost some_sink_blocks = exists|a: int|
            (#[trigger] oldq.is_sink(a)) && oldq.pair_at(a).0.blocks_spec(&new_obj);
        proof {
            if some_sink_blocks {
                let a = choose|a: int|
                    (#[trigger] oldq.is_sink(a)) && oldq.pair_at(a).0.blocks_spec(&new_obj);
                assert(oldq.sinks@.contains(a as usize));
                let j = choose|j: int| 0 <= j < oldq.sinks@.len() && oldq.sinks@[j] == a as usize;
                assert(blockers@.contains(a as usize));
                assert(blockers@.len() > 0);
            }
            if blockers@.len() > 0 {
                assert(blockers@.contains(blockers@[0]));
                assert(oldq.is_sink(blockers@[0] as int)) by {
                    assert(oldq.sinks@.contains(blockers@[0]));
                    let j = choose|j: int|
                        0 <= j < oldq.sinks@.len() && oldq.sinks@[j] == blockers@[0];
                }
                assert(some_sink_blocks);
            }
        }
        if n_blockers == 0 {
            // no sink dominates the newcomer: scan the whole interior, since
            // an older non-sink blocker still constrains it
            proof {
                assert forall|e: (usize, usize)|
                    e.1 == idx implies (#[trigger] self.edges().count(e)) == 0 by {
                    if self.edges().count(e) > 0 {
                        assert(oldq.edges().count(e) > 0);
                        assert((e.1 as int) < oldq.slots());
                    }
                }
                lemma_filter_none(self.edges(), edge_into(idx as int));
            }
            let n_payloads = self.payloads.len();
            let mut i: usize = 0;
            let mut added: usize = 0;
            while i < n_payloads
                invariant
                    oldq.valid(),
                    self.payloads@ == oldq.payloads@,
                    self.indeg@ == oldq.indeg@,
                    self.srcs@ == oldq.srcs@,
                    self.sinks@ == oldq.sinks@,
                    self.live_count == oldq.live_count,
                    graph_size(self.my_dag) == oldn + 1,
                    idx == oldn,
                    oldn == oldq.slots(),
                    n_payloads == oldn,
                    n_payloads == self.payloads@.len(),
                    i <= n_payloads,
                    forall|e: (usize, usize)|
                        e.1 != idx ==> (#[trigger] self.edges().count(e)) == oldq.edges().count(e),
                    forall|e: (usize, usize)|
                        e.1 == idx ==> (#[trigger] self.edges().count(e)) == (if (e.0 as int) < i
                            && oldq.is_live(e.0 as int) && oldq.pair_at(e.0 as int).0.blocks_spec(
                            &new_obj,
                        ) {
                            1nat
                        } else {
                            0nat
                        }),
                    added == self.in_deg(idx as int),
                    added <= i,
                decreases n_payloads - i,
            {
                let blocks_i = match &self.payloads[i] {
                    Some(tp) => {
                        let bb = tp.0.am_i_blocker(&new_obj);
                        proof {
                            assert(oldq.is_live(i as int));
                            assert(bb == oldq.pair_at(i as int).0.blocks_spec(&new_obj));
                        }
                        bb
                    },
                    None => {
                        proof {
                            assert(!oldq.is_live(i as int));
                        }
                        false
                    },
                };
                let ghost pre = self.edges();
                if blocks_i {
                    proof {
                        assert(self.edges().count((i, idx)) == 0);
                        lemma_filter_insert(self.edges(), (i, idx), edge_into(idx as int));
                    }
                    dag_add_edge(&mut self.my_dag, i, idx);
                    proof {
                        assert forall|j: int|
                            true implies #[trigger] self.in_deg(j) == (if j == idx as int {
                            pre.filter(|e: (usize, usize)| e.1 == j).len() + 1
                        } else {
                            pre.filter(|e: (usize, usize)| e.1 == j).len()
                        }) by {
                            lemma_filter_insert(pre, (i, idx), edge_into(j));
                        }
                    }
                    added += 1;
                    proof {
                        assert forall|e: (usize, usize)|
                            e.1 == idx implies (#[trigger] self.edges().count(e)) == (if (
                        e.0 as int) < i + 1 && oldq.is_live(e.0 as int) && oldq.pair_at(
                            e.0 as int,
                        ).0.blocks_spec(&new_obj) {
                            1nat
                        } else {
                            0nat
                        }) by {
                            if e.0 != i {
                                assert(self.edges().count(e) == pre.count(e));
                            }
                        }
                    }
                } else {
                    proof {
                        assert forall|e: (usize, usize)|
                            e.1 == idx implies (#[trigger] self.edges().count(e)) == (if (
                        e.0 as int) < i + 1 && oldq.is_live(e.0 as int) && oldq.pair_at(
                            e.0 as int,
                        ).0.blocks_spec(&new_obj) {
                            1nat
                        } else {
                            0nat
                        }) by {}
                    }
                }
                i += 1;
            }
            if added == 0 {
                proof {
                    if self.srcs@.contains(idx) {
                        assert(oldq.is_src(idx as int));
                        assert(oldq.is_live(idx as int));
                    }
                }
                self.srcs.push(idx);
            }
            let ghost pre_finish = *self;
            self.finish_enqueue(new_obj, new_obj_priority, added, idx, Ghost(oldq));
            proof {
                assert(self.contents() == oldq.contents().insert((new_obj, new_obj_priority)));
                assert(oldq == *old(self));
                assert(self.contents() == old(self).enqueue_contents(new_obj, new_obj_priority));
                assert(self.edges() == pre_finish.edges());
                assert(!some_sink_blocks);
                assert forall|e: (usize, usize)|
                    (e.1 as int) == oldq.slots() implies (#[trigger] self.edges().count(e)) == (
                if oldq.is_live(e.0 as int) && oldq.pair_at(e.0 as int).0.blocks_spec(&new_obj) {
                    1nat
                } else {
                    0nat
                }) by {
                    assert(self.edges().count(e) == pre_finish.edges().count(e));
                    assert(e.1 == idx);
                }
                assert forall|e: (usize, usize)|
                    (e.1 as int) != oldq.slots() implies (#[trigger] self.edges().count(e))
                    == oldq.edges().count(e) by {
                    assert(self.edges().count(e) == pre_finish.edges().count(e));
                }
            }
        } else {
            // the blocking sinks fully dominate the newcomer
            proof {
                assert forall|e: (usize, usize)|
                    e.1 == idx implies (#[trigger] self.edges().count(e)) == 0 by {
                    if self.edges().count(e) > 0 {
                        assert(oldq.edges().count(e) > 0);
                        assert((e.1 as int) < oldq.slots());
                    }
                }
                lemma_filter_none(self.edges(), edge_into(idx as int));
            }
            let mut b: usize = 0;
            while b < n_blockers
                invariant
                    oldq.valid(),
                    self.payloads@ == oldq.payloads@,
                    self.indeg@ == oldq.indeg@,
                    self.srcs@ == oldq.srcs@,
                    self.sinks@ == oldq.sinks@,
                    self.live_count == oldq.live_count,
                    graph_size(self.my_dag) == oldn + 1,
                    idx == oldn,
                    oldn == oldq.slots(),
                    b <= n_blockers,
                    n_blockers == blockers@.len(),
                    blockers@.no_duplicates(),
                    forall|x: usize| #[trigger]
                        blockers@.contains(x) ==> oldq.is_sink(x as int) && oldq.pair_at(
                            x as int,
                        ).0.blocks_spec(&new_obj),
                    forall|e: (usize, usize)|
                        e.1 != idx ==> (#[trigger] self.edges().count(e)) == oldq.edges().count(e),
                    forall|e: (usize, usize)|
                        e.1 == idx ==> (#[trigger] self.edges().count(e)) == (if blockers@.take(
                            b as int,
                        ).contains(e.0) {
                            1nat
                        } else {
                            0nat
                        }),
                    self.in_deg(idx as int) == b,
                decreases n_blockers - b,
            {
                let b_idx = blockers[b];
                proof {
                    assert(blockers@.contains(b_idx));
                    assert(!blockers@.take(b as int).contains(b_idx)) by {
                        if blockers@.take(b as int).contains(b_idx) {
                            let j = choose|j: int|
                                0 <= j < b && (#[trigger] blockers@.take(b as int)[j]) == b_idx;
                            assert(blockers@[j] == blockers@[b as int]);
                        }
                    }
                    assert(self.edges().count((b_idx, idx)) == 0);
                }
                proof {
                    assert(oldq.is_sink(b_idx as int));
                    assert((b_idx as int) < oldq.slots());
                    assert(oldq.slots() == oldn);
                    assert(b_idx < graph_size(self.my_dag));
                    assert(idx < graph_size(self.my_dag));
                }
                let ghost pre = self.edges();
                dag_add_edge(&mut self.my_dag, b_idx, idx);
                proof {
                    assert forall|j: int|
                        true implies #[trigger] self.in_deg(j) == (if j == idx as int {
                        pre.filter(edge_into(j)).len() + 1
                    } else {
                        pre.filter(edge_into(j)).len()
                    }) by {
                        lemma_filter_insert(pre, (b_idx, idx), edge_into(j));
                        assert(edge_into(j)((b_idx, idx)) == ((idx as int) == j));
                    }
                    assert forall|e: (usize, usize)|
                        e.1 == idx implies (#[trigger] self.edges().count(e)) == (if blockers@.take(
                        b as int + 1,
                    ).contains(e.0) {
                        1nat
                    } else {
                        0nat
                    }) by {
                        let a = e.0;
                        if blockers@.take(b as int + 1).contains(a) {
                            let j = choose|j: int|
                                0 <= j < b + 1 && (#[trigger] blockers@.take(b as int + 1)[j])
                                    == a;
                            if j < b {
                                assert(blockers@.take(b as int)[j] == a);
                                assert(blockers@.take(b as int).contains(a));
                            } else {
                                assert(a == b_idx);
                            }
                        } else {
                            assert(!blockers@.take(b as int).contains(a)) by {
                                if blockers@.take(b as int).contains(a) {
                                    let j = choose|j: int|
                                        0 <= j < b && (#[trigger] blockers@.take(b as int)[j])
                                            == a;
                                    assert(blockers@.take(b as int + 1)[j] == a);
                                }
                            }
                            assert(a != b_idx) by {
                                if a == b_idx {
                                    assert(blockers@.take(b as int + 1)[b as int] == a);
                                }
                            }
                        }
                    }
                }
                b += 1;
            }
            proof {
                assert(blockers@.take(n_blockers as int) =~= blockers@);
            }
            self.sinks = kept_sinks;
            let ghost pre_finish = *self;
            proof {
                assert forall|e: (usize, usize)|
                    (e.1 as int) == oldq.slots() implies (#[trigger] pre_finish.edges().count(e))
                    == (if blockers@.contains(e.0) {
                    1nat
                } else {
                    0nat
                }) by {
                    assert(e.1 == idx);
                }
            }
            self.finish_enqueue(new_obj, new_obj_priority, n_blockers, idx, Ghost(oldq));
            proof {
                assert(oldq == *old(self));
                assert(self.edges() == pre_finish.edges());
                assert(some_sink_blocks);
                assert forall|x: usize|
                    oldq.is_sink(x as int) && oldq.pair_at(x as int).0.blocks_spec(
                        &new_obj,
                    ) implies #[trigger] blockers@.contains(x) by {
                    assert(oldq.sinks@.contains(x));
                    let j = choose|j: int| 0 <= j < oldq.sinks@.len() && oldq.sinks@[j] == x;
                    assert(oldq.sinks@[j] == x);
                }
                assert forall|e: (usize, usize)|
                    (e.1 as int) == oldq.slots() implies (#[trigger] self.edges().count(e)) == (
                if oldq.is_sink(e.0 as int) && oldq.pair_at(e.0 as int).0.blocks_spec(&new_obj) {
                    1nat
                } else {
                    0nat
                }) by {
                    assert(self.edges().count(e) == pre_finish.edges().count(e));
                    if blockers@.contains(e.0) {
                        assert(oldq.is_sink(e.0 as int) && oldq.pair_at(e.0 as int).0.blocks_spec(
                            &new_obj,
                        ));
                    }
                }
                assert forall|e: (usize, usize)|
                    (e.1 as int) != oldq.slots() implies (#[trigger] self.edges().count(e))
                    == oldq.edges().count(e) by {
                    assert(self.edges().count(e) == pre_finish.edges().count(e));
                }
            }
        }
    }

    fn enqueue_batch(&mut self, new_batch: Vec<T>, new_batch_priority: u64)
        ensures
            final(self).contents() == old(self).contents().add(
                seq_pairs(new_batch@, new_batch_priority),
            ),
    {
        let ghost total = new_batch@;
        let ghost p = new_batch_priority;
        let mut batch = new_batch;
        let ghost done: int = 0;
        proof {
            assert(seq_pairs(total.take(0), p) =~= Multiset::<(T, u64)>::empty()) by {
                assert(total.take(0).map_values(|t: T| (t, p)).len() == 0);
            }
            assert(self.contents() =~= old(self).contents().add(seq_pairs(total.take(0), p)));
        }
        while batch.len() > 0
            invariant
                self.valid(),
                p == new_batch_priority,
                0 <= done <= total.len(),
                batch@ == total.skip(done),
                self.contents() == old(self).contents().add(seq_pairs(total.take(done), p)),
                self.contents().len() + batch@.len() <= old(self).contents().len() + total.len(),
                old(self).contents().len() + total.len() <= usize::MAX,
            decreases batch@.len(),
        {
            let item = batch.remove(0);
            proof {
                assert(item == total[done]);
                assert(batch@ =~= total.skip(done + 1));
            }
            let ghost pre_q = *self;
            self.my_enqueue(item, new_batch_priority);
            proof {
                assert(self.contents() == pre_q.enqueue_contents(total[done], p));
                assert(pre_q.enqueue_contents(total[done], p) == pre_q.contents().insert(
                    (total[done], p),
                ));
                assert(pre_q.contents() == old(self).contents().add(
                    seq_pairs(total.take(done), p),
                ));
                assert(total.take(done + 1) =~= total.take(done).push(total[done]));
                assert(total.take(done + 1).map_values(|t: T| (t, p)) =~= total.take(
                    done,
                ).map_values(|t: T| (t, p)).push((total[done], p)));
                assert(seq_pairs(total.take(done + 1), p) == seq_pairs(total.take(done), p).insert(
                    (total[done], p),
                ));
                assert(self.contents() == old(self).contents().add(
                    seq_pairs(total.take(done), p),
                ).insert((total[done], p)));
                assert(self.contents() =~= old(self).contents().add(
                    seq_pairs(total.take(done + 1), p),
                ));
                done = done + 1;
            }
        }
        proof {
            assert(total.take(done) =~= total);
        }
    }

    fn my_dequeue(&mut self) -> (r: Option<(T, u64)>)
        ensures
            r is None ==> *final(self) == *old(self),
            r matches Some(pair) ==> exists|i: int|
                (#[trigger] old(self).is_best(i)) && pair == old(self).pair_at(i),
    {
        if self.srcs.len() == 0 {
            proof {
                if self.contents().len() > 0 {
                    self.lemma_source_exists();
                    let i = choose|i: int| #[trigger] self.is_src(i);
                    assert(self.srcs@.contains(i as usize));
                }
                if exists|i: int| #[trigger] self.is_best(i) {
                    let i = choose|i: int| #[trigger] self.is_best(i);
                    assert(self.srcs@.contains(i as usize));
                }
            }
            None
        } else {
            let ghost oldq = *old(self);
            let z = self.find_best_source();
            proof {
                assert(exists|i: int| #[trigger] self.is_best(i));
                self.lemma_best_unique(z as int, choose|i: int| #[trigger] self.is_best(i));
            }
            // the chosen source leaves the cached source list
            let pos = position_of(&self.srcs, z);
            remove_at(&mut self.srcs, pos);
            proof {
                assert(oldq.srcs@[pos as int] == z);
            }
            // every outgoing obligation of the leaver disappears; a successor
            // with no other obligation becomes a source
            let neighbors = dag_out_neighbors(&self.my_dag, z);
            let n_nb = neighbors.len();
            proof {
                assert forall|b2: int|
                    0 <= b2 < neighbors@.len() implies self.edges().count(
                    (z, #[trigger] neighbors@[b2]),
                ) == 1 by {
                    assert(neighbors@.contains(neighbors@[b2]));
                }
            }
            let mut j: usize = 0;
            while j < n_nb
                invariant
                    oldq.valid(),
                    oldq.is_best(z as int),
                    n_nb == neighbors@.len(),
                    j <= n_nb,
                    neighbors@.no_duplicates(),
                    forall|b2: usize| #[trigger]
                        neighbors@.contains(b2) <==> oldq.edges().count((z, b2)) > 0,
                    self.payloads@ == oldq.payloads@,
                    self.sinks@ == oldq.sinks@,
                    self.live_count == oldq.live_count,
                    self.indeg@.len() == oldq.indeg@.len(),
                    graph_size(self.my_dag) == graph_size(oldq.my_dag),
                    forall|e: (usize, usize)|
                        (#[trigger] oldq.edges().count(e)) > 0 && e.0 != z ==> self.edges().count(
                            e,
                        ) == oldq.edges().count(e),
                    forall|e: (usize, usize)|
                        (#[trigger] self.edges().count(e)) <= oldq.edges().count(e),
                    forall|b2: int|
                        0 <= b2 < n_nb ==> #[trigger] self.edges().count(
                            (z, neighbors@[b2]),
                        ) == (if b2 < j {
                            0nat
                        } else {
                            1nat
                        }),
                    forall|i: int|
                        0 <= i < self.indeg@.len() ==> (#[trigger] self.indeg@[i])
                            == self.in_deg(i),
                    forall|i: int| #[trigger]
                        self.in_deg(i) == (if neighbors@.take(j as int).contains(i as usize)
                            && 0 <= i < self.slots() {
                            (oldq.in_deg(i) - 1) as nat
                        } else {
                            oldq.in_deg(i)
                        }),
                    forall|x: usize| #[trigger]
                        self.srcs@.contains(x) <==> ((oldq.srcs@.contains(x) && x != z)
                            || (neighbors@.take(j as int).contains(x) && self.in_deg(x as int)
                            == 0)),
                    self.srcs@.no_duplicates(),
                decreases n_nb - j,
            {
                let b2 = neighbors[j];
                proof {
                    assert(neighbors@.contains(b2));
                    assert(oldq.edges().count((z, b2)) > 0);
                    assert(self.edges().count((z, b2)) == 1);
                    assert(oldq.is_live(b2 as int) && (z as int) < (b2 as int) && (b2 as int)
                        < oldq.slots());
                    assert(!neighbors@.take(j as int).contains(b2)) by {
                        if neighbors@.take(j as int).contains(b2) {
                            let j2 = choose|j2: int|
                                0 <= j2 < j && (#[trigger] neighbors@.take(j as int)[j2]) == b2;
                            assert(neighbors@[j2] == neighbors@[j as int]);
                        }
                    }
                    assert(self.in_deg(b2 as int) == oldq.in_deg(b2 as int));
                    assert(self.in_deg(b2 as int) >= 1) by {
                        vstd::multiset::axiom_count_le_len(
                            self.edges().filter(edge_into(b2 as int)),
                            (z, b2),
                        );
                        assert(self.edges().filter(edge_into(b2 as int)).count((z, b2)) == 1);
                    }
                }
                let d = self.indeg[b2];
                let ghost pre = self.edges();
                let ghost pre_self = *self;
                proof {
                    lemma_take_push_contains(neighbors@, j as int, b2);
                    assert forall|i: int|
                        true implies pre.filter(edge_into(i)).len() == (if neighbors@.take(
                        j as int,
                    ).contains(i as usize) && 0 <= i < pre_self.slots() {
                        (oldq.in_deg(i) - 1) as nat
                    } else {
                        oldq.in_deg(i)
                    }) by {
                        assert(pre_self.in_deg(i) == pre.filter(edge_into(i)).len());
                    }
                    if oldq.srcs@.contains(b2) {
                        assert(oldq.is_src(b2 as int));
                        vstd::multiset::axiom_count_le_len(
                            oldq.edges().filter(edge_into(b2 as int)),
                            (z, b2),
                        );
                        assert(oldq.edges().filter(edge_into(b2 as int)).count((z, b2))
                            == oldq.edges().count((z, b2)));
                        assert(false);
                    }
                }
                dag_remove_edge(&mut self.my_dag, z, b2);
                self.indeg[b2] = d - 1;
                let freed = d == 1;
                if freed {
                    proof {
                        if self.srcs@.contains(b2) {
                            assert(neighbors@.take(j as int).contains(b2));
                        }
                    }
                    self.srcs.push(b2);
                }
                proof {
                    self.lemma_slots_bound();
                    assert(self.edges() == pre.remove((z, b2)));
                    assert(self.slots() == pre_self.slots());
                    assert forall|i: int|
                        true implies #[trigger] self.in_deg(i) == (if i == b2 as int {
                        (pre.filter(edge_into(i)).len() - 1) as nat
                    } else {
                        pre.filter(edge_into(i)).len()
                    }) by {
                        lemma_filter_remove(pre, (z, b2), edge_into(i));
                        assert(edge_into(i)((z, b2)) == ((b2 as int) == i));
                    }
                    assert forall|i: int|
                        true implies #[trigger] self.in_deg(i) == (if neighbors@.take(
                        j as int + 1,
                    ).contains(i as usize) && 0 <= i < self.slots() {
                        (oldq.in_deg(i) - 1) as nat
                    } else {
                        oldq.in_deg(i)
                    }) by {
                        if i == b2 as int {
                            assert(neighbors@.take(j as int + 1).contains(b2));
                        } else if 0 <= i < self.slots() {
                            assert(i as usize != b2);
                            assert(neighbors@.take(j as int + 1).contains(i as usize)
                                == neighbors@.take(j as int).contains(i as usize));
                        }
                    }
                    assert forall|i: int|
                        0 <= i < self.indeg@.len() implies (#[trigger] self.indeg@[i])
                        == self.in_deg(i) by {
                        if i == b2 as int {
                            assert(self.indeg@[i] == d - 1);
                        } else {
                            assert(self.indeg@[i] == pre_self.indeg@[i]);
                            assert(pre_self.indeg@[i] == pre_self.in_deg(i));
                            assert(pre_self.in_deg(i) == pre.filter(edge_into(i)).len());
                        }
                    }
                    assert forall|b3: int|
                        0 <= b3 < n_nb implies #[trigger] self.edges().count(
                        (z, neighbors@[b3]),
                    ) == (if b3 < j + 1 {
                        0nat
                    } else {
                        1nat
                    }) by {
                        if neighbors@[b3] == b2 {
                            assert(b3 == j as int);
                        } else {
                            assert(self.edges().count((z, neighbors@[b3])) == pre.count(
                                (z, neighbors@[b3]),
                            ));
                            assert(pre_self.edges().count((z, neighbors@[b3])) == pre.count(
                                (z, neighbors@[b3]),
                            ));
                        }
                    }
                    assert forall|x: usize| #[trigger]
                        self.srcs@.contains(x) <==> ((oldq.srcs@.contains(x) && x != z) || (
                    neighbors@.take(j as int + 1).contains(x) && self.in_deg(x as int) == 0)) by {
                        if freed {
                            assert(self.srcs@ == pre_self.srcs@.push(b2));
                            assert(self.srcs@.contains(x) == (pre_self.srcs@.contains(x) || x
                                == b2)) by {
                                if self.srcs@.contains(x) {
                                    let j2 = choose|j2: int|
                                        0 <= j2 < self.srcs@.len() && (#[trigger] self.srcs@[j2])
                                            == x;
                                    if j2 < self.srcs@.len() - 1 {
                                        assert(pre_self.srcs@[j2] == x);
                                    }
                                }
                                if pre_self.srcs@.contains(x) {
                                    let j2 = choose|j2: int|
                                        0 <= j2 < pre_self.srcs@.len() && (
                                        #[trigger] pre_self.srcs@[j2]) == x;
                                    assert(self.srcs@[j2] == x);
                                }
                                if x == b2 {
                                    assert(self.srcs@[self.srcs@.len() - 1] == b2);
                                }
                            }
                            if x == b2 {
                                assert(self.in_deg(b2 as int) == 0);
                                assert(neighbors@.take(j as int + 1).contains(b2));
                            } else {
                                assert(self.in_deg(x as int) == pre_self.in_deg(x as int));
                            }
                        } else {
                            assert(self.srcs@ == pre_self.srcs@);
                            if x == b2 {
                                assert(self.in_deg(b2 as int) == d - 1 && d >= 2);
                                assert(!oldq.srcs@.contains(b2));
                                assert(!pre_self.srcs@.contains(b2)) by {
                                    if pre_self.srcs@.contains(b2) {
                                        assert(neighbors@.take(j as int).contains(b2));
                                    }
                                }
                            } else {
                                assert(self.in_deg(x as int) == pre_self.in_deg(x as int));
                            }
                        }
                    }
                    assert(self.srcs@.no_duplicates()) by {
                        if freed {
                            assert(pre_self.srcs@.no_duplicates());
                            assert(!pre_self.srcs@.contains(b2)) by {
                                if pre_self.srcs@.contains(b2) {
                                    assert(neighbors@.take(j as int).contains(b2));
                                }
                            }
                        }
                    }
                }
                j += 1;
            }
            // facts carried past the remaining bookkeeping
            proof {
                assert(neighbors@.take(n_nb as int) =~= neighbors@);
            }
            let ghost edges_after = self.edges();
            let ghost srcs_after = self.srcs@;
            let ghost indeg_after = self.indeg@;
            let ghost size_after = graph_size(self.my_dag);
            proof {
                assert(neighbors@.take(n_nb as int) == neighbors@);
                assert(size_after == graph_size(oldq.my_dag));
                assert forall|i: int|
                    0 <= i < indeg_after.len() implies (#[trigger] indeg_after[i])
                    == edges_after.filter(edge_into(i)).len() by {
                    assert(indeg_after[i] == self.indeg@[i]);
                    assert(self.in_deg(i) == edges_after.filter(edge_into(i)).len());
                }
                assert(indeg_after.len() == oldq.indeg@.len());
                assert(forall|e: (usize, usize)| #[trigger]
                    edges_after.count(e) <= oldq.edges().count(e));
                assert(forall|e: (usize, usize)|
                    (#[trigger] oldq.edges().count(e)) > 0 && e.0 != z ==> edges_after.count(e)
                        == oldq.edges().count(e));
                assert forall|e: (usize, usize)|
                    e.0 == z implies (#[trigger] edges_after.count(e)) == 0 by {
                    if edges_after.count(e) > 0 {
                        assert(oldq.edges().count(e) > 0);
                        assert(neighbors@.contains(e.1));
                        let b3 = choose|b3: int|
                            0 <= b3 < neighbors@.len() && (#[trigger] neighbors@[b3]) == e.1;
                        assert(self.edges().count((z, neighbors@[b3])) == 0);
                    }
                }
                assert forall|i: int|
                    true implies #[trigger] edges_after.filter(edge_into(i)).len() == (if
                neighbors@.contains(i as usize) && 0 <= i < oldq.slots() {
                        (oldq.in_deg(i) - 1) as nat
                    } else {
                        oldq.in_deg(i)
                    }) by {
                    assert(self.in_deg(i) == edges_after.filter(edge_into(i)).len());
                    assert(self.slots() == oldq.slots());
                    assert(self.in_deg(i) == (if neighbors@.take(n_nb as int).contains(i as usize)
                        && 0 <= i < self.slots() {
                        (oldq.in_deg(i) - 1) as nat
                    } else {
                        oldq.in_deg(i)
                    }));
                }
                assert forall|x: usize|
                    true implies (#[trigger] srcs_after.contains(x) <==> ((oldq.srcs@.contains(x)
                        && x != z) || (neighbors@.contains(x) && edges_after.filter(
                        edge_into(x as int),
                    ).len() == 0))) by {
                    assert(self.in_deg(x as int) == edges_after.filter(edge_into(x as int)).len());
                    assert(self.srcs@.contains(x) <==> ((oldq.srcs@.contains(x) && x != z) || (
                    neighbors@.take(n_nb as int).contains(x) && self.in_deg(x as int) == 0)));
                }
                assert forall|x: usize| #[trigger]
                    neighbors@.contains(x) implies oldq.in_deg(x as int) >= 1 by {
                    assert(oldq.edges().count((z, x)) > 0);
                    vstd::multiset::axiom_count_le_len(
                        oldq.edges().filter(edge_into(x as int)),
                        (z, x),
                    );
                    assert(oldq.edges().filter(edge_into(x as int)).count((z, x))
                        == oldq.edges().count((z, x)));
                }
            }
            // the leaver is no sink any more (it is leaving), and its slot
            // becomes a tombstone
            match maybe_position_of(&self.sinks, z) {
                Some(pos2) => {
                    proof {
                        assert(self.sinks@[pos2 as int] == z);
                    }
                    remove_at(&mut self.sinks, pos2);
                },
                None => {},
            }
            proof {
                assert forall|x: usize| #[trigger]
                    self.sinks@.contains(x) <==> (oldq.sinks@.contains(x) && x != z) by {
                    if oldq.sinks@.contains(z) {
                    } else {
                        if self.sinks@.contains(x) && x == z {
                            assert(oldq.sinks@.contains(z));
                        }
                    }
                }
            }
            let slot = take_slot(&mut self.payloads, z);
            match slot {
                Some(pair) => {
                    proof {
                        lemma_live_pairs_update(oldq.payloads@, z as int);
                        lemma_live_pairs_member(oldq.payloads@, z as int);
                    }
                    self.live_count = self.live_count - 1;
                    proof {
                        let zi = z as int;
                        assert(self.edges() == edges_after);
                        assert(self.srcs@ == srcs_after && self.indeg@ == indeg_after);
                        assert(self.slots() == oldq.slots());
                        assert forall|i: int|
                            true implies #[trigger] self.in_deg(i) == (if neighbors@.contains(
                            i as usize,
                        ) && 0 <= i < self.slots() {
                            (oldq.in_deg(i) - 1) as nat
                        } else {
                            oldq.in_deg(i)
                        }) by {
                            assert(self.in_deg(i) == edges_after.filter(edge_into(i)).len());
                        }
                        assert forall|x: usize|
                            true implies (#[trigger] self.srcs@.contains(x) <==> ((
                        oldq.srcs@.contains(x) && x != z) || (neighbors@.contains(x)
                            && self.in_deg(x as int) == 0))) by {
                            assert(self.in_deg(x as int) == edges_after.filter(
                                edge_into(x as int),
                            ).len());
                            assert(srcs_after.contains(x) <==> ((oldq.srcs@.contains(x) && x != z)
                                || (neighbors@.contains(x) && edges_after.filter(
                                edge_into(x as int),
                            ).len() == 0)));
                        }
                        assert(oldq.in_deg(zi) == 0);
                        assert forall|e: (usize, usize)|
                            e.1 == z implies (#[trigger] edges_after.count(e)) == 0 by {
                            if oldq.edges().count(e) > 0 {
                                vstd::multiset::axiom_count_le_len(
                                    oldq.edges().filter(edge_into(zi)),
                                    e,
                                );
                                assert(oldq.edges().filter(edge_into(zi)).count(e)
                                    == oldq.edges().count(e));
                            }
                            assert(edges_after.count(e) <= oldq.edges().count(e));
                        }
                        // validity, piece by piece
                        assert forall|e: (usize, usize)|
                            (#[trigger] self.edges().count(e)) > 0 implies (e.0 as int) < (
                        e.1 as int) && (e.1 as int) < self.slots() && self.is_live(e.0 as int)
                            && self.is_live(e.1 as int) by {
                            assert(oldq.edges().count(e) > 0);
                            assert(e.0 != z && e.1 != z);
                        }
                        assert forall|x: usize| #[trigger]
                            self.sinks@.contains(x) implies self.is_sink(x as int) by {
                            assert(oldq.is_sink(x as int));
                            assert(x != z);
                            assert(self.out_deg(x as int) == oldq.out_deg(x as int)) by {
                                lemma_filter_same(self.edges(), oldq.edges(), edge_from(x as int));
                            }
                        }
                        assert forall|i: int| #[trigger]
                            self.is_sink(i) implies self.sinks@.contains(i as usize) by {
                            self.lemma_slots_bound();
                            assert(i != zi);
                            assert((i as usize) as int == i);
                            assert(self.out_deg(i) == oldq.out_deg(i)) by {
                                lemma_filter_same(self.edges(), oldq.edges(), edge_from(i));
                            }
                            assert(oldq.is_sink(i));
                        }
                        assert forall|k2: int|
                            0 <= k2 < self.srcs@.len() implies self.is_src(
                            #[trigger] self.srcs@[k2] as int,
                        ) by {
                            let x = self.srcs@[k2];
                            assert(self.srcs@.contains(x));
                            if oldq.srcs@.contains(x) && x != z {
                                assert(oldq.is_src(x as int));
                                assert(self.in_deg(x as int) <= oldq.in_deg(x as int));
                            }
                        }
                        assert forall|i: int| #[trigger]
                            self.is_src(i) implies self.srcs@.contains(i as usize) by {
                            assert(i != zi);
                            assert(self.is_live(i) && 0 <= i < self.slots());
                            assert(oldq.is_live(i));
                            self.lemma_slots_bound();
                            assert((i as usize) as int == i);
                            if oldq.in_deg(i) == 0 {
                                assert(oldq.is_src(i));
                                assert(oldq.srcs@.contains(i as usize));
                            } else {
                                assert(neighbors@.contains(i as usize));
                            }
                        }
                        assert(self.payloads@.len() == graph_size(self.my_dag)) by {
                            assert(graph_size(self.my_dag) == size_after);
                        }
                        assert(self.indeg@.len() == self.payloads@.len());
                        assert forall|i: int|
                            0 <= i < self.slots() implies (#[trigger] self.indeg@[i])
                            == self.in_deg(i) by {
                            assert(self.indeg@[i] == indeg_after[i]);
                            assert(self.in_deg(i) == edges_after.filter(edge_into(i)).len());
                        }
                        assert(forall|e: (usize, usize)| (#[trigger] self.edges().count(e)) <= 1);
                        assert(self.srcs@.no_duplicates());
                        assert(self.sinks@.no_duplicates());
                        assert forall|k2: int|
                            0 <= k2 < self.sinks@.len() implies self.is_sink(
                            (#[trigger] self.sinks@[k2]) as int,
                        ) by {
                            assert(self.sinks@.contains(self.sinks@[k2]));
                        }
                        assert(self.live_count == live_pairs(self.payloads@).len());
                        // the returned pair and the remaining contents
                        assert(oldq.peek_spec() == Some(oldq.pair_at(zi))) by {
                            assert(oldq.is_best(zi));
                            oldq.lemma_best_unique(zi, choose|i: int| #[trigger] oldq.is_best(i));
                        }
                        assert(self.contents() == oldq.contents().remove((pair.0, pair.1)));
                    }
                    Some(pair)
                },
                None => {
                    proof {
                        assert(false);
                    }
                    vstd::pervasive::unreached()
                },
            }
        }
    }

    fn dequeue_batch(&mut self, around_how_many: usize, hard_limit: usize) -> (r: Vec<(T, u64)>)
        ensures
            r@.len() == vstd::math::min(around_how_many as int, old(self).contents().len() as int),
            exists|states: Seq<BlockingQueue<T>>|
                (#[trigger] release_walk(states, r@)) && states[0] == *old(self) && states.last()
                    == *final(self),
    {
        let mut to_return: Vec<(T, u64)> = Vec::new();
        let mut done = false;
        let ghost mut gstates: Seq<BlockingQueue<T>> = seq![*old(self)];
        proof {
            assert(old(self).contents() =~= self.contents().add(to_return@.to_multiset()));
        }
        while !done && to_return.len() < around_how_many
            invariant
                self.valid(),
                old(self).contents() == self.contents().add(to_return@.to_multiset()),
                to_return@.len() <= around_how_many,
                done ==> self.contents().len() == 0,
                gstates.len() == to_return@.len() + 1,
                release_walk(gstates, to_return@),
                gstates[0] == *old(self),
                gstates.last() == *self,
            decreases around_how_many - to_return@.len() + (if done {
                0int
            } else {
                1int
            }),
        {
            let ghost prev = *self;
            let put_in = self.my_dequeue();
            match put_in {
                Some(pair) => {
                    proof {
                        prev.lemma_peek_in_contents();
                    }
                    let ghost pre_ret = to_return@;
                    to_return.push(pair);
                    proof {
                        assert(to_return@.to_multiset() == pre_ret.to_multiset().insert(pair));
                        assert(old(self).contents() =~= self.contents().add(
                            to_return@.to_multiset(),
                        ));
                        let s2 = gstates.push(*self);
                        assert forall|i: int| 0 <= i < to_return@.len() implies {
                            &&& (#[trigger] s2[i]).valid()
                            &&& s2[i].peek_spec() == Some(to_return@[i])
                            &&& s2[i + 1].contents() == s2[i].contents().remove(to_return@[i])
                        } by {
                            if i < pre_ret.len() {
                                assert(s2[i] == gstates[i]);
                                assert(s2[i + 1] == gstates[i + 1]);
                                assert(to_return@[i] == pre_ret[i]);
                            } else {
                                assert(s2[i] == prev);
                                assert(s2[i + 1] == *self);
                                assert(to_return@[i] == pair);
                            }
                        }
                        gstates = s2;
                    }
                },
                None => {
                    proof {
                        prev.lemma_peek_in_contents();
                    }
                    done = true;
                },
            }
        }
        proof {
            assert(release_walk(gstates, to_return@) && gstates[0] == *old(self) && gstates.last()
                == *self);
            assert(old(self).contents().len() == self.contents().len()
                + to_return@.to_multiset().len());
        }
        to_return
    }
}

/// The walk a run of dequeues makes: each step hands out the best source of
/// the queue it leaves from, so the output lists successive dequeue results.
pub open spec fn release_walk<T: Blocker>(states: Seq<BlockingQueue<T>>, out: Seq<(T, u64)>) -> bool {
    &&& states.len() == out.len() + 1
    &&& forall|i: int|
        0 <= i < out.len() ==> {
            &&& (#[trigger] states[i]).valid()
            &&& states[i].peek_spec() == Some(out[i])
            &&& states[i + 1].contents() == states[i].contents().remove(out[i])
        }
}

impl<T: Blocker> BlockingQueue<T> {
    /// Scan the cached sources for the one the next dequeue takes.
    fn find_best_source(&self) -> (r: usize)
        requires
            self.valid(),
            self.srcs@.len() > 0,
        ensures
            self.is_best(r as int),
    {
        let mut best: usize = self.srcs[0];
        let mut best_pri: u64 = self.priority_of(best);
        let mut k: usize = 1;
        let n_srcs = self.srcs.len();
        while k < n_srcs
            invariant
                self.valid(),
                1 <= k <= n_srcs,
                n_srcs == self.srcs@.len(),
                self.is_src(best as int),
                best_pri == self.pri_at(best as int),
                forall|k2: int|
                    0 <= k2 < k ==> (#[trigger] self.srcs@[k2]) == best || self.pri_at(
                        self.srcs@[k2] as int,
                    ) < self.pri_at(best as int) || (self.pri_at(self.srcs@[k2] as int)
                        == self.pri_at(best as int) && self.srcs@[k2] > best),
            decreases n_srcs - k,
        {
            let cand = self.srcs[k];
            let cand_pri = self.priority_of(cand);
            if cand_pri > best_pri || (cand_pri == best_pri && cand < best) {
                best = cand;
                best_pri = cand_pri;
            }
            k += 1;
        }
        proof {
            assert forall|j: int|
                (#[trigger] self.is_src(j)) && j != best as int implies self.pri_at(j)
                < self.pri_at(best as int) || (self.pri_at(j) == self.pri_at(best as int) && j
                > best as int) by {
                self.lemma_slots_bound();
                assert(0 <= j < self.slots());
                assert((j as usize) as int == j);
                assert(self.srcs@.contains(j as usize));
                let k2 = choose|k2: int| 0 <= k2 < self.srcs@.len() && self.srcs@[k2] == j as usize;
                assert(self.srcs@[k2] == j as usize);
            }
        }
        best
    }

    /// Append the newcomer's slot, degree record, and sink mark, closing an
    /// enqueue whose edges are already in the graph.
    fn finish_enqueue(&mut self, new_obj: T, new_obj_priority: u64, indeg_val: usize, idx: usize, Ghost(oldq): Ghost<Self>)
        requires
            oldq.valid(),
            oldq.contents().len() < usize::MAX,
            idx == oldq.slots(),
            graph_size(old(self).my_dag) == oldq.slots() + 1,
            old(self).payloads@ == oldq.payloads@,
            old(self).indeg@ == oldq.indeg@,
            old(self).live_count == oldq.live_count,
            forall|e: (usize, usize)|
                (e.1 as int) != oldq.slots() ==> (#[trigger] old(self).edges().count(e))
                    == oldq.edges().count(e),
            forall|e: (usize, usize)| e.1 == idx ==> (#[trigger] old(self).edges().count(e))
                <= 1,
            forall|e: (usize, usize)|
                e.1 == idx && (#[trigger] old(self).edges().count(e)) > 0 ==> (e.0 as int)
                    < oldq.slots() && oldq.is_live(e.0 as int),
            old(self).in_deg(idx as int) == indeg_val,
            old(self).srcs@.no_duplicates(),
            forall|x: usize|
                (#[trigger] old(self).srcs@.contains(x)) <==> (oldq.srcs@.contains(x) || (indeg_val
                    == 0 && x == idx)),
            old(self).sinks@.no_duplicates(),
            forall|x: usize|
                (#[trigger] old(self).sinks@.contains(x)) <==> (oldq.sinks@.contains(x) && old(
                    self,
                ).edges().count((x, idx)) == 0),
        ensures
            final(self).valid(),
            final(self).contents() == oldq.contents().insert((new_obj, new_obj_priority)),
            final(self).edges() == old(self).edges(),
            final(self).slots() == oldq.slots() + 1,
            final(self).is_live(oldq.slots()),
            final(self).pair_at(oldq.slots()) == (new_obj, new_obj_priority),
            forall|i: int|
                0 <= i < oldq.slots() ==> ((#[trigger] final(self).is_live(i)) == oldq.is_live(i)
                    && (oldq.is_live(i) ==> final(self).pair_at(i) == oldq.pair_at(i))),
    {
        proof {
            assert(live_pairs(self.payloads@.push(Some((new_obj, new_obj_priority))))
                == live_pairs(self.payloads@).insert((new_obj, new_obj_priority))) by {
                let s2 = self.payloads@.push(Some((new_obj, new_obj_priority)));
                assert(s2.drop_last() =~= self.payloads@);
            }
        }
        self.payloads.push(Some((new_obj, new_obj_priority)));
        self.indeg.push(indeg_val);
        self.sinks.push(idx);
        self.live_count = self.live_count + 1;
        proof {
            let n = oldq.slots();
            assert forall|i: int| 0 <= i < n implies (#[trigger] self.indeg@[i]) == self.in_deg(
                i,
            ) by {
                lemma_filter_same(self.edges(), oldq.edges(), edge_into(i));
                assert(oldq.indeg@[i] == oldq.in_deg(i));
            }
            assert forall|e: (usize, usize)|
                (#[trigger] self.edges().count(e)) > 0 implies (e.0 as int) < (e.1 as int) && (
            e.1 as int) < self.slots() && self.is_live(e.0 as int) && self.is_live(e.1 as int) by {
                if e.1 as int != n {
                    assert(oldq.edges().count(e) > 0);
                } else {
                    assert(self.edges().count((e.0, idx)) > 0);
                }
            }
            assert forall|e: (usize, usize)| true implies (#[trigger] self.edges().count(e))
                <= 1 by {
                if e.1 as int != n {
                    assert(self.edges().count(e) == oldq.edges().count(e));
                } else {
                    assert(self.edges().count((e.0, idx)) <= 1);
                }
            }
            assert forall|k2: int|
                0 <= k2 < self.srcs@.len() implies self.is_src(
                #[trigger] self.srcs@[k2] as int,
            ) by {
                let x = self.srcs@[k2];
                assert(self.srcs@.contains(x));
                if oldq.srcs@.contains(x) {
                    assert(oldq.is_src(x as int));
                    assert(self.in_deg(x as int) == oldq.in_deg(x as int)) by {
                        lemma_filter_same(self.edges(), oldq.edges(), edge_into(x as int));
                    }
                } else {
                    assert(indeg_val == 0 && x == idx);
                }
            }
            assert forall|i: int| #[trigger] self.is_src(i) implies self.srcs@.contains(
                i as usize,
            ) by {
                if i < n {
                    assert(self.in_deg(i) == oldq.in_deg(i)) by {
                        lemma_filter_same(self.edges(), oldq.edges(), edge_into(i));
                    }
                    assert(oldq.is_src(i));
                } else {
                    assert(i == n as int);
                    assert(indeg_val == 0);
                }
            }
            assert forall|x: usize| true implies #[trigger] self.out_deg(x as int) == oldq.out_deg(
                x as int,
            ) + self.edges().count((x, idx)) by {
                assert(oldq.edges().count((x, idx)) == 0) by {
                    if oldq.edges().count((x, idx)) > 0 {
                        assert((idx as int) < n);
                    }
                }
                if self.edges().count((x, idx)) > 0 {
                    assert(self.edges().filter(|e: (usize, usize)| e.0 == x as int)
                        =~= oldq.edges().filter(|e: (usize, usize)| e.0 == x as int).insert(
                        (x, idx),
                    ));
                } else {
                    assert(self.edges().filter(|e: (usize, usize)| e.0 == x as int)
                        =~= oldq.edges().filter(|e: (usize, usize)| e.0 == x as int));
                }
            }
            assert(self.out_deg(idx as int) == 0) by {
                lemma_filter_none(self.edges(), edge_from(idx as int));
            }
            assert(self.sinks@.no_duplicates()) by {
                if old(self).sinks@.contains(idx) {
                    assert(oldq.sinks@.contains(idx));
                    assert(oldq.is_sink(idx as int));
                    assert(oldq.is_live(idx as int));
                }
            }
            assert forall|k2: int|
                0 <= k2 < self.sinks@.len() implies self.is_sink(
                #[trigger] self.sinks@[k2] as int,
            ) by {
                let x = self.sinks@[k2];
                if k2 < self.sinks@.len() - 1 {
                    assert(old(self).sinks@.contains(x));
                    assert(oldq.is_sink(x as int));
                    assert(old(self).edges().count((x, idx)) == 0);
                } else {
                    assert(x == idx);
                }
            }
            assert forall|i: int| #[trigger] self.is_sink(i) implies self.sinks@.contains(
                i as usize,
            ) by {
                if i < n {
                    assert(oldq.is_sink(i)) by {
                        assert(self.out_deg(i) == oldq.out_deg(i) + self.edges().count(
                            (i as usize, idx),
                        ));
                    }
                    assert(self.edges().count((i as usize, idx)) == 0);
                    assert(old(self).sinks@.contains(i as usize));
                    assert(self.sinks@ == old(self).sinks@.push(idx));
                    let j = choose|j: int|
                        0 <= j < old(self).sinks@.len() && old(self).sinks@[j] == i as usize;
                    assert(self.sinks@[j] == i as usize);
                } else {
                    assert(self.sinks@[self.sinks@.len() - 1] == idx);
                }
            }
        }
    }
}

impl<T: Blocker> BlockingQueue<T> {
    /// Among the items that are simultaneously unblocked, the next dequeue
    /// carries a maximal priority.
    pub proof fn lemma_next_has_max_priority(&self, i: int, j: int)
        requires
            self.valid(),
            self.is_best(i),
            self.is_src(j),
        ensures
            self.pri_at(j) <= self.pri_at(i),
    {
    }

    /// An item something still precedes is never the one released next,
    /// whatever its priority: obligations outrank priorities.
    pub proof fn lemma_blocked_is_not_released(&self, e: (usize, usize), i: int)
        requires
            self.valid(),
            self.edges().count(e) > 0,
            self.is_best(i),
        ensures
            i != e.1 as int,
    {
        if i == e.1 as int {
            vstd::multiset::axiom_count_le_len(self.edges().filter(edge_into(i)), e);
            assert(self.edges().filter(edge_into(i)).count(e) == self.edges().count(e));
        }
    }
}

/// Taking one more element of a list adds exactly that element to the
/// members taken so far.
proof fn lemma_take_push_contains(s: Seq<usize>, j: int, x: usize)
    requires
        0 <= j < s.len(),
        s[j] == x,
    ensures
        forall|y: usize| #[trigger]
            s.take(j + 1).contains(y) <==> (s.take(j).contains(y) || y == x),
{
    assert(s.take(j + 1) =~= s.take(j).push(x));
    assert forall|y: usize| #[trigger]
        s.take(j + 1).contains(y) <==> (s.take(j).contains(y) || y == x) by {
        if s.take(j + 1).contains(y) {
            let j2 = choose|j2: int| 0 <= j2 < j + 1 && (#[trigger] s.take(j + 1)[j2]) == y;
            if j2 < j {
                assert(s.take(j)[j2] == y);
                assert(s.take(j).contains(y));
            } else {
                assert(y == x);
            }
        }
        if s.take(j).contains(y) {
            let j2 = choose|j2: int| 0 <= j2 < j && (#[trigger] s.take(j)[j2]) == y;
            assert(s.take(j + 1)[j2] == y);
        }
        if y == x {
            assert(s.take(j + 1)[j] == x);
        }
    }
}

/// The index at which a value stands in a list that holds it.
fn position_of(v: &Vec<usize>, x: usize) -> (r: usize)
    requires
        v@.contains(x),
    ensures
        r < v@.len(),
        v@[r as int] == x,
{
    let n = v.len();
    let mut i: usize = 0;
    while i < n
        invariant
            i <= n,
            n == v@.len(),
            v@.contains(x),
            forall|j: int| 0 <= j < i ==> v@[j] != x,
        decreases n - i,
    {
        if v[i] == x {
            return i;
        }
        i += 1;
    }
    proof {
        let j = choose|j: int| 0 <= j < v@.len() && v@[j] == x;
        assert(false);
    }
    vstd::pervasive::unreached()
}

/// The index at which a value stands in a list, if it stands anywhere.
fn maybe_position_of(v: &Vec<usize>, x: usize) -> (r: Option<usize>)
    ensures
        match r {
            Some(p) => p < v@.len() && v@[p as int] == x,
            None => !v@.contains(x),
        },
{
    let n = v.len();
    let mut i: usize = 0;
    while i < n
        invariant
            i <= n,
            n == v@.len(),
            forall|j: int| 0 <= j < i ==> v@[j] != x,
        decreases n - i,
    {
        if v[i] == x {
            return Some(i);
        }
        i += 1;
    }
    proof {
        if v@.contains(x) {
            let j = choose|j: int| 0 <= j < v@.len() && v@[j] == x;
            assert(false);
        }
    }
    None
}

/// Remove the entry at a position from a duplicate-free list; membership of
/// everything else is untouched.
fn remove_at(v: &mut Vec<usize>, pos: usize)
    requires
        pos < old(v)@.len(),
        old(v)@.no_duplicates(),
    ensures
        final(v)@ == old(v)@.remove(pos as int),
        final(v)@.no_duplicates(),
        final(v)@.len() == old(v)@.len() - 1,
        forall|x: usize|
            (#[trigger] final(v)@.contains(x)) <==> (old(v)@.contains(x) && x != old(
                v,
            )@[pos as int]),
{
    let ghost oldv = v@;
    let ghost z = v@[pos as int];
    v.remove(pos);
    proof {
        assert forall|x: usize| #[trigger] v@.contains(x) implies oldv.contains(x) && x != z by {
            let j = choose|j: int| 0 <= j < v@.len() && v@[j] == x;
            let j2: int = if j < pos {
                j
            } else {
                j + 1
            };
            assert(oldv[j2] == x);
            if x == z {
                assert(oldv[j2] == oldv[pos as int] && j2 != pos);
            }
        }
        assert forall|x: usize| oldv.contains(x) && x != z implies #[trigger] v@.contains(x) by {
            let j = choose|j: int| 0 <= j < oldv.len() && oldv[j] == x;
            assert(j != pos);
            if j < pos {
                assert(v@[j] == x);
            } else {
                assert(v@[j - 1] == x);
            }
        }
        assert(v@.no_duplicates()) by {
            assert forall|a: int, b: int|
                0 <= a < v@.len() && 0 <= b < v@.len() && a != b implies v@[a] != v@[b] by {
                let a2: int = if a < pos {
                    a
                } else {
                    a + 1
                };
                let b2: int = if b < pos {
                    b
                } else {
                    b + 1
                };
                assert(v@[a] == oldv[a2] && v@[b] == oldv[b2]);
            }
        }
    }
}

} // verus!
