use vstd::prelude::*;

verus! {

use vstd::multiset::Multiset;
use std::collections::HashMap;
use crate::my_priority_queue::AbstractPriorityQueue;

broadcast use {
    vstd::multiset::group_multiset_axioms,
    vstd::multiset::group_multiset_properties,
    vstd::std_specs::hash::group_hash_axioms,
};

/// A monotone projection from fine priorities to coarse bucket keys: the
/// implementing marker type fixes the map.
pub trait CoarseGrainedPriority: Sized {
    /// The projection, at the specification level.
    spec fn coarse_spec(p: u64) -> i64;

    /// Project a fine priority onto its bucket key.
    fn coarse_grain(p: &u64) -> (c: i64)
        ensures
            c == Self::coarse_spec(*p),
    ;

    /// The projection must respect the priority order.
    proof fn lemma_monotone(p1: u64, p2: u64)
        requires
            p1 <= p2,
        ensures
            Self::coarse_spec(p1) <= Self::coarse_spec(p2),
    ;
}

/// A ready-made projection: priorities are grouped ten by ten.
pub struct TenfoldCoarse;

impl CoarseGrainedPriority for TenfoldCoarse {
    open spec fn coarse_spec(p: u64) -> i64 {
        (p / 10) as i64
    }

    fn coarse_grain(p: &u64) -> (c: i64) {
        (*p / 10) as i64
    }

    proof fn lemma_monotone(p1: u64, p2: u64) {
        vstd::arithmetic::div_mod::lemma_div_is_ordered(p1 as int, p2 as int, 10);
    }
}

/// A small keyed container: things of type `Q` can be looked up, inserted
/// and removed by a bucket key.
pub trait IndexInto<Q>: Sized {
    /// The stored associations.
    spec fn table(&self) -> Map<i64, Q>;

    fn new() -> (r: Self)
        ensures
            r.table() == Map::<i64, Q>::empty(),
    ;

    fn get(&self, which: &i64) -> (r: Option<&Q>)
        ensures
            match r {
                Some(q) => self.table().dom().contains(*which) && *q == self.table()[*which],
                None => !self.table().dom().contains(*which),
            },
    ;

    fn insert(&mut self, which: i64, value: Q) -> (r: Option<Q>)
        ensures
            final(self).table() == old(self).table().insert(which, value),
            match r {
                Some(prior) => old(self).table().dom().contains(which) && prior == old(self).table()[which],
                None => !old(self).table().dom().contains(which),
            },
    ;

    fn remove(&mut self, which: &i64) -> (r: Option<Q>)
        ensures
            final(self).table() == old(self).table().remove(*which),
            match r {
                Some(prior) => old(self).table().dom().contains(*which) && prior == old(self).table()[*which],
                None => !old(self).table().dom().contains(*which),
            },
    ;
}

/// The sparse store: a hash map from bucket keys to queues.
impl<Q> IndexInto<Q> for HashMap<i64, Q> {
    open spec fn table(&self) -> Map<i64, Q> {
        self@
    }

    fn new() -> (r: Self) {
        let r = HashMap::<i64, Q>::new();
        proof {
            assert(r@ =~= Map::<i64, Q>::empty());
        }
        r
    }

    fn get(&self, which: &i64) -> (r: Option<&Q>) {
        HashMap::get(self, which)
    }

    fn insert(&mut self, which: i64, value: Q) -> (r: Option<Q>) {
        let prior = HashMap::remove(self, &which);
        HashMap::insert(self, which, value);
        proof {
            assert(self@ =~= old(self)@.insert(which, value));
        }
        prior
    }

    fn remove(&mut self, which: &i64) -> (r: Option<Q>) {
        let r = HashMap::remove(self, which);
        proof {
            assert(self@ =~= old(self)@.remove(*which));
        }
        r
    }
}

/// The dense store of the storage capability: non-negative integer keys
/// index straight into one growable row of optional slots, so a lookup is
/// one offset step instead of a hash.  `insert` grows the row with empty
/// slots as needed, and `remove` trims the empty slots left at its end.
pub struct DenseSlots<Q> {
    slots: Vec<Option<Q>>,
}

/// The associations a slot row stores.
pub open spec fn dense_table<Q>(slots: Seq<Option<Q>>) -> Map<usize, Q> {
    Map::new(
        |k: usize| k < slots.len() && slots[k as int] is Some,
        |k: usize| slots[k as int].unwrap(),
    )
}

impl<Q> DenseSlots<Q> {
    /// The stored associations.
    pub closed spec fn table(&self) -> Map<usize, Q> {
        dense_table(self.slots@)
    }

    /// The row never ends in an empty slot, so its length tells the least
    /// bound on the keys in use.
    pub closed spec fn trimmed(&self) -> bool {
        self.slots@.len() == 0 || self.slots@.last() is Some
    }

    pub fn new() -> (r: Self)
        ensures
            r.table() == Map::<usize, Q>::empty(),
            r.trimmed(),
    {
        let r = DenseSlots::<Q> { slots: Vec::new() };
        proof {
            assert(r.table() =~= Map::<usize, Q>::empty());
        }
        r
    }

    pub fn get(&self, which: &usize) -> (r: Option<&Q>)
        ensures
            match r {
                Some(q) => self.table().dom().contains(*which) && *q == self.table()[*which],
                None => !self.table().dom().contains(*which),
            },
    {
        row_get(&self.slots, *which)
    }

    pub fn insert(&mut self, which: usize, value: Q) -> (r: Option<Q>)
        requires
            which < usize::MAX,
        ensures
            final(self).table() == old(self).table().insert(which, value),
            old(self).trimmed() ==> final(self).trimmed(),
            match r {
                Some(prior) => old(self).table().dom().contains(which) && prior == old(
                    self,
                ).table()[which],
                None => !old(self).table().dom().contains(which),
            },
    {
        let r = row_set(&mut self.slots, which, value);
        proof {
            assert(self.table() =~= old(self).table().insert(which, value));
            if old(self).trimmed() {
                assert(self.slots@.len() >= 1);
                if self.slots@.len() == which + 1 {
                    assert(self.slots@.last() is Some);
                } else {
                    assert(self.slots@.len() == old(self).slots@.len());
                    assert(self.slots@.last() == old(self).slots@.last());
                }
            }
        }
        r
    }

    pub fn remove(&mut self, which: &usize) -> (r: Option<Q>)
        ensures
            final(self).table() == old(self).table().remove(*which),
            final(self).trimmed(),
            match r {
                Some(prior) => old(self).table().dom().contains(*which) && prior == old(
                    self,
                ).table()[*which],
                None => !old(self).table().dom().contains(*which),
            },
    {
        let idx = *which;
        if idx < self.slots.len() {
            let r = take_dense_slot(&mut self.slots, idx);
            let ghost mid = self.slots@;
            trim_row(&mut self.slots);
            proof {
                assert(mid =~= old(self).slots@.update(idx as int, None));
                assert forall|k: usize|
                    #![trigger dense_table(self.slots@).dom().contains(k)]
                    true implies (dense_table(self.slots@).dom().contains(k) == old(
                    self,
                ).table().remove(*which).dom().contains(k)) && (dense_table(
                    self.slots@,
                ).dom().contains(k) ==> dense_table(self.slots@)[k] == old(self).table().remove(
                    *which,
                )[k]) by {
                    if (k as int) < self.slots@.len() {
                        assert(self.slots@[k as int] == mid[k as int]);
                    } else if (k as int) < mid.len() {
                        assert(mid[k as int] is None);
                    }
                }
                assert(self.table() =~= old(self).table().remove(*which));
            }
            r
        } else {
            let ghost mid = self.slots@;
            trim_row(&mut self.slots);
            proof {
                assert forall|k: usize|
                    (k as int) >= self.slots@.len() && (k as int) < mid.len() implies mid[
                k as int] is None by {}
                assert(self.table() =~= old(self).table().remove(*which));
            }
            None
        }
    }

    /// The stored values, in key order, as one sequence.
    pub closed spec fn values_seq(&self) -> Seq<Q> {
        dense_values(self.slots@)
    }

    /// Every stored value, in key order, the empty slots skipped over.
    pub fn values(&self) -> (r: Vec<&Q>)
        ensures
            r@.len() == self.table().dom().len(),
            r@.map_values(|q: &Q| *q) == self.values_seq(),
    {
        let n = self.slots.len();
        let mut out: Vec<&Q> = Vec::new();
        let mut i: usize = 0;
        proof {
            assert(key_set_below(self.slots@, 0) =~= Set::<usize>::empty());
            assert(self.table().dom() =~= key_set_below(self.slots@, n as int));
        }
        while i < n
            invariant
                i <= n,
                n == self.slots@.len(),
                out@.len() == key_set_below(self.slots@, i as int).len(),
                out@.map_values(|q: &Q| *q) == dense_values(self.slots@.take(i as int)),
            decreases n - i,
        {
            proof {
                assert(key_set_below(self.slots@, i + 1) =~= (if self.slots@[i as int] is Some {
                    key_set_below(self.slots@, i as int).insert(i as usize)
                } else {
                    key_set_below(self.slots@, i as int)
                }));
                lemma_key_set_below_finite(self.slots@, i as int);
            }
            proof {
                assert(self.slots@.take(i + 1).drop_last() =~= self.slots@.take(i as int));
                assert(self.slots@.take(i + 1).last() == self.slots@[i as int]);
            }
            match &self.slots[i] {
                Some(q) => {
                    proof {
                        assert(!key_set_below(self.slots@, i as int).contains(i as usize));
                    }
                    let ghost pre_out = out@;
                    out.push(q);
                    proof {
                        assert(out@.map_values(|q2: &Q| *q2) =~= pre_out.map_values(
                            |q2: &Q| *q2,
                        ).push(*q));
                        assert(dense_values(self.slots@.take(i + 1)) =~= dense_values(
                            self.slots@.take(i as int),
                        ).push(*q));
                    }
                },
                None => {
                    proof {
                        assert(dense_values(self.slots@.take(i + 1)) =~= dense_values(
                            self.slots@.take(i as int),
                        ));
                    }
                },
            }
            i += 1;
        }
        proof {
            assert(self.table().dom() =~= key_set_below(self.slots@, n as int));
            assert(self.slots@.take(n as int) =~= self.slots@);
        }
        out
    }
}

/// The values a slot row stores, in key order.
pub open spec fn dense_values<Q>(slots: Seq<Option<Q>>) -> Seq<Q>
    decreases slots.len(),
{
    if slots.len() == 0 {
        Seq::empty()
    } else {
        dense_values(slots.drop_last()) + (match slots.last() {
            Some(q) => seq![q],
            None => Seq::empty(),
        })
    }
}

/// The keys below a bound whose slots hold something.
pub(crate) open spec fn key_set_below<Q>(slots: Seq<Option<Q>>, hi: int) -> Set<usize> {
    Set::new(|k: usize| k < hi && k < slots.len() && slots[k as int] is Some)
}

/// Each such key set is finite: one key at most joins per bound step.
proof fn lemma_key_set_below_finite<Q>(slots: Seq<Option<Q>>, hi: int)
    requires
        0 <= hi <= usize::MAX,
    ensures
        key_set_below(slots, hi).finite(),
    decreases hi,
{
    if hi == 0 {
        assert(key_set_below(slots, 0) =~= Set::<usize>::empty());
    } else {
        lemma_key_set_below_finite(slots, hi - 1);
        if hi - 1 < slots.len() && slots[hi - 1] is Some {
            assert(key_set_below(slots, hi) =~= key_set_below(slots, hi - 1).insert(
                (hi - 1) as usize,
            ));
        } else {
            assert(key_set_below(slots, hi) =~= key_set_below(slots, hi - 1));
        }
    }
}

/// Read a row at an offset that may lie beyond its end.
fn row_get<Q>(row: &Vec<Option<Q>>, idx: usize) -> (r: Option<&Q>)
    ensures
        match r {
            Some(q) => idx < row@.len() && row@[idx as int] == Some(*q),
            None => !(idx < row@.len() && row@[idx as int] is Some),
        },
{
    if idx < row.len() {
        match &row[idx] {
            Some(q) => Some(q),
            None => None,
        }
    } else {
        None
    }
}

/// Fill a row's slot, growing the row with empty slots as needed; hands
/// back what the slot held.
fn row_set<Q>(row: &mut Vec<Option<Q>>, idx: usize, value: Q) -> (r: Option<Q>)
    requires
        idx < usize::MAX,
    ensures
        final(row)@.len() == (if old(row)@.len() >= idx + 1 {
            old(row)@.len() as int
        } else {
            idx + 1
        }),
        final(row)@[idx as int] == Some(value),
        forall|j: int|
            0 <= j < final(row)@.len() && j != idx ==> #[trigger] final(row)@[j] == (if j < old(
                row,
            )@.len() {
                old(row)@[j]
            } else {
                None::<Q>
            }),
        r == (if idx < old(row)@.len() {
            old(row)@[idx as int]
        } else {
            None::<Q>
        }),
{
    while row.len() <= idx
        invariant
            idx < usize::MAX,
            forall|j: int|
                0 <= j < row@.len() ==> #[trigger] row@[j] == (if j < old(row)@.len() {
                    old(row)@[j]
                } else {
                    None::<Q>
                }),
            row@.len() >= old(row)@.len(),
            row@.len() <= (if old(row)@.len() >= idx + 1 {
                old(row)@.len() as int
            } else {
                idx + 1
            }),
        decreases idx + 1 - row@.len(),
    {
        row.push(None);
    }
    let ghost grown = row@;
    row.push(Some(value));
    let r = row.swap_remove(idx);
    proof {
        assert(row@ =~= grown.update(idx as int, Some(value)));
    }
    r
}

/// Drop the empty slots at the end of a row; what the row stores does not
/// change.
fn trim_row<Q>(row: &mut Vec<Option<Q>>)
    ensures
        final(row)@.len() <= old(row)@.len(),
        forall|j: int| 0 <= j < final(row)@.len() ==> #[trigger] final(row)@[j] == old(row)@[j],
        forall|j: int|
            final(row)@.len() <= j < old(row)@.len() ==> #[trigger] old(row)@[j] is None,
        final(row)@.len() == 0 || final(row)@.last() is Some,
{
    loop
        invariant_except_break
            row@.len() <= old(row)@.len(),
            forall|j: int| 0 <= j < row@.len() ==> #[trigger] row@[j] == old(row)@[j],
            forall|j: int| row@.len() <= j < old(row)@.len() ==> #[trigger] old(row)@[j] is None,
        ensures
            row@.len() <= old(row)@.len(),
            forall|j: int| 0 <= j < row@.len() ==> #[trigger] row@[j] == old(row)@[j],
            forall|j: int| row@.len() <= j < old(row)@.len() ==> #[trigger] old(row)@[j] is None,
            row@.len() == 0 || row@.last() is Some,
        decreases row@.len(),
    {
        let n = row.len();
        if n == 0 {
            break;
        }
        let keep = match &row[n - 1] {
            Some(_) => true,
            None => false,
        };
        if keep {
            break;
        }
        row.pop();
    }
}

/// Replace one slot with an empty one and hand its old value back, leaving
/// every other slot where it was.
fn take_dense_slot<Q>(v: &mut Vec<Option<Q>>, i: usize) -> (r: Option<Q>)
    requires
        i < old(v)@.len(),
    ensures
        r == old(v)@[i as int],
        final(v)@ == old(v)@.update(i as int, None),
{
    v.push(None);
    let r = v.swap_remove(i);
    proof {
        assert(v@ =~= old(v)@.update(i as int, None));
    }
    r
}

/// The record of a downward scan: strictly descending bucket keys, one
/// nonempty batch per key, each drawn from that bucket of the map.
pub open spec fn segments_from<T, Q: AbstractPriorityQueue<T>>(
    m: Map<i64, Q>,
    keys: Seq<i64>,
    segs: Seq<Seq<(T, u64)>>,
) -> bool {
    &&& keys.len() == segs.len()
    &&& forall|i: int|
        0 <= i < keys.len() ==> ((#[trigger] m.dom().contains(keys[i])) && segs[i].len() >= 1
            && segs[i].to_multiset().subset_of(bucket_at(m, keys[i] as int)))
    &&& forall|i: int| 0 <= i < keys.len() - 1 ==> (#[trigger] keys[i]) > keys[i + 1]
}

/// Every bucket the scan stepped over was empty: above the first key up to
/// `top`, and strictly between each pair of adjacent keys.
pub open spec fn gaps_empty<T, Q: AbstractPriorityQueue<T>>(
    m: Map<i64, Q>,
    keys: Seq<i64>,
    top: i64,
) -> bool {
    &&& (keys.len() > 0 ==> span_half(m, keys[0], top))
    &&& forall|i: int|
        0 <= i < keys.len() - 1 ==> span_open(m, keys[i + 1], #[trigger] keys[i])
}

/// No occupied bucket strictly between the two keys.
pub open spec fn span_open<T, Q: AbstractPriorityQueue<T>>(m: Map<i64, Q>, lo: i64, hi: i64) -> bool {
    forall|c: i64| lo < c < hi ==> (#[trigger] bucket_at(m, c as int)).len() == 0
}

/// No occupied bucket strictly above `lo` up to and including `hi`.
pub open spec fn span_half<T, Q: AbstractPriorityQueue<T>>(m: Map<i64, Q>, lo: i64, hi: i64) -> bool {
    forall|c: i64| lo < c <= hi ==> (#[trigger] bucket_at(m, c as int)).len() == 0
}

/// The two maps agree on every key strictly below the bound.
pub open spec fn agree_below<Q>(m1: Map<i64, Q>, m2: Map<i64, Q>, hi: int) -> bool {
    forall|c: i64|
        c < hi ==> ((#[trigger] m1.dom().contains(c)) == m2.dom().contains(c) && (
        m1.dom().contains(c) ==> m1[c] == m2[c]))
}

/// One sequence per scanned bucket, laid end to end.
pub open spec fn segments_flatten<A>(segs: Seq<Seq<A>>) -> Seq<A>
    decreases segs.len(),
{
    if segs.len() == 0 {
        Seq::empty()
    } else {
        segments_flatten(segs.drop_last()) + segs.last()
    }
}

/// Move every pair of `extra` onto the end of `acc`, in order.
fn push_all<T>(acc: &mut Vec<(T, u64)>, extra: Vec<(T, u64)>)
    ensures
        final(acc)@ == old(acc)@ + extra@,
{
    let ghost total = extra@;
    let mut rest = extra;
    let ghost mut moved: int = 0;
    proof {
        assert(acc@ =~= old(acc)@ + total.take(0));
    }
    while rest.len() > 0
        invariant
            0 <= moved <= total.len(),
            rest@ == total.skip(moved),
            acc@ == old(acc)@ + total.take(moved),
        decreases rest@.len(),
    {
        let x = rest.remove(0);
        proof {
            assert(x == total[moved]);
            assert(rest@ =~= total.skip(moved + 1));
        }
        acc.push(x);
        proof {
            assert(total.take(moved + 1) =~= total.take(moved).push(total[moved]));
            assert(acc@ =~= old(acc)@ + total.take(moved + 1));
            moved = moved + 1;
        }
    }
    proof {
        assert(total.take(moved) =~= total);
    }
}

/// What a bucket contributes to the whole: its contents if it exists, or
/// nothing.
pub open spec fn bucket_at<T, Q: AbstractPriorityQueue<T>>(m: Map<i64, Q>, c: int) -> Multiset<
    (T, u64),
> {
    if m.dom().contains(c as i64) {
        m[c as i64].contents()
    } else {
        Multiset::empty()
    }
}

/// Everything the buckets with keys in `[lo, hi]` hold.
pub open spec fn range_contents<T, Q: AbstractPriorityQueue<T>>(
    m: Map<i64, Q>,
    lo: int,
    hi: int,
) -> Multiset<(T, u64)>
    decreases (if hi < lo {
        0int
    } else {
        hi - lo + 1
    }),
{
    if hi < lo {
        Multiset::empty()
    } else {
        bucket_at(m, hi).add(range_contents(m, lo, hi - 1))
    }
}

/// The pair the downward scan from `hi` to `lo` stops at.
pub open spec fn scan_peek<T, Q: AbstractPriorityQueue<T>>(m: Map<i64, Q>, lo: int, hi: int) -> Option<
    (T, u64),
>
    decreases (if hi < lo {
        0int
    } else {
        hi - lo + 1
    }),
{
    if hi < lo {
        None
    } else if m.dom().contains(hi as i64) && m[hi as i64].peek_spec() is Some {
        m[hi as i64].peek_spec()
    } else {
        scan_peek(m, lo, hi - 1)
    }
}

/// A range over maps that agree on it holds the same pairs and stops at the
/// same scan result.
proof fn lemma_range_frame<T, Q: AbstractPriorityQueue<T>>(
    m1: Map<i64, Q>,
    m2: Map<i64, Q>,
    lo: int,
    hi: int,
)
    requires
        forall|c: int|
            lo <= c <= hi ==> ((#[trigger] m1.dom().contains(c as i64)) == m2.dom().contains(
                c as i64,
            ) && (m1.dom().contains(c as i64) ==> m1[c as i64] == m2[c as i64])),
    ensures
        range_contents(m1, lo, hi) == range_contents(m2, lo, hi),
        scan_peek(m1, lo, hi) == scan_peek(m2, lo, hi),
    decreases (if hi < lo {
        0int
    } else {
        hi - lo + 1
    }),
{
    if hi >= lo {
        lemma_range_frame(m1, m2, lo, hi - 1);
    }
}

/// Splitting one key out of a range: the rest of the range no longer sees it.
proof fn lemma_range_extract<T, Q: AbstractPriorityQueue<T>>(m: Map<i64, Q>, lo: int, hi: int, c: int)
    requires
        lo <= c <= hi,
        i64::MIN <= lo,
        hi <= i64::MAX,
    ensures
        range_contents(m, lo, hi) == range_contents(m.remove(c as i64), lo, hi).add(
            bucket_at(m, c),
        ),
    decreases (if hi < lo {
        0int
    } else {
        hi - lo + 1
    }),
{
    let m2 = m.remove(c as i64);
    if c == hi {
        lemma_range_frame(m, m2, lo, hi - 1);
        assert(range_contents(m, lo, hi) =~= range_contents(m2, lo, hi).add(bucket_at(m, c)));
    } else {
        lemma_range_extract(m, lo, hi - 1, c);
        assert(bucket_at(m2, hi) == bucket_at(m, hi));
        assert(range_contents(m, lo, hi) =~= range_contents(m2, lo, hi).add(bucket_at(m, c)));
    }
}

/// Bounds may widen over keys that hold nothing.
proof fn lemma_range_widen<T, Q: AbstractPriorityQueue<T>>(
    m: Map<i64, Q>,
    lo: int,
    hi: int,
    lo2: int,
    hi2: int,
)
    requires
        lo2 <= lo,
        hi <= hi2,
        i64::MIN <= lo2,
        hi2 <= i64::MAX,
        forall|c: i64| (#[trigger] m.dom().contains(c)) ==> lo <= c <= hi,
    ensures
        range_contents(m, lo2, hi2) == range_contents(m, lo, hi),
    decreases (hi2 - hi) + (lo - lo2),
{
    if hi < hi2 {
        assert(!m.dom().contains(hi2 as i64)) by {
            if m.dom().contains(hi2 as i64) {
                assert(lo <= hi2 as i64 <= hi);
            }
        }
        assert(bucket_at(m, hi2) =~= Multiset::<(T, u64)>::empty());
        lemma_range_widen(m, lo, hi, lo2, hi2 - 1);
        assert(range_contents(m, lo2, hi2) =~= range_contents(m, lo2, hi2 - 1));
    } else if lo2 < lo {
        lemma_range_widen(m, lo, hi, lo2 + 1, hi2);
        lemma_range_shrink_bottom(m, lo2, hi2);
    }
}

/// An unoccupied bottom key contributes nothing to a range.
proof fn lemma_range_shrink_bottom<T, Q: AbstractPriorityQueue<T>>(m: Map<i64, Q>, lo: int, hi: int)
    requires
        !m.dom().contains(lo as i64) || hi < lo,
        i64::MIN <= lo,
        hi <= i64::MAX,
    ensures
        range_contents(m, lo, hi) == range_contents(m, lo + 1, hi),
    decreases (if hi < lo {
        0int
    } else {
        hi - lo + 1
    }),
{
    if hi >= lo {
        lemma_range_shrink_bottom(m, lo, hi - 1);
        if hi == lo {
            assert(bucket_at(m, hi) =~= Multiset::<(T, u64)>::empty());
            assert(range_contents(m, lo, hi) =~= range_contents(m, lo + 1, hi));
        } else {
            assert(range_contents(m, lo, hi) =~= range_contents(m, lo + 1, hi));
        }
    }
}

/// Items of type `T` are stored in one of many inner queues of the same
/// kind, divided up by the coarse-grained projection of their priority, so
/// each inner queue stays small and the outer dispatch is a radix-style scan
/// from the highest occupied bucket downward.
pub struct BucketQueue<T, Q, S, G> {
    my_buckets: S,
    upper_bound_occupied_bucket: i64,
    lower_bound_occupied_bucket: i64,
    junk: core::marker::PhantomData<(T, G)>,
    bucket_template: Q,
}

impl<T, Q: AbstractPriorityQueue<T>, S: IndexInto<Q>, G: CoarseGrainedPriority> BucketQueue<
    T,
    Q,
    S,
    G,
> {
    /// Pass a lower and an upper bound for the coarse keys you expect; they
    /// need not be accurate.  The example queue only serves as the template
    /// from which empty buckets are cloned.
    pub fn new(lower_bound_occupied_bucket: i64, upper_bound_occupied_bucket: i64, dummy: &Q) -> (r:
        Self)
        requires
            dummy.valid(),
        ensures
            r.valid(),
            r.contents() == Multiset::<(T, u64)>::empty(),
            r.lower() == lower_bound_occupied_bucket,
            r.upper() == upper_bound_occupied_bucket,
            r.buckets() == Map::<i64, Q>::empty(),
            r.template().valid() && r.template().contents().len() == 0,
    {
        let r = BucketQueue {
            my_buckets: S::new(),
            upper_bound_occupied_bucket,
            lower_bound_occupied_bucket,
            junk: core::marker::PhantomData,
            bucket_template: dummy.empty_copy(),
        };
        proof {
            r.lemma_empty_map_range(
                r.lower_bound_occupied_bucket as int,
                r.upper_bound_occupied_bucket as int,
            );
        }
        r
    }

    /// A range over no buckets holds nothing and scans to nothing.
    proof fn lemma_empty_map_range(&self, lo: int, hi: int)
        requires
            self.my_buckets.table().dom() == Set::<i64>::empty(),
        ensures
            range_contents(self.my_buckets.table(), lo, hi) == Multiset::<(T, u64)>::empty(),
            scan_peek(self.my_buckets.table(), lo, hi) is None,
        decreases (if hi < lo {
            0int
        } else {
            hi - lo + 1
        }),
    {
        if hi >= lo {
            self.lemma_empty_map_range(lo, hi - 1);
            assert(!self.my_buckets.table().dom().contains(hi as i64));
            assert(range_contents(self.my_buckets.table(), lo, hi) =~= Multiset::<(T, u64)>::empty());
        }
    }
}

impl<T, Q: AbstractPriorityQueue<T>, S: IndexInto<Q>, G: CoarseGrainedPriority> AbstractPriorityQueue<
    T,
> for BucketQueue<T, Q, S, G> {
    closed spec fn valid(&self) -> bool {
        let m = self.my_buckets.table();
        &&& self.bucket_template.valid()
        &&& self.bucket_template.contents().len() == 0
        &&& (forall|c: i64| m.dom().contains(c) ==> (#[trigger] m[c]).valid())
        &&& (forall|c: i64| #[trigger]
            m.dom().contains(c) ==> self.lower_bound_occupied_bucket <= c
                <= self.upper_bound_occupied_bucket)
        &&& self.contents().len() <= usize::MAX
    }

    closed spec fn contents(&self) -> Multiset<(T, u64)> {
        range_contents(
            self.my_buckets.table(),
            self.lower_bound_occupied_bucket as int,
            self.upper_bound_occupied_bucket as int,
        )
    }

    closed spec fn peek_spec(&self) -> Option<(T, u64)> {
        scan_peek(
            self.my_buckets.table(),
            self.lower_bound_occupied_bucket as int,
            self.upper_bound_occupied_bucket as int,
        )
    }

    closed spec fn enqueue_contents(&self, new_obj: T, new_obj_priority: u64) -> Multiset<
        (T, u64),
    > {
        let c = G::coarse_spec(new_obj_priority);
        let m = self.my_buckets.table();
        let lo2 = (if c < self.lower_bound_occupied_bucket {
            c
        } else {
            self.lower_bound_occupied_bucket
        }) as int;
        let hi2 = (if c > self.upper_bound_occupied_bucket {
            c
        } else {
            self.upper_bound_occupied_bucket
        }) as int;
        range_contents(m.remove(c), lo2, hi2).add(
            if m.dom().contains(c) {
                m[c].enqueue_contents(new_obj, new_obj_priority)
            } else {
                self.bucket_template.enqueue_contents(new_obj, new_obj_priority)
            },
        )
    }

    closed spec fn enqueue_batch_contents(&self, new_batch: Seq<T>, new_batch_priority: u64) -> Multiset<
        (T, u64),
    > {
        if new_batch.len() == 0 {
            self.contents()
        } else {
            let c = G::coarse_spec(new_batch_priority);
            let m = self.my_buckets.table();
            let lo2 = (if c < self.lower_bound_occupied_bucket {
                c
            } else {
                self.lower_bound_occupied_bucket
            }) as int;
            let hi2 = (if c > self.upper_bound_occupied_bucket {
                c
            } else {
                self.upper_bound_occupied_bucket
            }) as int;
            range_contents(m.remove(c), lo2, hi2).add(
                if m.dom().contains(c) {
                    m[c].enqueue_batch_contents(new_batch, new_batch_priority)
                } else {
                    self.bucket_template.enqueue_batch_contents(new_batch, new_batch_priority)
                },
            )
        }
    }

    proof fn lemma_batch_of_one(&self, new_obj: T, new_obj_priority: u64) {
        let c = G::coarse_spec(new_obj_priority);
        let m = self.my_buckets.table();
        if m.dom().contains(c) {
            m[c].lemma_batch_of_one(new_obj, new_obj_priority);
        } else {
            self.bucket_template.lemma_batch_of_one(new_obj, new_obj_priority);
        }
        assert(self.enqueue_batch_contents(seq![new_obj], new_obj_priority)
            == self.enqueue_contents(new_obj, new_obj_priority));
    }

    proof fn lemma_peek_in_contents(&self) {
        let m = self.my_buckets.table();
        let lo = self.lower_bound_occupied_bucket as int;
        let hi = self.upper_bound_occupied_bucket as int;
        self.lemma_scan_peek_in_range(lo, hi);
        assert(self.peek_spec() == scan_peek(m, lo, hi));
        assert(self.contents() == range_contents(m, lo, hi));
    }

    fn empty_copy(&self) -> (r: Self)
        ensures
            r.lower() == self.lower(),
            r.upper() == self.upper(),
            r.buckets() == Map::<i64, Q>::empty(),
            r.template().valid() && r.template().contents().len() == 0,
    {
        let r = BucketQueue {
            my_buckets: S::new(),
            upper_bound_occupied_bucket: self.upper_bound_occupied_bucket,
            lower_bound_occupied_bucket: self.lower_bound_occupied_bucket,
            junk: core::marker::PhantomData,
            bucket_template: self.bucket_template.empty_copy(),
        };
        proof {
            r.lemma_empty_map_range(
                r.lower_bound_occupied_bucket as int,
                r.upper_bound_occupied_bucket as int,
            );
        }
        r
    }

    fn my_peek(&self) -> (r: Option<(&T, &u64)>) {
        if self.upper_bound_occupied_bucket < self.lower_bound_occupied_bucket {
            return None;
        }
        let mut c = self.upper_bound_occupied_bucket;
        loop
            invariant_except_break
                self.valid(),
                self.lower_bound_occupied_bucket <= c <= self.upper_bound_occupied_bucket,
                scan_peek(
                    self.my_buckets.table(),
                    self.lower_bound_occupied_bucket as int,
                    self.upper_bound_occupied_bucket as int,
                ) == scan_peek(self.my_buckets.table(), self.lower_bound_occupied_bucket as int, c as int),
            ensures
                self.peek_spec() is None,
            decreases c - self.lower_bound_occupied_bucket,
        {
            let found = self.my_buckets.get(&c);
            match found {
                Some(b) => {
                    let inner = b.my_peek();
                    match inner {
                        Some(pair) => {
                            proof {
                                assert(b.peek_spec() is Some);
                                assert(scan_peek(
                                    self.my_buckets.table(),
                                    self.lower_bound_occupied_bucket as int,
                                    c as int,
                                ) == b.peek_spec());
                            }
                            return Some(pair);
                        },
                        None => {
                            proof {
                                assert(scan_peek(
                                    self.my_buckets.table(),
                                    self.lower_bound_occupied_bucket as int,
                                    c as int,
                                ) == scan_peek(
                                    self.my_buckets.table(),
                                    self.lower_bound_occupied_bucket as int,
                                    c as int - 1,
                                ));
                            }
                        },
                    }
                },
                None => {
                    proof {
                        assert(scan_peek(
                            self.my_buckets.table(),
                            self.lower_bound_occupied_bucket as int,
                            c as int,
                        ) == scan_peek(
                            self.my_buckets.table(),
                            self.lower_bound_occupied_bucket as int,
                            c as int - 1,
                        ));
                    }
                },
            }
            if c == self.lower_bound_occupied_bucket {
                proof {
                    assert(scan_peek(
                        self.my_buckets.table(),
                        self.lower_bound_occupied_bucket as int,
                        c as int - 1,
                    ) is None);
                }
                break;
            }
            c = c - 1;
        }
        None
    }

    fn my_enqueue(&mut self, new_obj: T, new_obj_priority: u64) {
        let ghost oldq = *old(self);
        let c = G::coarse_grain(&new_obj_priority);
        if c < self.lower_bound_occupied_bucket {
            self.lower_bound_occupied_bucket = c;
        }
        if c > self.upper_bound_occupied_bucket {
            self.upper_bound_occupied_bucket = c;
        }
        proof {
            lemma_range_widen(
                self.my_buckets.table(),
                oldq.lower_bound_occupied_bucket as int,
                oldq.upper_bound_occupied_bucket as int,
                self.lower_bound_occupied_bucket as int,
                self.upper_bound_occupied_bucket as int,
            );
            lemma_range_extract(
                self.my_buckets.table(),
                self.lower_bound_occupied_bucket as int,
                self.upper_bound_occupied_bucket as int,
                c as int,
            );
        }
        let ghost lo2 = self.lower_bound_occupied_bucket as int;
        let ghost hi2 = self.upper_bound_occupied_bucket as int;
        let got = self.my_buckets.remove(&c);
        match got {
            Some(b) => {
                let mut b2 = b;
                proof {
                    vstd::multiset::axiom_len_add(
                        range_contents(self.my_buckets.table(), lo2, hi2),
                        b2.contents(),
                    );
                }
                b2.my_enqueue(new_obj, new_obj_priority);
                self.my_buckets.insert(c, b2);
                proof {
                    lemma_range_extract(self.my_buckets.table(), lo2, hi2, c as int);
                    lemma_range_frame(
                        self.my_buckets.table().remove(c),
                        oldq.my_buckets.table().remove(c),
                        lo2,
                        hi2,
                    );
                    assert(self.contents() =~= oldq.enqueue_contents(new_obj, new_obj_priority));
                }
            },
            None => {
                let mut fresh = self.bucket_template.empty_copy();
                core::mem::swap(&mut self.bucket_template, &mut fresh);
                fresh.my_enqueue(new_obj, new_obj_priority);
                self.my_buckets.insert(c, fresh);
                proof {
                    lemma_range_extract(self.my_buckets.table(), lo2, hi2, c as int);
                    lemma_range_frame(
                        self.my_buckets.table().remove(c),
                        oldq.my_buckets.table().remove(c),
                        lo2,
                        hi2,
                    );
                    assert(oldq.my_buckets.table().remove(c) =~= oldq.my_buckets.table());
                    assert(self.contents() =~= oldq.enqueue_contents(new_obj, new_obj_priority));
                }
            },
        }
    }

    fn enqueue_batch(&mut self, new_batch: Vec<T>, new_batch_priority: u64) {
        if new_batch.len() == 0 {
            // nothing arrives, and no empty bucket is left behind
            return;
        }
        let ghost oldq = *old(self);
        let ghost n = new_batch@.len();
        let c = G::coarse_grain(&new_batch_priority);
        if c < self.lower_bound_occupied_bucket {
            self.lower_bound_occupied_bucket = c;
        }
        if c > self.upper_bound_occupied_bucket {
            self.upper_bound_occupied_bucket = c;
        }
        proof {
            lemma_range_widen(
                self.my_buckets.table(),
                oldq.lower_bound_occupied_bucket as int,
                oldq.upper_bound_occupied_bucket as int,
                self.lower_bound_occupied_bucket as int,
                self.upper_bound_occupied_bucket as int,
            );
            lemma_range_extract(
                self.my_buckets.table(),
                self.lower_bound_occupied_bucket as int,
                self.upper_bound_occupied_bucket as int,
                c as int,
            );
        }
        let ghost lo2 = self.lower_bound_occupied_bucket as int;
        let ghost hi2 = self.upper_bound_occupied_bucket as int;
        let got = self.my_buckets.remove(&c);
        match got {
            Some(b) => {
                let mut b2 = b;
                proof {
                    vstd::multiset::axiom_len_add(
                        range_contents(self.my_buckets.table(), lo2, hi2),
                        b2.contents(),
                    );
                }
                b2.enqueue_batch(new_batch, new_batch_priority);
                self.my_buckets.insert(c, b2);
                proof {
                    lemma_range_extract(self.my_buckets.table(), lo2, hi2, c as int);
                    lemma_range_frame(
                        self.my_buckets.table().remove(c),
                        oldq.my_buckets.table().remove(c),
                        lo2,
                        hi2,
                    );
                    assert(self.contents() =~= oldq.enqueue_batch_contents(
                        new_batch@,
                        new_batch_priority,
                    ));
                    vstd::multiset::axiom_len_add(
                        range_contents(self.my_buckets.table().remove(c), lo2, hi2),
                        b2.contents(),
                    );
                }
            },
            None => {
                let mut fresh = self.bucket_template.empty_copy();
                core::mem::swap(&mut self.bucket_template, &mut fresh);
                fresh.enqueue_batch(new_batch, new_batch_priority);
                self.my_buckets.insert(c, fresh);
                proof {
                    lemma_range_extract(self.my_buckets.table(), lo2, hi2, c as int);
                    lemma_range_frame(
                        self.my_buckets.table().remove(c),
                        oldq.my_buckets.table().remove(c),
                        lo2,
                        hi2,
                    );
                    assert(oldq.my_buckets.table().remove(c) =~= oldq.my_buckets.table());
                    assert(self.contents() =~= oldq.enqueue_batch_contents(
                        new_batch@,
                        new_batch_priority,
                    ));
                    vstd::multiset::axiom_len_add(
                        range_contents(self.my_buckets.table().remove(c), lo2, hi2),
                        self.my_buckets.table()[c].contents(),
                    );
                }
            },
        }
    }

    fn my_dequeue(&mut self) -> (r: Option<(T, u64)>) {
        let ghost oldq = *old(self);
        loop
            invariant
                self.valid(),
                old(self).contents() == self.contents(),
                old(self).peek_spec() == self.peek_spec(),
            decreases (if self.upper_bound_occupied_bucket >= self.lower_bound_occupied_bucket {
                self.upper_bound_occupied_bucket - self.lower_bound_occupied_bucket + 1
            } else {
                0int
            }),
        {
            if self.upper_bound_occupied_bucket < self.lower_bound_occupied_bucket {
                proof {
                    self.lemma_peek_in_contents();
                }
                return None;
            }
            let ghost pre = *self;
            let upper = self.upper_bound_occupied_bucket;
            let got = self.my_buckets.remove(&upper);
            match got {
                Some(b) => {
                    let mut b2 = b;
                    if !b2.is_empty() {
                        proof {
                            lemma_range_extract(
                                pre.my_buckets.table(),
                                pre.lower_bound_occupied_bucket as int,
                                pre.upper_bound_occupied_bucket as int,
                                upper as int,
                            );
                            b2.lemma_peek_in_contents();
                        }
                        let out = b2.my_dequeue();
                        let emptied = b2.is_empty();
                        if !emptied {
                            self.my_buckets.insert(upper, b2);
                        }
                        proof {
                            let m2 = self.my_buckets.table();
                            let lo = pre.lower_bound_occupied_bucket as int;
                            let hi = pre.upper_bound_occupied_bucket as int;
                            if !emptied {
                                lemma_range_extract(m2, lo, hi, upper as int);
                                lemma_range_frame(
                                    m2.remove(upper),
                                    pre.my_buckets.table().remove(upper),
                                    lo,
                                    hi,
                                );
                            } else {
                                lemma_range_frame(
                                    m2,
                                    pre.my_buckets.table().remove(upper),
                                    lo,
                                    hi,
                                );
                                lemma_range_extract(pre.my_buckets.table(), lo, hi, upper as int);
                            }
                            assert(pre.my_buckets.table()[upper].peek_spec() is Some);
                            assert(pre.peek_spec() == pre.my_buckets.table()[upper].peek_spec());
                            if out is Some {
                                assert(self.contents() =~= pre.contents().remove(out.unwrap()));
                            }
                        }
                        if emptied {
                            self.tighten_upper(Ghost(pre));
                        }
                        proof {
                            assert(out == old(self).peek_spec());
                            if out is Some {
                                assert(self.contents() == old(self).contents().remove(
                                    out.unwrap(),
                                ));
                            } else {
                                assert(false);
                            }
                        }
                        return out;
                    } else {
                        // a bucket that holds nothing: discard it and keep
                        // scanning
                        proof {
                            let lo = pre.lower_bound_occupied_bucket as int;
                            let hi = pre.upper_bound_occupied_bucket as int;
                            lemma_range_extract(pre.my_buckets.table(), lo, hi, upper as int);
                            lemma_range_frame(
                                self.my_buckets.table(),
                                pre.my_buckets.table().remove(upper),
                                lo,
                                hi,
                            );
                            b2.lemma_peek_in_contents();
                            assert(pre.my_buckets.table()[upper].contents().len() == 0);
                            assert(self.contents() =~= pre.contents());
                            assert(pre.my_buckets.table()[upper].peek_spec() is None);
                            assert(scan_peek(pre.my_buckets.table(), lo, hi) == scan_peek(
                                pre.my_buckets.table(),
                                lo,
                                hi - 1,
                            ));
                            assert(self.my_buckets.table() == pre.my_buckets.table().remove(
                                upper,
                            ));
                            lemma_range_frame(
                                self.my_buckets.table(),
                                pre.my_buckets.table(),
                                lo,
                                hi - 1,
                            );
                            assert(scan_peek(self.my_buckets.table(), lo, hi) == scan_peek(
                                self.my_buckets.table(),
                                lo,
                                hi - 1,
                            ));
                            assert(self.peek_spec() == pre.peek_spec());
                        }
                        self.step_down(Ghost(pre));
                    }
                },
                None => {
                    proof {
                        assert(self.my_buckets.table() == pre.my_buckets.table()) by {
                            assert(pre.my_buckets.table().remove(upper) =~= pre.my_buckets.table());
                        }
                    }
                    self.step_down(Ghost(pre));
                },
            }
        }
    }

    /// The greedy downward scan of the dispatcher: each occupied bucket is
    /// asked for a whole batch with the remaining target and the remaining
    /// hard limit, so an inner queue may overshoot the target to keep its
    /// own semantic groups intact.
    #[verifier::rlimit(100)]
    fn dequeue_batch(&mut self, around_how_many: usize, hard_limit: usize) -> (r: Vec<(T, u64)>)
        ensures
            exists|keys: Seq<i64>, segs: Seq<Seq<(T, u64)>>|
                #![trigger keys.len(), segments_flatten(segs)]
                {
                    &&& r@ == segments_flatten(segs)
                    &&& segments_from(old(self).buckets(), keys, segs)
                    &&& gaps_empty(old(self).buckets(), keys, old(self).upper())
                },
    {
        let mut to_return: Vec<(T, u64)> = Vec::new();
        let ghost orig = *old(self);
        let ghost mut gkeys: Seq<i64> = Seq::empty();
        let ghost mut gsegs: Seq<Seq<(T, u64)>> = Seq::empty();
        let mut done = false;
        proof {
            broadcast use vstd::seq_lib::group_to_multiset_ensures;

            assert(orig.contents() =~= self.contents().add(to_return@.to_multiset()));
            assert(segments_flatten(gsegs) =~= Seq::<(T, u64)>::empty());
        }
        while !done && to_return.len() < around_how_many
            invariant
                done ==> self.contents().len() == 0 || to_return@.len() >= around_how_many,
                self.valid(),
                around_how_many <= hard_limit,
                orig.contents() == self.contents().add(to_return@.to_multiset()),
                to_return@.len() <= hard_limit,
                to_return@ == segments_flatten(gsegs),
                segments_from(orig.buckets(), gkeys, gsegs),
                gaps_empty(orig.buckets(), gkeys, orig.upper()),
                self.upper_bound_occupied_bucket >= self.lower_bound_occupied_bucket ==> {
                    &&& self.upper_bound_occupied_bucket <= orig.upper()
                    &&& (!(gkeys.len() > 0 && gkeys.last() == self.upper_bound_occupied_bucket)
                        ==> agree_below(
                        self.my_buckets.table(),
                        orig.my_buckets.table(),
                        self.upper_bound_occupied_bucket + 1,
                    ))
                    &&& ((gkeys.len() > 0 && gkeys.last() == self.upper_bound_occupied_bucket)
                        ==> agree_below(
                        self.my_buckets.table(),
                        orig.my_buckets.table(),
                        self.upper_bound_occupied_bucket as int,
                    ))
                    &&& (gkeys.len() == 0 ==> span_half(
                        orig.buckets(),
                        self.upper_bound_occupied_bucket,
                        orig.upper(),
                    ))
                    &&& (gkeys.len() > 0 ==> gkeys.last() >= self.upper_bound_occupied_bucket
                        && span_open(
                        orig.buckets(),
                        self.upper_bound_occupied_bucket,
                        gkeys.last(),
                    ))
                    &&& (gkeys.len() > 0 && gkeys.last() == self.upper_bound_occupied_bucket
                        ==> to_return@.len() >= around_how_many)
                },
            decreases (if self.upper_bound_occupied_bucket >= self.lower_bound_occupied_bucket {
                self.upper_bound_occupied_bucket - self.lower_bound_occupied_bucket + 1
            } else {
                0int
            }) + (if done {
                0int
            } else {
                1int
            }),
        {
            if self.upper_bound_occupied_bucket < self.lower_bound_occupied_bucket {
                proof {
                    assert forall|c: i64|
                        true implies !(#[trigger] self.my_buckets.table().dom().contains(c)) by {
                        if self.my_buckets.table().dom().contains(c) {
                        }
                    }
                    self.lemma_empty_map_range_free();
                }
                done = true;
                continue;
            }
            let ghost pre = *self;
            let upper = self.upper_bound_occupied_bucket;
            let got = self.my_buckets.remove(&upper);
            match got {
                Some(b) => {
                    let mut b2 = b;
                    if !b2.is_empty() {
                        proof {
                            lemma_range_extract(
                                pre.my_buckets.table(),
                                pre.lower_bound_occupied_bucket as int,
                                pre.upper_bound_occupied_bucket as int,
                                upper as int,
                            );
                            vstd::multiset::axiom_len_add(
                                range_contents(
                                    self.my_buckets.table(),
                                    pre.lower_bound_occupied_bucket as int,
                                    pre.upper_bound_occupied_bucket as int,
                                ),
                                b2.contents(),
                            );
                        }
                        let remaining_target = around_how_many - to_return.len();
                        let remaining_hard = hard_limit - to_return.len();
                        let ghost b2_was = b2.contents();
                        let got_pairs = b2.dequeue_batch(remaining_target, remaining_hard);
                        let ghost gp = got_pairs@;
                        let emptied = b2.is_empty();
                        if !emptied {
                            self.my_buckets.insert(upper, b2);
                        }
                        proof {
                            let m2 = self.my_buckets.table();
                            let lo = pre.lower_bound_occupied_bucket as int;
                            let hi = pre.upper_bound_occupied_bucket as int;
                            if !emptied {
                                lemma_range_extract(m2, lo, hi, upper as int);
                                lemma_range_frame(
                                    m2.remove(upper),
                                    pre.my_buckets.table().remove(upper),
                                    lo,
                                    hi,
                                );
                            } else {
                                lemma_range_frame(
                                    m2,
                                    pre.my_buckets.table().remove(upper),
                                    lo,
                                    hi,
                                );
                            }
                            assert(pre.contents() =~= self.contents().add(gp.to_multiset()));
                        }
                        let ghost ret_pre = to_return@;
                        push_all(&mut to_return, got_pairs);
                        proof {
                            broadcast use vstd::seq_lib::group_to_multiset_ensures;

                            vstd::seq_lib::lemma_multiset_commutative(ret_pre, gp);
                            assert(to_return@.to_multiset() == ret_pre.to_multiset().add(
                                gp.to_multiset(),
                            ));
                            assert(orig.contents() =~= self.contents().add(
                                to_return@.to_multiset(),
                            ));
                            assert(gp.to_multiset().len() == gp.len());
                        }
                        proof {
                            // the pulled bucket is one of the original
                            // buckets: the scan never touched anything at or
                            // below its key
                            assert(!(gkeys.len() > 0 && gkeys.last()
                                == self.upper_bound_occupied_bucket));
                            assert(agree_below(
                                pre.my_buckets.table(),
                                orig.my_buckets.table(),
                                upper + 1,
                            ));
                            assert(pre.my_buckets.table().dom().contains(upper));
                            assert(orig.buckets().dom().contains(upper));
                            assert(b2_was == bucket_at(orig.buckets(), upper as int));
                            assert forall|x: (T, u64)| true implies #[trigger] gp.to_multiset(
                            ).count(x) <= b2_was.count(x) by {}
                            assert(gp.to_multiset().subset_of(b2_was));
                            assert(gp.len() >= 1);
                            let k2 = gkeys.push(upper);
                            let g2 = gsegs.push(gp);
                            assert(g2.drop_last() =~= gsegs);
                            assert(to_return@ =~= segments_flatten(g2));
                            assert(segments_from(orig.buckets(), k2, g2)) by {
                                assert forall|i: int| 0 <= i < k2.len() implies ((
                                #[trigger] orig.buckets().dom().contains(k2[i])) && g2[i].len()
                                    >= 1 && g2[i].to_multiset().subset_of(
                                    bucket_at(orig.buckets(), k2[i] as int),
                                )) by {
                                    if i < gkeys.len() {
                                        assert(k2[i] == gkeys[i]);
                                        assert(g2[i] == gsegs[i]);
                                        assert(orig.buckets().dom().contains(gkeys[i]) && gsegs[
                                        i].len() >= 1 && gsegs[i].to_multiset().subset_of(
                                            bucket_at(orig.buckets(), gkeys[i] as int),
                                        ));
                                    } else {
                                        assert(k2[i] == upper);
                                        assert(g2[i] == gp);
                                    }
                                }
                                assert forall|i: int| 0 <= i < k2.len() - 1 implies (#[trigger] k2[
                                i]) > k2[i + 1] by {
                                    if i < gkeys.len() - 1 {
                                        assert(k2[i] == gkeys[i] && k2[i + 1] == gkeys[i + 1]);
                                    } else {
                                        assert(k2[i] == gkeys.last() && k2[i + 1] == upper);
                                    }
                                }
                            }
                            assert(gaps_empty(orig.buckets(), k2, orig.upper())) by {
                                if gkeys.len() == 0 {
                                    assert(k2[0] == upper);
                                    assert(span_half(orig.buckets(), k2[0], orig.upper()));
                                } else {
                                    assert(k2[0] == gkeys[0]);
                                    assert(span_half(orig.buckets(), k2[0], orig.upper()));
                                }
                                assert forall|i: int|
                                    0 <= i < k2.len() - 1 implies span_open(
                                    orig.buckets(),
                                    k2[i + 1],
                                    #[trigger] k2[i],
                                ) by {
                                    if i < gkeys.len() - 1 {
                                        assert(k2[i] == gkeys[i] && k2[i + 1] == gkeys[i + 1]);
                                        assert(span_open(orig.buckets(), gkeys[i + 1], gkeys[i]));
                                    } else {
                                        assert(k2[i] == gkeys.last() && k2[i + 1] == upper);
                                        assert(span_open(orig.buckets(), upper, gkeys.last()));
                                    }
                                }
                            }
                            gkeys = k2;
                            gsegs = g2;
                            assert(segments_from(orig.buckets(), gkeys, gsegs));
                            assert(gaps_empty(orig.buckets(), gkeys, orig.upper()));
                        }
                        if emptied {
                            proof {
                                assert(!self.my_buckets.table().dom().contains(upper)) by {
                                    assert(self.my_buckets.table() == pre.my_buckets.table().remove(
                                        upper,
                                    ));
                                }
                            }
                            self.tighten_upper(Ghost(pre));
                            proof {
                                if self.upper_bound_occupied_bucket
                                    >= self.lower_bound_occupied_bucket {
                                    assert(self.upper_bound_occupied_bucket == upper - 1);
                                    assert(gkeys.last() == upper);
                                    assert(span_open(
                                        orig.buckets(),
                                        self.upper_bound_occupied_bucket,
                                        gkeys.last(),
                                    )) by {
                                        assert forall|c: i64|
                                            self.upper_bound_occupied_bucket < c
                                                < gkeys.last() implies (#[trigger] bucket_at(
                                            orig.buckets(),
                                            c as int,
                                        )).len() == 0 by {}
                                    }
                                    assert(agree_below(
                                        self.my_buckets.table(),
                                        orig.my_buckets.table(),
                                        self.upper_bound_occupied_bucket + 1,
                                    )) by {
                                        assert forall|c: i64|
                                            c < self.upper_bound_occupied_bucket + 1 implies ((
                                        #[trigger] self.my_buckets.table().dom().contains(c))
                                            == orig.my_buckets.table().dom().contains(c) && (
                                        self.my_buckets.table().dom().contains(c)
                                            ==> self.my_buckets.table()[c]
                                            == orig.my_buckets.table()[c])) by {
                                            assert(self.my_buckets.table()
                                                == pre.my_buckets.table().remove(upper));
                                            assert(c != upper);
                                            assert(pre.my_buckets.table().dom().contains(c)
                                                == orig.my_buckets.table().dom().contains(c) && (
                                            pre.my_buckets.table().dom().contains(c)
                                                ==> pre.my_buckets.table()[c]
                                                == orig.my_buckets.table()[c]));
                                        }
                                    }
                                }
                            }
                        } else {
                            proof {
                                // the bucket kept something back, so the
                                // remaining target was fully met
                                broadcast use vstd::seq_lib::group_to_multiset_ensures;

                                assert(self.my_buckets.table()[upper].contents().len() > 0);
                                assert(b2_was.len() == self.my_buckets.table()[
                                upper].contents().len() + gp.to_multiset().len()) by {
                                    vstd::multiset::axiom_len_add(
                                        self.my_buckets.table()[upper].contents(),
                                        gp.to_multiset(),
                                    );
                                }
                                assert(gp.to_multiset().len() == gp.len());
                                assert(gp.len() >= remaining_target);
                            }
                            done = true;
                        }
                    } else {
                        // a bucket that holds nothing: discard it and keep
                        // scanning
                        proof {
                            let lo = pre.lower_bound_occupied_bucket as int;
                            let hi = pre.upper_bound_occupied_bucket as int;
                            lemma_range_extract(pre.my_buckets.table(), lo, hi, upper as int);
                            lemma_range_frame(
                                self.my_buckets.table(),
                                pre.my_buckets.table().remove(upper),
                                lo,
                                hi,
                            );
                            b2.lemma_peek_in_contents();
                            assert(pre.my_buckets.table()[upper].contents().len() == 0);
                            assert(self.contents() =~= pre.contents());
                            assert(pre.my_buckets.table()[upper].peek_spec() is None);
                            assert(scan_peek(pre.my_buckets.table(), lo, hi) == scan_peek(
                                pre.my_buckets.table(),
                                lo,
                                hi - 1,
                            ));
                            assert(self.my_buckets.table() == pre.my_buckets.table().remove(
                                upper,
                            ));
                            lemma_range_frame(
                                self.my_buckets.table(),
                                pre.my_buckets.table(),
                                lo,
                                hi - 1,
                            );
                            assert(scan_peek(self.my_buckets.table(), lo, hi) == scan_peek(
                                self.my_buckets.table(),
                                lo,
                                hi - 1,
                            ));
                            assert(self.peek_spec() == pre.peek_spec());
                            assert(!(gkeys.len() > 0 && gkeys.last() == upper));
                            assert(agree_below(
                                pre.my_buckets.table(),
                                orig.my_buckets.table(),
                                upper + 1,
                            ));
                            assert(pre.my_buckets.table().dom().contains(upper));
                            assert(orig.my_buckets.table().dom().contains(upper));
                            assert(orig.my_buckets.table()[upper]
                                == pre.my_buckets.table()[upper]);
                            assert(bucket_at(orig.buckets(), upper as int).len() == 0);
                        }
                        self.step_down(Ghost(pre));
                    proof {
                        if self.upper_bound_occupied_bucket >= self.lower_bound_occupied_bucket {
                            assert(self.upper_bound_occupied_bucket == upper - 1);
                            if gkeys.len() == 0 {
                                assert(span_half(
                                    orig.buckets(),
                                    self.upper_bound_occupied_bucket,
                                    orig.upper(),
                                )) by {
                                    assert forall|c: i64|
                                        self.upper_bound_occupied_bucket < c <= orig.upper() implies (
                                    #[trigger] bucket_at(orig.buckets(), c as int)).len() == 0 by {
                                        if c == upper {
                                        }
                                    }
                                }
                            } else {
                                assert(span_open(
                                    orig.buckets(),
                                    self.upper_bound_occupied_bucket,
                                    gkeys.last(),
                                )) by {
                                    assert forall|c: i64|
                                        self.upper_bound_occupied_bucket < c
                                            < gkeys.last() implies (#[trigger] bucket_at(
                                        orig.buckets(),
                                        c as int,
                                    )).len() == 0 by {
                                        if c == upper {
                                        }
                                    }
                                }
                            }
                            assert(agree_below(
                                self.my_buckets.table(),
                                orig.my_buckets.table(),
                                self.upper_bound_occupied_bucket + 1,
                            )) by {
                                assert forall|c: i64|
                                    c < self.upper_bound_occupied_bucket + 1 implies ((
                                #[trigger] self.my_buckets.table().dom().contains(c))
                                    == orig.my_buckets.table().dom().contains(c) && (
                                self.my_buckets.table().dom().contains(c)
                                    ==> self.my_buckets.table()[c] == orig.my_buckets.table()[c])) by {
                                    assert(c != upper);
                                    assert(pre.my_buckets.table().dom().contains(c)
                                        == orig.my_buckets.table().dom().contains(c) && (
                                    pre.my_buckets.table().dom().contains(c)
                                        ==> pre.my_buckets.table()[c]
                                        == orig.my_buckets.table()[c]));
                                }
                            }
                        }
                    }
                    }
                },
                None => {
                    proof {
                        assert(self.my_buckets.table() == pre.my_buckets.table()) by {
                            assert(pre.my_buckets.table().remove(upper) =~= pre.my_buckets.table());
                        }
                        assert(!(gkeys.len() > 0 && gkeys.last() == upper));
                        assert(agree_below(
                            pre.my_buckets.table(),
                            orig.my_buckets.table(),
                            upper + 1,
                        ));
                        assert(!pre.my_buckets.table().dom().contains(upper));
                        assert(!orig.my_buckets.table().dom().contains(upper));
                        assert(bucket_at(orig.buckets(), upper as int)
                            =~= Multiset::<(T, u64)>::empty());
                        assert(bucket_at(orig.buckets(), upper as int).len() == 0);
                    }
                    self.step_down(Ghost(pre));
                    proof {
                        if self.upper_bound_occupied_bucket >= self.lower_bound_occupied_bucket {
                            assert(self.upper_bound_occupied_bucket == upper - 1);
                            if gkeys.len() == 0 {
                                assert(span_half(
                                    orig.buckets(),
                                    self.upper_bound_occupied_bucket,
                                    orig.upper(),
                                )) by {
                                    assert forall|c: i64|
                                        self.upper_bound_occupied_bucket < c <= orig.upper() implies (
                                    #[trigger] bucket_at(orig.buckets(), c as int)).len() == 0 by {
                                        if c == upper {
                                        }
                                    }
                                }
                            } else {
                                assert(span_open(
                                    orig.buckets(),
                                    self.upper_bound_occupied_bucket,
                                    gkeys.last(),
                                )) by {
                                    assert forall|c: i64|
                                        self.upper_bound_occupied_bucket < c
                                            < gkeys.last() implies (#[trigger] bucket_at(
                                        orig.buckets(),
                                        c as int,
                                    )).len() == 0 by {
                                        if c == upper {
                                        }
                                    }
                                }
                            }
                            assert(agree_below(
                                self.my_buckets.table(),
                                orig.my_buckets.table(),
                                self.upper_bound_occupied_bucket + 1,
                            )) by {
                                assert forall|c: i64|
                                    c < self.upper_bound_occupied_bucket + 1 implies ((
                                #[trigger] self.my_buckets.table().dom().contains(c))
                                    == orig.my_buckets.table().dom().contains(c) && (
                                self.my_buckets.table().dom().contains(c)
                                    ==> self.my_buckets.table()[c] == orig.my_buckets.table()[c])) by {
                                    assert(c != upper);
                                    assert(pre.my_buckets.table().dom().contains(c)
                                        == orig.my_buckets.table().dom().contains(c) && (
                                    pre.my_buckets.table().dom().contains(c)
                                        ==> pre.my_buckets.table()[c]
                                        == orig.my_buckets.table()[c]));
                                }
                            }
                        }
                    }
                },
            }
        }
        proof {
            broadcast use vstd::seq_lib::group_to_multiset_ensures;

            assert(segments_flatten(gsegs) == to_return@ && gkeys.len() == gsegs.len());
            assert(orig == *old(self));
            assert(segments_from(old(self).buckets(), gkeys, gsegs));
            assert(gaps_empty(old(self).buckets(), gkeys, old(self).upper()));
        }
        to_return
    }

    fn my_len(&self) -> (r: usize) {
        if self.upper_bound_occupied_bucket < self.lower_bound_occupied_bucket {
            return 0;
        }
        let mut total: usize = 0;
        let mut c = self.upper_bound_occupied_bucket;
        loop
            invariant_except_break
                self.valid(),
                self.lower_bound_occupied_bucket <= c <= self.upper_bound_occupied_bucket,
                total + range_contents(
                    self.my_buckets.table(),
                    self.lower_bound_occupied_bucket as int,
                    c as int,
                ).len() == self.contents().len(),
            ensures
                total == self.contents().len(),
            decreases c - self.lower_bound_occupied_bucket,
        {
            proof {
                vstd::multiset::axiom_len_add(
                    bucket_at(self.my_buckets.table(), c as int),
                    range_contents(
                        self.my_buckets.table(),
                        self.lower_bound_occupied_bucket as int,
                        c as int - 1,
                    ),
                );
            }
            match self.my_buckets.get(&c) {
                Some(b) => {
                    let k = b.my_len();
                    total = total + k;
                },
                None => {},
            }
            if c == self.lower_bound_occupied_bucket {
                proof {
                    assert(range_contents(
                        self.my_buckets.table(),
                        self.lower_bound_occupied_bucket as int,
                        c as int - 1,
                    ) =~= Multiset::<(T, u64)>::empty());
                }
                break;
            }
            c = c - 1;
        }
        total
    }

    fn is_empty(&self) -> (r: bool) {
        let n = self.my_len();
        n == 0
    }
}

impl<T, Q: AbstractPriorityQueue<T>, S: IndexInto<Q>, G: CoarseGrainedPriority> BucketQueue<
    T,
    Q,
    S,
    G,
> {
    /// The stored buckets, by key.
    pub closed spec fn buckets(&self) -> Map<i64, Q> {
        self.my_buckets.table()
    }

    /// The lowest bucket key the scan still considers.
    pub closed spec fn lower(&self) -> i64 {
        self.lower_bound_occupied_bucket
    }

    /// The highest bucket key the scan still considers.
    pub closed spec fn upper(&self) -> i64 {
        self.upper_bound_occupied_bucket
    }

    /// The inner queue whose empty copies populate fresh buckets.
    pub closed spec fn template(&self) -> Q {
        self.bucket_template
    }

    /// Step the scan cursor one bucket down, or mark the queue exhausted.
    fn step_down(&mut self, Ghost(pre): Ghost<Self>)
        requires
            old(self).valid(),
            pre.valid(),
            old(self).bucket_template == pre.bucket_template,
            old(self).lower_bound_occupied_bucket == pre.lower_bound_occupied_bucket,
            old(self).upper_bound_occupied_bucket == pre.upper_bound_occupied_bucket,
            pre.upper_bound_occupied_bucket >= pre.lower_bound_occupied_bucket,
            old(self).contents() == pre.contents(),
            old(self).peek_spec() == pre.peek_spec(),
            !old(self).my_buckets.table().dom().contains(pre.upper_bound_occupied_bucket),
            forall|c: i64| #[trigger]
                old(self).my_buckets.table().dom().contains(c)
                    ==> pre.lower_bound_occupied_bucket <= c <= pre.upper_bound_occupied_bucket,
            forall|c: i64|
                old(self).my_buckets.table().dom().contains(c) ==> (#[trigger] old(self).my_buckets.table()[c]).valid(),
        ensures
            final(self).valid(),
            final(self).contents() == pre.contents(),
            final(self).peek_spec() == pre.peek_spec(),
            final(self).upper_bound_occupied_bucket < pre.upper_bound_occupied_bucket
                || final(self).upper_bound_occupied_bucket < final(self).lower_bound_occupied_bucket,
            final(self).lower_bound_occupied_bucket == pre.lower_bound_occupied_bucket || final(self).upper_bound_occupied_bucket < final(self).lower_bound_occupied_bucket,
            final(self).upper_bound_occupied_bucket == pre.upper_bound_occupied_bucket - 1
                || final(self).upper_bound_occupied_bucket
                < final(self).lower_bound_occupied_bucket,
            final(self).my_buckets == old(self).my_buckets,
            final(self).bucket_template == pre.bucket_template,
    {
        let upper = self.upper_bound_occupied_bucket;
        proof {
            let m = self.my_buckets.table();
            let lo = self.lower_bound_occupied_bucket as int;
            let hi = upper as int;
            // the top bucket is gone, so the scan may skip its key
            assert(bucket_at(m, hi) =~= Multiset::<(T, u64)>::empty());
            assert(range_contents(m, lo, hi) =~= range_contents(m, lo, hi - 1));
            assert(scan_peek(m, lo, hi) == scan_peek(m, lo, hi - 1));
        }
        if upper > self.lower_bound_occupied_bucket {
            self.upper_bound_occupied_bucket = upper - 1;
        } else {
            // nothing anywhere: mark the whole range unoccupied
            proof {
                assert forall|c: i64|
                    true implies !(#[trigger] self.my_buckets.table().dom().contains(c)) by {
                    if self.my_buckets.table().dom().contains(c) {
                        assert(c == upper);
                    }
                }
            }
            self.lower_bound_occupied_bucket = 0;
            self.upper_bound_occupied_bucket = -1;
            proof {
                self.lemma_empty_map_range_free();
            }
        }
    }

    /// Like `lemma_empty_map_range`, over the queue's own bounds.
    proof fn lemma_empty_map_range_free(&self)
        requires
            forall|c: i64| !(#[trigger] self.my_buckets.table().dom().contains(c)),
        ensures
            self.contents() == Multiset::<(T, u64)>::empty(),
            self.peek_spec() is None,
    {
        assert(self.my_buckets.table().dom() =~= Set::<i64>::empty());
        self.lemma_empty_map_range(
            self.lower_bound_occupied_bucket as int,
            self.upper_bound_occupied_bucket as int,
        );
    }

    /// After the top bucket ran dry it was discarded; pull the scan bound
    /// down past it.
    fn tighten_upper(&mut self, Ghost(pre): Ghost<Self>)
        requires
            old(self).valid(),
            old(self).upper_bound_occupied_bucket >= old(self).lower_bound_occupied_bucket,
            !old(self).my_buckets.table().dom().contains(old(self).upper_bound_occupied_bucket),
        ensures
            final(self).valid(),
            final(self).contents() == old(self).contents(),
            final(self).peek_spec() == old(self).peek_spec(),
            final(self).upper_bound_occupied_bucket < old(self).upper_bound_occupied_bucket
                || final(self).upper_bound_occupied_bucket
                < final(self).lower_bound_occupied_bucket,
            final(self).lower_bound_occupied_bucket == old(self).lower_bound_occupied_bucket
                || final(self).upper_bound_occupied_bucket
                < final(self).lower_bound_occupied_bucket,
            final(self).upper_bound_occupied_bucket == old(self).upper_bound_occupied_bucket - 1
                || final(self).upper_bound_occupied_bucket
                < final(self).lower_bound_occupied_bucket,
            final(self).my_buckets == old(self).my_buckets,
    {
        let upper = self.upper_bound_occupied_bucket;
        proof {
            let m = self.my_buckets.table();
            let lo = self.lower_bound_occupied_bucket as int;
            let hi = upper as int;
            assert(bucket_at(m, hi) =~= Multiset::<(T, u64)>::empty());
            assert(range_contents(m, lo, hi) =~= range_contents(m, lo, hi - 1));
            assert(scan_peek(m, lo, hi) == scan_peek(m, lo, hi - 1));
        }
        if upper > self.lower_bound_occupied_bucket {
            self.upper_bound_occupied_bucket = upper - 1;
        } else {
            proof {
                assert forall|c: i64|
                    true implies !(#[trigger] self.my_buckets.table().dom().contains(c)) by {
                    if self.my_buckets.table().dom().contains(c) {
                        assert(c == upper);
                    }
                }
            }
            self.lower_bound_occupied_bucket = 0;
            self.upper_bound_occupied_bucket = -1;
            proof {
                self.lemma_empty_map_range_free();
            }
        }
    }

    /// The next pair comes from the topmost bucket that shows anything:
    /// some occupied bucket within the bounds peeks exactly that pair, and
    /// every bucket above it shows nothing.
    pub proof fn lemma_peek_from_topmost(&self)
        requires
            self.valid(),
            self.peek_spec() is Some,
        ensures
            exists|c: int|
                {
                    &&& self.lower() <= c <= self.upper()
                    &&& (#[trigger] self.buckets().dom().contains(c as i64))
                    &&& self.buckets()[c as i64].peek_spec() == self.peek_spec()
                    &&& forall|c2: int|
                        c < c2 <= self.upper() && self.buckets().dom().contains(
                            #[trigger] (c2 as i64),
                        ) ==> self.buckets()[c2 as i64].peek_spec() is None
                },
    {
        let m = self.my_buckets.table();
        let lo = self.lower_bound_occupied_bucket as int;
        let hi = self.upper_bound_occupied_bucket as int;
        self.lemma_scan_topmost_helper(lo, hi);
        let c = choose|c: int|
            {
                &&& lo <= c <= hi
                &&& (#[trigger] m.dom().contains(c as i64))
                &&& m[c as i64].peek_spec() == scan_peek(m, lo, hi)
                &&& forall|c2: int|
                    c < c2 <= hi && m.dom().contains(#[trigger] (c2 as i64)) ==> m[
                        c2 as i64].peek_spec() is None
            };
        assert({
            &&& self.lower() <= c <= self.upper()
            &&& self.buckets().dom().contains(c as i64)
            &&& self.buckets()[c as i64].peek_spec() == self.peek_spec()
            &&& forall|c2: int|
                c < c2 <= self.upper() && self.buckets().dom().contains(#[trigger] (c2 as i64))
                    ==> self.buckets()[c2 as i64].peek_spec() is None
        });
    }

    /// Induction behind `lemma_peek_from_topmost`.
    proof fn lemma_scan_topmost_helper(&self, lo: int, hi: int)
        requires
            self.valid(),
            scan_peek(self.my_buckets.table(), lo, hi) is Some,
        ensures
            exists|c: int|
                {
                    &&& lo <= c <= hi
                    &&& (#[trigger] self.my_buckets.table().dom().contains(c as i64))
                    &&& self.my_buckets.table()[c as i64].peek_spec() == scan_peek(
                        self.my_buckets.table(),
                        lo,
                        hi,
                    )
                    &&& forall|c2: int|
                        c < c2 <= hi && self.my_buckets.table().dom().contains(
                            #[trigger] (c2 as i64),
                        ) ==> self.my_buckets.table()[c2 as i64].peek_spec() is None
                },
        decreases (if hi < lo {
            0int
        } else {
            hi - lo + 1
        }),
    {
        let m = self.my_buckets.table();
        if hi >= lo {
            if m.dom().contains(hi as i64) && m[hi as i64].peek_spec() is Some {
                assert(lo <= hi <= hi && m.dom().contains(hi as i64) && m[hi as i64].peek_spec()
                    == scan_peek(m, lo, hi) && (forall|c2: int|
                    hi < c2 <= hi && m.dom().contains(#[trigger] (c2 as i64)) ==> m[
                        c2 as i64].peek_spec() is None));
            } else {
                self.lemma_scan_topmost_helper(lo, hi - 1);
                let c = choose|c: int|
                    {
                        &&& lo <= c <= hi - 1
                        &&& (#[trigger] m.dom().contains(c as i64))
                        &&& m[c as i64].peek_spec() == scan_peek(m, lo, hi - 1)
                        &&& forall|c2: int|
                            c < c2 <= hi - 1 && m.dom().contains(#[trigger] (c2 as i64)) ==> m[
                                c2 as i64].peek_spec() is None
                    };
                assert(lo <= c <= hi && m.dom().contains(c as i64) && m[c as i64].peek_spec()
                    == scan_peek(m, lo, hi) && (forall|c2: int|
                    c < c2 <= hi && m.dom().contains(#[trigger] (c2 as i64)) ==> m[
                        c2 as i64].peek_spec() is None));
            }
        }
    }

    /// The scan stops at the topmost bucket that shows anything: whatever it
    /// returns is the peek of an occupied bucket, and every bucket above that
    /// one shows nothing.
    proof fn lemma_scan_peek_in_range(&self, lo: int, hi: int)
        requires
            self.valid(),
        ensures
            match scan_peek(self.my_buckets.table(), lo, hi) {
                Some(tp) => range_contents(self.my_buckets.table(), lo, hi).contains(tp),
                None => range_contents(self.my_buckets.table(), lo, hi).len() == 0,
            },
        decreases (if hi < lo {
            0int
        } else {
            hi - lo + 1
        }),
    {
        broadcast use vstd::multiset::group_multiset_axioms;

        let m = self.my_buckets.table();
        if hi >= lo {
            self.lemma_scan_peek_in_range(lo, hi - 1);
            if m.dom().contains(hi as i64) && m[hi as i64].peek_spec() is Some {
                let tp = m[hi as i64].peek_spec().unwrap();
                m[hi as i64].lemma_peek_in_contents();
                assert(bucket_at(m, hi).contains(tp));
            } else {
                if m.dom().contains(hi as i64) {
                    m[hi as i64].lemma_peek_in_contents();
                    vstd::multiset::lemma_multiset_empty_len(bucket_at(m, hi));
                }
            }
        }
    }
}

} // verus!
