use priority_queue::PriorityQueue;
use queue_variants::{
    AbstractPriorityQueue, Feedback, FeedbackProcessor, FeedbackResult, FlushableIterator,
    NoPriorityQueue, Reorderable, Reordered,
};

#[test]
fn nothing_in_out_iter() {
    let q = PriorityQueue::<u64, u64>::new();
    let it: Vec<Result<(u64, u64), (Vec<u64>, u64)>> = Vec::new();
    let mut it = Reordered::new(it, q, 8);
    assert!(it.next().is_none());
}

fn collect_all(mut it: Reordered<u64, PriorityQueue<u64, u64>>) -> Vec<(u64, u64)> {
    let mut out = Vec::new();
    while let Some(pair) = it.next() {
        out.push(pair);
    }
    out
}

#[test]
fn rev_order_inout() {
    let max_num: u64 = 7;
    let q = PriorityQueue::<u64, u64>::new();
    let it: Vec<Result<(u64, u64), (Vec<u64>, u64)>> =
        std::iter::zip(0..=max_num, 20..=max_num + 20).map(Ok).collect();
    let it = Reordered::new(it, q, 8);
    for (idx, (a, b)) in collect_all(it).into_iter().enumerate() {
        assert_eq!(a + 20, b);
        assert_eq!(max_num - (idx as u64), a);
    }

    let q = PriorityQueue::<u64, u64>::new();
    let max_num: u64 = 40;
    let it: Vec<Result<(u64, u64), (Vec<u64>, u64)>> =
        std::iter::zip(0..=max_num, 20..=max_num + 20).map(Ok).collect();
    let it = Reordered::new(it, q, 4);
    let expected_as: Vec<u64> = (3..=max_num).chain([2, 1, 0]).collect();
    for ((a, b), expected_a) in collect_all(it).into_iter().zip(expected_as) {
        assert_eq!(a + 20, b);
        assert_eq!(expected_a, a);
    }

    let expected_as: Vec<u64> = (6..=max_num).chain([5, 4, 3, 2, 1, 0]).collect();
    let it: Vec<Result<(u64, u64), (Vec<u64>, u64)>> =
        std::iter::zip(0..=max_num, 20..=max_num + 20).map(Ok).collect();
    let q = PriorityQueue::<u64, u64>::new();
    for ((a, b), expected_a) in collect_all(it.reorder(q, 7)).into_iter().zip(expected_as) {
        assert_eq!(a + 20, b);
        assert_eq!(expected_a, a);
    }
}

#[test]
fn reorder_capacity_window() {
    // capacity 4 over (i, 20 + i) for i in 0..=6
    let q = PriorityQueue::<u64, u64>::new();
    let it: Vec<Result<(u64, u64), (Vec<u64>, u64)>> =
        (0..=6u64).map(|i| Ok((i, 20 + i))).collect();
    let got = collect_all(Reordered::new(it, q, 4));
    assert_eq!(
        got,
        vec![(3, 23), (4, 24), (5, 25), (6, 26), (2, 22), (1, 21), (0, 20)]
    );
}

#[test]
fn reorder_batch_entries_and_chain() {
    let q = PriorityQueue::<u64, u64>::new();
    let it: Vec<Result<(u64, u64), (Vec<u64>, u64)>> = vec![Err((vec![1, 2], 5)), Ok((3, 9))];
    let it = Reordered::new(it, q, 10);
    let mut it = it.chain_more(vec![Ok((4, 1))]);
    it.enqueue_now(Ok((5, 100)));
    let got = collect_all(it);
    assert_eq!(got, vec![(5, 100), (3, 9), (1, 5), (2, 5), (4, 1)]);
}

#[test]
fn reorder_flush_leaves_stage_usable() {
    let q = NoPriorityQueue::<u64>::new();
    let it: Vec<Result<(u64, u64), (Vec<u64>, u64)>> = vec![Ok((1, 0)), Ok((2, 0)), Ok((3, 0))];
    let mut it = Reordered::new(it, q, 2);
    let first = it.next();
    assert_eq!(first, Some((1, 0)));
    let flushed = it.flush();
    assert_eq!(flushed, vec![(2, 0)]);
    // the input still holds one entry, the queue starts empty again
    assert_eq!(it.next(), Some((3, 0)));
    assert_eq!(it.next(), None);
}

struct Countdown;

impl FeedbackProcessor<u64, (u64, u64)> for Countdown {
    fn process(&mut self, item: u64, priority: u64) -> FeedbackResult<(u64, u64), u64> {
        if item == 0 {
            FeedbackResult::FinishedOnly((item, priority))
        } else {
            FeedbackResult::JustFeedOne(item - 1, priority)
        }
    }
}

#[test]
fn feedback_counts_down_to_done() {
    let q = PriorityQueue::<u64, u64>::new();
    let it: Vec<Result<(u64, u64), (Vec<u64>, u64)>> = vec![Ok((3, 8))];
    let mut fb = Feedback::new(it, q, 4, Countdown);
    // three feed-back turns are needed before the item reaches zero
    assert_eq!(fb.next(10), Some((0, 8)));
    assert_eq!(fb.next(10), None);
}

struct SplitOnce;

impl FeedbackProcessor<u64, u64> for SplitOnce {
    fn process(&mut self, item: u64, priority: u64) -> FeedbackResult<u64, u64> {
        if item >= 100 {
            FeedbackResult::FinishedAndFeedMany(item, (vec![item - 100, item - 99], priority))
        } else {
            FeedbackResult::FinishedOnly(item)
        }
    }
}

#[test]
fn feedback_fed_items_come_back_out() {
    let q = PriorityQueue::<u64, u64>::new();
    let it: Vec<Result<(u64, u64), (Vec<u64>, u64)>> = vec![Ok((105, 1))];
    let mut fb = Feedback::new(it, q, 4, SplitOnce);
    assert_eq!(fb.next(10), Some(105));
    let mut rest = Vec::new();
    while let Some(f) = fb.next(10) {
        rest.push(f);
    }
    rest.sort();
    assert_eq!(rest, vec![5, 6]);
}

#[test]
fn feedback_flush_processes_buffered_pairs() {
    let q = PriorityQueue::<u64, u64>::new();
    let it: Vec<Result<(u64, u64), (Vec<u64>, u64)>> =
        vec![Ok((7, 3)), Ok((8, 2)), Ok((9, 1))];
    let mut fb = Feedback::new(it, q, 8, SplitOnce);
    // the highest priority leaves first: the pair (7, 3)
    assert_eq!(fb.next(10), Some(7));
    let flushed = fb.flush();
    assert_eq!(flushed, vec![8, 9]);
}
