pub mod dependency_queue;
pub mod israeli_priority;
pub mod iterator_manipulation;
pub mod my_priority_queue;
pub mod nested_queue;
pub mod ordinary_priority_queue;
pub mod no_priority_queue;

pub use dependency_queue::{Access, Blocker, BlockingQueue};
pub use israeli_priority::{Friendly, IsraeliPriority, Keyed, MaxCombiner, PriorityCombiner};
pub use iterator_manipulation::{
    Feedback, FeedbackProcessor, FeedbackResult, FlushableIterator, Reorderable, Reordered,
};
pub use iterator_manipulation::feedback_iterator::FeedbackStep;
pub use my_priority_queue::AbstractPriorityQueue;
pub use ordinary_priority_queue::{ordinary_with_capacity, OrdinaryQueue};
pub use nested_queue::{BucketQueue, CoarseGrainedPriority, DenseSlots, IndexInto, TenfoldCoarse};
pub use no_priority_queue::NoPriorityQueue;
