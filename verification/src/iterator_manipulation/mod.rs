pub mod feedback_iterator;
pub mod flushable_iterator;
pub mod reordered_iterator;

pub use feedback_iterator::{Feedback, FeedbackProcessor, FeedbackResult};
pub use flushable_iterator::FlushableIterator;
pub use reordered_iterator::{Reorderable, Reordered};
