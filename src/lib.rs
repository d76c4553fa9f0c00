//! Key/value labels for spans of a thread's execution: a label set, the slot
//! that holds a thread's current set, scoped changes that undo themselves,
//! and the carrying of a set across suspended computations and traced spans.
pub mod asynchronous;
pub mod labelset;
pub mod root;
pub mod scoped;
pub mod span;

pub use asynchronous::{Label, Labeled};
pub use labelset::{Entry, Labelset};
pub use root::LabelRoot;
pub use scoped::{with_label, with_labels, SavedLabel};
pub use span::{ClTracingLayer, SpanLabels};
