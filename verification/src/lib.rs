//! Pull-request queue model: turning raw pull-request records into summaries,
//! grouping dependent pull requests into stacks, and the list/detail state of
//! the queue browser.

pub mod text;
pub mod checks;
pub mod order;
pub mod pr;
pub mod stack;
pub mod grouping;
pub mod partition;
pub mod app;
pub mod display;
