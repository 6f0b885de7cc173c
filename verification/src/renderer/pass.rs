//! The built-in render passes, and the ids that the stock workflows register them under.
//!
//! A pass decides from the frame whether it runs and which commands it records; the
//! commands name pipelines, bind groups and batches.

pub mod attachments;
pub mod flat_color;
pub mod ids;
pub mod main_pass;
pub mod outline_pass;
pub mod program;
pub mod silhouette;
