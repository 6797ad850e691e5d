//! What the operations do, stated on what goes in and what comes out.

pub mod documents;
pub mod messages;
pub mod names;
pub mod planning;
pub mod resuming;
pub mod selection;
pub mod texts;
pub mod times;
