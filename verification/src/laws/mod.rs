//! What holds of handlers and of their statements as a whole.

pub mod effects;
pub mod handling;
pub mod messages;
pub mod model;
pub mod update;
