//! The contract between the front end and the back end: shared types, error
//! codes and their messages.

pub mod error;
pub mod types;
pub mod message;
pub mod command_errors;
