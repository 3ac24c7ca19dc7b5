//! A codec between DNS wire-format datagrams and an in-memory message tree.

pub mod error;
pub mod primitive;
pub mod name;
pub mod header;
pub mod section;
pub mod message;
