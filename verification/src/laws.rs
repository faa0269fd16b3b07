//! What the operations of the library promise, as relations between what goes in and what comes
//! out.

pub mod arguments;
pub mod counting;
pub mod junk;
pub mod keys;
pub mod naming;
pub mod readers;
pub mod reports;
pub mod sizes;
pub mod trees;
pub mod walking;
