//! kosu: the rules behind a recursive disk crawler and junk finder.

pub mod accumulate;
pub mod args;
pub mod counters;
pub mod crawl;
pub mod findings;
pub mod junk;
pub mod junk_view;
pub mod laws;
pub mod lex;
pub mod order;
pub mod paths;
pub mod patterns;
pub mod platform;
pub mod pool;
pub mod prepare;
pub mod scan;
pub mod sums;
pub mod text;
pub mod totals;
pub mod tree;
pub mod tree_view;
pub mod usage;
pub mod view;
pub mod walker;
