//! Pages of a latch-free, delta-chained key-value store: tagged page
//! pointers, page kinds, a self-describing byte format for base and delta
//! data pages, and a page table whose chains are read newest page first and
//! folded back into one base page.

pub mod chain;
pub mod codec;
pub mod data;
pub mod kind;
pub mod page;
pub mod ptr;
