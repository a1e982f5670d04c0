//! Verified core of the JAnim backend: offset bitsets, the relation
//! registry that keeps parent/child links between items, the state of the
//! viewer's timers and menus, and the merge of translation tables.

pub mod bitset;
pub mod cache;
pub mod gui;
pub mod locales;
pub mod registry;
pub mod word_bits;
