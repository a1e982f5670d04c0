//! Pieces of the viewer that hold no drawing: timer flags, menu entries and
//! the layout of the time labels.

pub mod label;
pub mod menus;
pub mod timer;
pub mod palette;
