//! An ordered map from `u64` keys to values, kept in memory as a balanced
//! tree of bounded fan-out that only grows: entries are inserted and looked
//! up, never taken out.
//!
//! The tree comes with three kinds of nodes that differ in how they store
//! their entries and children and in nothing a caller can observe:
//! [`array_impl::ArrayBPTree`] keeps them in arrays of fixed size,
//! [`vec_impl::VecBPTree`] in growable sequences, and
//! [`other_impl::LLBPTree`] in linked sequences. Every node is read through
//! one logical form, [`model::Shape`], on which insertion, search and the
//! walk in key order are defined and proved once; each kind of node is then
//! shown to carry out exactly those steps.
//!
//! Values live in a store beside the tree. A lookup gives a handle,
//! [`util::Ptr`], that names the slot of a value and stays good for as long
//! as the tree lives, so a value can be read and changed in place later.

pub mod array_impl;
pub mod insertion;
pub mod laws;
pub mod linked;
pub mod listing;
pub mod lookup;
pub mod model;
pub mod other_impl;
pub mod split;
pub mod store;
pub mod util;
pub mod vec_impl;
