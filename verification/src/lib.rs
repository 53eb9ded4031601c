//! Two-way merges of sorted, duplicate-free vectors into their union, with
//! machine-checked contracts.
//!
//! [`merge2_uniq`] holds the merges. [`order`], [`ascending`] and [`union`]
//! hold the mathematics that their contracts are written in, and
//! [`baseline`] what the baseline merge is made of.

pub mod ascending;
pub mod baseline;
mod cursor;
pub mod merge2_uniq;
pub mod order;
pub mod union;
