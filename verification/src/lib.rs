//! Search for orderings ("chains") of a finite set of distinct integers in
//! which every two adjacent elements sum to a perfect square.
//!
//! The heart of the crate is [`memo::make_map`], a memoized recursive search
//! that computes, for each subset it is asked about, either `None` ("no valid
//! chain exists") or the complete list of valid chains covering exactly that
//! subset. Results are cached in a [`memo::ChainMemo`] keyed by the subset's
//! element content, so work done for smaller subsets is reused.

pub mod chains;
pub mod counting;
pub mod memo;
pub mod perms;
pub mod sorted;
pub mod square;
