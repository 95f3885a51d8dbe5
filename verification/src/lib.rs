//! Content core for a publishing platform: tag reconciliation and feed
//! aggregation.
//!
//! The relational store (posts, comments, tags, taggings, stocks) is an
//! external collaborator; this crate holds the decision logic that the
//! surrounding service layer drives: parsing a raw tag string, planning the
//! minimal set of tagging inserts and deletes, and merging post and comment
//! streams into one reverse-chronological, paginated feed.

use vstd::prelude::*;

pub mod feed;
pub mod tags;

verus! {

/// A tag row identifier as the store assigns it.
pub type TagId = i32;

} // verus!
