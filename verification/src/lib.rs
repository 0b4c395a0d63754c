//! Approximate line matching between a query corpus and a reference corpus.

pub mod bigram;
pub mod entry;
pub mod index;
pub mod matcher;
pub mod pipeline;
pub mod scale;
pub mod scorer;
pub mod shortlist;
pub mod text;
pub mod topk;
