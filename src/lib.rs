//! Keeps a text file as a sorted set of lines: loads its lines, merges in additions,
//! sorts them byte-wise and removes duplicates, and says whether and how the file
//! must be rewritten.

pub mod laws;
pub mod lines;
pub mod normalize;
pub mod order;
pub mod policy;
pub mod reconcile;
pub mod text;
