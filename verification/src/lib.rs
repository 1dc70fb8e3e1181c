//! Filtering of sampled call stacks by a stack-pattern query, and the
//! aggregated views (histogram, call graph, call tree) over the samples
//! that match.
//!
//! A profile is read as text ([`trace`]), sample by sample. A query
//! ([`parser`]) is compiled into a matcher ([`matcher`]), which is searched
//! for in the stack of every sample. The run ([`driver`]) counts the
//! samples that match, and counts their frames in one view: the histogram
//! ([`histogram`]), the call graph ([`graph`]) or the call tree ([`tree`]);
//! the flat profile ([`flat`]) counts samples where they end.
//!
//! Every function is verified against its contract. What is taken on trust
//! is what the `regex` crate computes ([`pattern`]), which characters are
//! white space and how a character is appended to a string ([`text`]), and
//! how `itertools` puts blanks between words ([`trace`]).

pub mod driver;
pub mod edges;
pub mod flat;
pub mod graph;
pub mod histogram;
pub mod intern;
pub mod matcher;
pub mod order;
pub mod parser;
pub mod pattern;
pub mod rustc_query;
pub mod text;
pub mod trace;
pub mod tree;
pub mod util;
