//! An in-memory fuzzy search engine: candidates are matched against a query as
//! ordered subsequences, ranked, truncated and rendered with highlight markers.

pub mod highlight;
pub mod index;
pub mod matcher;
pub mod ranking;
pub mod single;
pub mod stripping;
pub mod subsequence;
pub mod text;

pub use highlight::highlight;
pub use index::{SearchIndex, SearchResults};
pub use matcher::{fuzzy_match, MatchResult};
pub use ranking::{rank, RankedHit};
pub use single::{match_single, SingleMatch};
