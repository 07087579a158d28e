//! Label and series caching for a log query gateway: canonical cache keys for
//! label selectors, longest-prefix reuse of cached series, local filtering by the
//! predicates a cached entry does not cover, and the label-values fan-out of an
//! unfiltered fetch.

pub mod selector;
pub mod filter;
pub mod keys;
pub mod decode;
pub mod errors;
pub mod series;
pub mod fanout;
pub mod timerange;
