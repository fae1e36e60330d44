//! Watches retailer pages for changes in an availability signal.
//!
//! A page's raw content is reduced to one number, its signal, by the
//! extraction rule of the tracking group the page belongs to. A signal that
//! differs from the page's remembered baseline is reported as a change; a
//! page that cannot be fetched or read is reported as an error of its own and
//! does not disturb the others.
//!
//! The library fetches nothing itself. A cycle is either driven by a fetch
//! function that the caller hands in ([`cycle::poll_cycle`]), or taken step
//! by step by a caller that does the fetching ([`cycle::PollCycle`]).
//!
//! - [`occurrences`]: counting the non-overlapping occurrences of a pattern;
//! - [`text`]: what that count means where content and pattern are text;
//! - [`markup`]: what is taken on trust about markup and selectors;
//! - [`extractor`]: the extraction rules;
//! - [`target`]: targets and tracking groups;
//! - [`report`]: change events, target errors and the change detector;
//! - [`cycle`]: the poll cycle.

pub mod cycle;
pub mod extractor;
pub mod markup;
pub mod occurrences;
pub mod report;
pub mod target;
pub mod text;
