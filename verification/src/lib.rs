//! Era-timeline resolution: converts a proleptic Gregorian calendar date into
//! the era-based date names of a historical calendar tradition.
//!
//! Era definitions are loaded from flat text files into a [`span::SpanListArray`]
//! (a timeline of period groups), a query date plus a selector is resolved to
//! the matching era records, and matches are rendered as display strings with
//! either positional or traditional numeral-word years.

pub mod date;
pub mod procedure;
pub mod represent;
pub mod search;
pub mod span;
pub mod text;
