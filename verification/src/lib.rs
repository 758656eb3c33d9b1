//! Statistics pipeline for frequency-ranked n-gram corpora: sanitizing raw
//! token text for display, parsing "count token" lines into ranked frequency
//! tables, computing derived aggregates (unique counts, growth ratios,
//! maxima, reference scaling, top-N truncation), and shaping the aggregates
//! into plottable chart series. Rendering and file access live outside this
//! library.

pub mod aggregate;
pub mod corpus;
pub mod sanitize;
pub mod series;
