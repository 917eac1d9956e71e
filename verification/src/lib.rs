//! A windowed frequency-aggregation engine over timestamped event logs.
//!
//! Input records are tab-separated lines, each carrying an unsigned integer
//! timestamp and a URL. The engine filters records by an inclusive timestamp
//! window, folds them into a URL-to-count frequency table, and answers two
//! queries over that table: the number of distinct URLs, and the top-N URLs
//! by occurrence count (count descending, ties broken by reverse
//! lexicographic order of the URL).

pub mod freq;
pub mod laws;
pub mod rank;
pub mod record;
pub mod window;
