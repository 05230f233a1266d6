//! A library for viewing delimited text tables: the record decoder, the
//! background index builder's logic, the filter language, the histogram, the
//! viewport and column model and the cell formatter.

mod cols;
pub mod filter;
mod fmt;
mod grid;
mod histogram;
mod index;
mod nav;
mod num;
mod prompt;
mod record;
mod size;
mod sniff;
mod spinner;

pub use nav::{goto_target, parse_usize, ColIter, Nav};
pub use record::{bounds_ok, lemma_record_offsets, trimmed, Decoded, Decoder, InitVec, NestedString, BOUNDS_LEN, BUF_LEN};
pub use num::{decimal_order, decimal_text, is_decimal, is_decimal_bytes, Dec};
pub use size::{after_cmd, effective, ColSize, Constraint, SizeCmd, MAX_CONSTRAINED};
pub use cols::{lemma_cols_invariant, order_ok, Cols, ColsCmd};
pub use fmt::{char_width, lemma_number_round_trip, digits, group3, guess_spec, lossy_chars, render, text_width, trim_spec, ColStat, Fmt, Ty};
pub use histogram::{entries_of, lemma_histogram_invariant, Histogram};
pub use sniff::{is_header, sniff_delimiter, sniff_has_header};
pub use index::{index_bytes, index_ok, lemma_identity_filter_indexes_all, lemma_index_snapshot, lemma_progress_monotone, progress, IndexBuilder, SYNC_EVERY};
pub use spinner::{nb_print_len, print_len, Spinner};
pub use prompt::HistoryBuffer;
pub use grid::Grid;
