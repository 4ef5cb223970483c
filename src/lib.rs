//! Per-station minimum, mean and maximum over `key;value` lines, computed
//! over byte ranges of the input that are parsed independently and merged.
//!
//! Values are fixed-point decimals with one fractional digit, held as
//! tenths. Each range is parsed by a `ChunkParser`; the bytes at a range's
//! edges that do not form a complete record there are handed on, joined
//! in range order and parsed last by `reconcile`.

mod buffer;
mod chunk;
mod error;
mod laws;
mod measurement;
mod records;
mod report;
mod split_lemmas;
mod stats;
mod table;

pub use buffer::{BufReader, Buffer, DEFAULT_BUF_SIZE};
pub use chunk::{
    chunk_body, chunk_leftover, chunk_range, chunk_records, lead_len, merge_outcomes, plan,
    reconcile, ChunkOutcome, ChunkParser,
};
pub use error::Error;
pub use laws::{
    chunked_table, is_partition, lemma_chunk_count_invariance, lemma_leftovers_are_whole_records,
    piece, pieces_leftover, pieces_table, records_table, well_formed,
};
pub use measurement::{
    abs, byte_ascii_digit, canonical_digits, canonical_measurement, decimal_digits, digit_of,
    digits_value, is_digit, is_negative, lemma_parse_then_format, parsable,
    parse_measurement, pow10, push_decimal, push_tenths, tenths_of, tenths_text, whole_part,
    MAX_MEASUREMENT_LEN, VALUE_BOUND,
};
pub use records::{
    consumed_len, find_byte, find_from, first_failure, observations, parse_records, split_records,
    NEWLINE, SEMICOLON,
};
pub use report::{
    entries_text, entry_text, format_report, lex_lt, report_text, sorted_listing, summaries,
};
pub use split_lemmas::{lemma_split_extend, pending};
pub use stats::{
    add_value, combine, consistent, count_key, fold_values, lemma_fold_concat, lemma_fold_is_merge,
    lemma_mean_between, lemma_merge_associative, lemma_merge_commutative, lemma_merge_empty,
    lemma_table_of_concat, lemma_table_of_counts, max_int, min_int,
    rounded_mean, single, table_of, Stats, Summary,
};
pub use table::{merge_fits, station_map_contents, StationMap};
