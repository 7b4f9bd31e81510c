//! A log-structured key-value store.
//!
//! The verified part of the store decides everything that does not touch a
//! file or a socket: which segment files exist and what they are called, how
//! the in-memory index changes when a record is appended or replayed, how many
//! bytes of the log are dead, and how a compaction rewrites the index.  The
//! caller performs the file work that each decision describes.
mod config;
mod engine;
mod framing;
mod keydir;
mod protocol;
mod segment;
mod server;
pub mod thread_pool;

pub use config::{
    choose_engine, engine_named, is_white_space, lowercase_of, select_engine, trim_end, trim_start,
    trimmed, EngineKind,
};
pub use engine::{
    apply_records, lemma_contents_are_replay, lemma_distinct_puts_all_kept, lemma_get_after_remove,
    lemma_get_after_set, lemma_index_in_segments, lemma_last_write_wins, lemma_live_bytes,
    lemma_log_size, lemma_reopen_same_contents, lemma_segment_order, lemma_values_come_from_log,
    lengths_total, record_key, records_view, CompactionPlan, Relocation, StoreState,
    COMPACTION_THRESHOLD,
};
pub use segment::{
    decimal, joined_path, log_file_name, log_pathe, parse_log_file_name, segment_file_name,
    segment_ids,
};
pub use framing::{record_lengths, split_records, RECORD_END};
pub use keydir::{pointer_total, KeyDir, LogPointer};
pub use server::{handle_request, next_accept_step, AcceptOutcome, AcceptStep, ACCEPT_RETRY_MS};
pub use protocol::{
    apply_record, into_response, replay_log, value_of_record, Cmd, KvsEngine, KvsError, RecordView,
    Request, Response,
};
