//! Storage-abstraction core of an embedded document database: a
//! backend-agnostic, transactional key-value interface with optimistic
//! conflict detection, bounded retry, and a cursor protocol for range
//! iteration, together with the configuration values that select and
//! size a backend.

mod config;
mod config_utils;
mod errors;
mod iterator;
mod keys;
mod kv;
mod laws;
mod retry;
mod store;
mod strutil;

pub use config::{
    absolutize, apply_entries, apply_entry, apply_level_kvs, apply_param, apply_params,
    bool_word, entry_names_upto, has_override, idna_to_ascii, kv_pair_ok, level_names_upto,
    load_entry_ok, load_level_ok, load_logger_ok, load_param_ok, loaded_overrides,
    loader_bool_key, loader_reaches, loader_string_key, logger_entry_ok, logger_param_at,
    logger_param_ok, logging_valid, multiaddr_parses, net_valid, no_tilde, open, override_view,
    overrides_map, overrides_unique, peers_valid, valid_domain, valid_level_name, APIConfig,
    BadgerConfig, Config, DatastoreConfig, LoggingConfig, MemoryConfig, NamedLoggingConfig,
    NetConfig, OverrideView,
};
pub use config_utils::{
    byte_size_of, byte_size_parses, byte_size_render, ci_eq, expand_home_dir,
    expand_home_dir_with, is_lowercase_alpha, parse_kv, str_eq_ci, trim_spaces, unit_multiplier,
    ByteSize, GIB, KIB, MIB, PIB, TIB,
};
pub use errors::{BadgerError, ConfigError, StoreError};
pub use iterator::{Iterable, IterableDatastore, IterableTxn, Read, Store, Write};
pub use keys::{compare_keys, lex_le, lex_lt, KeyOrder};
pub use kv::{clone_bytes, Entry, Query};
pub use laws::{
    lemma_delete_then_absent, lemma_disjoint_writers_both_commit, lemma_empty_range,
    lemma_kvs_range_in_range, lemma_kvs_range_sorted, lemma_overlapping_writers_conflict,
    lemma_write_own_read,
};
pub use strutil::{dec_str, digit_char, digit_val, is_digit, str_chars, str_eq, u64_to_string};
pub use retry::{run_with_retry, run_with_retry_counted, total_attempts, UnitOfWork};
pub use store::{
    apply_writes, bump_versions, commit_admissible, write_conflict, Cursor, Datastore, StoreKind,
    Transaction, TxnState,
};
