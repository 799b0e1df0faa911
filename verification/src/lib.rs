//! Wayback Machine data: captures and their URLs, timestamps and digests, exact snapshot files,
//! content-addressed stores, capture indexes, and the logs and queries around them.
pub mod capture_index;
pub mod captures;
pub mod cdx;
pub mod check;
pub mod cleanup;
pub mod client;
pub mod compact;
pub mod context;
pub mod contexts;
pub mod decimal;
pub mod digest;
pub mod digest_table;
pub mod download;
pub mod exact;
pub mod export;
pub mod extract;
pub mod format;
pub mod gzip;
pub mod integer;
pub mod invalid_log;
pub mod item;
pub mod json;
pub mod legacy;
pub mod lines;
pub mod listing;
pub mod merge;
pub mod metadata;
pub mod migrate;
pub mod numeral;
pub mod pairs;
pub mod paths;
pub mod reader;
pub mod reconcile;
pub mod redirect;
pub mod snapshot;
pub mod store;
pub mod stream;
pub mod surt;
pub mod table;
pub mod tabular;
pub mod text;
pub mod timestamp;
pub mod transfer;
pub mod usage;
pub mod validation;
pub mod verification;
pub mod verify_lines;
pub mod writer;
pub mod wxj;
