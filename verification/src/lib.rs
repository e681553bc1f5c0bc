//! Verified core of lemmalog's semantic side index and of its benchmark
//! bridge: hashing-trick token counts, the entity profile registry, and the
//! parsing and formatting decisions of session ingestion and context
//! assembly.
use vstd::prelude::*;

pub mod bench;
pub mod hashing;
pub mod json;
pub mod number;
pub mod semantics;
pub mod text;

pub use bench::{
    context_with_history, conversation_sessions, date_label, date_order_rules, edge_history,
    is_date_shaped, latest_timestamp, latest_timestamp_checked, parse_date, parse_date_checked,
    session_date_key, session_number, session_transcript, sidecar_dates, EdgeRow, Sessions, Turn,
};
pub use json::{dates_to_json, parse_dates, parse_json, Json};
pub use hashing::fnv1a;
pub use semantics::{EntityTable, HashEmbedder};

verus! {

} // verus!
