//! Path-keyed chat history: a model of the store of conversation records,
//! with lookup by partial identifier, filtered listing, content search with
//! context excerpts, restore with backup, export renderings, and
//! fixed-width formatting for tabular display.

pub mod cli;
pub mod clock;
pub mod export;
pub mod order;
pub mod record;
pub mod search;
pub mod store;
pub mod text;

pub use crate::cli::{HistoryArgs, HistoryCommands, format_summary_row};
pub use crate::export::{
    ExportError, ExportFormat, ExportPlan, export_conversation, export_conversation_at,
    format_conversation_as_markdown, format_conversation_as_text,
};
pub use crate::record::{SessionRecord, Turn, extract_preview};
pub use crate::search::{
    contains_folded, conversation_contains_text, extract_search_preview, preview_window,
};
pub use crate::store::{
    ConversationSummary, Database, DecodeError, RestoreError, RestoreOutcome, StoreEntry,
};
pub use crate::text::{truncate_path, truncate_string};
