//! Instant file search: a name catalog, a content index over chosen folders,
//! an Everything-style query language with Korean natural-language words,
//! and ranking of hits.

pub mod text;
pub mod path;
pub mod types;
pub mod matcher;
pub mod pattern;
pub mod query;
pub mod catalog;
pub mod content;
pub mod rank;
pub mod search;
pub mod nl;
pub mod engine;
pub mod usn;
pub mod watch;
pub mod preview;
pub mod extract;
pub mod walk;
pub mod mft;
pub mod cli;
pub mod ui;

pub use catalog::Catalog;
pub use content::ContentIndex;
pub use engine::{parse_engine_config, Engine, EngineConfig};
pub use nl::compile_nl;
pub use query::{parse_query, Query};
pub use search::{search, search_text};
pub use types::{
    CatalogEvent, FileRecord, Hit, Snippet, ATTR_ARCHIVE, ATTR_DIRECTORY, ATTR_HIDDEN, ATTR_READONLY,
    ATTR_SYSTEM,
};
