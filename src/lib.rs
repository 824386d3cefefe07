//! Turns an annotated document (prose interleaved with named code fragments)
//! into a timing script: the document is parsed into an ordered list of items,
//! and each named fragment is wrapped into a guarded timing experiment. The
//! statistics engine that reduces trial durations is here too.

pub mod args;
pub mod parser;
pub mod stats;
pub mod text;
pub mod wrapper;

pub use args::{Args, ConfigError};
pub use parser::{fold_items, parse, tokenize, Item, Snippet, Token};
pub use stats::{reduce, Stats};
pub use wrapper::{get_output_path, heading, script, wrap, UTILS};
