//! Locate configuration files, merge them into one value tree, and decide
//! when a watched configuration has to be reloaded.

mod config;
mod error;
mod finder;
mod locator;
mod paths;
mod pattern;
mod text;
mod value;
mod watch;

pub use config::{Config, ConfigFile};
pub use error::Error;
pub use pattern::{check_template, compile_patterns, CompiledPattern};
pub use text::{chars_of, str_lt};
pub use value::{merge, Type, Value, ValueMap};
pub use locator::{DirListing, DirLocator, DirWalkLocator, WalkDirLocator};
pub use finder::{dedup_paths, find_files, gather, ConfigBuilder, ConfigFinder, Loader, Locator};
pub use watch::{ChangeEvent, EventKind, WatchAction, WatchState, DEBOUNCE_MS};
pub use paths::{file_name, format_key};
