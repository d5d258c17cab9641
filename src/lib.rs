//! Enumerates application launcher entries: builds the search paths, picks the
//! descriptor files, reads their `[Desktop Entry]` section, strips field codes
//! from commands, deduplicates by name, filters by a fuzzy query and sorts.
pub mod command;
pub mod entry;
pub mod listing;
pub mod order;
pub mod paths;
pub mod pipeline;
