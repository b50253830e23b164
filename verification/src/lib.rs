//! Plainnote core: verified note-taking logic.
use vstd::prelude::*;

pub mod ids;
pub mod index;
pub mod integrity;
pub mod audio;
pub mod commands;
pub mod framing;
pub mod frontmatter;
pub mod graph;
pub mod links;
pub mod manifest;
pub mod order;
pub mod query;
pub mod reconcile;
pub mod reminders;
pub mod scheduler;
pub mod stt;
pub mod tags;
pub mod text;
pub mod vault;
pub mod watcher;

verus! {
}
