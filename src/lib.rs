//! Identifier hygiene: gives every distinct binding of a scoped program a
//! textually unique name, keeps author-written names where nothing collides,
//! and clears the hygiene contexts afterwards.
//!
//! The pass runs in three steps: conflict analysis builds the whole rename
//! queue from the unchanged program (`Program::build_queue`), the queue is
//! applied to every occurrence (`rename`), and every hygiene context is
//! reset (`strip_contexts`).
pub mod naming;
pub mod tree;
pub mod analyze;
pub mod rename;
pub mod hygiene;
pub mod laws;

pub use hygiene::{hygiene, hygiene_with_config, strip_contexts, Hygiene};
pub use naming::{HygieneRenamer, MangleRenamer, Renamer};
pub use rename::rename;
pub use tree::{Config, Ident, Mark, Program, Scope};
