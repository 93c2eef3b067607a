//! Inference of stack effects.

pub mod infer;
pub mod item;
pub mod laws;
pub mod report;
pub mod solved;
pub mod sound;
pub mod subst;
pub mod types;
pub mod unify;

pub use infer::{Analyzer, CompileError, State};
pub use item::{Item, ItemKind};
pub use report::report_error;
pub use types::{Signature, Type};
