//! Query values for deep parts with a simple dotted path syntax, without
//! serializing them: a value announces its own shape, piece by piece, and the
//! traversal engine decides at each container which child, if any, lies on
//! the path, so that unrelated branches are never looked into.
//!
//! `diver` holds the engine and the proof that its decisions reach what the
//! path designates; `economy` proves that it is told nothing of the branches
//! off the path; `sizer` counts the immediate children of a value; `path`
//! and `index` read paths and index tokens; `template` fills `{path}`
//! placeholders; `extract` holds the outcome of the public queries and the
//! laws that they obey.
pub mod diver;
pub mod economy;
pub mod extract;
pub mod index;
pub mod path;
pub mod shape;
pub mod sizer;
pub mod template;

pub use diver::{Diver, Flow, Verdict, Visit};
pub use extract::{count_text, sizes_root, verdict_text, IqFormat};
pub use path::{split_path, IqPath};
pub use shape::Leaf;
pub use sizer::Sizer;
pub use template::Template;
