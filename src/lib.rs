pub mod access;
pub mod laws;
pub mod parent;
pub mod parser;
pub mod render;
pub mod round_trip;
pub mod text;
pub mod tree;

pub use parent::ConfParent;
pub use tree::{ConfItem, ConfSection, Confindent, SectionModel};
