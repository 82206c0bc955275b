pub mod engine;
pub mod frontmatter;
pub mod pipeline;
pub mod store;

pub use engine::{Config, ReadError, Shtola, SourceFile, IR};
pub use frontmatter::lexer;
pub use im::HashMap;
pub use store::{merge, ShFile};
pub use ware::Ware;
pub use yaml_rust::Yaml;
