//! A small reader for a line-oriented markup: a document is either a flat
//! sequence of `- item` lines or a flat set of `key: value` lines. Scalars are
//! classified into null, booleans, integers, floats and strings, and the result
//! is a tree of [`nodes::Node`] values.

pub mod destinations;
pub mod nodes;
pub mod parser;
pub mod scalar;
pub mod sources;
mod strings;

pub use destinations::IDestination;
pub use nodes::{make_node, Dict, Node, NodeView, Numeric, NumericView};
pub use parser::{parse, parse_scalar, ParseError};
pub use sources::ISource;
