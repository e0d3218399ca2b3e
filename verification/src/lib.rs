//! Serialises a compiler's abstract syntax tree as a nested XML document.
//!
//! The tree arrives flat: one visit per descendant of the root, in pre-order,
//! each naming the node and its direct parent. From that sequence the library
//! rebuilds the nesting with a stack of open ancestors and hands matched
//! open and close events to an XML writer.

pub mod decimal;
pub mod error;
pub mod libclang;
pub mod nesting;
pub mod node;
pub mod option;
pub mod serializer;
pub mod stack;
pub mod tree;
pub mod writer;

pub use error::AstXmlError;
pub use node::{AstNode, SourceLocation, TypeInfo, XmlAttribute};
pub use option::{input_kind, AstXmlOption, InputKind};
pub use serializer::{
    is_well_formed_traversal, parse_translation_unit, process_astxml, Session, Visit,
    VisitDirective,
};
pub use writer::XmlSink;
