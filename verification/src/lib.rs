//! ISO Schematron, verified: schemas are parsed from XML, and documents are
//! evaluated against them, with contracts that say exactly what comes out.
//!
//! [`parse`] reads a schema; [`grammar`] defines which schema an XML tree
//! stands for. [`parse_with_resolver`] expands inclusions first, as
//! [`inclusion`] defines. [`evaluate`] reports the checks of a schema that
//! fire on a [`Document`]; [`semantics`] defines which those are.
//!
//! [`schema_laws`], [`inclusion_laws`] and [`report_laws`] prove what these
//! definitions are for: that a document is accepted with a schema exactly
//! where it declares that schema, that an expansion replaces every inclusion
//! in its place, and that the reports of a schema are those of the checks that
//! fire, each once and in order.
//!
//! [`parsing_laws`], [`insertion_laws`], [`evaluation_laws`], [`text_laws`] and
//! [`error_laws`] prove what else follows from them: that references in an
//! accepted schema resolve, that prose changes nothing, that the first matching
//! rule of a pattern wins, that phases select patterns, and the like.

pub mod context;
pub mod document;
pub mod engine;
pub mod error;
pub mod error_laws;
pub mod evaluation_laws;
pub mod grammar;
pub mod inclusion;
pub mod inclusion_laws;
pub mod insertion_laws;
pub mod parser;
pub mod parsing_laws;
pub mod report_laws;
pub mod resolver;
pub mod schema;
pub mod schema_laws;
pub mod semantics;
pub mod text;
pub mod text_laws;
pub mod xml;
pub mod xpath;

pub use context::{path_of_context, split_top_level_union};
pub use document::{Document, DocumentNode, DocumentNodeKind, Handle, NodeName};
pub use engine::{Report, SchematronEvalError, evaluate, evaluate_with_phase};
pub use error::{ParseError, Position};
pub use inclusion::{included_fragment, parse_with_resolver};
pub use parser::{parse, parse_document};
pub use resolver::{ResolveError, SchemaResolver, SchemaSource};
pub use schema::{
    Check, CheckKind, Diagnostic, LetBinding, LetValue, MessagePart, NamespaceBinding, Pattern,
    Phase, Property, Rule, Schema,
};
pub use xml::{XmlDocument, XmlNode};
pub use xpath::{QualifiedName, XPathEvalError, XPathParseError};
