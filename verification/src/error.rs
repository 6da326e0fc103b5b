//! Errors of schema parsing, and positions in the source XML.

use vstd::prelude::*;

use crate::text::decimal_text;

verus! {

/// A 1-based row/column position in the source XML.
#[derive(Clone, Copy, Debug, PartialEq, Eq)]
pub struct Position {
    pub row: u32,
    pub col: u32,
}

impl Position {
    /// The text `row:col`.
    pub open spec fn spec_text(self) -> Seq<char> {
        crate::text::decimal(self.row as nat) + ":"@ + crate::text::decimal(self.col as nat)
    }

    /// The text `row:col`.
    pub fn to_string(&self) -> (result: String)
        ensures
            result@ == self.spec_text(),
    {
        let mut result = decimal_text(self.row as u64);
        result.push_str(":");
        let col = decimal_text(self.col as u64);
        result.push_str(col.as_str());
        result
    }
}

/// An error encountered while parsing a Schematron schema.
#[derive(Clone, Debug, PartialEq, Eq)]
#[allow(inconsistent_fields)]
pub enum ParseError {
    /// The input is not well-formed XML.
    InvalidXml(String),
    /// The root element is not `<schema>` in the Schematron namespace.
    WrongRootNamespace { found: Option<String>, position: Position },
    /// The schema contains no concrete `<pattern>`.
    NoPatterns,
    /// A required attribute is missing on an element.
    MissingAttribute { element: &'static str, attribute: &'static str, position: Position },
    /// `<pattern is-a="...">` referenced a pattern id with no matching
    /// `<pattern abstract="true" id="...">` in the schema.
    UnknownAbstractPattern { pattern: String, position: Position },
    /// `<extends rule="...">` referenced a rule id with no matching
    /// `<rule id="...">` in the same pattern.
    UnknownRuleReference { rule: String, position: Position },
    /// `<extends>` formed a cycle: a rule extending itself, directly or
    /// through others.
    CyclicRuleExtends { rule: String, position: Position },
    /// A Schematron element appeared as a direct child of a container that
    /// does not admit it: a misspelt one (such as `<asert>`), or one that is
    /// not supported there (such as `<include>`). Elements of other namespaces
    /// are never affected.
    UnexpectedElement { element: String, position: Position },
    /// Two elements of the schema declared the same `id`.
    DuplicateId { element: &'static str, id: String, position: Position },
    /// `<active pattern="...">` referenced an id that no concrete pattern
    /// has.
    UnknownActivePattern { pattern: String, position: Position },
    /// `assert|report/@diagnostics` referenced an id that no diagnostic has.
    UnknownDiagnosticReference { id: String, position: Position },
    /// `schema/@queryBinding` named a query language other than XPath 1.0.
    UnsupportedQueryBinding { binding: String, position: Position },
    /// An `<include href="...">` was already being resolved further up the
    /// same chain of inclusions.
    CyclicInclude { href: String, position: Position },
    /// The [`crate::SchemaResolver`] failed on an `<include href="...">`;
    /// `message` is its [`crate::ResolveError`], rendered.
    UnresolvableInclude { href: String, message: String, position: Position },
    /// An `<include href="...">` resolved to a root element outside the
    /// Schematron namespace, or to a whole `<schema>`.
    InvalidInclude { href: String, reason: &'static str, position: Position },
}

/// The view of [`ParseError`].
#[verifier::ext_equal]
pub enum ParseErrorView {
    InvalidXml(Seq<char>),
    WrongRootNamespace { found: Option<Seq<char>>, position: Position },
    NoPatterns,
    MissingAttribute { element: Seq<char>, attribute: Seq<char>, position: Position },
    UnknownAbstractPattern { pattern: Seq<char>, position: Position },
    UnknownRuleReference { rule: Seq<char>, position: Position },
    CyclicRuleExtends { rule: Seq<char>, position: Position },
    UnexpectedElement { element: Seq<char>, position: Position },
    DuplicateId { element: Seq<char>, id: Seq<char>, position: Position },
    UnknownActivePattern { pattern: Seq<char>, position: Position },
    UnknownDiagnosticReference { id: Seq<char>, position: Position },
    UnsupportedQueryBinding { binding: Seq<char>, position: Position },
    CyclicInclude { href: Seq<char>, position: Position },
    UnresolvableInclude { href: Seq<char>, message: Seq<char>, position: Position },
    InvalidInclude { href: Seq<char>, reason: Seq<char>, position: Position },
}

impl DeepView for ParseError {
    type V = ParseErrorView;

    open spec fn deep_view(&self) -> ParseErrorView {
        match *self {
            ParseError::InvalidXml(message) => ParseErrorView::InvalidXml(message@),
            ParseError::WrongRootNamespace { found, position } => (
            ParseErrorView::WrongRootNamespace { found: found.deep_view(), position }),
            ParseError::NoPatterns => ParseErrorView::NoPatterns,
            ParseError::MissingAttribute { element, attribute, position } => (
            ParseErrorView::MissingAttribute { element: element@, attribute: attribute@, position }
            ),
            ParseError::UnknownAbstractPattern { pattern, position } => (
            ParseErrorView::UnknownAbstractPattern { pattern: pattern@, position }),
            ParseError::UnknownRuleReference { rule, position } => (
            ParseErrorView::UnknownRuleReference { rule: rule@, position }),
            ParseError::CyclicRuleExtends { rule, position } => (
            ParseErrorView::CyclicRuleExtends { rule: rule@, position }),
            ParseError::UnexpectedElement { element, position } => (
            ParseErrorView::UnexpectedElement { element: element@, position }),
            ParseError::DuplicateId { element, id, position } => (
            ParseErrorView::DuplicateId { element: element@, id: id@, position }),
            ParseError::UnknownActivePattern { pattern, position } => (
            ParseErrorView::UnknownActivePattern { pattern: pattern@, position }),
            ParseError::UnknownDiagnosticReference { id, position } => (
            ParseErrorView::UnknownDiagnosticReference { id: id@, position }),
            ParseError::UnsupportedQueryBinding { binding, position } => (
            ParseErrorView::UnsupportedQueryBinding { binding: binding@, position }),
            ParseError::CyclicInclude { href, position } => (
            ParseErrorView::CyclicInclude { href: href@, position }),
            ParseError::UnresolvableInclude { href, message, position } => (
            ParseErrorView::UnresolvableInclude { href: href@, message: message@, position }),
            ParseError::InvalidInclude { href, reason, position } => (
            ParseErrorView::InvalidInclude { href: href@, reason: reason@, position }),
        }
    }
}

/// The view of the outcome of a parsing step.
pub open spec fn outcome<T: DeepView>(result: Result<T, ParseError>) -> Result<
    T::V,
    ParseErrorView,
> {
    match result {
        Ok(value) => Ok(value.deep_view()),
        Err(error) => Err(error.deep_view()),
    }
}

/// The concatenation of `parts`.
pub open spec fn joined(parts: Seq<Seq<char>>) -> Seq<char>
    decreases parts.len(),
{
    if parts.len() == 0 {
        seq![]
    } else {
        joined(parts.drop_last()) + parts.last()
    }
}

/// The views of `pieces`.
pub open spec fn views(pieces: Seq<&str>) -> Seq<Seq<char>> {
    Seq::new(pieces.len(), |i: int| pieces[i]@)
}

/// The concatenation of `pieces`.
pub(crate) fn join(pieces: Vec<&str>) -> (result: String)
    ensures
        result@ == joined(views(pieces@)),
{
    let mut result = String::new();
    let mut i: usize = 0;
    while i < pieces.len()
        invariant
            i <= pieces@.len(),
            result@ == joined(views(pieces@).take(i as int)),
        decreases pieces@.len() - i,
    {
        result.push_str(pieces[i]);
        i += 1;
        assert(views(pieces@).take(i as int).drop_last() == views(pieces@).take(i - 1));
    }
    assert(views(pieces@).take(i as int) == views(pieces@));
    result
}

impl ParseErrorView {
    /// Where in the source XML the error lies, if it has a place.
    pub open spec fn spec_position(self) -> Option<Position> {
        match self {
            ParseErrorView::InvalidXml(_) => None,
            ParseErrorView::NoPatterns => None,
            ParseErrorView::WrongRootNamespace { position, .. } => Some(position),
            ParseErrorView::MissingAttribute { position, .. } => Some(position),
            ParseErrorView::UnknownAbstractPattern { position, .. } => Some(position),
            ParseErrorView::UnknownRuleReference { position, .. } => Some(position),
            ParseErrorView::CyclicRuleExtends { position, .. } => Some(position),
            ParseErrorView::UnexpectedElement { position, .. } => Some(position),
            ParseErrorView::DuplicateId { position, .. } => Some(position),
            ParseErrorView::UnknownActivePattern { position, .. } => Some(position),
            ParseErrorView::UnknownDiagnosticReference { position, .. } => Some(position),
            ParseErrorView::UnsupportedQueryBinding { position, .. } => Some(position),
            ParseErrorView::CyclicInclude { position, .. } => Some(position),
            ParseErrorView::UnresolvableInclude { position, .. } => Some(position),
            ParseErrorView::InvalidInclude { position, .. } => Some(position),
        }
    }

    /// The human-readable description of an error, as pieces to be joined.
    pub open spec fn pieces(self) -> Seq<Seq<char>> {
        match self {
            ParseErrorView::InvalidXml(message) => seq!["invalid XML: "@, message],
            ParseErrorView::WrongRootNamespace { found, position } => seq![
                "schema root must be in the Schematron namespace `"@,
                crate::grammar::schematron_namespace(),
                "`, found `"@,
                (match found {
                    Some(namespace) => namespace,
                    None => "(none)"@,
                }),
                "` at "@,
                position.spec_text(),
            ],
            ParseErrorView::NoPatterns => seq!["schema must contain at least one <pattern>"@],
            ParseErrorView::MissingAttribute { element, attribute, position } => seq![
                "<"@,
                element,
                "> is missing required attribute `"@,
                attribute,
                "` at "@,
                position.spec_text(),
            ],
            ParseErrorView::UnknownAbstractPattern { pattern, position } => seq![
                "is-a references unknown abstract pattern `"@,
                pattern,
                "` at "@,
                position.spec_text(),
            ],
            ParseErrorView::UnknownRuleReference { rule, position } => seq![
                "extends references unknown rule `"@,
                rule,
                "` (not found in the same pattern) at "@,
                position.spec_text(),
            ],
            ParseErrorView::CyclicRuleExtends { rule, position } => seq![
                "cyclic extends involving rule `"@,
                rule,
                "` at "@,
                position.spec_text(),
            ],
            ParseErrorView::UnexpectedElement { element, position } => seq![
                "unexpected <"@,
                element,
                "> at "@,
                position.spec_text(),
                " (unknown, or not supported here — see README.md)"@,
            ],
            ParseErrorView::DuplicateId { element, id, position } => seq![
                "duplicate "@,
                element,
                " id `"@,
                id,
                "` at "@,
                position.spec_text(),
                " (already declared earlier in the schema)"@,
            ],
            ParseErrorView::UnknownActivePattern { pattern, position } => seq![
                "active references unknown pattern `"@,
                pattern,
                "` at "@,
                position.spec_text(),
            ],
            ParseErrorView::UnknownDiagnosticReference { id, position } => seq![
                "diagnostics references unknown diagnostic `"@,
                id,
                "` at "@,
                position.spec_text(),
            ],
            ParseErrorView::UnsupportedQueryBinding { binding, position } => seq![
                "schema/@queryBinding `"@,
                binding,
                "` at "@,
                position.spec_text(),
                " is not equivalent to XPath 1.0 (only `xslt`/`xpath`, or an absent queryBinding, are accepted — see README.md)"@,
            ],
            ParseErrorView::CyclicInclude { href, position } => seq![
                "cyclic include involving `"@,
                href,
                "` at "@,
                position.spec_text(),
            ],
            ParseErrorView::UnresolvableInclude { href, message, position } => seq![
                "could not resolve <include href=\""@,
                href,
                "\"> at "@,
                position.spec_text(),
                ": "@,
                message,
            ],
            ParseErrorView::InvalidInclude { href, reason, position } => seq![
                "<include href=\""@,
                href,
                "\"> at "@,
                position.spec_text(),
                " is invalid: "@,
                reason,
            ],
        }
    }
}

impl ParseError {
    /// The human-readable description of this error.
    pub fn to_string(&self) -> (result: String)
        ensures
            result@ == joined(self.deep_view().pieces()),
    {
        let position = match self.position() {
            Some(position) => position.to_string(),
            None => String::new(),
        };
        let at = position.as_str();
        let pieces: Vec<&str> = match self {
            ParseError::InvalidXml(message) => vec!["invalid XML: ", message.as_str()],
            ParseError::WrongRootNamespace { found, .. } => {
                let found = match found {
                    Some(namespace) => namespace.as_str(),
                    None => "(none)",
                };
                vec![
                    "schema root must be in the Schematron namespace `",
                    "http://purl.oclc.org/dsdl/schematron",
                    "`, found `",
                    found,
                    "` at ",
                    at,
                ]
            },
            ParseError::NoPatterns => vec!["schema must contain at least one <pattern>"],
            ParseError::MissingAttribute { element, attribute, .. } => vec![
                "<",
                element,
                "> is missing required attribute `",
                attribute,
                "` at ",
                at,
            ],
            ParseError::UnknownAbstractPattern { pattern, .. } => vec![
                "is-a references unknown abstract pattern `",
                pattern.as_str(),
                "` at ",
                at,
            ],
            ParseError::UnknownRuleReference { rule, .. } => vec![
                "extends references unknown rule `",
                rule.as_str(),
                "` (not found in the same pattern) at ",
                at,
            ],
            ParseError::CyclicRuleExtends { rule, .. } => vec![
                "cyclic extends involving rule `",
                rule.as_str(),
                "` at ",
                at,
            ],
            ParseError::UnexpectedElement { element, .. } => vec![
                "unexpected <",
                element.as_str(),
                "> at ",
                at,
                " (unknown, or not supported here — see README.md)",
            ],
            ParseError::DuplicateId { element, id, .. } => vec![
                "duplicate ",
                element,
                " id `",
                id.as_str(),
                "` at ",
                at,
                " (already declared earlier in the schema)",
            ],
            ParseError::UnknownActivePattern { pattern, .. } => vec![
                "active references unknown pattern `",
                pattern.as_str(),
                "` at ",
                at,
            ],
            ParseError::UnknownDiagnosticReference { id, .. } => vec![
                "diagnostics references unknown diagnostic `",
                id.as_str(),
                "` at ",
                at,
            ],
            ParseError::UnsupportedQueryBinding { binding, .. } => vec![
                "schema/@queryBinding `",
                binding.as_str(),
                "` at ",
                at,
                " is not equivalent to XPath 1.0 (only `xslt`/`xpath`, or an absent queryBinding, are accepted — see README.md)",
            ],
            ParseError::CyclicInclude { href, .. } => vec![
                "cyclic include involving `",
                href.as_str(),
                "` at ",
                at,
            ],
            ParseError::UnresolvableInclude { href, message, .. } => vec![
                "could not resolve <include href=\"",
                href.as_str(),
                "\"> at ",
                at,
                ": ",
                message.as_str(),
            ],
            ParseError::InvalidInclude { href, reason, .. } => vec![
                "<include href=\"",
                href.as_str(),
                "\"> at ",
                at,
                " is invalid: ",
                reason,
            ],
        };
        assert(views(pieces@) == self.deep_view().pieces());
        join(pieces)
    }

    /// Where in the source XML the error lies, if it has a place.
    fn position(&self) -> (result: Option<Position>)
        ensures
            result == self.deep_view().spec_position(),
    {
        match self {
            ParseError::InvalidXml(_) => None,
            ParseError::NoPatterns => None,
            ParseError::WrongRootNamespace { position, .. } => Some(*position),
            ParseError::MissingAttribute { position, .. } => Some(*position),
            ParseError::UnknownAbstractPattern { position, .. } => Some(*position),
            ParseError::UnknownRuleReference { position, .. } => Some(*position),
            ParseError::CyclicRuleExtends { position, .. } => Some(*position),
            ParseError::UnexpectedElement { position, .. } => Some(*position),
            ParseError::DuplicateId { position, .. } => Some(*position),
            ParseError::UnknownActivePattern { position, .. } => Some(*position),
            ParseError::UnknownDiagnosticReference { position, .. } => Some(*position),
            ParseError::UnsupportedQueryBinding { position, .. } => Some(*position),
            ParseError::CyclicInclude { position, .. } => Some(*position),
            ParseError::UnresolvableInclude { position, .. } => Some(*position),
            ParseError::InvalidInclude { position, .. } => Some(*position),
        }
    }
}

} // verus!
