//! The human-readable descriptions of errors.

use schematron_engine::{
    ParseError, Position, QualifiedName, ResolveError, SchemaSource, SchematronEvalError,
    XPathEvalError, XPathParseError,
};

fn position() -> Position {
    Position { row: 12, col: 3 }
}

#[test]
fn positions_are_written_row_first() {
    assert_eq!(position().to_string(), "12:3");
    assert_eq!(Position { row: 4294967295, col: 0 }.to_string(), "4294967295:0");
}

#[test]
fn parse_errors_are_described() {
    let cases = vec![
        (
            ParseError::InvalidXml("bad".to_owned()),
            "invalid XML: bad",
        ),
        (
            ParseError::WrongRootNamespace {
                found: Some("urn:x".to_owned()),
                position: position(),
            },
            "schema root must be in the Schematron namespace `http://purl.oclc.org/dsdl/schematron`, found `urn:x` at 12:3",
        ),
        (
            ParseError::WrongRootNamespace {
                found: None,
                position: position(),
            },
            "schema root must be in the Schematron namespace `http://purl.oclc.org/dsdl/schematron`, found `(none)` at 12:3",
        ),
        (
            ParseError::NoPatterns,
            "schema must contain at least one <pattern>",
        ),
        (
            ParseError::MissingAttribute {
                element: "ns",
                attribute: "uri",
                position: position(),
            },
            "<ns> is missing required attribute `uri` at 12:3",
        ),
        (
            ParseError::UnknownAbstractPattern {
                pattern: "p".to_owned(),
                position: position(),
            },
            "is-a references unknown abstract pattern `p` at 12:3",
        ),
        (
            ParseError::UnknownRuleReference {
                rule: "r".to_owned(),
                position: position(),
            },
            "extends references unknown rule `r` (not found in the same pattern) at 12:3",
        ),
        (
            ParseError::CyclicRuleExtends {
                rule: "r".to_owned(),
                position: position(),
            },
            "cyclic extends involving rule `r` at 12:3",
        ),
        (
            ParseError::UnexpectedElement {
                element: "asert".to_owned(),
                position: position(),
            },
            "unexpected <asert> at 12:3 (unknown, or not supported here — see README.md)",
        ),
        (
            ParseError::DuplicateId {
                element: "pattern",
                id: "i".to_owned(),
                position: position(),
            },
            "duplicate pattern id `i` at 12:3 (already declared earlier in the schema)",
        ),
        (
            ParseError::UnknownActivePattern {
                pattern: "p".to_owned(),
                position: position(),
            },
            "active references unknown pattern `p` at 12:3",
        ),
        (
            ParseError::UnknownDiagnosticReference {
                id: "d".to_owned(),
                position: position(),
            },
            "diagnostics references unknown diagnostic `d` at 12:3",
        ),
        (
            ParseError::UnsupportedQueryBinding {
                binding: "xslt2".to_owned(),
                position: position(),
            },
            "schema/@queryBinding `xslt2` at 12:3 is not equivalent to XPath 1.0 (only `xslt`/`xpath`, or an absent queryBinding, are accepted — see README.md)",
        ),
        (
            ParseError::CyclicInclude {
                href: "a.sch".to_owned(),
                position: position(),
            },
            "cyclic include involving `a.sch` at 12:3",
        ),
        (
            ParseError::UnresolvableInclude {
                href: "a.sch".to_owned(),
                message: "gone".to_owned(),
                position: position(),
            },
            "could not resolve <include href=\"a.sch\"> at 12:3: gone",
        ),
        (
            ParseError::InvalidInclude {
                href: "a.sch".to_owned(),
                reason: "why",
                position: position(),
            },
            "<include href=\"a.sch\"> at 12:3 is invalid: why",
        ),
    ];
    for (error, description) in cases {
        assert_eq!(error.to_string(), description);
    }
}

#[test]
fn evaluation_errors_are_described() {
    let name = |prefix: Option<&str>| QualifiedName {
        prefix: prefix.map(str::to_owned),
        local: "f".to_owned(),
    };
    let cases = vec![
        (
            SchematronEvalError::Parse(XPathParseError {
                position: 4,
                message: "empty expression".to_owned(),
            }),
            "XPath parse error: parse error at byte 4: empty expression",
        ),
        (
            SchematronEvalError::Eval(XPathEvalError::UnknownFunction(name(Some("p")))),
            "XPath evaluation error: unknown function: p:f",
        ),
        (
            SchematronEvalError::Eval(XPathEvalError::UnboundVariable(name(None))),
            "XPath evaluation error: unbound variable: $f",
        ),
        (
            SchematronEvalError::Eval(XPathEvalError::ArgumentCount {
                function: "not",
                expected: 1,
                got: 12,
            }),
            "XPath evaluation error: not() expects 1 argument(s), got 12",
        ),
        (
            SchematronEvalError::Eval(XPathEvalError::ExpectedNodeSet {
                context: "union operand",
            }),
            "XPath evaluation error: expected a node-set in union operand",
        ),
        (
            SchematronEvalError::ContextNotNodeSet {
                context: "'a\n\"b\"'".to_owned(),
            },
            "rule context \"'a\\n\\\"b\\\"'\" did not evaluate to a node-set",
        ),
        (
            SchematronEvalError::UnknownPhase {
                phase: "none".to_owned(),
            },
            "no <phase id=\"none\"> in this schema",
        ),
    ];
    for (error, description) in cases {
        assert_eq!(error.to_string(), description);
    }
}

#[test]
fn a_resolve_error_is_its_message() {
    assert_eq!(ResolveError::new("not found").to_string(), "not found");
    assert_eq!(ResolveError::new(String::from("gone")).to_string(), "gone");
}

#[test]
fn a_source_holds_its_text_and_base_uri() {
    let source = SchemaSource::new("<p/>", String::from("file:///a/"));
    assert_eq!(source.text(), "<p/>");
    assert_eq!(source.base_uri(), "file:///a/");
}
