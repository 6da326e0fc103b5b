//! Parsing of schemas.

use std::collections::BTreeMap;

use schematron_engine::{
    CheckKind, LetBinding, LetValue, MessagePart, NamespaceBinding, ParseError, Position,
    Property, ResolveError, SchemaResolver, SchemaSource, parse, parse_with_resolver,
};

#[test]
fn minimal_valid_schema() {
    let schema = parse(
        r#"<schema xmlns="http://purl.oclc.org/dsdl/schematron">
                <pattern>
                    <rule context="/root">
                        <assert test="foo">message</assert>
                    </rule>
                </pattern>
            </schema>"#,
    )
    .unwrap();

    assert_eq!(schema.ns, vec![]);
    assert_eq!(schema.patterns.len(), 1);
    let pattern = &schema.patterns[0];
    assert_eq!(pattern.id, None);
    assert_eq!(pattern.rules.len(), 1);
    let rule = &pattern.rules[0];
    assert_eq!(rule.context, "/root");
    assert_eq!(rule.checks.len(), 1);
    let check = &rule.checks[0];
    assert_eq!(check.kind, CheckKind::Assert);
    assert_eq!(check.test, "foo");
    assert_eq!(check.message, vec![MessagePart::Text("message".to_owned())]);
}

#[test]
fn multiple_patterns_rules_and_checks() {
    let schema = parse(
        r#"<schema xmlns="http://purl.oclc.org/dsdl/schematron">
                <pattern id="p1">
                    <rule context="/a">
                        <assert test="t1">m1</assert>
                        <assert test="t2">m2</assert>
                    </rule>
                    <rule context="/b">
                        <assert test="t3">m3</assert>
                    </rule>
                </pattern>
                <pattern id="p2">
                    <rule context="/c">
                        <assert test="t4">m4</assert>
                    </rule>
                </pattern>
            </schema>"#,
    )
    .unwrap();

    assert_eq!(schema.patterns.len(), 2);
    assert_eq!(schema.patterns[0].id.as_deref(), Some("p1"));
    assert_eq!(schema.patterns[0].rules.len(), 2);
    assert_eq!(schema.patterns[0].rules[0].checks.len(), 2);
    assert_eq!(schema.patterns[0].rules[1].checks.len(), 1);
    assert_eq!(schema.patterns[1].id.as_deref(), Some("p2"));
    assert_eq!(schema.patterns[1].rules.len(), 1);
}

#[test]
fn report_alongside_assert() {
    let schema = parse(
        r#"<schema xmlns="http://purl.oclc.org/dsdl/schematron">
                <pattern>
                    <rule context="/root">
                        <assert test="a-test">assert message</assert>
                        <report test="r-test">report message</report>
                    </rule>
                </pattern>
            </schema>"#,
    )
    .unwrap();

    let checks = &schema.patterns[0].rules[0].checks;
    assert_eq!(checks.len(), 2);
    assert_eq!(checks[0].kind, CheckKind::Assert);
    assert_eq!(checks[0].test, "a-test");
    assert_eq!(checks[1].kind, CheckKind::Report);
    assert_eq!(checks[1].test, "r-test");
}

#[test]
fn ns_bindings_are_captured() {
    let schema = parse(
        r#"<schema xmlns="http://purl.oclc.org/dsdl/schematron">
                <ns prefix="ex" uri="http://example.com/ns"/>
                <ns prefix="other" uri="http://example.com/other"/>
                <pattern>
                    <rule context="/root">
                        <assert test="foo">message</assert>
                    </rule>
                </pattern>
            </schema>"#,
    )
    .unwrap();

    assert_eq!(
        schema.ns,
        vec![
            NamespaceBinding {
                prefix: "ex".to_owned(),
                uri: "http://example.com/ns".to_owned(),
            },
            NamespaceBinding {
                prefix: "other".to_owned(),
                uri: "http://example.com/other".to_owned(),
            },
        ]
    );
}

#[test]
fn ns_missing_prefix_is_an_error() {
    let error = parse(
        r#"<schema xmlns="http://purl.oclc.org/dsdl/schematron">
                <ns uri="http://example.com/ns"/>
                <pattern>
                    <rule context="/root">
                        <assert test="foo">message</assert>
                    </rule>
                </pattern>
            </schema>"#,
    )
    .unwrap_err();

    assert_eq!(
        error,
        ParseError::MissingAttribute {
            element: "ns",
            attribute: "prefix",
            position: Position { row: 2, col: 17 },
        }
    );
}

#[test]
fn ns_missing_uri_is_an_error() {
    let error = parse(
        r#"<schema xmlns="http://purl.oclc.org/dsdl/schematron">
                <ns prefix="ex"/>
                <pattern>
                    <rule context="/root">
                        <assert test="foo">message</assert>
                    </rule>
                </pattern>
            </schema>"#,
    )
    .unwrap_err();

    assert_eq!(
        error,
        ParseError::MissingAttribute {
            element: "ns",
            attribute: "uri",
            position: Position { row: 2, col: 17 },
        }
    );
}

#[test]
fn id_and_role_present() {
    let schema = parse(
        r#"<schema xmlns="http://purl.oclc.org/dsdl/schematron">
                <pattern>
                    <rule context="/root">
                        <assert test="foo" id="my-id" role="warning">message</assert>
                    </rule>
                </pattern>
            </schema>"#,
    )
    .unwrap();

    let check = &schema.patterns[0].rules[0].checks[0];
    assert_eq!(check.id.as_deref(), Some("my-id"));
    assert_eq!(check.role.as_deref(), Some("warning"));
}

#[test]
fn id_and_role_absent() {
    let schema = parse(
        r#"<schema xmlns="http://purl.oclc.org/dsdl/schematron">
                <pattern>
                    <rule context="/root">
                        <assert test="foo">message</assert>
                    </rule>
                </pattern>
            </schema>"#,
    )
    .unwrap();

    let check = &schema.patterns[0].rules[0].checks[0];
    assert_eq!(check.id, None);
    assert_eq!(check.role, None);
}

#[test]
fn message_text_is_captured_untrimmed() {
    let schema = parse(
        "<schema xmlns=\"http://purl.oclc.org/dsdl/schematron\">\
            <pattern>\
                <rule context=\"/root\">\
                    <assert test=\"foo\">\n  first   second  \n</assert>\
                </rule>\
            </pattern>\
        </schema>",
    )
    .unwrap();

    let check = &schema.patterns[0].rules[0].checks[0];
    assert_eq!(
        check.message,
        vec![MessagePart::Text("\n  first   second  \n".to_owned())]
    );
}

#[test]
fn message_text_without_surrounding_whitespace_is_unchanged() {
    let schema = parse(
        r#"<schema xmlns="http://purl.oclc.org/dsdl/schematron">
                <pattern>
                    <rule context="/root">
                        <assert test="foo">exact</assert>
                    </rule>
                </pattern>
            </schema>"#,
    )
    .unwrap();

    let check = &schema.patterns[0].rules[0].checks[0];
    assert_eq!(check.message, vec![MessagePart::Text("exact".to_owned())]);
}

#[test]
fn value_of_and_wrapper_element_text_are_captured() {
    let schema = parse(
        r#"<schema xmlns="http://purl.oclc.org/dsdl/schematron">
                <pattern>
                    <rule context="/root">
                        <assert test="foo">before <value-of select="@x"/> after <emph>wrapped</emph></assert>
                    </rule>
                </pattern>
            </schema>"#,
    )
    .unwrap();

    let check = &schema.patterns[0].rules[0].checks[0];
    assert_eq!(
        check.message,
        vec![
            MessagePart::Text("before ".to_owned()),
            MessagePart::ValueOf("@x".to_owned()),
            MessagePart::Text(" after ".to_owned()),
            MessagePart::Text("wrapped".to_owned()),
        ]
    );
}

#[test]
fn name_element_is_captured_as_a_message_part() {
    let schema = parse(
        r#"<schema xmlns="http://purl.oclc.org/dsdl/schematron">
                <pattern>
                    <rule context="/root">
                        <assert test="foo">Element <name/> or <name path="../other"/>.</assert>
                    </rule>
                </pattern>
            </schema>"#,
    )
    .unwrap();

    let check = &schema.patterns[0].rules[0].checks[0];
    assert_eq!(
        check.message,
        vec![
            MessagePart::Text("Element ".to_owned()),
            MessagePart::Name(None),
            MessagePart::Text(" or ".to_owned()),
            MessagePart::Name(Some("../other".to_owned())),
            MessagePart::Text(".".to_owned()),
        ]
    );
}

#[test]
fn value_of_missing_select_is_an_error() {
    let error = parse(
        r#"<schema xmlns="http://purl.oclc.org/dsdl/schematron">
                <pattern>
                    <rule context="/root">
                        <assert test="foo"><value-of/></assert>
                    </rule>
                </pattern>
            </schema>"#,
    )
    .unwrap_err();

    assert_eq!(
        error,
        ParseError::MissingAttribute {
            element: "value-of",
            attribute: "select",
            position: Position { row: 4, col: 44 },
        }
    );
}

#[test]
fn missing_context_is_an_error() {
    let error = parse(
        r#"<schema xmlns="http://purl.oclc.org/dsdl/schematron">
                <pattern>
                    <rule>
                        <assert test="foo">message</assert>
                    </rule>
                </pattern>
            </schema>"#,
    )
    .unwrap_err();

    assert_eq!(
        error,
        ParseError::MissingAttribute {
            element: "rule",
            attribute: "context",
            position: Position { row: 3, col: 21 },
        }
    );
}

#[test]
fn missing_test_is_an_error() {
    let error = parse(
        r#"<schema xmlns="http://purl.oclc.org/dsdl/schematron">
                <pattern>
                    <rule context="/root">
                        <assert>message</assert>
                    </rule>
                </pattern>
            </schema>"#,
    )
    .unwrap_err();

    assert_eq!(
        error,
        ParseError::MissingAttribute {
            element: "assert",
            attribute: "test",
            position: Position { row: 4, col: 25 },
        }
    );
}

#[test]
fn no_pattern_is_an_error() {
    let error = parse(r#"<schema xmlns="http://purl.oclc.org/dsdl/schematron"/>"#).unwrap_err();

    assert_eq!(error, ParseError::NoPatterns);
}

#[test]
fn wrong_root_namespace_is_an_error() {
    let error = parse(r#"<schema xmlns="http://example.com/not-schematron"/>"#).unwrap_err();

    assert_eq!(
        error,
        ParseError::WrongRootNamespace {
            found: Some("http://example.com/not-schematron".to_owned()),
            position: Position { row: 1, col: 1 },
        }
    );
}

#[test]
fn diagnostics_are_captured() {
    let schema = parse(
        r#"<schema xmlns="http://purl.oclc.org/dsdl/schematron">
                <diagnostics>
                    <diagnostic id="d1" role="warning">before <value-of select="."/> after</diagnostic>
                    <diagnostic id="d2">second</diagnostic>
                </diagnostics>
                <pattern>
                    <rule context="/root">
                        <assert test="foo" diagnostics="d1 d2">message</assert>
                    </rule>
                </pattern>
            </schema>"#,
    )
    .unwrap();

    assert_eq!(schema.diagnostics.len(), 2);
    assert_eq!(schema.diagnostics[0].id, "d1");
    assert_eq!(schema.diagnostics[0].role.as_deref(), Some("warning"));
    assert_eq!(
        schema.diagnostics[0].message,
        vec![
            MessagePart::Text("before ".to_owned()),
            MessagePart::ValueOf(".".to_owned()),
            MessagePart::Text(" after".to_owned()),
        ]
    );

    let check = &schema.patterns[0].rules[0].checks[0];
    assert_eq!(check.diagnostics, vec!["d1".to_owned(), "d2".to_owned()]);
}

#[test]
fn diagnostics_unknown_reference_is_an_error() {
    let error = parse(
        r#"<schema xmlns="http://purl.oclc.org/dsdl/schematron">
                <diagnostics>
                    <diagnostic id="d1">known</diagnostic>
                </diagnostics>
                <pattern>
                    <rule context="/root">
                        <assert test="foo" diagnostics="d1 missing">message</assert>
                    </rule>
                </pattern>
            </schema>"#,
    )
    .unwrap_err();

    assert!(matches!(
        error,
        ParseError::UnknownDiagnosticReference { id, .. } if id == "missing"
    ));
}

#[test]
fn duplicate_diagnostic_id_is_an_error() {
    let error = parse(
        r#"<schema xmlns="http://purl.oclc.org/dsdl/schematron">
                <diagnostics>
                    <diagnostic id="d1">first</diagnostic>
                    <diagnostic id="d1">second</diagnostic>
                </diagnostics>
                <pattern>
                    <rule context="/root">
                        <assert test="foo" diagnostics="d1">message</assert>
                    </rule>
                </pattern>
            </schema>"#,
    )
    .unwrap_err();

    assert!(matches!(
        error,
        ParseError::DuplicateId { element: "diagnostic", id, .. } if id == "d1"
    ));
}

#[test]
fn check_without_diagnostics_attribute_has_an_empty_list() {
    let schema = parse(
        r#"<schema xmlns="http://purl.oclc.org/dsdl/schematron">
                <pattern>
                    <rule context="/root">
                        <assert test="foo">message</assert>
                    </rule>
                </pattern>
            </schema>"#,
    )
    .unwrap();

    assert_eq!(
        schema.patterns[0].rules[0].checks[0].diagnostics,
        Vec::<String>::new()
    );
    assert_eq!(schema.diagnostics, vec![]);
}

#[test]
fn diagnostic_missing_id_is_an_error() {
    let error = parse(
        r#"<schema xmlns="http://purl.oclc.org/dsdl/schematron">
                <diagnostics>
                    <diagnostic>text</diagnostic>
                </diagnostics>
                <pattern>
                    <rule context="/root">
                        <assert test="foo">message</assert>
                    </rule>
                </pattern>
            </schema>"#,
    )
    .unwrap_err();

    assert_eq!(
        error,
        ParseError::MissingAttribute {
            element: "diagnostic",
            attribute: "id",
            position: Position { row: 3, col: 21 },
        }
    );
}

#[test]
fn properties_are_captured() {
    let schema = parse(
        r#"<schema xmlns="http://purl.oclc.org/dsdl/schematron">
                <properties>
                    <property id="p1" role="severity" scheme="acme">before <value-of select="."/> after</property>
                    <property id="p2">second</property>
                </properties>
                <pattern>
                    <rule context="/root">
                        <assert test="foo">message</assert>
                    </rule>
                </pattern>
            </schema>"#,
    )
    .unwrap();

    assert_eq!(schema.properties.len(), 2);
    assert_eq!(schema.properties[0].id, "p1");
    assert_eq!(schema.properties[0].role.as_deref(), Some("severity"));
    assert_eq!(schema.properties[0].scheme.as_deref(), Some("acme"));
    assert_eq!(
        schema.properties[0].message,
        vec![
            MessagePart::Text("before ".to_owned()),
            MessagePart::ValueOf(".".to_owned()),
            MessagePart::Text(" after".to_owned()),
        ]
    );
    assert_eq!(schema.properties[1].id, "p2");
    assert_eq!(schema.properties[1].role, None);
    assert_eq!(schema.properties[1].scheme, None);
}

#[test]
fn schema_without_properties_has_an_empty_properties_list() {
    let schema = parse(
        r#"<schema xmlns="http://purl.oclc.org/dsdl/schematron">
                <pattern>
                    <rule context="/root">
                        <assert test="foo">message</assert>
                    </rule>
                </pattern>
            </schema>"#,
    )
    .unwrap();

    assert_eq!(schema.properties, vec![]);
}

#[test]
fn duplicate_property_id_is_an_error() {
    let error = parse(
        r#"<schema xmlns="http://purl.oclc.org/dsdl/schematron">
                <properties>
                    <property id="p1">first</property>
                    <property id="p1">second</property>
                </properties>
                <pattern>
                    <rule context="/root">
                        <assert test="foo">message</assert>
                    </rule>
                </pattern>
            </schema>"#,
    )
    .unwrap_err();

    assert!(matches!(
        error,
        ParseError::DuplicateId { element: "property", id, .. } if id == "p1"
    ));
}

#[test]
fn property_missing_id_is_an_error() {
    let error = parse(
        r#"<schema xmlns="http://purl.oclc.org/dsdl/schematron">
                <properties>
                    <property>text</property>
                </properties>
                <pattern>
                    <rule context="/root">
                        <assert test="foo">message</assert>
                    </rule>
                </pattern>
            </schema>"#,
    )
    .unwrap_err();

    assert_eq!(
        error,
        ParseError::MissingAttribute {
            element: "property",
            attribute: "id",
            position: Position { row: 3, col: 21 },
        }
    );
}

#[test]
fn unexpected_element_inside_properties_is_an_error() {
    let error = parse(
        r#"<schema xmlns="http://purl.oclc.org/dsdl/schematron">
                <properties>
                    <bogus/>
                </properties>
                <pattern>
                    <rule context="/root">
                        <assert test="foo">message</assert>
                    </rule>
                </pattern>
            </schema>"#,
    )
    .unwrap_err();

    assert!(matches!(
        error,
        ParseError::UnexpectedElement { element, .. } if element == "bogus"
    ));
}

#[test]
fn query_binding_xslt_and_xpath_are_accepted_case_insensitively() {
    for binding in ["xslt", "XSLT", "xpath", "XPath"] {
        let schema = parse(&format!(
            r#"<schema xmlns="http://purl.oclc.org/dsdl/schematron" queryBinding="{binding}">
                    <pattern>
                        <rule context="/root">
                            <assert test="foo">message</assert>
                        </rule>
                    </pattern>
                </schema>"#,
        ))
        .unwrap();

        assert_eq!(schema.query_binding.as_deref(), Some(binding));
    }
}

#[test]
fn schema_without_query_binding_has_none() {
    let schema = parse(
        r#"<schema xmlns="http://purl.oclc.org/dsdl/schematron">
                <pattern>
                    <rule context="/root">
                        <assert test="foo">message</assert>
                    </rule>
                </pattern>
            </schema>"#,
    )
    .unwrap();

    assert_eq!(schema.query_binding, None);
}

#[test]
fn unsupported_query_binding_is_an_error() {
    let error = parse(
        r#"<schema xmlns="http://purl.oclc.org/dsdl/schematron" queryBinding="xslt2">
                <pattern>
                    <rule context="/root">
                        <assert test="foo">message</assert>
                    </rule>
                </pattern>
            </schema>"#,
    )
    .unwrap_err();

    assert!(matches!(
        error,
        ParseError::UnsupportedQueryBinding { binding, .. } if binding == "xslt2"
    ));
}

#[test]
fn let_bindings_are_captured_at_schema_pattern_and_rule_level() {
    let schema = parse(
        r#"<schema xmlns="http://purl.oclc.org/dsdl/schematron">
                <let name="a" value="1"/>
                <pattern>
                    <let name="b" value="2"/>
                    <rule context="/root">
                        <let name="c" value="3"/>
                        <assert test="foo">message</assert>
                    </rule>
                </pattern>
            </schema>"#,
    )
    .unwrap();

    assert_eq!(
        schema.lets,
        vec![LetBinding {
            name: "a".to_owned(),
            value: LetValue::Expr("1".to_owned()),
        }]
    );
    assert_eq!(
        schema.patterns[0].lets,
        vec![LetBinding {
            name: "b".to_owned(),
            value: LetValue::Expr("2".to_owned()),
        }]
    );
    assert_eq!(
        schema.patterns[0].rules[0].lets,
        vec![LetBinding {
            name: "c".to_owned(),
            value: LetValue::Expr("3".to_owned()),
        }]
    );
}

#[test]
fn let_missing_value_is_an_error() {
    let error = parse(
        r#"<schema xmlns="http://purl.oclc.org/dsdl/schematron">
                <let name="a"/>
                <pattern>
                    <rule context="/root">
                        <assert test="foo">message</assert>
                    </rule>
                </pattern>
            </schema>"#,
    )
    .unwrap_err();

    assert_eq!(
        error,
        ParseError::MissingAttribute {
            element: "let",
            attribute: "value",
            position: Position { row: 2, col: 17 },
        }
    );
}

#[test]
fn let_with_literal_xml_content_is_captured_as_its_string_value() {
    let schema = parse(
        r#"<schema xmlns="http://purl.oclc.org/dsdl/schematron">
                <let name="x"><foo>hello <bar>world</bar></foo></let>
                <pattern>
                    <rule context="/root">
                        <assert test="foo">message</assert>
                    </rule>
                </pattern>
            </schema>"#,
    )
    .unwrap();

    assert_eq!(
        schema.lets,
        vec![LetBinding {
            name: "x".to_owned(),
            value: LetValue::Literal("hello world".to_owned()),
        }]
    );
}

#[test]
fn let_with_only_whitespace_text_is_still_a_missing_value_error() {
    let error = parse(
        "<schema xmlns=\"http://purl.oclc.org/dsdl/schematron\">\
            <let name=\"a\">   </let>\
            <pattern>\
                <rule context=\"/root\">\
                    <assert test=\"foo\">message</assert>\
                </rule>\
            </pattern>\
        </schema>",
    )
    .unwrap_err();

    assert!(matches!(
        error,
        ParseError::MissingAttribute {
            element: "let",
            attribute: "value",
            ..
        }
    ));
}

#[test]
fn default_phase_and_phases_are_captured() {
    let schema = parse(
        r#"<schema xmlns="http://purl.oclc.org/dsdl/schematron" defaultPhase="p1">
                <phase id="p1">
                    <let name="x" value="1"/>
                    <active pattern="a"/>
                    <active pattern="b"/>
                </phase>
                <phase id="p2">
                    <active pattern="b"/>
                </phase>
                <pattern id="a">
                    <rule context="/root">
                        <assert test="foo">message</assert>
                    </rule>
                </pattern>
                <pattern id="b">
                    <rule context="/root">
                        <assert test="foo">message</assert>
                    </rule>
                </pattern>
            </schema>"#,
    )
    .unwrap();

    assert_eq!(schema.default_phase.as_deref(), Some("p1"));
    assert_eq!(schema.phases.len(), 2);
    assert_eq!(schema.phases[0].id, "p1");
    assert_eq!(
        schema.phases[0].lets,
        vec![LetBinding {
            name: "x".to_owned(),
            value: LetValue::Expr("1".to_owned()),
        }]
    );
    assert_eq!(
        schema.phases[0].active,
        vec!["a".to_owned(), "b".to_owned()]
    );
    assert_eq!(schema.phases[1].id, "p2");
    assert_eq!(schema.phases[1].active, vec!["b".to_owned()]);
}

#[test]
fn schema_without_phase_has_no_default_phase_and_no_phases() {
    let schema = parse(
        r#"<schema xmlns="http://purl.oclc.org/dsdl/schematron">
                <pattern>
                    <rule context="/root">
                        <assert test="foo">message</assert>
                    </rule>
                </pattern>
            </schema>"#,
    )
    .unwrap();

    assert_eq!(schema.default_phase, None);
    assert_eq!(schema.phases, vec![]);
}

#[test]
fn phase_missing_id_is_an_error() {
    let error = parse(
        r#"<schema xmlns="http://purl.oclc.org/dsdl/schematron">
                <phase>
                    <active pattern="a"/>
                </phase>
                <pattern id="a">
                    <rule context="/root">
                        <assert test="foo">message</assert>
                    </rule>
                </pattern>
            </schema>"#,
    )
    .unwrap_err();

    assert_eq!(
        error,
        ParseError::MissingAttribute {
            element: "phase",
            attribute: "id",
            position: Position { row: 2, col: 17 },
        }
    );
}

#[test]
fn active_missing_pattern_is_an_error() {
    let error = parse(
        r#"<schema xmlns="http://purl.oclc.org/dsdl/schematron">
                <phase id="p1">
                    <active/>
                </phase>
                <pattern id="a">
                    <rule context="/root">
                        <assert test="foo">message</assert>
                    </rule>
                </pattern>
            </schema>"#,
    )
    .unwrap_err();

    assert_eq!(
        error,
        ParseError::MissingAttribute {
            element: "active",
            attribute: "pattern",
            position: Position { row: 3, col: 21 },
        }
    );
}

#[test]
fn active_unknown_pattern_is_an_error() {
    let error = parse(
        r#"<schema xmlns="http://purl.oclc.org/dsdl/schematron">
                <phase id="p1">
                    <active pattern="missing"/>
                </phase>
                <pattern id="a">
                    <rule context="/root">
                        <assert test="foo">message</assert>
                    </rule>
                </pattern>
            </schema>"#,
    )
    .unwrap_err();

    assert!(matches!(
        error,
        ParseError::UnknownActivePattern { pattern, .. } if pattern == "missing"
    ));
}

#[test]
fn active_referencing_an_abstract_pattern_id_is_an_error() {
    let error = parse(
        r#"<schema xmlns="http://purl.oclc.org/dsdl/schematron">
                <phase id="p1">
                    <active pattern="tpl"/>
                </phase>
                <pattern abstract="true" id="tpl">
                    <rule context="/root">
                        <assert test="foo">message</assert>
                    </rule>
                </pattern>
                <pattern id="a">
                    <rule context="/root">
                        <assert test="foo">message</assert>
                    </rule>
                </pattern>
            </schema>"#,
    )
    .unwrap_err();

    assert!(matches!(
        error,
        ParseError::UnknownActivePattern { pattern, .. } if pattern == "tpl"
    ));
}

#[test]
fn duplicate_pattern_id_is_an_error() {
    let error = parse(
        r#"<schema xmlns="http://purl.oclc.org/dsdl/schematron">
                <pattern id="a">
                    <rule context="/root">
                        <assert test="foo">message</assert>
                    </rule>
                </pattern>
                <pattern id="a">
                    <rule context="/root">
                        <assert test="foo">message</assert>
                    </rule>
                </pattern>
            </schema>"#,
    )
    .unwrap_err();

    assert!(matches!(
        error,
        ParseError::DuplicateId { element: "pattern", id, .. } if id == "a"
    ));
}

#[test]
fn cross_element_type_id_collision_is_an_error() {
    let error = parse(
        r#"<schema xmlns="http://purl.oclc.org/dsdl/schematron">
                <phase id="shared">
                    <active pattern="a"/>
                </phase>
                <pattern id="a">
                    <rule id="shared" context="/root">
                        <assert test="foo">message</assert>
                    </rule>
                </pattern>
            </schema>"#,
    )
    .unwrap_err();

    assert!(matches!(
        error,
        ParseError::DuplicateId { element: "rule", id, .. } if id == "shared"
    ));
}

#[test]
fn duplicate_abstract_pattern_id_is_an_error() {
    let error = parse(
        r#"<schema xmlns="http://purl.oclc.org/dsdl/schematron">
                <pattern abstract="true" id="tpl">
                    <rule context="/root">
                        <assert test="foo">message</assert>
                    </rule>
                </pattern>
                <pattern abstract="true" id="tpl">
                    <rule context="/root">
                        <assert test="foo">message</assert>
                    </rule>
                </pattern>
                <pattern is-a="tpl" id="concrete">
                    <param name="x" value="1"/>
                </pattern>
            </schema>"#,
    )
    .unwrap_err();

    assert!(matches!(
        error,
        ParseError::DuplicateId { element: "pattern", id, .. } if id == "tpl"
    ));
}

#[test]
fn unexpected_element_at_schema_level_is_an_error() {
    let error = parse(
        r#"<schema xmlns="http://purl.oclc.org/dsdl/schematron">
                <include href="other.sch"/>
                <pattern>
                    <rule context="/root">
                        <assert test="foo">message</assert>
                    </rule>
                </pattern>
            </schema>"#,
    )
    .unwrap_err();

    assert!(matches!(
        error,
        ParseError::UnexpectedElement { element, .. } if element == "include"
    ));
}

#[test]
fn unexpected_element_inside_rule_is_an_error() {
    let error = parse(
        r#"<schema xmlns="http://purl.oclc.org/dsdl/schematron">
                <pattern>
                    <rule context="/root">
                        <asert test="foo">typo'd element name</asert>
                    </rule>
                </pattern>
            </schema>"#,
    )
    .unwrap_err();

    assert!(matches!(
        error,
        ParseError::UnexpectedElement { element, .. } if element == "asert"
    ));
}

#[test]
fn title_and_p_are_accepted_but_ignored() {
    let schema = parse(
        r#"<schema xmlns="http://purl.oclc.org/dsdl/schematron">
                <title>My Schema</title>
                <p>Some documentation.</p>
                <pattern>
                    <rule context="/root">
                        <assert test="foo">message</assert>
                    </rule>
                </pattern>
            </schema>"#,
    )
    .unwrap();

    assert_eq!(schema.patterns.len(), 1);
}

#[test]
fn extends_inlines_checks_from_another_rule_in_the_same_pattern() {
    let schema = parse(
        r#"<schema xmlns="http://purl.oclc.org/dsdl/schematron">
                <pattern>
                    <rule abstract="true" id="base">
                        <assert test="false()">BASE-CHECK</assert>
                    </rule>
                    <rule context="/root">
                        <extends rule="base"/>
                        <assert test="false()">OWN-CHECK</assert>
                    </rule>
                </pattern>
            </schema>"#,
    )
    .unwrap();

    assert_eq!(schema.patterns[0].rules.len(), 1);
    let checks = &schema.patterns[0].rules[0].checks;
    assert_eq!(checks.len(), 2);
    assert_eq!(
        checks[0].message,
        vec![MessagePart::Text("BASE-CHECK".to_owned())]
    );
    assert_eq!(
        checks[1].message,
        vec![MessagePart::Text("OWN-CHECK".to_owned())]
    );
}

#[test]
fn extends_is_transitive() {
    let schema = parse(
        r#"<schema xmlns="http://purl.oclc.org/dsdl/schematron">
                <pattern>
                    <rule abstract="true" id="a">
                        <assert test="false()">A</assert>
                    </rule>
                    <rule abstract="true" id="b">
                        <extends rule="a"/>
                        <assert test="false()">B</assert>
                    </rule>
                    <rule context="/root">
                        <extends rule="b"/>
                    </rule>
                </pattern>
            </schema>"#,
    )
    .unwrap();

    let checks = &schema.patterns[0].rules[0].checks;
    assert_eq!(
        checks.iter().map(|c| c.message.clone()).collect::<Vec<_>>(),
        vec![
            vec![MessagePart::Text("A".to_owned())],
            vec![MessagePart::Text("B".to_owned())],
        ]
    );
}

#[test]
fn extends_inlines_lets_from_another_rule_in_the_same_pattern() {
    let schema = parse(
        r#"<schema xmlns="http://purl.oclc.org/dsdl/schematron">
                <pattern>
                    <rule abstract="true" id="base">
                        <let name="x" value="'from-base'"/>
                    </rule>
                    <rule context="/root">
                        <extends rule="base"/>
                        <let name="y" value="'own'"/>
                        <assert test="false()">CHECK</assert>
                    </rule>
                </pattern>
            </schema>"#,
    )
    .unwrap();

    let lets = &schema.patterns[0].rules[0].lets;
    assert_eq!(
        lets,
        &vec![
            LetBinding {
                name: "x".to_owned(),
                value: LetValue::Expr("'from-base'".to_owned()),
            },
            LetBinding {
                name: "y".to_owned(),
                value: LetValue::Expr("'own'".to_owned()),
            },
        ]
    );
}

#[test]
fn extends_inlines_lets_transitively() {
    let schema = parse(
        r#"<schema xmlns="http://purl.oclc.org/dsdl/schematron">
                <pattern>
                    <rule abstract="true" id="a">
                        <let name="x" value="'A'"/>
                    </rule>
                    <rule abstract="true" id="b">
                        <extends rule="a"/>
                        <let name="y" value="'B'"/>
                    </rule>
                    <rule context="/root">
                        <extends rule="b"/>
                    </rule>
                </pattern>
            </schema>"#,
    )
    .unwrap();

    let lets = &schema.patterns[0].rules[0].lets;
    assert_eq!(
        lets.iter().map(|l| l.name.as_str()).collect::<Vec<_>>(),
        vec!["x", "y"]
    );
}

#[test]
fn own_let_shadows_an_earlier_inherited_let_of_the_same_name() {
    let schema = parse(
        r#"<schema xmlns="http://purl.oclc.org/dsdl/schematron">
                <pattern>
                    <rule abstract="true" id="base">
                        <let name="x" value="'from-base'"/>
                    </rule>
                    <rule context="/root">
                        <extends rule="base"/>
                        <let name="x" value="'own'"/>
                        <assert test="false()">CHECK</assert>
                    </rule>
                </pattern>
            </schema>"#,
    )
    .unwrap();

    let lets = &schema.patterns[0].rules[0].lets;
    assert_eq!(
        lets,
        &vec![
            LetBinding {
                name: "x".to_owned(),
                value: LetValue::Expr("'from-base'".to_owned()),
            },
            LetBinding {
                name: "x".to_owned(),
                value: LetValue::Expr("'own'".to_owned()),
            },
        ]
    );
}

#[test]
fn cyclic_extends_is_an_error() {
    let error = parse(
        r#"<schema xmlns="http://purl.oclc.org/dsdl/schematron">
                <pattern>
                    <rule abstract="true" id="a">
                        <extends rule="b"/>
                    </rule>
                    <rule abstract="true" id="b">
                        <extends rule="a"/>
                    </rule>
                    <rule context="/root">
                        <extends rule="a"/>
                    </rule>
                </pattern>
            </schema>"#,
    )
    .unwrap_err();

    assert!(matches!(
        error,
        ParseError::CyclicRuleExtends { rule, .. } if rule == "a"
    ));
}

#[test]
fn extends_unknown_rule_is_an_error() {
    let error = parse(
        r#"<schema xmlns="http://purl.oclc.org/dsdl/schematron">
                <pattern>
                    <rule context="/root">
                        <extends rule="missing"/>
                    </rule>
                </pattern>
            </schema>"#,
    )
    .unwrap_err();

    assert!(matches!(
        error,
        ParseError::UnknownRuleReference { rule, .. } if rule == "missing"
    ));
}

#[test]
fn is_a_instantiates_abstract_pattern_with_param_substitution() {
    let schema = parse(
        r#"<schema xmlns="http://purl.oclc.org/dsdl/schematron">
                <pattern abstract="true" id="tpl">
                    <rule context="$el">
                        <assert test="$el = 1">msg</assert>
                    </rule>
                </pattern>
                <pattern is-a="tpl" id="concrete">
                    <param name="el" value="item"/>
                </pattern>
            </schema>"#,
    )
    .unwrap();

    assert_eq!(schema.patterns.len(), 1);
    assert_eq!(schema.patterns[0].id.as_deref(), Some("concrete"));
    assert_eq!(schema.patterns[0].rules[0].context, "item");
    assert_eq!(schema.patterns[0].rules[0].checks[0].test, "item = 1");
}

#[test]
fn two_is_a_uses_of_the_same_abstract_pattern_are_independent() {
    let schema = parse(
        r#"<schema xmlns="http://purl.oclc.org/dsdl/schematron">
                <pattern abstract="true" id="tpl">
                    <rule context="$el">
                        <assert test="true()">m</assert>
                    </rule>
                </pattern>
                <pattern is-a="tpl" id="p1">
                    <param name="el" value="a"/>
                </pattern>
                <pattern is-a="tpl" id="p2">
                    <param name="el" value="b"/>
                </pattern>
            </schema>"#,
    )
    .unwrap();

    assert_eq!(schema.patterns.len(), 2);
    assert_eq!(schema.patterns[0].id.as_deref(), Some("p1"));
    assert_eq!(schema.patterns[0].rules[0].context, "a");
    assert_eq!(schema.patterns[1].id.as_deref(), Some("p2"));
    assert_eq!(schema.patterns[1].rules[0].context, "b");
}

#[test]
fn abstract_pattern_never_appears_in_schema_patterns_even_if_unused() {
    let schema = parse(
        r#"<schema xmlns="http://purl.oclc.org/dsdl/schematron">
                <pattern abstract="true" id="tpl">
                    <rule context="$el">
                        <assert test="true()">m</assert>
                    </rule>
                </pattern>
                <pattern id="concrete">
                    <rule context="/root">
                        <assert test="foo">message</assert>
                    </rule>
                </pattern>
            </schema>"#,
    )
    .unwrap();

    assert_eq!(schema.patterns.len(), 1);
    assert_eq!(schema.patterns[0].id.as_deref(), Some("concrete"));
}

#[test]
fn let_value_is_not_substituted_in_an_instantiated_pattern() {
    let schema = parse(
        r#"<schema xmlns="http://purl.oclc.org/dsdl/schematron">
                <pattern abstract="true" id="tpl">
                    <rule context="$el">
                        <let name="x" value="$el"/>
                        <assert test="true()">m</assert>
                    </rule>
                </pattern>
                <pattern is-a="tpl" id="concrete">
                    <param name="el" value="item"/>
                </pattern>
            </schema>"#,
    )
    .unwrap();

    let rule = &schema.patterns[0].rules[0];
    assert_eq!(rule.context, "item");
    assert_eq!(rule.lets[0].value, LetValue::Expr("$el".to_owned()));
}

#[test]
fn is_a_unknown_abstract_pattern_is_an_error() {
    let error = parse(
        r#"<schema xmlns="http://purl.oclc.org/dsdl/schematron">
                <pattern is-a="missing" id="concrete">
                    <param name="el" value="item"/>
                </pattern>
            </schema>"#,
    )
    .unwrap_err();

    assert!(matches!(
        error,
        ParseError::UnknownAbstractPattern { pattern, .. } if pattern == "missing"
    ));
}



struct MapResolver(BTreeMap<&'static str, &'static str>);

impl SchemaResolver for MapResolver {
    fn resolve(&self, href: &str, _base_uri: &str) -> Result<SchemaSource, ResolveError> {
        self.0
            .get(href)
            .map(|text| SchemaSource::new(*text, href))
            .ok_or_else(|| ResolveError::new(format!("no such resource: {href}")))
    }
}

#[test]
fn include_at_schema_level_splices_a_pattern_fragment() {
    let resolver = MapResolver(BTreeMap::from([(
        "pattern.sch",
        r#"<pattern xmlns="http://purl.oclc.org/dsdl/schematron" id="included">
                <rule context="/root">
                    <assert test="foo">from included pattern</assert>
                </rule>
            </pattern>"#,
    )]));

    let schema = parse_with_resolver(
        r#"<schema xmlns="http://purl.oclc.org/dsdl/schematron">
                <include href="pattern.sch"/>
            </schema>"#,
        "root.sch",
        &resolver,
    )
    .unwrap();

    assert_eq!(schema.patterns.len(), 1);
    assert_eq!(schema.patterns[0].id.as_deref(), Some("included"));
    assert_eq!(schema.patterns[0].rules[0].context, "/root");
}

#[test]
fn include_at_rule_level_splices_an_assert_fragment() {
    let resolver = MapResolver(BTreeMap::from([(
        "assert.sch",
        r#"<assert xmlns="http://purl.oclc.org/dsdl/schematron" test="foo">from included assert</assert>"#,
    )]));

    let schema = parse_with_resolver(
        r#"<schema xmlns="http://purl.oclc.org/dsdl/schematron">
                <pattern>
                    <rule context="/root">
                        <include href="assert.sch"/>
                    </rule>
                </pattern>
            </schema>"#,
        "root.sch",
        &resolver,
    )
    .unwrap();

    assert_eq!(
        schema.patterns[0].rules[0].checks[0].message,
        vec![MessagePart::Text("from included assert".to_owned())]
    );
}

#[test]
fn include_resolves_transitively() {
    let resolver = MapResolver(BTreeMap::from([
        (
            "outer.sch",
            r#"<pattern xmlns="http://purl.oclc.org/dsdl/schematron" id="outer">
                    <include href="b.sch"/>
                </pattern>"#,
        ),
        (
            "b.sch",
            r#"<rule xmlns="http://purl.oclc.org/dsdl/schematron" context="/root">
                    <assert test="foo">transitively included</assert>
                </rule>"#,
        ),
    ]));

    let schema = parse_with_resolver(
        r#"<schema xmlns="http://purl.oclc.org/dsdl/schematron">
                <include href="outer.sch"/>
            </schema>"#,
        "root.sch",
        &resolver,
    )
    .unwrap();

    assert_eq!(schema.patterns[0].id.as_deref(), Some("outer"));
    assert_eq!(
        schema.patterns[0].rules[0].checks[0].message,
        vec![MessagePart::Text("transitively included".to_owned())]
    );
}

#[test]
fn cyclic_include_is_an_error() {
    let resolver = MapResolver(BTreeMap::from([(
        "a.sch",
        r#"<pattern xmlns="http://purl.oclc.org/dsdl/schematron" id="a">
                <include href="a.sch"/>
            </pattern>"#,
    )]));

    let error = parse_with_resolver(
        r#"<schema xmlns="http://purl.oclc.org/dsdl/schematron">
                <include href="a.sch"/>
            </schema>"#,
        "root.sch",
        &resolver,
    )
    .unwrap_err();

    assert!(matches!(error, ParseError::CyclicInclude { href, .. } if href == "a.sch"));
}

#[test]
fn unresolvable_include_surfaces_the_resolver_error() {
    let resolver = MapResolver(BTreeMap::new());

    let error = parse_with_resolver(
        r#"<schema xmlns="http://purl.oclc.org/dsdl/schematron">
                <include href="missing.sch"/>
            </schema>"#,
        "root.sch",
        &resolver,
    )
    .unwrap_err();

    assert!(matches!(
        error,
        ParseError::UnresolvableInclude { href, .. } if href == "missing.sch"
    ));
}

#[test]
fn including_a_whole_schema_is_an_error() {
    let resolver = MapResolver(BTreeMap::from([(
        "whole.sch",
        r#"<schema xmlns="http://purl.oclc.org/dsdl/schematron">
                <pattern>
                    <rule context="/root">
                        <assert test="foo">m</assert>
                    </rule>
                </pattern>
            </schema>"#,
    )]));

    let error = parse_with_resolver(
        r#"<schema xmlns="http://purl.oclc.org/dsdl/schematron">
                <include href="whole.sch"/>
            </schema>"#,
        "root.sch",
        &resolver,
    )
    .unwrap_err();

    assert!(matches!(
        error,
        ParseError::InvalidInclude { href, .. } if href == "whole.sch"
    ));
}

#[test]
fn including_a_non_schematron_root_is_an_error() {
    let resolver = MapResolver(BTreeMap::from([(
        "other.xml",
        r#"<foo xmlns="http://example.com/other"/>"#,
    )]));

    let error = parse_with_resolver(
        r#"<schema xmlns="http://purl.oclc.org/dsdl/schematron">
                <include href="other.xml"/>
            </schema>"#,
        "root.sch",
        &resolver,
    )
    .unwrap_err();

    assert!(matches!(
        error,
        ParseError::InvalidInclude { href, .. } if href == "other.xml"
    ));
}

#[test]
fn parse_with_resolver_missing_href_is_a_missing_attribute_error() {
    let resolver = MapResolver(BTreeMap::new());

    let error = parse_with_resolver(
        r#"<schema xmlns="http://purl.oclc.org/dsdl/schematron">
                <include/>
                <pattern>
                    <rule context="/root">
                        <assert test="foo">m</assert>
                    </rule>
                </pattern>
            </schema>"#,
        "root.sch",
        &resolver,
    )
    .unwrap_err();

    assert_eq!(
        error,
        ParseError::MissingAttribute {
            element: "include",
            attribute: "href",
            position: Position { row: 2, col: 17 },
        }
    );
}

fn wrapped(content: &str) -> String {
    format!(
        "<schema xmlns=\"http://purl.oclc.org/dsdl/schematron\" xmlns:x=\"urn:x\">{content}</schema>"
    )
}

#[test]
fn foreign_elements_are_allowed_in_every_container() {
    let schema = parse(&wrapped(
        "<x:a/><phase id='f'><x:a/><active pattern='p'/></phase>\
         <diagnostics><x:a/><diagnostic id='d'>m</diagnostic></diagnostics>\
         <properties><x:a/><property id='q'>m</property></properties>\
         <pattern id='p'><x:a/><rule context='c'><x:a/>\
         <assert test='t' diagnostics='d'>m <x:a>n</x:a></assert></rule></pattern>\
         <pattern abstract='true' id='t'><x:a/></pattern>\
         <pattern is-a='t' id='u'><x:a/></pattern>",
    ))
    .unwrap();
    assert_eq!(schema.patterns.len(), 2);
    assert_eq!(
        schema.patterns[0].rules[0].checks[0].message,
        vec![
            MessagePart::Text("m ".to_owned()),
            MessagePart::Text("n".to_owned()),
        ]
    );
}

#[test]
fn each_container_refuses_what_it_does_not_admit() {
    for (content, element) in [
        ("<rule context='c'/>", "rule"),
        ("<phase id='f'><pattern/></phase>", "pattern"),
        ("<diagnostics><p/></diagnostics>", "p"),
        ("<properties><diagnostic/></properties>", "diagnostic"),
        ("<pattern><assert test='t'/></pattern>", "assert"),
        ("<pattern><rule context='c'><rule context='d'/></rule></pattern>", "rule"),
        (
            "<pattern abstract='true' id='t'/><pattern is-a='t'><rule context='c'/></pattern>",
            "rule",
        ),
    ] {
        // A phase is looked at only in a schema that has a pattern.
        let result = parse(&wrapped(&format!("{content}<pattern/>")));
        match result {
            Err(ParseError::UnexpectedElement { element: found, .. }) => assert_eq!(found, element),
            other => panic!("{content}: {other:?}"),
        }
    }
}

#[test]
fn identifiers_are_compared_at_every_depth_and_across_elements() {
    let result = parse(&wrapped(
        "<pattern id='p'><rule context='c' id='r'><assert test='t' id='a'/></rule></pattern>\
         <x:a><report id='a' xmlns='http://purl.oclc.org/dsdl/schematron'/></x:a>",
    ));
    assert!(matches!(
        result,
        Err(ParseError::DuplicateId { element: "report", id, .. }) if id == "a"
    ));
    assert!(parse(&wrapped("<pattern id='p'/><x:pattern id='p'/><p id='p'/>")).is_ok());
}

#[test]
fn parameters_are_substituted_one_after_the_other() {
    let schema = parse(&wrapped(
        "<pattern abstract='true' id='t'><rule context='$a/$b'>\
         <assert test='$b = $ab'><value-of select='$a'/><name path='$a'/>$a</assert></rule></pattern>\
         <pattern is-a='t'><param name='a' value='$b'/><param name='b' value='c'/></pattern>",
    ))
    .unwrap();
    let rule = &schema.patterns[0].rules[0];
    assert_eq!(rule.context, "c/c");
    assert_eq!(rule.checks[0].test, "c = cb");
    assert_eq!(
        rule.checks[0].message,
        vec![
            MessagePart::ValueOf("c".to_owned()),
            MessagePart::Name(Some("c".to_owned())),
            MessagePart::Text("$a".to_owned()),
        ]
    );
}

#[test]
fn only_the_first_list_of_diagnostics_and_of_properties_is_read() {
    let schema = parse(&wrapped(
        "<diagnostics><diagnostic id='d1'/></diagnostics><diagnostics><diagnostic/></diagnostics>\
         <properties><property id='q1'/></properties><properties><property/></properties>\
         <pattern/>",
    ))
    .unwrap();
    assert_eq!(schema.diagnostics.len(), 1);
    assert_eq!(schema.properties.len(), 1);
}

#[test]
fn attributes_are_found_by_local_name() {
    let schema = parse(&wrapped("<pattern x:id='p'/>")).unwrap();
    assert_eq!(schema.patterns[0].id.as_deref(), Some("p"));
}

#[test]
fn concrete_patterns_and_rules_keep_their_order() {
    let schema = parse(&wrapped(
        "<pattern id='b'><rule context='1'/><rule abstract='true' id='r'/><rule context='2'/></pattern>\
         <pattern abstract='true' id='t'/><pattern id='a' abstract='false'/>",
    ))
    .unwrap();
    let ids: Vec<Option<&str>> = schema.patterns.iter().map(|p| p.id.as_deref()).collect();
    assert_eq!(ids, vec![Some("b"), Some("a")]);
    let contexts: Vec<&str> = schema.patterns[0]
        .rules
        .iter()
        .map(|rule| rule.context.as_str())
        .collect();
    assert_eq!(contexts, vec!["1", "2"]);
}

#[test]
fn an_abstract_pattern_must_have_an_identifier() {
    assert!(matches!(
        parse(&wrapped("<pattern/><pattern abstract='true'/>")),
        Err(ParseError::MissingAttribute { element: "pattern", attribute: "id", .. })
    ));
}

#[test]
fn a_rule_may_be_extended_twice_but_not_by_itself() {
    let twice = parse(&wrapped(
        "<pattern><rule abstract='true' id='r'><assert test='t'/></rule>\
         <rule context='c'><extends rule='r'/><extends rule='r'/></rule></pattern>",
    ))
    .unwrap();
    assert_eq!(twice.patterns[0].rules[0].checks.len(), 2);
    assert!(matches!(
        parse(&wrapped(
            "<pattern><rule context='c' id='r'><extends rule='r'/></rule></pattern>"
        )),
        Err(ParseError::CyclicRuleExtends { rule, .. }) if rule == "r"
    ));
    assert!(matches!(
        parse(&wrapped("<pattern><rule context='c'><extends href='r'/></rule></pattern>")),
        Err(ParseError::MissingAttribute { element: "extends", attribute: "rule", .. })
    ));
}

const RULE: &str = "<rule context='a'><assert test='b'>m</assert></rule>";

fn in_schema(content: &str) -> String {
    format!("<schema xmlns='http://purl.oclc.org/dsdl/schematron'>{content}</schema>")
}

/// The name of the element that is refused as unexpected.
fn unexpected(content: &str) -> String {
    match parse(&in_schema(content)) {
        Err(ParseError::UnexpectedElement { element, .. }) => element,
        other => panic!("{content}: {other:?}"),
    }
}

#[test]
fn a_root_element_other_than_schema_is_refused() {
    let xml = "<foo xmlns='http://purl.oclc.org/dsdl/schematron'><pattern><rule context='/root'>\
               <assert test='foo'>m</assert></rule></pattern></foo>";
    assert_eq!(
        parse(xml),
        Err(ParseError::WrongRootNamespace {
            found: Some("http://purl.oclc.org/dsdl/schematron".to_owned()),
            position: Position { row: 1, col: 1 },
        })
    );
}

#[test]
fn a_misspelt_element_in_an_abstract_rule_is_refused() {
    let xml = in_schema(
        "<pattern><rule abstract='true' id='b'><asert test='foo'>typo</asert></rule>\
         <rule context='/root'><extends rule='b'/></rule></pattern>",
    );
    assert_eq!(
        parse(&xml),
        Err(ParseError::UnexpectedElement {
            element: "asert".to_owned(),
            position: Position { row: 1, col: 92 },
        })
    );
    assert_eq!(
        unexpected(&format!(
            "<pattern><rule abstract='true' id='b'><asert test='foo'/></rule>{RULE}</pattern>"
        )),
        "asert"
    );
}

#[test]
fn an_abstract_pattern_is_held_to_its_grammar_used_or_not() {
    assert_eq!(
        unexpected(&format!(
            "<pattern abstract='true' id='t'><assert test='x'>m</assert></pattern>\
             <pattern>{RULE}</pattern>"
        )),
        "assert"
    );
    assert_eq!(
        unexpected(&format!(
            "<pattern abstract='true' id='t'><rule context='$x'><rule/></rule></pattern>\
             <pattern>{RULE}</pattern>"
        )),
        "rule"
    );
}

#[test]
fn a_misspelt_element_in_a_message_is_refused() {
    for content in [
        "<pattern><rule context='a'><assert test='b'>x <valueof select='c'/></assert></rule></pattern>",
        "<pattern><rule context='a'><report test='b'><emph><valueof/></emph></report></rule></pattern>",
        "<pattern><rule context='a'><report test='b'><x xmlns=''><valueof \
         xmlns='http://purl.oclc.org/dsdl/schematron'/></x></report></rule></pattern>",
    ] {
        assert_eq!(unexpected(content), "valueof");
    }
    let rest = format!("<pattern>{RULE}</pattern>");
    assert_eq!(
        unexpected(&format!(
            "{rest}<diagnostics><diagnostic id='d'><bold>x</bold></diagnostic></diagnostics>"
        )),
        "bold"
    );
    assert_eq!(
        unexpected(&format!(
            "{rest}<properties><property id='p'><p>x</p></property></properties>"
        )),
        "p"
    );
}

#[test]
fn a_misplaced_element_in_an_empty_element_is_refused() {
    let rest = format!("<pattern id='q'>{RULE}</pattern>");
    assert_eq!(
        unexpected(&format!("<ns prefix='x' uri='y'><asert/></ns>{rest}")),
        "asert"
    );
    assert_eq!(
        unexpected(&format!(
            "{rest}<phase id='f'><active pattern='q'><assert test='x'/></active></phase>"
        )),
        "assert"
    );
}

#[test]
fn wrappers_prose_and_literal_values_hold_what_they_like() {
    let schema = parse(&in_schema(
        "<title>t <dir>x</dir></title><p>a <emph>b</emph><any/></p>\
         <let name='v'><any>1 <other>2</other></any></let>\
         <pattern id='q'><rule context='a'><p><span/></p>\
         <assert test='b'>m <emph>e<value-of select='c'/></emph><dir>d</dir><span>s</span>\
         <name/><x xmlns='urn:x'>f</x></assert></rule></pattern>\
         <phase id='f'><active pattern='q'>see <emph>this</emph></active></phase>",
    ))
    .unwrap();
    assert_eq!(
        schema.lets,
        vec![LetBinding {
            name: "v".to_owned(),
            value: LetValue::Literal("1 2".to_owned()),
        }]
    );
    let text = |text: &str| MessagePart::Text(text.to_owned());
    assert_eq!(
        schema.patterns[0].rules[0].checks[0].message,
        vec![
            text("m "),
            text("e"),
            MessagePart::ValueOf("c".to_owned()),
            text("d"),
            text("s"),
            MessagePart::Name(None),
            text("f"),
        ]
    );
}

#[test]
fn another_error_comes_before_a_misplaced_element() {
    assert_eq!(
        parse(&in_schema(
            "<pattern><rule abstract='true' id='b'><asert/></rule><rule context='a'>\
             <extends rule='c'/></rule></pattern>"
        )),
        Err(ParseError::UnknownRuleReference {
            rule: "c".to_owned(),
            position: Position { row: 1, col: 125 },
        })
    );
}

#[test]
fn prose_and_foreign_elements_change_nothing_in_the_schema() {
    let plain = in_schema(
        "\n<phase id='f'><active pattern='q'/></phase>\n<pattern id='q'>\n\
         <rule context='a'><assert test='b'>m</assert></rule>\n</pattern>",
    );
    let expected = parse(&plain).unwrap();
    for extra in [
        "<title>prose</title>",
        "<p>prose</p>",
        "<x:note xmlns:x='urn:x' id='q'><x:inner/>text</x:note>",
    ] {
        for place in ["<phase id='f'>", "</phase>", "<pattern id='q'>", "</rule>"] {
            let (head, tail) = plain.split_once(place).unwrap();
            let xml = format!("{head}{place}{extra}{tail}");
            assert_eq!(parse(&xml), Ok(expected.clone()), "{xml}");
        }
    }
    assert_eq!(
        unexpected("<pattern><rule context='a'><title>prose</title></rule></pattern>"),
        "title"
    );
}

#[test]
fn the_first_repeated_identifier_is_the_one_refused() {
    assert_eq!(
        parse(&in_schema(
            "<pattern id='a'><rule id='b' context='x'><assert id='b' test='y'>m</assert>\
             <assert id='a' test='y'>m</assert></rule></pattern>"
        )),
        Err(ParseError::DuplicateId {
            element: "assert",
            id: "b".to_owned(),
            position: Position { row: 1, col: 95 },
        })
    );
}
