//! Evaluation of schemas against small documents.

use schematron_engine::{
    CheckKind, Document, DocumentNode, DocumentNodeKind, NodeName, Schema, SchematronEvalError,
    evaluate, evaluate_with_phase, parse,
};

fn root() -> DocumentNode {
    DocumentNode {
        kind: DocumentNodeKind::Root,
        parent: None,
        name: None,
        string_value: String::new(),
        is_id: false,
    }
}

fn element(parent: usize, namespace_uri: Option<&str>, local_name: &str) -> DocumentNode {
    DocumentNode {
        kind: DocumentNodeKind::Element,
        parent: Some(parent),
        name: Some(NodeName {
            namespace_uri: namespace_uri.map(str::to_owned),
            local_name: local_name.to_owned(),
        }),
        string_value: String::new(),
        is_id: false,
    }
}

/// A document with a root and, for each namespace and local name, one child
/// element of the root, in that order.
fn doc_with_root_children(children: &[(Option<&str>, &str)]) -> Document {
    let mut nodes = vec![root()];
    for (namespace_uri, local_name) in children {
        nodes.push(element(0, *namespace_uri, local_name));
    }
    Document::new(nodes).expect("the nodes form a document")
}

fn schema(sch_xml: &str) -> Schema {
    parse(sch_xml).expect("test schema must parse")
}

#[test]
fn assert_true_produces_no_report() {
    let doc = doc_with_root_children(&[(None, "item")]);
    let schema = schema(
        r#"<schema xmlns="http://purl.oclc.org/dsdl/schematron">
                <pattern>
                    <rule context="item">
                        <assert test="true()">should not fire</assert>
                    </rule>
                </pattern>
            </schema>"#,
    );

    let reports = evaluate(&schema, &doc).unwrap();
    assert_eq!(reports.len(), 0);
}

#[test]
fn assert_false_produces_one_report() {
    let doc = doc_with_root_children(&[(None, "item")]);
    let schema = schema(
        r#"<schema xmlns="http://purl.oclc.org/dsdl/schematron">
                <pattern id="p1">
                    <rule context="item">
                        <assert id="a1" role="error" test="false()">item is invalid</assert>
                    </rule>
                </pattern>
            </schema>"#,
    );

    let reports = evaluate(&schema, &doc).unwrap();
    assert_eq!(reports.len(), 1);
    let report = &reports[0];
    assert_eq!(report.pattern_id.as_deref(), Some("p1"));
    assert_eq!(report.check_id.as_deref(), Some("a1"));
    assert_eq!(report.role.as_deref(), Some("error"));
    assert_eq!(report.kind, CheckKind::Assert);
    assert_eq!(report.message, "item is invalid");
    assert_eq!(report.node, 1);
}

#[test]
fn report_true_fires() {
    let doc = doc_with_root_children(&[(None, "item")]);
    let schema = schema(
        r#"<schema xmlns="http://purl.oclc.org/dsdl/schematron">
                <pattern>
                    <rule context="item">
                        <report test="true()">observed item</report>
                    </rule>
                </pattern>
            </schema>"#,
    );

    let reports = evaluate(&schema, &doc).unwrap();
    assert_eq!(reports.len(), 1);
    assert_eq!(reports[0].kind, CheckKind::Report);
    assert_eq!(reports[0].message, "observed item");
}

#[test]
fn same_pattern_first_matching_rule_wins() {
    let doc = doc_with_root_children(&[(None, "item")]);
    let schema = schema(
        r#"<schema xmlns="http://purl.oclc.org/dsdl/schematron">
                <pattern>
                    <rule context="item">
                        <assert test="false()">RULE-ONE-FIRED</assert>
                    </rule>
                    <rule context="item">
                        <assert test="false()">RULE-TWO-FIRED</assert>
                    </rule>
                </pattern>
            </schema>"#,
    );

    let reports = evaluate(&schema, &doc).unwrap();
    let messages: Vec<&str> = reports.iter().map(|r| r.message.as_str()).collect();
    assert_eq!(messages, vec!["RULE-ONE-FIRED"]);
}

#[test]
fn independent_patterns_both_fire() {
    let doc = doc_with_root_children(&[(None, "item")]);
    let schema = schema(
        r#"<schema xmlns="http://purl.oclc.org/dsdl/schematron">
                <pattern>
                    <rule context="item">
                        <assert test="false()">PATTERN-ONE-FIRED</assert>
                    </rule>
                </pattern>
                <pattern>
                    <rule context="item">
                        <assert test="false()">PATTERN-TWO-FIRED</assert>
                    </rule>
                </pattern>
            </schema>"#,
    );

    let reports = evaluate(&schema, &doc).unwrap();
    let messages: Vec<&str> = reports.iter().map(|r| r.message.as_str()).collect();
    assert_eq!(messages, vec!["PATTERN-ONE-FIRED", "PATTERN-TWO-FIRED"]);
}

#[test]
fn namespace_binding_resolves_prefixed_context() {
    let doc = doc_with_root_children(&[(Some("urn:test"), "item")]);
    let schema = schema(
        r#"<schema xmlns="http://purl.oclc.org/dsdl/schematron">
                <ns prefix="t" uri="urn:test"/>
                <pattern>
                    <rule context="t:item">
                        <assert test="false()">NS-MATCH</assert>
                    </rule>
                </pattern>
            </schema>"#,
    );

    let reports = evaluate(&schema, &doc).unwrap();
    assert_eq!(reports.len(), 1);
    assert_eq!(reports[0].message, "NS-MATCH");
}

#[test]
fn invalid_test_expression_is_a_parse_error_not_a_panic() {
    let doc = doc_with_root_children(&[(None, "item")]);
    let schema = schema(
        r#"<schema xmlns="http://purl.oclc.org/dsdl/schematron">
                <pattern>
                    <rule context="item">
                        <assert test="((">broken</assert>
                    </rule>
                </pattern>
            </schema>"#,
    );

    let result = evaluate(&schema, &doc);
    assert!(matches!(result, Err(SchematronEvalError::Parse(_))));
}

#[test]
fn schema_level_let_is_visible_to_checks() {
    let doc = doc_with_root_children(&[(None, "item")]);
    let schema = schema(
        r#"<schema xmlns="http://purl.oclc.org/dsdl/schematron">
                <let name="x" value="'schema'"/>
                <pattern>
                    <rule context="item">
                        <report test="$x = 'schema'">SCHEMA-LET</report>
                    </rule>
                </pattern>
            </schema>"#,
    );

    let reports = evaluate(&schema, &doc).unwrap();
    let messages: Vec<&str> = reports.iter().map(|r| r.message.as_str()).collect();
    assert_eq!(messages, vec!["SCHEMA-LET"]);
}

#[test]
fn pattern_level_let_shadows_schema_level_let() {
    let doc = doc_with_root_children(&[(None, "item")]);
    let schema = schema(
        r#"<schema xmlns="http://purl.oclc.org/dsdl/schematron">
                <let name="x" value="'schema'"/>
                <pattern>
                    <let name="x" value="'pattern'"/>
                    <rule context="item">
                        <report test="$x = 'pattern'">PATTERN-WINS</report>
                    </rule>
                </pattern>
            </schema>"#,
    );

    let reports = evaluate(&schema, &doc).unwrap();
    let messages: Vec<&str> = reports.iter().map(|r| r.message.as_str()).collect();
    assert_eq!(messages, vec!["PATTERN-WINS"]);
}

#[test]
fn rule_level_let_is_reevaluated_per_context_node() {
    let doc = doc_with_root_children(&[(None, "alpha"), (None, "beta")]);
    let schema = schema(
        r#"<schema xmlns="http://purl.oclc.org/dsdl/schematron">
                <pattern>
                    <rule context="*">
                        <let name="n" value="local-name()"/>
                        <assert test="$n = 'alpha'">NOT-ALPHA</assert>
                    </rule>
                </pattern>
            </schema>"#,
    );

    let reports = evaluate(&schema, &doc).unwrap();
    assert_eq!(reports.len(), 1);
    assert_eq!(reports[0].message, "NOT-ALPHA");
    assert_eq!(reports[0].node, 2);
}

#[test]
fn let_can_reference_earlier_let_in_same_scope() {
    let doc = doc_with_root_children(&[(None, "item")]);
    let schema = schema(
        r#"<schema xmlns="http://purl.oclc.org/dsdl/schematron">
                <let name="a" value="'A'"/>
                <let name="b" value="concat($a, 'B')"/>
                <pattern>
                    <rule context="item">
                        <report test="$b = 'AB'">SEQUENTIAL</report>
                    </rule>
                </pattern>
            </schema>"#,
    );

    let reports = evaluate(&schema, &doc).unwrap();
    let messages: Vec<&str> = reports.iter().map(|r| r.message.as_str()).collect();
    assert_eq!(messages, vec!["SEQUENTIAL"]);
}

#[test]
fn unbound_variable_is_an_eval_error_not_a_panic() {
    let doc = doc_with_root_children(&[(None, "item")]);
    let schema = schema(
        r#"<schema xmlns="http://purl.oclc.org/dsdl/schematron">
                <pattern>
                    <rule context="item">
                        <assert test="$missing">broken</assert>
                    </rule>
                </pattern>
            </schema>"#,
    );

    let result = evaluate(&schema, &doc);
    assert!(matches!(result, Err(SchematronEvalError::Eval(_))));
}

#[test]
fn evaluate_with_phase_restricts_to_activated_patterns() {
    let doc = doc_with_root_children(&[(None, "item")]);
    let schema = schema(
        r#"<schema xmlns="http://purl.oclc.org/dsdl/schematron">
                <phase id="p1">
                    <active pattern="pa"/>
                </phase>
                <phase id="p2">
                    <active pattern="pb"/>
                </phase>
                <pattern id="pa">
                    <rule context="item">
                        <assert test="false()">PATTERN-A</assert>
                    </rule>
                </pattern>
                <pattern id="pb">
                    <rule context="item">
                        <assert test="false()">PATTERN-B</assert>
                    </rule>
                </pattern>
            </schema>"#,
    );

    let reports_p1 = evaluate_with_phase(&schema, &doc, Some("p1")).unwrap();
    let messages_p1: Vec<&str> = reports_p1.iter().map(|r| r.message.as_str()).collect();
    assert_eq!(messages_p1, vec!["PATTERN-A"]);

    let reports_p2 = evaluate_with_phase(&schema, &doc, Some("p2")).unwrap();
    let messages_p2: Vec<&str> = reports_p2.iter().map(|r| r.message.as_str()).collect();
    assert_eq!(messages_p2, vec!["PATTERN-B"]);

    let reports_all = evaluate_with_phase(&schema, &doc, None).unwrap();
    let messages_all: Vec<&str> = reports_all.iter().map(|r| r.message.as_str()).collect();
    assert_eq!(messages_all, vec!["PATTERN-A", "PATTERN-B"]);
}

#[test]
fn evaluate_honors_default_phase() {
    let doc = doc_with_root_children(&[(None, "item")]);
    let schema = schema(
        r#"<schema xmlns="http://purl.oclc.org/dsdl/schematron" defaultPhase="p1">
                <phase id="p1">
                    <active pattern="pa"/>
                </phase>
                <pattern id="pa">
                    <rule context="item">
                        <assert test="false()">PATTERN-A</assert>
                    </rule>
                </pattern>
                <pattern id="pb">
                    <rule context="item">
                        <assert test="false()">PATTERN-B</assert>
                    </rule>
                </pattern>
            </schema>"#,
    );

    let reports = evaluate(&schema, &doc).unwrap();
    let messages: Vec<&str> = reports.iter().map(|r| r.message.as_str()).collect();
    assert_eq!(messages, vec!["PATTERN-A"]);
}

#[test]
fn evaluate_with_phase_unknown_id_is_an_error() {
    let doc = doc_with_root_children(&[(None, "item")]);
    let schema = schema(
        r#"<schema xmlns="http://purl.oclc.org/dsdl/schematron">
                <pattern id="pa">
                    <rule context="item">
                        <assert test="false()">PATTERN-A</assert>
                    </rule>
                </pattern>
            </schema>"#,
    );

    let error = evaluate_with_phase(&schema, &doc, Some("does-not-exist")).unwrap_err();
    assert_eq!(
        error,
        SchematronEvalError::UnknownPhase {
            phase: "does-not-exist".to_owned(),
        }
    );
}

#[test]
fn phase_level_let_is_visible_within_that_phase() {
    let doc = doc_with_root_children(&[(None, "item")]);
    let schema = schema(
        r#"<schema xmlns="http://purl.oclc.org/dsdl/schematron">
                <phase id="p1">
                    <let name="x" value="'phase'"/>
                    <active pattern="pa"/>
                </phase>
                <pattern id="pa">
                    <rule context="item">
                        <report test="$x = 'phase'">PHASE-LET</report>
                    </rule>
                </pattern>
            </schema>"#,
    );

    let reports = evaluate_with_phase(&schema, &doc, Some("p1")).unwrap();
    let messages: Vec<&str> = reports.iter().map(|r| r.message.as_str()).collect();
    assert_eq!(messages, vec!["PHASE-LET"]);
}

#[test]
fn plain_text_message_is_trimmed_at_render_time() {
    let doc = doc_with_root_children(&[(None, "item")]);
    let schema = schema(
        "<schema xmlns=\"http://purl.oclc.org/dsdl/schematron\">\
            <pattern>\
                <rule context=\"item\">\
                    <assert test=\"false()\">\n  first   second  \n</assert>\
                </rule>\
            </pattern>\
        </schema>",
    );

    let reports = evaluate(&schema, &doc).unwrap();
    assert_eq!(reports[0].message, "first   second");
}

#[test]
fn value_of_interpolates_the_context_node() {
    let doc = doc_with_root_children(&[(None, "item")]);
    let schema = schema(
        r#"<schema xmlns="http://purl.oclc.org/dsdl/schematron">
                <pattern>
                    <rule context="item">
                        <assert test="false()">Element: <value-of select="local-name()"/>.</assert>
                    </rule>
                </pattern>
            </schema>"#,
    );

    let reports = evaluate(&schema, &doc).unwrap();
    assert_eq!(reports[0].message, "Element: item.");
}

#[test]
fn value_of_can_reference_a_let_variable() {
    let doc = doc_with_root_children(&[(None, "item")]);
    let schema = schema(
        r#"<schema xmlns="http://purl.oclc.org/dsdl/schematron">
                <pattern>
                    <rule context="item">
                        <let name="x" value="'bound-value'"/>
                        <assert test="false()">x is <value-of select="$x"/></assert>
                    </rule>
                </pattern>
            </schema>"#,
    );

    let reports = evaluate(&schema, &doc).unwrap();
    assert_eq!(reports[0].message, "x is bound-value");
}

#[test]
fn broken_value_of_in_a_non_firing_check_is_not_an_error() {
    let doc = doc_with_root_children(&[(None, "item")]);
    let schema = schema(
        r#"<schema xmlns="http://purl.oclc.org/dsdl/schematron">
                <pattern>
                    <rule context="item">
                        <assert test="true()">broken: <value-of select="(("/></assert>
                    </rule>
                </pattern>
            </schema>"#,
    );

    let reports = evaluate(&schema, &doc).unwrap();
    assert_eq!(reports.len(), 0);
}

#[test]
fn broken_value_of_in_a_firing_check_is_a_parse_error() {
    let doc = doc_with_root_children(&[(None, "item")]);
    let schema = schema(
        r#"<schema xmlns="http://purl.oclc.org/dsdl/schematron">
                <pattern>
                    <rule context="item">
                        <assert test="false()">broken: <value-of select="(("/></assert>
                    </rule>
                </pattern>
            </schema>"#,
    );

    let result = evaluate(&schema, &doc);
    assert!(matches!(result, Err(SchematronEvalError::Parse(_))));
}

#[test]
fn extends_inlined_check_fires_during_evaluation() {
    let doc = doc_with_root_children(&[(None, "item")]);
    let schema = schema(
        r#"<schema xmlns="http://purl.oclc.org/dsdl/schematron">
                <pattern>
                    <rule abstract="true" id="base">
                        <assert test="false()">FROM-BASE</assert>
                    </rule>
                    <rule context="item">
                        <extends rule="base"/>
                    </rule>
                </pattern>
            </schema>"#,
    );

    let reports = evaluate(&schema, &doc).unwrap();
    let messages: Vec<&str> = reports.iter().map(|r| r.message.as_str()).collect();
    assert_eq!(messages, vec!["FROM-BASE"]);
}

#[test]
fn is_a_instantiated_pattern_evaluates_with_substituted_context() {
    let doc = doc_with_root_children(&[(None, "alpha"), (None, "beta")]);
    let schema = schema(
        r#"<schema xmlns="http://purl.oclc.org/dsdl/schematron">
                <pattern abstract="true" id="tpl">
                    <rule context="$el">
                        <assert test="false()">MATCHED-$el</assert>
                    </rule>
                </pattern>
                <pattern is-a="tpl" id="concrete">
                    <param name="el" value="alpha"/>
                </pattern>
            </schema>"#,
    );

    let reports = evaluate(&schema, &doc).unwrap();
    assert_eq!(reports.len(), 1);
    assert_eq!(reports[0].message, "MATCHED-$el");
    assert_eq!(reports[0].node, 1);
}

#[test]
fn fired_check_carries_its_rendered_diagnostics() {
    let doc = doc_with_root_children(&[(None, "item")]);
    let schema = schema(
        r#"<schema xmlns="http://purl.oclc.org/dsdl/schematron">
                <diagnostics>
                    <diagnostic id="d1">first</diagnostic>
                    <diagnostic id="d2">element is <value-of select="local-name()"/></diagnostic>
                </diagnostics>
                <pattern>
                    <rule context="item">
                        <assert test="false()" diagnostics="d1 d2">broken</assert>
                    </rule>
                </pattern>
            </schema>"#,
    );

    let reports = evaluate(&schema, &doc).unwrap();
    assert_eq!(reports[0].diagnostics, vec!["first", "element is item"]);
}

#[test]
fn unknown_diagnostic_id_is_silently_skipped() {
    let schema_xml = r#"<schema xmlns="http://purl.oclc.org/dsdl/schematron">
                <diagnostics>
                    <diagnostic id="d1">known</diagnostic>
                </diagnostics>
                <pattern>
                    <rule context="item">
                        <assert test="false()" diagnostics="d1 missing">broken</assert>
                    </rule>
                </pattern>
            </schema>"#;

    assert!(parse(schema_xml).is_err());
}

#[test]
fn check_without_diagnostics_attribute_yields_an_empty_list() {
    let doc = doc_with_root_children(&[(None, "item")]);
    let schema = schema(
        r#"<schema xmlns="http://purl.oclc.org/dsdl/schematron">
                <pattern>
                    <rule context="item">
                        <assert test="false()">broken</assert>
                    </rule>
                </pattern>
            </schema>"#,
    );

    let reports = evaluate(&schema, &doc).unwrap();
    assert_eq!(reports[0].diagnostics, Vec::<String>::new());
}

/// A root with a child element `outer`, which has a child element `item`.
fn doc_with_nested_item() -> Document {
    Document::new(vec![root(), element(0, None, "outer"), element(1, None, "item")])
        .expect("the nodes form a document")
}

fn messages(sch_xml: &str, document: &Document) -> Vec<String> {
    evaluate(&schema(sch_xml), document)
        .unwrap()
        .into_iter()
        .map(|report| report.message)
        .collect()
}

#[test]
fn context_union_matches_through_every_alternative() {
    let doc = doc_with_nested_item();
    for context in ["missing | item", "item | missing", "missing[a | b] | item"] {
        let xml = format!(
            "<schema xmlns='http://purl.oclc.org/dsdl/schematron'><pattern>\
             <rule context='{context}'><assert test='false()'>M</assert></rule>\
             </pattern></schema>"
        );
        assert_eq!(messages(&xml, &doc), vec!["M"]);
    }
}

#[test]
fn the_root_node_is_a_context() {
    let doc = doc_with_nested_item();
    let reports = evaluate(
        &schema(
            "<schema xmlns='http://purl.oclc.org/dsdl/schematron'><pattern>\
             <rule context='/'><report test='count(//item) = 1'>ROOT</report></rule>\
             </pattern></schema>",
        ),
        &doc,
    )
    .unwrap();
    assert_eq!(reports.len(), 1);
    assert_eq!(reports[0].node, 0);
    assert_eq!(reports[0].message, "ROOT");
}

#[test]
fn a_context_that_is_no_node_set_is_an_error() {
    let doc = doc_with_nested_item();
    let result = evaluate(
        &schema(
            "<schema xmlns='http://purl.oclc.org/dsdl/schematron'><pattern>\
             <rule context='item = 1'><assert test='true()'>A</assert></rule>\
             </pattern></schema>",
        ),
        &doc,
    );
    assert_eq!(
        result.unwrap_err(),
        SchematronEvalError::ContextNotNodeSet {
            context: "item = 1".to_owned(),
        }
    );
}

#[test]
fn let_bindings_are_visible_to_contexts() {
    let doc = doc_with_root_children(&[(None, "a"), (None, "b")]);
    assert_eq!(
        messages(
            "<schema xmlns='http://purl.oclc.org/dsdl/schematron'>\
             <let name='n' value='&quot;b&quot;'/>\
             <pattern><rule context='*[local-name() = $n]'>\
             <assert test='false()'>ON-<name/></assert></rule></pattern></schema>",
            &doc,
        ),
        vec!["ON-b"]
    );
}

#[test]
fn a_literal_let_is_bound_as_a_string() {
    let doc = doc_with_root_children(&[(None, "item")]);
    assert_eq!(
        messages(
            "<schema xmlns='http://purl.oclc.org/dsdl/schematron'>\
             <let name='x'><v xmlns=''>1<w>+</w>1</v></let>\
             <pattern><rule context='item'>\
             <report test='$x = &quot;1+1&quot;'>IS <value-of select='string-length($x)'/></report>\
             </rule></pattern></schema>",
            &doc,
        ),
        vec!["IS 3"]
    );
}

#[test]
fn names_are_rendered_for_the_context_node_or_a_path() {
    let doc = doc_with_nested_item();
    assert_eq!(
        messages(
            "<schema xmlns='http://purl.oclc.org/dsdl/schematron'><pattern><rule context='item'>\
             <assert test='false()'><name/> in <name path='..'/>, not <name path='none'/>.</assert>\
             </rule></pattern></schema>",
            &doc,
        ),
        vec!["item in outer, not ."]
    );
}

#[test]
fn the_first_rule_that_selects_a_node_is_the_only_one_applied_to_it() {
    let doc = doc_with_root_children(&[(None, "a"), (None, "b"), (None, "c")]);
    let reports = evaluate(
        &schema(
            "<schema xmlns='http://purl.oclc.org/dsdl/schematron'><pattern>\
             <rule context='b'><assert test='false()'>1</assert></rule>\
             <rule context='a | b'><assert test='false()'>2</assert></rule>\
             <rule context='*'><assert test='false()'>3</assert></rule>\
             </pattern></schema>",
        ),
        &doc,
    )
    .unwrap();
    let found: Vec<(usize, &str)> = reports
        .iter()
        .map(|report| (report.node, report.message.as_str()))
        .collect();
    assert_eq!(found, vec![(2, "1"), (1, "2"), (3, "3")]);
}

#[test]
fn a_rule_reports_in_document_order_and_in_check_order() {
    let doc = doc_with_root_children(&[(None, "c"), (None, "a"), (None, "b")]);
    assert_eq!(
        messages(
            "<schema xmlns='http://purl.oclc.org/dsdl/schematron'><pattern>\
             <rule context='b | a | c'>\
             <assert test='false()'>x<name/></assert><report test='true()'>y<name/></report>\
             </rule></pattern></schema>",
            &doc,
        ),
        vec!["xc", "yc", "xa", "ya", "xb", "yb"]
    );
}

#[test]
fn rule_bindings_end_with_their_rule() {
    let doc = doc_with_root_children(&[(None, "a"), (None, "b")]);
    assert_eq!(
        messages(
            "<schema xmlns='http://purl.oclc.org/dsdl/schematron'>\
             <let name='x' value='1'/><pattern>\
             <rule context='a'><let name='x' value='$x + 1'/>\
             <report test='true()'><value-of select='$x'/></report></rule>\
             <rule context='b'><let name='x' value='$x + 2'/><let name='x' value='$x * 10'/>\
             <report test='true()'><value-of select='$x'/></report></rule>\
             </pattern><pattern><rule context='a'>\
             <report test='true()'><value-of select='$x'/></report></rule></pattern></schema>",
            &doc,
        ),
        vec!["2", "30", "1"]
    );
}

#[test]
fn an_unknown_phase_is_reported_before_anything_is_evaluated() {
    let doc = doc_with_root_children(&[(None, "item")]);
    let broken = schema(
        "<schema xmlns='http://purl.oclc.org/dsdl/schematron'><let name='x' value='(('/>\
         <pattern id='p'><rule context='item'/></pattern>\
         <phase id='f'><active pattern='p'/></phase></schema>",
    );
    assert!(matches!(
        evaluate_with_phase(&broken, &doc, Some("none")),
        Err(SchematronEvalError::UnknownPhase { .. })
    ));
    assert!(matches!(
        evaluate_with_phase(&broken, &doc, Some("f")),
        Err(SchematronEvalError::Parse(_))
    ));
}

#[test]
fn the_first_binding_of_a_prefix_counts() {
    let doc = doc_with_root_children(&[(Some("urn:1"), "item")]);
    for (first, second, count) in [("urn:1", "urn:2", 1), ("urn:2", "urn:1", 0)] {
        let xml = format!(
            "<schema xmlns='http://purl.oclc.org/dsdl/schematron'>\
             <ns prefix='p' uri='{first}'/><ns prefix='p' uri='{second}'/>\
             <pattern><rule context='p:item'><assert test='false()'>P</assert></rule></pattern>\
             </schema>"
        );
        assert_eq!(messages(&xml, &doc).len(), count);
    }
}
