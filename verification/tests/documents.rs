//! Documents, XML trees, and XPath evaluation over them.

use schematron_engine::{
    Document, DocumentNode, DocumentNodeKind, NodeName, ParseError, Position,
    QualifiedName, SchematronEvalError, XPathEvalError, XmlDocument, XmlNode, evaluate, parse,
    parse_document,
};

fn node(
    kind: DocumentNodeKind,
    parent: Option<usize>,
    name: Option<&str>,
    string_value: &str,
) -> DocumentNode {
    DocumentNode {
        kind,
        parent,
        name: name.map(|name| NodeName {
            namespace_uri: None,
            local_name: name.to_owned(),
        }),
        string_value: string_value.to_owned(),
        is_id: false,
    }
}

/// `<list xmlns:p="urn:p" id="L"><item n="2">two</item><!--c--><?go x?><item
/// n="0">zero</item></list>`, with `@id` of type ID.
fn list() -> Document {
    let mut id = node(DocumentNodeKind::Attribute, Some(1), Some("id"), "L");
    id.is_id = true;
    Document::new(vec![
        node(DocumentNodeKind::Root, None, None, "twozero"),
        node(DocumentNodeKind::Element, Some(0), Some("list"), "twozero"),
        node(DocumentNodeKind::Namespace, Some(1), Some("p"), "urn:p"),
        id,
        node(DocumentNodeKind::Element, Some(1), Some("item"), "two"),
        node(DocumentNodeKind::Attribute, Some(4), Some("n"), "2"),
        node(DocumentNodeKind::Text, Some(4), None, "two"),
        node(DocumentNodeKind::Comment, Some(1), None, "c"),
        node(
            DocumentNodeKind::ProcessingInstruction,
            Some(1),
            Some("go"),
            "x",
        ),
        node(DocumentNodeKind::Element, Some(1), Some("item"), "zero"),
        node(DocumentNodeKind::Attribute, Some(9), Some("n"), "0"),
        node(DocumentNodeKind::Text, Some(9), None, "zero"),
    ])
    .expect("the nodes form a document")
}

/// The text of `select` at the document's `list` element.
fn value(select: &str) -> String {
    let xml = format!(
        "<schema xmlns='http://purl.oclc.org/dsdl/schematron'><pattern><rule context='list'>\
         <report test='true()'>[<value-of select=\"{select}\"/>]</report>\
         </rule></pattern></schema>"
    );
    let schema = parse(&xml).expect("the schema parses");
    let reports = evaluate(&schema, &list()).expect("the expression evaluates");
    reports[0].message.clone()
}

fn holds(test: &str) -> bool {
    let xml = format!(
        "<schema xmlns='http://purl.oclc.org/dsdl/schematron'><pattern><rule context='list'>\
         <report test=\"{test}\">yes</report></rule></pattern></schema>"
    );
    let schema = parse(&xml).expect("the schema parses");
    !evaluate(&schema, &list())
        .expect("the expression evaluates")
        .is_empty()
}

fn failure(test: &str) -> SchematronEvalError {
    let xml = format!(
        "<schema xmlns='http://purl.oclc.org/dsdl/schematron'><pattern><rule context='list'>\
         <report test=\"{test}\">yes</report></rule></pattern></schema>"
    );
    let schema = parse(&xml).expect("the schema parses");
    evaluate(&schema, &list()).expect_err("the expression fails")
}

#[test]
fn a_document_begins_with_its_top_node() {
    assert!(Document::new(Vec::new()).is_none());
    assert!(Document::new(vec![node(DocumentNodeKind::Attribute, None, Some("a"), "")]).is_none());
    assert!(Document::new(vec![node(DocumentNodeKind::Namespace, None, Some("a"), "")]).is_none());
    assert!(Document::new(vec![node(DocumentNodeKind::Element, None, Some("a"), "")]).is_some());
    assert!(Document::new(vec![node(DocumentNodeKind::Root, Some(0), None, "")]).is_none());
    assert!(Document::new(vec![node(DocumentNodeKind::Root, None, None, "")]).is_some());
}

#[test]
fn parents_come_before_their_children() {
    let root = node(DocumentNodeKind::Root, None, None, "");
    let child = |parent| node(DocumentNodeKind::Element, parent, Some("a"), "");
    assert!(Document::new(vec![root.clone(), child(None)]).is_none());
    assert!(Document::new(vec![root.clone(), child(Some(1))]).is_none());
    assert!(Document::new(vec![root.clone(), child(Some(2)), child(Some(0))]).is_none());
    let document = Document::new(vec![root, child(Some(0)), child(Some(1))]).unwrap();
    assert_eq!(document.len(), 3);
    assert_eq!(document.node(2).parent, Some(1));
}

#[test]
fn values_are_written_as_xpath_strings() {
    assert_eq!(value("item"), "[two]");
    assert_eq!(value("missing"), "[]");
    assert_eq!(value("true()"), "[true]");
    assert_eq!(value("1 = 2"), "[false]");
    assert_eq!(value("1 div 0"), "[Infinity]");
    assert_eq!(value("-1 div 0"), "[-Infinity]");
    assert_eq!(value("0 div 0"), "[NaN]");
    assert_eq!(value("0 * -1"), "[0]");
    assert_eq!(value("1.50"), "[1.5]");
    assert_eq!(value("'text'"), "[text]");
}

#[test]
fn values_are_read_as_booleans() {
    assert!(holds("item"));
    assert!(!holds("missing"));
    assert!(holds("'0'"));
    assert!(!holds("''"));
    assert!(holds("0.5"));
    assert!(!holds("0"));
    assert!(!holds("0 * -1"));
    assert!(!holds("0 div 0"));
    assert!(holds("1 div 0"));
}

#[test]
fn all_kinds_of_nodes_are_reached() {
    assert_eq!(value("count(node())"), "[4]");
    assert_eq!(value("count(item)"), "[2]");
    assert_eq!(value("comment()"), "[c]");
    assert_eq!(value("processing-instruction('go')"), "[x]");
    assert_eq!(value("item/text()"), "[two]");
    assert_eq!(value("item[2]/@n"), "[0]");
    assert_eq!(value("namespace::p"), "[urn:p]");
    assert_eq!(value("name(@id)"), "[id]");
    assert_eq!(value("count(id('L'))"), "[1]");
    assert_eq!(value("count(id('M'))"), "[0]");
    assert_eq!(value("count(ancestor-or-self::node())"), "[2]");
    assert_eq!(value("item[2]/preceding-sibling::item"), "[two]");
    assert_eq!(value("."), "[twozero]");
}

#[test]
fn evaluation_failures_keep_their_details() {
    assert_eq!(
        failure("p:no()"),
        SchematronEvalError::Eval(XPathEvalError::UnknownFunction(QualifiedName {
            prefix: Some("p".to_owned()),
            local: "no".to_owned(),
        }))
    );
    assert_eq!(
        failure("$x"),
        SchematronEvalError::Eval(XPathEvalError::UnboundVariable(QualifiedName {
            prefix: None,
            local: "x".to_owned(),
        }))
    );
    assert_eq!(
        failure("not()"),
        SchematronEvalError::Eval(XPathEvalError::ArgumentCount {
            function: "not",
            expected: 1,
            got: 0,
        })
    );
    assert!(matches!(
        failure("count(1)"),
        SchematronEvalError::Eval(XPathEvalError::ExpectedNodeSet { .. })
    ));
    assert!(matches!(
        failure("(("),
        SchematronEvalError::Parse(error) if error.position == 2
    ));
}

#[test]
fn a_prefixed_variable_is_never_bound() {
    let schema = parse(
        "<schema xmlns='http://purl.oclc.org/dsdl/schematron'><let name='p:x' value='1'/>\
         <pattern><rule context='list'><report test='$p:x'>r</report></rule></pattern></schema>",
    )
    .unwrap();
    assert!(matches!(
        evaluate(&schema, &list()),
        Err(SchematronEvalError::Eval(XPathEvalError::UnboundVariable(_)))
    ));
}

fn xml_node(parent: Option<usize>, name: Option<&str>, start: usize, end: usize) -> XmlNode {
    XmlNode {
        parent,
        is_element: name.is_some(),
        is_text: false,
        namespace: name.map(|_| "http://purl.oclc.org/dsdl/schematron".to_owned()),
        name: name.unwrap_or_default().to_owned(),
        attributes: Vec::new(),
        text: None,
        start,
        end,
    }
}

#[test]
fn an_xml_document_needs_a_root_element() {
    assert!(XmlDocument::new("", Vec::new()).is_none());
    assert!(XmlDocument::new("", vec![xml_node(None, None, 0, 0)]).is_none());
    let nodes = vec![xml_node(None, None, 0, 4), xml_node(Some(0), Some("a"), 0, 4)];
    let document = XmlDocument::new("<a/>", nodes).unwrap();
    assert_eq!(document.root_element(), 1);
    assert_eq!(document.source(1), "<a/>");
    assert_eq!(document.children(0), &vec![1]);
}

#[test]
fn elements_lie_in_the_text_of_their_document() {
    let nodes = |start, end| vec![xml_node(None, None, 0, 2), xml_node(Some(0), Some("a"), start, end)];
    assert!(XmlDocument::new("é", nodes(0, 2)).is_some());
    assert!(XmlDocument::new("é", nodes(1, 2)).is_none());
    assert!(XmlDocument::new("é", nodes(0, 3)).is_none());
    assert!(XmlDocument::new("é", nodes(2, 0)).is_none());
    assert!(XmlDocument::new("<a/>", vec![xml_node(None, None, 0, 4), xml_node(Some(1), Some("a"), 0, 4)]).is_none());
}

#[test]
fn positions_count_rows_and_characters() {
    let text = "<é>\n  <à/><b/>\n</é>";
    let document = XmlDocument::read(text).unwrap();
    let elements: Vec<usize> = document
        .descendants(document.root_element())
        .into_iter()
        .filter(|n| document.node(*n).is_element)
        .collect();
    let positions: Vec<Position> = elements.iter().map(|n| document.position(*n)).collect();
    assert_eq!(
        positions,
        vec![
            Position { row: 1, col: 1 },
            Position { row: 2, col: 3 },
            Position { row: 2, col: 7 },
        ]
    );
    let sources: Vec<String> = elements.iter().map(|n| document.source(*n)).collect();
    assert_eq!(sources, vec![text, "<à/>", "<b/>"]);
}

#[test]
fn a_tree_that_was_built_by_hand_is_parsed_like_one_that_was_read() {
    let nodes = vec![xml_node(None, None, 0, 9), xml_node(Some(0), Some("schema"), 0, 9)];
    let document = XmlDocument::new("<schema/>", nodes).unwrap();
    assert_eq!(parse_document(&document), Err(ParseError::NoPatterns));
    let text = "<schema xmlns='http://purl.oclc.org/dsdl/schematron'/>";
    let document = XmlDocument::read(text).unwrap();
    assert_eq!(parse_document(&document), parse(text));
}

#[test]
fn text_that_is_not_xml_is_refused() {
    assert_eq!(
        parse("<a></b>"),
        Err(ParseError::InvalidXml(
            "expected 'a' tag, not 'b' at 1:4".to_owned()
        ))
    );
    assert!(XmlDocument::read("").is_err());
}

#[test]
fn a_tree_without_a_root_node_is_evaluated_from_its_top_element() {
    let document = Document::new(vec![
        node(DocumentNodeKind::Element, None, Some("list"), "one"),
        node(DocumentNodeKind::Element, Some(0), Some("item"), "one"),
        node(DocumentNodeKind::Text, Some(1), None, "one"),
    ])
    .unwrap();
    let schema = parse(
        "<schema xmlns='http://purl.oclc.org/dsdl/schematron'><pattern><rule context='item'>\
         <report test='true()'><value-of select='.'/></report></rule></pattern></schema>",
    )
    .unwrap();
    let reports = evaluate(&schema, &document).unwrap();
    assert_eq!(reports.len(), 1);
    assert_eq!((reports[0].message.as_str(), reports[0].node), ("one", 1));
}
