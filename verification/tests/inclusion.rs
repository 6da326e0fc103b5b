//! Expansion of inclusions.

use std::cell::RefCell;

use schematron_engine::inclusion::resolve_includes;
use schematron_engine::{
    ParseError, Position, ResolveError, SchemaResolver, SchemaSource, included_fragment, parse,
    parse_with_resolver,
};

/// A resolver over a list of references and what they lead to, which notes
/// what it was asked for.
struct ListResolver {
    entries: Vec<(&'static str, &'static str, &'static str)>,
    asked: RefCell<Vec<(String, String)>>,
}

impl ListResolver {
    fn new(entries: &[(&'static str, &'static str, &'static str)]) -> Self {
        ListResolver {
            entries: entries.to_vec(),
            asked: RefCell::new(Vec::new()),
        }
    }
}

impl SchemaResolver for ListResolver {
    fn resolve(&self, href: &str, base_uri: &str) -> Result<SchemaSource, ResolveError> {
        self.asked
            .borrow_mut()
            .push((href.to_owned(), base_uri.to_owned()));
        self.entries
            .iter()
            .find(|entry| entry.0 == href)
            .map(|entry| SchemaSource::new(entry.1, entry.2))
            .ok_or_else(|| ResolveError::new(format!("no {href}")))
    }
}

const NAMESPACE: &str = "http://purl.oclc.org/dsdl/schematron";

fn schema(content: &str) -> String {
    format!("<schema xmlns=\"{NAMESPACE}\">{content}</schema>")
}

const PATTERN: &str = "<pattern xmlns=\"http://purl.oclc.org/dsdl/schematron\"><rule context=\"é\"><assert test=\"true()\">ü</assert></rule></pattern>";

#[test]
fn a_schema_without_inclusions_is_parsed_as_it_is() {
    let resolver = ListResolver::new(&[]);
    let xml = schema("<pattern><rule context='a'><assert test='1'>é</assert></rule></pattern>");
    assert_eq!(parse_with_resolver(&xml, "base", &resolver), parse(&xml));
    assert!(parse(&xml).is_ok());
    assert!(resolver.asked.borrow().is_empty());
}

#[test]
fn an_inclusion_is_replaced_by_the_included_root_element() {
    let resolver = ListResolver::new(&[("p.sch", PATTERN, "other")]);
    let included = schema("<title>ä</title><include href='p.sch'/><p>ö</p>");
    let inline = schema(&format!("<title>ä</title>{PATTERN}<p>ö</p>"));
    let result = parse_with_resolver(&included, "base", &resolver);
    assert!(result.is_ok());
    assert_eq!(result, parse(&inline));
    assert_eq!(
        *resolver.asked.borrow(),
        vec![("p.sch".to_owned(), "base".to_owned())]
    );
}

#[test]
fn several_inclusions_are_resolved_in_document_order() {
    let resolver = ListResolver::new(&[
        ("a", "<!-- before --><pattern xmlns='http://purl.oclc.org/dsdl/schematron' id='a'/>", "x"),
        ("b", "<pattern xmlns='http://purl.oclc.org/dsdl/schematron' id='b'/>", "y"),
    ]);
    let xml = schema("<include href='b'/><include href='a'></include><include href='b'/>");
    let error = parse_with_resolver(&xml, "base", &resolver).unwrap_err();
    assert!(matches!(error, ParseError::DuplicateId { element: "pattern", .. }));
    let xml = schema("<include href='b'/><include href='a'></include>");
    let ids: Vec<Option<String>> = parse_with_resolver(&xml, "base", &resolver)
        .unwrap()
        .patterns
        .into_iter()
        .map(|pattern| pattern.id)
        .collect();
    assert_eq!(ids, vec![Some("b".to_owned()), Some("a".to_owned())]);
}

#[test]
fn nested_references_resolve_against_the_base_of_their_own_text() {
    let resolver = ListResolver::new(&[
        (
            "outer",
            "<pattern xmlns='http://purl.oclc.org/dsdl/schematron'><include href='inner'/></pattern>",
            "outer-base",
        ),
        (
            "inner",
            "<rule xmlns='http://purl.oclc.org/dsdl/schematron' context='x'/>",
            "inner-base",
        ),
    ]);
    let xml = schema("<include href='outer'/>");
    let parsed = parse_with_resolver(&xml, "base", &resolver).unwrap();
    assert_eq!(parsed.patterns[0].rules[0].context, "x");
    assert_eq!(
        *resolver.asked.borrow(),
        vec![
            ("outer".to_owned(), "base".to_owned()),
            ("inner".to_owned(), "outer-base".to_owned()),
        ]
    );
}

#[test]
fn a_text_that_includes_itself_is_cyclic() {
    let resolver = ListResolver::new(&[(
        "self",
        "<pattern xmlns='http://purl.oclc.org/dsdl/schematron'><include href='self'/></pattern>",
        "base",
    )]);
    let xml = schema("<include href='self'/>");
    assert_eq!(
        parse_with_resolver(&xml, "base", &resolver),
        Err(ParseError::CyclicInclude {
            href: "self".to_owned(),
            position: Position { row: 1, col: 55 },
        })
    );
}

#[test]
fn an_inclusion_inside_an_inclusion_is_unexpected() {
    let resolver = ListResolver::new(&[("p.sch", PATTERN, "other")]);
    let xml = schema("<include href='p.sch'><include href='p.sch'/></include>");
    assert_eq!(
        parse_with_resolver(&xml, "base", &resolver),
        Err(ParseError::UnexpectedElement {
            element: "include".to_owned(),
            position: Position { row: 1, col: 76 },
        })
    );
}

#[test]
fn a_missing_reference_is_found_before_anything_is_resolved() {
    let resolver = ListResolver::new(&[]);
    let xml = schema("<include href='nowhere'/><include/>");
    let error = parse_with_resolver(&xml, "base", &resolver).unwrap_err();
    assert!(matches!(
        error,
        ParseError::MissingAttribute {
            element: "include",
            attribute: "href",
            ..
        }
    ));
    assert!(resolver.asked.borrow().is_empty());
}

#[test]
fn a_malformed_included_text_is_invalid_xml() {
    let resolver = ListResolver::new(&[("bad", "<a>", "x")]);
    let xml = schema("<include href='bad'/>");
    assert!(matches!(
        parse_with_resolver(&xml, "base", &resolver),
        Err(ParseError::InvalidXml(_))
    ));
    assert!(matches!(
        parse_with_resolver("<a>", "base", &resolver),
        Err(ParseError::InvalidXml(_))
    ));
}

#[test]
fn an_included_element_must_fit_its_place() {
    let resolver = ListResolver::new(&[("p.sch", PATTERN, "other")]);
    let xml = schema("<pattern><rule context='a'><include href='p.sch'/></rule></pattern>");
    assert!(matches!(
        parse_with_resolver(&xml, "base", &resolver),
        Err(ParseError::UnexpectedElement { element, .. }) if element == "pattern"
    ));
}

#[test]
fn a_fragment_is_the_source_of_the_root_element() {
    let position = Position { row: 1, col: 2 };
    let text = format!("<?xml version='1.0'?>\n<!-- ä -->{PATTERN}\n");
    assert_eq!(included_fragment(&text, "h", position), Ok(PATTERN.to_owned()));
    assert_eq!(
        included_fragment("<a/>", "h", position),
        Err(ParseError::InvalidInclude {
            href: "h".to_owned(),
            reason: "included root element is not in the Schematron namespace",
            position,
        })
    );
    assert_eq!(
        included_fragment(&schema(""), "h", position),
        Err(ParseError::InvalidInclude {
            href: "h".to_owned(),
            reason: "included content must be a fragment, not a whole <schema> (ISO reference: \"use include to include fragments, not a whole schema\")",
            position,
        })
    );
    assert!(matches!(
        included_fragment("", "h", position),
        Err(ParseError::InvalidXml(_))
    ));
}

#[test]
fn plain_parsing_refuses_inclusions() {
    let xml = schema("<include href='p.sch'/>");
    assert!(matches!(
        parse(&xml),
        Err(ParseError::UnexpectedElement { element, .. }) if element == "include"
    ));
}

/// What expanding `xml` from `root.sch` gives, with `loading` on the way, and
/// what is on the way afterwards.
fn expand(
    xml: &str,
    resolver: &ListResolver,
    loading: &[&str],
) -> (Result<String, ParseError>, Vec<String>) {
    let mut way: Vec<String> = loading.iter().map(|key| (*key).to_owned()).collect();
    let (result, _) = resolve_includes(xml, "root.sch", resolver, &mut way);
    (result, way)
}

#[test]
fn a_reference_being_loaded_is_refused_without_asking() {
    let resolver = ListResolver::new(&[(
        "a.sch",
        "<pattern xmlns='http://purl.oclc.org/dsdl/schematron'/>",
        "a.sch",
    )]);
    let xml = "<schema xmlns='http://purl.oclc.org/dsdl/schematron'><include href='a.sch'/></schema>";
    let (result, way) = expand(xml, &resolver, &["root.sch::a.sch"]);
    assert_eq!(
        result,
        Err(ParseError::CyclicInclude {
            href: "a.sch".to_owned(),
            position: Position { row: 1, col: 54 },
        })
    );
    assert_eq!(way, vec!["root.sch::a.sch"]);
    assert!(resolver.asked.borrow().is_empty());
}

#[test]
fn the_references_on_the_way_are_left_as_they_were() {
    let resolver = ListResolver::new(&[
        ("p.sch", PATTERN, "p.sch"),
        ("loop.sch", "<p xmlns='http://purl.oclc.org/dsdl/schematron'><include href='loop.sch'/></p>", "root.sch"),
        ("deep.sch", "<p xmlns='http://purl.oclc.org/dsdl/schematron'><include href='none.sch'/></p>", "deep.sch"),
        ("bad.sch", "<p", "bad.sch"),
        ("foreign.sch", "<p/>", "foreign.sch"),
    ]);
    let outcomes: Vec<bool> = ["p", "loop", "deep", "bad", "foreign", "none"]
        .iter()
        .map(|name| {
            let xml = schema(&format!("<include href='{name}.sch'/>"));
            let (result, way) = expand(&xml, &resolver, &["earlier"]);
            assert_eq!(way, vec!["earlier"], "{name}");
            result.is_ok()
        })
        .collect();
    assert_eq!(outcomes, vec![true, false, false, false, false, false]);
}

#[test]
fn an_expanded_text_is_not_expanded_again() {
    let resolver = ListResolver::new(&[("p.sch", PATTERN, "p.sch")]);
    let (result, _) = expand(&schema("<include href='p.sch'/>"), &resolver, &[]);
    let text = result.unwrap();
    assert_eq!(text, schema(PATTERN));
    let nothing = ListResolver::new(&[]);
    assert_eq!(expand(&text, &nothing, &["x"]).0, Ok(text.clone()));
    assert!(nothing.asked.borrow().is_empty());
}

#[test]
fn texts_that_are_put_together_hold_no_inclusion() {
    let nested = "<rule xmlns='http://purl.oclc.org/dsdl/schematron' context='a'>\
                  <x:note xmlns:x='urn:x'><y xmlns=''/></x:note><include href='check.sch'/></rule>";
    let check = "<?xml version='1.0'?><!-- c --><s:assert \
                 xmlns:s='http://purl.oclc.org/dsdl/schematron' test='é'>m</s:assert>\n";
    let pattern = "<pattern xmlns='http://purl.oclc.org/dsdl/schematron'><include \
                   href='rule.sch'/>\r\n<include href='rule.sch'></include></pattern>";
    let resolver = ListResolver::new(&[
        ("pattern.sch", pattern, "p"),
        ("rule.sch", nested, "r"),
        ("check.sch", check, "c"),
    ]);
    let xml = schema("<title>ü</title><include href='pattern.sch'/><p/><include href='pattern.sch'/>");
    let (result, way) = expand(&xml, &resolver, &[]);
    let text = result.unwrap();
    assert!(way.is_empty());
    assert!(!text.contains("<include"));
    assert_eq!(resolver.asked.borrow().len(), 2 + 4 + 4);
    assert_eq!(parse(&text).unwrap().patterns.len(), 2);
    let nothing = ListResolver::new(&[]);
    assert_eq!(expand(&text, &nothing, &["x"]), (Ok(text.clone()), vec!["x".to_owned()]));
    assert!(nothing.asked.borrow().is_empty());
}

#[test]
fn an_element_without_a_namespace_takes_the_one_around_it() {
    let resolver = ListResolver::new(&[(
        "p.sch",
        "<s:pattern xmlns:s='http://purl.oclc.org/dsdl/schematron'><include href='q.sch'/></s:pattern>",
        "p",
    )]);
    let (result, _) = expand(&schema("<include href='p.sch'/>"), &resolver, &[]);
    let text = result.unwrap();
    assert_eq!(resolver.asked.borrow().len(), 1);
    assert!(matches!(
        expand(&text, &resolver, &[]).0,
        Err(ParseError::UnresolvableInclude { href, .. }) if href == "q.sch"
    ));
}

#[test]
fn an_inclusion_that_is_the_whole_text_gives_way() {
    let resolver = ListResolver::new(&[("p.sch", PATTERN, "p.sch")]);
    let xml = "<?xml version='1.0'?>\n<include xmlns='http://purl.oclc.org/dsdl/schematron' href='p.sch'/>\n";
    let (result, _) = expand(xml, &resolver, &[]);
    assert_eq!(result, Ok(format!("<?xml version='1.0'?>\n{PATTERN}\n")));
}
