//! Text operations, contexts and the steps between XPath calls.

use schematron_engine::engine::{
    check_fires, claim_nodes, context_nodes, extend_lets, finish_message,
};
use schematron_engine::parser::substitute;
use schematron_engine::text::{
    decimal_text, equals_ignoring_case, replace, split_words, trim,
};
use schematron_engine::{
    CheckKind, Document, DocumentNode, DocumentNodeKind, Handle, LetBinding, LetValue,
    SchematronEvalError, path_of_context, split_top_level_union,
};

#[test]
fn trimming_removes_whitespace_at_both_ends_only() {
    assert_eq!(trim(" \t\n a  b \u{a0}\u{2003}"), "a  b");
    assert_eq!(trim("abc"), "abc");
    assert_eq!(trim(" \n "), "");
    assert_eq!(trim(""), "");
    assert_eq!(trim(&trim("  x  ")), trim("  x  "));
}

#[test]
fn words_are_separated_by_any_whitespace() {
    assert_eq!(split_words("  d1 d2\t\nd3 "), vec!["d1", "d2", "d3"]);
    assert_eq!(split_words("one"), vec!["one"]);
    assert_eq!(split_words(" \n"), Vec::<String>::new());
    assert_eq!(split_words("a\u{2003}b"), vec!["a", "b"]);
}

#[test]
fn replacement_goes_from_left_to_right_without_overlap() {
    assert_eq!(replace("aaa", "aa", "b"), "ba");
    assert_eq!(replace("$x + $xy", "$x", "1"), "1 + 1y");
    assert_eq!(replace("nothing", "$x", "1"), "nothing");
    assert_eq!(replace("", "a", "b"), "");
    assert_eq!(replace("ab", "abc", "d"), "ab");
    assert_eq!(replace("a→b→c", "→", ""), "abc");
}

#[test]
fn only_ascii_letters_are_compared_without_case() {
    assert!(equals_ignoring_case("xslt", "XsLT"));
    assert!(equals_ignoring_case("xpath", "xpath"));
    assert!(!equals_ignoring_case("xslt", "xslt2"));
    assert!(!equals_ignoring_case("é", "É"));
    assert!(!equals_ignoring_case("[", "{"));
    assert!(!equals_ignoring_case("@", "`"));
}

#[test]
fn decimal_notation_has_no_leading_zeros() {
    assert_eq!(decimal_text(0), "0");
    assert_eq!(decimal_text(7), "7");
    assert_eq!(decimal_text(10), "10");
    assert_eq!(decimal_text(18446744073709551615), "18446744073709551615");
}

#[test]
fn split_top_level_union_ignores_nested_pipes() {
    assert_eq!(split_top_level_union("a"), vec!["a"]);
    assert_eq!(split_top_level_union("a | b"), vec!["a ", " b"]);
    assert_eq!(
        split_top_level_union("a[b | c] | d(e | f) | g['|'] | h[\"|\"]"),
        vec!["a[b | c] ", " d(e | f) ", " g['|'] ", " h[\"|\"]"]
    );
    assert_eq!(split_top_level_union("a['\"|'] | b"), vec!["a['\"|'] ", " b"]);
    assert_eq!(split_top_level_union("'|"), vec!["'|"]);
    assert_eq!(split_top_level_union(""), vec![""]);
    assert_eq!(split_top_level_union("|"), vec!["", ""]);
    assert_eq!(split_top_level_union("a[b[c | d] | e]|f"), vec!["a[b[c | d] | e]", "f"]);
}

#[test]
fn splitting_a_context_loses_nothing() {
    for context in ["a", "a | b", "a[b|c]|d", "", "||", "'x|y' | z", "a) | b"] {
        assert_eq!(split_top_level_union(context).join("|"), context);
    }
}

#[test]
fn each_alternative_of_a_context_is_prefixed() {
    assert_eq!(path_of_context("item"), "descendant-or-self::node()/item");
    assert_eq!(
        path_of_context("a | b[x|y]"),
        "descendant-or-self::node()/a |descendant-or-self::node()/ b[x|y]"
    );
}

#[test]
fn the_root_pattern_is_not_prefixed() {
    assert_eq!(path_of_context("/"), "/");
    assert_eq!(path_of_context(" / "), " / ");
    assert_eq!(path_of_context("/|a"), "/|descendant-or-self::node()/a");
    assert_eq!(path_of_context("/a"), "descendant-or-self::node()//a");
}

#[test]
fn an_assert_fires_on_false_and_a_report_on_true() {
    assert!(check_fires(CheckKind::Assert, false));
    assert!(!check_fires(CheckKind::Assert, true));
    assert!(check_fires(CheckKind::Report, true));
    assert!(!check_fires(CheckKind::Report, false));
}

#[test]
fn a_message_is_joined_before_it_is_trimmed() {
    let texts = vec![" a ".to_owned(), "".to_owned(), " b ".to_owned()];
    assert_eq!(finish_message(&texts), "a  b");
    assert_eq!(finish_message(&Vec::new()), "");
}

#[test]
fn claimed_nodes_are_passed_over() {
    let selected = vec![true, false, true, true, false];
    let mut claimed = vec![true, true, false, false, false];
    assert_eq!(claim_nodes(&selected, &mut claimed), vec![2, 3]);
    assert_eq!(claimed, vec![true, true, true, true, false]);
    assert_eq!(claim_nodes(&selected, &mut claimed), Vec::<usize>::new());
}

fn three_nodes() -> Document {
    let mut nodes = vec![DocumentNode {
        kind: DocumentNodeKind::Root,
        parent: None,
        name: None,
        string_value: String::new(),
        is_id: false,
    }];
    for parent in [0, 1] {
        nodes.push(DocumentNode {
            kind: DocumentNodeKind::Element,
            parent: Some(parent),
            name: None,
            string_value: String::new(),
            is_id: false,
        });
    }
    Document::new(nodes).unwrap()
}

#[test]
fn a_context_selects_the_nodes_of_its_node_set() {
    let document = three_nodes();
    let handles = vec![
        Handle { document: &document, index: 2 },
        Handle { document: &document, index: 0 },
        Handle { document: &document, index: 2 },
    ];
    assert_eq!(
        context_nodes(Some(handles), "c", document.len()),
        Ok(vec![true, false, true])
    );
    assert_eq!(context_nodes(Some(Vec::new()), "c", 2), Ok(vec![false, false]));
}

#[test]
fn a_context_must_be_a_node_set() {
    assert_eq!(
        context_nodes(None, "1 + 1", 3),
        Err(SchematronEvalError::ContextNotNodeSet {
            context: "1 + 1".to_owned(),
        })
    );
}

#[test]
fn whitespace_is_what_unicode_says() {
    let whitespace: Vec<char> = ('\u{0}'..=char::MAX)
        .filter(|c| trim(&c.to_string()).is_empty())
        .collect();
    let mut expected: Vec<char> = ('\u{9}'..='\u{d}').collect();
    expected.extend(['\u{20}', '\u{85}', '\u{a0}', '\u{1680}']);
    expected.extend('\u{2000}'..='\u{200a}');
    expected.extend(['\u{2028}', '\u{2029}', '\u{202f}', '\u{205f}', '\u{3000}']);
    assert_eq!(whitespace, expected);
}

#[test]
fn the_root_context_may_have_whitespace_around_it() {
    assert_eq!(path_of_context(" / "), " / ");
    assert_eq!(path_of_context("/\u{200b}"), "descendant-or-self::node()//\u{200b}");
}

fn params(pairs: &[(&str, &str)]) -> Vec<(String, String)> {
    pairs
        .iter()
        .map(|(name, value)| ((*name).to_owned(), (*value).to_owned()))
        .collect()
}

#[test]
fn each_parameter_sees_what_the_ones_before_it_left() {
    assert_eq!(substitute("$a and $b", &params(&[])), "$a and $b");
    assert_eq!(substitute("$a $ab a", &params(&[("a", "1")])), "1 1b a");
    assert_eq!(substitute("$a", &params(&[("a", "$b"), ("b", "2")])), "2");
    assert_eq!(substitute("$a", &params(&[("b", "2"), ("a", "$b")])), "$b");
    assert_eq!(
        substitute("$a$b", &params(&[("a", "x"), ("b", "y")])),
        substitute(&substitute("$a$b", &params(&[("a", "x")])), &params(&[("b", "y")]))
    );
}

fn binding(name: &str, value: &str) -> LetBinding {
    LetBinding {
        name: name.to_owned(),
        value: LetValue::Expr(value.to_owned()),
    }
}

#[test]
fn bindings_made_in_two_steps_are_those_made_in_one() {
    let document = Document::new(vec![DocumentNode {
        kind: DocumentNodeKind::Root,
        parent: None,
        name: None,
        string_value: String::new(),
        is_id: false,
    }])
    .unwrap();
    let first = vec![binding("x", "1"), binding("y", "$x + 1")];
    let second = vec![binding("x", "$y + 1"), binding("z", "$missing"), binding("w", "5")];
    let all: Vec<LetBinding> = first.iter().chain(&second).cloned().collect();

    let mut at_once = Vec::new();
    let result = extend_lets(&all, &document, 0, &mut at_once, &vec![]);
    let mut in_steps = Vec::new();
    assert_eq!(extend_lets(&first, &document, 0, &mut in_steps, &vec![]), Ok(()));
    assert_eq!(
        extend_lets(&second, &document, 0, &mut in_steps, &vec![]),
        result
    );
    assert!(matches!(result, Err(SchematronEvalError::Eval(_))));
    let texts = |variables: &Vec<(String, xpath_eval::Value<Handle<'_>>)>| -> Vec<String> {
        variables
            .iter()
            .map(|(name, value)| format!("{name}={}", value.to_xpath_string()))
            .collect()
    };
    assert_eq!(texts(&at_once), vec!["x=1", "y=2", "x=3"]);
    assert_eq!(texts(&in_steps), texts(&at_once));
}
