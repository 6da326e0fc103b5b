//! Rule contexts as XPath: which expression selects the nodes that a rule
//! applies to.

use vstd::prelude::*;

use crate::text::{chars_of, text_between, trim};

verus! {

/// How many characters of `text` come before its first `|` outside brackets
/// and quotes, where `quote` is the quotation mark that the text begins
/// inside of and `depth` the number of open brackets.
pub open spec fn union_bar(text: Seq<char>, quote: Option<char>, depth: nat) -> Option<nat>
    decreases text.len(),
{
    if text.len() == 0 {
        None
    } else {
        let c = text[0];
        let behind = match quote {
            Some(mark) => union_bar(
                text.skip(1),
                if c == mark {
                    None
                } else {
                    quote
                },
                depth,
            ),
            None => union_bar(
                text.skip(1),
                if c == '\'' || c == '"' {
                    Some(c)
                } else {
                    None
                },
                if c == '[' || c == '(' {
                    depth + 1
                } else if (c == ']' || c == ')') && depth > 0 {
                    (depth - 1) as nat
                } else {
                    depth
                },
            ),
        };
        if quote is None && depth == 0 && c == '|' {
            Some(0)
        } else {
            match behind {
                Some(n) => Some(n + 1),
                None => None,
            }
        }
    }
}

/// The alternatives of a union: the parts of `text` between its `|`s outside
/// brackets and quotes.
pub open spec fn alternatives(text: Seq<char>) -> Seq<Seq<char>>
    decreases text.len(),
{
    match union_bar(text, None, 0) {
        Some(n) => if n < text.len() {
            seq![text.take(n as int)] + alternatives(text.skip(n as int + 1))
        } else {
            seq![text]
        },
        None => seq![text],
    }
}

/// The path that selects the nodes of one alternative of a context.
pub open spec fn alternative_path(alternative: Seq<char>) -> Seq<char> {
    if crate::text::trimmed(alternative) == "/"@ {
        alternative
    } else {
        "descendant-or-self::node()/"@ + alternative
    }
}

/// The union of the paths of `parts`.
pub open spec fn union_path(parts: Seq<Seq<char>>) -> Seq<char>
    decreases parts.len(),
{
    if parts.len() == 0 {
        seq![]
    } else if parts.len() == 1 {
        alternative_path(parts[0])
    } else {
        union_path(parts.drop_last()) + "|"@ + alternative_path(parts.last())
    }
}

/// The path that selects the nodes a rule with this context applies to.
pub open spec fn context_path(context: Seq<char>) -> Seq<char> {
    union_path(alternatives(context))
}

/// The quotation mark that a character opens or closes, given the one that is
/// open before it.
fn quote_behind(c: char, quote: Option<char>) -> (result: Option<char>)
    ensures
        result == (match quote {
            Some(mark) => if c == mark {
                None
            } else {
                quote
            },
            None => if c == '\'' || c == '"' {
                Some(c)
            } else {
                None
            },
        }),
{
    match quote {
        Some(mark) => {
            if c == mark {
                None
            } else {
                quote
            }
        },
        None => {
            if c == '\'' || c == '"' {
                Some(c)
            } else {
                None
            }
        },
    }
}

/// The alternatives of a union: the parts of `context` between its `|`s
/// outside brackets and quotes.
pub fn split_top_level_union(context: &str) -> (result: Vec<String>)
    ensures
        result.deep_view() == alternatives(context@),
        result@.len() > 0,
{
    let chars = chars_of(context);
    let mut parts: Vec<String> = Vec::new();
    let mut from: usize = 0;
    let mut quote: Option<char> = None;
    let mut depth: usize = 0;
    let mut i: usize = 0;
    assert(chars@.skip(0) == chars@);
    assert(parts.deep_view() + alternatives(chars@) == alternatives(chars@));
    while i < chars.len()
        invariant
            from <= i <= chars@.len(),
            depth <= i,
            union_bar(chars@.skip(from as int), None, 0) == (match union_bar(
                chars@.skip(i as int),
                quote,
                depth as nat,
            ) {
                Some(n) => Some((n + (i - from)) as nat),
                None => None,
            }),
            parts.deep_view() + alternatives(chars@.skip(from as int)) == alternatives(chars@),
        decreases chars@.len() - i,
    {
        let c = chars[i];
        let ghost rest = chars@.skip(i as int);
        assert(rest[0] == c);
        assert(rest.skip(1) == chars@.skip(i + 1));
        if quote.is_none() && depth == 0 && c == '|' {
            let ghost before = parts.deep_view();
            let ghost part = chars@.subrange(from as int, i as int);
            let ghost behind = chars@.skip(from as int);
            parts.push(text_between(&chars, from, i));
            assert(parts.deep_view() == before.push(part));
            proof {
                assert(behind.take(i - from) == part);
                assert(behind.skip(i - from + 1) == chars@.skip(i + 1));
                assert(before + (seq![part] + alternatives(chars@.skip(i + 1)))
                    == parts.deep_view() + alternatives(chars@.skip(i + 1)));
            }
            from = i + 1;
        } else {
            if quote.is_none() {
                if c == '[' || c == '(' {
                    depth += 1;
                } else if (c == ']' || c == ')') && depth > 0 {
                    depth -= 1;
                }
            }
            quote = quote_behind(c, quote);
        }
        i += 1;
    }
    let ghost before = parts.deep_view();
    let ghost part = chars@.skip(from as int);
    assert(chars@.skip(i as int).len() == 0);
    assert(chars@.subrange(from as int, i as int) == part);
    parts.push(text_between(&chars, from, i));
    assert(parts.deep_view() == before.push(part));
    assert(before + seq![part] == parts.deep_view());
    parts
}

/// The path that selects the nodes of one alternative of a context.
fn path_of_alternative(alternative: &str) -> (result: String)
    ensures
        result@ == alternative_path(alternative@),
{
    if trim(alternative).as_str().eq("/") {
        alternative.to_owned()
    } else {
        let mut path = "descendant-or-self::node()/".to_owned();
        path.push_str(alternative);
        path
    }
}

/// The path that selects the nodes a rule with this context applies to.
pub fn path_of_context(context: &str) -> (result: String)
    ensures
        result@ == context_path(context@),
{
    let parts = split_top_level_union(context);
    let ghost views = parts.deep_view();
    let mut path = path_of_alternative(parts[0].as_str());
    let mut i: usize = 1;
    while i < parts.len()
        invariant
            1 <= i <= parts@.len(),
            views == parts.deep_view(),
            path@ == union_path(views.take(i as int)),
        decreases parts@.len() - i,
    {
        let alternative = path_of_alternative(parts[i].as_str());
        path.push_str("|");
        path.push_str(alternative.as_str());
        i += 1;
        assert(views.take(i as int).drop_last() == views.take(i - 1));
        assert(views.take(i as int).last() == parts@[i - 1]@);
    }
    assert(views.take(i as int) == views);
    path
}

} // verus!
