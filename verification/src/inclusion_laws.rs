//! What inclusion is for: an expanded text is the text with each inclusion
//! replaced, in its place, by the element that its reference leads to.

use vstd::prelude::*;

use crate::error::{ParseErrorView, Position};
use crate::inclusion;
use crate::inclusion::{Answer, InclusionView};
use crate::resolver::{ResolveError, SchemaResolver, SchemaSource};
use crate::schema::SchemaView;
use crate::schema_laws;
use crate::xml;
use crate::xml::XmlTree;

verus! {

/// Whether element `n` is this inclusion: its extent, its reference and its
/// position.
pub open spec fn declares_inclusion(tree: XmlTree, n: int, inclusion: InclusionView) -> bool {
    &&& inclusion.start == tree.nodes[n].start
    &&& inclusion.end == tree.nodes[n].end
    &&& tree.attribute(n, "href"@) == Some(inclusion.href)
    &&& inclusion.position == tree.position(n)
}

pub open spec fn inclusion_says(tree: XmlTree) -> spec_fn(int, InclusionView) -> bool {
    |n: int, inclusion: InclusionView| declares_inclusion(tree, n, inclusion)
}

/// The inclusions of a document are its `<include>` elements, in document
/// order and at any depth, each with its own extent, reference and position.
pub proof fn inclusions_are_the_include_elements(tree: XmlTree, list: Seq<InclusionView>)
    ensures
        tree.inclusions() == Ok::<Seq<InclusionView>, ParseErrorView>(list)
            <==> schema_laws::is_each(
            schema_laws::tagged(tree, tree.descendants(tree.root_element()->0), "include"@),
            inclusion_says(tree),
            list,
        ),
{
    let read = tree.inclusion_reader();
    let says = inclusion_says(tree);
    assert forall|c: int, item: InclusionView| #[trigger] says(c, item) <==> read(c) == Ok::<
        InclusionView,
        ParseErrorView,
    >(item) by {
        if declares_inclusion(tree, c, item) {
            assert(item == InclusionView {
                start: tree.nodes[c].start,
                end: tree.nodes[c].end,
                href: item.href,
                position: tree.position(c),
            });
        }
    }
    schema_laws::lemma_collected(
        tree,
        tree.descendants(tree.root_element()->0),
        "include"@,
        read,
        says,
        list,
    );
}

/// The inclusions of a text are those of its tree.
pub proof fn the_inclusions_of_a_text_are_those_of_its_tree(characters: Seq<char>)
    ensures
        match xml::xml_nodes(characters) {
            Err(message) => inclusion::inclusions_in(characters) == Err::<
                Seq<InclusionView>,
                ParseErrorView,
            >(ParseErrorView::InvalidXml(message)),
            Ok(nodes) => inclusion::inclusions_in(characters) == (XmlTree {
                text: characters,
                nodes,
            }).inclusions(),
        },
{
}

/// What can be included: the root element of a text, where it is a Schematron
/// element other than `<schema>`. Anything else is refused, at the position of
/// the inclusion.
pub proof fn only_fragments_can_be_included(
    resolved: Seq<char>,
    href: Seq<char>,
    position: Position,
    source: Seq<char>,
)
    ensures
        ({
            let outcome = inclusion::fragment(resolved, href, position);
            match xml::xml_nodes(resolved) {
                Err(message) => outcome == Err::<Seq<char>, ParseErrorView>(
                    ParseErrorView::InvalidXml(message),
                ),
                Ok(nodes) => {
                    let tree = XmlTree { text: resolved, nodes };
                    let root = tree.root_element()->0;
                    &&& outcome == Ok::<Seq<char>, ParseErrorView>(source) <==> {
                        &&& tree.is_schematron(root)
                        &&& tree.nodes[root].name != "schema"@
                        &&& source == xml::slice(
                            resolved,
                            tree.nodes[root].start as int,
                            tree.nodes[root].end as int,
                        )
                    }
                    &&& outcome matches Err(error) ==> error == ParseErrorView::InvalidInclude {
                        href,
                        reason: if tree.is_schematron(root) {
                            "included content must be a fragment, not a whole <schema> (ISO reference: \"use include to include fragments, not a whole schema\")"@
                        } else {
                            "included root element is not in the Schematron namespace"@
                        },
                        position,
                    }
                },
            }
        }),
{
}

/// `text` from byte offset `cursor` on, with the inclusions `list` replaced by
/// `sources`.
pub open spec fn assembled(
    text: Seq<char>,
    list: Seq<InclusionView>,
    sources: Seq<Seq<char>>,
    cursor: int,
) -> Seq<char>
    decreases list.len(),
{
    if list.len() == 0 {
        xml::slice(text, cursor, vstd::utf8::encode_utf8(text).len() as int)
    } else {
        xml::slice(text, cursor, list[0].start as int) + sources[0] + assembled(
            text,
            list.skip(1),
            sources.skip(1),
            list[0].end as int,
        )
    }
}

/// What identifies the reference of an inclusion among those being loaded.
pub open spec fn key_of(base_uri: Seq<char>, inclusion: InclusionView) -> Seq<char> {
    base_uri + "::"@ + inclusion.href
}

/// What an answer to the reference of an inclusion comes to: the source of the
/// element that it leads to, itself expanded with this reference being loaded.
pub open spec fn comes_to(
    base_uri: Seq<char>,
    loading: Seq<Seq<char>>,
    inclusion: InclusionView,
    answer: Answer,
) -> Option<Result<Seq<char>, ParseErrorView>> {
    match answer {
        Answer::Failed(message) => Some(
            Err(
                ParseErrorView::UnresolvableInclude {
                    href: inclusion.href,
                    message,
                    position: inclusion.position,
                },
            ),
        ),
        Answer::Found { text, base_uri: found_base, nested } => match inclusion::expanded(
            text,
            found_base,
            loading.push(key_of(base_uri, inclusion)),
            nested,
        ) {
            None => None,
            Some(Err(error)) => Some(Err(error)),
            Some(Ok(resolved)) => Some(
                inclusion::fragment(resolved, inclusion.href, inclusion.position),
            ),
        },
    }
}

/// Where the text before inclusion `k` begins: behind the inclusion before it.
pub open spec fn behind(list: Seq<InclusionView>, k: int, cursor: int) -> int {
    if k == 0 {
        cursor
    } else {
        list[k - 1].end as int
    }
}

/// Whether inclusion `k` is replaced by this source.
pub open spec fn supplies(
    base_uri: Seq<char>,
    loading: Seq<Seq<char>>,
    list: Seq<InclusionView>,
    cursor: int,
    answers: Seq<Answer>,
    k: int,
    source: Seq<char>,
) -> bool {
    &&& k < answers.len()
    &&& behind(list, k, cursor) <= list[k].start
    &&& !loading.contains(key_of(base_uri, list[k]))
    &&& comes_to(base_uri, loading, list[k], answers[k]) == Some(
        Ok::<Seq<char>, ParseErrorView>(source),
    )
}

/// Whether every inclusion is replaced, by these sources, with one answer each.
pub open spec fn all_supplied(
    base_uri: Seq<char>,
    loading: Seq<Seq<char>>,
    list: Seq<InclusionView>,
    cursor: int,
    answers: Seq<Answer>,
    sources: Seq<Seq<char>>,
) -> bool {
    &&& sources.len() == list.len()
    &&& answers.len() == list.len()
    &&& forall|k: int|
        0 <= k < list.len() ==> supplies(
            base_uri,
            loading,
            list,
            cursor,
            answers,
            k,
            #[trigger] sources[k],
        )
}

/// Whether inclusion `k` is refused with this error, after as many answers as
/// were asked for.
pub open spec fn is_refused(
    base_uri: Seq<char>,
    loading: Seq<Seq<char>>,
    list: Seq<InclusionView>,
    cursor: int,
    answers: Seq<Answer>,
    k: int,
    error: ParseErrorView,
) -> bool {
    if list[k].start < behind(list, k, cursor) {
        answers.len() == k && error == ParseErrorView::UnexpectedElement {
            element: "include"@,
            position: list[k].position,
        }
    } else if loading.contains(key_of(base_uri, list[k])) {
        answers.len() == k && error == ParseErrorView::CyclicInclude {
            href: list[k].href,
            position: list[k].position,
        }
    } else {
        answers.len() == k + 1 && comes_to(base_uri, loading, list[k], answers[k]) == Some(
            Err::<Seq<char>, ParseErrorView>(error),
        )
    }
}

/// Whether inclusion `k` is the first that is not replaced, and is refused with
/// this error.
pub open spec fn is_first_refused(
    base_uri: Seq<char>,
    loading: Seq<Seq<char>>,
    list: Seq<InclusionView>,
    cursor: int,
    answers: Seq<Answer>,
    sources: Seq<Seq<char>>,
    error: ParseErrorView,
) -> bool {
    let k = sources.len() as int;
    &&& k < list.len()
    &&& forall|i: int|
        0 <= i < k ==> supplies(
            base_uri,
            loading,
            list,
            cursor,
            answers,
            i,
            #[trigger] sources[i],
        )
    &&& is_refused(base_uri, loading, list, cursor, answers, k, error)
}

proof fn lemma_supplies_rest(
    base_uri: Seq<char>,
    loading: Seq<Seq<char>>,
    list: Seq<InclusionView>,
    cursor: int,
    answers: Seq<Answer>,
    k: int,
    source: Seq<char>,
)
    requires
        list.len() > 0,
        answers.len() > 0,
        0 <= k < list.len() - 1,
    ensures
        supplies(
            base_uri,
            loading,
            list.skip(1),
            list[0].end as int,
            answers.skip(1),
            k,
            source,
        ) <==> supplies(base_uri, loading, list, cursor, answers, k + 1, source),
{
    assert(list.skip(1)[k] == list[k + 1]);
    assert(k < answers.skip(1).len() ==> answers.skip(1)[k] == answers[k + 1]);
    assert(behind(list.skip(1), k, list[0].end as int) == behind(list, k + 1, cursor));
}

proof fn lemma_assembled(
    text: Seq<char>,
    base_uri: Seq<char>,
    loading: Seq<Seq<char>>,
    list: Seq<InclusionView>,
    cursor: int,
    answers: Seq<Answer>,
    sources: Seq<Seq<char>>,
)
    requires
        all_supplied(base_uri, loading, list, cursor, answers, sources),
    ensures
        inclusion::spliced(text, base_uri, loading, list, cursor, answers) == Some(
            Ok::<Seq<char>, ParseErrorView>(assembled(text, list, sources, cursor)),
        ),
    decreases list.len(),
{
    if list.len() > 0 {
        let rest = list.skip(1);
        let more = answers.skip(1);
        let others = sources.skip(1);
        assert(supplies(base_uri, loading, list, cursor, answers, 0, sources[0]));
        assert forall|k: int| 0 <= k < rest.len() implies supplies(
            base_uri,
            loading,
            rest,
            list[0].end as int,
            more,
            k,
            #[trigger] others[k],
        ) by {
            assert(others[k] == sources[k + 1]);
            lemma_supplies_rest(base_uri, loading, list, cursor, answers, k, others[k]);
        }
        lemma_assembled(text, base_uri, loading, rest, list[0].end as int, more, others);
        assert(key_of(base_uri, list[0]) == inclusion::reference_key(base_uri, list[0].href));
        let prefix = xml::slice(text, cursor, list[0].start as int) + sources[0];
        assert(inclusion::spliced(text, base_uri, loading, list, cursor, answers)
            == inclusion::with_prefix(
            prefix,
            inclusion::spliced(text, base_uri, loading, rest, list[0].end as int, more),
        ));
    }
}

proof fn lemma_spliced(
    text: Seq<char>,
    base_uri: Seq<char>,
    loading: Seq<Seq<char>>,
    list: Seq<InclusionView>,
    cursor: int,
    answers: Seq<Answer>,
) -> (sources: Seq<Seq<char>>)
    ensures
        match inclusion::spliced(text, base_uri, loading, list, cursor, answers) {
            None => true,
            Some(Ok(_)) => all_supplied(base_uri, loading, list, cursor, answers, sources),
            Some(Err(error)) => is_first_refused(
                base_uri,
                loading,
                list,
                cursor,
                answers,
                sources,
                error,
            ),
        },
    decreases list.len(),
{
    let outcome = inclusion::spliced(text, base_uri, loading, list, cursor, answers);
    let none: Seq<Seq<char>> = seq![];
    if list.len() == 0 {
        none
    } else {
        assert(key_of(base_uri, list[0]) == inclusion::reference_key(base_uri, list[0].href));
        if list[0].start < cursor || loading.contains(key_of(base_uri, list[0])) || answers.len()
            == 0 {
            none
        } else {
            match comes_to(base_uri, loading, list[0], answers[0]) {
                None => none,
                Some(Err(error)) => none,
                Some(Ok(source)) => {
                    let rest = list.skip(1);
                    let more = answers.skip(1);
                    let end = list[0].end as int;
                    let others = lemma_spliced(text, base_uri, loading, rest, end, more);
                    let prefix = xml::slice(text, cursor, list[0].start as int) + source;
                    let tail = inclusion::spliced(text, base_uri, loading, rest, end, more);
                    assert(outcome == inclusion::with_prefix(prefix, tail));
                    let sources = seq![source] + others;
                    assert(supplies(base_uri, loading, list, cursor, answers, 0, source));
                    if outcome is Some {
                        assert forall|k: int| 0 <= k < sources.len() && k
                            < list.len() implies supplies(
                            base_uri,
                            loading,
                            list,
                            cursor,
                            answers,
                            k,
                            #[trigger] sources[k],
                        ) by {
                            if k > 0 {
                                assert(sources[k] == others[k - 1]);
                                lemma_supplies_rest(
                                    base_uri,
                                    loading,
                                    list,
                                    cursor,
                                    answers,
                                    k - 1,
                                    others[k - 1],
                                );
                            }
                        }
                        if let Some(Err(error)) = outcome {
                            let k = others.len() as int;
                            assert(rest[k] == list[k + 1]);
                            assert(behind(rest, k, end) == behind(list, k + 1, cursor));
                            assert(k < more.len() ==> more[k] == answers[k + 1]);
                            assert(is_refused(base_uri, loading, rest, end, more, k, error));
                            assert(is_refused(
                                base_uri,
                                loading,
                                list,
                                cursor,
                                answers,
                                k + 1,
                                error,
                            ));
                        }
                    }
                    sources
                },
            }
        }
    }
}

/// An expansion that succeeds is the text with each inclusion replaced, where
/// it stands, by the source of the element that its reference leads to, and
/// with nothing else changed; every reference is asked for once, and none is
/// being loaded already.
pub proof fn an_expansion_replaces_every_inclusion(
    characters: Seq<char>,
    base_uri: Seq<char>,
    loading: Seq<Seq<char>>,
    answers: Seq<Answer>,
    result: Seq<char>,
)
    ensures
        inclusion::expanded(characters, base_uri, loading, answers) == Some(
            Ok::<Seq<char>, ParseErrorView>(result),
        ) <==> inclusion::inclusions_in(characters) is Ok && exists|sources: Seq<Seq<char>>|
            #[trigger]
            all_supplied(
                base_uri,
                loading,
                inclusion::inclusions_in(characters)->Ok_0,
                0,
                answers,
                sources,
            ) && result == assembled(
                characters,
                inclusion::inclusions_in(characters)->Ok_0,
                sources,
                0,
            ),
{
    if let Ok(list) = inclusion::inclusions_in(characters) {
        assert(inclusion::expanded(characters, base_uri, loading, answers) == inclusion::spliced(
            characters,
            base_uri,
            loading,
            list,
            0,
            answers,
        ));
        let found = lemma_spliced(characters, base_uri, loading, list, 0, answers);
        if all_supplied(base_uri, loading, list, 0, answers, found) {
            lemma_assembled(characters, base_uri, loading, list, 0, answers, found);
        }
        assert forall|sources: Seq<Seq<char>>| #[trigger]
            all_supplied(base_uri, loading, list, 0, answers, sources) implies inclusion::expanded(
            characters,
            base_uri,
            loading,
            answers,
        ) == Some(
            Ok::<Seq<char>, ParseErrorView>(assembled(characters, list, sources, 0)),
        ) by {
            lemma_assembled(characters, base_uri, loading, list, 0, answers, sources);
        }
    }
}

/// An expansion fails as the first inclusion that cannot be replaced does; a
/// text whose inclusions cannot be read fails so.
pub proof fn an_expansion_fails_at_the_first_refused_inclusion(
    characters: Seq<char>,
    base_uri: Seq<char>,
    loading: Seq<Seq<char>>,
    answers: Seq<Answer>,
    error: ParseErrorView,
)
    requires
        inclusion::expanded(characters, base_uri, loading, answers) == Some(
            Err::<Seq<char>, ParseErrorView>(error),
        ),
    ensures
        match inclusion::inclusions_in(characters) {
            Err(reason) => error == reason && answers.len() == 0,
            Ok(list) => exists|sources: Seq<Seq<char>>| #[trigger]
                is_first_refused(base_uri, loading, list, 0, answers, sources, error),
        },
{
    if let Ok(list) = inclusion::inclusions_in(characters) {
        let sources = lemma_spliced(characters, base_uri, loading, list, 0, answers);
        assert(is_first_refused(base_uri, loading, list, 0, answers, sources, error));
    }
}

/// What parsing with a resolver gives is what parsing the expanded text gives,
/// or the error of the expansion.
pub proof fn the_expanded_text_is_parsed(
    characters: Seq<char>,
    base_uri: Seq<char>,
    answers: Seq<Answer>,
    outcome: Result<SchemaView, ParseErrorView>,
)
    ensures
        inclusion::parsed_with(characters, base_uri, answers) == Some(outcome) <==> {
            ||| exists|expansion: Seq<char>|
                inclusion::expanded(characters, base_uri, seq![], answers) == Some(
                    Ok::<Seq<char>, ParseErrorView>(expansion),
                ) && outcome == #[trigger] crate::parser::parsed(expansion)
            ||| outcome is Err && inclusion::expanded(characters, base_uri, seq![], answers)
                == Some(Err::<Seq<char>, ParseErrorView>(outcome->Err_0))
        },
{
    if let Some(Ok(expansion)) = inclusion::expanded(characters, base_uri, seq![], answers) {
        assert(crate::parser::parsed(expansion) == crate::parser::parsed(expansion));
    }
}

/// The references of a text are resolved in order, each by its own `href`
/// against the base URI of the text that it stands in.
pub proof fn references_are_resolved_against_their_own_text<R: SchemaResolver>(
    resolver: R,
    characters: Seq<char>,
    base_uri: Seq<char>,
    answers: Seq<Answer>,
    i: int,
)
    requires
        inclusion::answers_to(resolver, characters, base_uri, answers),
        0 <= i < answers.len(),
    ensures
        inclusion::inclusions_in(characters) is Ok,
        i < inclusion::inclusions_in(characters)->Ok_0.len(),
        match answers[i] {
            Answer::Failed(message) => exists|h: &str, b: &str, error: ResolveError|
                h@ == inclusion::inclusions_in(characters)->Ok_0[i].href && b@ == base_uri
                    && error.spec_message() == message && #[trigger] call_ensures(
                    R::resolve,
                    (&resolver, h, b),
                    Err(error),
                ),
            Answer::Found { text, base_uri: found_base, nested } => {
                &&& exists|h: &str, b: &str, source: SchemaSource|
                    h@ == inclusion::inclusions_in(characters)->Ok_0[i].href && b@ == base_uri
                        && source.spec_text() == text && source.spec_base_uri() == found_base
                        && #[trigger] call_ensures(R::resolve, (&resolver, h, b), Ok(source))
                &&& inclusion::answers_to(resolver, text, found_base, nested)
            },
        },
{
    let list = inclusion::inclusions_in(characters)->Ok_0;
    assert(inclusion::is_answer(resolver, list[i].href, base_uri, answers[i]));
}

} // verus!
