//! Laws of text operations and of rule contexts.

use vstd::prelude::*;

use crate::context;
use crate::grammar;
use crate::schema::MessagePartView;
use crate::semantics::Scope;
use crate::text;

verus! {

proof fn lemma_trimmed_start(s: Seq<char>)
    ensures
        text::trimmed_start(s).len() > 0 ==> !text::unicode_whitespace(text::trimmed_start(s)[0]),
        exists|k: int| 0 <= k <= s.len() && text::trimmed_start(s) == #[trigger] s.skip(k),
    decreases s.len(),
{
    if s.len() > 0 && text::unicode_whitespace(s[0]) {
        lemma_trimmed_start(s.skip(1));
        let k = choose|k: int|
            0 <= k <= s.skip(1).len() && text::trimmed_start(s.skip(1)) == #[trigger] s.skip(
                1,
            ).skip(k);
        assert(s.skip(1).skip(k) == s.skip(k + 1));
    } else {
        assert(s == s.skip(0));
    }
}

proof fn lemma_trimmed_end(s: Seq<char>)
    ensures
        text::trimmed_end(s).len() > 0 ==> !text::unicode_whitespace(text::trimmed_end(s).last()),
        exists|k: int| 0 <= k <= s.len() && text::trimmed_end(s) == #[trigger] s.take(k),
    decreases s.len(),
{
    if s.len() > 0 && text::unicode_whitespace(s.last()) {
        lemma_trimmed_end(s.drop_last());
        let k = choose|k: int|
            0 <= k <= s.drop_last().len() && text::trimmed_end(s.drop_last())
                == #[trigger] s.drop_last().take(k);
        assert(s.drop_last().take(k) == s.take(k));
    } else {
        assert(s == s.take(s.len() as int));
    }
}

/// A trimmed text has no whitespace at either end, and trimming it again
/// changes nothing.
pub proof fn trimming_is_final(s: Seq<char>)
    ensures
        text::trimmed(s).len() > 0 ==> !text::unicode_whitespace(text::trimmed(s)[0])
            && !text::unicode_whitespace(text::trimmed(s).last()),
        text::trimmed(text::trimmed(s)) == text::trimmed(s),
{
    let start = text::trimmed_start(s);
    lemma_trimmed_start(s);
    lemma_trimmed_end(start);
    let k = choose|k: int|
        0 <= k <= start.len() && text::trimmed_end(start) == #[trigger] start.take(k);
    assert(text::trimmed(s) == start.take(k));
}

/// Whether `part` is what is left of `s` without the whitespace around it: a
/// stretch of `s` with only whitespace before and behind it, which neither
/// begins nor ends with whitespace.
pub open spec fn is_trim(s: Seq<char>, part: Seq<char>) -> bool {
    exists|from: int, to: int| #[trigger] is_trim_at(s, part, from, to)
}

/// The same, with the stretch from `from` to `to`.
pub open spec fn is_trim_at(s: Seq<char>, part: Seq<char>, from: int, to: int) -> bool {
    &&& 0 <= from <= to <= s.len()
    &&& part == s.subrange(from, to)
    &&& forall|i: int|
        0 <= i < s.len() && !(from <= i < to) ==> text::unicode_whitespace(#[trigger] s[i])
    &&& from < to ==> !text::unicode_whitespace(s[from]) && !text::unicode_whitespace(s[to - 1])
}

proof fn lemma_start_is_whitespace(s: Seq<char>) -> (k: int)
    ensures
        0 <= k <= s.len(),
        text::trimmed_start(s) == s.skip(k),
        forall|i: int| 0 <= i < k ==> text::unicode_whitespace(#[trigger] s[i]),
        k < s.len() ==> !text::unicode_whitespace(s[k]),
    decreases s.len(),
{
    if s.len() > 0 && text::unicode_whitespace(s[0]) {
        let k = lemma_start_is_whitespace(s.skip(1));
        assert(s.skip(1).skip(k) == s.skip(k + 1));
        assert forall|i: int| 0 <= i < k + 1 implies text::unicode_whitespace(#[trigger] s[i]) by {
            if i > 0 {
                assert(s.skip(1)[i - 1] == s[i]);
            }
        }
        k + 1
    } else {
        assert(s == s.skip(0));
        0
    }
}

proof fn lemma_end_is_whitespace(s: Seq<char>) -> (k: int)
    ensures
        0 <= k <= s.len(),
        text::trimmed_end(s) == s.take(k),
        forall|i: int| k <= i < s.len() ==> text::unicode_whitespace(#[trigger] s[i]),
        k > 0 ==> !text::unicode_whitespace(s[k - 1]),
    decreases s.len(),
{
    if s.len() > 0 && text::unicode_whitespace(s.last()) {
        let k = lemma_end_is_whitespace(s.drop_last());
        assert(s.drop_last().take(k) == s.take(k));
        assert forall|i: int| k <= i < s.len() implies text::unicode_whitespace(
            #[trigger] s[i],
        ) by {
            if i < s.len() - 1 {
                assert(s.drop_last()[i] == s[i]);
            }
        }
        k
    } else {
        assert(s == s.take(s.len() as int));
        s.len() as int
    }
}

/// Trimming takes away the whitespace at both ends, all of it and nothing
/// else.
pub proof fn trimming_takes_the_whitespace_around(s: Seq<char>, part: Seq<char>)
    ensures
        text::trimmed(s) == part <==> is_trim(s, part),
{
    let from = lemma_start_is_whitespace(s);
    let rest = s.skip(from);
    let k = lemma_end_is_whitespace(rest);
    let whole = text::trimmed(s);
    assert(whole == rest.take(k));
    assert(rest.take(k) == s.subrange(from, from + k));
    assert forall|i: int|
        0 <= i < s.len() && !(from <= i < from + k) implies text::unicode_whitespace(
        #[trigger] s[i],
    ) by {
        if i >= from + k {
            assert(rest[i - from] == s[i]);
        }
    }
    if k > 0 {
        assert(rest[0] == s[from] && rest[k - 1] == s[from + k - 1]);
    }
    assert(is_trim_at(s, whole, from, from + k));
    if is_trim(s, part) {
        let (a, b) = choose|a: int, b: int| #[trigger] is_trim_at(s, part, a, b);
        if a == b {
            if k > 0 {
                assert(text::unicode_whitespace(s[from]));
            }
            assert(part == whole);
        } else {
            if k == 0 {
                assert(text::unicode_whitespace(s[a]));
            }
            if a < from || a >= from + k {
                assert(text::unicode_whitespace(s[a]));
            }
            if from < a || from >= b {
                assert(text::unicode_whitespace(s[from]));
            }
            if b - 1 >= from + k || b - 1 < from {
                assert(text::unicode_whitespace(s[b - 1]));
            }
            if from + k - 1 >= b {
                assert(text::unicode_whitespace(s[from + k - 1]));
            }
            assert(a == from && b == from + k);
        }
    }
}

/// Reported messages have no whitespace around them.
pub proof fn messages_are_trimmed(scope: Scope, parts: Seq<MessagePartView>)
    ensures
        scope.rendered(parts) matches Ok(message) ==> text::trimmed(message) == message,
{
    if let Ok(texts) = scope.part_texts(parts) {
        trimming_is_final(crate::error::joined(texts));
    }
}

proof fn lemma_word_len(s: Seq<char>)
    ensures
        text::word_len(s) <= s.len(),
        forall|i: int| 0 <= i < text::word_len(s) ==> !text::unicode_whitespace(#[trigger] s[i]),
    decreases s.len(),
{
    if s.len() > 0 && !text::unicode_whitespace(s[0]) {
        lemma_word_len(s.skip(1));
        assert forall|i: int| 0 <= i < text::word_len(s) implies !text::unicode_whitespace(
            #[trigger] s[i],
        ) by {
            if i > 0 {
                assert(s.skip(1)[i - 1] == s[i]);
            }
        }
    }
}

/// Whether `s` is not empty and holds no whitespace.
pub open spec fn is_word(s: Seq<char>) -> bool {
    &&& s.len() > 0
    &&& forall|i: int| 0 <= i < s.len() ==> !text::unicode_whitespace(#[trigger] s[i])
}

/// Words are not empty and hold no whitespace.
pub proof fn words_hold_no_whitespace(s: Seq<char>)
    ensures
        forall|w: int| 0 <= w < text::words(s).len() ==> is_word(#[trigger] text::words(s)[w]),
    decreases s.len(),
{
    if s.len() > 0 {
        if text::unicode_whitespace(s[0]) {
            words_hold_no_whitespace(s.skip(1));
            assert(text::words(s) == text::words(s.skip(1)));
        } else {
            lemma_word_len(s);
            let n = text::word_len(s) as int;
            assert(n > 0);
            words_hold_no_whitespace(s.skip(n));
            assert forall|w: int| 0 <= w < text::words(s).len() implies is_word(
                #[trigger] text::words(s)[w],
            ) by {
                if w == 0 {
                    assert(text::words(s)[0] == s.take(n));
                } else {
                    assert(text::words(s)[w] == text::words(s.skip(n))[w - 1]);
                }
            }
        }
    } else {
        assert(text::words(s).len() == 0);
    }
}

/// Replacing what does not occur changes nothing.
pub proof fn replacing_nothing_changes_nothing(
    s: Seq<char>,
    pattern: Seq<char>,
    replacement: Seq<char>,
)
    requires
        forall|k: int| 0 <= k <= s.len() ==> !text::starts_with(#[trigger] s.skip(k), pattern),
    ensures
        text::replaced(s, pattern, replacement) == s,
    decreases s.len(),
{
    if pattern.len() > 0 && s.len() >= pattern.len() {
        assert(s.skip(0) == s);
        assert forall|k: int| 0 <= k <= s.skip(1).len() implies !text::starts_with(
            #[trigger] s.skip(1).skip(k),
            pattern,
        ) by {
            assert(s.skip(1).skip(k) == s.skip(k + 1));
        }
        replacing_nothing_changes_nothing(s.skip(1), pattern, replacement);
        assert(seq![s[0]] + s.skip(1) == s);
    }
}

/// Substitution without parameters changes nothing.
pub proof fn no_parameters_no_substitution(s: Seq<char>)
    ensures
        grammar::substituted(s, seq![]) == s,
{
}

/// The first occurrence of a pattern is replaced where it stands, and the
/// search goes on behind it.
pub proof fn the_first_occurrence_is_replaced(
    s: Seq<char>,
    pattern: Seq<char>,
    replacement: Seq<char>,
    k: int,
)
    requires
        pattern.len() > 0,
        0 <= k <= s.len(),
        text::starts_with(s.skip(k), pattern),
        forall|i: int| 0 <= i < k ==> !text::starts_with(#[trigger] s.skip(i), pattern),
    ensures
        text::replaced(s, pattern, replacement) == s.take(k) + replacement + text::replaced(
            s.skip(k + pattern.len()),
            pattern,
            replacement,
        ),
    decreases k,
{
    assert(s.skip(0) == s);
    if k == 0 {
        assert(s.take(0) + replacement == replacement);
    } else {
        let rest = s.skip(1);
        assert(rest.skip(k - 1) == s.skip(k));
        assert forall|i: int| 0 <= i < k - 1 implies !text::starts_with(
            #[trigger] rest.skip(i),
            pattern,
        ) by {
            assert(rest.skip(i) == s.skip(i + 1));
        }
        the_first_occurrence_is_replaced(rest, pattern, replacement, k - 1);
        let behind = text::replaced(s.skip(k + pattern.len()), pattern, replacement);
        assert(rest.skip(k - 1 + pattern.len()) == s.skip(k + pattern.len()));
        assert(seq![s[0]] + (rest.take(k - 1) + replacement + behind) == s.take(k) + replacement
            + behind);
    }
}

/// A single parameter replaces its references, `$` and its name, and nothing
/// else: a text without them stays as it is.
pub proof fn a_parameter_replaces_its_references(s: Seq<char>, name: Seq<char>, value: Seq<char>)
    ensures
        grammar::substituted(s, seq![(name, value)]) == text::replaced(s, "$"@ + name, value),
        (forall|k: int| 0 <= k <= s.len() ==> !text::starts_with(#[trigger] s.skip(k), "$"@ + name))
            ==> grammar::substituted(s, seq![(name, value)]) == s,
{
    let params = seq![(name, value)];
    assert(params.drop_last().len() == 0);
    assert(grammar::substituted(s, params.drop_last()) == s);
    if forall|k: int|
        0 <= k <= s.len() ==> !text::starts_with(#[trigger] s.skip(k), "$"@ + name) {
        replacing_nothing_changes_nothing(s, "$"@ + name, value);
    }
}

/// Parameters are substituted one list after the other.
pub proof fn parameters_are_substituted_in_order(
    s: Seq<char>,
    first: Seq<(Seq<char>, Seq<char>)>,
    second: Seq<(Seq<char>, Seq<char>)>,
)
    ensures
        grammar::substituted(s, first + second) == grammar::substituted(
            grammar::substituted(s, first),
            second,
        ),
    decreases second.len(),
{
    if second.len() == 0 {
        assert(first + second == first);
    } else {
        assert((first + second).drop_last() == first + second.drop_last());
        assert((first + second).last() == second.last());
        parameters_are_substituted_in_order(s, first, second.drop_last());
    }
}

proof fn lemma_line_counts(s: Seq<char>)
    ensures
        crate::xml::line_breaks(s) <= s.len(),
        crate::xml::last_line_len(s) <= s.len(),
    decreases s.len(),
{
    if s.len() > 0 {
        lemma_line_counts(s.drop_last());
    }
}

/// Rows and columns count from one: the row is one more than the line breaks
/// before, the column one more than the characters before on the same line.
pub proof fn positions_count_from_one(before: Seq<char>)
    requires
        before.len() < u32::MAX,
    ensures
        crate::xml::position_after(before).row == 1 + crate::xml::line_breaks(before),
        crate::xml::position_after(before).col == 1 + crate::xml::last_line_len(before),
{
    lemma_line_counts(before);
}

/// `parts` with a `|` between each two.
pub open spec fn barred(parts: Seq<Seq<char>>) -> Seq<char>
    decreases parts.len(),
{
    if parts.len() == 0 {
        seq![]
    } else if parts.len() == 1 {
        parts[0]
    } else {
        parts[0] + "|"@ + barred(parts.skip(1))
    }
}

proof fn lemma_union_bar(s: Seq<char>, quote: Option<char>, depth: nat)
    ensures
        context::union_bar(s, quote, depth) matches Some(n) ==> n < s.len() && s[n as int] == '|',
    decreases s.len(),
{
    if s.len() > 0 {
        let c = s[0];
        lemma_union_bar(
            s.skip(1),
            match quote {
                Some(mark) => if c == mark {
                    None
                } else {
                    quote
                },
                None => if c == '\'' || c == '"' {
                    Some(c)
                } else {
                    None
                },
            },
            match quote {
                Some(_) => depth,
                None => if c == '[' || c == '(' {
                    depth + 1
                } else if (c == ']' || c == ')') && depth > 0 {
                    (depth - 1) as nat
                } else {
                    depth
                },
            },
        );
    }
}

/// Splitting a context into alternatives loses nothing: with bars between
/// them they are the context again.
pub proof fn alternatives_make_up_the_context(s: Seq<char>)
    ensures
        context::alternatives(s).len() > 0,
        barred(context::alternatives(s)) == s,
    decreases s.len(),
{
    lemma_union_bar(s, None, 0);
    if let Some(n) = context::union_bar(s, None, 0) {
        let rest = s.skip(n as int + 1);
        alternatives_make_up_the_context(rest);
        let parts = context::alternatives(s);
        assert(parts[0] == s.take(n as int));
        assert(parts.skip(1) == context::alternatives(rest));
        reveal_strlit("|");
        assert(s.take(n as int) + "|"@ + rest == s);
    }
}

/// A context with a single alternative is prefixed as a whole, unless it is
/// the root pattern, which stands as it is.
pub proof fn a_single_alternative_is_prefixed_whole(s: Seq<char>)
    requires
        context::union_bar(s, None, 0) is None,
    ensures
        context::context_path(s) == (if text::trimmed(s) == "/"@ {
            s
        } else {
            "descendant-or-self::node()/"@ + s
        }),
{
}

proof fn lemma_word_before(s: Seq<char>, c: char, rest: Seq<char>)
    requires
        text::unicode_whitespace(c),
    ensures
        text::word_len(s + seq![c] + rest) == text::word_len(s),
        text::word_len(s) <= s.len(),
    decreases s.len(),
{
    let all = s + seq![c] + rest;
    if s.len() == 0 {
        assert(all[0] == c);
    } else {
        assert(all[0] == s[0]);
        assert(all.skip(1) == s.skip(1) + seq![c] + rest);
        lemma_word_before(s.skip(1), c, rest);
    }
}

/// Whitespace separates words: the words of two texts with whitespace between
/// them are those of the first and then those of the second.
pub proof fn whitespace_separates_words(s: Seq<char>, c: char, rest: Seq<char>)
    requires
        text::unicode_whitespace(c),
    ensures
        text::words(s + seq![c] + rest) == text::words(s) + text::words(rest),
    decreases s.len(),
{
    let all = s + seq![c] + rest;
    if s.len() == 0 {
        assert(all[0] == c);
        assert(all.skip(1) == rest);
        assert(Seq::<Seq<char>>::empty() + text::words(rest) == text::words(rest));
    } else if text::unicode_whitespace(s[0]) {
        assert(all[0] == s[0]);
        assert(all.skip(1) == s.skip(1) + seq![c] + rest);
        whitespace_separates_words(s.skip(1), c, rest);
    } else {
        let n = text::word_len(s) as int;
        lemma_word_before(s, c, rest);
        assert(all[0] == s[0]);
        assert(n > 0);
        assert(all.take(n) == s.take(n));
        assert(all.skip(n) == s.skip(n) + seq![c] + rest);
        whitespace_separates_words(s.skip(n), c, rest);
        assert(seq![s.take(n)] + (text::words(s.skip(n)) + text::words(rest)) == (seq![s.take(n)]
            + text::words(s.skip(n))) + text::words(rest));
    }
}

proof fn lemma_whole_word(s: Seq<char>)
    requires
        forall|i: int| 0 <= i < s.len() ==> !text::unicode_whitespace(#[trigger] s[i]),
    ensures
        text::word_len(s) == s.len(),
    decreases s.len(),
{
    if s.len() > 0 {
        assert forall|i: int| 0 <= i < s.skip(1).len() implies !text::unicode_whitespace(
            #[trigger] s.skip(1)[i],
        ) by {
            assert(s.skip(1)[i] == s[i + 1]);
        }
        lemma_whole_word(s.skip(1));
    }
}

/// A text without whitespace is a single word, and an empty one holds none.
pub proof fn a_word_is_itself(s: Seq<char>)
    ensures
        is_word(s) ==> text::words(s) == seq![s],
        s.len() == 0 ==> text::words(s) == Seq::<Seq<char>>::empty(),
{
    if is_word(s) {
        let n = s.len() as int;
        lemma_whole_word(s);
        assert(s.take(n) == s);
        assert(s.skip(n).len() == 0);
        assert(text::words(s.skip(n)) == Seq::<Seq<char>>::empty());
        assert(seq![s] + Seq::<Seq<char>>::empty() == seq![s]);
    }
}

/// Whether two characters are the same, or a capital and the small form of one
/// ASCII letter.
pub open spec fn same_letter(left: char, right: char) -> bool {
    ||| left == right
    ||| 'A' <= left <= 'Z' && right as int == left as int + 32
    ||| 'A' <= right <= 'Z' && left as int == right as int + 32
}

proof fn lemma_same_letter(left: char, right: char)
    ensures
        text::ascii_lower(left) == text::ascii_lower(right) <==> same_letter(left, right),
{
    assert('A' <= left <= 'Z' ==> text::ascii_lower(left) as int == left as int + 32);
    assert('A' <= right <= 'Z' ==> text::ascii_lower(right) as int == right as int + 32);
}

/// Two texts are the same but for case exactly where they have the same
/// letters at every place.
pub proof fn case_is_that_of_ascii_letters(left: Seq<char>, right: Seq<char>)
    ensures
        text::same_ignoring_case(left, right) <==> left.len() == right.len() && forall|i: int|
            0 <= i < left.len() ==> same_letter(#[trigger] left[i], right[i]),
{
    assert forall|i: int| 0 <= i < left.len() implies (text::ascii_lower(#[trigger] left[i])
        == text::ascii_lower(right[i]) <==> same_letter(left[i], right[i])) by {
        lemma_same_letter(left[i], right[i]);
    }
}

/// The number that decimal digits stand for.
pub open spec fn number_of(digits: Seq<char>) -> int
    decreases digits.len(),
{
    if digits.len() == 0 {
        0
    } else {
        10 * number_of(digits.drop_last()) + (digits.last() as int - '0' as int)
    }
}

/// A decimal notation is made of digits, has no leading zero but for zero
/// itself, and stands for its number.
pub proof fn decimals_stand_for_their_numbers(n: nat)
    ensures
        text::decimal(n).len() > 0,
        forall|i: int|
            0 <= i < text::decimal(n).len() ==> '0' <= #[trigger] text::decimal(n)[i] <= '9',
        text::decimal(n).len() > 1 ==> text::decimal(n)[0] != '0',
        number_of(text::decimal(n)) == n,
    decreases n,
{
    let digits = text::decimal(n);
    if n < 10 {
        assert(digits == seq![text::digit(n)]);
        assert(text::digit(n) as int == '0' as int + n);
        assert(digits.drop_last().len() == 0);
        assert(number_of(digits.drop_last()) == 0);
    } else {
        let front = text::decimal(n / 10);
        let last = text::digit(n % 10);
        decimals_stand_for_their_numbers(n / 10);
        assert(digits == front.push(last));
        assert(digits.drop_last() == front);
        assert(last as int == '0' as int + n % 10);
        assert(digits[0] == front[0]);
        if front.len() == 1 {
            assert(number_of(front) == front[0] as int - '0' as int) by {
                assert(front.drop_last().len() == 0);
                assert(number_of(front.drop_last()) == 0);
            }
            assert(n / 10 >= 1);
        }
        assert forall|i: int| 0 <= i < digits.len() implies '0' <= #[trigger] digits[i]
            <= '9' by {
            if i < front.len() {
                assert(digits[i] == front[i]);
            }
        }
    }
}

/// Line breaks add up, and a line break is one.
pub proof fn line_breaks_add_up(first: Seq<char>, second: Seq<char>)
    ensures
        crate::xml::line_breaks(first + second) == crate::xml::line_breaks(first)
            + crate::xml::line_breaks(second),
        first.len() == 0 ==> crate::xml::line_breaks(first) == 0,
        first.len() == 1 ==> crate::xml::line_breaks(first) == (if first[0] == '\n' {
            1nat
        } else {
            0
        }),
    decreases second.len(),
{
    if first.len() == 1 {
        assert(first.drop_last().len() == 0);
        assert(crate::xml::line_breaks(first.drop_last()) == 0);
    }
    if second.len() == 0 {
        assert(first + second == first);
    } else {
        assert((first + second).drop_last() == first + second.drop_last());
        assert((first + second).last() == second.last());
        line_breaks_add_up(first, second.drop_last());
    }
}

/// Whether the last line of `s` has `k` characters.
pub open spec fn ends_with_line_of(s: Seq<char>, k: int) -> bool {
    &&& 0 <= k <= s.len()
    &&& forall|i: int| s.len() - k <= i < s.len() ==> #[trigger] s[i] != '\n'
    &&& k < s.len() ==> s[s.len() - k - 1] == '\n'
}

/// The last line of a text is what comes after its last line break.
pub proof fn the_last_line_follows_the_last_break(s: Seq<char>)
    ensures
        ends_with_line_of(s, crate::xml::last_line_len(s) as int),
    decreases s.len(),
{
    if s.len() > 0 && s.last() != '\n' {
        let before = s.drop_last();
        the_last_line_follows_the_last_break(before);
        let k = crate::xml::last_line_len(before) as int;
        assert forall|i: int| s.len() - (k + 1) <= i < s.len() implies #[trigger] s[i] != '\n' by {
            if i < before.len() {
                assert(before[i] == s[i]);
            }
        }
        if k < before.len() {
            assert(before[before.len() - k - 1] == s[s.len() - (k + 1) - 1]);
        }
    }
}

/// What is open behind a character, in an expression: a quotation mark, and a
/// number of brackets. Brackets in quotes do not count, nor does a bracket that
/// closes nothing.
pub open spec fn open_behind(c: char, open: (Option<char>, nat)) -> (Option<char>, nat) {
    if open.0 is Some {
        (
            if open.0->0 == c {
                None
            } else {
                open.0
            },
            open.1,
        )
    } else if c == '"' || c == '\'' {
        (Some(c), open.1)
    } else if c == '(' || c == '[' {
        (None, open.1 + 1)
    } else if (c == ')' || c == ']') && open.1 > 0 {
        (None, (open.1 - 1) as nat)
    } else {
        open
    }
}

/// What is open behind the first `k` characters of `s`, given what is open at
/// its beginning.
pub open spec fn open_at(s: Seq<char>, k: int, open: (Option<char>, nat)) -> (Option<char>, nat)
    decreases k,
{
    if k <= 0 {
        open
    } else {
        open_behind(s[k - 1], open_at(s, k - 1, open))
    }
}

/// Whether a union bar stands at `k`: a `|` where nothing is open.
pub open spec fn is_union_bar(s: Seq<char>, k: int, open: (Option<char>, nat)) -> bool {
    &&& 0 <= k < s.len()
    &&& s[k] == '|'
    &&& open_at(s, k, open).0 is None
    &&& open_at(s, k, open).1 == 0
}

proof fn lemma_open_front(s: Seq<char>, k: int, open: (Option<char>, nat))
    requires
        0 <= k < s.len(),
    ensures
        open_at(s, k + 1, open) == open_at(s.skip(1), k, open_behind(s[0], open)),
    decreases k,
{
    if k == 0 {
        assert(open_at(s, 0, open) == open);
    } else {
        lemma_open_front(s, k - 1, open);
        assert(s.skip(1)[k - 1] == s[k]);
    }
}

/// The bar that a context is split at is its first union bar.
pub proof fn a_context_is_split_at_its_first_union_bar(s: Seq<char>, open: (Option<char>, nat))
    ensures
        match context::union_bar(s, open.0, open.1) {
            Some(k) => is_union_bar(s, k as int, open) && forall|j: int|
                0 <= j < k ==> !is_union_bar(s, j, open),
            None => forall|j: int| !is_union_bar(s, j, open),
        },
    decreases s.len(),
{
    if s.len() > 0 {
        let next = open_behind(s[0], open);
        let rest = s.skip(1);
        a_context_is_split_at_its_first_union_bar(rest, next);
        assert(open_at(s, 0, open) == open);
        assert forall|j: int| 0 <= j < rest.len() implies (#[trigger] is_union_bar(rest, j, next)
            <==> is_union_bar(s, j + 1, open)) by {
            lemma_open_front(s, j, open);
            assert(rest[j] == s[j + 1]);
        }
        if !(open.0 is None && open.1 == 0 && s[0] == '|') {
            assert(!is_union_bar(s, 0, open));
            assert(context::union_bar(s, open.0, open.1) == (match context::union_bar(
                rest,
                next.0,
                next.1,
            ) {
                Some(k) => Some(k + 1),
                None => None,
            }));
            match context::union_bar(rest, next.0, next.1) {
                Some(k) => {
                    assert(is_union_bar(rest, k as int, next));
                    assert forall|j: int| 0 <= j < k + 1 implies !is_union_bar(s, j, open) by {
                        if j > 0 {
                            assert(!is_union_bar(rest, j - 1, next));
                        }
                    }
                },
                None => {
                    assert forall|j: int| !is_union_bar(s, j, open) by {
                        if 0 < j < s.len() {
                            assert(!is_union_bar(rest, j - 1, next));
                        }
                    }
                },
            }
        }
    }
}

/// An alternative of a context holds no union bar, and in every one but the
/// last all that was opened is closed at the end.
pub proof fn alternatives_hold_no_union_bar(s: Seq<char>, i: int)
    requires
        0 <= i < context::alternatives(s).len(),
    ensures
        forall|k: int| !#[trigger] is_union_bar(context::alternatives(s)[i], k, (None, 0)),
        i + 1 < context::alternatives(s).len() ==> open_at(
            context::alternatives(s)[i],
            context::alternatives(s)[i].len() as int,
            (None, 0),
        ) == (None::<char>, 0nat),
    decreases s.len(),
{
    let none: (Option<char>, nat) = (None, 0);
    a_context_is_split_at_its_first_union_bar(s, none);
    lemma_union_bar(s, None, 0);
    let parts = context::alternatives(s);
    match context::union_bar(s, None, 0) {
        Some(n) => {
            let rest = s.skip(n as int + 1);
            if i > 0 {
                assert(parts[i] == context::alternatives(rest)[i - 1]);
                alternatives_hold_no_union_bar(rest, i - 1);
            } else {
                let part = s.take(n as int);
                assert(parts[0] == part);
                lemma_open_prefix(s, n as int, n as int, none);
                assert forall|k: int| !#[trigger] is_union_bar(part, k, none) by {
                    if 0 <= k < n {
                        lemma_open_prefix(s, n as int, k, none);
                        assert(part[k] == s[k]);
                        assert(!is_union_bar(s, k, none));
                    }
                }
            }
        },
        None => {
            assert(parts[0] == s);
        },
    }
}

proof fn lemma_open_prefix(s: Seq<char>, n: int, k: int, open: (Option<char>, nat))
    requires
        0 <= k <= n <= s.len(),
    ensures
        open_at(s.take(n), k, open) == open_at(s, k, open),
    decreases k,
{
    if k > 0 {
        lemma_open_prefix(s, n, k - 1, open);
        assert(s.take(n)[k - 1] == s[k - 1]);
    }
}

/// The path of one alternative: any node that matches it, below the root or at
/// it, unless it is the root pattern.
pub open spec fn path_of(alternative: Seq<char>) -> Seq<char> {
    if is_trim(alternative, "/"@) {
        alternative
    } else {
        "descendant-or-self::node()/"@ + alternative
    }
}

proof fn lemma_barred_back(parts: Seq<Seq<char>>)
    requires
        parts.len() > 1,
    ensures
        barred(parts) == barred(parts.drop_last()) + "|"@ + parts.last(),
    decreases parts.len(),
{
    let rest = parts.skip(1);
    if parts.len() == 2 {
        assert(rest.len() == 1 && rest[0] == parts[1]);
        assert(parts.drop_last()[0] == parts[0]);
        assert(barred(rest) == rest[0]);
        assert(barred(parts.drop_last()) == parts[0]);
    } else {
        lemma_barred_back(rest);
        assert(parts.drop_last()[0] == parts[0]);
        assert(rest.drop_last() == parts.drop_last().skip(1));
        assert(rest.last() == parts.last());
        let middle = barred(rest.drop_last());
        assert(parts[0] + "|"@ + (middle + "|"@ + parts.last()) == (parts[0] + "|"@ + middle) + "|"@
            + parts.last());
    }
}

/// The path of a context is the union of the paths of its alternatives, in
/// order.
pub proof fn a_context_path_is_the_union_of_its_alternatives(s: Seq<char>)
    ensures
        context::context_path(s) == barred(
            context::alternatives(s).map_values(|part: Seq<char>| path_of(part)),
        ),
{
    lemma_union_path(context::alternatives(s));
}

proof fn lemma_union_path(parts: Seq<Seq<char>>)
    ensures
        context::union_path(parts) == barred(parts.map_values(|part: Seq<char>| path_of(part))),
    decreases parts.len(),
{
    let paths = parts.map_values(|part: Seq<char>| path_of(part));
    if parts.len() > 0 {
        trimming_takes_the_whitespace_around(parts.last(), "/"@);
        assert(context::alternative_path(parts.last()) == path_of(parts.last()));
        if parts.len() > 1 {
            lemma_union_path(parts.drop_last());
            lemma_barred_back(paths);
            assert(paths.drop_last() == parts.drop_last().map_values(
                |part: Seq<char>| path_of(part),
            ));
        } else {
            assert(paths[0] == path_of(parts[0]));
            assert(parts.last() == parts[0]);
        }
    }
}

/// A text begins with another exactly where it is that other text and some
/// rest.
pub proof fn a_prefix_is_followed_by_the_rest(s: Seq<char>, prefix: Seq<char>)
    ensures
        text::starts_with(s, prefix) <==> exists|rest: Seq<char>| s == #[trigger] (prefix + rest),
{
    if text::starts_with(s, prefix) {
        assert(s == prefix + s.skip(prefix.len() as int));
    }
    if exists|rest: Seq<char>| s == #[trigger] (prefix + rest) {
        let rest = choose|rest: Seq<char>| s == #[trigger] (prefix + rest);
        assert((prefix + rest).take(prefix.len() as int) == prefix);
    }
}

proof fn lemma_encoded(first: Seq<char>, second: Seq<char>)
    ensures
        vstd::utf8::encode_utf8(first + second) == vstd::utf8::encode_utf8(first)
            + vstd::utf8::encode_utf8(second),
    decreases first.len(),
{
    if first.len() == 0 {
        assert(first + second == second);
    } else {
        assert((first + second).drop_first() == first.drop_first() + second);
        lemma_encoded(first.drop_first(), second);
        assert((first + second)[0] == first[0]);
    }
}

/// The part of a text between two byte offsets is what stands between the
/// texts of that length before and up to its end.
pub proof fn a_slice_is_what_stands_between(before: Seq<char>, part: Seq<char>, behind: Seq<char>)
    ensures
        crate::xml::slice(
            before + part + behind,
            vstd::utf8::encode_utf8(before).len() as int,
            vstd::utf8::encode_utf8(before + part).len() as int,
        ) == part,
{
    lemma_encoded(before + part, behind);
    lemma_encoded(before, part);
    let bytes = vstd::utf8::encode_utf8(before + part + behind);
    let from = vstd::utf8::encode_utf8(before).len() as int;
    let to = vstd::utf8::encode_utf8(before + part).len() as int;
    assert(bytes.subrange(from, to) == vstd::utf8::encode_utf8(part));
    vstd::utf8::encode_utf8_decode_utf8(part);
}

} // verus!
