//! Text utilities: the string operations that schema parsing and message
//! rendering rely on, each stated over sequences of characters.

use vstd::prelude::*;

verus! {

/// Whether a character has Unicode's `White_Space` property.
pub open spec fn unicode_whitespace(c: char) -> bool {
    ||| '\u{9}' <= c <= '\u{d}'
    ||| c == '\u{20}'
    ||| c == '\u{85}'
    ||| c == '\u{a0}'
    ||| c == '\u{1680}'
    ||| '\u{2000}' <= c <= '\u{200a}'
    ||| c == '\u{2028}'
    ||| c == '\u{2029}'
    ||| c == '\u{202f}'
    ||| c == '\u{205f}'
    ||| c == '\u{3000}'
}

/// `char::is_whitespace`: whether the character has the `White_Space`
/// property, which Unicode's character database gives to these characters.
pub assume_specification[ char::is_whitespace ](c: char) -> (result: bool)
    ensures
        result == unicode_whitespace(c),
;

/// `String::push`: appends one character.
pub assume_specification[ String::push ](string: &mut String, c: char)
    ensures
        final(string)@ == old(string)@.push(c),
;

/// `String::push_str`: appends the characters of another string.
pub assume_specification[ String::push_str ](string: &mut String, other: &str)
    ensures
        final(string)@ == old(string)@ + other@,
;

/// `str::eq`: two string slices are equal when their characters are.
pub assume_specification[ <str as PartialEq<str>>::eq ](left: &str, right: &str) -> (result: bool)
    ensures
        result == (left@ == right@),
;

/// `text` without its leading whitespace.
pub open spec fn trimmed_start(text: Seq<char>) -> Seq<char>
    decreases text.len(),
{
    if text.len() > 0 && unicode_whitespace(text[0]) {
        trimmed_start(text.skip(1))
    } else {
        text
    }
}

/// `text` without its trailing whitespace.
pub open spec fn trimmed_end(text: Seq<char>) -> Seq<char>
    decreases text.len(),
{
    if text.len() > 0 && unicode_whitespace(text.last()) {
        trimmed_end(text.drop_last())
    } else {
        text
    }
}

/// `text` without the whitespace around it.
pub open spec fn trimmed(text: Seq<char>) -> Seq<char> {
    trimmed_end(trimmed_start(text))
}

/// How many characters of `text` come before its first whitespace.
pub open spec fn word_len(text: Seq<char>) -> nat
    decreases text.len(),
{
    if text.len() > 0 && !unicode_whitespace(text[0]) {
        1 + word_len(text.skip(1))
    } else {
        0
    }
}

/// The whitespace-separated words of `text`, in order.
pub open spec fn words(text: Seq<char>) -> Seq<Seq<char>>
    decreases text.len(),
{
    if text.len() == 0 {
        seq![]
    } else if unicode_whitespace(text[0]) {
        words(text.skip(1))
    } else if word_len(text) <= text.len() {
        seq![text.take(word_len(text) as int)] + words(text.skip(word_len(text) as int))
    } else {
        seq![]
    }
}

/// Whether `text` begins with `prefix`.
pub open spec fn starts_with(text: Seq<char>, prefix: Seq<char>) -> bool {
    prefix.len() <= text.len() && text.take(prefix.len() as int) == prefix
}

/// `text` with every occurrence of the non-empty `pattern`, taken from left
/// to right without overlap, replaced by `replacement`.
pub open spec fn replaced(text: Seq<char>, pattern: Seq<char>, replacement: Seq<char>) -> Seq<char>
    decreases text.len(),
{
    if pattern.len() == 0 || text.len() < pattern.len() {
        text
    } else if starts_with(text, pattern) {
        replacement + replaced(text.skip(pattern.len() as int), pattern, replacement)
    } else {
        seq![text[0]] + replaced(text.skip(1), pattern, replacement)
    }
}

/// An ASCII capital letter's small letter; any other character itself.
pub open spec fn ascii_lower(c: char) -> char {
    if 'A' <= c && c <= 'Z' {
        ((c as u8) + 32) as char
    } else {
        c
    }
}

/// Whether two texts differ at most in the case of ASCII letters.
pub open spec fn same_ignoring_case(left: Seq<char>, right: Seq<char>) -> bool {
    &&& left.len() == right.len()
    &&& forall|i: int|
        0 <= i < left.len() ==> ascii_lower(#[trigger] left[i]) == ascii_lower(right[i])
}

/// The decimal digit of a number below ten.
pub open spec fn digit(n: nat) -> char {
    (('0' as u8) + n) as char
}

/// The decimal notation of `n`, without leading zeros.
pub open spec fn decimal(n: nat) -> Seq<char>
    decreases n,
{
    if n < 10 {
        seq![digit(n)]
    } else {
        decimal(n / 10).push(digit(n % 10))
    }
}

/// The characters of `text`.
pub fn chars_of(text: &str) -> (result: Vec<char>)
    ensures
        result@ == text@,
{
    let mut result: Vec<char> = Vec::new();
    for c in it: text.chars()
        invariant
            it.seq() == text@,
            result@ == text@.take(it.index() as int),
    {
        result.push(c);
        assert(text@.take(it.index() + 1) == text@.take(it.index() as int).push(c));
    }
    assert(text@.take(text@.len() as int) == text@);
    result
}

/// The text made of `chars[from..to]`.
pub fn text_between(chars: &Vec<char>, from: usize, to: usize) -> (result: String)
    requires
        from <= to <= chars@.len(),
    ensures
        result@ == chars@.subrange(from as int, to as int),
{
    let mut result = String::new();
    let mut i: usize = from;
    while i < to
        invariant
            from <= i <= to <= chars@.len(),
            result@ == chars@.subrange(from as int, i as int),
        decreases to - i,
    {
        result.push(chars[i]);
        i += 1;
        assert(chars@.subrange(from as int, i as int) == chars@.subrange(from as int, i - 1).push(
            chars@[i - 1],
        ));
    }
    result
}

/// A copy of an optional text.
pub fn copied(text: Option<&String>) -> (result: Option<String>)
    ensures
        result.deep_view() == text.deep_view(),
{
    match text {
        Some(text) => Some(text.clone()),
        None => None,
    }
}

/// `text` without the whitespace around it.
pub fn trim(text: &str) -> (result: String)
    ensures
        result@ == trimmed(text@),
{
    let chars = chars_of(text);
    let mut from: usize = 0;
    assert(chars@.skip(0) == chars@);
    while from < chars.len() && chars[from].is_whitespace()
        invariant
            from <= chars@.len(),
            trimmed_start(chars@.skip(from as int)) == trimmed_start(chars@),
        decreases chars@.len() - from,
    {
        assert(chars@.skip(from as int).skip(1) == chars@.skip(from + 1));
        from += 1;
    }
    let ghost rest = chars@.skip(from as int);
    assert(trimmed_start(chars@) == rest);
    let mut to: usize = chars.len();
    assert(chars@.subrange(from as int, to as int) == rest);
    while to > from && chars[to - 1].is_whitespace()
        invariant
            from <= to <= chars@.len(),
            trimmed_end(chars@.subrange(from as int, to as int)) == trimmed_end(rest),
        decreases to,
    {
        assert(chars@.subrange(from as int, to as int).drop_last() == chars@.subrange(
            from as int,
            to - 1,
        ));
        to -= 1;
    }
    text_between(&chars, from, to)
}

proof fn lemma_word_len(text: Seq<char>, n: int)
    requires
        0 <= n <= text.len(),
        forall|i: int| 0 <= i < n ==> !unicode_whitespace(#[trigger] text[i]),
        n < text.len() ==> unicode_whitespace(text[n]),
    ensures
        word_len(text) == n,
    decreases n,
{
    if n > 0 {
        assert(text.skip(1)[n - 1] == text[n] || n == text.len());
        assert forall|i: int| 0 <= i < n - 1 implies !unicode_whitespace(
            #[trigger] text.skip(1)[i],
        ) by {
            assert(text.skip(1)[i] == text[i + 1]);
        }
        lemma_word_len(text.skip(1), n - 1);
    }
}

/// The whitespace-separated words of `text`, in order.
pub fn split_words(text: &str) -> (result: Vec<String>)
    ensures
        result.deep_view() == words(text@),
{
    let chars = chars_of(text);
    let mut result: Vec<String> = Vec::new();
    let mut i: usize = 0;
    assert(chars@.skip(0) == chars@);
    assert(result.deep_view() + words(chars@) == words(chars@));
    while i < chars.len()
        invariant
            i <= chars@.len(),
            result.deep_view() + words(chars@.skip(i as int)) == words(chars@),
        decreases chars@.len() - i,
    {
        let ghost rest = chars@.skip(i as int);
        if chars[i].is_whitespace() {
            assert(rest.skip(1) == chars@.skip(i + 1));
            i += 1;
        } else {
            let from = i;
            while i < chars.len() && !chars[i].is_whitespace()
                invariant
                    from <= i <= chars@.len(),
                    forall|k: int| from <= k < i ==> !unicode_whitespace(#[trigger] chars@[k]),
                decreases chars@.len() - i,
            {
                i += 1;
            }
            let ghost before = result.deep_view();
            result.push(text_between(&chars, from, i));
            proof {
                let n = i - from;
                assert forall|k: int| 0 <= k < n implies !unicode_whitespace(
                    #[trigger] rest[k],
                ) by {
                    assert(rest[k] == chars@[from + k]);
                }
                lemma_word_len(rest, n);
                assert(n > 0) by {
                    if n == 0 {
                        assert(unicode_whitespace(rest[0]));
                    }
                }
                assert(rest.skip(n) == chars@.skip(i as int));
                assert(rest.take(n) == chars@.subrange(from as int, i as int));
                assert(result.deep_view() == before.push(rest.take(n)));
                assert(before.push(rest.take(n)) + words(chars@.skip(i as int)) == before + (
                seq![rest.take(n)] + words(rest.skip(n))));
            }
        }
    }
    assert(chars@.skip(i as int) == Seq::<char>::empty());
    assert(result.deep_view() == words(chars@));
    result
}

/// Whether `chars[at..]` begins with `pattern`.
fn matches_at(chars: &Vec<char>, at: usize, pattern: &Vec<char>) -> (result: bool)
    requires
        at <= chars@.len(),
    ensures
        result == starts_with(chars@.skip(at as int), pattern@),
{
    let total: usize = chars.len();
    if total - at < pattern.len() {
        return false;
    }
    let mut i: usize = 0;
    while i < pattern.len()
        invariant
            total == chars@.len(),
            at + pattern@.len() <= total,
            i <= pattern@.len(),
            forall|k: int| 0 <= k < i ==> chars@[at + k] == #[trigger] pattern@[k],
        decreases pattern@.len() - i,
    {
        if chars[at + i] != pattern[i] {
            assert(chars@.skip(at as int).take(pattern@.len() as int)[i as int] == chars@[at + i]);
            return false;
        }
        i += 1;
    }
    assert(chars@.skip(at as int).take(pattern@.len() as int) =~= pattern@);
    true
}

/// `text` with every occurrence of `pattern` replaced by `replacement`.
pub fn replace(text: &str, pattern: &str, replacement: &str) -> (result: String)
    ensures
        result@ == replaced(text@, pattern@, replacement@),
{
    let chars = chars_of(text);
    let pattern_chars = chars_of(pattern);
    if pattern_chars.len() == 0 {
        return text.to_owned();
    }
    let mut result = String::new();
    let mut i: usize = 0;
    assert(chars@.skip(0) == chars@);
    while i < chars.len()
        invariant
            i <= chars@.len(),
            chars@ == text@,
            pattern_chars@ == pattern@,
            pattern@.len() > 0,
            result@ + replaced(chars@.skip(i as int), pattern@, replacement@) == replaced(
                text@,
                pattern@,
                replacement@,
            ),
        decreases chars@.len() - i,
    {
        let ghost rest = chars@.skip(i as int);
        let ghost before = result@;
        if matches_at(&chars, i, &pattern_chars) {
            result.push_str(replacement);
            i += pattern_chars.len();
            proof {
                assert(rest.skip(pattern@.len() as int) == chars@.skip(i as int));
                assert(result@ + replaced(chars@.skip(i as int), pattern@, replacement@) == before
                    + (replacement@ + replaced(rest.skip(pattern@.len() as int), pattern@, replacement@)));
            }
        } else {
            result.push(chars[i]);
            i += 1;
            proof {
                assert(rest.skip(1) == chars@.skip(i as int));
                if rest.len() < pattern@.len() {
                    assert(rest == seq![rest[0]] + rest.skip(1));
                }
                assert(result@ + replaced(chars@.skip(i as int), pattern@, replacement@) == before
                    + (seq![rest[0]] + replaced(rest.skip(1), pattern@, replacement@)));
            }
        }
    }
    assert(result@ == replaced(text@, pattern@, replacement@));
    result
}

/// An ASCII capital letter's small letter; any other character itself.
fn to_ascii_lower(c: char) -> (result: char)
    ensures
        result == ascii_lower(c),
{
    if 'A' <= c && c <= 'Z' {
        ((c as u8) + 32) as char
    } else {
        c
    }
}

/// Whether two texts differ at most in the case of ASCII letters.
pub fn equals_ignoring_case(left: &str, right: &str) -> (result: bool)
    ensures
        result == same_ignoring_case(left@, right@),
{
    let left_chars = chars_of(left);
    let right_chars = chars_of(right);
    if left_chars.len() != right_chars.len() {
        return false;
    }
    let mut i: usize = 0;
    while i < left_chars.len()
        invariant
            left_chars@ == left@,
            right_chars@ == right@,
            left@.len() == right@.len(),
            i <= left@.len(),
            forall|k: int|
                0 <= k < i ==> ascii_lower(#[trigger] left@[k]) == ascii_lower(right@[k]),
        decreases left@.len() - i,
    {
        if to_ascii_lower(left_chars[i]) != to_ascii_lower(right_chars[i]) {
            return false;
        }
        i += 1;
    }
    true
}

/// The decimal notation of `n`.
pub fn decimal_text(n: u64) -> (result: String)
    ensures
        result@ == decimal(n as nat),
    decreases n,
{
    if n < 10 {
        let mut result = String::new();
        result.push(('0' as u8 + n as u8) as char);
        result
    } else {
        let mut result = decimal_text(n / 10);
        result.push(('0' as u8 + (n % 10) as u8) as char);
        result
    }
}

} // verus!
