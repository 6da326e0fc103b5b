//! Resolution of `<include href="...">` references to schema text.
//!
//! The library never reads files or the network. A caller who wants
//! `<include>` support implements [`SchemaResolver`] over whatever loading
//! mechanism fits (files, an in-memory map, HTTP), with whatever policy on
//! schemes and paths is appropriate there, and calls
//! [`crate::parse_with_resolver`] instead of [`crate::parse`].

use vstd::prelude::*;

verus! {

/// `String::from` on a string slice: the string holds the slice's characters.
pub assume_specification<'a>[ <String as From<&'a str>>::from ](characters: &str) -> (result: String)
    ensures
        result@ == characters@,
;

/// The reflexive `From::from`: the value itself.
pub assume_specification<Any>[ <Any as From<Any>>::from ](value: Any) -> (result: Any)
    ensures
        result == value,
;

/// Schema text plus the base URI that relative `href`s inside it resolve
/// against.
#[derive(Clone, Debug, PartialEq, Eq)]
pub struct SchemaSource {
    text: String,
    base_uri: String,
}

impl SchemaSource {
    /// The characters of the schema text.
    pub closed spec fn spec_text(&self) -> Seq<char> {
        self.text@
    }

    /// The characters of the base URI.
    pub closed spec fn spec_base_uri(&self) -> Seq<char> {
        self.base_uri@
    }

    /// Builds a source from its text and base URI (used to resolve any
    /// relative `href`s that this schema fragment itself contains).
    pub fn new<T: Into<String>, B: Into<String>>(text: T, base_uri: B) -> (result: Self)
        ensures
            exists|s: String| #[trigger]
                call_ensures(<T as Into<String>>::into, (text,), s) && result.spec_text() == s@,
            exists|s: String| #[trigger]
                call_ensures(<B as Into<String>>::into, (base_uri,), s) && result.spec_base_uri()
                    == s@,
    {
        let text_string: String = <T as Into<String>>::into(text);
        let base_string: String = <B as Into<String>>::into(base_uri);
        assert(call_ensures(<T as Into<String>>::into, (text,), text_string));
        assert(call_ensures(<B as Into<String>>::into, (base_uri,), base_string));
        SchemaSource { text: text_string, base_uri: base_string }
    }

    /// The schema fragment's raw XML text.
    pub fn text(&self) -> (result: &str)
        ensures
            result@ == self.spec_text(),
    {
        self.text.as_str()
    }

    /// The base URI that relative `href`s in this fragment resolve against.
    pub fn base_uri(&self) -> (result: &str)
        ensures
            result@ == self.spec_base_uri(),
    {
        self.base_uri.as_str()
    }
}

/// Resolves an `<include href="...">` reference, relative to a base URI, to
/// the [`SchemaSource`] it names.
pub trait SchemaResolver {
    /// Resolves `href`, as it literally appears in the schema, relative to
    /// `base_uri`, or fails with a [`ResolveError`] if it cannot be found or
    /// read, or is disallowed.
    fn resolve(&self, href: &str, base_uri: &str) -> Result<SchemaSource, ResolveError>;
}

/// A [`SchemaResolver`] failed to resolve an `href`.
#[derive(Clone, Debug, PartialEq, Eq)]
pub struct ResolveError {
    message: String,
}

impl ResolveError {
    /// The characters of the message.
    pub closed spec fn spec_message(&self) -> Seq<char> {
        self.message@
    }

    /// Builds a `ResolveError` with the given message.
    pub fn new<T: Into<String>>(message: T) -> (result: Self)
        ensures
            exists|s: String| #[trigger]
                call_ensures(<T as Into<String>>::into, (message,), s) && result.spec_message()
                    == s@,
    {
        let message_string: String = <T as Into<String>>::into(message);
        assert(call_ensures(<T as Into<String>>::into, (message,), message_string));
        ResolveError { message: message_string }
    }

    /// The message.
    pub fn to_string(&self) -> (result: String)
        ensures
            result@ == self.spec_message(),
    {
        self.message.clone()
    }
}

} // verus!
