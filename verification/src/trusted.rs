//! The outside functions and types that the library relies on, each with the
//! contract that the rest of the crate is verified against.

use vstd::prelude::*;

verus! {

/// `regex::bytes::Regex`, carried through as an opaque value.
#[verifier::external_type_specification]
#[verifier::external_body]
pub struct ExBytesRegex(regex::bytes::Regex);

/// `regex::Error`, the error of `regex::bytes::Regex::new`.
#[verifier::external_type_specification]
#[verifier::external_body]
pub struct ExRegexError(regex::Error);

/// `regex_automata::meta::Regex`, carried through as an opaque value.
#[verifier::external_type_specification]
#[verifier::external_body]
pub struct ExMetaRegex(regex_automata::meta::Regex);

/// `regex_automata::meta::BuildError`, the error of `regex_automata::meta::Regex::new`.
#[verifier::external_type_specification]
#[verifier::external_body]
pub struct ExMetaBuildError(regex_automata::meta::BuildError);

/// `regex_automata::meta::Cache`, search scratch space of one meta regex.
#[verifier::external_type_specification]
#[verifier::external_body]
pub struct ExMetaCache(regex_automata::meta::Cache);

/// `std::str::Utf8Error`, the error of `std::str::from_utf8`.
#[verifier::external_type_specification]
#[verifier::external_body]
pub struct ExUtf8Error(core::str::Utf8Error);

/// Whether `regex::bytes::Regex::new` accepts `pattern` (it returns `Ok`).
/// For one build of the crate this depends on the pattern text alone; the
/// crate's size limit counts in-memory sizes, so a pattern close to that limit
/// may be accepted on a 64-bit target and refused on a 32-bit one, or the
/// reverse.
pub uninterp spec fn bytes_regex_accepts(pattern: Seq<char>) -> bool;

/// Whether `regex_automata::meta::Regex::new` accepts `pattern` (it returns
/// `Ok`), with the same caveat on the size limit as `bytes_regex_accepts`.
pub uninterp spec fn meta_regex_accepts(pattern: Seq<char>) -> bool;

/// Whether the meta regex built from `pattern` finds a match anywhere in `haystack`.
/// This depends on the pattern text and the haystack alone.
pub uninterp spec fn meta_regex_finds(pattern: Seq<char>, haystack: Seq<u8>) -> bool;

/// A `regex::bytes::Regex` together with the text it was compiled from. Only
/// `compile_bytes_regex` builds one, so the two always belong together.
#[derive(Debug)]
pub struct CompiledBytesRegex {
    source: String,
    regex: regex::bytes::Regex,
}

impl View for CompiledBytesRegex {
    type V = Seq<char>;

    /// The text the regex was compiled from.
    closed spec fn view(&self) -> Seq<char> {
        self.source@
    }
}

impl CompiledBytesRegex {
    /// The text the regex was compiled from (what `Regex::as_str` returns).
    pub fn as_str(&self) -> (s: &str)
        ensures
            s@ == self@,
    {
        self.source.as_str()
    }

    /// The compiled regex.
    pub fn regex(&self) -> &regex::bytes::Regex {
        &self.regex
    }
}

/// A `regex_automata::meta::Regex` together with the text it was compiled
/// from. Only `compile_meta_regex` builds one.
#[derive(Debug)]
pub struct CompiledMetaRegex {
    source: String,
    regex: regex_automata::meta::Regex,
}

impl View for CompiledMetaRegex {
    type V = Seq<char>;

    /// The text the regex was compiled from.
    closed spec fn view(&self) -> Seq<char> {
        self.source@
    }
}

impl CompiledMetaRegex {
    /// The text the regex was compiled from.
    pub fn as_str(&self) -> (s: &str)
        ensures
            s@ == self@,
    {
        self.source.as_str()
    }
}

/// Calls `regex::bytes::Regex::new` and keeps `pattern` beside the result.
/// Claimed: the result is `Ok` exactly when the crate accepts the pattern,
/// named `bytes_regex_accepts`, and then it holds the regex compiled from
/// `pattern`; nothing is said of what that regex matches.
#[verifier::external_body]
pub(crate) fn compile_bytes_regex(pattern: &str) -> (res: Result<CompiledBytesRegex, regex::Error>)
    ensures
        res is Ok <==> bytes_regex_accepts(pattern@),
        res matches Ok(r) ==> r@ == pattern@,
{
    match regex::bytes::Regex::new(pattern) {
        Ok(regex) => Ok(CompiledBytesRegex { source: pattern.to_string(), regex }),
        Err(e) => Err(e),
    }
}

/// Calls `regex_automata::meta::Regex::new` (default configuration) and keeps
/// `pattern` beside the result. Claimed: the result is `Ok` exactly when the
/// crate accepts the pattern, named `meta_regex_accepts`, and then it holds the
/// regex compiled from `pattern`.
#[verifier::external_body]
pub(crate) fn compile_meta_regex(pattern: &str) -> (res: Result<
    CompiledMetaRegex,
    regex_automata::meta::BuildError,
>)
    ensures
        res is Ok <==> meta_regex_accepts(pattern@),
        res matches Ok(r) ==> r@ == pattern@,
{
    match regex_automata::meta::Regex::new(pattern) {
        Ok(regex) => Ok(CompiledMetaRegex { source: pattern.to_string(), regex }),
        Err(e) => Err(e),
    }
}

/// A compiled meta regex together with a search cache created by that regex.
/// Only `new_meta_searcher` builds one.
pub(crate) struct MetaSearcher<'a> {
    regex: &'a CompiledMetaRegex,
    cache: regex_automata::meta::Cache,
}

impl<'a> View for MetaSearcher<'a> {
    type V = Seq<char>;

    /// The text of the regex searched with.
    closed spec fn view(&self) -> Seq<char> {
        self.regex@
    }
}

/// Calls `regex_automata::meta::Regex::create_cache` on `re`'s regex and keeps
/// the cache beside it. Claimed: the searcher searches with `re`'s regex.
#[verifier::external_body]
pub(crate) fn new_meta_searcher<'a>(re: &'a CompiledMetaRegex) -> (s: MetaSearcher<'a>)
    ensures
        s@ == re@,
{
    MetaSearcher { regex: re, cache: re.regex.create_cache() }
}

impl<'a> MetaSearcher<'a> {
    /// Calls `regex_automata::meta::Regex::search_with` on the whole of
    /// `haystack`, with the searcher's own cache. Claimed: the result tells
    /// whether the regex compiled from the searcher's text finds a match,
    /// named `meta_regex_finds`.
    #[verifier::external_body]
    pub(crate) fn is_match(&mut self, haystack: &[u8]) -> (res: bool)
        ensures
            res == meta_regex_finds(old(self)@, haystack@),
            final(self)@ == old(self)@,
    {
        self.regex.regex.search_with(&mut self.cache, &regex_automata::Input::new(haystack)).is_some()
    }
}

/// Calls `String::push`. Claimed: `c` is appended to the characters of `s`.
#[verifier::external_body]
pub(crate) fn push_char(s: &mut String, c: char)
    ensures
        final(s)@ == old(s)@.push(c),
{
    s.push(c)
}

/// Calls `std::str::from_utf8`. Claimed: it succeeds exactly when `bytes` is
/// valid UTF-8, and then the string's UTF-8 encoding is `bytes`.
#[verifier::external_body]
pub(crate) fn str_from_utf8<'a>(bytes: &'a [u8]) -> (res: Result<&'a str, core::str::Utf8Error>)
    ensures
        res is Ok <==> vstd::utf8::valid_utf8(bytes@),
        res matches Ok(s) ==> vstd::utf8::encode_utf8(s@) == bytes@,
{
    core::str::from_utf8(bytes)
}

} // verus!
