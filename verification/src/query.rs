use vstd::prelude::*;
use vstd::utf8::encode_utf8;
use crate::error::{Error, Result};
use crate::options::CaseMode;
use crate::report::MatchSpan;
use crate::replace::{append_bounded, append_replacement, expansion, groups_within, GroupLookup, SpecLookup};
use regex_automata::Input;
use regex_automata::util::iter::Searcher;
use vstd::std_specs::iter::IteratorSpec;

verus! {

broadcast use vstd::string::axiom_spec_iter, vstd::string::next_postcondition;

/// A compiled-on-execution repository query.
#[derive(Debug, PartialEq, Eq)]
pub enum SearchQuery {
    /// Matches the supplied text literally.
    Literal(String),
    /// Matches with Rust regular-expression syntax.
    Regex(String),
    /// Matches the ordered union of several queries in one content pass.
    ///
    /// Query order resolves alternatives that begin at the same byte, like
    /// repeated `-e` arguments in ripgrep.
    Any(Vec<SearchQuery>),
}

/// A pattern prepared for compilation.
pub enum PreparedPattern {
    /// Case-sensitive literal text.
    SensitiveLiteral(String),
    /// Regular-expression source.
    Regex(String),
}

/// The mathematical form of a prepared pattern.
pub enum SpecPattern {
    SensitiveLiteral(Seq<char>),
    Regex(Seq<char>),
}

impl PreparedPattern {
    /// The mathematical form of this pattern.
    pub open spec fn view(&self) -> SpecPattern {
        match self {
            PreparedPattern::SensitiveLiteral(text) => SpecPattern::SensitiveLiteral(text@),
            PreparedPattern::Regex(text) => SpecPattern::Regex(text@),
        }
    }
}

/// Whether the standard library classifies `c` as uppercase.
pub uninterp spec fn is_uppercase(c: char) -> bool;

/// Classifies one character with `char::is_uppercase`.
///
/// Trusted: the result is the name `is_uppercase` of the character.
#[verifier::external_body]
fn char_is_uppercase(c: char) -> (upper: bool)
    ensures
        upper == is_uppercase(c),
{
    c.is_uppercase()
}

/// The characters `regex_syntax` treats as regex syntax.
pub open spec fn is_meta(c: char) -> bool {
    c == '\\' || c == '.' || c == '+' || c == '*' || c == '?' || c == '(' || c == ')' || c == '|'
        || c == '[' || c == ']' || c == '{' || c == '}' || c == '^' || c == '$' || c == '#'
        || c == '&' || c == '-' || c == '~'
}

/// `text` with a backslash before every meta character.
pub open spec fn escaped(text: Seq<char>) -> Seq<char>
    decreases text.len(),
{
    if text.len() == 0 {
        Seq::empty()
    } else if is_meta(text.last()) {
        escaped(text.drop_last()).push('\\').push(text.last())
    } else {
        escaped(text.drop_last()).push(text.last())
    }
}

/// Escapes regex syntax with `regex_syntax::escape`.
///
/// Trusted: the result is the text with `\` inserted before each of
/// `\ . + * ? ( ) | [ ] { } ^ $ # & - ~`, which is what its source does.
#[verifier::external_body]
fn escape_regex(text: &str) -> (quoted: String)
    ensures
        quoted@ == escaped(text@),
{
    regex_syntax::escape(text)
}

/// Whether `pattern` holds an uppercase character.
pub open spec fn has_uppercase(pattern: Seq<char>) -> bool {
    exists|i: int| 0 <= i < pattern.len() && is_uppercase(pattern[i])
}

/// Whether the case policy makes `pattern` case-insensitive.
pub open spec fn insensitive(pattern: Seq<char>, case: CaseMode) -> bool {
    match case {
        CaseMode::Sensitive => false,
        CaseMode::Insensitive => true,
        CaseMode::Smart => !has_uppercase(pattern),
    }
}

/// `(?i:` + `inner` + `)`.
pub open spec fn case_folded(inner: Seq<char>) -> Seq<char> {
    seq!['(', '?', 'i', ':'] + inner + seq![')']
}

/// The patterns a query prepares, in order, or `None` when a pattern is
/// empty.
pub open spec fn prepared(query: SearchQuery, case: CaseMode) -> Option<Seq<SpecPattern>>
    decreases query,
{
    match query {
        SearchQuery::Literal(text) => if text@.len() == 0 {
            None
        } else if insensitive(text@, case) {
            Some(seq![SpecPattern::Regex(case_folded(escaped(text@)))])
        } else {
            Some(seq![SpecPattern::SensitiveLiteral(text@)])
        },
        SearchQuery::Regex(text) => if text@.len() == 0 {
            None
        } else if insensitive(text@, case) {
            Some(seq![SpecPattern::Regex(case_folded(text@))])
        } else {
            Some(seq![SpecPattern::Regex(text@)])
        },
        SearchQuery::Any(queries) => prepared_all(queries@, case),
    }
}

/// The patterns of several queries, concatenated in order.
pub open spec fn prepared_all(queries: Seq<SearchQuery>, case: CaseMode) -> Option<Seq<SpecPattern>>
    decreases queries,
{
    if queries.len() == 0 {
        Some(Seq::empty())
    } else {
        let init = queries.subrange(0, queries.len() - 1);
        match (prepared_all(init, case), prepared(queries[queries.len() - 1], case)) {
            (Some(first), Some(last)) => Some(first + last),
            _ => None,
        }
    }
}

/// Regex source for a prepared pattern.
pub open spec fn regex_source(pattern: SpecPattern) -> Seq<char> {
    match pattern {
        SpecPattern::SensitiveLiteral(text) => escaped(text),
        SpecPattern::Regex(text) => text,
    }
}

fn smart_insensitive(pattern: &str) -> (folded: bool)
    ensures
        folded == !has_uppercase(pattern@),
{
    let mut chars = pattern.chars();
    let ghost mut seen: int = 0;
    loop
        invariant
            chars.obeys_prophetic_iter_laws(),
            0 <= seen <= pattern@.len(),
            chars.remaining() == pattern@.subrange(seen, pattern@.len() as int),
            forall|i: int| 0 <= i < seen ==> !is_uppercase(pattern@[i]),
        decreases pattern@.len() - seen,
    {
        match chars.next() {
            Some(c) => {
                proof {
                    assert(pattern@.subrange(seen, pattern@.len() as int)[0] == pattern@[seen]);
                }
                if char_is_uppercase(c) {
                    return false;
                }
                proof {
                    assert(pattern@.subrange(seen, pattern@.len() as int).drop_first()
                        =~= pattern@.subrange(seen + 1, pattern@.len() as int));
                    seen = seen + 1;
                }
            }
            None => {
                return true;
            }
        }
    }
}

fn is_case_insensitive(pattern: &str, case: CaseMode) -> (folded: bool)
    ensures
        folded == insensitive(pattern@, case),
{
    match case {
        CaseMode::Sensitive => false,
        CaseMode::Insensitive => true,
        CaseMode::Smart => smart_insensitive(pattern),
    }
}

fn fold_case(inner: String) -> (folded: String)
    ensures
        folded@ == case_folded(inner@),
{
    let mut folded = String::from_str("(?i:");
    folded.append(inner.as_str());
    folded.append(")");
    proof {
        reveal_strlit("(?i:");
        reveal_strlit(")");
        assert(folded@ =~= case_folded(inner@));
    }
    folded
}

impl PreparedPattern {
    /// The regex source of this pattern.
    pub fn into_regex(self) -> (source: String)
        ensures
            source@ == regex_source(self.view()),
    {
        match self {
            PreparedPattern::SensitiveLiteral(text) => escape_regex(text.as_str()),
            PreparedPattern::Regex(text) => text,
        }
    }
}

/// Views of prepared patterns.
pub open spec fn patterns_view(patterns: Seq<PreparedPattern>) -> Seq<SpecPattern> {
    patterns.map_values(|pattern: PreparedPattern| pattern.view())
}

impl SearchQuery {
    /// Creates a literal query.
    pub fn literal(value: String) -> (query: Self)
        ensures
            query == SearchQuery::Literal(value),
    {
        SearchQuery::Literal(value)
    }

    /// Creates a regular-expression query.
    pub fn regex(value: String) -> (query: Self)
        ensures
            query == SearchQuery::Regex(value),
    {
        SearchQuery::Regex(value)
    }

    /// Creates an ordered multi-pattern query.
    pub fn any(queries: Vec<SearchQuery>) -> (query: Self)
        ensures
            query == SearchQuery::Any(queries),
    {
        SearchQuery::Any(queries)
    }

    /// Appends the prepared patterns of this query; fails with
    /// `EmptyQuery` exactly when one of its patterns is empty.
    pub fn collect_patterns(&self, case: CaseMode, patterns: &mut Vec<PreparedPattern>) -> (result: Result<()>)
        ensures
            prepared(*self, case) is None <==> result is Err,
            result is Err ==> result->Err_0 is EmptyQuery,
            match prepared(*self, case) {
                Some(found) => patterns_view(final(patterns)@) == patterns_view(old(patterns)@) + found,
                None => true,
            },
        decreases self,
    {
        match self {
            SearchQuery::Literal(text) => {
                if text.as_str().is_empty() {
                    return Err(Error::EmptyQuery);
                }
                let folded = is_case_insensitive(text.as_str(), case);
                if folded {
                    patterns.push(PreparedPattern::Regex(fold_case(escape_regex(text.as_str()))));
                } else {
                    patterns.push(PreparedPattern::SensitiveLiteral(text.clone()));
                }
                proof {
                    assert(patterns_view(patterns@) =~= patterns_view(old(patterns)@) + prepared(*self, case).unwrap());
                }
                Ok(())
            }
            SearchQuery::Regex(text) => {
                if text.as_str().is_empty() {
                    return Err(Error::EmptyQuery);
                }
                let folded = is_case_insensitive(text.as_str(), case);
                if folded {
                    patterns.push(PreparedPattern::Regex(fold_case(text.clone())));
                } else {
                    patterns.push(PreparedPattern::Regex(text.clone()));
                }
                proof {
                    assert(patterns_view(patterns@) =~= patterns_view(old(patterns)@) + prepared(*self, case).unwrap());
                }
                Ok(())
            }
            SearchQuery::Any(queries) => {
                let mut i: usize = 0;
                proof {
                    assert(queries@.subrange(0, 0) =~= Seq::<SearchQuery>::empty());
                    assert(patterns_view(patterns@) =~= patterns_view(old(patterns)@) + Seq::empty());
                }
                while i < queries.len()
                    invariant
                        i <= queries@.len(),
                        *self == SearchQuery::Any(*queries),
                        prepared_all(queries@.subrange(0, i as int), case) is Some,
                        patterns_view(patterns@) == patterns_view(old(patterns)@) + prepared_all(queries@.subrange(0, i as int), case).unwrap(),
                    decreases queries@.len() - i,
                {
                    let ghost before = patterns_view(patterns@);
                    let outcome = queries[i].collect_patterns(case, patterns);
                    proof {
                        let next = queries@.subrange(0, i + 1);
                        assert(next.subrange(0, i as int) =~= queries@.subrange(0, i as int));
                        assert(next[i as int] == queries@[i as int]);
                    }
                    if outcome.is_err() {
                        proof {
                            let next = queries@.subrange(0, i + 1);
                            lemma_prepared_all_none(queries@, case, i as int);
                            lemma_prepared_all_prefix_none(queries@, case, i + 1);
                        }
                        return outcome;
                    }
                    proof {
                        let next = queries@.subrange(0, i + 1);
                        assert(patterns_view(patterns@) =~= patterns_view(old(patterns)@)
                            + prepared_all(next, case).unwrap());
                    }
                    i = i + 1;
                }
                proof {
                    assert(queries@.subrange(0, queries@.len() as int) =~= queries@);
                }
                Ok(())
            }
        }
    }

    /// Prepares and compiles the query: one case-sensitive literal stays a
    /// byte literal; anything else becomes one multi-pattern regex built
    /// from the patterns' regex sources, in query order.
    pub fn compile(&self, case: CaseMode) -> (result: Result<CompiledQuery>)
        ensures
            result matches Ok(CompiledQuery::Literal(needle)) ==> needle@.len() > 0,
            match prepared(*self, case) {
                None => result is Err && result->Err_0 is EmptyQuery,
                Some(found) => if found.len() == 0 {
                    result is Err && result->Err_0 is EmptyQuery
                } else {
                    match result {
                        Ok(CompiledQuery::Literal(needle)) => found.len() == 1
                            && found[0] == SpecPattern::SensitiveLiteral(found[0]->SensitiveLiteral_0)
                            && needle@ == encode_utf8(found[0]->SensitiveLiteral_0),
                        Ok(CompiledQuery::Regex(regex)) => !(found.len() == 1 && found[0] is SensitiveLiteral)
                            && regex.sources() == regex_sources(found) && regex_accepts(regex_sources(found)),
                        Err(error) => !(found.len() == 1 && found[0] is SensitiveLiteral) && error is Regex
                            && !regex_accepts(regex_sources(found)),
                    }
                },
            },
    {
        let mut patterns: Vec<PreparedPattern> = Vec::new();
        let collected = self.collect_patterns(case, &mut patterns);
        if collected.is_err() {
            return Err(Error::EmptyQuery);
        }
        proof {
            assert(patterns_view(patterns@) =~= prepared(*self, case).unwrap());
        }
        if patterns.len() == 0 {
            return Err(Error::EmptyQuery);
        }
        if patterns.len() == 1 {
            let only = patterns.pop().unwrap();
            proof {
                assert(patterns_view(seq![only]) =~= prepared(*self, case).unwrap());
            }
            match only {
                PreparedPattern::SensitiveLiteral(text) => {
                    let needle = vstd::slice::slice_to_vec(crate::text::string_bytes(&text));
                    proof {
                        lemma_literals_nonempty(*self, case);
                        assert(prepared(*self, case).unwrap()[0] == only.view());
                        vstd::utf8::encode_utf8_decode_utf8(text@);
                    }
                    return Ok(CompiledQuery::Literal(needle));
                }
                PreparedPattern::Regex(text) => {
                    patterns.push(PreparedPattern::Regex(text));
                    proof {
                        assert(patterns_view(patterns@) =~= prepared(*self, case).unwrap());
                    }
                }
            }
        }
        let ghost found = patterns_view(patterns@);
        let mut sources: Vec<String> = Vec::new();
        let mut remaining = patterns;
        let mut reversed: Vec<PreparedPattern> = Vec::new();
        while remaining.len() > 0
            invariant
                patterns_view(remaining@) + patterns_view(reversed@).reverse() == found,
            decreases remaining@.len(),
        {
            let last = remaining.pop().unwrap();
            reversed.push(last);
            proof {
                assert(patterns_view(remaining@.push(last)) =~= patterns_view(remaining@).push(last.view()));
                assert(patterns_view(reversed@).reverse() =~= seq![last.view()] + patterns_view(reversed@.drop_last()).reverse());
                assert(patterns_view(remaining@) + patterns_view(reversed@).reverse() =~= found);
            }
        }
        proof {
            assert(patterns_view(reversed@).reverse() =~= found);
        }
        while reversed.len() > 0
            invariant
                sources@.len() + reversed@.len() == found.len(),
                forall|i: int| 0 <= i < sources@.len() ==> #[trigger] sources@[i]@ == regex_source(found[i]),
                forall|i: int| 0 <= i < reversed@.len() ==> #[trigger] reversed@[i].view() == found[found.len() - 1 - i],
            decreases reversed@.len(),
        {
            let next = reversed.pop().unwrap();
            proof {
                assert(next.view() == found[sources@.len() as int]);
            }
            sources.push(next.into_regex());
        }
        proof {
            assert(string_views(sources@) =~= regex_sources(found));
        }
        match build_regex(sources) {
            Ok(regex) => Ok(CompiledQuery::Regex(regex)),
            Err(error) => Err(Error::Regex(error)),
        }
    }
}

/// Every case-sensitive literal a query prepares is non-empty.
proof fn lemma_literals_nonempty(query: SearchQuery, case: CaseMode)
    ensures
        prepared(query, case) matches Some(found) ==> forall|i: int| 0 <= i < found.len() && (#[trigger] found[i]) is SensitiveLiteral
            ==> found[i]->SensitiveLiteral_0.len() > 0,
    decreases query,
{
    if let SearchQuery::Any(queries) = query {
        lemma_all_literals_nonempty(queries@, case);
    }
}

proof fn lemma_all_literals_nonempty(queries: Seq<SearchQuery>, case: CaseMode)
    ensures
        prepared_all(queries, case) matches Some(found) ==> forall|i: int| 0 <= i < found.len() && (#[trigger] found[i]) is SensitiveLiteral
            ==> found[i]->SensitiveLiteral_0.len() > 0,
    decreases queries,
{
    if queries.len() > 0 {
        let init = queries.subrange(0, queries.len() - 1);
        lemma_all_literals_nonempty(init, case);
        lemma_literals_nonempty(queries[queries.len() - 1], case);
        if let (Some(first), Some(last)) = (prepared_all(init, case), prepared(queries[queries.len() - 1], case)) {
            let found = first + last;
            assert forall|i: int| 0 <= i < found.len() && (#[trigger] found[i]) is SensitiveLiteral
                implies found[i]->SensitiveLiteral_0.len() > 0 by {
                if i >= first.len() {
                    assert(found[i] == last[i - first.len()]);
                }
            }
        }
    }
}

proof fn lemma_prepared_all_none(queries: Seq<SearchQuery>, case: CaseMode, i: int)
    requires
        0 <= i < queries.len(),
        prepared(queries[i], case) is None,
    ensures
        prepared_all(queries.subrange(0, i + 1), case) is None,
{
    let next = queries.subrange(0, i + 1);
    assert(next[i] == queries[i]);
}

proof fn lemma_prepared_all_prefix_none(queries: Seq<SearchQuery>, case: CaseMode, n: int)
    requires
        0 <= n <= queries.len(),
        prepared_all(queries.subrange(0, n), case) is None,
    ensures
        prepared_all(queries, case) is None,
    decreases queries.len() - n,
{
    if n < queries.len() {
        let longer = queries.subrange(0, n + 1);
        assert(longer.subrange(0, n) =~= queries.subrange(0, n));
        lemma_prepared_all_prefix_none(queries, case, n + 1);
    } else {
        assert(queries.subrange(0, n) =~= queries);
    }
}

/// A compiled multi-pattern regular expression.
#[verifier::external_type_specification]
#[verifier::external_body]
pub struct ExRegex(regex_automata::meta::Regex);

/// Scratch space of a compiled regular expression.
#[verifier::external_type_specification]
#[verifier::external_body]
pub struct ExCache(regex_automata::meta::Cache);

/// The regex sources of prepared patterns, in order.
pub open spec fn regex_sources(found: Seq<SpecPattern>) -> Seq<Seq<char>> {
    found.map_values(|pattern: SpecPattern| regex_source(pattern))
}

/// The views of a list of strings.
pub open spec fn string_views(strings: Seq<String>) -> Seq<Seq<char>> {
    strings.map_values(|s: String| s@)
}

/// Whether `regex_automata`'s meta engine, with UTF-8 syntax, accepts
/// these pattern sources as one multi-pattern regex.
pub uninterp spec fn regex_accepts(sources: Seq<Seq<char>>) -> bool;

/// The successive non-overlapping leftmost-first matches of the
/// multi-pattern regex built from `sources` in `haystack`, left to right,
/// as `regex_automata`'s search iterator yields them.
pub uninterp spec fn regex_matches(sources: Seq<Seq<char>>, haystack: Seq<u8>) -> Seq<MatchSpan>;

/// The capture groups of the successive non-overlapping leftmost-first
/// matches of the regex built from `sources` in `haystack[start..end]`,
/// with the group names of each match's pattern.
pub uninterp spec fn regex_captures(sources: Seq<Seq<char>>, haystack: Seq<u8>, start: usize, end: usize) -> Seq<SpecLookup>;

/// A multi-pattern regex together with the pattern sources it was built
/// from. Only `build_regex` makes one, so the two always belong together.
pub struct PatternRegex {
    regex: regex_automata::meta::Regex,
    sources: Vec<String>,
}

impl PatternRegex {
    /// The pattern sources, in pattern order.
    pub closed spec fn sources(&self) -> Seq<Seq<char>> {
        string_views(self.sources@)
    }
}

/// Builds one UTF-8 multi-pattern regex from `sources` with
/// `regex_automata::meta::Builder::build_many`.
///
/// Trusted: the build succeeds exactly when the engine accepts the sources
/// (named `regex_accepts`), and the result keeps the sources it was built
/// from.
#[verifier::external_body]
fn build_regex(sources: Vec<String>) -> (result: core::result::Result<PatternRegex, regex_automata::meta::BuildError>)
    ensures
        result is Ok <==> regex_accepts(string_views(sources@)),
        result matches Ok(built) ==> built.sources() == string_views(sources@),
{
    let built = regex_automata::meta::Regex::builder()
        .syntax(regex_automata::util::syntax::Config::new().utf8(true))
        .build_many(&sources);
    match built {
        Ok(regex) => Ok(PatternRegex { regex, sources }),
        Err(error) => Err(error),
    }
}

/// A compiled query.
pub enum CompiledQuery {
    /// One case-sensitive byte literal.
    Literal(Vec<u8>),
    /// A multi-pattern regex and the pattern sources it was built from.
    Regex(PatternRegex),
}

/// Scratch space of one compiled regex, and the regex it belongs to.
pub struct RegexCache {
    cache: regex_automata::meta::Cache,
    owner: Ghost<PatternRegex>,
}

impl RegexCache {
    /// The regex this scratch space was created for.
    pub closed spec fn owner(&self) -> PatternRegex {
        self.owner@
    }
}

/// Per-worker scratch space of a compiled query.
pub enum QueryCache {
    /// Literal queries need no scratch space.
    Literal,
    /// Regex scratch space.
    Regex(RegexCache),
}

/// Creates scratch space with `Regex::create_cache`.
///
/// Trusted: no property of the cache is claimed.
#[verifier::external_body]
fn regex_cache(regex: &regex_automata::meta::Regex) -> (cache: regex_automata::meta::Cache) {
    regex.create_cache()
}

/// Every match lies inside `start..end`, and each starts at or after the
/// end of the one before.
pub open spec fn hits_wf(hits: Seq<SpecLookup>, start: int, end: int, len: int) -> bool {
    &&& forall|k: int| 0 <= k < hits.len() ==> {
        &&& (#[trigger] hits[k]).groups.len() > 0
        &&& hits[k].groups[0] matches Some(range) && start <= range.0 <= range.1 <= end
        &&& groups_within(hits[k].groups, len)
    }
    &&& forall|k: int| 0 <= k < hits.len() - 1 ==> (#[trigger] hits[k]).groups[0]->Some_0.1 <= hits[k + 1].groups[0]->Some_0.0
}

/// Collects every match of the regex in `haystack` with
/// `regex_automata::util::iter::Searcher`, each search made by
/// `Regex::search_with` with this scratch space.
///
/// Trusted: the matches are `regex_matches` of the regex's sources and the
/// haystack; they lie inside the haystack, left to right and without
/// overlap, as the iterator documents.
#[verifier::external_body]
fn regex_find_all(regex: &PatternRegex, cache: &mut RegexCache, haystack: &[u8]) -> (spans: Vec<MatchSpan>)
    requires
        old(cache).owner() == *regex,
        haystack@.len() < usize::MAX,
    ensures
        final(cache).owner() == old(cache).owner(),
        spans@ == regex_matches(regex.sources(), haystack@),
        spans_wf(spans@, haystack@.len() as int),
{
    let scratch = &mut cache.cache;
    Searcher::new(Input::new(haystack))
        .into_matches_iter(|input| Ok(regex.regex.search_with(scratch, input)))
        .infallible()
        .map(|found| MatchSpan { pattern_index: found.pattern().as_usize(), start: found.start(), end: found.end() })
        .collect()
}

/// The first match the same iterator yields: one `Searcher::advance`.
///
/// Trusted: the result is the first of `regex_matches`, or `None` when
/// there is none; a match lies inside the haystack.
#[verifier::external_body]
fn regex_find_first(regex: &PatternRegex, cache: &mut RegexCache, haystack: &[u8]) -> (first: Option<MatchSpan>)
    requires
        old(cache).owner() == *regex,
        haystack@.len() < usize::MAX,
    ensures
        final(cache).owner() == old(cache).owner(),
        first matches Some(span) ==> span.start <= span.end <= haystack@.len(),
        first == if regex_matches(regex.sources(), haystack@).len() > 0 {
            Some(regex_matches(regex.sources(), haystack@)[0])
        } else {
            None
        },
{
    let scratch = &mut cache.cache;
    Searcher::new(Input::new(haystack))
        .advance(|input| Ok(regex.regex.search_with(scratch, input)))
        .map(|found| MatchSpan { pattern_index: found.pattern().as_usize(), start: found.start(), end: found.end() })
}

/// Collects the capture groups of every match of the regex in
/// `haystack[start..end]` with `Searcher::into_captures_iter`, each search
/// made by `Regex::search_captures_with`, and the group names of each
/// match's pattern.
///
/// Trusted: the result is `regex_captures` of the regex's sources and the
/// arguments; group 0 of each is the match, inside `start..end`; matches
/// come left to right without overlap; every group lies in the haystack.
#[verifier::external_body]
fn regex_capture_all(regex: &PatternRegex, cache: &mut RegexCache, haystack: &[u8], start: usize, end: usize) -> (hits: Vec<GroupLookup>)
    requires
        old(cache).owner() == *regex,
        start <= end <= haystack@.len(),
        end < usize::MAX,
    ensures
        final(cache).owner() == old(cache).owner(),
        hits@.map_values(|hit: GroupLookup| hit.view()) == regex_captures(regex.sources(), haystack@, start, end),
        hits_wf(hits@.map_values(|hit: GroupLookup| hit.view()), start as int, end as int, haystack@.len() as int),
{
    let scratch = &mut cache.cache;
    Searcher::new(Input::new(haystack).range(start..end))
        .into_captures_iter(regex.regex.create_captures(), |input, caps| Ok(regex.regex.search_captures_with(scratch, input, caps)))
        .infallible()
        .map(|caps| GroupLookup {
            groups: caps.iter().map(|group| group.map(|span| (span.start, span.end))).collect(),
            names: caps.pattern().map_or(Vec::new(), |pid| caps.group_info().pattern_names(pid)
                .map(|name| name.map(|text| text.as_bytes().to_vec())).collect()),
        })
        .collect()
}

/// `needle` occurs in `haystack` at `at`.
pub open spec fn occurs_at(haystack: Seq<u8>, needle: Seq<u8>, at: int) -> bool {
    0 <= at && at + needle.len() <= haystack.len() && haystack.subrange(at, at + needle.len()) == needle
}

/// Finds the first occurrence of `needle` with `memchr::memmem::find`.
///
/// Trusted: the result is the smallest index where the needle occurs, or
/// `None` when it does not occur, as `memmem` documents.
#[verifier::external_body]
fn find_substring(haystack: &[u8], needle: &[u8]) -> (found: Option<usize>)
    ensures
        match found {
            Some(at) => occurs_at(haystack@, needle@, at as int)
                && forall|j: int| 0 <= j < at ==> !occurs_at(haystack@, needle@, j),
            None => forall|j: int| 0 <= j ==> !occurs_at(haystack@, needle@, j),
        },
{
    memchr::memmem::find(haystack, needle)
}

/// Starts of the non-overlapping occurrences of a non-empty needle at or
/// after `from`, found left to right.
pub open spec fn literal_starts(haystack: Seq<u8>, needle: Seq<u8>, from: int) -> Seq<int>
    decreases haystack.len() - from,
{
    if needle.len() == 0 || from < 0 || from + needle.len() > haystack.len() {
        Seq::empty()
    } else if occurs_at(haystack, needle, from) {
        seq![from] + literal_starts(haystack, needle, from + needle.len())
    } else {
        literal_starts(haystack, needle, from + 1)
    }
}

proof fn lemma_literal_skip(haystack: Seq<u8>, needle: Seq<u8>, from: int, at: int)
    requires
        needle.len() > 0,
        0 <= from <= at,
        forall|j: int| from <= j < at ==> !occurs_at(haystack, needle, j),
    ensures
        literal_starts(haystack, needle, from) == if at + needle.len() <= haystack.len() {
            literal_starts(haystack, needle, at)
        } else {
            Seq::<int>::empty()
        },
    decreases at - from,
{
    if from < at {
        lemma_literal_skip(haystack, needle, from + 1, at);
        if from + needle.len() > haystack.len() {
            lemma_literal_none(haystack, needle, at);
        }
    }
}

proof fn lemma_literal_none(haystack: Seq<u8>, needle: Seq<u8>, from: int)
    requires
        needle.len() > 0,
        from >= 0,
        from + needle.len() > haystack.len(),
    ensures
        literal_starts(haystack, needle, from) == Seq::<int>::empty(),
{
}

proof fn lemma_literal_absent(haystack: Seq<u8>, needle: Seq<u8>, from: int)
    requires
        needle.len() > 0,
        from >= 0,
        forall|j: int| from <= j ==> !occurs_at(haystack, needle, j),
    ensures
        literal_starts(haystack, needle, from) == Seq::<int>::empty(),
    decreases haystack.len() - from,
{
    if from + needle.len() <= haystack.len() {
        lemma_literal_absent(haystack, needle, from + 1);
    }
}

/// Spans of a literal: pattern 0 at every non-overlapping occurrence.
pub open spec fn literal_spans(haystack: Seq<u8>, needle: Seq<u8>) -> Seq<MatchSpan> {
    literal_starts(haystack, needle, 0).map_values(|start: int| MatchSpan {
        pattern_index: 0,
        start: start as usize,
        end: (start + needle.len()) as usize,
    })
}

/// Spans that lie inside a text of `len` bytes, in order, without overlap.
pub open spec fn spans_wf(spans: Seq<MatchSpan>, len: int) -> bool {
    &&& forall|k: int| 0 <= k < spans.len() ==> #[trigger] spans[k].start <= spans[k].end <= len
    &&& forall|k: int| 0 <= k < spans.len() - 1 ==> #[trigger] spans[k].end <= spans[k + 1].start
}

proof fn lemma_literal_starts_bounds(haystack: Seq<u8>, needle: Seq<u8>, from: int)
    requires
        needle.len() > 0,
        from >= 0,
    ensures
        forall|k: int| 0 <= k < literal_starts(haystack, needle, from).len() ==> {
            let s = #[trigger] literal_starts(haystack, needle, from)[k];
            from <= s && s + needle.len() <= haystack.len()
        },
        forall|k: int| 0 <= k < literal_starts(haystack, needle, from).len() - 1 ==>
            #[trigger] literal_starts(haystack, needle, from)[k] + needle.len() <= literal_starts(haystack, needle, from)[k + 1],
    decreases haystack.len() - from,
{
    if from + needle.len() <= haystack.len() {
        if occurs_at(haystack, needle, from) {
            lemma_literal_starts_bounds(haystack, needle, from + needle.len());
            let rest = literal_starts(haystack, needle, from + needle.len());
            let all = literal_starts(haystack, needle, from);
            assert(all == seq![from] + rest);
            assert forall|k: int| 0 <= k < all.len() - 1 implies #[trigger] all[k] + needle.len() <= all[k + 1] by {
                if k > 0 {
                    assert(all[k] == rest[k - 1]);
                    assert(all[k + 1] == rest[k]);
                } else {
                    assert(all[1] == rest[0]);
                }
            }
            assert forall|k: int| 0 <= k < all.len() implies from <= #[trigger] all[k] && all[k] + needle.len() <= haystack.len() by {
                if k > 0 {
                    assert(all[k] == rest[k - 1]);
                }
            }
        } else {
            lemma_literal_starts_bounds(haystack, needle, from + 1);
            assert(literal_starts(haystack, needle, from) == literal_starts(haystack, needle, from + 1));
        }
    } else {
        assert(literal_starts(haystack, needle, from) == Seq::<int>::empty());
    }
}

/// What finds the matches of a query: a byte literal, or the
/// multi-pattern regex built from these sources.
pub enum SpecMatcher {
    Literal(Seq<u8>),
    Regex(Seq<Seq<char>>),
}

/// The matches of a matcher in `haystack`, left to right.
pub open spec fn matcher_spans(matcher: SpecMatcher, haystack: Seq<u8>) -> Seq<MatchSpan> {
    match matcher {
        SpecMatcher::Literal(needle) => literal_spans(haystack, needle),
        SpecMatcher::Regex(sources) => if haystack.len() < usize::MAX {
            regex_matches(sources, haystack)
        } else {
            Seq::empty()
        },
    }
}

/// What finds the matches of a compiled query.
pub open spec fn query_matcher(query: CompiledQuery) -> SpecMatcher {
    match query {
        CompiledQuery::Literal(needle) => SpecMatcher::Literal(needle@),
        CompiledQuery::Regex(regex) => SpecMatcher::Regex(regex.sources()),
    }
}

/// The matches of a compiled query in `haystack`, left to right.
pub open spec fn query_spans(query: CompiledQuery, haystack: Seq<u8>) -> Seq<MatchSpan> {
    matcher_spans(query_matcher(query), haystack)
}

impl CompiledQuery {
    /// Scratch space that belongs to this query.
    pub fn create_cache(&self) -> (cache: QueryCache)
        ensures
            cache_matches(self, &cache),
    {
        match self {
            CompiledQuery::Literal(_) => QueryCache::Literal,
            CompiledQuery::Regex(regex) => QueryCache::Regex(RegexCache { cache: regex_cache(&regex.regex), owner: Ghost(*regex) }),
        }
    }

    /// The non-overlapping matches of the query in `haystack`, left to
    /// right: a literal's occurrences, or the regex's leftmost-first
    /// matches.
    pub fn find_spans(&self, cache: &mut QueryCache, haystack: &[u8]) -> (spans: Vec<MatchSpan>)
        requires
            cache_matches(self, old(cache)),
            self is Literal ==> self->Literal_0@.len() > 0,
        ensures
            cache_matches(self, final(cache)),
            spans_wf(spans@, haystack@.len() as int),
            spans@ == query_spans(*self, haystack@),
    {
        match self {
            CompiledQuery::Literal(needle) => find_literal(haystack, needle.as_slice()),
            CompiledQuery::Regex(regex) => match cache {
                QueryCache::Regex(scratch) => if haystack.len() < usize::MAX {
                    regex_find_all(regex, scratch, haystack)
                } else {
                    // No haystack this long fits in memory; the engine needs
                    // one position past the end.
                    Vec::new()
                },
                QueryCache::Literal => Vec::new(),
            },
        }
    }
}

/// Whether a cache was created for this very query.
pub open spec fn cache_matches(query: &CompiledQuery, cache: &QueryCache) -> bool {
    match query {
        CompiledQuery::Literal(_) => cache is Literal,
        CompiledQuery::Regex(regex) => cache is Regex && cache->Regex_0.owner() == *regex,
    }
}

/// The output of a replacement preview over `end` bytes: the text between
/// matches copied, each match at `starts` (of `n` bytes) expanded.
pub open spec fn preview_pieces(haystack: Seq<u8>, starts: Seq<int>, n: int, copied: int, end: int, template: Seq<char>) -> Seq<u8>
    decreases starts.len(),
{
    if starts.len() == 0 {
        haystack.subrange(copied, end)
    } else {
        let s = starts[0];
        haystack.subrange(copied, s) + expansion(template, haystack, (s as usize, (s + n) as usize), None)
            + preview_pieces(haystack, starts.drop_first(), n, s + n, end, template)
    }
}

/// The full replacement preview of a literal query over `start..end`.
pub open spec fn literal_preview(haystack: Seq<u8>, start: int, end: int, needle: Seq<u8>, template: Seq<char>) -> Seq<u8> {
    preview_pieces(
        haystack,
        literal_starts(haystack.subrange(start, end), needle, 0).map_values(|s: int| s + start),
        needle.len() as int,
        start,
        end,
        template,
    )
}

/// The output of a regex replacement preview: the text between matches
/// copied, each match (group 0 of its captures) expanded with its groups.
pub open spec fn capture_pieces(haystack: Seq<u8>, hits: Seq<SpecLookup>, copied: int, end: int, template: Seq<char>) -> Seq<u8>
    decreases hits.len(),
{
    if hits.len() == 0 {
        haystack.subrange(copied, end)
    } else {
        let range = hits[0].groups[0]->Some_0;
        haystack.subrange(copied, range.0 as int) + expansion(template, haystack, range, Some(hits[0]))
            + capture_pieces(haystack, hits.drop_first(), range.1 as int, end, template)
    }
}

/// The full replacement preview of a regex over `start..end`.
pub open spec fn regex_preview(sources: Seq<Seq<char>>, haystack: Seq<u8>, start: int, end: int, template: Seq<char>) -> Seq<u8> {
    capture_pieces(haystack, regex_captures(sources, haystack, start as usize, end as usize), start, end, template)
}

/// The replacement preview of `start..end`, or `None` when it would pass
/// `limit` bytes.
pub open spec fn preview_result(query: CompiledQuery, haystack: Seq<u8>, start: int, end: int, template: Seq<char>, limit: int) -> Option<Seq<u8>> {
    let full = match query {
        CompiledQuery::Literal(needle) => literal_preview(haystack, start, end, needle@, template),
        CompiledQuery::Regex(regex) => regex_preview(regex.sources(), haystack, start, end, template),
    };
    if query is Regex && end >= usize::MAX {
        None
    } else if full.len() <= limit {
        Some(full)
    } else {
        None
    }
}

impl CompiledQuery {
    /// The first match of the query in `haystack`, if any.
    pub fn first_span(&self, cache: &mut QueryCache, haystack: &[u8]) -> (first: Option<MatchSpan>)
        requires
            cache_matches(self, old(cache)),
            self is Literal ==> self->Literal_0@.len() > 0,
        ensures
            cache_matches(self, final(cache)),
            first matches Some(span) ==> span.start <= span.end <= haystack@.len(),
            first == if query_spans(*self, haystack@).len() > 0 {
                Some(query_spans(*self, haystack@)[0])
            } else {
                None
            },
    {
        match self {
            CompiledQuery::Literal(needle) => {
                let length = haystack.len();
                let found = find_substring(haystack, needle.as_slice());
                proof {
                    match found {
                        Some(at) => {
                            lemma_literal_skip(haystack@, needle@, 0, at as int);
                            assert(literal_starts(haystack@, needle@, at as int)
                                == seq![at as int] + literal_starts(haystack@, needle@, at + needle@.len()));
                        }
                        None => {
                            lemma_literal_absent(haystack@, needle@, 0);
                        }
                    }
                }
                match found {
                    Some(at) => Some(MatchSpan { pattern_index: 0, start: at, end: at + needle.len() }),
                    None => None,
                }
            }
            CompiledQuery::Regex(regex) => match cache {
                QueryCache::Regex(scratch) => if haystack.len() < usize::MAX {
                    regex_find_first(regex, scratch, haystack)
                } else {
                    None
                },
                QueryCache::Literal => None,
            },
        }
    }

    /// The text of `start..end` with every match replaced by the expansion
    /// of `replacement`, or `None` when it would pass `limit` bytes.
    pub fn replacement_preview(
        &self,
        cache: &mut QueryCache,
        haystack: &[u8],
        start: usize,
        end: usize,
        replacement: &str,
        limit: usize,
    ) -> (preview: Option<Vec<u8>>)
        requires
            cache_matches(self, old(cache)),
            self is Literal ==> self->Literal_0@.len() > 0,
            start <= end <= haystack@.len(),
        ensures
            cache_matches(self, final(cache)),
            preview matches Some(out) ==> out@.len() <= limit,
            match preview {
                Some(out) => preview_result(*self, haystack@, start as int, end as int, replacement@, limit as int) == Some(out@),
                None => preview_result(*self, haystack@, start as int, end as int, replacement@, limit as int) is None,
            },
    {
        match self {
            CompiledQuery::Literal(needle) => literal_replacement(haystack, start, end, needle.as_slice(), replacement, limit),
            CompiledQuery::Regex(regex) => match cache {
                QueryCache::Regex(scratch) => if end < usize::MAX {
                    regex_replacement(regex, scratch, haystack, start, end, replacement, limit)
                } else {
                    // No haystack this long fits in memory; the engine needs
                    // one position past the end.
                    None
                },
                QueryCache::Literal => None,
            },
        }
    }
}

fn literal_replacement(haystack: &[u8], start: usize, end: usize, needle: &[u8], replacement: &str, limit: usize) -> (preview: Option<Vec<u8>>)
    requires
        needle@.len() > 0,
        start <= end <= haystack@.len(),
    ensures
        match preview {
            Some(out) => out@ == literal_preview(haystack@, start as int, end as int, needle@, replacement@)
                && out@.len() <= limit,
            None => literal_preview(haystack@, start as int, end as int, needle@, replacement@).len() > limit,
        },
{
    let ghost full = literal_preview(haystack@, start as int, end as int, needle@, replacement@);
    let ghost n = needle@.len() as int;
    let region = &haystack[start..end];
    let spans = find_literal(region, needle);
    let ghost starts = literal_starts(region@, needle@, 0).map_values(|s: int| s + start);
    proof {
        lemma_literal_starts_bounds(region@, needle@, 0);
        assert(region@ == haystack@.subrange(start as int, end as int));
    }
    let mut output: Vec<u8> = Vec::new();
    let mut exceeded = false;
    let mut copied = start;
    let mut k: usize = 0;
    proof {
        assert(starts.subrange(0, starts.len() as int) =~= starts);
        assert(output@ + full =~= full);
    }
    while k < spans.len() && !exceeded
        invariant
            k <= spans@.len(),
            spans@ == literal_spans(region@, needle@),
            starts.len() == spans@.len(),
            n == needle@.len(),
            region@ == haystack@.subrange(start as int, end as int),
            start <= end <= haystack@.len(),
            starts == literal_starts(region@, needle@, 0).map_values(|s: int| s + start),
            full == preview_pieces(haystack@, starts, n, start as int, end as int, replacement@),
            forall|j: int| 0 <= j < starts.len() ==> start <= #[trigger] starts[j] && starts[j] + n <= end,
            forall|j: int| 0 <= j < starts.len() - 1 ==> #[trigger] starts[j] + n <= starts[j + 1],
            k > 0 ==> copied == starts[k - 1] + n,
            k == 0 ==> copied == start,
            start <= copied <= end,
            !exceeded ==> output@ + preview_pieces(haystack@, starts.subrange(k as int, starts.len() as int), n, copied as int, end as int, replacement@) == full
                && output@.len() <= limit,
            exceeded ==> full.len() > limit,
        decreases spans@.len() - k,
    {
        let span = spans[k];
        let match_start = start + span.start;
        let match_end = start + span.end;
        let ghost rest = starts.subrange(k as int, starts.len() as int);
        let ghost gap = haystack@.subrange(copied as int, match_start as int);
        let ghost expanded = expansion(replacement@, haystack@, (match_start, match_end), None);
        let ghost later = preview_pieces(haystack@, rest.drop_first(), n, match_end as int, end as int, replacement@);
        proof {
            assert(span == literal_spans(region@, needle@)[k as int]);
            assert(match_start == starts[k as int]);
            assert(match_end == starts[k as int] + n);
            if k > 0 {
                assert(starts[k - 1] + n <= starts[k as int]);
            }
            assert(rest[0] == starts[k as int]);
            assert(rest.drop_first() =~= starts.subrange(k + 1, starts.len() as int));
            assert(preview_pieces(haystack@, rest, n, copied as int, end as int, replacement@) == gap + expanded + later);
            assert((gap + expanded + later).len() == gap.len() + expanded.len() + later.len());
        }
        let ghost before = output@;
        append_bounded(&mut output, &haystack[copied..match_start], limit, &mut exceeded);
        let ghost middle = output@;
        append_replacement(&mut output, replacement, haystack, (match_start, match_end), None, limit, &mut exceeded);
        proof {
            if !exceeded {
                assert(middle == before + gap);
                assert(output@ == middle + expanded);
                assert(output@ + later =~= before + (gap + expanded + later));
            }
        }
        copied = match_end;
        k = k + 1;
    }
    let ghost before = output@;
    append_bounded(&mut output, &haystack[copied..end], limit, &mut exceeded);
    if exceeded {
        return None;
    }
    proof {
        if k < spans.len() {
            assert(false);
        }
        assert(starts.subrange(k as int, starts.len() as int) =~= Seq::<int>::empty());
        assert(output@ =~= full);
    }
    Some(output)
}

fn regex_replacement(
    regex: &PatternRegex,
    cache: &mut RegexCache,
    haystack: &[u8],
    start: usize,
    end: usize,
    replacement: &str,
    limit: usize,
) -> (preview: Option<Vec<u8>>)
    requires
        old(cache).owner() == *regex,
        start <= end <= haystack@.len(),
        end < usize::MAX,
    ensures
        final(cache).owner() == old(cache).owner(),
        match preview {
            Some(out) => out@ == regex_preview(regex.sources(), haystack@, start as int, end as int, replacement@)
                && out@.len() <= limit,
            None => regex_preview(regex.sources(), haystack@, start as int, end as int, replacement@).len() > limit,
        },
{
    let hits = regex_capture_all(regex, cache, haystack, start, end);
    let ghost views = hits@.map_values(|hit: GroupLookup| hit.view());
    let ghost full = capture_pieces(haystack@, views, start as int, end as int, replacement@);
    let mut output: Vec<u8> = Vec::new();
    let mut exceeded = false;
    let mut copied = start;
    let mut k: usize = 0;
    proof {
        assert(views.subrange(0, views.len() as int) =~= views);
        assert(output@ + full =~= full);
    }
    while k < hits.len() && !exceeded
        invariant
            k <= hits@.len(),
            views == hits@.map_values(|hit: GroupLookup| hit.view()),
            hits_wf(views, start as int, end as int, haystack@.len() as int),
            start <= end <= haystack@.len(),
            full == capture_pieces(haystack@, views, start as int, end as int, replacement@),
            k > 0 ==> copied == views[k - 1].groups[0]->Some_0.1,
            k == 0 ==> copied == start,
            start <= copied <= end,
            !exceeded ==> output@ + capture_pieces(haystack@, views.subrange(k as int, views.len() as int), copied as int, end as int, replacement@) == full
                && output@.len() <= limit,
            exceeded ==> full.len() > limit,
        decreases hits@.len() - k,
    {
        let hit = &hits[k];
        proof {
            assert(views[k as int] == hit.view());
            assert(hit.groups@.len() > 0);
        }
        let range = hit.groups[0];
        let (match_start, match_end) = match range {
            Some(bounds) => bounds,
            None => {
                proof {
                    assert(views[k as int].groups[0] is Some);
                }
                (copied, copied)
            },
        };
        let ghost rest = views.subrange(k as int, views.len() as int);
        let ghost gap = haystack@.subrange(copied as int, match_start as int);
        let ghost expanded = expansion(replacement@, haystack@, (match_start, match_end), Some(views[k as int]));
        let ghost later = capture_pieces(haystack@, rest.drop_first(), match_end as int, end as int, replacement@);
        proof {
            assert(range == Some((match_start, match_end)));
            if k > 0 {
                assert(views[k - 1].groups[0]->Some_0.1 <= views[k - 1 + 1].groups[0]->Some_0.0);
            }
            assert(rest[0] == views[k as int]);
            assert(rest.drop_first() =~= views.subrange(k + 1, views.len() as int));
            assert(capture_pieces(haystack@, rest, copied as int, end as int, replacement@) == gap + expanded + later);
            assert((gap + expanded + later).len() == gap.len() + expanded.len() + later.len());
        }
        let ghost before = output@;
        append_bounded(&mut output, &haystack[copied..match_start], limit, &mut exceeded);
        let ghost middle = output@;
        append_replacement(&mut output, replacement, haystack, (match_start, match_end), Some(hit), limit, &mut exceeded);
        proof {
            if !exceeded {
                assert(middle == before + gap);
                assert(output@ == middle + expanded);
                assert(output@ + later =~= before + (gap + expanded + later));
            }
        }
        copied = match_end;
        k = k + 1;
    }
    append_bounded(&mut output, &haystack[copied..end], limit, &mut exceeded);
    if exceeded {
        return None;
    }
    proof {
        if k < hits.len() {
            assert(false);
        }
        assert(views.subrange(k as int, views.len() as int) =~= Seq::<SpecLookup>::empty());
        assert(output@ =~= full);
    }
    Some(output)
}

fn find_literal(haystack: &[u8], needle: &[u8]) -> (spans: Vec<MatchSpan>)
    requires
        needle@.len() > 0,
    ensures
        spans_wf(spans@, haystack@.len() as int),
        spans@ == literal_spans(haystack@, needle@),
{
    let mut spans: Vec<MatchSpan> = Vec::new();
    let mut position: usize = 0;
    let ghost all = literal_starts(haystack@, needle@, 0);
    proof {
        lemma_literal_starts_bounds(haystack@, needle@, 0);
    }
    while needle.len() <= haystack.len() - position
        invariant
            needle@.len() > 0,
            position <= haystack@.len(),
            all == literal_starts(haystack@, needle@, 0),
            forall|k: int| 0 <= k < spans@.len() ==> #[trigger] spans@[k] == (MatchSpan { pattern_index: 0, start: all[k] as usize, end: (all[k] + needle@.len()) as usize }),
            spans@.len() <= all.len(),
            all.subrange(spans@.len() as int, all.len() as int) == literal_starts(haystack@, needle@, position as int),
        decreases haystack@.len() - position,
    {
        let rest = &haystack[position..haystack.len()];
        match find_substring(rest, needle) {
            Some(relative) => {
                let start = position + relative;
                proof {
                    assert forall|j: int| position <= j < start implies !occurs_at(haystack@, needle@, j) by {
                        assert(rest@.subrange(j - position, j - position + needle@.len()) =~= haystack@.subrange(j, j + needle@.len()));
                        assert(!occurs_at(rest@, needle@, j - position));
                    }
                    assert(rest@.subrange(relative as int, relative + needle@.len()) =~= haystack@.subrange(start as int, start + needle@.len()));
                    lemma_literal_skip(haystack@, needle@, position as int, start as int);
                    assert(occurs_at(haystack@, needle@, start as int));
                    assert(literal_starts(haystack@, needle@, start as int)
                        == seq![start as int] + literal_starts(haystack@, needle@, start + needle@.len()));
                    let tail = all.subrange(spans@.len() as int, all.len() as int);
                    assert(tail[0] == start);
                    assert(all[spans@.len() as int] == start);
                    assert(all.subrange(spans@.len() + 1 as int, all.len() as int) =~= tail.drop_first());
                }
                spans.push(MatchSpan { pattern_index: 0, start, end: start + needle.len() });
                position = start + needle.len();
            }
            None => {
                proof {
                    assert forall|j: int| position <= j implies !occurs_at(haystack@, needle@, j) by {
                        if j + needle@.len() <= haystack@.len() {
                            assert(rest@.subrange(j - position, j - position + needle@.len()) =~= haystack@.subrange(j, j + needle@.len()));
                            assert(!occurs_at(rest@, needle@, j - position));
                        }
                    }
                    lemma_literal_absent(haystack@, needle@, position as int);
                }
                position = haystack.len();
            }
        }
    }
    proof {
        if position + needle@.len() > haystack@.len() {
            lemma_literal_none(haystack@, needle@, position as int);
        }
        assert(spans@ =~= literal_spans(haystack@, needle@));
    }
    spans
}

} // verus!
