use vstd::prelude::*;
use vstd::std_specs::iter::IteratorSpec;
use crate::ast::SAst;
use crate::bytes::api::{Regex, RegexBuilder};
use crate::error::Error;
use crate::parser::Options;
use crate::regex::api::{default_options, spec_compile};
use crate::regexset::string::{matching_indexes, spec_first_error, strings_view, strs_view};

verus! {

/// `re` is what compiling `p` under `options` and `size_limit` gives.
pub open spec fn compiled_from(re: Regex, p: Seq<char>, options: Options, size_limit: Option<usize>) -> bool {
    &&& spec_compile(p, options, size_limit) == Ok::<(SAst, int, Seq<Option<Seq<char>>>), Seq<char>>(
        (re.spec_ast(), re.spec_captures() as int, re.spec_names()),
    )
    &&& re.spec_pattern() == p
}

/// A compiled set of regular expressions for searching byte haystacks.
///
/// A `RegexSet` is created from many pattern strings and can be used to ask
/// which of those patterns match a haystack. Patterns are tested with the
/// same syntax and matching semantics as [`Regex`].
#[derive(Debug)]
pub struct RegexSet {
    patterns: Vec<String>,
    regexes: Vec<Regex>,
}

/// A configurable builder for compiling [`RegexSet`] values.
#[derive(Clone, Debug)]
pub struct RegexSetBuilder {
    patterns: Vec<String>,
    options: Options,
    size_limit: Option<usize>,
    dfa_size_limit: Option<usize>,
}

/// The set of pattern indexes that matched a byte haystack: one flag for every
/// pattern of the set.
#[derive(Clone, Debug, PartialEq, Eq)]
pub struct SetMatches {
    matched: Vec<bool>,
}

/// An iterator over the regex indexes that matched a haystack, in ascending
/// order.
#[derive(Clone, Debug)]
pub struct SetMatchesIter<'m> {
    matched: &'m [bool],
    next: usize,
}

/// Compiles each of `patterns` with `options` and `size_limit`, in order,
/// stopping at the first error.
fn compile_all(patterns: &[&str], options: Options, size_limit: Option<usize>, dfa_size_limit: Option<
    usize,
>) -> (r: Result<RegexSet, Error>)
    ensures
        match r {
            Ok(set) => {
                &&& spec_first_error(strs_view(patterns@), options, size_limit) is None
                &&& set.spec_patterns() == strs_view(patterns@)
                &&& set.spec_regexes().len() == patterns@.len()
                &&& forall|i: int|
                    0 <= i < patterns@.len() ==> compiled_from(
                        #[trigger] set.spec_regexes()[i],
                        patterns@[i]@,
                        options,
                        size_limit,
                    )
            },
            Err(e) => spec_first_error(strs_view(patterns@), options, size_limit) == Some(e@),
        },
{
    let mut stored: Vec<String> = Vec::new();
    let mut regexes: Vec<Regex> = Vec::new();
    let mut i: usize = 0;
    while i < patterns.len()
        invariant
            i <= patterns@.len(),
            stored@.len() == i,
            regexes@.len() == i,
            spec_first_error(strs_view(patterns@).take(i as int), options, size_limit) is None,
            forall|k: int| 0 <= k < i ==> #[trigger] stored@[k]@ == patterns@[k]@,
            forall|k: int|
                0 <= k < i ==> compiled_from(
                    #[trigger] regexes@[k],
                    patterns@[k]@,
                    options,
                    size_limit,
                ),
        decreases patterns.len() - i,
    {
        let p = patterns[i];
        let b = RegexBuilder::configured(p, options, size_limit, dfa_size_limit);
        proof {
            let t = strs_view(patterns@).take(i + 1);
            assert(t.drop_last() =~= strs_view(patterns@).take(i as int));
            assert(t.last() == p@);
        }
        match b.build() {
            Ok(re) => {
                regexes.push(re);
                stored.push(p.to_owned());
            },
            Err(e) => {
                proof {
                    crate::regexset::string::lemma_first_error_prefix(
                        strs_view(patterns@),
                        options,
                        size_limit,
                        i + 1,
                    );
                }
                return Err(e);
            },
        }
        i = i + 1;
    }
    proof {
        assert(strs_view(patterns@).take(i as int) =~= strs_view(patterns@));
        assert(strings_view(stored@) =~= strs_view(patterns@));
    }
    Ok(RegexSet { patterns: stored, regexes })
}

impl RegexSet {
    #[verifier::type_invariant]
    spec fn inv(&self) -> bool {
        &&& self.patterns@.len() == self.regexes@.len()
        &&& forall|i: int|
            0 <= i < self.regexes@.len() ==> (#[trigger] self.regexes@[i]).spec_pattern()
                == self.patterns@[i]@
    }

    /// The regexes of the set, in pattern order.
    pub closed spec fn spec_regexes(&self) -> Seq<Regex> {
        self.regexes@
    }

    /// The patterns of the set, in order.
    pub closed spec fn spec_patterns(&self) -> Seq<Seq<char>> {
        strings_view(self.patterns@)
    }

    /// Compile many patterns into a `RegexSet`.
    ///
    /// Returns the [`Error`] of the first pattern that does not compile.
    /// Pattern `i` of the input is regex `i` of the set.
    pub fn new(patterns: &[&str]) -> (r: Result<Self, Error>)
        ensures
            match r {
                Ok(set) => {
                    &&& spec_first_error(strs_view(patterns@), default_options(), None) is None
                    &&& set.spec_patterns() == strs_view(patterns@)
                    &&& set.spec_regexes().len() == patterns@.len()
                    &&& forall|i: int|
                        0 <= i < patterns@.len() ==> compiled_from(
                            #[trigger] set.spec_regexes()[i],
                            patterns@[i]@,
                            default_options(),
                            None,
                        )
                },
                Err(e) => spec_first_error(strs_view(patterns@), default_options(), None) == Some(
                    e@,
                ),
            },
    {
        compile_all(patterns, Options::default(), None, None)
    }

    /// Returns the pattern strings this `RegexSet` was compiled from.
    pub fn patterns(&self) -> (r: &[String])
        ensures
            strings_view(r@) == self.spec_patterns(),
    {
        self.patterns.as_slice()
    }

    /// Returns the number of regexes in this set.
    pub fn len(&self) -> (r: usize)
        ensures
            r == self.spec_regexes().len(),
    {
        self.regexes.len()
    }

    /// Returns `true` if this set contains no regexes.
    pub fn is_empty(&self) -> (r: bool)
        ensures
            r == (self.spec_regexes().len() == 0),
    {
        self.regexes.len() == 0
    }

    /// Returns `true` if and only if at least one regex in this set matches.
    pub fn is_match(&self, haystack: &[u8]) -> (r: bool)
        requires
            haystack@.len() < usize::MAX,
        ensures
            r == exists|i: int|
                0 <= i < self.spec_regexes().len() && (#[trigger] self.spec_regexes()[i]).spec_find(
                    haystack@,
                    0,
                ) is Some,
    {
        let mut i: usize = 0;
        while i < self.regexes.len()
            invariant
                i <= self.regexes@.len(),
                haystack@.len() < usize::MAX,
                forall|k: int|
                    0 <= k < i ==> (#[trigger] self.regexes@[k]).spec_find(haystack@, 0)
                        is None,
            decreases self.regexes.len() - i,
        {
            if self.regexes[i].is_match(haystack) {
                return true;
            }
            i = i + 1;
        }
        false
    }

    /// Returns the set of regex indexes that match `haystack`: one flag per
    /// regex of the set.
    pub fn matches(&self, haystack: &[u8]) -> (r: SetMatches)
        requires
            haystack@.len() < usize::MAX,
        ensures
            r.spec_matched().len() == self.spec_regexes().len(),
            forall|i: int|
                0 <= i < self.spec_regexes().len() ==> #[trigger] r.spec_matched()[i] == (
                self.spec_regexes()[i].spec_find(haystack@, 0) is Some),
    {
        let mut matched: Vec<bool> = Vec::new();
        let mut i: usize = 0;
        while i < self.regexes.len()
            invariant
                i <= self.regexes@.len(),
                haystack@.len() < usize::MAX,
                matched@.len() == i,
                forall|k: int|
                    0 <= k < i ==> #[trigger] matched@[k] == (self.regexes@[k].spec_find(
                        haystack@,
                        0,
                    ) is Some),
            decreases self.regexes.len() - i,
        {
            let m = self.regexes[i].is_match(haystack);
            matched.push(m);
            i = i + 1;
        }
        SetMatches { matched }
    }
}

impl RegexSetBuilder {
    /// The patterns, options and limits this builder compiles with.
    pub closed spec fn spec_patterns(&self) -> Seq<Seq<char>> {
        strings_view(self.patterns@)
    }

    pub closed spec fn spec_options(&self) -> Options {
        self.options
    }

    pub closed spec fn spec_size_limit(&self) -> Option<usize> {
        self.size_limit
    }

    pub closed spec fn spec_dfa_size_limit(&self) -> Option<usize> {
        self.dfa_size_limit
    }

    /// Create a new builder for a set of regex patterns, with the default
    /// options and no limits.
    pub fn new(patterns: &[&str]) -> (r: Self)
        ensures
            r.spec_patterns() == strs_view(patterns@),
            r.spec_options() == default_options(),
            r.spec_size_limit() is None,
            r.spec_dfa_size_limit() is None,
    {
        let mut stored: Vec<String> = Vec::new();
        let mut i: usize = 0;
        while i < patterns.len()
            invariant
                i <= patterns@.len(),
                stored@.len() == i,
                forall|k: int| 0 <= k < i ==> #[trigger] stored@[k]@ == patterns@[k]@,
            decreases patterns.len() - i,
        {
            stored.push(patterns[i].to_owned());
            i = i + 1;
        }
        assert(strings_view(stored@) =~= strs_view(patterns@));
        RegexSetBuilder {
            patterns: stored,
            options: Options::default(),
            size_limit: None,
            dfa_size_limit: None,
        }
    }

    /// Compile the configured regex set.
    ///
    /// Returns the [`Error`] of the first pattern that does not compile with
    /// the configured options and limits.
    pub fn build(&self) -> (r: Result<RegexSet, Error>)
        ensures
            match r {
                Ok(set) => {
                    &&& spec_first_error(self.spec_patterns(), self.spec_options(), self.spec_size_limit())
                        is None
                    &&& set.spec_patterns() == self.spec_patterns()
                    &&& set.spec_regexes().len() == self.spec_patterns().len()
                    &&& forall|i: int|
                        0 <= i < self.spec_patterns().len() ==> compiled_from(
                            #[trigger] set.spec_regexes()[i],
                            self.spec_patterns()[i],
                            self.spec_options(),
                            self.spec_size_limit(),
                        )
                },
                Err(e) => spec_first_error(self.spec_patterns(), self.spec_options(), self.spec_size_limit())
                    == Some(e@),
            },
    {
        let mut refs: Vec<&str> = Vec::new();
        let mut i: usize = 0;
        while i < self.patterns.len()
            invariant
                i <= self.patterns@.len(),
                refs@.len() == i,
                forall|k: int| 0 <= k < i ==> #[trigger] refs@[k]@ == self.patterns@[k]@,
            decreases self.patterns.len() - i,
        {
            refs.push(self.patterns[i].as_str());
            i = i + 1;
        }
        assert(strs_view(refs@) =~= strings_view(self.patterns@));
        compile_all(refs.as_slice(), self.options, self.size_limit, self.dfa_size_limit)
    }

    /// Enable or disable ASCII case-insensitive matching for every pattern.
    pub fn case_insensitive(&mut self, yes: bool) -> (r: &mut Self)
        ensures
            r.spec_options() == (Options { case_insensitive: yes, ..old(self).spec_options() }),
            r.spec_patterns() == old(self).spec_patterns(),
            r.spec_size_limit() == old(self).spec_size_limit(),
            r.spec_dfa_size_limit() == old(self).spec_dfa_size_limit(),
            *final(self) == *final(r),
    {
        self.options.case_insensitive = yes;
        self
    }

    /// Enable or disable multi-line mode for every pattern: `^` and `$` also
    /// match after and before `\n`.
    pub fn multi_line(&mut self, yes: bool) -> (r: &mut Self)
        ensures
            r.spec_options() == (Options { multi_line: yes, ..old(self).spec_options() }),
            r.spec_patterns() == old(self).spec_patterns(),
            r.spec_size_limit() == old(self).spec_size_limit(),
            r.spec_dfa_size_limit() == old(self).spec_dfa_size_limit(),
            *final(self) == *final(r),
    {
        self.options.multi_line = yes;
        self
    }

    /// Enable or disable letting `.` match `\n` in every pattern.
    pub fn dot_matches_new_line(&mut self, yes: bool) -> (r: &mut Self)
        ensures
            r.spec_options() == (Options { dot_matches_new_line: yes, ..old(self).spec_options() }),
            r.spec_patterns() == old(self).spec_patterns(),
            r.spec_size_limit() == old(self).spec_size_limit(),
            r.spec_dfa_size_limit() == old(self).spec_dfa_size_limit(),
            *final(self) == *final(r),
    {
        self.options.dot_matches_new_line = yes;
        self
    }

    /// Enable or disable CRLF-aware line anchors in every pattern.
    pub fn crlf(&mut self, yes: bool) -> (r: &mut Self)
        ensures
            r.spec_options() == (Options { crlf: yes, ..old(self).spec_options() }),
            r.spec_patterns() == old(self).spec_patterns(),
            r.spec_size_limit() == old(self).spec_size_limit(),
            r.spec_dfa_size_limit() == old(self).spec_dfa_size_limit(),
            *final(self) == *final(r),
    {
        self.options.crlf = yes;
        self
    }

    /// Enable or disable swapping greediness in every pattern.
    pub fn swap_greed(&mut self, yes: bool) -> (r: &mut Self)
        ensures
            r.spec_options() == (Options { swap_greed: yes, ..old(self).spec_options() }),
            r.spec_patterns() == old(self).spec_patterns(),
            r.spec_size_limit() == old(self).spec_size_limit(),
            r.spec_dfa_size_limit() == old(self).spec_dfa_size_limit(),
            *final(self) == *final(r),
    {
        self.options.swap_greed = yes;
        self
    }

    /// Enable or disable insignificant whitespace mode in every pattern.
    pub fn ignore_whitespace(&mut self, yes: bool) -> (r: &mut Self)
        ensures
            r.spec_options() == (Options { ignore_whitespace: yes, ..old(self).spec_options() }),
            r.spec_patterns() == old(self).spec_patterns(),
            r.spec_size_limit() == old(self).spec_size_limit(),
            r.spec_dfa_size_limit() == old(self).spec_dfa_size_limit(),
            *final(self) == *final(r),
    {
        self.options.ignore_whitespace = yes;
        self
    }

    /// Enable or disable Unicode mode: when disabled, `\u` escapes and `\p`
    /// classes are rejected.
    pub fn unicode(&mut self, yes: bool) -> (r: &mut Self)
        ensures
            r.spec_options() == (Options { unicode: yes, ..old(self).spec_options() }),
            r.spec_patterns() == old(self).spec_patterns(),
            r.spec_size_limit() == old(self).spec_size_limit(),
            r.spec_dfa_size_limit() == old(self).spec_dfa_size_limit(),
            *final(self) == *final(r),
    {
        self.options.unicode = yes;
        self
    }

    /// Enable or disable octal escapes such as `\141`.
    pub fn octal(&mut self, yes: bool) -> (r: &mut Self)
        ensures
            r.spec_options() == (Options { octal: yes, ..old(self).spec_options() }),
            r.spec_patterns() == old(self).spec_patterns(),
            r.spec_size_limit() == old(self).spec_size_limit(),
            r.spec_dfa_size_limit() == old(self).spec_dfa_size_limit(),
            *final(self) == *final(r),
    {
        self.options.octal = yes;
        self
    }

    /// Set the size limit: compiling a pattern fails when its tree has more
    /// nodes than `limit`.
    pub fn size_limit(&mut self, limit: usize) -> (r: &mut Self)
        ensures
            r.spec_size_limit() == Some(limit),
            r.spec_options() == old(self).spec_options(),
            r.spec_patterns() == old(self).spec_patterns(),
            r.spec_dfa_size_limit() == old(self).spec_dfa_size_limit(),
            *final(self) == *final(r),
    {
        self.size_limit = Some(limit);
        self
    }

    /// Records the DFA cache size requested by callers. This engine interprets
    /// the tree and keeps no DFA cache, so matching is unaffected.
    pub fn dfa_size_limit(&mut self, limit: usize) -> (r: &mut Self)
        ensures
            r.spec_dfa_size_limit() == Some(limit),
            r.spec_options() == old(self).spec_options(),
            r.spec_patterns() == old(self).spec_patterns(),
            r.spec_size_limit() == old(self).spec_size_limit(),
            *final(self) == *final(r),
    {
        self.dfa_size_limit = Some(limit);
        self
    }

    /// Set the nesting limit: compiling a pattern fails when its groups nest
    /// deeper than `limit`.
    pub fn nest_limit(&mut self, limit: u32) -> (r: &mut Self)
        ensures
            r.spec_options() == (Options { nest_limit: Some(limit), ..old(self).spec_options() }),
            r.spec_patterns() == old(self).spec_patterns(),
            r.spec_size_limit() == old(self).spec_size_limit(),
            r.spec_dfa_size_limit() == old(self).spec_dfa_size_limit(),
            *final(self) == *final(r),
    {
        self.options.nest_limit = Some(limit);
        self
    }
}

impl SetMatches {
    /// One flag per regex of the set: whether it matched.
    pub closed spec fn spec_matched(&self) -> Seq<bool> {
        self.matched@
    }

    /// Returns `true` if the regex at index `i` matched the haystack;
    /// `false` when `i` is out of bounds.
    pub fn matched(&self, i: usize) -> (r: bool)
        ensures
            r == (i < self.spec_matched().len() && self.spec_matched()[i as int]),
    {
        if i < self.matched.len() {
            self.matched[i]
        } else {
            false
        }
    }

    /// Returns `true` if at least one regex in the set matched the haystack.
    pub fn matched_any(&self) -> (r: bool)
        ensures
            r == exists|i: int| 0 <= i < self.spec_matched().len() && #[trigger] self.spec_matched()[i],
    {
        let mut i: usize = 0;
        while i < self.matched.len()
            invariant
                i <= self.matched@.len(),
                forall|k: int| 0 <= k < i ==> !#[trigger] self.matched@[k],
            decreases self.matched.len() - i,
        {
            if self.matched[i] {
                assert(self.spec_matched()[i as int]);
                return true;
            }
            i = i + 1;
        }
        false
    }

    /// Returns the number of regexes represented by this match set.
    pub fn len(&self) -> (r: usize)
        ensures
            r == self.spec_matched().len(),
    {
        self.matched.len()
    }

    /// Returns `true` if this match set contains no regex results.
    pub fn is_empty(&self) -> (r: bool)
        ensures
            r == (self.spec_matched().len() == 0),
    {
        self.matched.len() == 0
    }

    /// Returns an iterator over matching regex indexes in ascending order.
    pub fn iter(&self) -> (r: SetMatchesIter<'_>)
        ensures
            r.spec_matched() == self.spec_matched(),
            r.spec_next() == 0,
    {
        SetMatchesIter { matched: self.matched.as_slice(), next: 0 }
    }

    /// Consumes this match set and returns an iterator over the matching
    /// regex indexes, in ascending order.
    pub fn into_iter(self) -> (r: std::vec::IntoIter<usize>)
        ensures
            r.remaining() == matching_indexes(self.spec_matched(), 0),
    {
        let mut v: Vec<usize> = Vec::new();
        let mut i: usize = self.matched.len();
        while i > 0
            invariant
                i <= self.matched@.len(),
                v@ == matching_indexes(self.matched@, i as int).reverse(),
            decreases i,
        {
            i = i - 1;
            if self.matched[i] {
                v.push(i);
            }
            proof {
                crate::regexset::string::lemma_matching_step(self.matched@, i as int);
            }
        }
        let mut w: Vec<usize> = Vec::new();
        let mut k: usize = v.len();
        while k > 0
            invariant
                k <= v@.len(),
                w@ == v@.subrange(k as int, v@.len() as int).reverse(),
            decreases k,
        {
            k = k - 1;
            w.push(v[k]);
            assert(w@ =~= v@.subrange(k as int, v@.len() as int).reverse());
        }
        proof {
            assert(v@.subrange(0, v@.len() as int) =~= v@);
            assert(w@ =~= matching_indexes(self.matched@, 0));
        }
        let r = w.into_iter();
        proof {
            assert(r.remaining() == w@);
        }
        r
    }
}

impl<'m> SetMatchesIter<'m> {
    /// The flags being walked.
    pub closed spec fn spec_matched(&self) -> Seq<bool> {
        self.matched@
    }

    /// The index the walk continues from.
    pub closed spec fn spec_next(&self) -> usize {
        self.next
    }

    /// Advances the iterator and returns the next matching regex index, or
    /// `None` when exhausted.
    pub fn next(&mut self) -> (r: Option<usize>)
        ensures
            final(self).spec_matched() == old(self).spec_matched(),
            match r {
                Some(i) => matching_indexes(old(self).spec_matched(), old(self).spec_next() as int)
                    == seq![i] + matching_indexes(
                    final(self).spec_matched(),
                    final(self).spec_next() as int,
                ),
                None => matching_indexes(old(self).spec_matched(), old(self).spec_next() as int)
                    == Seq::<usize>::empty(),
            },
    {
        if self.next >= self.matched.len() {
            return None;
        }
        while self.next < self.matched.len()
            invariant
                self.next <= self.matched@.len(),
                self.matched@ == old(self).matched@,
                matching_indexes(old(self).matched@, old(self).next as int) == matching_indexes(
                    self.matched@,
                    self.next as int,
                ),
            decreases self.matched.len() - self.next,
        {
            let i = self.next;
            self.next = self.next + 1;
            if self.matched[i] {
                return Some(i);
            }
        }
        None
    }
}

impl Clone for RegexSet {
    /// A copy of this set: the same patterns, and a copy of each regex.
    fn clone(&self) -> (r: Self)
        ensures
            r.spec_patterns() == self.spec_patterns(),
            r.spec_regexes().len() == self.spec_regexes().len(),
            forall|i: int|
                0 <= i < self.spec_regexes().len() ==> {
                    let (a, b) = (#[trigger] r.spec_regexes()[i], self.spec_regexes()[i]);
                    &&& a.spec_pattern() == b.spec_pattern()
                    &&& a.spec_ast() == b.spec_ast()
                    &&& a.spec_captures() == b.spec_captures()
                    &&& a.spec_names() == b.spec_names()
                },
    {
        proof {
            use_type_invariant(self);
        }
        let mut patterns: Vec<String> = Vec::new();
        let mut regexes: Vec<Regex> = Vec::new();
        let mut i: usize = 0;
        while i < self.regexes.len()
            invariant
                i <= self.regexes@.len(),
                self.patterns@.len() == self.regexes@.len(),
                forall|k: int|
                    0 <= k < self.regexes@.len() ==> (#[trigger] self.regexes@[k]).spec_pattern()
                        == self.patterns@[k]@,
                patterns@.len() == i,
                regexes@.len() == i,
                forall|k: int| 0 <= k < i ==> #[trigger] patterns@[k] == self.patterns@[k],
                forall|k: int|
                    0 <= k < i ==> {
                        let (a, b) = (#[trigger] regexes@[k], self.regexes@[k]);
                        &&& a.spec_pattern() == b.spec_pattern()
                        &&& a.spec_ast() == b.spec_ast()
                        &&& a.spec_captures() == b.spec_captures()
                        &&& a.spec_names() == b.spec_names()
                        },
            decreases self.regexes.len() - i,
        {
            patterns.push(self.patterns[i].clone());
            regexes.push(self.regexes[i].clone());
            i = i + 1;
        }
        proof {
            assert(strings_view(patterns@) =~= strings_view(self.patterns@));
        }
        RegexSet { patterns, regexes }
    }
}

} // verus!
