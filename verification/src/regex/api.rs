use vstd::prelude::*;
use vstd::std_specs::iter::IteratorSpec;
use vstd::string::StringSliceAdditionalSpecFns;
use vstd::utf8::{
    decode_utf8, encode_utf8_decode_utf8, encode_utf8_valid_utf8, is_char_boundary,
    is_char_boundary_start_end_of_seq, valid_utf8,
};
use crate::ast::{saturate, spec_node_count, Ast, SAst};
use crate::error::Error;
use crate::grammar::sp_parse;
use crate::matcher::{
    advance, find, good_slots, groups_below, lemma_find_from_good, literal_prefix, spec_find_from,
    spec_literal_prefix, spec_step, SpecSlots,
};
use crate::parser::{names_view, name_view, options_cfg, options_flags, parse_with_options, Options};
use crate::regex::slots::Slots;
use crate::text::{push_str, good_pos, lemma_char_at_boundary, lemma_next_char_good, str_slice};
use crate::unicode::str_eq;
use crate::regex::replace::{expand, spec_expand};
use crate::regex::agree::{
    a_plus_b_tree, is_a_plus_b_tree, is_word_eq_digits_tree, word_eq_digits_tree,
};
use crate::regex::fast::{
    classify, count as fast_count, find as fast_find, is_match as fast_is_match,
    lemma_fast_find_good, spec_classify, spec_fast_count, spec_fast_find, spec_fast_is_match, Fast,
};

verus! {

/// What compiling `pattern` under `options`, with an optional limit on the
/// size of its tree, gives: the tree, the number of groups and their names,
/// or an error message.
pub open spec fn spec_compile(pattern: Seq<char>, options: Options, size_limit: Option<usize>) -> Result<
    (SAst, int, Seq<Option<Seq<char>>>),
    Seq<char>,
> {
    match sp_parse(options_cfg(pattern, options), options_flags(options)) {
        Err(m) => Err(m),
        Ok((a, c, n)) => if size_limit matches Some(l) && saturate(spec_node_count(a)) > l {
            Err("compiled regex exceeds size limit"@)
        } else {
            Ok((a, c, n))
        },
    }
}

/// A compiled regular expression for searching Unicode string haystacks.
///
/// A `Regex` is created from a pattern string and can be used to search
/// haystacks, iterate over all matches, extract capture groups, split
/// haystacks into substrings, or replace matched substrings.
///
/// Searching is unanchored by default — the regex is tried at every position
/// in the haystack. To force a match at the start or end use `^` / `$`.
/// A search finds the leftmost position at which the pattern matches, and
/// there the first way to match in the pattern's priority order: the
/// leftmost alternative, the most repetitions of a greedy quantifier and the
/// fewest of a lazy one.
#[derive(Debug)]
pub struct Regex {
    pattern: String,
    ast: Ast,
    captures: usize,
    capture_names: Vec<Option<String>>,
    prefix: Option<char>,
    fast: Fast,
}

/// A configurable builder for a [`Regex`].
#[derive(Clone, Debug)]
pub struct RegexBuilder {
    pattern: String,
    options: Options,
    size_limit: Option<usize>,
    dfa_size_limit: Option<usize>,
}

/// A single contiguous match within a haystack: the byte-offset range
/// `[start, end)`, on character boundaries.
#[derive(Clone, Copy, Debug, PartialEq, Eq)]
pub struct Match<'h> {
    haystack: &'h str,
    start: usize,
    end: usize,
}

/// The capture groups produced by a single match of a [`Regex`].
///
/// Group `0` is always the whole match. Groups `1`, `2`, … correspond to the
/// parenthesised sub-expressions in the pattern, left-to-right.
#[derive(Debug)]
pub struct Captures<'h> {
    haystack: &'h str,
    slots: Slots,
    names: Vec<Option<String>>,
}

/// An iterator over all non-overlapping [`Match`]es in a haystack.
///
/// Created by [`Regex::find_iter`]. Yields successive [`Match`] values from
/// left to right through [`FindMatches::next`]. After an empty match the next
/// search starts one character further on, so that every position is tried
/// once; an empty match where a non-empty one just ended is passed over.
pub struct FindMatches<'r, 'h> {
    re: &'r Regex,
    haystack: &'h str,
    next: usize,
    done: bool,
    skip: bool,
}

/// An iterator over all non-overlapping [`Captures`] in a haystack.
///
/// Created by [`Regex::captures_iter`]; it steps as [`FindMatches`] does.
pub struct CaptureMatches<'r, 'h> {
    re: &'r Regex,
    haystack: &'h str,
    next: usize,
    done: bool,
    skip: bool,
}

/// An iterator over substrings of a haystack split by a [`Regex`].
///
/// Created by [`Regex::split`]. Yields the parts of the haystack that lie
/// *between* successive matches, then the part after the last one.
pub struct Split<'r, 'h> {
    matches: FindMatches<'r, 'h>,
    last: usize,
    finished: bool,
}

/// The dedicated search `fast` stands for the tree `ast` with `cap_count`
/// groups: none, or the one for `a+b` on its tree, or the one for
/// `(\w+)=(\d+)` on its tree.
pub open spec fn fast_fits(fast: Fast, ast: SAst, cap_count: nat) -> bool {
    match fast {
        Fast::Engine => true,
        Fast::APlusB => cap_count == 0 && ast == a_plus_b_tree(),
        Fast::WordEqDigits => cap_count == 2 && ast == word_eq_digits_tree(),
    }
}

/// The dedicated search a regex compiled from `pattern` into the tree
/// `ast` with `cap_count` groups uses: that of the pattern's text, where
/// the tree is the one it stands for.
pub open spec fn spec_fast_for(pattern: Seq<char>, ast: SAst, cap_count: nat) -> Fast {
    if fast_fits(spec_classify(pattern), ast, cap_count) {
        spec_classify(pattern)
    } else {
        Fast::Engine
    }
}

/// What a search for the tree `ast` (with `cap_count` groups) from byte
/// offset `start` of the text `s` finds, given the dedicated search `fast`
/// of the pattern: what the dedicated search finds, and where it finds
/// nothing, the leftmost-first match of the tree.
pub open spec fn spec_search(fast: Fast, ast: SAst, cap_count: nat, s: Seq<u8>, start: int) -> Option<
    SpecSlots,
> {
    match spec_fast_find(fast, s, start) {
        Some(sl) => Some(sl),
        None => spec_find_from(ast, s, cap_count, start, true),
    }
}

/// What a search finds holds spans of good positions, the whole match
/// starting no earlier than the search did.
pub proof fn lemma_search_good(fast: Fast, ast: SAst, cap_count: nat, s: Seq<u8>, start: int)
    requires
        good_pos(s, start, true),
        groups_below(ast, cap_count + 1),
    ensures
        spec_search(fast, ast, cap_count, s, start) matches Some(sl) ==> {
            &&& good_slots(s, sl, sl.len(), true)
            &&& sl.len() >= 1
            &&& sl[0] matches Some((a, b)) && start <= a
            &&& fast_fits(fast, ast, cap_count) ==> sl.len() == cap_count + 1
        },
{
    lemma_fast_find_good(fast, s, start);
    lemma_find_from_good(ast, s, cap_count, start, true);
}

/// What a search made while iterating from byte offset `next` finds: the
/// match a search from `next` finds, except that where `skip` holds (a
/// non-empty match has just ended at `next`) an empty match at `next` is
/// passed over, and the search is made again from the next character.
pub open spec fn spec_search_next(fast: Fast, ast: SAst, cap_count: nat, s: Seq<u8>, next: usize, skip: bool) -> Option<
    SpecSlots,
> {
    match spec_search(fast, ast, cap_count, s, next as int) {
        Some(sl) => if skip && sl[0] == Some((next, next)) {
            if next < s.len() {
                spec_search(fast, ast, cap_count, s, spec_advance(s, next) as int)
            } else {
                None
            }
        } else {
            Some(sl)
        },
        None => None,
    }
}

/// One step of iterating over the matches of the tree `ast` (with
/// `cap_count` groups) in the text `s`, from byte offset `next`: the slots of
/// the match found, if any, then where the following search starts, whether
/// the end of the text has been reached, and whether the match found was
/// non-empty (so that an empty match where it ended is passed over).
pub open spec fn spec_iter_step(
    fast: Fast,
    ast: SAst,
    cap_count: nat,
    s: Seq<u8>,
    next: usize,
    done: bool,
    skip: bool,
) -> (Option<SpecSlots>, usize, bool, bool) {
    if done {
        (None, next, true, skip)
    } else {
        match spec_search_next(fast, ast, cap_count, s, next, skip) {
            Some(sl) => match sl[0] {
                Some((a, b)) => (
                    Some(sl),
                    if a == b {
                        spec_advance(s, b)
                    } else {
                        b
                    },
                    b == s.len(),
                    a != b,
                ),
                None => (None, next, false, skip),
            },
            None => (None, next, false, skip),
        }
    }
}

/// The offset just past the character at `pos`, or `pos` at the end.
pub open spec fn spec_advance(s: Seq<u8>, pos: usize) -> usize {
    if pos >= s.len() {
        pos
    } else {
        spec_step(s, pos as int, true) as usize
    }
}

/// How many matches iterating from `next` yields.
pub open spec fn spec_count(
    fast: Fast,
    ast: SAst,
    cap_count: nat,
    s: Seq<u8>,
    next: usize,
    done: bool,
    skip: bool,
) -> nat
    decreases (if done {
        0
    } else {
        s.len() + 1 - next
    }),
{
    let (o, n2, d2, k2) = spec_iter_step(fast, ast, cap_count, s, next, done, skip);
    if o is None {
        0
    } else if d2 || (next < n2 <= s.len()) {
        1 + spec_count(fast, ast, cap_count, s, n2, d2, k2)
    } else {
        0
    }
}

/// Iterating yields at most one match more than there are positions left.
pub(crate) proof fn lemma_count_bound(
    fast: Fast,
    ast: SAst,
    cap_count: nat,
    s: Seq<u8>,
    next: usize,
    done: bool,
    skip: bool,
)
    requires
        next <= s.len(),
    ensures
        spec_count(fast, ast, cap_count, s, next, done, skip) <= (if done {
            0
        } else {
            s.len() + 1 - next
        }),
    decreases (if done {
        0
    } else {
        s.len() + 1 - next
    }),
{
    let (o, n2, d2, k2) = spec_iter_step(fast, ast, cap_count, s, next, done, skip);
    if o is Some {
        if d2 {
            assert(spec_count(fast, ast, cap_count, s, n2, true, k2) == 0);
        }
        if next < n2 <= s.len() {
            lemma_count_bound(fast, ast, cap_count, s, n2, d2, k2);
        }
    }
}

/// The slots of every match iterating from `next` yields, in order.
pub open spec fn spec_all_matches(
    fast: Fast,
    ast: SAst,
    cap_count: nat,
    s: Seq<u8>,
    next: usize,
    done: bool,
    skip: bool,
) -> Seq<SpecSlots>
    decreases (if done {
        0
    } else {
        s.len() + 1 - next
    }),
{
    let (o, n2, d2, k2) = spec_iter_step(fast, ast, cap_count, s, next, done, skip);
    match o {
        None => seq![],
        Some(sl) => if d2 || (next < n2 <= s.len()) {
            seq![sl] + spec_all_matches(fast, ast, cap_count, s, n2, d2, k2)
        } else {
            seq![]
        },
    }
}

/// Where the whole match recorded in `sl` ends.
pub open spec fn spec_match_end(sl: SpecSlots) -> int {
    match sl[0] {
        Some((_, b)) => b as int,
        None => 0,
    }
}

/// Where the whole match recorded in `sl` starts.
pub open spec fn spec_match_start(sl: SpecSlots) -> int {
    match sl[0] {
        Some((a, _)) => a as int,
        None => 0,
    }
}

/// Where the text after the matches `ms` begins.
pub open spec fn spec_after(ms: Seq<SpecSlots>) -> int {
    if ms.len() == 0 {
        0
    } else {
        spec_match_end(ms.last())
    }
}

/// The text of `hay` up to the end of the last of the matches `ms`, each
/// match replaced by the text of `mids` at its place.
pub open spec fn spec_spliced(hay: Seq<u8>, ms: Seq<SpecSlots>, mids: Seq<Seq<char>>) -> Seq<char>
    decreases ms.len(),
{
    if ms.len() == 0 {
        seq![]
    } else {
        spec_spliced(hay, ms.drop_last(), mids.drop_last()) + decode_utf8(
            hay.subrange(spec_after(ms.drop_last()), spec_match_start(ms.last())),
        ) + mids.last()
    }
}

/// The parts of `hay` that splitting yields from `last` on, given the
/// matches `ms` still to come: the text before each match, then the rest.
pub open spec fn spec_split_parts(hay: Seq<u8>, ms: Seq<SpecSlots>, last: int) -> Seq<Seq<u8>>
    decreases ms.len(),
{
    if ms.len() == 0 {
        seq![hay.subrange(last, hay.len() as int)]
    } else {
        seq![hay.subrange(last, spec_match_start(ms[0]))] + spec_split_parts(
            hay,
            ms.drop_first(),
            spec_match_end(ms[0]),
        )
    }
}

/// Advances `pos` past the next character of `s`, or returns `pos` at the end.
fn advance_str(s: &str, pos: usize) -> (r: usize)
    requires
        pos < usize::MAX,
        s.spec_bytes().len() < usize::MAX,
    ensures
        r == spec_advance(s.spec_bytes(), pos),
{
    if pos >= s.len() {
        pos
    } else {
        advance(s.as_bytes(), pos)
    }
}

/// A step that found a match moves on: the following search starts at a
/// boundary after the match, or the end has been reached.
pub proof fn lemma_iter_step(fast: Fast, ast: SAst, cap_count: nat, s: Seq<u8>, next: usize, skip: bool)
    requires
        good_pos(s, next as int, true),
        groups_below(ast, cap_count + 1),
    ensures
        ({
            let (o, n2, d2, k2) = spec_iter_step(fast, ast, cap_count, s, next, false, skip);
            o matches Some(sl) ==> {
                &&& good_slots(s, sl, sl.len(), true)
                &&& sl.len() >= 1
                &&& fast_fits(fast, ast, cap_count) ==> sl.len() == cap_count + 1
                &&& sl[0] matches Some((a, b)) && next <= a <= b <= n2 <= s.len() && (a == b && b
                    < s.len() ==> b < n2) && (skip && a == b ==> next < a)
                &&& good_pos(s, n2 as int, true)
                &&& (d2 || next < n2)
            }
        }),
{
    lemma_search_good(fast, ast, cap_count, s, next as int);
    if next < s.len() {
        lemma_char_at_boundary(s, next as int);
        lemma_next_char_good(s, next as int, true);
        lemma_search_good(fast, ast, cap_count, s, spec_advance(s, next) as int);
    }
    match spec_search_next(fast, ast, cap_count, s, next, skip) {
        Some(sl) => {
            if let Some((a, b)) = sl[0] {
                assert(good_pos(s, b as int, true));
                if a == b && b < s.len() {
                    lemma_char_at_boundary(s, b as int);
                    lemma_next_char_good(s, b as int, true);
                }
            }
        },
        None => {},
    }
}

/// A type that can produce replacement text for a [`Regex`] substitution.
///
/// Implement this trait to control how matched text is replaced in
/// [`Regex::replace`] and [`Regex::replace_all`]. The [`Captures`] argument
/// gives access to the full match and any capture groups.
///
/// Implementations are provided for `&str` and `String`, which are templates
/// (see [`expand`](crate::regex::replace::expand)), and for any
/// `FnMut(&Captures<'_>) -> String` closure, whose result is appended.
pub trait Replacer: Sized {
    /// Whether `added` is text this replacer may append for a match in the
    /// haystack `hay` with group spans `slots` and group names `names`.
    spec fn appends(
        &self,
        hay: Seq<u8>,
        slots: SpecSlots,
        names: Seq<Option<Seq<char>>>,
        added: Seq<char>,
    ) -> bool;

    /// Whether appending leaves the replacer as it was.
    spec fn stable(&self) -> bool;

    /// Whether this replacer can be asked for text for `caps`.
    spec fn ready(&self, caps: &Captures<'_>) -> bool;

    /// Appends replacement text for `caps` to `dst`.
    fn replace_append(&mut self, caps: &Captures<'_>, dst: &mut String)
        requires
            old(self).ready(caps),
        ensures
            old(dst)@.is_prefix_of(final(dst)@),
            old(self).appends(
                caps.spec_hay(),
                caps.spec_slots(),
                caps.spec_names(),
                final(dst)@.skip(old(dst)@.len() as int),
            ),
            old(self).stable() ==> *final(self) == *old(self),
            (forall|c: &Captures| #[trigger] old(self).ready(c)) ==> (forall|c: &Captures|
                #[trigger] final(self).ready(c)),
    ;
}

impl Replacer for &str {
    open spec fn appends(
        &self,
        hay: Seq<u8>,
        slots: SpecSlots,
        names: Seq<Option<Seq<char>>>,
        added: Seq<char>,
    ) -> bool {
        added == spec_expand((**self)@, hay, slots, names)
    }

    open spec fn stable(&self) -> bool {
        true
    }

    open spec fn ready(&self, caps: &Captures<'_>) -> bool {
        true
    }

    /// Expands `$N`, `${N}`, `${name}` and `$$` in this template and appends the result to `dst`.
    fn replace_append(&mut self, caps: &Captures<'_>, dst: &mut String) {
        let ghost d0 = dst@;
        expand(*self, caps, dst);
        assert(dst@.skip(d0.len() as int) =~= spec_expand((**self)@, caps.spec_hay(), caps.spec_slots(), caps.spec_names()));
        assert(d0.is_prefix_of(dst@)) by {
            assert(dst@.subrange(0, d0.len() as int) =~= d0);
        }
    }
}

impl Replacer for String {
    open spec fn appends(
        &self,
        hay: Seq<u8>,
        slots: SpecSlots,
        names: Seq<Option<Seq<char>>>,
        added: Seq<char>,
    ) -> bool {
        added == spec_expand(self@, hay, slots, names)
    }

    open spec fn stable(&self) -> bool {
        true
    }

    open spec fn ready(&self, caps: &Captures<'_>) -> bool {
        true
    }

    /// Expands `$N`, `${N}`, `${name}` and `$$` in this template and appends the result to `dst`.
    fn replace_append(&mut self, caps: &Captures<'_>, dst: &mut String) {
        let ghost d0 = dst@;
        expand(self.as_str(), caps, dst);
        assert(dst@.skip(d0.len() as int) =~= spec_expand(self@, caps.spec_hay(), caps.spec_slots(), caps.spec_names()));
        assert(d0.is_prefix_of(dst@)) by {
            assert(dst@.subrange(0, d0.len() as int) =~= d0);
        }
    }
}

impl<F> Replacer for F where F: FnMut(&Captures<'_>) -> String {
    /// A closure appends what it returns for the captures.
    open spec fn appends(
        &self,
        hay: Seq<u8>,
        slots: SpecSlots,
        names: Seq<Option<Seq<char>>>,
        added: Seq<char>,
    ) -> bool {
        exists|c: Captures<'_>, s: String|
            #![trigger call_ensures(*self, (&c,), s)]
            c.spec_hay() == hay && c.spec_slots() == slots && c.spec_names() == names
                && call_ensures(*self, (&c,), s) && s@ == added
    }

    open spec fn stable(&self) -> bool {
        true
    }

    open spec fn ready(&self, caps: &Captures<'_>) -> bool {
        call_requires(*self, (caps,))
    }

    /// Calls the closure with `caps` and appends the returned string to `dst`.
    fn replace_append(&mut self, caps: &Captures<'_>, dst: &mut String) {
        broadcast use vstd::function::group_function_axioms;

        let ghost d0 = dst@;
        let s = self(caps);
        push_str(dst, s.as_str());
        assert(dst@.skip(d0.len() as int) =~= s@);
        assert(d0.is_prefix_of(dst@)) by {
            assert(dst@.subrange(0, d0.len() as int) =~= d0);
        }
    }
}

impl Regex {
    #[verifier::type_invariant]
    spec fn inv(&self) -> bool {
        &&& self.captures < usize::MAX
        &&& groups_below(self.ast@, self.captures as nat + 1)
        &&& self.prefix == spec_literal_prefix(self.ast@)
        &&& self.capture_names@.len() == self.captures
        &&& fast_fits(self.fast, self.ast@, self.captures as nat)
    }

    /// The pattern this regex was compiled from.
    pub closed spec fn spec_pattern(&self) -> Seq<char> {
        self.pattern@
    }

    /// The tree of the pattern.
    pub closed spec fn spec_ast(&self) -> SAst {
        self.ast@
    }

    /// The number of capturing groups, group 0 not counted.
    pub closed spec fn spec_captures(&self) -> nat {
        self.captures as nat
    }

    /// The names of the capturing groups `1..`, in order.
    pub closed spec fn spec_names(&self) -> Seq<Option<Seq<char>>> {
        names_view(self.capture_names@)
    }

    /// What a search of the text `s` for this regex from byte offset
    /// `start` finds: the slots of what the dedicated search of the pattern
    /// finds, if it has one and it finds something, and otherwise those of
    /// the leftmost-first match.
    pub open spec fn spec_find(&self, s: Seq<u8>, start: int) -> Option<SpecSlots> {
        spec_search(self.spec_fast(), self.spec_ast(), self.spec_captures(), s, start)
    }

    /// The dedicated search this regex uses, if any.
    pub closed spec fn spec_fast(&self) -> Fast {
        self.fast
    }

    /// Whether this regex matches somewhere in the text `s`: what the
    /// dedicated search tells, when there is one, and otherwise whether a
    /// search from the start finds a match.
    pub open spec fn spec_is_match(&self, s: Seq<u8>) -> bool {
        match spec_fast_is_match(self.spec_fast(), s, 0) {
            Some(b) => b,
            None => self.spec_find(s, 0) is Some,
        }
    }

    /// Compile `pattern` into a `Regex`.
    ///
    /// Returns an [`Error`] if the pattern contains invalid syntax.
    pub fn new(pattern: &str) -> (r: Result<Self, Error>)
        ensures
            match r {
                Ok(re) => {
                    &&& spec_compile(pattern@, default_options(), None) == Ok::<
                        (SAst, int, Seq<Option<Seq<char>>>),
                        Seq<char>,
                    >((re.spec_ast(), re.spec_captures() as int, re.spec_names()))
                    &&& re.spec_pattern() == pattern@
                    &&& groups_below(re.spec_ast(), re.spec_captures() + 1)
                    &&& re.spec_fast() == spec_fast_for(pattern@, re.spec_ast(), re.spec_captures())
                    &&& fast_fits(re.spec_fast(), re.spec_ast(), re.spec_captures())
                },
                Err(e) => spec_compile(pattern@, default_options(), None) == Err::<
                    (SAst, int, Seq<Option<Seq<char>>>),
                    Seq<char>,
                >(e@),
            },
    {
        let b = RegexBuilder::new(pattern);
        match b.build() {
            Ok(re) => Ok(re.with_fast_path()),
            Err(e) => Err(e),
        }
    }

    /// This regex, using the dedicated search of its pattern if it has one.
    pub(crate) fn with_fast_path(self) -> (r: Regex)
        ensures
            r.spec_pattern() == self.spec_pattern(),
            r.spec_ast() == self.spec_ast(),
            r.spec_captures() == self.spec_captures(),
            r.spec_names() == self.spec_names(),
            r.spec_fast() == spec_fast_for(self.spec_pattern(), self.spec_ast(), self.spec_captures()),
    {
        proof {
            use_type_invariant(&self);
        }
        let mut re = self;
        let fast = match classify(re.pattern.as_str()) {
            Fast::APlusB => if re.captures == 0 && is_a_plus_b_tree(&re.ast) {
                Fast::APlusB
            } else {
                Fast::Engine
            },
            Fast::WordEqDigits => if re.captures == 2 && is_word_eq_digits_tree(&re.ast) {
                Fast::WordEqDigits
            } else {
                Fast::Engine
            },
            Fast::Engine => Fast::Engine,
        };
        re.fast = fast;
        re
    }

    /// Returns the pattern string this `Regex` was compiled from.
    pub fn as_str(&self) -> (r: &str)
        ensures
            r@ == self.spec_pattern(),
    {
        self.pattern.as_str()
    }

    /// The number of capture groups, including group 0 (the whole match).
    pub fn captures_len(&self) -> (r: usize)
        ensures
            r == self.spec_captures() + 1,
    {
        proof {
            use_type_invariant(self);
        }
        self.captures + 1
    }

    /// The names of the capture groups, group 0 first: `None` for a group
    /// without a name.
    pub fn capture_names(&self) -> (r: CaptureNames<'_>)
        ensures
            r.remaining().len() == self.spec_captures() + 1,
            r.remaining()[0] is None,
            forall|i: int|
                1 <= i <= self.spec_captures() ==> opt_str_view(#[trigger] r.remaining()[i])
                    == self.spec_names()[i - 1],
    {
        proof {
            use_type_invariant(self);
        }
        let mut v: Vec<Option<&str>> = Vec::new();
        v.push(None);
        let mut i: usize = 0;
        while i < self.capture_names.len()
            invariant
                i <= self.capture_names@.len(),
                v@.len() == i + 1,
                v@[0] is None,
                forall|k: int|
                    1 <= k <= i ==> opt_str_view(#[trigger] v@[k]) == name_view(
                        self.capture_names@[k - 1],
                    ),
            decreases self.capture_names.len() - i,
        {
            match &self.capture_names[i] {
                Some(s) => v.push(Some(s.as_str())),
                None => v.push(None),
            }
            i = i + 1;
        }
        let r = v.into_iter();
        proof {
            assert(r.remaining() == v@);
        }
        r
    }

    /// Returns the leftmost [`Captures`] for this regex in `haystack`, or
    /// `None` if no match exists.
    pub fn captures<'h>(&self, haystack: &'h str) -> (r: Option<Captures<'h>>)
        requires
            haystack.spec_bytes().len() < usize::MAX,
        ensures
            match r {
                Some(c) => {
                    &&& self.spec_find(haystack.spec_bytes(), 0) == Some(c.spec_slots())
                    &&& c.spec_hay() == haystack.spec_bytes()
                    &&& c.spec_names() == self.spec_names()
                    &&& c.spec_slots().len() == self.spec_captures() + 1
                },
                None => self.spec_find(haystack.spec_bytes(), 0) is None,
            },
    {
        proof {
            encode_utf8_valid_utf8(haystack@);
        }
        self.captures_at(haystack, 0)
    }

    /// The leftmost [`Captures`] starting at or after the boundary `start`.
    fn captures_at<'h>(&self, haystack: &'h str, start: usize) -> (r: Option<Captures<'h>>)
        requires
            haystack.spec_bytes().len() < usize::MAX,
            start <= haystack.spec_bytes().len(),
            is_char_boundary(haystack.spec_bytes(), start as int),
        ensures
            match r {
                Some(c) => {
                    &&& self.spec_find(haystack.spec_bytes(), start as int) == Some(c.spec_slots())
                    &&& c.spec_hay() == haystack.spec_bytes()
                    &&& c.spec_names() == self.spec_names()
                    &&& c.spec_slots().len() == self.spec_captures() + 1
                },
                None => self.spec_find(haystack.spec_bytes(), start as int) is None,
            },
    {
        proof {
            use_type_invariant(self);
            encode_utf8_valid_utf8(haystack@);
            lemma_search_good(
                self.fast,
                self.ast@,
                self.captures as nat,
                haystack.spec_bytes(),
                start as int,
            );
        }
        if let Some(slots) = fast_find(self.fast, haystack, start) {
            let names = copy_names(&self.capture_names);
            return Some(Captures { haystack, slots, names });
        }
        match find(&self.ast, haystack, self.captures, start, self.prefix) {
            Some(v) => {
                let names = copy_names(&self.capture_names);
                Some(Captures { haystack, slots: Slots::Heap(v), names })
            },
            None => None,
        }
    }

    /// The [`Captures`] of the search made while iterating from the boundary
    /// `next`: where `skip` holds, an empty match at `next` is passed over
    /// and the search is made again from the next character.
    fn captures_next<'h>(&self, haystack: &'h str, next: usize, skip: bool) -> (r: Option<Captures<'h>>)
        requires
            haystack.spec_bytes().len() < usize::MAX,
            next <= haystack.spec_bytes().len(),
            is_char_boundary(haystack.spec_bytes(), next as int),
        ensures
            match r {
                Some(c) => {
                    &&& spec_search_next(
                        self.spec_fast(),
                        self.spec_ast(),
                        self.spec_captures(),
                        haystack.spec_bytes(),
                        next,
                        skip,
                    ) == Some(c.spec_slots())
                    &&& c.spec_hay() == haystack.spec_bytes()
                    &&& c.spec_names() == self.spec_names()
                },
                None => spec_search_next(
                    self.spec_fast(),
                    self.spec_ast(),
                    self.spec_captures(),
                    haystack.spec_bytes(),
                    next,
                    skip,
                ) is None,
            },
    {
        let c = match self.captures_at(haystack, next) {
            Some(c) => c,
            None => {
                return None;
            },
        };
        if skip {
            if let Some((a, b)) = c.slots.get(0) {
                if a == next && b == next {
                    if next < haystack.len() {
                        let n2 = advance_str(haystack, next);
                        proof {
                            let s = haystack.spec_bytes();
                            encode_utf8_valid_utf8(haystack@);
                            lemma_char_at_boundary(s, next as int);
                            lemma_next_char_good(s, next as int, true);
                        }
                        return self.captures_at(haystack, n2);
                    } else {
                        return None;
                    }
                }
            }
        }
        Some(c)
    }

    /// Returns the leftmost [`Match`] in `haystack`, or `None` if no match
    /// exists.
    pub fn find<'h>(&self, haystack: &'h str) -> (r: Option<Match<'h>>)
        requires
            haystack.spec_bytes().len() < usize::MAX,
        ensures
            match r {
                Some(m) => self.spec_find(haystack.spec_bytes(), 0) matches Some(sl) && sl[0]
                    == Some((m.spec_start(), m.spec_end())) && m.spec_hay()
                    == haystack.spec_bytes(),
                None => self.spec_find(haystack.spec_bytes(), 0) is None,
            },
    {
        match self.captures(haystack) {
            Some(c) => {
                proof {
                    use_type_invariant(&c);
                    use_type_invariant(self);
                    encode_utf8_valid_utf8(haystack@);
                    lemma_search_good(
                        self.fast,
                        self.ast@,
                        self.captures as nat,
                        haystack.spec_bytes(),
                        0,
                    );
                }
                c.get(0)
            },
            None => None,
        }
    }

    /// Returns an iterator over all non-overlapping [`Match`]es in
    /// `haystack`.
    pub fn find_iter<'r, 'h>(&'r self, haystack: &'h str) -> (r: FindMatches<'r, 'h>)
        requires
            haystack.spec_bytes().len() < usize::MAX,
        ensures
            r.spec_regex() == *self,
            r.spec_hay() == haystack.spec_bytes(),
            r.spec_next() == 0,
            !r.spec_done(),
            !r.spec_skip(),
    {
        proof {
            encode_utf8_valid_utf8(haystack@);
        }
        FindMatches { re: self, haystack, next: 0, done: false, skip: false }
    }

    /// Returns an iterator over all non-overlapping [`Captures`] in
    /// `haystack`.
    pub fn captures_iter<'r, 'h>(&'r self, haystack: &'h str) -> (r: CaptureMatches<'r, 'h>)
        requires
            haystack.spec_bytes().len() < usize::MAX,
        ensures
            r.spec_regex() == *self,
            r.spec_hay() == haystack.spec_bytes(),
            r.spec_next() == 0,
            !r.spec_done(),
            !r.spec_skip(),
    {
        proof {
            encode_utf8_valid_utf8(haystack@);
        }
        CaptureMatches { re: self, haystack, next: 0, done: false, skip: false }
    }

    /// Returns an iterator over substrings of `haystack` delimited by matches
    /// of this regex.
    pub fn split<'r, 'h>(&'r self, haystack: &'h str) -> (r: Split<'r, 'h>)
        requires
            haystack.spec_bytes().len() < usize::MAX,
        ensures
            r.spec_matches().spec_regex() == *self,
            r.spec_matches().spec_hay() == haystack.spec_bytes(),
            r.spec_matches().spec_next() == 0,
            !r.spec_matches().spec_done(),
            !r.spec_matches().spec_skip(),
            r.spec_last() == 0,
            !r.spec_finished(),
    {
        proof {
            encode_utf8_valid_utf8(haystack@);
        }
        Split { matches: self.find_iter(haystack), last: 0, finished: false }
    }

    /// Returns a new `String` with the first match replaced by the output of
    /// `rep`. If no match is found the haystack is returned unchanged.
    pub fn replace<R: Replacer>(&self, haystack: &str, rep: R) -> (r: String)
        requires
            haystack.spec_bytes().len() < usize::MAX,
            forall|c: &Captures| #[trigger] rep.ready(c),
        ensures
            match self.spec_find(haystack.spec_bytes(), 0) {
                None => r@ == haystack@,
                Some(sl) => exists|mid: Seq<char>|
                    #[trigger] rep.appends(haystack.spec_bytes(), sl, self.spec_names(), mid) && r@
                        == decode_utf8(haystack.spec_bytes().subrange(0, spec_match_start(sl)))
                        + mid + decode_utf8(
                        haystack.spec_bytes().subrange(
                            spec_match_end(sl),
                            haystack.spec_bytes().len() as int,
                        ),
                    ),
            },
    {
        let mut rep = rep;
        let caps = match self.captures(haystack) {
            Some(c) => c,
            None => {
                return haystack.to_owned();
            },
        };
        proof {
            use_type_invariant(self);
            encode_utf8_valid_utf8(haystack@);
            lemma_search_good(self.fast, self.ast@, self.captures as nat, haystack.spec_bytes(), 0);
            is_char_boundary_start_end_of_seq(haystack.spec_bytes());
        }
        let (start, end) = match caps.slots.get(0) {
            Some(span) => span,
            None => {
                return haystack.to_owned();
            },
        };
        let mut dst = String::new();
        let head = str_slice(haystack, 0, start);
        proof {
            encode_utf8_decode_utf8(head@);
        }
        push_str(&mut dst, head);
        let ghost d1 = dst@;
        rep.replace_append(&caps, &mut dst);
        let ghost mid = dst@.skip(d1.len() as int);
        let tail = str_slice(haystack, end, haystack.len());
        proof {
            encode_utf8_decode_utf8(tail@);
            assert(d1.is_prefix_of(dst@));
            assert(dst@ =~= d1 + mid);
        }
        push_str(&mut dst, tail);
        dst
    }

    /// Returns a new `String` with every non-overlapping match replaced by
    /// the output of `rep`. If no match is found the haystack is returned
    /// unchanged.
    ///
    /// The matches are those [`find_iter`](Regex::find_iter) yields; the text
    /// between them is kept. A replacer that stays as it is (a template)
    /// appends, for each match, what it appends for that match alone.
    #[verifier::spinoff_prover]
    #[verifier::rlimit(40)]
    pub fn replace_all<R: Replacer>(&self, haystack: &str, rep: R) -> (r: String)
        requires
            haystack.spec_bytes().len() < usize::MAX,
            forall|c: &Captures| #[trigger] rep.ready(c),
        ensures
            ({
                let hay = haystack.spec_bytes();
                let ms = spec_all_matches(self.spec_fast(), self.spec_ast(), self.spec_captures(), hay, 0, false, false);
                exists|mids: Seq<Seq<char>>|
                    #![trigger spec_spliced(hay, ms, mids)]
                    mids.len() == ms.len() && r@ == spec_spliced(hay, ms, mids) + decode_utf8(
                        hay.subrange(spec_after(ms), hay.len() as int),
                    ) && (rep.stable() ==> forall|k: int|
                        0 <= k < ms.len() ==> rep.appends(hay, ms[k], self.spec_names(), #[trigger] mids[k]))
            }),
    {
        let ghost hay = haystack.spec_bytes();
        let ghost ms0 = spec_all_matches(self.spec_fast(), self.spec_ast(), self.spec_captures(), hay, 0, false, false);
        let mut cur = rep;
        let mut dst = String::new();
        let mut last: usize = 0;
        let mut it = self.captures_iter(haystack);
        let ghost mut done_ms: Seq<SpecSlots> = seq![];
        let ghost mut mids: Seq<Seq<char>> = seq![];
        proof {
            encode_utf8_valid_utf8(haystack@);
        }
        loop
            invariant
                hay == haystack.spec_bytes(),
                hay.len() < usize::MAX,
                valid_utf8(hay),
                it.spec_regex() == *self,
                it.spec_hay() == hay,
                ms0 == spec_all_matches(self.spec_fast(), self.spec_ast(), self.spec_captures(), hay, 0, false, false),
                ms0 == done_ms + spec_all_matches(
                    self.spec_fast(),
                    self.spec_ast(),
                    self.spec_captures(),
                    hay,
                    it.spec_next(),
                    it.spec_done(),
                    it.spec_skip(),
                ),
                mids.len() == done_ms.len(),
                dst@ == spec_spliced(hay, done_ms, mids),
                last == spec_after(done_ms),
                last <= it.spec_next() <= hay.len(),
                is_char_boundary(hay, last as int),
                rep.stable() ==> cur == rep,
                forall|c: &Captures| #[trigger] cur.ready(c),
                rep.stable() ==> forall|k: int|
                    0 <= k < done_ms.len() ==> rep.appends(hay, done_ms[k], self.spec_names(), #[trigger] mids[k]),
            decreases (if it.spec_done() {
                0
            } else {
                hay.len() + 1 - it.spec_next()
            }),
        {
            proof {
                use_type_invariant(&it);
                use_type_invariant(self);
                if !it.spec_done() {
                    lemma_iter_step(self.spec_fast(), self.spec_ast(), self.spec_captures(), hay, it.spec_next(), it.spec_skip());
                }
            }
            let ghost it0 = it;
            let caps = match it.next() {
                Some(c) => c,
                None => {
                    proof {
                        is_char_boundary_start_end_of_seq(hay);
                    }
                    let tail = str_slice(haystack, last, haystack.len());
                    proof {
                        encode_utf8_decode_utf8(tail@);
                        assert(done_ms =~= ms0);
                    }
                    push_str(&mut dst, tail);
                    proof {
                        assert(dst@ == spec_spliced(hay, ms0, mids) + decode_utf8(
                            hay.subrange(spec_after(ms0), hay.len() as int),
                        ));
                        assert(mids.len() == ms0.len());
                        assert(rep.stable() ==> forall|k: int|
                            0 <= k < ms0.len() ==> rep.appends(hay, ms0[k], self.spec_names(), #[trigger] mids[k]));
                        assert(exists|m: Seq<Seq<char>>|
                            #![trigger spec_spliced(hay, ms0, m)]
                            m.len() == ms0.len() && dst@ == spec_spliced(hay, ms0, m) + decode_utf8(
                                hay.subrange(spec_after(ms0), hay.len() as int),
                            ) && (rep.stable() ==> forall|k: int|
                                0 <= k < ms0.len() ==> rep.appends(hay, ms0[k], self.spec_names(), #[trigger] m[k])));
                    }
                    return dst;
                },
            };
            let ghost sl = caps.spec_slots();
            let (start, end) = match caps.slots.get(0) {
                Some(span) => span,
                None => {
                    return dst;
                },
            };
            let part = str_slice(haystack, last, start);
            proof {
                encode_utf8_decode_utf8(part@);
            }
            push_str(&mut dst, part);
            let ghost d1 = dst@;
            cur.replace_append(&caps, &mut dst);
            proof {
                let mid = dst@.skip(d1.len() as int);
                assert(d1.is_prefix_of(dst@));
                assert(dst@ =~= d1 + mid);
                let ms1 = done_ms.push(sl);
                let mids1 = mids.push(mid);
                assert(ms1.drop_last() =~= done_ms);
                assert(mids1.drop_last() =~= mids);
                assert(spec_all_matches(self.spec_fast(), self.spec_ast(), self.spec_captures(), hay, it0.spec_next(), it0.spec_done(), it0.spec_skip())
                    =~= seq![sl] + spec_all_matches(self.spec_fast(), self.spec_ast(), self.spec_captures(), hay, it.spec_next(), it.spec_done(), it.spec_skip()));
                assert(ms0 =~= ms1 + spec_all_matches(self.spec_fast(), self.spec_ast(), self.spec_captures(), hay, it.spec_next(), it.spec_done(), it.spec_skip()));
                done_ms = ms1;
                mids = mids1;
            }
            last = end;
        }
    }

    /// Returns `true` if and only if there is a match for the regex anywhere
    /// in the haystack.
    pub fn is_match(&self, haystack: &str) -> (r: bool)
        requires
            haystack.spec_bytes().len() < usize::MAX,
        ensures
            r == self.spec_is_match(haystack.spec_bytes()),
    {
        if let Some(ok) = fast_is_match(self.fast, haystack, 0) {
            return ok;
        }
        self.captures(haystack).is_some()
    }
}

/// An iterator over the names of a regex's capture groups.
pub type CaptureNames<'r> = std::vec::IntoIter<Option<&'r str>>;

/// The characters of an optional name.
pub open spec fn opt_str_view(o: Option<&str>) -> Option<Seq<char>> {
    match o {
        Some(s) => Some(s@),
        None => None,
    }
}

/// The options a pattern compiled by [`Regex::new`] starts with.
pub open spec fn default_options() -> Options {
    Options {
        unicode: true,
        octal: false,
        nest_limit: None,
        case_insensitive: false,
        multi_line: false,
        dot_matches_new_line: false,
        ignore_whitespace: false,
        swap_greed: false,
        crlf: false,
    }
}

/// A copy of a list of group names.
pub(crate) fn copy_names(v: &Vec<Option<String>>) -> (r: Vec<Option<String>>)
    ensures
        names_view(r@) == names_view(v@),
        r@.len() == v@.len(),
{
    let mut r: Vec<Option<String>> = Vec::new();
    let mut i: usize = 0;
    while i < v.len()
        invariant
            i <= v@.len(),
            r@.len() == i,
            forall|k: int| 0 <= k < i ==> name_view(#[trigger] r@[k]) == name_view(v@[k]),
        decreases v.len() - i,
    {
        match &v[i] {
            Some(s) => r.push(Some(s.clone())),
            None => r.push(None),
        }
        i = i + 1;
    }
    assert(names_view(r@) =~= names_view(v@));
    r
}

impl RegexBuilder {
    /// The pattern, options and limits this builder compiles with.
    pub closed spec fn spec_pattern(&self) -> Seq<char> {
        self.pattern@
    }

    pub closed spec fn spec_options(&self) -> Options {
        self.options
    }

    pub closed spec fn spec_size_limit(&self) -> Option<usize> {
        self.size_limit
    }

    pub closed spec fn spec_dfa_size_limit(&self) -> Option<usize> {
        self.dfa_size_limit
    }

    /// A builder for `pattern` with the default options and no limits.
    pub fn new(pattern: &str) -> (r: Self)
        ensures
            r.spec_pattern() == pattern@,
            r.spec_options() == default_options(),
            r.spec_size_limit() is None,
            r.spec_dfa_size_limit() is None,
    {
        RegexBuilder {
            pattern: pattern.to_owned(),
            options: Options::default(),
            size_limit: None,
            dfa_size_limit: None,
        }
    }

    /// A builder for `pattern` with the given options and limits.
    pub(crate) fn configured(
        pattern: &str,
        options: Options,
        size_limit: Option<usize>,
        dfa_size_limit: Option<usize>,
    ) -> (r: Self)
        ensures
            r.spec_pattern() == pattern@,
            r.spec_options() == options,
            r.spec_size_limit() == size_limit,
            r.spec_dfa_size_limit() == dfa_size_limit,
    {
        RegexBuilder { pattern: pattern.to_owned(), options, size_limit, dfa_size_limit }
    }

    /// Compiles the pattern with the configured options.
    ///
    /// Returns an [`Error`] if the pattern has invalid syntax, breaks an
    /// option (an octal or Unicode escape that is not allowed, groups nested
    /// deeper than the limit), or its tree has more nodes than the size limit.
    pub fn build(&self) -> (r: Result<Regex, Error>)
        ensures
            match r {
                Ok(re) => {
                    &&& spec_compile(self.spec_pattern(), self.spec_options(), self.spec_size_limit())
                        == Ok::<(SAst, int, Seq<Option<Seq<char>>>), Seq<char>>(
                        (re.spec_ast(), re.spec_captures() as int, re.spec_names()),
                    )
                    &&& re.spec_pattern() == self.spec_pattern()
                    &&& groups_below(re.spec_ast(), re.spec_captures() + 1)
                    &&& re.spec_fast() == Fast::Engine
                    &&& fast_fits(re.spec_fast(), re.spec_ast(), re.spec_captures())
                },
                Err(e) => spec_compile(self.spec_pattern(), self.spec_options(), self.spec_size_limit())
                    == Err::<(SAst, int, Seq<Option<Seq<char>>>), Seq<char>>(e@),
            },
    {
        let parsed = match parse_with_options(self.pattern.as_str(), self.options) {
            Ok(p) => p,
            Err(e) => {
                return Err(e);
            },
        };
        match self.size_limit {
            Some(limit) => {
                if parsed.ast.node_count() > limit {
                    return Err(Error::new("compiled regex exceeds size limit"));
                }
            },
            None => {},
        }
        let prefix = literal_prefix(&parsed.ast);
        Ok(
            Regex {
                pattern: self.pattern.clone(),
                ast: parsed.ast,
                captures: parsed.captures,
                capture_names: parsed.capture_names,
                prefix,
                fast: Fast::Engine,
            },
        )
    }

    /// Enables or disables ASCII case-insensitive matching (the `i` flag).
    pub fn case_insensitive(&mut self, yes: bool) -> (r: &mut Self)
        ensures
            r.spec_options() == (Options { case_insensitive: yes, ..old(self).spec_options() }),
            r.spec_pattern() == old(self).spec_pattern(),
            r.spec_size_limit() == old(self).spec_size_limit(),
            r.spec_dfa_size_limit() == old(self).spec_dfa_size_limit(),
            *final(self) == *final(r),
    {
        self.options.case_insensitive = yes;
        self
    }

    /// Enables or disables multi-line mode (the `m` flag): `^` and `$` also match
    /// after and before `\n`.
    pub fn multi_line(&mut self, yes: bool) -> (r: &mut Self)
        ensures
            r.spec_options() == (Options { multi_line: yes, ..old(self).spec_options() }),
            r.spec_pattern() == old(self).spec_pattern(),
            r.spec_size_limit() == old(self).spec_size_limit(),
            r.spec_dfa_size_limit() == old(self).spec_dfa_size_limit(),
            *final(self) == *final(r),
    {
        self.options.multi_line = yes;
        self
    }

    /// Enables or disables letting `.` match `\n` (the `s` flag).
    pub fn dot_matches_new_line(&mut self, yes: bool) -> (r: &mut Self)
        ensures
            r.spec_options() == (Options { dot_matches_new_line: yes, ..old(self).spec_options() }),
            r.spec_pattern() == old(self).spec_pattern(),
            r.spec_size_limit() == old(self).spec_size_limit(),
            r.spec_dfa_size_limit() == old(self).spec_dfa_size_limit(),
            *final(self) == *final(r),
    {
        self.options.dot_matches_new_line = yes;
        self
    }

    /// Enables or disables CRLF-aware line anchors (the `R` flag): in multi-line
    /// mode `^` and `$` treat `\r\n` as one line terminator.
    pub fn crlf(&mut self, yes: bool) -> (r: &mut Self)
        ensures
            r.spec_options() == (Options { crlf: yes, ..old(self).spec_options() }),
            r.spec_pattern() == old(self).spec_pattern(),
            r.spec_size_limit() == old(self).spec_size_limit(),
            r.spec_dfa_size_limit() == old(self).spec_dfa_size_limit(),
            *final(self) == *final(r),
    {
        self.options.crlf = yes;
        self
    }

    /// Enables or disables swapping greediness (the `U` flag): quantifiers are
    /// lazy by default and `?` makes them greedy.
    pub fn swap_greed(&mut self, yes: bool) -> (r: &mut Self)
        ensures
            r.spec_options() == (Options { swap_greed: yes, ..old(self).spec_options() }),
            r.spec_pattern() == old(self).spec_pattern(),
            r.spec_size_limit() == old(self).spec_size_limit(),
            r.spec_dfa_size_limit() == old(self).spec_dfa_size_limit(),
            *final(self) == *final(r),
    {
        self.options.swap_greed = yes;
        self
    }

    /// Enables or disables insignificant whitespace mode (the `x` flag).
    pub fn ignore_whitespace(&mut self, yes: bool) -> (r: &mut Self)
        ensures
            r.spec_options() == (Options { ignore_whitespace: yes, ..old(self).spec_options() }),
            r.spec_pattern() == old(self).spec_pattern(),
            r.spec_size_limit() == old(self).spec_size_limit(),
            r.spec_dfa_size_limit() == old(self).spec_dfa_size_limit(),
            *final(self) == *final(r),
    {
        self.options.ignore_whitespace = yes;
        self
    }

    /// Enables or disables Unicode mode (the `u` flag): when disabled, `\u` escapes
    /// and `\p` classes are rejected.
    pub fn unicode(&mut self, yes: bool) -> (r: &mut Self)
        ensures
            r.spec_options() == (Options { unicode: yes, ..old(self).spec_options() }),
            r.spec_pattern() == old(self).spec_pattern(),
            r.spec_size_limit() == old(self).spec_size_limit(),
            r.spec_dfa_size_limit() == old(self).spec_dfa_size_limit(),
            *final(self) == *final(r),
    {
        self.options.unicode = yes;
        self
    }

    /// Enables or disables octal escapes such as `\141`.
    pub fn octal(&mut self, yes: bool) -> (r: &mut Self)
        ensures
            r.spec_options() == (Options { octal: yes, ..old(self).spec_options() }),
            r.spec_pattern() == old(self).spec_pattern(),
            r.spec_size_limit() == old(self).spec_size_limit(),
            r.spec_dfa_size_limit() == old(self).spec_dfa_size_limit(),
            *final(self) == *final(r),
    {
        self.options.octal = yes;
        self
    }

    /// Sets the size limit: compiling fails when the pattern's tree has more
    /// nodes than `limit`.
    pub fn size_limit(&mut self, limit: usize) -> (r: &mut Self)
        ensures
            r.spec_size_limit() == Some(limit),
            r.spec_options() == old(self).spec_options(),
            r.spec_pattern() == old(self).spec_pattern(),
            r.spec_dfa_size_limit() == old(self).spec_dfa_size_limit(),
            *final(self) == *final(r),
    {
        self.size_limit = Some(limit);
        self
    }

    /// Records the DFA cache size requested by callers. This engine interprets
    /// the tree and keeps no DFA cache, so matching is unaffected.
    pub fn dfa_size_limit(&mut self, limit: usize) -> (r: &mut Self)
        ensures
            r.spec_dfa_size_limit() == Some(limit),
            r.spec_options() == old(self).spec_options(),
            r.spec_pattern() == old(self).spec_pattern(),
            r.spec_size_limit() == old(self).spec_size_limit(),
            *final(self) == *final(r),
    {
        self.dfa_size_limit = Some(limit);
        self
    }

    /// Sets the nesting limit: compiling fails when groups nest deeper than
    /// `limit`.
    pub fn nest_limit(&mut self, limit: u32) -> (r: &mut Self)
        ensures
            r.spec_options() == (Options { nest_limit: Some(limit), ..old(self).spec_options() }),
            r.spec_pattern() == old(self).spec_pattern(),
            r.spec_size_limit() == old(self).spec_size_limit(),
            r.spec_dfa_size_limit() == old(self).spec_dfa_size_limit(),
            *final(self) == *final(r),
    {
        self.options.nest_limit = Some(limit);
        self
    }
}

impl<'r, 'h> FindMatches<'r, 'h> {
    #[verifier::type_invariant]
    spec fn inv(&self) -> bool {
        &&& self.haystack.spec_bytes().len() < usize::MAX
        &&& self.next <= self.haystack.spec_bytes().len()
        &&& is_char_boundary(self.haystack.spec_bytes(), self.next as int)
    }

    pub closed spec fn spec_regex(&self) -> Regex {
        *self.re
    }

    pub closed spec fn spec_hay(&self) -> Seq<u8> {
        self.haystack.spec_bytes()
    }

    /// Where the next search starts.
    pub closed spec fn spec_next(&self) -> usize {
        self.next
    }

    /// Whether a match has reached the end of the haystack.
    pub closed spec fn spec_done(&self) -> bool {
        self.done
    }

    /// Whether the last match was non-empty and ended where the next search
    /// starts.
    pub closed spec fn spec_skip(&self) -> bool {
        self.skip
    }

    /// The step this iterator takes next.
    pub open spec fn spec_step(&self) -> (Option<SpecSlots>, usize, bool, bool) {
        spec_iter_step(
            self.spec_regex().spec_fast(),
            self.spec_regex().spec_ast(),
            self.spec_regex().spec_captures(),
            self.spec_hay(),
            self.spec_next(),
            self.spec_done(),
            self.spec_skip(),
        )
    }

    /// How many matches `count` reports: what the dedicated search counts
    /// from where the next search starts, when the regex has one, and
    /// otherwise how many matches are left to iterate.
    pub open spec fn spec_count_left(&self) -> nat {
        match spec_fast_count(self.spec_regex().spec_fast(), self.spec_hay(), self.spec_next() as int) {
            Some(c) => c as nat,
            None => spec_count(
                self.spec_regex().spec_fast(),
                self.spec_regex().spec_ast(),
                self.spec_regex().spec_captures(),
                self.spec_hay(),
                self.spec_next(),
                self.spec_done(),
                self.spec_skip(),
            ),
        }
    }

    /// Advances the iterator and returns the next [`Match`], or `None` when exhausted.
    pub fn next(&mut self) -> (r: Option<Match<'h>>)
        ensures
            final(self).spec_regex() == old(self).spec_regex(),
            final(self).spec_hay() == old(self).spec_hay(),
            final(self).spec_next() == old(self).spec_step().1,
            final(self).spec_done() == old(self).spec_step().2,
            final(self).spec_skip() == old(self).spec_step().3,
            match r {
                Some(m) => old(self).spec_step().0 matches Some(sl) && sl[0] == Some(
                    (m.spec_start(), m.spec_end()),
                ) && m.spec_hay() == old(self).spec_hay() && old(self).spec_next() <= m.spec_start()
                    <= m.spec_end() <= final(self).spec_next(),
                None => old(self).spec_step().0 is None,
            },
    {
        proof {
            use_type_invariant(&*self);
        }
        if self.done {
            return None;
        }
        let c = match self.re.captures_next(self.haystack, self.next, self.skip) {
            Some(c) => c,
            None => {
                return None;
            },
        };
        proof {
            use_type_invariant(self.re);
            use_type_invariant(&c);
            encode_utf8_valid_utf8(self.haystack@);
            lemma_iter_step(
                self.re.spec_fast(),
                self.re.spec_ast(),
                self.re.spec_captures(),
                self.haystack.spec_bytes(),
                self.next,
                self.skip,
            );
        }
        let m = match c.get(0) {
            Some(m) => m,
            None => {
                return None;
            },
        };
        let start = m.start();
        let end = m.end();
        if end == self.haystack.len() {
            self.done = true;
        }
        self.next = if start == end {
            advance_str(self.haystack, end)
        } else {
            end
        };
        self.skip = start != end;
        Some(m)
    }

    /// Returns the number of matches the iterator has left.
    pub fn count(self) -> (r: usize)
        ensures
            r == self.spec_count_left(),
    {
        proof {
            use_type_invariant(&self);
        }
        if let Some(c) = fast_count(self.re.fast, self.haystack, self.next) {
            return c;
        }
        proof {
            assert(self.spec_count_left() == spec_count(
                self.spec_regex().spec_fast(),
                self.spec_regex().spec_ast(),
                self.spec_regex().spec_captures(),
                self.spec_hay(),
                self.spec_next(),
                self.spec_done(),
                self.spec_skip(),
            ));
            lemma_count_bound(
                self.spec_regex().spec_fast(),
                self.spec_regex().spec_ast(),
                self.spec_regex().spec_captures(),
                self.spec_hay(),
                self.spec_next(),
                self.spec_done(),
                self.spec_skip(),
            );
        }
        let mut iter = self;
        let mut count: usize = 0;
        loop
            invariant
                self.spec_count_left() == spec_count(
                    self.spec_regex().spec_fast(),
                    self.spec_regex().spec_ast(),
                    self.spec_regex().spec_captures(),
                    self.spec_hay(),
                    self.spec_next(),
                    self.spec_done(),
                    self.spec_skip(),
                ),
                iter.spec_regex() == self.spec_regex(),
                iter.spec_hay() == self.spec_hay(),
                count + spec_count(
                    iter.spec_regex().spec_fast(),
                    iter.spec_regex().spec_ast(),
                    iter.spec_regex().spec_captures(),
                    iter.spec_hay(),
                    iter.spec_next(),
                    iter.spec_done(),
                    iter.spec_skip(),
                ) == spec_count(
                    self.spec_regex().spec_fast(),
                    self.spec_regex().spec_ast(),
                    self.spec_regex().spec_captures(),
                    self.spec_hay(),
                    self.spec_next(),
                    self.spec_done(),
                    self.spec_skip(),
                ),
                spec_count(
                    self.spec_regex().spec_fast(),
                    self.spec_regex().spec_ast(),
                    self.spec_regex().spec_captures(),
                    self.spec_hay(),
                    self.spec_next(),
                    self.spec_done(),
                    self.spec_skip(),
                ) <= self.spec_hay().len() + 1,
                self.spec_hay().len() < usize::MAX,
            decreases (if iter.spec_done() {
                0
            } else {
                iter.spec_hay().len() + 1 - iter.spec_next()
            }),
        {
            proof {
                use_type_invariant(&iter);
                use_type_invariant(iter.re);
                encode_utf8_valid_utf8(iter.haystack@);
                if !iter.done {
                    lemma_iter_step(
                        iter.re.spec_fast(),
                        iter.re.spec_ast(),
                        iter.re.spec_captures(),
                        iter.haystack.spec_bytes(),
                        iter.next,
                        iter.skip,
                    );
                }
            }
            match iter.next() {
                Some(_) => {
                    count = count + 1;
                },
                None => {
                    return count;
                },
            }
        }
    }
}

impl<'r, 'h> CaptureMatches<'r, 'h> {
    #[verifier::type_invariant]
    spec fn inv(&self) -> bool {
        &&& self.haystack.spec_bytes().len() < usize::MAX
        &&& self.next <= self.haystack.spec_bytes().len()
        &&& is_char_boundary(self.haystack.spec_bytes(), self.next as int)
    }

    pub closed spec fn spec_regex(&self) -> Regex {
        *self.re
    }

    pub closed spec fn spec_hay(&self) -> Seq<u8> {
        self.haystack.spec_bytes()
    }

    /// Where the next search starts.
    pub closed spec fn spec_next(&self) -> usize {
        self.next
    }

    /// Whether a match has reached the end of the haystack.
    pub closed spec fn spec_done(&self) -> bool {
        self.done
    }

    /// Whether the last match was non-empty and ended where the next search
    /// starts.
    pub closed spec fn spec_skip(&self) -> bool {
        self.skip
    }

    /// The step this iterator takes next.
    pub open spec fn spec_step(&self) -> (Option<SpecSlots>, usize, bool, bool) {
        spec_iter_step(
            self.spec_regex().spec_fast(),
            self.spec_regex().spec_ast(),
            self.spec_regex().spec_captures(),
            self.spec_hay(),
            self.spec_next(),
            self.spec_done(),
            self.spec_skip(),
        )
    }

    /// How many matches `count` reports: what the dedicated search counts
    /// from where the next search starts, when the regex has one, and
    /// otherwise how many matches are left to iterate.
    pub open spec fn spec_count_left(&self) -> nat {
        match spec_fast_count(self.spec_regex().spec_fast(), self.spec_hay(), self.spec_next() as int) {
            Some(c) => c as nat,
            None => spec_count(
                self.spec_regex().spec_fast(),
                self.spec_regex().spec_ast(),
                self.spec_regex().spec_captures(),
                self.spec_hay(),
                self.spec_next(),
                self.spec_done(),
                self.spec_skip(),
            ),
        }
    }

    /// Advances the iterator and returns the next [`Captures`], or `None` when exhausted.
    pub fn next(&mut self) -> (r: Option<Captures<'h>>)
        ensures
            final(self).spec_regex() == old(self).spec_regex(),
            final(self).spec_hay() == old(self).spec_hay(),
            final(self).spec_next() == old(self).spec_step().1,
            final(self).spec_done() == old(self).spec_step().2,
            final(self).spec_skip() == old(self).spec_step().3,
            match r {
                Some(c) => old(self).spec_step().0 == Some(c.spec_slots()) && c.spec_hay()
                    == old(self).spec_hay() && c.spec_names() == old(self).spec_regex().spec_names(),
                None => old(self).spec_step().0 is None,
            },
    {
        proof {
            use_type_invariant(&*self);
        }
        if self.done {
            return None;
        }
        let c = match self.re.captures_next(self.haystack, self.next, self.skip) {
            Some(c) => c,
            None => {
                return None;
            },
        };
        proof {
            use_type_invariant(self.re);
            use_type_invariant(&c);
            encode_utf8_valid_utf8(self.haystack@);
            lemma_iter_step(
                self.re.spec_fast(),
                self.re.spec_ast(),
                self.re.spec_captures(),
                self.haystack.spec_bytes(),
                self.next,
                self.skip,
            );
        }
        let (start, end) = match c.slots.get(0) {
            Some(span) => span,
            None => {
                return None;
            },
        };
        if end == self.haystack.len() {
            self.done = true;
        }
        self.next = if start == end {
            advance_str(self.haystack, end)
        } else {
            end
        };
        self.skip = start != end;
        Some(c)
    }

    /// Returns the number of matches the iterator has left.
    pub fn count(self) -> (r: usize)
        ensures
            r == self.spec_count_left(),
    {
        proof {
            use_type_invariant(&self);
        }
        let f = FindMatches { re: self.re, haystack: self.haystack, next: self.next, done: self.done, skip: self.skip };
        f.count()
    }
}

impl<'r, 'h> Split<'r, 'h> {
    /// The part yielded next starts at a boundary no later than the next search.
    #[verifier::type_invariant]
    spec fn inv(&self) -> bool {
        &&& self.last <= self.matches.next
        &&& is_char_boundary(self.matches.haystack.spec_bytes(), self.last as int)
    }

    /// The matches that delimit the parts.
    pub closed spec fn spec_matches(&self) -> FindMatches<'r, 'h> {
        self.matches
    }

    /// Where the part yielded next begins.
    pub closed spec fn spec_last(&self) -> usize {
        self.last
    }

    /// Whether the last part has been yielded.
    pub closed spec fn spec_finished(&self) -> bool {
        self.finished
    }

    /// The parts still to come: the text before each match still to be
    /// found, then the rest of the haystack; none once the last part has
    /// been yielded.
    pub open spec fn spec_parts_left(&self) -> Seq<Seq<u8>> {
        if self.spec_finished() {
            seq![]
        } else {
            let m = self.spec_matches();
            spec_split_parts(
                m.spec_hay(),
                spec_all_matches(
                    m.spec_regex().spec_fast(),
                    m.spec_regex().spec_ast(),
                    m.spec_regex().spec_captures(),
                    m.spec_hay(),
                    m.spec_next(),
                    m.spec_done(),
                    m.spec_skip(),
                ),
                self.spec_last() as int,
            )
        }
    }

    /// Advances the iterator and returns the next substring between matches, or `None` when exhausted.
    #[verifier::spinoff_prover]
    #[verifier::rlimit(40)]
    pub fn next(&mut self) -> (r: Option<&'h str>)
        ensures
            match r {
                Some(p) => {
                    &&& old(self).spec_parts_left().len() > 0
                    &&& p.spec_bytes() == old(self).spec_parts_left()[0]
                    &&& final(self).spec_parts_left() == old(self).spec_parts_left().drop_first()
                },
                None => old(self).spec_parts_left().len() == 0 && final(self).spec_parts_left().len() == 0,
            },
            old(self).spec_finished() ==> r is None && final(self).spec_finished(),
            !old(self).spec_finished() ==> {
                let m = old(self).spec_matches();
                let hay = m.spec_hay();
                &&& final(self).spec_matches().spec_regex() == m.spec_regex()
                &&& final(self).spec_matches().spec_hay() == hay
                &&& final(self).spec_matches().spec_next() == m.spec_step().1
                &&& final(self).spec_matches().spec_done() == m.spec_step().2
                &&& final(self).spec_matches().spec_skip() == m.spec_step().3
                &&& match m.spec_step().0 {
                    Some(sl) => sl[0] matches Some((a, b)) && r matches Some(p) && p.spec_bytes()
                        == hay.subrange(old(self).spec_last() as int, a as int)
                        && final(self).spec_last() == b && !final(self).spec_finished(),
                    None => r matches Some(p) && p.spec_bytes() == hay.subrange(
                        old(self).spec_last() as int,
                        hay.len() as int,
                    ) && final(self).spec_finished(),
                }
            },
    {
        proof {
            use_type_invariant(&*self);
            use_type_invariant(&self.matches);
        }
        if self.finished {
            return None;
        }
        proof {
            use_type_invariant(self.matches.re);
            encode_utf8_valid_utf8(self.matches.haystack@);
            if !self.matches.done {
                lemma_iter_step(
                    self.matches.re.spec_fast(),
                    self.matches.re.spec_ast(),
                    self.matches.re.spec_captures(),
                    self.matches.haystack.spec_bytes(),
                    self.matches.next,
                    self.matches.skip,
                );
            }
        }
        let ghost parts0 = self.spec_parts_left();
        let ghost ms0 = spec_all_matches(
            self.matches.re.spec_fast(),
            self.matches.re.spec_ast(),
            self.matches.re.spec_captures(),
            self.matches.haystack.spec_bytes(),
            self.matches.next,
            self.matches.done,
            self.matches.skip,
        );
        let hay = self.matches.haystack;
        let last = self.last;
        let mut matches = FindMatches {
            re: self.matches.re,
            haystack: hay,
            next: self.matches.next,
            done: self.matches.done,
            skip: self.matches.skip,
        };
        match matches.next() {
            Some(m) => {
                proof {
                    use_type_invariant(&m);
                    use_type_invariant(&matches);
                }
                let part = str_slice(hay, last, m.start());
                *self = Split { matches, last: m.end(), finished: false };
                proof {
                    assert(ms0.len() > 0);
                    assert(ms0.drop_first() == spec_all_matches(
                        matches.re.spec_fast(),
                        matches.re.spec_ast(),
                        matches.re.spec_captures(),
                        hay.spec_bytes(),
                        matches.next,
                        matches.done,
                        matches.skip,
                    ));
                }
                Some(part)
            },
            None => {
                proof {
                    encode_utf8_valid_utf8(hay@);
                    is_char_boundary_start_end_of_seq(hay.spec_bytes());
                }
                *self = Split { matches, last, finished: true };
                proof {
                    assert(ms0.len() == 0);
                }
                Some(str_slice(hay, last, hay.len()))
            },
        }
    }
}

impl<'h> Match<'h> {
    #[verifier::type_invariant]
    spec fn inv(&self) -> bool {
        &&& self.start <= self.end <= self.haystack.spec_bytes().len()
        &&& is_char_boundary(self.haystack.spec_bytes(), self.start as int)
        &&& is_char_boundary(self.haystack.spec_bytes(), self.end as int)
    }

    pub closed spec fn spec_start(&self) -> usize {
        self.start
    }

    pub closed spec fn spec_end(&self) -> usize {
        self.end
    }

    /// The bytes of the haystack the match is in.
    pub closed spec fn spec_hay(&self) -> Seq<u8> {
        self.haystack.spec_bytes()
    }

    /// Returns the byte offset of the start of the match.
    pub fn start(&self) -> (r: usize)
        ensures
            r == self.spec_start(),
    {
        self.start
    }

    /// Returns the byte offset of the end of the match (exclusive).
    pub fn end(&self) -> (r: usize)
        ensures
            r == self.spec_end(),
    {
        self.end
    }

    /// Returns the byte range `start..end` of the match.
    pub fn range(&self) -> (r: core::ops::Range<usize>)
        ensures
            r.start == self.spec_start(),
            r.end == self.spec_end(),
    {
        self.start..self.end
    }

    /// Returns the matched text as a string slice borrowed from the haystack.
    pub fn as_str(&self) -> (r: &'h str)
        ensures
            r.spec_bytes() == self.spec_hay().subrange(
                self.spec_start() as int,
                self.spec_end() as int,
            ),
    {
        proof {
            use_type_invariant(self);
        }
        str_slice(self.haystack, self.start, self.end)
    }
}

impl<'h> Captures<'h> {
    #[verifier::type_invariant]
    spec fn inv(&self) -> bool {
        &&& good_slots(self.haystack.spec_bytes(), self.slots@, self.slots@.len(), true)
        &&& self.slots@.len() == self.names@.len() + 1
    }

    /// The spans of the groups, group 0 first.
    pub closed spec fn spec_slots(&self) -> Seq<Option<(usize, usize)>> {
        self.slots@
    }

    /// The bytes of the haystack the match is in.
    pub closed spec fn spec_hay(&self) -> Seq<u8> {
        self.haystack.spec_bytes()
    }

    /// The names of the groups `1..`, in order.
    pub closed spec fn spec_names(&self) -> Seq<Option<Seq<char>>> {
        names_view(self.names@)
    }

    /// Returns the `i`-th capture group as a [`Match`], or `None` if the
    /// group did not participate in the match.
    pub fn get(&self, i: usize) -> (r: Option<Match<'h>>)
        ensures
            match r {
                Some(m) => i < self.spec_slots().len() && self.spec_slots()[i as int] == Some(
                    (m.spec_start(), m.spec_end()),
                ) && m.spec_hay() == self.spec_hay(),
                None => i >= self.spec_slots().len() || self.spec_slots()[i as int] is None,
            },
    {
        proof {
            use_type_invariant(self);
        }
        match self.slots.get(i) {
            Some((start, end)) => {
                proof {
                    assert(self.slots@[i as int] matches Some((a, b)));
                }
                Some(Match { haystack: self.haystack, start, end })
            },
            None => None,
        }
    }

    /// Returns the total number of capture slots (including group 0): one
    /// more than the regex has groups.
    pub fn len(&self) -> (r: usize)
        ensures
            r == self.spec_slots().len(),
            r == self.spec_names().len() + 1,
    {
        proof {
            use_type_invariant(self);
        }
        self.slots.len()
    }

    /// Returns `true` if there are no capture slots.
    pub fn is_empty(&self) -> (r: bool)
        ensures
            r == (self.spec_slots().len() == 0),
    {
        self.slots.len() == 0
    }

    /// The group named `name`, if the regex has one and it took part in the
    /// match.
    pub fn name(&self, name: &str) -> (r: Option<Match<'h>>)
        ensures
            match spec_group_index(self.spec_names(), name@) {
                Some(i) => match r {
                    Some(m) => i < self.spec_slots().len() && self.spec_slots()[i as int] == Some(
                        (m.spec_start(), m.spec_end()),
                    ) && m.spec_hay() == self.spec_hay(),
                    None => i >= self.spec_slots().len() || self.spec_slots()[i as int] is None,
                },
                None => r is None,
            },
    {
        match group_index(&self.names, name) {
            Some(i) => self.get(i),
            None => None,
        }
    }
}

impl<'h> core::ops::Index<usize> for Captures<'h> {
    type Output = str;

    /// Returns the text of capture group `index`, which must have taken part
    /// in the match.
    fn index(&self, index: usize) -> (r: &str)
        ensures
            self.spec_slots()[index as int] matches Some((a, b)) && r.spec_bytes()
                == self.spec_hay().subrange(a as int, b as int),
    {
        proof {
            use_type_invariant(self);
        }
        match self.slots.get(index) {
            Some((a, b)) => str_slice(self.haystack, a, b),
            None => "",
        }
    }
}

impl<'h> vstd::std_specs::core::IndexSpecImpl<usize> for Captures<'h> {
    open spec fn index_req(&self, index: &usize) -> bool {
        *index < self.spec_slots().len() && self.spec_slots()[*index as int] is Some
    }
}

impl<'h, 'n> core::ops::Index<&'n str> for Captures<'h> {
    type Output = str;

    /// Returns the text of the group called `name`, which must exist and have
    /// taken part in the match.
    fn index(&self, name: &'n str) -> (r: &str)
        ensures
            spec_group_index(self.spec_names(), name@) matches Some(i) && self.spec_slots()[i]
                matches Some((a, b)) && r.spec_bytes() == self.spec_hay().subrange(a as int, b as int),
    {
        match self.name(name) {
            Some(m) => {
                proof {
                    lemma_group_index_range(self.spec_names(), name@);
                }
                m.as_str()
            },
            None => "",
        }
    }
}

impl<'h, 'n> vstd::std_specs::core::IndexSpecImpl<&'n str> for Captures<'h> {
    open spec fn index_req(&self, name: &&'n str) -> bool {
        spec_group_index(self.spec_names(), (*name)@) matches Some(i) && i < self.spec_slots().len()
            && self.spec_slots()[i] is Some
    }
}

/// The group called `name`: one more than the position of the first group
/// of that name in `names` (group 0 has none).
pub open spec fn spec_group_index(names: Seq<Option<Seq<char>>>, name: Seq<char>) -> Option<int>
    decreases names.len(),
{
    if names.len() == 0 {
        None
    } else if names.last() == Some(name) && spec_group_index(names.drop_last(), name) is None {
        Some(names.len() as int)
    } else {
        spec_group_index(names.drop_last(), name)
    }
}

/// The index of the group called `name` among the groups `1..`.
pub(crate) fn group_index(names: &Vec<Option<String>>, name: &str) -> (r: Option<usize>)
    ensures
        match r {
            Some(i) => spec_group_index(names_view(names@), name@) == Some(i as int),
            None => spec_group_index(names_view(names@), name@) is None,
        },
{
    let mut k: usize = 0;
    while k < names.len()
        invariant
            k <= names@.len(),
            spec_group_index(names_view(names@).take(k as int), name@) is None,
        decreases names.len() - k,
    {
        let hit = match &names[k] {
            Some(s) => str_eq(s.as_str(), name),
            None => false,
        };
        proof {
            let t = names_view(names@).take(k as int + 1);
            assert(t.drop_last() =~= names_view(names@).take(k as int));
            assert(t.last() == name_view(names@[k as int]));
        }
        if hit {
            proof {
                lemma_group_index_prefix(names_view(names@), name@, k as int + 1);
            }
            return Some(k + 1);
        }
        k = k + 1;
    }
    assert(names_view(names@).take(k as int) =~= names_view(names@));
    None
}

/// A group found by name is one of the named groups `1..=names.len()`.
pub proof fn lemma_group_index_range(names: Seq<Option<Seq<char>>>, name: Seq<char>)
    ensures
        spec_group_index(names, name) matches Some(i) ==> 1 <= i <= names.len(),
    decreases names.len(),
{
    if names.len() > 0 {
        lemma_group_index_range(names.drop_last(), name);
    }
}

/// Once a prefix of the names holds the name, the whole list gives the same group.
proof fn lemma_group_index_prefix(names: Seq<Option<Seq<char>>>, name: Seq<char>, n: int)
    requires
        0 <= n <= names.len(),
        spec_group_index(names.take(n), name) is Some,
    ensures
        spec_group_index(names, name) == spec_group_index(names.take(n), name),
    decreases names.len() - n,
{
    if n < names.len() {
        let t = names.take(n + 1);
        assert(t.drop_last() =~= names.take(n));
        lemma_group_index_prefix(names, name, n + 1);
    } else {
        assert(names.take(n) =~= names);
    }
}

impl Clone for Regex {
    /// A copy of this regex: the same pattern, tree, groups and dedicated
    /// search.
    fn clone(&self) -> (r: Self)
        ensures
            r.spec_pattern() == self.spec_pattern(),
            r.spec_ast() == self.spec_ast(),
            r.spec_captures() == self.spec_captures(),
            r.spec_names() == self.spec_names(),
            r.spec_fast() == self.spec_fast(),
    {
        proof {
            use_type_invariant(self);
        }
        Regex {
            pattern: self.pattern.clone(),
            ast: self.ast.deep_copy(),
            captures: self.captures,
            capture_names: copy_names(&self.capture_names),
            prefix: self.prefix,
            fast: self.fast,
        }
    }
}

impl<'h> Clone for Captures<'h> {
    /// A copy of these captures: the same haystack, spans and names.
    fn clone(&self) -> (r: Self)
        ensures
            r.spec_hay() == self.spec_hay(),
            r.spec_slots() == self.spec_slots(),
            r.spec_names() == self.spec_names(),
    {
        proof {
            use_type_invariant(self);
        }
        Captures { haystack: self.haystack, slots: self.slots.copy(), names: copy_names(&self.names) }
    }
}

} // verus!
