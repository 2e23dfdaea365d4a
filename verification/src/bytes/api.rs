use vstd::prelude::*;
use vstd::std_specs::iter::IteratorSpec;
use crate::ast::{Ast, SAst};
use crate::bytes::matcher::{find, literal_prefix_byte, spec_literal_prefix_byte};
use crate::bytes::replace::{expand_bytes, group_index_bytes, spec_expand_bytes, spec_group_index_bytes};
use crate::error::Error;
use crate::matcher::{good_slots, groups_below, lemma_find_from_good, spec_find_from, SpecSlots};
use crate::parser::{names_view, name_view, parse_with_options, Options};
use crate::regex::api::{
    spec_split_parts,
    copy_names, default_options, group_index, lemma_group_index_range, opt_str_view, spec_after,
    spec_compile, spec_group_index, spec_match_end, spec_match_start, CaptureNames,
};
use crate::regex::slots::Slots;
use crate::text::good_pos;

verus! {

/// A compiled regular expression for searching byte haystacks.
///
/// A `Regex` is created from a pattern string and can be used to search
/// haystacks, iterate over all matches, extract capture groups, split
/// haystacks into substrings, or replace matched substrings.
///
/// Searching is unanchored by default — the regex is tried at every position
/// in the haystack. To force a match at the start or end use `^` / `$`.
/// A search finds the leftmost position at which the pattern matches, and
/// there the first way to match in the pattern's priority order: the
/// leftmost alternative, the most repetitions of a greedy quantifier and the
/// fewest of a lazy one.
#[derive(Debug)]
pub struct Regex {
    pattern: String,
    ast: Ast,
    captures: usize,
    capture_names: Vec<Option<String>>,
    prefix: Option<u8>,
}

/// A configurable builder for a [`Regex`].
#[derive(Clone, Debug)]
pub struct RegexBuilder {
    pattern: String,
    options: Options,
    size_limit: Option<usize>,
    dfa_size_limit: Option<usize>,
}

/// A single contiguous match within a haystack: the byte-offset range
/// `[start, end)`, on character boundaries.
#[derive(Clone, Copy, Debug, PartialEq, Eq)]
pub struct Match<'h> {
    haystack: &'h [u8],
    start: usize,
    end: usize,
}

/// The capture groups produced by a single match of a [`Regex`].
///
/// Group `0` is always the whole match. Groups `1`, `2`, … correspond to the
/// parenthesised sub-expressions in the pattern, left-to-right.
#[derive(Debug)]
pub struct Captures<'h> {
    haystack: &'h [u8],
    slots: Slots,
    names: Vec<Option<String>>,
}

/// An iterator over all non-overlapping [`Match`]es in a haystack.
///
/// Created by [`Regex::find_iter`]. Yields successive [`Match`] values from
/// left to right through [`FindMatches::next`]. After an empty match the next
/// search starts one byte further on, so that every position is tried once;
/// an empty match where a non-empty one just ended is passed over.
pub struct FindMatches<'r, 'h> {
    re: &'r Regex,
    haystack: &'h [u8],
    next: usize,
    done: bool,
    skip: bool,
}

/// An iterator over all non-overlapping [`Captures`] in a haystack.
///
/// Created by [`Regex::captures_iter`]; it steps as [`FindMatches`] does.
pub struct CaptureMatches<'r, 'h> {
    re: &'r Regex,
    haystack: &'h [u8],
    next: usize,
    done: bool,
    skip: bool,
}

/// An iterator over substrings of a haystack split by a [`Regex`].
///
/// Created by [`Regex::split`]. Yields the parts of the haystack that lie
/// *between* successive matches, then the part after the last one.
pub struct Split<'r, 'h> {
    matches: FindMatches<'r, 'h>,
    last: usize,
    finished: bool,
}

/// What a search made while iterating from byte offset `next` finds: the
/// leftmost-first match from `next`, except that where `skip` holds (a
/// non-empty match has just ended at `next`) an empty match at `next` is
/// passed over, and the search is made again from the next byte.
pub open spec fn spec_search_next(ast: SAst, cap_count: nat, s: Seq<u8>, next: usize, skip: bool) -> Option<
    SpecSlots,
> {
    match spec_find_from(ast, s, cap_count, next as int, false) {
        Some(sl) => if skip && sl[0] == Some((next, next)) {
            if next < s.len() {
                spec_find_from(ast, s, cap_count, next + 1, false)
            } else {
                None
            }
        } else {
            Some(sl)
        },
        None => None,
    }
}

/// One step of iterating over the matches of the tree `ast` (with
/// `cap_count` groups) in the text `s`, from byte offset `next`: the slots of
/// the match found, if any, then where the following search starts, whether
/// the end of the text has been reached, and whether the match found was
/// non-empty (so that an empty match where it ended is passed over).
pub open spec fn spec_iter_step(ast: SAst, cap_count: nat, s: Seq<u8>, next: usize, done: bool, skip: bool) -> (
    Option<SpecSlots>,
    usize,
    bool,
    bool,
) {
    if done {
        (None, next, true, skip)
    } else {
        match spec_search_next(ast, cap_count, s, next, skip) {
            Some(sl) => match sl[0] {
                Some((a, b)) => (
                    Some(sl),
                    if a == b {
                        spec_advance(s, b)
                    } else {
                        b
                    },
                    b == s.len(),
                    a != b,
                ),
                None => (None, next, false, skip),
            },
            None => (None, next, false, skip),
        }
    }
}

/// The offset just past the byte at `pos`, or `pos` at the end.
pub open spec fn spec_advance(s: Seq<u8>, pos: usize) -> usize {
    if pos >= s.len() {
        pos
    } else {
        (pos + 1) as usize
    }
}

/// How many matches iterating from `next` yields.
pub open spec fn spec_count(ast: SAst, cap_count: nat, s: Seq<u8>, next: usize, done: bool, skip: bool) -> nat
    decreases (if done {
        0
    } else {
        s.len() + 1 - next
    }),
{
    let (o, n2, d2, k2) = spec_iter_step(ast, cap_count, s, next, done, skip);
    if o is None {
        0
    } else if d2 || (next < n2 <= s.len()) {
        1 + spec_count(ast, cap_count, s, n2, d2, k2)
    } else {
        0
    }
}

/// Iterating yields at most one match more than there are positions left.
proof fn lemma_count_bound(ast: SAst, cap_count: nat, s: Seq<u8>, next: usize, done: bool, skip: bool)
    requires
        next <= s.len(),
    ensures
        spec_count(ast, cap_count, s, next, done, skip) <= (if done {
            0
        } else {
            s.len() + 1 - next
        }),
    decreases (if done {
        0
    } else {
        s.len() + 1 - next
    }),
{
    let (o, n2, d2, k2) = spec_iter_step(ast, cap_count, s, next, done, skip);
    if o is Some {
        if d2 {
            assert(spec_count(ast, cap_count, s, n2, true, k2) == 0);
        }
        if next < n2 <= s.len() {
            lemma_count_bound(ast, cap_count, s, n2, d2, k2);
        }
    }
}

/// The slots of every match iterating from `next` yields, in order.
pub open spec fn spec_all_matches(ast: SAst, cap_count: nat, s: Seq<u8>, next: usize, done: bool, skip: bool) -> Seq<
    SpecSlots,
>
    decreases (if done {
        0
    } else {
        s.len() + 1 - next
    }),
{
    let (o, n2, d2, k2) = spec_iter_step(ast, cap_count, s, next, done, skip);
    match o {
        None => seq![],
        Some(sl) => if d2 || (next < n2 <= s.len()) {
            seq![sl] + spec_all_matches(ast, cap_count, s, n2, d2, k2)
        } else {
            seq![]
        },
    }
}

/// The bytes of `hay` up to the end of the last of the matches `ms`, each
/// match replaced by the bytes of `mids` at its place.
pub open spec fn spec_spliced(hay: Seq<u8>, ms: Seq<SpecSlots>, mids: Seq<Seq<u8>>) -> Seq<u8>
    decreases ms.len(),
{
    if ms.len() == 0 {
        seq![]
    } else {
        spec_spliced(hay, ms.drop_last(), mids.drop_last()) + hay.subrange(
            spec_after(ms.drop_last()),
            spec_match_start(ms.last()),
        ) + mids.last()
    }
}

/// Advances `pos` past the next byte of `s`, or returns `pos` at the end.
fn advance_bytes(s: &[u8], pos: usize) -> (r: usize)
    ensures
        r == spec_advance(s@, pos),
{
    if pos >= s.len() {
        pos
    } else {
        pos + 1
    }
}

/// The bytes of `s` from `a` to `b`.
fn byte_slice(s: &[u8], a: usize, b: usize) -> (r: &[u8])
    requires
        a <= b <= s@.len(),
    ensures
        r@ == s@.subrange(a as int, b as int),
{
    let (_, rest) = s.split_at(a);
    let (mid, _) = rest.split_at(b - a);
    assert(mid@ =~= s@.subrange(a as int, b as int));
    mid
}

/// A step that found a match moves on: the following search starts after
/// the match, or the end has been reached.
pub proof fn lemma_iter_step(ast: SAst, cap_count: nat, s: Seq<u8>, next: usize, skip: bool)
    requires
        good_pos(s, next as int, false),
        groups_below(ast, cap_count + 1),
    ensures
        ({
            let (o, n2, d2, k2) = spec_iter_step(ast, cap_count, s, next, false, skip);
            o matches Some(sl) ==> {
                &&& good_slots(s, sl, cap_count + 1, false)
                &&& sl[0] matches Some((a, b)) && next <= a <= b <= n2 <= s.len() && (a == b && b
                    < s.len() ==> b < n2) && (skip && a == b ==> next < a)
                &&& good_pos(s, n2 as int, false)
                &&& (d2 || next < n2)
            }
        }),
{
    lemma_find_from_good(ast, s, cap_count, next as int, false);
    if next < s.len() {
        lemma_find_from_good(ast, s, cap_count, next + 1, false);
    }
}

/// A type that can produce replacement bytes for a [`Regex`] substitution.
///
/// Implementations are provided for byte templates (`&[u8]`, `&[u8; N]` and
/// `Vec<u8>`, see [`expand_bytes`]) and for any
/// `FnMut(&Captures<'_>) -> Vec<u8>` closure, whose result is appended.
pub trait Replacer: Sized {
    /// Whether `added` is what this replacer may append for a match in the
    /// haystack `hay` with group spans `slots` and group names `names`.
    spec fn appends(
        &self,
        hay: Seq<u8>,
        slots: SpecSlots,
        names: Seq<Option<Seq<char>>>,
        added: Seq<u8>,
    ) -> bool;

    /// Whether appending leaves the replacer as it was.
    spec fn stable(&self) -> bool;

    /// Whether this replacer can be asked for bytes for `caps`.
    spec fn ready(&self, caps: &Captures<'_>) -> bool;

    /// Appends replacement bytes for `caps` to `dst`.
    fn replace_append(&mut self, caps: &Captures<'_>, dst: &mut Vec<u8>)
        requires
            old(self).ready(caps),
        ensures
            old(dst)@.is_prefix_of(final(dst)@),
            old(self).appends(
                caps.spec_hay(),
                caps.spec_slots(),
                caps.spec_names(),
                final(dst)@.skip(old(dst)@.len() as int),
            ),
            old(self).stable() ==> *final(self) == *old(self),
            (forall|c: &Captures| #[trigger] old(self).ready(c)) ==> (forall|c: &Captures|
                #[trigger] final(self).ready(c)),
    ;
}

/// Appends the expansion of `template` and states what a template replacer promises.
fn append_template(template: &[u8], caps: &Captures<'_>, dst: &mut Vec<u8>)
    ensures
        old(dst)@.is_prefix_of(final(dst)@),
        final(dst)@.skip(old(dst)@.len() as int) == spec_expand_bytes(
            template@,
            caps.spec_hay(),
            caps.spec_slots(),
            caps.spec_names(),
        ),
{
    let ghost d0 = dst@;
    expand_bytes(template, caps, dst);
    assert(dst@.skip(d0.len() as int) =~= spec_expand_bytes(
        template@,
        caps.spec_hay(),
        caps.spec_slots(),
        caps.spec_names(),
    ));
    assert(d0.is_prefix_of(dst@)) by {
        assert(dst@.subrange(0, d0.len() as int) =~= d0);
    }
}

impl Replacer for &[u8] {
    open spec fn appends(
        &self,
        hay: Seq<u8>,
        slots: SpecSlots,
        names: Seq<Option<Seq<char>>>,
        added: Seq<u8>,
    ) -> bool {
        added == spec_expand_bytes((**self)@, hay, slots, names)
    }

    open spec fn stable(&self) -> bool {
        true
    }

    open spec fn ready(&self, caps: &Captures<'_>) -> bool {
        true
    }

    /// Expands `$N`, `${N}`, `${name}` and `$$` in this template and appends the result to `dst`.
    fn replace_append(&mut self, caps: &Captures<'_>, dst: &mut Vec<u8>) {
        append_template(*self, caps, dst);
    }
}

impl<const N: usize> Replacer for &[u8; N] {
    open spec fn appends(
        &self,
        hay: Seq<u8>,
        slots: SpecSlots,
        names: Seq<Option<Seq<char>>>,
        added: Seq<u8>,
    ) -> bool {
        added == spec_expand_bytes((**self)@, hay, slots, names)
    }

    open spec fn stable(&self) -> bool {
        true
    }

    open spec fn ready(&self, caps: &Captures<'_>) -> bool {
        true
    }

    /// Expands `$N`, `${N}`, `${name}` and `$$` in this template and appends the result to `dst`.
    fn replace_append(&mut self, caps: &Captures<'_>, dst: &mut Vec<u8>) {
        let t: &[u8] = self.as_slice();
        append_template(t, caps, dst);
    }
}

impl Replacer for Vec<u8> {
    open spec fn appends(
        &self,
        hay: Seq<u8>,
        slots: SpecSlots,
        names: Seq<Option<Seq<char>>>,
        added: Seq<u8>,
    ) -> bool {
        added == spec_expand_bytes(self@, hay, slots, names)
    }

    open spec fn stable(&self) -> bool {
        true
    }

    open spec fn ready(&self, caps: &Captures<'_>) -> bool {
        true
    }

    /// Expands `$N`, `${N}`, `${name}` and `$$` in this template and appends the result to `dst`.
    fn replace_append(&mut self, caps: &Captures<'_>, dst: &mut Vec<u8>) {
        append_template(self.as_slice(), caps, dst);
    }
}

impl<F> Replacer for F where F: FnMut(&Captures<'_>) -> Vec<u8> {
    /// A closure appends what it returns for the captures.
    open spec fn appends(
        &self,
        hay: Seq<u8>,
        slots: SpecSlots,
        names: Seq<Option<Seq<char>>>,
        added: Seq<u8>,
    ) -> bool {
        exists|c: Captures<'_>, s: Vec<u8>|
            #![trigger call_ensures(*self, (&c,), s)]
            c.spec_hay() == hay && c.spec_slots() == slots && c.spec_names() == names
                && call_ensures(*self, (&c,), s) && s@ == added
    }

    open spec fn stable(&self) -> bool {
        true
    }

    open spec fn ready(&self, caps: &Captures<'_>) -> bool {
        call_requires(*self, (caps,))
    }

    /// Calls the closure with `caps` and appends the returned bytes to `dst`.
    fn replace_append(&mut self, caps: &Captures<'_>, dst: &mut Vec<u8>) {
        broadcast use vstd::function::group_function_axioms;

        let ghost d0 = dst@;
        let s = self(caps);
        dst.extend_from_slice(s.as_slice());
        assert(dst@.skip(d0.len() as int) =~= s@);
        assert(d0.is_prefix_of(dst@)) by {
            assert(dst@.subrange(0, d0.len() as int) =~= d0);
        }
    }
}

impl Regex {
    #[verifier::type_invariant]
    spec fn inv(&self) -> bool {
        &&& self.captures < usize::MAX
        &&& groups_below(self.ast@, self.captures as nat + 1)
        &&& self.prefix == spec_literal_prefix_byte(self.ast@)
        &&& self.capture_names@.len() == self.captures
    }

    /// The pattern this regex was compiled from.
    pub closed spec fn spec_pattern(&self) -> Seq<char> {
        self.pattern@
    }

    /// The tree of the pattern.
    pub closed spec fn spec_ast(&self) -> SAst {
        self.ast@
    }

    /// The number of capturing groups, group 0 not counted.
    pub closed spec fn spec_captures(&self) -> nat {
        self.captures as nat
    }

    /// The names of the capturing groups `1..`, in order.
    pub closed spec fn spec_names(&self) -> Seq<Option<Seq<char>>> {
        names_view(self.capture_names@)
    }

    /// What a search of the bytes `s` for this regex from offset `start`
    /// finds: the slots of the leftmost-first match.
    pub open spec fn spec_find(&self, s: Seq<u8>, start: int) -> Option<SpecSlots> {
        spec_find_from(self.spec_ast(), s, self.spec_captures(), start, false)
    }

    /// Compile `pattern` into a `Regex`.
    ///
    /// Returns an [`Error`] if the pattern contains invalid syntax.
    pub fn new(pattern: &str) -> (r: Result<Self, Error>)
        ensures
            match r {
                Ok(re) => {
                    &&& spec_compile(pattern@, default_options(), None) == Ok::<
                        (SAst, int, Seq<Option<Seq<char>>>),
                        Seq<char>,
                    >((re.spec_ast(), re.spec_captures() as int, re.spec_names()))
                    &&& re.spec_pattern() == pattern@
                    &&& groups_below(re.spec_ast(), re.spec_captures() + 1)
                },
                Err(e) => spec_compile(pattern@, default_options(), None) == Err::<
                    (SAst, int, Seq<Option<Seq<char>>>),
                    Seq<char>,
                >(e@),
            },
    {
        let b = RegexBuilder::new(pattern);
        b.build()
    }

    /// Returns the pattern string this `Regex` was compiled from.
    pub fn as_str(&self) -> (r: &str)
        ensures
            r@ == self.spec_pattern(),
    {
        self.pattern.as_str()
    }

    /// The number of capture groups, including group 0 (the whole match).
    pub fn captures_len(&self) -> (r: usize)
        ensures
            r == self.spec_captures() + 1,
    {
        proof {
            use_type_invariant(self);
        }
        self.captures + 1
    }

    /// The names of the capture groups, group 0 first: `None` for a group
    /// without a name.
    pub fn capture_names(&self) -> (r: CaptureNames<'_>)
        ensures
            r.remaining().len() == self.spec_captures() + 1,
            r.remaining()[0] is None,
            forall|i: int|
                1 <= i <= self.spec_captures() ==> opt_str_view(#[trigger] r.remaining()[i])
                    == self.spec_names()[i - 1],
    {
        proof {
            use_type_invariant(self);
        }
        let mut v: Vec<Option<&str>> = Vec::new();
        v.push(None);
        let mut i: usize = 0;
        while i < self.capture_names.len()
            invariant
                i <= self.capture_names@.len(),
                v@.len() == i + 1,
                v@[0] is None,
                forall|k: int|
                    1 <= k <= i ==> opt_str_view(#[trigger] v@[k]) == name_view(
                        self.capture_names@[k - 1],
                    ),
            decreases self.capture_names.len() - i,
        {
            match &self.capture_names[i] {
                Some(s) => v.push(Some(s.as_str())),
                None => v.push(None),
            }
            i = i + 1;
        }
        let r = v.into_iter();
        proof {
            assert(r.remaining() == v@);
        }
        r
    }

    /// Returns the leftmost [`Captures`] for this regex in `haystack`, or
    /// `None` if no match exists.
    pub fn captures<'h>(&self, haystack: &'h [u8]) -> (r: Option<Captures<'h>>)
        requires
            haystack@.len() < usize::MAX,
        ensures
            match r {
                Some(c) => {
                    &&& self.spec_find(haystack@, 0) == Some(c.spec_slots())
                    &&& c.spec_hay() == haystack@
                    &&& c.spec_names() == self.spec_names()
                    &&& c.spec_slots().len() == self.spec_captures() + 1
                },
                None => self.spec_find(haystack@, 0) is None,
            },
    {
        self.captures_at(haystack, 0)
    }

    /// The leftmost [`Captures`] starting at or after the boundary `start`.
    fn captures_at<'h>(&self, haystack: &'h [u8], start: usize) -> (r: Option<Captures<'h>>)
        requires
            haystack@.len() < usize::MAX,
            start <= haystack@.len(),
        ensures
            match r {
                Some(c) => {
                    &&& self.spec_find(haystack@, start as int) == Some(c.spec_slots())
                    &&& c.spec_hay() == haystack@
                    &&& c.spec_names() == self.spec_names()
                    &&& c.spec_slots().len() == self.spec_captures() + 1
                },
                None => self.spec_find(haystack@, start as int) is None,
            },
    {
        proof {
            use_type_invariant(self);
            lemma_find_from_good(
                self.ast@,
                haystack@,
                self.captures as nat,
                start as int,
                false,
            );
        }
        match find(&self.ast, haystack, self.captures, start, self.prefix) {
            Some(v) => {
                let names = copy_names(&self.capture_names);
                Some(Captures { haystack, slots: Slots::Heap(v), names })
            },
            None => None,
        }
    }

    /// The [`Captures`] of the search made while iterating from `next`: where
    /// `skip` holds, an empty match at `next` is passed over and the search
    /// is made again from the next byte.
    fn captures_next<'h>(&self, haystack: &'h [u8], next: usize, skip: bool) -> (r: Option<Captures<'h>>)
        requires
            haystack@.len() < usize::MAX,
            next <= haystack@.len(),
        ensures
            match r {
                Some(c) => {
                    &&& spec_search_next(self.spec_ast(), self.spec_captures(), haystack@, next, skip)
                        == Some(c.spec_slots())
                    &&& c.spec_hay() == haystack@
                    &&& c.spec_names() == self.spec_names()
                },
                None => spec_search_next(self.spec_ast(), self.spec_captures(), haystack@, next, skip) is None,
            },
    {
        let c = match self.captures_at(haystack, next) {
            Some(c) => c,
            None => {
                return None;
            },
        };
        if skip {
            if let Some((a, b)) = c.slots.get(0) {
                if a == next && b == next {
                    if next < haystack.len() {
                        return self.captures_at(haystack, next + 1);
                    } else {
                        return None;
                    }
                }
            }
        }
        Some(c)
    }

    /// Returns the leftmost [`Match`] in `haystack`, or `None` if no match
    /// exists.
    pub fn find<'h>(&self, haystack: &'h [u8]) -> (r: Option<Match<'h>>)
        requires
            haystack@.len() < usize::MAX,
        ensures
            match r {
                Some(m) => self.spec_find(haystack@, 0) matches Some(sl) && sl[0]
                    == Some((m.spec_start(), m.spec_end())) && m.spec_hay()
                    == haystack@,
                None => self.spec_find(haystack@, 0) is None,
            },
    {
        match self.captures(haystack) {
            Some(c) => {
                proof {
                    use_type_invariant(&c);
                    use_type_invariant(self);
                    lemma_find_from_good(
                        self.ast@,
                        haystack@,
                        self.captures as nat,
                        0,
                        false,
                    );
                }
                c.get(0)
            },
            None => None,
        }
    }

    /// Returns an iterator over all non-overlapping [`Match`]es in
    /// `haystack`.
    pub fn find_iter<'r, 'h>(&'r self, haystack: &'h [u8]) -> (r: FindMatches<'r, 'h>)
        requires
            haystack@.len() < usize::MAX,
        ensures
            r.spec_regex() == *self,
            r.spec_hay() == haystack@,
            r.spec_next() == 0,
            !r.spec_done(),
            !r.spec_skip(),
    {
        FindMatches { re: self, haystack, next: 0, done: false, skip: false }
    }

    /// Returns an iterator over all non-overlapping [`Captures`] in
    /// `haystack`.
    pub fn captures_iter<'r, 'h>(&'r self, haystack: &'h [u8]) -> (r: CaptureMatches<'r, 'h>)
        requires
            haystack@.len() < usize::MAX,
        ensures
            r.spec_regex() == *self,
            r.spec_hay() == haystack@,
            r.spec_next() == 0,
            !r.spec_done(),
            !r.spec_skip(),
    {
        CaptureMatches { re: self, haystack, next: 0, done: false, skip: false }
    }

    /// Returns an iterator over substrings of `haystack` delimited by matches
    /// of this regex.
    pub fn split<'r, 'h>(&'r self, haystack: &'h [u8]) -> (r: Split<'r, 'h>)
        requires
            haystack@.len() < usize::MAX,
        ensures
            r.spec_matches().spec_regex() == *self,
            r.spec_matches().spec_hay() == haystack@,
            r.spec_matches().spec_next() == 0,
            !r.spec_matches().spec_done(),
            !r.spec_matches().spec_skip(),
            r.spec_last() == 0,
            !r.spec_finished(),
    {
        Split { matches: self.find_iter(haystack), last: 0, finished: false }
    }

    /// Returns the haystack with the first match replaced by the output of
    /// `rep`. If no match is found the haystack is returned unchanged.
    pub fn replace<R: Replacer>(&self, haystack: &[u8], rep: R) -> (r: Vec<u8>)
        requires
            haystack@.len() < usize::MAX,
            forall|c: &Captures| #[trigger] rep.ready(c),
        ensures
            match self.spec_find(haystack@, 0) {
                None => r@ == haystack@,
                Some(sl) => exists|mid: Seq<u8>|
                    #[trigger] rep.appends(haystack@, sl, self.spec_names(), mid) && r@
                        == haystack@.subrange(0, spec_match_start(sl)) + mid + haystack@.subrange(
                        spec_match_end(sl),
                        haystack@.len() as int,
                    ),
            },
    {
        let mut rep = rep;
        let caps = match self.captures(haystack) {
            Some(c) => c,
            None => {
                let mut v: Vec<u8> = Vec::new();
                v.extend_from_slice(haystack);
                return v;
            },
        };
        proof {
            use_type_invariant(self);
            lemma_find_from_good(self.ast@, haystack@, self.captures as nat, 0, false);
        }
        let (start, end) = match caps.slots.get(0) {
            Some(span) => span,
            None => {
                let mut v: Vec<u8> = Vec::new();
                v.extend_from_slice(haystack);
                return v;
            },
        };
        let mut dst: Vec<u8> = Vec::new();
        dst.extend_from_slice(byte_slice(haystack, 0, start));
        let ghost d1 = dst@;
        rep.replace_append(&caps, &mut dst);
        let ghost mid = dst@.skip(d1.len() as int);
        proof {
            assert(d1.is_prefix_of(dst@));
            assert(dst@ =~= d1 + mid);
        }
        dst.extend_from_slice(byte_slice(haystack, end, haystack.len()));
        dst
    }

    /// Returns the haystack with every non-overlapping match replaced by the
    /// output of `rep`. If no match is found the haystack is returned
    /// unchanged.
    ///
    /// The matches are those [`find_iter`](Regex::find_iter) yields; the bytes
    /// between them are kept. A replacer that stays as it is (a template)
    /// appends, for each match, what it appends for that match alone.
    pub fn replace_all<R: Replacer>(&self, haystack: &[u8], rep: R) -> (r: Vec<u8>)
        requires
            haystack@.len() < usize::MAX,
            forall|c: &Captures| #[trigger] rep.ready(c),
        ensures
            ({
                let hay = haystack@;
                let ms = spec_all_matches(self.spec_ast(), self.spec_captures(), hay, 0, false, false);
                exists|mids: Seq<Seq<u8>>|
                    #![trigger spec_spliced(hay, ms, mids)]
                    mids.len() == ms.len() && r@ == spec_spliced(hay, ms, mids) + hay.subrange(
                        spec_after(ms),
                        hay.len() as int,
                    ) && (rep.stable() ==> forall|k: int|
                        0 <= k < ms.len() ==> rep.appends(hay, ms[k], self.spec_names(), #[trigger] mids[k]))
            }),
    {
        let ghost hay = haystack@;
        let ghost ms0 = spec_all_matches(self.spec_ast(), self.spec_captures(), hay, 0, false, false);
        let mut cur = rep;
        let mut dst: Vec<u8> = Vec::new();
        let mut last: usize = 0;
        let mut it = self.captures_iter(haystack);
        let ghost mut done_ms: Seq<SpecSlots> = seq![];
        let ghost mut mids: Seq<Seq<u8>> = seq![];
        assert(dst@ =~= spec_spliced(hay, done_ms, mids));
        loop
            invariant
                hay == haystack@,
                hay.len() < usize::MAX,
                it.spec_regex() == *self,
                it.spec_hay() == hay,
                ms0 == spec_all_matches(self.spec_ast(), self.spec_captures(), hay, 0, false, false),
                ms0 == done_ms + spec_all_matches(
                    self.spec_ast(),
                    self.spec_captures(),
                    hay,
                    it.spec_next(),
                    it.spec_done(),
                    it.spec_skip(),
                ),
                mids.len() == done_ms.len(),
                dst@ == spec_spliced(hay, done_ms, mids),
                last == spec_after(done_ms),
                last <= it.spec_next() <= hay.len(),
                rep.stable() ==> cur == rep,
                forall|c: &Captures| #[trigger] cur.ready(c),
                rep.stable() ==> forall|k: int|
                    0 <= k < done_ms.len() ==> rep.appends(hay, done_ms[k], self.spec_names(), #[trigger] mids[k]),
            decreases (if it.spec_done() {
                0
            } else {
                hay.len() + 1 - it.spec_next()
            }),
        {
            proof {
                use_type_invariant(&it);
                use_type_invariant(self);
                if !it.spec_done() {
                    lemma_iter_step(self.spec_ast(), self.spec_captures(), hay, it.spec_next(), it.spec_skip());
                }
            }
            let ghost it0 = it;
            let caps = match it.next() {
                Some(c) => c,
                None => {
                    dst.extend_from_slice(byte_slice(haystack, last, haystack.len()));
                    proof {
                        assert(done_ms =~= ms0);
                        assert(dst@ == spec_spliced(hay, ms0, mids) + hay.subrange(
                            spec_after(ms0),
                            hay.len() as int,
                        ));
                    }
                    return dst;
                },
            };
            let ghost sl = caps.spec_slots();
            let (start, end) = match caps.slots.get(0) {
                Some(span) => span,
                None => {
                    return dst;
                },
            };
            dst.extend_from_slice(byte_slice(haystack, last, start));
            let ghost d1 = dst@;
            cur.replace_append(&caps, &mut dst);
            proof {
                let mid = dst@.skip(d1.len() as int);
                assert(d1.is_prefix_of(dst@));
                assert(dst@ =~= d1 + mid);
                let ms1 = done_ms.push(sl);
                let mids1 = mids.push(mid);
                assert(ms1.drop_last() =~= done_ms);
                assert(mids1.drop_last() =~= mids);
                assert(spec_all_matches(self.spec_ast(), self.spec_captures(), hay, it0.spec_next(), it0.spec_done(), it0.spec_skip())
                    =~= seq![sl] + spec_all_matches(self.spec_ast(), self.spec_captures(), hay, it.spec_next(), it.spec_done(), it.spec_skip()));
                assert(ms0 =~= ms1 + spec_all_matches(self.spec_ast(), self.spec_captures(), hay, it.spec_next(), it.spec_done(), it.spec_skip()));
                done_ms = ms1;
                mids = mids1;
            }
            last = end;
        }
    }

    /// Returns `true` if and only if there is a match for the regex anywhere
    /// in the haystack.
    pub fn is_match(&self, haystack: &[u8]) -> (r: bool)
        requires
            haystack@.len() < usize::MAX,
        ensures
            r == self.spec_find(haystack@, 0) is Some,
    {
        self.captures(haystack).is_some()
    }
}

impl RegexBuilder {
    /// The pattern, options and limits this builder compiles with.
    pub closed spec fn spec_pattern(&self) -> Seq<char> {
        self.pattern@
    }

    pub closed spec fn spec_options(&self) -> Options {
        self.options
    }

    pub closed spec fn spec_size_limit(&self) -> Option<usize> {
        self.size_limit
    }

    pub closed spec fn spec_dfa_size_limit(&self) -> Option<usize> {
        self.dfa_size_limit
    }

    /// A builder for `pattern` with the default options and no limits.
    pub fn new(pattern: &str) -> (r: Self)
        ensures
            r.spec_pattern() == pattern@,
            r.spec_options() == default_options(),
            r.spec_size_limit() is None,
            r.spec_dfa_size_limit() is None,
    {
        RegexBuilder {
            pattern: pattern.to_owned(),
            options: Options::default(),
            size_limit: None,
            dfa_size_limit: None,
        }
    }

    /// A builder for `pattern` with the given options and limits.
    pub(crate) fn configured(
        pattern: &str,
        options: Options,
        size_limit: Option<usize>,
        dfa_size_limit: Option<usize>,
    ) -> (r: Self)
        ensures
            r.spec_pattern() == pattern@,
            r.spec_options() == options,
            r.spec_size_limit() == size_limit,
            r.spec_dfa_size_limit() == dfa_size_limit,
    {
        RegexBuilder { pattern: pattern.to_owned(), options, size_limit, dfa_size_limit }
    }

    /// Compiles the pattern with the configured options.
    ///
    /// Returns an [`Error`] if the pattern has invalid syntax, breaks an
    /// option (an octal or Unicode escape that is not allowed, groups nested
    /// deeper than the limit), or its tree has more nodes than the size limit.
    pub fn build(&self) -> (r: Result<Regex, Error>)
        ensures
            match r {
                Ok(re) => {
                    &&& spec_compile(self.spec_pattern(), self.spec_options(), self.spec_size_limit())
                        == Ok::<(SAst, int, Seq<Option<Seq<char>>>), Seq<char>>(
                        (re.spec_ast(), re.spec_captures() as int, re.spec_names()),
                    )
                    &&& re.spec_pattern() == self.spec_pattern()
                    &&& groups_below(re.spec_ast(), re.spec_captures() + 1)
                },
                Err(e) => spec_compile(self.spec_pattern(), self.spec_options(), self.spec_size_limit())
                    == Err::<(SAst, int, Seq<Option<Seq<char>>>), Seq<char>>(e@),
            },
    {
        let parsed = match parse_with_options(self.pattern.as_str(), self.options) {
            Ok(p) => p,
            Err(e) => {
                return Err(e);
            },
        };
        match self.size_limit {
            Some(limit) => {
                if parsed.ast.node_count() > limit {
                    return Err(Error::new("compiled regex exceeds size limit"));
                }
            },
            None => {},
        }
        let prefix = literal_prefix_byte(&parsed.ast);
        Ok(
            Regex {
                pattern: self.pattern.clone(),
                ast: parsed.ast,
                captures: parsed.captures,
                capture_names: parsed.capture_names,
                prefix,
            },
        )
    }

    /// Enables or disables ASCII case-insensitive matching (the `i` flag).
    pub fn case_insensitive(&mut self, yes: bool) -> (r: &mut Self)
        ensures
            r.spec_options() == (Options { case_insensitive: yes, ..old(self).spec_options() }),
            r.spec_pattern() == old(self).spec_pattern(),
            r.spec_size_limit() == old(self).spec_size_limit(),
            r.spec_dfa_size_limit() == old(self).spec_dfa_size_limit(),
            *final(self) == *final(r),
    {
        self.options.case_insensitive = yes;
        self
    }

    /// Enables or disables multi-line mode (the `m` flag): `^` and `$` also match
    /// after and before `\n`.
    pub fn multi_line(&mut self, yes: bool) -> (r: &mut Self)
        ensures
            r.spec_options() == (Options { multi_line: yes, ..old(self).spec_options() }),
            r.spec_pattern() == old(self).spec_pattern(),
            r.spec_size_limit() == old(self).spec_size_limit(),
            r.spec_dfa_size_limit() == old(self).spec_dfa_size_limit(),
            *final(self) == *final(r),
    {
        self.options.multi_line = yes;
        self
    }

    /// Enables or disables letting `.` match `\n` (the `s` flag).
    pub fn dot_matches_new_line(&mut self, yes: bool) -> (r: &mut Self)
        ensures
            r.spec_options() == (Options { dot_matches_new_line: yes, ..old(self).spec_options() }),
            r.spec_pattern() == old(self).spec_pattern(),
            r.spec_size_limit() == old(self).spec_size_limit(),
            r.spec_dfa_size_limit() == old(self).spec_dfa_size_limit(),
            *final(self) == *final(r),
    {
        self.options.dot_matches_new_line = yes;
        self
    }

    /// Enables or disables CRLF-aware line anchors (the `R` flag): in multi-line
    /// mode `^` and `$` treat `\r\n` as one line terminator.
    pub fn crlf(&mut self, yes: bool) -> (r: &mut Self)
        ensures
            r.spec_options() == (Options { crlf: yes, ..old(self).spec_options() }),
            r.spec_pattern() == old(self).spec_pattern(),
            r.spec_size_limit() == old(self).spec_size_limit(),
            r.spec_dfa_size_limit() == old(self).spec_dfa_size_limit(),
            *final(self) == *final(r),
    {
        self.options.crlf = yes;
        self
    }

    /// Enables or disables swapping greediness (the `U` flag): quantifiers are
    /// lazy by default and `?` makes them greedy.
    pub fn swap_greed(&mut self, yes: bool) -> (r: &mut Self)
        ensures
            r.spec_options() == (Options { swap_greed: yes, ..old(self).spec_options() }),
            r.spec_pattern() == old(self).spec_pattern(),
            r.spec_size_limit() == old(self).spec_size_limit(),
            r.spec_dfa_size_limit() == old(self).spec_dfa_size_limit(),
            *final(self) == *final(r),
    {
        self.options.swap_greed = yes;
        self
    }

    /// Enables or disables insignificant whitespace mode (the `x` flag).
    pub fn ignore_whitespace(&mut self, yes: bool) -> (r: &mut Self)
        ensures
            r.spec_options() == (Options { ignore_whitespace: yes, ..old(self).spec_options() }),
            r.spec_pattern() == old(self).spec_pattern(),
            r.spec_size_limit() == old(self).spec_size_limit(),
            r.spec_dfa_size_limit() == old(self).spec_dfa_size_limit(),
            *final(self) == *final(r),
    {
        self.options.ignore_whitespace = yes;
        self
    }

    /// Enables or disables Unicode mode (the `u` flag): when disabled, `\u` escapes
    /// and `\p` classes are rejected.
    pub fn unicode(&mut self, yes: bool) -> (r: &mut Self)
        ensures
            r.spec_options() == (Options { unicode: yes, ..old(self).spec_options() }),
            r.spec_pattern() == old(self).spec_pattern(),
            r.spec_size_limit() == old(self).spec_size_limit(),
            r.spec_dfa_size_limit() == old(self).spec_dfa_size_limit(),
            *final(self) == *final(r),
    {
        self.options.unicode = yes;
        self
    }

    /// Enables or disables octal escapes such as `\141`.
    pub fn octal(&mut self, yes: bool) -> (r: &mut Self)
        ensures
            r.spec_options() == (Options { octal: yes, ..old(self).spec_options() }),
            r.spec_pattern() == old(self).spec_pattern(),
            r.spec_size_limit() == old(self).spec_size_limit(),
            r.spec_dfa_size_limit() == old(self).spec_dfa_size_limit(),
            *final(self) == *final(r),
    {
        self.options.octal = yes;
        self
    }

    /// Sets the size limit: compiling fails when the pattern's tree has more
    /// nodes than `limit`.
    pub fn size_limit(&mut self, limit: usize) -> (r: &mut Self)
        ensures
            r.spec_size_limit() == Some(limit),
            r.spec_options() == old(self).spec_options(),
            r.spec_pattern() == old(self).spec_pattern(),
            r.spec_dfa_size_limit() == old(self).spec_dfa_size_limit(),
            *final(self) == *final(r),
    {
        self.size_limit = Some(limit);
        self
    }

    /// Records the DFA cache size requested by callers. This engine interprets
    /// the tree and keeps no DFA cache, so matching is unaffected.
    pub fn dfa_size_limit(&mut self, limit: usize) -> (r: &mut Self)
        ensures
            r.spec_dfa_size_limit() == Some(limit),
            r.spec_options() == old(self).spec_options(),
            r.spec_pattern() == old(self).spec_pattern(),
            r.spec_size_limit() == old(self).spec_size_limit(),
            *final(self) == *final(r),
    {
        self.dfa_size_limit = Some(limit);
        self
    }

    /// Sets the nesting limit: compiling fails when groups nest deeper than
    /// `limit`.
    pub fn nest_limit(&mut self, limit: u32) -> (r: &mut Self)
        ensures
            r.spec_options() == (Options { nest_limit: Some(limit), ..old(self).spec_options() }),
            r.spec_pattern() == old(self).spec_pattern(),
            r.spec_size_limit() == old(self).spec_size_limit(),
            r.spec_dfa_size_limit() == old(self).spec_dfa_size_limit(),
            *final(self) == *final(r),
    {
        self.options.nest_limit = Some(limit);
        self
    }
}

impl<'r, 'h> FindMatches<'r, 'h> {
    #[verifier::type_invariant]
    spec fn inv(&self) -> bool {
        &&& self.haystack@.len() < usize::MAX
        &&& self.next <= self.haystack@.len()
    }

    pub closed spec fn spec_regex(&self) -> Regex {
        *self.re
    }

    pub closed spec fn spec_hay(&self) -> Seq<u8> {
        self.haystack@
    }

    /// Where the next search starts.
    pub closed spec fn spec_next(&self) -> usize {
        self.next
    }

    /// Whether a match has reached the end of the haystack.
    pub closed spec fn spec_done(&self) -> bool {
        self.done
    }

    /// Whether the last match was non-empty and ended where the next search
    /// starts.
    pub closed spec fn spec_skip(&self) -> bool {
        self.skip
    }

    /// The step this iterator takes next.
    pub open spec fn spec_step(&self) -> (Option<SpecSlots>, usize, bool, bool) {
        spec_iter_step(
            self.spec_regex().spec_ast(),
            self.spec_regex().spec_captures(),
            self.spec_hay(),
            self.spec_next(),
            self.spec_done(),
            self.spec_skip(),
        )
    }

    /// Advances the iterator and returns the next [`Match`], or `None` when exhausted.
    pub fn next(&mut self) -> (r: Option<Match<'h>>)
        ensures
            final(self).spec_regex() == old(self).spec_regex(),
            final(self).spec_hay() == old(self).spec_hay(),
            final(self).spec_next() == old(self).spec_step().1,
            final(self).spec_done() == old(self).spec_step().2,
            final(self).spec_skip() == old(self).spec_step().3,
            match r {
                Some(m) => old(self).spec_step().0 matches Some(sl) && sl[0] == Some(
                    (m.spec_start(), m.spec_end()),
                ) && m.spec_hay() == old(self).spec_hay() && old(self).spec_next() <= m.spec_start()
                    <= m.spec_end() <= final(self).spec_next(),
                None => old(self).spec_step().0 is None,
            },
    {
        proof {
            use_type_invariant(&*self);
        }
        if self.done {
            return None;
        }
        let c = match self.re.captures_next(self.haystack, self.next, self.skip) {
            Some(c) => c,
            None => {
                return None;
            },
        };
        proof {
            use_type_invariant(self.re);
            use_type_invariant(&c);
            lemma_iter_step(
                self.re.spec_ast(),
                self.re.spec_captures(),
                self.haystack@,
                self.next,
                self.skip,
            );
        }
        let m = match c.get(0) {
            Some(m) => m,
            None => {
                return None;
            },
        };
        let start = m.start();
        let end = m.end();
        if end == self.haystack.len() {
            self.done = true;
        }
        self.next = if start == end {
            advance_bytes(self.haystack, end)
        } else {
            end
        };
        self.skip = start != end;
        Some(m)
    }

    /// Returns the number of matches the iterator has left.
    pub fn count(self) -> (r: usize)
        ensures
            r == spec_count(
                self.spec_regex().spec_ast(),
                self.spec_regex().spec_captures(),
                self.spec_hay(),
                self.spec_next(),
                self.spec_done(),
                self.spec_skip(),
            ),
    {
        proof {
            use_type_invariant(&self);
            lemma_count_bound(
                self.spec_regex().spec_ast(),
                self.spec_regex().spec_captures(),
                self.spec_hay(),
                self.spec_next(),
                self.spec_done(),
                self.spec_skip(),
            );
        }
        let mut iter = self;
        let mut count: usize = 0;
        loop
            invariant
                iter.spec_regex() == self.spec_regex(),
                iter.spec_hay() == self.spec_hay(),
                count + spec_count(
                    iter.spec_regex().spec_ast(),
                    iter.spec_regex().spec_captures(),
                    iter.spec_hay(),
                    iter.spec_next(),
                    iter.spec_done(),
                    iter.spec_skip(),
                ) == spec_count(
                    self.spec_regex().spec_ast(),
                    self.spec_regex().spec_captures(),
                    self.spec_hay(),
                    self.spec_next(),
                    self.spec_done(),
                    self.spec_skip(),
                ),
                spec_count(
                    self.spec_regex().spec_ast(),
                    self.spec_regex().spec_captures(),
                    self.spec_hay(),
                    self.spec_next(),
                    self.spec_done(),
                    self.spec_skip(),
                ) <= self.spec_hay().len() + 1,
                self.spec_hay().len() < usize::MAX,
            decreases (if iter.spec_done() {
                0
            } else {
                iter.spec_hay().len() + 1 - iter.spec_next()
            }),
        {
            proof {
                use_type_invariant(&iter);
                use_type_invariant(iter.re);
                if !iter.done {
                    lemma_iter_step(
                        iter.re.spec_ast(),
                        iter.re.spec_captures(),
                        iter.haystack@,
                        iter.next,
                        iter.skip,
                    );
                }
            }
            match iter.next() {
                Some(_) => {
                    count = count + 1;
                },
                None => {
                    return count;
                },
            }
        }
    }
}

impl<'r, 'h> CaptureMatches<'r, 'h> {
    #[verifier::type_invariant]
    spec fn inv(&self) -> bool {
        &&& self.haystack@.len() < usize::MAX
        &&& self.next <= self.haystack@.len()
    }

    pub closed spec fn spec_regex(&self) -> Regex {
        *self.re
    }

    pub closed spec fn spec_hay(&self) -> Seq<u8> {
        self.haystack@
    }

    /// Where the next search starts.
    pub closed spec fn spec_next(&self) -> usize {
        self.next
    }

    /// Whether a match has reached the end of the haystack.
    pub closed spec fn spec_done(&self) -> bool {
        self.done
    }

    /// Whether the last match was non-empty and ended where the next search
    /// starts.
    pub closed spec fn spec_skip(&self) -> bool {
        self.skip
    }

    /// The step this iterator takes next.
    pub open spec fn spec_step(&self) -> (Option<SpecSlots>, usize, bool, bool) {
        spec_iter_step(
            self.spec_regex().spec_ast(),
            self.spec_regex().spec_captures(),
            self.spec_hay(),
            self.spec_next(),
            self.spec_done(),
            self.spec_skip(),
        )
    }

    /// Advances the iterator and returns the next [`Captures`], or `None` when exhausted.
    pub fn next(&mut self) -> (r: Option<Captures<'h>>)
        ensures
            final(self).spec_regex() == old(self).spec_regex(),
            final(self).spec_hay() == old(self).spec_hay(),
            final(self).spec_next() == old(self).spec_step().1,
            final(self).spec_done() == old(self).spec_step().2,
            final(self).spec_skip() == old(self).spec_step().3,
            match r {
                Some(c) => old(self).spec_step().0 == Some(c.spec_slots()) && c.spec_hay()
                    == old(self).spec_hay() && c.spec_names() == old(self).spec_regex().spec_names(),
                None => old(self).spec_step().0 is None,
            },
    {
        proof {
            use_type_invariant(&*self);
        }
        if self.done {
            return None;
        }
        let c = match self.re.captures_next(self.haystack, self.next, self.skip) {
            Some(c) => c,
            None => {
                return None;
            },
        };
        proof {
            use_type_invariant(self.re);
            use_type_invariant(&c);
            lemma_iter_step(
                self.re.spec_ast(),
                self.re.spec_captures(),
                self.haystack@,
                self.next,
                self.skip,
            );
        }
        let (start, end) = match c.slots.get(0) {
            Some(span) => span,
            None => {
                return None;
            },
        };
        if end == self.haystack.len() {
            self.done = true;
        }
        self.next = if start == end {
            advance_bytes(self.haystack, end)
        } else {
            end
        };
        self.skip = start != end;
        Some(c)
    }

    /// Returns the number of matches the iterator has left.
    pub fn count(self) -> (r: usize)
        ensures
            r == spec_count(
                self.spec_regex().spec_ast(),
                self.spec_regex().spec_captures(),
                self.spec_hay(),
                self.spec_next(),
                self.spec_done(),
                self.spec_skip(),
            ),
    {
        proof {
            use_type_invariant(&self);
        }
        let f = FindMatches { re: self.re, haystack: self.haystack, next: self.next, done: self.done, skip: self.skip };
        f.count()
    }
}

impl<'r, 'h> Split<'r, 'h> {
    /// The part yielded next starts no later than the next search.
    #[verifier::type_invariant]
    spec fn inv(&self) -> bool {
        &&& self.last <= self.matches.next
    }

    /// The matches that delimit the parts.
    pub closed spec fn spec_matches(&self) -> FindMatches<'r, 'h> {
        self.matches
    }

    /// Where the part yielded next begins.
    pub closed spec fn spec_last(&self) -> usize {
        self.last
    }

    /// Whether the last part has been yielded.
    pub closed spec fn spec_finished(&self) -> bool {
        self.finished
    }

    /// The parts still to come: the bytes before each match still to be
    /// found, then the rest of the haystack; none once the last part has
    /// been yielded.
    pub open spec fn spec_parts_left(&self) -> Seq<Seq<u8>> {
        if self.spec_finished() {
            seq![]
        } else {
            let m = self.spec_matches();
            spec_split_parts(
                m.spec_hay(),
                spec_all_matches(
                    m.spec_regex().spec_ast(),
                    m.spec_regex().spec_captures(),
                    m.spec_hay(),
                    m.spec_next(),
                    m.spec_done(),
                    m.spec_skip(),
                ),
                self.spec_last() as int,
            )
        }
    }

    /// Advances the iterator and returns the next substring between matches, or `None` when exhausted.
    #[verifier::spinoff_prover]
    #[verifier::rlimit(40)]
    pub fn next(&mut self) -> (r: Option<&'h [u8]>)
        ensures
            match r {
                Some(p) => {
                    &&& old(self).spec_parts_left().len() > 0
                    &&& p@ == old(self).spec_parts_left()[0]
                    &&& final(self).spec_parts_left() == old(self).spec_parts_left().drop_first()
                },
                None => old(self).spec_parts_left().len() == 0 && final(self).spec_parts_left().len() == 0,
            },
            old(self).spec_finished() ==> r is None && final(self).spec_finished(),
            !old(self).spec_finished() ==> {
                let m = old(self).spec_matches();
                let hay = m.spec_hay();
                &&& final(self).spec_matches().spec_regex() == m.spec_regex()
                &&& final(self).spec_matches().spec_hay() == hay
                &&& final(self).spec_matches().spec_next() == m.spec_step().1
                &&& final(self).spec_matches().spec_done() == m.spec_step().2
                &&& final(self).spec_matches().spec_skip() == m.spec_step().3
                &&& match m.spec_step().0 {
                    Some(sl) => sl[0] matches Some((a, b)) && r matches Some(p) && p@
                        == hay.subrange(old(self).spec_last() as int, a as int)
                        && final(self).spec_last() == b && !final(self).spec_finished(),
                    None => r matches Some(p) && p@ == hay.subrange(
                        old(self).spec_last() as int,
                        hay.len() as int,
                    ) && final(self).spec_finished(),
                }
            },
    {
        proof {
            use_type_invariant(&*self);
            use_type_invariant(&self.matches);
        }
        if self.finished {
            return None;
        }
        proof {
            use_type_invariant(self.matches.re);
            if !self.matches.done {
                lemma_iter_step(
                    self.matches.re.spec_ast(),
                    self.matches.re.spec_captures(),
                    self.matches.haystack@,
                    self.matches.next,
                    self.matches.skip,
                );
            }
        }
        let ghost ms0 = spec_all_matches(
            self.matches.re.spec_ast(),
            self.matches.re.spec_captures(),
            self.matches.haystack@,
            self.matches.next,
            self.matches.done,
            self.matches.skip,
        );
        let hay = self.matches.haystack;
        let last = self.last;
        let mut matches = FindMatches {
            re: self.matches.re,
            haystack: hay,
            next: self.matches.next,
            done: self.matches.done,
            skip: self.matches.skip,
        };
        match matches.next() {
            Some(m) => {
                proof {
                    use_type_invariant(&m);
                    use_type_invariant(&matches);
                }
                let part = byte_slice(hay, last, m.start());
                *self = Split { matches, last: m.end(), finished: false };
                proof {
                    assert(ms0.len() > 0);
                    assert(ms0.drop_first() == spec_all_matches(
                        matches.re.spec_ast(),
                        matches.re.spec_captures(),
                        hay@,
                        matches.next,
                        matches.done,
                        matches.skip,
                    ));
                }
                Some(part)
            },
            None => {
                *self = Split { matches, last, finished: true };
                proof {
                    assert(ms0.len() == 0);
                }
                Some(byte_slice(hay, last, hay.len()))
            },
        }
    }
}

impl<'h> Match<'h> {
    #[verifier::type_invariant]
    spec fn inv(&self) -> bool {
        &&& self.start <= self.end <= self.haystack@.len()
    }

    pub closed spec fn spec_start(&self) -> usize {
        self.start
    }

    pub closed spec fn spec_end(&self) -> usize {
        self.end
    }

    /// The bytes of the haystack the match is in.
    pub closed spec fn spec_hay(&self) -> Seq<u8> {
        self.haystack@
    }

    /// Returns the byte offset of the start of the match.
    pub fn start(&self) -> (r: usize)
        ensures
            r == self.spec_start(),
    {
        self.start
    }

    /// Returns the byte offset of the end of the match (exclusive).
    pub fn end(&self) -> (r: usize)
        ensures
            r == self.spec_end(),
    {
        self.end
    }

    /// Returns the byte range `start..end` of the match.
    pub fn range(&self) -> (r: core::ops::Range<usize>)
        ensures
            r.start == self.spec_start(),
            r.end == self.spec_end(),
    {
        self.start..self.end
    }

    /// Returns the matched bytes, borrowed from the haystack.
    pub fn as_bytes(&self) -> (r: &'h [u8])
        ensures
            r@ == self.spec_hay().subrange(
                self.spec_start() as int,
                self.spec_end() as int,
            ),
    {
        proof {
            use_type_invariant(self);
        }
        byte_slice(self.haystack, self.start, self.end)
    }
}

impl<'h> Captures<'h> {
    #[verifier::type_invariant]
    spec fn inv(&self) -> bool {
        &&& good_slots(self.haystack@, self.slots@, self.slots@.len(), false)
        &&& self.slots@.len() == self.names@.len() + 1
    }

    /// The spans of the groups, group 0 first.
    pub closed spec fn spec_slots(&self) -> Seq<Option<(usize, usize)>> {
        self.slots@
    }

    /// The bytes of the haystack the match is in.
    pub closed spec fn spec_hay(&self) -> Seq<u8> {
        self.haystack@
    }

    /// The names of the groups `1..`, in order.
    pub closed spec fn spec_names(&self) -> Seq<Option<Seq<char>>> {
        names_view(self.names@)
    }

    /// Returns the `i`-th capture group as a [`Match`], or `None` if the
    /// group did not participate in the match.
    pub fn get(&self, i: usize) -> (r: Option<Match<'h>>)
        ensures
            match r {
                Some(m) => i < self.spec_slots().len() && self.spec_slots()[i as int] == Some(
                    (m.spec_start(), m.spec_end()),
                ) && m.spec_hay() == self.spec_hay(),
                None => i >= self.spec_slots().len() || self.spec_slots()[i as int] is None,
            },
    {
        proof {
            use_type_invariant(self);
        }
        match self.slots.get(i) {
            Some((start, end)) => {
                proof {
                    assert(self.slots@[i as int] matches Some((a, b)));
                }
                Some(Match { haystack: self.haystack, start, end })
            },
            None => None,
        }
    }

    /// Returns the total number of capture slots (including group 0): one
    /// more than the regex has groups.
    pub fn len(&self) -> (r: usize)
        ensures
            r == self.spec_slots().len(),
            r == self.spec_names().len() + 1,
    {
        proof {
            use_type_invariant(self);
        }
        self.slots.len()
    }

    /// Returns `true` if there are no capture slots.
    pub fn is_empty(&self) -> (r: bool)
        ensures
            r == (self.spec_slots().len() == 0),
    {
        self.slots.len() == 0
    }

    /// The group whose name is encoded by `name`, if the regex has one and it
    /// took part in the match.
    pub(crate) fn name_bytes(&self, name: &[u8]) -> (r: Option<Match<'h>>)
        ensures
            match spec_group_index_bytes(self.spec_names(), name@) {
                Some(i) => match r {
                    Some(m) => i < self.spec_slots().len() && self.spec_slots()[i as int] == Some(
                        (m.spec_start(), m.spec_end()),
                    ) && m.spec_hay() == self.spec_hay(),
                    None => i >= self.spec_slots().len() || self.spec_slots()[i as int] is None,
                },
                None => r is None,
            },
    {
        match group_index_bytes(&self.names, name) {
            Some(i) => self.get(i),
            None => None,
        }
    }

    /// The group named `name`, if the regex has one and it took part in the
    /// match.
    pub fn name(&self, name: &str) -> (r: Option<Match<'h>>)
        ensures
            match spec_group_index(self.spec_names(), name@) {
                Some(i) => match r {
                    Some(m) => i < self.spec_slots().len() && self.spec_slots()[i as int] == Some(
                        (m.spec_start(), m.spec_end()),
                    ) && m.spec_hay() == self.spec_hay(),
                    None => i >= self.spec_slots().len() || self.spec_slots()[i as int] is None,
                },
                None => r is None,
            },
    {
        match group_index(&self.names, name) {
            Some(i) => self.get(i),
            None => None,
        }
    }
}

impl<'h> core::ops::Index<usize> for Captures<'h> {
    type Output = [u8];

    /// Returns the text of capture group `index`, which must have taken part
    /// in the match.
    fn index(&self, index: usize) -> (r: &[u8])
        ensures
            self.spec_slots()[index as int] matches Some((a, b)) && r@
                == self.spec_hay().subrange(a as int, b as int),
    {
        proof {
            use_type_invariant(self);
        }
        match self.slots.get(index) {
            Some((a, b)) => byte_slice(self.haystack, a, b),
            None => &[],
        }
    }
}

impl<'h> vstd::std_specs::core::IndexSpecImpl<usize> for Captures<'h> {
    open spec fn index_req(&self, index: &usize) -> bool {
        *index < self.spec_slots().len() && self.spec_slots()[*index as int] is Some
    }
}

impl<'h, 'n> core::ops::Index<&'n str> for Captures<'h> {
    type Output = [u8];

    /// Returns the text of the group called `name`, which must exist and have
    /// taken part in the match.
    fn index(&self, name: &'n str) -> (r: &[u8])
        ensures
            spec_group_index(self.spec_names(), name@) matches Some(i) && self.spec_slots()[i]
                matches Some((a, b)) && r@ == self.spec_hay().subrange(a as int, b as int),
    {
        match self.name(name) {
            Some(m) => {
                proof {
                    lemma_group_index_range(self.spec_names(), name@);
                }
                m.as_bytes()
            },
            None => &[],
        }
    }
}

impl<'h, 'n> vstd::std_specs::core::IndexSpecImpl<&'n str> for Captures<'h> {
    open spec fn index_req(&self, name: &&'n str) -> bool {
        spec_group_index(self.spec_names(), (*name)@) matches Some(i) && i < self.spec_slots().len()
            && self.spec_slots()[i] is Some
    }
}

impl Clone for Regex {
    /// A copy of this regex: the same pattern, tree and groups.
    fn clone(&self) -> (r: Self)
        ensures
            r.spec_pattern() == self.spec_pattern(),
            r.spec_ast() == self.spec_ast(),
            r.spec_captures() == self.spec_captures(),
            r.spec_names() == self.spec_names(),
    {
        proof {
            use_type_invariant(self);
        }
        Regex {
            pattern: self.pattern.clone(),
            ast: self.ast.deep_copy(),
            captures: self.captures,
            capture_names: copy_names(&self.capture_names),
            prefix: self.prefix,
        }
    }
}

impl<'h> Clone for Captures<'h> {
    /// A copy of these captures: the same haystack, spans and names.
    fn clone(&self) -> (r: Self)
        ensures
            r.spec_hay() == self.spec_hay(),
            r.spec_slots() == self.spec_slots(),
            r.spec_names() == self.spec_names(),
    {
        proof {
            use_type_invariant(self);
        }
        Captures { haystack: self.haystack, slots: self.slots.copy(), names: copy_names(&self.names) }
    }
}

} // verus!
