use vstd::prelude::*;
use vstd::utf8::{decode_utf8, valid_utf8};
use crate::ast::SAst;
use crate::matcher::{
    good_slots, groups_below, lemma_alt_led_find, lemma_greed_find, lemma_greed_node_count, lemma_matches_good, lemma_same_but_greed_symmetric,
    same_but_greed, lemma_matches_within, spans_within, spec_attempt,
    spec_find_from, spec_init_slots, spec_matches, spec_step, SpecSlots,
};
use crate::regex::fast::{
    a_plus_b_pattern, spec_classify, spec_fast_count, word_eq_digits_pattern, Fast,
};
use crate::regex::agree::{
    law_a_plus_b_agrees, law_a_plus_b_count, law_a_plus_b_has_iff_find, law_a_plus_b_parses,
    law_word_eq_digits_parses,
    law_word_eq_digits_agrees, law_word_eq_digits_count, law_word_eq_digits_has_iff_find,
};
use crate::regex::api::{
    default_options, fast_fits, spec_compile, spec_fast_for, lemma_iter_step, lemma_search_good, spec_after, spec_all_matches, spec_count,
    spec_iter_step, spec_match_end, spec_match_start, spec_search, spec_spliced, spec_split_parts,
    Captures, Match,
    Regex,
};
use crate::regexset::string::{
    compiled_from, fast_paths_of, matching_indexes, spec_first_error, RegexSet, SetMatches,
};
use crate::grammar::{case_insensitive_prefix, lemma_parse_ci_prefix, lemma_parse_swap, sp_parse};
use crate::parser::{options_cfg, options_flags};
use crate::parser::Options;
use crate::text::{good_pos, lemma_char_at_boundary, lemma_next_char_good, lemma_no_boundary_inside};

verus! {

// What holds of the library's operations taken together: how iterating
// relates to a single search, how splitting relates to the matches, and how
// a set relates to its regexes.

/// The matches `ms` all lie in `from..len`, and each ends no later than the
/// next one starts.
pub open spec fn spec_in_order(ms: Seq<SpecSlots>, from: int, len: int) -> bool {
    &&& forall|k: int|
        0 <= k < ms.len() ==> ((#[trigger] ms[k])[0] matches Some((a, b)) && from <= a && a <= b
            && b <= len)
    &&& forall|i: int, j: int|
        0 <= i < j < ms.len() ==> spec_match_end(#[trigger] ms[i]) <= spec_match_start(
            #[trigger] ms[j],
        )
}

/// Iterating from a finished state yields nothing.
proof fn lemma_all_matches_done(fast: Fast, ast: SAst, cap_count: nat, s: Seq<u8>, next: usize, skip: bool)
    ensures
        spec_all_matches(fast, ast, cap_count, s, next, true, skip).len() == 0,
{
}

/// The matches that iterating over a text yields (what `find_iter` and
/// `captures_iter` give, and what `split` and `replace_all` go by) lie
/// within the text, start no earlier than the iteration did, and come in
/// order without overlapping: each ends no later than the next one starts.
pub proof fn law_matches_in_order(fast: Fast, ast: SAst, cap_count: nat, s: Seq<u8>, next: usize, skip: bool)
    requires
        groups_below(ast, cap_count + 1),
        good_pos(s, next as int, true),
    ensures
        spec_in_order(spec_all_matches(fast, ast, cap_count, s, next, false, skip), next as int, s.len() as int),
    decreases s.len() + 1 - next,
{
    lemma_iter_step(fast, ast, cap_count, s, next, skip);
    let (o, n2, d2, k2) = spec_iter_step(fast, ast, cap_count, s, next, false, skip);
    let ms = spec_all_matches(fast, ast, cap_count, s, next, false, skip);
    match o {
        None => {
            assert(ms.len() == 0);
        },
        Some(sl) => {
            if d2 || (next < n2 <= s.len()) {
                let rest = spec_all_matches(fast, ast, cap_count, s, n2, d2, k2);
                if d2 {
                    lemma_all_matches_done(fast, ast, cap_count, s, n2, k2);
                } else {
                    law_matches_in_order(fast, ast, cap_count, s, n2, k2);
                }
                assert(ms == seq![sl] + rest);
                assert forall|k: int| 0 <= k < ms.len() implies ((#[trigger] ms[k])[0] matches Some(
                    (a, b),
                ) && next <= a && a <= b && b <= s.len()) by {
                    if k > 0 {
                        assert(ms[k] == rest[k - 1]);
                    }
                }
                assert forall|i: int, j: int|
                    0 <= i < j < ms.len() implies spec_match_end(#[trigger] ms[i])
                    <= spec_match_start(#[trigger] ms[j]) by {
                    assert(ms[j] == rest[j - 1]);
                    if i > 0 {
                        assert(ms[i] == rest[i - 1]);
                    }
                }
            } else {
                assert(ms.len() == 0);
            }
        },
    }
}

/// Each of the matches `ms` starts after the one before it started, and an
/// empty match never starts where the match before it ended.
pub open spec fn spec_spaced(ms: Seq<SpecSlots>) -> bool {
    forall|i: int|
        0 <= i < ms.len() - 1 ==> {
            &&& spec_match_start(#[trigger] ms[i]) < spec_match_start(ms[i + 1])
            &&& spec_match_start(ms[i + 1]) == spec_match_end(ms[i + 1]) ==> spec_match_end(ms[i])
                < spec_match_start(ms[i + 1])
        }
}

/// Iterating never yields a match twice at one place: each match starts
/// after the one before it started, and an empty match right where a
/// non-empty one ended is passed over (as is one at the start, where the
/// iteration goes on from such a match).
pub proof fn law_matches_spaced(fast: Fast, ast: SAst, cap_count: nat, s: Seq<u8>, next: usize, skip: bool)
    requires
        groups_below(ast, cap_count + 1),
        good_pos(s, next as int, true),
    ensures
        ({
            let ms = spec_all_matches(fast, ast, cap_count, s, next, false, skip);
            &&& spec_spaced(ms)
            &&& ms.len() > 0 ==> next <= spec_match_start(ms[0])
            &&& skip && ms.len() > 0 && spec_match_start(ms[0]) == spec_match_end(ms[0]) ==> next
                < spec_match_start(ms[0])
        }),
    decreases s.len() + 1 - next,
{
    lemma_iter_step(fast, ast, cap_count, s, next, skip);
    let (o, n2, d2, k2) = spec_iter_step(fast, ast, cap_count, s, next, false, skip);
    let ms = spec_all_matches(fast, ast, cap_count, s, next, false, skip);
    if let Some(sl) = o {
        if d2 || (next < n2 <= s.len()) {
            let rest = spec_all_matches(fast, ast, cap_count, s, n2, d2, k2);
            if d2 {
                lemma_all_matches_done(fast, ast, cap_count, s, n2, k2);
            } else {
                law_matches_spaced(fast, ast, cap_count, s, n2, k2);
            }
            assert(ms == seq![sl] + rest);
            assert forall|i: int| 0 <= i < ms.len() - 1 implies {
                &&& spec_match_start(#[trigger] ms[i]) < spec_match_start(ms[i + 1])
                &&& spec_match_start(ms[i + 1]) == spec_match_end(ms[i + 1]) ==> spec_match_end(ms[i])
                    < spec_match_start(ms[i + 1])
            } by {
                assert(ms[i + 1] == rest[i]);
                if i > 0 {
                    assert(ms[i] == rest[i - 1]);
                }
            }
        }
    }
}

/// The first match that iterating from `next` yields is the one a single
/// search from `next` finds (what `find` and `captures` give, searching from
/// the start); when that search finds nothing, iterating yields nothing.
pub proof fn law_first_match_is_find(fast: Fast, ast: SAst, cap_count: nat, s: Seq<u8>, next: usize)
    requires
        groups_below(ast, cap_count + 1),
        good_pos(s, next as int, true),
    ensures
        ({
            let ms = spec_all_matches(fast, ast, cap_count, s, next, false, false);
            match spec_search(fast, ast, cap_count, s, next as int) {
                Some(sl) => ms.len() > 0 && ms[0] == sl,
                None => ms.len() == 0,
            }
        }),
{
    lemma_iter_step(fast, ast, cap_count, s, next, false);
    lemma_search_good(fast, ast, cap_count, s, next as int);
}

/// Counting the matches (`count` on the iterators) gives the number of
/// matches that iterating yields.
pub proof fn law_count_is_len(
    fast: Fast,
    ast: SAst,
    cap_count: nat,
    s: Seq<u8>,
    next: usize,
    done: bool,
    skip: bool,
)
    ensures
        spec_count(fast, ast, cap_count, s, next, done, skip) == spec_all_matches(
            fast,
            ast,
            cap_count,
            s,
            next,
            done,
            skip,
        ).len(),
    decreases (if done {
        0
    } else {
        s.len() + 1 - next
    }),
{
    let (o, n2, d2, k2) = spec_iter_step(fast, ast, cap_count, s, next, done, skip);
    if o is Some && (d2 || (next < n2 <= s.len())) {
        law_count_is_len(fast, ast, cap_count, s, n2, d2, k2);
    }
}

/// Iterating from `next` yields at most one match more than there are
/// bytes left: `find_iter` on a haystack yields at most one match more than
/// its length.
pub proof fn law_match_count_bound(fast: Fast, ast: SAst, cap_count: nat, s: Seq<u8>, next: usize, skip: bool)
    requires
        next <= s.len(),
    ensures
        spec_all_matches(fast, ast, cap_count, s, next, false, skip).len() <= s.len() + 1 - next,
{
    law_count_is_len(fast, ast, cap_count, s, next, false, skip);
    crate::regex::api::lemma_count_bound(fast, ast, cap_count, s, next, false, skip);
}

/// The text rebuilt from the parts that `split` yields before each of the
/// matches `ms` and the text of each match, up to the end of the last one.
pub open spec fn spec_rebuilt(hay: Seq<u8>, ms: Seq<SpecSlots>) -> Seq<u8>
    decreases ms.len(),
{
    if ms.len() == 0 {
        seq![]
    } else {
        spec_rebuilt(hay, ms.drop_last()) + hay.subrange(
            spec_after(ms.drop_last()),
            spec_match_start(ms.last()),
        ) + hay.subrange(spec_match_start(ms.last()), spec_match_end(ms.last()))
    }
}

pub(crate) proof fn lemma_rebuilt_prefix(hay: Seq<u8>, ms: Seq<SpecSlots>)
    requires
        spec_in_order(ms, 0, hay.len() as int),
    ensures
        0 <= spec_after(ms) <= hay.len(),
        spec_rebuilt(hay, ms) == hay.subrange(0, spec_after(ms)),
    decreases ms.len(),
{
    if ms.len() > 0 {
        let init = ms.drop_last();
        assert(spec_in_order(init, 0, hay.len() as int)) by {
            assert forall|k: int| 0 <= k < init.len() implies ((#[trigger] init[k])[0] matches Some(
                (a, b),
            ) && 0 <= a && a <= b && b <= hay.len()) by {
                assert(init[k] == ms[k]);
            }
            assert forall|i: int, j: int|
                0 <= i < j < init.len() implies spec_match_end(#[trigger] init[i])
                <= spec_match_start(#[trigger] init[j]) by {
                assert(init[i] == ms[i]);
                assert(init[j] == ms[j]);
            }
        }
        lemma_rebuilt_prefix(hay, init);
        let last = ms.last();
        assert(ms[ms.len() - 1] == last);
        if init.len() > 0 {
            assert(init.last() == ms[ms.len() - 2]);
            assert(spec_match_end(ms[ms.len() - 2]) <= spec_match_start(ms[ms.len() - 1]));
        }
        assert(spec_rebuilt(hay, ms) =~= hay.subrange(0, spec_after(ms)));
    }
}

/// Joining the parts that `split` yields with the text of the matches
/// between them gives back the whole haystack: each part runs from the end
/// of the previous match (or the start) to the start of the next match, and
/// the last part from the end of the last match to the end.
pub proof fn law_split_rebuilds(fast: Fast, ast: SAst, cap_count: nat, hay: Seq<u8>)
    requires
        groups_below(ast, cap_count + 1),
        valid_utf8(hay),
        hay.len() <= usize::MAX,
    ensures
        ({
            let ms = spec_all_matches(fast, ast, cap_count, hay, 0, false, false);
            spec_rebuilt(hay, ms) + hay.subrange(spec_after(ms), hay.len() as int) == hay
        }),
{
    let ms = spec_all_matches(fast, ast, cap_count, hay, 0, false, false);
    vstd::utf8::is_char_boundary_start_end_of_seq(hay);
    law_matches_in_order(fast, ast, cap_count, hay, 0, false);
    lemma_rebuilt_prefix(hay, ms);
    assert(hay.subrange(0, spec_after(ms)) + hay.subrange(spec_after(ms), hay.len() as int) =~= hay);
}

/// Where the search finds no match, `replace_all` gives back the haystack
/// unchanged: there is nothing to splice in, and the text after the (no)
/// matches is the whole haystack.
pub proof fn law_replace_all_without_match(
    fast: Fast,
    ast: SAst,
    cap_count: nat,
    hay: Seq<u8>,
    mids: Seq<Seq<char>>,
)
    requires
        groups_below(ast, cap_count + 1),
        valid_utf8(hay),
        hay.len() <= usize::MAX,
        spec_search(fast, ast, cap_count, hay, 0) is None,
    ensures
        ({
            let ms = spec_all_matches(fast, ast, cap_count, hay, 0, false, false);
            &&& ms.len() == 0
            &&& spec_spliced(hay, ms, mids) + decode_utf8(
                hay.subrange(spec_after(ms), hay.len() as int),
            ) == decode_utf8(hay)
        }),
{
    vstd::utf8::is_char_boundary_start_end_of_seq(hay);
    law_first_match_is_find(fast, ast, cap_count, hay, 0);
    let ms = spec_all_matches(fast, ast, cap_count, hay, 0, false, false);
    assert(hay.subrange(0, hay.len() as int) =~= hay);
    assert(spec_spliced(hay, ms, mids) + decode_utf8(hay) =~= decode_utf8(hay));
}

/// Group 0 of what `captures` gives is the match that `find` gives: given
/// the captures `c` and the match `m` of the same regex in the same
/// haystack, as their contracts describe them, `c` records `m`'s span as
/// its whole match.
pub proof fn law_captures_group0_is_find(re: Regex, hay: Seq<u8>, c: Captures, m: Match)
    requires
        re.spec_find(hay, 0) == Some(c.spec_slots()),
        re.spec_find(hay, 0) matches Some(sl) && sl[0] == Some((m.spec_start(), m.spec_end())),
    ensures
        c.spec_slots()[0] == Some((m.spec_start(), m.spec_end())),
{
}

/// A set matches a haystack exactly when one of the flags of its
/// `matches` is set: given the flags `m` that `matches` gives, as its
/// contract describes them, some flag is set exactly when some regex of the
/// set finds a match (what `is_match` tells).
pub proof fn law_set_is_match_any(set: RegexSet, hay: Seq<u8>, m: SetMatches)
    requires
        m.spec_matched().len() == set.spec_regexes().len(),
        forall|i: int|
            0 <= i < set.spec_regexes().len() ==> #[trigger] m.spec_matched()[i] == (
            set.spec_regexes()[i].spec_is_match(hay)),
    ensures
        (exists|i: int| 0 <= i < m.spec_matched().len() && #[trigger] m.spec_matched()[i]) == (
        exists|i: int|
            0 <= i < set.spec_regexes().len() && (#[trigger] set.spec_regexes()[i]).spec_is_match(hay)),
{
    if exists|i: int| 0 <= i < m.spec_matched().len() && #[trigger] m.spec_matched()[i] {
        let i = choose|i: int| 0 <= i < m.spec_matched().len() && #[trigger] m.spec_matched()[i];
        assert(set.spec_regexes()[i].spec_is_match(hay));
    }
    if exists|i: int|
        0 <= i < set.spec_regexes().len() && (#[trigger] set.spec_regexes()[i]).spec_is_match(hay) {
        let i = choose|i: int|
            0 <= i < set.spec_regexes().len() && (#[trigger] set.spec_regexes()[i]).spec_is_match(hay);
        assert(m.spec_matched()[i]);
    }
}

/// Taking a dedicated search changes nothing: on well-formed text, from any
/// boundary, a search with a dedicated search that stands for the tree
/// finds exactly what the search of the tree alone finds, groups included.
pub proof fn law_dedicated_search_agrees(fast: Fast, ast: SAst, cap_count: nat, s: Seq<u8>, q: int)
    requires
        valid_utf8(s),
        s.len() <= usize::MAX,
        good_pos(s, q, true),
        fast_fits(fast, ast, cap_count),
    ensures
        spec_search(fast, ast, cap_count, s, q) == spec_search(Fast::Engine, ast, cap_count, s, q),
{
    match fast {
        Fast::Engine => {},
        Fast::APlusB => law_a_plus_b_agrees(s, q),
        Fast::WordEqDigits => law_word_eq_digits_agrees(s, q),
    }
}

/// A regex matches a text (`is_match`) exactly when a search from the start
/// finds a match (`find`, `captures`), for a regex whose dedicated search,
/// if any, stands for its tree (as for every regex that `Regex::new` or a
/// builder gives).
pub proof fn law_is_match_is_find(re: Regex, s: Seq<u8>)
    requires
        valid_utf8(s),
        s.len() <= usize::MAX,
        fast_fits(re.spec_fast(), re.spec_ast(), re.spec_captures()),
    ensures
        re.spec_is_match(s) == (re.spec_find(s, 0) is Some),
{
    vstd::utf8::is_char_boundary_start_end_of_seq(s);
    if re.spec_fast() == Fast::APlusB {
        law_a_plus_b_agrees(s, 0);
        law_a_plus_b_has_iff_find(s, 0);
    } else if re.spec_fast() == Fast::WordEqDigits {
        law_word_eq_digits_agrees(s, 0);
        law_word_eq_digits_has_iff_find(s, 0);
    }
}

/// What `count` on the matches of a regex in a text gives, before any has
/// been taken, is the number of matches that iterating yields, for a regex
/// whose dedicated search, if any, stands for its tree (as for every regex
/// that `Regex::new` or a builder gives).
pub proof fn law_count_is_number_of_matches(re: Regex, s: Seq<u8>)
    requires
        valid_utf8(s),
        s.len() <= usize::MAX,
        fast_fits(re.spec_fast(), re.spec_ast(), re.spec_captures()),
    ensures
        (match spec_fast_count(re.spec_fast(), s, 0) {
            Some(c) => c as nat,
            None => spec_count(re.spec_fast(), re.spec_ast(), re.spec_captures(), s, 0, false, false),
        }) == spec_all_matches(re.spec_fast(), re.spec_ast(), re.spec_captures(), s, 0, false, false).len(),
{
    law_count_is_len(re.spec_fast(), re.spec_ast(), re.spec_captures(), s, 0, false, false);
    vstd::utf8::is_char_boundary_start_end_of_seq(s);
    if re.spec_fast() == Fast::APlusB {
        law_a_plus_b_count(s, 0, false);
        crate::regex::agree::lemma_count_ab_fits(s);
    } else if re.spec_fast() == Fast::WordEqDigits {
        law_word_eq_digits_count(s, 0, false);
        crate::regex::fast::lemma_count_wed_fits(s, 0);
    }
}
/// Compiling a set of patterns fails exactly when compiling one of them
/// alone fails (what `Regex::new` and a builder report), and then with the
/// error of the first pattern that fails: `RegexSet::new` and a set builder
/// report that error.
pub proof fn law_set_error_is_first_pattern_error(
    ps: Seq<Seq<char>>,
    options: Options,
    size_limit: Option<usize>,
)
    ensures
        spec_first_error(ps, options, size_limit) is None <==> (forall|i: int|
            0 <= i < ps.len() ==> #[trigger] spec_compile(ps[i], options, size_limit) is Ok),
        spec_first_error(ps, options, size_limit) matches Some(e) ==> exists|i: int|
            0 <= i < ps.len() && #[trigger] spec_compile(ps[i], options, size_limit) == Err::<
                (SAst, int, Seq<Option<Seq<char>>>),
                Seq<char>,
            >(e) && forall|j: int| 0 <= j < i ==> #[trigger] spec_compile(ps[j], options, size_limit) is Ok,
    decreases ps.len(),
{
    if ps.len() > 0 {
        let init = ps.drop_last();
        law_set_error_is_first_pattern_error(init, options, size_limit);
        assert forall|i: int| 0 <= i < init.len() implies init[i] == ps[i] by {}
        let last = ps.len() - 1;
        assert(ps[last] == ps.last());
        match spec_first_error(init, options, size_limit) {
            Some(e) => {
                let i = choose|i: int|
                    0 <= i < init.len() && #[trigger] spec_compile(init[i], options, size_limit) == Err::<
                        (SAst, int, Seq<Option<Seq<char>>>),
                        Seq<char>,
                    >(e) && forall|j: int| 0 <= j < i ==> #[trigger] spec_compile(init[j], options, size_limit) is Ok;
                assert(init[i] == ps[i]);
                assert forall|j: int| 0 <= j < i implies #[trigger] spec_compile(ps[j], options, size_limit) is Ok by {
                    assert(init[j] == ps[j]);
                }
            },
            None => {
                assert forall|j: int| 0 <= j < last implies #[trigger] spec_compile(ps[j], options, size_limit) is Ok by {
                    assert(init[j] == ps[j]);
                }
            },
        }
    }
}

/// The indexes that iterating over the matches of a set yields (from
/// `from`) are exactly those of the regexes that matched, each once, in
/// ascending order.
pub proof fn law_matching_indexes_exact(m: Seq<bool>, from: int)
    requires
        0 <= from,
        m.len() <= usize::MAX,
    ensures
        ({
            let r = matching_indexes(m, from);
            &&& forall|i: int, j: int| 0 <= i < j < r.len() ==> #[trigger] r[i] < #[trigger] r[j]
            &&& forall|i: int| 0 <= i < r.len() ==> from <= #[trigger] r[i] < m.len() && m[r[i] as int]
            &&& forall|k: int| from <= k < m.len() && #[trigger] m[k] ==> r.contains(k as usize)
        }),
    decreases m.len() - from,
{
    if from < m.len() {
        law_matching_indexes_exact(m, from + 1);
        let rest = matching_indexes(m, from + 1);
        let r = matching_indexes(m, from);
        if m[from] {
            assert(r == seq![from as usize] + rest);
            assert forall|i: int| 0 <= i < r.len() implies from <= #[trigger] r[i] < m.len() && m[r[i] as int] by {
                if i > 0 {
                    assert(r[i] == rest[i - 1]);
                }
            }
            assert forall|i: int, j: int| 0 <= i < j < r.len() implies #[trigger] r[i] < #[trigger] r[j] by {
                assert(r[j] == rest[j - 1]);
                if i > 0 {
                    assert(r[i] == rest[i - 1]);
                }
            }
            assert forall|k: int| from <= k < m.len() && #[trigger] m[k] implies r.contains(k as usize) by {
                if k == from {
                    assert(r[0] == k as usize);
                } else {
                    let i = choose|i: int| 0 <= i < rest.len() && rest[i] == k as usize;
                    assert(r[i + 1] == k as usize);
                }
            }
        } else {
            assert forall|k: int| from <= k < m.len() && #[trigger] m[k] implies r.contains(k as usize) by {
                assert(k != from);
            }
        }
    }
}

/// A search from a position `start` (a boundary, when searching text)
/// finds the first way to match at the least position from `start` on where
/// the tree matches at all: it finds nothing exactly when the tree matches
/// at no such position. What `find` and `captures` give is this search from
/// the start, where no dedicated search is taken.
pub proof fn law_find_is_leftmost(ast: SAst, s: Seq<u8>, cap_count: nat, start: int, text: bool)
    requires
        good_pos(s, start, text),
    ensures
        match spec_find_from(ast, s, cap_count, start, text) {
            Some(sl) => exists|q: int|
                start <= q && good_pos(s, q, text) && #[trigger] spec_attempt(ast, s, cap_count, q as usize)
                    == Some(sl) && forall|p: int|
                    start <= p < q && good_pos(s, p, text) ==> #[trigger] spec_attempt(
                        ast,
                        s,
                        cap_count,
                        p as usize,
                    ) is None,
            None => forall|p: int|
                start <= p && good_pos(s, p, text) ==> #[trigger] spec_attempt(ast, s, cap_count, p as usize) is None,
        },
    decreases s.len() + 1 - start,
{
    if spec_attempt(ast, s, cap_count, start as usize) is Some {
        assert(spec_attempt(ast, s, cap_count, start as usize) == spec_find_from(ast, s, cap_count, start, text));
    } else if start == s.len() {
        assert(spec_find_from(ast, s, cap_count, start + 1, text) is None);
    } else {
        let n = spec_step(s, start, text);
        if text {
            lemma_char_at_boundary(s, start);
            lemma_next_char_good(s, start, true);
            assert forall|p: int| start < p < n implies !good_pos(s, p, text) by {
                lemma_no_boundary_inside(s, start, p);
            }
        }
        law_find_is_leftmost(ast, s, cap_count, n, text);
        match spec_find_from(ast, s, cap_count, n, text) {
            Some(sl) => {
                let q = choose|q: int|
                    n <= q && good_pos(s, q, text) && #[trigger] spec_attempt(ast, s, cap_count, q as usize)
                        == Some(sl) && forall|p: int|
                        n <= p < q && good_pos(s, p, text) ==> #[trigger] spec_attempt(
                            ast,
                            s,
                            cap_count,
                            p as usize,
                        ) is None;
                assert forall|p: int| start <= p < q && good_pos(s, p, text) implies #[trigger] spec_attempt(
                    ast,
                    s,
                    cap_count,
                    p as usize,
                ) is None by {
                    if start < p < n {
                        assert(!good_pos(s, p, text));
                    }
                }
            },
            None => {
                assert forall|p: int| start <= p && good_pos(s, p, text) implies #[trigger] spec_attempt(
                    ast,
                    s,
                    cap_count,
                    p as usize,
                ) is None by {
                    if start < p < n {
                        assert(!good_pos(s, p, text));
                    }
                }
            },
        }
    }
}

/// The first way to match at `q` records each group within the whole
/// match, which starts at `q`.
proof fn lemma_attempt_within(ast: SAst, s: Seq<u8>, cap_count: nat, q: usize)
    requires
        q <= s.len() <= usize::MAX,
        groups_below(ast, cap_count + 1),
    ensures
        spec_attempt(ast, s, cap_count, q) matches Some(sl) ==> sl[0] matches Some((a, e)) && spans_within(
            sl,
            a as int,
            e as int,
        ),
{
    let init = spec_init_slots(cap_count, q);
    assert(spans_within(init, q as int, q as int));
    assert(good_slots(s, init, cap_count + 1, false));
    lemma_matches_within(ast, s, q, init, q as int);
    lemma_matches_good(ast, s, q, init, cap_count + 1, false);
    let r = spec_matches(ast, s, q, init);
    if r.len() > 0 {
        let e = r[0].0;
        let sl = r[0].1.update(0, Some((q, e)));
        assert(spans_within(r[0].1, q as int, e as int));
        assert(good_slots(s, r[0].1, cap_count + 1, false));
        assert forall|i: int| 0 <= i < sl.len() implies (#[trigger] sl[i] matches Some((a, b)) ==> q <= a
            && a <= b && b <= e) by {
            if i != 0 {
                assert(sl[i] == r[0].1[i]);
            }
        }
    }
}

/// Every group of the match that a search of the tree finds lies within
/// the whole match (group 0).
pub proof fn law_find_groups_within_match(ast: SAst, s: Seq<u8>, cap_count: nat, start: int, text: bool)
    requires
        good_pos(s, start, text),
        groups_below(ast, cap_count + 1),
    ensures
        spec_find_from(ast, s, cap_count, start, text) matches Some(sl) ==> sl[0] matches Some((a, e))
            && spans_within(sl, a as int, e as int),
{
    law_find_is_leftmost(ast, s, cap_count, start, text);
    if let Some(sl) = spec_find_from(ast, s, cap_count, start, text) {
        let q = choose|q: int|
            start <= q && good_pos(s, q, text) && #[trigger] spec_attempt(ast, s, cap_count, q as usize)
                == Some(sl) && forall|p: int|
                start <= p < q && good_pos(s, p, text) ==> #[trigger] spec_attempt(
                    ast,
                    s,
                    cap_count,
                    p as usize,
                ) is None;
        lemma_attempt_within(ast, s, cap_count, q as usize);
    }
}

/// Every group that a search of a regex reports (what `captures` gives,
/// and each item of `captures_iter`) lies within the whole match, group 0:
/// for a regex whose dedicated search, if any, stands for its tree.
pub proof fn law_groups_within_match(fast: Fast, ast: SAst, cap_count: nat, s: Seq<u8>, start: int)
    requires
        valid_utf8(s),
        s.len() <= usize::MAX,
        good_pos(s, start, true),
        groups_below(ast, cap_count + 1),
        fast_fits(fast, ast, cap_count),
    ensures
        spec_search(fast, ast, cap_count, s, start) matches Some(sl) ==> sl[0] matches Some((a, e))
            && spans_within(sl, a as int, e as int),
{
    law_dedicated_search_agrees(fast, ast, cap_count, s, start);
    law_find_groups_within_match(ast, s, cap_count, start, true);
}

/// The parts that `split` yields line up with the matches: there is one
/// more part than matches; the first runs from where splitting stands
/// (the start, for a new split) to the first match, each following one from
/// the end of a match to the start of the next, and the last from the end
/// of the last match to the end of the haystack.
pub proof fn law_split_parts(hay: Seq<u8>, ms: Seq<SpecSlots>, last: int)
    ensures
        ({
            let parts = spec_split_parts(hay, ms, last);
            &&& parts.len() == ms.len() + 1
            &&& parts[0] == hay.subrange(
                last,
                if ms.len() == 0 {
                    hay.len() as int
                } else {
                    spec_match_start(ms[0])
                },
            )
            &&& forall|i: int|
                0 < i < ms.len() ==> #[trigger] parts[i] == hay.subrange(
                    spec_match_end(ms[i - 1]),
                    spec_match_start(ms[i]),
                )
            &&& ms.len() > 0 ==> parts[ms.len() as int] == hay.subrange(
                spec_match_end(ms.last()),
                hay.len() as int,
            )
        }),
    decreases ms.len(),
{
    if ms.len() > 0 {
        let rest = ms.drop_first();
        law_split_parts(hay, rest, spec_match_end(ms[0]));
        let parts = spec_split_parts(hay, ms, last);
        let tail = spec_split_parts(hay, rest, spec_match_end(ms[0]));
        assert(parts == seq![hay.subrange(last, spec_match_start(ms[0]))] + tail);
        assert forall|i: int| 0 < i < ms.len() implies #[trigger] parts[i] == hay.subrange(
            spec_match_end(ms[i - 1]),
            spec_match_start(ms[i]),
        ) by {
            assert(parts[i] == tail[i - 1]);
            assert(ms[i] == rest[i - 1]);
            if i > 1 {
                assert(ms[i - 1] == rest[i - 2]);
            }
        }
        assert(parts[ms.len() as int] == tail[rest.len() as int]);
        if rest.len() > 0 {
            assert(rest.last() == ms.last());
        }
    }
}

/// A regex compiled by `Regex::new` from `a+b` or `(\w+)=(\d+)` takes the
/// dedicated search of its pattern: the patterns parse into the trees those
/// searches stand for, so the test of the tree made when compiling always
/// passes.
pub proof fn law_dedicated_search_taken(
    pattern: Seq<char>,
    ast: SAst,
    cap_count: nat,
    names: Seq<Option<Seq<char>>>,
)
    requires
        spec_compile(pattern, default_options(), None) == Ok::<
            (SAst, int, Seq<Option<Seq<char>>>),
            Seq<char>,
        >((ast, cap_count as int, names)),
    ensures
        spec_fast_for(pattern, ast, cap_count) == spec_classify(pattern),
{
    if pattern == a_plus_b_pattern() {
        law_a_plus_b_parses();
    } else if pattern == word_eq_digits_pattern() {
        law_word_eq_digits_parses();
    }
}

/// Which repetitions are greedy (what `swap_greed` and `(?U)` change)
/// decides only which match is preferred, never whether there is one: a
/// search for a tree finds a match exactly when a search for the same tree
/// with other greed does.
pub proof fn law_greed_keeps_matching(a: SAst, b: SAst, s: Seq<u8>, cap_count: nat, start: int, text: bool)
    requires
        same_but_greed(a, b),
    ensures
        spec_find_from(a, s, cap_count, start, text) is Some <==> spec_find_from(b, s, cap_count, start, text) is Some,
{
    lemma_greed_find(a, b, s, cap_count, start, text);
    lemma_same_but_greed_symmetric(a, b);
    lemma_greed_find(b, a, s, cap_count, start, text);
}

/// Two regexes whose trees differ only in greed match the same texts
/// (`is_match`), whatever dedicated searches they take.
pub proof fn law_greed_keeps_is_match(re1: Regex, re2: Regex, s: Seq<u8>)
    requires
        valid_utf8(s),
        s.len() <= usize::MAX,
        same_but_greed(re1.spec_ast(), re2.spec_ast()),
        re1.spec_captures() == re2.spec_captures(),
        fast_fits(re1.spec_fast(), re1.spec_ast(), re1.spec_captures()),
        fast_fits(re2.spec_fast(), re2.spec_ast(), re2.spec_captures()),
    ensures
        re1.spec_is_match(s) == re2.spec_is_match(s),
{
    vstd::utf8::is_char_boundary_start_end_of_seq(s);
    law_is_match_is_find(re1, s);
    law_is_match_is_find(re2, s);
    law_dedicated_search_agrees(re1.spec_fast(), re1.spec_ast(), re1.spec_captures(), s, 0);
    law_dedicated_search_agrees(re2.spec_fast(), re2.spec_ast(), re2.spec_captures(), s, 0);
    law_greed_keeps_matching(re1.spec_ast(), re2.spec_ast(), s, re1.spec_captures(), 0, true);
}

/// Compiling a pattern with greed swapped (`swap_greed`) compiles it as
/// without, but for which repetitions are greedy: the same error, or trees
/// the same but for greed, with the same groups and names.
pub proof fn law_swap_greed_compiles(p: Seq<char>, o1: Options, o2: Options, size_limit: Option<usize>)
    requires
        o2 == (Options { swap_greed: o2.swap_greed, ..o1 }),
    ensures
        match spec_compile(p, o1, size_limit) {
            Ok((a, n, names)) => spec_compile(p, o2, size_limit) matches Ok((b, n2, names2))
                && same_but_greed(a, b) && n == n2 && names == names2,
            Err(m) => spec_compile(p, o2, size_limit) == Err::<
                (SAst, int, Seq<Option<Seq<char>>>),
                Seq<char>,
            >(m),
        },
{
    assert(options_cfg(p, o1) == options_cfg(p, o2));
    lemma_parse_swap(options_cfg(p, o1), options_flags(o1), options_flags(o2));
    if let Ok((a, n, names)) = sp_parse(options_cfg(p, o1), options_flags(o1)) {
        if let Ok((b, n2, names2)) = sp_parse(options_cfg(p, o2), options_flags(o2)) {
            lemma_greed_node_count(a, b);
        }
    }
}

/// Two regexes compiled from one pattern, with greed swapped or not,
/// match the same texts (`is_match`): greed decides which match is
/// preferred, never whether there is one.
pub proof fn law_swap_greed_keeps_is_match(
    re1: Regex,
    re2: Regex,
    p: Seq<char>,
    o1: Options,
    o2: Options,
    size_limit: Option<usize>,
    s: Seq<u8>,
)
    requires
        valid_utf8(s),
        s.len() <= usize::MAX,
        o2 == (Options { swap_greed: o2.swap_greed, ..o1 }),
        spec_compile(p, o1, size_limit) == Ok::<(SAst, int, Seq<Option<Seq<char>>>), Seq<char>>(
            (re1.spec_ast(), re1.spec_captures() as int, re1.spec_names()),
        ),
        spec_compile(p, o2, size_limit) == Ok::<(SAst, int, Seq<Option<Seq<char>>>), Seq<char>>(
            (re2.spec_ast(), re2.spec_captures() as int, re2.spec_names()),
        ),
        fast_fits(re1.spec_fast(), re1.spec_ast(), re1.spec_captures()),
        fast_fits(re2.spec_fast(), re2.spec_ast(), re2.spec_captures()),
    ensures
        re1.spec_is_match(s) == re2.spec_is_match(s),
{
    law_swap_greed_compiles(p, o1, o2, size_limit);
    law_greed_keeps_is_match(re1, re2, s);
}

/// Two sets built from the same patterns, with greed swapped or not (as
/// `RegexSetBuilder::swap_greed` and `build` give them), report the same
/// patterns as matching any text (`matches`, `is_match`).
pub proof fn law_swap_greed_keeps_set_matches(
    set1: RegexSet,
    set2: RegexSet,
    ps: Seq<Seq<char>>,
    o1: Options,
    o2: Options,
    size_limit: Option<usize>,
    s: Seq<u8>,
)
    requires
        valid_utf8(s),
        s.len() <= usize::MAX,
        o2 == (Options { swap_greed: o2.swap_greed, ..o1 }),
        set1.spec_regexes().len() == ps.len(),
        set2.spec_regexes().len() == ps.len(),
        forall|i: int| 0 <= i < ps.len() ==> compiled_from(#[trigger] set1.spec_regexes()[i], ps[i], o1, size_limit),
        forall|i: int| 0 <= i < ps.len() ==> compiled_from(#[trigger] set2.spec_regexes()[i], ps[i], o2, size_limit),
        fast_paths_of(set1.spec_regexes(), ps, false),
        fast_paths_of(set2.spec_regexes(), ps, false),
    ensures
        forall|i: int|
            0 <= i < ps.len() ==> (#[trigger] set1.spec_regexes()[i]).spec_is_match(s) == set2.spec_regexes()[i].spec_is_match(s),
{
    assert forall|i: int| 0 <= i < ps.len() implies (#[trigger] set1.spec_regexes()[i]).spec_is_match(s)
        == set2.spec_regexes()[i].spec_is_match(s) by {
        let r1 = set1.spec_regexes()[i];
        let r2 = set2.spec_regexes()[i];
        assert(compiled_from(r1, ps[i], o1, size_limit));
        assert(compiled_from(r2, ps[i], o2, size_limit));
        assert(r1.spec_fast() == Fast::Engine);
        assert(r2.spec_fast() == Fast::Engine);
        law_swap_greed_keeps_is_match(r1, r2, ps[i], o1, o2, size_limit, s);
    }
}

/// Compiling a pattern case-insensitively (`case_insensitive(true)`) is
/// compiling it with `(?i)` in front: where the pattern compiles so, `(?i)`
/// followed by it compiles too (with no size limit), with the same groups
/// and names, and every search finds the same match, groups included. (In
/// whitespace-insensitive mode, whether `(` counts as white space is a
/// Unicode property the library only names, so that mode is left out.)
pub proof fn law_case_insensitive_is_prefix(p: Seq<char>, o: Options, s: Seq<u8>, start: int, text: bool)
    requires
        !o.ignore_whitespace,
    ensures
        spec_compile(p, Options { case_insensitive: true, ..o }, None) matches Ok((a, n, names)) ==> {
            &&& spec_compile(case_insensitive_prefix() + p, o, None) matches Ok((b, n2, names2))
            &&& n == n2 && names == names2
            &&& spec_find_from(b, s, n as nat, start, text) == spec_find_from(a, s, n as nat, start, text)
        },
{
    let o1 = Options { case_insensitive: true, ..o };
    let c1 = options_cfg(p, o1);
    let c2 = options_cfg(case_insensitive_prefix() + p, o);
    lemma_parse_ci_prefix(c1, c2, options_flags(o1), options_flags(o));
    if let Ok((a, n, names)) = sp_parse(c1, options_flags(o1)) {
        let b = sp_parse(c2, options_flags(o))->Ok_0.0;
        lemma_alt_led_find(b, a, s, n as nat, start, text);
    }
}

/// A regex compiled case-insensitively and one compiled from the pattern
/// with `(?i)` in front match the same texts (`is_match`).
pub proof fn law_case_insensitive_keeps_is_match(re1: Regex, re2: Regex, p: Seq<char>, o: Options, s: Seq<u8>)
    requires
        valid_utf8(s),
        s.len() <= usize::MAX,
        !o.ignore_whitespace,
        spec_compile(p, Options { case_insensitive: true, ..o }, None) == Ok::<
            (SAst, int, Seq<Option<Seq<char>>>),
            Seq<char>,
        >((re1.spec_ast(), re1.spec_captures() as int, re1.spec_names())),
        spec_compile(case_insensitive_prefix() + p, o, None) == Ok::<
            (SAst, int, Seq<Option<Seq<char>>>),
            Seq<char>,
        >((re2.spec_ast(), re2.spec_captures() as int, re2.spec_names())),
        fast_fits(re1.spec_fast(), re1.spec_ast(), re1.spec_captures()),
        fast_fits(re2.spec_fast(), re2.spec_ast(), re2.spec_captures()),
    ensures
        re1.spec_is_match(s) == re2.spec_is_match(s),
{
    vstd::utf8::is_char_boundary_start_end_of_seq(s);
    law_case_insensitive_is_prefix(p, o, s, 0, true);
    law_is_match_is_find(re1, s);
    law_is_match_is_find(re2, s);
    law_dedicated_search_agrees(re1.spec_fast(), re1.spec_ast(), re1.spec_captures(), s, 0);
    law_dedicated_search_agrees(re2.spec_fast(), re2.spec_ast(), re2.spec_captures(), s, 0);
}

/// A set built case-insensitively (`RegexSetBuilder::case_insensitive` and
/// `build`) and a set of the same patterns each with `(?i)` in front
/// (`RegexSet::new`) report the same patterns as matching any text.
pub proof fn law_case_insensitive_set_matches(
    set1: RegexSet,
    set2: RegexSet,
    ps: Seq<Seq<char>>,
    qs: Seq<Seq<char>>,
    o: Options,
    s: Seq<u8>,
)
    requires
        valid_utf8(s),
        s.len() <= usize::MAX,
        !o.ignore_whitespace,
        qs.len() == ps.len(),
        forall|i: int| 0 <= i < ps.len() ==> #[trigger] qs[i] == case_insensitive_prefix() + ps[i],
        set1.spec_regexes().len() == ps.len(),
        set2.spec_regexes().len() == ps.len(),
        forall|i: int|
            0 <= i < ps.len() ==> compiled_from(
                #[trigger] set1.spec_regexes()[i],
                ps[i],
                Options { case_insensitive: true, ..o },
                None,
            ),
        forall|i: int| 0 <= i < ps.len() ==> compiled_from(#[trigger] set2.spec_regexes()[i], qs[i], o, None),
        fast_paths_of(set1.spec_regexes(), ps, false),
        fast_paths_of(set2.spec_regexes(), qs, true),
    ensures
        forall|i: int|
            0 <= i < ps.len() ==> (#[trigger] set1.spec_regexes()[i]).spec_is_match(s) == set2.spec_regexes()[i].spec_is_match(s),
{
    assert forall|i: int| 0 <= i < ps.len() implies (#[trigger] set1.spec_regexes()[i]).spec_is_match(s)
        == set2.spec_regexes()[i].spec_is_match(s) by {
        let r1 = set1.spec_regexes()[i];
        let r2 = set2.spec_regexes()[i];
        assert(compiled_from(r1, ps[i], Options { case_insensitive: true, ..o }, None));
        assert(compiled_from(r2, qs[i], o, None));
        assert(qs[i] == case_insensitive_prefix() + ps[i]);
        assert(r1.spec_fast() == Fast::Engine);
        assert(r2.spec_fast() == spec_fast_for(qs[i], r2.spec_ast(), r2.spec_captures()));
        law_case_insensitive_keeps_is_match(r1, r2, ps[i], o, s);
    }
}

} // verus!
