use vstd::prelude::*;
use crate::ast::SAst;
use crate::bytes::api::{
    lemma_iter_step, spec_all_matches, spec_count, spec_iter_step, spec_spliced, Captures, Match,
    Regex,
};
use crate::matcher::{groups_below, spec_find_from};
use crate::regex::api::spec_after;
use crate::regex::laws::{lemma_rebuilt_prefix, spec_in_order, spec_rebuilt, spec_spaced};
use crate::regex::api::{spec_match_end, spec_match_start};
use crate::regexset::bytes::{RegexSet, SetMatches};
use crate::text::good_pos;

verus! {

// What holds of the byte-oriented operations taken together.

/// Iterating from a finished state yields nothing.
proof fn lemma_all_matches_done(ast: SAst, cap_count: nat, s: Seq<u8>, next: usize, skip: bool)
    ensures
        spec_all_matches(ast, cap_count, s, next, true, skip).len() == 0,
{
}

/// The matches that iterating over a haystack yields lie within it, start
/// no earlier than the iteration did, and come in order without
/// overlapping: each ends no later than the next one starts.
pub proof fn law_matches_in_order(ast: SAst, cap_count: nat, s: Seq<u8>, next: usize, skip: bool)
    requires
        groups_below(ast, cap_count + 1),
        good_pos(s, next as int, false),
    ensures
        spec_in_order(spec_all_matches(ast, cap_count, s, next, false, skip), next as int, s.len() as int),
    decreases s.len() + 1 - next,
{
    lemma_iter_step(ast, cap_count, s, next, skip);
    let (o, n2, d2, k2) = spec_iter_step(ast, cap_count, s, next, false, skip);
    let ms = spec_all_matches(ast, cap_count, s, next, false, skip);
    match o {
        None => {
            assert(ms.len() == 0);
        },
        Some(sl) => {
            if d2 || (next < n2 <= s.len()) {
                let rest = spec_all_matches(ast, cap_count, s, n2, d2, k2);
                if d2 {
                    lemma_all_matches_done(ast, cap_count, s, n2, k2);
                } else {
                    law_matches_in_order(ast, cap_count, s, n2, k2);
                }
                assert(ms == seq![sl] + rest);
                assert forall|k: int| 0 <= k < ms.len() implies ((#[trigger] ms[k])[0] matches Some(
                    (a, b),
                ) && next <= a && a <= b && b <= s.len()) by {
                    if k > 0 {
                        assert(ms[k] == rest[k - 1]);
                    }
                }
                assert forall|i: int, j: int|
                    0 <= i < j < ms.len() implies crate::regex::api::spec_match_end(#[trigger] ms[i])
                    <= crate::regex::api::spec_match_start(#[trigger] ms[j]) by {
                    assert(ms[j] == rest[j - 1]);
                    if i > 0 {
                        assert(ms[i] == rest[i - 1]);
                    }
                }
            } else {
                assert(ms.len() == 0);
            }
        },
    }
}

/// Iterating never yields a match twice at one place: each match starts
/// after the one before it started, and an empty match right where a
/// non-empty one ended is passed over (as is one at the start, where the
/// iteration goes on from such a match).
pub proof fn law_matches_spaced(ast: SAst, cap_count: nat, s: Seq<u8>, next: usize, skip: bool)
    requires
        groups_below(ast, cap_count + 1),
        good_pos(s, next as int, false),
    ensures
        ({
            let ms = spec_all_matches(ast, cap_count, s, next, false, skip);
            &&& spec_spaced(ms)
            &&& ms.len() > 0 ==> next <= spec_match_start(ms[0])
            &&& skip && ms.len() > 0 && spec_match_start(ms[0]) == spec_match_end(ms[0]) ==> next
                < spec_match_start(ms[0])
        }),
    decreases s.len() + 1 - next,
{
    lemma_iter_step(ast, cap_count, s, next, skip);
    let (o, n2, d2, k2) = spec_iter_step(ast, cap_count, s, next, false, skip);
    let ms = spec_all_matches(ast, cap_count, s, next, false, skip);
    if let Some(sl) = o {
        if d2 || (next < n2 <= s.len()) {
            let rest = spec_all_matches(ast, cap_count, s, n2, d2, k2);
            if d2 {
                lemma_all_matches_done(ast, cap_count, s, n2, k2);
            } else {
                law_matches_spaced(ast, cap_count, s, n2, k2);
            }
            assert(ms == seq![sl] + rest);
            assert forall|i: int| 0 <= i < ms.len() - 1 implies {
                &&& spec_match_start(#[trigger] ms[i]) < spec_match_start(ms[i + 1])
                &&& spec_match_start(ms[i + 1]) == spec_match_end(ms[i + 1]) ==> spec_match_end(ms[i])
                    < spec_match_start(ms[i + 1])
            } by {
                assert(ms[i + 1] == rest[i]);
                if i > 0 {
                    assert(ms[i] == rest[i - 1]);
                }
            }
        }
    }
}

/// The first match that iterating from `next` yields is the one a single
/// search from `next` finds; when that search finds nothing, iterating
/// yields nothing.
pub proof fn law_first_match_is_find(ast: SAst, cap_count: nat, s: Seq<u8>, next: usize)
    requires
        groups_below(ast, cap_count + 1),
        good_pos(s, next as int, false),
    ensures
        ({
            let ms = spec_all_matches(ast, cap_count, s, next, false, false);
            match spec_find_from(ast, s, cap_count, next as int, false) {
                Some(sl) => ms.len() > 0 && ms[0] == sl,
                None => ms.len() == 0,
            }
        }),
{
    lemma_iter_step(ast, cap_count, s, next, false);
    crate::matcher::lemma_find_from_good(ast, s, cap_count, next as int, false);
}

/// Counting the matches gives the number of matches that iterating yields.
pub proof fn law_count_is_len(ast: SAst, cap_count: nat, s: Seq<u8>, next: usize, done: bool, skip: bool)
    ensures
        spec_count(ast, cap_count, s, next, done, skip) == spec_all_matches(
            ast,
            cap_count,
            s,
            next,
            done,
            skip,
        ).len(),
    decreases (if done {
        0
    } else {
        s.len() + 1 - next
    }),
{
    let (o, n2, d2, k2) = spec_iter_step(ast, cap_count, s, next, done, skip);
    if o is Some && (d2 || (next < n2 <= s.len())) {
        law_count_is_len(ast, cap_count, s, n2, d2, k2);
    }
}

/// Joining the parts that `split` yields with the bytes of the matches
/// between them gives back the whole haystack.
pub proof fn law_split_rebuilds(ast: SAst, cap_count: nat, hay: Seq<u8>)
    requires
        groups_below(ast, cap_count + 1),
        hay.len() <= usize::MAX,
    ensures
        ({
            let ms = spec_all_matches(ast, cap_count, hay, 0, false, false);
            spec_rebuilt(hay, ms) + hay.subrange(spec_after(ms), hay.len() as int) == hay
        }),
{
    let ms = spec_all_matches(ast, cap_count, hay, 0, false, false);
    law_matches_in_order(ast, cap_count, hay, 0, false);
    lemma_rebuilt_prefix(hay, ms);
    assert(hay.subrange(0, spec_after(ms)) + hay.subrange(spec_after(ms), hay.len() as int) =~= hay);
}

/// Where the search finds no match, `replace_all` gives back the haystack
/// unchanged.
pub proof fn law_replace_all_without_match(
    ast: SAst,
    cap_count: nat,
    hay: Seq<u8>,
    mids: Seq<Seq<u8>>,
)
    requires
        groups_below(ast, cap_count + 1),
        hay.len() <= usize::MAX,
        spec_find_from(ast, hay, cap_count, 0, false) is None,
    ensures
        ({
            let ms = spec_all_matches(ast, cap_count, hay, 0, false, false);
            &&& ms.len() == 0
            &&& spec_spliced(hay, ms, mids) + hay.subrange(spec_after(ms), hay.len() as int) == hay
        }),
{
    law_first_match_is_find(ast, cap_count, hay, 0);
    let ms = spec_all_matches(ast, cap_count, hay, 0, false, false);
    assert(hay.subrange(0, hay.len() as int) =~= hay);
    assert(spec_spliced(hay, ms, mids) + hay =~= hay);
}

/// Group 0 of what `captures` gives is the match that `find` gives.
pub proof fn law_captures_group0_is_find(re: Regex, hay: Seq<u8>, c: Captures, m: Match)
    requires
        re.spec_find(hay, 0) == Some(c.spec_slots()),
        re.spec_find(hay, 0) matches Some(sl) && sl[0] == Some((m.spec_start(), m.spec_end())),
    ensures
        c.spec_slots()[0] == Some((m.spec_start(), m.spec_end())),
{
}

/// Some flag of a set's `matches` is set exactly when some regex of the
/// set finds a match.
pub proof fn law_set_is_match_any(set: RegexSet, hay: Seq<u8>, m: SetMatches)
    requires
        m.spec_matched().len() == set.spec_regexes().len(),
        forall|i: int|
            0 <= i < set.spec_regexes().len() ==> #[trigger] m.spec_matched()[i] == (
            set.spec_regexes()[i].spec_find(hay, 0) is Some),
    ensures
        (exists|i: int| 0 <= i < m.spec_matched().len() && #[trigger] m.spec_matched()[i]) == (
        exists|i: int|
            0 <= i < set.spec_regexes().len() && (#[trigger] set.spec_regexes()[i]).spec_find(
                hay,
                0,
            ) is Some),
{
    if exists|i: int| 0 <= i < m.spec_matched().len() && #[trigger] m.spec_matched()[i] {
        let i = choose|i: int| 0 <= i < m.spec_matched().len() && #[trigger] m.spec_matched()[i];
        assert(set.spec_regexes()[i].spec_find(hay, 0) is Some);
    }
    if exists|i: int|
        0 <= i < set.spec_regexes().len() && (#[trigger] set.spec_regexes()[i]).spec_find(
            hay,
            0,
        ) is Some {
        let i = choose|i: int|
            0 <= i < set.spec_regexes().len() && (#[trigger] set.spec_regexes()[i]).spec_find(
                hay,
                0,
            ) is Some;
        assert(m.spec_matched()[i]);
    }
}

} // verus!
