use vstd::prelude::*;
use vstd::utf8::valid_utf8;
use crate::ast::{
    asts_view, lemma_asts_view, spec_all_classes_match, spec_class_matches, spec_item_matches,
    spec_items_hit, Ast, SAst, SClass, SItem,
};
use crate::matcher::{
    spec_attempt, spec_concat, spec_concat_each, spec_find_from, spec_init_slots, spec_matches,
    spec_repeat_each, spec_repeat_inner, spec_step, SpecRes, SpecSlots,
};
use crate::regex::arch::generic::{
    spec_ab_at, spec_class_byte, spec_count_a_plus_b, spec_find_a_plus_b, spec_skip, ByteClass,
    lemma_skip, spec_eq_hit, spec_find_word_eq_digits, word_eq_digits_slots, spec_has_a_plus_b, spec_next_byte, spec_skip_byte,
};
use crate::regex::fast::{
    lemma_a_plus_b_shape, lemma_next_byte_shape, lemma_skip_byte_shape, lemma_word_eq_digits_shape,
    spec_count_wed_matches, Fast,
};
use crate::regex::api::{
    default_options, spec_compile, spec_count, spec_iter_step, spec_search, spec_search_next,
};
use crate::grammar::{
    initial_state, one_item_class, sp_alt, sp_alt_loop, sp_atom, sp_concat_loop, sp_eat,
    sp_enter_group, sp_escape, sp_group_body, sp_leave_group, sp_next_capture, sp_quantified,
    sp_repeat, sp_repeat_loop, with_pos, PCfg, PState,
};
use crate::parser::{options_cfg, options_flags};
use crate::regex::fast::{a_plus_b_pattern, word_eq_digits_pattern};
use crate::regex::fast::whole_match_slots;
use crate::regex::fast::spec_fast_find;
use crate::text::{
    good_pos, lemma_ascii_boundary, lemma_ascii_next_char, lemma_char_at_boundary, lemma_next_char_good,
    lemma_non_ascii_next_char, spec_next_char,
};

verus! {

// The dedicated search for `a+b` finds what a search of the tree of `a+b`
// finds.

/// The tree of the pattern `a+b`: one or more `a` (greedy), then `b`.
pub open spec fn a_plus_b_tree() -> SAst {
    SAst::Concat(
        seq![SAst::Repeat(Box::new(SAst::Literal('a')), 1, None, true), SAst::Literal('b')],
    )
}

/// The ASCII character `c` is at `q` exactly when its byte is, and it then
/// takes that one byte.
proof fn lemma_char_is(s: Seq<u8>, q: int, c: char)
    requires
        (c as u32) < 0x80,
    ensures
        (spec_next_char(s, q) matches Some((x, _)) && x == c) <==> (0 <= q < s.len() && s[q]
            == c as u8),
        (0 <= q < s.len() && s[q] == c as u8) ==> spec_next_char(s, q) == Some((c, q + 1)),
{
    if 0 <= q < s.len() {
        if s[q] < 0x80 {
            lemma_ascii_next_char(s, q);
            let b = s[q];
            assert(((b as u32) as char) as u32 == b as u32);
            assert((c as u8) as u32 == c as u32);
        } else if spec_next_char(s, q) is Some {
            lemma_non_ascii_next_char(s, q);
        }
    }
}

/// Repeating `a` from `q`, having matched it `c >= 1` times already, can
/// stop at each position from `q` to the end of the run of `a`s there,
/// nearest first.
proof fn lemma_a_run(s: Seq<u8>, q: usize, sl: SpecSlots, c: nat)
    requires
        q <= s.len() <= usize::MAX,
        c >= 1,
    ensures
        spec_repeat_inner(SAst::Literal('a'), s, q, sl, 1, None, c) == Seq::new(
            (spec_skip_byte(s, q as int, 97) - q + 1) as nat,
            |j: int| ((q + j) as usize, sl),
        ),
        q <= spec_skip_byte(s, q as int, 97) <= s.len(),
    decreases s.len() - q,
{
    let la = SAst::Literal('a');
    lemma_char_is(s, q as int, 'a');
    let e = spec_skip_byte(s, q as int, 97);
    let want = Seq::new((e - q + 1) as nat, |j: int| ((q + j) as usize, sl));
    if q < s.len() && s[q as int] == 97 {
        let q1 = (q + 1) as usize;
        lemma_a_run(s, q1, sl, c + 1);
        assert(spec_matches(la, s, q, sl) == seq![(q1, sl)]);
        let nexts = seq![(q1, sl)];
        assert(nexts.drop_first() =~= Seq::<(usize, SpecSlots)>::empty());
        assert(spec_repeat_each(la, s, q, nexts.drop_first(), 1, None, c) == Seq::<
            (usize, SpecSlots),
        >::empty());
        assert(spec_repeat_each(la, s, q, nexts, 1, None, c) == spec_repeat_inner(
            la,
            s,
            q1,
            sl,
            1,
            None,
            c + 1,
        ) + Seq::<(usize, SpecSlots)>::empty());
        assert(spec_repeat_inner(la, s, q, sl, 1, None, c) =~= want);
    } else {
        assert(spec_matches(la, s, q, sl) == Seq::<(usize, SpecSlots)>::empty());
        assert(spec_repeat_inner(la, s, q, sl, 1, None, c) =~= want);
    }
}

/// `b` matched from `e`, then nothing more.
proof fn lemma_then_b(s: Seq<u8>, e: usize, sl: SpecSlots)
    requires
        e <= s.len() <= usize::MAX,
    ensures
        spec_concat(seq![SAst::Literal('b')], s, e, sl) == (if e < s.len() && s[e as int] == 98 {
            seq![((e + 1) as usize, sl)]
        } else {
            Seq::<(usize, SpecSlots)>::empty()
        }),
{
    let lb = SAst::Literal('b');
    let nodes = seq![lb];
    lemma_char_is(s, e as int, 'b');
    assert(nodes.drop_first() =~= Seq::<SAst>::empty());
    assert(nodes[0] == lb);
    let firsts = spec_matches(lb, s, e, sl);
    if e < s.len() && s[e as int] == 98 {
        let e1 = (e + 1) as usize;
        assert(firsts == seq![(e1, sl)]);
        assert(firsts.drop_first() =~= Seq::<(usize, SpecSlots)>::empty());
        assert(spec_concat(Seq::<SAst>::empty(), s, e1, sl) == seq![(e1, sl)]);
        assert(spec_concat_each(firsts.drop_first(), nodes.drop_first(), s) == Seq::<
            (usize, SpecSlots),
        >::empty());
        assert(spec_concat_each(firsts, nodes.drop_first(), s) =~= seq![(e1, sl)]);
    } else {
        assert(firsts == Seq::<(usize, SpecSlots)>::empty());
    }
}

/// Where every way to end the run stops before an `a`, none is followed by
/// `b`.
proof fn lemma_none_then_b(firsts: SpecRes, s: Seq<u8>)
    requires
        s.len() <= usize::MAX,
        forall|k: int|
            0 <= k < firsts.len() ==> (#[trigger] firsts[k]).0 < s.len() && s[firsts[k].0 as int]
                == 97,
    ensures
        spec_concat_each(firsts, seq![SAst::Literal('b')], s) == Seq::<(usize, SpecSlots)>::empty(),
    decreases firsts.len(),
{
    if firsts.len() > 0 {
        let f = firsts[0];
        lemma_then_b(s, f.0, f.1);
        lemma_none_then_b(firsts.drop_first(), s);
    }
}

/// The condition for `a+b` to match at `p`: an `a` there, and a `b` right
/// after the run of `a`s it starts.
pub open spec fn spec_ab_from(s: Seq<u8>, p: int) -> bool {
    &&& 0 <= p < s.len()
    &&& s[p] == 97
    &&& spec_skip_byte(s, p + 1, 97) < s.len()
    &&& s[spec_skip_byte(s, p + 1, 97)] == 98
}

/// What trying the tree of `a+b` at `p` gives.
proof fn lemma_a_plus_b_attempt(s: Seq<u8>, p: usize)
    requires
        p <= s.len() <= usize::MAX,
    ensures
        spec_attempt(a_plus_b_tree(), s, 0, p) == (if spec_ab_from(s, p as int) {
            Some(seq![Some((p, (spec_skip_byte(s, p + 1, 97) + 1) as usize))])
        } else {
            None
        }),
{
    let la = SAst::Literal('a');
    let lb = SAst::Literal('b');
    let rep = SAst::Repeat(Box::new(la), 1, None, true);
    let nodes = seq![rep, lb];
    let init = spec_init_slots(0, p);
    assert(nodes.drop_first() =~= seq![lb]);
    assert(nodes[0] == rep);
    lemma_char_is(s, p as int, 'a');
    let inner = spec_repeat_inner(la, s, p, init, 1, None, 0);
    let r = spec_matches(a_plus_b_tree(), s, p, init);
    assert(a_plus_b_tree() == SAst::Concat(nodes));
    assert(r == spec_concat(nodes, s, p, init));
    assert(spec_concat(nodes, s, p, init) == spec_concat_each(
        spec_matches(nodes[0], s, p, init),
        nodes.drop_first(),
        s,
    ));
    assert(r == spec_concat_each(spec_matches(rep, s, p, init), seq![lb], s));
    assert(spec_matches(rep, s, p, init) == inner.reverse());
    if p < s.len() && s[p as int] == 97 {
        let p1 = (p + 1) as usize;
        lemma_a_run(s, p1, init, 1);
        let e = spec_skip_byte(s, p1 as int, 97);
        let nexts = seq![(p1, init)];
        assert(spec_matches(la, s, p, init) == nexts);
        assert(nexts.drop_first() =~= Seq::<(usize, SpecSlots)>::empty());
        assert(spec_repeat_each(la, s, p, nexts.drop_first(), 1, None, 0) == Seq::<
            (usize, SpecSlots),
        >::empty());
        let run = spec_repeat_inner(la, s, p1, init, 1, None, 1);
        assert(inner =~= run);
        let firsts = run.reverse();
        assert(firsts.len() > 0);
        assert(firsts[0] == (e as usize, init));
        let rest = firsts.drop_first();
        lemma_skip_byte_shape(s, p1 as int, 97);
        assert forall|k: int| 0 <= k < rest.len() implies (#[trigger] rest[k]).0 < s.len()
            && s[rest[k].0 as int] == 97 by {
            assert(rest[k] == firsts[k + 1]);
            assert(firsts[k + 1] == run[run.len() - 1 - (k + 1)]);
        }
        lemma_none_then_b(rest, s);
        lemma_then_b(s, e as usize, init);
        assert(r =~= spec_concat(seq![lb], s, e as usize, init) + Seq::<
            (usize, SpecSlots),
        >::empty());
        if spec_ab_from(s, p as int) {
            assert(r[0] == ((e + 1) as usize, init));
            assert(init.update(0, Some((p, (e + 1) as usize))) =~= seq![
                Some((p, (e + 1) as usize)),
            ]);
        } else {
            assert(r.len() == 0);
        }
    } else {
        assert(spec_matches(la, s, p, init) == Seq::<(usize, SpecSlots)>::empty());
        assert(inner =~= Seq::<(usize, SpecSlots)>::empty());
        assert(r =~= Seq::<(usize, SpecSlots)>::empty());
    }
}

/// Where the byte at `q` is not `a`, the dedicated search from `q` finds
/// what it finds from `q + 1`.
proof fn lemma_find_ab_not_a(s: Seq<u8>, q: int)
    requires
        0 <= q < s.len(),
        s[q] != 97,
    ensures
        spec_find_a_plus_b(s, q) == spec_find_a_plus_b(s, q + 1),
{
    lemma_next_byte_shape(s, q + 1, 97);
    assert(spec_next_byte(s, q, 97) == spec_next_byte(s, q + 1, 97));
    if let Some(st) = spec_next_byte(s, q + 1, 97) {
        lemma_skip_byte_shape(s, st + 1, 97);
    }
}

/// Over bytes that are not `a`, the dedicated search finds the same.
proof fn lemma_find_ab_skip(s: Seq<u8>, q: int, k: int)
    requires
        0 <= q <= k <= s.len(),
        forall|j: int| q <= j < k ==> s[j] != 97,
    ensures
        spec_find_a_plus_b(s, q) == spec_find_a_plus_b(s, k),
    decreases k - q,
{
    if q < k {
        lemma_find_ab_not_a(s, q);
        lemma_find_ab_skip(s, q + 1, k);
    }
}

/// The dedicated search from `q` finds the match that starts at `q`, if
/// there is one, and otherwise what it finds from `q + 1`.
proof fn lemma_find_ab_step(s: Seq<u8>, q: int)
    requires
        0 <= q < s.len(),
    ensures
        spec_find_a_plus_b(s, q) == (if spec_ab_from(s, q) {
            Some((q, spec_skip_byte(s, q + 1, 97) + 1))
        } else {
            spec_find_a_plus_b(s, q + 1)
        }),
{
    if s[q] != 97 {
        lemma_find_ab_not_a(s, q);
    } else {
        assert(spec_next_byte(s, q, 97) == Some(q));
        lemma_skip_byte_shape(s, q + 1, 97);
        let e = spec_skip_byte(s, q + 1, 97);
        if !spec_ab_from(s, q) {
            if q + 1 < e {
                assert(s[q + 1] == 97);
                assert(spec_next_byte(s, q + 1, 97) == Some(q + 1));
                assert(spec_skip_byte(s, q + 2, 97) == e);
            } else if e < s.len() {
                assert(s[e] != 97);
                lemma_find_ab_not_a(s, e);
            }
        }
    }
}

/// A search of the tree of `a+b` in well-formed text, from a boundary `q`,
/// finds exactly the match the dedicated search finds, recorded as the span
/// of the whole match.
pub proof fn law_a_plus_b_agrees(s: Seq<u8>, q: int)
    requires
        valid_utf8(s),
        s.len() <= usize::MAX,
        good_pos(s, q, true),
    ensures
        spec_find_from(a_plus_b_tree(), s, 0, q, true) == (match spec_find_a_plus_b(s, q) {
            Some((p, e)) => Some(seq![Some((p as usize, e as usize))]),
            None => None,
        }),
    decreases s.len() + 1 - q,
{
    lemma_a_plus_b_attempt(s, q as usize);
    if q == s.len() {
        assert(spec_step(s, q, true) == q + 1);
        assert(spec_find_from(a_plus_b_tree(), s, 0, q + 1, true) is None);
    } else {
        lemma_find_ab_step(s, q);
        if !spec_ab_from(s, q) {
            lemma_char_at_boundary(s, q);
            lemma_next_char_good(s, q, true);
            let e = spec_next_char(s, q).unwrap().1;
            assert(spec_step(s, q, true) == e);
            if s[q] < 0x80 {
                lemma_ascii_next_char(s, q);
                assert(e == q + 1);
            } else {
                lemma_non_ascii_next_char(s, q);
                lemma_find_ab_skip(s, q + 1, e);
            }
            law_a_plus_b_agrees(s, e);
        }
    }
}

/// Whether `ast` is the tree of `a+b`.
pub fn is_a_plus_b_tree(ast: &Ast) -> (r: bool)
    ensures
        r == (ast@ == a_plus_b_tree()),
{
    let ghost rep = SAst::Repeat(Box::new(SAst::Literal('a')), 1, None, true);
    let ghost want = seq![rep, SAst::Literal('b')];
    match ast {
        Ast::Concat(v) => {
            proof {
                lemma_asts_view(v@);
            }
            if v.len() != 2 {
                assert(asts_view(v@).len() != want.len());
                return false;
            }
            let first = repeat_of_a(&v[0]);
            let second = match &v[1] {
                Ast::Literal(c) => *c == 'b',
                _ => false,
            };
            proof {
                assert(asts_view(v@)[0] == v@[0]@);
                assert(asts_view(v@)[1] == v@[1]@);
                if first && second {
                    assert(asts_view(v@) =~= want);
                } else {
                    assert(asts_view(v@)[0] != want[0] || asts_view(v@)[1] != want[1]);
                }
            }
            first && second
        },
        _ => false,
    }
}

/// Whether `a` is one or more `a`, greedy.
fn repeat_of_a(a: &Ast) -> (r: bool)
    ensures
        r == (a@ == SAst::Repeat(Box::new(SAst::Literal('a')), 1, None, true)),
{
    match a {
        Ast::Repeat { node, min, max, greedy } => {
            let lit_a = match &**node {
                Ast::Literal(c) => *c == 'a',
                _ => false,
            };
            proof {
                if !lit_a {
                    assert(node@ != SAst::Literal('a'));
                }
            }
            *min == 1 && max.is_none() && *greedy && lit_a
        },
        _ => false,
    }
}

/// The dedicated search from `i` finds something exactly when a match of
/// `a+b` starts at some position from `i` on.
proof fn lemma_find_ab_some(s: Seq<u8>, i: int)
    requires
        0 <= i <= s.len(),
    ensures
        spec_find_a_plus_b(s, i) is Some <==> exists|p: int| i <= p < s.len() && #[trigger] spec_ab_from(s, p),
    decreases s.len() - i,
{
    if i < s.len() {
        lemma_find_ab_step(s, i);
        lemma_find_ab_some(s, i + 1);
        if exists|p: int| i <= p < s.len() && #[trigger] spec_ab_from(s, p) {
            let p = choose|p: int| i <= p < s.len() && #[trigger] spec_ab_from(s, p);
            if p > i {
                assert(i + 1 <= p < s.len() && spec_ab_from(s, p));
            }
        }
    }
}

/// Searching `a+b` from the start of a text, or from just after a byte that
/// is not `a`: a `b` with an `a` just before it is found exactly when the
/// dedicated search finds a match (what `is_match` and `find` of a regex
/// that uses it go by).
pub proof fn law_a_plus_b_has_iff_find(s: Seq<u8>, i: int)
    requires
        0 <= i <= s.len(),
        i == 0 || s[i - 1] != 97,
    ensures
        spec_has_a_plus_b(s, i) == spec_find_a_plus_b(s, i) is Some,
{
    lemma_find_ab_some(s, i);
    if spec_has_a_plus_b(s, i) {
        let k = choose|k: int| i <= k < s.len() && #[trigger] spec_ab_at(s, k);
        let p = k - 1;
        lemma_skip_byte_shape(s, p + 1, 97);
        assert(spec_skip_byte(s, p + 1, 97) == k);
        assert(spec_ab_from(s, p));
    }
    if spec_find_a_plus_b(s, i) is Some {
        let p = choose|p: int| i <= p < s.len() && #[trigger] spec_ab_from(s, p);
        let e = spec_skip_byte(s, p + 1, 97);
        lemma_skip_byte_shape(s, p + 1, 97);
        assert(s[e - 1] == 97);
        assert(spec_ab_at(s, e));
    }
}

/// The match the dedicated search finds from `i` is the leftmost one: no
/// match of `a+b` starts between `i` and it.
proof fn lemma_find_ab_leftmost(s: Seq<u8>, i: int)
    requires
        0 <= i <= s.len(),
    ensures
        spec_find_a_plus_b(s, i) matches Some((p, q)) ==> {
            &&& i <= p < s.len() && spec_ab_from(s, p)
            &&& q == spec_skip_byte(s, p + 1, 97) + 1
            &&& forall|p2: int| i <= p2 < p ==> !#[trigger] spec_ab_from(s, p2)
        },
    decreases s.len() - i,
{
    if i < s.len() {
        lemma_find_ab_step(s, i);
        lemma_find_ab_leftmost(s, i + 1);
    }
}

/// Positions where no match of `a+b` ends are not counted.
proof fn lemma_count_ab_none(s: Seq<u8>, i: int, j: int)
    requires
        0 <= i <= j <= s.len(),
        forall|k: int| i <= k < j ==> !#[trigger] spec_ab_at(s, k),
    ensures
        spec_count_a_plus_b(s, i) == spec_count_a_plus_b(s, j),
    decreases j - i,
{
    if i < j {
        assert(!spec_ab_at(s, i));
        lemma_count_ab_none(s, i + 1, j);
    }
}

/// Counting the ends of matches of `a+b` from `i` (at the start, or after a
/// byte that is not `a`): one for the match the dedicated search finds, and
/// the count from its end on.
proof fn lemma_count_ab_step(s: Seq<u8>, i: int)
    requires
        0 <= i <= s.len(),
        i == 0 || s[i - 1] != 97,
    ensures
        spec_count_a_plus_b(s, i) == (match spec_find_a_plus_b(s, i) {
            Some((p, q)) => 1 + spec_count_a_plus_b(s, q),
            None => 0,
        }),
{
    lemma_find_ab_leftmost(s, i);
    law_a_plus_b_has_iff_find(s, i);
    match spec_find_a_plus_b(s, i) {
        None => {
            assert forall|k: int| i <= k < s.len() implies !#[trigger] spec_ab_at(s, k) by {
                if spec_ab_at(s, k) {
                    assert(spec_has_a_plus_b(s, i));
                }
            }
            lemma_count_ab_none(s, i, s.len() as int);
        },
        Some((p, q)) => {
            let e = q - 1;
            lemma_skip_byte_shape(s, p + 1, 97);
            assert forall|k: int| i <= k < e implies !#[trigger] spec_ab_at(s, k) by {
                if spec_ab_at(s, k) {
                    if k <= p {
                        if k - 1 >= i {
                            lemma_skip_byte_shape(s, k, 97);
                            assert(spec_skip_byte(s, k, 97) == k);
                            assert(spec_ab_from(s, k - 1));
                        }
                    } else {
                        assert(s[k] == 97);
                    }
                }
            }
            lemma_count_ab_none(s, i, e);
            assert(s[e - 1] == 97);
            assert(spec_ab_at(s, e));
        },
    }
}

/// For the tree of `a+b`, counting the matches with the dedicated search
/// (what `count` of a regex that uses it gives) gives the number of matches
/// that iterating yields.
pub proof fn law_a_plus_b_count(s: Seq<u8>, next: usize, skip: bool)
    requires
        valid_utf8(s),
        s.len() <= usize::MAX,
        good_pos(s, next as int, true),
        next == 0 || s[next - 1] != 97,
    ensures
        spec_count_a_plus_b(s, next as int) == spec_count(
            Fast::APlusB,
            a_plus_b_tree(),
            0,
            s,
            next,
            false,
            skip,
        ),
    decreases s.len() - next,
{
    lemma_count_ab_step(s, next as int);
    law_a_plus_b_agrees(s, next as int);
    lemma_a_plus_b_shape(s, next as int);
    let t = a_plus_b_tree();
    match spec_find_a_plus_b(s, next as int) {
        Some((p, q)) => {
            let sl = whole_match_slots(p, q);
            assert(spec_fast_find(Fast::APlusB, s, next as int) == Some(sl));
            assert(spec_search(Fast::APlusB, t, 0, s, next as int) == Some(sl));
            assert(sl[0] == Some((p as usize, q as usize)));
            assert(spec_search_next(Fast::APlusB, t, 0, s, next, skip) == Some(sl));
            let (o, n2, d2, k2) = spec_iter_step(Fast::APlusB, t, 0, s, next, false, skip);
            assert(o == Some(sl));
            assert(n2 == q);
            assert(d2 == (q == s.len()));
            if q < s.len() {
                lemma_ascii_boundary(s, q - 1);
                law_a_plus_b_count(s, q as usize, k2);
            } else {
                assert(spec_count(Fast::APlusB, t, 0, s, n2, true, k2) == 0);
            }
        },
        None => {
            assert(spec_search(Fast::APlusB, t, 0, s, next as int) is None);
        },
    }
}

/// The count of match ends fits in the text's length.
pub(crate) proof fn lemma_count_ab_fits(s: Seq<u8>)
    requires
        s.len() <= usize::MAX,
    ensures
        spec_count_a_plus_b(s, 0) <= usize::MAX,
        (spec_count_a_plus_b(s, 0) as usize) as nat == spec_count_a_plus_b(s, 0),
{
    lemma_count_ab_at_most(s, 0);
}

proof fn lemma_count_ab_at_most(s: Seq<u8>, i: int)
    requires
        0 <= i <= s.len(),
    ensures
        spec_count_a_plus_b(s, i) <= s.len() - i,
    decreases s.len() - i,
{
    if i < s.len() {
        lemma_count_ab_at_most(s, i + 1);
    }
}

// ---------------------------------------------------------------------------
// The dedicated search for `(\w+)=(\d+)` finds what a search of its tree
// finds.

/// The class item of a byte class.
pub open spec fn class_item(c: ByteClass) -> SItem {
    match c {
        ByteClass::Digit => SItem::Digit,
        _ => SItem::Word,
    }
}

/// The tree of the class `\w` or `\d`.
pub open spec fn class_tree(c: ByteClass) -> SAst {
    SAst::Class(SClass { negated: false, items: seq![class_item(c)], inter: seq![] })
}

/// The tree of `(\w+)=(\d+)`.
pub open spec fn word_eq_digits_tree() -> SAst {
    SAst::Concat(
        seq![
            SAst::Group(1, Box::new(SAst::Repeat(Box::new(class_tree(ByteClass::Word)), 1, None, true))),
            SAst::Literal('='),
            SAst::Group(2, Box::new(SAst::Repeat(Box::new(class_tree(ByteClass::Digit)), 1, None, true))),
        ],
    )
}

/// A character of `\w` or `\d` is at `q` exactly when the byte there is in
/// the byte class, and it then takes that one byte.
proof fn lemma_class_char(s: Seq<u8>, q: int, c: ByteClass)
    requires
        c != ByteClass::AlphaUnderscore,
    ensures
        (match spec_next_char(s, q) {
            Some((x, _)) => spec_class_matches(
                SClass { negated: false, items: seq![class_item(c)], inter: seq![] },
                x,
            ),
            None => false,
        }) <==> (0 <= q < s.len() && spec_class_byte(s[q], c)),
        (0 <= q < s.len() && spec_class_byte(s[q], c)) ==> (spec_next_char(s, q) matches Some(
            (_, e),
        ) && e == q + 1),
{
    let cls = SClass { negated: false, items: seq![class_item(c)], inter: seq![] };
    assert(cls.items.drop_first() =~= Seq::<SItem>::empty());
    assert(cls.inter =~= Seq::<SClass>::empty());
    if 0 <= q < s.len() {
        if s[q] < 0x80 {
            lemma_ascii_next_char(s, q);
            let b = s[q];
            let x = (b as u32) as char;
            assert(x as u32 == b as u32);
            lemma_one_item_class(class_item(c), x);
        } else if spec_next_char(s, q) is Some {
            lemma_non_ascii_next_char(s, q);
            let x = spec_next_char(s, q).unwrap().0;
            lemma_one_item_class(class_item(c), x);
        }
    }
}

/// A class of one item, not negated, admits what the item admits.
proof fn lemma_one_item_class(item: SItem, x: char)
    ensures
        spec_class_matches(SClass { negated: false, items: seq![item], inter: seq![] }, x)
            == spec_item_matches(item, x),
{
    let items = seq![item];
    assert(items.drop_first() =~= Seq::<SItem>::empty());
    assert(spec_items_hit(Seq::<SItem>::empty(), x) == false);
    assert(spec_items_hit(items, x) == spec_item_matches(item, x));
    assert(spec_all_classes_match(Seq::<SClass>::empty(), x));
}

/// Repeating `\w` or `\d` from `q`, having matched it `cnt >= 1` times,
/// can stop at each position from `q` to the end of the run there, nearest
/// first.
proof fn lemma_class_run(s: Seq<u8>, q: usize, sl: SpecSlots, c: ByteClass, cnt: nat)
    requires
        q <= s.len() <= usize::MAX,
        cnt >= 1,
        c != ByteClass::AlphaUnderscore,
    ensures
        spec_repeat_inner(class_tree(c), s, q, sl, 1, None, cnt) == Seq::new(
            (spec_skip(s, q as int, c, false) - q + 1) as nat,
            |j: int| ((q + j) as usize, sl),
        ),
        q <= spec_skip(s, q as int, c, false) <= s.len(),
    decreases s.len() - q,
{
    let node = class_tree(c);
    lemma_class_char(s, q as int, c);
    let e = spec_skip(s, q as int, c, false);
    let want = Seq::new((e - q + 1) as nat, |j: int| ((q + j) as usize, sl));
    if q < s.len() && spec_class_byte(s[q as int], c) {
        let q1 = (q + 1) as usize;
        lemma_class_run(s, q1, sl, c, cnt + 1);
        assert(spec_matches(node, s, q, sl) == seq![(q1, sl)]);
        let nexts = seq![(q1, sl)];
        assert(nexts.drop_first() =~= Seq::<(usize, SpecSlots)>::empty());
        assert(spec_repeat_each(node, s, q, nexts.drop_first(), 1, None, cnt) == Seq::<
            (usize, SpecSlots),
        >::empty());
        assert(spec_repeat_inner(node, s, q, sl, 1, None, cnt) =~= want);
    } else {
        assert(spec_matches(node, s, q, sl) == Seq::<(usize, SpecSlots)>::empty());
        assert(spec_repeat_inner(node, s, q, sl, 1, None, cnt) =~= want);
    }
}

/// The tree of a group `idx` around one or more of the class `c`.
pub open spec fn group_run_tree(idx: usize, c: ByteClass) -> SAst {
    SAst::Group(idx, Box::new(SAst::Repeat(Box::new(class_tree(c)), 1, None, true)))
}

/// The ways a group around one or more of `\w` or `\d` matches at `p`:
/// ending at each position of the run there, farthest first, with the
/// group recorded.
proof fn lemma_group_run(s: Seq<u8>, p: usize, sl: SpecSlots, c: ByteClass, idx: usize)
    requires
        p <= s.len() <= usize::MAX,
        c != ByteClass::AlphaUnderscore,
    ensures
        ({
            let r = spec_matches(group_run_tree(idx, c), s, p, sl);
            let e = spec_skip(s, p as int, c, false);
            if p < s.len() && spec_class_byte(s[p as int], c) {
                &&& p < e <= s.len()
                &&& r.len() == e - p
                &&& forall|k: int|
                    0 <= k < r.len() ==> (#[trigger] r[k]).0 == e - k && r[k].1 == sl.update(
                        idx as int,
                        Some((p, (e - k) as usize)),
                    )
                &&& forall|j: int| p <= j < e ==> spec_class_byte(#[trigger] s[j], c)
            } else {
                r.len() == 0
            }
        }),
{
    let node = class_tree(c);
    let rep = SAst::Repeat(Box::new(node), 1, None, true);
    lemma_class_char(s, p as int, c);
    lemma_skip(s, p as int, c, false);
    let inner = spec_repeat_inner(node, s, p, sl, 1, None, 0);
    assert(spec_matches(rep, s, p, sl) == inner.reverse());
    let r = spec_matches(group_run_tree(idx, c), s, p, sl);
    assert(r == crate::matcher::spec_set_group(inner.reverse(), idx, p));
    if p < s.len() && spec_class_byte(s[p as int], c) {
        let p1 = (p + 1) as usize;
        lemma_class_run(s, p1, sl, c, 1);
        let nexts = seq![(p1, sl)];
        assert(spec_matches(node, s, p, sl) == nexts);
        assert(nexts.drop_first() =~= Seq::<(usize, SpecSlots)>::empty());
        assert(spec_repeat_each(node, s, p, nexts.drop_first(), 1, None, 0) == Seq::<
            (usize, SpecSlots),
        >::empty());
        let run = spec_repeat_inner(node, s, p1, sl, 1, None, 1);
        assert(inner =~= run);
        assert(spec_skip(s, p as int, c, false) == spec_skip(s, p + 1, c, false));
    } else {
        assert(spec_matches(node, s, p, sl) == Seq::<(usize, SpecSlots)>::empty());
        assert(inner =~= Seq::<(usize, SpecSlots)>::empty());
    }
}

/// Matching nothing more after each way keeps the ways as they are.
proof fn lemma_concat_nothing_more(r: SpecRes, s: Seq<u8>)
    ensures
        spec_concat_each(r, Seq::<SAst>::empty(), s) == r,
    decreases r.len(),
{
    if r.len() > 0 {
        lemma_concat_nothing_more(r.drop_first(), s);
        assert(spec_concat(Seq::<SAst>::empty(), s, r[0].0, r[0].1) == seq![r[0]]);
        assert(r =~= seq![r[0]] + r.drop_first());
    }
}

/// `=` then a group of digits, from `k`.
proof fn lemma_eq_then_digits(s: Seq<u8>, k: usize, sl: SpecSlots)
    requires
        k <= s.len() <= usize::MAX,
    ensures
        spec_concat(seq![SAst::Literal('='), group_run_tree(2, ByteClass::Digit)], s, k, sl) == (
        if k < s.len() && s[k as int] == 61 {
            spec_matches(group_run_tree(2, ByteClass::Digit), s, (k + 1) as usize, sl)
        } else {
            Seq::<(usize, SpecSlots)>::empty()
        }),
{
    let leq = SAst::Literal('=');
    let g2 = group_run_tree(2, ByteClass::Digit);
    let nodes = seq![leq, g2];
    lemma_char_is(s, k as int, '=');
    assert(nodes.drop_first() =~= seq![g2]);
    assert(nodes[0] == leq);
    let firsts = spec_matches(leq, s, k, sl);
    if k < s.len() && s[k as int] == 61 {
        let k1 = (k + 1) as usize;
        assert(firsts == seq![(k1, sl)]);
        assert(firsts.drop_first() =~= Seq::<(usize, SpecSlots)>::empty());
        let g = seq![g2];
        assert(g.drop_first() =~= Seq::<SAst>::empty());
        assert(g[0] == g2);
        lemma_concat_nothing_more(spec_matches(g2, s, k1, sl), s);
        assert(spec_concat(g, s, k1, sl) == spec_matches(g2, s, k1, sl));
        assert(spec_concat_each(firsts.drop_first(), g, s) == Seq::<(usize, SpecSlots)>::empty());
        assert(spec_concat_each(firsts, g, s) =~= spec_concat(g, s, k1, sl));
    } else {
        assert(firsts == Seq::<(usize, SpecSlots)>::empty());
    }
}

/// Where every way to end the word stops before a word byte, none is
/// followed by `=`.
proof fn lemma_none_then_eq(firsts: SpecRes, s: Seq<u8>)
    requires
        s.len() <= usize::MAX,
        forall|k: int|
            0 <= k < firsts.len() ==> (#[trigger] firsts[k]).0 < s.len() && spec_class_byte(
                s[firsts[k].0 as int],
                ByteClass::Word,
            ),
    ensures
        spec_concat_each(
            firsts,
            seq![SAst::Literal('='), group_run_tree(2, ByteClass::Digit)],
            s,
        ) == Seq::<(usize, SpecSlots)>::empty(),
    decreases firsts.len(),
{
    if firsts.len() > 0 {
        let f = firsts[0];
        lemma_eq_then_digits(s, f.0, f.1);
        lemma_none_then_eq(firsts.drop_first(), s);
    }
}

/// The condition for `(\w+)=(\d+)` to match at `p`: a word byte there, an
/// `=` right after the run of word bytes it starts, and a digit after it.
pub open spec fn spec_wed_from(s: Seq<u8>, p: int) -> bool {
    let e = spec_skip(s, p, ByteClass::Word, false);
    &&& 0 <= p < s.len()
    &&& spec_class_byte(s[p], ByteClass::Word)
    &&& e + 1 < s.len()
    &&& s[e] == 61
    &&& spec_class_byte(s[e + 1], ByteClass::Digit)
}

/// What trying the tree of `(\w+)=(\d+)` at `p` gives.
proof fn lemma_wed_attempt(s: Seq<u8>, p: usize)
    requires
        p <= s.len() <= usize::MAX,
    ensures
        spec_attempt(word_eq_digits_tree(), s, 2, p) == (if spec_wed_from(s, p as int) {
            let e = spec_skip(s, p as int, ByteClass::Word, false);
            Some(word_eq_digits_slots(
                p as int,
                e,
                e + 1,
                spec_skip(s, e + 1, ByteClass::Digit, false),
            ))
        } else {
            None
        }),
{
    let g1 = group_run_tree(1, ByteClass::Word);
    let leq = SAst::Literal('=');
    let g2 = group_run_tree(2, ByteClass::Digit);
    let nodes = seq![g1, leq, g2];
    let rest_nodes = seq![leq, g2];
    let init = spec_init_slots(2, p);
    assert(word_eq_digits_tree() == SAst::Concat(nodes));
    assert(nodes.drop_first() =~= rest_nodes);
    assert(nodes[0] == g1);
    let r = spec_matches(word_eq_digits_tree(), s, p, init);
    assert(r == spec_concat(nodes, s, p, init));
    assert(spec_concat(nodes, s, p, init) == spec_concat_each(
        spec_matches(nodes[0], s, p, init),
        nodes.drop_first(),
        s,
    ));
    let firsts = spec_matches(g1, s, p, init);
    assert(r == spec_concat_each(firsts, rest_nodes, s));
    lemma_group_run(s, p, init, ByteClass::Word, 1);
    if p < s.len() && spec_class_byte(s[p as int], ByteClass::Word) {
        let e = spec_skip(s, p as int, ByteClass::Word, false);
        let eu = e as usize;
        let sl1 = init.update(1, Some((p, eu)));
        assert(firsts[0] == (eu, sl1));
        let rest = firsts.drop_first();
        assert forall|k: int| 0 <= k < rest.len() implies (#[trigger] rest[k]).0 < s.len()
            && spec_class_byte(s[rest[k].0 as int], ByteClass::Word) by {
            assert(rest[k] == firsts[k + 1]);
        }
        lemma_none_then_eq(rest, s);
        lemma_eq_then_digits(s, eu, sl1);
        assert(r =~= spec_concat(rest_nodes, s, eu, sl1) + Seq::<(usize, SpecSlots)>::empty());
        lemma_skip(s, p as int, ByteClass::Word, false);
        if e < s.len() && s[e] == 61 {
            let e1 = (e + 1) as usize;
            lemma_group_run(s, e1, sl1, ByteClass::Digit, 2);
            if spec_wed_from(s, p as int) {
                let d = spec_skip(s, e + 1, ByteClass::Digit, false);
                let sl2 = sl1.update(2, Some((e1, d as usize)));
                assert(r[0] == (d as usize, sl2));
                assert(sl2.update(0, Some((p, d as usize))) =~= word_eq_digits_slots(
                    p as int,
                    e,
                    e + 1,
                    d,
                ));
            } else {
                assert(r.len() == 0);
            }
        } else {
            assert(r.len() == 0);
        }
    } else {
        assert(firsts.len() == 0);
        assert(r =~= Seq::<(usize, SpecSlots)>::empty());
    }
}

/// Where the byte at `q` is not a word byte, the dedicated search from `q`
/// finds what it finds from `q + 1`.
proof fn lemma_find_wed_not_word(s: Seq<u8>, q: int)
    requires
        0 <= q < s.len(),
        !spec_class_byte(s[q], ByteClass::Word),
    ensures
        spec_find_word_eq_digits(s, q) == spec_find_word_eq_digits(s, q + 1),
{
    lemma_skip(s, q + 1, ByteClass::Word, true);
    assert(spec_skip(s, q, ByteClass::Word, true) == spec_skip(s, q + 1, ByteClass::Word, true));
    let st = spec_skip(s, q + 1, ByteClass::Word, true);
    lemma_skip(s, st, ByteClass::Word, false);
}

/// Over bytes that are not word bytes, the dedicated search finds the same.
proof fn lemma_find_wed_skip(s: Seq<u8>, q: int, k: int)
    requires
        0 <= q <= k <= s.len(),
        forall|j: int| q <= j < k ==> !spec_class_byte(#[trigger] s[j], ByteClass::Word),
    ensures
        spec_find_word_eq_digits(s, q) == spec_find_word_eq_digits(s, k),
    decreases k - q,
{
    if q < k {
        lemma_find_wed_not_word(s, q);
        lemma_find_wed_skip(s, q + 1, k);
    }
}

/// The dedicated search from `q` finds the match that starts at `q`, if
/// there is one, and otherwise what it finds from `q + 1`.
proof fn lemma_find_wed_step(s: Seq<u8>, q: int)
    requires
        0 <= q < s.len(),
    ensures
        spec_find_word_eq_digits(s, q) == (if spec_wed_from(s, q) {
            let e = spec_skip(s, q, ByteClass::Word, false);
            Some((q, e, e + 1, spec_skip(s, e + 1, ByteClass::Digit, false)))
        } else {
            spec_find_word_eq_digits(s, q + 1)
        }),
{
    if !spec_class_byte(s[q], ByteClass::Word) {
        lemma_find_wed_not_word(s, q);
    } else {
        assert(spec_skip(s, q, ByteClass::Word, true) == q);
        lemma_skip(s, q, ByteClass::Word, false);
        let e = spec_skip(s, q, ByteClass::Word, false);
        assert(e == spec_skip(s, q + 1, ByteClass::Word, false));
        lemma_skip(s, q + 1, ByteClass::Word, false);
        if e < s.len() && s[e] == 61 {
            lemma_skip(s, e + 1, ByteClass::Digit, false);
        }
        if !spec_wed_from(s, q) {
            if q + 1 < e {
                assert(spec_class_byte(s[q + 1], ByteClass::Word));
                assert(spec_skip(s, q + 1, ByteClass::Word, true) == q + 1);
            } else if e < s.len() {
                assert(!spec_class_byte(s[e], ByteClass::Word));
                lemma_find_wed_not_word(s, e);
            }
        }
    }
}

/// A search of the tree of `(\w+)=(\d+)` in well-formed text, from a
/// boundary `q`, finds exactly the match the dedicated search finds, with
/// the same groups.
pub proof fn law_word_eq_digits_agrees(s: Seq<u8>, q: int)
    requires
        valid_utf8(s),
        s.len() <= usize::MAX,
        good_pos(s, q, true),
    ensures
        spec_find_from(word_eq_digits_tree(), s, 2, q, true) == (match spec_find_word_eq_digits(
            s,
            q,
        ) {
            Some((st, we, ds, e)) => Some(word_eq_digits_slots(st, we, ds, e)),
            None => None,
        }),
    decreases s.len() + 1 - q,
{
    lemma_wed_attempt(s, q as usize);
    if q == s.len() {
        assert(spec_step(s, q, true) == q + 1);
        assert(spec_find_from(word_eq_digits_tree(), s, 2, q + 1, true) is None);
    } else {
        lemma_find_wed_step(s, q);
        if !spec_wed_from(s, q) {
            lemma_char_at_boundary(s, q);
            lemma_next_char_good(s, q, true);
            let e = spec_next_char(s, q).unwrap().1;
            assert(spec_step(s, q, true) == e);
            if s[q] < 0x80 {
                lemma_ascii_next_char(s, q);
                assert(e == q + 1);
            } else {
                lemma_non_ascii_next_char(s, q);
                lemma_find_wed_skip(s, q + 1, e);
            }
            law_word_eq_digits_agrees(s, e);
        }
    }
}

/// The dedicated search from `i` finds something exactly when a match of
/// `(\w+)=(\d+)` starts at some position from `i` on.
proof fn lemma_find_wed_some(s: Seq<u8>, i: int)
    requires
        0 <= i <= s.len(),
    ensures
        spec_find_word_eq_digits(s, i) is Some <==> exists|p: int|
            i <= p < s.len() && #[trigger] spec_wed_from(s, p),
    decreases s.len() - i,
{
    if i < s.len() {
        lemma_find_wed_step(s, i);
        lemma_find_wed_some(s, i + 1);
        if exists|p: int| i <= p < s.len() && #[trigger] spec_wed_from(s, p) {
            let p = choose|p: int| i <= p < s.len() && #[trigger] spec_wed_from(s, p);
            if p > i {
                assert(i + 1 <= p < s.len() && spec_wed_from(s, p));
            }
        }
    } else {
        assert(spec_find_word_eq_digits(s, i) is None);
    }
}

/// Searching `(\w+)=(\d+)` from the start of a text, or from just after a
/// byte that is not a word byte: an `=` with a word byte before it and a
/// digit after it is found exactly when the dedicated search finds a match.
pub proof fn law_word_eq_digits_has_iff_find(s: Seq<u8>, i: int)
    requires
        0 <= i <= s.len(),
        i == 0 || !spec_class_byte(s[i - 1], ByteClass::Word),
    ensures
        (exists|k: int| i <= k < s.len() && #[trigger] spec_eq_hit(s, k))
            == spec_find_word_eq_digits(s, i) is Some,
{
    lemma_find_wed_some(s, i);
    if exists|k: int| i <= k < s.len() && #[trigger] spec_eq_hit(s, k) {
        let k = choose|k: int| i <= k < s.len() && #[trigger] spec_eq_hit(s, k);
        let p = k - 1;
        assert(spec_skip(s, p + 1, ByteClass::Word, false) == k);
        assert(spec_skip(s, p, ByteClass::Word, false) == k);
        assert(spec_wed_from(s, p));
    }
    if spec_find_word_eq_digits(s, i) is Some {
        let p = choose|p: int| i <= p < s.len() && #[trigger] spec_wed_from(s, p);
        let e = spec_skip(s, p, ByteClass::Word, false);
        lemma_skip(s, p, ByteClass::Word, false);
        assert(spec_class_byte(s[e - 1], ByteClass::Word));
        assert(spec_eq_hit(s, e));
    }
}

/// Whether `ast` is the tree of `(\w+)=(\d+)`.
pub fn is_word_eq_digits_tree(ast: &Ast) -> (r: bool)
    ensures
        r == (ast@ == word_eq_digits_tree()),
{
    let ghost want = seq![
        group_run_tree(1, ByteClass::Word),
        SAst::Literal('='),
        group_run_tree(2, ByteClass::Digit),
    ];
    match ast {
        Ast::Concat(v) => {
            proof {
                lemma_asts_view(v@);
            }
            if v.len() != 3 {
                assert(asts_view(v@).len() != want.len());
                return false;
            }
            let first = group_of_run(&v[0], 1, true);
            let second = match &v[1] {
                Ast::Literal(c) => *c == '=',
                _ => false,
            };
            let third = group_of_run(&v[2], 2, false);
            proof {
                assert(asts_view(v@)[0] == v@[0]@);
                assert(asts_view(v@)[1] == v@[1]@);
                assert(asts_view(v@)[2] == v@[2]@);
                if first && second && third {
                    assert(asts_view(v@) =~= want);
                } else {
                    assert(asts_view(v@)[0] != want[0] || asts_view(v@)[1] != want[1]
                        || asts_view(v@)[2] != want[2]);
                }
            }
            first && second && third
        },
        _ => false,
    }
}

/// Whether `a` is group `idx` around one or more of `\w` (when `word`) or
/// `\d`, greedy.
fn group_of_run(a: &Ast, idx: usize, word: bool) -> (r: bool)
    ensures
        r == (a@ == group_run_tree(
            idx,
            if word {
                ByteClass::Word
            } else {
                ByteClass::Digit
            },
        )),
{
    let ghost c = if word {
        ByteClass::Word
    } else {
        ByteClass::Digit
    };
    match a {
        Ast::Group { index, node } => {
            let inner = match &**node {
                Ast::Repeat { node: n, min, max, greedy } => {
                    let cls = is_class_of(&**n, word);
                    *min == 1 && max.is_none() && *greedy && cls
                },
                _ => false,
            };
            proof {
                if !inner {
                    assert(node@ != SAst::Repeat(Box::new(class_tree(c)), 1, None, true));
                }
            }
            *index == idx && inner
        },
        _ => false,
    }
}

/// Whether `a` is the class `\w` (when `word`) or `\d`.
fn is_class_of(a: &Ast, word: bool) -> (r: bool)
    ensures
        r == (a@ == class_tree(
            if word {
                ByteClass::Word
            } else {
                ByteClass::Digit
            },
        )),
{
    let ghost c = if word {
        ByteClass::Word
    } else {
        ByteClass::Digit
    };
    match a {
        Ast::Class(cls) => {
            proof {
                crate::ast::lemma_items_view(cls.items@);
                crate::ast::lemma_classes_view(cls.intersections@);
            }
            if cls.negated || cls.items.len() != 1 || cls.intersections.len() != 0 {
                proof {
                    if cls.items.len() != 1 {
                        assert(a@->Class_0.items.len() != 1);
                    }
                }
                return false;
            }
            let item_ok = match &cls.items[0] {
                crate::ast::ClassItem::Word => word,
                crate::ast::ClassItem::Digit => !word,
                _ => false,
            };
            proof {
                assert(a@->Class_0.items[0] == cls.items@[0]@);
                if item_ok {
                    assert(a@->Class_0.items =~= seq![class_item(c)]);
                    assert(a@->Class_0.inter =~= Seq::<SClass>::empty());
                } else {
                    assert(a@->Class_0.items[0] != class_item(c));
                }
            }
            item_ok
        },
        _ => false,
    }
}

/// For the tree of `(\w+)=(\d+)`, counting the matches with the dedicated
/// search (what `count` of a regex that uses it gives) gives the number of
/// matches that iterating yields.
pub proof fn law_word_eq_digits_count(s: Seq<u8>, next: usize, skip: bool)
    requires
        valid_utf8(s),
        s.len() <= usize::MAX,
        good_pos(s, next as int, true),
    ensures
        spec_count_wed_matches(s, next as int) == spec_count(
            Fast::WordEqDigits,
            word_eq_digits_tree(),
            2,
            s,
            next,
            false,
            skip,
        ),
    decreases s.len() - next,
{
    law_word_eq_digits_agrees(s, next as int);
    lemma_word_eq_digits_shape(s, next as int);
    let t = word_eq_digits_tree();
    match spec_find_word_eq_digits(s, next as int) {
        Some((st, we, ds, e)) => {
            let sl = word_eq_digits_slots(st, we, ds, e);
            assert(spec_fast_find(Fast::WordEqDigits, s, next as int) == Some(sl));
            assert(spec_search(Fast::WordEqDigits, t, 2, s, next as int) == Some(sl));
            assert(sl[0] == Some((st as usize, e as usize)));
            assert(spec_search_next(Fast::WordEqDigits, t, 2, s, next, skip) == Some(sl));
            let (o, n2, d2, k2) = spec_iter_step(Fast::WordEqDigits, t, 2, s, next, false, skip);
            assert(o == Some(sl));
            assert(n2 == e);
            assert(d2 == (e == s.len()));
            if e < s.len() {
                lemma_ascii_boundary(s, e - 1);
                law_word_eq_digits_count(s, e as usize, k2);
            } else {
                assert(spec_count(Fast::WordEqDigits, t, 2, s, n2, true, k2) == 0);
                assert(spec_count_wed_matches(s, e) == 0);
            }
        },
        None => {
            assert(spec_search(Fast::WordEqDigits, t, 2, s, next as int) is None);
        },
    }
}

// ---------------------------------------------------------------------------
// The patterns with a dedicated search parse into the trees it stands for.

/// A group `(\w+)` or `(\d+)` at the reader's position reads as that
/// group, the next one numbered, around a greedy repetition of the class.
proof fn lemma_parse_class_group(cfg: PCfg, st: PState, c: char, item: SItem)
    requires
        0 <= st.pos,
        st.pos + 5 <= cfg.chars.len(),
        cfg.chars[st.pos] == '(',
        cfg.chars[st.pos + 1] == '\\',
        cfg.chars[st.pos + 2] == c,
        cfg.chars[st.pos + 3] == '+',
        cfg.chars[st.pos + 4] == ')',
        (c == 'w' && item == SItem::Word) || (c == 'd' && item == SItem::Digit),
        cfg.nest_limit is None,
        !st.flags.swap,
        !st.flags.ws,
    ensures
        sp_atom(cfg, st) == (
            Ok::<SAst, Seq<char>>(
                SAst::Group(
                    (st.captures + 1) as usize,
                    Box::new(SAst::Repeat(Box::new(one_item_class(false, item)), 1, None, true)),
                ),
            ),
            PState { pos: st.pos + 5, captures: st.captures + 1, names: st.names.push(None), ..st },
        ),
{
    let p = st.pos;
    let st1 = with_pos(st, p + 1);
    let st_in = PState { depth: st.depth + 1, ..st1 };
    assert(sp_enter_group(cfg, st1) == (Ok::<(), Seq<char>>(()), st_in));
    let st_c = PState { captures: st.captures + 1, names: st.names.push(None), ..st_in };
    assert(sp_next_capture(st_in, None) == (st.captures + 1, st_c));
    let cls = one_item_class(false, item);
    let s2 = with_pos(st_c, p + 2);
    let s3 = with_pos(st_c, p + 3);
    let s4 = with_pos(st_c, p + 4);
    assert(sp_escape(cfg, s2, false) == (Ok::<SAst, Seq<char>>(cls), s3));
    assert(sp_atom(cfg, st_c) == (Ok::<SAst, Seq<char>>(cls), s3));
    let rep = SAst::Repeat(Box::new(cls), 1, None, true);
    assert(sp_quantified(cfg, s4, cls, 1, None) == (rep, s4));
    assert(sp_repeat_loop(cfg, s4, rep) == (Ok::<SAst, Seq<char>>(rep), s4));
    assert(sp_repeat_loop(cfg, s3, cls) == (Ok::<SAst, Seq<char>>(rep), s4));
    assert(sp_repeat(cfg, st_c) == (Ok::<SAst, Seq<char>>(rep), s4));
    assert(seq![].push(rep) == seq![rep]);
    assert(sp_concat_loop(cfg, s4, seq![rep]) == (Ok::<SAst, Seq<char>>(rep), s4));
    assert(sp_concat_loop(cfg, st_c, seq![]) == (Ok::<SAst, Seq<char>>(rep), s4));
    assert(sp_alt_loop(cfg, s4, seq![rep]) == (Ok::<SAst, Seq<char>>(rep), s4));
    assert(sp_alt(cfg, st_c) == (Ok::<SAst, Seq<char>>(rep), s4));
    let s5 = with_pos(s4, p + 5);
    assert(sp_eat(cfg, s4, ')') == (true, s5));
    let g = SAst::Group((st.captures + 1) as usize, Box::new(rep));
    assert(sp_group_body(cfg, st1, None) == (Ok::<SAst, Seq<char>>(g), sp_leave_group(s5)));
    assert(sp_eat(cfg, st1, '?') == (false, st1));
}

/// Compiling `(\w+)=(\d+)` with the default options gives the tree its
/// dedicated search stands for, with two groups, neither named.
#[verifier::rlimit(60)]
pub proof fn law_word_eq_digits_parses()
    ensures
        spec_compile(word_eq_digits_pattern(), default_options(), None) == Ok::<
            (SAst, int, Seq<Option<Seq<char>>>),
            Seq<char>,
        >((word_eq_digits_tree(), 2, seq![None, None])),
{
    let o = default_options();
    let cfg = options_cfg(word_eq_digits_pattern(), o);
    let f = options_flags(o);
    let s0 = initial_state(f);
    let g1 = SAst::Group(1, Box::new(SAst::Repeat(Box::new(one_item_class(false, SItem::Word)), 1, None, true)));
    let g2 = SAst::Group(2, Box::new(SAst::Repeat(Box::new(one_item_class(false, SItem::Digit)), 1, None, true)));
    let s5 = PState { pos: 5, captures: 1, names: seq![None], ..s0 };
    lemma_parse_class_group(cfg, s0, 'w', SItem::Word);
    assert(seq![].push(None::<Seq<char>>) == seq![None::<Seq<char>>]);
    assert(sp_atom(cfg, s0) == (Ok::<SAst, Seq<char>>(g1), s5));
    assert(sp_repeat_loop(cfg, s5, g1) == (Ok::<SAst, Seq<char>>(g1), s5));
    assert(sp_repeat(cfg, s0) == (Ok::<SAst, Seq<char>>(g1), s5));
    let s6 = with_pos(s5, 6);
    let eq = SAst::Literal('=');
    assert(sp_atom(cfg, s5) == (Ok::<SAst, Seq<char>>(eq), s6));
    assert(sp_repeat_loop(cfg, s6, eq) == (Ok::<SAst, Seq<char>>(eq), s6));
    assert(sp_repeat(cfg, s5) == (Ok::<SAst, Seq<char>>(eq), s6));
    let s11 = PState { pos: 11, captures: 2, names: seq![None, None], ..s0 };
    lemma_parse_class_group(cfg, s6, 'd', SItem::Digit);
    assert(seq![None::<Seq<char>>].push(None) == seq![None::<Seq<char>>, None]);
    assert(sp_atom(cfg, s6) == (Ok::<SAst, Seq<char>>(g2), s11));
    assert(sp_repeat_loop(cfg, s11, g2) == (Ok::<SAst, Seq<char>>(g2), s11));
    assert(sp_repeat(cfg, s6) == (Ok::<SAst, Seq<char>>(g2), s11));
    let parts = seq![g1, eq, g2];
    assert(seq![g1, eq].push(g2) == parts);
    assert(seq![g1].push(eq) == seq![g1, eq]);
    assert(seq![].push(g1) == seq![g1]);
    assert(sp_concat_loop(cfg, s11, parts) == (Ok::<SAst, Seq<char>>(SAst::Concat(parts)), s11));
    assert(sp_concat_loop(cfg, s6, seq![g1, eq]) == (Ok::<SAst, Seq<char>>(SAst::Concat(parts)), s11));
    assert(sp_concat_loop(cfg, s5, seq![g1]) == (Ok::<SAst, Seq<char>>(SAst::Concat(parts)), s11));
    assert(sp_concat_loop(cfg, s0, seq![]) == (Ok::<SAst, Seq<char>>(SAst::Concat(parts)), s11));
    assert(sp_alt(cfg, s0) == (Ok::<SAst, Seq<char>>(SAst::Concat(parts)), s11));
    assert(class_tree(ByteClass::Word) == one_item_class(false, SItem::Word));
    assert(class_tree(ByteClass::Digit) == one_item_class(false, SItem::Digit));
    assert(SAst::Concat(parts) == word_eq_digits_tree());
}

/// Compiling `a+b` with the default options gives the tree its dedicated
/// search stands for, with no groups.
pub proof fn law_a_plus_b_parses()
    ensures
        spec_compile(a_plus_b_pattern(), default_options(), None) == Ok::<
            (SAst, int, Seq<Option<Seq<char>>>),
            Seq<char>,
        >((a_plus_b_tree(), 0, seq![])),
{
    let o = default_options();
    let cfg = options_cfg(a_plus_b_pattern(), o);
    let s0 = initial_state(options_flags(o));
    let s1 = with_pos(s0, 1);
    let s2 = with_pos(s0, 2);
    let s3 = with_pos(s0, 3);
    let a = SAst::Literal('a');
    let b = SAst::Literal('b');
    let rep = SAst::Repeat(Box::new(a), 1, None, true);
    assert(sp_atom(cfg, s0) == (Ok::<SAst, Seq<char>>(a), s1));
    assert(sp_quantified(cfg, s2, a, 1, None) == (rep, s2));
    assert(sp_repeat_loop(cfg, s2, rep) == (Ok::<SAst, Seq<char>>(rep), s2));
    assert(sp_repeat_loop(cfg, s1, a) == (Ok::<SAst, Seq<char>>(rep), s2));
    assert(sp_repeat(cfg, s0) == (Ok::<SAst, Seq<char>>(rep), s2));
    assert(sp_atom(cfg, s2) == (Ok::<SAst, Seq<char>>(b), s3));
    assert(sp_repeat_loop(cfg, s3, b) == (Ok::<SAst, Seq<char>>(b), s3));
    assert(sp_repeat(cfg, s2) == (Ok::<SAst, Seq<char>>(b), s3));
    let parts = seq![rep, b];
    assert(seq![rep].push(b) == parts);
    assert(seq![].push(rep) == seq![rep]);
    assert(sp_concat_loop(cfg, s3, parts) == (Ok::<SAst, Seq<char>>(SAst::Concat(parts)), s3));
    assert(sp_concat_loop(cfg, s2, seq![rep]) == (Ok::<SAst, Seq<char>>(SAst::Concat(parts)), s3));
    assert(sp_concat_loop(cfg, s0, seq![]) == (Ok::<SAst, Seq<char>>(SAst::Concat(parts)), s3));
    assert(sp_alt(cfg, s0) == (Ok::<SAst, Seq<char>>(SAst::Concat(parts)), s3));
}

} // verus!
