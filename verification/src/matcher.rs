use vstd::prelude::*;
use crate::ast::{
    asts_view, ast_view, lemma_asts_view, lemma_node_count_pos, spec_class_matches, spec_node_count, spec_nodes_count,
    Ast, SAst,
};
use crate::text::{
    good_pos, is_word, lemma_char_at_boundary, lemma_next_char_good, next_char, prev_char, spec_next_char, spec_prev_char,
};
use crate::unicode::spec_is_word_char;
use vstd::utf8::{
    encode_utf8_valid_utf8, is_char_boundary, is_char_boundary_iff_not_is_continuation_byte,
    is_char_boundary_start_end_of_seq, valid_utf8,
};
use vstd::string::StringSliceAdditionalSpecFns;

verus! {

/// A slot vector holding `(start, end)` pairs for each capture group (index 0 = whole match).
pub type Slots = Vec<Option<(usize, usize)>>;

/// The model of a slot vector.
pub type SpecSlots = Seq<Option<(usize, usize)>>;

/// The model of a list of ways to match: each is an end position and slots.
pub type SpecRes = Seq<(usize, SpecSlots)>;

pub open spec fn res_view(r: Seq<(usize, Slots)>) -> SpecRes {
    r.map_values(|e: (usize, Slots)| (e.0, e.1@))
}

// ---------------------------------------------------------------------------
// Semantics: every way a tree can match at a position, in priority order.
//
// The first entry is the one a backtracking search reaches first: for an
// alternation the leftmost branch, for a greedy repetition the most
// iterations, for a lazy one the fewest. A way in which an iteration of a
// repetition matches the empty string ends the repetition there (short of
// its minimum, that iteration completes it); the iteration's other ways are
// still tried.

/// All ways `ast` can match `s` starting at `pos`, each as `(end, slots)`.
pub open spec fn spec_matches(ast: SAst, s: Seq<u8>, pos: usize, slots: SpecSlots) -> SpecRes
    decreases spec_node_count(ast), 0nat, 0nat, 0nat, 0nat,
{
    match ast {
        SAst::Empty => seq![(pos, slots)],
        SAst::Literal(c) => match spec_next_char(s, pos as int) {
            Some((x, e)) => if x == c {
                seq![(e as usize, slots)]
            } else {
                seq![]
            },
            None => seq![],
        },
        SAst::Dot(matches_new_line) => match spec_next_char(s, pos as int) {
            Some((x, e)) => if x == '\n' && !matches_new_line {
                seq![]
            } else {
                seq![(e as usize, slots)]
            },
            None => seq![],
        },
        SAst::Class(cls) => match spec_next_char(s, pos as int) {
            Some((x, e)) => if spec_class_matches(cls, x) {
                seq![(e as usize, slots)]
            } else {
                seq![]
            },
            None => seq![],
        },
        SAst::StartLine(multi_line, crlf) => if spec_start_line(s, pos as int, multi_line, crlf) {
            seq![(pos, slots)]
        } else {
            seq![]
        },
        SAst::EndLine(multi_line, crlf) => if spec_end_line(s, pos as int, multi_line, crlf) {
            seq![(pos, slots)]
        } else {
            seq![]
        },
        SAst::StartText => if pos == 0 {
            seq![(pos, slots)]
        } else {
            seq![]
        },
        SAst::EndText => if pos == s.len() {
            seq![(pos, slots)]
        } else {
            seq![]
        },
        SAst::WordBoundary(want) => if spec_word_boundary(s, pos as int) == want {
            seq![(pos, slots)]
        } else {
            seq![]
        },
        SAst::Concat(nodes) => spec_concat(nodes, s, pos, slots),
        SAst::Alt(nodes) => spec_alt(nodes, s, pos, slots),
        SAst::Repeat(node, min, max, greedy) => {
            let r = spec_repeat_inner(*node, s, pos, slots, min, max, 0);
            if greedy {
                r.reverse()
            } else {
                r
            }
        },
        SAst::Group(index, node) => spec_set_group(
            spec_matches(*node, s, pos, slots),
            index,
            pos,
        ),
    }
}

/// Records `(pos, end)` as group `index` in every result.
pub open spec fn spec_set_group(r: SpecRes, index: usize, pos: usize) -> SpecRes {
    r.map_values(|e: (usize, SpecSlots)| (e.0, e.1.update(index as int, Some((pos, e.0)))))
}

/// The character at `pos` is `c`.
pub open spec fn spec_next_is(s: Seq<u8>, pos: int, c: char) -> bool {
    spec_next_char(s, pos) matches Some((x, _)) && x == c
}

/// The character at `pos` is an ASCII word character.
pub open spec fn spec_next_is_word(s: Seq<u8>, pos: int) -> bool {
    spec_next_char(s, pos) matches Some((x, _)) && spec_is_word_char(x)
}

/// The character ending at `pos` is an ASCII word character.
pub open spec fn spec_prev_is_word(s: Seq<u8>, pos: int) -> bool {
    spec_prev_char(s, pos) matches Some(x) && spec_is_word_char(x)
}

/// `^`: the start of the text, or (in multi-line mode) just after `\n`, but
/// (in CRLF mode) not just before `\r`.
pub open spec fn spec_start_line(s: Seq<u8>, pos: int, multi_line: bool, crlf: bool) -> bool {
    pos == 0 || (multi_line && spec_prev_char(s, pos) == Some('\n') && (!crlf || !spec_next_is(
        s,
        pos,
        '\r',
    )))
}

/// `$`: the end of the text, or (in multi-line mode) just before `\n`, or (in
/// CRLF mode) just before `\r\n`.
pub open spec fn spec_end_line(s: Seq<u8>, pos: int, multi_line: bool, crlf: bool) -> bool {
    pos == s.len() || (multi_line && spec_next_is(s, pos, '\n')) || (crlf && spec_next_is(
        s,
        pos,
        '\r',
    ) && 0 <= pos + 1 < s.len() && s[pos + 1] == 0x0Au8)
}

/// Exactly one of the characters around `pos` is a word character.
pub open spec fn spec_word_boundary(s: Seq<u8>, pos: int) -> bool {
    spec_prev_is_word(s, pos) != spec_next_is_word(s, pos)
}

/// Matching `nodes` one after another, threading the slots through.
pub open spec fn spec_concat(nodes: Seq<SAst>, s: Seq<u8>, pos: usize, slots: SpecSlots) -> SpecRes
    decreases spec_nodes_count(nodes), 1nat, 0nat, 0nat, 0nat,
{
    if nodes.len() == 0 {
        seq![(pos, slots)]
    } else {
        proof {
            lemma_node_count_pos(nodes[0]);
        }
        spec_concat_each(spec_matches(nodes[0], s, pos, slots), nodes.drop_first(), s)
    }
}

/// For each way the first node matched, in order, all ways the rest match.
pub open spec fn spec_concat_each(firsts: SpecRes, rest: Seq<SAst>, s: Seq<u8>) -> SpecRes
    decreases spec_nodes_count(rest), 2nat, 0nat, 0nat, firsts.len(),
{
    if firsts.len() == 0 {
        seq![]
    } else {
        spec_concat(rest, s, firsts[0].0, firsts[0].1) + spec_concat_each(
            firsts.drop_first(),
            rest,
            s,
        )
    }
}

/// The ways of each alternative, first alternative first.
pub open spec fn spec_alt(nodes: Seq<SAst>, s: Seq<u8>, pos: usize, slots: SpecSlots) -> SpecRes
    decreases spec_nodes_count(nodes), 1nat, 0nat, 0nat, 0nat,
{
    if nodes.len() == 0 {
        seq![]
    } else {
        proof {
            lemma_node_count_pos(nodes[0]);
        }
        spec_matches(nodes[0], s, pos, slots) + spec_alt(nodes.drop_first(), s, pos, slots)
    }
}

/// The ways of repeating `node` having already matched it `count` times,
/// fewest further iterations first.
pub open spec fn spec_repeat_inner(
    node: SAst,
    s: Seq<u8>,
    pos: usize,
    slots: SpecSlots,
    min: usize,
    max: Option<usize>,
    count: nat,
) -> SpecRes
    decreases spec_node_count(node), 2nat, (s.len() - pos) as nat, 1nat, 0nat,
{
    let head = if count >= min {
        seq![(pos, slots)]
    } else {
        seq![]
    };
    if max matches Some(m) && count >= m {
        head
    } else {
        head + spec_repeat_each(
            node,
            s,
            pos,
            spec_matches(node, s, pos, slots),
            min,
            max,
            count,
        )
    }
}

/// Continues the repetition from each way one more iteration matched, in
/// order. A way that does not advance ends the repetition there: while the
/// minimum has not been reached it completes it (every further iteration
/// could match empty too), and otherwise it adds nothing, the repetition
/// having already been allowed to stop at that position.
pub open spec fn spec_repeat_each(
    node: SAst,
    s: Seq<u8>,
    pos: usize,
    nexts: SpecRes,
    min: usize,
    max: Option<usize>,
    count: nat,
) -> SpecRes
    decreases spec_node_count(node), 2nat, (s.len() - pos) as nat, 0nat, nexts.len(),
{
    if nexts.len() == 0 {
        seq![]
    } else {
        let first = if nexts[0].0 == pos {
            if count < min {
                seq![(pos, nexts[0].1)]
            } else {
                seq![]
            }
        } else if nexts[0].0 < pos || nexts[0].0 > s.len() {
            seq![]
        } else {
            spec_repeat_inner(node, s, nexts[0].0, nexts[0].1, min, max, count + 1)
        };
        first + spec_repeat_each(node, s, pos, nexts.drop_first(), min, max, count)
    }
}

/// Every group index in the tree is below `n`.
pub open spec fn groups_below(a: SAst, n: nat) -> bool
    decreases a,
{
    match a {
        SAst::Concat(v) => all_groups_below(v, n),
        SAst::Alt(v) => all_groups_below(v, n),
        SAst::Repeat(node, _, _, _) => groups_below(*node, n),
        SAst::Group(i, node) => i < n && groups_below(*node, n),
        _ => true,
    }
}

pub open spec fn all_groups_below(v: Seq<SAst>, n: nat) -> bool
    decreases v,
{
    v.len() == 0 || (groups_below(v[0], n) && all_groups_below(v.drop_first(), n))
}

/// The slot values are spans of good positions, and there are `n` of them.
pub open spec fn good_slots(s: Seq<u8>, sl: SpecSlots, n: nat, text: bool) -> bool {
    &&& sl.len() == n
    &&& forall|i: int|
        0 <= i < sl.len() ==> (#[trigger] sl[i] matches Some((a, b)) ==> a <= b && good_pos(s, a as int, text) && good_pos(s, b as int, text))
}

/// Every way ends at a good position not before `pos`, with good slots.
pub open spec fn good_res(s: Seq<u8>, pos: usize, r: SpecRes, n: nat, text: bool) -> bool {
    forall|k: int|
        0 <= k < r.len() ==> pos <= (#[trigger] r[k]).0 && good_pos(s, r[k].0 as int, text)
            && good_slots(s, r[k].1, n, text)
}

// ---------------------------------------------------------------------------
// Every way to match stays within the haystack, on character boundaries of
// well-formed text, and never moves backwards.

pub proof fn lemma_good_res_concat(s: Seq<u8>, pos: usize, a: SpecRes, b: SpecRes, n: nat, text: bool)
    requires
        good_res(s, pos, a, n, text),
        good_res(s, pos, b, n, text),
    ensures
        good_res(s, pos, a + b, n, text),
{
    assert forall|k: int| 0 <= k < (a + b).len() implies pos <= (#[trigger] (a + b)[k]).0
        && good_pos(s, (a + b)[k].0 as int, text) && good_slots(s, (a + b)[k].1, n, text) by {
        if k < a.len() {
            assert((a + b)[k] == a[k]);
        } else {
            assert((a + b)[k] == b[k - a.len()]);
        }
    }
}

pub proof fn lemma_good_res_weaken(s: Seq<u8>, p: usize, pos: usize, r: SpecRes, n: nat, text: bool)
    requires
        good_res(s, pos, r, n, text),
        p <= pos,
    ensures
        good_res(s, p, r, n, text),
{
}

pub proof fn lemma_matches_good(ast: SAst, s: Seq<u8>, pos: usize, slots: SpecSlots, n: nat, text: bool)
    requires
        good_pos(s, pos as int, text),
        good_slots(s, slots, n, text),
        groups_below(ast, n),
    ensures
        good_res(s, pos, spec_matches(ast, s, pos, slots), n, text),
    decreases spec_node_count(ast), 0nat, 0nat, 0nat, 0nat,
{
    match ast {
        SAst::Literal(_) | SAst::Dot(_) | SAst::Class(_) => {
            if spec_next_char(s, pos as int) is Some {
                lemma_next_char_good(s, pos as int, text);
                let e = spec_next_char(s, pos as int).unwrap().1;
                assert(e <= s.len());
                assert(good_pos(s, (e as usize) as int, text));
            }
            let r = spec_matches(ast, s, pos, slots);
            assert forall|k: int| 0 <= k < r.len() implies pos <= (#[trigger] r[k]).0 && good_pos(s, r[k].0 as int, text) && good_slots(s, r[k].1, n, text) by {
                assert(r[k].1 == slots);
            }
        },
        SAst::Concat(nodes) => {
            lemma_concat_good(nodes, s, pos, slots, n, text);
        },
        SAst::Alt(nodes) => {
            lemma_alt_good(nodes, s, pos, slots, n, text);
        },
        SAst::Repeat(node, min, max, greedy) => {
            let r = spec_repeat_inner(*node, s, pos, slots, min, max, 0);
            lemma_repeat_inner_good(*node, s, pos, slots, min, max, 0, n, text);
            if greedy {
                assert forall|k: int| 0 <= k < r.reverse().len() implies pos <= (
                #[trigger] r.reverse()[k]).0 && good_pos(s, r.reverse()[k].0 as int, text) && good_slots(s, r.reverse()[k].1, n, text) by {
                    assert(r.reverse()[k] == r[r.len() - 1 - k]);
                }
            }
        },
        SAst::Group(index, node) => {
            let r = spec_matches(*node, s, pos, slots);
            lemma_matches_good(*node, s, pos, slots, n, text);
            let g = spec_set_group(r, index, pos);
            assert forall|k: int| 0 <= k < g.len() implies pos <= (#[trigger] g[k]).0 && good_pos(s, g[k].0 as int, text) && good_slots(s, g[k].1, n, text) by {
                let e = r[k];
                assert(g[k] == (e.0, e.1.update(index as int, Some((pos, e.0)))));
                assert(good_slots(s, e.1, n, text));
                let u = e.1.update(index as int, Some((pos, e.0)));
                assert forall|i: int| 0 <= i < u.len() implies (#[trigger] u[i] matches Some((a, b))
                    ==> a <= b && good_pos(s, a as int, text) && good_pos(s, b as int, text)) by {
                    if i != index {
                        assert(u[i] == e.1[i]);
                    }
                }
            }
        },
        _ => {},
    }
}

pub proof fn lemma_concat_good(nodes: Seq<SAst>, s: Seq<u8>, pos: usize, slots: SpecSlots, n: nat, text: bool)
    requires
        good_pos(s, pos as int, text),
        good_slots(s, slots, n, text),
        all_groups_below(nodes, n),
    ensures
        good_res(s, pos, spec_concat(nodes, s, pos, slots), n, text),
    decreases spec_nodes_count(nodes), 1nat, 0nat, 0nat, 0nat,
{
    if nodes.len() > 0 {
        lemma_node_count_pos(nodes[0]);
        let firsts = spec_matches(nodes[0], s, pos, slots);
        lemma_matches_good(nodes[0], s, pos, slots, n, text);
        lemma_concat_each_good(firsts, nodes.drop_first(), s, pos, n, text);
    }
}

pub proof fn lemma_concat_each_good(firsts: SpecRes, rest: Seq<SAst>, s: Seq<u8>, pos: usize, n: nat, text: bool)
    requires
        good_res(s, pos, firsts, n, text),
        all_groups_below(rest, n),
    ensures
        good_res(s, pos, spec_concat_each(firsts, rest, s), n, text),
    decreases spec_nodes_count(rest), 2nat, 0nat, 0nat, firsts.len(),
{
    if firsts.len() > 0 {
        let f = firsts[0];
        lemma_concat_good(rest, s, f.0, f.1, n, text);
        lemma_good_res_weaken(s, pos, f.0, spec_concat(rest, s, f.0, f.1), n, text);
        lemma_concat_each_good(firsts.drop_first(), rest, s, pos, n, text);
        lemma_good_res_concat(
            s,
            pos,
            spec_concat(rest, s, f.0, f.1),
            spec_concat_each(firsts.drop_first(), rest, s),
            n,
        text,
    );
    }
}

pub proof fn lemma_alt_good(nodes: Seq<SAst>, s: Seq<u8>, pos: usize, slots: SpecSlots, n: nat, text: bool)
    requires
        good_pos(s, pos as int, text),
        good_slots(s, slots, n, text),
        all_groups_below(nodes, n),
    ensures
        good_res(s, pos, spec_alt(nodes, s, pos, slots), n, text),
    decreases spec_nodes_count(nodes), 1nat, 0nat, 0nat, 0nat,
{
    if nodes.len() > 0 {
        lemma_node_count_pos(nodes[0]);
        lemma_matches_good(nodes[0], s, pos, slots, n, text);
        lemma_alt_good(nodes.drop_first(), s, pos, slots, n, text);
        lemma_good_res_concat(
            s,
            pos,
            spec_matches(nodes[0], s, pos, slots),
            spec_alt(nodes.drop_first(), s, pos, slots),
            n,
        text,
    );
    }
}

pub proof fn lemma_repeat_inner_good(
    node: SAst,
    s: Seq<u8>,
    pos: usize,
    slots: SpecSlots,
    min: usize,
    max: Option<usize>,
    count: nat,
    n: nat,
    text: bool,
)
    requires
        good_pos(s, pos as int, text),
        good_slots(s, slots, n, text),
        groups_below(node, n),
    ensures
        good_res(s, pos, spec_repeat_inner(node, s, pos, slots, min, max, count), n, text),
    decreases spec_node_count(node), 2nat, (s.len() - pos) as nat, 1nat, 0nat,
{
    let head: SpecRes = if count >= min {
        seq![(pos, slots)]
    } else {
        seq![]
    };
    assert(good_res(s, pos, head, n, text));
    if !(max matches Some(m) && count >= m) {
        let nexts = spec_matches(node, s, pos, slots);
        lemma_matches_good(node, s, pos, slots, n, text);
        lemma_repeat_each_good(node, s, pos, nexts, min, max, count, n, text);
        lemma_good_res_concat(
            s,
            pos,
            head,
            spec_repeat_each(node, s, pos, nexts, min, max, count),
            n,
        text,
    );
    }
}

pub proof fn lemma_repeat_each_good(
    node: SAst,
    s: Seq<u8>,
    pos: usize,
    nexts: SpecRes,
    min: usize,
    max: Option<usize>,
    count: nat,
    n: nat,
    text: bool,
)
    requires
        good_pos(s, pos as int, text),
        good_res(s, pos, nexts, n, text),
        groups_below(node, n),
    ensures
        good_res(s, pos, spec_repeat_each(node, s, pos, nexts, min, max, count), n, text),
    decreases spec_node_count(node), 2nat, (s.len() - pos) as nat, 0nat, nexts.len(),
{
    if nexts.len() > 0 {
        let f = nexts[0];
        let first: SpecRes = if f.0 == pos {
            if count < min {
                seq![(pos, f.1)]
            } else {
                seq![]
            }
        } else if f.0 < pos || f.0 > s.len() {
            seq![]
        } else {
            spec_repeat_inner(node, s, f.0, f.1, min, max, count + 1)
        };
        if f.0 == pos {
            assert(good_slots(s, f.1, n, text));
        } else if !(f.0 < pos || f.0 > s.len()) {
            lemma_repeat_inner_good(node, s, f.0, f.1, min, max, count + 1, n, text);
            lemma_good_res_weaken(s, pos, f.0, first, n, text);
        }
        lemma_repeat_each_good(node, s, pos, nexts.drop_first(), min, max, count, n, text);
        lemma_good_res_concat(
            s,
            pos,
            first,
            spec_repeat_each(node, s, pos, nexts.drop_first(), min, max, count),
            n,
            text,
        );
    }
}

// ---------------------------------------------------------------------------
// Wherever matching starts, every way to match ends no earlier, either at
// its start or within the text, and keeps the number of slots.

/// Every way in `r` ends no earlier than `pos`, at `pos` or within `s`, with
/// `n` slots.
pub open spec fn res_ends(s: Seq<u8>, pos: usize, r: SpecRes, n: nat) -> bool {
    forall|k: int|
        0 <= k < r.len() ==> pos <= (#[trigger] r[k]).0 && (r[k].0 <= s.len() || r[k].0 == pos)
            && r[k].1.len() == n
}

proof fn lemma_res_ends_concat(s: Seq<u8>, pos: usize, a: SpecRes, b: SpecRes, n: nat)
    requires
        res_ends(s, pos, a, n),
        res_ends(s, pos, b, n),
    ensures
        res_ends(s, pos, a + b, n),
{
    assert forall|k: int| 0 <= k < (a + b).len() implies pos <= (#[trigger] (a + b)[k]).0 && ((a
        + b)[k].0 <= s.len() || (a + b)[k].0 == pos) && (a + b)[k].1.len() == n by {
        if k < a.len() {
            assert((a + b)[k] == a[k]);
        } else {
            assert((a + b)[k] == b[k - a.len()]);
        }
    }
}

pub proof fn lemma_matches_ends(ast: SAst, s: Seq<u8>, pos: usize, slots: SpecSlots)
    requires
        s.len() <= usize::MAX,
        groups_below(ast, slots.len()),
    ensures
        res_ends(s, pos, spec_matches(ast, s, pos, slots), slots.len()),
    decreases spec_node_count(ast), 0nat, 0nat, 0nat, 0nat,
{
    let n = slots.len();
    let r = spec_matches(ast, s, pos, slots);
    match ast {
        SAst::Literal(_) | SAst::Dot(_) | SAst::Class(_) => {
            if spec_next_char(s, pos as int) is Some {
                lemma_next_char_good(s, pos as int, false);
            }
            assert forall|k: int| 0 <= k < r.len() implies pos <= (#[trigger] r[k]).0 && (r[k].0
                <= s.len() || r[k].0 == pos) && r[k].1.len() == n by {
                assert(r[k].1 == slots);
            }
        },
        SAst::Concat(nodes) => {
            lemma_concat_ends(nodes, s, pos, slots);
        },
        SAst::Alt(nodes) => {
            lemma_alt_ends(nodes, s, pos, slots);
        },
        SAst::Repeat(node, min, max, greedy) => {
            let q = spec_repeat_inner(*node, s, pos, slots, min, max, 0);
            lemma_repeat_inner_ends(*node, s, pos, slots, min, max, 0);
            if greedy {
                assert forall|k: int| 0 <= k < q.reverse().len() implies pos <= (
                #[trigger] q.reverse()[k]).0 && (q.reverse()[k].0 <= s.len() || q.reverse()[k].0
                    == pos) && q.reverse()[k].1.len() == n by {
                    assert(q.reverse()[k] == q[q.len() - 1 - k]);
                }
            }
        },
        SAst::Group(index, node) => {
            let q = spec_matches(*node, s, pos, slots);
            lemma_matches_ends(*node, s, pos, slots);
            let g = spec_set_group(q, index, pos);
            assert forall|k: int| 0 <= k < g.len() implies pos <= (#[trigger] g[k]).0 && (g[k].0
                <= s.len() || g[k].0 == pos) && g[k].1.len() == n by {
                assert(g[k] == (q[k].0, q[k].1.update(index as int, Some((pos, q[k].0)))));
            }
        },
        _ => {},
    }
}

proof fn lemma_concat_ends(nodes: Seq<SAst>, s: Seq<u8>, pos: usize, slots: SpecSlots)
    requires
        s.len() <= usize::MAX,
        all_groups_below(nodes, slots.len()),
    ensures
        res_ends(s, pos, spec_concat(nodes, s, pos, slots), slots.len()),
    decreases spec_nodes_count(nodes), 1nat, 0nat, 0nat, 0nat,
{
    if nodes.len() > 0 {
        lemma_node_count_pos(nodes[0]);
        let firsts = spec_matches(nodes[0], s, pos, slots);
        lemma_matches_ends(nodes[0], s, pos, slots);
        lemma_concat_each_ends(firsts, nodes.drop_first(), s, pos, slots.len());
    }
}

proof fn lemma_concat_each_ends(firsts: SpecRes, rest: Seq<SAst>, s: Seq<u8>, pos: usize, n: nat)
    requires
        s.len() <= usize::MAX,
        res_ends(s, pos, firsts, n),
        all_groups_below(rest, n),
    ensures
        res_ends(s, pos, spec_concat_each(firsts, rest, s), n),
    decreases spec_nodes_count(rest), 2nat, 0nat, 0nat, firsts.len(),
{
    if firsts.len() > 0 {
        let f = firsts[0];
        let c = spec_concat(rest, s, f.0, f.1);
        lemma_concat_ends(rest, s, f.0, f.1);
        assert(res_ends(s, pos, c, n));
        lemma_concat_each_ends(firsts.drop_first(), rest, s, pos, n);
        lemma_res_ends_concat(s, pos, c, spec_concat_each(firsts.drop_first(), rest, s), n);
    }
}

proof fn lemma_alt_ends(nodes: Seq<SAst>, s: Seq<u8>, pos: usize, slots: SpecSlots)
    requires
        s.len() <= usize::MAX,
        all_groups_below(nodes, slots.len()),
    ensures
        res_ends(s, pos, spec_alt(nodes, s, pos, slots), slots.len()),
    decreases spec_nodes_count(nodes), 1nat, 0nat, 0nat, 0nat,
{
    if nodes.len() > 0 {
        lemma_node_count_pos(nodes[0]);
        lemma_matches_ends(nodes[0], s, pos, slots);
        lemma_alt_ends(nodes.drop_first(), s, pos, slots);
        lemma_res_ends_concat(
            s,
            pos,
            spec_matches(nodes[0], s, pos, slots),
            spec_alt(nodes.drop_first(), s, pos, slots),
            slots.len(),
        );
    }
}

proof fn lemma_repeat_inner_ends(
    node: SAst,
    s: Seq<u8>,
    pos: usize,
    slots: SpecSlots,
    min: usize,
    max: Option<usize>,
    count: nat,
)
    requires
        s.len() <= usize::MAX,
        groups_below(node, slots.len()),
    ensures
        res_ends(s, pos, spec_repeat_inner(node, s, pos, slots, min, max, count), slots.len()),
    decreases spec_node_count(node), 2nat, (s.len() - pos) as nat, 1nat, 0nat,
{
    let head: SpecRes = if count >= min {
        seq![(pos, slots)]
    } else {
        seq![]
    };
    assert(res_ends(s, pos, head, slots.len()));
    if !(max matches Some(m) && count >= m) {
        let nexts = spec_matches(node, s, pos, slots);
        lemma_matches_ends(node, s, pos, slots);
        lemma_repeat_each_ends(node, s, pos, nexts, min, max, count, slots.len());
        lemma_res_ends_concat(
            s,
            pos,
            head,
            spec_repeat_each(node, s, pos, nexts, min, max, count),
            slots.len(),
        );
    }
}

proof fn lemma_repeat_each_ends(
    node: SAst,
    s: Seq<u8>,
    pos: usize,
    nexts: SpecRes,
    min: usize,
    max: Option<usize>,
    count: nat,
    n: nat,
)
    requires
        s.len() <= usize::MAX,
        res_ends(s, pos, nexts, n),
        groups_below(node, n),
    ensures
        res_ends(s, pos, spec_repeat_each(node, s, pos, nexts, min, max, count), n),
    decreases spec_node_count(node), 2nat, (s.len() - pos) as nat, 0nat, nexts.len(),
{
    if nexts.len() > 0 {
        let f = nexts[0];
        let first: SpecRes = if f.0 == pos {
            if count < min {
                seq![(pos, f.1)]
            } else {
                seq![]
            }
        } else if f.0 < pos || f.0 > s.len() {
            seq![]
        } else {
            spec_repeat_inner(node, s, f.0, f.1, min, max, count + 1)
        };
        if !(f.0 <= pos || f.0 > s.len()) {
            lemma_repeat_inner_ends(node, s, f.0, f.1, min, max, count + 1);
        }
        lemma_repeat_each_ends(node, s, pos, nexts.drop_first(), min, max, count, n);
        lemma_res_ends_concat(s, pos, first, spec_repeat_each(node, s, pos, nexts.drop_first(), min, max, count), n);
    }
}

// ---------------------------------------------------------------------------
// Every group a way to match records lies between where the match began and
// where that way ends.

/// Every span among the slots `sl` lies within `lo..hi`.
pub open spec fn spans_within(sl: SpecSlots, lo: int, hi: int) -> bool {
    forall|i: int|
        0 <= i < sl.len() ==> (#[trigger] sl[i] matches Some((a, b)) ==> lo <= a && a <= b && b <= hi)
}

/// Every way in `r` ends no earlier than `pos`, its spans lying within `lo`
/// and its end.
pub open spec fn res_within(r: SpecRes, lo: int, pos: int) -> bool {
    forall|k: int|
        0 <= k < r.len() ==> pos <= (#[trigger] r[k]).0 && spans_within(r[k].1, lo, r[k].0 as int)
}

proof fn lemma_res_within_concat(a: SpecRes, b: SpecRes, lo: int, pos: int)
    requires
        res_within(a, lo, pos),
        res_within(b, lo, pos),
    ensures
        res_within(a + b, lo, pos),
{
    assert forall|k: int| 0 <= k < (a + b).len() implies pos <= (#[trigger] (a + b)[k]).0
        && spans_within((a + b)[k].1, lo, (a + b)[k].0 as int) by {
        if k < a.len() {
            assert((a + b)[k] == a[k]);
        } else {
            assert((a + b)[k] == b[k - a.len()]);
        }
    }
}

proof fn lemma_spans_widen(sl: SpecSlots, lo: int, hi: int, hi2: int)
    requires
        spans_within(sl, lo, hi),
        hi <= hi2,
    ensures
        spans_within(sl, lo, hi2),
{
    assert forall|i: int| 0 <= i < sl.len() implies (#[trigger] sl[i] matches Some((a, b)) ==> lo <= a
        && a <= b && b <= hi2) by {}
}

pub proof fn lemma_matches_within(ast: SAst, s: Seq<u8>, pos: usize, slots: SpecSlots, lo: int)
    requires
        pos <= s.len() <= usize::MAX,
        0 <= lo <= pos,
        spans_within(slots, lo, pos as int),
        groups_below(ast, slots.len()),
    ensures
        res_within(spec_matches(ast, s, pos, slots), lo, pos as int),
    decreases spec_node_count(ast), 0nat, 0nat, 0nat, 0nat,
{
    let r = spec_matches(ast, s, pos, slots);
    match ast {
        SAst::Literal(_) | SAst::Dot(_) | SAst::Class(_) => {
            if spec_next_char(s, pos as int) is Some {
                lemma_next_char_good(s, pos as int, false);
                let e = spec_next_char(s, pos as int).unwrap().1;
                lemma_spans_widen(slots, lo, pos as int, e);
            }
            assert forall|k: int| 0 <= k < r.len() implies pos <= (#[trigger] r[k]).0 && spans_within(
                r[k].1,
                lo,
                r[k].0 as int,
            ) by {
                assert(r[k].1 == slots);
            }
        },
        SAst::Concat(nodes) => {
            lemma_concat_within(nodes, s, pos, slots, lo);
        },
        SAst::Alt(nodes) => {
            lemma_alt_within(nodes, s, pos, slots, lo);
        },
        SAst::Repeat(node, min, max, greedy) => {
            let q = spec_repeat_inner(*node, s, pos, slots, min, max, 0);
            lemma_repeat_inner_within(*node, s, pos, slots, min, max, 0, lo);
            if greedy {
                assert forall|k: int| 0 <= k < q.reverse().len() implies pos <= (
                #[trigger] q.reverse()[k]).0 && spans_within(q.reverse()[k].1, lo, q.reverse()[k].0 as int) by {
                    assert(q.reverse()[k] == q[q.len() - 1 - k]);
                }
            }
        },
        SAst::Group(index, node) => {
            let q = spec_matches(*node, s, pos, slots);
            lemma_matches_within(*node, s, pos, slots, lo);
            lemma_matches_good(*node, s, pos, slots, slots.len(), false);
            let g = spec_set_group(q, index, pos);
            assert forall|k: int| 0 <= k < g.len() implies pos <= (#[trigger] g[k]).0 && spans_within(
                g[k].1,
                lo,
                g[k].0 as int,
            ) by {
                let e = q[k];
                assert(good_slots(s, e.1, slots.len(), false));
                let u = e.1.update(index as int, Some((pos, e.0)));
                assert(g[k] == (e.0, u));
                assert forall|i: int| 0 <= i < u.len() implies (#[trigger] u[i] matches Some((a, b))
                    ==> lo <= a && a <= b && b <= e.0) by {
                    if i != index {
                        assert(u[i] == e.1[i]);
                    }
                }
            }
        },
        _ => {},
    }
}

proof fn lemma_concat_within(nodes: Seq<SAst>, s: Seq<u8>, pos: usize, slots: SpecSlots, lo: int)
    requires
        pos <= s.len() <= usize::MAX,
        0 <= lo <= pos,
        spans_within(slots, lo, pos as int),
        all_groups_below(nodes, slots.len()),
    ensures
        res_within(spec_concat(nodes, s, pos, slots), lo, pos as int),
    decreases spec_nodes_count(nodes), 1nat, 0nat, 0nat, 0nat,
{
    if nodes.len() > 0 {
        lemma_node_count_pos(nodes[0]);
        let firsts = spec_matches(nodes[0], s, pos, slots);
        lemma_matches_within(nodes[0], s, pos, slots, lo);
        lemma_matches_good(nodes[0], s, pos, slots, slots.len(), false);
        lemma_concat_each_within(firsts, nodes.drop_first(), s, pos, lo, slots.len());
    }
}

proof fn lemma_concat_each_within(firsts: SpecRes, rest: Seq<SAst>, s: Seq<u8>, pos: usize, lo: int, n: nat)
    requires
        pos <= s.len() <= usize::MAX,
        0 <= lo <= pos,
        res_within(firsts, lo, pos as int),
        good_res(s, pos, firsts, n, false),
        all_groups_below(rest, n),
    ensures
        res_within(spec_concat_each(firsts, rest, s), lo, pos as int),
    decreases spec_nodes_count(rest), 2nat, 0nat, 0nat, firsts.len(),
{
    if firsts.len() > 0 {
        let f = firsts[0];
        lemma_concat_within(rest, s, f.0, f.1, lo);
        lemma_concat_each_within(firsts.drop_first(), rest, s, pos, lo, n);
        lemma_res_within_concat(
            spec_concat(rest, s, f.0, f.1),
            spec_concat_each(firsts.drop_first(), rest, s),
            lo,
            pos as int,
        );
    }
}

proof fn lemma_alt_within(nodes: Seq<SAst>, s: Seq<u8>, pos: usize, slots: SpecSlots, lo: int)
    requires
        pos <= s.len() <= usize::MAX,
        0 <= lo <= pos,
        spans_within(slots, lo, pos as int),
        all_groups_below(nodes, slots.len()),
    ensures
        res_within(spec_alt(nodes, s, pos, slots), lo, pos as int),
    decreases spec_nodes_count(nodes), 1nat, 0nat, 0nat, 0nat,
{
    if nodes.len() > 0 {
        lemma_node_count_pos(nodes[0]);
        lemma_matches_within(nodes[0], s, pos, slots, lo);
        lemma_alt_within(nodes.drop_first(), s, pos, slots, lo);
        lemma_res_within_concat(
            spec_matches(nodes[0], s, pos, slots),
            spec_alt(nodes.drop_first(), s, pos, slots),
            lo,
            pos as int,
        );
    }
}

proof fn lemma_repeat_inner_within(
    node: SAst,
    s: Seq<u8>,
    pos: usize,
    slots: SpecSlots,
    min: usize,
    max: Option<usize>,
    count: nat,
    lo: int,
)
    requires
        pos <= s.len() <= usize::MAX,
        0 <= lo <= pos,
        spans_within(slots, lo, pos as int),
        groups_below(node, slots.len()),
    ensures
        res_within(spec_repeat_inner(node, s, pos, slots, min, max, count), lo, pos as int),
    decreases spec_node_count(node), 2nat, (s.len() - pos) as nat, 1nat, 0nat,
{
    let head: SpecRes = if count >= min {
        seq![(pos, slots)]
    } else {
        seq![]
    };
    if !(max matches Some(m) && count >= m) {
        let nexts = spec_matches(node, s, pos, slots);
        lemma_matches_within(node, s, pos, slots, lo);
        lemma_matches_good(node, s, pos, slots, slots.len(), false);
        lemma_repeat_each_within(node, s, pos, nexts, min, max, count, lo, slots.len());
        lemma_res_within_concat(head, spec_repeat_each(node, s, pos, nexts, min, max, count), lo, pos as int);
    }
}

proof fn lemma_repeat_each_within(
    node: SAst,
    s: Seq<u8>,
    pos: usize,
    nexts: SpecRes,
    min: usize,
    max: Option<usize>,
    count: nat,
    lo: int,
    n: nat,
)
    requires
        pos <= s.len() <= usize::MAX,
        0 <= lo <= pos,
        res_within(nexts, lo, pos as int),
        good_res(s, pos, nexts, n, false),
        groups_below(node, n),
    ensures
        res_within(spec_repeat_each(node, s, pos, nexts, min, max, count), lo, pos as int),
    decreases spec_node_count(node), 2nat, (s.len() - pos) as nat, 0nat, nexts.len(),
{
    if nexts.len() > 0 {
        let f = nexts[0];
        let first: SpecRes = if f.0 == pos {
            if count < min {
                seq![(pos, f.1)]
            } else {
                seq![]
            }
        } else if f.0 < pos || f.0 > s.len() {
            seq![]
        } else {
            spec_repeat_inner(node, s, f.0, f.1, min, max, count + 1)
        };
        if !(f.0 <= pos || f.0 > s.len()) {
            lemma_repeat_inner_within(node, s, f.0, f.1, min, max, count + 1, lo);
        }
        lemma_repeat_each_within(node, s, pos, nexts.drop_first(), min, max, count, lo, n);
        lemma_res_within_concat(
            first,
            spec_repeat_each(node, s, pos, nexts.drop_first(), min, max, count),
            lo,
            pos as int,
        );
    }
}

// ---------------------------------------------------------------------------
// Which repetitions are greedy changes the order of the ways to match, never
// where they can end.

/// `a` and `b` are the same tree but for which repetitions are greedy.
pub open spec fn same_but_greed(a: SAst, b: SAst) -> bool
    decreases a,
{
    match a {
        SAst::Concat(x) => b matches SAst::Concat(y) && all_same_but_greed(x, y),
        SAst::Alt(x) => b matches SAst::Alt(y) && all_same_but_greed(x, y),
        SAst::Repeat(n, lo, hi, _) => b matches SAst::Repeat(m, lo2, hi2, _) && lo == lo2 && hi == hi2
            && same_but_greed(*n, *m),
        SAst::Group(i, n) => b matches SAst::Group(j, m) && i == j && same_but_greed(*n, *m),
        _ => a == b,
    }
}

/// The trees of `x` and `y`, in order, are the same but for greed.
pub open spec fn all_same_but_greed(x: Seq<SAst>, y: Seq<SAst>) -> bool
    decreases x,
{
    x.len() == y.len() && (x.len() == 0 || (same_but_greed(x[0], y[0]) && all_same_but_greed(
        x.drop_first(),
        y.drop_first(),
    )))
}

pub proof fn lemma_same_but_greed_symmetric(a: SAst, b: SAst)
    requires
        same_but_greed(a, b),
    ensures
        same_but_greed(b, a),
    decreases a,
{
    match a {
        SAst::Concat(x) => {
            if let SAst::Concat(y) = b {
                lemma_all_same_but_greed_symmetric(x, y);
            }
        },
        SAst::Alt(x) => {
            if let SAst::Alt(y) = b {
                lemma_all_same_but_greed_symmetric(x, y);
            }
        },
        SAst::Repeat(n, _, _, _) => {
            if let SAst::Repeat(m, _, _, _) = b {
                lemma_same_but_greed_symmetric(*n, *m);
            }
        },
        SAst::Group(_, n) => {
            if let SAst::Group(_, m) = b {
                lemma_same_but_greed_symmetric(*n, *m);
            }
        },
        _ => {},
    }
}

pub proof fn lemma_all_same_but_greed_symmetric(x: Seq<SAst>, y: Seq<SAst>)
    requires
        all_same_but_greed(x, y),
    ensures
        all_same_but_greed(y, x),
    decreases x,
{
    if x.len() > 0 {
        lemma_same_but_greed_symmetric(x[0], y[0]);
        lemma_all_same_but_greed_symmetric(x.drop_first(), y.drop_first());
    }
}

/// Trees the same but for greed have the same size.
pub proof fn lemma_greed_node_count(a: SAst, b: SAst)
    requires
        same_but_greed(a, b),
    ensures
        spec_node_count(a) == spec_node_count(b),
    decreases a,
{
    match a {
        SAst::Concat(x) => {
            if let SAst::Concat(y) = b {
                lemma_greed_nodes_count(x, y);
            }
        },
        SAst::Alt(x) => {
            if let SAst::Alt(y) = b {
                lemma_greed_nodes_count(x, y);
            }
        },
        SAst::Repeat(n, _, _, _) => {
            if let SAst::Repeat(m, _, _, _) = b {
                lemma_greed_node_count(*n, *m);
            }
        },
        SAst::Group(_, n) => {
            if let SAst::Group(_, m) = b {
                lemma_greed_node_count(*n, *m);
            }
        },
        _ => {},
    }
}

pub proof fn lemma_greed_nodes_count(x: Seq<SAst>, y: Seq<SAst>)
    requires
        all_same_but_greed(x, y),
    ensures
        spec_nodes_count(x) == spec_nodes_count(y),
    decreases x,
{
    if x.len() > 0 {
        lemma_greed_node_count(x[0], y[0]);
        lemma_greed_nodes_count(x.drop_first(), y.drop_first());
    }
}

/// Some way in `r` ends at `e`.
pub open spec fn has_end(r: SpecRes, e: usize) -> bool {
    exists|k: int| 0 <= k < r.len() && (#[trigger] r[k]).0 == e
}

proof fn lemma_has_end_add(a: SpecRes, b: SpecRes, e: usize)
    ensures
        has_end(a + b, e) == (has_end(a, e) || has_end(b, e)),
{
    if has_end(a + b, e) {
        let k = choose|k: int| 0 <= k < (a + b).len() && (#[trigger] (a + b)[k]).0 == e;
        if k < a.len() {
            assert(a[k] == (a + b)[k]);
        } else {
            assert(b[k - a.len()] == (a + b)[k]);
        }
    }
    if has_end(a, e) {
        let k = choose|k: int| 0 <= k < a.len() && (#[trigger] a[k]).0 == e;
        assert((a + b)[k] == a[k]);
    }
    if has_end(b, e) {
        let k = choose|k: int| 0 <= k < b.len() && (#[trigger] b[k]).0 == e;
        assert((a + b)[k + a.len()] == b[k]);
    }
}

/// Where one more iteration of a repetition goes on from the way `f` it
/// matched (the part of `spec_repeat_each` for one way).
pub open spec fn spec_repeat_step(
    node: SAst,
    s: Seq<u8>,
    pos: usize,
    f: (usize, SpecSlots),
    min: usize,
    max: Option<usize>,
    count: nat,
) -> SpecRes {
    if f.0 == pos {
        if count < min {
            seq![(pos, f.1)]
        } else {
            seq![]
        }
    } else if f.0 < pos || f.0 > s.len() {
        seq![]
    } else {
        spec_repeat_inner(node, s, f.0, f.1, min, max, count + 1)
    }
}

proof fn lemma_repeat_each_has(
    node: SAst,
    s: Seq<u8>,
    pos: usize,
    nexts: SpecRes,
    min: usize,
    max: Option<usize>,
    count: nat,
    k: int,
    e: usize,
)
    requires
        0 <= k < nexts.len(),
        has_end(spec_repeat_step(node, s, pos, nexts[k], min, max, count), e),
    ensures
        has_end(spec_repeat_each(node, s, pos, nexts, min, max, count), e),
    decreases k,
{
    let rest = spec_repeat_each(node, s, pos, nexts.drop_first(), min, max, count);
    let first = spec_repeat_step(node, s, pos, nexts[0], min, max, count);
    assert(spec_repeat_each(node, s, pos, nexts, min, max, count) == first + rest);
    if k > 0 {
        assert(nexts.drop_first()[k - 1] == nexts[k]);
        lemma_repeat_each_has(node, s, pos, nexts.drop_first(), min, max, count, k - 1, e);
    }
    lemma_has_end_add(first, rest, e);
}

proof fn lemma_concat_each_has(firsts: SpecRes, rest: Seq<SAst>, s: Seq<u8>, k: int, e: usize)
    requires
        0 <= k < firsts.len(),
        has_end(spec_concat(rest, s, firsts[k].0, firsts[k].1), e),
    ensures
        has_end(spec_concat_each(firsts, rest, s), e),
    decreases k,
{
    let a = spec_concat(rest, s, firsts[0].0, firsts[0].1);
    let b = spec_concat_each(firsts.drop_first(), rest, s);
    assert(spec_concat_each(firsts, rest, s) == a + b);
    if k > 0 {
        assert(firsts.drop_first()[k - 1] == firsts[k]);
        lemma_concat_each_has(firsts.drop_first(), rest, s, k - 1, e);
    }
    lemma_has_end_add(a, b, e);
}

/// Every end of a way `a` matches at `pos` (with any slots) is an end of a
/// way `b` matches there (with any slots), for trees that differ only in
/// greed.
pub proof fn lemma_greed_ends(a: SAst, b: SAst, s: Seq<u8>, pos: usize, sl1: SpecSlots, sl2: SpecSlots)
    requires
        same_but_greed(a, b),
    ensures
        forall|e: usize|
            #[trigger] has_end(spec_matches(a, s, pos, sl1), e) ==> has_end(spec_matches(b, s, pos, sl2), e),
    decreases spec_node_count(a), 0nat, 0nat, 0nat, 0nat,
{
    let r1 = spec_matches(a, s, pos, sl1);
    let r2 = spec_matches(b, s, pos, sl2);
    match a {
        SAst::Concat(x) => {
            if let SAst::Concat(y) = b {
                lemma_greed_concat(x, y, s, pos, sl1, sl2);
                assert(r1 == spec_concat(x, s, pos, sl1));
                assert(r2 == spec_concat(y, s, pos, sl2));
            }
        },
        SAst::Alt(x) => {
            if let SAst::Alt(y) = b {
                lemma_greed_alt(x, y, s, pos, sl1, sl2);
                assert(r1 == spec_alt(x, s, pos, sl1));
                assert(r2 == spec_alt(y, s, pos, sl2));
            }
        },
        SAst::Repeat(n, lo, hi, g1) => {
            if let SAst::Repeat(m, _, _, g2) = b {
                let q1 = spec_repeat_inner(*n, s, pos, sl1, lo, hi, 0);
                let q2 = spec_repeat_inner(*m, s, pos, sl2, lo, hi, 0);
                lemma_greed_repeat_inner(*n, *m, s, pos, sl1, sl2, lo, hi, 0);
                assert forall|e: usize| #[trigger] has_end(r1, e) implies has_end(r2, e) by {
                    let k = choose|k: int| 0 <= k < r1.len() && (#[trigger] r1[k]).0 == e;
                    if g1 {
                        assert(r1[k] == q1[q1.len() - 1 - k]);
                    }
                    assert(has_end(q1, e));
                    let j = choose|j: int| 0 <= j < q2.len() && (#[trigger] q2[j]).0 == e;
                    if g2 {
                        assert(r2[q2.len() - 1 - j] == q2[j]);
                    }
                }
            }
        },
        SAst::Group(i, n) => {
            if let SAst::Group(_, m) = b {
                let q1 = spec_matches(*n, s, pos, sl1);
                let q2 = spec_matches(*m, s, pos, sl2);
                lemma_greed_ends(*n, *m, s, pos, sl1, sl2);
                assert forall|e: usize| #[trigger] has_end(r1, e) implies has_end(r2, e) by {
                    let k = choose|k: int| 0 <= k < r1.len() && (#[trigger] r1[k]).0 == e;
                    assert(r1[k].0 == q1[k].0);
                    assert(has_end(q1, e));
                    let j = choose|j: int| 0 <= j < q2.len() && (#[trigger] q2[j]).0 == e;
                    assert(r2[j].0 == q2[j].0);
                }
            }
        },
        _ => {
            assert forall|e: usize| #[trigger] has_end(r1, e) implies has_end(r2, e) by {
                let k = choose|k: int| 0 <= k < r1.len() && (#[trigger] r1[k]).0 == e;
                assert(r2.len() == r1.len());
                assert(r2[k].0 == r1[k].0);
            }
        },
    }
}

proof fn lemma_greed_concat(x: Seq<SAst>, y: Seq<SAst>, s: Seq<u8>, pos: usize, sl1: SpecSlots, sl2: SpecSlots)
    requires
        all_same_but_greed(x, y),
    ensures
        forall|e: usize|
            #[trigger] has_end(spec_concat(x, s, pos, sl1), e) ==> has_end(spec_concat(y, s, pos, sl2), e),
    decreases spec_nodes_count(x), 1nat, 0nat, 0nat, 0nat,
{
    if x.len() == 0 {
        assert forall|e: usize| #[trigger] has_end(spec_concat(x, s, pos, sl1), e) implies has_end(
            spec_concat(y, s, pos, sl2),
            e,
        ) by {
            assert(spec_concat(y, s, pos, sl2)[0].0 == pos);
        }
    } else {
        lemma_node_count_pos(x[0]);
        lemma_greed_ends(x[0], y[0], s, pos, sl1, sl2);
        lemma_greed_concat_each(
            spec_matches(x[0], s, pos, sl1),
            spec_matches(y[0], s, pos, sl2),
            x.drop_first(),
            y.drop_first(),
            s,
        );
        assert(spec_concat(x, s, pos, sl1) == spec_concat_each(
            spec_matches(x[0], s, pos, sl1),
            x.drop_first(),
            s,
        ));
        assert(spec_concat(y, s, pos, sl2) == spec_concat_each(
            spec_matches(y[0], s, pos, sl2),
            y.drop_first(),
            s,
        ));
    }
}

proof fn lemma_greed_concat_each(f1: SpecRes, f2: SpecRes, xr: Seq<SAst>, yr: Seq<SAst>, s: Seq<u8>)
    requires
        all_same_but_greed(xr, yr),
        forall|e: usize| #[trigger] has_end(f1, e) ==> has_end(f2, e),
    ensures
        forall|e: usize|
            #[trigger] has_end(spec_concat_each(f1, xr, s), e) ==> has_end(spec_concat_each(f2, yr, s), e),
    decreases spec_nodes_count(xr), 2nat, 0nat, 0nat, f1.len(),
{
    if f1.len() > 0 {
        let a = spec_concat(xr, s, f1[0].0, f1[0].1);
        let rest = f1.drop_first();
        assert(spec_concat_each(f1, xr, s) == a + spec_concat_each(rest, xr, s));
        assert forall|e: usize| #[trigger] has_end(rest, e) implies has_end(f1, e) by {
            let k = choose|k: int| 0 <= k < rest.len() && (#[trigger] rest[k]).0 == e;
            assert(f1[k + 1] == rest[k]);
        }
        lemma_greed_concat_each(rest, f2, xr, yr, s);
        assert(has_end(f1, f1[0].0));
        let k = choose|k: int| 0 <= k < f2.len() && (#[trigger] f2[k]).0 == f1[0].0;
        lemma_greed_concat(xr, yr, s, f1[0].0, f1[0].1, f2[k].1);
        assert forall|e: usize| #[trigger] has_end(spec_concat_each(f1, xr, s), e) implies has_end(
            spec_concat_each(f2, yr, s),
            e,
        ) by {
            lemma_has_end_add(a, spec_concat_each(rest, xr, s), e);
            if has_end(a, e) {
                lemma_concat_each_has(f2, yr, s, k, e);
            }
        }
    }
}

proof fn lemma_greed_alt(x: Seq<SAst>, y: Seq<SAst>, s: Seq<u8>, pos: usize, sl1: SpecSlots, sl2: SpecSlots)
    requires
        all_same_but_greed(x, y),
    ensures
        forall|e: usize|
            #[trigger] has_end(spec_alt(x, s, pos, sl1), e) ==> has_end(spec_alt(y, s, pos, sl2), e),
    decreases spec_nodes_count(x), 1nat, 0nat, 0nat, 0nat,
{
    if x.len() > 0 {
        lemma_node_count_pos(x[0]);
        lemma_greed_ends(x[0], y[0], s, pos, sl1, sl2);
        lemma_greed_alt(x.drop_first(), y.drop_first(), s, pos, sl1, sl2);
        let a1 = spec_matches(x[0], s, pos, sl1);
        let b1 = spec_alt(x.drop_first(), s, pos, sl1);
        let a2 = spec_matches(y[0], s, pos, sl2);
        let b2 = spec_alt(y.drop_first(), s, pos, sl2);
        assert forall|e: usize| #[trigger] has_end(spec_alt(x, s, pos, sl1), e) implies has_end(
            spec_alt(y, s, pos, sl2),
            e,
        ) by {
            lemma_has_end_add(a1, b1, e);
            lemma_has_end_add(a2, b2, e);
        }
    }
}

proof fn lemma_greed_repeat_inner(
    n: SAst,
    m: SAst,
    s: Seq<u8>,
    pos: usize,
    sl1: SpecSlots,
    sl2: SpecSlots,
    min: usize,
    max: Option<usize>,
    count: nat,
)
    requires
        same_but_greed(n, m),
    ensures
        forall|e: usize|
            #[trigger] has_end(spec_repeat_inner(n, s, pos, sl1, min, max, count), e) ==> has_end(
                spec_repeat_inner(m, s, pos, sl2, min, max, count),
                e,
            ),
    decreases spec_node_count(n), 2nat, (s.len() - pos) as nat, 1nat, 0nat,
{
    let h1: SpecRes = if count >= min {
        seq![(pos, sl1)]
    } else {
        seq![]
    };
    let h2: SpecRes = if count >= min {
        seq![(pos, sl2)]
    } else {
        seq![]
    };
    if max matches Some(mx) && count >= mx {
        assert forall|e: usize| #[trigger] has_end(h1, e) implies has_end(h2, e) by {
            assert(h2[0].0 == pos);
        }
    } else {
        let n1 = spec_matches(n, s, pos, sl1);
        let n2 = spec_matches(m, s, pos, sl2);
        lemma_greed_ends(n, m, s, pos, sl1, sl2);
        lemma_greed_repeat_each(n, m, s, pos, n1, n2, min, max, count);
        let e1 = spec_repeat_each(n, s, pos, n1, min, max, count);
        let e2 = spec_repeat_each(m, s, pos, n2, min, max, count);
        assert forall|e: usize| #[trigger] has_end(h1 + e1, e) implies has_end(h2 + e2, e) by {
            lemma_has_end_add(h1, e1, e);
            lemma_has_end_add(h2, e2, e);
            if has_end(h1, e) {
                assert(h2[0].0 == pos);
            }
        }
    }
}

proof fn lemma_greed_repeat_each(
    n: SAst,
    m: SAst,
    s: Seq<u8>,
    pos: usize,
    n1: SpecRes,
    n2: SpecRes,
    min: usize,
    max: Option<usize>,
    count: nat,
)
    requires
        same_but_greed(n, m),
        forall|e: usize| #[trigger] has_end(n1, e) ==> has_end(n2, e),
    ensures
        forall|e: usize|
            #[trigger] has_end(spec_repeat_each(n, s, pos, n1, min, max, count), e) ==> has_end(
                spec_repeat_each(m, s, pos, n2, min, max, count),
                e,
            ),
    decreases spec_node_count(n), 2nat, (s.len() - pos) as nat, 0nat, n1.len(),
{
    if n1.len() > 0 {
        let f = n1[0];
        let rest = n1.drop_first();
        let first = spec_repeat_step(n, s, pos, f, min, max, count);
        assert(spec_repeat_each(n, s, pos, n1, min, max, count) == first + spec_repeat_each(
            n,
            s,
            pos,
            rest,
            min,
            max,
            count,
        ));
        assert forall|e: usize| #[trigger] has_end(rest, e) implies has_end(n1, e) by {
            let k = choose|k: int| 0 <= k < rest.len() && (#[trigger] rest[k]).0 == e;
            assert(n1[k + 1] == rest[k]);
        }
        lemma_greed_repeat_each(n, m, s, pos, rest, n2, min, max, count);
        assert(has_end(n1, f.0));
        let k = choose|k: int| 0 <= k < n2.len() && (#[trigger] n2[k]).0 == f.0;
        let g = n2[k];
        let second = spec_repeat_step(m, s, pos, g, min, max, count);
        if !(f.0 <= pos || f.0 > s.len()) {
            lemma_greed_repeat_inner(n, m, s, f.0, f.1, g.1, min, max, count + 1);
        }
        assert forall|e: usize| #[trigger] has_end(first, e) implies has_end(second, e) by {
            if f.0 == pos {
                assert(second[0].0 == pos);
            }
        }
        assert forall|e: usize| #[trigger] has_end(spec_repeat_each(n, s, pos, n1, min, max, count), e) implies has_end(
            spec_repeat_each(m, s, pos, n2, min, max, count),
            e,
        ) by {
            lemma_has_end_add(first, spec_repeat_each(n, s, pos, rest, min, max, count), e);
            if has_end(first, e) {
                lemma_repeat_each_has(m, s, pos, n2, min, max, count, k, e);
            }
        }
    }
}

/// A tree that differs from `a` only in greed has a way to match wherever
/// `a` has one.
pub proof fn lemma_greed_attempt(a: SAst, b: SAst, s: Seq<u8>, cap_count: nat, q: usize)
    requires
        same_but_greed(a, b),
    ensures
        spec_attempt(a, s, cap_count, q) is Some ==> spec_attempt(b, s, cap_count, q) is Some,
{
    let init = spec_init_slots(cap_count, q);
    let r1 = spec_matches(a, s, q, init);
    lemma_greed_ends(a, b, s, q, init, init);
    if r1.len() > 0 {
        assert(has_end(r1, r1[0].0));
        assert(has_end(spec_matches(b, s, q, init), r1[0].0));
    }
}

/// A search for a tree that differs from `a` only in greed finds a match
/// wherever a search for `a` does.
pub proof fn lemma_greed_find(a: SAst, b: SAst, s: Seq<u8>, cap_count: nat, start: int, text: bool)
    requires
        same_but_greed(a, b),
    ensures
        spec_find_from(a, s, cap_count, start, text) is Some ==> spec_find_from(b, s, cap_count, start, text) is Some,
    decreases s.len() + 1 - start,
{
    if 0 <= start <= s.len() && s.len() <= usize::MAX {
        lemma_greed_attempt(a, b, s, cap_count, start as usize);
        if spec_attempt(b, s, cap_count, start as usize) is None {
            let n = spec_step(s, start, text);
            if text && start < s.len() && spec_next_char(s, start) is Some {
                lemma_next_char_good(s, start, false);
            }
            lemma_greed_find(a, b, s, cap_count, n, text);
        }
    }
}

// ---------------------------------------------------------------------------
// An empty node before the items of a concatenation changes nothing.

/// The tree the items `parts` of a concatenation make: nothing, the one
/// item, or their concatenation.
pub open spec fn concat_tree(parts: Seq<SAst>) -> SAst {
    if parts.len() == 0 {
        SAst::Empty
    } else if parts.len() == 1 {
        parts[0]
    } else {
        SAst::Concat(parts)
    }
}

/// `t2` is the concatenation of `t1`'s items with an empty node in front.
pub open spec fn empty_led(t2: SAst, t1: SAst) -> bool {
    ||| t2 == SAst::Empty && t1 == SAst::Empty
    ||| t2 matches SAst::Concat(v) && v.len() >= 2 && v[0] == SAst::Empty && t1 == concat_tree(
        v.drop_first(),
    )
}

/// `t2` is `t1` with an empty node in front of its first alternative.
pub open spec fn alt_led(t2: SAst, t1: SAst) -> bool {
    ||| empty_led(t2, t1)
    ||| t2 matches SAst::Alt(v2) && t1 matches SAst::Alt(v1) && v2.len() == v1.len() && v1.len() >= 1
        && empty_led(v2[0], v1[0]) && v2.drop_first() == v1.drop_first()
}

proof fn lemma_concat_each_nothing(f: SpecRes, s: Seq<u8>)
    ensures
        spec_concat_each(f, seq![], s) == f,
    decreases f.len(),
{
    if f.len() > 0 {
        lemma_concat_each_nothing(f.drop_first(), s);
        assert(spec_concat(seq![], s, f[0].0, f[0].1) == seq![f[0]]);
        assert(seq![f[0]] + f.drop_first() =~= f);
    }
}

/// An empty node in front changes none of the ways to match.
pub proof fn lemma_empty_led_matches(t2: SAst, t1: SAst, s: Seq<u8>, pos: usize, sl: SpecSlots)
    requires
        empty_led(t2, t1),
    ensures
        spec_matches(t2, s, pos, sl) == spec_matches(t1, s, pos, sl),
{
    if let SAst::Concat(v) = t2 {
        let rest = v.drop_first();
        assert(spec_matches(v[0], s, pos, sl) == seq![(pos, sl)]);
        assert(spec_concat(v, s, pos, sl) == spec_concat_each(seq![(pos, sl)], rest, s));
        assert(seq![(pos, sl)].drop_first() =~= Seq::<(usize, SpecSlots)>::empty());
        assert(spec_concat_each(seq![(pos, sl)], rest, s) == spec_concat(rest, s, pos, sl) + spec_concat_each(
            Seq::<(usize, SpecSlots)>::empty(),
            rest,
            s,
        ));
        assert(spec_concat(rest, s, pos, sl) + Seq::<(usize, SpecSlots)>::empty() =~= spec_concat(rest, s, pos, sl));
        if rest.len() == 1 {
            lemma_concat_each_nothing(spec_matches(rest[0], s, pos, sl), s);
            assert(rest.drop_first() =~= Seq::<SAst>::empty());
            assert(spec_concat(rest, s, pos, sl) == spec_concat_each(spec_matches(rest[0], s, pos, sl), rest.drop_first(), s));
        }
    }
}

/// An empty node in front of the first alternative changes none of the
/// ways to match.
pub proof fn lemma_alt_led_matches(t2: SAst, t1: SAst, s: Seq<u8>, pos: usize, sl: SpecSlots)
    requires
        alt_led(t2, t1),
    ensures
        spec_matches(t2, s, pos, sl) == spec_matches(t1, s, pos, sl),
{
    if empty_led(t2, t1) {
        lemma_empty_led_matches(t2, t1, s, pos, sl);
    } else if let SAst::Alt(v2) = t2 {
        if let SAst::Alt(v1) = t1 {
            lemma_empty_led_matches(v2[0], v1[0], s, pos, sl);
            assert(spec_alt(v2, s, pos, sl) == spec_matches(v2[0], s, pos, sl) + spec_alt(v2.drop_first(), s, pos, sl));
            assert(spec_alt(v1, s, pos, sl) == spec_matches(v1[0], s, pos, sl) + spec_alt(v1.drop_first(), s, pos, sl));
        }
    }
}

/// Trees with an empty node in front of the first alternative are found
/// alike: every search finds the same match, groups included.
pub proof fn lemma_alt_led_find(t2: SAst, t1: SAst, s: Seq<u8>, cap_count: nat, start: int, text: bool)
    requires
        alt_led(t2, t1),
    ensures
        spec_find_from(t2, s, cap_count, start, text) == spec_find_from(t1, s, cap_count, start, text),
    decreases s.len() + 1 - start,
{
    if 0 <= start <= s.len() && s.len() <= usize::MAX {
        lemma_alt_led_matches(t2, t1, s, start as usize, spec_init_slots(cap_count, start as usize));
        if spec_attempt(t1, s, cap_count, start as usize) is None {
            let n = spec_step(s, start, text);
            if text && start < s.len() && spec_next_char(s, start) is Some {
                lemma_next_char_good(s, start, false);
            }
            lemma_alt_led_find(t2, t1, s, cap_count, n, text);
        }
    }
}

// ---------------------------------------------------------------------------
// The interpreter.

pub proof fn lemma_res_view_push(v: Seq<(usize, Slots)>, x: (usize, Slots))
    ensures
        res_view(v.push(x)) == res_view(v).push((x.0, x.1@)),
{
    assert(res_view(v.push(x)) =~= res_view(v).push((x.0, x.1@)));
}

pub proof fn lemma_res_view_add(a: Seq<(usize, Slots)>, b: Seq<(usize, Slots)>)
    ensures
        res_view(a + b) == res_view(a) + res_view(b),
{
    assert(res_view(a + b) =~= res_view(a) + res_view(b));
}

pub proof fn lemma_nodes_count_elem(v: Seq<SAst>, i: int)
    requires
        0 <= i < v.len(),
    ensures
        spec_node_count(v[i]) <= spec_nodes_count(v),
    decreases v.len(),
{
    if i > 0 {
        lemma_nodes_count_elem(v.drop_first(), i - 1);
        assert(v.drop_first()[i - 1] == v[i]);
    }
}

pub proof fn lemma_all_groups_below_elem(v: Seq<SAst>, n: nat, i: int)
    requires
        all_groups_below(v, n),
        0 <= i < v.len(),
    ensures
        groups_below(v[i], n),
        all_groups_below(v.skip(i), n),
    decreases v.len(),
{
    if i > 0 {
        lemma_all_groups_below_elem(v.drop_first(), n, i - 1);
        assert(v.drop_first()[i - 1] == v[i]);
        assert(v.drop_first().skip(i - 1) == v.skip(i));
    } else {
        assert(v.skip(0) == v);
    }
}

/// A copy of a slot vector.
pub fn copy_slots(v: &Slots) -> (r: Slots)
    ensures
        r@ == v@,
{
    let mut r: Slots = Vec::new();
    let mut i: usize = 0;
    while i < v.len()
        invariant
            i <= v.len(),
            r@ == v@.take(i as int),
        decreases v.len() - i,
    {
        r.push(v[i]);
        i = i + 1;
        assert(r@ == v@.take(i as int));
    }
    assert(v@.take(v@.len() as int) == v@);
    r
}

/// The character at `pos` is `c`.
fn next_is(s: &[u8], pos: usize, c: char) -> (r: bool)
    ensures
        r == spec_next_is(s@, pos as int, c),
{
    match next_char(s, pos) {
        Some((x, _)) => x == c,
        None => false,
    }
}

/// The character at `pos` is an ASCII word character.
fn next_is_word(s: &[u8], pos: usize) -> (r: bool)
    ensures
        r == spec_next_is_word(s@, pos as int),
{
    match next_char(s, pos) {
        Some((x, _)) => is_word(x),
        None => false,
    }
}

/// The character ending at `pos` is an ASCII word character.
fn prev_is_word(s: &[u8], pos: usize) -> (r: bool)
    ensures
        r == spec_prev_is_word(s@, pos as int),
{
    match prev_char(s, pos) {
        Some(x) => is_word(x),
        None => false,
    }
}

/// The character ending at `pos` is a newline.
fn prev_is_newline(s: &[u8], pos: usize) -> (r: bool)
    ensures
        r == (spec_prev_char(s@, pos as int) == Some('\n')),
{
    match prev_char(s, pos) {
        Some(x) => x == '\n',
        None => false,
    }
}

/// A single way to match: ending at `end` with `slots`.
fn one(end: usize, slots: Slots) -> (r: Vec<(usize, Slots)>)
    ensures
        res_view(r@) == seq![(end, slots@)],
{
    let mut r: Vec<(usize, Slots)> = Vec::new();
    r.push((end, slots));
    proof {
        lemma_res_view_push(Seq::empty(), (end, slots));
        assert(res_view(Seq::<(usize, Slots)>::empty()) =~= Seq::empty());
    }
    r
}

/// No way to match.
fn none() -> (r: Vec<(usize, Slots)>)
    ensures
        res_view(r@) == Seq::<(usize, SpecSlots)>::empty(),
{
    let r: Vec<(usize, Slots)> = Vec::new();
    assert(res_view(r@) =~= Seq::<(usize, SpecSlots)>::empty());
    r
}

/// Returns all ways `ast` can match starting at `pos`, each as `(end_pos, slots)`,
/// in the order a backtracking search tries them.
pub fn matches(ast: &Ast, s: &[u8], pos: usize, slots: Slots) -> (r: Vec<(usize, Slots)>)
    requires
        groups_below(ast@, slots@.len()),
    ensures
        res_view(r@) == spec_matches(ast@, s@, pos, slots@),
    decreases spec_node_count(ast@), 0nat, 0nat, 0nat, 0nat,
{
    match ast {
        Ast::Empty => one(pos, slots),
        Ast::Literal(c) => match next_char(s, pos) {
            Some((x, end)) => if x == *c {
                one(end, slots)
            } else {
                none()
            },
            None => none(),
        },
        Ast::Dot { matches_new_line } => match next_char(s, pos) {
            Some((x, end)) => if x == '\n' && !*matches_new_line {
                none()
            } else {
                one(end, slots)
            },
            None => none(),
        },
        Ast::Class(class) => match next_char(s, pos) {
            Some((x, end)) => if class.matches(x) {
                one(end, slots)
            } else {
                none()
            },
            None => none(),
        },
        Ast::StartLine { multi_line, crlf } => {
            if pos == 0 || (*multi_line && prev_is_newline(s, pos) && (!*crlf || !next_is(
                s,
                pos,
                '\r',
            ))) {
                one(pos, slots)
            } else {
                none()
            }
        },
        Ast::EndLine { multi_line, crlf } => {
            if pos == s.len() || (*multi_line && next_is(s, pos, '\n')) || (*crlf && next_is(
                s,
                pos,
                '\r',
            ) && pos + 1 < s.len() && s[pos + 1] == 0x0Au8) {
                one(pos, slots)
            } else {
                none()
            }
        },
        Ast::StartText => if pos == 0 {
            one(pos, slots)
        } else {
            none()
        },
        Ast::EndText => if pos == s.len() {
            one(pos, slots)
        } else {
            none()
        },
        Ast::WordBoundary(want) => {
            let left = prev_is_word(s, pos);
            let right = next_is_word(s, pos);
            if (left != right) == *want {
                one(pos, slots)
            } else {
                none()
            }
        },
        Ast::Concat(nodes) => {
            proof {
                assert(asts_view(nodes@).skip(0) == asts_view(nodes@));
            }
            match_concat(nodes, 0, s, pos, slots)
        },
        Ast::Alt(nodes) => {
            let ghost v = asts_view(nodes@);
            proof {
                lemma_asts_view(nodes@);
                assert(v.skip(0) == v);
            }
            let mut out: Vec<(usize, Slots)> = Vec::new();
            let mut i: usize = 0;
            while i < nodes.len()
                invariant
                    i <= nodes.len(),
                    v == asts_view(nodes@),
                    v.len() == nodes@.len(),
                    forall|j: int| 0 <= j < nodes@.len() ==> #[trigger] v[j] == ast_view(&nodes@[j]),
                    ast@ == SAst::Alt(v),
                    all_groups_below(v, slots@.len()),
                    res_view(out@) + spec_alt(v.skip(i as int), s@, pos, slots@) == spec_alt(
                        v,
                        s@,
                        pos,
                        slots@,
                    ),
                decreases nodes.len() - i,
            {
                proof {
                    lemma_nodes_count_elem(v, i as int);
                    lemma_all_groups_below_elem(v, slots@.len(), i as int);
                    assert(v.skip(i as int)[0] == v[i as int]);
                    assert(v.skip(i as int).drop_first() == v.skip(i + 1));
                }
                let mut r = matches(&nodes[i], s, pos, copy_slots(&slots));
                let ghost before = out@;
                out.append(&mut r);
                proof {
                    lemma_res_view_add(before, r@);
                }
                i = i + 1;
            }
            proof {
                assert(v.skip(nodes.len() as int) =~= Seq::<SAst>::empty());
                assert(res_view(out@) + Seq::<(usize, SpecSlots)>::empty() == res_view(out@));
            }
            out
        },
        Ast::Repeat { node, min, max, greedy } => repeat(node, s, pos, slots, *min, *max, *greedy),
        Ast::Group { index, node } => {
            let ghost n = slots@.len();
            let ghost sv = slots@;
            let n_bytes = s.len();
            let r = matches(node, s, pos, slots);
            let ghost rv = res_view(r@);
            proof {
                assert(s@.len() == n_bytes);
                lemma_matches_ends(node@, s@, pos, sv);
                assert forall|k: int| 0 <= k < r@.len() implies (#[trigger] r@[k]).1@.len() == n by {
                    assert(rv[k] == (r@[k].0, r@[k].1@));
                }
            }
            let mut out: Vec<(usize, Slots)> = Vec::new();
            let mut j: usize = 0;
            while j < r.len()
                invariant
                    j <= r.len(),
                    rv == res_view(r@),
                    rv == spec_matches(node@, s@, pos, slots@),
                    *index < n,
                    forall|k: int| 0 <= k < r@.len() ==> (#[trigger] r@[k]).1@.len() == n,
                    res_view(out@) == spec_set_group(rv, *index, pos).take(j as int),
                decreases r.len() - j,
            {
                let end = r[j].0;
                let mut o = copy_slots(&r[j].1);
                o.set(*index, Some((pos, end)));
                let ghost before = out@;
                out.push((end, o));
                proof {
                    lemma_res_view_push(before, (end, o));
                    assert(res_view(out@) =~= spec_set_group(rv, *index, pos).take(j + 1));
                }
                j = j + 1;
            }
            proof {
                assert(spec_set_group(rv, *index, pos).take(r.len() as int) == spec_set_group(
                    rv,
                    *index,
                    pos,
                ));
            }
            out
        },
    }
}

/// Matches the nodes from index `i` on, left to right, threading slots through each step.
fn match_concat(nodes: &Vec<Ast>, i: usize, s: &[u8], pos: usize, slots: Slots) -> (r: Vec<
    (usize, Slots),
>)
    requires
        i <= nodes.len(),
        all_groups_below(asts_view(nodes@).skip(i as int), slots@.len()),
    ensures
        res_view(r@) == spec_concat(asts_view(nodes@).skip(i as int), s@, pos, slots@),
    decreases spec_nodes_count(asts_view(nodes@).skip(i as int)), 1nat, 0nat, 0nat, 0nat,
{
    let ghost v = asts_view(nodes@);
    let ghost n = slots@.len();
    proof {
        lemma_asts_view(nodes@);
    }
    if i == nodes.len() {
        proof {
            assert(v.skip(i as int) =~= Seq::<SAst>::empty());
        }
        return one(pos, slots);
    }
    let ghost rest = v.skip(i + 1);
    proof {
        assert(v.skip(i as int)[0] == v[i as int]);
        assert(v.skip(i as int).drop_first() == rest);
        lemma_node_count_pos(v[i as int]);
        lemma_all_groups_below_elem(v.skip(i as int), n, 0);
        assert(v.skip(i as int).skip(1) == rest);
    }
    let n_bytes = s.len();
    let firsts = matches(&nodes[i], s, pos, slots);
    let ghost fv = res_view(firsts@);
    proof {
        assert(s@.len() == n_bytes);
        lemma_matches_ends(v[i as int], s@, pos, slots@);
        assert(fv.skip(0) == fv);
    }
    let mut out: Vec<(usize, Slots)> = Vec::new();
    let mut j: usize = 0;
    while j < firsts.len()
        invariant
            j <= firsts.len(),
            i < nodes.len(),
            fv == res_view(firsts@),
            rest == asts_view(nodes@).skip(i + 1),
            spec_nodes_count(rest) < spec_nodes_count(asts_view(nodes@).skip(i as int)),
            all_groups_below(rest, n),
            res_ends(s@, pos, fv, n),
            res_view(out@) + spec_concat_each(fv.skip(j as int), rest, s@) == spec_concat_each(
                fv,
                rest,
                s@,
            ),
        decreases firsts.len() - j,
    {
        let p = firsts[j].0;
        let sl = copy_slots(&firsts[j].1);
        proof {
            assert(fv[j as int] == (p, sl@));
            assert(fv.skip(j as int)[0] == fv[j as int]);
            assert(fv.skip(j as int).drop_first() == fv.skip(j + 1));
        }
        let mut r = match_concat(nodes, i + 1, s, p, sl);
        let ghost before = out@;
        out.append(&mut r);
        proof {
            lemma_res_view_add(before, r@);
        }
        j = j + 1;
    }
    proof {
        assert(fv.skip(firsts.len() as int) =~= Seq::<(usize, SpecSlots)>::empty());
        assert(res_view(out@) + Seq::<(usize, SpecSlots)>::empty() == res_view(out@));
    }
    out
}

/// Entry point for repetition: collects results then reverses order for greedy matches.
fn repeat(
    node: &Ast,
    s: &[u8],
    pos: usize,
    slots: Slots,
    min: usize,
    max: Option<usize>,
    greedy: bool,
) -> (r: Vec<(usize, Slots)>)
    requires
        groups_below(node@, slots@.len()),
    ensures
        res_view(r@) == (if greedy {
            spec_repeat_inner(node@, s@, pos, slots@, min, max, 0).reverse()
        } else {
            spec_repeat_inner(node@, s@, pos, slots@, min, max, 0)
        }),
    decreases spec_node_count(node@), 3nat, 0nat, 0nat, 0nat,
{
    let mut out: Vec<(usize, Slots)> = Vec::new();
    proof {
        assert(res_view(out@) =~= Seq::<(usize, SpecSlots)>::empty());
    }
    repeat_inner(node, s, pos, slots, min, max, 0, &mut out);
    proof {
        assert(Seq::<(usize, SpecSlots)>::empty() + spec_repeat_inner(
            node@,
            s@,
            pos,
            slots@,
            min,
            max,
            0,
        ) == spec_repeat_inner(node@, s@, pos, slots@, min, max, 0));
    }
    if greedy {
        reverse_results(out)
    } else {
        out
    }
}

/// The results in reverse order.
fn reverse_results(v: Vec<(usize, Slots)>) -> (r: Vec<(usize, Slots)>)
    ensures
        res_view(r@) == res_view(v@).reverse(),
{
    let ghost v0 = v@;
    let mut v = v;
    let mut r: Vec<(usize, Slots)> = Vec::new();
    while v.len() > 0
        invariant
            v@ == v0.take(v@.len() as int),
            r@.len() + v@.len() == v0.len(),
            forall|j: int| 0 <= j < r@.len() ==> #[trigger] r@[j] == v0[v0.len() - 1 - j],
        decreases v.len(),
    {
        let x = v.pop().unwrap();
        r.push(x);
        assert(v@ == v0.take(v@.len() as int));
    }
    assert(res_view(r@) =~= res_view(v0).reverse());
    r
}

/// Recursive helper that enumerates all valid repetition counts into `out`.
fn repeat_inner(
    node: &Ast,
    s: &[u8],
    pos: usize,
    slots: Slots,
    min: usize,
    max: Option<usize>,
    count: usize,
    out: &mut Vec<(usize, Slots)>,
)
    requires
        groups_below(node@, slots@.len()),
        count <= pos,
    ensures
        res_view(final(out)@) == res_view(old(out)@) + spec_repeat_inner(
            node@,
            s@,
            pos,
            slots@,
            min,
            max,
            count as nat,
        ),
    decreases spec_node_count(node@), 2nat, (s@.len() - pos) as nat, 1nat, 0nat,
{
    let ghost n = slots@.len();
    let ghost sv = slots@;
    let ghost out0 = res_view(out@);
    let ghost head: SpecRes = if count >= min {
        seq![(pos, slots@)]
    } else {
        seq![]
    };
    if count >= min {
        let ghost before = out@;
        out.push((pos, copy_slots(&slots)));
        proof {
            lemma_res_view_push(before, out@.last());
            assert(out@ == before.push(out@.last()));
        }
    }
    assert(res_view(out@) == out0 + head);
    if let Some(m) = max {
        if count >= m {
            assert(spec_repeat_inner(node@, s@, pos, slots@, min, max, count as nat) == head);
            return;
        }
    }
    let n_bytes = s.len();
    let nexts = matches(node, s, pos, slots);
    let ghost nv = res_view(nexts@);
    proof {
        assert(s@.len() == n_bytes);
        lemma_matches_ends(node@, s@, pos, slots@);
        assert(nv.skip(0) == nv);
        assert(spec_repeat_inner(node@, s@, pos, sv, min, max, count as nat) == head
            + spec_repeat_each(node@, s@, pos, nv, min, max, count as nat));
    }
    let mut j: usize = 0;
    while j < nexts.len()
        invariant
            j <= nexts.len(),
            spec_repeat_inner(node@, s@, pos, sv, min, max, count as nat) == head
                + spec_repeat_each(node@, s@, pos, nv, min, max, count as nat),
            out0 == res_view(old(out)@),
            sv == slots@,
            nv == res_view(nexts@),
            nv == spec_matches(node@, s@, pos, slots@),
            res_ends(s@, pos, nv, n),
            s@.len() <= usize::MAX,
            groups_below(node@, n),
            count <= pos,
            !(max matches Some(m) && count >= m),
            res_view(out@) + spec_repeat_each(
                node@,
                s@,
                pos,
                nv.skip(j as int),
                min,
                max,
                count as nat,
            ) == out0 + head + spec_repeat_each(node@, s@, pos, nv, min, max, count as nat),
        decreases nexts.len() - j,
    {
        let next = nexts[j].0;
        proof {
            assert(nv[j as int].0 == next);
            assert(nv.skip(j as int)[0] == nv[j as int]);
            assert(nv.skip(j as int).drop_first() == nv.skip(j + 1));
        }
        let ghost before = res_view(out@);
        if next == pos {
            if count < min {
                let ghost bo = out@;
                out.push((pos, copy_slots(&nexts[j].1)));
                proof {
                    lemma_res_view_push(bo, out@.last());
                    assert(out@ == bo.push(out@.last()));
                    assert(nv[j as int].1 == out@.last().1@);
                    assert(res_view(out@) == before + seq![(pos, nv[j as int].1)]);
                }
            }
        } else {
            let sl = copy_slots(&nexts[j].1);
            repeat_inner(node, s, next, sl, min, max, count + 1, out);
            proof {
                assert(nv[j as int].1 == sl@);
            }
        }
        proof {
            let first: SpecRes = if next == pos {
                if count < min {
                    seq![(pos, nv[j as int].1)]
                } else {
                    seq![]
                }
            } else {
                spec_repeat_inner(node@, s@, next, nv[j as int].1, min, max, count as nat + 1)
            };
            assert(res_view(out@) == before + first);
            assert(spec_repeat_each(node@, s@, pos, nv.skip(j as int), min, max, count as nat) == first
                + spec_repeat_each(node@, s@, pos, nv.skip(j + 1), min, max, count as nat));
            assert(res_view(out@) + spec_repeat_each(node@, s@, pos, nv.skip(j + 1), min, max, count as nat)
                == before + spec_repeat_each(node@, s@, pos, nv.skip(j as int), min, max, count as nat));
        }
        j = j + 1;
    }
    proof {
        assert(nv.skip(nexts.len() as int) =~= Seq::<(usize, SpecSlots)>::empty());
        assert(res_view(out@) + Seq::<(usize, SpecSlots)>::empty() == res_view(out@));
        assert((out0 + head) + spec_repeat_each(node@, s@, pos, nv, min, max, count as nat) == out0
            + (head + spec_repeat_each(node@, s@, pos, nv, min, max, count as nat)));
    }
}

// ---------------------------------------------------------------------------
// Searching: the leftmost start at which the tree matches.

/// The slots a search starts with at `start`: the whole match opened at
/// `start`, every group unset.
pub open spec fn spec_init_slots(cap_count: nat, start: usize) -> SpecSlots {
    Seq::new(cap_count + 1, |i: int| if i == 0 { Some((start, start)) } else { None })
}

/// The first way to match at `start`, with the whole match recorded in slot 0.
pub open spec fn spec_attempt(ast: SAst, s: Seq<u8>, cap_count: nat, start: usize) -> Option<
    SpecSlots,
> {
    let r = spec_matches(ast, s, start, spec_init_slots(cap_count, start));
    if r.len() > 0 {
        Some(r[0].1.update(0, Some((start, r[0].0))))
    } else {
        None
    }
}

/// The next start position after `pos`: the next character boundary when
/// searching text, the next byte otherwise.
pub open spec fn spec_step(s: Seq<u8>, pos: int, text: bool) -> int {
    if text && pos < s.len() {
        match spec_next_char(s, pos) {
            Some((_, e)) => e,
            None => pos + 1,
        }
    } else {
        pos + 1
    }
}

/// The leftmost-first match at or after `start`: the slots of the first way
/// to match at the smallest start position that has one.
pub open spec fn spec_find_from(ast: SAst, s: Seq<u8>, cap_count: nat, start: int, text: bool) -> Option<
    SpecSlots,
>
    decreases s.len() + 1 - start,
{
    if start < 0 || start > s.len() || s.len() > usize::MAX {
        None
    } else {
        match spec_attempt(ast, s, cap_count, start as usize) {
            Some(sl) => Some(sl),
            None => spec_find_from(ast, s, cap_count, spec_step(s, start, text), text),
        }
    }
}

/// The character every match of `a` begins with, when the tree says so.
pub open spec fn spec_literal_prefix(a: SAst) -> Option<char>
    decreases a,
{
    match a {
        SAst::Literal(c) => Some(c),
        SAst::Concat(nodes) => if nodes.len() > 0 {
            spec_literal_prefix(nodes[0])
        } else {
            None
        },
        SAst::Group(_, node) => spec_literal_prefix(*node),
        _ => None,
    }
}

/// The first position at or after `p`, stepping as a search does, where the
/// character `c` is.
pub open spec fn spec_next_literal(s: Seq<u8>, p: int, c: char, text: bool) -> Option<int>
    decreases s.len() - p,
{
    if p < 0 || p >= s.len() {
        None
    } else if spec_next_is(s, p, c) {
        Some(p)
    } else {
        spec_next_literal(s, spec_step(s, p, text), c, text)
    }
}

/// A tree whose matches begin with `c` has none where `c` is not.
pub proof fn lemma_prefix_no_match(ast: SAst, s: Seq<u8>, p: usize, slots: SpecSlots)
    requires
        spec_literal_prefix(ast) matches Some(c) && !spec_next_is(s, p as int, c),
    ensures
        spec_matches(ast, s, p, slots).len() == 0,
    decreases ast,
{
    match ast {
        SAst::Concat(nodes) => {
            lemma_prefix_no_match(nodes[0], s, p, slots);
            let f = spec_matches(nodes[0], s, p, slots);
            assert(spec_concat(nodes, s, p, slots) == spec_concat_each(f, nodes.drop_first(), s));
            assert(spec_concat_each(f, nodes.drop_first(), s).len() == 0);
        },
        SAst::Group(_, node) => {
            lemma_prefix_no_match(*node, s, p, slots);
        },
        _ => {},
    }
}

/// Skipping to the next occurrence of the literal prefix does not change
/// what a search finds.
pub proof fn lemma_find_skip(ast: SAst, s: Seq<u8>, cap_count: nat, p: int, c: char, text: bool)
    requires
        spec_literal_prefix(ast) == Some(c),
        0 <= p,
    ensures
        spec_find_from(ast, s, cap_count, p, text) == (match spec_next_literal(s, p, c, text) {
            Some(q) => spec_find_from(ast, s, cap_count, q, text),
            None => None,
        }),
    decreases s.len() - p,
{
    if p >= s.len() {
        if p == s.len() && s.len() <= usize::MAX {
            lemma_prefix_no_match(ast, s, p as usize, spec_init_slots(cap_count, p as usize));
            assert(spec_step(s, p, text) == p + 1);
            assert(spec_attempt(ast, s, cap_count, p as usize) is None);
            assert(spec_find_from(ast, s, cap_count, p + 1, text) is None);
        }
    } else if !spec_next_is(s, p, c) {
        if s.len() <= usize::MAX {
            lemma_prefix_no_match(ast, s, p as usize, spec_init_slots(cap_count, p as usize));
            assert(spec_attempt(ast, s, cap_count, p as usize) is None);
        }
        lemma_find_skip(ast, s, cap_count, spec_step(s, p, text), c, text);
        assert(spec_next_literal(s, p, c, text) == spec_next_literal(s, spec_step(s, p, text), c, text));
    }
}

/// Returns the first literal character of `ast` if the pattern starts with one.
pub fn literal_prefix(ast: &Ast) -> (r: Option<char>)
    ensures
        r == spec_literal_prefix(ast@),
    decreases ast,
{
    match ast {
        Ast::Literal(c) => Some(*c),
        Ast::Concat(nodes) => {
            proof {
                lemma_asts_view(nodes@);
            }
            if nodes.len() > 0 {
                literal_prefix(&nodes[0])
            } else {
                None
            }
        },
        Ast::Group { node, .. } => literal_prefix(node),
        _ => None,
    }
}

/// Advances `pos` past the next character, stepping by 1 at the end or where
/// no character is encoded.
pub fn advance(s: &[u8], pos: usize) -> (r: usize)
    requires
        pos < usize::MAX,
    ensures
        r == spec_step(s@, pos as int, true),
        pos < r,
{
    if pos >= s.len() {
        pos + 1
    } else {
        match next_char(s, pos) {
            Some((_, e)) => e,
            None => pos + 1,
        }
    }
}

/// Finds the next position `>= start` (stepping as a search does) where `prefix` is.
fn next_literal_start(s: &[u8], start: usize, prefix: char, text: bool) -> (r: Option<usize>)
    requires
        s@.len() < usize::MAX,
        start <= s@.len(),
    ensures
        match r {
            Some(q) => spec_next_literal(s@, start as int, prefix, text) == Some(q as int),
            None => spec_next_literal(s@, start as int, prefix, text) is None,
        },
{
    let mut p = start;
    while p < s.len()
        invariant
            s@.len() < usize::MAX,
            p <= s@.len(),
            spec_next_literal(s@, start as int, prefix, text) == spec_next_literal(
                s@,
                p as int,
                prefix,
                text,
            ),
        decreases s.len() - p,
    {
        if next_is(s, p, prefix) {
            return Some(p);
        }
        let q = if text {
            advance(s, p)
        } else {
            p + 1
        };
        if q > s.len() {
            return None;
        }
        p = q;
    }
    None
}

/// Fresh slots for an attempt at `start`.
pub fn init_slots(cap_count: usize, start: usize) -> (r: Slots)
    requires
        cap_count < usize::MAX,
    ensures
        r@ == spec_init_slots(cap_count as nat, start),
{
    let mut r: Slots = Vec::new();
    r.push(Some((start, start)));
    let mut i: usize = 0;
    while i < cap_count
        invariant
            i <= cap_count,
            r@ == spec_init_slots(i as nat, start),
        decreases cap_count - i,
    {
        r.push(None);
        i = i + 1;
        assert(r@ =~= spec_init_slots(i as nat, start));
    }
    r
}

/// The first way to match at `start`, with the whole match recorded in slot 0.
pub fn attempt(ast: &Ast, s: &[u8], cap_count: usize, start: usize) -> (r: Option<Slots>)
    requires
        cap_count < usize::MAX,
        good_pos(s@, start as int, false),
        groups_below(ast@, cap_count as nat + 1),
    ensures
        match r {
            Some(v) => spec_attempt(ast@, s@, cap_count as nat, start) == Some(v@),
            None => spec_attempt(ast@, s@, cap_count as nat, start) is None,
        },
{
    let slots = init_slots(cap_count, start);
    proof {
        assert(good_slots(s@, slots@, slots@.len(), false));
    }
    let r = matches(ast, s, start, slots);
    if r.len() == 0 {
        return None;
    }
    let end = r[0].0;
    let mut out = copy_slots(&r[0].1);
    proof {
        assert(res_view(r@)[0] == (end, out@));
        lemma_matches_good(ast@, s@, start, spec_init_slots(cap_count as nat, start), cap_count as nat + 1, false);
        assert(good_slots(s@, out@, cap_count as nat + 1, false));
    }
    out.set(0, Some((start, end)));
    Some(out)
}

/// What a search of the text `s` from `start` finds: the leftmost-first
/// match from `start` on, when `start` is a boundary or beyond the end. From
/// inside a character there is no character to step over: without a prefix
/// hint only the match at `start` itself is found, and with one nothing.
pub open spec fn spec_find_text(ast: SAst, s: Seq<u8>, cap_count: nat, start: int, prefix: Option<char>) -> Option<
    SpecSlots,
> {
    if 0 <= start <= s.len() && !is_char_boundary(s, start) {
        if prefix is None {
            spec_attempt(ast, s, cap_count, start as usize)
        } else {
            None
        }
    } else {
        spec_find_from(ast, s, cap_count, start, true)
    }
}

/// Searches `haystack` for the leftmost match of `ast` starting no earlier than `start_at`.
///
/// Returns the populated slot vector on success, or `None` if there is no match.
/// `cap_count` must equal the number of capture groups in `ast` (not counting group 0).
/// `prefix` is an optional first-character hint used to skip ahead quickly.
/// A search from inside a character without a hint must match right there:
/// stepping over part of a character is not possible.
pub fn find(ast: &Ast, haystack: &str, cap_count: usize, start_at: usize, prefix: Option<char>) -> (r:
    Option<Slots>)
    requires
        cap_count < usize::MAX,
        haystack.spec_bytes().len() < usize::MAX,
        groups_below(ast@, cap_count as nat + 1),
        prefix is None || prefix == spec_literal_prefix(ast@),
        start_at <= haystack.spec_bytes().len() && !is_char_boundary(haystack.spec_bytes(), start_at as int)
            && prefix is None ==> spec_attempt(ast@, haystack.spec_bytes(), cap_count as nat, start_at) is Some,
    ensures
        match r {
            Some(v) => spec_find_text(ast@, haystack.spec_bytes(), cap_count as nat, start_at as int, prefix)
                == Some(v@),
            None => spec_find_text(ast@, haystack.spec_bytes(), cap_count as nat, start_at as int, prefix) is None,
        },
{
    let s = haystack.as_bytes();
    proof {
        encode_utf8_valid_utf8(haystack@);
        is_char_boundary_start_end_of_seq(s@);
    }
    if start_at < s.len() && 0x80u8 <= s[start_at] && s[start_at] <= 0xBFu8 {
        proof {
            is_char_boundary_iff_not_is_continuation_byte(s@, start_at as int);
        }
        if prefix.is_some() {
            return None;
        }
        return attempt(ast, s, cap_count, start_at);
    }
    proof {
        if start_at < s@.len() {
            is_char_boundary_iff_not_is_continuation_byte(s@, start_at as int);
        }
    }
    find_in(ast, s, cap_count, start_at, prefix, true)
}

/// The search loop shared by text and byte haystacks: in text mode starts
/// advance by characters, otherwise by bytes.
pub fn find_in(ast: &Ast, s: &[u8], cap_count: usize, start_at: usize, prefix: Option<char>, text: bool) -> (r:
    Option<Slots>)
    requires
        cap_count < usize::MAX,
        s@.len() < usize::MAX,
        groups_below(ast@, cap_count as nat + 1),
        prefix is None || prefix == spec_literal_prefix(ast@),
        text && start_at <= s@.len() ==> valid_utf8(s@) && is_char_boundary(s@, start_at as int),
    ensures
        match r {
            Some(v) => spec_find_from(ast@, s@, cap_count as nat, start_at as int, text) == Some(v@),
            None => spec_find_from(ast@, s@, cap_count as nat, start_at as int, text) is None,
        },
{
    let mut start = start_at;
    while start <= s.len()
        invariant
            cap_count < usize::MAX,
            s@.len() < usize::MAX,
            groups_below(ast@, cap_count as nat + 1),
            prefix is None || prefix == spec_literal_prefix(ast@),
            start <= s@.len() ==> good_pos(s@, start as int, text),
            spec_find_from(ast@, s@, cap_count as nat, start_at as int, text) == spec_find_from(
                ast@,
                s@,
                cap_count as nat,
                start as int,
                text,
            ),
        decreases s@.len() + 1 - start,
    {
        if let Some(c) = prefix {
            proof {
                lemma_find_skip(ast@, s@, cap_count as nat, start as int, c, text);
            }
            match next_literal_start(s, start, c, text) {
                Some(q) => {
                    proof {
                        lemma_next_literal_good(s@, start as int, c, text);
                    }
                    start = q;
                },
                None => {
                    return None;
                },
            }
        }
        match attempt(ast, s, cap_count, start) {
            Some(v) => {
                return Some(v);
            },
            None => {},
        }
        proof {
            if text && start < s@.len() {
                lemma_char_at_boundary(s@, start as int);
                lemma_next_char_good(s@, start as int, text);
            }
        }
        start = if text {
            advance(s, start)
        } else {
            start + 1
        };
    }
    None
}

/// The position a literal search stops at is one a search may start at.
pub proof fn lemma_next_literal_good(s: Seq<u8>, p: int, c: char, text: bool)
    requires
        good_pos(s, p, text),
    ensures
        spec_next_literal(s, p, c, text) matches Some(q) ==> good_pos(s, q, text) && p <= q,
    decreases s.len() - p,
{
    if 0 <= p < s.len() && !spec_next_is(s, p, c) {
        let q = spec_step(s, p, text);
        if text && spec_next_char(s, p) is Some {
            lemma_next_char_good(s, p, text);
        }
        if q <= s.len() {
            if text && spec_next_char(s, p) is None {
                // A well-formed text has a character at every boundary before its end.
                lemma_char_at_boundary(s, p);
            }
            lemma_next_literal_good(s, q, c, text);
        }
    }
}

/// What a search finds holds spans of good positions: the whole match, in
/// slot 0, starts no earlier than the search did, and every group that took
/// part spans good positions.
pub proof fn lemma_find_from_good(ast: SAst, s: Seq<u8>, cap_count: nat, start: int, text: bool)
    requires
        good_pos(s, start, text),
        groups_below(ast, cap_count + 1),
    ensures
        spec_find_from(ast, s, cap_count, start, text) matches Some(sl) ==> {
            &&& good_slots(s, sl, cap_count + 1, text)
            &&& sl[0] matches Some((a, b)) && start <= a
        },
    decreases s.len() + 1 - start,
{
    let st = start as usize;
    let init = spec_init_slots(cap_count, st);
    assert(good_slots(s, init, cap_count + 1, text));
    lemma_matches_good(ast, s, st, init, cap_count + 1, text);
    let r = spec_matches(ast, s, st, init);
    if r.len() > 0 {
        let sl = r[0].1.update(0, Some((st, r[0].0)));
        assert(good_res(s, st, r, cap_count + 1, text));
        assert(good_slots(s, r[0].1, cap_count + 1, text));
        assert(good_slots(s, sl, cap_count + 1, text)) by {
            assert forall|i: int| 0 <= i < sl.len() implies (#[trigger] sl[i] matches Some((a, b))
                ==> a <= b && good_pos(s, a as int, text) && good_pos(s, b as int, text)) by {
                if i != 0 {
                    assert(sl[i] == r[0].1[i]);
                }
            }
        }
    } else {
        let q = spec_step(s, start, text);
        if q <= s.len() {
            if text {
                lemma_char_at_boundary(s, start);
                lemma_next_char_good(s, start, text);
            }
            lemma_find_from_good(ast, s, cap_count, q, text);
        }
    }
}

} // verus!
