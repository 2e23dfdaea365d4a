use vstd::prelude::*;
use vstd::string::StringSliceAdditionalSpecFns;
use vstd::utf8::{decode_utf8, encode_utf8_decode_utf8};
use crate::grammar::sat;
use crate::regex::api::{lemma_group_index_range, spec_group_index, Captures};
use crate::text::{push_char, push_str, str_chars};
use crate::unicode::spec_is_ascii_digit;

verus! {

// Replacement templates: `$N` and `${N}` stand for the text of group `N`,
// `${name}` for the text of the group called `name`, and `$$` for a `$`.
// Any other `$` stands for itself.

/// The text of group `i` of a match in `hay` whose group spans are `slots`;
/// empty when the group did not take part.
pub open spec fn spec_group_text(hay: Seq<u8>, slots: Seq<Option<(usize, usize)>>, i: int) -> Seq<
    char,
> {
    if 0 <= i < slots.len() {
        match slots[i] {
            Some((a, b)) => decode_utf8(hay.subrange(a as int, b as int)),
            None => seq![],
        }
    } else {
        seq![]
    }
}

/// The value of the decimal digits `ds`, saturating at `usize::MAX`.
pub open spec fn spec_decimal(ds: Seq<char>) -> usize
    decreases ds.len(),
{
    if ds.len() == 0 {
        0
    } else {
        sat(spec_decimal(ds.drop_last()) * 10 + (ds.last() as u32 - '0' as u32))
    }
}

/// Every character of `ds` is an ASCII digit.
pub open spec fn all_digits(ds: Seq<char>) -> bool {
    forall|k: int| 0 <= k < ds.len() ==> spec_is_ascii_digit(#[trigger] ds[k])
}

/// The first position at or after `k` that does not hold an ASCII digit.
pub open spec fn spec_digits_end(t: Seq<char>, k: int) -> int
    decreases t.len() - k,
{
    if k < t.len() && spec_is_ascii_digit(t[k]) {
        spec_digits_end(t, k + 1)
    } else {
        k
    }
}

/// The first position at or after `k` that holds `}`.
pub open spec fn spec_find_close(t: Seq<char>, k: int) -> Option<int>
    decreases t.len() - k,
{
    if k >= t.len() {
        None
    } else if t[k] == '}' {
        Some(k)
    } else {
        spec_find_close(t, k + 1)
    }
}

/// The text `${r}` stands for: group number `r` when it is all digits,
/// otherwise the group called `r`.
pub open spec fn spec_ref_text(
    r: Seq<char>,
    hay: Seq<u8>,
    slots: Seq<Option<(usize, usize)>>,
    names: Seq<Option<Seq<char>>>,
) -> Seq<char> {
    if r.len() > 0 && all_digits(r) {
        spec_group_text(hay, slots, spec_decimal(r) as int)
    } else {
        match spec_group_index(names, r) {
            Some(i) => spec_group_text(hay, slots, i),
            None => seq![],
        }
    }
}

/// The expansion of the template `t` from position `i` on.
pub open spec fn spec_expand_from(
    t: Seq<char>,
    i: int,
    hay: Seq<u8>,
    slots: Seq<Option<(usize, usize)>>,
    names: Seq<Option<Seq<char>>>,
) -> Seq<char>
    decreases t.len() - i,
{
    if i < 0 || i >= t.len() {
        seq![]
    } else if t[i] != '$' {
        seq![t[i]] + spec_expand_from(t, i + 1, hay, slots, names)
    } else if i + 1 < t.len() && t[i + 1] == '$' {
        seq!['$'] + spec_expand_from(t, i + 2, hay, slots, names)
    } else if i + 1 < t.len() && t[i + 1] == '{' && spec_find_close(t, i + 2) is Some {
        let j = spec_find_close(t, i + 2).unwrap();
        if j < t.len() && j >= i + 2 {
            spec_ref_text(t.subrange(i + 2, j), hay, slots, names) + spec_expand_from(
                t,
                j + 1,
                hay,
                slots,
                names,
            )
        } else {
            seq![]
        }
    } else if spec_digits_end(t, i + 1) > i + 1 {
        let e = spec_digits_end(t, i + 1);
        if e <= t.len() {
            spec_group_text(hay, slots, spec_decimal(t.subrange(i + 1, e)) as int)
                + spec_expand_from(t, e, hay, slots, names)
        } else {
            seq![]
        }
    } else {
        seq!['$'] + spec_expand_from(t, i + 1, hay, slots, names)
    }
}

/// The expansion of the template `t` for a match in `hay` with group spans
/// `slots` and group names `names`.
pub open spec fn spec_expand(
    t: Seq<char>,
    hay: Seq<u8>,
    slots: Seq<Option<(usize, usize)>>,
    names: Seq<Option<Seq<char>>>,
) -> Seq<char> {
    spec_expand_from(t, 0, hay, slots, names)
}

proof fn lemma_digits_end(t: Seq<char>, k: int)
    requires
        0 <= k <= t.len(),
    ensures
        k <= spec_digits_end(t, k) <= t.len(),
        all_digits(t.subrange(k, spec_digits_end(t, k))),
    decreases t.len() - k,
{
    if k < t.len() && spec_is_ascii_digit(t[k]) {
        lemma_digits_end(t, k + 1);
        let e = spec_digits_end(t, k);
        assert forall|m: int| 0 <= m < e - k implies spec_is_ascii_digit(
            #[trigger] t.subrange(k, e)[m],
        ) by {
            if m > 0 {
                assert(t.subrange(k, e)[m] == t.subrange(k + 1, e)[m - 1]);
            }
        }
    }
}

proof fn lemma_find_close(t: Seq<char>, k: int)
    requires
        0 <= k,
    ensures
        spec_find_close(t, k) matches Some(j) ==> k <= j < t.len() && t[j] == '}',
    decreases t.len() - k,
{
    if k < t.len() && t[k] != '}' {
        lemma_find_close(t, k + 1);
    }
}

/// The value of the ASCII digits `t[a..b]`.
fn decimal(t: &Vec<char>, a: usize, b: usize) -> (r: usize)
    requires
        a <= b <= t@.len(),
        all_digits(t@.subrange(a as int, b as int)),
    ensures
        r == spec_decimal(t@.subrange(a as int, b as int)),
{
    let mut n: usize = 0;
    let mut k = a;
    while k < b
        invariant
            a <= k <= b <= t@.len(),
            all_digits(t@.subrange(a as int, b as int)),
            n == spec_decimal(t@.subrange(a as int, k as int)),
        decreases b - k,
    {
        let c = t[k];
        assert(t@.subrange(a as int, b as int)[k - a] == c);
        let d: u32 = (c as u32) - ('0' as u32);
        let m: usize = if n > usize::MAX / 10 {
            usize::MAX
        } else {
            n * 10
        };
        proof {
            assert(n > usize::MAX / 10 <==> n * 10 > usize::MAX) by (nonlinear_arith);
            let ds = t@.subrange(a as int, k + 1);
            assert(ds.drop_last() =~= t@.subrange(a as int, k as int));
            assert(ds.last() == c);
        }
        n = m.saturating_add(d as usize);
        k = k + 1;
    }
    n
}

/// Appends the text of group `i` of `caps`, if it took part.
fn push_group(caps: &Captures<'_>, i: usize, dst: &mut String)
    ensures
        final(dst)@ == old(dst)@ + spec_group_text(caps.spec_hay(), caps.spec_slots(), i as int),
{
    match caps.get(i) {
        Some(m) => {
            let s = m.as_str();
            proof {
                encode_utf8_decode_utf8(s@);
            }
            push_str(dst, s);
        },
        None => {},
    }
}

/// Appends what `${r}` stands for, `r` being `t[a..b]`.
fn push_ref(caps: &Captures<'_>, t: &Vec<char>, a: usize, b: usize, dst: &mut String)
    requires
        a <= b <= t@.len(),
    ensures
        final(dst)@ == old(dst)@ + spec_ref_text(
            t@.subrange(a as int, b as int),
            caps.spec_hay(),
            caps.spec_slots(),
            caps.spec_names(),
        ),
{
    let mut digits = a < b;
    let mut k = a;
    while k < b
        invariant
            a <= k <= b <= t@.len(),
            digits == (a < b && all_digits(t@.subrange(a as int, k as int))),
        decreases b - k,
    {
        let c = t[k];
        if !('0' <= c && c <= '9') {
            digits = false;
        }
        proof {
            let s1 = t@.subrange(a as int, k + 1);
            assert(s1.drop_last() =~= t@.subrange(a as int, k as int));
            assert(s1[k - a] == c);
            if digits {
                assert forall|m: int| 0 <= m < s1.len() implies spec_is_ascii_digit(
                    #[trigger] s1[m],
                ) by {
                    if m < k - a {
                        assert(s1[m] == t@.subrange(a as int, k as int)[m]);
                    }
                }
            } else if a < b && spec_is_ascii_digit(c) {
                assert(!all_digits(t@.subrange(a as int, k as int)));
                let w = choose|m: int|
                    0 <= m < k - a && !spec_is_ascii_digit(#[trigger] t@.subrange(a as int, k as int)[m]);
                assert(s1[w] == t@.subrange(a as int, k as int)[w]);
            }
        }
        k = k + 1;
    }
    if digits {
        let n = decimal(t, a, b);
        push_group(caps, n, dst);
        return;
    }
    let mut name = String::new();
    let mut k = a;
    while k < b
        invariant
            a <= k <= b <= t@.len(),
            name@ == t@.subrange(a as int, k as int),
        decreases b - k,
    {
        push_char(&mut name, t[k]);
        k = k + 1;
        assert(name@ =~= t@.subrange(a as int, k as int));
    }
    proof {
        lemma_group_index_range(caps.spec_names(), name@);
    }
    match caps.name(name.as_str()) {
        Some(m) => {
            let s = m.as_str();
            proof {
                encode_utf8_decode_utf8(s@);
            }
            push_str(dst, s);
        },
        None => {},
    }
}

/// Expands `$N`, `${N}`, `${name}` and `$$` in `template` using `caps` and
/// appends the result to `dst`.
pub fn expand(template: &str, caps: &Captures<'_>, dst: &mut String)
    ensures
        final(dst)@ == old(dst)@ + spec_expand(
            template@,
            caps.spec_hay(),
            caps.spec_slots(),
            caps.spec_names(),
        ),
{
    let t = str_chars(template);
    let ghost hay = caps.spec_hay();
    let ghost slots = caps.spec_slots();
    let ghost names = caps.spec_names();
    let ghost d0 = dst@;
    let mut i: usize = 0;
    while i < t.len()
        invariant
            t@ == template@,
            i <= t@.len(),
            d0 + spec_expand(t@, hay, slots, names) == dst@ + spec_expand_from(
                t@,
                i as int,
                hay,
                slots,
                names,
            ),
            hay == caps.spec_hay(),
            slots == caps.spec_slots(),
            names == caps.spec_names(),
        decreases t.len() - i,
    {
        let ghost before = dst@;
        let c = t[i];
        if c != '$' {
            push_char(dst, c);
            i = i + 1;
            proof {
                assert(dst@ == before + seq![c]);
            }
        } else if i + 1 < t.len() && t[i + 1] == '$' {
            push_char(dst, '$');
            i = i + 2;
        } else {
            let close = if i + 1 < t.len() && t[i + 1] == '{' {
                find_close(&t, i + 2)
            } else {
                None
            };
            match close {
                Some(j) => {
                    proof {
                        lemma_find_close(t@, i + 2);
                    }
                    push_ref(caps, &t, i + 2, j, dst);
                    i = j + 1;
                },
                None => {
                    let e = digits_end(&t, i + 1);
                    proof {
                        lemma_digits_end(t@, i + 1);
                    }
                    if e > i + 1 {
                        let n = decimal(&t, i + 1, e);
                        push_group(caps, n, dst);
                        i = e;
                    } else {
                        push_char(dst, '$');
                        i = i + 1;
                    }
                },
            }
        }
    }
}

/// The first position at or after `k` holding `}`.
fn find_close(t: &Vec<char>, k: usize) -> (r: Option<usize>)
    requires
        k <= t@.len(),
    ensures
        match r {
            Some(j) => spec_find_close(t@, k as int) == Some(j as int),
            None => spec_find_close(t@, k as int) is None,
        },
{
    let mut j = k;
    while j < t.len()
        invariant
            k <= j <= t@.len(),
            spec_find_close(t@, k as int) == spec_find_close(t@, j as int),
        decreases t.len() - j,
    {
        if t[j] == '}' {
            return Some(j);
        }
        j = j + 1;
    }
    None
}

/// The first position at or after `k` that does not hold an ASCII digit.
fn digits_end(t: &Vec<char>, k: usize) -> (r: usize)
    requires
        k <= t@.len(),
    ensures
        r == spec_digits_end(t@, k as int),
{
    let mut j = k;
    while j < t.len() && '0' <= t[j] && t[j] <= '9'
        invariant
            k <= j <= t@.len(),
            spec_digits_end(t@, k as int) == spec_digits_end(t@, j as int),
        decreases t.len() - j,
    {
        j = j + 1;
    }
    j
}

proof fn lemma_expand_plain_from(
    t: Seq<char>,
    i: int,
    hay: Seq<u8>,
    slots: Seq<Option<(usize, usize)>>,
    names: Seq<Option<Seq<char>>>,
)
    requires
        0 <= i <= t.len(),
        forall|k: int| 0 <= k < t.len() ==> t[k] != '$',
    ensures
        spec_expand_from(t, i, hay, slots, names) == t.subrange(i, t.len() as int),
    decreases t.len() - i,
{
    if i < t.len() {
        lemma_expand_plain_from(t, i + 1, hay, slots, names);
        assert(t.subrange(i, t.len() as int) =~= seq![t[i]] + t.subrange(i + 1, t.len() as int));
    }
}

/// A template without `$` stands for itself: replacing with it puts its
/// text in place of each match, whatever the match.
pub proof fn law_expand_plain(
    t: Seq<char>,
    hay: Seq<u8>,
    slots: Seq<Option<(usize, usize)>>,
    names: Seq<Option<Seq<char>>>,
)
    requires
        forall|k: int| 0 <= k < t.len() ==> t[k] != '$',
    ensures
        spec_expand(t, hay, slots, names) == t,
{
    lemma_expand_plain_from(t, 0, hay, slots, names);
    assert(t.subrange(0, t.len() as int) =~= t);
}

} // verus!
