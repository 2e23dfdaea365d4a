use vstd::prelude::*;
use vstd::utf8::encode_utf8;
use crate::bytes::api::Captures;
use crate::grammar::sat;
use crate::parser::{name_view, names_view};
use vstd::string::StringSliceAdditionalSpecFns;

verus! {

// Replacement templates over bytes: `$N` and `${N}` stand for the bytes of
// group `N`, `${name}` for those of the group called `name`, and `$$` for a
// `$`. Any other `$` stands for itself.

/// The bytes of group `i` of a match in `hay` whose group spans are `slots`;
/// empty when the group did not take part.
pub open spec fn spec_group_bytes(hay: Seq<u8>, slots: Seq<Option<(usize, usize)>>, i: int) -> Seq<
    u8,
> {
    if 0 <= i < slots.len() {
        match slots[i] {
            Some((a, b)) => hay.subrange(a as int, b as int),
            None => seq![],
        }
    } else {
        seq![]
    }
}

/// `b` is an ASCII digit.
pub open spec fn is_digit_byte(b: u8) -> bool {
    48 <= b <= 57
}

/// The value of the decimal digits `ds`, saturating at `usize::MAX`.
pub open spec fn spec_decimal_bytes(ds: Seq<u8>) -> usize
    decreases ds.len(),
{
    if ds.len() == 0 {
        0
    } else {
        sat(spec_decimal_bytes(ds.drop_last()) * 10 + (ds.last() - 48))
    }
}

/// Every byte of `ds` is an ASCII digit.
pub open spec fn all_digit_bytes(ds: Seq<u8>) -> bool {
    forall|k: int| 0 <= k < ds.len() ==> is_digit_byte(#[trigger] ds[k])
}

/// The first position at or after `k` that does not hold an ASCII digit.
pub open spec fn spec_digit_bytes_end(t: Seq<u8>, k: int) -> int
    decreases t.len() - k,
{
    if k < t.len() && is_digit_byte(t[k]) {
        spec_digit_bytes_end(t, k + 1)
    } else {
        k
    }
}

/// The first position at or after `k` that holds `}`.
pub open spec fn spec_find_close_byte(t: Seq<u8>, k: int) -> Option<int>
    decreases t.len() - k,
{
    if k >= t.len() {
        None
    } else if t[k] == 125 {
        Some(k)
    } else {
        spec_find_close_byte(t, k + 1)
    }
}

/// The group whose name is encoded by `name`: one more than the position of
/// the first such group in `names`.
pub open spec fn spec_group_index_bytes(names: Seq<Option<Seq<char>>>, name: Seq<u8>) -> Option<int>
    decreases names.len(),
{
    if names.len() == 0 {
        None
    } else if (names.last() matches Some(n) && encode_utf8(n) == name) && spec_group_index_bytes(
        names.drop_last(),
        name,
    ) is None {
        Some(names.len() as int)
    } else {
        spec_group_index_bytes(names.drop_last(), name)
    }
}

/// The bytes `${r}` stands for: group number `r` when it is all digits,
/// otherwise the group whose name is encoded by `r`.
pub open spec fn spec_ref_bytes(
    r: Seq<u8>,
    hay: Seq<u8>,
    slots: Seq<Option<(usize, usize)>>,
    names: Seq<Option<Seq<char>>>,
) -> Seq<u8> {
    if r.len() > 0 && all_digit_bytes(r) {
        spec_group_bytes(hay, slots, spec_decimal_bytes(r) as int)
    } else {
        match spec_group_index_bytes(names, r) {
            Some(i) => spec_group_bytes(hay, slots, i),
            None => seq![],
        }
    }
}

/// The expansion of the template `t` from position `i` on.
pub open spec fn spec_expand_bytes_from(
    t: Seq<u8>,
    i: int,
    hay: Seq<u8>,
    slots: Seq<Option<(usize, usize)>>,
    names: Seq<Option<Seq<char>>>,
) -> Seq<u8>
    decreases t.len() - i,
{
    if i < 0 || i >= t.len() {
        seq![]
    } else if t[i] != 36 {
        seq![t[i]] + spec_expand_bytes_from(t, i + 1, hay, slots, names)
    } else if i + 1 < t.len() && t[i + 1] == 36 {
        seq![36u8] + spec_expand_bytes_from(t, i + 2, hay, slots, names)
    } else if i + 1 < t.len() && t[i + 1] == 123 && spec_find_close_byte(t, i + 2) is Some {
        let j = spec_find_close_byte(t, i + 2).unwrap();
        if j < t.len() && j >= i + 2 {
            spec_ref_bytes(t.subrange(i + 2, j), hay, slots, names) + spec_expand_bytes_from(
                t,
                j + 1,
                hay,
                slots,
                names,
            )
        } else {
            seq![]
        }
    } else if spec_digit_bytes_end(t, i + 1) > i + 1 {
        let e = spec_digit_bytes_end(t, i + 1);
        if e <= t.len() {
            spec_group_bytes(hay, slots, spec_decimal_bytes(t.subrange(i + 1, e)) as int)
                + spec_expand_bytes_from(t, e, hay, slots, names)
        } else {
            seq![]
        }
    } else {
        seq![36u8] + spec_expand_bytes_from(t, i + 1, hay, slots, names)
    }
}

/// The expansion of the template `t` for a match in `hay` with group spans
/// `slots` and group names `names`.
pub open spec fn spec_expand_bytes(
    t: Seq<u8>,
    hay: Seq<u8>,
    slots: Seq<Option<(usize, usize)>>,
    names: Seq<Option<Seq<char>>>,
) -> Seq<u8> {
    spec_expand_bytes_from(t, 0, hay, slots, names)
}

proof fn lemma_digit_bytes_end(t: Seq<u8>, k: int)
    requires
        0 <= k <= t.len(),
    ensures
        k <= spec_digit_bytes_end(t, k) <= t.len(),
        all_digit_bytes(t.subrange(k, spec_digit_bytes_end(t, k))),
    decreases t.len() - k,
{
    if k < t.len() && is_digit_byte(t[k]) {
        lemma_digit_bytes_end(t, k + 1);
        let e = spec_digit_bytes_end(t, k);
        assert forall|m: int| 0 <= m < e - k implies is_digit_byte(#[trigger] t.subrange(k, e)[m]) by {
            if m > 0 {
                assert(t.subrange(k, e)[m] == t.subrange(k + 1, e)[m - 1]);
            }
        }
    }
}

proof fn lemma_find_close_byte(t: Seq<u8>, k: int)
    requires
        0 <= k,
    ensures
        spec_find_close_byte(t, k) matches Some(j) ==> k <= j < t.len() && t[j] == 125,
    decreases t.len() - k,
{
    if k < t.len() && t[k] != 125 {
        lemma_find_close_byte(t, k + 1);
    }
}

/// The value of the ASCII digits `t[a..b]`.
fn decimal_bytes(t: &[u8], a: usize, b: usize) -> (r: usize)
    requires
        a <= b <= t@.len(),
        all_digit_bytes(t@.subrange(a as int, b as int)),
    ensures
        r == spec_decimal_bytes(t@.subrange(a as int, b as int)),
{
    let mut n: usize = 0;
    let mut k = a;
    while k < b
        invariant
            a <= k <= b <= t@.len(),
            all_digit_bytes(t@.subrange(a as int, b as int)),
            n == spec_decimal_bytes(t@.subrange(a as int, k as int)),
        decreases b - k,
    {
        let c = t[k];
        assert(t@.subrange(a as int, b as int)[k - a] == c);
        let d: u8 = c - 48;
        let m: usize = if n > usize::MAX / 10 {
            usize::MAX
        } else {
            n * 10
        };
        proof {
            assert(n > usize::MAX / 10 <==> n * 10 > usize::MAX) by (nonlinear_arith);
            let ds = t@.subrange(a as int, k + 1);
            assert(ds.drop_last() =~= t@.subrange(a as int, k as int));
            assert(ds.last() == c);
        }
        n = m.saturating_add(d as usize);
        k = k + 1;
    }
    n
}

/// Appends the bytes of group `i` of `caps`, if it took part.
fn push_group_bytes(caps: &Captures<'_>, i: usize, dst: &mut Vec<u8>)
    ensures
        final(dst)@ == old(dst)@ + spec_group_bytes(caps.spec_hay(), caps.spec_slots(), i as int),
{
    match caps.get(i) {
        Some(m) => {
            dst.extend_from_slice(m.as_bytes());
        },
        None => {},
    }
}

/// Appends what `${r}` stands for, `r` being `t[a..b]`.
fn push_ref_bytes(caps: &Captures<'_>, t: &[u8], a: usize, b: usize, dst: &mut Vec<u8>)
    requires
        a <= b <= t@.len(),
    ensures
        final(dst)@ == old(dst)@ + spec_ref_bytes(
            t@.subrange(a as int, b as int),
            caps.spec_hay(),
            caps.spec_slots(),
            caps.spec_names(),
        ),
{
    let mut digits = a < b;
    let mut k = a;
    while k < b
        invariant
            a <= k <= b <= t@.len(),
            digits == (a < b && all_digit_bytes(t@.subrange(a as int, k as int))),
        decreases b - k,
    {
        let c = t[k];
        if !(48 <= c && c <= 57) {
            digits = false;
        }
        proof {
            let s1 = t@.subrange(a as int, k + 1);
            assert(s1.drop_last() =~= t@.subrange(a as int, k as int));
            assert(s1[k - a] == c);
            if digits {
                assert forall|m: int| 0 <= m < s1.len() implies is_digit_byte(#[trigger] s1[m]) by {
                    if m < k - a {
                        assert(s1[m] == t@.subrange(a as int, k as int)[m]);
                    }
                }
            } else if a < b && is_digit_byte(c) {
                assert(!all_digit_bytes(t@.subrange(a as int, k as int)));
                let w = choose|m: int|
                    0 <= m < k - a && !is_digit_byte(#[trigger] t@.subrange(a as int, k as int)[m]);
                assert(s1[w] == t@.subrange(a as int, k as int)[w]);
            }
        }
        k = k + 1;
    }
    if digits {
        let n = decimal_bytes(t, a, b);
        push_group_bytes(caps, n, dst);
        return;
    }
    let (_, rest) = t.split_at(a);
    let (name, _) = rest.split_at(b - a);
    assert(name@ =~= t@.subrange(a as int, b as int));
    proof {
        lemma_group_index_bytes_range(caps.spec_names(), name@);
    }
    match caps.name_bytes(name) {
        Some(m) => {
            dst.extend_from_slice(m.as_bytes());
        },
        None => {},
    }
}

/// Expands `$N`, `${N}`, `${name}` and `$$` in `template` using `caps` and
/// appends the result to `dst`.
pub fn expand_bytes(template: &[u8], caps: &Captures<'_>, dst: &mut Vec<u8>)
    ensures
        final(dst)@ == old(dst)@ + spec_expand_bytes(
            template@,
            caps.spec_hay(),
            caps.spec_slots(),
            caps.spec_names(),
        ),
{
    let t = template;
    let ghost hay = caps.spec_hay();
    let ghost slots = caps.spec_slots();
    let ghost names = caps.spec_names();
    let ghost d0 = dst@;
    let mut i: usize = 0;
    while i < t.len()
        invariant
            i <= t@.len(),
            d0 + spec_expand_bytes(t@, hay, slots, names) == dst@ + spec_expand_bytes_from(
                t@,
                i as int,
                hay,
                slots,
                names,
            ),
            hay == caps.spec_hay(),
            slots == caps.spec_slots(),
            names == caps.spec_names(),
        decreases t.len() - i,
    {
        let c = t[i];
        if c != 36 {
            dst.push(c);
            i = i + 1;
        } else if i + 1 < t.len() && t[i + 1] == 36 {
            dst.push(36);
            i = i + 2;
        } else {
            let close = if i + 1 < t.len() && t[i + 1] == 123 {
                find_close_byte(t, i + 2)
            } else {
                None
            };
            match close {
                Some(j) => {
                    proof {
                        lemma_find_close_byte(t@, i + 2);
                    }
                    push_ref_bytes(caps, t, i + 2, j, dst);
                    i = j + 1;
                },
                None => {
                    let e = digit_bytes_end(t, i + 1);
                    proof {
                        lemma_digit_bytes_end(t@, i + 1);
                    }
                    if e > i + 1 {
                        let n = decimal_bytes(t, i + 1, e);
                        push_group_bytes(caps, n, dst);
                        i = e;
                    } else {
                        dst.push(36);
                        i = i + 1;
                    }
                },
            }
        }
    }
}

/// The first position at or after `k` holding `}`.
fn find_close_byte(t: &[u8], k: usize) -> (r: Option<usize>)
    requires
        k <= t@.len(),
    ensures
        match r {
            Some(j) => spec_find_close_byte(t@, k as int) == Some(j as int),
            None => spec_find_close_byte(t@, k as int) is None,
        },
{
    let mut j = k;
    while j < t.len()
        invariant
            k <= j <= t@.len(),
            spec_find_close_byte(t@, k as int) == spec_find_close_byte(t@, j as int),
        decreases t.len() - j,
    {
        if t[j] == 125 {
            return Some(j);
        }
        j = j + 1;
    }
    None
}

/// The first position at or after `k` that does not hold an ASCII digit.
fn digit_bytes_end(t: &[u8], k: usize) -> (r: usize)
    requires
        k <= t@.len(),
    ensures
        r == spec_digit_bytes_end(t@, k as int),
{
    let mut j = k;
    while j < t.len() && 48 <= t[j] && t[j] <= 57
        invariant
            k <= j <= t@.len(),
            spec_digit_bytes_end(t@, k as int) == spec_digit_bytes_end(t@, j as int),
        decreases t.len() - j,
    {
        j = j + 1;
    }
    j
}

/// A group found by name is one of the named groups `1..=names.len()`.
pub proof fn lemma_group_index_bytes_range(names: Seq<Option<Seq<char>>>, name: Seq<u8>)
    ensures
        spec_group_index_bytes(names, name) matches Some(i) ==> 1 <= i <= names.len(),
    decreases names.len(),
{
    if names.len() > 0 {
        lemma_group_index_bytes_range(names.drop_last(), name);
    }
}

/// Once a prefix of the names holds the name, the whole list gives the same group.
proof fn lemma_group_index_bytes_prefix(names: Seq<Option<Seq<char>>>, name: Seq<u8>, n: int)
    requires
        0 <= n <= names.len(),
        spec_group_index_bytes(names.take(n), name) is Some,
    ensures
        spec_group_index_bytes(names, name) == spec_group_index_bytes(names.take(n), name),
    decreases names.len() - n,
{
    if n < names.len() {
        let t = names.take(n + 1);
        assert(t.drop_last() =~= names.take(n));
        lemma_group_index_bytes_prefix(names, name, n + 1);
    } else {
        assert(names.take(n) =~= names);
    }
}

/// `a` and `b` hold the same bytes.
fn bytes_eq(a: &[u8], b: &[u8]) -> (r: bool)
    ensures
        r == (a@ == b@),
{
    if a.len() != b.len() {
        return false;
    }
    let mut i: usize = 0;
    while i < a.len()
        invariant
            a@.len() == b@.len(),
            i <= a@.len(),
            forall|k: int| 0 <= k < i ==> a@[k] == b@[k],
        decreases a.len() - i,
    {
        if a[i] != b[i] {
            return false;
        }
        i = i + 1;
    }
    assert(a@ =~= b@);
    true
}

/// The index of the group whose name is encoded by `name`.
pub fn group_index_bytes(names: &Vec<Option<String>>, name: &[u8]) -> (r: Option<usize>)
    ensures
        match r {
            Some(i) => spec_group_index_bytes(names_view(names@), name@) == Some(i as int),
            None => spec_group_index_bytes(names_view(names@), name@) is None,
        },
{
    let mut k: usize = 0;
    while k < names.len()
        invariant
            k <= names@.len(),
            spec_group_index_bytes(names_view(names@).take(k as int), name@) is None,
        decreases names.len() - k,
    {
        let hit = match &names[k] {
            Some(s) => bytes_eq(s.as_str().as_bytes(), name),
            None => false,
        };
        proof {
            let t = names_view(names@).take(k as int + 1);
            assert(t.drop_last() =~= names_view(names@).take(k as int));
            assert(t.last() == name_view(names@[k as int]));
        }
        if hit {
            proof {
                lemma_group_index_bytes_prefix(names_view(names@), name@, k as int + 1);
            }
            return Some(k + 1);
        }
        k = k + 1;
    }
    assert(names_view(names@).take(k as int) =~= names_view(names@));
    None
}

proof fn lemma_expand_bytes_plain_from(
    t: Seq<u8>,
    i: int,
    hay: Seq<u8>,
    slots: Seq<Option<(usize, usize)>>,
    names: Seq<Option<Seq<char>>>,
)
    requires
        0 <= i <= t.len(),
        forall|k: int| 0 <= k < t.len() ==> t[k] != 36,
    ensures
        spec_expand_bytes_from(t, i, hay, slots, names) == t.subrange(i, t.len() as int),
    decreases t.len() - i,
{
    if i < t.len() {
        lemma_expand_bytes_plain_from(t, i + 1, hay, slots, names);
        assert(t.subrange(i, t.len() as int) =~= seq![t[i]] + t.subrange(i + 1, t.len() as int));
    }
}

/// A byte template without `$` stands for itself: replacing with it puts
/// its bytes in place of each match, whatever the match.
pub proof fn law_expand_bytes_plain(
    t: Seq<u8>,
    hay: Seq<u8>,
    slots: Seq<Option<(usize, usize)>>,
    names: Seq<Option<Seq<char>>>,
)
    requires
        forall|k: int| 0 <= k < t.len() ==> t[k] != 36,
    ensures
        spec_expand_bytes(t, hay, slots, names) == t,
{
    lemma_expand_bytes_plain_from(t, 0, hay, slots, names);
    assert(t.subrange(0, t.len() as int) =~= t);
}

} // verus!
