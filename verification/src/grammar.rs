use vstd::prelude::*;
use crate::ast::{SAst, SClass, SItem};
use crate::matcher::{
    all_groups_below, all_same_but_greed, alt_led, empty_led, groups_below, same_but_greed,
};
use crate::unicode::{
    char_is_whitespace, spec_is_ascii_alphabetic, spec_is_ascii_lowercase,
    spec_is_ascii_uppercase, spec_is_scalar, spec_to_ascii_lowercase, spec_to_ascii_uppercase,
};

verus! {

// The pattern grammar, as a recursive-descent reading of the pattern's
// characters. Each rule takes the reader's state and gives back its outcome
// (a tree or an error message) and the state after it.

/// What stays fixed while a pattern is read.
pub struct PCfg {
    pub chars: Seq<char>,
    pub octal: bool,
    pub nest_limit: Option<u32>,
}

/// The inline flags in force.
#[derive(Clone, Copy)]
pub struct PFlags {
    pub ci: bool,
    pub ml: bool,
    pub dotnl: bool,
    pub ws: bool,
    pub swap: bool,
    pub crlf: bool,
    pub unicode: bool,
}

/// The reader's state: position, groups seen so far and their names, flags,
/// and group nesting depth.
pub struct PState {
    pub pos: int,
    pub captures: int,
    pub names: Seq<Option<Seq<char>>>,
    pub flags: PFlags,
    pub depth: int,
}

pub type Out<T> = (Result<T, Seq<char>>, PState);

/// How much of the pattern is left to read.
pub open spec fn rem(cfg: PCfg, st: PState) -> nat {
    if st.pos < cfg.chars.len() {
        (cfg.chars.len() - st.pos) as nat
    } else {
        0
    }
}

pub open spec fn with_pos(st: PState, pos: int) -> PState {
    PState { pos, ..st }
}

pub open spec fn with_flags(st: PState, flags: PFlags) -> PState {
    PState { flags, ..st }
}

pub open spec fn sp_peek(cfg: PCfg, st: PState) -> Option<char> {
    if 0 <= st.pos < cfg.chars.len() {
        Some(cfg.chars[st.pos])
    } else {
        None
    }
}

pub open spec fn sp_peek2(cfg: PCfg, st: PState) -> Option<char> {
    if 0 <= st.pos + 1 < cfg.chars.len() {
        Some(cfg.chars[st.pos + 1])
    } else {
        None
    }
}

pub open spec fn sp_bump(cfg: PCfg, st: PState) -> (Option<char>, PState) {
    match sp_peek(cfg, st) {
        Some(c) => (Some(c), with_pos(st, st.pos + 1)),
        None => (None, st),
    }
}

pub open spec fn sp_eat(cfg: PCfg, st: PState, c: char) -> (bool, PState) {
    if sp_peek(cfg, st) == Some(c) {
        (true, with_pos(st, st.pos + 1))
    } else {
        (false, st)
    }
}

/// `n` saturated to `usize`.
pub open spec fn sat(n: int) -> usize {
    if n > usize::MAX {
        usize::MAX
    } else {
        n as usize
    }
}

/// The value of `c` as a digit in `radix` (2..=16), if it is one.
pub open spec fn spec_to_digit(c: char, radix: u32) -> Option<u32> {
    let v: u32 = if '0' <= c <= '9' {
        (c as u32 - '0' as u32) as u32
    } else if 'a' <= c <= 'z' {
        (c as u32 - 'a' as u32 + 10) as u32
    } else if 'A' <= c <= 'Z' {
        (c as u32 - 'A' as u32 + 10) as u32
    } else {
        99u32
    };
    if v < radix {
        Some(v)
    } else {
        None
    }
}

/// The tree for a literal character: both ASCII cases when case-insensitive.
pub open spec fn sp_literal(flags: PFlags, c: char) -> SAst {
    if flags.ci && spec_is_ascii_alphabetic(c) {
        SAst::Class(
            SClass {
                negated: false,
                items: seq![SItem::Char(spec_to_ascii_lowercase(c)), SItem::Char(spec_to_ascii_uppercase(c))],
                inter: seq![],
            },
        )
    } else {
        SAst::Literal(c)
    }
}

pub open spec fn one_item_class(negated: bool, item: SItem) -> SAst {
    SAst::Class(SClass { negated, items: seq![item], inter: seq![] })
}

pub open spec fn sp_enter_group(cfg: PCfg, st: PState) -> (Result<(), Seq<char>>, PState) {
    let st1 = PState { depth: st.depth + 1, ..st };
    if cfg.nest_limit matches Some(l) && st1.depth > l {
        (Err("nest limit exceeded"@), st1)
    } else {
        (Ok(()), st1)
    }
}

pub open spec fn sp_leave_group(st: PState) -> PState {
    PState { depth: st.depth - 1, ..st }
}

pub open spec fn sp_next_capture(st: PState, name: Option<Seq<char>>) -> (int, PState) {
    let st1 = PState { captures: st.captures + 1, names: st.names.push(name), ..st };
    (st1.captures, st1)
}

pub open spec fn sp_set_flag(flags: PFlags, flag: char, enabled: bool) -> PFlags {
    if flag == 'i' {
        PFlags { ci: enabled, ..flags }
    } else if flag == 'm' {
        PFlags { ml: enabled, ..flags }
    } else if flag == 's' {
        PFlags { dotnl: enabled, ..flags }
    } else if flag == 'x' {
        PFlags { ws: enabled, ..flags }
    } else if flag == 'U' {
        PFlags { swap: enabled, ..flags }
    } else if flag == 'R' {
        PFlags { crlf: enabled, ..flags }
    } else if flag == 'u' {
        PFlags { unicode: enabled, ..flags }
    } else {
        flags
    }
}

pub open spec fn is_flag_char(c: char) -> bool {
    c == 'i' || c == 'm' || c == 's' || c == 'x' || c == 'U' || c == 'R' || c == 'u'
}

// ---------------------------------------------------------------------------
// Alternation, concatenation, repetition.

/// `alt := concat ('|' concat)*`
pub open spec fn sp_alt(cfg: PCfg, st: PState) -> Out<SAst>
    decreases rem(cfg, st), 40nat,
{
    let (r, st1) = sp_concat(cfg, st);
    match r {
        Err(e) => (Err(e), st1),
        Ok(a) => if st1.pos >= st.pos {
            sp_alt_loop(cfg, st1, seq![a])
        } else {
            (Err(seq![]), st1)
        },
    }
}

pub open spec fn sp_alt_loop(cfg: PCfg, st: PState, parts: Seq<SAst>) -> Out<SAst>
    decreases rem(cfg, st), 39nat,
{
    let (b, st1) = sp_eat(cfg, st, '|');
    if !b {
        (Ok(if parts.len() == 1 { parts[0] } else { SAst::Alt(parts) }), st)
    } else {
        let (r, st2) = sp_concat(cfg, st1);
        match r {
            Err(e) => (Err(e), st2),
            Ok(a) => if st2.pos >= st1.pos {
                sp_alt_loop(cfg, st2, parts.push(a))
            } else {
                (Err(seq![]), st2)
            },
        }
    }
}

/// `concat := repeat*`, up to `)`, `|` or the end; in whitespace-insensitive
/// mode whitespace between items is skipped.
pub open spec fn sp_concat(cfg: PCfg, st: PState) -> Out<SAst>
    decreases rem(cfg, st), 38nat,
{
    sp_concat_loop(cfg, st, seq![])
}

pub open spec fn sp_concat_loop(cfg: PCfg, st: PState, parts: Seq<SAst>) -> Out<SAst>
    decreases rem(cfg, st), 37nat,
{
    let done = (
        Ok(
            if parts.len() == 0 {
                SAst::Empty
            } else if parts.len() == 1 {
                parts[0]
            } else {
                SAst::Concat(parts)
            },
        ),
        st,
    );
    match sp_peek(cfg, st) {
        None => done,
        Some(c) => if c == ')' || c == '|' {
            done
        } else if st.flags.ws && char_is_whitespace(c) {
            sp_concat_loop(cfg, with_pos(st, st.pos + 1), parts)
        } else {
            let (r, st1) = sp_repeat(cfg, st);
            match r {
                Err(e) => (Err(e), st1),
                Ok(n) => if st1.pos > st.pos {
                    sp_concat_loop(cfg, st1, parts.push(n))
                } else {
                    (Err(seq![]), st1)
                },
            }
        },
    }
}

/// `repeat := atom quantifier*`
pub open spec fn sp_repeat(cfg: PCfg, st: PState) -> Out<SAst>
    decreases rem(cfg, st), 36nat,
{
    let (r, st1) = sp_atom(cfg, st);
    match r {
        Err(e) => (Err(e), st1),
        Ok(node) => if st1.pos >= st.pos {
            sp_repeat_loop(cfg, st1, node)
        } else {
            (Err(seq![]), st1)
        },
    }
}

/// Wraps `node` in the quantifier just read, whose bounds are `min` and `max`;
/// a following `?` makes it lazy (or greedy, when greed is swapped).
pub open spec fn sp_quantified(
    cfg: PCfg,
    st: PState,
    node: SAst,
    min: usize,
    max: Option<usize>,
) -> (SAst, PState) {
    let (q, st1) = sp_eat(cfg, st, '?');
    (SAst::Repeat(Box::new(node), min, max, !q != st.flags.swap), st1)
}

pub open spec fn sp_repeat_loop(cfg: PCfg, st: PState, node: SAst) -> Out<SAst>
    decreases rem(cfg, st), 35nat,
{
    match sp_peek(cfg, st) {
        Some(c) => if c == '*' || c == '+' || c == '?' {
            let min: usize = if c == '+' {
                1
            } else {
                0
            };
            let max: Option<usize> = if c == '?' {
                Some(1)
            } else {
                None
            };
            let (n2, st2) = sp_quantified(cfg, with_pos(st, st.pos + 1), node, min, max);
            sp_repeat_loop(cfg, st2, n2)
        } else if c == '{' {
            let (r, st1) = sp_braces(cfg, st);
            match r {
                Err(e) => (Err(e), st1),
                Ok((min, max)) => if st1.pos > st.pos {
                    let (n2, st2) = sp_quantified(cfg, st1, node, min, max);
                    sp_repeat_loop(cfg, st2, n2)
                } else {
                    (Err(seq![]), st1)
                },
            }
        } else {
            (Ok(node), st)
        },
        None => (Ok(node), st),
    }
}

/// `{min}`, `{min,}`, `{,max}` or `{min,max}`, after the `{`.
pub open spec fn sp_braces(cfg: PCfg, st: PState) -> Out<(usize, Option<usize>)>
    decreases rem(cfg, st), 34nat,
{
    let (_, st1) = sp_bump(cfg, st);
    let (rmin, st2) = if sp_peek(cfg, st1) == Some(',') {
        (Ok(0usize), st1)
    } else {
        sp_number(cfg, st1)
    };
    match rmin {
        Err(e) => (Err(e), st2),
        Ok(min) => {
            let (comma, st3) = sp_eat(cfg, st2, ',');
            let (rmax, st4) = if comma {
                if sp_peek(cfg, st3) == Some('}') {
                    (Ok(None), st3)
                } else {
                    let (n, st4) = sp_number(cfg, st3);
                    match n {
                        Err(e) => (Err(e), st4),
                        Ok(n) => (Ok(Some(n)), st4),
                    }
                }
            } else {
                (Ok(Some(min)), st2)
            };
            match rmax {
                Err(e) => (Err(e), st4),
                Ok(max) => {
                    let (closed, st5) = sp_eat(cfg, st4, '}');
                    if !closed {
                        (Err("unclosed repetition"@), st5)
                    } else if max matches Some(m) && m < min {
                        (Err("invalid repetition range"@), st5)
                    } else {
                        (Ok((min, max)), st5)
                    }
                },
            }
        },
    }
}

/// A decimal number, saturating at `usize::MAX`.
pub open spec fn sp_number(cfg: PCfg, st: PState) -> Out<usize>
    decreases rem(cfg, st), 33nat,
{
    let (n, st1) = sp_number_loop(cfg, st, 0);
    if st1.pos == st.pos {
        (Err("expected number"@), st1)
    } else {
        (Ok(n), st1)
    }
}

pub open spec fn sp_number_loop(cfg: PCfg, st: PState, n: usize) -> (usize, PState)
    decreases rem(cfg, st), 32nat,
{
    match sp_peek(cfg, st) {
        Some(c) => match spec_to_digit(c, 10) {
            Some(d) => sp_number_loop(cfg, with_pos(st, st.pos + 1), sat(sat(n * 10) + d)),
            None => (n, st),
        },
        None => (n, st),
    }
}

// ---------------------------------------------------------------------------
// Atoms and groups.

/// A single atom: literal, metacharacter, group, class, or escape.
pub open spec fn sp_atom(cfg: PCfg, st: PState) -> Out<SAst>
    decreases rem(cfg, st), 31nat,
{
    let (oc, st1) = sp_bump(cfg, st);
    match oc {
        None => (Err("unexpected end of pattern"@), st1),
        Some(c) => if c == '.' {
            (Ok(SAst::Dot(st1.flags.dotnl)), st1)
        } else if c == '^' {
            (Ok(SAst::StartLine(st1.flags.ml, st1.flags.crlf)), st1)
        } else if c == '$' {
            (Ok(SAst::EndLine(st1.flags.ml, st1.flags.crlf)), st1)
        } else if c == '(' {
            let (q, st2) = sp_eat(cfg, st1, '?');
            if q {
                sp_special_group(cfg, st2)
            } else {
                sp_group_body(cfg, st1, None)
            }
        } else if c == '[' {
            sp_class(cfg, st1)
        } else if c == '\\' {
            sp_escape(cfg, st1, false)
        } else if c == ')' || c == '|' {
            (Err("unexpected metacharacter"@), st1)
        } else if c == '*' || c == '+' || c == '?' || c == '{' {
            (Err("repetition missing expression"@), st1)
        } else {
            (Ok(sp_literal(st1.flags, c)), st1)
        },
    }
}

/// The rest of a capturing group, named `name`: its alternation and `)`.
pub open spec fn sp_group_body(cfg: PCfg, st: PState, name: Option<Seq<char>>) -> Out<SAst>
    decreases rem(cfg, st), 41nat,
{
    let (e, st1) = sp_enter_group(cfg, st);
    match e {
        Err(m) => (Err(m), st1),
        Ok(_) => {
            let (index, st2) = sp_next_capture(st1, name);
            let (r, st3) = sp_alt(cfg, st2);
            match r {
                Err(m) => (Err(m), st3),
                Ok(node) => {
                    let (closed, st4) = sp_eat(cfg, st3, ')');
                    if !closed {
                        (Err("unclosed group"@), st4)
                    } else {
                        (Ok(SAst::Group(index as usize, Box::new(node))), sp_leave_group(st4))
                    }
                },
            }
        },
    }
}

/// The rest of a non-capturing group: its alternation and `)`.
pub open spec fn sp_plain_group_body(cfg: PCfg, st: PState) -> Out<SAst>
    decreases rem(cfg, st), 41nat,
{
    let (e, st1) = sp_enter_group(cfg, st);
    match e {
        Err(m) => (Err(m), st1),
        Ok(_) => {
            let (r, st2) = sp_alt(cfg, st1);
            match r {
                Err(m) => (Err(m), st2),
                Ok(node) => {
                    let (closed, st3) = sp_eat(cfg, st2, ')');
                    if !closed {
                        (Err("unclosed group"@), st3)
                    } else {
                        (Ok(node), sp_leave_group(st3))
                    }
                },
            }
        },
    }
}

/// The group syntax after `(?`: non-capturing, named, or inline flags.
pub open spec fn sp_special_group(cfg: PCfg, st: PState) -> Out<SAst>
    decreases rem(cfg, st), 43nat,
{
    let (colon, st1) = sp_eat(cfg, st, ':');
    if colon {
        sp_plain_group_body(cfg, st1)
    } else {
        let (p, stp) = sp_eat(cfg, st, 'P');
        let (lt, stl) = if p {
            sp_eat(cfg, stp, '<')
        } else {
            (false, stp)
        };
        if p && lt {
            sp_named_group(cfg, stl)
        } else {
            let (lt2, st2) = sp_eat(cfg, stp, '<');
            if lt2 {
                if sp_peek(cfg, st2) == Some('=') || sp_peek(cfg, st2) == Some('!') {
                    (Err("look-around is not supported"@), st2)
                } else {
                    sp_named_group(cfg, st2)
                }
            } else if sp_peek(cfg, stp) == Some('=') || sp_peek(cfg, stp) == Some('!') {
                (Err("look-around is not supported"@), stp)
            } else {
                let (gt, st3) = sp_eat(cfg, stp, '>');
                if gt {
                    (Err("atomic groups are not supported"@), st3)
                } else {
                    sp_flag_loop(cfg, stp, stp.flags, false, true)
                }
            }
        }
    }
}

/// A named capturing group after `(?P<` or `(?<`.
pub open spec fn sp_named_group(cfg: PCfg, st: PState) -> Out<SAst>
    decreases rem(cfg, st), 42nat,
{
    let (r, st1) = sp_name_until(cfg, st, '>', seq![]);
    match r {
        Err(m) => (Err(m), st1),
        Ok(name) => if st1.pos >= st.pos {
            sp_group_body(cfg, st1, Some(name))
        } else {
            (Err(seq![]), st1)
        },
    }
}

/// Inline flags `(?imsxURu-imsxURu)` or `(?flags:...)`; `saved` are the
/// flags to restore after a scoped group.
pub open spec fn sp_flag_loop(
    cfg: PCfg,
    st: PState,
    saved: PFlags,
    saw: bool,
    enable: bool,
) -> Out<SAst>
    decreases rem(cfg, st), 27nat,
{
    match sp_peek(cfg, st) {
        None => (Err("unclosed group"@), st),
        Some(c) => {
            let st1 = with_pos(st, st.pos + 1);
            if is_flag_char(c) {
                sp_flag_loop(
                    cfg,
                    with_flags(st1, sp_set_flag(st1.flags, c, enable)),
                    saved,
                    true,
                    enable,
                )
            } else if c == '-' {
                sp_flag_loop(cfg, st1, saved, saw, false)
            } else if c == ':' {
                if !saw {
                    (Err("unsupported group syntax"@), st1)
                } else {
                    let (r, st2) = sp_plain_group_body(cfg, st1);
                    match r {
                        Err(m) => (Err(m), st2),
                        Ok(node) => (Ok(node), with_flags(st2, saved)),
                    }
                }
            } else if c == ')' {
                if !saw {
                    (Err("unsupported group syntax"@), st1)
                } else {
                    (Ok(SAst::Empty), st1)
                }
            } else {
                (Err("unsupported group syntax"@), st)
            }
        },
    }
}

/// A name up to the character `end` (consumed); `acc` is what was read so far.
pub open spec fn sp_name_until(cfg: PCfg, st: PState, end: char, acc: Seq<char>) -> Out<Seq<char>>
    decreases rem(cfg, st), 26nat,
{
    let (oc, st1) = sp_bump(cfg, st);
    match oc {
        None => (Err("unclosed capture name"@), st1),
        Some(c) => if c == end {
            if acc.len() == 0 {
                (Err("empty capture name"@), st1)
            } else {
                (Ok(acc), st1)
            }
        } else {
            sp_name_until(cfg, st1, end, acc.push(c))
        },
    }
}

// ---------------------------------------------------------------------------
// Escapes.

/// The character following a `\`.
pub open spec fn sp_escape(cfg: PCfg, st: PState, in_class: bool) -> Out<SAst>
    decreases rem(cfg, st), 25nat,
{
    let (oc, st1) = sp_bump(cfg, st);
    match oc {
        None => (Err("dangling escape"@), st1),
        Some(c) => if c == 'd' {
            (Ok(one_item_class(false, SItem::Digit)), st1)
        } else if c == 'D' {
            (Ok(one_item_class(true, SItem::Digit)), st1)
        } else if c == 'w' {
            (Ok(one_item_class(false, SItem::Word)), st1)
        } else if c == 'W' {
            (Ok(one_item_class(true, SItem::Word)), st1)
        } else if c == 's' {
            (Ok(one_item_class(false, SItem::Space)), st1)
        } else if c == 'S' {
            (Ok(one_item_class(true, SItem::Space)), st1)
        } else if c == 'b' && !in_class {
            (Ok(SAst::WordBoundary(true)), st1)
        } else if c == 'B' && !in_class {
            (Ok(SAst::WordBoundary(false)), st1)
        } else if c == 'A' && !in_class {
            (Ok(SAst::StartText), st1)
        } else if (c == 'z' || c == 'Z') && !in_class {
            (Ok(SAst::EndText), st1)
        } else if c == 'G' && !in_class {
            (Ok(SAst::StartText), st1)
        } else if c == 'n' {
            (Ok(SAst::Literal('\n')), st1)
        } else if c == 'r' {
            (Ok(SAst::Literal('\r')), st1)
        } else if c == 't' {
            (Ok(SAst::Literal('\t')), st1)
        } else if c == 'x' {
            let (r, st2) = sp_hex_escape(cfg, st1);
            match r {
                Err(m) => (Err(m), st2),
                Ok(x) => (Ok(SAst::Literal(x)), st2),
            }
        } else if c == 'u' {
            if !st1.flags.unicode {
                (Err("unicode escape not allowed when unicode mode is disabled"@), st1)
            } else {
                let (r, st2) = sp_unicode_escape(cfg, st1);
                match r {
                    Err(m) => (Err(m), st2),
                    Ok(x) => (Ok(SAst::Literal(x)), st2),
                }
            }
        } else if c == 'p' || c == 'P' {
            if !st1.flags.unicode {
                (Err("unicode class not allowed when unicode mode is disabled"@), st1)
            } else {
                let (r, st2) = sp_property_name(cfg, st1);
                match r {
                    Err(m) => (Err(m), st2),
                    Ok(name) => (Ok(one_item_class(c == 'P', SItem::Prop(name))), st2),
                }
            }
        } else if '0' <= c <= '7' {
            if !cfg.octal {
                (Err("octal escape not allowed"@), st1)
            } else {
                let (r, st2) = sp_octal_escape(cfg, st1, c);
                match r {
                    Err(m) => (Err(m), st2),
                    Ok(x) => (Ok(SAst::Literal(x)), st2),
                }
            }
        } else {
            (Ok(sp_literal(st1.flags, c)), st1)
        },
    }
}

/// The character whose code point is `v`, or the error `msg`.
pub open spec fn sp_char_or(v: u32, msg: Seq<char>) -> Result<char, Seq<char>> {
    if spec_is_scalar(v) {
        Ok(v as char)
    } else {
        Err(msg)
    }
}

/// `\xHH` or `\x{H...}`, after the `x`.
pub open spec fn sp_hex_escape(cfg: PCfg, st: PState) -> Out<char>
    decreases rem(cfg, st), 24nat,
{
    let (brace, st1) = sp_eat(cfg, st, '{');
    if brace {
        let (r, st2) = sp_hex_until(cfg, st1, '}');
        match r {
            Err(m) => (Err(m), st2),
            Ok(v) => (sp_char_or(v, "invalid hex escape"@), st2),
        }
    } else {
        let (ra, st2) = sp_hex_digit(cfg, st);
        match ra {
            Err(m) => (Err(m), st2),
            Ok(a) => {
                let (rb, st3) = sp_hex_digit(cfg, st2);
                match rb {
                    Err(m) => (Err(m), st3),
                    Ok(b) => (sp_char_or((a << 4u32) | b, "invalid hex escape"@), st3),
                }
            },
        }
    }
}

/// `\uHHHH` or `\u{H...}`, after the `u`.
pub open spec fn sp_unicode_escape(cfg: PCfg, st: PState) -> Out<char>
    decreases rem(cfg, st), 24nat,
{
    let (brace, st1) = sp_eat(cfg, st, '{');
    if brace {
        let (r, st2) = sp_hex_until(cfg, st1, '}');
        match r {
            Err(m) => (Err(m), st2),
            Ok(v) => (sp_char_or(v, "invalid unicode escape"@), st2),
        }
    } else {
        let (r, st2) = sp_hex_digits(cfg, st, 4, 0);
        match r {
            Err(m) => (Err(m), st2),
            Ok(v) => (sp_char_or(v, "invalid unicode escape"@), st2),
        }
    }
}

/// `k` more hex digits, accumulated into `value`.
pub open spec fn sp_hex_digits(cfg: PCfg, st: PState, k: nat, value: u32) -> Out<u32>
    decreases rem(cfg, st), 23nat, k,
{
    if k == 0 {
        (Ok(value), st)
    } else {
        let (r, st1) = sp_hex_digit(cfg, st);
        match r {
            Err(m) => (Err(m), st1),
            Ok(d) => sp_hex_digits(cfg, st1, (k - 1) as nat, (value << 4u32) | d),
        }
    }
}

/// Hex digits up to `end` (consumed); at least one is needed.
pub open spec fn sp_hex_until(cfg: PCfg, st: PState, end: char) -> Out<u32>
    decreases rem(cfg, st), 23nat, 1nat,
{
    sp_hex_until_loop(cfg, st, end, 0, false)
}

pub open spec fn sp_hex_until_loop(cfg: PCfg, st: PState, end: char, value: u32, saw: bool) -> Out<
    u32,
>
    decreases rem(cfg, st), 22nat, 0nat,
{
    if sp_peek(cfg, st) is Some && sp_peek(cfg, st) != Some(end) {
        let (r, st1) = sp_hex_digit(cfg, st);
        match r {
            Err(m) => (Err(m), st1),
            Ok(d) => sp_hex_until_loop(cfg, st1, end, (value << 4u32) | d, true),
        }
    } else {
        let (closed, st1) = if saw {
            sp_eat(cfg, st, end)
        } else {
            (false, st)
        };
        if !saw || !closed {
            (Err("invalid hex escape"@), st1)
        } else {
            (Ok(value), st1)
        }
    }
}

/// One hex digit.
pub open spec fn sp_hex_digit(cfg: PCfg, st: PState) -> Out<u32>
    decreases rem(cfg, st), 21nat, 0nat,
{
    let (oc, st1) = sp_bump(cfg, st);
    match oc {
        Some(c) => match spec_to_digit(c, 16) {
            Some(d) => (Ok(d), st1),
            None => (Err("invalid hex escape"@), st1),
        },
        None => (Err("invalid hex escape"@), st1),
    }
}

/// `\p{Name}` or `\pN`, after the `p`.
pub open spec fn sp_property_name(cfg: PCfg, st: PState) -> Out<Seq<char>>
    decreases rem(cfg, st), 24nat,
{
    let (brace, st1) = sp_eat(cfg, st, '{');
    if brace {
        sp_name_until(cfg, st1, '}', seq![])
    } else {
        let (oc, st2) = sp_bump(cfg, st);
        match oc {
            Some(c) => (Ok(seq![c]), st2),
            None => (Err("missing unicode property"@), st2),
        }
    }
}

/// Up to two more octal digits after `first`.
pub open spec fn sp_octal_escape(cfg: PCfg, st: PState, first: char) -> Out<char>
    decreases rem(cfg, st), 24nat,
{
    let v0 = spec_to_digit(first, 8).unwrap();
    let (v1, st1) = sp_octal_step(cfg, st, v0);
    let (v2, st2) = sp_octal_step(cfg, st1, v1);
    (sp_char_or(v2, "invalid octal escape"@), st2)
}

pub open spec fn sp_octal_step(cfg: PCfg, st: PState, value: u32) -> (u32, PState) {
    match sp_peek(cfg, st) {
        Some(c) => match spec_to_digit(c, 8) {
            Some(d) => ((value * 8 + d) as u32, with_pos(st, st.pos + 1)),
            None => (value, st),
        },
        None => (value, st),
    }
}

// ---------------------------------------------------------------------------
// Character classes.

/// A class after `[`.
pub open spec fn sp_class(cfg: PCfg, st: PState) -> Out<SAst>
    decreases rem(cfg, st), 20nat,
{
    let (r, st1) = sp_class_expr(cfg, st);
    match r {
        Err(m) => (Err(m), st1),
        Ok(c) => (Ok(SAst::Class(c)), st1),
    }
}

/// `union ('&&' union)* ']'`
pub open spec fn sp_class_expr(cfg: PCfg, st: PState) -> Out<SClass>
    decreases rem(cfg, st), 19nat,
{
    let (r, st1) = sp_class_union(cfg, st);
    match r {
        Err(m) => (Err(m), st1),
        Ok(c) => if st1.pos >= st.pos {
            sp_class_expr_loop(cfg, st1, c)
        } else {
            (Err(seq![]), st1)
        },
    }
}

pub open spec fn sp_class_expr_loop(cfg: PCfg, st: PState, class: SClass) -> Out<SClass>
    decreases rem(cfg, st), 18nat,
{
    if sp_peek(cfg, st) == Some('&') && sp_peek2(cfg, st) == Some('&') {
        let st1 = with_pos(st, st.pos + 2);
        let (r, st2) = sp_class_union(cfg, st1);
        match r {
            Err(m) => (Err(m), st2),
            Ok(c) => if st2.pos >= st1.pos {
                sp_class_expr_loop(cfg, st2, SClass { inter: class.inter.push(c), ..class })
            } else {
                (Err(seq![]), st2)
            },
        }
    } else {
        let (closed, st1) = sp_eat(cfg, st, ']');
        if !closed {
            (Err("unclosed character class"@), st1)
        } else {
            (Ok(class), st1)
        }
    }
}

/// An optional `^` and the items of a class, up to `]` or `&&`.
pub open spec fn sp_class_union(cfg: PCfg, st: PState) -> Out<SClass>
    decreases rem(cfg, st), 17nat,
{
    let (negated, st1) = sp_eat(cfg, st, '^');
    sp_union_loop(cfg, st1, negated, seq![], true)
}

/// The items appended for a single item, both cases when case-insensitive.
pub open spec fn sp_push_item(flags: PFlags, items: Seq<SItem>, item: SItem) -> Seq<SItem> {
    match item {
        SItem::Char(c) => if flags.ci && spec_is_ascii_alphabetic(c) {
            items.push(SItem::Char(spec_to_ascii_lowercase(c))).push(
                SItem::Char(spec_to_ascii_uppercase(c)),
            )
        } else {
            items.push(item)
        },
        _ => items.push(item),
    }
}

/// The items appended for a range, with the other case's range when
/// case-insensitive and both ends are letters of one case.
pub open spec fn sp_push_range(flags: PFlags, items: Seq<SItem>, a: char, b: char) -> Seq<SItem> {
    let items1 = items.push(SItem::Range(a, b));
    if flags.ci && spec_is_ascii_lowercase(a) && spec_is_ascii_lowercase(b) {
        items1.push(SItem::Range(spec_to_ascii_uppercase(a), spec_to_ascii_uppercase(b)))
    } else if flags.ci && spec_is_ascii_uppercase(a) && spec_is_ascii_uppercase(b) {
        items1.push(SItem::Range(spec_to_ascii_lowercase(a), spec_to_ascii_lowercase(b)))
    } else {
        items1
    }
}

pub open spec fn sp_union_loop(
    cfg: PCfg,
    st: PState,
    negated: bool,
    items: Seq<SItem>,
    first: bool,
) -> Out<SClass>
    decreases rem(cfg, st), 16nat,
{
    let done = (Ok(SClass { negated, items, inter: seq![] }), st);
    match sp_peek(cfg, st) {
        None => (Err("unclosed character class"@), st),
        Some(c) => if c == ']' && !first {
            done
        } else if !first && c == '&' && sp_peek2(cfg, st) == Some('&') {
            done
        } else {
            let (r, st1) = sp_class_item(cfg, st);
            match r {
                Err(m) => (Err(m), st1),
                Ok(start) => if st1.pos > st.pos {
                    if sp_peek(cfg, st1) == Some('-') {
                        let st2 = with_pos(st1, st1.pos + 1);
                        if sp_peek(cfg, st2) == Some(']') {
                            sp_union_loop(
                                cfg,
                                st2,
                                negated,
                                items.push(start).push(SItem::Char('-')),
                                false,
                            )
                        } else {
                            let (r2, st3) = sp_class_item(cfg, st2);
                            match r2 {
                                Err(m) => (Err(m), st3),
                                Ok(end) => if st3.pos >= st2.pos {
                                    match (start, end) {
                                        (SItem::Char(a), SItem::Char(b)) => if a <= b {
                                            sp_union_loop(
                                                cfg,
                                                st3,
                                                negated,
                                                sp_push_range(st3.flags, items, a, b),
                                                false,
                                            )
                                        } else {
                                            (Err("invalid character class range"@), st3)
                                        },
                                        _ => (Err("invalid character class range"@), st3),
                                    }
                                } else {
                                    (Err(seq![]), st3)
                                },
                            }
                        }
                    } else {
                        sp_union_loop(cfg, st1, negated, sp_push_item(st1.flags, items, start), false)
                    }
                } else {
                    (Err(seq![]), st1)
                },
            }
        },
    }
}

/// A single item inside a class: an escape, a nested class, or a character.
pub open spec fn sp_class_item(cfg: PCfg, st: PState) -> Out<SItem>
    decreases rem(cfg, st), 15nat,
{
    let (oc, st1) = sp_bump(cfg, st);
    match oc {
        None => (Err("unclosed character class"@), st1),
        Some(c) => if c == '\\' {
            let (r, st2) = sp_escape(cfg, st1, true);
            match r {
                Err(m) => (Err(m), st2),
                Ok(a) => match a {
                    SAst::Class(cls) => if cls.items.len() == 1 && !cls.negated && cls.inter.len()
                        == 0 {
                        (Ok(cls.items[0]), st2)
                    } else {
                        (Ok(SItem::Class(Box::new(cls))), st2)
                    },
                    SAst::Literal(x) => (Ok(SItem::Char(x)), st2),
                    _ => (Err("unsupported class escape"@), st2),
                },
            }
        } else if c == '[' {
            let (r, st2) = sp_class_expr(cfg, st1);
            match r {
                Err(m) => (Err(m), st2),
                Ok(cls) => (Ok(SItem::Class(Box::new(cls))), st2),
            }
        } else {
            (Ok(SItem::Char(c)), st1)
        },
    }
}

// ---------------------------------------------------------------------------
// The whole pattern.

/// The flags a pattern starts with.
pub open spec fn initial_state(flags: PFlags) -> PState {
    PState { pos: 0, captures: 0, names: seq![], flags, depth: 0 }
}

/// Reading a whole pattern: an alternation that must use up every character.
/// On success: the tree, the number of capturing groups and their names.
pub open spec fn sp_parse(cfg: PCfg, flags: PFlags) -> Result<
    (SAst, int, Seq<Option<Seq<char>>>),
    Seq<char>,
> {
    let (r, st) = sp_alt(cfg, initial_state(flags));
    match r {
        Err(m) => Err(m),
        Ok(a) => if sp_peek(cfg, st) is Some {
            Err("unexpected trailing input"@)
        } else {
            Ok((a, st.captures, st.names))
        },
    }
}

// ---------------------------------------------------------------------------
// Group numbering: every group a rule reads is numbered after the groups seen
// before it and no later than the groups seen after it.

/// Every group index in the tree lies in `lo+1 ..= hi`.
pub open spec fn groups_in(a: SAst, lo: int, hi: int) -> bool
    decreases a,
{
    match a {
        SAst::Concat(v) => all_groups_in(v, lo, hi),
        SAst::Alt(v) => all_groups_in(v, lo, hi),
        SAst::Repeat(node, _, _, _) => groups_in(*node, lo, hi),
        SAst::Group(i, node) => lo < i <= hi && groups_in(*node, lo, hi),
        _ => true,
    }
}

pub open spec fn all_groups_in(v: Seq<SAst>, lo: int, hi: int) -> bool
    decreases v,
{
    v.len() == 0 || (groups_in(v[0], lo, hi) && all_groups_in(v.drop_first(), lo, hi))
}

pub proof fn lemma_groups_in_widen(a: SAst, lo: int, hi: int, lo2: int, hi2: int)
    requires
        groups_in(a, lo, hi),
        lo2 <= lo,
        hi <= hi2,
    ensures
        groups_in(a, lo2, hi2),
    decreases a,
{
    match a {
        SAst::Concat(v) => lemma_all_groups_in_widen(v, lo, hi, lo2, hi2),
        SAst::Alt(v) => lemma_all_groups_in_widen(v, lo, hi, lo2, hi2),
        SAst::Repeat(node, _, _, _) => lemma_groups_in_widen(*node, lo, hi, lo2, hi2),
        SAst::Group(_, node) => lemma_groups_in_widen(*node, lo, hi, lo2, hi2),
        _ => {},
    }
}

pub proof fn lemma_all_groups_in_widen(v: Seq<SAst>, lo: int, hi: int, lo2: int, hi2: int)
    requires
        all_groups_in(v, lo, hi),
        lo2 <= lo,
        hi <= hi2,
    ensures
        all_groups_in(v, lo2, hi2),
    decreases v,
{
    if v.len() > 0 {
        lemma_groups_in_widen(v[0], lo, hi, lo2, hi2);
        lemma_all_groups_in_widen(v.drop_first(), lo, hi, lo2, hi2);
    }
}

pub proof fn lemma_all_groups_in_push(v: Seq<SAst>, x: SAst, lo: int, hi: int)
    requires
        all_groups_in(v, lo, hi),
        groups_in(x, lo, hi),
    ensures
        all_groups_in(v.push(x), lo, hi),
    decreases v.len(),
{
    if v.len() == 0 {
        assert(v.push(x).drop_first() =~= Seq::<SAst>::empty());
        assert(v.push(x)[0] == x);
        assert(all_groups_in(v.push(x).drop_first(), lo, hi));
    } else {
        lemma_all_groups_in_push(v.drop_first(), x, lo, hi);
        assert(v.push(x).drop_first() =~= v.drop_first().push(x));
        assert(v.push(x)[0] == v[0]);
        assert(all_groups_in(v.push(x).drop_first(), lo, hi));
    }
}

pub proof fn lemma_groups_in_below(a: SAst, lo: int, hi: int)
    requires
        groups_in(a, lo, hi),
        0 <= lo,
        0 <= hi,
    ensures
        groups_below(a, (hi + 1) as nat),
    decreases a,
{
    match a {
        SAst::Concat(v) => lemma_all_groups_in_below(v, lo, hi),
        SAst::Alt(v) => lemma_all_groups_in_below(v, lo, hi),
        SAst::Repeat(node, _, _, _) => lemma_groups_in_below(*node, lo, hi),
        SAst::Group(_, node) => lemma_groups_in_below(*node, lo, hi),
        _ => {},
    }
}

pub proof fn lemma_all_groups_in_below(v: Seq<SAst>, lo: int, hi: int)
    requires
        all_groups_in(v, lo, hi),
        0 <= lo,
        0 <= hi,
    ensures
        all_groups_below(v, (hi + 1) as nat),
    decreases v,
{
    if v.len() > 0 {
        lemma_groups_in_below(v[0], lo, hi);
        lemma_all_groups_in_below(v.drop_first(), lo, hi);
    }
}

// ---------------------------------------------------------------------------
// Reading a pattern with the greed of its repetitions swapped reads the same
// pattern: the same outcome, but for which repetitions are greedy.

/// The same flags, but perhaps for swapped greed.
pub open spec fn flags_but_swap(f: PFlags, g: PFlags) -> bool {
    f.ci == g.ci && f.ml == g.ml && f.dotnl == g.dotnl && f.ws == g.ws && f.crlf == g.crlf
        && f.unicode == g.unicode
}

/// The same reader's state, but perhaps for swapped greed.
pub open spec fn st_but_swap(a: PState, b: PState) -> bool {
    a.pos == b.pos && a.captures == b.captures && a.names == b.names && a.depth == b.depth
        && flags_but_swap(a.flags, b.flags)
}

/// The same outcome, from states that may differ in greed.
pub open spec fn out_same<T>(x: Out<T>, y: Out<T>) -> bool {
    x.0 == y.0 && st_but_swap(x.1, y.1)
}

/// The same outcome but for greed: the same error, or trees the same but
/// for greed.
pub open spec fn out_greed(x: Out<SAst>, y: Out<SAst>) -> bool {
    &&& st_but_swap(x.1, y.1)
    &&& match x.0 {
        Ok(a) => y.0 matches Ok(b) && same_but_greed(a, b),
        Err(m) => y.0 == Err::<SAst, Seq<char>>(m),
    }
}

proof fn lemma_sw_number_loop(cfg: PCfg, a: PState, b: PState, n: usize)
    requires
        st_but_swap(a, b),
    ensures
        sp_number_loop(cfg, a, n).0 == sp_number_loop(cfg, b, n).0,
        st_but_swap(sp_number_loop(cfg, a, n).1, sp_number_loop(cfg, b, n).1),
    decreases rem(cfg, a), 32nat,
{
    if let Some(c) = sp_peek(cfg, a) {
        if let Some(d) = spec_to_digit(c, 10) {
            lemma_sw_number_loop(cfg, with_pos(a, a.pos + 1), with_pos(b, b.pos + 1), sat(sat(n * 10) + d));
        }
    }
}

proof fn lemma_sw_number(cfg: PCfg, a: PState, b: PState)
    requires
        st_but_swap(a, b),
    ensures
        out_same(sp_number(cfg, a), sp_number(cfg, b)),
    decreases rem(cfg, a), 33nat,
{
    lemma_sw_number_loop(cfg, a, b, 0);
}

proof fn lemma_sw_braces(cfg: PCfg, a: PState, b: PState)
    requires
        st_but_swap(a, b),
    ensures
        out_same(sp_braces(cfg, a), sp_braces(cfg, b)),
    decreases rem(cfg, a), 34nat,
{
    let (_, a1) = sp_bump(cfg, a);
    let (_, b1) = sp_bump(cfg, b);
    if sp_peek(cfg, a1) != Some(',') {
        lemma_sw_number(cfg, a1, b1);
    }
    let (rmin, a2) = if sp_peek(cfg, a1) == Some(',') {
        (Ok(0usize), a1)
    } else {
        sp_number(cfg, a1)
    };
    let (_, b2) = if sp_peek(cfg, b1) == Some(',') {
        (Ok(0usize), b1)
    } else {
        sp_number(cfg, b1)
    };
    if rmin is Ok {
        let (comma, a3) = sp_eat(cfg, a2, ',');
        let (_, b3) = sp_eat(cfg, b2, ',');
        if comma && sp_peek(cfg, a3) != Some('}') {
            lemma_sw_number(cfg, a3, b3);
        }
    }
}

proof fn lemma_sw_name_until(cfg: PCfg, a: PState, b: PState, end: char, acc: Seq<char>)
    requires
        st_but_swap(a, b),
    ensures
        out_same(sp_name_until(cfg, a, end, acc), sp_name_until(cfg, b, end, acc)),
    decreases rem(cfg, a), 26nat,
{
    let (oc, a1) = sp_bump(cfg, a);
    let (_, b1) = sp_bump(cfg, b);
    if let Some(c) = oc {
        if c != end {
            lemma_sw_name_until(cfg, a1, b1, end, acc.push(c));
        }
    }
}

proof fn lemma_sw_hex_digit(cfg: PCfg, a: PState, b: PState)
    requires
        st_but_swap(a, b),
    ensures
        out_same(sp_hex_digit(cfg, a), sp_hex_digit(cfg, b)),
{
}

proof fn lemma_sw_hex_digits(cfg: PCfg, a: PState, b: PState, k: nat, value: u32)
    requires
        st_but_swap(a, b),
    ensures
        out_same(sp_hex_digits(cfg, a, k, value), sp_hex_digits(cfg, b, k, value)),
    decreases rem(cfg, a), 23nat, k,
{
    if k > 0 {
        lemma_sw_hex_digit(cfg, a, b);
        let (r, a1) = sp_hex_digit(cfg, a);
        let (_, b1) = sp_hex_digit(cfg, b);
        if let Ok(d) = r {
            lemma_sw_hex_digits(cfg, a1, b1, (k - 1) as nat, (value << 4u32) | d);
        }
    }
}

proof fn lemma_sw_hex_until_loop(cfg: PCfg, a: PState, b: PState, end: char, value: u32, saw: bool)
    requires
        st_but_swap(a, b),
    ensures
        out_same(sp_hex_until_loop(cfg, a, end, value, saw), sp_hex_until_loop(cfg, b, end, value, saw)),
    decreases rem(cfg, a), 22nat, 0nat,
{
    if sp_peek(cfg, a) is Some && sp_peek(cfg, a) != Some(end) {
        lemma_sw_hex_digit(cfg, a, b);
        let (r, a1) = sp_hex_digit(cfg, a);
        let (_, b1) = sp_hex_digit(cfg, b);
        if let Ok(d) = r {
            lemma_sw_hex_until_loop(cfg, a1, b1, end, (value << 4u32) | d, true);
        }
    }
}

proof fn lemma_sw_hex_escape(cfg: PCfg, a: PState, b: PState)
    requires
        st_but_swap(a, b),
    ensures
        out_same(sp_hex_escape(cfg, a), sp_hex_escape(cfg, b)),
{
    let (brace, a1) = sp_eat(cfg, a, '{');
    let (_, b1) = sp_eat(cfg, b, '{');
    if brace {
        lemma_sw_hex_until_loop(cfg, a1, b1, '}', 0, false);
    } else {
        lemma_sw_hex_digit(cfg, a, b);
        let (_, a2) = sp_hex_digit(cfg, a);
        let (_, b2) = sp_hex_digit(cfg, b);
        lemma_sw_hex_digit(cfg, a2, b2);
    }
}

proof fn lemma_sw_unicode_escape(cfg: PCfg, a: PState, b: PState)
    requires
        st_but_swap(a, b),
    ensures
        out_same(sp_unicode_escape(cfg, a), sp_unicode_escape(cfg, b)),
{
    let (brace, a1) = sp_eat(cfg, a, '{');
    let (_, b1) = sp_eat(cfg, b, '{');
    if brace {
        lemma_sw_hex_until_loop(cfg, a1, b1, '}', 0, false);
    } else {
        lemma_sw_hex_digits(cfg, a, b, 4, 0);
    }
}

proof fn lemma_sw_property_name(cfg: PCfg, a: PState, b: PState)
    requires
        st_but_swap(a, b),
    ensures
        out_same(sp_property_name(cfg, a), sp_property_name(cfg, b)),
{
    let (brace, a1) = sp_eat(cfg, a, '{');
    let (_, b1) = sp_eat(cfg, b, '{');
    if brace {
        lemma_sw_name_until(cfg, a1, b1, '}', seq![]);
    }
}

proof fn lemma_sw_escape(cfg: PCfg, a: PState, b: PState, in_class: bool)
    requires
        st_but_swap(a, b),
    ensures
        out_same(sp_escape(cfg, a, in_class), sp_escape(cfg, b, in_class)),
{
    let (_, a1) = sp_bump(cfg, a);
    let (_, b1) = sp_bump(cfg, b);
    lemma_sw_hex_escape(cfg, a1, b1);
    lemma_sw_unicode_escape(cfg, a1, b1);
    lemma_sw_property_name(cfg, a1, b1);
}

proof fn lemma_sw_class_item(cfg: PCfg, a: PState, b: PState)
    requires
        st_but_swap(a, b),
    ensures
        out_same(sp_class_item(cfg, a), sp_class_item(cfg, b)),
    decreases rem(cfg, a), 15nat,
{
    let (oc, a1) = sp_bump(cfg, a);
    let (_, b1) = sp_bump(cfg, b);
    if let Some(c) = oc {
        if c == '\\' {
            lemma_sw_escape(cfg, a1, b1, true);
        } else if c == '[' {
            lemma_sw_class_expr(cfg, a1, b1);
        }
    }
}

proof fn lemma_sw_union_loop(cfg: PCfg, a: PState, b: PState, negated: bool, items: Seq<SItem>, first: bool)
    requires
        st_but_swap(a, b),
    ensures
        out_same(sp_union_loop(cfg, a, negated, items, first), sp_union_loop(cfg, b, negated, items, first)),
    decreases rem(cfg, a), 16nat,
{
    if let Some(c) = sp_peek(cfg, a) {
        if !(c == ']' && !first) && !(!first && c == '&' && sp_peek2(cfg, a) == Some('&')) {
            lemma_sw_class_item(cfg, a, b);
            let (r, a1) = sp_class_item(cfg, a);
            let (_, b1) = sp_class_item(cfg, b);
            if let Ok(start) = r {
                if a1.pos > a.pos {
                    if sp_peek(cfg, a1) == Some('-') {
                        let a2 = with_pos(a1, a1.pos + 1);
                        let b2 = with_pos(b1, b1.pos + 1);
                        if sp_peek(cfg, a2) == Some(']') {
                            lemma_sw_union_loop(cfg, a2, b2, negated, items.push(start).push(SItem::Char('-')), false);
                        } else {
                            lemma_sw_class_item(cfg, a2, b2);
                            let (r2, a3) = sp_class_item(cfg, a2);
                            let (_, b3) = sp_class_item(cfg, b2);
                            if let Ok(end) = r2 {
                                if a3.pos >= a2.pos {
                                    if let (SItem::Char(x), SItem::Char(y)) = (start, end) {
                                        if x <= y {
                                            lemma_sw_union_loop(cfg, a3, b3, negated, sp_push_range(a3.flags, items, x, y), false);
                                        }
                                    }
                                }
                            }
                        }
                    } else {
                        lemma_sw_union_loop(cfg, a1, b1, negated, sp_push_item(a1.flags, items, start), false);
                    }
                }
            }
        }
    }
}

proof fn lemma_sw_class_union(cfg: PCfg, a: PState, b: PState)
    requires
        st_but_swap(a, b),
    ensures
        out_same(sp_class_union(cfg, a), sp_class_union(cfg, b)),
    decreases rem(cfg, a), 17nat,
{
    let (negated, a1) = sp_eat(cfg, a, '^');
    let (_, b1) = sp_eat(cfg, b, '^');
    lemma_sw_union_loop(cfg, a1, b1, negated, seq![], true);
}

proof fn lemma_sw_class_expr_loop(cfg: PCfg, a: PState, b: PState, class: SClass)
    requires
        st_but_swap(a, b),
    ensures
        out_same(sp_class_expr_loop(cfg, a, class), sp_class_expr_loop(cfg, b, class)),
    decreases rem(cfg, a), 18nat,
{
    if sp_peek(cfg, a) == Some('&') && sp_peek2(cfg, a) == Some('&') {
        let a1 = with_pos(a, a.pos + 2);
        let b1 = with_pos(b, b.pos + 2);
        lemma_sw_class_union(cfg, a1, b1);
        let (r, a2) = sp_class_union(cfg, a1);
        let (_, b2) = sp_class_union(cfg, b1);
        if let Ok(c) = r {
            if a2.pos >= a1.pos {
                lemma_sw_class_expr_loop(cfg, a2, b2, SClass { inter: class.inter.push(c), ..class });
            }
        }
    }
}

proof fn lemma_sw_class_expr(cfg: PCfg, a: PState, b: PState)
    requires
        st_but_swap(a, b),
    ensures
        out_same(sp_class_expr(cfg, a), sp_class_expr(cfg, b)),
    decreases rem(cfg, a), 19nat,
{
    lemma_sw_class_union(cfg, a, b);
    let (r, a1) = sp_class_union(cfg, a);
    let (_, b1) = sp_class_union(cfg, b);
    if let Ok(c) = r {
        if a1.pos >= a.pos {
            lemma_sw_class_expr_loop(cfg, a1, b1, c);
        }
    }
}

proof fn lemma_all_same_but_greed_push(x: Seq<SAst>, y: Seq<SAst>, a: SAst, b: SAst)
    requires
        all_same_but_greed(x, y),
        same_but_greed(a, b),
    ensures
        all_same_but_greed(x.push(a), y.push(b)),
    decreases x.len(),
{
    if x.len() == 0 {
        assert(x.push(a).drop_first() =~= Seq::<SAst>::empty());
        assert(y.push(b).drop_first() =~= Seq::<SAst>::empty());
        assert(x.push(a)[0] == a);
        assert(y.push(b)[0] == b);
        assert(all_same_but_greed(x.push(a).drop_first(), y.push(b).drop_first()));
    } else {
        lemma_all_same_but_greed_push(x.drop_first(), y.drop_first(), a, b);
        assert(x.push(a).drop_first() =~= x.drop_first().push(a));
        assert(y.push(b).drop_first() =~= y.drop_first().push(b));
        assert(x.push(a)[0] == x[0]);
        assert(y.push(b)[0] == y[0]);
        assert(all_same_but_greed(x.push(a).drop_first(), y.push(b).drop_first()));
    }
}

proof fn lemma_sw_class(cfg: PCfg, a: PState, b: PState)
    requires
        st_but_swap(a, b),
    ensures
        out_greed(sp_class(cfg, a), sp_class(cfg, b)),
    decreases rem(cfg, a), 20nat,
{
    lemma_sw_class_expr(cfg, a, b);
}

proof fn lemma_sw_repeat_loop(cfg: PCfg, a: PState, b: PState, n1: SAst, n2: SAst)
    requires
        st_but_swap(a, b),
        same_but_greed(n1, n2),
    ensures
        out_greed(sp_repeat_loop(cfg, a, n1), sp_repeat_loop(cfg, b, n2)),
    decreases rem(cfg, a), 35nat,
{
    if let Some(c) = sp_peek(cfg, a) {
        if c == '*' || c == '+' || c == '?' {
            let min: usize = if c == '+' {
                1
            } else {
                0
            };
            let max: Option<usize> = if c == '?' {
                Some(1)
            } else {
                None
            };
            let (m1, a2) = sp_quantified(cfg, with_pos(a, a.pos + 1), n1, min, max);
            let (m2, b2) = sp_quantified(cfg, with_pos(b, b.pos + 1), n2, min, max);
            assert(same_but_greed(m1, m2));
            lemma_sw_repeat_loop(cfg, a2, b2, m1, m2);
        } else if c == '{' {
            lemma_sw_braces(cfg, a, b);
            let (r, a1) = sp_braces(cfg, a);
            let (_, b1) = sp_braces(cfg, b);
            if let Ok((min, max)) = r {
                if a1.pos > a.pos {
                    let (m1, a2) = sp_quantified(cfg, a1, n1, min, max);
                    let (m2, b2) = sp_quantified(cfg, b1, n2, min, max);
                    assert(same_but_greed(m1, m2));
                    lemma_sw_repeat_loop(cfg, a2, b2, m1, m2);
                }
            }
        }
    }
}

proof fn lemma_sw_repeat(cfg: PCfg, a: PState, b: PState)
    requires
        st_but_swap(a, b),
    ensures
        out_greed(sp_repeat(cfg, a), sp_repeat(cfg, b)),
    decreases rem(cfg, a), 36nat,
{
    lemma_sw_atom(cfg, a, b);
    let (r1, a1) = sp_atom(cfg, a);
    let (r2, b1) = sp_atom(cfg, b);
    if let Ok(n1) = r1 {
        if a1.pos >= a.pos {
            lemma_sw_repeat_loop(cfg, a1, b1, n1, r2->Ok_0);
        }
    }
}

proof fn lemma_sw_concat_loop(cfg: PCfg, a: PState, b: PState, p1: Seq<SAst>, p2: Seq<SAst>)
    requires
        st_but_swap(a, b),
        all_same_but_greed(p1, p2),
    ensures
        out_greed(sp_concat_loop(cfg, a, p1), sp_concat_loop(cfg, b, p2)),
    decreases rem(cfg, a), 37nat,
{
    if p1.len() == 1 {
        assert(same_but_greed(p1[0], p2[0]));
    }
    if let Some(c) = sp_peek(cfg, a) {
        if !(c == ')' || c == '|') {
            if a.flags.ws && char_is_whitespace(c) {
                lemma_sw_concat_loop(cfg, with_pos(a, a.pos + 1), with_pos(b, b.pos + 1), p1, p2);
            } else {
                lemma_sw_repeat(cfg, a, b);
                let (r1, a1) = sp_repeat(cfg, a);
                let (r2, b1) = sp_repeat(cfg, b);
                if let Ok(n1) = r1 {
                    if a1.pos > a.pos {
                        lemma_all_same_but_greed_push(p1, p2, n1, r2->Ok_0);
                        lemma_sw_concat_loop(cfg, a1, b1, p1.push(n1), p2.push(r2->Ok_0));
                    }
                }
            }
        }
    }
}

proof fn lemma_sw_alt_loop(cfg: PCfg, a: PState, b: PState, p1: Seq<SAst>, p2: Seq<SAst>)
    requires
        st_but_swap(a, b),
        all_same_but_greed(p1, p2),
    ensures
        out_greed(sp_alt_loop(cfg, a, p1), sp_alt_loop(cfg, b, p2)),
    decreases rem(cfg, a), 39nat,
{
    if p1.len() == 1 {
        assert(same_but_greed(p1[0], p2[0]));
    }
    let (bar, a1) = sp_eat(cfg, a, '|');
    let (_, b1) = sp_eat(cfg, b, '|');
    if bar {
        lemma_sw_concat_loop(cfg, a1, b1, seq![], seq![]);
        let (r1, a2) = sp_concat(cfg, a1);
        let (r2, b2) = sp_concat(cfg, b1);
        if let Ok(n1) = r1 {
            if a2.pos >= a1.pos {
                lemma_all_same_but_greed_push(p1, p2, n1, r2->Ok_0);
                lemma_sw_alt_loop(cfg, a2, b2, p1.push(n1), p2.push(r2->Ok_0));
            }
        }
    }
}

proof fn lemma_sw_alt(cfg: PCfg, a: PState, b: PState)
    requires
        st_but_swap(a, b),
    ensures
        out_greed(sp_alt(cfg, a), sp_alt(cfg, b)),
    decreases rem(cfg, a), 40nat,
{
    lemma_sw_concat_loop(cfg, a, b, seq![], seq![]);
    let (r1, a1) = sp_concat(cfg, a);
    let (r2, b1) = sp_concat(cfg, b);
    if let Ok(n1) = r1 {
        if a1.pos >= a.pos {
            lemma_all_same_but_greed_push(seq![], seq![], n1, r2->Ok_0);
            assert(seq![].push(n1) == seq![n1]);
            assert(seq![].push(r2->Ok_0) == seq![r2->Ok_0]);
            lemma_sw_alt_loop(cfg, a1, b1, seq![n1], seq![r2->Ok_0]);
        }
    }
}

proof fn lemma_sw_group_body(cfg: PCfg, a: PState, b: PState, name: Option<Seq<char>>)
    requires
        st_but_swap(a, b),
    ensures
        out_greed(sp_group_body(cfg, a, name), sp_group_body(cfg, b, name)),
    decreases rem(cfg, a), 41nat,
{
    let (e, a1) = sp_enter_group(cfg, a);
    let (_, b1) = sp_enter_group(cfg, b);
    if e is Ok {
        let (_, a2) = sp_next_capture(a1, name);
        let (_, b2) = sp_next_capture(b1, name);
        lemma_sw_alt(cfg, a2, b2);
    }
}

proof fn lemma_sw_plain_group_body(cfg: PCfg, a: PState, b: PState)
    requires
        st_but_swap(a, b),
    ensures
        out_greed(sp_plain_group_body(cfg, a), sp_plain_group_body(cfg, b)),
    decreases rem(cfg, a), 41nat,
{
    let (e, a1) = sp_enter_group(cfg, a);
    let (_, b1) = sp_enter_group(cfg, b);
    if e is Ok {
        lemma_sw_alt(cfg, a1, b1);
    }
}

proof fn lemma_sw_named_group(cfg: PCfg, a: PState, b: PState)
    requires
        st_but_swap(a, b),
    ensures
        out_greed(sp_named_group(cfg, a), sp_named_group(cfg, b)),
    decreases rem(cfg, a), 42nat,
{
    lemma_sw_name_until(cfg, a, b, '>', seq![]);
    let (r, a1) = sp_name_until(cfg, a, '>', seq![]);
    let (_, b1) = sp_name_until(cfg, b, '>', seq![]);
    if let Ok(name) = r {
        if a1.pos >= a.pos {
            lemma_sw_group_body(cfg, a1, b1, Some(name));
        }
    }
}

proof fn lemma_sw_flag_loop(
    cfg: PCfg,
    a: PState,
    b: PState,
    saved1: PFlags,
    saved2: PFlags,
    saw: bool,
    enable: bool,
)
    requires
        st_but_swap(a, b),
        flags_but_swap(saved1, saved2),
    ensures
        out_greed(sp_flag_loop(cfg, a, saved1, saw, enable), sp_flag_loop(cfg, b, saved2, saw, enable)),
    decreases rem(cfg, a), 27nat,
{
    if let Some(c) = sp_peek(cfg, a) {
        let a1 = with_pos(a, a.pos + 1);
        let b1 = with_pos(b, b.pos + 1);
        if is_flag_char(c) {
            lemma_sw_flag_loop(
                cfg,
                with_flags(a1, sp_set_flag(a1.flags, c, enable)),
                with_flags(b1, sp_set_flag(b1.flags, c, enable)),
                saved1,
                saved2,
                true,
                enable,
            );
        } else if c == '-' {
            lemma_sw_flag_loop(cfg, a1, b1, saved1, saved2, saw, false);
        } else if c == ':' && saw {
            lemma_sw_plain_group_body(cfg, a1, b1);
        } else if c == ')' && saw {
            assert(same_but_greed(SAst::Empty, SAst::Empty));
        }
    }
}

proof fn lemma_sw_special_group(cfg: PCfg, a: PState, b: PState)
    requires
        st_but_swap(a, b),
    ensures
        out_greed(sp_special_group(cfg, a), sp_special_group(cfg, b)),
    decreases rem(cfg, a), 43nat,
{
    let (colon, a1) = sp_eat(cfg, a, ':');
    let (_, b1) = sp_eat(cfg, b, ':');
    if colon {
        lemma_sw_plain_group_body(cfg, a1, b1);
    } else {
        let (p, ap) = sp_eat(cfg, a, 'P');
        let (_, bp) = sp_eat(cfg, b, 'P');
        let (lt, al) = if p {
            sp_eat(cfg, ap, '<')
        } else {
            (false, ap)
        };
        let (_, bl) = if p {
            sp_eat(cfg, bp, '<')
        } else {
            (false, bp)
        };
        if p && lt {
            lemma_sw_named_group(cfg, al, bl);
        } else {
            let (lt2, a2) = sp_eat(cfg, ap, '<');
            let (_, b2) = sp_eat(cfg, bp, '<');
            if lt2 {
                lemma_sw_named_group(cfg, a2, b2);
            } else {
                lemma_sw_flag_loop(cfg, ap, bp, ap.flags, bp.flags, false, true);
            }
        }
    }
}

proof fn lemma_sw_atom(cfg: PCfg, a: PState, b: PState)
    requires
        st_but_swap(a, b),
    ensures
        out_greed(sp_atom(cfg, a), sp_atom(cfg, b)),
    decreases rem(cfg, a), 31nat,
{
    let (oc, a1) = sp_bump(cfg, a);
    let (_, b1) = sp_bump(cfg, b);
    if let Some(c) = oc {
        if c == '(' {
            let (q, a2) = sp_eat(cfg, a1, '?');
            let (_, b2) = sp_eat(cfg, b1, '?');
            if q {
                lemma_sw_special_group(cfg, a2, b2);
            } else {
                lemma_sw_group_body(cfg, a1, b1, None);
            }
        } else if c == '[' {
            lemma_sw_class(cfg, a1, b1);
        } else if c == '\\' {
            lemma_sw_escape(cfg, a1, b1, false);
            lemma_sw_escape_leaf(cfg, a1, false);
        }
    }
}

/// What an escape reads is a single node, never a repetition or a group.
proof fn lemma_sw_escape_leaf(cfg: PCfg, a: PState, in_class: bool)
    ensures
        sp_escape(cfg, a, in_class).0 matches Ok(t) ==> same_but_greed(t, t),
{
}

/// Reading a whole pattern with the greed of its repetitions swapped gives
/// the same outcome, but for which repetitions are greedy: the same error,
/// or trees the same but for greed with the same groups and names.
pub proof fn lemma_parse_swap(cfg: PCfg, f1: PFlags, f2: PFlags)
    requires
        flags_but_swap(f1, f2),
    ensures
        match sp_parse(cfg, f1) {
            Ok((a, n, names)) => sp_parse(cfg, f2) matches Ok((b, n2, names2)) && same_but_greed(a, b)
                && n == n2 && names == names2,
            Err(m) => sp_parse(cfg, f2) == Err::<(SAst, int, Seq<Option<Seq<char>>>), Seq<char>>(m),
        },
{
    lemma_sw_alt(cfg, initial_state(f1), initial_state(f2));
}

// ---------------------------------------------------------------------------
// Reading characters placed after others: the same reading, shifted.

/// The characters of `c2` are those of `c1` after `k` others, read with the
/// same settings.
pub open spec fn cfg_shift(c1: PCfg, c2: PCfg, k: int) -> bool {
    &&& 0 <= k
    &&& c2.chars.len() == c1.chars.len() + k
    &&& forall|i: int| 0 <= i < c1.chars.len() ==> c2.chars[i + k] == #[trigger] c1.chars[i]
    &&& c2.octal == c1.octal
    &&& c2.nest_limit == c1.nest_limit
}

/// The same reader's state, `k` characters further on.
pub open spec fn st_shift(a: PState, b: PState, k: int) -> bool {
    0 <= a.pos && b == PState { pos: a.pos + k, ..a }
}

/// The same outcome, `k` characters further on.
pub open spec fn out_shift<T>(k: int, x: Out<T>, y: Out<T>) -> bool {
    x.0 == y.0 && st_shift(x.1, y.1, k)
}

proof fn lemma_sh_number_loop(c1: PCfg, c2: PCfg, sh: int, a: PState, b: PState, n: usize)
    requires
        cfg_shift(c1, c2, sh),
        st_shift(a, b, sh),
    ensures
        sp_number_loop(c1, a, n).0 == sp_number_loop(c2, b, n).0,
        st_shift(sp_number_loop(c1, a, n).1, sp_number_loop(c2, b, n).1, sh),
    decreases rem(c1, a), 32nat,
{
    if let Some(c) = sp_peek(c1, a) {
        if let Some(d) = spec_to_digit(c, 10) {
            lemma_sh_number_loop(c1, c2, sh, with_pos(a, a.pos + 1), with_pos(b, b.pos + 1), sat(sat(n * 10) + d));
        }
    }
}

proof fn lemma_sh_number(c1: PCfg, c2: PCfg, sh: int, a: PState, b: PState)
    requires
        cfg_shift(c1, c2, sh),
        st_shift(a, b, sh),
    ensures
        out_shift(sh, sp_number(c1, a), sp_number(c2, b)),
    decreases rem(c1, a), 33nat,
{
    lemma_sh_number_loop(c1, c2, sh, a, b, 0);
}

proof fn lemma_sh_braces(c1: PCfg, c2: PCfg, sh: int, a: PState, b: PState)
    requires
        cfg_shift(c1, c2, sh),
        st_shift(a, b, sh),
    ensures
        out_shift(sh, sp_braces(c1, a), sp_braces(c2, b)),
    decreases rem(c1, a), 34nat,
{
    let (_, a1) = sp_bump(c1, a);
    let (_, b1) = sp_bump(c2, b);
    if sp_peek(c1, a1) != Some(',') {
        lemma_sh_number(c1, c2, sh, a1, b1);
    }
    let (rmin, a2) = if sp_peek(c1, a1) == Some(',') {
        (Ok(0usize), a1)
    } else {
        sp_number(c1, a1)
    };
    let (_, b2) = if sp_peek(c2, b1) == Some(',') {
        (Ok(0usize), b1)
    } else {
        sp_number(c2, b1)
    };
    if rmin is Ok {
        let (comma, a3) = sp_eat(c1, a2, ',');
        let (_, b3) = sp_eat(c2, b2, ',');
        if comma && sp_peek(c1, a3) != Some('}') {
            lemma_sh_number(c1, c2, sh, a3, b3);
        }
    }
}

proof fn lemma_sh_name_until(c1: PCfg, c2: PCfg, sh: int, a: PState, b: PState, end: char, acc: Seq<char>)
    requires
        cfg_shift(c1, c2, sh),
        st_shift(a, b, sh),
    ensures
        out_shift(sh, sp_name_until(c1, a, end, acc), sp_name_until(c2, b, end, acc)),
    decreases rem(c1, a), 26nat,
{
    let (oc, a1) = sp_bump(c1, a);
    let (_, b1) = sp_bump(c2, b);
    if let Some(c) = oc {
        if c != end {
            lemma_sh_name_until(c1, c2, sh, a1, b1, end, acc.push(c));
        }
    }
}

proof fn lemma_sh_hex_digit(c1: PCfg, c2: PCfg, sh: int, a: PState, b: PState)
    requires
        cfg_shift(c1, c2, sh),
        st_shift(a, b, sh),
    ensures
        out_shift(sh, sp_hex_digit(c1, a), sp_hex_digit(c2, b)),
{
}

proof fn lemma_sh_hex_digits(c1: PCfg, c2: PCfg, sh: int, a: PState, b: PState, k: nat, value: u32)
    requires
        cfg_shift(c1, c2, sh),
        st_shift(a, b, sh),
    ensures
        out_shift(sh, sp_hex_digits(c1, a, k, value), sp_hex_digits(c2, b, k, value)),
    decreases rem(c1, a), 23nat, k,
{
    if k > 0 {
        lemma_sh_hex_digit(c1, c2, sh, a, b);
        let (r, a1) = sp_hex_digit(c1, a);
        let (_, b1) = sp_hex_digit(c2, b);
        if let Ok(d) = r {
            lemma_sh_hex_digits(c1, c2, sh, a1, b1, (k - 1) as nat, (value << 4u32) | d);
        }
    }
}

proof fn lemma_sh_hex_until_loop(c1: PCfg, c2: PCfg, sh: int, a: PState, b: PState, end: char, value: u32, saw: bool)
    requires
        cfg_shift(c1, c2, sh),
        st_shift(a, b, sh),
    ensures
        out_shift(sh, sp_hex_until_loop(c1, a, end, value, saw), sp_hex_until_loop(c2, b, end, value, saw)),
    decreases rem(c1, a), 22nat, 0nat,
{
    if sp_peek(c1, a) is Some && sp_peek(c1, a) != Some(end) {
        lemma_sh_hex_digit(c1, c2, sh, a, b);
        let (r, a1) = sp_hex_digit(c1, a);
        let (_, b1) = sp_hex_digit(c2, b);
        if let Ok(d) = r {
            lemma_sh_hex_until_loop(c1, c2, sh, a1, b1, end, (value << 4u32) | d, true);
        }
    }
}

proof fn lemma_sh_hex_escape(c1: PCfg, c2: PCfg, sh: int, a: PState, b: PState)
    requires
        cfg_shift(c1, c2, sh),
        st_shift(a, b, sh),
    ensures
        out_shift(sh, sp_hex_escape(c1, a), sp_hex_escape(c2, b)),
{
    let (brace, a1) = sp_eat(c1, a, '{');
    let (_, b1) = sp_eat(c2, b, '{');
    if brace {
        lemma_sh_hex_until_loop(c1, c2, sh, a1, b1, '}', 0, false);
    } else {
        lemma_sh_hex_digit(c1, c2, sh, a, b);
        let (_, a2) = sp_hex_digit(c1, a);
        let (_, b2) = sp_hex_digit(c2, b);
        lemma_sh_hex_digit(c1, c2, sh, a2, b2);
    }
}

proof fn lemma_sh_unicode_escape(c1: PCfg, c2: PCfg, sh: int, a: PState, b: PState)
    requires
        cfg_shift(c1, c2, sh),
        st_shift(a, b, sh),
    ensures
        out_shift(sh, sp_unicode_escape(c1, a), sp_unicode_escape(c2, b)),
{
    let (brace, a1) = sp_eat(c1, a, '{');
    let (_, b1) = sp_eat(c2, b, '{');
    if brace {
        lemma_sh_hex_until_loop(c1, c2, sh, a1, b1, '}', 0, false);
    } else {
        lemma_sh_hex_digits(c1, c2, sh, a, b, 4, 0);
    }
}

proof fn lemma_sh_property_name(c1: PCfg, c2: PCfg, sh: int, a: PState, b: PState)
    requires
        cfg_shift(c1, c2, sh),
        st_shift(a, b, sh),
    ensures
        out_shift(sh, sp_property_name(c1, a), sp_property_name(c2, b)),
{
    let (brace, a1) = sp_eat(c1, a, '{');
    let (_, b1) = sp_eat(c2, b, '{');
    if brace {
        lemma_sh_name_until(c1, c2, sh, a1, b1, '}', seq![]);
    }
}

#[verifier::rlimit(60)]
proof fn lemma_sh_escape(c1: PCfg, c2: PCfg, sh: int, a: PState, b: PState, in_class: bool)
    requires
        cfg_shift(c1, c2, sh),
        st_shift(a, b, sh),
    ensures
        out_shift(sh, sp_escape(c1, a, in_class), sp_escape(c2, b, in_class)),
{
    let (oc, a1) = sp_bump(c1, a);
    let (oc2, b1) = sp_bump(c2, b);
    assert(sp_peek(c2, b) == sp_peek(c1, a));
    assert(oc == oc2);
    assert(st_shift(a1, b1, sh));
    if let Some(c) = oc {
        if c == 'x' {
            lemma_sh_hex_escape(c1, c2, sh, a1, b1);
        } else if c == 'u' {
            lemma_sh_unicode_escape(c1, c2, sh, a1, b1);
        } else if c == 'p' || c == 'P' {
            lemma_sh_property_name(c1, c2, sh, a1, b1);
        } else if '0' <= c <= '7' {
            let v0 = spec_to_digit(c, 8).unwrap();
            let (v1, x1) = sp_octal_step(c1, a1, v0);
            let (w1, y1) = sp_octal_step(c2, b1, v0);
            assert(sp_peek(c2, b1) == sp_peek(c1, a1));
            assert(v1 == w1 && st_shift(x1, y1, sh));
            assert(sp_peek(c2, y1) == sp_peek(c1, x1));
        }
    }
}

proof fn lemma_sh_class_item(c1: PCfg, c2: PCfg, sh: int, a: PState, b: PState)
    requires
        cfg_shift(c1, c2, sh),
        st_shift(a, b, sh),
    ensures
        out_shift(sh, sp_class_item(c1, a), sp_class_item(c2, b)),
    decreases rem(c1, a), 15nat,
{
    let (oc, a1) = sp_bump(c1, a);
    let (_, b1) = sp_bump(c2, b);
    if let Some(c) = oc {
        if c == '\\' {
            lemma_sh_escape(c1, c2, sh, a1, b1, true);
        } else if c == '[' {
            lemma_sh_class_expr(c1, c2, sh, a1, b1);
        }
    }
}

proof fn lemma_sh_union_loop(c1: PCfg, c2: PCfg, sh: int, a: PState, b: PState, negated: bool, items: Seq<SItem>, first: bool)
    requires
        cfg_shift(c1, c2, sh),
        st_shift(a, b, sh),
    ensures
        out_shift(sh, sp_union_loop(c1, a, negated, items, first), sp_union_loop(c2, b, negated, items, first)),
    decreases rem(c1, a), 16nat,
{
    if let Some(c) = sp_peek(c1, a) {
        if !(c == ']' && !first) && !(!first && c == '&' && sp_peek2(c1, a) == Some('&')) {
            lemma_sh_class_item(c1, c2, sh, a, b);
            let (r, a1) = sp_class_item(c1, a);
            let (_, b1) = sp_class_item(c2, b);
            if let Ok(start) = r {
                if a1.pos > a.pos {
                    if sp_peek(c1, a1) == Some('-') {
                        let a2 = with_pos(a1, a1.pos + 1);
                        let b2 = with_pos(b1, b1.pos + 1);
                        if sp_peek(c1, a2) == Some(']') {
                            lemma_sh_union_loop(c1, c2, sh, a2, b2, negated, items.push(start).push(SItem::Char('-')), false);
                        } else {
                            lemma_sh_class_item(c1, c2, sh, a2, b2);
                            let (r2, a3) = sp_class_item(c1, a2);
                            let (_, b3) = sp_class_item(c2, b2);
                            if let Ok(end) = r2 {
                                if a3.pos >= a2.pos {
                                    if let (SItem::Char(x), SItem::Char(y)) = (start, end) {
                                        if x <= y {
                                            lemma_sh_union_loop(c1, c2, sh, a3, b3, negated, sp_push_range(a3.flags, items, x, y), false);
                                        }
                                    }
                                }
                            }
                        }
                    } else {
                        lemma_sh_union_loop(c1, c2, sh, a1, b1, negated, sp_push_item(a1.flags, items, start), false);
                    }
                }
            }
        }
    }
}

proof fn lemma_sh_class_union(c1: PCfg, c2: PCfg, sh: int, a: PState, b: PState)
    requires
        cfg_shift(c1, c2, sh),
        st_shift(a, b, sh),
    ensures
        out_shift(sh, sp_class_union(c1, a), sp_class_union(c2, b)),
    decreases rem(c1, a), 17nat,
{
    let (negated, a1) = sp_eat(c1, a, '^');
    let (_, b1) = sp_eat(c2, b, '^');
    lemma_sh_union_loop(c1, c2, sh, a1, b1, negated, seq![], true);
}

proof fn lemma_sh_class_expr_loop(c1: PCfg, c2: PCfg, sh: int, a: PState, b: PState, class: SClass)
    requires
        cfg_shift(c1, c2, sh),
        st_shift(a, b, sh),
    ensures
        out_shift(sh, sp_class_expr_loop(c1, a, class), sp_class_expr_loop(c2, b, class)),
    decreases rem(c1, a), 18nat,
{
    if sp_peek(c1, a) == Some('&') && sp_peek2(c1, a) == Some('&') {
        let a1 = with_pos(a, a.pos + 2);
        let b1 = with_pos(b, b.pos + 2);
        lemma_sh_class_union(c1, c2, sh, a1, b1);
        let (r, a2) = sp_class_union(c1, a1);
        let (_, b2) = sp_class_union(c2, b1);
        if let Ok(c) = r {
            if a2.pos >= a1.pos {
                lemma_sh_class_expr_loop(c1, c2, sh, a2, b2, SClass { inter: class.inter.push(c), ..class });
            }
        }
    }
}

proof fn lemma_sh_class_expr(c1: PCfg, c2: PCfg, sh: int, a: PState, b: PState)
    requires
        cfg_shift(c1, c2, sh),
        st_shift(a, b, sh),
    ensures
        out_shift(sh, sp_class_expr(c1, a), sp_class_expr(c2, b)),
    decreases rem(c1, a), 19nat,
{
    lemma_sh_class_union(c1, c2, sh, a, b);
    let (r, a1) = sp_class_union(c1, a);
    let (_, b1) = sp_class_union(c2, b);
    if let Ok(c) = r {
        if a1.pos >= a.pos {
            lemma_sh_class_expr_loop(c1, c2, sh, a1, b1, c);
        }
    }
}

proof fn lemma_sh_class(c1: PCfg, c2: PCfg, sh: int, a: PState, b: PState)
    requires
        cfg_shift(c1, c2, sh),
        st_shift(a, b, sh),
    ensures
        out_shift(sh, sp_class(c1, a), sp_class(c2, b)),
    decreases rem(c1, a), 20nat,
{
    lemma_sh_class_expr(c1, c2, sh, a, b);
}

proof fn lemma_sh_repeat_loop(c1: PCfg, c2: PCfg, sh: int, a: PState, b: PState, n1: SAst, n2: SAst)
    requires
        cfg_shift(c1, c2, sh),
        st_shift(a, b, sh),
        n1 == n2,
    ensures
        out_shift(sh, sp_repeat_loop(c1, a, n1), sp_repeat_loop(c2, b, n2)),
    decreases rem(c1, a), 35nat,
{
    if let Some(c) = sp_peek(c1, a) {
        if c == '*' || c == '+' || c == '?' {
            let min: usize = if c == '+' {
                1
            } else {
                0
            };
            let max: Option<usize> = if c == '?' {
                Some(1)
            } else {
                None
            };
            let (m1, a2) = sp_quantified(c1, with_pos(a, a.pos + 1), n1, min, max);
            let (m2, b2) = sp_quantified(c2, with_pos(b, b.pos + 1), n2, min, max);
            lemma_sh_repeat_loop(c1, c2, sh, a2, b2, m1, m2);
        } else if c == '{' {
            lemma_sh_braces(c1, c2, sh, a, b);
            let (r, a1) = sp_braces(c1, a);
            let (_, b1) = sp_braces(c2, b);
            if let Ok((min, max)) = r {
                if a1.pos > a.pos {
                    let (m1, a2) = sp_quantified(c1, a1, n1, min, max);
                    let (m2, b2) = sp_quantified(c2, b1, n2, min, max);
                    lemma_sh_repeat_loop(c1, c2, sh, a2, b2, m1, m2);
                }
            }
        }
    }
}

proof fn lemma_sh_repeat(c1: PCfg, c2: PCfg, sh: int, a: PState, b: PState)
    requires
        cfg_shift(c1, c2, sh),
        st_shift(a, b, sh),
    ensures
        out_shift(sh, sp_repeat(c1, a), sp_repeat(c2, b)),
    decreases rem(c1, a), 36nat,
{
    lemma_sh_atom(c1, c2, sh, a, b);
    let (r1, a1) = sp_atom(c1, a);
    let (r2, b1) = sp_atom(c2, b);
    if let Ok(n1) = r1 {
        if a1.pos >= a.pos {
            lemma_sh_repeat_loop(c1, c2, sh, a1, b1, n1, r2->Ok_0);
        }
    }
}

proof fn lemma_sh_concat_loop(c1: PCfg, c2: PCfg, sh: int, a: PState, b: PState, p1: Seq<SAst>, p2: Seq<SAst>)
    requires
        cfg_shift(c1, c2, sh),
        st_shift(a, b, sh),
        p1 == p2,
    ensures
        out_shift(sh, sp_concat_loop(c1, a, p1), sp_concat_loop(c2, b, p2)),
    decreases rem(c1, a), 37nat,
{
    if let Some(c) = sp_peek(c1, a) {
        if !(c == ')' || c == '|') {
            if a.flags.ws && char_is_whitespace(c) {
                lemma_sh_concat_loop(c1, c2, sh, with_pos(a, a.pos + 1), with_pos(b, b.pos + 1), p1, p2);
            } else {
                lemma_sh_repeat(c1, c2, sh, a, b);
                let (r1, a1) = sp_repeat(c1, a);
                let (r2, b1) = sp_repeat(c2, b);
                if let Ok(n1) = r1 {
                    if a1.pos > a.pos {
                        lemma_sh_concat_loop(c1, c2, sh, a1, b1, p1.push(n1), p2.push(r2->Ok_0));
                    }
                }
            }
        }
    }
}

proof fn lemma_sh_alt_loop(c1: PCfg, c2: PCfg, sh: int, a: PState, b: PState, p1: Seq<SAst>, p2: Seq<SAst>)
    requires
        cfg_shift(c1, c2, sh),
        st_shift(a, b, sh),
        p1 == p2,
    ensures
        out_shift(sh, sp_alt_loop(c1, a, p1), sp_alt_loop(c2, b, p2)),
    decreases rem(c1, a), 39nat,
{
    let (bar, a1) = sp_eat(c1, a, '|');
    let (_, b1) = sp_eat(c2, b, '|');
    if bar {
        lemma_sh_concat_loop(c1, c2, sh, a1, b1, seq![], seq![]);
        let (r1, a2) = sp_concat(c1, a1);
        let (r2, b2) = sp_concat(c2, b1);
        if let Ok(n1) = r1 {
            if a2.pos >= a1.pos {
                lemma_sh_alt_loop(c1, c2, sh, a2, b2, p1.push(n1), p2.push(r2->Ok_0));
            }
        }
    }
}

#[verifier::rlimit(60)]
proof fn lemma_sh_alt(c1: PCfg, c2: PCfg, sh: int, a: PState, b: PState)
    requires
        cfg_shift(c1, c2, sh),
        st_shift(a, b, sh),
    ensures
        out_shift(sh, sp_alt(c1, a), sp_alt(c2, b)),
    decreases rem(c1, a), 40nat,
{
    lemma_sh_concat_loop(c1, c2, sh, a, b, seq![], seq![]);
    let (r1, a1) = sp_concat(c1, a);
    let (r2, b1) = sp_concat(c2, b);
    if let Ok(n1) = r1 {
        if a1.pos >= a.pos {
            assert(seq![].push(n1) == seq![n1]);
            assert(seq![].push(r2->Ok_0) == seq![r2->Ok_0]);
            lemma_sh_alt_loop(c1, c2, sh, a1, b1, seq![n1], seq![r2->Ok_0]);
        }
    }
}

#[verifier::rlimit(60)]
proof fn lemma_sh_group_body(c1: PCfg, c2: PCfg, sh: int, a: PState, b: PState, name: Option<Seq<char>>)
    requires
        cfg_shift(c1, c2, sh),
        st_shift(a, b, sh),
    ensures
        out_shift(sh, sp_group_body(c1, a, name), sp_group_body(c2, b, name)),
    decreases rem(c1, a), 41nat,
{
    let (e, a1) = sp_enter_group(c1, a);
    let (_, b1) = sp_enter_group(c2, b);
    if e is Ok {
        let (_, a2) = sp_next_capture(a1, name);
        let (_, b2) = sp_next_capture(b1, name);
        lemma_sh_alt(c1, c2, sh, a2, b2);
    }
}

#[verifier::rlimit(60)]
proof fn lemma_sh_plain_group_body(c1: PCfg, c2: PCfg, sh: int, a: PState, b: PState)
    requires
        cfg_shift(c1, c2, sh),
        st_shift(a, b, sh),
    ensures
        out_shift(sh, sp_plain_group_body(c1, a), sp_plain_group_body(c2, b)),
    decreases rem(c1, a), 41nat,
{
    let (e, a1) = sp_enter_group(c1, a);
    let (_, b1) = sp_enter_group(c2, b);
    if e is Ok {
        lemma_sh_alt(c1, c2, sh, a1, b1);
    }
}

proof fn lemma_sh_named_group(c1: PCfg, c2: PCfg, sh: int, a: PState, b: PState)
    requires
        cfg_shift(c1, c2, sh),
        st_shift(a, b, sh),
    ensures
        out_shift(sh, sp_named_group(c1, a), sp_named_group(c2, b)),
    decreases rem(c1, a), 42nat,
{
    lemma_sh_name_until(c1, c2, sh, a, b, '>', seq![]);
    let (r, a1) = sp_name_until(c1, a, '>', seq![]);
    let (_, b1) = sp_name_until(c2, b, '>', seq![]);
    if let Ok(name) = r {
        if a1.pos >= a.pos {
            lemma_sh_group_body(c1, c2, sh, a1, b1, Some(name));
        }
    }
}

proof fn lemma_sh_flag_loop(
    c1: PCfg,
    c2: PCfg,
    sh: int,
    a: PState,
    b: PState,
    saved1: PFlags,
    saved2: PFlags,
    saw: bool,
    enable: bool,
)
    requires
        cfg_shift(c1, c2, sh),
        st_shift(a, b, sh),
        saved1 == saved2,
    ensures
        out_shift(sh, sp_flag_loop(c1, a, saved1, saw, enable), sp_flag_loop(c2, b, saved2, saw, enable)),
    decreases rem(c1, a), 27nat,
{
    if let Some(c) = sp_peek(c1, a) {
        let a1 = with_pos(a, a.pos + 1);
        let b1 = with_pos(b, b.pos + 1);
        if is_flag_char(c) {
            lemma_sh_flag_loop(
                c1,
                c2,
                sh,
                with_flags(a1, sp_set_flag(a1.flags, c, enable)),
                with_flags(b1, sp_set_flag(b1.flags, c, enable)),
                saved1,
                saved2,
                true,
                enable,
            );
        } else if c == '-' {
            lemma_sh_flag_loop(c1, c2, sh, a1, b1, saved1, saved2, saw, false);
        } else if c == ':' && saw {
            lemma_sh_plain_group_body(c1, c2, sh, a1, b1);
        } else if c == ')' && saw {
        }
    }
}

proof fn lemma_sh_special_group(c1: PCfg, c2: PCfg, sh: int, a: PState, b: PState)
    requires
        cfg_shift(c1, c2, sh),
        st_shift(a, b, sh),
    ensures
        out_shift(sh, sp_special_group(c1, a), sp_special_group(c2, b)),
    decreases rem(c1, a), 43nat,
{
    let (colon, a1) = sp_eat(c1, a, ':');
    let (_, b1) = sp_eat(c2, b, ':');
    if colon {
        lemma_sh_plain_group_body(c1, c2, sh, a1, b1);
    } else {
        let (p, ap) = sp_eat(c1, a, 'P');
        let (_, bp) = sp_eat(c2, b, 'P');
        let (lt, al) = if p {
            sp_eat(c1, ap, '<')
        } else {
            (false, ap)
        };
        let (_, bl) = if p {
            sp_eat(c2, bp, '<')
        } else {
            (false, bp)
        };
        if p && lt {
            lemma_sh_named_group(c1, c2, sh, al, bl);
        } else {
            let (lt2, a2) = sp_eat(c1, ap, '<');
            let (_, b2) = sp_eat(c2, bp, '<');
            if lt2 {
                lemma_sh_named_group(c1, c2, sh, a2, b2);
            } else {
                lemma_sh_flag_loop(c1, c2, sh, ap, bp, ap.flags, bp.flags, false, true);
            }
        }
    }
}

proof fn lemma_sh_atom(c1: PCfg, c2: PCfg, sh: int, a: PState, b: PState)
    requires
        cfg_shift(c1, c2, sh),
        st_shift(a, b, sh),
    ensures
        out_shift(sh, sp_atom(c1, a), sp_atom(c2, b)),
    decreases rem(c1, a), 31nat,
{
    let (oc, a1) = sp_bump(c1, a);
    let (_, b1) = sp_bump(c2, b);
    if let Some(c) = oc {
        if c == '(' {
            let (q, a2) = sp_eat(c1, a1, '?');
            let (_, b2) = sp_eat(c2, b1, '?');
            if q {
                lemma_sh_special_group(c1, c2, sh, a2, b2);
            } else {
                lemma_sh_group_body(c1, c2, sh, a1, b1, None);
            }
        } else if c == '[' {
            lemma_sh_class(c1, c2, sh, a1, b1);
        } else if c == '\\' {
            lemma_sh_escape(c1, c2, sh, a1, b1, false);
        }
    }
}

proof fn lemma_sh_concat_loop_led(c1: PCfg, c2: PCfg, sh: int, a: PState, b: PState, p: Seq<SAst>)
    requires
        cfg_shift(c1, c2, sh),
        st_shift(a, b, sh),
    ensures
        ({
            let x = sp_concat_loop(c1, a, p);
            let y = sp_concat_loop(c2, b, seq![SAst::Empty] + p);
            &&& st_shift(x.1, y.1, sh)
            &&& match x.0 {
                Ok(t1) => y.0 matches Ok(t2) && empty_led(t2, t1),
                Err(m) => y.0 == Err::<SAst, Seq<char>>(m),
            }
        }),
    decreases rem(c1, a), 37nat,
{
    let q = seq![SAst::Empty] + p;
    assert(sp_peek(c2, b) == sp_peek(c1, a));
    if p.len() > 0 {
        assert(q.drop_first() =~= p);
    } else {
        assert(q =~= seq![SAst::Empty]);
    }
    if let Some(c) = sp_peek(c1, a) {
        if !(c == ')' || c == '|') {
            if a.flags.ws && char_is_whitespace(c) {
                lemma_sh_concat_loop_led(c1, c2, sh, with_pos(a, a.pos + 1), with_pos(b, b.pos + 1), p);
            } else {
                lemma_sh_repeat(c1, c2, sh, a, b);
                let (r1, a1) = sp_repeat(c1, a);
                if let Ok(n1) = r1 {
                    if a1.pos > a.pos {
                        assert(q.push(n1) =~= seq![SAst::Empty] + p.push(n1));
                        lemma_sh_concat_loop_led(c1, c2, sh, a1, sp_repeat(c2, b).1, p.push(n1));
                    }
                }
            }
        }
    }
}

proof fn lemma_sh_alt_loop_led(c1: PCfg, c2: PCfg, sh: int, a: PState, b: PState, p1: Seq<SAst>, p2: Seq<SAst>)
    requires
        cfg_shift(c1, c2, sh),
        st_shift(a, b, sh),
        p1.len() >= 1,
        p2.len() == p1.len(),
        empty_led(p2[0], p1[0]),
        p2.drop_first() == p1.drop_first(),
    ensures
        ({
            let x = sp_alt_loop(c1, a, p1);
            let y = sp_alt_loop(c2, b, p2);
            &&& st_shift(x.1, y.1, sh)
            &&& match x.0 {
                Ok(t1) => y.0 matches Ok(t2) && alt_led(t2, t1),
                Err(m) => y.0 == Err::<SAst, Seq<char>>(m),
            }
        }),
    decreases rem(c1, a), 39nat,
{
    assert(sp_peek(c2, b) == sp_peek(c1, a));
    let (bar, a1) = sp_eat(c1, a, '|');
    let (_, b1) = sp_eat(c2, b, '|');
    if bar {
        lemma_sh_concat_loop(c1, c2, sh, a1, b1, seq![], seq![]);
        let (r1, a2) = sp_concat(c1, a1);
        let (_, b2) = sp_concat(c2, b1);
        if let Ok(n1) = r1 {
            if a2.pos >= a1.pos {
                assert(p2.push(n1)[0] == p2[0]);
                assert(p1.push(n1)[0] == p1[0]);
                assert(p2.push(n1).drop_first() =~= p2.drop_first().push(n1));
                assert(p1.push(n1).drop_first() =~= p1.drop_first().push(n1));
                lemma_sh_alt_loop_led(c1, c2, sh, a2, b2, p1.push(n1), p2.push(n1));
            }
        }
    } else if p1.len() > 1 {
        assert(p2.drop_first()[0] == p2[1]);
    }
}

/// The characters of `(?i)`.
pub open spec fn case_insensitive_prefix() -> Seq<char> {
    seq!['(', '?', 'i', ')']
}

/// Reading `(?i)` and then a pattern reads the pattern with case
/// insensitivity on: where the pattern reads without error, so does the
/// whole, with an empty node in front of its first alternative and the same
/// groups and names.
pub proof fn lemma_parse_ci_prefix(c1: PCfg, c2: PCfg, f1: PFlags, f2: PFlags)
    requires
        c2.chars == case_insensitive_prefix() + c1.chars,
        c2.octal == c1.octal,
        c2.nest_limit == c1.nest_limit,
        f1 == (PFlags { ci: true, ..f2 }),
        !f2.ws,
    ensures
        sp_parse(c1, f1) matches Ok((t1, n1, names1)) ==> sp_parse(c2, f2) matches Ok((t2, n2, names2))
            && alt_led(t2, t1) && n1 == n2 && names1 == names2,
{
    let pre = case_insensitive_prefix();
    assert(c2.chars.len() == c1.chars.len() + 4);
    assert forall|i: int| 0 <= i < c1.chars.len() implies c2.chars[i + 4] == #[trigger] c1.chars[i] by {
        assert(c2.chars[i + 4] == (pre + c1.chars)[i + 4]);
    }
    assert(cfg_shift(c1, c2, 4));
    assert(c2.chars[0] == '(' && c2.chars[1] == '?' && c2.chars[2] == 'i' && c2.chars[3] == ')');
    let s1 = initial_state(f1);
    let s2 = initial_state(f2);
    let p2 = with_pos(s2, 2);
    let t3 = with_flags(with_pos(s2, 3), sp_set_flag(with_pos(s2, 3).flags, 'i', true));
    let t4 = with_pos(t3, 4);
    assert(t4 == PState { pos: 4, ..s1 });
    assert(sp_flag_loop(c2, t3, f2, true, true) == (Ok::<SAst, Seq<char>>(SAst::Empty), t4));
    assert(sp_flag_loop(c2, p2, f2, false, true) == (Ok::<SAst, Seq<char>>(SAst::Empty), t4));
    assert(sp_special_group(c2, p2) == (Ok::<SAst, Seq<char>>(SAst::Empty), t4));
    assert(sp_atom(c2, s2) == (Ok::<SAst, Seq<char>>(SAst::Empty), t4));
    if sp_parse(c1, f1) is Ok {
        if c1.chars.len() > 0 {
            let c = c1.chars[0];
            if c == '*' || c == '+' || c == '?' || c == '{' {
                assert(sp_atom(c1, s1).0 is Err);
                assert(sp_repeat(c1, s1).0 is Err);
                assert(sp_concat_loop(c1, s1, seq![]).0 is Err);
                assert(false);
            }
        }
        assert(sp_peek(c2, t4) == sp_peek(c1, s1));
        assert(sp_repeat_loop(c2, t4, SAst::Empty) == (Ok::<SAst, Seq<char>>(SAst::Empty), t4));
        assert(sp_repeat(c2, s2) == (Ok::<SAst, Seq<char>>(SAst::Empty), t4));
        assert(seq![].push(SAst::Empty) == seq![SAst::Empty]);
        assert(seq![SAst::Empty] + Seq::<SAst>::empty() =~= seq![SAst::Empty]);
        assert(sp_concat_loop(c2, s2, seq![]) == sp_concat_loop(c2, t4, seq![SAst::Empty]));
        lemma_sh_concat_loop_led(c1, c2, 4, s1, t4, seq![]);
        let (r1, x1) = sp_concat(c1, s1);
        let (r2, y1) = sp_concat(c2, s2);
        if let Ok(u1) = r1 {
            let u2 = r2->Ok_0;
            assert(seq![u1].drop_first() =~= Seq::<SAst>::empty());
            assert(seq![u2].drop_first() =~= Seq::<SAst>::empty());
            lemma_sh_alt_loop_led(c1, c2, 4, x1, y1, seq![u1], seq![u2]);
            assert(sp_peek(c2, sp_alt(c2, s2).1) == sp_peek(c1, sp_alt(c1, s1).1));
        }
    }
}

} // verus!
