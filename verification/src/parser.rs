use vstd::prelude::*;
use crate::ast::{
    asts_view, classes_view, items_view, lemma_asts_view, lemma_asts_view_push, lemma_classes_view,
    lemma_classes_view_push, lemma_items_view, lemma_items_view_push, Ast, Class, ClassItem, SAst,
    SClass, SItem,
};
use crate::error::Error;
use crate::grammar::{
    all_groups_in, groups_in, initial_state, lemma_all_groups_in_push,
    lemma_all_groups_in_widen, lemma_groups_in_below, lemma_groups_in_widen, one_item_class, rem,
    sat, sp_alt, sp_alt_loop, sp_atom, sp_braces, sp_bump, sp_class, sp_class_expr,
    sp_class_expr_loop, sp_class_item, sp_class_union, sp_concat, sp_concat_loop, sp_eat,
    sp_enter_group, sp_escape, sp_flag_loop, sp_group_body, sp_hex_digit, sp_hex_digits,
    sp_hex_escape, sp_hex_until, sp_hex_until_loop, sp_leave_group, sp_literal, sp_name_until,
    sp_named_group, sp_next_capture, sp_number, sp_number_loop, sp_octal_escape, sp_octal_step,
    sp_parse, sp_peek, sp_peek2, sp_plain_group_body, sp_property_name, sp_push_item,
    sp_push_range, sp_quantified, sp_repeat, sp_repeat_loop, sp_set_flag, sp_special_group,
    sp_union_loop, sp_unicode_escape, spec_to_digit, with_flags, with_pos, PCfg,
    PFlags, PState,
};
use crate::matcher::groups_below;
use crate::text::{push_char, str_chars};
use crate::unicode::{
    from_scalar, is_ascii_alphabetic, is_ascii_lowercase, is_ascii_uppercase, is_whitespace,
    to_ascii_lowercase, to_ascii_uppercase,
};

verus! {

/// The result of a successful parse: an AST and the number of capture groups.
pub struct Parsed {
    pub ast: Ast,
    pub captures: usize,
    pub capture_names: Vec<Option<String>>,
}

/// Syntax options: the flags a pattern starts with, and what it may use.
#[derive(Clone, Copy, Debug)]
pub struct Options {
    pub unicode: bool,
    pub octal: bool,
    pub nest_limit: Option<u32>,
    pub case_insensitive: bool,
    pub multi_line: bool,
    pub dot_matches_new_line: bool,
    pub ignore_whitespace: bool,
    pub swap_greed: bool,
    pub crlf: bool,
}

impl Default for Options {
    /// Unicode on; everything else off, and no nesting limit.
    fn default() -> (r: Self)
        ensures
            r.unicode,
            !r.octal,
            r.nest_limit is None,
            !r.case_insensitive,
            !r.multi_line,
            !r.dot_matches_new_line,
            !r.ignore_whitespace,
            !r.swap_greed,
            !r.crlf,
    {
        Options {
            unicode: true,
            octal: false,
            nest_limit: None,
            case_insensitive: false,
            multi_line: false,
            dot_matches_new_line: false,
            ignore_whitespace: false,
            swap_greed: false,
            crlf: false,
        }
    }
}

/// The flags a pattern starts with under `o`.
pub open spec fn options_flags(o: Options) -> PFlags {
    PFlags {
        ci: o.case_insensitive,
        ml: o.multi_line,
        dotnl: o.dot_matches_new_line,
        ws: o.ignore_whitespace,
        swap: o.swap_greed,
        crlf: o.crlf,
        unicode: o.unicode,
    }
}

/// What stays fixed while the characters `chars` are read under `o`.
pub open spec fn options_cfg(chars: Seq<char>, o: Options) -> PCfg {
    PCfg { chars, octal: o.octal, nest_limit: o.nest_limit }
}

pub open spec fn name_view(o: Option<String>) -> Option<Seq<char>> {
    match o {
        Some(s) => Some(s@),
        None => None,
    }
}

/// The model of a list of group names.
pub open spec fn names_view(v: Seq<Option<String>>) -> Seq<Option<Seq<char>>> {
    v.map_values(|o: Option<String>| name_view(o))
}

pub open spec fn ast_res(r: Result<Ast, Error>) -> Result<SAst, Seq<char>> {
    match r {
        Ok(a) => Ok(a@),
        Err(e) => Err(e@),
    }
}

pub open spec fn class_res(r: Result<Class, Error>) -> Result<SClass, Seq<char>> {
    match r {
        Ok(a) => Ok(a@),
        Err(e) => Err(e@),
    }
}

pub open spec fn item_res(r: Result<ClassItem, Error>) -> Result<SItem, Seq<char>> {
    match r {
        Ok(a) => Ok(a@),
        Err(e) => Err(e@),
    }
}

pub open spec fn str_res(r: Result<String, Error>) -> Result<Seq<char>, Seq<char>> {
    match r {
        Ok(a) => Ok(a@),
        Err(e) => Err(e@),
    }
}

pub open spec fn val_res<T>(r: Result<T, Error>) -> Result<T, Seq<char>> {
    match r {
        Ok(a) => Ok(a),
        Err(e) => Err(e@),
    }
}

/// The value of `c` as a digit in `radix`, if it is one.
fn to_digit(c: char, radix: u32) -> (r: Option<u32>)
    ensures
        r == spec_to_digit(c, radix),
{
    let v: u32 = if '0' <= c && c <= '9' {
        (c as u32) - ('0' as u32)
    } else if 'a' <= c && c <= 'z' {
        (c as u32) - ('a' as u32) + 10
    } else if 'A' <= c && c <= 'Z' {
        (c as u32) - ('A' as u32) + 10
    } else {
        99
    };
    if v < radix {
        Some(v)
    } else {
        None
    }
}

/// The class tree of the single item `item`.
fn one_item(negated: bool, item: ClassItem) -> (r: Ast)
    ensures
        r@ == one_item_class(negated, item@),
{
    let mut items: Vec<ClassItem> = Vec::new();
    items.push(item);
    let r = Ast::Class(Class { negated, items, intersections: Vec::new() });
    proof {
        lemma_items_view(items@);
        assert(items_view(items@) =~= seq![item@]);
        assert(classes_view(Seq::<Class>::empty()) =~= Seq::<SClass>::empty());
    }
    r
}

/// The class item an escape inside a class stands for.
fn item_of_escape(a: Ast) -> (r: Result<ClassItem, Error>)
    ensures
        item_res(r) == (match a@ {
            SAst::Class(cls) => if cls.items.len() == 1 && !cls.negated && cls.inter.len() == 0 {
                Ok(cls.items[0])
            } else {
                Ok(SItem::Class(Box::new(cls)))
            },
            SAst::Literal(x) => Ok(SItem::Char(x)),
            _ => Err("unsupported class escape"@),
        }),
{
    match a {
        Ast::Class(cls) => {
            let Class { negated, items, intersections } = cls;
            proof {
                lemma_items_view(items@);
                lemma_classes_view(intersections@);
            }
            if items.len() == 1 && !negated && intersections.len() == 0 {
                let mut items = items;
                Ok(items.remove(0))
            } else {
                Ok(ClassItem::Class(Box::new(Class { negated, items, intersections })))
            }
        },
        Ast::Literal(x) => Ok(ClassItem::Char(x)),
        _ => Err(Error::new("unsupported class escape")),
    }
}

/// The class item for the single character `c`.
fn char_item(c: char) -> (r: ClassItem)
    ensures
        r@ == SItem::Char(c),
{
    ClassItem::Char(c)
}

/// The flags after `(?flag)` turns `flag` on or off.
fn set_flag(flags: PFlags, flag: char, enabled: bool) -> (r: PFlags)
    ensures
        r == sp_set_flag(flags, flag, enabled),
{
    if flag == 'i' {
        PFlags { ci: enabled, ..flags }
    } else if flag == 'm' {
        PFlags { ml: enabled, ..flags }
    } else if flag == 's' {
        PFlags { dotnl: enabled, ..flags }
    } else if flag == 'x' {
        PFlags { ws: enabled, ..flags }
    } else if flag == 'U' {
        PFlags { swap: enabled, ..flags }
    } else if flag == 'R' {
        PFlags { crlf: enabled, ..flags }
    } else if flag == 'u' {
        PFlags { unicode: enabled, ..flags }
    } else {
        flags
    }
}

/// The tree of a finished concatenation: empty, its one part, or the parts.
fn finish_concat(parts: Vec<Ast>) -> (r: Ast)
    ensures
        r@ == concat_done(asts_view(parts@)),
{
    proof {
        lemma_asts_view(parts@);
    }
    if parts.len() == 0 {
        Ast::Empty
    } else if parts.len() == 1 {
        let mut parts = parts;
        parts.remove(0)
    } else {
        Ast::Concat(parts)
    }
}

/// Appends `a`, whose groups lie in `mid+1..=hi`, to parts whose groups lie
/// in `lo+1..=mid`.
fn push_part(parts: &mut Vec<Ast>, a: Ast, Ghost(lo): Ghost<int>, Ghost(mid): Ghost<int>, Ghost(hi): Ghost<int>)
    requires
        all_groups_in(asts_view(old(parts)@), lo, mid),
        groups_in(a@, mid, hi),
        lo <= mid <= hi,
    ensures
        asts_view(final(parts)@) == asts_view(old(parts)@).push(a@),
        all_groups_in(asts_view(final(parts)@), lo, hi),
        final(parts)@.len() == old(parts)@.len() + 1,
{
    proof {
        lemma_all_groups_in_widen(asts_view(parts@), lo, mid, lo, hi);
        lemma_groups_in_widen(a@, mid, hi, lo, hi);
        lemma_all_groups_in_push(asts_view(parts@), a@, lo, hi);
        lemma_asts_view_push(parts@, a);
    }
    parts.push(a);
}

/// The tree of a finished concatenation.
pub open spec fn concat_done(parts: Seq<SAst>) -> SAst {
    if parts.len() == 0 {
        SAst::Empty
    } else if parts.len() == 1 {
        parts[0]
    } else {
        SAst::Concat(parts)
    }
}

/// Parses `pattern` under `options`.
///
/// On success: the tree, the number of capturing groups (below `usize::MAX`,
/// and every group index of the tree lies in `1..=captures`) and the groups'
/// names in order; each exactly as the pattern grammar reads them. On failure
/// the grammar's error message.
pub fn parse_with_options(pattern: &str, options: Options) -> (r: Result<Parsed, Error>)
    ensures
        match r {
            Ok(p) => {
                &&& sp_parse(options_cfg(pattern@, options), options_flags(options)) == Ok::<
                    (SAst, int, Seq<Option<Seq<char>>>),
                    Seq<char>,
                >((p.ast@, p.captures as int, names_view(p.capture_names@)))
                &&& p.captures < usize::MAX
                &&& p.capture_names@.len() == p.captures
                &&& groups_below(p.ast@, p.captures as nat + 1)
            },
            Err(e) => sp_parse(options_cfg(pattern@, options), options_flags(options)) == Err::<
                (SAst, int, Seq<Option<Seq<char>>>),
                Seq<char>,
            >(e@),
        },
{
    let chars = str_chars(pattern);
    let mut p = Parser {
        chars,
        pos: 0,
        captures: 0,
        capture_names: Vec::new(),
        flags: PFlags {
            ci: options.case_insensitive,
            ml: options.multi_line,
            dotnl: options.dot_matches_new_line,
            ws: options.ignore_whitespace,
            swap: options.swap_greed,
            crlf: options.crlf,
            unicode: options.unicode,
        },
        octal: options.octal,
        nest_limit: options.nest_limit,
        depth: 0,
    };
    proof {
        assert(names_view(p.capture_names@) =~= Seq::<Option<Seq<char>>>::empty());
        assert(p.st() == initial_state(options_flags(options)));
        assert(p.chars@.len() == p.chars.len());
    }
    let ast = match p.parse_alt() {
        Ok(a) => a,
        Err(e) => {
            return Err(e);
        },
    };
    if p.peek().is_some() {
        return Err(Error::new("unexpected trailing input"));
    }
    proof {
        lemma_groups_in_below(ast@, 0, p.captures as int);
        lemma_names_len(p.capture_names@);
    }
    Ok(Parsed { ast, captures: p.captures, capture_names: p.capture_names })
}

proof fn lemma_names_len(v: Seq<Option<String>>)
    ensures
        names_view(v).len() == v.len(),
{
}

/// Recursive-descent parser that walks the character stream.
struct Parser {
    chars: Vec<char>,
    pos: usize,
    captures: usize,
    capture_names: Vec<Option<String>>,
    flags: PFlags,
    octal: bool,
    nest_limit: Option<u32>,
    depth: usize,
}

impl Parser {
    spec fn cfg(&self) -> PCfg {
        PCfg { chars: self.chars@, octal: self.octal, nest_limit: self.nest_limit }
    }

    spec fn st(&self) -> PState {
        PState {
            pos: self.pos as int,
            captures: self.captures as int,
            names: names_view(self.capture_names@),
            flags: self.flags,
            depth: self.depth as int,
        }
    }

    /// Every group opened so far was opened by a consumed `(`, and every one
    /// closed by a consumed `)`.
    spec fn wf(&self) -> bool {
        &&& self.chars@.len() <= usize::MAX
        &&& self.pos <= self.chars@.len()
        &&& self.depth <= self.pos
        &&& 2 * self.captures <= self.pos + self.depth
        &&& self.capture_names@.len() == self.captures
    }

    /// `self` reads the same pattern as `other`, from no earlier a position.
    spec fn after(&self, other: &Parser) -> bool {
        &&& self.wf()
        &&& self.cfg() == other.cfg()
        &&& other.pos <= self.pos
        &&& other.captures <= self.captures
    }

    /// Returns the current character without consuming it.
    fn peek(&self) -> (r: Option<char>)
        requires
            self.wf(),
        ensures
            r == sp_peek(self.cfg(), self.st()),
    {
        if self.pos < self.chars.len() {
            Some(self.chars[self.pos])
        } else {
            None
        }
    }

    /// Returns the character after the current one without consuming anything.
    fn peek2(&self) -> (r: Option<char>)
        requires
            self.wf(),
        ensures
            r == sp_peek2(self.cfg(), self.st()),
    {
        if self.pos < self.chars.len() && self.pos + 1 < self.chars.len() {
            Some(self.chars[self.pos + 1])
        } else {
            None
        }
    }

    /// Consumes and returns the current character.
    fn bump(&mut self) -> (r: Option<char>)
        requires
            old(self).wf(),
        ensures
            final(self).after(old(self)),
            (r, final(self).st()) == sp_bump(old(self).cfg(), old(self).st()),
            final(self).st() == with_pos(old(self).st(), final(self).pos as int),
    {
        if self.pos < self.chars.len() {
            let c = self.chars[self.pos];
            self.pos = self.pos + 1;
            Some(c)
        } else {
            None
        }
    }

    /// Consumes the current character if it equals `c`, returning whether it matched.
    fn eat(&mut self, c: char) -> (r: bool)
        requires
            old(self).wf(),
        ensures
            final(self).after(old(self)),
            (r, final(self).st()) == sp_eat(old(self).cfg(), old(self).st(), c),
            final(self).st() == with_pos(old(self).st(), final(self).pos as int),
    {
        if self.pos < self.chars.len() && self.chars[self.pos] == c {
            self.pos = self.pos + 1;
            true
        } else {
            false
        }
    }

    /// Opens a group: one level deeper, within the nesting limit.
    fn enter_group(&mut self) -> (r: Result<(), Error>)
        requires
            old(self).wf(),
            old(self).depth < old(self).pos,
        ensures
            final(self).after(old(self)),
            (val_res(r), final(self).st()) == sp_enter_group(old(self).cfg(), old(self).st()),
            final(self).depth == old(self).depth + 1,
    {
        self.depth = self.depth + 1;
        match self.nest_limit {
            Some(limit) => {
                if self.depth > limit as usize {
                    return Err(Error::new("nest limit exceeded"));
                }
            },
            None => {},
        }
        Ok(())
    }

    /// Closes a group: one level shallower.
    fn leave_group(&mut self)
        requires
            old(self).wf(),
            old(self).depth >= 1,
            2 * old(self).captures < old(self).pos + old(self).depth,
        ensures
            final(self).after(old(self)),
            final(self).st() == sp_leave_group(old(self).st()),
            final(self).depth == old(self).depth - 1,
    {
        self.depth = self.depth - 1;
    }

    /// Numbers a new capturing group named `name`.
    fn next_capture(&mut self, name: Option<String>) -> (r: usize)
        requires
            old(self).wf(),
            2 * old(self).captures + 2 <= old(self).pos + old(self).depth,
        ensures
            final(self).after(old(self)),
            (r as int, final(self).st()) == sp_next_capture(old(self).st(), name_view(name)),
            final(self).depth == old(self).depth,
            r == final(self).captures,
            final(self).captures == old(self).captures + 1,
    {
        let ghost old_names = self.capture_names@;
        self.captures = self.captures + 1;
        self.capture_names.push(name);
        proof {
            assert(names_view(self.capture_names@) =~= names_view(old_names).push(name_view(name)));
        }
        self.captures
    }

    /// The tree for the literal `c`: both ASCII cases when case-insensitive.
    fn literal(&self, c: char) -> (r: Ast)
        ensures
            r@ == sp_literal(self.flags, c),
    {
        if self.flags.ci && is_ascii_alphabetic(c) {
            let lo = to_ascii_lowercase(c);
            let up = to_ascii_uppercase(c);
            let mut items: Vec<ClassItem> = Vec::new();
            items.push(ClassItem::Char(lo));
            items.push(ClassItem::Char(up));
            let r = Ast::Class(Class { negated: false, items, intersections: Vec::new() });
            proof {
                lemma_items_view(items@);
                assert(items_view(items@) =~= seq![SItem::Char(lo), SItem::Char(up)]);
                assert(classes_view(Seq::<Class>::empty()) =~= Seq::<SClass>::empty());
            }
            r
        } else {
            Ast::Literal(c)
        }
    }

    /// Parses a decimal integer from the current position, saturating at `usize::MAX`.
    fn number(&mut self) -> (r: Result<usize, Error>)
        requires
            old(self).wf(),
        ensures
            final(self).after(old(self)),
            (val_res(r), final(self).st()) == sp_number(old(self).cfg(), old(self).st()),
            final(self).st() == with_pos(old(self).st(), final(self).pos as int),
    {
        let start = self.pos;
        let mut n: usize = 0;
        loop
            invariant
                self.after(old(self)),
                self.st() == with_pos(old(self).st(), self.pos as int),
                sp_number_loop(old(self).cfg(), old(self).st(), 0) == sp_number_loop(
                    self.cfg(),
                    self.st(),
                    n,
                ),
                start == old(self).pos,
                self.depth == old(self).depth,
                self.captures == old(self).captures,
            decreases rem(self.cfg(), self.st()),
        {
            let d = match self.peek() {
                Some(c) => to_digit(c, 10),
                None => None,
            };
            let d = match d {
                Some(d) => d,
                None => {
                    if self.pos == start {
                        return Err(Error::new("expected number"));
                    } else {
                        return Ok(n);
                    }
                },
            };
            self.pos = self.pos + 1;
            let m: usize = if n > usize::MAX / 10 {
                usize::MAX
            } else {
                n * 10
            };
            proof {
                assert(n > usize::MAX / 10 <==> n * 10 > usize::MAX) by (nonlinear_arith);
                assert(m == sat(n * 10));
            }
            n = m.saturating_add(d as usize);
        }
    }

    /// Parses a `{min,max}` repetition bound.
    fn parse_braces(&mut self) -> (r: Result<(usize, Option<usize>), Error>)
        requires
            old(self).wf(),
        ensures
            final(self).after(old(self)),
            (val_res(r), final(self).st()) == sp_braces(old(self).cfg(), old(self).st()),
            final(self).st() == with_pos(old(self).st(), final(self).pos as int),
            r is Ok ==> old(self).pos < final(self).pos,
    {
        self.bump();
        let min = if self.peek() == Some(',') {
            0
        } else {
            match self.number() {
                Ok(n) => n,
                Err(e) => {
                    return Err(e);
                },
            }
        };
        let max = if self.eat(',') {
            if self.peek() == Some('}') {
                None
            } else {
                match self.number() {
                    Ok(n) => Some(n),
                    Err(e) => {
                        return Err(e);
                    },
                }
            }
        } else {
            Some(min)
        };
        if !self.eat('}') {
            return Err(Error::new("unclosed repetition"));
        }
        match max {
            Some(m) => {
                if m < min {
                    return Err(Error::new("invalid repetition range"));
                }
            },
            None => {},
        }
        Ok((min, max))
    }

    /// A name up to the character `end`, which is consumed; it must not be empty.
    fn name_until(&mut self, end: char) -> (r: Result<String, Error>)
        requires
            old(self).wf(),
        ensures
            final(self).after(old(self)),
            (str_res(r), final(self).st()) == sp_name_until(
                old(self).cfg(),
                old(self).st(),
                end,
                seq![],
            ),
            final(self).st() == with_pos(old(self).st(), final(self).pos as int),
    {
        let mut name = String::new();
        let mut empty = true;
        loop
            invariant
                self.after(old(self)),
                self.st() == with_pos(old(self).st(), self.pos as int),
                sp_name_until(old(self).cfg(), old(self).st(), end, seq![]) == sp_name_until(
                    self.cfg(),
                    self.st(),
                    end,
                    name@,
                ),
                empty == (name@.len() == 0),
                self.depth == old(self).depth,
                self.captures == old(self).captures,
            decreases rem(self.cfg(), self.st()),
        {
            match self.bump() {
                None => {
                    return Err(Error::new("unclosed capture name"));
                },
                Some(c) => {
                    if c == end {
                        if empty {
                            return Err(Error::new("empty capture name"));
                        }
                        return Ok(name);
                    }
                    push_char(&mut name, c);
                    empty = false;
                },
            }
        }
    }

    /// One hex digit.
    fn hex_digit(&mut self) -> (r: Result<u32, Error>)
        requires
            old(self).wf(),
        ensures
            final(self).after(old(self)),
            (val_res(r), final(self).st()) == sp_hex_digit(old(self).cfg(), old(self).st()),
            final(self).st() == with_pos(old(self).st(), final(self).pos as int),
    {
        match self.bump() {
            Some(c) => match to_digit(c, 16) {
                Some(d) => Ok(d),
                None => Err(Error::new("invalid hex escape")),
            },
            None => Err(Error::new("invalid hex escape")),
        }
    }

    /// Hex digits up to `end`, which is consumed; at least one is needed.
    fn hex_until(&mut self, end: char) -> (r: Result<u32, Error>)
        requires
            old(self).wf(),
        ensures
            final(self).after(old(self)),
            (val_res(r), final(self).st()) == sp_hex_until(old(self).cfg(), old(self).st(), end),
            final(self).st() == with_pos(old(self).st(), final(self).pos as int),
    {
        let mut value: u32 = 0;
        let mut saw = false;
        loop
            invariant
                self.after(old(self)),
                self.st() == with_pos(old(self).st(), self.pos as int),
                sp_hex_until(old(self).cfg(), old(self).st(), end) == sp_hex_until_loop(
                    self.cfg(),
                    self.st(),
                    end,
                    value,
                    saw,
                ),
                self.depth == old(self).depth,
                self.captures == old(self).captures,
            decreases rem(self.cfg(), self.st()),
        {
            let more = match self.peek() {
                Some(c) => c != end,
                None => false,
            };
            if more {
                match self.hex_digit() {
                    Err(e) => {
                        return Err(e);
                    },
                    Ok(d) => {
                        value = (value << 4u32) | d;
                        saw = true;
                    },
                }
            } else {
                let closed = if saw {
                    self.eat(end)
                } else {
                    false
                };
                if !saw || !closed {
                    return Err(Error::new("invalid hex escape"));
                }
                return Ok(value);
            }
        }
    }

    /// `\xHH` or `\x{H...}`, after the `x`.
    fn hex_escape(&mut self) -> (r: Result<char, Error>)
        requires
            old(self).wf(),
        ensures
            final(self).after(old(self)),
            (val_res(r), final(self).st()) == sp_hex_escape(old(self).cfg(), old(self).st()),
            final(self).st() == with_pos(old(self).st(), final(self).pos as int),
    {
        if self.eat('{') {
            let value = match self.hex_until('}') {
                Ok(v) => v,
                Err(e) => {
                    return Err(e);
                },
            };
            return match from_scalar(value) {
                Some(c) => Ok(c),
                None => Err(Error::new("invalid hex escape")),
            };
        }
        let a = match self.hex_digit() {
            Ok(v) => v,
            Err(e) => {
                return Err(e);
            },
        };
        let b = match self.hex_digit() {
            Ok(v) => v,
            Err(e) => {
                return Err(e);
            },
        };
        match from_scalar((a << 4u32) | b) {
            Some(c) => Ok(c),
            None => Err(Error::new("invalid hex escape")),
        }
    }

    /// `\uHHHH` or `\u{H...}`, after the `u`.
    fn unicode_escape(&mut self) -> (r: Result<char, Error>)
        requires
            old(self).wf(),
        ensures
            final(self).after(old(self)),
            (val_res(r), final(self).st()) == sp_unicode_escape(old(self).cfg(), old(self).st()),
            final(self).st() == with_pos(old(self).st(), final(self).pos as int),
    {
        if self.eat('{') {
            let value = match self.hex_until('}') {
                Ok(v) => v,
                Err(e) => {
                    return Err(e);
                },
            };
            return match from_scalar(value) {
                Some(c) => Ok(c),
                None => Err(Error::new("invalid unicode escape")),
            };
        }
        let mut value: u32 = 0;
        let mut k: usize = 4;
        while k > 0
            invariant
                self.after(old(self)),
                self.st() == with_pos(old(self).st(), self.pos as int),
                k <= 4,
                !sp_eat(old(self).cfg(), old(self).st(), '{').0,
                sp_hex_digits(old(self).cfg(), old(self).st(), 4, 0) == sp_hex_digits(
                    self.cfg(),
                    self.st(),
                    k as nat,
                    value,
                ),
                self.depth == old(self).depth,
                self.captures == old(self).captures,
            decreases k,
        {
            match self.hex_digit() {
                Err(e) => {
                    return Err(e);
                },
                Ok(d) => {
                    value = (value << 4u32) | d;
                },
            }
            k = k - 1;
        }
        match from_scalar(value) {
            Some(c) => Ok(c),
            None => Err(Error::new("invalid unicode escape")),
        }
    }

    /// `\p{Name}` or `\pN`, after the `p`.
    fn property_name(&mut self) -> (r: Result<String, Error>)
        requires
            old(self).wf(),
        ensures
            final(self).after(old(self)),
            (str_res(r), final(self).st()) == sp_property_name(old(self).cfg(), old(self).st()),
            final(self).st() == with_pos(old(self).st(), final(self).pos as int),
    {
        if self.eat('{') {
            return self.name_until('}');
        }
        match self.bump() {
            Some(c) => {
                let mut name = String::new();
                push_char(&mut name, c);
                Ok(name)
            },
            None => Err(Error::new("missing unicode property")),
        }
    }

    /// Reads one more octal digit into `value`, if one follows.
    fn octal_step(&mut self, value: u32) -> (r: u32)
        requires
            old(self).wf(),
            value < 64,
        ensures
            final(self).after(old(self)),
            (r, final(self).st()) == sp_octal_step(old(self).cfg(), old(self).st(), value),
            r < 512,
            final(self).st() == with_pos(old(self).st(), final(self).pos as int),
    {
        match self.peek() {
            Some(c) => match to_digit(c, 8) {
                Some(d) => {
                    self.pos = self.pos + 1;
                    value * 8 + d
                },
                None => value,
            },
            None => value,
        }
    }

    /// Up to two more octal digits after `first`.
    fn octal_escape(&mut self, first: char) -> (r: Result<char, Error>)
        requires
            old(self).wf(),
            '0' <= first <= '7',
        ensures
            final(self).after(old(self)),
            (val_res(r), final(self).st()) == sp_octal_escape(old(self).cfg(), old(self).st(), first),
            final(self).st() == with_pos(old(self).st(), final(self).pos as int),
    {
        let v0: u32 = (first as u32) - ('0' as u32);
        assert(spec_to_digit(first, 8) == Some(v0));
        let v1 = self.octal_step(v0);
        assert(v1 < 64) by {
            assert(v0 < 8);
        }
        let v2 = self.octal_step(v1);
        match from_scalar(v2) {
            Some(c) => Ok(c),
            None => Err(Error::new("invalid octal escape")),
        }
    }

    /// Parses the character following a `\`.
    fn parse_escape(&mut self, in_class: bool) -> (r: Result<Ast, Error>)
        requires
            old(self).wf(),
        ensures
            final(self).after(old(self)),
            (ast_res(r), final(self).st()) == sp_escape(old(self).cfg(), old(self).st(), in_class),
            final(self).st() == with_pos(old(self).st(), final(self).pos as int),
            r matches Ok(a) ==> (a@ is Class || a@ is Literal || a@ is WordBoundary
                || a@ is StartText || a@ is EndText),
    {
        let c = match self.bump() {
            Some(c) => c,
            None => {
                return Err(Error::new("dangling escape"));
            },
        };
        if c == 'd' {
            Ok(one_item(false, ClassItem::Digit))
        } else if c == 'D' {
            Ok(one_item(true, ClassItem::Digit))
        } else if c == 'w' {
            Ok(one_item(false, ClassItem::Word))
        } else if c == 'W' {
            Ok(one_item(true, ClassItem::Word))
        } else if c == 's' {
            Ok(one_item(false, ClassItem::Space))
        } else if c == 'S' {
            Ok(one_item(true, ClassItem::Space))
        } else if c == 'b' && !in_class {
            Ok(Ast::WordBoundary(true))
        } else if c == 'B' && !in_class {
            Ok(Ast::WordBoundary(false))
        } else if c == 'A' && !in_class {
            Ok(Ast::StartText)
        } else if (c == 'z' || c == 'Z') && !in_class {
            Ok(Ast::EndText)
        } else if c == 'G' && !in_class {
            Ok(Ast::StartText)
        } else if c == 'n' {
            Ok(Ast::Literal('\n'))
        } else if c == 'r' {
            Ok(Ast::Literal('\r'))
        } else if c == 't' {
            Ok(Ast::Literal('\t'))
        } else if c == 'x' {
            match self.hex_escape() {
                Ok(x) => Ok(Ast::Literal(x)),
                Err(e) => Err(e),
            }
        } else if c == 'u' {
            if !self.flags.unicode {
                return Err(
                    Error::new("unicode escape not allowed when unicode mode is disabled"),
                );
            }
            match self.unicode_escape() {
                Ok(x) => Ok(Ast::Literal(x)),
                Err(e) => Err(e),
            }
        } else if c == 'p' || c == 'P' {
            if !self.flags.unicode {
                return Err(
                    Error::new("unicode class not allowed when unicode mode is disabled"),
                );
            }
            match self.property_name() {
                Ok(name) => Ok(one_item(c == 'P', ClassItem::UnicodeProperty(name))),
                Err(e) => Err(e),
            }
        } else if '0' <= c && c <= '7' {
            if !self.octal {
                return Err(Error::new("octal escape not allowed"));
            }
            match self.octal_escape(c) {
                Ok(x) => Ok(Ast::Literal(x)),
                Err(e) => Err(e),
            }
        } else {
            Ok(self.literal(c))
        }
    }

    /// Parses a `[...]` character class body.
    fn parse_class(&mut self) -> (r: Result<Ast, Error>)
        requires
            old(self).wf(),
        ensures
            final(self).after(old(self)),
            (ast_res(r), final(self).st()) == sp_class(old(self).cfg(), old(self).st()),
            final(self).st() == with_pos(old(self).st(), final(self).pos as int),
            r matches Ok(a) ==> a@ is Class,
        decreases rem(old(self).cfg(), old(self).st()), 20nat,
    {
        match self.parse_class_expr() {
            Ok(c) => Ok(Ast::Class(c)),
            Err(e) => Err(e),
        }
    }

    /// `union ('&&' union)* ']'`
    fn parse_class_expr(&mut self) -> (r: Result<Class, Error>)
        requires
            old(self).wf(),
        ensures
            final(self).after(old(self)),
            (class_res(r), final(self).st()) == sp_class_expr(old(self).cfg(), old(self).st()),
            final(self).st() == with_pos(old(self).st(), final(self).pos as int),
        decreases rem(old(self).cfg(), old(self).st()), 19nat,
    {
        let mut class = match self.parse_class_union() {
            Ok(c) => c,
            Err(e) => {
                return Err(e);
            },
        };
        loop
            invariant
                self.after(old(self)),
                self.st() == with_pos(old(self).st(), self.pos as int),
                sp_class_expr(old(self).cfg(), old(self).st()) == sp_class_expr_loop(
                    self.cfg(),
                    self.st(),
                    class@,
                ),
            decreases rem(self.cfg(), self.st()),
        {
            if self.peek() == Some('&') && self.peek2() == Some('&') {
                self.pos = self.pos + 2;
                let c = match self.parse_class_union() {
                    Ok(c) => c,
                    Err(e) => {
                        return Err(e);
                    },
                };
                let ghost inter0 = class.intersections@;
                class.intersections.push(c);
                proof {
                    lemma_classes_view_push(inter0, c);
                }
            } else {
                if !self.eat(']') {
                    return Err(Error::new("unclosed character class"));
                }
                return Ok(class);
            }
        }
    }

    /// An optional `^` and the items of a class, up to `]` or `&&`.
    fn parse_class_union(&mut self) -> (r: Result<Class, Error>)
        requires
            old(self).wf(),
        ensures
            final(self).after(old(self)),
            (class_res(r), final(self).st()) == sp_class_union(old(self).cfg(), old(self).st()),
            final(self).st() == with_pos(old(self).st(), final(self).pos as int),
        decreases rem(old(self).cfg(), old(self).st()), 17nat,
    {
        let negated = self.eat('^');
        let mut items: Vec<ClassItem> = Vec::new();
        let mut first = true;
        proof {
            assert(items_view(items@) =~= Seq::<SItem>::empty());
        }
        loop
            invariant
                self.after(old(self)),
                self.st() == with_pos(old(self).st(), self.pos as int),
                sp_class_union(old(self).cfg(), old(self).st()) == sp_union_loop(
                    self.cfg(),
                    self.st(),
                    negated,
                    items_view(items@),
                    first,
                ),
            decreases rem(self.cfg(), self.st()),
        {
            let c = match self.peek() {
                Some(c) => c,
                None => {
                    return Err(Error::new("unclosed character class"));
                },
            };
            if (c == ']' && !first) || (!first && c == '&' && self.peek2() == Some('&')) {
                let r = Class { negated, items, intersections: Vec::new() };
                proof {
                    assert(classes_view(Seq::<Class>::empty()) =~= Seq::<SClass>::empty());
                }
                return Ok(r);
            }
            match self.class_union_step(&mut items, negated, first) {
                Ok(()) => {},
                Err(e) => {
                    return Err(e);
                },
            }
            first = false;
        }
    }

    /// One item of a class, or a range of two, appended to `items`.
    fn class_union_step(&mut self, items: &mut Vec<ClassItem>, negated: bool, first: bool) -> (r:
        Result<(), Error>)
        requires
            old(self).wf(),
            match sp_peek(old(self).cfg(), old(self).st()) {
                Some(c) => !((c == ']' && !first) || (!first && c == '&' && sp_peek2(
                    old(self).cfg(),
                    old(self).st(),
                ) == Some('&'))),
                None => false,
            },
        ensures
            final(self).after(old(self)),
            final(self).st() == with_pos(old(self).st(), final(self).pos as int),
            match r {
                Ok(_) => old(self).pos < final(self).pos && sp_union_loop(
                    old(self).cfg(),
                    old(self).st(),
                    negated,
                    items_view(old(items)@),
                    first,
                ) == sp_union_loop(
                    final(self).cfg(),
                    final(self).st(),
                    negated,
                    items_view(final(items)@),
                    false,
                ),
                Err(e) => sp_union_loop(
                    old(self).cfg(),
                    old(self).st(),
                    negated,
                    items_view(old(items)@),
                    first,
                ) == (Err::<SClass, Seq<char>>(e@), final(self).st()),
            },
        decreases rem(old(self).cfg(), old(self).st()), 16nat,
    {
        let start = match self.class_item() {
            Ok(x) => x,
            Err(e) => {
                return Err(e);
            },
        };
        if self.peek() == Some('-') {
            self.pos = self.pos + 1;
            if self.peek() == Some(']') {
                let ghost v0 = items@;
                items.push(start);
                items.push(ClassItem::Char('-'));
                proof {
                    lemma_items_view_push(v0, start);
                    lemma_items_view_push(v0.push(start), ClassItem::Char('-'));
                }
                return Ok(());
            }
            let end = match self.class_item() {
                Ok(x) => x,
                Err(e) => {
                    return Err(e);
                },
            };
            match (start, end) {
                (ClassItem::Char(a), ClassItem::Char(b)) => {
                    if a <= b {
                        self.push_class_range(items, a, b);
                        Ok(())
                    } else {
                        Err(Error::new("invalid character class range"))
                    }
                },
                _ => Err(Error::new("invalid character class range")),
            }
        } else {
            self.push_class_item(items, start);
            Ok(())
        }
    }

    /// Appends `item` to `items`, expanding both cases when case-insensitive.
    fn push_class_item(&self, items: &mut Vec<ClassItem>, item: ClassItem)
        ensures
            items_view(final(items)@) == sp_push_item(self.flags, items_view(old(items)@), item@),
    {
        let ghost v0 = items@;
        match item {
            ClassItem::Char(c) => {
                if self.flags.ci && is_ascii_alphabetic(c) {
                    let lo = ClassItem::Char(to_ascii_lowercase(c));
                    let up = ClassItem::Char(to_ascii_uppercase(c));
                    items.push(lo);
                    items.push(up);
                    proof {
                        lemma_items_view_push(v0, lo);
                        lemma_items_view_push(v0.push(lo), up);
                    }
                } else {
                    items.push(ClassItem::Char(c));
                    proof {
                        lemma_items_view_push(v0, ClassItem::Char(c));
                    }
                }
            },
            other => {
                let ghost ov = other@;
                items.push(other);
                proof {
                    lemma_items_view_push(v0, other);
                }
            },
        }
    }

    /// Appends a range to `items`, adding the opposite-case range when case-insensitive.
    fn push_class_range(&self, items: &mut Vec<ClassItem>, a: char, b: char)
        ensures
            items_view(final(items)@) == sp_push_range(self.flags, items_view(old(items)@), a, b),
    {
        let ghost v0 = items@;
        items.push(ClassItem::Range(a, b));
        proof {
            lemma_items_view_push(v0, ClassItem::Range(a, b));
        }
        let ghost v1 = items@;
        if self.flags.ci && is_ascii_lowercase(a) && is_ascii_lowercase(b) {
            let r = ClassItem::Range(to_ascii_uppercase(a), to_ascii_uppercase(b));
            items.push(r);
            proof {
                lemma_items_view_push(v1, r);
            }
        } else if self.flags.ci && is_ascii_uppercase(a) && is_ascii_uppercase(b) {
            let r = ClassItem::Range(to_ascii_lowercase(a), to_ascii_lowercase(b));
            items.push(r);
            proof {
                lemma_items_view_push(v1, r);
            }
        }
    }

    /// Parses a single item inside a character class, handling `\` escapes.
    fn class_item(&mut self) -> (r: Result<ClassItem, Error>)
        requires
            old(self).wf(),
        ensures
            final(self).after(old(self)),
            (item_res(r), final(self).st()) == sp_class_item(old(self).cfg(), old(self).st()),
            final(self).st() == with_pos(old(self).st(), final(self).pos as int),
            r is Ok ==> old(self).pos < final(self).pos,
        decreases rem(old(self).cfg(), old(self).st()), 15nat,
    {
        let c = match self.bump() {
            Some(c) => c,
            None => {
                return Err(Error::new("unclosed character class"));
            },
        };
        if c == '\\' {
            let esc = self.parse_escape(true);
            match esc {
                Err(e) => {
                    return Err(e);
                },
                Ok(a) => {
                    return item_of_escape(a);
                },
            }
        }
        if c == '[' {
            let k = self.parse_class_expr();
            match k {
                Ok(cls) => {
                    return Ok(ClassItem::Class(Box::new(cls)));
                },
                Err(e) => {
                    return Err(e);
                },
            }
        }
        Ok(char_item(c))
    }

    /// Parses a `|`-separated alternation.
    fn parse_alt(&mut self) -> (r: Result<Ast, Error>)
        requires
            old(self).wf(),
        ensures
            final(self).after(old(self)),
            (ast_res(r), final(self).st()) == sp_alt(old(self).cfg(), old(self).st()),
            r is Ok ==> final(self).depth == old(self).depth,
            r matches Ok(a) ==> groups_in(a@, old(self).captures as int, final(self).captures as int),
        decreases rem(old(self).cfg(), old(self).st()), 40nat,
    {
        let first = match self.parse_concat() {
            Ok(a) => a,
            Err(e) => {
                return Err(e);
            },
        };
        let mut parts: Vec<Ast> = Vec::new();
        proof {
            assert(asts_view(parts@) =~= Seq::<SAst>::empty());
        }
        push_part(&mut parts, first, Ghost(old(self).captures as int), Ghost(old(self).captures as int), Ghost(self.captures as int));
        loop
            invariant
                self.after(old(self)),
                self.depth == old(self).depth,
                parts@.len() >= 1,
                sp_alt(old(self).cfg(), old(self).st()) == sp_alt_loop(
                    self.cfg(),
                    self.st(),
                    asts_view(parts@),
                ),
                all_groups_in(asts_view(parts@), old(self).captures as int, self.captures as int),
            decreases rem(self.cfg(), self.st()),
        {
            if !self.eat('|') {
                proof {
                    lemma_asts_view(parts@);
                }
                if parts.len() == 1 {
                    let a = parts.remove(0);
                    return Ok(a);
                }
                return Ok(Ast::Alt(parts));
            }
            let ghost c1 = self.captures;
            let a = match self.parse_concat() {
                Ok(a) => a,
                Err(e) => {
                    return Err(e);
                },
            };
            push_part(&mut parts, a, Ghost(old(self).captures as int), Ghost(c1 as int), Ghost(self.captures as int));
        }
    }

    /// Parses a sequence of atoms until a `|`, `)`, or end of input.
    fn parse_concat(&mut self) -> (r: Result<Ast, Error>)
        requires
            old(self).wf(),
        ensures
            final(self).after(old(self)),
            (ast_res(r), final(self).st()) == sp_concat(old(self).cfg(), old(self).st()),
            r is Ok ==> final(self).depth == old(self).depth,
            r matches Ok(a) ==> groups_in(a@, old(self).captures as int, final(self).captures as int),
        decreases rem(old(self).cfg(), old(self).st()), 38nat,
    {
        let mut parts: Vec<Ast> = Vec::new();
        proof {
            assert(asts_view(parts@) =~= Seq::<SAst>::empty());
        }
        loop
            invariant
                self.after(old(self)),
                self.depth == old(self).depth,
                sp_concat(old(self).cfg(), old(self).st()) == sp_concat_loop(
                    self.cfg(),
                    self.st(),
                    asts_view(parts@),
                ),
                all_groups_in(asts_view(parts@), old(self).captures as int, self.captures as int),
            decreases rem(self.cfg(), self.st()),
        {
            match self.concat_step(&mut parts, Ghost(old(self).captures as int)) {
                Err(e) => {
                    return Err(e);
                },
                Ok(true) => {},
                Ok(false) => {
                    proof {
                        lemma_asts_view(parts@);
                    }
                    let a = finish_concat(parts);
                    return Ok(a);
                },
            }
        }
    }

    /// One step of a concatenation: `Ok(false)` at its end, otherwise skips
    /// whitespace (in whitespace-insensitive mode) or reads one more part.
    fn concat_step(&mut self, parts: &mut Vec<Ast>, Ghost(lo): Ghost<int>) -> (r: Result<bool, Error>)
        requires
            old(self).wf(),
            0 <= lo <= old(self).captures,
            all_groups_in(asts_view(old(parts)@), lo, old(self).captures as int),
        ensures
            final(self).after(old(self)),
            r is Ok ==> final(self).depth == old(self).depth,
            r is Ok ==> all_groups_in(asts_view(final(parts)@), lo, final(self).captures as int),
            match r {
                Ok(true) => old(self).pos < final(self).pos && sp_concat_loop(
                    old(self).cfg(),
                    old(self).st(),
                    asts_view(old(parts)@),
                ) == sp_concat_loop(final(self).cfg(), final(self).st(), asts_view(final(parts)@)),
                Ok(false) => sp_concat_loop(
                    old(self).cfg(),
                    old(self).st(),
                    asts_view(old(parts)@),
                ) == (Ok::<SAst, Seq<char>>(concat_done(asts_view(old(parts)@))), old(self).st())
                    && final(self).st() == old(self).st() && final(parts)@ == old(parts)@,
                Err(e) => sp_concat_loop(
                    old(self).cfg(),
                    old(self).st(),
                    asts_view(old(parts)@),
                ) == (Err::<SAst, Seq<char>>(e@), final(self).st()),
            },
        decreases rem(old(self).cfg(), old(self).st()), 37nat,
    {
        let c = match self.peek() {
            Some(c) => c,
            None => {
                return Ok(false);
            },
        };
        if c == ')' || c == '|' {
            return Ok(false);
        }
        if self.flags.ws && is_whitespace(c) {
            self.pos = self.pos + 1;
            return Ok(true);
        }
        let ghost c1 = self.captures;
        let a = match self.parse_repeat() {
            Ok(a) => a,
            Err(e) => {
                return Err(e);
            },
        };
        push_part(parts, a, Ghost(lo), Ghost(c1 as int), Ghost(self.captures as int));
        Ok(true)
    }

    /// Parses an atom followed by any number of repetition quantifiers.
    fn parse_repeat(&mut self) -> (r: Result<Ast, Error>)
        requires
            old(self).wf(),
        ensures
            final(self).after(old(self)),
            (ast_res(r), final(self).st()) == sp_repeat(old(self).cfg(), old(self).st()),
            r is Ok ==> final(self).depth == old(self).depth,
            r is Ok ==> old(self).pos < final(self).pos,
            r matches Ok(a) ==> groups_in(a@, old(self).captures as int, final(self).captures as int),
        decreases rem(old(self).cfg(), old(self).st()), 36nat,
    {
        let mut node = match self.parse_atom() {
            Ok(a) => a,
            Err(e) => {
                return Err(e);
            },
        };
        loop
            invariant
                self.after(old(self)),
                self.depth == old(self).depth,
                old(self).pos < self.pos,
                sp_repeat(old(self).cfg(), old(self).st()) == sp_repeat_loop(
                    self.cfg(),
                    self.st(),
                    node@,
                ),
                groups_in(node@, old(self).captures as int, self.captures as int),
            decreases rem(self.cfg(), self.st()),
        {
            let (min, max) = match self.quantifier(Ghost(node@)) {
                Err(e) => {
                    return Err(e);
                },
                Ok(None) => {
                    return Ok(node);
                },
                Ok(Some(q)) => q,
            };
            let swap = self.flags.swap;
            let lazy = self.eat('?');
            node = Ast::Repeat { node: Box::new(node), min, max, greedy: !lazy != swap };
        }
    }

    /// Reads the bounds of a quantifier, if one comes next: `None` if not.
    /// `nv` is the tree the quantifier would apply to.
    fn quantifier(&mut self, Ghost(nv): Ghost<SAst>) -> (r: Result<Option<(usize, Option<usize>)>, Error>)
        requires
            old(self).wf(),
        ensures
            final(self).after(old(self)),
            final(self).st() == with_pos(old(self).st(), final(self).pos as int),
            match r {
                Ok(None) => final(self).pos == old(self).pos && sp_repeat_loop(
                    old(self).cfg(),
                    old(self).st(),
                    nv,
                ) == (Ok::<SAst, Seq<char>>(nv), old(self).st()),
                Ok(Some((min, max))) => old(self).pos < final(self).pos && sp_repeat_loop(
                    old(self).cfg(),
                    old(self).st(),
                    nv,
                ) == ({
                    let (n2, st2) = sp_quantified(final(self).cfg(), final(self).st(), nv, min, max);
                    sp_repeat_loop(final(self).cfg(), st2, n2)
                }),
                Err(e) => sp_repeat_loop(old(self).cfg(), old(self).st(), nv) == (
                    Err::<SAst, Seq<char>>(e@),
                    final(self).st(),
                ),
            },
    {
        let c = match self.peek() {
            Some(c) => c,
            None => {
                return Ok(None);
            },
        };
        if c == '*' {
            self.pos = self.pos + 1;
            Ok(Some((0, None)))
        } else if c == '+' {
            self.pos = self.pos + 1;
            Ok(Some((1, None)))
        } else if c == '?' {
            self.pos = self.pos + 1;
            Ok(Some((0, Some(1))))
        } else if c == '{' {
            match self.parse_braces() {
                Ok(b) => Ok(Some(b)),
                Err(e) => Err(e),
            }
        } else {
            Ok(None)
        }
    }

    /// Parses a single atom: literal, metacharacter, group, class, or escape.
    fn parse_atom(&mut self) -> (r: Result<Ast, Error>)
        requires
            old(self).wf(),
        ensures
            final(self).after(old(self)),
            (ast_res(r), final(self).st()) == sp_atom(old(self).cfg(), old(self).st()),
            r is Ok ==> final(self).depth == old(self).depth,
            r is Ok ==> old(self).pos < final(self).pos,
            r matches Ok(a) ==> groups_in(a@, old(self).captures as int, final(self).captures as int),
        decreases rem(old(self).cfg(), old(self).st()), 31nat,
    {
        let c = match self.bump() {
            Some(c) => c,
            None => {
                return Err(Error::new("unexpected end of pattern"));
            },
        };
        if c == '.' {
            Ok(Ast::Dot { matches_new_line: self.flags.dotnl })
        } else if c == '^' {
            Ok(Ast::StartLine { multi_line: self.flags.ml, crlf: self.flags.crlf })
        } else if c == '$' {
            Ok(Ast::EndLine { multi_line: self.flags.ml, crlf: self.flags.crlf })
        } else if c == '(' {
            if self.eat('?') {
                self.parse_special_group()
            } else {
                self.group_body(None)
            }
        } else if c == '[' {
            self.parse_class()
        } else if c == '\\' {
            self.parse_escape(false)
        } else if c == ')' || c == '|' {
            Err(Error::new("unexpected metacharacter"))
        } else if c == '*' || c == '+' || c == '?' || c == '{' {
            Err(Error::new("repetition missing expression"))
        } else {
            Ok(self.literal(c))
        }
    }

    /// The rest of a capturing group named `name`: its alternation and `)`.
    fn group_body(&mut self, name: Option<String>) -> (r: Result<Ast, Error>)
        requires
            old(self).wf(),
            old(self).depth < old(self).pos,
            2 * old(self).captures < old(self).pos + old(self).depth,
        ensures
            final(self).after(old(self)),
            (ast_res(r), final(self).st()) == sp_group_body(
                old(self).cfg(),
                old(self).st(),
                name_view(name),
            ),
            r is Ok ==> final(self).depth == old(self).depth,
            r matches Ok(a) ==> groups_in(a@, old(self).captures as int, final(self).captures as int),
        decreases rem(old(self).cfg(), old(self).st()), 41nat,
    {
        match self.enter_group() {
            Ok(()) => {},
            Err(e) => {
                return Err(e);
            },
        }
        let index = self.next_capture(name);
        let ghost c1 = self.captures;
        let node = match self.parse_alt() {
            Ok(a) => a,
            Err(e) => {
                return Err(e);
            },
        };
        if !self.eat(')') {
            return Err(Error::new("unclosed group"));
        }
        self.leave_group();
        proof {
            lemma_groups_in_widen(
                node@,
                c1 as int,
                self.captures as int,
                old(self).captures as int,
                self.captures as int,
            );
        }
        Ok(Ast::Group { index, node: Box::new(node) })
    }

    /// The rest of a non-capturing group: its alternation and `)`.
    fn plain_group_body(&mut self) -> (r: Result<Ast, Error>)
        requires
            old(self).wf(),
            old(self).depth < old(self).pos,
            2 * old(self).captures < old(self).pos + old(self).depth,
        ensures
            final(self).after(old(self)),
            (ast_res(r), final(self).st()) == sp_plain_group_body(old(self).cfg(), old(self).st()),
            r is Ok ==> final(self).depth == old(self).depth,
            r matches Ok(a) ==> groups_in(a@, old(self).captures as int, final(self).captures as int),
        decreases rem(old(self).cfg(), old(self).st()), 41nat,
    {
        match self.enter_group() {
            Ok(()) => {},
            Err(e) => {
                return Err(e);
            },
        }
        let node = match self.parse_alt() {
            Ok(a) => a,
            Err(e) => {
                return Err(e);
            },
        };
        if !self.eat(')') {
            return Err(Error::new("unclosed group"));
        }
        self.leave_group();
        Ok(node)
    }

    /// The group syntax after `(?`: non-capturing, named, or inline flags.
    fn parse_special_group(&mut self) -> (r: Result<Ast, Error>)
        requires
            old(self).wf(),
            old(self).depth < old(self).pos,
            2 * old(self).captures < old(self).pos + old(self).depth,
        ensures
            final(self).after(old(self)),
            (ast_res(r), final(self).st()) == sp_special_group(old(self).cfg(), old(self).st()),
            r is Ok ==> final(self).depth == old(self).depth,
            r matches Ok(a) ==> groups_in(a@, old(self).captures as int, final(self).captures as int),
        decreases rem(old(self).cfg(), old(self).st()), 43nat,
    {
        if self.eat(':') {
            return self.plain_group_body();
        }
        let p = self.eat('P');
        if p && self.eat('<') {
            return self.named_group();
        }
        if self.eat('<') {
            if self.peek() == Some('=') || self.peek() == Some('!') {
                return Err(Error::new("look-around is not supported"));
            }
            return self.named_group();
        }
        if self.peek() == Some('=') || self.peek() == Some('!') {
            return Err(Error::new("look-around is not supported"));
        }
        if self.eat('>') {
            return Err(Error::new("atomic groups are not supported"));
        }
        let saved = self.flags;
        self.flag_group(saved)
    }

    /// A named capturing group after `(?P<` or `(?<`.
    fn named_group(&mut self) -> (r: Result<Ast, Error>)
        requires
            old(self).wf(),
            old(self).depth < old(self).pos,
            2 * old(self).captures < old(self).pos + old(self).depth,
        ensures
            final(self).after(old(self)),
            (ast_res(r), final(self).st()) == sp_named_group(old(self).cfg(), old(self).st()),
            r is Ok ==> final(self).depth == old(self).depth,
            r matches Ok(a) ==> groups_in(a@, old(self).captures as int, final(self).captures as int),
        decreases rem(old(self).cfg(), old(self).st()), 42nat,
    {
        let name = match self.name_until('>') {
            Ok(n) => n,
            Err(e) => {
                return Err(e);
            },
        };
        self.group_body(Some(name))
    }

    /// Inline flags `(?imsxURu-imsxURu)` or a scoped group `(?flags:...)`;
    /// `saved` are the flags to restore after a scoped group.
    fn flag_group(&mut self, saved: PFlags) -> (r: Result<Ast, Error>)
        requires
            old(self).wf(),
            old(self).depth < old(self).pos,
            2 * old(self).captures < old(self).pos + old(self).depth,
        ensures
            final(self).after(old(self)),
            (ast_res(r), final(self).st()) == sp_flag_loop(
                old(self).cfg(),
                old(self).st(),
                saved,
                false,
                true,
            ),
            r is Ok ==> final(self).depth == old(self).depth,
            r matches Ok(a) ==> groups_in(a@, old(self).captures as int, final(self).captures as int),
        decreases rem(old(self).cfg(), old(self).st()), 27nat,
    {
        let mut saw = false;
        let mut enable = true;
        loop
            invariant
                self.after(old(self)),
                self.st() == with_flags(with_pos(old(self).st(), self.pos as int), self.flags),
                sp_flag_loop(old(self).cfg(), old(self).st(), saved, false, true) == sp_flag_loop(
                    self.cfg(),
                    self.st(),
                    saved,
                    saw,
                    enable,
                ),
            decreases rem(self.cfg(), self.st()),
        {
            let c = match self.peek() {
                Some(c) => c,
                None => {
                    return Err(Error::new("unclosed group"));
                },
            };
            if c == 'i' || c == 'm' || c == 's' || c == 'x' || c == 'U' || c == 'R' || c == 'u' {
                self.pos = self.pos + 1;
                self.flags = set_flag(self.flags, c, enable);
                saw = true;
            } else if c == '-' {
                self.pos = self.pos + 1;
                enable = false;
            } else if c == ':' {
                self.pos = self.pos + 1;
                if !saw {
                    return Err(Error::new("unsupported group syntax"));
                }
                let node = match self.plain_group_body() {
                    Ok(a) => a,
                    Err(e) => {
                        return Err(e);
                    },
                };
                self.flags = saved;
                return Ok(node);
            } else if c == ')' {
                self.pos = self.pos + 1;
                if !saw {
                    return Err(Error::new("unsupported group syntax"));
                }
                return Ok(Ast::Empty);
            } else {
                return Err(Error::new("unsupported group syntax"));
            }
        }
    }
}

} // verus!
