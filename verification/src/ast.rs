use vstd::prelude::*;
use crate::unicode::{
    char_is_alphabetic, char_is_alphanumeric, char_is_lowercase, char_is_numeric,
    char_is_uppercase, char_is_whitespace, is_alphabetic, is_alphanumeric, is_ascii,
    is_ascii_digit, is_lowercase, is_numeric, is_uppercase, is_whitespace, is_word_char,
    spec_is_ascii, spec_is_ascii_digit, spec_is_word_char, str_eq,
};

verus! {

/// The abstract syntax tree produced by the regex parser.
///
/// Each variant represents one node in the parse tree. The tree is consumed
/// by the interpreter in `matcher`.
#[derive(Debug)]
pub enum Ast {
    /// Matches the empty string at the current position.
    Empty,
    /// Matches exactly one specific character.
    Literal(char),
    /// Matches any character, optionally including `\n`.
    Dot { matches_new_line: bool },
    /// Matches a single character that satisfies a [`Class`].
    Class(Class),
    /// Anchors the match to the start of a line (`^`).
    StartLine { multi_line: bool, crlf: bool },
    /// Anchors the match to the end of a line (`$`).
    EndLine { multi_line: bool, crlf: bool },
    /// Anchors the match to the start of the string (`\A`).
    StartText,
    /// Anchors the match to the end of the string (`\z` or `\Z`).
    EndText,
    /// Word boundary (`\b` when `true`) or non-boundary (`\B` when `false`).
    WordBoundary(bool),
    /// Matches all child nodes in sequence.
    Concat(Vec<Ast>),
    /// Matches any one of the child alternatives.
    Alt(Vec<Ast>),
    /// Matches `node` repeated between `min` and `max` times.
    Repeat { node: Box<Ast>, min: usize, max: Option<usize>, greedy: bool },
    /// A numbered capturing group wrapping `node`.
    Group { index: usize, node: Box<Ast> },
}

/// A character class such as `[a-z0-9]` or `\d`.
///
/// A character is in the class when membership in `items` differs from
/// `negated`, and it is also in every class of `intersections` (written
/// `[a-z&&[^aeiou]]`).
#[derive(Debug)]
pub struct Class {
    /// If `true` the class matches characters *not* in `items`.
    pub negated: bool,
    pub items: Vec<ClassItem>,
    pub intersections: Vec<Class>,
}

/// A single element inside a [`Class`].
#[derive(Debug)]
pub enum ClassItem {
    /// A literal character.
    Char(char),
    /// An inclusive character range `a..=b`.
    Range(char, char),
    /// ASCII digit shorthand (`\d`).
    Digit,
    /// ASCII word character shorthand (`\w`).
    Word,
    /// Whitespace shorthand (`\s`).
    Space,
    /// A Unicode general category or property shorthand (`\p{...}`).
    UnicodeProperty(String),
    /// A nested class such as `[[a-z]]` or `[\D]`.
    Class(Box<Class>),
}

// ---------------------------------------------------------------------------
// The mathematical model of the tree.

/// The model of an [`Ast`]: the same tree, with sequences for child lists.
pub enum SAst {
    Empty,
    Literal(char),
    Dot(bool),
    Class(SClass),
    StartLine(bool, bool),
    EndLine(bool, bool),
    StartText,
    EndText,
    WordBoundary(bool),
    Concat(Seq<SAst>),
    Alt(Seq<SAst>),
    Repeat(Box<SAst>, usize, Option<usize>, bool),
    Group(usize, Box<SAst>),
}

/// The model of a [`Class`].
pub struct SClass {
    pub negated: bool,
    pub items: Seq<SItem>,
    pub inter: Seq<SClass>,
}

/// The model of a [`ClassItem`]; a property name is its characters.
pub enum SItem {
    Char(char),
    Range(char, char),
    Digit,
    Word,
    Space,
    Prop(Seq<char>),
    Class(Box<SClass>),
}

pub open spec fn ast_view(a: &Ast) -> SAst
    decreases a,
{
    match a {
        Ast::Empty => SAst::Empty,
        Ast::Literal(c) => SAst::Literal(*c),
        Ast::Dot { matches_new_line } => SAst::Dot(*matches_new_line),
        Ast::Class(c) => SAst::Class(class_view(c)),
        Ast::StartLine { multi_line, crlf } => SAst::StartLine(*multi_line, *crlf),
        Ast::EndLine { multi_line, crlf } => SAst::EndLine(*multi_line, *crlf),
        Ast::StartText => SAst::StartText,
        Ast::EndText => SAst::EndText,
        Ast::WordBoundary(b) => SAst::WordBoundary(*b),
        Ast::Concat(v) => SAst::Concat(asts_view(v@)),
        Ast::Alt(v) => SAst::Alt(asts_view(v@)),
        Ast::Repeat { node, min, max, greedy } => SAst::Repeat(
            Box::new(ast_view(node)),
            *min,
            *max,
            *greedy,
        ),
        Ast::Group { index, node } => SAst::Group(*index, Box::new(ast_view(node))),
    }
}

pub open spec fn asts_view(v: Seq<Ast>) -> Seq<SAst>
    decreases v,
{
    if v.len() == 0 {
        Seq::empty()
    } else {
        seq![ast_view(&v[0])] + asts_view(v.drop_first())
    }
}

pub open spec fn class_view(c: &Class) -> SClass
    decreases c,
{
    SClass { negated: c.negated, items: items_view(c.items@), inter: classes_view(c.intersections@) }
}

pub open spec fn classes_view(v: Seq<Class>) -> Seq<SClass>
    decreases v,
{
    if v.len() == 0 {
        Seq::empty()
    } else {
        seq![class_view(&v[0])] + classes_view(v.drop_first())
    }
}

pub open spec fn item_view(i: &ClassItem) -> SItem
    decreases i,
{
    match i {
        ClassItem::Char(c) => SItem::Char(*c),
        ClassItem::Range(a, b) => SItem::Range(*a, *b),
        ClassItem::Digit => SItem::Digit,
        ClassItem::Word => SItem::Word,
        ClassItem::Space => SItem::Space,
        ClassItem::UnicodeProperty(s) => SItem::Prop(s@),
        ClassItem::Class(c) => SItem::Class(Box::new(class_view(c))),
    }
}

pub open spec fn items_view(v: Seq<ClassItem>) -> Seq<SItem>
    decreases v,
{
    if v.len() == 0 {
        Seq::empty()
    } else {
        seq![item_view(&v[0])] + items_view(v.drop_first())
    }
}

impl View for Ast {
    type V = SAst;

    open spec fn view(&self) -> SAst {
        ast_view(self)
    }
}

impl View for Class {
    type V = SClass;

    open spec fn view(&self) -> SClass {
        class_view(self)
    }
}

impl View for ClassItem {
    type V = SItem;

    open spec fn view(&self) -> SItem {
        item_view(self)
    }
}

pub proof fn lemma_asts_view(v: Seq<Ast>)
    ensures
        asts_view(v).len() == v.len(),
        forall|i: int| 0 <= i < v.len() ==> #[trigger] asts_view(v)[i] == ast_view(&v[i]),
    decreases v.len(),
{
    if v.len() > 0 {
        lemma_asts_view(v.drop_first());
        assert forall|i: int| 0 <= i < v.len() implies #[trigger] asts_view(v)[i] == ast_view(
            &v[i],
        ) by {
            if i > 0 {
                assert(v.drop_first()[i - 1] == v[i]);
            }
        }
    }
}

pub proof fn lemma_items_view(v: Seq<ClassItem>)
    ensures
        items_view(v).len() == v.len(),
        forall|i: int| 0 <= i < v.len() ==> #[trigger] items_view(v)[i] == item_view(&v[i]),
    decreases v.len(),
{
    if v.len() > 0 {
        lemma_items_view(v.drop_first());
        assert forall|i: int| 0 <= i < v.len() implies #[trigger] items_view(v)[i] == item_view(
            &v[i],
        ) by {
            if i > 0 {
                assert(v.drop_first()[i - 1] == v[i]);
            }
        }
    }
}

pub proof fn lemma_classes_view(v: Seq<Class>)
    ensures
        classes_view(v).len() == v.len(),
        forall|i: int| 0 <= i < v.len() ==> #[trigger] classes_view(v)[i] == class_view(&v[i]),
    decreases v.len(),
{
    if v.len() > 0 {
        lemma_classes_view(v.drop_first());
        assert forall|i: int| 0 <= i < v.len() implies #[trigger] classes_view(v)[i]
            == class_view(&v[i]) by {
            if i > 0 {
                assert(v.drop_first()[i - 1] == v[i]);
            }
        }
    }
}

pub proof fn lemma_asts_view_push(v: Seq<Ast>, x: Ast)
    ensures
        asts_view(v.push(x)) == asts_view(v).push(ast_view(&x)),
{
    lemma_asts_view(v);
    lemma_asts_view(v.push(x));
    assert(asts_view(v.push(x)) =~= asts_view(v).push(ast_view(&x)));
}

pub proof fn lemma_items_view_push(v: Seq<ClassItem>, x: ClassItem)
    ensures
        items_view(v.push(x)) == items_view(v).push(item_view(&x)),
{
    lemma_items_view(v);
    lemma_items_view(v.push(x));
    assert(items_view(v.push(x)) =~= items_view(v).push(item_view(&x)));
}

pub proof fn lemma_classes_view_push(v: Seq<Class>, x: Class)
    ensures
        classes_view(v.push(x)) == classes_view(v).push(class_view(&x)),
{
    lemma_classes_view(v);
    lemma_classes_view(v.push(x));
    assert(classes_view(v.push(x)) =~= classes_view(v).push(class_view(&x)));
}

// ---------------------------------------------------------------------------
// Class membership.

/// Which characters a `\p{name}` property admits. Unknown names admit none.
pub open spec fn spec_unicode_property(name: Seq<char>, c: char) -> bool {
    if name == "L"@ || name == "Letter"@ || name == "Alphabetic"@ || name == "Alpha"@ {
        char_is_alphabetic(c)
    } else if name == "N"@ || name == "Number"@ || name == "Nd"@ || name == "Decimal_Number"@
        || name == "digit"@ {
        char_is_numeric(c)
    } else if name == "White_Space"@ || name == "Whitespace"@ || name == "space"@ {
        char_is_whitespace(c)
    } else if name == "Lowercase"@ || name == "Lower"@ || name == "Ll"@ {
        char_is_lowercase(c)
    } else if name == "Uppercase"@ || name == "Upper"@ || name == "Lu"@ {
        char_is_uppercase(c)
    } else if name == "Alnum"@ {
        char_is_alphanumeric(c)
    } else if name == "Any"@ {
        true
    } else if name == "ASCII"@ {
        spec_is_ascii(c)
    } else {
        false
    }
}

/// `c` is in the class `cls`.
pub open spec fn spec_class_matches(cls: SClass, c: char) -> bool
    decreases cls,
{
    (spec_items_hit(cls.items, c) != cls.negated) && spec_all_classes_match(cls.inter, c)
}

/// Some item of `items` admits `c`.
pub open spec fn spec_items_hit(items: Seq<SItem>, c: char) -> bool
    decreases items,
{
    if items.len() == 0 {
        false
    } else {
        spec_item_matches(items[0], c) || spec_items_hit(items.drop_first(), c)
    }
}

/// Every class of `classes` admits `c`.
pub open spec fn spec_all_classes_match(classes: Seq<SClass>, c: char) -> bool
    decreases classes,
{
    if classes.len() == 0 {
        true
    } else {
        spec_class_matches(classes[0], c) && spec_all_classes_match(classes.drop_first(), c)
    }
}

/// The single item `item` admits `c`.
pub open spec fn spec_item_matches(item: SItem, c: char) -> bool
    decreases item,
{
    match item {
        SItem::Char(x) => x == c,
        SItem::Range(a, b) => a <= c && c <= b,
        SItem::Digit => spec_is_ascii_digit(c),
        SItem::Word => spec_is_word_char(c),
        SItem::Space => char_is_whitespace(c),
        SItem::Prop(name) => spec_unicode_property(name, c),
        SItem::Class(inner) => spec_class_matches(*inner, c),
    }
}

impl Class {
    /// Returns `true` if `c` is matched by this character class.
    pub fn matches(&self, c: char) -> (r: bool)
        ensures
            r == spec_class_matches(self@, c),
        decreases self,
    {
        let hit = items_hit(&self.items, c);
        if hit == self.negated {
            return false;
        }
        let mut k: usize = 0;
        proof {
            lemma_classes_view(self.intersections@);
            assert(classes_view(self.intersections@).skip(0) == classes_view(self.intersections@));
        }
        while k < self.intersections.len()
            invariant
                k <= self.intersections.len(),
                hit != self.negated,
                classes_view(self.intersections@).len() == self.intersections.len(),
                forall|i: int|
                    0 <= i < self.intersections@.len() ==> #[trigger] classes_view(
                        self.intersections@,
                    )[i] == class_view(&self.intersections@[i]),
                spec_class_matches(self@, c) == spec_all_classes_match(
                    classes_view(self.intersections@).skip(k as int),
                    c,
                ),
            decreases self.intersections.len() - k,
        {
            let inner = &self.intersections[k];
            assert(decreases_to!(self => self.intersections));
            assert(decreases_to!(self.intersections => self.intersections@));
            assert(decreases_to!(self.intersections@ => self.intersections@[k as int]));
            let ok = inner.matches(c);
            let ghost rest = classes_view(self.intersections@).skip(k as int);
            assert(rest[0] == class_view(inner));
            assert(rest.drop_first() == classes_view(self.intersections@).skip(k + 1));
            if !ok {
                return false;
            }
            k = k + 1;
        }
        true
    }
}

/// Some item of `items` admits `c`.
fn items_hit(items: &Vec<ClassItem>, c: char) -> (r: bool)
    ensures
        r == spec_items_hit(items_view(items@), c),
    decreases items,
{
    let mut i: usize = 0;
    proof {
        lemma_items_view(items@);
        assert(items_view(items@).skip(0) == items_view(items@));
    }
    while i < items.len()
        invariant
            i <= items.len(),
            items_view(items@).len() == items.len(),
            forall|j: int|
                0 <= j < items@.len() ==> #[trigger] items_view(items@)[j] == item_view(&items@[j]),
            spec_items_hit(items_view(items@), c) == spec_items_hit(
                items_view(items@).skip(i as int),
                c,
            ),
        decreases items.len() - i,
    {
        let item = &items[i];
        assert(decreases_to!(items => items@));
        assert(decreases_to!(items@ => items@[i as int]));
        let ok = item_matches(item, c);
        let ghost rest = items_view(items@).skip(i as int);
        assert(rest[0] == item_view(item));
        assert(rest.drop_first() == items_view(items@).skip(i + 1));
        if ok {
            return true;
        }
        i = i + 1;
    }
    false
}

/// The single item `item` admits `c`.
fn item_matches(item: &ClassItem, c: char) -> (r: bool)
    ensures
        r == spec_item_matches(item_view(item), c),
    decreases item,
{
    match item {
        ClassItem::Char(x) => *x == c,
        ClassItem::Range(a, b) => *a <= c && c <= *b,
        ClassItem::Digit => is_ascii_digit(c),
        ClassItem::Word => is_word_char(c),
        ClassItem::Space => is_whitespace(c),
        ClassItem::UnicodeProperty(name) => matches_unicode_property(name.as_str(), c),
        ClassItem::Class(inner) => inner.matches(c),
    }
}

/// Which characters a `\p{name}` property admits. Unknown names admit none.
fn matches_unicode_property(name: &str, c: char) -> (r: bool)
    ensures
        r == spec_unicode_property(name@, c),
{
    if str_eq(name, "L") || str_eq(name, "Letter") || str_eq(name, "Alphabetic") || str_eq(
        name,
        "Alpha",
    ) {
        is_alphabetic(c)
    } else if str_eq(name, "N") || str_eq(name, "Number") || str_eq(name, "Nd") || str_eq(
        name,
        "Decimal_Number",
    ) || str_eq(name, "digit") {
        is_numeric(c)
    } else if str_eq(name, "White_Space") || str_eq(name, "Whitespace") || str_eq(name, "space") {
        is_whitespace(c)
    } else if str_eq(name, "Lowercase") || str_eq(name, "Lower") || str_eq(name, "Ll") {
        is_lowercase(c)
    } else if str_eq(name, "Uppercase") || str_eq(name, "Upper") || str_eq(name, "Lu") {
        is_uppercase(c)
    } else if str_eq(name, "Alnum") {
        is_alphanumeric(c)
    } else if str_eq(name, "Any") {
        true
    } else if str_eq(name, "ASCII") {
        is_ascii(c)
    } else {
        false
    }
}

// ---------------------------------------------------------------------------
// Size of the tree.

/// The number of nodes of a tree: one for each node, counting all descendants.
pub open spec fn spec_node_count(a: SAst) -> nat
    decreases a,
{
    match a {
        SAst::Concat(v) => 1 + spec_nodes_count(v),
        SAst::Alt(v) => 1 + spec_nodes_count(v),
        SAst::Repeat(node, _, _, _) => 1 + spec_node_count(*node),
        SAst::Group(_, node) => 1 + spec_node_count(*node),
        _ => 1,
    }
}

/// The total number of nodes of a list of trees.
pub open spec fn spec_nodes_count(v: Seq<SAst>) -> nat
    decreases v,
{
    if v.len() == 0 {
        0
    } else {
        spec_node_count(v[0]) + spec_nodes_count(v.drop_first())
    }
}

pub proof fn lemma_node_count_pos(a: SAst)
    ensures
        spec_node_count(a) >= 1,
{
}

/// `n` capped at `usize::MAX`.
pub open spec fn saturate(n: nat) -> usize {
    if n <= usize::MAX {
        n as usize
    } else {
        usize::MAX
    }
}

impl Ast {
    /// Returns the number of nodes of this tree (at most `usize::MAX`).
    pub fn node_count(&self) -> (r: usize)
        ensures
            r == saturate(spec_node_count(self@)),
        decreases self,
    {
        match self {
            Ast::Concat(nodes) => {
                let n = nodes_count(nodes);
                n.saturating_add(1)
            },
            Ast::Alt(nodes) => {
                let n = nodes_count(nodes);
                n.saturating_add(1)
            },
            Ast::Repeat { node, .. } => node.node_count().saturating_add(1),
            Ast::Group { node, .. } => node.node_count().saturating_add(1),
            _ => 1,
        }
    }
}

/// The total number of nodes of `nodes` (at most `usize::MAX`).
fn nodes_count(nodes: &Vec<Ast>) -> (r: usize)
    ensures
        r == saturate(spec_nodes_count(asts_view(nodes@))),
    decreases nodes,
{
    let mut total: usize = 0;
    let mut i: usize = nodes.len();
    proof {
        lemma_asts_view(nodes@);
    }
    while i > 0
        invariant
            i <= nodes.len(),
            asts_view(nodes@).len() == nodes.len(),
            forall|j: int|
                0 <= j < nodes@.len() ==> #[trigger] asts_view(nodes@)[j] == ast_view(&nodes@[j]),
            total == saturate(spec_nodes_count(asts_view(nodes@).skip(i as int))),
        decreases i,
    {
        i = i - 1;
        let node = &nodes[i];
        assert(decreases_to!(nodes => nodes@));
        assert(decreases_to!(nodes@ => nodes@[i as int]));
        let n = node.node_count();
        let ghost rest = asts_view(nodes@).skip(i as int);
        assert(rest[0] == ast_view(node));
        assert(rest.drop_first() == asts_view(nodes@).skip(i + 1));
        total = n.saturating_add(total);
    }
    assert(asts_view(nodes@).skip(0) == asts_view(nodes@));
    total
}

impl Ast {
    /// A copy of this tree.
    pub fn deep_copy(&self) -> (r: Ast)
        ensures
            r@ == self@,
        decreases self,
    {
        match self {
            Ast::Empty => Ast::Empty,
            Ast::Literal(c) => Ast::Literal(*c),
            Ast::Dot { matches_new_line } => Ast::Dot { matches_new_line: *matches_new_line },
            Ast::Class(c) => Ast::Class(c.deep_copy()),
            Ast::StartLine { multi_line, crlf } => Ast::StartLine {
                multi_line: *multi_line,
                crlf: *crlf,
            },
            Ast::EndLine { multi_line, crlf } => Ast::EndLine { multi_line: *multi_line, crlf: *crlf },
            Ast::StartText => Ast::StartText,
            Ast::EndText => Ast::EndText,
            Ast::WordBoundary(b) => Ast::WordBoundary(*b),
            Ast::Concat(v) => Ast::Concat(copy_asts(v)),
            Ast::Alt(v) => Ast::Alt(copy_asts(v)),
            Ast::Repeat { node, min, max, greedy } => Ast::Repeat {
                node: Box::new((&**node).deep_copy()),
                min: *min,
                max: *max,
                greedy: *greedy,
            },
            Ast::Group { index, node } => Ast::Group {
                index: *index,
                node: Box::new((&**node).deep_copy()),
            },
        }
    }
}

/// A copy of a list of trees.
fn copy_asts(v: &Vec<Ast>) -> (r: Vec<Ast>)
    ensures
        asts_view(r@) == asts_view(v@),
    decreases v,
{
    let mut r: Vec<Ast> = Vec::new();
    let mut i: usize = 0;
    while i < v.len()
        invariant
            i <= v@.len(),
            r@.len() == i,
            forall|k: int| 0 <= k < i ==> (#[trigger] r@[k])@ == v@[k]@,
        decreases v.len() - i,
    {
        assert(decreases_to!(v => v@));
        assert(decreases_to!(v@ => v@[i as int]));
        let a = v[i].deep_copy();
        r.push(a);
        i = i + 1;
    }
    proof {
        lemma_asts_view(r@);
        lemma_asts_view(v@);
        assert(asts_view(r@) =~= asts_view(v@));
    }
    r
}

impl Class {
    /// A copy of this class.
    pub fn deep_copy(&self) -> (r: Class)
        ensures
            r@ == self@,
        decreases self,
    {
        let items = copy_items(&self.items);
        let mut inter: Vec<Class> = Vec::new();
        let mut i: usize = 0;
        while i < self.intersections.len()
            invariant
                i <= self.intersections@.len(),
                inter@.len() == i,
                forall|k: int| 0 <= k < i ==> (#[trigger] inter@[k])@ == self.intersections@[k]@,
            decreases self.intersections.len() - i,
        {
            assert(decreases_to!(self => self.intersections));
            assert(decreases_to!(self.intersections => self.intersections@));
            assert(decreases_to!(self.intersections@ => self.intersections@[i as int]));
            let c = self.intersections[i].deep_copy();
            inter.push(c);
            i = i + 1;
        }
        proof {
            lemma_classes_view(inter@);
            lemma_classes_view(self.intersections@);
            assert(classes_view(inter@) =~= classes_view(self.intersections@));
        }
        Class { negated: self.negated, items, intersections: inter }
    }
}

/// A copy of a list of class items.
fn copy_items(v: &Vec<ClassItem>) -> (r: Vec<ClassItem>)
    ensures
        items_view(r@) == items_view(v@),
    decreases v,
{
    let mut r: Vec<ClassItem> = Vec::new();
    let mut i: usize = 0;
    while i < v.len()
        invariant
            i <= v@.len(),
            r@.len() == i,
            forall|k: int| 0 <= k < i ==> (#[trigger] r@[k])@ == v@[k]@,
        decreases v.len() - i,
    {
        assert(decreases_to!(v => v@));
        assert(decreases_to!(v@ => v@[i as int]));
        let x = copy_item(&v[i]);
        r.push(x);
        i = i + 1;
    }
    proof {
        lemma_items_view(r@);
        lemma_items_view(v@);
        assert(items_view(r@) =~= items_view(v@));
    }
    r
}

/// A copy of a class item.
fn copy_item(item: &ClassItem) -> (r: ClassItem)
    ensures
        r@ == item@,
    decreases item,
{
    match item {
        ClassItem::Char(c) => ClassItem::Char(*c),
        ClassItem::Range(a, b) => ClassItem::Range(*a, *b),
        ClassItem::Digit => ClassItem::Digit,
        ClassItem::Word => ClassItem::Word,
        ClassItem::Space => ClassItem::Space,
        ClassItem::UnicodeProperty(name) => ClassItem::UnicodeProperty(name.clone()),
        ClassItem::Class(c) => ClassItem::Class(Box::new((&**c).deep_copy())),
    }
}

impl Clone for Ast {
    /// A copy of this tree.
    fn clone(&self) -> (r: Self)
        ensures
            r@ == self@,
    {
        self.deep_copy()
    }
}

impl Clone for Class {
    /// A copy of this class.
    fn clone(&self) -> (r: Self)
        ensures
            r@ == self@,
    {
        self.deep_copy()
    }
}

impl Clone for ClassItem {
    /// A copy of this class item.
    fn clone(&self) -> (r: Self)
        ensures
            r@ == self@,
    {
        copy_item(self)
    }
}

} // verus!
