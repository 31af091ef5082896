//! The document tree: a borrowed form, whose items keep the windows of the
//! source they cover, and an owned form, a self-contained copy.

use vstd::prelude::*;
use crate::located::Located;

verus! {

broadcast use {
    vstd::seq::axiom_seq_index_decreases,
    vstd::std_specs::vec::axiom_vec_index_decreases,
    vstd::std_specs::vec::axiom_vec_decreases_to_view,
};

/// A parsed template: the window its items cover and the items.
pub struct Root<'i> {
    pub span: Located<'i>,
    pub content: Vec<Item<'i>>,
}

/// One unit of a template: literal text or a construct.
pub enum Item<'i> {
    Content(Located<'i>),
    Block(ItemBlock<'i>),
    For(ItemFor<'i>),
    If(ItemIf<'i>),
    Match(ItemMatch<'i>),
    Macro(ItemMacro<'i>),
    Expr(ItemExpr<'i>),
}

/// `block name` ... `end`.
pub struct ItemBlock<'i> {
    pub span: Located<'i>,
    pub name: Located<'i>,
    pub body: Located<'i>,
    pub content: Vec<Item<'i>>,
}

/// `for pattern in expression` ... `end`.
pub struct ItemFor<'i> {
    pub span: Located<'i>,
    pub pat: Located<'i>,
    pub expr: Located<'i>,
    pub body: Located<'i>,
    pub content: Vec<Item<'i>>,
}

/// `if condition` ... followed by a branch.
pub struct ItemIf<'i> {
    pub span: Located<'i>,
    pub cond: Located<'i>,
    pub body: Located<'i>,
    pub content: Vec<Item<'i>>,
    pub branch: IfBranch<'i>,
}

/// What follows the body of an `if`: `else if`, `else`, or `end`.
pub enum IfBranch<'i> {
    ElseIf {
        span: Located<'i>,
        cond: Located<'i>,
        body: Located<'i>,
        content: Vec<Item<'i>>,
        branch: Box<IfBranch<'i>>,
    },
    Else { span: Located<'i>, body: Located<'i>, content: Vec<Item<'i>> },
    End { span: Located<'i> },
}

/// `match expression` followed by `when` arms and `end`.
pub struct ItemMatch<'i> {
    pub span: Located<'i>,
    pub expr: Located<'i>,
    pub arms: Vec<MatchArm<'i>>,
}

/// `when pattern [if guard]` and the body up to the next arm or `end`.
pub struct MatchArm<'i> {
    pub span: Located<'i>,
    pub pat: Located<'i>,
    pub guard: Option<Located<'i>>,
    pub body: Located<'i>,
    pub content: Vec<Item<'i>>,
}

/// `macro name(parameters)` ... `end`.
pub struct ItemMacro<'i> {
    pub span: Located<'i>,
    pub name: Located<'i>,
    pub args: Located<'i>,
    pub body: Located<'i>,
    pub content: Vec<Item<'i>>,
}

/// A single-tag construct and its window.
pub struct ItemExpr<'i> {
    pub span: Located<'i>,
    pub expr: Expr<'i>,
}

/// The single-tag constructs.
pub enum Expr<'i> {
    /// `extends "reference"`, the reference with its escapes resolved.
    Extends(String),
    /// `include "reference" fields`, the fields possibly empty.
    Include { reference: String, args: Located<'i> },
    /// `super()`, inside a block.
    SuperCall,
    /// `call name(arguments)`.
    MacroCall { name: Located<'i>, args: Located<'i> },
    /// Host code that parses as a statement.
    Stmt(Located<'i>),
    /// Host code that parses as an expression.
    Expr(Located<'i>),
}

impl<'i> Item<'i> {
    /// The window the item covers.
    pub open spec fn span_of(self) -> Located<'i> {
        match self {
            Item::Content(l) => l,
            Item::Block(b) => b.span,
            Item::For(f) => f.span,
            Item::If(i) => i.span,
            Item::Match(m) => m.span,
            Item::Macro(m) => m.span,
            Item::Expr(e) => e.span,
        }
    }
}

impl<'i> Item<'i> {
    /// The window the item covers.
    pub fn span(&self) -> (r: Located<'i>)
        ensures
            r == self.span_of(),
    {
        match self {
            Item::Content(l) => *l,
            Item::Block(b) => b.span,
            Item::For(f) => f.span,
            Item::If(i) => i.span,
            Item::Match(m) => m.span,
            Item::Macro(m) => m.span,
            Item::Expr(e) => e.span,
        }
    }
}

/// `items` cover `[lo, hi)` of `src` one after another, with no gap and no
/// overlap.
pub open spec fn tiles(items: Seq<Item>, lo: int, hi: int, src: Seq<char>) -> bool {
    &&& forall|i: int| 0 <= i < items.len() ==> {
        let w = #[trigger] items[i].span_of();
        w.src() == src && 0 <= w.lo() <= w.hi() <= src.len()
    }
    &&& items.len() == 0 ==> lo == hi
    &&& items.len() > 0 ==> items[0].span_of().lo() == lo && items.last().span_of().hi() == hi
    &&& forall|i: int| 0 <= i < items.len() - 1 ==> #[trigger] items[i].span_of().hi() == items[i + 1].span_of().lo()
}

/// Every body inside `it` is tiled by its items, at any depth.
pub open spec fn item_wf(it: Item, src: Seq<char>) -> bool
    decreases it,
{
    match it {
        Item::Block(b) => body_wf(b.content@, b.body, src),
        Item::For(f) => body_wf(f.content@, f.body, src),
        Item::If(x) => body_wf(x.content@, x.body, src) && branch_wf(x.branch, src),
        Item::Match(m) => arms_wf(m.arms@, src),
        Item::Macro(m) => body_wf(m.content@, m.body, src),
        _ => true,
    }
}

/// `items` tile the window `body` of `src`, and so do the bodies inside them.
pub open spec fn body_wf(items: Seq<Item>, body: Located, src: Seq<char>) -> bool
    decreases items,
{
    &&& body.src() == src
    &&& tiles(items, body.lo(), body.hi(), src)
    &&& forall|i: int| 0 <= i < items.len() ==> item_wf(#[trigger] items[i], src)
}

/// Every body of the branch `b` is tiled by its items, at any depth.
pub open spec fn branch_wf(b: IfBranch, src: Seq<char>) -> bool
    decreases b,
{
    match b {
        IfBranch::ElseIf { body, content, branch, .. } => body_wf(content@, body, src) && branch_wf(*branch, src),
        IfBranch::Else { body, content, .. } => body_wf(content@, body, src),
        IfBranch::End { .. } => true,
    }
}

/// The body of every arm of `arms` is tiled by its items, at any depth.
pub open spec fn arms_wf(arms: Seq<MatchArm>, src: Seq<char>) -> bool
    decreases arms,
{
    forall|i: int| 0 <= i < arms.len() ==> body_wf(#[trigger] arms[i].content@, arms[i].body, src)
}

/// The text that `items` cover, in order.
pub open spec fn covered_text(items: Seq<Item>) -> Seq<char>
    decreases items.len(),
{
    if items.len() == 0 {
        Seq::empty()
    } else {
        covered_text(items.drop_last()) + items.last().span_of().view_chars()
    }
}

proof fn lemma_tiles_order(items: Seq<Item>, lo: int, hi: int, src: Seq<char>, i: int, j: int)
    requires
        tiles(items, lo, hi, src),
        0 <= i < j < items.len(),
    ensures
        items[i].span_of().hi() <= items[j].span_of().lo(),
    decreases j - i,
{
    if j > i + 1 {
        lemma_tiles_order(items, lo, hi, src, i, j - 1);
        assert(items[j - 1].span_of().hi() == items[j].span_of().lo());
    } else {
        assert(items[i].span_of().hi() == items[i + 1].span_of().lo());
    }
}

/// Items that tile a window cover exactly its text: concatenating the text of
/// each item's window, in order, gives back the text of the window.
pub proof fn lemma_tiles_cover(items: Seq<Item>, lo: int, hi: int, src: Seq<char>)
    requires
        tiles(items, lo, hi, src),
        0 <= lo <= hi <= src.len(),
    ensures
        covered_text(items) == src.subrange(lo, hi),
    decreases items.len(),
{
    if items.len() > 0 {
        let n = items.len() - 1;
        let last = items[n].span_of();
        let init = items.drop_last();
        assert(last.src() == src && 0 <= last.lo() <= last.hi() <= src.len());
        if n > 0 {
            lemma_tiles_order(items, lo, hi, src, 0, n);
            assert(items[0].span_of().lo() <= items[0].span_of().hi());
            assert(init.last().span_of().hi() == items[n - 1].span_of().hi());
            assert(items[n - 1].span_of().hi() == items[n].span_of().lo());
            assert forall|i: int| 0 <= i < init.len() implies {
                let w = #[trigger] init[i].span_of();
                w.src() == src && 0 <= w.lo() <= w.hi() <= src.len()
            } by {
                assert(init[i] == items[i]);
            }
            assert forall|i: int| 0 <= i < init.len() - 1 implies #[trigger] init[i].span_of().hi() == init[i + 1].span_of().lo() by {
                assert(init[i] == items[i] && init[i + 1] == items[i + 1]);
            }
            assert(tiles(init, lo, last.lo(), src));
        } else {
            assert(last.lo() == lo);
            assert(tiles(init, lo, last.lo(), src));
        }
        lemma_tiles_cover(init, lo, last.lo(), src);
        assert(src.subrange(lo, last.lo()) + src.subrange(last.lo(), hi) =~= src.subrange(lo, hi));
    } else {
        assert(src.subrange(lo, hi) =~= Seq::<char>::empty());
    }
}

/// Every body the parser yields covers its text exactly: concatenating the
/// text of its items' windows, in order, gives back the text of the body's
/// window.
pub proof fn lemma_body_covers<'i>(items: Seq<Item<'i>>, body: Located<'i>, src: Seq<char>)
    requires
        body_wf(items, body, src),
        body.inv(),
    ensures
        covered_text(items) == body.view_chars(),
{
    lemma_tiles_cover(items, body.lo(), body.hi(), src);
}

/// Extending tiled items with one that starts where they end.
pub proof fn lemma_tiles_push<'i>(items: Seq<Item<'i>>, lo: int, mid: int, src: Seq<char>, it: Item<'i>)
    requires
        tiles(items, lo, mid, src),
        it.span_of().src() == src,
        it.span_of().lo() == mid,
        0 <= mid <= it.span_of().hi() <= src.len(),
    ensures
        tiles(items.push(it), lo, it.span_of().hi(), src),
{
    let ext = items.push(it);
    assert forall|i: int| 0 <= i < ext.len() implies {
        let w = #[trigger] ext[i].span_of();
        w.src() == src && 0 <= w.lo() <= w.hi() <= src.len()
    } by {
        if i < items.len() {
            assert(ext[i] == items[i]);
        }
    }
    assert forall|i: int| 0 <= i < ext.len() - 1 implies #[trigger] ext[i].span_of().hi() == ext[i + 1].span_of().lo() by {
        assert(ext[i] == items[i]);
        if i + 1 < items.len() {
            assert(ext[i + 1] == items[i + 1]);
            assert(items[i].span_of().hi() == items[i + 1].span_of().lo());
        }
    }
}

/// A parsed template that owns its text.
#[derive(Debug, PartialEq, Eq)]
pub struct OwnedRoot {
    pub content: Vec<OwnedItem>,
}

/// An item that owns its text.
#[derive(Debug, PartialEq, Eq)]
pub enum OwnedItem {
    Content(String),
    Block(OwnedBlock),
    For(OwnedFor),
    If(OwnedIf),
    Match(OwnedMatch),
    Macro(OwnedMacro),
    Expr(OwnedExpr),
}

#[derive(Debug, PartialEq, Eq)]
pub struct OwnedBlock {
    pub name: String,
    pub content: Vec<OwnedItem>,
}

#[derive(Debug, PartialEq, Eq)]
pub struct OwnedFor {
    pub pat: String,
    pub expr: String,
    pub content: Vec<OwnedItem>,
}

#[derive(Debug, PartialEq, Eq)]
pub struct OwnedIf {
    pub cond: String,
    pub content: Vec<OwnedItem>,
    pub branch: OwnedBranch,
}

#[derive(Debug, PartialEq, Eq)]
pub enum OwnedBranch {
    ElseIf { cond: String, content: Vec<OwnedItem>, branch: Box<OwnedBranch> },
    Else { content: Vec<OwnedItem> },
    End,
}

#[derive(Debug, PartialEq, Eq)]
pub struct OwnedMatch {
    pub expr: String,
    pub arms: Vec<OwnedArm>,
}

#[derive(Debug, PartialEq, Eq)]
pub struct OwnedArm {
    pub pat: String,
    pub guard: Option<String>,
    pub content: Vec<OwnedItem>,
}

#[derive(Debug, PartialEq, Eq)]
pub struct OwnedMacro {
    pub name: String,
    pub args: String,
    pub content: Vec<OwnedItem>,
}

#[derive(Debug, PartialEq, Eq)]
pub enum OwnedExpr {
    Extends(String),
    Include { reference: String, args: String },
    SuperCall,
    MacroCall { name: String, args: String },
    Stmt(String),
    Expr(String),
}

/// `o` holds the text of the window `l`.
pub open spec fn owns_text(o: String, l: Located) -> bool {
    o@ == l.view_chars()
}

/// `o` is the owned copy of `b`: the same shape, each window's text copied.
pub open spec fn owned_item(o: OwnedItem, b: Item) -> bool
    decreases b,
{
    match b {
        Item::Content(l) => o matches OwnedItem::Content(t) && owns_text(t, l),
        Item::Block(x) => o matches OwnedItem::Block(y) && owns_text(y.name, x.name)
            && owned_items(y.content@, x.content@),
        Item::For(x) => o matches OwnedItem::For(y) && owns_text(y.pat, x.pat) && owns_text(y.expr, x.expr)
            && owned_items(y.content@, x.content@),
        Item::If(x) => o matches OwnedItem::If(y) && owns_text(y.cond, x.cond)
            && owned_items(y.content@, x.content@) && owned_branch(y.branch, x.branch),
        Item::Match(x) => o matches OwnedItem::Match(y) && owns_text(y.expr, x.expr)
            && owned_arms(y.arms@, x.arms@),
        Item::Macro(x) => o matches OwnedItem::Macro(y) && owns_text(y.name, x.name) && owns_text(y.args, x.args)
            && owned_items(y.content@, x.content@),
        Item::Expr(x) => o matches OwnedItem::Expr(y) && owned_expr(y, x.expr),
    }
}

/// `os` are the owned copies of `bs`, one for one.
pub open spec fn owned_items(os: Seq<OwnedItem>, bs: Seq<Item>) -> bool
    decreases bs,
{
    os.len() == bs.len() && forall|i: int| 0 <= i < bs.len() ==> owned_item(#[trigger] os[i], bs[i])
}

/// `o` is the owned copy of the branch `b`.
pub open spec fn owned_branch(o: OwnedBranch, b: IfBranch) -> bool
    decreases b,
{
    match b {
        IfBranch::ElseIf { cond, content, branch, .. } => o matches OwnedBranch::ElseIf { cond: c, content: oc, branch: ob }
            && owns_text(c, cond) && owned_items(oc@, content@) && owned_branch(*ob, *branch),
        IfBranch::Else { content, .. } => o matches OwnedBranch::Else { content: oc } && owned_items(oc@, content@),
        IfBranch::End { .. } => o is End,
    }
}

/// `os` are the owned copies of the arms `bs`, one for one.
pub open spec fn owned_arms(os: Seq<OwnedArm>, bs: Seq<MatchArm>) -> bool
    decreases bs,
{
    os.len() == bs.len() && forall|i: int| 0 <= i < bs.len() ==> {
        let (o, b) = (#[trigger] os[i], bs[i]);
        &&& owns_text(o.pat, b.pat)
        &&& match b.guard {
            Some(g) => o.guard matches Some(og) && owns_text(og, g),
            None => o.guard is None,
        }
        &&& owned_items(o.content@, b.content@)
    }
}

/// `o` is the owned copy of the single-tag construct `b`.
pub open spec fn owned_expr(o: OwnedExpr, b: Expr) -> bool {
    match b {
        Expr::Extends(r) => o matches OwnedExpr::Extends(t) && t@ == r@,
        Expr::Include { reference, args } => o matches OwnedExpr::Include { reference: t, args: a }
            && t@ == reference@ && owns_text(a, args),
        Expr::SuperCall => o is SuperCall,
        Expr::MacroCall { name, args } => o matches OwnedExpr::MacroCall { name: n, args: a }
            && owns_text(n, name) && owns_text(a, args),
        Expr::Stmt(l) => o matches OwnedExpr::Stmt(t) && owns_text(t, l),
        Expr::Expr(l) => o matches OwnedExpr::Expr(t) && owns_text(t, l),
    }
}

impl<'i> Root<'i> {
    /// A self-contained copy of the template, for keeping once the text is gone.
    pub fn into_owned(&self) -> (r: OwnedRoot)
        ensures
            owned_items(r.content@, self.content@),
    {
        OwnedRoot { content: items_into_owned(&self.content) }
    }
}

impl<'i> Item<'i> {
    /// A self-contained copy of the item.
    pub fn into_owned(&self) -> (r: OwnedItem)
        ensures
            owned_item(r, *self),
        decreases self,
    {
        match self {
            Item::Content(l) => OwnedItem::Content(l.content()),
            Item::Block(x) => OwnedItem::Block(OwnedBlock {
                name: x.name.content(),
                content: items_into_owned(&x.content),
            }),
            Item::For(x) => OwnedItem::For(OwnedFor {
                pat: x.pat.content(),
                expr: x.expr.content(),
                content: items_into_owned(&x.content),
            }),
            Item::If(x) => OwnedItem::If(OwnedIf {
                cond: x.cond.content(),
                content: items_into_owned(&x.content),
                branch: x.branch.into_owned(),
            }),
            Item::Match(x) => OwnedItem::Match(OwnedMatch {
                expr: x.expr.content(),
                arms: arms_into_owned(&x.arms),
            }),
            Item::Macro(x) => OwnedItem::Macro(OwnedMacro {
                name: x.name.content(),
                args: x.args.content(),
                content: items_into_owned(&x.content),
            }),
            Item::Expr(x) => OwnedItem::Expr(x.expr.into_owned()),
        }
    }
}

impl<'i> IfBranch<'i> {
    /// A self-contained copy of the branch.
    pub fn into_owned(&self) -> (r: OwnedBranch)
        ensures
            owned_branch(r, *self),
        decreases self,
    {
        match self {
            IfBranch::ElseIf { cond, content, branch, .. } => OwnedBranch::ElseIf {
                cond: cond.content(),
                content: items_into_owned(content),
                branch: Box::new((**branch).into_owned()),
            },
            IfBranch::Else { content, .. } => OwnedBranch::Else { content: items_into_owned(content) },
            IfBranch::End { .. } => OwnedBranch::End,
        }
    }
}

impl<'i> Expr<'i> {
    /// A self-contained copy of the construct.
    pub fn into_owned(&self) -> (r: OwnedExpr)
        ensures
            owned_expr(r, *self),
    {
        match self {
            Expr::Extends(v) => OwnedExpr::Extends(v.clone()),
            Expr::Include { reference, args } => OwnedExpr::Include {
                reference: reference.clone(),
                args: args.content(),
            },
            Expr::SuperCall => OwnedExpr::SuperCall,
            Expr::MacroCall { name, args } => OwnedExpr::MacroCall { name: name.content(), args: args.content() },
            Expr::Stmt(l) => OwnedExpr::Stmt(l.content()),
            Expr::Expr(l) => OwnedExpr::Expr(l.content()),
        }
    }
}

fn items_into_owned<'i>(items: &Vec<Item<'i>>) -> (r: Vec<OwnedItem>)
    ensures
        owned_items(r@, items@),
    decreases items,
{
    let mut out: Vec<OwnedItem> = Vec::new();
    let mut i: usize = 0;
    while i < items.len()
        invariant
            i <= items@.len(),
            out@.len() == i,
            forall|j: int| 0 <= j < i ==> owned_item(#[trigger] out@[j], items@[j]),
        decreases items@.len() - i,
    {
        out.push(items[i].into_owned());
        i = i + 1;
    }
    out
}

fn arms_into_owned<'i>(arms: &Vec<MatchArm<'i>>) -> (r: Vec<OwnedArm>)
    ensures
        owned_arms(r@, arms@),
    decreases arms,
{
    let mut out: Vec<OwnedArm> = Vec::new();
    let mut i: usize = 0;
    while i < arms.len()
        invariant
            i <= arms@.len(),
            out@.len() == i,
            forall|j: int| 0 <= j < i ==> {
                let (o, b) = (#[trigger] out@[j], arms@[j]);
                &&& owns_text(o.pat, b.pat)
                &&& match b.guard {
                    Some(g) => o.guard matches Some(og) && owns_text(og, g),
                    None => o.guard is None,
                }
                &&& owned_items(o.content@, b.content@)
            },
        decreases arms@.len() - i,
    {
        let arm = &arms[i];
        let guard = match &arm.guard {
            Some(g) => Some(g.content()),
            None => None,
        };
        out.push(OwnedArm { pat: arm.pat.content(), guard, content: items_into_owned(&arm.content) });
        i = i + 1;
    }
    out
}

} // verus!
