//! The template grammar: content runs and the constructs between delimiters,
//! with host code handed to the host parser.

use vstd::prelude::*;
use crate::error::{marks, marks_range, Diagnostic, ErrMode};
use crate::host::{
    failure_of, host_args, host_expr, host_fields, host_params, host_pat_multi, host_pat_single,
    host_stmt, parse_args, parse_expr, parse_fields, parse_params, parse_pat_multi,
    parse_pat_single, parse_stmt,
};
use crate::located::{chars_of, Located, MAX_CHARS};
use crate::scan::{
    absent_between, backtrack, blank_run, delimited, delimited_parts, find, find_unquoted_sep, unquoted_sep,
    ident, ident_run, ident_start, is_blank, matches_at, multispace0, occurs_at, rest_at,
    skip_blanks, space0, unquoted_close, window_at,
};
use crate::state::{Delims, State};
use crate::types::{
    arms_wf, body_wf, branch_wf, item_wf, lemma_tiles_push, tiles, Expr, IfBranch, Item, ItemBlock, ItemExpr, ItemFor, ItemIf,
    ItemMacro, ItemMatch, MatchArm, Root,
};

verus! {

/// `rest` continues `input` after the window `w`, which starts where `input`
/// does and is not empty.
pub open spec fn advanced(input: Located, rest: Located, w: Located) -> bool {
    &&& rest.src() == input.src() && rest.hi() == input.hi()
    &&& w.src() == input.src() && w.lo() == input.lo() && w.hi() == rest.lo()
    &&& input.lo() < rest.lo() <= input.hi()
}

/// `rest` continues `input` from some point on.
pub open spec fn later(input: Located, rest: Located) -> bool {
    rest.src() == input.src() && rest.hi() == input.hi() && input.lo() <= rest.lo() <= input.hi()
}

/// What the host parser is asked to recognise.
pub enum HostKind {
    Stmt,
    Expr,
    PatSingle,
    PatMulti,
    Params,
    Args,
    Fields,
}

/// The host parser accepts `s` as host code of kind `kind`.
pub open spec fn host_accepts(kind: HostKind, s: Seq<char>) -> bool {
    match kind {
        HostKind::Stmt => host_stmt(s),
        HostKind::Expr => host_expr(s),
        HostKind::PatSingle => host_pat_single(s),
        HostKind::PatMulti => host_pat_multi(s),
        HostKind::Params => host_params(s),
        HostKind::Args => host_args(s),
        HostKind::Fields => host_fields(s),
    }
}

/// Ask the host parser whether the fragment `frag` is host code of kind
/// `kind`; its failure becomes a diagnostic marking the part of the fragment
/// it names.
pub fn host_check(frag: Located, kind: HostKind) -> (r: Result<(), Diagnostic>)
    ensures
        r is Ok <==> host_accepts(kind, frag.view_chars()),
{
    let text = frag.content();
    let res = match kind {
        HostKind::Stmt => parse_stmt(text.as_str()),
        HostKind::Expr => parse_expr(text.as_str()),
        HostKind::PatSingle => parse_pat_single(text.as_str()),
        HostKind::PatMulti => parse_pat_multi(text.as_str()),
        HostKind::Params => parse_params(text.as_str()),
        HostKind::Args => parse_args(text.as_str()),
        HostKind::Fields => parse_fields(text.as_str()),
    };
    match res {
        Ok(()) => Ok(()),
        Err(e) => Err(Diagnostic::from_syn(frag, &failure_of(&e))),
    }
}

/// Where the keyword `kw`, followed by at least one space or tab, opens `s`:
/// the position after those blanks.
pub open spec fn keyword_end(s: Seq<char>, kw: Seq<char>) -> Option<int> {
    let e = blank_run(s, kw.len() as int, false);
    if occurs_at(s, kw, 0) && e > kw.len() {
        Some(e)
    } else {
        None
    }
}

/// `s` is the word `w` alone, blanks after it allowed.
pub open spec fn word_alone(s: Seq<char>, w: Seq<char>) -> bool {
    occurs_at(s, w, 0) && blank_run(s, w.len() as int, true) == s.len()
}

/// The text after the keyword `kw` and its blanks, where `kw` opens `inner`.
fn keyword<'s>(inner: Located<'s>, kw: &str) -> (r: Option<Located<'s>>)
    ensures
        match r {
            Some(rest) => keyword_end(inner.view_chars(), kw@) matches Some(e) && rest_at(inner, rest, e),
            None => keyword_end(inner.view_chars(), kw@) is None,
        },
{
    proof { use_type_invariant(inner); }
    let k = chars_of(kw);
    if !matches_at(inner, k.as_slice(), 0) {
        return None;
    }
    let e = skip_blanks(inner, k.len(), false);
    if e > k.len() {
        Some(inner.slice(e, inner.len()))
    } else {
        None
    }
}

/// Whether `inner` is the word `w` alone.
fn is_word(inner: Located, w: &str) -> (r: bool)
    ensures
        r == word_alone(inner.view_chars(), w@),
{
    proof { use_type_invariant(inner); }
    let k = chars_of(w);
    if !matches_at(inner, k.as_slice(), 0) {
        return false;
    }
    skip_blanks(inner, k.len(), true) == inner.len()
}

/// The end of `s[..t]` without its trailing blanks and line breaks.
pub open spec fn trimmed_end(s: Seq<char>, t: int) -> int
    decreases t,
{
    if 0 < t <= s.len() && is_blank(s[t - 1], true) {
        trimmed_end(s, t - 1)
    } else {
        t
    }
}

/// `w` without its trailing blanks and line breaks.
fn trim_end<'s>(w: Located<'s>) -> (r: Located<'s>)
    ensures
        window_at(w, r, 0, trimmed_end(w.view_chars(), w.hi() - w.lo())),
        0 <= trimmed_end(w.view_chars(), w.hi() - w.lo()) <= w.hi() - w.lo(),
{
    proof { use_type_invariant(w); }
    let ghost v = w.view_chars();
    let mut t: usize = w.len();
    while t > 0 && blank_char_any(w.char_at(t - 1))
        invariant
            w.inv(),
            v == w.view_chars(),
            t <= v.len(),
            trimmed_end(v, v.len() as int) == trimmed_end(v, t as int),
        decreases t,
    {
        t = t - 1;
    }
    w.slice(0, t)
}

fn blank_char_any(c: char) -> (r: bool)
    ensures
        r == is_blank(c, true),
{
    c == ' ' || c == '\t' || c == '\n' || c == '\r'
}

/// Where the literal string that opens `s` at `j` closes: the position of
/// its closing `"`; a backslash escapes `"` or `\` only.
pub open spec fn literal_end(s: Seq<char>, j: int) -> Option<int>
    decreases s.len() - j,
{
    if j < 0 || j >= s.len() {
        None
    } else if s[j] == '\\' {
        if j + 1 < s.len() && (s[j + 1] == '"' || s[j + 1] == '\\') {
            literal_end(s, j + 2)
        } else {
            None
        }
    } else if s[j] == '"' {
        Some(j)
    } else {
        literal_end(s, j + 1)
    }
}

proof fn lemma_literal_end(s: Seq<char>, j: int)
    ensures
        literal_end(s, j) matches Some(q) ==> j <= q < s.len(),
    decreases s.len() - j,
{
    if 0 <= j < s.len() && s[j] != '"' {
        if s[j] == '\\' {
            if j + 1 < s.len() {
                lemma_literal_end(s, j + 2);
            }
        } else {
            lemma_literal_end(s, j + 1);
        }
    }
}

/// The value of the literal string from `j`, escapes resolved.
pub open spec fn literal_value(s: Seq<char>, j: int) -> Seq<char>
    decreases s.len() - j,
{
    if j < 0 || j >= s.len() {
        Seq::empty()
    } else if s[j] == '\\' {
        if j + 1 < s.len() && (s[j + 1] == '"' || s[j + 1] == '\\') {
            seq![s[j + 1]] + literal_value(s, j + 2)
        } else {
            Seq::empty()
        }
    } else if s[j] == '"' {
        Seq::empty()
    } else {
        seq![s[j]] + literal_value(s, j + 1)
    }
}

/// A literal string `"..."` at the start of `input`: the rest after its
/// closing quote and its value, `\"` and `\\` read as `"` and `\`.
pub fn string_contents<'s>(input: Located<'s>) -> (r: Result<(Located<'s>, String), ErrMode>)
    ensures
        ({
            let v = input.view_chars();
            match r {
                Ok((rest, value)) => v.len() > 0 && v[0] == '"' && (literal_end(v, 1) matches Some(q)
                    && rest_at(input, rest, q + 1)) && value@ == literal_value(v, 1),
                Err(e) => !(v.len() > 0 && v[0] == '"' && literal_end(v, 1) is Some) && e is Backtrack,
            }
        }),
{
    proof { use_type_invariant(input); }
    let ghost v = input.view_chars();
    let n = input.len();
    if n == 0 || input.char_at(0) != '"' {
        return Err(backtrack(input, "expected a string"));
    }
    let mut out: Vec<char> = Vec::new();
    let mut j: usize = 1;
    while j < n
        invariant
            input.inv(),
            v == input.view_chars(),
            n == v.len(),
            1 <= j,
            v[0] == '"',
            literal_end(v, 1) == literal_end(v, j as int),
            literal_value(v, 1) == out@ + literal_value(v, j as int),
        decreases n - j,
    {
        let c = input.char_at(j);
        if c == '\\' {
            if j + 1 < n && (input.char_at(j + 1) == '"' || input.char_at(j + 1) == '\\') {
                let e = input.char_at(j + 1);
                proof {
                    assert(out@.push(e) + literal_value(v, j + 2) =~= out@ + (seq![e] + literal_value(v, j + 2)));
                }
                out.push(e);
                j = j + 2;
            } else {
                return Err(backtrack(input, "invalid escape in string"));
            }
        } else if c == '"' {
            proof {
                assert(out@ + Seq::<char>::empty() =~= out@);
            }
            return Ok((input.slice(j + 1, n), crate::located::text_of(out.as_slice())));
        } else {
            proof {
                assert(out@.push(c) + literal_value(v, j + 1) =~= out@ + (seq![c] + literal_value(v, j + 1)));
            }
            out.push(c);
            j = j + 1;
        }
    }
    Err(backtrack(input, "unterminated string"))
}

/// Replace a failure of the body of a construct that ran out of input, or
/// that nothing could continue, by a diagnostic at the construct's opening
/// tag `open_tag`; other failures are kept.
pub fn expect_end(open_tag: Located, e: ErrMode) -> (r: ErrMode)
    ensures
        (e is Incomplete || e is Backtrack) ==> r is Cut
            && r.error().message@ == "expected closing {% end %} expression"@
            && r.error().label_text@ == "opening block expression"@
            && marks(r.error(), open_tag),
        e is Cut ==> r == e,
{
    match e {
        ErrMode::Cut(_) => e,
        _ => ErrMode::Cut(
            Diagnostic::new("expected closing {% end %} expression")
                .label("opening block expression")
                .span(open_tag),
        ),
    }
}

/// A failure that commits: `msg`, marking `at`.
fn cut(at: Located, msg: &str) -> (r: ErrMode)
    ensures
        r is Cut,
        r.error().message@ == msg@,
        marks(r.error(), at),
{
    ErrMode::Cut(Diagnostic::new(msg).span(at))
}

/// The state inside a body that is not a block's: no blocks, no `extends`,
/// no `super()`.
fn inner_state() -> (r: State)
    ensures
        !r.allow_block && !r.allow_extend && !r.allow_supercall,
{
    State { allow_block: false, allow_extend: false, allow_supercall: false }
}

/// The run of content at the start of `v` ends at `e`: the next opening
/// delimiter after the first character.
pub open spec fn content_end(v: Seq<char>, open: Seq<char>, e: int) -> bool {
    &&& 0 < e < v.len()
    &&& occurs_at(v, open, e)
    &&& absent_between(v, open, 1, e)
}

/// How a run of content at `lo` ends, where `t` is what follows `lo`: at
/// the next opening delimiter; none follows, or `t` is empty, and it does not
/// apply.
pub open spec fn content_step(t: Seq<char>, lo: int, open: Seq<char>) -> Step {
    if t.len() > 0 && next_open(t, open, 1) < t.len() {
        Step::Done(lo + next_open(t, open, 1))
    } else {
        Step::Back
    }
}

/// A run of literal text at the start of `input`, up to the next opening
/// delimiter or the end; none where `input` is empty or opens with a
/// delimiter.
fn item_content<'s>(input: Located<'s>, delims: &Delims) -> (r: Result<(Located<'s>, Item<'s>), ErrMode>)
    requires
        delims.usable(),
    ensures
        !occurs_at(input.view_chars(), delims.open_view(), 0) ==> agrees(r, content_step(input.view_chars(), input.lo(), delims.open_view()), input),
        r matches Ok((rest, it)) ==> advanced(input, rest, it.span_of()) && it is Content,
        r is Ok <==> (input.view_chars().len() > 0 && !occurs_at(input.view_chars(), delims.open_view(), 0)
            && next_open(input.view_chars(), delims.open_view(), 1) < input.view_chars().len()),
        r matches Ok((rest, it)) ==> content_end(input.view_chars(), delims.open_view(), rest.lo() - input.lo()),
        r matches Ok((rest, it)) ==> node_ok(it, input.src(), *delims, false, false),
{
    proof { use_type_invariant(input); }
    let open = delims.open_chars();
    let n = input.len();
    if n == 0 || matches_at(input, open, 0) {
        return Err(backtrack(input, "expected template content"));
    }
    let end = match find(input, open, 1) {
        Some(j) => j,
        None => {
            proof {
                let v = input.view_chars();
                lemma_next_open(v, delims.open_view(), 1, n as int);
            }
            return Err(backtrack(input, "expected an opening delimiter after the text"));
        },
    };
    proof {
        let v = input.view_chars();
        if end < n {
            assert(v.subrange(end as int, end + delims.open_view().len()).len() == delims.open_view().len());
        }
        lemma_next_open(v, delims.open_view(), 1, end as int);
    }

    let w = input.slice(0, end);
    proof {
        let v = input.view_chars();
        lemma_sub(input, w);
        lemma_absent_prefix(v, delims.open_view(), 0, 1, end as int);
        lemma_absent_prefix(v, delims.open_view(), 1, end as int, end as int);
        assert(!occurs_at(v, delims.open_view(), 0));
        assert(absent_between(v, delims.open_view(), 0, 1));
    }
    Ok((input.slice(end, n), Item::Content(w)))
}

/// The closing tag `end` at the start of `input`: the rest after it and its
/// window.
fn end_tag<'s>(input: Located<'s>, delims: &Delims) -> (r: Result<(Located<'s>, Located<'s>), ErrMode>)
    requires
        delims.usable(),
    ensures
        agrees(r, end_step(input.src(), input.lo(), input.hi(), *delims), input),
        r matches Ok((rest, w)) ==> advanced(input, rest, w),
        r matches Err(e) ==> e is Backtrack,
{
    proof { use_type_invariant(input); }
    match delimited(input, delims) {
        Ok((rest, inner, whole)) => {
            proof {
                lemma_delimited_advances(input, rest, whole, delims);
                lemma_sub(input, inner);
            }
            if is_word(inner, "end") {
                Ok((rest, whole))
            } else {
                Err(backtrack(input, "expected end"))
            }
        },
        Err(e) => Err(e),
    }
}

proof fn lemma_delimited_advances(input: Located, rest: Located, whole: Located, delims: &Delims)
    requires
        delims.usable(),
        (delimited_parts(input.view_chars(), delims.open_view(), delims.close_view()) matches Some((p, c, e))
            && rest_at(input, rest, e) && window_at(input, whole, 0, e)),
        input.inv(),
    ensures
        advanced(input, rest, whole),
        delimited_parts(input.view_chars(), delims.open_view(), delims.close_view()) matches Some((p, c, e))
            ==> 0 <= p < c < e,
{
    let v = input.view_chars();
    let open = delims.open_view();
    crate::scan::lemma_blank_run(v, open.len() as int, false);
    if let Some((p, c, e)) = delimited_parts(v, open, delims.close_view()) {
        crate::scan::lemma_unquoted_close(v, delims.close_view(), p);
    }
}

/// The item is `extends`.
pub open spec fn is_extends(it: Item) -> bool {
    it matches Item::Expr(e) && e.expr is Extends
}

/// The item is `super()`.
pub open spec fn is_super_call(it: Item) -> bool {
    it matches Item::Expr(e) && e.expr is SuperCall
}

/// What the host parser accepted of the item: host code kept as an
/// expression did not parse as a statement, which is tried first.
pub open spec fn host_checked(it: Item) -> bool {
    match it {
        Item::For(f) => host_pat_single(f.pat.view_chars()) && host_expr(f.expr.view_chars()),
        Item::If(x) => host_expr(x.cond.view_chars()),
        Item::Match(m) => host_expr(m.expr.view_chars())
            && forall|k: int| 0 <= k < m.arms@.len() ==> host_pat_multi(#[trigger] m.arms@[k].pat.view_chars()),
        Item::Macro(m) => host_params(m.args.view_chars()),
        Item::Expr(e) => match e.expr {
            Expr::Stmt(l) => host_stmt(l.view_chars()),
            Expr::Expr(l) => host_expr(l.view_chars()) && !host_stmt(l.view_chars()),
            Expr::MacroCall { args, .. } => host_args(args.view_chars()),
            _ => true,
        },
        _ => true,
    }
}

/// The keyword `kw`, followed by a blank, opens `t`.
pub open spec fn has_kw(t: Seq<char>, kw: Seq<char>) -> bool {
    keyword_end(t, kw) is Some
}

/// The keywords of the constructs with a body, in the order they are tried.
pub open spec fn body_keyword(t: Seq<char>) -> bool {
    has_kw(t, "block"@) || has_kw(t, "for"@) || has_kw(t, "if"@) || has_kw(t, "match"@) || has_kw(t, "macro"@)
}

/// The single-tag construct `e`, whose trimmed content is `t`, is the one its
/// keyword selects, trying `extends`, `include`, `call`, `super()` (where
/// `state` accepts it) in turn; host code is what none of them opens, and is
/// all of `t`.
pub open spec fn single_dispatched(e: Expr, t: Seq<char>, state: State) -> bool {
    match e {
        Expr::Extends(_) => has_kw(t, "extends"@),
        Expr::Include { .. } => !has_kw(t, "extends"@) && has_kw(t, "include"@),
        Expr::MacroCall { .. } => !has_kw(t, "extends"@) && !has_kw(t, "include"@) && has_kw(t, "call"@),
        Expr::SuperCall => !has_kw(t, "extends"@) && !has_kw(t, "include"@) && !has_kw(t, "call"@) && super_call(t),
        Expr::Stmt(l) => !has_kw(t, "extends"@) && !has_kw(t, "include"@) && !has_kw(t, "call"@)
            && !(state.allow_supercall && super_call(t)) && l.view_chars() == t,
        Expr::Expr(l) => !has_kw(t, "extends"@) && !has_kw(t, "include"@) && !has_kw(t, "call"@)
            && !(state.allow_supercall && super_call(t)) && l.view_chars() == t,
    }
}

/// The item is the construct its tag's trimmed content `t` selects: the
/// keywords of constructs with a body first, in order, then the single-tag
/// constructs.
pub open spec fn dispatched(it: Item, t: Seq<char>, state: State) -> bool {
    match it {
        Item::Content(_) => true,
        Item::Block(_) => has_kw(t, "block"@),
        Item::For(_) => !has_kw(t, "block"@) && has_kw(t, "for"@),
        Item::If(_) => !has_kw(t, "block"@) && !has_kw(t, "for"@) && has_kw(t, "if"@),
        Item::Match(_) => !has_kw(t, "block"@) && !has_kw(t, "for"@) && !has_kw(t, "if"@) && has_kw(t, "match"@),
        Item::Macro(_) => !has_kw(t, "block"@) && !has_kw(t, "for"@) && !has_kw(t, "if"@) && !has_kw(t, "match"@)
            && has_kw(t, "macro"@),
        Item::Expr(e) => !body_keyword(t) && single_dispatched(e.expr, t, state),
    }
}

/// What follows the keyword `kw` and its blanks in `t`.
pub open spec fn after_kw(t: Seq<char>, kw: Seq<char>) -> Seq<char> {
    match keyword_end(t, kw) {
        Some(e) => t.subrange(e, t.len() as int),
        None => Seq::empty(),
    }
}

/// The parts the construct `it`, whose tag's trimmed content is `t`, takes
/// from its tag: a block's name is the identifier after `block`; a `for`
/// splits at the first `in` between blanks outside quoted strings and
/// character literals; `if` and `match` take
/// the rest of the tag.
pub open spec fn parts_of(it: Item, t: Seq<char>) -> bool {
    match it {
        Item::Block(b) => {
            let r = after_kw(t, "block"@);
            r.len() > 0 && ident_start(r[0]) && b.name.view_chars() == r.subrange(0, ident_run(r, 0))
        },
        Item::For(f) => {
            let r = after_kw(t, "for"@);
            unquoted_sep(r, "in"@, 0) matches Some(j) && f.pat.view_chars() == r.subrange(0, j)
                && f.expr.view_chars() == r.subrange(j + 4, r.len() as int)
        },
        Item::If(x) => x.cond.view_chars() == after_kw(t, "if"@),
        Item::Match(m) => m.expr.view_chars() == after_kw(t, "match"@),
        Item::Expr(x) => expr_parts(x.expr, t),
        _ => true,
    }
}

/// The parts a single-tag construct takes from its tag's trimmed content
/// `t`: the reference of `extends` and `include` (escapes resolved) and the
/// fields of `include`, the name and arguments of `call`.
pub open spec fn expr_parts(e: Expr, t: Seq<char>) -> bool {
    match e {
        Expr::Extends(v) => v@ == literal_value(after_kw(t, "extends"@), 1),
        Expr::Include { reference, args } => {
            let a = after_kw(t, "include"@);
            literal_ok(a) && reference@ == literal_value(a, 1) && args.view_chars() == include_args(after_literal(a))
        },
        Expr::MacroCall { name, args } => paren_parts(after_kw(t, "call"@)) == Some((name.view_chars(), args.view_chars())),
        _ => true,
    }
}

/// The branch `b`, whose tag's trimmed content is `t`, is the one that tag
/// names: `else if` with the rest as its condition, `else`, or `end`.
pub open spec fn branch_dispatched(b: IfBranch, t: Seq<char>) -> bool {
    match b {
        IfBranch::ElseIf { cond, .. } => has_kw(t, "else"@) && has_kw(after_kw(t, "else"@), "if"@)
            && cond.view_chars() == after_kw(after_kw(t, "else"@), "if"@),
        IfBranch::Else { .. } => word_alone(t, "else"@),
        IfBranch::End { .. } => word_alone(t, "end"@),
    }
}

/// The trimmed content of the construct that opens `v`.
pub open spec fn tag_text(v: Seq<char>, delims: Delims) -> Seq<char> {
    match delimited_parts(v, delims.open_view(), delims.close_view()) {
        Some((p, c, e)) => v.subrange(p, p + trimmed_end(v.subrange(p, c), c - p)),
        None => Seq::empty(),
    }
}

/// What closes a body.
#[derive(Clone, Copy)]
pub enum Term {
    /// `end`, consumed.
    End,
    /// `else if`, `else` or `end`, consumed with what they open.
    Branch,
    /// The next `when` or `end` of a `match`, not consumed.
    Arm,
}

/// How a body was closed.
pub enum Closing<'s> {
    End,
    Branch(IfBranch<'s>),
    Arm,
}

/// `s` is `super`, `(`, `)`, with blanks allowed between and after.
pub open spec fn super_call(s: Seq<char>) -> bool {
    let p = blank_run(s, 5, false);
    let q = blank_run(s, p + 1, false);
    &&& occurs_at(s, "super"@, 0)
    &&& p < s.len() && s[p] == '('
    &&& q < s.len() && s[q] == ')'
    &&& blank_run(s, q + 1, true) == s.len()
}

fn is_super(inner: Located) -> (r: bool)
    ensures
        r == super_call(inner.view_chars()),
{
    proof {
        use_type_invariant(inner);
        reveal_strlit("super");
    }
    let ghost v = inner.view_chars();
    let k = chars_of("super");
    if !matches_at(inner, k.as_slice(), 0) {
        return false;
    }
    let n = inner.len();
    let p = skip_blanks(inner, 5, false);
    if p >= n || inner.char_at(p) != '(' {
        return false;
    }
    let q = skip_blanks(inner, p + 1, false);
    if q >= n || inner.char_at(q) != ')' {
        return false;
    }
    skip_blanks(inner, q + 1, true) == n
}

/// A name followed by a parenthesised list that ends the text: the name and
/// the text between the parentheses.
fn name_and_parens<'s>(a: Located<'s>) -> (r: Option<(Located<'s>, Located<'s>)>)
    ensures
        match r {
            Some((name, args)) => paren_parts(a.view_chars()) == Some((name.view_chars(), args.view_chars())),
            None => paren_parts(a.view_chars()) is None,
        },
        r matches Some((name, args)) ==> name.src() == a.src() && args.src() == a.src(),
{
    proof { use_type_invariant(a); }
    let (after, name) = match ident(a) {
        Ok(t) => t,
        Err(_) => return None,
    };
    let (rest, _) = space0(after);
    let t = trim_end(rest);
    let n = t.len();
    proof {
        let av = a.view_chars();
        crate::scan::lemma_ident_run(av, 0);
        lemma_sub(a, after);
        lemma_sub(a, name);
        use_type_invariant(after);
        crate::scan::lemma_blank_run(after.view_chars(), 0, false);
        lemma_sub(after, rest);
        use_type_invariant(rest);
        lemma_sub(rest, t);
    }
    if n < 2 || rest.char_at(0) != '(' || rest.char_at(n - 1) != ')' {
        return None;
    }
    let args = rest.slice(1, n - 1);
    proof { lemma_sub(rest, args); }
    Some((name, args))
}

/// Whether the construct at the start of `input` is an `extends`.
fn opens_extends(input: Located, delims: &Delims) -> (r: bool)
    requires
        delims.usable(),
    ensures
        r == opens_extends_at(input.view_chars(), *delims),
        r ==> occurs_at(input.view_chars(), delims.open_view(), 0),
{
    proof { use_type_invariant(input); }
    match delimited(input, delims) {
        Ok((rest, inner, whole)) => {
            proof {
                lemma_delimited_advances(input, rest, whole, delims);
                lemma_sub(input, inner);
            }
            keyword(inner, "extends").is_some()
        },
        Err(_) => false,
    }
}

/// A single-tag construct whose content is `inner` and whose window is
/// `whole`: `extends`, `include`, `call`, `super()`, or host code, tried as a
/// statement first and as an expression next.
fn single_tag<'s>(inner: Located<'s>, whole: Located<'s>, state: State) -> (r: Result<Expr<'s>, ErrMode>)
    ensures
        r is Ok <==> single_ok(inner.view_chars(), state),
        r matches Ok(e) && e is Extends ==> state.allow_extend,
        r matches Ok(e) && e is SuperCall ==> state.allow_supercall,
        r matches Ok(e) ==> host_checked(Item::Expr(ItemExpr { span: whole, expr: e })),
        r matches Ok(e) ==> single_dispatched(e, inner.view_chars(), state),
        r matches Ok(Expr::Extends(v)) ==> v@ == literal_value(after_kw(inner.view_chars(), "extends"@), 1),
        r matches Ok(e) ==> expr_parts(e, inner.view_chars()),
        (has_kw(inner.view_chars(), "extends"@) && !state.allow_extend) ==> (r matches Err(e)
            && e.error().message@ == "extends must be the first item of a template"@ && marks(e.error(), whole)),
        r matches Err(e) ==> (keyword_tag(inner.view_chars(), state) ==> e is Cut)
            && (!keyword_tag(inner.view_chars(), state) ==> e is Backtrack),
{
    proof { use_type_invariant(inner); }
    if let Some(a) = keyword(inner, "extends") {
        proof { use_type_invariant(a); lemma_sub(inner, a); }
        if !state.allow_extend {
            return Err(cut(whole, "extends must be the first item of a template"));
        }
        return match string_contents(a) {
            Ok((after, value)) => {
                proof { use_type_invariant(after); lemma_literal_end(a.view_chars(), 1); lemma_sub(a, after); }
                if trim_end(after).len() == 0 {
                    Ok(Expr::Extends(value))
                } else {
                    Err(cut(whole, "unable to parse extends expression"))
                }
            },
            Err(_) => Err(cut(whole, "unable to parse extends expression")),
        };
    }
    if let Some(a) = keyword(inner, "include") {
        proof { use_type_invariant(a); lemma_sub(inner, a); }
        return match string_contents(a) {
            Ok((after, value)) => {
                proof { use_type_invariant(after); lemma_literal_end(a.view_chars(), 1); lemma_sub(a, after); }
                let (spaced, _) = multispace0(after);
                proof {
                    use_type_invariant(spaced);
                    crate::scan::lemma_blank_run(after.view_chars(), 0, true);
                    lemma_sub(after, spaced);
                }
                let args = trim_end(spaced);
                proof { use_type_invariant(args); lemma_sub(spaced, args); }
                if args.len() > 0 {
                    if let Err(d) = host_check(args, HostKind::Fields) {
                        return Err(ErrMode::Cut(d));
                    }
                }
                Ok(Expr::Include { reference: value, args })
            },
            Err(_) => Err(cut(whole, "unable to parse include expression")),
        };
    }
    if let Some(a) = keyword(inner, "call") {
        proof { use_type_invariant(a); lemma_sub(inner, a); }
        return match name_and_parens(a) {
            Some((name, args)) => match host_check(args, HostKind::Args) {
                Ok(()) => Ok(Expr::MacroCall { name, args }),
                Err(d) => Err(ErrMode::Cut(d)),
            },
            None => Err(cut(whole, "unable to parse call expression")),
        };
    }
    if state.allow_supercall && is_super(inner) {
        return Ok(Expr::SuperCall);
    }
    match host_check(inner, HostKind::Stmt) {
        Ok(()) => Ok(Expr::Stmt(inner)),
        Err(_) => match host_check(inner, HostKind::Expr) {
            Ok(()) => Ok(Expr::Expr(inner)),
            Err(d) => Err(ErrMode::Backtrack(d)),
        },
    }
}

/// How a parser ends, at absolute positions of the text.
pub enum Step {
    /// It succeeds, and what follows starts at the position.
    Done(int),
    /// It does not apply here.
    Back,
    /// It applies but is malformed.
    Cut,
    /// A body opened by the tag `[lo, hi)` is not closed.
    Unclosed(int, int),
    /// The input ends inside a body.
    Incomplete,
}

/// A body's failure as its construct reports it: running out of input, or
/// meeting what no item starts, means the tag `[lo, hi)` is not closed.
pub open spec fn closed_by(s: Step, lo: int, hi: int) -> Step {
    match s {
        Step::Back => Step::Unclosed(lo, hi),
        Step::Incomplete => Step::Unclosed(lo, hi),
        _ => s,
    }
}

/// The failure `e` is the one `s` describes, over the text `src`.
pub open spec fn err_agrees(e: ErrMode, s: Step, src: Seq<char>) -> bool {
    match s {
        Step::Done(_) => false,
        Step::Back => e is Backtrack,
        Step::Cut => e is Cut,
        Step::Incomplete => e is Incomplete,
        Step::Unclosed(a, b) => e is Cut && e.error().message@ == "expected closing {% end %} expression"@
            && e.error().label_text@ == "opening block expression"@ && marks_range(e.error(), src, a, b),
    }
}

/// The parser's result `r` on `input` is the one `s` describes.
pub open spec fn agrees<'s, T>(r: Result<(Located<'s>, T), ErrMode>, s: Step, input: Located<'s>) -> bool {
    match r {
        Ok((rest, _)) => s == Step::Done(rest.lo()),
        Err(e) => err_agrees(e, s, input.src()),
    }
}

/// A window inside another sees the part of its text between its bounds.
proof fn lemma_sub(outer: Located, w: Located)
    requires
        outer.inv(),
        w.src() == outer.src(),
        outer.lo() <= w.lo() <= w.hi() <= outer.hi(),
    ensures
        w.view_chars() == outer.view_chars().subrange(w.lo() - outer.lo(), w.hi() - outer.lo()),
{
    assert(w.view_chars() =~= outer.view_chars().subrange(w.lo() - outer.lo(), w.hi() - outer.lo()));
}

/// Where the first opening delimiter at or after `j` is.
proof fn lemma_next_open(t: Seq<char>, open: Seq<char>, j: int, r: int)
    requires
        open.len() > 0,
        0 <= j <= r <= t.len(),
        absent_between(t, open, j, r),
        r == t.len() || occurs_at(t, open, r),
    ensures
        next_open(t, open, j) == r,
    decreases r - j,
{
    if j < r {
        lemma_next_open(t, open, j + 1, r);
    }
}

/// No occurrence in `[a, b)` of `v` means none in that range of a prefix.
proof fn lemma_absent_prefix(v: Seq<char>, pat: Seq<char>, a: int, b: int, e: int)
    requires
        absent_between(v, pat, a, b),
        0 <= e <= v.len(),
    ensures
        absent_between(v.subrange(0, e), pat, a, b),
{
    assert forall|j: int| a <= j < b implies !occurs_at(v.subrange(0, e), pat, j) by {
        if occurs_at(v.subrange(0, e), pat, j) {
            assert(v.subrange(0, e).subrange(j, j + pat.len()) =~= v.subrange(j, j + pat.len()));
            assert(occurs_at(v, pat, j));
        }
    }
}

/// A run of content that reaches the end has no opening delimiter after its
/// first character.
proof fn lemma_next_open_bounds(t: Seq<char>, open: Seq<char>, j: int)
    requires
        0 <= j,
    ensures
        next_open(t, open, j) <= t.len() || j > t.len(),
        next_open(t, open, j) == t.len() ==> absent_between(t, open, j, t.len() as int),
    decreases t.len() - j,
{
    if j < t.len() && !occurs_at(t, open, j) {
        lemma_next_open_bounds(t, open, j + 1);
    }
}

/// The state inside a block's body.
pub open spec fn block_state() -> State {
    State { allow_block: true, allow_extend: false, allow_supercall: true }
}

/// The state inside any other body.
pub open spec fn plain_state() -> State {
    State { allow_block: false, allow_extend: false, allow_supercall: false }
}

/// The state at the root, after its first item.
pub open spec fn root_body_state() -> State {
    State { allow_block: true, allow_extend: false, allow_supercall: false }
}

/// Where a run of content from `j` on ends in `t`: the next opening
/// delimiter, or the end.
pub open spec fn next_open(t: Seq<char>, open: Seq<char>, j: int) -> int
    decreases t.len() - j,
{
    if j >= t.len() {
        t.len() as int
    } else if occurs_at(t, open, j) {
        j
    } else {
        next_open(t, open, j + 1)
    }
}

/// The literal string that opens `a` closes.
pub open spec fn literal_ok(a: Seq<char>) -> bool {
    a.len() > 0 && a[0] == '"' && literal_end(a, 1) is Some
}

/// What follows the literal string that opens `a`.
pub open spec fn after_literal(a: Seq<char>) -> Seq<char> {
    a.subrange(literal_end(a, 1)->Some_0 + 1, a.len() as int)
}

/// The fields of an include: what follows its reference, without the
/// blanks around it.
pub open spec fn include_args(af: Seq<char>) -> Seq<char> {
    let sp = af.subrange(blank_run(af, 0, true), af.len() as int);
    sp.subrange(0, trimmed_end(sp, sp.len() as int))
}

/// A name followed by a parenthesised list that ends `a`: the name and the
/// text between the parentheses.
pub open spec fn paren_parts(a: Seq<char>) -> Option<(Seq<char>, Seq<char>)> {
    if a.len() > 0 && ident_start(a[0]) {
        let n = ident_run(a, 0);
        let af = a.subrange(n, a.len() as int);
        let r = af.subrange(blank_run(af, 0, false), af.len() as int);
        let m = trimmed_end(r, r.len() as int);
        if m >= 2 && r[0] == '(' && r[m - 1] == ')' {
            Some((a.subrange(0, n), r.subrange(1, m - 1)))
        } else {
            None
        }
    } else {
        None
    }
}

/// A keyword selects the single-tag construct whose trimmed content is `t`:
/// its failure commits. Host code is what no keyword selects.
pub open spec fn keyword_tag(t: Seq<char>, state: State) -> bool {
    has_kw(t, "extends"@) || has_kw(t, "include"@) || has_kw(t, "call"@) || (state.allow_supercall && super_call(t))
}

/// A single-tag construct whose trimmed content is `t` is well formed where
/// `state` holds.
pub open spec fn single_ok(t: Seq<char>, state: State) -> bool {
    if has_kw(t, "extends"@) {
        let a = after_kw(t, "extends"@);
        state.allow_extend && literal_ok(a) && trimmed_end(after_literal(a), after_literal(a).len() as int) == 0
    } else if has_kw(t, "include"@) {
        let a = after_kw(t, "include"@);
        literal_ok(a) && (include_args(after_literal(a)).len() == 0 || host_fields(include_args(after_literal(a))))
    } else if has_kw(t, "call"@) {
        match paren_parts(after_kw(t, "call"@)) {
            Some((_, args)) => host_args(args),
            None => false,
        }
    } else if state.allow_supercall && super_call(t) {
        true
    } else {
        host_stmt(t) || host_expr(t)
    }
}

/// The closing tag `end` at `lo`.
pub open spec fn end_step(src: Seq<char>, lo: int, hi: int, d: Delims) -> Step {
    let t = src.subrange(lo, hi);
    match delimited_parts(t, d.open_view(), d.close_view()) {
        Some((p, c, e)) => if word_alone(t.subrange(p, c), "end"@) {
            Step::Done(lo + e)
        } else {
            Step::Back
        },
        None => Step::Back,
    }
}

/// The body that starts at `lo + e`, its construct's tag being `[lo, lo + e)`.
pub open spec fn body_step(src: Seq<char>, lo: int, hi: int, d: Delims, e: int, st: State, term: Term) -> Step
    decreases hi - lo, 0int,
{
    if e <= 0 || hi < lo + e {
        Step::Cut
    } else {
        closed_by(items_till_step(src, lo + e, hi, d, st, term), lo, lo + e)
    }
}

/// How a `block` whose tag `[lo, lo + e)` holds `a` after its keyword ends.
pub open spec fn block_branch(a: Seq<char>, src: Seq<char>, lo: int, hi: int, d: Delims, e: int) -> Step
    decreases hi - lo, 1int,
{
    if !(a.len() > 0 && ident_start(a[0])) {
        Step::Cut
    } else if trimmed_end(a.subrange(ident_run(a, 0), a.len() as int), a.len() - ident_run(a, 0)) != 0 {
        Step::Cut
    } else {
        body_step(src, lo, hi, d, e, block_state(), Term::End)
    }
}

/// How a `for` whose tag `[lo, lo + e)` holds `a` after its keyword ends.
pub open spec fn for_branch(a: Seq<char>, src: Seq<char>, lo: int, hi: int, d: Delims, e: int) -> Step
    decreases hi - lo, 1int,
{
    match unquoted_sep(a, "in"@, 0) {
        Some(j) => if host_pat_single(a.subrange(0, j)) && host_expr(a.subrange(j + 4, a.len() as int)) {
            body_step(src, lo, hi, d, e, plain_state(), Term::End)
        } else {
            Step::Cut
        },
        None => Step::Cut,
    }
}

/// How a `match` whose tag `[lo, lo + e)` holds `a` after its keyword ends.
pub open spec fn match_branch(a: Seq<char>, src: Seq<char>, lo: int, hi: int, d: Delims, e: int) -> Step
    decreases hi - lo, 1int,
{
    let m = lo + e + blank_run(src.subrange(lo + e, hi), 0, true);
    if host_expr(a) && lo < m <= hi {
        arms_step(src, m, hi, d, lo, lo + e)
    } else {
        Step::Cut
    }
}

/// How `item` ends on `[lo, hi)` of `src`.
pub open spec fn item_step(src: Seq<char>, lo: int, hi: int, d: Delims, st: State) -> Step
    decreases hi - lo, 2int,
{
    let t = src.subrange(lo, hi);
    if !occurs_at(t, d.open_view(), 0) {
        content_step(t, lo, d.open_view())
    } else {
        match delimited_parts(t, d.open_view(), d.close_view()) {
            None => Step::Back,
            Some((p, c, e)) => {
                let tt = tag_text(t, d);
                if has_kw(tt, "block"@) {
                    if !st.allow_block {
                        Step::Cut
                    } else {
                        block_branch(after_kw(tt, "block"@), src, lo, hi, d, e)
                    }
                } else if has_kw(tt, "for"@) {
                    for_branch(after_kw(tt, "for"@), src, lo, hi, d, e)
                } else if has_kw(tt, "if"@) {
                    if host_expr(after_kw(tt, "if"@)) {
                        body_step(src, lo, hi, d, e, plain_state(), Term::Branch)
                    } else {
                        Step::Cut
                    }
                } else if has_kw(tt, "match"@) {
                    match_branch(after_kw(tt, "match"@), src, lo, hi, d, e)
                } else if has_kw(tt, "macro"@) {
                    match paren_parts(after_kw(tt, "macro"@)) {
                        Some((_, args)) => if host_params(args) {
                            body_step(src, lo, hi, d, e, plain_state(), Term::End)
                        } else {
                            Step::Cut
                        },
                        None => Step::Cut,
                    }
                } else if single_ok(tt, st) {
                    Step::Done(lo + e)
                } else if keyword_tag(tt, st) {
                    Step::Cut
                } else {
                    Step::Back
                }
            },
        }
    }
}

/// How the arms of a `match` whose tag is `[tlo, thi)` end, from `pos` on.
pub open spec fn arms_step(src: Seq<char>, pos: int, hi: int, d: Delims, tlo: int, thi: int) -> Step
    decreases hi - pos, 0int,
{
    if hi - pos <= 0 {
        Step::Unclosed(tlo, thi)
    } else if end_step(src, pos, hi, d) is Done {
        end_step(src, pos, hi, d)
    } else {
        let t = src.subrange(pos, hi);
        match delimited_parts(t, d.open_view(), d.close_view()) {
            None => Step::Unclosed(tlo, thi),
            Some((p, c, e)) => {
                let at = tag_text(t, d);
                if !has_kw(at, "when"@) || e <= 0 || hi < pos + e {
                    Step::Unclosed(tlo, thi)
                } else {
                    let h = after_kw(at, "when"@);
                    let (pat, guard_ok) = match unquoted_sep(h, "if"@, 0) {
                        Some(j) => (h.subrange(0, j), host_expr(h.subrange(j + 4, h.len() as int))),
                        None => (h, true),
                    };
                    if !host_pat_multi(pat) || !guard_ok {
                        Step::Cut
                    } else {
                        match items_till_step(src, pos + e, hi, d, plain_state(), Term::Arm) {
                            Step::Done(x) => if pos < x <= hi {
                                arms_step(src, x, hi, d, tlo, thi)
                            } else {
                                Step::Cut
                            },
                            other => closed_by(other, pos, pos + e),
                        }
                    }
                }
            },
        }
    }
}

/// How `if_branch` ends on `[lo, hi)`.
pub open spec fn branch_step(src: Seq<char>, lo: int, hi: int, d: Delims) -> Step
    decreases hi - lo, 2int,
{
    let t = src.subrange(lo, hi);
    match delimited_parts(t, d.open_view(), d.close_view()) {
        None => Step::Back,
        Some((p, c, e)) => {
            let tt = tag_text(t, d);
            if has_kw(tt, "else"@) && has_kw(after_kw(tt, "else"@), "if"@) {
                if host_expr(after_kw(after_kw(tt, "else"@), "if"@)) {
                    body_step(src, lo, hi, d, e, plain_state(), Term::Branch)
                } else {
                    Step::Cut
                }
            } else if word_alone(tt, "else"@) {
                body_step(src, lo, hi, d, e, plain_state(), Term::End)
            } else if word_alone(tt, "end"@) {
                Step::Done(lo + e)
            } else {
                Step::Back
            }
        },
    }
}

/// How the terminator `term` ends at `lo`.
pub open spec fn term_step(src: Seq<char>, lo: int, hi: int, d: Delims, term: Term) -> Step
    decreases hi - lo, 3int,
{
    match term {
        Term::End => end_step(src, lo, hi, d),
        Term::Branch => branch_step(src, lo, hi, d),
        Term::Arm => {
            let t = src.subrange(lo, hi);
            match delimited_parts(t, d.open_view(), d.close_view()) {
                Some((p, c, e)) => if has_kw(t.subrange(p, c), "when"@) || word_alone(t.subrange(p, c), "end"@) {
                    Step::Done(lo)
                } else {
                    Step::Back
                },
                None => Step::Back,
            }
        },
    }
}

/// How a body from `lo` on ends: at the position after its terminator (or
/// at the terminator, for a `match` arm).
pub open spec fn items_till_step(src: Seq<char>, lo: int, hi: int, d: Delims, st: State, term: Term) -> Step
    decreases hi - lo, 4int,
{
    if hi - lo <= 0 {
        Step::Incomplete
    } else {
        match term_step(src, lo, hi, d, term) {
            Step::Back => match item_step(src, lo, hi, d, st) {
                Step::Done(x) => if lo < x <= hi {
                    items_till_step(src, x, hi, d, st, term)
                } else {
                    Step::Cut
                },
                other => other,
            },
            other => other,
        }
    }
}

/// The root's items, from `lo` on: a tag that opens and never closes is an
/// error.
pub open spec fn root_loop(src: Seq<char>, lo: int, hi: int, d: Delims) -> Step
    decreases hi - lo,
{
    if hi - lo <= 0 {
        Step::Done(hi)
    } else {
        match item_step(src, lo, hi, d, root_body_state()) {
            Step::Done(x) => if lo < x <= hi {
                root_loop(src, x, hi, d)
            } else {
                Step::Cut
            },
            Step::Back => if !occurs_at(src.subrange(lo, hi), d.open_view(), 0) {
                Step::Done(hi)
            } else {
                Step::Cut
            },
            other => other,
        }
    }
}

/// The template opens, after blanks, with an `extends` tag.
pub open spec fn opens_extends_at(t: Seq<char>, d: Delims) -> bool {
    match delimited_parts(t, d.open_view(), d.close_view()) {
        Some((p, c, e)) => has_kw(t.subrange(p, c), "extends"@),
        None => false,
    }
}

/// Where the root's items start: after the leading blanks where an `extends`
/// follows them, else at 0.
pub open spec fn root_start(s: Seq<char>, d: Delims) -> int {
    let lead = blank_run(s, 0, true);
    if opens_extends_at(s.subrange(lead, s.len() as int), d) {
        lead
    } else {
        0
    }
}

/// Where the tag that opens `t` ends.
pub open spec fn tag_end(t: Seq<char>, d: Delims) -> int {
    match delimited_parts(t, d.open_view(), d.close_view()) {
        Some((p, c, e)) => e,
        None => 0,
    }
}

/// The body of the construct `it` of the text `src` starts where its
/// opening tag ends, and its closing tag (`end`, or the branch of an `if`)
/// starts where the body ends.
pub open spec fn framed(it: Item, src: Seq<char>, d: Delims) -> bool {
    let lo = it.span_of().lo();
    let opened = lo + tag_end(src.subrange(lo, src.len() as int), d);
    match it {
        Item::Block(b) => b.body.lo() == opened && end_step(src, b.body.hi(), src.len() as int, d) == Step::Done(b.span.hi()),
        Item::For(f) => f.body.lo() == opened && end_step(src, f.body.hi(), src.len() as int, d) == Step::Done(f.span.hi()),
        Item::Macro(m) => m.body.lo() == opened && end_step(src, m.body.hi(), src.len() as int, d) == Step::Done(m.span.hi()),
        Item::If(x) => x.body.lo() == opened && branch_step(src, x.body.hi(), src.len() as int, d) == Step::Done(x.span.hi()),
        Item::Expr(x) => x.span.hi() == opened,
        _ => true,
    }
}

/// What the item `it` of the text `src` is at its own level: a run of
/// content opens with no delimiter and holds none; a construct is the one
/// its tag's keyword selects, with the parts that tag gives, in its tag
/// frame, and a block or `super()` only where `blk` or `sup` allows it.
pub open spec fn node_ok(it: Item, src: Seq<char>, d: Delims, blk: bool, sup: bool) -> bool {
    let lo = it.span_of().lo();
    let t = src.subrange(lo, src.len() as int);
    let tt = tag_text(t, d);
    match it {
        Item::Content(l) => !occurs_at(l.view_chars(), d.open_view(), 0)
            && absent_between(l.view_chars(), d.open_view(), 1, l.view_chars().len() as int),
        _ => {
            &&& occurs_at(t, d.open_view(), 0)
            &&& delimited_parts(t, d.open_view(), d.close_view()) is Some
            &&& dispatched(it, tt, State { allow_block: blk, allow_extend: false, allow_supercall: sup })
            &&& parts_of(it, tt)
            &&& framed(it, src, d)
            &&& (it is Block ==> blk)
            &&& (is_super_call(it) ==> sup)
        },
    }
}

/// `it` is as `node_ok` says, and so is everything inside it: blocks and
/// `super()` inside a block's body, neither inside any other body.
pub open spec fn tree_ok(it: Item, src: Seq<char>, d: Delims, blk: bool, sup: bool) -> bool
    decreases it,
{
    &&& node_ok(it, src, d, blk, sup)
    &&& match it {
        Item::Block(b) => body_ok(b.content@, src, d, true, true),
        Item::For(f) => body_ok(f.content@, src, d, false, false),
        Item::If(x) => body_ok(x.content@, src, d, false, false) && branch_ok(x.branch, src, d),
        Item::Match(m) => arms_ok(m.arms@, src, d),
        Item::Macro(m) => body_ok(m.content@, src, d, false, false),
        _ => true,
    }
}

/// Every item of a body is as `tree_ok` says.
pub open spec fn body_ok(items: Seq<Item>, src: Seq<char>, d: Delims, blk: bool, sup: bool) -> bool
    decreases items,
{
    forall|i: int| 0 <= i < items.len() ==> tree_ok(#[trigger] items[i], src, d, blk, sup)
}

/// The window of a branch: from its tag on.
pub open spec fn branch_span<'i>(b: IfBranch<'i>) -> Located<'i> {
    match b {
        IfBranch::ElseIf { span, .. } => span,
        IfBranch::Else { span, .. } => span,
        IfBranch::End { span } => span,
    }
}

/// The branch `b` is the one its tag names, its body starts where its tag
/// ends, and everything inside it is as `tree_ok` says.
pub open spec fn branch_ok(b: IfBranch, src: Seq<char>, d: Delims) -> bool
    decreases b,
{
    let lo = branch_span(b).lo();
    let t = src.subrange(lo, src.len() as int);
    &&& branch_dispatched(b, tag_text(t, d))
    &&& match b {
        IfBranch::ElseIf { body, content, branch, .. } => body.lo() == lo + tag_end(t, d)
            && body_ok(content@, src, d, false, false) && branch_ok(*branch, src, d),
        IfBranch::Else { body, content, .. } => body.lo() == lo + tag_end(t, d) && body_ok(content@, src, d, false, false),
        IfBranch::End { span } => span.hi() == lo + tag_end(t, d),
    }
}

/// The arm `a` of a `match` takes its pattern and guard from its `when`
/// tag, split at the first `if` between blanks outside quoted strings and
/// character literals, and its body starts
/// where that tag ends.
pub open spec fn arm_parts(a: MatchArm, src: Seq<char>, d: Delims) -> bool {
    let lo = a.span.lo();
    let t = src.subrange(lo, src.len() as int);
    let h = after_kw(tag_text(t, d), "when"@);
    &&& has_kw(tag_text(t, d), "when"@)
    &&& a.span.hi() == lo + tag_end(t, d)
    &&& a.body.lo() == lo + tag_end(t, d)
    &&& match unquoted_sep(h, "if"@, 0) {
        Some(j) => a.pat.view_chars() == h.subrange(0, j)
            && (a.guard matches Some(g) && g.view_chars() == h.subrange(j + 4, h.len() as int)),
        None => a.pat.view_chars() == h && a.guard is None,
    }
}

/// Every arm is as `arm_parts` says, and everything in its body as
/// `tree_ok` says.
pub open spec fn arms_ok(arms: Seq<MatchArm>, src: Seq<char>, d: Delims) -> bool
    decreases arms,
{
    forall|k: int| 0 <= k < arms.len() ==> arm_parts(#[trigger] arms[k], src, d)
        && body_ok(arms[k].content@, src, d, false, false)
}

/// The reference the template `s` extends: that of an `extends` tag that
/// opens it after blanks, escapes resolved.
pub open spec fn template_parent(s: Seq<char>, d: Delims) -> Option<Seq<char>> {
    let t = s.subrange(blank_run(s, 0, true), s.len() as int);
    let tt = tag_text(t, d);
    if opens_extends_at(t, d) && !body_keyword(tt) && has_kw(tt, "extends"@) {
        Some(literal_value(after_kw(tt, "extends"@), 1))
    } else {
        None
    }
}

/// The reference the parsed template `root` extends: that of its first
/// item, where it is `extends`.
pub open spec fn root_parent(root: Root) -> Option<Seq<char>> {
    items_parent(root.content@)
}

/// The reference the items `items` extend: that of the first, where it is
/// `extends`.
pub open spec fn items_parent(items: Seq<Item>) -> Option<Seq<char>> {
    if items.len() > 0 {
        match items[0] {
            Item::Expr(x) => match x.expr {
                Expr::Extends(v) => Some(v@),
                _ => None,
            },
            _ => None,
        }
    } else {
        None
    }
}

/// `root` is a parse of the template `s`: its items tile its window, which
/// runs from `root_start` to the end, and each is what its tag says, at any
/// depth.
pub open spec fn parsed_as(root: Root, s: Seq<char>, d: Delims) -> bool {
    &&& root.span.src() == s
    &&& root.span.lo() == root_start(s, d)
    &&& root.span.hi() == s.len()
    &&& body_wf(root.content@, root.span, s)
    &&& body_ok(root.content@, s, d, true, false)
    &&& items_parent(root.content@) == template_parent(s, d)
}

/// How parsing the template `s` ends.
pub open spec fn template_step(s: Seq<char>, d: Delims) -> Step {
    let lead = blank_run(s, 0, true);
    if opens_extends_at(s.subrange(lead, s.len() as int), d) {
        match item_step(s, lead, s.len() as int, d, State { allow_block: true, allow_extend: true, allow_supercall: false }) {
            Step::Done(x) => if lead < x <= s.len() {
                root_loop(s, x, s.len() as int, d)
            } else {
                Step::Cut
            },
            other => other,
        }
    } else {
        root_loop(s, 0, s.len() as int, d)
    }
}

/// A template `s` is well formed: its parse succeeds.
pub open spec fn well_formed(s: Seq<char>, d: Delims) -> bool {
    template_step(s, d) is Done
}

/// The items of a body that starts at `input`, up to what `term` names: the
/// rest after it, the items, the body's window, and how it closed. A body
/// that runs out of input fails with `Incomplete`.
fn items_till<'s>(input: Located<'s>, delims: &Delims, state: State, term: Term) -> (r: Result<(Located<'s>, Vec<Item<'s>>, Located<'s>, Closing<'s>), ErrMode>)
    requires
        input.hi() == input.src().len(),
        delims.usable(),
    ensures
        r matches Ok((rest, items, body, closing)) ==> {
            &&& later(input, rest)
            &&& body.src() == input.src() && body.lo() == input.lo() && body.hi() <= rest.lo()
            &&& body_wf(items@, body, input.src())
            &&& (closing matches Closing::Branch(b) ==> branch_wf(b, input.src()))
            &&& (term is End ==> closing is End)
            &&& (term is Branch ==> closing is Branch)
            &&& (term is Arm ==> closing is Arm && rest.lo() == body.hi())
            &&& term_step(input.src(), body.hi(), input.hi(), *delims, term) == Step::Done(rest.lo())
            &&& body_ok(items@, input.src(), *delims, state.allow_block, state.allow_supercall)
            &&& (closing matches Closing::Branch(b) ==> branch_ok(b, input.src(), *delims))
        },
        match r {
            Ok((rest, _, _, _)) => items_till_step(input.src(), input.lo(), input.hi(), *delims, state, term)
                == Step::Done(rest.lo()),
            Err(e) => err_agrees(e, items_till_step(input.src(), input.lo(), input.hi(), *delims, state, term), input.src()),
        },
    decreases input.hi() - input.lo(), 4int,
{
    proof { use_type_invariant(input); }
    let mut pos = input;
    let mut items: Vec<Item<'s>> = Vec::new();
    while pos.len() > 0
        invariant
            delims.usable(),
            input.inv(),
            pos.inv(),
            later(input, pos),
            tiles(items@, input.lo(), pos.lo(), input.src()),
            forall|k: int| 0 <= k < items@.len() ==> item_wf(#[trigger] items@[k], input.src()),
            items_till_step(input.src(), input.lo(), input.hi(), *delims, state, term)
                == items_till_step(input.src(), pos.lo(), pos.hi(), *delims, state, term),
            input.hi() == input.src().len(),
            forall|k: int| 0 <= k < items@.len() ==> tree_ok(#[trigger] items@[k], input.src(), *delims, state.allow_block, state.allow_supercall),
        decreases pos.hi() - pos.lo(),
    {
        match terminator(pos, delims, term) {
            Ok((rest, closing)) => {
                let body = input.slice(0, pos.offset() - input.offset());
                return Ok((rest, items, body, closing));
            },
            Err(ErrMode::Backtrack(_)) => {},
            Err(e) => {
                return Err(e);
            },
        }
        match item(pos, delims, state) {
            Ok((rest, it)) => {
                proof {
                    use_type_invariant(rest);
                    lemma_tiles_push(items@, input.lo(), pos.lo(), input.src(), it);
                }
                let ghost before = items@;
                items.push(it);
                proof {
                    assert forall|k: int| 0 <= k < items@.len() implies item_wf(#[trigger] items@[k], input.src())
                        && tree_ok(items@[k], input.src(), *delims, state.allow_block, state.allow_supercall) by {
                        if k < before.len() {
                            assert(items@[k] == before[k]);
                        }
                    }
                }
                pos = rest;
            },
            Err(e) => {
                return Err(e);
            },
        }
    }
    Err(ErrMode::Incomplete(Diagnostic::new("unexpected end of input").span(pos)))
}

/// What `term` names, at the start of `input`.
fn terminator<'s>(input: Located<'s>, delims: &Delims, term: Term) -> (r: Result<(Located<'s>, Closing<'s>), ErrMode>)
    requires
        input.hi() == input.src().len(),
        delims.usable(),
    ensures
        r matches Ok((rest, c)) ==> {
            &&& later(input, rest)
            &&& (term is End ==> c is End && input.lo() < rest.lo())
            &&& (term is Branch ==> c is Branch && input.lo() < rest.lo())
            &&& (term is Arm ==> c is Arm && rest.lo() == input.lo())
            &&& (c matches Closing::Branch(b) ==> branch_wf(b, input.src()))
        },
        agrees(r, term_step(input.src(), input.lo(), input.hi(), *delims, term), input),
        r matches Ok((rest, Closing::Branch(b))) ==> branch_ok(b, input.src(), *delims),
    decreases input.hi() - input.lo(), 3int,
{
    proof { use_type_invariant(input); }
    match term {
        Term::End => match end_tag(input, delims) {
            Ok((rest, _)) => Ok((rest, Closing::End)),
            Err(e) => Err(e),
        },
        Term::Branch => match if_branch(input, delims) {
            Ok((rest, b)) => Ok((rest, Closing::Branch(b))),
            Err(e) => Err(e),
        },
        Term::Arm => match delimited(input, delims) {
            Ok((rest, inner, whole)) => {
                proof {
                    lemma_delimited_advances(input, rest, whole, delims);
                    lemma_sub(input, inner);
                }
                if keyword(inner, "when").is_some() || is_word(inner, "end") {
                    Ok((input, Closing::Arm))
                } else {
                    Err(backtrack(input, "expected when or end"))
                }
            },
            Err(e) => Err(e),
        },
    }
}

/// What follows the body of an `if` at the start of `input`: `else if`
/// with its body and branch, `else` with its body, or `end`.
fn if_branch<'s>(input: Located<'s>, delims: &Delims) -> (r: Result<(Located<'s>, IfBranch<'s>), ErrMode>)
    requires
        input.hi() == input.src().len(),
        delims.usable(),
    ensures
        r matches Ok((rest, b)) ==> later(input, rest) && input.lo() < rest.lo() && branch_wf(b, input.src()),
        r matches Ok((rest, b)) ==> branch_dispatched(b, tag_text(input.view_chars(), *delims)),
        agrees(r, branch_step(input.src(), input.lo(), input.hi(), *delims), input),
        r matches Ok((rest, b)) ==> branch_ok(b, input.src(), *delims) && branch_span(b).lo() == input.lo(),
    decreases input.hi() - input.lo(), 2int,
{
    proof { use_type_invariant(input); }
    let (rest, inner, whole) = match delimited(input, delims) {
        Ok(t) => t,
        Err(e) => return Err(e),
    };
    proof { lemma_delimited_advances(input, rest, whole, delims); }
    let untrimmed = inner;
    let inner = trim_end(inner);
    proof {
        use_type_invariant(untrimmed);
        let v = input.view_chars();
        if let Some((p, c, e)) = delimited_parts(v, delims.open_view(), delims.close_view()) {
            let te = trimmed_end(untrimmed.view_chars(), untrimmed.hi() - untrimmed.lo());
            assert(untrimmed.view_chars() =~= v.subrange(p, c));
            assert(inner.view_chars() =~= v.subrange(p, p + te));
            assert(inner.view_chars() == tag_text(v, *delims));
        }
    }
    if let Some(a) = keyword(inner, "else") {
        proof {
            use_type_invariant(a);
            assert(a.view_chars() =~= after_kw(inner.view_chars(), "else"@));
        }
        if let Some(c) = keyword(a, "if") {
            proof {
                use_type_invariant(c);
                assert(c.view_chars() =~= after_kw(a.view_chars(), "if"@));
            }
            if let Err(d) = host_check(c, HostKind::Expr) {
                return Err(ErrMode::Cut(d));
            }
            return match items_till(rest, delims, inner_state(), Term::Branch) {
                Ok((after, content, body, Closing::Branch(b))) => {
                    let span = input.slice(0, after.offset() - input.offset());
                    Ok((after, IfBranch::ElseIf { span, cond: c, body, content, branch: Box::new(b) }))
                },
                Ok(_) => Err(cut(whole, "expected closing {% end %} expression")),
                Err(e) => Err(expect_end(whole, e)),
            };
        }
    }
    if is_word(inner, "else") {
        return match items_till(rest, delims, inner_state(), Term::End) {
            Ok((after, content, body, _)) => {
                let span = input.slice(0, after.offset() - input.offset());
                Ok((after, IfBranch::Else { span, body, content }))
            },
            Err(e) => Err(expect_end(whole, e)),
        };
    }
    if is_word(inner, "end") {
        return Ok((rest, IfBranch::End { span: whole }));
    }
    Err(backtrack(input, "expected else or end"))
}

/// One item at the start of `input`: a run of content, or a construct.
/// Where `input` holds no opening delimiter, it is all one run of content.
#[verifier::rlimit(100)]
fn item<'s>(input: Located<'s>, delims: &Delims, state: State) -> (r: Result<(Located<'s>, Item<'s>), ErrMode>)
    requires
        input.hi() == input.src().len(),
        delims.usable(),
    ensures
        r matches Ok((rest, it)) ==> advanced(input, rest, it.span_of()) && item_wf(it, input.src()) && host_checked(it),
        r matches Ok((rest, it)) && it is Block ==> state.allow_block,
        r matches Ok((rest, it)) && is_extends(it) ==> state.allow_extend,
        r matches Ok((rest, it)) && is_super_call(it) ==> state.allow_supercall,
        r matches Ok((rest, it)) ==> dispatched(it, tag_text(input.view_chars(), *delims), state),
        r matches Ok((rest, it)) ==> parts_of(it, tag_text(input.view_chars(), *delims)),
        agrees(r, item_step(input.src(), input.lo(), input.hi(), *delims, state), input),
        r matches Ok((rest, it)) ==> tree_ok(it, input.src(), *delims, state.allow_block, state.allow_supercall),
        occurs_at(input.view_chars(), delims.open_view(), 0) ==> !(r matches Ok((_, Item::Content(_)))),
        (occurs_at(input.view_chars(), delims.open_view(), 0)
            && delimited_parts(input.view_chars(), delims.open_view(), delims.close_view()) is Some
            && has_kw(tag_text(input.view_chars(), *delims), "block"@) && !state.allow_block) ==> (r matches Err(e)
            && e is Cut && e.error().message@ == "block is not allowed here"@
            && marks_range(e.error(), input.src(), input.lo(), input.lo() + tag_end(input.view_chars(), *delims))),
        input.hi() == input.src().len() ==> (r matches Ok((rest, it)) ==> framed(it, input.src(), *delims)),
        r matches Ok((rest, Item::Expr(x))) ==> (x.expr matches Expr::Extends(v)
            ==> v@ == literal_value(after_kw(tag_text(input.view_chars(), *delims), "extends"@), 1)),
        !occurs_at(input.view_chars(), delims.open_view(), 0) ==> (r matches Ok((rest, it)) ==> it is Content
            && content_end(input.view_chars(), delims.open_view(), rest.lo() - input.lo())),
    decreases input.hi() - input.lo(), 2int,
{
    proof { use_type_invariant(input); }
    if !matches_at(input, delims.open_chars(), 0) {
        return item_content(input, delims);
    }
    let (rest, inner, whole) = match delimited(input, delims) {
        Ok(t) => t,
        Err(e) => return Err(e),
    };
    proof { lemma_delimited_advances(input, rest, whole, delims); }
    let untrimmed = inner;
    let inner = trim_end(inner);
    proof {
        use_type_invariant(untrimmed);
        let v = input.view_chars();
        if let Some((p, c, e)) = delimited_parts(v, delims.open_view(), delims.close_view()) {
            let te = trimmed_end(untrimmed.view_chars(), untrimmed.hi() - untrimmed.lo());
            assert(untrimmed.view_chars() =~= v.subrange(p, c));
            assert(inner.view_chars() =~= v.subrange(p, p + te));
            assert(inner.view_chars() == tag_text(v, *delims));
        }
    }
    if let Some(a) = keyword(inner, "block") {
        proof {
            use_type_invariant(a);
            assert(a.view_chars() =~= after_kw(inner.view_chars(), "block"@));
        }
        if !state.allow_block {
            return Err(cut(whole, "block is not allowed here"));
        }
        return item_block(input, rest, whole, a, delims);
    }
    if let Some(a) = keyword(inner, "for") {
        proof {
            use_type_invariant(a);
            assert(a.view_chars() =~= after_kw(inner.view_chars(), "for"@));
        }
        return item_for(input, rest, whole, a, delims);
    }
    if let Some(a) = keyword(inner, "if") {
        proof {
            use_type_invariant(a);
            assert(a.view_chars() =~= after_kw(inner.view_chars(), "if"@));
        }
        return item_if(input, rest, whole, a, delims);
    }
    if let Some(a) = keyword(inner, "match") {
        proof {
            use_type_invariant(a);
            assert(a.view_chars() =~= after_kw(inner.view_chars(), "match"@));
        }
        return item_match(input, rest, whole, a, delims);
    }
    if let Some(a) = keyword(inner, "macro") {
        proof {
            use_type_invariant(a);
            assert(a.view_chars() =~= after_kw(inner.view_chars(), "macro"@));
        }
        return item_macro(input, rest, whole, a, delims);
    }
    match single_tag(inner, whole, state) {
        Ok(e) => Ok((rest, Item::Expr(ItemExpr { span: whole, expr: e }))),
        Err(e) => Err(e),
    }
}

/// `block name` whose tag is `whole` and whose text after the keyword is
/// `a`, then its body up to `end`.
fn item_block<'s>(input: Located<'s>, rest: Located<'s>, whole: Located<'s>, a: Located<'s>, delims: &Delims) -> (r: Result<(Located<'s>, Item<'s>), ErrMode>)
    requires
        input.hi() == input.src().len(),
        delims.usable(),
        advanced(input, rest, whole),
    ensures
        agrees(r, block_branch(a.view_chars(), input.src(), input.lo(), input.hi(), *delims, rest.lo() - input.lo()), input),
        ({
            let av = a.view_chars();
            (!(av.len() > 0 && ident_start(av[0]))
                || trimmed_end(av.subrange(ident_run(av, 0), av.len() as int), av.len() - ident_run(av, 0)) != 0)
                ==> (r matches Err(e) && e is Cut && e.error().message@ == "unable to parse block expression"@
                    && marks(e.error(), whole))
        }),
        r matches Ok((after, Item::Block(b))) ==> body_ok(b.content@, input.src(), *delims, true, true),
        r matches Ok((after, Item::Block(b))) ==> b.body.lo() == rest.lo()
            && end_step(input.src(), b.body.hi(), input.hi(), *delims) == Step::Done(b.span.hi()),
        r matches Ok((after, Item::Block(b))) ==> {
            let s = a.view_chars();
            s.len() > 0 && ident_start(s[0]) && b.name.view_chars() == s.subrange(0, ident_run(s, 0))
        },
        r matches Ok((after, it)) ==> advanced(input, after, it.span_of()) && it is Block
            && item_wf(it, input.src()) && host_checked(it),
    decreases input.hi() - input.lo(), 1int,
{
    proof { use_type_invariant(input); use_type_invariant(rest); }
    let (after_name, name) = match ident(a) {
        Ok(t) => t,
        Err(_) => return Err(cut(whole, "unable to parse block expression")),
    };
    proof {
        use_type_invariant(a);
        crate::scan::lemma_ident_run(a.view_chars(), 0);
        assert(name.view_chars() =~= a.view_chars().subrange(0, ident_run(a.view_chars(), 0)));
    }
    proof { use_type_invariant(after_name); lemma_sub(a, after_name); }
    if trim_end(after_name).len() != 0 {
        return Err(cut(whole, "unable to parse block expression"));
    }
    let state = State { allow_block: true, allow_extend: false, allow_supercall: true };
    match items_till(rest, delims, state, Term::End) {
        Ok((after, content, body, _)) => {
            let span = input.slice(0, after.offset() - input.offset());
            Ok((after, Item::Block(ItemBlock { span, name, body, content })))
        },
        Err(e) => Err(expect_end(whole, e)),
    }
}

/// `for pattern in expression` whose tag is `whole`, then its body up to `end`.
fn item_for<'s>(input: Located<'s>, rest: Located<'s>, whole: Located<'s>, a: Located<'s>, delims: &Delims) -> (r: Result<(Located<'s>, Item<'s>), ErrMode>)
    requires
        input.hi() == input.src().len(),
        delims.usable(),
        advanced(input, rest, whole),
    ensures
        agrees(r, for_branch(a.view_chars(), input.src(), input.lo(), input.hi(), *delims, rest.lo() - input.lo()), input),
        unquoted_sep(a.view_chars(), "in"@, 0) is None ==> (r matches Err(e) && e is Cut
            && e.error().message@ == "expected `in` in for expression"@ && marks(e.error(), whole)),
        r matches Ok((after, Item::For(b))) ==> body_ok(b.content@, input.src(), *delims, false, false),
        r matches Ok((after, Item::For(b))) ==> b.body.lo() == rest.lo()
            && end_step(input.src(), b.body.hi(), input.hi(), *delims) == Step::Done(b.span.hi()),
        r matches Ok((after, Item::For(f))) ==> {
            let s = a.view_chars();
            unquoted_sep(s, "in"@, 0) matches Some(j) && f.pat.view_chars() == s.subrange(0, j)
                && f.expr.view_chars() == s.subrange(j + 4, s.len() as int)
        },
        r matches Ok((after, it)) ==> advanced(input, after, it.span_of()) && it is For
            && item_wf(it, input.src()) && host_checked(it),
    decreases input.hi() - input.lo(), 1int,
{
    proof { use_type_invariant(input); use_type_invariant(rest); use_type_invariant(a); }
    let sep = chars_of("in");
    proof { reveal_strlit("in"); }
    let (pat, expr) = match find_unquoted_sep(a, sep.as_slice(), 0) {
        Some(j) => {
            proof { crate::scan::lemma_unquoted_sep(a.view_chars(), sep@, 0); }
            let p = a.slice(0, j);
            let x = a.slice(j + sep.len() + 2, a.len());
            proof {
                assert(p.view_chars() =~= a.view_chars().subrange(0, j as int));
                assert(x.view_chars() =~= a.view_chars().subrange(j + 4, a.view_chars().len() as int));
            }
            (p, x)
        },
        None => return Err(cut(whole, "expected `in` in for expression")),
    };
    if let Err(d) = host_check(pat, HostKind::PatSingle) {
        return Err(ErrMode::Cut(d));
    }
    if let Err(d) = host_check(expr, HostKind::Expr) {
        return Err(ErrMode::Cut(d));
    }
    match items_till(rest, delims, inner_state(), Term::End) {
        Ok((after, content, body, _)) => {
            let span = input.slice(0, after.offset() - input.offset());
            Ok((after, Item::For(ItemFor { span, pat, expr, body, content })))
        },
        Err(e) => Err(expect_end(whole, e)),
    }
}

/// `if condition` whose tag is `whole`, then its body and branch.
#[verifier::rlimit(100)]
fn item_if<'s>(input: Located<'s>, rest: Located<'s>, whole: Located<'s>, a: Located<'s>, delims: &Delims) -> (r: Result<(Located<'s>, Item<'s>), ErrMode>)
    requires
        input.hi() == input.src().len(),
        delims.usable(),
        advanced(input, rest, whole),
    ensures
        agrees(r, if host_expr(a.view_chars()) {
            body_step(input.src(), input.lo(), input.hi(), *delims, rest.lo() - input.lo(), plain_state(), Term::Branch)
        } else {
            Step::Cut
        }, input),
        r matches Ok((after, Item::If(x))) ==> x.cond.view_chars() == a.view_chars(),
        r matches Ok((after, Item::If(b))) ==> body_ok(b.content@, input.src(), *delims, false, false)
            && branch_ok(b.branch, input.src(), *delims),
        r matches Ok((after, Item::If(b))) ==> b.body.lo() == rest.lo()
            && branch_step(input.src(), b.body.hi(), input.hi(), *delims) == Step::Done(b.span.hi()),
        r matches Ok((after, it)) ==> advanced(input, after, it.span_of()) && it is If
            && item_wf(it, input.src()) && host_checked(it),
    decreases input.hi() - input.lo(), 1int,
{
    proof { use_type_invariant(input); use_type_invariant(rest); }
    if let Err(d) = host_check(a, HostKind::Expr) {
        return Err(ErrMode::Cut(d));
    }
    match items_till(rest, delims, inner_state(), Term::Branch) {
        Ok((after, content, body, Closing::Branch(branch))) => {
            let span = input.slice(0, after.offset() - input.offset());
            Ok((after, Item::If(ItemIf { span, cond: a, body, content, branch })))
        },
        Ok(_) => Err(cut(whole, "expected closing {% end %} expression")),
        Err(e) => Err(expect_end(whole, e)),
    }
}

/// `macro name(parameters)` whose tag is `whole`, then its body up to `end`.
fn item_macro<'s>(input: Located<'s>, rest: Located<'s>, whole: Located<'s>, a: Located<'s>, delims: &Delims) -> (r: Result<(Located<'s>, Item<'s>), ErrMode>)
    requires
        input.hi() == input.src().len(),
        delims.usable(),
        advanced(input, rest, whole),
    ensures
        agrees(r, match paren_parts(a.view_chars()) {
            Some((_, args)) => if host_params(args) {
                body_step(input.src(), input.lo(), input.hi(), *delims, rest.lo() - input.lo(), plain_state(), Term::End)
            } else {
                Step::Cut
            },
            None => Step::Cut,
        }, input),
        paren_parts(a.view_chars()) is None ==> (r matches Err(e) && e is Cut
            && e.error().message@ == "unable to parse macro expression"@ && marks(e.error(), whole)),
        r matches Ok((after, Item::Macro(b))) ==> body_ok(b.content@, input.src(), *delims, false, false),
        r matches Ok((after, Item::Macro(b))) ==> b.body.lo() == rest.lo()
            && end_step(input.src(), b.body.hi(), input.hi(), *delims) == Step::Done(b.span.hi()),
        r matches Ok((after, it)) ==> advanced(input, after, it.span_of()) && it is Macro
            && item_wf(it, input.src()) && host_checked(it),
    decreases input.hi() - input.lo(), 1int,
{
    proof { use_type_invariant(input); use_type_invariant(rest); }
    let (name, args) = match name_and_parens(a) {
        Some(t) => t,
        None => return Err(cut(whole, "unable to parse macro expression")),
    };
    if let Err(d) = host_check(args, HostKind::Params) {
        return Err(ErrMode::Cut(d));
    }
    match items_till(rest, delims, inner_state(), Term::End) {
        Ok((after, content, body, _)) => {
            let span = input.slice(0, after.offset() - input.offset());
            Ok((after, Item::Macro(ItemMacro { span, name, args, body, content })))
        },
        Err(e) => Err(expect_end(whole, e)),
    }
}

/// `match expression` whose tag is `whole`, then blanks, then `when` arms,
/// each with its body up to the next arm or `end`, then `end`.
#[verifier::rlimit(80)]
fn item_match<'s>(input: Located<'s>, rest: Located<'s>, whole: Located<'s>, a: Located<'s>, delims: &Delims) -> (r: Result<(Located<'s>, Item<'s>), ErrMode>)
    requires
        input.hi() == input.src().len(),
        delims.usable(),
        advanced(input, rest, whole),
    ensures
        agrees(r, match_branch(a.view_chars(), input.src(), input.lo(), input.hi(), *delims, rest.lo() - input.lo()), input),
        r matches Ok((after, Item::Match(m))) ==> m.expr.view_chars() == a.view_chars(),
        r matches Ok((after, Item::Match(m))) ==> arms_ok(m.arms@, input.src(), *delims),
        r matches Ok((after, it)) ==> advanced(input, after, it.span_of()) && it is Match
            && item_wf(it, input.src()) && host_checked(it),
    decreases input.hi() - input.lo(), 1int,
{
    proof { use_type_invariant(input); use_type_invariant(rest); }
    if let Err(d) = host_check(a, HostKind::Expr) {
        return Err(ErrMode::Cut(d));
    }
    let (mut pos, _) = multispace0(rest);
    proof {
        use_type_invariant(pos);
        crate::scan::lemma_blank_run(rest.view_chars(), 0, true);
        assert(rest.view_chars() =~= input.src().subrange(rest.lo(), input.hi()));
        assert(input.lo() < pos.lo() <= input.hi());
        assert(match_branch(a.view_chars(), input.src(), input.lo(), input.hi(), *delims, rest.lo() - input.lo())
            == arms_step(input.src(), pos.lo(), pos.hi(), *delims, input.lo(), rest.lo()));
    }
    let mut arms: Vec<MatchArm<'s>> = Vec::new();
    let sep = chars_of("if");
    while pos.len() > 0
        invariant
            delims.usable(),
            advanced(input, rest, whole),
            input.inv(),
            pos.inv(),
            later(rest, pos),
            arms_wf(arms@, input.src()),
            host_expr(a.view_chars()),
            forall|k: int| 0 <= k < arms@.len() ==> host_pat_multi(#[trigger] arms@[k].pat.view_chars()),
            match_branch(a.view_chars(), input.src(), input.lo(), input.hi(), *delims, rest.lo() - input.lo())
                == arms_step(input.src(), pos.lo(), pos.hi(), *delims, input.lo(), rest.lo()),
            sep@ == "if"@,
            input.hi() == input.src().len(),
            arms_ok(arms@, input.src(), *delims),
        decreases pos.hi() - pos.lo(),
    {
        let et = end_tag(pos, delims);
        if let Ok((after, _)) = et {
            proof {
                assert(end_step(input.src(), pos.lo(), pos.hi(), *delims) == Step::Done(after.lo()));
                assert(arms_step(input.src(), pos.lo(), pos.hi(), *delims, input.lo(), rest.lo()) == Step::Done(after.lo()));
            }
            let span = input.slice(0, after.offset() - input.offset());
            return Ok((after, Item::Match(ItemMatch { span, expr: a, arms })));
        }
        let (arest, ainner, atag) = match delimited(pos, delims) {
            Ok(t) => t,
            Err(e) => return Err(expect_end(whole, e)),
        };
        proof { lemma_delimited_advances(pos, arest, atag, delims); }
        let untrimmed = ainner;
        let ainner = trim_end(ainner);
        proof {
            use_type_invariant(untrimmed);
            let v = pos.view_chars();
            if let Some((p, c, e)) = delimited_parts(v, delims.open_view(), delims.close_view()) {
                let te = trimmed_end(untrimmed.view_chars(), untrimmed.hi() - untrimmed.lo());
                assert(untrimmed.view_chars() =~= v.subrange(p, c));
                assert(ainner.view_chars() =~= v.subrange(p, p + te));
                assert(ainner.view_chars() == tag_text(v, *delims));
            }
        }
        let head = match keyword(ainner, "when") {
            Some(h) => h,
            None => return Err(expect_end(whole, backtrack(pos, "expected when"))),
        };
        proof {
            use_type_invariant(head);
            use_type_invariant(ainner);
            lemma_sub(ainner, head);
            reveal_strlit("if");
        }
        let (pat, guard) = match find_unquoted_sep(head, sep.as_slice(), 0) {
            Some(j) => {
                proof { crate::scan::lemma_unquoted_sep(head.view_chars(), sep@, 0); }
                let p = head.slice(0, j);
                let g = head.slice(j + sep.len() + 2, head.len());
                proof { lemma_sub(head, p); lemma_sub(head, g); }
                (p, Some(g))
            },
            None => (head, None),
        };
        proof {
            let hv = head.view_chars();
            assert(match unquoted_sep(hv, "if"@, 0) {
                Some(j) => pat.view_chars() == hv.subrange(0, j)
                    && (guard matches Some(g) && g.view_chars() == hv.subrange(j + 4, hv.len() as int)),
                None => pat.view_chars() == hv && guard is None,
            });
        }
        let ghost t = pos.view_chars();
        let ghost e0 = arest.lo() - pos.lo();
        proof {
            assert(sep@ == "if"@);
            assert(head.view_chars() == after_kw(tag_text(t, *delims), "when"@));
            assert(!(end_step(input.src(), pos.lo(), pos.hi(), *delims) is Done));
            assert(delimited_parts(t, delims.open_view(), delims.close_view()) matches Some((p, c, e)) && e == e0);
        }
        if let Err(d) = host_check(pat, HostKind::PatMulti) {
            return Err(ErrMode::Cut(d));
        }
        if let Some(g) = guard {
            if let Err(d) = host_check(g, HostKind::Expr) {
                return Err(ErrMode::Cut(d));
            }
        }
        let st = inner_state();
        proof { assert(st == plain_state()); }
        match items_till(arest, delims, st, Term::Arm) {
            Ok((after, content, body, _)) => {
                proof {
                    assert(items_till_step(input.src(), pos.lo() + e0, input.hi(), *delims, plain_state(), Term::Arm)
                        == Step::Done(after.lo()));
                    assert(arms_step(input.src(), pos.lo(), pos.hi(), *delims, input.lo(), rest.lo())
                        == arms_step(input.src(), after.lo(), after.hi(), *delims, input.lo(), rest.lo()));
                }
                proof { use_type_invariant(after); }
                proof {
                    assert(arest.src() == input.src());
                    assert(body_wf(content@, body, input.src()));
                }
                let ghost before = arms@;
                let arm = MatchArm { span: atag, pat, guard, body, content };
                let ghost arm_g = arm;
                proof {
                    assert(body_wf(arm_g.content@, arm_g.body, input.src()));
                    assert(pos.view_chars() == input.src().subrange(pos.lo(), input.src().len() as int));
                    assert(arm_parts(arm_g, input.src(), *delims));
                }
                arms.push(arm);
                proof {
                    assert(arms@ == before.push(arm_g));
                    assert forall|k: int| 0 <= k < arms@.len() implies body_wf(#[trigger] arms@[k].content@, arms@[k].body, input.src()) by {
                        if k < before.len() {
                            assert(arms@[k] == before[k]);
                            assert(arms_wf(before, input.src()));
                            assert(body_wf(before[k].content@, before[k].body, input.src()));
                        } else {
                            assert(arms@[k] == arm_g);
                        }
                    }
                    assert forall|k: int| 0 <= k < arms@.len() implies arm_parts(#[trigger] arms@[k], input.src(), *delims)
                        && body_ok(arms@[k].content@, input.src(), *delims, false, false) by {
                        if k < before.len() {
                            assert(arms@[k] == before[k]);
                        } else {
                            assert(arms@[k] == arm_g);
                        }
                    }
                    assert forall|k: int| 0 <= k < arms@.len() implies host_pat_multi(#[trigger] arms@[k].pat.view_chars()) by {
                        if k < before.len() {
                            assert(arms@[k] == before[k]);
                        }
                    }
                }
                pos = after;
            },
            Err(e) => return Err(expect_end(atag, e)),
        }
    }
    Err(expect_end(whole, ErrMode::Incomplete(Diagnostic::new("unexpected end of input").span(pos))))
}

proof fn lemma_occurs_shift(s: Seq<char>, a: int, pat: Seq<char>)
    requires
        0 <= a <= s.len(),
        occurs_at(s.subrange(a, s.len() as int), pat, 0),
    ensures
        occurs_at(s, pat, a),
{
    assert(s.subrange(a, s.len() as int).subrange(0, pat.len() as int) =~= s.subrange(a, a + pat.len()));
}

/// Parse the template `text` with delimiters `delims`.
///
/// It succeeds exactly on well-formed templates (`well_formed`), and a body
/// that is never closed fails with a diagnostic at the tag that opened it;
/// a tag that never closes is an error, not text. The items tile the window
/// they cover, which runs to the end of the text and starts at its
/// beginning, or at an `extends` that follows leading blanks; only the first
/// item may be an `extends`. A text without any opening delimiter is one run
/// of content.
pub fn parse_template<'i>(text: &'i [char], delims: &Delims) -> (r: Result<Root<'i>, Diagnostic>)
    requires
        text@.len() <= MAX_CHARS,
        delims.usable(),
    ensures
        r matches Ok(root) ==> {
            &&& root.span.src() == text@ && root.span.hi() == text@.len()
            &&& body_wf(root.content@, root.span, text@)
            &&& forall|i: int| 0 <= i < root.content@.len() ==> host_checked(#[trigger] root.content@[i])
            &&& forall|i: int| 1 <= i < root.content@.len() ==> !is_extends(#[trigger] root.content@[i])
        },
        (text@.len() > 0 && absent_between(text@, delims.open_view(), 0, text@.len() as int + 1)) ==> (r matches Ok(root)
            && root.content@.len() == 1 && root.content@[0] is Content
            && root.content@[0].span_of().view_chars() == text@),
        r is Ok <==> well_formed(text@, *delims),
        r matches Ok(root) ==> root.span.lo() == root_start(text@, *delims),
        r matches Ok(root) ==> root_parent(root) == template_parent(text@, *delims),
        r matches Ok(root) ==> forall|i: int| 0 <= i < root.content@.len() ==> framed(#[trigger] root.content@[i], text@, *delims),
        r matches Ok(root) ==> forall|i: int| 0 <= i < root.content@.len() ==> !is_super_call(#[trigger] root.content@[i]),
        r matches Ok(root) ==> body_ok(root.content@, text@, *delims, true, false),
        r matches Ok(root) ==> parsed_as(root, text@, *delims),
        template_step(text@, *delims) matches Step::Unclosed(a, b) ==> (r matches Err(e)
            && e.message@ == "expected closing {% end %} expression"@ && e.label_text@ == "opening block expression"@
            && marks_range(e, text@, a, b)),
{
    let input = Located::new(text);
    proof { use_type_invariant(input); assert(input.view_chars() =~= text@); }
    let ghost no_open = text@.len() > 0 && absent_between(text@, delims.open_view(), 0, text@.len() as int + 1);
    let (lead, _) = multispace0(input);
    proof {
        use_type_invariant(lead);
        crate::scan::lemma_blank_run(text@, 0, true);
        assert(lead.view_chars() =~= text@.subrange(lead.lo(), text@.len() as int));
    }
    let mut items: Vec<Item<'i>> = Vec::new();
    let mut start = input;
    let mut pos = input;
    if opens_extends(lead, delims) {
        proof {
            if no_open {
                lemma_occurs_shift(text@, lead.lo(), delims.open_view());
            }
        }
        let root_state = State::root();
        proof { assert(root_state == State { allow_block: true, allow_extend: true, allow_supercall: false }); }
        match item(lead, delims, root_state) {
            Ok((rest, it)) => {
                proof {
                    use_type_invariant(rest);
                    let t = lead.view_chars();
                    let tt = tag_text(t, *delims);
                    assert(t == text@.subrange(blank_run(text@, 0, true), text@.len() as int));
                    if !body_keyword(tt) && has_kw(tt, "extends"@) {
                        assert(it is Expr);
                        assert(items_parent(seq![it]) == template_parent(text@, *delims));
                    } else {
                        assert(items_parent(seq![it]) is None);
                    }
                }
                items.push(it);
                proof { assert(items@ =~= seq![it]); }
                start = lead;
                pos = rest;
            },
            Err(e) => return Err(e.into_inner()),
        }
    }
    proof { use_type_invariant(pos); use_type_invariant(start); }
    let state = State { allow_block: true, allow_extend: false, allow_supercall: false };
    while pos.len() > 0
        invariant
            delims.usable(),
            !state.allow_extend,
            start.inv(),
            pos.inv(),
            start.src() == text@ && start.hi() == text@.len(),
            later(start, pos),
            tiles(items@, start.lo(), pos.lo(), text@),
            forall|k: int| 0 <= k < items@.len() ==> item_wf(#[trigger] items@[k], text@),
            forall|k: int| 0 <= k < items@.len() ==> host_checked(#[trigger] items@[k]),
            forall|i: int| 1 <= i < items@.len() ==> !is_extends(#[trigger] items@[i]),
            no_open == (text@.len() > 0 && absent_between(text@, delims.open_view(), 0, text@.len() as int + 1)),
            no_open ==> start.lo() == 0 && ((items@.len() == 0 && pos.lo() == 0)
                || (items@.len() == 1 && items@[0] is Content && pos.lo() == text@.len())),
            state == root_body_state(),
            template_step(text@, *delims) == root_loop(text@, pos.lo(), pos.hi(), *delims),
            items@.len() > 0 ==> items_parent(items@) == template_parent(text@, *delims),
            forall|k: int| 0 <= k < items@.len() ==> framed(#[trigger] items@[k], text@, *delims),
            forall|k: int| 0 <= k < items@.len() ==> !is_super_call(#[trigger] items@[k]),
            forall|k: int| 0 <= k < items@.len() ==> tree_ok(#[trigger] items@[k], text@, *delims, true, false),
            items@.len() == 0 ==> template_parent(text@, *delims) is None,
            start.lo() == root_start(text@, *delims),
        decreases pos.hi() - pos.lo(),
    {
        proof {
            if no_open {
                assert(pos.view_chars() =~= text@);
            }
        }
        match item(pos, delims, state) {
            Ok((rest, it)) => {
                proof {
                    use_type_invariant(rest);
                    lemma_tiles_push(items@, start.lo(), pos.lo(), text@, it);
                }
                let ghost before = items@;
                items.push(it);
                proof {
                    assert forall|k: int| 0 <= k < items@.len() implies item_wf(#[trigger] items@[k], text@)
                        && host_checked(items@[k]) by {
                        if k < before.len() {
                            assert(items@[k] == before[k]);
                        }
                    }
                }
                pos = rest;
            },
            Err(ErrMode::Backtrack(e)) => {
                if matches_at(pos, delims.open_chars(), 0) {
                    return Err(e);
                }
                let it = Item::Content(pos);
                proof {
                    lemma_tiles_push(items@, start.lo(), pos.lo(), text@, it);
                    let v = pos.view_chars();
                    lemma_next_open_bounds(v, delims.open_view(), 1);
                    assert(absent_between(v, delims.open_view(), 1, v.len() as int));
                    assert(v.subrange(0, v.len() as int) =~= v);
                    assert(tree_ok(it, text@, *delims, true, false));
                }
                let ghost before = items@;
                items.push(it);
                proof {
                    assert forall|k: int| 0 <= k < items@.len() implies item_wf(#[trigger] items@[k], text@)
                        && host_checked(items@[k]) by {
                        if k < before.len() {
                            assert(items@[k] == before[k]);
                        }
                    }
                    assert forall|k: int| 0 <= k < items@.len() implies framed(#[trigger] items@[k], text@, *delims)
                        && !is_super_call(items@[k]) && tree_ok(items@[k], text@, *delims, true, false) by {
                        if k < before.len() {
                            assert(items@[k] == before[k]);
                        }
                    }
                    assert forall|i: int| 1 <= i < items@.len() implies !is_extends(#[trigger] items@[i]) by {
                        if i < before.len() {
                            assert(items@[i] == before[i]);
                        }
                    }
                    if before.len() > 0 {
                        assert(items@[0] == before[0]);
                    }
                }
                pos = pos.slice(pos.len(), pos.len());
            },
            Err(e) => return Err(e.into_inner()),
        }
    }
    proof {
        if no_open {
            assert(items@[0].span_of().lo() == 0);
            assert(items@[0].span_of().view_chars() =~= text@);
        }
    }
    Ok(Root { span: start, content: items })
}

} // verus!
