use vstd::prelude::*;
use crate::error::{marks_range, ErrMode, Diagnostic};
use crate::located::Located;
use crate::state::Delims;

verus! {

/// `pat` occurs in `s` at position `i`.
pub open spec fn occurs_at(s: Seq<char>, pat: Seq<char>, i: int) -> bool {
    0 <= i && i + pat.len() <= s.len() && s.subrange(i, i + pat.len()) == pat
}

/// No occurrence of `pat` in `s` starts in `[a, b)`.
pub open spec fn absent_between(s: Seq<char>, pat: Seq<char>, a: int, b: int) -> bool {
    forall|j: int| a <= j < b ==> !occurs_at(s, pat, j)
}

/// `c` is a blank: space or tab, and also line breaks where `newlines`.
pub open spec fn is_blank(c: char, newlines: bool) -> bool {
    c == ' ' || c == '\t' || (newlines && (c == '\n' || c == '\r'))
}

/// The end of the run of blanks of `s` that starts at `i`.
pub open spec fn blank_run(s: Seq<char>, i: int, newlines: bool) -> int
    decreases s.len() - i,
{
    if 0 <= i < s.len() && is_blank(s[i], newlines) {
        blank_run(s, i + 1, newlines)
    } else {
        i
    }
}

/// `c` may start an identifier.
pub open spec fn ident_start(c: char) -> bool {
    ('a' <= c <= 'z') || ('A' <= c <= 'Z') || c == '_'
}

/// `c` may continue an identifier.
pub open spec fn ident_char(c: char) -> bool {
    ident_start(c) || ('0' <= c <= '9')
}

/// The end of the run of identifier characters of `s` that starts at `i`.
pub open spec fn ident_run(s: Seq<char>, i: int) -> int
    decreases s.len() - i,
{
    if 0 <= i < s.len() && ident_char(s[i]) {
        ident_run(s, i + 1)
    } else {
        i
    }
}

/// The end of the run of `#` of `s` that starts at `j`.
pub open spec fn hash_run(s: Seq<char>, j: int) -> int
    decreases s.len() - j,
{
    if 0 <= j < s.len() && s[j] == '#' {
        hash_run(s, j + 1)
    } else {
        j
    }
}

/// A quoted string starts at `i`: `"`, or a raw string `r`, some `#`, `"`.
pub open spec fn starts_string(s: Seq<char>, i: int) -> bool {
    0 <= i < s.len() && (s[i] == '"' || (s[i] == 'r' && hash_run(s, i + 1) < s.len()
        && s[hash_run(s, i + 1)] == '"'))
}

/// Position just past the `"` that closes a quoted string whose text starts
/// at `j`; a backslash escapes the character after it.
pub open spec fn quoted_end(s: Seq<char>, j: int) -> Option<int>
    decreases s.len() - j,
{
    if j < 0 || j >= s.len() {
        None
    } else if s[j] == '\\' {
        if j + 1 < s.len() {
            quoted_end(s, j + 2)
        } else {
            None
        }
    } else if s[j] == '"' {
        Some(j + 1)
    } else {
        quoted_end(s, j + 1)
    }
}

/// `n` characters `#` follow position `k` of `s`.
pub open spec fn hashes_follow(s: Seq<char>, k: int, n: int) -> bool {
    0 <= k && k + n <= s.len() && forall|t: int| k <= t < k + n ==> s[t] == '#'
}

/// Position just past the `"` and `n` `#` that close a raw string whose text
/// starts at `j`.
pub open spec fn raw_end(s: Seq<char>, j: int, n: int) -> Option<int>
    decreases s.len() - j,
{
    if j < 0 || j >= s.len() {
        None
    } else if s[j] == '"' && hashes_follow(s, j + 1, n) {
        Some(j + 1 + n)
    } else {
        raw_end(s, j + 1, n)
    }
}

/// Position just past the quoted string that starts at `i`, if it closes.
pub open spec fn string_end(s: Seq<char>, i: int) -> Option<int> {
    if 0 <= i < s.len() && s[i] == '"' {
        quoted_end(s, i + 1)
    } else if starts_string(s, i) {
        let h = hash_run(s, i + 1);
        raw_end(s, h + 1, h - (i + 1))
    } else {
        None
    }
}

/// Position of the first occurrence of `close` at or after `i` that lies
/// outside every quoted string.
pub open spec fn unquoted_close(s: Seq<char>, close: Seq<char>, i: int) -> Option<int>
    decreases s.len() - i,
{
    if i < 0 || i >= s.len() {
        None
    } else if occurs_at(s, close, i) {
        Some(i)
    } else if starts_string(s, i) {
        match string_end(s, i) {
            Some(e) => if i < e <= s.len() {
                unquoted_close(s, close, e)
            } else {
                None
            },
            None => None,
        }
    } else if char_literal_end(s, i) > i {
        unquoted_close(s, close, char_literal_end(s, i))
    } else {
        unquoted_close(s, close, i + 1)
    }
}

/// The word `w` stands at `j + 1` of `s` between two blanks (line breaks
/// count), the first at `j`.
pub open spec fn sep_at(s: Seq<char>, w: Seq<char>, j: int) -> bool {
    0 <= j && j + 1 + w.len() < s.len() && is_blank(s[j], true) && occurs_at(s, w, j + 1)
        && is_blank(s[j + 1 + w.len()], true)
}

/// The first blank at or after `i` that opens the word `w` followed by a
/// blank, outside every quoted string and character literal.
pub open spec fn unquoted_sep(s: Seq<char>, w: Seq<char>, i: int) -> Option<int>
    decreases s.len() - i,
{
    if i < 0 || i >= s.len() {
        None
    } else if sep_at(s, w, i) {
        Some(i)
    } else if starts_string(s, i) {
        match string_end(s, i) {
            Some(e) => if i < e <= s.len() {
                unquoted_sep(s, w, e)
            } else {
                None
            },
            None => None,
        }
    } else if char_literal_end(s, i) > i {
        unquoted_sep(s, w, char_literal_end(s, i))
    } else {
        unquoted_sep(s, w, i + 1)
    }
}

/// A separator found lies at or after where the search starts.
pub proof fn lemma_unquoted_sep(s: Seq<char>, w: Seq<char>, i: int)
    ensures
        unquoted_sep(s, w, i) matches Some(j) ==> i <= j && sep_at(s, w, j),
    decreases s.len() - i,
{
    if 0 <= i < s.len() && !sep_at(s, w, i) {
        if starts_string(s, i) {
            if let Some(e) = string_end(s, i) {
                if i < e <= s.len() {
                    lemma_unquoted_sep(s, w, e);
                }
            }
        } else if char_literal_end(s, i) > i {
            lemma_unquoted_sep(s, w, char_literal_end(s, i));
        } else {
            lemma_unquoted_sep(s, w, i + 1);
        }
    }
}

/// Position just past the character literal that starts at `i` (`'c'`, or
/// `'\c'` with a backslash), or `i` where none does.
pub open spec fn char_literal_end(s: Seq<char>, i: int) -> int {
    if 0 <= i && i + 2 < s.len() && s[i] == '\'' && s[i + 1] != '\\' && s[i + 2] == '\'' {
        i + 3
    } else if 0 <= i && i + 3 < s.len() && s[i] == '\'' && s[i + 1] == '\\' && s[i + 3] == '\'' {
        i + 4
    } else {
        i
    }
}

/// The windows that a successful `delimited` yields from `s`: the end of the
/// opening delimiter and blanks, the end of the content, the end of the
/// closing delimiter.
pub open spec fn delimited_parts(s: Seq<char>, open: Seq<char>, close: Seq<char>) -> Option<(int, int, int)> {
    let p = blank_run(s, open.len() as int, false);
    if occurs_at(s, open, 0) {
        match unquoted_close(s, close, p) {
            Some(c) => if c > p {
                Some((p, c, c + close.len()))
            } else {
                None
            },
            None => None,
        }
    } else {
        None
    }
}

/// The executable position `r` is the position `s`.
pub open spec fn same_pos(r: Option<usize>, s: Option<int>) -> bool {
    match r {
        Some(e) => s == Some(e as int),
        None => s is None,
    }
}

/// `rest` continues `input` at `at` characters into it.
pub open spec fn rest_at(input: Located, rest: Located, at: int) -> bool {
    rest.lo() == input.lo() + at && rest.hi() == input.hi() && rest.src() == input.src()
}

/// `w` is the window `[a, b)` of `input`, relative to it.
pub open spec fn window_at(input: Located, w: Located, a: int, b: int) -> bool {
    w.lo() == input.lo() + a && w.hi() == input.lo() + b && w.src() == input.src()
}

/// A backtracking failure marking the start of `input`.
pub open spec fn backtrack_here(r: ErrMode, input: Located) -> bool {
    r is Backtrack && marks_range(r.error(), input.src(), input.lo(), input.lo())
}

/// The end of a run of blanks lies between its start and the end of the text.
pub proof fn lemma_blank_run(s: Seq<char>, i: int, newlines: bool)
    requires
        0 <= i <= s.len(),
    ensures
        i <= blank_run(s, i, newlines) <= s.len(),
    decreases s.len() - i,
{
    if i < s.len() && is_blank(s[i], newlines) {
        lemma_blank_run(s, i + 1, newlines);
    }
}

/// The end of a run of identifier characters lies between its start and the
/// end of the text.
pub proof fn lemma_ident_run(s: Seq<char>, i: int)
    requires
        0 <= i <= s.len(),
    ensures
        i <= ident_run(s, i) <= s.len(),
    decreases s.len() - i,
{
    if i < s.len() && ident_char(s[i]) {
        lemma_ident_run(s, i + 1);
    }
}

proof fn lemma_hash_run(s: Seq<char>, j: int)
    requires
        0 <= j <= s.len(),
    ensures
        j <= hash_run(s, j) <= s.len(),
        forall|t: int| j <= t < hash_run(s, j) ==> s[t] == '#',
    decreases s.len() - j,
{
    if j < s.len() && s[j] == '#' {
        lemma_hash_run(s, j + 1);
    }
}

proof fn lemma_quoted_end(s: Seq<char>, j: int)
    ensures
        quoted_end(s, j) matches Some(e) ==> j < e <= s.len(),
    decreases s.len() - j,
{
    if 0 <= j < s.len() {
        if s[j] == '\\' {
            if j + 1 < s.len() {
                lemma_quoted_end(s, j + 2);
            }
        } else if s[j] != '"' {
            lemma_quoted_end(s, j + 1);
        }
    }
}

/// An unquoted closing delimiter lies at or after where the search starts,
/// and does occur there.
pub proof fn lemma_unquoted_close(s: Seq<char>, close: Seq<char>, i: int)
    ensures
        unquoted_close(s, close, i) matches Some(c) ==> i <= c && occurs_at(s, close, c),
    decreases s.len() - i,
{
    if 0 <= i < s.len() && !occurs_at(s, close, i) {
        if starts_string(s, i) {
            if let Some(e) = string_end(s, i) {
                if i < e <= s.len() {
                    lemma_unquoted_close(s, close, e);
                }
            }
        } else if char_literal_end(s, i) > i {
            lemma_unquoted_close(s, close, char_literal_end(s, i));
        } else {
            lemma_unquoted_close(s, close, i + 1);
        }
    }
}

/// A backtracking failure with message `msg` marking the start of `input`.
pub fn backtrack(input: Located, msg: &str) -> (r: ErrMode)
    ensures
        backtrack_here(r, input),
        r.error().message@ == msg@,
{
    ErrMode::Backtrack(Diagnostic::new(msg).span(input.here()))
}

/// Whether `pat` occurs at `i` in the window of `input`.
pub fn matches_at(input: Located, pat: &[char], i: usize) -> (r: bool)
    ensures
        r == occurs_at(input.view_chars(), pat@, i as int),
{
    proof { use_type_invariant(input); }
    let ghost v = input.view_chars();
    let n = input.len();
    if i > n || pat.len() > n - i {
        return false;
    }
    let mut j: usize = 0;
    while j < pat.len()
        invariant
            input.inv(),
            v == input.view_chars(),
            n == v.len(),
            j <= pat@.len(),
            i + pat@.len() <= n,
            forall|t: int| 0 <= t < j ==> v[i + t] == pat@[t],
        decreases pat@.len() - j,
    {
        if input.char_at(i + j) != pat[j] {
            assert(v.subrange(i as int, i + pat@.len())[j as int] != pat@[j as int]);
            return false;
        }
        j = j + 1;
    }
    assert(v.subrange(i as int, i + pat@.len()) =~= pat@);
    true
}

/// The first position at or after `from` where `pat` occurs in the window
/// of `input`.
pub fn find(input: Located, pat: &[char], from: usize) -> (r: Option<usize>)
    ensures
        ({
            let v = input.view_chars();
            match r {
                Some(j) => from <= j && occurs_at(v, pat@, j as int) && absent_between(v, pat@, from as int, j as int),
                None => absent_between(v, pat@, from as int, v.len() as int + 1),
            }
        }),
{
    proof { use_type_invariant(input); }
    let ghost v = input.view_chars();
    let n = input.len();
    let mut j: usize = from;
    while j < n
        invariant
            input.inv(),
            v == input.view_chars(),
            n == v.len(),
            from <= j,
            from <= n ==> j <= n,
            absent_between(v, pat@, from as int, j as int),
        decreases n - j,
    {
        if matches_at(input, pat, j) {
            return Some(j);
        }
        j = j + 1;
    }
    if from <= n && matches_at(input, pat, n) {
        return Some(n);
    }
    None
}

/// Recognise the literal `lit` at the start of `input`: the rest after it
/// and the window it covers; `Incomplete` where the input is a strict prefix
/// of `lit`, else `Backtrack`.
pub fn tag<'s>(input: Located<'s>, lit: &[char]) -> (r: Result<(Located<'s>, Located<'s>), ErrMode>)
    ensures
        ({
            let v = input.view_chars();
            match r {
                Ok((rest, m)) => occurs_at(v, lit@, 0) && rest_at(input, rest, lit@.len() as int)
                    && window_at(input, m, 0, lit@.len() as int),
                Err(e) => !occurs_at(v, lit@, 0) && marks_range(e.error(), input.src(), input.lo(), input.lo())
                    && (e is Incomplete <==> (v.len() < lit@.len() && lit@.subrange(0, v.len() as int) == v))
                    && (e is Incomplete || e is Backtrack),
            }
        }),
{
    proof { use_type_invariant(input); }
    let ghost v = input.view_chars();
    if matches_at(input, lit, 0) {
        let rest = input.slice(lit.len(), input.len());
        let m = input.slice(0, lit.len());
        return Ok((rest, m));
    }
    let n = input.len();
    if n < lit.len() {
        let mut j: usize = 0;
        while j < n
            invariant
                input.inv(),
                v == input.view_chars(),
                n == v.len(),
                n < lit@.len(),
                j <= n,
                forall|t: int| 0 <= t < j ==> v[t] == lit@[t],
            decreases n - j,
        {
            if input.char_at(j) != lit[j] {
                assert(lit@.subrange(0, n as int)[j as int] != v[j as int]);
                return Err(backtrack(input, "unexpected text"));
            }
            j = j + 1;
        }
        assert(lit@.subrange(0, n as int) =~= v);
        return Err(ErrMode::Incomplete(Diagnostic::new("more input needed").span(input.here())));
    }
    Err(backtrack(input, "unexpected text"))
}

/// The text before the first occurrence of `pat` and the rest from there.
pub fn take_until<'s>(input: Located<'s>, pat: &[char]) -> (r: Result<(Located<'s>, Located<'s>), ErrMode>)
    ensures
        ({
            let v = input.view_chars();
            match r {
                Ok((rest, taken)) => {
                    let j = taken.hi() - input.lo();
                    0 <= j <= v.len() && occurs_at(v, pat@, j) && absent_between(v, pat@, 0, j)
                        && rest_at(input, rest, j) && window_at(input, taken, 0, j)
                },
                Err(e) => absent_between(v, pat@, 0, v.len() as int + 1) && backtrack_here(e, input),
            }
        }),
{
    proof { use_type_invariant(input); }
    match find(input, pat, 0) {
        Some(j) => {
            let rest = input.slice(j, input.len());
            let taken = input.slice(0, j);
            proof {
                let v = input.view_chars();
                let jj = j as int;
                assert(0 <= jj <= v.len() && occurs_at(v, pat@, jj) && absent_between(v, pat@, 0, jj)
                    && rest_at(input, rest, jj) && window_at(input, taken, 0, jj));
            }
            Ok((rest, taken))
        },
        None => Err(backtrack(input, "pattern not found")),
    }
}

/// The text before the first occurrence of `pat`, the occurrence, and the
/// rest after it.
pub fn take_till<'s>(input: Located<'s>, pat: &[char]) -> (r: Result<(Located<'s>, Located<'s>, Located<'s>), ErrMode>)
    ensures
        ({
            let v = input.view_chars();
            match r {
                Ok((rest, skipped, m)) => {
                    let j = skipped.hi() - input.lo();
                    0 <= j <= v.len() && occurs_at(v, pat@, j) && absent_between(v, pat@, 0, j)
                        && rest_at(input, rest, j + pat@.len()) && window_at(input, skipped, 0, j)
                        && window_at(input, m, j, j + pat@.len())
                },
                Err(e) => absent_between(v, pat@, 0, v.len() as int + 1) && backtrack_here(e, input),
            }
        }),
{
    proof { use_type_invariant(input); }
    match find(input, pat, 0) {
        Some(j) => {
            let e = j + pat.len();
            let rest = input.slice(e, input.len());
            let skipped = input.slice(0, j);
            let m = input.slice(j, e);
            assert(rest_at(input, rest, j + pat@.len()) && window_at(input, skipped, 0, j as int)
                && window_at(input, m, j as int, j + pat@.len()));
            Ok((rest, skipped, m))
        },
        None => Err(backtrack(input, "pattern not found")),
    }
}

fn blank_char(c: char, newlines: bool) -> (r: bool)
    ensures
        r == is_blank(c, newlines),
{
    c == ' ' || c == '\t' || (newlines && (c == '\n' || c == '\r'))
}

fn ident_start_char(c: char) -> (r: bool)
    ensures
        r == ident_start(c),
{
    ('a' <= c && c <= 'z') || ('A' <= c && c <= 'Z') || c == '_'
}

fn ident_char_exec(c: char) -> (r: bool)
    ensures
        r == ident_char(c),
{
    ident_start_char(c) || ('0' <= c && c <= '9')
}

/// End of the run of blanks that starts at `i` in the window of `input`.
pub fn skip_blanks(input: Located, i: usize, newlines: bool) -> (r: usize)
    requires
        i <= input.hi() - input.lo(),
    ensures
        r == blank_run(input.view_chars(), i as int, newlines),
        i <= r <= input.hi() - input.lo(),
{
    proof { use_type_invariant(input); }
    let ghost v = input.view_chars();
    let n = input.len();
    let mut j: usize = i;
    while j < n && blank_char(input.char_at(j), newlines)
        invariant
            input.inv(),
            v == input.view_chars(),
            n == v.len(),
            i <= j <= n,
            blank_run(v, i as int, newlines) == blank_run(v, j as int, newlines),
        decreases n - j,
    {
        j = j + 1;
    }
    j
}

/// Spaces and tabs at the start of `input`: the rest after them and the
/// window they cover.
pub fn space0<'s>(input: Located<'s>) -> (r: (Located<'s>, Located<'s>))
    ensures
        ({
            let e = blank_run(input.view_chars(), 0, false);
            rest_at(input, r.0, e) && window_at(input, r.1, 0, e)
        }),
{
    proof { use_type_invariant(input); }
    let e = skip_blanks(input, 0, false);
    (input.slice(e, input.len()), input.slice(0, e))
}

/// At least one space or tab at the start of `input`, as `space0`.
pub fn space1<'s>(input: Located<'s>) -> (r: Result<(Located<'s>, Located<'s>), ErrMode>)
    ensures
        ({
            let e = blank_run(input.view_chars(), 0, false);
            match r {
                Ok((rest, taken)) => e > 0 && rest_at(input, rest, e) && window_at(input, taken, 0, e),
                Err(err) => e == 0 && backtrack_here(err, input),
            }
        }),
{
    let (rest, taken) = space0(input);
    if taken.len() == 0 {
        Err(backtrack(input, "expected a space"))
    } else {
        Ok((rest, taken))
    }
}

/// Blanks and line breaks at the start of `input`, as `space0`.
pub fn multispace0<'s>(input: Located<'s>) -> (r: (Located<'s>, Located<'s>))
    ensures
        ({
            let e = blank_run(input.view_chars(), 0, true);
            rest_at(input, r.0, e) && window_at(input, r.1, 0, e)
        }),
{
    proof { use_type_invariant(input); }
    let e = skip_blanks(input, 0, true);
    (input.slice(e, input.len()), input.slice(0, e))
}

/// An identifier at the start of `input`: a letter or `_`, then letters,
/// digits and `_`.
pub fn ident<'s>(input: Located<'s>) -> (r: Result<(Located<'s>, Located<'s>), ErrMode>)
    ensures
        ({
            let v = input.view_chars();
            match r {
                Ok((rest, name)) => v.len() > 0 && ident_start(v[0]) && rest_at(input, rest, ident_run(v, 0))
                    && window_at(input, name, 0, ident_run(v, 0)),
                Err(e) => !(v.len() > 0 && ident_start(v[0])) && backtrack_here(e, input),
            }
        }),
{
    proof { use_type_invariant(input); }
    let ghost v = input.view_chars();
    let n = input.len();
    if n == 0 || !ident_start_char(input.char_at(0)) {
        return Err(backtrack(input, "expected an identifier"));
    }
    let mut j: usize = 0;
    while j < n && ident_char_exec(input.char_at(j))
        invariant
            input.inv(),
            v == input.view_chars(),
            n == v.len(),
            j <= n,
            ident_run(v, 0) == ident_run(v, j as int),
        decreases n - j,
    {
        j = j + 1;
    }
    Ok((input.slice(j, n), input.slice(0, j)))
}

/// Position just past the quoted string that starts at `i` in the window of
/// `input`, if it closes.
pub fn string_end_at(input: Located, i: usize) -> (r: Option<usize>)
    requires
        starts_string(input.view_chars(), i as int),
    ensures
        same_pos(r, string_end(input.view_chars(), i as int)),
        r matches Some(e) ==> i < e <= input.hi() - input.lo(),
{
    proof { use_type_invariant(input); }
    let ghost v = input.view_chars();
    let n = input.len();
    if input.char_at(i) == '"' {
        let mut j: usize = i + 1;
        while j < n && input.char_at(j) != '"'
            invariant
                input.inv(),
                v == input.view_chars(),
                n == v.len(),
                i < j,
                i < n,
                v[i as int] == '"',
                quoted_end(v, i + 1) == quoted_end(v, j as int),
            decreases n - j,
        {
            if input.char_at(j) == '\\' {
                if j + 2 > n {
                    return None;
                }
                j = j + 2;
            } else {
                j = j + 1;
            }
        }
        proof { lemma_quoted_end(v, i + 1); }
        if j < n { Some(j + 1) } else { None }
    } else {
        proof { lemma_hash_run(v, i + 1); }
        let mut h: usize = i + 1;
        while h < n && input.char_at(h) == '#'
            invariant
                input.inv(),
                v == input.view_chars(),
                n == v.len(),
                i < h <= n,
                v[i as int] != '"',
                starts_string(v, i as int),
                hash_run(v, i + 1) == hash_run(v, h as int),
            decreases n - h,
        {
            h = h + 1;
        }
        let hashes = h - (i + 1);
        let mut k: usize = h + 1;
        while k < n
            invariant
                input.inv(),
                v == input.view_chars(),
                n == v.len(),
                h == hash_run(v, i + 1),
                hashes == h - (i + 1),
                v[i as int] != '"',
                starts_string(v, i as int),
                h < k,
                raw_end(v, h + 1, hashes as int) == raw_end(v, k as int, hashes as int),
            decreases n - k,
        {
            if input.char_at(k) == '"' && closes_raw(input, k + 1, hashes) {
                return Some(k + 1 + hashes);
            }
            k = k + 1;
        }
        None
    }
}

/// Whether `n` characters `#` follow position `k` in the window of `input`.
fn closes_raw(input: Located, k: usize, n: usize) -> (r: bool)
    ensures
        r == hashes_follow(input.view_chars(), k as int, n as int),
{
    proof { use_type_invariant(input); }
    let ghost v = input.view_chars();
    let len = input.len();
    if k > len || n > len - k {
        return false;
    }
    let mut t: usize = 0;
    while t < n
        invariant
            input.inv(),
            v == input.view_chars(),
            len == v.len(),
            k + n <= len,
            t <= n,
            forall|u: int| k <= u < k + t ==> v[u] == '#',
        decreases n - t,
    {
        if input.char_at(k + t) != '#' {
            return false;
        }
        t = t + 1;
    }
    true
}

/// Position of the first `close` at or after `i` in the window of `input`
/// that lies outside every quoted string.
pub fn find_unquoted(input: Located, close: &[char], i: usize) -> (r: Option<usize>)
    ensures
        same_pos(r, unquoted_close(input.view_chars(), close@, i as int)),
        r matches Some(c) ==> i <= c < input.hi() - input.lo(),
{
    proof { use_type_invariant(input); }
    let ghost v = input.view_chars();
    let n = input.len();
    let mut j: usize = i;
    while j < n
        invariant
            input.inv(),
            v == input.view_chars(),
            n == v.len(),
            i <= j,
            unquoted_close(v, close@, i as int) == unquoted_close(v, close@, j as int),
        decreases n - j,
    {
        if matches_at(input, close, j) {
            return Some(j);
        }
        if input.char_at(j) == '"' || (input.char_at(j) == 'r' && raw_opens(input, j)) {
            match string_end_at(input, j) {
                Some(e) => {
                    j = e;
                },
                None => {
                    return None;
                },
            }
        } else if input.char_at(j) == '\'' && j + 2 < n && input.char_at(j + 1) != '\\' && input.char_at(j + 2) == '\'' {
            j = j + 3;
        } else if input.char_at(j) == '\'' && j + 3 < n && input.char_at(j + 1) == '\\' && input.char_at(j + 3) == '\'' {
            j = j + 4;
        } else {
            j = j + 1;
        }
    }
    None
}

/// The first blank of the window of `input` at or after `i` that opens the
/// word `w` followed by a blank, outside quoted strings and character
/// literals.
pub fn find_unquoted_sep(input: Located, w: &[char], i: usize) -> (r: Option<usize>)
    ensures
        same_pos(r, unquoted_sep(input.view_chars(), w@, i as int)),
{
    proof { use_type_invariant(input); }
    let ghost v = input.view_chars();
    let n = input.len();
    let mut j: usize = i;
    while j < n
        invariant
            input.inv(),
            v == input.view_chars(),
            n == v.len(),
            i <= j,
            unquoted_sep(v, w@, i as int) == unquoted_sep(v, w@, j as int),
        decreases n - j,
    {
        if w.len() < n - j - 1 && blank_char(input.char_at(j), true) && matches_at(input, w, j + 1)
            && blank_char(input.char_at(j + 1 + w.len()), true) {
            return Some(j);
        }
        if input.char_at(j) == '"' || (input.char_at(j) == 'r' && raw_opens(input, j)) {
            match string_end_at(input, j) {
                Some(e) => {
                    j = e;
                },
                None => {
                    return None;
                },
            }
        } else if input.char_at(j) == '\'' && j + 2 < n && input.char_at(j + 1) != '\\' && input.char_at(j + 2) == '\'' {
            j = j + 3;
        } else if input.char_at(j) == '\'' && j + 3 < n && input.char_at(j + 1) == '\\' && input.char_at(j + 3) == '\'' {
            j = j + 4;
        } else {
            j = j + 1;
        }
    }
    None
}

/// Whether a raw string opens at `j`, where the window of `input` holds `r`.
fn raw_opens(input: Located, j: usize) -> (r: bool)
    requires
        j < input.hi() - input.lo(),
        input.view_chars()[j as int] == 'r',
    ensures
        r == starts_string(input.view_chars(), j as int),
{
    proof { use_type_invariant(input); }
    let ghost v = input.view_chars();
    let n = input.len();
    let mut h: usize = j + 1;
    while h < n && input.char_at(h) == '#'
        invariant
            input.inv(),
            v == input.view_chars(),
            n == v.len(),
            j < h <= n,
            hash_run(v, j + 1) == hash_run(v, h as int),
        decreases n - h,
    {
        h = h + 1;
    }
    h < n && input.char_at(h) == '"'
}

/// The construct between the delimiters at the start of `input`: the rest
/// after it, its content (without the blanks after the opening delimiter),
/// and the window of the whole construct. A closing delimiter inside a quoted
/// string does not close it.
pub fn delimited<'s>(input: Located<'s>, delims: &Delims) -> (r: Result<(Located<'s>, Located<'s>, Located<'s>), ErrMode>)
    ensures
        ({
            let v = input.view_chars();
            match r {
                Ok((rest, inner, whole)) => delimited_parts(v, delims.open_view(), delims.close_view()) matches Some((p, c, e))
                    && rest_at(input, rest, e) && window_at(input, inner, p, c) && window_at(input, whole, 0, e),
                Err(err) => delimited_parts(v, delims.open_view(), delims.close_view()) is None
                    && backtrack_here(err, input),
            }
        }),
{
    proof { use_type_invariant(input); }
    let ghost v = input.view_chars();
    let open = delims.open_chars();
    let close = delims.close_chars();
    if !matches_at(input, open, 0) {
        return Err(backtrack(input, "expected an opening delimiter"));
    }
    let p = skip_blanks(input, open.len(), false);
    match find_unquoted(input, close, p) {
        Some(c) => {
            proof { lemma_unquoted_close(v, close@, p as int); }
            if c > p {
                let e = c + close.len();
                Ok((input.slice(e, input.len()), input.slice(p, c), input.slice(0, e)))
            } else {
                Err(backtrack(input, "empty expression"))
            }
        },
        None => Err(backtrack(input, "expected a closing delimiter")),
    }
}

} // verus!
