use vstd::prelude::*;
use crate::host::HostFailure;
use crate::located::{char_width, chars_of, text_of, utf8_size, Located, MAX_CHARS};

verus! {

/// A message that replaces a diagnostic's own.
pub struct Msg<'i>(pub &'i str);

/// A window that a diagnostic comes to mark.
pub struct At<'i>(pub Located<'i>);

impl<'i> Msg<'i> {
    /// `e` with this message.
    pub fn apply(self, e: Diagnostic) -> (r: Diagnostic)
        ensures
            r.message@ == self.0@,
            r.label_text == e.label_text,
            r.span_bytes == e.span_bytes,
            r.source_code == e.source_code,
            r.related == e.related,
    {
        e.msg(self.0)
    }
}

impl<'i> At<'i> {
    /// `e` marking this window.
    pub fn apply(self, e: Diagnostic) -> (r: Diagnostic)
        ensures
            marks(r, self.0),
            r.message == e.message,
            r.label_text == e.label_text,
            r.related == e.related,
    {
        e.span(self.0)
    }
}

/// A structured diagnostic: a message, a label for the marked text, the
/// marked text as a byte range of the source, the source itself, and related
/// diagnostics.
#[derive(Debug)]
pub struct Diagnostic {
    pub message: String,
    pub label_text: String,
    /// Byte offset and byte length of the marked text.
    pub span_bytes: Option<(usize, usize)>,
    pub source_code: String,
    pub related: Vec<Diagnostic>,
}

/// How a parser failed.
#[derive(Debug)]
pub enum ErrMode {
    /// This production does not apply here; a sibling may be tried.
    Backtrack(Diagnostic),
    /// The production was recognised by its keyword but is malformed: no
    /// sibling may be tried.
    Cut(Diagnostic),
    /// The input ended before the construct could close.
    Incomplete(Diagnostic),
}

/// `e` marks the window `at`.
pub open spec fn marks(e: Diagnostic, at: Located) -> bool {
    marks_range(e, at.src(), at.lo(), at.hi())
}

/// `e` marks the characters `[lo, hi)` of `src`.
pub open spec fn marks_range(e: Diagnostic, src: Seq<char>, lo: int, hi: int) -> bool {
    &&& e.span_bytes matches Some((o, n))
    &&& o == utf8_size(src.subrange(0, lo))
    &&& n == utf8_size(src.subrange(lo, hi))
    &&& e.source_code@ == src
}

impl ErrMode {
    /// The diagnostic carried, whatever the class.
    pub open spec fn error(self) -> Diagnostic {
        match self {
            ErrMode::Backtrack(e) => e,
            ErrMode::Cut(e) => e,
            ErrMode::Incomplete(e) => e,
        }
    }

    /// The diagnostic carried, whatever the class.
    pub fn into_inner(self) -> (r: Diagnostic)
        ensures
            r == self.error(),
    {
        match self {
            ErrMode::Backtrack(e) => e,
            ErrMode::Cut(e) => e,
            ErrMode::Incomplete(e) => e,
        }
    }
}

impl Diagnostic {
    /// A diagnostic with message `msg`, the label `here`, and no span.
    pub fn new(msg: &str) -> (r: Self)
        ensures
            r.message@ == msg@,
            r.label_text@ == "here"@,
            r.span_bytes is None,
            r.source_code@.len() == 0,
            r.related@.len() == 0,
    {
        proof { reveal_strlit(""); }
        Diagnostic {
            message: String::from_str(msg),
            label_text: String::from_str("here"),
            span_bytes: None,
            source_code: String::from_str(""),
            related: Vec::new(),
        }
    }

    /// The same diagnostic with message `msg`.
    pub fn msg(self, msg: &str) -> (r: Self)
        ensures
            r.message@ == msg@,
            r.label_text == self.label_text,
            r.span_bytes == self.span_bytes,
            r.source_code == self.source_code,
            r.related == self.related,
    {
        Diagnostic { message: String::from_str(msg), ..self }
    }

    /// The same diagnostic with label `label`.
    pub fn label(self, label: &str) -> (r: Self)
        ensures
            r.label_text@ == label@,
            r.message == self.message,
            r.span_bytes == self.span_bytes,
            r.source_code == self.source_code,
            r.related == self.related,
    {
        Diagnostic { label_text: String::from_str(label), ..self }
    }

    /// The same diagnostic, marking the window `at`.
    pub fn span(self, at: Located) -> (r: Self)
        ensures
            marks(r, at),
            r.message == self.message,
            r.label_text == self.label_text,
            r.related == self.related,
    {
        let o = at.byte_offset();
        let n = at.byte_len();
        Diagnostic { span_bytes: Some((o, n)), source_code: at.source(), ..self }
    }

    /// The same diagnostic with `other` added to its related diagnostics.
    pub fn with_related(self, other: Diagnostic) -> (r: Self)
        ensures
            r.related@ == self.related@.push(other),
            r.message == self.message,
            r.label_text == self.label_text,
            r.span_bytes == self.span_bytes,
            r.source_code == self.source_code,
    {
        let mut related = self.related;
        related.push(other);
        Diagnostic { related, ..self }
    }

    /// The diagnostic on one line: the message alone where it marks nothing,
    /// else the message, the line and column of the marked text, and the
    /// line of the source that holds it (the last line, where it is the end
    /// of a text ending with a line break), trimmed and quoted.
    pub fn display_simple(&self) -> (r: String)
        ensures
            self.span_bytes is None ==> r@ == self.message@,
            self.span_bytes matches Some((o, _)) ==> {
                let src = self.source_code@;
                let k = first_reaching(src, o as int);
                let line = newlines(src.subrange(0, k)) + 1;
                let col = column(src.subrange(0, k));
                r@ == simple_form(self.message@, line as int, col as int,
                    trimmed(shown_line(src, k)))
            },
    {
        match self.span_bytes {
            None => self.message.clone(),
            Some((o, _)) => {
                let src = chars_of(self.source_code.as_str());
                let (line, col, k) = locate_offset(src.as_slice(), o);
                let n = src.len();
                let (from, to) = if k == n && k > 0 && src[k - 1] == '\n' {
                    (line_start(src.as_slice(), k - 1), k - 1)
                } else {
                    (k - col, find_line_end(src.as_slice(), k))
                };
                proof {
                    let s = src@;
                    if k == n && k > 0 && s[k - 1] == '\n' {
                        assert(s.drop_last().subrange(0, k - 1) =~= s.subrange(0, k - 1));
                        assert(s.drop_last().subrange(from as int, k - 1) =~= s.subrange(from as int, to as int));
                    }
                }
                let text = text_of(vstd::slice::slice_subrange(src.as_slice(), from, to));
                let text = trim(text.as_str());
                simple_report(self.message.as_str(), line, col, text.as_str())
            },
        }
    }
}

/// Names the text that `std::format!` writes for the message, line, column
/// and quoted source line of a one-line diagnostic.
pub uninterp spec fn simple_form(msg: Seq<char>, line: int, col: int, text: Seq<char>) -> Seq<char>;

/// Relies on `std::format!` with `Display` for the message and numbers and
/// `Debug` (a quoted, escaped string) for the line; the result depends on
/// the arguments alone.
#[verifier::external_body]
fn simple_report(msg: &str, line: usize, col: usize, text: &str) -> (r: String)
    ensures
        r@ == simple_form(msg@, line as int, col as int, text@),
{
    format!("{msg} [{line}:{col}] {text:?}")
}

/// Names what `str::trim` leaves of a text.
pub uninterp spec fn trimmed(s: Seq<char>) -> Seq<char>;

/// Relies on `str::trim`: the text without leading and trailing whitespace;
/// it depends on the text alone.
#[verifier::external_body]
pub fn trim(s: &str) -> (r: String)
    ensures
        r@ == trimmed(s@),
{
    s.trim().to_string()
}

/// Number of line breaks in `s`.
pub open spec fn newlines(s: Seq<char>) -> nat
    decreases s.len(),
{
    if s.len() == 0 {
        0
    } else {
        newlines(s.drop_last()) + if s.last() == '\n' { 1nat } else { 0nat }
    }
}

/// Number of characters after the last line break of `s` (all of them where
/// there is none).
pub open spec fn column(s: Seq<char>) -> nat
    decreases s.len(),
{
    if s.len() == 0 {
        0
    } else if s.last() == '\n' {
        0
    } else {
        column(s.drop_last()) + 1
    }
}

/// The least number of leading characters of `s` whose UTF-8 size reaches
/// `offset`, or all of them where none does.
pub open spec fn first_reaching(s: Seq<char>, offset: int) -> int {
    if exists|k: int| 0 <= k <= s.len() && utf8_size(#[trigger] s.subrange(0, k)) >= offset {
        choose|k: int|
            0 <= k <= s.len() && utf8_size(#[trigger] s.subrange(0, k)) >= offset
            && forall|j: int| 0 <= j < k ==> utf8_size(#[trigger] s.subrange(0, j)) < offset
    } else {
        s.len() as int
    }
}

proof fn lemma_prefix_step(s: Seq<char>, i: int)
    requires
        0 <= i < s.len(),
    ensures
        s.subrange(0, i + 1).drop_last() == s.subrange(0, i),
        s.subrange(0, i + 1).last() == s[i],
{
    assert(s.subrange(0, i + 1).drop_last() =~= s.subrange(0, i));
}

/// Line (from 1) and column (from 0, in characters) of the byte `offset` of
/// `source`: the characters before the first prefix whose UTF-8 size reaches
/// `offset` are counted.
pub fn get_line_col(source: &[char], offset: usize) -> (r: (usize, usize))
    requires
        source@.len() <= MAX_CHARS,
    ensures
        ({
            let k = first_reaching(source@, offset as int);
            r.0 == newlines(source@.subrange(0, k)) + 1 && r.1 == column(source@.subrange(0, k))
        }),
{
    let (line, col, _) = locate_offset(source, offset);
    (line, col)
}

/// As `get_line_col`, with the number of characters counted.
fn locate_offset(source: &[char], offset: usize) -> (r: (usize, usize, usize))
    requires
        source@.len() <= MAX_CHARS,
    ensures
        r.2 == first_reaching(source@, offset as int),
        r.0 == newlines(source@.subrange(0, r.2 as int)) + 1,
        r.1 == column(source@.subrange(0, r.2 as int)),
        r.1 <= r.2 <= source@.len(),
{
    let ghost s = source@;
    let mut line: usize = 0;
    let mut col: usize = 0;
    let mut cursor: usize = 0;
    let mut i: usize = 0;
    while i < source.len() && cursor < offset
        invariant
            s == source@,
            s.len() <= MAX_CHARS,
            i <= s.len(),
            cursor == utf8_size(s.subrange(0, i as int)),
            cursor <= 4 * i,
            line == newlines(s.subrange(0, i as int)),
            col == column(s.subrange(0, i as int)),
            line <= i,
            col <= i,
            forall|j: int| 0 <= j < i ==> utf8_size(#[trigger] s.subrange(0, j)) < offset,
        decreases s.len() - i,
    {
        proof {
            lemma_prefix_step(s, i as int);
        }
        let c = source[i];
        if c == '\n' {
            col = 0;
            line = line + 1;
        } else {
            col = col + 1;
        }
        cursor = cursor + char_width(c);
        i = i + 1;
    }
    proof {
        if cursor >= offset {
            let k = choose|k: int|
                0 <= k <= s.len() && utf8_size(#[trigger] s.subrange(0, k)) >= offset
                && forall|j: int| 0 <= j < k ==> utf8_size(#[trigger] s.subrange(0, j)) < offset;
            assert(k == i) by {
                if k > i {
                    assert(utf8_size(s.subrange(0, i as int)) < offset);
                }
            }
        } else {
            assert forall|k: int| 0 <= k <= s.len() implies utf8_size(#[trigger] s.subrange(0, k)) < offset by {
            }
        }
    }
    (line + 1, col, i)
}

/// Index of the first line break of `s` at or after `k`, or the length of `s`.
pub open spec fn line_end(s: Seq<char>, k: int) -> int
    decreases s.len() - k,
{
    if k >= s.len() {
        s.len() as int
    } else if s[k] == '\n' {
        k
    } else {
        line_end(s, k + 1)
    }
}

/// The line of `s` that holds position `k`, without its line break.
pub open spec fn line_around(s: Seq<char>, k: int) -> Seq<char> {
    s.subrange(k - column(s.subrange(0, k)), line_end(s, k))
}

/// The line of `s` shown for position `k`: the one that holds it, or, where
/// `k` is the end of a text that ends with a line break, the last line, as
/// `str::lines` gives it.
pub open spec fn shown_line(s: Seq<char>, k: int) -> Seq<char> {
    if k == s.len() && k > 0 && s[k - 1] == '\n' {
        line_around(s.drop_last(), k - 1)
    } else {
        line_around(s, k)
    }
}

/// Where the line that holds position `k` of `source` starts.
fn line_start(source: &[char], k: usize) -> (r: usize)
    requires
        k <= source@.len(),
    ensures
        r == k - column(source@.subrange(0, k as int)),
        r <= k,
{
    let ghost s = source@;
    let mut j: usize = k;
    while j > 0 && source[j - 1] != '\n'
        invariant
            s == source@,
            j <= k <= s.len(),
            column(s.subrange(0, k as int)) == (k - j) + column(s.subrange(0, j as int)),
        decreases j,
    {
        proof {
            assert(s.subrange(0, j as int).drop_last() =~= s.subrange(0, j - 1));
        }
        j = j - 1;
    }
    proof {
        if j > 0 {
            assert(s.subrange(0, j as int).last() == s[j - 1]);
        } else {
            assert(s.subrange(0, 0) =~= Seq::<char>::empty());
        }
    }
    j
}

fn find_line_end(source: &[char], k: usize) -> (r: usize)
    requires
        k <= source@.len(),
    ensures
        r == line_end(source@, k as int),
        k <= r <= source@.len(),
{
    let mut j: usize = k;
    while j < source.len() && source[j] != '\n'
        invariant
            k <= j <= source@.len(),
            line_end(source@, k as int) == line_end(source@, j as int),
        decreases source@.len() - j,
    {
        j = j + 1;
    }
    j
}

/// The prefix `p` has reached line `line` (from 1) and column `col` (from 1).
pub open spec fn reached(p: Seq<char>, line: int, col: int) -> bool {
    newlines(p) + 1 >= line && column(p) + 1 >= col
}

/// The least number of leading characters of `s` that reach line `line` and
/// column `col`, or all of them where no prefix does.
pub open spec fn first_reached(s: Seq<char>, line: int, col: int) -> int {
    if exists|k: int| 0 <= k <= s.len() && reached(#[trigger] s.subrange(0, k), line, col) {
        choose|k: int|
            0 <= k <= s.len() && reached(#[trigger] s.subrange(0, k), line, col)
            && forall|j: int| 0 <= j < k ==> !reached(#[trigger] s.subrange(0, j), line, col)
    } else {
        s.len() as int
    }
}

/// Offset, in characters, of line `loc_line` (from 1) and column `loc_col`
/// (from 1) of `source`: the first place that reaches both.
pub fn get_offset(source: &[char], loc_line: usize, loc_col: usize) -> (r: usize)
    requires
        source@.len() <= MAX_CHARS,
    ensures
        r == first_reached(source@, loc_line as int, loc_col as int),
        r <= source@.len(),
{
    let ghost s = source@;
    let mut line: usize = 0;
    let mut col: usize = 0;
    let mut i: usize = 0;
    while i < source.len() && !(line + 1 >= loc_line && col + 1 >= loc_col)
        invariant
            s == source@,
            s.len() <= MAX_CHARS,
            i <= s.len(),
            line == newlines(s.subrange(0, i as int)),
            col == column(s.subrange(0, i as int)),
            line <= i,
            col <= i,
            forall|j: int| 0 <= j < i ==> !reached(#[trigger] s.subrange(0, j), loc_line as int, loc_col as int),
        decreases s.len() - i,
    {
        proof {
            lemma_prefix_step(s, i as int);
        }
        if source[i] == '\n' {
            col = 0;
            line = line + 1;
        } else {
            col = col + 1;
        }
        i = i + 1;
    }
    proof {
        if reached(s.subrange(0, i as int), loc_line as int, loc_col as int) {
            let k = choose|k: int|
                0 <= k <= s.len() && reached(#[trigger] s.subrange(0, k), loc_line as int, loc_col as int)
                && forall|j: int| 0 <= j < k ==> !reached(#[trigger] s.subrange(0, j), loc_line as int, loc_col as int);
            assert(k == i) by {
                if k > i {
                    assert(!reached(s.subrange(0, i as int), loc_line as int, loc_col as int));
                }
            }
        } else {
            assert(i == s.len());
        }
    }
    i
}

/// A column counted from 0, counted from 1 (staying at the largest value).
pub open spec fn next_column(c: usize) -> int {
    if c == usize::MAX {
        c as int
    } else {
        c + 1
    }
}

impl Diagnostic {
    /// The diagnostic of the host parser's failure `f` on the fragment
    /// `input`: its message, marking the part of the fragment between the
    /// failure's start and end.
    pub fn from_syn(input: Located, f: &HostFailure) -> (r: Self)
        ensures
            r.message@ == f.message@,
            ({
                let v = input.view_chars();
                let a = first_reached(v, f.start_line as int, next_column(f.start_column));
                let b = first_reached(v, f.end_line as int, next_column(f.end_column));
                marks_range(r, input.src(), input.lo() + a, input.lo() + if b < a { a } else { b })
            }),
    {
        proof { use_type_invariant(input); }
        let chars = input.chars();
        let start_col = if f.start_column == usize::MAX { f.start_column } else { f.start_column + 1 };
        let end_col = if f.end_column == usize::MAX { f.end_column } else { f.end_column + 1 };
        let start = get_offset(chars, f.start_line, start_col);
        let end = get_offset(chars, f.end_line, end_col);
        let end = if end < start { start } else { end };
        Diagnostic::new(f.message.as_str()).span(input.slice(start, end))
    }
}

} // verus!
