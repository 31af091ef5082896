use vstd::prelude::*;

verus! {

/// Largest number of characters a text can hold: a `[char]` never spans more
/// than `isize::MAX` bytes, and a `char` takes four.
pub const MAX_CHARS: usize = usize::MAX / 4;

/// Number of bytes that `c` takes in UTF-8.
pub open spec fn utf8_width(c: char) -> nat {
    if (c as u32) < 0x80 {
        1
    } else if (c as u32) < 0x800 {
        2
    } else if (c as u32) < 0x10000 {
        3
    } else {
        4
    }
}

/// Number of bytes that `s` takes in UTF-8.
pub open spec fn utf8_size(s: Seq<char>) -> nat
    decreases s.len(),
{
    if s.len() == 0 {
        0
    } else {
        utf8_size(s.drop_last()) + utf8_width(s.last())
    }
}

proof fn lemma_utf8_size_bound(s: Seq<char>)
    ensures
        utf8_size(s) <= 4 * s.len(),
    decreases s.len(),
{
    if s.len() > 0 {
        lemma_utf8_size_bound(s.drop_last());
    }
}

/// Number of bytes that `c` takes in UTF-8.
pub fn char_width(c: char) -> (w: usize)
    ensures
        w == utf8_width(c),
        w <= 4,
{
    let v = c as u32;
    if v < 0x80 {
        1
    } else if v < 0x800 {
        2
    } else if v < 0x10000 {
        3
    } else {
        4
    }
}

/// Relies on `str::chars`: a string's characters, in order. A `Vec<char>`
/// holds at most `isize::MAX` bytes, which bounds its length.
#[verifier::external_body]
pub fn chars_of(s: &str) -> (r: Vec<char>)
    ensures
        r@ == s@,
        r@.len() <= MAX_CHARS,
{
    s.chars().collect()
}

/// Relies on `String`'s `FromIterator<&char>`: the characters, in order.
#[verifier::external_body]
pub fn text_of(cs: &[char]) -> (r: String)
    ensures
        r@ == cs@,
{
    cs.iter().collect()
}

/// A window `[start, end)` over a text of characters.
///
/// Every window made from another shares its text; windows are plain values
/// and no operation changes one in place.
#[derive(Clone, Copy)]
pub struct Located<'s> {
    start: usize,
    end: usize,
    text: &'s [char],
}

impl<'s> Located<'s> {
    #[verifier::type_invariant]
    pub open spec fn inv(self) -> bool {
        0 <= self.lo() <= self.hi() <= self.src().len() <= MAX_CHARS
    }

    /// First position of the window, counted in characters.
    pub closed spec fn lo(self) -> int {
        self.start as int
    }

    /// Position just past the window.
    pub closed spec fn hi(self) -> int {
        self.end as int
    }

    /// The whole text the window looks into.
    pub closed spec fn src(self) -> Seq<char> {
        self.text@
    }

    /// The characters inside the window.
    pub open spec fn view_chars(self) -> Seq<char> {
        self.src().subrange(self.lo(), self.hi())
    }

    /// A window over the whole of `text`.
    pub fn new(text: &'s [char]) -> (r: Self)
        requires
            text@.len() <= MAX_CHARS,
        ensures
            r.lo() == 0,
            r.hi() == text@.len(),
            r.src() == text@,
    {
        Located { start: 0, end: text.len(), text }
    }

    /// The first position of the window, in characters from the start of the text.
    pub fn offset(&self) -> (r: usize)
        ensures
            r == self.lo(),
    {
        self.start
    }

    /// The position just past the window.
    pub fn end_offset(&self) -> (r: usize)
        ensures
            r == self.hi(),
    {
        self.end
    }

    /// Number of characters in the window.
    pub fn len(&self) -> (r: usize)
        ensures
            r == self.hi() - self.lo(),
    {
        proof { use_type_invariant(self); }
        self.end - self.start
    }

    /// The character at `i`, counted from the start of the window.
    pub fn char_at(&self, i: usize) -> (c: char)
        requires
            i < self.hi() - self.lo(),
        ensures
            c == self.view_chars()[i as int],
    {
        proof { use_type_invariant(self); }
        self.text[self.start + i]
    }

    /// Number of bytes of the text before the window, in UTF-8.
    pub fn byte_offset(&self) -> (r: usize)
        ensures
            r == utf8_size(self.src().subrange(0, self.lo())),
    {
        proof { use_type_invariant(self); }
        sum_widths(self.text, 0, self.start)
    }

    /// Number of bytes inside the window, in UTF-8.
    pub fn byte_len(&self) -> (r: usize)
        ensures
            r == utf8_size(self.view_chars()),
    {
        proof { use_type_invariant(self); }
        sum_widths(self.text, self.start, self.end)
    }

    /// The window `[from, to)` relative to this one, or `None` where that
    /// range does not lie inside it.
    pub fn try_slice(&self, from: usize, to: usize) -> (r: Option<Self>)
        ensures
            r is Some <==> from <= to && self.lo() + to <= self.hi(),
            r matches Some(s) ==> s.lo() == self.lo() + from && s.hi() == self.lo() + to
                && s.src() == self.src(),
    {
        proof { use_type_invariant(self); }
        if from > to || to > self.end - self.start {
            None
        } else {
            Some(Located { start: self.start + from, end: self.start + to, text: self.text })
        }
    }

    /// The window `[from, to)` relative to this one.
    pub fn slice(&self, from: usize, to: usize) -> (r: Self)
        requires
            from <= to,
            self.lo() + to <= self.hi(),
        ensures
            r.lo() == self.lo() + from,
            r.hi() == self.lo() + to,
            r.src() == self.src(),
    {
        proof { use_type_invariant(self); }
        Located { start: self.start + from, end: self.start + to, text: self.text }
    }

    /// The window from the start of this one to the end of `other`, which must
    /// look into the same text and not end before this one starts.
    pub fn join(&self, other: Located<'s>) -> (r: Self)
        requires
            self.src() == other.src(),
            self.lo() <= other.hi(),
        ensures
            r.lo() == self.lo(),
            r.hi() == other.hi(),
            r.src() == self.src(),
    {
        proof { use_type_invariant(self); use_type_invariant(other); }
        Located { start: self.start, end: other.end, text: self.text }
    }

    /// The empty window at the start of this one.
    pub fn here(&self) -> (r: Self)
        ensures
            r.lo() == self.lo(),
            r.hi() == self.lo(),
            r.src() == self.src(),
    {
        proof { use_type_invariant(self); }
        Located { start: self.start, end: self.start, text: self.text }
    }

    /// The window's bounds, in characters.
    pub fn span(&self) -> (r: std::ops::Range<usize>)
        ensures
            r.start == self.lo(),
            r.end == self.hi(),
    {
        self.start..self.end
    }

    /// The characters inside the window, as a slice of the text.
    pub fn chars(&self) -> (r: &'s [char])
        ensures
            r@ == self.view_chars(),
    {
        proof { use_type_invariant(self); }
        vstd::slice::slice_subrange(self.text, self.start, self.end)
    }

    /// The whole text, as a slice.
    pub fn text(&self) -> (r: &'s [char])
        ensures
            r@ == self.src(),
    {
        self.text
    }

    /// The text inside the window.
    pub fn content(&self) -> (r: String)
        ensures
            r@ == self.view_chars(),
    {
        text_of(self.chars())
    }

    /// The text inside the window; the same as [`Located::content`].
    pub fn spanned(&self) -> (r: String)
        ensures
            r@ == self.view_chars(),
    {
        self.content()
    }

    /// The whole text, regardless of the window.
    pub fn source(&self) -> (r: String)
        ensures
            r@ == self.src(),
    {
        text_of(self.text)
    }

    /// The whole text, regardless of the window; the same as [`Located::source`].
    pub fn full(&self) -> (r: String)
        ensures
            r@ == self.src(),
    {
        self.source()
    }
}

/// Sum of the UTF-8 widths of `text[from..to]`.
fn sum_widths(text: &[char], from: usize, to: usize) -> (r: usize)
    requires
        from <= to <= text@.len() <= MAX_CHARS,
    ensures
        r == utf8_size(text@.subrange(from as int, to as int)),
{
    let mut acc: usize = 0;
    let mut i: usize = from;
    while i < to
        invariant
            from <= i <= to <= text@.len() <= MAX_CHARS,
            acc == utf8_size(text@.subrange(from as int, i as int)),
        decreases to - i,
    {
        proof {
            lemma_utf8_size_bound(text@.subrange(from as int, i as int));
            assert(text@.subrange(from as int, i + 1).drop_last() =~= text@.subrange(from as int, i as int));
        }
        acc = acc + char_width(text[i]);
        i = i + 1;
    }
    acc
}

} // verus!
