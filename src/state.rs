use vstd::prelude::*;
use crate::located::chars_of;

verus! {

/// The pair of strings that open and close each construct of a template.
pub struct Delims {
    open: String,
    close: String,
    open_chars: Vec<char>,
    close_chars: Vec<char>,
}

impl Delims {
    #[verifier::type_invariant]
    spec fn inv(self) -> bool {
        self.open_chars@ == self.open@ && self.close_chars@ == self.close@
    }

    /// The opening delimiter.
    pub closed spec fn open_view(&self) -> Seq<char> {
        self.open@
    }

    /// The closing delimiter.
    pub closed spec fn close_view(&self) -> Seq<char> {
        self.close@
    }

    /// Both delimiters hold at least one character: the grammar needs that.
    pub open spec fn usable(&self) -> bool {
        self.open_view().len() > 0 && self.close_view().len() > 0
    }

    /// Delimiters `open` and `close`.
    pub fn new(open: &str, close: &str) -> (r: Self)
        ensures
            r.open_view() == open@,
            r.close_view() == close@,
    {
        Delims {
            open: String::from_str(open),
            close: String::from_str(close),
            open_chars: chars_of(open),
            close_chars: chars_of(close),
        }
    }

    /// The opening delimiter.
    pub fn open(&self) -> (r: &str)
        ensures
            r@ == self.open_view(),
    {
        self.open.as_str()
    }

    /// The closing delimiter.
    pub fn close(&self) -> (r: &str)
        ensures
            r@ == self.close_view(),
    {
        self.close.as_str()
    }

    /// The opening delimiter, as characters.
    pub fn open_chars(&self) -> (r: &[char])
        ensures
            r@ == self.open_view(),
    {
        proof { use_type_invariant(self); }
        self.open_chars.as_slice()
    }

    /// The closing delimiter, as characters.
    pub fn close_chars(&self) -> (r: &[char])
        ensures
            r@ == self.close_view(),
    {
        proof { use_type_invariant(self); }
        self.close_chars.as_slice()
    }
}

} // verus!

verus! {

/// The default delimiters, `{%` and `%}`.
impl Default for Delims {
    fn default() -> (r: Self)
        ensures
            r.open_view() == "{%"@,
            r.close_view() == "%}"@,
    {
        Delims::new("{%", "%}")
    }
}

/// Which constructs the grammar accepts at a given place in a template.
#[derive(Clone, Copy, PartialEq, Eq, Structural, Debug)]
pub struct State {
    /// `block` may open here.
    pub allow_block: bool,
    /// `extends` may stand here.
    pub allow_extend: bool,
    /// `super()` may stand here.
    pub allow_supercall: bool,
}

impl State {
    /// The state at the start of a template: blocks and `extends` are accepted,
    /// `super()` is not.
    pub fn root() -> (r: Self)
        ensures
            r.allow_block && r.allow_extend && !r.allow_supercall,
    {
        State { allow_block: true, allow_extend: true, allow_supercall: false }
    }
}

} // verus!
