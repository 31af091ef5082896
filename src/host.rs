//! The host-language parser, `syn`: it decides whether a fragment of host code
//! parses as a statement, an expression, a pattern or a list, and where it
//! fails.

use vstd::prelude::*;

verus! {

#[verifier::external_type_specification]
#[verifier::external_body]
pub struct ExSynError(syn::Error);

/// Where and why the host parser refused a fragment: lines from 1, columns
/// from 0, both relative to the fragment.
pub struct HostFailure {
    pub message: String,
    pub start_line: usize,
    pub start_column: usize,
    pub end_line: usize,
    pub end_column: usize,
}

/// Names whether `syn` parses the whole text as one statement.
pub uninterp spec fn host_stmt(s: Seq<char>) -> bool;

/// Names whether `syn` parses the whole text as one expression.
pub uninterp spec fn host_expr(s: Seq<char>) -> bool;

/// Names whether `syn` parses the whole text as a pattern without top-level `|`.
pub uninterp spec fn host_pat_single(s: Seq<char>) -> bool;

/// Names whether `syn` parses the whole text as a pattern, `|` alternatives allowed.
pub uninterp spec fn host_pat_multi(s: Seq<char>) -> bool;

/// Names whether `syn` parses the whole text as a comma-separated list of
/// function parameters.
pub uninterp spec fn host_params(s: Seq<char>) -> bool;

/// Names whether `syn` parses the whole text as a comma-separated list of expressions.
pub uninterp spec fn host_args(s: Seq<char>) -> bool;

/// Names whether `syn` parses the whole text as a comma-separated list of
/// `name: expression` fields.
pub uninterp spec fn host_fields(s: Seq<char>) -> bool;

/// Relies on `syn::parse_str::<syn::Stmt>`: it succeeds when the whole text is
/// one statement, and depends on the text alone.
#[verifier::external_body]
pub fn parse_stmt(s: &str) -> (r: Result<(), syn::Error>)
    ensures
        r is Ok <==> host_stmt(s@),
{
    syn::parse_str::<syn::Stmt>(s).map(|_| ())
}

/// Relies on `syn::parse_str::<syn::Expr>`: it succeeds when the whole text is
/// one expression, and depends on the text alone.
#[verifier::external_body]
pub fn parse_expr(s: &str) -> (r: Result<(), syn::Error>)
    ensures
        r is Ok <==> host_expr(s@),
{
    syn::parse_str::<syn::Expr>(s).map(|_| ())
}

/// Relies on `syn::Pat::parse_single`, run through `syn::parse::Parser::parse_str`
/// on the whole text.
#[verifier::external_body]
pub fn parse_pat_single(s: &str) -> (r: Result<(), syn::Error>)
    ensures
        r is Ok <==> host_pat_single(s@),
{
    syn::parse::Parser::parse_str(syn::Pat::parse_single, s).map(|_| ())
}

/// Relies on `syn::Pat::parse_multi`, run through `syn::parse::Parser::parse_str`
/// on the whole text.
#[verifier::external_body]
pub fn parse_pat_multi(s: &str) -> (r: Result<(), syn::Error>)
    ensures
        r is Ok <==> host_pat_multi(s@),
{
    syn::parse::Parser::parse_str(syn::Pat::parse_multi, s).map(|_| ())
}

/// Relies on `syn::punctuated::Punctuated::<syn::FnArg, syn::token::Comma>::parse_terminated`
/// on the whole text.
#[verifier::external_body]
pub fn parse_params(s: &str) -> (r: Result<(), syn::Error>)
    ensures
        r is Ok <==> host_params(s@),
{
    syn::parse::Parser::parse_str(
        syn::punctuated::Punctuated::<syn::FnArg, syn::token::Comma>::parse_terminated,
        s,
    ).map(|_| ())
}

/// Relies on `syn::punctuated::Punctuated::<syn::Expr, syn::token::Comma>::parse_terminated`
/// on the whole text.
#[verifier::external_body]
pub fn parse_args(s: &str) -> (r: Result<(), syn::Error>)
    ensures
        r is Ok <==> host_args(s@),
{
    syn::parse::Parser::parse_str(
        syn::punctuated::Punctuated::<syn::Expr, syn::token::Comma>::parse_terminated,
        s,
    ).map(|_| ())
}

/// Relies on `syn::punctuated::Punctuated::<syn::FieldValue, syn::token::Comma>::parse_terminated`
/// on the whole text.
#[verifier::external_body]
pub fn parse_fields(s: &str) -> (r: Result<(), syn::Error>)
    ensures
        r is Ok <==> host_fields(s@),
{
    syn::parse::Parser::parse_str(
        syn::punctuated::Punctuated::<syn::FieldValue, syn::token::Comma>::parse_terminated,
        s,
    ).map(|_| ())
}

/// Relies on `syn::Error`'s message (`Display`) and span, and on
/// `proc_macro2::Span::start` / `end` for its line and column. Nothing is
/// promised of the values.
#[verifier::external_body]
pub fn failure_of(e: &syn::Error) -> (r: HostFailure) {
    let span = e.span();
    let (start, end) = (span.start(), span.end());
    HostFailure {
        message: e.to_string(),
        start_line: start.line,
        start_column: start.column,
        end_line: end.line,
        end_column: end.column,
    }
}

} // verus!
