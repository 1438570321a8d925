//! What a parse error knows of where it arose: the contexts that the parser
//! passed through, kept in `winnow`'s `ContextError`.

use crate::ast::Span;
use vstd::prelude::*;
use winnow::error::{ContextError, ErrMode};

verus! {

/// A parse failure at a byte offset, with the contexts it was raised in,
/// innermost first.
#[derive(Debug, Clone)]
pub struct ParseContextError {
    pub span: Span,
    pub context: ContextError<ParseContext>,
}

#[derive(Debug, Clone, PartialEq)]
pub enum ParseContext {
    Expected(Expected),
    InBlock { name_span: Span, open_brace_span: Span },
    InQuotedArgument { quote: QuoteKind, open_quote_span: Span },
}

#[derive(Debug, Clone, Copy, PartialEq, Eq, Structural)]
pub enum Expected {
    DirectiveName,
    DirectiveTerminator,
    ClosingBrace,
    ClosingQuote(QuoteKind),
}

#[derive(Debug, Clone, Copy, PartialEq, Eq, Structural)]
pub enum QuoteKind {
    Single,
    Double,
}

impl QuoteKind {
    pub open spec fn spec_char(self) -> char {
        match self {
            QuoteKind::Single => '\'',
            QuoteKind::Double => '"',
        }
    }

    /// The quote character of this kind.
    pub fn as_char(self) -> (c: char)
        ensures
            c == self.spec_char(),
    {
        match self {
            Self::Single => '\'',
            Self::Double => '"',
        }
    }
}

impl From<char> for QuoteKind {
    /// A single quote gives `Single`; any other character gives `Double`.
    fn from(value: char) -> (q: QuoteKind) {
        match value {
            '\'' => QuoteKind::Single,
            _ => QuoteKind::Double,
        }
    }
}

impl vstd::std_specs::convert::FromSpecImpl<char> for QuoteKind {
    open spec fn obeys_from_spec() -> bool {
        true
    }

    open spec fn from_spec(value: char) -> QuoteKind {
        if value == '\'' {
            QuoteKind::Single
        } else {
            QuoteKind::Double
        }
    }
}

impl ParseContextError {
    /// The error raised at a byte offset, before any context is added.
    pub fn from_input(offset: usize) -> (e: ParseContextError)
        ensures
            e.span.start == offset,
            e.span.end == offset,
            context_items(e.context) == Seq::<ParseContext>::empty(),
    {
        ParseContextError { span: offset..offset, context: context_error_new() }
    }

    /// The same error with one more context, pushed after those it had.
    pub fn add_context(self, context: ParseContext) -> (e: ParseContextError)
        ensures
            e.span == self.span,
            context_items(e.context) == context_items(self.context).push(context),
    {
        let mut e = self;
        context_error_push(&mut e.context, context);
        e
    }

    /// The contexts of the error, innermost first.
    pub open spec fn contexts(self) -> Seq<ParseContext> {
        context_items(self.context)
    }
}

#[verifier::external_type_specification]
#[verifier::external_body]
#[verifier::reject_recursive_types(C)]
pub struct ExContextError<C>(ContextError<C>);

#[verifier::external_type_specification]
#[verifier::external_body]
#[verifier::reject_recursive_types(E)]
pub struct ExErrMode<E>(ErrMode<E>);

/// `Clone for ContextError`: the derived clone of a `ParseContextError` copies
/// its contexts with it. Nothing is stated of the copy.
pub assume_specification<C: Clone>[ <ContextError<C> as Clone>::clone ](e: &ContextError<C>) -> ContextError<C>;

/// The contexts that a `ContextError` holds, in the order they were pushed.
pub uninterp spec fn context_items(e: ContextError<ParseContext>) -> Seq<ParseContext>;

/// What `ErrMode::into_inner` gives back: the error of `Backtrack` and `Cut`;
/// `None` stands for `Incomplete`, which carries no error.
pub uninterp spec fn err_mode_inner(mode: ErrMode<ParseContextError>) -> Option<ParseContextError>;

/// Whether an error mode is `Cut` (rather than `Backtrack` or `Incomplete`).
pub uninterp spec fn err_mode_cuts(mode: ErrMode<ParseContextError>) -> bool;

/// `ContextError::new`: an error with no context.
#[verifier::external_body]
fn context_error_new() -> (e: ContextError<ParseContext>)
    ensures
        context_items(e) == Seq::<ParseContext>::empty(),
{
    ContextError::new()
}

/// `ContextError::push`: appends one context.
#[verifier::external_body]
fn context_error_push(e: &mut ContextError<ParseContext>, context: ParseContext)
    ensures
        context_items(*final(e)) == context_items(*old(e)).push(context),
{
    e.push(context)
}

/// `ContextError::context`: the contexts in the order they were pushed, each
/// cloned into the returned vector.
#[verifier::external_body]
pub(crate) fn context_error_items(e: &ContextError<ParseContext>) -> (v: Vec<ParseContext>)
    ensures
        v@ == context_items(*e),
{
    e.context().cloned().collect()
}

/// `ErrMode::Cut`: an error that no alternative may recover from.
#[verifier::external_body]
pub(crate) fn err_mode_cut(e: ParseContextError) -> (mode: ErrMode<ParseContextError>)
    ensures
        err_mode_inner(mode) == Some(e),
        err_mode_cuts(mode),
{
    ErrMode::Cut(e)
}

/// `ErrMode::Backtrack`: an error that an alternative may recover from.
#[verifier::external_body]
pub(crate) fn err_mode_backtrack(e: ParseContextError) -> (mode: ErrMode<ParseContextError>)
    ensures
        err_mode_inner(mode) == Some(e),
        !err_mode_cuts(mode),
{
    ErrMode::Backtrack(e)
}

/// `ErrMode::into_inner`: the error that the mode carries, if any.
#[verifier::external_body]
pub(crate) fn err_mode_into_inner(mode: ErrMode<ParseContextError>) -> (e: Option<ParseContextError>)
    ensures
        e == err_mode_inner(mode),
{
    mode.into_inner().ok()
}

} // verus!
