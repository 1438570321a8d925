//! The grammar of configuration files, stated over the UTF-8 bytes of the
//! source, together with the directives it yields and the errors it raises.
//!
//! ```text
//! config     := ws* directive* EOF           (each directive followed by ws*)
//! directive  := name (ws+ arg)* ws* (";" | "{" ws* directive* "}")
//! name       := [A-Za-z0-9_]+
//! arg        := bare | quoted
//! bare       := (var | start) (var | tail)*     (a var wherever one stands)
//! start      := a byte that is neither ASCII whitespace nor one of ; { } " ' #
//! tail       := a byte that is neither ASCII whitespace nor one of ; {
//! var        := "${" [A-Za-z0-9_]* "}"                    (a variable reference)
//! quoted     := q (escape | byte other than \ and q)* q       for q one of " '
//! ws         := space, tab, CR or LF | "#" up to the end of the line
//! ```
//!
//! The escapes `\\`, `\"`, `\'`, `\t`, `\r` and `\n` stand for the character
//! they name; a backslash followed by anything else stands for itself and
//! that character.

use crate::ast::{ArgView, DirectiveView, KindView, Span};
use crate::error::context::{Expected, ParseContext, QuoteKind};
use vstd::prelude::*;

verus! {

pub const TAB: u8 = 0x09;
pub const LF: u8 = 0x0A;
pub const FORM_FEED: u8 = 0x0C;
pub const CR: u8 = 0x0D;
pub const SPACE: u8 = 0x20;
pub const DQUOTE: u8 = 0x22;
pub const HASH: u8 = 0x23;
pub const DOLLAR: u8 = 0x24;
pub const SQUOTE: u8 = 0x27;
pub const SEMICOLON: u8 = 0x3B;
pub const BACKSLASH: u8 = 0x5C;
pub const UNDERSCORE: u8 = 0x5F;
pub const LOWER_N: u8 = 0x6E;
pub const LOWER_R: u8 = 0x72;
pub const LOWER_T: u8 = 0x74;
pub const LBRACE: u8 = 0x7B;
pub const RBRACE: u8 = 0x7D;

/// Whitespace between tokens: space, tab, CR, LF.
pub open spec fn is_space(c: u8) -> bool {
    c == SPACE || c == TAB || c == CR || c == LF
}

/// ASCII whitespace, which ends a bare argument: the above and form feed.
pub open spec fn is_ascii_whitespace(c: u8) -> bool {
    is_space(c) || c == FORM_FEED
}

/// A byte of a directive name: an ASCII letter or digit, or `_`.
pub open spec fn is_name_byte(c: u8) -> bool {
    (0x30 <= c <= 0x39) || (0x41 <= c <= 0x5A) || (0x61 <= c <= 0x7A) || c == UNDERSCORE
}

/// A byte of a bare argument after its first one.
pub open spec fn is_bare_byte(c: u8) -> bool {
    !is_ascii_whitespace(c) && c != SEMICOLON && c != LBRACE
}

/// A byte that may start a bare argument.
pub open spec fn is_bare_start(c: u8) -> bool {
    is_bare_byte(c) && c != RBRACE && c != DQUOTE && c != SQUOTE && c != HASH
}

/// Where the variable reference `${name}` that starts at `i` ends, if one does.
pub open spec fn var_end(b: Seq<u8>, i: int) -> Option<int> {
    if 0 <= i && i + 1 < b.len() && b[i] == DOLLAR && b[i + 1] == LBRACE {
        let k = name_end(b, i + 2);
        if k < b.len() && b[k] == RBRACE {
            Some(k + 1)
        } else {
            None
        }
    } else {
        None
    }
}

pub open spec fn is_quote(c: u8) -> bool {
    c == DQUOTE || c == SQUOTE
}

/// The kind of a quote byte.
pub open spec fn quote_kind(q: u8) -> QuoteKind {
    if q == SQUOTE {
        QuoteKind::Single
    } else {
        QuoteKind::Double
    }
}

/// The span from `start` to `end`.
pub open spec fn span(start: int, end: int) -> Span {
    core::ops::Range { start: start as usize, end: end as usize }
}

/// Where the run of whitespace and comments that starts at `i` ends;
/// `in_comment` tells whether `i` lies inside a comment.
pub open spec fn ws_end(b: Seq<u8>, i: int, in_comment: bool) -> int
    decreases b.len() - i,
{
    if i < 0 || i >= b.len() {
        i
    } else if in_comment {
        ws_end(b, i + 1, !(b[i] == CR || b[i] == LF))
    } else if is_space(b[i]) {
        ws_end(b, i + 1, false)
    } else if b[i] == HASH {
        ws_end(b, i + 1, true)
    } else {
        i
    }
}

/// Skips whitespace and comments from `i`.
pub open spec fn skip_ws(b: Seq<u8>, i: int) -> int {
    ws_end(b, i, false)
}

/// Where the run of name bytes that starts at `i` ends.
pub open spec fn name_end(b: Seq<u8>, i: int) -> int
    decreases b.len() - i,
{
    if 0 <= i < b.len() && is_name_byte(b[i]) {
        name_end(b, i + 1)
    } else {
        i
    }
}

/// Where the rest of a bare argument from `i` ends: variable references and
/// bare-argument bytes, as far as they go.
pub open spec fn bare_end(b: Seq<u8>, i: int) -> int
    decreases b.len() - i,
{
    if 0 <= i < b.len() {
        match var_end(b, i) {
            Some(e) => {
                proof {
                    lemma_name_end(b, i + 2);
                }
                bare_end(b, e)
            },
            None => if is_bare_byte(b[i]) {
                bare_end(b, i + 1)
            } else {
                i
            },
        }
    } else {
        i
    }
}

/// What the character after a backslash stands for, when it names an escape.
pub open spec fn escaped_byte(c: u8) -> Option<u8> {
    if c == BACKSLASH || c == DQUOTE || c == SQUOTE {
        Some(c)
    } else if c == LOWER_T {
        Some(TAB)
    } else if c == LOWER_R {
        Some(CR)
    } else if c == LOWER_N {
        Some(LF)
    } else {
        None
    }
}

/// How the content of a quoted argument ends.
pub enum QuotedEnd {
    /// At the closing quote; the offset after it and the bytes of the value.
    Closed(int, Seq<u8>),
    /// The source ends before the closing quote.
    MissingQuote,
    /// The source ends right after a backslash.
    EscapeAtEnd,
}

pub open spec fn prepend_value(p: Seq<u8>, r: QuotedEnd) -> QuotedEnd {
    match r {
        QuotedEnd::Closed(end, v) => QuotedEnd::Closed(end, p + v),
        other => other,
    }
}

/// Reads the content of a quoted argument from `i` up to the quote byte `q`.
pub open spec fn scan_quoted(b: Seq<u8>, i: int, q: u8) -> QuotedEnd
    decreases b.len() - i,
{
    if i < 0 || i >= b.len() {
        QuotedEnd::MissingQuote
    } else if b[i] == q {
        QuotedEnd::Closed(i + 1, Seq::empty())
    } else if b[i] == BACKSLASH {
        if i + 1 >= b.len() {
            QuotedEnd::EscapeAtEnd
        } else {
            match escaped_byte(b[i + 1]) {
                Some(x) => prepend_value(seq![x], scan_quoted(b, i + 2, q)),
                None => prepend_value(seq![BACKSLASH, b[i + 1]], scan_quoted(b, i + 2, q)),
            }
        }
    } else {
        prepend_value(seq![b[i]], scan_quoted(b, i + 1, q))
    }
}

/// A parse error: the offset where it arose, and its contexts, innermost first.
pub struct SpecError {
    pub pos: int,
    pub contexts: Seq<ParseContext>,
}

pub enum ArgParse {
    NoArg,
    Arg(ArgView),
    Fail(SpecError),
}

/// The argument that starts at `i`, if any.
pub open spec fn parse_arg(b: Seq<u8>, i: int) -> ArgParse {
    if 0 <= i < b.len() && is_bare_start(b[i]) {
        let end = bare_end(b, i);
        ArgParse::Arg(ArgView { value: b.subrange(i, end), span: (i, end), borrowed: true })
    } else if 0 <= i < b.len() && is_quote(b[i]) {
        let kind = quote_kind(b[i]);
        let ctx = ParseContext::InQuotedArgument { quote: kind, open_quote_span: span(i, i + 1) };
        match scan_quoted(b, i + 1, b[i]) {
            QuotedEnd::Closed(end, value) => ArgParse::Arg(
                ArgView { value, span: (i, end), borrowed: false },
            ),
            QuotedEnd::MissingQuote => ArgParse::Fail(
                SpecError {
                    pos: b.len() as int,
                    contexts: seq![ParseContext::Expected(Expected::ClosingQuote(kind)), ctx],
                },
            ),
            QuotedEnd::EscapeAtEnd => ArgParse::Fail(
                SpecError { pos: b.len() as int, contexts: seq![ctx] },
            ),
        }
    } else {
        ArgParse::NoArg
    }
}

pub proof fn lemma_bare_end(b: Seq<u8>, i: int)
    requires
        0 <= i <= b.len(),
    ensures
        i <= bare_end(b, i) <= b.len(),
        i < b.len() && is_bare_byte(b[i]) ==> i < bare_end(b, i),
        bare_end(b, i) < b.len() ==> !is_bare_byte(b[bare_end(b, i)]),
    decreases b.len() - i,
{
    if i < b.len() {
        match var_end(b, i) {
            Some(e) => {
                lemma_name_end(b, i + 2);
                lemma_bare_end(b, e);
            },
            None => if is_bare_byte(b[i]) {
                lemma_bare_end(b, i + 1);
            },
        }
    }
}

pub proof fn lemma_name_end(b: Seq<u8>, i: int)
    requires
        0 <= i <= b.len(),
    ensures
        i <= name_end(b, i) <= b.len(),
        forall|k: int| i <= k < name_end(b, i) ==> is_name_byte(#[trigger] b[k]),
        name_end(b, i) < b.len() ==> !is_name_byte(b[name_end(b, i)]),
    decreases b.len() - i,
{
    if i < b.len() && is_name_byte(b[i]) {
        lemma_name_end(b, i + 1);
    }
}

pub proof fn lemma_ws_end(b: Seq<u8>, i: int, in_comment: bool)
    requires
        0 <= i <= b.len(),
    ensures
        i <= ws_end(b, i, in_comment) <= b.len(),
    decreases b.len() - i,
{
    if i < b.len() {
        if in_comment {
            lemma_ws_end(b, i + 1, !(b[i] == CR || b[i] == LF));
        } else if is_space(b[i]) {
            lemma_ws_end(b, i + 1, false);
        } else if b[i] == HASH {
            lemma_ws_end(b, i + 1, true);
        }
    }
}

pub proof fn lemma_scan_quoted(b: Seq<u8>, i: int, q: u8)
    requires
        0 <= i <= b.len(),
    ensures
        scan_quoted(b, i, q) matches QuotedEnd::Closed(end, _) ==> i < end <= b.len(),
    decreases b.len() - i,
{
    if 0 <= i < b.len() && b[i] != q {
        if b[i] == BACKSLASH {
            if i + 1 < b.len() {
                lemma_scan_quoted(b, i + 2, q);
            }
        } else {
            lemma_scan_quoted(b, i + 1, q);
        }
    }
}

pub proof fn lemma_parse_arg(b: Seq<u8>, i: int)
    requires
        0 <= i <= b.len(),
    ensures
        parse_arg(b, i) matches ArgParse::Arg(a) ==> i == a.span.0 < a.span.1 <= b.len(),
{
    if 0 <= i < b.len() && is_bare_start(b[i]) {
        lemma_bare_end(b, i);
    } else if 0 <= i < b.len() && is_quote(b[i]) {
        lemma_scan_quoted(b, i + 1, b[i]);
    }
}

/// The arguments of a directive header, from the end of the name `p` on:
/// each is preceded by whitespace. Gives them with the offset after the last.
pub open spec fn parse_args(b: Seq<u8>, p: int) -> Result<(Seq<ArgView>, int), SpecError>
    decreases b.len() - p,
{
    let q = skip_ws(b, p);
    if q <= p || q > b.len() || p < 0 {
        Ok((Seq::empty(), p))
    } else {
        match parse_arg(b, q) {
            ArgParse::NoArg => Ok((Seq::empty(), p)),
            ArgParse::Fail(e) => Err(e),
            ArgParse::Arg(a) => {
                proof {
                    lemma_parse_arg(b, q);
                }
                match parse_args(b, a.span.1) {
                    Ok((rest, end)) => Ok((seq![a] + rest, end)),
                    Err(e) => Err(e),
                }
            },
        }
    }
}

pub proof fn lemma_parse_args(b: Seq<u8>, p: int)
    requires
        0 <= p <= b.len(),
    ensures
        parse_args(b, p) matches Ok((_, end)) ==> p <= end <= b.len(),
    decreases b.len() - p,
{
    let q = skip_ws(b, p);
    lemma_ws_end(b, p, false);
    if q > p {
        lemma_parse_arg(b, q);
        if let ArgParse::Arg(a) = parse_arg(b, q) {
            lemma_parse_args(b, a.span.1);
        }
    }
}

/// The error raised inside a block, seen from outside it.
pub open spec fn in_block(e: SpecError, ctx: ParseContext) -> SpecError {
    SpecError { pos: e.pos, contexts: e.contexts.push(ctx) }
}

/// The directive whose name starts at `start`, allocated after the
/// directives in `nodes` (and after its own children); gives the arena and
/// the offset after the directive.
pub open spec fn parse_directive(b: Seq<u8>, start: int, nodes: Seq<DirectiveView>) -> Result<
    (Seq<DirectiveView>, int),
    SpecError,
>
    decreases b.len() - start, 0int,
{
    let ne = name_end(b, start);
    if !(0 <= start <= b.len()) {
        Err(SpecError { pos: start, contexts: Seq::empty() })
    } else {
        match parse_args(b, ne) {
            Err(e) => Err(e),
            Ok((args, he)) => {
                let p = skip_ws(b, he);
                let name = b.subrange(start, ne);
                if 0 <= p < b.len() && b[p] == LBRACE {
                    let ctx = ParseContext::InBlock {
                        name_span: span(start, ne),
                        open_brace_span: span(p, p + 1),
                    };
                    let c = skip_ws(b, p + 1);
                    proof {
                        lemma_name_end(b, start);
                        lemma_parse_args(b, ne);
                        lemma_ws_end(b, he, false);
                        lemma_ws_end(b, p + 1, false);
                    }
                    match parse_directives(b, c, nodes) {
                        Err(e) => Err(in_block(e, ctx)),
                        Ok((nodes2, children, q)) => if 0 <= q < b.len() && b[q] == RBRACE {
                            let d = DirectiveView {
                                name,
                                name_span: (start, ne),
                                args,
                                header_span: (start, he),
                                kind: KindView::Block {
                                    children,
                                    open_brace_span: (p, p + 1),
                                    close_brace_span: (q, q + 1),
                                },
                                parent: None,
                                span: (start, q + 1),
                            };
                            Ok((nodes2.push(d), q + 1))
                        } else {
                            Err(
                                SpecError {
                                    pos: q,
                                    contexts: seq![
                                        ParseContext::Expected(Expected::ClosingBrace),
                                        ctx,
                                    ],
                                },
                            )
                        },
                    }
                } else if 0 <= p < b.len() && b[p] == SEMICOLON {
                    let d = DirectiveView {
                        name,
                        name_span: (start, ne),
                        args,
                        header_span: (start, he),
                        kind: KindView::Simple { semicolon_span: (p, p + 1) },
                        parent: None,
                        span: (start, p + 1),
                    };
                    Ok((nodes.push(d), p + 1))
                } else {
                    Err(
                        SpecError {
                            pos: p,
                            contexts: seq![ParseContext::Expected(Expected::DirectiveTerminator)],
                        },
                    )
                }
            },
        }
    }
}

/// The header of the directive whose name starts at `start` is followed by
/// `{` (so that the directive parses its children before it can fail).
pub open spec fn opens_block(b: Seq<u8>, start: int) -> bool {
    match parse_args(b, name_end(b, start)) {
        Ok((_, he)) => {
            let p = skip_ws(b, he);
            0 <= p < b.len() && b[p] == LBRACE
        },
        Err(_) => false,
    }
}

/// The directives that follow one another from `i`, each followed by
/// whitespace; gives the arena, the indices of these directives in it, and
/// the offset where they end. A directive that consumed nothing would be an
/// error, as `winnow`'s `repeat` makes it; no directive does.
pub open spec fn parse_directives(b: Seq<u8>, i: int, nodes: Seq<DirectiveView>) -> Result<
    (Seq<DirectiveView>, Seq<nat>, int),
    SpecError,
>
    decreases b.len() - i, 1int,
{
    if 0 <= i < b.len() && is_name_byte(b[i]) {
        match parse_directive(b, i, nodes) {
            Err(e) => Err(e),
            Ok((nodes2, end)) => {
                let j = skip_ws(b, end);
                if j <= i || j > b.len() {
                    Err(SpecError { pos: i, contexts: Seq::empty() })
                } else {
                    match parse_directives(b, j, nodes2) {
                        Err(e) => Err(e),
                        Ok((nodes3, ids, k)) => Ok(
                            (nodes3, seq![(nodes2.len() - 1) as nat] + ids, k),
                        ),
                    }
                }
            },
        }
    } else {
        Ok((nodes, Seq::empty(), i))
    }
}

/// A whole configuration: the arena of its directives (with no parents set)
/// and the indices of the top-level ones, or the error that stops it.
pub open spec fn parse_config(b: Seq<u8>) -> Result<(Seq<DirectiveView>, Seq<nat>), SpecError> {
    match parse_directives(b, skip_ws(b, 0), Seq::empty()) {
        Err(e) => Err(e),
        Ok((nodes, roots, j)) => if j == b.len() {
            Ok((nodes, roots))
        } else {
            Err(
                SpecError { pos: j, contexts: seq![ParseContext::Expected(Expected::DirectiveName)] },
            )
        },
    }
}

/// How many of the first `n` bytes of `b` are `;` or `}`: every directive
/// ends with one of them, so this bounds how many directives precede `n`.
pub open spec fn terminators(b: Seq<u8>, n: int) -> nat
    decreases n,
{
    if n <= 0 {
        0
    } else {
        terminators(b, n - 1) + if b[n - 1] == SEMICOLON || b[n - 1] == RBRACE {
            1nat
        } else {
            0nat
        }
    }
}

pub proof fn lemma_terminators_mono(b: Seq<u8>, i: int, j: int)
    requires
        i <= j,
    ensures
        terminators(b, i) <= terminators(b, j),
    decreases j - i,
{
    if i < j {
        lemma_terminators_mono(b, i, j - 1);
    }
}

} // verus!
