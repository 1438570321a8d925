//! The parser: reads a configuration into a [`ConfigAst`] or a [`SyntaxError`].
//!
//! It follows the grammar of [`grammar`] over the UTF-8 bytes of the source,
//! one function per rule, and allocates each directive in the arena once its
//! children are parsed.

pub mod forest;
pub mod grammar;
pub mod laws;
pub mod written;

use crate::arena::{arena_alloc, arena_new};
use crate::ast::{
    ids_view, arena_view, ConfigView, Arg, ConfigAst, Directive, DirectiveHeader, DirectiveId, DirectiveKind,
    DirectiveView, ArgView,
};
use crate::error::context::{
    err_mode_backtrack, err_mode_cut, err_mode_cuts, err_mode_inner, Expected, ParseContext, ParseContextError,
    QuoteKind,
};
use crate::error::{blocks_in, lemma_first_block_in, SyntaxError};
use crate::text::{char_boundary, lemma_boundary_after_ascii, lemma_encode_utf8_concat, substring};
use grammar::{
    bare_end, escaped_byte, is_bare_byte, opens_block, is_name_byte, is_quote, name_end, parse_arg,
    parse_args, parse_config, parse_directive, parse_directives, prepend_value, quote_kind,
    scan_quoted, skip_ws, span, terminators, ws_end, ArgParse, QuotedEnd, SpecError, BACKSLASH, CR, DQUOTE,
    DOLLAR, FORM_FEED, HASH, LBRACE, LF, LOWER_N, LOWER_R, LOWER_T, RBRACE, SEMICOLON, SPACE, SQUOTE, TAB,
    UNDERSCORE,
};
use la_arena::Arena;
use std::borrow::Cow;
use vstd::prelude::*;
use vstd::string::{StringExecFns, StringSliceAdditionalSpecFns};
use vstd::utf8::{encode_utf8, valid_utf8};
use winnow::error::ErrMode;

verus! {

broadcast use vstd::utf8::group_utf8_lib;

/// The error `e` is the one the grammar raises as `se`.
pub open spec fn error_is(e: ParseContextError, se: SpecError) -> bool {
    &&& e.span.start == se.pos
    &&& e.span.end == se.pos
    &&& e.contexts() == se.contexts
}

/// The error arises at a boundary of the source `b` and names blocks within it.
pub open spec fn error_in(b: Seq<u8>, se: SpecError) -> bool {
    char_boundary(b, se.pos) && blocks_in(b, se.contexts)
}

pub open spec fn args_view(args: Seq<Arg<'_>>) -> Seq<ArgView> {
    args.map_values(|a: Arg<'_>| a@)
}

pub open spec fn prepend_args(pre: Seq<ArgView>, r: Result<(Seq<ArgView>, int), SpecError>) -> Result<
    (Seq<ArgView>, int),
    SpecError,
> {
    match r {
        Ok((rest, end)) => Ok((pre + rest, end)),
        Err(e) => Err(e),
    }
}

pub open spec fn prepend_ids(
    pre: Seq<nat>,
    r: Result<(Seq<DirectiveView>, Seq<nat>, int), SpecError>,
) -> Result<(Seq<DirectiveView>, Seq<nat>, int), SpecError> {
    match r {
        Ok((nodes, ids, end)) => Ok((nodes, pre + ids, end)),
        Err(e) => Err(e),
    }
}

proof fn lemma_prepend_value_assoc(a: Seq<u8>, b: Seq<u8>, r: QuotedEnd)
    ensures
        prepend_value(a, prepend_value(b, r)) == prepend_value(a + b, r),
{
    if let QuotedEnd::Closed(end, v) = r {
        assert(a + (b + v) =~= (a + b) + v);
    }
}

/// Bytes that are neither the quote nor a backslash stand for themselves.
proof fn lemma_scan_run(b: Seq<u8>, i: int, j: int, q: u8)
    requires
        0 <= i <= j <= b.len(),
        forall|k: int| i <= k < j ==> #[trigger] b[k] != q && b[k] != BACKSLASH,
    ensures
        scan_quoted(b, i, q) == prepend_value(b.subrange(i, j), scan_quoted(b, j, q)),
    decreases j - i,
{
    if i == j {
        if let QuotedEnd::Closed(end, v) = scan_quoted(b, j, q) {
            assert(b.subrange(i, j) + v =~= v);
        }
    } else {
        lemma_scan_run(b, i + 1, j, q);
        lemma_prepend_value_assoc(seq![b[i]], b.subrange(i + 1, j), scan_quoted(b, j, q));
        assert(seq![b[i]] + b.subrange(i + 1, j) =~= b.subrange(i, j));
    }
}

/// The literals that the escapes `\t`, `\r` and `\n` stand for.
proof fn lemma_ascii_literal(piece: &str, x: u8)
    requires
        (piece == "\t" && x == TAB) || (piece == "\r" && x == CR) || (piece == "\n" && x == LF),
    ensures
        encode_utf8(piece@) =~= seq![x],
{
    reveal_strlit("\t");
    reveal_strlit("\r");
    reveal_strlit("\n");
    vstd::utf8::is_ascii_chars_encode_utf8(piece@);
}

fn skip_ws_at(bytes: &[u8], i: usize) -> (r: usize)
    requires
        valid_utf8(bytes@),
        char_boundary(bytes@, i as int),
    ensures
        r == skip_ws(bytes@, i as int),
        char_boundary(bytes@, r as int),
{
    let mut j = i;
    let mut in_comment = false;
    while j < bytes.len()
        invariant
            valid_utf8(bytes@),
            j <= bytes@.len(),
            ws_end(bytes@, i as int, false) == ws_end(bytes@, j as int, in_comment),
            !in_comment ==> char_boundary(bytes@, j as int),
        decreases bytes@.len() - j,
    {
        let c = bytes[j];
        if in_comment {
            in_comment = !(c == CR || c == LF);
            proof {
                if !in_comment {
                    lemma_boundary_after_ascii(bytes@, j as int);
                }
            }
        } else if c == SPACE || c == TAB || c == CR || c == LF {
            proof {
                lemma_boundary_after_ascii(bytes@, j as int);
            }
        } else if c == HASH {
            in_comment = true;
        } else {
            return j;
        }
        j = j + 1;
    }
    j
}

fn name_end_at(bytes: &[u8], i: usize) -> (r: usize)
    requires
        i <= bytes@.len(),
    ensures
        r == name_end(bytes@, i as int),
{
    let mut j = i;
    while j < bytes.len()
        invariant
            i <= j <= bytes@.len(),
            name_end(bytes@, i as int) == name_end(bytes@, j as int),
        decreases bytes@.len() - j,
    {
        let c = bytes[j];
        if !((0x30 <= c && c <= 0x39) || (0x41 <= c && c <= 0x5A) || (0x61 <= c && c <= 0x7A)
            || c == UNDERSCORE) {
            return j;
        }
        j = j + 1;
    }
    j
}

fn is_bare(c: u8) -> (r: bool)
    ensures
        r == is_bare_byte(c),
{
    !(c == SPACE || c == TAB || c == CR || c == LF || c == FORM_FEED) && c != SEMICOLON && c
        != LBRACE
}

fn bare_end_at(bytes: &[u8], i: usize) -> (r: usize)
    requires
        i <= bytes@.len(),
    ensures
        r == bare_end(bytes@, i as int),
{
    let mut j = i;
    while j < bytes.len()
        invariant
            i <= j <= bytes@.len(),
            bare_end(bytes@, i as int) == bare_end(bytes@, j as int),
        decreases bytes@.len() - j,
    {
        if bytes[j] == DOLLAR && j + 1 < bytes.len() && bytes[j + 1] == LBRACE {
            let k = name_end_at(bytes, j + 2);
            if k < bytes.len() && bytes[k] == RBRACE {
                proof {
                    grammar::lemma_name_end(bytes@, j + 2);
                }
                j = k + 1;
                continue;
            }
        }
        if !is_bare(bytes[j]) {
            return j;
        }
        j = j + 1;
    }
    j
}

/// Reads the content of a quoted argument from `i`, the offset after the
/// opening quote `q`: the offset after the closing quote and the unescaped
/// value, or whether the closing quote was expected (`true`) or a character
/// after a final backslash (`false`).
fn scan_quoted_at(source: &str, bytes: &[u8], i: usize, q: u8) -> (r: Result<(usize, String), bool>)
    requires
        bytes@ == source.spec_bytes(),
        char_boundary(bytes@, i as int),
        is_quote(q),
    ensures
        match scan_quoted(bytes@, i as int, q) {
            QuotedEnd::Closed(end, value) => r matches Ok((e, s)) && e == end && encode_utf8(s@)
                == value && char_boundary(bytes@, end),
            QuotedEnd::MissingQuote => r == Err::<(usize, String), bool>(true),
            QuotedEnd::EscapeAtEnd => r == Err::<(usize, String), bool>(false),
        },
{
    let ghost b = bytes@;
    let mut acc = String::new();
    let mut j = i;
    proof {
        assert(encode_utf8(acc@) =~= Seq::<u8>::empty());
        if let QuotedEnd::Closed(end, v) = scan_quoted(b, i as int, q) {
            assert(Seq::<u8>::empty() + v =~= v);
        }
    }
    while j < bytes.len()
        invariant
            b == bytes@,
            b == source.spec_bytes(),
            valid_utf8(b),
            is_quote(q),
            char_boundary(b, j as int),
            scan_quoted(b, i as int, q) == prepend_value(encode_utf8(acc@), scan_quoted(b, j as int, q)),
        decreases b.len() - j,
    {
        let c = bytes[j];
        if c == q {
            proof {
                lemma_boundary_after_ascii(b, j as int);
                assert(encode_utf8(acc@) + Seq::<u8>::empty() =~= encode_utf8(acc@));
            }
            return Ok((j + 1, acc));
        } else if c == BACKSLASH {
            if j + 1 >= bytes.len() {
                return Err(false);
            }
            let d = bytes[j + 1];
            proof {
                lemma_boundary_after_ascii(b, j as int);
            }
            let ghost old_j = j;
            let piece: &str;
            if d == BACKSLASH || d == DQUOTE || d == SQUOTE {
                proof {
                    lemma_boundary_after_ascii(b, j + 1);
                }
                piece = substring(source, j + 1, j + 2);
                proof {
                    assert(piece.spec_bytes() =~= seq![d]);
                }
                j = j + 2;
            } else if d == LOWER_T || d == LOWER_R || d == LOWER_N {
                proof {
                    lemma_boundary_after_ascii(b, j + 1);
                }
                piece = if d == LOWER_T {
                    "\t"
                } else if d == LOWER_R {
                    "\r"
                } else {
                    "\n"
                };
                proof {
                    lemma_ascii_literal(piece, escaped_byte(d).unwrap());
                }
                j = j + 2;
            } else {
                piece = substring(source, j, j + 1);
                proof {
                    assert(piece.spec_bytes() =~= seq![BACKSLASH]);
                    // the byte after the backslash is read as an ordinary one
                    assert(scan_quoted(b, j + 1, q) == prepend_value(
                        seq![d],
                        scan_quoted(b, j + 2, q),
                    ));
                    lemma_prepend_value_assoc(seq![BACKSLASH], seq![d], scan_quoted(b, j + 2, q));
                    assert(seq![BACKSLASH] + seq![d] =~= seq![BACKSLASH, d]);
                }
                j = j + 1;
            }
            proof {
                assert(scan_quoted(b, old_j as int, q) == prepend_value(
                    encode_utf8(piece@),
                    scan_quoted(b, j as int, q),
                ));
            }
            let ghost old_acc = acc@;
            acc.append(piece);
            proof {
                lemma_encode_utf8_concat(old_acc, piece@);
                lemma_prepend_value_assoc(
                    encode_utf8(old_acc),
                    encode_utf8(piece@),
                    scan_quoted(b, j as int, q),
                );
            }
        } else {
            let mut k = j;
            while k < bytes.len() && bytes[k] != q && bytes[k] != BACKSLASH
                invariant
                    b == bytes@,
                    j <= k <= b.len(),
                    forall|m: int| j <= m < k ==> #[trigger] b[m] != q && b[m] != BACKSLASH,
                decreases b.len() - k,
            {
                k = k + 1;
            }
            let piece = substring(source, j, k);
            let ghost old_acc = acc@;
            acc.append(piece);
            proof {
                lemma_scan_run(b, j as int, k as int, q);
                lemma_encode_utf8_concat(old_acc, piece@);
                lemma_prepend_value_assoc(
                    encode_utf8(old_acc),
                    encode_utf8(piece@),
                    scan_quoted(b, k as int, q),
                );
            }
            j = k;
        }
    }
    Err(true)
}

/// The argument that starts at `i`, if any: a bare run of bytes and variable
/// references borrowed from the source, or a quoted one with its escapes
/// replaced.
fn parse_arg_at<'s>(source: &'s str, bytes: &[u8], i: usize) -> (r: Result<
    Option<Arg<'s>>,
    ParseContextError,
>)
    requires
        bytes@ == source.spec_bytes(),
        char_boundary(bytes@, i as int),
    ensures
        match parse_arg(bytes@, i as int) {
            ArgParse::NoArg => r matches Ok(None),
            ArgParse::Arg(a) => r matches Ok(Some(x)) && x@ == a && char_boundary(bytes@, a.span.1),
            ArgParse::Fail(se) => r matches Err(e) && error_is(e, se) && error_in(bytes@, se),
        },
{
    let ghost b = bytes@;
    if i < bytes.len() && is_bare(bytes[i]) && bytes[i] != RBRACE && bytes[i] != DQUOTE
        && bytes[i] != SQUOTE && bytes[i] != HASH {
        let end = bare_end_at(bytes, i);
        proof {
            grammar::lemma_bare_end(b, i as int);
            // the byte that ends a bare argument is ASCII
            if end < b.len() {
                assert(b[end as int] < 0x80);
            }
        }
        let value = substring(source, i, end);
        Ok(Some(Arg { value: Cow::Borrowed(value), span: i..end }))
    } else if i < bytes.len() && (bytes[i] == DQUOTE || bytes[i] == SQUOTE) {
        let q = bytes[i];
        let quote = QuoteKind::from(q as char);
        proof {
            lemma_boundary_after_ascii(b, i as int);
            assert(quote == quote_kind(q));
        }
        match scan_quoted_at(source, bytes, i + 1, q) {
            Ok((end, value)) => Ok(Some(Arg { value: Cow::Owned(value), span: i..end })),
            Err(missing_quote) => {
                let ctx = ParseContext::InQuotedArgument { quote, open_quote_span: i..i + 1 };
                let e = ParseContextError::from_input(bytes.len());
                let e = if missing_quote {
                    e.add_context(ParseContext::Expected(Expected::ClosingQuote(quote)))
                } else {
                    e
                };
                let e = e.add_context(ctx);
                proof {
                    assert(e.contexts() =~= match parse_arg(b, i as int) {
                        ArgParse::Fail(se) => se.contexts,
                        _ => Seq::empty(),
                    });
                }
                Err(e)
            },
        }
    } else {
        Ok(None)
    }
}

/// The arguments of a header from the end of its name `p0`, with the offset
/// after the last of them.
fn parse_args_at<'s>(source: &'s str, bytes: &[u8], p0: usize) -> (r: Result<
    (Vec<Arg<'s>>, usize),
    ParseContextError,
>)
    requires
        bytes@ == source.spec_bytes(),
        char_boundary(bytes@, p0 as int),
    ensures
        match parse_args(bytes@, p0 as int) {
            Ok((args, end)) => r matches Ok((v, e)) && args_view(v@) == args && e == end
                && char_boundary(bytes@, end),
            Err(se) => r matches Err(e) && error_is(e, se) && error_in(bytes@, se),
        },
{
    let ghost b = bytes@;
    let mut args: Vec<Arg<'s>> = Vec::new();
    let mut p = p0;
    proof {
        assert(args_view(args@) =~= Seq::<ArgView>::empty());
        if let Ok((rest, end)) = parse_args(b, p0 as int) {
            assert(Seq::<ArgView>::empty() + rest =~= rest);
        }
    }
    loop
        invariant
            b == bytes@,
            b == source.spec_bytes(),
            p0 <= p <= b.len(),
            char_boundary(b, p as int),
            parse_args(b, p0 as int) == prepend_args(args_view(args@), parse_args(b, p as int)),
        decreases b.len() - p,
    {
        let q = skip_ws_at(bytes, p);
        if q <= p {
            proof {
                assert(args_view(args@) + Seq::<ArgView>::empty() =~= args_view(args@));
            }
            return Ok((args, p));
        }
        proof {
            grammar::lemma_parse_arg(b, q as int);
        }
        match parse_arg_at(source, bytes, q) {
            Ok(None) => {
                proof {
                    assert(args_view(args@) + Seq::<ArgView>::empty() =~= args_view(args@));
                }
                return Ok((args, p));
            },
            Err(e) => {
                return Err(e);
            },
            Ok(Some(a)) => {
                let end = a.span.end;
                let ghost av = a@;
                let ghost old_args = args@;
                args.push(a);
                proof {
                    assert(args_view(args@) =~= args_view(old_args) + seq![av]);
                    if let Ok((rest, e)) = parse_args(b, end as int) {
                        assert(args_view(old_args) + (seq![av] + rest) =~= args_view(args@)
                            + rest);
                    }
                }
                p = end;
            },
        }
    }
}

fn is_name(c: u8) -> (r: bool)
    ensures
        r == is_name_byte(c),
{
    (0x30 <= c && c <= 0x39) || (0x41 <= c && c <= 0x5A) || (0x61 <= c && c <= 0x7A) || c
        == UNDERSCORE
}

/// The directive whose name starts at `start`: its children are allocated
/// first, then the directive itself. Gives its index and the offset after it.
fn parse_directive_at<'s>(
    source: &'s str,
    bytes: &[u8],
    start: usize,
    arena: &mut Arena<Directive<'s>>,
) -> (r: Result<(DirectiveId, usize), ParseContextError>)
    requires
        bytes@ == source.spec_bytes(),
        terminators(bytes@, bytes@.len() as int) <= u32::MAX,
        start < bytes@.len(),
        is_name_byte(bytes@[start as int]),
        char_boundary(bytes@, start as int),
        arena_view(*old(arena)).len() <= terminators(bytes@, start as int),
    ensures
        match parse_directive(bytes@, start as int, arena_view(*old(arena))) {
            Ok((nodes, end)) => r matches Ok((id, e)) && e == end && arena_view(*final(arena))
                == nodes && id.index() == nodes.len() - 1 && nodes.len() <= terminators(bytes@, end)
                && char_boundary(
                bytes@,
                end,
            ),
            Err(se) => r matches Err(e) && error_is(e, se) && error_in(bytes@, se) && (!opens_block(
                bytes@,
                start as int,
            ) ==> arena_view(*final(arena)) == arena_view(*old(arena))),
        },
    decreases bytes@.len() - start, 0int,
{
    let ghost b = bytes@;
    let ghost nodes0 = arena_view(*arena);
    let ne = name_end_at(bytes, start);
    proof {
        grammar::lemma_name_end(b, start as int);
        lemma_boundary_after_ascii(b, ne - 1);
    }
    let name = substring(source, start, ne);
    let (args, he) = match parse_args_at(source, bytes, ne) {
        Ok(r) => r,
        Err(e) => {
            return Err(e);
        },
    };
    proof {
        grammar::lemma_parse_args(b, ne as int);
    }
    let p = skip_ws_at(bytes, he);
    proof {
        grammar::lemma_ws_end(b, he as int, false);
    }
    if p < bytes.len() && bytes[p] == LBRACE {
        proof {
            lemma_boundary_after_ascii(b, p as int);
        }
        let c = skip_ws_at(bytes, p + 1);
        proof {
            grammar::lemma_ws_end(b, p + 1, false);
            grammar::lemma_terminators_mono(b, start as int, c as int);
        }
        match parse_directives_at(source, bytes, c, arena) {
            Err(e) => {
                let e = e.add_context(
                    ParseContext::InBlock { name_span: start..ne, open_brace_span: p..p + 1 },
                );
                Err(e)
            },
            Ok((children, q)) => {
                if q < bytes.len() && bytes[q] == RBRACE {
                    proof {
                        lemma_boundary_after_ascii(b, q as int);
                    }
                    let header = DirectiveHeader {
                        name,
                        name_span: start..ne,
                        args,
                        span: start..he,
                    };
                    let directive = Directive {
                        header,
                        kind: DirectiveKind::Block {
                            children,
                            open_brace_span: p..p + 1,
                            close_brace_span: q..q + 1,
                        },
                        parent: None,
                        span: start..q + 1,
                    };
                    let ghost before = arena_view(*arena);
                    proof {
                        grammar::lemma_terminators_mono(b, q + 1, b.len() as int);
                        assert(terminators(b, q + 1) == terminators(b, q as int) + 1);
                    }
                    let id = arena_alloc(arena, directive);
                    proof {
                        assert(arena_view(*arena) =~= before.push(directive@));
                    }
                    Ok((id, q + 1))
                } else {
                    let e = ParseContextError::from_input(q).add_context(
                        ParseContext::Expected(Expected::ClosingBrace),
                    ).add_context(
                        ParseContext::InBlock { name_span: start..ne, open_brace_span: p..p + 1 },
                    );
                    proof {
                        assert(e.contexts() =~= seq![
                            ParseContext::Expected(Expected::ClosingBrace),
                            ParseContext::InBlock {
                                name_span: span(start as int, ne as int),
                                open_brace_span: span(p as int, p + 1),
                            },
                        ]);
                    }
                    Err(e)
                }
            },
        }
    } else if p < bytes.len() && bytes[p] == SEMICOLON {
        proof {
            lemma_boundary_after_ascii(b, p as int);
        }
        let header = DirectiveHeader { name, name_span: start..ne, args, span: start..he };
        let directive = Directive {
            header,
            kind: DirectiveKind::Simple { semicolon_span: p..p + 1 },
            parent: None,
            span: start..p + 1,
        };
        let ghost before = arena_view(*arena);
        proof {
            grammar::lemma_terminators_mono(b, start as int, p as int);
            grammar::lemma_terminators_mono(b, p + 1, b.len() as int);
            assert(terminators(b, p + 1) == terminators(b, p as int) + 1);
        }
        let id = arena_alloc(arena, directive);
        proof {
            assert(arena_view(*arena) =~= before.push(directive@));
        }
        Ok((id, p + 1))
    } else {
        let e = ParseContextError::from_input(p).add_context(
            ParseContext::Expected(Expected::DirectiveTerminator),
        );
        proof {
            assert(e.contexts() =~= seq![ParseContext::Expected(Expected::DirectiveTerminator)]);
        }
        Err(e)
    }
}

/// The directives that follow one another from `i0`, each followed by
/// whitespace. Gives their indices and the offset where they end.
fn parse_directives_at<'s>(
    source: &'s str,
    bytes: &[u8],
    i0: usize,
    arena: &mut Arena<Directive<'s>>,
) -> (r: Result<(Vec<DirectiveId>, usize), ParseContextError>)
    requires
        bytes@ == source.spec_bytes(),
        terminators(bytes@, bytes@.len() as int) <= u32::MAX,
        char_boundary(bytes@, i0 as int),
        arena_view(*old(arena)).len() <= terminators(bytes@, i0 as int),
    ensures
        match parse_directives(bytes@, i0 as int, arena_view(*old(arena))) {
            Ok((nodes, ids, end)) => r matches Ok((v, e)) && ids_view(v@) == ids && e == end
                && arena_view(*final(arena)) == nodes && nodes.len() <= terminators(bytes@, end)
                && char_boundary(
                bytes@,
                end,
            ),
            Err(se) => r matches Err(e) && error_is(e, se) && error_in(bytes@, se),
        },
    decreases bytes@.len() - i0, 1int,
{
    let ghost b = bytes@;
    let mut ids: Vec<DirectiveId> = Vec::new();
    let mut i = i0;
    proof {
        assert(ids_view(ids@) =~= Seq::<nat>::empty());
        if let Ok((nodes, rest, end)) = parse_directives(b, i0 as int, arena_view(*arena)) {
            assert(Seq::<nat>::empty() + rest =~= rest);
        }
    }
    loop
        invariant
            b == bytes@,
            b == source.spec_bytes(),
            terminators(b, b.len() as int) <= u32::MAX,
            i0 <= i <= b.len(),
            char_boundary(b, i as int),
            arena_view(*arena).len() <= terminators(b, i as int),
            parse_directives(b, i0 as int, arena_view(*old(arena))) == prepend_ids(
                ids_view(ids@),
                parse_directives(b, i as int, arena_view(*arena)),
            ),
        decreases b.len() - i,
    {
        if !(i < bytes.len() && is_name(bytes[i])) {
            proof {
                assert(ids_view(ids@) + Seq::<nat>::empty() =~= ids_view(ids@));
            }
            return Ok((ids, i));
        }
        let ghost nodes_before = arena_view(*arena);
        match parse_directive_at(source, bytes, i, arena) {
            Err(e) => {
                return Err(e);
            },
            Ok((id, end)) => {
                let j = skip_ws_at(bytes, end);
                if j <= i {
                    let e = ParseContextError::from_input(i);
                    proof {
                        assert(e.contexts() =~= Seq::<ParseContext>::empty());
                    }
                    return Err(e);
                }
                let ghost old_ids = ids@;
                ids.push(id);
                proof {
                    grammar::lemma_ws_end(b, end as int, false);
                    grammar::lemma_terminators_mono(b, end as int, j as int);
                    assert(ids_view(ids@) =~= ids_view(old_ids) + seq![id.index()]);
                    if let Ok((n3, rest, k)) = parse_directives(b, j as int, arena_view(*arena)) {
                        assert(ids_view(old_ids) + (seq![id.index()] + rest) =~= ids_view(ids@)
                            + rest);
                    }
                }
                i = j;
            },
        }
    }
}

/// A whole configuration: the indices of its top-level directives, or the
/// error that stops it, as a `winnow` error mode: an error inside a directive
/// cuts, one where a directive should start backtracks.
fn config<'s>(source: &'s str, bytes: &[u8], arena: &mut Arena<Directive<'s>>) -> (r: Result<
    Vec<DirectiveId>,
    ErrMode<ParseContextError>,
>)
    requires
        bytes@ == source.spec_bytes(),
        terminators(bytes@, bytes@.len() as int) <= u32::MAX,
        arena_view(*old(arena)) == Seq::<DirectiveView>::empty(),
    ensures
        match parse_config(bytes@) {
            Ok((nodes, roots)) => r matches Ok(v) && ids_view(v@) == roots && arena_view(
                *final(arena),
            ) == nodes,
            Err(se) => r matches Err(m) && err_mode_inner(m) matches Some(e) && error_is(e, se)
                && error_in(bytes@, se) && (err_mode_cuts(m) <==> parse_directives(
                bytes@,
                skip_ws(bytes@, 0),
                Seq::empty(),
            ) is Err),
        },
{
    proof {
        vstd::utf8::is_char_boundary_start_end_of_seq(bytes@);
    }
    let i = skip_ws_at(bytes, 0);
    match parse_directives_at(source, bytes, i, arena) {
        Err(e) => Err(err_mode_cut(e)),
        Ok((roots, j)) => {
            if j == bytes.len() {
                Ok(roots)
            } else {
                let e = ParseContextError::from_input(j).add_context(
                    ParseContext::Expected(Expected::DirectiveName),
                );
                proof {
                    assert(e.contexts() =~= seq![ParseContext::Expected(Expected::DirectiveName)]);
                }
                Err(err_mode_backtrack(e))
            }
        },
    }
}

/// Parses a configuration. On success the arena holds every directive, each
/// allocated after its children and linked to the block that lists it; the
/// roots are the top-level directives. On failure the error reports the
/// offset where the grammar stops and the contexts it stopped in.
///
/// The arena numbers directives with `u32`; every directive ends with `;` or
/// `}`, so a source with at most `u32::MAX` of those bytes fits.
pub fn parse(source: &str) -> (r: Result<ConfigAst<'_>, SyntaxError>)
    requires
        terminators(source.spec_bytes(), source.spec_bytes().len() as int) <= u32::MAX,
    ensures
        match parse_config(source.spec_bytes()) {
            Ok((nodes, roots)) => r matches Ok(ast) && ast@ == (ConfigView {
                directives: nodes,
                roots,
            }).with_parents() && ast@.wf(),
            Err(se) => r matches Err(e) && e.reports(source.spec_bytes(), se.pos, se.contexts)
                && e.names_block_in(source.spec_bytes()),
        },
{
    let bytes = source.as_bytes();
    let mut directives = arena_new();
    proof {
        assert(arena_view(directives) =~= Seq::<DirectiveView>::empty());
    }
    match config(source, bytes, &mut directives) {
        Err(error) => {
            let e = SyntaxError::from_err_mode(source, error);
            proof {
                lemma_first_block_in(bytes@, e.contexts@);
            }
            Err(e)
        },
        Ok(roots) => {
            let mut ast = ConfigAst { directives, roots };
            proof {
                forest::lemma_parsed_config_wf(bytes@);
            }
            let ghost before = ast@;
            proof {
                crate::ast::lemma_wf_forest(before);
            }
            ast.link_parents();
            proof {
                crate::ast::lemma_with_parents_wf(before);
            }
            Ok(ast)
        },
    }
}

} // verus!
