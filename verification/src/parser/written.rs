//! Configurations written out from their parts: whitespace and comments,
//! names, bare and quoted arguments, and nested blocks. What is written this
//! way from well-formed parts parses, into one directive per directive
//! written.

use crate::ast::{ArgView, DirectiveView};
use crate::parser::laws::escape_value;
use crate::parser::grammar::{
    bare_end, is_bare_byte, is_bare_start, is_name_byte, is_quote, is_space, lemma_ws_end,
    name_end, parse_arg, parse_args, parse_config, parse_directive, parse_directives, scan_quoted,
    skip_ws, ws_end, ArgParse, QuotedEnd, SpecError, BACKSLASH, CR, DOLLAR, HASH, LBRACE, LF, RBRACE,
    SEMICOLON, SPACE, TAB,
};
use vstd::prelude::*;

verus! {

/// A piece of whitespace: one blank byte, or a comment running to the end
/// of its line.
pub enum WsPiece {
    Blank(u8),
    Comment(Seq<u8>),
}

/// A piece of a quoted argument: a byte for itself, or a backslash escape.
/// Its value is the byte, or what the escape stands for.
pub enum QuotedPiece {
    Plain(u8),
    Escape(u8),
}

/// A piece of a bare argument: a byte for itself, or a variable reference
/// `${name}`.
pub enum BarePiece {
    Byte(u8),
    Var(Seq<u8>),
}

pub enum ArgSource {
    Bare(Seq<BarePiece>),
    Quoted(u8, Seq<QuotedPiece>),
}

/// A directive: its name, each argument with the whitespace before it, the
/// whitespace before its terminator, and its body.
pub struct DirectiveSource {
    pub name: Seq<u8>,
    pub args: Seq<(Seq<WsPiece>, ArgSource)>,
    pub before_body: Seq<WsPiece>,
    pub body: BodySource,
}

/// A `;`, or a block: whitespace after `{`, then directives each followed by
/// whitespace, then `}`.
pub enum BodySource {
    Semicolon,
    Block(Seq<WsPiece>, Seq<(DirectiveSource, Seq<WsPiece>)>),
}

/// A configuration: leading whitespace, then directives each followed by
/// whitespace.
pub struct ConfigSource {
    pub leading: Seq<WsPiece>,
    pub directives: Seq<(DirectiveSource, Seq<WsPiece>)>,
}

pub open spec fn write_piece(p: WsPiece) -> Seq<u8> {
    match p {
        WsPiece::Blank(c) => seq![c],
        WsPiece::Comment(text) => seq![HASH] + text + seq![LF],
    }
}

pub open spec fn write_ws(w: Seq<WsPiece>) -> Seq<u8>
    decreases w.len(),
{
    if w.len() == 0 {
        Seq::empty()
    } else {
        write_piece(w[0]) + write_ws(w.drop_first())
    }
}

pub open spec fn write_quoted_pieces(u: Seq<QuotedPiece>) -> Seq<u8>
    decreases u.len(),
{
    if u.len() == 0 {
        Seq::empty()
    } else {
        (match u[0] {
            QuotedPiece::Plain(c) => seq![c],
            QuotedPiece::Escape(c) => seq![BACKSLASH, c],
        }) + write_quoted_pieces(u.drop_first())
    }
}

pub open spec fn write_bare_piece(u: BarePiece) -> Seq<u8> {
    match u {
        BarePiece::Byte(c) => seq![c],
        BarePiece::Var(name) => seq![DOLLAR, LBRACE] + name + seq![RBRACE],
    }
}

pub open spec fn write_bare(u: Seq<BarePiece>) -> Seq<u8>
    decreases u.len(),
{
    if u.len() == 0 {
        Seq::empty()
    } else {
        write_bare_piece(u[0]) + write_bare(u.drop_first())
    }
}

/// The value of written quoted pieces.
pub open spec fn unescape_pieces(u: Seq<QuotedPiece>) -> Seq<u8>
    decreases u.len(),
{
    if u.len() == 0 {
        Seq::empty()
    } else {
        (match u[0] {
            QuotedPiece::Plain(c) => seq![c],
            QuotedPiece::Escape(c) => escape_value(c),
        }) + unescape_pieces(u.drop_first())
    }
}

/// The value of a written argument: a bare one stands for its bytes, a
/// quoted one for its unescaped pieces, whichever the quote.
pub open spec fn arg_value(a: ArgSource) -> Seq<u8> {
    match a {
        ArgSource::Bare(pieces) => write_bare(pieces),
        ArgSource::Quoted(_, pieces) => unescape_pieces(pieces),
    }
}

pub open spec fn write_arg(a: ArgSource) -> Seq<u8> {
    match a {
        ArgSource::Bare(pieces) => write_bare(pieces),
        ArgSource::Quoted(q, pieces) => seq![q] + write_quoted_pieces(pieces) + seq![q],
    }
}

pub open spec fn write_args(args: Seq<(Seq<WsPiece>, ArgSource)>) -> Seq<u8>
    decreases args.len(),
{
    if args.len() == 0 {
        Seq::empty()
    } else {
        write_ws(args[0].0) + write_arg(args[0].1) + write_args(args.drop_first())
    }
}

pub open spec fn write_directive(d: DirectiveSource) -> Seq<u8>
    decreases d,
{
    d.name + write_args(d.args) + write_ws(d.before_body) + match d.body {
        BodySource::Semicolon => seq![SEMICOLON],
        BodySource::Block(w, children) => seq![LBRACE] + write_ws(w) + write_directives(children)
            + seq![RBRACE],
    }
}

pub open spec fn write_directives(s: Seq<(DirectiveSource, Seq<WsPiece>)>) -> Seq<u8>
    decreases s,
{
    if s.len() == 0 {
        Seq::empty()
    } else {
        write_directive(s[0].0) + write_ws(s[0].1) + write_directives(s.drop_first())
    }
}

pub open spec fn write_config(c: ConfigSource) -> Seq<u8> {
    write_ws(c.leading) + write_directives(c.directives)
}

/// The number of directives written, nested ones included.
pub open spec fn count_directive(d: DirectiveSource) -> nat
    decreases d,
{
    1 + match d.body {
        BodySource::Semicolon => 0,
        BodySource::Block(_, children) => count_directives(children),
    }
}

pub open spec fn count_directives(s: Seq<(DirectiveSource, Seq<WsPiece>)>) -> nat
    decreases s,
{
    if s.len() == 0 {
        0
    } else {
        count_directive(s[0].0) + count_directives(s.drop_first())
    }
}

/// Blank bytes are whitespace; a comment holds no line break.
pub open spec fn wf_ws(w: Seq<WsPiece>) -> bool {
    forall|k: int|
        0 <= k < w.len() ==> match #[trigger] w[k] {
            WsPiece::Blank(c) => is_space(c),
            WsPiece::Comment(text) => forall|m: int|
                0 <= m < text.len() ==> #[trigger] text[m] != CR && text[m] != LF,
        }
}

/// A byte of the text of a comment that may follow a bare argument right
/// away: a space, a tab, or a byte that may start a bare argument.
pub open spec fn is_word_byte(c: u8) -> bool {
    c == SPACE || c == TAB || is_bare_start(c)
}

/// What may follow a bare argument: nothing, a blank, or a comment whose
/// text holds only word bytes (its words are then read as arguments).
pub open spec fn may_follow_bare(w: Seq<WsPiece>) -> bool {
    w.len() == 0 || match w[0] {
        WsPiece::Blank(_) => true,
        WsPiece::Comment(text) => forall|m: int|
            0 <= m < text.len() ==> is_word_byte(#[trigger] text[m]),
    }
}

/// The pieces of a bare argument: plain bytes other than `$`, and variable
/// references whose names are made of name bytes.
pub open spec fn wf_bare_pieces(u: Seq<BarePiece>) -> bool {
    forall|m: int|
        0 <= m < u.len() ==> match #[trigger] u[m] {
            BarePiece::Byte(c) => is_bare_byte(c) && c != DOLLAR,
            BarePiece::Var(name) => forall|k: int|
                0 <= k < name.len() ==> is_name_byte(#[trigger] name[k]),
        }
}

/// A bare argument is a non-empty run of pieces whose first byte may start
/// one; a quoted one is between two equal quotes, with no unescaped quote
/// or backslash inside.
pub open spec fn wf_arg(a: ArgSource) -> bool {
    match a {
        ArgSource::Bare(pieces) => pieces.len() > 0 && wf_bare_pieces(pieces) && match pieces[0] {
            BarePiece::Byte(c) => is_bare_start(c),
            BarePiece::Var(_) => true,
        },
        ArgSource::Quoted(q, pieces) => is_quote(q) && forall|m: int|
            0 <= m < pieces.len() ==> match #[trigger] pieces[m] {
                QuotedPiece::Plain(c) => c != q && c != BACKSLASH,
                QuotedPiece::Escape(_) => true,
            },
    }
}

/// Each argument is preceded by some whitespace, and what follows a bare
/// argument may follow it.
pub open spec fn wf_args(args: Seq<(Seq<WsPiece>, ArgSource)>, after: Seq<WsPiece>) -> bool
    decreases args.len(),
{
    if args.len() == 0 {
        true
    } else {
        let next = if args.len() > 1 {
            args[1].0
        } else {
            after
        };
        &&& args[0].0.len() > 0
        &&& wf_ws(args[0].0)
        &&& wf_arg(args[0].1)
        &&& (args[0].1 is Bare ==> may_follow_bare(next))
        &&& wf_args(args.drop_first(), after)
    }
}

pub open spec fn wf_directive(d: DirectiveSource) -> bool
    decreases d,
{
    &&& d.name.len() > 0
    &&& forall|m: int| 0 <= m < d.name.len() ==> is_name_byte(#[trigger] d.name[m])
    &&& wf_args(d.args, d.before_body)
    &&& wf_ws(d.before_body)
    &&& match d.body {
        BodySource::Semicolon => true,
        BodySource::Block(w, children) => wf_ws(w) && wf_directives(children),
    }
}

pub open spec fn wf_directives(s: Seq<(DirectiveSource, Seq<WsPiece>)>) -> bool
    decreases s,
{
    s.len() == 0 || (wf_directive(s[0].0) && wf_ws(s[0].1) && wf_directives(s.drop_first()))
}

/// The bytes `r` stand in `b` from offset `i` on.
pub open spec fn occurs_at(b: Seq<u8>, i: int, r: Seq<u8>) -> bool {
    0 <= i && i + r.len() <= b.len() && b.subrange(i, i + r.len()) == r
}

proof fn lemma_occurs_split(b: Seq<u8>, i: int, x: Seq<u8>, y: Seq<u8>)
    requires
        occurs_at(b, i, x + y),
    ensures
        occurs_at(b, i, x),
        occurs_at(b, i + x.len(), y),
{
    let s = b.subrange(i, i + (x + y).len());
    assert(b.subrange(i, i + x.len()) =~= s.subrange(0, x.len() as int));
    assert(s.subrange(0, x.len() as int) =~= x);
    assert(b.subrange(i + x.len(), i + x.len() + y.len()) =~= s.subrange(
        x.len() as int,
        (x.len() + y.len()) as int,
    ));
    assert(s.subrange(x.len() as int, (x.len() + y.len()) as int) =~= y);
}

proof fn lemma_occurs_byte(b: Seq<u8>, i: int, r: Seq<u8>, k: int)
    requires
        occurs_at(b, i, r),
        0 <= k < r.len(),
    ensures
        b[i + k] == r[k],
{
    assert(b.subrange(i, i + r.len())[k] == b[i + k]);
}

/// The byte after offset `e` cannot continue whitespace.
pub open spec fn ends_ws(b: Seq<u8>, e: int) -> bool {
    e == b.len() || (e < b.len() && !is_space(b[e]) && b[e] != HASH)
}

proof fn lemma_comment(b: Seq<u8>, i: int, text: Seq<u8>)
    requires
        occurs_at(b, i, text),
        forall|m: int| 0 <= m < text.len() ==> #[trigger] text[m] != CR && text[m] != LF,
    ensures
        ws_end(b, i, true) == ws_end(b, i + text.len(), true),
    decreases text.len(),
{
    if text.len() > 0 {
        assert(seq![text[0]] + text.drop_first() =~= text);
        lemma_occurs_split(b, i, seq![text[0]], text.drop_first());
        lemma_occurs_byte(b, i, text, 0);
        lemma_comment(b, i + 1, text.drop_first());
    }
}

/// Skipping whitespace from written whitespace stops right after it.
proof fn lemma_skip_written_ws(b: Seq<u8>, i: int, w: Seq<WsPiece>)
    requires
        wf_ws(w),
        occurs_at(b, i, write_ws(w)),
        ends_ws(b, i + write_ws(w).len()),
    ensures
        skip_ws(b, i) == i + write_ws(w).len(),
    decreases w.len(),
{
    if w.len() > 0 {
        let first = write_piece(w[0]);
        let rest = w.drop_first();
        assert forall|k: int| 0 <= k < rest.len() implies match #[trigger] rest[k] {
            WsPiece::Blank(c) => is_space(c),
            WsPiece::Comment(text) => forall|m: int|
                0 <= m < text.len() ==> #[trigger] text[m] != CR && text[m] != LF,
        } by {
            assert(rest[k] == w[k + 1]);
        }
        lemma_occurs_split(b, i, first, write_ws(rest));
        lemma_skip_written_ws(b, i + first.len(), rest);
        match w[0] {
            WsPiece::Blank(c) => {
                lemma_occurs_byte(b, i, first, 0);
            },
            WsPiece::Comment(text) => {
                lemma_occurs_split(b, i, seq![HASH] + text, seq![LF]);
                lemma_occurs_split(b, i, seq![HASH], text);
                lemma_occurs_byte(b, i, seq![HASH], 0);
                lemma_occurs_byte(b, i + 1 + text.len(), seq![LF], 0);
                lemma_comment(b, i + 1, text);
            },
        }
    } else {
    }
}

proof fn lemma_name_run(b: Seq<u8>, i: int, name: Seq<u8>)
    requires
        occurs_at(b, i, name),
        forall|m: int| 0 <= m < name.len() ==> is_name_byte(#[trigger] name[m]),
        i + name.len() == b.len() || !is_name_byte(b[i + name.len()]),
    ensures
        name_end(b, i) == i + name.len(),
    decreases name.len(),
{
    if name.len() > 0 {
        assert(seq![name[0]] + name.drop_first() =~= name);
        lemma_occurs_split(b, i, seq![name[0]], name.drop_first());
        lemma_occurs_byte(b, i, name, 0);
        lemma_name_run(b, i + 1, name.drop_first());
    } else if i < b.len() {
    }
}

proof fn lemma_quoted_run(b: Seq<u8>, i: int, q: u8, pieces: Seq<QuotedPiece>)
    requires
        occurs_at(b, i, write_quoted_pieces(pieces) + seq![q]),
        is_quote(q),
        forall|m: int|
            0 <= m < pieces.len() ==> match #[trigger] pieces[m] {
                QuotedPiece::Plain(c) => c != q && c != BACKSLASH,
                QuotedPiece::Escape(_) => true,
            },
    ensures
        scan_quoted(b, i, q) matches QuotedEnd::Closed(end, v) && end == i
            + write_quoted_pieces(pieces).len() + 1 && v == unescape_pieces(pieces),
    decreases pieces.len(),
{
    let w = write_quoted_pieces(pieces);
    lemma_occurs_split(b, i, w, seq![q]);
    if pieces.len() == 0 {
        lemma_occurs_byte(b, i, seq![q], 0);
    } else {
        let rest = pieces.drop_first();
        assert forall|m: int| 0 <= m < rest.len() implies match #[trigger] rest[m] {
            QuotedPiece::Plain(c) => c != q && c != BACKSLASH,
            QuotedPiece::Escape(_) => true,
        } by {
            assert(rest[m] == pieces[m + 1]);
        }
        let head = match pieces[0] {
            QuotedPiece::Plain(c) => seq![c],
            QuotedPiece::Escape(c) => seq![BACKSLASH, c],
        };
        assert(w =~= head + write_quoted_pieces(rest));
        assert(head + (write_quoted_pieces(rest) + seq![q]) =~= w + seq![q]);
        lemma_occurs_split(b, i, head, write_quoted_pieces(rest) + seq![q]);
        lemma_occurs_byte(b, i, head, 0);
        lemma_quoted_run(b, i + head.len(), q, rest);
        if let QuotedPiece::Escape(c) = pieces[0] {
            lemma_occurs_byte(b, i, head, 1);
            assert(i + 1 < b.len());
        } else {
            assert(b[i] != q && b[i] != BACKSLASH);
        }
    }
}

/// Reading a bare argument through written pieces reaches their end.
proof fn lemma_bare_pieces(b: Seq<u8>, i: int, u: Seq<BarePiece>)
    requires
        occurs_at(b, i, write_bare(u)),
        wf_bare_pieces(u),
    ensures
        bare_end(b, i) == bare_end(b, i + write_bare(u).len()),
    decreases u.len(),
{
    if u.len() > 0 {
        let head = write_bare_piece(u[0]);
        let rest = u.drop_first();
        assert forall|m: int| 0 <= m < rest.len() implies match #[trigger] rest[m] {
            BarePiece::Byte(c) => is_bare_byte(c) && c != DOLLAR,
            BarePiece::Var(name) => forall|k: int|
                0 <= k < name.len() ==> is_name_byte(#[trigger] name[k]),
        } by {
            assert(rest[m] == u[m + 1]);
        }
        lemma_occurs_split(b, i, head, write_bare(rest));
        lemma_bare_pieces(b, i + head.len(), rest);
        lemma_occurs_byte(b, i, head, 0);
        if let BarePiece::Var(name) = u[0] {
            assert(head =~= seq![DOLLAR, LBRACE] + (name + seq![RBRACE]));
            lemma_occurs_split(b, i, seq![DOLLAR, LBRACE], name + seq![RBRACE]);
            lemma_occurs_split(b, i + 2, name, seq![RBRACE]);
            lemma_occurs_byte(b, i, seq![DOLLAR, LBRACE], 1);
            lemma_occurs_byte(b, i + 2 + name.len(), seq![RBRACE], 0);
            lemma_name_run(b, i + 2, name);
        }
    }
}

/// From `k` on, up to the line break at `j`, spaces, tabs and word bytes: a
/// bare argument read from `k` stops at the next space, tab or the break.
proof fn lemma_word_run(b: Seq<u8>, k: int, j: int)
    requires
        0 <= k <= j < b.len(),
        b[j] == LF,
        forall|m: int| k <= m < j ==> is_word_byte(#[trigger] b[m]),
    ensures
        k <= bare_end(b, k) <= j,
        bare_end(b, k) == j || b[bare_end(b, k)] == SPACE || b[bare_end(b, k)] == TAB,
    decreases j - k,
{
    if k < j && is_bare_start(b[k]) {
        assert(k + 1 == j || is_word_byte(b[k + 1]));
        lemma_word_run(b, k + 1, j);
    }
}

/// From a word boundary `i` up to the line break at `j`, the words are read
/// as arguments, after which reading goes on as it does from `j`.
proof fn lemma_words(b: Seq<u8>, i: int, j: int, e: int)
    requires
        0 <= i <= j < b.len(),
        b[j] == LF,
        forall|m: int| i <= m < j ==> is_word_byte(#[trigger] b[m]),
        i == j || b[i] == SPACE || b[i] == TAB,
        parse_args(b, j) matches Ok((_, end)) && skip_ws(b, end) == e,
    ensures
        parse_args(b, i) matches Ok((_, end)) && skip_ws(b, end) == e,
    decreases j - i,
{
    if i < j {
        assert(i + 1 == j || is_word_byte(b[i + 1]));
        if i + 1 < j && is_bare_start(b[i + 1]) {
            assert(ws_end(b, i + 1, false) == i + 1);
            assert(skip_ws(b, i) == i + 1);
            lemma_word_run(b, i + 1, j);
            lemma_words(b, bare_end(b, i + 1), j, e);
        } else {
            lemma_words(b, i + 1, j, e);
            lemma_ws_end(b, i + 2, false);
            assert(skip_ws(b, i) == skip_ws(b, i + 1));
        }
    }
}

/// The whitespace before the next argument, or before the terminator when
/// there is none.
pub open spec fn next_ws(rest: Seq<(Seq<WsPiece>, ArgSource)>, after: Seq<WsPiece>) -> Seq<
    WsPiece,
> {
    if rest.len() > 0 {
        rest[0].0
    } else {
        after
    }
}

/// Whitespace with its first piece replaced by a line break.
pub open spec fn relead(w: Seq<WsPiece>) -> Seq<WsPiece> {
    seq![WsPiece::Blank(LF)] + w.drop_first()
}

proof fn lemma_relead(w: Seq<WsPiece>)
    requires
        w.len() > 0,
        wf_ws(w),
    ensures
        wf_ws(relead(w)),
        write_ws(relead(w)) == seq![LF] + write_ws(w.drop_first()),
{
    let r = relead(w);
    assert(r.drop_first() =~= w.drop_first());
    assert forall|k: int| 0 <= k < r.len() implies match #[trigger] r[k] {
        WsPiece::Blank(c) => is_space(c),
        WsPiece::Comment(text) => forall|m: int|
            0 <= m < text.len() ==> #[trigger] text[m] != CR && text[m] != LF,
    } by {
        if k > 0 {
            assert(r[k] == w[k]);
        }
    }
}

proof fn lemma_relead_args(rest: Seq<(Seq<WsPiece>, ArgSource)>, after: Seq<WsPiece>)
    requires
        rest.len() > 0,
        wf_args(rest, after),
    ensures
        wf_args(rest.update(0, (relead(rest[0].0), rest[0].1)), after),
        write_args(rest.update(0, (relead(rest[0].0), rest[0].1))) == write_ws(relead(rest[0].0))
            + write_arg(rest[0].1) + write_args(rest.drop_first()),
{
    let rest2 = rest.update(0, (relead(rest[0].0), rest[0].1));
    lemma_relead(rest[0].0);
    assert(rest2.drop_first() =~= rest.drop_first());
}

/// Written arguments, followed by the whitespace `after` and a `;` or `{`,
/// are read as arguments, and whitespace after them reaches that byte.
proof fn lemma_written_args(
    b: Seq<u8>,
    p: int,
    args: Seq<(Seq<WsPiece>, ArgSource)>,
    after: Seq<WsPiece>,
)
    requires
        wf_args(args, after),
        wf_ws(after),
        occurs_at(b, p, write_args(args) + write_ws(after)),
        p + write_args(args).len() + write_ws(after).len() < b.len(),
        b[p + write_args(args).len() + write_ws(after).len()] == SEMICOLON || b[p
            + write_args(args).len() + write_ws(after).len()] == LBRACE,
    ensures
        parse_args(b, p) matches Ok((_, end)) && skip_ws(b, end) == p + write_args(args).len()
            + write_ws(after).len(),
    decreases args.len(), 0int,
{
    if args.len() == 0 {
        lemma_occurs_split(b, p, write_args(args), write_ws(after));
        lemma_skip_written_ws(b, p, after);
    } else {
        let w1 = args[0].0;
        let a = args[0].1;
        let rest = args.drop_first();
        let tail = write_args(rest) + write_ws(after);
        assert(write_args(args) + write_ws(after) =~= write_ws(w1) + (write_arg(a) + tail));
        lemma_occurs_split(b, p, write_ws(w1), write_arg(a) + tail);
        let q = p + write_ws(w1).len();
        lemma_occurs_split(b, q, write_arg(a), tail);
        let m = q + write_arg(a).len();
        assert(wf_args(rest, after));
        // the whitespace before the argument ends at its first byte
        assert(write_ws(w1) =~= write_piece(w1[0]) + write_ws(w1.drop_first()));
        lemma_occurs_byte(b, q, write_arg(a), 0);
        match a {
            ArgSource::Bare(pieces) => {
                assert(write_bare(pieces) =~= write_bare_piece(pieces[0]) + write_bare(
                    pieces.drop_first(),
                ));
            },
            ArgSource::Quoted(qq, pieces) => {
                assert(write_arg(a)[0] == qq);
            },
        }
        lemma_skip_written_ws(b, p, w1);
        // the argument itself, and what follows it
        match a {
            ArgSource::Bare(pieces) => {
                lemma_bare_pieces(b, q, pieces);
                lemma_after_bare(b, m, rest, after);
            },
            ArgSource::Quoted(qq, pieces) => {
                assert(write_arg(a) =~= seq![qq] + (write_quoted_pieces(pieces) + seq![qq]));
                lemma_occurs_split(b, q, seq![qq], write_quoted_pieces(pieces) + seq![qq]);
                lemma_quoted_run(b, q + 1, qq, pieces);
                lemma_written_args(b, m, rest, after);
            },
        }
    }
}

/// What follows a bare argument that ends at `m`: the argument reads on
/// through the first word of a comment touching it, and the words after
/// that are read as arguments.
#[verifier::spinoff_prover]
proof fn lemma_after_bare(
    b: Seq<u8>,
    m: int,
    rest: Seq<(Seq<WsPiece>, ArgSource)>,
    after: Seq<WsPiece>,
)
    requires
        wf_args(rest, after),
        wf_ws(after),
        may_follow_bare(next_ws(rest, after)),
        occurs_at(b, m, write_args(rest) + write_ws(after)),
        m + write_args(rest).len() + write_ws(after).len() < b.len(),
        b[m + write_args(rest).len() + write_ws(after).len()] == SEMICOLON || b[m
            + write_args(rest).len() + write_ws(after).len()] == LBRACE,
    ensures
        m <= bare_end(b, m),
        parse_args(b, bare_end(b, m)) matches Ok((_, end)) && skip_ws(b, end) == m + write_args(
            rest,
        ).len() + write_ws(after).len(),
    decreases rest.len(), 1int,
{
    let e = m + write_args(rest).len() + write_ws(after).len();
    let next = next_ws(rest, after);
    let x = if rest.len() > 0 {
        write_arg(rest[0].1) + write_args(rest.drop_first()) + write_ws(after)
    } else {
        Seq::<u8>::empty()
    };
    assert(write_args(rest) + write_ws(after) =~= write_ws(next) + x);
    lemma_occurs_split(b, m, write_ws(next), x);
    if next.len() == 0 {
        assert(write_ws(next) =~= Seq::<u8>::empty());
        assert(rest.len() == 0);
        lemma_written_args(b, m, rest, after);
    } else {
        let first = write_piece(next[0]);
        assert(write_ws(next) =~= first + write_ws(next.drop_first()));
        lemma_occurs_split(b, m, first, write_ws(next.drop_first()));
        lemma_occurs_byte(b, m, first, 0);
        match next[0] {
            WsPiece::Blank(c) => {
                assert(is_space(c));
                lemma_written_args(b, m, rest, after);
            },
            WsPiece::Comment(text) => {
                let j = m + 1 + text.len();
                lemma_occurs_split(b, m, seq![HASH] + text, seq![LF]);
                lemma_occurs_split(b, m, seq![HASH], text);
                lemma_occurs_byte(b, j, seq![LF], 0);
                assert forall|k: int| m + 1 <= k < j implies is_word_byte(#[trigger] b[k]) by {
                    lemma_occurs_byte(b, m + 1, text, k - m - 1);
                }
                lemma_word_run(b, m + 1, j);
                assert(bare_end(b, m) == bare_end(b, m + 1));
                lemma_relead(next);
                let nb = relead(next);
                assert(write_ws(next) =~= (seq![HASH] + text) + write_ws(nb));
                assert((seq![HASH] + text) + (write_ws(nb) + x) =~= write_ws(next) + x);
                lemma_occurs_split(b, m, seq![HASH] + text, write_ws(nb) + x);
                if rest.len() > 0 {
                    lemma_relead_args(rest, after);
                    let rest2 = rest.update(0, (nb, rest[0].1));
                    assert(write_args(rest2) + write_ws(after) =~= write_ws(nb) + x);
                    lemma_written_args(b, j, rest2, after);
                } else {
                    assert(write_args(rest) + write_ws(nb) =~= write_ws(nb) + x);
                    lemma_written_args(b, j, rest, nb);
                }
                lemma_words(b, bare_end(b, m + 1), j, e);
            },
        }
    }
}

/// No comment follows a bare argument right away (one that did would have
/// its words read as arguments too).
pub open spec fn no_comment_after_bare(
    args: Seq<(Seq<WsPiece>, ArgSource)>,
    after: Seq<WsPiece>,
) -> bool
    decreases args.len(),
{
    if args.len() == 0 {
        true
    } else {
        let next = next_ws(args.drop_first(), after);
        &&& (args[0].1 is Bare ==> next.len() == 0 || next[0] is Blank)
        &&& no_comment_after_bare(args.drop_first(), after)
    }
}

/// The byte after a bare argument with no comment right after it ends it.
proof fn lemma_byte_after_bare(
    b: Seq<u8>,
    m: int,
    rest: Seq<(Seq<WsPiece>, ArgSource)>,
    after: Seq<WsPiece>,
)
    requires
        wf_args(rest, after),
        wf_ws(after),
        next_ws(rest, after).len() == 0 || next_ws(rest, after)[0] is Blank,
        occurs_at(b, m, write_args(rest) + write_ws(after)),
        m + write_args(rest).len() + write_ws(after).len() < b.len(),
        b[m + write_args(rest).len() + write_ws(after).len()] == SEMICOLON || b[m
            + write_args(rest).len() + write_ws(after).len()] == LBRACE,
    ensures
        bare_end(b, m) == m,
{
    let next = next_ws(rest, after);
    let x = if rest.len() > 0 {
        write_arg(rest[0].1) + write_args(rest.drop_first()) + write_ws(after)
    } else {
        Seq::<u8>::empty()
    };
    assert(write_args(rest) + write_ws(after) =~= write_ws(next) + x);
    lemma_occurs_split(b, m, write_ws(next), x);
    if next.len() == 0 {
        assert(write_ws(next) =~= Seq::<u8>::empty());
        assert(rest.len() == 0);
    } else {
        let first = write_piece(next[0]);
        assert(write_ws(next) =~= first + write_ws(next.drop_first()));
        lemma_occurs_split(b, m, first, write_ws(next.drop_first()));
        lemma_occurs_byte(b, m, first, 0);
        if let WsPiece::Blank(c) = next[0] {
            assert(is_space(c));
        }
    }
}

/// A written header is read with one argument per argument written, in
/// order: a bare one borrowed with its written bytes, a quoted one owned with
/// the value of its pieces, whichever its quote and however short (an empty
/// quoted argument is an argument too).
pub proof fn lemma_written_header_args(
    b: Seq<u8>,
    p: int,
    args: Seq<(Seq<WsPiece>, ArgSource)>,
    after: Seq<WsPiece>,
)
    requires
        wf_args(args, after),
        no_comment_after_bare(args, after),
        wf_ws(after),
        occurs_at(b, p, write_args(args) + write_ws(after)),
        p + write_args(args).len() + write_ws(after).len() < b.len(),
        b[p + write_args(args).len() + write_ws(after).len()] == SEMICOLON || b[p
            + write_args(args).len() + write_ws(after).len()] == LBRACE,
    ensures
        parse_args(b, p) matches Ok((parsed, end)) && {
            &&& parsed.len() == args.len()
            &&& forall|k: int|
                0 <= k < args.len() ==> (#[trigger] parsed[k]).value == arg_value(args[k].1)
                    && parsed[k].borrowed == (args[k].1 is Bare)
            &&& skip_ws(b, end) == p + write_args(args).len() + write_ws(after).len()
        },
    decreases args.len(),
{
    lemma_written_args(b, p, args, after);
    if args.len() == 0 {
        lemma_occurs_split(b, p, write_args(args), write_ws(after));
        lemma_skip_written_ws(b, p, after);
    } else {
        let w1 = args[0].0;
        let a = args[0].1;
        let rest = args.drop_first();
        let tail = write_args(rest) + write_ws(after);
        assert(write_args(args) + write_ws(after) =~= write_ws(w1) + (write_arg(a) + tail));
        lemma_occurs_split(b, p, write_ws(w1), write_arg(a) + tail);
        let q = p + write_ws(w1).len();
        lemma_occurs_split(b, q, write_arg(a), tail);
        let m = q + write_arg(a).len();
        assert(wf_args(rest, after));
        assert(write_ws(w1) =~= write_piece(w1[0]) + write_ws(w1.drop_first()));
        lemma_occurs_byte(b, q, write_arg(a), 0);
        match a {
            ArgSource::Bare(pieces) => {
                assert(write_bare(pieces) =~= write_bare_piece(pieces[0]) + write_bare(
                    pieces.drop_first(),
                ));
            },
            ArgSource::Quoted(qq, pieces) => {
                assert(write_arg(a)[0] == qq);
            },
        }
        lemma_skip_written_ws(b, p, w1);
        match a {
            ArgSource::Bare(pieces) => {
                lemma_bare_pieces(b, q, pieces);
                lemma_byte_after_bare(b, m, rest, after);
            },
            ArgSource::Quoted(qq, pieces) => {
                assert(write_arg(a) =~= seq![qq] + (write_quoted_pieces(pieces) + seq![qq]));
                lemma_occurs_split(b, q, seq![qq], write_quoted_pieces(pieces) + seq![qq]);
                lemma_quoted_run(b, q + 1, qq, pieces);
            },
        }
        lemma_written_header_args(b, m, rest, after);
        assert(parse_arg(b, q) is Arg);
        let av = parse_arg(b, q)->Arg_0;
        assert(av.span.1 == m);
        let (rp, end) = parse_args(b, m)->Ok_0;
        assert(parse_args(b, p) == Ok::<(Seq<ArgView>, int), SpecError>((seq![av] + rp, end)));
        assert forall|k: int| 0 <= k < args.len() implies (#[trigger] (seq![av] + rp)[k]).value
            == arg_value(args[k].1) && (seq![av] + rp)[k].borrowed == (args[k].1 is Bare) by {
            if k > 0 {
                assert((seq![av] + rp)[k] == rp[k - 1]);
                assert(args[k] == rest[k - 1]);
            }
        }
    }
}

/// The first byte of written whitespace that is not empty: a blank or `#`.
proof fn lemma_ws_first(b: Seq<u8>, i: int, w: Seq<WsPiece>)
    requires
        wf_ws(w),
        w.len() > 0,
        occurs_at(b, i, write_ws(w)),
    ensures
        i < b.len(),
        is_space(b[i]) || b[i] == HASH,
{
    assert(write_ws(w) =~= write_piece(w[0]) + write_ws(w.drop_first()));
    lemma_occurs_split(b, i, write_piece(w[0]), write_ws(w.drop_first()));
    lemma_occurs_byte(b, i, write_piece(w[0]), 0);
    if let WsPiece::Blank(c) = w[0] {
        assert(is_space(c));
    }
}

#[verifier::spinoff_prover]
#[verifier::rlimit(50)]
/// A written directive is read whole, and allocates one directive per
/// directive written in it.
proof fn lemma_written_directive(b: Seq<u8>, start: int, d: DirectiveSource, nodes: Seq<DirectiveView>)
    requires
        wf_directive(d),
        occurs_at(b, start, write_directive(d)),
    ensures
        parse_directive(b, start, nodes) matches Ok((nodes2, end)) && end == start
            + write_directive(d).len() && nodes2.len() == nodes.len() + count_directive(d),
    decreases d,
{
    let name = d.name;
    let aw = write_args(d.args);
    let pw = write_ws(d.before_body);
    let bw = match d.body {
        BodySource::Semicolon => seq![SEMICOLON],
        BodySource::Block(w, children) => seq![LBRACE] + write_ws(w) + write_directives(children)
            + seq![RBRACE],
    };
    assert(write_directive(d) =~= name + ((aw + pw) + bw));
    lemma_occurs_split(b, start, name, (aw + pw) + bw);
    let ne = start + name.len();
    lemma_occurs_split(b, ne, aw + pw, bw);
    lemma_occurs_split(b, ne, aw, pw);
    let he = ne + aw.len();
    let p = he + pw.len();
    lemma_occurs_byte(b, p, bw, 0);
    assert(b[p] == SEMICOLON || b[p] == LBRACE);
    // the name ends where the arguments start
    if d.args.len() > 0 {
        let w1 = d.args[0].0;
        assert(aw =~= write_ws(w1) + (write_arg(d.args[0].1) + write_args(d.args.drop_first())));
        lemma_occurs_split(b, ne, write_ws(w1), write_arg(d.args[0].1) + write_args(d.args.drop_first()));
        lemma_ws_first(b, ne, w1);
    } else if d.before_body.len() > 0 {
        assert(aw =~= Seq::<u8>::empty());
        lemma_ws_first(b, ne, d.before_body);
    } else {
        assert(aw =~= Seq::<u8>::empty());
        assert(pw =~= Seq::<u8>::empty());
    }
    lemma_name_run(b, start, name);
    lemma_written_args(b, ne, d.args, d.before_body);
    match d.body {
        BodySource::Semicolon => {},
        BodySource::Block(w, children) => {
            let ww = write_ws(w);
            let cw = write_directives(children);
            assert(bw =~= seq![LBRACE] + (ww + (cw + seq![RBRACE])));
            lemma_occurs_split(b, p, seq![LBRACE], ww + (cw + seq![RBRACE]));
            lemma_occurs_split(b, p + 1, ww, cw + seq![RBRACE]);
            let c = p + 1 + ww.len();
            lemma_occurs_split(b, c, cw, seq![RBRACE]);
            let q = c + cw.len();
            lemma_occurs_byte(b, q, seq![RBRACE], 0);
            assert(wf_directives(children));
            if children.len() > 0 {
                let first = children[0].0;
                assert(wf_directive(first));
                assert(first.name.len() > 0);
                assert(cw =~= write_directive(first) + (write_ws(children[0].1) + write_directives(
                    children.drop_first(),
                )));
                assert(write_directive(first) =~= first.name + (write_args(first.args) + write_ws(
                    first.before_body,
                ) + match first.body {
                    BodySource::Semicolon => seq![SEMICOLON],
                    BodySource::Block(w2, ch2) => seq![LBRACE] + write_ws(w2) + write_directives(
                        ch2,
                    ) + seq![RBRACE],
                }));
                lemma_occurs_split(
                    b,
                    c,
                    write_directive(first),
                    write_ws(children[0].1) + write_directives(children.drop_first()),
                );
                lemma_occurs_byte(b, c, write_directive(first), 0);
                assert(is_name_byte(first.name[0]));
            } else {
                assert(cw =~= Seq::<u8>::empty());
            }
            lemma_skip_written_ws(b, p + 1, w);
            lemma_written_directives(b, c, children, nodes);
        },
    }
}

#[verifier::spinoff_prover]
#[verifier::rlimit(50)]
/// Written directives, each followed by whitespace, are read whole when
/// what follows them cannot start a directive or continue whitespace.
proof fn lemma_written_directives(
    b: Seq<u8>,
    i: int,
    s: Seq<(DirectiveSource, Seq<WsPiece>)>,
    nodes: Seq<DirectiveView>,
)
    requires
        wf_directives(s),
        occurs_at(b, i, write_directives(s)),
        i + write_directives(s).len() == b.len() || ({
            let e = i + write_directives(s).len();
            &&& e < b.len()
            &&& !is_name_byte(b[e])
            &&& !is_space(b[e])
            &&& b[e] != HASH
        }),
    ensures
        parse_directives(b, i, nodes) matches Ok((nodes2, ids, end)) && end == i
            + write_directives(s).len() && nodes2.len() == nodes.len() + count_directives(s)
            && ids.len() == s.len(),
    decreases s,
{
    if s.len() > 0 {
        let d = s[0].0;
        let w = s[0].1;
        let rest = s.drop_first();
        let dw = write_directive(d);
        let ww = write_ws(w);
        let rw = write_directives(rest);
        assert(write_directives(s) =~= dw + (ww + rw));
        lemma_occurs_split(b, i, dw, ww + rw);
        lemma_occurs_split(b, i + dw.len(), ww, rw);
        let end = i + dw.len();
        let j = end + ww.len();
        assert(wf_directive(d));
        assert(d.name.len() > 0);
        assert(wf_directives(rest));
        assert(dw =~= d.name + (write_args(d.args) + write_ws(d.before_body) + match d.body {
            BodySource::Semicolon => seq![SEMICOLON],
            BodySource::Block(w2, ch2) => seq![LBRACE] + write_ws(w2) + write_directives(ch2)
                + seq![RBRACE],
        }));
        lemma_occurs_byte(b, i, dw, 0);
        assert(is_name_byte(d.name[0]));
        lemma_written_directive(b, i, d, nodes);
        if rest.len() > 0 {
            let first = rest[0].0;
            assert(wf_directive(first));
            assert(first.name.len() > 0);
            assert(rw =~= write_directive(first) + (write_ws(rest[0].1) + write_directives(
                rest.drop_first(),
            )));
            assert(write_directive(first) =~= first.name + (write_args(first.args) + write_ws(
                first.before_body,
            ) + match first.body {
                BodySource::Semicolon => seq![SEMICOLON],
                BodySource::Block(w2, ch2) => seq![LBRACE] + write_ws(w2) + write_directives(ch2)
                    + seq![RBRACE],
            }));
            lemma_occurs_split(
                b,
                j,
                write_directive(first),
                write_ws(rest[0].1) + write_directives(rest.drop_first()),
            );
            lemma_occurs_byte(b, j, write_directive(first), 0);
            assert(is_name_byte(first.name[0]));
        } else {
            assert(rw =~= Seq::<u8>::empty());
        }
        lemma_skip_written_ws(b, end, w);
        if let Ok((nodes2, e2)) = parse_directive(b, i, nodes) {
            lemma_written_directives(b, j, rest, nodes2);
        }
    }
}

/// A configuration written from well-formed parts parses, with one directive
/// in the arena per directive written and one root per top-level directive.
/// A comment right after a bare argument is admitted when its text holds
/// only spaces, tabs and bytes that may start a bare argument: the argument
/// then reads on through the first word, and the other words are read as
/// arguments of the same directive.
pub proof fn lemma_written_config_parses(c: ConfigSource)
    requires
        wf_ws(c.leading),
        wf_directives(c.directives),
    ensures
        parse_config(write_config(c)) matches Ok((nodes, roots)) && nodes.len() == count_directives(
            c.directives,
        ) && roots.len() == c.directives.len(),
{
    let b = write_config(c);
    let lw = write_ws(c.leading);
    let dw = write_directives(c.directives);
    assert(b.subrange(0, b.len() as int) =~= lw + dw);
    lemma_occurs_split(b, 0, lw, dw);
    if c.directives.len() > 0 {
        let first = c.directives[0].0;
        assert(wf_directive(first));
        assert(first.name.len() > 0);
        assert(dw =~= write_directive(first) + (write_ws(c.directives[0].1) + write_directives(
            c.directives.drop_first(),
        )));
        assert(write_directive(first) =~= first.name + (write_args(first.args) + write_ws(
            first.before_body,
        ) + match first.body {
            BodySource::Semicolon => seq![SEMICOLON],
            BodySource::Block(w2, ch2) => seq![LBRACE] + write_ws(w2) + write_directives(ch2)
                + seq![RBRACE],
        }));
        lemma_occurs_split(
            b,
            lw.len() as int,
            write_directive(first),
            write_ws(c.directives[0].1) + write_directives(c.directives.drop_first()),
        );
        lemma_occurs_byte(b, lw.len() as int, write_directive(first), 0);
        assert(is_name_byte(first.name[0]));
    } else {
        assert(dw =~= Seq::<u8>::empty());
    }
    lemma_skip_written_ws(b, 0, c.leading);
    lemma_written_directives(b, lw.len() as int, c.directives, Seq::empty());
}

} // verus!
