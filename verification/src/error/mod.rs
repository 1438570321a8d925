//! Syntax errors: where parsing stopped, what was found there, and how the
//! error reads as a message and as a diagnostic.

pub mod context;

use crate::ast::{span_view, Span};
use crate::text::{char_boundary, substring};
use context::{
    context_error_items, err_mode_inner, err_mode_into_inner, Expected, ParseContext,
    ParseContextError, QuoteKind,
};
use vstd::prelude::*;
use vstd::string::{StringExecFns, StringSliceAdditionalSpecFns};
use vstd::utf8::{decode_utf8, encode_utf8};
use winnow::error::ErrMode;

verus! {

broadcast use {vstd::utf8::group_utf8_lib, vstd::string::group_string_axioms};

/// What kind of mistake a syntax error points at.
#[derive(Clone, Copy, Debug, PartialEq, Eq, Structural)]
pub enum ErrorKind {
    /// Example: `foo "bar`
    UnterminatedQuote,
    /// Example: `foo {`
    UnterminatedBlock,
    /// Example: `foo; }`
    UnmatchedCloseBrace,
    /// Example: `foo {};`
    MissingDirectiveName,
    /// Example: `foo bar }`
    MissingTerminator,
    Unexpected,
    UnexpectedEof,
}

#[derive(Debug, Clone)]
pub struct SyntaxError {
    pub span: Span,
    pub found: Option<char>,
    pub contexts: Vec<ParseContext>,
}

/// The character that starts at byte `offset` of the UTF-8 text `b`, if any.
pub open spec fn first_char(b: Seq<u8>, offset: int) -> Option<char> {
    if 0 <= offset < b.len() {
        Some(decode_utf8(b.subrange(offset, b.len() as int))[0])
    } else {
        None
    }
}

/// The number of bytes of the UTF-8 encoding of `c`.
pub open spec fn utf8_len(c: char) -> int {
    encode_utf8(seq![c]).len() as int
}

/// The span `span` lies within the text `b`, between character boundaries.
pub open spec fn span_in(b: Seq<u8>, span: Span) -> bool {
    &&& span.start <= span.end
    &&& char_boundary(b, span.start as int)
    &&& char_boundary(b, span.end as int)
}

/// Every block that the contexts name has its name span within `b`.
pub open spec fn blocks_in(b: Seq<u8>, contexts: Seq<ParseContext>) -> bool {
    forall|i: int|
        0 <= i < contexts.len() ==> match #[trigger] contexts[i] {
            ParseContext::InBlock { name_span, .. } => span_in(b, name_span),
            _ => true,
        }
}

/// The first block the contexts name is one of them.
pub proof fn lemma_first_block_in(b: Seq<u8>, contexts: Seq<ParseContext>)
    requires
        blocks_in(b, contexts),
    ensures
        first_block(contexts) matches Some((name_span, _)) ==> span_in(b, name_span),
    decreases contexts.len(),
{
    if contexts.len() > 0 {
        if !(contexts[0] is InBlock) {
            assert forall|i: int| 0 <= i < contexts.drop_first().len() implies match #[trigger] contexts.drop_first()[i] {
                ParseContext::InBlock { name_span, .. } => span_in(b, name_span),
                _ => true,
            } by {
                assert(contexts.drop_first()[i] == contexts[i + 1]);
            }
            lemma_first_block_in(b, contexts.drop_first());
        } else {
            assert(match contexts[0] {
                ParseContext::InBlock { name_span, .. } => span_in(b, name_span),
                _ => true,
            });
        }
    }
}

/// The first `InBlock` context: its name span and open-brace span.
pub open spec fn first_block(contexts: Seq<ParseContext>) -> Option<(Span, Span)>
    decreases contexts.len(),
{
    if contexts.len() == 0 {
        None
    } else {
        match contexts[0] {
            ParseContext::InBlock { name_span, open_brace_span } => Some(
                (name_span, open_brace_span),
            ),
            _ => first_block(contexts.drop_first()),
        }
    }
}

/// The first `InQuotedArgument` context: its quote and open-quote span.
pub open spec fn first_quoted(contexts: Seq<ParseContext>) -> Option<(QuoteKind, Span)>
    decreases contexts.len(),
{
    if contexts.len() == 0 {
        None
    } else {
        match contexts[0] {
            ParseContext::InQuotedArgument { quote, open_quote_span } => Some(
                (quote, open_quote_span),
            ),
            _ => first_quoted(contexts.drop_first()),
        }
    }
}

/// How a label of a diagnostic is drawn: the cause, or context around it.
#[derive(Clone, Copy, Debug, PartialEq, Eq, Structural)]
pub enum LabelStyle {
    Primary,
    Secondary,
}

/// A labelled span of the source.
#[derive(Debug, Clone)]
pub struct Label {
    pub style: LabelStyle,
    pub range: Span,
    pub message: String,
}

/// An error diagnostic: a message, labelled spans of the source, and notes.
#[derive(Debug, Clone)]
pub struct Diagnostic {
    pub message: String,
    pub labels: Vec<Label>,
    pub notes: Vec<String>,
}

pub struct LabelView {
    pub style: LabelStyle,
    pub range: (int, int),
    pub message: Seq<char>,
}

impl View for Label {
    type V = LabelView;

    open spec fn view(&self) -> LabelView {
        LabelView { style: self.style, range: span_view(self.range), message: self.message@ }
    }
}

pub open spec fn strings_view(v: Seq<String>) -> Seq<Seq<char>> {
    v.map_values(|s: String| s@)
}

/// The text of the source bytes `b` within `span`.
pub open spec fn text_of(b: Seq<u8>, span: Span) -> Seq<char> {
    decode_utf8(b.subrange(span.start as int, span.end as int))
}

/// The message of the primary label for each kind of error.
pub open spec fn spec_primary_label_message(kind: ErrorKind) -> Seq<char> {
    match kind {
        ErrorKind::UnterminatedQuote => "expected closing `{quote}`"@,
        ErrorKind::UnterminatedBlock => "expected `}`"@,
        ErrorKind::UnmatchedCloseBrace => "this `}` has no matching '{'"@,
        ErrorKind::MissingDirectiveName => "expected a directive name here"@,
        ErrorKind::MissingTerminator => "end the directive with `;` or start a block with `{`"@,
        ErrorKind::Unexpected => "unexpected input"@,
        ErrorKind::UnexpectedEof => "input ends here"@,
    }
}

/// `std`'s `ToString` for `char`: the string of that one character.
#[verifier::external_body]
fn char_to_string(c: char) -> (s: String)
    ensures
        s@ == seq![c],
{
    c.to_string()
}

/// The number of bytes of the UTF-8 encoding of `c`.
fn char_utf8_len(c: char) -> (n: usize)
    ensures
        n == utf8_len(c),
        1 <= n <= 4,
{
    proof {
        vstd::utf8::char_is_scalar(c);
        assert(seq![c].drop_first() =~= Seq::<char>::empty());
        assert(encode_utf8(seq![c]) =~= vstd::utf8::encode_scalar(c as u32) + encode_utf8(
            Seq::<char>::empty(),
        ));
    }
    let v = c as u32;
    if v < 0x80 {
        1
    } else if v < 0x800 {
        2
    } else if v < 0x10000 {
        3
    } else {
        4
    }
}

impl SyntaxError {
    /// The error reports the parse failure at byte `offset` of the text `b`
    /// with these contexts: its span covers the character found there.
    pub open spec fn reports(self, b: Seq<u8>, offset: int, contexts: Seq<ParseContext>) -> bool {
        &&& self.span.start == offset
        &&& self.found == first_char(b, offset)
        &&& self.span.end == offset + match self.found {
            Some(c) => utf8_len(c),
            None => 0,
        }
        &&& self.contexts@ == contexts
    }

    /// The syntax error of a parse failure: its span is the character at the
    /// failure offset (empty at the end of the source).
    pub fn from_context(source: &str, error: ParseContextError) -> (r: SyntaxError)
        requires
            char_boundary(source.spec_bytes(), error.span.start as int),
        ensures
            r.reports(source.spec_bytes(), error.span.start as int, error.contexts()),
    {
        let ghost b = source.spec_bytes();
        let offset = error.span.start;
        let len = source.as_bytes().len();
        let rest = substring(source, offset, len);
        let mut chars = rest.chars();
        let found = chars.next();
        proof {
            let rb = rest.spec_bytes();
            assert(rb == encode_utf8(rest@));
            assert(rb =~= b.subrange(offset as int, b.len() as int));
            assert(rest@ == decode_utf8(rb));
            if rest@.len() == 0 {
                assert(rest@ =~= Seq::<char>::empty());
                assert(encode_utf8(rest@) =~= Seq::<u8>::empty());
            } else {
                assert(encode_utf8(rest@) =~= vstd::utf8::encode_scalar(rest@[0] as u32)
                    + encode_utf8(rest@.drop_first()));
                assert(seq![rest@[0]].drop_first() =~= Seq::<char>::empty());
                assert(encode_utf8(seq![rest@[0]]) =~= vstd::utf8::encode_scalar(
                    rest@[0] as u32,
                ) + encode_utf8(Seq::<char>::empty()));
            }
        }
        let end = match found {
            Some(c) => offset + char_utf8_len(c),
            None => offset,
        };
        SyntaxError { span: offset..end, found, contexts: context_error_items(&error.context) }
    }

    /// The syntax error of a `winnow` error mode; an incomplete input, which
    /// carries no error, is reported at the end of the source.
    pub fn from_err_mode(source: &str, mode: ErrMode<ParseContextError>) -> (r: SyntaxError)
        requires
            err_mode_inner(mode) matches Some(e) ==> char_boundary(
                source.spec_bytes(),
                e.span.start as int,
            ),
        ensures
            match err_mode_inner(mode) {
                Some(e) => r.reports(source.spec_bytes(), e.span.start as int, e.contexts()),
                None => r.span.start == source.spec_bytes().len() && r.span.end
                    == source.spec_bytes().len() && r.found == None::<char> && r.contexts@
                    == Seq::<ParseContext>::empty(),
            },
    {
        match err_mode_into_inner(mode) {
            Some(error) => Self::from_context(source, error),
            None => SyntaxError {
                span: source.as_bytes().len()..source.as_bytes().len(),
                found: None,
                contexts: Vec::new(),
            },
        }
    }

    pub open spec fn spec_expects(self, expected: Expected) -> bool {
        exists|i: int|
            0 <= i < self.contexts@.len() && #[trigger] self.contexts@[i]
                == ParseContext::Expected(expected)
    }

    pub open spec fn spec_expects_closing_quote(self) -> bool {
        exists|i: int|
            0 <= i < self.contexts@.len() && #[trigger] self.contexts@[i] matches ParseContext::Expected(
                Expected::ClosingQuote(_),
            )
    }

    /// Whether some context says that `expected` was expected.
    pub fn expects(&self, expected: Expected) -> (r: bool)
        ensures
            r == self.spec_expects(expected),
    {
        let mut i: usize = 0;
        while i < self.contexts.len()
            invariant
                i <= self.contexts@.len(),
                forall|k: int|
                    0 <= k < i ==> #[trigger] self.contexts@[k] != ParseContext::Expected(expected),
            decreases self.contexts@.len() - i,
        {
            if let ParseContext::Expected(actual) = &self.contexts[i] {
                if *actual == expected {
                    return true;
                }
            }
            i = i + 1;
        }
        false
    }

    /// Whether some context says that a closing quote was expected.
    pub fn expects_closing_quote(&self) -> (r: bool)
        ensures
            r == self.spec_expects_closing_quote(),
    {
        let mut i: usize = 0;
        while i < self.contexts.len()
            invariant
                i <= self.contexts@.len(),
                forall|k: int|
                    0 <= k < i ==> !(#[trigger] self.contexts@[k] matches ParseContext::Expected(
                        Expected::ClosingQuote(_),
                    )),
            decreases self.contexts@.len() - i,
        {
            if let ParseContext::Expected(Expected::ClosingQuote(_)) = &self.contexts[i] {
                return true;
            }
            i = i + 1;
        }
        false
    }

    /// The name span and open-brace span of the innermost enclosing block.
    pub fn block_ctx(&self) -> (r: Option<(&Span, &Span)>)
        ensures
            match first_block(self.contexts@) {
                Some((n, o)) => r matches Some((rn, ro)) && *rn == n && *ro == o,
                None => r is None,
            },
    {
        let mut i: usize = 0;
        proof {
            assert(self.contexts@.subrange(0, self.contexts@.len() as int) =~= self.contexts@);
        }
        while i < self.contexts.len()
            invariant
                i <= self.contexts@.len(),
                first_block(self.contexts@) == first_block(
                    self.contexts@.subrange(i as int, self.contexts@.len() as int),
                ),
            decreases self.contexts@.len() - i,
        {
            proof {
                let rest = self.contexts@.subrange(i as int, self.contexts@.len() as int);
                assert(rest.drop_first() =~= self.contexts@.subrange(
                    i + 1,
                    self.contexts@.len() as int,
                ));
            }
            if let ParseContext::InBlock { name_span, open_brace_span } = &self.contexts[i] {
                return Some((name_span, open_brace_span));
            }
            i = i + 1;
        }
        None
    }

    /// The quote kind and open-quote span of the quoted argument the error
    /// arose in.
    pub fn quoted_arg_ctx(&self) -> (r: Option<(QuoteKind, &Span)>)
        ensures
            match first_quoted(self.contexts@) {
                Some((q, s)) => r matches Some((rq, rs)) && rq == q && *rs == s,
                None => r is None,
            },
    {
        let mut i: usize = 0;
        proof {
            assert(self.contexts@.subrange(0, self.contexts@.len() as int) =~= self.contexts@);
        }
        while i < self.contexts.len()
            invariant
                i <= self.contexts@.len(),
                first_quoted(self.contexts@) == first_quoted(
                    self.contexts@.subrange(i as int, self.contexts@.len() as int),
                ),
            decreases self.contexts@.len() - i,
        {
            proof {
                let rest = self.contexts@.subrange(i as int, self.contexts@.len() as int);
                assert(rest.drop_first() =~= self.contexts@.subrange(
                    i + 1,
                    self.contexts@.len() as int,
                ));
            }
            if let ParseContext::InQuotedArgument { quote, open_quote_span } = &self.contexts[i] {
                return Some((*quote, open_quote_span));
            }
            i = i + 1;
        }
        None
    }

    /// The message of the error, naming a block by its text in `b`.
    pub open spec fn spec_message(self, b: Seq<u8>) -> Seq<char> {
        match self.spec_kind() {
            ErrorKind::UnterminatedQuote => match first_quoted(self.contexts@) {
                Some((quote, _)) => "unterminated `"@ + seq![quote.spec_char()]
                    + "` quoted argument"@,
                None => "unterminated quoted argument"@,
            },
            ErrorKind::UnterminatedBlock => match first_block(self.contexts@) {
                Some((name_span, _)) => "unterminated `"@ + text_of(b, name_span) + "` block"@,
                None => "unterminated block"@,
            },
            ErrorKind::UnmatchedCloseBrace => "unmatched closing brace"@,
            ErrorKind::MissingDirectiveName => "expected a directive name"@,
            ErrorKind::MissingTerminator => "expected a directive terminator"@,
            ErrorKind::Unexpected => "unexpected character `"@ + seq![self.found->0] + "`"@,
            ErrorKind::UnexpectedEof => "unexpected end of input"@,
        }
    }

    /// The notes of the error.
    pub open spec fn spec_notes(self) -> Seq<Seq<char>> {
        if self.spec_kind() == ErrorKind::MissingDirectiveName && self.found == Some(';') {
            seq!["a semicolon can only terminate a simple directive"@]
        } else {
            Seq::empty()
        }
    }

    /// The labels of the diagnostic: the error span, then where the quoted
    /// argument and the block that were left open start.
    pub open spec fn spec_labels(self, b: Seq<u8>) -> Seq<LabelView> {
        let primary = seq![
            LabelView {
                style: LabelStyle::Primary,
                range: span_view(self.span),
                message: spec_primary_label_message(self.spec_kind()),
            },
        ];
        let quote = match first_quoted(self.contexts@) {
            Some((quote, open_quote_span)) if self.spec_expects_closing_quote() => seq![
                LabelView {
                    style: LabelStyle::Secondary,
                    range: span_view(open_quote_span),
                    message: "quoted argument starts with `"@ + seq![quote.spec_char()]
                        + "` here"@,
                },
            ],
            _ => Seq::empty(),
        };
        let block = match first_block(self.contexts@) {
            Some((name_span, open_brace_span)) if self.spec_expects(Expected::ClosingBrace) => seq![
                LabelView {
                    style: LabelStyle::Secondary,
                    range: span_view(open_brace_span),
                    message: "`"@ + text_of(b, name_span) + "` block starts here"@,
                },
            ],
            _ => Seq::empty(),
        };
        primary + quote + block
    }

    /// The name span of an enclosing block that the error names lies within
    /// the source text `b`.
    pub open spec fn names_block_in(self, b: Seq<u8>) -> bool {
        self.spec_expects(Expected::ClosingBrace) ==> match first_block(self.contexts@) {
            Some((name_span, _)) => span_in(b, name_span),
            None => true,
        }
    }

    /// The message of the error. An unterminated block is named by its text
    /// in `source`.
    pub fn message(&self, source: &str) -> (m: String)
        requires
            self.spec_kind() == ErrorKind::UnterminatedBlock ==> self.names_block_in(
                source.spec_bytes(),
            ),
        ensures
            m@ == self.spec_message(source.spec_bytes()),
    {
        match self.kind() {
            ErrorKind::UnterminatedQuote => match self.quoted_arg_ctx() {
                Some((quote, _)) => {
                    let mut m = "unterminated `".to_string();
                    m.append(char_to_string(quote.as_char()).as_str());
                    m.append("` quoted argument");
                    m
                },
                None => "unterminated quoted argument".to_string(),
            },
            ErrorKind::UnterminatedBlock => match self.block_ctx() {
                Some((name_span, _)) => {
                    let name = Self::source_text(source, name_span);
                    let mut m = "unterminated `".to_string();
                    m.append(name);
                    m.append("` block");
                    m
                },
                None => "unterminated block".to_string(),
            },
            ErrorKind::UnmatchedCloseBrace => "unmatched closing brace".to_string(),
            ErrorKind::MissingDirectiveName => "expected a directive name".to_string(),
            ErrorKind::MissingTerminator => "expected a directive terminator".to_string(),
            ErrorKind::Unexpected => {
                let mut m = "unexpected character `".to_string();
                m.append(char_to_string(self.found.unwrap()).as_str());
                m.append("`");
                m
            },
            ErrorKind::UnexpectedEof => "unexpected end of input".to_string(),
        }
    }

    /// The text of `source` within `span`.
    pub fn source_text<'a>(source: &'a str, span: &Span) -> (t: &'a str)
        requires
            span_in(source.spec_bytes(), *span),
        ensures
            t.spec_bytes() == source.spec_bytes().subrange(span.start as int, span.end as int),
            t@ == text_of(source.spec_bytes(), *span),
    {
        substring(source, span.start, span.end)
    }

    /// The message of the label on the error span.
    pub fn primary_label_message(&self) -> (m: String)
        ensures
            m@ == spec_primary_label_message(self.spec_kind()),
    {
        match self.kind() {
            ErrorKind::UnterminatedQuote => "expected closing `{quote}`".to_string(),
            ErrorKind::UnterminatedBlock => "expected `}`".to_string(),
            ErrorKind::UnmatchedCloseBrace => "this `}` has no matching '{'".to_string(),
            ErrorKind::MissingDirectiveName => "expected a directive name here".to_string(),
            ErrorKind::MissingTerminator => {
                "end the directive with `;` or start a block with `{`".to_string()
            },
            ErrorKind::Unexpected => "unexpected input".to_string(),
            ErrorKind::UnexpectedEof => "input ends here".to_string(),
        }
    }

    /// The notes of the error: a semicolon where a name was expected gets one.
    pub fn notes(&self) -> (v: Vec<String>)
        ensures
            strings_view(v@) == self.spec_notes(),
    {
        match self.kind() {
            ErrorKind::MissingDirectiveName if self.found == Some(';') => {
                let v = vec!["a semicolon can only terminate a simple directive".to_string()];
                proof {
                    assert(strings_view(v@) =~= self.spec_notes());
                }
                v
            },
            _ => {
                let v = Vec::new();
                proof {
                    assert(strings_view(v@) =~= self.spec_notes());
                }
                v
            },
        }
    }

    /// The diagnostic of the error: its message, its labels and its notes.
    pub fn to_diagnostic(&self, source: &str) -> (d: Diagnostic)
        requires
            self.names_block_in(source.spec_bytes()),
        ensures
            d.message@ == self.spec_message(source.spec_bytes()),
            d.labels@.map_values(|l: Label| l@) == self.spec_labels(source.spec_bytes()),
            strings_view(d.notes@) == self.spec_notes(),
    {
        let mut labels = vec![
            Label {
                style: LabelStyle::Primary,
                range: self.span.start..self.span.end,
                message: self.primary_label_message(),
            },
        ];
        if self.expects_closing_quote() {
            if let Some((quote, open_quote_span)) = self.quoted_arg_ctx() {
                let mut m = "quoted argument starts with `".to_string();
                m.append(char_to_string(quote.as_char()).as_str());
                m.append("` here");
                labels.push(
                    Label {
                        style: LabelStyle::Secondary,
                        range: open_quote_span.start..open_quote_span.end,
                        message: m,
                    },
                );
            }
        }
        let ghost after_quote = labels@.map_values(|l: Label| l@);
        if self.expects(Expected::ClosingBrace) {
            if let Some((name_span, open_brace_span)) = self.block_ctx() {
                let name = Self::source_text(source, name_span);
                let mut m = "`".to_string();
                m.append(name);
                m.append("` block starts here");
                labels.push(
                    Label {
                        style: LabelStyle::Secondary,
                        range: open_brace_span.start..open_brace_span.end,
                        message: m,
                    },
                );
            }
        }
        let d = Diagnostic { message: self.message(source), labels, notes: self.notes() };
        proof {
            assert(d.labels@.map_values(|l: Label| l@) =~= self.spec_labels(source.spec_bytes()));
        }
        d
    }

    pub open spec fn spec_kind(self) -> ErrorKind {
        if self.found is None && self.spec_expects_closing_quote() {
            ErrorKind::UnterminatedQuote
        } else if self.found is None && self.spec_expects(Expected::ClosingBrace) {
            ErrorKind::UnterminatedBlock
        } else if self.found == Some('}') && self.spec_expects(Expected::DirectiveName) {
            ErrorKind::UnmatchedCloseBrace
        } else if self.spec_expects(Expected::DirectiveName) {
            ErrorKind::MissingDirectiveName
        } else if self.spec_expects(Expected::DirectiveTerminator) {
            ErrorKind::MissingTerminator
        } else if self.found is Some {
            ErrorKind::Unexpected
        } else {
            ErrorKind::UnexpectedEof
        }
    }

    /// What kind of mistake the error points at.
    pub fn kind(&self) -> (k: ErrorKind)
        ensures
            k == self.spec_kind(),
    {
        match self.found {
            None if self.expects_closing_quote() => ErrorKind::UnterminatedQuote,
            None if self.expects(Expected::ClosingBrace) => ErrorKind::UnterminatedBlock,
            Some('}') if self.expects(Expected::DirectiveName) => ErrorKind::UnmatchedCloseBrace,
            _ if self.expects(Expected::DirectiveName) => ErrorKind::MissingDirectiveName,
            _ if self.expects(Expected::DirectiveTerminator) => ErrorKind::MissingTerminator,
            Some(_) => ErrorKind::Unexpected,
            None => ErrorKind::UnexpectedEof,
        }
    }
}

/// How an error's kind follows from what it found and what it expected:
/// an unterminated quote or block, or an unexpected end, is found only at
/// the end of the source; an unmatched closing brace is a `}` where a
/// directive name was expected, and anything else found there is a missing
/// name; a character found where nothing in particular was expected is
/// unexpected.
pub proof fn lemma_kind_laws(e: SyntaxError)
    ensures
        e.spec_kind() == ErrorKind::UnterminatedQuote <==> e.found is None
            && e.spec_expects_closing_quote(),
        e.spec_kind() == ErrorKind::UnterminatedBlock ==> e.found is None && e.spec_expects(
            Expected::ClosingBrace,
        ),
        e.spec_kind() == ErrorKind::UnexpectedEof ==> e.found is None,
        e.found is Some ==> e.spec_kind() != ErrorKind::UnterminatedQuote && e.spec_kind()
            != ErrorKind::UnterminatedBlock && e.spec_kind() != ErrorKind::UnexpectedEof,
        e.spec_kind() == ErrorKind::UnmatchedCloseBrace <==> e.found == Some('}')
            && e.spec_expects(Expected::DirectiveName),
        e.found is Some && e.found != Some('}') && e.spec_expects(Expected::DirectiveName)
            ==> e.spec_kind() == ErrorKind::MissingDirectiveName,
        e.found is None && !e.spec_expects_closing_quote() && e.spec_expects(
            Expected::ClosingBrace,
        ) ==> e.spec_kind() == ErrorKind::UnterminatedBlock,
        e.found is None && !e.spec_expects_closing_quote() && !e.spec_expects(
            Expected::ClosingBrace,
        ) && e.spec_expects(Expected::DirectiveName) ==> e.spec_kind()
            == ErrorKind::MissingDirectiveName,
        e.found is None ==> e.spec_kind() != ErrorKind::Unexpected,
        e.found is None && !e.spec_expects_closing_quote() && !e.spec_expects(
            Expected::ClosingBrace,
        ) && !e.spec_expects(Expected::DirectiveName) && !e.spec_expects(
            Expected::DirectiveTerminator,
        ) ==> e.spec_kind() == ErrorKind::UnexpectedEof,
        !(e.found is None && (e.spec_expects_closing_quote() || e.spec_expects(
            Expected::ClosingBrace,
        ))) && !e.spec_expects(Expected::DirectiveName) && e.spec_expects(
            Expected::DirectiveTerminator,
        ) ==> e.spec_kind() == ErrorKind::MissingTerminator,
        e.spec_kind() == ErrorKind::MissingDirectiveName ==> e.spec_expects(
            Expected::DirectiveName,
        ),
        e.spec_kind() == ErrorKind::MissingTerminator ==> e.spec_expects(
            Expected::DirectiveTerminator,
        ) && !e.spec_expects(Expected::DirectiveName),
        e.found is Some && !e.spec_expects(Expected::DirectiveName) && !e.spec_expects(
            Expected::DirectiveTerminator,
        ) ==> e.spec_kind() == ErrorKind::Unexpected,
{
}

} // verus!
