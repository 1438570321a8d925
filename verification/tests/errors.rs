use confparse::ast::Span;
use confparse::error::context::{Expected, ParseContext, ParseContextError, QuoteKind};
use confparse::error::{ErrorKind, LabelStyle, SyntaxError};
use confparse::parser::parse;
use winnow::error::{ErrMode, Needed};

fn error_of(source: &str) -> SyntaxError {
    match parse(source) {
        Ok(_) => panic!("{source:?} must not parse"),
        Err(e) => e,
    }
}

#[test]
fn unterminated_quote_is_reported_at_the_end() {
    let source = "foo \"bar";
    let e = error_of(source);
    assert_eq!(e.span, 8..8);
    assert_eq!(e.found, None);
    assert_eq!(e.kind(), ErrorKind::UnterminatedQuote);
    assert!(e.expects_closing_quote());
    assert_eq!(e.quoted_arg_ctx(), Some((QuoteKind::Double, &(4..5))));
    assert_eq!(e.message(source), "unterminated `\"` quoted argument");
    assert_eq!(e.primary_label_message(), "expected closing `{quote}`");

    let d = e.to_diagnostic(source);
    assert_eq!(d.message, "unterminated `\"` quoted argument");
    assert_eq!(d.labels.len(), 2);
    assert_eq!(d.labels[0].style, LabelStyle::Primary);
    assert_eq!(d.labels[0].range, 8..8);
    assert_eq!(d.labels[1].style, LabelStyle::Secondary);
    assert_eq!(d.labels[1].range, 4..5);
    assert_eq!(d.labels[1].message, "quoted argument starts with `\"` here");
    assert!(d.notes.is_empty());
}

#[test]
fn unterminated_single_quote_names_its_quote() {
    let source = "a 'x";
    let e = error_of(source);
    assert_eq!(e.message(source), "unterminated `'` quoted argument");
    assert_eq!(e.contexts.len(), 2);
    assert_eq!(
        e.contexts[0],
        ParseContext::Expected(Expected::ClosingQuote(QuoteKind::Single))
    );
    assert_eq!(
        e.contexts[1],
        ParseContext::InQuotedArgument { quote: QuoteKind::Single, open_quote_span: 2..3 }
    );
}

#[test]
fn unterminated_block_is_named_by_its_directive() {
    let source = "foo {";
    let e = error_of(source);
    assert_eq!(e.span, 5..5);
    assert_eq!(e.kind(), ErrorKind::UnterminatedBlock);
    assert!(e.expects(Expected::ClosingBrace));
    assert_eq!(e.block_ctx(), Some((&(0..3), &(4..5))));
    assert_eq!(e.message(source), "unterminated `foo` block");

    let d = e.to_diagnostic(source);
    assert_eq!(d.labels.len(), 2);
    assert_eq!(d.labels[0].message, "expected `}`");
    assert_eq!(d.labels[1].range, 4..5);
    assert_eq!(d.labels[1].message, "`foo` block starts here");
}

#[test]
fn unmatched_close_brace() {
    let source = "foo; }";
    let e = error_of(source);
    assert_eq!(e.span, 5..6);
    assert_eq!(e.found, Some('}'));
    assert_eq!(e.kind(), ErrorKind::UnmatchedCloseBrace);
    assert_eq!(e.message(source), "unmatched closing brace");
    assert_eq!(e.primary_label_message(), "this `}` has no matching '{'");
}

#[test]
fn semicolon_after_block_gets_a_note() {
    let source = "foo {};";
    let e = error_of(source);
    assert_eq!(e.span, 6..7);
    assert_eq!(e.found, Some(';'));
    assert_eq!(e.kind(), ErrorKind::MissingDirectiveName);
    assert_eq!(e.message(source), "expected a directive name");
    assert_eq!(e.notes(), vec!["a semicolon can only terminate a simple directive".to_string()]);
    let d = e.to_diagnostic(source);
    assert_eq!(d.labels.len(), 1);
    assert_eq!(d.labels[0].message, "expected a directive name here");
    assert_eq!(d.notes.len(), 1);
}

#[test]
fn missing_terminator_at_end_of_input() {
    let source = "foo 10";
    let e = error_of(source);
    assert_eq!(e.span, 6..6);
    assert_eq!(e.kind(), ErrorKind::MissingTerminator);
    assert_eq!(e.message(source), "expected a directive terminator");
    assert_eq!(
        e.primary_label_message(),
        "end the directive with `;` or start a block with `{`"
    );
}

#[test]
fn missing_terminator_before_a_brace_inside_a_block() {
    let source = "a { b }";
    let e = error_of(source);
    assert_eq!(e.span, 6..7);
    assert_eq!(e.found, Some('}'));
    assert_eq!(e.kind(), ErrorKind::MissingTerminator);
    assert_eq!(e.contexts.len(), 2);
    assert_eq!(e.contexts[0], ParseContext::Expected(Expected::DirectiveTerminator));
    assert_eq!(
        e.contexts[1],
        ParseContext::InBlock { name_span: 0..1, open_brace_span: 2..3 }
    );
}

#[test]
fn newline_separates_arguments_not_directives() {
    let ast = parse("foo 10\nbar 20;").unwrap();
    assert_eq!(ast.roots.len(), 1);
    let d = ast.directive(ast.roots[0]);
    assert_eq!(d.header.name, "foo");
    let args: Vec<&str> = d.header.args.iter().map(|a| a.value.as_ref()).collect();
    assert_eq!(args, vec!["10", "bar", "20"]);
}

#[test]
fn backslash_at_end_of_input() {
    let source = "a \"b\\";
    let e = error_of(source);
    assert_eq!(e.span, 5..5);
    assert_eq!(e.found, None);
    assert_eq!(
        e.contexts,
        vec![ParseContext::InQuotedArgument { quote: QuoteKind::Double, open_quote_span: 2..3 }]
    );
    assert_eq!(e.kind(), ErrorKind::UnexpectedEof);
    assert_eq!(e.message(source), "unexpected end of input");
    assert_eq!(e.primary_label_message(), "input ends here");
}

#[test]
fn error_span_covers_a_multibyte_character() {
    let source = "é;";
    let e = error_of(source);
    assert_eq!(e.span, 0..2);
    assert_eq!(e.found, Some('é'));
    assert_eq!(e.kind(), ErrorKind::MissingDirectiveName);
}

#[test]
fn unexpected_character_without_expectation() {
    let e = SyntaxError { span: 3..4, found: Some('x'), contexts: vec![] };
    assert_eq!(e.kind(), ErrorKind::Unexpected);
    assert_eq!(e.message("abcx"), "unexpected character `x`");
    assert_eq!(e.primary_label_message(), "unexpected input");
    assert!(e.notes().is_empty());
}

#[test]
fn block_without_name_context_has_a_plain_message() {
    let e = SyntaxError {
        span: 0..0,
        found: None,
        contexts: vec![ParseContext::Expected(Expected::ClosingBrace)],
    };
    assert_eq!(e.kind(), ErrorKind::UnterminatedBlock);
    assert_eq!(e.message(""), "unterminated block");
    assert_eq!(e.block_ctx(), None);
    let q = SyntaxError {
        span: 0..0,
        found: None,
        contexts: vec![ParseContext::Expected(Expected::ClosingQuote(QuoteKind::Single))],
    };
    assert_eq!(q.kind(), ErrorKind::UnterminatedQuote);
    assert_eq!(q.message(""), "unterminated quoted argument");
    assert_eq!(q.quoted_arg_ctx(), None);
}

#[test]
fn innermost_block_is_named() {
    let source = "outer { inner {";
    let e = error_of(source);
    assert_eq!(e.block_ctx(), Some((&(8..13), &(14..15))));
    assert_eq!(e.message(source), "unterminated `inner` block");
}

#[test]
fn from_context_reads_the_character_at_the_offset() {
    let source = "ab}";
    let error = ParseContextError::from_input(2)
        .add_context(ParseContext::Expected(Expected::DirectiveName));
    assert_eq!(error.span, 2..2);
    let e = SyntaxError::from_context(source, error);
    assert_eq!(e.span, 2..3);
    assert_eq!(e.found, Some('}'));
    assert_eq!(e.contexts, vec![ParseContext::Expected(Expected::DirectiveName)]);
    assert_eq!(e.kind(), ErrorKind::UnmatchedCloseBrace);
}

#[test]
fn from_err_mode_unwraps_cut_and_backtrack() {
    let source = "x;";
    let cut = ErrMode::Cut(ParseContextError::from_input(1));
    let e = SyntaxError::from_err_mode(source, cut);
    assert_eq!(e.span, 1..2);
    assert_eq!(e.found, Some(';'));
    let backtrack = ErrMode::Backtrack(
        ParseContextError::from_input(0).add_context(ParseContext::Expected(Expected::DirectiveName)),
    );
    let e = SyntaxError::from_err_mode(source, backtrack);
    assert_eq!(e.span, 0..1);
    assert!(e.expects(Expected::DirectiveName));
}

#[test]
fn incomplete_input_is_reported_at_the_end() {
    let source = "abc";
    let e = SyntaxError::from_err_mode(source, ErrMode::Incomplete(Needed::Unknown));
    assert_eq!(e.span, 3..3);
    assert_eq!(e.found, None);
    assert!(e.contexts.is_empty());
    assert_eq!(e.kind(), ErrorKind::UnexpectedEof);
}

#[test]
fn source_text_reads_a_span() {
    let span: Span = 4..7;
    assert_eq!(SyntaxError::source_text("foo bar baz", &span), "bar");
}

#[test]
fn quote_kind_conversions() {
    assert_eq!(QuoteKind::from('\''), QuoteKind::Single);
    assert_eq!(QuoteKind::from('"'), QuoteKind::Double);
    assert_eq!(QuoteKind::from('x'), QuoteKind::Double);
    assert_eq!(QuoteKind::Single.as_char(), '\'');
    assert_eq!(QuoteKind::Double.as_char(), '"');
}
