use confparse::ast::{Arg, ConfigAst, Directive, DirectiveHeader, DirectiveId, DirectiveKind};
use confparse::parser::parse;
use la_arena::Arena;
use std::borrow::Cow;

fn arg_values<'s>(args: &'s [Arg<'_>]) -> Vec<&'s str> {
    args.iter().map(|a| a.value.as_ref()).collect()
}

#[test]
fn spans_of_a_simple_directive() {
    let ast = parse("listen 80;").unwrap();
    let d = ast.directive(ast.roots[0]);
    assert_eq!(d.header.name_span, 0..6);
    assert_eq!(d.header.span, 0..9);
    assert_eq!(d.header.args[0].span, 7..9);
    assert_eq!(d.span, 0..10);
    let DirectiveKind::Simple { semicolon_span } = &d.kind else {
        panic!("listen must be simple")
    };
    assert_eq!(*semicolon_span, 9..10);
}

#[test]
fn spans_of_a_block() {
    let ast = parse("  server  {\n  }  ").unwrap();
    let d = ast.directive(ast.roots[0]);
    assert_eq!(d.header.name_span, 2..8);
    assert_eq!(d.header.span, 2..8);
    assert_eq!(d.span, 2..15);
    let DirectiveKind::Block { children, open_brace_span, close_brace_span } = &d.kind else {
        panic!("server must be a block")
    };
    assert!(children.is_empty());
    assert_eq!(*open_brace_span, 10..11);
    assert_eq!(*close_brace_span, 14..15);
}

#[test]
fn empty_and_blank_sources_have_no_directives() {
    assert!(parse("").unwrap().roots.is_empty());
    let ast = parse(" \t\r\n# only a comment\n").unwrap();
    assert!(ast.roots.is_empty());
    assert_eq!(ast.directives.len(), 0);
}

#[test]
fn comments_are_whitespace() {
    let source = "# head\nuser nginx; # trailing\nevents {\n  # inside\n  worker_connections 1024;\n}\n# tail";
    let ast = parse(source).unwrap();
    assert_eq!(ast.roots.len(), 2);
    assert_eq!(ast.directives.len(), 3);
    let user = ast.directive(ast.roots[0]);
    assert_eq!(user.header.name, "user");
    assert_eq!(arg_values(&user.header.args), vec!["nginx"]);
}

#[test]
fn hash_inside_a_bare_argument_is_kept() {
    let ast = parse("color a#b;").unwrap();
    let d = ast.directive(ast.roots[0]);
    assert_eq!(arg_values(&d.header.args), vec!["a#b"]);
}

#[test]
fn quoted_arguments_are_unescaped() {
    let source = r#"say "a\"b" 'c\'d' "\\ \t\r\n" "\q" 'x"y';"#;
    let ast = parse(source).unwrap();
    let d = ast.directive(ast.roots[0]);
    assert_eq!(
        arg_values(&d.header.args),
        vec!["a\"b", "c'd", "\\ \t\r\n", "\\q", "x\"y"]
    );
    assert!(matches!(d.header.args[0].value, Cow::Owned(_)));
    assert_eq!(d.header.args[0].span, 4..10);
}

#[test]
fn bare_arguments_are_borrowed() {
    let ast = parse("root /var/www;").unwrap();
    let d = ast.directive(ast.roots[0]);
    assert!(matches!(d.header.args[0].value, Cow::Borrowed("/var/www")));
}

#[test]
fn quoted_argument_may_hold_delimiters() {
    let ast = parse("log_format main '$remote_addr { } ; #';").unwrap();
    let d = ast.directive(ast.roots[0]);
    assert_eq!(arg_values(&d.header.args), vec!["main", "$remote_addr { } ; #"]);
}

#[test]
fn escape_before_a_multibyte_character_keeps_both() {
    let ast = parse("a \"\\é\";").unwrap();
    let d = ast.directive(ast.roots[0]);
    assert_eq!(arg_values(&d.header.args), vec!["\\é"]);
}

#[test]
fn non_ascii_bare_arguments() {
    let ast = parse("name 日本語　全角;").unwrap();
    let d = ast.directive(ast.roots[0]);
    assert_eq!(arg_values(&d.header.args), vec!["日本語　全角"]);
    assert_eq!(d.header.args[0].span, 5..23);
}

#[test]
fn arguments_need_whitespace_before_them() {
    // a quote right after the name is not an argument
    let e = parse("a\"b\";").err().unwrap();
    assert_eq!(e.span, 1..2);
    assert_eq!(e.found, Some('"'));
}

#[test]
fn children_come_before_their_block_in_the_arena() {
    let ast = parse("a { b; c { d; } } e;").unwrap();
    assert_eq!(ast.directives.len(), 5);
    let names: Vec<&str> = ast.directives.values().map(|d| d.header.name).collect();
    assert_eq!(names, vec!["b", "d", "c", "a", "e"]);
    assert_eq!(ast.roots, vec![DirectiveId(3), DirectiveId(4)]);
    let a = ast.directive(DirectiveId(3));
    let DirectiveKind::Block { children, .. } = &a.kind else { panic!("a must be a block") };
    assert_eq!(*children, vec![DirectiveId(0), DirectiveId(2)]);
    assert_eq!(ast.directive(DirectiveId(0)).parent, Some(DirectiveId(3)));
    assert_eq!(ast.directive(DirectiveId(1)).parent, Some(DirectiveId(2)));
    assert_eq!(ast.directive(DirectiveId(2)).parent, Some(DirectiveId(3)));
    assert_eq!(ast.directive(DirectiveId(3)).parent, None);
    assert_eq!(ast.directive(DirectiveId(4)).parent, None);
}

fn simple(name: &'static str, start: usize) -> Directive<'static> {
    Directive {
        header: DirectiveHeader {
            name,
            name_span: start..start + name.len(),
            args: Vec::new(),
            span: start..start + name.len(),
        },
        kind: DirectiveKind::Simple { semicolon_span: start + name.len()..start + name.len() + 1 },
        parent: Some(DirectiveId(7)),
        span: start..start + name.len() + 1,
    }
}

#[test]
fn link_parents_sets_the_listing_block() {
    let mut directives = Arena::new();
    directives.alloc(simple("x", 4));
    directives.alloc(simple("y", 7));
    directives.alloc(Directive {
        header: DirectiveHeader { name: "b", name_span: 0..1, args: Vec::new(), span: 0..1 },
        kind: DirectiveKind::Block {
            children: vec![DirectiveId(0), DirectiveId(1)],
            open_brace_span: 2..3,
            close_brace_span: 10..11,
        },
        parent: Some(DirectiveId(0)),
        span: 0..11,
    });
    directives.alloc(simple("z", 12));
    let mut ast = ConfigAst { directives, roots: vec![DirectiveId(2), DirectiveId(3)] };
    ast.link_parents();
    assert_eq!(ast.directive(DirectiveId(0)).parent, Some(DirectiveId(2)));
    assert_eq!(ast.directive(DirectiveId(1)).parent, Some(DirectiveId(2)));
    assert_eq!(ast.directive(DirectiveId(2)).parent, None);
    assert_eq!(ast.directive(DirectiveId(3)).parent, None);
    assert_eq!(ast.directive(DirectiveId(3)).header.name, "z");
}

#[test]
fn link_parents_follows_the_roots_only() {
    // the block comes first in the arena, before its children; the last
    // directive is listed nowhere and keeps the parent it had
    let mut directives = Arena::new();
    directives.alloc(Directive {
        header: DirectiveHeader { name: "b", name_span: 0..1, args: Vec::new(), span: 0..1 },
        kind: DirectiveKind::Block {
            children: vec![DirectiveId(2), DirectiveId(1)],
            open_brace_span: 2..3,
            close_brace_span: 10..11,
        },
        parent: Some(DirectiveId(3)),
        span: 0..11,
    });
    directives.alloc(simple("x", 4));
    directives.alloc(simple("y", 7));
    let mut stray = simple("z", 12);
    stray.parent = Some(DirectiveId(1));
    directives.alloc(stray);
    let mut ast = ConfigAst { directives, roots: vec![DirectiveId(0)] };
    ast.link_parents();
    let parents: Vec<Option<DirectiveId>> = ast.directives.values().map(|d| d.parent).collect();
    assert_eq!(
        parents,
        vec![None, Some(DirectiveId(0)), Some(DirectiveId(0)), Some(DirectiveId(1))]
    );
    assert_eq!(ast.roots, vec![DirectiveId(0)]);
    assert_eq!(ast.directive(DirectiveId(2)).header.name, "y");
    // a second pass changes nothing
    ast.link_parents();
    let again: Vec<Option<DirectiveId>> = ast.directives.values().map(|d| d.parent).collect();
    assert_eq!(again, parents);
}

#[test]
fn directive_count_matches_the_source() {
    let source = "a; b { c 'x'; d { e \"y\" z; } } f # c\n { }";
    let ast = parse(source).unwrap();
    assert_eq!(ast.directives.len(), 6);
    assert_eq!(ast.roots.len(), 3);
}

#[test]
fn written_configs_parse_with_their_directive_count() {
    let samples: [(&str, usize, usize); 6] = [
        ("", 0, 0),
        ("\t# lead\r\nA_1 x ./y:z-w 'q\\'\\q${v}' \"日本 {};#\"\n;", 1, 1),
        ("a\n{\n  b c;\n  d { e; }\n}\nf #c\n ;", 5, 2),
        ("x{}y{z;}  # tail\n", 3, 2),
        ("n1 '\\\\' \"\\t\\r\\n\" ;n2{n3 a;n4{}}", 4, 2),
        ("k a}'\"# w/x .y\n{ v ${ab}#\n; }", 2, 1),
    ];
    for (source, directives, roots) in samples {
        let ast = parse(source).unwrap();
        assert_eq!(ast.directives.len(), directives, "{source:?}");
        assert_eq!(ast.roots.len(), roots, "{source:?}");
    }
}

#[test]
fn bare_arguments_hold_braces_quotes_and_variables() {
    let ast = parse("x a}b;").unwrap();
    assert_eq!(ast.roots.len(), 1);
    assert_eq!(ast.directives.len(), 1);
    let d = ast.directive(ast.roots[0]);
    assert_eq!(arg_values(&d.header.args), vec!["a}b"]);
    let ast = parse("a ${v};").unwrap();
    let d = ast.directive(ast.roots[0]);
    assert_eq!(arg_values(&d.header.args), vec!["${v}"]);
    assert_eq!(d.header.args[0].span, 2..6);
    let ast = parse("a b'c\"d ${}x${v_1}y;").unwrap();
    let d = ast.directive(ast.roots[0]);
    assert_eq!(arg_values(&d.header.args), vec!["b'c\"d", "${}x${v_1}y"]);
}

#[test]
fn bare_arguments_do_not_start_with_a_brace() {
    let e = parse("a }b;").err().unwrap();
    assert_eq!(e.span, 2..3);
    assert_eq!(e.found, Some('}'));
    assert_eq!(e.kind(), confparse::error::ErrorKind::MissingTerminator);
}

#[test]
fn bare_argument_reads_a_comment_that_touches_it() {
    let ast = parse("a b#c d\n;").unwrap();
    let d = ast.directive(ast.roots[0]);
    assert_eq!(arg_values(&d.header.args), vec!["b#c", "d"]);
    // the brace of such a comment opens a block
    let e = parse("a b#x{\n;").err().unwrap();
    assert_eq!(e.span, 7..8);
    assert!(e.expects(confparse::error::context::Expected::ClosingBrace));
}

#[test]
fn names_are_the_source_text_at_their_spans() {
    let source = "  alpha 1 'two' { beta; }\ngamma three;";
    let ast = parse(source).unwrap();
    for d in ast.directives.values() {
        assert_eq!(&source[d.header.name_span.clone()], d.header.name);
        assert_eq!(d.span.start, d.header.name_span.start);
        assert_eq!(d.header.span.start, d.span.start);
        assert!(d.header.span.end < d.span.end);
        for a in &d.header.args {
            assert!(d.header.name_span.end < a.span.start);
            assert!(a.span.end <= d.header.span.end);
        }
        match &d.kind {
            DirectiveKind::Simple { semicolon_span } => {
                assert_eq!(&source[semicolon_span.clone()], ";");
                assert_eq!(semicolon_span.end, d.span.end);
            }
            DirectiveKind::Block { open_brace_span, close_brace_span, .. } => {
                assert_eq!(&source[open_brace_span.clone()], "{");
                assert_eq!(&source[close_brace_span.clone()], "}");
                assert_eq!(close_brace_span.end, d.span.end);
            }
        }
    }
}

#[test]
fn default_configuration_is_empty() {
    let ast = ConfigAst::default();
    assert_eq!(ast.directives.len(), 0);
    assert!(ast.roots.is_empty());
}

#[test]
fn siblings_follow_one_another_within_their_block() {
    let source = "a { b; c x { } } d 'q';";
    let ast = parse(source).unwrap();
    let spans: Vec<_> = ast.roots.iter().map(|&id| ast.directive(id).span.clone()).collect();
    assert_eq!(spans, vec![0..16, 17..23]);
    let a = ast.directive(ast.roots[0]);
    let DirectiveKind::Block { children, open_brace_span, close_brace_span } = &a.kind else {
        panic!("a must be a block")
    };
    let child_spans: Vec<_> = children.iter().map(|&id| ast.directive(id).span.clone()).collect();
    assert_eq!(child_spans, vec![4..6, 7..14]);
    assert!(open_brace_span.end <= child_spans[0].start);
    assert!(child_spans[0].end <= child_spans[1].start);
    assert!(child_spans[1].end <= close_brace_span.start);
}
