//! The shape of what the parser allocates: each directive's subtree fills
//! the stretch of the arena just before it, so the arena is a forest in
//! post-order, and a well-formed one.

use crate::ast::{kind_children, ArgView, ConfigView, DirectiveView, KindView};
use crate::parser::grammar::{
    lemma_name_end, lemma_parse_arg, lemma_parse_args, lemma_ws_end, name_end, parse_arg,
    parse_args, parse_config, parse_directive, parse_directives, skip_ws, is_name_byte, is_quote,
    ArgParse,
    LBRACE, RBRACE, SEMICOLON,
};
use vstd::prelude::*;

verus! {

/// The directives `ids`, in order, with their subtrees, fill exactly the
/// stretch `[lo, hi)` of `nodes`: each subtree ends with its root, and a
/// block's children fill the stretch of its subtree before it.
pub open spec fn forest_on(nodes: Seq<DirectiveView>, lo: int, hi: int, ids: Seq<nat>) -> bool
    decreases hi - lo, ids.len(),
{
    if ids.len() == 0 {
        0 <= lo == hi <= nodes.len()
    } else {
        let r = ids[0] as int;
        if 0 <= lo <= r && r < hi && hi <= nodes.len() {
            (match nodes[r].kind {
                KindView::Simple { .. } => lo == r,
                KindView::Block { children, .. } => forest_on(nodes, lo, r, children),
            }) && forest_on(nodes, r + 1, hi, ids.drop_first())
        } else {
            false
        }
    }
}

pub open spec fn increasing(s: Seq<nat>) -> bool {
    forall|i: int, j: int| 0 <= i < j < s.len() ==> s[i] < s[j]
}

/// The directive at `j` of `nodes` lists `c` among its children.
pub open spec fn child_in(nodes: Seq<DirectiveView>, c: nat, j: int) -> bool {
    0 <= j < nodes.len() && kind_children(nodes[j].kind).contains(c)
}

/// A forest only reads the stretch it fills.
proof fn lemma_forest_same(n1: Seq<DirectiveView>, n2: Seq<DirectiveView>, lo: int, hi: int, ids: Seq<nat>)
    requires
        forest_on(n1, lo, hi, ids),
        hi <= n2.len(),
        forall|k: int| lo <= k < hi ==> #[trigger] n2[k] == n1[k],
    ensures
        forest_on(n2, lo, hi, ids),
    decreases hi - lo, ids.len(),
{
    if ids.len() > 0 {
        let r = ids[0] as int;
        if let KindView::Block { children, .. } = n1[r].kind {
            lemma_forest_same(n1, n2, lo, r, children);
        }
        lemma_forest_same(n1, n2, r + 1, hi, ids.drop_first());
    }
}

/// What a forest on `[lo, hi)` gives: its roots and each block's children
/// lie in the stretch, in increasing order, children before their block;
/// every directive of the stretch is a root or the child of exactly one
/// block of the stretch, and never both.
proof fn lemma_forest_facts(nodes: Seq<DirectiveView>, lo: int, hi: int, ids: Seq<nat>)
    requires
        forest_on(nodes, lo, hi, ids),
    ensures
        0 <= lo <= hi <= nodes.len(),
        increasing(ids),
        forall|i: int| 0 <= i < ids.len() ==> lo <= #[trigger] ids[i] < hi,
        forall|j: int| lo <= j < hi ==> increasing(#[trigger] kind_children(nodes[j].kind)),
        forall|c: nat, j: int| lo <= j < hi && #[trigger] child_in(nodes, c, j) ==> lo <= c < j,
        forall|c: nat| lo <= c < hi ==> #[trigger] ids.contains(c) || exists|j: int|
            lo <= j < hi && #[trigger] child_in(nodes, c, j),
        forall|c: nat, j: int|
            #![trigger ids.contains(c), child_in(nodes, c, j)]
            ids.contains(c) && lo <= j < hi ==> !child_in(nodes, c, j),
        forall|c: nat, j1: int, j2: int|
            #![trigger child_in(nodes, c, j1), child_in(nodes, c, j2)]
            lo <= j1 < hi && lo <= j2 < hi && child_in(nodes, c, j1) && child_in(nodes, c, j2)
                ==> j1 == j2,
    decreases hi - lo, ids.len(),
{
    if ids.len() > 0 {
        let r = ids[0] as int;
        let rest = ids.drop_first();
        let ch = kind_children(nodes[r].kind);
        lemma_forest_facts(nodes, r + 1, hi, rest);
        match nodes[r].kind {
            KindView::Simple { .. } => {
                assert(ch =~= Seq::<nat>::empty());
            },
            KindView::Block { children, .. } => {
                lemma_forest_facts(nodes, lo, r, children);
            },
        }
        // from the two parts to the whole
        assert forall|i: int, j: int| 0 <= i < j < ids.len() implies ids[i] < ids[j] by {
            if i > 0 {
                assert(ids[i] == rest[i - 1] && ids[j] == rest[j - 1]);
            } else {
                assert(ids[j] == rest[j - 1]);
            }
        }
        assert forall|i: int| 0 <= i < ids.len() implies lo <= #[trigger] ids[i] < hi by {
            if i > 0 {
                assert(ids[i] == rest[i - 1]);
            }
        }
        assert forall|j: int| lo <= j < hi implies increasing(#[trigger] kind_children(nodes[j].kind)) by {
            if j == r {
                if let KindView::Simple { .. } = nodes[r].kind {
                    assert(ch =~= Seq::<nat>::empty());
                }
            }
        }
        assert forall|c: nat, j: int| lo <= j < hi && #[trigger] child_in(nodes, c, j) implies lo
            <= c < j by {
            if j == r {
                let k = choose|k: int| 0 <= k < ch.len() && ch[k] == c;
            }
        }
        assert forall|c: nat| lo <= c < hi implies #[trigger] ids.contains(c) || exists|j: int|
            lo <= j < hi && #[trigger] child_in(nodes, c, j) by {
            if c == r {
                assert(ids[0] == c);
            } else if c > r {
                if rest.contains(c) {
                    let k = choose|k: int| 0 <= k < rest.len() && rest[k] == c;
                    assert(ids[k + 1] == c);
                }
            } else {
                if ch.contains(c) {
                    assert(child_in(nodes, c, r));
                }
            }
        }
        assert forall|c: nat, j: int| ids.contains(c) && lo <= j < hi implies !child_in(
            nodes,
            c,
            j,
        ) by {
            let k = choose|k: int| 0 <= k < ids.len() && ids[k] == c;
            if k > 0 {
                assert(rest[k - 1] == c);
                assert(rest.contains(c));
            }
            if child_in(nodes, c, j) {
                if j > r {
                    assert(c > r);
                } else if j == r {
                    let m = choose|m: int| 0 <= m < ch.len() && ch[m] == c;
                    assert(ch[m] < r);
                }
            }
        }
        assert forall|c: nat, j1: int, j2: int|
            lo <= j1 < hi && lo <= j2 < hi && child_in(nodes, c, j1) && child_in(nodes, c, j2)
                implies j1 == j2 by {
            if j1 == r && j2 < r {
                let m = choose|m: int| 0 <= m < ch.len() && ch[m] == c;
                assert(ch.contains(c));
            } else if j2 == r && j1 < r {
                let m = choose|m: int| 0 <= m < ch.len() && ch[m] == c;
                assert(ch.contains(c));
            } else if j1 == r && j2 > r {
                let m = choose|m: int| 0 <= m < ch.len() && ch[m] == c;
                assert(ch[m] < r);
            } else if j2 == r && j1 > r {
                let m = choose|m: int| 0 <= m < ch.len() && ch[m] == c;
                assert(ch[m] < r);
            } else if j1 < r && j2 > r {
                assert(c < j1);
            } else if j2 < r && j1 > r {
                assert(c < j2);
            }
        }
    }
}

/// The subtree of the directive at `r` fills `[lo, r]`.
pub open spec fn tree_at(nodes: Seq<DirectiveView>, lo: int, r: int) -> bool {
    &&& 0 <= lo <= r < nodes.len()
    &&& match nodes[r].kind {
        KindView::Simple { .. } => lo == r,
        KindView::Block { children, .. } => forest_on(nodes, lo, r, children),
    }
}

/// A directive keeps the arena before it and appends its subtree.
proof fn lemma_directive_forest(b: Seq<u8>, start: int, nodes: Seq<DirectiveView>)
    ensures
        parse_directive(b, start, nodes) matches Ok((nodes2, _)) ==> {
            &&& nodes2.len() > nodes.len()
            &&& forall|k: int| 0 <= k < nodes.len() ==> #[trigger] nodes2[k] == nodes[k]
            &&& tree_at(nodes2, nodes.len() as int, nodes2.len() - 1)
        },
    decreases b.len() - start, 0int,
{
    if 0 <= start <= b.len() {
        let ne = name_end(b, start);
        if let Ok((args, he)) = parse_args(b, ne) {
            let p = skip_ws(b, he);
            if 0 <= p < b.len() && b[p] == LBRACE {
                let c = skip_ws(b, p + 1);
                lemma_name_end(b, start);
                lemma_parse_args(b, ne);
                lemma_ws_end(b, he, false);
                lemma_ws_end(b, p + 1, false);
                lemma_directives_forest(b, c, nodes);
                if let Ok((nodes2, children, q)) = parse_directives(b, c, nodes) {
                    if 0 <= q < b.len() && b[q] == RBRACE {
                        let nodes3 = parse_directive(b, start, nodes)->Ok_0.0;
                        assert(nodes3 == nodes2.push(nodes3[nodes2.len() as int]));
                        lemma_forest_same(nodes2, nodes3, nodes.len() as int, nodes2.len() as int, children);
                    }
                }
            }
        }
    }
}

/// Directives keep the arena before them and append a forest of their
/// subtrees.
proof fn lemma_directives_forest(b: Seq<u8>, i: int, nodes: Seq<DirectiveView>)
    ensures
        parse_directives(b, i, nodes) matches Ok((nodes3, ids, _)) ==> {
            &&& nodes3.len() >= nodes.len()
            &&& forall|k: int| 0 <= k < nodes.len() ==> #[trigger] nodes3[k] == nodes[k]
            &&& forest_on(nodes3, nodes.len() as int, nodes3.len() as int, ids)
        },
    decreases b.len() - i, 1int,
{
    if 0 <= i < b.len() && is_name_byte(b[i]) {
        lemma_directive_forest(b, i, nodes);
        if let Ok((nodes2, end)) = parse_directive(b, i, nodes) {
            let j = skip_ws(b, end);
            if !(j <= i || j > b.len()) {
                lemma_directives_forest(b, j, nodes2);
                if let Ok((nodes3, ids, k)) = parse_directives(b, j, nodes2) {
                    let r = nodes2.len() - 1;
                    let all = seq![r as nat] + ids;
                    assert(all.drop_first() =~= ids);
                    assert(nodes3[r] == nodes2[r]);
                    if let KindView::Block { children, .. } = nodes2[r].kind {
                        lemma_forest_same(nodes2, nodes3, nodes.len() as int, r, children);
                    }
                    assert(forest_on(nodes3, nodes.len() as int, nodes3.len() as int, all));
                }
            }
        }
    }
}

/// What the parser yields is a well-formed forest: every directive of the
/// arena is a top-level one or the child of exactly one block, never both,
/// no list names a directive twice, and each block comes after its children.
pub proof fn lemma_parsed_config_wf(b: Seq<u8>)
    ensures
        parse_config(b) matches Ok((nodes, roots)) ==> (ConfigView {
            directives: nodes,
            roots,
        }).wf(),
{
    lemma_directives_forest(b, skip_ws(b, 0), Seq::empty());
    if let Ok((nodes, roots)) = parse_config(b) {
        let v = ConfigView { directives: nodes, roots };
        lemma_forest_facts(nodes, 0, nodes.len() as int, roots);
        assert forall|c: nat, j: int| v.is_child_of(c, j) <==> child_in(nodes, c, j) by {}
        assert forall|j: int, k: int|
            0 <= j < nodes.len() && 0 <= k < v.children_of(j).len() implies #[trigger] v.children_of(
            j,
        )[k] < j by {
            assert(child_in(nodes, v.children_of(j)[k], j));
        }
        assert forall|c: nat|
            c < nodes.len() implies #[trigger] roots.contains(c) || exists|j: int|
                #[trigger] v.is_child_of(c, j) by {
            if !roots.contains(c) {
                let j = choose|j: int| 0 <= j < nodes.len() && #[trigger] child_in(nodes, c, j);
                assert(v.is_child_of(c, j));
            }
        }
    }
}

/// Once the parser has linked parents, a directive has none exactly when
/// it is a top-level one, and otherwise its parent is the block that lists
/// it.
pub proof fn lemma_parsed_parents(b: Seq<u8>)
    ensures
        parse_config(b) matches Ok((nodes, roots)) ==> {
            let v = ConfigView { directives: nodes, roots };
            &&& forall|c: nat|
                c < nodes.len() ==> (#[trigger] v.with_parents().directives[c as int].parent is None
                    <==> roots.contains(c))
            &&& forall|c: nat, j: int|
                #[trigger] v.is_child_of(c, j) ==> v.with_parents().directives[c as int].parent
                    == Some(j as nat)
        },
{
    lemma_parsed_config_wf(b);
    if let Ok((nodes, roots)) = parse_config(b) {
        crate::ast::lemma_wf_parents(ConfigView { directives: nodes, roots });
    }
}

/// The arguments lie in order after `p` and up to `end`, apart from one
/// another; an argument is borrowed exactly when it does not start with a
/// quote, and then its value is the source text at its span.
pub open spec fn args_within(b: Seq<u8>, args: Seq<ArgView>, p: int, end: int) -> bool {
    &&& forall|k: int| 0 <= k < args.len() ==> p < #[trigger] args[k].span.0 < args[k].span.1 <= end
    &&& forall|k: int, m: int| 0 <= k < m < args.len() ==> #[trigger] args[k].span.1 < #[trigger] args[m].span.0
    &&& forall|k: int|
        0 <= k < args.len() ==> (#[trigger] args[k].borrowed <==> !is_quote(b[args[k].span.0]))
    &&& forall|k: int|
        0 <= k < args.len() && #[trigger] args[k].borrowed ==> args[k].value == b.subrange(
            args[k].span.0,
            args[k].span.1,
        )
}

/// Where a directive's spans lie in the source `b`: the name starts the
/// directive and is the source text at its span, made of name bytes; the
/// header runs from the name over the arguments; a `;` or the closing `}`
/// ends the directive.
pub open spec fn spans_in(b: Seq<u8>, d: DirectiveView) -> bool {
    &&& 0 <= d.span.0 && d.span.0 == d.name_span.0 && d.name_span.0 == d.header_span.0
    &&& d.name_span.0 < d.name_span.1 <= d.header_span.1 < d.span.1 <= b.len()
    &&& d.name == b.subrange(d.name_span.0, d.name_span.1)
    &&& forall|m: int| 0 <= m < d.name.len() ==> is_name_byte(#[trigger] d.name[m])
    &&& args_within(b, d.args, d.name_span.1, d.header_span.1)
    &&& match d.kind {
        KindView::Simple { semicolon_span } => semicolon_span == (d.span.1 - 1, d.span.1)
            && b[d.span.1 - 1] == SEMICOLON,
        KindView::Block { open_brace_span, close_brace_span, .. } => {
            &&& d.header_span.1 <= open_brace_span.0
            &&& open_brace_span.1 == open_brace_span.0 + 1
            &&& open_brace_span.1 <= close_brace_span.0
            &&& close_brace_span == (d.span.1 - 1, d.span.1)
            &&& b[open_brace_span.0] == LBRACE
            &&& b[close_brace_span.0] == RBRACE
        },
    }
}

proof fn lemma_args_within(b: Seq<u8>, p: int)
    requires
        0 <= p <= b.len(),
    ensures
        parse_args(b, p) matches Ok((args, end)) ==> args_within(b, args, p, end),
    decreases b.len() - p,
{
    let q = skip_ws(b, p);
    lemma_ws_end(b, p, false);
    if q > p {
        lemma_parse_arg(b, q);
        if let ArgParse::Arg(a) = parse_arg(b, q) {
            lemma_args_within(b, a.span.1);
            lemma_parse_args(b, a.span.1);
            if let Ok((rest, end)) = parse_args(b, a.span.1) {
                let all = seq![a] + rest;
                assert forall|k: int| 0 <= k < all.len() implies p < #[trigger] all[k].span.0
                    < all[k].span.1 <= end by {
                    if k > 0 {
                        assert(all[k] == rest[k - 1]);
                    }
                }
                assert forall|k: int, m: int| 0 <= k < m < all.len() implies #[trigger] all[k].span.1
                    < #[trigger] all[m].span.0 by {
                    assert(all[m] == rest[m - 1]);
                    if k > 0 {
                        assert(all[k] == rest[k - 1]);
                    }
                }
                assert forall|k: int| 0 <= k < all.len() implies (#[trigger] all[k].borrowed
                    <==> !is_quote(b[all[k].span.0])) && (all[k].borrowed ==> all[k].value
                    == b.subrange(all[k].span.0, all[k].span.1)) by {
                    if k > 0 {
                        assert(all[k] == rest[k - 1]);
                    } else {
                        assert(all[0] == a);
                        assert(a.span.0 == q);
                        if is_quote(b[q]) {
                            assert(!a.borrowed);
                        } else {
                            assert(a.borrowed);
                        }
                    }
                }
            }
        }
    }
}

proof fn lemma_directive_spans(b: Seq<u8>, start: int, nodes: Seq<DirectiveView>)
    requires
        forall|k: int| 0 <= k < nodes.len() ==> spans_in(b, #[trigger] nodes[k]),
        0 <= start < b.len(),
        is_name_byte(b[start]),
    ensures
        parse_directive(b, start, nodes) matches Ok((nodes2, end)) ==> {
            &&& start < end <= b.len()
            &&& forall|k: int| 0 <= k < nodes2.len() ==> spans_in(b, #[trigger] nodes2[k])
        },
    decreases b.len() - start, 0int,
{
    let ne = name_end(b, start);
    lemma_name_end(b, start);
    lemma_parse_args(b, ne);
    lemma_args_within(b, ne);
    if let Ok((args, he)) = parse_args(b, ne) {
        let p = skip_ws(b, he);
        lemma_ws_end(b, he, false);
        assert(ne > start);
        if 0 <= p < b.len() && b[p] == LBRACE {
            let c = skip_ws(b, p + 1);
            lemma_ws_end(b, p + 1, false);
            lemma_directives_spans(b, c, nodes);
            if let Ok((nodes2, end)) = parse_directive(b, start, nodes) {
                let last = nodes2.len() - 1;
                assert(spans_in(b, nodes2[last]));
                assert forall|k: int| 0 <= k < nodes2.len() implies spans_in(b, #[trigger] nodes2[k]) by {
                    if k < last {
                        let inner = parse_directives(b, c, nodes)->Ok_0.0;
                        assert(nodes2[k] == inner[k]);
                    }
                }
            }
        } else if 0 <= p < b.len() && b[p] == SEMICOLON {
            if let Ok((nodes2, end)) = parse_directive(b, start, nodes) {
                let last = nodes2.len() - 1;
                assert(spans_in(b, nodes2[last]));
                assert forall|k: int| 0 <= k < nodes2.len() implies spans_in(b, #[trigger] nodes2[k]) by {
                    if k < last {
                        assert(nodes2[k] == nodes[k]);
                    }
                }
            }
        }
    }
}

proof fn lemma_directives_spans(b: Seq<u8>, i: int, nodes: Seq<DirectiveView>)
    requires
        forall|k: int| 0 <= k < nodes.len() ==> spans_in(b, #[trigger] nodes[k]),
        0 <= i <= b.len(),
    ensures
        parse_directives(b, i, nodes) matches Ok((nodes3, _, end)) ==> {
            &&& i <= end <= b.len()
            &&& forall|k: int| 0 <= k < nodes3.len() ==> spans_in(b, #[trigger] nodes3[k])
        },
    decreases b.len() - i, 1int,
{
    if 0 <= i < b.len() && is_name_byte(b[i]) {
        lemma_directive_spans(b, i, nodes);
        if let Ok((nodes2, end)) = parse_directive(b, i, nodes) {
            let j = skip_ws(b, end);
            if !(j <= i || j > b.len()) {
                lemma_directives_spans(b, j, nodes2);
            }
        }
    }
}

/// Every directive that the parser yields lies within the source: its name,
/// made of name bytes, is the source text at the name span, which starts the
/// directive; its
/// arguments follow the name in order within the header, a bare one borrowed
/// as the source text at its span and a quoted one owned; a `;` or a `{ }`
/// pair after the header closes it.
pub proof fn lemma_parsed_spans(b: Seq<u8>)
    ensures
        parse_config(b) matches Ok((nodes, _)) ==> forall|k: int|
            0 <= k < nodes.len() ==> spans_in(b, #[trigger] nodes[k]),
{
    lemma_ws_end(b, 0, false);
    lemma_directives_spans(b, skip_ws(b, 0), Seq::empty());
}


/// The directives `ids` lie within `[lo, hi)` of the source, one after the
/// other and apart.
pub open spec fn in_order(nodes: Seq<DirectiveView>, ids: Seq<nat>, lo: int, hi: int) -> bool {
    &&& forall|a: int|
        0 <= a < ids.len() ==> lo <= nodes[#[trigger] ids[a] as int].span.0 && nodes[ids[a] as int].span.1
            <= hi
    &&& forall|a: int, c: int|
        0 <= a < c < ids.len() ==> nodes[#[trigger] ids[a] as int].span.1 <= nodes[#[trigger] ids[c] as int].span.0
}

/// The children of the block at `m` come before it in the arena and lie
/// between its braces, one after the other and apart.
pub open spec fn block_layout(nodes: Seq<DirectiveView>, m: int) -> bool {
    match nodes[m].kind {
        KindView::Block { children, open_brace_span, close_brace_span } => {
            &&& forall|a: int| 0 <= a < children.len() ==> #[trigger] children[a] < m
            &&& in_order(nodes, children, open_brace_span.1, close_brace_span.0)
        },
        KindView::Simple { .. } => true,
    }
}

/// A block's layout reads only the arena before it.
proof fn lemma_layout_same(n1: Seq<DirectiveView>, n2: Seq<DirectiveView>, m: int)
    requires
        0 <= m < n1.len() <= n2.len(),
        forall|k: int| 0 <= k < n1.len() ==> #[trigger] n2[k] == n1[k],
        block_layout(n1, m),
    ensures
        block_layout(n2, m),
{
    if let KindView::Block { children, .. } = n1[m].kind {
        assert forall|a: int| 0 <= a < children.len() implies #[trigger] n2[children[a] as int]
            == n1[children[a] as int] by {
            assert(children[a] < m);
        }
    }
}

proof fn lemma_order_same(n1: Seq<DirectiveView>, n2: Seq<DirectiveView>, ids: Seq<nat>, lo: int, hi: int)
    requires
        in_order(n1, ids, lo, hi),
        forall|a: int| 0 <= a < ids.len() ==> #[trigger] ids[a] < n1.len(),
        n1.len() <= n2.len(),
        forall|k: int| 0 <= k < n1.len() ==> #[trigger] n2[k] == n1[k],
    ensures
        in_order(n2, ids, lo, hi),
{
    assert forall|a: int| 0 <= a < ids.len() implies #[trigger] n2[ids[a] as int] == n1[ids[a] as int] by {
        assert(ids[a] < n1.len());
    }
}

/// A directive spans from its name to its terminator, and what it allocates
/// lies within it, each block laid out between its braces.
proof fn lemma_directive_layout(b: Seq<u8>, start: int, nodes: Seq<DirectiveView>)
    requires
        0 <= start,
    ensures
        parse_directive(b, start, nodes) matches Ok((nodes2, end)) ==> {
            &&& nodes2[nodes2.len() - 1].span == (start, end)
            &&& forall|m: int|
                nodes.len() <= m < nodes2.len() ==> start <= (#[trigger] nodes2[m]).span.0
                    && nodes2[m].span.1 <= end && block_layout(nodes2, m)
        },
    decreases b.len() - start, 0int,
{
    lemma_directive_forest(b, start, nodes);
    if 0 <= start <= b.len() {
        let ne = name_end(b, start);
        lemma_name_end(b, start);
        lemma_parse_args(b, ne);
        if let Ok((args, he)) = parse_args(b, ne) {
            let p = skip_ws(b, he);
            lemma_ws_end(b, he, false);
            if 0 <= p < b.len() && b[p] == LBRACE {
                let c = skip_ws(b, p + 1);
                lemma_ws_end(b, p + 1, false);
                lemma_directives_layout(b, c, nodes);
                lemma_directives_forest(b, c, nodes);
                lemma_directives_spans_end(b, c, nodes);
                if let Ok((nodes2, children, q)) = parse_directives(b, c, nodes) {
                    if 0 <= q < b.len() && b[q] == RBRACE {
                        let nodes3 = parse_directive(b, start, nodes)->Ok_0.0;
                        let r = nodes2.len() as int;
                        assert(nodes3 == nodes2.push(nodes3[r]));
                        assert forall|k: int| 0 <= k < nodes2.len() implies #[trigger] nodes3[k]
                            == nodes2[k] by {}
                        lemma_order_same(nodes2, nodes3, children, c, q);
                        assert forall|m: int| nodes.len() <= m < nodes3.len() implies start
                            <= #[trigger] nodes3[m].span.0 && nodes3[m].span.1 <= q + 1
                            && block_layout(nodes3, m) by {
                            if m < r {
                                lemma_layout_same(nodes2, nodes3, m);
                            }
                        }
                    }
                }
            }
        }
    }
}

/// Directives lie one after the other within what they read, and so does
/// everything they allocate.
proof fn lemma_directives_layout(b: Seq<u8>, i: int, nodes: Seq<DirectiveView>)
    ensures
        parse_directives(b, i, nodes) matches Ok((nodes3, ids, k)) ==> {
            &&& forall|a: int| 0 <= a < ids.len() ==> nodes.len() <= #[trigger] ids[a] < nodes3.len()
            &&& in_order(nodes3, ids, i, k)
            &&& forall|m: int|
                nodes.len() <= m < nodes3.len() ==> i <= (#[trigger] nodes3[m]).span.0
                    && nodes3[m].span.1 <= k && block_layout(nodes3, m)
        },
    decreases b.len() - i, 1int,
{
    if 0 <= i < b.len() && is_name_byte(b[i]) {
        lemma_directive_layout(b, i, nodes);
        lemma_directive_forest(b, i, nodes);
        if let Ok((nodes2, end)) = parse_directive(b, i, nodes) {
            let j = skip_ws(b, end);
            if !(j <= i || j > b.len()) {
                lemma_directives_layout(b, j, nodes2);
                lemma_directives_forest(b, j, nodes2);
                lemma_directives_spans_end(b, j, nodes2);
                lemma_ws_end_at_least(b, end);
                if let Ok((nodes3, rest, k)) = parse_directives(b, j, nodes2) {
                    let r = nodes2.len() - 1;
                    let ids = seq![r as nat] + rest;
                    assert(nodes3[r] == nodes2[r]);
                    assert forall|a: int| 0 <= a < ids.len() implies nodes.len() <= #[trigger] ids[a]
                        < nodes3.len() by {
                        if a > 0 {
                            assert(ids[a] == rest[a - 1]);
                        }
                    }
                    assert forall|a: int| 0 <= a < ids.len() implies i <= nodes3[#[trigger] ids[a] as int].span.0
                        && nodes3[ids[a] as int].span.1 <= k by {
                        if a > 0 {
                            assert(ids[a] == rest[a - 1]);
                        }
                    }
                    assert forall|a: int, c: int| 0 <= a < c < ids.len() implies nodes3[#[trigger] ids[a] as int].span.1
                        <= nodes3[#[trigger] ids[c] as int].span.0 by {
                        assert(ids[c] == rest[c - 1]);
                        if a > 0 {
                            assert(ids[a] == rest[a - 1]);
                        }
                    }
                    assert forall|m: int| nodes.len() <= m < nodes3.len() implies i
                        <= #[trigger] nodes3[m].span.0 && nodes3[m].span.1 <= k && block_layout(
                        nodes3,
                        m,
                    ) by {
                        if m < nodes2.len() {
                            assert(nodes3[m] == nodes2[m]);
                            lemma_layout_same(nodes2, nodes3, m);
                        }
                    }
                }
            }
        }
    }
}

proof fn lemma_ws_end_at_least(b: Seq<u8>, i: int)
    ensures
        0 <= i <= b.len() ==> i <= skip_ws(b, i) <= b.len(),
{
    if 0 <= i <= b.len() {
        lemma_ws_end(b, i, false);
    }
}

/// Directives end no earlier than they start.
proof fn lemma_directives_spans_end(b: Seq<u8>, i: int, nodes: Seq<DirectiveView>)
    ensures
        parse_directives(b, i, nodes) matches Ok((_, _, end)) ==> i <= end,
    decreases b.len() - i,
{
    if 0 <= i < b.len() && is_name_byte(b[i]) {
        if let Ok((nodes2, end)) = parse_directive(b, i, nodes) {
            let j = skip_ws(b, end);
            if !(j <= i || j > b.len()) {
                lemma_directives_spans_end(b, j, nodes2);
            }
        }
    }
}

/// In what the parser yields, the top-level directives lie one after the
/// other and apart, and so do the children of each block, all between its
/// braces.
pub proof fn lemma_parsed_layout(b: Seq<u8>)
    ensures
        parse_config(b) matches Ok((nodes, roots)) ==> {
            &&& in_order(nodes, roots, 0, b.len() as int)
            &&& forall|m: int| 0 <= m < nodes.len() ==> #[trigger] block_layout(nodes, m)
        },
{
    lemma_ws_end(b, 0, false);
    lemma_directives_layout(b, skip_ws(b, 0), Seq::empty());
    if let Ok((nodes, roots)) = parse_config(b) {
        assert forall|m: int| 0 <= m < nodes.len() implies #[trigger] block_layout(nodes, m) by {
            assert(skip_ws(b, 0) <= nodes[m].span.0);
        }
        assert forall|a: int| 0 <= a < roots.len() implies 0 <= nodes[#[trigger] roots[a] as int].span.0
            && nodes[roots[a] as int].span.1 <= b.len() by {
            assert(skip_ws(b, 0) <= nodes[roots[a] as int].span.0);
        }
    }
}

} // verus!
