//! The syntax tree: directives stored in an arena, linked to their parents.

use crate::arena::{arena_get, arena_get_mut, arena_items, arena_new};
use la_arena::Arena;
use std::borrow::Cow;
use std::ops::Range;
use vstd::prelude::*;
use vstd::string::StringSliceAdditionalSpecFns;
use vstd::utf8::encode_utf8;

verus! {

/// A range of byte offsets into the source text.
pub type Span = Range<usize>;

/// `Clone for Range`: the derived clones of the syntax tree copy their spans
/// with it. Nothing is stated of the copy.
pub assume_specification<Idx: Clone>[ <Range<Idx> as Clone>::clone ](r: &Range<Idx>) -> Range<Idx>;

/// `Clone for Cow`: the derived clone of an argument copies its value with it.
/// Nothing is stated of the copy.
pub assume_specification<'a, B: ?Sized + ToOwned>[ <Cow<'a, B> as Clone>::clone ](c: &Cow<'a, B>) -> Cow<'a, B>;

/// The index of a directive in the arena of a [`ConfigAst`].
#[derive(Clone, Copy, Debug, PartialEq, Eq, Structural)]
pub struct DirectiveId(pub u32);

impl DirectiveId {
    /// The position of the directive in the arena.
    pub open spec fn index(self) -> nat {
        self.0 as nat
    }
}

/// An argument of a directive: its value (borrowed from the source when it
/// was bare, unescaped when it was quoted) and its span.
#[derive(Debug, Clone)]
pub struct Arg<'s> {
    pub value: Cow<'s, str>,
    pub span: Span,
}

/// The name of a directive and its arguments; the span covers both.
#[derive(Debug, Clone)]
pub struct DirectiveHeader<'s> {
    pub name: &'s str,
    pub name_span: Span,
    pub args: Vec<Arg<'s>>,
    pub span: Span,
}

/// A directive ends with `;`, or opens a block of child directives.
#[derive(Debug, Clone)]
pub enum DirectiveKind {
    Simple { semicolon_span: Span },
    Block { children: Vec<DirectiveId>, open_brace_span: Span, close_brace_span: Span },
}

/// A directive of the configuration, with the block it belongs to, if any.
#[derive(Debug, Clone)]
pub struct Directive<'s> {
    pub header: DirectiveHeader<'s>,
    pub kind: DirectiveKind,
    pub parent: Option<DirectiveId>,
    pub span: Span,
}

/// A parsed configuration: every directive in an arena, and the indices of
/// the top-level ones.
#[derive(Debug, Clone)]
pub struct ConfigAst<'s> {
    pub directives: Arena<Directive<'s>>,
    pub roots: Vec<DirectiveId>,
}

impl<'s> Default for ConfigAst<'s> {
    /// A configuration with no directives.
    fn default() -> (ast: ConfigAst<'s>)
        ensures
            arena_items(ast.directives) == Seq::<Directive<'s>>::empty(),
            ast.roots@ == Seq::<DirectiveId>::empty(),
    {
        ConfigAst { directives: arena_new(), roots: Vec::new() }
    }
}

/// A span as a pair of offsets.
pub open spec fn span_view(span: Span) -> (int, int) {
    (span.start as int, span.end as int)
}

/// An argument: the UTF-8 bytes of its value, its span, and whether the
/// value is borrowed from the source (or owned).
pub struct ArgView {
    pub value: Seq<u8>,
    pub span: (int, int),
    pub borrowed: bool,
}

pub enum KindView {
    Simple { semicolon_span: (int, int) },
    Block { children: Seq<nat>, open_brace_span: (int, int), close_brace_span: (int, int) },
}

/// A directive: the UTF-8 bytes of its name, its arguments, spans, kind and parent.
pub struct DirectiveView {
    pub name: Seq<u8>,
    pub name_span: (int, int),
    pub args: Seq<ArgView>,
    pub header_span: (int, int),
    pub kind: KindView,
    pub parent: Option<nat>,
    pub span: (int, int),
}

/// The arena as a sequence of directives, and the indices of the roots.
pub struct ConfigView {
    pub directives: Seq<DirectiveView>,
    pub roots: Seq<nat>,
}

pub open spec fn ids_view(ids: Seq<DirectiveId>) -> Seq<nat> {
    ids.map_values(|id: DirectiveId| id.index())
}

impl<'s> View for Arg<'s> {
    type V = ArgView;

    open spec fn view(&self) -> ArgView {
        ArgView {
            value: encode_utf8(self.value@),
            span: span_view(self.span),
            borrowed: self.value is Borrowed,
        }
    }
}

impl View for DirectiveKind {
    type V = KindView;

    open spec fn view(&self) -> KindView {
        match self {
            DirectiveKind::Simple { semicolon_span } => KindView::Simple {
                semicolon_span: span_view(*semicolon_span),
            },
            DirectiveKind::Block { children, open_brace_span, close_brace_span } => KindView::Block {
                children: ids_view(children@),
                open_brace_span: span_view(*open_brace_span),
                close_brace_span: span_view(*close_brace_span),
            },
        }
    }
}

impl<'s> View for Directive<'s> {
    type V = DirectiveView;

    open spec fn view(&self) -> DirectiveView {
        DirectiveView {
            name: self.header.name.spec_bytes(),
            name_span: span_view(self.header.name_span),
            args: self.header.args@.map_values(|a: Arg<'s>| a@),
            header_span: span_view(self.header.span),
            kind: self.kind@,
            parent: match self.parent {
                Some(id) => Some(id.index()),
                None => None,
            },
            span: span_view(self.span),
        }
    }
}

/// The directives of an arena, as views.
pub open spec fn arena_view(arena: Arena<Directive<'_>>) -> Seq<DirectiveView> {
    arena_items(arena).map_values(|d: Directive<'_>| d@)
}

impl<'s> View for ConfigAst<'s> {
    type V = ConfigView;

    open spec fn view(&self) -> ConfigView {
        ConfigView { directives: arena_view(self.directives), roots: ids_view(self.roots@) }
    }
}

/// The children of a directive of this kind: none unless it is a block.
pub open spec fn kind_children(kind: KindView) -> Seq<nat> {
    match kind {
        KindView::Block { children, .. } => children,
        KindView::Simple { .. } => Seq::empty(),
    }
}

impl ConfigView {
    /// The children of the directive at `j`.
    pub open spec fn children_of(self, j: int) -> Seq<nat> {
        kind_children(self.directives[j].kind)
    }

    /// The directive at `j` lists `c` among its children.
    pub open spec fn is_child_of(self, c: nat, j: int) -> bool {
        0 <= j < self.directives.len() && self.children_of(j).contains(c)
    }

    /// The arena holds a forest: each directive is a root or the child of
    /// exactly one block, never both; no list names a directive twice; and a
    /// block comes after its children in the arena.
    pub open spec fn wf(self) -> bool {
        &&& forall|i: int| 0 <= i < self.roots.len() ==> #[trigger] self.roots[i] < self.directives.len()
        &&& self.roots.no_duplicates()
        &&& forall|j: int, k: int|
            0 <= j < self.directives.len() && 0 <= k < self.children_of(j).len()
                ==> #[trigger] self.children_of(j)[k] < j
        &&& forall|j: int| 0 <= j < self.directives.len() ==> (#[trigger] self.children_of(j)).no_duplicates()
        &&& forall|c: nat, j1: int, j2: int|
            #![trigger self.is_child_of(c, j1), self.is_child_of(c, j2)]
            self.is_child_of(c, j1) && self.is_child_of(c, j2) ==> j1 == j2
        &&& forall|c: nat, j: int|
            #![trigger self.roots.contains(c), self.is_child_of(c, j)]
            self.roots.contains(c) ==> !self.is_child_of(c, j)
        &&& forall|c: nat|
            c < self.directives.len() ==> #[trigger] self.roots.contains(c) || exists|j: int|
                #[trigger] self.is_child_of(c, j)
    }

    /// `c` is reached from a root in `d` steps, each from a block to one of
    /// its children.
    pub open spec fn reached_in(self, c: nat, d: nat) -> bool
        decreases d,
    {
        if d == 0 {
            self.roots.contains(c)
        } else {
            exists|j: int|
                self.reached_in(j as nat, (d - 1) as nat) && #[trigger] self.is_child_of(c, j)
        }
    }

    /// `c` is a root, or reached from one through blocks and their children.
    pub open spec fn reachable(self, c: nat) -> bool {
        exists|d: nat| #[trigger] self.reached_in(c, d)
    }

    /// What is reachable from the roots is a forest of directives in the
    /// arena: every id met there is in bounds, and no id is met twice among
    /// the roots and the children of the reachable blocks (so there is no
    /// cycle either).
    pub open spec fn forest_from_roots(self) -> bool {
        &&& forall|i: int| 0 <= i < self.roots.len() ==> #[trigger] self.roots[i] < self.directives.len()
        &&& self.roots.no_duplicates()
        &&& forall|j: int|
            0 <= j && #[trigger] self.reachable(j as nat) ==> self.children_of(j).no_duplicates()
                && forall|k: int|
                0 <= k < self.children_of(j).len() ==> #[trigger] self.children_of(j)[k]
                    < self.directives.len()
        &&& forall|c: nat, j1: int, j2: int|
            #![trigger self.is_child_of(c, j1), self.is_child_of(c, j2)]
            self.reachable(j1 as nat) && self.reachable(j2 as nat) && self.is_child_of(c, j1)
                && self.is_child_of(c, j2) ==> j1 == j2
        &&& forall|c: nat, j: int|
            #![trigger self.roots.contains(c), self.is_child_of(c, j)]
            self.roots.contains(c) && self.reachable(j as nat) ==> !self.is_child_of(c, j)
    }

    /// The reachable block that lists `c` among its children, if any.
    pub open spec fn parent_of(self, c: nat) -> Option<nat> {
        if exists|j: int| self.reachable(j as nat) && #[trigger] self.is_child_of(c, j) {
            Some((choose|j: int| self.reachable(j as nat) && #[trigger] self.is_child_of(c, j)) as nat)
        } else {
            None
        }
    }

    /// The same arena with the parent of each reachable directive set to the
    /// reachable block that lists it (none for a root); the other directives
    /// stay as they are.
    pub open spec fn with_parents(self) -> ConfigView {
        ConfigView {
            directives: Seq::new(
                self.directives.len(),
                |i: int|
                    if self.reachable(i as nat) {
                        DirectiveView { parent: self.parent_of(i as nat), ..self.directives[i] }
                    } else {
                        self.directives[i]
                    },
            ),
            roots: self.roots,
        }
    }
}

/// In a well-formed arena every directive is reachable from the roots.
proof fn lemma_wf_reachable(v: ConfigView, c: nat)
    requires
        v.wf(),
        c < v.directives.len(),
    ensures
        v.reachable(c),
    decreases v.directives.len() - c,
{
    if v.roots.contains(c) {
        assert(v.reached_in(c, 0));
    } else {
        let j = choose|j: int| #[trigger] v.is_child_of(c, j);
        let k = choose|k: int| 0 <= k < v.children_of(j).len() && v.children_of(j)[k] == c;
        assert(v.children_of(j)[k] < j);
        lemma_wf_reachable(v, j as nat);
        let d = choose|d: nat| #[trigger] v.reached_in(j as nat, d);
        assert(v.reached_in(c, d + 1));
    }
}

/// What is reached in a well-formed arena lies in it.
proof fn lemma_wf_reached_bounded(v: ConfigView, c: nat, d: nat)
    requires
        v.wf(),
        v.reached_in(c, d),
    ensures
        c < v.directives.len(),
{
    if d == 0 {
        let i = choose|i: int| 0 <= i < v.roots.len() && v.roots[i] == c;
    } else {
        let j = choose|j: int|
            v.reached_in(j as nat, (d - 1) as nat) && #[trigger] v.is_child_of(c, j);
        let k = choose|k: int| 0 <= k < v.children_of(j).len() && v.children_of(j)[k] == c;
        assert(v.children_of(j)[k] < j);
    }
}

/// A well-formed arena is a forest from its roots.
pub proof fn lemma_wf_forest(v: ConfigView)
    requires
        v.wf(),
    ensures
        v.forest_from_roots(),
{
    assert forall|j: int| 0 <= j && #[trigger] v.reachable(j as nat) implies v.children_of(
        j,
    ).no_duplicates() && forall|k: int|
        0 <= k < v.children_of(j).len() ==> #[trigger] v.children_of(j)[k]
            < v.directives.len() by {
        let d = choose|d: nat| #[trigger] v.reached_in(j as nat, d);
        lemma_wf_reached_bounded(v, j as nat, d);
        assert forall|k: int| 0 <= k < v.children_of(j).len() implies #[trigger] v.children_of(j)[k]
            < v.directives.len() by {
            assert(v.children_of(j)[k] < j);
        }
    }
}

/// What is reachable in a forest from the roots lies in the arena.
proof fn lemma_reachable_bounded(v: ConfigView, c: nat)
    requires
        v.forest_from_roots(),
        v.reachable(c),
    ensures
        c < v.directives.len(),
{
    let d = choose|d: nat| #[trigger] v.reached_in(c, d);
    if d == 0 {
        let i = choose|i: int| 0 <= i < v.roots.len() && v.roots[i] == c;
        assert(v.roots[i] < v.directives.len());
    } else {
        let j = choose|j: int|
            v.reached_in(j as nat, (d - 1) as nat) && #[trigger] v.is_child_of(c, j);
        assert(v.reachable(j as nat));
        let k = choose|k: int| 0 <= k < v.children_of(j).len() && v.children_of(j)[k] == c;
        assert(v.children_of(j)[k] < v.directives.len());
    }
}

/// In a well-formed arena each directive's parent, once set, is the block
/// that lists it, and a top-level directive has none.
pub proof fn lemma_wf_parents(v: ConfigView)
    requires
        v.wf(),
    ensures
        forall|c: nat|
            c < v.directives.len() ==> (#[trigger] v.with_parents().directives[c as int].parent
                is None <==> v.roots.contains(c)),
        forall|c: nat, j: int|
            #[trigger] v.is_child_of(c, j) ==> v.with_parents().directives[c as int].parent == Some(
                j as nat,
            ),
{
    assert forall|c: nat| c < v.directives.len() implies (#[trigger] v.with_parents().directives[c as int].parent
        is None <==> v.roots.contains(c)) by {
        lemma_wf_reachable(v, c);
        if !v.roots.contains(c) {
            let j = choose|j: int| #[trigger] v.is_child_of(c, j);
            lemma_wf_reachable(v, j as nat);
        }
    }
    assert forall|c: nat, j: int| #[trigger] v.is_child_of(c, j) implies v.with_parents().directives[c as int].parent
        == Some(j as nat) by {
        let k = choose|k: int| 0 <= k < v.children_of(j).len() && v.children_of(j)[k] == c;
        assert(v.children_of(j)[k] < j);
        lemma_wf_reachable(v, c);
        lemma_wf_reachable(v, j as nat);
        let p = choose|p: int| v.reachable(p as nat) && #[trigger] v.is_child_of(c, p);
        assert(p == j);
    }
}

/// Setting parents keeps an arena a well-formed forest.
pub proof fn lemma_with_parents_wf(v: ConfigView)
    requires
        v.wf(),
    ensures
        v.with_parents().wf(),
{
    let w = v.with_parents();
    assert(w.roots == v.roots);
    assert(w.directives.len() == v.directives.len());
    assert forall|j: int| 0 <= j < v.directives.len() implies #[trigger] w.children_of(j)
        == v.children_of(j) by {}
    assert forall|c: nat, j: int| #[trigger] w.is_child_of(c, j) == v.is_child_of(c, j) by {
        if 0 <= j < v.directives.len() {
            assert(w.children_of(j) == v.children_of(j));
        }
    }
    assert forall|j: int, k: int|
        0 <= j < w.directives.len() && 0 <= k < w.children_of(j).len() implies #[trigger] w.children_of(
        j,
    )[k] < j by {
        assert(w.children_of(j) == v.children_of(j));
    }
    assert forall|j: int| 0 <= j < w.directives.len() implies (#[trigger] w.children_of(j)).no_duplicates() by {
        assert(w.children_of(j) == v.children_of(j));
    }
    assert forall|c: nat| c < w.directives.len() implies #[trigger] w.roots.contains(c) || exists|
        j: int,
    | #[trigger] w.is_child_of(c, j) by {
        if !v.roots.contains(c) {
            let j = choose|j: int| #[trigger] v.is_child_of(c, j);
            assert(w.is_child_of(c, j));
        }
    }
}

/// Setting parents changes no children, so whatever is reached from the
/// roots stays reached.
proof fn lemma_reached_same(v: ConfigView, d: nat)
    ensures
        forall|c: nat| #[trigger] v.with_parents().reached_in(c, d) == v.reached_in(c, d),
    decreases d,
{
    let w = v.with_parents();
    assert forall|c: nat, j: int| #[trigger] w.is_child_of(c, j) == v.is_child_of(c, j) by {
        if 0 <= j < v.directives.len() {
            assert(w.children_of(j) == v.children_of(j));
        }
    }
    if d > 0 {
        lemma_reached_same(v, (d - 1) as nat);
        assert forall|c: nat| #[trigger] w.reached_in(c, d) == v.reached_in(c, d) by {
            if v.reached_in(c, d) {
                let j = choose|j: int|
                    v.reached_in(j as nat, (d - 1) as nat) && #[trigger] v.is_child_of(c, j);
                assert(w.reached_in(j as nat, (d - 1) as nat) && w.is_child_of(c, j));
            }
            if w.reached_in(c, d) {
                let j = choose|j: int|
                    w.reached_in(j as nat, (d - 1) as nat) && #[trigger] w.is_child_of(c, j);
                assert(v.reached_in(j as nat, (d - 1) as nat) && v.is_child_of(c, j));
            }
        }
    }
}

/// Linking parents twice is linking them once: the second pass finds the
/// same reachable directives and the same blocks listing them.
pub proof fn lemma_with_parents_idempotent(v: ConfigView)
    requires
        v.forest_from_roots(),
    ensures
        v.with_parents().forest_from_roots(),
        v.with_parents().with_parents() == v.with_parents(),
{
    let w = v.with_parents();
    assert forall|c: nat, j: int| #[trigger] w.is_child_of(c, j) == v.is_child_of(c, j) by {
        if 0 <= j < v.directives.len() {
            assert(w.children_of(j) == v.children_of(j));
        }
    }
    assert forall|c: nat| #[trigger] w.reachable(c) == v.reachable(c) by {
        if v.reachable(c) {
            let d = choose|d: nat| #[trigger] v.reached_in(c, d);
            lemma_reached_same(v, d);
            assert(w.reached_in(c, d));
        }
        if w.reachable(c) {
            let d = choose|d: nat| #[trigger] w.reached_in(c, d);
            lemma_reached_same(v, d);
            assert(v.reached_in(c, d));
        }
    }
    assert forall|j: int| 0 <= j && #[trigger] w.reachable(j as nat) implies w.children_of(
        j,
    ) == v.children_of(j) by {
        lemma_reachable_bounded(v, j as nat);
    }
    assert forall|c: nat| #[trigger] w.parent_of(c) == v.parent_of(c) by {
        if exists|j: int| v.reachable(j as nat) && #[trigger] v.is_child_of(c, j) {
            let j1 = choose|j: int| v.reachable(j as nat) && #[trigger] v.is_child_of(c, j);
            assert(w.reachable(j1 as nat) && w.is_child_of(c, j1));
            let j2 = choose|j: int| w.reachable(j as nat) && #[trigger] w.is_child_of(c, j);
            assert(v.reachable(j2 as nat) && v.is_child_of(c, j2));
            assert(j1 == j2);
        } else {
            assert(!exists|j: int| w.reachable(j as nat) && #[trigger] w.is_child_of(c, j)) by {
                if exists|j: int| w.reachable(j as nat) && #[trigger] w.is_child_of(c, j) {
                    let j2 = choose|j: int| w.reachable(j as nat) && #[trigger] w.is_child_of(c, j);
                    assert(v.reachable(j2 as nat) && v.is_child_of(c, j2));
                }
            }
        }
    }
    assert(w.with_parents().directives =~= w.directives);
}

/// A sequence of distinct numbers below `n` has at most `n` of them.
proof fn lemma_distinct_below(s: Seq<nat>, n: nat)
    requires
        s.no_duplicates(),
        forall|i: int| 0 <= i < s.len() ==> #[trigger] s[i] < n,
    ensures
        s.len() <= n,
    decreases n,
{
    if s.len() > 0 {
        assert(s[0] < n);
    }
    if n > 0 {
        if exists|k: int| 0 <= k < s.len() && s[k] == n - 1 {
            let k = choose|k: int| 0 <= k < s.len() && s[k] == n - 1;
            let t = s.remove(k);
            assert forall|i: int| 0 <= i < t.len() implies #[trigger] t[i] < (n - 1) as nat by {
                if i < k {
                    assert(t[i] == s[i]);
                } else {
                    assert(t[i] == s[i + 1]);
                }
            }
            assert(t.no_duplicates()) by {
                assert forall|i: int, j: int|
                    0 <= i < t.len() && 0 <= j < t.len() && i != j implies t[i] != t[j] by {
                    let si = if i < k { i } else { i + 1 };
                    let sj = if j < k { j } else { j + 1 };
                    assert(t[i] == s[si]);
                    assert(t[j] == s[sj]);
                }
            }
            lemma_distinct_below(t, (n - 1) as nat);
            assert(t.len() == s.len() - 1);
        } else {
            assert forall|i: int| 0 <= i < s.len() implies #[trigger] s[i] < (n - 1) as nat by {
                assert(s[i] != n - 1);
            }
            lemma_distinct_below(s, (n - 1) as nat);
        }
    }
}

/// The directives of a queue entry, as indices.
pub open spec fn queue_ids(q: Seq<(DirectiveId, Option<DirectiveId>)>) -> Seq<nat> {
    q.map_values(|e: (DirectiveId, Option<DirectiveId>)| e.0.index())
}

pub open spec fn opt_index(p: Option<DirectiveId>) -> Option<nat> {
    match p {
        Some(id) => Some(id.index()),
        None => None,
    }
}

/// Whatever is reached from the roots is queued, once every root is and
/// the children of every queued block are.
proof fn lemma_reached_queued(v: ConfigView, q: Seq<nat>, c: nat, d: nat)
    requires
        forall|r: nat| #[trigger] v.roots.contains(r) ==> q.contains(r),
        forall|j: int, x: nat| q.contains(j as nat) && #[trigger] v.is_child_of(x, j) ==> q.contains(x),
        v.reached_in(c, d),
    ensures
        q.contains(c),
    decreases d,
{
    if d > 0 {
        let j = choose|j: int|
            v.reached_in(j as nat, (d - 1) as nat) && #[trigger] v.is_child_of(c, j);
        lemma_reached_queued(v, q, j as nat, (d - 1) as nat);
    }
}

impl<'s> ConfigAst<'s> {
    /// The directive at `id`.
    pub fn directive(&self, id: DirectiveId) -> (d: &Directive<'s>)
        requires
            id.index() < arena_items(self.directives).len(),
        ensures
            *d == arena_items(self.directives)[id.index() as int],
    {
        arena_get(&self.directives, id)
    }

    /// Sets the parent of every directive reachable from the roots, walking
    /// them breadth-first: a root gets none, a child gets the block listing
    /// it. Nothing else changes.
    ///
    /// Ids out of the arena would make the walk panic, and a cycle would
    /// keep it going forever; an id listed twice among the roots and the
    /// reachable children lists is left out as well: the walk then visits it
    /// once per listing, and the last visit in breadth-first order sets its
    /// parent.
    pub fn link_parents(&mut self)
        requires
            old(self)@.forest_from_roots(),
        ensures
            final(self)@ == old(self)@.with_parents(),
    {
        let ghost v0 = self@;
        let ghost n = v0.directives.len();
        let mut queue: Vec<(DirectiveId, Option<DirectiveId>)> = Vec::new();
        let mut r: usize = 0;
        while r < self.roots.len()
            invariant
                v0 == old(self)@,
                self@ == v0,
                v0.forest_from_roots(),
                r <= self.roots@.len(),
                queue@.len() == r,
                forall|m: int|
                    0 <= m < r ==> #[trigger] queue@[m] == (self.roots@[m], None::<DirectiveId>),
            decreases self.roots@.len() - r,
        {
            queue.push((self.roots[r], None));
            r = r + 1;
        }
        proof {
            assert(queue_ids(queue@) =~= v0.roots);
            assert forall|m: int| 0 <= m < queue@.len() implies #[trigger] queue@[m].0.index() < n
                && v0.roots.contains(queue@[m].0.index()) && v0.reachable(queue@[m].0.index()) by {
                assert(queue_ids(queue@)[m] == v0.roots[m]);
                assert(v0.reached_in(queue@[m].0.index(), 0));
            }
        }
        let mut i: usize = 0;
        while i < queue.len()
            invariant
                v0 == old(self)@,
                v0.forest_from_roots(),
                n == v0.directives.len(),
                self@.roots == v0.roots,
                self@.directives.len() == n,
                forall|k: int|
                    0 <= k < n ==> #[trigger] self@.directives[k] == (DirectiveView {
                        parent: self@.directives[k].parent,
                        ..v0.directives[k]
                    }),
                forall|k: int|
                    0 <= k < n && !v0.reachable(k as nat) ==> #[trigger] self@.directives[k]
                        == v0.directives[k],
                i <= queue@.len(),
                queue_ids(queue@).no_duplicates(),
                forall|m: int| 0 <= m < queue@.len() ==> #[trigger] queue@[m].0.index() < n,
                forall|m: int| 0 <= m < queue@.len() ==> v0.reachable(#[trigger] queue@[m].0.index()),
                forall|m: int|
                    0 <= m < queue@.len() ==> match #[trigger] queue@[m].1 {
                        None => v0.roots.contains(queue@[m].0.index()),
                        Some(p) => v0.is_child_of(queue@[m].0.index(), p.index() as int) && exists|
                            k: int,
                        | 0 <= k < i && #[trigger] queue@[k].0 == p,
                    },
                forall|r: nat| #[trigger] v0.roots.contains(r) ==> queue_ids(queue@).contains(r),
                forall|m: int, x: nat|
                    0 <= m < i && #[trigger] v0.is_child_of(x, queue@[m].0.index() as int)
                        ==> queue_ids(queue@).contains(x),
                forall|m: int|
                    0 <= m < i ==> #[trigger] self@.directives[queue@[m].0.index() as int].parent
                        == opt_index(queue@[m].1),
            decreases n - i,
        {
            proof {
                lemma_distinct_below(queue_ids(queue@), n);
            }
            let (id, parent) = queue[i];
            let ghost before = self@.directives;
            {
                let d = arena_get_mut(&mut self.directives, id);
                d.parent = parent;
            }
            proof {
                assert(self@.directives =~= before.update(
                    id.index() as int,
                    DirectiveView { parent: opt_index(parent), ..before[id.index() as int] },
                ));
            }
            let d = arena_get(&self.directives, id);
            let ghost q_start = queue@;
            proof {
                assert(v0.reachable(q_start[i as int].0.index()));
            }
            if let DirectiveKind::Block { children, .. } = &d.kind {
                let ghost q0 = queue@;
                let mut k: usize = 0;
                while k < children.len()
                    invariant
                        queue@.len() == q0.len() + k,
                        k <= children@.len(),
                        forall|m: int| 0 <= m < q0.len() ==> #[trigger] queue@[m] == q0[m],
                        forall|m: int|
                            0 <= m < k ==> #[trigger] queue@[q0.len() + m] == (
                                children@[m],
                                Some(id),
                            ),
                    decreases children@.len() - k,
                {
                    queue.push((children[k], Some(id)));
                    k = k + 1;
                }
                proof {
                    let j = id.index() as int;
                    let ch = v0.children_of(j);
                    assert(ids_view(children@) == ch);
                    let dj = choose|d: nat| #[trigger] v0.reached_in(j as nat, d);
                    assert forall|m: int| 0 <= m < children@.len() implies #[trigger] queue@[q0.len() + m].0.index()
                        == ch[m] && ch[m] < n && v0.is_child_of(ch[m], j) && v0.reachable(ch[m]) by {
                        assert(ch[m] == children@[m].index());
                        assert(ch.contains(ch[m]));
                        assert(v0.reached_in(j as nat, dj) && v0.is_child_of(ch[m], j));
                        assert(v0.reached_in(ch[m], dj + 1));
                    }
                    assert forall|m: int| 0 <= m < queue@.len() implies v0.reachable(
                        #[trigger] queue@[m].0.index(),
                    ) by {
                        if m < q0.len() {
                            assert(queue@[m] == q0[m]);
                        } else {
                            assert(queue@[q0.len() + (m - q0.len())] == queue@[m]);
                        }
                    }
                    // a child of this block is queued nowhere else
                    assert forall|m: int, c: int|
                        0 <= m < q0.len() && 0 <= c < children@.len() implies #[trigger] q0[m].0.index()
                        != #[trigger] ch[c] by {
                        if q0[m].0.index() == ch[c] {
                            assert(v0.is_child_of(ch[c], j));
                            match q0[m].1 {
                                None => {
                                    assert(v0.roots.contains(ch[c]));
                                },
                                Some(p) => {
                                    assert(v0.is_child_of(ch[c], p.index() as int));
                                    let k = choose|k: int| 0 <= k < i && #[trigger] q0[k].0 == p;
                                    assert(v0.reachable(q0[k].0.index()));
                                    assert(p.index() == j);
                                    assert(queue_ids(q0)[k] == queue_ids(q0)[i as int]);
                                },
                            }
                        }
                    }
                    assert forall|a: int| 0 <= a < queue@.len() implies #[trigger] queue_ids(queue@)[a]
                        == (queue_ids(q0) + ch)[a] by {
                        if a >= q0.len() {
                            let m = a - q0.len();
                            assert(queue@[q0.len() + m].0.index() == ch[m]);
                        }
                    }
                    assert(queue_ids(queue@) =~= queue_ids(q0) + ch);
                    assert(queue_ids(queue@).no_duplicates()) by {
                        assert forall|a: int, b: int|
                            0 <= a < queue@.len() && 0 <= b < queue@.len() && a != b implies queue_ids(
                            queue@,
                        )[a] != queue_ids(queue@)[b] by {
                            if a >= q0.len() && b >= q0.len() {
                                assert(ch[a - q0.len()] != ch[b - q0.len()]);
                            } else if a >= q0.len() {
                                assert(q0[b].0.index() != ch[a - q0.len()]);
                            } else if b >= q0.len() {
                                assert(q0[a].0.index() != ch[b - q0.len()]);
                            }
                        }
                    }
                    assert forall|m: int| 0 <= m < queue@.len() implies #[trigger] queue@[m].0.index() < n
                        && match queue@[m].1 {
                        None => v0.roots.contains(queue@[m].0.index()),
                        Some(p) => v0.is_child_of(queue@[m].0.index(), p.index() as int) && exists|
                            k: int,
                        | 0 <= k < i + 1 && #[trigger] queue@[k].0 == p,
                    } by {
                        if m < q0.len() {
                            assert(queue@[m] == q0[m]);
                            if let Some(p) = q0[m].1 {
                                let k = choose|k: int| 0 <= k < i && #[trigger] q0[k].0 == p;
                                assert(queue@[k].0 == p);
                            }
                        } else {
                            let c = m - q0.len();
                            assert(queue@[q0.len() + c] == (children@[c], Some(id)));
                            assert(queue@[i as int].0 == id);
                        }
                    }
                    assert forall|x: nat| #[trigger] v0.is_child_of(x, j) implies queue_ids(
                        queue@,
                    ).contains(x) by {
                        let c = choose|c: int| 0 <= c < ch.len() && ch[c] == x;
                        assert(queue_ids(queue@)[q0.len() + c] == x);
                    }
                }
            } else {
                proof {
                    let j = id.index() as int;
                    assert(v0.children_of(j) =~= Seq::<nat>::empty());
                    assert(queue@ == q_start);
                    assert forall|m: int| 0 <= m < queue@.len() implies match #[trigger] queue@[m].1 {
                        None => v0.roots.contains(queue@[m].0.index()),
                        Some(p) => v0.is_child_of(queue@[m].0.index(), p.index() as int) && exists|
                            k: int,
                        | 0 <= k < i + 1 && #[trigger] queue@[k].0 == p,
                    } by {
                        if let Some(p) = queue@[m].1 {
                            if m < q_start.len() {
                                assert(queue@[m] == q_start[m]);
                                let k = choose|k: int| 0 <= k < i && #[trigger] q_start[k].0 == p;
                                assert(queue@[k] == q_start[k]);
                            }
                        }
                    }
                }
            }
            proof {
                assert(forall|x: nat| #[trigger] v0.is_child_of(x, id.index() as int) ==> queue_ids(
                    queue@,
                ).contains(x));
                assert forall|m: int, x: nat|
                    0 <= m < i + 1 && #[trigger] v0.is_child_of(x, queue@[m].0.index() as int) implies queue_ids(
                    queue@,
                ).contains(x) by {
                    if m < i {
                        assert(queue@[m] == q_start[m]);
                        let mm = choose|mm: int| 0 <= mm < q_start.len() && queue_ids(q_start)[mm] == x;
                        assert(queue_ids(queue@)[mm] == x);
                    } else {
                        assert(queue@[m] == q_start[m]);
                    }
                }
                assert forall|r: nat| #[trigger] v0.roots.contains(r) implies queue_ids(queue@).contains(r) by {
                    let m = choose|m: int| 0 <= m < q_start.len() && queue_ids(q_start)[m] == r;
                    assert(queue_ids(queue@)[m] == r);
                }
                assert(forall|m: int|
                    0 <= m < queue@.len() ==> match #[trigger] queue@[m].1 {
                        None => v0.roots.contains(queue@[m].0.index()),
                        Some(p) => v0.is_child_of(queue@[m].0.index(), p.index() as int) && exists|
                            k: int,
                        | 0 <= k < i + 1 && #[trigger] queue@[k].0 == p,
                    });
            }
            i = i + 1;
        }
        proof {
            let q = queue_ids(queue@);
            assert forall|j: int, x: nat| q.contains(j as nat) && #[trigger] v0.is_child_of(x, j) implies q.contains(x) by {
                let m = choose|m: int| 0 <= m < q.len() && q[m] == j as nat;
                assert(v0.is_child_of(x, queue@[m].0.index() as int));
            }
            assert forall|k: int| 0 <= k < n implies #[trigger] self@.directives[k]
                == v0.with_parents().directives[k] by {
                if v0.reachable(k as nat) {
                    let d = choose|d: nat| #[trigger] v0.reached_in(k as nat, d);
                    lemma_reached_queued(v0, q, k as nat, d);
                    let m = choose|m: int| 0 <= m < q.len() && q[m] == k as nat;
                    assert(queue@[m].0.index() == k);
                    match queue@[m].1 {
                        None => {
                            assert(v0.roots.contains(k as nat));
                            assert(!exists|j: int|
                                v0.reachable(j as nat) && #[trigger] v0.is_child_of(k as nat, j));
                        },
                        Some(p) => {
                            assert(v0.is_child_of(k as nat, p.index() as int));
                            let kk = choose|kk: int| 0 <= kk < i && #[trigger] queue@[kk].0 == p;
                            assert(v0.reachable(queue@[kk].0.index()));
                            let j = choose|j: int|
                                v0.reachable(j as nat) && #[trigger] v0.is_child_of(k as nat, j);
                            assert(j == p.index());
                        },
                    }
                }
            }
            assert(self@.directives =~= v0.with_parents().directives);
        }
    }
}

} // verus!
