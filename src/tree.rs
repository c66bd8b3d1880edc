//! The generic lossless tree. Its shape is a rowan green tree, built by
//! rowan's builder; its view is a rowan cursor node, which knows its
//! absolute offset. Both are opaque outside types: the spec type `Green`
//! and the names below say what they hold.
use vstd::prelude::*;
use rowan::cursor::SyntaxNode;
use rowan::{GreenNode, GreenNodeBuilder};
use vstd::utf8::encode_utf8;

verus! {

/// A tree of the generic layer as a mathematical value: each node and token
/// carries a raw kind tag; a token carries its exact text, as bytes.
pub enum Green {
    Node { kind: u16, children: Seq<Green> },
    Token { kind: u16, text: Seq<u8> },
}

pub open spec fn kind_of(g: Green) -> u16 {
    match g {
        Green::Node { kind, .. } => kind,
        Green::Token { kind, .. } => kind,
    }
}

/// The children of a node; a token has none.
pub open spec fn children_of(g: Green) -> Seq<Green> {
    match g {
        Green::Node { children, .. } => children,
        Green::Token { .. } => Seq::empty(),
    }
}

/// The text that a tree covers: its tokens' texts, in order.
pub open spec fn text_of(g: Green) -> Seq<u8>
    decreases g,
{
    match g {
        Green::Node { children, .. } => texts(children, children.len() as int),
        Green::Token { text, .. } => text,
    }
}

/// The text of the first `n` trees of `s`, in order.
pub open spec fn texts(s: Seq<Green>, n: int) -> Seq<u8>
    decreases s, n,
{
    if n <= 0 || n > s.len() {
        Seq::empty()
    } else {
        texts(s, n - 1) + text_of(s[n - 1])
    }
}

/// The text of a whole sequence of trees.
pub open spec fn texts_all(s: Seq<Green>) -> Seq<u8> {
    texts(s, s.len() as int)
}

/// The text of the first `j` trees is a prefix of that of the first `k`.
pub proof fn lemma_texts_prefix(s: Seq<Green>, j: int, k: int)
    requires
        0 <= j <= k <= s.len(),
    ensures
        texts(s, j).len() <= texts(s, k).len(),
        texts(s, k).subrange(0, texts(s, j).len() as int) == texts(s, j),
    decreases k - j,
{
    if j < k {
        lemma_texts_prefix(s, j, k - 1);
        assert(texts(s, k) == texts(s, k - 1) + text_of(s[k - 1]));
        assert(texts(s, k).subrange(0, texts(s, j).len() as int) =~= texts(s, k - 1).subrange(
            0,
            texts(s, j).len() as int,
        ));
    } else {
        assert(texts(s, k).subrange(0, texts(s, j).len() as int) =~= texts(s, j));
    }
}

/// Text distributes over appending one tree.
pub proof fn lemma_texts_push(s: Seq<Green>, g: Green)
    ensures
        texts_all(s.push(g)) == texts_all(s) + text_of(g),
{
    assert(s.subrange(0, s.len() as int) =~= s.push(g).subrange(0, s.len() as int));
    lemma_texts_same_prefix(s, s.push(g), s.len() as int);
    assert(s.push(g)[s.len() as int] == g);
}

/// The text of a prefix depends on that prefix alone.
pub proof fn lemma_texts_same_prefix(s: Seq<Green>, t: Seq<Green>, n: int)
    requires
        0 <= n <= s.len(),
        n <= t.len(),
        s.subrange(0, n) == t.subrange(0, n),
    ensures
        texts(s, n) == texts(t, n),
    decreases n,
{
    if n > 0 {
        assert(s[n - 1] == s.subrange(0, n)[n - 1]);
        assert(t[n - 1] == t.subrange(0, n)[n - 1]);
        assert(s.subrange(0, n - 1) =~= s.subrange(0, n).subrange(0, n - 1));
        assert(t.subrange(0, n - 1) =~= t.subrange(0, n).subrange(0, n - 1));
        lemma_texts_same_prefix(s, t, n - 1);
    }
}

/// Text distributes over concatenation.
pub proof fn lemma_texts_concat(s: Seq<Green>, t: Seq<Green>)
    ensures
        texts_all(s + t) == texts_all(s) + texts_all(t),
    decreases t.len(),
{
    if t.len() == 0 {
        assert(s + t =~= s);
        assert(texts_all(t) =~= Seq::<u8>::empty());
        assert(texts_all(s) + texts_all(t) =~= texts_all(s));
    } else {
        let t0 = t.drop_last();
        lemma_texts_concat(s, t0);
        assert(s + t =~= (s + t0).push(t.last()));
        assert(t =~= t0.push(t.last()));
        lemma_texts_push(s + t0, t.last());
        lemma_texts_push(t0, t.last());
    }
}

/// A node of the view layer, as a mathematical value: a tree and the
/// absolute offset, in bytes, at which its text starts.
pub struct NodeView {
    pub tree: Green,
    pub offset: nat,
}

/// The end of a view's text range.
pub open spec fn end_of(v: NodeView) -> nat {
    v.offset + text_of(v.tree).len()
}

/// The views of the nodes among the first `n` children, in order, for a
/// parent whose text starts at `base`. Tokens are skipped, but their text
/// still moves the offset.
pub open spec fn node_children(children: Seq<Green>, base: nat, n: int) -> Seq<NodeView>
    decreases n,
{
    if n <= 0 || n > children.len() {
        Seq::empty()
    } else {
        let prev = node_children(children, base, n - 1);
        match children[n - 1] {
            Green::Node { .. } => prev.push(
                NodeView { tree: children[n - 1], offset: base + texts(children, n - 1).len() },
            ),
            Green::Token { .. } => prev,
        }
    }
}

/// The views of a node's child nodes, in order.
pub open spec fn child_views(v: NodeView) -> Seq<NodeView> {
    node_children(children_of(v.tree), v.offset, children_of(v.tree).len() as int)
}

/// Each child node's text range lies within its parent's.
pub proof fn lemma_child_in_parent(v: NodeView, i: int)
    requires
        0 <= i < child_views(v).len(),
    ensures
        v.offset <= child_views(v)[i].offset,
        end_of(child_views(v)[i]) <= end_of(v),
{
    let ch = children_of(v.tree);
    lemma_node_children_bounded(ch, v.offset, ch.len() as int, i);
    assert(text_of(v.tree) == texts(ch, ch.len() as int));
}

proof fn lemma_node_children_bounded(ch: Seq<Green>, base: nat, n: int, i: int)
    requires
        0 <= n <= ch.len(),
        0 <= i < node_children(ch, base, n).len(),
    ensures
        base <= node_children(ch, base, n)[i].offset,
        end_of(node_children(ch, base, n)[i]) <= base + texts(ch, n).len(),
    decreases n,
{
    let prev = node_children(ch, base, n - 1);
    lemma_texts_prefix(ch, n - 1, n);
    if i < prev.len() {
        lemma_node_children_bounded(ch, base, n - 1, i);
    } else {
        assert(texts(ch, n) == texts(ch, n - 1) + text_of(ch[n - 1]));
    }
}

/// The shape of the rowan builder's open nodes, outermost first: the kind
/// of each and the children finished under it so far.
pub uninterp spec fn open_frames(b: GreenNodeBuilder<'static>) -> Seq<(u16, Seq<Green>)>;

/// The trees that the rowan builder has finished outside any open node.
pub uninterp spec fn finished_trees(b: GreenNodeBuilder<'static>) -> Seq<Green>;

/// The tree that a rowan green node holds.
pub uninterp spec fn green_tree(n: GreenNode) -> Green;

/// The tree that a rowan cursor node stands on.
pub uninterp spec fn cursor_tree(n: SyntaxNode) -> Green;

/// The absolute offset, in bytes, at which a rowan cursor node's text starts.
pub uninterp spec fn cursor_offset(n: SyntaxNode) -> nat;

pub open spec fn view_of(n: SyntaxNode) -> NodeView {
    NodeView { tree: cursor_tree(n), offset: cursor_offset(n) }
}

/// A frame with one more child.
pub open spec fn push_child(f: (u16, Seq<Green>), g: Green) -> (u16, Seq<Green>) {
    (f.0, f.1.push(g))
}

/// The node that a frame becomes once it is closed.
pub open spec fn frame_node(f: (u16, Seq<Green>)) -> Green {
    Green::Node { kind: f.0, children: f.1 }
}

#[verifier::external_type_specification]
#[verifier::external_body]
pub struct ExGreenNodeBuilder<'a>(GreenNodeBuilder<'a>);

#[verifier::external_type_specification]
#[verifier::external_body]
pub struct ExGreenNode(GreenNode);

#[verifier::external_type_specification]
#[verifier::external_body]
pub struct ExSyntaxNode(SyntaxNode);

/// Relies on rowan's `GreenNodeBuilder::new`: no node open, nothing built.
#[verifier::external_body]
pub(crate) fn builder_new() -> (b: GreenNodeBuilder<'static>)
    ensures
        open_frames(b) == Seq::<(u16, Seq<Green>)>::empty(),
        finished_trees(b) == Seq::<Green>::empty(),
{
    GreenNodeBuilder::new()
}

/// Relies on rowan's `GreenNodeBuilder::start_node`: opens a node of the
/// given kind inside the current one.
#[verifier::external_body]
pub(crate) fn builder_start_node(b: &mut GreenNodeBuilder<'static>, kind: u16)
    ensures
        open_frames(*final(b)) == open_frames(*old(b)).push((kind, Seq::<Green>::empty())),
        finished_trees(*final(b)) == finished_trees(*old(b)),
{
    b.start_node(rowan::SyntaxKind(kind))
}

/// Relies on rowan's `GreenNodeBuilder::token`: adds a token with exactly
/// the given text as the last child of the innermost open node.
#[verifier::external_body]
pub(crate) fn builder_token(b: &mut GreenNodeBuilder<'static>, kind: u16, text: &str)
    requires
        open_frames(*old(b)).len() > 0,
    ensures
        open_frames(*final(b)) == open_frames(*old(b)).update(
            open_frames(*old(b)).len() - 1,
            push_child(
                open_frames(*old(b)).last(),
                Green::Token { kind, text: encode_utf8(text@) },
            ),
        ),
        finished_trees(*final(b)) == finished_trees(*old(b)),
{
    b.token(rowan::SyntaxKind(kind), rowan::SmolStr::new(text))
}

/// Relies on rowan's `GreenNodeBuilder::finish_node`: closes the innermost
/// open node and adds it as the last child of the one around it, or to the
/// finished trees when none is. rowan panics when no node is open, and
/// measures a node's text in a `u32`.
#[verifier::external_body]
pub(crate) fn builder_finish_node(b: &mut GreenNodeBuilder<'static>)
    requires
        open_frames(*old(b)).len() > 0,
        texts_all(open_frames(*old(b)).last().1).len() <= u32::MAX,
    ensures
        ({
            let f = open_frames(*old(b));
            let node = frame_node(f.last());
            &&& f.len() > 1 ==> open_frames(*final(b)) == f.drop_last().update(
                f.len() - 2,
                push_child(f[f.len() - 2], node),
            ) && finished_trees(*final(b)) == finished_trees(*old(b))
            &&& f.len() == 1 ==> open_frames(*final(b)) == Seq::<(u16, Seq<Green>)>::empty()
                && finished_trees(*final(b)) == finished_trees(*old(b)).push(node)
        }),
{
    b.finish_node()
}

/// Relies on rowan's `GreenNodeBuilder::finish`: hands out the one finished
/// tree. rowan panics unless exactly one node was finished.
#[verifier::external_body]
pub(crate) fn builder_finish(b: GreenNodeBuilder<'static>) -> (n: GreenNode)
    requires
        open_frames(b).len() == 0,
        finished_trees(b).len() == 1,
        finished_trees(b)[0] is Node,
    ensures
        green_tree(n) == finished_trees(b)[0],
{
    b.finish()
}

/// Relies on `Clone` of rowan's `GreenNode`: a shared handle on the same tree.
#[verifier::external_body]
pub(crate) fn green_clone(n: &GreenNode) -> (r: GreenNode)
    ensures
        green_tree(r) == green_tree(*n),
{
    n.clone()
}

/// Relies on rowan's `cursor::SyntaxNode::new_root`: a view of the whole
/// tree, starting at offset zero.
#[verifier::external_body]
pub(crate) fn cursor_new_root(g: GreenNode) -> (n: SyntaxNode)
    ensures
        view_of(n) == (NodeView { tree: green_tree(g), offset: 0 }),
{
    SyntaxNode::new_root(g)
}

/// Relies on `Clone` of rowan's `cursor::SyntaxNode`: another handle on the
/// same node.
#[verifier::external_body]
pub(crate) fn cursor_clone(n: &SyntaxNode) -> (r: SyntaxNode)
    ensures
        view_of(r) == view_of(*n),
{
    n.clone()
}

/// Relies on rowan's `cursor::SyntaxNode::kind`: the raw tag of the node.
#[verifier::external_body]
pub(crate) fn cursor_kind(n: &SyntaxNode) -> (k: u16)
    ensures
        k == kind_of(cursor_tree(*n)),
{
    n.kind().0
}

/// Relies on rowan's `cursor::SyntaxNode::text_range`: the start and end,
/// in bytes, of the node's text. rowan adds them in a `u32`.
#[verifier::external_body]
pub(crate) fn cursor_range(n: &SyntaxNode) -> (r: (usize, usize))
    requires
        end_of(view_of(*n)) <= u32::MAX,
    ensures
        r.0 == cursor_offset(*n),
        r.1 == end_of(view_of(*n)),
{
    let range = n.text_range();
    (usize::from(range.start()), usize::from(range.end()))
}

/// Relies on rowan's `cursor::SyntaxNode::children`: the child nodes, in
/// order, each at its own offset. rowan starts from the node's text range,
/// whose end it adds in a `u32`.
#[verifier::external_body]
pub(crate) fn cursor_children(n: &SyntaxNode) -> (r: Vec<SyntaxNode>)
    requires
        end_of(view_of(*n)) <= u32::MAX,
    ensures
        r@.len() == child_views(view_of(*n)).len(),
        forall|i: int| 0 <= i < r@.len() ==> view_of(#[trigger] r@[i]) == child_views(view_of(*n))[i],
{
    n.children().collect()
}

/// Relies on rowan's `cursor::SyntaxNode::text` and its conversion to
/// `String`: the node's text, token by token. rowan takes the node's text
/// range, whose end it adds in a `u32`.
#[verifier::external_body]
pub(crate) fn cursor_text(n: &SyntaxNode) -> (s: String)
    requires
        end_of(view_of(*n)) <= u32::MAX,
    ensures
        encode_utf8(s@) == text_of(cursor_tree(*n)),
{
    String::from(n.text())
}

} // verus!
