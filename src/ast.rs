//! The typed layer: kind-checked wrappers over nodes of the generic tree,
//! with accessors that only read the tree already built.
use vstd::prelude::*;
use crate::syntax::{SyntaxKind, raw_of};
use crate::tree::{
    NodeView, child_views, cursor_children, cursor_clone, cursor_kind, cursor_range, cursor_text,
    end_of, kind_of, lemma_child_in_parent, text_of, view_of,
};
use rowan::cursor::SyntaxNode;
use vstd::utf8::encode_utf8;

verus! {

/// A text range in bytes: `start..end`.
#[derive(Clone, Copy, Debug, PartialEq, Eq, Structural, Hash)]
pub struct TextSpan {
    pub start: usize,
    pub end: usize,
}

/// The views in `vs` whose tree is of kind `k`, in order.
pub open spec fn of_kind(vs: Seq<NodeView>, k: u16) -> Seq<NodeView>
    decreases vs.len(),
{
    if vs.len() == 0 {
        Seq::empty()
    } else {
        let p = of_kind(vs.drop_last(), k);
        if kind_of(vs.last().tree) == k {
            p.push(vs.last())
        } else {
            p
        }
    }
}

/// What `of_kind` keeps is of that kind.
pub proof fn lemma_of_kind(vs: Seq<NodeView>, k: u16, i: int)
    requires
        0 <= i < of_kind(vs, k).len(),
    ensures
        kind_of(of_kind(vs, k)[i].tree) == k,
    decreases vs.len(),
{
    if vs.len() > 0 && i < of_kind(vs.drop_last(), k).len() {
        lemma_of_kind(vs.drop_last(), k, i);
    }
}

/// The first view in `vs` whose tree is of kind `k`.
pub open spec fn first_of_kind(vs: Seq<NodeView>, k: u16) -> Option<NodeView>
    decreases vs.len(),
{
    if vs.len() == 0 {
        None
    } else if kind_of(vs[0].tree) == k {
        Some(vs[0])
    } else {
        first_of_kind(vs.drop_first(), k)
    }
}

/// The names of declarations, in order, skipping those without one: the
/// text of each declaration's first identifier child.
pub open spec fn names_of(decls: Seq<NodeView>) -> Seq<Seq<u8>>
    decreases decls.len(),
{
    if decls.len() == 0 {
        Seq::empty()
    } else {
        let p = names_of(decls.drop_last());
        match first_of_kind(child_views(decls.last()), raw_of(SyntaxKind::IDENTIFIER)) {
            Some(v) => p.push(text_of(v.tree)),
            None => p,
        }
    }
}

/// The kinds that stand for a statement.
pub open spec fn is_statement_kind(k: u16) -> bool {
    k == raw_of(SyntaxKind::PARTICIPANT_DECL)
}

/// The statement views among `vs`, in order.
pub open spec fn statements_of(vs: Seq<NodeView>) -> Seq<NodeView>
    decreases vs.len(),
{
    if vs.len() == 0 {
        Seq::empty()
    } else {
        let p = statements_of(vs.drop_last());
        if is_statement_kind(kind_of(vs.last().tree)) {
            p.push(vs.last())
        } else {
            p
        }
    }
}

/// A view whose range fits rowan's `u32` offsets.
pub open spec fn in_bounds(v: NodeView) -> bool {
    end_of(v) <= u32::MAX
}

/// The document's root node.
pub struct RootNode(SyntaxNode);

/// A participant declaration.
pub struct ParticipantDeclNode(SyntaxNode);

/// The name in a participant declaration.
pub struct IdentifierNode(SyntaxNode);

/// Any statement of a document.
pub struct StatementNode(SyntaxNode);

/// The statement forms, one variant per form.
pub enum StatementNodeKind {
    ParticipantDeclNodeKind(ParticipantDeclNode),
}

impl View for RootNode {
    type V = NodeView;

    closed spec fn view(&self) -> NodeView {
        view_of(self.0)
    }
}

impl View for ParticipantDeclNode {
    type V = NodeView;

    closed spec fn view(&self) -> NodeView {
        view_of(self.0)
    }
}

impl View for IdentifierNode {
    type V = NodeView;

    closed spec fn view(&self) -> NodeView {
        view_of(self.0)
    }
}

impl View for StatementNode {
    type V = NodeView;

    closed spec fn view(&self) -> NodeView {
        view_of(self.0)
    }
}

/// The text range of a node.
fn range_of(n: &SyntaxNode) -> (r: TextSpan)
    requires
        in_bounds(view_of(*n)),
    ensures
        r.start == view_of(*n).offset,
        r.end == end_of(view_of(*n)),
{
    let (start, end) = cursor_range(n);
    TextSpan { start, end }
}

/// The child nodes of `n` whose kind is `k`, in order.
fn children_of_kind(n: &SyntaxNode, k: u16) -> (r: Vec<SyntaxNode>)
    requires
        in_bounds(view_of(*n)),
    ensures
        r@.map_values(|c: SyntaxNode| view_of(c)) == of_kind(child_views(view_of(*n)), k),
        forall|i: int| 0 <= i < r@.len() ==> in_bounds(view_of(#[trigger] r@[i])),
{
    let children = cursor_children(n);
    let ghost vs = child_views(view_of(*n));
    let mut out: Vec<SyntaxNode> = Vec::new();
    let mut i: usize = 0;
    while i < children.len()
        invariant
            0 <= i <= children@.len(),
            children@.len() == vs.len(),
            vs == child_views(view_of(*n)),
            in_bounds(view_of(*n)),
            forall|j: int| 0 <= j < children@.len() ==> view_of(#[trigger] children@[j]) == vs[j],
            out@.map_values(|c: SyntaxNode| view_of(c)) == of_kind(vs.take(i as int), k),
            forall|j: int| 0 <= j < out@.len() ==> in_bounds(view_of(#[trigger] out@[j])),
        decreases children@.len() - i,
    {
        let ghost before = out@;
        proof {
            lemma_child_in_parent(view_of(*n), i as int);
            assert(vs.take(i as int + 1).drop_last() =~= vs.take(i as int));
            assert(vs.take(i as int + 1).last() == vs[i as int]);
        }
        if cursor_kind(&children[i]) == k {
            out.push(cursor_clone(&children[i]));
            proof {
                assert(out@.map_values(|c: SyntaxNode| view_of(c)) =~= before.map_values(
                    |c: SyntaxNode| view_of(c),
                ).push(vs[i as int]));
                assert forall|j: int| 0 <= j < out@.len() implies in_bounds(
                    view_of(#[trigger] out@[j]),
                ) by {
                    if j < before.len() {
                        assert(out@[j] == before[j]);
                    }
                }
            }
        }
        i = i + 1;
    }
    proof {
        assert(vs.take(i as int) =~= vs);
    }
    out
}

impl RootNode {
    #[verifier::type_invariant]
    spec fn inv(&self) -> bool {
        kind_of(view_of(self.0).tree) == raw_of(SyntaxKind::ROOT) && in_bounds(view_of(self.0))
    }

    /// The node as a root, if it is one.
    pub fn cast(node: SyntaxNode) -> (r: Option<RootNode>)
        requires
            in_bounds(view_of(node)),
        ensures
            r is Some <==> kind_of(view_of(node).tree) == raw_of(SyntaxKind::ROOT),
            r is Some ==> r.unwrap()@ == view_of(node),
    {
        if cursor_kind(&node) == SyntaxKind::ROOT.to_raw() {
            Some(RootNode(node))
        } else {
            None
        }
    }

    /// The generic node underneath.
    pub fn syntax(&self) -> (r: &SyntaxNode)
        ensures
            view_of(*r) == self@,
    {
        &self.0
    }

    /// The node's text range.
    pub fn position(&self) -> (r: TextSpan)
        ensures
            r.start == self@.offset,
            r.end == end_of(self@),
    {
        proof {
            use_type_invariant(self);
        }
        range_of(&self.0)
    }

    /// The statements of the document, in order.
    pub fn statements(&self) -> (r: Vec<StatementNode>)
        ensures
            r@.map_values(|s: StatementNode| s@) == statements_of(child_views(self@)),
    {
        proof {
            use_type_invariant(self);
        }
        let children = cursor_children(&self.0);
        let ghost vs = child_views(self@);
        let mut out: Vec<StatementNode> = Vec::new();
        let mut i: usize = 0;
        while i < children.len()
            invariant
                0 <= i <= children@.len(),
                children@.len() == vs.len(),
                vs == child_views(self@),
                in_bounds(self@),
                forall|j: int| 0 <= j < children@.len() ==> view_of(#[trigger] children@[j]) == vs[j],
                out@.map_values(|s: StatementNode| s@) == statements_of(vs.take(i as int)),
            decreases children@.len() - i,
        {
            let ghost before = out@;
            proof {
                lemma_child_in_parent(self@, i as int);
                assert(vs.take(i as int + 1).drop_last() =~= vs.take(i as int));
                assert(vs.take(i as int + 1).last() == vs[i as int]);
            }
            let c = cursor_clone(&children[i]);
            match StatementNode::cast(c) {
                Some(s) => {
                    out.push(s);
                    proof {
                        assert(out@.map_values(|s: StatementNode| s@) =~= before.map_values(
                            |s: StatementNode| s@,
                        ).push(vs[i as int]));
                    }
                },
                None => {},
            }
            i = i + 1;
        }
        proof {
            assert(vs.take(i as int) =~= vs);
        }
        out
    }

    /// The participant declarations of the document, in order.
    pub fn participant_decls(&self) -> (r: Vec<ParticipantDeclNode>)
        ensures
            r@.map_values(|d: ParticipantDeclNode| d@) == of_kind(
                child_views(self@),
                raw_of(SyntaxKind::PARTICIPANT_DECL),
            ),
    {
        proof {
            use_type_invariant(self);
        }
        let k = SyntaxKind::PARTICIPANT_DECL.to_raw();
        let mut nodes = children_of_kind(&self.0, k);
        let ghost vs = nodes@.map_values(|c: SyntaxNode| view_of(c));
        proof {
            assert(vs.take(nodes@.len() as int) =~= vs);
            assert forall|j: int| 0 <= j < nodes@.len() implies kind_of(
                view_of(#[trigger] nodes@[j]).tree,
            ) == k by {
                assert(vs[j] == view_of(nodes@[j]));
                lemma_of_kind(child_views(self@), k, j);
            }
        }
        let mut rev: Vec<ParticipantDeclNode> = Vec::new();
        while nodes.len() > 0
            invariant
                nodes@.len() + rev@.len() == vs.len(),
                nodes@.map_values(|c: SyntaxNode| view_of(c)) == vs.take(nodes@.len() as int),
                forall|j: int| 0 <= j < nodes@.len() ==> in_bounds(view_of(#[trigger] nodes@[j])),
                forall|j: int|
                    0 <= j < nodes@.len() ==> kind_of(view_of(#[trigger] nodes@[j]).tree) == k,
                forall|j: int|
                    0 <= j < rev@.len() ==> (#[trigger] rev@[j])@ == vs[vs.len() - 1 - j],
                k == raw_of(SyntaxKind::PARTICIPANT_DECL),
            decreases nodes@.len(),
        {
            let ghost m = nodes@.len() as int;
            let ghost before = nodes@;
            let ghost rv = rev@;
            let c = nodes.pop().unwrap();
            proof {
                assert(before.map_values(|c: SyntaxNode| view_of(c))[m - 1] == view_of(c));
                assert(vs.take(m)[m - 1] == vs[m - 1]);
                assert(nodes@.map_values(|c: SyntaxNode| view_of(c)) =~= vs.take(m - 1));
            }
            rev.push(ParticipantDeclNode(c));
            proof {
                assert forall|j: int| 0 <= j < rev@.len() implies (#[trigger] rev@[j])@
                    == vs[vs.len() - 1 - j] by {
                    if j < rv.len() {
                        assert(rev@[j] == rv[j]);
                    }
                }
            }
        }
        let mut out: Vec<ParticipantDeclNode> = Vec::new();
        while rev.len() > 0
            invariant
                rev@.len() + out@.len() == vs.len(),
                forall|j: int|
                    0 <= j < rev@.len() ==> (#[trigger] rev@[j])@ == vs[vs.len() - 1 - j],
                forall|j: int| 0 <= j < out@.len() ==> (#[trigger] out@[j])@ == vs[j],
            decreases rev@.len(),
        {
            let ghost o = out@;
            let ghost m = rev@.len() as int;
            let d = rev.pop().unwrap();
            proof {
                assert(d@ == vs[vs.len() - m]);
            }
            out.push(d);
            proof {
                assert forall|j: int| 0 <= j < out@.len() implies (#[trigger] out@[j])@ == vs[j] by {
                    if j < o.len() {
                        assert(out@[j] == o[j]);
                    }
                }
            }
        }
        proof {
            assert(out@.map_values(|d: ParticipantDeclNode| d@) =~= vs);
        }
        out
    }
}

impl RootNode {
    /// The declared participant names, in order: what an editor offers
    /// for completion.
    pub fn participant_names(&self) -> (r: Vec<String>)
        ensures
            r@.map_values(|n: String| encode_utf8(n@)) == names_of(
                of_kind(child_views(self@), raw_of(SyntaxKind::PARTICIPANT_DECL)),
            ),
    {
        let decls = self.participant_decls();
        let ghost vs = of_kind(child_views(self@), raw_of(SyntaxKind::PARTICIPANT_DECL));
        proof {
            assert(decls@.len() == vs.len());
        }
        let mut out: Vec<String> = Vec::new();
        let mut i: usize = 0;
        proof {
            assert(vs.take(0) =~= Seq::<NodeView>::empty());
            assert(out@.map_values(|n: String| encode_utf8(n@)) =~= Seq::<Seq<u8>>::empty());
        }
        while i < decls.len()
            invariant
                0 <= i <= decls@.len(),
                decls@.len() == vs.len(),
                forall|j: int| 0 <= j < decls@.len() ==> (#[trigger] decls@[j])@ == vs[j],
                out@.map_values(|n: String| encode_utf8(n@)) == names_of(vs.take(i as int)),
            decreases decls@.len() - i,
        {
            let ghost before = out@;
            proof {
                assert(decls@.map_values(|d: ParticipantDeclNode| d@)[i as int] == decls@[i as int]@);
                assert(vs.take(i as int + 1).drop_last() =~= vs.take(i as int));
                assert(vs.take(i as int + 1).last() == vs[i as int]);
            }
            match decls[i].participant_name() {
                Some(n) => {
                    let name = n.identifier();
                    out.push(name);
                    proof {
                        assert(out@.map_values(|n: String| encode_utf8(n@)) =~= before.map_values(
                            |n: String| encode_utf8(n@),
                        ).push(encode_utf8(name@)));
                    }
                },
                None => {},
            }
            i = i + 1;
        }
        proof {
            assert(vs.take(i as int) =~= vs);
        }
        out
    }
}

impl ParticipantDeclNode {
    #[verifier::type_invariant]
    spec fn inv(&self) -> bool {
        kind_of(view_of(self.0).tree) == raw_of(SyntaxKind::PARTICIPANT_DECL) && in_bounds(
            view_of(self.0),
        )
    }

    /// The node as a participant declaration, if it is one.
    pub fn cast(node: SyntaxNode) -> (r: Option<ParticipantDeclNode>)
        requires
            in_bounds(view_of(node)),
        ensures
            r is Some <==> kind_of(view_of(node).tree) == raw_of(SyntaxKind::PARTICIPANT_DECL),
            r is Some ==> r.unwrap()@ == view_of(node),
    {
        if cursor_kind(&node) == SyntaxKind::PARTICIPANT_DECL.to_raw() {
            Some(ParticipantDeclNode(node))
        } else {
            None
        }
    }

    /// The generic node underneath.
    pub fn syntax(&self) -> (r: &SyntaxNode)
        ensures
            view_of(*r) == self@,
    {
        &self.0
    }

    /// The declaration's text range.
    pub fn position(&self) -> (r: TextSpan)
        ensures
            r.start == self@.offset,
            r.end == end_of(self@),
    {
        proof {
            use_type_invariant(self);
        }
        range_of(&self.0)
    }

    /// The declared name: the first identifier child, or none when the
    /// declaration has no name.
    pub fn participant_name(&self) -> (r: Option<IdentifierNode>)
        ensures
            r is Some <==> first_of_kind(child_views(self@), raw_of(SyntaxKind::IDENTIFIER)) is Some,
            r is Some ==> Some(r.unwrap()@) == first_of_kind(
                child_views(self@),
                raw_of(SyntaxKind::IDENTIFIER),
            ),
    {
        proof {
            use_type_invariant(self);
        }
        let k = SyntaxKind::IDENTIFIER.to_raw();
        let children = cursor_children(&self.0);
        let ghost vs = child_views(self@);
        let mut i: usize = 0;
        proof {
            assert(vs.skip(0) =~= vs);
        }
        while i < children.len()
            invariant
                0 <= i <= children@.len(),
                children@.len() == vs.len(),
                vs == child_views(self@),
                in_bounds(self@),
                forall|j: int| 0 <= j < children@.len() ==> view_of(#[trigger] children@[j]) == vs[j],
                first_of_kind(vs, k) == first_of_kind(vs.skip(i as int), k),
                k == raw_of(SyntaxKind::IDENTIFIER),
            decreases children@.len() - i,
        {
            proof {
                lemma_child_in_parent(self@, i as int);
                assert(vs.skip(i as int)[0] == vs[i as int]);
                assert(vs.skip(i as int).drop_first() =~= vs.skip(i as int + 1));
            }
            if cursor_kind(&children[i]) == k {
                let c = cursor_clone(&children[i]);
                return Some(IdentifierNode(c));
            }
            i = i + 1;
        }
        None
    }
}

impl IdentifierNode {
    #[verifier::type_invariant]
    spec fn inv(&self) -> bool {
        kind_of(view_of(self.0).tree) == raw_of(SyntaxKind::IDENTIFIER) && in_bounds(
            view_of(self.0),
        )
    }

    /// The node as an identifier, if it is one.
    pub fn cast(node: SyntaxNode) -> (r: Option<IdentifierNode>)
        requires
            in_bounds(view_of(node)),
        ensures
            r is Some <==> kind_of(view_of(node).tree) == raw_of(SyntaxKind::IDENTIFIER),
            r is Some ==> r.unwrap()@ == view_of(node),
    {
        if cursor_kind(&node) == SyntaxKind::IDENTIFIER.to_raw() {
            Some(IdentifierNode(node))
        } else {
            None
        }
    }

    /// The generic node underneath.
    pub fn syntax(&self) -> (r: &SyntaxNode)
        ensures
            view_of(*r) == self@,
    {
        &self.0
    }

    /// The exact source text of the name.
    pub fn identifier(&self) -> (r: String)
        ensures
            encode_utf8(r@) == text_of(self@.tree),
    {
        proof {
            use_type_invariant(self);
        }
        cursor_text(&self.0)
    }

    /// The name's text range.
    pub fn position(&self) -> (r: TextSpan)
        ensures
            r.start == self@.offset,
            r.end == end_of(self@),
    {
        proof {
            use_type_invariant(self);
        }
        range_of(&self.0)
    }
}

impl StatementNode {
    #[verifier::type_invariant]
    spec fn inv(&self) -> bool {
        is_statement_kind(kind_of(view_of(self.0).tree)) && in_bounds(view_of(self.0))
    }

    /// The node as a statement, if it is one of the statement forms.
    pub fn cast(node: SyntaxNode) -> (r: Option<StatementNode>)
        requires
            in_bounds(view_of(node)),
        ensures
            r is Some <==> is_statement_kind(kind_of(view_of(node).tree)),
            r is Some ==> r.unwrap()@ == view_of(node),
    {
        if cursor_kind(&node) == SyntaxKind::PARTICIPANT_DECL.to_raw() {
            Some(StatementNode(node))
        } else {
            None
        }
    }

    /// The statement's form, with the typed node.
    pub fn kind(&self) -> (r: StatementNodeKind)
        ensures
            match r {
                StatementNodeKind::ParticipantDeclNodeKind(d) => d@ == self@,
            },
    {
        proof {
            use_type_invariant(self);
        }
        StatementNodeKind::ParticipantDeclNodeKind(ParticipantDeclNode(cursor_clone(&self.0)))
    }

    /// The statement's text range.
    pub fn position(&self) -> (r: TextSpan)
        ensures
            r.start == self@.offset,
            r.end == end_of(self@),
    {
        proof {
            use_type_invariant(self);
        }
        range_of(&self.0)
    }
}

} // verus!
