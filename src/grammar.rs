//! The grammar: a recursive-descent parser over the token sequence that
//! drives rowan's builder. It never drops input and never stops early:
//! what it cannot classify becomes an error node and a diagnostic.
use vstd::prelude::*;
use crate::lex::{Tok, joined, tok_of, toks_of};
use crate::syntax::{SyntaxKind, raw_of};
use crate::tree::{
    Green, NodeView, builder_finish, cursor_new_root, green_clone, view_of, builder_finish_node, builder_new, builder_start_node, builder_token,
    finished_trees, frame_node, green_tree, kind_of, lemma_texts_concat, lemma_texts_push,
    open_frames, push_child, text_of, texts_all,
};
use crate::ast::{RootNode, in_bounds};
use rowan::cursor::SyntaxNode;
use rowan::{GreenNode, GreenNodeBuilder};

verus! {

/// A token as a leaf of the tree.
pub open spec fn leaf(t: Tok) -> Green {
    Green::Token { kind: raw_of(t.0), text: t.1 }
}

pub open spec fn leaves(ts: Seq<Tok>) -> Seq<Green> {
    ts.map_values(|t: Tok| leaf(t))
}

/// A node of one kind around a single token.
pub open spec fn wrap(kind: SyntaxKind, t: Tok) -> Green {
    Green::Node { kind: raw_of(kind), children: seq![leaf(t)] }
}

/// The number of whitespace tokens at the front of `ts`.
pub open spec fn ws_run(ts: Seq<Tok>) -> nat
    decreases ts.len(),
{
    if ts.len() > 0 && ts[0].0 == SyntaxKind::WHITESPACE {
        1 + ws_run(ts.drop_first())
    } else {
        0
    }
}

/// The number of tokens up to and including the first end of line, or all
/// of them when there is none.
pub open spec fn line_len(ts: Seq<Tok>) -> nat
    decreases ts.len(),
{
    if ts.len() == 0 {
        0
    } else if ts[0].0 == SyntaxKind::EOL {
        1
    } else {
        1 + line_len(ts.drop_first())
    }
}

/// The number of tokens of a participant declaration whose keyword is at
/// the front of `ts`: the rest of its line, end of line included.
pub open spec fn decl_len(ts: Seq<Tok>) -> nat {
    1 + line_len(ts.drop_first())
}

/// The position of the token after the keyword and the whitespace after it.
pub open spec fn name_pos(ts: Seq<Tok>) -> int {
    1 + ws_run(ts.drop_first()) as int
}

/// Whether the declaration at the front of `ts` names a participant.
pub open spec fn has_name(ts: Seq<Tok>) -> bool {
    name_pos(ts) < ts.len() && ts[name_pos(ts)].0 == SyntaxKind::IDENTIFIER
}

/// The children of the declaration at the front of `ts`: its tokens as
/// leaves, but for the name, which stands in an identifier node.
pub open spec fn decl_children(ts: Seq<Tok>) -> Seq<Green> {
    let i = name_pos(ts);
    if has_name(ts) {
        leaves(ts.take(i)) + seq![wrap(SyntaxKind::IDENTIFIER, ts[i])] + leaves(
            ts.subrange(i + 1, decl_len(ts) as int),
        )
    } else {
        leaves(ts.take(decl_len(ts) as int))
    }
}

/// The number of tokens of the element at the front of a non-empty `ts`.
pub open spec fn element_len(ts: Seq<Tok>) -> nat {
    if ts[0].0 == SyntaxKind::PARTICIPANT_KW {
        decl_len(ts)
    } else {
        1
    }
}

/// The element at the front of a non-empty `ts`: whitespace stays a leaf,
/// a keyword starts a declaration, and any other token is wrapped in an
/// error node.
pub open spec fn element(ts: Seq<Tok>) -> Green {
    if ts[0].0 == SyntaxKind::WHITESPACE {
        leaf(ts[0])
    } else if ts[0].0 == SyntaxKind::PARTICIPANT_KW {
        Green::Node { kind: raw_of(SyntaxKind::PARTICIPANT_DECL), children: decl_children(ts) }
    } else {
        wrap(SyntaxKind::ERROR, ts[0])
    }
}

pub open spec fn msg_unrecognized() -> Seq<char> {
    "unrecognized input"@
}

pub open spec fn msg_unexpected() -> Seq<char> {
    "unexpected token"@
}

/// The diagnostic of the element at the front of a non-empty `ts`, if any.
pub open spec fn element_diagnostic(ts: Seq<Tok>) -> Seq<Seq<char>> {
    if ts[0].0 == SyntaxKind::WHITESPACE || ts[0].0 == SyntaxKind::PARTICIPANT_KW {
        Seq::empty()
    } else if ts[0].0 == SyntaxKind::ERROR {
        seq![msg_unrecognized()]
    } else {
        seq![msg_unexpected()]
    }
}

/// The top-level elements of a document, in order.
pub open spec fn elements(ts: Seq<Tok>) -> Seq<Green>
    decreases ts.len(),
{
    if ts.len() == 0 {
        Seq::empty()
    } else {
        let n = element_len(ts) as int;
        if 0 < n <= ts.len() {
            seq![element(ts)] + elements(ts.skip(n))
        } else {
            Seq::empty()
        }
    }
}

/// The diagnostics of a document, in order.
pub open spec fn diagnostics(ts: Seq<Tok>) -> Seq<Seq<char>>
    decreases ts.len(),
{
    if ts.len() == 0 {
        Seq::empty()
    } else {
        let n = element_len(ts) as int;
        if 0 < n <= ts.len() {
            element_diagnostic(ts) + diagnostics(ts.skip(n))
        } else {
            Seq::empty()
        }
    }
}

/// The tree of a whole document: a root node over its elements.
pub open spec fn document(ts: Seq<Tok>) -> Green {
    Green::Node { kind: raw_of(SyntaxKind::ROOT), children: elements(ts) }
}

/// No token claims to be the end of input.
pub open spec fn no_eof(ts: Seq<Tok>) -> bool {
    forall|i: int| 0 <= i < ts.len() ==> (#[trigger] ts[i]).0 != SyntaxKind::EOF
}

/// The text length of the children of all open frames.
pub open spec fn frames_len(fs: Seq<(u16, Seq<Green>)>) -> nat
    decreases fs.len(),
{
    if fs.len() == 0 {
        0
    } else {
        frames_len(fs.drop_last()) + texts_all(fs.last().1).len()
    }
}

/// The frames with more children under the innermost one.
pub open spec fn add_children(fs: Seq<(u16, Seq<Green>)>, gs: Seq<Green>) -> Seq<
    (u16, Seq<Green>),
> {
    fs.update(fs.len() - 1, (fs.last().0, fs.last().1 + gs))
}

proof fn lemma_line_len(ts: Seq<Tok>)
    ensures
        line_len(ts) <= ts.len(),
        ws_run(ts) <= line_len(ts),
        ws_run(ts) < ts.len() && ts[ws_run(ts) as int].0 != SyntaxKind::EOL ==> ws_run(ts)
            < line_len(ts),
    decreases ts.len(),
{
    if ts.len() > 0 {
        lemma_line_len(ts.drop_first());
        if ts[0].0 == SyntaxKind::WHITESPACE && ws_run(ts) < ts.len() {
            assert(ts[ws_run(ts) as int] == ts.drop_first()[ws_run(ts.drop_first()) as int]);
        }
    }
}

/// The element at the front fits in what is left.
proof fn lemma_element_len(ts: Seq<Tok>)
    requires
        ts.len() > 0,
    ensures
        0 < element_len(ts) <= ts.len(),
        ts[0].0 == SyntaxKind::PARTICIPANT_KW ==> name_pos(ts) <= decl_len(ts),
        ts[0].0 == SyntaxKind::PARTICIPANT_KW && has_name(ts) ==> name_pos(ts) < decl_len(ts),
{
    lemma_line_len(ts.drop_first());
    if ts[0].0 == SyntaxKind::PARTICIPANT_KW && has_name(ts) {
        assert(ts[name_pos(ts)] == ts.drop_first()[ws_run(ts.drop_first()) as int]);
    }
}

proof fn lemma_frames_push(fs: Seq<(u16, Seq<Green>)>, f: (u16, Seq<Green>))
    ensures
        frames_len(fs.push(f)) == frames_len(fs) + texts_all(f.1).len(),
{
    assert(fs.push(f).drop_last() =~= fs);
}

proof fn lemma_frames_add(fs: Seq<(u16, Seq<Green>)>, gs: Seq<Green>)
    requires
        fs.len() > 0,
    ensures
        frames_len(add_children(fs, gs)) == frames_len(fs) + texts_all(gs).len(),
        add_children(fs, gs).len() == fs.len(),
{
    let a = add_children(fs, gs);
    assert(a.drop_last() =~= fs.drop_last());
    lemma_texts_concat(fs.last().1, gs);
}

/// Adding children one group after another.
proof fn lemma_add_twice(fs: Seq<(u16, Seq<Green>)>, a: Seq<Green>, b: Seq<Green>)
    requires
        fs.len() > 0,
    ensures
        add_children(add_children(fs, a), b) == add_children(fs, a + b),
{
    assert(fs.last().1 + a + b =~= fs.last().1 + (a + b));
    assert(add_children(add_children(fs, a), b) =~= add_children(fs, a + b));
}

proof fn lemma_add_nothing(fs: Seq<(u16, Seq<Green>)>)
    requires
        fs.len() > 0,
    ensures
        add_children(fs, Seq::empty()) == fs,
{
    assert(fs.last().1 + Seq::<Green>::empty() =~= fs.last().1);
    assert(add_children(fs, Seq::empty()) =~= fs);
}

/// The leaves of one more token.
proof fn lemma_leaves_take(ts: Seq<Tok>, a: int, b: int)
    requires
        0 <= a <= b < ts.len(),
    ensures
        leaves(ts.subrange(a, b + 1)) == leaves(ts.subrange(a, b)) + seq![leaf(ts[b])],
{
    assert(leaves(ts.subrange(a, b + 1)) =~= leaves(ts.subrange(a, b)) + seq![leaf(ts[b])]);
}


/// Tokens before the first end of line count one each towards `line_len`.
proof fn lemma_line_skip(s: Seq<Tok>, k: int)
    requires
        0 <= k <= s.len(),
        forall|m: int| 0 <= m < k ==> (#[trigger] s[m]).0 != SyntaxKind::EOL,
    ensures
        line_len(s) == k + line_len(s.skip(k)),
    decreases k,
{
    if k == 0 {
        assert(s.skip(0) =~= s);
    } else {
        lemma_line_skip(s, k - 1);
        let t = s.skip(k - 1);
        assert(t[0] == s[k - 1]);
        assert(t.drop_first() =~= s.skip(k));
    }
}

/// Skipping part of the whitespace run leaves the rest of it.
proof fn lemma_ws_skip(ts: Seq<Tok>, k: int)
    requires
        0 <= k <= ws_run(ts),
    ensures
        k <= ts.len(),
        ws_run(ts) == k + ws_run(ts.skip(k)),
    decreases k,
{
    lemma_line_len(ts);
    if k == 0 {
        assert(ts.skip(0) =~= ts);
    } else {
        lemma_ws_skip(ts, k - 1);
        lemma_ws_run_kinds(ts, k - 1);
        let t = ts.skip(k - 1);
        assert(t[0] == ts[k - 1]);
        assert(t.drop_first() =~= ts.skip(k));
    }
}

/// The tokens of the whitespace run are whitespace.
proof fn lemma_ws_run_kinds(s: Seq<Tok>, m: int)
    requires
        0 <= m < ws_run(s),
    ensures
        s[m].0 == SyntaxKind::WHITESPACE,
        ws_run(s) <= s.len(),
    decreases s.len(),
{
    lemma_line_len(s);
    if m > 0 {
        lemma_ws_run_kinds(s.drop_first(), m - 1);
    }
}

/// Leading whitespace tokens are elements of their own, leaves without
/// diagnostics.
proof fn lemma_elements_ws(ts: Seq<Tok>, k: int)
    requires
        0 <= k <= ws_run(ts),
    ensures
        k <= ts.len(),
        elements(ts) == leaves(ts.take(k)) + elements(ts.skip(k)),
        diagnostics(ts) == diagnostics(ts.skip(k)),
    decreases k,
{
    lemma_line_len(ts);
    if k == 0 {
        assert(ts.skip(0) =~= ts);
        assert(leaves(ts.take(0)) + elements(ts) =~= elements(ts));
    } else {
        lemma_elements_ws(ts, k - 1);
        lemma_ws_run_kinds(ts, k - 1);
        let t = ts.skip(k - 1);
        assert(t[0] == ts[k - 1]);
        assert(t.skip(1) =~= ts.skip(k));
        assert(element_len(t) == 1);
        assert(elements(t) == seq![leaf(ts[k - 1])] + elements(ts.skip(k)));
        assert(element_diagnostic(t) =~= Seq::<Seq<char>>::empty());
        assert(diagnostics(t) =~= diagnostics(ts.skip(k)));
        lemma_leaves_take(ts, 0, k - 1);
        assert(ts.take(k) =~= ts.subrange(0, k));
        assert(ts.take(k - 1) =~= ts.subrange(0, k - 1));
        assert(leaves(ts.take(k)) + elements(ts.skip(k)) =~= leaves(ts.take(k - 1)) + (seq![
            leaf(ts[k - 1]),
        ] + elements(ts.skip(k))));
    }
}

/// One element off the front of a document.
proof fn lemma_elements_step(ts: Seq<Tok>)
    requires
        ts.len() > 0,
    ensures
        0 < element_len(ts) <= ts.len(),
        elements(ts) == seq![element(ts)] + elements(ts.skip(element_len(ts) as int)),
        diagnostics(ts) == element_diagnostic(ts) + diagnostics(ts.skip(element_len(ts) as int)),
{
    lemma_element_len(ts);
}

proof fn lemma_no_eof_skip(ts: Seq<Tok>, k: int)
    requires
        no_eof(ts),
        0 <= k <= ts.len(),
    ensures
        no_eof(ts.skip(k)),
{
    assert forall|i: int| 0 <= i < ts.skip(k).len() implies (#[trigger] ts.skip(k)[i]).0
        != SyntaxKind::EOF by {
        assert(ts.skip(k)[i] == ts[i + k]);
    }
}

/// Joining distributes over concatenation.
pub proof fn lemma_joined_concat(a: Seq<Tok>, b: Seq<Tok>)
    ensures
        joined(a + b) == joined(a) + joined(b),
    decreases a.len(),
{
    if a.len() == 0 {
        assert(a + b =~= b);
        assert(joined(a) + joined(b) =~= joined(b));
    } else {
        lemma_joined_concat(a.drop_first(), b);
        assert((a + b).drop_first() =~= a.drop_first() + b);
        assert(joined(a) + joined(b) =~= a[0].1 + (joined(a.drop_first()) + joined(b)));
    }
}

proof fn lemma_texts_single(g: Green)
    ensures
        texts_all(seq![g]) == text_of(g),
{
    lemma_texts_push(Seq::empty(), g);
    assert(Seq::<Green>::empty().push(g) =~= seq![g]);
    assert(texts_all(Seq::<Green>::empty()) =~= Seq::<u8>::empty());
    assert(Seq::<u8>::empty() + text_of(g) =~= text_of(g));
}

/// The leaves of tokens hold the tokens' text.
pub proof fn lemma_texts_leaves(s: Seq<Tok>)
    ensures
        texts_all(leaves(s)) == joined(s),
    decreases s.len(),
{
    if s.len() == 0 {
        assert(texts_all(leaves(s)) =~= Seq::<u8>::empty());
    } else {
        lemma_texts_leaves(s.drop_first());
        assert(leaves(s) =~= seq![leaf(s[0])] + leaves(s.drop_first()));
        lemma_texts_concat(seq![leaf(s[0])], leaves(s.drop_first()));
        lemma_texts_single(leaf(s[0]));
    }
}

/// A node around one token holds that token's text.
proof fn lemma_text_wrap(k: SyntaxKind, t: Tok)
    ensures
        text_of(wrap(k, t)) == t.1,
{
    lemma_texts_single(leaf(t));
}

/// An element holds the text of its tokens.
proof fn lemma_text_element(ts: Seq<Tok>)
    requires
        ts.len() > 0,
    ensures
        text_of(element(ts)) == joined(ts.take(element_len(ts) as int)),
{
    lemma_element_len(ts);
    let n = element_len(ts) as int;
    assert(ts.take(n).drop_first().len() == n - 1);
    if n == 1 {
        assert(ts.take(1) =~= seq![ts[0]]);
        assert(joined(ts.take(1)) == ts[0].1 + joined(ts.take(1).drop_first()));
        assert(ts.take(1).drop_first() =~= Seq::<Tok>::empty());
        assert(ts[0].1 + Seq::<u8>::empty() =~= ts[0].1);
    }
    if ts[0].0 == SyntaxKind::WHITESPACE {
    } else if ts[0].0 == SyntaxKind::PARTICIPANT_KW {
        let i = name_pos(ts);
        let d = decl_len(ts) as int;
        if has_name(ts) {
            let a = leaves(ts.take(i));
            let m = seq![wrap(SyntaxKind::IDENTIFIER, ts[i])];
            let b = leaves(ts.subrange(i + 1, d));
            lemma_texts_concat(a + m, b);
            lemma_texts_concat(a, m);
            lemma_texts_single(wrap(SyntaxKind::IDENTIFIER, ts[i]));
            lemma_text_wrap(SyntaxKind::IDENTIFIER, ts[i]);
            lemma_texts_leaves(ts.take(i));
            lemma_texts_leaves(ts.subrange(i + 1, d));
            assert(ts.take(d) =~= ts.take(i) + seq![ts[i]] + ts.subrange(i + 1, d));
            lemma_joined_concat(ts.take(i) + seq![ts[i]], ts.subrange(i + 1, d));
            lemma_joined_concat(ts.take(i), seq![ts[i]]);
            assert(joined(seq![ts[i]]) == ts[i].1 + joined(seq![ts[i]].drop_first()));
            assert(seq![ts[i]].drop_first() =~= Seq::<Tok>::empty());
            assert(ts[i].1 + Seq::<u8>::empty() =~= ts[i].1);
        } else {
            lemma_texts_leaves(ts.take(d));
        }
    } else {
        lemma_text_wrap(SyntaxKind::ERROR, ts[0]);
    }
}

/// A document's tree holds exactly the text of its tokens.
pub proof fn lemma_document_text(ts: Seq<Tok>)
    ensures
        text_of(document(ts)) == joined(ts),
    decreases ts.len(),
{
    if ts.len() == 0 {
        assert(texts_all(elements(ts)) =~= Seq::<u8>::empty());
    } else {
        lemma_elements_step(ts);
        let n = element_len(ts) as int;
        lemma_document_text(ts.skip(n));
        lemma_texts_concat(seq![element(ts)], elements(ts.skip(n)));
        lemma_texts_single(element(ts));
        lemma_text_element(ts);
        assert(ts =~= ts.take(n) + ts.skip(n));
        lemma_joined_concat(ts.take(n), ts.skip(n));
    }
}

/// Whether a statement was read, or only the end of input was found.
pub(crate) enum Statement {
    /// A statement was read.
    Read,
    /// Nothing was read: no significant token was left.
    UnexpectedEof,
}

/// The result of parsing a document: the finished tree and the
/// diagnostics gathered on the way.
pub struct Parsed {
    green_node: GreenNode,
    errors: Vec<String>,
}

impl Parsed {
    /// The document's tree.
    pub closed spec fn tree(&self) -> Green {
        green_tree(self.green_node)
    }

    /// The document's diagnostics, in order.
    pub closed spec fn diagnostics(&self) -> Seq<Seq<char>> {
        self.errors@.map_values(|s: String| s@)
    }

    #[verifier::type_invariant]
    spec fn inv(&self) -> bool {
        &&& self.tree() is Node
        &&& kind_of(self.tree()) == raw_of(SyntaxKind::ROOT)
        &&& text_of(self.tree()).len() <= u32::MAX
    }

    /// The view of the whole tree: its root, at offset zero.
    pub open spec fn root_view(&self) -> NodeView {
        NodeView { tree: self.tree(), offset: 0 }
    }

    /// A navigable view of the whole tree.
    pub fn syntax(&self) -> (r: SyntaxNode)
        ensures
            view_of(r) == self.root_view(),
            in_bounds(view_of(r)),
    {
        proof {
            use_type_invariant(self);
        }
        cursor_new_root(green_clone(&self.green_node))
    }

    /// The typed root of the tree.
    pub fn root(&self) -> (r: RootNode)
        ensures
            r@ == self.root_view(),
    {
        proof {
            use_type_invariant(self);
        }
        RootNode::cast(self.syntax()).unwrap()
    }

    /// The diagnostics, in order.
    pub fn errors(&self) -> (r: &Vec<String>)
        ensures
            r@.map_values(|s: String| s@) == self.diagnostics(),
    {
        &self.errors
    }
}

/// The parser's state: the tokens not read yet, in reverse order so that
/// the next one is last; the tree under construction; the diagnostics.
pub(crate) struct Parser {
    tokens: Vec<(SyntaxKind, String)>,
    builder: GreenNodeBuilder<'static>,
    errors: Vec<String>,
}

impl Parser {
    /// The tokens not read yet, next first.
    pub closed spec fn rest(&self) -> Seq<Tok> {
        let s = toks_of(self.tokens@);
        Seq::new(s.len(), |i: int| s[s.len() - 1 - i])
    }

    pub closed spec fn frames(&self) -> Seq<(u16, Seq<Green>)> {
        open_frames(self.builder)
    }

    pub closed spec fn done(&self) -> Seq<Green> {
        finished_trees(self.builder)
    }

    pub closed spec fn diagnostics(&self) -> Seq<Seq<char>> {
        self.errors@.map_values(|s: String| s@)
    }

    /// What is built and what is left fit rowan's `u32` text sizes.
    pub open spec fn fits(&self) -> bool {
        frames_len(self.frames()) + joined(self.rest()).len() <= u32::MAX
    }

    /// A parser over `tokens`, given in reverse order.
    pub(crate) fn new(tokens: Vec<(SyntaxKind, String)>) -> (p: Parser)
        ensures
            p.rest() == ({
                let s = toks_of(tokens@);
                Seq::new(s.len(), |i: int| s[s.len() - 1 - i])
            }),
            p.frames() == Seq::<(u16, Seq<Green>)>::empty(),
            p.done() == Seq::<Green>::empty(),
            p.diagnostics() == Seq::<Seq<char>>::empty(),
    {
        let p = Parser { tokens, builder: builder_new(), errors: Vec::new() };
        assert(p.diagnostics() =~= Seq::<Seq<char>>::empty());
        p
    }

    /// The kind of the next token, or `EOF` when none is left.
    pub(crate) fn current(&self) -> (k: SyntaxKind)
        ensures
            k == if self.rest().len() > 0 {
                self.rest()[0].0
            } else {
                SyntaxKind::EOF
            },
    {
        let n = self.tokens.len();
        if n == 0 {
            SyntaxKind::EOF
        } else {
            assert(toks_of(self.tokens@)[n - 1] == tok_of(self.tokens@[n - 1]));
            self.tokens[n - 1].0
        }
    }

    /// Whether the next token is of the given kind.
    pub fn at(&self, kind: SyntaxKind) -> (r: bool)
        ensures
            r == (self.current_spec() == kind),
    {
        self.current() == kind
    }

    pub open spec fn current_spec(&self) -> SyntaxKind {
        if self.rest().len() > 0 {
            self.rest()[0].0
        } else {
            SyntaxKind::EOF
        }
    }

    /// Opens a node of the given kind.
    pub(crate) fn start_node(&mut self, kind: SyntaxKind)
        ensures
            final(self).frames() == old(self).frames().push((raw_of(kind), Seq::<Green>::empty())),
            final(self).rest() == old(self).rest(),
            final(self).done() == old(self).done(),
            final(self).diagnostics() == old(self).diagnostics(),
            final(self).fits() == old(self).fits(),
    {
        builder_start_node(&mut self.builder, kind.to_raw());
        proof {
            lemma_frames_push(old(self).frames(), (raw_of(kind), Seq::<Green>::empty()));
            assert(texts_all(Seq::<Green>::empty()) =~= Seq::<u8>::empty());
        }
    }

    /// Closes the innermost node; it becomes the last child of the one
    /// around it.
    pub(crate) fn finish_node(&mut self)
        requires
            old(self).frames().len() > 1,
            old(self).fits(),
        ensures
            final(self).frames() == add_children(
                old(self).frames().drop_last(),
                seq![frame_node(old(self).frames().last())],
            ),
            final(self).rest() == old(self).rest(),
            final(self).done() == old(self).done(),
            final(self).diagnostics() == old(self).diagnostics(),
            final(self).fits(),
    {
        let ghost f = self.frames();
        proof {
            assert(f.drop_last().push(f.last()) =~= f);
            lemma_frames_push(f.drop_last(), f.last());
        }
        builder_finish_node(&mut self.builder);
        proof {
            let node = frame_node(f.last());
            assert(f.drop_last().last() == f[f.len() - 2]);
            assert(f[f.len() - 2].1.push(node) =~= f[f.len() - 2].1 + seq![node]);
            assert(f.drop_last().update(f.len() - 2, push_child(f[f.len() - 2], node))
                =~= add_children(f.drop_last(), seq![node]));
            lemma_frames_add(f.drop_last(), seq![node]);
            lemma_texts_push(Seq::empty(), node);
            assert(texts_all(Seq::<Green>::empty()) =~= Seq::<u8>::empty());
            assert(Seq::<Green>::empty().push(node) =~= seq![node]);
        }
    }

    /// Moves the next token into the innermost open node, as a leaf with its
    /// exact text.
    pub(crate) fn consume_token(&mut self)
        requires
            old(self).rest().len() > 0,
            old(self).frames().len() > 0,
        ensures
            final(self).rest() == old(self).rest().drop_first(),
            final(self).frames() == add_children(old(self).frames(), seq![leaf(old(self).rest()[0])]),
            final(self).done() == old(self).done(),
            final(self).diagnostics() == old(self).diagnostics(),
            old(self).fits() ==> final(self).fits(),
    {
        let ghost r0 = self.rest();
        let ghost f0 = self.frames();
        let ghost s0 = toks_of(self.tokens@);
        let popped = self.tokens.pop();
        match popped {
            Some(t) => {
                let (kind, text) = t;
                proof {
                    assert(s0[s0.len() - 1] == tok_of(t));
                    assert(r0[0] == tok_of(t));
                    assert(self.rest() =~= r0.drop_first());
                }
                builder_token(&mut self.builder, kind.to_raw(), text.as_str());
                proof {
                    assert(push_child(f0.last(), leaf(r0[0])).1 =~= f0.last().1 + seq![leaf(r0[0])]);
                    assert(self.frames() =~= add_children(f0, seq![leaf(r0[0])]));
                    lemma_frames_add(f0, seq![leaf(r0[0])]);
                    lemma_texts_push(Seq::empty(), leaf(r0[0]));
                    assert(texts_all(Seq::<Green>::empty()) =~= Seq::<u8>::empty());
                    assert(Seq::<Green>::empty().push(leaf(r0[0])) =~= seq![leaf(r0[0])]);
                    assert(r0 =~= seq![r0[0]] + r0.drop_first());
                    assert(joined(r0) == r0[0].1 + joined(r0.drop_first()));
                }
            },
            None => {},
        }
    }

    /// Moves the next token, which must be of the given kind, into the
    /// innermost open node.
    pub fn consume(&mut self, kind: SyntaxKind)
        requires
            old(self).current_spec() == kind,
            kind != SyntaxKind::EOF,
            old(self).frames().len() > 0,
        ensures
            final(self).rest() == old(self).rest().drop_first(),
            final(self).frames() == add_children(old(self).frames(), seq![leaf(old(self).rest()[0])]),
            final(self).done() == old(self).done(),
            final(self).diagnostics() == old(self).diagnostics(),
            old(self).fits() ==> final(self).fits(),
    {
        self.consume_token()
    }


    /// Reads one statement, after the whitespace before it: an error token
    /// or any token that starts no statement becomes an error node with a
    /// diagnostic; the keyword starts a participant declaration.
    fn statement(&mut self) -> (r: Statement)
        requires
            old(self).frames().len() > 0,
            old(self).fits(),
            no_eof(old(self).rest()),
        ensures
            ({
                let r0 = old(self).rest();
                let w = ws_run(r0) as int;
                let r2 = r0.skip(w);
                &&& r2.len() == 0 ==> {
                    &&& r == Statement::UnexpectedEof
                    &&& final(self).rest() == r2
                    &&& final(self).frames() == add_children(old(self).frames(), leaves(r0.take(w)))
                    &&& final(self).diagnostics() == old(self).diagnostics()
                }
                &&& r2.len() > 0 ==> {
                    &&& r == Statement::Read
                    &&& final(self).rest() == r2.skip(element_len(r2) as int)
                    &&& final(self).frames() == add_children(
                        old(self).frames(),
                        leaves(r0.take(w)) + seq![element(r2)],
                    )
                    &&& final(self).diagnostics() == old(self).diagnostics() + element_diagnostic(
                        r2,
                    )
                }
            }),
            final(self).done() == old(self).done(),
            final(self).fits(),
            no_eof(final(self).rest()),
    {
        let ghost r0 = self.rest();
        let ghost f0 = self.frames();
        let ghost w = ws_run(r0) as int;
        proof {
            lemma_line_len(r0);
        }
        self.skip_ws();
        let ghost f1 = self.frames();
        let ghost r2 = self.rest();
        proof {
            lemma_no_eof_skip(r0, w);
            lemma_ws_skip(r0, w);
            if r2.len() > 0 {
                lemma_element_len(r2);
            }
        }
        let kind = self.current();
        if kind == SyntaxKind::EOF {
            return Statement::UnexpectedEof;
        }
        proof {
            lemma_add_twice(f0, leaves(r0.take(w)), seq![element(r2)]);
        }
        if kind == SyntaxKind::PARTICIPANT_KW {
            participant_decl(self)
        } else {
            let message: &str = if kind == SyntaxKind::ERROR {
                "unrecognized input"
            } else {
                "unexpected token"
            };
            self.start_node(SyntaxKind::ERROR);
            self.consume_token();
            proof {
                assert(f1.push((raw_of(SyntaxKind::ERROR), Seq::<Green>::empty())).last().1 + seq![
                    leaf(r2[0]),
                ] =~= seq![leaf(r2[0])]);
                assert(self.frames().drop_last() =~= f1);
            }
            self.finish_node();
            let ghost d0 = self.diagnostics();
            self.errors.push(message.to_owned());
            proof {
                assert(self.diagnostics() =~= d0.push(message@));
                assert(self.diagnostics() =~= old(self).diagnostics() + element_diagnostic(r2));
                assert(self.rest() =~= r2.skip(1));
            }
            Statement::Read
        }
    }

    /// Parses the whole token sequence into a document: a root node over
    /// every token, trailing whitespace included.
    pub(crate) fn parse(self) -> (r: Parsed)
        requires
            self.frames().len() == 0,
            self.done().len() == 0,
            self.diagnostics().len() == 0,
            joined(self.rest()).len() <= u32::MAX,
            no_eof(self.rest()),
        ensures
            r.tree() == document(self.rest()),
            r.diagnostics() == diagnostics(self.rest()),
    {
        let ghost all = self.rest();
        let mut p = self;
        p.start_node(SyntaxKind::ROOT);
        proof {
            assert(frames_len(Seq::<(u16, Seq<Green>)>::empty()) == 0);
            lemma_frames_push(Seq::empty(), (raw_of(SyntaxKind::ROOT), Seq::<Green>::empty()));
            assert(texts_all(Seq::<Green>::empty()) =~= Seq::<u8>::empty());
            assert(Seq::<Green>::empty() + elements(all) =~= elements(all));
            assert(p.diagnostics() + diagnostics(all) =~= diagnostics(all));
        }
        loop
            invariant
                p.frames().len() == 1,
                p.frames()[0].0 == raw_of(SyntaxKind::ROOT),
                p.frames()[0].1 + elements(p.rest()) == elements(all),
                p.diagnostics() + diagnostics(p.rest()) == diagnostics(all),
                p.done().len() == 0,
                p.fits(),
                no_eof(p.rest()),
            ensures
                p.frames().len() == 1,
                p.frames()[0].0 == raw_of(SyntaxKind::ROOT),
                p.frames()[0].1 + elements(p.rest()) == elements(all),
                p.diagnostics() + diagnostics(p.rest()) == diagnostics(all),
                p.done().len() == 0,
                p.fits(),
                p.rest().len() == 0,
            decreases p.rest().len(),
        {
            if p.at(SyntaxKind::EOF) {
                break;
            }
            let ghost r0 = p.rest();
            let ghost f0 = p.frames();
            let ghost d0 = p.diagnostics();
            let ghost w = ws_run(r0) as int;
            proof {
                lemma_elements_ws(r0, w);
            }
            let st = p.statement();
            proof {
                let r2 = r0.skip(w);
                if r2.len() == 0 {
                    assert(elements(r2) =~= Seq::<Green>::empty());
                    assert(p.frames()[0].1 =~= f0[0].1 + leaves(r0.take(w)));
                    assert(p.frames()[0].1 + elements(p.rest()) =~= f0[0].1 + (leaves(
                        r0.take(w),
                    ) + elements(r2)));
                } else {
                    lemma_elements_step(r2);
                    assert(p.frames()[0].1 + elements(p.rest()) =~= f0[0].1 + (leaves(
                        r0.take(w),
                    ) + (seq![element(r2)] + elements(p.rest()))));
                    assert(p.diagnostics() + diagnostics(p.rest()) =~= d0 + (
                    element_diagnostic(r2) + diagnostics(p.rest())));
                }
            }
            match st {
                Statement::UnexpectedEof => {
                    break ;
                },
                Statement::Read => {},
            }
        }
        p.skip_ws();
        let ghost f = p.frames();
        proof {
            assert(p.rest().len() == 0);
            assert(elements(p.rest()) =~= Seq::<Green>::empty());
            assert(diagnostics(p.rest()) =~= Seq::<Seq<char>>::empty());
            assert(f[0].1 =~= elements(all));
            assert(p.diagnostics() =~= diagnostics(all));
            assert(f.drop_last() =~= Seq::<(u16, Seq<Green>)>::empty());
        }
        builder_finish_node(&mut p.builder);
        let green_node = builder_finish(p.builder);
        Parsed { green_node, errors: p.errors }
    }

    /// Moves the whitespace tokens at the front into the innermost open
    /// node, as leaves.
    pub(crate) fn skip_ws(&mut self)
        requires
            old(self).frames().len() > 0,
        ensures
            final(self).rest() == old(self).rest().skip(ws_run(old(self).rest()) as int),
            final(self).frames() == add_children(
                old(self).frames(),
                leaves(old(self).rest().take(ws_run(old(self).rest()) as int)),
            ),
            final(self).done() == old(self).done(),
            final(self).diagnostics() == old(self).diagnostics(),
            old(self).fits() ==> final(self).fits(),
    {
        let ghost r0 = self.rest();
        let ghost f0 = self.frames();
        let ghost mut k: int = 0;
        proof {
            assert(r0.skip(0) =~= r0);
            assert(leaves(r0.take(0)) =~= Seq::<Green>::empty());
            lemma_add_nothing(f0);
        }
        while self.current() == SyntaxKind::WHITESPACE
            invariant
                0 <= k <= r0.len(),
                self.rest() == r0.skip(k),
                self.frames() == add_children(f0, leaves(r0.take(k))),
                ws_run(r0) == k + ws_run(self.rest()),
                self.done() == old(self).done(),
                self.diagnostics() == old(self).diagnostics(),
                f0.len() > 0,
                old(self).fits() ==> self.fits(),
            decreases r0.len() - k,
        {
            proof {
                assert(self.rest()[0] == r0[k]);
                lemma_leaves_take(r0, 0, k);
                assert(r0.take(k + 1) =~= r0.subrange(0, k + 1));
                assert(r0.take(k) =~= r0.subrange(0, k));
                lemma_add_twice(f0, leaves(r0.take(k)), seq![leaf(r0[k])]);
            }
            self.consume_token();
            proof {
                k = k + 1;
                assert(self.rest() =~= r0.skip(k));
            }
        }
    }
}

/// Reads a participant's name into an identifier node.
fn participant_name(parser: &mut Parser)
    requires
        old(parser).current_spec() == SyntaxKind::IDENTIFIER,
        old(parser).frames().len() > 0,
        old(parser).fits(),
    ensures
        final(parser).rest() == old(parser).rest().drop_first(),
        final(parser).frames() == add_children(
            old(parser).frames(),
            seq![wrap(SyntaxKind::IDENTIFIER, old(parser).rest()[0])],
        ),
        final(parser).done() == old(parser).done(),
        final(parser).diagnostics() == old(parser).diagnostics(),
        final(parser).fits(),
{
    let ghost f0 = parser.frames();
    let ghost t = parser.rest()[0];
    parser.start_node(SyntaxKind::IDENTIFIER);
    parser.consume(SyntaxKind::IDENTIFIER);
    proof {
        assert(Seq::<Green>::empty() + seq![leaf(t)] =~= seq![leaf(t)]);
        assert(parser.frames().drop_last() =~= f0);
    }
    parser.finish_node();
}

/// Reads a participant declaration: the keyword, the whitespace after it,
/// the name if one follows, then every token up to and including the end
/// of the line, so that stray tokens stay inside the declaration.
fn participant_decl(parser: &mut Parser) -> (r: Statement)
    requires
        old(parser).current_spec() == SyntaxKind::PARTICIPANT_KW,
        old(parser).frames().len() > 0,
        old(parser).fits(),
        no_eof(old(parser).rest()),
    ensures
        r == Statement::Read,
        final(parser).rest() == old(parser).rest().skip(decl_len(old(parser).rest()) as int),
        final(parser).frames() == add_children(
            old(parser).frames(),
            seq![element(old(parser).rest())],
        ),
        final(parser).done() == old(parser).done(),
        final(parser).diagnostics() == old(parser).diagnostics(),
        final(parser).fits(),
{
    let ghost ts = parser.rest();
    let ghost f0 = parser.frames();
    let ghost i = name_pos(ts);
    let ghost dk = raw_of(SyntaxKind::PARTICIPANT_DECL);
    proof {
        lemma_element_len(ts);
        lemma_line_len(ts.drop_first());
    }
    parser.start_node(SyntaxKind::PARTICIPANT_DECL);
    parser.consume_token();
    proof {
        assert(Seq::<Green>::empty() + seq![leaf(ts[0])] =~= leaves(ts.take(1)));
        assert(parser.frames() =~= f0.push((dk, leaves(ts.take(1)))));
    }
    parser.skip_ws();
    proof {
        let s1 = ts.drop_first();
        let w = ws_run(s1) as int;
        assert(parser.rest() =~= ts.skip(i));
        assert(leaves(ts.take(1)) + leaves(s1.take(w)) =~= leaves(ts.take(i)));
        assert(parser.frames() =~= f0.push((dk, leaves(ts.take(i)))));
        assert forall|m: int| 0 <= m < w implies (#[trigger] s1[m]).0 != SyntaxKind::EOL by {
            lemma_ws_run_kinds(s1, m);
        }
        lemma_line_skip(s1, w);
        assert(s1.skip(w) =~= ts.skip(i));
    }
    let ghost mut j0: int = i;
    if parser.at(SyntaxKind::IDENTIFIER) {
        proof {
            assert(parser.rest()[0] == ts[i]);
        }
        participant_name(parser);
        proof {
            j0 = i + 1;
            assert(parser.rest() =~= ts.skip(j0));
            assert(leaves(ts.take(i)) + seq![wrap(SyntaxKind::IDENTIFIER, ts[i])] =~= leaves(
                ts.take(i),
            ) + seq![wrap(SyntaxKind::IDENTIFIER, ts[i])]);
            assert(parser.frames() =~= f0.push(
                (dk, leaves(ts.take(i)) + seq![wrap(SyntaxKind::IDENTIFIER, ts[i])]),
            ));
            let s1 = ts.drop_first();
            let t = s1.skip(i - 1);
            assert(t[0] == ts[i]);
            assert(t.drop_first() =~= ts.skip(j0));
        }
    }
    let ghost pre: Seq<Green> = if has_name(ts) {
        leaves(ts.take(i)) + seq![wrap(SyntaxKind::IDENTIFIER, ts[i])]
    } else {
        leaves(ts.take(i))
    };
    let ghost mut j: int = j0;
    proof {
        assert(ts.subrange(j0, j0) =~= Seq::<Tok>::empty());
        assert(pre + leaves(ts.subrange(j0, j0)) =~= pre);
        assert(parser.frames() =~= f0.push((dk, pre + leaves(ts.subrange(j0, j)))));
    }
    loop
        invariant
            1 <= j0 <= j <= ts.len(),
            parser.rest() == ts.skip(j),
            parser.frames() == f0.push((dk, pre + leaves(ts.subrange(j0, j)))),
            line_len(ts.drop_first()) == (j - 1) + line_len(ts.skip(j)),
            f0.len() > 0,
            parser.fits(),
            no_eof(ts),
            parser.done() == old(parser).done(),
            parser.diagnostics() == old(parser).diagnostics(),
            has_name(ts) ==> j0 == i + 1,
            !has_name(ts) ==> j0 == i,
            i <= decl_len(ts),
            ts.len() > 0,
            ts[0].0 == SyntaxKind::PARTICIPANT_KW,
            i == name_pos(ts),
            ts == old(parser).rest(),
            f0 == old(parser).frames(),
            dk == raw_of(SyntaxKind::PARTICIPANT_DECL),
            has_name(ts) ==> pre == leaves(ts.take(i)) + seq![wrap(SyntaxKind::IDENTIFIER, ts[i])],
            !has_name(ts) ==> pre == leaves(ts.take(i)),
        decreases ts.len() - j,
    {
        let kind = parser.current();
        proof {
            if j < ts.len() {
                assert(parser.rest()[0] == ts[j]);
                assert(ts[j].0 != SyntaxKind::EOF);
                lemma_leaves_take(ts, j0, j);
                let t = ts.skip(j);
                assert(t.drop_first() =~= ts.skip(j + 1));
                assert(pre + leaves(ts.subrange(j0, j)) + seq![leaf(ts[j])] =~= pre + leaves(
                    ts.subrange(j0, j + 1),
                ));
                assert(f0.push((dk, pre + leaves(ts.subrange(j0, j)))).last().1 == pre + leaves(
                    ts.subrange(j0, j),
                ));
            }
        }
        if kind == SyntaxKind::EOF {
            proof {
                assert(j == ts.len());
                assert(ts.skip(j).len() == 0);
                assert(decl_len(ts) == j);
            }
            parser.finish_node();
            proof {
                assert(f0.push((dk, pre + leaves(ts.subrange(j0, j)))).drop_last() =~= f0);
                children_match(ts, pre, j0, j, i);
                let big = f0.push((dk, pre + leaves(ts.subrange(j0, j))));
                assert(big.last() == (dk, pre + leaves(ts.subrange(j0, j))));
                assert(frame_node(big.last()) == element(ts));
                assert(seq![frame_node(big.last())] =~= seq![element(ts)]);
            }
            return Statement::Read;
        } else if kind == SyntaxKind::EOL {
            parser.consume_token();
            proof {
                assert(parser.frames() =~= f0.push((dk, pre + leaves(ts.subrange(j0, j + 1)))));
                assert(parser.rest() =~= ts.skip(j + 1));
                assert(decl_len(ts) == j + 1);
            }
            parser.finish_node();
            proof {
                assert(f0.push((dk, pre + leaves(ts.subrange(j0, j + 1)))).drop_last() =~= f0);
                children_match(ts, pre, j0, j + 1, i);
                let big = f0.push((dk, pre + leaves(ts.subrange(j0, j + 1))));
                assert(big.last() == (dk, pre + leaves(ts.subrange(j0, j + 1))));
                assert(frame_node(big.last()) == element(ts));
                assert(seq![frame_node(big.last())] =~= seq![element(ts)]);
            }
            return Statement::Read;
        } else {
            parser.consume_token();
            proof {
                assert(parser.frames() =~= f0.push((dk, pre + leaves(ts.subrange(j0, j + 1)))));
                j = j + 1;
                assert(parser.rest() =~= ts.skip(j));
            }
        }
    }
}

/// What the declaration rule built is the declaration's element.
proof fn children_match(ts: Seq<Tok>, pre: Seq<Green>, j0: int, d: int, i: int)
    requires
        ts.len() > 0,
        ts[0].0 == SyntaxKind::PARTICIPANT_KW,
        i == name_pos(ts),
        d == decl_len(ts),
        0 <= i <= j0 <= d <= ts.len(),
        has_name(ts) ==> j0 == i + 1 && pre == leaves(ts.take(i)) + seq![
            wrap(SyntaxKind::IDENTIFIER, ts[i]),
        ],
        !has_name(ts) ==> j0 == i && pre == leaves(ts.take(i)),
    ensures
        pre + leaves(ts.subrange(j0, d)) == decl_children(ts),
        element(ts) == (Green::Node {
            kind: raw_of(SyntaxKind::PARTICIPANT_DECL),
            children: pre + leaves(ts.subrange(j0, d)),
        }),
{
    if has_name(ts) {
        assert(pre + leaves(ts.subrange(j0, d)) =~= decl_children(ts));
    } else {
        assert(pre + leaves(ts.subrange(j0, d)) =~= leaves(ts.take(d)));
    }
}

} // verus!
