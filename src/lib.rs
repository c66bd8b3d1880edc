//! Language tooling for a small sequence-diagram notation: a lexer, a
//! lossless syntax tree built on rowan, a typed view over that tree and the
//! framing of editor-protocol messages.
pub mod syntax;
pub mod tree;
pub mod lex;
pub mod grammar;
pub mod ast;
pub mod codec;

use vstd::prelude::*;
use crate::grammar::{Parsed, Parser, diagnostics, document, lemma_document_text, no_eof};
use crate::lex::{joined, lex, lexed_tokens, tok_of, toks_of};
use crate::syntax::SyntaxKind;
use crate::tree::{end_of, text_of};
use vstd::string::StringSliceAdditionalSpecFns;

verus! {

/// Parses a token sequence, as the lexer gives it, into a document: a
/// root node over every token, in order, with a diagnostic for each token
/// that starts no statement.
pub fn parse_tokens(tokens: Vec<(SyntaxKind, String)>) -> (r: Parsed)
    requires
        no_eof(toks_of(tokens@)),
        joined(toks_of(tokens@)).len() <= u32::MAX,
    ensures
        r.tree() == document(toks_of(tokens@)),
        r.diagnostics() == diagnostics(toks_of(tokens@)),
        text_of(r.tree()) == joined(toks_of(tokens@)),
{
    let mut tokens = tokens;
    let ghost fwd = toks_of(tokens@);
    let mut reversed: Vec<(SyntaxKind, String)> = Vec::new();
    while tokens.len() > 0
        invariant
            tokens@.len() + reversed@.len() == fwd.len(),
            toks_of(tokens@) == fwd.take(tokens@.len() as int),
            forall|i: int|
                0 <= i < reversed@.len() ==> #[trigger] toks_of(reversed@)[i] == fwd[fwd.len() - 1
                    - i],
        decreases tokens@.len(),
    {
        let ghost before = tokens@;
        let ghost m = tokens@.len() as int;
        let t = tokens.pop().unwrap();
        proof {
            assert(toks_of(before)[m - 1] == tok_of(t));
            assert(fwd.take(m)[m - 1] == fwd[m - 1]);
            assert(toks_of(tokens@) =~= fwd.take(m - 1));
        }
        let ghost rv0 = reversed@;
        reversed.push(t);
        proof {
            assert forall|i: int| 0 <= i < reversed@.len() implies #[trigger] toks_of(reversed@)[i]
                == fwd[fwd.len() - 1 - i] by {
                assert(toks_of(reversed@)[i] == tok_of(reversed@[i]));
                if i < reversed@.len() - 1 {
                    assert(reversed@[i] == rv0[i]);
                    assert(toks_of(rv0)[i] == tok_of(rv0[i]));
                }
            }
        }
    }
    let parser = Parser::new(reversed);
    proof {
        assert(parser.rest() =~= fwd);
        lemma_document_text(fwd);
    }
    parser.parse()
}

/// Parses a whole text. It always yields a tree: what cannot be classified
/// becomes error nodes and diagnostics. The tree holds every byte of the
/// text, in order, so its root covers exactly `0..len`.
pub fn parse(text: &str) -> (r: Parsed)
    requires
        text.spec_bytes().len() <= u32::MAX,
    ensures
        r.tree() == document(lexed_tokens(text)),
        r.diagnostics() == diagnostics(lexed_tokens(text)),
        text_of(r.tree()) == text.spec_bytes(),
        r.root_view().offset == 0,
        end_of(r.root_view()) == text.spec_bytes().len(),
{
    let tokens = lex(text);
    proof {
        let fwd = toks_of(tokens@);
        assert forall|i: int| 0 <= i < fwd.len() implies (#[trigger] fwd[i]).0 != SyntaxKind::EOF by {
            assert(fwd[i] == tok_of(tokens@[i]));
        }
    }
    parse_tokens(tokens)
}

/// Parsing is a function of the text: any two parses of one text give the
/// same tree and the same diagnostics.
pub proof fn lemma_reparse_identical(text: &str, a: Parsed, b: Parsed)
    requires
        a.tree() == document(lexed_tokens(text)),
        a.diagnostics() == diagnostics(lexed_tokens(text)),
        b.tree() == document(lexed_tokens(text)),
        b.diagnostics() == diagnostics(lexed_tokens(text)),
    ensures
        a.tree() == b.tree(),
        a.diagnostics() == b.diagnostics(),
        a.root_view() == b.root_view(),
{
}

} // verus!
