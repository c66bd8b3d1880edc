//! The lexer: splits text into a flat sequence of tokens that covers every
//! byte, whitespace and unrecognised runs included. The longest-match work
//! is m_lexer's; what is done with its result is verified here.
use vstd::prelude::*;
use crate::syntax::{SyntaxKind, is_lexable, kind_of_raw};
use vstd::utf8::{encode_utf8, is_char_boundary};
use vstd::string::StringSliceAdditionalSpecFns;

verus! {

/// A token as a mathematical value: its kind and its exact text, as bytes.
pub type Tok = (SyntaxKind, Seq<u8>);

/// The rule table of the lexer, in order of precedence: the keyword, the
/// identifier pattern, the end of line and whitespace; the error tag is
/// `ERROR`'s.
pub open spec fn is_rule_table(rules: Seq<(u16, &str)>, error: u16) -> bool {
    &&& rules.len() == 4
    &&& rules[0].0 == 6 && rules[0].1@ == "participant"@
    &&& rules[1].0 == 2 && rules[1].1@ == "[a-zA-Z][a-zA-Z0-9]*"@
    &&& rules[2].0 == 3 && rules[2].1@ == "\n"@
    &&& rules[3].0 == 1 && rules[3].1@ == "[^\\S\\r\\n]+"@
    &&& error == 4
}

/// The tags that a lexer built from that table hands out: one of a rule's,
/// or the error tag.
pub open spec fn is_lexer_tag(t: u16) -> bool {
    t == 6 || t == 2 || t == 3 || t == 1 || t == 4
}

/// What m_lexer's tokenizer returns on a text, with the rule table above:
/// each token's tag and its length in bytes.
pub uninterp spec fn lexed(text: Seq<char>) -> Seq<(u16, usize)>;

/// The lengths cut `bytes` into non-empty pieces, each ending on a character
/// boundary, and use it up.
pub open spec fn lengths_fit(bytes: Seq<u8>, raw: Seq<(u16, usize)>) -> bool
    decreases raw.len(),
{
    if raw.len() == 0 {
        bytes.len() == 0
    } else {
        let n = raw[0].1 as int;
        &&& 0 < n <= bytes.len()
        &&& is_char_boundary(bytes, n)
        &&& lengths_fit(bytes.subrange(n, bytes.len() as int), raw.drop_first())
    }
}

/// The kind of a raw tag; a tag that names no kind reads as an error.
pub open spec fn tag_kind(t: u16) -> SyntaxKind {
    match kind_of_raw(t) {
        Some(k) => k,
        None => SyntaxKind::ERROR,
    }
}

/// The tokens that the lengths cut out of `bytes`, in order.
pub open spec fn split_tokens(bytes: Seq<u8>, raw: Seq<(u16, usize)>) -> Seq<Tok>
    decreases raw.len(),
{
    if raw.len() == 0 {
        Seq::empty()
    } else {
        let n = raw[0].1 as int;
        seq![(tag_kind(raw[0].0), bytes.subrange(0, n))] + split_tokens(
            bytes.subrange(n, bytes.len() as int),
            raw.drop_first(),
        )
    }
}

/// The texts of tokens, joined in order.
pub open spec fn joined(toks: Seq<Tok>) -> Seq<u8>
    decreases toks.len(),
{
    if toks.len() == 0 {
        Seq::empty()
    } else {
        toks[0].1 + joined(toks.drop_first())
    }
}

/// A token held as a kind and a `String`, as a mathematical value.
pub open spec fn tok_of(t: (SyntaxKind, String)) -> Tok {
    (t.0, encode_utf8(t.1@))
}

pub open spec fn toks_of(s: Seq<(SyntaxKind, String)>) -> Seq<Tok> {
    s.map_values(|t: (SyntaxKind, String)| tok_of(t))
}

/// The tokens of a text.
pub open spec fn lexed_tokens(text: &str) -> Seq<Tok> {
    split_tokens(text.spec_bytes(), lexed(text@))
}

/// Cutting a text by lengths that fit it loses nothing.
pub proof fn lemma_split_lossless(bytes: Seq<u8>, raw: Seq<(u16, usize)>)
    requires
        lengths_fit(bytes, raw),
    ensures
        joined(split_tokens(bytes, raw)) == bytes,
        split_tokens(bytes, raw).len() == raw.len(),
    decreases raw.len(),
{
    if raw.len() == 0 {
        assert(bytes =~= Seq::<u8>::empty());
    } else {
        let n = raw[0].1 as int;
        let rest = bytes.subrange(n, bytes.len() as int);
        lemma_split_lossless(rest, raw.drop_first());
        let s = split_tokens(bytes, raw);
        assert(s.drop_first() =~= split_tokens(rest, raw.drop_first()));
        assert(bytes =~= bytes.subrange(0, n) + rest);
    }
}

/// Relies on m_lexer: `LexerBuilder` builds a lexer from the error tag and
/// the rule table (whose patterns compile and match no empty text), and
/// `Lexer::tokenize` cuts the text into tokens. Each token is a rule's
/// longest match or a run of unrecognised characters, so its length is
/// positive and it ends on a character boundary; the lengths use up the text.
#[verifier::external_body]
fn tokenize(rules: &[(u16, &str)], error: u16, text: &str) -> (r: Vec<(u16, usize)>)
    requires
        is_rule_table(rules@, error),
    ensures
        r@ == lexed(text@),
        lengths_fit(text.spec_bytes(), r@),
        forall|i: int| 0 <= i < r@.len() ==> is_lexer_tag(#[trigger] r@[i].0),
{
    let rules: Vec<(m_lexer::TokenKind, &str)> =
        rules.iter().map(|&(kind, re)| (m_lexer::TokenKind(kind), re)).collect();
    let lexer = m_lexer::LexerBuilder::new()
        .error_token(m_lexer::TokenKind(error))
        .tokens(&rules)
        .build();
    lexer.tokenize(text).into_iter().map(|t| (t.kind.0, t.len)).collect()
}

/// Cuts `text` into tokens by the given tags and lengths.
pub fn tokens_from_lengths(text: &str, raw: &Vec<(u16, usize)>) -> (r: Vec<(SyntaxKind, String)>)
    requires
        lengths_fit(text.spec_bytes(), raw@),
    ensures
        toks_of(r@) == split_tokens(text.spec_bytes(), raw@),
        joined(toks_of(r@)) == text.spec_bytes(),
{
    let ghost all = text.spec_bytes();
    let mut out: Vec<(SyntaxKind, String)> = Vec::new();
    let mut rest: &str = text;
    let mut i: usize = 0;
    proof {
        assert(raw@.skip(0) =~= raw@);
        assert(toks_of(out@) + split_tokens(all, raw@) =~= split_tokens(all, raw@));
    }
    while i < raw.len()
        invariant
            0 <= i <= raw@.len(),
            lengths_fit(rest.spec_bytes(), raw@.skip(i as int)),
            toks_of(out@) + split_tokens(rest.spec_bytes(), raw@.skip(i as int)) == split_tokens(
                all,
                raw@,
            ),
        decreases raw@.len() - i,
    {
        let ghost tail = raw@.skip(i as int);
        let ghost before = rest.spec_bytes();
        let (tag, len) = raw[i];
        assert(tail[0] == raw@[i as int]);
        let (head, after) = rest.split_at(len);
        let kind = match SyntaxKind::from_raw(tag) {
            Some(k) => k,
            None => SyntaxKind::ERROR,
        };
        let piece = (kind, head.to_owned());
        out.push(piece);
        rest = after;
        i = i + 1;
        proof {
            assert(raw@.skip(i as int) =~= tail.drop_first());
            let s = split_tokens(before, tail);
            assert(s =~= seq![tok_of(piece)] + split_tokens(rest.spec_bytes(), raw@.skip(i as int)));
            assert(toks_of(out@) =~= toks_of(out@.drop_last()).push(tok_of(piece)));
            assert(toks_of(out@) + split_tokens(rest.spec_bytes(), raw@.skip(i as int)) =~= toks_of(
                out@.drop_last(),
            ) + s);
        }
    }
    proof {
        assert(raw@.skip(i as int).len() == 0);
        assert(split_tokens(rest.spec_bytes(), raw@.skip(i as int)) =~= Seq::<Tok>::empty());
        assert(toks_of(out@) =~= toks_of(out@) + Seq::<Tok>::empty());
        assert(raw@.skip(0) =~= raw@);
        lemma_split_lossless(all, raw@);
    }
    out
}

/// Splits `text` into tokens: every byte lies in exactly one token, and the
/// tokens' texts joined in order give `text` back. Each token is of a
/// lexable kind or an error.
pub fn lex(text: &str) -> (r: Vec<(SyntaxKind, String)>)
    ensures
        toks_of(r@) == lexed_tokens(text),
        joined(toks_of(r@)) == text.spec_bytes(),
        forall|i: int|
            0 <= i < r@.len() ==> is_lexable(#[trigger] r@[i].0) || r@[i].0 == SyntaxKind::ERROR,
{
    let rules: Vec<(u16, &str)> = vec![
        (SyntaxKind::PARTICIPANT_KW.to_raw(), SyntaxKind::PARTICIPANT_KW.pattern()),
        (SyntaxKind::IDENTIFIER.to_raw(), SyntaxKind::IDENTIFIER.pattern()),
        (SyntaxKind::EOL.to_raw(), SyntaxKind::EOL.pattern()),
        (SyntaxKind::WHITESPACE.to_raw(), SyntaxKind::WHITESPACE.pattern()),
    ];
    let raw = tokenize(rules.as_slice(), SyntaxKind::ERROR.to_raw(), text);
    let r = tokens_from_lengths(text, &raw);
    proof {
        assert forall|i: int| 0 <= i < r@.len() implies is_lexable(#[trigger] r@[i].0) || r@[i].0
            == SyntaxKind::ERROR by {
            lemma_split_kinds(text.spec_bytes(), raw@, i);
            assert(toks_of(r@)[i] == tok_of(r@[i]));
        }
    }
    r
}

proof fn lemma_split_kinds(bytes: Seq<u8>, raw: Seq<(u16, usize)>, i: int)
    requires
        0 <= i < split_tokens(bytes, raw).len(),
        lengths_fit(bytes, raw),
        forall|j: int| 0 <= j < raw.len() ==> is_lexer_tag(#[trigger] raw[j].0),
    ensures
        split_tokens(bytes, raw)[i].0 == tag_kind(raw[i].0),
        is_lexable(split_tokens(bytes, raw)[i].0) || split_tokens(bytes, raw)[i].0
            == SyntaxKind::ERROR,
    decreases raw.len(),
{
    lemma_split_lossless(bytes, raw);
    let n = raw[0].1 as int;
    assert(is_lexer_tag(raw[i].0));
    if i > 0 {
        let rest = raw.drop_first();
        let tail = bytes.subrange(n, bytes.len() as int);
        assert forall|j: int| 0 <= j < rest.len() implies is_lexer_tag(#[trigger] rest[j].0) by {
            assert(rest[j] == raw[j + 1]);
        }
        lemma_split_lossless(tail, rest);
        lemma_split_kinds(tail, rest, i - 1);
        assert(split_tokens(bytes, raw)[i] == split_tokens(tail, rest)[i - 1]);
        assert(rest[i - 1] == raw[i]);
    }
}

} // verus!
