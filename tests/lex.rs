use puml::lex::{lex, tokens_from_lengths};
use puml::syntax::SyntaxKind;

fn joined(tokens: &[(SyntaxKind, String)]) -> String {
    tokens.iter().map(|(_, t)| t.as_str()).collect()
}

#[test]
fn lex_keyword_name_and_end_of_line() {
    let tokens = lex("participant kelly\n");
    assert_eq!(
        tokens,
        vec![
            (SyntaxKind::PARTICIPANT_KW, "participant".to_string()),
            (SyntaxKind::WHITESPACE, " ".to_string()),
            (SyntaxKind::IDENTIFIER, "kelly".to_string()),
            (SyntaxKind::EOL, "\n".to_string()),
        ]
    );
}

#[test]
fn lex_longest_match_wins() {
    let tokens = lex("participants participant1");
    assert_eq!(
        tokens,
        vec![
            (SyntaxKind::IDENTIFIER, "participants".to_string()),
            (SyntaxKind::WHITESPACE, " ".to_string()),
            (SyntaxKind::IDENTIFIER, "participant1".to_string()),
        ]
    );
}

#[test]
fn lex_unrecognized_run_is_one_error_token() {
    let tokens = lex("@@ x\r\n");
    assert_eq!(
        tokens,
        vec![
            (SyntaxKind::ERROR, "@@".to_string()),
            (SyntaxKind::WHITESPACE, " ".to_string()),
            (SyntaxKind::IDENTIFIER, "x".to_string()),
            (SyntaxKind::ERROR, "\r".to_string()),
            (SyntaxKind::EOL, "\n".to_string()),
        ]
    );
}

#[test]
fn lex_is_lossless() {
    for text in ["", "\t participant  a\n\nb", "é participant ünï\n", "1a2b", "\u{1F600}x"] {
        let tokens = lex(text);
        assert_eq!(joined(&tokens), text);
        assert!(tokens.iter().all(|(_, t)| !t.is_empty()));
    }
}

#[test]
fn lex_empty_input() {
    assert!(lex("").is_empty());
}

#[test]
fn cut_by_lengths() {
    let raw = vec![(6u16, 11usize), (1, 1), (2, 3), (4, 2), (3, 1)];
    let tokens = tokens_from_lengths("participant bobé\n", &raw);
    assert_eq!(
        tokens,
        vec![
            (SyntaxKind::PARTICIPANT_KW, "participant".to_string()),
            (SyntaxKind::WHITESPACE, " ".to_string()),
            (SyntaxKind::IDENTIFIER, "bob".to_string()),
            (SyntaxKind::ERROR, "é".to_string()),
            (SyntaxKind::EOL, "\n".to_string()),
        ]
    );
    let unknown = tokens_from_lengths("ab", &vec![(99u16, 2usize)]);
    assert_eq!(unknown, vec![(SyntaxKind::ERROR, "ab".to_string())]);
}
