use puml::syntax::{Lang, SyntaxKind, KIND_COUNT};

#[test]
fn raw_tags_round_trip() {
    let kinds = [
        SyntaxKind::EOF,
        SyntaxKind::WHITESPACE,
        SyntaxKind::IDENTIFIER,
        SyntaxKind::EOL,
        SyntaxKind::ERROR,
        SyntaxKind::ROOT,
        SyntaxKind::PARTICIPANT_KW,
        SyntaxKind::STATEMENT,
        SyntaxKind::PARTICIPANT_DECL,
    ];
    for (i, k) in kinds.iter().enumerate() {
        assert_eq!(k.to_raw(), i as u16);
        assert_eq!(SyntaxKind::from_raw(i as u16), Some(*k));
        assert_eq!(Lang::kind_to_raw(*k), i as u16);
        assert_eq!(Lang::kind_from_raw(i as u16), *k);
    }
    assert_eq!(SyntaxKind::from_raw(KIND_COUNT), None);
    assert_eq!(SyntaxKind::PARTICIPANT_DECL.to_raw(), 8);
    assert!(SyntaxKind::EOF < SyntaxKind::PARTICIPANT_DECL);
}

#[test]
fn lexable_kinds_have_patterns() {
    assert_eq!(SyntaxKind::PARTICIPANT_KW.pattern(), "participant");
    assert_eq!(SyntaxKind::IDENTIFIER.pattern(), "[a-zA-Z][a-zA-Z0-9]*");
    assert_eq!(SyntaxKind::EOL.pattern(), "\n");
    assert_eq!(SyntaxKind::WHITESPACE.pattern(), r"[^\S\r\n]+");
}
