use puml::ast::TextSpan;
use puml::parse;
use puml::syntax::SyntaxKind;

fn names(text: &str) -> Vec<String> {
    let root = parse(text).root();
    root.participant_decls()
        .iter()
        .filter_map(|d| d.participant_name())
        .map(|n| n.identifier())
        .collect()
}

#[test]
fn always_returns_ok() {
    let text = "a";
    let parsed = parse(text);
    let root = parsed.root();
    assert_eq!(root.position(), TextSpan { start: 0, end: 1 });
    assert_eq!(root.statements().len(), 0);
    assert_eq!(parsed.errors().clone(), vec!["unexpected token".to_string()]);
}

#[test]
fn sequence_test_participant_decl() {
    let text = "\tparticipant kelly\nparticipant bob\n";
    let root = parse(text).root();
    let res = root
        .participant_decls()
        .iter()
        .filter_map(|it| it.participant_name())
        .map(|it| it.identifier())
        .collect::<Vec<_>>();
    assert_eq!(res, vec!["kelly".to_string(), "bob".to_string()]);

    let res = root.participant_decls().iter().map(|it| it.position()).collect::<Vec<_>>();
    assert_eq!(res, vec![TextSpan { start: 1, end: 19 }, TextSpan { start: 19, end: 35 }]);

    let res = root
        .participant_decls()
        .iter()
        .filter_map(|it| it.participant_name())
        .map(|it| it.position())
        .collect::<Vec<_>>();
    assert_eq!(res, vec![TextSpan { start: 13, end: 18 }, TextSpan { start: 31, end: 34 }]);
}

#[test]
fn declaration_without_name() {
    let text = "participant\n";
    let first = parse(text);
    let decls = first.root().participant_decls();
    assert_eq!(decls.len(), 1);
    assert!(decls[0].participant_name().is_none());
    assert_eq!(decls[0].position(), TextSpan { start: 0, end: 12 });
    assert!(first.errors().is_empty());
    for _ in 0..3 {
        let again = parse(text);
        let d = again.root().participant_decls();
        assert_eq!(d.len(), 1);
        assert!(d[0].participant_name().is_none());
        assert_eq!(d[0].position(), decls[0].position());
        assert_eq!(again.root().position(), first.root().position());
        assert_eq!(again.syntax().to_string(), first.syntax().to_string());
    }
}

#[test]
fn named_declarations_in_order() {
    let text = "participant kelly\nparticipant bob\n";
    let root = parse(text).root();
    let decls = root.participant_decls();
    assert_eq!(decls.len(), 2);
    let kelly = decls[0].participant_name().unwrap();
    let bob = decls[1].participant_name().unwrap();
    assert_eq!(kelly.identifier(), "kelly");
    assert_eq!(bob.identifier(), "bob");
    assert_eq!(kelly.position(), TextSpan { start: 12, end: 17 });
    assert_eq!(bob.position(), TextSpan { start: 30, end: 33 });
    assert_eq!(&text[12..17], "kelly");
    assert_eq!(&text[30..33], "bob");
}

#[test]
fn leading_tab_is_kept() {
    let text = "\tparticipant kelly\n";
    let parsed = parse(text);
    assert_eq!(parsed.syntax().to_string(), text);
    assert_eq!(parsed.root().position(), TextSpan { start: 0, end: 19 });
    assert_eq!(names(text), vec!["kelly".to_string()]);
}

#[test]
fn empty_input() {
    let parsed = parse("");
    let root = parsed.root();
    assert_eq!(root.statements().len(), 0);
    assert_eq!(root.participant_decls().len(), 0);
    assert_eq!(root.position(), TextSpan { start: 0, end: 0 });
    assert!(parsed.errors().is_empty());
}

#[test]
fn root_covers_whole_text() {
    for text in [
        "",
        "p",
        "partic",
        "participant",
        "participant x y z\n",
        "@@@",
        "\n\n",
        "participant é\n",
        "  participant  a  \n participant\tb",
        "\r\nparticipant\r\n",
    ] {
        let parsed = parse(text);
        assert_eq!(parsed.root().position(), TextSpan { start: 0, end: text.len() });
        assert_eq!(parsed.syntax().to_string(), text);
    }
}

#[test]
fn unrecognized_input_is_an_error_node() {
    let parsed = parse("@\nparticipant ann\n");
    assert_eq!(
        parsed.errors().clone(),
        vec!["unrecognized input".to_string(), "unexpected token".to_string()]
    );
    let names = parsed
        .root()
        .participant_decls()
        .iter()
        .filter_map(|d| d.participant_name())
        .map(|n| n.identifier())
        .collect::<Vec<_>>();
    assert_eq!(names, vec!["ann".to_string()]);
}

#[test]
fn stray_tokens_stay_in_the_declaration() {
    let text = "participant a b @ participant\nparticipant c\n";
    let parsed = parse(text);
    assert!(parsed.errors().is_empty());
    let decls = parsed.root().participant_decls();
    assert_eq!(decls.len(), 2);
    assert_eq!(decls[0].position(), TextSpan { start: 0, end: 30 });
    assert_eq!(decls[0].participant_name().unwrap().identifier(), "a");
    assert_eq!(decls[1].participant_name().unwrap().identifier(), "c");
}

#[test]
fn statements_are_the_declarations() {
    let parsed = parse("participant a\n@\nparticipant\n");
    let root = parsed.root();
    let stmts = root.statements();
    assert_eq!(stmts.len(), 2);
    assert_eq!(stmts[0].position(), TextSpan { start: 0, end: 14 });
    assert_eq!(stmts[1].position(), TextSpan { start: 16, end: 28 });
    match stmts[1].kind() {
        puml::ast::StatementNodeKind::ParticipantDeclNodeKind(d) => {
            assert!(d.participant_name().is_none());
        }
    }
    assert_eq!(
        parsed.errors().clone(),
        vec!["unrecognized input".to_string(), "unexpected token".to_string()]
    );
}

#[test]
fn name_after_other_tokens_is_not_the_name() {
    let parsed = parse("participant @ bob\n");
    let decls = parsed.root().participant_decls();
    assert_eq!(decls.len(), 1);
    assert!(decls[0].participant_name().is_none());
}

#[test]
fn participant_names_skip_unnamed() {
    let root = parse("participant ann\nparticipant\n@\nparticipant bo\n").root();
    assert_eq!(root.participant_names(), vec!["ann".to_string(), "bo".to_string()]);
    assert_eq!(names("participant kelly\nparticipant bob\n"), root_names("participant kelly\nparticipant bob\n"));
}

fn root_names(text: &str) -> Vec<String> {
    parse(text).root().participant_names()
}

#[test]
fn parse_tokens_builds_the_document() {
    let tokens = vec![
        (SyntaxKind::WHITESPACE, "  ".to_string()),
        (SyntaxKind::PARTICIPANT_KW, "participant".to_string()),
        (SyntaxKind::WHITESPACE, " ".to_string()),
        (SyntaxKind::IDENTIFIER, "x".to_string()),
        (SyntaxKind::IDENTIFIER, "y".to_string()),
        (SyntaxKind::EOL, "\n".to_string()),
        (SyntaxKind::IDENTIFIER, "z".to_string()),
    ];
    let parsed = puml::parse_tokens(tokens);
    let root = parsed.root();
    assert_eq!(root.position(), TextSpan { start: 0, end: 18 });
    let decls = root.participant_decls();
    assert_eq!(decls.len(), 1);
    assert_eq!(decls[0].position(), TextSpan { start: 2, end: 17 });
    let name = decls[0].participant_name().unwrap();
    assert_eq!(name.identifier(), "x");
    assert_eq!(name.position(), TextSpan { start: 14, end: 15 });
    assert_eq!(parsed.errors().clone(), vec!["unexpected token".to_string()]);
    assert_eq!(parsed.syntax().to_string(), "  participant xy\nz");
}
