use rewrite_lang::errors::ParseError;
use rewrite_lang::linked_tokens::{LinkedTokens, Token};
use rewrite_lang::parser::{ParseState, Parser};

fn tokens(s: &str) -> Vec<String> {
    let lt = LinkedTokens::from_string(s).expect("lexes");
    let mut out = Vec::new();
    let mut cur = 0;
    while let Some(next) = lt.arena[cur].next {
        out.push(format!("{:?}", lt.arena[next].token));
        cur = next;
    }
    out
}

fn render(s: &str) -> String {
    LinkedTokens::from_string(s).expect("lexes").to_raw_string()
}

#[test]
fn round_trip_plain_program() {
    let texts = [
        "{ a : b : c }",
        "def f { a : a : X ; b : b : Y } f{ b }",
        "*def g { x : x : y }",
        "print(hello world) get_input(name?) error(bad)",
        "a/b ^x (y) *{ z }",
        "",
    ];
    for t in texts.iter() {
        assert_eq!(render(t), *t);
    }
}

#[test]
fn whitespace_run_is_one_token() {
    assert_eq!(tokens("a \t\n  b"), vec!["Char('a')", "GenericWhitespace", "Char('b')"]);
    assert_eq!(tokens("   "), vec!["GenericWhitespace"]);
}

#[test]
fn comment_is_stripped() {
    assert_eq!(tokens("a // comment\nb"), tokens("a\nb"));
}

#[test]
fn escape_gives_literal_brace() {
    let t = tokens("\\{");
    assert_eq!(t, vec!["Char('{')"]);
}

#[test]
fn register_depth_and_index() {
    let lt = LinkedTokens::from_string("^^$3 ").unwrap();
    let first = lt.arena[0].next.unwrap();
    assert!(matches!(lt.arena[first].token, Token::RegisterCall(2, 3)));
    assert!(lt.arena[first].next.is_none());
}

#[test]
fn register_renders_with_markers() {
    assert_eq!(render("^^$30 "), "^^$30");
    assert_eq!(render("$007 x"), "$7x");
}

#[test]
fn heads_of_calls_and_definitions() {
    assert_eq!(tokens("f{x}"), vec!["FunctionCall(\"f\")", "Char('x')", "ScopeEnd"]);
    assert_eq!(tokens("def f {"), vec!["DefStart(\"f\")"]);
    assert_eq!(tokens("*def f {"), vec!["DefGlobalStart(\"f\")"]);
    assert_eq!(tokens("*x{"), vec!["Char('*')", "FunctionCall(\"x\")"]);
    assert_eq!(tokens("print(a b)"), vec!["Print(\"a b\")"]);
    assert_eq!(tokens("a:b;c"), vec!["Char('a')", "Colon", "Char('b')", "NewArm", "Char('c')"]);
}

#[test]
fn lone_markers_become_characters() {
    assert_eq!(tokens("^a"), vec!["Char('^')", "Char('a')"]);
    assert_eq!(tokens("x/"), vec!["Char('x')", "Char('/')"]);
    assert_eq!(tokens("^^"), vec!["Char('^')", "Char('^')"]);
}

#[test]
fn lexer_errors() {
    assert!(matches!(LinkedTokens::from_string("$x"), Err(ParseError::InvalidRegisterIndexCharacter('x'))));
    assert!(matches!(LinkedTokens::from_string("$ "), Err(ParseError::IndexMissingInRegisterCall)));
    assert!(matches!(LinkedTokens::from_string("def f("), Err(ParseError::InvalidFunctionNameCharacter('('))));
    assert!(matches!(LinkedTokens::from_string("def f x"), Err(ParseError::ExpectedScopeStartAfterFunctionDefinition)));
    assert!(matches!(LinkedTokens::from_string("def f "), Err(ParseError::ExpectedScopeStartAfterFunctionDefinition)));
    assert!(matches!(LinkedTokens::from_string("a\\"), Err(ParseError::InputEndedUnexpectedly)));
    assert!(matches!(LinkedTokens::from_string("print(abc"), Err(ParseError::InputEndedUnexpectedly)));
    assert!(matches!(LinkedTokens::from_string("a // no newline"), Err(ParseError::InputEndedUnexpectedly)));
    assert!(matches!(
        LinkedTokens::from_string("$99999999999999999999999999 "),
        Err(ParseError::RegisterIndexTooLarge)
    ));
}

#[test]
fn parser_starts_and_resets_empty() {
    let mut p = Parser::new();
    assert!(p.state == ParseState::Normal);
    p.buffer.push('a');
    p.depth = 3;
    p.index.push('1');
    p.global = true;
    p.state = ParseState::Escape;
    p.reset_buffers();
    assert!(p.buffer.is_empty() && p.index.is_empty() && p.depth == 0 && !p.global);
    assert!(p.state == ParseState::Escape);
}

#[test]
fn token_surface_text() {
    assert_eq!(Token::RegisterCall(2, 30).surface_text(), "^^$30");
    assert_eq!(Token::DefGlobalStart("f".to_string()).surface_text(), "*def f {");
    assert_eq!(Token::DefStart("g".to_string()).surface_text(), "def g {");
    assert_eq!(Token::FunctionCall("h".to_string()).surface_text(), "h{");
    assert_eq!(Token::GetInput("p".to_string()).surface_text(), "get_input(p)");
    assert_eq!(Token::Error("m".to_string()).surface_text(), "error(m)");
    assert_eq!(Token::Print("m".to_string()).surface_text(), "print(m)");
    assert_eq!(Token::GenericWhitespace.surface_text(), " ");
    assert_eq!(Token::RootNodeToken.surface_text(), "");
    assert_eq!(Token::RegisterCall(0, 0).surface_text(), "$0");
}
