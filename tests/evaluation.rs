use rewrite_lang::errors::FindingScopeError;
use rewrite_lang::eval::{eval_simple_scope, EvalError};
use rewrite_lang::interpreter::{Interpreter, StepOutcome};
use rewrite_lang::linked_tokens::LinkedTokens;
use rewrite_lang::scope::find_next_scope;
use ropey::Rope;

fn run(program: &str) -> Result<String, EvalError> {
    let mut i = Interpreter::new(program);
    for _ in 0..1000 {
        match i.step()? {
            StepOutcome::Finished => return Ok(i.current_text()),
            StepOutcome::Rewrote(_) => {}
            StepOutcome::NeedInput(p) => panic!("unexpected prompt {}", p),
        }
    }
    panic!("no fixpoint")
}

#[test]
fn locate_scopes() {
    assert_eq!(find_next_scope(&Rope::from_str("abc"), 0).unwrap(), None);
    assert_eq!(find_next_scope(&Rope::from_str("x{a{b}c}d"), 0).unwrap(), Some((1, 7)));
    assert_eq!(find_next_scope(&Rope::from_str("{a}{b}"), 3).unwrap(), Some((3, 5)));
    assert!(matches!(
        find_next_scope(&Rope::from_str("a}{"), 0),
        Err(FindingScopeError::FoundEndingBraceBeforeStartingBrace)
    ));
    assert!(matches!(find_next_scope(&Rope::from_str("{a{b}"), 0), Err(FindingScopeError::NoEndingBrace)));
}

#[test]
fn bare_scope_rewrites() {
    assert_eq!(run("<{ ab : a(b) : [$1 ] }>").unwrap(), "<[b]>");
    assert_eq!(run("{ hello : l+ : X }").unwrap(), "X");
}

#[test]
fn first_matching_arm_wins() {
    assert_eq!(run("def f { a : a : X ; b : b : Y } f{ b }").unwrap(), " Y");
    assert_eq!(run("def f { a : a : X ; b : b : Y } f{ a }").unwrap(), " X");
    assert_eq!(run("def f { a : . : FIRST ; b : b : SECOND } f{ b }").unwrap(), " FIRST");
}

#[test]
fn no_arm_matched() {
    assert!(matches!(run("def f { a : a : X } f{ z }"), Err(EvalError::NoArmMatched)));
}

#[test]
fn unknown_function_leaves_text() {
    let mut i = Interpreter::new("undefined_fn{ x } { a : a : b }");
    match i.step() {
        Err(EvalError::UnknownFunction(n)) => assert_eq!(n, "undefined_fn"),
        other => panic!("unexpected {:?}", other),
    }
    assert_eq!(i.current_text(), "undefined_fn{ x } { a : a : b }");
}

#[test]
fn program_without_scopes_is_final() {
    let mut i = Interpreter::new("just some text: no scopes");
    assert!(matches!(i.step(), Ok(StepOutcome::Finished)));
    assert_eq!(i.current_text(), "just some text: no scopes");
}

#[test]
fn nested_call_is_evaluated_first() {
    let p = "def inner { x : x : y } def outer { inner : inner : SAW_CALL ; y : y : SAW_Y } outer{ inner{ x } }";
    assert_eq!(run(p).unwrap().trim(), "SAW_Y");
}

#[test]
fn register_beyond_the_frames() {
    assert!(matches!(run("{ a : (a) : ^$1  }"), Err(EvalError::UnboundRegister)));
    assert!(matches!(run("{ a : (a) : ^^$0  }"), Err(EvalError::UnboundRegister)));
}

#[test]
fn unbound_register() {
    assert!(matches!(run("{ a : a : $5 }"), Err(EvalError::UnboundRegister)));
}

#[test]
fn invalid_pattern() {
    assert!(matches!(run("{ a : ( : b }"), Err(EvalError::InvalidPattern)));
}

#[test]
fn error_builtin_aborts() {
    match run("{ error(boom) a : a : b }") {
        Err(EvalError::Raised(m)) => assert_eq!(m, "boom"),
        other => panic!("unexpected {:?}", other),
    }
}

#[test]
fn print_builtin_reports_message() {
    let mut i = Interpreter::new("{ print(hi there) a : a : b }");
    match i.step() {
        Ok(StepOutcome::Rewrote(p)) => assert_eq!(p, vec!["hi there".to_string()]),
        other => panic!("unexpected {:?}", other),
    }
    assert_eq!(i.current_text(), "b");
}

#[test]
fn prompt_waits_for_input() {
    let mut i = Interpreter::new("{ get_input(name?) : (.*) : hi $1  }");
    match i.step() {
        Ok(StepOutcome::NeedInput(p)) => assert_eq!(p, "name?"),
        other => panic!("unexpected {:?}", other),
    }
    assert_eq!(i.current_text(), "{ get_input(name?) : (.*) : hi $1  }");
    i.provide_input("bob".to_string());
    assert!(matches!(i.step(), Ok(StepOutcome::Rewrote(_))));
    assert_eq!(i.current_text(), "hi bob");
}

#[test]
fn scope_errors_surface() {
    let mut i = Interpreter::new("a } {");
    assert!(matches!(
        i.step(),
        Err(EvalError::Scope(FindingScopeError::FoundEndingBraceBeforeStartingBrace))
    ));
}

#[test]
fn simple_scope_in_place() {
    let mut lt = LinkedTokens::from_string("<{ ab : a : XY }>").unwrap();
    let open = lt.arena[1].next.unwrap();
    eval_simple_scope(&mut lt, open).unwrap();
    assert_eq!(lt.to_raw_string(), "<XY>");
}

#[test]
fn simple_scope_errors() {
    let mut lt = LinkedTokens::from_string("{ ab : z : XY }").unwrap();
    assert!(matches!(eval_simple_scope(&mut lt, 1), Err(EvalError::NoArmMatched)));
    assert!(matches!(eval_simple_scope(&mut lt, 77), Err(EvalError::StartIndexOutOfBounds)));
    let mut lt2 = LinkedTokens::from_string("{ ab }").unwrap();
    assert!(matches!(eval_simple_scope(&mut lt2, 1), Err(EvalError::ScopeEndedWhileParsingInput)));
    let mut lt3 = LinkedTokens::from_string("{ a : f{ } : c }").unwrap();
    assert!(matches!(eval_simple_scope(&mut lt3, 1), Err(EvalError::ScopeNotSimple)));
    assert_eq!(lt.to_raw_string(), "{ ab : z : XY }");
}

#[test]
fn redefinition_replaces_function() {
    let p = "def f { a : a : OLD } def f { a : a : NEW } f{ a }";
    assert_eq!(run(p).unwrap().trim(), "NEW");
}

#[test]
fn global_definition_is_callable() {
    assert_eq!(run("*def up { (.*) : (.*) : <$1 > } up{ hi }").unwrap().trim(), "<hi>");
}

#[test]
fn malformed_and_lexing_errors() {
    assert!(matches!(run("{ a : b }"), Err(EvalError::MalformedScope)));
    assert!(matches!(run("f{ a : b }"), Err(EvalError::UnknownFunction(_))));
    assert!(matches!(
        run("{ $x : a : b }"),
        Err(EvalError::Lex(rewrite_lang::errors::ParseError::InvalidRegisterIndexCharacter('x')))
    ));
}

#[test]
fn simple_scope_missing_parts() {
    let mut a = LinkedTokens::from_string("{").unwrap();
    assert!(matches!(eval_simple_scope(&mut a, 1), Err(EvalError::MissingInput)));
    let mut b = LinkedTokens::from_string("{ a :").unwrap();
    assert!(matches!(eval_simple_scope(&mut b, 1), Err(EvalError::MissingPattern)));
    let mut c = LinkedTokens::from_string("{ a : b }").unwrap();
    assert!(matches!(eval_simple_scope(&mut c, 1), Err(EvalError::MissingOutput)));
    let mut d = LinkedTokens::from_string("{ a : b : c : d }").unwrap();
    assert!(matches!(eval_simple_scope(&mut d, 1), Err(EvalError::ScopeNotSimple)));
    let mut e = LinkedTokens::from_string("{ a : ( : c }").unwrap();
    assert!(matches!(eval_simple_scope(&mut e, 1), Err(EvalError::InvalidPattern)));
}

#[test]
fn simple_scope_with_empty_output() {
    let mut lt = LinkedTokens::from_string("<{ a : a : }>").unwrap();
    let open = lt.arena[1].next.unwrap();
    eval_simple_scope(&mut lt, open).unwrap();
    assert_eq!(lt.to_raw_string(), "<>");
    lt.collect_garbage();
    assert_eq!(lt.to_raw_string(), "<>");
    assert_eq!(lt.arena.len(), 4);
}

#[test]
fn output_scopes_see_the_calling_frame() {
    let p = "def g { (.*) : (.*) : [$1 ^$1 ] } def f { (.*) : (.*) : g{ x } } f{ y }";
    assert_eq!(run(p).unwrap().trim(), "[xy]");
}

#[test]
fn unbounded_recursion_is_cut_off() {
    let p = "def loop { (.*) : (.*) : loop{ $1 } } loop{ a }";
    assert!(matches!(run(p), Err(EvalError::TooDeep)));
}

#[test]
fn simple_scope_list_ends_in_input() {
    let mut lt = LinkedTokens::from_string("a").unwrap();
    assert!(matches!(eval_simple_scope(&mut lt, 0), Err(EvalError::ScopeEndedWhileParsingInput)));
    assert_eq!(lt.to_raw_string(), "a");
}

#[test]
fn unnamed_group_becomes_empty() {
    assert_eq!(run("{ b : (a)?b : [$1 ] }").unwrap(), "[]");
}
