use cmdlang::eval::{
    eval, run_command, try_eval, CommandImpl, Echo, Effect, Env, NativeCommand, Value,
};
use cmdlang::lexer::Span;
use cmdlang::parser::{parse, Atom, AtomData, Command};

fn word(name: &str) -> Atom {
    Atom { data: AtomData::Identifier(name.to_string()), span: Span::new(0, name.len()) }
}

fn quoted(value: &str) -> Atom {
    Atom { data: AtomData::String(value.to_string()), span: Span::new(0, value.len() + 2) }
}

fn statement(data: Vec<Atom>) -> Command {
    Command { data, span: Span::new(0, 1) }
}

#[test]
fn echo_is_named_echo() {
    assert_eq!(Echo::NAME, "echo");
    assert_eq!(Echo.name(), "echo");
}

#[test]
fn calling_a_command_calls_its_implementation() {
    assert_eq!(Echo.call(&[quoted("hi")]), Some("hi".to_string()));
    assert_eq!(Echo.call(&[word("hi"), quoted("x")]), None);
}

#[test]
fn echo_prints_a_string_argument() {
    assert_eq!(Echo.call_impl(&[quoted("hi")]), Some("hi".to_string()));
    assert_eq!(Echo.call_impl(&[quoted("a"), quoted("b")]), Some("a".to_string()));
    assert_eq!(Echo.call_impl(&[quoted("")]), Some(String::new()));
}

#[test]
fn echo_prints_nothing_for_other_arguments() {
    assert_eq!(Echo.call_impl(&[word("hi")]), None);
    assert_eq!(
        Echo.call_impl(&[Atom { data: AtomData::Number(1), span: Span::new(0, 1) }, quoted("x")]),
        None
    );
}

#[test]
fn new_environment_knows_echo_only() {
    let env = Env::new();
    assert!(matches!(env.get("echo"), Some(Value::Command(Echo))));
    assert!(env.get("ech").is_none());
    assert!(env.get("echoo").is_none());
    assert!(env.get("").is_none());
    assert!(env.get("print").is_none());
}

#[test]
fn adding_a_command_again_keeps_it_bound() {
    let mut env = Env::new();
    env.add_command(Echo);
    assert!(matches!(env.get("echo"), Some(Value::Command(Echo))));
    assert!(env.get("Echo").is_none());
}

#[test]
fn command_without_a_leading_identifier_is_passed_over() {
    let env = Env::new();
    assert_eq!(run_command(&env, &statement(vec![])), Some(Effect::Nothing));
    assert_eq!(run_command(&env, &statement(vec![quoted("echo")])), Some(Effect::Nothing));
    assert_eq!(
        run_command(&env, &statement(vec![quoted("echo"), word("echo")])),
        Some(Effect::Nothing)
    );
}

#[test]
fn echo_command_prints_its_first_argument() {
    let env = Env::new();
    assert_eq!(
        run_command(&env, &statement(vec![word("echo"), quoted("hi\n"), quoted("x")])),
        Some(Effect::Print("hi\n".to_string()))
    );
    assert_eq!(
        run_command(&env, &statement(vec![word("echo"), word("hi")])),
        Some(Effect::Nothing)
    );
}

#[test]
fn unknown_name_cannot_be_run() {
    let env = Env::new();
    assert_eq!(run_command(&env, &statement(vec![word("print"), quoted("hi")])), None);
}

#[test]
fn echo_without_arguments_cannot_be_run() {
    let env = Env::new();
    assert_eq!(run_command(&env, &statement(vec![word("echo")])), None);
}

#[test]
fn script_prints_its_lines_in_order() {
    assert_eq!(
        eval("echo \"one\"; echo \"two\\n\" \"x\";\n# nothing\n\"loose\"; echo 3; echo \"four\""),
        vec!["one".to_string(), "two\n".to_string(), "four".to_string()]
    );
    assert_eq!(eval(""), Vec::<String>::new());
    assert_eq!(try_eval("echo \"a\";"), Some(vec!["a".to_string()]));
}

#[test]
fn script_that_cannot_run_has_no_output() {
    assert_eq!(try_eval("echo \"a\"; nope \"b\""), None);
    assert_eq!(try_eval("echo \"a\"; echo"), None);
    assert_eq!(try_eval("echo \"a"), None);
    assert_eq!(try_eval("echo \"a\" }"), None);
    assert_eq!(try_eval("echo (\"a\")"), None);
    assert_eq!(try_eval("echo \"a\"; $"), None);
}

#[test]
fn nested_batches_are_not_run() {
    assert_eq!(try_eval("{ echo \"inner\" }; echo \"outer\""), Some(vec!["outer".to_string()]));
    let ast = parse("echo {x}").unwrap();
    let AtomData::Batch(body) = ast.data() else {
        panic!("the root is a batch");
    };
    assert_eq!(run_command(&Env::new(), &body[0]), Some(Effect::Nothing));
}
