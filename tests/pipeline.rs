use tagscript::interpreter::{Environment, Interpreter, RuntimeError, Value};
use tagscript::lexer::{tokenize_source, Lexer, Token};
use tagscript::parser::{Expression, ParseErrorKind, Parser, Program, Statement};
use tagscript::typechecker::{Type, TypeChecker, TypeEnvironment, TypeError};

fn parse_source(source: &str) -> Program {
    let tokens = tokenize_source(source);
    let mut parser = Parser::new(tokens);
    match parser.parse() {
        Ok(p) => p,
        Err(e) => panic!("unexpected syntax error: {:?}", e),
    }
}

fn check_source(source: &str) -> Result<(), TypeError> {
    let program = parse_source(source);
    let mut checker = TypeChecker::new();
    checker.check_program(&program)
}

fn run_unchecked(source: &str) -> (Result<(), RuntimeError>, Vec<String>) {
    let program = parse_source(source);
    let mut interpreter = Interpreter::new();
    let result = interpreter.interpret(program);
    let printed = interpreter.output().iter().map(shown).collect();
    (result, printed)
}

fn run_checked(source: &str) -> (Result<(), RuntimeError>, Vec<String>) {
    assert!(check_source(source).is_ok());
    run_unchecked(source)
}

fn shown(v: &Value) -> String {
    v.display()
}

fn token_text(tokens: &[Token]) -> Vec<String> {
    tokens.iter().map(|t| format!("{:?}", t)).collect()
}

#[test]
fn string_paren_literal_is_one_token() {
    let tokens = tokenize_source("String(Hello)");
    assert_eq!(tokens.len(), 2);
    assert!(matches!(&tokens[0], Token::StringLiteral(s) if s == "Hello"));
    assert!(matches!(tokens[1], Token::EOF));
}

#[test]
fn string_bracket_literal_is_four_tokens() {
    let tokens = tokenize_source("String[Hello]");
    assert_eq!(tokens.len(), 5);
    assert!(matches!(tokens[0], Token::TypeString));
    assert!(matches!(tokens[1], Token::LeftBracket));
    assert!(matches!(&tokens[2], Token::Identifier(s) if s == "Hello"));
    assert!(matches!(tokens[3], Token::RightBracket));
    assert!(matches!(tokens[4], Token::EOF));
}

#[test]
fn integer_paren_literal_reads_its_body() {
    let tokens = tokenize_source("Integer(123) Integer(abc) Integer(-7)");
    assert!(matches!(tokens[0], Token::IntegerLiteral(123)));
    assert!(matches!(tokens[1], Token::IntegerLiteral(0)));
    assert!(matches!(tokens[2], Token::IntegerLiteral(-7)));
    assert!(matches!(tokens[3], Token::EOF));
}

#[test]
fn digit_run_that_overflows_becomes_zero() {
    let tokens = tokenize_source("9223372036854775807 9223372036854775808");
    assert!(matches!(tokens[0], Token::IntegerLiteral(9223372036854775807)));
    assert!(matches!(tokens[1], Token::IntegerLiteral(0)));
}

#[test]
fn comment_text_is_trimmed() {
    let tokens = tokenize_source("//   a note  \nfoo");
    assert!(matches!(&tokens[0], Token::Comment(s) if s == "a note"));
    assert!(matches!(&tokens[1], Token::Identifier(s) if s == "foo"));
}

#[test]
fn is_and_is_not_are_recognised() {
    let tokens = tokenize_source("a is b is not c");
    assert!(matches!(tokens[1], Token::Equals));
    assert!(matches!(tokens[3], Token::NotEquals));
    assert!(matches!(&tokens[4], Token::Identifier(s) if s == "c"));
}

#[test]
fn is_prefix_is_not_word_bounded() {
    let tokens = tokenize_source("island");
    assert!(matches!(tokens[0], Token::Equals));
    assert!(matches!(&tokens[1], Token::Identifier(s) if s == "land"));
    let tokens = tokenize_source("is no");
    assert!(matches!(tokens[0], Token::Equals));
    assert!(matches!(tokens[1], Token::EOF));
}

#[test]
fn words_starting_with_i_and_keywords() {
    let tokens = tokenize_source("if item func Unknown True False Integer");
    assert!(matches!(tokens[0], Token::If));
    assert!(matches!(&tokens[1], Token::Identifier(s) if s == "item"));
    assert!(matches!(tokens[2], Token::Func));
    assert!(matches!(tokens[3], Token::TypeUnknown));
    assert!(matches!(tokens[4], Token::TypeTrue));
    assert!(matches!(tokens[5], Token::TypeFalse));
    assert!(matches!(tokens[6], Token::TypeInteger));
}

#[test]
fn unknown_characters_are_skipped() {
    let tokens = tokenize_source("@ # a ; / b");
    assert_eq!(token_text(&tokens), vec!["Identifier(\"a\")", "Identifier(\"b\")", "EOF"]);
}

#[test]
fn empty_source_gives_end_of_input() {
    let tokens = tokenize_source("");
    assert_eq!(tokens.len(), 1);
    assert!(matches!(tokens[0], Token::EOF));
}

#[test]
fn next_token_scans_one_at_a_time() {
    let mut lexer = Lexer::new("{ } : ,");
    assert!(matches!(lexer.next_token(), Token::LeftBrace));
    assert!(matches!(lexer.next_token(), Token::RightBrace));
    assert!(matches!(lexer.next_token(), Token::Colon));
    assert!(matches!(lexer.next_token(), Token::Comma));
    assert!(matches!(lexer.next_token(), Token::EOF));
    assert!(matches!(lexer.next_token(), Token::EOF));
}

#[test]
fn tokenizing_twice_gives_the_same_tokens() {
    let source = "func greet(name: String) { print(String[Hello], name) } // done\n greet(String(World))";
    let first = Lexer::new(source).tokenize();
    let second = Lexer::new(source).tokenize();
    assert_eq!(token_text(&first), token_text(&second));
    assert!(first.len() > 10);
}

#[test]
fn if_is_on_equal_values_prints() {
    let (result, printed) = run_checked("if String[Hello] is String[Hello] { print(String[True]) }");
    assert!(result.is_ok());
    assert_eq!(printed, vec!["True"]);
}

#[test]
fn if_is_not_on_equal_values_prints_nothing() {
    let (result, printed) = run_checked("if String[Hello] is not String[Hello] { print(String[True]) }");
    assert!(result.is_ok());
    assert!(printed.is_empty());
}

#[test]
fn argument_type_mismatch_names_both_types() {
    let result = check_source("func f(x: String) { } f(Integer[1])");
    match result {
        Err(TypeError::Mismatch { expected, actual }) => {
            assert!(matches!(expected, Type::String));
            assert!(matches!(actual, Type::Integer));
        },
        other => panic!("expected a type mismatch, got {:?}", other),
    }
}

#[test]
fn undefined_function_fails_checking_and_running() {
    let result = check_source("missing(String[a])");
    assert!(matches!(result, Err(TypeError::UndefinedFunction(ref n)) if n == "missing"));
    let (result, printed) = run_unchecked("missing(String[a])");
    assert!(matches!(result, Err(RuntimeError::UndefinedFunction(ref n)) if n == "missing"));
    assert!(printed.is_empty());
}

#[test]
fn user_function_named_print_prints() {
    let source = "func print(a: String, b: String) { } print(String[x])";
    assert!(check_source(source).is_ok());
    let (result, printed) = run_unchecked(source);
    assert!(result.is_ok());
    assert_eq!(printed, vec!["x"]);
}

#[test]
fn call_sees_function_redefined_after_definition() {
    let source = "func show() { x() } func x() { print(String[one]) } func x() { print(String[two]) } show()";
    let (result, printed) = run_unchecked(source);
    assert!(result.is_ok());
    assert_eq!(printed, vec!["two"]);
}

#[test]
fn call_sees_callers_variables() {
    let source = "func show() { print(x) } func g(x: String) { show() } g(String[hi])";
    let (result, printed) = run_unchecked(source);
    assert!(result.is_ok());
    assert_eq!(printed, vec!["hi"]);
}

#[test]
fn call_with_too_few_arguments_names_both_counts() {
    let source = "func greet(name: String) { print(name) } greet()";
    let (result, printed) = run_unchecked(source);
    assert!(matches!(result, Err(RuntimeError::ArityMismatch { expected: 1, actual: 0 })));
    assert!(printed.is_empty());
    let checked = check_source(source);
    assert!(matches!(checked, Err(TypeError::ArityMismatch { expected: 1, actual: 0, .. })));
}

#[test]
fn demo_program_runs() {
    let source = "
        // Define a custom function to greet someone
        func greet(name: String) {
            print(String[Hello], name)
        }
        greet(String[World])
        if String[Hello] is String[Hello] {
            print(String[True])
        }
        if String[Hello] is not String[Goodbye] {
            print(String[Different])
        }
        print(String[Answer], Integer[42])
    ";
    let (result, printed) = run_checked(source);
    assert!(result.is_ok());
    assert_eq!(printed, vec!["Hello", "World", "True", "Different", "Answer", "42"]);
}

#[test]
fn print_writes_nothing_when_an_argument_fails() {
    let (result, printed) = run_unchecked("print(String[a], Integer[b])");
    assert!(matches!(result, Err(RuntimeError::CannotConvert(ref t)) if t == "b"));
    assert!(printed.is_empty());
}

#[test]
fn typed_value_of_wrong_variant_fails() {
    let checked = check_source("String[Integer(5)]");
    assert!(matches!(checked, Err(TypeError::Mismatch { expected: Type::String, actual: Type::Integer })));
    let (result, _) = run_unchecked("String[Integer(5)]");
    assert!(matches!(result, Err(RuntimeError::TypeMismatch { ref expected, actual: Value::Integer(5) }) if expected == "String"));
}

#[test]
fn integer_typed_value_of_a_number() {
    let (result, printed) = run_checked("print(Integer[42], Integer[Integer(-3)])");
    assert!(result.is_ok());
    assert_eq!(printed, vec!["42", "-3"]);
}

#[test]
fn condition_must_be_boolean() {
    let checked = check_source("if String[a] { }");
    assert!(matches!(checked, Err(TypeError::ConditionNotBoolean(Type::String))));
}

#[test]
fn truthiness_of_values() {
    let (result, printed) = run_unchecked(
        "if Integer[0] { print(String[zero]) } if Integer[7] { print(String[seven]) } if String(x) { print(String[text]) } if print { print(String[fn]) } if print(String[p]) { print(String[null]) }",
    );
    assert!(result.is_ok());
    assert_eq!(printed, vec!["seven", "text", "fn", "p"]);
}

#[test]
fn values_of_different_variants_are_unequal() {
    let (result, printed) = run_unchecked(
        "if Integer[1] is String(1) { print(String[same]) } if Integer[1] is not String(1) { print(String[differ]) } if True is True { print(String[bools]) }",
    );
    assert!(matches!(result, Err(RuntimeError::UndefinedVariable(ref n)) if n == "True"));
    assert_eq!(printed, vec!["differ"]);
    let interpreter = Interpreter::new();
    assert!(!interpreter.values_equal(&Value::Null, &Value::Boolean(false)));
    assert!(interpreter.values_equal(&Value::Null, &Value::Null));
    assert!(interpreter.values_equal(&Value::Integer(3), &Value::Integer(3)));
    assert!(!interpreter.is_truthy(&Value::String(String::new())));
}

#[test]
fn undefined_variable_fails() {
    assert!(matches!(check_source("print(nothing)"), Err(TypeError::UndefinedVariable(ref n)) if n == "nothing"));
    let (result, _) = run_unchecked("print(nothing)");
    assert!(matches!(result, Err(RuntimeError::UndefinedVariable(ref n)) if n == "nothing"));
}

#[test]
fn calling_a_non_function_fails() {
    let source = "func f(x: String) { x() } f(String[a])";
    assert!(matches!(check_source(source), Err(TypeError::NotAFunction(ref n)) if n == "x"));
    let (result, _) = run_unchecked(source);
    assert!(matches!(result, Err(RuntimeError::NotAFunction(ref n)) if n == "x"));
}

#[test]
fn function_scope_does_not_leak() {
    let source = "func f(x: String) { } print(x)";
    assert!(matches!(check_source(source), Err(TypeError::UndefinedVariable(ref n)) if n == "x"));
}

#[test]
fn builtin_function_forwards_its_argument_type() {
    assert!(matches!(
        check_source("func f(x: Integer) { } f(function(String[a]))"),
        Err(TypeError::Mismatch { expected: Type::Integer, actual: Type::String })
    ));
    assert!(check_source("func f(x: Integer) { } f(function())").is_ok());
}

#[test]
fn unknown_parameter_type_accepts_anything() {
    assert!(check_source("func f(x: Unknown, y: Whatever) { } f(Integer[1], String[s])").is_ok());
}

#[test]
fn deeply_nested_calls_are_not_cut_off() {
    let mut source = String::new();
    let n = 300;
    for k in 0..n {
        source.push_str(&format!("func f{}() {{ f{}() }} ", k, k + 1));
    }
    source.push_str(&format!("func f{}() {{ print(String[bottom]) }} f0()", n));
    let (result, printed) = run_unchecked(&source);
    assert!(result.is_ok());
    assert_eq!(printed, vec!["bottom"]);
}

#[test]
fn syntax_errors_are_reported() {
    let cases: Vec<(&str, ParseErrorKind)> = vec![
        ("func (", ParseErrorKind::ExpectedFunctionName),
        ("func f {", ParseErrorKind::ExpectedParenAfterFunctionName),
        ("func f(x String)", ParseErrorKind::ExpectedColonAfterParameterName),
        ("func f(x: [)", ParseErrorKind::ExpectedTypeName),
        ("func f(x: String y)", ParseErrorKind::ExpectedCommaBetweenParameters),
        ("func f(:)", ParseErrorKind::ExpectedParameterName),
        ("func f() print", ParseErrorKind::ExpectedBraceAfterDeclaration),
        ("func f() { print(a)", ParseErrorKind::ExpectedBraceAfterFunctionBody),
        ("if a print", ParseErrorKind::ExpectedBraceAfterCondition),
        ("if a { print(a)", ParseErrorKind::ExpectedBraceAfterIfBody),
        ("f(a b)", ParseErrorKind::ExpectedCommaBetweenArguments),
        ("String Hello", ParseErrorKind::ExpectedBracketAfterTypeName),
        ("String[Hello", ParseErrorKind::ExpectedBracketAfterTypedValue),
        ("]", ParseErrorKind::UnexpectedToken),
    ];
    for (source, kind) in cases {
        let mut parser = Parser::new(tokenize_source(source));
        match parser.parse() {
            Err(e) => assert_eq!(e.kind, kind, "for {}", source),
            Ok(p) => panic!("{} parsed as {:?}", source, p),
        }
    }
}

#[test]
fn unexpected_token_reports_its_position() {
    let mut parser = Parser::new(tokenize_source("print(a) ]"));
    match parser.parse() {
        Err(e) => {
            assert_eq!(e.kind, ParseErrorKind::UnexpectedToken);
            assert_eq!(e.position, 4);
            assert!(matches!(e.found, Token::RightBracket));
        },
        Ok(_) => panic!("expected a syntax error"),
    }
}

#[test]
fn parse_builds_the_tree() {
    let program = parse_source("// note\nfunc f(a: String, b: Custom) { if a is not b { g(a) } } True");
    assert_eq!(program.statements.len(), 3);
    assert!(matches!(&program.statements[0], Statement::Comment(c) if c == "note"));
    match &program.statements[1] {
        Statement::FunctionDeclaration { name, parameters, body } => {
            assert_eq!(name, "f");
            assert_eq!(parameters.len(), 2);
            assert_eq!(parameters[1].type_tag, "Custom");
            match &body[0] {
                Statement::IfStatement { condition: Expression::BinaryOperation { operator, .. }, body } => {
                    assert_eq!(operator, "is not");
                    assert_eq!(body.len(), 1);
                },
                other => panic!("unexpected {:?}", other),
            }
        },
        other => panic!("unexpected {:?}", other),
    }
    assert!(matches!(&program.statements[2], Statement::Expression(Expression::Identifier(n)) if n == "True"));
}

#[test]
fn environments_chain_scopes() {
    let mut root = Environment::new();
    root.define("x".to_string(), Value::Integer(1));
    let mut child = Environment::extend(root);
    assert!(matches!(child.get("x"), Some(Value::Integer(1))));
    child.define("x".to_string(), Value::Integer(2));
    assert!(matches!(child.get("x"), Some(Value::Integer(2))));
    assert!(matches!(child.get("print"), Some(Value::Function { .. })));
    assert!(child.get("y").is_none());
}

#[test]
fn type_environments_chain_scopes() {
    let root = TypeEnvironment::new();
    let mut child = TypeEnvironment::extend(root);
    assert!(matches!(child.get("print"), Some(Type::Function { .. })));
    child.define("v".to_string(), Type::Boolean);
    assert!(matches!(child.get("v"), Some(Type::Boolean)));
    assert!(child.get("w").is_none());
}

#[test]
fn assign_rebinds_the_innermost_binding() {
    let mut root = Environment::new();
    root.define("x".to_string(), Value::Integer(1));
    let mut child = Environment::extend(root);
    assert!(child.assign("x", Value::Integer(5)).is_ok());
    assert!(matches!(child.get("x"), Some(Value::Integer(5))));
    let missing = child.assign("nope", Value::Null);
    assert!(matches!(missing, Err(RuntimeError::UndefinedVariable(ref n)) if n == "nope"));
}

#[test]
fn words_hold_letters_digits_and_underscores() {
    let tokens = tokenize_source("ab_1c2 \u{e9}t\u{e9}9 x\u{0663}");
    assert!(matches!(&tokens[0], Token::Identifier(s) if s == "ab_1c2"));
    assert!(matches!(&tokens[1], Token::Identifier(s) if s == "\u{e9}t\u{e9}9"));
    assert!(matches!(&tokens[2], Token::Identifier(s) if s == "x\u{0663}"));
    assert!(matches!(tokens[3], Token::EOF));
}

#[test]
fn all_kinds_of_whitespace_separate_tokens() {
    let tokens = tokenize_source("a\tb\r\nc\u{00a0}d");
    assert_eq!(
        token_text(&tokens),
        vec!["Identifier(\"a\")", "Identifier(\"b\")", "Identifier(\"c\")", "Identifier(\"d\")", "EOF"]
    );
}

#[test]
fn values_display_as_print_writes_them() {
    assert_eq!(Value::Integer(-42).display(), "-42");
    assert_eq!(Value::Integer(0).display(), "0");
    assert_eq!(Value::Integer(i64::MIN).display(), "-9223372036854775808");
    assert_eq!(Value::Integer(i64::MAX).display(), "9223372036854775807");
    assert_eq!(Value::Boolean(true).display(), "true");
    assert_eq!(Value::Null.display(), "null");
    assert_eq!(Value::String("hi".to_string()).display(), "hi");
    let f = Value::Function { name: "greet".to_string(), parameters: Vec::new(), body: Vec::new() };
    assert_eq!(f.display(), "<function greet>");
}

#[test]
fn types_display_as_messages_write_them() {
    assert_eq!(Type::Integer.display(), "Integer");
    let t = Type::Function {
        parameters: vec![Type::String, Type::Unknown],
        return_type: Box::new(Type::Void),
    };
    assert_eq!(t.display(), "fn(String, Unknown) -> Void");
    let u = Type::Function { parameters: Vec::new(), return_type: Box::new(Type::Boolean) };
    assert_eq!(u.display(), "fn() -> Boolean");
}

#[test]
fn other_parameter_type_names_are_unknown() {
    assert!(check_source("func f(x: Boolean) { } f(String[A])").is_ok());
    let checked = check_source("func f(x: String) { } f(function(Integer[1]))");
    assert!(matches!(checked, Err(TypeError::Mismatch { expected: Type::String, actual: Type::Integer })));
}

#[test]
fn any_function_value_named_print_prints() {
    let mut interpreter = Interpreter::new();
    let decl = parse_source("func print(a: String) { missing() } func p(x: String) { }");
    assert!(interpreter.interpret(decl).is_ok());
    let call = Expression::FunctionCall {
        name: "print".to_string(),
        arguments: vec![Expression::IntegerLiteral(3), Expression::StringLiteral("z".to_string())],
    };
    let result = interpreter.evaluate_expression(&call, 5);
    assert!(matches!(result, Ok(Value::Null)));
    let printed: Vec<String> = interpreter.output().iter().map(shown).collect();
    assert_eq!(printed, vec!["3", "z"]);
}

#[test]
fn string_literal_body_is_kept_verbatim() {
    let tokens = tokenize_source("String(a [b] 12 if func //)");
    assert_eq!(tokens.len(), 2);
    assert!(matches!(&tokens[0], Token::StringLiteral(s) if s == "a [b] 12 if func //"));
}
