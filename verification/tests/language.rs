use tiny_interp::double::Double;
use tiny_interp::interpreter::{
    apply, check_pair, eval, run, run_with_depth, to_string, Builtin, Environment, RuntimeError,
};
use tiny_interp::parse::{
    classify_word, parse, parse_tokens, tokenize, Expr, LexError, ParseError, ParseErrorKind, Token,
};

fn ident(name: &str) -> Expr {
    Expr::Identifier(name.to_owned())
}

fn call(name: &str, args: Vec<Expr>) -> Expr {
    Expr::FuncCall(name.to_owned(), args)
}

fn double(v: f64) -> Expr {
    Expr::DoubleLiteral(Double::from_bits(v.to_bits()))
}

fn program(text: &str) -> Vec<Expr> {
    parse(text.to_owned()).unwrap()
}

/// Evaluates the last expression of `text` after running the ones before it.
fn value_of(text: &str) -> Result<Expr, RuntimeError> {
    let mut exprs = program(text);
    let last = exprs.pop().unwrap();
    let mut env = Environment::new();
    let mut out = Vec::new();
    for e in &exprs {
        eval(&mut env, &mut out, e, 200)?;
    }
    eval(&mut env, &mut out, &last, 200)
}

fn printed(text: &str) -> (Vec<String>, Result<(), RuntimeError>) {
    let report = run(program(text));
    (report.output, report.result)
}

#[test]
fn tokens_of_a_small_program() {
    let tokens = tokenize("=(x 5)\nprint(+(x 2.5 \"a b\" true))".to_owned());
    let expected: Result<Vec<Token>, LexError> = Ok(vec![
        Token::Identifier("=".to_owned()),
        Token::GroupLeft,
        Token::Identifier("x".to_owned()),
        Token::IntLiteral(5),
        Token::GroupRight,
        Token::Identifier("print".to_owned()),
        Token::GroupLeft,
        Token::Identifier("+".to_owned()),
        Token::GroupLeft,
        Token::Identifier("x".to_owned()),
        Token::DoubleLiteral(Double::from_bits(2.5f64.to_bits())),
        Token::StringLiteral("a b".to_owned()),
        Token::BooleanLiteral(true),
        Token::GroupRight,
        Token::GroupRight,
    ]);
    assert_eq!(tokens, expected);
}

#[test]
fn words_are_classified_in_the_fixed_order() {
    let word = |t: &str| classify_word(&t.as_bytes().to_vec());
    assert_eq!(word("12"), Token::IntLiteral(12));
    assert_eq!(word("-12"), Token::IntLiteral(-12));
    assert_eq!(word("+12"), Token::IntLiteral(12));
    assert_eq!(word("2147483647"), Token::IntLiteral(i32::MAX));
    assert_eq!(word("2147483648"), Token::LongLiteral(2147483648));
    assert_eq!(word("2000000000000"), Token::LongLiteral(2000000000000));
    assert_eq!(
        word("9223372036854775808"),
        Token::DoubleLiteral(Double::from_bits(9223372036854775808f64.to_bits()))
    );
    assert_eq!(word("1e3"), Token::DoubleLiteral(Double::from_bits(1000f64.to_bits())));
    assert_eq!(word("inf"), Token::DoubleLiteral(Double::from_bits(f64::INFINITY.to_bits())));
    assert_eq!(word("true"), Token::BooleanLiteral(true));
    assert_eq!(word("false"), Token::BooleanLiteral(false));
    assert_eq!(word("True"), Token::Identifier("True".to_owned()));
    assert_eq!(word("\"\""), Token::StringLiteral("".to_owned()));
    assert_eq!(word("\"12\""), Token::StringLiteral("12".to_owned()));
    assert_eq!(word("\""), Token::Identifier("\"".to_owned()));
    assert_eq!(word("\"ab"), Token::Identifier("\"ab".to_owned()));
    assert_eq!(word("1,"), Token::Identifier("1,".to_owned()));
    assert_eq!(word("-"), Token::Identifier("-".to_owned()));
    assert_eq!(word("=="), Token::Identifier("==".to_owned()));
}

#[test]
fn quotes_keep_delimiters_inside_a_word() {
    let tokens = tokenize("f(\"a (b)\nc\")".to_owned()).unwrap();
    assert_eq!(
        tokens,
        vec![
            Token::Identifier("f".to_owned()),
            Token::GroupLeft,
            Token::StringLiteral("a (b)\nc".to_owned()),
            Token::GroupRight,
        ]
    );
    let open = tokenize("f(\"a b".to_owned()).unwrap();
    assert_eq!(
        open,
        vec![
            Token::Identifier("f".to_owned()),
            Token::GroupLeft,
            Token::Identifier("\"a b".to_owned()),
        ]
    );
    assert_eq!(tokenize("".to_owned()), Ok(vec![]));
    assert_eq!(tokenize("  \n ".to_owned()), Ok(vec![]));
}

#[test]
fn bytes_beyond_ascii_are_read_one_by_one() {
    let tokens = tokenize("\u{e9}".to_owned()).unwrap();
    assert_eq!(tokens, vec![Token::Identifier("\u{c3}\u{a9}".to_owned())]);
}

#[test]
fn atomic_literals_read_back_as_themselves() {
    for v in [0i32, 1, -1, 42, i32::MAX, i32::MIN] {
        let text = to_string(&Expr::IntLiteral(v)).unwrap();
        assert_eq!(tokenize(text), Ok(vec![Token::IntLiteral(v)]));
    }
    for v in [i64::MAX, i64::MIN, 2147483648, -2147483649, 2000000000001] {
        let text = to_string(&Expr::LongLiteral(v)).unwrap();
        assert_eq!(tokenize(text), Ok(vec![Token::LongLiteral(v)]));
    }
    for v in [true, false] {
        let text = to_string(&Expr::BooleanLiteral(v)).unwrap();
        assert_eq!(tokenize(text), Ok(vec![Token::BooleanLiteral(v)]));
    }
    for v in [2.5f64, 0.1, -3.75, 1e300, 5e-324] {
        let d = Double::from_bits(v.to_bits());
        let text = to_string(&Expr::DoubleLiteral(d)).unwrap();
        assert_eq!(tokenize(text), Ok(vec![Token::DoubleLiteral(d)]));
    }
    for name in ["x", "double", "ifElse", "a1", "_"] {
        assert_eq!(tokenize(name.to_owned()), Ok(vec![Token::Identifier(name.to_owned())]));
    }
}

#[test]
fn a_program_is_a_sequence_of_calls() {
    let exprs = program("=(x 5) print(+(x f(1 g()) \"s\" 2.5 false))");
    assert_eq!(
        exprs,
        vec![
            call("=", vec![ident("x"), Expr::IntLiteral(5)]),
            call(
                "print",
                vec![call(
                    "+",
                    vec![
                        ident("x"),
                        call("f", vec![Expr::IntLiteral(1), call("g", vec![])]),
                        Expr::StringLiteral("s".to_owned()),
                        double(2.5),
                        Expr::BooleanLiteral(false),
                    ]
                )]
            ),
        ]
    );
    assert_eq!(parse("".to_owned()), Ok(vec![]));
}

#[test]
fn parsing_the_same_text_twice_gives_the_same_tree() {
    let text = "=(double func(n *(n 2))) print(double(21))";
    assert_eq!(parse(text.to_owned()), parse(text.to_owned()));
}

#[test]
fn each_structural_error_is_reported_with_its_place() {
    let error = |text: &str| parse(text.to_owned()).unwrap_err();
    assert_eq!(
        error("5(1)"),
        ParseError { kind: ParseErrorKind::ExpectedIdentifier, position: 0 }
    );
    assert_eq!(
        error("f(1) )"),
        ParseError { kind: ParseErrorKind::ExpectedIdentifier, position: 4 }
    );
    assert_eq!(error("f"), ParseError { kind: ParseErrorKind::MissingOpen, position: 1 });
    assert_eq!(error("f 1)"), ParseError { kind: ParseErrorKind::MissingOpen, position: 1 });
    assert_eq!(error("f(1"), ParseError { kind: ParseErrorKind::MissingClose, position: 3 });
    assert_eq!(error("f(g()"), ParseError { kind: ParseErrorKind::MissingClose, position: 5 });
    assert_eq!(error("f(1) g"), ParseError { kind: ParseErrorKind::MissingClose, position: 5 });
    assert_eq!(error("f(( 1)"), ParseError { kind: ParseErrorKind::UnexpectedToken, position: 2 });
    assert_eq!(
        parse_tokens(&vec![Token::GroupRight]),
        Err(ParseError { kind: ParseErrorKind::ExpectedIdentifier, position: 0 })
    );
}

#[test]
fn arithmetic_takes_the_widest_kind() {
    assert_eq!(value_of("+(1 2)"), Ok(Expr::IntLiteral(3)));
    assert_eq!(value_of("+(1 2000000000000)"), Ok(Expr::LongLiteral(2000000000001)));
    assert_eq!(value_of("+(1 2.5)"), Ok(double(3.5)));
    assert_eq!(value_of("*(3 4)"), Ok(Expr::IntLiteral(12)));
    assert_eq!(value_of("*(3 4.5)"), Ok(double(13.5)));
    assert_eq!(value_of("*(2147483648 2)"), Ok(Expr::LongLiteral(4294967296)));
    assert_eq!(value_of("-(10 3 2)"), Ok(Expr::IntLiteral(5)));
    assert_eq!(value_of("-(2.5 1)"), Ok(double(1.5)));
    assert_eq!(value_of("-(7)"), Ok(Expr::IntLiteral(7)));
    assert_eq!(value_of("/(7 2)"), Ok(Expr::IntLiteral(3)));
    assert_eq!(value_of("/(-7 2)"), Ok(Expr::IntLiteral(-3)));
    assert_eq!(value_of("/(7 2.0)"), Ok(double(3.5)));
    assert_eq!(value_of("/(1 3.0)"), Ok(double(1.0 / 3.0)));
    assert_eq!(value_of("+(0.1 0.2)"), Ok(double(0.1 + 0.2)));
}

#[test]
fn integer_arithmetic_goes_through_doubles() {
    // Beyond 2^53 the sum is the double nearest to it, cut back to an integer.
    assert_eq!(
        value_of("+(9007199254740993 0)"),
        Ok(Expr::LongLiteral(9007199254740993i64 as f64 as i64))
    );
    assert_eq!(
        value_of("+(9223372036854775807 1)"),
        Ok(Expr::LongLiteral((9223372036854775807i64 as f64 + 1.0) as i64))
    );
    assert_eq!(value_of("+(2147483647 1)"), Ok(Expr::IntLiteral(i32::MAX)));
    assert_eq!(value_of("-(-2147483648 1)"), Ok(Expr::IntLiteral(i32::MIN)));
    assert_eq!(value_of("/(1 0)"), Ok(Expr::IntLiteral(i32::MAX)));
    assert_eq!(value_of("/(-1 0)"), Ok(Expr::IntLiteral(i32::MIN)));
    assert_eq!(value_of("/(0 0)"), Ok(Expr::IntLiteral(0)));
    assert_eq!(value_of("/(1 3)"), Ok(Expr::IntLiteral(0)));
}

#[test]
fn arithmetic_asks_for_numbers_and_for_one_at_least() {
    assert_eq!(value_of("+(1 \"a\")"), Err(RuntimeError::TypeMismatch));
    assert_eq!(value_of("*(true)"), Err(RuntimeError::TypeMismatch));
    assert_eq!(value_of("-(\"a\" 1)"), Err(RuntimeError::TypeMismatch));
    assert_eq!(value_of("+()"), Err(RuntimeError::ArityMismatch));
    assert_eq!(value_of("*()"), Err(RuntimeError::ArityMismatch));
    assert_eq!(value_of("-()"), Err(RuntimeError::ArityMismatch));
    assert_eq!(value_of("/()"), Err(RuntimeError::ArityMismatch));
}

#[test]
fn a_binding_is_read_back_and_can_be_replaced() {
    assert_eq!(value_of("=(x 5) +(x)"), Ok(Expr::IntLiteral(5)));
    assert_eq!(value_of("=(x 5) =(x 6) +(x)"), Ok(Expr::IntLiteral(6)));
    assert_eq!(value_of("=(x 5)"), Ok(Expr::IntLiteral(5)));
    assert_eq!(value_of("=(x +(2 3)) =(y x) *(x y)"), Ok(Expr::IntLiteral(25)));
    assert_eq!(value_of("=(5 5)"), Err(RuntimeError::TypeMismatch));
    assert_eq!(value_of("=(x)"), Err(RuntimeError::ArityMismatch));
    assert_eq!(value_of("=(x 1 2)"), Err(RuntimeError::ArityMismatch));

    let mut env = Environment::new();
    let mut out = Vec::new();
    let assign = call("=", vec![ident("x"), Expr::IntLiteral(5)]);
    assert_eq!(eval(&mut env, &mut out, &assign, 10), Ok(Expr::IntLiteral(5)));
    assert_eq!(eval(&mut env, &mut out, &ident("x"), 10), Ok(Expr::IntLiteral(5)));
    assert_eq!(env.lookup(&"x".to_owned()), Some(Expr::IntLiteral(5)));
    let again = call("=", vec![ident("x"), Expr::IntLiteral(6)]);
    assert_eq!(eval(&mut env, &mut out, &again, 10), Ok(Expr::IntLiteral(6)));
    assert_eq!(eval(&mut env, &mut out, &ident("x"), 10), Ok(Expr::IntLiteral(6)));
    assert_eq!(env.lookup(&"y".to_owned()), None);
    assert_eq!(env.len(), 1);
}

#[test]
fn an_environment_holds_one_binding_for_each_name() {
    let mut env = Environment::new();
    assert_eq!(env.len(), 0);
    for round in 0..50 {
        env.insert("x".to_owned(), Expr::IntLiteral(round));
        env.insert("y".to_owned(), Expr::IntLiteral(-round));
    }
    assert_eq!(env.len(), 2);
    assert_eq!(env.lookup(&"x".to_owned()), Some(Expr::IntLiteral(49)));
    assert_eq!(env.lookup(&"y".to_owned()), Some(Expr::IntLiteral(-49)));
    let copy = env.clone();
    env.insert("z".to_owned(), Expr::BooleanLiteral(true));
    assert_eq!(env.len(), 3);
    assert_eq!(copy.len(), 2);
    assert_eq!(copy.lookup(&"z".to_owned()), None);
}

#[test]
fn what_a_call_binds_does_not_reach_the_caller() {
    let (lines, result) = printed(
        "=(x 1) =(f func(n =(x n))) print(f(9)) print(x) =(g func(x +(x 1))) print(g(4)) print(x)",
    );
    assert_eq!(result, Ok(()));
    assert_eq!(lines, vec!["9", "1", "5", "1"]);
    // A later binding does not change what a finished call has given.
    let (lines, result) = printed("=(x 5) =(get func(+(x))) =(kept get()) =(x 6) print(kept) print(get())");
    assert_eq!(result, Ok(()));
    assert_eq!(lines, vec!["5", "6"]);
}

#[test]
fn functions_are_defined_and_called() {
    let (lines, result) = printed("=(double func(n *(n 2))) print(double(21))");
    assert_eq!(result, Ok(()));
    assert_eq!(lines, vec!["42"]);
    assert_eq!(value_of("=(double func(n *(n 2))) double(21)"), Ok(Expr::IntLiteral(42)));
    assert_eq!(
        value_of("=(double func(n *(n 2))) double(1 2)"),
        Err(RuntimeError::ArityMismatch)
    );
    assert_eq!(value_of("=(double func(n *(n 2))) double()"), Err(RuntimeError::ArityMismatch));
    assert_eq!(value_of("=(x 5) x(1)"), Err(RuntimeError::NotAFunction));
    assert_eq!(value_of("=(f func()) f()"), Err(RuntimeError::ArityMismatch));
    // Arguments are evaluated by the caller, before the body runs.
    let (lines, result) = printed("=(f func(a b print(\"body\"))) print(f(print(1) print(2)))");
    assert_eq!(result, Ok(()));
    assert_eq!(lines, vec!["1", "2", "body", "body"]);
}

#[test]
fn a_call_of_func_is_a_value() {
    assert_eq!(run(program("func(a b +(a b))")).result, Ok(()));
    assert_eq!(run(program("func()")).result, Ok(()));
    assert_eq!(run(program("func(1 +(1))")).result, Ok(()));
    let closure = call("func", vec![Expr::IntLiteral(1)]);
    let mut env = Environment::new();
    let mut out = Vec::new();
    assert_eq!(eval(&mut env, &mut out, &closure, 0), Ok(closure.clone()));
}

#[test]
fn the_built_in_func_checks_its_arguments() {
    let mut env = Environment::new();
    let mut out = Vec::new();
    let mut check = |args: Vec<Expr>| apply(&mut env, &mut out, Builtin::Func, &args, 5);
    let body = call("+", vec![ident("a"), ident("b")]);
    assert_eq!(
        check(vec![ident("a"), ident("b"), body.clone()]),
        Ok(call("func", vec![ident("a"), ident("b"), body.clone()]))
    );
    assert_eq!(check(vec![]), Err(RuntimeError::ArityMismatch));
    assert_eq!(check(vec![Expr::IntLiteral(1), body.clone()]), Err(RuntimeError::TypeMismatch));
    assert_eq!(check(vec![ident("a"), ident("b")]), Err(RuntimeError::TypeMismatch));
}

#[test]
fn the_branch_not_taken_is_not_evaluated() {
    assert_eq!(value_of("ifElse(true 1 2)"), Ok(Expr::IntLiteral(1)));
    assert_eq!(value_of("ifElse(false 1 2)"), Ok(Expr::IntLiteral(2)));
    assert_eq!(value_of("ifElse(true 1 nothing)"), Ok(Expr::IntLiteral(1)));
    assert_eq!(value_of("ifElse(false nothing(1) 2)"), Ok(Expr::IntLiteral(2)));
    assert_eq!(value_of("ifElse(false 1 nothing)"), Err(RuntimeError::UndeclaredVariable));
    let (lines, result) = printed("print(ifElse(>(2 1) print(\"yes\") print(\"no\")))");
    assert_eq!(result, Ok(()));
    assert_eq!(lines, vec!["yes", "yes"]);
    assert_eq!(value_of("ifElse(1 2 3)"), Err(RuntimeError::TypeMismatch));
    assert_eq!(value_of("ifElse(true 1)"), Err(RuntimeError::ArityMismatch));
    // As a statement too, the chosen branch is evaluated and the other is not.
    let (lines, result) = printed("ifElse(true print(\"a\") print(\"b\"))");
    assert_eq!(result, Ok(()));
    assert_eq!(lines, vec!["a"]);
    let (lines, result) = printed("ifElse(false print(\"a\") print(\"b\"))");
    assert_eq!(result, Ok(()));
    assert_eq!(lines, vec!["b"]);
}

#[test]
fn comparison_chains() {
    let yes = Ok(Expr::BooleanLiteral(true));
    let no = Ok(Expr::BooleanLiteral(false));
    assert_eq!(value_of(">(3 2 1)"), yes);
    assert_eq!(value_of(">(3 3 1)"), no);
    assert_eq!(value_of(">(3 2 2)"), no);
    assert_eq!(value_of("<(1 2 3)"), yes);
    assert_eq!(value_of("<(1 2 2)"), no);
    assert_eq!(value_of("<(1 2.5 3000000000)"), yes);
    assert_eq!(value_of(">(2.5 2)"), yes);
    assert_eq!(value_of(">(2 2.5)"), no);
    assert_eq!(value_of("==(\"a\" \"a\")"), yes);
    assert_eq!(value_of("==(\"a\" \"b\")"), no);
    assert_eq!(value_of("==(1 1.0 1)"), yes);
    assert_eq!(value_of("==(1 2)"), no);
    assert_eq!(value_of("==(2147483648 2147483648.0)"), yes);
    assert_eq!(value_of("==(1 \"a\")"), Err(RuntimeError::TypeMismatch));
    assert_eq!(value_of("==(\"a\" 1)"), Err(RuntimeError::TypeMismatch));
    assert_eq!(value_of(">(1 \"a\")"), Err(RuntimeError::TypeMismatch));
    assert_eq!(value_of(">(\"b\" \"a\")"), Err(RuntimeError::IncomparableTypes));
    assert_eq!(value_of(">(true 1)"), Err(RuntimeError::IncomparableTypes));
    assert_eq!(value_of("<(true 1)"), Err(RuntimeError::IncomparableTypes));
    assert_eq!(value_of("==(5)"), yes);
    assert_eq!(value_of(">(nothing)"), yes);
    assert_eq!(value_of("==()"), Err(RuntimeError::ArityMismatch));
    assert_eq!(value_of(">()"), Err(RuntimeError::ArityMismatch));
    assert_eq!(value_of("<()"), Err(RuntimeError::ArityMismatch));
}

#[test]
fn the_quirks_of_comparison_are_kept() {
    let yes = Ok(Expr::BooleanLiteral(true));
    let no = Ok(Expr::BooleanLiteral(false));
    // `<` on strings asks whether they are the same.
    assert_eq!(value_of("<(\"a\" \"a\")"), yes);
    assert_eq!(value_of("<(\"a\" \"b\")"), no);
    assert_eq!(value_of("<(\"a\" 1)"), Err(RuntimeError::TypeMismatch));
    // `==` compares numbers and strings; a boolean or a function on the
    // left is of the wrong kind.
    assert_eq!(value_of("==(true false)"), Err(RuntimeError::TypeMismatch));
    assert_eq!(value_of("==(true true)"), Err(RuntimeError::TypeMismatch));
    assert_eq!(value_of("==(true 1)"), Err(RuntimeError::TypeMismatch));
    assert_eq!(value_of("==(true \"a\")"), Err(RuntimeError::TypeMismatch));
    assert_eq!(value_of("==(func(a +(a)) 1)"), Err(RuntimeError::TypeMismatch));
    // A NaN is neither greater than or equal to nor less than or equal to a number.
    assert_eq!(value_of(">(nan 1)"), yes);
    assert_eq!(value_of("<(nan 1)"), yes);
    assert_eq!(value_of("==(nan nan)"), no);
    assert_eq!(check_pair(Builtin::Equal, &double(0.0), &double(-0.0)), Ok(true));
    assert_eq!(check_pair(Builtin::Less, &Expr::IntLiteral(1), &double(f64::INFINITY)), Ok(true));
    // The middle value of a chain is evaluated for both of its pairs.
    let (lines, result) = printed("print(==(1 +(print(1) 0) 1))");
    assert_eq!(result, Err(RuntimeError::TypeMismatch));
    assert_eq!(lines, vec!["1"]);
    let (lines, result) = printed("=(one func(ifElse(==(print(\"x\") \"x\") 1 1))) print(<(0 one() 2))");
    assert_eq!(result, Ok(()));
    assert_eq!(lines, vec!["x", "x", "true"]);
}

#[test]
fn undeclared_names_have_their_own_errors() {
    assert_eq!(value_of("+(nothing 1)"), Err(RuntimeError::UndeclaredVariable));
    assert_eq!(value_of("nothing(1)"), Err(RuntimeError::UndeclaredFunction));
    assert_eq!(run(program("print(nothing)")).result, Err(RuntimeError::UndeclaredVariable));
    assert_eq!(run(program("print(nothing())")).result, Err(RuntimeError::UndeclaredFunction));
    assert_eq!(run(program("nothing()")).result, Err(RuntimeError::UndeclaredFunction));
    // A bound function is called as a statement as it is anywhere.
    let (lines, result) = printed("=(f func(print(\"hi\"))) f()");
    assert_eq!(result, Ok(()));
    assert_eq!(lines, vec!["hi"]);
    assert_eq!(run(vec![Expr::IntLiteral(1)]).result, Err(RuntimeError::UnsupportedOperation));
    assert_eq!(run(vec![ident("x")]).result, Err(RuntimeError::UnsupportedOperation));
}

#[test]
fn printing_gives_the_text_and_returns_it() {
    let (lines, result) = printed(
        "print(1) print(-2000000000000) print(2.5) print(\"a b\") print(true) print(/(1.0 3)) \
         print(1e21) print(1e-7) print(-0.0) print(/(1.0 0)) print(/(0.0 0)) print(print(7))",
    );
    assert_eq!(result, Ok(()));
    assert_eq!(
        lines,
        vec![
            "1",
            "-2000000000000",
            "2.5",
            "a b",
            "true",
            "0.3333333333333333",
            "1000000000000000000000",
            "0.0000001",
            "-0",
            "inf",
            "NaN",
            "7",
            "7",
        ]
    );
    assert_eq!(value_of("print(7)"), Ok(Expr::StringLiteral("7".to_owned())));
    assert_eq!(value_of("print(func(a +(a)))"), Err(RuntimeError::TypeMismatch));
    assert_eq!(value_of("print()"), Err(RuntimeError::ArityMismatch));
    assert_eq!(value_of("print(1 2)"), Err(RuntimeError::ArityMismatch));
    assert_eq!(to_string(&ident("x")), Err(RuntimeError::TypeMismatch));
    assert_eq!(to_string(&call("f", vec![])), Err(RuntimeError::TypeMismatch));
    assert_eq!(to_string(&double(f64::NAN)), Ok("NaN".to_owned()));
}

#[test]
fn the_first_error_ends_the_run_and_keeps_what_was_printed() {
    let (lines, result) = printed("print(1) print(nothing) print(3)");
    assert_eq!(result, Err(RuntimeError::UndeclaredVariable));
    assert_eq!(lines, vec!["1"]);
    let (lines, result) = printed("");
    assert_eq!(result, Ok(()));
    assert!(lines.is_empty());
}

#[test]
fn recursion_runs_as_deep_as_the_program_asks() {
    let text = "=(fact func(n ifElse(<(n 2) 1 *(n fact(-(n 1)))))) print(fact(10))";
    let (lines, result) = printed(text);
    assert_eq!(result, Ok(()));
    assert_eq!(lines, vec!["3628800"]);
    let text = "=(sum func(n ifElse(<(n 1) 0 +(n sum(-(n 1)))))) print(sum(300))";
    let (lines, result) = printed(text);
    assert_eq!(result, Ok(()));
    assert_eq!(lines, vec!["45150"]);
}

#[test]
fn nesting_beyond_the_allowance_is_an_error() {
    let report = run_with_depth(program("=(f func(f())) print(f())"), 400);
    assert_eq!(report.result, Err(RuntimeError::DepthExceeded));
    assert!(report.output.is_empty());
    let report = run_with_depth(program("print(1)"), 0);
    assert_eq!(report.result, Err(RuntimeError::DepthExceeded));
    let report = run_with_depth(program("print(1)"), 1);
    assert_eq!(report.result, Ok(()));
    assert_eq!(report.output, vec!["1"]);
    let report = run_with_depth(program("print(+(1 2))"), 1);
    assert_eq!(report.result, Err(RuntimeError::DepthExceeded));
    let report = run_with_depth(program("print(+(1 2))"), 2);
    assert_eq!(report.result, Ok(()));
    assert_eq!(report.output, vec!["3"]);
    let report = run_with_depth(program("print(+(1 +(1 1)))"), 2);
    assert_eq!(report.result, Err(RuntimeError::DepthExceeded));
    let report = run_with_depth(program("print(+(1 +(1 1)))"), 3);
    assert_eq!(report.result, Ok(()));
    assert_eq!(report.output, vec!["3"]);
}
