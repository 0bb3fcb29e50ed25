use whim::args::{ArgsParser, Command, Error, Flag, Value};

fn tokens(args: &[&str]) -> Vec<String> {
    args.iter().map(|s| s.to_string()).collect()
}

fn vocabulary(args: &[&str]) -> ArgsParser {
    ArgsParser::new(tokens(args))
        .flag(Flag::Uint("flag0".into()))
        .flag(Flag::Bool("flag1".into()))
        .flag(Flag::Int("flag2".into()))
        .flag(Flag::Bool("f".into()))
        .flag(Flag::String("flag4".into()))
        .flag(Flag::Int("flag5".into()))
        .command(Command("command".into()))
}

#[test]
fn args_test() {
    let args = vec![
        "program", "command", "--flag0", "123", "--flag1", "true", "-f", "--flag4", "command",
        "--flag5", "-2",
    ];

    let flag0 = Flag::Uint("flag0".into());
    let flag1 = Flag::Bool("flag1".into());
    let flag2 = Flag::Int("flag2".into());
    let flag3 = Flag::Bool("f".into());
    let flag4 = Flag::String("flag4".into());
    let flag5 = Flag::Int("flag5".into());
    let cmd = Command("command".into());

    let parsed_args = ArgsParser::new(args.into_iter().map(String::from).collect())
        .flag(flag0.clone())
        .flag(flag1.clone())
        .flag(flag2.clone())
        .flag(flag3.clone())
        .flag(flag4.clone())
        .flag(flag5.clone())
        .command(cmd.clone())
        .parse()
        .unwrap();

    let flags = parsed_args.flags();

    assert_eq!(flags.get(&flag0), Some(&Some(Value::Uint(123))));
    assert_eq!(flags.get(&flag1), Some(&Some(Value::Bool(true))));
    assert_eq!(flags.get(&flag2), Some(&None));
    assert_eq!(flags.get(&flag3), Some(&Some(Value::Bool(true))));
    assert_eq!(flags.get(&flag4), Some(&Some(Value::String("command".to_owned()))));
    assert_eq!(flags.get(&flag5), Some(&Some(Value::Int(-2))));

    let commands = parsed_args.commands();

    assert_eq!(commands.len(), 1);
    assert_eq!(commands[0], cmd);
}

#[test]
fn scenario_without_program_name() {
    let parsed = vocabulary(&[
        "command", "--flag0", "123", "--flag1", "true", "-f", "--flag4", "command", "--flag5",
        "-2",
    ])
    .parse()
    .unwrap();
    let flags = parsed.flags();
    assert_eq!(flags.get(&Flag::Uint("flag0".into())), Some(&Some(Value::Uint(123))));
    assert_eq!(flags.get(&Flag::Bool("flag1".into())), Some(&Some(Value::Bool(true))));
    assert_eq!(flags.get(&Flag::Int("flag2".into())), Some(&None));
    assert_eq!(flags.get(&Flag::Bool("f".into())), Some(&Some(Value::Bool(true))));
    assert_eq!(
        flags.get(&Flag::String("flag4".into())),
        Some(&Some(Value::String("command".to_owned())))
    );
    assert_eq!(flags.get(&Flag::Int("flag5".into())), Some(&Some(Value::Int(-2))));
    assert_eq!(parsed.commands(), vec![Command("command".into())]);
}

#[test]
fn int_flag_rejects_text() {
    let r = vocabulary(&["--flag2", "abc"]).parse();
    assert_eq!(r.err(), Some(Error::MalformedArgument("abc".into())));
}

#[test]
fn unknown_flag_is_bad_flag() {
    let r = vocabulary(&["--unknown"]).parse();
    assert_eq!(r.err(), Some(Error::BadFlag));
}

#[test]
fn empty_input_gives_nothing() {
    let parsed = vocabulary(&[]).parse().unwrap();
    assert!(parsed.commands().is_empty());
    let flags = parsed.flags();
    assert_eq!(flags.get(&Flag::Uint("flag0".into())), Some(&None));
    assert_eq!(flags.get(&Flag::Bool("flag1".into())), Some(&None));
    assert_eq!(flags.get(&Flag::Bool("f".into())), Some(&None));
    assert_eq!(flags.get(&Flag::String("flag4".into())), Some(&None));
    assert_eq!(flags.get(&Flag::Uint("undeclared".into())), None);
}

#[test]
fn declaration_order_does_not_matter() {
    let a = ArgsParser::new(tokens(&["--x", "5"]))
        .flag(Flag::Uint("x".into()))
        .flag(Flag::Bool("y".into()))
        .parse()
        .unwrap()
        .flags();
    let b = ArgsParser::new(tokens(&["--x", "5"]))
        .flag(Flag::Bool("y".into()))
        .flag(Flag::Uint("x".into()))
        .parse()
        .unwrap()
        .flags();
    let x = Flag::Uint("x".into());
    let y = Flag::Bool("y".into());
    assert_eq!(a.get(&x), Some(&Some(Value::Uint(5))));
    assert_eq!(a.get(&x), b.get(&x));
    assert_eq!(a.get(&y), Some(&None));
    assert_eq!(a.get(&y), b.get(&y));
}

#[test]
fn value_flag_claims_command_and_dashed_tokens() {
    let parsed = vocabulary(&["--flag4", "command"]).parse().unwrap();
    assert!(parsed.commands().is_empty());
    assert_eq!(
        parsed.flags().get(&Flag::String("flag4".into())),
        Some(&Some(Value::String("command".into())))
    );
    let parsed = vocabulary(&["--flag4", "--flag0"]).parse().unwrap();
    assert_eq!(
        parsed.flags().get(&Flag::String("flag4".into())),
        Some(&Some(Value::String("--flag0".into())))
    );
    assert_eq!(parsed.flags().get(&Flag::Uint("flag0".into())), Some(&None));
    let parsed = vocabulary(&["--flag5", "-7"]).parse().unwrap();
    assert_eq!(parsed.flags().get(&Flag::Int("flag5".into())), Some(&Some(Value::Int(-7))));
}

#[test]
fn value_flag_with_unreadable_token_fails() {
    let r = vocabulary(&["--flag0", "-1"]).parse();
    assert_eq!(r.err(), Some(Error::MalformedArgument("-1".into())));
    let r = vocabulary(&["--flag0", "command"]).parse();
    assert_eq!(r.err(), Some(Error::MalformedArgument("command".into())));
}

#[test]
fn bool_flag_without_value_is_true() {
    let parsed = vocabulary(&["--flag1", "command"]).parse().unwrap();
    assert_eq!(parsed.flags().get(&Flag::Bool("flag1".into())), Some(&Some(Value::Bool(true))));
    assert_eq!(parsed.commands(), vec![Command("command".into())]);
    let parsed = vocabulary(&["--flag1", "-f"]).parse().unwrap();
    assert_eq!(parsed.flags().get(&Flag::Bool("flag1".into())), Some(&Some(Value::Bool(true))));
    assert_eq!(parsed.flags().get(&Flag::Bool("f".into())), Some(&Some(Value::Bool(true))));
}

#[test]
fn bool_flag_takes_following_value() {
    let parsed = vocabulary(&["--flag1", "false"]).parse().unwrap();
    assert_eq!(parsed.flags().get(&Flag::Bool("flag1".into())), Some(&Some(Value::Bool(false))));
    let r = vocabulary(&["--flag1", "maybe"]).parse();
    assert_eq!(r.err(), Some(Error::MalformedArgument("maybe".into())));
}

#[test]
fn single_and_double_dash() {
    let one = vocabulary(&["-f"]).parse().unwrap();
    let two = vocabulary(&["--f"]).parse().unwrap();
    let f = Flag::Bool("f".into());
    assert_eq!(one.flags().get(&f), Some(&Some(Value::Bool(true))));
    assert_eq!(two.flags().get(&f), Some(&Some(Value::Bool(true))));
    let r = vocabulary(&["-flag1"]).parse();
    assert_eq!(r.err(), Some(Error::MalformedArgument("-flag1".into())));
    let r = vocabulary(&["-"]).parse();
    assert_eq!(r.err(), Some(Error::MalformedArgument("-".into())));
    let r = vocabulary(&["-z"]).parse();
    assert_eq!(r.err(), Some(Error::BadFlag));
}

#[test]
fn last_write_wins() {
    let parsed = vocabulary(&["--flag0", "1", "--flag0", "2"]).parse().unwrap();
    assert_eq!(parsed.flags().get(&Flag::Uint("flag0".into())), Some(&Some(Value::Uint(2))));
    let parsed = vocabulary(&["--flag1", "false", "--flag1"]).parse().unwrap();
    assert_eq!(parsed.flags().get(&Flag::Bool("flag1".into())), Some(&Some(Value::Bool(true))));
}

#[test]
fn trailing_value_flag_has_no_value() {
    let parsed = vocabulary(&["--flag0"]).parse().unwrap();
    assert_eq!(parsed.flags().get(&Flag::Uint("flag0".into())), Some(&None));
}

#[test]
fn commands_keep_order_and_repeats() {
    let parsed = ArgsParser::new(tokens(&["b", "a", "x", "b"]))
        .command(Command("a".into()))
        .command(Command("b".into()))
        .parse()
        .unwrap();
    assert_eq!(
        parsed.commands(),
        vec![Command("b".into()), Command("a".into()), Command("b".into())]
    );
}

#[test]
fn numbers_read_as_std_reads_them() {
    let u = Flag::Uint("n".into());
    let i = Flag::Int("n".into());
    assert_eq!(u.parse_value("18446744073709551615"), Ok(Value::Uint(u64::MAX)));
    assert_eq!(
        u.parse_value("18446744073709551616"),
        Err(Error::MalformedArgument("18446744073709551616".into()))
    );
    assert_eq!(u.parse_value("+7"), Ok(Value::Uint(7)));
    assert_eq!(u.parse_value("007"), Ok(Value::Uint(7)));
    assert_eq!(u.parse_value(""), Err(Error::MalformedArgument("".into())));
    assert_eq!(u.parse_value("+"), Err(Error::MalformedArgument("+".into())));
    assert_eq!(i.parse_value("-9223372036854775808"), Ok(Value::Int(i64::MIN)));
    assert_eq!(i.parse_value("9223372036854775807"), Ok(Value::Int(i64::MAX)));
    assert_eq!(
        i.parse_value("9223372036854775808"),
        Err(Error::MalformedArgument("9223372036854775808".into()))
    );
    assert_eq!(i.parse_value("-"), Err(Error::MalformedArgument("-".into())));
    assert_eq!(i.parse_value("+12"), Ok(Value::Int(12)));
    assert_eq!(i.parse_value("1 2"), Err(Error::MalformedArgument("1 2".into())));
    let s = Flag::String("s".into());
    assert_eq!(s.parse_value("-x"), Ok(Value::String("-x".into())));
    let b = Flag::Bool("b".into());
    assert_eq!(b.parse_value("True"), Err(Error::MalformedArgument("True".into())));
}

#[test]
fn flag_names() {
    assert_eq!(Flag::Int("flag".into()).name(), "flag");
    assert!(Flag::Bool("f".into()).single_char());
    assert!(!Flag::Bool("ff".into()).single_char());
}

#[test]
fn command_parameters_follow_the_command() {
    let add = Command("add".into());
    let parsed = ArgsParser::new(tokens(&["whim", "add", "notes/a.md", "more", "--v"]))
        .command(add.clone())
        .flag(Flag::Bool("v".into()))
        .parse()
        .unwrap();
    assert_eq!(
        parsed.command_parameters(&add),
        Some(vec![Value::String("notes/a.md".into()), Value::String("more".into())])
    );
    assert_eq!(parsed.command_parameters(&Command("build".into())), None);
    let parsed = ArgsParser::new(tokens(&["add"])).command(add.clone()).parse().unwrap();
    assert_eq!(parsed.command_parameters(&add), Some(vec![]));
}
