use gameshell::metac::{parse, Data, Evaluate, Interpret, ParseError};

#[test]
fn empty_parse() {
    let line = "";
    let mut data = Vec::<Data>::new();
    parse(line, &mut data).unwrap();

    assert_eq![true, data.is_empty()];
}

#[test]
fn basic_parse() {
    let line = "Set Log Level 0";
    let mut data = Vec::<Data>::new();
    parse(line, &mut data).unwrap();

    assert_eq![4, data.len()];
    assert_eq![Data::Atom("Set"), data[0]];
    assert_eq![Data::Atom("Log"), data[1]];
    assert_eq![Data::Atom("Level"), data[2]];
    assert_eq![Data::Atom("0"), data[3]];
}

#[test]
fn parse_weird_whitespace() {
    let line = "Set Log\n\n\n Level  ( 0)";
    let mut data = Vec::<Data>::new();
    parse(line, &mut data).unwrap();

    assert_eq![4, data.len()];
    assert_eq![Data::Atom("Set"), data[0]];
    assert_eq![Data::Atom("Log"), data[1]];
    assert_eq![Data::Atom("Level"), data[2]];
    assert_eq![Data::Command(" 0"), data[3]];
}

#[test]
fn parse_unicode() {
    let line = "2";
    let mut data = Vec::<Data>::new();
    parse(line, &mut data).unwrap();

    assert_eq![1, data.len()];
}

#[test]
fn empty_subcommand_parse() {
    let line = "()";
    let mut data = Vec::<Data>::new();
    parse(line, &mut data).unwrap();

    assert_eq![1, data.len()];
    assert_eq![Data::Command(""), data[0]];
}

#[test]
fn empty_nested_subcommand_parse() {
    let line = "(())";
    let mut data = Vec::<Data>::new();
    parse(line, &mut data).unwrap();

    assert_eq![1, data.len()];
    assert_eq![Data::Command("()"), data[0]];
}

#[test]
fn empty_nested_subcommand_with_more_empty_parse() {
    let line = "(())()";
    let mut data = Vec::<Data>::new();
    parse(line, &mut data).unwrap();

    assert_eq![2, data.len()];
    assert_eq![Data::Command("()"), data[0]];
    assert_eq![Data::Command(""), data[1]];
}

#[test]
fn subcommand_parse() {
    let line = "Set Log Level (Get Log Level)";
    let mut data = Vec::<Data>::new();
    parse(line, &mut data).unwrap();

    assert_eq![4, data.len()];
    assert_eq![Data::Atom("Set"), data[0]];
    assert_eq![Data::Atom("Log"), data[1]];
    assert_eq![Data::Atom("Level"), data[2]];
    assert_eq![Data::Command("Get Log Level"), data[3]];
}

#[test]
fn subcommand_parse_multiline() {
    let line = "Set Log Level (\n\tGet Logger Levels\n)";
    let mut data = Vec::<Data>::new();
    parse(line, &mut data).unwrap();

    assert_eq![4, data.len()];
    assert_eq![Data::Atom("Set"), data[0]];
    assert_eq![Data::Atom("Log"), data[1]];
    assert_eq![Data::Atom("Level"), data[2]];
    assert_eq![Data::Command("\n\tGet Logger Levels\n"), data[3]];

    let mut new_data = Vec::<Data>::new();
    parse(data[3].content(), &mut new_data).unwrap();
    assert_eq![3, new_data.len()];
    assert_eq![Data::Atom("Get"), new_data[0]];
    assert_eq![Data::Atom("Logger"), new_data[1]];
    assert_eq![Data::Atom("Levels"), new_data[2]];
}

#[test]
fn fail_parse_too_long() {
    let line = "Lorem ipsum dolor sit amet, consectetur adipiscing elit. Suspendisse viverra porta lacus, quis pretium nibh lacinia at. Mauris convallis sed lectus nec dapibus. Interdum et malesuada fames ac ante ipsum primis in faucibus. Nulla vulputate sapien dui. Aliquam finibus ante ut purus facilisis, in sagittis tortor varius. Nunc interdum fermentum libero, et egestas arcu convallis sed. Maecenas nec diam a libero vulputate suscipit. Phasellus ac dolor ut nunc ultricies fringilla. Maecenas sed feugiat nunc. Vestibulum ante ipsum primis in faucibus orci luctus et ultrices posuere cubilia Curae. Quisque tincidunt metus ut ante dapibus, et molestie massa varius. Sed ultrices sapien sed mauris congue pretium. Pellentesque bibendum hendrerit sagittis. Vestibulum dignissim egestas feugiat. Ut porttitor et massa a posuere. Ut euismod metus a sem facilisis ullamcorper. Proin pharetra placerat enim";
    let mut data = Vec::<Data>::new();
    parse(line, &mut data).unwrap();
}

#[test]
fn fail_parse_closing_parenthesis() {
    let line = "command ) will not work";
    let mut data = Vec::<Data>::new();
    assert_eq![
        ParseError::PrematureRightParenthesis,
        parse(line, &mut data).unwrap_err()
    ];
}

#[test]
fn fail_parse_dangling_open_parenthesis() {
    let line = "command ( will not work";
    let mut data = Vec::<Data>::new();
    assert_eq![
        ParseError::DanglingLeftParenthesis,
        parse(line, &mut data).unwrap_err()
    ];
}

#[test]
fn interpret_empty() {
    struct Eval {
        pub invoked: usize,
    }
    impl Evaluate<()> for Eval {
        fn evaluate<'a>(&mut self, data: &[Data<'a>]) {
            assert_eq![0, data.len()];
            self.invoked += 1;
        }
    }
    let mut eval = Eval { invoked: 0 };

    let line = "";
    eval.interpret_single(line).unwrap();
    assert_eq![1, eval.invoked];
    eval.interpret_multiple(line).unwrap();
    assert_eq![1, eval.invoked];
}

#[test]
fn interpret_whitespace() {
    struct Eval {
        pub invoked: usize,
    }
    impl Evaluate<()> for Eval {
        fn evaluate<'a>(&mut self, data: &[Data<'a>]) {
            assert_eq![0, data.len()];
            self.invoked += 1;
        }
    }
    let mut eval = Eval { invoked: 0 };

    let line = " ";
    eval.interpret_single(line).unwrap();
    assert_eq![1, eval.invoked];
    eval.interpret_multiple(line).unwrap();
    assert_eq![1, eval.invoked];
    eval.interpret_multiple(" \n").unwrap();
    assert_eq![1, eval.invoked];
}

#[test]
fn interpret_unicode() {
    struct Eval {
        pub invoked: usize,
    }
    impl Evaluate<()> for Eval {
        fn evaluate<'a>(&mut self, _: &[Data<'a>]) {
            self.invoked += 1;
        }
    }
    let mut eval = Eval { invoked: 0 };

    let line = "2";
    eval.interpret_single(line).unwrap();
    eval.interpret_multiple(line).unwrap();
    assert_eq![2, eval.invoked];
}

#[test]
fn interpret_multiple_simple() {
    struct Eval {
        pub invoked: usize,
    }
    impl Evaluate<()> for Eval {
        fn evaluate<'a>(&mut self, _: &[Data<'a>]) {
            self.invoked += 1;
        }
    }
    let mut eval = Eval { invoked: 0 };

    eval.interpret_multiple("X\nY\nZ\nW (\n\t1 2 3\n) W-1\nQ")
        .unwrap();
    assert_eq![5, eval.invoked];
}

#[test]
fn interpret_multiple() {
    struct Eval {
        pub invoked: usize,
    }
    impl Evaluate<()> for Eval {
        fn evaluate<'a>(&mut self, commands: &[Data<'a>]) {
            self.invoked += 1;
            match self.invoked {
                1 => {
                    assert_eq![
                        &[
                            Data::Atom("Lorem"),
                            Data::Atom("ipsum"),
                            Data::Command("\n\tdolor sit amet\n\tX\n")
                        ],
                        commands
                    ];
                }
                2 => {
                    assert_eq![
                        &[
                            Data::Atom("dolor"),
                            Data::Atom("sit"),
                            Data::Atom("amet"),
                            Data::Atom("X")
                        ],
                        commands
                    ];
                }
                3 => {
                    assert_eq![&[Data::Atom("Singular")], commands];
                }
                _ => assert![false],
            }
            for command in commands {
                match command {
                    Data::Atom(_) => {}
                    Data::Command(string) => {
                        self.interpret_single(string).unwrap();
                    }
                }
            }
        }
    }
    let mut eval = Eval { invoked: 0 };

    eval.interpret_multiple("Lorem ipsum (\n\tdolor sit amet\n\tX\n)\nSingular")
        .unwrap();
    assert_eq![3, eval.invoked];
}

#[test]
fn evaluator() {
    struct Eval {
        pub invoked: usize,
    }
    impl Evaluate<()> for Eval {
        fn evaluate<'a>(&mut self, _: &[Data<'a>]) {
            self.invoked += 1;
        }
    }
    let mut eval = Eval { invoked: 0 };
    eval.interpret_single("Hello World").unwrap();
    assert_eq![1, eval.invoked];
    eval.interpret_single("This is an example (command)")
        .unwrap();
    assert_eq![2, eval.invoked];
}

#[test]
fn recursive_evaluator() {
    struct Eval {
        pub invoked: usize,
    }
    impl Evaluate<()> for Eval {
        fn evaluate<'a>(&mut self, commands: &[Data<'a>]) {
            self.invoked += 1;
            for command in commands {
                match command {
                    Data::Atom(_) => {}
                    Data::Command(string) => {
                        self.interpret_single(string).unwrap();
                    }
                }
            }
        }
    }
    let mut eval = Eval { invoked: 0 };
    eval.interpret_single("Hello World").unwrap();
    assert_eq![1, eval.invoked];
    eval.interpret_single("This is an example of substitution: (command)")
        .unwrap();
    assert_eq![3, eval.invoked];
    eval.interpret_single(
        "We can substitute more than once: (my command), anywhere: (another command here)",
    )
    .unwrap();
    assert_eq![6, eval.invoked];
    eval.interpret_single("We can also nest substitutions: (my (recursive (command) here))")
        .unwrap();
    assert_eq![10, eval.invoked];
    eval.interpret_single("a (\n\tb c\n)").unwrap();
    assert_eq![12, eval.invoked];
}
