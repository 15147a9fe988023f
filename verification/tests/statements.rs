use gameshell::metac::{parse, Data, Evaluate, Interpret, ParseError};

fn tokens(line: &str) -> Result<Vec<Data<'_>>, ParseError> {
    let mut data = Vec::new();
    parse(line, &mut data)?;
    Ok(data)
}

#[test]
fn four_atoms() {
    assert_eq!(
        vec![
            Data::Atom("Set"),
            Data::Atom("Log"),
            Data::Atom("Level"),
            Data::Atom("0")
        ],
        tokens("Set Log Level 0").unwrap()
    );
}

#[test]
fn three_atoms_and_a_command() {
    assert_eq!(
        vec![
            Data::Atom("Set"),
            Data::Atom("Log"),
            Data::Atom("Level"),
            Data::Command(" 0")
        ],
        tokens("Set Log Level ( 0)").unwrap()
    );
}

#[test]
fn unmatched_parentheses() {
    assert_eq!(
        Err(ParseError::PrematureRightParenthesis),
        tokens("command ) x")
    );
    assert_eq!(
        Err(ParseError::DanglingLeftParenthesis),
        tokens("command ( x")
    );
}

#[test]
fn a_premature_parenthesis_wins_over_a_dangling_one() {
    assert_eq!(
        Err(ParseError::PrematureRightParenthesis),
        tokens("a ) b ( c")
    );
    assert_eq!(Err(ParseError::DanglingLeftParenthesis), tokens("a ( b ) c ( d"));
}

#[test]
fn tokens_complete_before_an_error_are_handed_out() {
    let mut data = Vec::new();
    assert_eq!(
        Err(ParseError::PrematureRightParenthesis),
        parse("a (b) c ) d", &mut data)
    );
    assert_eq!(
        vec![Data::Atom("a"), Data::Command("b"), Data::Atom("c")],
        data
    );

    let mut data = Vec::new();
    assert_eq!(
        Err(ParseError::PrematureRightParenthesis),
        parse("a (b) c) d", &mut data)
    );
    assert_eq!(vec![Data::Atom("a"), Data::Command("b")], data);

    let mut data = Vec::new();
    assert_eq!(
        Err(ParseError::DanglingLeftParenthesis),
        parse("a b (c", &mut data)
    );
    assert_eq!(vec![Data::Atom("a"), Data::Atom("b")], data);
}

#[test]
fn tokens_are_appended() {
    let mut data = vec![Data::Atom("kept")];
    parse("x (y)", &mut data).unwrap();
    assert_eq!(
        vec![Data::Atom("kept"), Data::Atom("x"), Data::Command("y")],
        data
    );
}

#[test]
fn an_atom_ends_where_a_command_begins() {
    assert_eq!(
        vec![
            Data::Atom("call"),
            Data::Command("call _"),
            Data::Atom("x")
        ],
        tokens("call(call _)x").unwrap()
    );
    assert_eq!(
        vec![Data::Command("a"), Data::Command("b")],
        tokens("(a)(b)").unwrap()
    );
}

#[test]
fn characters_of_several_bytes() {
    assert_eq!(
        vec![
            Data::Atom("größe"),
            Data::Command("日本語 ✓"),
            Data::Atom("€")
        ],
        tokens("größe\u{a0}(日本語 ✓)\u{2003}€").unwrap()
    );
}

#[test]
fn content_is_the_text_of_a_token() {
    assert_eq!("abc", Data::Atom("abc").content());
    assert_eq!(" a (b) ", Data::Command(" a (b) ").content());
}

/// Puts the tokens back into the line and says what stands between them.
fn gaps_of(line: &str) -> Vec<String> {
    let mut rest = line;
    let mut gaps = Vec::new();
    for token in tokens(line).unwrap() {
        let rendered = match token {
            Data::Atom(text) => text.to_string(),
            Data::Command(text) => format!("({})", text),
        };
        let at = rest.find(&rendered).unwrap();
        gaps.push(rest[..at].to_string());
        rest = &rest[at + rendered.len()..];
    }
    gaps.push(rest.to_string());
    gaps
}

#[test]
fn tokens_and_white_space_make_up_the_line() {
    for line in [
        "",
        "   ",
        "Set Log Level 0",
        "  a\t(b (c) d)\n\n e(f)g  ",
        "(())()",
        "x(#literal (text))y",
    ] {
        let gaps = gaps_of(line);
        assert_eq!(tokens(line).unwrap().len() + 1, gaps.len());
        for gap in gaps {
            assert!(gap.chars().all(char::is_whitespace), "{:?} in {:?}", gap, line);
        }
    }
}

struct Recorder {
    statements: Vec<Vec<String>>,
}

impl Evaluate<usize> for Recorder {
    fn evaluate<'a>(&mut self, statement: &[Data<'a>]) -> usize {
        self.statements
            .push(statement.iter().map(|d| d.content().to_string()).collect());
        self.statements.len()
    }
}

fn statements_of(code: &str) -> (Result<usize, ParseError>, Vec<Vec<String>>) {
    let mut recorder = Recorder {
        statements: Vec::new(),
    };
    let result = recorder.interpret_multiple(code);
    (result, recorder.statements)
}

fn words(list: &[&[&str]]) -> Vec<Vec<String>> {
    list.iter()
        .map(|s| s.iter().map(|w| w.to_string()).collect())
        .collect()
}

#[test]
fn statements_end_at_line_feeds_outside_parentheses() {
    let (result, seen) = statements_of("a b\n\n  \nc (d\ne) f\ng");
    assert_eq!(Ok(3), result);
    assert_eq!(words(&[&["a", "b"], &["c", "d\ne", "f"], &["g"]]), seen);
}

#[test]
fn no_statement_gives_the_default() {
    assert_eq!((Ok(0), Vec::new()), statements_of(""));
    assert_eq!((Ok(0), Vec::new()), statements_of(" \n\t\n  "));
}

#[test]
fn an_empty_command_is_a_statement() {
    let (result, seen) = statements_of("()\nfoo");
    assert_eq!(Ok(2), result);
    assert_eq!(words(&[&[""], &["foo"]]), seen);
}

#[test]
fn a_premature_parenthesis_is_found_after_the_statements_before_it() {
    let (result, seen) = statements_of("a\nb\nc ) d\ne");
    assert_eq!(Err(ParseError::PrematureRightParenthesis), result);
    assert_eq!(words(&[&["a"], &["b"]]), seen);
}

#[test]
fn a_dangling_parenthesis_ends_the_last_statement() {
    let (result, seen) = statements_of("a\nb (c\nd");
    assert_eq!(Err(ParseError::DanglingLeftParenthesis), result);
    assert_eq!(words(&[&["a"]]), seen);
}

#[test]
fn one_statement_may_span_lines() {
    let mut recorder = Recorder {
        statements: Vec::new(),
    };
    assert_eq!(Ok(1), recorder.interpret_single("This is\na single statement"));
    assert_eq!(
        words(&[&["This", "is", "a", "single", "statement"]]),
        recorder.statements
    );
}
