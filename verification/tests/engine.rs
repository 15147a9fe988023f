use gameshell::cmdmat::{
    Decide, Decider, Decision, Either, Finalize, LookError, Mapping, RegError, SVec,
};
use gameshell::decision::Decision as Refusal;
use gameshell::feedback::Feedback as Outcome;
use gameshell::metac::{Data, Evaluate, ParseError};
use gameshell::predicates::{ANY_I32, MANY_I32, TWO_STRINGS};
use gameshell::predicates::Predicate;
use gameshell::types::Type;
use gameshell::{Evaluator, Feedback, Interpret};

/// A handler that counts its calls and answers with a fixed text.
#[derive(Clone, Copy, Debug, PartialEq)]
enum Say {
    Word(&'static str),
    Args,
    Fail(&'static str),
}

impl Finalize for Say {
    type Accept = Type;
    type Context = u32;
    fn finalize(&self, calls: &mut u32, args: &[Type]) -> Result<String, String> {
        *calls += 1;
        match self {
            Say::Word(word) => Ok(word.to_string()),
            Say::Args => Ok(format!("{:?}", args)),
            Say::Fail(message) => Err(message.to_string()),
        }
    }
}

type Tree<'a> = Mapping<'a, Predicate, Say>;
type Machine<'a> = Evaluator<'a, u32, Predicate, Say>;

#[test]
fn either_gives_its_side() {
    assert_eq!(Some(1), Either::<i32, &str>::Left(1).left());
    assert_eq!(None, Either::<i32, &str>::Left(1).right());
    assert_eq!(None, Either::<i32, &str>::Right("r").left());
    assert_eq!(Some("r"), Either::<i32, &str>::Right("r").right());
}

#[test]
fn a_decision_as_a_result() {
    assert_eq!(Ok(3), Decision::<String>::Accept(3).into_result());
    assert_eq!(Err("no"), Decision::Deny("no").into_result());
    assert_eq!(Decision::Accept(7), Decision::<()>::from_ok(7));
    assert_eq!(Decision::Deny("why"), Decision::from_error("why"));
}

#[test]
fn feedback_as_an_enum() {
    assert_eq!(Outcome::Okay(String::new()), Outcome::default());
    assert_eq!("out", Outcome::Okay("out".to_string()).unwrap());
    assert!(matches!(Refusal::Help("h".to_string()), Refusal::Help(_)));
    assert!(matches!(Refusal::Error("e".to_string()), Refusal::Error(_)));
}

#[test]
fn an_empty_tree_knows_nothing() {
    let tree: Tree = Mapping::default();
    assert_eq!(
        Err(LookError::FinalizerDoesNotExist),
        tree.lookup(&[]).map(|_| ())
    );
    assert_eq!(
        Err(LookError::UnknownMapping("missing".to_string())),
        tree.lookup(&["missing"]).map(|_| ())
    );
    assert_eq!(
        Err(LookError::UnknownMapping("a".to_string())),
        tree.lookup(&["a", "b"]).map(|_| ())
    );
    assert!(tree.decider().is_none());
    assert!(tree.finalizer().is_none());
    assert!(tree.iter().is_empty());
    assert!(tree.get_direct_keys().is_empty());
    assert!(tree.list().is_empty());
}

#[test]
fn a_handler_at_the_root() {
    let mut tree: Tree = Mapping::default();
    tree.register((&[], Say::Word("root"))).unwrap();
    assert_eq!(Some(Say::Word("root")), *tree.finalizer());
    let (handler, args) = tree.lookup(&[]).unwrap();
    assert_eq!(Say::Word("root"), *handler);
    assert!(args.is_empty());
    assert_eq!(
        Err(RegError::FinalizerAlreadyExists),
        tree.register((&[], Say::Word("again")))
    );
    assert_eq!(Some(Say::Word("root")), *tree.finalizer());
}

#[test]
fn a_refused_registration_changes_nothing() {
    let numbers = ANY_I32.decider();
    let mut tree: Tree = Mapping::default();
    tree.register((&[("a", None), ("b", Some(&numbers))], Say::Word("ab")))
        .unwrap();
    assert_eq!(
        Err(RegError::DeciderAlreadyExists),
        tree.register((
            &[("a", None), ("b", Some(&numbers)), ("c", None)],
            Say::Word("abc")
        ))
    );
    assert_eq!(
        Err(RegError::FinalizerAlreadyExists),
        tree.register((&[("a", None), ("b", None)], Say::Word("other")))
    );
    assert_eq!(vec!["a b <i32>".to_string()], tree.list());
    let (handler, args) = tree.lookup(&["a", "b", "5"]).unwrap();
    assert_eq!(Say::Word("ab"), *handler);
    assert!(matches!(args[..], [Type::I32(5)]));
}

#[test]
fn register_many_stops_at_the_first_refusal() {
    let mut tree: Tree = Mapping::default();
    assert_eq!(
        Err(RegError::FinalizerAlreadyExists),
        tree.register_many(&[
            (&[("a", None)], Say::Word("a")),
            (&[("b", None)], Say::Word("b")),
            (&[("a", None)], Say::Word("c")),
            (&[("d", None)], Say::Word("d")),
        ])
    );
    assert_eq!(vec!["a ".to_string(), "b ".to_string()], tree.list());
    assert_eq!(Ok(()), tree.register_many(&[(&[("d", None)], Say::Word("d"))]));
    assert_eq!(Ok(()), tree.register_many(&[]));
    assert_eq!(
        vec!["a ".to_string(), "b ".to_string(), "d ".to_string()],
        tree.list()
    );
}

#[test]
fn children_are_enumerated_in_the_order_of_registration() {
    let numbers = MANY_I32.decider();
    let mut tree: Tree = Mapping::default();
    tree.register((&[("zeta", Some(&numbers))], Say::Word("z")))
        .unwrap();
    tree.register((&[("alpha", None), ("beta", None)], Say::Word("ab")))
        .unwrap();
    let children = tree.iter();
    assert_eq!(
        vec!["zeta", "alpha"],
        children.iter().map(|c| c.0).collect::<Vec<_>>()
    );
    assert!(children[0].1.finalizer().is_some());
    assert!(children[0].1.decider().is_some());
    assert!(children[1].1.finalizer().is_none());
    let keys = tree.get_direct_keys();
    assert_eq!("zeta", keys[0].literal);
    assert_eq!("<i32> ...", keys[0].decider.unwrap().description);
    assert_eq!(Some(&Say::Word("z")), keys[0].finalizer);
    assert_eq!("alpha", keys[1].literal);
    assert!(keys[1].finalizer.is_none());
    assert_eq!("beta", keys[1].submap.iter()[0].0);
    assert_eq!(
        vec!["zeta <i32> ...".to_string(), "alpha beta ".to_string()],
        tree.list()
    );
}

#[test]
fn validators_gather_the_arguments_along_the_path() {
    let number = ANY_I32.decider();
    let two = TWO_STRINGS.decider();
    let mut tree: Tree = Mapping::default();
    tree.register((
        &[("set", Some(&number)), ("to", Some(&two)), ("now", None)],
        Say::Args,
    ))
    .unwrap();
    let (handler, args) = tree.lookup(&["set", "7", "to", "a", "b", "now"]).unwrap();
    assert_eq!(Say::Args, *handler);
    assert_eq!(
        "[I32(7), String(\"a\"), String(\"b\")]",
        format!("{:?}", args)
    );
    assert_eq!(
        Err(LookError::DeciderDenied(
            "<i32>".to_string(),
            "got string: x".to_string()
        )),
        tree.lookup(&["set", "x", "to", "a", "b", "now"]).map(|_| ())
    );
    assert_eq!(
        Err(LookError::DeciderDenied(
            "<string> <string>".to_string(),
            "expected 1 more string".to_string()
        )),
        tree.lookup(&["set", "7", "to", "a"]).map(|_| ())
    );
    assert_eq!(
        Err(LookError::FinalizerDoesNotExist),
        tree.lookup(&["set", "7", "to", "a", "b"]).map(|_| ())
    );
    assert_eq!(
        Err(LookError::UnknownMapping("later".to_string())),
        tree.lookup(&["set", "7", "to", "a", "b", "later"])
            .map(|_| ())
    );
}

#[test]
fn a_partial_lookup_stops_where_the_tokens_end() {
    let number = ANY_I32.decider();
    let mut tree: Tree = Mapping::default();
    tree.register((&[("set", Some(&number)), ("now", None)], Say::Args))
        .unwrap();
    let here = tree.partial_lookup(&[]).unwrap().left().unwrap();
    assert_eq!("set", here.iter()[0].0);
    assert_eq!(
        Some("<i32>"),
        tree.partial_lookup(&["set"]).unwrap().right()
    );
    let node = tree.partial_lookup(&["set", "5"]).unwrap().left().unwrap();
    assert_eq!("now", node.iter()[0].0);
    assert!(matches!(
        tree.partial_lookup(&["set", "five"]),
        Err(LookError::DeciderDenied(_, _))
    ));
    assert!(matches!(
        tree.partial_lookup(&["get"]),
        Err(LookError::UnknownMapping(_))
    ));
    let leaf = tree
        .partial_lookup(&["set", "5", "now"])
        .unwrap()
        .left()
        .unwrap();
    assert!(leaf.iter().is_empty());
    assert!(leaf.finalizer().is_some());
}

fn machine<'a>(call: &'a Decider<Predicate>) -> Machine<'a> {
    let mut eval: Machine = Evaluator::new(0);
    eval.register((&[("call", Some(call))], Say::Word("string")))
        .unwrap();
    eval.register((&[("show", Some(call))], Say::Args)).unwrap();
    eval.register((&[("fail", None)], Say::Fail("failed")))
        .unwrap();
    eval
}

fn nested(levels: usize) -> String {
    let mut call = "call".to_string();
    for _ in 0..levels {
        call += "(call";
    }
    call += " _";
    for _ in 0..levels {
        call += ")";
    }
    call
}

#[test]
fn the_limit_of_nesting_is_kept() {
    let any = Predicate::AnyString.decider();
    for limit in [0usize, 1, 2, 5] {
        let mut eval = machine(&any);
        eval.set_recursion_limit(limit);
        assert_eq!(
            Ok("string".to_string()),
            eval.interpret_single(&nested(limit)).unwrap()
        );
        assert_eq!(limit as u32 + 1, *eval.context());
        assert_eq!(0, eval.get_current_depth());

        *eval.context_mut() = 0;
        assert_eq!(
            Err(format!("Recursion limit reached: {}", limit)),
            eval.interpret_single(&nested(limit + 1)).unwrap()
        );
        assert_eq!(0, *eval.context());
        assert_eq!(0, eval.get_current_depth());
    }
}

#[test]
fn inner_commands_are_evaluated_first() {
    let any = Predicate::AnyString.decider();
    let mut eval = machine(&any);
    assert_eq!(
        Ok("[String(\"string\")]".to_string()),
        eval.interpret_single("show (call x)").unwrap()
    );
    assert_eq!(2, *eval.context());
    assert_eq!(
        Ok("[String(\"[String(\\\"string\\\")]\")]".to_string()),
        eval.interpret_single("show (show (call x))").unwrap()
    );
    assert_eq!(5, *eval.context());
}

#[test]
fn an_escaped_command_is_taken_as_it_stands() {
    let any = Predicate::AnyString.decider();
    let mut eval = machine(&any);
    assert_eq!(
        Ok("[String(\"call (x) y\")]".to_string()),
        eval.interpret_single("show (#call (x) y)").unwrap()
    );
    assert_eq!(1, *eval.context());
    assert_eq!(
        Ok("[String(\"\")]".to_string()),
        eval.interpret_single("show (#)").unwrap()
    );
}

#[test]
fn an_error_ends_the_statement_around_it() {
    let any = Predicate::AnyString.decider();
    let mut eval = machine(&any);
    assert_eq!(
        Err("failed".to_string()),
        eval.interpret_single("show (fail) (call x)").unwrap()
    );
    assert_eq!(1, *eval.context());
    assert_eq!(
        Err("Unrecognized mapping: x".to_string()),
        eval.interpret_single("show (x) (call y)").unwrap()
    );
    assert_eq!(1, *eval.context());
    assert_eq!(
        Err(ParseError::PrematureRightParenthesis),
        eval.interpret_single("show ) x")
    );
    assert_eq!(
        Err(ParseError::DanglingLeftParenthesis),
        eval.interpret_single("show ( x")
    );
    assert_eq!(0, eval.get_current_depth());
}

#[test]
fn failures_of_the_lookup_are_reported() {
    let any = Predicate::AnyString.decider();
    let mut eval = machine(&any);
    assert_eq!(
        Err("Unrecognized mapping: what".to_string()),
        eval.interpret_single("what now").unwrap()
    );
    assert_eq!(
        Err("Expected <string>. Decider: Too few elements: [], length: 0, expected: 1".to_string()),
        eval.interpret_single("call").unwrap()
    );
    assert_eq!(
        Err("Finalizer does not exist".to_string()),
        eval.interpret_single("").unwrap()
    );
    assert_eq!(
        Err("Finalizer does not exist".to_string()),
        eval.interpret_single(" \n ").unwrap()
    );
}

#[test]
fn completion_shows_what_may_follow() {
    let any = Predicate::AnyString.decider();
    let mut eval = machine(&any);
    eval.register((&[("call", None), ("twice", None)], Say::Word("2")))
        .unwrap();
    assert_eq!(
        Ok("call <string> (final), fail (final), show <string> (final)".to_string()),
        eval.interpret_single("autocomplete").unwrap()
    );
    assert_eq!(
        Ok("<string>".to_string()),
        eval.interpret_single("autocomplete call").unwrap()
    );
    assert_eq!(
        Ok("twice (final)".to_string()),
        eval.interpret_single("autocomplete call x").unwrap()
    );
    assert_eq!(
        Ok("No more handlers".to_string()),
        eval.interpret_single("autocomplete fail").unwrap()
    );
    assert_eq!(
        Err("Unrecognized mapping: nothing".to_string()),
        eval.interpret_single("autocomplete nothing").unwrap()
    );
    assert_eq!(0, *eval.context());
}

#[test]
fn help_lists_in_the_order_of_the_dictionary() {
    let any = Predicate::AnyString.decider();
    let mut eval: Machine = Evaluator::new(0);
    for name in ["b", "a", "B", "ab", "é", "a b"] {
        eval.register((&[(name, None)], Say::Word(""))).unwrap();
    }
    eval.register((&[("a", Some(&any)), ("x", None)], Say::Word("")))
        .unwrap_err();
    eval.register((&[("a", None), ("x", Some(&any))], Say::Word("")))
        .unwrap();
    assert_eq!(
        Ok("B \na \na b \na x <string>\nab \nb \né ".to_string()),
        eval.interpret_single("?").unwrap()
    );
    assert_eq!(
        Ok("a b \nab \nb ".to_string()),
        eval.interpret_single("? b").unwrap()
    );
    assert_eq!(
        Ok("a x <string>".to_string()),
        eval.interpret_single("? (#<.*>)").unwrap()
    );
    assert_eq!(
        Ok("".to_string()),
        eval.interpret_single("? zzz").unwrap()
    );
}

#[test]
fn several_statements() {
    let any = Predicate::AnyString.decider();
    let mut eval = machine(&any);
    assert_eq!(
        Ok(Ok("[String(\"b\")]".to_string())),
        eval.interpret_multiple("call a\n\nshow b\n")
    );
    assert_eq!(2, *eval.context());
    assert_eq!(Ok(Ok(String::new())), eval.interpret_multiple(" \n "));
    assert_eq!(
        Ok(Err("failed".to_string())),
        eval.interpret_multiple("call a\nfail")
    );
    assert_eq!(
        Ok(Ok("string".to_string())),
        eval.interpret_multiple("fail\ncall (#\nx\n)")
    );
    assert_eq!(
        Err(ParseError::PrematureRightParenthesis),
        eval.interpret_multiple("call a\ncall ) b")
    );
    assert_eq!(7, *eval.context());
}

#[test]
fn the_evaluator_is_an_evaluator_of_statements() {
    let any = Predicate::AnyString.decider();
    let mut eval = machine(&any);
    let tokens = [Data::Atom("show"), Data::Command("call x")];
    assert_eq!(
        Outcome::Okay("[String(\"string\")]".to_string()),
        Evaluate::evaluate(&mut eval, &tokens)
    );
    assert_eq!(
        Feedback::Ok("[String(\"string\")]".to_string()),
        eval.evaluate(&tokens)
    );
    assert_eq!(
        Ok(Outcome::Error("failed".to_string())),
        Interpret::interpret_single(&mut eval, "fail")
    );
    assert_eq!(
        Ok(Outcome::Okay(String::new())),
        Interpret::interpret_multiple(&mut eval, "")
    );
}

/// A validator that claims tokens without looking at them.
struct Greedy(usize);

impl Decide for Greedy {
    type Accept = Type;
    type Deny = String;
    fn decide(&self, _: &[&str], _: &mut SVec<Type>) -> Decision<String> {
        Decision::Accept(self.0)
    }
}

#[test]
fn a_validator_may_take_no_token_or_many() {
    let none = Decider {
        description: "<nothing>",
        decider: Greedy(0),
    };
    let three = Decider {
        description: "<three>",
        decider: Greedy(3),
    };
    let mut tree: Mapping<Greedy, Say> = Mapping::default();
    tree.register((&[("gate", Some(&none)), ("in", None)], Say::Word("in")))
        .unwrap();
    tree.register((&[("skip", Some(&three))], Say::Word("skipped")))
        .unwrap();
    assert_eq!(Say::Word("in"), *tree.lookup(&["gate", "in"]).unwrap().0);
    assert_eq!(
        Say::Word("skipped"),
        *tree.lookup(&["skip", "a", "b", "c"]).unwrap().0
    );
    assert_eq!(
        Err(LookError::DeciderAdvancedTooFar),
        tree.lookup(&["skip", "a", "b"]).map(|_| ())
    );
    assert_eq!(
        Err(LookError::UnknownMapping("d".to_string())),
        tree.lookup(&["skip", "a", "b", "c", "d"]).map(|_| ())
    );
}
