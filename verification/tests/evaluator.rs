use crossbeam_channel::{bounded, Sender};
use gameshell::cmdmat::{Decide, Decider, Decision, Finalize, SVec};
use gameshell::predicates::{aslen, Predicate};
use gameshell::types::Type;
use gameshell::{Evaluator, Feedback};

/// The validators of the tests: those of the library and one for floats.
enum Dec {
    Lib(Predicate),
    AnyF32,
}

impl Decide for Dec {
    type Accept = Type;
    type Deny = String;
    fn decide(&self, input: &[&str], out: &mut SVec<Type>) -> Decision<String> {
        match self {
            Dec::Lib(predicate) => predicate.decide(input, out),
            Dec::AnyF32 => {
                if let Err(err) = aslen(input, 1) {
                    return Decision::Deny(err);
                }
                match input[0].parse::<f32>().ok() {
                    Some(num) => out.push(Type::F32(num.to_bits())),
                    None => return Decision::Deny("got string: ".to_string() + input[0]),
                }
                Decision::Accept(1)
            }
        }
    }
}

type SomeDec = Option<&'static Decider<Dec>>;

const ANY_ATOM: SomeDec = Some(&Decider {
    description: "<atom>",
    decider: Dec::Lib(Predicate::AnyAtom),
});
const ANY_BASE64: SomeDec = Some(&Decider {
    description: "<base64>",
    decider: Dec::Lib(Predicate::AnyBase64),
});
const ANY_F32: SomeDec = Some(&Decider {
    description: "<f32>",
    decider: Dec::AnyF32,
});
const ANY_STRING: SomeDec = Some(&Decider {
    description: "<string>",
    decider: Dec::Lib(Predicate::AnyString),
});
const MANY_I32: SomeDec = Some(&Decider {
    description: "<i32> ...",
    decider: Dec::Lib(Predicate::ManyI32),
});

/// A handler given as a plain function.
struct Call<C>(fn(&mut C, &[Type]) -> Result<String, String>);

impl<C> Finalize for Call<C> {
    type Accept = Type;
    type Context = C;
    fn finalize(&self, ctx: &mut C, args: &[Type]) -> Result<String, String> {
        (self.0)(ctx, args)
    }
}

type Eval<C> = Evaluator<'static, C, Dec, Call<C>>;

#[test]
fn evaluate_simple() {
    let mut eval: Eval<usize> = Evaluator::new(0usize);

    fn handler(_context: &mut usize, _args: &[Type]) -> Result<String, String> {
        Ok("".into())
    }

    eval.register((&[("call", None)], Call(handler))).unwrap();
    assert_eq!(
        Feedback::Ok("".into()),
        eval.interpret_single("call").unwrap()
    );
}

#[test]
fn list_available() {
    let mut eval: Eval<usize> = Evaluator::new(0usize);

    fn handler(_context: &mut usize, _args: &[Type]) -> Result<String, String> {
        Ok("fafa".into())
    }

    eval.register((&[("call", ANY_F32), ("something", None)], Call(handler)))
        .unwrap();
    eval.register((&[("call", None), ("abc", MANY_I32)], Call(handler)))
        .unwrap();
    eval.register((
        &[("log", None), ("context", MANY_I32), ("level", ANY_ATOM)],
        Call(handler),
    ))
    .unwrap();
    assert_eq!(
        Feedback::Ok("call <f32> abc <i32> ...\ncall <f32> something \nlog context <i32> ... level <atom>".into()),
        eval.interpret_single("?").unwrap()
    );
}

#[test]
fn list_available_using_regex() {
    let mut eval: Eval<usize> = Evaluator::new(0usize);

    fn handler(_context: &mut usize, _args: &[Type]) -> Result<String, String> {
        Ok("fafa".into())
    }

    eval.register((&[("call", ANY_F32), ("something", None)], Call(handler)))
        .unwrap();
    eval.register((&[("call", None), ("abc", MANY_I32)], Call(handler)))
        .unwrap();
    eval.register((
        &[("log", None), ("context", MANY_I32), ("level", ANY_ATOM)],
        Call(handler),
    ))
    .unwrap();
    assert_eq!(
        Feedback::Ok("call <f32> abc <i32> ...\ncall <f32> something ".into()),
        eval.interpret_single("? call").unwrap()
    );
    assert_eq!(
        Feedback::Ok("call <f32> abc <i32> ...".into()),
        eval.interpret_single("? abc").unwrap()
    );
    assert_eq!(
        Feedback::Err("Regex could not be compiled: regex parse error:\n    .*\\x.*\n        ^\nerror: invalid hexadecimal digit".into()),
        eval.interpret_single("? \\x").unwrap()
    );
}

#[test]
fn evaluate_any_f32() {
    let mut eval: Eval<usize> = Evaluator::new(0usize);

    fn handler(_context: &mut usize, _args: &[Type]) -> Result<String, String> {
        Ok("".into())
    }

    eval.register((&[("call", ANY_F32)], Call(handler))).unwrap();
    assert_eq!(
        Feedback::Err(
            "Expected <f32>. Decider: Too few elements: [], length: 0, expected: 1".into()
        ),
        eval.interpret_single("call").unwrap()
    );
    assert_eq!(
        Feedback::Ok("".into()),
        eval.interpret_single("call 3.14159").unwrap()
    );
    assert_eq!(
        Feedback::Ok("".into()),
        eval.interpret_single("call 3").unwrap()
    );
    assert_eq!(
        Feedback::Err("Expected <f32>. Decider: got string: alpha".into()),
        eval.interpret_single("call alpha").unwrap()
    );
}

#[test]
fn a_command_triggers_a_channel() {
    let (tx, rx) = bounded(1);

    let mut eval: Eval<Sender<f32>> = Evaluator::new(tx);

    fn handler(context: &mut Sender<f32>, args: &[Type]) -> Result<String, String> {
        match args[0] {
            Type::F32(number) => context.send(f32::from_bits(number)).unwrap(),
            _ => panic!("Input was not an f32"),
        }
        Ok("".into())
    }

    eval.register((&[("call", ANY_F32)], Call(handler))).unwrap();

    eval.interpret_single("call 3.14159").unwrap().unwrap();

    assert_eq!(3.14159, rx.recv().unwrap());
}

#[test]
fn base64_decoding_into_raw() {
    let (tx, rx) = bounded(1);

    let mut eval: Eval<Sender<Vec<u8>>> = Evaluator::new(tx);

    fn handler(context: &mut Sender<Vec<u8>>, args: &[Type]) -> Result<String, String> {
        match args[0] {
            Type::Raw(ref bytes) => context.send(bytes.clone()).unwrap(),
            _ => panic!("Input not raw bytes"),
        }
        Ok("".into())
    }

    eval.register((&[("call", ANY_BASE64)], Call(handler)))
        .unwrap();

    eval.interpret_single("call iVBORw0KGgo").unwrap().unwrap();

    // PNG magic number
    const PNG_MAGIC_NUMBER: &[u8] = &[0x89, 0x50, 0x4e, 0x47, 0x0d, 0x0a, 0x1a, 0x0a];
    assert_eq!(PNG_MAGIC_NUMBER, &rx.recv().unwrap()[..]);
}

#[test]
fn touching_subcommand() {
    let mut eval: Eval<u32> = Evaluator::new(0u32);

    fn handler(context: &mut u32, _: &[Type]) -> Result<String, String> {
        *context += 1;
        Ok("string".into())
    }

    eval.register((&[("call", ANY_STRING)], Call(handler)))
        .unwrap();
    eval.interpret_single("call(call _)").unwrap().unwrap();
    assert_eq!(2, *eval.context());
    eval.interpret_single("call(call(call _))")
        .unwrap()
        .unwrap();
    assert_eq!(2 + 3, *eval.context());
    eval.interpret_multiple("call(call(call _))")
        .unwrap()
        .unwrap();
    assert_eq!(2 + 3 + 3, *eval.context());
}

#[test]
fn recursive_call_stack() {
    let mut eval: Eval<()> = Evaluator::new(());

    fn handler(_: &mut (), _: &[Type]) -> Result<String, String> {
        Ok("string".into())
    }

    eval.register((&[("call", ANY_STRING)], Call(handler)))
        .unwrap();

    let mut call = "call".to_string();
    let count = 1000;
    for _ in 0..count {
        call += "(call";
    }
    call += " _";
    for _ in 0..count {
        call += ")";
    }

    assert_eq!(
        Err("Recursion limit reached: 100".into()),
        eval.interpret_single(&call).unwrap()
    );
    assert_eq!(0, eval.get_current_depth());
}

#[test]
fn question_only_handles_one() {
    let mut eval: Eval<()> = Evaluator::new(());
    assert_eq!("", eval.interpret_single("? _").unwrap().unwrap());
    assert_eq!(
        "Too many arguments to: ?",
        eval.interpret_single("? _ _").unwrap().unwrap_err()
    );
    assert_eq!(
        "Too many arguments to: ?",
        eval.interpret_single("? _ _ _ _ _").unwrap().unwrap_err()
    );
    assert_eq!(
        "Too many arguments to: ?",
        eval.interpret_multiple("? _ _ _ _ _").unwrap().unwrap_err()
    );
}

#[test]
fn override_builtins() {
    let mut eval: Eval<()> = Evaluator::new(());

    assert_eq!(Ok("".into()), eval.interpret_single("?").unwrap());

    fn handler(_: &mut (), _: &[Type]) -> Result<String, String> {
        Err("? is not available".into())
    }
    eval.register((&[("?", None)], Call(handler))).unwrap();

    assert_eq!(
        Err("? is not available".into()),
        eval.interpret_single("?").unwrap()
    );

    assert_eq!(
        Ok("? (final)".into()),
        eval.interpret_single("autocomplete").unwrap()
    );

    fn autocomplete_handler(_: &mut (), _: &[Type]) -> Result<String, String> {
        Err("autocomplete is not available".into())
    }
    eval.register((&[("autocomplete", None)], Call(autocomplete_handler)))
        .unwrap();

    assert_eq!(
        Err("autocomplete is not available".into()),
        eval.interpret_single("autocomplete").unwrap()
    );
}
