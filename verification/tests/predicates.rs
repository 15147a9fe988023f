use gameshell::cmdmat::{Decide, Decision};
use gameshell::predicates::{
    aslen, Predicate, ANY_ATOM, ANY_BASE64, ANY_BOOL, ANY_I32, ANY_STRING, ANY_U8, ANY_USIZE,
    IGNORE_ALL, MANY_I32, MANY_STRING, TWO_STRINGS,
};
use gameshell::types::Type;

fn run(predicate: Predicate, input: &[&str]) -> (Decision<String>, Vec<String>) {
    let mut out = vec![Type::Bool(false)];
    let decision = predicate.decide(input, &mut out);
    assert!(matches!(out[0], Type::Bool(false)));
    (
        decision,
        out[1..].iter().map(|value| format!("{:?}", value)).collect(),
    )
}

fn accepted(taken: usize, values: &[&str]) -> (Decision<String>, Vec<String>) {
    (
        Decision::Accept(taken),
        values.iter().map(|v| v.to_string()).collect(),
    )
}

fn denied(reason: &str) -> (Decision<String>, Vec<String>) {
    (Decision::Deny(reason.to_string()), Vec::new())
}

#[test]
fn aslen_counts_tokens() {
    assert_eq!(Ok(()), aslen(&[], 0));
    assert_eq!(Ok(()), aslen(&["a", "b"], 2));
    assert_eq!(Ok(()), aslen(&["a", "b", "c"], 2));
    assert_eq!(
        Err("Too few elements: [], length: 0, expected: 1".to_string()),
        aslen(&[], 1)
    );
    assert_eq!(
        Err("Too few elements: [\"a\", \"b c\"], length: 2, expected: 1203".to_string()),
        aslen(&["a", "b c"], 1203)
    );
}

#[test]
fn numbers_are_written_in_decimal() {
    let wanted = usize::MAX;
    assert_eq!(
        Err(format!(
            "Too few elements: [\"x\"], length: 1, expected: {}",
            wanted
        )),
        aslen(&["x"], wanted)
    );
    assert_eq!(
        Err("Too few elements: [\"x\"], length: 1, expected: 10".to_string()),
        aslen(&["x"], 10)
    );
}

#[test]
fn any_atom() {
    assert_eq!(accepted(1, &["Atom(\"word\")"]), run(ANY_ATOM, &["word", "x"]));
    assert_eq!(denied("two words"), run(ANY_ATOM, &["two words"]));
    assert_eq!(denied("a\u{2003}b"), run(ANY_ATOM, &["a\u{2003}b"]));
    assert_eq!(
        denied("Too few elements: [], length: 0, expected: 1"),
        run(ANY_ATOM, &[])
    );
}

#[test]
fn any_base64() {
    assert_eq!(
        accepted(1, &["Raw([104, 101, 108, 108, 111])"]),
        run(ANY_BASE64, &["aGVsbG8="])
    );
    assert_eq!(
        denied("Invalid byte 33, offset 0."),
        run(ANY_BASE64, &["!!!!"])
    );
    assert_eq!(
        denied("Too few elements: [], length: 0, expected: 1"),
        run(ANY_BASE64, &[])
    );
}

#[test]
fn any_bool() {
    assert_eq!(accepted(1, &["Bool(true)"]), run(ANY_BOOL, &["true"]));
    assert_eq!(accepted(1, &["Bool(false)"]), run(ANY_BOOL, &["false", "true"]));
    assert_eq!(denied("got string: True"), run(ANY_BOOL, &["True"]));
    assert_eq!(denied("got string: "), run(ANY_BOOL, &[""]));
}

#[test]
fn any_i32() {
    assert_eq!(accepted(1, &["I32(-17)"]), run(ANY_I32, &["-17"]));
    assert_eq!(accepted(1, &["I32(2147483647)"]), run(ANY_I32, &["+2147483647"]));
    assert_eq!(denied("got string: 2147483648"), run(ANY_I32, &["2147483648"]));
    assert_eq!(denied("got string: 1.5"), run(ANY_I32, &["1.5"]));
}

#[test]
fn any_u8() {
    assert_eq!(accepted(1, &["U8(255)"]), run(ANY_U8, &["255"]));
    assert_eq!(denied("got string: 256"), run(ANY_U8, &["256"]));
    assert_eq!(denied("got string: -1"), run(ANY_U8, &["-1"]));
}

#[test]
fn any_usize() {
    assert_eq!(accepted(1, &["Usize(0)"]), run(ANY_USIZE, &["0"]));
    let most = usize::MAX.to_string();
    assert_eq!(
        accepted(1, &[&format!("Usize({})", most)]),
        run(ANY_USIZE, &[&most])
    );
    assert_eq!(
        denied("got string: 340282366920938463463374607431768211456"),
        run(ANY_USIZE, &["340282366920938463463374607431768211456"])
    );
    assert_eq!(denied("got string: x"), run(ANY_USIZE, &["x"]));
}

#[test]
fn any_string() {
    assert_eq!(
        accepted(1, &["String(\"two words\")"]),
        run(ANY_STRING, &["two words", "more"])
    );
    assert_eq!(
        denied("Too few elements: [], length: 0, expected: 1"),
        run(ANY_STRING, &[])
    );
}

#[test]
fn ignore_all() {
    assert_eq!(accepted(0, &[]), run(IGNORE_ALL, &[]));
    assert_eq!(accepted(3, &[]), run(IGNORE_ALL, &["a", "1", "b c"]));
}

#[test]
fn many_i32() {
    assert_eq!(accepted(0, &[]), run(MANY_I32, &[]));
    assert_eq!(accepted(0, &[]), run(MANY_I32, &["x", "1"]));
    assert_eq!(
        accepted(2, &["I32(1)", "I32(-2)"]),
        run(MANY_I32, &["1", "-2", "x", "3"])
    );
    assert_eq!(
        accepted(3, &["I32(1)", "I32(2)", "I32(3)"]),
        run(MANY_I32, &["1", "2", "3"])
    );
}

#[test]
fn many_string() {
    assert_eq!(accepted(0, &[]), run(MANY_STRING, &[]));
    assert_eq!(
        accepted(2, &["String(\"a\")", "String(\"b c\")"]),
        run(MANY_STRING, &["a", "b c"])
    );
}

#[test]
fn two_strings() {
    assert_eq!(
        accepted(2, &["String(\"a\")", "String(\"b\")"]),
        run(TWO_STRINGS, &["a", "b", "c"])
    );
    assert_eq!(denied("expected 1 more string"), run(TWO_STRINGS, &["a"]));
    assert_eq!(
        denied("Too few elements: [], length: 0, expected: 2"),
        run(TWO_STRINGS, &[])
    );
}

#[test]
fn descriptions() {
    let all = [
        (ANY_ATOM, "<atom>"),
        (ANY_BASE64, "<base64>"),
        (ANY_BOOL, "<true/false>"),
        (ANY_I32, "<i32>"),
        (ANY_STRING, "<string>"),
        (ANY_U8, "<u8>"),
        (ANY_USIZE, "<usize>"),
        (IGNORE_ALL, "<anything> ..."),
        (MANY_I32, "<i32> ..."),
        (MANY_STRING, "<string> ..."),
        (TWO_STRINGS, "<string> <string>"),
    ];
    for (predicate, description) in all {
        assert_eq!(description, predicate.description());
        let decider = predicate.decider();
        assert_eq!(description, decider.description);
        assert_eq!(predicate, decider.decider);
    }
}
