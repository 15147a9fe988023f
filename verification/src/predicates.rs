//! Ready-made validators for commands.
use crate::cmdmat::{texts, Decide, Decider, Decision, SVec};
use crate::outside::{
    base64_decoded, decode_base64, parse_i32, parse_u64, parse_u8, parsed_i32, parsed_u64,
    parsed_u8, quote_list, quoted_list, whitespace,
};
use crate::text::{decimal, decimal_text, followed, has_whitespace, parse_bool, parsed_bool};
use crate::types::{values, Type, Value};
use vstd::prelude::*;

verus! {

/// The validators that this crate offers.
#[derive(Clone, Copy, Debug, PartialEq, Eq)]
pub enum Predicate {
    /// Takes one token without white space.
    AnyAtom,
    /// Takes one token in Base64.
    AnyBase64,
    /// Takes one truth value.
    AnyBool,
    /// Takes one `i32`.
    AnyI32,
    /// Takes one token, whatever it is.
    AnyString,
    /// Takes one `u8`.
    AnyU8,
    /// Takes one `usize`.
    AnyUsize,
    /// Takes all tokens and makes nothing of them.
    IgnoreAll,
    /// Takes `i32`s for as long as there are some.
    ManyI32,
    /// Takes all tokens as strings.
    ManyString,
    /// Takes two tokens as strings.
    TwoStrings,
}

/// A validator of this crate, or none.
pub type SomeDec = Option<&'static Decider<Predicate>>;

/// Takes one token without white space.
pub const ANY_ATOM: Predicate = Predicate::AnyAtom;

/// Takes one token in Base64.
pub const ANY_BASE64: Predicate = Predicate::AnyBase64;

/// Takes one truth value.
pub const ANY_BOOL: Predicate = Predicate::AnyBool;

/// Takes one `i32`.
pub const ANY_I32: Predicate = Predicate::AnyI32;

/// Takes one token, whatever it is.
pub const ANY_STRING: Predicate = Predicate::AnyString;

/// Takes one `u8`.
pub const ANY_U8: Predicate = Predicate::AnyU8;

/// Takes one `usize`.
pub const ANY_USIZE: Predicate = Predicate::AnyUsize;

/// Takes all tokens and makes nothing of them.
pub const IGNORE_ALL: Predicate = Predicate::IgnoreAll;

/// Takes `i32`s for as long as there are some.
pub const MANY_I32: Predicate = Predicate::ManyI32;

/// Takes all tokens as strings.
pub const MANY_STRING: Predicate = Predicate::ManyString;

/// Takes two tokens as strings.
pub const TWO_STRINGS: Predicate = Predicate::TwoStrings;

/// The description of a validator.
pub open spec fn description_of(p: Predicate) -> Seq<char> {
    match p {
        Predicate::AnyAtom => "<atom>"@,
        Predicate::AnyBase64 => "<base64>"@,
        Predicate::AnyBool => "<true/false>"@,
        Predicate::AnyI32 => "<i32>"@,
        Predicate::AnyString => "<string>"@,
        Predicate::AnyU8 => "<u8>"@,
        Predicate::AnyUsize => "<usize>"@,
        Predicate::IgnoreAll => "<anything> ..."@,
        Predicate::ManyI32 => "<i32> ..."@,
        Predicate::ManyString => "<string> ..."@,
        Predicate::TwoStrings => "<string> <string>"@,
    }
}

/// The complaint about an input of `length` tokens, listed as `listing`,
/// where `wanted` were asked for.
pub open spec fn too_few_of(listing: Seq<char>, length: nat, wanted: nat) -> Seq<char> {
    "Too few elements: "@ + listing + ", length: "@ + decimal(length) + ", expected: "@
        + decimal(wanted)
}

/// The complaint about an input of fewer than `wanted` tokens.
pub open spec fn too_few(input: Seq<Seq<char>>, wanted: nat) -> Seq<char> {
    too_few_of(quoted_list(input), input.len(), wanted)
}

/// Writes the complaint about an input of `length` tokens, listed as
/// `listing`, where `wanted` were asked for.
pub fn complain_of_too_few(listing: &str, length: usize, wanted: usize) -> (message: String)
    ensures
        message@ == too_few_of(listing@, length as nat, wanted as nat),
{
    let mut message = followed("Too few elements: ", listing);
    message.append(", length: ");
    message.append(decimal_text(length).as_str());
    message.append(", expected: ");
    message.append(decimal_text(wanted).as_str());
    message
}

/// Checks that an input has at least `input_l` tokens.
pub fn aslen(input: &[&str], input_l: usize) -> (r: Result<(), String>)
    ensures
        match r {
            Ok(_) => input@.len() >= input_l,
            Err(message) => input@.len() < input_l && message@ == too_few(
                texts(input@),
                input_l as nat,
            ),
        },
{
    if input.len() < input_l {
        assert(texts(input@) == Seq::new(input@.len(), |i: int| input@[i]@));
        Err(complain_of_too_few(quote_list(input).as_str(), input.len(), input_l))
    } else {
        Ok(())
    }
}

/// The complaint about a token that is not what was asked for.
pub open spec fn got(token: Seq<char>) -> Seq<char> {
    "got string: "@ + token
}

/// How many tokens at the front of an input stand for an `i32` each.
pub open spec fn leading_numbers(input: Seq<Seq<char>>) -> nat
    decreases input.len(),
{
    if input.len() == 0 || parsed_i32(input[0]) is None {
        0
    } else {
        1 + leading_numbers(input.skip(1))
    }
}

/// What has been read from a token for a validator that takes one token.
pub enum Reading {
    /// Whether the token holds white space.
    Blank(bool),
    /// The bytes that the token stands for in Base64, or the error.
    Bytes(Result<Seq<u8>, Seq<char>>),
    /// The truth value that the token stands for.
    Truth(Option<bool>),
    /// The `i32` that the token stands for.
    Int(Option<i32>),
    /// The `u8` that the token stands for.
    Byte(Option<u8>),
    /// The `u64` that the token stands for.
    Wide(Option<u64>),
}

/// What is read from a token for a validator that takes one token.
pub open spec fn reading(p: Predicate, token: Seq<char>) -> Reading {
    match p {
        Predicate::AnyBase64 => Reading::Bytes(base64_decoded(token)),
        Predicate::AnyBool => Reading::Truth(parsed_bool(token)),
        Predicate::AnyI32 => Reading::Int(parsed_i32(token)),
        Predicate::AnyU8 => Reading::Byte(parsed_u8(token)),
        Predicate::AnyUsize => Reading::Wide(parsed_u64(token)),
        _ => Reading::Blank(exists|i: int| 0 <= i < token.len() && whitespace(token[i])),
    }
}

/// What is made of a token of which `read` has been read, or the complaint:
/// an atom may hold no white space, and a number must be one, and within the
/// range of its type.
pub open spec fn made(token: Seq<char>, read: Reading) -> Result<Value, Seq<char>> {
    match read {
        Reading::Blank(blank) => if blank {
            Err(token)
        } else {
            Ok(Value::Atom(token))
        },
        Reading::Bytes(decoded) => match decoded {
            Ok(bytes) => Ok(Value::Raw(bytes)),
            Err(message) => Err(message),
        },
        Reading::Truth(Some(b)) => Ok(Value::Bool(b)),
        Reading::Int(Some(n)) => Ok(Value::I32(n)),
        Reading::Byte(Some(n)) => Ok(Value::U8(n)),
        Reading::Wide(Some(n)) => if n <= usize::MAX {
            Ok(Value::Usize(n as usize))
        } else {
            Err(got(token))
        },
        _ => Err(got(token)),
    }
}

/// What a validator that takes one token makes of it, or its complaint.
pub open spec fn taken(p: Predicate, token: Seq<char>) -> Result<Value, Seq<char>> {
    match p {
        Predicate::AnyAtom | Predicate::AnyBase64 | Predicate::AnyBool | Predicate::AnyI32
        | Predicate::AnyU8 | Predicate::AnyUsize => made(token, reading(p, token)),
        _ => Ok(Value::Text(token)),
    }
}

/// What has been read from a token, as it is handed on.
pub enum Read {
    /// Whether the token holds white space.
    Blank(bool),
    /// The bytes that the token stands for in Base64, or the error.
    Bytes(Result<Vec<u8>, String>),
    /// The truth value that the token stands for.
    Truth(Option<bool>),
    /// The `i32` that the token stands for.
    Int(Option<i32>),
    /// The `u8` that the token stands for.
    Byte(Option<u8>),
    /// The `u64` that the token stands for.
    Wide(Option<u64>),
}

impl View for Read {
    type V = Reading;

    open spec fn view(&self) -> Reading {
        match *self {
            Read::Blank(blank) => Reading::Blank(blank),
            Read::Bytes(Ok(bytes)) => Reading::Bytes(Ok(bytes@)),
            Read::Bytes(Err(message)) => Reading::Bytes(Err(message@)),
            Read::Truth(read) => Reading::Truth(read),
            Read::Int(read) => Reading::Int(read),
            Read::Byte(read) => Reading::Byte(read),
            Read::Wide(read) => Reading::Wide(read),
        }
    }
}

/// Makes an argument of a token of which `read` has been read, or complains.
pub fn make(token: &str, read: Read) -> (r: Result<Type, String>)
    ensures
        match r {
            Ok(value) => made(token@, read@) == Ok::<Value, Seq<char>>(value@),
            Err(message) => made(token@, read@) == Err::<Value, Seq<char>>(message@),
        },
{
    match read {
        Read::Blank(blank) => {
            if blank {
                Err(token.to_owned())
            } else {
                Ok(Type::Atom(token.to_owned()))
            }
        },
        Read::Bytes(decoded) => match decoded {
            Ok(bytes) => Ok(Type::Raw(bytes)),
            Err(message) => Err(message),
        },
        Read::Truth(Some(b)) => Ok(Type::Bool(b)),
        Read::Int(Some(n)) => Ok(Type::I32(n)),
        Read::Byte(Some(n)) => Ok(Type::U8(n)),
        Read::Wide(Some(n)) => {
            if n <= usize::MAX as u64 {
                Ok(Type::Usize(n as usize))
            } else {
                Err(followed("got string: ", token))
            }
        },
        _ => Err(followed("got string: ", token)),
    }
}

/// What a validator decides on an input: the values that it appends to the
/// argument buffer and how many tokens it takes, or why it refuses.
pub open spec fn verdict(p: Predicate, input: Seq<Seq<char>>) -> Result<Seq<Value>, Seq<char>> {
    match p {
        Predicate::IgnoreAll => Ok(Seq::empty()),
        Predicate::ManyI32 => Ok(
            Seq::new(leading_numbers(input), |i: int| Value::I32(parsed_i32(input[i])->0)),
        ),
        Predicate::ManyString => Ok(Seq::new(input.len(), |i: int| Value::Text(input[i]))),
        Predicate::TwoStrings => if input.len() == 1 {
            Err("expected 1 more string"@)
        } else if input.len() < 2 {
            Err(too_few(input, 2))
        } else {
            Ok(seq![Value::Text(input[0]), Value::Text(input[1])])
        },
        _ => if input.len() < 1 {
            Err(too_few(input, 1))
        } else {
            match taken(p, input[0]) {
                Ok(value) => Ok(seq![value]),
                Err(message) => Err(message),
            }
        },
    }
}

/// How many tokens a validator takes of an input that it accepts.
pub open spec fn consumed(p: Predicate, input: Seq<Seq<char>>) -> nat {
    match p {
        Predicate::IgnoreAll => input.len(),
        Predicate::ManyI32 => leading_numbers(input),
        Predicate::ManyString => input.len(),
        Predicate::TwoStrings => 2,
        _ => 1,
    }
}

impl Predicate {
    /// The description of the validator, as help and error messages show it.
    pub fn description(&self) -> (s: &'static str)
        ensures
            s@ == description_of(*self),
    {
        match self {
            Predicate::AnyAtom => "<atom>",
            Predicate::AnyBase64 => "<base64>",
            Predicate::AnyBool => "<true/false>",
            Predicate::AnyI32 => "<i32>",
            Predicate::AnyString => "<string>",
            Predicate::AnyU8 => "<u8>",
            Predicate::AnyUsize => "<usize>",
            Predicate::IgnoreAll => "<anything> ...",
            Predicate::ManyI32 => "<i32> ...",
            Predicate::ManyString => "<string> ...",
            Predicate::TwoStrings => "<string> <string>",
        }
    }

    /// The validator with its description, ready to be registered with a
    /// command.
    pub fn decider(self) -> (d: Decider<Predicate>)
        ensures
            d.decider == self,
            d.description@ == description_of(self),
    {
        Decider { description: self.description(), decider: self }
    }

    fn take_one(&self, token: &str) -> (r: Result<Type, String>)
        ensures
            match r {
                Ok(value) => taken(*self, token@) == Ok::<Value, Seq<char>>(value@),
                Err(message) => taken(*self, token@) == Err::<Value, Seq<char>>(message@),
            },
    {
        match self {
            Predicate::AnyAtom => make(token, Read::Blank(has_whitespace(token))),
            Predicate::AnyBase64 => make(token, Read::Bytes(decode_base64(token))),
            Predicate::AnyBool => make(token, Read::Truth(parse_bool(token))),
            Predicate::AnyI32 => make(token, Read::Int(parse_i32(token))),
            Predicate::AnyU8 => make(token, Read::Byte(parse_u8(token))),
            Predicate::AnyUsize => make(token, Read::Wide(parse_u64(token))),
            _ => Ok(Type::String(token.to_owned())),
        }
    }
}

impl Decide for Predicate {
    type Accept = Type;

    type Deny = String;

    /// A validator of this crate leaves the argument buffer as it was and
    /// appends what it has made of the tokens that it takes. Its decision is
    /// determined by the input.
    open spec fn decided(
        &self,
        input: Seq<Seq<char>>,
        before: Seq<Type>,
        after: Seq<Type>,
        decision: Decision<String>,
    ) -> bool {
        &&& before.len() <= after.len()
        &&& after.take(before.len() as int) == before
        &&& match verdict(*self, input) {
            Ok(produced) => {
                &&& decision == Decision::<String>::Accept(consumed(*self, input) as usize)
                &&& values(after.skip(before.len() as int)) == produced
            },
            Err(message) => decision matches Decision::Deny(reason) && reason@ == message,
        }
    }

    fn decide(&self, input: &[&str], out: &mut SVec<Type>) -> (decision: Decision<String>) {
        let ghost before = out@;
        assert(out@.take(before.len() as int) == before);
        match self {
            Predicate::IgnoreAll => {
                assert(values(out@.skip(before.len() as int)) == Seq::<Value>::empty());
                Decision::Accept(input.len())
            },
            Predicate::ManyI32 => {
                let mut cnt: usize = 0;
                let mut stopped = false;
                assert(texts(input@).skip(0) == texts(input@));
                assert(values(out@.skip(before.len() as int)) == Seq::<Value>::empty());
                while cnt < input.len() && !stopped
                    invariant
                        cnt <= input@.len(),
                        before.len() + cnt == out@.len(),
                        out@.take(before.len() as int) == before,
                        stopped ==> leading_numbers(texts(input@).skip(cnt as int)) == 0,
                        leading_numbers(texts(input@)) == cnt + leading_numbers(
                            texts(input@).skip(cnt as int),
                        ),
                        values(out@.skip(before.len() as int)) == Seq::new(
                            cnt as nat,
                            |i: int| Value::I32(parsed_i32(texts(input@)[i])->0),
                        ),
                    decreases input@.len() - cnt + (if stopped { 0int } else { 1int }),
                {
                    let ghost rest = texts(input@).skip(cnt as int);
                    assert(rest[0] == input@[cnt as int]@);
                    assert(rest.skip(1) == texts(input@).skip(cnt + 1));
                    match parse_i32(input[cnt]) {
                        Some(num) => {
                            let ghost had = out@;
                            out.push(Type::I32(num));
                            assert(out@.take(before.len() as int) == had.take(
                                before.len() as int,
                            ));
                            assert(values(out@.skip(before.len() as int)) == values(
                                had.skip(before.len() as int),
                            ).push(Value::I32(num)));
                            cnt += 1;
                        },
                        None => {
                            stopped = true;
                        },
                    }
                }
                assert(leading_numbers(texts(input@).skip(cnt as int)) == 0) by {
                    if !stopped {
                        assert(texts(input@).skip(cnt as int).len() == 0);
                    }
                }
                Decision::Accept(cnt)
            },
            Predicate::ManyString => {
                let mut cnt: usize = 0;
                while cnt < input.len()
                    invariant
                        cnt <= input@.len(),
                        before.len() + cnt == out@.len(),
                        out@.take(before.len() as int) == before,
                        values(out@.skip(before.len() as int)) == Seq::new(
                            cnt as nat,
                            |i: int| Value::Text(texts(input@)[i]),
                        ),
                    decreases input@.len() - cnt,
                {
                    let ghost had = out@;
                    out.push(Type::String(input[cnt].to_owned()));
                    assert(out@.take(before.len() as int) == had.take(before.len() as int));
                    assert(values(out@.skip(before.len() as int)) == values(
                        had.skip(before.len() as int),
                    ).push(Value::Text(input@[cnt as int]@)));
                    cnt += 1;
                }
                Decision::Accept(cnt)
            },
            Predicate::TwoStrings => {
                if input.len() == 1 {
                    return Decision::Deny("expected 1 more string".to_owned());
                }
                match aslen(input, 2) {
                    Err(message) => {
                        return Decision::Deny(message);
                    },
                    Ok(_) => {},
                }
                out.push(Type::String(input[0].to_owned()));
                out.push(Type::String(input[1].to_owned()));
                assert(out@.take(before.len() as int) == before);
                assert(values(out@.skip(before.len() as int)) == seq![
                    Value::Text(input@[0]@),
                    Value::Text(input@[1]@),
                ]);
                Decision::Accept(2)
            },
            _ => {
                match aslen(input, 1) {
                    Err(message) => {
                        return Decision::Deny(message);
                    },
                    Ok(_) => {},
                }
                match self.take_one(input[0]) {
                    Ok(value) => {
                        out.push(value);
                        assert(out@.take(before.len() as int) == before);
                        assert(values(out@.skip(before.len() as int)) == seq![value@]);
                        Decision::Accept(1)
                    },
                    Err(message) => Decision::Deny(message),
                }
            },
        }
    }
}

} // verus!
