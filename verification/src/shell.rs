//! What a shell on a byte stream decides: how the boundaries found in the
//! stream are judged, and what is answered to a statement that has arrived.
//! Reading the stream and writing the answers is left to the caller.
use crate::cmdmat::{said, Decide, Finalize};
use crate::evaluator::{interpreted, outcome, Evaluator};
use crate::incconsumer::{Consumption, Process, Validation};
use crate::metac::{ParseError, PartialParseOp};
use crate::outside::{quote, quoted};
use crate::text::followed;
use crate::types::Type;
use vstd::prelude::*;

verus! {

/// The notice for a statement that does not fit into the buffer.
pub open spec fn buffer_full() -> Seq<char> {
    "DecodeError(\"Internal buffer is full, disconnecting\")"@
}

/// The notice for bytes that are not UTF-8.
pub open spec fn not_utf8() -> Seq<char> {
    "DecodeError(\"Received invalid UTF-8 input, disconnecting\")"@
}

/// The name of a parse error.
pub open spec fn error_name(e: ParseError) -> Seq<char> {
    match e {
        ParseError::DanglingLeftParenthesis => "DanglingLeftParenthesis"@,
        ParseError::PrematureRightParenthesis => "PrematureRightParenthesis"@,
    }
}

/// The answer that is sent for an outcome of which the output or the error
/// message stands quoted already: the quoted text inside `Ok(..)` or
/// `Err(..)`, or the name of the parse error.
pub open spec fn framing(result: Result<Result<Seq<char>, Seq<char>>, ParseError>) -> Seq<char> {
    match result {
        Ok(Ok(output)) => "Ok("@ + output + ")"@,
        Ok(Err(message)) => "Err("@ + message + ")"@,
        Err(e) => "ParseError(\"Unable to parse input: "@ + error_name(e) + "\")"@,
    }
}

/// The answer that is sent for the outcome of a statement: the output or the
/// error message, quoted, inside `Ok(..)` or `Err(..)`, or the name of the
/// parse error.
pub open spec fn framed(result: Result<Result<Seq<char>, Seq<char>>, ParseError>) -> Seq<char> {
    framing(
        match result {
            Ok(Ok(output)) => Ok(Ok(quoted(output))),
            Ok(Err(message)) => Ok(Err(quoted(message))),
            Err(e) => Err(e),
        },
    )
}

/// Frames an outcome of which the output or the error message stands quoted
/// already.
pub fn frame(result: Result<Result<String, String>, ParseError>) -> (reply: String)
    ensures
        reply@ == framing(outcome(result)),
{
    let reply = match result {
        Ok(Ok(output)) => {
            let mut reply = followed("Ok(", output.as_str());
            reply.append(")");
            reply
        },
        Ok(Err(message)) => {
            let mut reply = followed("Err(", message.as_str());
            reply.append(")");
            reply
        },
        Err(ParseError::DanglingLeftParenthesis) => {
            "ParseError(\"Unable to parse input: DanglingLeftParenthesis\")".to_owned()
        },
        Err(ParseError::PrematureRightParenthesis) => {
            "ParseError(\"Unable to parse input: PrematureRightParenthesis\")".to_owned()
        },
    };
    proof {
        reveal_strlit("ParseError(\"Unable to parse input: DanglingLeftParenthesis\")");
        reveal_strlit("ParseError(\"Unable to parse input: PrematureRightParenthesis\")");
        reveal_strlit("ParseError(\"Unable to parse input: ");
        reveal_strlit("DanglingLeftParenthesis");
        reveal_strlit("PrematureRightParenthesis");
        reveal_strlit("\")");
        assert(framing(outcome(result)) =~= reply@);
    }
    reply
}

/// The notice to send when the source is offered a buffer without room: the
/// statement under way does not fit, and the connection is to be closed.
pub fn buffer_full_notice() -> (notice: &'static str)
    ensures
        notice@ == buffer_full(),
{
    "DecodeError(\"Internal buffer is full, disconnecting\")"
}

/// What a read from the source means: a read that failed, and one that
/// brought no byte, end the session; any other has brought so many bytes.
pub fn fetched(read: Option<usize>) -> (c: Consumption)
    ensures
        c == match read {
            Some(count) => if count == 0 {
                Consumption::Stop
            } else {
                Consumption::Consumed(count)
            },
            None => Consumption::Stop,
        },
{
    match read {
        Some(0) => Consumption::Stop,
        Some(count) => Consumption::Consumed(count),
        None => Consumption::Stop,
    }
}

/// What the verdict of the statement parser on a byte means for the bytes
/// gathered in the buffer.
pub fn judge(op: PartialParseOp) -> (v: Validation)
    ensures
        v == match op {
            PartialParseOp::Ready => Validation::Ready,
            PartialParseOp::Unready => Validation::Unready,
            PartialParseOp::Discard => Validation::Discard,
        },
{
    match op {
        PartialParseOp::Ready => Validation::Ready,
        PartialParseOp::Unready => Validation::Unready,
        PartialParseOp::Discard => Validation::Discard,
    }
}

/// Whether `reply` and `next` answer the bytes `input` when the evaluator
/// goes from the context `before` to the context `after`.
///
/// Bytes that are not UTF-8 change nothing, are answered with a notice and
/// end the session. Any other bytes are interpreted as one statement, whose
/// outcome is framed and sent, and the session goes on.
pub open spec fn answered_to<'a, C, V, H>(
    before: Evaluator<'a, C, V, H>,
    input: Seq<u8>,
    after: Evaluator<'a, C, V, H>,
    reply: Seq<char>,
    next: Process,
) -> bool where
    V: Decide<Accept = Type, Deny = String>,
    H: Finalize<Accept = Type, Context = C>,
 {
    if vstd::utf8::valid_utf8(input) {
        interpreted_and_framed(before, vstd::utf8::decode_utf8(input), after, reply)
            && next == Process::Continue
    } else {
        after.state() == before.state() && reply == not_utf8() && next == Process::Stop
    }
}

/// Whether `reply` frames an outcome of interpreting `line` that takes the
/// evaluator from the context `before` to the context `after`.
pub open spec fn interpreted_and_framed<'a, C, V, H>(
    before: Evaluator<'a, C, V, H>,
    line: Seq<char>,
    after: Evaluator<'a, C, V, H>,
    reply: Seq<char>,
) -> bool where
    V: Decide<Accept = Type, Deny = String>,
    H: Finalize<Accept = Type, Context = C>,
 {
    exists|result: Result<Result<Seq<char>, Seq<char>>, ParseError>|
        {
            &&& interpreted(
                before.tree(),
                before.limit(),
                before.depth(),
                before.state(),
                line,
                after.state(),
                result,
            )
            &&& #[trigger] framed(result) == reply
        }
}

/// Answers a unit of bytes that has arrived: interprets it as a statement and
/// gives the text to send back and whether the session goes on.
pub fn respond<'a, C, V, H>(evaluator: &mut Evaluator<'a, C, V, H>, input: &[u8]) -> (r: (
    String,
    Process,
)) where V: Decide<Accept = Type, Deny = String>, H: Finalize<Accept = Type, Context = C>
    requires
        old(evaluator).wf(),
    ensures
        old(evaluator).kept(*final(evaluator)),
        answered_to(*old(evaluator), input@, *final(evaluator), r.0@, r.1),
{
    match core::str::from_utf8(input) {
        Ok(string) => {
            proof {
                vstd::utf8::encode_utf8_decode_utf8(string@);
            }
            let result = evaluator.interpret_single(string);
            let ghost seen = outcome(result);
            let reply = frame(
                match result {
                    Ok(Ok(res)) => Ok(Ok(quote(res.as_str()))),
                    Ok(Err(res)) => Ok(Err(quote(res.as_str()))),
                    Err(e) => Err(e),
                },
            );
            assert(framed(seen) == reply@);
            (reply, Process::Continue)
        },
        Err(_) => (
            "DecodeError(\"Received invalid UTF-8 input, disconnecting\")".to_owned(),
            Process::Stop,
        ),
    }
}

} // verus!
