//! The evaluator: it runs statements against a tree of registered commands.
use crate::cmdmat::{
    found, reached, said, steps, texts, Decide, Decider, Either, Finalize, LookError, LookFailure,
    Mapping, RegError, Spec,
};
use crate::metac::{
    cut, emitted, interprets, interprets_all, interprets_text, parse, statement, statements,
    tokens, Data, Evaluate, Interpret, ParseError, Token,
};
use crate::outside::{find_matches, regex_matches, same_text, sort_texts};
use crate::text::{ascending, decimal, decimal_text, followed, join, joined, lines};
use crate::types::Type;
use vstd::prelude::*;
use vstd::std_specs::iter::IteratorSpec;

verus! {

/// What the evaluation of a statement gives: an output, or an error message.
/// An error ends the evaluation of the statements around it.
pub type Feedback = Result<String, String>;

/// The character that marks the text of a sub-command as a string to be
/// taken as it is.
pub const ESCAPE: char = '#';

/// The message for a sub-command nested deeper than the limit allows.
pub open spec fn limit_message(limit: nat) -> Seq<char> {
    "Recursion limit reached: "@ + decimal(limit)
}

/// The message for a sub-command that is no statement.
pub open spec fn parse_message(e: ParseError) -> Seq<char> {
    match e {
        ParseError::DanglingLeftParenthesis => "Dangling left parenthesis"@,
        ParseError::PrematureRightParenthesis =>
            "Right parenthesis encountered with no matching left parenthesis"@,
    }
}

/// The message for a lookup that failed.
pub open spec fn look_message(e: LookFailure<String>) -> Seq<char> {
    match e {
        LookFailure::DeciderAdvancedTooFar => "Decider advanced too far"@,
        LookFailure::DeciderDenied(description, reason) => "Expected "@ + description
            + ". Decider: "@ + reason@,
        LookFailure::FinalizerDoesNotExist => "Finalizer does not exist"@,
        LookFailure::UnknownMapping(token) => "Unrecognized mapping: "@ + token,
    }
}

/// Turns the failure of a lookup into the feedback for it.
pub fn lookerr_to_evalres(err: LookError<String>) -> (fb: Feedback)
    ensures
        said(fb) == Err::<Seq<char>, Seq<char>>(look_message(err@)),
{
    match err {
        LookError::DeciderAdvancedTooFar => Err("Decider advanced too far".to_owned()),
        LookError::DeciderDenied(desc, decider) => {
            let mut message = followed("Expected ", desc.as_str());
            message.append(". Decider: ");
            message.append(decider.as_str());
            Err(message)
        },
        LookError::FinalizerDoesNotExist => Err("Finalizer does not exist".to_owned()),
        LookError::UnknownMapping(token) => Err(followed("Unrecognized mapping: ", token.as_str())),
    }
}

/// Whether `arranged` holds the texts of `list`, each as often, in the order
/// of the dictionary.
pub open spec fn sorted_from(list: Seq<Seq<char>>, arranged: Seq<Seq<char>>) -> bool {
    ascending(arranged) && arranged.to_multiset() == list.to_multiset()
}

/// Whether `fb` is the output that shows the texts of `list` in the order of
/// the dictionary, with `separator` between them.
pub open spec fn shown(
    list: Seq<Seq<char>>,
    separator: Seq<char>,
    fb: Result<Seq<char>, Seq<char>>,
) -> bool {
    exists|arranged: Seq<Seq<char>>|
        #[trigger] sorted_from(list, arranged) && fb == Ok::<Seq<char>, Seq<char>>(
            joined(arranged, separator),
        )
}

/// What the completion shows for a child of a node: its literal, the
/// description of its validator if it has one, and a mark if a path ends at
/// it.
pub open spec fn summary<'a, V, H>(entry: (Seq<char>, Mapping<'a, V, H>)) -> Seq<char> {
    entry.0 + (match entry.1.validator() {
        Some(d) => " "@ + d.description@,
        None => Seq::empty(),
    }) + (if entry.1.handler() is Some {
        " (final)"@
    } else {
        Seq::empty()
    })
}

/// What the completion shows for the children of a node, child by child.
pub open spec fn summaries<'a, V, H>(node: Mapping<'a, V, H>) -> Seq<Seq<char>> {
    Seq::new(node.children().len(), |i: int| summary(node.children()[i]))
}

/// Whether `fb` is the answer of the completion to the outcome of a partial
/// lookup: for a node, the summaries of its children in the order of the
/// dictionary, with a comma and a space between them; for a validator, its
/// description; for a failure, its message.
pub open spec fn completed<'a, V, H>(
    outcome: Result<Either<Mapping<'a, V, H>, Seq<char>>, LookFailure<String>>,
    fb: Result<Seq<char>, Seq<char>>,
) -> bool {
    match outcome {
        Ok(Either::Left(node)) => if node.children().len() == 0 {
            fb == Ok::<Seq<char>, Seq<char>>("No more handlers"@)
        } else {
            shown(summaries(node), ", "@, fb)
        },
        Ok(Either::Right(name)) => fb == Ok::<Seq<char>, Seq<char>>(name),
        Err(e) => fb == Err::<Seq<char>, Seq<char>>(look_message(e)),
    }
}

/// Whether `fb` is the answer of the help command to the tokens `content`,
/// of which the first is the name of the command.
///
/// Without an argument the answer lists the paths of the tree in the order of
/// the dictionary, line by line. With one argument, a regular expression, it
/// lists what the expression matches in that list, with anything before and
/// after on the same line. More arguments are an error.
pub open spec fn helped<'a, V, H>(
    m: Mapping<'a, V, H>,
    content: Seq<Seq<char>>,
    fb: Result<Seq<char>, Seq<char>>,
) -> bool {
    if content.len() >= 3 {
        fb == Err::<Seq<char>, Seq<char>>("Too many arguments to: ?"@)
    } else if content.len() == 2 {
        filtered(regex_matches(".*"@ + content[1] + ".*"@, joined(m.listed(), "\n"@)), fb)
    } else {
        shown(m.listed(), "\n"@, fb)
    }
}

/// Whether `fb` is the answer of the help command when its filter has found
/// `matches`, or could not be compiled.
pub open spec fn filtered(
    found: Result<Seq<Seq<char>>, Seq<char>>,
    fb: Result<Seq<char>, Seq<char>>,
) -> bool {
    match found {
        Ok(matches) => shown(matches, "\n"@, fb),
        Err(error) => fb == Err::<Seq<char>, Seq<char>>("Regex could not be compiled: "@ + error),
    }
}

/// Shows what the filter of the help command has found, or says that it
/// could not be compiled.
pub fn show_filtered(found: Result<Vec<String>, String>) -> (fb: Feedback)
    ensures
        filtered(
            match found {
                Ok(matches) => Ok(lines(matches@)),
                Err(error) => Err(error@),
            },
            said(fb),
        ),
{
    match found {
        Ok(matches) => {
            let mut list = matches;
            let ghost unsorted = lines(list@);
            sort_texts(&mut list);
            assert(sorted_from(unsorted, lines(list@)));
            let text = join(&list, "\n");
            assert(shown(unsorted, "\n"@, Ok::<Seq<char>, Seq<char>>(text@)));
            Ok(text)
        },
        Err(error) => Err(followed("Regex could not be compiled: ", error.as_str())),
    }
}

/// Whether the first of the tokens names a command that the evaluator
/// answers itself when the tree has no handler for the tokens.
pub open spec fn builtin(content: Seq<Seq<char>>) -> bool {
    content.len() > 0 && (content[0] == "autocomplete"@ || content[0] == "?"@)
}

impl<'a, V: Decide<Accept = Type, Deny = String>, H> Mapping<'a, V, H> {
    /// Whether `fb` is the answer of a built-in command to the tokens
    /// `content`: of the completion to the outcome of a partial lookup of the
    /// tokens behind its name, or of the help command.
    pub open spec fn answers(
        &self,
        content: Seq<Seq<char>>,
        fb: Result<Seq<char>, Seq<char>>,
    ) -> bool {
        if content[0] == "autocomplete"@ {
            exists|outcome: Result<Either<Self, Seq<char>>, LookFailure<String>>|
                self.reaches(content.skip(1), Seq::empty(), outcome) && #[trigger] completed(
                    outcome,
                    fb,
                )
        } else {
            helped(*self, content, fb)
        }
    }
}

/// Marks a point of an evaluation: the context `mid` and the arguments
/// `earlier` gathered up to it. It holds of every point, and serves to name
/// one.
pub open spec fn midway<C>(mid: C, earlier: Result<Seq<Seq<char>>, Seq<char>>) -> bool {
    true
}

/// Whether the outcome `inner` of a sub-command, taken into the arguments
/// `content` gathered before it, gives `flat`: its output becomes the next
/// argument, and its error, or the reason why it is no statement, becomes
/// the error of the whole.
pub open spec fn absorbed(
    content: Seq<Seq<char>>,
    inner: Result<Result<Seq<char>, Seq<char>>, ParseError>,
    flat: Result<Seq<Seq<char>>, Seq<char>>,
) -> bool {
    flat == match inner {
        Ok(Ok(output)) => Ok::<Seq<Seq<char>>, Seq<char>>(content.push(output)),
        Ok(Err(message)) => Err(message),
        Err(e) => Err(parse_message(e)),
    }
}

/// Whether interpreting `line` as a statement, at the given depth of nesting
/// and in the context `before`, may leave the context `after` and give `r`.
pub open spec fn interpreted<'a, C, V, H>(
    m: Mapping<'a, V, H>,
    limit: nat,
    depth: nat,
    before: C,
    line: Seq<char>,
    after: C,
    r: Result<Result<Seq<char>, Seq<char>>, ParseError>,
) -> bool where
    V: Decide<Accept = Type, Deny = String>,
    H: Finalize<Accept = Type, Context = C>,

    decreases limit - depth, 3nat, 0nat,
{
    match statement(line) {
        Err(e) => after == before && r == Err::<Result<Seq<char>, Seq<char>>, ParseError>(e),
        Ok(toks) => r is Ok && evaluated(m, limit, depth, before, toks, after, r->Ok_0),
    }
}

/// Whether evaluating the statement `toks`, at the given depth of nesting and
/// in the context `before`, may leave the context `after` and give `fb`.
///
/// First the tokens are made into arguments, which evaluates the
/// sub-commands among them. Then the arguments are looked up in the tree and
/// the handler that is found is run. If none is found a built-in command
/// answers, if the first argument names one, else the failure of the lookup
/// is reported.
pub open spec fn evaluated<'a, C, V, H>(
    m: Mapping<'a, V, H>,
    limit: nat,
    depth: nat,
    before: C,
    toks: Seq<Token>,
    after: C,
    fb: Result<Seq<char>, Seq<char>>,
) -> bool where
    V: Decide<Accept = Type, Deny = String>,
    H: Finalize<Accept = Type, Context = C>,

    decreases limit - depth, 2nat, 0nat,
{
    exists|mid: C, flat: Result<Seq<Seq<char>>, Seq<char>>|
        {
            &&& flattened(m, limit, depth, before, toks, mid, flat)
            &&& #[trigger] concluded(m, mid, flat, after, fb)
        }
}

/// Whether, with the arguments `flat` and the context `mid`, the evaluation
/// of a statement may leave the context `after` and give `fb`.
pub open spec fn concluded<'a, C, V, H>(
    m: Mapping<'a, V, H>,
    mid: C,
    flat: Result<Seq<Seq<char>>, Seq<char>>,
    after: C,
    fb: Result<Seq<char>, Seq<char>>,
) -> bool where
    V: Decide<Accept = Type, Deny = String>,
    H: Finalize<Accept = Type, Context = C>,
 {
    match flat {
        Err(message) => after == mid && fb == Err::<Seq<char>, Seq<char>>(message),
        Ok(content) => looked_up(m, mid, content, after, fb),
    }
}

/// Whether, with the arguments `content` and the context `mid`, the
/// evaluation of a statement may leave the context `after` and give `fb`.
pub open spec fn looked_up<'a, C, V, H>(
    m: Mapping<'a, V, H>,
    mid: C,
    content: Seq<Seq<char>>,
    after: C,
    fb: Result<Seq<char>, Seq<char>>,
) -> bool where
    V: Decide<Accept = Type, Deny = String>,
    H: Finalize<Accept = Type, Context = C>,
 {
    exists|outcome: Result<(H, Seq<Type>), LookFailure<String>>|
        {
            &&& m.resolves(content, Seq::empty(), outcome)
            &&& #[trigger] answered(m, mid, content, outcome, after, fb)
        }
}

/// Whether, after a lookup of the arguments `content` that ended in
/// `outcome`, the evaluation of a statement may leave the context `after` and
/// give `fb`: the handler that was found is run; without one a built-in
/// command answers, if the first argument names one, and else the failure of
/// the lookup is reported.
pub open spec fn answered<'a, C, V, H>(
    m: Mapping<'a, V, H>,
    mid: C,
    content: Seq<Seq<char>>,
    outcome: Result<(H, Seq<Type>), LookFailure<String>>,
    after: C,
    fb: Result<Seq<char>, Seq<char>>,
) -> bool where
    V: Decide<Accept = Type, Deny = String>,
    H: Finalize<Accept = Type, Context = C>,
 {
    match outcome {
        Ok((handler, args)) => handler.finalized(mid, args, after, fb),
        Err(e) => after == mid && if builtin(content) {
            m.answers(content, fb)
        } else {
            fb == Err::<Seq<char>, Seq<char>>(look_message(e))
        },
    }
}

/// Whether making the tokens `toks` into arguments, at the given depth of
/// nesting and in the context `before`, may leave the context `after` and
/// give `flat`.
///
/// The tokens are taken in order. An atom is an argument as it stands. The
/// text of a sub-command that begins with the escape mark is an argument
/// without the mark. Any other sub-command is interpreted as a statement,
/// one level deeper, and its output is the argument; at the limit of nesting
/// it is an error instead. The first error ends the run.
pub open spec fn flattened<'a, C, V, H>(
    m: Mapping<'a, V, H>,
    limit: nat,
    depth: nat,
    before: C,
    toks: Seq<Token>,
    after: C,
    flat: Result<Seq<Seq<char>>, Seq<char>>,
) -> bool where
    V: Decide<Accept = Type, Deny = String>,
    H: Finalize<Accept = Type, Context = C>,

    decreases limit - depth, 1nat, toks.len(),
{
    if toks.len() == 0 {
        after == before && flat == Ok::<Seq<Seq<char>>, Seq<char>>(Seq::empty())
    } else {
        exists|mid: C, earlier: Result<Seq<Seq<char>>, Seq<char>>|
            {
                &&& #[trigger] midway(mid, earlier)
                &&& flattened(m, limit, depth, before, toks.drop_last(), mid, earlier)
                &&& continued(m, limit, depth, mid, earlier, toks.last(), after, flat)
            }
    }
}

/// Whether, after a run that left the context `mid` and gave `earlier`,
/// taking one more token may leave the context `after` and give `flat`.
pub open spec fn continued<'a, C, V, H>(
    m: Mapping<'a, V, H>,
    limit: nat,
    depth: nat,
    mid: C,
    earlier: Result<Seq<Seq<char>>, Seq<char>>,
    token: Token,
    after: C,
    flat: Result<Seq<Seq<char>>, Seq<char>>,
) -> bool where
    V: Decide<Accept = Type, Deny = String>,
    H: Finalize<Accept = Type, Context = C>,

    decreases limit - depth, 0nat, 1nat,
{
    match earlier {
        Err(message) => after == mid && flat == Err::<Seq<Seq<char>>, Seq<char>>(message),
        Ok(content) => match token {
            Token::Atom(text) => after == mid && flat == Ok::<Seq<Seq<char>>, Seq<char>>(
                content.push(text),
            ),
            Token::Command(text) => if text.len() > 0 && text[0] == ESCAPE {
                after == mid && flat == Ok::<Seq<Seq<char>>, Seq<char>>(
                    content.push(text.skip(1)),
                )
            } else if depth >= limit {
                after == mid && flat == Err::<Seq<Seq<char>>, Seq<char>>(limit_message(limit))
            } else {
                nested(m, limit, depth, mid, content, text, after, flat)
            },
        },
    }
}

/// Whether interpreting the sub-command `text` one level deeper, in the
/// context `mid` and with the arguments `content` gathered before it, may
/// leave the context `after` and give `flat`.
pub open spec fn nested<'a, C, V, H>(
    m: Mapping<'a, V, H>,
    limit: nat,
    depth: nat,
    mid: C,
    content: Seq<Seq<char>>,
    text: Seq<char>,
    after: C,
    flat: Result<Seq<Seq<char>>, Seq<char>>,
) -> bool where
    V: Decide<Accept = Type, Deny = String>,
    H: Finalize<Accept = Type, Context = C>,

    recommends
        depth < limit,
    decreases limit - depth, 0nat, 0nat,
    when depth < limit
{
    exists|inner: Result<Result<Seq<char>, Seq<char>>, ParseError>|
        {
            &&& interpreted(m, limit, depth + 1, mid, text, after, inner)
            &&& #[trigger] absorbed(content, inner, flat)
        }
}

/// The arguments made of tokens, or the error, as a mathematical value.
pub open spec fn gathered(r: Result<Vec<String>, String>) -> Result<Seq<Seq<char>>, Seq<char>> {
    match r {
        Ok(content) => Ok(lines(content@)),
        Err(message) => Err(message@),
    }
}

/// The outcome of interpreting a statement, as a mathematical value.
pub open spec fn outcome(r: Result<Feedback, ParseError>) -> Result<
    Result<Seq<char>, Seq<char>>,
    ParseError,
> {
    match r {
        Ok(fb) => Ok(said(fb)),
        Err(e) => Err(e),
    }
}

/// An error met while making tokens into arguments stays the outcome
/// whatever tokens follow.
proof fn lemma_error_ends_flattening<'a, C, V, H>(
    m: Mapping<'a, V, H>,
    limit: nat,
    depth: nat,
    before: C,
    toks: Seq<Token>,
    k: int,
    after: C,
    message: Seq<char>,
) where V: Decide<Accept = Type, Deny = String>, H: Finalize<Accept = Type, Context = C>
    requires
        0 <= k <= toks.len(),
        flattened(
            m,
            limit,
            depth,
            before,
            toks.take(k),
            after,
            Err::<Seq<Seq<char>>, Seq<char>>(message),
        ),
    ensures
        flattened(m, limit, depth, before, toks, after, Err::<Seq<Seq<char>>, Seq<char>>(message)),
    decreases toks.len() - k,
{
    if k < toks.len() {
        let longer = toks.take(k + 1);
        assert(longer.drop_last() == toks.take(k));
        assert(midway(after, Err::<Seq<Seq<char>>, Seq<char>>(message)));
        assert(continued(
            m,
            limit,
            depth,
            after,
            Err::<Seq<Seq<char>>, Seq<char>>(message),
            longer.last(),
            after,
            Err::<Seq<Seq<char>>, Seq<char>>(message),
        ));
        assert(flattened(
            m,
            limit,
            depth,
            before,
            longer,
            after,
            Err::<Seq<Seq<char>>, Seq<char>>(message),
        ));
        lemma_error_ends_flattening(m, limit, depth, before, toks, k + 1, after, message);
    } else {
        assert(toks.take(k) == toks);
    }
}

/// The strings of a list as string slices.
fn as_refs<'s>(content: &'s Vec<String>) -> (refs: Vec<&'s str>)
    ensures
        texts(refs@) == lines(content@),
{
    let mut refs: Vec<&'s str> = Vec::new();
    let mut i: usize = 0;
    while i < content.len()
        invariant
            i <= content@.len(),
            texts(refs@) == lines(content@).take(i as int),
        decreases content@.len() - i,
    {
        let ghost had = texts(refs@);
        refs.push(content[i].as_str());
        assert(texts(refs@) == had.push(content@[i as int]@));
        assert(lines(content@).take(i + 1) == lines(content@).take(i as int).push(
            content@[i as int]@,
        ));
        i += 1;
    }
    assert(lines(content@).take(content@.len() as int) == lines(content@));
    refs
}

/// Whether a text begins with the escape mark.
fn escaped(text: &str) -> (b: bool)
    ensures
        b == (text@.len() > 0 && text@[0] == ESCAPE),
{
    broadcast use vstd::string::group_string_axioms;

    let mut it = text.chars();
    match it.next() {
        Some(c) => c == ESCAPE,
        None => false,
    }
}

/// The machine that runs commands.
///
/// It owns the tree of registered commands, the context that the handlers
/// work on, and the count of the sub-commands that are being evaluated, one
/// inside the other, which may not pass the limit of nesting.
pub struct Evaluator<'a, C, V, H> {
    mapping: Mapping<'a, V, H>,
    context: C,
    current_depth: usize,
    max_depth: usize,
}

impl<'a, C, V, H> Evaluator<'a, C, V, H> where
    V: Decide<Accept = Type, Deny = String>,
    H: Finalize<Accept = Type, Context = C>,
 {
    /// Whether the evaluator is well formed: its tree is.
    pub closed spec fn wf(&self) -> bool {
        self.mapping.wf()
    }

    /// The tree of registered commands.
    pub closed spec fn tree(&self) -> Mapping<'a, V, H> {
        self.mapping
    }

    /// The context.
    pub closed spec fn state(&self) -> C {
        self.context
    }

    /// How many sub-commands are being evaluated, one inside the other.
    pub closed spec fn depth(&self) -> nat {
        self.current_depth as nat
    }

    /// How deep sub-commands may be nested.
    pub closed spec fn limit(&self) -> nat {
        self.max_depth as nat
    }

    /// Whether `after` is this evaluator but for its context.
    pub open spec fn kept(&self, after: Self) -> bool {
        &&& after.wf() == self.wf()
        &&& after.tree() == self.tree()
        &&& after.depth() == self.depth()
        &&& after.limit() == self.limit()
    }

    /// An evaluator without commands, with the given context and a limit of
    /// nesting of 100.
    pub fn new(context: C) -> (e: Self)
        ensures
            e.wf(),
            e.state() == context,
            e.depth() == 0,
            e.limit() == 100,
            e.tree().bare(None),
            e.tree().handler() is None,
    {
        Evaluator { mapping: Mapping::default(), context, current_depth: 0, max_depth: 100 }
    }

    /// Sets how deep sub-commands may be nested.
    pub fn set_recursion_limit(&mut self, limit: usize)
        ensures
            final(self).limit() == limit,
            final(self).wf() == old(self).wf(),
            final(self).tree() == old(self).tree(),
            final(self).state() == old(self).state(),
            final(self).depth() == old(self).depth(),
    {
        self.max_depth = limit;
    }

    /// The context.
    pub fn context(&self) -> (c: &C)
        ensures
            *c == self.state(),
    {
        &self.context
    }

    /// The context, to be changed.
    pub fn context_mut(&mut self) -> (c: &mut C)
        ensures
            *c == old(self).state(),
            final(self).state() == *final(c),
            old(self).kept(*final(self)),
    {
        &mut self.context
    }

    /// How many sub-commands are being evaluated. Between two evaluations
    /// there is none.
    pub fn get_current_depth(&self) -> (d: usize)
        ensures
            d == self.depth(),
    {
        self.current_depth
    }

    /// Registers a command with its handler.
    pub fn register<'b>(&mut self, spec: Spec<'b, 'a, V, H>) -> (r: Result<(), RegError>)
        requires
            old(self).wf(),
        ensures
            final(self).wf(),
            final(self).state() == old(self).state(),
            final(self).depth() == old(self).depth(),
            final(self).limit() == old(self).limit(),
            match r {
                Ok(_) => {
                    &&& old(self).tree().refusal(steps(spec.0@)) is None
                    &&& final(self).tree().grown(old(self).tree(), steps(spec.0@), spec.1)
                },
                Err(e) => {
                    &&& old(self).tree().refusal(steps(spec.0@)) == Some(e)
                    &&& final(self).tree() == old(self).tree()
                },
            },
    {
        self.mapping.register(spec)
    }

    /// Registers commands one after the other and stops at the first that is
    /// refused; those before it stay registered.
    pub fn register_many<'b>(&mut self, spec: &[Spec<'b, 'a, V, H>]) -> (r: Result<
        (),
        RegError,
    >) where H: Copy
        requires
            old(self).wf(),
        ensures
            final(self).wf(),
            final(self).state() == old(self).state(),
            final(self).depth() == old(self).depth(),
            final(self).limit() == old(self).limit(),
            match r {
                Ok(_) => final(self).tree().grown_by_all(old(self).tree(), spec@),
                Err(e) => exists|n: int|
                    0 <= n < spec@.len() && final(self).tree().grown_by_all(
                        old(self).tree(),
                        #[trigger] spec@.take(n),
                    ) && final(self).tree().refusal(steps(spec@[n].0@)) == Some(e),
            },
    {
        self.mapping.register_many(spec)
    }

    /// Answers a built-in command, if the first of the tokens names one.
    fn handle_any_builtin_commands(&self, content: &[&str]) -> (r: Option<Feedback>)
        requires
            self.wf(),
        ensures
            r is Some == builtin(texts(content@)),
            r matches Some(fb) ==> self.tree().answers(texts(content@), said(fb)),
    {
        if content.len() == 0 {
            return None;
        }
        let ghost words = texts(content@);
        let front = content[0];
        if same_text(front, "autocomplete") {
            let rest = vstd::slice::slice_subrange(content, 1, content.len());
            assert(texts(rest@) == words.skip(1));
            let outcome = self.mapping.partial_lookup(rest);
            let fb = match outcome {
                Ok(Either::Left(mapping)) => {
                    let entries = mapping.get_direct_keys();
                    let mut col: Vec<String> = Vec::new();
                    let mut i: usize = 0;
                    while i < entries.len()
                        invariant
                            i <= entries@.len(),
                            entries@.len() == mapping.children().len(),
                            forall|k: int|
                                0 <= k < entries@.len() ==> {
                                    let e = #[trigger] entries@[k];
                                    &&& e.literal@ == mapping.children()[k].0
                                    &&& *e.submap == mapping.children()[k].1
                                    &&& e.decider == e.submap.validator()
                                    &&& e.submap.handler() == match e.finalizer {
                                        Some(h) => Some(*h),
                                        None => None,
                                    }
                                },
                            lines(col@) == summaries(*mapping).take(i as int),
                        decreases entries@.len() - i,
                    {
                        let k = &entries[i];
                        let mut s = k.literal.to_owned();
                        match k.decider {
                            Some(d) => {
                                s.append(" ");
                                s.append(d.description);
                            },
                            None => {},
                        }
                        if k.finalizer.is_some() {
                            s.append(" (final)");
                        }
                        proof {
                            let entry = mapping.children()[i as int];
                            assert(entry.0 + (" "@ + entry.1.validator()->0.description@)
                                == entry.0 + " "@ + entry.1.validator()->0.description@);
                            assert(entry.0 + Seq::<char>::empty() == entry.0);
                            assert(s@ == summary(entry)) by {
                                let middle = match entry.1.validator() {
                                    Some(d) => " "@ + d.description@,
                                    None => Seq::<char>::empty(),
                                };
                                assert((entry.0 + middle) + Seq::<char>::empty() == entry.0
                                    + middle);
                            }
                        }
                        let ghost had = lines(col@);
                        col.push(s);
                        assert(lines(col@) == had.push(s@));
                        assert(summaries(*mapping).take(i + 1) == summaries(*mapping).take(
                            i as int,
                        ).push(summaries(*mapping)[i as int]));
                        i += 1;
                    }
                    assert(summaries(*mapping).take(entries@.len() as int) == summaries(*mapping));
                    if col.len() == 0 {
                        Ok("No more handlers".to_owned())
                    } else {
                        sort_texts(&mut col);
                        assert(sorted_from(summaries(*mapping), lines(col@)));
                        let text = join(&col, ", ");
                        assert(shown(
                            summaries(*mapping),
                            ", "@,
                            Ok::<Seq<char>, Seq<char>>(text@),
                        ));
                        Ok(text)
                    }
                },
                Ok(Either::Right(name)) => Ok(name.to_owned()),
                Err(err) => lookerr_to_evalres(err),
            };
            assert(completed(reached(outcome), said(fb)));
            return Some(fb);
        }
        if same_text(front, "?") {
            let mut list = self.mapping.list();
            if content.len() >= 3 {
                return Some(Err("Too many arguments to: ?".to_owned()));
            }
            if content.len() == 2 {
                let mut pattern = followed(".*", content[1]);
                pattern.append(".*");
                assert(words[1] == content@[1]@);
                assert(words.len() == 2);
                let haystack = join(&list, "\n");
                assert(pattern@ == ".*"@ + words[1] + ".*"@);
                assert(haystack@ == joined(self.mapping.listed(), "\n"@));
                return Some(show_filtered(find_matches(pattern.as_str(), haystack.as_str())));
            }
            sort_texts(&mut list);
            assert(sorted_from(self.mapping.listed(), lines(list@)));
            let text = join(&list, "\n");
            assert(shown(self.mapping.listed(), "\n"@, Ok::<Seq<char>, Seq<char>>(text@)));
            return Some(Ok(text));
        }
        None
    }

    /// Makes the tokens of a statement into arguments, which evaluates the
    /// sub-commands among them.
    fn parse_subcommands(&mut self, cmds: &[Data]) -> (r: Result<Vec<String>, String>)
        requires
            old(self).wf(),
        ensures
            old(self).kept(*final(self)),
            flattened(
                old(self).tree(),
                old(self).limit(),
                old(self).depth(),
                old(self).state(),
                tokens(cmds@),
                final(self).state(),
                gathered(r),
            ),
        decreases old(self).max_depth - old(self).current_depth, 0nat, cmds@.len(),
    {
        let ghost m = self.mapping;
        let ghost limit = self.max_depth as nat;
        let ghost depth = self.current_depth as nat;
        let ghost toks = tokens(cmds@);
        let mut content: Vec<String> = Vec::new();
        let mut i: usize = 0;
        assert(toks.take(0) == Seq::<Token>::empty());
        assert(lines(content@) == Seq::<Seq<char>>::empty());
        while i < cmds.len()
            invariant
                i <= cmds@.len(),
                toks == tokens(cmds@),
                old(self).kept(*self),
                self.wf(),
                m == self.mapping,
                limit == self.max_depth,
                depth == self.current_depth,
                flattened(
                    m,
                    limit,
                    depth,
                    old(self).state(),
                    toks.take(i as int),
                    self.context,
                    Ok::<Seq<Seq<char>>, Seq<char>>(lines(content@)),
                ),
            decreases cmds@.len() - i,
        {
            let ghost mid = self.context;
            let ghost had = lines(content@);
            let ghost earlier = Ok::<Seq<Seq<char>>, Seq<char>>(had);
            let ghost longer = toks.take(i + 1);
            assert(longer.drop_last() == toks.take(i as int));
            assert(longer.last() == cmds@[i as int]@);
            assert(midway(mid, earlier));
            match cmds[i] {
                Data::Atom(string) => {
                    content.push(string.to_owned());
                    assert(lines(content@) == had.push(string@));
                },
                Data::Command(string) => {
                    if escaped(string) {
                        let n = string.unicode_len();
                        content.push(string.substring_char(1, n).to_owned());
                        assert(string@.subrange(1, n as int) == string@.skip(1));
                        assert(lines(content@) == had.push(string@.skip(1)));
                    } else {
                        if self.current_depth >= self.max_depth {
                            let message = followed(
                                "Recursion limit reached: ",
                                decimal_text(self.max_depth).as_str(),
                            );
                            proof {
                                assert(continued(
                                    m,
                                    limit,
                                    depth,
                                    mid,
                                    earlier,
                                    longer.last(),
                                    self.context,
                                    Err::<Seq<Seq<char>>, Seq<char>>(message@),
                                ));
                                assert(flattened(
                                    m,
                                    limit,
                                    depth,
                                    old(self).state(),
                                    longer,
                                    self.context,
                                    Err::<Seq<Seq<char>>, Seq<char>>(message@),
                                ));
                                lemma_error_ends_flattening(
                                    m,
                                    limit,
                                    depth,
                                    old(self).state(),
                                    toks,
                                    i + 1,
                                    self.context,
                                    message@,
                                );
                            }
                            return Err(message);
                        }
                        self.current_depth += 1;
                        let res = self.interpret_at(string);
                        self.current_depth -= 1;
                        let ghost inner = outcome(res);
                        let failure = match res {
                            Ok(Ok(output)) => {
                                content.push(output);
                                assert(lines(content@) == had.push(output@));
                                None
                            },
                            Ok(Err(message)) => Some(message),
                            Err(ParseError::DanglingLeftParenthesis) => Some(
                                "Dangling left parenthesis".to_owned(),
                            ),
                            Err(ParseError::PrematureRightParenthesis) => Some(
                                "Right parenthesis encountered with no matching left parenthesis".to_owned(),
                            ),
                        };
                        match failure {
                            Some(message) => {
                                proof {
                                    assert(absorbed(
                                        had,
                                        inner,
                                        Err::<Seq<Seq<char>>, Seq<char>>(message@),
                                    ));
                                    assert(nested(
                                        m,
                                        limit,
                                        depth,
                                        mid,
                                        had,
                                        string@,
                                        self.context,
                                        Err::<Seq<Seq<char>>, Seq<char>>(message@),
                                    ));
                                    assert(continued(
                                        m,
                                        limit,
                                        depth,
                                        mid,
                                        earlier,
                                        longer.last(),
                                        self.context,
                                        Err::<Seq<Seq<char>>, Seq<char>>(message@),
                                    ));
                                    assert(flattened(
                                        m,
                                        limit,
                                        depth,
                                        old(self).state(),
                                        longer,
                                        self.context,
                                        Err::<Seq<Seq<char>>, Seq<char>>(message@),
                                    ));
                                    lemma_error_ends_flattening(
                                        m,
                                        limit,
                                        depth,
                                        old(self).state(),
                                        toks,
                                        i + 1,
                                        self.context,
                                        message@,
                                    );
                                }
                                return Err(message);
                            },
                            None => {
                                assert(absorbed(
                                    had,
                                    inner,
                                    Ok::<Seq<Seq<char>>, Seq<char>>(lines(content@)),
                                ));
                                assert(nested(
                                    m,
                                    limit,
                                    depth,
                                    mid,
                                    had,
                                    string@,
                                    self.context,
                                    Ok::<Seq<Seq<char>>, Seq<char>>(lines(content@)),
                                ));
                            },
                        }
                    }
                },
            }
            assert(continued(
                m,
                limit,
                depth,
                mid,
                earlier,
                longer.last(),
                self.context,
                Ok::<Seq<Seq<char>>, Seq<char>>(lines(content@)),
            ));
            assert(flattened(
                m,
                limit,
                depth,
                old(self).state(),
                longer,
                self.context,
                Ok::<Seq<Seq<char>>, Seq<char>>(lines(content@)),
            ));
            i += 1;
        }
        assert(toks.take(cmds@.len() as int) == toks);
        Ok(content)
    }

    fn evaluate_at(&mut self, commands: &[Data]) -> (fb: Feedback)
        requires
            old(self).wf(),
        ensures
            old(self).kept(*final(self)),
            evaluated(
                old(self).tree(),
                old(self).limit(),
                old(self).depth(),
                old(self).state(),
                tokens(commands@),
                final(self).state(),
                said(fb),
            ),
        decreases old(self).max_depth - old(self).current_depth, 1nat, 0nat,
    {
        let gathered_args = self.parse_subcommands(commands);
        let ghost mid = self.context;
        let ghost flat = gathered(gathered_args);
        let content = match gathered_args {
            Ok(content) => content,
            Err(err) => {
                assert(concluded(self.mapping, mid, flat, mid, Err::<Seq<char>, Seq<char>>(err@)));
                return Err(err);
            },
        };
        let content_ref = as_refs(&content);
        let res = self.mapping.lookup(content_ref.as_slice());
        let ghost looked = found(res);
        assert(self.mapping.resolves(lines(content@), Seq::empty(), looked));
        match res {
            Ok(fin) => {
                let fb = fin.0.finalize(&mut self.context, fin.1.as_slice());
                assert(looked == Ok::<(H, Seq<Type>), LookFailure<String>>((*fin.0, fin.1@)));
                assert(answered(
                    self.mapping,
                    mid,
                    lines(content@),
                    looked,
                    self.context,
                    said(fb),
                ));
                assert(looked_up(self.mapping, mid, lines(content@), self.context, said(fb)));
                assert(concluded(self.mapping, mid, flat, self.context, said(fb)));
                fb
            },
            Err(err) => {
                assert(looked == Err::<(H, Seq<Type>), LookFailure<String>>(err@));
                let fb = match self.handle_any_builtin_commands(content_ref.as_slice()) {
                    Some(result) => result,
                    None => lookerr_to_evalres(err),
                };
                assert(answered(
                    self.mapping,
                    mid,
                    lines(content@),
                    looked,
                    self.context,
                    said(fb),
                ));
                assert(looked_up(self.mapping, mid, lines(content@), self.context, said(fb)));
                assert(concluded(self.mapping, mid, flat, self.context, said(fb)));
                fb
            },
        }
    }

    fn interpret_at(&mut self, line: &str) -> (r: Result<Feedback, ParseError>)
        requires
            old(self).wf(),
        ensures
            old(self).kept(*final(self)),
            interpreted(
                old(self).tree(),
                old(self).limit(),
                old(self).depth(),
                old(self).state(),
                line@,
                final(self).state(),
                outcome(r),
            ),
        decreases old(self).max_depth - old(self).current_depth, 2nat, 0nat,
    {
        let mut data: Vec<Data<'_>> = Vec::new();
        match parse(line, &mut data) {
            Err(e) => Err(e),
            Ok(_) => {
                assert(tokens(data@) == cut(line@, emitted(line@)));
                Ok(self.evaluate_at(data.as_slice()))
            },
        }
    }

    /// Evaluates one statement, given as its tokens.
    pub fn evaluate(&mut self, commands: &[Data]) -> (fb: Feedback)
        requires
            old(self).wf(),
        ensures
            old(self).kept(*final(self)),
            evaluated(
                old(self).tree(),
                old(self).limit(),
                old(self).depth(),
                old(self).state(),
                tokens(commands@),
                final(self).state(),
                said(fb),
            ),
    {
        self.evaluate_at(commands)
    }

    /// Interprets a text as one statement, in which line feeds are white
    /// space.
    ///
    /// A text without tokens is a statement like any other: it names the root
    /// of the tree, at which as a rule no handler is registered.
    pub fn interpret_single(&mut self, statement: &str) -> (r: Result<Feedback, ParseError>)
        requires
            old(self).wf(),
        ensures
            old(self).kept(*final(self)),
            interpreted(
                old(self).tree(),
                old(self).limit(),
                old(self).depth(),
                old(self).state(),
                statement@,
                final(self).state(),
                outcome(r),
            ),
    {
        self.interpret_at(statement)
    }
}

/// The outcome of interpreting a text, with the feedback as a value of the
/// type [`crate::feedback::Feedback`].
pub open spec fn lifted(r: Result<Feedback, ParseError>) -> Result<
    crate::feedback::Feedback,
    ParseError,
> {
    match r {
        Ok(Ok(output)) => Ok(crate::feedback::Feedback::Okay(output)),
        Ok(Err(message)) => Ok(crate::feedback::Feedback::Error(message)),
        Err(e) => Err(e),
    }
}

impl<'a, C, V, H> Evaluate<crate::feedback::Feedback> for Evaluator<'a, C, V, H> where
    V: Decide<Accept = Type, Deny = String>,
    H: Finalize<Accept = Type, Context = C>,
 {
    /// An evaluator can be used when it is well formed.
    open spec fn ready(&self) -> bool {
        self.wf()
    }

    /// An evaluation changes nothing but the context, and goes as
    /// [`evaluated`] says.
    open spec fn evaluated(
        &self,
        statement: Seq<Token>,
        after: Self,
        result: crate::feedback::Feedback,
    ) -> bool {
        &&& self.kept(after)
        &&& evaluated(
            self.tree(),
            self.limit(),
            self.depth(),
            self.state(),
            statement,
            after.state(),
            result@,
        )
    }

    fn evaluate<'b>(&mut self, statement: &[Data<'b>]) -> (result: crate::feedback::Feedback) {
        match self.evaluate_at(statement) {
            Ok(output) => crate::feedback::Feedback::Okay(output),
            Err(message) => crate::feedback::Feedback::Error(message),
        }
    }
}

impl<'a, C, V, H> Evaluator<'a, C, V, H> where
    V: Decide<Accept = Type, Deny = String>,
    H: Finalize<Accept = Type, Context = C>,
 {
    /// Interpreting statements one after the other changes nothing of an
    /// evaluator but its context.
    pub proof fn lemma_run_keeps(
        &self,
        code: Seq<char>,
        pieces: Seq<(int, int)>,
        after: Self,
        r: Result<crate::feedback::Feedback, ParseError>,
    )
        requires
            interprets_all(*self, code, pieces, after, r),
        ensures
            self.kept(after),
        decreases pieces.len(),
    {
        if pieces.len() > 0 {
            let (mid, earlier): (Self, Result<crate::feedback::Feedback, ParseError>) = choose|
                mid: Self,
                earlier: Result<crate::feedback::Feedback, ParseError>,
            |
                {
                    &&& interprets_all(*self, code, pieces.drop_last(), mid, earlier)
                    &&& #[trigger] crate::metac::carries_on(
                        mid,
                        earlier,
                        code,
                        pieces.last(),
                        after,
                        r,
                    )
                };
            self.lemma_run_keeps(code, pieces.drop_last(), mid, earlier);
        }
    }

    /// Interprets a text statement by statement and gives the outcome of the
    /// last statement, or an output without text if there is no statement.
    ///
    /// A line feed ends a statement unless a parenthesis is open or the
    /// statement holds nothing but white space so far.
    pub fn interpret_multiple(&mut self, code: &str) -> (r: Result<Feedback, ParseError>)
        requires
            old(self).wf(),
        ensures
            old(self).kept(*final(self)),
            interprets_text(*old(self), code@, *final(self), lifted(r)),
    {
        let r: Result<crate::feedback::Feedback, ParseError> = Interpret::interpret_multiple(
            self,
            code,
        );
        proof {
            if crate::metac::split(code@, code@.len() as int).failed {
                let earlier = choose|earlier: Result<crate::feedback::Feedback, ParseError>|
                    #[trigger] interprets_all(
                        *old(self),
                        code@,
                        statements(code@),
                        *self,
                        earlier,
                    );
                old(self).lemma_run_keeps(code@, statements(code@), *self, earlier);
            } else {
                old(self).lemma_run_keeps(code@, statements(code@), *self, r);
            }
        }
        match r {
            Ok(crate::feedback::Feedback::Okay(output)) => Ok(Ok(output)),
            Ok(crate::feedback::Feedback::Error(message)) => Ok(Err(message)),
            Err(e) => Err(e),
        }
    }
}

/// Whether a token becomes an argument without anything being evaluated: an
/// atom, or a sub-command that begins with the escape mark.
pub open spec fn plain(t: Token) -> bool {
    match t {
        Token::Atom(_) => true,
        Token::Command(text) => text.len() > 0 && text[0] == ESCAPE,
    }
}

/// The position of the first token that is evaluated, or the number of the
/// tokens if none is.
pub open spec fn first_evaluated(toks: Seq<Token>) -> int
    decreases toks.len(),
{
    if toks.len() == 0 || !plain(toks[0]) {
        0
    } else {
        1 + first_evaluated(toks.skip(1))
    }
}

/// Whether a line is a statement of which the first sub-command that is
/// evaluated is nested more than `budget` levels deep: it holds a
/// sub-command that is evaluated first in its turn, and so on for `budget`
/// levels.
pub open spec fn overdeep(line: Seq<char>, budget: nat) -> bool
    decreases budget,
{
    &&& statement(line) is Ok
    &&& first_evaluated(statement(line)->Ok_0) < statement(line)->Ok_0.len()
    &&& budget > 0 ==> overdeep(
        statement(line)->Ok_0[first_evaluated(statement(line)->Ok_0)].text(),
        (budget - 1) as nat,
    )
}

proof fn lemma_first_evaluated(toks: Seq<Token>)
    ensures
        0 <= first_evaluated(toks) <= toks.len(),
        forall|k: int| 0 <= k < first_evaluated(toks) ==> plain(#[trigger] toks[k]),
        first_evaluated(toks) < toks.len() ==> !plain(toks[first_evaluated(toks)]),
    decreases toks.len(),
{
    if toks.len() > 0 && plain(toks[0]) {
        lemma_first_evaluated(toks.skip(1));
        assert forall|k: int| 0 <= k < first_evaluated(toks) implies plain(
            #[trigger] toks[k],
        ) by {
            if k > 0 {
                assert(toks[k] == toks.skip(1)[k - 1]);
            }
        }
        if first_evaluated(toks) < toks.len() {
            assert(toks[first_evaluated(toks)] == toks.skip(1)[first_evaluated(toks.skip(1))]);
        }
    }
}

/// The argument that a token becomes without anything being evaluated: the
/// text of an atom, and the text behind the escape mark of a sub-command.
pub open spec fn plain_argument(t: Token) -> Seq<char> {
    match t {
        Token::Atom(text) => text,
        Token::Command(text) => text.skip(1),
    }
}

/// The arguments that tokens become of which none is evaluated.
pub open spec fn plain_arguments(toks: Seq<Token>) -> Seq<Seq<char>> {
    Seq::new(toks.len(), |k: int| plain_argument(toks[k]))
}

/// Tokens of which none is evaluated become their arguments, and the context
/// stays as it is.
pub proof fn lemma_plain_flattened<'a, C, V, H>(
    m: Mapping<'a, V, H>,
    limit: nat,
    depth: nat,
    before: C,
    toks: Seq<Token>,
    after: C,
    flat: Result<Seq<Seq<char>>, Seq<char>>,
) where V: Decide<Accept = Type, Deny = String>, H: Finalize<Accept = Type, Context = C>
    requires
        forall|k: int| 0 <= k < toks.len() ==> plain(#[trigger] toks[k]),
        flattened(m, limit, depth, before, toks, after, flat),
    ensures
        after == before,
        flat == Ok::<Seq<Seq<char>>, Seq<char>>(plain_arguments(toks)),
    decreases toks.len(),
{
    if toks.len() == 0 {
        assert(plain_arguments(toks) == Seq::<Seq<char>>::empty());
    } else {
        let (mid, earlier): (C, Result<Seq<Seq<char>>, Seq<char>>) = choose|
            mid: C,
            earlier: Result<Seq<Seq<char>>, Seq<char>>,
        |
            {
                &&& #[trigger] midway(mid, earlier)
                &&& flattened(m, limit, depth, before, toks.drop_last(), mid, earlier)
                &&& continued(m, limit, depth, mid, earlier, toks.last(), after, flat)
            };
        assert forall|k: int| 0 <= k < toks.drop_last().len() implies plain(
            #[trigger] toks.drop_last()[k],
        ) by {
            assert(toks.drop_last()[k] == toks[k]);
        }
        lemma_plain_flattened(m, limit, depth, before, toks.drop_last(), mid, earlier);
        assert(plain(toks[toks.len() - 1]));
        assert(plain_arguments(toks) == plain_arguments(toks.drop_last()).push(
            plain_argument(toks.last()),
        ));
    }
}

/// A sub-command is evaluated before the statement around it: where the
/// tokens before it become arguments as they stand, it is interpreted in the
/// context of the statement, one level deeper, and its output is the
/// argument that follows theirs.
pub proof fn lemma_subcommand_is_evaluated_first<'a, C, V, H>(
    m: Mapping<'a, V, H>,
    limit: nat,
    depth: nat,
    before: C,
    toks: Seq<Token>,
    after: C,
    flat: Result<Seq<Seq<char>>, Seq<char>>,
) where V: Decide<Accept = Type, Deny = String>, H: Finalize<Accept = Type, Context = C>
    requires
        depth < limit,
        toks.len() > 0,
        forall|k: int| 0 <= k < toks.len() - 1 ==> plain(#[trigger] toks[k]),
        toks.last() is Command,
        !plain(toks.last()),
        flattened(m, limit, depth, before, toks, after, flat),
    ensures
        nested(
            m,
            limit,
            depth,
            before,
            plain_arguments(toks.drop_last()),
            toks.last().text(),
            after,
            flat,
        ),
{
    let (mid, earlier): (C, Result<Seq<Seq<char>>, Seq<char>>) = choose|
        mid: C,
        earlier: Result<Seq<Seq<char>>, Seq<char>>,
    |
        {
            &&& #[trigger] midway(mid, earlier)
            &&& flattened(m, limit, depth, before, toks.drop_last(), mid, earlier)
            &&& continued(m, limit, depth, mid, earlier, toks.last(), after, flat)
        };
    assert forall|k: int| 0 <= k < toks.drop_last().len() implies plain(
        #[trigger] toks.drop_last()[k],
    ) by {
        assert(toks.drop_last()[k] == toks[k]);
    }
    lemma_plain_flattened(m, limit, depth, before, toks.drop_last(), mid, earlier);
}

proof fn lemma_overdeep_flattened<'a, C, V, H>(
    m: Mapping<'a, V, H>,
    limit: nat,
    depth: nat,
    before: C,
    toks: Seq<Token>,
    n: int,
    after: C,
    flat: Result<Seq<Seq<char>>, Seq<char>>,
) where V: Decide<Accept = Type, Deny = String>, H: Finalize<Accept = Type, Context = C>
    requires
        depth <= limit,
        first_evaluated(toks) < n <= toks.len(),
        depth < limit ==> overdeep(toks[first_evaluated(toks)].text(), (limit - depth - 1) as nat),
        flattened(m, limit, depth, before, toks.take(n), after, flat),
    ensures
        after == before,
        flat == Err::<Seq<Seq<char>>, Seq<char>>(limit_message(limit)),
    decreases limit - depth, 0nat, n,
{
    let first = first_evaluated(toks);
    lemma_first_evaluated(toks);
    let upto = toks.take(n);
    let (mid, earlier): (C, Result<Seq<Seq<char>>, Seq<char>>) = choose|
        mid: C,
        earlier: Result<Seq<Seq<char>>, Seq<char>>,
    |
        {
            &&& #[trigger] midway(mid, earlier)
            &&& flattened(m, limit, depth, before, upto.drop_last(), mid, earlier)
            &&& continued(m, limit, depth, mid, earlier, upto.last(), after, flat)
        };
    assert(upto.drop_last() == toks.take(n - 1));
    assert(upto.last() == toks[n - 1]);
    if n - 1 > first {
        lemma_overdeep_flattened(m, limit, depth, before, toks, n - 1, mid, earlier);
    } else {
        assert forall|k: int| 0 <= k < toks.take(first).len() implies plain(
            #[trigger] toks.take(first)[k],
        ) by {
            assert(toks.take(first)[k] == toks[k]);
        }
        lemma_plain_flattened(m, limit, depth, before, toks.take(first), mid, earlier);
        let text = toks[first].text();
        if depth < limit {
            let inner = choose|inner: Result<Result<Seq<char>, Seq<char>>, ParseError>|
                {
                    &&& interpreted(m, limit, depth + 1, mid, text, after, inner)
                    &&& #[trigger] absorbed(earlier->Ok_0, inner, flat)
                };
            lemma_nesting_hits_limit(m, limit, depth + 1, mid, text, after, inner);
        }
    }
}

/// A statement of which the first sub-command that is evaluated is nested
/// deeper than the limit allows fails with the message of the limit, and
/// leaves the context as it was: no handler has been run.
pub proof fn lemma_nesting_hits_limit<'a, C, V, H>(
    m: Mapping<'a, V, H>,
    limit: nat,
    depth: nat,
    before: C,
    line: Seq<char>,
    after: C,
    r: Result<Result<Seq<char>, Seq<char>>, ParseError>,
) where V: Decide<Accept = Type, Deny = String>, H: Finalize<Accept = Type, Context = C>
    requires
        depth <= limit,
        overdeep(line, (limit - depth) as nat),
        interpreted(m, limit, depth, before, line, after, r),
    ensures
        after == before,
        r == Ok::<Result<Seq<char>, Seq<char>>, ParseError>(
            Err::<Seq<char>, Seq<char>>(limit_message(limit)),
        ),
    decreases limit - depth, 1nat, 0nat,
{
    let toks = statement(line)->Ok_0;
    let fb = r->Ok_0;
    let (mid, flat): (C, Result<Seq<Seq<char>>, Seq<char>>) = choose|
        mid: C,
        flat: Result<Seq<Seq<char>>, Seq<char>>,
    |
        {
            &&& flattened(m, limit, depth, before, toks, mid, flat)
            &&& #[trigger] concluded(m, mid, flat, after, fb)
        };
    assert(toks.take(toks.len() as int) == toks);
    lemma_overdeep_flattened(m, limit, depth, before, toks, toks.len() as int, mid, flat);
}

} // verus!
