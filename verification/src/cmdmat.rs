//! A command matching engine: a tree of command paths with validators and
//! handlers.
use crate::outside::same_text;
use vstd::prelude::*;
use vstd::slice::slice_subrange;

verus! {

/// A value of one of two types.
pub enum Either<L, R> {
    /// The left alternative.
    Left(L),
    /// The right alternative.
    Right(R),
}

impl<L, R> Either<L, R> {
    /// The left value, if there is one.
    pub fn left(self) -> (r: Option<L>)
        ensures
            r == match self {
                Either::Left(l) => Some(l),
                Either::Right(_) => None,
            },
    {
        match self {
            Either::Left(left) => Some(left),
            Either::Right(_) => None,
        }
    }

    /// The right value, if there is one.
    pub fn right(self) -> (r: Option<R>)
        ensures
            r == match self {
                Either::Left(_) => None,
                Either::Right(v) => Some(v),
            },
    {
        match self {
            Either::Left(_) => None,
            Either::Right(right) => Some(right),
        }
    }
}

/// What a validator says of the tokens it was shown.
#[derive(Debug, PartialEq)]
pub enum Decision<D> {
    /// The first so many tokens are consumed.
    Accept(usize),
    /// The tokens are refused, for the given reason.
    Deny(D),
}

impl<D> Decision<D> {
    /// The decision as a result: the number of tokens taken, or the reason
    /// for the refusal as the error.
    pub fn into_result(self) -> (r: Result<usize, D>)
        ensures
            r == match self {
                Decision::Accept(taken) => Ok::<usize, D>(taken),
                Decision::Deny(reason) => Err(reason),
            },
    {
        match self {
            Decision::Accept(value) => Ok(value),
            Decision::Deny(value) => Err(value),
        }
    }

    /// The refusal for the given reason.
    pub fn from_error(v: D) -> (d: Self)
        ensures
            d == Decision::Deny(v),
    {
        Decision::Deny(v)
    }

    /// The decision to take so many tokens.
    pub fn from_ok(v: usize) -> (d: Self)
        ensures
            d == Decision::<D>::Accept(v),
    {
        Decision::Accept(v)
    }
}

/// Why a registration was refused.
#[derive(Debug, PartialEq)]
pub enum RegError {
    /// The node exists already, so its validator is fixed.
    DeciderAlreadyExists,
    /// A handler is bound to this path already.
    FinalizerAlreadyExists,
}

/// Why a lookup failed.
#[derive(Debug, PartialEq)]
pub enum LookError<D> {
    /// A validator claimed more tokens than there were.
    DeciderAdvancedTooFar,
    /// A validator, named by its description, refused the tokens.
    DeciderDenied(String, D),
    /// The path ends at a node without a handler.
    FinalizerDoesNotExist,
    /// No child is registered under this token.
    UnknownMapping(String),
}

/// An argument buffer: the values that the validators along a path have
/// produced, in order.
pub type SVec<A> = Vec<A>;

/// The behaviour of a validator: it is shown the tokens that follow a literal
/// and an argument buffer, and decides how many of the tokens it takes.
pub trait Decide {
    /// What the validator puts into the argument buffer.
    type Accept;

    /// The reason that the validator gives when it refuses.
    type Deny;

    /// Whether, shown `input` and a buffer that holds `before`, the validator
    /// may leave the buffer holding `after` and return `decision`.
    ///
    /// Unless an implementation says otherwise every outcome is possible, so
    /// that an implementation that states nothing promises nothing.
    open spec fn decided(
        &self,
        input: Seq<Seq<char>>,
        before: Seq<Self::Accept>,
        after: Seq<Self::Accept>,
        decision: Decision<Self::Deny>,
    ) -> bool {
        true
    }

    /// Judges the tokens in `input` and appends what it has made of them to
    /// `out`.
    fn decide(&self, input: &[&str], out: &mut SVec<Self::Accept>) -> (decision: Decision<
        Self::Deny,
    >)
        ensures
            self.decided(texts(input@), old(out)@, final(out)@, decision),
    ;
}

/// The behaviour of a handler: it is run on a context, which it may change,
/// with the arguments that the validators on its path have gathered.
pub trait Finalize {
    /// What the handler takes as arguments.
    type Accept;

    /// The context that the handler works on.
    type Context;

    /// Whether, run on a context `before` with `args`, the handler may leave
    /// the context `after` and give `outcome`.
    ///
    /// Unless an implementation says otherwise every outcome is possible, so
    /// that an implementation that states nothing promises nothing.
    open spec fn finalized(
        &self,
        before: Self::Context,
        args: Seq<Self::Accept>,
        after: Self::Context,
        outcome: Result<Seq<char>, Seq<char>>,
    ) -> bool {
        true
    }

    /// Runs the handler.
    fn finalize(&self, context: &mut Self::Context, args: &[Self::Accept]) -> (outcome: Result<
        String,
        String,
    >)
        ensures
            self.finalized(*old(context), args@, *final(context), said(outcome)),
    ;
}

/// The output or the error message of a handler, as a mathematical value.
pub open spec fn said(outcome: Result<String, String>) -> Result<Seq<char>, Seq<char>> {
    match outcome {
        Ok(output) => Ok(output@),
        Err(message) => Err(message@),
    }
}

/// A validator with the description that help and error messages show for it.
pub struct Decider<V> {
    /// The description of the validator.
    pub description: &'static str,
    /// The validator itself.
    pub decider: V,
}

/// A command path, literal by literal, each with the validator for the tokens
/// that follow it, and the handler that the path ends in.
pub type Spec<'b, 'a, V, H> = (&'b [(&'static str, Option<&'a Decider<V>>)], H);

/// A handler with the arguments gathered for it.
pub type FinWithArgs<'o, A, H> = (&'o H, SVec<A>);

/// A node of the tree, or the description of the validator that is next.
pub type MapOrDesc<'a, 'b, V, H> = Either<&'b Mapping<'a, V, H>, &'a str>;

/// The texts of a slice of tokens.
pub open spec fn texts(input: Seq<&str>) -> Seq<Seq<char>> {
    Seq::new(input.len(), |i: int| input[i]@)
}

/// Why a lookup failed, as a mathematical value.
pub enum LookFailure<D> {
    /// A validator claimed more tokens than there were.
    DeciderAdvancedTooFar,
    /// A validator, named by its description, refused the tokens.
    DeciderDenied(Seq<char>, D),
    /// The path ends at a node without a handler.
    FinalizerDoesNotExist,
    /// No child is registered under this token.
    UnknownMapping(Seq<char>),
}

impl<D> View for LookError<D> {
    type V = LookFailure<D>;

    open spec fn view(&self) -> LookFailure<D> {
        match *self {
            LookError::DeciderAdvancedTooFar => LookFailure::DeciderAdvancedTooFar,
            LookError::DeciderDenied(description, reason) => LookFailure::DeciderDenied(
                description@,
                reason,
            ),
            LookError::FinalizerDoesNotExist => LookFailure::FinalizerDoesNotExist,
            LookError::UnknownMapping(token) => LookFailure::UnknownMapping(token@),
        }
    }
}

/// One child of a node, as the enumeration of a node's children shows it.
pub struct MappingEntry<'a, 'b, V, H> {
    /// The literal that leads to the child.
    pub literal: &'a str,
    /// The validator of the child.
    pub decider: Option<&'a Decider<V>>,
    /// The handler of the child, if a path ends there.
    pub finalizer: Option<&'b H>,
    /// The child itself, whose own children can be enumerated in turn.
    pub submap: &'b Mapping<'a, V, H>,
}

/// A node of the matching tree.
///
/// A node has children, each under a literal of its own, the validator that
/// judges the tokens behind the literal that leads to the node, and a handler
/// if a registered path ends at the node.
pub struct Mapping<'a, V, H> {
    map: Vec<(&'a str, Mapping<'a, V, H>)>,
    decider: Option<&'a Decider<V>>,
    finalizer: Option<H>,
}

/// How a literal stands in the line that lists a path: followed by a space
/// and, where the node that it leads to has a validator, by the description
/// of the validator and, unless the literal is the `last` of its path,
/// another space.
pub open spec fn leading<'a, V>(
    literal: Seq<char>,
    validator: Option<&'a Decider<V>>,
    last: bool,
) -> Seq<char> {
    let head = literal + seq![' '];
    match validator {
        Some(d) => if last {
            head + d.description@
        } else {
            head + d.description@ + seq![' ']
        },
        None => head,
    }
}

/// What a full lookup yields, as a mathematical value: the handler with the
/// arguments gathered for it, or the failure.
pub open spec fn found<A, D, H>(r: Result<(&H, SVec<A>), LookError<D>>) -> Result<
    (H, Seq<A>),
    LookFailure<D>,
> {
    match r {
        Ok((h, args)) => Ok((*h, args@)),
        Err(e) => Err(e@),
    }
}

/// What a partial lookup yields, as a mathematical value.
pub open spec fn reached<'a, 'b, V, H, D>(
    r: Result<MapOrDesc<'a, 'b, V, H>, LookError<D>>,
) -> Result<Either<Mapping<'a, V, H>, Seq<char>>, LookFailure<D>> {
    match r {
        Ok(Either::Left(node)) => Ok(Either::Left(*node)),
        Ok(Either::Right(description)) => Ok(Either::Right(description@)),
        Err(e) => Err(e@),
    }
}

impl<'a, V, H> Default for Mapping<'a, V, H> {
    fn default() -> (m: Self)
        ensures
            m.wf(),
            m.bare(None),
            m.handler() is None,
    {
        Mapping { map: Vec::new(), decider: None, finalizer: None }
    }
}

impl<'a, V, H> Mapping<'a, V, H> {
    /// Whether the node is well formed: no two children of a node stand under
    /// the same literal, throughout the tree.
    pub closed spec fn wf(&self) -> bool
        decreases self,
    {
        &&& forall|i: int, j: int|
            0 <= i < j < self.map@.len() ==> (#[trigger] self.map@[i]).0@ != (
            #[trigger] self.map@[j]).0@
        &&& forall|i: int| 0 <= i < self.map@.len() ==> (#[trigger] self.map@[i]).1.wf()
    }

    /// The literals under which the node has children.
    pub closed spec fn literals(&self) -> Set<Seq<char>> {
        Set::new(|l: Seq<char>| exists|i: int| 0 <= i < self.map@.len() && self.map@[i].0@ == l)
    }

    /// The child that stands under a literal.
    pub closed spec fn child(&self, literal: Seq<char>) -> Option<Self> {
        if exists|i: int| 0 <= i < self.map@.len() && self.map@[i].0@ == literal {
            Some(self.map@[choose|i: int| 0 <= i < self.map@.len() && self.map@[i].0@ == literal].1)
        } else {
            None
        }
    }

    /// The children of the node with their literals, in the order in which
    /// they are enumerated.
    pub closed spec fn children(&self) -> Seq<(Seq<char>, Self)> {
        Seq::new(self.map@.len(), |i: int| (self.map@[i].0@, self.map@[i].1))
    }

    /// The validator of the node.
    pub closed spec fn validator(&self) -> Option<&'a Decider<V>> {
        self.decider
    }

    /// The handler of the node.
    pub closed spec fn handler(&self) -> Option<H> {
        self.finalizer
    }

    /// Whether the node has the given validator and neither children nor a
    /// handler.
    pub open spec fn bare(&self, validator: Option<&'a Decider<V>>) -> bool {
        &&& self.validator() == validator
        &&& forall|l: Seq<char>| (#[trigger] self.child(l)) is None
    }

    /// The validator of the node.
    pub fn decider(&self) -> (d: &Option<&'a Decider<V>>)
        ensures
            *d == self.validator(),
    {
        &self.decider
    }

    /// The handler of the node.
    pub fn finalizer(&self) -> (h: &Option<H>)
        ensures
            *h == self.handler(),
    {
        &self.finalizer
    }

    proof fn lemma_child_at(&self, i: int)
        requires
            self.wf(),
            0 <= i < self.map@.len(),
        ensures
            self.child(self.map@[i].0@) == Some(self.map@[i].1),
            self.map@[i].1.wf(),
    {
        let literal = self.map@[i].0@;
        let j = choose|j: int| 0 <= j < self.map@.len() && self.map@[j].0@ == literal;
        assert(j == i) by {
            if j < i {
                assert(self.map@[j].0@ != self.map@[i].0@);
            }
            if i < j {
                assert(self.map@[i].0@ != self.map@[j].0@);
            }
        }
    }

    fn position(&self, literal: &str) -> (p: Option<usize>)
        requires
            self.wf(),
        ensures
            match p {
                Some(i) => i < self.map@.len() && self.map@[i as int].0@ == literal@ && self.child(
                    literal@,
                ) == Some(self.map@[i as int].1) && self.map@[i as int].1.wf(),
                None => self.child(literal@) is None,
            },
    {
        let mut i: usize = 0;
        while i < self.map.len()
            invariant
                i <= self.map@.len(),
                self.wf(),
                forall|j: int| 0 <= j < i ==> self.map@[j].0@ != literal@,
            decreases self.map@.len() - i,
        {
            if same_text(self.map[i].0, literal) {
                proof {
                    self.lemma_child_at(i as int);
                }
                return Some(i);
            }
            i += 1;
        }
        None
    }
}

impl<'a, V: Decide, H> Mapping<'a, V, H> {
    /// Whether a lookup of `input` from this node, with `args` gathered so
    /// far, may end in `r`.
    ///
    /// Each token in turn names a child. The validator of the child is shown
    /// the tokens behind the literal: when it refuses, the lookup fails with
    /// its description and its reason; when it takes more tokens than there
    /// are, the lookup fails; else the tokens it took are skipped. When no
    /// token is left the node must have a handler. Apart from what the
    /// validators decide the result is determined.
    pub open spec fn resolves(
        &self,
        input: Seq<Seq<char>>,
        args: Seq<V::Accept>,
        r: Result<(H, Seq<V::Accept>), LookFailure<V::Deny>>,
    ) -> bool
        decreases input.len(),
    {
        if input.len() == 0 {
            r == match self.handler() {
                Some(h) => Ok::<(H, Seq<V::Accept>), LookFailure<V::Deny>>((h, args)),
                None => Err(LookFailure::FinalizerDoesNotExist),
            }
        } else {
            match self.child(input[0]) {
                None => r == Err::<(H, Seq<V::Accept>), LookFailure<V::Deny>>(
                    LookFailure::UnknownMapping(input[0]),
                ),
                Some(node) => match node.validator() {
                    None => node.resolves(input.skip(1), args, r),
                    Some(d) => exists|after: Seq<V::Accept>, decision: Decision<V::Deny>|
                        {
                            &&& #[trigger] d.decider.decided(input.skip(1), args, after, decision)
                            &&& match decision {
                                Decision::Deny(reason) => r == Err::<
                                    (H, Seq<V::Accept>),
                                    LookFailure<V::Deny>,
                                >(LookFailure::DeciderDenied(d.description@, reason)),
                                Decision::Accept(taken) => if taken < input.len() {
                                    node.resolves(input.skip(1 + taken), after, r)
                                } else {
                                    r == Err::<(H, Seq<V::Accept>), LookFailure<V::Deny>>(
                                        LookFailure::DeciderAdvancedTooFar,
                                    )
                                },
                            }
                        },
                },
            }
        }
    }

    /// Whether a partial lookup of `input` from this node, with `args`
    /// gathered so far, may end in `r`.
    ///
    /// It goes as a lookup does, with two differences. When no token is left
    /// it yields the node it has come to, with or without a handler. And when
    /// the last token names a child with a validator, it yields the
    /// description of that validator, which is not run.
    pub open spec fn reaches(
        &self,
        input: Seq<Seq<char>>,
        args: Seq<V::Accept>,
        r: Result<Either<Self, Seq<char>>, LookFailure<V::Deny>>,
    ) -> bool
        decreases input.len(),
    {
        if input.len() == 0 {
            r == Ok::<Either<Self, Seq<char>>, LookFailure<V::Deny>>(Either::Left(*self))
        } else {
            match self.child(input[0]) {
                None => r == Err::<Either<Self, Seq<char>>, LookFailure<V::Deny>>(
                    LookFailure::UnknownMapping(input[0]),
                ),
                Some(node) => match node.validator() {
                    None => node.reaches(input.skip(1), args, r),
                    Some(d) => if input.len() == 1 {
                        r == Ok::<Either<Self, Seq<char>>, LookFailure<V::Deny>>(
                            Either::Right(d.description@),
                        )
                    } else {
                        exists|after: Seq<V::Accept>, decision: Decision<V::Deny>|
                            {
                                &&& #[trigger] d.decider.decided(
                                    input.skip(1),
                                    args,
                                    after,
                                    decision,
                                )
                                &&& match decision {
                                    Decision::Deny(reason) => r == Err::<
                                        Either<Self, Seq<char>>,
                                        LookFailure<V::Deny>,
                                    >(LookFailure::DeciderDenied(d.description@, reason)),
                                    Decision::Accept(taken) => if taken < input.len() {
                                        node.reaches(input.skip(1 + taken), after, r)
                                    } else {
                                        r == Err::<Either<Self, Seq<char>>, LookFailure<V::Deny>>(
                                            LookFailure::DeciderAdvancedTooFar,
                                        )
                                    },
                                }
                            }
                    },
                },
            }
        }
    }

    /// Looks a command up: follows the tokens of `input` through the tree,
    /// lets the validators on the way gather the arguments, and yields the
    /// handler that the path ends in.
    pub fn lookup<'b>(&'b self, input: &[&str]) -> (r: Result<
        FinWithArgs<'b, V::Accept, H>,
        LookError<V::Deny>,
    >)
        requires
            self.wf(),
        ensures
            self.resolves(texts(input@), Seq::empty(), found(r)),
    {
        let mut output: SVec<V::Accept> = Vec::new();
        match self.lookup_internal(input, &mut output) {
            Ok(finalizer) => Ok((finalizer, output)),
            Err(err) => Err(err),
        }
    }

    fn lookup_internal<'b>(&'b self, input: &[&str], output: &mut SVec<V::Accept>) -> (r: Result<
        &'b H,
        LookError<V::Deny>,
    >)
        requires
            self.wf(),
        ensures
            self.resolves(
                texts(input@),
                old(output)@,
                match r {
                    Ok(h) => Ok((*h, final(output)@)),
                    Err(e) => Err(e@),
                },
            ),
        decreases input@.len(),
    {
        if input.len() == 0 {
            return match &self.finalizer {
                Some(finalizer) => Ok(finalizer),
                None => Err(LookError::FinalizerDoesNotExist),
            };
        }
        let ghost words = texts(input@);
        match self.position(input[0]) {
            None => Err(LookError::UnknownMapping(input[0].to_owned())),
            Some(at) => {
                let handler = &self.map[at].1;
                let rest = slice_subrange(input, 1, input.len());
                assert(texts(rest@) == words.skip(1));
                match handler.decider {
                    None => handler.lookup_internal(rest, output),
                    Some(decider) => {
                        match decider.decider.decide(rest, output) {
                            Decision::Deny(res) => Err(
                                LookError::DeciderDenied(decider.description.to_owned(), res),
                            ),
                            Decision::Accept(advance) => {
                                if input.len() > advance {
                                    let tail = slice_subrange(input, 1 + advance, input.len());
                                    assert(texts(tail@) == words.skip(1 + advance));
                                    handler.lookup_internal(tail, output)
                                } else {
                                    Err(LookError::DeciderAdvancedTooFar)
                                }
                            },
                        }
                    },
                }
            },
        }
    }

    /// Looks a prefix of a command up and yields the node it leads to, or the
    /// description of the validator that is next. What the validators gather
    /// on the way is dropped.
    pub fn partial_lookup<'b>(&'b self, input: &'b [&str]) -> (r: Result<
        MapOrDesc<'a, 'b, V, H>,
        LookError<V::Deny>,
    >)
        requires
            self.wf(),
        ensures
            self.reaches(texts(input@), Seq::empty(), reached(r)),
            r matches Ok(Either::Left(node)) ==> node.wf(),
    {
        let mut output: SVec<V::Accept> = Vec::new();
        self.partial_lookup_internal(input, &mut output)
    }

    fn partial_lookup_internal<'b>(
        &'b self,
        input: &'b [&str],
        output: &mut SVec<V::Accept>,
    ) -> (r: Result<MapOrDesc<'a, 'b, V, H>, LookError<V::Deny>>)
        requires
            self.wf(),
        ensures
            self.reaches(texts(input@), old(output)@, reached(r)),
            r matches Ok(Either::Left(node)) ==> node.wf(),
        decreases input@.len(),
    {
        if input.len() == 0 {
            return Ok(Either::Left(self));
        }
        let ghost words = texts(input@);
        match self.position(input[0]) {
            None => Err(LookError::UnknownMapping(input[0].to_owned())),
            Some(at) => {
                let handler = &self.map[at].1;
                let rest = slice_subrange(input, 1, input.len());
                assert(texts(rest@) == words.skip(1));
                match handler.decider {
                    None => handler.partial_lookup_internal(rest, output),
                    Some(decider) => {
                        if input.len() == 1 {
                            return Ok(Either::Right(decider.description));
                        }
                        match decider.decider.decide(rest, output) {
                            Decision::Deny(res) => Err(
                                LookError::DeciderDenied(decider.description.to_owned(), res),
                            ),
                            Decision::Accept(advance) => {
                                if input.len() > advance {
                                    let tail = slice_subrange(input, 1 + advance, input.len());
                                    assert(texts(tail@) == words.skip(1 + advance));
                                    handler.partial_lookup_internal(tail, output)
                                } else {
                                    Err(LookError::DeciderAdvancedTooFar)
                                }
                            },
                        }
                    },
                }
            },
        }
    }
}

/// A command path as a mathematical value: the text of each literal with the
/// validator for the tokens that follow it.
pub open spec fn steps<'a, V>(path: Seq<(&'static str, Option<&'a Decider<V>>)>) -> Seq<
    (Seq<char>, Option<&'a Decider<V>>),
> {
    Seq::new(path.len(), |i: int| (path[i].0@, path[i].1))
}

impl<'a, V, H> Mapping<'a, V, H> {
    proof fn lemma_children(&self)
        requires
            self.wf(),
        ensures
            forall|i: int|
                0 <= i < self.map@.len() ==> self.child((#[trigger] self.map@[i]).0@) == Some(
                    self.map@[i].1,
                ) && self.map@[i].1.wf(),
            forall|l: Seq<char>| (#[trigger] self.child(l)) is Some ==> exists|i: int|
                0 <= i < self.map@.len() && self.map@[i].0@ == l,
    {
        assert forall|i: int| 0 <= i < self.map@.len() implies self.child(
            (#[trigger] self.map@[i]).0@,
        ) == Some(self.map@[i].1) && self.map@[i].1.wf() by {
            self.lemma_child_at(i);
        }
    }

    /// Why a path cannot be registered at this node, if it cannot.
    ///
    /// Where a literal of the path leads to a child that exists, the path may
    /// bring no validator for it: the child has its validator, or has none,
    /// for good. Where the whole path exists, no handler may be bound to its
    /// end yet.
    pub open spec fn refusal(&self, path: Seq<(Seq<char>, Option<&'a Decider<V>>)>) -> Option<
        RegError,
    >
        decreases path.len(),
    {
        if path.len() == 0 {
            if self.handler() is Some {
                Some(RegError::FinalizerAlreadyExists)
            } else {
                None
            }
        } else {
            match self.child(path[0].0) {
                Some(node) => if path[0].1 is Some {
                    Some(RegError::DeciderAlreadyExists)
                } else {
                    node.refusal(path.skip(1))
                },
                None => None,
            }
        }
    }

    /// Whether this node is the head of a fresh chain: it has the given
    /// validator, and below it stands the path and nothing else, with the
    /// handler at its end.
    pub open spec fn sprouted(
        &self,
        validator: Option<&'a Decider<V>>,
        path: Seq<(Seq<char>, Option<&'a Decider<V>>)>,
        h: H,
    ) -> bool
        decreases path.len(),
    {
        &&& self.validator() == validator
        &&& if path.len() == 0 {
            &&& self.handler() == Some(h)
            &&& forall|l: Seq<char>| (#[trigger] self.child(l)) is None
        } else {
            &&& self.handler() is None
            &&& forall|l: Seq<char>| l != path[0].0 ==> (#[trigger] self.child(l)) is None
            &&& self.child(path[0].0) is Some
            &&& self.child(path[0].0)->0.sprouted(path[0].1, path.skip(1), h)
        }
    }

    /// Whether this node is `before` with a path registered: the nodes of the
    /// path that `before` has are kept, the others are new, the handler is bound
    /// to the end of the path, and all else is as in `before`.
    pub open spec fn grown(
        &self,
        before: Self,
        path: Seq<(Seq<char>, Option<&'a Decider<V>>)>,
        h: H,
    ) -> bool
        decreases path.len(),
    {
        &&& self.validator() == before.validator()
        &&& if path.len() == 0 {
            &&& self.handler() == Some(h)
            &&& forall|l: Seq<char>| (#[trigger] self.child(l)) == before.child(l)
        } else {
            &&& self.handler() == before.handler()
            &&& forall|l: Seq<char>|
                l != path[0].0 ==> (#[trigger] self.child(l)) == before.child(l)
            &&& self.child(path[0].0) is Some
            &&& match before.child(path[0].0) {
                Some(node) => self.child(path[0].0)->0.grown(node, path.skip(1), h),
                None => self.child(path[0].0)->0.sprouted(path[0].1, path.skip(1), h),
            }
        }
    }

    /// Whether this node is `before` with the paths of `specs` registered one
    /// after the other, none of them refused.
    pub open spec fn grown_by_all(
        &self,
        before: Self,
        specs: Seq<(&[(&'static str, Option<&'a Decider<V>>)], H)>,
    ) -> bool
        decreases specs.len(),
    {
        if specs.len() == 0 {
            *self == before
        } else {
            exists|mid: Self|
                {
                    &&& mid.grown_by_all(before, specs.drop_last())
                    &&& #[trigger] mid.wf()
                    &&& mid.refusal(steps(specs.last().0@)) is None
                    &&& self.grown(mid, steps(specs.last().0@), specs.last().1)
                }
        }
    }

    proof fn lemma_grown_by_one_more(
        &self,
        mid: Self,
        first: Self,
        specs: Seq<(&[(&'static str, Option<&'a Decider<V>>)], H)>,
    )
        requires
            specs.len() > 0,
            mid.grown_by_all(first, specs.drop_last()),
            mid.wf(),
            mid.refusal(steps(specs.last().0@)) is None,
            self.grown(mid, steps(specs.last().0@), specs.last().1),
        ensures
            self.grown_by_all(first, specs),
    {
    }

    /// Registers the commands of `spec` in turn and stops at the first that
    /// is refused; those before it stay registered.
    pub fn register_many<'b>(&mut self, spec: &[Spec<'b, 'a, V, H>]) -> (r: Result<
        (),
        RegError,
    >) where H: Copy

        requires
            old(self).wf(),
        ensures
            final(self).wf(),
            match r {
                Ok(_) => final(self).grown_by_all(*old(self), spec@),
                Err(e) => exists|n: int|
                    0 <= n < spec@.len() && final(self).grown_by_all(
                        *old(self),
                        #[trigger] spec@.take(n),
                    ) && final(self).refusal(steps(spec@[n].0@)) == Some(e),
            },
    {
        let mut i: usize = 0;
        while i < spec.len()
            invariant
                i <= spec@.len(),
                self.wf(),
                self.grown_by_all(*old(self), spec@.take(i as int)),
            decreases spec@.len() - i,
        {
            let ghost mid = *self;
            let subspec = spec[i];
            match self.register(subspec) {
                Ok(_) => {},
                Err(e) => {
                    return Err(e);
                },
            }
            proof {
                assert(spec@.take(i + 1).drop_last() == spec@.take(i as int));
                assert(spec@.take(i + 1).last() == spec@[i as int]);
                assert(mid.grown_by_all(*old(self), spec@.take(i + 1).drop_last()));
                self.lemma_grown_by_one_more(mid, *old(self), spec@.take(i + 1));
            }
            i += 1;
        }
        assert(spec@.take(spec@.len() as int) == spec@);
        Ok(())
    }

    /// Registers a command: merges its path into the tree and binds its
    /// handler to the end of the path.
    ///
    /// A registration that is refused leaves the tree as it was.
    pub fn register<'b>(&mut self, spec: Spec<'b, 'a, V, H>) -> (r: Result<(), RegError>)
        requires
            old(self).wf(),
        ensures
            final(self).wf(),
            match r {
                Ok(_) => {
                    &&& old(self).refusal(steps(spec.0@)) is None
                    &&& final(self).grown(*old(self), steps(spec.0@), spec.1)
                },
                Err(e) => {
                    &&& old(self).refusal(steps(spec.0@)) == Some(e)
                    &&& *final(self) == *old(self)
                },
            },
    {
        assert(steps(spec.0@).skip(0) == steps(spec.0@));
        match self.refused(spec.0, 0) {
            Some(e) => Err(e),
            None => {
                self.plant(spec.0, 0, spec.1);
                Ok(())
            },
        }
    }

    fn refused(&self, path: &[(&'static str, Option<&'a Decider<V>>)], from: usize) -> (r: Option<
        RegError,
    >)
        requires
            self.wf(),
            from <= path@.len(),
        ensures
            r == self.refusal(steps(path@).skip(from as int)),
        decreases path@.len() - from,
    {
        if from == path.len() {
            return if self.finalizer.is_some() {
                Some(RegError::FinalizerAlreadyExists)
            } else {
                None
            };
        }
        let ghost rest = steps(path@).skip(from as int);
        assert(rest[0] == ((path@[from as int].0@, path@[from as int].1)));
        assert(rest.skip(1) == steps(path@).skip(from + 1));
        match self.position(path[from].0) {
            Some(at) => {
                if path[from].1.is_some() {
                    return Some(RegError::DeciderAlreadyExists);
                }
                self.map[at].1.refused(path, from + 1)
            },
            None => None,
        }
    }

    fn plant(&mut self, path: &[(&'static str, Option<&'a Decider<V>>)], from: usize, h: H)
        requires
            old(self).wf(),
            from <= path@.len(),
            old(self).refusal(steps(path@).skip(from as int)) is None,
        ensures
            final(self).wf(),
            final(self).grown(*old(self), steps(path@).skip(from as int), h),
        decreases path@.len() - from,
    {
        if from == path.len() {
            self.finalizer = Some(h);
            return ;
        }
        let ghost rest = steps(path@).skip(from as int);
        assert(rest[0] == ((path@[from as int].0@, path@[from as int].1)));
        assert(rest.skip(1) == steps(path@).skip(from + 1));
        let key = path[from].0;
        proof {
            old(self).lemma_children();
        }
        match self.position(key) {
            Some(at) => {
                let ghost before = self.map@[at as int].1;
                self.map[at].1.plant(path, from + 1, h);
                proof {
                    assert(self.map@ == old(self).map@.update(
                        at as int,
                        (old(self).map@[at as int].0, self.map@[at as int].1),
                    ));
                    assert(self.wf());
                    self.lemma_children();
                    assert(self.child(key@) == Some(self.map@[at as int].1));
                    assert forall|l: Seq<char>| l != key@ implies (#[trigger] self.child(l))
                        == old(self).child(l) by {
                        if self.child(l) is Some {
                            let i = choose|i: int| 0 <= i < self.map@.len() && self.map@[i].0@ == l;
                            assert(self.map@[i] == old(self).map@[i]);
                            assert(old(self).child(old(self).map@[i].0@) == Some(
                                old(self).map@[i].1,
                            ));
                        } else if old(self).child(l) is Some {
                            let i = choose|i: int|
                                0 <= i < old(self).map@.len() && old(self).map@[i].0@ == l;
                            assert(self.map@[i] == old(self).map@[i]);
                            assert(self.child(self.map@[i].0@) == Some(self.map@[i].1));
                        }
                    }
                }
            },
            None => {
                let mut mapping = Mapping {
                    map: Vec::new(),
                    decider: path[from].1,
                    finalizer: None,
                };
                let ghost fresh = mapping;
                assert(fresh.wf());
                assert(fresh.refusal(rest.skip(1)) is None);
                mapping.plant(path, from + 1, h);
                proof {
                    fresh.lemma_grown_from_bare(mapping, rest[0].1, rest.skip(1), h);
                }
                self.map.push((key, mapping));
                proof {
                    assert(self.map@ == old(self).map@.push((key, mapping)));
                    assert(self.wf()) by {
                        assert forall|i: int, j: int| 0 <= i < j < self.map@.len() implies (
                        #[trigger] self.map@[i]).0@ != (#[trigger] self.map@[j]).0@ by {
                            if j == self.map@.len() - 1 {
                                assert(self.map@[i] == old(self).map@[i]);
                                assert(old(self).child(old(self).map@[i].0@) is Some);
                            } else {
                                assert(self.map@[i] == old(self).map@[i]);
                                assert(self.map@[j] == old(self).map@[j]);
                            }
                        }
                        assert forall|i: int| 0 <= i < self.map@.len() implies (
                        #[trigger] self.map@[i]).1.wf() by {
                            if i < self.map@.len() - 1 {
                                assert(self.map@[i] == old(self).map@[i]);
                            }
                        }
                    }
                    self.lemma_children();
                    let last = self.map@.len() - 1;
                    assert(self.map@[last] == (key, mapping));
                    assert(self.child(self.map@[last].0@) == Some(mapping));
                    assert forall|l: Seq<char>| l != key@ implies (#[trigger] self.child(l))
                        == old(self).child(l) by {
                        if self.child(l) is Some {
                            let i = choose|i: int| 0 <= i < self.map@.len() && self.map@[i].0@ == l;
                            assert(self.map@[i] == old(self).map@[i]);
                            assert(old(self).child(old(self).map@[i].0@) == Some(
                                old(self).map@[i].1,
                            ));
                        } else if old(self).child(l) is Some {
                            let i = choose|i: int|
                                0 <= i < old(self).map@.len() && old(self).map@[i].0@ == l;
                            assert(self.map@[i] == old(self).map@[i]);
                            assert(self.child(self.map@[i].0@) == Some(self.map@[i].1));
                        }
                    }
                }
            },
        }
    }

    proof fn lemma_grown_from_bare(
        &self,
        new: Self,
        validator: Option<&'a Decider<V>>,
        path: Seq<(Seq<char>, Option<&'a Decider<V>>)>,
        h: H,
    )
        requires
            self.bare(validator),
            self.handler() is None,
            new.grown(*self, path, h),
        ensures
            new.sprouted(validator, path, h),
    {
        if path.len() > 0 {
            assert(self.child(path[0].0) is None);
        }
    }

    /// The children of a node are its children under their literals, no two
    /// of them under the same.
    pub proof fn lemma_children_listed(&self)
        requires
            self.wf(),
        ensures
            forall|i: int|
                0 <= i < self.children().len() ==> self.child((#[trigger] self.children()[i]).0)
                    == Some(self.children()[i].1) && self.children()[i].1.wf(),
            forall|i: int, j: int|
                0 <= i < j < self.children().len() ==> (#[trigger] self.children()[i]).0 != (
                #[trigger] self.children()[j]).0,
            forall|l: Seq<char>| (#[trigger] self.child(l)) is Some ==> exists|i: int|
                0 <= i < self.children().len() && self.children()[i].0 == l,
    {
        self.lemma_children();
        assert forall|i: int| 0 <= i < self.children().len() implies self.child(
            (#[trigger] self.children()[i]).0,
        ) == Some(self.children()[i].1) && self.children()[i].1.wf() by {
            assert(self.child(self.map@[i].0@) == Some(self.map@[i].1));
        }
        assert forall|l: Seq<char>| (#[trigger] self.child(l)) is Some implies exists|i: int|
            0 <= i < self.children().len() && self.children()[i].0 == l by {
            let i = choose|i: int| 0 <= i < self.map@.len() && self.map@[i].0@ == l;
            assert(self.children()[i].0 == l);
        }
    }

    /// The lines that list the paths of the tree below this node that end in
    /// a handler, one line for each.
    ///
    /// A line names the literals of its path in turn, each followed by a
    /// space and, where the node has a validator, by the description of the
    /// validator and, unless the path ends there, another space.
    pub open spec fn listed(&self) -> Seq<Seq<char>>
        decreases self, 1nat, 0nat,
    {
        self.listed_from(0)
    }

    /// The lines of [`Self::listed`] that go through the children from the
    /// `from`-th on.
    pub open spec fn listed_from(&self, from: nat) -> Seq<Seq<char>>
        decreases self, 0nat, self.children().len() - from,
    {
        if from >= self.children().len() {
            Seq::empty()
        } else {
            let (literal, node) = self.children()[from as int];
            let below = node.listed();
            (if node.handler() is Some {
                seq![leading(literal, node.validator(), true)]
            } else {
                Seq::empty()
            }) + Seq::new(
                below.len(),
                |k: int| leading(literal, node.validator(), false) + below[k],
            ) + self.listed_from(from + 1)
        }
    }

    /// Whether the literals lead, one node for each, to a node with a
    /// handler.
    pub open spec fn handles(&self, literals: Seq<Seq<char>>) -> bool
        decreases literals.len(),
    {
        literals.len() > 0 && match self.child(literals[0]) {
            Some(node) => if literals.len() == 1 {
                node.handler() is Some
            } else {
                node.handles(literals.skip(1))
            },
            None => false,
        }
    }

    /// The line that lists the path of the given literals.
    pub open spec fn line_of(&self, literals: Seq<Seq<char>>) -> Seq<char>
        recommends
            self.handles(literals),
        decreases literals.len(),
    {
        if literals.len() == 0 || self.child(literals[0]) is None {
            Seq::empty()
        } else {
            let node = self.child(literals[0])->0;
            if literals.len() == 1 {
                leading(literals[0], node.validator(), true)
            } else {
                leading(literals[0], node.validator(), false) + node.line_of(literals.skip(1))
            }
        }
    }

    proof fn lemma_listed_from_holds(&self, from: nat, i: int, line: Seq<char>)
        requires
            from <= i < self.children().len(),
            ({
                let (literal, node) = self.children()[i];
                ||| node.handler() is Some && line == leading(literal, node.validator(), true)
                ||| exists|k: int|
                    0 <= k < node.listed().len() && line == leading(
                        literal,
                        node.validator(),
                        false,
                    ) + #[trigger] node.listed()[k]
            }),
        ensures
            self.listed_from(from).contains(line),
        decreases i - from,
    {
        let (literal, node) = self.children()[from as int];
        let below = node.listed();
        let own = if node.handler() is Some {
            seq![leading(literal, node.validator(), true)]
        } else {
            Seq::empty()
        };
        let under = Seq::new(below.len(), |k: int| leading(literal, node.validator(), false)
            + below[k]);
        let rest = self.listed_from(from + 1);
        let all = own + under + rest;
        assert(self.listed_from(from) == all);
        if from == i {
            if node.handler() is Some && line == leading(literal, node.validator(), true) {
                assert(all[0] == line);
            } else {
                let k = choose|k: int|
                    0 <= k < node.listed().len() && line == leading(
                        literal,
                        node.validator(),
                        false,
                    ) + #[trigger] node.listed()[k];
                assert(under[k] == line);
                assert(all[own.len() + k] == line);
            }
        } else {
            self.lemma_listed_from_holds(from + 1, i, line);
            let at = choose|at: int| 0 <= at < rest.len() && rest[at] == line;
            assert(all[own.len() + under.len() + at] == line);
        }
    }

    /// Every path of the tree that ends in a handler is listed, with its
    /// line.
    pub proof fn lemma_handled_is_listed(&self, literals: Seq<Seq<char>>)
        requires
            self.wf(),
            self.handles(literals),
        ensures
            self.listed().contains(self.line_of(literals)),
        decreases literals.len(),
    {
        self.lemma_children_listed();
        let node = self.child(literals[0])->0;
        let i = choose|i: int|
            0 <= i < self.children().len() && self.children()[i].0 == literals[0];
        assert(self.children()[i].1 == node);
        if literals.len() > 1 {
            node.lemma_handled_is_listed(literals.skip(1));
            let below = node.listed();
            let k = choose|k: int|
                0 <= k < below.len() && below[k] == node.line_of(literals.skip(1));
            assert(self.line_of(literals) == leading(literals[0], node.validator(), false)
                + below[k]);
        }
        self.lemma_listed_from_holds(0, i, self.line_of(literals));
    }

    proof fn lemma_listed_from_is_handled(&self, from: nat, at: int) -> (literals: Seq<Seq<char>>)
        requires
            self.wf(),
            0 <= at < self.listed_from(from).len(),
        ensures
            self.handles(literals),
            self.line_of(literals) == self.listed_from(from)[at],
        decreases self, 0nat, self.children().len() - from,
    {
        self.lemma_children_listed();
        let (literal, node) = self.children()[from as int];
        let below = node.listed();
        let own = if node.handler() is Some {
            seq![leading(literal, node.validator(), true)]
        } else {
            Seq::empty()
        };
        let under = Seq::new(below.len(), |k: int| leading(literal, node.validator(), false)
            + below[k]);
        let rest = self.listed_from(from + 1);
        let all = own + under + rest;
        assert(self.listed_from(from) == all);
        assert(self.child(literal) == Some(node));
        if at < own.len() {
            let literals = seq![literal];
            assert(self.handles(literals));
            literals
        } else if at < own.len() + under.len() {
            let k = at - own.len();
            let tail = node.lemma_listed_is_handled(k);
            let literals = seq![literal] + tail;
            assert(literals.skip(1) == tail);
            assert(self.handles(literals));
            assert(all[at] == under[k]);
            literals
        } else {
            let literals = self.lemma_listed_from_is_handled(
                from + 1,
                at - own.len() - under.len(),
            );
            assert(all[at] == rest[at - own.len() - under.len()]);
            literals
        }
    }

    /// Every line that is listed is the line of a path of the tree that ends
    /// in a handler: the literals of such a path are given back.
    pub proof fn lemma_listed_is_handled(&self, at: int) -> (literals: Seq<Seq<char>>)
        requires
            self.wf(),
            0 <= at < self.listed().len(),
        ensures
            self.handles(literals),
            self.line_of(literals) == self.listed()[at],
        decreases self, 1nat, 0nat,
    {
        self.lemma_listed_from_is_handled(0, at)
    }

    /// Lists the paths of the tree below this node that end in a handler.
    pub fn list(&self) -> (lines: Vec<String>)
        requires
            self.wf(),
        ensures
            crate::text::lines(lines@) == self.listed(),
        decreases self,
    {
        let mut builder: Vec<String> = Vec::new();
        let mut i: usize = self.map.len();
        assert(self.listed_from(i as nat) == Seq::<Seq<char>>::empty());
        while i > 0
            invariant
                i <= self.map@.len(),
                self.wf(),
                crate::text::lines(builder@) == self.listed_from(i as nat),
            decreases i,
        {
            i -= 1;
            let key = self.map[i].0;
            let entry = &self.map[i].1;
            assert(self.children()[i as int] == (key@, *entry));
            assert(entry.wf());
            let mut head = key.to_owned();
            head.push(' ');
            let mut lead = head.clone();
            match entry.decider {
                Some(d) => {
                    lead.append(d.description);
                    lead.push(' ');
                },
                None => {},
            }
            let mut part: Vec<String> = Vec::new();
            if entry.finalizer.is_some() {
                let mut own = head;
                match entry.decider {
                    Some(d) => {
                        own.append(d.description);
                    },
                    None => {},
                }
                part.push(own);
            }
            let ghost first = crate::text::lines(part@);
            proof {
                let literal = key@;
                assert(literal + seq![' '] == literal.push(' '));
                assert(first == if entry.handler() is Some {
                    seq![leading(literal, entry.validator(), true)]
                } else {
                    Seq::<Seq<char>>::empty()
                });
                assert(lead@ == leading(literal, entry.validator(), false));
            }
            let below = entry.list();
            let mut k: usize = 0;
            while k < below.len()
                invariant
                    k <= below@.len(),
                    crate::text::lines(part@) == first + Seq::new(
                        k as nat,
                        |j: int| lead@ + below@[j]@,
                    ),
                decreases below@.len() - k,
            {
                let mut line = lead.clone();
                line.append(below[k].as_str());
                let ghost had = crate::text::lines(part@);
                part.push(line);
                assert(crate::text::lines(part@) == had.push(lead@ + below@[k as int]@));
                assert(Seq::new((k + 1) as nat, |j: int| lead@ + below@[j]@) == Seq::new(
                    k as nat,
                    |j: int| lead@ + below@[j]@,
                ).push(lead@ + below@[k as int]@));
                k += 1;
            }
            let ghost rest = crate::text::lines(builder@);
            part.append(&mut builder);
            builder = part;
            assert(crate::text::lines(builder@) == first + Seq::new(
                below@.len(),
                |j: int| lead@ + below@[j]@,
            ) + rest);
            assert(Seq::new(below@.len(), |j: int| lead@ + below@[j]@) == Seq::new(
                entry.listed().len(),
                |j: int| lead@ + entry.listed()[j],
            )) by {
                assert(crate::text::lines(below@).len() == below@.len());
                assert forall|j: int| 0 <= j < below@.len() implies below@[j]@
                    == entry.listed()[j] by {
                    assert(crate::text::lines(below@)[j] == below@[j]@);
                }
            }
            assert(self.listed_from(i as nat) == first + Seq::new(
                entry.listed().len(),
                |j: int| lead@ + entry.listed()[j],
            ) + self.listed_from((i + 1) as nat));
        }
        builder
    }

    /// The children of the node, each with its literal.
    pub fn iter<'b>(&'b self) -> (children: Vec<(&'a str, &'b Mapping<'a, V, H>)>)
        requires
            self.wf(),
        ensures
            children@.len() == self.children().len(),
            forall|i: int|
                0 <= i < children@.len() ==> (#[trigger] children@[i]).0@ == self.children()[i].0
                    && *children@[i].1 == self.children()[i].1,
            forall|i: int|
                0 <= i < children@.len() ==> self.child((#[trigger] children@[i]).0@) == Some(
                    *children@[i].1,
                ) && children@[i].1.wf(),
            forall|i: int, j: int|
                0 <= i < j < children@.len() ==> (#[trigger] children@[i]).0@ != (
                #[trigger] children@[j]).0@,
            forall|l: Seq<char>| (#[trigger] self.child(l)) is Some ==> exists|i: int|
                0 <= i < children@.len() && children@[i].0@ == l,
    {
        proof {
            self.lemma_children();
        }
        let mut children: Vec<(&'a str, &'b Mapping<'a, V, H>)> = Vec::new();
        let mut i: usize = 0;
        while i < self.map.len()
            invariant
                i <= self.map@.len(),
                children@.len() == i,
                forall|k: int|
                    0 <= k < i ==> (#[trigger] children@[k]).0@ == self.map@[k].0@
                        && *children@[k].1 == self.map@[k].1,
            decreases self.map@.len() - i,
        {
            children.push((self.map[i].0, &self.map[i].1));
            i += 1;
        }
        proof {
            assert forall|l: Seq<char>| (#[trigger] self.child(l)) is Some implies exists|i: int|
                0 <= i < children@.len() && children@[i].0@ == l by {
                let i = choose|i: int| 0 <= i < self.map@.len() && self.map@[i].0@ == l;
                assert(children@[i].0@ == l);
            }
        }
        children
    }

    /// The children of the node: each with its literal, its validator and its
    /// handler.
    pub fn get_direct_keys<'b>(&'b self) -> (entries: Vec<MappingEntry<'a, 'b, V, H>>)
        requires
            self.wf(),
        ensures
            entries@.len() == self.children().len(),
            forall|i: int|
                0 <= i < entries@.len() ==> (#[trigger] entries@[i]).literal@
                    == self.children()[i].0 && *entries@[i].submap == self.children()[i].1,
            forall|i: int|
                0 <= i < entries@.len() ==> {
                    let e = #[trigger] entries@[i];
                    &&& self.child(e.literal@) == Some(*e.submap)
                    &&& e.submap.wf()
                    &&& e.decider == e.submap.validator()
                    &&& e.submap.handler() == match e.finalizer {
                        Some(h) => Some(*h),
                        None => None,
                    }
                },
            forall|i: int, j: int|
                0 <= i < j < entries@.len() ==> (#[trigger] entries@[i]).literal@ != (
                #[trigger] entries@[j]).literal@,
            forall|l: Seq<char>| (#[trigger] self.child(l)) is Some ==> exists|i: int|
                0 <= i < entries@.len() && entries@[i].literal@ == l,
    {
        proof {
            self.lemma_children();
        }
        let mut entries: Vec<MappingEntry<'a, 'b, V, H>> = Vec::new();
        let mut i: usize = 0;
        while i < self.map.len()
            invariant
                i <= self.map@.len(),
                entries@.len() == i,
                forall|k: int|
                    0 <= k < i ==> {
                        let e = #[trigger] entries@[k];
                        &&& e.literal@ == self.map@[k].0@
                        &&& *e.submap == self.map@[k].1
                        &&& e.decider == e.submap.validator()
                        &&& e.submap.handler() == match e.finalizer {
                            Some(h) => Some(*h),
                            None => None,
                        }
                    },
            decreases self.map@.len() - i,
        {
            let node = &self.map[i].1;
            let finalizer = match &node.finalizer {
                Some(h) => Some(h),
                None => None,
            };
            entries.push(
                MappingEntry {
                    literal: self.map[i].0,
                    decider: node.decider,
                    finalizer,
                    submap: node,
                },
            );
            i += 1;
        }
        proof {
            assert forall|l: Seq<char>| (#[trigger] self.child(l)) is Some implies exists|i: int|
                0 <= i < entries@.len() && entries@[i].literal@ == l by {
                let i = choose|i: int| 0 <= i < self.map@.len() && self.map@[i].0@ == l;
                assert(entries@[i].literal@ == l);
            }
        }
        entries
    }
}

/// The literals of a command path.
pub open spec fn literals_of<'a, V>(path: Seq<(Seq<char>, Option<&'a Decider<V>>)>) -> Seq<
    Seq<char>,
> {
    Seq::new(path.len(), |i: int| path[i].0)
}

/// A command path with the same literals and without validators.
pub open spec fn unguarded_path<'a, V>(path: Seq<(Seq<char>, Option<&'a Decider<V>>)>) -> Seq<
    (Seq<char>, Option<&'a Decider<V>>),
> {
    Seq::new(path.len(), |i: int| (path[i].0, None::<&'a Decider<V>>))
}

impl<'a, V: Decide, H> Mapping<'a, V, H> {
    /// Whether the tokens of `input` lead, one node for each, through nodes
    /// without validators.
    pub open spec fn unguarded(&self, input: Seq<Seq<char>>) -> bool
        decreases input.len(),
    {
        input.len() == 0 || match self.child(input[0]) {
            Some(node) => node.validator() is None && node.unguarded(input.skip(1)),
            None => false,
        }
    }

    /// In a tree without commands every lookup fails: with the first token
    /// as an unknown one or, when there is no token, for want of a handler.
    pub proof fn lemma_bare_resolves(
        &self,
        input: Seq<Seq<char>>,
        args: Seq<V::Accept>,
        r: Result<(H, Seq<V::Accept>), LookFailure<V::Deny>>,
    )
        requires
            self.bare(self.validator()),
            self.handler() is None,
            self.resolves(input, args, r),
        ensures
            r == if input.len() == 0 {
                Err::<(H, Seq<V::Accept>), LookFailure<V::Deny>>(
                    LookFailure::FinalizerDoesNotExist,
                )
            } else {
                Err(LookFailure::UnknownMapping(input[0]))
            },
    {
        if input.len() > 0 {
            assert(self.child(input[0]) is None);
        }
    }

    proof fn lemma_sprouted_resolves(
        &self,
        validator: Option<&'a Decider<V>>,
        path: Seq<(Seq<char>, Option<&'a Decider<V>>)>,
        h: H,
        args: Seq<V::Accept>,
        r: Result<(H, Seq<V::Accept>), LookFailure<V::Deny>>,
    )
        requires
            self.sprouted(validator, path, h),
            self.unguarded(literals_of(path)),
            self.resolves(literals_of(path), args, r),
        ensures
            r == Ok::<(H, Seq<V::Accept>), LookFailure<V::Deny>>((h, args)),
        decreases path.len(),
    {
        if path.len() > 0 {
            assert(literals_of(path).skip(1) == literals_of(path.skip(1)));
            let node = self.child(path[0].0)->0;
            node.lemma_sprouted_resolves(path[0].1, path.skip(1), h, args, r);
        }
    }

    /// A lookup of the literals of a registered path yields the handler of
    /// the path and gathers no argument, provided that no node on the path
    /// has a validator.
    pub proof fn lemma_registered_resolves(
        &self,
        before: Self,
        path: Seq<(Seq<char>, Option<&'a Decider<V>>)>,
        h: H,
        args: Seq<V::Accept>,
        r: Result<(H, Seq<V::Accept>), LookFailure<V::Deny>>,
    )
        requires
            self.grown(before, path, h),
            self.unguarded(literals_of(path)),
            self.resolves(literals_of(path), args, r),
        ensures
            r == Ok::<(H, Seq<V::Accept>), LookFailure<V::Deny>>((h, args)),
        decreases path.len(),
    {
        if path.len() > 0 {
            assert(literals_of(path).skip(1) == literals_of(path.skip(1)));
            let node = self.child(path[0].0)->0;
            match before.child(path[0].0) {
                Some(old_node) => {
                    node.lemma_registered_resolves(old_node, path.skip(1), h, args, r);
                },
                None => {
                    node.lemma_sprouted_resolves(path[0].1, path.skip(1), h, args, r);
                },
            }
        }
    }

    proof fn lemma_sprouted_unguarded(
        &self,
        validator: Option<&'a Decider<V>>,
        path: Seq<(Seq<char>, Option<&'a Decider<V>>)>,
        h: H,
    )
        requires
            self.sprouted(validator, path, h),
            forall|k: int| 0 <= k < path.len() ==> (#[trigger] path[k]).1 is None,
        ensures
            self.validator() == validator,
            self.unguarded(literals_of(path)),
        decreases path.len(),
    {
        if path.len() > 0 {
            assert(literals_of(path).skip(1) == literals_of(path.skip(1)));
            assert(path[0].1 is None);
            let node = self.child(path[0].0)->0;
            assert forall|k: int| 0 <= k < path.skip(1).len() implies (#[trigger] path.skip(
                1,
            )[k]).1 is None by {
                assert(path[k + 1].1 is None);
            }
            node.lemma_sprouted_unguarded(path[0].1, path.skip(1), h);
        }
    }

    /// After a path without validators has been registered in a tree without
    /// commands, a lookup of its literals yields its handler and gathers no
    /// argument.
    pub proof fn lemma_first_registration_resolves(
        &self,
        before: Self,
        path: Seq<(Seq<char>, Option<&'a Decider<V>>)>,
        h: H,
        args: Seq<V::Accept>,
        r: Result<(H, Seq<V::Accept>), LookFailure<V::Deny>>,
    )
        requires
            before.bare(before.validator()),
            before.handler() is None,
            forall|k: int| 0 <= k < path.len() ==> (#[trigger] path[k]).1 is None,
            self.grown(before, path, h),
            self.resolves(literals_of(path), args, r),
        ensures
            r == Ok::<(H, Seq<V::Accept>), LookFailure<V::Deny>>((h, args)),
    {
        before.lemma_grown_from_bare(*self, before.validator(), path, h);
        self.lemma_sprouted_unguarded(before.validator(), path, h);
        self.lemma_sprouted_resolves(self.validator(), path, h, args, r);
    }

    /// A registration keeps every lookup that succeeds: what was found
    /// before is found after.
    pub proof fn lemma_registration_keeps_lookups(
        &self,
        before: Self,
        path: Seq<(Seq<char>, Option<&'a Decider<V>>)>,
        h: H,
        input: Seq<Seq<char>>,
        args: Seq<V::Accept>,
        r: Result<(H, Seq<V::Accept>), LookFailure<V::Deny>>,
    )
        requires
            before.refusal(path) is None,
            self.grown(before, path, h),
            before.resolves(input, args, r),
            r is Ok,
        ensures
            self.validator() == before.validator(),
            self.resolves(input, args, r),
        decreases input.len(),
    {
        if input.len() > 0 {
            let node = before.child(input[0])->0;
            if path.len() > 0 && input[0] == path[0].0 {
                let grown_node = self.child(input[0])->0;
                match node.validator() {
                    None => {
                        grown_node.lemma_registration_keeps_lookups(
                            node,
                            path.skip(1),
                            h,
                            input.skip(1),
                            args,
                            r,
                        );
                    },
                    Some(d) => {
                        let (after, decision): (Seq<V::Accept>, Decision<V::Deny>) = choose|
                            after: Seq<V::Accept>,
                            decision: Decision<V::Deny>,
                        |
                            {
                                &&& #[trigger] d.decider.decided(
                                    input.skip(1),
                                    args,
                                    after,
                                    decision,
                                )
                                &&& match decision {
                                    Decision::Deny(reason) => r == Err::<
                                        (H, Seq<V::Accept>),
                                        LookFailure<V::Deny>,
                                    >(LookFailure::DeciderDenied(d.description@, reason)),
                                    Decision::Accept(taken) => if taken < input.len() {
                                        node.resolves(input.skip(1 + taken), after, r)
                                    } else {
                                        r == Err::<(H, Seq<V::Accept>), LookFailure<V::Deny>>(
                                            LookFailure::DeciderAdvancedTooFar,
                                        )
                                    },
                                }
                            };
                        let taken = decision->Accept_0;
                        grown_node.lemma_registration_keeps_lookups(
                            node,
                            path.skip(1),
                            h,
                            input.skip(1 + taken),
                            after,
                            r,
                        );
                    },
                }
            } else {
                assert(self.child(input[0]) == before.child(input[0]));
            }
        }
    }

    proof fn lemma_sprouted_handles(
        &self,
        validator: Option<&'a Decider<V>>,
        path: Seq<(Seq<char>, Option<&'a Decider<V>>)>,
        h: H,
    )
        requires
            self.sprouted(validator, path, h),
        ensures
            self.handler() is Some == (path.len() == 0),
            path.len() > 0 ==> self.handles(literals_of(path)),
        decreases path.len(),
    {
        if path.len() > 0 {
            assert(literals_of(path).skip(1) == literals_of(path.skip(1)));
            self.child(path[0].0)->0.lemma_sprouted_handles(path[0].1, path.skip(1), h);
        }
    }

    /// A registered path leads to a node with a handler.
    pub proof fn lemma_registered_handles(
        &self,
        before: Self,
        path: Seq<(Seq<char>, Option<&'a Decider<V>>)>,
        h: H,
    )
        requires
            self.grown(before, path, h),
        ensures
            path.len() == 0 ==> self.handler() is Some,
            path.len() > 0 ==> self.handles(literals_of(path)),
        decreases path.len(),
    {
        if path.len() > 0 {
            assert(literals_of(path).skip(1) == literals_of(path.skip(1)));
            let node = self.child(path[0].0)->0;
            match before.child(path[0].0) {
                Some(old_node) => {
                    node.lemma_registered_handles(old_node, path.skip(1), h);
                },
                None => {
                    node.lemma_sprouted_handles(path[0].1, path.skip(1), h);
                },
            }
        }
    }

    /// A validator that always takes more tokens than it is shown makes the
    /// lookup fail.
    pub proof fn lemma_overrun_fails(
        &self,
        input: Seq<Seq<char>>,
        args: Seq<V::Accept>,
        r: Result<(H, Seq<V::Accept>), LookFailure<V::Deny>>,
    )
        requires
            input.len() > 0,
            self.child(input[0]) is Some,
            self.child(input[0])->0.validator() is Some,
            forall|after: Seq<V::Accept>, decision: Decision<V::Deny>| #[trigger]
                self.child(input[0])->0.validator()->0.decider.decided(
                    input.skip(1),
                    args,
                    after,
                    decision,
                ) ==> (decision matches Decision::Accept(taken) && taken >= input.len()),
            self.resolves(input, args, r),
        ensures
            r == Err::<(H, Seq<V::Accept>), LookFailure<V::Deny>>(
                LookFailure::DeciderAdvancedTooFar,
            ),
    {
    }

    /// A partial lookup of no tokens yields the node itself.
    pub proof fn lemma_reaches_here(
        &self,
        args: Seq<V::Accept>,
        r: Result<Either<Self, Seq<char>>, LookFailure<V::Deny>>,
    )
        requires
            self.reaches(Seq::empty(), args, r),
        ensures
            r == Ok::<Either<Self, Seq<char>>, LookFailure<V::Deny>>(Either::Left(*self)),
    {
    }

    /// A partial lookup that ends on the literal of a child with a validator
    /// yields the description of the validator, whatever the validator would
    /// decide.
    pub proof fn lemma_reaches_validator(
        &self,
        token: Seq<char>,
        args: Seq<V::Accept>,
        r: Result<Either<Self, Seq<char>>, LookFailure<V::Deny>>,
    )
        requires
            self.child(token) is Some,
            self.child(token)->0.validator() is Some,
            self.reaches(seq![token], args, r),
        ensures
            r == Ok::<Either<Self, Seq<char>>, LookFailure<V::Deny>>(
                Either::Right(self.child(token)->0.validator()->0.description@),
            ),
    {
    }
}

impl<'a, V, H> Mapping<'a, V, H> {
    /// Once a path is registered, a path that begins with the same literal
    /// and brings a validator for it is refused.
    pub proof fn lemma_second_validator_refused(
        &self,
        before: Self,
        path: Seq<(Seq<char>, Option<&'a Decider<V>>)>,
        h: H,
        again: Seq<(Seq<char>, Option<&'a Decider<V>>)>,
    )
        requires
            self.grown(before, path, h),
            path.len() > 0,
            again.len() > 0,
            again[0].0 == path[0].0,
            again[0].1 is Some,
        ensures
            self.refusal(again) == Some(RegError::DeciderAlreadyExists),
    {
    }

    proof fn lemma_sprouted_refuses(
        &self,
        validator: Option<&'a Decider<V>>,
        path: Seq<(Seq<char>, Option<&'a Decider<V>>)>,
        h: H,
    )
        requires
            self.sprouted(validator, path, h),
        ensures
            self.refusal(unguarded_path(path)) == Some(RegError::FinalizerAlreadyExists),
        decreases path.len(),
    {
        if path.len() > 0 {
            assert(unguarded_path(path).skip(1) == unguarded_path(path.skip(1)));
            self.child(path[0].0)->0.lemma_sprouted_refuses(path[0].1, path.skip(1), h);
        }
    }

    /// Once a path is registered, a path with the same literals and without
    /// validators is refused: a handler is bound to its end.
    pub proof fn lemma_second_handler_refused(
        &self,
        before: Self,
        path: Seq<(Seq<char>, Option<&'a Decider<V>>)>,
        h: H,
    )
        requires
            self.grown(before, path, h),
        ensures
            self.refusal(unguarded_path(path)) == Some(RegError::FinalizerAlreadyExists),
        decreases path.len(),
    {
        if path.len() > 0 {
            assert(unguarded_path(path).skip(1) == unguarded_path(path.skip(1)));
            let node = self.child(path[0].0)->0;
            match before.child(path[0].0) {
                Some(old_node) => {
                    node.lemma_second_handler_refused(old_node, path.skip(1), h);
                },
                None => {
                    node.lemma_sprouted_refuses(path[0].1, path.skip(1), h);
                },
            }
        }
    }
}

} // verus!
