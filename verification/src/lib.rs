//! An embeddable command-language engine.
//!
//! A statement is a line of atoms, separated by white space, and of
//! sub-commands in parentheses:
//!
//! ```text
//! command argument (subcommand argument ...) (#a string, taken as it is) argument ...
//! ```
//!
//! The crate splits statements into tokens and finds the statements in a
//! stream of bytes ([`metac`]), matches tokens against a tree of registered
//! commands, whose validators turn tokens into arguments ([`cmdmat`],
//! [`predicates`], [`types`]), and evaluates statements, in which the output
//! of a sub-command becomes an argument of the command around it
//! ([`evaluator`]). On top of that stand a loop that feeds a stream of bytes
//! to a consumer, unit by unit ([`incconsumer`]), and what a shell answers to
//! the statements that arrive on such a stream ([`shell`]).
//!
//! Validators, handlers, evaluators and consumers of bytes are traits. Each
//! lets an implementation state what it does, and the contracts of this
//! crate say what follows from that. An implementation that states nothing
//! can do as it likes: nothing is taken for granted of it.
//!
//! What the crate takes for granted of the standard library and of the
//! crates `regex` and `base64` is gathered in [`outside`].
pub mod cmdmat;
pub mod decision;
pub mod evaluator;
pub mod feedback;
pub mod incconsumer;
pub mod metac;
pub mod outside;
pub mod predicates;
pub mod shell;
pub mod text;
pub mod types;

pub use crate::cmdmat::Spec;
pub use crate::evaluator::{Evaluator, Feedback};
pub use crate::incconsumer::{Consumption, IncConsumer, Process, Run, Validation};
pub use crate::metac::{Evaluate, Interpret, PartialParse, PartialParseOp};
