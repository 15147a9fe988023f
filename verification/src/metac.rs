//! The statement syntax: tokens, the tokenizer and the byte-wise statement
//! parser.
use crate::outside::whitespace;
use crate::text::blank;
use vstd::prelude::*;
use vstd::std_specs::iter::IteratorSpec;

verus! {

/// The byte that ends a statement outside parentheses.
pub const NEWLINE: u8 = 10;

/// The byte that opens a sub-command.
pub const LEFT_PAREN: u8 = 40;

/// The byte that closes a sub-command.
pub const RIGHT_PAREN: u8 = 41;

/// Why a line is not a statement.
#[derive(Debug, PartialEq)]
pub enum ParseError {
    /// A left parenthesis is never closed.
    DanglingLeftParenthesis,
    /// A right parenthesis closes nothing.
    PrematureRightParenthesis,
}

/// The character that opens a sub-command.
pub const OPEN: char = '(';

/// The character that closes a sub-command.
pub const CLOSE: char = ')';

/// One token of a statement, borrowed from the line it was found in.
#[derive(Clone, Copy, Debug, Hash, PartialEq)]
pub enum Data<'a> {
    /// A run of characters without white space or parentheses.
    Atom(&'a str),
    /// What stands between a left parenthesis and the right parenthesis that
    /// matches it. It may hold parentheses itself, and is not split further.
    Command(&'a str),
}

/// A token as a mathematical value.
pub enum Token {
    /// An atom with its text.
    Atom(Seq<char>),
    /// A sub-command with the text inside its parentheses.
    Command(Seq<char>),
}

impl Token {
    /// The text of the token.
    pub open spec fn text(self) -> Seq<char> {
        match self {
            Token::Atom(s) => s,
            Token::Command(s) => s,
        }
    }

    /// The token as it stands in a line: a sub-command inside its parentheses.
    pub open spec fn rendered(self) -> Seq<char> {
        match self {
            Token::Atom(s) => s,
            Token::Command(s) => seq![OPEN] + s + seq![CLOSE],
        }
    }
}

impl<'a> View for Data<'a> {
    type V = Token;

    open spec fn view(&self) -> Token {
        match *self {
            Data::Atom(s) => Token::Atom(s@),
            Data::Command(s) => Token::Command(s@),
        }
    }
}

impl<'a> Data<'a> {
    /// The text of the token.
    pub fn content(&self) -> (s: &'a str)
        ensures
            s@ == self@.text(),
    {
        match *self {
            Data::Atom(string) => string,
            Data::Command(string) => string,
        }
    }
}

/// The tokens that a sequence of [`Data`] stands for.
pub open spec fn tokens<'a>(data: Seq<Data<'a>>) -> Seq<Token> {
    Seq::new(data.len(), |k: int| data[k]@)
}

/// Where a token stands in its line: the text of the token is the characters
/// from `start` up to, not including, `end`.
pub struct Span {
    /// Whether the token is a sub-command.
    pub command: bool,
    /// The position of the first character of the text.
    pub start: int,
    /// The position behind the last character of the text.
    pub end: int,
}

impl Span {
    /// The token that the span cuts out of a line.
    pub open spec fn token(self, line: Seq<char>) -> Token {
        if self.command {
            Token::Command(line.subrange(self.start, self.end))
        } else {
            Token::Atom(line.subrange(self.start, self.end))
        }
    }

    /// Where the token begins in the line, its left parenthesis included.
    pub open spec fn outer_start(self) -> int {
        if self.command {
            self.start - 1
        } else {
            self.start
        }
    }

    /// Where the token ends in the line, its right parenthesis included.
    pub open spec fn outer_end(self) -> int {
        if self.command {
            self.end + 1
        } else {
            self.end
        }
    }
}

/// The tokens that a sequence of spans cuts out of a line.
pub open spec fn cut(line: Seq<char>, spans: Seq<Span>) -> Seq<Token> {
    Seq::new(spans.len(), |k: int| spans[k].token(line))
}

/// The state of the tokenizer between two characters.
pub struct Scan {
    /// How many parentheses are open.
    pub depth: nat,
    /// Where the token under way begins.
    pub start: int,
    /// The tokens completed so far.
    pub spans: Seq<Span>,
    /// Whether a right parenthesis was met that closes nothing.
    pub failed: bool,
}

/// The completed tokens, with the atom under way if there is one.
pub open spec fn flushed(s: Scan, i: int) -> Seq<Span> {
    if s.start != i {
        s.spans.push(Span { command: false, start: s.start, end: i })
    } else {
        s.spans
    }
}

/// What one character does to the tokenizer.
pub struct Step {
    /// How many parentheses are open behind the character.
    pub depth: nat,
    /// Where the token under way behind the character begins.
    pub start: int,
    /// The token that the character completes, if it completes one.
    pub done: Option<Span>,
    /// Whether the character is a right parenthesis that closes nothing.
    pub failed: bool,
}

/// What the character `c` at position `i` does, `blank` telling whether it
/// is white space, when `depth` parentheses are open and the token under way
/// begins at `start`.
///
/// Inside parentheses only parentheses count: the right parenthesis that
/// closes the outermost one completes a sub-command. Outside, white space and
/// a left parenthesis complete the atom under way, a right parenthesis is an
/// error, and any other character belongs to an atom.
pub open spec fn step(depth: nat, start: int, i: int, c: char, blank: bool) -> Step {
    if depth > 0 {
        if c == OPEN {
            Step { depth: depth + 1, start, done: None, failed: false }
        } else if c == CLOSE {
            if depth == 1 {
                Step {
                    depth: 0,
                    start: i + 1,
                    done: Some(Span { command: true, start, end: i }),
                    failed: false,
                }
            } else {
                Step { depth: (depth - 1) as nat, start, done: None, failed: false }
            }
        } else {
            Step { depth, start, done: None, failed: false }
        }
    } else if blank || c == OPEN {
        Step {
            depth: if blank {
                0
            } else {
                1
            },
            start: i + 1,
            done: if start != i {
                Some(Span { command: false, start, end: i })
            } else {
                None
            },
            failed: false,
        }
    } else if c == CLOSE {
        Step { depth: 0, start, done: None, failed: true }
    } else {
        Step { depth: 0, start, done: None, failed: false }
    }
}

/// The state after the character `c` at position `i`.
pub open spec fn scan_char(s: Scan, i: int, c: char) -> Scan {
    let t = step(s.depth, s.start, i, c, whitespace(c));
    Scan {
        depth: t.depth,
        start: t.start,
        spans: match t.done {
            Some(span) => s.spans.push(span),
            None => s.spans,
        },
        failed: t.failed,
    }
}

/// The state after the first `n` characters of a line. Scanning stops at the
/// first error.
pub open spec fn scan(line: Seq<char>, n: int) -> Scan
    decreases n,
{
    if n <= 0 {
        Scan { depth: 0, start: 0, spans: Seq::empty(), failed: false }
    } else {
        let before = scan(line, n - 1);
        if before.failed {
            before
        } else {
            scan_char(before, n - 1, line[n - 1])
        }
    }
}

/// The spans of the tokens of a line, or why the line is not a statement.
pub open spec fn tokenize(line: Seq<char>) -> Result<Seq<Span>, ParseError> {
    let s = scan(line, line.len() as int);
    if s.failed {
        Err(ParseError::PrematureRightParenthesis)
    } else if s.depth > 0 {
        Err(ParseError::DanglingLeftParenthesis)
    } else {
        Ok(flushed(s, line.len() as int))
    }
}

/// The spans of the tokens that the tokenizer hands out for a line: all of
/// them if the line is a statement, else those completed before the error was
/// found.
pub open spec fn emitted(line: Seq<char>) -> Seq<Span> {
    match tokenize(line) {
        Ok(spans) => spans,
        Err(_) => scan(line, line.len() as int).spans,
    }
}

/// The tokens of a statement.
pub open spec fn statement(line: Seq<char>) -> Result<Seq<Token>, ParseError> {
    match tokenize(line) {
        Ok(spans) => Ok(cut(line, spans)),
        Err(e) => Err(e),
    }
}

/// A token that a character completes: whether it is a sub-command, and
/// where its text begins and ends.
pub type Piece = (bool, usize, usize);

/// The span of a piece.
pub open spec fn span_of(piece: Piece) -> Span {
    Span { command: piece.0, start: piece.1 as int, end: piece.2 as int }
}

/// The tokenizer as it runs, between two characters.
pub struct Scanner {
    /// How many parentheses are open.
    pub depth: usize,
    /// Where the token under way begins.
    pub start: usize,
}

impl Scanner {
    /// The tokenizer before the first character.
    pub fn new() -> (s: Self)
        ensures
            s.depth == 0,
            s.start == 0,
    {
        Scanner { depth: 0, start: 0 }
    }

    /// Takes the character `ch` at position `i`, of which `blank` tells
    /// whether it is white space, and gives the token that the character
    /// completes, if it completes one. A right parenthesis that closes
    /// nothing is an error and leaves the tokenizer as it was.
    pub fn advance(&mut self, i: usize, ch: char, blank: bool) -> (r: Result<
        Option<Piece>,
        ParseError,
    >)
        requires
            old(self).depth <= i < usize::MAX,
        ensures
            ({
                let t = step(old(self).depth as nat, old(self).start as int, i as int, ch, blank);
                if t.failed {
                    r == Err::<Option<Piece>, ParseError>(ParseError::PrematureRightParenthesis)
                        && *final(self) == *old(self)
                } else {
                    &&& final(self).depth == t.depth
                    &&& final(self).start == t.start
                    &&& match r {
                        Ok(Some(piece)) => t.done == Some(span_of(piece)),
                        Ok(None) => t.done is None,
                        Err(_) => false,
                    }
                }
            }),
    {
        if self.depth > 0 {
            if ch == OPEN {
                self.depth += 1;
            } else if ch == CLOSE {
                self.depth -= 1;
                if self.depth == 0 {
                    let piece = (true, self.start, i);
                    self.start = i + 1;
                    return Ok(Some(piece));
                }
            }
            Ok(None)
        } else if blank || ch == OPEN {
            let piece = if self.start != i {
                Some((false, self.start, i))
            } else {
                None
            };
            if !blank {
                self.depth = 1;
            }
            self.start = i + 1;
            Ok(piece)
        } else if ch == CLOSE {
            Err(ParseError::PrematureRightParenthesis)
        } else {
            Ok(None)
        }
    }

    /// Ends a line of `n` characters: gives the atom under way, if there is
    /// one, or the error of a parenthesis that is still open.
    pub fn finish(&self, n: usize) -> (r: Result<Option<Piece>, ParseError>)
        ensures
            r == if self.depth > 0 {
                Err::<Option<Piece>, ParseError>(ParseError::DanglingLeftParenthesis)
            } else if self.start != n {
                Ok(Some((false, self.start, n)))
            } else {
                Ok(None)
            },
    {
        if self.depth > 0 {
            Err(ParseError::DanglingLeftParenthesis)
        } else if self.start != n {
            Ok(Some((false, self.start, n)))
        } else {
            Ok(None)
        }
    }
}

/// The token that a piece cuts out of a line.
fn token_at<'a>(line: &'a str, piece: Piece) -> (d: Data<'a>)
    requires
        piece.1 <= piece.2 <= line@.len(),
    ensures
        d@ == span_of(piece).token(line@),
{
    let text = line.substring_char(piece.1, piece.2);
    if piece.0 {
        Data::Command(text)
    } else {
        Data::Atom(text)
    }
}

/// Splits a line into tokens and appends them to `output`.
///
/// An empty line has no tokens and is no error. On an error `output` has
/// received the tokens that were complete when the error was found.
pub fn parse<'a>(line: &'a str, output: &mut Vec<Data<'a>>) -> (r: Result<(), ParseError>)
    ensures
        r == match tokenize(line@) {
            Ok(_) => Ok::<(), ParseError>(()),
            Err(e) => Err(e),
        },
        tokens(final(output)@) == tokens(old(output)@) + cut(line@, emitted(line@)),
{
    broadcast use vstd::string::group_string_axioms;

    let n = line.unicode_len();
    let mut it = line.chars();
    let mut i: usize = 0;
    let mut scanner = Scanner::new();
    assert(tokens(output@) =~= tokens(old(output)@) + cut(line@, scan(line@, 0).spans));
    loop
        invariant
            n == line@.len(),
            it.remaining() == line@.skip(i as int),
            it.obeys_prophetic_iter_laws(),
            i <= n,
            scanner.start <= i,
            scanner.depth <= i,
            !scan(line@, i as int).failed,
            scan(line@, i as int).depth == scanner.depth,
            scan(line@, i as int).start == scanner.start,
            tokens(output@) == tokens(old(output)@) + cut(line@, scan(line@, i as int).spans),
        decreases n - i,
    {
        let ghost before = scan(line@, i as int);
        let ghost had = output@;
        let (completed, last) = match it.next() {
            None => {
                assert(i == n);
                (scanner.finish(n), true)
            },
            Some(ch) => {
                assert(ch == line@[i as int]);
                assert(scan(line@, i + 1) == scan_char(before, i as int, ch));
                let blank = ch.is_whitespace();
                (scanner.advance(i, ch, blank), false)
            },
        };
        match completed {
            Err(e) => {
                proof {
                    if !last {
                        lemma_failure_stays(line@, i + 1, n as int);
                    }
                }
                return Err(e);
            },
            Ok(Some(piece)) => {
                output.push(token_at(line, piece));
                proof {
                    let token = span_of(piece).token(line@);
                    assert(tokens(output@) =~= tokens(had) + seq![token]);
                    assert(cut(line@, before.spans.push(span_of(piece))) =~= cut(
                        line@,
                        before.spans,
                    ) + seq![token]);
                }
            },
            Ok(None) => {},
        }
        if last {
            return Ok(());
        }
        i += 1;
    }
}

/// Once the tokenizer has failed it takes in nothing more.
pub proof fn lemma_failure_stays(line: Seq<char>, m: int, n: int)
    requires
        0 <= m <= n,
        scan(line, m).failed,
    ensures
        scan(line, n) == scan(line, m),
    decreases n - m,
{
    if m < n {
        lemma_failure_stays(line, m, n - 1);
    }
}

/// The text of a line up to `end` that stands outside its tokens, piece by
/// piece: what precedes the first token, what separates each token from the
/// next, and what follows the last one.
pub open spec fn gaps(line: Seq<char>, spans: Seq<Span>, end: int) -> Seq<Seq<char>>
    decreases spans.len(),
{
    if spans.len() == 0 {
        seq![line.subrange(0, end)]
    } else {
        gaps(line, spans.drop_last(), spans.last().outer_start()).push(
            line.subrange(spans.last().outer_end(), end),
        )
    }
}

/// The text made of tokens as they stand in a line and the pieces of text
/// around them, in turn. There is one piece more than there are tokens.
pub open spec fn weave(pieces: Seq<Seq<char>>, toks: Seq<Token>) -> Seq<char>
    recommends
        pieces.len() == toks.len() + 1,
    decreases toks.len(),
{
    if toks.len() == 0 {
        pieces[0]
    } else {
        weave(pieces.drop_last(), toks.drop_last()) + toks.last().rendered() + pieces.last()
    }
}

/// Whether the spans lie in a line one behind the other up to `end`, each
/// sub-command between its parentheses, with nothing but white space around
/// them.
pub open spec fn tiled(line: Seq<char>, spans: Seq<Span>, end: int) -> bool
    decreases spans.len(),
{
    &&& 0 <= end <= line.len()
    &&& if spans.len() == 0 {
        blank(line.subrange(0, end))
    } else {
        let last = spans.last();
        &&& 0 <= last.outer_start()
        &&& last.start <= last.end
        &&& last.outer_end() <= end
        &&& last.command ==> line[last.start - 1] == OPEN && line[last.end] == CLOSE
        &&& blank(line.subrange(last.outer_end(), end))
        &&& tiled(line, spans.drop_last(), last.outer_start())
    }
}

proof fn lemma_tiled_grows(line: Seq<char>, spans: Seq<Span>, end: int)
    requires
        tiled(line, spans, end),
        end < line.len(),
        whitespace(line[end]),
    ensures
        tiled(line, spans, end + 1),
{
    let from = if spans.len() == 0 {
        0
    } else {
        spans.last().outer_end()
    };
    let old_gap = line.subrange(from, end);
    let new_gap = line.subrange(from, end + 1);
    assert forall|i: int| 0 <= i < new_gap.len() implies whitespace(#[trigger] new_gap[i]) by {
        if i < old_gap.len() {
            assert(new_gap[i] == old_gap[i]);
        }
    }
}

proof fn lemma_scan_tiles(line: Seq<char>, n: int)
    requires
        0 <= n <= line.len(),
        !scan(line, n).failed,
    ensures
        scan(line, n).depth == 0 ==> 0 <= scan(line, n).start <= n && tiled(
            line,
            scan(line, n).spans,
            scan(line, n).start,
        ),
        scan(line, n).depth > 0 ==> 1 <= scan(line, n).start <= n && line[scan(line, n).start
            - 1] == OPEN && tiled(line, scan(line, n).spans, scan(line, n).start - 1),
    decreases n,
{
    if n == 0 {
        assert(blank(line.subrange(0, 0)));
    } else {
        let s = scan(line, n - 1);
        let i = n - 1;
        let c = line[i];
        lemma_scan_tiles(line, i);
        let t = scan(line, n);
        assert(t == scan_char(s, i, c));
        if s.depth > 0 {
            if c == CLOSE && s.depth == 1 {
                assert(t.spans.drop_last() == s.spans);
                assert(blank(line.subrange(i + 1, i + 1)));
            }
        } else if whitespace(c) || c == OPEN {
            if s.start != i {
                assert(flushed(s, i).drop_last() == s.spans);
                assert(blank(line.subrange(i, i)));
                if whitespace(c) {
                    lemma_tiled_grows(line, flushed(s, i), i);
                }
            } else {
                if whitespace(c) {
                    lemma_tiled_grows(line, s.spans, i);
                }
            }
        }
    }
}

proof fn lemma_tiles_rejoin(line: Seq<char>, spans: Seq<Span>, end: int)
    requires
        tiled(line, spans, end),
    ensures
        gaps(line, spans, end).len() == spans.len() + 1,
        forall|k: int| 0 <= k <= spans.len() ==> blank(#[trigger] gaps(line, spans, end)[k]),
        weave(gaps(line, spans, end), cut(line, spans)) == line.subrange(0, end),
    decreases spans.len(),
{
    if spans.len() > 0 {
        let last = spans.last();
        let front = spans.drop_last();
        lemma_tiles_rejoin(line, front, last.outer_start());
        let g = gaps(line, spans, end);
        let inner = gaps(line, front, last.outer_start());
        assert(g.drop_last() == inner);
        assert(cut(line, spans).drop_last() == cut(line, front));
        assert(cut(line, spans).last() == last.token(line));
        assert(last.token(line).rendered() == line.subrange(last.outer_start(), last.outer_end()));
        assert(line.subrange(0, last.outer_start()) + line.subrange(
            last.outer_start(),
            last.outer_end(),
        ) + line.subrange(last.outer_end(), end) == line.subrange(0, end));
        assert forall|k: int| 0 <= k <= spans.len() implies blank(#[trigger] g[k]) by {
            if k < spans.len() {
                assert(g[k] == inner[k]);
            }
        }
    }
}

/// The tokens of a statement, each as it stood in the line, woven with the
/// text around them give the line back, and that text is white space only:
/// tokenizing loses nothing but the extent of the white space and the
/// parentheses around sub-commands.
pub proof fn lemma_tokens_rejoin(line: Seq<char>)
    requires
        tokenize(line) is Ok,
    ensures
        ({
            let spans = tokenize(line)->Ok_0;
            let pieces = gaps(line, spans, line.len() as int);
            &&& pieces.len() == spans.len() + 1
            &&& forall|k: int| 0 <= k <= spans.len() ==> blank(#[trigger] pieces[k])
            &&& weave(pieces, cut(line, spans)) == line
        }),
{
    let n = line.len() as int;
    let s = scan(line, n);
    lemma_scan_tiles(line, n);
    let spans = flushed(s, n);
    if s.start != n {
        assert(spans.drop_last() == s.spans);
        assert(blank(line.subrange(n, n)));
    }
    assert(tiled(line, spans, n));
    lemma_tiles_rejoin(line, spans, n);
    assert(line.subrange(0, n) == line);
}

/// The character that ends a statement outside parentheses.
pub const LINE_FEED: char = '\n';

/// An evaluator of statements: it is handed the tokens of one statement at a
/// time.
pub trait Evaluate<T: Default>: Sized {
    /// Whether the evaluator is in a state in which it can be used. Unless an
    /// implementation says otherwise it always is.
    open spec fn ready(&self) -> bool {
        true
    }

    /// Whether evaluating `statement` in the state `self` may leave the state
    /// `after` and give `result`.
    ///
    /// Unless an implementation says otherwise every outcome is possible, so
    /// that an implementation that states nothing promises nothing.
    open spec fn evaluated(&self, statement: Seq<Token>, after: Self, result: T) -> bool {
        true
    }

    /// Evaluates one statement, given as its tokens.
    fn evaluate<'a>(&mut self, statement: &[Data<'a>]) -> (result: T)
        requires
            old(self).ready(),
        ensures
            final(self).ready(),
            old(self).evaluated(tokens(statement@), *final(self), result),
    ;
}

/// Whether interpreting `line` as one statement in the state `before` may
/// leave the state `after` and give `r`: a line that is no statement changes
/// nothing and gives its error, any other is evaluated as its tokens.
pub open spec fn interprets<T: Default, E: Evaluate<T>>(
    before: E,
    line: Seq<char>,
    after: E,
    r: Result<T, ParseError>,
) -> bool {
    match statement(line) {
        Err(e) => after == before && r == Err::<T, ParseError>(e),
        Ok(toks) => r is Ok && before.evaluated(toks, after, r->Ok_0),
    }
}

/// The state of the splitting of a text into statements, between two
/// characters.
pub struct Split {
    /// How many parentheses are open.
    pub depth: nat,
    /// Whether the statement under way holds anything but white space.
    pub seen: bool,
    /// Where the statement under way begins.
    pub start: int,
    /// The statements completed so far, each from its first character up to,
    /// not including, the line feed that ends it.
    pub pieces: Seq<(int, int)>,
    /// Whether a right parenthesis was met that closes nothing.
    pub failed: bool,
}

/// What one character does to the splitting of a text into statements.
pub struct SplitStep {
    /// How many parentheses are open behind the character.
    pub depth: nat,
    /// Whether the statement under way behind the character holds anything
    /// but white space.
    pub seen: bool,
    /// Where the statement under way behind the character begins.
    pub start: int,
    /// The statement that the character ends, if it ends one.
    pub done: Option<(int, int)>,
    /// Whether the character is a right parenthesis that closes nothing.
    pub failed: bool,
}

/// What the character `c` at position `i` does, `blank` telling whether it
/// is white space, when `depth` parentheses are open and the statement under
/// way begins at `start` and has `seen` more than white space or not.
///
/// A line feed ends the statement under way if no parenthesis is open and the
/// statement holds more than white space; otherwise it belongs to the
/// statement.
pub open spec fn split_step(
    depth: nat,
    seen: bool,
    start: int,
    i: int,
    c: char,
    blank: bool,
) -> SplitStep {
    if c == LINE_FEED && depth == 0 && seen {
        SplitStep { depth: 0, seen: false, start: i + 1, done: Some((start, i)), failed: false }
    } else if c == OPEN {
        SplitStep { depth: depth + 1, seen: true, start, done: None, failed: false }
    } else if c == CLOSE {
        if depth == 0 {
            SplitStep { depth: 0, seen, start, done: None, failed: true }
        } else {
            SplitStep { depth: (depth - 1) as nat, seen: true, start, done: None, failed: false }
        }
    } else if !blank {
        SplitStep { depth, seen: true, start, done: None, failed: false }
    } else {
        SplitStep { depth, seen, start, done: None, failed: false }
    }
}

/// The state after the character `c` at position `i`.
pub open spec fn split_char(s: Split, i: int, c: char) -> Split {
    let t = split_step(s.depth, s.seen, s.start, i, c, whitespace(c));
    Split {
        depth: t.depth,
        seen: t.seen,
        start: t.start,
        pieces: match t.done {
            Some(piece) => s.pieces.push(piece),
            None => s.pieces,
        },
        failed: t.failed,
    }
}

/// The state after the first `n` characters of a text. Splitting stops at the
/// first error.
pub open spec fn split(code: Seq<char>, n: int) -> Split
    decreases n,
{
    if n <= 0 {
        Split { depth: 0, seen: false, start: 0, pieces: Seq::empty(), failed: false }
    } else {
        let before = split(code, n - 1);
        if before.failed {
            before
        } else {
            split_char(before, n - 1, code[n - 1])
        }
    }
}

/// The statements of a text that are interpreted, in order: those that a line
/// feed ends and, unless the splitting failed, the one that the end of the
/// text ends.
pub open spec fn statements(code: Seq<char>) -> Seq<(int, int)> {
    let s = split(code, code.len() as int);
    if !s.failed && s.seen && s.start != code.len() {
        s.pieces.push((s.start, code.len() as int))
    } else {
        s.pieces
    }
}

/// Whether interpreting the given pieces of `code` one after the other, from
/// the state `before`, may leave the state `after` and give `r`. The first
/// error ends the run. With no piece at all the result is a default value.
pub open spec fn interprets_all<T: Default, E: Evaluate<T>>(
    before: E,
    code: Seq<char>,
    pieces: Seq<(int, int)>,
    after: E,
    r: Result<T, ParseError>,
) -> bool
    decreases pieces.len(),
{
    if pieces.len() == 0 {
        after == before && r is Ok && call_ensures(T::default, (), r->Ok_0)
    } else {
        exists|mid: E, earlier: Result<T, ParseError>|
            {
                &&& interprets_all(before, code, pieces.drop_last(), mid, earlier)
                &&& #[trigger] carries_on(mid, earlier, code, pieces.last(), after, r)
            }
    }
}

/// Whether, after a run that left the state `mid` and gave `earlier`,
/// interpreting one more piece of `code` may leave `after` and give `r`.
pub open spec fn carries_on<T: Default, E: Evaluate<T>>(
    mid: E,
    earlier: Result<T, ParseError>,
    code: Seq<char>,
    piece: (int, int),
    after: E,
    r: Result<T, ParseError>,
) -> bool {
    match earlier {
        Err(e) => after == mid && r == Err::<T, ParseError>(e),
        Ok(_) => interprets(mid, code.subrange(piece.0, piece.1), after, r),
    }
}

/// Whether interpreting `code`, statement by statement, from the state
/// `before` may leave the state `after` and give `r`.
///
/// The statements are interpreted in order and the last result is given back.
/// A right parenthesis that closes nothing is an error, which is found only
/// after the statements that precede it have been interpreted.
pub open spec fn interprets_text<T: Default, E: Evaluate<T>>(
    before: E,
    code: Seq<char>,
    after: E,
    r: Result<T, ParseError>,
) -> bool {
    if split(code, code.len() as int).failed {
        exists|earlier: Result<T, ParseError>|
            {
                &&& #[trigger] interprets_all(before, code, statements(code), after, earlier)
                &&& r == match earlier {
                    Err(e) => Err::<T, ParseError>(e),
                    Ok(_) => Err(ParseError::PrematureRightParenthesis),
                }
            }
    } else {
        interprets_all(before, code, statements(code), after, r)
    }
}

/// The splitting of a text into statements as it runs, between two
/// characters.
pub struct Splitter {
    /// How many parentheses are open.
    pub depth: usize,
    /// Whether the statement under way holds anything but white space.
    pub seen: bool,
    /// Where the statement under way begins.
    pub start: usize,
}

impl Splitter {
    /// The splitting before the first character.
    pub fn new() -> (s: Self)
        ensures
            s.depth == 0,
            !s.seen,
            s.start == 0,
    {
        Splitter { depth: 0, seen: false, start: 0 }
    }

    /// Takes the character `ch` at position `i`, of which `blank` tells
    /// whether it is white space, and gives the statement that the character
    /// ends, if it ends one, as the positions of its first character and of
    /// the character. A right parenthesis that closes nothing is an error
    /// and leaves the splitting as it was.
    pub fn advance(&mut self, i: usize, ch: char, blank: bool) -> (r: Result<
        Option<(usize, usize)>,
        ParseError,
    >)
        requires
            old(self).depth <= i < usize::MAX,
        ensures
            ({
                let t = split_step(
                    old(self).depth as nat,
                    old(self).seen,
                    old(self).start as int,
                    i as int,
                    ch,
                    blank,
                );
                if t.failed {
                    r == Err::<Option<(usize, usize)>, ParseError>(
                        ParseError::PrematureRightParenthesis,
                    ) && *final(self) == *old(self)
                } else {
                    &&& final(self).depth == t.depth
                    &&& final(self).seen == t.seen
                    &&& final(self).start == t.start
                    &&& match r {
                        Ok(Some(piece)) => t.done == Some((piece.0 as int, piece.1 as int)),
                        Ok(None) => t.done is None,
                        Err(_) => false,
                    }
                }
            }),
    {
        if ch == LINE_FEED && self.depth == 0 && self.seen {
            let piece = (self.start, i);
            self.seen = false;
            self.start = i + 1;
            return Ok(Some(piece));
        } else if ch == OPEN {
            self.depth += 1;
            self.seen = true;
        } else if ch == CLOSE {
            if self.depth == 0 {
                return Err(ParseError::PrematureRightParenthesis);
            }
            self.depth -= 1;
            self.seen = true;
        } else if !blank {
            self.seen = true;
        }
        Ok(None)
    }

    /// Ends a text of `n` characters: gives the statement under way, if it
    /// holds more than white space.
    pub fn finish(&self, n: usize) -> (r: Option<(usize, usize)>)
        ensures
            r == if self.seen && self.start != n {
                Some((self.start, n))
            } else {
                None
            },
    {
        if self.start != n && self.seen {
            Some((self.start, n))
        } else {
            None
        }
    }
}

/// What every evaluator can do with text: interpret it as one statement, or
/// as several.
pub trait Interpret<T: Default>: Evaluate<T> {
    /// Interprets a text as one statement, in which line feeds are white
    /// space.
    fn interpret_single(&mut self, statement: &str) -> (r: Result<T, ParseError>)
        requires
            old(self).ready(),
        ensures
            final(self).ready(),
            interprets(*old(self), statement@, *final(self), r),
    ;

    /// Interprets a text statement by statement.
    ///
    /// A line feed ends a statement unless a parenthesis is open or the
    /// statement holds nothing but white space so far.
    fn interpret_multiple(&mut self, code: &str) -> (r: Result<T, ParseError>)
        requires
            old(self).ready(),
        ensures
            final(self).ready(),
            interprets_text(*old(self), code@, *final(self), r),
    ;
}

impl<T: Default, E: Evaluate<T>> Interpret<T> for E {
    fn interpret_single(&mut self, statement: &str) -> (r: Result<T, ParseError>) {
        let mut data: Vec<Data<'_>> = Vec::new();
        match parse(statement, &mut data) {
            Err(e) => Err(e),
            Ok(_) => {
                assert(tokens(data@) == cut(statement@, emitted(statement@)));
                Ok(self.evaluate(data.as_slice()))
            },
        }
    }

    fn interpret_multiple(&mut self, code: &str) -> (r: Result<T, ParseError>) {
        broadcast use vstd::string::group_string_axioms;

        let n = code.unicode_len();
        let mut it = code.chars();
        let mut splitter = Splitter::new();
        let mut result = T::default();
        let mut idx: usize = 0;
        loop
            invariant
                n == code@.len(),
                it.remaining() == code@.skip(idx as int),
                it.obeys_prophetic_iter_laws(),
                idx <= n,
                splitter.start <= idx,
                splitter.depth <= idx,
                self.ready(),
                !split(code@, idx as int).failed,
                split(code@, idx as int).depth == splitter.depth,
                split(code@, idx as int).seen == splitter.seen,
                split(code@, idx as int).start == splitter.start,
                interprets_all(
                    *old(self),
                    code@,
                    split(code@, idx as int).pieces,
                    *self,
                    Ok::<T, ParseError>(result),
                ),
            decreases n - idx,
        {
            let ghost had = split(code@, idx as int);
            let ghost mid = *self;
            let ghost earlier = Ok::<T, ParseError>(result);
            match it.next() {
                None => {
                    assert(idx == n);
                    match splitter.finish(n) {
                        Some(piece) => {
                            let r = self.interpret_single(code.substring_char(piece.0, piece.1));
                            proof {
                                let all = statements(code@);
                                assert(all.drop_last() == had.pieces);
                                assert(carries_on(mid, earlier, code@, all.last(), *self, r));
                            }
                            return r;
                        },
                        None => {
                            return Ok(result);
                        },
                    }
                },
                Some(ch) => {
                    assert(ch == code@[idx as int]);
                    assert(split(code@, idx + 1) == split_char(had, idx as int, ch));
                    let blank = ch.is_whitespace();
                    match splitter.advance(idx, ch, blank) {
                        Err(e) => {
                            proof {
                                lemma_split_failure_stays(code@, idx + 1, n as int);
                                assert(statements(code@) == had.pieces);
                                assert(interprets_all(
                                    *old(self),
                                    code@,
                                    statements(code@),
                                    *self,
                                    earlier,
                                ));
                            }
                            return Err(e);
                        },
                        Ok(Some(piece)) => {
                            let r = self.interpret_single(code.substring_char(piece.0, piece.1));
                            proof {
                                let now = split(code@, idx + 1).pieces;
                                assert(now.drop_last() == had.pieces);
                                assert(carries_on(mid, earlier, code@, now.last(), *self, r));
                            }
                            match r {
                                Err(e) => {
                                    proof {
                                        lemma_interprets_text_fails(
                                            *old(self),
                                            code@,
                                            idx + 1,
                                            *self,
                                            e,
                                        );
                                    }
                                    return Err(e);
                                },
                                Ok(value) => {
                                    result = value;
                                },
                            }
                        },
                        Ok(None) => {},
                    }
                    idx += 1;
                },
            }
        }
    }
}

/// Once the splitting has failed it takes in nothing more.
pub proof fn lemma_split_failure_stays(code: Seq<char>, m: int, n: int)
    requires
        0 <= m <= n,
        split(code, m).failed,
    ensures
        split(code, n) == split(code, m),
    decreases n - m,
{
    if m < n {
        lemma_split_failure_stays(code, m, n - 1);
    }
}

/// The statements completed at some point of the splitting are the first of
/// those completed later.
proof fn lemma_pieces_grow(code: Seq<char>, m: int, n: int)
    requires
        0 <= m <= n,
    ensures
        split(code, m).pieces.len() <= split(code, n).pieces.len(),
        split(code, n).pieces.take(split(code, m).pieces.len() as int) == split(code, m).pieces,
    decreases n - m,
{
    if m < n {
        lemma_pieces_grow(code, m, n - 1);
        let a = split(code, m).pieces;
        let b = split(code, n - 1).pieces;
        let c = split(code, n).pieces;
        assert(c.take(a.len() as int) == b.take(a.len() as int));
    } else {
        let a = split(code, m).pieces;
        assert(a.take(a.len() as int) == a);
    }
}

/// A run that has met an error gives that error however many pieces follow.
proof fn lemma_error_ends_run<T: Default, E: Evaluate<T>>(
    before: E,
    code: Seq<char>,
    pieces: Seq<(int, int)>,
    k: int,
    after: E,
    e: ParseError,
)
    requires
        0 <= k <= pieces.len(),
        interprets_all(before, code, pieces.take(k), after, Err::<T, ParseError>(e)),
    ensures
        interprets_all(before, code, pieces, after, Err::<T, ParseError>(e)),
    decreases pieces.len() - k,
{
    if k < pieces.len() {
        let longer = pieces.take(k + 1);
        assert(longer.drop_last() == pieces.take(k));
        assert(carries_on(
            after,
            Err::<T, ParseError>(e),
            code,
            longer.last(),
            after,
            Err::<T, ParseError>(e),
        ));
        assert(interprets_all(before, code, longer, after, Err::<T, ParseError>(e)));
        lemma_error_ends_run(before, code, pieces, k + 1, after, e);
    } else {
        assert(pieces.take(k) == pieces);
    }
}

proof fn lemma_interprets_text_fails<T: Default, E: Evaluate<T>>(
    before: E,
    code: Seq<char>,
    m: int,
    after: E,
    e: ParseError,
)
    requires
        0 <= m <= code.len(),
        interprets_all(before, code, split(code, m).pieces, after, Err::<T, ParseError>(e)),
    ensures
        interprets_text(before, code, after, Err::<T, ParseError>(e)),
{
    let n = code.len() as int;
    let done = split(code, m).pieces;
    let all = statements(code);
    lemma_pieces_grow(code, m, n);
    let scanned = split(code, n).pieces;
    assert(all.take(done.len() as int) == done) by {
        assert(scanned.take(done.len() as int) == done);
        if all.len() > scanned.len() {
            assert(all.take(done.len() as int) == scanned.take(done.len() as int));
        }
    }
    lemma_error_ends_run(before, code, all, done.len() as int, after, e);
}

/// What one more byte means for the bytes gathered so far.
#[derive(Debug, PartialEq)]
pub enum PartialParseOp {
    /// A statement is complete.
    Ready,
    /// The statement goes on.
    Unready,
    /// The statement is invalid: drop what was gathered.
    Discard,
}

/// The mathematical state of a [`PartialParse`].
pub struct ParseState {
    /// How many parentheses are open.
    pub depth: nat,
    /// Whether the current statement has been found invalid.
    pub discard: bool,
}

/// The state after one byte, and what the byte means.
///
/// A newline outside parentheses completes the statement and clears the
/// discard mark. A left parenthesis opens a level, a right parenthesis closes
/// one, and a right parenthesis that closes nothing marks the statement for
/// discarding. While the mark is set every other byte is to be discarded.
pub open spec fn observe(s: ParseState, byte: u8) -> (ParseState, PartialParseOp) {
    let verdict = if s.discard {
        PartialParseOp::Discard
    } else {
        PartialParseOp::Unready
    };
    if byte == NEWLINE && s.depth == 0 {
        (ParseState { depth: 0, discard: false }, PartialParseOp::Ready)
    } else if byte == LEFT_PAREN {
        (ParseState { depth: s.depth + 1, discard: s.discard }, verdict)
    } else if byte == RIGHT_PAREN {
        if s.depth == 0 {
            (ParseState { depth: 0, discard: true }, PartialParseOp::Discard)
        } else {
            (ParseState { depth: (s.depth - 1) as nat, discard: s.discard }, verdict)
        }
    } else {
        (s, verdict)
    }
}

/// The state after a run of bytes.
pub open spec fn observe_all(s: ParseState, bytes: Seq<u8>) -> ParseState
    decreases bytes.len(),
{
    if bytes.len() == 0 {
        s
    } else {
        observe(observe_all(s, bytes.drop_last()), bytes.last()).0
    }
}

/// What the last byte of a non-empty run of bytes means.
pub open spec fn last_verdict(s: ParseState, bytes: Seq<u8>) -> PartialParseOp
    recommends
        bytes.len() > 0,
{
    observe(observe_all(s, bytes.drop_last()), bytes.last()).1
}

/// A statement parser that is fed one byte at a time, without look-ahead.
///
/// It only finds the statement boundaries in a stream; it interprets nothing.
#[derive(Debug, PartialEq)]
pub struct PartialParse {
    lparen_stack: usize,
    has_encountered_rparen: bool,
}

impl View for PartialParse {
    type V = ParseState;

    closed spec fn view(&self) -> ParseState {
        ParseState { depth: self.lparen_stack as nat, discard: self.has_encountered_rparen }
    }
}

impl Default for PartialParse {
    fn default() -> (p: Self)
        ensures
            p@ == (ParseState { depth: 0, discard: false }),
    {
        PartialParse { lparen_stack: 0, has_encountered_rparen: false }
    }
}

impl PartialParse {
    /// How many parentheses are open.
    pub fn depth(&self) -> (d: usize)
        ensures
            d == self@.depth,
    {
        self.lparen_stack
    }

    /// Takes the next byte of the stream.
    ///
    /// On `Ready` the bytes since the last boundary, but for those that were
    /// to be discarded, form a statement. On `Discard` all bytes since the
    /// last boundary are to be dropped. On `Unready` the byte was taken note
    /// of and the statement goes on.
    pub fn parse_increment(&mut self, input: u8) -> (op: PartialParseOp)
        requires
            old(self)@.depth < usize::MAX,
        ensures
            (final(self)@, op) == observe(old(self)@, input),
    {
        if input == NEWLINE && self.lparen_stack == 0 {
            self.has_encountered_rparen = false;
            return PartialParseOp::Ready;
        } else if input == LEFT_PAREN {
            self.lparen_stack += 1;
        } else if input == RIGHT_PAREN {
            if self.lparen_stack == 0 {
                self.has_encountered_rparen = true;
                return PartialParseOp::Discard;
            }
            self.lparen_stack -= 1;
        }
        if self.has_encountered_rparen {
            PartialParseOp::Discard
        } else {
            PartialParseOp::Unready
        }
    }
}

/// Once a statement is marked for discarding, no byte is reported as
/// `Unready`, and the mark stays until a byte is reported as `Ready`.
pub proof fn lemma_discard_persists(s: ParseState, bytes: Seq<u8>)
    requires
        s.discard,
        forall|k: int| 0 < k <= bytes.len() ==> last_verdict(s, #[trigger] bytes.take(k))
            != PartialParseOp::Ready,
    ensures
        observe_all(s, bytes).discard,
        forall|k: int| 0 < k <= bytes.len() ==> last_verdict(s, #[trigger] bytes.take(k))
            == PartialParseOp::Discard,
    decreases bytes.len(),
{
    if bytes.len() > 0 {
        let front = bytes.drop_last();
        assert forall|k: int| 0 < k <= front.len() implies last_verdict(
            s,
            #[trigger] front.take(k),
        ) != PartialParseOp::Ready by {
            assert(front.take(k) == bytes.take(k));
        }
        lemma_discard_persists(s, front);
        assert(bytes.take(bytes.len() as int) == bytes);
        assert forall|k: int| 0 < k <= bytes.len() implies last_verdict(
            s,
            #[trigger] bytes.take(k),
        ) == PartialParseOp::Discard by {
            if k < bytes.len() {
                assert(front.take(k) == bytes.take(k));
            }
        }
    }
}

/// A newline outside parentheses is reported as `Ready` and leaves a clean
/// state, whatever came before.
pub proof fn lemma_newline_resynchronises(s: ParseState)
    requires
        s.depth == 0,
    ensures
        observe(s, NEWLINE) == ((ParseState { depth: 0, discard: false }, PartialParseOp::Ready)),
{
}

} // verus!
