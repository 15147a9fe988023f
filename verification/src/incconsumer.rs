//! Incremental consumption of a byte stream of unknown size and timing.
//!
//! Incoming bytes are gathered in a buffer of fixed size and shown, one by
//! one, to a validator. Once the validator approves, the gathered bytes are
//! processed as one unit; when it objects, they are dropped.
use vstd::prelude::*;

verus! {

/// The answer of a byte source.
#[derive(Debug)]
pub enum Consumption {
    /// This many bytes were written to the front of the offered buffer.
    Consumed(usize),
    /// The source is exhausted: stop.
    Stop,
}

/// The verdict on the bytes gathered so far, after one more byte.
#[derive(Debug)]
pub enum Validation {
    /// The gathered bytes form a complete unit: process them, then start anew.
    Ready,
    /// Keep gathering.
    Unready,
    /// Drop the gathered bytes.
    Discard,
    /// Stop.
    Stop,
}

/// Whether to go on after a unit has been processed.
#[derive(Debug)]
pub enum Process {
    /// Go on with the bytes that follow.
    Continue,
    /// Stop.
    Stop,
}

/// What a buffer holds after the bytes from `shift` up to `begin` have been
/// moved to its front.
pub open spec fn shifted(buf: Seq<u8>, shift: int, begin: int) -> Seq<u8> {
    buf.subrange(shift, begin) + buf.subrange(begin - shift, buf.len() as int)
}

/// Moves the bytes of a buffer from `shift` up to `begin` to its front. The
/// bytes behind them stay where they are.
pub fn shift_down(buf: &mut [u8], shift: usize, begin: usize)
    requires
        shift <= begin <= old(buf)@.len(),
    ensures
        final(buf)@ == shifted(old(buf)@, shift as int, begin as int),
{
    let mut idx = shift;
    while idx < begin
        invariant
            shift <= idx <= begin <= buf@.len(),
            buf@.len() == old(buf)@.len(),
            forall|k: int| 0 <= k < idx - shift ==> buf@[k] == old(buf)@[k + shift],
            forall|k: int| idx - shift <= k < buf@.len() ==> buf@[k] == old(buf)@[k],
        decreases begin - idx,
    {
        let byte = buf[idx];
        buf[idx - shift] = byte;
        idx += 1;
    }
    assert(buf@ =~= shifted(old(buf)@, shift as int, begin as int));
}

/// A consumer of a byte stream: it fetches bytes, judges them one by one, and
/// processes them unit by unit.
///
/// Of each of the three operations the trait lets an implementation say what
/// it may do. Unless an implementation says otherwise every outcome is
/// possible, so that an implementation that states nothing promises nothing
/// but that a slice keeps its length, which holds of every implementation.
pub trait IncConsumer: Sized {
    /// Whether the consumer, offered a buffer that holds `room`, may leave it
    /// holding `filled`, become `after` and answer `fetched`.
    open spec fn consumed(
        &self,
        room: Seq<u8>,
        after: Self,
        filled: Seq<u8>,
        fetched: Consumption,
    ) -> bool {
        true
    }

    /// Whether the consumer, shown `byte`, may become `after` and give
    /// `verdict`.
    open spec fn validated(&self, byte: u8, after: Self, verdict: Validation) -> bool {
        true
    }

    /// Whether the consumer, handed `unit`, may become `after` and answer
    /// `next`.
    open spec fn processed(&self, unit: Seq<u8>, after: Self, next: Process) -> bool {
        true
    }

    /// Fetches bytes into the front of `output` and says how many, or that
    /// there are no more.
    fn consume(&mut self, output: &mut [u8]) -> (fetched: Consumption)
        ensures
            final(output)@.len() == old(output)@.len(),
            old(self).consumed(old(output)@, *final(self), final(output)@, fetched),
    ;

    /// Judges the bytes gathered so far, of which `output` is the last.
    fn validate(&mut self, output: u8) -> (verdict: Validation)
        ensures
            old(self).validated(output, *final(self), verdict),
    ;

    /// Processes a unit of bytes that `validate` has approved of.
    fn process(&mut self, input: &[u8]) -> (next: Process)
        ensures
            old(self).processed(input@, *final(self), next),
    ;
}

/// Whether a consumer `c` that is shown the bytes of `buf` from `at` up to
/// `end`, with a unit under way since `shift`, may become `c_end`, with a
/// unit under way since `shift_end`, and whether it then has `stopped`.
///
/// Each byte is judged. `Unready` lets the unit go on. `Discard` drops the
/// unit: the next one begins behind the byte. `Ready` has the unit, the byte
/// included, processed, and the next one begins behind the byte, unless the
/// consumer answers `Stop`. A verdict of `Stop` ends the run as well.
pub open spec fn scans<T: IncConsumer>(
    c: T,
    buf: Seq<u8>,
    shift: int,
    at: int,
    end: int,
    c_end: T,
    shift_end: int,
    stopped: bool,
) -> bool
    decreases end - at, 2nat,
{
    if at >= end {
        c_end == c && shift_end == shift && !stopped
    } else {
        exists|c1: T, verdict: Validation|
            {
                &&& #[trigger] c.validated(buf[at], c1, verdict)
                &&& judged(c1, verdict, buf, shift, at, end, c_end, shift_end, stopped)
            }
    }
}

/// Whether, after the byte at `at` was given `verdict`, the scan may end as
/// [`scans`] says.
pub open spec fn judged<T: IncConsumer>(
    c1: T,
    verdict: Validation,
    buf: Seq<u8>,
    shift: int,
    at: int,
    end: int,
    c_end: T,
    shift_end: int,
    stopped: bool,
) -> bool
    decreases end - at, 1nat,
    when at < end
{
    match verdict {
        Validation::Unready => scans(c1, buf, shift, at + 1, end, c_end, shift_end, stopped),
        Validation::Discard => scans(c1, buf, at + 1, at + 1, end, c_end, shift_end, stopped),
        Validation::Stop => c_end == c1 && shift_end == shift && stopped,
        Validation::Ready => handed(c1, buf, shift, at, end, c_end, shift_end, stopped),
    }
}

/// Whether, after the unit that ends with the byte at `at` was handed to the
/// consumer, the scan may end as [`scans`] says.
pub open spec fn handed<T: IncConsumer>(
    c1: T,
    buf: Seq<u8>,
    shift: int,
    at: int,
    end: int,
    c_end: T,
    shift_end: int,
    stopped: bool,
) -> bool
    decreases end - at, 0nat,
    when at < end
{
    exists|c2: T, next: Process|
        {
            &&& #[trigger] c1.processed(buf.subrange(shift, at + 1), c2, next)
            &&& match next {
                Process::Stop => c_end == c2 && shift_end == shift && stopped,
                Process::Continue => scans(
                    c2,
                    buf,
                    at + 1,
                    at + 1,
                    end,
                    c_end,
                    shift_end,
                    stopped,
                ),
            }
        }
}

/// Whether a consumer `c` that is run for at most `rounds` rounds on a buffer
/// that holds `buf`, with bytes gathered up to `begin` and a unit under way
/// since `shift`, may become `c_end` and leave the buffer holding `buf_end`.
///
/// In each round the bytes of the unit under way are moved to the front of
/// the buffer, the consumer is offered the room behind them, and the bytes
/// that it fetches are scanned. The run ends when the consumer has no more
/// bytes, when it claims more than it was offered room for, and when the
/// scan is stopped.
pub open spec fn runs<T: IncConsumer>(
    c: T,
    buf: Seq<u8>,
    begin: int,
    shift: int,
    rounds: nat,
    c_end: T,
    buf_end: Seq<u8>,
) -> bool
    decreases rounds, 2nat,
{
    if rounds == 0 {
        c_end == c && buf_end == buf
    } else {
        exists|c1: T, filled: Seq<u8>, fetched: Consumption|
            {
                &&& #[trigger] c.consumed(
                    shifted(buf, shift, begin).skip(begin - shift),
                    c1,
                    filled,
                    fetched,
                )
                &&& filled.len() == buf.len() - (begin - shift)
                &&& fetched_then(
                    c1,
                    shifted(buf, shift, begin).take(begin - shift) + filled,
                    begin - shift,
                    fetched,
                    rounds,
                    c_end,
                    buf_end,
                )
            }
    }
}

/// Whether, after the consumer has answered `fetched` in a round, the run
/// may end as [`runs`] says.
pub open spec fn fetched_then<T: IncConsumer>(
    c1: T,
    buf: Seq<u8>,
    kept: int,
    fetched: Consumption,
    rounds: nat,
    c_end: T,
    buf_end: Seq<u8>,
) -> bool
    decreases rounds, 1nat,
    when rounds > 0
{
    match fetched {
        Consumption::Stop => c_end == c1 && buf_end == buf,
        Consumption::Consumed(amount) => if amount > buf.len() - kept {
            c_end == c1 && buf_end == buf
        } else {
            scanned_then(c1, buf, kept, kept + amount, rounds, c_end, buf_end)
        },
    }
}

/// Whether, with the bytes from `kept` up to `end` fetched in a round, the
/// run may end as [`runs`] says.
pub open spec fn scanned_then<T: IncConsumer>(
    c1: T,
    buf: Seq<u8>,
    kept: int,
    end: int,
    rounds: nat,
    c_end: T,
    buf_end: Seq<u8>,
) -> bool
    decreases rounds, 0nat,
    when rounds > 0
{
    exists|c2: T, shift: int, stopped: bool|
        {
            &&& #[trigger] scanned(c1, buf, kept, end, c2, shift, stopped)
            &&& if stopped {
                c_end == c2 && buf_end == buf
            } else {
                runs(c2, buf, end, shift, (rounds - 1) as nat, c_end, buf_end)
            }
        }
}

/// Whether the scan of the bytes fetched in a round, from `kept` up to
/// `end`, may end as [`scans`] says.
pub open spec fn scanned<T: IncConsumer>(
    c1: T,
    buf: Seq<u8>,
    kept: int,
    end: int,
    c2: T,
    shift: int,
    stopped: bool,
) -> bool {
    scans(c1, buf, 0, kept, end, c2, shift, stopped)
}

/// What every consumer can do: run.
pub trait Run: IncConsumer {
    /// Runs the consumer on the buffer `buf` until it is told to stop.
    ///
    /// Bytes that are neither processed nor dropped yet are kept at the front
    /// of the buffer and the source is offered the room behind them. There
    /// may be none left: what a source makes of an empty buffer is up to it.
    /// A source that claims more bytes than it was offered room for ends the
    /// run, and so do `usize::MAX` rounds of fetching.
    fn run(&mut self, buf: &mut [u8])
        ensures
            final(buf)@.len() == old(buf)@.len(),
            runs(*old(self), old(buf)@, 0, 0, usize::MAX as nat, *final(self), final(buf)@),
    ;
}

impl<T: IncConsumer> Run for T {
    #[verifier::loop_isolation(false)]
    fn run(&mut self, buf: &mut [u8]) {
        let mut begin: usize = 0;
        let mut shift: usize = 0;
        let mut rounds: usize = usize::MAX;
        while rounds > 0
            invariant
                shift <= begin <= buf@.len(),
                buf@.len() == old(buf)@.len(),
                forall|c_end: T, buf_end: Seq<u8>| #[trigger]
                    runs(*self, buf@, begin as int, shift as int, rounds as nat, c_end, buf_end)
                        ==> runs(
                        *old(self),
                        old(buf)@,
                        0,
                        0,
                        usize::MAX as nat,
                        c_end,
                        buf_end,
                    ),
            decreases rounds,
        {
            let ghost c0 = *self;
            let ghost buf0 = buf@;
            let ghost begin0 = begin as int;
            let ghost shift0 = shift as int;
            let ghost rounds0 = rounds as nat;
            rounds -= 1;
            shift_down(buf, shift, begin);
            begin -= shift;
            shift = 0;
            let ghost moved = buf@;
            let total = buf.len();
            let (front, room) = buf.split_at_mut(begin);
            let offered = room.len();
            let ghost offered_room = room@;
            assert(offered_room == moved.skip(begin as int));
            assert(offered == total - begin);
            let fetched = self.consume(room);
            let ghost fetched_room = room@;
            assert(front@ == moved.take(begin as int));
            let ghost c1 = *self;
            let ghost filled = buf@.skip(begin as int);
            let ghost buf2 = buf@;
            assert(filled == fetched_room);
            assert(buf2 == moved.take(begin as int) + filled);
            assert(c0.consumed(moved.skip(begin as int), c1, filled, fetched));
            match fetched {
                Consumption::Consumed(amount) => {
                    if amount > offered {
                        assert(fetched_then(c1, buf2, begin as int, fetched, rounds0, c1, buf2));
                        assert(runs(c0, buf0, begin0, shift0, rounds0, c1, buf2));
                        return ;
                    }
                    let ghost kept = begin as int;
                    let end = begin + amount;
                    while begin < end
                        invariant
                            shift <= begin <= end <= buf@.len(),
                            buf@ == buf2,
                            forall|c2: T, s2: int, st: bool| #[trigger]
                                scans(
                                    *self,
                                    buf2,
                                    shift as int,
                                    begin as int,
                                    end as int,
                                    c2,
                                    s2,
                                    st,
                                ) ==> scans(c1, buf2, 0, kept, end as int, c2, s2, st),
                        decreases end - begin,
                    {
                        let ghost ca = *self;
                        let ghost at = begin as int;
                        let ghost sa = shift as int;
                        let ch = buf[begin];
                        begin += 1;
                        let verdict = self.validate(ch);
                        let ghost cb = *self;
                        match verdict {
                            Validation::Discard => {
                                shift = begin;
                            },
                            Validation::Ready => {
                                let next = self.process(
                                    vstd::slice::slice_subrange(buf, shift, begin),
                                );
                                let ghost cc = *self;
                                match next {
                                    Process::Continue => {},
                                    Process::Stop => {
                                        proof {
                                            assert(handed(
                                                cb,
                                                buf2,
                                                sa,
                                                at,
                                                end as int,
                                                cc,
                                                sa,
                                                true,
                                            ));
                                            assert(judged(
                                                cb,
                                                verdict,
                                                buf2,
                                                sa,
                                                at,
                                                end as int,
                                                cc,
                                                sa,
                                                true,
                                            ));
                                            assert(scans(
                                                ca,
                                                buf2,
                                                sa,
                                                at,
                                                end as int,
                                                cc,
                                                sa,
                                                true,
                                            ));
                                            assert(scanned(
                                                c1,
                                                buf2,
                                                kept,
                                                end as int,
                                                cc,
                                                sa,
                                                true,
                                            ));
                                            assert(scanned_then(
                                                c1,
                                                buf2,
                                                kept,
                                                end as int,
                                                rounds0,
                                                cc,
                                                buf2,
                                            ));
                                            assert(fetched_then(
                                                c1,
                                                buf2,
                                                kept,
                                                fetched,
                                                rounds0,
                                                cc,
                                                buf2,
                                            ));
                                            assert(runs(
                                                c0,
                                                buf0,
                                                begin0,
                                                shift0,
                                                rounds0,
                                                cc,
                                                buf2,
                                            ));
                                        }
                                        return ;
                                    },
                                }
                                proof {
                                    assert forall|c2: T, s2: int, st: bool| #[trigger]
                                        scans(cc, buf2, at + 1, at + 1, end as int, c2, s2, st)
                                        implies scans(ca, buf2, sa, at, end as int, c2, s2, st) by {
                                        assert(handed(cb, buf2, sa, at, end as int, c2, s2, st));
                                        assert(judged(
                                            cb,
                                            verdict,
                                            buf2,
                                            sa,
                                            at,
                                            end as int,
                                            c2,
                                            s2,
                                            st,
                                        ));
                                    }
                                }
                                shift = begin;
                            },
                            Validation::Stop => {
                                proof {
                                    assert(judged(
                                        cb,
                                        verdict,
                                        buf2,
                                        sa,
                                        at,
                                        end as int,
                                        cb,
                                        sa,
                                        true,
                                    ));
                                    assert(scans(ca, buf2, sa, at, end as int, cb, sa, true));
                                    assert(scanned(c1, buf2, kept, end as int, cb, sa, true));
                                    assert(scanned_then(
                                        c1,
                                        buf2,
                                        kept,
                                        end as int,
                                        rounds0,
                                        cb,
                                        buf2,
                                    ));
                                    assert(fetched_then(
                                        c1,
                                        buf2,
                                        kept,
                                        fetched,
                                        rounds0,
                                        cb,
                                        buf2,
                                    ));
                                    assert(runs(c0, buf0, begin0, shift0, rounds0, cb, buf2));
                                }
                                return ;
                            },
                            Validation::Unready => {},
                        }
                        proof {
                            assert forall|c2: T, s2: int, st: bool| #[trigger]
                                scans(
                                    *self,
                                    buf2,
                                    shift as int,
                                    begin as int,
                                    end as int,
                                    c2,
                                    s2,
                                    st,
                                ) implies scans(ca, buf2, sa, at, end as int, c2, s2, st) by {
                                assert(judged(cb, verdict, buf2, sa, at, end as int, c2, s2, st));
                            }
                        }
                    }
                    proof {
                        let cz = *self;
                        let sz = shift as int;
                        assert(scans(cz, buf2, sz, end as int, end as int, cz, sz, false));
                        assert(scanned(c1, buf2, kept, end as int, cz, sz, false));
                        assert forall|c_end: T, buf_end: Seq<u8>| #[trigger]
                            runs(cz, buf2, end as int, sz, rounds as nat, c_end, buf_end)
                            implies runs(
                            *old(self),
                            old(buf)@,
                            0,
                            0,
                            usize::MAX as nat,
                            c_end,
                            buf_end,
                        ) by {
                            assert(scanned_then(
                                c1,
                                buf2,
                                kept,
                                end as int,
                                rounds0,
                                c_end,
                                buf_end,
                            ));
                            assert(fetched_then(
                                c1,
                                buf2,
                                kept,
                                fetched,
                                rounds0,
                                c_end,
                                buf_end,
                            ));
                            assert(runs(c0, buf0, begin0, shift0, rounds0, c_end, buf_end));
                        }
                    }
                },
                Consumption::Stop => {
                    assert(fetched_then(c1, buf2, begin as int, fetched, rounds0, c1, buf2));
                    assert(runs(c0, buf0, begin0, shift0, rounds0, c1, buf2));
                    return ;
                },
            }
        }
        assert(runs(*self, buf@, begin as int, shift as int, 0, *self, buf@));
    }
}

} // verus!
