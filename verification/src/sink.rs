//! Byte sinks: destinations that take bytes in order, and may take fewer
//! than they are offered.

use vstd::prelude::*;

verus! {

/// Why a sink did not take the whole of what it was offered.
#[derive(Debug, Clone, Copy, PartialEq, Eq, Structural)]
pub enum SinkError {
    /// The sink refused the write and took nothing.
    Rejected,
    /// The sink took the first `accepted` bytes and then stopped.
    Partial { accepted: usize },
}

impl SinkError {
    /// The number of bytes the sink took before it reported this error.
    pub open spec fn taken(self) -> nat {
        match self {
            SinkError::Rejected => 0,
            SinkError::Partial { accepted } => accepted as nat,
        }
    }
}

/// The number of bytes a sink took in a `write` that returned `outcome`.
pub open spec fn written(outcome: Result<usize, SinkError>) -> nat {
    match outcome {
        Ok(n) => n as nat,
        Err(e) => e.taken(),
    }
}

/// The number of bytes a sink took of `len` offered as a whole, where the
/// attempt returned `outcome`.
pub open spec fn written_of(len: nat, outcome: Result<(), SinkError>) -> nat {
    match outcome {
        Ok(()) => len,
        Err(e) => e.taken(),
    }
}

/// What is left of `room` once `n` more bytes are in; `None` is a sink
/// without a bound.
pub open spec fn room_after(room: Option<nat>, n: nat) -> Option<nat> {
    match room {
        None => None,
        Some(free) => Some((free - n) as nat),
    }
}

/// Whether `n` bytes fit in `room`.
pub open spec fn fits_in(room: Option<nat>, n: nat) -> bool {
    match room {
        None => true,
        Some(free) => n <= free,
    }
}

/// A destination for bytes.
///
/// A sink is described by the bytes it has taken so far, the room it has
/// left, and whether it is reliable. Offering a sink more than it has room
/// for is a defect of the caller, not a failure the sink reports; `write`
/// therefore demands that the bytes fit.
pub trait ByteSink: Sized {
    /// Every byte the sink has taken, oldest first.
    spec fn sunk(&self) -> Seq<u8>;

    /// How many more bytes the sink has room for; `None` if it has no bound.
    spec fn room(&self) -> Option<nat>;

    /// Whether the sink takes the whole of every write that fits.
    spec fn reliable(&self) -> bool;

    /// Offers `bytes` to the sink, which takes a prefix of them. `Ok(n)`
    /// says that it took the first `n`; an error says how many it took before
    /// it failed.
    fn write(&mut self, bytes: &[u8]) -> (outcome: Result<usize, SinkError>)
        requires
            fits_in(old(self).room(), bytes@.len()),
        ensures
            written(outcome) <= bytes@.len(),
            final(self).sunk() == old(self).sunk() + bytes@.take(written(outcome) as int),
            final(self).room() == room_after(old(self).room(), written(outcome)),
            final(self).reliable() == old(self).reliable(),
            old(self).reliable() ==> outcome == Ok::<usize, SinkError>(bytes@.len() as usize),
    ;
}

/// `after` is the sink `before` once it has taken the first `n` of `bytes`:
/// what every `write` leaves behind, with `n` the number it took.
pub open spec fn took<W: ByteSink>(before: W, after: W, bytes: Seq<u8>, n: nat) -> bool {
    &&& n <= bytes.len()
    &&& after.sunk() == before.sunk() + bytes.take(n as int)
    &&& after.room() == room_after(before.room(), n)
    &&& after.reliable() == before.reliable()
}

/// `after` is the sink `before` once `bytes` were offered to it as a whole,
/// in one write, and the attempt returned `r`: the sink took all of them, or
/// as many as the error says. A reliable sink takes them all.
pub open spec fn offered<W: ByteSink>(
    before: W,
    after: W,
    bytes: Seq<u8>,
    r: Result<(), SinkError>,
) -> bool {
    &&& took(before, after, bytes, written_of(bytes.len(), r))
    &&& before.reliable() ==> r is Ok
}

/// What offering `len` bytes as a whole comes to, given the `outcome` of the
/// one `write` that offered them.
pub open spec fn whole(len: nat, outcome: Result<usize, SinkError>) -> Result<(), SinkError> {
    match outcome {
        Ok(n) => if n >= len {
            Ok(())
        } else {
            Err(SinkError::Partial { accepted: n })
        },
        Err(e) => Err(e),
    }
}

/// Settles a write that was meant to be taken whole: success if the sink took
/// all `len` bytes, `Partial` if it took fewer, and the sink's own error
/// otherwise.
pub fn settle(len: usize, outcome: Result<usize, SinkError>) -> (r: Result<(), SinkError>)
    ensures
        r == whole(len as nat, outcome),
{
    match outcome {
        Ok(n) => {
            if n >= len {
                Ok(())
            } else {
                Err(SinkError::Partial { accepted: n })
            }
        },
        Err(e) => Err(e),
    }
}

/// Offers `bytes` to `sink` in one write and reports anything short of the
/// whole as an error.
pub fn write_all<W: ByteSink>(sink: &mut W, bytes: &[u8]) -> (r: Result<(), SinkError>)
    requires
        fits_in(old(sink).room(), bytes@.len()),
    ensures
        offered(*old(sink), *final(sink), bytes@, r),
{
    let outcome = sink.write(bytes);
    settle(bytes.len(), outcome)
}

impl ByteSink for Vec<u8> {
    open spec fn sunk(&self) -> Seq<u8> {
        self@
    }

    open spec fn room(&self) -> Option<nat> {
        None
    }

    open spec fn reliable(&self) -> bool {
        true
    }

    fn write(&mut self, bytes: &[u8]) -> (outcome: Result<usize, SinkError>) {
        self.extend_from_slice(bytes);
        assert(self@ =~= old(self)@ + bytes@.take(bytes@.len() as int));
        Ok(bytes.len())
    }
}

/// One write after another is a write of the two texts joined: where a sink
/// took the whole of `first` and then `n` bytes of `second`, it took
/// `first.len() + n` bytes of `first + second`.
pub proof fn lemma_took_in_turn<W: ByteSink>(
    before: W,
    between: W,
    after: W,
    first: Seq<u8>,
    second: Seq<u8>,
    n: nat,
)
    requires
        took(before, between, first, first.len()),
        took(between, after, second, n),
        fits_in(before.room(), first.len() + second.len()),
    ensures
        took(before, after, first + second, first.len() + n),
        fits_in(between.room(), second.len()),
{
    assert(first.take(first.len() as int) =~= first);
    assert((first + second).take((first.len() + n) as int) =~= first + second.take(n as int));
    assert(after.sunk() =~= before.sunk() + (first + second).take((first.len() + n) as int));
}

/// What a sink took of the start of a text, it took of the text: `took`
/// speaks of the first `n` bytes only.
pub proof fn lemma_took_of_longer<W: ByteSink>(
    before: W,
    after: W,
    start: Seq<u8>,
    text: Seq<u8>,
    n: nat,
)
    requires
        took(before, after, start, n),
        start.len() <= text.len(),
        text.take(start.len() as int) == start,
    ensures
        took(before, after, text, n),
{
    assert(text.take(n as int) =~= start.take(n as int));
}

/// What a destination reported for a write of `len` bytes, held to what it
/// was offered: a count above `len` is taken for `len`.
pub open spec fn bounded(len: nat, outcome: Result<usize, SinkError>) -> Result<usize, SinkError> {
    match outcome {
        Ok(n) => if n <= len {
            outcome
        } else {
            Ok(len as usize)
        },
        Err(SinkError::Partial { accepted }) => if accepted <= len {
            outcome
        } else {
            Err(SinkError::Partial { accepted: len as usize })
        },
        Err(SinkError::Rejected) => outcome,
    }
}

/// Holds the reported `outcome` of a write of `len` bytes to what was
/// offered, so that it never speaks of more than `len` bytes.
pub fn confine(len: usize, outcome: Result<usize, SinkError>) -> (r: Result<usize, SinkError>)
    ensures
        r == bounded(len as nat, outcome),
        written(r) <= len,
{
    match outcome {
        Ok(n) => {
            if n <= len {
                outcome
            } else {
                Ok(len)
            }
        },
        Err(SinkError::Partial { accepted }) => {
            if accepted <= len {
                outcome
            } else {
                Err(SinkError::Partial { accepted: len })
            }
        },
        Err(SinkError::Rejected) => outcome,
    }
}

/// A sink that hands each write to a function. This is how a destination
/// outside the library, such as a terminal, becomes a sink: the function
/// makes the write and reports how it went.
///
/// The sink has no bound and is not reliable. What it counts as taken is
/// what the function reported as taken.
pub struct FnSink<F: Fn(&[u8]) -> Result<usize, SinkError>> {
    write: F,
    sunk: Ghost<Seq<u8>>,
}

impl<F: Fn(&[u8]) -> Result<usize, SinkError>> FnSink<F> {
    /// The function that makes the writes.
    pub closed spec fn function(&self) -> F {
        self.write
    }

    /// The function can be called with any bytes.
    #[verifier::type_invariant]
    pub open spec fn wf(&self) -> bool {
        forall|bytes: &[u8]| call_requires(self.function(), (bytes,))
    }

    /// A sink over `write` that has taken nothing yet.
    pub fn new(write: F) -> (r: Self)
        requires
            forall|bytes: &[u8]| call_requires(write, (bytes,)),
        ensures
            r.function() == write,
            r.sunk() == Seq::<u8>::empty(),
    {
        FnSink { write, sunk: Ghost(Seq::empty()) }
    }
}

impl<F: Fn(&[u8]) -> Result<usize, SinkError>> ByteSink for FnSink<F> {
    closed spec fn sunk(&self) -> Seq<u8> {
        self.sunk@
    }

    open spec fn room(&self) -> Option<nat> {
        None
    }

    open spec fn reliable(&self) -> bool {
        false
    }

    /// Calls the function once with `bytes` and returns what it reported,
    /// held to the length of `bytes`.
    fn write(&mut self, bytes: &[u8]) -> (outcome: Result<usize, SinkError>)
        ensures
            final(self).function() == old(self).function(),
            exists|reported: Result<usize, SinkError>|
                call_ensures(old(self).function(), (bytes,), reported) && outcome == bounded(
                    bytes@.len(),
                    reported,
                ),
    {
        proof {
            use_type_invariant(&*self);
            assert(call_requires(self.function(), (bytes,)));
        }
        let outcome = confine(bytes.len(), (self.write)(bytes));
        proof {
            self.sunk@ = self.sunk@ + bytes@.take(written(outcome) as int);
            assert(self.function() == old(self).function());
        }
        outcome
    }
}

} // verus!
