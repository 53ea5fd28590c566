//! A fixed-capacity, append-only buffer that lives in an array.

use crate::decimal::{decimal, format_decimal, lemma_decimal_of_byte, NEWLINE, UTF8_ZERO};
use crate::sink::{fits_in, offered, write_all, ByteSink, SinkError};
use std::ops::Deref;
use vstd::prelude::*;
use vstd::slice::slice_subrange;

verus! {

/// `storage` with `items` laid over it from index `at` on; every other slot
/// keeps what it held.
pub open spec fn overwrite<T>(storage: Seq<T>, at: int, items: Seq<T>) -> Seq<T> {
    Seq::new(
        storage.len(),
        |i: int|
            if at <= i < at + items.len() {
                items[i - at]
            } else {
                storage[i]
            },
    )
}

/// The items of `chunks` one after another, as one run.
pub open spec fn joined<T>(chunks: Seq<Seq<T>>) -> Seq<T>
    decreases chunks.len(),
{
    if chunks.len() == 0 {
        Seq::empty()
    } else {
        joined(chunks.drop_last()) + chunks.last()
    }
}

/// An array of `N` slots and a cursor. Items are written at the cursor, which
/// then moves past them; nothing is ever moved or reallocated. The buffer's
/// view is what has been written since the cursor was last at the start.
///
/// No method checks for room at run time. Writing more than fits is a defect
/// of the caller, and each method's precondition rules it out.
#[derive(Debug)]
pub struct ArrayBuffer<T, const N: usize> {
    /// The current position that we may write to.
    pos: usize,
    buf: [T; N],
}

impl<T, const N: usize> View for ArrayBuffer<T, N> {
    type V = Seq<T>;

    /// The items written so far: the slots before the cursor.
    open spec fn view(&self) -> Seq<T> {
        self.storage().take(self.position() as int)
    }
}

impl<T, const N: usize> ArrayBuffer<T, N> {
    /// All `N` slots, written or not.
    pub closed spec fn storage(&self) -> Seq<T> {
        self.buf@
    }

    /// The cursor: the index of the next slot to be written.
    pub closed spec fn position(&self) -> nat {
        self.pos as nat
    }

    /// The cursor never passes the end of the array.
    #[verifier::type_invariant]
    pub open spec fn wf(&self) -> bool {
        &&& self.position() <= N
        &&& self.storage().len() == N
    }

    /// Whether `n` more items fit between the cursor and the end of the
    /// array. Every method that writes demands this of its caller, for the
    /// number of items it writes; a call without it is a defect of the
    /// caller, and nothing is promised of it.
    pub open spec fn has_room(&self, n: nat) -> bool {
        self.position() + n <= N
    }

    /// `self` is `before` after `items` were written at its cursor.
    pub open spec fn extends(&self, before: &Self, items: Seq<T>) -> bool {
        &&& self.position() == before.position() + items.len()
        &&& self.storage() == overwrite(before.storage(), before.position() as int, items)
    }

    /// A series of writes from `start` breaks at the write of `chunks[k]`:
    /// the writes before it fit, and whatever buffer they leave has less
    /// room than that write needs, so that the write is not allowed on it.
    pub open spec fn breaks_at(start: Self, chunks: Seq<Seq<T>>, k: int) -> bool {
        &&& 0 <= k < chunks.len()
        &&& start.has_room(joined(chunks.take(k)).len())
        &&& forall|reached: Self| #[trigger]
            reached.extends(&start, joined(chunks.take(k))) ==> !reached.has_room(chunks[k].len())
    }

    /// `self` is `before` with the cursor back at the start and every slot
    /// as it was.
    pub open spec fn rewinds(&self, before: &Self) -> bool {
        &&& self.position() == 0
        &&& self.storage() == before.storage()
    }

    /// `states` are the buffers that a series of writes goes through: the
    /// first is the buffer before any of them, and each next one is the
    /// buffer after the next of `chunks` was written.
    pub open spec fn is_series(states: Seq<Self>, chunks: Seq<Seq<T>>) -> bool {
        &&& states.len() == chunks.len() + 1
        &&& forall|i: int|
            #![trigger chunks[i]]
            0 <= i < chunks.len() ==> states[i + 1].extends(&states[i], chunks[i])
    }

    /// A buffer over `arr`, with the cursor at the start: nothing counts as
    /// written, and the slots hold what `arr` held.
    pub fn from(arr: [T; N]) -> (r: Self)
        ensures
            r.position() == 0,
            r.storage() == arr@,
            r@ == Seq::<T>::empty(),
    {
        ArrayBuffer { pos: 0, buf: arr }
    }

    /// Writes `val` at the cursor.
    pub fn push(&mut self, val: T)
        requires
            old(self).has_room(1),
        ensures
            final(self).extends(old(self), seq![val]),
            final(self)@ == old(self)@.push(val),
    {
        proof {
            use_type_invariant(&*self);
        }
        self.buf[self.pos] = val;
        self.pos += 1;
        assert(self.buf@ =~= overwrite(old(self).buf@, old(self).pos as int, seq![val]));
        assert(self@ =~= old(self)@.push(val));
    }

    /// Moves the cursor back to the start. The slots keep their contents
    /// until they are written again.
    pub fn reset(&mut self)
        ensures
            final(self).rewinds(old(self)),
            final(self)@ == Seq::<T>::empty(),
    {
        self.pos = 0;
    }

    /// The number of items written so far.
    pub fn len(&self) -> (n: usize)
        ensures
            n == self.position(),
            n == self@.len(),
            n <= N,
    {
        proof {
            use_type_invariant(self);
        }
        self.pos
    }

    /// The number of slots, written or not.
    pub fn capacity(&self) -> (n: usize)
        ensures
            n == N,
    {
        N
    }

    /// The number of items that can still be written.
    pub fn remaining(&self) -> (n: usize)
        ensures
            n == N - self.position(),
    {
        proof {
            use_type_invariant(self);
        }
        N - self.pos
    }

    /// The items written so far, in order.
    pub fn as_slice(&self) -> (written: &[T])
        ensures
            written@ == self@,
    {
        proof {
            use_type_invariant(self);
        }
        slice_subrange(self.buf.as_slice(), 0, self.pos)
    }
}

impl<T: Copy, const N: usize> ArrayBuffer<T, N> {
    /// Writes the items of `buf` at the cursor, in order.
    pub fn push_buf(&mut self, buf: &[T])
        requires
            old(self).has_room(buf@.len()),
        ensures
            final(self).extends(old(self), buf@),
            final(self)@ == old(self)@ + buf@,
    {
        proof {
            use_type_invariant(&*self);
        }
        let len: usize = buf.len();
        for i in 0..len
            invariant
                len == buf@.len(),
                self.pos == old(self).pos,
                self.pos + len <= N,
                self.buf@ == overwrite(old(self).buf@, self.pos as int, buf@.take(i as int)),
        {
            self.buf[i + self.pos] = buf[i];
        }
        self.pos += len;
        assert(buf@.take(len as int) =~= buf@);
        assert(self@ =~= old(self)@ + buf@);
    }

    /// Writes the `M` items of the array `buf` at the cursor, in order.
    pub fn push_fixed<const M: usize>(&mut self, buf: [T; M])
        requires
            old(self).has_room(M as nat),
        ensures
            final(self).extends(old(self), buf@),
            final(self)@ == old(self)@ + buf@,
    {
        proof {
            use_type_invariant(&*self);
        }
        let pos: usize = self.pos;
        for i in 0..M
            invariant
                pos == old(self).pos,
                self.pos == pos,
                pos + M <= N,
                self.buf@ == overwrite(old(self).buf@, pos as int, buf@.take(i as int)),
        {
            self.buf[pos + i] = buf[i];
        }
        self.pos += M;
        assert(buf@.take(M as int) =~= buf@);
        assert(self@ =~= old(self)@ + buf@);
    }
}

impl<T: Default + Copy, const N: usize> ArrayBuffer<T, N> {
    /// A buffer with nothing written, whose slots all hold one default value
    /// of `T`.
    pub fn new() -> (r: Self)
        ensures
            r.position() == 0,
            r@ == Seq::<T>::empty(),
            r.storage().len() == N,
            forall|i: int| 0 <= i < N ==> call_ensures(T::default, (), #[trigger] r.storage()[i]),
            forall|i: int, j: int| 0 <= i < N && 0 <= j < N ==> r.storage()[i] == r.storage()[j],
    {
        ArrayBuffer { pos: 0, buf: [T::default(); N] }
    }
}

impl<T: Clone, const N: usize> Clone for ArrayBuffer<T, N> {
    /// A buffer with the cursor where this one has it and, in each slot, a
    /// clone of what this one holds there. Where clones of `T` are equal to
    /// what they were made of, as they are for bytes, the two buffers have
    /// the same slots and the same view.
    fn clone(&self) -> (r: Self)
        ensures
            r.position() == self.position(),
            r.storage().len() == self.storage().len(),
            forall|i: int|
                0 <= i < N ==> cloned::<T>(self.storage()[i], #[trigger] r.storage()[i]),
    {
        proof {
            use_type_invariant(self);
        }
        ArrayBuffer { pos: self.pos, buf: self.buf.clone() }
    }
}

/// The buffer dereferences to the whole underlying array, written or not.
/// There is no mutable counterpart: the slots change only by writing at the
/// cursor.
impl<T, const N: usize> Deref for ArrayBuffer<T, N> {
    type Target = [T; N];

    fn deref(&self) -> (slots: &[T; N])
        ensures
            slots@ == self.storage(),
    {
        &self.buf
    }
}

impl<const N: usize> ArrayBuffer<u8, N> {
    /// Writes `val` and a line terminator. Leaves the buffer as `push(val)`
    /// followed by `push(NEWLINE)` would.
    pub fn push_line(&mut self, val: u8)
        requires
            old(self).has_room(2),
        ensures
            final(self).extends(old(self), seq![val, NEWLINE]),
            final(self)@ == old(self)@.push(val).push(NEWLINE),
    {
        proof {
            use_type_invariant(&*self);
        }
        self.buf[self.pos] = val;
        self.buf[self.pos + 1] = NEWLINE;
        self.pos += 2;
        assert(self.buf@ =~= overwrite(old(self).buf@, old(self).pos as int, seq![val, NEWLINE]));
        assert(self@ =~= old(self)@.push(val).push(NEWLINE));
    }

    /// Writes the bytes of `buf` and a line terminator. Leaves the buffer as
    /// `push_buf(buf)` followed by `push(NEWLINE)` would.
    pub fn push_buf_line(&mut self, buf: &[u8])
        requires
            old(self).has_room(buf@.len() + 1),
        ensures
            final(self).extends(old(self), buf@.push(NEWLINE)),
            final(self)@ == old(self)@ + buf@.push(NEWLINE),
    {
        proof {
            use_type_invariant(&*self);
        }
        let len: usize = buf.len();
        for i in 0..len
            invariant
                len == buf@.len(),
                self.pos == old(self).pos,
                self.pos + len + 1 <= N,
                self.buf@ == overwrite(old(self).buf@, self.pos as int, buf@.take(i as int)),
        {
            self.buf[i + self.pos] = buf[i];
        }
        self.buf[len + self.pos] = NEWLINE;
        self.pos += len + 1;
        assert(self.buf@ =~= overwrite(old(self).buf@, old(self).pos as int, buf@.push(NEWLINE)));
        assert(self@ =~= old(self)@ + buf@.push(NEWLINE));
    }

    /// Writes the decimal text of `x` at the cursor: one byte below 10, two
    /// below 100, and by the general method from 100 on.
    pub fn write_u8_as_utf8(&mut self, x: u8)
        requires
            old(self).has_room(decimal(x as nat).len()),
        ensures
            final(self).extends(old(self), decimal(x as nat)),
            final(self)@ == old(self)@ + decimal(x as nat),
    {
        proof {
            lemma_decimal_of_byte(x);
        }
        if x < 10 {
            self.push(UTF8_ZERO + x);
        } else if x < 100 {
            let ones: u8 = x % 10;
            let tens: u8 = x / 10;
            self.push_fixed([UTF8_ZERO + tens, UTF8_ZERO + ones]);
        } else {
            let text = format_decimal(x);
            self.push_buf(text.as_slice());
        }
    }

    /// Writes the decimal text of `x` and a line terminator, as one unit.
    pub fn write_u8_as_utf8_with_newline(&mut self, x: u8)
        requires
            old(self).has_room(decimal(x as nat).len() + 1),
        ensures
            final(self).extends(old(self), decimal(x as nat).push(NEWLINE)),
            final(self)@ == old(self)@ + decimal(x as nat).push(NEWLINE),
    {
        proof {
            lemma_decimal_of_byte(x);
        }
        if x < 10 {
            self.push_line(UTF8_ZERO + x);
            assert(seq![(UTF8_ZERO + x) as u8, NEWLINE] =~= decimal(x as nat).push(NEWLINE));
            assert(self@ =~= old(self)@ + decimal(x as nat).push(NEWLINE));
        } else if x < 100 {
            let ones: u8 = x % 10;
            let tens: u8 = x / 10;
            let text: [u8; 3] = [UTF8_ZERO + tens, UTF8_ZERO + ones, NEWLINE];
            assert(text@ =~= decimal(x as nat).push(NEWLINE));
            self.push_fixed(text);
        } else {
            let mut text = format_decimal(x);
            text.push(NEWLINE);
            self.push_buf(text.as_slice());
        }
    }

    /// Hands everything written so far to `sink` in one write, then rewinds
    /// the buffer. The buffer is rewound whether or not the sink took the
    /// bytes: after a failure they are gone from the buffer's view, and a
    /// caller who wants to try again has to produce them again.
    pub fn flush_to<S: ByteSink>(&mut self, sink: &mut S) -> (r: Result<(), SinkError>)
        requires
            fits_in(old(sink).room(), old(self)@.len()),
        ensures
            final(self).rewinds(old(self)),
            final(self)@ == Seq::<u8>::empty(),
            offered(*old(sink), *final(sink), old(self)@, r),
    {
        let r = write_all(sink, self.as_slice());
        self.reset();
        r
    }
}

/// A buffer of bytes is a reliable sink with room for what its array still
/// has free. What it has taken is what was written to it since it was last
/// rewound.
impl<const N: usize> ByteSink for ArrayBuffer<u8, N> {
    open spec fn sunk(&self) -> Seq<u8> {
        self@
    }

    open spec fn room(&self) -> Option<nat> {
        Some((N - self.position()) as nat)
    }

    open spec fn reliable(&self) -> bool {
        true
    }

    fn write(&mut self, bytes: &[u8]) -> (outcome: Result<usize, SinkError>)
        ensures
            final(self).extends(old(self), bytes@),
    {
        proof {
            use_type_invariant(&*self);
        }
        self.push_buf(bytes);
        assert(bytes@.take(bytes@.len() as int) =~= bytes@);
        Ok(bytes.len())
    }
}

/// What holds of every buffer, whatever was written to it.
impl<T, const N: usize> ArrayBuffer<T, N> {
    /// A series of writes that is no longer in total than the room the buffer
    /// had at the start stays within bounds at each step, and leaves the
    /// buffer with all that was written, in the order of the writes, after
    /// what it held before.
    pub proof fn lemma_series_that_fits(states: Seq<Self>, chunks: Seq<Seq<T>>)
        requires
            Self::is_series(states, chunks),
            states[0].wf(),
            states[0].has_room(joined(chunks).len()),
        ensures
            forall|i: int|
                #![trigger chunks[i]]
                0 <= i < chunks.len() ==> states[i].has_room(chunks[i].len()),
            states.last().extends(&states[0], joined(chunks)),
            states.last()@ == states[0]@ + joined(chunks),
        decreases chunks.len(),
    {
        let start = states[0];
        if chunks.len() == 0 {
            assert(start.storage() =~= overwrite(
                start.storage(),
                start.position() as int,
                joined(chunks),
            ));
            assert(start@ =~= start@ + joined(chunks));
        } else {
            let earlier = chunks.drop_last();
            let reached = states.drop_last();
            assert(Self::is_series(reached, earlier)) by {
                assert forall|i: int|
                    #![trigger earlier[i]]
                    0 <= i < earlier.len() implies reached[i + 1].extends(
                    &reached[i],
                    earlier[i],
                ) by {
                    assert(chunks[i] == earlier[i]);
                }
            }
            Self::lemma_series_that_fits(reached, earlier);
            let last: int = chunks.len() - 1;
            assert(chunks[last] == chunks.last());
            assert(reached.last() == states[last]);
            assert(states.last() == states[last + 1]);
            Self::lemma_extends_in_turn(
                start,
                states[last],
                states.last(),
                joined(earlier),
                chunks.last(),
            );
            assert forall|i: int|
                #![trigger chunks[i]]
                0 <= i < chunks.len() implies states[i].has_room(chunks[i].len()) by {
                if i < last {
                    assert(chunks[i] == earlier[i]);
                    assert(states[i] == reached[i]);
                }
            }
            assert(states.last()@ =~= start@ + joined(chunks));
        }
    }

    /// A series of writes that is longer in total than the room the buffer
    /// has cannot be carried out: it breaks at one of its writes. That is a
    /// matter of the cursor and the lengths alone, so it comes out the same
    /// each time.
    pub proof fn lemma_series_that_overflows(start: Self, chunks: Seq<Seq<T>>)
        requires
            start.wf(),
            !start.has_room(joined(chunks).len()),
        ensures
            exists|k: int| Self::breaks_at(start, chunks, k),
        decreases chunks.len(),
    {
        let earlier = chunks.drop_last();
        let last: int = chunks.len() - 1;
        assert(chunks.len() > 0);
        assert(chunks.take(last) =~= earlier);
        if !start.has_room(joined(earlier).len()) {
            Self::lemma_series_that_overflows(start, earlier);
            let k = choose|k: int| Self::breaks_at(start, earlier, k);
            assert(earlier.take(k) =~= chunks.take(k));
            assert(chunks[k] == earlier[k]);
            assert(Self::breaks_at(start, chunks, k));
        } else {
            assert(chunks[last] == chunks.last());
            assert(Self::breaks_at(start, chunks, last));
        }
    }

    /// After a rewind nothing counts as written, and the next write starts
    /// over at the first slot: it lays its items over what the slots held and
    /// is then all that the buffer shows.
    pub proof fn lemma_write_after_reset(before: Self, rewound: Self, after: Self, items: Seq<T>)
        requires
            before.wf(),
            rewound.rewinds(&before),
            after.extends(&rewound, items),
            items.len() <= N,
        ensures
            rewound@ == Seq::<T>::empty(),
            after@ == items,
            after.storage() == overwrite(before.storage(), 0, items),
    {
        assert(rewound@ =~= Seq::<T>::empty());
        assert(after@ =~= items);
    }

    /// One write after another is a write of the two runs joined.
    pub proof fn lemma_extends_in_turn(
        before: Self,
        between: Self,
        after: Self,
        first: Seq<T>,
        second: Seq<T>,
    )
        requires
            between.extends(&before, first),
            after.extends(&between, second),
            before.position() + first.len() + second.len() <= before.storage().len(),
        ensures
            after.extends(&before, first + second),
    {
        assert(after.storage() =~= overwrite(
            before.storage(),
            before.position() as int,
            first + second,
        ));
    }
}

impl<const N: usize> ArrayBuffer<u8, N> {
    /// Writing a run and its line terminator in one call leaves the buffer
    /// exactly as writing the run and then the terminator does. This is what
    /// ties `push_line` to `push`, `push_buf_line` to `push_buf`, and
    /// `write_u8_as_utf8_with_newline` to `write_u8_as_utf8`.
    pub proof fn lemma_line_is_run_then_newline(
        before: Self,
        between: Self,
        in_two: Self,
        in_one: Self,
        run: Seq<u8>,
    )
        requires
            before.wf(),
            before.has_room(run.len() + 1),
            between.extends(&before, run),
            in_two.extends(&between, seq![NEWLINE]),
            in_one.extends(&before, run.push(NEWLINE)),
        ensures
            in_one == in_two,
            in_one@ == before@ + run + seq![NEWLINE],
    {
        assert(run.push(NEWLINE) =~= run + seq![NEWLINE]);
        Self::lemma_extends_in_turn(before, between, in_two, run, seq![NEWLINE]);
        assert(in_one.buf =~= in_two.buf);
        assert(in_one@ =~= before@ + run + seq![NEWLINE]);
    }
}

} // verus!
