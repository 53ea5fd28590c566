//! One pass over the numbers 1 to 100: a record per number, each on its own
//! line. A record is a label where the number is a multiple of 3 or of 5, and
//! the number's decimal text otherwise.
//!
//! The passes below all produce the same lines. They differ in where the
//! bytes are collected and in how each record is written, which is what they
//! are for: to be measured against each other.

use crate::buffer::{overwrite, ArrayBuffer};
use crate::decimal::{
    decimal, format_decimal, write_1_or_2_digit_u8_as_utf8, write_u8_as_utf8, NEWLINE,
};
use crate::sink::{
    fits_in, lemma_took_in_turn, lemma_took_of_longer, offered, took,
    write_all, written_of, ByteSink, SinkError,
};
use vstd::prelude::*;
use vstd::slice::slice_to_vec;

verus! {

/// The slots of the buffers that the passes fill.
pub const ARRAY_BUFFER_SIZE: usize = 0x800;

/// More than enough room for the text of a pass: one joint label for each
/// number.
pub const CAPACITY: usize = 10 * 100;

/// The last number of a pass.
pub const LAST: u8 = 100;

/// The number of bytes of a pass: the length of `lines(100)`.
pub const PASS_LEN: usize = 492;

/// The label of a multiple of 3: `Crackle`.
pub const CRACKLE: [u8; 7] = [67, 114, 97, 99, 107, 108, 101];

/// The label of a multiple of 5: `Pop`.
pub const POP: [u8; 3] = [80, 111, 112];

/// The label of a multiple of both: `CracklePop`.
pub const CRACKLE_POP: [u8; 10] = [67, 114, 97, 99, 107, 108, 101, 80, 111, 112];

/// No label: the number itself is the record.
pub const NO_LABEL: [u8; 0] = [];

/// The record of `n`, without its line terminator. A multiple of both 3 and
/// 5 is tested for first, so that it gets the joint label.
pub open spec fn record(n: nat) -> Seq<u8> {
    if n % 3 == 0 && n % 5 == 0 {
        CRACKLE_POP@
    } else if n % 3 == 0 {
        CRACKLE@
    } else if n % 5 == 0 {
        POP@
    } else {
        decimal(n)
    }
}

/// The line of `n`: its record and a line terminator.
pub open spec fn line(n: nat) -> Seq<u8> {
    record(n).push(NEWLINE)
}

/// The lines of 1 to `n`, in order.
pub open spec fn lines(n: nat) -> Seq<u8>
    decreases n,
{
    if n == 0 {
        Seq::empty()
    } else {
        lines((n - 1) as nat) + line(n)
    }
}

/// The length of the line of `n`, for `n` below 1000.
pub open spec fn line_len(n: nat) -> nat {
    if n % 3 == 0 && n % 5 == 0 {
        11
    } else if n % 3 == 0 {
        8
    } else if n % 5 == 0 {
        4
    } else if n < 10 {
        2
    } else if n < 100 {
        3
    } else {
        4
    }
}

/// The length of the lines of 1 to `n`, for `n` below 1000.
pub open spec fn lines_len(n: nat) -> nat
    decreases n,
{
    if n == 0 {
        0
    } else {
        lines_len((n - 1) as nat) + line_len(n)
    }
}

/// Below 1000 a line is as long as `line_len` says, and so are the lines up
/// to it.
pub proof fn lemma_lines_len(n: nat)
    requires
        n < 1000,
    ensures
        n >= 1 ==> line(n).len() == line_len(n),
        lines(n).len() == lines_len(n),
    decreases n,
{
    if n > 0 {
        lemma_lines_len((n - 1) as nat);
        assert(decimal(n).len() == if n < 10 {
            1nat
        } else if n < 100 {
            2
        } else {
            3
        }) by {
            reveal_with_fuel(decimal, 3);
        }
    }
}

/// No line of a number below 1000 is longer than the joint label and its
/// terminator, so `n` times that is room enough for the lines of 1 to `n`.
pub proof fn lemma_lines_len_bound(n: nat)
    requires
        n < 1000,
    ensures
        lines(n).len() <= n * (CRACKLE_POP@.len() + 1),
    decreases n,
{
    if n > 0 {
        lemma_lines_len_bound((n - 1) as nat);
        lemma_lines_len(n);
        assert(n * 11 == (n - 1) * 11 + 11) by (nonlinear_arith);
    }
}

/// A pass is `PASS_LEN` bytes long. That is what a buffer needs free before
/// a pass, and it is within both `CAPACITY` and `ARRAY_BUFFER_SIZE`.
pub proof fn lemma_pass_len()
    ensures
        lines(LAST as nat).len() == PASS_LEN,
        PASS_LEN <= CAPACITY <= ARRAY_BUFFER_SIZE,
{
    lemma_lines_len(100);
    assert(lines_len(20) == 91) by {
        reveal_with_fuel(lines_len, 21);
    }
    assert(lines_len(40) == 192) by {
        reveal_with_fuel(lines_len, 21);
    }
    assert(lines_len(60) == 295) by {
        reveal_with_fuel(lines_len, 21);
    }
    assert(lines_len(80) == 391) by {
        reveal_with_fuel(lines_len, 21);
    }
    assert(lines_len(100) == 492) by {
        reveal_with_fuel(lines_len, 21);
    }
}

/// A buffer has room for a pass where it has `PASS_LEN` slots free, and
/// only there. With fewer free no pass may be run on it, whatever it holds;
/// `remaining` tells at run time which of the two it is.
pub proof fn lemma_pass_room<const N: usize>(buf: ArrayBuffer<u8, N>)
    requires
        buf.wf(),
    ensures
        buf.has_room(lines(LAST as nat).len()) <==> N - buf.position() >= PASS_LEN,
        N < PASS_LEN ==> !buf.has_room(lines(LAST as nat).len()),
{
    lemma_pass_len();
}

/// The lines of a shorter pass are the start of the lines of a longer one.
/// So a sink that took some of a pass took whole lines in order, and at most
/// a part of one more.
pub proof fn lemma_lines_start(m: nat, n: nat)
    requires
        m <= n,
    ensures
        lines(m).len() <= lines(n).len(),
        lines(n).take(lines(m).len() as int) == lines(m),
    decreases n,
{
    if m < n {
        lemma_lines_start(m, (n - 1) as nat);
        let shorter = lines((n - 1) as nat);
        assert(lines(n).take(lines(m).len() as int) =~= shorter.take(lines(m).len() as int));
    } else {
        assert(lines(n).take(lines(n).len() as int) =~= lines(n));
    }
}

/// The lines of 1 to 15, byte for byte: `1`, `2`, `Crackle`, `4`, `Pop`,
/// `Crackle`, `7`, `8`, `Crackle`, `Pop`, `11`, `Crackle`, `13`, `14`,
/// `CracklePop`, each followed by a line terminator.
pub proof fn lemma_first_fifteen_lines()
    ensures
        lines(15) == seq![
            49u8, 10, 50, 10, 67, 114, 97, 99, 107, 108, 101, 10, 52, 10, 80, 111, 112,
            10, 67, 114, 97, 99, 107, 108, 101, 10, 55, 10, 56, 10, 67, 114, 97, 99,
            107, 108, 101, 10, 80, 111, 112, 10, 49, 49, 10, 67, 114, 97, 99, 107, 108,
            101, 10, 49, 51, 10, 49, 52, 10, 67, 114, 97, 99, 107, 108, 101, 80, 111,
            112, 10,
        ],
{
    reveal_with_fuel(decimal, 2);
    assert(lines(5) =~= line(1) + line(2) + line(3) + line(4) + line(5)) by {
        reveal_with_fuel(lines, 6);
    }
    assert(lines(10) =~= lines(5) + line(6) + line(7) + line(8) + line(9) + line(10)) by {
        reveal_with_fuel(lines, 6);
    }
    assert(lines(15) =~= lines(10) + line(11) + line(12) + line(13) + line(14) + line(15)) by {
        reveal_with_fuel(lines, 6);
    }
}

/// `after` is the sink `before` once a pass was sent to it line by line, a
/// write for each line, up to the first line that it did not take whole, and
/// the attempt returned `r`.
///
/// With `Ok` the sink took every line. With an error it took the lines below
/// some `k` whole and of the line of `k` as many bytes as the error says;
/// the error is the one that the write of that line came to. A reliable sink
/// takes every line.
pub open spec fn sent_by_line<W: ByteSink>(before: W, after: W, r: Result<(), SinkError>) -> bool {
    &&& match r {
        Ok(()) => took(before, after, lines(LAST as nat), lines(LAST as nat).len()),
        Err(e) => exists|k: nat|
            #![trigger line(k)]
            1 <= k <= LAST && e.taken() <= line(k).len() && took(
                before,
                after,
                lines(LAST as nat),
                lines((k - 1) as nat).len() + e.taken(),
            ),
    }
    &&& before.reliable() ==> r is Ok
}

/// One step of a pass: with the lines below `n` in place after `before`, the
/// line of `n` brings the lines up to `n`, and they still are within the
/// length of the whole pass.
proof fn lemma_pass_step(before: Seq<u8>, n: nat)
    requires
        1 <= n <= LAST,
    ensures
        before + lines((n - 1) as nat) + line(n) == before + lines(n),
        lines((n - 1) as nat) + line(n) == lines(n),
        lines((n - 1) as nat).len() + line(n).len() == lines(n).len(),
        lines(n).len() <= lines(LAST as nat).len() == PASS_LEN,
        CRACKLE@ + POP@ == CRACKLE_POP@,
{
    assert(before + lines((n - 1) as nat) + line(n) =~= before + (lines((n - 1) as nat) + line(n)));
    lemma_lines_start(n, LAST as nat);
    lemma_pass_len();
    assert(CRACKLE@ + POP@ =~= CRACKLE_POP@);
}

/// Builds the whole text in one growing container, a record at a time: the
/// label of 3 if it applies, then the label of 5 if it applies, the number by
/// the general method if neither does, and the line terminator. The text goes
/// to `out` in one write.
pub fn crackle_pop<S: ByteSink>(out: &mut S) -> (r: Result<(), SinkError>)
    requires
        fits_in(old(out).room(), lines(LAST as nat).len()),
    ensures
        offered(*old(out), *final(out), lines(LAST as nat), r),
{
    let mut text: Vec<u8> = Vec::with_capacity(CAPACITY);
    let mut n: u8 = 1;
    assert(text@ =~= lines(0));
    while n <= LAST
        invariant
            1 <= n <= LAST + 1,
            text@ == lines((n - 1) as nat),
        decreases LAST + 1 - n,
    {
        proof {
            lemma_pass_step(Seq::empty(), n as nat);
        }
        let ghost below = text@;
        let div_by_3: bool = n % 3 == 0;
        let div_by_5: bool = n % 5 == 0;

        if div_by_3 {
            text.extend_from_slice(CRACKLE.as_slice());
            assert(text@ =~= below + CRACKLE@);
        }
        if div_by_5 {
            let ghost so_far = text@;
            text.extend_from_slice(POP.as_slice());
            assert(text@ =~= so_far + POP@);
        }
        if !(div_by_3 || div_by_5) {
            let digits = format_decimal(n);
            text.extend_from_slice(digits.as_slice());
            assert(text@ =~= below + digits@);
        }
        assert(text@ =~= below + record(n as nat));
        text.push(NEWLINE);
        assert(text@ =~= below + line(n as nat));
        n += 1;
    }
    write_all(out, text.as_slice())
}

/// Picks each record as a label or as none, and hands `out` one line at a
/// time: the label, or the number by the general method. Stops at the first
/// line that `out` does not take whole.
pub fn crackle_pop_hardcoded<S: ByteSink>(out: &mut S) -> (r: Result<(), SinkError>)
    requires
        fits_in(old(out).room(), lines(LAST as nat).len()),
    ensures
        sent_by_line(*old(out), *final(out), r),
{
    let mut n: u8 = 1;
    assert(old(out).sunk() + lines(0).take(0) =~= old(out).sunk());
    while n <= LAST
        invariant
            1 <= n <= LAST + 1,
            took(*old(out), *out, lines((n - 1) as nat), lines((n - 1) as nat).len()),
            fits_in(old(out).room(), lines(LAST as nat).len()),
        decreases LAST + 1 - n,
    {
        proof {
            lemma_pass_step(Seq::empty(), n as nat);
        }
        let div_by_3: bool = n % 3 == 0;
        let div_by_5: bool = n % 5 == 0;

        let label: &[u8] = if div_by_3 && div_by_5 {
            CRACKLE_POP.as_slice()
        } else if div_by_3 {
            CRACKLE.as_slice()
        } else if div_by_5 {
            POP.as_slice()
        } else {
            NO_LABEL.as_slice()
        };

        let mut text = if label.is_empty() {
            format_decimal(n)
        } else {
            slice_to_vec(label)
        };
        text.push(NEWLINE);
        assert(text@ =~= line(n as nat));

        let ghost reached = *out;
        let sent = write_all(out, text.as_slice());
        proof {
            lemma_took_in_turn(
                *old(out),
                reached,
                *out,
                lines((n - 1) as nat),
                line(n as nat),
                written_of(line(n as nat).len(), sent),
            );
        }
        if let Err(e) = sent {
            proof {
                lemma_lines_start(n as nat, LAST as nat);
                lemma_took_of_longer(
                    *old(out),
                    *out,
                    lines(n as nat),
                    lines(LAST as nat),
                    lines((n - 1) as nat).len() + e.taken(),
                );
                assert(e.taken() <= line(n as nat).len());
            }
            return Err(e);
        }
        n += 1;
    }
    Ok(())
}

/// Like `crackle_pop_hardcoded`, but a number goes through the sink-generic
/// encoder into a small container that is sent and emptied line by line.
/// Stops at the first line that `out` does not take whole.
pub fn crackle_pop_faster_utf8<S: ByteSink>(out: &mut S) -> (r: Result<(), SinkError>)
    requires
        fits_in(old(out).room(), lines(LAST as nat).len()),
    ensures
        sent_by_line(*old(out), *final(out), r),
{
    let mut vec: Vec<u8> = Vec::with_capacity(CAPACITY);
    let mut n: u8 = 1;
    assert(old(out).sunk() + lines(0).take(0) =~= old(out).sunk());
    while n <= LAST
        invariant
            1 <= n <= LAST + 1,
            vec@ == Seq::<u8>::empty(),
            took(*old(out), *out, lines((n - 1) as nat), lines((n - 1) as nat).len()),
            fits_in(old(out).room(), lines(LAST as nat).len()),
        decreases LAST + 1 - n,
    {
        proof {
            lemma_pass_step(Seq::empty(), n as nat);
        }
        let div_by_3: bool = n % 3 == 0;
        let div_by_5: bool = n % 5 == 0;

        let label: &[u8] = if div_by_3 && div_by_5 {
            CRACKLE_POP.as_slice()
        } else if div_by_3 {
            CRACKLE.as_slice()
        } else if div_by_5 {
            POP.as_slice()
        } else {
            NO_LABEL.as_slice()
        };

        let ghost reached = *out;
        let sent = if label.is_empty() {
            write_u8_as_utf8(n, &mut vec).unwrap();
            vec.push(NEWLINE);
            assert(vec@ =~= line(n as nat));
            let sent = write_all(out, vec.as_slice());
            vec.clear();
            sent
        } else {
            let mut text = slice_to_vec(label);
            text.push(NEWLINE);
            assert(text@ =~= line(n as nat));
            write_all(out, text.as_slice())
        };
        proof {
            lemma_took_in_turn(
                *old(out),
                reached,
                *out,
                lines((n - 1) as nat),
                line(n as nat),
                written_of(line(n as nat).len(), sent),
            );
        }
        if let Err(e) = sent {
            proof {
                lemma_lines_start(n as nat, LAST as nat);
                lemma_took_of_longer(
                    *old(out),
                    *out,
                    lines(n as nat),
                    lines(LAST as nat),
                    lines((n - 1) as nat).len() + e.taken(),
                );
                assert(e.taken() <= line(n as nat).len());
            }
            return Err(e);
        }
        n += 1;
    }
    Ok(())
}

/// Collects the lines of 1 to 100 in a buffer of its own and flushes them to
/// `out` in one write. Each record is picked as a label or as none; a number
/// goes through the sink-generic encoder, and the line terminator is written
/// on its own.
pub fn crackle_pop_arrbuf<S: ByteSink>(out: &mut S) -> (r: Result<(), SinkError>)
    requires
        fits_in(old(out).room(), lines(LAST as nat).len()),
    ensures
        offered(*old(out), *final(out), lines(LAST as nat), r),
{
    let mut buf: ArrayBuffer<u8, ARRAY_BUFFER_SIZE> = ArrayBuffer::new();
    let mut n: u8 = 1;
    assert(buf@ =~= lines(0));
    while n <= LAST
        invariant
            1 <= n <= LAST + 1,
            buf@ == lines((n - 1) as nat),
            buf.position() == lines((n - 1) as nat).len(),
        decreases LAST + 1 - n,
    {
        proof {
            lemma_pass_step(Seq::empty(), n as nat);
        }
        let div_by_3: bool = n % 3 == 0;
        let div_by_5: bool = n % 5 == 0;

        let label: &[u8] = if div_by_3 && div_by_5 {
            CRACKLE_POP.as_slice()
        } else if div_by_3 {
            CRACKLE.as_slice()
        } else if div_by_5 {
            POP.as_slice()
        } else {
            NO_LABEL.as_slice()
        };

        if label.is_empty() {
            write_u8_as_utf8(n, &mut buf).unwrap();
            proof {
                use_type_invariant(&buf);
            }
            buf.push(NEWLINE);
        } else {
            buf.push_buf(label);
            buf.push(NEWLINE);
        }
        assert(buf@ =~= lines(n as nat));
        n += 1;
    }
    buf.flush_to(out)
}

/// Like `crackle_pop_arrbuf`, but a number is written by the buffer's own
/// encoder rather than through the sink capability.
pub fn crackle_pop_arraybuf_with_own_write_u8<S: ByteSink>(out: &mut S) -> (r: Result<
    (),
    SinkError,
>)
    requires
        fits_in(old(out).room(), lines(LAST as nat).len()),
    ensures
        offered(*old(out), *final(out), lines(LAST as nat), r),
{
    let mut buf: ArrayBuffer<u8, ARRAY_BUFFER_SIZE> = ArrayBuffer::new();
    let mut n: u8 = 1;
    assert(buf@ =~= lines(0));
    while n <= LAST
        invariant
            1 <= n <= LAST + 1,
            buf@ == lines((n - 1) as nat),
            buf.position() == lines((n - 1) as nat).len(),
        decreases LAST + 1 - n,
    {
        proof {
            lemma_pass_step(Seq::empty(), n as nat);
        }
        let div_by_3: bool = n % 3 == 0;
        let div_by_5: bool = n % 5 == 0;

        let label: &[u8] = if div_by_3 && div_by_5 {
            CRACKLE_POP.as_slice()
        } else if div_by_3 {
            CRACKLE.as_slice()
        } else if div_by_5 {
            POP.as_slice()
        } else {
            NO_LABEL.as_slice()
        };

        if label.is_empty() {
            buf.write_u8_as_utf8(n);
            buf.push(NEWLINE);
        } else {
            buf.push_buf(label);
            buf.push(NEWLINE);
        }
        assert(buf@ =~= lines(n as nat));
        n += 1;
    }
    buf.flush_to(out)
}

/// Like `crackle_pop_arraybuf_with_own_write_u8`, but each record and its
/// line terminator are written by one call.
pub fn crackle_pop_arraybuf_with_newline_methods<S: ByteSink>(out: &mut S) -> (r: Result<
    (),
    SinkError,
>)
    requires
        fits_in(old(out).room(), lines(LAST as nat).len()),
    ensures
        offered(*old(out), *final(out), lines(LAST as nat), r),
{
    let mut buf: ArrayBuffer<u8, ARRAY_BUFFER_SIZE> = ArrayBuffer::new();
    let mut n: u8 = 1;
    assert(buf@ =~= lines(0));
    while n <= LAST
        invariant
            1 <= n <= LAST + 1,
            buf@ == lines((n - 1) as nat),
            buf.position() == lines((n - 1) as nat).len(),
        decreases LAST + 1 - n,
    {
        proof {
            lemma_pass_step(Seq::empty(), n as nat);
        }
        let div_by_3: bool = n % 3 == 0;
        let div_by_5: bool = n % 5 == 0;

        let label: &[u8] = if div_by_3 && div_by_5 {
            CRACKLE_POP.as_slice()
        } else if div_by_3 {
            CRACKLE.as_slice()
        } else if div_by_5 {
            POP.as_slice()
        } else {
            NO_LABEL.as_slice()
        };

        if label.is_empty() {
            buf.write_u8_as_utf8_with_newline(n);
        } else {
            buf.push_buf_line(label);
        }
        n += 1;
    }
    buf.flush_to(out)
}

/// Like `crackle_pop_arraybuf_with_newline_methods`, but without picking a
/// label first: each case writes its record straight to the buffer.
pub fn crackle_pop_arraybuf_minimal_vars<S: ByteSink>(out: &mut S) -> (r: Result<(), SinkError>)
    requires
        fits_in(old(out).room(), lines(LAST as nat).len()),
    ensures
        offered(*old(out), *final(out), lines(LAST as nat), r),
{
    let mut buf: ArrayBuffer<u8, ARRAY_BUFFER_SIZE> = ArrayBuffer::new();
    let mut n: u8 = 1;
    assert(buf@ =~= lines(0));
    while n <= LAST
        invariant
            1 <= n <= LAST + 1,
            buf@ == lines((n - 1) as nat),
            buf.position() == lines((n - 1) as nat).len(),
        decreases LAST + 1 - n,
    {
        proof {
            lemma_pass_step(Seq::empty(), n as nat);
        }
        let div_by_3: bool = n % 3 == 0;
        let div_by_5: bool = n % 5 == 0;

        if div_by_3 && div_by_5 {
            buf.push_buf_line(CRACKLE_POP.as_slice());
        } else if div_by_3 {
            buf.push_buf_line(CRACKLE.as_slice());
        } else if div_by_5 {
            buf.push_buf_line(POP.as_slice());
        } else {
            buf.write_u8_as_utf8_with_newline(n)
        };
        n += 1;
    }
    buf.flush_to(out)
}

/// Like `crackle_pop_arraybuf_minimal_vars`, but collects the lines in a
/// growing container, and sends them from there in one write.
pub fn crackle_pop_vec_minimal_vars<S: ByteSink>(out: &mut S) -> (r: Result<(), SinkError>)
    requires
        fits_in(old(out).room(), lines(LAST as nat).len()),
    ensures
        offered(*old(out), *final(out), lines(LAST as nat), r),
{
    let mut buf: Vec<u8> = Vec::with_capacity(ARRAY_BUFFER_SIZE);
    let mut n: u8 = 1;
    assert(buf@ =~= lines(0));
    while n <= LAST
        invariant
            1 <= n <= LAST + 1,
            buf@ == lines((n - 1) as nat),
        decreases LAST + 1 - n,
    {
        proof {
            lemma_pass_step(Seq::empty(), n as nat);
        }
        let ghost below = buf@;
        let div_by_3: bool = n % 3 == 0;
        let div_by_5: bool = n % 5 == 0;

        if div_by_3 && div_by_5 {
            buf.extend_from_slice(CRACKLE_POP.as_slice());
        } else if div_by_3 {
            buf.extend_from_slice(CRACKLE.as_slice());
        } else if div_by_5 {
            buf.extend_from_slice(POP.as_slice());
        } else {
            write_u8_as_utf8(n, &mut buf).unwrap();
        };
        assert(buf@ =~= below + record(n as nat));
        buf.push(NEWLINE);
        assert(buf@ =~= below + line(n as nat));
        n += 1;
    }
    write_all(out, buf.as_slice())
}

/// Adds the lines of 1 to 100 to the buffer `buf`, each record written as a
/// label or as decimal text and closed by its line terminator in the same
/// call. Nothing is allocated and nothing is sent.
pub fn crackle_pop_ext_arraybuf_minimal_vars(buf: &mut ArrayBuffer<u8, ARRAY_BUFFER_SIZE>)
    requires
        old(buf).has_room(lines(LAST as nat).len()),
    ensures
        final(buf)@ == old(buf)@ + lines(LAST as nat),
        final(buf).extends(old(buf), lines(LAST as nat)),
{
    let mut n: u8 = 1;
    assert(buf@ =~= old(buf)@ + lines(0));
    assert(buf.storage() =~= overwrite(old(buf).storage(), old(buf).position() as int, lines(0)));
    while n <= LAST
        invariant
            1 <= n <= LAST + 1,
            buf@ == old(buf)@ + lines((n - 1) as nat),
            buf.extends(old(buf), lines((n - 1) as nat)),
            old(buf).has_room(lines(LAST as nat).len()),
        decreases LAST + 1 - n,
    {
        proof {
            lemma_pass_step(old(buf)@, n as nat);
            use_type_invariant(&*buf);
        }
        let ghost reached = *buf;
        let div_by_3: bool = n % 3 == 0;
        let div_by_5: bool = n % 5 == 0;

        if div_by_3 && div_by_5 {
            buf.push_buf_line(CRACKLE_POP.as_slice());
        } else if div_by_3 {
            buf.push_buf_line(CRACKLE.as_slice());
        } else if div_by_5 {
            buf.push_buf_line(POP.as_slice());
        } else {
            buf.write_u8_as_utf8_with_newline(n)
        };
        proof {
            ArrayBuffer::lemma_extends_in_turn(
                *old(buf),
                reached,
                *buf,
                lines((n - 1) as nat),
                line(n as nat),
            );
        }
        n += 1;
    }
}

/// Like `crackle_pop_ext_arraybuf_minimal_vars`, but takes the buffer over
/// and gives it back.
pub fn crackle_pop_ext_owned_arraybuf_minimal_vars(
    mut buf: ArrayBuffer<u8, ARRAY_BUFFER_SIZE>,
) -> (filled: ArrayBuffer<u8, ARRAY_BUFFER_SIZE>)
    requires
        buf.has_room(lines(LAST as nat).len()),
    ensures
        filled@ == buf@ + lines(LAST as nat),
        filled.extends(&buf, lines(LAST as nat)),
{
    let ghost given = buf;
    let mut n: u8 = 1;
    assert(buf@ =~= given@ + lines(0));
    assert(buf.storage() =~= overwrite(given.storage(), given.position() as int, lines(0)));
    while n <= LAST
        invariant
            1 <= n <= LAST + 1,
            buf@ == given@ + lines((n - 1) as nat),
            buf.extends(&given, lines((n - 1) as nat)),
            given.has_room(lines(LAST as nat).len()),
        decreases LAST + 1 - n,
    {
        proof {
            lemma_pass_step(given@, n as nat);
            use_type_invariant(&buf);
        }
        let ghost reached = buf;
        let div_by_3: bool = n % 3 == 0;
        let div_by_5: bool = n % 5 == 0;

        if div_by_3 && div_by_5 {
            buf.push_buf_line(CRACKLE_POP.as_slice());
        } else if div_by_3 {
            buf.push_buf_line(CRACKLE.as_slice());
        } else if div_by_5 {
            buf.push_buf_line(POP.as_slice());
        } else {
            buf.write_u8_as_utf8_with_newline(n)
        };
        proof {
            ArrayBuffer::lemma_extends_in_turn(
                given,
                reached,
                buf,
                lines((n - 1) as nat),
                line(n as nat),
            );
        }
        n += 1;
    }

    buf
}

/// Adds the lines of 1 to 100 to the growing container `buf`. A number goes
/// through the sink-generic encoder, and the line terminator is pushed on its
/// own.
pub fn crackle_pop_ext_vec_minimal_vars(buf: &mut Vec<u8>)
    ensures
        final(buf)@ == old(buf)@ + lines(LAST as nat),
{
    let mut n: u8 = 1;
    assert(buf@ =~= old(buf)@ + lines(0));
    while n <= LAST
        invariant
            1 <= n <= LAST + 1,
            buf@ == old(buf)@ + lines((n - 1) as nat),
        decreases LAST + 1 - n,
    {
        proof {
            lemma_pass_step(old(buf)@, n as nat);
        }
        let ghost reached = buf@;
        let div_by_3: bool = n % 3 == 0;
        let div_by_5: bool = n % 5 == 0;

        if div_by_3 && div_by_5 {
            buf.extend_from_slice(CRACKLE_POP.as_slice());
        } else if div_by_3 {
            buf.extend_from_slice(CRACKLE.as_slice());
        } else if div_by_5 {
            buf.extend_from_slice(POP.as_slice());
        } else {
            write_u8_as_utf8(n, buf).unwrap();
        };
        assert(buf@ =~= reached + record(n as nat));
        buf.push(NEWLINE);
        assert(buf@ =~= reached + line(n as nat));
        n += 1;
    }
}

/// Like `crackle_pop_ext_vec_minimal_vars`, but with the encoder that knows
/// only one and two digits, which is all that a pass needs: 100 has a label.
pub fn crackle_pop_fastest_vec(buf: &mut Vec<u8>)
    ensures
        final(buf)@ == old(buf)@ + lines(LAST as nat),
{
    let mut n: u8 = 1;
    assert(buf@ =~= old(buf)@ + lines(0));
    while n <= LAST
        invariant
            1 <= n <= LAST + 1,
            buf@ == old(buf)@ + lines((n - 1) as nat),
        decreases LAST + 1 - n,
    {
        proof {
            lemma_pass_step(old(buf)@, n as nat);
        }
        let ghost reached = buf@;
        let div_by_3: bool = n % 3 == 0;
        let div_by_5: bool = n % 5 == 0;

        if div_by_3 && div_by_5 {
            buf.extend_from_slice(CRACKLE_POP.as_slice());
        } else if div_by_3 {
            buf.extend_from_slice(CRACKLE.as_slice());
        } else if div_by_5 {
            buf.extend_from_slice(POP.as_slice());
        } else {
            write_1_or_2_digit_u8_as_utf8(n, buf).unwrap();
        };
        assert(buf@ =~= reached + record(n as nat));
        buf.push(NEWLINE);
        assert(buf@ =~= reached + line(n as nat));
        n += 1;
    }
}

/// Adds the lines of 1 to 100 to the buffer `buf`: a label with its line
/// terminator in one call, a number through the encoder that knows only one
/// and two digits, followed by its line terminator.
pub fn crackle_pop_fastest_arraybuf(buf: &mut ArrayBuffer<u8, ARRAY_BUFFER_SIZE>)
    requires
        old(buf).has_room(lines(LAST as nat).len()),
    ensures
        final(buf)@ == old(buf)@ + lines(LAST as nat),
        final(buf).position() == old(buf).position() + lines(LAST as nat).len(),
{
    let mut n: u8 = 1;
    assert(buf@ =~= old(buf)@ + lines(0));
    while n <= LAST
        invariant
            1 <= n <= LAST + 1,
            buf@ == old(buf)@ + lines((n - 1) as nat),
            buf.position() == old(buf).position() + lines((n - 1) as nat).len(),
            old(buf).has_room(lines(LAST as nat).len()),
        decreases LAST + 1 - n,
    {
        proof {
            lemma_pass_step(old(buf)@, n as nat);
            use_type_invariant(&*buf);
        }
        let ghost reached = buf@;
        let div_by_3: bool = n % 3 == 0;
        let div_by_5: bool = n % 5 == 0;

        if div_by_3 && div_by_5 {
            buf.push_buf_line(CRACKLE_POP.as_slice());
        } else if div_by_3 {
            buf.push_buf_line(CRACKLE.as_slice());
        } else if div_by_5 {
            buf.push_buf_line(POP.as_slice());
        } else {
            write_1_or_2_digit_u8_as_utf8(n, buf).unwrap();
            proof {
                use_type_invariant(&*buf);
            }
            buf.push(NEWLINE);
        };
        assert(buf@ =~= reached + line(n as nat));
        proof {
            use_type_invariant(&*buf);
        }
        n += 1;
    }
}

/// Collects the lines of 1 to 100 in a growing container, with the encoder
/// that knows only one and two digits, and sends them to `out` in one write.
pub fn crackle_pop_fast<S: ByteSink>(out: &mut S) -> (r: Result<(), SinkError>)
    requires
        fits_in(old(out).room(), lines(LAST as nat).len()),
    ensures
        offered(*old(out), *final(out), lines(LAST as nat), r),
{
    let mut buf: Vec<u8> = Vec::with_capacity(CAPACITY);
    let mut n: u8 = 1;
    assert(buf@ =~= lines(0));
    while n <= LAST
        invariant
            1 <= n <= LAST + 1,
            buf@ == lines((n - 1) as nat),
        decreases LAST + 1 - n,
    {
        proof {
            lemma_pass_step(Seq::empty(), n as nat);
        }
        let ghost below = buf@;
        let div_by_3: bool = n % 3 == 0;
        let div_by_5: bool = n % 5 == 0;

        if div_by_3 && div_by_5 {
            buf.extend_from_slice(CRACKLE_POP.as_slice());
        } else if div_by_3 {
            buf.extend_from_slice(CRACKLE.as_slice());
        } else if div_by_5 {
            buf.extend_from_slice(POP.as_slice());
        } else {
            write_1_or_2_digit_u8_as_utf8(n, &mut buf).unwrap();
        };
        assert(buf@ =~= below + record(n as nat));
        buf.push(NEWLINE);
        assert(buf@ =~= below + line(n as nat));
        n += 1;
    }
    write_all(out, buf.as_slice())
}

} // verus!
