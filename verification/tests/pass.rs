use crackle_pop::{
    crackle_pop, crackle_pop_arraybuf_minimal_vars, crackle_pop_arraybuf_with_newline_methods,
    crackle_pop_arraybuf_with_own_write_u8, crackle_pop_arrbuf,
    crackle_pop_ext_arraybuf_minimal_vars, crackle_pop_ext_owned_arraybuf_minimal_vars,
    crackle_pop_ext_vec_minimal_vars, crackle_pop_fast, crackle_pop_faster_utf8,
    crackle_pop_fastest_arraybuf, crackle_pop_fastest_vec, crackle_pop_hardcoded,
    crackle_pop_vec_minimal_vars, ArrayBuffer, FnSink, SinkError, ARRAY_BUFFER_SIZE, CAPACITY,
    PASS_LEN,
};
use std::cell::{Cell, RefCell};

/// The lines of 1 to `n`, worked out the plain way.
fn expected_lines(n: u32) -> Vec<u8> {
    let mut text = String::new();
    for i in 1..=n {
        if i % 15 == 0 {
            text.push_str("CracklePop");
        } else if i % 3 == 0 {
            text.push_str("Crackle");
        } else if i % 5 == 0 {
            text.push_str("Pop");
        } else {
            text.push_str(&i.to_string());
        }
        text.push('\n');
    }
    text.into_bytes()
}

#[test]
fn the_first_fifteen_lines() {
    let mut out: Vec<u8> = Vec::new();
    crackle_pop_ext_vec_minimal_vars(&mut out);
    let text = String::from_utf8(out).unwrap();
    let first: Vec<&str> = text.split_inclusive('\n').take(15).collect();
    assert_eq!(
        first.concat(),
        "1\n2\nCrackle\n4\nPop\nCrackle\n7\n8\nCrackle\nPop\n11\nCrackle\n13\n14\nCracklePop\n"
    );
    assert_eq!(first.concat().as_bytes(), &expected_lines(15)[..]);
}

#[test]
fn a_pass_has_a_hundred_lines_and_ends_with_pop() {
    let mut out: Vec<u8> = Vec::new();
    crackle_pop_ext_vec_minimal_vars(&mut out);
    let text = String::from_utf8(out).unwrap();
    assert_eq!(text.lines().count(), 100);
    assert!(text.ends_with("98\nCrackle\nPop\n"));
    assert!(text.starts_with("1\n2\nCrackle\n"));
    assert_eq!(text.lines().nth(29), Some("CracklePop"));
}

#[test]
fn a_pass_is_within_the_sizes_set_aside_for_it() {
    let text = expected_lines(100);
    assert_eq!(text.len(), 492);
    assert_eq!(PASS_LEN, 492);
    assert_eq!(CAPACITY, 1000);
    assert_eq!(ARRAY_BUFFER_SIZE, 2048);
    assert!(PASS_LEN <= 100 * ("CracklePop".len() + 1));
    assert!(PASS_LEN <= CAPACITY && CAPACITY <= ARRAY_BUFFER_SIZE);
}

#[test]
fn a_buffer_with_too_little_room_is_told_apart_before_the_pass() {
    let mut buf: ArrayBuffer<u8, ARRAY_BUFFER_SIZE> = ArrayBuffer::new();
    buf.push_buf(&[b' '; ARRAY_BUFFER_SIZE - PASS_LEN]);
    assert_eq!(buf.remaining(), PASS_LEN);
    crackle_pop_ext_arraybuf_minimal_vars(&mut buf);
    assert_eq!(buf.remaining(), 0);
    assert_eq!(&buf.as_slice()[ARRAY_BUFFER_SIZE - PASS_LEN..], &expected_lines(100)[..]);

    buf.reset();
    buf.push_buf(&[b' '; ARRAY_BUFFER_SIZE - PASS_LEN + 1]);
    assert!(buf.remaining() < PASS_LEN);
}

#[test]
fn ext_arraybuf_adds_the_lines() {
    let mut buf: ArrayBuffer<u8, ARRAY_BUFFER_SIZE> = ArrayBuffer::new();
    buf.push_buf(b"head\n");
    crackle_pop_ext_arraybuf_minimal_vars(&mut buf);
    let mut expected = b"head\n".to_vec();
    expected.extend_from_slice(&expected_lines(100));
    assert_eq!(buf.as_slice(), &expected[..]);
    assert_eq!(buf.len(), 5 + PASS_LEN);
}

#[test]
fn ext_arraybuf_can_be_used_again_after_a_reset() {
    let mut buf: ArrayBuffer<u8, ARRAY_BUFFER_SIZE> = ArrayBuffer::new();
    for _ in 0..3 {
        crackle_pop_ext_arraybuf_minimal_vars(&mut buf);
        assert_eq!(buf.as_slice(), &expected_lines(100)[..]);
        buf.reset();
    }
}

#[test]
fn ext_owned_arraybuf_adds_the_lines() {
    let mut buf: ArrayBuffer<u8, ARRAY_BUFFER_SIZE> = ArrayBuffer::new();
    buf.push(b'>');
    let filled = crackle_pop_ext_owned_arraybuf_minimal_vars(buf.clone());
    let mut expected = vec![b'>'];
    expected.extend_from_slice(&expected_lines(100));
    assert_eq!(filled.as_slice(), &expected[..]);
    assert_eq!(buf.as_slice(), b">");
}

#[test]
fn ext_vec_adds_the_lines() {
    let mut out: Vec<u8> = b"head\n".to_vec();
    crackle_pop_ext_vec_minimal_vars(&mut out);
    let mut expected = b"head\n".to_vec();
    expected.extend_from_slice(&expected_lines(100));
    assert_eq!(out, expected);
}

#[test]
fn fastest_vec_adds_the_lines() {
    let mut out: Vec<u8> = Vec::new();
    crackle_pop_fastest_vec(&mut out);
    assert_eq!(out, expected_lines(100));
    crackle_pop_fastest_vec(&mut out);
    assert_eq!(out.len(), 2 * PASS_LEN);
    assert_eq!(&out[PASS_LEN..], &expected_lines(100)[..]);
}

#[test]
fn fastest_arraybuf_adds_the_lines() {
    let mut buf: ArrayBuffer<u8, ARRAY_BUFFER_SIZE> = ArrayBuffer::new();
    crackle_pop_fastest_arraybuf(&mut buf);
    assert_eq!(buf.as_slice(), &expected_lines(100)[..]);
    crackle_pop_fastest_arraybuf(&mut buf);
    assert_eq!(buf.len(), 2 * PASS_LEN);
}

#[test]
fn passes_that_flush_a_buffer_send_the_lines() {
    let expected = expected_lines(100);

    let mut out: Vec<u8> = Vec::new();
    assert_eq!(crackle_pop_arrbuf(&mut out), Ok(()));
    assert_eq!(out, expected);

    let mut out: Vec<u8> = Vec::new();
    assert_eq!(crackle_pop_arraybuf_with_own_write_u8(&mut out), Ok(()));
    assert_eq!(out, expected);

    let mut out: Vec<u8> = Vec::new();
    assert_eq!(crackle_pop_arraybuf_with_newline_methods(&mut out), Ok(()));
    assert_eq!(out, expected);

    let mut out: Vec<u8> = Vec::new();
    assert_eq!(crackle_pop_arraybuf_minimal_vars(&mut out), Ok(()));
    assert_eq!(out, expected);
}

#[test]
fn a_pass_flushes_in_one_write() {
    let writes = Cell::new(0);
    let seen: RefCell<Vec<u8>> = RefCell::new(Vec::new());
    let mut sink = FnSink::new(|bytes: &[u8]| {
        writes.set(writes.get() + 1);
        seen.borrow_mut().extend_from_slice(bytes);
        Ok(bytes.len())
    });
    assert_eq!(crackle_pop_arraybuf_minimal_vars(&mut sink), Ok(()));
    assert_eq!(writes.get(), 1);
    assert_eq!(*seen.borrow(), expected_lines(100));
}

#[test]
fn a_pass_reports_a_sink_that_fails() {
    let mut sink = FnSink::new(|_bytes: &[u8]| Err(SinkError::Rejected));
    assert_eq!(crackle_pop_arrbuf(&mut sink), Err(SinkError::Rejected));

    let mut sink = FnSink::new(|_bytes: &[u8]| Ok(100));
    assert_eq!(
        crackle_pop_arraybuf_with_newline_methods(&mut sink),
        Err(SinkError::Partial { accepted: 100 })
    );
}

#[test]
fn passes_that_collect_in_a_vec_send_the_lines() {
    let expected = expected_lines(100);
    assert_eq!(expected.len(), PASS_LEN);
    assert!(expected.ends_with(b"98\nCrackle\nPop\n"));

    let mut out: Vec<u8> = Vec::new();
    assert_eq!(crackle_pop(&mut out), Ok(()));
    assert_eq!(out, expected);

    let mut out: Vec<u8> = Vec::new();
    assert_eq!(crackle_pop_fast(&mut out), Ok(()));
    assert_eq!(out, expected);

    let mut out: Vec<u8> = Vec::new();
    assert_eq!(crackle_pop_vec_minimal_vars(&mut out), Ok(()));
    assert_eq!(out, expected);
}

#[test]
fn every_record_of_every_pass_ends_in_a_newline() {
    let mut outs: Vec<Vec<u8>> = Vec::new();
    for _ in 0..9 {
        outs.push(Vec::new());
    }
    assert_eq!(crackle_pop(&mut outs[0]), Ok(()));
    assert_eq!(crackle_pop_fast(&mut outs[1]), Ok(()));
    assert_eq!(crackle_pop_hardcoded(&mut outs[2]), Ok(()));
    assert_eq!(crackle_pop_faster_utf8(&mut outs[3]), Ok(()));
    assert_eq!(crackle_pop_arrbuf(&mut outs[4]), Ok(()));
    assert_eq!(crackle_pop_arraybuf_with_own_write_u8(&mut outs[5]), Ok(()));
    assert_eq!(crackle_pop_arraybuf_with_newline_methods(&mut outs[6]), Ok(()));
    assert_eq!(crackle_pop_arraybuf_minimal_vars(&mut outs[7]), Ok(()));
    assert_eq!(crackle_pop_vec_minimal_vars(&mut outs[8]), Ok(()));
    for out in outs {
        assert_eq!(out.len(), 492);
        assert_eq!(out.iter().filter(|b| **b == b'\n').count(), 100);
        assert_eq!(out.last(), Some(&b'\n'));
        let text = String::from_utf8(out).unwrap();
        assert_eq!(text.lines().nth(14), Some("CracklePop"));
        assert_eq!(text.lines().count(), 100);
    }
}

#[test]
fn a_pass_that_collects_in_a_vec_sends_in_one_write() {
    let writes = Cell::new(0);
    let mut sink = FnSink::new(|bytes: &[u8]| {
        writes.set(writes.get() + 1);
        Ok(bytes.len())
    });
    assert_eq!(crackle_pop(&mut sink), Ok(()));
    assert_eq!(crackle_pop_fast(&mut sink), Ok(()));
    assert_eq!(crackle_pop_vec_minimal_vars(&mut sink), Ok(()));
    assert_eq!(writes.get(), 3);
}

#[test]
fn passes_that_send_line_by_line_send_the_lines() {
    let expected = expected_lines(100);

    let mut out: Vec<u8> = Vec::new();
    assert_eq!(crackle_pop_hardcoded(&mut out), Ok(()));
    assert_eq!(out, expected);

    let mut out: Vec<u8> = Vec::new();
    assert_eq!(crackle_pop_faster_utf8(&mut out), Ok(()));
    assert_eq!(out, expected);
}

#[test]
fn passes_that_send_line_by_line_make_a_write_for_each_line() {
    let writes = Cell::new(0);
    let mut sink = FnSink::new(|bytes: &[u8]| {
        writes.set(writes.get() + 1);
        Ok(bytes.len())
    });
    assert_eq!(crackle_pop_hardcoded(&mut sink), Ok(()));
    assert_eq!(writes.get(), 100);

    let writes = Cell::new(0);
    let mut sink = FnSink::new(|bytes: &[u8]| {
        writes.set(writes.get() + 1);
        Ok(bytes.len())
    });
    assert_eq!(crackle_pop_faster_utf8(&mut sink), Ok(()));
    assert_eq!(writes.get(), 100);
}

#[test]
fn passes_that_send_line_by_line_stop_at_the_first_failure() {
    // The sink takes fifteen lines and refuses the next.
    let seen: RefCell<Vec<u8>> = RefCell::new(Vec::new());
    let calls = Cell::new(0);
    let mut sink = FnSink::new(|bytes: &[u8]| {
        calls.set(calls.get() + 1);
        if calls.get() > 15 {
            return Err(SinkError::Rejected);
        }
        seen.borrow_mut().extend_from_slice(bytes);
        Ok(bytes.len())
    });
    assert_eq!(crackle_pop_hardcoded(&mut sink), Err(SinkError::Rejected));
    assert_eq!(calls.get(), 16);
    assert_eq!(*seen.borrow(), expected_lines(15));

    // The sink takes two lines and then one byte of "Crackle\n".
    let seen: RefCell<Vec<u8>> = RefCell::new(Vec::new());
    let calls = Cell::new(0);
    let mut sink = FnSink::new(|bytes: &[u8]| {
        calls.set(calls.get() + 1);
        let n = if calls.get() > 2 { 1 } else { bytes.len() };
        seen.borrow_mut().extend_from_slice(&bytes[..n]);
        Ok(n)
    });
    assert_eq!(crackle_pop_faster_utf8(&mut sink), Err(SinkError::Partial { accepted: 1 }));
    assert_eq!(calls.get(), 3);
    assert_eq!(*seen.borrow(), b"1\n2\nC");

    // The error is the one of the line that failed: five bytes of the
    // fifteenth line, after fourteen lines taken whole.
    let seen: RefCell<Vec<u8>> = RefCell::new(Vec::new());
    let calls = Cell::new(0);
    let mut sink = FnSink::new(|bytes: &[u8]| {
        calls.set(calls.get() + 1);
        let n = if calls.get() == 15 { 5 } else { bytes.len() };
        seen.borrow_mut().extend_from_slice(&bytes[..n]);
        if calls.get() == 15 {
            Err(SinkError::Partial { accepted: n })
        } else {
            Ok(n)
        }
    });
    assert_eq!(crackle_pop_hardcoded(&mut sink), Err(SinkError::Partial { accepted: 5 }));
    assert_eq!(calls.get(), 15);
    let mut expected = expected_lines(14);
    expected.extend_from_slice(b"Crack");
    assert_eq!(*seen.borrow(), expected);
}
