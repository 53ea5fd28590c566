use crackle_pop::{confine, settle, write_all, write_u8_as_utf8, ByteSink, FnSink, SinkError};
use std::cell::RefCell;

#[test]
fn settle_accepts_a_whole_write() {
    assert_eq!(settle(3, Ok(3)), Ok(()));
    assert_eq!(settle(0, Ok(0)), Ok(()));
}

#[test]
fn settle_reports_a_short_write() {
    assert_eq!(settle(3, Ok(2)), Err(SinkError::Partial { accepted: 2 }));
    assert_eq!(settle(3, Ok(0)), Err(SinkError::Partial { accepted: 0 }));
}

#[test]
fn settle_passes_the_error_of_the_sink_on() {
    assert_eq!(settle(3, Err(SinkError::Rejected)), Err(SinkError::Rejected));
    assert_eq!(
        settle(3, Err(SinkError::Partial { accepted: 1 })),
        Err(SinkError::Partial { accepted: 1 })
    );
}

#[test]
fn confine_keeps_what_is_within_the_length() {
    assert_eq!(confine(3, Ok(0)), Ok(0));
    assert_eq!(confine(3, Ok(3)), Ok(3));
    assert_eq!(confine(3, Err(SinkError::Rejected)), Err(SinkError::Rejected));
    assert_eq!(
        confine(3, Err(SinkError::Partial { accepted: 3 })),
        Err(SinkError::Partial { accepted: 3 })
    );
}

#[test]
fn confine_cuts_a_count_above_the_length() {
    assert_eq!(confine(3, Ok(4)), Ok(3));
    assert_eq!(
        confine(3, Err(SinkError::Partial { accepted: 9 })),
        Err(SinkError::Partial { accepted: 3 })
    );
}

#[test]
fn a_vec_takes_every_write_whole() {
    let mut out: Vec<u8> = vec![1];
    assert_eq!(out.write(&[2, 3]), Ok(2));
    assert_eq!(out.write(&[]), Ok(0));
    assert_eq!(write_all(&mut out, &[4]), Ok(()));
    assert_eq!(out, vec![1, 2, 3, 4]);
}

#[test]
fn a_function_sink_hands_each_write_to_the_function() {
    let seen: RefCell<Vec<u8>> = RefCell::new(Vec::new());
    let mut sink = FnSink::new(|bytes: &[u8]| {
        seen.borrow_mut().extend_from_slice(bytes);
        Ok(bytes.len())
    });
    assert_eq!(sink.write(b"ab"), Ok(2));
    assert_eq!(write_all(&mut sink, b"cd"), Ok(()));
    assert_eq!(write_u8_as_utf8(200, &mut sink), Ok(()));
    assert_eq!(*seen.borrow(), b"abcd200");
}

#[test]
fn a_short_write_is_reported_with_its_length() {
    let seen: RefCell<Vec<u8>> = RefCell::new(Vec::new());
    let mut sink = FnSink::new(|bytes: &[u8]| {
        seen.borrow_mut().push(bytes[0]);
        Ok(1)
    });
    assert_eq!(write_all(&mut sink, &[1, 2]), Err(SinkError::Partial { accepted: 1 }));
    assert_eq!(*seen.borrow(), vec![1]);
}

#[test]
fn a_rejected_write_is_reported() {
    let mut sink = FnSink::new(|_bytes: &[u8]| Err(SinkError::Rejected));
    assert_eq!(sink.write(&[1, 2]), Err(SinkError::Rejected));
    assert_eq!(write_all(&mut sink, &[1, 2]), Err(SinkError::Rejected));
    assert_eq!(write_u8_as_utf8(5, &mut sink), Err(SinkError::Rejected));
}

#[test]
fn a_function_that_claims_too_much_is_held_to_the_length() {
    let mut sink = FnSink::new(|_bytes: &[u8]| Ok(100));
    assert_eq!(sink.write(&[1, 2]), Ok(2));
    assert_eq!(write_all(&mut sink, &[1, 2]), Ok(()));
}

#[test]
fn an_encoder_reports_a_short_write() {
    let mut sink = FnSink::new(|_bytes: &[u8]| Ok(1));
    assert_eq!(write_u8_as_utf8(7, &mut sink), Ok(()));
    assert_eq!(write_u8_as_utf8(42, &mut sink), Err(SinkError::Partial { accepted: 1 }));
    assert_eq!(write_u8_as_utf8(240, &mut sink), Err(SinkError::Partial { accepted: 1 }));
}
