//! A fixed-capacity byte buffer, an encoder that writes small integers as
//! decimal text without formatting them first, and passes over the numbers 1
//! to 100 that put the two to work.
//!
//! - [`buffer`]: `ArrayBuffer`, an array with a cursor that is only ever
//!   written at the cursor and rewound.
//! - [`decimal`]: what the decimal text of a number is, and the encoders that
//!   write it to a sink.
//! - [`sink`]: `ByteSink`, the one thing the encoders and the buffer's flush
//!   ask of a destination, and the sinks that come with the library.
//! - [`pass`]: the lines of a pass, and the ways to produce them.

pub mod buffer;
pub mod decimal;
pub mod pass;
pub mod sink;

pub use buffer::ArrayBuffer;
pub use decimal::{format_decimal, write_1_or_2_digit_u8_as_utf8, write_u8_as_utf8};
pub use pass::{
    crackle_pop, crackle_pop_arraybuf_minimal_vars, crackle_pop_arraybuf_with_newline_methods,
    crackle_pop_arraybuf_with_own_write_u8, crackle_pop_arrbuf,
    crackle_pop_ext_arraybuf_minimal_vars, crackle_pop_ext_owned_arraybuf_minimal_vars,
    crackle_pop_ext_vec_minimal_vars, crackle_pop_fast, crackle_pop_faster_utf8,
    crackle_pop_fastest_arraybuf, crackle_pop_fastest_vec, crackle_pop_hardcoded,
    crackle_pop_vec_minimal_vars, ARRAY_BUFFER_SIZE, CAPACITY, PASS_LEN,
};
pub use sink::{confine, settle, write_all, ByteSink, FnSink, SinkError};
