//! The reverse line reader that the history scan stands on. Nothing in this
//! file is proved: each contract states what the reader's source shows.
use crate::lines::{before_last_line, last_line};
use rev_buf_reader::RevBufReader;
use std::io::BufRead;
use std::io::Cursor;
use vstd::prelude::*;
use vstd::utf8::{decode_utf8, valid_utf8};

verus! {

/// `rev_buf_reader::RevBufReader`, a buffered reader that hands out a stream
/// from its end to its start. Nothing is known of what is inside.
#[verifier::external_type_specification]
#[verifier::external_body]
#[verifier::reject_recursive_types(R)]
pub struct ExRevBufReader<R>(RevBufReader<R>);

/// `std::io::Cursor`, which makes a stream of bytes held in memory.
#[verifier::external_type_specification]
#[verifier::external_body]
#[verifier::reject_recursive_types(T)]
pub struct ExCursor<T>(Cursor<T>);

/// `std::io::Error`, with which a read fails.
#[verifier::external_type_specification]
#[verifier::external_body]
pub struct ExIoError(std::io::Error);

/// The bytes of the log that `reader` has not handed out yet: those from the
/// start of the log up to the reader's position.
pub uninterp spec fn unread(reader: RevBufReader<Cursor<Vec<u8>>>) -> Seq<u8>;

/// `RevBufReader::new` over a `Cursor` that holds `source`: the reader is
/// placed at the end of `source`, so all of it is still to be read.
#[verifier::external_body]
pub(crate) fn open_at_end(source: Vec<u8>) -> (reader: RevBufReader<Cursor<Vec<u8>>>)
    ensures
        unread(reader) == source@,
{
    RevBufReader::new(Cursor::new(source))
}

/// `BufRead::read_line` as `RevBufReader` implements it, called with an
/// empty `buf`. The call takes the last physical line off the unread bytes,
/// whatever the line holds. When the line is valid UTF-8 the call returns
/// the line's length in bytes and leaves its text in `buf`; otherwise it
/// fails and leaves `buf` empty. Once nothing is unread, the line is empty
/// and the length is 0. A cursor over bytes in memory gives the reader no
/// other way to fail.
#[verifier::external_body]
pub(crate) fn read_line_backward(
    reader: &mut RevBufReader<Cursor<Vec<u8>>>,
    buf: &mut String,
) -> (res: Result<usize, std::io::Error>)
    requires
        old(buf)@.len() == 0,
    ensures
        unread(*final(reader)) == before_last_line(unread(*old(reader))),
        res is Ok <==> valid_utf8(last_line(unread(*old(reader)))),
        res matches Ok(n) ==> n == last_line(unread(*old(reader))).len() && final(buf)@
            == decode_utf8(last_line(unread(*old(reader)))),
        res is Err ==> final(buf)@.len() == 0,
{
    reader.read_line(buf)
}

} // verus!
