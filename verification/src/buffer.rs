//! What the decoder relies on of the byte buffer it reads from.

use vstd::prelude::*;
use bytes::BytesMut;

verus! {

/// `bytes::BytesMut`, the buffer that the transport appends to. Nothing of its
/// inside is known here; what it holds goes by the name `contents`.
#[verifier::external_type_specification]
#[verifier::external_body]
pub struct ExBytesMut(bytes::BytesMut);

/// The bytes a buffer holds, first to last.
pub uninterp spec fn contents(buf: BytesMut) -> Seq<u8>;

/// `BytesMut::as_ref` lends the buffer's bytes as a slice: all of them, in order.
pub assume_specification<'a>[ <BytesMut as AsRef<[u8]>>::as_ref ](buf: &'a BytesMut) -> (bytes:
    &'a [u8])
    ensures
        bytes@ == contents(*buf),
;

/// `BytesMut::split_to` cuts the buffer at `at`: the bytes before `at` are
/// returned, the bytes from `at` on stay. It panics when `at` is beyond the end,
/// which the precondition rules out.
pub assume_specification[ BytesMut::split_to ](buf: &mut BytesMut, at: usize) -> (head: BytesMut)
    requires
        at <= contents(*old(buf)).len(),
    ensures
        contents(head) == contents(*old(buf)).take(at as int),
        contents(*final(buf)) == contents(*old(buf)).skip(at as int),
;

} // verus!
