//! A writer that appends text to a byte buffer, and a reader that hands
//! out a stream's bytes one at a time.
use vstd::prelude::*;
use vstd::utf8::encode_utf8;

use crate::connection::CoreRead;
use crate::error::Error;
use crate::text::bytes_of;

verus! {

/// Appends the UTF-8 bytes of text to a borrowed byte buffer.
pub(crate) struct VecWriter<'a> {
    pub(crate) buffer: &'a mut Vec<u8>,
}

impl<'a> VecWriter<'a> {
    /// A writer that appends to `buffer`.
    pub(crate) fn new(buffer: &'a mut Vec<u8>) -> (w: Self)
        ensures
            w.buffer@ == old(buffer)@,
            final(w.buffer)@ == final(buffer)@,
    {
        VecWriter { buffer }
    }

    /// Appends the UTF-8 bytes of `s`.
    pub(crate) fn write_str(&mut self, s: &str)
        ensures
            final(self).buffer@ == old(self).buffer@ + encode_utf8(s@),
            final(final(self).buffer)@ == final(old(self).buffer)@,
    {
        let bytes = bytes_of(s);
        let mut i: usize = 0;
        while i < bytes.len()
            invariant
                i <= bytes@.len(),
                self.buffer@ == old(self).buffer@ + bytes@.take(i as int),
                final(self.buffer)@ == final(old(self).buffer)@,
            decreases bytes@.len() - i,
        {
            self.buffer.push(bytes[i]);
            i = i + 1;
        }
    }
}

/// Hands out the bytes of a stream one at a time, reading into its buffer
/// whenever the buffered bytes are used up.
pub(crate) struct BufferReader<T: CoreRead> {
    pub(crate) backing_stream: T,
    pub(crate) backing_buffer: Vec<u8>,
    pub(crate) index: usize,
}

impl<T: CoreRead> BufferReader<T> {
    /// A reader over `stream` with an empty buffer of capacity `max_size`.
    pub(crate) fn new(max_size: usize, stream: T) -> (r: BufferReader<T>)
        ensures
            r.backing_stream == stream,
            r.backing_buffer@ == Seq::<u8>::empty(),
            r.index == 0,
    {
        let backer = Vec::with_capacity(max_size);
        BufferReader { backing_stream: stream, backing_buffer: backer, index: 0 }
    }

    /// The next byte: the next buffered one, or, when those are used up,
    /// the first of what one read into the buffer gives; `None` when the
    /// buffer stays empty.
    pub(crate) fn next(&mut self) -> (r: Option<Result<u8, Error>>)
        ensures
            old(self).index < old(self).backing_buffer@.len() ==> {
                &&& r == Some(Ok::<u8, Error>(old(self).backing_buffer@[old(self).index as int]))
                &&& final(self).index == old(self).index + 1
                &&& final(self).backing_buffer == old(self).backing_buffer
            },
            old(self).index >= old(self).backing_buffer@.len() ==> {
                &&& final(self).backing_buffer@.len() == 0 ==> r is None
                &&& final(self).backing_buffer@.len() > 0 ==> r == Some(
                    Ok::<u8, Error>(final(self).backing_buffer@[0]),
                ) && final(self).index == 1
            },
    {
        if self.index >= self.backing_buffer.len() {
            let _ = self.backing_stream.read(self.backing_buffer.as_mut_slice());
            self.index = 0;
        }
        if self.index < self.backing_buffer.len() {
            self.index = self.index + 1;
            Some(Ok(self.backing_buffer[self.index - 1]))
        } else {
            None
        }
    }
}

} // verus!
