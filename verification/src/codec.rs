//! The streaming codec: one read buffer per connection. Bytes are fed
//! in as they arrive; a frame is taken out only when it is whole, and
//! exactly its bytes leave the buffer.
use vstd::prelude::*;
use crate::decode::spec_decode;
use crate::encode::{RespEncode, enc_frame};
use crate::frame::{ErrView, FrameView, RespError, RespFrame};

verus! {

/// The per-connection decode state: the bytes received and not yet
/// consumed by a decoded frame.
pub struct RespCodec {
    buf: Vec<u8>,
}

impl View for RespCodec {
    type V = Seq<u8>;

    closed spec fn view(&self) -> Seq<u8> {
        self.buf@
    }
}

impl RespCodec {
    pub fn new() -> (r: Self)
        ensures
            r@ == Seq::<u8>::empty(),
    {
        RespCodec { buf: Vec::new() }
    }

    /// Append newly received bytes to the read buffer.
    pub fn feed(&mut self, data: &[u8])
        ensures
            final (self)@ == old(self)@ + data@,
    {
        let n = data.len();
        let mut i: usize = 0;
        while i < n
            invariant
                i <= n,
                n == data@.len(),
                self.buf@ =~= old(self)@ + data@.take(i as int),
            decreases n - i,
        {
            self.buf.push(data[i]);
            proof {
                assert(old(self)@ + data@.take(i as int) + seq![data@[i as int]] =~= old(self)@
                    + data@.take(i + 1));
            }
            i = i + 1;
        }
        proof {
            assert(data@.take(n as int) =~= data@);
        }
    }

    /// Take the next whole frame off the buffer. A whole frame leaves
    /// exactly its own bytes; an incomplete one leaves the buffer
    /// untouched and yields nothing; anything else is fatal and the
    /// buffer is kept as it stood.
    pub fn next_frame(&mut self) -> (r: Result<Option<RespFrame>, RespError>)
        ensures
            match spec_decode(old(self)@) {
                Ok((v, n)) => r matches Ok(fo) && fo matches Some(f) && f@ == v && final (self)@
                    == old(self)@.skip(n),
                Err(e) => final (self)@ == old(self)@ && (if e == ErrView::NotComplete {
                    r == Ok::<Option<RespFrame>, RespError>(None)
                } else {
                    r matches Err(err) && err@ == e
                }),
            },
    {
        match RespFrame::decode(self.buf.as_slice()) {
            Ok((f, n)) => {
                let rest = crate::frame::copy_bytes(&self.buf);
                let mut shifted: Vec<u8> = Vec::new();
                let len = rest.len();
                let mut i: usize = n;
                while i < len
                    invariant
                        n <= i <= len,
                        len == rest@.len(),
                        shifted@ =~= rest@.subrange(n as int, i as int),
                    decreases len - i,
                {
                    shifted.push(rest[i]);
                    proof {
                        assert(shifted@ =~= rest@.subrange(n as int, i + 1));
                    }
                    i = i + 1;
                }
                proof {
                    assert(rest@.subrange(n as int, len as int) =~= old(self)@.skip(n as int));
                }
                self.buf = shifted;
                Ok(Some(f))
            },
            Err(e) => match e {
                RespError::RespNotComplete => Ok(None),
                other => Err(other),
            },
        }
    }

    /// Append the wire form of `item` to the write buffer `dst`.
    pub fn encode(&mut self, item: RespFrame, dst: &mut Vec<u8>)
        ensures
            final (dst)@ == old(dst)@ + enc_frame(item@),
            final (self)@ == old(self)@,
    {
        let bytes = item.encode();
        let n = bytes.len();
        let mut i: usize = 0;
        while i < n
            invariant
                i <= n,
                n == bytes@.len(),
                bytes@ == enc_frame(item@),
                dst@ =~= old(dst)@ + bytes@.take(i as int),
            decreases n - i,
        {
            dst.push(bytes[i]);
            proof {
                assert(old(dst)@ + bytes@.take(i as int) + seq![bytes@[i as int]] =~= old(dst)@
                    + bytes@.take(i + 1));
            }
            i = i + 1;
        }
        proof {
            assert(bytes@.take(n as int) =~= bytes@);
        }
    }
}

} // verus!
