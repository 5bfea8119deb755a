//! Length-prefixed framing: each message travels as a big-endian 32-bit
//! length followed by exactly that many payload bytes.

use vstd::prelude::*;
use vstd::seq_lib::lemma_flatten_concat;

verus! {

/// The largest payload whose length fits in a frame header.
pub const MAX_FRAME_LEN: usize = 4294967295;

/// Errors of a framed channel. Each is fatal to the channel.
#[derive(Debug, Clone, Copy, PartialEq, Eq, Structural)]
pub enum ChannelError {
    /// A message too large to frame, or a payload that failed to decode.
    InvalidData,
    /// The underlying stream failed.
    Io,
    /// The peer hung up.
    Closed,
}

/// The four header bytes that announce a payload of `n` bytes.
pub open spec fn header_spec(n: nat) -> Seq<u8> {
    seq![
        ((n / 16777216) % 256) as u8,
        ((n / 65536) % 256) as u8,
        ((n / 256) % 256) as u8,
        (n % 256) as u8,
    ]
}

/// The number that the first four bytes of `b` spell, most significant first.
pub open spec fn be32_spec(b: Seq<u8>) -> nat
    recommends
        b.len() >= 4,
{
    b[0] as nat * 16777216 + b[1] as nat * 65536 + b[2] as nat * 256 + b[3] as nat
}

/// One message on the wire.
pub open spec fn frame_spec(msg: Seq<u8>) -> Seq<u8> {
    header_spec(msg.len()) + msg
}

/// A sequence of messages on the wire, in order.
pub open spec fn frames_spec(msgs: Seq<Seq<u8>>) -> Seq<u8>
    decreases msgs.len(),
{
    if msgs.len() == 0 {
        Seq::empty()
    } else {
        frame_spec(msgs[0]) + frames_spec(msgs.drop_first())
    }
}

/// The first complete message at the front of `buf` and the number of bytes
/// it occupies, or `None` when the buffer does not yet hold a whole one.
pub open spec fn decode_one_spec(buf: Seq<u8>) -> Option<(Seq<u8>, nat)> {
    if buf.len() < 4 {
        None
    } else {
        let n = be32_spec(buf);
        if buf.len() - 4 < n {
            None
        } else {
            Some((buf.subrange(4, 4 + n as int), (4 + n) as nat))
        }
    }
}

/// Every complete message at the front of `buf`, and the bytes left over.
pub open spec fn decode_all_spec(buf: Seq<u8>) -> (Seq<Seq<u8>>, Seq<u8>)
    decreases buf.len(),
{
    match decode_one_spec(buf) {
        None => (Seq::empty(), buf),
        Some((m, k)) => {
            if 0 < k <= buf.len() {
                let rest = decode_all_spec(buf.skip(k as int));
                (seq![m] + rest.0, rest.1)
            } else {
                (Seq::empty(), buf)
            }
        },
    }
}

proof fn lemma_be32_header(n: nat)
    requires
        n <= MAX_FRAME_LEN,
    ensures
        be32_spec(header_spec(n)) == n,
{
    let h = header_spec(n);
    assert(h[0] as nat == (n / 16777216) % 256);
    assert(h[1] as nat == (n / 65536) % 256);
    assert(h[2] as nat == (n / 256) % 256);
    assert(h[3] as nat == n % 256);
    assert(((n / 16777216) % 256) * 16777216 + ((n / 65536) % 256) * 65536 + ((n / 256) % 256)
        * 256 + n % 256 == n) by (nonlinear_arith)
        requires
            n <= 4294967295,
    ;
}

/// A frame decodes to the message it was built from, whatever follows it.
pub proof fn lemma_decode_frame(msg: Seq<u8>, rest: Seq<u8>)
    requires
        msg.len() <= MAX_FRAME_LEN,
    ensures
        decode_one_spec(frame_spec(msg) + rest) == Some((msg, (4 + msg.len()) as nat)),
{
    let buf = frame_spec(msg) + rest;
    lemma_be32_header(msg.len());
    assert(buf.subrange(0, 4) =~= header_spec(msg.len()));
    assert(be32_spec(buf) == be32_spec(header_spec(msg.len())));
    assert(buf.subrange(4, 4 + msg.len() as int) =~= msg);
}

/// Messages framed one after another decode back to the same messages, in
/// the same order, with nothing left over.
pub proof fn lemma_frames_round_trip(msgs: Seq<Seq<u8>>)
    requires
        forall|i: int| 0 <= i < msgs.len() ==> #[trigger] msgs[i].len() <= MAX_FRAME_LEN,
    ensures
        decode_all_spec(frames_spec(msgs)) == (msgs, Seq::<u8>::empty()),
    decreases msgs.len(),
{
    if msgs.len() == 0 {
        assert(decode_one_spec(Seq::<u8>::empty()) is None);
    } else {
        let m = msgs[0];
        let tail = msgs.drop_first();
        let buf = frames_spec(msgs);
        let k = (4 + m.len()) as nat;
        assert(buf == frame_spec(m) + frames_spec(tail));
        lemma_decode_frame(m, frames_spec(tail));
        assert(decode_one_spec(buf) == Some((m, k)));
        assert(buf.skip(k as int) =~= frames_spec(tail));
        assert forall|i: int| 0 <= i < tail.len() implies #[trigger] tail[i].len()
            <= MAX_FRAME_LEN by {
            assert(tail[i] == msgs[i + 1]);
        }
        lemma_frames_round_trip(tail);
        assert(decode_all_spec(buf) == (seq![m] + decode_all_spec(buf.skip(k as int)).0,
            decode_all_spec(buf.skip(k as int)).1));
        assert(seq![m] + tail =~= msgs);
    }
}

/// Big-endian header bytes for a payload of `n` bytes.
pub fn encode_header(n: u32) -> (r: Vec<u8>)
    ensures
        r@ == header_spec(n as nat),
{
    let mut r: Vec<u8> = Vec::with_capacity(4);
    r.push((n / 16777216) as u8);
    r.push(((n / 65536) % 256) as u8);
    r.push(((n / 256) % 256) as u8);
    r.push((n % 256) as u8);
    assert(r@ =~= header_spec(n as nat));
    r
}

/// The big-endian number in the first four bytes of `b`.
pub fn read_be32(b: &[u8]) -> (r: u32)
    requires
        b@.len() >= 4,
    ensures
        r as nat == be32_spec(b@),
{
    let r = (b[0] as u32) * 16777216 + (b[1] as u32) * 65536 + (b[2] as u32) * 256 + (b[3] as u32);
    r
}


/// Outbound side of a framed channel: messages queued as header and payload
/// chunks, waiting to be written out with one scatter/gather write.
pub struct FrameWriter {
    outgoing: Vec<Vec<u8>>,
}

impl FrameWriter {
    /// The queued chunks, in order.
    pub closed spec fn chunks(&self) -> Seq<Seq<u8>> {
        self.outgoing@.map_values(|c: Vec<u8>| c@)
    }

    /// The bytes queued and not yet written, in order.
    pub open spec fn pending(&self) -> Seq<u8> {
        self.chunks().flatten()
    }

    /// No queued chunk is empty.
    pub open spec fn wf(&self) -> bool {
        forall|i: int| 0 <= i < self.chunks().len() ==> #[trigger] self.chunks()[i].len() > 0
    }

    pub fn new() -> (r: FrameWriter)
        ensures
            r.wf(),
            r.pending() == Seq::<u8>::empty(),
    {
        let r = FrameWriter { outgoing: Vec::new() };
        assert(r.chunks() =~= Seq::<Seq<u8>>::empty());
        r
    }

    /// Number of chunks waiting to be written.
    pub fn num_chunks(&self) -> (r: usize)
        ensures
            r == self.chunks().len(),
    {
        self.outgoing.len()
    }

    /// The chunk at index `i`, for the writer to hand to the stream.
    pub fn chunk(&self, i: usize) -> (r: &Vec<u8>)
        requires
            i < self.chunks().len(),
        ensures
            r@ == self.chunks()[i as int],
    {
        &self.outgoing[i]
    }

    /// Number of bytes waiting to be written.
    pub fn bytes_queued(&self) -> (r: usize)
        requires
            self.pending().len() <= usize::MAX,
        ensures
            r == self.pending().len(),
    {
        let mut total: usize = 0;
        let mut i: usize = 0;
        while i < self.outgoing.len()
            invariant
                i <= self.chunks().len(),
                self.chunks().len() == self.outgoing@.len(),
                total == self.chunks().take(i as int).flatten().len(),
                self.pending().len() <= usize::MAX,
            decreases self.outgoing.len() - i,
        {
            proof {
                let c = self.chunks();
                assert(c.take(i + 1) =~= c.take(i as int).push(c[i as int]));
                c.take(i as int).lemma_flatten_push(c[i as int]);
                assert(c =~= c.take(i + 1) + c.skip(i + 1));
                lemma_flatten_concat(c.take(i + 1), c.skip(i + 1));
            }
            total = total + self.outgoing[i].len();
            i = i + 1;
        }
        assert(self.chunks().take(i as int) =~= self.chunks());
        total
    }

    /// Queue one message: its header, then its payload. Nothing is written
    /// yet. A payload longer than `MAX_FRAME_LEN` is refused and nothing is
    /// queued.
    pub fn queue_send_raw(&mut self, msg: Vec<u8>) -> (r: Result<(), ChannelError>)
        requires
            old(self).wf(),
        ensures
            final(self).wf(),
            msg@.len() > MAX_FRAME_LEN ==> r == Err::<(), ChannelError>(ChannelError::InvalidData)
                && final(self).pending() == old(self).pending(),
            msg@.len() <= MAX_FRAME_LEN ==> r is Ok && final(self).pending() == old(self).pending()
                + frame_spec(msg@),
    {
        if msg.len() > MAX_FRAME_LEN {
            return Err(ChannelError::InvalidData);
        }
        let h = encode_header(msg.len() as u32);
        let ghost c0 = self.chunks();
        let ghost m = msg@;
        self.outgoing.push(h);
        proof {
            assert(self.chunks() =~= c0.push(h@));
            c0.lemma_flatten_push(h@);
        }
        if msg.len() > 0 {
            self.outgoing.push(msg);
            proof {
                assert(self.chunks() =~= c0.push(h@).push(m));
                c0.push(h@).lemma_flatten_push(m);
            }
        } else {
            assert(m =~= Seq::<u8>::empty());
        }
        assert(frame_spec(m) =~= header_spec(m.len()) + m);
        assert(self.pending() =~= c0.flatten() + frame_spec(m));
        Ok(())
    }

    /// Drop the first `n` queued bytes, which the stream has taken.
    pub fn advance(&mut self, n: usize)
        requires
            old(self).wf(),
        ensures
            final(self).wf(),
            n <= old(self).pending().len() ==> final(self).pending() == old(self).pending().skip(
                n as int,
            ),
            n > old(self).pending().len() ==> final(self).pending() == Seq::<u8>::empty(),
    {
        let ghost c0 = self.chunks();
        let mut k: usize = 0;
        let mut rem: usize = n;
        while k < self.outgoing.len() && rem >= self.outgoing[k].len()
            invariant
                k <= c0.len(),
                c0 == self.chunks(),
                c0.len() == self.outgoing@.len(),
                c0.take(k as int).flatten().len() + rem == n,
            decreases self.outgoing.len() - k,
        {
            proof {
                assert(c0.take(k + 1) =~= c0.take(k as int).push(c0[k as int]));
                c0.take(k as int).lemma_flatten_push(c0[k as int]);
            }
            rem = rem - self.outgoing[k].len();
            k = k + 1;
        }
        proof {
            assert(c0 =~= c0.take(k as int) + c0.skip(k as int));
            lemma_flatten_concat(c0.take(k as int), c0.skip(k as int));
        }
        let tail = self.outgoing.split_off(k);
        self.outgoing = tail;
        assert(self.chunks() =~= c0.skip(k as int));
        assert(k < c0.len() ==> rem < c0[k as int].len());
        if self.outgoing.len() > 0 && rem > 0 {
            let first = &self.outgoing[0];
            let mut rest: Vec<u8> = Vec::new();
            let mut j: usize = rem;
            while j < first.len()
                invariant
                    rem <= j <= first@.len(),
                    rest@ =~= first@.subrange(rem as int, j as int),
                decreases first.len() - j,
            {
                rest.push(first[j]);
                j = j + 1;
            }
            let ghost c1 = self.chunks();
            proof {
                assert(c1.flatten() == c1[0] + c1.drop_first().flatten());
            }
            self.outgoing.set(0, rest);
            proof {
                let c2 = self.chunks();
                assert(c2.drop_first() =~= c1.drop_first());
                assert(c2.flatten() == c2[0] + c2.drop_first().flatten());
                assert(c2.flatten() =~= c1.flatten().skip(rem as int));
                assert forall|i: int| 0 <= i < c2.len() implies #[trigger] c2[i].len() > 0 by {
                    if i > 0 {
                        assert(c2[i] == c1[i]);
                    }
                }
            }
        } else if self.outgoing.len() == 0 {
            assert(self.chunks() =~= Seq::<Seq<u8>>::empty());
        }
        proof {
            let a = c0.take(k as int).flatten();
            let b = c0.skip(k as int).flatten();
            if k < c0.len() {
                assert(self.pending() =~= b.skip(rem as int));
                assert((a + b).skip(n as int) =~= b.skip(rem as int));
            } else {
                assert(c0.skip(k as int) =~= Seq::<Seq<u8>>::empty());
                assert(c0.take(k as int) =~= c0);
            }
        }
    }
}


/// The views of a list of byte buffers.
pub open spec fn bufs_view(v: Seq<Vec<u8>>) -> Seq<Seq<u8>> {
    v.map_values(|b: Vec<u8>| b@)
}

/// Inbound side of a framed channel: bytes read from the stream, not yet
/// handed out as messages.
pub struct FrameReader {
    buf: Vec<u8>,
    pos: usize,
}

impl FrameReader {
    /// The bytes received and not yet decoded.
    pub closed spec fn buffered(&self) -> Seq<u8> {
        self.buf@.skip(self.pos as int)
    }

    pub closed spec fn wf(&self) -> bool {
        self.pos <= self.buf@.len()
    }

    pub fn new() -> (r: FrameReader)
        ensures
            r.wf(),
            r.buffered() == Seq::<u8>::empty(),
    {
        let r = FrameReader { buf: Vec::new(), pos: 0 };
        assert(r.buffered() =~= Seq::<u8>::empty());
        r
    }

    /// Append bytes read from the stream.
    pub fn fill(&mut self, data: &[u8])
        requires
            old(self).wf(),
        ensures
            final(self).wf(),
            final(self).buffered() == old(self).buffered() + data@,
    {
        let ghost b0 = self.buffered();
        let mut next: Vec<u8> = Vec::new();
        let mut i: usize = self.pos;
        while i < self.buf.len()
            invariant
                self.pos <= i <= self.buf@.len(),
                next@ =~= self.buf@.subrange(self.pos as int, i as int),
            decreases self.buf.len() - i,
        {
            next.push(self.buf[i]);
            i = i + 1;
        }
        let mut j: usize = 0;
        while j < data.len()
            invariant
                j <= data@.len(),
                next@ =~= b0 + data@.subrange(0, j as int),
                b0 == self.buf@.skip(self.pos as int),
            decreases data.len() - j,
        {
            next.push(data[j]);
            j = j + 1;
        }
        self.buf = next;
        self.pos = 0;
        assert(self.buffered() =~= b0 + data@);
    }

    /// Take the first complete message out of the buffer, if there is one.
    /// A partial message stays buffered.
    pub fn decode_from_buffer(&mut self) -> (r: Option<Vec<u8>>)
        requires
            old(self).wf(),
        ensures
            final(self).wf(),
            match decode_one_spec(old(self).buffered()) {
                None => r is None && final(self).buffered() == old(self).buffered(),
                Some((m, k)) => r is Some && r->Some_0@ == m && final(self).buffered() == old(
                    self,
                ).buffered().skip(k as int),
            },
    {
        let ghost b0 = self.buffered();
        let avail = self.buf.len() - self.pos;
        if avail < 4 {
            return None;
        }
        let n = read_be32(self.buf.as_slice().split_at(self.pos).1) as usize;
        assert(self.buf@.skip(self.pos as int) == b0);
        if avail - 4 < n {
            return None;
        }
        let start = self.pos + 4;
        let end = start + n;
        let mut m: Vec<u8> = Vec::new();
        let mut i: usize = start;
        while i < end
            invariant
                start <= i <= end,
                end <= self.buf@.len(),
                start == self.pos + 4,
                end == start + n,
                m@ =~= self.buf@.subrange(start as int, i as int),
            decreases end - i,
        {
            m.push(self.buf[i]);
            i = i + 1;
        }
        self.pos = start + n;
        assert(m@ =~= b0.subrange(4, 4 + n as int));
        assert(self.buffered() =~= b0.skip(4 + n as int));
        Some(m)
    }

    /// Decode every complete message already buffered and append them to
    /// `batch`, in wire order. Returns how many were appended. The bytes of
    /// a trailing partial message stay buffered for the next call.
    pub fn receive_batch_raw(&mut self, batch: &mut Vec<Vec<u8>>) -> (r: usize)
        requires
            old(self).wf(),
        ensures
            final(self).wf(),
            bufs_view(final(batch)@) == bufs_view(old(batch)@) + decode_all_spec(
                old(self).buffered(),
            ).0,
            final(self).buffered() == decode_all_spec(old(self).buffered()).1,
            r == decode_all_spec(old(self).buffered()).0.len(),
    {
        let ghost b0 = self.buffered();
        let ghost v0 = bufs_view(batch@);
        let blen = self.buf.len();
        assert(b0.len() <= blen);
        let mut count: usize = 0;
        loop
            invariant_except_break
                self.wf(),
                bufs_view(batch@) + decode_all_spec(self.buffered()).0 == v0 + decode_all_spec(
                    b0,
                ).0,
                decode_all_spec(self.buffered()).1 == decode_all_spec(b0).1,
                bufs_view(batch@).len() == v0.len() + count,
                count * 4 + self.buffered().len() <= b0.len(),
                b0.len() <= usize::MAX,
            ensures
                self.wf(),
                bufs_view(batch@) == v0 + decode_all_spec(b0).0,
                self.buffered() == decode_all_spec(b0).1,
                bufs_view(batch@).len() == v0.len() + count,
            decreases self.buf@.len() - self.pos,
        {
            let ghost before = self.buffered();
            let ghost bv = bufs_view(batch@);
            match self.decode_from_buffer() {
                None => {
                    assert(decode_all_spec(before) == (Seq::<Seq<u8>>::empty(), before));
                    assert(bv + Seq::<Seq<u8>>::empty() =~= bv);
                    break;
                },
                Some(m) => {
                    let ghost mv = m@;
                    batch.push(m);
                    proof {
                        let k = decode_one_spec(before)->Some_0.1;
                        assert(k >= 4);
                        assert(self.buffered().len() == before.len() - k);
                        assert(bufs_view(batch@) =~= bv.push(mv));
                        assert(decode_all_spec(before).0 =~= seq![mv] + decode_all_spec(
                            self.buffered(),
                        ).0);
                        assert(bv.push(mv) + decode_all_spec(self.buffered()).0 =~= bv
                            + decode_all_spec(before).0);
                    }
                    count = count + 1;
                },
            }
        }
        assert(decode_all_spec(b0).0.len() == count);
        count
    }
}

} // verus!
