//! The writing side: framing payloads, queueing packets, laying them out as
//! slices for a vectored write, and keeping used buffers for the next payload.

use vstd::prelude::*;
use std::sync::Arc;
use crate::slices::slices_view;
use crate::wire::{
    header, lemma_packet_count_base, lemma_packet_count_step, lemma_seq_add_add, make_header,
    next_seq, packet_count, seq_add, U24_MAX,
};

verus! {

/// Most buffers that the pool keeps.
pub const MAX_POOL_ROWS: usize = 4096;

/// Largest capacity that a payload buffer is asked to keep before it is
/// queued, so that it may go to the pool afterwards.
pub const MAX_POOL_ROW_CAPACITY: usize = 16384;

/// A packet that waits to be written.
pub enum QueuedPacket {
    /// Bytes that are written as they are; they hold their own headers.
    Raw(Arc<[u8]>),
    /// A header and the payload it announces, written one after the other.
    WithHeader([u8; 4], Vec<u8>),
}

/// A queued packet over plain values.
pub enum QueuedPacketView {
    Raw(Seq<u8>),
    WithHeader(Seq<u8>, Seq<u8>),
}

impl View for QueuedPacket {
    type V = QueuedPacketView;

    open spec fn view(&self) -> QueuedPacketView {
        match self {
            QueuedPacket::Raw(r) => QueuedPacketView::Raw(r@),
            QueuedPacket::WithHeader(hdr, body) => QueuedPacketView::WithHeader(hdr@, body@),
        }
    }
}

impl QueuedPacketView {
    /// The slices that a write hands to the sink for this packet.
    pub open spec fn slices(self) -> Seq<Seq<u8>> {
        match self {
            QueuedPacketView::Raw(r) => seq![r],
            QueuedPacketView::WithHeader(hdr, body) => seq![hdr, body],
        }
    }

    /// The bytes that this packet puts on the wire.
    pub open spec fn bytes(self) -> Seq<u8> {
        match self {
            QueuedPacketView::Raw(r) => r,
            QueuedPacketView::WithHeader(hdr, body) => hdr + body,
        }
    }
}

/// The packets of a queue over plain values.
pub open spec fn queue_view(queue: Seq<QueuedPacket>) -> Seq<QueuedPacketView> {
    Seq::new(queue.len(), |i: int| queue[i]@)
}

/// The contents of a list of headers.
pub open spec fn headers_view(headers: Seq<[u8; 4]>) -> Seq<Seq<u8>> {
    Seq::new(headers.len(), |i: int| headers[i]@)
}

/// The slices of a queue, packet by packet.
pub open spec fn queue_slices(queue: Seq<QueuedPacketView>) -> Seq<Seq<u8>>
    decreases queue.len(),
{
    if queue.len() == 0 {
        Seq::empty()
    } else {
        queue_slices(queue.drop_last()) + queue.last().slices()
    }
}

/// The bytes that a queue puts on the wire.
pub open spec fn queue_bytes(queue: Seq<QueuedPacketView>) -> Seq<u8>
    decreases queue.len(),
{
    if queue.len() == 0 {
        Seq::empty()
    } else {
        queue_bytes(queue.drop_last()) + queue.last().bytes()
    }
}

/// The packets that carry `payload`, the first with number `seq`.
pub open spec fn frames(seq: u8, payload: Seq<u8>) -> Seq<QueuedPacketView>
    decreases payload.len(),
{
    if payload.len() >= U24_MAX {
        seq![
            QueuedPacketView::WithHeader(
                header(U24_MAX as nat, seq),
                payload.take(U24_MAX as int),
            ),
        ] + frames(seq_add(seq, 1), payload.skip(U24_MAX as int))
    } else {
        seq![QueuedPacketView::WithHeader(header(payload.len(), seq), payload)]
    }
}

/// The headers of the packets that carry `len` bytes, the first with number
/// `seq`.
pub open spec fn headers_for(seq: u8, len: nat) -> Seq<Seq<u8>>
    decreases len,
{
    if len >= U24_MAX {
        seq![header(U24_MAX as nat, seq)] + headers_for(seq_add(seq, 1), (len - U24_MAX) as nat)
    } else {
        seq![header(len, seq)]
    }
}

/// The slices of an unbuffered write: each header, followed by the next
/// `U24_MAX` bytes of `payload` while that many are left, and by what is left
/// otherwise.
pub open spec fn interleave(headers: Seq<Seq<u8>>, payload: Seq<u8>) -> Seq<Seq<u8>>
    decreases headers.len(),
{
    if headers.len() == 0 {
        Seq::empty()
    } else if payload.len() >= U24_MAX {
        seq![headers[0], payload.take(U24_MAX as int)] + interleave(
            headers.skip(1),
            payload.skip(U24_MAX as int),
        )
    } else {
        seq![headers[0], payload] + interleave(headers.skip(1), payload)
    }
}

/// The slices of an unbuffered write of a payload for which `headers` were
/// made: a payload of one packet goes out as the three length bytes of its
/// header, the sequence byte, and the payload; any other as `interleave`
/// lays it out.
pub open spec fn unbuffered_slices(headers: Seq<Seq<u8>>, payload: Seq<u8>) -> Seq<Seq<u8>> {
    if payload.len() < U24_MAX && headers.len() == 1 {
        seq![headers[0].take(3), headers[0].skip(3), payload]
    } else {
        interleave(headers, payload)
    }
}

impl QueuedPacketView {
    /// The packet with its payload buffer emptied; raw bytes have no buffer
    /// to empty.
    pub open spec fn cleared(self) -> QueuedPacketView {
        match self {
            QueuedPacketView::Raw(r) => QueuedPacketView::Raw(r),
            QueuedPacketView::WithHeader(hdr, _) => QueuedPacketView::WithHeader(
                hdr,
                Seq::empty(),
            ),
        }
    }

    /// Whether the packet holds no payload bytes in a buffer of its own.
    pub open spec fn is_cleared(self) -> bool {
        self matches QueuedPacketView::WithHeader(_, body) ==> body.len() == 0
    }
}

/// The packets of `entries` with their payload buffers emptied.
pub open spec fn cleared_all(entries: Seq<QueuedPacketView>) -> Seq<QueuedPacketView> {
    Seq::new(entries.len(), |i: int| entries[i].cleared())
}

/// Whether no payload buffer in `entries` holds a byte.
pub open spec fn all_cleared(entries: Seq<QueuedPacketView>) -> bool {
    forall|i: int| 0 <= i < entries.len() ==> (#[trigger] entries[i]).is_cleared()
}

/// The first `n` of `entries`, or all of them where they are fewer.
pub open spec fn up_to(entries: Seq<QueuedPacketView>, n: int) -> Seq<QueuedPacketView> {
    if entries.len() > n {
        entries.take(n)
    } else {
        entries
    }
}

/// What the pool holds after the queue `queue` went back to the pool `pool`.
/// The packets of the queue enter it with their buffers emptied, as many of
/// them as `MAX_POOL_ROWS` allows; the entries of the pool fill what room
/// is left. The longer list stays in front and the shorter one follows it.
pub open spec fn pool_after_return(
    queue: Seq<QueuedPacketView>,
    pool: Seq<QueuedPacketView>,
) -> Seq<QueuedPacketView> {
    let written = up_to(cleared_all(queue), MAX_POOL_ROWS as int);
    let kept = up_to(pool, MAX_POOL_ROWS - written.len());
    if queue.len() > pool.len() {
        written + kept
    } else {
        kept + written
    }
}

/// What the pool holds after a buffer was taken from it: the entries before
/// its last `WithHeader` entry, and nothing where it has none.
pub open spec fn pool_after_take(pool: Seq<QueuedPacketView>) -> Seq<QueuedPacketView>
    decreases pool.len(),
{
    if pool.len() == 0 {
        pool
    } else if pool.last() is WithHeader {
        pool.drop_last()
    } else {
        pool_after_take(pool.drop_last())
    }
}

/// Lays a queue out as slices: header and payload for a packet with a
/// header, one slice for raw bytes.
pub fn queued_packet_slices<'a>(queue: &'a [QueuedPacket]) -> (slices: Vec<&'a [u8]>)
    ensures
        slices_view(slices@) == queue_slices(queue_view(queue@)),
{
    let mut slices: Vec<&'a [u8]> = Vec::new();
    let mut i: usize = 0;
    while i < queue.len()
        invariant
            i <= queue.len(),
            slices_view(slices@) == queue_slices(queue_view(queue@.take(i as int))),
        decreases queue.len() - i,
    {
        let ghost before = slices_view(slices@);
        proof {
            assert(queue_view(queue@.take(i + 1)).drop_last() =~= queue_view(
                queue@.take(i as int),
            ));
            assert(queue_view(queue@.take(i + 1)).last() == queue@[i as int]@);
        }
        match &queue[i] {
            QueuedPacket::WithHeader(hdr, pack) => {
                slices.push(hdr.as_slice());
                slices.push(pack.as_slice());
                assert(slices_view(slices@) =~= before + seq![hdr@, pack@]);
            },
            QueuedPacket::Raw(r) => {
                let bytes: &'a [u8] = &**r;
                slices.push(bytes);
                assert(slices_view(slices@) =~= before + seq![r@]);
            },
        }
        i = i + 1;
    }
    assert(queue@.take(queue@.len() as int) =~= queue@);
    slices
}

/// `Vec::shrink_to`: gives back capacity above `min_capacity` that the
/// contents do not need. The contract claims only what the documentation of
/// the standard library says of the contents: they stay as they are.
#[verifier::external_body]
fn shrink_to(buf: &mut Vec<u8>, min_capacity: usize)
    ensures
        final(buf)@ == old(buf)@,
{
    buf.shrink_to(min_capacity);
}

/// The state of the writing side of a connection: the number of the next
/// packet, the packets that wait to be written, and the pool of buffers.
pub struct PacketWriter {
    /// The number that the next packet gets.
    pub seq: u8,
    queue: Vec<QueuedPacket>,
    /// Packets that were written; their buffers are used again.
    preallocated: Vec<QueuedPacket>,
}

/// A writer over plain values.
pub struct PacketWriterView {
    /// The number that the next packet gets.
    pub seq: u8,
    /// The packets that wait to be written, oldest first.
    pub queued: Seq<QueuedPacketView>,
    /// The pool, in the order in which entries went into it.
    pub pool: Seq<QueuedPacketView>,
}

impl View for PacketWriter {
    type V = PacketWriterView;

    closed spec fn view(&self) -> PacketWriterView {
        PacketWriterView {
            seq: self.seq,
            queued: queue_view(self.queue@),
            pool: queue_view(self.preallocated@),
        }
    }
}

impl PacketWriter {
    /// The pool is within its bound and its buffers hold no bytes.
    pub open spec fn wf(&self) -> bool {
        &&& self@.pool.len() <= MAX_POOL_ROWS
        &&& all_cleared(self@.pool)
    }

    /// A writer that starts at number 0 with nothing queued and no buffers.
    pub fn new() -> (w: Self)
        ensures
            w@.seq == 0,
            w@.queued == Seq::<QueuedPacketView>::empty(),
            w@.pool == Seq::<QueuedPacketView>::empty(),
            w.wf(),
    {
        let w = PacketWriter { seq: 0, queue: Vec::new(), preallocated: Vec::new() };
        assert(w@.queued =~= Seq::empty());
        assert(w@.pool =~= Seq::empty());
        w
    }

    /// Sets the number of the next packet.
    pub fn set_seq(&mut self, seq: u8)
        ensures
            final(self)@.seq == seq,
            final(self)@.queued == old(self)@.queued,
            final(self)@.pool == old(self)@.pool,
    {
        self.seq = seq;
    }

    /// Queues `packet` as one packet for each full `U24_MAX` bytes and a
    /// last, shorter one, numbered from the writer's counter on.
    pub fn enqueue_packet(&mut self, packet: Vec<u8>)
        ensures
            final(self)@.queued == old(self)@.queued + frames(old(self)@.seq, packet@),
            final(self)@.seq == seq_add(old(self)@.seq, packet_count(packet@.len())),
            final(self)@.pool == old(self)@.pool,
    {
        let ghost queued0 = self@.queued;
        let ghost seq0 = self.seq;
        let ghost payload = packet@;
        let mut packet = packet;
        // A large buffer gives up what it does not need before it is framed:
        // it goes to the pool once it has been written.
        shrink_to(&mut packet, MAX_POOL_ROW_CAPACITY);
        proof {
            lemma_packet_count_base(payload.len());
        }
        while packet.len() >= U24_MAX
            invariant
                self@.queued + frames(self.seq, packet@) == queued0 + frames(seq0, payload),
                seq_add(self.seq, packet_count(packet@.len())) == seq_add(
                    seq0,
                    packet_count(payload.len()),
                ),
                self@.pool == old(self)@.pool,
            decreases packet@.len(),
        {
            let ghost before = self@.queued;
            let ghost whole = packet@;
            let ghost seq = self.seq;
            let rest = packet.split_off(U24_MAX);
            let hdr = make_header(U24_MAX, self.seq);
            self.seq = next_seq(self.seq);
            self.queue.push(QueuedPacket::WithHeader(hdr, packet));
            packet = rest;
            proof {
                let entry = QueuedPacketView::WithHeader(
                    header(U24_MAX as nat, seq),
                    whole.take(U24_MAX as int),
                );
                assert(self@.queued =~= before.push(entry));
                assert(packet@ == whole.skip(U24_MAX as int));
                assert(before.push(entry) + frames(self.seq, packet@) =~= before + frames(
                    seq,
                    whole,
                ));
                lemma_packet_count_step(whole.len());
                lemma_seq_add_add(seq, 1, packet_count(packet@.len()));
            }
        }
        let ghost before = self@.queued;
        let ghost last = packet@;
        let ghost seq = self.seq;
        let hdr = make_header(packet.len(), self.seq);
        self.seq = next_seq(self.seq);
        self.queue.push(QueuedPacket::WithHeader(hdr, packet));
        proof {
            let entry = QueuedPacketView::WithHeader(header(last.len(), seq), last);
            assert(self@.queued =~= before.push(entry));
            assert(before.push(entry) =~= before + frames(seq, last));
        }
    }

    /// Queues bytes that are written as they are. They are taken to hold
    /// their own headers: the writer's counter stays where it is.
    pub fn enqueue_raw(&mut self, packet: Arc<[u8]>)
        ensures
            final(self)@.queued == old(self)@.queued.push(QueuedPacketView::Raw(packet@)),
            final(self)@.seq == old(self)@.seq,
            final(self)@.pool == old(self)@.pool,
    {
        let ghost before = self@.queued;
        let ghost bytes = packet@;
        self.queue.push(QueuedPacket::Raw(packet));
        assert(self@.queued =~= before.push(QueuedPacketView::Raw(bytes)));
    }

    /// Number of packets that wait to be written.
    pub fn queue_len(&self) -> (n: usize)
        ensures
            n == self@.queued.len(),
    {
        self.queue.len()
    }

    /// The slices that a write of the queue hands to the sink, in order.
    /// When the sink has taken them all, the queue goes back to the pool
    /// with [`PacketWriter::return_queued_to_pool`].
    pub fn write_queued_packets(&self) -> (slices: Vec<&[u8]>)
        ensures
            slices_view(slices@) == queue_slices(self@.queued),
    {
        queued_packet_slices(self.queue.as_slice())
    }

    /// Numbers the packets that carry a payload of `len` bytes which is
    /// written without being queued, and returns their headers.
    pub fn packet_headers(&mut self, len: usize) -> (headers: Vec<[u8; 4]>)
        ensures
            headers_view(headers@) == headers_for(old(self)@.seq, len as nat),
            final(self)@.seq == seq_add(old(self)@.seq, packet_count(len as nat)),
            final(self)@.queued == old(self)@.queued,
            final(self)@.pool == old(self)@.pool,
    {
        let ghost seq0 = self.seq;
        let mut total_len: usize = len;
        let mut headers: Vec<[u8; 4]> = Vec::new();
        proof {
            lemma_packet_count_base(len as nat);
        }
        while total_len >= U24_MAX
            invariant
                headers_view(headers@) + headers_for(self.seq, total_len as nat) == headers_for(
                    seq0,
                    len as nat,
                ),
                seq_add(self.seq, packet_count(total_len as nat)) == seq_add(
                    seq0,
                    packet_count(len as nat),
                ),
                self@.queued == old(self)@.queued,
                self@.pool == old(self)@.pool,
            decreases total_len,
        {
            let ghost before = headers_view(headers@);
            let ghost seq = self.seq;
            let hdr = make_header(U24_MAX, self.seq);
            self.seq = next_seq(self.seq);
            headers.push(hdr);
            proof {
                assert(headers_view(headers@) =~= before.push(hdr@));
                assert(before.push(hdr@) + headers_for(self.seq, (total_len - U24_MAX) as nat)
                    =~= before + headers_for(seq, total_len as nat));
                lemma_packet_count_step(total_len as nat);
                lemma_seq_add_add(seq, 1, packet_count((total_len - U24_MAX) as nat));
            }
            total_len = total_len - U24_MAX;
        }
        let ghost before = headers_view(headers@);
        let hdr = make_header(total_len, self.seq);
        self.seq = next_seq(self.seq);
        headers.push(hdr);
        assert(headers_view(headers@) =~= before.push(hdr@));
        headers
    }

    /// The slices of an unbuffered write of `packet`: what is queued, then
    /// the packets of the payload. `headers` are those that
    /// [`PacketWriter::packet_headers`] returned for the length of `packet`.
    /// A payload shorter than `U24_MAX` goes out as three slices: the length
    /// bytes of its header, the sequence byte, and the payload. A longer one
    /// goes out as [`PacketWriter::write_large_packet`] lays it out. When
    /// the sink has taken all slices, the queue goes back to the pool with
    /// [`PacketWriter::return_queued_to_pool`].
    pub fn write_packet<'a>(&'a self, headers: &'a [[u8; 4]], packet: &'a [u8]) -> (slices: Vec<
        &'a [u8],
    >)
        ensures
            slices_view(slices@) == queue_slices(self@.queued) + unbuffered_slices(
                headers_view(headers@),
                packet@,
            ),
    {
        if packet.len() >= U24_MAX || headers.len() != 1 {
            return self.write_large_packet(headers, packet);
        }
        let mut slices = queued_packet_slices(self.queue.as_slice());
        let ghost before = slices_view(slices@);
        let header: &'a [u8] = headers[0].as_slice();
        let (packet_len, seq) = header.split_at(3);
        slices.push(packet_len);
        slices.push(seq);
        slices.push(packet);
        proof {
            let hdr = headers_view(headers@)[0];
            assert(packet_len@ =~= hdr.take(3));
            assert(seq@ =~= hdr.skip(3));
            assert(slices_view(slices@) =~= before + seq![hdr.take(3), hdr.skip(3), packet@]);
        }
        slices
    }

    /// The slices of an unbuffered write of a payload of any length: what
    /// is queued, then each of `headers` followed by its part of `packet`,
    /// which is borrowed, not copied.
    pub fn write_large_packet<'a>(&'a self, headers: &'a [[u8; 4]], packet: &'a [u8]) -> (slices:
        Vec<&'a [u8]>)
        ensures
            slices_view(slices@) == queue_slices(self@.queued) + interleave(
                headers_view(headers@),
                packet@,
            ),
    {
        let mut slices = queued_packet_slices(self.queue.as_slice());
        let mut rest: &'a [u8] = packet;
        let mut i: usize = 0;
        assert(headers_view(headers@).skip(0) =~= headers_view(headers@));
        while i < headers.len()
            invariant
                i <= headers.len(),
                slices_view(slices@) + interleave(headers_view(headers@).skip(i as int), rest@)
                    == queue_slices(self@.queued) + interleave(headers_view(headers@), packet@),
            decreases headers.len() - i,
        {
            let ghost before = slices_view(slices@);
            let ghost left = headers_view(headers@).skip(i as int);
            let ghost whole = rest@;
            proof {
                assert(left.skip(1) =~= headers_view(headers@).skip(i + 1));
                assert(left[0] == headers@[i as int]@);
            }
            slices.push(headers[i].as_slice());
            if rest.len() >= U24_MAX {
                let (first, tail) = rest.split_at(U24_MAX);
                slices.push(first);
                rest = tail;
                assert(slices_view(slices@) =~= before + seq![left[0], whole.take(U24_MAX as int)]);
                assert(rest@ == whole.skip(U24_MAX as int));
            } else {
                slices.push(rest);
                assert(slices_view(slices@) =~= before + seq![left[0], whole]);
            }
            i = i + 1;
            proof {
                assert(slices_view(slices@) + interleave(left.skip(1), rest@) =~= before
                    + interleave(left, whole));
            }
        }
        assert(slices_view(slices@) + Seq::<Seq<u8>>::empty() =~= slices_view(slices@));
        slices
    }

    /// Empties the queue into the pool, once it has been written. The
    /// buffers of the packets are emptied on the way. The longer list stays
    /// in place and the shorter one is moved behind it; where both together
    /// are more than `MAX_POOL_ROWS` entries, those of the pool give way to
    /// the packets that were just written.
    pub fn return_queued_to_pool(&mut self)
        requires
            old(self).wf(),
        ensures
            final(self).wf(),
            final(self)@.queued == Seq::<QueuedPacketView>::empty(),
            final(self)@.pool == pool_after_return(old(self)@.queued, old(self)@.pool),
            final(self)@.seq == old(self)@.seq,
    {
        let ghost queued0 = self@.queued;
        let ghost pool0 = self@.pool;
        let ghost queue0 = self.queue@;
        let mut i: usize = 0;
        while i < self.queue.len()
            invariant
                i <= self.queue@.len(),
                self.queue@.len() == queue0.len(),
                forall|j: int| 0 <= j < i ==> (#[trigger] self.queue@[j])@ == queue0[j]@.cleared(),
                forall|j: int| i <= j < queue0.len() ==> #[trigger] self.queue@[j] == queue0[j],
                self.preallocated == old(self).preallocated,
                self.seq == old(self).seq,
            decreases self.queue@.len() - i,
        {
            match &mut self.queue[i] {
                QueuedPacket::WithHeader(_, body) => {
                    body.clear();
                },
                QueuedPacket::Raw(_) => {},
            }
            i = i + 1;
        }
        assert(self@.queued =~= cleared_all(queued0));
        // The packets that were written come first where they are the
        // longer list, and last where they are not.
        let written_first = self.queue.len() > self.preallocated.len();
        if written_first {
            std::mem::swap(&mut self.queue, &mut self.preallocated);
            self.preallocated.truncate(MAX_POOL_ROWS);
            assert(self@.pool =~= up_to(cleared_all(queued0), MAX_POOL_ROWS as int));
            self.queue.truncate(MAX_POOL_ROWS - self.preallocated.len());
            assert(self@.queued =~= up_to(pool0, MAX_POOL_ROWS - self@.pool.len()));
        } else {
            self.queue.truncate(MAX_POOL_ROWS);
            assert(self@.queued =~= up_to(cleared_all(queued0), MAX_POOL_ROWS as int));
            self.preallocated.truncate(MAX_POOL_ROWS - self.queue.len());
            assert(self@.pool =~= up_to(pool0, MAX_POOL_ROWS - self@.queued.len()));
        }
        let ghost front = self@.pool;
        let ghost back = self@.queued;
        self.preallocated.append(&mut self.queue);
        assert(self@.pool =~= front + back);
        assert(self@.queued =~= Seq::empty());
    }

    /// Takes a buffer from the pool: the payload buffer of the last entry
    /// of the pool that has one, emptied. That entry and the raw entries
    /// behind it leave the pool. A new buffer where the pool has none.
    pub fn get_buffer(&mut self) -> (buf: Vec<u8>)
        ensures
            buf@.len() == 0,
            final(self)@.pool == pool_after_take(old(self)@.pool),
            old(self).wf() ==> final(self).wf(),
            final(self)@.queued == old(self)@.queued,
            final(self)@.seq == old(self)@.seq,
    {
        loop
            invariant
                pool_after_take(self@.pool) == pool_after_take(old(self)@.pool),
                old(self).wf() ==> self.wf(),
                self@.queued == old(self)@.queued,
                self@.seq == old(self)@.seq,
            decreases self.preallocated@.len(),
        {
            let ghost before = self@.pool;
            match self.preallocated.pop() {
                None => {
                    return Vec::new();
                },
                Some(QueuedPacket::Raw(_)) => {
                    assert(self@.pool =~= before.drop_last());
                },
                Some(QueuedPacket::WithHeader(_, vec)) => {
                    assert(self@.pool =~= before.drop_last());
                    let mut vec = vec;
                    vec.clear();
                    return vec;
                },
            }
        }
    }
}

} // verus!
