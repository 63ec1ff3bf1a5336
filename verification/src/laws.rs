//! What holds of framing, writing and parsing together.

use vstd::prelude::*;
use vstd::arithmetic::div_mod::{lemma_basic_div, lemma_div_plus_one};
use crate::packet::{
    follows,
    spec_fullpacket,
    spec_onepacket,
    spec_packet,
    spec_packet_from,
    ParseError,
};
use crate::reader::{spec_next, spec_unparsed_after, ReadError};
use crate::slices::{concat, lemma_concat_add, lemma_concat_first};
use crate::wire::{
    announced_len,
    encode,
    encode_all,
    header,
    lemma_header,
    lemma_packet_count_base,
    lemma_packet_count_step,
    lemma_seq_add_add,
    packet_count,
    seq_add,
    U24_MAX,
};
use crate::writer::{
    all_cleared,
    cleared_all,
    frames,
    headers_for,
    interleave,
    pool_after_return,
    queue_bytes,
    queue_slices,
    unbuffered_slices,
    up_to,
    QueuedPacketView,
    MAX_POOL_ROWS,
};

verus! {

/// A parsed message leaves a tail of its input: what it returns as the rest
/// is the input without the bytes of the message.
pub proof fn lemma_packet_from_rest(i: Seq<u8>, prev: Option<u8>, acc: Seq<u8>)
    ensures
        spec_packet_from(i, prev, acc) matches Ok((rest, _)) ==> rest.len() <= i.len() && rest
            == i.skip(i.len() - rest.len()),
    decreases i.len(),
{
    if spec_fullpacket(i) is Ok {
        let next = i.skip(4 + U24_MAX);
        lemma_packet_from_rest(next, Some(i[3]), acc + i.subrange(4, 4 + U24_MAX));
        if spec_packet_from(i, prev, acc) is Ok {
            let rest = spec_packet_from(i, prev, acc).unwrap().0;
            assert(rest == next.skip(next.len() - rest.len()));
            assert(rest =~= i.skip(i.len() - rest.len()));
        }
    } else if spec_onepacket(i) is Ok {
        if spec_packet_from(i, prev, acc) is Ok {
            let rest = spec_packet_from(i, prev, acc).unwrap().0;
            assert(rest =~= i.skip(i.len() - rest.len()));
        }
    }
}

/// The rest that a parsed message leaves is a tail of the input.
pub proof fn lemma_packet_rest(i: Seq<u8>)
    ensures
        spec_packet(i) matches Ok((rest, _)) ==> rest.len() <= i.len() && rest == i.skip(
            i.len() - rest.len(),
        ),
{
    lemma_packet_from_rest(i, None, Seq::empty());
}

/// Parsing a message never fails for want of a full packet: it waits for
/// more input, or the sequence numbers are wrong.
pub proof fn law_packet_errors(i: Seq<u8>, prev: Option<u8>, acc: Seq<u8>)
    ensures
        spec_packet_from(i, prev, acc) != Err::<(Seq<u8>, (u8, Seq<u8>)), _>(ParseError::NotFull),
    decreases i.len(),
{
    if spec_fullpacket(i) is Ok && follows(prev, i[3]) {
        law_packet_errors(i.skip(4 + U24_MAX), Some(i[3]), acc + i.subrange(4, 4 + U24_MAX));
    }
}

/// The encoding of a payload is as long as the payload and one header for
/// each of its packets.
pub proof fn lemma_encode_len(seq: u8, payload: Seq<u8>)
    ensures
        encode(seq, payload).len() == payload.len() + 4 * packet_count(payload.len()),
    decreases payload.len(),
{
    if payload.len() >= U24_MAX {
        lemma_encode_len(seq_add(seq, 1), payload.skip(U24_MAX as int));
        lemma_packet_count_step(payload.len());
    } else {
        lemma_packet_count_base(payload.len());
    }
}

/// A payload shorter than `U24_MAX` takes its own length and four bytes on
/// the wire.
pub proof fn law_short_payload_len(seq: u8, payload: Seq<u8>)
    requires
        payload.len() < U24_MAX,
    ensures
        encode(seq, payload).len() == 4 + payload.len(),
{
    lemma_encode_len(seq, payload);
    lemma_packet_count_base(payload.len());
}

/// A payload of `k` times `U24_MAX` bytes, `k` at least 1, takes `k` full
/// packets and an empty one on the wire: `k * (4 + U24_MAX) + 4` bytes.
pub proof fn law_exact_multiple_len(seq: u8, payload: Seq<u8>, k: nat)
    requires
        k >= 1,
        payload.len() == k * U24_MAX,
    ensures
        encode(seq, payload).len() == k * (4 + U24_MAX) + 4,
        packet_count(payload.len()) == k + 1,
{
    lemma_encode_len(seq, payload);
    assert(packet_count(payload.len()) == k + 1) by {
        vstd::arithmetic::div_mod::lemma_div_multiples_vanish(k as int, U24_MAX as int);
        vstd::arithmetic::mul::lemma_mul_is_commutative(k as int, U24_MAX as int);
    }
    assert(k * (4 + U24_MAX) == 4 * k + k * U24_MAX) by (nonlinear_arith);
}

/// The packets of a payload put its encoding on the wire.
pub proof fn lemma_frames_bytes(seq: u8, payload: Seq<u8>)
    ensures
        queue_bytes(frames(seq, payload)) == encode(seq, payload),
    decreases payload.len(),
{
    if payload.len() >= U24_MAX {
        let first = seq![
            QueuedPacketView::WithHeader(
                header(U24_MAX as nat, seq),
                payload.take(U24_MAX as int),
            ),
        ];
        let others = frames(seq_add(seq, 1), payload.skip(U24_MAX as int));
        lemma_frames_bytes(seq_add(seq, 1), payload.skip(U24_MAX as int));
        lemma_queue_bytes_add(first, others);
        lemma_queue_bytes_one(first[0]);
    } else {
        lemma_queue_bytes_one(frames(seq, payload)[0]);
    }
}

/// A queue of one packet puts the bytes of that packet on the wire.
pub proof fn lemma_queue_bytes_one(packet: QueuedPacketView)
    ensures
        queue_bytes(seq![packet]) == packet.bytes(),
        queue_slices(seq![packet]) == packet.slices(),
{
    reveal_with_fuel(queue_bytes, 2);
    reveal_with_fuel(queue_slices, 2);
    assert(seq![packet].drop_last() =~= Seq::<QueuedPacketView>::empty());
    assert(queue_bytes(seq![packet]) =~= packet.bytes());
    assert(queue_slices(seq![packet]) =~= packet.slices());
}

/// Two queues, one after the other, put their bytes on the wire one after
/// the other.
pub proof fn lemma_queue_bytes_add(a: Seq<QueuedPacketView>, b: Seq<QueuedPacketView>)
    ensures
        queue_bytes(a + b) == queue_bytes(a) + queue_bytes(b),
    decreases b.len(),
{
    if b.len() == 0 {
        assert(a + b =~= a);
        assert(queue_bytes(a + b) =~= queue_bytes(a) + queue_bytes(b));
    } else {
        lemma_queue_bytes_add(a, b.drop_last());
        assert((a + b).drop_last() =~= a + b.drop_last());
        assert((a + b).last() == b.last());
        assert(queue_bytes(a + b) =~= queue_bytes(a) + queue_bytes(b));
    }
}

/// Two queues, one after the other, are laid out as the slices of the first
/// followed by those of the second.
pub proof fn lemma_queue_slices_add(a: Seq<QueuedPacketView>, b: Seq<QueuedPacketView>)
    ensures
        queue_slices(a + b) == queue_slices(a) + queue_slices(b),
    decreases b.len(),
{
    if b.len() == 0 {
        assert(a + b =~= a);
        assert(queue_slices(a + b) =~= queue_slices(a) + queue_slices(b));
    } else {
        lemma_queue_slices_add(a, b.drop_last());
        assert((a + b).drop_last() =~= a + b.drop_last());
        assert((a + b).last() == b.last());
        assert(queue_slices(a + b) =~= queue_slices(a) + queue_slices(b));
    }
}

/// The slices of a queue hold the bytes that the queue puts on the wire.
pub proof fn lemma_queue_slices_bytes(queue: Seq<QueuedPacketView>)
    ensures
        concat(queue_slices(queue)) == queue_bytes(queue),
    decreases queue.len(),
{
    if queue.len() > 0 {
        lemma_queue_slices_bytes(queue.drop_last());
        lemma_concat_add(queue_slices(queue.drop_last()), queue.last().slices());
        let last = queue.last().slices();
        assert(concat(last) == queue.last().bytes()) by {
            match queue.last() {
                QueuedPacketView::Raw(r) => {
                    lemma_concat_first(last);
                    assert(last.skip(1) =~= Seq::<Seq<u8>>::empty());
                    assert(concat(last) =~= r);
                },
                QueuedPacketView::WithHeader(hdr, body) => {
                    lemma_concat_first(last);
                    lemma_concat_first(last.skip(1));
                    assert(last.skip(1).skip(1) =~= Seq::<Seq<u8>>::empty());
                    assert(concat(last) =~= hdr + body);
                },
            }
        }
    }
}

/// The slices of an unbuffered write of a payload, with the headers made
/// for its length, are the slices of the packets that queueing it makes.
pub proof fn lemma_interleave_frames(seq: u8, payload: Seq<u8>)
    ensures
        interleave(headers_for(seq, payload.len()), payload) == queue_slices(frames(seq, payload)),
    decreases payload.len(),
{
    let headers = headers_for(seq, payload.len());
    if payload.len() >= U24_MAX {
        let tail = payload.skip(U24_MAX as int);
        lemma_interleave_frames(seq_add(seq, 1), tail);
        let first = seq![
            QueuedPacketView::WithHeader(
                header(U24_MAX as nat, seq),
                payload.take(U24_MAX as int),
            ),
        ];
        lemma_queue_slices_add(first, frames(seq_add(seq, 1), tail));
        lemma_queue_bytes_one(first[0]);
        assert(headers.skip(1) =~= headers_for(seq_add(seq, 1), tail.len()));
    } else {
        lemma_queue_bytes_one(frames(seq, payload)[0]);
        reveal_with_fuel(interleave, 2);
        assert(headers.skip(1) =~= Seq::<Seq<u8>>::empty());
        assert(interleave(headers, payload) =~= seq![headers[0], payload]);
    }
}

/// The slices of an unbuffered write of a payload, with the headers made
/// for its length, hold the encoding of the payload.
pub proof fn lemma_unbuffered_bytes(seq: u8, payload: Seq<u8>)
    ensures
        concat(unbuffered_slices(headers_for(seq, payload.len()), payload)) == encode(
            seq,
            payload,
        ),
{
    let headers = headers_for(seq, payload.len());
    if payload.len() < U24_MAX {
        let hdr = header(payload.len(), seq);
        let slices = seq![hdr.take(3), hdr.skip(3), payload];
        assert(headers =~= seq![hdr]);
        assert(unbuffered_slices(headers, payload) == slices);
        lemma_concat_first(slices);
        lemma_concat_first(slices.skip(1));
        lemma_concat_first(slices.skip(1).skip(1));
        assert(slices.skip(1).skip(1).skip(1) =~= Seq::<Seq<u8>>::empty());
        assert(concat(slices) =~= hdr + payload);
    } else {
        lemma_interleave_frames(seq, payload);
        lemma_queue_slices_bytes(frames(seq, payload));
        lemma_frames_bytes(seq, payload);
    }
}

/// Writing a payload without queueing it and queueing it before a write of
/// the queue put the same bytes on the wire, where both start from the same
/// queue and the same number: what was queued before, then the encoding of
/// the payload.
pub proof fn law_unbuffered_as_queued(queued: Seq<QueuedPacketView>, seq: u8, payload: Seq<u8>)
    ensures
        concat(queue_slices(queued) + unbuffered_slices(headers_for(seq, payload.len()), payload))
            == concat(queue_slices(queued + frames(seq, payload))),
        concat(queue_slices(queued + frames(seq, payload))) == queue_bytes(queued) + encode(
            seq,
            payload,
        ),
{
    lemma_unbuffered_bytes(seq, payload);
    lemma_concat_add(
        queue_slices(queued),
        unbuffered_slices(headers_for(seq, payload.len()), payload),
    );
    lemma_queue_slices_bytes(queued);
    lemma_queue_slices_bytes(queued + frames(seq, payload));
    lemma_queue_bytes_add(queued, frames(seq, payload));
    lemma_frames_bytes(seq, payload);
}

/// The message at the start of the encoding of a payload, whatever follows
/// it and whatever fragments came before, is that payload, with the number
/// of its last packet; what follows is left over.
pub proof fn lemma_roundtrip_from(
    seq: u8,
    payload: Seq<u8>,
    tail: Seq<u8>,
    prev: Option<u8>,
    acc: Seq<u8>,
)
    requires
        follows(prev, seq),
    ensures
        spec_packet_from(encode(seq, payload) + tail, prev, acc) == Ok::<_, ParseError>(
            (tail, (seq_add(seq, payload.len() / (U24_MAX as nat)), acc + payload)),
        ),
    decreases payload.len(),
{
    let wire = encode(seq, payload) + tail;
    if payload.len() >= U24_MAX {
        let body = payload.take(U24_MAX as int);
        let others = payload.skip(U24_MAX as int);
        let next = seq_add(seq, 1);
        lemma_header(U24_MAX as nat, seq);
        assert(wire =~= header(U24_MAX as nat, seq) + body + (encode(next, others) + tail));
        assert(wire[0] == 0xff && wire[1] == 0xff && wire[2] == 0xff && wire[3] == seq);
        assert(wire.subrange(4, 4 + U24_MAX) =~= body);
        assert(wire.skip(4 + U24_MAX) =~= encode(next, others) + tail);
        lemma_roundtrip_from(next, others, tail, Some(seq), acc + body);
        assert(acc + body + others =~= acc + payload);
        lemma_div_plus_one((payload.len() - U24_MAX) as int, U24_MAX as int);
        lemma_seq_add_add(seq, 1, others.len() / (U24_MAX as nat));
    } else {
        lemma_header(payload.len(), seq);
        lemma_basic_div(payload.len() as int, U24_MAX as int);
        let hdr = header(payload.len(), seq);
        assert(wire =~= hdr + payload + tail);
        assert(wire[0] == hdr[0] && wire[1] == hdr[1] && wire[2] == hdr[2] && wire[3] == seq);
        assert(wire.subrange(4, 4 + payload.len() as int) =~= payload);
        assert(wire.skip(4 + payload.len() as int) =~= tail);
        assert(acc + wire.subrange(4, 4 + payload.len() as int) =~= acc + payload);
    }
}

/// A payload that was framed from number `seq` on parses back to itself,
/// byte for byte, with the number of its last packet, and what followed it
/// on the wire is left over.
pub proof fn law_roundtrip(seq: u8, payload: Seq<u8>, tail: Seq<u8>)
    ensures
        spec_packet(encode(seq, payload) + tail) == Ok::<_, ParseError>(
            (tail, (seq_add(seq, payload.len() / (U24_MAX as nat)), payload)),
        ),
{
    lemma_roundtrip_from(seq, payload, tail, None, Seq::empty());
    assert(Seq::<u8>::empty() + payload =~= payload);
}

/// A payload that was queued and written is what the reader on the other
/// end is handed: the bytes of the slices of its packets parse to it, and
/// nothing is left over.
pub proof fn law_queued_roundtrip(seq: u8, payload: Seq<u8>)
    ensures
        spec_packet(concat(queue_slices(frames(seq, payload)))) == Ok::<_, ParseError>(
            (
                Seq::<u8>::empty(),
                (seq_add(seq, payload.len() / (U24_MAX as nat)), payload),
            ),
        ),
{
    lemma_queue_slices_bytes(frames(seq, payload));
    lemma_frames_bytes(seq, payload);
    law_roundtrip(seq, payload, Seq::empty());
    assert(encode(seq, payload) + Seq::<u8>::empty() =~= encode(seq, payload));
}

/// More input changes nothing of a message that is whole, nor of a gap in
/// its sequence numbers: what follows the message is left over with what
/// came after it.
pub proof fn lemma_packet_from_stable(i: Seq<u8>, more: Seq<u8>, prev: Option<u8>, acc: Seq<u8>)
    ensures
        match spec_packet_from(i, prev, acc) {
            Ok((rest, message)) => spec_packet_from(i + more, prev, acc) == Ok::<_, ParseError>(
                (rest + more, message),
            ),
            Err(ParseError::Framing { expected, found }) => spec_packet_from(i + more, prev, acc)
                == Err::<(Seq<u8>, (u8, Seq<u8>)), _>(ParseError::Framing { expected, found }),
            Err(_) => true,
        },
    decreases i.len(),
{
    let longer = i + more;
    if spec_fullpacket(i) is Ok {
        assert(longer[0] == i[0] && longer[1] == i[1] && longer[2] == i[2] && longer[3] == i[3]);
        assert(longer.subrange(4, 4 + U24_MAX) =~= i.subrange(4, 4 + U24_MAX));
        assert(longer.skip(4 + U24_MAX) =~= i.skip(4 + U24_MAX) + more);
        if follows(prev, i[3]) {
            lemma_packet_from_stable(
                i.skip(4 + U24_MAX),
                more,
                Some(i[3]),
                acc + i.subrange(4, 4 + U24_MAX),
            );
        }
    } else if spec_onepacket(i) is Ok {
        let len = announced_len(i) as int;
        assert(longer[0] == i[0] && longer[1] == i[1] && longer[2] == i[2] && longer[3] == i[3]);
        assert(announced_len(longer) == announced_len(i));
        // A packet that is whole and is no full packet is shorter than one.
        assert(len < U24_MAX);
        assert(!(i[0] == 0xff && i[1] == 0xff && i[2] == 0xff));
        assert(spec_fullpacket(longer) is Err);
        assert(longer.subrange(4, 4 + len) =~= i.subrange(4, 4 + len));
        assert(longer.skip(4 + len) =~= i.skip(4 + len) + more);
    }
}

/// A message that is whole stays what it is when more bytes arrive, and so
/// does a gap in its sequence numbers.
pub proof fn law_parse_stable(i: Seq<u8>, more: Seq<u8>)
    ensures
        match spec_packet(i) {
            Ok((rest, message)) => spec_packet(i + more) == Ok::<_, ParseError>(
                (rest + more, message),
            ),
            Err(ParseError::Framing { expected, found }) => spec_packet(i + more) == Err::<
                (Seq<u8>, (u8, Seq<u8>)),
                _,
            >(ParseError::Framing { expected, found }),
            Err(_) => true,
        },
{
    lemma_packet_from_stable(i, more, None, Seq::empty());
}

/// While only a part of the encoding of a payload has arrived, the parser
/// waits for more: it reports neither a message nor a gap.
pub proof fn lemma_prefix_incomplete_from(
    seq: u8,
    payload: Seq<u8>,
    n: int,
    prev: Option<u8>,
    acc: Seq<u8>,
)
    requires
        follows(prev, seq),
        0 <= n < encode(seq, payload).len(),
    ensures
        spec_packet_from(encode(seq, payload).take(n), prev, acc) == Err::<
            (Seq<u8>, (u8, Seq<u8>)),
            _,
        >(ParseError::Incomplete),
    decreases payload.len(),
{
    let wire = encode(seq, payload);
    let part = wire.take(n);
    if payload.len() >= U24_MAX {
        let body = payload.take(U24_MAX as int);
        let others = payload.skip(U24_MAX as int);
        let next = seq_add(seq, 1);
        lemma_header(U24_MAX as nat, seq);
        assert(wire =~= header(U24_MAX as nat, seq) + body + encode(next, others));
        if n >= 4 + U24_MAX {
            assert(part[0] == 0xff && part[1] == 0xff && part[2] == 0xff && part[3] == seq);
            assert(part.subrange(4, 4 + U24_MAX) =~= body);
            assert(part.skip(4 + U24_MAX) =~= encode(next, others).take(n - 4 - U24_MAX));
            lemma_prefix_incomplete_from(next, others, n - 4 - U24_MAX, Some(seq), acc + body);
        } else if n >= 4 {
            assert(part[0] == 0xff && part[1] == 0xff && part[2] == 0xff);
        }
    } else {
        lemma_header(payload.len(), seq);
        let hdr = header(payload.len(), seq);
        assert(wire =~= hdr + payload);
        if n >= 4 {
            assert(part[0] == hdr[0] && part[1] == hdr[1] && part[2] == hdr[2]);
        } else if n >= 3 {
            assert(part[0] == hdr[0] && part[1] == hdr[1] && part[2] == hdr[2]);
        }
    }
}

/// While only a part of the encoding of a payload has arrived, the parser
/// waits for more.
pub proof fn law_prefix_incomplete(seq: u8, payload: Seq<u8>, n: int)
    requires
        0 <= n < encode(seq, payload).len(),
    ensures
        spec_packet(encode(seq, payload).take(n)) == Err::<(Seq<u8>, (u8, Seq<u8>)), _>(
            ParseError::Incomplete,
        ),
{
    lemma_prefix_incomplete_from(seq, payload, n, None, Seq::empty());
}

/// A reader that holds the encoding of a payload, and whatever followed it
/// on the wire, gives out that payload with the number of its last packet
/// and keeps what followed.
pub proof fn law_reader_yields(seq: u8, payload: Seq<u8>, tail: Seq<u8>)
    ensures
        spec_next(encode(seq, payload) + tail) == Ok::<_, ReadError>(
            Some((seq_add(seq, payload.len() / (U24_MAX as nat)), payload)),
        ),
        spec_unparsed_after(encode(seq, payload) + tail) == tail,
{
    law_roundtrip(seq, payload, tail);
}

/// A reader that holds only a part of the encoding of a payload gives out
/// nothing and keeps what it holds: it waits for the rest.
pub proof fn law_reader_waits(seq: u8, payload: Seq<u8>, n: int)
    requires
        0 <= n < encode(seq, payload).len(),
    ensures
        spec_next(encode(seq, payload).take(n)) == Ok::<Option<(u8, Seq<u8>)>, ReadError>(None),
        spec_unparsed_after(encode(seq, payload).take(n)) == encode(seq, payload).take(n),
{
    law_prefix_incomplete(seq, payload, n);
}

/// The length of the payload of packet `i` of a payload of `len` bytes:
/// `U24_MAX` for each but the last, and the remainder for the last.
pub open spec fn fragment_len(len: nat, i: int) -> nat {
    if i < len / (U24_MAX as nat) {
        U24_MAX as nat
    } else {
        len % (U24_MAX as nat)
    }
}

/// A payload of `S` bytes travels as `S / U24_MAX` full packets and one
/// last packet of `S % U24_MAX` bytes; packet `i` carries the number `i`
/// steps after the first and the bytes from `i * U24_MAX` on.
pub proof fn law_fragments(seq: u8, payload: Seq<u8>, i: int)
    requires
        0 <= i < packet_count(payload.len()),
    ensures
        frames(seq, payload).len() == packet_count(payload.len()),
        frames(seq, payload)[i] == QueuedPacketView::WithHeader(
            header(fragment_len(payload.len(), i), seq_add(seq, i as nat)),
            payload.subrange(i * U24_MAX, i * U24_MAX + fragment_len(payload.len(), i)),
        ),
    decreases payload.len(),
{
    let len = payload.len();
    if len >= U24_MAX {
        let others = payload.skip(U24_MAX as int);
        lemma_packet_count_step(len);
        lemma_div_plus_one((len - U24_MAX) as int, U24_MAX as int);
        assert((len - U24_MAX) % (U24_MAX as int) == len % (U24_MAX as nat)) by {
            vstd::arithmetic::div_mod::lemma_mod_sub_multiples_vanish(len as int, U24_MAX as int);
        }
        if i == 0 {
            law_fragments(seq_add(seq, 1), others, 0);
            assert(payload.subrange(0, U24_MAX as int) =~= payload.take(U24_MAX as int));
        } else {
            law_fragments(seq_add(seq, 1), others, i - 1);
            lemma_seq_add_add(seq, 1, (i - 1) as nat);
            let part = fragment_len(len, i);
            assert(fragment_len(others.len(), i - 1) == part);
            assert(others.subrange((i - 1) * U24_MAX, (i - 1) * U24_MAX + part)
                =~= payload.subrange(i * U24_MAX, i * U24_MAX + part));
        }
    } else {
        lemma_packet_count_base(len);
        lemma_basic_div(len as int, U24_MAX as int);
        vstd::arithmetic::div_mod::lemma_small_mod(len, U24_MAX as nat);
        assert(payload.subrange(0, len as int) =~= payload);
    }
}

/// The first `n` messages at the start of `input`, each with the number of
/// its last packet, and what is left of the input behind them.
pub open spec fn spec_messages(input: Seq<u8>, n: nat) -> Option<(Seq<(u8, Seq<u8>)>, Seq<u8>)>
    decreases n,
{
    if n == 0 {
        Some((Seq::empty(), input))
    } else {
        match spec_packet(input) {
            Ok((rest, message)) => match spec_messages(rest, (n - 1) as nat) {
                Some((others, left)) => Some((seq![message] + others, left)),
                None => None,
            },
            Err(_) => None,
        }
    }
}

/// What a reader is handed for `payloads` that were framed one after the
/// other from number `seq` on: each payload with the number of its last
/// packet.
pub open spec fn delivered(seq: u8, payloads: Seq<Seq<u8>>) -> Seq<(u8, Seq<u8>)>
    decreases payloads.len(),
{
    if payloads.len() == 0 {
        Seq::empty()
    } else {
        seq![(seq_add(seq, payloads[0].len() / (U24_MAX as nat)), payloads[0])] + delivered(
            seq_add(seq, packet_count(payloads[0].len())),
            payloads.skip(1),
        )
    }
}

/// The queue after `payloads` were queued one after the other, the first
/// from number `seq` on.
pub open spec fn queued_all(
    queued: Seq<QueuedPacketView>,
    seq: u8,
    payloads: Seq<Seq<u8>>,
) -> Seq<QueuedPacketView>
    decreases payloads.len(),
{
    if payloads.len() == 0 {
        queued
    } else {
        queued_all(
            queued + frames(seq, payloads[0]),
            seq_add(seq, packet_count(payloads[0].len())),
            payloads.skip(1),
        )
    }
}

/// Payloads that were queued one after the other put their encodings on
/// the wire one after the other, behind what was queued before.
pub proof fn lemma_queued_all_bytes(
    queued: Seq<QueuedPacketView>,
    seq: u8,
    payloads: Seq<Seq<u8>>,
)
    ensures
        concat(queue_slices(queued_all(queued, seq, payloads))) == queue_bytes(queued)
            + encode_all(seq, payloads),
    decreases payloads.len(),
{
    if payloads.len() == 0 {
        lemma_queue_slices_bytes(queued);
        assert(queue_bytes(queued) + Seq::<u8>::empty() =~= queue_bytes(queued));
    } else {
        let first = frames(seq, payloads[0]);
        let next = seq_add(seq, packet_count(payloads[0].len()));
        lemma_queued_all_bytes(queued + first, next, payloads.skip(1));
        lemma_queue_bytes_add(queued, first);
        lemma_frames_bytes(seq, payloads[0]);
        assert(queue_bytes(queued) + encode(seq, payloads[0]) + encode_all(next, payloads.skip(1))
            =~= queue_bytes(queued) + encode_all(seq, payloads));
    }
}

/// Payloads that were framed one after the other parse back in their
/// order, each byte for byte and with the number of its last packet, and
/// what followed them on the wire is left over.
pub proof fn law_roundtrip_all(seq: u8, payloads: Seq<Seq<u8>>, tail: Seq<u8>)
    ensures
        spec_messages(encode_all(seq, payloads) + tail, payloads.len()) == Some(
            (delivered(seq, payloads), tail),
        ),
    decreases payloads.len(),
{
    if payloads.len() == 0 {
        assert(encode_all(seq, payloads) + tail =~= tail);
    } else {
        let next = seq_add(seq, packet_count(payloads[0].len()));
        let others = encode_all(next, payloads.skip(1)) + tail;
        assert(encode_all(seq, payloads) + tail =~= encode(seq, payloads[0]) + others);
        law_roundtrip(seq, payloads[0], others);
        law_roundtrip_all(next, payloads.skip(1), tail);
    }
}

/// Payloads that were queued on an empty queue and written are what the
/// reader on the other end is handed, in their order, and nothing is left
/// over.
pub proof fn law_queued_roundtrip_all(seq: u8, payloads: Seq<Seq<u8>>)
    ensures
        spec_messages(
            concat(queue_slices(queued_all(Seq::empty(), seq, payloads))),
            payloads.len(),
        ) == Some((delivered(seq, payloads), Seq::<u8>::empty())),
{
    lemma_queued_all_bytes(Seq::empty(), seq, payloads);
    law_roundtrip_all(seq, payloads, Seq::empty());
    assert(queue_bytes(Seq::<QueuedPacketView>::empty()) + encode_all(seq, payloads)
        =~= encode_all(seq, payloads) + Seq::<u8>::empty());
}

/// After a queue went back to a pool whose buffers held no bytes, the pool
/// holds no more than `MAX_POOL_ROWS` entries and none of its buffers holds
/// a byte.
pub proof fn law_pool_after_return(queue: Seq<QueuedPacketView>, pool: Seq<QueuedPacketView>)
    requires
        all_cleared(pool),
    ensures
        pool_after_return(queue, pool).len() <= MAX_POOL_ROWS,
        all_cleared(pool_after_return(queue, pool)),
{
    let written = up_to(cleared_all(queue), MAX_POOL_ROWS as int);
    let kept = up_to(pool, MAX_POOL_ROWS - written.len());
    assert(all_cleared(written));
    assert(all_cleared(kept));
}

/// The room in the pool goes to the packets that were just written before
/// it goes to the older entries: the written packets are all in the pool
/// afterwards, in their order, unless they alone are more than
/// `MAX_POOL_ROWS`, and then the first `MAX_POOL_ROWS` of them are the pool.
pub proof fn law_pool_prefers_written(queue: Seq<QueuedPacketView>, pool: Seq<QueuedPacketView>)
    ensures
        queue.len() >= MAX_POOL_ROWS ==> pool_after_return(queue, pool) == cleared_all(queue).take(
            MAX_POOL_ROWS as int,
        ),
        queue.len() <= MAX_POOL_ROWS && queue.len() > pool.len() ==> pool_after_return(queue, pool)
            == cleared_all(queue) + up_to(pool, MAX_POOL_ROWS - queue.len()),
        queue.len() <= MAX_POOL_ROWS && queue.len() <= pool.len() ==> pool_after_return(
            queue,
            pool,
        ) == up_to(pool, MAX_POOL_ROWS - queue.len()) + cleared_all(queue),
{
    let written = up_to(cleared_all(queue), MAX_POOL_ROWS as int);
    let kept = up_to(pool, MAX_POOL_ROWS - written.len());
    if queue.len() >= MAX_POOL_ROWS {
        assert(written =~= cleared_all(queue).take(MAX_POOL_ROWS as int));
        assert(kept =~= Seq::<QueuedPacketView>::empty());
        assert(pool_after_return(queue, pool) =~= written);
    }
}

} // verus!
