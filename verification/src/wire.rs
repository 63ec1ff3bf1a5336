//! The packet format: header layout, fragmentation of a payload into
//! packets, and the sequence counter.

use vstd::prelude::*;

verus! {

/// Largest payload of one packet, and the largest value of three length bytes.
pub const U24_MAX: usize = 16_777_215;

/// The sequence number `count` packets after `seq`; the counter wraps at 256.
pub open spec fn seq_add(seq: u8, count: nat) -> u8 {
    ((seq as nat + count) % 256) as u8
}

/// Number of packets that carry a payload of `len` bytes: one for each full
/// `U24_MAX` bytes, and a last, shorter one.
pub open spec fn packet_count(len: nat) -> nat {
    len / (U24_MAX as nat) + 1
}

/// The header of a packet with `len` payload bytes and sequence number `seq`.
pub open spec fn header(len: nat, seq: u8) -> Seq<u8> {
    seq![(len % 256) as u8, ((len / 256) % 256) as u8, ((len / 65536) % 256) as u8, seq]
}

/// The payload length that the first three bytes of `input` announce.
pub open spec fn announced_len(input: Seq<u8>) -> nat
    recommends
        input.len() >= 3,
{
    input[0] as nat + 256 * (input[1] as nat) + 65536 * (input[2] as nat)
}

/// One packet on the wire: header, then payload.
pub open spec fn frame(seq: u8, body: Seq<u8>) -> Seq<u8>
    recommends
        body.len() <= U24_MAX,
{
    header(body.len(), seq) + body
}

/// The bytes that carry `payload` when its first packet has number `seq`.
pub open spec fn encode(seq: u8, payload: Seq<u8>) -> Seq<u8>
    decreases payload.len(),
{
    if payload.len() >= U24_MAX {
        frame(seq, payload.take(U24_MAX as int)) + encode(
            seq_add(seq, 1),
            payload.skip(U24_MAX as int),
        )
    } else {
        frame(seq, payload)
    }
}

/// The bytes that carry `payloads` one after the other, the first packet of
/// the first payload having number `seq`.
pub open spec fn encode_all(seq: u8, payloads: Seq<Seq<u8>>) -> Seq<u8>
    decreases payloads.len(),
{
    if payloads.len() == 0 {
        Seq::empty()
    } else {
        encode(seq, payloads[0]) + encode_all(
            seq_add(seq, packet_count(payloads[0].len())),
            payloads.skip(1),
        )
    }
}

/// Builds the header of a packet with `len` payload bytes.
pub fn make_header(len: usize, seq: u8) -> (hdr: [u8; 4])
    requires
        len <= U24_MAX,
    ensures
        hdr@ == header(len as nat, seq),
        announced_len(hdr@) == len,
{
    let b0: u8 = (len % 256) as u8;
    let b1: u8 = ((len / 256) % 256) as u8;
    let b2: u8 = ((len / 65536) % 256) as u8;
    let hdr: [u8; 4] = [b0, b1, b2, seq];
    assert(hdr@ =~= header(len as nat, seq));
    hdr
}

/// The number after `seq`, as the counter steps.
pub fn next_seq(seq: u8) -> (next: u8)
    ensures
        next == seq_add(seq, 1),
{
    seq.wrapping_add(1)
}

/// Stepping the counter `a` times and then `b` times steps it `a + b` times.
pub proof fn lemma_seq_add_add(seq: u8, a: nat, b: nat)
    ensures
        seq_add(seq_add(seq, a), b) == seq_add(seq, a + b),
{
    assert(((seq as nat + a) % 256 + b) % 256 == (seq as nat + a + b) % 256) by {
        vstd::arithmetic::div_mod::lemma_add_mod_noop((seq as nat + a) as int, b as int, 256);
        vstd::arithmetic::div_mod::lemma_mod_twice((seq as nat + a) as int, 256);
        vstd::arithmetic::div_mod::lemma_add_mod_noop(
            ((seq as nat + a) % 256) as int,
            b as int,
            256,
        );
    }
}

/// A header is four bytes that announce the length it was built for.
pub proof fn lemma_header(len: nat, seq: u8)
    requires
        len <= U24_MAX,
    ensures
        header(len, seq).len() == 4,
        announced_len(header(len, seq)) == len,
        header(len, seq)[3] == seq,
        len == U24_MAX <==> (header(len, seq)[0] == 0xff && header(len, seq)[1] == 0xff && header(
            len,
            seq,
        )[2] == 0xff),
{
}

/// A payload shorter than `U24_MAX` travels in one packet.
pub proof fn lemma_packet_count_base(len: nat)
    ensures
        len < U24_MAX ==> packet_count(len) == 1,
{
    if len < U24_MAX {
        vstd::arithmetic::div_mod::lemma_basic_div(len as int, U24_MAX as int);
    }
}

/// A payload of `U24_MAX` bytes or more travels in one packet more than
/// what is left of it after its first packet.
pub proof fn lemma_packet_count_step(len: nat)
    requires
        len >= U24_MAX,
    ensures
        packet_count(len) == 1 + packet_count((len - U24_MAX) as nat),
{
    vstd::arithmetic::div_mod::lemma_div_plus_one((len - U24_MAX) as int, U24_MAX as int);
}

} // verus!
