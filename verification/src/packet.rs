//! Parsing: one packet, one full packet, and a whole message that may span
//! several packets.

use vstd::prelude::*;
use vstd::slice::slice_to_vec;
use crate::wire::{announced_len, seq_add, next_seq, U24_MAX};

verus! {

/// Why a parser did not return a packet.
#[derive(Debug, Clone, Copy, PartialEq, Eq)]
pub enum ParseError {
    /// The input ends before the packet does. More input may mend this.
    Incomplete,
    /// The input does not start with the length bytes of a full packet.
    NotFull,
    /// A fragment of a message does not carry the sequence number that
    /// follows that of the fragment before it.
    Framing { expected: u8, found: u8 },
}

/// What a parser returns, over plain values: the rest of the input, the
/// sequence number and the payload.
pub type Parsed = Result<(Seq<u8>, (u8, Seq<u8>)), ParseError>;

/// One packet at the start of `i`: three length bytes, the sequence byte,
/// and as many payload bytes as the length says.
pub open spec fn spec_onepacket(i: Seq<u8>) -> Parsed {
    if i.len() >= 4 && i.len() >= 4 + announced_len(i) {
        Ok((i.skip(4 + announced_len(i) as int), (i[3], i.subrange(4, 4 + announced_len(i) as int))))
    } else {
        Err(ParseError::Incomplete)
    }
}

/// One packet at the start of `i` whose payload has exactly `U24_MAX` bytes.
pub open spec fn spec_fullpacket(i: Seq<u8>) -> Parsed {
    if i.len() < 3 {
        Err(ParseError::Incomplete)
    } else if !(i[0] == 0xff && i[1] == 0xff && i[2] == 0xff) {
        Err(ParseError::NotFull)
    } else if i.len() < 4 + U24_MAX {
        Err(ParseError::Incomplete)
    } else {
        Ok((i.skip(4 + U24_MAX), (i[3], i.subrange(4, 4 + U24_MAX))))
    }
}

/// Whether a fragment numbered `seq` may follow one numbered `prev`; the
/// first fragment of a message may carry any number.
pub open spec fn follows(prev: Option<u8>, seq: u8) -> bool {
    prev matches Some(p) ==> seq == seq_add(p, 1)
}

/// The rest of a message at the start of `i`, when the fragments before it
/// ended with number `prev` and carried `acc`: as many full packets as there
/// are, then one packet that ends the message.
pub open spec fn spec_packet_from(i: Seq<u8>, prev: Option<u8>, acc: Seq<u8>) -> Parsed
    decreases i.len(),
{
    if spec_fullpacket(i) is Ok {
        let seq = i[3];
        if follows(prev, seq) {
            spec_packet_from(i.skip(4 + U24_MAX), Some(seq), acc + i.subrange(4, 4 + U24_MAX))
        } else {
            Err(ParseError::Framing { expected: seq_add(prev.unwrap(), 1), found: seq })
        }
    } else if spec_onepacket(i) is Ok {
        let seq = i[3];
        if follows(prev, seq) {
            Ok(
                (
                    i.skip(4 + announced_len(i) as int),
                    (seq, acc + i.subrange(4, 4 + announced_len(i) as int)),
                ),
            )
        } else {
            Err(ParseError::Framing { expected: seq_add(prev.unwrap(), 1), found: seq })
        }
    } else {
        Err(ParseError::Incomplete)
    }
}

/// One message at the start of `i`: the payloads of its packets joined, with
/// the sequence number of the last packet.
pub open spec fn spec_packet(i: Seq<u8>) -> Parsed {
    spec_packet_from(i, None, Seq::empty())
}

/// The payload of a message. It borrows the input where one packet held the
/// whole message, and owns a buffer where it had to be put together.
pub struct Packet<'a>(&'a [u8], Vec<u8>);

impl<'a> Clone for Packet<'a> {
    fn clone(&self) -> (p: Self)
        ensures
            p@ == self@,
            p.borrowed() == self.borrowed(),
    {
        proof {
            use_type_invariant(self);
        }
        let owned = self.1.clone();
        assert(owned@ =~= self.1@);
        Packet(self.0, owned)
    }
}

impl<'a> Packet<'a> {
    #[verifier::type_invariant]
    spec fn inv(&self) -> bool {
        self.0@.len() == 0 || self.1@.len() == 0
    }

    /// The payload bytes.
    pub closed spec fn view(&self) -> Seq<u8> {
        self.0@ + self.1@
    }

    /// Whether the payload lies in the slice that it borrows; it lies in a
    /// buffer of its own otherwise.
    pub closed spec fn borrowed(&self) -> bool {
        self.1@.len() == 0
    }

    /// A payload that borrows `bytes`.
    pub fn new(bytes: &'a [u8]) -> (p: Self)
        ensures
            p@ == bytes@,
            p.borrowed(),
    {
        Packet(bytes, Vec::new())
    }

    /// Appends `bytes`. A payload that borrowed its bytes owns them from the
    /// second piece on.
    pub fn extend(&mut self, bytes: &'a [u8])
        ensures
            final(self)@ == old(self)@ + bytes@,
            final(self).borrowed() <==> old(self)@.len() == 0,
    {
        proof {
            use_type_invariant(&*self);
        }
        if self.0.is_empty() {
            if self.1.is_empty() {
                self.0 = bytes;
            } else {
                let mut v: Vec<u8> = Vec::new();
                std::mem::swap(&mut self.1, &mut v);
                let ghost before = v@;
                v.extend_from_slice(bytes);
                assert(v@ =~= before + bytes@);
                self.1 = v;
            }
        } else {
            let mut v = slice_to_vec(self.0);
            v.extend_from_slice(bytes);
            assert(v@ =~= self.0@ + bytes@);
            self.0 = &bytes[0..0];
            self.1 = v;
        }
    }

    /// The payload as a slice.
    pub fn as_slice(&self) -> (r: &[u8])
        ensures
            r@ == self@,
    {
        proof {
            use_type_invariant(self);
        }
        if self.1.is_empty() {
            self.0
        } else {
            self.1.as_slice()
        }
    }
}

impl<'a> AsRef<[u8]> for Packet<'a> {
    fn as_ref(&self) -> (r: &[u8])
        ensures
            r@ == self@,
    {
        self.as_slice()
    }
}

impl<'a> std::ops::Deref for Packet<'a> {
    type Target = [u8];

    fn deref(&self) -> (r: &[u8])
        ensures
            r@ == self@,
    {
        self.as_slice()
    }
}

/// Whether `r` is `expected` with its slices taken by their contents.
pub open spec fn parsed_slices(r: Result<(&[u8], (u8, &[u8])), ParseError>, expected: Parsed)
    -> bool {
    match r {
        Ok((rest, (seq, body))) => expected == Ok::<_, ParseError>((rest@, (seq, body@))),
        Err(e) => expected == Err::<(Seq<u8>, (u8, Seq<u8>)), _>(e),
    }
}

/// Whether `r` is `expected` with its payload and rest taken by their contents.
pub open spec fn parsed_packet(r: Result<(&[u8], (u8, Packet<'_>)), ParseError>, expected: Parsed)
    -> bool {
    match r {
        Ok((rest, (seq, body))) => expected == Ok::<_, ParseError>((rest@, (seq, body@))),
        Err(e) => expected == Err::<(Seq<u8>, (u8, Seq<u8>)), _>(e),
    }
}

/// Whether the payload of `r`, if it holds one, borrows its bytes.
pub open spec fn borrows(r: Result<(&[u8], (u8, Packet<'_>)), ParseError>) -> bool {
    match r {
        Ok((_, (_, body))) => body.borrowed(),
        Err(_) => false,
    }
}

/// Parses one packet whose payload has exactly `U24_MAX` bytes.
pub fn fullpacket(i: &[u8]) -> (r: Result<(&[u8], (u8, &[u8])), ParseError>)
    ensures
        parsed_slices(r, spec_fullpacket(i@)),
{
    if i.len() < 3 {
        return Err(ParseError::Incomplete);
    }
    if !(i[0] == 0xff && i[1] == 0xff && i[2] == 0xff) {
        return Err(ParseError::NotFull);
    }
    if i.len() - 3 < U24_MAX + 1 {
        return Err(ParseError::Incomplete);
    }
    let seq = i[3];
    let bytes = &i[4..4 + U24_MAX];
    let rest = &i[4 + U24_MAX..i.len()];
    Ok((rest, (seq, bytes)))
}

/// Parses one packet of any length.
pub fn onepacket(i: &[u8]) -> (r: Result<(&[u8], (u8, &[u8])), ParseError>)
    ensures
        parsed_slices(r, spec_onepacket(i@)),
{
    if i.len() < 4 {
        return Err(ParseError::Incomplete);
    }
    let b0: usize = i[0] as usize;
    let b1: usize = i[1] as usize;
    let b2: usize = i[2] as usize;
    let length: usize = b0 + 256 * b1 + 65536 * b2;
    if i.len() - 4 < length {
        return Err(ParseError::Incomplete);
    }
    let seq = i[3];
    let bytes = &i[4..4 + length];
    let rest = &i[4 + length..i.len()];
    Ok((rest, (seq, bytes)))
}

/// What the fragments parsed so far carry.
pub open spec fn carried(pkt: Option<Packet<'_>>) -> Seq<u8> {
    match pkt {
        Some(p) => p@,
        None => Seq::empty(),
    }
}

/// Parses one message: full packets as long as they come, then the packet
/// that ends the message. The sequence numbers of its packets must follow
/// one another, wrapping at 256; the number returned is that of the last.
/// The payload of a message of one packet borrows `i`; that of a longer
/// message is put together in a buffer of its own.
pub fn packet<'a>(i: &'a [u8]) -> (r: Result<(&'a [u8], (u8, Packet<'a>)), ParseError>)
    ensures
        parsed_packet(r, spec_packet(i@)),
        r is Ok ==> (borrows(r) <==> spec_fullpacket(i@) is Err),
{
    let mut input: &'a [u8] = i;
    let mut prev: Option<u8> = None;
    let mut pkt: Option<Packet<'a>> = None;
    loop
        invariant
            spec_packet_from(input@, prev, carried(pkt)) == spec_packet(i@),
            prev is Some <==> pkt is Some,
            pkt is None ==> input@ == i@,
            pkt is Some ==> spec_fullpacket(i@) is Ok,
            pkt matches Some(p) ==> p@.len() > 0,
        ensures
            spec_fullpacket(input@) is Err,
        decreases input@.len(),
    {
        match fullpacket(input) {
            Ok((rest, (seq, body))) => {
                match prev {
                    Some(p) => {
                        let expected = next_seq(p);
                        if seq != expected {
                            return Err(ParseError::Framing { expected, found: seq });
                        }
                    },
                    None => {},
                }
                pkt = match pkt {
                    Some(mut p) => {
                        p.extend(body);
                        Some(p)
                    },
                    None => Some(Packet::new(body)),
                };
                prev = Some(seq);
                input = rest;
            },
            Err(_) => {
                break ;
            },
        }
    }
    match onepacket(input) {
        Ok((rest, (seq, body))) => {
            match prev {
                Some(p) => {
                    let expected = next_seq(p);
                    if seq != expected {
                        return Err(ParseError::Framing { expected, found: seq });
                    }
                },
                None => {},
            }
            let whole = match pkt {
                Some(mut p) => {
                    p.extend(body);
                    p
                },
                None => Packet::new(body),
            };
            Ok((rest, (seq, whole)))
        },
        Err(_) => Err(ParseError::Incomplete),
    }
}

/// The length of the message at the start of `i`, headers and payloads
/// together, found by its headers alone. It fails as [`packet`] does.
pub fn message_len(i: &[u8]) -> (r: Result<usize, ParseError>)
    ensures
        match r {
            Ok(n) => {
                &&& spec_packet(i@) is Ok
                &&& n == i@.len() - spec_packet(i@).unwrap().0.len()
                &&& spec_packet(i@).unwrap().0 == i@.skip(n as int)
            },
            Err(e) => spec_packet(i@) == Err::<(Seq<u8>, (u8, Seq<u8>)), _>(e),
        },
{
    let mut input: &[u8] = i;
    let mut prev: Option<u8> = None;
    let ghost mut acc: Seq<u8> = Seq::empty();
    assert(i@.skip(0) =~= i@);
    loop
        invariant
            input@.len() <= i@.len(),
            input@ == i@.skip(i@.len() - input@.len()),
            spec_packet_from(input@, prev, acc) == spec_packet(i@),
        ensures
            spec_fullpacket(input@) is Err,
        decreases input@.len(),
    {
        match fullpacket(input) {
            Ok((rest, (seq, body))) => {
                match prev {
                    Some(p) => {
                        let expected = next_seq(p);
                        if seq != expected {
                            return Err(ParseError::Framing { expected, found: seq });
                        }
                    },
                    None => {},
                }
                proof {
                    acc = acc + body@;
                    assert(rest@ =~= i@.skip(i@.len() - rest@.len()));
                }
                prev = Some(seq);
                input = rest;
            },
            Err(_) => {
                break ;
            },
        }
    }
    match onepacket(input) {
        Ok((rest, (seq, _))) => {
            match prev {
                Some(p) => {
                    let expected = next_seq(p);
                    if seq != expected {
                        return Err(ParseError::Framing { expected, found: seq });
                    }
                },
                None => {},
            }
            assert(rest@ =~= i@.skip(i@.len() - rest@.len()));
            Ok(i.len() - rest.len())
        },
        Err(_) => Err(ParseError::Incomplete),
    }
}

} // verus!
