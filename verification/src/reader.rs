//! The reading side: a buffer of received bytes from which messages are
//! taken as soon as they are whole.

use vstd::prelude::*;
use crate::packet::{message_len, packet, spec_fullpacket, spec_packet, Packet, ParseError};

verus! {

/// Least size to which the buffer grows before a read.
pub const MIN_READ_BUFFER: usize = 4096;

/// Why the reader gave up.
#[derive(Debug, Clone, Copy, PartialEq, Eq)]
pub enum ReadError {
    /// A fragment of a message does not carry the sequence number that
    /// follows that of the fragment before it.
    Framing { expected: u8, found: u8 },
    /// The stream ended inside a message; `dangling` bytes of it were
    /// received.
    UnexpectedEof { dangling: usize },
}

/// The size to which a buffer that holds `len` bytes grows before a read:
/// twice what it holds, and `MIN_READ_BUFFER` at least.
pub open spec fn grown_len(len: nat) -> nat {
    let twice = if 2 * len > usize::MAX {
        usize::MAX as nat
    } else {
        2 * len
    };
    if twice > MIN_READ_BUFFER {
        twice
    } else {
        MIN_READ_BUFFER as nat
    }
}

/// What the reader answers to the bytes `unparsed` that it holds.
pub open spec fn spec_next(unparsed: Seq<u8>) -> Result<Option<(u8, Seq<u8>)>, ReadError> {
    match spec_packet(unparsed) {
        Ok((_, (seq, payload))) => Ok(Some((seq, payload))),
        Err(ParseError::Framing { expected, found }) => Err(
            ReadError::Framing { expected, found },
        ),
        Err(_) => Ok(None),
    }
}

/// What the reader holds after it answered to the bytes `unparsed`.
pub open spec fn spec_unparsed_after(unparsed: Seq<u8>) -> Seq<u8> {
    match spec_packet(unparsed) {
        Ok((rest, _)) => rest,
        Err(_) => unparsed,
    }
}

/// Whether the payload of `r`, if it holds one, borrows its bytes.
pub open spec fn yields_borrowed(r: Result<Option<(u8, Packet<'_>)>, ReadError>) -> bool {
    match r {
        Ok(Some((_, payload))) => payload.borrowed(),
        _ => false,
    }
}

/// Whether `r` is `expected` with its payload taken by its contents.
pub open spec fn yielded(
    r: Result<Option<(u8, Packet<'_>)>, ReadError>,
    expected: Result<Option<(u8, Seq<u8>)>, ReadError>,
) -> bool {
    match r {
        Ok(Some((seq, payload))) => expected == Ok::<_, ReadError>(Some((seq, payload@))),
        Ok(None) => expected == Ok::<Option<(u8, Seq<u8>)>, ReadError>(None),
        Err(e) => expected == Err::<Option<(u8, Seq<u8>)>, _>(e),
    }
}

/// `Vec::drain` over the first `n` elements: they leave the vector and the
/// others move to its front. The standard library panics where the range
/// ends behind the vector, which `requires` rules out.
#[verifier::external_body]
fn drain_front(bytes: &mut Vec<u8>, n: usize)
    requires
        n <= old(bytes)@.len(),
    ensures
        final(bytes)@ == old(bytes)@.skip(n as int),
{
    bytes.drain(0..n);
}

/// The state of the reading side of a connection.
pub struct PacketReader {
    bytes: Vec<u8>,
    /// Where in `bytes` the next message starts.
    start: usize,
    /// Number of received bytes from `start` on that belong to no message
    /// given out so far.
    remaining: usize,
}

impl PacketReader {
    /// The indices lie within the buffer.
    pub closed spec fn wf(&self) -> bool {
        self.start + self.remaining <= self.bytes@.len()
    }

    /// The bytes that were received and belong to no message given out.
    pub closed spec fn unparsed(&self) -> Seq<u8> {
        self.bytes@.subrange(self.start as int, self.start + self.remaining)
    }

    /// The room behind the received bytes, into which a read puts more.
    pub closed spec fn spare(&self) -> Seq<u8> {
        self.bytes@.skip(self.start + self.remaining)
    }

    /// A reader that holds no bytes.
    pub fn new() -> (r: Self)
        ensures
            r.wf(),
            r.unparsed() == Seq::<u8>::empty(),
            r.spare() == Seq::<u8>::empty(),
    {
        let r = PacketReader { bytes: Vec::new(), start: 0, remaining: 0 };
        assert(r.unparsed() =~= Seq::empty());
        assert(r.spare() =~= Seq::empty());
        r
    }

    /// Whether the bytes received hold a whole message, which [`next`]
    /// then returns. The reader stays as it is.
    ///
    /// [`next`]: PacketReader::next
    pub fn ready(&self) -> (r: Result<bool, ReadError>)
        requires
            self.wf(),
        ensures
            match r {
                Ok(whole) => spec_next(self.unparsed()) is Ok && (whole <==> spec_next(
                    self.unparsed(),
                ).unwrap() is Some),
                Err(e) => spec_next(self.unparsed()) == Err::<Option<(u8, Seq<u8>)>, _>(e),
            },
    {
        let all = self.bytes.as_slice();
        let len = all.len();
        assert(self.start + self.remaining <= len);
        let input = &all[self.start..self.start + self.remaining];
        match message_len(input) {
            Ok(_) => Ok(true),
            Err(ParseError::Framing { expected, found }) => Err(
                ReadError::Framing { expected, found },
            ),
            Err(_) => Ok(false),
        }
    }

    /// Takes the next message from the bytes received: its payload and the
    /// sequence number of its last packet. `None` where they do not hold a
    /// whole message yet; the reader then stays as it is, as it does on an
    /// error. The payload of a message of one packet borrows the reader's
    /// buffer.
    pub fn next<'a>(&'a mut self) -> (r: Result<Option<(u8, Packet<'a>)>, ReadError>)
        requires
            old(self).wf(),
        ensures
            final(self).wf(),
            yielded(r, spec_next(old(self).unparsed())),
            r matches Ok(Some(_)) ==> (yields_borrowed(r) <==> spec_fullpacket(
                old(self).unparsed(),
            ) is Err),
            final(self).unparsed() == spec_unparsed_after(old(self).unparsed()),
            final(self).spare() == old(self).spare(),
    {
        let all = self.bytes.as_slice();
        let len = all.len();
        assert(self.start + self.remaining <= len);
        let end = self.start + self.remaining;
        let input = &all[self.start..end];
        match packet(input) {
            Ok((rest, (seq, payload))) => {
                assert(rest@.len() <= input@.len()) by {
                    crate::laws::lemma_packet_rest(input@);
                }
                assert(rest@ == input@.skip(input@.len() - rest@.len())) by {
                    crate::laws::lemma_packet_rest(input@);
                }
                self.start = end - rest.len();
                self.remaining = rest.len();
                assert(self.unparsed() =~= rest@);
                Ok(Some((seq, payload)))
            },
            Err(ParseError::Framing { expected, found }) => Err(
                ReadError::Framing { expected, found },
            ),
            Err(_) => Ok(None),
        }
    }

    /// Makes room for a read and returns it: the bytes of messages given
    /// out leave the buffer, the others move to its front, and the buffer
    /// grows to `grown_len` of what it then holds. The caller reads into
    /// the front of the room returned and says with [`filled`] how much.
    ///
    /// [`filled`]: PacketReader::filled
    pub fn read_buffer(&mut self) -> (room: &mut [u8])
        requires
            old(self).wf(),
        ensures
            final(self).wf(),
            room@.len() == grown_len(old(self).unparsed().len()) - old(self).unparsed().len(),
            final(self).unparsed() == old(self).unparsed(),
            final(self).spare() == final(room)@,
    {
        let ghost unparsed = self.unparsed();
        let len = self.bytes.len();
        // Forget the spare room of an earlier read that was not filled.
        self.bytes.truncate(self.start + self.remaining);
        drain_front(&mut self.bytes, self.start);
        self.start = 0;
        assert(self.bytes@ =~= unparsed);
        let end = self.bytes.len();
        let twice: usize = if end > usize::MAX / 2 {
            usize::MAX
        } else {
            2 * end
        };
        let new_len: usize = if twice > MIN_READ_BUFFER {
            twice
        } else {
            MIN_READ_BUFFER
        };
        self.bytes.resize(new_len, 0);
        assert(self.bytes@.subrange(0, end as int) == unparsed);
        let all = self.bytes.as_mut_slice();
        let ghost grown = all@;
        let (kept, room) = all.split_at_mut(end);
        proof {
            assert(kept@ == unparsed);
        }
        room
    }

    /// Takes note that a read put `n` bytes into the front of the room that
    /// [`read_buffer`] returned; what is left of the room is given up. A
    /// read of no bytes is the end of the stream: `Ok(false)` where no
    /// bytes of a message are left over, and an error where some are.
    /// `Ok(true)` after a read of some bytes.
    ///
    /// [`read_buffer`]: PacketReader::read_buffer
    pub fn filled(&mut self, n: usize) -> (r: Result<bool, ReadError>)
        requires
            old(self).wf(),
        ensures
            final(self).wf(),
            final(self).unparsed() == old(self).unparsed() + old(self).spare().take(
                if n <= old(self).spare().len() {
                    n as int
                } else {
                    old(self).spare().len() as int
                },
            ),
            final(self).spare() == Seq::<u8>::empty(),
            r == (if n > 0 {
                Ok::<bool, ReadError>(true)
            } else if old(self).unparsed().len() == 0 {
                Ok::<bool, ReadError>(false)
            } else {
                Err::<bool, ReadError>(
                    ReadError::UnexpectedEof { dangling: old(self).unparsed().len() as usize },
                )
            }),
    {
        let len = self.bytes.len();
        let end = self.start + self.remaining;
        let room = len - end;
        let taken = if n <= room {
            n
        } else {
            room
        };
        self.bytes.truncate(end + taken);
        self.remaining = self.remaining + taken;
        assert(self.unparsed() =~= old(self).unparsed() + old(self).spare().take(taken as int));
        assert(self.spare() =~= Seq::<u8>::empty());
        if n == 0 {
            if self.remaining == 0 {
                Ok(false)
            } else {
                Err(ReadError::UnexpectedEof { dangling: self.remaining })
            }
        } else {
            Ok(true)
        }
    }
}

} // verus!
