//! Packet framing: sequence numbers, fragments, qports and the shapes of the
//! datagrams that clients and servers exchange.
use crate::qstr::copy_range;
use vstd::prelude::*;

pub mod client;
pub mod server;

verus! {

/// The most bytes of a single datagram's payload.
pub const MAX_PACKETLEN: usize = 1400;

/// The size of a full fragment; a shorter one is the last of its message.
pub const FRAGMENT_SIZE: usize = 1300;

/// The top bit of a sequence header: set on a fragment.
pub const FRAGMENT_BIT: i32 = i32::MIN;

/// The header that marks a connectionless datagram (`0xFFFFFFFF`).
pub const CONNECTIONLESS_SEQUENCE: i32 = -1;

/// The little-endian `u16` at `b[i..i + 2]`.
pub open spec fn le_u16(b: Seq<u8>, i: int) -> int {
    b[i] + 256 * b[i + 1]
}

/// The little-endian `u32` at `b[i..i + 4]`.
pub open spec fn le_u32(b: Seq<u8>, i: int) -> int {
    b[i] + 256 * b[i + 1] + 65536 * b[i + 2] + 16777216 * b[i + 3]
}

/// The `i32` whose two's complement bits are `u`.
pub open spec fn as_signed(u: int) -> int {
    if u >= 0x8000_0000 {
        u - 0x1_0000_0000
    } else {
        u
    }
}

/// Reads the little-endian `u16` at `b[i..i + 2]`.
pub fn read_u16_le(b: &[u8], i: usize) -> (r: u16)
    requires
        i + 2 <= b@.len(),
    ensures
        r == le_u16(b@, i as int),
{
    b[i] as u16 + (b[i + 1] as u16) * 256
}

/// Reads the little-endian `i32` at `b[i..i + 4]`.
pub fn read_i32_le(b: &[u8], i: usize) -> (r: i32)
    requires
        i + 4 <= b@.len(),
    ensures
        r == as_signed(le_u32(b@, i as int)),
{
    let u: u32 = b[i] as u32 + (b[i + 1] as u32) * 256 + (b[i + 2] as u32) * 65536 + (b[i + 3] as u32)
        * 16777216;
    if u >= 0x8000_0000 {
        ((u - 0x8000_0000) as i32) + i32::MIN
    } else {
        u as i32
    }
}

/// A sequence number that is neither the connectionless marker nor has its
/// top bit set.
#[derive(Clone, Copy, PartialEq, Eq, Structural, PartialOrd, Ord, Hash, Debug)]
pub struct InvalidPacketSequenceNumberError;

/// The number of a sequenced packet: its top bit is clear.
#[derive(Clone, Copy, PartialEq, Eq, Structural, PartialOrd, Ord, Hash, Debug)]
pub struct PacketSequenceNumber(i32);

impl PacketSequenceNumber {
    pub closed spec fn view(&self) -> i32 {
        self.0
    }

    /// Takes `bits`, unless it is the connectionless marker or its top bit is
    /// set, which a negative `i32` shows.
    pub fn new(bits: i32) -> (r: Result<PacketSequenceNumber, InvalidPacketSequenceNumberError>)
        ensures
            match r {
                Ok(n) => n@ == bits && bits >= 0,
                Err(_) => bits < 0,
            },
    {
        if bits == CONNECTIONLESS_SEQUENCE {
            Err(InvalidPacketSequenceNumberError)
        } else if bits < 0 {
            Err(InvalidPacketSequenceNumberError)
        } else {
            Ok(PacketSequenceNumber(bits))
        }
    }

    pub fn get(&self) -> (r: i32)
        ensures
            r == self@,
    {
        self.0
    }
}

/// A sequence header: a number, and in the top bit whether a fragment follows.
#[derive(Clone, Copy, PartialEq, Eq, Structural, PartialOrd, Ord, Hash, Debug)]
pub struct PacketSequence(i32);

impl PacketSequence {
    pub closed spec fn view(&self) -> i32 {
        self.0
    }

    pub fn new(bits: i32) -> (r: PacketSequence)
        ensures
            r@ == bits,
    {
        PacketSequence(bits)
    }

    /// `number` with the top bit set when `fragmented`.
    pub fn new_with_number_and_fragment(number: PacketSequenceNumber, fragmented: bool) -> (r: PacketSequence)
        requires
            number@ >= 0,
        ensures
            r@ == if fragmented {
                number@ + i32::MIN
            } else {
                number@ as int
            },
    {
        if fragmented {
            PacketSequence(number.0 + FRAGMENT_BIT)
        } else {
            PacketSequence(number.0)
        }
    }

    /// Whether the top bit is set.
    pub fn is_fragmented(&self) -> (r: bool)
        ensures
            r == (self@ < 0),
    {
        self.0 < 0
    }

    /// The header with its top bit cleared.
    pub fn number(&self) -> (r: PacketSequenceNumber)
        ensures
            r@ == if self@ < 0 {
                self@ - i32::MIN
            } else {
                self@ as int
            },
            r@ >= 0,
    {
        if self.0 < 0 {
            PacketSequenceNumber(self.0 - FRAGMENT_BIT)
        } else {
            PacketSequenceNumber(self.0)
        }
    }
}

/// What a header says of the datagram it starts.
#[derive(Clone, Copy, PartialEq, Eq, Structural, PartialOrd, Ord, Hash, Debug)]
pub enum PacketKind {
    Connectionless,
    Sequenced(PacketSequence),
}

impl PacketKind {
    /// The connectionless marker, or else a sequence header.
    pub fn parse(bits: i32) -> (r: PacketKind)
        ensures
            match r {
                PacketKind::Connectionless => bits == CONNECTIONLESS_SEQUENCE,
                PacketKind::Sequenced(s) => bits != CONNECTIONLESS_SEQUENCE && s@ == bits,
            },
    {
        if bits == CONNECTIONLESS_SEQUENCE {
            PacketKind::Connectionless
        } else {
            PacketKind::Sequenced(PacketSequence::new(bits))
        }
    }
}

/// A connectionless payload longer than [`MAX_PACKETLEN`], handed back.
#[derive(Clone, PartialEq, Eq, PartialOrd, Ord, Hash, Debug)]
pub struct InvalidConnectionlessMessageError {
    pub payload: Vec<u8>,
}

/// The error of [`ConnectionlessPacket`], under its other name.
pub type InvalidConnectionlessPacketError = InvalidConnectionlessMessageError;

/// The payload of a connectionless datagram, at most [`MAX_PACKETLEN`] bytes.
#[derive(PartialEq, Eq, PartialOrd, Ord, Hash, Debug)]
pub struct ConnectionlessMessage {
    payload: Vec<u8>,
}

/// A connectionless datagram, under its other name.
pub type ConnectionlessPacket = ConnectionlessMessage;

impl ConnectionlessMessage {
    pub closed spec fn view(&self) -> Seq<u8> {
        self.payload@
    }

    #[verifier::type_invariant]
    spec fn wf(self) -> bool {
        self.payload@.len() <= MAX_PACKETLEN
    }

    /// Takes `payload`, unless it is longer than [`MAX_PACKETLEN`].
    pub fn new(payload: Vec<u8>) -> (r: Result<ConnectionlessMessage, InvalidConnectionlessMessageError>)
        ensures
            match r {
                Ok(m) => m@ == payload@ && payload@.len() <= MAX_PACKETLEN,
                Err(e) => e.payload@ == payload@ && payload@.len() > MAX_PACKETLEN,
            },
    {
        if payload.len() > MAX_PACKETLEN {
            Err(InvalidConnectionlessMessageError { payload })
        } else {
            Ok(ConnectionlessMessage { payload })
        }
    }

    pub fn payload(&self) -> (r: &[u8])
        ensures
            r@ == self@,
            r@.len() <= MAX_PACKETLEN,
    {
        proof {
            use_type_invariant(self);
        }
        self.payload.as_slice()
    }
}

impl Clone for ConnectionlessMessage {
    fn clone(&self) -> (r: ConnectionlessMessage)
        ensures
            r@ == self@,
    {
        let p = self.payload();
        ConnectionlessMessage { payload: copy_range(p, 0, p.len()) }
    }
}

/// A fragment start of [`MAX_PACKETLEN`] or more.
#[derive(Clone, Copy, PartialEq, Eq, Structural, PartialOrd, Ord, Hash, Debug)]
pub struct InvalidFragmentStartError;

/// Where a fragment starts in its message: below [`MAX_PACKETLEN`].
#[derive(Clone, Copy, PartialEq, Eq, Structural, PartialOrd, Ord, Hash, Debug)]
pub struct FragmentStart(u16);

impl FragmentStart {
    pub closed spec fn view(&self) -> u16 {
        self.0
    }

    pub fn new(start: u16) -> (r: Result<FragmentStart, InvalidFragmentStartError>)
        ensures
            match r {
                Ok(s) => s@ == start && start < MAX_PACKETLEN,
                Err(_) => start >= MAX_PACKETLEN,
            },
    {
        if start as usize >= MAX_PACKETLEN {
            Err(InvalidFragmentStartError)
        } else {
            Ok(FragmentStart(start))
        }
    }

    pub fn get(&self) -> (r: u16)
        ensures
            r == self@,
    {
        self.0
    }
}

/// A fragment length above [`FRAGMENT_SIZE`].
#[derive(Clone, Copy, PartialEq, Eq, Structural, PartialOrd, Ord, Hash, Debug)]
pub struct InvalidFragmentLengthError;

/// How long a fragment is: at most [`FRAGMENT_SIZE`].
#[derive(Clone, Copy, PartialEq, Eq, Structural, PartialOrd, Ord, Hash, Debug)]
pub struct FragmentLength(u16);

impl FragmentLength {
    pub closed spec fn view(&self) -> u16 {
        self.0
    }

    pub fn new(length: u16) -> (r: Result<FragmentLength, InvalidFragmentLengthError>)
        ensures
            match r {
                Ok(l) => l@ == length && length <= FRAGMENT_SIZE,
                Err(_) => length > FRAGMENT_SIZE,
            },
    {
        if length as usize > FRAGMENT_SIZE {
            Err(InvalidFragmentLengthError)
        } else {
            Ok(FragmentLength(length))
        }
    }

    /// The length of `value` bytes, where it is at most [`FRAGMENT_SIZE`].
    pub fn try_from_usize(value: usize) -> (r: Result<FragmentLength, InvalidFragmentLengthError>)
        ensures
            match r {
                Ok(l) => l@ == value && value <= FRAGMENT_SIZE,
                Err(_) => value > FRAGMENT_SIZE,
            },
    {
        if value > FRAGMENT_SIZE {
            Err(InvalidFragmentLengthError)
        } else {
            FragmentLength::new(value as u16)
        }
    }

    /// A fragment shorter than [`FRAGMENT_SIZE`] ends its message.
    pub fn is_last_fragment(&self) -> (r: bool)
        ensures
            r == (self@ != FRAGMENT_SIZE),
    {
        self.0 as usize != FRAGMENT_SIZE
    }

    pub fn get(&self) -> (r: usize)
        ensures
            r == self@,
    {
        self.0 as usize
    }
}

/// Where a fragment starts and how long it is.
#[derive(Clone, Copy, PartialEq, Eq, Structural, PartialOrd, Ord, Hash, Debug)]
pub struct FragmentInfo {
    start: FragmentStart,
    length: FragmentLength,
}

impl FragmentInfo {
    pub closed spec fn view(&self) -> (u16, u16) {
        (self.start@, self.length@)
    }

    pub fn new(start: FragmentStart, length: FragmentLength) -> (r: FragmentInfo)
        ensures
            r@ == (start@, length@),
    {
        FragmentInfo { start, length }
    }

    pub fn start(&self) -> (r: FragmentStart)
        ensures
            r@ == self@.0,
    {
        self.start
    }

    pub fn length(&self) -> (r: FragmentLength)
        ensures
            r@ == self@.1,
    {
        self.length
    }

    pub fn is_last(&self) -> (r: bool)
        ensures
            r == (self@.1 != FRAGMENT_SIZE),
    {
        self.length.is_last_fragment()
    }
}

/// A qport of zero.
#[derive(Clone, Copy, PartialEq, Eq, Structural, PartialOrd, Ord, Hash, Debug)]
pub struct InvalidQPortError;

/// The non-zero port that tells apart the clients behind one address.
#[derive(Clone, Copy, PartialEq, Eq, Structural, PartialOrd, Ord, Hash, Debug)]
pub struct QPort(u16);

impl QPort {
    pub closed spec fn view(&self) -> u16 {
        self.0
    }

    pub fn new(port: u16) -> (r: Result<QPort, InvalidQPortError>)
        ensures
            match r {
                Ok(q) => q@ == port && port != 0,
                Err(_) => port == 0,
            },
    {
        if port == 0 {
            Err(InvalidQPortError)
        } else {
            Ok(QPort(port))
        }
    }

    pub fn get(&self) -> (r: u16)
        ensures
            r == self@,
    {
        self.0
    }
}

} // verus!
