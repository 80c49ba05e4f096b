//! Packets and messages for game clients: what arrives from servers, and the
//! sequenced and fragmented packets that a client sends.
use crate::protocol::server;
use crate::protocol::{
    as_signed, le_u16, le_u32, read_i32_le, read_u16_le, ConnectionlessPacket, FragmentInfo,
    FragmentLength, FragmentStart, InvalidConnectionlessPacketError, InvalidFragmentLengthError,
    InvalidFragmentStartError, PacketSequenceNumber, QPort, FRAGMENT_SIZE,
};
use crate::qstr::copy_range;
use vstd::prelude::*;

verus! {

/// A sequenced payload of [`FRAGMENT_SIZE`] bytes or more, handed back.
#[derive(Clone, PartialEq, Eq, PartialOrd, Ord, Hash, Debug)]
pub struct InvalidSequencedPacketError {
    pub payload: Vec<u8>,
}

/// A sequenced packet that a client sends, with its qport.
#[derive(Clone, PartialEq, Eq, PartialOrd, Ord, Hash, Debug)]
pub struct SequencedPacket {
    sequence: PacketSequenceNumber,
    qport: QPort,
    payload: Vec<u8>,
}

impl SequencedPacket {
    /// The sequence number, the qport and the payload.
    pub closed spec fn view(&self) -> (i32, u16, Seq<u8>) {
        (self.sequence@, self.qport@, self.payload@)
    }

    /// Takes `payload`, unless it holds [`FRAGMENT_SIZE`] bytes or more.
    pub fn new(sequence: PacketSequenceNumber, qport: QPort, payload: Vec<u8>) -> (r: Result<
        SequencedPacket,
        InvalidSequencedPacketError,
    >)
        ensures
            match r {
                Ok(p) => p@ == (sequence@, qport@, payload@) && payload@.len() < FRAGMENT_SIZE,
                Err(e) => e.payload@ == payload@ && payload@.len() >= FRAGMENT_SIZE,
            },
    {
        if payload.len() >= FRAGMENT_SIZE {
            Err(InvalidSequencedPacketError { payload })
        } else {
            Ok(SequencedPacket { sequence, qport, payload })
        }
    }

    pub fn sequence(&self) -> (r: PacketSequenceNumber)
        ensures
            r@ == self@.0,
    {
        self.sequence
    }

    pub fn qport(&self) -> (r: QPort)
        ensures
            r@ == self@.1,
    {
        self.qport
    }

    pub fn payload(&self) -> (r: &[u8])
        ensures
            r@ == self@.2,
    {
        self.payload.as_slice()
    }
}

/// A fragment payload longer than [`FRAGMENT_SIZE`], handed back.
#[derive(Clone, PartialEq, Eq, PartialOrd, Ord, Hash, Debug)]
pub struct InvalidFragmentedPacketError {
    pub payload: Vec<u8>,
}

/// A fragment that a client sends, with its qport.
#[derive(Clone, PartialEq, Eq, PartialOrd, Ord, Hash, Debug)]
pub struct FragmentedPacket {
    sequence: PacketSequenceNumber,
    qport: QPort,
    fragment_info: FragmentInfo,
    payload: Vec<u8>,
}

impl FragmentedPacket {
    /// The sequence number, the qport, the fragment's start and length, and
    /// the payload.
    pub closed spec fn view(&self) -> (i32, u16, (u16, u16), Seq<u8>) {
        (self.sequence@, self.qport@, self.fragment_info@, self.payload@)
    }

    /// Takes `payload` as the fragment at `fragment_start`, unless it is
    /// longer than [`FRAGMENT_SIZE`].
    pub fn new(
        sequence: PacketSequenceNumber,
        qport: QPort,
        fragment_start: FragmentStart,
        payload: Vec<u8>,
    ) -> (r: Result<FragmentedPacket, InvalidFragmentedPacketError>)
        ensures
            match r {
                Ok(p) => p@ == (sequence@, qport@, (fragment_start@, payload@.len() as u16), payload@)
                    && payload@.len() <= FRAGMENT_SIZE,
                Err(e) => e.payload@ == payload@ && payload@.len() > FRAGMENT_SIZE,
            },
    {
        match FragmentLength::try_from_usize(payload.len()) {
            Err(_) => Err(InvalidFragmentedPacketError { payload }),
            Ok(fragment_length) => Ok(
                FragmentedPacket {
                    sequence,
                    qport,
                    fragment_info: FragmentInfo::new(fragment_start, fragment_length),
                    payload,
                },
            ),
        }
    }

    pub fn sequence(&self) -> (r: PacketSequenceNumber)
        ensures
            r@ == self@.0,
    {
        self.sequence
    }

    pub fn qport(&self) -> (r: QPort)
        ensures
            r@ == self@.1,
    {
        self.qport
    }

    pub fn fragment_info(&self) -> (r: FragmentInfo)
        ensures
            r@ == self@.2,
    {
        self.fragment_info
    }

    pub fn is_last(&self) -> (r: bool)
        ensures
            r == (self@.2.1 != FRAGMENT_SIZE),
    {
        self.fragment_info.is_last()
    }

    pub fn payload(&self) -> (r: &[u8])
        ensures
            r@ == self@.3,
    {
        self.payload.as_slice()
    }
}

/// An incoming packet from a server.
#[derive(Clone, PartialEq, Eq, PartialOrd, Ord, Hash, Debug)]
pub enum ServerPacket {
    Connectionless(ConnectionlessPacket),
    Sequenced(server::SequencedPacket),
    Fragmented(server::FragmentedPacket),
}

/// Why an incoming packet from a server was refused.
#[derive(Clone, PartialEq, Eq, PartialOrd, Ord, Hash, Debug)]
pub enum InvalidServerPacketError {
    InvalidConnectionlessPacket(InvalidConnectionlessPacketError),
    InvalidSequencedPacket(server::InvalidSequencedPacketError),
    InvalidFragmentStart(InvalidFragmentStartError),
    InvalidFragmentLength(InvalidFragmentLengthError),
    InvalidFragmentedPacket(server::InvalidFragmentedPacketError),
    /// A fragment whose declared length is not what remains of the datagram.
    FragmentLengthMismatch,
    /// The datagram ended inside its header.
    InvalidSize,
}

/// How a result of [`parse_server_packet`] reads in the terms of
/// [`server::framing`].
pub open spec fn server_packet_outcome(r: Result<ServerPacket, InvalidServerPacketError>) -> server::Framing {
    match r {
        Ok(ServerPacket::Connectionless(_)) => server::Framing::Connectionless,
        Ok(ServerPacket::Sequenced(_)) => server::Framing::Sequenced,
        Ok(ServerPacket::Fragmented(_)) => server::Framing::Fragmented,
        Err(InvalidServerPacketError::InvalidConnectionlessPacket(_)) => server::Framing::InvalidConnectionlessPacket,
        Err(InvalidServerPacketError::InvalidSequencedPacket(_)) => server::Framing::InvalidSequencedPacket,
        Err(InvalidServerPacketError::InvalidFragmentStart(_)) => server::Framing::InvalidFragmentStart,
        Err(InvalidServerPacketError::InvalidFragmentLength(_)) => server::Framing::InvalidFragmentLength,
        Err(InvalidServerPacketError::InvalidFragmentedPacket(_)) => server::Framing::InvalidFragmentedPacket,
        Err(InvalidServerPacketError::FragmentLengthMismatch) => server::Framing::FragmentLengthMismatch,
        Err(InvalidServerPacketError::InvalidSize) => server::Framing::InvalidSize,
    }
}

/// Parses an incoming datagram from a server: as a client packet, but
/// without a qport.
pub fn parse_server_packet(payload: &[u8]) -> (r: Result<ServerPacket, InvalidServerPacketError>)
    ensures
        server_packet_outcome(r) == server::framing(payload@, false),
        match r {
            Ok(ServerPacket::Connectionless(p)) => p@ == payload@.subrange(4, payload@.len() as int),
            Ok(ServerPacket::Sequenced(p)) => p@ == (
                as_signed(le_u32(payload@, 0)) as i32,
                payload@.subrange(4, payload@.len() as int),
            ),
            Ok(ServerPacket::Fragmented(p)) => p@ == (
                (as_signed(le_u32(payload@, 0)) - i32::MIN) as i32,
                (le_u16(payload@, 4) as u16, le_u16(payload@, 6) as u16),
                payload@.subrange(8, payload@.len() as int),
            ),
            Err(_) => true,
        },
{
    let n = payload.len();
    if n < 4 {
        return Err(InvalidServerPacketError::InvalidSize);
    }
    let header = read_i32_le(payload, 0);
    if header == crate::protocol::CONNECTIONLESS_SEQUENCE {
        return match ConnectionlessPacket::new(copy_range(payload, 4, n)) {
            Ok(p) => Ok(ServerPacket::Connectionless(p)),
            Err(e) => Err(InvalidServerPacketError::InvalidConnectionlessPacket(e)),
        };
    }
    let sequence = crate::protocol::PacketSequence::new(header);
    if sequence.is_fragmented() {
        if n < 6 {
            return Err(InvalidServerPacketError::InvalidSize);
        }
        let fragment_start = match FragmentStart::new(read_u16_le(payload, 4)) {
            Ok(s) => s,
            Err(e) => return Err(InvalidServerPacketError::InvalidFragmentStart(e)),
        };
        if n < 8 {
            return Err(InvalidServerPacketError::InvalidSize);
        }
        let fragment_length = match FragmentLength::new(read_u16_le(payload, 6)) {
            Ok(l) => l,
            Err(e) => return Err(InvalidServerPacketError::InvalidFragmentLength(e)),
        };
        let fragment_info = FragmentInfo::new(fragment_start, fragment_length);
        if fragment_info.length().get() != n - 8 {
            return Err(InvalidServerPacketError::FragmentLengthMismatch);
        }
        match server::FragmentedPacket::new(sequence.number(), fragment_info.start(), copy_range(payload, 8, n)) {
            Ok(p) => Ok(ServerPacket::Fragmented(p)),
            Err(e) => Err(InvalidServerPacketError::InvalidFragmentedPacket(e)),
        }
    } else {
        match server::SequencedPacket::new(sequence.number(), copy_range(payload, 4, n)) {
            Ok(p) => Ok(ServerPacket::Sequenced(p)),
            Err(e) => Err(InvalidServerPacketError::InvalidSequencedPacket(e)),
        }
    }
}

} // verus!
