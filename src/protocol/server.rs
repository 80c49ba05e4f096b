//! Packets and messages for game servers: what arrives from clients, and the
//! sequenced and fragmented packets that a server sends.
//!
//! Incoming packets from game clients are connectionless, sequenced or
//! fragmented ([`Packet`]). A connectionless packet carries a command; the
//! `connect` command carries the client's compressed user info.
use crate::huffman::{decoded, initial, unpacked, Huffman, HuffmanError, ROOT};
use crate::info::{parsed, InfoMap, INFO_LIMIT};
use crate::protocol::client;
use crate::protocol::{
    as_signed, le_u16, le_u32, read_i32_le, read_u16_le, ConnectionlessPacket,
    FragmentInfo, FragmentLength, FragmentStart, InvalidConnectionlessPacketError,
    InvalidFragmentLengthError, InvalidFragmentStartError, InvalidQPortError, PacketSequenceNumber,
    QPort, FRAGMENT_SIZE, MAX_PACKETLEN,
};
use crate::qstr::copy_range;
use vstd::prelude::*;

verus! {

/// A sequenced payload of [`FRAGMENT_SIZE`] bytes or more, handed back.
#[derive(Clone, PartialEq, Eq, PartialOrd, Ord, Hash, Debug)]
pub struct InvalidSequencedPacketError {
    pub payload: Vec<u8>,
}

/// A sequenced packet that a server sends: it carries no qport.
#[derive(Clone, PartialEq, Eq, PartialOrd, Ord, Hash, Debug)]
pub struct SequencedPacket {
    sequence: PacketSequenceNumber,
    payload: Vec<u8>,
}

impl SequencedPacket {
    /// The sequence number and the payload.
    pub closed spec fn view(&self) -> (i32, Seq<u8>) {
        (self.sequence@, self.payload@)
    }

    /// Takes `payload`, unless it holds [`FRAGMENT_SIZE`] bytes or more.
    pub fn new(sequence: PacketSequenceNumber, payload: Vec<u8>) -> (r: Result<SequencedPacket, InvalidSequencedPacketError>)
        ensures
            match r {
                Ok(p) => p@ == (sequence@, payload@) && payload@.len() < FRAGMENT_SIZE,
                Err(e) => e.payload@ == payload@ && payload@.len() >= FRAGMENT_SIZE,
            },
    {
        if payload.len() >= FRAGMENT_SIZE {
            Err(InvalidSequencedPacketError { payload })
        } else {
            Ok(SequencedPacket { sequence, payload })
        }
    }

    pub fn sequence(&self) -> (r: PacketSequenceNumber)
        ensures
            r@ == self@.0,
    {
        self.sequence
    }

    pub fn payload(&self) -> (r: &[u8])
        ensures
            r@ == self@.1,
    {
        self.payload.as_slice()
    }
}

/// A fragment payload longer than [`FRAGMENT_SIZE`], handed back.
#[derive(Clone, PartialEq, Eq, PartialOrd, Ord, Hash, Debug)]
pub struct InvalidFragmentedPacketError {
    pub payload: Vec<u8>,
}

/// A fragment that a server sends: it carries no qport.
#[derive(Clone, PartialEq, Eq, PartialOrd, Ord, Hash, Debug)]
pub struct FragmentedPacket {
    sequence: PacketSequenceNumber,
    fragment_info: FragmentInfo,
    payload: Vec<u8>,
}

impl FragmentedPacket {
    /// The sequence number, the fragment's start and length, and the payload.
    pub closed spec fn view(&self) -> (i32, (u16, u16), Seq<u8>) {
        (self.sequence@, self.fragment_info@, self.payload@)
    }

    /// Takes `payload` as the fragment at `fragment_start`, unless it is
    /// longer than [`FRAGMENT_SIZE`].
    pub fn new(sequence: PacketSequenceNumber, fragment_start: FragmentStart, payload: Vec<u8>) -> (r: Result<
        FragmentedPacket,
        InvalidFragmentedPacketError,
    >)
        ensures
            match r {
                Ok(p) => p@ == (sequence@, (fragment_start@, payload@.len() as u16), payload@)
                    && payload@.len() <= FRAGMENT_SIZE,
                Err(e) => e.payload@ == payload@ && payload@.len() > FRAGMENT_SIZE,
            },
    {
        match FragmentLength::try_from_usize(payload.len()) {
            Err(_) => Err(InvalidFragmentedPacketError { payload }),
            Ok(fragment_length) => Ok(
                FragmentedPacket {
                    sequence,
                    fragment_info: FragmentInfo::new(fragment_start, fragment_length),
                    payload,
                },
            ),
        }
    }

    pub fn sequence(&self) -> (r: PacketSequenceNumber)
        ensures
            r@ == self@.0,
    {
        self.sequence
    }

    pub fn fragment_info(&self) -> (r: FragmentInfo)
        ensures
            r@ == self@.1,
    {
        self.fragment_info
    }

    pub fn is_last(&self) -> (r: bool)
        ensures
            r == (self@.1.1 != FRAGMENT_SIZE),
    {
        self.fragment_info.is_last()
    }

    pub fn payload(&self) -> (r: &[u8])
        ensures
            r@ == self@.2,
    {
        self.payload.as_slice()
    }
}

/// An incoming packet from a client.
#[derive(Clone, PartialEq, Eq, PartialOrd, Ord, Hash, Debug)]
pub enum Packet {
    Connectionless(ConnectionlessPacket),
    Sequenced(client::SequencedPacket),
    Fragmented(client::FragmentedPacket),
}

/// Why an incoming packet was refused.
#[derive(Clone, PartialEq, Eq, PartialOrd, Ord, Hash, Debug)]
pub enum InvalidPacketError {
    InvalidConnectionlessPacket(InvalidConnectionlessPacketError),
    InvalidSequencedPacket(client::InvalidSequencedPacketError),
    InvalidQPort(InvalidQPortError),
    InvalidFragmentStart(InvalidFragmentStartError),
    InvalidFragmentLength(InvalidFragmentLengthError),
    InvalidFragmentedPacket(client::InvalidFragmentedPacketError),
    /// A fragment whose declared length is not what remains of the datagram.
    FragmentLengthMismatch,
    /// The datagram ended inside its header.
    InvalidSize,
}

/// How a datagram is read, by the table of its header.
pub enum Framing {
    Connectionless,
    Sequenced,
    Fragmented,
    InvalidSize,
    InvalidConnectionlessPacket,
    InvalidSequencedPacket,
    InvalidQPort,
    InvalidFragmentStart,
    InvalidFragmentLength,
    FragmentLengthMismatch,
    InvalidFragmentedPacket,
}

/// How the datagram `b` is read: after the `i32` header, a connectionless
/// payload; or, where `with_qport`, a non-zero qport, then for a fragment
/// (top bit set) its start and length and exactly that many bytes, else a
/// sequenced payload shorter than [`FRAGMENT_SIZE`].
pub open spec fn framing(b: Seq<u8>, with_qport: bool) -> Framing {
    let q: int = if with_qport {
        2
    } else {
        0
    };
    if b.len() < 4 {
        Framing::InvalidSize
    } else if as_signed(le_u32(b, 0)) == -1 {
        if b.len() - 4 > MAX_PACKETLEN {
            Framing::InvalidConnectionlessPacket
        } else {
            Framing::Connectionless
        }
    } else if b.len() < 4 + q {
        Framing::InvalidSize
    } else if with_qport && le_u16(b, 4) == 0 {
        Framing::InvalidQPort
    } else if as_signed(le_u32(b, 0)) < 0 {
        if b.len() < 6 + q {
            Framing::InvalidSize
        } else if le_u16(b, 4 + q) >= MAX_PACKETLEN {
            Framing::InvalidFragmentStart
        } else if b.len() < 8 + q {
            Framing::InvalidSize
        } else if le_u16(b, 6 + q) > FRAGMENT_SIZE {
            Framing::InvalidFragmentLength
        } else if le_u16(b, 6 + q) != b.len() - (8 + q) {
            Framing::FragmentLengthMismatch
        } else {
            Framing::Fragmented
        }
    } else if b.len() - (4 + q) >= FRAGMENT_SIZE {
        Framing::InvalidSequencedPacket
    } else {
        Framing::Sequenced
    }
}

/// How a result of [`parse_packet`] reads in the terms of [`framing`].
pub open spec fn packet_outcome(r: Result<Packet, InvalidPacketError>) -> Framing {
    match r {
        Ok(Packet::Connectionless(_)) => Framing::Connectionless,
        Ok(Packet::Sequenced(_)) => Framing::Sequenced,
        Ok(Packet::Fragmented(_)) => Framing::Fragmented,
        Err(InvalidPacketError::InvalidConnectionlessPacket(_)) => Framing::InvalidConnectionlessPacket,
        Err(InvalidPacketError::InvalidSequencedPacket(_)) => Framing::InvalidSequencedPacket,
        Err(InvalidPacketError::InvalidQPort(_)) => Framing::InvalidQPort,
        Err(InvalidPacketError::InvalidFragmentStart(_)) => Framing::InvalidFragmentStart,
        Err(InvalidPacketError::InvalidFragmentLength(_)) => Framing::InvalidFragmentLength,
        Err(InvalidPacketError::InvalidFragmentedPacket(_)) => Framing::InvalidFragmentedPacket,
        Err(InvalidPacketError::FragmentLengthMismatch) => Framing::FragmentLengthMismatch,
        Err(InvalidPacketError::InvalidSize) => Framing::InvalidSize,
    }
}

/// Parses an incoming datagram from a client.
pub fn parse_packet(payload: &[u8]) -> (r: Result<Packet, InvalidPacketError>)
    ensures
        packet_outcome(r) == framing(payload@, true),
        match r {
            Ok(Packet::Connectionless(p)) => p@ == payload@.subrange(4, payload@.len() as int),
            Ok(Packet::Sequenced(p)) => p@ == (
                as_signed(le_u32(payload@, 0)) as i32,
                le_u16(payload@, 4) as u16,
                payload@.subrange(6, payload@.len() as int),
            ),
            Ok(Packet::Fragmented(p)) => p@ == (
                (as_signed(le_u32(payload@, 0)) - i32::MIN) as i32,
                le_u16(payload@, 4) as u16,
                (le_u16(payload@, 6) as u16, le_u16(payload@, 8) as u16),
                payload@.subrange(10, payload@.len() as int),
            ),
            Err(_) => true,
        },
{
    let n = payload.len();
    if n < 4 {
        return Err(InvalidPacketError::InvalidSize);
    }
    let header = read_i32_le(payload, 0);
    if header == crate::protocol::CONNECTIONLESS_SEQUENCE {
        return match ConnectionlessPacket::new(copy_range(payload, 4, n)) {
            Ok(p) => Ok(Packet::Connectionless(p)),
            Err(e) => Err(InvalidPacketError::InvalidConnectionlessPacket(e)),
        };
    }
    let sequence = crate::protocol::PacketSequence::new(header);
    if n < 6 {
        return Err(InvalidPacketError::InvalidSize);
    }
    let qport = match QPort::new(read_u16_le(payload, 4)) {
        Ok(q) => q,
        Err(e) => return Err(InvalidPacketError::InvalidQPort(e)),
    };
    if sequence.is_fragmented() {
        if n < 8 {
            return Err(InvalidPacketError::InvalidSize);
        }
        let fragment_start = match FragmentStart::new(read_u16_le(payload, 6)) {
            Ok(s) => s,
            Err(e) => return Err(InvalidPacketError::InvalidFragmentStart(e)),
        };
        if n < 10 {
            return Err(InvalidPacketError::InvalidSize);
        }
        let fragment_length = match FragmentLength::new(read_u16_le(payload, 8)) {
            Ok(l) => l,
            Err(e) => return Err(InvalidPacketError::InvalidFragmentLength(e)),
        };
        let fragment_info = FragmentInfo::new(fragment_start, fragment_length);
        if fragment_info.length().get() != n - 10 {
            return Err(InvalidPacketError::FragmentLengthMismatch);
        }
        match client::FragmentedPacket::new(
            sequence.number(),
            qport,
            fragment_info.start(),
            copy_range(payload, 10, n),
        ) {
            Ok(p) => Ok(Packet::Fragmented(p)),
            Err(e) => Err(InvalidPacketError::InvalidFragmentedPacket(e)),
        }
    } else {
        match client::SequencedPacket::new(sequence.number(), qport, copy_range(payload, 6, n)) {
            Ok(p) => Ok(Packet::Sequenced(p)),
            Err(e) => Err(InvalidPacketError::InvalidSequencedPacket(e)),
        }
    }
}


/// The ASCII lower case of `c`.
pub open spec fn ascii_lower(c: u8) -> u8 {
    if 0x41 <= c <= 0x5a {
        (c + 0x20) as u8
    } else {
        c
    }
}

/// `a` and `b` are equal but for the case of ASCII letters.
pub open spec fn same_ignoring_case(a: Seq<u8>, b: Seq<u8>) -> bool {
    a.len() == b.len() && forall|i: int| 0 <= i < a.len() ==> ascii_lower(#[trigger] a[i]) == ascii_lower(b[i])
}

/// Whether `a` and `b` are equal but for the case of ASCII letters.
pub fn eq_ignoring_case(a: &[u8], b: &[u8]) -> (r: bool)
    ensures
        r == same_ignoring_case(a@, b@),
{
    if a.len() != b.len() {
        return false;
    }
    let mut i: usize = 0;
    while i < a.len()
        invariant
            a@.len() == b@.len(),
            i <= a@.len(),
            forall|j: int| 0 <= j < i ==> ascii_lower(#[trigger] a@[j]) == ascii_lower(b@[j]),
        decreases a@.len() - i,
    {
        let x = if 0x41 <= a[i] && a[i] <= 0x5a {
            a[i] + 0x20
        } else {
            a[i]
        };
        let y = if 0x41 <= b[i] && b[i] <= 0x5a {
            b[i] + 0x20
        } else {
            b[i]
        };
        if x != y {
            return false;
        }
        i += 1;
    }
    true
}

/// `getstatus`
pub open spec fn getstatus_name() -> Seq<u8> {
    seq![0x67u8, 0x65, 0x74, 0x73, 0x74, 0x61, 0x74, 0x75, 0x73]
}

/// `getinfo`
pub open spec fn getinfo_name() -> Seq<u8> {
    seq![0x67u8, 0x65, 0x74, 0x69, 0x6e, 0x66, 0x6f]
}

/// `getchallenge`
pub open spec fn getchallenge_name() -> Seq<u8> {
    seq![0x67u8, 0x65, 0x74, 0x63, 0x68, 0x61, 0x6c, 0x6c, 0x65, 0x6e, 0x67, 0x65]
}

/// `connect`
pub open spec fn connect_name() -> Seq<u8> {
    seq![0x63u8, 0x6f, 0x6e, 0x6e, 0x65, 0x63, 0x74]
}

/// `ipAuthorize`
pub open spec fn ipauthorize_name() -> Seq<u8> {
    seq![0x69u8, 0x70, 0x41, 0x75, 0x74, 0x68, 0x6f, 0x72, 0x69, 0x7a, 0x65]
}

/// The bytes of the `getstatus` command.
pub fn getstatus_command() -> (r: Vec<u8>)
    ensures
        r@ == getstatus_name(),
{
    vec![0x67u8, 0x65, 0x74, 0x73, 0x74, 0x61, 0x74, 0x75, 0x73]
}

/// The bytes of the `getinfo` command.
pub fn getinfo_command() -> (r: Vec<u8>)
    ensures
        r@ == getinfo_name(),
{
    vec![0x67u8, 0x65, 0x74, 0x69, 0x6e, 0x66, 0x6f]
}

/// The bytes of the `getchallenge` command.
pub fn getchallenge_command() -> (r: Vec<u8>)
    ensures
        r@ == getchallenge_name(),
{
    vec![0x67u8, 0x65, 0x74, 0x63, 0x68, 0x61, 0x6c, 0x6c, 0x65, 0x6e, 0x67, 0x65]
}

/// The bytes of the `connect` command.
pub fn connect_command() -> (r: Vec<u8>)
    ensures
        r@ == connect_name(),
{
    vec![0x63u8, 0x6f, 0x6e, 0x6e, 0x65, 0x63, 0x74]
}

/// The bytes of the `ipAuthorize` command.
pub fn ipauthorize_command() -> (r: Vec<u8>)
    ensures
        r@ == ipauthorize_name(),
{
    vec![0x69u8, 0x70, 0x41, 0x75, 0x74, 0x68, 0x6f, 0x72, 0x69, 0x7a, 0x65]
}

/// The command that a connectionless packet starts with.
#[derive(Clone, Copy, PartialEq, Eq, Structural, Debug)]
pub enum ConnectionlessCommand {
    GetStatus,
    GetInfo,
    GetChallenge,
    Connect,
    IpAuthorize,
}

/// A command token that names no known command.
#[derive(Clone, Copy, PartialEq, Eq, Structural, PartialOrd, Ord, Hash, Debug)]
pub struct ParseCommandError;

impl ConnectionlessCommand {
    /// The command that `bytes` names, ignoring the case of ASCII letters.
    pub fn parse(bytes: &[u8]) -> (r: Result<ConnectionlessCommand, ParseCommandError>)
        ensures
            r == if same_ignoring_case(bytes@, getstatus_name()) {
                Ok(ConnectionlessCommand::GetStatus)
            } else if same_ignoring_case(bytes@, getinfo_name()) {
                Ok(ConnectionlessCommand::GetInfo)
            } else if same_ignoring_case(bytes@, getchallenge_name()) {
                Ok(ConnectionlessCommand::GetChallenge)
            } else if same_ignoring_case(bytes@, connect_name()) {
                Ok(ConnectionlessCommand::Connect)
            } else if same_ignoring_case(bytes@, ipauthorize_name()) {
                Ok(ConnectionlessCommand::IpAuthorize)
            } else {
                Err(ParseCommandError)
            },
    {
        if eq_ignoring_case(bytes, getstatus_command().as_slice()) {
            Ok(ConnectionlessCommand::GetStatus)
        } else if eq_ignoring_case(bytes, getinfo_command().as_slice()) {
            Ok(ConnectionlessCommand::GetInfo)
        } else if eq_ignoring_case(bytes, getchallenge_command().as_slice()) {
            Ok(ConnectionlessCommand::GetChallenge)
        } else if eq_ignoring_case(bytes, connect_command().as_slice()) {
            Ok(ConnectionlessCommand::Connect)
        } else if eq_ignoring_case(bytes, ipauthorize_command().as_slice()) {
            Ok(ConnectionlessCommand::IpAuthorize)
        } else {
            Err(ParseCommandError)
        }
    }
}

/// The double quote that encloses the user info.
pub const QUOTE: u8 = 0x22;

/// The space that follows the `connect` command.
pub const SPACE: u8 = 0x20;

/// Why a `connect` message was refused.
#[derive(Clone, Copy, PartialEq, Eq, Structural, Debug)]
pub enum ParseConnectMessageError {
    /// The payload does not start with `connect`.
    InvalidCommand,
    /// No single space follows `connect`.
    MissingSpace,
    /// The payload ends before the decoded length.
    InvalidLength,
    /// The compressed user info does not decode.
    Huffman(HuffmanError),
    /// The decoded user info is not enclosed in double quotes.
    MissingQuotes,
    /// The user info is not a valid info string within its budget.
    InvalidInfo,
}

/// The user info entries that the `connect` payload `p` carries: `connect`
/// (any case), a space, the decoded length as a little-endian `u16`, then the
/// compressed text, which must decode to `"`, an info string, `"`.
pub open spec fn connect_info(p: Seq<u8>) -> Result<Seq<(Seq<u8>, Seq<u8>)>, ParseConnectMessageError> {
    if p.len() < 7 || !same_ignoring_case(p.subrange(0, 7), connect_name()) {
        Err(ParseConnectMessageError::InvalidCommand)
    } else if p.len() < 8 || p[7] != SPACE {
        Err(ParseConnectMessageError::MissingSpace)
    } else if p.len() < 10 {
        Err(ParseConnectMessageError::InvalidLength)
    } else {
        match decoded(initial(), ROOT, unpacked(p.subrange(10, p.len() as int)), le_u16(p, 8) as nat) {
            Err(e) => Err(ParseConnectMessageError::Huffman(e)),
            Ok((text, _)) => if text.len() < 2 || text[0] != QUOTE || text[text.len() - 1] != QUOTE {
                Err(ParseConnectMessageError::MissingQuotes)
            } else {
                match parsed(text.subrange(1, text.len() - 1), INFO_LIMIT as nat) {
                    Some(es) => Ok(es),
                    None => Err(ParseConnectMessageError::InvalidInfo),
                }
            },
        }
    }
}

/// A `connect` message: the user info of a client that asks to join.
pub struct ConnectMessage {
    user_info: InfoMap<INFO_LIMIT>,
}

impl ConnectMessage {
    pub closed spec fn view(&self) -> Seq<(Seq<u8>, Seq<u8>)> {
        self.user_info@
    }

    pub fn new(user_info: InfoMap<INFO_LIMIT>) -> (r: ConnectMessage)
        ensures
            r@ == user_info@,
    {
        ConnectMessage { user_info }
    }

    pub fn user_info(&self) -> (r: &InfoMap<INFO_LIMIT>)
        ensures
            r@ == self@,
    {
        &self.user_info
    }

    /// Reads the `connect` message that `packet` carries.
    pub fn parse_packet(packet: &ConnectionlessPacket) -> (r: Result<ConnectMessage, ParseConnectMessageError>)
        ensures
            match connect_info(packet@) {
                Ok(es) => r is Ok && r.unwrap()@ == es,
                Err(e) => r == Err::<ConnectMessage, ParseConnectMessageError>(e),
            },
    {
        let p = packet.payload();
        let n = p.len();
        if n < 7 || !eq_ignoring_case(vstd::slice::slice_subrange(p, 0, 7), connect_command().as_slice()) {
            return Err(ParseConnectMessageError::InvalidCommand);
        }
        if n < 8 || p[7] != SPACE {
            return Err(ParseConnectMessageError::MissingSpace);
        }
        if n < 10 {
            return Err(ParseConnectMessageError::InvalidLength);
        }
        let length = read_u16_le(p, 8);
        let blob = vstd::slice::slice_subrange(p, 10, n);
        let mut huffman = Huffman::adaptive();
        let mut text: Vec<u8> = Vec::new();
        match huffman.decode(blob, length as usize, &mut text) {
            Err(e) => {
                return Err(ParseConnectMessageError::Huffman(e));
            },
            Ok(()) => {},
        }
        let m = text.len();
        if m < 2 || text[0] != QUOTE || text[m - 1] != QUOTE {
            return Err(ParseConnectMessageError::MissingQuotes);
        }
        let inner = vstd::slice::slice_subrange(text.as_slice(), 1, m - 1);
        match InfoMap::<INFO_LIMIT>::parse(inner) {
            Ok(user_info) => Ok(ConnectMessage { user_info }),
            Err(_) => Err(ParseConnectMessageError::InvalidInfo),
        }
    }
}

/// A connectionless message that arrives at a server.
pub enum ConnectionlessMessage {
    GetStatus(()),
    GetInfo(()),
    GetChallenge(()),
    Connect(ConnectMessage),
    IpAuthorize(()),
}

} // verus!
