//! The bitchat wire formats: the outer packet, the chat message, fragments and
//! announcements, each with a serializer, a parser and their round-trip laws.

use vstd::prelude::*;
use crate::bytes::{
    self, copy_range, extend_all, extend_range, push_be16, push_be64, read_be16, read_be64,
};
use crate::text::{self, decode_text, push_decimal};
use crate::ids::{self, uuid_from_slice, uuid_parse_str, uuid_to_string};

verus! {

// ---------------------------------------------------------------------------
// Flags
// ---------------------------------------------------------------------------

/// True when every bit of `mask` is set in `bits`.
pub open spec fn flag_set(bits: u8, mask: u8) -> bool {
    bits & mask == mask
}

/// The flag byte of a packet; only the three defined bits are ever kept.
#[derive(Debug, Clone, Copy, PartialEq, Eq)]
pub struct PacketFlags {
    bits: u8,
}

impl View for PacketFlags {
    type V = u8;

    closed spec fn view(&self) -> u8 {
        self.bits
    }
}

impl PacketFlags {
    /// Only the defined bits are ever set.
    #[verifier::type_invariant]
    spec fn defined_bits_only(self) -> bool {
        self.bits <= 7
    }
}

impl PacketFlags {
    /// No flag set.
    pub fn empty() -> (f: PacketFlags)
        ensures
            f@ == 0,
    {
        PacketFlags { bits: 0 }
    }

    /// The packet carries a recipient id.
    pub fn has_recipient() -> (f: PacketFlags)
        ensures
            f@ == 1,
    {
        PacketFlags { bits: 1 }
    }

    /// The packet carries a signature.
    pub fn has_signature() -> (f: PacketFlags)
        ensures
            f@ == 2,
    {
        PacketFlags { bits: 2 }
    }

    /// The payload is LZ4-compressed.
    pub fn is_compressed() -> (f: PacketFlags)
        ensures
            f@ == 4,
    {
        PacketFlags { bits: 4 }
    }

    /// The raw flag byte, which has only defined bits set.
    pub fn bits(&self) -> (b: u8)
        ensures
            b == self@,
            b <= 7,
    {
        proof {
            use_type_invariant(self);
        }
        self.bits
    }

    /// Keeps the defined bits of `b` and drops the others.
    pub fn from_bits_truncate(b: u8) -> (f: PacketFlags)
        ensures
            f@ == b & 7,
    {
        assert(b & 7 <= 7) by (bit_vector);
        PacketFlags { bits: b & 7 }
    }

    /// True when every flag of `other` is set in `self`.
    pub fn contains(&self, other: PacketFlags) -> (r: bool)
        ensures
            r == flag_set(self@, other@),
    {
        self.bits & other.bits == other.bits
    }

    /// The flags set in either.
    pub fn union(self, other: PacketFlags) -> (f: PacketFlags)
        ensures
            f@ == self@ | other@,
    {
        proof {
            use_type_invariant(&self);
            use_type_invariant(&other);
        }
        let a: u8 = self.bits;
        let b: u8 = other.bits;
        assert(a | b <= 7) by (bit_vector)
            requires
                a <= 7,
                b <= 7,
        ;
        PacketFlags { bits: a | b }
    }
}

/// The flag byte of a chat message; only the four defined bits are ever kept.
#[derive(Debug, Clone, Copy, PartialEq, Eq)]
pub struct MessageFlags {
    bits: u8,
}

impl View for MessageFlags {
    type V = u8;

    closed spec fn view(&self) -> u8 {
        self.bits
    }
}

impl MessageFlags {
    /// Only the defined bits are ever set.
    #[verifier::type_invariant]
    spec fn defined_bits_only(self) -> bool {
        self.bits <= 15
    }
}

impl MessageFlags {
    /// No flag set.
    pub fn empty() -> (f: MessageFlags)
        ensures
            f@ == 0,
    {
        MessageFlags { bits: 0 }
    }

    /// The message is being relayed.
    pub fn is_relay() -> (f: MessageFlags)
        ensures
            f@ == 1,
    {
        MessageFlags { bits: 1 }
    }

    /// The message is private.
    pub fn is_private() -> (f: MessageFlags)
        ensures
            f@ == 2,
    {
        MessageFlags { bits: 2 }
    }

    /// The message carries the original sender's name.
    pub fn has_original_sender() -> (f: MessageFlags)
        ensures
            f@ == 4,
    {
        MessageFlags { bits: 4 }
    }

    /// The message carries the recipient's nickname.
    pub fn has_recipient_nickname() -> (f: MessageFlags)
        ensures
            f@ == 8,
    {
        MessageFlags { bits: 8 }
    }

    /// The raw flag byte, which has only defined bits set.
    pub fn bits(&self) -> (b: u8)
        ensures
            b == self@,
            b <= 15,
    {
        proof {
            use_type_invariant(self);
        }
        self.bits
    }

    /// Keeps the defined bits of `b` and drops the others.
    pub fn from_bits_truncate(b: u8) -> (f: MessageFlags)
        ensures
            f@ == b & 15,
    {
        assert(b & 15 <= 15) by (bit_vector);
        MessageFlags { bits: b & 15 }
    }

    /// True when every flag of `other` is set in `self`.
    pub fn contains(&self, other: MessageFlags) -> (r: bool)
        ensures
            r == flag_set(self@, other@),
    {
        self.bits & other.bits == other.bits
    }

    /// The flags set in either.
    pub fn union(self, other: MessageFlags) -> (f: MessageFlags)
        ensures
            f@ == self@ | other@,
    {
        proof {
            use_type_invariant(&self);
            use_type_invariant(&other);
        }
        let a: u8 = self.bits;
        let b: u8 = other.bits;
        assert(a | b <= 15) by (bit_vector)
            requires
                a <= 15,
                b <= 15,
        ;
        MessageFlags { bits: a | b }
    }
}

// ---------------------------------------------------------------------------
// Message types
// ---------------------------------------------------------------------------

/// The kind of a packet, carried in its second byte.
#[derive(Debug, Clone, Copy, PartialEq, Eq)]
pub enum MessageType {
    Announce,
    Message,
    Leave,
    NoiseHandshake,
    NoiseEncrypted,
    Fragment,
}

impl MessageType {
    /// The wire byte of each kind.
    pub open spec fn spec_byte(self) -> u8 {
        match self {
            MessageType::Announce => 0x01,
            MessageType::Message => 0x02,
            MessageType::Leave => 0x03,
            MessageType::NoiseHandshake => 0x10,
            MessageType::NoiseEncrypted => 0x11,
            MessageType::Fragment => 0x20,
        }
    }

    /// The kind whose wire byte is `b`, if any.
    pub open spec fn spec_from_byte(b: u8) -> Option<MessageType> {
        if b == 0x01 {
            Some(MessageType::Announce)
        } else if b == 0x02 {
            Some(MessageType::Message)
        } else if b == 0x03 {
            Some(MessageType::Leave)
        } else if b == 0x10 {
            Some(MessageType::NoiseHandshake)
        } else if b == 0x11 {
            Some(MessageType::NoiseEncrypted)
        } else if b == 0x20 {
            Some(MessageType::Fragment)
        } else {
            None
        }
    }

    pub fn to_byte(&self) -> (b: u8)
        ensures
            b == self.spec_byte(),
    {
        match self {
            MessageType::Announce => 0x01,
            MessageType::Message => 0x02,
            MessageType::Leave => 0x03,
            MessageType::NoiseHandshake => 0x10,
            MessageType::NoiseEncrypted => 0x11,
            MessageType::Fragment => 0x20,
        }
    }

    pub fn from_byte(b: u8) -> (t: Option<MessageType>)
        ensures
            t == Self::spec_from_byte(b),
    {
        if b == 0x01 {
            Some(MessageType::Announce)
        } else if b == 0x02 {
            Some(MessageType::Message)
        } else if b == 0x03 {
            Some(MessageType::Leave)
        } else if b == 0x10 {
            Some(MessageType::NoiseHandshake)
        } else if b == 0x11 {
            Some(MessageType::NoiseEncrypted)
        } else if b == 0x20 {
            Some(MessageType::Fragment)
        } else {
            None
        }
    }

    /// True when both are the same kind.
    pub fn same_as(&self, other: &MessageType) -> (r: bool)
        ensures
            r == (*self == *other),
    {
        self.to_byte() == other.to_byte()
    }
}

/// A message type survives its byte encoding.
pub proof fn lemma_type_byte_roundtrip(t: MessageType)
    ensures
        MessageType::spec_from_byte(t.spec_byte()) == Some(t),
{
}

/// The wire codes are the protocol's fixed values, in both directions:
/// `Announce` 0x01, `Message` 0x02, `Leave` 0x03, `NoiseHandshake` 0x10,
/// `NoiseEncrypted` 0x11 and `Fragment` 0x20; every other byte names no type.
pub proof fn lemma_type_wire_codes(b: u8)
    ensures
        MessageType::Announce.spec_byte() == 0x01u8,
        MessageType::Message.spec_byte() == 0x02u8,
        MessageType::Leave.spec_byte() == 0x03u8,
        MessageType::NoiseHandshake.spec_byte() == 0x10u8,
        MessageType::NoiseEncrypted.spec_byte() == 0x11u8,
        MessageType::Fragment.spec_byte() == 0x20u8,
        MessageType::spec_from_byte(0x01) == Some(MessageType::Announce),
        MessageType::spec_from_byte(0x02) == Some(MessageType::Message),
        MessageType::spec_from_byte(0x03) == Some(MessageType::Leave),
        MessageType::spec_from_byte(0x10) == Some(MessageType::NoiseHandshake),
        MessageType::spec_from_byte(0x11) == Some(MessageType::NoiseEncrypted),
        MessageType::spec_from_byte(0x20) == Some(MessageType::Fragment),
        b != 0x01 && b != 0x02 && b != 0x03 && b != 0x10 && b != 0x11 && b != 0x20
            ==> MessageType::spec_from_byte(b) is None,
{
}

// ---------------------------------------------------------------------------
// Outer packet
// ---------------------------------------------------------------------------

/// A packet as plain values.
pub struct PacketView {
    pub version: u8,
    pub packet_type: MessageType,
    pub ttl: u8,
    pub timestamp: u64,
    pub flags: u8,
    pub sender_id: Seq<u8>,
    pub recipient_id: Option<Seq<u8>>,
    pub payload: Seq<u8>,
    pub signature: Option<Seq<u8>>,
}

/// The bytes of an optional field: nothing when absent.
pub open spec fn opt_bytes(o: Option<Seq<u8>>) -> Seq<u8> {
    match o {
        Some(b) => b,
        None => Seq::empty(),
    }
}

/// An optional 8-byte id as plain values.
pub open spec fn opt_array8(o: Option<[u8; 8]>) -> Option<Seq<u8>> {
    match o {
        Some(a) => Some(a@),
        None => None,
    }
}

/// An optional 64-byte signature as plain values.
pub open spec fn opt_array64(o: Option<[u8; 64]>) -> Option<Seq<u8>> {
    match o {
        Some(a) => Some(a@),
        None => None,
    }
}

/// The wire encoding of a packet: a 14-byte header (version, type, TTL,
/// big-endian timestamp, flags, big-endian payload length truncated to 16
/// bits), the sender id, the recipient id if present, the payload and the
/// signature if present.
pub open spec fn packet_bytes(p: PacketView) -> Seq<u8> {
    seq![p.version, p.packet_type.spec_byte(), p.ttl] + bytes::be64_bytes(p.timestamp) + seq![p.flags]
        + bytes::be16_bytes(p.payload.len() as u16) + p.sender_id + opt_bytes(p.recipient_id)
        + p.payload + opt_bytes(p.signature)
}

/// The second byte of a packet's encoding is its type's fixed wire code.
pub proof fn lemma_packet_type_code(p: PacketView)
    ensures
        packet_bytes(p)[1] == p.packet_type.spec_byte(),
        p.packet_type == MessageType::Announce ==> packet_bytes(p)[1] == 0x01u8,
        p.packet_type == MessageType::Message ==> packet_bytes(p)[1] == 0x02u8,
        p.packet_type == MessageType::Leave ==> packet_bytes(p)[1] == 0x03u8,
        p.packet_type == MessageType::NoiseHandshake ==> packet_bytes(p)[1] == 0x10u8,
        p.packet_type == MessageType::NoiseEncrypted ==> packet_bytes(p)[1] == 0x11u8,
        p.packet_type == MessageType::Fragment ==> packet_bytes(p)[1] == 0x20u8,
{
    lemma_type_wire_codes(0);
}

/// Why a packet could not be decoded.
#[derive(Debug, Clone, Copy, PartialEq, Eq)]
pub enum PacketError {
    TooShortForHeader,
    UnsupportedVersion(u8),
    UnknownType(u8),
    TooShortForSenderId,
    TooShortForRecipientId,
    TooShortForPayload,
    TooShortForSignature,
}

impl PacketError {
    /// The message text of each error.
    pub open spec fn spec_text(self) -> Seq<char> {
        match self {
            PacketError::TooShortForHeader => "Data too short for header"@,
            PacketError::UnsupportedVersion(v) => "Unsupported protocol version: "@ + text::decimal_text(v),
            PacketError::UnknownType(t) => "Unknown message type: "@ + text::decimal_text(t),
            PacketError::TooShortForSenderId => "Data too short for sender ID"@,
            PacketError::TooShortForRecipientId => "Data too short for recipient ID"@,
            PacketError::TooShortForPayload => "Data too short for payload"@,
            PacketError::TooShortForSignature => "Data too short for signature"@,
        }
    }

    /// The message text, as the decoders report it.
    pub fn text(&self) -> (s: String)
        ensures
            s@ == self.spec_text(),
    {
        match self {
            PacketError::TooShortForHeader => String::from_str("Data too short for header"),
            PacketError::UnsupportedVersion(v) => {
                let mut s = String::from_str("Unsupported protocol version: ");
                push_decimal(&mut s, *v);
                s
            },
            PacketError::UnknownType(t) => {
                let mut s = String::from_str("Unknown message type: ");
                push_decimal(&mut s, *t);
                s
            },
            PacketError::TooShortForSenderId => String::from_str("Data too short for sender ID"),
            PacketError::TooShortForRecipientId => String::from_str(
                "Data too short for recipient ID",
            ),
            PacketError::TooShortForPayload => String::from_str("Data too short for payload"),
            PacketError::TooShortForSignature => String::from_str("Data too short for signature"),
        }
    }
}

/// Where the payload starts, given whether a recipient id is present.
pub open spec fn payload_offset(has_recipient: bool) -> int {
    if has_recipient {
        30
    } else {
        22
    }
}

/// What `BitchatPacket::from_bytes` makes of `d`. Unknown flag bits are
/// dropped and bytes after the last field are ignored.
pub open spec fn parse_packet(d: Seq<u8>) -> Result<PacketView, PacketError> {
    if d.len() < 13 {
        Err(PacketError::TooShortForHeader)
    } else if d[0] != 1 {
        Err(PacketError::UnsupportedVersion(d[0]))
    } else {
        match MessageType::spec_from_byte(d[1]) {
            None => Err(PacketError::UnknownType(d[1])),
            Some(t) => {
                let flags = d[11] & 7;
                let plen = bytes::be16_value(d[12], d[13]) as int;
                let has_r = flag_set(flags, 1);
                let has_s = flag_set(flags, 2);
                let off = payload_offset(has_r);
                if d.len() < 22 {
                    Err(PacketError::TooShortForSenderId)
                } else if has_r && d.len() < 30 {
                    Err(PacketError::TooShortForRecipientId)
                } else if d.len() < off + plen {
                    Err(PacketError::TooShortForPayload)
                } else if has_s && d.len() < off + plen + 64 {
                    Err(PacketError::TooShortForSignature)
                } else {
                    Ok(
                        PacketView {
                            version: 1,
                            packet_type: t,
                            ttl: d[2],
                            timestamp: bytes::be64_value(d.subrange(3, 11)),
                            flags,
                            sender_id: d.subrange(14, 22),
                            recipient_id: if has_r {
                                Some(d.subrange(22, 30))
                            } else {
                                None
                            },
                            payload: d.subrange(off, off + plen),
                            signature: if has_s {
                                Some(d.subrange(off + plen, off + plen + 64))
                            } else {
                                None
                            },
                        },
                    )
                }
            },
        }
    }
}

/// Exactly the 13 bytes that the header check admits, naming version 1 and a
/// known type: the two-byte payload length would then be read past the end.
pub open spec fn overruns_header(d: Seq<u8>) -> bool {
    &&& d.len() == 13
    &&& d[0] == 1
    &&& MessageType::spec_from_byte(d[1]) is Some
}

/// Tells whether `data` is such an input.
pub fn header_overrun(data: &[u8]) -> (r: bool)
    ensures
        r == overruns_header(data@),
{
    data.len() == 13 && data[0] == 1 && MessageType::from_byte(data[1]).is_some()
}

/// The outer packet of the protocol.
#[derive(Debug, Clone, PartialEq)]
pub struct BitchatPacket {
    pub version: u8,
    pub packet_type: MessageType,
    pub ttl: u8,
    pub timestamp: u64,
    pub flags: PacketFlags,
    pub sender_id: [u8; 8],
    pub recipient_id: Option<[u8; 8]>,
    pub payload: Vec<u8>,
    pub signature: Option<[u8; 64]>,
}

impl View for BitchatPacket {
    type V = PacketView;

    open spec fn view(&self) -> PacketView {
        PacketView {
            version: self.version,
            packet_type: self.packet_type,
            ttl: self.ttl,
            timestamp: self.timestamp,
            flags: self.flags@,
            sender_id: self.sender_id@,
            recipient_id: opt_array8(self.recipient_id),
            payload: self.payload@,
            signature: opt_array64(self.signature),
        }
    }
}

/// The 8 bytes at `data[at..at + 8]`.
pub(crate) fn array8_at(data: &[u8], at: usize) -> (a: [u8; 8])
    requires
        at + 8 <= data@.len(),
    ensures
        a@ == data@.subrange(at as int, at + 8),
{
    let mut a = [0u8; 8];
    let mut i: usize = 0;
    while i < 8
        invariant
            i <= 8,
            at + 8 <= data.len(),
            forall|j: int| 0 <= j < i ==> a@[j] == data@[at + j],
        decreases 8 - i,
    {
        a[i] = data[at + i];
        i = i + 1;
    }
    assert(a@ =~= data@.subrange(at as int, at + 8));
    a
}

/// The 16 bytes at `data[at..at + 16]`.
pub(crate) fn array16_at(data: &[u8], at: usize) -> (a: [u8; 16])
    requires
        at + 16 <= data@.len(),
    ensures
        a@ == data@.subrange(at as int, at + 16),
{
    let mut a = [0u8; 16];
    let mut i: usize = 0;
    while i < 16
        invariant
            i <= 16,
            at + 16 <= data.len(),
            forall|j: int| 0 <= j < i ==> a@[j] == data@[at + j],
        decreases 16 - i,
    {
        a[i] = data[at + i];
        i = i + 1;
    }
    assert(a@ =~= data@.subrange(at as int, at + 16));
    a
}

/// The 64 bytes at `data[at..at + 64]`.
pub(crate) fn array64_at(data: &[u8], at: usize) -> (a: [u8; 64])
    requires
        at + 64 <= data@.len(),
    ensures
        a@ == data@.subrange(at as int, at + 64),
{
    let mut a = [0u8; 64];
    let mut i: usize = 0;
    while i < 64
        invariant
            i <= 64,
            at + 64 <= data.len(),
            forall|j: int| 0 <= j < i ==> a@[j] == data@[at + j],
        decreases 64 - i,
    {
        a[i] = data[at + i];
        i = i + 1;
    }
    assert(a@ =~= data@.subrange(at as int, at + 64));
    a
}

impl BitchatPacket {
    /// Serializes the packet; the payload length is written modulo 2^16.
    pub fn to_bytes(&self) -> (data: Vec<u8>)
        ensures
            data@ == packet_bytes(self@),
    {
        let mut data: Vec<u8> = Vec::new();
        data.push(self.version);
        data.push(self.packet_type.to_byte());
        data.push(self.ttl);
        push_be64(&mut data, self.timestamp);
        data.push(self.flags.bits());
        push_be16(&mut data, self.payload.len() as u16);
        extend_all(&mut data, self.sender_id.as_slice());
        match self.recipient_id {
            Some(r) => extend_all(&mut data, r.as_slice()),
            None => {},
        }
        extend_all(&mut data, self.payload.as_slice());
        match self.signature {
            Some(s) => extend_all(&mut data, s.as_slice()),
            None => {},
        }
        assert(data@ =~= packet_bytes(self@));
        data
    }

    fn decode(data: &[u8]) -> (r: Result<BitchatPacket, PacketError>)
        requires
            !overruns_header(data@),
        ensures
            match parse_packet(data@) {
                Ok(v) => r matches Ok(p) && p@ == v,
                Err(e) => r == Err::<BitchatPacket, PacketError>(e),
            },
    {
        let len = data.len();
        if len < 13 {
            return Err(PacketError::TooShortForHeader);
        }
        let version = data[0];
        if version != 1 {
            return Err(PacketError::UnsupportedVersion(version));
        }
        let packet_type = match MessageType::from_byte(data[1]) {
            Some(t) => t,
            None => return Err(PacketError::UnknownType(data[1])),
        };
        let ttl = data[2];
        let timestamp = read_be64(data, 3);
        let flags = PacketFlags::from_bits_truncate(data[11]);
        let payload_length = read_be16(data, 12) as usize;
        if len < 22 {
            return Err(PacketError::TooShortForSenderId);
        }
        let sender_id = array8_at(data, 14);
        let mut offset: usize = 22;
        let mut recipient_id: Option<[u8; 8]> = None;
        if flags.contains(PacketFlags::has_recipient()) {
            if len < 30 {
                return Err(PacketError::TooShortForRecipientId);
            }
            recipient_id = Some(array8_at(data, 22));
            offset = 30;
        }
        if len < offset + payload_length {
            return Err(PacketError::TooShortForPayload);
        }
        let payload = copy_range(data, offset, offset + payload_length);
        offset = offset + payload_length;
        let mut signature: Option<[u8; 64]> = None;
        if flags.contains(PacketFlags::has_signature()) {
            if len < offset + 64 {
                return Err(PacketError::TooShortForSignature);
            }
            signature = Some(array64_at(data, offset));
        }
        let p = BitchatPacket {
            version,
            packet_type,
            ttl,
            timestamp,
            flags,
            sender_id,
            recipient_id,
            payload,
            signature,
        };
        assert(p@ == parse_packet(data@).unwrap());
        Ok(p)
    }

    /// Parses a packet. Bytes after the last field are ignored (peers may pad).
    /// An input that `overruns_header` describes is left out: its length field
    /// lies past its end.
    pub fn from_bytes(data: &[u8]) -> (r: Result<BitchatPacket, String>)
        requires
            !overruns_header(data@),
        ensures
            match parse_packet(data@) {
                Ok(v) => r matches Ok(p) && p@ == v,
                Err(e) => r matches Err(s) && s@ == e.spec_text(),
            },
    {
        match Self::decode(data) {
            Ok(p) => Ok(p),
            Err(e) => Err(e.text()),
        }
    }
}


/// A packet that the wire format can carry unchanged: version 1, only defined
/// flag bits, the recipient and signature flags matching the optional fields,
/// fields of their fixed sizes and a payload whose length fits in 16 bits.
pub open spec fn packet_wf(p: PacketView) -> bool {
    &&& p.version == 1
    &&& p.flags <= 7
    &&& flag_set(p.flags, 1) == (p.recipient_id is Some)
    &&& flag_set(p.flags, 2) == (p.signature is Some)
    &&& p.sender_id.len() == 8
    &&& (p.recipient_id matches Some(r) ==> r.len() == 8)
    &&& (p.signature matches Some(s) ==> s.len() == 64)
    &&& p.payload.len() <= 0xffff
}

proof fn lemma_low_flags(f: u8)
    requires
        f <= 7,
    ensures
        f & 7 == f,
{
    assert(f <= 7 ==> f & 7 == f) by (bit_vector);
}

/// Decoding the encoding of a well-formed packet gives the packet back, whatever
/// bytes follow it.
pub proof fn lemma_packet_roundtrip(p: PacketView, extra: Seq<u8>)
    requires
        packet_wf(p),
    ensures
        parse_packet(packet_bytes(p) + extra) == Ok::<PacketView, PacketError>(p),
{
    let d = packet_bytes(p) + extra;
    let plen = p.payload.len();
    let rb = opt_bytes(p.recipient_id);
    let sb = opt_bytes(p.signature);
    let has_r = p.recipient_id is Some;
    let off = payload_offset(has_r);
    let head = seq![p.version, p.packet_type.spec_byte(), p.ttl] + bytes::be64_bytes(p.timestamp)
        + seq![p.flags] + bytes::be16_bytes(plen as u16);
    assert(head.len() == 14);
    assert(rb.len() == if has_r { 8int } else { 0int });
    assert(d =~= head + p.sender_id + rb + p.payload + sb + extra);
    assert(d[0] == p.version);
    assert(d[1] == p.packet_type.spec_byte());
    assert(d[2] == p.ttl);
    assert(d[11] == p.flags);
    assert(d[12] == bytes::be16_bytes(plen as u16)[0]);
    assert(d[13] == bytes::be16_bytes(plen as u16)[1]);
    assert(d.subrange(3, 11) =~= bytes::be64_bytes(p.timestamp));
    bytes::lemma_be64_roundtrip(p.timestamp);
    bytes::lemma_be16_roundtrip(plen as u16);
    lemma_low_flags(p.flags);
    lemma_type_byte_roundtrip(p.packet_type);
    assert(d.subrange(14, 22) =~= p.sender_id);
    if has_r {
        assert(d.subrange(22, 30) =~= p.recipient_id->Some_0);
    }
    assert(d.subrange(off, off + plen) =~= p.payload);
    if p.signature is Some {
        assert(d.subrange(off + plen, off + plen + 64) =~= p.signature->Some_0);
    }
    let v = parse_packet(d).unwrap();
    assert(v.recipient_id == p.recipient_id);
    assert(v.signature == p.signature);
    assert(v == p);
}

/// A decoded packet re-encodes to exactly the bytes it was read from, when the
/// flag byte held no undefined bits.
pub proof fn lemma_packet_reencode(d: Seq<u8>)
    requires
        parse_packet(d) is Ok,
        d[11] <= 7,
    ensures
        packet_bytes(parse_packet(d)->Ok_0) =~= d.subrange(0, packet_bytes(parse_packet(d)->Ok_0).len() as int),
{
    let v = parse_packet(d)->Ok_0;
    lemma_low_flags(d[11]);
    bytes::lemma_be16_bytes_of_value(d[12], d[13]);
    bytes::lemma_be64_bytes_of_value(d.subrange(3, 11));
    let t = MessageType::spec_from_byte(d[1])->Some_0;
    assert(t.spec_byte() == d[1]);
    let plen = bytes::be16_value(d[12], d[13]);
    assert(v.payload.len() == plen);
    assert((v.payload.len() as u16) == plen);
    let n = packet_bytes(v).len() as int;
    let has_r = v.recipient_id is Some;
    let off = payload_offset(has_r);
    assert(n == off + plen + if v.signature is Some { 64int } else { 0int });
    let head = seq![v.version, v.packet_type.spec_byte(), v.ttl] + bytes::be64_bytes(v.timestamp)
        + seq![v.flags] + bytes::be16_bytes(v.payload.len() as u16);
    assert(head =~= d.subrange(0, 14));
    assert(packet_bytes(v) =~= head + v.sender_id + opt_bytes(v.recipient_id) + v.payload + opt_bytes(v.signature));
}

impl BitchatPacket {
    /// The packet satisfies `packet_wf`.
    pub open spec fn wf(&self) -> bool {
        packet_wf(self@)
    }
}

// ---------------------------------------------------------------------------
// Fragments
// ---------------------------------------------------------------------------

/// A fragment as plain values.
pub struct FragmentView {
    pub id: Seq<u8>,
    pub index: u16,
    pub count: u16,
    pub data: Seq<u8>,
}

/// The wire encoding of a fragment: the 16 id bytes, the big-endian index and
/// count, then the data.
pub open spec fn fragment_bytes(f: FragmentView) -> Seq<u8> {
    f.id + bytes::be16_bytes(f.index) + bytes::be16_bytes(f.count) + f.data
}

/// What `FragmentPacket::from_bytes` makes of `d`: everything after the 20-byte
/// header is the data.
pub open spec fn parse_fragment(d: Seq<u8>) -> Result<FragmentView, Seq<char>> {
    if d.len() < 20 {
        Err("Data too short for FragmentPacket"@)
    } else {
        Ok(
            FragmentView {
                id: d.subrange(0, 16),
                index: bytes::be16_value(d[16], d[17]),
                count: bytes::be16_value(d[18], d[19]),
                data: d.subrange(20, d.len() as int),
            },
        )
    }
}

/// One piece of a packet too large to send at once.
#[derive(Debug, Clone, PartialEq)]
pub struct FragmentPacket {
    pub id: [u8; 16],
    pub index: u16,
    pub count: u16,
    pub data: Vec<u8>,
}

impl View for FragmentPacket {
    type V = FragmentView;

    open spec fn view(&self) -> FragmentView {
        FragmentView { id: self.id@, index: self.index, count: self.count, data: self.data@ }
    }
}

impl FragmentPacket {
    pub fn to_bytes(&self) -> (out: Vec<u8>)
        ensures
            out@ == fragment_bytes(self@),
    {
        let mut out: Vec<u8> = Vec::new();
        extend_all(&mut out, self.id.as_slice());
        push_be16(&mut out, self.index);
        push_be16(&mut out, self.count);
        extend_all(&mut out, self.data.as_slice());
        assert(out@ =~= fragment_bytes(self@));
        out
    }

    pub fn from_bytes(data: &[u8]) -> (r: Result<FragmentPacket, String>)
        ensures
            match parse_fragment(data@) {
                Ok(v) => r matches Ok(f) && f@ == v,
                Err(t) => r matches Err(s) && s@ == t,
            },
    {
        if data.len() < 20 {
            return Err(String::from_str("Data too short for FragmentPacket"));
        }
        let id_bytes = copy_range(data, 0, 16);
        let id = match uuid_from_slice(id_bytes.as_slice()) {
            Ok(id) => id,
            Err(e) => return Err(e),
        };
        let index = read_be16(data, 16);
        let count = read_be16(data, 18);
        let fragment_data = copy_range(data, 20, data.len());
        Ok(FragmentPacket { id, index, count, data: fragment_data })
    }
}

/// Decoding the encoding of a fragment with a 16-byte id gives it back.
pub proof fn lemma_fragment_roundtrip(f: FragmentView)
    requires
        f.id.len() == 16,
    ensures
        parse_fragment(fragment_bytes(f)) == Ok::<FragmentView, Seq<char>>(f),
{
    let d = fragment_bytes(f);
    bytes::lemma_be16_roundtrip(f.index);
    bytes::lemma_be16_roundtrip(f.count);
    assert(d.subrange(0, 16) =~= f.id);
    assert(d.subrange(20, d.len() as int) =~= f.data);
    assert(d[16] == bytes::be16_bytes(f.index)[0] && d[17] == bytes::be16_bytes(f.index)[1]);
    assert(d[18] == bytes::be16_bytes(f.count)[0] && d[19] == bytes::be16_bytes(f.count)[1]);
}

/// Every input of at least 20 bytes decodes to a fragment that re-encodes to it.
pub proof fn lemma_fragment_reencode(d: Seq<u8>)
    requires
        d.len() >= 20,
    ensures
        fragment_bytes(parse_fragment(d)->Ok_0) == d,
{
    let v = parse_fragment(d)->Ok_0;
    bytes::lemma_be16_bytes_of_value(d[16], d[17]);
    bytes::lemma_be16_bytes_of_value(d[18], d[19]);
    assert(fragment_bytes(v) =~= d);
}

// ---------------------------------------------------------------------------
// Announcements
// ---------------------------------------------------------------------------

/// An announcement as plain values.
pub struct AnnounceView {
    pub nickname: Seq<char>,
    pub noise_public_key: Seq<u8>,
    pub signing_public_key: Seq<u8>,
}

/// A type-length-value record; the length byte is the value's length modulo 256.
pub open spec fn tlv(t: u8, v: Seq<u8>) -> Seq<u8> {
    seq![t, v.len() as u8] + v
}

/// The wire encoding of an announcement: the nickname record (type 1, left out
/// when the nickname is empty), the Noise key record (type 2) and the signing
/// key record (type 3).
pub open spec fn announce_bytes(a: AnnounceView) -> Seq<u8> {
    (if a.nickname.len() > 0 {
        tlv(1, vstd::utf8::encode_utf8(a.nickname))
    } else {
        Seq::empty()
    }) + tlv(2, a.noise_public_key) + tlv(3, a.signing_public_key)
}

/// The last value seen of each record type while scanning.
pub struct TlvFields {
    pub nickname: Option<Seq<u8>>,
    pub noise_public_key: Option<Seq<u8>>,
    pub signing_public_key: Option<Seq<u8>>,
}

/// Records of the announcement types overwrite what earlier records held;
/// other types are skipped.
pub open spec fn tlv_record(st: TlvFields, t: u8, v: Seq<u8>) -> TlvFields {
    if t == 1 {
        TlvFields { nickname: Some(v), ..st }
    } else if t == 2 {
        TlvFields { noise_public_key: Some(v), ..st }
    } else if t == 3 {
        TlvFields { signing_public_key: Some(v), ..st }
    } else {
        st
    }
}

/// Scans the records of `d` from `off` on. A record whose value runs past the
/// end makes the scan fail; one trailing byte is ignored.
pub open spec fn scan_tlv(d: Seq<u8>, off: int, st: TlvFields) -> Option<TlvFields>
    decreases d.len() - off,
{
    if off < 0 || off + 2 > d.len() {
        Some(st)
    } else {
        let l = d[off + 1] as int;
        if off + 2 + l > d.len() {
            None
        } else {
            scan_tlv(d, off + 2 + l, tlv_record(st, d[off], d.subrange(off + 2, off + 2 + l)))
        }
    }
}

/// No TLV field seen yet.
pub open spec fn no_tlv_fields() -> TlvFields {
    TlvFields { nickname: None, noise_public_key: None, signing_public_key: None }
}

/// What `AnnouncementPacket::from_bytes` makes of `d`.
pub open spec fn parse_announce(d: Seq<u8>) -> Result<AnnounceView, Seq<char>> {
    match scan_tlv(d, 0, no_tlv_fields()) {
        None => Err("Invalid TLV length"@),
        Some(st) => match (st.nickname, st.noise_public_key, st.signing_public_key) {
            (Some(n), Some(k), Some(s)) => Ok(
                AnnounceView { nickname: text::text_of(n), noise_public_key: k, signing_public_key: s },
            ),
            _ => Err("Missing required fields in AnnouncementPacket"@),
        },
    }
}

/// A peer's announcement of its nickname and public keys.
#[derive(Debug, Clone, PartialEq)]
pub struct AnnouncementPacket {
    pub nickname: String,
    pub noise_public_key: Vec<u8>,
    pub signing_public_key: Vec<u8>,
}

impl View for AnnouncementPacket {
    type V = AnnounceView;

    open spec fn view(&self) -> AnnounceView {
        AnnounceView {
            nickname: self.nickname@,
            noise_public_key: self.noise_public_key@,
            signing_public_key: self.signing_public_key@,
        }
    }
}

fn push_tlv(out: &mut Vec<u8>, t: u8, v: &[u8])
    ensures
        final(out)@ == old(out)@ + tlv(t, v@),
{
    out.push(t);
    out.push(v.len() as u8);
    extend_all(out, v);
    assert(final(out)@ =~= old(out)@ + tlv(t, v@));
}

impl AnnouncementPacket {
    pub fn to_bytes(&self) -> (out: Vec<u8>)
        ensures
            out@ == announce_bytes(self@),
    {
        let mut out: Vec<u8> = Vec::new();
        if !self.nickname.as_str().is_empty() {
            push_tlv(&mut out, 0x01, self.nickname.as_str().as_bytes());
        }
        push_tlv(&mut out, 0x02, self.noise_public_key.as_slice());
        push_tlv(&mut out, 0x03, self.signing_public_key.as_slice());
        assert(out@ =~= announce_bytes(self@));
        out
    }

    pub fn from_bytes(data: &[u8]) -> (r: Result<AnnouncementPacket, String>)
        ensures
            match parse_announce(data@) {
                Ok(v) => r matches Ok(a) && a@ == v,
                Err(t) => r matches Err(s) && s@ == t,
            },
    {
        let mut offset: usize = 0;
        let mut nickname: Option<String> = None;
        let mut noise_public_key: Option<Vec<u8>> = None;
        let mut signing_public_key: Option<Vec<u8>> = None;
        let ghost mut raw_nickname: Option<Seq<u8>> = None;
        while data.len() - offset >= 2
            invariant
                offset <= data.len(),
                scan_tlv(data@, 0, no_tlv_fields()) == scan_tlv(
                    data@,
                    offset as int,
                    TlvFields {
                        nickname: raw_nickname,
                        noise_public_key: match noise_public_key {
                            Some(k) => Some(k@),
                            None => None,
                        },
                        signing_public_key: match signing_public_key {
                            Some(k) => Some(k@),
                            None => None,
                        },
                    },
                ),
                nickname is Some <==> raw_nickname is Some,
                nickname matches Some(n) ==> n@ == text::text_of(raw_nickname->Some_0),
            decreases data.len() - offset,
        {
            let t = data[offset];
            let l = data[offset + 1] as usize;
            if l > data.len() - offset - 2 {
                return Err(String::from_str("Invalid TLV length"));
            }
            let start = offset + 2;
            offset = start + l;
            if t == 0x01 {
                nickname = Some(decode_text(vstd::slice::slice_subrange(data, start, offset)));
                proof {
                    raw_nickname = Some(data@.subrange(start as int, offset as int));
                }
            } else if t == 0x02 {
                noise_public_key = Some(copy_range(data, start, offset));
            } else if t == 0x03 {
                signing_public_key = Some(copy_range(data, start, offset));
            }
        }
        match (nickname, noise_public_key, signing_public_key) {
            (Some(nickname), Some(noise_public_key), Some(signing_public_key)) => Ok(
                AnnouncementPacket { nickname, noise_public_key, signing_public_key },
            ),
            _ => Err(String::from_str("Missing required fields in AnnouncementPacket")),
        }
    }
}

/// An announcement that the wire format carries unchanged: a non-empty
/// nickname and every value short enough for its one-byte length.
pub open spec fn announce_wf(a: AnnounceView) -> bool {
    &&& a.nickname.len() > 0
    &&& vstd::utf8::encode_utf8(a.nickname).len() <= 255
    &&& a.noise_public_key.len() <= 255
    &&& a.signing_public_key.len() <= 255
}

proof fn lemma_scan_record(d: Seq<u8>, off: int, st: TlvFields, t: u8, v: Seq<u8>)
    requires
        0 <= off,
        v.len() <= 255,
        d.subrange(off, off + 2 + v.len()) == tlv(t, v),
        off + 2 + v.len() <= d.len(),
    ensures
        scan_tlv(d, off, st) == scan_tlv(d, off + 2 + v.len(), tlv_record(st, t, v)),
{
    assert(d[off] == tlv(t, v)[0]);
    assert(d[off + 1] == tlv(t, v)[1]);
    assert((v.len() as u8) as int == v.len());
    let w = d.subrange(off, off + 2 + v.len());
    assert(d.subrange(off + 2, off + 2 + v.len()) =~= w.subrange(2, 2 + v.len() as int));
    assert(w.subrange(2, 2 + v.len() as int) =~= v);
}

/// Scanning bytes that start with the encoding of a well-formed announcement
/// and add at most one byte gives the announcement back.
#[verifier::spinoff_prover]
#[verifier::rlimit(30)]
proof fn lemma_scan_announce(a: AnnounceView, d: Seq<u8>)
    requires
        announce_wf(a),
        announce_bytes(a).len() <= d.len() <= announce_bytes(a).len() + 1,
        d.take(announce_bytes(a).len() as int) == announce_bytes(a),
    ensures
        parse_announce(d) == Ok::<AnnounceView, Seq<char>>(a),
{
    let n = vstd::utf8::encode_utf8(a.nickname);
    let r1 = tlv(1, n);
    let r2 = tlv(2, a.noise_public_key);
    let r3 = tlv(3, a.signing_public_key);
    let e = announce_bytes(a);
    assert(e =~= r1 + r2 + r3);
    let o1 = r1.len() as int;
    let o2 = o1 + r2.len();
    let o3 = o2 + r3.len();
    assert forall|i: int| 0 <= i < o3 implies d[i] == e[i] by {
        assert(d.take(o3)[i] == d[i]);
    }
    assert(d.subrange(0, o1) =~= r1);
    assert(d.subrange(o1, o2) =~= r2);
    assert(d.subrange(o2, o3) =~= r3);
    let st0 = no_tlv_fields();
    lemma_scan_record(d, 0, st0, 1, n);
    let st1 = tlv_record(st0, 1, n);
    lemma_scan_record(d, o1, st1, 2, a.noise_public_key);
    let st2 = tlv_record(st1, 2, a.noise_public_key);
    lemma_scan_record(d, o2, st2, 3, a.signing_public_key);
    let st3 = tlv_record(st2, 3, a.signing_public_key);
    assert(scan_tlv(d, o3, st3) == Some(st3));
    text::lemma_text_of_encoding(a.nickname);
}

/// Decoding the encoding of a well-formed announcement gives it back.
pub proof fn lemma_announce_roundtrip(a: AnnounceView)
    requires
        announce_wf(a),
    ensures
        parse_announce(announce_bytes(a)) == Ok::<AnnounceView, Seq<char>>(a),
{
    let d = announce_bytes(a);
    assert(d.take(d.len() as int) =~= d);
    lemma_scan_announce(a, d);
}

/// One byte after the encoding of a well-formed announcement is ignored: the
/// decoder still gives the announcement back.
pub proof fn lemma_announce_trailing_byte(a: AnnounceView, x: u8)
    requires
        announce_wf(a),
    ensures
        parse_announce(announce_bytes(a).push(x)) == Ok::<AnnounceView, Seq<char>>(a),
{
    let e = announce_bytes(a);
    assert(e.push(x).take(e.len() as int) =~= e);
    lemma_scan_announce(a, e.push(x));
}

/// An announcement with an empty nickname is encoded without its nickname
/// record, so decoding its encoding reports the missing field.
pub proof fn lemma_announce_empty_nickname(a: AnnounceView)
    requires
        a.nickname.len() == 0,
        a.noise_public_key.len() <= 255,
        a.signing_public_key.len() <= 255,
    ensures
        parse_announce(announce_bytes(a)) == Err::<AnnounceView, Seq<char>>(
            "Missing required fields in AnnouncementPacket"@,
        ),
{
    let r2 = tlv(2, a.noise_public_key);
    let r3 = tlv(3, a.signing_public_key);
    let d = announce_bytes(a);
    assert(d =~= r2 + r3);
    let o2 = r2.len() as int;
    let o3 = o2 + r3.len();
    assert(d.subrange(0, o2) =~= r2);
    assert(d.subrange(o2, o3) =~= r3);
    let st0 = no_tlv_fields();
    lemma_scan_record(d, 0, st0, 2, a.noise_public_key);
    let st2 = tlv_record(st0, 2, a.noise_public_key);
    lemma_scan_record(d, o2, st2, 3, a.signing_public_key);
    let st3 = tlv_record(st2, 3, a.signing_public_key);
    assert(scan_tlv(d, o3, st3) == Some(st3));
}

// ---------------------------------------------------------------------------
// Chat messages
// ---------------------------------------------------------------------------

/// A chat message as plain values.
pub struct MessageView {
    pub flags: u8,
    pub timestamp: u64,
    pub id: Seq<u8>,
    pub sender: Seq<char>,
    pub content: Seq<char>,
    pub original_sender: Option<Seq<char>>,
    pub recipient_nickname: Option<Seq<char>>,
}

/// A value behind a one-byte length; values longer than 255 bytes are cut to
/// their first 255 bytes.
pub open spec fn short_field(b: Seq<u8>) -> Seq<u8> {
    if b.len() > 255 {
        seq![255u8] + b.take(255)
    } else {
        seq![b.len() as u8] + b
    }
}

/// An optional text field: its UTF-8 bytes behind a one-byte length, or nothing.
pub open spec fn opt_short_text(o: Option<Seq<char>>) -> Seq<u8> {
    match o {
        Some(t) => short_field(vstd::utf8::encode_utf8(t)),
        None => Seq::empty(),
    }
}

/// The wire encoding of a chat message: flags, big-endian timestamp, the id as
/// hyphenated text, the sender, the content behind a big-endian 16-bit length
/// (taken modulo 2^16), then the optional original sender and recipient
/// nickname.
pub open spec fn message_bytes(m: MessageView) -> Seq<u8> {
    seq![m.flags] + bytes::be64_bytes(m.timestamp) + short_field(
        vstd::utf8::encode_utf8(ids::hyphenated(m.id)),
    ) + short_field(vstd::utf8::encode_utf8(m.sender)) + bytes::be16_bytes(
        vstd::utf8::encode_utf8(m.content).len() as u16,
    ) + vstd::utf8::encode_utf8(m.content) + opt_short_text(m.original_sender) + opt_short_text(
        m.recipient_nickname,
    )
}

/// The value of the length-prefixed field at `off` and the offset after it;
/// `Err(false)` when the length byte is missing, `Err(true)` when the value is
/// cut short.
pub open spec fn short_at(d: Seq<u8>, off: int) -> Result<(Seq<u8>, int), bool> {
    if d.len() < off + 1 {
        Err(false)
    } else if d.len() < off + 1 + d[off] {
        Err(true)
    } else {
        Ok((d.subrange(off + 1, off + 1 + d[off]), off + 1 + d[off]))
    }
}

/// Flags, timestamp, id and the offset after the id.
pub open spec fn message_head(d: Seq<u8>) -> Result<(u8, u64, Seq<u8>, int), Seq<char>> {
    if d.len() == 0 {
        Err("Cannot decode empty message"@)
    } else if d.len() < 9 {
        Err("Data too short for timestamp"@)
    } else {
        match short_at(d, 9) {
            Err(cut) => Err(
                if cut {
                    "Data too short for ID"@
                } else {
                    "Data too short for ID length"@
                },
            ),
            Ok((idb, off)) => match ids::spec_uuid_parse(text::text_of(idb)) {
                Err(t) => Err("UUID parse error: "@ + t),
                Ok(id) => Ok((d[0] & 15, bytes::be64_value(d.subrange(1, 9)), id, off)),
            },
        }
    }
}

/// The recipient nickname, read at `off` when the flag says it is there.
pub open spec fn message_recipient(d: Seq<u8>, flags: u8, off: int) -> Result<
    Option<Seq<char>>,
    Seq<char>,
> {
    if flag_set(flags, 8) {
        match short_at(d, off) {
            Err(cut) => Err(
                if cut {
                    "Data too short for recipient_nickname"@
                } else {
                    "Data too short for recipient_nickname length"@
                },
            ),
            Ok((v, _)) => Ok(Some(text::text_of(v))),
        }
    } else {
        Ok(None)
    }
}

/// The original sender and the recipient nickname, read at `off` as the flags
/// say.
pub open spec fn message_options(d: Seq<u8>, flags: u8, off: int) -> Result<
    (Option<Seq<char>>, Option<Seq<char>>),
    Seq<char>,
> {
    if flag_set(flags, 4) {
        match short_at(d, off) {
            Err(cut) => Err(
                if cut {
                    "Data too short for original_sender"@
                } else {
                    "Data too short for original_sender length"@
                },
            ),
            Ok((v, next)) => match message_recipient(d, flags, next) {
                Err(t) => Err(t),
                Ok(r) => Ok((Some(text::text_of(v)), r)),
            },
        }
    } else {
        match message_recipient(d, flags, off) {
            Err(t) => Err(t),
            Ok(r) => Ok((None, r)),
        }
    }
}

/// Sender, content and the optional fields, read from `off` on.
pub open spec fn message_body(d: Seq<u8>, flags: u8, off: int) -> Result<
    (Seq<char>, Seq<char>, Option<Seq<char>>, Option<Seq<char>>),
    Seq<char>,
> {
    match short_at(d, off) {
        Err(cut) => Err(
            if cut {
                "Data too short for sender"@
            } else {
                "Data too short for sender length"@
            },
        ),
        Ok((sb, o2)) => if d.len() < o2 + 2 {
            Err("Data too short for content length"@)
        } else {
            let cl = bytes::be16_value(d[o2], d[o2 + 1]) as int;
            if d.len() < o2 + 2 + cl {
                Err("Data too short for content"@)
            } else {
                match message_options(d, flags, o2 + 2 + cl) {
                    Err(t) => Err(t),
                    Ok((o, r)) => Ok(
                        (text::text_of(sb), text::text_of(d.subrange(o2 + 2, o2 + 2 + cl)), o, r),
                    ),
                }
            }
        },
    }
}

/// What `BitchatMessage::from_bytes` makes of `d`.
pub open spec fn parse_message(d: Seq<u8>) -> Result<MessageView, Seq<char>> {
    match message_head(d) {
        Err(t) => Err(t),
        Ok((flags, ts, id, off)) => match message_body(d, flags, off) {
            Err(t) => Err(t),
            Ok((sender, content, o, r)) => Ok(
                MessageView {
                    flags,
                    timestamp: ts,
                    id,
                    sender,
                    content,
                    original_sender: o,
                    recipient_nickname: r,
                },
            ),
        },
    }
}

/// A message that the wire format carries unchanged: only defined flag bits,
/// the optional-field flags matching the fields, a 16-byte id and texts short
/// enough for their length fields.
pub open spec fn message_wf(m: MessageView) -> bool {
    &&& m.flags <= 15
    &&& flag_set(m.flags, 4) == (m.original_sender is Some)
    &&& flag_set(m.flags, 8) == (m.recipient_nickname is Some)
    &&& m.id.len() == 16
    &&& vstd::utf8::encode_utf8(m.sender).len() <= 255
    &&& vstd::utf8::encode_utf8(m.content).len() <= 0xffff
    &&& (m.original_sender matches Some(o) ==> vstd::utf8::encode_utf8(o).len() <= 255)
    &&& (m.recipient_nickname matches Some(r) ==> vstd::utf8::encode_utf8(r).len() <= 255)
}

/// An optional text as plain values.
pub open spec fn opt_text_view(o: Option<String>) -> Option<Seq<char>> {
    match o {
        Some(s) => Some(s@),
        None => None,
    }
}

/// A chat message, carried as the payload of a `Message` packet.
#[derive(Debug, Clone, PartialEq)]
pub struct BitchatMessage {
    pub flags: MessageFlags,
    pub timestamp: u64,
    pub id: [u8; 16],
    pub sender: String,
    pub content: String,
    pub original_sender: Option<String>,
    pub recipient_nickname: Option<String>,
}

impl View for BitchatMessage {
    type V = MessageView;

    open spec fn view(&self) -> MessageView {
        MessageView {
            flags: self.flags@,
            timestamp: self.timestamp,
            id: self.id@,
            sender: self.sender@,
            content: self.content@,
            original_sender: opt_text_view(self.original_sender),
            recipient_nickname: opt_text_view(self.recipient_nickname),
        }
    }
}

fn push_short(out: &mut Vec<u8>, b: &[u8])
    ensures
        final(out)@ == old(out)@ + short_field(b@),
{
    if b.len() > 255 {
        out.push(255);
        extend_range(out, b, 0, 255);
        assert(b@.subrange(0, 255) =~= b@.take(255));
    } else {
        out.push(b.len() as u8);
        extend_all(out, b);
    }
    assert(final(out)@ =~= old(out)@ + short_field(b@));
}

fn read_short(data: &[u8], off: usize) -> (r: Result<(usize, usize), bool>)
    requires
        off <= data@.len(),
    ensures
        match short_at(data@, off as int) {
            Err(cut) => r == Err::<(usize, usize), bool>(cut),
            Ok((v, next)) => r matches Ok((start, end)) && start == off + 1 && end == next
                && start <= end <= data@.len() && v == data@.subrange(start as int, end as int),
        },
{
    if data.len() - off < 1 {
        return Err(false);
    }
    let l = data[off] as usize;
    if data.len() - off - 1 < l {
        return Err(true);
    }
    Ok((off + 1, off + 1 + l))
}

fn read_short_text(data: &[u8], off: usize) -> (r: Result<(String, usize), bool>)
    requires
        off <= data@.len(),
    ensures
        match short_at(data@, off as int) {
            Err(cut) => r matches Err(c) && c == cut,
            Ok((v, next)) => r matches Ok((t, end)) && t@ == text::text_of(v) && end == next
                && end <= data@.len(),
        },
{
    match read_short(data, off) {
        Err(cut) => Err(cut),
        Ok((start, end)) => Ok((decode_text(vstd::slice::slice_subrange(data, start, end)), end)),
    }
}

impl BitchatMessage {
    pub fn to_bytes(&self) -> (out: Vec<u8>)
        ensures
            out@ == message_bytes(self@),
    {
        let mut out: Vec<u8> = Vec::new();
        out.push(self.flags.bits());
        push_be64(&mut out, self.timestamp);
        let id_text = uuid_to_string(&self.id);
        push_short(&mut out, id_text.as_str().as_bytes());
        push_short(&mut out, self.sender.as_str().as_bytes());
        let content_bytes = self.content.as_str().as_bytes();
        push_be16(&mut out, content_bytes.len() as u16);
        extend_all(&mut out, content_bytes);
        match &self.original_sender {
            Some(o) => push_short(&mut out, o.as_str().as_bytes()),
            None => {},
        }
        match &self.recipient_nickname {
            Some(r) => push_short(&mut out, r.as_str().as_bytes()),
            None => {},
        }
        assert(out@ =~= message_bytes(self@));
        out
    }
}

proof fn lemma_piece(d: Seq<u8>, pre: Seq<u8>, piece: Seq<u8>, post: Seq<u8>)
    requires
        d == pre + piece + post,
    ensures
        d.subrange(pre.len() as int, pre.len() + piece.len() as int) == piece,
        d.len() == pre.len() + piece.len() + post.len(),
{
    assert(d.subrange(pre.len() as int, pre.len() + piece.len() as int) =~= piece);
}

proof fn lemma_short_at(d: Seq<u8>, off: int, b: Seq<u8>)
    requires
        0 <= off,
        b.len() <= 255,
        off + 1 + b.len() <= d.len(),
        d.subrange(off, off + 1 + b.len()) == short_field(b),
    ensures
        short_at(d, off) == Ok::<(Seq<u8>, int), bool>((b, off + 1 + b.len())),
{
    let w = d.subrange(off, off + 1 + b.len());
    assert(d[off] == w[0]);
    assert((b.len() as u8) as int == b.len());
    assert(d.subrange(off + 1, off + 1 + b.len()) =~= w.subrange(1, 1 + b.len() as int));
    assert(w.subrange(1, 1 + b.len() as int) =~= b);
}

proof fn lemma_message_options_layout(d: Seq<u8>, off: int, m: MessageView, post: Seq<u8>)
    requires
        message_wf(m),
        0 <= off <= d.len(),
        d.subrange(off, d.len() as int) == opt_short_text(m.original_sender) + opt_short_text(
            m.recipient_nickname,
        ) + post,
    ensures
        message_options(d, m.flags, off) == Ok::<(Option<Seq<char>>, Option<Seq<char>>), Seq<char>>(
            (m.original_sender, m.recipient_nickname),
        ),
{
    let tail = d.subrange(off, d.len() as int);
    let ob = opt_short_text(m.original_sender);
    let rb = opt_short_text(m.recipient_nickname);
    assert(tail =~= Seq::<u8>::empty() + ob + (rb + post));
    lemma_piece(tail, Seq::empty(), ob, rb + post);
    lemma_piece(tail, ob, rb, post);
    let o4 = off + ob.len();
    assert(d.subrange(off, off + ob.len()) =~= tail.subrange(0, ob.len() as int));
    assert(d.subrange(o4, o4 + rb.len()) =~= tail.subrange(ob.len() as int, ob.len() + rb.len() as int));
    match m.original_sender {
        Some(o) => {
            let obb = vstd::utf8::encode_utf8(o);
            lemma_short_at(d, off, obb);
            text::lemma_text_of_encoding(o);
        },
        None => {},
    }
    match m.recipient_nickname {
        Some(r) => {
            let rbb = vstd::utf8::encode_utf8(r);
            lemma_short_at(d, o4, rbb);
            text::lemma_text_of_encoding(r);
        },
        None => {},
    }
}

/// The layout of an encoded well-formed message, field by field.
#[verifier::spinoff_prover]
#[verifier::rlimit(40)]
proof fn lemma_message_layout(m: MessageView, extra: Seq<u8>)
    requires
        message_wf(m),
    ensures
        ({
            let d = message_bytes(m) + extra;
            &&& d.len() >= 46
            &&& short_at(d, 9) == Ok::<(Seq<u8>, int), bool>(
                (vstd::utf8::encode_utf8(ids::hyphenated(m.id)), 46),
            )
            &&& text::text_of(vstd::utf8::encode_utf8(ids::hyphenated(m.id))) == ids::hyphenated(m.id)
            &&& d[0] & 15 == m.flags
            &&& bytes::be64_value(d.subrange(1, 9)) == m.timestamp
            &&& message_body(d, m.flags, 46) == Ok::<
                (Seq<char>, Seq<char>, Option<Seq<char>>, Option<Seq<char>>),
                Seq<char>,
            >((m.sender, m.content, m.original_sender, m.recipient_nickname))
        }),
{
    let d = message_bytes(m) + extra;
    let idt = vstd::utf8::encode_utf8(ids::hyphenated(m.id));
    ids::lemma_hyphenated(m.id);
    text::lemma_text_of_encoding(ids::hyphenated(m.id));
    let sb = vstd::utf8::encode_utf8(m.sender);
    let cb = vstd::utf8::encode_utf8(m.content);
    let ob = opt_short_text(m.original_sender);
    let rb = opt_short_text(m.recipient_nickname);
    let ts = bytes::be64_bytes(m.timestamp);
    let cl = bytes::be16_bytes(cb.len() as u16);
    let p0 = seq![m.flags];
    let p1 = p0 + ts;
    let p2 = p1 + short_field(idt);
    let p3 = p2 + short_field(sb);
    let p4 = p3 + cl;
    let p5 = p4 + cb;
    let post = ob + rb + extra;
    assert(d =~= p5 + post);
    assert(short_field(idt).len() == 37);
    assert(p2.len() == 46);
    assert(d[0] == m.flags);
    let f = m.flags;
    assert(f <= 15 ==> f & 15 == f) by (bit_vector);
    assert(d =~= p0 + ts + (short_field(idt) + short_field(sb) + cl + cb + post));
    lemma_piece(d, p0, ts, short_field(idt) + short_field(sb) + cl + cb + post);
    bytes::lemma_be64_roundtrip(m.timestamp);
    assert(d =~= p1 + short_field(idt) + (short_field(sb) + cl + cb + post));
    lemma_piece(d, p1, short_field(idt), short_field(sb) + cl + cb + post);
    lemma_short_at(d, 9, idt);
    assert(d =~= p2 + short_field(sb) + (cl + cb + post));
    lemma_piece(d, p2, short_field(sb), cl + cb + post);
    lemma_short_at(d, 46, sb);
    text::lemma_text_of_encoding(m.sender);
    let o2 = p3.len() as int;
    assert(d =~= p3 + cl + (cb + post));
    lemma_piece(d, p3, cl, cb + post);
    assert(d[o2] == cl[0] && d[o2 + 1] == cl[1]);
    bytes::lemma_be16_roundtrip(cb.len() as u16);
    assert(d =~= p4 + cb + post);
    lemma_piece(d, p4, cb, post);
    text::lemma_text_of_encoding(m.content);
    let o3 = p5.len() as int;
    assert(d.subrange(o3, d.len() as int) =~= ob + rb + extra);
    lemma_message_options_layout(d, o3, m, extra);
}

impl BitchatMessage {
    fn decode_head(data: &[u8]) -> (r: Result<(MessageFlags, u64, [u8; 16], usize), String>)
        ensures
            match message_head(data@) {
                Ok((f, ts, id, off)) => r matches Ok((f2, ts2, id2, off2)) && f2@ == f && ts2 == ts
                    && id2@ == id && off2 == off && off2 <= data@.len(),
                Err(t) => r matches Err(e) && e@ == t,
            },
            forall|m: MessageView, extra: Seq<u8>|
                #![trigger message_bytes(m) + extra]
                message_wf(m) && data@ == message_bytes(m) + extra ==> ids::spec_uuid_parse(
                    ids::hyphenated(m.id),
                ) == ids::parsed_bytes(m.id),
    {
        if data.len() == 0 {
            proof {
                assert forall|m: MessageView, extra: Seq<u8>|
                    #![trigger message_bytes(m) + extra]
                    message_wf(m) && data@ == message_bytes(m) + extra implies false by {
                    lemma_message_layout(m, extra);
                }
            }
            return Err(String::from_str("Cannot decode empty message"));
        }
        let flags = MessageFlags::from_bits_truncate(data[0]);
        if data.len() < 9 {
            proof {
                assert forall|m: MessageView, extra: Seq<u8>|
                    #![trigger message_bytes(m) + extra]
                    message_wf(m) && data@ == message_bytes(m) + extra implies false by {
                    lemma_message_layout(m, extra);
                }
            }
            return Err(String::from_str("Data too short for timestamp"));
        }
        let timestamp = read_be64(data, 1);
        let (start, end) = match read_short(data, 9) {
            Ok(p) => p,
            Err(cut) => {
                proof {
                    assert forall|m: MessageView, extra: Seq<u8>|
                        #![trigger message_bytes(m) + extra]
                        message_wf(m) && data@ == message_bytes(m) + extra implies false by {
                        lemma_message_layout(m, extra);
                    }
                }
                if cut {
                    return Err(String::from_str("Data too short for ID"));
                } else {
                    return Err(String::from_str("Data too short for ID length"));
                }
            },
        };
        let id_text = decode_text(vstd::slice::slice_subrange(data, start, end));
        let id = match uuid_parse_str(id_text.as_str()) {
            Ok(id) => id,
            Err(e) => {
                proof {
                    assert forall|m: MessageView, extra: Seq<u8>|
                        #![trigger message_bytes(m) + extra]
                        message_wf(m) && data@ == message_bytes(m) + extra implies false by {
                        lemma_message_layout(m, extra);
                        assert(id_text@ == ids::hyphenated(m.id));
                    }
                }
                let mut msg = String::from_str("UUID parse error: ");
                msg.append(e.as_str());
                return Err(msg);
            },
        };
        proof {
            assert forall|m: MessageView, extra: Seq<u8>|
                #![trigger message_bytes(m) + extra]
                message_wf(m) && data@ == message_bytes(m) + extra implies ids::spec_uuid_parse(
                    ids::hyphenated(m.id),
                ) == ids::parsed_bytes(m.id) by {
                lemma_message_layout(m, extra);
                assert(id_text@ == ids::hyphenated(m.id));
            }
        }
        Ok((flags, timestamp, id, end))
    }

    fn decode_recipient(data: &[u8], flags: MessageFlags, off: usize) -> (r: Result<
        Option<String>,
        String,
    >)
        requires
            off <= data@.len(),
        ensures
            match message_recipient(data@, flags@, off as int) {
                Ok(o) => r matches Ok(o2) && opt_text_view(o2) == o,
                Err(t) => r matches Err(e) && e@ == t,
            },
    {
        if flags.contains(MessageFlags::has_recipient_nickname()) {
            match read_short_text(data, off) {
                Ok((t, _)) => Ok(Some(t)),
                Err(cut) => if cut {
                    Err(String::from_str("Data too short for recipient_nickname"))
                } else {
                    Err(String::from_str("Data too short for recipient_nickname length"))
                },
            }
        } else {
            Ok(None)
        }
    }

    fn decode_options(data: &[u8], flags: MessageFlags, off: usize) -> (r: Result<
        (Option<String>, Option<String>),
        String,
    >)
        requires
            off <= data@.len(),
        ensures
            match message_options(data@, flags@, off as int) {
                Ok((o, n)) => r matches Ok((o2, n2)) && opt_text_view(o2) == o && opt_text_view(n2)
                    == n,
                Err(t) => r matches Err(e) && e@ == t,
            },
    {
        let mut next = off;
        let mut original_sender: Option<String> = None;
        if flags.contains(MessageFlags::has_original_sender()) {
            match read_short_text(data, off) {
                Ok((t, end)) => {
                    original_sender = Some(t);
                    next = end;
                },
                Err(cut) => {
                    if cut {
                        return Err(String::from_str("Data too short for original_sender"));
                    } else {
                        return Err(String::from_str("Data too short for original_sender length"));
                    }
                },
            }
        }
        match Self::decode_recipient(data, flags, next) {
            Ok(r) => Ok((original_sender, r)),
            Err(e) => Err(e),
        }
    }

    fn decode_body(data: &[u8], flags: MessageFlags, off: usize) -> (r: Result<
        (String, String, Option<String>, Option<String>),
        String,
    >)
        requires
            off <= data@.len(),
        ensures
            match message_body(data@, flags@, off as int) {
                Ok((s, c, o, n)) => r matches Ok((s2, c2, o2, n2)) && s2@ == s && c2@ == c
                    && opt_text_view(o2) == o && opt_text_view(n2) == n,
                Err(t) => r matches Err(e) && e@ == t,
            },
    {
        let (sender, o2) = match read_short_text(data, off) {
            Ok(p) => p,
            Err(cut) => {
                if cut {
                    return Err(String::from_str("Data too short for sender"));
                } else {
                    return Err(String::from_str("Data too short for sender length"));
                }
            },
        };
        if data.len() - o2 < 2 {
            return Err(String::from_str("Data too short for content length"));
        }
        let content_len = read_be16(data, o2) as usize;
        if data.len() - o2 - 2 < content_len {
            return Err(String::from_str("Data too short for content"));
        }
        let start = o2 + 2;
        let end = start + content_len;
        let content = decode_text(vstd::slice::slice_subrange(data, start, end));
        match Self::decode_options(data, flags, end) {
            Ok((o, n)) => Ok((sender, content, o, n)),
            Err(e) => Err(e),
        }
    }

    /// Parses a chat message. On a well-formed message's encoding, with any bytes
    /// after it, the message comes back unchanged.
    pub fn from_bytes(data: &[u8]) -> (r: Result<BitchatMessage, String>)
        ensures
            match parse_message(data@) {
                Ok(v) => r matches Ok(m) && m@ == v,
                Err(t) => r matches Err(e) && e@ == t,
            },
            forall|m: MessageView, extra: Seq<u8>|
                #![trigger message_bytes(m) + extra]
                message_wf(m) && data@ == message_bytes(m) + extra ==> (r matches Ok(x) && x@ == m),
    {
        let (flags, timestamp, id, off) = match Self::decode_head(data) {
            Ok(h) => h,
            Err(e) => {
                proof {
                    assert forall|m: MessageView, extra: Seq<u8>|
                        #![trigger message_bytes(m) + extra]
                        message_wf(m) && data@ == message_bytes(m) + extra implies false by {
                        lemma_message_layout(m, extra);
                    }
                }
                return Err(e);
            },
        };
        let (sender, content, original_sender, recipient_nickname) = match Self::decode_body(
            data,
            flags,
            off,
        ) {
            Ok(b) => b,
            Err(e) => {
                proof {
                    assert forall|m: MessageView, extra: Seq<u8>|
                        #![trigger message_bytes(m) + extra]
                        message_wf(m) && data@ == message_bytes(m) + extra implies false by {
                        lemma_message_layout(m, extra);
                    }
                }
                return Err(e);
            },
        };
        let msg = BitchatMessage {
            flags,
            timestamp,
            id,
            sender,
            content,
            original_sender,
            recipient_nickname,
        };
        proof {
            assert forall|m: MessageView, extra: Seq<u8>|
                #![trigger message_bytes(m) + extra]
                message_wf(m) && data@ == message_bytes(m) + extra implies msg@ == m by {
                lemma_message_layout(m, extra);
            }
        }
        Ok(msg)
    }
}

} // verus!
