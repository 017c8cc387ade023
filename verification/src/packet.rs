//! The broker <-> slave wire codec.
//!
//! A frame is a fixed 10-byte big-endian header followed by the payload:
//! one packet-kind byte, a 32-bit session id, one command-kind byte
//! (zero for data frames), a 32-bit payload length, then the payload.
use vstd::prelude::*;

verus! {

/// Capacity of a pooled buffer and the largest whole frame accepted.
pub const MAX_BUF_SIZE: usize = 8192;

/// Bytes in a frame header.
pub const HEADER_LEN: usize = 10;

/// Largest payload length the decoder accepts: MAX_BUF_SIZE - HEADER_LEN.
pub const MAX_PAYLOAD_LEN: usize = 8182;

#[derive(Debug, Clone, Copy, PartialEq, Eq, Structural)]
pub enum PacketType {
    Data,
    Command,
}

#[derive(Debug, Clone, Copy, PartialEq, Eq, Structural)]
pub enum CommandType {
    SpeedCheck,
    VersionCheck,
    Heartbeat,
    LocationCheck,
    InitSession,
}

impl PacketType {
    pub open spec fn spec_to_u8(self) -> u8 {
        match self {
            PacketType::Data => 0x00,
            PacketType::Command => 0x01,
        }
    }

    pub open spec fn spec_from_u8(value: u8) -> Option<PacketType> {
        if value == 0x00 {
            Some(PacketType::Data)
        } else if value == 0x01 {
            Some(PacketType::Command)
        } else {
            None
        }
    }

    pub fn to_u8(self) -> (r: u8)
        ensures
            r == self.spec_to_u8(),
    {
        match self {
            PacketType::Data => 0x00,
            PacketType::Command => 0x01,
        }
    }

    pub fn from_u8(value: u8) -> (r: Option<PacketType>)
        ensures
            r == PacketType::spec_from_u8(value),
    {
        match value {
            0x00 => Some(PacketType::Data),
            0x01 => Some(PacketType::Command),
            _ => None,
        }
    }
}

impl CommandType {
    pub open spec fn spec_to_u8(self) -> u8 {
        match self {
            CommandType::SpeedCheck => 0x01,
            CommandType::VersionCheck => 0x02,
            CommandType::Heartbeat => 0x03,
            CommandType::LocationCheck => 0x04,
            CommandType::InitSession => 0x05,
        }
    }

    pub open spec fn spec_from_u8(value: u8) -> Option<CommandType> {
        if value == 0x01 {
            Some(CommandType::SpeedCheck)
        } else if value == 0x02 {
            Some(CommandType::VersionCheck)
        } else if value == 0x03 {
            Some(CommandType::Heartbeat)
        } else if value == 0x04 {
            Some(CommandType::LocationCheck)
        } else if value == 0x05 {
            Some(CommandType::InitSession)
        } else {
            None
        }
    }

    pub fn to_u8(self) -> (r: u8)
        ensures
            r == self.spec_to_u8(),
    {
        match self {
            CommandType::SpeedCheck => 0x01,
            CommandType::VersionCheck => 0x02,
            CommandType::Heartbeat => 0x03,
            CommandType::LocationCheck => 0x04,
            CommandType::InitSession => 0x05,
        }
    }

    pub fn from_u8(value: u8) -> (r: Option<CommandType>)
        ensures
            r == CommandType::spec_from_u8(value),
    {
        match value {
            0x01 => Some(CommandType::SpeedCheck),
            0x02 => Some(CommandType::VersionCheck),
            0x03 => Some(CommandType::Heartbeat),
            0x04 => Some(CommandType::LocationCheck),
            0x05 => Some(CommandType::InitSession),
            _ => None,
        }
    }
}

/// The four big-endian bytes of a 32-bit value, most significant first.
pub open spec fn u32_be(x: u32) -> Seq<u8> {
    seq![(x >> 24) as u8, (x >> 16) as u8, (x >> 8) as u8, x as u8]
}

/// The 32-bit value read from four big-endian bytes.
pub open spec fn u32_of_be(b0: u8, b1: u8, b2: u8, b3: u8) -> u32 {
    ((b0 as u32) << 24) | ((b1 as u32) << 16) | ((b2 as u32) << 8) | (b3 as u32)
}

pub proof fn lemma_u32_be_roundtrip(x: u32)
    ensures
        u32_of_be(u32_be(x)[0], u32_be(x)[1], u32_be(x)[2], u32_be(x)[3]) == x,
{
    assert((((x >> 24) as u8 as u32) << 24) | (((x >> 16) as u8 as u32) << 16) | (((x >> 8)
        as u8 as u32) << 8) | ((x as u8) as u32) == x) by (bit_vector);
}

/// The command byte written at offset 5: the command kind, or zero for data.
pub open spec fn cmd_byte(command: Option<CommandType>) -> u8 {
    match command {
        Some(c) => c.spec_to_u8(),
        None => 0x00,
    }
}

/// The wire bytes of one frame.
pub open spec fn spec_frame_bytes(
    kind: PacketType,
    session_id: u32,
    command: Option<CommandType>,
    payload: Seq<u8>,
) -> Seq<u8> {
    seq![kind.spec_to_u8()] + u32_be(session_id) + seq![cmd_byte(command)] + u32_be(
        payload.len() as u32,
    ) + payload
}

/// Appends the four big-endian bytes of `x`.
fn push_u32_be(v: &mut Vec<u8>, x: u32)
    requires
        old(v)@.len() + 4 <= usize::MAX,
    ensures
        final(v)@ =~= old(v)@ + u32_be(x),
{
    v.push((x >> 24) as u8);
    v.push((x >> 16) as u8);
    v.push((x >> 8) as u8);
    v.push(x as u8);
}

/// Encodes one frame for a single write.
fn build_command_frame(
    packet_type: PacketType,
    session_id: u32,
    command_type: Option<CommandType>,
    payload: &[u8],
) -> (r: Vec<u8>)
    requires
        payload@.len() <= MAX_PAYLOAD_LEN,
    ensures
        r@ =~= spec_frame_bytes(packet_type, session_id, command_type, payload@),
        r@.len() == HEADER_LEN + payload@.len(),
{
    let mut frame: Vec<u8> = Vec::new();
    frame.push(packet_type.to_u8());
    push_u32_be(&mut frame, session_id);
    match command_type {
        Some(c) => frame.push(c.to_u8()),
        None => frame.push(0x00),
    }
    push_u32_be(&mut frame, payload.len() as u32);
    let mut i: usize = 0;
    while i < payload.len()
        invariant
            i <= payload@.len(),
            payload@.len() <= MAX_PAYLOAD_LEN,
            frame@ =~= seq![packet_type.spec_to_u8()] + u32_be(session_id) + seq![cmd_byte(
                command_type,
            )] + u32_be(payload@.len() as u32) + payload@.subrange(0, i as int),
        decreases payload@.len() - i,
    {
        frame.push(payload[i]);
        i = i + 1;
    }
    proof {
        assert(payload@.subrange(0, payload@.len() as int) =~= payload@);
    }
    frame
}

/// Encodes a speed-test command asking the slave to fetch `url`.
pub fn build_speed_test_command(url: &[u8]) -> (r: Vec<u8>)
    requires
        url@.len() <= MAX_PAYLOAD_LEN,
    ensures
        r@ =~= spec_frame_bytes(PacketType::Command, 0, Some(CommandType::SpeedCheck), url@),
{
    build_command_frame(PacketType::Command, 0, Some(CommandType::SpeedCheck), url)
}

/// Encodes a version-check command with an empty payload.
pub fn build_version_check_command() -> (r: Vec<u8>)
    ensures
        r@ =~= spec_frame_bytes(
            PacketType::Command,
            0,
            Some(CommandType::VersionCheck),
            Seq::<u8>::empty(),
        ),
{
    let payload: [u8; 0] = [];
    proof {
        assert(payload@ =~= Seq::<u8>::empty());
    }
    build_command_frame(PacketType::Command, 0, Some(CommandType::VersionCheck), &payload)
}

/// Encodes a heartbeat command with an empty payload.
pub fn build_heartbeat_command() -> (r: Vec<u8>)
    ensures
        r@ =~= spec_frame_bytes(
            PacketType::Command,
            0,
            Some(CommandType::Heartbeat),
            Seq::<u8>::empty(),
        ),
{
    let payload: [u8; 0] = [];
    proof {
        assert(payload@ =~= Seq::<u8>::empty());
    }
    build_command_frame(PacketType::Command, 0, Some(CommandType::Heartbeat), &payload)
}

/// Encodes an init-session command whose payload is the target `host:port`.
pub fn build_init_session_command(session_id: u32, payload: &[u8]) -> (r: Vec<u8>)
    requires
        payload@.len() <= MAX_PAYLOAD_LEN,
    ensures
        r@ =~= spec_frame_bytes(
            PacketType::Command,
            session_id,
            Some(CommandType::InitSession),
            payload@,
        ),
{
    build_command_frame(PacketType::Command, session_id, Some(CommandType::InitSession), payload)
}

/// Encodes a location-check command carrying the lookup URL for `ip`.
pub fn build_location_check_command(ip: &[u8]) -> (r: Vec<u8>)
    requires
        ip@.len() + 30 <= MAX_PAYLOAD_LEN,
    ensures
        r@ =~= spec_frame_bytes(
            PacketType::Command,
            0,
            Some(CommandType::LocationCheck),
            location_url_prefix() + ip@,
        ),
{
    let prefix: [u8; 30] = [
        104, 116, 116, 112, 115, 58, 47, 47, 105, 112, 105, 110, 102, 111, 46, 105, 111, 47, 119,
        105, 100, 103, 101, 116, 47, 100, 101, 109, 111, 47,
    ];
    proof {
        assert(prefix@ =~= location_url_prefix());
    }
    let mut payload: Vec<u8> = Vec::new();
    let mut i: usize = 0;
    while i < 30
        invariant
            i <= prefix@.len(),
            prefix@ =~= location_url_prefix(),
            payload@ =~= prefix@.subrange(0, i as int),
        decreases prefix@.len() - i,
    {
        payload.push(prefix[i]);
        i = i + 1;
    }
    proof {
        assert(prefix@.subrange(0, prefix@.len() as int) =~= prefix@);
    }
    let mut j: usize = 0;
    while j < ip.len()
        invariant
            j <= ip@.len(),
            ip@.len() + 30 <= MAX_PAYLOAD_LEN,
            payload@ =~= location_url_prefix() + ip@.subrange(0, j as int),
        decreases ip@.len() - j,
    {
        payload.push(ip[j]);
        j = j + 1;
    }
    proof {
        assert(ip@.subrange(0, ip@.len() as int) =~= ip@);
        assert(location_url_prefix() + ip@.subrange(0, ip@.len() as int) =~= location_url_prefix()
            + ip@);
    }
    build_command_frame(PacketType::Command, 0, Some(CommandType::LocationCheck), payload.as_slice())
}

/// The constant prefix of the geolocation lookup URL.
pub open spec fn location_url_prefix() -> Seq<u8> {
    seq![
        104u8, 116u8, 116u8, 112u8, 115u8, 58u8, 47u8, 47u8, 105u8, 112u8, 105u8, 110u8, 102u8,
        111u8, 46u8, 105u8, 111u8, 47u8, 119u8, 105u8, 100u8, 103u8, 101u8, 116u8, 47u8, 100u8,
        101u8, 109u8, 111u8, 47u8,
    ]
}

/// Encodes a data frame bound for or coming from a session.
pub fn build_data_frame(session_id: u32, payload: &[u8]) -> (r: Vec<u8>)
    requires
        payload@.len() <= MAX_PAYLOAD_LEN,
    ensures
        r@ =~= spec_frame_bytes(PacketType::Data, session_id, None, payload@),
{
    build_command_frame(PacketType::Data, session_id, None, payload)
}

/// Reads the fixed header fields out of `buffer`, as the reader task does
/// before pulling the payload: packet kind, session id, payload length,
/// and the command kind (only meaningful for command frames).
pub fn parse_header(buffer: &[u8]) -> (r: (Option<PacketType>, u32, usize, Option<CommandType>))
    ensures
        buffer@.len() < HEADER_LEN ==> r == (
            None::<PacketType>,
            0u32,
            0usize,
            None::<CommandType>,
        ),
        buffer@.len() >= HEADER_LEN ==> {
            &&& r.0 == PacketType::spec_from_u8(buffer@[0])
            &&& r.1 == u32_of_be(buffer@[1], buffer@[2], buffer@[3], buffer@[4])
            &&& r.2 == u32_of_be(buffer@[6], buffer@[7], buffer@[8], buffer@[9]) as usize
            &&& r.3 == (if PacketType::spec_from_u8(buffer@[0]) == Some(PacketType::Command) {
                CommandType::spec_from_u8(buffer@[5])
            } else {
                None::<CommandType>
            })
        },
{
    if buffer.len() < HEADER_LEN {
        return (None, 0, 0, None);
    }
    let packet_type = PacketType::from_u8(buffer[0]);
    let session_id = read_u32_be(buffer[1], buffer[2], buffer[3], buffer[4]);
    let payload_len = read_u32_be(buffer[6], buffer[7], buffer[8], buffer[9]) as usize;
    let command_type = match packet_type {
        Some(PacketType::Command) => CommandType::from_u8(buffer[5]),
        _ => None,
    };
    (packet_type, session_id, payload_len, command_type)
}

/// Assembles a 32-bit value from four big-endian bytes.
fn read_u32_be(b0: u8, b1: u8, b2: u8, b3: u8) -> (r: u32)
    ensures
        r == u32_of_be(b0, b1, b2, b3),
{
    ((b0 as u32) << 24) | ((b1 as u32) << 16) | ((b2 as u32) << 8) | (b3 as u32)
}

/// One decoded frame.
pub struct Frame {
    pub kind: PacketType,
    pub session_id: u32,
    pub command: Option<CommandType>,
    pub payload: Vec<u8>,
}

/// The mathematical shape of a frame, used by the contracts.
pub struct FrameModel {
    pub kind: PacketType,
    pub session_id: u32,
    pub command: Option<CommandType>,
    pub payload: Seq<u8>,
}

impl Frame {
    pub open spec fn model(self) -> FrameModel {
        FrameModel {
            kind: self.kind,
            session_id: self.session_id,
            command: self.command,
            payload: self.payload@,
        }
    }
}

impl FrameModel {
    /// A frame the encoder can produce: the payload fits, data frames carry
    /// no command kind, command frames carry one.
    pub open spec fn wf(self) -> bool {
        &&& self.payload.len() <= MAX_PAYLOAD_LEN
        &&& (self.kind == PacketType::Data ==> self.command is None)
        &&& (self.kind == PacketType::Command ==> self.command is Some)
    }

    pub open spec fn wire(self) -> Seq<u8> {
        spec_frame_bytes(self.kind, self.session_id, self.command, self.payload)
    }
}

/// A header that can never begin a frame: the packet-kind byte is
/// unrecognized, or the declared payload length exceeds the cap.
pub open spec fn spec_frame_invalid(b: Seq<u8>) -> bool {
    b.len() >= HEADER_LEN && (PacketType::spec_from_u8(b[0]) is None || u32_of_be(
        b[6],
        b[7],
        b[8],
        b[9],
    ) > MAX_PAYLOAD_LEN as u32)
}

/// The first whole frame at the head of `b` and the bytes it occupies;
/// `None` when the head is invalid or more bytes are needed.
pub open spec fn spec_decode_first(b: Seq<u8>) -> Option<(FrameModel, int)> {
    if b.len() < HEADER_LEN {
        None
    } else {
        let kind = PacketType::spec_from_u8(b[0]);
        let len = u32_of_be(b[6], b[7], b[8], b[9]) as int;
        if kind is None || len > MAX_PAYLOAD_LEN as int || b.len() < HEADER_LEN + len {
            None
        } else {
            Some(
                (
                    FrameModel {
                        kind: kind->0,
                        session_id: u32_of_be(b[1], b[2], b[3], b[4]),
                        command: if kind == Some(PacketType::Command) {
                            CommandType::spec_from_u8(b[5])
                        } else {
                            None
                        },
                        payload: b.subrange(HEADER_LEN as int, HEADER_LEN + len),
                    },
                    HEADER_LEN + len,
                ),
            )
        }
    }
}

/// What the decoder says of a byte buffer.
pub enum Decoded {
    /// The buffer holds no whole frame yet.
    NeedsMore,
    /// The buffer can never hold a frame; the caller closes the stream.
    Invalid,
    /// One whole frame, and the count of bytes it occupied.
    Ready { frame: Frame, consumed: usize },
}

/// Decodes the frame at the head of `buffer`, if a whole one has arrived.
/// An over-long declared payload is refused from the header alone, before
/// any payload byte is copied.
pub fn decode_frame(buffer: &[u8]) -> (r: Decoded)
    ensures
        (r is Invalid) <==> spec_frame_invalid(buffer@),
        (r is Ready) <==> spec_decode_first(buffer@) is Some,
        (r matches Decoded::Ready { frame, consumed } ==> spec_decode_first(buffer@) == Some(
            (frame.model(), consumed as int),
        )),
{
    if buffer.len() < HEADER_LEN {
        return Decoded::NeedsMore;
    }
    let (kind_opt, session_id, payload_len, command) = parse_header(buffer);
    let kind = match kind_opt {
        Some(k) => k,
        None => {
            return Decoded::Invalid;
        },
    };
    if payload_len > MAX_PAYLOAD_LEN {
        return Decoded::Invalid;
    }
    if buffer.len() - HEADER_LEN < payload_len {
        return Decoded::NeedsMore;
    }
    let mut payload: Vec<u8> = Vec::new();
    let mut i: usize = 0;
    while i < payload_len
        invariant
            i <= payload_len,
            payload_len <= MAX_PAYLOAD_LEN,
            HEADER_LEN + payload_len <= buffer@.len(),
            payload@ =~= buffer@.subrange(HEADER_LEN as int, HEADER_LEN + i as int),
        decreases payload_len - i,
    {
        payload.push(buffer[HEADER_LEN + i]);
        i = i + 1;
    }
    Decoded::Ready {
        frame: Frame { kind, session_id, command, payload },
        consumed: HEADER_LEN + payload_len,
    }
}

/// Decodes `b` as a back-to-back run of whole frames; `None` when the
/// bytes are not exactly such a run.
pub open spec fn spec_decode_all(b: Seq<u8>) -> Option<Seq<FrameModel>>
    decreases b.len(),
{
    if b.len() == 0 {
        Some(Seq::<FrameModel>::empty())
    } else if spec_decode_first(b) is None {
        None
    } else {
        let (f, n) = spec_decode_first(b)->0;
        if n <= 0 || n > b.len() {
            None
        } else {
            match spec_decode_all(b.skip(n)) {
                None => None,
                Some(fs) => Some(seq![f] + fs),
            }
        }
    }
}

/// The single write stream carrying the frames `fs` back to back.
pub open spec fn spec_encode_all(fs: Seq<FrameModel>) -> Seq<u8>
    decreases fs.len(),
{
    if fs.len() == 0 {
        Seq::<u8>::empty()
    } else {
        fs[0].wire() + spec_encode_all(fs.skip(1))
    }
}

/// Decoding the head of a frame's wire bytes, whatever follows them,
/// yields that frame and consumes exactly its bytes.
pub proof fn lemma_decode_first_wire(f: FrameModel, rest: Seq<u8>)
    requires
        f.wf(),
    ensures
        spec_decode_first(f.wire() + rest) == Some(
            (f, HEADER_LEN + f.payload.len() as int),
        ),
        (f.wire() + rest).skip(HEADER_LEN + f.payload.len() as int) =~= rest,
{
    let b = f.wire() + rest;
    let w = f.wire();
    let len = f.payload.len() as int;
    assert(w.len() == HEADER_LEN + len);
    assert(b[0] == f.kind.spec_to_u8());
    assert(b[1] == u32_be(f.session_id)[0]);
    assert(b[2] == u32_be(f.session_id)[1]);
    assert(b[3] == u32_be(f.session_id)[2]);
    assert(b[4] == u32_be(f.session_id)[3]);
    assert(b[5] == cmd_byte(f.command));
    assert(b[6] == u32_be(len as u32)[0]);
    assert(b[7] == u32_be(len as u32)[1]);
    assert(b[8] == u32_be(len as u32)[2]);
    assert(b[9] == u32_be(len as u32)[3]);
    lemma_u32_be_roundtrip(f.session_id);
    lemma_u32_be_roundtrip(len as u32);
    assert(PacketType::spec_from_u8(b[0]) == Some(f.kind));
    assert(f.kind == PacketType::Command ==> CommandType::spec_from_u8(b[5]) == f.command);
    assert(b.subrange(HEADER_LEN as int, HEADER_LEN + len) =~= f.payload);
    let d = spec_decode_first(b)->0;
    assert(d.0 == f);
    assert(b.skip(HEADER_LEN + len) =~= rest);
}

/// Framing round trip: any run of well-formed frames, written back to back
/// and re-read byte for byte, comes out exactly and in order.  Chunk
/// boundaries cannot matter: a reader only ever concatenates what arrives.
#[verifier::rlimit(60)]
pub proof fn lemma_frames_roundtrip(fs: Seq<FrameModel>)
    requires
        forall|i: int| 0 <= i < fs.len() ==> #[trigger] fs[i].wf(),
    ensures
        spec_decode_all(spec_encode_all(fs)) == Some(fs),
    decreases fs.len(),
{
    if fs.len() == 0 {
        assert(spec_encode_all(fs).len() == 0);
        assert(spec_decode_all(spec_encode_all(fs)) == Some(fs)) by {
            assert(Seq::<FrameModel>::empty() =~= fs);
        }
    } else {
        let rest = spec_encode_all(fs.skip(1));
        let b = spec_encode_all(fs);
        assert(b == fs[0].wire() + rest);
        lemma_decode_first_wire(fs[0], rest);
        assert(forall|i: int| 0 <= i < fs.skip(1).len() ==> #[trigger] fs.skip(1)[i].wf());
        lemma_frames_roundtrip(fs.skip(1));
        let n = HEADER_LEN + fs[0].payload.len() as int;
        assert(b.len() >= n);
        assert(b.skip(n) =~= rest);
        assert(spec_decode_all(b) == Some(seq![fs[0]] + fs.skip(1)));
        assert(seq![fs[0]] + fs.skip(1) =~= fs);
    }
}

/// Accumulates the bytes of one slave's read stream and hands back whole
/// frames; what arrives in which chunk cannot change what comes out.
pub struct FrameReader {
    pub pending: Vec<u8>,
}

impl FrameReader {
    pub fn new() -> (r: FrameReader)
        ensures
            r.pending@ =~= Seq::<u8>::empty(),
    {
        FrameReader { pending: Vec::new() }
    }

    /// Appends one chunk, exactly as it came off the socket.
    pub fn feed(&mut self, chunk: &[u8])
        requires
            old(self).pending@.len() + chunk@.len() <= usize::MAX,
        ensures
            final(self).pending@ =~= old(self).pending@ + chunk@,
    {
        let mut i: usize = 0;
        let ghost start = self.pending@;
        while i < chunk.len()
            invariant
                i <= chunk@.len(),
                start.len() + chunk@.len() <= usize::MAX,
                self.pending@ =~= start + chunk@.subrange(0, i as int),
            decreases chunk@.len() - i,
        {
            self.pending.push(chunk[i]);
            i = i + 1;
        }
        proof {
            assert(chunk@.subrange(0, chunk@.len() as int) =~= chunk@);
        }
    }

    /// Takes the frame at the head of the pending bytes, if whole; on
    /// `Ready` those bytes are consumed, otherwise nothing changes.
    pub fn poll(&mut self) -> (r: Decoded)
        ensures
            (r is Invalid) <==> spec_frame_invalid(old(self).pending@),
            (r is Ready) <==> spec_decode_first(old(self).pending@) is Some,
            (r matches Decoded::Ready { frame, consumed } ==> {
                &&& spec_decode_first(old(self).pending@) == Some(
                    (frame.model(), consumed as int),
                )
                &&& final(self).pending@ =~= old(self).pending@.skip(consumed as int)
            }),
            !(r is Ready) ==> final(self).pending@ =~= old(self).pending@,
    {
        let r = decode_frame(self.pending.as_slice());
        if let Decoded::Ready { frame, consumed } = r {
            let mut remainder: Vec<u8> = Vec::new();
            let mut i: usize = consumed;
            while i < self.pending.len()
                invariant
                    consumed <= i <= self.pending@.len(),
                    remainder@ =~= self.pending@.subrange(consumed as int, i as int),
                decreases self.pending@.len() - i,
            {
                remainder.push(self.pending[i]);
                i = i + 1;
            }
            proof {
                assert(remainder@ =~= self.pending@.skip(consumed as int));
            }
            self.pending = remainder;
            Decoded::Ready { frame, consumed }
        } else {
            r
        }
    }
}

} // verus!
