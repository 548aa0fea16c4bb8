//! Per-frame input packets and their fixed-width wire encoding.

use vstd::prelude::*;

verus! {

/// Flag bit: move up.
pub const INPUT_UP: u32 = 1;
/// Flag bit: move down.
pub const INPUT_DOWN: u32 = 2;
/// Flag bit: move left.
pub const INPUT_LEFT: u32 = 4;
/// Flag bit: move right.
pub const INPUT_RIGHT: u32 = 8;
/// Flag bit: fire toward the aim point.
pub const INPUT_FIRE: u32 = 16;
/// Every flag bit that a well-formed packet may carry.
pub const INPUT_ALL: u32 = 31;

/// Size of an encoded packet: aim x, aim y and the flag word, four bytes each.
pub const PACKET_BYTES: usize = 12;

/// One player's input for one frame.
///
/// The aim point is in thousandths of a world unit; it is meaningful only
/// when the fire flag is set, and zero otherwise.
#[derive(Clone, Copy, Debug, PartialEq, Eq, Structural)]
pub struct Packet {
    pub aim_x: i32,
    pub aim_y: i32,
    pub input: u32,
}

/// The raw control state of one player at the moment it is sampled.
#[derive(Clone, Copy, Debug, PartialEq, Eq, Structural)]
pub struct Controls {
    pub up: bool,
    pub down: bool,
    pub left: bool,
    pub right: bool,
    pub fire: bool,
    pub aim_x: i32,
    pub aim_y: i32,
}

/// Why a byte string is not a packet.
#[derive(Clone, Copy, Debug, PartialEq, Eq, Structural)]
pub enum CodecError {
    /// The byte string is not exactly twelve bytes long.
    WrongLength,
    /// The flag word holds bits that no control sets.
    UnknownFlags,
}

pub open spec fn has_flag(input: u32, flag: u32) -> bool {
    input & flag != 0
}

/// A packet that some control state encodes to.
pub open spec fn packet_wf(p: Packet) -> bool {
    &&& p.input & !INPUT_ALL == 0
    &&& !has_flag(p.input, INPUT_FIRE) ==> p.aim_x == 0 && p.aim_y == 0
}

/// A control state that sampling can produce: the aim is recorded only while
/// firing.
pub open spec fn controls_reachable(c: Controls) -> bool {
    !c.fire ==> c.aim_x == 0 && c.aim_y == 0
}

pub open spec fn flag_word(c: Controls) -> u32 {
    (if c.up { INPUT_UP } else { 0u32 }) | (if c.down { INPUT_DOWN } else { 0u32 }) | (if c.left {
        INPUT_LEFT
    } else {
        0u32
    }) | (if c.right { INPUT_RIGHT } else { 0u32 }) | (if c.fire { INPUT_FIRE } else { 0u32 })
}

/// The packet that a control state encodes to: each pressed control sets its
/// flag, and the aim is carried only when firing.
pub open spec fn packet_of(c: Controls) -> Packet {
    Packet {
        aim_x: if c.fire { c.aim_x } else { 0 },
        aim_y: if c.fire { c.aim_y } else { 0 },
        input: flag_word(c),
    }
}

/// The control state that a packet stands for.
pub open spec fn controls_of(p: Packet) -> Controls {
    Controls {
        up: has_flag(p.input, INPUT_UP),
        down: has_flag(p.input, INPUT_DOWN),
        left: has_flag(p.input, INPUT_LEFT),
        right: has_flag(p.input, INPUT_RIGHT),
        fire: has_flag(p.input, INPUT_FIRE),
        aim_x: p.aim_x,
        aim_y: p.aim_y,
    }
}

pub open spec fn le_bytes(v: u32) -> Seq<u8> {
    seq![
        #[verifier::truncate] ((v & 0xff) as u8),
        #[verifier::truncate] (((v >> 8u32) & 0xff) as u8),
        #[verifier::truncate] (((v >> 16u32) & 0xff) as u8),
        #[verifier::truncate] (((v >> 24u32) & 0xff) as u8),
    ]
}

pub open spec fn le_word(b0: u8, b1: u8, b2: u8, b3: u8) -> u32 {
    (b0 as u32) | ((b1 as u32) << 8u32) | ((b2 as u32) << 16u32) | ((b3 as u32) << 24u32)
}

/// The wire form of a packet: aim x, aim y, then the flag word, each as a
/// little-endian 32-bit word (the aim components in two's complement).
pub open spec fn packet_bytes(p: Packet) -> Seq<u8> {
    le_bytes(#[verifier::truncate] (p.aim_x as u32)) + le_bytes(#[verifier::truncate] (p.aim_y as u32)) + le_bytes(p.input)
}

pub open spec fn word_at(b: Seq<u8>, i: int) -> u32 {
    le_word(b[i], b[i + 1], b[i + 2], b[i + 3])
}

/// The packet that twelve bytes hold, read as `packet_bytes` writes it.
pub open spec fn packet_from_bytes(b: Seq<u8>) -> Packet {
    Packet {
        aim_x: #[verifier::truncate] (word_at(b, 0) as i32),
        aim_y: #[verifier::truncate] (word_at(b, 4) as i32),
        input: word_at(b, 8),
    }
}

proof fn lemma_le_word(v: u32)
    ensures
        le_word(le_bytes(v)[0], le_bytes(v)[1], le_bytes(v)[2], le_bytes(v)[3]) == v,
{
    let b0 = (v & 0xff) as u8;
    let b1 = ((v >> 8u32) & 0xff) as u8;
    let b2 = ((v >> 16u32) & 0xff) as u8;
    let b3 = ((v >> 24u32) & 0xff) as u8;
    assert((b0 as u32) | ((b1 as u32) << 8u32) | ((b2 as u32) << 16u32) | ((b3 as u32) << 24u32)
        == v) by (bit_vector)
        requires
            b0 == (v & 0xff) as u8,
            b1 == ((v >> 8u32) & 0xff) as u8,
            b2 == ((v >> 16u32) & 0xff) as u8,
            b3 == ((v >> 24u32) & 0xff) as u8,
    ;
}

proof fn lemma_i32_bits(x: i32)
    ensures
        #[verifier::truncate] ((#[verifier::truncate] (x as u32)) as i32) == x,
{
    assert(#[verifier::truncate] ((#[verifier::truncate] (x as u32)) as i32) == x) by (bit_vector);
}

/// Decoding the wire form of any packet gives that packet back.
pub proof fn lemma_bytes_round_trip(p: Packet)
    ensures
        packet_bytes(p).len() == PACKET_BYTES,
        packet_from_bytes(packet_bytes(p)) == p,
{
    let b = packet_bytes(p);
    let ux = #[verifier::truncate] (p.aim_x as u32);
    let uy = #[verifier::truncate] (p.aim_y as u32);
    lemma_le_word(ux);
    lemma_le_word(uy);
    lemma_le_word(p.input);
    assert(word_at(b, 0) == ux);
    assert(word_at(b, 4) == uy);
    lemma_i32_bits(p.aim_x);
    lemma_i32_bits(p.aim_y);
    assert(word_at(b, 8) == p.input);
}

/// Every reachable control state survives encoding and decoding unchanged,
/// and what it encodes to is a well-formed packet.
pub proof fn lemma_controls_round_trip(c: Controls)
    requires
        controls_reachable(c),
    ensures
        packet_wf(packet_of(c)),
        controls_of(packet_of(c)) == c,
{
    let u = c.up;
    let d = c.down;
    let l = c.left;
    let r = c.right;
    let f = c.fire;
    let w = flag_word(c);
    assert(w == (if u { 1u32 } else { 0u32 }) | (if d { 2u32 } else { 0u32 }) | (if l { 4u32 } else {
        0u32
    }) | (if r { 8u32 } else { 0u32 }) | (if f { 16u32 } else { 0u32 }));
    assert(w & !31u32 == 0 && (w & 1 != 0) == u && (w & 2 != 0) == d && (w & 4 != 0) == l && (w & 8
        != 0) == r && (w & 16 != 0) == f) by (bit_vector)
        requires
            w == (if u { 1u32 } else { 0u32 }) | (if d { 2u32 } else { 0u32 }) | (if l {
                4u32
            } else {
                0u32
            }) | (if r { 8u32 } else { 0u32 }) | (if f { 16u32 } else { 0u32 }),
    ;
}

/// Reduces a sampled control state to its packet.
pub fn input(c: Controls) -> (p: Packet)
    ensures
        p == packet_of(c),
{
    let flags: u32 = (if c.up { INPUT_UP } else { 0u32 }) | (if c.down { INPUT_DOWN } else { 0u32 })
        | (if c.left { INPUT_LEFT } else { 0u32 }) | (if c.right { INPUT_RIGHT } else { 0u32 }) | (
    if c.fire {
        INPUT_FIRE
    } else {
        0u32
    });
    if c.fire {
        Packet { aim_x: c.aim_x, aim_y: c.aim_y, input: flags }
    } else {
        Packet { aim_x: 0, aim_y: 0, input: flags }
    }
}

fn push_word(out: &mut Vec<u8>, v: u32)
    ensures
        final(out)@ == old(out)@ + le_bytes(v),
{
    out.push((v & 0xff) as u8);
    out.push(((v >> 8u32) & 0xff) as u8);
    out.push(((v >> 16u32) & 0xff) as u8);
    out.push(((v >> 24u32) & 0xff) as u8);
    assert(final(out)@ =~= old(out)@ + le_bytes(v));
}

fn read_word(b: &Vec<u8>, i: usize) -> (r: u32)
    requires
        i <= 8,
        b@.len() == PACKET_BYTES,
    ensures
        r == word_at(b@, i as int),
{
    (b[i] as u32) | ((b[i + 1] as u32) << 8u32) | ((b[i + 2] as u32) << 16u32) | ((b[i + 3] as u32)
        << 24u32)
}

impl Packet {
    /// The packet with no flag set and a zero aim point.
    pub fn zero() -> (p: Packet)
        ensures
            p == zero_packet(),
    {
        Packet { aim_x: 0, aim_y: 0, input: 0 }
    }

    /// Writes the packet in its twelve-byte wire form.
    pub fn to_bytes(&self) -> (r: Vec<u8>)
        ensures
            r@ == packet_bytes(*self),
            r@.len() == PACKET_BYTES,
    {
        let mut out: Vec<u8> = Vec::new();
        push_word(&mut out, self.aim_x as u32);
        push_word(&mut out, self.aim_y as u32);
        push_word(&mut out, self.input);
        assert(out@ =~= packet_bytes(*self));
        out
    }

    /// Reads a packet from its wire form. Fails when the length is not twelve
    /// bytes, or when the flag word holds a bit that no control sets.
    pub fn from_bytes(b: &Vec<u8>) -> (r: Result<Packet, CodecError>)
        ensures
            b@.len() != PACKET_BYTES ==> r == Err::<Packet, CodecError>(CodecError::WrongLength),
            b@.len() == PACKET_BYTES && packet_from_bytes(b@).input & !INPUT_ALL != 0 ==> r == Err::<
                Packet,
                CodecError,
            >(CodecError::UnknownFlags),
            b@.len() == PACKET_BYTES && packet_from_bytes(b@).input & !INPUT_ALL == 0 ==> r == Ok::<
                Packet,
                CodecError,
            >(packet_from_bytes(b@)),
    {
        if b.len() != PACKET_BYTES {
            return Err(CodecError::WrongLength);
        }
        let ax = read_word(b, 0);
        let ay = read_word(b, 4);
        let flags = read_word(b, 8);
        if flags & !INPUT_ALL != 0 {
            return Err(CodecError::UnknownFlags);
        }
        Ok(Packet { aim_x: ax as i32, aim_y: ay as i32, input: flags })
    }
}

pub open spec fn zero_packet() -> Packet {
    Packet { aim_x: 0, aim_y: 0, input: 0 }
}

/// A well-formed packet written to bytes and read back is unchanged.
pub proof fn lemma_wire_round_trip(p: Packet)
    requires
        packet_wf(p),
    ensures
        packet_bytes(p).len() == PACKET_BYTES,
        packet_from_bytes(packet_bytes(p)) == p,
        packet_from_bytes(packet_bytes(p)).input & !INPUT_ALL == 0,
{
    lemma_bytes_round_trip(p);
}

} // verus!
