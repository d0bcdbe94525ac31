//! One cell's state packed into a byte.
//!
//! Bit 0 is the flag, bit 1 the revealed mark, bits 2-3 the kind and the bits
//! from 4 up the number of adjacent mines (bits 4-6 for counts below 8; a
//! count of 8 sets bit 7).
use vstd::prelude::*;

verus! {

/// What a cell holds, fixed when the mines are placed.
#[derive(Clone, Copy, PartialEq, Eq, Structural, Debug)]
pub enum Kind {
    Empty,
    Mine,
    Number,
    /// The bit pattern `0b11`, which the engine never writes.
    Reserved,
}

/// The decoded fields of one cell.
#[derive(Clone, Copy, PartialEq, Eq, Structural, Debug)]
pub struct Tile {
    pub flagged: bool,
    pub revealed: bool,
    pub kind: Kind,
    /// Mines among the eight neighbours; meaningful for `Kind::Number`.
    pub adjacent: u8,
}

/// The two bits that encode a kind.
pub open spec fn kind_bits(k: Kind) -> u8 {
    match k {
        Kind::Empty => 0,
        Kind::Mine => 1,
        Kind::Number => 2,
        Kind::Reserved => 3,
    }
}

pub open spec fn kind_from_bits(v: u8) -> Kind {
    if v == 0 {
        Kind::Empty
    } else if v == 1 {
        Kind::Mine
    } else if v == 2 {
        Kind::Number
    } else {
        Kind::Reserved
    }
}

pub open spec fn bit(b: bool) -> u8 {
    if b {
        1
    } else {
        0
    }
}

/// The fields that a byte holds.
pub open spec fn decode_spec(b: u8) -> Tile {
    Tile {
        flagged: b & 1 == 1,
        revealed: (b >> 1u8) & 1 == 1,
        kind: kind_from_bits((b >> 2u8) & 3),
        adjacent: b >> 4u8,
    }
}

/// The byte that holds the given fields.
pub open spec fn encode_spec(t: Tile) -> u8 {
    bit(t.flagged) | (bit(t.revealed) << 1u8) | (kind_bits(t.kind) << 2u8) | (t.adjacent << 4u8)
}

/// A combination of fields that the engine may write.
pub open spec fn valid_tile(t: Tile) -> bool {
    t.adjacent <= 8 && t.kind != Kind::Reserved
}

/// The tile of a freshly cleared board.
pub open spec fn zero_tile() -> Tile {
    Tile { flagged: false, revealed: false, kind: Kind::Empty, adjacent: 0 }
}

proof fn lemma_fields_of_packed(f: u8, r: u8, k: u8, a: u8, b: u8)
    requires
        f < 2,
        r < 2,
        k < 4,
        a < 16,
        b == f | (r << 1u8) | (k << 2u8) | (a << 4u8),
    ensures
        b & 1 == f,
        (b >> 1u8) & 1 == r,
        (b >> 2u8) & 3 == k,
        b >> 4u8 == a,
{
    assert(b & 1 == f && (b >> 1u8) & 1 == r && (b >> 2u8) & 3 == k && b >> 4u8 == a)
        by (bit_vector)
        requires
            f < 2,
            r < 2,
            k < 4,
            a < 16,
            b == f | (r << 1u8) | (k << 2u8) | (a << 4u8),
    ;
}

/// Decoding undoes encoding for every tile whose count fits in four bits.
pub proof fn lemma_decode_encode(t: Tile)
    requires
        t.adjacent < 16,
    ensures
        decode_spec(encode_spec(t)) == t,
{
    lemma_fields_of_packed(bit(t.flagged), bit(t.revealed), kind_bits(t.kind), t.adjacent, encode_spec(t));
}

/// Decoding then encoding any valid combination of fields gives it back.
pub proof fn lemma_round_trip(t: Tile)
    requires
        valid_tile(t),
    ensures
        decode_spec(encode_spec(t)) == t,
{
    lemma_decode_encode(t);
}

/// A decoded count always fits in four bits.
pub proof fn lemma_decoded_count_small(b: u8)
    ensures
        decode_spec(b).adjacent < 16,
{
    assert(b >> 4u8 < 16) by (bit_vector);
}

/// Encoding the fields of any byte gives the byte back.
pub proof fn lemma_encode_decode(b: u8)
    ensures
        encode_spec(decode_spec(b)) == b,
{
    let t = decode_spec(b);
    let f = bit(t.flagged);
    let r = bit(t.revealed);
    let k = kind_bits(t.kind);
    assert(f == b & 1) by {
        assert(b & 1 == 0 || b & 1 == 1) by (bit_vector);
    }
    assert(r == (b >> 1u8) & 1) by {
        assert((b >> 1u8) & 1 == 0 || (b >> 1u8) & 1 == 1) by (bit_vector);
    }
    assert(k == (b >> 2u8) & 3) by {
        assert((b >> 2u8) & 3 < 4) by (bit_vector);
    }
    assert((b & 1) | (((b >> 1u8) & 1) << 1u8) | (((b >> 2u8) & 3) << 2u8) | ((b >> 4u8) << 4u8)
        == b) by (bit_vector);
}

/// The zero byte is the cleared tile.
pub proof fn lemma_zero_byte()
    ensures
        decode_spec(0) == zero_tile(),
{
    assert(0u8 & 1 == 0 && (0u8 >> 1u8) & 1 == 0 && (0u8 >> 2u8) & 3 == 0 && 0u8 >> 4u8 == 0)
        by (bit_vector);
}

/// Unpacks a byte into its fields.
pub fn decode(b: u8) -> (t: Tile)
    ensures
        t == decode_spec(b),
{
    let k = (b >> 2u8) & 3;
    let kind = if k == 0 {
        Kind::Empty
    } else if k == 1 {
        Kind::Mine
    } else if k == 2 {
        Kind::Number
    } else {
        Kind::Reserved
    };
    Tile { flagged: b & 1 == 1, revealed: (b >> 1u8) & 1 == 1, kind, adjacent: b >> 4u8 }
}

/// Packs fields into a byte; a count of 16 or more does not fit.
pub fn encode(t: Tile) -> (b: u8)
    requires
        t.adjacent < 16,
    ensures
        b == encode_spec(t),
        decode_spec(b) == t,
{
    proof {
        lemma_decode_encode(t);
    }
    let f: u8 = if t.flagged { 1 } else { 0 };
    let r: u8 = if t.revealed { 1 } else { 0 };
    let k: u8 = match t.kind {
        Kind::Empty => 0,
        Kind::Mine => 1,
        Kind::Number => 2,
        Kind::Reserved => 3,
    };
    f | (r << 1u8) | (k << 2u8) | (t.adjacent << 4u8)
}

} // verus!
