//! Object ids and commit times.

use vstd::prelude::*;

verus! {

/// The content hash that names a commit, a snapshot or a piece of content:
/// 160 bits, most significant word first.
#[derive(Clone, Copy, Debug, PartialEq, Eq, Hash, Structural)]
pub struct ObjectId {
    pub hi: u64,
    pub mid: u64,
    pub lo: u32,
}

/// When a commit was made: seconds since the epoch, and the offset of the
/// committer's clock from UTC in minutes.
#[derive(Clone, Copy, Debug, PartialEq, Eq, Hash, Structural)]
pub struct Timestamp {
    pub seconds: i64,
    pub offset_minutes: i32,
}

/// The byte of `w` that has `k` bytes below it.
pub open spec fn byte_of(w: u64, k: u64) -> u8 {
    ((w >> (8 * k)) & 0xff) as u8
}

/// The word that eight bytes spell, the first being the most significant.
pub open spec fn word_of(
    b0: u8,
    b1: u8,
    b2: u8,
    b3: u8,
    b4: u8,
    b5: u8,
    b6: u8,
    b7: u8,
) -> u64 {
    (b0 as u64) << 56 | (b1 as u64) << 48 | (b2 as u64) << 40 | (b3 as u64) << 32 | (b4 as u64)
        << 24 | (b5 as u64) << 16 | (b6 as u64) << 8 | (b7 as u64)
}

impl ObjectId {
    /// The twenty bytes of the id, the most significant first.
    pub open spec fn bytes(self) -> Seq<u8> {
        seq![
            byte_of(self.hi, 7),
            byte_of(self.hi, 6),
            byte_of(self.hi, 5),
            byte_of(self.hi, 4),
            byte_of(self.hi, 3),
            byte_of(self.hi, 2),
            byte_of(self.hi, 1),
            byte_of(self.hi, 0),
            byte_of(self.mid, 7),
            byte_of(self.mid, 6),
            byte_of(self.mid, 5),
            byte_of(self.mid, 4),
            byte_of(self.mid, 3),
            byte_of(self.mid, 2),
            byte_of(self.mid, 1),
            byte_of(self.mid, 0),
            byte_of(self.lo as u64, 3),
            byte_of(self.lo as u64, 2),
            byte_of(self.lo as u64, 1),
            byte_of(self.lo as u64, 0),
        ]
    }

    /// The id that twenty bytes spell; no other number of bytes spells one.
    pub open spec fn spelt_by(b: Seq<u8>) -> Option<ObjectId> {
        if b.len() == 20 {
            Some(
                ObjectId {
                    hi: word_of(b[0], b[1], b[2], b[3], b[4], b[5], b[6], b[7]),
                    mid: word_of(b[8], b[9], b[10], b[11], b[12], b[13], b[14], b[15]),
                    lo: word_of(0, 0, 0, 0, b[16], b[17], b[18], b[19]) as u32,
                },
            )
        } else {
            None
        }
    }

    /// The id that `bytes` spell, if they are twenty.
    pub fn from_bytes(bytes: &Vec<u8>) -> (r: Option<ObjectId>)
        ensures
            r == ObjectId::spelt_by(bytes@),
    {
        if bytes.len() != 20 {
            return None;
        }
        let hi = word(
            bytes[0],
            bytes[1],
            bytes[2],
            bytes[3],
            bytes[4],
            bytes[5],
            bytes[6],
            bytes[7],
        );
        let mid = word(
            bytes[8],
            bytes[9],
            bytes[10],
            bytes[11],
            bytes[12],
            bytes[13],
            bytes[14],
            bytes[15],
        );
        let low = word(0, 0, 0, 0, bytes[16], bytes[17], bytes[18], bytes[19]);
        Some(ObjectId { hi, mid, lo: low as u32 })
    }

    /// The twenty bytes of the id, the most significant first.
    pub fn to_bytes(&self) -> (r: Vec<u8>)
        ensures
            r@ == self.bytes(),
    {
        let mut r: Vec<u8> = Vec::new();
        let low = self.lo as u64;
        r.push(byte(self.hi, 7));
        r.push(byte(self.hi, 6));
        r.push(byte(self.hi, 5));
        r.push(byte(self.hi, 4));
        r.push(byte(self.hi, 3));
        r.push(byte(self.hi, 2));
        r.push(byte(self.hi, 1));
        r.push(byte(self.hi, 0));
        r.push(byte(self.mid, 7));
        r.push(byte(self.mid, 6));
        r.push(byte(self.mid, 5));
        r.push(byte(self.mid, 4));
        r.push(byte(self.mid, 3));
        r.push(byte(self.mid, 2));
        r.push(byte(self.mid, 1));
        r.push(byte(self.mid, 0));
        r.push(byte(low, 3));
        r.push(byte(low, 2));
        r.push(byte(low, 1));
        r.push(byte(low, 0));
        r
    }
}

/// The byte of `w` that has `k` bytes below it.
fn byte(w: u64, k: u64) -> (b: u8)
    requires
        k < 8,
    ensures
        b == byte_of(w, k),
{
    ((w >> (8 * k)) & 0xff) as u8
}

/// The word that eight bytes spell, the first being the most significant.
fn word(b0: u8, b1: u8, b2: u8, b3: u8, b4: u8, b5: u8, b6: u8, b7: u8) -> (w: u64)
    ensures
        w == word_of(b0, b1, b2, b3, b4, b5, b6, b7),
{
    (b0 as u64) << 56 | (b1 as u64) << 48 | (b2 as u64) << 40 | (b3 as u64) << 32 | (b4 as u64)
        << 24 | (b5 as u64) << 16 | (b6 as u64) << 8 | (b7 as u64)
}

/// A word is spelt by its own bytes.
proof fn lemma_word_of_bytes(w: u64)
    ensures
        word_of(
            byte_of(w, 7),
            byte_of(w, 6),
            byte_of(w, 5),
            byte_of(w, 4),
            byte_of(w, 3),
            byte_of(w, 2),
            byte_of(w, 1),
            byte_of(w, 0),
        ) == w,
{
    assert(w == (((w >> 56) & 0xff) as u8 as u64) << 56
        | (((w >> 48) & 0xff) as u8 as u64) << 48
        | (((w >> 40) & 0xff) as u8 as u64) << 40
        | (((w >> 32) & 0xff) as u8 as u64) << 32
        | (((w >> 24) & 0xff) as u8 as u64) << 24
        | (((w >> 16) & 0xff) as u8 as u64) << 16
        | (((w >> 8) & 0xff) as u8 as u64) << 8
        | (((w >> 0) & 0xff) as u8 as u64)) by (bit_vector);
}

/// The bytes of a word are those that spell it.
proof fn lemma_bytes_of_word(b0: u8, b1: u8, b2: u8, b3: u8, b4: u8, b5: u8, b6: u8, b7: u8)
    ensures
        ({
            let w = word_of(b0, b1, b2, b3, b4, b5, b6, b7);
            &&& byte_of(w, 7) == b0
            &&& byte_of(w, 6) == b1
            &&& byte_of(w, 5) == b2
            &&& byte_of(w, 4) == b3
            &&& byte_of(w, 3) == b4
            &&& byte_of(w, 2) == b5
            &&& byte_of(w, 1) == b6
            &&& byte_of(w, 0) == b7
        }),
{
    let w = word_of(b0, b1, b2, b3, b4, b5, b6, b7);
    assert(((w >> 56) & 0xff) as u8 == b0
        && ((w >> 48) & 0xff) as u8 == b1
        && ((w >> 40) & 0xff) as u8 == b2
        && ((w >> 32) & 0xff) as u8 == b3
        && ((w >> 24) & 0xff) as u8 == b4
        && ((w >> 16) & 0xff) as u8 == b5
        && ((w >> 8) & 0xff) as u8 == b6
        && ((w >> 0) & 0xff) as u8 == b7) by (bit_vector)
        requires
            w == (b0 as u64) << 56
                | (b1 as u64) << 48
                | (b2 as u64) << 40
                | (b3 as u64) << 32
                | (b4 as u64) << 24
                | (b5 as u64) << 16
                | (b6 as u64) << 8
                | (b7 as u64),
    ;
}

/// A word whose upper half is empty is as wide as its lower half.
proof fn lemma_half_word(w: u64)
    requires
        byte_of(w, 7) == 0,
        byte_of(w, 6) == 0,
        byte_of(w, 5) == 0,
        byte_of(w, 4) == 0,
    ensures
        (w as u32) as u64 == w,
{
    assert((w as u32) as u64 == w) by (bit_vector)
        requires
            ((w >> 56) & 0xff) as u8 == 0u8,
            ((w >> 48) & 0xff) as u8 == 0u8,
            ((w >> 40) & 0xff) as u8 == 0u8,
            ((w >> 32) & 0xff) as u8 == 0u8,
    ;
}

/// The upper half of a word that is as wide as its lower half is empty.
proof fn lemma_low_word(l: u32)
    ensures
        byte_of(l as u64, 7) == 0,
        byte_of(l as u64, 6) == 0,
        byte_of(l as u64, 5) == 0,
        byte_of(l as u64, 4) == 0,
        (l as u64) as u32 == l,
{
    assert((((l as u64) >> 56) & 0xff) as u8 == 0u8
        && (((l as u64) >> 48) & 0xff) as u8 == 0u8
        && (((l as u64) >> 40) & 0xff) as u8 == 0u8
        && (((l as u64) >> 32) & 0xff) as u8 == 0u8
        && (l as u64) as u32 == l) by (bit_vector);
}

/// Bytes and ids stand for each other: an id is spelt by its bytes, and by no
/// other twenty.
pub proof fn law_id_bytes(id: ObjectId, b: Seq<u8>)
    ensures
        ObjectId::spelt_by(id.bytes()) == Some(id),
        ObjectId::spelt_by(b) == Some(id) <==> b == id.bytes(),
{
    lemma_word_of_bytes(id.hi);
    lemma_word_of_bytes(id.mid);
    lemma_word_of_bytes(id.lo as u64);
    lemma_low_word(id.lo);
    if b.len() == 20 && ObjectId::spelt_by(b) == Some(id) {
        lemma_bytes_of_word(b[0], b[1], b[2], b[3], b[4], b[5], b[6], b[7]);
        lemma_bytes_of_word(b[8], b[9], b[10], b[11], b[12], b[13], b[14], b[15]);
        lemma_bytes_of_word(0, 0, 0, 0, b[16], b[17], b[18], b[19]);
        lemma_half_word(word_of(0, 0, 0, 0, b[16], b[17], b[18], b[19]));
        assert(b =~= id.bytes());
    }
}

impl Timestamp {
    /// Times are ordered by their seconds, and among equal seconds by their offset.
    pub open spec fn precedes(self, other: Timestamp) -> bool {
        self.seconds < other.seconds || (self.seconds == other.seconds
            && self.offset_minutes < other.offset_minutes)
    }

    /// Whether `self` is strictly earlier than `other`.
    pub fn is_before(&self, other: &Timestamp) -> (r: bool)
        ensures
            r == self.precedes(*other),
    {
        self.seconds < other.seconds || (self.seconds == other.seconds && self.offset_minutes
            < other.offset_minutes)
    }
}

} // verus!
