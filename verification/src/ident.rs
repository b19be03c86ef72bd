//! Fixed-width identifiers for nodes, tasks and epoch seeds.

use vstd::prelude::*;

verus! {

/// Number of bytes in the wire form of an [`Identifier`].
pub const IDENTIFIER_BYTES: usize = 32;

/// A 256-bit opaque identifier, held as four big-endian 64-bit words.
///
/// The order on identifiers is the lexicographic order of the words, which is
/// the lexicographic order of the 32 bytes of the wire form.
#[derive(Clone, Copy, Debug, PartialEq, Eq, Structural, Hash)]
pub struct Identifier {
    pub w0: u64,
    pub w1: u64,
    pub w2: u64,
    pub w3: u64,
}

/// An epoch seed has the shape of an identifier.
pub type Seed = Identifier;

/// Why a byte string is not an identifier.
#[derive(Clone, Copy, Debug, PartialEq, Eq, Structural)]
pub enum DecodeError {
    /// The input does not hold exactly [`IDENTIFIER_BYTES`] bytes; the
    /// field is the length that was found.
    BadLength(usize),
}

/// The big-endian value of the eight bytes of `bytes` that start at `at`.
pub open spec fn be_word(bytes: Seq<u8>, at: int) -> u64
    recommends
        0 <= at,
        at + 8 <= bytes.len(),
{
    (bytes[at] * 0x100_0000_0000_0000 + bytes[at + 1] * 0x1_0000_0000_0000 + bytes[at + 2]
        * 0x100_0000_0000 + bytes[at + 3] * 0x1_0000_0000 + bytes[at + 4] * 0x100_0000 + bytes[at
        + 5] * 0x1_0000 + bytes[at + 6] * 0x100 + bytes[at + 7]) as u64
}

/// The eight bytes of `w`, most significant first.
pub open spec fn word_bytes(w: u64) -> Seq<u8> {
    seq![
        (w / 0x100_0000_0000_0000) as u8,
        (w / 0x1_0000_0000_0000 % 0x100) as u8,
        (w / 0x100_0000_0000 % 0x100) as u8,
        (w / 0x1_0000_0000 % 0x100) as u8,
        (w / 0x100_0000 % 0x100) as u8,
        (w / 0x1_0000 % 0x100) as u8,
        (w / 0x100 % 0x100) as u8,
        (w % 0x100) as u8,
    ]
}

/// The identifier that 32 bytes stand for.
pub open spec fn decode(bytes: Seq<u8>) -> Identifier
    recommends
        bytes.len() == 32,
{
    Identifier {
        w0: be_word(bytes, 0),
        w1: be_word(bytes, 8),
        w2: be_word(bytes, 16),
        w3: be_word(bytes, 24),
    }
}

/// The 32 bytes that stand for an identifier.
pub open spec fn encode(id: Identifier) -> Seq<u8> {
    word_bytes(id.w0) + word_bytes(id.w1) + word_bytes(id.w2) + word_bytes(id.w3)
}

fn read_word(bytes: &[u8], at: usize) -> (w: u64)
    requires
        at + 8 <= bytes@.len(),
    ensures
        w == be_word(bytes@, at as int),
{
    let b0: u64 = bytes[at] as u64;
    let b1: u64 = bytes[at + 1] as u64;
    let b2: u64 = bytes[at + 2] as u64;
    let b3: u64 = bytes[at + 3] as u64;
    let b4: u64 = bytes[at + 4] as u64;
    let b5: u64 = bytes[at + 5] as u64;
    let b6: u64 = bytes[at + 6] as u64;
    let b7: u64 = bytes[at + 7] as u64;
    b0 * 0x100_0000_0000_0000 + b1 * 0x1_0000_0000_0000 + b2 * 0x100_0000_0000 + b3
        * 0x1_0000_0000 + b4 * 0x100_0000 + b5 * 0x1_0000 + b6 * 0x100 + b7
}

fn write_word(out: &mut Vec<u8>, w: u64)
    ensures
        final(out)@ == old(out)@ + word_bytes(w),
{
    out.push((w / 0x100_0000_0000_0000) as u8);
    out.push((w / 0x1_0000_0000_0000 % 0x100) as u8);
    out.push((w / 0x100_0000_0000 % 0x100) as u8);
    out.push((w / 0x1_0000_0000 % 0x100) as u8);
    out.push((w / 0x100_0000 % 0x100) as u8);
    out.push((w / 0x1_0000 % 0x100) as u8);
    out.push((w / 0x100 % 0x100) as u8);
    out.push((w % 0x100) as u8);
    assert(out@ =~= old(out)@ + word_bytes(w));
}

impl Identifier {
    /// The identifier whose four words are all zero.
    pub fn zero() -> (id: Identifier)
        ensures
            id == (Identifier { w0: 0, w1: 0, w2: 0, w3: 0 }),
    {
        Identifier { w0: 0, w1: 0, w2: 0, w3: 0 }
    }

    /// Strict order: `self` comes before `other`.
    pub open spec fn precedes(self, other: Identifier) -> bool {
        ||| self.w0 < other.w0
        ||| self.w0 == other.w0 && self.w1 < other.w1
        ||| self.w0 == other.w0 && self.w1 == other.w1 && self.w2 < other.w2
        ||| self.w0 == other.w0 && self.w1 == other.w1 && self.w2 == other.w2 && self.w3
            < other.w3
    }

    /// Decides the strict order on identifiers.
    pub fn is_before(&self, other: &Identifier) -> (r: bool)
        ensures
            r == self.precedes(*other),
    {
        if self.w0 != other.w0 {
            self.w0 < other.w0
        } else if self.w1 != other.w1 {
            self.w1 < other.w1
        } else if self.w2 != other.w2 {
            self.w2 < other.w2
        } else {
            self.w3 < other.w3
        }
    }

    /// Reads an identifier from its wire form. A byte string of any other
    /// length than 32 is rejected.
    pub fn from_slice(bytes: &[u8]) -> (r: Result<Identifier, DecodeError>)
        ensures
            bytes@.len() == 32 ==> r == Ok::<Identifier, DecodeError>(decode(bytes@)),
            bytes@.len() != 32 ==> r == Err::<Identifier, DecodeError>(
                DecodeError::BadLength(bytes@.len() as usize),
            ),
    {
        if bytes.len() != IDENTIFIER_BYTES {
            return Err(DecodeError::BadLength(bytes.len()));
        }
        Ok(
            Identifier {
                w0: read_word(bytes, 0),
                w1: read_word(bytes, 8),
                w2: read_word(bytes, 16),
                w3: read_word(bytes, 24),
            },
        )
    }

    /// Writes the identifier in its wire form.
    pub fn to_bytes(&self) -> (out: Vec<u8>)
        ensures
            out@ == encode(*self),
            out@.len() == 32,
    {
        let mut out: Vec<u8> = Vec::new();
        write_word(&mut out, self.w0);
        write_word(&mut out, self.w1);
        write_word(&mut out, self.w2);
        write_word(&mut out, self.w3);
        assert(out@ =~= encode(*self));
        out
    }
}

/// The order on identifiers is a strict total order.
pub proof fn lemma_identifier_order_total(a: Identifier, b: Identifier, c: Identifier)
    ensures
        !a.precedes(a),
        a.precedes(b) || b.precedes(a) || a == b,
        !(a.precedes(b) && b.precedes(a)),
        a.precedes(b) && b.precedes(c) ==> a.precedes(c),
{
}

/// A word is the sum of its eight bytes, each weighted by its place.
proof fn lemma_word_digits(w: u64)
    ensures
        w == (w / 0x100_0000_0000_0000) * 0x100_0000_0000_0000 + (w / 0x1_0000_0000_0000 % 0x100)
            * 0x1_0000_0000_0000 + (w / 0x100_0000_0000 % 0x100) * 0x100_0000_0000 + (w
            / 0x1_0000_0000 % 0x100) * 0x1_0000_0000 + (w / 0x100_0000 % 0x100) * 0x100_0000 + (w
            / 0x1_0000 % 0x100) * 0x1_0000 + (w / 0x100 % 0x100) * 0x100 + w % 0x100,
        w / 0x100_0000_0000_0000 < 0x100,
{
    let x: int = w as int;
    let q1 = x / 0x100;
    let q2 = q1 / 0x100;
    let q3 = q2 / 0x100;
    let q4 = q3 / 0x100;
    let q5 = q4 / 0x100;
    let q6 = q5 / 0x100;
    let q7 = q6 / 0x100;
    assert(q2 == x / 0x1_0000);
    assert(q3 == x / 0x100_0000);
    assert(q4 == x / 0x1_0000_0000);
    assert(q5 == x / 0x100_0000_0000);
    assert(q6 == x / 0x1_0000_0000_0000);
    assert(q7 == x / 0x100_0000_0000_0000);
}

/// Appending one byte to a number: the byte is the remainder, the number the
/// quotient.
proof fn lemma_append_digit(s: int, b: int)
    requires
        0 <= s,
        0 <= b < 0x100,
    ensures
        (s * 0x100 + b) / 0x100 == s,
        (s * 0x100 + b) % 0x100 == b,
{
}

/// The bytes of a big-endian sum are the bytes it was built from.
proof fn lemma_digits_word(
    b0: u8,
    b1: u8,
    b2: u8,
    b3: u8,
    b4: u8,
    b5: u8,
    b6: u8,
    b7: u8,
)
    ensures
        ({
            let w: int = b0 * 0x100_0000_0000_0000 + b1 * 0x1_0000_0000_0000 + b2
                * 0x100_0000_0000 + b3 * 0x1_0000_0000 + b4 * 0x100_0000 + b5 * 0x1_0000 + b6
                * 0x100 + b7;
            &&& 0 <= w <= u64::MAX
            &&& w / 0x100_0000_0000_0000 == b0
            &&& w / 0x1_0000_0000_0000 % 0x100 == b1
            &&& w / 0x100_0000_0000 % 0x100 == b2
            &&& w / 0x1_0000_0000 % 0x100 == b3
            &&& w / 0x100_0000 % 0x100 == b4
            &&& w / 0x1_0000 % 0x100 == b5
            &&& w / 0x100 % 0x100 == b6
            &&& w % 0x100 == b7
        }),
{
    let s1: int = b0 as int;
    let s2: int = s1 * 0x100 + b1;
    let s3: int = s2 * 0x100 + b2;
    let s4: int = s3 * 0x100 + b3;
    let s5: int = s4 * 0x100 + b4;
    let s6: int = s5 * 0x100 + b5;
    let s7: int = s6 * 0x100 + b6;
    let w: int = s7 * 0x100 + b7;
    lemma_append_digit(s1, b1 as int);
    lemma_append_digit(s2, b2 as int);
    lemma_append_digit(s3, b3 as int);
    lemma_append_digit(s4, b4 as int);
    lemma_append_digit(s5, b5 as int);
    lemma_append_digit(s6, b6 as int);
    lemma_append_digit(s7, b7 as int);
    assert(w / 0x100 == s7);
    assert(w / 0x1_0000 == s6) by {
        assert(w / 0x1_0000 == (w / 0x100) / 0x100);
    }
    assert(w / 0x100_0000 == s5) by {
        assert(w / 0x100_0000 == (w / 0x1_0000) / 0x100);
    }
    assert(w / 0x1_0000_0000 == s4) by {
        assert(w / 0x1_0000_0000 == (w / 0x100_0000) / 0x100);
    }
    assert(w / 0x100_0000_0000 == s3) by {
        assert(w / 0x100_0000_0000 == (w / 0x1_0000_0000) / 0x100);
    }
    assert(w / 0x1_0000_0000_0000 == s2) by {
        assert(w / 0x1_0000_0000_0000 == (w / 0x100_0000_0000) / 0x100);
    }
    assert(w / 0x100_0000_0000_0000 == s1) by {
        assert(w / 0x100_0000_0000_0000 == (w / 0x1_0000_0000_0000) / 0x100);
    }
}

/// Reading back what `word_bytes` wrote gives the word again.
pub proof fn lemma_word_round_trip(w: u64, bytes: Seq<u8>, at: int)
    requires
        0 <= at,
        at + 8 <= bytes.len(),
        bytes.subrange(at, at + 8) == word_bytes(w),
    ensures
        be_word(bytes, at) == w,
{
    let wb = bytes.subrange(at, at + 8);
    assert(bytes[at] == wb[0]);
    assert(bytes[at + 1] == wb[1]);
    assert(bytes[at + 2] == wb[2]);
    assert(bytes[at + 3] == wb[3]);
    assert(bytes[at + 4] == wb[4]);
    assert(bytes[at + 5] == wb[5]);
    assert(bytes[at + 6] == wb[6]);
    assert(bytes[at + 7] == wb[7]);
    lemma_word_digits(w);
}

/// Writing out the word that eight bytes stand for gives the bytes again.
pub proof fn lemma_bytes_round_trip(bytes: Seq<u8>, at: int)
    requires
        0 <= at,
        at + 8 <= bytes.len(),
    ensures
        word_bytes(be_word(bytes, at)) == bytes.subrange(at, at + 8),
{
    lemma_digits_word(
        bytes[at],
        bytes[at + 1],
        bytes[at + 2],
        bytes[at + 3],
        bytes[at + 4],
        bytes[at + 5],
        bytes[at + 6],
        bytes[at + 7],
    );
    assert(word_bytes(be_word(bytes, at)) =~= bytes.subrange(at, at + 8));
}

/// Decoding the wire form of an identifier gives the identifier back.
pub proof fn lemma_decode_encode(id: Identifier)
    ensures
        encode(id).len() == 32,
        decode(encode(id)) == id,
{
    let bytes = encode(id);
    assert(bytes.len() == 32);
    assert(bytes.subrange(0, 8) =~= word_bytes(id.w0));
    assert(bytes.subrange(8, 16) =~= word_bytes(id.w1));
    assert(bytes.subrange(16, 24) =~= word_bytes(id.w2));
    assert(bytes.subrange(24, 32) =~= word_bytes(id.w3));
    lemma_word_round_trip(id.w0, bytes, 0);
    lemma_word_round_trip(id.w1, bytes, 8);
    lemma_word_round_trip(id.w2, bytes, 16);
    lemma_word_round_trip(id.w3, bytes, 24);
}

/// Encoding the identifier that 32 bytes stand for gives the bytes back.
pub proof fn lemma_encode_decode(bytes: Seq<u8>)
    requires
        bytes.len() == 32,
    ensures
        encode(decode(bytes)) == bytes,
{
    lemma_bytes_round_trip(bytes, 0);
    lemma_bytes_round_trip(bytes, 8);
    lemma_bytes_round_trip(bytes, 16);
    lemma_bytes_round_trip(bytes, 24);
    assert(encode(decode(bytes)) =~= bytes);
}

} // verus!
