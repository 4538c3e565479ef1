//! Canonical byte encodings: the compact length prefix and the encoding of
//! the leaves.

use vstd::bytes::spec_u32_to_le_bytes;
use vstd::prelude::*;

verus! {

/// The compact encoding of a length below 2^32. The two low bits of the first
/// byte tell how many bytes follow.
pub open spec fn compact_len(n: nat) -> Seq<u8> {
    if n < 0x40 {
        seq![(4 * n) as u8]
    } else if n < 0x4000 {
        let v = 4 * n + 1;
        seq![(v % 256) as u8, (v / 256) as u8]
    } else if n < 0x4000_0000 {
        let v = 4 * n + 2;
        seq![
            (v % 256) as u8,
            (v / 0x100 % 256) as u8,
            (v / 0x1_0000 % 256) as u8,
            (v / 0x100_0000) as u8,
        ]
    } else {
        seq![
            3u8,
            (n % 256) as u8,
            (n / 0x100 % 256) as u8,
            (n / 0x1_0000 % 256) as u8,
            (n / 0x100_0000) as u8,
        ]
    }
}

/// The length that stands at the start of `bytes` in compact encoding, and
/// the number of bytes that it takes; `None` where `bytes` does not start
/// with the compact encoding of a length below 2^32.
pub open spec fn parse_compact_len(bytes: Seq<u8>) -> Option<(nat, nat)> {
    if bytes.len() == 0 {
        None
    } else if bytes[0] % 4 == 0 {
        Some(((bytes[0] / 4) as nat, 1))
    } else if bytes[0] % 4 == 1 {
        if bytes.len() < 2 {
            None
        } else {
            let n = (bytes[0] as nat + 256 * bytes[1] as nat) / 4;
            if n >= 0x40 {
                Some((n, 2))
            } else {
                None
            }
        }
    } else if bytes[0] % 4 == 2 {
        if bytes.len() < 4 {
            None
        } else {
            let n = (bytes[0] as nat + 0x100 * bytes[1] as nat + 0x1_0000 * bytes[2] as nat
                + 0x100_0000 * bytes[3] as nat) / 4;
            if n >= 0x4000 {
                Some((n, 4))
            } else {
                None
            }
        }
    } else {
        if bytes.len() < 5 || bytes[0] != 3 {
            None
        } else {
            let n = bytes[1] as nat + 0x100 * bytes[2] as nat + 0x1_0000 * bytes[3] as nat
                + 0x100_0000 * bytes[4] as nat;
            if n >= 0x4000_0000 {
                Some((n, 5))
            } else {
                None
            }
        }
    }
}

/// The four base-256 digits of a 32 bit number add up to it.
proof fn lemma_digits_of(v: u32)
    ensures
        v % 256 + 0x100 * (v / 0x100 % 256) + 0x1_0000 * (v / 0x1_0000 % 256) + 0x100_0000 * (v
            / 0x100_0000) == v,
        v / 0x100_0000 < 256,
        (v % 256) % 4 == v % 4,
        v < 0x1_0000 ==> v / 0x100 % 256 == v / 0x100 && v / 0x1_0000 == 0,
{
    assert(v % 256 + 0x100 * (v / 0x100 % 256) + 0x1_0000 * (v / 0x1_0000 % 256) + 0x100_0000 * (v
        / 0x100_0000) == v) by (bit_vector);
    assert(v / 0x100_0000 < 256) by (bit_vector);
    assert((v % 256) % 4 == v % 4) by (bit_vector);
    assert(v < 0x1_0000 ==> v / 0x100 % 256 == v / 0x100 && v / 0x1_0000 == 0) by (bit_vector);
}

/// Four bytes are the base-256 digits of the number that they add up to.
proof fn lemma_number_of(b0: u8, b1: u8, b2: u8, b3: u8)
    ensures
        ({
            let v = b0 as nat + 0x100 * b1 as nat + 0x1_0000 * b2 as nat + 0x100_0000 * b3 as nat;
            &&& v <= u32::MAX
            &&& v % 256 == b0
            &&& v / 0x100 % 256 == b1
            &&& v / 0x1_0000 % 256 == b2
            &&& v / 0x100_0000 == b3
            &&& v % 4 == b0 % 4
        }),
{
    let v = b0 as nat + 0x100 * b1 as nat + 0x1_0000 * b2 as nat + 0x100_0000 * b3 as nat;
}

/// A compact length is read back from the bytes that it was written to,
/// whatever follows them.
pub proof fn lemma_parse_compact_len_of_encoding(n: nat, tail: Seq<u8>)
    requires
        n <= u32::MAX,
    ensures
        parse_compact_len(compact_len(n) + tail) == Some((n, compact_len(n).len())),
{
    let bytes = compact_len(n) + tail;
    assert(bytes[0] == compact_len(n)[0]);
    if n < 0x40 {
    } else if n < 0x4000 {
        let v = (4 * n + 1) as u32;
        lemma_digits_of(v);
        assert(bytes[1] == compact_len(n)[1]);
    } else if n < 0x4000_0000 {
        let v = (4 * n + 2) as u32;
        lemma_digits_of(v);
        assert(bytes[1] == compact_len(n)[1]);
        assert(bytes[2] == compact_len(n)[2]);
        assert(bytes[3] == compact_len(n)[3]);
    } else {
        lemma_digits_of(n as u32);
        assert(bytes[1] == compact_len(n)[1]);
        assert(bytes[2] == compact_len(n)[2]);
        assert(bytes[3] == compact_len(n)[3]);
        assert(bytes[4] == compact_len(n)[4]);
    }
}

/// Bytes from which a compact length is read start with the encoding of
/// that length.
pub proof fn lemma_parse_compact_len_is_encoding(bytes: Seq<u8>)
    requires
        parse_compact_len(bytes) is Some,
    ensures
        ({
            let (n, used) = parse_compact_len(bytes)->0;
            n <= u32::MAX && used <= bytes.len() && bytes.subrange(0, used as int) == compact_len(
                n,
            )
        }),
{
    let (n, used) = parse_compact_len(bytes)->0;
    if bytes[0] % 4 == 0 {
    } else if bytes[0] % 4 == 1 {
        lemma_number_of(bytes[0], bytes[1], 0, 0);
    } else if bytes[0] % 4 == 2 {
        lemma_number_of(bytes[0], bytes[1], bytes[2], bytes[3]);
    } else {
        lemma_number_of(bytes[1], bytes[2], bytes[3], bytes[4]);
    }
    assert(bytes.subrange(0, used as int) =~= compact_len(n));
}

/// Write the compact encoding of `n` to the end of `buf`.
pub fn push_compact_len(buf: &mut Vec<u8>, n: u32)
    ensures
        final(buf)@ == old(buf)@ + compact_len(n as nat),
{
    if n < 0x40 {
        buf.push((4 * n) as u8);
    } else if n < 0x4000 {
        let v: u32 = 4 * n + 1;
        buf.push((v % 256) as u8);
        buf.push((v / 256) as u8);
    } else if n < 0x4000_0000 {
        let v: u32 = 4 * n + 2;
        buf.push((v % 256) as u8);
        buf.push((v / 0x100 % 256) as u8);
        buf.push((v / 0x1_0000 % 256) as u8);
        buf.push((v / 0x100_0000) as u8);
    } else {
        buf.push(3u8);
        buf.push((n % 256) as u8);
        buf.push((n / 0x100 % 256) as u8);
        buf.push((n / 0x1_0000 % 256) as u8);
        buf.push((n / 0x100_0000) as u8);
    }
    proof {
        assert(buf@ =~= old(buf)@ + compact_len(n as nat));
    }
}

/// Read a compact length from the start of `bytes`: the length and the
/// number of bytes that it takes.
pub fn read_compact_len(bytes: &[u8]) -> (r: Option<(u32, usize)>)
    ensures
        match r {
            Some((n, used)) => parse_compact_len(bytes@) == Some((n as nat, used as nat)),
            None => parse_compact_len(bytes@) is None,
        },
{
    if bytes.len() == 0 {
        return None;
    }
    let prefix: u8 = bytes[0];
    let mode: u8 = prefix % 4;
    if mode == 0 {
        Some(((prefix / 4) as u32, 1))
    } else if mode == 1 {
        if bytes.len() < 2 {
            return None;
        }
        let n: u32 = (prefix as u32 + 256 * (bytes[1] as u32)) / 4;
        if n >= 0x40 {
            Some((n, 2))
        } else {
            None
        }
    } else if mode == 2 {
        if bytes.len() < 4 {
            return None;
        }
        let n: u32 = (prefix as u32 + 0x100 * (bytes[1] as u32) + 0x1_0000 * (bytes[2] as u32)
            + 0x100_0000 * (bytes[3] as u32)) / 4;
        if n >= 0x4000 {
            Some((n, 4))
        } else {
            None
        }
    } else {
        if bytes.len() < 5 || prefix != 3 {
            return None;
        }
        let n: u32 = bytes[1] as u32 + 0x100 * (bytes[2] as u32) + 0x1_0000 * (bytes[3] as u32)
            + 0x100_0000 * (bytes[4] as u32);
        if n >= 0x4000_0000 {
            Some((n, 5))
        } else {
            None
        }
    }
}

/// The little-endian bytes of the words of `v`, one word after the other.
pub open spec fn le_words(v: Seq<u32>) -> Seq<u8>
    decreases v.len(),
{
    if v.len() == 0 {
        Seq::<u8>::empty()
    } else {
        le_words(v.drop_last()) + spec_u32_to_le_bytes(v.last())
    }
}

/// Calls `parity_scale_codec::Encode::encode` on a `Vec<u8>`: the compact
/// encoding of the length, followed by the bytes themselves. The call panics
/// on more than `u32::MAX` bytes.
#[verifier::external_body]
fn scale_encode_bytes(v: &Vec<u8>) -> (out: Vec<u8>)
    requires
        v@.len() <= u32::MAX,
    ensures
        out@ == compact_len(v@.len()) + v@,
{
    parity_scale_codec::Encode::encode(v)
}

/// Calls `parity_scale_codec::Encode::encode` on a `Vec<u32>`: the compact
/// encoding of the length, followed by the little-endian bytes of each word.
/// The call panics on more than `u32::MAX` words.
#[verifier::external_body]
fn scale_encode_words(v: &Vec<u32>) -> (out: Vec<u8>)
    requires
        v@.len() <= u32::MAX,
    ensures
        out@ == compact_len(v@.len()) + le_words(v@),
{
    parity_scale_codec::Encode::encode(v)
}

/// Values with a canonical byte encoding, which is what the MMR hashes of a
/// leaf.
pub trait Encodable {
    /// Whether the value has an encoding. An implementation states here
    /// which values it can encode.
    open spec fn has_encoding(&self) -> bool {
        true
    }

    /// The canonical encoding of the value. An implementation states here
    /// what `encode` returns.
    open spec fn encoding(&self) -> Seq<u8> {
        arbitrary()
    }

    fn encode(&self) -> (out: Vec<u8>)
        requires
            self.has_encoding(),
        ensures
            out@ == self.encoding(),
    ;
}

impl Encodable for Vec<u8> {
    open spec fn has_encoding(&self) -> bool {
        self@.len() <= u32::MAX
    }

    open spec fn encoding(&self) -> Seq<u8> {
        compact_len(self@.len()) + self@
    }

    fn encode(&self) -> (out: Vec<u8>) {
        scale_encode_bytes(self)
    }
}

impl Encodable for Vec<u32> {
    open spec fn has_encoding(&self) -> bool {
        self@.len() <= u32::MAX
    }

    open spec fn encoding(&self) -> Seq<u8> {
        compact_len(self@.len()) + le_words(self@)
    }

    fn encode(&self) -> (out: Vec<u8>) {
        scale_encode_words(self)
    }
}

} // verus!
