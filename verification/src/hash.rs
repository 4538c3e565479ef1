//! Fixed-size hash values and the digest they are computed with.

use crate::error::Error;
use blake2::digest::consts::U32;
use blake2::{Blake2b, Digest};
use vstd::bytes::{spec_u32_to_le_bytes, spec_u64_to_le_bytes, u32_to_le_bytes, u64_to_le_bytes};
use vstd::prelude::*;
use vstd::std_specs::cmp::PartialEqSpecImpl;
use vstd::string::{StrSliceExecFns, StringExecFns};

verus! {

/// Generic hash type which should be compatible with most hashes used
/// within the blockchain domain.
#[derive(Copy, Clone, Eq, PartialOrd, Ord, Debug)]
pub struct Hash(pub [u8; 32]);

impl View for Hash {
    type V = Seq<u8>;

    open spec fn view(&self) -> Seq<u8> {
        self.0@
    }
}

impl PartialEq for Hash {
    fn eq(&self, other: &Hash) -> (r: bool) {
        let mut i: usize = 0;
        while i < 32
            invariant
                i <= 32,
                forall|j: int| 0 <= j < i ==> self.0[j] == other.0[j],
            decreases 32 - i,
        {
            if self.0[i] != other.0[i] {
                return false;
            }
            i += 1;
        }
        proof {
            assert(self.0 =~= other.0);
        }
        true
    }
}

impl PartialEqSpecImpl for Hash {
    open spec fn obeys_eq_spec() -> bool {
        true
    }

    open spec fn eq_spec(&self, other: &Hash) -> bool {
        *self == *other
    }
}

/// Two hashes with the same bytes are the same hash.
pub proof fn lemma_hash_ext(a: Hash, b: Hash)
    requires
        a@ == b@,
    ensures
        a == b,
{
    assert(a.0 =~= b.0);
}

/// The bytes of the all-zero hash.
pub open spec fn zero_bytes() -> Seq<u8> {
    Seq::new(32, |i: int| 0u8)
}

/// The hash with the bytes `bytes`.
pub open spec fn hash_of_bytes(bytes: Seq<u8>) -> Hash {
    choose|h: Hash| h@ == bytes
}

/// Every string of 32 bytes is the content of a hash.
pub proof fn lemma_hash_of_bytes(bytes: Seq<u8>)
    requires
        bytes.len() == 32,
    ensures
        hash_of_bytes(bytes)@ == bytes,
{
    let h = Hash(filled(bytes, 32));
    lemma_filled(bytes, 32);
    assert(h@ =~= bytes);
}

/// An array that holds the first `n` bytes of `bytes`.
spec fn filled(bytes: Seq<u8>, n: nat) -> [u8; 32]
    decreases n,
{
    if n == 0 {
        arbitrary()
    } else {
        vstd::array::spec_array_update(filled(bytes, (n - 1) as nat), n - 1, bytes[n - 1])
    }
}

proof fn lemma_filled(bytes: Seq<u8>, n: nat)
    requires
        n <= 32,
        bytes.len() == 32,
    ensures
        forall|i: int| 0 <= i < n ==> filled(bytes, n)@[i] == bytes[i],
    decreases n,
{
    broadcast use vstd::array::group_array_axioms;

    if n > 0 {
        lemma_filled(bytes, (n - 1) as nat);
    }
}

/// The hash consisting of all zeros.
pub open spec fn spec_zero_hash() -> Hash {
    hash_of_bytes(zero_bytes())
}

/// A hash consisting of all zeros.
pub fn zero_hash() -> (h: Hash)
    ensures
        h == spec_zero_hash(),
        h@ == zero_bytes(),
{
    let h = Hash([0u8; 32]);
    proof {
        assert(h@ =~= zero_bytes());
        lemma_hash_ext(h, spec_zero_hash());
    }
    h
}

/// The first 32 bytes of `v`, filled up with zeros where `v` is shorter.
pub open spec fn padded(v: Seq<u8>) -> Seq<u8> {
    Seq::new(
        32,
        |i: int|
            if i < v.len() {
                v[i]
            } else {
                0u8
            },
    )
}

impl Default for Hash {
    fn default() -> (h: Hash)
        ensures
            h == spec_zero_hash(),
    {
        zero_hash()
    }
}

impl Hash {
    /// 32 byte hash
    pub const LEN: usize = 32;

    /// Return a hash initialized from `v`.
    ///
    /// At most, up to [`Hash::LEN`] bytes will be copied from `v`. If `v` has less
    /// than [`Hash::LEN`] bytes, the hash will be padded with 0's from left to right.
    pub fn from_vec(v: &[u8]) -> (h: Hash)
        ensures
            h@ == padded(v@),
    {
        let mut bytes = [0u8; 32];
        let mut i: usize = 0;
        while i < 32 && i < v.len()
            invariant
                i <= 32,
                i <= v.len(),
                forall|j: int| 0 <= j < i ==> bytes[j] == v[j],
                forall|j: int| i <= j < 32 ==> bytes[j] == 0u8,
            decreases 32 - i,
        {
            bytes[i] = v[i];
            i += 1;
        }
        let h = Hash(bytes);
        proof {
            assert(h@ =~= padded(v@));
        }
        h
    }

    /// The first 12 hexadecimal digits of the hash, in lower case.
    pub fn to_string(&self) -> (s: String)
        ensures
            s@ == crate::text::hex(self@.take(6)),
    {
        let mut s = String::new();
        let head = vstd::slice::slice_subrange(self.0.as_slice(), 0, 6);
        proof {
            assert(head@ =~= self@.take(6));
        }
        crate::text::push_hex(&mut s, head);
        s
    }

    /// All 64 hexadecimal digits of the hash, in lower case.
    pub fn to_hex(&self) -> (s: String)
        ensures
            s@ == crate::text::hex(self@),
    {
        let mut s = String::new();
        crate::text::push_hex(&mut s, self.0.as_slice());
        s
    }

    /// Return a hash initialized from string `hex`.
    ///
    /// An error is returned, if `hex` is not a well-formed hex string like `"0xcafe"`.
    pub fn from_hex(hex: &str) -> (r: Result<Hash, Error>)
        ensures
            match r {
                Ok(h) => spec_parse_hex(hex@) matches Ok(v) && h@ == padded(v),
                Err(Error::InvalidHexString(s)) => spec_parse_hex(hex@) matches Err(text) && s@
                    == text,
                Err(_) => false,
            },
    {
        match parse_hex(hex) {
            Ok(v) => Ok(Hash::from_vec(v.as_slice())),
            Err(s) => Err(Error::InvalidHexString(s)),
        }
    }
}

/// White space, as Unicode defines it.
pub open spec fn is_space(c: char) -> bool {
    let u = c as u32;
    (9 <= u <= 13) || u == 0x20 || u == 0x85 || u == 0xA0 || u == 0x1680 || (0x2000 <= u <= 0x200A)
        || u == 0x2028 || u == 0x2029 || u == 0x202F || u == 0x205F || u == 0x3000
}

/// `s` without the white space at its start and at its end.
pub open spec fn trimmed(s: Seq<char>) -> Seq<char>
    decreases s.len(),
{
    if s.len() > 0 && is_space(s[0]) {
        trimmed(s.drop_first())
    } else if s.len() > 0 && is_space(s.last()) {
        trimmed(s.drop_last())
    } else {
        s
    }
}

/// `s` without any `0x` at its start.
pub open spec fn without_0x(s: Seq<char>) -> Seq<char>
    decreases s.len(),
{
    if s.len() >= 2 && s[0] == '0' && s[1] == 'x' {
        without_0x(s.skip(2))
    } else {
        s
    }
}

/// The value of a hexadecimal digit, upper or lower case.
pub open spec fn hex_digit(c: char) -> Option<u8> {
    let u = c as u32;
    if 0x30 <= u <= 0x39 {
        Some((u - 0x30) as u8)
    } else if 0x61 <= u <= 0x66 {
        Some((u - 0x61 + 10) as u8)
    } else if 0x41 <= u <= 0x46 {
        Some((u - 0x41 + 10) as u8)
    } else {
        None
    }
}

/// The byte that two hexadecimal digits stand for.
pub open spec fn hex_byte(high: char, low: char) -> u8 {
    (16 * hex_digit(high)->0 + hex_digit(low)->0) as u8
}

/// Is `text` an even number of hexadecimal digits.
pub open spec fn is_hex(text: Seq<char>) -> bool {
    &&& text.len() % 2 == 0
    &&& forall|i: int| 0 <= i < text.len() ==> hex_digit(#[trigger] text[i]) is Some
}

/// The bytes that the digits of `text` stand for, two digits each.
pub open spec fn hex_bytes(text: Seq<char>) -> Seq<u8> {
    Seq::new(text.len() / 2, |i: int| hex_byte(text[2 * i], text[2 * i + 1]))
}

/// The bytes that the hex string `hex` stands for, or, where it is not well
/// formed, what was left of it when white space and `0x` were taken away.
pub open spec fn spec_parse_hex(hex: Seq<char>) -> Result<Seq<u8>, Seq<char>> {
    let text = without_0x(trimmed(hex));
    if is_hex(text) {
        Ok(hex_bytes(text))
    } else {
        Err(text)
    }
}

proof fn lemma_trimmed(s: Seq<char>, a: int, b: int)
    requires
        0 <= a <= b <= s.len(),
        forall|i: int| 0 <= i < a ==> is_space(s[i]),
        forall|i: int| b <= i < s.len() ==> is_space(s[i]),
        a < b ==> !is_space(s[a]) && !is_space(s[b - 1]),
    ensures
        trimmed(s) == s.subrange(a, b),
    decreases s.len(),
{
    if s.len() == 0 {
        assert(s.subrange(a, b) =~= s);
    } else if is_space(s[0]) {
        let t = s.drop_first();
        if a > 0 {
            lemma_trimmed(t, a - 1, b - 1);
            assert(t.subrange(a - 1, b - 1) =~= s.subrange(a, b));
        } else {
            lemma_trimmed(t, 0, 0);
            assert(t.subrange(0, 0) =~= s.subrange(a, b));
        }
    } else if is_space(s.last()) {
        let t = s.drop_last();
        lemma_trimmed(t, a, b);
        assert(t.subrange(a, b) =~= s.subrange(a, b));
    } else {
        assert(s.subrange(a, b) =~= s);
    }
}

fn is_space_char(c: char) -> (r: bool)
    ensures
        r == is_space(c),
{
    let u = c as u32;
    (9 <= u && u <= 13) || u == 0x20 || u == 0x85 || u == 0xA0 || u == 0x1680 || (0x2000 <= u && u
        <= 0x200A) || u == 0x2028 || u == 0x2029 || u == 0x202F || u == 0x205F || u == 0x3000
}

fn hex_digit_of(c: char) -> (r: Option<u8>)
    ensures
        r == hex_digit(c),
{
    let u = c as u32;
    if 0x30 <= u && u <= 0x39 {
        Some((u - 0x30) as u8)
    } else if 0x61 <= u && u <= 0x66 {
        Some((u - 0x61 + 10) as u8)
    } else if 0x41 <= u && u <= 0x46 {
        Some((u - 0x41 + 10) as u8)
    } else {
        None
    }
}

fn chars_of(s: &str) -> (v: Vec<char>)
    ensures
        v@ == s@,
{
    let mut v: Vec<char> = Vec::new();
    for c in it: s.chars()
        invariant
            v@ == it.seq().take(it.index() as int),
            it.seq() == s@,
    {
        v.push(c);
    }
    v
}

/// Read the bytes of a hex string like `"0xcafe"`. Where the string is not
/// well formed, what was left of it when white space and `0x` were taken away
/// comes back as the error.
pub fn parse_hex(hex: &str) -> (r: Result<Vec<u8>, String>)
    ensures
        match r {
            Ok(v) => spec_parse_hex(hex@) == Ok::<Seq<u8>, Seq<char>>(v@),
            Err(s) => spec_parse_hex(hex@) == Err::<Seq<u8>, Seq<char>>(s@),
        },
{
    let chars = chars_of(hex);
    let mut start: usize = 0;
    while start < chars.len() && is_space_char(chars[start])
        invariant
            start <= chars.len(),
            forall|i: int| 0 <= i < start ==> is_space(chars@[i]),
        decreases chars.len() - start,
    {
        start += 1;
    }
    let mut end: usize = chars.len();
    while end > start && is_space_char(chars[end - 1])
        invariant
            start <= end <= chars.len(),
            forall|i: int| end <= i < chars@.len() ==> is_space(chars@[i]),
        decreases end,
    {
        end -= 1;
    }
    proof {
        lemma_trimmed(chars@, start as int, end as int);
    }
    while end - start >= 2 && chars[start] == '0' && chars[start + 1] == 'x'
        invariant
            start <= end <= chars.len(),
            without_0x(trimmed(chars@)) == without_0x(chars@.subrange(start as int, end as int)),
        decreases end - start,
    {
        proof {
            assert(chars@.subrange(start as int, end as int).skip(2) =~= chars@.subrange(
                start + 2,
                end as int,
            ));
        }
        start += 2;
    }
    let ghost text = chars@.subrange(start as int, end as int);
    assert(without_0x(trimmed(hex@)) == text);
    if (end - start) % 2 != 0 {
        return Err(String::from_str(hex.substring_char(start, end)));
    }
    let mut bytes: Vec<u8> = Vec::new();
    let mut i: usize = start;
    while i < end
        invariant
            start <= i <= end <= chars.len(),
            (i - start) % 2 == 0,
            (end - start) % 2 == 0,
            text == chars@.subrange(start as int, end as int),
            text == without_0x(trimmed(hex@)),
            hex@ == chars@,
            forall|j: int| 0 <= j < i - start ==> hex_digit(#[trigger] text[j]) is Some,
            bytes@.len() == (i - start) / 2,
            forall|j: int|
                0 <= j < bytes@.len() ==> bytes@[j] == hex_byte(text[2 * j], text[2 * j + 1]),
        decreases end - i,
    {
        let high = hex_digit_of(chars[i]);
        let low = hex_digit_of(chars[i + 1]);
        proof {
            assert(text[i - start] == chars@[i as int]);
            assert(text[i - start + 1] == chars@[i + 1]);
        }
        match (high, low) {
            (Some(h), Some(l)) => {
                bytes.push(16 * h + l);
            },
            _ => {
                return Err(String::from_str(hex.substring_char(start, end)));
            },
        }
        i += 2;
    }
    proof {
        assert(bytes@ =~= hex_bytes(text));
    }
    Ok(bytes)
}

/// The BLAKE2b digest with a 32 byte output of a byte string.
pub uninterp spec fn blake2b_256(data: Seq<u8>) -> Seq<u8>;

/// Calls `Digest::digest` of `Blake2b<U32>`: the result is the BLAKE2b-256
/// digest of `data`, a function of the input bytes alone.
#[verifier::external_body]
fn blake2b_256_digest(data: &[u8]) -> (out: [u8; 32])
    ensures
        out@ == blake2b_256(data@),
{
    Blake2b::<U32>::digest(data).into()
}

/// The hash whose bytes are the digest of `data`.
pub open spec fn digest(data: Seq<u8>) -> Hash {
    hash_of_bytes(blake2b_256(data))
}

/// Hash a byte string.
pub fn hash_bytes(data: &[u8]) -> (h: Hash)
    ensures
        h == digest(data@),
{
    let h = Hash(blake2b_256_digest(data));
    proof {
        assert(h@ == blake2b_256(data@));
        lemma_hash_ext(h, digest(data@));
    }
    h
}

/// The hash of two hashes: the digest of the bytes of `a` followed by those of `b`.
pub open spec fn hash_pair(a: Hash, b: Hash) -> Hash {
    digest(a@ + b@)
}

/// The index-tagged hash: the digest of the little-endian bytes of `idx`
/// followed by the bytes of `hash`.
pub open spec fn indexed_hash(idx: u64, hash: Hash) -> Hash {
    digest(spec_u64_to_le_bytes(idx) + hash@)
}

/// The hash that commits a node with children `left` and `right` to the tag `idx`.
pub open spec fn node_hash(idx: u64, left: Hash, right: Hash) -> Hash {
    indexed_hash(idx, hash_pair(left, right))
}

/// Append the bytes of `src` to `buf`.
fn push_bytes(buf: &mut Vec<u8>, src: &[u8])
    ensures
        final(buf)@ == old(buf)@ + src@,
{
    let mut i: usize = 0;
    while i < src.len()
        invariant
            i <= src.len(),
            buf@ == old(buf)@ + src@.subrange(0, i as int),
        decreases src.len() - i,
    {
        buf.push(src[i]);
        i += 1;
        proof {
            assert(buf@ =~= old(buf)@ + src@.subrange(0, i as int));
        }
    }
    proof {
        assert(src@.subrange(0, i as int) =~= src@);
    }
}

/// Types with a canonical hash
pub trait Hashable {
    /// The canonical hash of the value. An implementation states here what
    /// `hash` returns.
    open spec fn hashed(&self) -> Hash {
        arbitrary()
    }

    fn hash(&self) -> (h: Hash)
        ensures
            h == self.hashed(),
    ;
}

impl Hashable for Vec<u8> {
    open spec fn hashed(&self) -> Hash {
        digest(self@)
    }

    fn hash(&self) -> (h: Hash) {
        hash_bytes(self.as_slice())
    }
}

impl Hashable for u32 {
    open spec fn hashed(&self) -> Hash {
        digest(spec_u32_to_le_bytes(*self))
    }

    fn hash(&self) -> (h: Hash) {
        let bytes = u32_to_le_bytes(*self);
        hash_bytes(bytes.as_slice())
    }
}

impl Hashable for u64 {
    open spec fn hashed(&self) -> Hash {
        digest(spec_u64_to_le_bytes(*self))
    }

    fn hash(&self) -> (h: Hash) {
        let bytes = u64_to_le_bytes(*self);
        hash_bytes(bytes.as_slice())
    }
}

impl Hashable for Hash {
    open spec fn hashed(&self) -> Hash {
        *self
    }

    /// Return the hash, without hashing again.
    fn hash(&self) -> (h: Hash) {
        *self
    }
}

impl<A: Hashable, B: Hashable> Hashable for (A, B) {
    open spec fn hashed(&self) -> Hash {
        hash_pair(self.0.hashed(), self.1.hashed())
    }

    fn hash(&self) -> (h: Hash) {
        let a = self.0.hash();
        let b = self.1.hash();
        let mut buf: Vec<u8> = Vec::new();
        push_bytes(&mut buf, a.0.as_slice());
        push_bytes(&mut buf, b.0.as_slice());
        proof {
            assert(buf@ =~= a@ + b@);
        }
        hash_bytes(buf.as_slice())
    }
}

/// Return the hash of `idx` and `hash`.
///
/// This function is used to avoid collisions among leaf data hashes themselves.
pub fn hash_with_index(idx: u64, hash: &Hash) -> (h: Hash)
    ensures
        h == indexed_hash(idx, *hash),
{
    let mut buf = u64_to_le_bytes(idx);
    push_bytes(&mut buf, hash.0.as_slice());
    hash_bytes(buf.as_slice())
}

} // verus!
