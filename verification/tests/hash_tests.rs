//! Hash type unit tests

use arber::hash;
use arber::{hash_with_index, Error, Hashable};
use blake2::digest::consts::U32;
use blake2::{Blake2b, Digest};

fn hash_two(a: &[u8], b: &[u8]) -> hash::Hash {
    let mut h = Blake2b::<U32>::new();
    h.update(a);
    h.update(b);
    let v = h.finalize();
    hash::Hash::from_vec(&v)
}

#[test]
fn from_vec_works() {
    let v = vec![1, 2, 3];
    let h = hash::Hash::from_vec(&v).to_string();
    assert_eq!(h, "010203000000");

    let v = Vec::new();
    let h = hash::Hash::from_vec(&v).to_string();
    assert_eq!(h, "000000000000");

    let v = vec![222, 173, 202, 254, 186, 190];
    let h = hash::Hash::from_vec(&v).to_string();
    assert_eq!(h, "deadcafebabe");
}

#[test]
fn from_hex_works() {
    let want = hash::Hash::from_vec(&[]);
    let got = hash::Hash::from_hex("0x00").unwrap();
    assert_eq!(want, got);

    let want = hash::Hash::from_vec(&[202, 254]);
    let got = hash::Hash::from_hex("0xcafe").unwrap();
    assert_eq!(want, got);

    let want = hash::Hash::from_vec(&[222, 173, 202, 254, 186, 190]);
    let got = hash::Hash::from_hex("0xdeadcafebabe").unwrap();
    assert_eq!(want, got);
}

#[test]
fn from_hex_error() {
    let want = Error::InvalidHexString("000".to_string());
    let got = hash::Hash::from_hex("0x000").err().unwrap();
    assert_eq!(want, got);

    let want = Error::InvalidHexString("thisisbad".to_string());
    let got = hash::Hash::from_hex("0xthisisbad").err().unwrap();
    assert_eq!(want, got);
}

#[test]
fn vec_hash_works() {
    let v1: Vec<u8> = vec![0, 0, 0, 0];
    let h1 = v1.hash();

    let v2: Vec<u8> = vec![0, 0, 0, 0];
    let h2 = v2.hash();

    let v3: Vec<u8> = vec![0, 0, 0, 1];
    let h3 = v3.hash();

    assert_eq!(h1, h2);
    assert_ne!(h1, h3);
    assert_ne!(h2, h3);
}

#[test]
fn u64_hash_works() {
    let u1 = 0u64;
    let h1 = u1.hash();

    let u2 = 0u64;
    let h2 = u2.hash();

    let u3 = 1u64;
    let h3 = u3.hash();

    assert_eq!(h1, h2);
    assert_ne!(h1, h3);
    assert_ne!(h2, h3);
}

#[test]
fn u32_hash_works() {
    let u1 = 0u32;
    let h1 = u1.hash();

    let u2 = 0u32;
    let h2 = u2.hash();

    let u3 = 1u32;
    let h3 = u3.hash();

    assert_eq!(h1, h2);
    assert_ne!(h1, h3);
    assert_ne!(h2, h3);
}

#[test]
fn tuple_hash_works() {
    let h1 = (1u64, vec![0u8; 10]).hash();
    let h2 = (1u64, vec![0u8; 10]).hash();
    let h3 = (2u64, vec![0u8; 10]).hash();

    assert_eq!(h1, h2);
    assert_ne!(h1, h3);
    assert_ne!(h2, h3);
}

#[test]
fn hash_two_works() {
    let h1 = hash_two(&1u64.to_le_bytes(), &vec![0u8; 10]);
    let h2 = (1u64, vec![0u8; 10]).hash();

    assert_ne!(h1, h2);

    let h1 = 1u64.hash();
    let h2 = vec![0u8; 10].hash();
    let h3 = hash_two(&h1.0, &h2.0);
    let h4 = (h1, h2).hash();

    assert_eq!(h3, h4);
}

#[test]
fn hash_with_index_works() {
    let h1 = vec![1u8; 10].hash();
    let h2 = vec![1u8; 10].hash();

    assert_eq!(h1, h2);

    let want = hash_two(&1u64.to_le_bytes(), &h1.0);
    let got = hash_with_index(1, &h1);
    assert_eq!(want, got);

    let want = hash_two(&2u64.to_le_bytes(), &h2.0);
    let got = hash_with_index(2, &h2);
    assert_eq!(want, got);
}

#[test]
fn digest_is_blake2b_256() {
    // BLAKE2b with 32 bytes of output, of the empty string
    let h = Vec::<u8>::new().hash();
    assert_eq!(
        h.to_hex(),
        "0e5751c026e543b2e8ab2eb06099daa1d1e5df47778f7787faab45cdf12fe3a8"
    );
    assert_eq!(h.to_string(), "0e5751c026e5");
}

#[test]
fn integers_hash_as_little_endian_bytes() {
    assert_eq!(258u32.hash(), vec![2u8, 1, 0, 0].hash());
    assert_eq!(258u64.hash(), vec![2u8, 1, 0, 0, 0, 0, 0, 0].hash());
    assert_ne!(258u32.hash(), 258u64.hash());
}

#[test]
fn hash_of_a_hash_is_itself() {
    let h = vec![7u8; 3].hash();
    assert_eq!(h.hash(), h);
}

#[test]
fn zero_hash_is_all_zero() {
    assert_eq!(arber::hash::zero_hash(), hash::Hash([0u8; 32]));
    assert_eq!(arber::hash::zero_hash().to_hex(), "0".repeat(64));
}

#[test]
fn from_vec_truncates_and_pads() {
    let long = vec![9u8; 40];
    assert_eq!(hash::Hash::from_vec(&long), hash::Hash([9u8; 32]));
    let mut want = [0u8; 32];
    want[0] = 5;
    assert_eq!(hash::Hash::from_vec(&[5]), hash::Hash(want));
}

#[test]
fn from_hex_edge_cases() {
    // nothing behind the prefix is the zero hash
    assert_eq!(hash::Hash::from_hex("0x").unwrap(), arber::hash::zero_hash());
    assert_eq!(hash::Hash::from_hex("").unwrap(), arber::hash::zero_hash());
    // an odd number of digits fails, and the error carries what was left
    assert_eq!(
        hash::Hash::from_hex("0x0").err().unwrap(),
        Error::InvalidHexString("0".to_string())
    );
    // white space around the string is dropped, upper case digits count
    assert_eq!(
        hash::Hash::from_hex("  0xCAFE\n").unwrap(),
        hash::Hash::from_vec(&[202, 254])
    );
    assert_eq!(hash::Hash::from_hex("cafe").unwrap(), hash::Hash::from_vec(&[202, 254]));
    // a sign is no digit
    assert_eq!(
        hash::Hash::from_hex("0x+f").err().unwrap(),
        Error::InvalidHexString("+f".to_string())
    );
    // text that is no ASCII fails without a panic
    assert_eq!(
        hash::Hash::from_hex("0x\u{20ac}a").err().unwrap(),
        Error::InvalidHexString("\u{20ac}a".to_string())
    );
    // more than 32 bytes are cut off
    let long = format!("0x{}", "ab".repeat(40));
    assert_eq!(hash::Hash::from_hex(&long).unwrap(), hash::Hash([0xab; 32]));
}

#[test]
fn parse_hex_reads_bytes() {
    assert_eq!(arber::hash::parse_hex("0x0102ff"), Ok(vec![1u8, 2, 255]));
    assert_eq!(arber::hash::parse_hex("0x0x01"), Ok(vec![1u8]));
    assert_eq!(arber::hash::parse_hex("0xzz"), Err("zz".to_string()));
}

#[test]
fn error_messages() {
    assert_eq!(
        Error::ExpectingLeafNode(7).to_string(),
        "expecting leaf node at pos: 7"
    );
    assert_eq!(
        Error::InvalidHexString("xyz".to_string()).to_string(),
        "invalid hex string: xyz"
    );
    assert_eq!(
        Error::InvalidNodeHash(12, hash::Hash([0u8; 32]), hash::Hash([0xab; 32])).to_string(),
        "invalid node hash at idx 12: 000000000000 != abababababab"
    );
    assert_eq!(
        Error::InvalidNodeHeight(3).to_string(),
        "invalid node height: 3"
    );
    assert_eq!(
        Error::InvalidRootHash(hash::Hash([1u8; 32]), hash::Hash([2u8; 32])).to_string(),
        "invalid root hash: 010101010101 != 020202020202"
    );
    assert_eq!(
        Error::MissingHashAtIndex(18446744073709551615).to_string(),
        "missing hash at index: 18446744073709551615"
    );
    assert_eq!(Error::MissingHashAtIndex(0).to_string(), "missing hash at index: 0");
    assert_eq!(Error::MissingRootNode.to_string(), "missing root node");
}
