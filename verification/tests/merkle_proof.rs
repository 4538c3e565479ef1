//! Merkle proof store tests

use arber::{
    hash_with_index, Encodable, Error, Hashable, MerkleMountainRange, MerkleProof, VecStore,
};

type E = Vec<u8>;

fn make_mmr(num_leafs: u8) -> MerkleMountainRange<E, VecStore<E>> {
    let s = VecStore::<E>::new();
    let mut mmr = MerkleMountainRange::<E, VecStore<E>>::new(0, s);

    (0..=num_leafs.saturating_sub(1)).for_each(|i| {
        let n = vec![i];
        let _ = mmr.append(&n).unwrap();
    });

    mmr
}

#[test]
fn non_existing_node() {
    let mmr = make_mmr(7);

    assert_eq!(
        "expecting leaf node at pos: 7".to_string(),
        mmr.prove(7).err().unwrap().to_string(),
    );
}

#[test]
fn single_node() -> Result<(), Error> {
    let s = VecStore::<E>::new();
    let mut mmr = MerkleMountainRange::<E, VecStore<E>>::new(0, s);

    let node = vec![42u8];
    let size = mmr.append(&node)?;
    let proof = mmr.prove(size)?;

    // this root hash is wrong because is has not been hashed with the node index
    let root = node.encode().hash();

    assert_eq!(
        "invalid root hash: 22f305cc9063 != 3383f75810a7".to_string(),
        proof.verify(root, &node, size).err().unwrap().to_string()
    );

    let root = hash_with_index(0, &root.hash());
    assert!(proof.verify(root, &node, size)?);

    Ok(())
}

#[test]
fn minimal_mmr() {
    let mmr = make_mmr(2);
    let proof = mmr.prove(2).unwrap();

    assert!(proof
        .verify(mmr.hash(mmr.size()).unwrap(), &vec![1u8], 2)
        .unwrap());
}

#[test]
fn verify_proof_single_peak() {
    let mmr = make_mmr(4);
    let proof = mmr.prove(5).unwrap();

    assert_eq!(7, proof.mmr_size);
    assert_eq!(2, proof.path.len());

    assert!(proof.verify(mmr.root().unwrap(), &vec![3u8], 5).unwrap());
}

#[test]
fn verify_proof_two_peaks() {
    let mmr = make_mmr(6);
    let proof = mmr.prove(8).unwrap();

    assert_eq!(10, proof.mmr_size);
    assert_eq!(2, proof.path.len());
    assert!(proof.verify(mmr.root().unwrap(), &vec![4u8], 8).unwrap());
}

#[test]
fn verify_proof_three_peaks() {
    let mmr = make_mmr(11);

    let proof = mmr.prove(5).unwrap();
    assert!(proof.verify(mmr.root().unwrap(), &vec![3u8], 5).unwrap());

    let proof = mmr.prove(16).unwrap();
    assert!(proof.verify(mmr.root().unwrap(), &vec![8u8], 16).unwrap());

    let proof = mmr.prove(19).unwrap();
    assert!(proof.verify(mmr.root().unwrap(), &vec![10u8], 19).unwrap());
}

#[test]
fn proof_encode_decode() {
    let mmr = make_mmr(11);
    let proof = mmr.prove(5).unwrap();
    let bytes = proof.encode();
    let proof = MerkleProof::decode(bytes.as_slice()).unwrap();

    assert!(proof.verify(mmr.root().unwrap(), &vec![3u8], 5).unwrap());
}
