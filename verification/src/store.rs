//! Merkle-Mountain-Range storage

use crate::error::Error;
use vstd::prelude::*;

verus! {

/// What is found at `index` in a log of hashes.
pub open spec fn lookup(log: Seq<crate::hash::Hash>, index: u64) -> Result<
    crate::hash::Hash,
    Error,
> {
    if index < log.len() {
        Ok(log[index as int])
    } else {
        Err(Error::MissingHashAtIndex(index))
    }
}

/// An append-only log of the MMR's hashes, with the leaves' data beside it
/// where the store keeps them.
pub trait Store<T> {
    /// The hashes of all nodes, in the order of their positions. A store
    /// states here what it holds; the contracts of the MMR speak of nothing
    /// else of a store.
    open spec fn hash_log(&self) -> Seq<crate::hash::Hash> {
        arbitrary()
    }

    fn hash_at(&self, index: u64) -> (r: Result<crate::hash::Hash, Error>)
        ensures
            r == lookup(self.hash_log(), index),
    ;

    fn append(&mut self, elem: &T, hashes: &[crate::hash::Hash]) -> (r: Result<(), Error>)
        ensures
            r is Ok ==> final(self).hash_log() == old(self).hash_log() + hashes@,
            r is Err ==> final(self).hash_log() == old(self).hash_log(),
    ;
}

/// A store that keeps the hashes, and the leaves if wanted, in memory.
pub struct VecStore<T> {
    /// Optional store elements, `None` if only hashes are stored.
    pub data: Option<Vec<T>>,
    /// MMR hashes for both, leaves and parents
    pub hashes: Vec<crate::hash::Hash>,
}

impl<T: Clone> Store<T> for VecStore<T> {
    open spec fn hash_log(&self) -> Seq<crate::hash::Hash> {
        self.hashes@
    }

    fn hash_at(&self, index: u64) -> (r: Result<crate::hash::Hash, Error>) {
        if index < self.hashes.len() as u64 {
            Ok(self.hashes[index as usize])
        } else {
            Err(Error::MissingHashAtIndex(index))
        }
    }

    fn append(&mut self, elem: &T, hashes: &[crate::hash::Hash]) -> (r: Result<(), Error>)
        ensures
            r is Ok,
            old(self).data is Some == final(self).data is Some,
            old(self).data matches Some(d) ==> final(self).data->0@.len() == d@.len() + 1
                && final(self).data->0@.subrange(0, d@.len() as int) == d@ && cloned(
                *elem,
                final(self).data->0@.last(),
            ),
    {
        if let Some(data) = &mut self.data {
            data.push(elem.clone());
        }
        let ghost data_now = self.data;
        proof {
            if let Some(d) = old(self).data {
                assert(data_now->0@.subrange(0, d@.len() as int) =~= d@);
            }
            assert(self.hashes@ =~= old(self).hashes@ + hashes@.subrange(0, 0));
        }
        let mut i: usize = 0;
        while i < hashes.len()
            invariant
                i <= hashes.len(),
                self.hashes@ == old(self).hashes@ + hashes@.subrange(0, i as int),
                self.data == data_now,
            decreases hashes.len() - i,
        {
            self.hashes.push(hashes[i]);
            i += 1;
            proof {
                assert(self.hashes@ =~= old(self).hashes@ + hashes@.subrange(0, i as int));
            }
        }
        proof {
            assert(hashes@.subrange(0, i as int) =~= hashes@);
        }
        Ok(())
    }
}

impl<T> VecStore<T> {
    /// An empty store that keeps the leaves beside the hashes.
    pub fn new() -> (s: Self)
        ensures
            s.hashes@.len() == 0,
            s.data matches Some(d) && d@.len() == 0,
    {
        VecStore { data: Some(Vec::new()), hashes: Vec::new() }
    }
}

impl<T> Default for VecStore<T> {
    fn default() -> (s: Self)
        ensures
            s.hashes@.len() == 0,
            s.data matches Some(d) && d@.len() == 0,
    {
        Self::new()
    }
}

} // verus!
