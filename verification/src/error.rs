//! Merkle-Mountain-Range errors

use crate::text::{decimal, hex, push_decimal};
use vstd::prelude::*;
use vstd::string::StringExecFns;

verus! {

/// What can go wrong when a MMR is built, queried or checked.
#[derive(Debug, PartialEq, Eq, Clone)]
pub enum Error {
    /// expecting leaf node at pos: {0}
    ExpectingLeafNode(u64),
    /// invalid hex string: {0}
    InvalidHexString(String),
    /// invalid node hash at idx {0}: {1} != {2}
    InvalidNodeHash(u64, crate::hash::Hash, crate::hash::Hash),
    /// invalid node height: {0}
    InvalidNodeHeight(u64),
    /// invalid root hash: {0} != {1}
    InvalidRootHash(crate::hash::Hash, crate::hash::Hash),
    /// missing hash at index: {0}
    MissingHashAtIndex(u64),
    /// missing root node
    MissingRootNode,
}

impl Error {
    /// The message that describes the error.
    pub open spec fn message(&self) -> Seq<char> {
        match self {
            Error::ExpectingLeafNode(pos) => "expecting leaf node at pos: "@ + decimal(*pos as nat),
            Error::InvalidHexString(text) => "invalid hex string: "@ + text@,
            Error::InvalidNodeHash(idx, stored, expected) => "invalid node hash at idx "@ + decimal(
                *idx as nat,
            ) + ": "@ + hex(stored@.take(6)) + " != "@ + hex(expected@.take(6)),
            Error::InvalidNodeHeight(height) => "invalid node height: "@ + decimal(*height as nat),
            Error::InvalidRootHash(got, root) => "invalid root hash: "@ + hex(got@.take(6))
                + " != "@ + hex(root@.take(6)),
            Error::MissingHashAtIndex(idx) => "missing hash at index: "@ + decimal(*idx as nat),
            Error::MissingRootNode => "missing root node"@,
        }
    }

    /// The message that describes the error.
    pub fn to_string(&self) -> (s: String)
        ensures
            s@ == self.message(),
    {
        match self {
            Error::ExpectingLeafNode(pos) => {
                let mut s = String::from_str("expecting leaf node at pos: ");
                push_decimal(&mut s, *pos);
                s
            },
            Error::InvalidHexString(text) => {
                let mut s = String::from_str("invalid hex string: ");
                s.append(text.as_str());
                s
            },
            Error::InvalidNodeHash(idx, stored, expected) => {
                let mut s = String::from_str("invalid node hash at idx ");
                push_decimal(&mut s, *idx);
                s.append(": ");
                s.append(stored.to_string().as_str());
                s.append(" != ");
                s.append(expected.to_string().as_str());
                s
            },
            Error::InvalidNodeHeight(height) => {
                let mut s = String::from_str("invalid node height: ");
                push_decimal(&mut s, *height);
                s
            },
            Error::InvalidRootHash(got, root) => {
                let mut s = String::from_str("invalid root hash: ");
                s.append(got.to_string().as_str());
                s.append(" != ");
                s.append(root.to_string().as_str());
                s
            },
            Error::MissingHashAtIndex(idx) => {
                let mut s = String::from_str("missing hash at index: ");
                push_decimal(&mut s, *idx);
                s
            },
            Error::MissingRootNode => String::from_str("missing root node"),
        }
    }
}

} // verus!
