//! Batches of hashed keys, as they are handed to the table for building and
//! for probing.

use vstd::prelude::*;

verus! {

/// One row of a key batch, as contracts see it: the hash, and the encoded
/// key bytes unless the key is null.
pub type KeyRow = (u64, Option<Seq<u8>>);

/// A batch of row-encoded keys: two parallel columns of the same length, the
/// hashes and the nullable encoded keys.
pub struct RowEncodedKeys {
    hashes: Vec<u64>,
    keys: Vec<Option<Vec<u8>>>,
}

/// A batch of keys of a single column in that column's own encoding. The
/// table indexes row-encoded batches only; this one carries the hashes.
pub struct SingleKeys {
    pub hashes: Vec<u64>,
}

/// A batch of hashed keys in one of the two encodings.
pub enum HashKeys {
    RowEncoded(RowEncodedKeys),
    Single(SingleKeys),
}

impl View for RowEncodedKeys {
    type V = Seq<KeyRow>;

    closed spec fn view(&self) -> Seq<KeyRow> {
        Seq::new(
            self.hashes@.len(),
            |i: int|
                (
                    self.hashes@[i],
                    match self.keys@[i] {
                        Some(k) => Some(k@),
                        None => None,
                    },
                ),
        )
    }
}

impl RowEncodedKeys {
    #[verifier::type_invariant]
    spec fn columns_parallel(self) -> bool {
        self.hashes@.len() == self.keys@.len()
    }

    /// Pairs a column of hashes with a column of keys. `None` when the two
    /// differ in length.
    pub fn new(hashes: Vec<u64>, keys: Vec<Option<Vec<u8>>>) -> (r: Option<RowEncodedKeys>)
        ensures
            r is Some <==> hashes@.len() == keys@.len(),
            r matches Some(b) ==> {
                &&& b@.len() == hashes@.len()
                &&& forall|i: int|
                    0 <= i < hashes@.len() ==> (#[trigger] b@[i]).0 == hashes@[i]
                &&& forall|i: int|
                    0 <= i < hashes@.len() ==> (#[trigger] b@[i]).1 == match keys@[i] {
                        Some(k) => Some(k@),
                        None => None::<Seq<u8>>,
                    }
            },
    {
        if hashes.len() == keys.len() {
            Some(RowEncodedKeys { hashes, keys })
        } else {
            None
        }
    }

    /// The number of rows.
    pub fn len(&self) -> (n: usize)
        ensures
            n == self@.len(),
    {
        self.hashes.len()
    }

    /// The hash of row `i`.
    pub fn hash(&self, i: usize) -> (h: u64)
        requires
            i < self@.len(),
        ensures
            h == self@[i as int].0,
    {
        self.hashes[i]
    }

    /// The encoded key of row `i`, or `None` where the key is null.
    pub fn key(&self, i: usize) -> (k: Option<&[u8]>)
        requires
            i < self@.len(),
        ensures
            k is Some <==> self@[i as int].1 is Some,
            k matches Some(bytes) ==> self@[i as int].1 == Some(bytes@),
    {
        proof {
            use_type_invariant(self);
        }
        match &self.keys[i] {
            Some(k) => Some(k.as_slice()),
            None => None,
        }
    }
}

impl HashKeys {
    /// The rows of a row-encoded batch. A batch in the other encoding has no
    /// rows that the table could read.
    pub open spec fn rows(&self) -> Seq<KeyRow> {
        match self {
            HashKeys::RowEncoded(k) => k@,
            HashKeys::Single(_) => Seq::empty(),
        }
    }
}

} // verus!
