//! The cluster configuration as plain data. Reading it from disk and
//! deserialising it happen outside this crate; the values land here.

use vstd::prelude::*;

verus! {

/// One replica's network identity.
#[derive(Clone, Debug, PartialEq)]
pub struct ConfigReplica {
    pub address: String,
}

/// A cluster description: a format version and the replica list. The
/// addresses, sorted lexicographically, define the replica indices.
#[derive(Clone, Debug, PartialEq)]
pub struct Config {
    pub version: u8,
    pub replicas: Vec<ConfigReplica>,
}

impl Config {
    /// The quorum a cluster of this size needs: floor(N / 2) + 1.
    pub fn quorum(&self) -> (r: usize)
        ensures
            r == self.replicas@.len() as int / 2 + 1,
    {
        self.replicas.len() / 2 + 1
    }

    /// The replica addresses, in the configuration's order.
    pub fn addresses(&self) -> (r: Vec<String>)
        ensures
            r@.len() == self.replicas@.len(),
            forall|i: int| 0 <= i < r@.len() ==> r@[i]@ == self.replicas@[i].address@,
    {
        let mut out: Vec<String> = Vec::new();
        let mut i: usize = 0;
        while i < self.replicas.len()
            invariant
                i <= self.replicas@.len(),
                out@.len() == i,
                forall|j: int| 0 <= j < i ==> out@[j]@ == self.replicas@[j].address@,
            decreases self.replicas@.len() - i,
        {
            out.push(self.replicas[i].address.clone());
            i = i + 1;
        }
        out
    }
}

} // verus!
