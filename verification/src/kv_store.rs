//! Configuration for the key-value-store layer that shards vbuckets
//! across store instances.  The store itself lives outside the engine;
//! only the sizing arithmetic is part of the core.

#![allow(unused_imports)]
use vstd::prelude::*;

verus! {

/// How one store instance is addressed: the total vbucket count, the
/// database directory, and which of the shards this instance serves.
pub struct CouchKVStoreConfig {
    pub max_vbuckets: u16,
    pub db_name: String,
    pub max_shards: u16,
    pub shard_id: u16,
}

impl CouchKVStoreConfig {
    /// How many vbucket slots this instance must cache: the total
    /// vbucket count divided by the shard count, rounded up.
    pub fn get_cache_size(&self) -> (r: usize)
        requires
            self.max_shards > 0,
        ensures
            r == (self.max_vbuckets + self.max_shards - 1) as int / self.max_shards as int,
            r * self.max_shards >= self.max_vbuckets,
            (r > 0 ==> (r - 1) * self.max_shards < self.max_vbuckets),
    {
        let r = (self.max_vbuckets as usize + self.max_shards as usize - 1)
            / self.max_shards as usize;
        proof {
            let v = self.max_vbuckets as int;
            let s = self.max_shards as int;
            let q = (v + s - 1) / s;
            assert(q * s + (v + s - 1) % s == v + s - 1) by (nonlinear_arith)
                requires
                    s > 0,
                    q == (v + s - 1) / s,
            ;
            assert(0 <= (v + s - 1) % s < s) by (nonlinear_arith)
                requires
                    s > 0,
            ;
            assert((q - 1) * s == q * s - s) by (nonlinear_arith);
        }
        r
    }
}

} // verus!
