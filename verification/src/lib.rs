//! An embedded, disk-resident key-value store built on linear hashing: the
//! table grows one bucket at a time, addressed by the low bits of a key's
//! hash, with per-bucket overflow chains, a checksummed page format, and
//! crash recovery by rescanning the page files.
//!
//! [`LinHash`] is the public store. Each operation takes a directory
//! snapshot, acquires the bucket's stripe lock, and performs one page-chain
//! transaction; a stale snapshot is retried. Splitting is triggered by
//! [`LinHash::maybe_split`], processed synchronously after each insert --
//! an embedding may instead signal a background thread that calls it.

use vstd::prelude::*;

pub mod bytes;
pub mod chain;
pub mod codec;
pub mod device;
pub mod error;
pub mod frame;
pub mod generator;
pub mod laws;
pub mod lock;
pub mod page;
pub mod root;
pub mod split;
pub mod statx;
pub mod store;

use crate::chain::chain_lookup;
use crate::codec::{calc_max_kv_per_page, MAX_PAYLOAD_LEN, PAGE_META_LEN, PAIR_META_LEN};
use crate::device::Device;
use crate::error::{Error, Result};
use crate::lock::StripeLock;
use crate::page::PageV;
use crate::root::{Root, MAX_BASE_LEVEL};
use crate::store::{flatten_chains, opt_bytes, spec_hash, LinHashCore, RETRY_LIMIT};

verus! {

/// Stripes in the per-bucket lock table.
pub const N_LOCK_STRIPES: usize = 1024;

/// The linear-hash table: the verified single-writer core plus the striped
/// per-bucket locks that the embedding's concurrency discipline uses.
pub struct LinHash {
    pub core: LinHashCore,
    pub locks: StripeLock,
}

impl LinHash {
    pub open spec fn inv(self) -> bool {
        &&& self.core.inv()
        &&& self.locks.wf()
    }

    pub open spec fn ksize(self) -> usize {
        self.core.ksize()
    }

    pub open spec fn vsize(self) -> usize {
        self.core.vsize()
    }

    /// Create or recover a table under `dir`: open the two page stores,
    /// rebuild the directory and counters from what they hold, and write
    /// the minimal two-bucket table first if the store is empty. Key and
    /// value sizes are fixed at creation and must match across opens. On
    /// success the table is fully recovered: the live count equals exactly
    /// the number of pairs stored across all bucket chains, and every
    /// chain's overflow ids lie below the allocation watermark.
    pub fn open(dir: &str, ksize: usize, vsize: usize) -> (r: Result<LinHash>)
        requires
            PAGE_META_LEN + PAIR_META_LEN + ksize + vsize <= MAX_PAYLOAD_LEN,
        ensures
            match r {
                Ok(db) => {
                    &&& db.inv()
                    &&& db.ksize() == ksize
                    &&& db.vsize() == vsize
                    &&& exists|chs: Seq<Seq<PageV>>|
                        #[trigger] db.core.listing(chs) && db.core.n_items == flatten_chains(
                            chs,
                        ).len()
                    &&& forall|b: u64, ch: Seq<PageV>, ids: Seq<u64>|
                        b < db.core.root.spec_n_pages() && #[trigger] crate::chain::wf_chain(
                            db.core.main_pages,
                            db.core.overflow_pages,
                            b,
                            ch,
                            ids,
                        ) ==> forall|j: int|
                            0 <= j < ids.len() ==> #[trigger] ids[j] < db.core.next_overflow_id
                },
                Err(e) => e matches Error::IO(_) || e == Error::Codec,
            },
    {
        let max_kv = calc_max_kv_per_page(ksize, vsize);
        let main_pages = match Device::open(dir, "main", ksize, vsize, max_kv) {
            Ok(d) => d,
            Err(e) => {
                return Err(e);
            },
        };
        let overflow_pages = match Device::open(dir, "overflow", ksize, vsize, max_kv) {
            Ok(d) => d,
            Err(e) => {
                return Err(e);
            },
        };
        proof {
            crate::root::lemma_shift_bound(1);
        }
        let mut core = LinHashCore {
            main_pages,
            overflow_pages,
            root: Root { base_level: 1, next_split_main_page_id: 0 },
            next_overflow_id: 0,
            n_items: 0,
        };
        let n_main_pages = match core.restore() {
            Ok(n) => n,
            Err(e) => {
                return Err(e);
            },
        };
        // Invariant: there are at least two valid primary pages.
        if n_main_pages < 2 {
            match core.init() {
                Ok(()) => {},
                Err(e) => {
                    return Err(e);
                },
            }
            let n_after_init = match core.restore() {
                Ok(n) => n,
                Err(e) => {
                    return Err(e);
                },
            };
            proof {
                // The freshly written two-bucket table cannot scan short:
                // both primary pages stand, each tagged level one, and each
                // is its own split source, so neither reads as a torn split.
                if n_after_init < 2 {
                    assert((0u64 & ((((1u64 << 1u64) - 1) as u64 >> 1u64) as u64)) == 0
                        && (1u64 & ((((1u64 << 1u64) - 1) as u64 >> 1u64) as u64))
                        == 0) by (bit_vector);
                    assert(crate::root::spec_old_page_id(0, 1) == 0);
                    assert(crate::root::spec_old_page_id(1, 1) == 0);
                    assert(!core.scan_boundary(0));
                    assert(!core.scan_boundary(1));
                }
            }
        }
        Ok(LinHash { core, locks: StripeLock::new(N_LOCK_STRIPES) })
    }

    /// The exact live key count.
    pub fn len(&self) -> (r: u64)
        ensures
            r == self.core.n_items,
    {
        self.core.n_items
    }

    /// The value stored under `key`. Routes under the current directory,
    /// holds the bucket's read lock, and retries on a stale snapshot.
    pub fn get(&self, key: &[u8]) -> (r: Result<Option<Vec<u8>>>)
        requires
            self.inv(),
            key@.len() >= 8,
        ensures
            match r {
                Ok(o) => exists|ch: Seq<PageV>, ids: Seq<u64>|
                    #[trigger] self.core.bucket_chain(
                        self.core.root.spec_page_chain_id(spec_hash(key@)),
                        ch,
                        ids,
                    ) && chain_lookup(ch, key@) == opt_bytes(o),
                Err(e) => {
                    &&& (e matches Error::IO(_) || e == Error::Codec
                        || e == Error::LocalLevelMismatch)
                    &&& self.core.bucket_intact(
                        self.core.root.spec_page_chain_id(spec_hash(key@)).main_page_id,
                    ) ==> (e == Error::LocalLevelMismatch || e matches Error::IO(_))
                    &&& self.core.bucket_ok(self.core.root.spec_page_chain_id(spec_hash(key@)))
                        ==> e matches Error::IO(_)
                },
            },
    {
        proof {
            self.core.lemma_cid_bounded(spec_hash(key@));
        }
        let hash = crate::store::hash_key(key);
        let mut attempt: u32 = 0;
        loop
            invariant
                self.inv(),
                key@.len() >= 8,
                hash == spec_hash(key@),
                attempt < RETRY_LIMIT,
            decreases RETRY_LIMIT - attempt,
        {
            let cid = self.core.root.calc_page_chain_id(hash);
            proof {
                self.core.lemma_cid_bounded(hash);
            }
            let guard = self.locks.read_lock(cid.main_page_id);
            match self.core.get_in_chain(cid, key) {
                Err(Error::LocalLevelMismatch) => {
                    if attempt >= RETRY_LIMIT - 1 {
                        return Err(Error::LocalLevelMismatch);
                    }
                },
                r => {
                    return r;
                },
            }
            attempt = attempt + 1;
        }
    }

    /// Store `key -> value`, returning the previous value under that key.
    /// The split wake-up left by the previous insert is processed first —
    /// coalescing promises only that a pending split eventually runs — so
    /// that when this call returns, its own bucket transaction is the last
    /// change to the table: afterwards the routed bucket maps `key` to
    /// `value` and answers every other key as it did just before this
    /// transaction. The bucket transaction itself routes under the settled
    /// directory, holds the bucket's selective lock (writers exclude each
    /// other, readers stay admitted), retries on a stale snapshot, and
    /// bumps the live count on a fresh key.
    pub fn insert(&mut self, key: Vec<u8>, value: Vec<u8>) -> (r: Result<Option<Vec<u8>>>)
        requires
            old(self).inv(),
            key@.len() >= 8,
            key@.len() == old(self).ksize(),
            value@.len() == old(self).vsize(),
        ensures
            final(self).inv(),
            final(self).ksize() == old(self).ksize(),
            final(self).vsize() == old(self).vsize(),
            match r {
                Ok(o) => {
                    &&& exists|pre2: LinHashCore|
                        {
                            &&& #[trigger] crate::split::split_step(old(self).core, pre2)
                            &&& pre2.root == final(self).core.root
                            &&& pre2.chain_replaced(
                                final(self).core,
                                final(self).core.root.spec_page_chain_id(spec_hash(key@)),
                                opt_bytes(o),
                                key@,
                                Some(value@),
                            )
                        }
                    &&& final(self).core.n_items == (if o is None && old(self).core.n_items
                        < u64::MAX {
                        old(self).core.n_items + 1
                    } else {
                        old(self).core.n_items as int
                    })
                },
                Err(e) => {
                    &&& (e matches Error::IO(_) || e == Error::Codec
                        || e == Error::LocalLevelMismatch)
                    &&& final(self).core.n_items == old(self).core.n_items
                },
            },
    {
        // Process the pending wake-up before this bucket transaction.
        let _ = self.maybe_split();
        let ghost mid = *self;
        let hash = crate::store::hash_key(key.as_slice());
        let mut attempt: u32 = 0;
        loop
            invariant
                self.inv(),
                *self == mid,
                crate::split::split_step(old(self).core, mid.core),
                mid.core.n_items == old(self).core.n_items,
                key@.len() >= 8,
                key@.len() == self.ksize(),
                value@.len() == self.vsize(),
                self.ksize() == old(self).ksize(),
                self.vsize() == old(self).vsize(),
                hash == spec_hash(key@),
                attempt < RETRY_LIMIT,
            decreases RETRY_LIMIT - attempt,
        {
            let cid = self.core.root.calc_page_chain_id(hash);
            proof {
                self.core.lemma_cid_bounded(hash);
            }
            let k = crate::split::clone_bytes(&key);
            let v = crate::split::clone_bytes(&value);
            let attempt_result = {
                let guard = self.locks.selective_lock(cid.main_page_id);
                self.core.insert_in_chain(cid, k, v)
            };
            match attempt_result {
                Err(Error::LocalLevelMismatch) => {
                    if attempt >= RETRY_LIMIT - 1 {
                        return Err(Error::LocalLevelMismatch);
                    }
                },
                Err(e) => {
                    return Err(e);
                },
                Ok(o) => {
                    let ghost opost = self.core;
                    if o.is_none() {
                        if self.core.n_items < u64::MAX {
                            self.core.n_items = self.core.n_items + 1;
                        }
                    }
                    proof {
                        LinHashCore::lemma_chain_replaced_counter_irrelevant(
                            mid.core,
                            opost,
                            self.core,
                            cid,
                            opt_bytes(o),
                            key@,
                            Some(value@),
                        );
                        assert(crate::split::split_step(old(self).core, mid.core));
                    }
                    return Ok(o);
                },
            }
            attempt = attempt + 1;
        }
    }

    /// Remove `key`, returning the value it had. Holds the bucket's
    /// exclusive lock — deletion restructures a page — and decrements the
    /// live count when a pair was removed. On an absent key the store is
    /// untouched; on a present key the routed bucket afterwards answers
    /// every other key as before, and no longer answers `key` (provided the
    /// chain held `key` in one page, true of every chain the store builds).
    pub fn delete(&mut self, key: &[u8]) -> (r: Result<Option<Vec<u8>>>)
        requires
            old(self).inv(),
            key@.len() >= 8,
        ensures
            final(self).inv(),
            final(self).ksize() == old(self).ksize(),
            final(self).vsize() == old(self).vsize(),
            final(self).core.root == old(self).core.root,
            match r {
                Ok(None) => {
                    &&& final(self).core == old(self).core
                    &&& exists|ch: Seq<PageV>, ids: Seq<u64>|
                        #[trigger] old(self).core.bucket_chain(
                            old(self).core.root.spec_page_chain_id(spec_hash(key@)),
                            ch,
                            ids,
                        ) && chain_lookup(ch, key@) is None
                },
                Ok(Some(v)) => {
                    &&& exists|
                        ch1: Seq<PageV>,
                        ids1: Seq<u64>,
                        ch2: Seq<PageV>,
                        ids2: Seq<u64>,
                    |
                        {
                            &&& #[trigger] old(self).core.bucket_chain(
                                old(self).core.root.spec_page_chain_id(spec_hash(key@)),
                                ch1,
                                ids1,
                            )
                            &&& #[trigger] final(self).core.bucket_chain(
                                old(self).core.root.spec_page_chain_id(spec_hash(key@)),
                                ch2,
                                ids2,
                            )
                            &&& chain_lookup(ch1, key@) == Some(v@)
                            &&& (forall|k2: Seq<u8>|
                                k2 != key@ ==> #[trigger] chain_lookup(ch2, k2) == chain_lookup(
                                    ch1,
                                    k2,
                                ))
                            &&& (crate::chain::key_in_one_page(ch1, key@) ==> chain_lookup(
                                ch2,
                                key@,
                            ) is None)
                            &&& (forall|oid: u64|
                                !ids1.contains(oid) ==> final(self).core.overflow_pages.raw_at(oid)
                                    == #[trigger] old(self).core.overflow_pages.raw_at(oid))
                        }
                    &&& final(self).core.n_items == (if old(self).core.n_items > 0 {
                        old(self).core.n_items - 1
                    } else {
                        0int
                    })
                },
                Err(e) => {
                    &&& (e matches Error::IO(_) || e == Error::Codec
                        || e == Error::LocalLevelMismatch)
                    &&& final(self).core.n_items == old(self).core.n_items
                },
            },
    {
        proof {
            self.core.lemma_cid_bounded(spec_hash(key@));
        }
        let hash = crate::store::hash_key(key);
        let mut attempt: u32 = 0;
        loop
            invariant
                self.inv(),
                *self == *old(self),
                key@.len() >= 8,
                hash == spec_hash(key@),
                attempt < RETRY_LIMIT,
            decreases RETRY_LIMIT - attempt,
        {
            let cid = self.core.root.calc_page_chain_id(hash);
            proof {
                self.core.lemma_cid_bounded(hash);
            }
            let attempt_result = {
                let guard = self.locks.exclusive_lock(cid.main_page_id);
                self.core.delete_in_chain(cid, key)
            };
            match attempt_result {
                Err(Error::LocalLevelMismatch) => {
                    if attempt >= RETRY_LIMIT - 1 {
                        return Err(Error::LocalLevelMismatch);
                    }
                },
                Err(e) => {
                    return Err(e);
                },
                Ok(o) => {
                    let ghost opre = *old(self);
                    let ghost opost = self.core;
                    if o.is_some() {
                        if self.core.n_items > 0 {
                            self.core.n_items = self.core.n_items - 1;
                        }
                    }
                    proof {
                        if o is Some {
                            let (ch1, ids1, ch2, ids2) = choose|
                                ch1: Seq<PageV>,
                                ids1: Seq<u64>,
                                ch2: Seq<PageV>,
                                ids2: Seq<u64>,
                            |
                                {
                                    &&& #[trigger] opre.core.bucket_chain(cid, ch1, ids1)
                                    &&& #[trigger] opost.bucket_chain(cid, ch2, ids2)
                                    &&& chain_lookup(ch1, key@) == Some(o.unwrap()@)
                                    &&& (forall|k2: Seq<u8>|
                                        k2 != key@ ==> #[trigger] chain_lookup(ch2, k2)
                                            == chain_lookup(ch1, k2))
                                    &&& (crate::chain::key_in_one_page(ch1, key@)
                                        ==> chain_lookup(ch2, key@) is None)
                                    &&& (forall|i: int|
                                        0 <= i < ids2.len() ==> #[trigger] ids2[i]
                                            <= crate::device::MAX_PAGE_ID)
                                    &&& (forall|oid: u64|
                                        !ids1.contains(oid) ==> opost.overflow_pages.raw_at(oid)
                                            == #[trigger] opre.core.overflow_pages.raw_at(oid))
                                };
                            assert(self.core.bucket_chain(cid, ch2, ids2));
                        }
                    }
                    return Ok(o);
                },
            }
            attempt = attempt + 1;
        }
    }

    /// The full unordered enumeration of the table, snapshot-consistent in
    /// the single-writer core: the caller must not mutate concurrently.
    pub fn list(&self) -> (r: Result<Vec<(Vec<u8>, Vec<u8>)>>)
        requires
            self.inv(),
        ensures
            match r {
                Ok(out) => exists|chs: Seq<Seq<PageV>>|
                    #[trigger] self.core.listing(chs) && crate::page::kvs_view(out@)
                        == crate::store::flatten_chains(chs),
                Err(e) => e matches Error::IO(_) || e == Error::Codec,
            },
    {
        self.core.list()
    }

    /// Check the load factor and split at most one bucket: the coalesced
    /// form of the wake-up the scheduler receives after every insert. Above
    /// the threshold a successful call performs exactly one split and
    /// advances the split pointer; below it, nothing changes at all.
    pub fn maybe_split(&mut self) -> (r: Result<()>)
        requires
            old(self).inv(),
        ensures
            final(self).inv(),
            final(self).ksize() == old(self).ksize(),
            final(self).vsize() == old(self).vsize(),
            final(self).locks == old(self).locks,
            crate::split::split_step(old(self).core, final(self).core),
            !(old(self).core.spec_over_load_factor() && old(self).core.root.base_level
                < MAX_BASE_LEVEL) ==> *final(self) == *old(self),
            (r is Ok && old(self).core.spec_over_load_factor() && old(
                self,
            ).core.root.base_level < MAX_BASE_LEVEL) ==> (final(self).core.root == old(
                self,
            ).core.root.spec_advanced() && crate::split::split_carried(
                old(self).core,
                final(self).core,
            )),
            r is Err ==> final(self).core.root == old(self).core.root,
    {
        if self.core.over_load_factor() && self.core.root.base_level < MAX_BASE_LEVEL {
            let split_id = self.core.root.next_split_main_page_id;
            let guard = self.locks.selective_lock(split_id);
            self.core.split()
        } else {
            Ok(())
        }
    }

    /// Reclaim the storage of every overflow page below the allocation
    /// watermark that no bucket's chain reaches: on success the freed slots
    /// are exactly those, they read back as absent, every other overflow
    /// slot is untouched, and every healthy chain survives.
    pub fn gc(&mut self) -> (r: Result<u64>)
        requires
            old(self).inv(),
        ensures
            final(self).inv(),
            final(self).core.n_items == old(self).core.n_items,
            final(self).core.root == old(self).core.root,
            final(self).core.main_pages == old(self).core.main_pages,
            forall|b: u64, ch: Seq<PageV>, ids: Seq<u64>|
                b < old(self).core.root.spec_n_pages() && #[trigger] crate::chain::wf_chain(
                    old(self).core.main_pages,
                    old(self).core.overflow_pages,
                    b,
                    ch,
                    ids,
                ) ==> crate::chain::wf_chain(
                    final(self).core.main_pages,
                    final(self).core.overflow_pages,
                    b,
                    ch,
                    ids,
                ),
            match r {
                Ok(nd) => exists|freed: Set<u64>|
                    {
                        &&& #[trigger] freed.finite()
                        &&& nd == freed.len()
                        &&& (forall|oid: u64|
                            freed.contains(oid) <==> (oid < old(self).core.next_overflow_id
                                && !old(self).core.spec_reachable_overflow(oid)))
                        &&& (forall|oid: u64|
                            freed.contains(oid) ==> final(self).core.overflow_pages.page_at(
                                oid,
                            ) is None)
                        &&& (forall|oid: u64|
                            !freed.contains(oid) ==> final(self).core.overflow_pages.raw_at(oid)
                                == old(self).core.overflow_pages.raw_at(oid))
                    },
                Err(e) => e matches Error::IO(_) || e == Error::Codec,
            },
    {
        self.core.gc()
    }

    /// Force both page stores durable.
    pub fn flush(&self) -> (r: Result<()>)
        ensures
            match r {
                Ok(()) => true,
                Err(e) => e matches Error::IO(_),
            },
    {
        match self.core.overflow_pages.flush() {
            Ok(()) => {},
            Err(e) => {
                return Err(e);
            },
        }
        match self.core.main_pages.flush() {
            Ok(()) => {},
            Err(e) => {
                return Err(e);
            },
        }
        Ok(())
    }
}

} // verus!
