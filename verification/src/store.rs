//! The single-writer core of the table: the two page devices, the
//! directory, and the counters, with one method per operation. Concurrency
//! control wraps around this core; each method performs exactly one bucket
//! transaction against a directory snapshot.

use vstd::prelude::*;

use crate::chain::{
    chain_entries, chain_get, chain_lookup, find_key_page, ids_distinct, lemma_chain_lookup_at,
    lemma_chain_lookup_none, lemma_chain_lookup_push, lemma_chain_lookup_update_hit,
    lemma_chain_lookup_update_same, pages_view, read_chain, wf_chain,
};
use crate::page::{kvs_view, pairs_sized, spec_lookup, Page};
use crate::device::{Device, MAX_PAGE_ID};
use crate::error::{Error, Result};
use crate::page::PageV;
use crate::root::{lemma_shift_bound, PageChainId, Root};

verus! {

/// How often a bucket transaction is retried after losing a race with a
/// completed split, before the stale-snapshot signal is surfaced.
pub const RETRY_LIMIT: u32 = 16;

/// The hash of a key: its first eight bytes, read little-endian. Keys must
/// carry at least 64 bits.
pub open spec fn spec_hash(k: Seq<u8>) -> u64 {
    crate::bytes::spec_u64_from_le(k.subrange(0, 8))
}

pub fn hash_key(key: &[u8]) -> (r: u64)
    requires
        key@.len() >= 8,
    ensures
        r == spec_hash(key@),
{
    crate::bytes::read_u64_le(key, 0)
}

/// The ghost bytes of an optional owned value.
pub open spec fn opt_bytes(o: Option<Vec<u8>>) -> Option<Seq<u8>> {
    match o {
        Some(v) => Some(v@),
        None => None,
    }
}

/// Every pair of every chain, bucket by bucket.
pub open spec fn flatten_chains(chs: Seq<Seq<PageV>>) -> Seq<(Seq<u8>, Seq<u8>)>
    decreases chs.len(),
{
    if chs.len() == 0 {
        Seq::empty()
    } else {
        chain_entries(chs[0]) + flatten_chains(chs.drop_first())
    }
}

/// Listing one more bucket appends its pairs.
pub proof fn lemma_flatten_chains_push(chs: Seq<Seq<PageV>>, ch: Seq<PageV>)
    ensures
        flatten_chains(chs.push(ch)) == flatten_chains(chs) + chain_entries(ch),
    decreases chs.len(),
{
    if chs.len() == 0 {
        assert(chs.push(ch)[0] == ch);
        assert(chs.push(ch).drop_first() =~= Seq::<Seq<PageV>>::empty());
        assert(flatten_chains(chs.push(ch).drop_first()) =~= Seq::<(Seq<u8>, Seq<u8>)>::empty());
        assert(flatten_chains(chs.push(ch)) =~= chain_entries(ch));
        assert(flatten_chains(chs) + chain_entries(ch) =~= chain_entries(ch));
    } else {
        assert(chs.push(ch)[0] == chs[0]);
        assert(chs.push(ch).drop_first() =~= chs.drop_first().push(ch));
        lemma_flatten_chains_push(chs.drop_first(), ch);
        assert(chain_entries(chs[0]) + (flatten_chains(chs.drop_first()) + chain_entries(ch)) =~= (
        chain_entries(chs[0]) + flatten_chains(chs.drop_first())) + chain_entries(ch));
    }
}

/// Page slots that every reachable id still holds pin every healthy chain
/// in place: what makes overflow reclamation safe.
proof fn lemma_gc_preserves(pre: LinHashCore, post: LinHashCore, n_pages: u64, reach: Seq<u64>)
    requires
        post.main_pages == pre.main_pages,
        post.overflow_pages.cfg() == pre.overflow_pages.cfg(),
        forall|oid: u64|
            reach.contains(oid) ==> post.overflow_pages.raw_at(oid)
                == pre.overflow_pages.raw_at(oid),
        forall|b: u64, ch: Seq<PageV>, ids: Seq<u64>|
            b < n_pages && #[trigger] wf_chain(pre.main_pages, pre.overflow_pages, b, ch, ids)
                ==> forall|j: int| 0 <= j < ids.len() ==> reach.contains(#[trigger] ids[j]),
    ensures
        forall|b: u64, ch: Seq<PageV>, ids: Seq<u64>|
            b < n_pages && #[trigger] wf_chain(pre.main_pages, pre.overflow_pages, b, ch, ids)
                ==> wf_chain(post.main_pages, post.overflow_pages, b, ch, ids),
{
    assert forall|b: u64, ch: Seq<PageV>, ids: Seq<u64>|
        b < n_pages && #[trigger] wf_chain(
            pre.main_pages,
            pre.overflow_pages,
            b,
            ch,
            ids,
        ) implies wf_chain(post.main_pages, post.overflow_pages, b, ch, ids) by {
        assert forall|j: int| 0 <= j < ids.len() implies post.overflow_pages.page_at(
            #[trigger] ids[j],
        ) == Some(ch[j + 1]) by {
            assert(reach.contains(ids[j]));
            assert(post.overflow_pages.raw_at(ids[j]) == pre.overflow_pages.raw_at(ids[j]));
        }
    }
}

/// The state shared by every operation: devices, directory, counters.
pub struct LinHashCore {
    pub main_pages: Device,
    pub overflow_pages: Device,
    pub root: Root,
    pub next_overflow_id: u64,
    pub n_items: u64,
}

impl LinHashCore {
    /// What every operation may assume and must preserve.
    pub open spec fn inv(self) -> bool {
        &&& self.main_pages.cfg_wf()
        &&& self.overflow_pages.cfg_wf()
        &&& self.main_pages.cfg() == self.overflow_pages.cfg()
        &&& self.root.wf()
        &&& self.next_overflow_id <= MAX_PAGE_ID
    }

    pub open spec fn ksize(self) -> usize {
        self.main_pages.ksize
    }

    pub open spec fn vsize(self) -> usize {
        self.main_pages.vsize
    }

    /// The whole chain of bucket `head`, with the tag the directory snapshot
    /// expects on its primary page.
    pub open spec fn bucket_chain(
        self,
        cid: PageChainId,
        ch: Seq<PageV>,
        ids: Seq<u64>,
    ) -> bool {
        &&& wf_chain(self.main_pages, self.overflow_pages, cid.main_page_id, ch, ids)
        &&& ch[0].locallevel == Some(cid.locallevel)
    }

    /// A healthy bucket: a whole, cycle-free chain within device bounds.
    pub open spec fn bucket_ok(self, cid: PageChainId) -> bool {
        exists|ch: Seq<PageV>, ids: Seq<u64>|
            {
                &&& #[trigger] self.bucket_chain(cid, ch, ids)
                &&& forall|i: int| 0 <= i < ids.len() ==> #[trigger] ids[i] <= MAX_PAGE_ID
            }
    }

    /// A healthy bucket regardless of its level tag: a whole, cycle-free
    /// chain within device bounds. On such a bucket an operation fails only
    /// with a device error or the stale-snapshot signal, never `Codec`.
    pub open spec fn bucket_intact(self, head: u64) -> bool {
        exists|ch: Seq<PageV>, ids: Seq<u64>|
            {
                &&& #[trigger] wf_chain(self.main_pages, self.overflow_pages, head, ch, ids)
                &&& forall|i: int| 0 <= i < ids.len() ==> #[trigger] ids[i] <= MAX_PAGE_ID
            }
    }

    /// An intact bucket whose overflow ids all lie below the allocation
    /// watermark: the shape `restore` establishes for every bucket, and the
    /// shape under which an insert can always allocate a fresh page.
    pub open spec fn bucket_serviceable(self, head: u64) -> bool {
        exists|ch: Seq<PageV>, ids: Seq<u64>|
            {
                &&& #[trigger] wf_chain(self.main_pages, self.overflow_pages, head, ch, ids)
                &&& forall|i: int| 0 <= i < ids.len() ==> #[trigger] ids[i] < self.next_overflow_id
            }
    }

    /// Some bucket's chain passes through overflow slot `oid`.
    pub open spec fn spec_reachable_overflow(self, oid: u64) -> bool {
        exists|b: u64, ch: Seq<PageV>, ids: Seq<u64>|
            {
                &&& b < self.root.spec_n_pages()
                &&& #[trigger] wf_chain(self.main_pages, self.overflow_pages, b, ch, ids)
                &&& ids.contains(oid)
            }
    }

    /// The primary page the operations check their directory snapshot
    /// against carries a different level tag.
    pub open spec fn tag_mismatch(self, cid: PageChainId) -> bool {
        exists|p: PageV|
            #[trigger] self.main_pages.page_at(cid.main_page_id) == Some(p) && p.locallevel
                != Some(cid.locallevel)
    }

    /// `chain_replaced` never looks at the live-pair counter, so a counter
    /// update after the bucket transaction keeps it standing.
    pub proof fn lemma_chain_replaced_counter_irrelevant(
        pre: LinHashCore,
        a: LinHashCore,
        b: LinHashCore,
        cid: PageChainId,
        oldv: Option<Seq<u8>>,
        k: Seq<u8>,
        v: Option<Seq<u8>>,
    )
        requires
            pre.chain_replaced(a, cid, oldv, k, v),
            b.main_pages == a.main_pages,
            b.overflow_pages == a.overflow_pages,
            b.next_overflow_id == a.next_overflow_id,
        ensures
            pre.chain_replaced(b, cid, oldv, k, v),
    {
        let (ch1, ids1, ch2, ids2) = choose|
            ch1: Seq<PageV>,
            ids1: Seq<u64>,
            ch2: Seq<PageV>,
            ids2: Seq<u64>,
        |
            {
                &&& #[trigger] pre.bucket_chain(cid, ch1, ids1)
                &&& #[trigger] a.bucket_chain(cid, ch2, ids2)
                &&& chain_lookup(ch1, k) == oldv
                &&& chain_lookup(ch2, k) == v
                &&& (forall|k2: Seq<u8>|
                    k2 != k ==> #[trigger] chain_lookup(ch2, k2) == chain_lookup(ch1, k2))
                &&& (forall|i: int| 0 <= i < ids2.len() ==> #[trigger] ids2[i] <= MAX_PAGE_ID)
                &&& (forall|oid: u64|
                    !ids1.contains(oid) && !(pre.next_overflow_id <= oid < a.next_overflow_id)
                        ==> a.overflow_pages.raw_at(oid) == #[trigger] pre.overflow_pages.raw_at(
                        oid,
                    ))
            };
        assert(b.bucket_chain(cid, ch2, ids2));
    }

    /// Routing stays below the directory's page count, which stays below the
    /// device bound.
    pub proof fn lemma_cid_bounded(self, hash: u64)
        requires
            self.root.wf(),
        ensures
            self.root.spec_page_chain_id(hash).main_page_id < self.root.spec_n_pages(),
            self.root.spec_n_pages() <= MAX_PAGE_ID,
    {
        self.root.lemma_page_chain_id_in_range(hash);
        lemma_shift_bound(self.root.base_level as u64);
    }

    /// Check the directory snapshot against the bucket's primary page
    /// before touching the rest of the chain, as every operation does: a
    /// stale snapshot is reported ahead of whatever state the overflow
    /// chain is in.
    pub(crate) fn check_tag(&self, cid: PageChainId) -> (r: Result<()>)
        requires
            self.inv(),
            cid.main_page_id <= MAX_PAGE_ID,
        ensures
            self.tag_mismatch(cid) ==> r is Err,
            match r {
                Ok(()) => exists|p: PageV|
                    #[trigger] self.main_pages.page_at(cid.main_page_id) == Some(p) && p.locallevel
                        == Some(cid.locallevel),
                Err(e) => {
                    &&& (e matches Error::IO(_) || e == Error::Codec
                        || e == Error::LocalLevelMismatch)
                    &&& e == Error::LocalLevelMismatch ==> self.tag_mismatch(cid)
                    &&& self.tag_mismatch(cid) ==> (e == Error::LocalLevelMismatch
                        || e matches Error::IO(_))
                    &&& self.bucket_intact(cid.main_page_id) ==> !(e == Error::Codec)
                },
            },
    {
        match self.main_pages.read_page(cid.main_page_id) {
            Err(e) => Err(e),
            Ok(None) => {
                proof {
                    if self.bucket_intact(cid.main_page_id) {
                        let (ch, ids) = choose|ch: Seq<PageV>, ids: Seq<u64>|
                            {
                                &&& #[trigger] wf_chain(
                                    self.main_pages,
                                    self.overflow_pages,
                                    cid.main_page_id,
                                    ch,
                                    ids,
                                )
                                &&& forall|i: int|
                                    0 <= i < ids.len() ==> #[trigger] ids[i] <= MAX_PAGE_ID
                            };
                        assert(false);
                    }
                }
                Err(Error::Codec)
            },
            Ok(Some(p)) => {
                let tag_ok = match p.locallevel {
                    Some(l) => l == cid.locallevel,
                    None => false,
                };
                if tag_ok {
                    proof {
                        assert(self.main_pages.page_at(cid.main_page_id) == Some(p@)
                            && p@.locallevel == Some(cid.locallevel));
                    }
                    Ok(())
                } else {
                    proof {
                        assert(self.main_pages.page_at(cid.main_page_id) == Some(p@)
                            && p@.locallevel != Some(cid.locallevel));
                    }
                    Err(Error::LocalLevelMismatch)
                }
            },
        }
    }

    /// Read one bucket under a directory snapshot. Returns the value stored
    /// under `key` in the bucket's chain; `LocalLevelMismatch` reports a
    /// stale snapshot — checked on the primary page before the overflow
    /// chain is walked — and a healthy bucket can fail only with a device
    /// `IO` error, or the stale signal when its tag differs.
    pub fn get_in_chain(&self, cid: PageChainId, key: &[u8]) -> (r: Result<Option<Vec<u8>>>)
        requires
            self.inv(),
            cid.main_page_id <= MAX_PAGE_ID,
        ensures
            self.tag_mismatch(cid) ==> r is Err,
            match r {
                Ok(o) => exists|ch: Seq<PageV>, ids: Seq<u64>|
                    #[trigger] self.bucket_chain(cid, ch, ids) && chain_lookup(ch, key@)
                        == opt_bytes(o),
                Err(e) => {
                    &&& (e matches Error::IO(_) || e == Error::Codec
                        || e == Error::LocalLevelMismatch)
                    &&& e == Error::LocalLevelMismatch ==> self.tag_mismatch(cid)
                    &&& self.tag_mismatch(cid) ==> (e == Error::LocalLevelMismatch
                        || e matches Error::IO(_))
                    &&& self.bucket_intact(cid.main_page_id) ==> (e == Error::LocalLevelMismatch
                        || e matches Error::IO(_))
                    &&& self.bucket_ok(cid) ==> e matches Error::IO(_)
                },
            },
    {
        match self.check_tag(cid) {
            Ok(()) => {},
            Err(e) => {
                return Err(e);
            },
        }
        let cb = match read_chain(&self.main_pages, &self.overflow_pages, cid.main_page_id) {
            Ok(cb) => cb,
            Err(e) => {
                proof {
                    if self.bucket_intact(cid.main_page_id) {
                        let (ch, ids) = choose|ch: Seq<PageV>, ids: Seq<u64>|
                            {
                                &&& #[trigger] wf_chain(
                                    self.main_pages,
                                    self.overflow_pages,
                                    cid.main_page_id,
                                    ch,
                                    ids,
                                )
                                &&& forall|i: int|
                                    0 <= i < ids.len() ==> #[trigger] ids[i] <= MAX_PAGE_ID
                            };
                    }
                }
                return Err(e);
            },
        };
        let tag_ok = match cb.pages[0].locallevel {
            Some(l) => l == cid.locallevel,
            None => false,
        };
        if !tag_ok {
            proof {
                assert(cb.chain()[0] == cb.pages@[0]@);
                let p0 = cb.chain()[0];
                assert(self.main_pages.page_at(cid.main_page_id) == Some(p0) && p0.locallevel
                    != Some(cid.locallevel));
            }
            return Err(Error::LocalLevelMismatch);
        }
        let r = chain_get(&cb.pages, key);
        proof {
            assert(cb.chain()[0] == cb.pages@[0]@);
            assert(self.bucket_chain(cid, cb.chain(), cb.ids@));
        }
        Ok(r)
    }

    /// After rewriting exactly one page of a bucket's chain in place —
    /// same overflow link, same level tag — the bucket's chain is the old
    /// one with that page image replaced.
    pub proof fn lemma_replaced_one_page(
        self,
        pre: LinHashCore,
        cid: PageChainId,
        ch1: Seq<PageV>,
        ids1: Seq<u64>,
        i: int,
        p2: PageV,
    )
        requires
            wf_chain(pre.main_pages, pre.overflow_pages, cid.main_page_id, ch1, ids1),
            0 <= i < ch1.len(),
            p2.overflow_id == ch1[i].overflow_id,
            p2.locallevel == ch1[i].locallevel,
            self.main_pages.cfg() == pre.main_pages.cfg(),
            self.overflow_pages.cfg() == pre.overflow_pages.cfg(),
            i == 0 ==> {
                &&& self.main_pages.page_at(cid.main_page_id) == Some(p2)
                &&& self.overflow_pages == pre.overflow_pages
            },
            i > 0 ==> {
                &&& self.main_pages == pre.main_pages
                &&& self.overflow_pages.page_at(ids1[i - 1]) == Some(p2)
                &&& forall|id: u64|
                    id != ids1[i - 1] ==> self.overflow_pages.raw_at(id)
                        == pre.overflow_pages.raw_at(id)
            },
        ensures
            wf_chain(
                self.main_pages,
                self.overflow_pages,
                cid.main_page_id,
                ch1.update(i, p2),
                ids1,
            ),
    {
        let ch2 = ch1.update(i, p2);
        if i == 0 {
            assert forall|j: int| 0 <= j < ids1.len() implies self.overflow_pages.page_at(
                #[trigger] ids1[j],
            ) == Some(ch2[j + 1]) by {
                assert(ch2[j + 1] == ch1[j + 1]);
            }
        } else {
            assert(self.main_pages.page_at(cid.main_page_id) == Some(ch2[0]));
            assert forall|j: int| 0 <= j < ids1.len() implies self.overflow_pages.page_at(
                #[trigger] ids1[j],
            ) == Some(ch2[j + 1]) by {
                if j == i - 1 {
                } else {
                    assert(ids1[j] != ids1[i - 1]);
                    assert(self.overflow_pages.raw_at(ids1[j]) == pre.overflow_pages.raw_at(
                        ids1[j],
                    ));
                    assert(ch2[j + 1] == ch1[j + 1]);
                }
            }
        }
        assert(ch2.last().overflow_id is None);
    }

    /// After writing a fresh overflow page and relinking the old tail to
    /// it, the bucket's chain is the old one with the tail image replaced
    /// and the new page appended.
    pub proof fn lemma_appended_overflow(
        self,
        pre: LinHashCore,
        cid: PageChainId,
        ch1: Seq<PageV>,
        ids1: Seq<u64>,
        last: int,
        t2: PageV,
        np: PageV,
        new_id: u64,
    )
        requires
            wf_chain(pre.main_pages, pre.overflow_pages, cid.main_page_id, ch1, ids1),
            last == ch1.len() - 1,
            t2.overflow_id == Some(new_id),
            t2.locallevel == ch1[last].locallevel,
            np.overflow_id is None,
            !ids1.contains(new_id),
            self.main_pages.cfg() == pre.main_pages.cfg(),
            self.overflow_pages.cfg() == pre.overflow_pages.cfg(),
            self.overflow_pages.page_at(new_id) == Some(np),
            last == 0 ==> {
                &&& self.main_pages.page_at(cid.main_page_id) == Some(t2)
                &&& forall|id: u64|
                    id != new_id ==> self.overflow_pages.raw_at(id)
                        == pre.overflow_pages.raw_at(id)
            },
            last > 0 ==> {
                &&& self.main_pages == pre.main_pages
                &&& self.overflow_pages.page_at(ids1[last - 1]) == Some(t2)
                &&& forall|id: u64|
                    id != new_id && id != ids1[last - 1] ==> self.overflow_pages.raw_at(id)
                        == pre.overflow_pages.raw_at(id)
            },
        ensures
            wf_chain(
                self.main_pages,
                self.overflow_pages,
                cid.main_page_id,
                ch1.update(last, t2).push(np),
                ids1.push(new_id),
            ),
    {
        let ch2 = ch1.update(last, t2).push(np);
        let ids2 = ids1.push(new_id);
        assert(ch2[0] == if last == 0 {
            t2
        } else {
            ch1[0]
        });
        assert(self.main_pages.page_at(cid.main_page_id) == Some(ch2[0]));
        assert forall|j: int| 0 <= j < ids2.len() implies self.overflow_pages.page_at(
            #[trigger] ids2[j],
        ) == Some(ch2[j + 1]) by {
            if j == ids1.len() {
                assert(ids2[j] == new_id && ch2[j + 1] == np);
            } else if last > 0 && j == last - 1 {
                assert(ids2[j] == ids1[j] && ch2[j + 1] == t2);
            } else {
                assert(ids2[j] == ids1[j]);
                assert(ids1[j] != new_id) by {
                    assert(ids1.contains(ids1[j]));
                }
                if last > 0 {
                    assert(ids1[j] != ids1[last - 1]);
                }
                assert(self.overflow_pages.raw_at(ids1[j]) == pre.overflow_pages.raw_at(ids1[j]));
                assert(ch2[j + 1] == ch1[j + 1]);
            }
        }
        assert forall|j: int| 0 <= j < ids2.len() implies (#[trigger] ch2[j]).overflow_id == Some(
            ids2[j],
        ) by {
            if j == last {
                assert(ch2[j] == t2);
            } else if j < last {
                assert(ch2[j] == ch1[j]);
            }
        }
        assert(ch2.last() == np);
        assert(ids_distinct(ids2)) by {
            assert forall|x: int, y: int| 0 <= x < y < ids2.len() implies ids2[x] != ids2[y] by {
                if y == ids1.len() {
                    assert(ids1.contains(ids1[x]));
                }
            }
        }
    }

    /// How an insert transforms one bucket: the old chain answered `oldv`
    /// for `k`; the new chain answers `v` for `k` and agrees with the old
    /// chain on every other key; and outside this bucket only freshly
    /// allocated overflow slots changed.
    pub open spec fn chain_replaced(
        self,
        post: LinHashCore,
        cid: PageChainId,
        oldv: Option<Seq<u8>>,
        k: Seq<u8>,
        v: Option<Seq<u8>>,
    ) -> bool {
        exists|ch1: Seq<PageV>, ids1: Seq<u64>, ch2: Seq<PageV>, ids2: Seq<u64>|
            {
                &&& #[trigger] self.bucket_chain(cid, ch1, ids1)
                &&& #[trigger] post.bucket_chain(cid, ch2, ids2)
                &&& chain_lookup(ch1, k) == oldv
                &&& chain_lookup(ch2, k) == v
                &&& (forall|k2: Seq<u8>|
                    k2 != k ==> #[trigger] chain_lookup(ch2, k2) == chain_lookup(ch1, k2))
                &&& (forall|i: int| 0 <= i < ids2.len() ==> #[trigger] ids2[i] <= MAX_PAGE_ID)
                &&& (forall|oid: u64|
                    !ids1.contains(oid) && !(self.next_overflow_id <= oid
                        < post.next_overflow_id) ==> post.overflow_pages.raw_at(oid)
                        == #[trigger] self.overflow_pages.raw_at(oid))
            }
    }

    /// Insert or overwrite `key` in one bucket under a directory snapshot.
    /// Returns the previous value; the bucket afterwards maps `key` to
    /// `value` and every other key as before. Outside the bucket, only the
    /// primary page slot of this bucket and freshly allocated overflow
    /// slots are touched.
    pub fn insert_in_chain(&mut self, cid: PageChainId, key: Vec<u8>, value: Vec<u8>) -> (r:
        Result<Option<Vec<u8>>>)
        requires
            old(self).inv(),
            cid.main_page_id <= MAX_PAGE_ID,
            key@.len() == old(self).ksize(),
            value@.len() == old(self).vsize(),
        ensures
            final(self).inv(),
            final(self).root == old(self).root,
            final(self).main_pages.cfg() == old(self).main_pages.cfg(),
            final(self).overflow_pages.cfg() == old(self).overflow_pages.cfg(),
            final(self).n_items == old(self).n_items,
            final(self).next_overflow_id >= old(self).next_overflow_id,
            forall|id: u64|
                id != cid.main_page_id ==> final(self).main_pages.raw_at(id) == old(
                    self,
                ).main_pages.raw_at(id),
            old(self).tag_mismatch(cid) ==> r is Err,
            r is Err ==> forall|oid1: u64, oid2: u64|
                oid1 != oid2 && oid1 < old(self).next_overflow_id && oid2 < old(
                    self,
                ).next_overflow_id ==> (#[trigger] final(self).overflow_pages.raw_at(oid1) == old(
                    self,
                ).overflow_pages.raw_at(oid1) || #[trigger] final(self).overflow_pages.raw_at(
                    oid2,
                ) == old(self).overflow_pages.raw_at(oid2)),
            match r {
                Ok(o) => old(self).chain_replaced(
                    *final(self),
                    cid,
                    opt_bytes(o),
                    key@,
                    Some(value@),
                ),
                Err(e) => {
                    &&& (e matches Error::IO(_) || e == Error::Codec
                        || e == Error::LocalLevelMismatch)
                    &&& (e == Error::Codec || e == Error::LocalLevelMismatch) ==> *final(self)
                        == *old(self)
                    &&& e == Error::LocalLevelMismatch ==> old(self).tag_mismatch(cid)
                    &&& old(self).tag_mismatch(cid) ==> (e == Error::LocalLevelMismatch
                        || e matches Error::IO(_))
                    &&& old(self).bucket_serviceable(cid.main_page_id) ==> (e
                        == Error::LocalLevelMismatch || e matches Error::IO(_))
                },
            },
    {
        let ghost pre = *self;
        match self.check_tag(cid) {
            Ok(()) => {},
            Err(e) => {
                proof {
                    if pre.bucket_serviceable(cid.main_page_id) {
                        let (ch, ids) = choose|ch: Seq<PageV>, ids: Seq<u64>|
                            {
                                &&& #[trigger] wf_chain(
                                    pre.main_pages,
                                    pre.overflow_pages,
                                    cid.main_page_id,
                                    ch,
                                    ids,
                                )
                                &&& forall|i: int|
                                    0 <= i < ids.len() ==> #[trigger] ids[i]
                                        < pre.next_overflow_id
                            };
                        assert(pre.bucket_intact(cid.main_page_id));
                    }
                }
                return Err(e);
            },
        }
        let cb = match read_chain(&self.main_pages, &self.overflow_pages, cid.main_page_id) {
            Ok(cb) => cb,
            Err(e) => {
                proof {
                    if pre.bucket_serviceable(cid.main_page_id) {
                        let (ch, ids) = choose|ch: Seq<PageV>, ids: Seq<u64>|
                            {
                                &&& #[trigger] wf_chain(
                                    pre.main_pages,
                                    pre.overflow_pages,
                                    cid.main_page_id,
                                    ch,
                                    ids,
                                )
                                &&& forall|i: int|
                                    0 <= i < ids.len() ==> #[trigger] ids[i]
                                        < pre.next_overflow_id
                            };
                        assert(forall|i: int|
                            0 <= i < ids.len() ==> #[trigger] ids[i] <= MAX_PAGE_ID);
                    }
                }
                return Err(e);
            },
        };
        let tag_ok = match cb.pages[0].locallevel {
            Some(l) => l == cid.locallevel,
            None => false,
        };
        if !tag_ok {
            proof {
                assert(cb.chain()[0] == cb.pages@[0]@);
                let p0 = cb.chain()[0];
                assert(self.main_pages.page_at(cid.main_page_id) == Some(p0) && p0.locallevel
                    != Some(cid.locallevel));
            }
            return Err(Error::LocalLevelMismatch);
        }
        let ghost ch1 = cb.chain();
        let ghost ids1 = cb.ids@;
        let mut pages = cb.pages;
        let ids = cb.ids;
        proof {
            assert(ch1[0] == pages@[0]@);
        }

        // An existing binding is overwritten in place, wherever in the
        // chain it sits.
        if let Some(i) = find_key_page(&pages, key.as_slice()) {
            let ghost keyv = key@;
            let mut page = pages.remove(i);
            proof {
                assert(page@ == ch1[i as int]);
            }
            let oldv = page.insert(key, value);
            let ghost p2 = page@;
            let target: u64 = if i == 0 {
                cid.main_page_id
            } else {
                ids[i - 1]
            };
            let wr = if i == 0 {
                self.main_pages.write_page(target, &page)
            } else {
                self.overflow_pages.write_page(target, &page)
            };
            match wr {
                Ok(()) => {},
                Err(e) => {
                    return Err(e);
                },
            }
            proof {
                self.lemma_replaced_one_page(pre, cid, ch1, ids1, i as int, p2);
                lemma_chain_lookup_at(ch1, keyv, i as int, ch1[i as int].lookup(keyv).unwrap());
                lemma_chain_lookup_update_hit(ch1, i as int, p2, keyv, value@);
                assert forall|k2: Seq<u8>| k2 != keyv implies #[trigger] chain_lookup(
                    ch1.update(i as int, p2),
                    k2,
                ) == chain_lookup(ch1, k2) by {
                    assert(p2.lookup(k2) == ch1[i as int].lookup(k2));
                    lemma_chain_lookup_update_same(ch1, i as int, p2, k2);
                }
                assert(pre.chain_replaced(
                    *self,
                    cid,
                    opt_bytes(oldv),
                    keyv,
                    Some(value@),
                )) by {
                    assert(pre.bucket_chain(cid, ch1, ids1));
                    assert(self.bucket_chain(cid, ch1.update(i as int, p2), ids1));
                }
            }
            return Ok(oldv);
        }
        proof {
            lemma_chain_lookup_none(ch1, key@);
        }

        // Otherwise the pair goes to the first page with spare capacity.
        let max_kv = self.main_pages.max_kv;
        if let Some(j) = crate::chain::find_spare_page(&pages, max_kv) {
            let ghost keyv = key@;
            let mut page = pages.remove(j);
            proof {
                assert(page@ == ch1[j as int]);
            }
            let oldv = page.insert(key, value);
            let ghost p2 = page@;
            let target: u64 = if j == 0 {
                cid.main_page_id
            } else {
                ids[j - 1]
            };
            let wr = if j == 0 {
                self.main_pages.write_page(target, &page)
            } else {
                self.overflow_pages.write_page(target, &page)
            };
            match wr {
                Ok(()) => {},
                Err(e) => {
                    return Err(e);
                },
            }
            proof {
                self.lemma_replaced_one_page(pre, cid, ch1, ids1, j as int, p2);
                lemma_chain_lookup_update_hit(ch1, j as int, p2, keyv, value@);
                assert forall|k2: Seq<u8>| k2 != keyv implies #[trigger] chain_lookup(
                    ch1.update(j as int, p2),
                    k2,
                ) == chain_lookup(ch1, k2) by {
                    assert(p2.lookup(k2) == ch1[j as int].lookup(k2));
                    lemma_chain_lookup_update_same(ch1, j as int, p2, k2);
                }
                assert(pre.chain_replaced(*self, cid, opt_bytes(oldv), keyv, Some(value@))) by {
                    assert(pre.bucket_chain(cid, ch1, ids1));
                    assert(self.bucket_chain(cid, ch1.update(j as int, p2), ids1));
                }
            }
            return Ok(oldv);
        }

        // Every page is full: append a fresh overflow page, make it durable,
        // then relink the old tail to it.
        let new_id = self.next_overflow_id;
        if new_id >= MAX_PAGE_ID {
            return Err(Error::IO(28));
        }
        if crate::chain::ids_contain_pub(&ids, new_id) {
            proof {
                if pre.bucket_serviceable(cid.main_page_id) {
                    let (sch, sids) = choose|sch: Seq<PageV>, sids: Seq<u64>|
                        {
                            &&& #[trigger] wf_chain(
                                pre.main_pages,
                                pre.overflow_pages,
                                cid.main_page_id,
                                sch,
                                sids,
                            )
                            &&& forall|i: int|
                                0 <= i < sids.len() ==> #[trigger] sids[i] < pre.next_overflow_id
                        };
                    crate::chain::lemma_chain_unique(
                        pre.main_pages,
                        pre.overflow_pages,
                        cid.main_page_id,
                        sch,
                        sids,
                        ch1,
                        ids1,
                    );
                    let x = choose|x: int| 0 <= x < ids1.len() && ids1[x] == new_id;
                    assert(sids[x] < pre.next_overflow_id);
                    assert(false);
                }
            }
            return Err(Error::Codec);
        }
        let ghost keyv = key@;
        let mut new_page = Page::new();
        let ghost empty_kvs = new_page@.kvs;
        let none_old = new_page.insert(key, value);
        let ghost np = new_page@;
        proof {
            assert(pairs_sized(
                empty_kvs,
                self.overflow_pages.ksize as nat,
                self.overflow_pages.vsize as nat,
            ));
        }
        match self.overflow_pages.write_page(new_id, &new_page) {
            Ok(()) => {},
            Err(e) => {
                return Err(e);
            },
        }
        match self.overflow_pages.flush() {
            Ok(()) => {},
            Err(e) => {
                return Err(e);
            },
        }
        let last = pages.len() - 1;
        let mut tail = pages.remove(last);
        proof {
            assert(tail@ == ch1[last as int]);
        }
        tail.overflow_id = Some(new_id);
        let ghost t2 = tail@;
        let target: u64 = if last == 0 {
            cid.main_page_id
        } else {
            ids[last - 1]
        };
        let wr = if last == 0 {
            self.main_pages.write_page(target, &tail)
        } else {
            self.overflow_pages.write_page(target, &tail)
        };
        match wr {
            Ok(()) => {},
            Err(e) => {
                return Err(e);
            },
        }
        self.next_overflow_id = new_id + 1;
        proof {
            let mid = ch1.update(last as int, t2);
            let ch2 = mid.push(np);
            let ids2 = ids1.push(new_id);
            self.lemma_appended_overflow(pre, cid, ch1, ids1, last as int, t2, np, new_id);
            assert forall|k2: Seq<u8>| #[trigger] chain_lookup(mid, k2) == chain_lookup(
                ch1,
                k2,
            ) by {
                lemma_chain_lookup_update_same(ch1, last as int, t2, k2);
            }
            lemma_chain_lookup_push(mid, np, keyv);
            assert(spec_lookup(np.kvs, keyv) == Some(value@));
            assert forall|k2: Seq<u8>| k2 != keyv implies #[trigger] chain_lookup(ch2, k2)
                == chain_lookup(ch1, k2) by {
                lemma_chain_lookup_push(mid, np, k2);
                assert(np.lookup(k2) == spec_lookup(empty_kvs, k2));
                assert(spec_lookup(empty_kvs, k2) is None);
            }
            assert(pre.chain_replaced(*self, cid, None, keyv, Some(value@))) by {
                assert(pre.bucket_chain(cid, ch1, ids1));
                assert(self.bucket_chain(cid, ch2, ids2));
            }
        }
        Ok(None)
    }

    /// Remove `key` from one bucket under a directory snapshot. On an
    /// absent key nothing is written and `None` comes back; on a present
    /// key the page holding it is rewritten without the pair and the prior
    /// value comes back. Other keys are untouched; the removed key itself
    /// is gone provided it sat in only one page of the chain, which every
    /// chain the store built satisfies.
    pub fn delete_in_chain(&mut self, cid: PageChainId, key: &[u8]) -> (r: Result<
        Option<Vec<u8>>,
    >)
        requires
            old(self).inv(),
            cid.main_page_id <= MAX_PAGE_ID,
        ensures
            final(self).inv(),
            final(self).root == old(self).root,
            final(self).main_pages.cfg() == old(self).main_pages.cfg(),
            final(self).overflow_pages.cfg() == old(self).overflow_pages.cfg(),
            final(self).n_items == old(self).n_items,
            final(self).next_overflow_id == old(self).next_overflow_id,
            old(self).tag_mismatch(cid) ==> r is Err,
            forall|id: u64|
                id != cid.main_page_id ==> final(self).main_pages.raw_at(id) == old(
                    self,
                ).main_pages.raw_at(id),
            r is Err ==> forall|oid1: u64, oid2: u64|
                oid1 != oid2 && oid1 < old(self).next_overflow_id && oid2 < old(
                    self,
                ).next_overflow_id ==> (#[trigger] final(self).overflow_pages.raw_at(oid1) == old(
                    self,
                ).overflow_pages.raw_at(oid1) || #[trigger] final(self).overflow_pages.raw_at(
                    oid2,
                ) == old(self).overflow_pages.raw_at(oid2)),
            match r {
                Ok(None) => *final(self) == *old(self) && exists|ch: Seq<PageV>, ids: Seq<u64>|
                    #[trigger] old(self).bucket_chain(cid, ch, ids) && chain_lookup(ch, key@)
                        is None,
                Ok(Some(v)) => exists|
                    ch1: Seq<PageV>,
                    ids1: Seq<u64>,
                    ch2: Seq<PageV>,
                    ids2: Seq<u64>,
                |
                    {
                        &&& #[trigger] old(self).bucket_chain(cid, ch1, ids1)
                        &&& #[trigger] final(self).bucket_chain(cid, ch2, ids2)
                        &&& chain_lookup(ch1, key@) == Some(v@)
                        &&& (forall|k2: Seq<u8>|
                            k2 != key@ ==> #[trigger] chain_lookup(ch2, k2) == chain_lookup(
                                ch1,
                                k2,
                            ))
                        &&& (crate::chain::key_in_one_page(ch1, key@) ==> chain_lookup(ch2, key@)
                            is None)
                        &&& (forall|i: int|
                            0 <= i < ids2.len() ==> #[trigger] ids2[i] <= MAX_PAGE_ID)
                        &&& (forall|oid: u64|
                            !ids1.contains(oid) ==> final(self).overflow_pages.raw_at(oid)
                                == #[trigger] old(self).overflow_pages.raw_at(oid))
                    },
                Err(e) => {
                    &&& (e matches Error::IO(_) || e == Error::Codec
                        || e == Error::LocalLevelMismatch)
                    &&& (e == Error::Codec || e == Error::LocalLevelMismatch) ==> *final(self)
                        == *old(self)
                    &&& e == Error::LocalLevelMismatch ==> old(self).tag_mismatch(cid)
                    &&& old(self).tag_mismatch(cid) ==> (e == Error::LocalLevelMismatch
                        || e matches Error::IO(_))
                    &&& old(self).bucket_intact(cid.main_page_id) ==> (e
                        == Error::LocalLevelMismatch || e matches Error::IO(_))
                },
            },
    {
        let ghost pre = *self;
        match self.check_tag(cid) {
            Ok(()) => {},
            Err(e) => {
                return Err(e);
            },
        }
        let cb = match read_chain(&self.main_pages, &self.overflow_pages, cid.main_page_id) {
            Ok(cb) => cb,
            Err(e) => {
                proof {
                    if pre.bucket_intact(cid.main_page_id) {
                        let (ch, ids) = choose|ch: Seq<PageV>, ids: Seq<u64>|
                            {
                                &&& #[trigger] wf_chain(
                                    pre.main_pages,
                                    pre.overflow_pages,
                                    cid.main_page_id,
                                    ch,
                                    ids,
                                )
                                &&& forall|i: int|
                                    0 <= i < ids.len() ==> #[trigger] ids[i] <= MAX_PAGE_ID
                            };
                    }
                }
                return Err(e);
            },
        };
        let tag_ok = match cb.pages[0].locallevel {
            Some(l) => l == cid.locallevel,
            None => false,
        };
        if !tag_ok {
            proof {
                assert(cb.chain()[0] == cb.pages@[0]@);
                let p0 = cb.chain()[0];
                assert(self.main_pages.page_at(cid.main_page_id) == Some(p0) && p0.locallevel
                    != Some(cid.locallevel));
            }
            return Err(Error::LocalLevelMismatch);
        }
        let ghost ch1 = cb.chain();
        let ghost ids1 = cb.ids@;
        let mut pages = cb.pages;
        let ids = cb.ids;
        proof {
            assert(ch1[0] == pages@[0]@);
        }
        let i = match find_key_page(&pages, key) {
            None => {
                proof {
                    lemma_chain_lookup_none(ch1, key@);
                    assert(pre.bucket_chain(cid, ch1, ids1));
                }
                return Ok(None);
            },
            Some(i) => i,
        };
        let ghost keyv = key@;
        let mut page = pages.remove(i);
        proof {
            assert(page@ == ch1[i as int]);
        }
        let removed = page.remove(key);
        let ghost p2 = page@;
        let target: u64 = if i == 0 {
            cid.main_page_id
        } else {
            ids[i - 1]
        };
        let wr = if i == 0 {
            self.main_pages.write_page(target, &page)
        } else {
            self.overflow_pages.write_page(target, &page)
        };
        match wr {
            Ok(()) => {},
            Err(e) => {
                return Err(e);
            },
        }
        proof {
            let ch2 = ch1.update(i as int, p2);
            self.lemma_replaced_one_page(pre, cid, ch1, ids1, i as int, p2);
            lemma_chain_lookup_at(ch1, keyv, i as int, ch1[i as int].lookup(keyv).unwrap());
            assert forall|k2: Seq<u8>| k2 != keyv implies #[trigger] chain_lookup(ch2, k2)
                == chain_lookup(ch1, k2) by {
                assert(p2.lookup(k2) == ch1[i as int].lookup(k2));
                lemma_chain_lookup_update_same(ch1, i as int, p2, k2);
            }
            if crate::chain::key_in_one_page(ch1, keyv) {
                assert forall|j: int| 0 <= j < ch2.len() implies spec_lookup(
                    (#[trigger] ch2[j]).kvs,
                    keyv,
                ) is None by {
                    if j == i {
                        assert(ch2[j] == p2);
                    } else {
                        assert(ch2[j] == ch1[j]);
                        if j < i {
                        } else {
                            assert(spec_lookup(ch1[i as int].kvs, keyv) is Some);
                        }
                    }
                }
                lemma_chain_lookup_none(ch2, keyv);
            }
            assert(pre.bucket_chain(cid, ch1, ids1));
            assert(self.bucket_chain(cid, ch2, ids1));
        }
        Ok(removed)
    }

    /// Write the minimal valid table: two empty primary pages tagged with
    /// local level 1.
    pub fn init(&mut self) -> (r: Result<()>)
        requires
            old(self).inv(),
        ensures
            final(self).inv(),
            final(self).root == old(self).root,
            final(self).main_pages.cfg() == old(self).main_pages.cfg(),
            final(self).overflow_pages == old(self).overflow_pages,
            final(self).n_items == old(self).n_items,
            final(self).next_overflow_id == old(self).next_overflow_id,
            forall|id: u64|
                id != 0 && id != 1 ==> final(self).main_pages.raw_at(id) == old(
                    self,
                ).main_pages.raw_at(id),
            match r {
                Ok(()) => {
                    &&& final(self).main_pages.page_at(0) matches Some(p) && p.kvs.len() == 0
                        && p.locallevel == Some(1u8) && p.overflow_id is None
                    &&& final(self).main_pages.page_at(1) matches Some(p) && p.kvs.len() == 0
                        && p.locallevel == Some(1u8) && p.overflow_id is None
                },
                Err(e) => e matches Error::IO(_),
            },
    {
        let mut init_page = Page::new();
        init_page.locallevel = Some(1);
        proof {
            assert(pairs_sized(
                init_page@.kvs,
                self.main_pages.ksize as nat,
                self.main_pages.vsize as nat,
            ));
        }
        match self.main_pages.write_page(0, &init_page) {
            Ok(()) => {},
            Err(e) => {
                return Err(e);
            },
        }
        match self.main_pages.write_page(1, &init_page) {
            Ok(()) => {},
            Err(e) => {
                return Err(e);
            },
        }
        Ok(())
    }

    /// Why the primary scan stopped at slot `n`: the slot holds no valid
    /// page, or it holds the half-committed artifact of a torn split — its
    /// local level disagrees with the page it was split from.
    pub open spec fn scan_boundary(self, n: u64) -> bool {
        match self.main_pages.page_at(n) {
            None => true,
            Some(p) => match p.locallevel {
                None => false,
                Some(l) => l < 64 && match self.main_pages.page_at(
                    crate::root::spec_old_page_id(n, l),
                ) {
                    None => false,
                    Some(q) => q.locallevel != Some(l),
                },
            },
        }
    }

    /// Scan primary page ids from zero until the first absent frame. A scan
    /// that reaches the device bound reports a corrupt table.
    fn traverse_main_pages_simple(&self) -> (r: Result<u64>)
        requires
            self.inv(),
        ensures
            match r {
                Ok(n) => {
                    &&& n < (1u64 << 48u64)
                    &&& forall|b: u64| b < n ==> #[trigger] self.main_pages.page_at(b) is Some
                    &&& self.main_pages.page_at(n) is None
                },
                Err(e) => e matches Error::IO(_) || e == Error::Codec,
            },
    {
        proof {
            lemma_shift_bound(48);
        }
        let cap: u64 = 1u64 << 48u64;
        let mut i: u64 = 0;
        while i < cap
            invariant
                self.inv(),
                cap == (1u64 << 48u64),
                cap <= MAX_PAGE_ID,
                i <= cap,
                forall|b: u64| b < i ==> #[trigger] self.main_pages.page_at(b) is Some,
            decreases cap - i,
        {
            match self.main_pages.read_page(i) {
                Ok(Some(_)) => {},
                Ok(None) => {
                    return Ok(i);
                },
                Err(e) => {
                    return Err(e);
                },
            }
            i = i + 1;
        }
        Err(Error::Codec)
    }

    /// Count the valid primary pages, discarding a torn split: when the
    /// last page's local level disagrees with the page it was split from,
    /// the last page is a half-committed artifact and is excluded.
    #[verifier::loop_isolation(false)]
    fn traverse_main_pages(&self) -> (r: Result<u64>)
        requires
            self.inv(),
        ensures
            match r {
                Ok(n) => {
                    &&& n < (1u64 << 48u64)
                    &&& forall|b: u64| b < n ==> #[trigger] self.main_pages.page_at(b) is Some
                    &&& n >= 2 ==> self.scan_boundary(n)
                    &&& n < 2 ==> (self.scan_boundary(0) || self.scan_boundary(1))
                },
                Err(e) => e matches Error::IO(_) || e == Error::Codec,
            },
    {
        proof {
            lemma_shift_bound(48);
        }
        let n_simple = match self.traverse_main_pages_simple() {
            Ok(n) => n,
            Err(e) => {
                return Err(e);
            },
        };
        if n_simple < 2 {
            return Ok(n_simple);
        }
        let last_page_id = n_simple - 1;
        let last_page = match self.main_pages.read_page(last_page_id) {
            Ok(Some(p)) => p,
            Ok(None) => {
                return Err(Error::Codec);
            },
            Err(e) => {
                return Err(e);
            },
        };
        let locallevel = match last_page.locallevel {
            Some(l) => l,
            None => {
                return Err(Error::Codec);
            },
        };
        if locallevel >= 64 {
            return Err(Error::Codec);
        }
        let old_page_id = crate::root::calc_old_page_id(last_page_id, locallevel);
        let old_page = match self.main_pages.read_page(old_page_id) {
            Ok(Some(p)) => p,
            Ok(None) => {
                return Err(Error::Codec);
            },
            Err(e) => {
                return Err(e);
            },
        };
        let old_locallevel = match old_page.locallevel {
            Some(l) => l,
            None => {
                return Err(Error::Codec);
            },
        };
        // If both pages are committed, their local levels must agree.
        if old_locallevel == locallevel {
            Ok(n_simple)
        } else {
            proof {
                assert(self.main_pages.page_at(last_page_id) == Some(last_page@));
                assert(last_page@.locallevel == Some(locallevel));
                assert(self.main_pages.page_at(
                    crate::root::spec_old_page_id(last_page_id, locallevel),
                ) == Some(old_page@));
                assert(old_page@.locallevel == Some(old_locallevel));
                assert(self.scan_boundary(last_page_id));
            }
            Ok(n_simple - 1)
        }
    }

    /// Rebuild the in-memory state from the page files alone: derive the
    /// directory from the primary page count, find the overflow high-water
    /// mark, and recount the live pairs. Returns the primary page count;
    /// fewer than two valid primary pages report zero, and the caller must
    /// run `init` first.
    #[verifier::loop_isolation(false)]
    pub fn restore(&mut self) -> (r: Result<u64>)
        requires
            old(self).inv(),
        ensures
            final(self).inv(),
            final(self).main_pages == old(self).main_pages,
            final(self).overflow_pages == old(self).overflow_pages,
            match r {
                Ok(n) => {
                    &&& (n < 2 ==> *final(self) == *old(self) && (final(self).scan_boundary(0)
                        || final(self).scan_boundary(1)))
                    &&& (n >= 2 ==> {
                        &&& final(self).root.spec_n_pages() == n
                        &&& (forall|b: u64|
                            b < n ==> #[trigger] final(self).main_pages.page_at(b) is Some)
                        &&& final(self).scan_boundary(n)
                        &&& exists|chs: Seq<Seq<PageV>>|
                            #[trigger] final(self).listing(chs) && final(self).n_items
                                == flatten_chains(chs).len()
                        &&& forall|b: u64, ch: Seq<PageV>, ids: Seq<u64>|
                            b < n && #[trigger] wf_chain(
                                final(self).main_pages,
                                final(self).overflow_pages,
                                b,
                                ch,
                                ids,
                            ) ==> forall|j: int|
                                0 <= j < ids.len() ==> #[trigger] ids[j]
                                    < final(self).next_overflow_id
                    })
                },
                Err(e) => e matches Error::IO(_) || e == Error::Codec,
            },
    {
        let n_main_pages = match self.traverse_main_pages() {
            Ok(n) => n,
            Err(e) => {
                return Err(e);
            },
        };
        if n_main_pages < 2 {
            return Ok(0);
        }
        proof {
            lemma_shift_bound(48);
        }
        let root = crate::root::calc_base_level(n_main_pages);

        // One pass over every bucket: the overflow high-water mark and the
        // live pair count.
        let mut next_overflow_id: u64 = 0;
        let mut n_items: u64 = 0;
        let mut b: u64 = 0;
        let ghost mut chs: Seq<Seq<PageV>> = Seq::empty();
        while b < n_main_pages
            invariant
                self.inv(),
                *self == *old(self),
                n_main_pages <= (1u64 << 48u64),
                (1u64 << 48u64) <= MAX_PAGE_ID,
                b <= n_main_pages,
                next_overflow_id <= MAX_PAGE_ID,
                chs.len() == b,
                forall|x: int| 0 <= x < chs.len() ==> #[trigger] self.bucket_listed(x as u64, chs[x]),
                n_items == flatten_chains(chs).len(),
                forall|b2: u64, ch: Seq<PageV>, ids: Seq<u64>|
                    b2 < b && #[trigger] wf_chain(
                        self.main_pages,
                        self.overflow_pages,
                        b2,
                        ch,
                        ids,
                    ) ==> forall|j: int|
                        0 <= j < ids.len() ==> #[trigger] ids[j] < next_overflow_id,
            decreases n_main_pages - b,
        {
            let cb = match read_chain(&self.main_pages, &self.overflow_pages, b) {
                Ok(cb) => cb,
                Err(e) => {
                    return Err(e);
                },
            };
            let ghost nov0 = next_overflow_id;
            let n_ids = cb.ids.len();
            let mut j: usize = 0;
            while j < n_ids
                invariant
                    n_ids == cb.ids@.len(),
                    j <= n_ids,
                    next_overflow_id <= MAX_PAGE_ID,
                    next_overflow_id >= nov0,
                    forall|x: int|
                        0 <= x < cb.ids@.len() ==> #[trigger] cb.ids@[x] <= MAX_PAGE_ID,
                    forall|x: int| 0 <= x < j ==> #[trigger] cb.ids@[x] < next_overflow_id,
                decreases n_ids - j,
            {
                let id = cb.ids[j];
                if id >= next_overflow_id {
                    if id >= MAX_PAGE_ID {
                        return Err(Error::Codec);
                    }
                    next_overflow_id = id + 1;
                }
                j = j + 1;
            }
            let ghost ch = cb.chain();
            let n_pages_here = cb.pages.len();
            let mut p: usize = 0;
            while p < n_pages_here
                invariant
                    n_pages_here == cb.pages@.len(),
                    p <= n_pages_here,
                    ch == cb.chain(),
                    n_items == flatten_chains(chs).len() + chain_entries(
                        ch.take(p as int),
                    ).len(),
                decreases n_pages_here - p,
            {
                let len = cb.pages[p].kv_pairs.len() as u64;
                if u64::MAX - n_items < len {
                    return Err(Error::Codec);
                }
                n_items = n_items + len;
                proof {
                    assert(ch.take(p + 1) =~= ch.take(p as int).push(ch[p as int]));
                    crate::chain::lemma_chain_entries_push(ch.take(p as int), ch[p as int]);
                    assert(ch[p as int].kvs.len() == len);
                }
                p = p + 1;
            }
            proof {
                assert(ch.take(n_pages_here as int) =~= ch);
                let old_chs = chs;
                chs = chs.push(ch);
                lemma_flatten_chains_push(old_chs, ch);
                assert forall|x: int| 0 <= x < chs.len() implies #[trigger] self.bucket_listed(
                    x as u64,
                    chs[x],
                ) by {
                    if x < old_chs.len() {
                        assert(chs[x] == old_chs[x]);
                    } else {
                        assert(chs[x] == ch);
                        assert(wf_chain(
                            self.main_pages,
                            self.overflow_pages,
                            x as u64,
                            ch,
                            cb.ids@,
                        ));
                    }
                }
                assert forall|b2: u64, ch2: Seq<PageV>, ids2: Seq<u64>|
                    b2 < b + 1 && #[trigger] wf_chain(
                        self.main_pages,
                        self.overflow_pages,
                        b2,
                        ch2,
                        ids2,
                    ) implies forall|j2: int|
                    0 <= j2 < ids2.len() ==> #[trigger] ids2[j2] < next_overflow_id by {
                    if b2 == b {
                        crate::chain::lemma_chain_unique(
                            self.main_pages,
                            self.overflow_pages,
                            b2,
                            ch2,
                            ids2,
                            cb.chain(),
                            cb.ids@,
                        );
                    }
                }
            }
            b = b + 1;
        }

        let ghost scanned = *self;
        self.root = root;
        self.next_overflow_id = next_overflow_id;
        self.n_items = n_items;
        proof {
            assert forall|x: int| 0 <= x < chs.len() implies #[trigger] self.bucket_listed(
                x as u64,
                chs[x],
            ) by {
                assert(scanned.bucket_listed(x as u64, chs[x]));
                let ids = choose|ids: Seq<u64>|
                    #[trigger] wf_chain(
                        scanned.main_pages,
                        scanned.overflow_pages,
                        x as u64,
                        chs[x],
                        ids,
                    );
                assert(wf_chain(self.main_pages, self.overflow_pages, x as u64, chs[x], ids));
            }
            assert(self.listing(chs));
            assert forall|b2: u64, ch2: Seq<PageV>, ids2: Seq<u64>|
                b2 < n_main_pages && #[trigger] wf_chain(
                    self.main_pages,
                    self.overflow_pages,
                    b2,
                    ch2,
                    ids2,
                ) implies forall|j2: int|
                0 <= j2 < ids2.len() ==> #[trigger] ids2[j2] < self.next_overflow_id by {
                assert(wf_chain(scanned.main_pages, scanned.overflow_pages, b2, ch2, ids2));
            }
            assert(self.scan_boundary(n_main_pages)) by {
                assert(self.main_pages == scanned.main_pages);
            }
        }
        Ok(n_main_pages)
    }

    /// Bucket `b` holds exactly the whole chain `ch`.
    pub open spec fn bucket_listed(self, b: u64, ch: Seq<PageV>) -> bool {
        exists|ids: Seq<u64>|
            #[trigger] wf_chain(self.main_pages, self.overflow_pages, b, ch, ids)
    }

    /// One whole chain per bucket, in bucket order.
    pub open spec fn listing(self, chs: Seq<Seq<PageV>>) -> bool {
        &&& chs.len() == self.root.spec_n_pages()
        &&& forall|b: int| 0 <= b < chs.len() ==> #[trigger] self.bucket_listed(b as u64, chs[b])
    }

    /// The full unordered enumeration: every pair of every bucket's chain,
    /// bucket by bucket, page by page.
    #[verifier::loop_isolation(false)]
    pub fn list(&self) -> (r: Result<Vec<(Vec<u8>, Vec<u8>)>>)
        requires
            self.inv(),
        ensures
            match r {
                Ok(out) => exists|chs: Seq<Seq<PageV>>|
                    #[trigger] self.listing(chs) && kvs_view(out@) == flatten_chains(chs),
                Err(e) => e matches Error::IO(_) || e == Error::Codec,
            },
    {
        let n_pages = self.root.calc_n_pages();
        proof {
            self.lemma_cid_bounded(0);
        }
        let mut out: Vec<(Vec<u8>, Vec<u8>)> = Vec::new();
        let ghost mut chs: Seq<Seq<PageV>> = Seq::empty();
        let mut b: u64 = 0;
        while b < n_pages
            invariant
                b <= n_pages,
                chs.len() == b,
                forall|x: int| 0 <= x < chs.len() ==> #[trigger] self.bucket_listed(x as u64, chs[x]),
                kvs_view(out@) == flatten_chains(chs),
            decreases n_pages - b,
        {
            let cb = match read_chain(&self.main_pages, &self.overflow_pages, b) {
                Ok(cb) => cb,
                Err(e) => {
                    return Err(e);
                },
            };
            let ghost ch = cb.chain();
            let ghost base = kvs_view(out@);
            let np = cb.pages.len();
            let mut pi: usize = 0;
            while pi < np
                invariant
                    np == cb.pages@.len(),
                    pi <= np,
                    ch == cb.chain(),
                    kvs_view(out@) == base + chain_entries(ch.take(pi as int)),
                decreases np - pi,
            {
                let page = &cb.pages[pi];
                let ghost pkvs = ch[pi as int].kvs;
                let ghost base2 = kvs_view(out@);
                let nq = page.kv_pairs.len();
                let mut qi: usize = 0;
                while qi < nq
                    invariant
                        nq == page.kv_pairs@.len(),
                        qi <= nq,
                        page@ == ch[pi as int],
                        pkvs == ch[pi as int].kvs,
                        kvs_view(out@) == base2 + pkvs.take(qi as int),
                    decreases nq - qi,
                {
                    let key = crate::split::clone_bytes(&page.kv_pairs[qi].0);
                    let value = crate::split::clone_bytes(&page.kv_pairs[qi].1);
                    let ghost prev = kvs_view(out@);
                    proof {
                        assert(pkvs[qi as int] == (key@, value@));
                    }
                    out.push((key, value));
                    proof {
                        assert(kvs_view(out@) =~= prev.push(pkvs[qi as int]));
                        assert(pkvs.take(qi + 1) =~= pkvs.take(qi as int).push(pkvs[qi as int]));
                        assert(kvs_view(out@) =~= base2 + pkvs.take(qi + 1));
                    }
                    qi = qi + 1;
                }
                pi = pi + 1;
                proof {
                    assert(ch.take(pi as int) =~= ch.take(pi - 1).push(ch[pi - 1]));
                    crate::chain::lemma_chain_entries_push(ch.take(pi - 1), ch[pi - 1]);
                    assert(pkvs.take(nq as int) =~= pkvs);
                    assert(kvs_view(out@) =~= base + chain_entries(ch.take(pi as int)));
                }
            }
            proof {
                assert(ch.take(np as int) =~= ch);
                let old_chs = chs;
                chs = chs.push(ch);
                lemma_flatten_chains_push(old_chs, ch);
                assert forall|x: int| 0 <= x < chs.len() implies #[trigger] self.bucket_listed(
                    x as u64,
                    chs[x],
                ) by {
                    if x < old_chs.len() {
                        assert(chs[x] == old_chs[x]);
                    } else {
                        assert(chs[x] == ch);
                        assert(wf_chain(
                            self.main_pages,
                            self.overflow_pages,
                            x as u64,
                            ch,
                            cb.ids@,
                        ));
                    }
                }
            }
            b = b + 1;
        }
        proof {
            assert(self.listing(chs));
        }
        Ok(out)
    }

    /// Reclaim the storage of every overflow page below the allocation
    /// watermark that no bucket's chain reaches any more. Purely an
    /// optimization: a reachable page is never freed, so every healthy
    /// chain survives unchanged.
    #[verifier::loop_isolation(false)]
    pub fn gc(&mut self) -> (r: Result<u64>)
        requires
            old(self).inv(),
        ensures
            final(self).inv(),
            final(self).main_pages == old(self).main_pages,
            final(self).root == old(self).root,
            final(self).n_items == old(self).n_items,
            final(self).next_overflow_id == old(self).next_overflow_id,
            final(self).overflow_pages.cfg() == old(self).overflow_pages.cfg(),
            forall|b: u64, ch: Seq<PageV>, ids: Seq<u64>|
                b < old(self).root.spec_n_pages() && #[trigger] wf_chain(
                    old(self).main_pages,
                    old(self).overflow_pages,
                    b,
                    ch,
                    ids,
                ) ==> wf_chain(final(self).main_pages, final(self).overflow_pages, b, ch, ids),
            match r {
                Ok(nd) => exists|freed: Set<u64>|
                    {
                        &&& #[trigger] freed.finite()
                        &&& nd == freed.len()
                        &&& (forall|oid: u64|
                            freed.contains(oid) <==> (oid < old(self).next_overflow_id && !old(
                                self,
                            ).spec_reachable_overflow(oid)))
                        &&& (forall|oid: u64|
                            freed.contains(oid) ==> final(self).overflow_pages.page_at(
                                oid,
                            ) is None)
                        &&& (forall|oid: u64|
                            !freed.contains(oid) ==> final(self).overflow_pages.raw_at(oid) == old(
                                self,
                            ).overflow_pages.raw_at(oid))
                    },
                Err(e) => e matches Error::IO(_) || e == Error::Codec,
            },
    {
        let ghost pre = *self;
        let n_pages = self.root.calc_n_pages();
        proof {
            self.lemma_cid_bounded(0);
        }
        let mut reach: Vec<u64> = Vec::new();
        let mut b: u64 = 0;
        while b < n_pages
            invariant
                b <= n_pages,
                *self == pre,
                forall|x: int|
                    0 <= x < reach@.len() ==> #[trigger] pre.spec_reachable_overflow(reach@[x]),
                forall|b2: u64, ch: Seq<PageV>, ids: Seq<u64>|
                    b2 < b && #[trigger] wf_chain(
                        self.main_pages,
                        self.overflow_pages,
                        b2,
                        ch,
                        ids,
                    ) ==> forall|j: int| 0 <= j < ids.len() ==> reach@.contains(#[trigger] ids[j]),
            decreases n_pages - b,
        {
            let cb = match read_chain(&self.main_pages, &self.overflow_pages, b) {
                Ok(cb) => cb,
                Err(e) => {
                    return Err(e);
                },
            };
            let ghost pre_reach = reach@;
            let n_ids = cb.ids.len();
            let mut j: usize = 0;
            while j < n_ids
                invariant
                    n_ids == cb.ids@.len(),
                    j <= n_ids,
                    b < n_pages,
                    forall|x: int| 0 <= x < j ==> reach@.contains(#[trigger] cb.ids@[x]),
                    forall|v: u64| pre_reach.contains(v) ==> reach@.contains(v),
                    forall|x: int|
                        0 <= x < reach@.len() ==> #[trigger] pre.spec_reachable_overflow(
                            reach@[x],
                        ),
                decreases n_ids - j,
            {
                let ghost before = reach@;
                reach.push(cb.ids[j]);
                proof {
                    assert(reach@ == before.push(cb.ids@[j as int]));
                    assert forall|v: u64| before.contains(v) implies reach@.contains(v) by {
                        let x = choose|x: int| 0 <= x < before.len() && before[x] == v;
                        assert(reach@[x] == v);
                    }
                    assert(reach@[before.len() as int] == cb.ids@[j as int]);
                    assert(pre.spec_reachable_overflow(cb.ids@[j as int])) by {
                        assert(cb.ids@.contains(cb.ids@[j as int]));
                        assert(wf_chain(
                            pre.main_pages,
                            pre.overflow_pages,
                            b,
                            cb.chain(),
                            cb.ids@,
                        ));
                    }
                    assert forall|x: int| 0 <= x < reach@.len() implies
                        #[trigger] pre.spec_reachable_overflow(reach@[x]) by {
                        if x < before.len() {
                            assert(reach@[x] == before[x]);
                        }
                    }
                }
                j = j + 1;
            }
            proof {
                assert forall|b2: u64, ch: Seq<PageV>, ids: Seq<u64>|
                    b2 < b + 1 && #[trigger] wf_chain(
                        self.main_pages,
                        self.overflow_pages,
                        b2,
                        ch,
                        ids,
                    ) implies forall|j2: int|
                    0 <= j2 < ids.len() ==> reach@.contains(#[trigger] ids[j2]) by {
                    if b2 == b {
                        crate::chain::lemma_chain_unique(
                            self.main_pages,
                            self.overflow_pages,
                            b2,
                            ch,
                            ids,
                            cb.chain(),
                            cb.ids@,
                        );
                    }
                }
            }
            b = b + 1;
        }

        let watermark = self.next_overflow_id;
        let mut n_deleted: u64 = 0;
        let mut id: u64 = 0;
        let ghost mut freed: Set<u64> = Set::empty();
        while id < watermark
            invariant
                id <= watermark,
                watermark <= MAX_PAGE_ID,
                watermark == pre.next_overflow_id,
                n_deleted <= id,
                self.main_pages == pre.main_pages,
                self.root == pre.root,
                self.n_items == pre.n_items,
                self.next_overflow_id == pre.next_overflow_id,
                self.overflow_pages.cfg() == pre.overflow_pages.cfg(),
                freed.finite(),
                n_deleted == freed.len(),
                forall|oid: u64|
                    freed.contains(oid) <==> (oid < id && !reach@.contains(oid)),
                forall|oid: u64|
                    #[trigger] freed.contains(oid) ==> self.overflow_pages.page_at(oid) is None,
                forall|oid: u64|
                    !freed.contains(oid) ==> self.overflow_pages.raw_at(oid)
                        == pre.overflow_pages.raw_at(oid),
                forall|x: int|
                    0 <= x < reach@.len() ==> #[trigger] pre.spec_reachable_overflow(reach@[x]),
                forall|b2: u64, ch: Seq<PageV>, ids: Seq<u64>|
                    b2 < n_pages && #[trigger] wf_chain(
                        pre.main_pages,
                        pre.overflow_pages,
                        b2,
                        ch,
                        ids,
                    ) ==> forall|j: int| 0 <= j < ids.len() ==> reach@.contains(#[trigger] ids[j]),
            decreases watermark - id,
        {
            if !crate::chain::ids_contain_pub(&reach, id) {
                match self.overflow_pages.free_page_range(id, id + 1) {
                    Ok(()) => {
                        proof {
                            assert(!freed.contains(id));
                            freed = freed.insert(id);
                        }
                        n_deleted = n_deleted + 1;
                    },
                    Err(e) => {
                        proof {
                            assert forall|oid: u64|
                                reach@.contains(oid) implies self.overflow_pages.raw_at(oid)
                                == pre.overflow_pages.raw_at(oid) by {
                                assert(!freed.contains(oid));
                            }
                            lemma_gc_preserves(pre, *self, n_pages, reach@);
                        }
                        return Err(e);
                    },
                }
            }
            id = id + 1;
        }
        proof {
            assert forall|oid: u64| reach@.contains(oid) implies self.overflow_pages.raw_at(oid)
                == pre.overflow_pages.raw_at(oid) by {
                assert(!freed.contains(oid));
            }
            lemma_gc_preserves(pre, *self, n_pages, reach@);
            assert forall|oid: u64| #[trigger] freed.contains(oid) implies (oid
                < pre.next_overflow_id && !pre.spec_reachable_overflow(oid)) by {
                if pre.spec_reachable_overflow(oid) {
                    let (b2, ch2, ids2) = choose|b2: u64, ch2: Seq<PageV>, ids2: Seq<u64>|
                        {
                            &&& b2 < pre.root.spec_n_pages()
                            &&& #[trigger] wf_chain(
                                pre.main_pages,
                                pre.overflow_pages,
                                b2,
                                ch2,
                                ids2,
                            )
                            &&& ids2.contains(oid)
                        };
                    let j = choose|j: int| 0 <= j < ids2.len() && ids2[j] == oid;
                    assert(reach@.contains(ids2[j]));
                }
            }
            assert forall|oid: u64|
                oid < pre.next_overflow_id && !pre.spec_reachable_overflow(
                    oid,
                ) implies #[trigger] freed.contains(oid) by {
                if reach@.contains(oid) {
                    let x = choose|x: int| 0 <= x < reach@.len() && reach@[x] == oid;
                    assert(pre.spec_reachable_overflow(reach@[x]));
                }
            }
        }
        Ok(n_deleted)
    }

    /// Whether the load factor — live pairs over total primary capacity —
    /// exceeds eight tenths, the threshold past which the scheduler splits
    /// one bucket.
    pub open spec fn spec_over_load_factor(self) -> bool {
        self.n_items * 10 > self.root.spec_n_pages() * (self.main_pages.max_kv as int) * 8
    }

    pub fn over_load_factor(&self) -> (r: bool)
        requires
            self.inv(),
        ensures
            r == self.spec_over_load_factor(),
    {
        let n_pages = self.root.calc_n_pages();
        let a = n_pages as u128;
        let m = self.main_pages.max_kv as u128;
        proof {
            assert(a * m <= 0xFFFF_FFFF_FFFF_FFFFu128 * 0xFFFFu128) by (nonlinear_arith)
                requires
                    a <= 0xFFFF_FFFF_FFFF_FFFFu128 && m <= 0xFFFFu128,
            ;
        }
        let cap = a * m;
        ((self.n_items as u128) * 10) > cap * 8
    }
}

} // verus!
