//! The store's algebraic laws, proved from the operations' contracts.
//!
//! Each law is stated over the bucket-chain model that the operations'
//! own `ensures` speak of: a bucket has at most one whole chain, so the
//! chain an operation writes is exactly the chain the next operation
//! reads.

use vstd::prelude::*;

use crate::chain::{chain_lookup, key_in_one_page, lemma_chain_unique};
use crate::page::PageV;
use crate::root::PageChainId;
use crate::store::LinHashCore;

verus! {

/// Round trip: inserting `k -> v` into a bucket and then reading `k` from
/// that bucket yields `v`. The hypotheses are exactly what a successful
/// `insert_in_chain` ensures and what a successful `get_in_chain` on the
/// resulting state ensures; chain uniqueness ties the two together.
pub proof fn lemma_insert_then_get(
    pre: LinHashCore,
    mid: LinHashCore,
    cid: PageChainId,
    oldv: Option<Seq<u8>>,
    k: Seq<u8>,
    v: Seq<u8>,
    got: Option<Seq<u8>>,
)
    requires
        pre.chain_replaced(mid, cid, oldv, k, Some(v)),
        exists|ch: Seq<PageV>, ids: Seq<u64>|
            #[trigger] mid.bucket_chain(cid, ch, ids) && chain_lookup(ch, k) == got,
    ensures
        got == Some(v),
{
    let (ch1, ids1, ch2, ids2) = choose|
        ch1: Seq<PageV>,
        ids1: Seq<u64>,
        ch2: Seq<PageV>,
        ids2: Seq<u64>,
    |
        {
            &&& #[trigger] pre.bucket_chain(cid, ch1, ids1)
            &&& #[trigger] mid.bucket_chain(cid, ch2, ids2)
            &&& chain_lookup(ch1, k) == oldv
            &&& chain_lookup(ch2, k) == Some(v)
            &&& (forall|k2: Seq<u8>|
                k2 != k ==> #[trigger] chain_lookup(ch2, k2) == chain_lookup(ch1, k2))
            &&& (forall|i: int| 0 <= i < ids2.len() ==> #[trigger] ids2[i] <= crate::device::MAX_PAGE_ID)
            &&& (forall|oid: u64|
                !ids1.contains(oid) && !(pre.next_overflow_id <= oid < mid.next_overflow_id)
                    ==> mid.overflow_pages.raw_at(oid) == #[trigger] pre.overflow_pages.raw_at(
                    oid,
                ))
        };
    let (gch, gids) = choose|gch: Seq<PageV>, gids: Seq<u64>|
        #[trigger] mid.bucket_chain(cid, gch, gids) && chain_lookup(gch, k) == got;
    lemma_chain_unique(
        mid.main_pages,
        mid.overflow_pages,
        cid.main_page_id,
        ch2,
        ids2,
        gch,
        gids,
    );
}

/// Overwriting: inserting `k -> v1` and then `k -> v2` into the same
/// bucket reports `v1` as the previous value.
pub proof fn lemma_insert_then_insert(
    pre: LinHashCore,
    mid: LinHashCore,
    post: LinHashCore,
    cid: PageChainId,
    oldv1: Option<Seq<u8>>,
    oldv2: Option<Seq<u8>>,
    k: Seq<u8>,
    v1: Seq<u8>,
    v2: Seq<u8>,
)
    requires
        pre.chain_replaced(mid, cid, oldv1, k, Some(v1)),
        mid.chain_replaced(post, cid, oldv2, k, Some(v2)),
    ensures
        oldv2 == Some(v1),
{
    let (ch1, ids1, ch2, ids2) = choose|
        ch1: Seq<PageV>,
        ids1: Seq<u64>,
        ch2: Seq<PageV>,
        ids2: Seq<u64>,
    |
        {
            &&& #[trigger] pre.bucket_chain(cid, ch1, ids1)
            &&& #[trigger] mid.bucket_chain(cid, ch2, ids2)
            &&& chain_lookup(ch1, k) == oldv1
            &&& chain_lookup(ch2, k) == Some(v1)
            &&& (forall|k2: Seq<u8>|
                k2 != k ==> #[trigger] chain_lookup(ch2, k2) == chain_lookup(ch1, k2))
            &&& (forall|i: int| 0 <= i < ids2.len() ==> #[trigger] ids2[i] <= crate::device::MAX_PAGE_ID)
            &&& (forall|oid: u64|
                !ids1.contains(oid) && !(pre.next_overflow_id <= oid < mid.next_overflow_id)
                    ==> mid.overflow_pages.raw_at(oid) == #[trigger] pre.overflow_pages.raw_at(
                    oid,
                ))
        };
    let (ch3, ids3, ch4, ids4) = choose|
        ch3: Seq<PageV>,
        ids3: Seq<u64>,
        ch4: Seq<PageV>,
        ids4: Seq<u64>,
    |
        {
            &&& #[trigger] mid.bucket_chain(cid, ch3, ids3)
            &&& #[trigger] post.bucket_chain(cid, ch4, ids4)
            &&& chain_lookup(ch3, k) == oldv2
            &&& chain_lookup(ch4, k) == Some(v2)
            &&& (forall|k2: Seq<u8>|
                k2 != k ==> #[trigger] chain_lookup(ch4, k2) == chain_lookup(ch3, k2))
            &&& (forall|i: int| 0 <= i < ids4.len() ==> #[trigger] ids4[i] <= crate::device::MAX_PAGE_ID)
            &&& (forall|oid: u64|
                !ids3.contains(oid) && !(mid.next_overflow_id <= oid < post.next_overflow_id)
                    ==> post.overflow_pages.raw_at(oid) == #[trigger] mid.overflow_pages.raw_at(
                    oid,
                ))
        };
    lemma_chain_unique(
        mid.main_pages,
        mid.overflow_pages,
        cid.main_page_id,
        ch2,
        ids2,
        ch3,
        ids3,
    );
}

/// Map equivalence for unrelated keys: an insert of `k` leaves every other
/// key of the bucket reading exactly as before. With the round-trip laws
/// this is what keeps the store in step with a reference map, operation by
/// operation.
pub proof fn lemma_insert_preserves_other_keys(
    pre: LinHashCore,
    mid: LinHashCore,
    cid: PageChainId,
    oldv: Option<Seq<u8>>,
    k: Seq<u8>,
    v: Seq<u8>,
    k2: Seq<u8>,
    before: Option<Seq<u8>>,
    after: Option<Seq<u8>>,
)
    requires
        k2 != k,
        pre.chain_replaced(mid, cid, oldv, k, Some(v)),
        exists|ch: Seq<PageV>, ids: Seq<u64>|
            #[trigger] pre.bucket_chain(cid, ch, ids) && chain_lookup(ch, k2) == before,
        exists|ch: Seq<PageV>, ids: Seq<u64>|
            #[trigger] mid.bucket_chain(cid, ch, ids) && chain_lookup(ch, k2) == after,
    ensures
        after == before,
{
    let (ch1, ids1, ch2, ids2) = choose|
        ch1: Seq<PageV>,
        ids1: Seq<u64>,
        ch2: Seq<PageV>,
        ids2: Seq<u64>,
    |
        {
            &&& #[trigger] pre.bucket_chain(cid, ch1, ids1)
            &&& #[trigger] mid.bucket_chain(cid, ch2, ids2)
            &&& chain_lookup(ch1, k) == oldv
            &&& chain_lookup(ch2, k) == Some(v)
            &&& (forall|q: Seq<u8>|
                q != k ==> #[trigger] chain_lookup(ch2, q) == chain_lookup(ch1, q))
            &&& (forall|i: int| 0 <= i < ids2.len() ==> #[trigger] ids2[i] <= crate::device::MAX_PAGE_ID)
            &&& (forall|oid: u64|
                !ids1.contains(oid) && !(pre.next_overflow_id <= oid < mid.next_overflow_id)
                    ==> mid.overflow_pages.raw_at(oid) == #[trigger] pre.overflow_pages.raw_at(
                    oid,
                ))
        };
    let (bch, bids) = choose|bch: Seq<PageV>, bids: Seq<u64>|
        #[trigger] pre.bucket_chain(cid, bch, bids) && chain_lookup(bch, k2) == before;
    let (ach, aids) = choose|ach: Seq<PageV>, aids: Seq<u64>|
        #[trigger] mid.bucket_chain(cid, ach, aids) && chain_lookup(ach, k2) == after;
    lemma_chain_unique(
        pre.main_pages,
        pre.overflow_pages,
        cid.main_page_id,
        ch1,
        ids1,
        bch,
        bids,
    );
    lemma_chain_unique(
        mid.main_pages,
        mid.overflow_pages,
        cid.main_page_id,
        ch2,
        ids2,
        ach,
        aids,
    );
}

/// Delete semantics, present key: after removing `k` from a bucket whose
/// chain held `k` in one page — true of every chain the store itself
/// built — reading `k` from that bucket finds nothing, and every other key
/// reads as before.
pub proof fn lemma_delete_then_get(
    pre: LinHashCore,
    post: LinHashCore,
    cid: PageChainId,
    ch1: Seq<PageV>,
    ids1: Seq<u64>,
    ch2: Seq<PageV>,
    ids2: Seq<u64>,
    k: Seq<u8>,
    got: Option<Seq<u8>>,
)
    requires
        pre.bucket_chain(cid, ch1, ids1),
        post.bucket_chain(cid, ch2, ids2),
        key_in_one_page(ch1, k),
        key_in_one_page(ch1, k) ==> chain_lookup(ch2, k) is None,
        exists|gch: Seq<PageV>, gids: Seq<u64>|
            #[trigger] post.bucket_chain(cid, gch, gids) && chain_lookup(gch, k) == got,
    ensures
        got is None,
{
    let (gch, gids) = choose|gch: Seq<PageV>, gids: Seq<u64>|
        #[trigger] post.bucket_chain(cid, gch, gids) && chain_lookup(gch, k) == got;
    lemma_chain_unique(
        post.main_pages,
        post.overflow_pages,
        cid.main_page_id,
        ch2,
        ids2,
        gch,
        gids,
    );
}

/// List completeness, bucket by bucket: whatever chain a bucket holds is
/// exactly the chain the enumeration walked for it, so the enumeration's
/// pairs are exactly the chains' pairs laid out bucket after bucket.
pub proof fn lemma_listing_pins_buckets(
    s: LinHashCore,
    chs: Seq<Seq<PageV>>,
    b: u64,
    ch: Seq<PageV>,
    ids: Seq<u64>,
)
    requires
        s.listing(chs),
        b < chs.len(),
        crate::chain::wf_chain(s.main_pages, s.overflow_pages, b, ch, ids),
    ensures
        chs[b as int] == ch,
{
    let bi = b as int;
    assert(s.bucket_listed(bi as u64, chs[bi]));
    assert(bi as u64 == b);
    let lids = choose|lids: Seq<u64>|
        #[trigger] crate::chain::wf_chain(s.main_pages, s.overflow_pages, b, chs[b as int], lids);
    lemma_chain_unique(s.main_pages, s.overflow_pages, b, chs[b as int], lids, ch, ids);
}

/// Round trip at the store's public boundary: what a public insert ensures
/// — one possible split step, then the bucket transaction under the
/// settled directory — composed with what a public get ensures on the
/// resulting store yields the inserted value back.
pub proof fn lemma_public_insert_then_get(
    s0: LinHashCore,
    s1: LinHashCore,
    k: Seq<u8>,
    v: Seq<u8>,
    o: Option<Seq<u8>>,
    got: Option<Seq<u8>>,
)
    requires
        exists|pre2: LinHashCore|
            {
                &&& #[trigger] crate::split::split_step(s0, pre2)
                &&& pre2.root == s1.root
                &&& pre2.chain_replaced(
                    s1,
                    s1.root.spec_page_chain_id(crate::store::spec_hash(k)),
                    o,
                    k,
                    Some(v),
                )
            },
        exists|ch: Seq<PageV>, ids: Seq<u64>|
            #[trigger] s1.bucket_chain(
                s1.root.spec_page_chain_id(crate::store::spec_hash(k)),
                ch,
                ids,
            ) && chain_lookup(ch, k) == got,
    ensures
        got == Some(v),
{
    let cid = s1.root.spec_page_chain_id(crate::store::spec_hash(k));
    let pre2 = choose|pre2: LinHashCore|
        {
            &&& #[trigger] crate::split::split_step(s0, pre2)
            &&& pre2.root == s1.root
            &&& pre2.chain_replaced(s1, cid, o, k, Some(v))
        };
    lemma_insert_then_get(pre2, s1, cid, o, k, v, got);
}

/// Delete then read at the public boundary: what a public delete of a
/// present key ensures, composed with what a public get ensures on the
/// resulting store, finds nothing — provided the old bucket held the key
/// in one page, true of every chain the store builds.
pub proof fn lemma_public_delete_then_get(
    s0: LinHashCore,
    s1: LinHashCore,
    cid: PageChainId,
    k: Seq<u8>,
    v: Seq<u8>,
    got: Option<Seq<u8>>,
)
    requires
        exists|ch1: Seq<PageV>, ids1: Seq<u64>, ch2: Seq<PageV>, ids2: Seq<u64>|
            {
                &&& #[trigger] s0.bucket_chain(cid, ch1, ids1)
                &&& #[trigger] s1.bucket_chain(cid, ch2, ids2)
                &&& chain_lookup(ch1, k) == Some(v)
                &&& (forall|k2: Seq<u8>|
                    k2 != k ==> #[trigger] chain_lookup(ch2, k2) == chain_lookup(ch1, k2))
                &&& (key_in_one_page(ch1, k) ==> chain_lookup(ch2, k) is None)
            },
        forall|ch: Seq<PageV>, ids: Seq<u64>|
            #[trigger] s0.bucket_chain(cid, ch, ids) ==> key_in_one_page(ch, k),
        exists|gch: Seq<PageV>, gids: Seq<u64>|
            #[trigger] s1.bucket_chain(cid, gch, gids) && chain_lookup(gch, k) == got,
    ensures
        got is None,
{
    let (ch1, ids1, ch2, ids2) = choose|
        ch1: Seq<PageV>,
        ids1: Seq<u64>,
        ch2: Seq<PageV>,
        ids2: Seq<u64>,
    |
        {
            &&& #[trigger] s0.bucket_chain(cid, ch1, ids1)
            &&& #[trigger] s1.bucket_chain(cid, ch2, ids2)
            &&& chain_lookup(ch1, k) == Some(v)
            &&& (forall|k2: Seq<u8>|
                k2 != k ==> #[trigger] chain_lookup(ch2, k2) == chain_lookup(ch1, k2))
            &&& (key_in_one_page(ch1, k) ==> chain_lookup(ch2, k) is None)
        };
    let (gch, gids) = choose|gch: Seq<PageV>, gids: Seq<u64>|
        #[trigger] s1.bucket_chain(cid, gch, gids) && chain_lookup(gch, k) == got;
    lemma_chain_unique(
        s1.main_pages,
        s1.overflow_pages,
        cid.main_page_id,
        ch2,
        ids2,
        gch,
        gids,
    );
}

/// Split isolation: a completed split touches only the split bucket and
/// its new buddy. Every other bucket's chain still stands afterwards, and
/// the advanced directory still routes that bucket's keys to it — which is
/// why a reader of any other bucket can never observe a half-completed or
/// completed split. The frame hypotheses are exactly what `split` ensures.
pub proof fn lemma_split_preserves_other_buckets(
    pre: LinHashCore,
    post: LinHashCore,
    hash: u64,
    ch: Seq<PageV>,
    ids: Seq<u64>,
)
    requires
        pre.root.wf(),
        pre.root.base_level < crate::root::MAX_BASE_LEVEL,
        post.root == pre.root.spec_advanced(),
        post.main_pages.cfg() == pre.main_pages.cfg(),
        post.overflow_pages.cfg() == pre.overflow_pages.cfg(),
        forall|id: u64|
            id != pre.root.next_split_main_page_id && id != pre.root.next_split_main_page_id + (
            1u64 << pre.root.base_level as u64) ==> post.main_pages.raw_at(id)
                == pre.main_pages.raw_at(id),
        forall|oid: u64|
            oid < pre.next_overflow_id ==> post.overflow_pages.raw_at(oid)
                == pre.overflow_pages.raw_at(oid),
        pre.root.spec_page_chain_id(hash).main_page_id != pre.root.next_split_main_page_id,
        pre.bucket_chain(pre.root.spec_page_chain_id(hash), ch, ids),
        forall|j: int| 0 <= j < ids.len() ==> #[trigger] ids[j] < pre.next_overflow_id,
    ensures
        post.root.spec_page_chain_id(hash) == pre.root.spec_page_chain_id(hash),
        post.bucket_chain(pre.root.spec_page_chain_id(hash), ch, ids),
{
    crate::root::lemma_advance_preserves_other_routes(pre.root, hash);
    let cid = pre.root.spec_page_chain_id(hash);
    let level = pre.root.base_level as u64;
    let s = pre.root.next_split_main_page_id;
    crate::root::lemma_shift_bound(level);
    let buddy = (s + (1u64 << level)) as u64;
    let b = crate::root::spec_low_bits(hash, level);
    assert(b < (1u64 << level)) by (bit_vector)
        requires
            b == hash & ((1u64 << level) - 1) as u64 && level < 63,
    ;
    assert(cid.main_page_id != buddy) by {
        if b < s {
            let b2 = crate::root::spec_low_bits(hash, (level + 1) as u64);
            assert((b2 & ((1u64 << level) - 1) as u64) == b) by (bit_vector)
                requires
                    b == hash & ((1u64 << level) - 1) as u64
                        && b2 == hash & ((1u64 << (level + 1)) - 1) as u64 && level < 63,
            ;
            assert((buddy & ((1u64 << level) - 1) as u64) == s) by (bit_vector)
                requires
                    buddy == (s + (1u64 << level)) as u64 && s < (1u64 << level) && level < 63,
            ;
        }
    }
    assert(post.main_pages.raw_at(cid.main_page_id) == pre.main_pages.raw_at(cid.main_page_id));
    assert forall|j: int| 0 <= j < ids.len() implies post.overflow_pages.page_at(
        #[trigger] ids[j],
    ) == Some(ch[j + 1]) by {
        assert(post.overflow_pages.raw_at(ids[j]) == pre.overflow_pages.raw_at(ids[j]));
    }
}

} // verus!
