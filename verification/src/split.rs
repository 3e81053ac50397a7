//! Splitting the bucket at the split pointer: drain its chain, partition
//! the pairs by one extra hash bit, rebuild the old chain and its new buddy
//! chain from scratch at the next local level, write the new chain before
//! the old one, and only then advance the split pointer.

use vstd::prelude::*;

use crate::chain::{
    chain_entries, chain_lookup, lemma_chain_entries_push, lemma_chain_lookup_entries,
    pages_view, read_chain, wf_chain,
};
use crate::device::MAX_PAGE_ID;
use crate::error::{Error, Result};
use crate::page::{
    kvs_view, lemma_lookup_concat, lemma_lookup_none, pairs_sized, spec_lookup, unique_keys,
    Page, PageV,
};
use crate::root::{lemma_shift_bound, spec_low_bits, PageChainId, MAX_BASE_LEVEL};
use crate::store::{spec_hash, LinHashCore};

verus! {

/// The bucket a key belongs to once `level + 1` hash bits are in effect.
pub open spec fn spec_route(k: Seq<u8>, level: u8) -> u64
    recommends
        level < 63,
{
    spec_low_bits(spec_hash(k), (level + 1) as u64)
}

/// The pairs of `s` whose key routes to bucket `b` under `level + 1` hash
/// bits, in their original order.
pub open spec fn filter_route(s: Seq<(Seq<u8>, Seq<u8>)>, level: u8, b: u64) -> Seq<
    (Seq<u8>, Seq<u8>),
>
    decreases s.len(),
{
    if s.len() == 0 {
        Seq::empty()
    } else {
        (if spec_route(s[0].0, level) == b {
            seq![s[0]]
        } else {
            Seq::empty()
        }) + filter_route(s.drop_first(), level, b)
    }
}

/// Extending the pair list extends its routed part at the end.
pub proof fn lemma_filter_route_push(
    s: Seq<(Seq<u8>, Seq<u8>)>,
    x: (Seq<u8>, Seq<u8>),
    level: u8,
    b: u64,
)
    ensures
        filter_route(s.push(x), level, b) == filter_route(s, level, b) + (if spec_route(
            x.0,
            level,
        ) == b {
            seq![x]
        } else {
            Seq::<(Seq<u8>, Seq<u8>)>::empty()
        }),
    decreases s.len(),
{
    let tail = if spec_route(x.0, level) == b {
        seq![x]
    } else {
        Seq::<(Seq<u8>, Seq<u8>)>::empty()
    };
    if s.len() == 0 {
        assert(s.push(x)[0] == x);
        assert(s.push(x).drop_first() =~= Seq::<(Seq<u8>, Seq<u8>)>::empty());
        assert(filter_route(s.push(x).drop_first(), level, b) =~= Seq::<
            (Seq<u8>, Seq<u8>),
        >::empty());
        assert(filter_route(s.push(x), level, b) =~= tail);
        assert(filter_route(s, level, b) + tail =~= tail);
    } else {
        assert(s.push(x)[0] == s[0]);
        assert(s.push(x).drop_first() =~= s.drop_first().push(x));
        lemma_filter_route_push(s.drop_first(), x, level, b);
        let head = if spec_route(s[0].0, level) == b {
            seq![s[0]]
        } else {
            Seq::<(Seq<u8>, Seq<u8>)>::empty()
        };
        assert(head + (filter_route(s.drop_first(), level, b) + tail) =~= (head + filter_route(
            s.drop_first(),
            level,
            b,
        )) + tail);
    }
}

/// Routing partitions lookups: a key that routes to `b` finds in the routed
/// part exactly what it found in the whole list, and a key that routes
/// elsewhere finds nothing there. The heart of split correctness: the route
/// is a function of the key, so pairs routed away can never shadow it.
pub proof fn lemma_filter_route_lookup(s: Seq<(Seq<u8>, Seq<u8>)>, level: u8, b: u64, k: Seq<u8>)
    ensures
        spec_route(k, level) == b ==> spec_lookup(filter_route(s, level, b), k) == spec_lookup(
            s,
            k,
        ),
        spec_route(k, level) != b ==> spec_lookup(filter_route(s, level, b), k) is None,
    decreases s.len(),
{
    if s.len() == 0 {
    } else {
        lemma_filter_route_lookup(s.drop_first(), level, b, k);
        let head = if spec_route(s[0].0, level) == b {
            seq![s[0]]
        } else {
            Seq::<(Seq<u8>, Seq<u8>)>::empty()
        };
        lemma_lookup_concat(head, filter_route(s.drop_first(), level, b), k);
        if spec_route(s[0].0, level) == b {
            crate::page::lemma_lookup_singleton(s[0], k);
        } else {
            if s[0].0 == k {
                assert(spec_route(k, level) != b);
            }
        }
    }
}

/// Filtering by route keeps keys unique.
pub proof fn lemma_filter_route_unique(s: Seq<(Seq<u8>, Seq<u8>)>, level: u8, b: u64)
    requires
        unique_keys(s),
    ensures
        unique_keys(filter_route(s, level, b)),
    decreases s.len(),
{
    if s.len() == 0 {
    } else {
        let rest = s.drop_first();
        assert(unique_keys(rest)) by {
            assert(forall|j: int| 0 <= j < rest.len() ==> #[trigger] rest[j] == s[j + 1]);
        }
        lemma_filter_route_unique(rest, level, b);
        let f = filter_route(s, level, b);
        let ftail = filter_route(rest, level, b);
        if spec_route(s[0].0, level) == b {
            assert(f =~= seq![s[0]] + ftail);
            assert(spec_lookup(rest, s[0].0) is None) by {
                assert(forall|j: int| 0 <= j < rest.len() ==> (#[trigger] rest[j]).0 != s[0].0);
                lemma_lookup_none(rest, s[0].0);
            }
            lemma_filter_route_lookup(rest, level, b, s[0].0);
            crate::page::lemma_lookup_none_means_no_entry(ftail, s[0].0);
            assert forall|x: int, y: int| 0 <= x < y < f.len() implies f[x].0 != f[y].0 by {
                if x == 0 {
                    assert(f[y] == ftail[y - 1]);
                } else {
                    assert(f[x] == ftail[x - 1] && f[y] == ftail[y - 1]);
                }
            }
        } else {
            assert(f =~= ftail);
        }
    }
}

/// Filtering by route keeps every pair's sizes.
pub proof fn lemma_filter_route_sized(s: Seq<(Seq<u8>, Seq<u8>)>, level: u8, b: u64, ks: nat, vs: nat)
    requires
        pairs_sized(s, ks, vs),
    ensures
        pairs_sized(filter_route(s, level, b), ks, vs),
    decreases s.len(),
{
    if s.len() == 0 {
    } else {
        let rest = s.drop_first();
        assert(pairs_sized(rest, ks, vs)) by {
            assert(forall|j: int| 0 <= j < rest.len() ==> #[trigger] rest[j] == s[j + 1]);
        }
        lemma_filter_route_sized(rest, level, b, ks, vs);
        let f = filter_route(s, level, b);
        let ftail = filter_route(rest, level, b);
        if spec_route(s[0].0, level) == b {
            assert(f =~= seq![s[0]] + ftail);
            assert forall|x: int| 0 <= x < f.len() implies (#[trigger] f[x]).0.len() == ks
                && f[x].1.len() == vs by {
                if x == 0 {
                    assert(f[0] == s[0]);
                } else {
                    assert(f[x] == ftail[x - 1]);
                }
            }
        } else {
            assert(f =~= ftail);
        }
    }
}

/// Copy a byte string.
pub fn clone_bytes(v: &Vec<u8>) -> (r: Vec<u8>)
    ensures
        r@ == v@,
{
    let r = crate::codec::copy_range(v.as_slice(), 0, v.len());
    proof {
        assert(v@.subrange(0, v@.len() as int) =~= v@);
    }
    r
}

/// Whether the flat pair list already carries `key`.
pub(crate) fn kv_has(flat: &Vec<(Vec<u8>, Vec<u8>)>, key: &[u8]) -> (r: bool)
    ensures
        r == (spec_lookup(kvs_view(flat@), key@) is Some),
{
    let n = flat.len();
    let mut i: usize = 0;
    while i < n
        invariant
            n == flat@.len(),
            i <= n,
            forall|j: int| 0 <= j < i ==> kvs_view(flat@)[j].0 != key@,
        decreases n - i,
    {
        if crate::bytes::bytes_eq(flat[i].0.as_slice(), key) {
            proof {
                crate::page::lemma_lookup_at(kvs_view(flat@), key@, i as int);
            }
            return true;
        }
        i = i + 1;
    }
    proof {
        lemma_lookup_none(kvs_view(flat@), key@);
    }
    false
}

/// Drain a loaded chain into one flat pair list, first occurrence winning,
/// so that scanning the list answers exactly what scanning the chain did.
#[verifier::loop_isolation(false)]
pub fn collect_rehash_kv_pairs(pages: &Vec<Page>) -> (r: Vec<(Vec<u8>, Vec<u8>)>)
    ensures
        unique_keys(kvs_view(r@)),
        forall|k: Seq<u8>|
            #[trigger] spec_lookup(kvs_view(r@), k) == chain_lookup(pages_view(pages@), k),
        forall|ks: nat, vs: nat|
            (forall|j: int|
                0 <= j < pages@.len() ==> pairs_sized(
                    (#[trigger] pages_view(pages@)[j]).kvs,
                    ks,
                    vs,
                )) ==> #[trigger] pairs_sized(kvs_view(r@), ks, vs),
{
    let ghost ch = pages_view(pages@);
    let mut flat: Vec<(Vec<u8>, Vec<u8>)> = Vec::new();
    let np = pages.len();
    let mut pi: usize = 0;
    while pi < np
        invariant
            np == pages@.len(),
            pi <= np,
            unique_keys(kvs_view(flat@)),
            forall|k: Seq<u8>|
                #[trigger] spec_lookup(kvs_view(flat@), k) == chain_lookup(
                    ch.take(pi as int),
                    k,
                ),
            forall|ks: nat, vs: nat|
                (forall|j: int|
                    0 <= j < pages@.len() ==> pairs_sized((#[trigger] ch[j]).kvs, ks, vs))
                    ==> #[trigger] pairs_sized(kvs_view(flat@), ks, vs),
        decreases np - pi,
    {
        let page = &pages[pi];
        let ghost pkvs = ch[pi as int].kvs;
        let nq = page.kv_pairs.len();
        let mut qi: usize = 0;
        while qi < nq
            invariant
                nq == page.kv_pairs@.len(),
                qi <= nq,
                pkvs == ch[pi as int].kvs,
                page@ == ch[pi as int],
                unique_keys(kvs_view(flat@)),
                forall|k: Seq<u8>|
                    #[trigger] spec_lookup(kvs_view(flat@), k) == (match chain_lookup(
                        ch.take(pi as int),
                        k,
                    ) {
                        Some(v) => Some(v),
                        None => spec_lookup(pkvs.take(qi as int), k),
                    }),
                forall|ks: nat, vs: nat|
                    (forall|j: int|
                        0 <= j < pages@.len() ==> pairs_sized((#[trigger] ch[j]).kvs, ks, vs))
                        ==> #[trigger] pairs_sized(kvs_view(flat@), ks, vs),
            decreases nq - qi,
        {
            let ghost pre_flat = kvs_view(flat@);
            let ghost pair = pkvs[qi as int];
            let key = clone_bytes(&page.kv_pairs[qi].0);
            let value = clone_bytes(&page.kv_pairs[qi].1);
            proof {
                assert(pair == (key@, value@));
            }
            if !kv_has(&flat, key.as_slice()) {
                flat.push((key, value));
                proof {
                    assert(kvs_view(flat@) =~= pre_flat.push(pair));
                    crate::page::lemma_lookup_push(pre_flat, pair.0, pair.1);
                    lemma_unique_push_pair(pre_flat, pair);
                    assert forall|ks: nat, vs: nat|
                        (forall|j: int|
                            0 <= j < pages@.len() ==> pairs_sized(
                                (#[trigger] ch[j]).kvs,
                                ks,
                                vs,
                            )) implies #[trigger] pairs_sized(kvs_view(flat@), ks, vs) by {
                        assert(pairs_sized(pre_flat, ks, vs));
                        assert(pairs_sized(ch[pi as int].kvs, ks, vs));
                        assert(pair.0.len() == ks && pair.1.len() == vs);
                        assert forall|x: int| 0 <= x < kvs_view(flat@).len() implies (
                        #[trigger] kvs_view(flat@)[x]).0.len() == ks && kvs_view(
                            flat@,
                        )[x].1.len() == vs by {
                            if x < pre_flat.len() {
                                assert(kvs_view(flat@)[x] == pre_flat[x]);
                            } else {
                                assert(kvs_view(flat@)[x] == pair);
                            }
                        }
                    }
                    assert forall|k: Seq<u8>| true implies #[trigger] spec_lookup(
                        kvs_view(flat@),
                        k,
                    ) == (match chain_lookup(ch.take(pi as int), k) {
                        Some(v) => Some(v),
                        None => spec_lookup(pkvs.take(qi + 1), k),
                    }) by {
                        assert(pkvs.take(qi + 1) =~= pkvs.take(qi as int).push(pair));
                        lemma_lookup_concat(pkvs.take(qi as int), seq![pair], k);
                        assert(pkvs.take(qi as int) + seq![pair] =~= pkvs.take(qi + 1));
                        crate::page::lemma_lookup_singleton(pair, k);
                        if k == pair.0 {
                        } else {
                            crate::page::lemma_lookup_push_other(pre_flat, pair, k);
                        }
                    }
                }
            } else {
                proof {
                    assert forall|k: Seq<u8>| true implies #[trigger] spec_lookup(
                        kvs_view(flat@),
                        k,
                    ) == (match chain_lookup(ch.take(pi as int), k) {
                        Some(v) => Some(v),
                        None => spec_lookup(pkvs.take(qi + 1), k),
                    }) by {
                        lemma_lookup_concat(pkvs.take(qi as int), seq![pair], k);
                        assert(pkvs.take(qi as int) + seq![pair] =~= pkvs.take(qi + 1));
                        crate::page::lemma_lookup_singleton(pair, k);
                        if k == pair.0 {
                            assert(spec_lookup(kvs_view(flat@), k) is Some);
                        }
                    }
                }
            }
            qi = qi + 1;
        }
        pi = pi + 1;
        proof {
            assert(ch.take(pi as int) =~= ch.take(pi - 1).push(ch[pi - 1]));
            assert(pkvs.take(nq as int) =~= pkvs);
            assert forall|k: Seq<u8>| true implies #[trigger] spec_lookup(kvs_view(flat@), k)
                == chain_lookup(ch.take(pi as int), k) by {
                crate::chain::lemma_chain_lookup_push(ch.take(pi - 1), ch[pi - 1], k);
            }
        }
    }
    proof {
        assert(ch.take(np as int) =~= ch);
    }
    flat
}

/// Pushing a pair with a fresh key keeps keys unique.
proof fn lemma_unique_push_pair(s: Seq<(Seq<u8>, Seq<u8>)>, p: (Seq<u8>, Seq<u8>))
    requires
        unique_keys(s),
        spec_lookup(s, p.0) is None,
    ensures
        unique_keys(s.push(p)),
{
    crate::page::lemma_lookup_none_means_no_entry(s, p.0);
    let t = s.push(p);
    assert forall|i: int, j: int| 0 <= i < j < t.len() implies t[i].0 != t[j].0 by {
        if j == s.len() {
            assert(s[i].0 != p.0);
        }
    }
}

/// Partition the drained pairs with one extra hash bit: a pair stays in
/// bucket `split_id` or moves to its new buddy `split_id + 2^level`. A pair
/// that routes to neither bucket does not belong to this chain at all and
/// reports a corrupt table.
#[verifier::loop_isolation(false)]
pub fn partition_pairs(flat: &Vec<(Vec<u8>, Vec<u8>)>, level: u8, split_id: u64, buddy: u64) -> (r:
    Result<(Vec<(Vec<u8>, Vec<u8>)>, Vec<(Vec<u8>, Vec<u8>)>)>)
    requires
        level < MAX_BASE_LEVEL,
        buddy == split_id + (1u64 << level as u64),
    ensures
        match r {
            Ok((a, b)) => {
                &&& kvs_view(a@) == filter_route(kvs_view(flat@), level, split_id)
                &&& kvs_view(b@) == filter_route(kvs_view(flat@), level, buddy)
                &&& forall|j: int|
                    0 <= j < flat@.len() ==> (spec_route((#[trigger] kvs_view(flat@)[j]).0, level)
                        == split_id || spec_route(kvs_view(flat@)[j].0, level) == buddy)
            },
            Err(e) => e == Error::Codec,
        },
{
    let ghost fv = kvs_view(flat@);
    let mut list_a: Vec<(Vec<u8>, Vec<u8>)> = Vec::new();
    let mut list_b: Vec<(Vec<u8>, Vec<u8>)> = Vec::new();
    let n = flat.len();
    let mut i: usize = 0;
    proof {
        lemma_shift_bound(level as u64);
    }
    while i < n
        invariant
            n == flat@.len(),
            i <= n,
            kvs_view(list_a@) == filter_route(fv.take(i as int), level, split_id),
            kvs_view(list_b@) == filter_route(fv.take(i as int), level, buddy),
            forall|j: int|
                0 <= j < i ==> (spec_route((#[trigger] fv[j]).0, level) == split_id || spec_route(
                    fv[j].0,
                    level,
                ) == buddy),
        decreases n - i,
    {
        let ghost pair = fv[i as int];
        let key = clone_bytes(&flat[i].0);
        let value = clone_bytes(&flat[i].1);
        proof {
            assert(pair == (key@, value@));
        }
        if key.len() < 8 {
            return Err(Error::Codec);
        }
        let hash = crate::store::hash_key(key.as_slice());
        let b = crate::root::low_bits(hash, level as u64 + 1);
        proof {
            assert(b == spec_route(pair.0, level));
            assert(fv.take(i + 1) =~= fv.take(i as int).push(pair));
            lemma_filter_route_push(fv.take(i as int), pair, level, split_id);
            lemma_filter_route_push(fv.take(i as int), pair, level, buddy);
        }
        if b == split_id {
            let ghost pre = kvs_view(list_a@);
            list_a.push((key, value));
            proof {
                assert(kvs_view(list_a@) =~= pre.push(pair));
                assert(pre.push(pair) =~= pre + seq![pair]);
                assert(kvs_view(list_b@) + Seq::<(Seq<u8>, Seq<u8>)>::empty() =~= kvs_view(
                    list_b@,
                ));
            }
        } else if b == buddy {
            let ghost pre = kvs_view(list_b@);
            list_b.push((key, value));
            proof {
                assert(kvs_view(list_b@) =~= pre.push(pair));
                assert(pre.push(pair) =~= pre + seq![pair]);
                assert(kvs_view(list_a@) + Seq::<(Seq<u8>, Seq<u8>)>::empty() =~= kvs_view(
                    list_a@,
                ));
            }
        } else {
            return Err(Error::Codec);
        }
        i = i + 1;
    }
    proof {
        assert(fv.take(n as int) =~= fv);
    }
    Ok((list_a, list_b))
}

/// Lay a flat pair list out as one fresh chain: a primary page tagged with
/// the new local level, spilling into consecutive fresh overflow ids
/// whenever a page reaches the configured capacity.
#[verifier::loop_isolation(false)]
pub fn insert_kv_pairs_into_pages(
    pairs: &Vec<(Vec<u8>, Vec<u8>)>,
    locallevel: u8,
    start_id: u64,
    max_kv: u16,
) -> (r: (Vec<Page>, Vec<u64>))
    requires
        max_kv >= 1,
        unique_keys(kvs_view(pairs@)),
        start_id + pairs@.len() <= MAX_PAGE_ID,
    ensures
        ({
            let (pages, ids) = r;
            let ch = pages_view(pages@);
            &&& ch.len() == ids@.len() + 1
            &&& chain_entries(ch) == kvs_view(pairs@)
            &&& ch[0].locallevel == Some(locallevel)
            &&& (forall|j: int| 0 <= j < ids@.len() ==> #[trigger] ids@[j] == start_id + j)
            &&& ids@.len() <= pairs@.len()
            &&& (forall|j: int|
                0 <= j < ids@.len() ==> (#[trigger] ch[j]).overflow_id == Some(ids@[j]))
            &&& ch.last().overflow_id is None
            &&& (forall|j: int| 0 <= j < ch.len() ==> (#[trigger] ch[j]).wf())
            &&& (forall|j: int| 0 <= j < ch.len() ==> (#[trigger] ch[j]).kvs.len() <= max_kv)
            &&& (forall|ks: nat, vs: nat|
                #[trigger] pairs_sized(kvs_view(pairs@), ks, vs) ==> (forall|j: int|
                    0 <= j < ch.len() ==> pairs_sized((#[trigger] ch[j]).kvs, ks, vs)))
        }),
{
    let ghost fv = kvs_view(pairs@);
    let mut done: Vec<Page> = Vec::new();
    let mut ids: Vec<u64> = Vec::new();
    let mut cur = Page::new();
    cur.locallevel = Some(locallevel);
    let n = pairs.len();
    let mut i: usize = 0;
    while i < n
        invariant
            n == pairs@.len(),
            i <= n,
            done@.len() == ids@.len(),
            ids@.len() + cur@.kvs.len() <= i,
            chain_entries(pages_view(done@)) + cur@.kvs =~= fv.take(i as int),
            cur@.kvs =~= fv.subrange(i - cur@.kvs.len(), i as int),
            cur@.wf(),
            cur@.kvs.len() <= max_kv,
            cur@.overflow_id is None,
            cur@.locallevel == (if done@.len() == 0 {
                Some(locallevel)
            } else {
                None::<u8>
            }),
            pages_view(done@).len() == 0 || pages_view(done@)[0].locallevel == Some(locallevel),
            forall|j: int| 0 <= j < ids@.len() ==> #[trigger] ids@[j] == start_id + j,
            forall|j: int|
                0 <= j < ids@.len() ==> (#[trigger] pages_view(done@)[j]).overflow_id == Some(
                    ids@[j],
                ),
            forall|j: int| 0 <= j < done@.len() ==> (#[trigger] pages_view(done@)[j]).wf(),
            forall|j: int|
                0 <= j < done@.len() ==> (#[trigger] pages_view(done@)[j]).kvs.len() <= max_kv,
            forall|ks: nat, vs: nat|
                #[trigger] pairs_sized(fv, ks, vs) ==> pairs_sized(cur@.kvs, ks, vs) && (forall|
                    j: int,
                |
                    0 <= j < done@.len() ==> pairs_sized(
                        (#[trigger] pages_view(done@)[j]).kvs,
                        ks,
                        vs,
                    )),
        decreases n - i,
    {
        if cur.kv_pairs.len() >= max_kv as usize {
            let oid = start_id + ids.len() as u64;
            cur.overflow_id = Some(oid);
            let ghost done_pre = pages_view(done@);
            let ghost cur_pre = cur@;
            done.push(cur);
            ids.push(oid);
            cur = Page::new();
            proof {
                assert(pages_view(done@) =~= done_pre.push(cur_pre));
                lemma_chain_entries_push(done_pre, cur_pre);
                assert(chain_entries(pages_view(done@)) + cur@.kvs =~= fv.take(i as int));
                assert(cur@.kvs =~= fv.subrange(i - cur@.kvs.len(), i as int));
            }
        }
        let ghost pair = fv[i as int];
        let key = clone_bytes(&pairs[i].0);
        let value = clone_bytes(&pairs[i].1);
        proof {
            assert(pair == (key@, value@));
            let lo = i - cur@.kvs.len();
            assert forall|j: int| 0 <= j < cur@.kvs.len() implies (#[trigger] cur@.kvs[j]).0
                != key@ by {
                assert(cur@.kvs[j] == fv[lo + j]);
                assert(fv[lo + j].0 != fv[i as int].0);
            }
            lemma_lookup_none(cur@.kvs, key@);
        }
        let r = cur.insert(key, value);
        proof {
            assert(r is None);
            assert(cur@.kvs =~= fv.subrange(i - (cur@.kvs.len() - 1), i as int).push(pair));
            assert(fv.subrange(i + 1 - cur@.kvs.len(), i + 1) =~= fv.subrange(
                i + 1 - cur@.kvs.len(),
                i as int,
            ).push(pair));
            assert(cur@.kvs =~= fv.subrange(i + 1 - cur@.kvs.len(), i + 1));
            assert(chain_entries(pages_view(done@)) + cur@.kvs =~= fv.take(i + 1));
        }
        i = i + 1;
    }
    let ghost done_pre = pages_view(done@);
    let ghost cur_pre = cur@;
    done.push(cur);
    proof {
        assert(pages_view(done@) =~= done_pre.push(cur_pre));
        lemma_chain_entries_push(done_pre, cur_pre);
        assert(fv.take(n as int) =~= fv);
        assert(chain_entries(pages_view(done@)) =~= fv);
        assert(pages_view(done@)[0].locallevel == Some(locallevel));
        assert(pages_view(done@).last() == cur_pre);
        assert forall|j: int| 0 <= j < ids@.len() implies (#[trigger] pages_view(
            done@,
        )[j]).overflow_id == Some(ids@[j]) by {
            assert(pages_view(done@)[j] == done_pre[j]);
        }
    }
    (done, ids)
}

/// What a completed split promises: the drained bucket had a whole chain
/// tagged with the old level, and afterwards both the old bucket and its
/// buddy carry whole chains tagged one level higher, each answering every
/// key that routes to it exactly as the old chain did, with no key lost.
pub open spec fn split_carried(pre: LinHashCore, post: LinHashCore) -> bool {
    let sid = pre.root.next_split_main_page_id;
    let level = pre.root.base_level;
    let buddy = (sid + (1u64 << level as u64)) as u64;
    exists|
        ch: Seq<PageV>,
        ids: Seq<u64>,
        cha: Seq<PageV>,
        idsa: Seq<u64>,
        chb: Seq<PageV>,
        idsb: Seq<u64>,
    |
        #![trigger wf_chain(pre.main_pages, pre.overflow_pages, sid, ch, ids),
            wf_chain(post.main_pages, post.overflow_pages, sid, cha, idsa),
            wf_chain(post.main_pages, post.overflow_pages, buddy, chb, idsb)]
        {
            &&& wf_chain(pre.main_pages, pre.overflow_pages, sid, ch, ids)
            &&& wf_chain(post.main_pages, post.overflow_pages, sid, cha, idsa)
            &&& wf_chain(post.main_pages, post.overflow_pages, buddy, chb, idsb)
            &&& ch[0].locallevel == Some(level)
            &&& cha[0].locallevel == Some((level + 1) as u8)
            &&& chb[0].locallevel == Some((level + 1) as u8)
            &&& (forall|k: Seq<u8>|
                spec_route(k, level) == sid ==> #[trigger] chain_lookup(cha, k) == chain_lookup(
                    ch,
                    k,
                ))
            &&& (forall|k: Seq<u8>|
                spec_route(k, level) == buddy ==> #[trigger] chain_lookup(chb, k) == chain_lookup(
                    ch,
                    k,
                ))
            &&& (forall|k: Seq<u8>|
                #[trigger] chain_lookup(ch, k) is Some ==> spec_route(k, level) == sid
                    || spec_route(k, level) == buddy)
        }
}

/// What one processed split wake-up may do to the core: nothing, or one
/// completed split. Either way the counters' meaning, both configurations,
/// every primary page outside the split pair and every overflow slot below
/// the old allocation watermark are untouched.
pub open spec fn split_step(pre: LinHashCore, post: LinHashCore) -> bool {
    &&& post.n_items == pre.n_items
    &&& post.main_pages.cfg() == pre.main_pages.cfg()
    &&& post.overflow_pages.cfg() == pre.overflow_pages.cfg()
    &&& post.next_overflow_id >= pre.next_overflow_id
    &&& (forall|id: u64|
        id != pre.root.next_split_main_page_id && id != pre.root.next_split_main_page_id + (1u64
            << pre.root.base_level as u64) ==> post.main_pages.raw_at(id)
            == #[trigger] pre.main_pages.raw_at(id))
    &&& (forall|oid: u64|
        oid < pre.next_overflow_id ==> post.overflow_pages.raw_at(oid)
            == #[trigger] pre.overflow_pages.raw_at(oid))
    &&& (post.root == pre.root || (post.root == pre.root.spec_advanced() && split_carried(
        pre,
        post,
    )))
}

impl LinHashCore {
    /// Split the bucket at the split pointer into itself and its new buddy
    /// bucket, then advance the pointer. The new chain is written before
    /// the old one is overwritten, and within each chain the overflow pages
    /// are made durable before the primary page that points into them.
    #[verifier::loop_isolation(false)]
    #[verifier::rlimit(100)]
    pub fn split(&mut self) -> (r: Result<()>)
        requires
            old(self).inv(),
            old(self).root.base_level < MAX_BASE_LEVEL,
        ensures
            final(self).inv(),
            final(self).main_pages.cfg() == old(self).main_pages.cfg(),
            final(self).overflow_pages.cfg() == old(self).overflow_pages.cfg(),
            final(self).n_items == old(self).n_items,
            final(self).next_overflow_id >= old(self).next_overflow_id,
            forall|id: u64|
                id != old(self).root.next_split_main_page_id && id != old(
                    self,
                ).root.next_split_main_page_id + (1u64 << old(self).root.base_level as u64)
                    ==> final(self).main_pages.raw_at(id) == old(self).main_pages.raw_at(id),
            forall|oid: u64|
                oid < old(self).next_overflow_id ==> final(self).overflow_pages.raw_at(oid) == old(
                    self,
                ).overflow_pages.raw_at(oid),
            match r {
                Ok(()) => {
                    &&& final(self).root == old(self).root.spec_advanced()
                    &&& split_carried(*old(self), *final(self))
                },
                Err(e) => {
                    &&& (e matches Error::IO(_) || e == Error::Codec
                        || e == Error::LocalLevelMismatch)
                    &&& final(self).root == old(self).root
                    &&& (e == Error::Codec || e == Error::LocalLevelMismatch) ==> *final(self)
                        == *old(self)
                },
            },
    {
        let ghost pre = *self;
        let sid = self.root.next_split_main_page_id;
        let level = self.root.base_level;
        proof {
            lemma_shift_bound(level as u64);
            self.lemma_cid_bounded(0);
        }
        let buddy = sid + (1u64 << level as u64);
        let cid = PageChainId { main_page_id: sid, locallevel: level };
        // The snapshot check runs on the primary page alone, before the
        // overflow chain is touched.
        match self.check_tag(cid) {
            Ok(()) => {},
            Err(e) => {
                return Err(e);
            },
        }
        let cb = match read_chain(&self.main_pages, &self.overflow_pages, sid) {
            Ok(cb) => cb,
            Err(e) => {
                return Err(e);
            },
        };
        let tag_ok = match cb.pages[0].locallevel {
            Some(l) => l == level,
            None => false,
        };
        if !tag_ok {
            return Err(Error::LocalLevelMismatch);
        }
        let ghost ch1 = cb.chain();
        let ghost ids1 = cb.ids@;
        proof {
            assert(ch1[0] == cb.pages@[0]@);
        }

        // Drain and repartition the bucket's pairs with one extra hash bit.
        let flat = collect_rehash_kv_pairs(&cb.pages);
        let (list_a, list_b) = match partition_pairs(&flat, level, sid, buddy) {
            Ok(r) => r,
            Err(e) => {
                return Err(e);
            },
        };
        proof {
            lemma_filter_route_unique(kvs_view(flat@), level, sid);
            lemma_filter_route_unique(kvs_view(flat@), level, buddy);
        }

        // Fresh overflow ids: the new chain's pages first, the old chain's
        // after them.
        let n0 = self.next_overflow_id;
        if list_b.len() as u64 > MAX_PAGE_ID - n0 {
            return Err(Error::IO(28));
        }
        let start_a = n0 + list_b.len() as u64;
        if list_a.len() as u64 > MAX_PAGE_ID - start_a {
            return Err(Error::IO(28));
        }
        let max_kv = self.main_pages.max_kv;
        let new_level = level + 1;
        let (pages_b, ids_b) = insert_kv_pairs_into_pages(&list_b, new_level, n0, max_kv);
        let (pages_a, ids_a) = insert_kv_pairs_into_pages(&list_a, new_level, start_a, max_kv);
        let ghost chb = pages_view(pages_b@);
        let ghost cha = pages_view(pages_a@);
        proof {
            let ks = self.main_pages.ksize as nat;
            let vs = self.main_pages.vsize as nat;
            assert forall|j: int| 0 <= j < ch1.len() implies pairs_sized(
                (#[trigger] ch1[j]).kvs,
                ks,
                vs,
            ) by {}
            assert(pairs_sized(kvs_view(flat@), ks, vs));
            lemma_filter_route_sized(kvs_view(flat@), level, sid, ks, vs);
            lemma_filter_route_sized(kvs_view(flat@), level, buddy, ks, vs);
            assert(pairs_sized(kvs_view(list_a@), ks, vs));
            assert(pairs_sized(kvs_view(list_b@), ks, vs));
        }

        // Write the new (buddy) chain first: overflow pages, then — once
        // they are durable — its primary page.
        let wrote = self.write_chain(buddy, &pages_b, &ids_b);
        proof {
            assert forall|oid: u64| oid < n0 implies self.overflow_pages.raw_at(oid)
                == pre.overflow_pages.raw_at(oid) by {
                assert(!ids_b@.contains(oid)) by {
                    if ids_b@.contains(oid) {
                        let x = choose|x: int| 0 <= x < ids_b@.len() && ids_b@[x] == oid;
                        assert(ids_b@[x] == n0 + x);
                    }
                }
            }
        }
        match wrote {
            Ok(()) => {},
            Err(e) => {
                return Err(e);
            },
        }
        // Then rebuild the old chain the same way.
        let ghost mid = *self;
        let wrote = self.write_chain(sid, &pages_a, &ids_a);
        proof {
            assert forall|oid: u64| oid < n0 implies self.overflow_pages.raw_at(oid)
                == pre.overflow_pages.raw_at(oid) by {
                assert(!ids_a@.contains(oid)) by {
                    if ids_a@.contains(oid) {
                        let x = choose|x: int| 0 <= x < ids_a@.len() && ids_a@[x] == oid;
                        assert(ids_a@[x] == start_a + x);
                    }
                }
                assert(self.overflow_pages.raw_at(oid) == mid.overflow_pages.raw_at(oid));
            }
        }
        match wrote {
            Ok(()) => {},
            Err(e) => {
                return Err(e);
            },
        }
        self.next_overflow_id = start_a + ids_a.len() as u64;
        self.root.advance_split_pointer();
        proof {
            let ks = self.main_pages.ksize as nat;
            let vs = self.main_pages.vsize as nat;
            let idsav = ids_a@;
            let idsbv = ids_b@;
            assert(wf_chain(self.main_pages, self.overflow_pages, sid, cha, idsav));
            assert(wf_chain(self.main_pages, self.overflow_pages, buddy, chb, idsbv)) by {
                assert forall|j: int| 0 <= j < idsbv.len() implies self.overflow_pages.page_at(
                    #[trigger] idsbv[j],
                ) == Some(chb[j + 1]) by {
                    assert(idsbv[j] == n0 + j);
                    assert(idsbv[j] < start_a);
                    assert(!idsav.contains(idsbv[j])) by {
                        if idsav.contains(idsbv[j]) {
                            let x = choose|x: int| 0 <= x < idsav.len() && idsav[x] == idsbv[j];
                            assert(idsav[x] == start_a + x);
                        }
                    }
                    assert(self.overflow_pages.raw_at(idsbv[j]) == mid.overflow_pages.raw_at(
                        idsbv[j],
                    ));
                    assert(mid.overflow_pages.page_at(idsbv[j]) == Some(chb[j + 1]));
                }
                assert(buddy != sid);
                assert(self.main_pages.raw_at(buddy) == mid.main_pages.raw_at(buddy));
                assert(mid.main_pages.page_at(buddy) == Some(chb[0]));
            }
            assert forall|k: Seq<u8>| spec_route(k, level) == sid implies #[trigger] chain_lookup(
                cha,
                k,
            ) == chain_lookup(ch1, k) by {
                lemma_chain_lookup_entries(cha, k);
                lemma_filter_route_lookup(kvs_view(flat@), level, sid, k);
            }
            assert forall|k: Seq<u8>| spec_route(k, level) == buddy implies #[trigger] chain_lookup(
                chb,
                k,
            ) == chain_lookup(ch1, k) by {
                lemma_chain_lookup_entries(chb, k);
                lemma_filter_route_lookup(kvs_view(flat@), level, buddy, k);
            }
            assert forall|k: Seq<u8>| #[trigger] chain_lookup(ch1, k) is Some implies spec_route(
                k,
                level,
            ) == sid || spec_route(k, level) == buddy by {
                assert(spec_lookup(kvs_view(flat@), k) is Some);
                crate::page::lemma_lookup_is_entry(kvs_view(flat@), k);
                let j = choose|j: int|
                    0 <= j < kvs_view(flat@).len() && kvs_view(flat@)[j] == (
                    k,
                    spec_lookup(kvs_view(flat@), k).unwrap(),
                    );
                assert(spec_route(kvs_view(flat@)[j].0, level) == sid || spec_route(
                    kvs_view(flat@)[j].0,
                    level,
                ) == buddy);
            }
            assert(split_carried(pre, *self)) by {
                assert(wf_chain(pre.main_pages, pre.overflow_pages, sid, ch1, ids1));
            }
        }
        Ok(())
    }

    /// Write one rebuilt chain: every overflow page, a flush to make them
    /// durable, then the primary page that points into them.
    #[verifier::loop_isolation(false)]
    fn write_chain(&mut self, head: u64, pages: &Vec<Page>, ids: &Vec<u64>) -> (r: Result<()>)
        requires
            old(self).inv(),
            head <= MAX_PAGE_ID,
            pages@.len() == ids@.len() + 1,
            forall|j: int| 0 <= j < ids@.len() ==> #[trigger] ids@[j] <= MAX_PAGE_ID,
            forall|j: int|
                0 <= j < ids@.len() ==> (#[trigger] pages_view(pages@)[j]).overflow_id == Some(
                    ids@[j],
                ),
            pages_view(pages@).last().overflow_id is None,
            forall|j: int, x: int|
                0 <= j < x < ids@.len() ==> ids@[j] != ids@[x],
            forall|j: int| 0 <= j < pages@.len() ==> (#[trigger] pages_view(pages@)[j]).wf(),
            forall|j: int|
                0 <= j < pages@.len() ==> pairs_sized(
                    (#[trigger] pages_view(pages@)[j]).kvs,
                    old(self).main_pages.ksize as nat,
                    old(self).main_pages.vsize as nat,
                ),
            forall|j: int|
                0 <= j < pages@.len() ==> (#[trigger] pages_view(pages@)[j]).kvs.len() <= old(
                    self,
                ).main_pages.max_kv,
        ensures
            final(self).inv(),
            final(self).main_pages.cfg() == old(self).main_pages.cfg(),
            final(self).overflow_pages.cfg() == old(self).overflow_pages.cfg(),
            final(self).root == old(self).root,
            final(self).n_items == old(self).n_items,
            final(self).next_overflow_id == old(self).next_overflow_id,
            forall|id: u64|
                id != head ==> final(self).main_pages.raw_at(id) == old(self).main_pages.raw_at(
                    id,
                ),
            forall|oid: u64|
                !ids@.contains(oid) ==> final(self).overflow_pages.raw_at(oid) == old(
                    self,
                ).overflow_pages.raw_at(oid),
            match r {
                Ok(()) => {
                    &&& wf_chain(
                        final(self).main_pages,
                        final(self).overflow_pages,
                        head,
                        pages_view(pages@),
                        ids@,
                    )
                    &&& forall|j: int|
                        0 <= j < ids@.len() ==> final(self).overflow_pages.page_at(
                            #[trigger] ids@[j],
                        ) == Some(pages_view(pages@)[j + 1])
                },
                Err(e) => e matches Error::IO(_),
            },
    {
        let ghost pre = *self;
        let n = ids.len();
        let mut j: usize = 0;
        while j < n
            invariant
                n == ids@.len(),
                j <= n,
                self.main_pages == pre.main_pages,
                self.root == pre.root,
                self.n_items == pre.n_items,
                self.next_overflow_id == pre.next_overflow_id,
                self.overflow_pages.cfg() == pre.overflow_pages.cfg(),
                forall|x: int|
                    0 <= x < j ==> self.overflow_pages.page_at(#[trigger] ids@[x]) == Some(
                        pages_view(pages@)[x + 1],
                    ),
                forall|oid: u64|
                    (forall|x: int| 0 <= x < j ==> #[trigger] ids@[x] != oid)
                        ==> self.overflow_pages.raw_at(oid) == pre.overflow_pages.raw_at(oid),
            decreases n - j,
        {
            proof {
                assert(pages@[j + 1]@ == pages_view(pages@)[j + 1]);
            }
            match self.overflow_pages.write_page(ids[j], &pages[j + 1]) {
                Ok(()) => {},
                Err(e) => {
                    return Err(e);
                },
            }
            j = j + 1;
        }
        match self.overflow_pages.flush() {
            Ok(()) => {},
            Err(e) => {
                return Err(e);
            },
        }
        proof {
            assert(pages@[0]@ == pages_view(pages@)[0]);
        }
        match self.main_pages.write_page(head, &pages[0]) {
            Ok(()) => {},
            Err(e) => {
                return Err(e);
            },
        }
        proof {
            assert(self.main_pages.page_at(head) == Some(pages_view(pages@)[0]));
            assert forall|oid: u64| !ids@.contains(oid) implies self.overflow_pages.raw_at(oid)
                == pre.overflow_pages.raw_at(oid) by {
                assert(forall|x: int| 0 <= x < ids@.len() ==> #[trigger] ids@[x] != oid);
            }
        }
        Ok(())
    }
}

} // verus!
