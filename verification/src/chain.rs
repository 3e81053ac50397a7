//! Bucket chains: a primary page and the overflow pages linked from it.
//!
//! The chain predicates tie a sequence of page images to what the two
//! devices hold; every operation's contract speaks of them. Chains are
//! deterministic — each page pins its successor — which is what lets an
//! operation promise results about *the* chain of a bucket.

use vstd::prelude::*;

use crate::device::{Device, MAX_PAGE_ID};
use crate::error::{Error, Result};
use crate::page::{pairs_sized, spec_lookup, Page, PageV};

verus! {

/// The page images of `v`.
pub open spec fn pages_view(v: Seq<Page>) -> Seq<PageV> {
    v.map_values(|p: Page| p@)
}

/// No overflow id occurs twice.
pub open spec fn ids_distinct(ids: Seq<u64>) -> bool {
    forall|i: int, j: int| 0 <= i < j < ids.len() ==> ids[i] != ids[j]
}

/// `ch` follows the chain from primary page `head` through the overflow ids
/// `ids`, page by page; the last page of `ch` may still link onward.
pub open spec fn is_chain_prefix(
    main: Device,
    ovf: Device,
    head: u64,
    ch: Seq<PageV>,
    ids: Seq<u64>,
) -> bool {
    &&& ch.len() == ids.len() + 1
    &&& main.page_at(head) == Some(ch[0])
    &&& forall|i: int| 0 <= i < ids.len() ==> ovf.page_at(#[trigger] ids[i]) == Some(ch[i + 1])
    &&& forall|i: int| 0 <= i < ids.len() ==> (#[trigger] ch[i]).overflow_id == Some(ids[i])
}

/// The whole chain of bucket `head`: a prefix whose last page links nowhere.
pub open spec fn is_chain(
    main: Device,
    ovf: Device,
    head: u64,
    ch: Seq<PageV>,
    ids: Seq<u64>,
) -> bool {
    &&& is_chain_prefix(main, ovf, head, ch, ids)
    &&& ch.last().overflow_id is None
}

/// A whole chain that visits no overflow page twice: the shape every healthy
/// bucket has.
pub open spec fn wf_chain(
    main: Device,
    ovf: Device,
    head: u64,
    ch: Seq<PageV>,
    ids: Seq<u64>,
) -> bool {
    &&& is_chain(main, ovf, head, ch, ids)
    &&& ids_distinct(ids)
}

/// No two pages of the chain both hold `k`: true of every chain the store
/// itself built, since an insert overwrites in place before it ever
/// appends.
pub open spec fn key_in_one_page(ch: Seq<PageV>, k: Seq<u8>) -> bool {
    forall|i: int, j: int|
        0 <= i < j < ch.len() ==> !(spec_lookup(#[trigger] ch[i].kvs, k) is Some && spec_lookup(
            #[trigger] ch[j].kvs,
            k,
        ) is Some)
}

/// First page wins: the value the chain stores under `k`.
pub open spec fn chain_lookup(ch: Seq<PageV>, k: Seq<u8>) -> Option<Seq<u8>>
    decreases ch.len(),
{
    if ch.len() == 0 {
        None
    } else {
        match spec_lookup(ch[0].kvs, k) {
            Some(v) => Some(v),
            None => chain_lookup(ch.drop_first(), k),
        }
    }
}

/// Every pair the chain holds, in page order.
pub open spec fn chain_entries(ch: Seq<PageV>) -> Seq<(Seq<u8>, Seq<u8>)>
    decreases ch.len(),
{
    if ch.len() == 0 {
        Seq::empty()
    } else {
        ch[0].kvs + chain_entries(ch.drop_first())
    }
}

/// Chain scanning is scanning the chain's pairs laid out page after page.
pub proof fn lemma_chain_lookup_entries(ch: Seq<PageV>, k: Seq<u8>)
    ensures
        chain_lookup(ch, k) == spec_lookup(chain_entries(ch), k),
    decreases ch.len(),
{
    if ch.len() == 0 {
    } else {
        crate::page::lemma_lookup_concat(ch[0].kvs, chain_entries(ch.drop_first()), k);
        lemma_chain_lookup_entries(ch.drop_first(), k);
    }
}

/// Appending a page appends its pairs.
pub proof fn lemma_chain_entries_push(ch: Seq<PageV>, p: PageV)
    ensures
        chain_entries(ch.push(p)) == chain_entries(ch) + p.kvs,
    decreases ch.len(),
{
    if ch.len() == 0 {
        assert(ch.push(p)[0] == p);
        assert(ch.push(p).drop_first() =~= Seq::<PageV>::empty());
        assert(chain_entries(ch.push(p).drop_first()) =~= Seq::<(Seq<u8>, Seq<u8>)>::empty());
        assert(chain_entries(ch.push(p)) =~= p.kvs);
        assert(chain_entries(ch) + p.kvs =~= p.kvs);
    } else {
        assert(ch.push(p)[0] == ch[0]);
        assert(ch.push(p).drop_first() =~= ch.drop_first().push(p));
        lemma_chain_entries_push(ch.drop_first(), p);
        assert(ch[0].kvs + (chain_entries(ch.drop_first()) + p.kvs) =~= (ch[0].kvs
            + chain_entries(ch.drop_first())) + p.kvs);
    }
}

/// A hit in page `i`, with no hit earlier, is what the chain scan returns.
pub proof fn lemma_chain_lookup_at(ch: Seq<PageV>, k: Seq<u8>, i: int, v: Seq<u8>)
    requires
        0 <= i < ch.len(),
        spec_lookup(ch[i].kvs, k) == Some(v),
        forall|j: int| 0 <= j < i ==> spec_lookup(ch[j].kvs, k) is None,
    ensures
        chain_lookup(ch, k) == Some(v),
    decreases i,
{
    if i == 0 {
    } else {
        lemma_chain_lookup_at(ch.drop_first(), k, i - 1, v);
    }
}

/// A key no page holds is not found.
pub proof fn lemma_chain_lookup_none(ch: Seq<PageV>, k: Seq<u8>)
    requires
        forall|j: int| 0 <= j < ch.len() ==> spec_lookup(ch[j].kvs, k) is None,
    ensures
        chain_lookup(ch, k) is None,
    decreases ch.len(),
{
    if ch.len() > 0 {
        lemma_chain_lookup_none(ch.drop_first(), k);
    }
}

/// Replacing page `i` with one whose hit for `k` is `Some(v)` makes the
/// chain return `v` for `k`, provided no earlier page hits `k`.
pub proof fn lemma_chain_lookup_update_hit(ch: Seq<PageV>, i: int, p2: PageV, k: Seq<u8>, v: Seq<u8>)
    requires
        0 <= i < ch.len(),
        spec_lookup(p2.kvs, k) == Some(v),
        forall|j: int| 0 <= j < i ==> spec_lookup(#[trigger] ch[j].kvs, k) is None,
    ensures
        chain_lookup(ch.update(i, p2), k) == Some(v),
{
    assert forall|j: int| 0 <= j < i implies spec_lookup(
        #[trigger] ch.update(i, p2)[j].kvs,
        k,
    ) is None by {
        assert(ch.update(i, p2)[j] == ch[j]);
    }
    lemma_chain_lookup_at(ch.update(i, p2), k, i, v);
}

/// Replacing page `i` with one that treats `k` the same leaves the chain's
/// answer for `k` unchanged.
pub proof fn lemma_chain_lookup_update_same(ch: Seq<PageV>, i: int, p2: PageV, k: Seq<u8>)
    requires
        0 <= i < ch.len(),
        spec_lookup(p2.kvs, k) == spec_lookup(ch[i].kvs, k),
    ensures
        chain_lookup(ch.update(i, p2), k) == chain_lookup(ch, k),
    decreases ch.len(),
{
    if i == 0 {
        if spec_lookup(ch[0].kvs, k) is Some {
        } else {
            assert(ch.update(0, p2).drop_first() =~= ch.drop_first());
        }
    } else {
        assert(ch.update(i, p2)[0] == ch[0]);
        assert(ch.update(i, p2).drop_first() =~= ch.drop_first().update(i - 1, p2));
        lemma_chain_lookup_update_same(ch.drop_first(), i - 1, p2, k);
    }
}

/// Appending a page answers `k` only where the chain so far does not.
pub proof fn lemma_chain_lookup_push(ch: Seq<PageV>, p: PageV, k: Seq<u8>)
    ensures
        chain_lookup(ch.push(p), k) == (match chain_lookup(ch, k) {
            Some(v) => Some(v),
            None => spec_lookup(p.kvs, k),
        }),
    decreases ch.len(),
{
    if ch.len() == 0 {
        assert(ch.push(p)[0] == p);
        assert(ch.push(p).drop_first() =~= Seq::<PageV>::empty());
        assert(chain_lookup(ch.push(p).drop_first(), k) is None);
    } else {
        assert(ch.push(p)[0] == ch[0]);
        assert(ch.push(p).drop_first() =~= ch.drop_first().push(p));
        lemma_chain_lookup_push(ch.drop_first(), p, k);
    }
}

/// A chain prefix of a whole chain is an initial segment of it: each page
/// pins its successor.
pub proof fn lemma_prefix_of_chain(
    main: Device,
    ovf: Device,
    head: u64,
    ch1: Seq<PageV>,
    ids1: Seq<u64>,
    ch2: Seq<PageV>,
    ids2: Seq<u64>,
)
    requires
        is_chain_prefix(main, ovf, head, ch1, ids1),
        is_chain(main, ovf, head, ch2, ids2),
    ensures
        ch1.len() <= ch2.len(),
        ch1 == ch2.take(ch1.len() as int),
        ids1 == ids2.take(ids1.len() as int),
{
    assert forall|j: int| 0 <= j < ch1.len() implies #[trigger] ch1[j] == ch2[j] && j
        < ch2.len() by {
        if j == 0 {
            assert(ch1[0] == ch2[0]);
        } else {
            lemma_prefix_step(main, ovf, head, ch1, ids1, ch2, ids2, j - 1);
        }
    }
    assert forall|j: int| 0 <= j < ids1.len() implies #[trigger] ids1[j] == ids2[j] by {
        lemma_prefix_step(main, ovf, head, ch1, ids1, ch2, ids2, j);
    }
    assert(ch1.len() <= ch2.len()) by {
        assert(ch1[ch1.len() - 1] == ch2[ch1.len() - 1] && ch1.len() - 1 < ch2.len());
    }
    assert(ch1 =~= ch2.take(ch1.len() as int));
    assert(ids1 =~= ids2.take(ids1.len() as int));
}

/// Induction step of `lemma_prefix_of_chain`: the first `i + 1` links agree.
proof fn lemma_prefix_step(
    main: Device,
    ovf: Device,
    head: u64,
    ch1: Seq<PageV>,
    ids1: Seq<u64>,
    ch2: Seq<PageV>,
    ids2: Seq<u64>,
    i: int,
)
    requires
        is_chain_prefix(main, ovf, head, ch1, ids1),
        is_chain(main, ovf, head, ch2, ids2),
        0 <= i < ids1.len(),
    ensures
        i < ids2.len(),
        ids1[i] == ids2[i],
        ch1[i + 1] == ch2[i + 1],
    decreases i,
{
    if i == 0 {
        assert(ch1[0] == ch2[0]);
        assert(ch1[0].overflow_id == Some(ids1[0]));
        if ids2.len() == 0 {
            assert(ch2.last() == ch2[0]);
            assert(false);
        }
        assert(ch2[0].overflow_id == Some(ids2[0]));
    } else {
        lemma_prefix_step(main, ovf, head, ch1, ids1, ch2, ids2, i - 1);
        assert(ch1[i] == ch2[i]);
        assert(ch1[i].overflow_id == Some(ids1[i]));
        if i >= ids2.len() {
            assert(ch2.last() == ch2[i]);
            assert(false);
        }
        assert(ch2[i].overflow_id == Some(ids2[i]));
    }
}

/// A bucket has at most one whole chain.
pub proof fn lemma_chain_unique(
    main: Device,
    ovf: Device,
    head: u64,
    ch1: Seq<PageV>,
    ids1: Seq<u64>,
    ch2: Seq<PageV>,
    ids2: Seq<u64>,
)
    requires
        is_chain(main, ovf, head, ch1, ids1),
        is_chain(main, ovf, head, ch2, ids2),
    ensures
        ch1 == ch2,
        ids1 == ids2,
{
    lemma_prefix_of_chain(main, ovf, head, ch1, ids1, ch2, ids2);
    lemma_prefix_of_chain(main, ovf, head, ch2, ids2, ch1, ids1);
    assert(ch1 =~= ch2.take(ch1.len() as int));
    assert(ch1 =~= ch2);
    assert(ids1 =~= ids2);
}

/// One bucket's chain, loaded into memory: the pages in chain order and the
/// overflow ids of all pages after the primary one.
pub struct ChainBuf {
    pub pages: Vec<Page>,
    pub ids: Vec<u64>,
}

impl ChainBuf {
    pub open spec fn chain(self) -> Seq<PageV> {
        pages_view(self.pages@)
    }

    /// Everything the store relies on about a freshly read chain.
    pub open spec fn wf_for(self, main: Device, ovf: Device, head: u64) -> bool {
        &&& wf_chain(main, ovf, head, self.chain(), self.ids@)
        &&& forall|i: int| 0 <= i < self.chain().len() ==> (#[trigger] self.chain()[i]).wf()
        &&& forall|i: int|
            0 <= i < self.chain().len() ==> pairs_sized(
                (#[trigger] self.chain()[i]).kvs,
                main.ksize as nat,
                main.vsize as nat,
            )
        &&& forall|i: int|
            0 <= i < self.chain().len() ==> (#[trigger] self.chain()[i]).kvs.len() <= main.max_kv
        &&& forall|i: int| 0 <= i < self.ids@.len() ==> #[trigger] self.ids@[i] <= MAX_PAGE_ID
    }
}

/// Distinct page ids below the device bound cannot outnumber the id space:
/// what bounds the length of every healthy chain, and so every chain walk.
pub proof fn lemma_distinct_bounded_len(ids: Seq<u64>)
    requires
        ids_distinct(ids),
        forall|i: int| 0 <= i < ids.len() ==> #[trigger] ids[i] <= MAX_PAGE_ID,
    ensures
        ids.len() <= MAX_PAGE_ID + 1,
{
    broadcast use vstd::seq_lib::seq_to_set_is_finite;

    let s = ids.map_values(|x: u64| x as int);
    assert(s.no_duplicates()) by {
        assert forall|i: int, j: int|
            0 <= i < s.len() && 0 <= j < s.len() && i != j implies s[i] != s[j] by {
            if i < j {
                assert(ids[i] != ids[j]);
            } else {
                assert(ids[j] != ids[i]);
            }
        }
    }
    s.unique_seq_to_set();
    let range = vstd::set_lib::set_int_range(0, MAX_PAGE_ID + 1);
    assert forall|x: int| s.to_set().contains(x) implies range.contains(x) by {
        let i = choose|i: int| 0 <= i < s.len() && s[i] == x;
        assert(ids[i] <= MAX_PAGE_ID);
    }
    vstd::set_lib::lemma_int_range(0, MAX_PAGE_ID + 1);
    vstd::set_lib::lemma_len_subset(s.to_set(), range);
}

/// Whether `ids` already holds `id`.
pub fn ids_contain_pub(ids: &Vec<u64>, id: u64) -> (r: bool)
    ensures
        r == ids@.contains(id),
{
    ids_contain(ids, id)
}

/// Whether `ids` already holds `id`.
fn ids_contain(ids: &Vec<u64>, id: u64) -> (r: bool)
    ensures
        r == ids@.contains(id),
{
    let n = ids.len();
    let mut i: usize = 0;
    while i < n
        invariant
            n == ids@.len(),
            i <= n,
            forall|j: int| 0 <= j < i ==> ids@[j] != id,
        decreases n - i,
    {
        if ids[i] == id {
            assert(ids@.contains(id));
            return true;
        }
        i = i + 1;
    }
    assert(!ids@.contains(id));
    false
}

/// Read the whole chain of bucket `head` into memory.
///
/// `Codec` reports a broken chain: a missing or undecodable page, an
/// overflow id beyond the device bound, or a link cycle. When the bucket has
/// a healthy chain on the devices, this does not happen: the read fails only
/// with a device `IO` error, if at all.
#[verifier::loop_isolation(false)]
pub fn read_chain(main: &Device, ovf: &Device, head: u64) -> (r: Result<ChainBuf>)
    requires
        main.cfg_wf(),
        ovf.cfg_wf(),
        main.cfg() == ovf.cfg(),
        head <= MAX_PAGE_ID,
    ensures
        match r {
            Ok(cb) => cb.wf_for(*main, *ovf, head),
            Err(e) => {
                &&& (e matches Error::IO(_) || e == Error::Codec)
                &&& forall|ch: Seq<PageV>, ids: Seq<u64>|
                    wf_chain(*main, *ovf, head, ch, ids) && (forall|i: int|
                        0 <= i < ids.len() ==> #[trigger] ids[i] <= MAX_PAGE_ID) ==> e matches Error::IO(_)
            },
        },
{
    let first = match main.read_page(head) {
        Ok(Some(p)) => p,
        Ok(None) => {
            proof {
                assert forall|ch: Seq<PageV>, ids: Seq<u64>|
                    wf_chain(*main, *ovf, head, ch, ids) implies false by {}
            }
            return Err(Error::Codec);
        },
        Err(e) => {
            return Err(e);
        },
    };
    let mut pages: Vec<Page> = Vec::new();
    let mut ids: Vec<u64> = Vec::new();
    let mut next: Option<u64> = first.overflow_id;
    pages.push(first);
    loop
        invariant
            pages@.len() == ids@.len() + 1,
            is_chain_prefix(*main, *ovf, head, pages_view(pages@), ids@),
            ids_distinct(ids@),
            next == pages_view(pages@).last().overflow_id,
            forall|i: int|
                0 <= i < pages_view(pages@).len() ==> (#[trigger] pages_view(pages@)[i]).wf(),
            forall|i: int|
                0 <= i < pages_view(pages@).len() ==> pairs_sized(
                    (#[trigger] pages_view(pages@)[i]).kvs,
                    main.ksize as nat,
                    main.vsize as nat,
                ),
            forall|i: int|
                0 <= i < pages_view(pages@).len() ==> (#[trigger] pages_view(pages@)[i]).kvs.len()
                    <= main.max_kv,
            forall|i: int| 0 <= i < ids@.len() ==> #[trigger] ids@[i] <= MAX_PAGE_ID,
        decreases MAX_PAGE_ID + 1 - ids@.len(),
    {
        proof {
            lemma_distinct_bounded_len(ids@);
        }
        let id = match next {
            None => {
                break ;
            },
            Some(id) => id,
        };
        let ghost old_ch = pages_view(pages@);
        let ghost old_ids = ids@;
        if id > MAX_PAGE_ID || ids_contain(&ids, id) || id == u64::MAX {
            proof {
                broken_chain_absurd(*main, *ovf, head, old_ch, old_ids);
            }
            return Err(Error::Codec);
        }
        let page = match ovf.read_page(id) {
            Ok(Some(p)) => p,
            Ok(None) => {
                proof {
                    broken_chain_absurd(*main, *ovf, head, old_ch, old_ids);
                }
                return Err(Error::Codec);
            },
            Err(e) => {
                return Err(e);
            },
        };
        next = page.overflow_id;
        ids.push(id);
        pages.push(page);
        proof {
            assert(ids_distinct(ids@)) by {
                assert(forall|j: int| 0 <= j < old_ids.len() ==> ids@[j] == old_ids[j]);
            }
            lemma_distinct_bounded_len(ids@);
            assert(pages_view(pages@) =~= old_ch.push(pages@.last()@));
            assert forall|i: int| 0 <= i < ids@.len() implies ovf.page_at(#[trigger] ids@[i])
                == Some(pages_view(pages@)[i + 1]) by {
                if i < old_ids.len() {
                    assert(pages_view(pages@)[i + 1] == old_ch[i + 1]);
                }
            }
        }
    }
    proof {
        assert(pages_view(pages@).last().overflow_id is None);
    }
    Ok(ChainBuf { pages, ids })
}

/// At a `Codec` exit of `read_chain` the loaded prefix contradicts every
/// healthy chain: the next link is duplicated, out of bounds, or points at
/// no valid page.
proof fn broken_chain_absurd(
    main: Device,
    ovf: Device,
    head: u64,
    ch1: Seq<PageV>,
    ids1: Seq<u64>,
)
    requires
        is_chain_prefix(main, ovf, head, ch1, ids1),
        ch1.last().overflow_id is Some,
    ensures
        forall|ch: Seq<PageV>, ids: Seq<u64>|
            wf_chain(main, ovf, head, ch, ids) && (forall|i: int|
                0 <= i < ids.len() ==> #[trigger] ids[i] <= MAX_PAGE_ID) ==> {
                let id = ch1.last().overflow_id.unwrap();
                &&& ids.len() > ids1.len()
                &&& ids[ids1.len() as int] == id
                &&& ovf.page_at(id) is Some
                &&& !ids1.contains(id)
                &&& id <= MAX_PAGE_ID
            },
{
    let id = ch1.last().overflow_id.unwrap();
    assert forall|ch: Seq<PageV>, ids: Seq<u64>|
        wf_chain(main, ovf, head, ch, ids) && (forall|i: int|
            0 <= i < ids.len() ==> #[trigger] ids[i] <= MAX_PAGE_ID) implies {
        &&& ids.len() > ids1.len()
        &&& ids[ids1.len() as int] == id
        &&& ovf.page_at(id) is Some
        &&& !ids1.contains(id)
        &&& id <= MAX_PAGE_ID
    } by {
        lemma_prefix_of_chain(main, ovf, head, ch1, ids1, ch, ids);
        let n = ids1.len() as int;
        if ids.len() <= ids1.len() {
            assert(ch1.last() == ch[ch.len() - 1]);
            assert(false);
        }
        assert(ch1.last() == ch[n]);
        assert(ch[n].overflow_id == Some(ids[n]));
        assert(ovf.page_at(ids[n]) is Some);
        if ids1.contains(id) {
            let j = choose|j: int| 0 <= j < ids1.len() && ids1[j] == id;
            assert(ids[j] == ids1[j]);
            assert(false);
        }
    }
}

/// The first page of the chain with room for one more pair, if any.
pub fn find_spare_page(pages: &Vec<Page>, max_kv: u16) -> (r: Option<usize>)
    ensures
        match r {
            Some(j) => j < pages@.len() && pages_view(pages@)[j as int].kvs.len() < max_kv,
            None => true,
        },
{
    let n = pages.len();
    let mut j: usize = 0;
    while j < n
        invariant
            n == pages@.len(),
            j <= n,
        decreases n - j,
    {
        if pages[j].kv_pairs.len() < max_kv as usize {
            assert(pages_view(pages@)[j as int] == pages@[j as int]@);
            return Some(j);
        }
        j = j + 1;
    }
    None
}

/// Look `key` up across the pages of a loaded chain.
pub fn chain_get(pages: &Vec<Page>, key: &[u8]) -> (r: Option<Vec<u8>>)
    ensures
        match r {
            Some(v) => chain_lookup(pages_view(pages@), key@) == Some(v@),
            None => chain_lookup(pages_view(pages@), key@) is None,
        },
{
    let n = pages.len();
    let mut i: usize = 0;
    while i < n
        invariant
            n == pages@.len(),
            i <= n,
            forall|j: int|
                0 <= j < i ==> spec_lookup((#[trigger] pages_view(pages@)[j]).kvs, key@) is None,
        decreases n - i,
    {
        match pages[i].get(key) {
            Some(v) => {
                proof {
                    lemma_chain_lookup_at(pages_view(pages@), key@, i as int, v@);
                }
                return Some(v);
            },
            None => {
                assert(pages_view(pages@)[i as int] == pages@[i as int]@);
            },
        }
        i = i + 1;
    }
    proof {
        lemma_chain_lookup_none(pages_view(pages@), key@);
    }
    None
}

/// The first page of the chain that holds `key`, if any.
pub fn find_key_page(pages: &Vec<Page>, key: &[u8]) -> (r: Option<usize>)
    ensures
        match r {
            Some(i) => {
                &&& i < pages@.len()
                &&& spec_lookup(pages_view(pages@)[i as int].kvs, key@) is Some
                &&& forall|j: int|
                    0 <= j < i ==> spec_lookup(
                        (#[trigger] pages_view(pages@)[j]).kvs,
                        key@,
                    ) is None
            },
            None => forall|j: int|
                0 <= j < pages@.len() ==> spec_lookup(
                    (#[trigger] pages_view(pages@)[j]).kvs,
                    key@,
                ) is None,
        },
{
    let n = pages.len();
    let mut i: usize = 0;
    while i < n
        invariant
            n == pages@.len(),
            i <= n,
            forall|j: int|
                0 <= j < i ==> spec_lookup((#[trigger] pages_view(pages@)[j]).kvs, key@) is None,
        decreases n - i,
    {
        if pages[i].contains(key) {
            assert(pages_view(pages@)[i as int] == pages@[i as int]@);
            return Some(i);
        }
        assert(pages_view(pages@)[i as int] == pages@[i as int]@);
        i = i + 1;
    }
    None
}

} // verus!
