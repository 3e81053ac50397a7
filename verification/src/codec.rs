//! The page payload codec: a fixed 15-byte page header (pair count,
//! overflow link, local level) followed by length-prefixed key/value pairs.
//! Decoding validates everything the rest of the store relies on — pair
//! sizes, the pair-count bound and key uniqueness — so any byte string that
//! decodes at all yields a well-formed page.

use vstd::prelude::*;

use crate::bytes::{
    bytes_eq, push_u32_le, push_u64_le, read_u32_le, read_u64_le, spec_u32_from_le, spec_u32_le,
    spec_u64_from_le, spec_u64_le, lemma_u32_le_roundtrip, lemma_u64_le_roundtrip,
};
use crate::page::{kvs_view, pairs_sized, unique_keys, Page, PageV};

verus! {

/// Fixed bytes at the front of every encoded page: pair count (4), overflow
/// flag and id (9), local-level flag and value (2).
pub const PAGE_META_LEN: usize = 15;

/// Per-pair overhead: the two 4-byte length fields.
pub const PAIR_META_LEN: usize = 8;

/// Largest encoded page the frame format can carry: the page size minus the
/// frame header.
pub const MAX_PAYLOAD_LEN: usize = 4064;

/// One encoded pair: key length, key, value length, value.
pub open spec fn spec_pair_bytes(p: (Seq<u8>, Seq<u8>)) -> Seq<u8> {
    spec_u32_le(p.0.len() as u32) + p.0 + spec_u32_le(p.1.len() as u32) + p.1
}

/// The pairs encoded back to back, in storage order.
pub open spec fn spec_encode_pairs(kvs: Seq<(Seq<u8>, Seq<u8>)>) -> Seq<u8>
    decreases kvs.len(),
{
    if kvs.len() == 0 {
        Seq::empty()
    } else {
        spec_pair_bytes(kvs[0]) + spec_encode_pairs(kvs.drop_first())
    }
}

/// The overflow link as nine bytes: presence flag, then the id.
pub open spec fn spec_ovf_bytes(o: Option<u64>) -> Seq<u8> {
    match o {
        Some(id) => seq![1u8] + spec_u64_le(id),
        None => seq![0u8] + spec_u64_le(0),
    }
}

/// The local-level tag as two bytes: presence flag, then the level.
pub open spec fn spec_lvl_bytes(o: Option<u8>) -> Seq<u8> {
    match o {
        Some(l) => seq![1u8, l],
        None => seq![0u8, 0u8],
    }
}

/// The full encoded page.
#[verifier::opaque]
pub open spec fn spec_encode_page(p: PageV) -> Seq<u8> {
    spec_u32_le(p.kvs.len() as u32) + spec_ovf_bytes(p.overflow_id) + spec_lvl_bytes(p.locallevel)
        + spec_encode_pairs(p.kvs)
}

/// Parse `n` pairs of the configured sizes from `b`, which must be consumed
/// exactly.
pub open spec fn spec_decode_pairs(b: Seq<u8>, n: nat, ksize: nat, vsize: nat) -> Option<
    Seq<(Seq<u8>, Seq<u8>)>,
>
    decreases n,
{
    if n == 0 {
        if b.len() == 0 {
            Some(Seq::empty())
        } else {
            None
        }
    } else if b.len() < 4 {
        None
    } else {
        let kl = spec_u32_from_le(b[0], b[1], b[2], b[3]) as nat;
        if kl != ksize || b.len() < 4 + kl + 4 {
            None
        } else {
            let key = b.subrange(4, 4 + kl as int);
            let rest1 = b.skip(4 + kl as int);
            let vl = spec_u32_from_le(rest1[0], rest1[1], rest1[2], rest1[3]) as nat;
            if vl != vsize || rest1.len() < 4 + vl {
                None
            } else {
                let value = rest1.subrange(4, 4 + vl as int);
                let rest2 = rest1.skip(4 + vl as int);
                match spec_decode_pairs(rest2, (n - 1) as nat, ksize, vsize) {
                    Some(kvs) => Some(seq![(key, value)] + kvs),
                    None => None,
                }
            }
        }
    }
}

/// Parse a whole page: header fields, then exactly `n` pairs, then the
/// validity checks the store relies on.
#[verifier::opaque]
pub open spec fn spec_decode_page(b: Seq<u8>, ksize: nat, vsize: nat, max_kv: u16) -> Option<PageV> {
    if b.len() < PAGE_META_LEN {
        None
    } else {
        let n = spec_u32_from_le(b[0], b[1], b[2], b[3]);
        let ovf_flag = b[4];
        let ovf_id = spec_u64_from_le(b.subrange(5, 13));
        let lvl_flag = b[13];
        let lvl = b[14];
        if n > max_kv as u32 || ovf_flag > 1 || lvl_flag > 1 {
            None
        } else {
            match spec_decode_pairs(b.skip(PAGE_META_LEN as int), n as nat, ksize, vsize) {
                None => None,
                Some(kvs) => {
                    if unique_keys(kvs) {
                        Some(
                            PageV {
                                kvs,
                                overflow_id: if ovf_flag == 1 {
                                    Some(ovf_id)
                                } else {
                                    None
                                },
                                locallevel: if lvl_flag == 1 {
                                    Some(lvl)
                                } else {
                                    None
                                },
                            },
                        )
                    } else {
                        None
                    }
                },
            }
        }
    }
}

/// With fixed pair sizes the encoding length is affine in the pair count.
pub proof fn lemma_encode_pairs_len(kvs: Seq<(Seq<u8>, Seq<u8>)>, ksize: nat, vsize: nat)
    requires
        pairs_sized(kvs, ksize, vsize),
    ensures
        spec_encode_pairs(kvs).len() == kvs.len() * (PAIR_META_LEN + ksize + vsize),
    decreases kvs.len(),
{
    if kvs.len() == 0 {
    } else {
        assert(pairs_sized(kvs.drop_first(), ksize, vsize)) by {
            assert(forall|i: int|
                0 <= i < kvs.drop_first().len() ==> #[trigger] kvs.drop_first()[i] == kvs[i + 1]);
        }
        lemma_encode_pairs_len(kvs.drop_first(), ksize, vsize);
        assert(kvs[0].0.len() == ksize && kvs[0].1.len() == vsize);
        assert(spec_pair_bytes(kvs[0]).len() == PAIR_META_LEN + ksize + vsize);
        assert(kvs.len() * (PAIR_META_LEN + ksize + vsize) == (PAIR_META_LEN + ksize + vsize)
            + kvs.drop_first().len() * (PAIR_META_LEN + ksize + vsize)) by (nonlinear_arith)
            requires
                kvs.len() == kvs.drop_first().len() + 1,
        ;
    }
}

/// Decoding undoes encoding, pair list by pair list.
#[verifier::rlimit(100)]
#[verifier::spinoff_prover]
proof fn lemma_decode_encode_pairs(kvs: Seq<(Seq<u8>, Seq<u8>)>, ksize: nat, vsize: nat)
    requires
        pairs_sized(kvs, ksize, vsize),
        ksize <= u32::MAX,
        vsize <= u32::MAX,
    ensures
        spec_decode_pairs(spec_encode_pairs(kvs), kvs.len(), ksize, vsize) == Some(kvs),
    decreases kvs.len(),
{
    let b = spec_encode_pairs(kvs);
    if kvs.len() == 0 {
        assert(b.len() == 0);
    } else {
        let p = kvs[0];
        let tail = kvs.drop_first();
        assert(pairs_sized(tail, ksize, vsize)) by {
            assert(forall|i: int| 0 <= i < tail.len() ==> #[trigger] tail[i] == kvs[i + 1]);
        }
        lemma_decode_encode_pairs(tail, ksize, vsize);
        let pb = spec_pair_bytes(p);
        let tb = spec_encode_pairs(tail);
        assert(b == pb + tb);
        let kl0 = p.0.len() as u32;
        let vl0 = p.1.len() as u32;
        lemma_u32_le_roundtrip(kl0);
        lemma_u32_le_roundtrip(vl0);
        assert(b[0] == spec_u32_le(kl0)[0] && b[1] == spec_u32_le(kl0)[1] && b[2] == spec_u32_le(
            kl0,
        )[2] && b[3] == spec_u32_le(kl0)[3]);
        let kl = spec_u32_from_le(b[0], b[1], b[2], b[3]) as nat;
        assert(kl == ksize);
        assert(b.len() == pb.len() + tb.len());
        assert(pb.len() == 8 + ksize + vsize);
        assert(b.subrange(4, 4 + kl as int) =~= p.0);
        let rest1 = b.skip(4 + kl as int);
        assert(rest1 =~= spec_u32_le(vl0) + p.1 + tb);
        assert(rest1[0] == spec_u32_le(vl0)[0] && rest1[1] == spec_u32_le(vl0)[1] && rest1[2]
            == spec_u32_le(vl0)[2] && rest1[3] == spec_u32_le(vl0)[3]);
        let vl = spec_u32_from_le(rest1[0], rest1[1], rest1[2], rest1[3]) as nat;
        assert(vl == vsize);
        assert(rest1.subrange(4, 4 + vl as int) =~= p.1);
        assert(rest1.skip(4 + vl as int) =~= tb);
        assert(seq![(p.0, p.1)] + tail =~= kvs);
        assert((p.0, p.1) == p);
    }
}

/// Decoding undoes encoding for every page the store will ever write.
pub proof fn lemma_decode_encode_page(p: PageV, ksize: nat, vsize: nat, max_kv: u16)
    requires
        p.wf(),
        pairs_sized(p.kvs, ksize, vsize),
        p.kvs.len() <= max_kv,
        ksize <= u32::MAX,
        vsize <= u32::MAX,
    ensures
        spec_decode_page(spec_encode_page(p), ksize, vsize, max_kv) == Some(p),
{
    reveal(spec_encode_page);
    reveal(spec_decode_page);
    let b = spec_encode_page(p);
    let n0 = p.kvs.len() as u32;
    lemma_u32_le_roundtrip(n0);
    lemma_u64_le_roundtrip(
        match p.overflow_id {
            Some(id) => id,
            None => 0,
        },
    );
    assert(b.len() >= PAGE_META_LEN);
    assert(b[0] == spec_u32_le(n0)[0] && b[1] == spec_u32_le(n0)[1] && b[2] == spec_u32_le(n0)[2]
        && b[3] == spec_u32_le(n0)[3]);
    let ovf = spec_ovf_bytes(p.overflow_id);
    let lvl = spec_lvl_bytes(p.locallevel);
    assert(b[4] == ovf[0]);
    assert(b.subrange(5, 13) =~= match p.overflow_id {
        Some(id) => spec_u64_le(id),
        None => spec_u64_le(0),
    });
    assert(b[13] == lvl[0] && b[14] == lvl[1]);
    assert(b.skip(PAGE_META_LEN as int) =~= spec_encode_pairs(p.kvs));
    lemma_decode_encode_pairs(p.kvs, ksize, vsize);
}

/// The largest number of fixed-size pairs whose encoded page still fits the
/// frame's payload budget; computed once from the configured key and value
/// sizes, so that a capacity violation is impossible at run time.
pub fn calc_max_kv_per_page(ksize: usize, vsize: usize) -> (r: u16)
    requires
        PAGE_META_LEN + PAIR_META_LEN + ksize + vsize <= MAX_PAYLOAD_LEN,
    ensures
        1 <= r,
        PAGE_META_LEN + (r as nat) * ((PAIR_META_LEN + ksize + vsize) as nat) <= MAX_PAYLOAD_LEN,
        PAGE_META_LEN + (r as nat + 1) * ((PAIR_META_LEN + ksize + vsize) as nat)
            > MAX_PAYLOAD_LEN,
{
    let entry = PAIR_META_LEN + ksize + vsize;
    let budget = MAX_PAYLOAD_LEN - PAGE_META_LEN;
    let n = budget / entry;
    proof {
        vstd::arithmetic::div_mod::lemma_fundamental_div_mod(budget as int, entry as int);
        vstd::arithmetic::div_mod::lemma_mod_bound(budget as int, entry as int);
        assert((budget / entry) * entry <= budget && (budget / entry + 1) * entry > budget
            && budget / entry <= budget) by (nonlinear_arith)
            requires
                entry >= 1 && budget >= entry && budget == entry * (budget / entry) + budget
                    % entry && 0 <= budget % entry < entry,
        ;
    }
    n as u16
}

/// A page within the configured pair-count bound encodes within the payload
/// budget: what makes in-place page rewrites always safe to frame.
pub proof fn lemma_page_fits(p: PageV, ksize: nat, vsize: nat, max_kv: u16)
    requires
        pairs_sized(p.kvs, ksize, vsize),
        p.kvs.len() <= max_kv,
        PAGE_META_LEN + (max_kv as nat) * (PAIR_META_LEN + ksize + vsize) <= MAX_PAYLOAD_LEN,
    ensures
        spec_encode_page(p).len() <= MAX_PAYLOAD_LEN,
{
    reveal(spec_encode_page);
    lemma_encode_pairs_len(p.kvs, ksize, vsize);
    assert(p.kvs.len() * (PAIR_META_LEN + ksize + vsize) <= (max_kv as nat) * (PAIR_META_LEN
        + ksize + vsize)) by (nonlinear_arith)
        requires
            p.kvs.len() <= max_kv as nat,
    ;
}

/// Append `data` to `out`.
pub fn push_bytes(out: &mut Vec<u8>, data: &[u8])
    ensures
        final(out)@ == old(out)@ + data@,
{
    let n = data.len();
    let mut i: usize = 0;
    while i < n
        invariant
            n == data@.len(),
            i <= n,
            out@ == old(out)@ + data@.take(i as int),
        decreases n - i,
    {
        out.push(data[i]);
        assert(out@ =~= old(out)@ + data@.take(i + 1));
        i = i + 1;
    }
    assert(out@ =~= old(out)@ + data@);
}

/// All lengths small enough for their 4-byte fields.
pub open spec fn pairs_fit(kvs: Seq<(Seq<u8>, Seq<u8>)>) -> bool {
    forall|i: int|
        0 <= i < kvs.len() ==> (#[trigger] kvs[i]).0.len() <= u32::MAX && kvs[i].1.len()
            <= u32::MAX
}

/// Serialize a page to its payload bytes.
pub fn encode_page(page: &Page) -> (r: Vec<u8>)
    requires
        page@.kvs.len() <= u32::MAX,
        pairs_fit(page@.kvs),
    ensures
        r@ == spec_encode_page(page@),
{
    proof {
        reveal(spec_encode_page);
    }
    let mut out: Vec<u8> = Vec::new();
    push_u32_le(&mut out, page.kv_pairs.len() as u32);
    match page.overflow_id {
        Some(id) => {
            out.push(1);
            push_u64_le(&mut out, id);
        },
        None => {
            out.push(0);
            push_u64_le(&mut out, 0);
        },
    }
    proof {
        assert(out@ =~= spec_u32_le(page@.kvs.len() as u32) + spec_ovf_bytes(page@.overflow_id));
    }
    match page.locallevel {
        Some(l) => {
            out.push(1);
            out.push(l);
        },
        None => {
            out.push(0);
            out.push(0);
        },
    }
    let ghost header = spec_u32_le(page@.kvs.len() as u32) + spec_ovf_bytes(page@.overflow_id)
        + spec_lvl_bytes(page@.locallevel);
    proof {
        assert(out@ =~= header);
    }
    let n = page.kv_pairs.len();
    let mut i: usize = 0;
    while i < n
        invariant
            n == page.kv_pairs@.len(),
            i <= n,
            page@.kvs.len() <= u32::MAX,
            pairs_fit(page@.kvs),
            page@.kvs == kvs_view(page.kv_pairs@),
            out@ == header + spec_encode_pairs(page@.kvs.take(i as int)),
        decreases n - i,
    {
        let key = &page.kv_pairs[i].0;
        let value = &page.kv_pairs[i].1;
        assert(page@.kvs[i as int] == (key@, value@));
        push_u32_le(&mut out, key.len() as u32);
        push_bytes(&mut out, key.as_slice());
        push_u32_le(&mut out, value.len() as u32);
        push_bytes(&mut out, value.as_slice());
        proof {
            lemma_encode_pairs_push(page@.kvs.take(i as int), page@.kvs[i as int]);
            assert(page@.kvs.take(i as int).push(page@.kvs[i as int]) =~= page@.kvs.take(i + 1));
            assert(out@ =~= header + spec_encode_pairs(page@.kvs.take(i + 1)));
        }
        i = i + 1;
    }
    proof {
        assert(page@.kvs.take(n as int) =~= page@.kvs);
    }
    out
}

/// Encoding one more pair appends its bytes.
pub proof fn lemma_encode_pairs_push(kvs: Seq<(Seq<u8>, Seq<u8>)>, p: (Seq<u8>, Seq<u8>))
    ensures
        spec_encode_pairs(kvs.push(p)) == spec_encode_pairs(kvs) + spec_pair_bytes(p),
    decreases kvs.len(),
{
    if kvs.len() == 0 {
        assert(kvs.push(p)[0] == p);
        assert(kvs.push(p).drop_first() =~= Seq::<(Seq<u8>, Seq<u8>)>::empty());
        assert(spec_encode_pairs(kvs.push(p).drop_first()) =~= Seq::<u8>::empty());
        assert(spec_encode_pairs(kvs.push(p)) =~= spec_pair_bytes(p));
        assert(spec_encode_pairs(kvs) + spec_pair_bytes(p) =~= spec_pair_bytes(p));
    } else {
        assert(kvs.push(p).drop_first() =~= kvs.drop_first().push(p));
        lemma_encode_pairs_push(kvs.drop_first(), p);
        assert(kvs.push(p)[0] == kvs[0]);
        assert(spec_pair_bytes(kvs[0]) + (spec_encode_pairs(kvs.drop_first()) + spec_pair_bytes(p))
            =~= (spec_pair_bytes(kvs[0]) + spec_encode_pairs(kvs.drop_first())) + spec_pair_bytes(
            p,
        ));
    }
}

/// Copy `buf[start .. start + len]` into a fresh vector.
pub fn copy_range(buf: &[u8], start: usize, len: usize) -> (r: Vec<u8>)
    requires
        start + len <= buf@.len(),
    ensures
        r@ == buf@.subrange(start as int, start + len),
{
    let total = buf.len();
    let mut out: Vec<u8> = Vec::new();
    let mut i: usize = 0;
    while i < len
        invariant
            start + len <= total == buf@.len(),
            i <= len,
            out@ == buf@.subrange(start as int, start + i),
        decreases len - i,
    {
        out.push(buf[start + i]);
        assert(out@ =~= buf@.subrange(start as int, start + i + 1));
        i = i + 1;
    }
    out
}

/// `Some(pre + s)` when `o` is `Some(s)`.
pub open spec fn opt_concat(
    pre: Seq<(Seq<u8>, Seq<u8>)>,
    o: Option<Seq<(Seq<u8>, Seq<u8>)>>,
) -> Option<Seq<(Seq<u8>, Seq<u8>)>> {
    match o {
        Some(s) => Some(pre + s),
        None => None,
    }
}

/// Whether no two pairs carry the same key.
#[verifier::loop_isolation(false)]
pub fn keys_unique(pairs: &Vec<(Vec<u8>, Vec<u8>)>) -> (r: bool)
    ensures
        r == unique_keys(kvs_view(pairs@)),
{
    let np = pairs.len();
    let mut a: usize = 0;
    while a < np
        invariant
            a <= np,
            forall|x: int, y: int|
                0 <= x < y < a ==> kvs_view(pairs@)[x].0 != kvs_view(pairs@)[y].0,
        decreases np - a,
    {
        let mut bidx: usize = 0;
        while bidx < a
            invariant
                bidx <= a < np,
                forall|x: int|
                    0 <= x < bidx ==> kvs_view(pairs@)[x].0 != kvs_view(pairs@)[a as int].0,
            decreases a - bidx,
        {
            if bytes_eq(pairs[bidx].0.as_slice(), pairs[a].0.as_slice()) {
                proof {
                    assert(kvs_view(pairs@)[bidx as int].0 == kvs_view(pairs@)[a as int].0);
                    assert(!unique_keys(kvs_view(pairs@)));
                }
                return false;
            }
            bidx = bidx + 1;
        }
        a = a + 1;
    }
    true
}

/// Deserialize a page payload, rejecting anything that is not a canonical
/// encoding of a well-formed page under the given configuration.
#[verifier::loop_isolation(false)]
pub fn decode_page(buf: &[u8], ksize: usize, vsize: usize, max_kv: u16) -> (r: Option<Page>)
    requires
        PAGE_META_LEN + PAIR_META_LEN + ksize + vsize <= MAX_PAYLOAD_LEN,
    ensures
        match r {
            Some(p) => {
                &&& spec_decode_page(buf@, ksize as nat, vsize as nat, max_kv) == Some(p@)
                &&& p@.wf()
                &&& pairs_sized(p@.kvs, ksize as nat, vsize as nat)
                &&& p@.kvs.len() <= max_kv
            },
            None => spec_decode_page(buf@, ksize as nat, vsize as nat, max_kv) is None,
        },
{
    proof {
        reveal(spec_decode_page);
    }
    if buf.len() < PAGE_META_LEN {
        return None;
    }
    let n32 = read_u32_le(buf, 0);
    let ovf_flag = buf[4];
    let ovf_id = read_u64_le(buf, 5);
    let lvl_flag = buf[13];
    let lvl = buf[14];
    if n32 > max_kv as u32 || ovf_flag > 1 || lvl_flag > 1 {
        return None;
    }
    let n = n32 as usize;

    let mut pairs: Vec<(Vec<u8>, Vec<u8>)> = Vec::new();
    let mut off: usize = PAGE_META_LEN;
    let mut i: usize = 0;
    let ghost whole = spec_decode_pairs(
        buf@.skip(PAGE_META_LEN as int),
        n as nat,
        ksize as nat,
        vsize as nat,
    );
    while i < n
        invariant
            i <= n,
            n <= u32::MAX,
            ksize <= u32::MAX,
            vsize <= u32::MAX,
            PAGE_META_LEN <= off <= buf@.len(),
            pairs@.len() == i,
            whole == spec_decode_pairs(
                buf@.skip(PAGE_META_LEN as int),
                n as nat,
                ksize as nat,
                vsize as nat,
            ),
            whole == opt_concat(
                kvs_view(pairs@),
                spec_decode_pairs(
                    buf@.skip(off as int),
                    (n - i) as nat,
                    ksize as nat,
                    vsize as nat,
                ),
            ),
            pairs_sized(kvs_view(pairs@), ksize as nat, vsize as nat),
        decreases n - i,
    {
        let ghost rem = buf@.skip(off as int);
        let ghost sub = spec_decode_pairs(rem, (n - i) as nat, ksize as nat, vsize as nat);
        if buf.len() - off < 4 {
            proof {
                assert(sub is None);
                assert(whole is None);
                assert(spec_decode_page(buf@, ksize as nat, vsize as nat, max_kv) is None);
            }
            return None;
        }
        let kl32 = read_u32_le(buf, off);
        assert(rem[0] == buf@[off as int] && rem[1] == buf@[off + 1] && rem[2] == buf@[off + 2]
            && rem[3] == buf@[off + 3]);
        if kl32 as usize != ksize {
            assert(sub is None);
            return None;
        }
        if buf.len() - off < 4 + ksize + 4 {
            assert(sub is None);
            return None;
        }
        let key = copy_range(buf, off + 4, ksize);
        let ghost rest1 = rem.skip(4 + ksize as int);
        proof {
            assert(key@ =~= rem.subrange(4, 4 + ksize as int));
            assert(rest1 =~= buf@.skip(off + 4 + ksize));
        }
        let off1 = off + 4 + ksize;
        let vl32 = read_u32_le(buf, off1);
        assert(rest1[0] == buf@[off1 as int] && rest1[1] == buf@[off1 + 1] && rest1[2] == buf@[off1
            + 2] && rest1[3] == buf@[off1 + 3]);
        if vl32 as usize != vsize {
            assert(sub is None);
            return None;
        }
        if buf.len() - off1 < 4 + vsize {
            assert(rest1.len() < 4 + vsize);
            assert(sub is None);
            return None;
        }
        let value = copy_range(buf, off1 + 4, vsize);
        proof {
            assert(value@ =~= rest1.subrange(4, 4 + vsize as int));
            assert(rest1.skip(4 + vsize as int) =~= buf@.skip(off1 + 4 + vsize));
        }
        let ghost tail = spec_decode_pairs(
            buf@.skip(off1 + 4 + vsize),
            (n - i - 1) as nat,
            ksize as nat,
            vsize as nat,
        );
        proof {
            assert(sub == opt_concat(seq![(key@, value@)], tail));
        }
        let ghost prev = pairs@;
        pairs.push((key, value));
        off = off1 + 4 + vsize;
        i = i + 1;
        proof {
            assert(pairs@.drop_last() =~= prev);
            assert(kvs_view(pairs@) =~= kvs_view(prev).push((key@, value@)));
            if tail is Some {
                assert(kvs_view(prev) + (seq![(key@, value@)] + tail.unwrap()) =~= kvs_view(
                    pairs@,
                ) + tail.unwrap());
            }
            assert forall|j: int| 0 <= j < kvs_view(pairs@).len() implies (#[trigger] kvs_view(
                pairs@,
            )[j]).0.len() == ksize && kvs_view(pairs@)[j].1.len() == vsize by {
                if j == kvs_view(pairs@).len() - 1 {
                    assert(kvs_view(pairs@)[j] == (key@, value@));
                } else {
                    assert(kvs_view(pairs@)[j] == kvs_view(prev)[j]);
                    assert(kvs_view(prev)[j].0.len() == ksize && kvs_view(prev)[j].1.len()
                        == vsize);
                }
            }
        }
    }
    if off != buf.len() {
        assert(buf@.skip(off as int).len() != 0);
        return None;
    }
    proof {
        assert(buf@.skip(off as int).len() == 0);
        assert(whole == Some(kvs_view(pairs@) + Seq::<(Seq<u8>, Seq<u8>)>::empty()));
        assert(kvs_view(pairs@) + Seq::<(Seq<u8>, Seq<u8>)>::empty() =~= kvs_view(pairs@));
    }

    // Reject duplicate keys: every page the store works with maps each key
    // at most once.
    if !keys_unique(&pairs) {
        return None;
    }

    let page = Page {
        kv_pairs: pairs,
        overflow_id: if ovf_flag == 1 {
            Some(ovf_id)
        } else {
            None
        },
        locallevel: if lvl_flag == 1 {
            Some(lvl)
        } else {
            None
        },
    };
    Some(page)
}

} // verus!
