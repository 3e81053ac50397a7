//! Directory state of the linear-hash table: the current base level and the
//! split pointer, from which every bucket address is computed.

use vstd::prelude::*;

verus! {

/// Largest base level the directory will ever reach; keeps all page-count
/// arithmetic comfortably inside `u64`.
pub const MAX_BASE_LEVEL: u8 = 48;

/// The address of one bucket's page chain: the primary page id and the
/// hash-bit width (local level) the caller expects that page to carry.
#[derive(Clone, Copy)]
pub struct PageChainId {
    pub main_page_id: u64,
    pub locallevel: u8,
}

/// Pure address-translation state: `base_level` low-order hash bits address
/// the not-yet-split region, and `next_split_main_page_id` is the next bucket
/// scheduled for splitting in the current expansion round.
#[derive(Clone, Copy, PartialEq, Eq, Structural, Debug)]
pub struct Root {
    pub base_level: u8,
    pub next_split_main_page_id: u64,
}

/// The `level` low-order bits set.
pub open spec fn spec_mask(level: u64) -> u64
    recommends
        level < 64,
{
    ((1u64 << level) - 1) as u64
}

/// `level` low-order bits of `hash`.
pub open spec fn spec_low_bits(hash: u64, level: u64) -> u64
    recommends
        level < 64,
{
    hash & spec_mask(level)
}

pub fn low_bits(hash: u64, level: u64) -> (r: u64)
    requires
        level < 64,
    ensures
        r == spec_low_bits(hash, level),
{
    proof {
        assert((1u64 << level) >= 1) by (bit_vector)
            requires
                level < 64,
        ;
    }
    hash & ((1u64 << level) - 1)
}

impl Root {
    pub open spec fn wf(self) -> bool {
        &&& 1 <= self.base_level <= MAX_BASE_LEVEL
        &&& self.next_split_main_page_id < (1u64 << self.base_level as u64)
    }

    /// The number of primary pages the table currently addresses.
    pub open spec fn spec_n_pages(self) -> u64
        recommends
            self.wf(),
    {
        ((1u64 << self.base_level as u64) + self.next_split_main_page_id) as u64
    }

    pub fn calc_n_pages(&self) -> (r: u64)
        requires
            self.wf(),
        ensures
            r == self.spec_n_pages(),
    {
        proof {
            lemma_shift_bound(self.base_level as u64);
        }
        (1u64 << self.base_level as u64) + self.next_split_main_page_id
    }

    /// The bucket a hash routes to under this directory snapshot: the low
    /// `base_level` bits, widened by one bit when the bucket has already been
    /// split in the current round.
    pub open spec fn spec_page_chain_id(self, hash: u64) -> PageChainId
        recommends
            self.wf(),
    {
        let b = spec_low_bits(hash, self.base_level as u64);
        if b < self.next_split_main_page_id {
            PageChainId {
                main_page_id: spec_low_bits(hash, (self.base_level + 1) as u64),
                locallevel: (self.base_level + 1) as u8,
            }
        } else {
            PageChainId { main_page_id: b, locallevel: self.base_level }
        }
    }

    pub fn calc_page_chain_id(&self, hash: u64) -> (r: PageChainId)
        requires
            self.wf(),
        ensures
            r == self.spec_page_chain_id(hash),
            r.main_page_id < self.spec_n_pages(),
            r.locallevel == self.base_level || r.locallevel == self.base_level + 1,
    {
        proof {
            self.lemma_page_chain_id_in_range(hash);
        }
        let b = low_bits(hash, self.base_level as u64);
        if b < self.next_split_main_page_id {
            let b2 = low_bits(hash, self.base_level as u64 + 1);
            PageChainId { main_page_id: b2, locallevel: self.base_level + 1 }
        } else {
            PageChainId { main_page_id: b, locallevel: self.base_level }
        }
    }

    /// Routing never addresses a bucket beyond the primary pages that the
    /// directory says exist.
    pub proof fn lemma_page_chain_id_in_range(self, hash: u64)
        requires
            self.wf(),
        ensures
            self.spec_page_chain_id(hash).main_page_id < self.spec_n_pages(),
    {
        let level = self.base_level as u64;
        let s = self.next_split_main_page_id;
        let b = spec_low_bits(hash, level);
        lemma_shift_bound(level);
        assert(b <= spec_mask(level) && spec_mask(level) < (1u64 << level)) by (bit_vector)
            requires
                b == hash & spec_mask(level) && level < 63,
        ;
        if b < s {
            let b2 = spec_low_bits(hash, (level + 1) as u64);
            assert(b2 == b || b2 == b + (1u64 << level)) by (bit_vector)
                requires
                    b == hash & ((1u64 << level) - 1) as u64
                        && b2 == hash & ((1u64 << (level + 1)) - 1) as u64 && level < 63,
            ;
        }
    }

    /// What the split pointer becomes once the bucket it names has been
    /// split: one step forward, wrapping into a new base level when the
    /// current round is complete.
    pub open spec fn spec_advanced(self) -> Root
        recommends
            self.wf(),
    {
        if self.next_split_main_page_id + 1 == (1u64 << self.base_level as u64) {
            Root { base_level: (self.base_level + 1) as u8, next_split_main_page_id: 0 }
        } else {
            Root {
                base_level: self.base_level,
                next_split_main_page_id: (self.next_split_main_page_id + 1) as u64,
            }
        }
    }

    /// The only mutator of the directory: called exactly once per completed
    /// split, after the split's page writes are durable.
    pub fn advance_split_pointer(&mut self)
        requires
            old(self).wf(),
            old(self).base_level < MAX_BASE_LEVEL,
        ensures
            *final(self) == old(self).spec_advanced(),
            final(self).wf(),
            final(self).spec_n_pages() == old(self).spec_n_pages() + 1,
    {
        proof {
            lemma_shift_bound(self.base_level as u64);
            lemma_advance_n_pages(*self);
        }
        self.next_split_main_page_id = self.next_split_main_page_id + 1;
        if self.next_split_main_page_id == (1u64 << self.base_level as u64) {
            self.base_level = self.base_level + 1;
            self.next_split_main_page_id = 0;
        }
    }
}

/// Advancing the split pointer re-routes only the bucket that was split: a
/// hash that routed to any other bucket keeps its bucket and its expected
/// local level. This is why a completed split invalidates at most one
/// bucket's directory snapshots.
pub proof fn lemma_advance_preserves_other_routes(root: Root, hash: u64)
    requires
        root.wf(),
        root.base_level < MAX_BASE_LEVEL,
        root.spec_page_chain_id(hash).main_page_id != root.next_split_main_page_id,
    ensures
        root.spec_advanced().spec_page_chain_id(hash) == root.spec_page_chain_id(hash),
{
    let level = root.base_level as u64;
    let s = root.next_split_main_page_id;
    let b = spec_low_bits(hash, level);
    lemma_shift_bound(level);
    assert(b <= spec_mask(level) && spec_mask(level) < (1u64 << level)) by (bit_vector)
        requires
            b == hash & spec_mask(level) && level < 63,
    ;
    if b < s {
        // Already widened: the widened bucket survives the advance, also
        // across a round boundary, where the wrapped directory widens every
        // bucket.
        let b2 = spec_low_bits(hash, (level + 1) as u64);
        assert(b2 == b || b2 == b + (1u64 << level)) by (bit_vector)
            requires
                b == hash & ((1u64 << level) - 1) as u64
                    && b2 == hash & ((1u64 << (level + 1)) - 1) as u64 && level < 63,
        ;
        if s + 1 == (1u64 << level) {
            assert(root.spec_advanced().base_level as u64 == level + 1);
        }
    } else {
        // Not yet split: the bucket id is its low `level` bits, and it stays
        // at or above the advanced pointer, so its route is unchanged. The
        // pointer cannot wrap here: wrapping needs `s + 1 == 2^level`, and
        // `b` would then equal `s`.
        assert(b != s);
        assert(b > s);
        if s + 1 == (1u64 << level) {
            assert(b >= (1u64 << level));
            assert(false);
        }
    }
}

/// Completing a split grows the table by exactly one primary page, also
/// across a round boundary, where `2^(L+1)` equals `2^L + 2^L`.
proof fn lemma_advance_n_pages(root: Root)
    requires
        root.wf(),
        root.base_level < MAX_BASE_LEVEL,
    ensures
        root.spec_advanced().wf(),
        root.spec_advanced().spec_n_pages() == root.spec_n_pages() + 1,
{
    let level = root.base_level as u64;
    assert((1u64 << (level + 1)) == (1u64 << level) + (1u64 << level) && (1u64 << level) >= 1)
        by (bit_vector)
        requires
            level < 63,
    ;
    lemma_shift_bound(level);
}

/// `2^level` fits well below `u64::MAX` for every level the directory uses.
pub proof fn lemma_shift_bound(level: u64)
    requires
        level <= MAX_BASE_LEVEL,
    ensures
        1u64 <= (1u64 << level) <= 0x1_0000_0000_0000u64,
{
    assert(1u64 <= (1u64 << level) <= 0x1_0000_0000_0000u64) by (bit_vector)
        requires
            level <= 48,
    ;
}

/// Rebuild the directory from a primary page count alone: `base_level` is the
/// bit width of the count minus one, and the split pointer is what the count
/// exceeds `2^base_level` by. This is the inverse of growing the table one
/// split at a time.
pub fn calc_base_level(n_main_pages: u64) -> (r: Root)
    requires
        2 <= n_main_pages <= (1u64 << MAX_BASE_LEVEL as u64),
    ensures
        r.wf(),
        r.spec_n_pages() == n_main_pages,
        (1u64 << r.base_level as u64) <= n_main_pages,
{
    proof {
        assert((1u64 << 1u64) == 2) by (bit_vector);
    }
    let mut level: u8 = 1;
    while level < MAX_BASE_LEVEL && (1u64 << ((level + 1) as u64)) <= n_main_pages
        invariant
            1 <= level <= MAX_BASE_LEVEL,
            (1u64 << level as u64) <= n_main_pages,
        decreases MAX_BASE_LEVEL - level,
    {
        proof {
            lemma_shift_bound((level + 1) as u64);
        }
        level = level + 1;
    }
    proof {
        lemma_shift_bound(level as u64);
        if level < MAX_BASE_LEVEL {
            assert(n_main_pages < (1u64 << ((level + 1) as u64)));
            assert((1u64 << ((level + 1) as u64)) == (1u64 << level as u64) + (1u64
                << level as u64)) by (bit_vector)
                requires
                    level < 63u8,
            ;
        } else {
            assert(n_main_pages == (1u64 << MAX_BASE_LEVEL as u64));
        }
    }
    Root {
        base_level: level,
        next_split_main_page_id: n_main_pages - (1u64 << (level as u64)),
    }
}

/// Restoring the directory from the page count it implies gives the directory
/// back unchanged: the split pointer and base level are fully determined by
/// how many primary pages exist.
pub proof fn lemma_calc_base_level_inverse(root: Root, rebuilt: Root)
    requires
        root.wf(),
        rebuilt.wf(),
        rebuilt.spec_n_pages() == root.spec_n_pages(),
        (1u64 << rebuilt.base_level as u64) <= rebuilt.spec_n_pages(),
        (1u64 << root.base_level as u64) <= root.spec_n_pages(),
    ensures
        rebuilt == root,
{
    let la = root.base_level as u64;
    let lb = rebuilt.base_level as u64;
    let sa = root.next_split_main_page_id;
    let sb = rebuilt.next_split_main_page_id;
    lemma_shift_bound(la);
    lemma_shift_bound(lb);
    assert((1u64 << la) + sa == (1u64 << lb) + sb);
    assert(la == lb) by {
        if la < lb {
            assert(false) by (bit_vector)
                requires
                    la < lb < 64 && sa < (1u64 << la) && sb < (1u64 << lb) && (1u64 << la) + sa == (
                    1u64 << lb) + sb,
            ;
        }
        if lb < la {
            assert(false) by (bit_vector)
                requires
                    lb < la < 64 && sa < (1u64 << la) && sb < (1u64 << lb) && (1u64 << la) + sa == (
                    1u64 << lb) + sb,
            ;
        }
    }
}

/// The page a freshly split page was split from: its id with the highest
/// hash bit of its local level dropped.
pub open spec fn spec_old_page_id(page_id: u64, locallevel: u8) -> u64
    recommends
        locallevel < 64,
{
    page_id & ((spec_mask(locallevel as u64) >> 1u64) as u64)
}

/// Drop the highest set bit position of a freshly split page id to find the
/// page it was split from.
pub fn calc_old_page_id(page_id: u64, locallevel: u8) -> (r: u64)
    requires
        locallevel < 64,
    ensures
        r == spec_old_page_id(page_id, locallevel),
        r <= page_id,
{
    let l = locallevel as u64;
    proof {
        assert((1u64 << l) >= 1) by (bit_vector)
            requires
                l < 64,
        ;
    }
    let old_page_id_mask = ((1u64 << l) - 1) >> 1u64;
    proof {
        let m = old_page_id_mask;
        assert((page_id & m) <= page_id) by (bit_vector);
    }
    page_id & old_page_id_mask
}

} // verus!
