//! The operation-sequence generator for differential testing: random gets,
//! inserts and deletes with configurable ratios, tracked against an
//! in-memory shadow map so that hits and misses can be generated on
//! purpose.

use vstd::prelude::*;

use crate::page::{kvs_view, lemma_lookup_none, spec_lookup, unique_keys};

verus! {

/// Relies on `rand::random`: a fresh sample of the standard distribution.
/// Nothing is promised of the value.
pub assume_specification<T>[ rand::random::<T> ]() -> (r: T)
    where
        rand::distr::StandardUniform: rand::distr::Distribution<T>,
;

/// How often the generator should produce each kind of operation, as
/// relative weights.
pub struct OpRatio {
    pub get_miss: u32,
    pub get_hit: u32,
    pub insert_miss: u32,
    pub insert_hit: u32,
    pub delete_miss: u32,
    pub delete_hit: u32,
    pub len: u32,
    pub list: u32,
}

impl OpRatio {
    /// The weights summed without overflow.
    pub open spec fn total(self) -> int {
        self.get_miss + self.get_hit + self.insert_miss + self.insert_hit + self.delete_miss
            + self.delete_hit + self.len + self.list
    }
}

/// The kind of operation drawn, before keys and values are chosen.
#[derive(Clone, Copy, Debug)]
enum OpChoice {
    GetMiss,
    GetHit,
    InsertMiss,
    InsertHit,
    DeleteHit,
    DeleteMiss,
    Len,
    List,
}

/// Draws operation kinds with the configured relative frequencies.
pub struct OpChoiceGenerator {
    pub total: u32,
    pub top_get_miss: u32,
    pub top_get_hit: u32,
    pub top_insert_miss: u32,
    pub top_insert_hit: u32,
    pub top_delete_miss: u32,
    pub top_delete_hit: u32,
    pub top_len: u32,
    pub top_list: u32,
}

impl OpChoiceGenerator {
    pub open spec fn wf(self) -> bool {
        self.total >= 1
    }

    pub fn new(ratio: OpRatio) -> (r: OpChoiceGenerator)
        requires
            1 <= ratio.total() <= u32::MAX,
        ensures
            r.wf(),
    {
        let total = ratio.get_miss + ratio.get_hit + ratio.insert_miss + ratio.insert_hit
            + ratio.delete_miss + ratio.delete_hit + ratio.len + ratio.list;

        let top_get_miss = ratio.get_miss;
        let top_get_hit = top_get_miss + ratio.get_hit;
        let top_insert_miss = top_get_hit + ratio.insert_miss;
        let top_insert_hit = top_insert_miss + ratio.insert_hit;
        let top_delete_miss = top_insert_hit + ratio.delete_miss;
        let top_delete_hit = top_delete_miss + ratio.delete_hit;
        let top_len = top_delete_hit + ratio.len;
        let top_list = top_len + ratio.list;

        OpChoiceGenerator {
            total,
            top_get_miss,
            top_get_hit,
            top_insert_miss,
            top_insert_hit,
            top_delete_miss,
            top_delete_hit,
            top_len,
            top_list,
        }
    }

    fn draw(&mut self) -> (r: OpChoice)
        requires
            old(self).wf(),
        ensures
            *final(self) == *old(self),
    {
        let sample: u32 = rand::random();
        let r = sample % self.total;

        if r < self.top_get_miss {
            return OpChoice::GetMiss;
        }
        if r < self.top_get_hit {
            return OpChoice::GetHit;
        }
        if r < self.top_insert_miss {
            return OpChoice::InsertMiss;
        }
        if r < self.top_insert_hit {
            return OpChoice::InsertHit;
        }
        if r < self.top_delete_miss {
            return OpChoice::DeleteMiss;
        }
        if r < self.top_delete_hit {
            return OpChoice::DeleteHit;
        }
        if r < self.top_len {
            return OpChoice::Len;
        }
        OpChoice::List
    }
}

/// One generated operation against the store under test.
#[derive(Debug)]
pub enum Op {
    Get(Vec<u8>),
    Insert(Vec<u8>, Vec<u8>),
    Delete(Vec<u8>),
    Len,
    List,
}

/// `n` bytes drawn from the standard distribution.
fn random_bytes(n: usize) -> (r: Vec<u8>)
    ensures
        r@.len() == n,
{
    let mut out: Vec<u8> = Vec::new();
    let mut i: usize = 0;
    while i < n
        invariant
            i <= n,
            out@.len() == i,
        decreases n - i,
    {
        let b: u8 = rand::random();
        out.push(b);
        i = i + 1;
    }
    out
}

/// How many times a fresh random key is drawn before the search for a miss
/// is abandoned; with any realistic key space this is never reached.
pub const MISS_DRAW_LIMIT: u32 = 1048576;

/// Generates a stream of operations whose hit/miss character is known in
/// advance, tracked against an internal shadow map.
pub struct MapTestGenerator {
    pub ksize: usize,
    pub vsize: usize,
    pub op_choice_generator: OpChoiceGenerator,
    pub m: Vec<(Vec<u8>, Vec<u8>)>,
}

impl MapTestGenerator {
    pub open spec fn wf(self) -> bool {
        &&& self.op_choice_generator.wf()
        &&& unique_keys(kvs_view(self.m@))
        &&& self.ksize >= 1
    }

    pub fn new(ksize: usize, vsize: usize, op_ratio: OpRatio) -> (r: MapTestGenerator)
        requires
            1 <= op_ratio.total() <= u32::MAX,
            ksize >= 1,
        ensures
            r.wf(),
            r.ksize == ksize,
            r.vsize == vsize,
    {
        MapTestGenerator {
            ksize,
            vsize,
            op_choice_generator: OpChoiceGenerator::new(op_ratio),
            m: Vec::new(),
        }
    }

    /// Draw the next operation and keep the shadow map in step with it.
    pub fn next(&mut self) -> (r: Op)
        requires
            old(self).wf(),
        ensures
            final(self).wf(),
            final(self).ksize == old(self).ksize,
            final(self).vsize == old(self).vsize,
            match r {
                Op::Get(k) => k@.len() == old(self).ksize,
                Op::Insert(k, v) => k@.len() == old(self).ksize && v@.len() == old(self).vsize,
                Op::Delete(k) => k@.len() == old(self).ksize,
                _ => true,
            },
    {
        let choice = self.op_choice_generator.draw();
        let op = self.get_op(choice);
        match &op {
            Op::Insert(k, v) => {
                let k2 = crate::split::clone_bytes(k);
                let v2 = crate::split::clone_bytes(v);
                self.shadow_insert(k2, v2);
            },
            Op::Delete(k) => {
                let k2 = crate::split::clone_bytes(k);
                self.shadow_remove(k2.as_slice());
            },
            Op::Get(_) => {},
            Op::Len => {},
            Op::List => {},
        }
        op
    }

    fn k(&self) -> (r: Vec<u8>)
        ensures
            r@.len() == self.ksize,
    {
        random_bytes(self.ksize)
    }

    fn v(&self) -> (r: Vec<u8>)
        ensures
            r@.len() == self.vsize,
    {
        random_bytes(self.vsize)
    }

    /// A key that the shadow map does not hold, or `None` after far too
    /// many colliding draws.
    fn gen_miss_k(&self) -> (r: Option<Vec<u8>>)
        ensures
            match r {
                Some(k) => k@.len() == self.ksize && spec_lookup(kvs_view(self.m@), k@) is None,
                None => true,
            },
    {
        let mut attempt: u32 = 0;
        while attempt < MISS_DRAW_LIMIT
            invariant
                attempt <= MISS_DRAW_LIMIT,
            decreases MISS_DRAW_LIMIT - attempt,
        {
            let k = self.k();
            if !crate::split::kv_has(&self.m, k.as_slice()) {
                return Some(k);
            }
            attempt = attempt + 1;
        }
        None
    }

    /// A key the shadow map holds, or `None` when it is empty.
    fn gen_hit_k(&self) -> (r: Option<Vec<u8>>)
        requires
            self.wf(),
        ensures
            match r {
                Some(k) => k@.len() == self.ksize && spec_lookup(kvs_view(self.m@), k@) is Some,
                None => true,
            },
    {
        let n = self.m.len();
        if n == 0 {
            return None;
        }
        let sample: u32 = rand::random();
        let idx = (sample as usize) % n;
        let k = crate::split::clone_bytes(&self.m[idx].0);
        proof {
            let kv = kvs_view(self.m@);
            assert(kv[idx as int].0 == k@);
            lemma_lookup_of_entry(kv, idx as int);
        }
        if k.len() == self.ksize {
            Some(k)
        } else {
            None
        }
    }

    /// Turn a drawn kind into a concrete operation, falling back from a hit
    /// to a miss when the shadow map is empty.
    fn get_op(&self, choice: OpChoice) -> (r: Op)
        requires
            self.wf(),
        ensures
            match r {
                Op::Get(k) => k@.len() == self.ksize,
                Op::Insert(k, v) => k@.len() == self.ksize && v@.len() == self.vsize,
                Op::Delete(k) => k@.len() == self.ksize,
                _ => true,
            },
        decreases (match choice {
            OpChoice::GetHit => 1int,
            OpChoice::InsertHit => 1int,
            OpChoice::DeleteHit => 1int,
            _ => 0int,
        }),
    {
        match choice {
            OpChoice::GetMiss => {
                match self.gen_miss_k() {
                    Some(k) => Op::Get(k),
                    None => Op::Len,
                }
            },
            OpChoice::GetHit => {
                match self.gen_hit_k() {
                    Some(k) => Op::Get(k),
                    None => self.get_op(OpChoice::GetMiss),
                }
            },
            OpChoice::InsertMiss => {
                match self.gen_miss_k() {
                    Some(k) => Op::Insert(k, self.v()),
                    None => Op::Len,
                }
            },
            OpChoice::InsertHit => {
                match self.gen_hit_k() {
                    Some(k) => Op::Insert(k, self.v()),
                    None => self.get_op(OpChoice::InsertMiss),
                }
            },
            OpChoice::DeleteMiss => {
                match self.gen_miss_k() {
                    Some(k) => Op::Delete(k),
                    None => Op::Len,
                }
            },
            OpChoice::DeleteHit => {
                match self.gen_hit_k() {
                    Some(k) => Op::Delete(k),
                    None => self.get_op(OpChoice::DeleteMiss),
                }
            },
            OpChoice::Len => Op::Len,
            OpChoice::List => Op::List,
        }
    }

    /// Record an insert in the shadow map.
    fn shadow_insert(&mut self, key: Vec<u8>, value: Vec<u8>)
        requires
            unique_keys(kvs_view(old(self).m@)),
        ensures
            unique_keys(kvs_view(final(self).m@)),
            final(self).ksize == old(self).ksize,
            final(self).vsize == old(self).vsize,
            final(self).op_choice_generator == old(self).op_choice_generator,
            spec_lookup(kvs_view(final(self).m@), key@) == Some(value@),
    {
        let ghost pre = kvs_view(self.m@);
        match self.find_key(key.as_slice()) {
            Some(i) => {
                proof {
                    crate::page::lemma_lookup_at(pre, key@, i as int);
                    crate::page::lemma_lookup_remove(pre, i as int, key@);
                }
                let _ = self.m.remove(i);
                proof {
                    assert(kvs_view(self.m@) =~= pre.remove(i as int));
                }
            },
            None => {
                proof {
                    lemma_lookup_none(pre, key@);
                }
            },
        }
        let ghost mid = kvs_view(self.m@);
        proof {
            crate::page::lemma_lookup_push(mid, key@, value@);
            lemma_unique_push_entry(mid, key@, value@);
        }
        self.m.push((key, value));
        proof {
            assert(kvs_view(self.m@) =~= mid.push((key@, value@)));
        }
    }

    /// Record a delete in the shadow map.
    fn shadow_remove(&mut self, key: &[u8])
        requires
            unique_keys(kvs_view(old(self).m@)),
        ensures
            unique_keys(kvs_view(final(self).m@)),
            final(self).ksize == old(self).ksize,
            final(self).vsize == old(self).vsize,
            final(self).op_choice_generator == old(self).op_choice_generator,
            spec_lookup(kvs_view(final(self).m@), key@) is None,
    {
        let ghost pre = kvs_view(self.m@);
        match self.find_key(key) {
            Some(i) => {
                proof {
                    crate::page::lemma_lookup_at(pre, key@, i as int);
                    crate::page::lemma_lookup_remove(pre, i as int, key@);
                }
                let _ = self.m.remove(i);
                proof {
                    assert(kvs_view(self.m@) =~= pre.remove(i as int));
                }
            },
            None => {
                proof {
                    lemma_lookup_none(pre, key@);
                }
            },
        }
    }

    /// The index of the first shadow pair carrying `key`, if any.
    fn find_key(&self, key: &[u8]) -> (r: Option<usize>)
        ensures
            match r {
                Some(i) => i < self.m@.len() && kvs_view(self.m@)[i as int].0 == key@ && forall|
                    j: int,
                | 0 <= j < i ==> kvs_view(self.m@)[j].0 != key@,
                None => forall|j: int|
                    0 <= j < self.m@.len() ==> kvs_view(self.m@)[j].0 != key@,
            },
    {
        let n = self.m.len();
        let mut i: usize = 0;
        while i < n
            invariant
                n == self.m@.len(),
                i <= n,
                forall|j: int| 0 <= j < i ==> kvs_view(self.m@)[j].0 != key@,
            decreases n - i,
        {
            if crate::bytes::bytes_eq(self.m[i].0.as_slice(), key) {
                return Some(i);
            }
            i = i + 1;
        }
        None
    }
}

/// A pair present at index `i` is found by the scan.
proof fn lemma_lookup_of_entry(s: Seq<(Seq<u8>, Seq<u8>)>, i: int)
    requires
        0 <= i < s.len(),
    ensures
        spec_lookup(s, s[i].0) is Some,
    decreases i,
{
    if i == 0 {
    } else {
        if s[0].0 == s[i].0 {
        } else {
            assert(s.drop_first()[i - 1] == s[i]);
            lemma_lookup_of_entry(s.drop_first(), i - 1);
        }
    }
}

/// Pushing an absent key keeps keys unique.
proof fn lemma_unique_push_entry(s: Seq<(Seq<u8>, Seq<u8>)>, k: Seq<u8>, v: Seq<u8>)
    requires
        unique_keys(s),
        spec_lookup(s, k) is None,
    ensures
        unique_keys(s.push((k, v))),
{
    crate::page::lemma_lookup_none_means_no_entry(s, k);
    let t = s.push((k, v));
    assert forall|i: int, j: int| 0 <= i < j < t.len() implies t[i].0 != t[j].0 by {
        if j == s.len() {
            assert(s[i].0 != k);
        }
    }
}

} // verus!
