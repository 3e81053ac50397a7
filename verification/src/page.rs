//! The logical record held in one frame: a small key-to-value mapping, an
//! optional link to the next page of the bucket's overflow chain, and an
//! optional local-level tag on primary pages.

use vstd::prelude::*;

verus! {

/// Ghost image of a page: its pairs in storage order plus the two tags.
pub ghost struct PageV {
    pub kvs: Seq<(Seq<u8>, Seq<u8>)>,
    pub overflow_id: Option<u64>,
    pub locallevel: Option<u8>,
}

/// First match wins: the value stored under `k`, scanning pairs in order.
pub open spec fn spec_lookup(s: Seq<(Seq<u8>, Seq<u8>)>, k: Seq<u8>) -> Option<Seq<u8>>
    decreases s.len(),
{
    if s.len() == 0 {
        None
    } else if s[0].0 == k {
        Some(s[0].1)
    } else {
        spec_lookup(s.drop_first(), k)
    }
}

pub open spec fn spec_has_key(s: Seq<(Seq<u8>, Seq<u8>)>, k: Seq<u8>) -> bool {
    spec_lookup(s, k) is Some
}

/// No key occurs twice.
pub open spec fn unique_keys(s: Seq<(Seq<u8>, Seq<u8>)>) -> bool {
    forall|i: int, j: int| 0 <= i < j < s.len() ==> s[i].0 != s[j].0
}

/// Every pair has the configured key and value sizes.
pub open spec fn pairs_sized(s: Seq<(Seq<u8>, Seq<u8>)>, ksize: nat, vsize: nat) -> bool {
    forall|i: int|
        0 <= i < s.len() ==> (#[trigger] s[i]).0.len() == ksize && s[i].1.len() == vsize
}

/// A hit at index `i`, with no earlier hit, is what the scan returns.
pub proof fn lemma_lookup_at(s: Seq<(Seq<u8>, Seq<u8>)>, k: Seq<u8>, i: int)
    requires
        0 <= i < s.len(),
        s[i].0 == k,
        forall|j: int| 0 <= j < i ==> s[j].0 != k,
    ensures
        spec_lookup(s, k) == Some(s[i].1),
    decreases i,
{
    if i == 0 {
    } else {
        lemma_lookup_at(s.drop_first(), k, i - 1);
    }
}

/// A key that no pair carries is not found.
pub proof fn lemma_lookup_none(s: Seq<(Seq<u8>, Seq<u8>)>, k: Seq<u8>)
    requires
        forall|j: int| 0 <= j < s.len() ==> s[j].0 != k,
    ensures
        spec_lookup(s, k) is None,
    decreases s.len(),
{
    if s.len() > 0 {
        lemma_lookup_none(s.drop_first(), k);
    }
}

/// Whatever the scan returns is one of the stored pairs.
pub proof fn lemma_lookup_is_entry(s: Seq<(Seq<u8>, Seq<u8>)>, k: Seq<u8>)
    requires
        spec_lookup(s, k) is Some,
    ensures
        exists|i: int|
            0 <= i < s.len() && s[i] == (k, spec_lookup(s, k).unwrap()),
    decreases s.len(),
{
    if s.len() > 0 {
        if s[0].0 == k {
            assert(s[0] == (k, spec_lookup(s, k).unwrap()));
        } else {
            lemma_lookup_is_entry(s.drop_first(), k);
            let i = choose|i: int|
                0 <= i < s.drop_first().len() && s.drop_first()[i] == (
                k,
                spec_lookup(s.drop_first(), k).unwrap(),
                );
            assert(s[i + 1] == (k, spec_lookup(s, k).unwrap()));
        }
    }
}

/// Removing the only pair that carries `k` makes `k` absent and leaves every
/// other key's first match unchanged.
pub proof fn lemma_lookup_remove(s: Seq<(Seq<u8>, Seq<u8>)>, i: int, k: Seq<u8>)
    requires
        unique_keys(s),
        0 <= i < s.len(),
        s[i].0 == k,
    ensures
        spec_lookup(s.remove(i), k) is None,
        forall|k2: Seq<u8>|
            k2 != k ==> #[trigger] spec_lookup(s.remove(i), k2) == spec_lookup(s, k2),
        unique_keys(s.remove(i)),
    decreases i,
{
    let r = s.remove(i);
    assert forall|j: int| 0 <= j < r.len() implies r[j].0 != k by {
        if j < i {
            assert(s[j].0 != s[i].0);
        } else {
            assert(r[j] == s[j + 1]);
        }
    }
    lemma_lookup_none(r, k);
    assert forall|k2: Seq<u8>| k2 != k implies #[trigger] spec_lookup(r, k2) == spec_lookup(
        s,
        k2,
    ) by {
        lemma_lookup_remove_other(s, i, k2);
    }
}

/// Removing pair `i` does not change the first match of a key that pair does
/// not carry.
pub proof fn lemma_lookup_remove_other(s: Seq<(Seq<u8>, Seq<u8>)>, i: int, k2: Seq<u8>)
    requires
        0 <= i < s.len(),
        s[i].0 != k2,
    ensures
        spec_lookup(s.remove(i), k2) == spec_lookup(s, k2),
    decreases s.len(),
{
    if s.len() > 0 {
        if i == 0 {
            assert(s.remove(0) =~= s.drop_first());
        } else {
            if s[0].0 == k2 {
                assert(s.remove(i)[0] == s[0]);
            } else {
                assert(s.remove(i).drop_first() =~= s.drop_first().remove(i - 1));
                lemma_lookup_remove_other(s.drop_first(), i - 1, k2);
            }
        }
    }
}

/// Appending a pair with a fresh key adds exactly that binding.
pub proof fn lemma_lookup_push(s: Seq<(Seq<u8>, Seq<u8>)>, k: Seq<u8>, v: Seq<u8>)
    requires
        spec_lookup(s, k) is None,
    ensures
        spec_lookup(s.push((k, v)), k) == Some(v),
        forall|k2: Seq<u8>|
            k2 != k ==> #[trigger] spec_lookup(s.push((k, v)), k2) == spec_lookup(s, k2),
    decreases s.len(),
{
    lemma_lookup_none_means_no_entry(s, k);
    lemma_lookup_at(s.push((k, v)), k, s.len() as int);
    assert forall|k2: Seq<u8>| k2 != k implies #[trigger] spec_lookup(s.push((k, v)), k2)
        == spec_lookup(s, k2) by {
        lemma_lookup_push_other(s, (k, v), k2);
    }
}

/// A missing key has no entry at any index.
pub proof fn lemma_lookup_none_means_no_entry(s: Seq<(Seq<u8>, Seq<u8>)>, k: Seq<u8>)
    requires
        spec_lookup(s, k) is None,
    ensures
        forall|j: int| 0 <= j < s.len() ==> (#[trigger] s[j]).0 != k,
    decreases s.len(),
{
    if s.len() > 0 {
        lemma_lookup_none_means_no_entry(s.drop_first(), k);
        assert forall|j: int| 0 <= j < s.len() implies (#[trigger] s[j]).0 != k by {
            if j > 0 {
                assert(s.drop_first()[j - 1] == s[j]);
            }
        }
    }
}

/// Appending any pair does not change the first match of other keys.
pub proof fn lemma_lookup_push_other(s: Seq<(Seq<u8>, Seq<u8>)>, p: (Seq<u8>, Seq<u8>), k2: Seq<u8>)
    requires
        p.0 != k2,
    ensures
        spec_lookup(s.push(p), k2) == spec_lookup(s, k2),
    decreases s.len(),
{
    let t = s.push(p);
    if s.len() == 0 {
        assert(t[0] == p);
        assert(t.drop_first() =~= Seq::<(Seq<u8>, Seq<u8>)>::empty());
        assert(spec_lookup(t.drop_first(), k2) is None);
        assert(spec_lookup(t, k2) is None);
        assert(spec_lookup(s, k2) is None);
    } else {
        assert(t[0] == s[0]);
        if s[0].0 == k2 {
            assert(spec_lookup(t, k2) == Some(t[0].1));
        } else {
            assert(t.drop_first() =~= s.drop_first().push(p));
            lemma_lookup_push_other(s.drop_first(), p, k2);
        }
    }
}

/// Scanning a single pair.
pub proof fn lemma_lookup_singleton(p: (Seq<u8>, Seq<u8>), k: Seq<u8>)
    ensures
        spec_lookup(seq![p], k) == (if p.0 == k {
            Some(p.1)
        } else {
            None::<Seq<u8>>
        }),
{
    let s = seq![p];
    assert(s[0] == p);
    if p.0 != k {
        assert(s.drop_first() =~= Seq::<(Seq<u8>, Seq<u8>)>::empty());
        assert(spec_lookup(s.drop_first(), k) is None);
    }
}

/// Scanning a concatenation is scanning the first part, then the second.
pub proof fn lemma_lookup_concat(a: Seq<(Seq<u8>, Seq<u8>)>, b: Seq<(Seq<u8>, Seq<u8>)>, k: Seq<u8>)
    ensures
        spec_lookup(a + b, k) == (match spec_lookup(a, k) {
            Some(v) => Some(v),
            None => spec_lookup(b, k),
        }),
    decreases a.len(),
{
    if a.len() == 0 {
        assert(a + b =~= b);
    } else {
        assert((a + b)[0] == a[0]);
        assert((a + b).drop_first() =~= a.drop_first() + b);
        lemma_lookup_concat(a.drop_first(), b, k);
    }
}

/// One page of the table.
pub struct Page {
    pub kv_pairs: Vec<(Vec<u8>, Vec<u8>)>,
    pub overflow_id: Option<u64>,
    pub locallevel: Option<u8>,
}

/// The pairs of `v` as ghost byte strings, in storage order.
pub open spec fn kvs_view(v: Seq<(Vec<u8>, Vec<u8>)>) -> Seq<(Seq<u8>, Seq<u8>)> {
    v.map_values(|p: (Vec<u8>, Vec<u8>)| (p.0@, p.1@))
}

impl View for Page {
    type V = PageV;

    open spec fn view(&self) -> PageV {
        PageV {
            kvs: kvs_view(self.kv_pairs@),
            overflow_id: self.overflow_id,
            locallevel: self.locallevel,
        }
    }
}

impl PageV {
    /// A page is well formed when no key occurs twice.
    pub open spec fn wf(self) -> bool {
        unique_keys(self.kvs)
    }

    pub open spec fn lookup(self, k: Seq<u8>) -> Option<Seq<u8>> {
        spec_lookup(self.kvs, k)
    }

    pub open spec fn has_key(self, k: Seq<u8>) -> bool {
        spec_has_key(self.kvs, k)
    }
}

impl Page {
    /// An empty page with no overflow link and no level tag.
    pub fn new() -> (r: Page)
        ensures
            r@.kvs =~= Seq::<(Seq<u8>, Seq<u8>)>::empty(),
            r@.overflow_id is None,
            r@.locallevel is None,
            r@.wf(),
    {
        Page { kv_pairs: Vec::new(), overflow_id: None, locallevel: None }
    }

    /// The index of the first pair carrying `key`, if any.
    fn find(&self, key: &[u8]) -> (r: Option<usize>)
        ensures
            match r {
                Some(i) => i < self@.kvs.len() && self@.kvs[i as int].0 == key@ && forall|j: int|
                    0 <= j < i ==> self@.kvs[j].0 != key@,
                None => forall|j: int| 0 <= j < self@.kvs.len() ==> self@.kvs[j].0 != key@,
            },
    {
        let n = self.kv_pairs.len();
        let mut i: usize = 0;
        while i < n
            invariant
                n == self.kv_pairs@.len(),
                i <= n,
                forall|j: int| 0 <= j < i ==> kvs_view(self.kv_pairs@)[j].0 != key@,
            decreases n - i,
        {
            if crate::bytes::bytes_eq(self.kv_pairs[i].0.as_slice(), key) {
                return Some(i);
            }
            i = i + 1;
        }
        None
    }

    /// Whether the page holds `key`.
    pub fn contains(&self, key: &[u8]) -> (r: bool)
        ensures
            r == self@.has_key(key@),
    {
        let found = self.find(key);
        proof {
            match found {
                Some(i) => lemma_lookup_at(self@.kvs, key@, i as int),
                None => lemma_lookup_none(self@.kvs, key@),
            }
        }
        found.is_some()
    }

    /// The value stored under `key`, if any.
    pub fn get(&self, key: &[u8]) -> (r: Option<Vec<u8>>)
        ensures
            match r {
                Some(v) => self@.lookup(key@) == Some(v@),
                None => self@.lookup(key@) is None,
            },
    {
        match self.find(key) {
            Some(i) => {
                proof {
                    lemma_lookup_at(self@.kvs, key@, i as int);
                }
                Some(self.kv_pairs[i].1.clone())
            },
            None => {
                proof {
                    lemma_lookup_none(self@.kvs, key@);
                }
                None
            },
        }
    }

    /// Store `key -> value`, replacing an existing binding; the previous
    /// value, if any, is returned.
    pub fn insert(&mut self, key: Vec<u8>, value: Vec<u8>) -> (r: Option<Vec<u8>>)
        requires
            old(self)@.wf(),
        ensures
            final(self)@.wf(),
            final(self)@.overflow_id == old(self)@.overflow_id,
            final(self)@.locallevel == old(self)@.locallevel,
            match r {
                Some(v) => old(self)@.lookup(key@) == Some(v@),
                None => old(self)@.lookup(key@) is None,
            },
            final(self)@.lookup(key@) == Some(value@),
            forall|k2: Seq<u8>|
                k2 != key@ ==> #[trigger] final(self)@.lookup(k2) == old(self)@.lookup(k2),
            final(self)@.kvs.len() == old(self)@.kvs.len() + (if r is Some {
                0int
            } else {
                1int
            }),
            r is None ==> final(self)@.kvs == old(self)@.kvs.push((key@, value@)),
            forall|ks: nat, vs: nat|
                #[trigger] pairs_sized(old(self)@.kvs, ks, vs) && key@.len() == ks && value@.len()
                    == vs ==> pairs_sized(final(self)@.kvs, ks, vs),
    {
        let ghost old_kvs = self@.kvs;
        match self.find(key.as_slice()) {
            Some(i) => {
                proof {
                    lemma_lookup_at(old_kvs, key@, i as int);
                    lemma_lookup_remove(old_kvs, i as int, key@);
                    lemma_lookup_push(old_kvs.remove(i as int), key@, value@);
                }
                let old_pair = self.kv_pairs.remove(i);
                self.kv_pairs.push((key, value));
                proof {
                    assert(kvs_view(self.kv_pairs@) =~= old_kvs.remove(i as int).push(
                        (key@, value@),
                    ));
                    lemma_unique_push(old_kvs.remove(i as int), key@, value@);
                }
                Some(old_pair.1)
            },
            None => {
                proof {
                    lemma_lookup_none(old_kvs, key@);
                    lemma_lookup_push(old_kvs, key@, value@);
                    lemma_unique_push(old_kvs, key@, value@);
                }
                self.kv_pairs.push((key, value));
                proof {
                    assert(kvs_view(self.kv_pairs@) =~= old_kvs.push((key@, value@)));
                }
                None
            },
        }
    }

    /// Remove `key`'s binding, returning the value it had.
    pub fn remove(&mut self, key: &[u8]) -> (r: Option<Vec<u8>>)
        requires
            old(self)@.wf(),
        ensures
            final(self)@.wf(),
            final(self)@.overflow_id == old(self)@.overflow_id,
            final(self)@.locallevel == old(self)@.locallevel,
            match r {
                Some(v) => {
                    &&& old(self)@.lookup(key@) == Some(v@)
                    &&& final(self)@.kvs.len() + 1 == old(self)@.kvs.len()
                },
                None => {
                    &&& old(self)@.lookup(key@) is None
                    &&& final(self)@ == old(self)@
                },
            },
            final(self)@.lookup(key@) is None,
            forall|k2: Seq<u8>|
                k2 != key@ ==> #[trigger] final(self)@.lookup(k2) == old(self)@.lookup(k2),
            forall|ks: nat, vs: nat|
                #[trigger] pairs_sized(old(self)@.kvs, ks, vs) ==> pairs_sized(
                    final(self)@.kvs,
                    ks,
                    vs,
                ),
    {
        let ghost old_kvs = self@.kvs;
        match self.find(key) {
            Some(i) => {
                proof {
                    lemma_lookup_at(old_kvs, key@, i as int);
                    lemma_lookup_remove(old_kvs, i as int, key@);
                }
                let old_pair = self.kv_pairs.remove(i);
                proof {
                    assert(kvs_view(self.kv_pairs@) =~= old_kvs.remove(i as int));
                }
                Some(old_pair.1)
            },
            None => {
                proof {
                    lemma_lookup_none(old_kvs, key@);
                }
                None
            },
        }
    }
}

/// Pushing a key that is absent keeps keys unique.
proof fn lemma_unique_push(s: Seq<(Seq<u8>, Seq<u8>)>, k: Seq<u8>, v: Seq<u8>)
    requires
        unique_keys(s),
        spec_lookup(s, k) is None,
    ensures
        unique_keys(s.push((k, v))),
{
    lemma_lookup_none_means_no_entry(s, k);
    let t = s.push((k, v));
    assert forall|i: int, j: int| 0 <= i < j < t.len() implies t[i].0 != t[j].0 by {
        if j < s.len() {
        } else {
            assert(t[j] == (k, v));
            assert(s[i].0 != k);
        }
    }
}

} // verus!
