//! A string-keyed map kept as a vector of entries with distinct keys,
//! with a hash index from each key's hash to the positions of the
//! entries that carry it. New keys go to the end; replacing a key keeps
//! its position; removing a key moves the last entry into its place.

use vstd::prelude::*;
use std::collections::HashMap;
use crate::text::str_eq;

verus! {

broadcast use {vstd::std_specs::hash::group_hash_axioms, vstd::utf8::group_utf8_lib};

/// Modulus of the key hash: the Mersenne prime `2^61 - 1`.
pub const HASH_MODULUS: u64 = 0x1fff_ffff_ffff_ffff;

/// Polynomial hash of the first `n` bytes of `b`, base 31.
pub open spec fn bytes_hash(b: Seq<u8>, n: nat) -> u64
    decreases n,
{
    if n == 0 || n > b.len() {
        0
    } else {
        ((bytes_hash(b, (n - 1) as nat) as int * 31 + b[n - 1] as int) % (HASH_MODULUS as int)) as u64
    }
}

/// The hash of a key: that of its UTF-8 bytes.
pub open spec fn key_hash(k: Seq<char>) -> u64 {
    bytes_hash(vstd::utf8::encode_utf8(k), vstd::utf8::encode_utf8(k).len())
}

fn hash_key(key: &str) -> (r: u64)
    ensures
        r == key_hash(key@),
{
    let b = key.as_bytes();
    let mut h: u64 = 0;
    let mut i: usize = 0;
    while i < b.len()
        invariant
            i <= b@.len(),
            b@ == vstd::utf8::encode_utf8(key@),
            h == bytes_hash(b@, i as nat),
            h < HASH_MODULUS,
        decreases b@.len() - i,
    {
        let next: u128 = ((h as u128) * 31 + (b[i] as u128)) % (HASH_MODULUS as u128);
        h = next as u64;
        i = i + 1;
    }
    h
}

/// Values that can be copied with their model intact.
pub trait Duplicate: View + Sized {
    fn duplicate(&self) -> (r: Self)
        ensures
            r@ == self@;
}

#[derive(Debug)]
pub struct StrMap<V> {
    entries: Vec<(String, V)>,
    index: HashMap<u64, Vec<usize>>,
}

/// `index` locates exactly the entries of `entries`: every entry's
/// position is in the bucket of its key's hash, and every position in a
/// bucket is a distinct entry whose key has that hash.
pub open spec fn index_ok<V>(entries: Seq<(String, V)>, index: Map<u64, Vec<usize>>) -> bool {
    &&& forall|i: int|
        0 <= i < entries.len() ==> #[trigger] index.contains_key(key_hash(entries[i].0@))
            && index[key_hash(entries[i].0@)]@.contains(i as usize)
    &&& forall|h: u64, j: int|
        #[trigger] index.contains_key(h) && 0 <= j < index[h]@.len() ==> (#[trigger] index[h]@[j])
            < entries.len() && key_hash(entries[index[h]@[j] as int].0@) == h
    &&& forall|h: u64| #[trigger] index.contains_key(h) ==> index[h]@.no_duplicates()
}

/// Map model of an entry sequence: later entries win on repeated keys.
pub open spec fn entries_map<V: View>(s: Seq<(String, V)>) -> Map<Seq<char>, V::V>
    decreases s.len(),
{
    if s.len() == 0 {
        Map::empty()
    } else {
        entries_map(s.drop_last()).insert(s.last().0@, s.last().1@)
    }
}

/// No key occurs twice.
pub open spec fn distinct_keys<V>(s: Seq<(String, V)>) -> bool {
    forall|i: int, j: int| 0 <= i < j < s.len() ==> s[i].0@ != s[j].0@
}

/// Keys of an entry sequence, in order.
pub open spec fn entry_keys<V>(s: Seq<(String, V)>) -> Seq<Seq<char>> {
    Seq::new(s.len(), |i: int| s[i].0@)
}

pub proof fn lemma_entries_map<V: View>(s: Seq<(String, V)>)
    requires
        distinct_keys(s),
    ensures
        forall|i: int| 0 <= i < s.len() ==> #[trigger] entries_map(s).contains_key(s[i].0@)
            && entries_map(s)[s[i].0@] == s[i].1@,
        forall|k: Seq<char>| #[trigger] entries_map(s).contains_key(k) ==> exists|i: int|
            0 <= i < s.len() && s[i].0@ == k,
        entries_map(s).dom().finite(),
        entries_map(s).dom().len() == s.len(),
    decreases s.len(),
{
    if s.len() > 0 {
        let p = s.drop_last();
        assert(distinct_keys(p));
        lemma_entries_map(p);
        let m = entries_map(p);
        assert(entries_map(s) == m.insert(s.last().0@, s.last().1@));
        assert(!m.contains_key(s.last().0@)) by {
            if m.contains_key(s.last().0@) {
                let i = choose|i: int| 0 <= i < p.len() && p[i].0@ == s.last().0@;
                assert(s[i].0@ == s[s.len() - 1].0@);
            }
        }
        assert forall|i: int| 0 <= i < s.len() implies #[trigger] entries_map(s).contains_key(
            s[i].0@,
        ) && entries_map(s)[s[i].0@] == s[i].1@ by {
            if i < s.len() - 1 {
                assert(p[i] == s[i]);
                assert(s[i].0@ != s[s.len() - 1].0@);
            }
        }
        assert forall|k: Seq<char>| #[trigger] entries_map(s).contains_key(k) implies exists|
            i: int,
        | 0 <= i < s.len() && s[i].0@ == k by {
            if k != s.last().0@ {
                let i = choose|i: int| 0 <= i < p.len() && p[i].0@ == k;
                assert(s[i] == p[i]);
            } else {
                assert(s[s.len() - 1].0@ == k);
            }
        }
        assert(entries_map(s).dom() == m.dom().insert(s.last().0@));
    }
}

/// The bucket of `h`, empty when there is none.
pub open spec fn bucket_of(index: Map<u64, Vec<usize>>, h: u64) -> Seq<usize> {
    if index.contains_key(h) {
        index[h]@
    } else {
        Seq::empty()
    }
}

/// Adds position `p` to the bucket of `h`.
fn add_position(index: &mut HashMap<u64, Vec<usize>>, h: u64, p: usize)
    ensures
        final(index)@ == old(index)@.insert(h, final(index)@[h]),
        final(index)@[h]@ == bucket_of(old(index)@, h).push(p),
{
    let mut bucket = match index.remove(&h) {
        Some(b) => b,
        None => Vec::new(),
    };
    let ghost before = bucket@;
    bucket.push(p);
    let ghost after = bucket;
    index.insert(h, bucket);
    proof {
        assert(final(index)@[h] == after);
        assert(final(index)@ =~= old(index)@.insert(h, after));
    }
}

/// Removes position `p` from the bucket of `h`, which holds it.
fn remove_position(index: &mut HashMap<u64, Vec<usize>>, h: u64, p: usize)
    requires
        old(index)@.contains_key(h),
        old(index)@[h]@.no_duplicates(),
    ensures
        final(index)@ == old(index)@.insert(h, final(index)@[h]),
        final(index)@[h]@.no_duplicates(),
        forall|x: usize| #[trigger] final(index)@[h]@.contains(x) <==> old(index)@[h]@.contains(x) && x != p,
{
    let mut bucket = match index.remove(&h) {
        Some(b) => b,
        None => Vec::new(),
    };
    let ghost before = bucket@;
    let mut j: usize = 0;
    while j < bucket.len() && bucket[j] != p
        invariant
            bucket@ == before,
            j <= bucket@.len(),
            forall|t: int| 0 <= t < j ==> bucket@[t] != p,
        decreases bucket@.len() - j,
    {
        j = j + 1;
    }
    if j < bucket.len() {
        let last = bucket.len() - 1;
        let moved = bucket[last];
        bucket.set(j, moved);
        bucket.pop();
        proof {
            let a = bucket@;
            assert(a =~= before.update(j as int, before[last as int]).drop_last());
            assert forall|x: usize| a.contains(x) <==> before.contains(x) && x != p by {
                if a.contains(x) {
                    let t = choose|t: int| 0 <= t < a.len() && a[t] == x;
                    if t == j {
                        assert(before[last as int] == x);
                        assert(last != j);
                    } else {
                        assert(before[t] == x);
                        assert(t != j);
                    }
                }
                if before.contains(x) && x != p {
                    let t = choose|t: int| 0 <= t < before.len() && before[t] == x;
                    assert(t != j);
                    if t == last {
                        assert(a[j as int] == x);
                    } else {
                        assert(a[t] == x);
                    }
                }
            }
            assert forall|s: int, t: int| 0 <= s < a.len() && 0 <= t < a.len() && s != t implies a[s] != a[t] by {
                let os = if s == j { last as int } else { s };
                let ot = if t == j { last as int } else { t };
                assert(a[s] == before[os]);
                assert(a[t] == before[ot]);
            }
        }
    } else {
        proof {
            assert(before.contains(p) ==> false) by {
                if before.contains(p) {
                    let t = choose|t: int| 0 <= t < before.len() && before[t] == p;
                }
            }
        }
    }
    let ghost after = bucket;
    index.insert(h, bucket);
    proof {
        assert(final(index)@[h] == after);
        assert(final(index)@ =~= old(index)@.insert(h, after));
    }
}

/// Replaces position `from` by `to` in the bucket of `h`, which holds
/// `from` and not `to`.
fn replace_position(index: &mut HashMap<u64, Vec<usize>>, h: u64, from: usize, to: usize)
    requires
        old(index)@.contains_key(h),
        old(index)@[h]@.no_duplicates(),
        !old(index)@[h]@.contains(to),
    ensures
        final(index)@ == old(index)@.insert(h, final(index)@[h]),
        final(index)@[h]@.no_duplicates(),
        forall|x: usize| #[trigger] final(index)@[h]@.contains(x) <==> (old(index)@[h]@.contains(x) && x != from) || (x == to && old(index)@[h]@.contains(from)),
{
    let mut bucket = match index.remove(&h) {
        Some(b) => b,
        None => Vec::new(),
    };
    let ghost before = bucket@;
    let mut j: usize = 0;
    while j < bucket.len() && bucket[j] != from
        invariant
            bucket@ == before,
            j <= bucket@.len(),
            forall|t: int| 0 <= t < j ==> bucket@[t] != from,
        decreases bucket@.len() - j,
    {
        j = j + 1;
    }
    if j < bucket.len() {
        bucket.set(j, to);
        proof {
            let a = bucket@;
            assert forall|x: usize| a.contains(x) <==> (before.contains(x) && x != from) || (x == to && before.contains(from)) by {
                if a.contains(x) {
                    let t = choose|t: int| 0 <= t < a.len() && a[t] == x;
                    if t != j {
                        assert(before[t] == x);
                        assert(before[j as int] == from);
                    }
                }
                if before.contains(x) && x != from {
                    let t = choose|t: int| 0 <= t < before.len() && before[t] == x;
                    assert(t != j);
                    assert(a[t] == x);
                }
                if x == to && before.contains(from) {
                    assert(a[j as int] == to);
                }
            }
            assert forall|s: int, t: int| 0 <= s < a.len() && 0 <= t < a.len() && s != t implies a[s] != a[t] by {
                if s == j {
                    assert(a[t] == before[t]);
                } else if t == j {
                    assert(a[s] == before[s]);
                } else {
                    assert(a[s] == before[s] && a[t] == before[t]);
                }
            }
        }
    } else {
        proof {
            assert(!before.contains(from)) by {
                if before.contains(from) {
                    let t = choose|t: int| 0 <= t < before.len() && before[t] == from;
                }
            }
        }
    }
    let ghost after = bucket;
    index.insert(h, bucket);
    proof {
        assert(final(index)@[h] == after);
        assert(final(index)@ =~= old(index)@.insert(h, after));
    }
}

/// An index locating the entries of `entries`.
fn build_index<V>(entries: &Vec<(String, V)>) -> (r: HashMap<u64, Vec<usize>>)
    ensures
        index_ok(entries@, r@),
{
    let mut index: HashMap<u64, Vec<usize>> = HashMap::new();
    let mut i: usize = 0;
    proof {
        assert(index@ == Map::<u64, Vec<usize>>::empty());
    }
    while i < entries.len()
        invariant
            i <= entries@.len(),
            index_ok(entries@.subrange(0, i as int), index@),
        decreases entries@.len() - i,
    {
        let h = hash_key(entries[i].0.as_str());
        let ghost old_index = index@;
        add_position(&mut index, h, i);
        proof {
            lemma_index_push(entries@.subrange(0, i as int), entries@[i as int], old_index, index@, h);
            assert(entries@.subrange(0, i as int).push(entries@[i as int]) =~= entries@.subrange(0, i + 1));
        }
        i = i + 1;
    }
    proof {
        assert(entries@.subrange(0, entries@.len() as int) =~= entries@);
    }
    index
}

/// Appending an entry and adding its position to its bucket keeps the
/// index right.
proof fn lemma_index_push<V>(
    es: Seq<(String, V)>,
    e: (String, V),
    old_index: Map<u64, Vec<usize>>,
    new_index: Map<u64, Vec<usize>>,
    h: u64,
)
    requires
        index_ok(es, old_index),
        h == key_hash(e.0@),
        es.len() <= usize::MAX,
        new_index == old_index.insert(h, new_index[h]),
        new_index[h]@ == bucket_of(old_index, h).push(es.len() as usize),
    ensures
        index_ok(es.push(e), new_index),
{
    let n = es.len();
    let es2 = es.push(e);
    assert forall|i: int| 0 <= i < es2.len() implies #[trigger] new_index.contains_key(key_hash(es2[i].0@))
        && new_index[key_hash(es2[i].0@)]@.contains(i as usize) by {
        if i < n {
            assert(es2[i] == es[i]);
            let hi = key_hash(es[i].0@);
            assert(old_index.contains_key(key_hash(es[i].0@)));
            assert(old_index[hi]@.contains(i as usize));
            if hi == h {
                let t = choose|t: int| 0 <= t < old_index[h]@.len() && old_index[h]@[t] == i as usize;
                assert(new_index[h]@[t] == i as usize);
            }
        } else {
            assert(new_index[h]@[new_index[h]@.len() - 1] == n as usize);
        }
    }
    assert forall|hh: u64, j: int| #[trigger] new_index.contains_key(hh) && 0 <= j < new_index[hh]@.len() implies (#[trigger] new_index[hh]@[j])
        < es2.len() && key_hash(es2[new_index[hh]@[j] as int].0@) == hh by {
        if hh == h {
            if j < new_index[h]@.len() - 1 {
                assert(old_index.contains_key(h));
                assert(new_index[h]@[j] == old_index[h]@[j]);
                assert(es2[old_index[h]@[j] as int] == es[old_index[h]@[j] as int]);
            }
        } else {
            assert(new_index[hh] == old_index[hh]);
            assert(es2[old_index[hh]@[j] as int] == es[old_index[hh]@[j] as int]);
        }
    }
    assert forall|hh: u64| #[trigger] new_index.contains_key(hh) implies new_index[hh]@.no_duplicates() by {
        if hh == h {
            let b = bucket_of(old_index, h);
            assert forall|s: int, t: int| 0 <= s < b.len() + 1 && 0 <= t < b.len() + 1 && s != t implies new_index[h]@[s] != new_index[h]@[t] by {
                if s < b.len() && t < b.len() {
                    assert(old_index.contains_key(h));
                } else if s == b.len() {
                    assert(old_index.contains_key(h));
                    assert(old_index[h]@[t] < n);
                } else {
                    assert(old_index.contains_key(h));
                    assert(old_index[h]@[s] < n);
                }
            }
        }
    }
}

/// Replacing an entry by one with the same key keeps the index right.
proof fn lemma_index_same_key<V>(es: Seq<(String, V)>, i: int, e: (String, V), idx: Map<u64, Vec<usize>>)
    requires
        index_ok(es, idx),
        0 <= i < es.len(),
        e.0@ == es[i].0@,
    ensures
        index_ok(es.update(i, e), idx),
{
    let es2 = es.update(i, e);
    assert forall|k: int| 0 <= k < es2.len() implies #[trigger] idx.contains_key(key_hash(es2[k].0@))
        && idx[key_hash(es2[k].0@)]@.contains(k as usize) by {
        assert(es2[k].0@ == es[k].0@);
        assert(idx.contains_key(key_hash(es[k].0@)));
    }
    assert forall|h: u64, j: int| #[trigger] idx.contains_key(h) && 0 <= j < idx[h]@.len() implies (#[trigger] idx[h]@[j])
        < es2.len() && key_hash(es2[idx[h]@[j] as int].0@) == h by {
        assert(es2[idx[h]@[j] as int].0@ == es[idx[h]@[j] as int].0@);
    }
}

/// Removing entry `i` by moving the last entry into its place, with the
/// index updated to match, keeps the index right.
proof fn lemma_index_swap_remove<V>(
    es: Seq<(String, V)>,
    i: int,
    idx0: Map<u64, Vec<usize>>,
    idx1: Map<u64, Vec<usize>>,
    idx2: Map<u64, Vec<usize>>,
)
    requires
        index_ok(es, idx0),
        0 <= i < es.len() <= usize::MAX,
        idx1 == idx0.insert(key_hash(es[i].0@), idx1[key_hash(es[i].0@)]),
        idx1[key_hash(es[i].0@)]@.no_duplicates(),
        forall|x: usize| #[trigger] idx1[key_hash(es[i].0@)]@.contains(x) <==> idx0[key_hash(es[i].0@)]@.contains(x) && x != i as usize,
        i == es.len() - 1 ==> idx2 == idx1,
        i < es.len() - 1 ==> {
            let hl = key_hash(es.last().0@);
            &&& idx2 == idx1.insert(hl, idx2[hl])
            &&& idx2[hl]@.no_duplicates()
            &&& forall|x: usize| #[trigger] idx2[hl]@.contains(x) <==> (idx1[hl]@.contains(x) && x != (es.len() - 1) as usize) || (x == i as usize && idx1[hl]@.contains((es.len() - 1) as usize))
        },
    ensures
        index_ok(es.update(i, es.last()).drop_last(), idx2),
{
    let n = es.len();
    let hk = key_hash(es[i].0@);
    let hl = key_hash(es.last().0@);
    let es2 = es.update(i, es.last()).drop_last();
    assert(idx0.contains_key(key_hash(es[i].0@)));
    assert(idx0.contains_key(key_hash(es[n - 1].0@)));
    assert(idx0[hl]@.contains((n - 1) as usize));
    // where a position can be found in the old index
    assert forall|h: u64, x: usize| idx0.contains_key(h) && idx0[h]@.contains(x) implies x < n && key_hash(es[x as int].0@) == h by {
        let t = choose|t: int| 0 <= t < idx0[h]@.len() && idx0[h]@[t] == x;
        assert(idx0[h]@[t] < es.len());
    }
    if i < n - 1 {
        assert(idx1.contains_key(hl));
        if hl == hk {
            assert(idx1[hl]@.contains((n - 1) as usize));
        } else {
            assert(idx1[hl] == idx0[hl]);
        }
    }
    assert forall|k: int| 0 <= k < es2.len() implies #[trigger] idx2.contains_key(key_hash(es2[k].0@))
        && idx2[key_hash(es2[k].0@)]@.contains(k as usize) by {
        if k == i {
            assert(es2[k] == es[n - 1]);
            assert(idx2[hl]@.contains(i as usize));
        } else {
            assert(es2[k] == es[k]);
            let hq = key_hash(es[k].0@);
            assert(idx0.contains_key(key_hash(es[k].0@)));
            assert(idx0[hq]@.contains(k as usize));
            assert(idx1.contains_key(hq));
            if hq == hk {
                assert(idx1[hq]@.contains(k as usize));
            } else {
                assert(idx1[hq] == idx0[hq]);
            }
            if i < n - 1 && hq == hl {
                assert(idx2[hq]@.contains(k as usize));
            } else if i < n - 1 {
                assert(idx2[hq] == idx1[hq]);
            }
        }
    }
    assert forall|h: u64, j: int| #[trigger] idx2.contains_key(h) && 0 <= j < idx2[h]@.len() implies (#[trigger] idx2[h]@[j])
        < es2.len() && key_hash(es2[idx2[h]@[j] as int].0@) == h by {
        let x = idx2[h]@[j];
        assert(idx2[h]@.contains(x));
        if x == i as usize && i < n - 1 && h == hl {
            assert(es2[i] == es[n - 1]);
        } else {
            // x came from the old index, under the same hash
            assert(idx0.contains_key(h) && idx0[h]@.contains(x)) by {
                if i < n - 1 && h == hl {
                    assert(idx1[hl]@.contains(x));
                    if hl == hk {
                        assert(idx0[hk]@.contains(x));
                    } else {
                        assert(idx1[hl] == idx0[hl]);
                    }
                } else {
                    if i < n - 1 {
                        assert(idx2[h] == idx1[h]);
                    }
                    if h == hk {
                        assert(idx0[hk]@.contains(x));
                    } else {
                        assert(idx1[h] == idx0[h]);
                    }
                }
            }
            assert(x < n && key_hash(es[x as int].0@) == h);
            assert(x != i as usize) by {
                if x == i as usize {
                    if h == hk {
                        if i < n - 1 && h == hl {
                        } else {
                            if i < n - 1 {
                                assert(idx2[h] == idx1[h]);
                            }
                            assert(!idx1[hk]@.contains(x));
                        }
                    }
                }
            }
            assert(x != (n - 1) as usize) by {
                if x == (n - 1) as usize && i < n - 1 {
                    assert(h == hl);
                    assert(idx2[hl]@.contains(x));
                }
            }
            assert(es2[x as int] == es[x as int]);
        }
    }
    assert forall|h: u64| #[trigger] idx2.contains_key(h) implies idx2[h]@.no_duplicates() by {
        if i < n - 1 && h == hl {
        } else {
            if i < n - 1 {
                assert(idx2[h] == idx1[h]);
            }
            if h == hk {
            } else {
                assert(idx1[h] == idx0[h]);
            }
        }
    }
}

impl<V: View> View for StrMap<V> {
    type V = Map<Seq<char>, V::V>;

    closed spec fn view(&self) -> Map<Seq<char>, V::V> {
        entries_map(self.entries@)
    }
}

impl<V> StrMap<V> {
    /// The entries in order.
    pub closed spec fn pairs(&self) -> Seq<(String, V)> {
        self.entries@
    }

    /// Keys are distinct and the index locates them.
    pub open spec fn wf(&self) -> bool {
        distinct_keys(self.pairs()) && self.indexed()
    }

    /// The index locates the entries.
    pub closed spec fn indexed(&self) -> bool {
        index_ok(self.entries@, self.index@)
    }
}

impl<V: View> StrMap<V> {
    /// Keys in entry order.
    pub open spec fn keys(&self) -> Seq<Seq<char>> {
        entry_keys(self.pairs())
    }

    /// The model is the map of the entries, later entries winning.
    pub proof fn lemma_pairs_view(&self)
        ensures
            self@ == entries_map(self.pairs()),
    {
    }

    pub proof fn lemma_view(&self)
        requires
            self.wf(),
        ensures
            distinct_keys(self.pairs()),
            self@ == entries_map(self.pairs()),
            forall|i: int| 0 <= i < self.pairs().len() ==> #[trigger] self@.contains_key(
                self.pairs()[i].0@,
            ) && self@[self.pairs()[i].0@] == self.pairs()[i].1@,
            forall|k: Seq<char>| #[trigger] self@.contains_key(k) ==> exists|i: int|
                0 <= i < self.pairs().len() && self.pairs()[i].0@ == k,
            self@.dom().finite(),
            self@.dom().len() == self.pairs().len(),
    {
        lemma_entries_map(self.entries@);
    }

    pub fn new() -> (r: Self)
        ensures
            r.wf(),
            r@ == Map::<Seq<char>, V::V>::empty(),
            r.pairs().len() == 0,
    {
        let r = StrMap { entries: Vec::new(), index: HashMap::new() };
        proof {
            assert(r.index@ == Map::<u64, Vec<usize>>::empty());
        }
        r
    }

    pub fn len(&self) -> (r: usize)
        requires
            self.wf(),
        ensures
            r == self.pairs().len(),
            r == self@.dom().len(),
    {
        proof {
            self.lemma_view();
        }
        self.entries.len()
    }

    pub fn is_empty(&self) -> (r: bool)
        requires
            self.wf(),
        ensures
            r == (self@.dom().len() == 0),
    {
        self.len() == 0
    }

    /// The key and value of the `i`-th entry.
    pub fn entry(&self, i: usize) -> (r: (&String, &V))
        requires
            i < self.pairs().len(),
        ensures
            *r.0 == self.pairs()[i as int].0,
            *r.1 == self.pairs()[i as int].1,
    {
        let e = &self.entries[i];
        (&e.0, &e.1)
    }

    /// Position of `key` among the entries.
    fn find(&self, key: &str) -> (r: Option<usize>)
        requires
            self.indexed(),
        ensures
            r matches Some(i) ==> i < self.entries@.len() && self.entries@[i as int].0@ == key@,
            r is None ==> forall|i: int| 0 <= i < self.entries@.len() ==> self.entries@[i].0@
                != key@,
    {
        let _n = self.entries.len();
        let h = hash_key(key);
        match self.index.get(&h) {
            None => {
                proof {
                    assert forall|i: int| 0 <= i < self.entries@.len() implies self.entries@[i].0@ != key@ by {
                        if self.entries@[i].0@ == key@ {
                            assert(self.index@.contains_key(key_hash(self.entries@[i].0@)));
                        }
                    }
                }
                None
            },
            Some(bucket) => {
                let mut j: usize = 0;
                while j < bucket.len()
                    invariant
                        self.indexed(),
                        _n == self.entries@.len(),
                        self.index@.contains_key(h),
                        self.index@[h] == *bucket,
                        h == key_hash(key@),
                        j <= bucket@.len(),
                        forall|t: int| 0 <= t < j ==> self.entries@[bucket@[t] as int].0@ != key@,
                    decreases bucket@.len() - j,
                {
                    let p = bucket[j];
                    proof {
                        assert(self.index@[h]@[j as int] == p);
                    }
                    if str_eq(self.entries[p].0.as_str(), key) {
                        return Some(p);
                    }
                    j = j + 1;
                }
                proof {
                    assert forall|i: int| 0 <= i < self.entries@.len() implies self.entries@[i].0@ != key@ by {
                        if self.entries@[i].0@ == key@ {
                            assert(self.index@.contains_key(key_hash(self.entries@[i].0@)));
                            assert(self.index@[h]@.contains(i as usize));
                            let t = choose|t: int| 0 <= t < bucket@.len() && bucket@[t] == i as usize;
                            assert(bucket@[t] as int == i);
                            assert(self.entries@[bucket@[t] as int].0@ != key@);
                        }
                    }
                }
                None
            },
        }
    }

    pub fn contains_key(&self, key: &str) -> (r: bool)
        requires
            self.wf(),
        ensures
            r == self@.contains_key(key@),
    {
        proof {
            self.lemma_view();
        }
        self.find(key).is_some()
    }

    pub fn get(&self, key: &str) -> (r: Option<&V>)
        requires
            self.wf(),
        ensures
            r is Some <==> self@.contains_key(key@),
            r matches Some(v) ==> v@ == self@[key@],
            r matches Some(v) ==> exists|i: int|
                0 <= i < self.pairs().len() && self.pairs()[i].0@ == key@ && self.pairs()[i].1 == *v,
    {
        proof {
            self.lemma_view();
        }
        match self.find(key) {
            Some(i) => {
                proof {
                    assert(self@.contains_key(self.pairs()[i as int].0@));
                }
                Some(&self.entries[i].1)
            },
            None => None,
        }
    }

    /// Insert or replace. A replaced key keeps its position.
    pub fn insert(&mut self, key: String, value: V)
        requires
            old(self).wf(),
        ensures
            final(self).wf(),
            final(self)@ == old(self)@.insert(key@, value@),
            final(self).pairs().len() >= old(self).pairs().len(),
            forall|i: int| 0 <= i < final(self).pairs().len() ==> (i < old(self).pairs().len()
                && #[trigger] final(self).pairs()[i] == old(self).pairs()[i])
                || final(self).pairs()[i] == (key, value),
            old(self)@.contains_key(key@) ==> final(self).keys() == old(self).keys(),
            !old(self)@.contains_key(key@) ==> final(self).keys() == old(self).keys().push(key@),
    {
        proof {
            self.lemma_view();
        }
        let ghost old_entries = self.entries@;
        match self.find(key.as_str()) {
            Some(i) => {
                let ghost kv = key@;
                let ghost vv = value@;
                let mut entries: Vec<(String, V)> = Vec::new();
                std::mem::swap(&mut entries, &mut self.entries);
                let ghost pair = (key, value);
                entries.set(i, (key, value));
                let ghost new_entries = entries@;
                proof {
                    assert(new_entries == old_entries.update(i as int, pair));
                    lemma_index_same_key(old_entries, i as int, pair, self.index@);
                }
                assert(distinct_keys(new_entries)) by {
                    assert forall|a: int, b: int| 0 <= a < b < new_entries.len() implies new_entries[a].0@
                        != new_entries[b].0@ by {
                        if a != i && b != i {
                            assert(new_entries[a] == old_entries[a]);
                            assert(new_entries[b] == old_entries[b]);
                        }
                    }
                }
                self.entries = entries;
                proof {
                    lemma_entries_map(new_entries);
                    lemma_entries_map(old_entries);
                    let m1 = entries_map(new_entries);
                    let m2 = entries_map(old_entries).insert(kv, vv);
                    assert(new_entries[i as int].0@ == kv);
                    assert(m1.contains_key(new_entries[i as int].0@));
                    assert forall|k: Seq<char>| m1.contains_key(k) <==> m2.contains_key(k) by {
                        if m1.contains_key(k) {
                            let j = choose|j: int| 0 <= j < new_entries.len() && new_entries[j].0@ == k;
                            if j != i {
                                assert(old_entries[j] == new_entries[j]);
                                assert(entries_map(old_entries).contains_key(old_entries[j].0@));
                            }
                        }
                        if m2.contains_key(k) && k != kv {
                            let j = choose|j: int| 0 <= j < old_entries.len() && old_entries[j].0@ == k;
                            assert(new_entries[j] == old_entries[j]);
                            assert(m1.contains_key(new_entries[j].0@));
                        }
                    }
                    assert forall|k: Seq<char>| m1.contains_key(k) implies m1[k] == m2[k] by {
                        let j = choose|j: int| 0 <= j < new_entries.len() && new_entries[j].0@ == k;
                        if j != i {
                            assert(old_entries[j] == new_entries[j]);
                        }
                    }
                    assert(m1 =~= m2);
                    assert(entry_keys(new_entries) =~= entry_keys(old_entries));
                }
            },
            None => {
                let ghost kv = key@;
                let ghost vv = value@;
                let h = hash_key(key.as_str());
                let n = self.entries.len();
                let ghost old_index = self.index@;
                add_position(&mut self.index, h, n);
                let mut entries: Vec<(String, V)> = Vec::new();
                std::mem::swap(&mut entries, &mut self.entries);
                let ghost pair = (key, value);
                entries.push((key, value));
                let ghost new_entries = entries@;
                proof {
                    lemma_index_push(old_entries, pair, old_index, self.index@, h);
                    assert(new_entries == old_entries.push(pair));
                }
                assert(new_entries.drop_last() == old_entries);
                assert(distinct_keys(new_entries)) by {
                    assert forall|a: int, b: int| 0 <= a < b < new_entries.len() implies new_entries[a].0@
                        != new_entries[b].0@ by {
                        if b < new_entries.len() - 1 {
                            assert(new_entries[a] == old_entries[a]);
                            assert(new_entries[b] == old_entries[b]);
                        } else {
                            assert(new_entries[a] == old_entries[a]);
                        }
                    }
                }
                self.entries = entries;
                proof {
                    assert(entry_keys(new_entries) =~= entry_keys(old_entries).push(kv));
                }
            },
        }
    }

    /// Remove a key, handing back its value. The last entry takes its
    /// place.
    pub fn remove(&mut self, key: &str) -> (r: Option<V>)
        requires
            old(self).wf(),
        ensures
            final(self).wf(),
            r is Some <==> old(self)@.contains_key(key@),
            r matches Some(v) ==> v@ == old(self)@[key@],
            final(self)@ == old(self)@.remove(key@),
    {
        proof {
            self.lemma_view();
        }
        let ghost old_entries = self.entries@;
        match self.find(key) {
            Some(i) => {
                let n = self.entries.len();
                let last = n - 1;
                let hk = hash_key(key);
                let ghost idx0 = self.index@;
                proof {
                    assert(self.index@.contains_key(key_hash(old_entries[i as int].0@)));
                }
                remove_position(&mut self.index, hk, i);
                let ghost idx1 = self.index@;
                if i != last {
                    let hl = hash_key(self.entries[last].0.as_str());
                    proof {
                        assert(idx0.contains_key(key_hash(old_entries[last as int].0@)));
                        assert(idx0[hl]@.contains(last));
                        if hl == hk {
                            assert(idx1[hl]@.contains(last));
                        } else {
                            assert(idx1[hl] == idx0[hl]);
                        }
                        assert(!idx1[hl]@.contains(i)) by {
                            if idx1[hl]@.contains(i) {
                                if hl == hk {
                                } else {
                                    assert(idx0[hl]@.contains(i));
                                    let t = choose|t: int| 0 <= t < idx0[hl]@.len() && idx0[hl]@[t] == i;
                                    assert(key_hash(old_entries[idx0[hl]@[t] as int].0@) == hl);
                                }
                            }
                        }
                    }
                    replace_position(&mut self.index, hl, last, i);
                }
                let mut entries: Vec<(String, V)> = Vec::new();
                std::mem::swap(&mut entries, &mut self.entries);
                let (_k, v) = entries.swap_remove(i);
                let ghost new_entries = entries@;
                proof {
                    lemma_index_swap_remove(old_entries, i as int, idx0, idx1, self.index@);
                    assert(new_entries == old_entries.update(i as int, old_entries.last()).drop_last());
                }
                assert(distinct_keys(new_entries)) by {
                    assert forall|a: int, b: int| 0 <= a < b < new_entries.len() implies new_entries[a].0@
                        != new_entries[b].0@ by {
                        let oa = if a == i { last as int } else { a };
                        let ob = if b == i { last as int } else { b };
                        assert(new_entries[a] == old_entries[oa]);
                        assert(new_entries[b] == old_entries[ob]);
                    }
                }
                self.entries = entries;
                proof {
                    lemma_entries_map(new_entries);
                    lemma_entries_map(old_entries);
                    let m1 = entries_map(new_entries);
                    let m2 = entries_map(old_entries).remove(key@);
                    assert forall|k: Seq<char>| m1.contains_key(k) <==> m2.contains_key(k) by {
                        if m1.contains_key(k) {
                            let j = choose|j: int| 0 <= j < new_entries.len() && new_entries[j].0@ == k;
                            let oj = if j == i { last as int } else { j };
                            assert(new_entries[j] == old_entries[oj]);
                            assert(oj != i);
                        }
                        if m2.contains_key(k) {
                            let j = choose|j: int| 0 <= j < old_entries.len() && old_entries[j].0@ == k;
                            assert(j != i);
                            let nj = if j == last { i as int } else { j };
                            assert(new_entries[nj] == old_entries[j]);
                        }
                    }
                    assert forall|k: Seq<char>| m1.contains_key(k) implies m1[k] == m2[k] by {
                        let j = choose|j: int| 0 <= j < new_entries.len() && new_entries[j].0@ == k;
                        let oj = if j == i { last as int } else { j };
                        assert(new_entries[j] == old_entries[oj]);
                    }
                    assert(m1 =~= m2);
                }
                Some(v)
            },
            None => {
                proof {
                    assert(self@.remove(key@) =~= self@);
                }
                None
            },
        }
    }
}

impl<V: Duplicate> StrMap<V> {
    /// A copy with the same entries in the same order.
    pub fn duplicate(&self) -> (r: Self)
        ensures
            self.wf() ==> r.wf(),
            r@ == self@,
            r.keys() == self.keys(),
            r.pairs().len() == self.pairs().len(),
            forall|i: int| 0 <= i < self.pairs().len() ==> #[trigger] r.pairs()[i].1@ == self.pairs()[i].1@,
    {
        let mut entries: Vec<(String, V)> = Vec::new();
        let mut i: usize = 0;
        while i < self.entries.len()
            invariant
                i <= self.entries@.len(),
                entries@.len() == i,
                forall|j: int| 0 <= j < i ==> (#[trigger] entries@[j]).0@ == self.entries@[j].0@
                    && entries@[j].1@ == self.entries@[j].1@,
            decreases self.entries@.len() - i,
        {
            let k = self.entries[i].0.clone();
            let v = self.entries[i].1.duplicate();
            entries.push((k, v));
            i = i + 1;
        }
        proof {
            assert forall|j: int| 0 <= j < self.entries@.len() implies #[trigger] entries@[j].1@ == self.entries@[j].1@ && entries@[j].0@ == self.entries@[j].0@ by {
                assert(entries@[j].0@ == self.entries@[j].0@);
            }
            lemma_entries_map_ext(entries@, self.entries@);
            assert(entry_keys(entries@) =~= entry_keys(self.entries@));
            assert(distinct_keys(self.entries@) ==> distinct_keys(entries@));
        }
        let index = build_index(&entries);
        StrMap { entries, index }
    }
}

pub proof fn lemma_entries_map_ext<V: View>(a: Seq<(String, V)>, b: Seq<(String, V)>)
    requires
        a.len() == b.len(),
        forall|j: int| 0 <= j < a.len() ==> #[trigger] a[j].0@ == b[j].0@ && a[j].1@ == b[j].1@,
    ensures
        entries_map(a) == entries_map(b),
    decreases a.len(),
{
    if a.len() > 0 {
        lemma_entries_map_ext(a.drop_last(), b.drop_last());
    }
}

} // verus!
