//! The uniform table contract: a key/value store with byte-encoded keys.
//!
//! `KvStore` keeps its entries strictly sorted by lexicographic key order and
//! offers the three operations every table of this layer is built on: point
//! lookup, upserting insert that returns the previous value, and ranged,
//! directional key iteration resumable from an explicit cursor.

use vstd::prelude::*;

use crate::bytes::KeyCmp;
use crate::bytes::bytes_eq;
use crate::bytes::copy_bytes;
use crate::bytes::has_prefix;
use crate::bytes::lemma_lex_asym;
use crate::bytes::lemma_lex_connected;
use crate::bytes::lemma_lex_irrefl;
use crate::bytes::lemma_lex_trans;
use crate::bytes::lex_cmp;
use crate::bytes::lex_less;
use crate::bytes::strictly_sorted;

verus! {

/// Direction of a range iteration over the key order.
#[derive(Clone, Copy, Debug, PartialEq, Eq, Structural)]
pub enum IterDirection {
    Forward,
    Reverse,
}

/// The views of a sequence of byte vectors.
pub open spec fn views_of(s: Seq<Vec<u8>>) -> Seq<Seq<u8>> {
    Seq::new(s.len(), |i: int| s[i]@)
}

/// Whether key `k` belongs to the range selected by `prefix`, the cursor
/// `start_after` (exclusive), and the direction of travel.
pub open spec fn selected(
    prefix: Seq<u8>,
    start_after: Option<Seq<u8>>,
    descending: bool,
    k: Seq<u8>,
) -> bool {
    prefix.is_prefix_of(k) && match start_after {
        Option::None => true,
        Option::Some(c) => if descending {
            lex_less(k, c)
        } else {
            lex_less(c, k)
        },
    }
}

/// The subsequence of `keys` selected by `prefix`, `start_after` and the
/// direction, in the order in which the keys appear in `keys`.
pub open spec fn select_keys(
    keys: Seq<Seq<u8>>,
    prefix: Seq<u8>,
    start_after: Option<Seq<u8>>,
    descending: bool,
) -> Seq<Seq<u8>>
    decreases keys.len(),
{
    if keys.len() == 0 {
        Seq::empty()
    } else {
        let rest = select_keys(keys.drop_last(), prefix, start_after, descending);
        if selected(prefix, start_after, descending, keys.last()) {
            rest.push(keys.last())
        } else {
            rest
        }
    }
}

/// The view of an optional borrowed cursor key.
pub open spec fn cursor_view(c: Option<&Vec<u8>>) -> Option<Seq<u8>> {
    match c {
        Option::None => Option::None,
        Option::Some(v) => Option::Some(v@),
    }
}

/// Every selected key is a member of `keys` and satisfies the selection;
/// every member of `keys` satisfying the selection appears among the
/// selected keys.
pub proof fn lemma_select_membership(
    keys: Seq<Seq<u8>>,
    prefix: Seq<u8>,
    start_after: Option<Seq<u8>>,
    descending: bool,
)
    ensures
        ({
            let sel = select_keys(keys, prefix, start_after, descending);
            &&& forall|i: int|
                0 <= i < sel.len() ==> keys.contains(#[trigger] sel[i]) && selected(
                    prefix,
                    start_after,
                    descending,
                    sel[i],
                )
            &&& forall|j: int|
                0 <= j < keys.len() && selected(prefix, start_after, descending, #[trigger] keys[j])
                    ==> sel.contains(keys[j])
        }),
    decreases keys.len(),
{
    if keys.len() > 0 {
        let kd = keys.drop_last();
        lemma_select_membership(kd, prefix, start_after, descending);
        let sel = select_keys(keys, prefix, start_after, descending);
        let seld = select_keys(kd, prefix, start_after, descending);
        assert forall|i: int| 0 <= i < sel.len() implies keys.contains(#[trigger] sel[i])
            && selected(prefix, start_after, descending, sel[i]) by {
            if i < seld.len() {
                assert(seld[i] == sel[i]);
                let w = choose|w: int| 0 <= w < kd.len() && kd[w] == seld[i];
                assert(keys[w] == sel[i]);
            } else {
                assert(sel[i] == keys.last());
                assert(keys[keys.len() - 1] == keys.last());
            }
        }
        assert forall|j: int|
            0 <= j < keys.len() && selected(prefix, start_after, descending, #[trigger] keys[j])
            implies sel.contains(keys[j]) by {
            if j < keys.len() - 1 {
                assert(kd[j] == keys[j]);
                assert(seld.contains(keys[j]));
                let w = choose|w: int| 0 <= w < seld.len() && seld[w] == keys[j];
                assert(sel[w] == keys[j]);
            } else {
                assert(sel[sel.len() - 1] == keys.last());
            }
        }
    }
}

/// Selecting from a strictly sorted key sequence yields a strictly sorted
/// result: range iteration never reorders, duplicates or invents keys.
pub proof fn lemma_select_sorted(
    keys: Seq<Seq<u8>>,
    prefix: Seq<u8>,
    start_after: Option<Seq<u8>>,
    descending: bool,
)
    requires
        strictly_sorted(keys),
    ensures
        strictly_sorted(select_keys(keys, prefix, start_after, descending)),
    decreases keys.len(),
{
    if keys.len() > 0 {
        let kd = keys.drop_last();
        assert(strictly_sorted(kd));
        lemma_select_sorted(kd, prefix, start_after, descending);
        lemma_select_membership(kd, prefix, start_after, descending);
        let sel = select_keys(keys, prefix, start_after, descending);
        let seld = select_keys(kd, prefix, start_after, descending);
        if selected(prefix, start_after, descending, keys.last()) {
            assert forall|i: int, j: int| 0 <= i < j < sel.len() implies lex_less(
                #[trigger] sel[i],
                #[trigger] sel[j],
            ) by {
                if j < sel.len() - 1 {
                    assert(sel[i] == seld[i]);
                    assert(sel[j] == seld[j]);
                } else {
                    assert(sel[j] == keys.last());
                    assert(sel[i] == seld[i]);
                    assert(kd.contains(seld[i]));
                    let w = choose|w: int| 0 <= w < kd.len() && kd[w] == seld[i];
                    assert(keys[w] == seld[i]);
                    assert(lex_less(keys[w], keys[keys.len() - 1]));
                }
            }
        }
    }
}

/// The subsequence of `f` whose keys lie strictly above the cursor `c`.
pub open spec fn keys_above(f: Seq<Seq<u8>>, c: Seq<u8>) -> Seq<Seq<u8>>
    decreases f.len(),
{
    if f.len() == 0 {
        Seq::empty()
    } else {
        let rest = keys_above(f.drop_last(), c);
        if lex_less(c, f.last()) {
            rest.push(f.last())
        } else {
            rest
        }
    }
}

/// The subsequence of `f` whose keys lie strictly below the cursor `c`.
pub open spec fn keys_below(f: Seq<Seq<u8>>, c: Seq<u8>) -> Seq<Seq<u8>>
    decreases f.len(),
{
    if f.len() == 0 {
        Seq::empty()
    } else {
        let rest = keys_below(f.drop_last(), c);
        if lex_less(f.last(), c) {
            rest.push(f.last())
        } else {
            rest
        }
    }
}

/// Selecting with a cursor equals selecting without one and then keeping only
/// the keys past the cursor in the direction of travel.
pub proof fn lemma_select_cursor_split(
    keys: Seq<Seq<u8>>,
    prefix: Seq<u8>,
    c: Seq<u8>,
    descending: bool,
)
    ensures
        select_keys(keys, prefix, Option::Some(c), descending) == if descending {
            keys_below(select_keys(keys, prefix, Option::None, descending), c)
        } else {
            keys_above(select_keys(keys, prefix, Option::None, descending), c)
        },
    decreases keys.len(),
{
    if keys.len() > 0 {
        lemma_select_cursor_split(keys.drop_last(), prefix, c, descending);
        let base = select_keys(keys, prefix, Option::None, descending);
        let based = select_keys(keys.drop_last(), prefix, Option::None, descending);
        if selected(prefix, Option::None, descending, keys.last()) {
            assert(base == based.push(keys.last()));
            assert(base.drop_last() =~= based);
            assert(base.last() == keys.last());
        }
    }
}

/// In a strictly sorted sequence, the keys above the element at position `m`
/// are exactly the suffix that follows it.
pub proof fn lemma_keys_above_skip(f: Seq<Seq<u8>>, m: int)
    requires
        strictly_sorted(f),
        0 <= m < f.len(),
    ensures
        keys_above(f, f[m]) == f.skip(m + 1),
    decreases f.len(),
{
    if m == f.len() - 1 {
        lemma_lex_irrefl(f.last());
        assert forall|i: int| 0 <= i < f.drop_last().len() implies !lex_less(
            f[m],
            #[trigger] f.drop_last()[i],
        ) by {
            assert(f.drop_last()[i] == f[i]);
            assert(lex_less(f[i], f[m]));
            lemma_lex_asym(f[i], f[m]);
        }
        lemma_keys_above_empty(f.drop_last(), f[m]);
        assert(f.skip(m + 1) =~= Seq::<Seq<u8>>::empty());
    } else {
        let fd = f.drop_last();
        assert(strictly_sorted(fd));
        assert(fd[m] == f[m]);
        lemma_keys_above_skip(fd, m);
        assert(lex_less(f[m], f.last()));
        assert(keys_above(f, f[m]) == fd.skip(m + 1).push(f.last()));
        assert(fd.skip(m + 1).push(f.last()) =~= f.skip(m + 1));
    }
}

/// No key of `f` lies above `c`: the selection above `c` is empty.
proof fn lemma_keys_above_empty(f: Seq<Seq<u8>>, c: Seq<u8>)
    requires
        forall|i: int| 0 <= i < f.len() ==> !lex_less(c, #[trigger] f[i]),
    ensures
        keys_above(f, c) == Seq::<Seq<u8>>::empty(),
    decreases f.len(),
{
    if f.len() > 0 {
        assert(f[f.len() - 1] == f.last());
        lemma_keys_above_empty(f.drop_last(), c);
    }
}

/// In a strictly sorted sequence, the keys below the element at position `m`
/// are exactly the prefix that precedes it.
pub proof fn lemma_keys_below_take(f: Seq<Seq<u8>>, m: int)
    requires
        strictly_sorted(f),
        0 <= m < f.len(),
    ensures
        keys_below(f, f[m]) == f.take(m),
    decreases f.len(),
{
    if m == f.len() - 1 {
        lemma_lex_irrefl(f.last());
        let fd = f.drop_last();
        assert(strictly_sorted(fd));
        lemma_keys_below_all(fd, f[m]);
        assert(keys_below(f, f[m]) == keys_below(fd, f[m]));
        assert(fd =~= f.take(m));
    } else {
        let fd = f.drop_last();
        assert(strictly_sorted(fd));
        assert(fd[m] == f[m]);
        lemma_keys_below_take(fd, m);
        assert(lex_less(f[m], f.last()));
        lemma_lex_asym(f[m], f.last());
        assert(keys_below(f, f[m]) == fd.take(m));
        assert(fd.take(m) =~= f.take(m));
    }
}

/// Every key of `f` lies below `c`: the selection below `c` is all of `f`.
proof fn lemma_keys_below_all(f: Seq<Seq<u8>>, c: Seq<u8>)
    requires
        forall|i: int| 0 <= i < f.len() ==> lex_less(#[trigger] f[i], c),
    ensures
        keys_below(f, c) == f,
    decreases f.len(),
{
    if f.len() > 0 {
        assert(f[f.len() - 1] == f.last());
        lemma_keys_below_all(f.drop_last(), c);
        assert(f.drop_last().push(f.last()) =~= f);
    }
}

/// A store of byte-keyed entries, kept strictly sorted by key.
pub struct KvStore<V> {
    entries: Vec<(Vec<u8>, V)>,
}

impl<V> View for KvStore<V> {
    type V = Map<Seq<u8>, V>;

    closed spec fn view(&self) -> Map<Seq<u8>, V> {
        Map::new(
            |k: Seq<u8>| self.key_seq().contains(k),
            |k: Seq<u8>| self.entries@[self.key_seq().index_of(k)].1,
        )
    }
}

impl<V> KvStore<V> {
    /// The keys of the store, in storage order.
    pub closed spec fn key_seq(self) -> Seq<Seq<u8>> {
        Seq::new(self.entries@.len(), |i: int| self.entries@[i].0@)
    }

    /// Well-formed: keys are strictly sorted, hence unique.
    pub closed spec fn wf(self) -> bool {
        strictly_sorted(self.key_seq())
    }

    /// The key sequence is sorted and enumerates exactly the domain of the map.
    pub proof fn lemma_keys(self)
        requires
            self.wf(),
        ensures
            strictly_sorted(self.key_seq()),
            forall|k: Seq<u8>| self@.dom().contains(k) <==> self.key_seq().contains(k),
    {
    }

    /// Under well-formedness, the entry at index `i` is the authoritative
    /// binding for its key.
    proof fn lemma_at_index(self, i: int)
        requires
            self.wf(),
            0 <= i < self.key_seq().len(),
        ensures
            self@.dom().contains(self.key_seq()[i]),
            self@[self.key_seq()[i]] == self.entries@[i].1,
    {
        let k = self.key_seq()[i];
        assert(self.key_seq().contains(k));
        let j = self.key_seq().index_of(k);
        assert(0 <= j < self.key_seq().len() && self.key_seq()[j] == k);
        if i != j {
            if i < j {
                assert(lex_less(self.key_seq()[i], self.key_seq()[j]));
            } else {
                assert(lex_less(self.key_seq()[j], self.key_seq()[i]));
            }
            lemma_lex_irrefl(k);
        }
    }

    /// Creates an empty store.
    pub fn new() -> (r: Self)
        ensures
            r.wf(),
            r@ == Map::<Seq<u8>, V>::empty(),
            r.key_seq() == Seq::<Seq<u8>>::empty(),
    {
        let r = KvStore { entries: Vec::new() };
        proof {
            assert(r.key_seq() =~= Seq::<Seq<u8>>::empty());
            assert(r@ =~= Map::<Seq<u8>, V>::empty());
        }
        r
    }

    /// Point lookup: returns the value bound to `key`, if any.
    pub fn get(&self, key: &Vec<u8>) -> (r: Option<&V>)
        requires
            self.wf(),
        ensures
            match r {
                Option::Some(v) => self@.dom().contains(key@) && *v == self@[key@],
                Option::None => !self@.dom().contains(key@),
            },
    {
        let mut i: usize = 0;
        let n = self.entries.len();
        while i < n
            invariant
                self.wf(),
                i <= n,
                n == self.entries@.len(),
                forall|j: int| 0 <= j < i ==> #[trigger] self.key_seq()[j] != key@,
            decreases n - i,
        {
            let e = &self.entries[i];
            if bytes_eq(&e.0, key) {
                proof {
                    assert(self.key_seq()[i as int] == key@);
                    self.lemma_at_index(i as int);
                }
                return Some(&e.1);
            }
            proof {
                assert(self.key_seq()[i as int] == e.0@);
            }
            i += 1;
        }
        proof {
            if self.key_seq().contains(key@) {
                let w = choose|w: int|
                    0 <= w < self.key_seq().len() && self.key_seq()[w] == key@;
                assert(self.key_seq()[w] != key@);
            }
        }
        None
    }

    /// The index of the first key not below `key`; all earlier keys are below.
    fn position_for(&self, key: &Vec<u8>) -> (i: usize)
        requires
            self.wf(),
        ensures
            i <= self.entries@.len(),
            forall|j: int| 0 <= j < i ==> lex_less(#[trigger] self.key_seq()[j], key@),
            i < self.entries@.len() ==> !lex_less(self.key_seq()[i as int], key@),
    {
        let mut i: usize = 0;
        let n = self.entries.len();
        loop
            invariant
                self.wf(),
                i <= n,
                n == self.entries@.len(),
                forall|j: int| 0 <= j < i ==> lex_less(#[trigger] self.key_seq()[j], key@),
            ensures
                i <= self.entries@.len(),
                forall|j: int| 0 <= j < i ==> lex_less(#[trigger] self.key_seq()[j], key@),
                i < self.entries@.len() ==> !lex_less(self.key_seq()[i as int], key@),
            decreases n - i,
        {
            if i == n {
                break;
            }
            let e = &self.entries[i];
            let c = lex_cmp(&e.0, key);
            proof {
                assert(self.key_seq()[i as int] == e.0@);
            }
            match c {
                KeyCmp::Less => {
                    i += 1;
                },
                _ => {
                    break;
                },
            }
        }
        i
    }

    /// Upsert: binds `key` to `value` and returns the previously bound value,
    /// if the key was already present.
    pub fn insert(&mut self, key: Vec<u8>, value: V) -> (prev: Option<V>)
        requires
            old(self).wf(),
        ensures
            final(self).wf(),
            final(self)@ == old(self)@.insert(key@, value),
            match prev {
                Option::Some(v) => old(self)@.dom().contains(key@) && v == old(self)@[key@],
                Option::None => !old(self)@.dom().contains(key@),
            },
    {
        let ghost old_self = *self;
        let i = self.position_for(&key);
        let n = self.entries.len();
        let mut replace = false;
        if i < n {
            let e = &self.entries[i];
            proof {
                assert(self.key_seq()[i as int] == e.0@);
            }
            if bytes_eq(&e.0, &key) {
                replace = true;
            }
        }
        if replace {
            proof {
                assert(old_self.key_seq()[i as int] == key@);
                old_self.lemma_at_index(i as int);
            }
            let old_pair = self.entries.remove(i);
            self.entries.insert(i, (key, value));
            proof {
                assert(self.key_seq() =~= old_self.key_seq());
                assert(self.wf());
                assert forall|k: Seq<u8>| true implies self@.dom().contains(k)
                    == old_self@.insert(old_pair.0@, value).dom().contains(k) by {}
                assert forall|k: Seq<u8>| self@.dom().contains(k) implies self@[k]
                    == old_self@.insert(old_pair.0@, value)[k] by {
                    let j = self.key_seq().index_of(k);
                    assert(0 <= j < self.key_seq().len() && self.key_seq()[j] == k);
                    self.lemma_at_index(j);
                    if j == i {
                        assert(self@[k] == value);
                    } else {
                        assert(self.entries@[j] == old_self.entries@[j]);
                        old_self.lemma_at_index(j);
                        if k == old_pair.0@ {
                            assert(old_self.key_seq()[j] == old_self.key_seq()[i as int]);
                            if j < i {
                                assert(lex_less(old_self.key_seq()[j], old_self.key_seq()[i as int]));
                            } else {
                                assert(lex_less(old_self.key_seq()[i as int], old_self.key_seq()[j]));
                            }
                            lemma_lex_irrefl(k);
                        }
                    }
                }
                assert(self@ =~= old_self@.insert(old_pair.0@, value));
            }
            Some(old_pair.1)
        } else {
            proof {
                // The key is new: no index holds it.
                assert forall|j: int| 0 <= j < old_self.key_seq().len() implies #[trigger] old_self
                    .key_seq()[j] != key@ by {
                    if j < i {
                        assert(lex_less(old_self.key_seq()[j], key@));
                        lemma_lex_irrefl(key@);
                    } else if j == i {
                        assert(old_self.key_seq()[i as int] != key@);
                    } else {
                        assert(lex_less(old_self.key_seq()[i as int], old_self.key_seq()[j]));
                        lemma_lex_connected(old_self.key_seq()[i as int], key@);
                        if old_self.key_seq()[i as int] == key@ {
                            assert(false);
                        }
                        assert(lex_less(key@, old_self.key_seq()[i as int]));
                        lemma_lex_trans(key@, old_self.key_seq()[i as int], old_self.key_seq()[j]);
                        lemma_lex_irrefl(key@);
                    }
                }
                if old_self.key_seq().contains(key@) {
                    let w = choose|w: int|
                        0 <= w < old_self.key_seq().len() && old_self.key_seq()[w] == key@;
                    assert(false);
                }
            }
            let ghost keyv = key@;
            self.entries.insert(i, (key, value));
            proof {
                let ks = old_self.key_seq();
                let nks = self.key_seq();
                assert(nks =~= ks.insert(i as int, keyv));
                // The new key sequence is strictly sorted.
                assert forall|p: int, q: int| 0 <= p < q < nks.len() implies lex_less(
                    #[trigger] nks[p],
                    #[trigger] nks[q],
                ) by {
                    let ii = i as int;
                    if p < ii && q == ii {
                        assert(nks[p] == ks[p]);
                        assert(lex_less(ks[p], keyv));
                    } else if p < ii && q > ii {
                        assert(nks[p] == ks[p]);
                        assert(nks[q] == ks[q - 1]);
                    } else if p == ii {
                        assert(nks[q] == ks[q - 1]);
                        assert(!lex_less(ks[ii], keyv));
                        assert(ks[ii] != keyv);
                        lemma_lex_connected(ks[ii], keyv);
                        assert(lex_less(keyv, ks[ii]));
                        if q - 1 > ii {
                            assert(lex_less(ks[ii], ks[q - 1]));
                            lemma_lex_trans(keyv, ks[ii], ks[q - 1]);
                        }
                    } else if p > ii {
                        assert(nks[p] == ks[p - 1]);
                        assert(nks[q] == ks[q - 1]);
                    } else {
                        assert(nks[p] == ks[p]);
                        assert(nks[q] == ks[q]);
                    }
                }
                assert(self.wf());
                // The new map is the old one plus the new binding.
                assert forall|k: Seq<u8>| true implies self@.dom().contains(k) == old_self@.insert(
                    keyv,
                    value,
                ).dom().contains(k) by {
                    if k == keyv {
                        assert(nks[i as int] == keyv);
                        assert(nks.contains(keyv));
                    } else {
                        if nks.contains(k) {
                            let w = choose|w: int| 0 <= w < nks.len() && nks[w] == k;
                            if w < i as int {
                                assert(ks[w] == k);
                                assert(ks.contains(k));
                            } else {
                                assert(ks[w - 1] == k);
                                assert(ks.contains(k));
                            }
                        }
                        if ks.contains(k) {
                            let w = choose|w: int| 0 <= w < ks.len() && ks[w] == k;
                            if w < i as int {
                                assert(nks[w] == k);
                            } else {
                                assert(nks[w + 1] == k);
                            }
                            assert(nks.contains(k));
                        }
                    }
                }
                assert forall|k: Seq<u8>| self@.dom().contains(k) implies self@[k]
                    == old_self@.insert(keyv, value)[k] by {
                    let j = nks.index_of(k);
                    assert(0 <= j < nks.len() && nks[j] == k);
                    self.lemma_at_index(j);
                    if j == i as int {
                        assert(self@[k] == value);
                        assert(k == keyv);
                    } else if j < i as int {
                        assert(self.entries@[j] == old_self.entries@[j]);
                        old_self.lemma_at_index(j);
                        assert(k != keyv);
                    } else {
                        assert(self.entries@[j] == old_self.entries@[j - 1]);
                        old_self.lemma_at_index(j - 1);
                        assert(k != keyv);
                    }
                }
                assert(self@ =~= old_self@.insert(keyv, value));
            }
            None
        }
    }

    /// Ranged, directional iteration: all keys extending `prefix`, strictly
    /// past the `start_after` cursor in the direction of travel, in ascending
    /// key order for `Forward` and descending order for `Reverse`.
    pub fn range_keys(
        &self,
        prefix: &Vec<u8>,
        start_after: Option<&Vec<u8>>,
        direction: IterDirection,
    ) -> (r: Vec<Vec<u8>>)
        requires
            self.wf(),
        ensures
            ({
                let sel = select_keys(
                    self.key_seq(),
                    prefix@,
                    cursor_view(start_after),
                    direction == IterDirection::Reverse,
                );
                views_of(r@) == if direction == IterDirection::Reverse {
                    sel.reverse()
                } else {
                    sel
                }
            }),
    {
        let ghost startg = cursor_view(start_after);
        let ghost desc = direction == IterDirection::Reverse;
        let mut out: Vec<Vec<u8>> = Vec::new();
        let mut i: usize = 0;
        let n = self.entries.len();
        proof {
            assert(views_of(out@) =~= select_keys(self.key_seq().take(0), prefix@, startg, desc));
        }
        while i < n
            invariant
                self.wf(),
                i <= n,
                n == self.entries@.len(),
                startg == cursor_view(start_after),
                desc == (direction == IterDirection::Reverse),
                views_of(out@) == select_keys(
                    self.key_seq().take(i as int),
                    prefix@,
                    startg,
                    desc,
                ),
            decreases n - i,
        {
            let e = &self.entries[i];
            proof {
                assert(self.key_seq()[i as int] == e.0@);
            }
            let mut keep = has_prefix(&e.0, prefix);
            if keep {
                match start_after {
                    Option::None => {},
                    Option::Some(c) => {
                        let cm = lex_cmp(&e.0, c);
                        match direction {
                            IterDirection::Forward => {
                                keep = match cm {
                                    KeyCmp::Greater => true,
                                    _ => false,
                                };
                            },
                            IterDirection::Reverse => {
                                keep = match cm {
                                    KeyCmp::Less => true,
                                    _ => false,
                                };
                            },
                        }
                    },
                }
            }
            proof {
                assert(keep == selected(prefix@, startg, desc, e.0@));
                let t1 = self.key_seq().take((i + 1) as int);
                assert(t1.drop_last() =~= self.key_seq().take(i as int));
                assert(t1.last() == self.key_seq()[i as int]);
            }
            let ghost old_out = out@;
            if keep {
                let kc = copy_bytes(&e.0);
                out.push(kc);
                proof {
                    assert(views_of(out@) =~= views_of(old_out).push(e.0@));
                }
            }
            i += 1;
        }
        proof {
            assert(self.key_seq().take(n as int) =~= self.key_seq());
        }
        match direction {
            IterDirection::Forward => out,
            IterDirection::Reverse => reversed_keys(&out),
        }
    }
}

impl<V: Copy> KvStore<V> {
    /// An independent copy of the store, for snapshot views.
    pub fn duplicate(&self) -> (r: Self)
        ensures
            r.key_seq() == self.key_seq(),
            r@ == self@,
            r.wf() == self.wf(),
    {
        let mut entries: Vec<(Vec<u8>, V)> = Vec::new();
        let n = self.entries.len();
        let mut i: usize = 0;
        while i < n
            invariant
                i <= n,
                n == self.entries@.len(),
                entries@.len() == i,
                forall|j: int|
                    0 <= j < i ==> (#[trigger] entries@[j]).0@ == self.entries@[j].0@
                        && entries@[j].1 == self.entries@[j].1,
            decreases n - i,
        {
            let e = &self.entries[i];
            let k = copy_bytes(&e.0);
            let v = e.1;
            entries.push((k, v));
            i += 1;
        }
        let r = KvStore { entries };
        proof {
            assert(r.key_seq() =~= self.key_seq());
            assert forall|k: Seq<u8>| r@.dom().contains(k) implies r@[k] == self@[k] by {
                let j = r.key_seq().index_of(k);
                assert(0 <= j < r.key_seq().len() && r.key_seq()[j] == k);
                assert(r.entries@[j].1 == self.entries@[j].1);
                let j2 = self.key_seq().index_of(k);
                assert(0 <= j2 < self.key_seq().len() && self.key_seq()[j2] == k);
            }
            assert(r@ =~= self@);
        }
        r
    }
}

impl KvStore<Vec<u8>> {
    /// An independent copy of a store of byte-vector values.
    pub fn duplicate_bytes(&self) -> (r: Self)
        ensures
            r.key_seq() == self.key_seq(),
            r.wf() == self.wf(),
            r@.dom() == self@.dom(),
            forall|k: Seq<u8>| #[trigger] r@.dom().contains(k) ==> r@[k]@ == self@[k]@,
    {
        let mut entries: Vec<(Vec<u8>, Vec<u8>)> = Vec::new();
        let n = self.entries.len();
        let mut i: usize = 0;
        while i < n
            invariant
                i <= n,
                n == self.entries@.len(),
                entries@.len() == i,
                forall|j: int|
                    0 <= j < i ==> (#[trigger] entries@[j]).0@ == self.entries@[j].0@
                        && entries@[j].1@ == self.entries@[j].1@,
            decreases n - i,
        {
            let e = &self.entries[i];
            let k = copy_bytes(&e.0);
            let v = copy_bytes(&e.1);
            entries.push((k, v));
            i += 1;
        }
        let r = KvStore { entries };
        proof {
            assert(r.key_seq() =~= self.key_seq());
            assert(r@.dom() =~= self@.dom());
            assert forall|k: Seq<u8>| #[trigger] r@.dom().contains(k) implies r@[k]@
                == self@[k]@ by {
                let j = r.key_seq().index_of(k);
                assert(0 <= j < r.key_seq().len() && r.key_seq()[j] == k);
                assert(r.entries@[j].1@ == self.entries@[j].1@);
                let j2 = self.key_seq().index_of(k);
                assert(0 <= j2 < self.key_seq().len() && self.key_seq()[j2] == k);
            }
        }
        r
    }
}

/// The reversal of a vector of keys.
fn reversed_keys(v: &Vec<Vec<u8>>) -> (r: Vec<Vec<u8>>)
    ensures
        views_of(r@) == views_of(v@).reverse(),
{
    let n = v.len();
    let mut r: Vec<Vec<u8>> = Vec::new();
    proof {
        assert(views_of(r@) =~= views_of(v@).reverse().take(0));
    }
    let mut i: usize = 0;
    while i < n
        invariant
            i <= n,
            n == v@.len(),
            views_of(r@) == views_of(v@).reverse().take(i as int),
        decreases n - i,
    {
        let ghost old_r = r@;
        let kc = copy_bytes(&v[n - 1 - i]);
        r.push(kc);
        proof {
            assert(views_of(v@).len() == n);
            assert(views_of(v@).reverse()[i as int] == views_of(v@)[n - 1 - i as int]);
            assert(views_of(v@)[n - 1 - i as int] == v@[n - 1 - i as int]@);
            let rv = views_of(v@).reverse();
            assert(views_of(old_r).len() == i);
            assert(views_of(r@).len() == i + 1);
            assert forall|j: int| 0 <= j < i + 1 implies #[trigger] views_of(r@)[j] == rv.take(
                (i + 1) as int,
            )[j] by {
                if j < i as int {
                    assert(views_of(r@)[j] == r@[j]@);
                    assert(r@[j] == old_r[j]);
                    assert(views_of(old_r)[j] == rv.take(i as int)[j]);
                } else {
                    assert(views_of(r@)[j] == kc@);
                }
            }
            assert(views_of(r@) =~= rv.take((i + 1) as int));
        }
        i += 1;
    }
    proof {
        assert(views_of(v@).reverse().take(n as int) =~= views_of(v@).reverse());
    }
    r
}

} // verus!
