//! Byte-string keys: lexicographic order, comparison, and copying.
//!
//! Every table in this layer stores its entries under a byte-encoded key, and
//! range iteration walks keys in lexicographic order over those bytes. This
//! module defines that order, proves its basic laws, and provides the
//! executable comparison and copying primitives the store is built on.

use vstd::prelude::*;

verus! {

/// Result of a three-way comparison of two byte-string keys.
#[derive(Clone, Copy, Debug, PartialEq, Eq, Structural)]
pub enum KeyCmp {
    Less,
    Equal,
    Greater,
}

/// Strict lexicographic order on byte strings; a proper prefix sorts first.
pub open spec fn lex_less(a: Seq<u8>, b: Seq<u8>) -> bool
    decreases a.len(),
{
    if b.len() == 0 {
        false
    } else if a.len() == 0 {
        true
    } else if a[0] < b[0] {
        true
    } else if b[0] < a[0] {
        false
    } else {
        lex_less(a.skip(1), b.skip(1))
    }
}

/// A sequence of keys is strictly sorted when every earlier key is
/// lexicographically below every later one; strictness rules out duplicates.
pub open spec fn strictly_sorted(s: Seq<Seq<u8>>) -> bool {
    forall|i: int, j: int|
        0 <= i < j < s.len() ==> lex_less(#[trigger] s[i], #[trigger] s[j])
}

pub proof fn lemma_lex_irrefl(a: Seq<u8>)
    ensures
        !lex_less(a, a),
    decreases a.len(),
{
    if a.len() > 0 {
        lemma_lex_irrefl(a.skip(1));
    }
}

pub proof fn lemma_lex_asym(a: Seq<u8>, b: Seq<u8>)
    requires
        lex_less(a, b),
    ensures
        !lex_less(b, a),
    decreases a.len(),
{
    if a.len() > 0 && b.len() > 0 && a[0] == b[0] {
        lemma_lex_asym(a.skip(1), b.skip(1));
    }
}

pub proof fn lemma_lex_connected(a: Seq<u8>, b: Seq<u8>)
    ensures
        lex_less(a, b) || lex_less(b, a) || a == b,
    decreases a.len(),
{
    if a.len() == 0 {
        if b.len() == 0 {
            assert(a =~= b);
        }
    } else if b.len() > 0 && a[0] == b[0] {
        lemma_lex_connected(a.skip(1), b.skip(1));
        if a.skip(1) == b.skip(1) {
            assert(a.skip(1).len() == a.len() - 1);
            assert(b.skip(1).len() == b.len() - 1);
            assert forall|i: int| 0 <= i < a.len() implies a[i] == #[trigger] b[i] by {
                if i > 0 {
                    assert(a.skip(1)[i - 1] == a[i]);
                    assert(b.skip(1)[i - 1] == b[i]);
                }
            }
            assert(a =~= b);
        }
    }
}

pub proof fn lemma_lex_trans(a: Seq<u8>, b: Seq<u8>, c: Seq<u8>)
    requires
        lex_less(a, b),
        lex_less(b, c),
    ensures
        lex_less(a, c),
    decreases a.len(),
{
    if a.len() > 0 && b.len() > 0 && c.len() > 0 && a[0] == b[0] && b[0] == c[0] {
        lemma_lex_trans(a.skip(1), b.skip(1), c.skip(1));
    }
}

/// Keys that agree on their first `n` bytes compare as their tails do.
pub proof fn lemma_lex_skip_common(a: Seq<u8>, b: Seq<u8>, n: int)
    requires
        0 <= n <= a.len(),
        n <= b.len(),
        a.subrange(0, n) == b.subrange(0, n),
    ensures
        lex_less(a, b) == lex_less(a.skip(n), b.skip(n)),
    decreases n,
{
    if n > 0 {
        assert(a[0] == b[0]) by {
            assert(a.subrange(0, n)[0] == a[0]);
            assert(b.subrange(0, n)[0] == b[0]);
        }
        assert(a.skip(1).subrange(0, n - 1) =~= b.skip(1).subrange(0, n - 1)) by {
            assert forall|i: int| 0 <= i < n - 1 implies #[trigger] a.skip(1).subrange(0, n - 1)[i]
                == b.skip(1).subrange(0, n - 1)[i] by {
                assert(a.subrange(0, n)[i + 1] == a[i + 1]);
                assert(b.subrange(0, n)[i + 1] == b[i + 1]);
            }
        }
        lemma_lex_skip_common(a.skip(1), b.skip(1), n - 1);
        assert(a.skip(1).skip(n - 1) =~= a.skip(n));
        assert(b.skip(1).skip(n - 1) =~= b.skip(n));
    } else {
        assert(a.skip(0) =~= a);
        assert(b.skip(0) =~= b);
    }
}

/// Prepending a common prefix preserves the lexicographic order.
pub proof fn lemma_lex_concat(p: Seq<u8>, a: Seq<u8>, b: Seq<u8>)
    ensures
        lex_less(p + a, p + b) == lex_less(a, b),
{
    let x = p + a;
    let y = p + b;
    let n = p.len() as int;
    assert(x.subrange(0, n) =~= y.subrange(0, n));
    lemma_lex_skip_common(x, y, n);
    assert(x.skip(n) =~= a);
    assert(y.skip(n) =~= b);
}

/// Byte-wise equality of two byte vectors.
pub fn bytes_eq(a: &Vec<u8>, b: &Vec<u8>) -> (r: bool)
    ensures
        r == (a@ == b@),
{
    if a.len() != b.len() {
        return false;
    }
    let mut i: usize = 0;
    while i < a.len()
        invariant
            i <= a.len(),
            a@.len() == b@.len(),
            forall|j: int| 0 <= j < i ==> a@[j] == b@[j],
        decreases a.len() - i,
    {
        if a[i] != b[i] {
            return false;
        }
        i += 1;
    }
    proof {
        assert(a@ =~= b@);
    }
    true
}

/// Three-way lexicographic comparison of two byte vectors.
pub fn lex_cmp(a: &Vec<u8>, b: &Vec<u8>) -> (r: KeyCmp)
    ensures
        (r == KeyCmp::Less) == lex_less(a@, b@),
        (r == KeyCmp::Greater) == lex_less(b@, a@),
        (r == KeyCmp::Equal) == (a@ == b@),
{
    let mut i: usize = 0;
    loop
        invariant
            i <= a.len(),
            i <= b.len(),
            a@.subrange(0, i as int) == b@.subrange(0, i as int),
        decreases a.len() - i,
    {
        proof {
            lemma_lex_skip_common(a@, b@, i as int);
            lemma_lex_skip_common(b@, a@, i as int);
        }
        if i == a.len() {
            if i == b.len() {
                proof {
                    assert forall|j: int| 0 <= j < a@.len() implies a@[j] == #[trigger] b@[j] by {
                        assert(a@.subrange(0, i as int)[j] == a@[j]);
                        assert(b@.subrange(0, i as int)[j] == b@[j]);
                    }
                    assert(a@ =~= b@);
                    lemma_lex_irrefl(a@);
                }
                return KeyCmp::Equal;
            }
            proof {
                assert(a@.skip(i as int).len() == 0);
                assert(b@.skip(i as int).len() > 0);
                assert(lex_less(a@.skip(i as int), b@.skip(i as int)));
                lemma_lex_asym(a@, b@);
            }
            return KeyCmp::Less;
        }
        if i == b.len() {
            proof {
                assert(b@.skip(i as int).len() == 0);
                assert(a@.skip(i as int).len() > 0);
                assert(lex_less(b@.skip(i as int), a@.skip(i as int)));
                lemma_lex_asym(b@, a@);
            }
            return KeyCmp::Greater;
        }
        let x = a[i];
        let y = b[i];
        if x < y {
            proof {
                assert(a@.skip(i as int)[0] == a@[i as int]);
                assert(b@.skip(i as int)[0] == b@[i as int]);
                assert(lex_less(a@.skip(i as int), b@.skip(i as int)));
                lemma_lex_asym(a@, b@);
            }
            return KeyCmp::Less;
        }
        if y < x {
            proof {
                assert(a@.skip(i as int)[0] == a@[i as int]);
                assert(b@.skip(i as int)[0] == b@[i as int]);
                assert(lex_less(b@.skip(i as int), a@.skip(i as int)));
                lemma_lex_asym(b@, a@);
            }
            return KeyCmp::Greater;
        }
        proof {
            assert(a@.subrange(0, (i + 1) as int) =~= b@.subrange(0, (i + 1) as int));
        }
        i += 1;
    }
}

/// Copies a byte vector.
pub fn copy_bytes(a: &Vec<u8>) -> (r: Vec<u8>)
    ensures
        r@ == a@,
{
    let mut r: Vec<u8> = Vec::new();
    let mut i: usize = 0;
    while i < a.len()
        invariant
            i <= a.len(),
            r@ == a@.subrange(0, i as int),
        decreases a.len() - i,
    {
        r.push(a[i]);
        proof {
            assert(r@ =~= a@.subrange(0, (i + 1) as int));
        }
        i += 1;
    }
    proof {
        assert(a@.subrange(0, a@.len() as int) =~= a@);
    }
    r
}

/// Copies the bytes of `a` in positions `from .. to`.
pub fn copy_slice(a: &Vec<u8>, from: usize, to: usize) -> (r: Vec<u8>)
    requires
        from <= to <= a@.len(),
    ensures
        r@ == a@.subrange(from as int, to as int),
{
    let mut r: Vec<u8> = Vec::new();
    let mut i: usize = from;
    while i < to
        invariant
            from <= i <= to <= a@.len(),
            r@ == a@.subrange(from as int, i as int),
        decreases to - i,
    {
        r.push(a[i]);
        proof {
            assert(r@ =~= a@.subrange(from as int, (i + 1) as int));
        }
        i += 1;
    }
    r
}

/// Concatenates two byte vectors.
pub fn concat_bytes(a: &Vec<u8>, b: &Vec<u8>) -> (r: Vec<u8>)
    ensures
        r@ == a@ + b@,
{
    let mut r = copy_bytes(a);
    let mut i: usize = 0;
    while i < b.len()
        invariant
            i <= b.len(),
            r@ == a@ + b@.subrange(0, i as int),
        decreases b.len() - i,
    {
        r.push(b[i]);
        proof {
            assert(r@ =~= a@ + b@.subrange(0, (i + 1) as int));
        }
        i += 1;
    }
    proof {
        assert(a@ + b@.subrange(0, b@.len() as int) =~= a@ + b@);
    }
    r
}

/// Whether `prefix` is a prefix of `key`, byte for byte.
pub fn has_prefix(key: &Vec<u8>, prefix: &Vec<u8>) -> (r: bool)
    ensures
        r == prefix@.is_prefix_of(key@),
{
    if prefix.len() > key.len() {
        return false;
    }
    let mut i: usize = 0;
    while i < prefix.len()
        invariant
            i <= prefix.len(),
            prefix@.len() <= key@.len(),
            forall|j: int| 0 <= j < i ==> prefix@[j] == key@[j],
        decreases prefix.len() - i,
    {
        if prefix[i] != key[i] {
            proof {
                assert(key@.subrange(0, prefix@.len() as int)[i as int] == key@[i as int]);
            }
            return false;
        }
        i += 1;
    }
    proof {
        assert(prefix@ =~= key@.subrange(0, prefix@.len() as int));
    }
    true
}

/// Two strictly sorted key sequences with the same members are equal.
pub proof fn lemma_sorted_unique(s: Seq<Seq<u8>>, t: Seq<Seq<u8>>)
    requires
        strictly_sorted(s),
        strictly_sorted(t),
        forall|k: Seq<u8>| s.contains(k) <==> t.contains(k),
    ensures
        s == t,
    decreases s.len(),
{
    if s.len() == 0 {
        if t.len() > 0 {
            assert(t.contains(t[0]));
            assert(s.contains(t[0]));
        }
        assert(s =~= t);
    } else {
        assert(s.contains(s.last()));
        assert(t.contains(s.last()));
        let jt = choose|jt: int| 0 <= jt < t.len() && t[jt] == s.last();
        assert(t.contains(t.last()));
        assert(s.contains(t.last()));
        let js = choose|js: int| 0 <= js < s.len() && s[js] == t.last();
        // The two last elements are equal.
        if jt < t.len() - 1 {
            assert(lex_less(t[jt], t.last()));
            if js < s.len() - 1 {
                assert(lex_less(s[js], s.last()));
                lemma_lex_trans(s.last(), t.last(), s.last());
                lemma_lex_irrefl(s.last());
            } else {
                lemma_lex_irrefl(s.last());
            }
            assert(false);
        }
        assert(t.last() == s.last());
        let sd = s.drop_last();
        let td = t.drop_last();
        assert forall|k: Seq<u8>| sd.contains(k) implies td.contains(k) by {
            let i = choose|i: int| 0 <= i < sd.len() && sd[i] == k;
            assert(s[i] == k);
            assert(s.contains(k));
            assert(t.contains(k));
            let j = choose|j: int| 0 <= j < t.len() && t[j] == k;
            if j == t.len() - 1 {
                // k would equal the last element, contradicting strict sortedness.
                assert(lex_less(s[i], s.last()));
                lemma_lex_irrefl(k);
                assert(false);
            }
            assert(td[j] == k);
            assert(td.contains(k));
        }
        assert forall|k: Seq<u8>| td.contains(k) implies sd.contains(k) by {
            let i = choose|i: int| 0 <= i < td.len() && td[i] == k;
            assert(t[i] == k);
            assert(t.contains(k));
            assert(s.contains(k));
            let j = choose|j: int| 0 <= j < s.len() && s[j] == k;
            if j == s.len() - 1 {
                assert(lex_less(t[i], t.last()));
                lemma_lex_irrefl(k);
                assert(false);
            }
            assert(sd[j] == k);
            assert(sd.contains(k));
        }
        assert(strictly_sorted(sd));
        assert(strictly_sorted(td));
        lemma_sorted_unique(sd, td);
        assert forall|i: int| 0 <= i < s.len() implies s[i] == #[trigger] t[i] by {
            if i < s.len() - 1 {
                assert(sd[i] == s[i]);
                assert(td[i] == t[i]);
            }
        }
        assert(s =~= t);
    }
}

} // verus!
