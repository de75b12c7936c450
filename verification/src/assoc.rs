//! Association sequences: the mathematical model of an insertion-ordered map
//! with string keys, as a sequence of `(key, value)` pairs.

use vstd::prelude::*;

verus! {

/// Some pair of `s` has the key `k`.
pub open spec fn has_key<T>(s: Seq<(Seq<char>, T)>, k: Seq<char>) -> bool {
    exists|i: int| 0 <= i < s.len() && (#[trigger] s[i]).0 == k
}

/// A position at which `s` has the key `k` (the position, where keys are
/// distinct); meaningful only where `has_key(s, k)`.
pub open spec fn key_index<T>(s: Seq<(Seq<char>, T)>, k: Seq<char>) -> int {
    choose|i: int| 0 <= i < s.len() && (#[trigger] s[i]).0 == k
}

/// The value stored under `k`; meaningful only where `has_key(s, k)`.
pub open spec fn value_of<T>(s: Seq<(Seq<char>, T)>, k: Seq<char>) -> T {
    s[key_index(s, k)].1
}

/// No key occurs at two positions.
pub open spec fn distinct_keys<T>(s: Seq<(Seq<char>, T)>) -> bool {
    forall|i: int, j: int|
        0 <= i < s.len() && 0 <= j < s.len() && i != j ==> (#[trigger] s[i]).0 != (
        #[trigger] s[j]).0
}

/// `s` begins with `head`.
pub open spec fn begins_with<A>(s: Seq<A>, head: Seq<A>) -> bool {
    head.len() <= s.len() && forall|i: int| 0 <= i < head.len() ==> s[i] == head[i]
}

/// The keys of `s`, in order.
pub open spec fn keys_of<T>(s: Seq<(Seq<char>, T)>) -> Seq<Seq<char>> {
    Seq::new(s.len(), |i: int| s[i].0)
}

/// Where keys are distinct, a key found at `i` has `i` as its position.
pub proof fn lemma_key_at<T>(s: Seq<(Seq<char>, T)>, i: int)
    requires
        distinct_keys(s),
        0 <= i < s.len(),
    ensures
        has_key(s, s[i].0),
        key_index(s, s[i].0) == i,
        value_of(s, s[i].0) == s[i].1,
{
    let k = s[i].0;
    assert(0 <= i < s.len() && s[i].0 == k);
    let j = key_index(s, k);
    assert(0 <= j < s.len() && s[j].0 == k);
}

/// Two association sequences with the same keys at the same positions agree
/// on which keys they have, and, where keys are distinct, on where.
pub proof fn lemma_keys_agree<A, B>(a: Seq<(Seq<char>, A)>, b: Seq<(Seq<char>, B)>)
    requires
        a.len() == b.len(),
        forall|i: int| 0 <= i < a.len() ==> (#[trigger] a[i]).0 == b[i].0,
    ensures
        distinct_keys(a) <==> distinct_keys(b),
        forall|k: Seq<char>| has_key(a, k) <==> has_key(b, k),
        distinct_keys(a) ==> forall|k: Seq<char>|
            has_key(a, k) ==> (#[trigger] key_index(a, k)) == key_index(b, k),
{
    assert forall|i: int| 0 <= i < b.len() implies (#[trigger] b[i]).0 == a[i].0 by {
        assert(a[i].0 == b[i].0);
    }
    assert forall|k: Seq<char>| has_key(a, k) <==> has_key(b, k) by {
        if has_key(a, k) {
            let i = key_index(a, k);
            assert(b[i].0 == k);
        }
        if has_key(b, k) {
            let i = key_index(b, k);
            assert(a[i].0 == k);
        }
    }
    if distinct_keys(a) {
        assert forall|i: int, j: int|
            0 <= i < b.len() && 0 <= j < b.len() && i != j implies (#[trigger] b[i]).0 != (
        #[trigger] b[j]).0 by {
            assert(a[i].0 != a[j].0);
        }
        assert forall|k: Seq<char>| has_key(a, k) implies (#[trigger] key_index(a, k))
            == key_index(b, k) by {
            let i = key_index(a, k);
            assert(b[i].0 == k);
            lemma_key_at(b, i);
        }
    }
    if distinct_keys(b) {
        assert forall|i: int, j: int|
            0 <= i < a.len() && 0 <= j < a.len() && i != j implies (#[trigger] a[i]).0 != (
        #[trigger] a[j]).0 by {
            assert(b[i].0 != b[j].0);
        }
    }
}

/// Filtering an association sequence with distinct keys keeps the keys
/// distinct; it holds exactly the pairs that pass the test, each with the
/// value it had.
pub proof fn lemma_filter_assoc<T>(s: Seq<(Seq<char>, T)>, p: spec_fn((Seq<char>, T)) -> bool)
    requires
        distinct_keys(s),
    ensures
        distinct_keys(s.filter(p)),
        forall|j: int|
            0 <= j < s.filter(p).len() ==> p(#[trigger] s.filter(p)[j]) && has_key(
                s,
                s.filter(p)[j].0,
            ) && value_of(s, s.filter(p)[j].0) == s.filter(p)[j].1,
        forall|i: int|
            0 <= i < s.len() && p(#[trigger] s[i]) ==> has_key(s.filter(p), s[i].0) && value_of(
                s.filter(p),
                s[i].0,
            ) == s[i].1,
        forall|k: Seq<char>| has_key(s.filter(p), k) ==> has_key(s, k),
    decreases s.len(),
{
    reveal(Seq::filter);
    if s.len() == 0 {
        assert(s.filter(p) =~= s);
    } else {
        let init = s.drop_last();
        let last = s.last();
        assert(s =~= init.push(last));
        assert(distinct_keys(init)) by {
            assert forall|i: int, j: int|
                0 <= i < init.len() && 0 <= j < init.len() && i != j implies (#[trigger] init[i]).0
                != (#[trigger] init[j]).0 by {
                assert(s[i].0 != s[j].0);
            }
        }
        lemma_filter_assoc(init, p);
        let f0 = init.filter(p);
        let f = s.filter(p);
        assert forall|j: int| 0 <= j < f0.len() implies has_key(s, (#[trigger] f0[j]).0)
            && value_of(s, f0[j].0) == f0[j].1 && f0[j].0 != last.0 by {
            let m = key_index(init, f0[j].0);
            assert(init[m].0 == f0[j].0);
            lemma_key_at(init, m);
            assert(s[m] == init[m]);
            lemma_key_at(s, m);
            assert(s[s.len() - 1].0 != s[m].0);
        }
        if p(last) {
            assert(f =~= f0.push(last));
            lemma_key_at(s, s.len() - 1);
            assert forall|i: int, j: int|
                0 <= i < f.len() && 0 <= j < f.len() && i != j implies (#[trigger] f[i]).0 != (
            #[trigger] f[j]).0 by {
                if i < f0.len() && j < f0.len() {
                    assert(f0[i].0 != f0[j].0);
                } else if i < f0.len() {
                    assert(f0[i].0 != last.0);
                } else {
                    assert(f0[j].0 != last.0);
                }
            }
            assert forall|j: int| 0 <= j < f.len() implies p(#[trigger] f[j]) && has_key(s, f[j].0)
                && value_of(s, f[j].0) == f[j].1 by {
                if j < f0.len() {
                    assert(f[j] == f0[j]);
                }
            }
            assert forall|i: int| 0 <= i < s.len() && p(#[trigger] s[i]) implies has_key(f, s[i].0)
                && value_of(f, s[i].0) == s[i].1 by {
                if i < init.len() {
                    assert(init[i] == s[i]);
                    let m = key_index(f0, s[i].0);
                    assert(f0[m].0 == s[i].0);
                    lemma_key_at(f0, m);
                    assert(f[m] == f0[m]);
                    lemma_key_at(f, m);
                } else {
                    assert(f[f.len() - 1] == last);
                    lemma_key_at(f, f.len() - 1);
                }
            }
        } else {
            assert(f =~= f0);
            assert forall|i: int| 0 <= i < s.len() && p(#[trigger] s[i]) implies has_key(f, s[i].0)
                && value_of(f, s[i].0) == s[i].1 by {
                assert(init[i] == s[i]);
            }
        }
        assert forall|k: Seq<char>| has_key(f, k) implies has_key(s, k) by {
            let j = key_index(f, k);
            assert(f[j].0 == k);
        }
    }
}

} // verus!
