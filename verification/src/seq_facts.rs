//! Facts about sequences and the multisets of their elements.

use vstd::prelude::*;
use vstd::seq_lib::group_to_multiset_ensures;
use vstd::seq_lib::to_multiset_contains;
use vstd::seq_lib::to_multiset_len;
use vstd::multiset::Multiset;
use vstd::multiset::group_multiset_axioms;
use vstd::multiset::group_multiset_properties;

verus! {

/// Every element is smaller than every later one.
pub open spec fn strictly_increasing(s: Seq<usize>) -> bool {
    forall|i: int, j: int| 0 <= i < j < s.len() ==> s[i] < s[j]
}

/// In a strictly increasing sequence, the element at `k` is found at `k`.
pub proof fn lemma_index_of_unique(s: Seq<usize>, k: int)
    requires
        strictly_increasing(s),
        0 <= k < s.len(),
    ensures
        s.contains(s[k]),
        s.index_of(s[k]) == k,
{
    assert(s[k] == s[k]);
    assert(s.contains(s[k]));
    let i = s.index_of(s[k]);
    if i < k {
        assert(s[i] < s[k]);
    } else if i > k {
        assert(s[k] < s[i]);
    }
}


/// Inserting `x` at the first position whose element is not below `x`
/// keeps a strictly increasing sequence strictly increasing (when `x` was
/// absent) and adds exactly `x` to its elements.
pub proof fn lemma_sorted_insert(s: Seq<usize>, p: int, x: usize)
    requires
        strictly_increasing(s),
        0 <= p <= s.len(),
        forall|q: int| 0 <= q < p ==> s[q] < x,
        p < s.len() ==> s[p] > x,
    ensures
        !s.contains(x),
        strictly_increasing(s.insert(p, x)),
        forall|l: usize| s.insert(p, x).contains(l) <==> (s.contains(l) || l == x),
        s.insert(p, x).to_set() == s.to_set().insert(x),
{
    let nl = s.insert(p, x);
    assert forall|q: int| 0 <= q < s.len() implies s[q] != x by {
        if q > p {
            assert(s[p] < s[q]);
        }
    }
    assert forall|i: int, j: int| 0 <= i < j < nl.len() implies nl[i] < nl[j] by {
        if j < p {
        } else if j == p {
        } else if i < p {
            assert(nl[j] == s[j - 1]);
            if p < s.len() {
                assert(s[p] <= s[j - 1]);
            }
        } else if i == p {
            assert(nl[j] == s[j - 1]);
            assert(s[p] <= s[j - 1]);
        } else {
            assert(nl[i] == s[i - 1]);
            assert(nl[j] == s[j - 1]);
        }
    }
    assert forall|l: usize| nl.contains(l) <==> (s.contains(l) || l == x) by {
        if l == x {
            assert(nl[p] == x);
        } else {
            if s.contains(l) {
                let k = choose|k: int| 0 <= k < s.len() && s[k] == l;
                let k2 = if k < p { k } else { k + 1 };
                assert(nl[k2] == l);
            }
            if nl.contains(l) {
                let k2 = choose|k2: int| 0 <= k2 < nl.len() && nl[k2] == l;
                let k = if k2 < p { k2 } else { k2 - 1 };
                assert(s[k] == l);
            }
        }
    }
    assert(nl.to_set() =~= s.to_set().insert(x));
}

/// The first position of a strictly increasing sequence whose element is not
/// below `x`.
pub proof fn lemma_slot_exists(s: Seq<usize>, x: usize) -> (p: int)
    requires
        strictly_increasing(s),
    ensures
        0 <= p <= s.len(),
        forall|q: int| 0 <= q < p ==> s[q] < x,
        p < s.len() ==> s[p] >= x,
    decreases s.len(),
{
    if s.len() == 0 {
        0
    } else if s.last() < x {
        assert forall|q: int| 0 <= q < s.len() implies s[q] < x by {
            if q < s.len() - 1 {
                assert(s[q] < s[s.len() - 1]);
            }
        }
        s.len() as int
    } else {
        let p = lemma_slot_exists(s.drop_last(), x);
        assert forall|q: int| 0 <= q < p implies s[q] < x by {
            assert(s.drop_last()[q] == s[q]);
        }
        p
    }
}

/// Two strictly increasing sequences with the same elements are equal.
pub proof fn lemma_sorted_same_elements(a: Seq<usize>, b: Seq<usize>)
    requires
        strictly_increasing(a),
        strictly_increasing(b),
        a.to_set() == b.to_set(),
    ensures
        a == b,
    decreases a.len(),
{
    if a.len() == 0 {
        if b.len() > 0 {
            assert(b.to_set().contains(b[0]));
        }
        assert(a =~= b);
    } else {
        assert(a.to_set().contains(a.last()));
        assert(b.len() > 0);
        assert(b.to_set().contains(b.last()));
        let ka = choose|k: int| 0 <= k < a.len() && a[k] == b.last();
        let kb = choose|k: int| 0 <= k < b.len() && b[k] == a.last();
        if ka < a.len() - 1 {
            assert(a[ka] < a.last());
        }
        if kb < b.len() - 1 {
            assert(b[kb] < b.last());
        }
        assert(a.last() == b.last());
        let da = a.drop_last();
        let db = b.drop_last();
        assert forall|x: usize| da.to_set().contains(x) <==> db.to_set().contains(x) by {
            if da.contains(x) {
                let i = choose|i: int| 0 <= i < da.len() && da[i] == x;
                assert(a[i] < a.last());
                assert(a.to_set().contains(x));
                assert(b.contains(x));
                let j = choose|j: int| 0 <= j < b.len() && b[j] == x;
                assert(j != b.len() - 1);
                assert(db[j] == x);
            }
            if db.contains(x) {
                let i = choose|i: int| 0 <= i < db.len() && db[i] == x;
                assert(b[i] < b.last());
                assert(b.to_set().contains(x));
                assert(a.contains(x));
                let j = choose|j: int| 0 <= j < a.len() && a[j] == x;
                assert(j != a.len() - 1);
                assert(da[j] == x);
            }
        }
        assert(da.to_set() =~= db.to_set());
        lemma_sorted_same_elements(da, db);
        assert(a =~= da.push(a.last()));
        assert(b =~= db.push(b.last()));
    }
}

/// An empty sequence has the empty multiset.
pub proof fn lemma_empty_seq_multiset<A>(s: Seq<A>)
    requires
        s.len() == 0,
    ensures
        s.to_multiset() == Multiset::<A>::empty(),
{
    broadcast use group_multiset_axioms;

    assert forall|a: A| s.to_multiset().count(a) == 0 by {
        to_multiset_contains(s, a);
    }
    assert(s.to_multiset() =~= Multiset::<A>::empty());
}

/// Dropping the last element removes one copy of it from the multiset.
pub proof fn lemma_drop_last_multiset<A>(s: Seq<A>)
    requires
        s.len() > 0,
    ensures
        s.drop_last().to_multiset() == s.to_multiset().remove(s.last()),
{
    broadcast use group_to_multiset_ensures;

    assert(s.remove(s.len() - 1) =~= s.drop_last());
}

/// Moving the last element into position `i` and dropping the last slot
/// (what `Vec::swap_remove` does) removes one copy of `s[i]` from the multiset.
pub proof fn lemma_swap_remove_multiset<A>(s: Seq<A>, i: int)
    requires
        0 <= i < s.len(),
    ensures
        s.update(i, s.last()).drop_last().to_multiset() == s.to_multiset().remove(s[i]),
{
    broadcast use group_to_multiset_ensures;
    broadcast use group_multiset_axioms;
    broadcast use group_multiset_properties;

    let u = s.update(i, s.last());
    lemma_drop_last_multiset(u);
    assert(u.last() == s.last());
    assert(s.contains(s[i]));
    assert(s.to_multiset().count(s[i]) > 0);
    assert(u.drop_last().to_multiset() =~= s.to_multiset().remove(s[i]));
}

/// Two duplicate-free sequences with the same elements have the same multiset.
pub proof fn lemma_distinct_same_elements<A>(s1: Seq<A>, s2: Seq<A>)
    requires
        s1.no_duplicates(),
        s2.no_duplicates(),
        forall|x: A| s1.contains(x) <==> s2.contains(x),
    ensures
        s1.to_multiset() == s2.to_multiset(),
{
    broadcast use group_to_multiset_ensures;
    broadcast use group_multiset_axioms;

    s1.lemma_multiset_has_no_duplicates();
    s2.lemma_multiset_has_no_duplicates();
    assert forall|x: A| s1.to_multiset().count(x) == s2.to_multiset().count(x) by {
        if s1.contains(x) {
            assert(s1.to_multiset().count(x) > 0);
            assert(s2.to_multiset().count(x) > 0);
        } else {
            assert(s1.to_multiset().count(x) == 0);
            assert(s2.to_multiset().count(x) == 0);
        }
    }
    assert(s1.to_multiset() =~= s2.to_multiset());
}

/// A rearrangement of a duplicate-free sequence is duplicate-free and has
/// the same elements.
pub proof fn lemma_permutation_keeps_distinct<A>(s1: Seq<A>, s2: Seq<A>)
    requires
        s1.to_multiset() == s2.to_multiset(),
        s2.no_duplicates(),
    ensures
        s1.no_duplicates(),
        forall|x: A| s1.contains(x) <==> s2.contains(x),
{
    broadcast use group_to_multiset_ensures;
    broadcast use group_multiset_axioms;

    s2.lemma_multiset_has_no_duplicates();
    s1.lemma_multiset_has_no_duplicates_conv();
    assert forall|x: A| s1.contains(x) <==> s2.contains(x) by {
        to_multiset_contains(s1, x);
        to_multiset_contains(s2, x);
    }
}

/// Mapping a function over two sequences with the same multiset gives two
/// sequences with the same multiset.
pub proof fn lemma_map_keeps_multiset<A, B>(s1: Seq<A>, s2: Seq<A>, f: spec_fn(A) -> B)
    requires
        s1.to_multiset() == s2.to_multiset(),
    ensures
        s1.map_values(f).to_multiset() == s2.map_values(f).to_multiset(),
    decreases s1.len(),
{
    broadcast use group_to_multiset_ensures;
    broadcast use group_multiset_axioms;

    if s1.len() == 0 {
        to_multiset_len(s1);
        to_multiset_len(s2);
        assert(s2.len() == 0);
        assert(s1.map_values(f) =~= s2.map_values(f));
    } else {
        let x = s1.last();
        assert(s1.contains(x)) by {
            assert(s1[s1.len() - 1] == x);
        }
        assert(s1.to_multiset().count(x) > 0);
        assert(s2.contains(x));
        let k = choose|k: int| 0 <= k < s2.len() && s2[k] == x;
        let r2 = s2.remove(k);
        lemma_drop_last_multiset(s1);
        assert(s1.drop_last().to_multiset() == r2.to_multiset());
        lemma_map_keeps_multiset(s1.drop_last(), r2, f);
        assert(s1.map_values(f) =~= s1.drop_last().map_values(f).push(f(x)));
        assert(s2.map_values(f) =~= r2.map_values(f).insert(k, f(x)));
    }
}

} // verus!
