use vstd::prelude::*;
use vstd::seq_lib::group_to_multiset_ensures;
use vstd::seq_lib::lemma_multiset_commutative;
use crate::counting::count_char;

verus! {

/// The identity index sequence `0, 1, ..., n-1`.
pub open spec fn ident_seq(n: nat) -> Seq<usize> {
    Seq::new(n, |i: int| i as usize)
}

/// The elements of `e` selected at the offsets listed in `idx`.
pub open spec fn pick<T>(e: Seq<T>, idx: Seq<usize>) -> Seq<T> {
    Seq::new(idx.len(), |i: int| e[idx[i] as int])
}

/// Rearranging the offsets rearranges the selected elements: selections
/// along multiset-equal index sequences are themselves multiset-equal.
pub proof fn lemma_pick_perm<T>(e: Seq<T>, idx1: Seq<usize>, idx2: Seq<usize>)
    requires
        idx1.to_multiset() == idx2.to_multiset(),
        forall|k: int| 0 <= k < idx1.len() ==> (#[trigger] idx1[k] as int) < e.len(),
    ensures
        pick(e, idx1).to_multiset() == pick(e, idx2).to_multiset(),
    decreases idx1.len(),
{
    broadcast use group_to_multiset_ensures;

    if idx1.len() == 0 {
        assert(idx1.to_multiset().len() == idx1.len());
        assert(idx2.to_multiset().len() == idx2.len());
        assert(idx2.len() == 0);
        assert(pick(e, idx1) =~= pick(e, idx2));
    } else {
        let v = idx1.last();
        let idx1p = idx1.drop_last();
        assert(idx1p.push(v) =~= idx1);
        assert(idx1.contains(v));
        assert(idx2.to_multiset().count(v) > 0);
        assert(idx2.contains(v));
        let k = choose|k: int| 0 <= k < idx2.len() && idx2[k] == v;
        let idx2p = idx2.remove(k);
        assert(idx1p.to_multiset() =~= idx2p.to_multiset()) by {
            assert(idx1.to_multiset() == idx1p.to_multiset().insert(v));
            assert(idx2p.to_multiset() == idx2.to_multiset().remove(v));
        }
        assert(forall|m: int| 0 <= m < idx1p.len() ==> (#[trigger] idx1p[m] as int) < e.len()) by {
            assert(forall|m: int| 0 <= m < idx1p.len() ==> idx1p[m] == idx1[m]);
        }
        lemma_pick_perm(e, idx1p, idx2p);
        assert(pick(e, idx1) =~= pick(e, idx1p).push(e[v as int]));
        assert(pick(e, idx2p) =~= pick(e, idx2).remove(k)) by {
            assert(forall|m: int| 0 <= m < k ==> idx2p[m] == idx2[m]);
            assert(forall|m: int| k <= m < idx2p.len() ==> idx2p[m] == idx2[m + 1]);
        }
        assert(pick(e, idx2)[k] == e[v as int]);
        assert(pick(e, idx2).to_multiset().count(e[v as int]) > 0);
        assert(pick(e, idx1).to_multiset() == pick(e, idx1p).to_multiset().insert(e[v as int]));
        assert(pick(e, idx2p).to_multiset() == pick(e, idx2).to_multiset().remove(e[v as int]));
        assert(pick(e, idx1).to_multiset() =~= pick(e, idx2).to_multiset());
    }
}

/// Inserting an element anywhere adds exactly one occurrence of it.
pub proof fn lemma_ms_insert<T>(s: Seq<T>, p: int, x: T)
    requires
        0 <= p <= s.len(),
    ensures
        s.insert(p, x).to_multiset() == s.to_multiset().insert(x),
{
    broadcast use group_to_multiset_ensures;
    broadcast use vstd::multiset::group_multiset_axioms;

    let s2 = s.insert(p, x);
    assert(s2.remove(p) =~= s);
    assert(s2[p] == x);
    assert(s2.remove(p).to_multiset() == s2.to_multiset().remove(x));
    assert(s2.contains(x));
    assert(s2.to_multiset().count(x) > 0);
    assert(s2.to_multiset() =~= s.to_multiset().insert(x));
}

/// Facts about a sequence that is multiset-equal to `0..n`: its length is
/// `n`, its entries lie below `n`, it has no duplicates, and every offset
/// below `n` occurs in it.
pub proof fn lemma_perm_facts(s: Seq<usize>, n: nat)
    requires
        n <= usize::MAX,
        s.to_multiset() == ident_seq(n).to_multiset(),
    ensures
        s.len() == n,
        forall|k: int| 0 <= k < s.len() ==> (#[trigger] s[k] as int) < n,
        s.no_duplicates(),
        forall|q: int| 0 <= q < n ==> #[trigger] s.contains(q as usize),
{
    broadcast use group_to_multiset_ensures;

    let ident = ident_seq(n);
    assert(s.len() == n) by {
        assert(s.to_multiset().len() == s.len());
        assert(ident.to_multiset().len() == ident.len());
    }
    assert forall|k: int| 0 <= k < s.len() implies (#[trigger] s[k] as int) < n by {
        assert(s.contains(s[k]));
        assert(s.to_multiset().count(s[k]) > 0);
        assert(ident.contains(s[k]));
        let m = choose|m: int| 0 <= m < ident.len() && ident[m] == s[k];
        assert(ident[m] == m as usize);
    }
    assert(ident.no_duplicates()) by {
        assert(forall|a: int, b: int|
            0 <= a < n && 0 <= b < n && a != b ==> ident[a] != ident[b]);
    }
    ident.lemma_multiset_has_no_duplicates();
    s.lemma_multiset_has_no_duplicates_conv();
    assert forall|q: int| 0 <= q < n implies #[trigger] s.contains(q as usize) by {
        assert(ident[q] == q as usize);
        assert(ident.contains(q as usize));
        assert(s.to_multiset().count(q as usize) > 0);
    }
}

/// Selecting one element of `e` at every offset, in any order, yields a
/// rearrangement of `e`: every symbol keeps its occurrence count.
pub proof fn lemma_pick_counts(e: Seq<char>, idx: Seq<usize>)
    requires
        e.len() <= usize::MAX,
        idx.to_multiset() == ident_seq(e.len()).to_multiset(),
    ensures
        forall|c: char| count_char(pick(e, idx), c) == count_char(e, c),
{
    broadcast use group_to_multiset_ensures;

    lemma_perm_facts(idx, e.len());
    lemma_pick_perm(e, idx, ident_seq(e.len()));
    assert(pick(e, ident_seq(e.len())) =~= e) by {
        assert(forall|i: int|
            0 <= i < e.len() ==> ident_seq(e.len())[i] == i as usize);
    }
    assert forall|c: char| count_char(pick(e, idx), c) == count_char(e, c) by {
        lemma_count_eq_multiset(pick(e, idx), c);
        lemma_count_eq_multiset(e, c);
    }
}

/// `count_char` agrees with the multiset occurrence count.
pub proof fn lemma_count_eq_multiset(s: Seq<char>, c: char)
    ensures
        count_char(s, c) == s.to_multiset().count(c),
    decreases s.len(),
{
    broadcast use group_to_multiset_ensures;
    broadcast use vstd::multiset::group_multiset_axioms;

    if s.len() == 0 {
        assert(s.to_multiset().count(c) == 0);
    } else {
        let s0 = s.drop_last();
        assert(s0.push(s.last()) =~= s);
        lemma_count_eq_multiset(s0, c);
        assert(s.to_multiset() == s0.to_multiset().insert(s.last()));
    }
}

/// A cyclic shift of a sequence keeps every occurrence count.
pub proof fn lemma_shift_counts(e: Seq<char>)
    requires
        e.len() > 0,
    ensures
        forall|c: char|
            count_char(Seq::new(e.len(), |k: int| e[if k == 0 { e.len() - 1 } else { k - 1 }]), c)
                == count_char(e, c),
{
    let n = e.len() as int;
    let shifted = Seq::new(e.len(), |k: int| e[if k == 0 { n - 1 } else { k - 1 }]);
    let front = seq![e[n - 1]];
    assert(shifted =~= front + e.take(n - 1));
    assert(e =~= e.take(n - 1) + front);
    lemma_multiset_commutative(front, e.take(n - 1));
    lemma_multiset_commutative(e.take(n - 1), front);
    assert(shifted.to_multiset() =~= e.to_multiset());
    assert forall|c: char| count_char(shifted, c) == count_char(e, c) by {
        lemma_count_eq_multiset(shifted, c);
        lemma_count_eq_multiset(e, c);
    }
}

} // verus!
