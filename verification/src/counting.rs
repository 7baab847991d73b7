use vstd::prelude::*;

verus! {

/// Number of occurrences of the symbol `c` in `s`.
pub open spec fn count_char(s: Seq<char>, c: char) -> nat
    decreases s.len(),
{
    if s.len() == 0 {
        0
    } else {
        count_char(s.drop_last(), c) + if s.last() == c {
            1nat
        } else {
            0nat
        }
    }
}

pub proof fn lemma_count_push(s: Seq<char>, x: char, c: char)
    ensures
        count_char(s.push(x), c) == count_char(s, c) + if x == c {
            1nat
        } else {
            0nat
        },
{
    assert(s.push(x).drop_last() =~= s);
}

pub proof fn lemma_count_take_succ(s: Seq<char>, i: int, c: char)
    requires
        0 <= i < s.len(),
    ensures
        count_char(s.take(i + 1), c) == count_char(s.take(i), c) + if s[i] == c {
            1nat
        } else {
            0nat
        },
{
    assert(s.take(i + 1).drop_last() =~= s.take(i));
    assert(s.take(i + 1).last() == s[i]);
}

pub proof fn lemma_count_take_mono(s: Seq<char>, i: int, j: int, c: char)
    requires
        0 <= i <= j <= s.len(),
    ensures
        count_char(s.take(i), c) <= count_char(s.take(j), c),
    decreases j - i,
{
    if i < j {
        lemma_count_take_succ(s, j - 1, c);
        lemma_count_take_mono(s, i, j - 1, c);
    }
}

pub proof fn lemma_count_take_all(s: Seq<char>, c: char)
    ensures
        count_char(s.take(s.len() as int), c) == count_char(s, c),
{
    assert(s.take(s.len() as int) =~= s);
}

/// A suffix free of `c` does not change the count.
pub proof fn lemma_count_frozen(s: Seq<char>, m: int, c: char)
    requires
        0 <= m <= s.len(),
        forall|q: int| m <= q < s.len() ==> s[q] != c,
    ensures
        count_char(s, c) == count_char(s.take(m), c),
    decreases s.len() - m,
{
    if m < s.len() {
        lemma_count_take_succ(s, m, c);
        lemma_count_frozen(s, m + 1, c);
    } else {
        lemma_count_take_all(s, c);
    }
}

/// A position holding `c` puts at least one `c` in any prefix containing it.
pub proof fn lemma_count_at_pos(s: Seq<char>, i: int, c: char)
    requires
        0 <= i < s.len(),
        s[i] == c,
    ensures
        count_char(s.take(i + 1), c) >= 1,
{
    lemma_count_take_succ(s, i, c);
}

/// Two distinct positions holding `c` put at least two `c`s in the sequence.
pub proof fn lemma_count_two_pos(s: Seq<char>, i: int, j: int, c: char)
    requires
        0 <= i < j < s.len(),
        s[i] == c,
        s[j] == c,
    ensures
        count_char(s, c) >= 2,
{
    lemma_count_at_pos(s, i, c);
    lemma_count_take_mono(s, i + 1, j, c);
    lemma_count_take_succ(s, j, c);
    lemma_count_take_mono(s, j + 1, s.len() as int, c);
    lemma_count_take_all(s, c);
}

/// A positive count exhibits a position holding `c`.
pub proof fn lemma_count_pos_exists(s: Seq<char>, c: char) -> (i: int)
    requires
        count_char(s, c) >= 1,
    ensures
        0 <= i < s.len(),
        s[i] == c,
    decreases s.len(),
{
    if s.last() == c {
        s.len() - 1
    } else {
        lemma_count_pos_exists(s.drop_last(), c)
    }
}

/// A count of at least `k` occurrences exhibits the `k`-th one.
pub proof fn lemma_kth_occurrence(s: Seq<char>, c: char, k: int) -> (i: int)
    requires
        1 <= k <= count_char(s, c),
    ensures
        0 <= i < s.len(),
        s[i] == c,
        count_char(s.take(i + 1), c) == k,
    decreases s.len(),
{
    if s.last() == c && count_char(s, c) == k {
        let i = s.len() - 1;
        assert(s.take(i + 1) =~= s);
        i
    } else {
        let i = lemma_kth_occurrence(s.drop_last(), c, k);
        assert(s.drop_last().take(i + 1) =~= s.take(i + 1));
        i
    }
}

/// Sum of a sequence of machine integers, as a mathematical integer.
pub open spec fn sum_usize(s: Seq<usize>) -> int
    decreases s.len(),
{
    if s.len() == 0 {
        0
    } else {
        sum_usize(s.drop_last()) + s.last()
    }
}

pub proof fn lemma_sum_nonneg(s: Seq<usize>)
    ensures
        sum_usize(s) >= 0,
    decreases s.len(),
{
    if s.len() > 0 {
        lemma_sum_nonneg(s.drop_last());
    }
}

pub proof fn lemma_sum_take_succ(s: Seq<usize>, j: int)
    requires
        0 <= j < s.len(),
    ensures
        sum_usize(s.take(j + 1)) == sum_usize(s.take(j)) + s[j],
{
    assert(s.take(j + 1).drop_last() =~= s.take(j));
    assert(s.take(j + 1).last() == s[j]);
}

pub proof fn lemma_sum_take_mono(s: Seq<usize>, i: int, j: int)
    requires
        0 <= i <= j <= s.len(),
    ensures
        sum_usize(s.take(i)) <= sum_usize(s.take(j)),
    decreases j - i,
{
    if i < j {
        lemma_sum_take_succ(s, j - 1);
        lemma_sum_take_mono(s, i, j - 1);
    }
}

pub proof fn lemma_sum_take_all(s: Seq<usize>)
    ensures
        sum_usize(s.take(s.len() as int)) == sum_usize(s),
{
    assert(s.take(s.len() as int) =~= s);
}

/// Consecutive blocks of the given widths cover every offset below their
/// total: each offset lands in the block of exactly one position.
pub proof fn lemma_block_cover(counts: Seq<usize>, y: int) -> (j: int)
    requires
        0 <= y < sum_usize(counts),
    ensures
        0 <= j < counts.len(),
        sum_usize(counts.take(j)) <= y < sum_usize(counts.take(j)) + counts[j],
    decreases counts.len(),
{
    let m = counts.len() - 1;
    if y < sum_usize(counts.drop_last()) {
        let j = lemma_block_cover(counts.drop_last(), y);
        assert(counts.drop_last().take(j) =~= counts.take(j));
        assert(counts.drop_last()[j] == counts[j]);
        j
    } else {
        assert(counts.take(m) =~= counts.drop_last());
        m
    }
}

/// Sum, over the symbols of `al`, of how often each occurs in `t`.
pub open spec fn sum_counts(al: Seq<char>, t: Seq<char>) -> int
    decreases al.len(),
{
    if al.len() == 0 {
        0
    } else {
        sum_counts(al.drop_last(), t) + count_char(t, al.last())
    }
}

pub proof fn lemma_sum_counts_empty(al: Seq<char>)
    ensures
        sum_counts(al, Seq::<char>::empty()) == 0,
    decreases al.len(),
{
    if al.len() > 0 {
        lemma_sum_counts_empty(al.drop_last());
    }
}

pub proof fn lemma_sum_counts_push_absent(al: Seq<char>, t: Seq<char>, x: char)
    requires
        !al.contains(x),
    ensures
        sum_counts(al, t.push(x)) == sum_counts(al, t),
    decreases al.len(),
{
    if al.len() > 0 {
        assert(al.last() != x);
        lemma_count_push(t, x, al.last());
        assert(forall|k: int| 0 <= k < al.len() - 1 ==> al.drop_last()[k] == al[k]);
        lemma_sum_counts_push_absent(al.drop_last(), t, x);
    }
}

pub proof fn lemma_sum_counts_push(al: Seq<char>, t: Seq<char>, x: char)
    requires
        al.no_duplicates(),
        al.contains(x),
    ensures
        sum_counts(al, t.push(x)) == sum_counts(al, t) + 1,
    decreases al.len(),
{
    lemma_count_push(t, x, al.last());
    if al.last() == x {
        assert(!al.drop_last().contains(x)) by {
            if al.drop_last().contains(x) {
                let k = choose|k: int| 0 <= k < al.drop_last().len() && al.drop_last()[k] == x;
                assert(al[k] == x);
            }
        }
        lemma_sum_counts_push_absent(al.drop_last(), t, x);
    } else {
        assert(al.drop_last().contains(x)) by {
            let k = choose|k: int| 0 <= k < al.len() && al[k] == x;
            assert(al.drop_last()[k] == x);
        }
        lemma_sum_counts_push(al.drop_last(), t, x);
    }
}

/// With distinct symbols covering every symbol of `t`, the per-symbol
/// counts add up to the length of `t`.
pub proof fn lemma_counts_total(al: Seq<char>, t: Seq<char>)
    requires
        al.no_duplicates(),
        forall|i: int| 0 <= i < t.len() ==> al.contains(#[trigger] t[i]),
    ensures
        sum_counts(al, t) == t.len(),
    decreases t.len(),
{
    if t.len() == 0 {
        assert(t =~= Seq::<char>::empty());
        lemma_sum_counts_empty(al);
    } else {
        let t0 = t.drop_last();
        assert(forall|i: int| 0 <= i < t0.len() ==> al.contains(#[trigger] t0[i])) by {
            assert(forall|i: int| 0 <= i < t0.len() ==> t0[i] == t[i]);
        }
        lemma_counts_total(al, t0);
        assert(al.contains(t.last()));
        lemma_sum_counts_push(al, t0, t.last());
        assert(t0.push(t.last()) =~= t);
    }
}

/// A sequence whose entries match the per-symbol counts sums to the same value.
pub proof fn lemma_sum_matches(counts: Seq<usize>, al: Seq<char>, t: Seq<char>)
    requires
        counts.len() == al.len(),
        forall|j: int| 0 <= j < al.len() ==> counts[j] == count_char(t, #[trigger] al[j]),
    ensures
        sum_usize(counts) == sum_counts(al, t),
    decreases al.len(),
{
    if al.len() > 0 {
        assert(forall|k: int| 0 <= k < al.len() - 1 ==> al.drop_last()[k] == al[k]);
        assert(forall|k: int| 0 <= k < counts.len() - 1 ==> counts.drop_last()[k] == counts[k]);
        lemma_sum_matches(counts.drop_last(), al.drop_last(), t);
    }
}

/// Index of the first occurrence of `c` in `al`.
pub open spec fn first_index(al: Seq<char>, c: char) -> int
    decreases al.len(),
{
    if al.len() == 0 {
        0
    } else if al[0] == c {
        0
    } else {
        1 + first_index(al.drop_first(), c)
    }
}

pub proof fn lemma_first_index(al: Seq<char>, c: char)
    requires
        al.contains(c),
    ensures
        0 <= first_index(al, c) < al.len(),
        al[first_index(al, c)] == c,
        forall|k: int| 0 <= k < first_index(al, c) ==> al[k] != c,
    decreases al.len(),
{
    if al.len() > 0 && al[0] != c {
        assert(al.drop_first().contains(c)) by {
            let k = choose|k: int| 0 <= k < al.len() && al[k] == c;
            assert(al.drop_first()[k - 1] == c);
        }
        lemma_first_index(al.drop_first(), c);
        assert forall|k: int| 1 <= k < first_index(al, c) implies al[k] != c by {
            assert(al.drop_first()[k - 1] == al[k]);
        }
    }
}

/// Growing a prefix by one position extends its symbol membership by
/// exactly the symbol at that position.
pub proof fn lemma_contains_take_succ(s: Seq<char>, i: int)
    requires
        0 <= i < s.len(),
    ensures
        forall|c: char|
            #[trigger] s.take(i + 1).contains(c) <==> (s.take(i).contains(c) || c == s[i]),
{
    let s1 = s.take(i + 1);
    assert forall|c: char| #[trigger] s.take(i + 1).contains(c) implies (s.take(i).contains(c)
        || c == s[i]) by {
        let k = choose|k: int| 0 <= k < s1.len() && s1[k] == c;
        if k < i {
            assert(s.take(i)[k] == c);
        }
    }
    assert forall|c: char| (s.take(i).contains(c) || c == s[i]) implies #[trigger] s.take(i + 1)
        .contains(c) by {
        if s.take(i).contains(c) {
            let k = choose|k: int| 0 <= k < i && s.take(i)[k] == c;
            assert(s.take(i + 1)[k] == c);
        } else {
            assert(s.take(i + 1)[i] == c);
        }
    }
}

/// Inserting a symbol extends membership by exactly that symbol.
pub proof fn lemma_contains_insert(s: Seq<char>, p: int, c: char)
    requires
        0 <= p <= s.len(),
    ensures
        forall|c2: char|
            #[trigger] s.insert(p, c).contains(c2) <==> (s.contains(c2) || c2 == c),
{
    let s2 = s.insert(p, c);
    assert(s2[p] == c);
    assert forall|c2: char| #[trigger] s2.contains(c2) implies (s.contains(c2) || c2 == c) by {
        let k = choose|k: int| 0 <= k < s2.len() && s2[k] == c2;
        if k < p {
            assert(s[k] == c2);
        } else if k > p {
            assert(s[k - 1] == c2);
        }
    }
    assert forall|c2: char| (s.contains(c2) || c2 == c) implies #[trigger] s2.contains(c2) by {
        if s.contains(c2) {
            let k = choose|k: int| 0 <= k < s.len() && s[k] == c2;
            if k < p {
                assert(s2[k] == c2);
            } else {
                assert(s2[k + 1] == c2);
            }
        }
    }
}

/// Number of maximal runs of identical adjacent symbols.
pub open spec fn run_count(s: Seq<char>) -> nat
    decreases s.len(),
{
    if s.len() == 0 {
        0
    } else if s.len() == 1 {
        1
    } else {
        run_count(s.drop_last()) + if s[s.len() - 1] == s[s.len() - 2] {
            0nat
        } else {
            1nat
        }
    }
}

pub proof fn lemma_run_take_succ(s: Seq<char>, i: int)
    requires
        0 < i < s.len(),
    ensures
        run_count(s.take(i + 1)) == run_count(s.take(i)) + if s[i] == s[i - 1] {
            0nat
        } else {
            1nat
        },
{
    assert(s.take(i + 1).drop_last() =~= s.take(i));
    assert(s.take(i + 1)[i] == s[i]);
    assert(s.take(i + 1)[i - 1] == s[i - 1]);
}

} // verus!
