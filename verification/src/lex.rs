use vstd::prelude::*;
use crate::counting::count_char;

verus! {

/// The reserved terminator symbol: appended once to the text so that all
/// rotations are distinct, and ranked below every other symbol by the
/// rotation order.
pub const SENTINEL: char = '$';

/// Symbol order with the sentinel as the unique minimal symbol: the
/// sentinel ranks strictly below every other symbol, and all other
/// symbols compare by code point.
pub open spec fn sym_lt(a: char, b: char) -> bool {
    if a == SENTINEL {
        b != SENTINEL
    } else {
        b != SENTINEL && (a as int) < (b as int)
    }
}

/// Exactly one of `a == b`, `sym_lt(a, b)`, `sym_lt(b, a)` holds.
pub proof fn lemma_sym_trichotomy(a: char, b: char)
    ensures
        a == b || sym_lt(a, b) || sym_lt(b, a),
        !(sym_lt(a, b) && sym_lt(b, a)),
        sym_lt(a, b) ==> a != b,
{
    if a != SENTINEL && b != SENTINEL && (a as int) == (b as int) {
        assert(a == b);
    }
}

/// Lexicographic order on symbol sequences under the sentinel-minimal
/// symbol order.
pub open spec fn lex_le(x: Seq<char>, y: Seq<char>) -> bool
    decreases x.len(),
{
    if x.len() == 0 {
        true
    } else if y.len() == 0 {
        false
    } else if sym_lt(x[0], y[0]) {
        true
    } else if x[0] == y[0] {
        lex_le(x.drop_first(), y.drop_first())
    } else {
        false
    }
}

pub proof fn lemma_lex_le_refl(x: Seq<char>)
    ensures
        lex_le(x, x),
    decreases x.len(),
{
    if x.len() > 0 {
        lemma_sym_trichotomy(x[0], x[0]);
        lemma_lex_le_refl(x.drop_first());
    }
}

/// Decides `lex_le` between two equal-length sequences that agree on their
/// first `k` positions by the symbol comparison at position `k`.
pub proof fn lemma_lex_at(x: Seq<char>, y: Seq<char>, k: int)
    requires
        x.len() == y.len(),
        0 <= k <= x.len(),
        forall|m: int| 0 <= m < k ==> x[m] == y[m],
    ensures
        k < x.len() && sym_lt(x[k], y[k]) ==> lex_le(x, y),
        k < x.len() && sym_lt(y[k], x[k]) ==> !lex_le(x, y),
    decreases k,
{
    if k == 0 {
        if x.len() > 0 {
            lemma_sym_trichotomy(x[0], y[0]);
        }
    } else {
        assert(x[0] == y[0]);
        let x1 = x.drop_first();
        let y1 = y.drop_first();
        assert(forall|m: int| 0 <= m < k - 1 ==> x1[m] == y1[m]) by {
            assert(forall|m: int| 0 <= m < k - 1 ==> x1[m] == x[m + 1] && y1[m] == y[m + 1]);
        }
        lemma_lex_at(x1, y1, k - 1);
        lemma_sym_trichotomy(x[0], y[0]);
        if k < x.len() {
            assert(x1[k - 1] == x[k]);
            assert(y1[k - 1] == y[k]);
        }
    }
}

/// Totality of `lex_le` on equal-length sequences.
pub proof fn lemma_lex_total(x: Seq<char>, y: Seq<char>)
    requires
        x.len() == y.len(),
    ensures
        lex_le(x, y) || lex_le(y, x),
    decreases x.len(),
{
    if x.len() > 0 {
        lemma_sym_trichotomy(x[0], y[0]);
        if x[0] == y[0] {
            lemma_lex_total(x.drop_first(), y.drop_first());
        }
    }
}

/// Transitivity of `lex_le` on equal-length sequences.
pub proof fn lemma_lex_trans(x: Seq<char>, y: Seq<char>, z: Seq<char>)
    requires
        x.len() == y.len(),
        y.len() == z.len(),
        lex_le(x, y),
        lex_le(y, z),
    ensures
        lex_le(x, z),
    decreases x.len(),
{
    if x.len() > 0 {
        lemma_sym_trichotomy(x[0], y[0]);
        lemma_sym_trichotomy(y[0], z[0]);
        lemma_sym_trichotomy(x[0], z[0]);
        if x[0] == y[0] && y[0] == z[0] {
            lemma_lex_trans(x.drop_first(), y.drop_first(), z.drop_first());
        }
    }
}

/// Number of symbols of `s` that rank strictly below `c`.
pub open spec fn count_below(s: Seq<char>, c: char) -> nat
    decreases s.len(),
{
    if s.len() == 0 {
        0
    } else {
        count_below(s.drop_last(), c) + if sym_lt(s.last(), c) {
            1nat
        } else {
            0nat
        }
    }
}

pub proof fn lemma_below_push(s: Seq<char>, x: char, c: char)
    ensures
        count_below(s.push(x), c) == count_below(s, c) + if sym_lt(x, c) {
            1nat
        } else {
            0nat
        },
{
    assert(s.push(x).drop_last() =~= s);
}

pub proof fn lemma_below_take_succ(s: Seq<char>, i: int, c: char)
    requires
        0 <= i < s.len(),
    ensures
        count_below(s.take(i + 1), c) == count_below(s.take(i), c) + if sym_lt(s[i], c) {
            1nat
        } else {
            0nat
        },
{
    assert(s.take(i + 1).drop_last() =~= s.take(i));
    assert(s.take(i + 1).last() == s[i]);
}

pub proof fn lemma_below_take_mono(s: Seq<char>, i: int, j: int, c: char)
    requires
        0 <= i <= j <= s.len(),
    ensures
        count_below(s.take(i), c) <= count_below(s.take(j), c),
    decreases j - i,
{
    if i < j {
        lemma_below_take_succ(s, j - 1, c);
        lemma_below_take_mono(s, i, j - 1, c);
    }
}

pub proof fn lemma_below_take_all(s: Seq<char>, c: char)
    ensures
        count_below(s.take(s.len() as int), c) == count_below(s, c),
{
    assert(s.take(s.len() as int) =~= s);
}

/// When every symbol ranks below `c` or equals it, the two counts cover
/// the whole sequence.
pub proof fn lemma_below_all_le(s: Seq<char>, c: char)
    requires
        forall|m: int| 0 <= m < s.len() ==> (sym_lt(#[trigger] s[m], c) || s[m] == c),
    ensures
        count_below(s, c) + count_char(s, c) == s.len(),
    decreases s.len(),
{
    if s.len() > 0 {
        lemma_sym_trichotomy(s.last(), c);
        assert(forall|m: int|
            0 <= m < s.len() - 1 ==> s.drop_last()[m] == s[m]);
        lemma_below_all_le(s.drop_last(), c);
    }
}

/// When every symbol ranks below `c`, the below-count is the length.
pub proof fn lemma_below_all_lt(s: Seq<char>, c: char)
    requires
        forall|m: int| 0 <= m < s.len() ==> sym_lt(#[trigger] s[m], c),
    ensures
        count_below(s, c) == s.len(),
    decreases s.len(),
{
    if s.len() > 0 {
        assert(forall|m: int|
            0 <= m < s.len() - 1 ==> s.drop_last()[m] == s[m]);
        lemma_below_all_lt(s.drop_last(), c);
    }
}

/// A suffix with no symbol below `c` does not change the below-count.
pub proof fn lemma_below_frozen(s: Seq<char>, m: int, c: char)
    requires
        0 <= m <= s.len(),
        forall|q: int| m <= q < s.len() ==> !sym_lt(#[trigger] s[q], c),
    ensures
        count_below(s, c) == count_below(s.take(m), c),
    decreases s.len() - m,
{
    if m < s.len() {
        lemma_below_take_succ(s, m, c);
        lemma_below_frozen(s, m + 1, c);
    } else {
        lemma_below_take_all(s, c);
    }
}

/// The below-count and the occurrence count never overlap.
pub proof fn lemma_below_partition(s: Seq<char>, c: char)
    ensures
        count_below(s, c) + count_char(s, c) <= s.len(),
    decreases s.len(),
{
    if s.len() > 0 {
        lemma_sym_trichotomy(s.last(), c);
        lemma_below_partition(s.drop_last(), c);
    }
}

/// The below-count splits over concatenation.
pub proof fn lemma_below_concat(a: Seq<char>, b: Seq<char>, c: char)
    ensures
        count_below(a + b, c) == count_below(a, c) + count_below(b, c),
    decreases b.len(),
{
    if b.len() == 0 {
        assert(a + b =~= a);
    } else {
        assert((a + b).drop_last() =~= a + b.drop_last());
        assert((a + b).last() == b.last());
        lemma_below_concat(a, b.drop_last(), c);
    }
}

/// Multiset-equal sequences have equal below-counts.
pub proof fn lemma_below_perm(s1: Seq<char>, s2: Seq<char>, c: char)
    requires
        s1.to_multiset() == s2.to_multiset(),
    ensures
        count_below(s1, c) == count_below(s2, c),
    decreases s1.len(),
{
    broadcast use vstd::seq_lib::group_to_multiset_ensures;

    if s1.len() == 0 {
        assert(s1.to_multiset().len() == s1.len());
        assert(s2.to_multiset().len() == s2.len());
    } else {
        let v = s1.last();
        let s1p = s1.drop_last();
        assert(s1p.push(v) =~= s1);
        assert(s1.contains(v));
        assert(s2.to_multiset().count(v) > 0);
        assert(s2.contains(v));
        let k = choose|k: int| 0 <= k < s2.len() && s2[k] == v;
        let s2p = s2.remove(k);
        assert(s1p.to_multiset() =~= s2p.to_multiset()) by {
            assert(s1.to_multiset() == s1p.to_multiset().insert(v));
            assert(s2p.to_multiset() == s2.to_multiset().remove(v));
        }
        lemma_below_perm(s1p, s2p, c);
        lemma_below_push(s1p, v, c);
        assert(s2 =~= (s2.take(k) + seq![v]) + s2.skip(k + 1));
        assert(s2p =~= s2.take(k) + s2.skip(k + 1));
        lemma_below_concat(s2.take(k) + seq![v], s2.skip(k + 1), c);
        lemma_below_concat(s2.take(k), seq![v], c);
        lemma_below_concat(s2.take(k), s2.skip(k + 1), c);
        assert(count_below(seq![v], c) == if sym_lt(v, c) {
            1nat
        } else {
            0nat
        }) by {
            lemma_below_push(Seq::<char>::empty(), v, c);
            assert(count_below(Seq::<char>::empty(), c) == 0);
            assert(Seq::<char>::empty().push(v) =~= seq![v]);
        }
    }
}

/// The rotation of `e` that starts at offset `r`.
pub open spec fn rotation(e: Seq<char>, r: int) -> Seq<char> {
    e.skip(r) + e.take(r)
}

pub proof fn lemma_rotation_len(e: Seq<char>, r: int)
    requires
        0 <= r <= e.len(),
    ensures
        rotation(e, r).len() == e.len(),
{
}

pub proof fn lemma_rotation_index(e: Seq<char>, r: int, m: int)
    requires
        0 <= r < e.len(),
        0 <= m < e.len(),
    ensures
        rotation(e, r).len() == e.len(),
        rotation(e, r)[m] == if r + m < e.len() {
            e[r + m]
        } else {
            e[r + m - e.len()]
        },
{
}

} // verus!
