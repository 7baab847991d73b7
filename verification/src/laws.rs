use vstd::prelude::*;
use crate::index::FMIndex;
use crate::index::lemma_built_counts;
use crate::index::lemma_bwt_symbol;
use crate::index::ext_of;
use crate::lex::SENTINEL;
use crate::lex::sym_lt;
use crate::lex::lex_le;
use crate::lex::rotation;
use crate::lex::lemma_rotation_index;
use crate::lex::lemma_sym_trichotomy;
use crate::lex::count_below;
use crate::lex::lemma_below_all_le;
use crate::lex::lemma_below_all_lt;
use crate::lex::lemma_below_take_mono;
use crate::lex::lemma_below_take_all;
use crate::lex::lemma_below_frozen;
use crate::lex::lemma_below_partition;
use crate::counting::count_char;
use crate::counting::first_index;
use crate::counting::lemma_first_index;
use crate::counting::lemma_count_take_succ;
use crate::counting::lemma_count_take_mono;
use crate::counting::lemma_count_take_all;
use crate::counting::lemma_count_at_pos;
use crate::counting::lemma_count_two_pos;
use crate::counting::lemma_count_pos_exists;
use crate::counting::lemma_kth_occurrence;
use crate::counting::lemma_block_cover;
use crate::counting::lemma_sum_take_succ;
use crate::counting::lemma_sum_take_mono;
use crate::counting::lemma_sum_take_all;
use crate::counting::lemma_sum_nonneg;
use crate::perm::ident_seq;
use crate::perm::lemma_perm_facts;
use crate::perm::pick;
use crate::perm::lemma_pick_perm;
use crate::perm::lemma_pick_counts;
use crate::lex::lemma_below_perm;
use crate::lex::lemma_below_push;
use crate::counting::sum_counts;
use crate::counting::lemma_sum_matches;
use crate::counting::lemma_sum_counts_empty;
use crate::counting::lemma_sum_counts_push;
use crate::counting::lemma_sum_counts_push_absent;

verus! {

/// The suffix array of a built index is a permutation of the offsets
/// `0..n`: multiset-equal to them, duplicate-free, and covering each one.
/// The BWT has length `n`, one more than the text, and holds the sentinel
/// exactly once. The sentinel rotation is always rank 0.
pub proof fn lemma_index_shape(idx: FMIndex)
    requires
        idx.built(),
    ensures
        idx.suffix_array@.to_multiset() == ident_seq(idx.n() as nat).to_multiset(),
        idx.suffix_array@.no_duplicates(),
        idx.suffix_array@.len() == idx.n(),
        forall|k: int|
            0 <= k < idx.n() ==> (#[trigger] idx.suffix_array@[k] as int) < idx.n(),
        forall|q: int| 0 <= q < idx.n() ==> #[trigger] idx.suffix_array@.contains(q as usize),
        idx.n() == idx.text@.len() + 1,
        count_char(idx.bwt@, SENTINEL) == 1,
        idx.suffix_array@[0] == idx.n() - 1,
{
    lemma_built_counts(idx, idx.text@);
    lemma_perm_facts(idx.suffix_array@, idx.bwt@.len() as nat);
    let t = idx.text@;
    let e = ext_of(t);
    let n = idx.n();
    let sa = idx.suffix_array@;
    assert(sa.contains((n - 1) as usize));
    let r = choose|r: int| 0 <= r < sa.len() && sa[r] == (n - 1) as usize;
    if r != 0 {
        assert(lex_le(rotation(e, sa[0] as int), rotation(e, sa[r] as int)));
        lemma_rotation_index(e, sa[0] as int, 0);
        lemma_rotation_index(e, sa[r] as int, 0);
        assert(rotation(e, sa[r] as int)[0] == SENTINEL);
        assert(sa[0] != (n - 1) as usize);
        assert(rotation(e, sa[0] as int)[0] != SENTINEL) by {
            assert(e[sa[0] as int] == t[sa[0] as int]);
            if t[sa[0] as int] == SENTINEL {
                assert(t.contains(SENTINEL));
            }
        }
        assert(!sym_lt(rotation(e, sa[0] as int)[0], SENTINEL));
        assert(false);
    }
}

/// Two different start offsets give different rotations, because exactly
/// one position of the extended text holds the sentinel.
proof fn lemma_rotations_distinct(e: Seq<char>, r1: int, r2: int)
    requires
        0 <= r1 < e.len(),
        0 <= r2 < e.len(),
        r1 != r2,
        e[e.len() - 1] == SENTINEL,
        forall|m: int| 0 <= m < e.len() - 1 ==> e[m] != SENTINEL,
    ensures
        rotation(e, r1) != rotation(e, r2),
{
    let n = e.len() as int;
    let m0 = n - 1 - r1;
    lemma_rotation_index(e, r1, m0);
    lemma_rotation_index(e, r2, m0);
    assert(rotation(e, r1)[m0] == SENTINEL);
    assert(rotation(e, r2)[m0] != SENTINEL) by {
        if r2 + m0 < n {
            assert(r2 + m0 != n - 1);
        } else {
            assert(r2 + m0 - n < n - 1);
        }
    }
    assert(rotation(e, r1)[m0] != rotation(e, r2)[m0]);
}

/// The rotation order a built index lists is strictly increasing: ranks
/// ascend under `lex_le` and no two rows list the same rotation.
pub proof fn lemma_rotation_order_strict(idx: FMIndex, i: int, j: int)
    requires
        idx.built(),
        0 <= i < j < idx.n(),
    ensures
        lex_le(
            rotation(ext_of(idx.text@), idx.suffix_array@[i] as int),
            rotation(ext_of(idx.text@), idx.suffix_array@[j] as int),
        ),
        rotation(ext_of(idx.text@), idx.suffix_array@[i] as int) != rotation(
            ext_of(idx.text@),
            idx.suffix_array@[j] as int,
        ),
{
    lemma_index_shape(idx);
    let t = idx.text@;
    let e = ext_of(t);
    assert(forall|m: int| 0 <= m < e.len() - 1 ==> e[m] != SENTINEL) by {
        assert forall|m: int| 0 <= m < e.len() - 1 implies e[m] != SENTINEL by {
            assert(e[m] == t[m]);
            if t[m] == SENTINEL {
                assert(t.contains(SENTINEL));
            }
        }
    }
    assert(idx.suffix_array@[i] != idx.suffix_array@[j]);
    lemma_rotations_distinct(e, idx.suffix_array@[i] as int, idx.suffix_array@[j] as int);
}

/// Along the listed rotation order, the first symbols of the rotations
/// never descend under the sentinel-minimal symbol order.
pub proof fn lemma_first_symbols_sorted(idx: FMIndex, i: int, j: int)
    requires
        idx.built(),
        0 <= i < j < idx.n(),
    ensures
        !sym_lt(
            ext_of(idx.text@)[idx.suffix_array@[j] as int],
            ext_of(idx.text@)[idx.suffix_array@[i] as int],
        ),
{
    lemma_index_shape(idx);
    let e = ext_of(idx.text@);
    let sa = idx.suffix_array@;
    assert(lex_le(rotation(e, sa[i] as int), rotation(e, sa[j] as int)));
    lemma_rotation_index(e, sa[i] as int, 0);
    lemma_rotation_index(e, sa[j] as int, 0);
    crate::lex::lemma_sym_trichotomy(e[sa[i] as int], e[sa[j] as int]);
}

/// The LF-mapping of a built index maps every row to a row: its result
/// stays within `0..n`.
pub proof fn lemma_lf_range(idx: FMIndex, i: int)
    requires
        idx.built(),
        0 <= i < idx.n(),
    ensures
        0 <= idx.spec_lf(i) < idx.n(),
{
    lemma_built_counts(idx, idx.text@);
    let c = idx.bwt@[i];
    if c != SENTINEL {
        lemma_bwt_symbol(idx, i);
        idx.lemma_block_bound(c, i + 1);
        lemma_count_at_pos(idx.bwt@, i, c);
        lemma_sum_nonneg(idx.counts@.take(first_index(idx.alphabet@, c)));
    }
}

/// The block of rows whose rotations start with the BWT symbol at `i`
/// contains that row's LF-image.
proof fn lemma_lf_in_block(idx: FMIndex, i: int)
    requires
        idx.built(),
        0 <= i < idx.n(),
        idx.bwt@[i] != SENTINEL,
    ensures
        idx.alphabet@.contains(idx.bwt@[i]),
        idx.c_value(idx.bwt@[i]) <= idx.spec_lf(i),
        idx.spec_lf(i) < idx.c_value(idx.bwt@[i]) + idx.counts@[first_index(
            idx.alphabet@,
            idx.bwt@[i],
        )],
{
    lemma_built_counts(idx, idx.text@);
    let c = idx.bwt@[i];
    lemma_bwt_symbol(idx, i);
    let j = first_index(idx.alphabet@, c);
    lemma_first_index(idx.alphabet@, c);
    lemma_count_at_pos(idx.bwt@, i, c);
    lemma_count_take_mono(idx.bwt@, i + 1, idx.n(), c);
    lemma_count_take_all(idx.bwt@, c);
}

/// The LF-mapping of a built index never sends two distinct rows to the
/// same row: together with `lemma_lf_range`, it is injective on `0..n`.
pub proof fn lemma_lf_injective(idx: FMIndex, i: int, j: int)
    requires
        idx.built(),
        0 <= i < idx.n(),
        0 <= j < idx.n(),
        i != j,
    ensures
        idx.spec_lf(i) != idx.spec_lf(j),
    decreases (if i < j { 0int } else { 1int }),
{
    if j < i {
        lemma_lf_injective(idx, j, i);
    } else {
        lemma_built_counts(idx, idx.text@);
        let ci = idx.bwt@[i];
        let cj = idx.bwt@[j];
        if ci == SENTINEL && cj == SENTINEL {
            lemma_count_two_pos(idx.bwt@, i, j, SENTINEL);
        } else if ci == SENTINEL {
            lemma_lf_in_block(idx, j);
            lemma_sum_nonneg(idx.counts@.take(first_index(idx.alphabet@, cj)));
        } else if cj == SENTINEL {
            lemma_lf_in_block(idx, i);
            lemma_sum_nonneg(idx.counts@.take(first_index(idx.alphabet@, ci)));
        } else if ci == cj {
            lemma_count_take_mono(idx.bwt@, i + 1, j, ci);
            lemma_count_take_succ(idx.bwt@, j, ci);
        } else {
            lemma_lf_in_block(idx, i);
            lemma_lf_in_block(idx, j);
            let ji = first_index(idx.alphabet@, ci);
            let jj = first_index(idx.alphabet@, cj);
            lemma_first_index(idx.alphabet@, ci);
            lemma_first_index(idx.alphabet@, cj);
            assert(ji != jj);
            if ji < jj {
                lemma_sum_take_succ(idx.counts@, ji);
                lemma_sum_take_mono(idx.counts@, ji + 1, jj);
            } else {
                lemma_sum_take_succ(idx.counts@, jj);
                lemma_sum_take_mono(idx.counts@, jj + 1, ji);
            }
        }
    }
}

/// The LF-mapping of a built index reaches every row: together with
/// `lemma_lf_range` and `lemma_lf_injective`, it is a bijection on `0..n`.
pub proof fn lemma_lf_surjective(idx: FMIndex, y: int)
    requires
        idx.built(),
        0 <= y < idx.n(),
    ensures
        exists|i: int| 0 <= i < idx.n() && #[trigger] idx.spec_lf(i) == y,
{
    lemma_built_counts(idx, idx.text@);
    if y == 0 {
        let i = lemma_count_pos_exists(idx.bwt@, SENTINEL);
        assert(idx.spec_lf(i) == 0);
        assert(0 <= i < idx.n() && idx.spec_lf(i) == y);
    } else {
        let j = lemma_block_cover(idx.counts@, y - 1);
        let c = idx.alphabet@[j];
        assert(idx.alphabet@.contains(c));
        assert(c != SENTINEL);
        let k = y - crate::counting::sum_usize(idx.counts@.take(j));
        assert(count_char(idx.bwt@, c) == idx.counts@[j]);
        let i = lemma_kth_occurrence(idx.bwt@, c, k);
        lemma_first_index(idx.alphabet@, c);
        assert(first_index(idx.alphabet@, c) == j) by {
            let fi = first_index(idx.alphabet@, c);
            assert(idx.alphabet@[fi] == idx.alphabet@[j]);
        }
        assert(idx.spec_lf(i) == y);
        assert(0 <= i < idx.n() && idx.spec_lf(i) == y);
    }
}

/// Which symbol a sorted sequence holds at a position is decided by
/// counting: position `r` holds `c` exactly when `r` falls in the window
/// that the symbols below `c` open and the occurrences of `c` span.
proof fn lemma_sorted_window(f: Seq<char>, r: int, c: char)
    requires
        forall|a: int, b: int|
            0 <= a < b < f.len() ==> !sym_lt(#[trigger] f[b], #[trigger] f[a]),
        0 <= r < f.len(),
    ensures
        f[r] == c <==> (count_below(f, c) <= r < count_below(f, c) + count_char(f, c)),
{
    lemma_sym_trichotomy(f[r], c);
    if f[r] == c {
        assert forall|m: int|
            0 <= m < r + 1 implies (sym_lt(#[trigger] f.take(r + 1)[m], c) || f.take(r + 1)[m]
            == c) by {
            assert(f.take(r + 1)[m] == f[m]);
            if m < r {
                assert(!sym_lt(f[r], f[m]));
            }
            lemma_sym_trichotomy(f[m], c);
        }
        lemma_below_all_le(f.take(r + 1), c);
        lemma_below_take_mono(f, r + 1, f.len() as int, c);
        lemma_below_take_all(f, c);
        lemma_count_take_mono(f, r + 1, f.len() as int, c);
        lemma_count_take_all(f, c);
        assert forall|q: int| r + 1 <= q < f.len() implies !sym_lt(#[trigger] f[q], c) by {
            assert(!sym_lt(f[q], f[r]));
        }
        lemma_below_frozen(f, r + 1, c);
        lemma_count_at_pos(f, r, c);
    } else if sym_lt(f[r], c) {
        assert forall|m: int| 0 <= m < r + 1 implies sym_lt(#[trigger] f.take(r + 1)[m], c) by {
            assert(f.take(r + 1)[m] == f[m]);
            if m < r {
                assert(!sym_lt(f[r], f[m]));
            }
            lemma_sym_trichotomy(f[m], f[r]);
        }
        lemma_below_all_lt(f.take(r + 1), c);
        lemma_below_take_mono(f, r + 1, f.len() as int, c);
        lemma_below_take_all(f, c);
    } else {
        assert forall|q: int|
            r <= q < f.len() implies (!sym_lt(#[trigger] f[q], c) && f[q] != c) by {
            if q > r {
                assert(!sym_lt(f[q], f[r]));
            }
            lemma_sym_trichotomy(f[q], f[r]);
            lemma_sym_trichotomy(f[q], c);
        }
        lemma_below_frozen(f, r, c);
        crate::counting::lemma_count_frozen(f, r, c);
        lemma_below_partition(f.take(r), c);
    }
}

/// Among the symbols of a text covered by a duplicate-free ascending
/// alphabet, those ranking below alphabet symbol `j` are counted by the
/// first `j` per-symbol counts.
proof fn lemma_below_matches_counts(al: Seq<char>, t: Seq<char>, j: int)
    requires
        forall|a: int, b: int| 0 <= a < b < al.len() ==> (al[a] as int) < (al[b] as int),
        forall|i: int| 0 <= i < t.len() ==> al.contains(#[trigger] t[i]),
        !t.contains(SENTINEL),
        !al.contains(SENTINEL),
        0 <= j < al.len(),
    ensures
        count_below(t, al[j]) == sum_counts(al.take(j), t),
    decreases t.len(),
{
    let c = al[j];
    let alj = al.take(j);
    assert(c != SENTINEL) by {
        assert(al.contains(al[j]));
    }
    if t.len() == 0 {
        assert(t =~= Seq::<char>::empty());
        lemma_sum_counts_empty(alj);
    } else {
        let t0 = t.drop_last();
        let x = t.last();
        assert(forall|i: int| 0 <= i < t0.len() ==> t0[i] == t[i]);
        assert(!t0.contains(SENTINEL)) by {
            if t0.contains(SENTINEL) {
                let i = choose|i: int| 0 <= i < t0.len() && t0[i] == SENTINEL;
                assert(t[i] == SENTINEL);
            }
        }
        lemma_below_matches_counts(al, t0, j);
        assert(t0.push(x) =~= t);
        lemma_below_push(t0, x, c);
        assert(x != SENTINEL) by {
            assert(t.contains(t[t.len() - 1]));
        }
        assert(alj.no_duplicates()) by {
            assert(forall|a: int, b: int|
                0 <= a < b < j ==> (alj[a] as int) < (alj[b] as int));
        }
        assert(al.contains(x)) by {
            assert(t[t.len() - 1] == x);
        }
        let m = choose|m: int| 0 <= m < al.len() && al[m] == x;
        if sym_lt(x, c) {
            assert(m < j) by {
                if m > j {
                    assert((al[j] as int) < (al[m] as int));
                }
            }
            assert(alj[m] == x);
            assert(alj.contains(x));
            lemma_sum_counts_push(alj, t0, x);
        } else {
            assert(!alj.contains(x)) by {
                if alj.contains(x) {
                    let m2 = choose|m2: int| 0 <= m2 < alj.len() && alj[m2] == x;
                    assert(al[m2] == x);
                    assert((al[m2] as int) < (al[j] as int));
                    assert(sym_lt(x, c));
                }
            }
            lemma_sum_counts_push_absent(alj, t0, x);
        }
    }
}

/// Rows of a built index whose rotations start with the alphabet symbol
/// `c` form exactly the block that `c_value` opens, `counts` wide: the
/// semantic reading of the C-value table.
pub proof fn lemma_block_rows(idx: FMIndex, r: int, c: char)
    requires
        idx.built(),
        0 <= r < idx.n(),
        idx.alphabet@.contains(c),
    ensures
        rotation(ext_of(idx.text@), idx.suffix_array@[r] as int)[0] == c <==> idx.c_value(c)
            <= r < idx.c_value(c) + idx.counts@[first_index(idx.alphabet@, c)],
{
    lemma_built_counts(idx, idx.text@);
    lemma_index_shape(idx);
    let t = idx.text@;
    let e = ext_of(t);
    let sa = idx.suffix_array@;
    let n = idx.n();
    let f = pick(e, sa);
    let j = first_index(idx.alphabet@, c);
    lemma_first_index(idx.alphabet@, c);
    lemma_rotation_index(e, sa[r] as int, 0);
    assert(rotation(e, sa[r] as int)[0] == f[r]);
    assert forall|a: int, b: int|
        0 <= a < b < f.len() implies !sym_lt(#[trigger] f[b], #[trigger] f[a]) by {
        lemma_first_symbols_sorted(idx, a, b);
        lemma_rotation_index(e, sa[a] as int, 0);
        lemma_rotation_index(e, sa[b] as int, 0);
    }
    lemma_pick_counts(e, sa);
    lemma_pick_perm(e, sa, ident_seq(e.len()));
    assert(pick(e, ident_seq(e.len())) =~= e) by {
        assert(forall|i: int| 0 <= i < e.len() ==> ident_seq(e.len())[i] == i as usize);
    }
    lemma_below_perm(f, e, c);
    lemma_below_push(t, SENTINEL, c);
    assert(c != SENTINEL);
    assert(!idx.alphabet@.contains(SENTINEL));
    assert forall|i: int| 0 <= i < t.len() implies idx.alphabet@.contains(#[trigger] t[i]) by {
        assert(t.contains(t[i]));
        if t[i] == SENTINEL {
            assert(t.contains(SENTINEL));
        }
    }
    lemma_below_matches_counts(idx.alphabet@, t, j);
    assert(forall|m: int|
        0 <= m < j ==> idx.counts@.take(j)[m] == count_char(
            t,
            #[trigger] idx.alphabet@.take(j)[m],
        )) by {
        assert(forall|m: int| 0 <= m < j ==> idx.alphabet@.take(j)[m] == idx.alphabet@[m]);
        assert(forall|m: int| 0 <= m < j ==> idx.counts@.take(j)[m] == idx.counts@[m]);
    }
    lemma_sum_matches(idx.counts@.take(j), idx.alphabet@.take(j), t);
    assert(count_below(f, c) == idx.c_value(c));
    assert(count_char(f, c) == idx.counts@[j]) by {
        assert(count_char(e, c) == count_char(idx.bwt@, c));
    }
    lemma_sorted_window(f, r, c);
}

/// For a pattern that is one alphabet symbol, backward search returns a
/// range, and it holds exactly the rows whose rotations begin with that
/// symbol.
pub proof fn lemma_search_single_symbol(idx: FMIndex, c: char)
    requires
        idx.built(),
        idx.alphabet@.contains(c),
    ensures
        idx.spec_search(seq![c]) is Some,
        idx.spec_search(seq![c]) matches Some(rng) ==> forall|r: int|
            0 <= r < idx.n() ==> (rng.0 <= r <= rng.1 <==> rotation(
                ext_of(idx.text@),
                #[trigger] idx.suffix_array@[r] as int,
            )[0] == c),
{
    lemma_built_counts(idx, idx.text@);
    let pat = seq![c];
    assert(pat.drop_first() =~= Seq::<char>::empty());
    assert(pat[0] == c);
    let j = first_index(idx.alphabet@, c);
    lemma_first_index(idx.alphabet@, c);
    assert(c != SENTINEL);
    assert(idx.rank_at(c, -1) == 0) by {
        assert(idx.bwt@.take(0) =~= Seq::<char>::empty());
    }
    assert(idx.rank_at(c, idx.n() - 1) == idx.counts@[j]) by {
        assert(idx.bwt@.take(idx.n()) =~= idx.bwt@);
    }
    assert(idx.counts@[j] >= 1) by {
        assert(idx.text@.contains(c));
        let p = choose|p: int| 0 <= p < idx.text@.len() && idx.text@[p] == c;
        lemma_count_at_pos(idx.text@, p, c);
        lemma_count_take_mono(idx.text@, p + 1, idx.text@.len() as int, c);
        lemma_count_take_all(idx.text@, c);
    }
    idx.lemma_block_bound(c, idx.n());
    assert(idx.spec_search(Seq::<char>::empty()) == Some((0int, idx.n() - 1)));
    assert(idx.spec_search(pat.drop_first()) == Some((0int, idx.n() - 1)));
    assert(idx.spec_search(pat) == idx.bs_step(c, 0, idx.n() - 1));
    assert forall|r: int|
        0 <= r < idx.n() implies (idx.c_value(c) <= r <= idx.c_value(c) + idx.counts@[j] - 1
        <==> rotation(ext_of(idx.text@), #[trigger] idx.suffix_array@[r] as int)[0]
        == c) by {
        lemma_block_rows(idx, r, c);
    }
}

/// The empty pattern matches the whole table; a pattern consisting solely
/// of the sentinel matches exactly the single sentinel row, row 0, the
/// only row whose rotation begins with the sentinel.
pub proof fn lemma_search_base_cases(idx: FMIndex)
    requires
        idx.built(),
    ensures
        idx.spec_search(Seq::<char>::empty()) == Some((0int, idx.n() - 1)),
        idx.spec_search(seq![SENTINEL]) == Some((0int, 0int)),
        forall|r: int|
            0 <= r < idx.n() ==> (rotation(
                ext_of(idx.text@),
                #[trigger] idx.suffix_array@[r] as int,
            )[0] == SENTINEL <==> r == 0),
{
    lemma_built_counts(idx, idx.text@);
    lemma_index_shape(idx);
    let pat = seq![SENTINEL];
    assert(pat.drop_first() =~= Seq::<char>::empty());
    assert(idx.rank_at(SENTINEL, -1) == 0) by {
        assert(idx.bwt@.take(0) =~= Seq::<char>::empty());
    }
    assert(idx.rank_at(SENTINEL, idx.n() - 1) == 1) by {
        assert(idx.bwt@.take(idx.n()) =~= idx.bwt@);
    }
    assert(idx.spec_search(pat) == idx.bs_step(SENTINEL, 0, idx.n() - 1));
    let t = idx.text@;
    let e = ext_of(t);
    let sa = idx.suffix_array@;
    assert forall|r: int|
        0 <= r < idx.n() implies (rotation(e, #[trigger] sa[r] as int)[0] == SENTINEL <==> r
        == 0) by {
        lemma_rotation_index(e, sa[r] as int, 0);
        if r == 0 {
            assert(e[sa[0] as int] == SENTINEL);
        } else {
            assert(sa[r] != sa[0]);
            assert((sa[r] as int) < idx.n() - 1);
            assert(e[sa[r] as int] == t[sa[r] as int]);
            if t[sa[r] as int] == SENTINEL {
                assert(t.contains(SENTINEL));
            }
        }
    }
}

/// The width of the range that backward search returns equals the
/// occurrence count; when no range is returned the count is zero. Every
/// returned range is nonempty and within the table, so the count lies
/// between one and `n`.
pub proof fn lemma_search_width(idx: FMIndex, pat: Seq<char>)
    requires
        idx.built(),
    ensures
        idx.spec_search(pat) matches Some(r) ==> idx.spec_count(pat) == r.1 - r.0 + 1
            && 1 <= idx.spec_count(pat) <= idx.n(),
        idx.spec_search(pat) is None ==> idx.spec_count(pat) == 0,
{
    idx.lemma_search_bounds(pat);
}

} // verus!
