use vstd::prelude::*;
use crate::counting::count_char;
use crate::counting::sum_usize;
use crate::counting::first_index;
use crate::counting::run_count;
use crate::counting::lemma_count_take_succ;
use crate::counting::lemma_count_take_mono;
use crate::counting::lemma_count_take_all;
use crate::counting::lemma_count_at_pos;
use crate::counting::lemma_count_push;
use crate::counting::lemma_count_pos_exists;
use crate::counting::lemma_counts_total;
use crate::counting::lemma_sum_matches;
use crate::counting::lemma_sum_nonneg;
use crate::counting::lemma_sum_take_succ;
use crate::counting::lemma_sum_take_mono;
use crate::counting::lemma_sum_take_all;
use crate::counting::lemma_first_index;
use crate::counting::lemma_run_take_succ;
use crate::counting::lemma_contains_take_succ;
use crate::counting::lemma_contains_insert;
use crate::perm::pick;
use crate::perm::lemma_pick_counts;
use crate::perm::lemma_shift_counts;
use crate::perm::lemma_perm_facts;
use crate::lex::SENTINEL;
use crate::lex::sym_lt;
use crate::lex::lemma_sym_trichotomy;
use crate::lex::lex_le;
use crate::lex::rotation;
use crate::lex::lemma_rotation_len;
use crate::lex::lemma_rotation_index;
use crate::lex::lemma_lex_at;
use crate::lex::lemma_lex_le_refl;
use crate::lex::lemma_lex_total;
use crate::lex::lemma_lex_trans;
use crate::perm::ident_seq;

verus! {

/// The sentinel-terminated extension of a text.
pub open spec fn ext_of(t: Seq<char>) -> Seq<char> {
    t.push(SENTINEL)
}

/// Offset of the symbol that cyclically precedes offset `r` in a sequence
/// of length `n`.
pub open spec fn prev_idx(r: int, n: int) -> int {
    if r == 0 {
        n - 1
    } else {
        r - 1
    }
}

/// The alphabet lists exactly the distinct non-sentinel symbols of `t`,
/// strictly ascending by code point.
pub open spec fn wf_alphabet(al: Seq<char>, t: Seq<char>) -> bool {
    &&& forall|a: int, b: int| 0 <= a < b < al.len() ==> (al[a] as int) < (al[b] as int)
    &&& forall|c: char| #[trigger] al.contains(c) <==> (t.contains(c) && c != SENTINEL)
}

/// Each entry gives the occurrence count in `t` of the alphabet symbol at
/// the same position.
pub open spec fn wf_counts(counts: Seq<usize>, al: Seq<char>, t: Seq<char>) -> bool {
    &&& counts.len() == al.len()
    &&& forall|j: int| 0 <= j < al.len() ==> counts[j] == count_char(t, #[trigger] al[j])
}

/// The suffix array is a permutation of the offsets `0..n` of the
/// sentinel-terminated text, listing its rotations in ascending
/// lexicographic order.
pub open spec fn wf_sa(sa: Seq<usize>, t: Seq<char>) -> bool {
    &&& sa.to_multiset() == ident_seq(ext_of(t).len()).to_multiset()
    &&& forall|i: int, j: int|
        0 <= i < j < sa.len() ==> lex_le(
            rotation(ext_of(t), #[trigger] sa[i] as int),
            rotation(ext_of(t), #[trigger] sa[j] as int),
        )
}

/// Each BWT entry is the symbol cyclically preceding the rotation that the
/// suffix array puts at that rank.
pub open spec fn wf_bwt(bwt: Seq<char>, sa: Seq<usize>, t: Seq<char>) -> bool {
    &&& bwt.len() == ext_of(t).len()
    &&& sa.len() == bwt.len()
    &&& forall|i: int|
        0 <= i < bwt.len() ==> #[trigger] bwt[i] == ext_of(t)[prev_idx(
            sa[i] as int,
            bwt.len() as int,
        )]
}

/// Row `j`, column `i` holds the inclusive prefix count of alphabet symbol
/// `j` within `bwt[0..=i]`.
pub open spec fn wf_tallies(tal: Seq<Vec<usize>>, al: Seq<char>, bwt: Seq<char>) -> bool {
    &&& tal.len() == al.len()
    &&& forall|j: int| 0 <= j < tal.len() ==> (#[trigger] tal[j])@.len() == bwt.len()
    &&& forall|j: int, i: int|
        0 <= j < tal.len() && 0 <= i < bwt.len() ==> (#[trigger] tal[j]@[i]) == count_char(
            bwt.take(i + 1),
            al[j],
        )
}

/// Rejection signal for construction on invalid input.
#[derive(Debug, PartialEq, Eq, Clone, Copy)]
pub enum BuildError {
    /// The text already contains the reserved sentinel symbol.
    InvalidInput,
}

/// An FM-Index over a text: alphabet, per-symbol counts, suffix array,
/// Burrows-Wheeler Transform and cumulative rank tallies, built once by
/// `build` and read-only afterwards.
pub struct FMIndex {
    pub alphabet: Vec<char>,
    pub counts: Vec<usize>,
    pub suffix_array: Vec<usize>,
    pub bwt: Vec<char>,
    pub tallies: Vec<Vec<usize>>,
    /// The text the finished index describes; purely a specification value.
    pub text: Ghost<Seq<char>>,
}

impl FMIndex {
    /// Number of rows of the index: the length of the sentinel-terminated text.
    pub open spec fn n(self) -> int {
        self.bwt@.len() as int
    }

    /// Every derived table agrees with the text `t`.
    pub open spec fn wf_for(self, t: Seq<char>) -> bool {
        &&& !t.contains(SENTINEL)
        &&& t.len() < usize::MAX
        &&& wf_alphabet(self.alphabet@, t)
        &&& wf_counts(self.counts@, self.alphabet@, t)
        &&& wf_sa(self.suffix_array@, t)
        &&& wf_bwt(self.bwt@, self.suffix_array@, t)
        &&& wf_tallies(self.tallies@, self.alphabet@, self.bwt@)
    }

    /// The index has been fully built over its recorded text.
    pub open spec fn built(self) -> bool {
        self.wf_for(self.text@)
    }

    /// Initializes a new empty FM-Index.
    pub fn new() -> (r: FMIndex)
        ensures
            r.alphabet@.len() == 0,
            r.counts@.len() == 0,
            r.suffix_array@.len() == 0,
            r.bwt@.len() == 0,
            r.tallies@.len() == 0,
            r.text@.len() == 0,
    {
        FMIndex {
            alphabet: Vec::new(),
            counts: Vec::new(),
            suffix_array: Vec::new(),
            bwt: Vec::new(),
            tallies: Vec::new(),
            text: Ghost(Seq::empty()),
        }
    }

    /// Stores the alphabet of the input text in `self.alphabet` and returns
    /// a copy: the distinct non-sentinel symbols, ascending by code point.
    #[verifier::loop_isolation(false)]
    pub fn find_alphabet(&mut self, text: &str) -> (r: Vec<char>)
        ensures
            wf_alphabet(final(self).alphabet@, text@),
            r@ == final(self).alphabet@,
            final(self).counts@ == old(self).counts@,
            final(self).suffix_array@ == old(self).suffix_array@,
            final(self).bwt@ == old(self).bwt@,
            final(self).tallies@ == old(self).tallies@,
            final(self).text@ == old(self).text@,
    {
        let tv = str_chars(text);
        let mut al: Vec<char> = Vec::new();
        let mut i: usize = 0;
        while i < tv.len()
            invariant
                i <= tv.len(),
                forall|a: int, b: int|
                    0 <= a < b < al@.len() ==> (al@[a] as int) < (al@[b] as int),
                forall|c: char|
                    #[trigger] al@.contains(c) <==> (tv@.take(i as int).contains(c)
                        && c != SENTINEL),
            decreases tv.len() - i,
        {
            let c = tv[i];
            if c != SENTINEL {
                let mut p: usize = 0;
                while p < al.len() && char_lt(al[p], c)
                    invariant
                        p <= al.len(),
                        forall|k: int| 0 <= k < p ==> (al@[k] as int) < (c as int),
                    decreases al.len() - p,
                {
                    p += 1;
                }
                if p == al.len() || al[p] != c {
                    proof {
                        assert(p < al@.len() ==> (al@[p as int] as int) > (c as int)) by {
                            if p < al@.len() && (al@[p as int] as int) == (c as int) {
                                assert(al@[p as int] == c);
                            }
                        }
                        assert(!al@.contains(c)) by {
                            if al@.contains(c) {
                                let k = choose|k: int| 0 <= k < al@.len() && al@[k] == c;
                                if k < p {
                                    assert((al@[k] as int) < (c as int));
                                }
                                if k > p {
                                    assert((al@[p as int] as int) < (al@[k] as int));
                                }
                            }
                        }
                        lemma_contains_insert(al@, p as int, c);
                    }
                    let ghost al_old = al@;
                    proof {
                        assert(p < al_old.len() ==> (al_old[p as int] as int) > (c as int));
                    }
                    al.insert(p, c);
                    proof {
                        assert forall|a: int, b: int|
                            0 <= a < b < al@.len() implies (al@[a] as int) < (al@[b] as int) by {
                            if b < p {
                            } else if a < p && b == p {
                                assert(al@[a] == al_old[a]);
                            } else if a < p && b > p {
                                assert(al@[b] == al_old[b - 1]);
                            } else if a == p {
                                assert(al@[b] == al_old[b - 1]);
                                if b - 1 > p {
                                    assert((al_old[p as int] as int) < (al_old[b - 1] as int));
                                }
                            } else {
                                assert(al@[a] == al_old[a - 1]);
                                assert(al@[b] == al_old[b - 1]);
                            }
                        }
                    }
                } else {
                    proof {
                        assert(al@[p as int] == c);
                        assert(al@.contains(c));
                    }
                }
            }
            proof {
                lemma_contains_take_succ(tv@, i as int);
            }
            i += 1;
        }
        proof {
            assert(tv@.take(tv@.len() as int) =~= tv@);
        }
        self.alphabet = al;
        let r = copy_vec(&self.alphabet);
        r
    }

    /// Stores in `self.counts` the occurrence count in the input text of
    /// each symbol of `self.alphabet`, positionally aligned, and returns a
    /// copy.
    #[verifier::loop_isolation(false)]
    pub fn compute_counts(&mut self, text: &str) -> (r: Vec<usize>)
        ensures
            wf_counts(final(self).counts@, final(self).alphabet@, text@),
            r@ == final(self).counts@,
            final(self).alphabet@ == old(self).alphabet@,
            final(self).suffix_array@ == old(self).suffix_array@,
            final(self).bwt@ == old(self).bwt@,
            final(self).tallies@ == old(self).tallies@,
            final(self).text@ == old(self).text@,
    {
        let tv = str_chars(text);
        let mut counts: Vec<usize> = Vec::new();
        let mut j: usize = 0;
        while j < self.alphabet.len()
            invariant
                j <= self.alphabet.len(),
                counts@.len() == j as int,
                forall|k: int|
                    0 <= k < j ==> counts@[k] == count_char(text@, #[trigger] self.alphabet@[k]),
            decreases self.alphabet.len() - j,
        {
            let c = self.alphabet[j];
            let cnt = count_occurrences_in(&tv, c);
            counts.push(cnt);
            j += 1;
        }
        self.counts = counts;
        let r = copy_vec(&self.counts);
        r
    }

    /// Constructs the suffix array of the input text and stores it in
    /// `self.suffix_array`, returning a copy: the rotation start offsets of
    /// the sentinel-terminated text, in ascending rotation order.
    #[verifier::loop_isolation(false)]
    pub fn construct_suffix_array(&mut self, text: &str) -> (r: Vec<usize>)
        requires
            text@.len() < usize::MAX,
        ensures
            wf_sa(final(self).suffix_array@, text@),
            r@ == final(self).suffix_array@,
            final(self).alphabet@ == old(self).alphabet@,
            final(self).counts@ == old(self).counts@,
            final(self).bwt@ == old(self).bwt@,
            final(self).tallies@ == old(self).tallies@,
            final(self).text@ == old(self).text@,
    {
        let mut e = str_chars(text);
        e.push(SENTINEL);
        proof {
            assert(e@ == ext_of(text@));
        }
        let n = e.len();
        let mut v: Vec<usize> = Vec::new();
        let mut q: usize = 0;
        while q < n
            invariant
                q <= n,
                v@ == ident_seq(q as nat),
            decreases n - q,
        {
            v.push(q);
            proof {
                assert(ident_seq(q as nat).push(q) =~= ident_seq((q + 1) as nat));
            }
            q += 1;
        }
        proof {
            assert(v@ == ident_seq(n as nat));
            assert forall|k: int| 0 <= k < v@.len() implies (#[trigger] v@[k] as int)
                < e@.len() by {
                assert(v@[k] == k as usize);
            }
        }
        sort_rotations(&e, &mut v);
        self.suffix_array = v;
        let r = copy_vec(&self.suffix_array);
        r
    }

    /// Builds and returns the Burrows-Wheeler Matrix: every rotation of the
    /// sentinel-terminated text, in suffix-array order. The matrix is a
    /// derived view for inspection; it is not stored in the index.
    #[verifier::loop_isolation(false)]
    pub fn construct_bwm(&self, text: &str) -> (rows: Vec<String>)
        requires
            wf_sa(self.suffix_array@, text@),
            text@.len() < usize::MAX,
        ensures
            rows@.len() == ext_of(text@).len(),
            forall|i: int|
                0 <= i < rows@.len() ==> (#[trigger] rows@[i])@ == rotation(
                    ext_of(text@),
                    self.suffix_array@[i] as int,
                ),
    {
        let mut e = str_chars(text);
        e.push(SENTINEL);
        let n = e.len();
        proof {
            assert(e@ == ext_of(text@));
            crate::perm::lemma_perm_facts(self.suffix_array@, e@.len() as nat);
        }
        let mut rows: Vec<String> = Vec::new();
        let mut i: usize = 0;
        while i < n
            invariant
                i <= n,
                rows@.len() == i as int,
                forall|k: int|
                    0 <= k < i ==> (#[trigger] rows@[k])@ == rotation(
                        e@,
                        self.suffix_array@[k] as int,
                    ),
            decreases n - i,
        {
            let s = self.suffix_array[i];
            let ghost rot = rotation(e@, s as int);
            proof {
                lemma_rotation_len(e@, s as int);
            }
            let mut row = String::new();
            let mut k: usize = 0;
            while k < n
                invariant
                    k <= n,
                    (s as int) < e@.len(),
                    row@ == rot.take(k as int),
                decreases n - k,
            {
                let idx = if k >= n - s {
                    k - (n - s)
                } else {
                    s + k
                };
                push_char(&mut row, e[idx]);
                proof {
                    lemma_rotation_index(e@, s as int, k as int);
                    assert(rot.take(k as int).push(e@[idx as int]) =~= rot.take(k as int + 1));
                }
                k += 1;
            }
            proof {
                assert(rot.take(rot.len() as int) =~= rot);
            }
            rows.push(row);
            i += 1;
        }
        rows
    }

    /// Constructs the Burrows-Wheeler Transform from `self.suffix_array`
    /// and the input text, stores it in `self.bwt`, and returns it as a
    /// string: the symbol cyclically preceding each listed rotation.
    #[verifier::loop_isolation(false)]
    pub fn construct_bwt(&mut self, text: &str) -> (r: String)
        requires
            wf_sa(old(self).suffix_array@, text@),
            text@.len() < usize::MAX,
        ensures
            wf_bwt(final(self).bwt@, final(self).suffix_array@, text@),
            r@ == final(self).bwt@,
            final(self).alphabet@ == old(self).alphabet@,
            final(self).counts@ == old(self).counts@,
            final(self).suffix_array@ == old(self).suffix_array@,
            final(self).tallies@ == old(self).tallies@,
            final(self).text@ == old(self).text@,
    {
        let mut e = str_chars(text);
        e.push(SENTINEL);
        let n = e.len();
        proof {
            assert(e@ == ext_of(text@));
            crate::perm::lemma_perm_facts(self.suffix_array@, e@.len() as nat);
        }
        let mut b: Vec<char> = Vec::new();
        let mut i: usize = 0;
        while i < n
            invariant
                i <= n,
                b@.len() == i as int,
                forall|k: int|
                    0 <= k < i ==> #[trigger] b@[k] == e@[prev_idx(
                        self.suffix_array@[k] as int,
                        n as int,
                    )],
            decreases n - i,
        {
            let s = self.suffix_array[i];
            let p = if s == 0 {
                n - 1
            } else {
                s - 1
            };
            b.push(e[p]);
            i += 1;
        }
        self.bwt = b;
        let r = chars_to_string(&self.bwt);
        r
    }

    /// Computes the number of maximal runs of identical adjacent symbols in
    /// `self.bwt`.
    #[verifier::loop_isolation(false)]
    pub fn compute_r(&self) -> (r: usize)
        ensures
            r == run_count(self.bwt@),
    {
        let mut r: usize = 0;
        let mut i: usize = 0;
        while i < self.bwt.len()
            invariant
                i <= self.bwt.len(),
                r <= i,
                r == run_count(self.bwt@.take(i as int)),
            decreases self.bwt.len() - i,
        {
            if i == 0 {
                r += 1;
                proof {
                    assert(run_count(self.bwt@.take(1)) == 1);
                }
            } else {
                proof {
                    lemma_run_take_succ(self.bwt@, i as int);
                }
                if self.bwt[i] != self.bwt[i - 1] {
                    r += 1;
                }
            }
            i += 1;
        }
        proof {
            assert(self.bwt@.take(self.bwt@.len() as int) =~= self.bwt@);
        }
        r
    }

    /// Constructs the cumulative tally rows over `self.bwt`, one row per
    /// alphabet symbol, stores them in `self.tallies`, and returns a copy.
    #[verifier::loop_isolation(false)]
    pub fn construct_tallies(&mut self) -> (r: Vec<Vec<usize>>)
        ensures
            wf_tallies(final(self).tallies@, final(self).alphabet@, final(self).bwt@),
            r@.len() == final(self).tallies@.len(),
            forall|j: int| 0 <= j < r@.len() ==> (#[trigger] r@[j])@ == final(self).tallies@[j]@,
            final(self).alphabet@ == old(self).alphabet@,
            final(self).counts@ == old(self).counts@,
            final(self).suffix_array@ == old(self).suffix_array@,
            final(self).bwt@ == old(self).bwt@,
            final(self).text@ == old(self).text@,
    {
        let mut rows: Vec<Vec<usize>> = Vec::new();
        let mut j: usize = 0;
        while j < self.alphabet.len()
            invariant
                j <= self.alphabet.len(),
                rows@.len() == j as int,
                forall|k: int| 0 <= k < j ==> (#[trigger] rows@[k])@.len() == self.bwt@.len(),
                forall|k: int, i: int|
                    0 <= k < j && 0 <= i < self.bwt@.len() ==> (#[trigger] rows@[k]@[i])
                        == count_char(self.bwt@.take(i + 1), self.alphabet@[k]),
            decreases self.alphabet.len() - j,
        {
            let c = self.alphabet[j];
            let mut row: Vec<usize> = Vec::new();
            let mut cnt: usize = 0;
            let mut i: usize = 0;
            while i < self.bwt.len()
                invariant
                    i <= self.bwt.len(),
                    cnt <= i,
                    cnt == count_char(self.bwt@.take(i as int), c),
                    row@.len() == i as int,
                    forall|m: int|
                        0 <= m < i ==> #[trigger] row@[m] == count_char(
                            self.bwt@.take(m + 1),
                            c,
                        ),
                decreases self.bwt.len() - i,
            {
                proof {
                    lemma_count_take_succ(self.bwt@, i as int, c);
                }
                if self.bwt[i] == c {
                    cnt += 1;
                }
                row.push(cnt);
                i += 1;
            }
            rows.push(row);
            j += 1;
        }
        self.tallies = rows;
        let mut r: Vec<Vec<usize>> = Vec::new();
        let mut j2: usize = 0;
        while j2 < self.tallies.len()
            invariant
                j2 <= self.tallies.len(),
                r@.len() == j2 as int,
                forall|k: int| 0 <= k < j2 ==> (#[trigger] r@[k])@ == self.tallies@[k]@,
            decreases self.tallies.len() - j2,
        {
            let row = copy_vec(&self.tallies[j2]);
            r.push(row);
            j2 += 1;
        }
        r
    }

    /// Builds the FM-Index from the input text by running every stage in
    /// order, or rejects a text that already contains the sentinel.
    #[verifier::loop_isolation(false)]
    pub fn build(&mut self, text: &str) -> (res: Result<(), BuildError>)
        requires
            text@.len() < usize::MAX,
        ensures
            !text@.contains(SENTINEL) ==> res == Result::<(), BuildError>::Ok(())
                && final(self).built() && final(self).text@ == text@,
            text@.contains(SENTINEL) ==> res == Result::<(), BuildError>::Err(
                BuildError::InvalidInput,
            ) && *final(self) == *old(self),
    {
        let tv = str_chars(text);
        let mut i: usize = 0;
        while i < tv.len()
            invariant
                i <= tv.len(),
                forall|k: int| 0 <= k < i ==> tv@[k] != SENTINEL,
            decreases tv.len() - i,
        {
            if tv[i] == SENTINEL {
                proof {
                    assert(text@.contains(SENTINEL)) by {
                        assert(text@[i as int] == SENTINEL);
                    }
                }
                return Err(BuildError::InvalidInput);
            }
            i += 1;
        }
        proof {
            assert(!text@.contains(SENTINEL)) by {
                if text@.contains(SENTINEL) {
                    let k = choose|k: int| 0 <= k < text@.len() && text@[k] == SENTINEL;
                    assert(tv@[k] == SENTINEL);
                }
            }
        }
        self.find_alphabet(text);
        self.compute_counts(text);
        self.construct_suffix_array(text);
        self.construct_bwt(text);
        self.construct_tallies();
        self.text = Ghost(text@);
        Ok(())
    }

    /// `C[c]`: count of rows whose rotation starts with a symbol strictly
    /// smaller than `c`, the single sentinel row included.
    pub open spec fn c_value(self, c: char) -> int {
        if c == SENTINEL {
            0
        } else {
            1 + sum_usize(self.counts@.take(first_index(self.alphabet@, c)))
        }
    }

    /// Inclusive rank: occurrences of `c` within `bwt[0..=i]`.
    pub open spec fn rank_at(self, c: char, i: int) -> int {
        count_char(self.bwt@.take(i + 1), c) as int
    }

    /// The LF-mapping over counts and tallies: the sole sentinel position
    /// maps to row zero, every other position to its symbol's block start
    /// plus this occurrence's rank.
    pub open spec fn spec_lf(self, i: int) -> int {
        if self.bwt@[i] == SENTINEL {
            0
        } else {
            self.c_value(self.bwt@[i]) + self.rank_at(self.bwt@[i], i) - 1
        }
    }

    /// One backward-search step: the row range of rotations that start
    /// with `c` followed by a rotation prefix of the range `[top, bottom]`.
    pub open spec fn bs_step(self, c: char, top: int, bottom: int) -> Option<(int, int)> {
        if c != SENTINEL && !self.alphabet@.contains(c) {
            None
        } else {
            let t2 = self.c_value(c) + self.rank_at(c, top - 1);
            let b2 = self.c_value(c) + self.rank_at(c, bottom) - 1;
            if t2 > b2 {
                None
            } else {
                Some((t2, b2))
            }
        }
    }

    /// Backward search over a pattern, processed from its last symbol to
    /// its first, starting from the full table.
    pub open spec fn spec_search(self, pat: Seq<char>) -> Option<(int, int)>
        decreases pat.len(),
    {
        if pat.len() == 0 {
            Some((0, self.n() - 1))
        } else {
            match self.spec_search(pat.drop_first()) {
                None => None,
                Some(r) => self.bs_step(pat[0], r.0, r.1),
            }
        }
    }

    /// Occurrence count: the width of the backward-search range.
    pub open spec fn spec_count(self, pat: Seq<char>) -> int {
        match self.spec_search(pat) {
            Some(r) => r.1 - r.0 + 1,
            None => 0,
        }
    }

    /// Position of symbol `c` in the alphabet.
    #[verifier::loop_isolation(false)]
    fn alpha_index(&self, c: char) -> (j: usize)
        requires
            self.alphabet@.contains(c),
        ensures
            (j as int) == first_index(self.alphabet@, c),
            (j as int) < self.alphabet@.len(),
            self.alphabet@[j as int] == c,
    {
        proof {
            lemma_first_index(self.alphabet@, c);
        }
        let mut j: usize = 0;
        while j < self.alphabet.len()
            invariant
                j <= self.alphabet.len(),
                forall|k: int| 0 <= k < j ==> self.alphabet@[k] != c,
            decreases self.alphabet.len() - j,
        {
            if self.alphabet[j] == c {
                return j;
            }
            j += 1;
        }
        proof {
            assert(false);
        }
        0
    }

    /// Occurrences of `c` among the first `m` BWT symbols.
    #[verifier::loop_isolation(false)]
    fn bwt_rank(&self, c: char, m: usize) -> (r: usize)
        requires
            (m as int) <= self.bwt@.len(),
        ensures
            r == count_char(self.bwt@.take(m as int), c),
            r <= m,
    {
        let mut r: usize = 0;
        let mut i: usize = 0;
        while i < m
            invariant
                i <= m,
                r <= i,
                r == count_char(self.bwt@.take(i as int), c),
            decreases m - i,
        {
            proof {
                lemma_count_take_succ(self.bwt@, i as int, c);
            }
            if self.bwt[i] == c {
                r += 1;
            }
            i += 1;
        }
        r
    }

    /// Returns the LF-mapping (last-to-first column mapping) at the given
    /// BWT offset: the row whose rotation is this row's rotation shifted
    /// one symbol left.
    #[verifier::loop_isolation(false)]
    pub fn lf_mapping(&self, bwt_offset: usize) -> (r: usize)
        requires
            self.built(),
            (bwt_offset as int) < self.n(),
        ensures
            r == self.spec_lf(bwt_offset as int),
            (r as int) < self.n(),
    {
        let c = self.bwt[bwt_offset];
        if c == SENTINEL {
            return 0;
        }
        proof {
            lemma_built_counts(*self, self.text@);
            lemma_perm_facts(self.suffix_array@, self.bwt@.len() as nat);
            assert(self.alphabet@.contains(c)) by {
                assert(self.bwt@[bwt_offset as int] == ext_of(self.text@)[prev_idx(
                    self.suffix_array@[bwt_offset as int] as int,
                    self.n(),
                )]);
                let pos = prev_idx(self.suffix_array@[bwt_offset as int] as int, self.n());
                if pos < self.text@.len() {
                    assert(self.text@.contains(c)) by {
                        assert(self.text@[pos] == c);
                    }
                } else {
                    assert(c == SENTINEL);
                }
            }
        }
        let j = self.alpha_index(c);
        let csum = self.counts_below(j);
        let tal = self.tallies[j][bwt_offset];
        proof {
            assert(tal == self.rank_at(c, bwt_offset as int));
            lemma_count_at_pos(self.bwt@, bwt_offset as int, c);
            lemma_count_take_mono(self.bwt@, bwt_offset as int + 1, self.n(), c);
            lemma_count_take_all(self.bwt@, c);
            lemma_sum_take_succ(self.counts@, j as int);
            lemma_sum_take_mono(self.counts@, j as int + 1, self.counts@.len() as int);
            lemma_sum_take_all(self.counts@);
        }
        csum + tal
    }

    /// Sum of the counts of the alphabet symbols before position `j`.
    #[verifier::loop_isolation(false)]
    fn counts_below(&self, j: usize) -> (csum: usize)
        requires
            self.built(),
            (j as int) <= self.counts@.len(),
        ensures
            csum == sum_usize(self.counts@.take(j as int)),
    {
        proof {
            lemma_built_counts(*self, self.text@);
        }
        let mut csum: usize = 0;
        let mut d: usize = 0;
        while d < j
            invariant
                d <= j,
                csum == sum_usize(self.counts@.take(d as int)),
            decreases j - d,
        {
            proof {
                lemma_sum_take_succ(self.counts@, d as int);
                lemma_sum_take_mono(self.counts@, d as int + 1, self.counts@.len() as int);
                lemma_sum_take_all(self.counts@);
                lemma_sum_nonneg(self.counts@.take(d as int));
            }
            csum = csum + self.counts[d];
            d += 1;
        }
        csum
    }

    /// Reconstructs and returns the original text from the built index,
    /// reading each text position's symbol out of the BWT through the
    /// suffix array.
    #[verifier::loop_isolation(false)]
    pub fn inverse_bwt(&self) -> (r: String)
        requires
            self.built(),
        ensures
            r@ == self.text@,
    {
        let ghost t = self.text@;
        let ghost e = ext_of(t);
        proof {
            lemma_built_counts(*self, t);
            lemma_perm_facts(self.suffix_array@, self.bwt@.len() as nat);
        }
        let n = self.bwt.len();
        let mut out: Vec<char> = Vec::new();
        let mut p: usize = 0;
        while p < n - 1
            invariant
                p <= n - 1,
                out@ == t.take(p as int),
            decreases n - 1 - p,
        {
            let row = self.find_sa_pos(p + 1);
            out.push(self.bwt[row]);
            proof {
                assert(self.bwt@[row as int] == e[prev_idx(
                    self.suffix_array@[row as int] as int,
                    n as int,
                )]);
                assert(prev_idx(p as int + 1, n as int) == p as int);
                assert(e[p as int] == t[p as int]);
                assert(t.take(p as int).push(t[p as int]) =~= t.take(p as int + 1));
            }
            p += 1;
        }
        proof {
            assert(t.take(t.len() as int) =~= t);
        }
        chars_to_string(&out)
    }

    /// Row whose listed rotation starts at offset `q`.
    #[verifier::loop_isolation(false)]
    fn find_sa_pos(&self, q: usize) -> (i: usize)
        requires
            self.suffix_array@.contains(q),
        ensures
            (i as int) < self.suffix_array@.len(),
            self.suffix_array@[i as int] == q,
    {
        let mut i: usize = 0;
        while i < self.suffix_array.len()
            invariant
                i <= self.suffix_array.len(),
                forall|k: int| 0 <= k < i ==> self.suffix_array@[k] != q,
            decreases self.suffix_array.len() - i,
        {
            if self.suffix_array[i] == q {
                return i;
            }
            i += 1;
        }
        proof {
            let k = choose|k: int|
                0 <= k < self.suffix_array@.len() && self.suffix_array@[k] == q;
            assert(false);
        }
        0
    }

    /// The block of `c` together with any rank within the table stays
    /// within the table.
    pub proof fn lemma_block_bound(self, c: char, m: int)
        requires
            self.built(),
            c == SENTINEL || self.alphabet@.contains(c),
            0 <= m <= self.n(),
        ensures
            self.c_value(c) + count_char(self.bwt@.take(m), c) <= self.n(),
            self.c_value(c) >= 0,
            self.n() >= 1,
    {
        lemma_built_counts(self, self.text@);
        lemma_count_take_mono(self.bwt@, m, self.n(), c);
        lemma_count_take_all(self.bwt@, c);
        if c == SENTINEL {
        } else {
            let j = first_index(self.alphabet@, c);
            lemma_first_index(self.alphabet@, c);
            lemma_sum_nonneg(self.counts@.take(j));
            lemma_sum_take_succ(self.counts@, j);
            lemma_sum_take_mono(self.counts@, j + 1, self.counts@.len() as int);
            lemma_sum_take_all(self.counts@);
        }
    }

    /// Any range that backward search returns is nonempty and lies within
    /// the table.
    pub proof fn lemma_search_bounds(self, pat: Seq<char>)
        requires
            self.built(),
        ensures
            self.spec_search(pat) matches Some(r) ==> 0 <= r.0 <= r.1 < self.n(),
        decreases pat.len(),
    {
        lemma_built_counts(self, self.text@);
        if pat.len() == 0 {
        } else {
            self.lemma_search_bounds(pat.drop_first());
            match self.spec_search(pat.drop_first()) {
                None => {},
                Some(r) => {
                    let c = pat[0];
                    if c == SENTINEL || self.alphabet@.contains(c) {
                        self.lemma_block_bound(c, r.1 + 1);
                        lemma_count_take_mono(self.bwt@, 0, r.0, c);
                        lemma_sum_nonneg(
                            self.counts@.take(first_index(self.alphabet@, c)),
                        );
                    }
                },
            }
        }
    }

    /// Searches the pattern in the text. Returns the inclusive row range
    /// `(start, end)` of the sorted rotations that begin with the pattern,
    /// or `None` when the pattern matches nowhere.
    #[verifier::loop_isolation(false)]
    pub fn backward_search(&self, pattern: &str) -> (res: Option<(usize, usize)>)
        requires
            self.built(),
        ensures
            match res {
                Some(r) => self.spec_search(pattern@) == Some((r.0 as int, r.1 as int)),
                None => self.spec_search(pattern@) == None::<(int, int)>,
            },
    {
        let pv = str_chars(pattern);
        proof {
            lemma_built_counts(*self, self.text@);
            assert(pv@.skip(pv@.len() as int) =~= Seq::<char>::empty());
        }
        let n = self.bwt.len();
        let mut top: usize = 0;
        let mut bottom: usize = n - 1;
        let mut k: usize = pv.len();
        while k > 0
            invariant
                k <= pv.len(),
                top <= bottom,
                (bottom as int) < self.n(),
                self.spec_search(pv@.skip(k as int)) == Some((top as int, bottom as int)),
            decreases k,
        {
            k -= 1;
            let c = pv[k];
            proof {
                assert(pv@.skip(k as int).drop_first() =~= pv@.skip(k as int + 1));
                assert(pv@.skip(k as int)[0] == pv@[k as int]);
            }
            let in_alphabet: bool;
            let mut cc: usize = 0;
            if c == SENTINEL {
                in_alphabet = true;
            } else {
                let mut j: usize = 0;
                let mut found = false;
                while j < self.alphabet.len() && !found
                    invariant
                        j <= self.alphabet.len(),
                        !found ==> forall|m: int| 0 <= m < j ==> self.alphabet@[m] != c,
                        found ==> (j as int) < self.alphabet@.len()
                            && self.alphabet@[j as int] == c,
                    decreases self.alphabet.len() - j + if found { 0int } else { 1int },
                {
                    if self.alphabet[j] == c {
                        found = true;
                    } else {
                        j += 1;
                    }
                }
                if !found {
                    proof {
                        assert(!self.alphabet@.contains(c)) by {
                            if self.alphabet@.contains(c) {
                                let m = choose|m: int|
                                    0 <= m < self.alphabet@.len() && self.alphabet@[m] == c;
                                assert(self.alphabet@[m] != c);
                            }
                        }
                        lemma_search_none_propagates(*self, pv@, k as int);
                    }
                    return None;
                }
                in_alphabet = true;
                proof {
                    assert(self.alphabet@.contains(c));
                    lemma_first_index(self.alphabet@, c);
                    assert((j as int) == first_index(self.alphabet@, c)) by {
                        let fi = first_index(self.alphabet@, c);
                        assert(self.alphabet@[fi] == c);
                    }
                }
                let csum = self.counts_below(j);
                proof {
                    lemma_sum_take_succ(self.counts@, j as int);
                    lemma_sum_take_mono(self.counts@, j as int + 1, self.counts@.len() as int);
                    lemma_sum_take_all(self.counts@);
                    lemma_sum_nonneg(self.counts@.take(j as int));
                }
                cc = csum + 1;
            }
            let _ = in_alphabet;
            let tal_before: usize;
            let tal_upto: usize;
            if c == SENTINEL {
                tal_before = self.bwt_rank(c, top);
                tal_upto = self.bwt_rank(c, bottom + 1);
            } else {
                let j = self.alpha_index(c);
                tal_before = if top == 0 {
                    0
                } else {
                    self.tallies[j][top - 1]
                };
                tal_upto = self.tallies[j][bottom];
                proof {
                    assert(self.bwt@.take(0) =~= Seq::<char>::empty());
                }
            }
            proof {
                assert(tal_before == self.rank_at(c, top as int - 1));
                assert(tal_upto == self.rank_at(c, bottom as int));
                lemma_count_take_mono(self.bwt@, top as int, bottom as int + 1, c);
                self.lemma_block_bound(c, bottom as int + 1);
                assert(cc == self.c_value(c));
            }
            if tal_upto == 0 {
                proof {
                    lemma_search_none_propagates(*self, pv@, k as int);
                }
                return None;
            }
            let t2 = cc + tal_before;
            let b2 = cc + tal_upto - 1;
            if t2 > b2 {
                proof {
                    lemma_search_none_propagates(*self, pv@, k as int);
                }
                return None;
            }
            top = t2;
            bottom = b2;
        }
        proof {
            assert(pv@.skip(0) =~= pv@);
        }
        Some((top, bottom))
    }

    /// Returns the number of occurrences of the pattern in the text: the
    /// width of the backward-search range, or zero when there is none.
    pub fn count_occurrences(&self, pattern: &str) -> (r: usize)
        requires
            self.built(),
        ensures
            r == self.spec_count(pattern@),
    {
        proof {
            self.lemma_search_bounds(pattern@);
        }
        match self.backward_search(pattern) {
            Some(range) => range.1 - range.0 + 1,
            None => 0,
        }
    }
}

/// Every BWT symbol of a built index is the sentinel or an alphabet symbol.
pub proof fn lemma_bwt_symbol(idx: FMIndex, i: int)
    requires
        idx.built(),
        0 <= i < idx.n(),
    ensures
        idx.bwt@[i] == SENTINEL || idx.alphabet@.contains(idx.bwt@[i]),
{
    let t = idx.text@;
    lemma_perm_facts(idx.suffix_array@, idx.bwt@.len() as nat);
    let c = idx.bwt@[i];
    let pos = prev_idx(idx.suffix_array@[i] as int, idx.n());
    assert(c == ext_of(t)[pos]);
    if pos < t.len() {
        assert(t.contains(c)) by {
            assert(t[pos] == c);
        }
        if c != SENTINEL {
            assert(idx.alphabet@.contains(c));
        }
    } else {
        assert(c == SENTINEL);
    }
}

/// Once a backward-search state is empty, the whole search is empty.
proof fn lemma_search_none_propagates(idx: FMIndex, pat: Seq<char>, k: int)
    requires
        0 <= k <= pat.len(),
        idx.spec_search(pat.skip(k)) == None::<(int, int)>,
    ensures
        idx.spec_search(pat) == None::<(int, int)>,
    decreases k,
{
    if k > 0 {
        assert(pat.skip(k - 1).drop_first() =~= pat.skip(k));
        assert(pat.skip(k - 1).len() > 0);
        lemma_search_none_propagates(idx, pat, k - 1);
    } else {
        assert(pat.skip(0) =~= pat);
    }
}

/// From a fully built index: the BWT is a rearrangement of the
/// sentinel-terminated text, so per-symbol totals carry over, the sentinel
/// occurs exactly once, and the counts sum to the text length.
pub proof fn lemma_built_counts(idx: FMIndex, t: Seq<char>)
    requires
        idx.wf_for(t),
    ensures
        forall|c: char| count_char(idx.bwt@, c) == count_char(ext_of(t), c),
        count_char(idx.bwt@, SENTINEL) == 1,
        forall|j: int|
            0 <= j < idx.alphabet@.len() ==> count_char(idx.bwt@, #[trigger] idx.alphabet@[j])
                == idx.counts@[j],
        sum_usize(idx.counts@) == t.len(),
        idx.n() == t.len() + 1,
        idx.alphabet@.no_duplicates(),
{
    let e = ext_of(t);
    let n = e.len();
    let sa = idx.suffix_array@;
    let al = idx.alphabet@;
    lemma_perm_facts(sa, n);
    let shifted = Seq::new(n, |k: int| e[if k == 0 { e.len() - 1 } else { k - 1 }]);
    assert(idx.bwt@ =~= pick(shifted, sa)) by {
        assert forall|i: int| 0 <= i < n implies idx.bwt@[i] == pick(shifted, sa)[i] by {
            assert(idx.bwt@[i] == e[prev_idx(sa[i] as int, n as int)]);
            assert(shifted[sa[i] as int] == e[prev_idx(sa[i] as int, n as int)]);
        }
    }
    lemma_pick_counts(shifted, sa);
    lemma_shift_counts(e);
    assert(forall|c: char| count_char(idx.bwt@, c) == count_char(e, c));
    assert(count_char(t, SENTINEL) == 0) by {
        if count_char(t, SENTINEL) >= 1 {
            let i = lemma_count_pos_exists(t, SENTINEL);
            assert(t.contains(SENTINEL));
        }
    }
    lemma_count_push(t, SENTINEL, SENTINEL);
    assert(al.no_duplicates()) by {
        assert forall|a: int, b: int|
            0 <= a < b < al.len() implies al[a] != al[b] by {
            assert((al[a] as int) < (al[b] as int));
        }
    }
    assert forall|j: int|
        0 <= j < al.len() implies count_char(idx.bwt@, #[trigger] al[j]) == idx.counts@[j] by {
        assert(al.contains(al[j]));
        assert(al[j] != SENTINEL);
        lemma_count_push(t, SENTINEL, al[j]);
    }
    assert forall|i: int| 0 <= i < t.len() implies al.contains(#[trigger] t[i]) by {
        assert(t.contains(t[i]));
        assert(t[i] != SENTINEL);
    }
    lemma_counts_total(al, t);
    lemma_sum_matches(idx.counts@, al, t);
}

/// `lex_le` between two rotations of `e`, decided at their first
/// differing position.
#[verifier::loop_isolation(false)]
fn rot_le(e: &Vec<char>, a: usize, b: usize) -> (r: bool)
    requires
        (a as int) < e@.len(),
        (b as int) < e@.len(),
    ensures
        r == lex_le(rotation(e@, a as int), rotation(e@, b as int)),
{
    let n = e.len();
    let ghost ra = rotation(e@, a as int);
    let ghost rb = rotation(e@, b as int);
    proof {
        lemma_rotation_len(e@, a as int);
        lemma_rotation_len(e@, b as int);
    }
    let mut k: usize = 0;
    while k < n
        invariant
            k <= n,
            forall|m: int| 0 <= m < k ==> ra[m] == rb[m],
        decreases n - k,
    {
        let ia = if k >= n - a {
            k - (n - a)
        } else {
            a + k
        };
        let ib = if k >= n - b {
            k - (n - b)
        } else {
            b + k
        };
        let ca = e[ia];
        let cb = e[ib];
        proof {
            lemma_rotation_index(e@, a as int, k as int);
            lemma_rotation_index(e@, b as int, k as int);
            assert(ra[k as int] == e@[ia as int]);
            assert(rb[k as int] == e@[ib as int]);
        }
        if ca != cb {
            let lt = sym_lt_exec(ca, cb);
            proof {
                lemma_sym_trichotomy(ca, cb);
                lemma_lex_at(ra, rb, k as int);
            }
            return lt;
        }
        k += 1;
    }
    proof {
        assert(ra =~= rb);
        lemma_lex_le_refl(ra);
    }
    true
}

/// Sorts rotation start offsets of `e` into ascending lexicographic
/// rotation order by insertion, keeping the offsets a rearrangement.
#[verifier::loop_isolation(false)]
fn sort_rotations(e: &Vec<char>, v: &mut Vec<usize>)
    requires
        forall|k: int| 0 <= k < old(v)@.len() ==> (#[trigger] old(v)@[k] as int) < e@.len(),
    ensures
        final(v)@.to_multiset() == old(v)@.to_multiset(),
        final(v)@.len() == old(v)@.len(),
        forall|k: int| 0 <= k < final(v)@.len() ==> (#[trigger] final(v)@[k] as int) < e@.len(),
        forall|a: int, b: int|
            0 <= a < b < final(v)@.len() ==> lex_le(
                rotation(e@, #[trigger] final(v)@[a] as int),
                rotation(e@, #[trigger] final(v)@[b] as int),
            ),
{
    broadcast use vstd::seq_lib::group_to_multiset_ensures;

    let mut i: usize = 1;
    while i < v.len()
        invariant
            1 <= i,
            v@.len() == old(v)@.len(),
            v@.to_multiset() == old(v)@.to_multiset(),
            forall|k: int| 0 <= k < v@.len() ==> (#[trigger] v@[k] as int) < e@.len(),
            forall|a: int, b: int|
                0 <= a < b < i && b < v@.len() ==> lex_le(
                    rotation(e@, #[trigger] v@[a] as int),
                    rotation(e@, #[trigger] v@[b] as int),
                ),
        decreases v.len() - i,
    {
        let ghost v_before = v@;
        let x = v.remove(i);
        let ghost v1 = v@;
        proof {
            assert(v1 =~= v_before.remove(i as int));
            assert(v1.to_multiset() == v_before.to_multiset().remove(x));
            assert(forall|m: int| 0 <= m < i ==> v1[m] == v_before[m]);
            assert(forall|m: int|
                i <= m < v1.len() ==> v1[m] == v_before[m + 1]);
            assert(forall|m: int| 0 <= m < v1.len() ==> (#[trigger] v1[m] as int) < e@.len());
            assert(v_before[i as int] == x);
            assert((x as int) < e@.len());
        }
        let mut p: usize = i;
        while p > 0 && !rot_le(e, v[p - 1], x)
            invariant
                p <= i,
                forall|m: int|
                    p <= m < i ==> !lex_le(
                        rotation(e@, #[trigger] v@[m] as int),
                        rotation(e@, x as int),
                    ),
            decreases p,
        {
            p -= 1;
        }
        proof {
            crate::perm::lemma_ms_insert(v1, p as int, x);
            assert(v_before.to_multiset().count(x) > 0) by {
                assert(v_before[i as int] == x);
                assert(v_before.contains(x));
            }
            assert(v1.insert(p as int, x).to_multiset() =~= v_before.to_multiset()) by {
                broadcast use vstd::multiset::group_multiset_axioms;
            }
        }
        let ghost vp = v1.insert(p as int, x);
        v.insert(p, x);
        proof {
            assert(v@ == vp);
            assert(forall|m: int| 0 <= m < p ==> vp[m] == v1[m]);
            assert(vp[p as int] == x);
            assert(forall|m: int| p < m < vp.len() ==> vp[m] == v1[m - 1]);
            assert forall|k: int| 0 <= k < vp.len() implies (#[trigger] vp[k] as int)
                < e@.len() by {
                if k < p {
                    assert(vp[k] == v1[k]);
                } else if k > p {
                    assert(vp[k] == v1[k - 1]);
                }
            }
            assert(forall|o: usize|
                (o as int) < e@.len() ==> (#[trigger] rotation(e@, o as int)).len()
                    == e@.len()) by {
                assert forall|o: usize| (o as int) < e@.len() implies (#[trigger] rotation(
                    e@,
                    o as int,
                )).len() == e@.len() by {
                    lemma_rotation_len(e@, o as int);
                }
            }
            assert forall|m: int|
                p <= m < i implies lex_le(
                    rotation(e@, x as int),
                    rotation(e@, #[trigger] v1[m] as int),
                ) by {
                lemma_lex_total(rotation(e@, v1[m] as int), rotation(e@, x as int));
            }
            assert forall|a: int, b: int|
                0 <= a < b < i + 1 && b < vp.len() implies lex_le(
                    rotation(e@, #[trigger] vp[a] as int),
                    rotation(e@, #[trigger] vp[b] as int),
                ) by {
                let pi = p as int;
                if b < pi {
                } else if b == pi {
                    assert(p > 0 ==> lex_le(
                        rotation(e@, v1[pi - 1] as int),
                        rotation(e@, x as int),
                    ));
                    if a < pi - 1 {
                        assert(lex_le(
                            rotation(e@, v1[a] as int),
                            rotation(e@, v1[pi - 1] as int),
                        ));
                        lemma_lex_trans(
                            rotation(e@, v1[a] as int),
                            rotation(e@, v1[pi - 1] as int),
                            rotation(e@, x as int),
                        );
                    }
                } else if a == pi {
                    assert(vp[b] == v1[b - 1]);
                    assert(pi <= b - 1 < i);
                } else if a < pi {
                    assert(vp[b] == v1[b - 1]);
                    assert(a < b - 1);
                } else {
                    assert(vp[a] == v1[a - 1]);
                    assert(vp[b] == v1[b - 1]);
                    assert(a - 1 < b - 1);
                }
            }
        }
        i += 1;
    }
}

/// Strict code-point order on symbols.
fn char_lt(a: char, b: char) -> (r: bool)
    ensures
        r == ((a as int) < (b as int)),
{
    (a as u32) < (b as u32)
}

/// The sentinel-minimal symbol order, executably.
fn sym_lt_exec(a: char, b: char) -> (r: bool)
    ensures
        r == sym_lt(a, b),
{
    if a == SENTINEL {
        b != SENTINEL
    } else if b == SENTINEL {
        false
    } else {
        (a as u32) < (b as u32)
    }
}

/// Occurrences of `c` among the symbols of `v`.
#[verifier::loop_isolation(false)]
fn count_occurrences_in(v: &Vec<char>, c: char) -> (cnt: usize)
    ensures
        cnt == count_char(v@, c),
{
    let mut cnt: usize = 0;
    let mut i: usize = 0;
    while i < v.len()
        invariant
            i <= v.len(),
            cnt <= i,
            cnt == count_char(v@.take(i as int), c),
        decreases v.len() - i,
    {
        proof {
            lemma_count_take_succ(v@, i as int, c);
        }
        if v[i] == c {
            cnt += 1;
        }
        i += 1;
    }
    proof {
        lemma_count_take_all(v@, c);
    }
    cnt
}

/// Relies on `String::push`: appends the one character to the string.
#[verifier::external_body]
fn push_char(s: &mut String, c: char)
    ensures
        final(s)@ == old(s)@.push(c),
{
    s.push(c);
}

/// The symbols of `v` collected into a `String`.
#[verifier::loop_isolation(false)]
fn chars_to_string(v: &Vec<char>) -> (s: String)
    ensures
        s@ == v@,
{
    let mut s = String::new();
    let mut i: usize = 0;
    while i < v.len()
        invariant
            i <= v.len(),
            s@ == v@.take(i as int),
        decreases v.len() - i,
    {
        push_char(&mut s, v[i]);
        proof {
            assert(v@.take(i as int).push(v@[i as int]) =~= v@.take(i as int + 1));
        }
        i += 1;
    }
    proof {
        assert(v@.take(v@.len() as int) =~= v@);
    }
    s
}

/// The characters of `text`, one symbol per code point.
#[verifier::loop_isolation(false)]
fn str_chars(text: &str) -> (v: Vec<char>)
    ensures
        v@ == text@,
{
    let n = text.unicode_len();
    let mut v: Vec<char> = Vec::new();
    let mut i: usize = 0;
    while i < n
        invariant
            n == text@.len(),
            i <= n,
            v@ == text@.take(i as int),
        decreases n - i,
    {
        let c = text.get_char(i);
        v.push(c);
        proof {
            assert(text@.take(i as int).push(text@[i as int]) =~= text@.take(i as int + 1));
        }
        i += 1;
    }
    proof {
        assert(text@.take(text@.len() as int) =~= text@);
    }
    v
}

/// An element-for-element copy of `v`.
#[verifier::loop_isolation(false)]
fn copy_vec<T: Copy>(v: &Vec<T>) -> (r: Vec<T>)
    ensures
        r@ == v@,
{
    let mut r: Vec<T> = Vec::new();
    let mut i: usize = 0;
    while i < v.len()
        invariant
            i <= v.len(),
            r@ == v@.take(i as int),
        decreases v.len() - i,
    {
        r.push(v[i]);
        proof {
            assert(v@.take(i as int).push(v@[i as int]) =~= v@.take(i as int + 1));
        }
        i += 1;
    }
    proof {
        assert(v@.take(v@.len() as int) =~= v@);
    }
    r
}

} // verus!
