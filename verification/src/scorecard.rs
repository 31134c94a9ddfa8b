//! The per-candidate scorecard, the letter-scoring step that updates it, and
//! the reduction of a scorecard to a similarity score.

use vstd::prelude::*;
use vstd::std_specs::bits::{
    axiom_u16_trailing_ones, axiom_u16_trailing_zeros, u16_trailing_ones, u16_trailing_zeros,
};
use crate::bits::{
    below, bit, lemma_bit_ops, lemma_bits_equal, lemma_lowest_set_bit, lemma_popcount_add_bit,
    lemma_popcount_bound, lemma_popcount_positive, lemma_popcount_zero, lowest_set_bit, popcount,
};

verus! {

/// Fixed-point scale of the length reciprocals.
pub const RECIPROCAL_SCALE: u16 = 1024;

/// What one candidate has matched of the query so far.
#[derive(Clone, Copy, Debug, PartialEq, Eq, Structural)]
pub struct CandidateScore {
    /// Number of query characters matched.
    pub matches: u8,
    /// Candidate positions consumed by a match.
    pub used: u16,
    /// Consumed positions that equal the query position they matched.
    pub used_exact: u16,
    /// `1024 / len`, rounded down.
    pub len_partial: u16,
    /// Every position chosen so far; a later choice below it is out of order.
    pub last_match_letter_index: u16,
    /// Number of matches chosen out of order.
    pub transposition_count: u8,
    /// Length of the candidate.
    pub len: u8,
}

/// A similarity, or a threshold for one, as the exact fraction
/// `numerator / denominator`.
#[derive(Clone, Copy, Debug, PartialEq, Eq, Structural)]
pub struct Score {
    pub numerator: u32,
    /// Positive in every score that the library computes.
    pub denominator: u32,
}

/// The scorecard of a candidate of length `len` before any query character.
pub open spec fn fresh(len: int) -> CandidateScore {
    CandidateScore {
        matches: 0,
        used: 0,
        used_exact: 0,
        len_partial: (1024int / len) as u16,
        last_match_letter_index: 0,
        transposition_count: 0,
        len: len as u8,
    }
}

/// The candidate position that the step picks: the lowest one that the query
/// window admits, that holds the letter, and that no earlier match consumed.
/// Zero when there is none.
pub open spec fn pick(c: CandidateScore, query_mask: u16, candidate_mask: u16) -> u16 {
    lowest_set_bit((query_mask & candidate_mask) & !c.used)
}

/// The scorecard after scoring the query character at `query_index`.
pub open spec fn step(
    c: CandidateScore,
    query_mask: u16,
    candidate_mask: u16,
    query_index: int,
) -> CandidateScore {
    let chosen = pick(c, query_mask, candidate_mask);
    CandidateScore {
        matches: if chosen != 0 {
            (c.matches + 1) as u8
        } else {
            c.matches
        },
        used: c.used | chosen,
        used_exact: c.used_exact | (chosen & (1u16 << (query_index as u16))),
        len_partial: c.len_partial,
        last_match_letter_index: c.last_match_letter_index | chosen,
        transposition_count: if chosen != 0 && chosen < c.last_match_letter_index {
            (c.transposition_count + 1) as u8
        } else {
            c.transposition_count
        },
        len: c.len,
    }
}

/// Number of leading positions, at most four, that are all set in `m`.
pub open spec fn prefix_len(m: u16) -> int {
    if !bit(m, 0) {
        0
    } else if !bit(m, 1) {
        1
    } else if !bit(m, 2) {
        2
    } else if !bit(m, 3) {
        3
    } else {
        4
    }
}

impl CandidateScore {
    /// The invariant of a scorecard: consumed positions lie inside the
    /// candidate, exact matches are among them, `matches` counts them, and a
    /// transposition needs an earlier match.
    pub open spec fn wf(self) -> bool {
        &&& 1 <= self.len <= 16
        &&& self.len_partial == 1024int / (self.len as int)
        &&& below(self.used, self.len as int)
        &&& self.used_exact & !self.used == 0
        &&& self.matches == popcount(self.used)
        &&& self.last_match_letter_index == self.used
        &&& (self.transposition_count == 0 || self.transposition_count < self.matches)
    }

    /// Transpositions as the score counts them: one fewer once they exceed
    /// half the matches.
    pub open spec fn counted_transpositions(self) -> int {
        if self.transposition_count > self.matches / 2 {
            self.transposition_count - 1
        } else {
            self.transposition_count as int
        }
    }

    /// Numerator of the Jaro part over `jaro_denominator`, for a query whose
    /// length reciprocal is `query_partial`. With `m` matches, `t` counted
    /// transpositions and `partial = m * (len_partial + query_partial)`, which
    /// stands for `1024 * (m / len + m / query_len)`, the Jaro part is
    /// `(partial / 1024 + 1 - t / m) / 3`.
    pub open spec fn jaro_numerator(self, query_partial: int) -> int {
        self.matches * (self.matches * (self.len_partial + query_partial)) + 1024 * (self.matches
            - self.counted_transpositions())
    }

    /// Denominator of the Jaro part.
    pub open spec fn jaro_denominator(self) -> int {
        3072 * self.matches
    }

    /// Numerator of the score: the Jaro part raised by a tenth of what is
    /// missing to one for each position of the common prefix.
    pub open spec fn score_numerator(self, query_partial: int) -> int {
        if self.matches == 0 {
            0
        } else {
            (10 - prefix_len(self.used_exact)) * self.jaro_numerator(query_partial) + prefix_len(
                self.used_exact,
            ) * self.jaro_denominator()
        }
    }

    /// Denominator of the score; one when nothing matched.
    pub open spec fn score_denominator(self) -> int {
        if self.matches == 0 {
            1
        } else {
            10 * self.jaro_denominator()
        }
    }

    /// A zeroed scorecard for a candidate of `len` characters.
    pub fn new(len: u8) -> (card: CandidateScore)
        requires
            1 <= len <= 16,
        ensures
            card == fresh(len as int),
            card.wf(),
    {
        proof {
            lemma_popcount_zero();
            lemma_bit_ops(0, 0);
            assert(0u16 & !0u16 == 0) by (bit_vector);
        }
        CandidateScore {
            matches: 0,
            used: 0,
            used_exact: 0,
            len_partial: RECIPROCAL_SCALE / (len as u16),
            last_match_letter_index: 0,
            transposition_count: 0,
            len,
        }
    }

    /// Reduces the scorecard to its score against a query whose length
    /// reciprocal is `query_partial`.
    pub fn calculate_jaro_winkler(&self, query_partial: u16) -> (score: Score)
        requires
            self.wf(),
        ensures
            score.numerator == self.score_numerator(query_partial as int),
            score.denominator == self.score_denominator(),
            score.denominator > 0,
    {
        if self.matches == 0 {
            return Score { numerator: 0, denominator: 1 };
        }
        proof {
            lemma_popcount_bound(self.used, self.len as int);
        }
        let m: u32 = self.matches as u32;
        let transpositions: u32 = if self.transposition_count > self.matches / 2 {
            (self.transposition_count - 1) as u32
        } else {
            self.transposition_count as u32
        };
        let reciprocals: u32 = self.len_partial as u32 + query_partial as u32;
        assert(m * reciprocals <= 16 * 66559) by (nonlinear_arith)
            requires
                m <= 16,
                reciprocals <= 66559,
        ;
        let partial: u32 = m * reciprocals;
        assert(m * partial <= 16 * (16 * 66559)) by (nonlinear_arith)
            requires
                m <= 16,
                partial <= 16 * 66559,
        ;
        let jaro_numerator: u32 = m * partial + 1024 * (m - transpositions);
        let jaro_denominator: u32 = 3072 * m;
        let l: u32 = (self.used_exact & 0b1111u16).trailing_ones();
        proof {
            lemma_prefix_len(self.used_exact);
        }
        assert((10 - l) * jaro_numerator <= 10 * jaro_numerator && l * jaro_denominator <= 4
            * jaro_denominator) by (nonlinear_arith)
            requires
                0 <= l <= 4,
        ;
        Score {
            numerator: (10 - l) * jaro_numerator + l * jaro_denominator,
            denominator: 10 * jaro_denominator,
        }
    }
}

/// Scores the query character at `query_index` against one candidate.
///
/// `query_mask` holds the candidate positions that the match window admits for
/// this character, `candidate_mask` those where the candidate has the letter.
/// The lowest admitted position that is still free is consumed, if there is
/// one; otherwise the scorecard stays as it is.
pub fn score_letter(
    candidate_score: &mut CandidateScore,
    query_mask: u16,
    candidate_mask: u16,
    query_index: usize,
)
    requires
        old(candidate_score).wf(),
        below(candidate_mask, old(candidate_score).len as int),
        query_index < 16,
    ensures
        *final(candidate_score) == step(
            *old(candidate_score),
            query_mask,
            candidate_mask,
            query_index as int,
        ),
        final(candidate_score).wf(),
{
    let whole_mask_result: u16 = query_mask & candidate_mask;
    let check_used_result: u16 = whole_mask_result & !candidate_score.used;
    let first: u32 = check_used_result.trailing_zeros();
    proof {
        axiom_u16_trailing_zeros(check_used_result);
        lemma_step_wf(*candidate_score, query_mask, candidate_mask, query_index as int);
    }
    let mask_result: u16 = if first < 16 {
        1u16 << first
    } else {
        0
    };
    assert(mask_result == pick(*candidate_score, query_mask, candidate_mask));
    let out_of_order: bool = mask_result != 0 && mask_result < candidate_score.last_match_letter_index;
    candidate_score.used |= mask_result;
    candidate_score.used_exact |= mask_result & (1u16 << query_index);
    if mask_result != 0 {
        candidate_score.matches += 1;
    }
    if out_of_order {
        candidate_score.transposition_count += 1;
    }
    candidate_score.last_match_letter_index |= mask_result;
}

/// A step keeps a scorecard well formed and never takes anything back: it
/// consumes one more position when it matches and none when it does not.
pub proof fn lemma_step_wf(c: CandidateScore, query_mask: u16, candidate_mask: u16, query_index: int)
    requires
        c.wf(),
        below(candidate_mask, c.len as int),
        0 <= query_index < 16,
    ensures
        step(c, query_mask, candidate_mask, query_index).wf(),
        pick(c, query_mask, candidate_mask) == 0 ==> step(
            c,
            query_mask,
            candidate_mask,
            query_index,
        ) == c,
        pick(c, query_mask, candidate_mask) != 0 ==> step(
            c,
            query_mask,
            candidate_mask,
            query_index,
        ).matches == c.matches + 1,
        c.transposition_count <= c.matches <= c.len,
        step(c, query_mask, candidate_mask, query_index).transposition_count
            >= c.transposition_count,
        forall|p: int|
            bit(c.used, p) ==> bit(step(c, query_mask, candidate_mask, query_index).used, p),
        forall|p: int|
            bit(c.used_exact, p) ==> bit(
                step(c, query_mask, candidate_mask, query_index).used_exact,
                p,
            ),
{
    let avail = (query_mask & candidate_mask) & !c.used;
    let chosen = pick(c, query_mask, candidate_mask);
    let next = step(c, query_mask, candidate_mask, query_index);
    let exact = chosen & (1u16 << (query_index as u16));
    lemma_lowest_set_bit(avail);
    lemma_bit_ops(query_mask, candidate_mask);
    lemma_bit_ops(query_mask & candidate_mask, !c.used);
    lemma_bit_ops(c.used, chosen);
    lemma_bit_ops(c.used_exact, exact);
    lemma_bit_ops(chosen, 1u16 << (query_index as u16));
    lemma_bit_ops(c.used_exact, !c.used);
    lemma_bit_ops(next.used_exact, !next.used);
    lemma_bit_ops(next.used, 0);
    lemma_popcount_bound(c.used, c.len as int);
    assert(forall|p: int| bit(c.used_exact, p) ==> bit(c.used, p)) by {
        assert forall|p: int| bit(c.used_exact, p) implies bit(c.used, p) by {
            assert(!bit(c.used_exact & !c.used, p));
        }
    }
    if avail == 0 {
        assert(chosen == 0);
        lemma_bits_equal(c.used | chosen, c.used);
        lemma_bits_equal(c.used_exact | exact, c.used_exact);
        assert(next == c);
    } else {
        let k = u16_trailing_zeros(avail) as int;
        assert(bit(avail, k));
        assert(bit(candidate_mask, k));
        assert(k < c.len);
        assert(!bit(c.used, k));
        lemma_popcount_add_bit(c.used, k);
        assert(below(next.used, c.len as int));
        lemma_popcount_bound(next.used, c.len as int);
        assert forall|p: int| 0 <= p < 16 implies bit(next.used_exact & !next.used, p) == bit(
            0,
            p,
        ) by {}
        lemma_bits_equal(next.used_exact & !next.used, 0);
        if chosen < c.last_match_letter_index {
            assert(c.used != 0);
            lemma_lowest_set_bit(c.used);
            lemma_popcount_positive(c.used, u16_trailing_zeros(c.used) as int);
        }
    }
}

/// The trailing ones of the low four positions are the common prefix length.
pub proof fn lemma_prefix_len(m: u16)
    ensures
        u16_trailing_ones(m & 0b1111u16) == prefix_len(m),
{
    let x = m & 0b1111u16;
    let r = u16_trailing_ones(x);
    axiom_u16_trailing_ones(x);
    lemma_bit_ops(m, 0b1111u16);
    assert(forall|p: int| #[trigger] bit(0b1111u16, p) == (0 <= p < 4)) by {
        assert forall|p: int| #[trigger] bit(0b1111u16, p) == (0 <= p < 4) by {
            if 0 <= p < 16 {
                let q = p as u16;
                assert(q < 16 ==> (((0b1111u16 >> q) & 1 == 1) == (q < 4))) by (bit_vector);
            }
        }
    }
    assert(forall|j: u16| j < r ==> bit(x, j as int)) by {
        assert forall|j: u16| j < r implies bit(x, j as int) by {
            assert((x >> j) & 1u16 == 1u16);
        }
    }
    if r < 16 {
        assert(!bit(x, r as int)) by {
            let q = r as u16;
            assert((x >> q) & 1u16 == 0u16);
            assert(0u16 != 1u16);
        }
    } else {
        assert(bit(x, 15));
    }
    if r >= 1 {
        assert(bit(x, 0)) by {
            assert(bit(x, 0u16 as int));
        }
    }
    if r >= 2 {
        assert(bit(x, 1u16 as int));
    }
    if r >= 3 {
        assert(bit(x, 2u16 as int));
    }
    if r >= 4 {
        assert(bit(x, 3u16 as int));
    }
    if r >= 5 {
        assert(bit(x, 4u16 as int));
    }
}

/// One letter-scoring step as data: the two masks and the query position.
pub struct Letter {
    pub query_mask: u16,
    pub candidate_mask: u16,
    pub query_index: int,
}

/// The scorecard after the first `n` of `letters` have been scored.
pub open spec fn run(c: CandidateScore, letters: Seq<Letter>, n: int) -> CandidateScore
    decreases n,
{
    if n <= 0 {
        c
    } else {
        step(
            run(c, letters, n - 1),
            letters[n - 1].query_mask,
            letters[n - 1].candidate_mask,
            letters[n - 1].query_index,
        )
    }
}

/// After any number of steps a scorecard that was well formed still is: its
/// exact matches lie among the consumed positions, these lie inside the
/// candidate, and `matches` counts them. It has gained at most one match for
/// each step, and holds at most as many as the candidate has positions.
pub proof fn lemma_run(c: CandidateScore, letters: Seq<Letter>, n: int)
    requires
        c.wf(),
        0 <= n <= letters.len(),
        forall|k: int|
            0 <= k < letters.len() ==> below(
                (#[trigger] letters[k]).candidate_mask,
                c.len as int,
            ) && 0 <= letters[k].query_index < 16,
    ensures
        run(c, letters, n).wf(),
        run(c, letters, n).len == c.len,
        run(c, letters, n).used_exact & !run(c, letters, n).used == 0,
        below(run(c, letters, n).used, c.len as int),
        popcount(run(c, letters, n).used) == run(c, letters, n).matches,
        c.matches <= run(c, letters, n).matches <= c.matches + n,
        run(c, letters, n).matches <= c.len <= 16,
    decreases n,
{
    if n > 0 {
        lemma_run(c, letters, n - 1);
        let before = run(c, letters, n - 1);
        let letter = letters[n - 1];
        lemma_step_wf(before, letter.query_mask, letter.candidate_mask, letter.query_index);
    }
    let after = run(c, letters, n);
    lemma_bit_ops(0, 0);
    lemma_step_wf(after, 0, 0, 0);
}

/// The score of a well-formed scorecard lies between zero and one, for a
/// query at least as long as the scorecard has matches.
pub proof fn lemma_score_range(c: CandidateScore, query_len: int)
    requires
        c.wf(),
        1 <= query_len <= 16,
        c.matches <= query_len,
    ensures
        0 <= c.score_numerator(1024int / query_len) <= c.score_denominator(),
        0 < c.score_denominator() <= 491520,
{
    lemma_bit_ops(0, 0);
    lemma_step_wf(c, 0, 0, 0);
    let m = c.matches as int;
    let len = c.len as int;
    let lp = c.len_partial as int;
    let qp = 1024int / query_len;
    let t = c.counted_transpositions();
    let l = prefix_len(c.used_exact);
    if m > 0 {
        assert(m * lp <= 1024 && m * qp <= 1024) by (nonlinear_arith)
            requires
                1 <= m <= len,
                m <= query_len,
                lp == 1024int / len,
                qp == 1024int / query_len,
        ;
        assert(m * (lp + qp) == m * lp + m * qp) by (nonlinear_arith);
        let partial = m * (lp + qp);
        assert(0 <= m * partial <= m * 2048) by (nonlinear_arith)
            requires
                0 <= partial <= 2048,
                m >= 1,
        ;
        let jn = c.jaro_numerator(qp);
        let jd = c.jaro_denominator();
        assert(0 <= t <= m);
        assert(0 <= jn <= jd);
        assert(0 <= (10 - l) * jn + l * jd <= 10 * jd) by (nonlinear_arith)
            requires
                0 <= l <= 4,
                0 <= jn <= jd,
        ;
    }
}

impl Score {
    /// Whether this score, as a fraction, is at least `min`: compared by
    /// cross-multiplication, which is the comparison of the fractions when
    /// both denominators are positive.
    pub open spec fn meets(self, min: Score) -> bool {
        self.numerator * min.denominator >= min.numerator * self.denominator
    }

    /// The score in hundredths, rounded to the nearest, halves upward.
    pub open spec fn rounded_hundredths(self) -> int {
        (200 * self.numerator + self.denominator) / (2 * self.denominator)
    }

    /// Whether this score is at least `min`.
    pub fn at_least(&self, min: &Score) -> (holds: bool)
        ensures
            holds == self.meets(*min),
    {
        assert(self.numerator * min.denominator <= 0xffff_ffff * 0xffff_ffff
            && min.numerator * self.denominator <= 0xffff_ffff * 0xffff_ffff)
            by (nonlinear_arith)
            requires
                self.numerator <= 0xffff_ffff,
                min.denominator <= 0xffff_ffff,
                min.numerator <= 0xffff_ffff,
                self.denominator <= 0xffff_ffff,
        ;
        (self.numerator as u64) * (min.denominator as u64) >= (min.numerator as u64) * (
        self.denominator as u64)
    }

    /// The score in hundredths, rounded to the nearest, halves upward.
    pub fn hundredths(&self) -> (h: u64)
        requires
            self.denominator > 0,
        ensures
            h == self.rounded_hundredths(),
    {
        (200 * (self.numerator as u64) + self.denominator as u64) / (2 * (
        self.denominator as u64))
    }
}

} // verus!
