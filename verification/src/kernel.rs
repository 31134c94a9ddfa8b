//! Scoring one query against every candidate at once, through the inverted
//! letter index.

use vstd::prelude::*;
use crate::alphabet::{is_valid_name, name_bytes, symbol_at, valid_name};
use crate::bits::{
    below, lemma_bit_ops, lemma_bits_equal, lemma_lowest_set_bit, lemma_popcount_zero, popcount,
};
use crate::index::{
    build_candidate_lookup, is_entry, is_lookup, is_symbol_entries, lemma_occurrence_bits,
    occurrence_mask, CandidateLetterInfo,
};
use crate::mask::{is_mask_table, maskify, query_mask};
use crate::scorecard::{fresh, lemma_step_wf, pick, score_letter, step, CandidateScore};

verus! {

/// The scorecard of `candidate` after the first `n` characters of `query`
/// have been scored against it, one letter-scoring step for each.
pub open spec fn pair_card(query: Seq<char>, candidate: Seq<char>, n: int) -> CandidateScore
    decreases n,
{
    if n <= 0 {
        fresh(candidate.len() as int)
    } else {
        step(
            pair_card(query, candidate, n - 1),
            query_mask(n - 1, query.len() as int, candidate.len() as int),
            occurrence_mask(candidate, symbol_at(query, n - 1)),
            n - 1,
        )
    }
}

/// The scorecard of `candidate` once all of `query` has been scored.
pub open spec fn pair_score(query: Seq<char>, candidate: Seq<char>) -> CandidateScore {
    pair_card(query, candidate, query.len() as int)
}

/// Whatever number of query characters has been scored, the scorecard is
/// well formed: `matches` counts the consumed positions, these lie inside
/// the candidate, and the exact matches are among them. It counts no more
/// matches than characters scored nor than the candidate has positions.
pub proof fn lemma_pair_card(query: Seq<char>, candidate: Seq<char>, n: int)
    requires
        valid_name(query),
        valid_name(candidate),
        0 <= n <= query.len(),
    ensures
        pair_card(query, candidate, n).wf(),
        pair_card(query, candidate, n).len == candidate.len(),
        popcount(pair_card(query, candidate, n).used) == pair_card(query, candidate, n).matches,
        pair_card(query, candidate, n).matches <= n <= query.len(),
        pair_card(query, candidate, n).matches <= candidate.len() <= 16,
        pair_card(query, candidate, n).used_exact & !pair_card(query, candidate, n).used == 0,
        below(pair_card(query, candidate, n).used, candidate.len() as int),
    decreases n,
{
    if n <= 0 {
        lemma_popcount_zero();
        lemma_bit_ops(0, 0);
        assert(0u16 & !0u16 == 0) by (bit_vector);
    } else {
        lemma_pair_card(query, candidate, n - 1);
        let symbol = symbol_at(query, n - 1);
        lemma_occurrence_bits(candidate, symbol, candidate.len() as int);
        lemma_step_wf(
            pair_card(query, candidate, n - 1),
            query_mask(n - 1, query.len() as int, candidate.len() as int),
            occurrence_mask(candidate, symbol),
            n - 1,
        );
        let next = pair_card(query, candidate, n);
        lemma_bit_ops(0, 0);
        lemma_step_wf(next, 0, 0, 0);
    }
}

/// A candidate that does not hold the letter is left as it is by the step.
pub proof fn lemma_step_without_letter(c: CandidateScore, query_mask: u16, query_index: int)
    ensures
        step(c, query_mask, 0, query_index) == c,
{
    let exact = 0u16 & (1u16 << (query_index as u16));
    lemma_bit_ops(query_mask, 0);
    lemma_bit_ops(query_mask & 0, !c.used);
    lemma_bits_equal((query_mask & 0) & !c.used, 0);
    lemma_lowest_set_bit(0);
    assert(pick(c, query_mask, 0) == 0);
    lemma_bit_ops(c.used, 0);
    lemma_bit_ops(0, 1u16 << (query_index as u16));
    lemma_bit_ops(c.used_exact, exact);
    lemma_bits_equal(c.used | 0, c.used);
    lemma_bits_equal(c.used_exact | exact, c.used_exact);
    lemma_bit_ops(c.last_match_letter_index, 0);
    lemma_bits_equal(c.last_match_letter_index | 0, c.last_match_letter_index);
}

/// The candidates of a run: their names, the inverted letter index over
/// them, and a zeroed scorecard for each.
pub struct CandidateIndex {
    pub names: Vec<String>,
    pub lookup: Vec<Vec<CandidateLetterInfo>>,
    pub base_scores: Vec<CandidateScore>,
}

/// Index of the first name that cannot be scored, if there is one.
pub fn first_invalid(names: &Vec<String>) -> (found: Option<usize>)
    ensures
        found is None <==> forall|i: int| 0 <= i < names@.len() ==> valid_name(names@[i]@),
        found matches Some(i) ==> i < names@.len() && !valid_name(names@[i as int]@) && forall|
            k: int,
        | 0 <= k < i ==> valid_name(names@[k]@),
{
    let mut i: usize = 0;
    while i < names.len()
        invariant
            i <= names@.len(),
            forall|k: int| 0 <= k < i ==> valid_name(names@[k]@),
        decreases names@.len() - i,
    {
        if !is_valid_name(&names[i]) {
            return Some(i);
        }
        i += 1;
    }
    None
}

impl CandidateIndex {
    /// Every candidate can be scored, the index is that of the names, and
    /// every base scorecard is zeroed for its candidate's length.
    pub open spec fn wf(&self) -> bool {
        &&& forall|c: int| 0 <= c < self.names@.len() ==> valid_name(#[trigger] self.names@[c]@)
        &&& is_lookup(self.lookup@, self.names.deep_view())
        &&& self.base_scores@.len() == self.names@.len()
        &&& forall|c: int|
            0 <= c < self.names@.len() ==> #[trigger] self.base_scores@[c] == fresh(
                self.names@[c]@.len() as int,
            )
    }

    /// Builds the index over names that can all be scored.
    pub fn build(names: Vec<String>) -> (index: CandidateIndex)
        requires
            forall|i: int| 0 <= i < names@.len() ==> valid_name(#[trigger] names@[i]@),
        ensures
            index.wf(),
            index.names == names,
    {
        let lookup = build_candidate_lookup(&names);
        let mut base_scores: Vec<CandidateScore> = Vec::new();
        let mut c: usize = 0;
        while c < names.len()
            invariant
                c <= names@.len(),
                base_scores@.len() == c,
                forall|i: int| 0 <= i < names@.len() ==> valid_name(#[trigger] names@[i]@),
                forall|k: int|
                    0 <= k < c ==> #[trigger] base_scores@[k] == fresh(names@[k]@.len() as int),
            decreases names@.len() - c,
        {
            let len: usize = name_bytes(&names[c]).len();
            base_scores.push(CandidateScore::new(len as u8));
            c += 1;
        }
        CandidateIndex { names, lookup, base_scores }
    }

    /// Builds the index over `names`, or gives the position of the first name
    /// that cannot be scored.
    pub fn new(names: Vec<String>) -> (built: Result<CandidateIndex, usize>)
        ensures
            built is Ok <==> forall|i: int| 0 <= i < names@.len() ==> valid_name(names@[i]@),
            built matches Ok(index) ==> index.wf() && index.names == names,
            built matches Err(i) ==> i < names@.len() && !valid_name(names@[i as int]@) && forall|
                k: int,
            | 0 <= k < i ==> valid_name(names@[k]@),
    {
        match first_invalid(&names) {
            Some(i) => Err(i),
            None => Ok(CandidateIndex::build(names)),
        }
    }

    /// Scores `query` against every candidate, or gives nothing when `query`
    /// cannot be scored. The scorecard of each candidate is the one that
    /// scoring the pair on its own, letter by letter, would leave.
    pub fn score_query(&self, query: &String) -> (scored: Option<Vec<CandidateScore>>)
        requires
            self.wf(),
        ensures
            scored is Some <==> valid_name(query@),
            scored matches Some(cards) ==> cards@.len() == self.names@.len() && forall|c: int|
                0 <= c < cards@.len() ==> #[trigger] cards@[c] == pair_score(
                    query@,
                    self.names@[c]@,
                ),
    {
        let query_masks_lookup = match maskify(query) {
            Some(table) => table,
            None => {
                return None;
            },
        };
        let ghost names = self.names.deep_view();
        let mut candidate_scores: Vec<CandidateScore> = Vec::new();
        let mut c: usize = 0;
        while c < self.base_scores.len()
            invariant
                self.wf(),
                c <= self.base_scores@.len(),
                candidate_scores@.len() == c,
                forall|k: int|
                    0 <= k < c ==> #[trigger] candidate_scores@[k] == pair_card(
                        query@,
                        self.names@[k]@,
                        0,
                    ),
            decreases self.base_scores@.len() - c,
        {
            candidate_scores.push(self.base_scores[c]);
            c += 1;
        }
        let mut query_index: usize = 0;
        while query_index < query_masks_lookup.len()
            invariant
                self.wf(),
                names == self.names.deep_view(),
                valid_name(query@),
                is_mask_table(query_masks_lookup@, query@),
                query_index <= query_masks_lookup@.len(),
                candidate_scores@.len() == self.names@.len(),
                forall|k: int|
                    0 <= k < candidate_scores@.len() ==> #[trigger] candidate_scores@[k]
                        == pair_card(query@, self.names@[k]@, query_index as int),
            decreases query_masks_lookup@.len() - query_index,
        {
            let letter_index: u8 = query_masks_lookup[query_index].0;
            let query_mask_by_candidate_len: [u16; 16] = query_masks_lookup[query_index].1;
            assert(letter_index == symbol_at(query@, query_index as int));
            assert(0 <= letter_index < 27) by {
                assert(crate::alphabet::is_symbol(query@[query_index as int] as int));
            }
            let entries: &Vec<CandidateLetterInfo> = &self.lookup[letter_index as usize];
            assert(is_symbol_entries(entries@, names, letter_index as int));
            let mut e: usize = 0;
            while e < entries.len()
                invariant
                    self.wf(),
                    names == self.names.deep_view(),
                    valid_name(query@),
                    is_mask_table(query_masks_lookup@, query@),
                    query_index < query_masks_lookup@.len(),
                    query_mask_by_candidate_len == query_masks_lookup@[query_index as int].1,
                    letter_index == symbol_at(query@, query_index as int),
                    is_symbol_entries(entries@, names, letter_index as int),
                    e <= entries@.len(),
                    candidate_scores@.len() == self.names@.len(),
                    forall|k: int|
                        0 <= k < candidate_scores@.len() ==> #[trigger] candidate_scores@[k] == if (
                        exists|j: int| 0 <= j < e && (#[trigger] entries@[j]).name_index == k) {
                            pair_card(query@, self.names@[k]@, query_index + 1)
                        } else {
                            pair_card(query@, self.names@[k]@, query_index as int)
                        },
                decreases entries@.len() - e,
            {
                let c_info: CandidateLetterInfo = entries[e];
                let target: usize = c_info.name_index;
                assert(is_entry(entries@[e as int], names, letter_index as int));
                assert(names[target as int] == self.names@[target as int]@);
                let ghost candidate = self.names@[target as int]@;
                let query_mask: u16 = query_mask_by_candidate_len[c_info.len - 1];
                assert(query_mask == crate::mask::query_mask(
                    query_index as int,
                    query@.len() as int,
                    c_info.len as int,
                ));
                let mut candidate_score: CandidateScore = candidate_scores[target];
                proof {
                    assert(!exists|j: int|
                        0 <= j < e && (#[trigger] entries@[j]).name_index == target) by {
                        if exists|j: int|
                            0 <= j < e && (#[trigger] entries@[j]).name_index == target {
                            let j = choose|j: int|
                                0 <= j < e && (#[trigger] entries@[j]).name_index == target;
                            assert(entries@[j].name_index < entries@[e as int].name_index);
                        }
                    }
                    lemma_pair_card(query@, candidate, query_index as int);
                    lemma_occurrence_bits(
                        candidate,
                        letter_index as int,
                        candidate.len() as int,
                    );
                }
                score_letter(&mut candidate_score, query_mask, c_info.mask, query_index);
                let ghost before = candidate_scores@;
                candidate_scores[target] = candidate_score;
                proof {
                    assert(candidate_score == pair_card(query@, candidate, query_index + 1));
                    assert forall|k: int|
                        0 <= k < candidate_scores@.len() implies #[trigger] candidate_scores@[k]
                        == if (exists|j: int|
                        0 <= j < e + 1 && (#[trigger] entries@[j]).name_index == k) {
                        pair_card(query@, self.names@[k]@, query_index + 1)
                    } else {
                        pair_card(query@, self.names@[k]@, query_index as int)
                    } by {
                        if k == target {
                            assert(entries@[e as int].name_index == k);
                        } else {
                            assert(candidate_scores@[k] == before[k]);
                            if exists|j: int|
                                0 <= j < e + 1 && (#[trigger] entries@[j]).name_index == k {
                                let j = choose|j: int|
                                    0 <= j < e + 1 && (#[trigger] entries@[j]).name_index == k;
                                assert(j < e);
                            }
                        }
                    }
                }
                e += 1;
            }
            proof {
                assert forall|k: int|
                    0 <= k < candidate_scores@.len() implies #[trigger] candidate_scores@[k]
                    == pair_card(query@, self.names@[k]@, query_index + 1) by {
                    if !(exists|j: int|
                        0 <= j < e && (#[trigger] entries@[j]).name_index == k) {
                        let candidate = self.names@[k]@;
                        assert(names[k] == candidate);
                        assert(occurrence_mask(candidate, letter_index as int) == 0);
                        lemma_step_without_letter(
                            pair_card(query@, candidate, query_index as int),
                            crate::mask::query_mask(
                                query_index as int,
                                query@.len() as int,
                                candidate.len() as int,
                            ),
                            query_index as int,
                        );
                    }
                }
            }
            query_index += 1;
        }
        Some(candidate_scores)
    }
}

} // verus!
