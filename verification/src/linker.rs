//! Scoring every query of an input against every candidate: names are
//! deduplicated, each distinct query is scored once, and what it matched is
//! reported for every position at which the query and the candidate stand.

use vstd::prelude::*;
use crate::alphabet::{name_bytes, valid_name};
use crate::dedup::{
    all_valid, grouped, is_group, is_grouping, key_lt, lemma_key_order, NameGroups,
};
use crate::kernel::{first_invalid, lemma_pair_card, pair_score, CandidateIndex};
use crate::order::{lemma_name_lt_asymmetric, lemma_rising_unique, name_lt, rising, strict_order};
use crate::output::{render, render_matches, Match};
use crate::scorecard::{lemma_score_range, CandidateScore, Score};

verus! {

/// A name of the input that cannot be scored, by the list it stands in and
/// its position there.
#[derive(Clone, Copy, Debug, PartialEq, Eq, Structural)]
pub enum InputError {
    Query(usize),
    Candidate(usize),
}

/// The score of `query` against `candidate`.
pub open spec fn pair_result(query: Seq<char>, candidate: Seq<char>) -> Score {
    Score {
        numerator: pair_score(query, candidate).score_numerator(1024int / (query.len() as int)) as u32,
        denominator: pair_score(query, candidate).score_denominator() as u32,
    }
}

/// Whether `matches` reports the candidate at position `v` of the input.
pub open spec fn reports(matches: Seq<Match>, v: usize) -> bool {
    exists|x: int| 0 <= x < matches.len() && (#[trigger] matches[x]).candidate == v
}

/// Whether `matches` is what `query` is to report against the candidates
/// `all` at the threshold `min`: every candidate whose score meets the
/// threshold, once and with that score, ordered by name and among equal
/// names by position.
pub open spec fn is_match_list(
    matches: Seq<Match>,
    query: Seq<char>,
    all: Seq<Seq<char>>,
    min: Score,
) -> bool {
    &&& forall|x: int, y: int|
        0 <= x < y < matches.len() ==> key_lt(
            all,
            (#[trigger] matches[x]).candidate as int,
            (#[trigger] matches[y]).candidate as int,
        )
    &&& forall|x: int|
        0 <= x < matches.len() ==> (#[trigger] matches[x]).candidate < all.len()
            && matches[x].score == pair_result(query, all[matches[x].candidate as int])
            && matches[x].score.meets(min)
    &&& forall|j: int|
        0 <= j < all.len() && pair_result(query, #[trigger] all[j]).meets(min) ==> reports(
            matches,
            j as usize,
        )
}

/// What `query` is to report against the candidates `all` at the threshold
/// `min`.
pub open spec fn expected_matches(query: Seq<char>, all: Seq<Seq<char>>, min: Score) -> Seq<Match> {
    choose|matches: Seq<Match>| is_match_list(matches, query, all, min)
}

/// The score of a pair of names that can be scored is a fraction between
/// zero and one.
pub proof fn lemma_pair_result_range(query: Seq<char>, candidate: Seq<char>)
    requires
        valid_name(query),
        valid_name(candidate),
    ensures
        0 <= pair_result(query, candidate).numerator <= pair_result(query, candidate).denominator,
        0 < pair_result(query, candidate).denominator,
        pair_result(query, candidate).numerator == pair_score(query, candidate).score_numerator(
            1024int / (query.len() as int),
        ),
        pair_result(query, candidate).denominator == pair_score(
            query,
            candidate,
        ).score_denominator(),
{
    lemma_pair_card(query, candidate, query.len() as int);
    lemma_score_range(pair_score(query, candidate), query.len() as int);
}

/// What a query is to report is determined by the query, the candidates and
/// the threshold: two lists that both meet `is_match_list` are the same.
pub proof fn lemma_match_list_unique(
    a: Seq<Match>,
    b: Seq<Match>,
    query: Seq<char>,
    all: Seq<Seq<char>>,
    min: Score,
)
    requires
        is_match_list(a, query, all, min),
        is_match_list(b, query, all, min),
    ensures
        a == b,
{
    let before = |x: usize, y: usize| key_lt(all, x as int, y as int);
    let left = Seq::new(a.len(), |x: int| a[x].candidate);
    let right = Seq::new(b.len(), |x: int| b[x].candidate);
    assert(strict_order(before)) by {
        assert forall|x: usize| !#[trigger] before(x, x) by {
            lemma_key_order(all, x as int, x as int, x as int);
        }
        assert forall|x: usize, y: usize, z: usize|
            #![trigger before(x, y), before(y, z)]
            before(x, y) && before(y, z) implies before(x, z) by {
            lemma_key_order(all, x as int, y as int, z as int);
        }
    }
    assert forall|i: int| 0 <= i < left.len() implies right.contains(#[trigger] left[i]) by {
        assert(pair_result(query, all[a[i].candidate as int]).meets(min));
        assert(reports(b, a[i].candidate));
        let y = choose|y: int| 0 <= y < b.len() && (#[trigger] b[y]).candidate == a[i].candidate;
        assert(right[y] == left[i]);
    }
    assert forall|i: int| 0 <= i < right.len() implies left.contains(#[trigger] right[i]) by {
        assert(pair_result(query, all[b[i].candidate as int]).meets(min));
        assert(reports(a, b[i].candidate));
        let x = choose|x: int| 0 <= x < a.len() && (#[trigger] a[x]).candidate == b[i].candidate;
        assert(left[x] == right[i]);
    }
    assert(rising(left, before)) by {
        assert forall|i: int, j: int| 0 <= i < j < left.len() implies before(
            #[trigger] left[i],
            #[trigger] left[j],
        ) by {
            assert(key_lt(all, a[i].candidate as int, a[j].candidate as int));
        }
    }
    assert(rising(right, before)) by {
        assert forall|i: int, j: int| 0 <= i < j < right.len() implies before(
            #[trigger] right[i],
            #[trigger] right[j],
        ) by {
            assert(key_lt(all, b[i].candidate as int, b[j].candidate as int));
        }
    }
    lemma_rising_unique(left, right, before);
    assert(a.len() == left.len() && b.len() == right.len());
    assert forall|k: int| 0 <= k < a.len() implies a[k] == b[k] by {
        assert(left[k] == right[k]);
    }
    assert(a =~= b);
}

/// At a threshold of zero every candidate of the input is reported, and each
/// once: there are as many matches as candidates.
pub proof fn lemma_zero_threshold(
    matches: Seq<Match>,
    query: Seq<char>,
    all: Seq<Seq<char>>,
    min: Score,
)
    requires
        is_match_list(matches, query, all, min),
        min.numerator == 0,
        all.len() <= usize::MAX,
    ensures
        matches.len() == all.len(),
        forall|v: usize| v < all.len() ==> #[trigger] reports(matches, v),
        forall|x: int, y: int|
            0 <= x < y < matches.len() ==> (#[trigger] matches[x]).candidate != (
            #[trigger] matches[y]).candidate,
{
    assert forall|v: usize| v < all.len() implies #[trigger] reports(matches, v) by {
        let s = pair_result(query, all[v as int]);
        assert(s.meets(min)) by (nonlinear_arith)
            requires
                s.numerator * min.denominator >= 0,
                min.numerator == 0,
                s.meets(min) == (s.numerator * min.denominator >= min.numerator * s.denominator),
        ;
    }
    assert forall|x: int, y: int| 0 <= x < y < matches.len() implies (
    #[trigger] matches[x]).candidate != (#[trigger] matches[y]).candidate by {
        lemma_key_order(all, matches[x].candidate as int, 0, 0);
    }
    let ids = Seq::new(matches.len(), |x: int| matches[x].candidate as int);
    assert(ids.no_duplicates());
    let range = vstd::set_lib::set_int_range(0, all.len() as int);
    assert(ids.to_set() =~= range) by {
        assert forall|j: int| range.contains(j) implies ids.to_set().contains(j) by {
            let v = j as usize;
            assert(reports(matches, v));
            let x = choose|x: int| 0 <= x < matches.len() && (#[trigger] matches[x]).candidate == v;
            assert(ids[x] == j);
        }
        assert forall|j: int| ids.to_set().contains(j) implies range.contains(j) by {
            let x = choose|x: int| 0 <= x < ids.len() && ids[x] == j;
            assert(matches[x].candidate < all.len());
        }
    }
    ids.unique_seq_to_set();
    vstd::set_lib::lemma_int_range(0, all.len() as int);
}

/// Matches are reported in the order of the candidates' names, and those of
/// candidates with one name by rising position in the input.
pub proof fn lemma_reported_in_order(
    matches: Seq<Match>,
    query: Seq<char>,
    all: Seq<Seq<char>>,
    min: Score,
    x: int,
    y: int,
)
    requires
        is_match_list(matches, query, all, min),
        0 <= x < y < matches.len(),
    ensures
        !name_lt(all[matches[y].candidate as int], all[matches[x].candidate as int]),
        all[matches[x].candidate as int] == all[matches[y].candidate as int]
            ==> matches[x].candidate < matches[y].candidate,
{
    let a = all[matches[x].candidate as int];
    let b = all[matches[y].candidate as int];
    assert(key_lt(all, matches[x].candidate as int, matches[y].candidate as int));
    lemma_name_lt_asymmetric(a, b);
    lemma_name_lt_asymmetric(b, a);
}

/// Whether position `v` of the input stands in one of the first `c` groups.
pub open spec fn grouped_below(members: Seq<Vec<usize>>, c: int, v: usize) -> bool {
    exists|r: int| 0 <= r < c && r < members.len() && (#[trigger] members[r])@.contains(v)
}

/// A run that is ready to score: the distinct queries and candidates of the
/// two inputs with their positions there, and the index over the candidates.
pub struct Linker {
    /// The distinct queries and where they stand in the input.
    pub queries: NameGroups,
    /// The distinct candidates and their index.
    pub candidates: CandidateIndex,
    /// Where each distinct candidate stands in the input.
    pub candidate_members: Vec<Vec<usize>>,
    /// The queries as they were given.
    pub query_input: Ghost<Seq<Seq<char>>>,
    /// The candidates as they were given.
    pub candidate_input: Ghost<Seq<Seq<char>>>,
}

impl Linker {
    /// Both inputs can be scored throughout, the queries and the candidates
    /// are their groups, and the index is that of the distinct candidates.
    pub open spec fn wf(&self) -> bool {
        &&& all_valid(self.query_input@)
        &&& all_valid(self.candidate_input@)
        &&& self.query_input@.len() <= usize::MAX
        &&& self.candidate_input@.len() <= usize::MAX
        &&& self.queries.is_grouping_of(self.query_input@)
        &&& self.candidates.wf()
        &&& is_grouping(
            self.candidates.names.deep_view(),
            self.candidate_members@,
            self.candidate_input@,
        )
    }

    /// Prepares a run over the queries `names_a` and the candidates
    /// `names_b`, or names the first name that cannot be scored: among the
    /// queries if there is one, else among the candidates.
    pub fn new(names_a: &Vec<String>, names_b: &Vec<String>) -> (made: Result<Linker, InputError>)
        ensures
            made is Ok <==> all_valid(names_a.deep_view()) && all_valid(names_b.deep_view()),
            made matches Ok(linker) ==> linker.wf() && linker.query_input@ == names_a.deep_view()
                && linker.candidate_input@ == names_b.deep_view(),
            made matches Err(InputError::Query(i)) ==> i < names_a@.len() && !valid_name(
                names_a@[i as int]@,
            ) && forall|k: int| 0 <= k < i ==> valid_name(names_a@[k]@),
            made matches Err(InputError::Candidate(j)) ==> all_valid(names_a.deep_view()) && j
                < names_b@.len() && !valid_name(names_b@[j as int]@) && forall|k: int|
                0 <= k < j ==> valid_name(names_b@[k]@),
    {
        let ghost all_a = names_a.deep_view();
        let ghost all_b = names_b.deep_view();
        let query_total: usize = names_a.len();
        let candidate_total: usize = names_b.len();
        proof {
            assert(all_a.len() == query_total);
            assert(all_b.len() == candidate_total);
            assert forall|i: int| 0 <= i < names_a@.len() implies #[trigger] all_a[i]
                == names_a@[i]@ by {}
            assert forall|i: int| 0 <= i < names_b@.len() implies #[trigger] all_b[i]
                == names_b@[i]@ by {}
        }
        match first_invalid(names_a) {
            Some(i) => {
                assert(!valid_name(all_a[i as int]));
                return Err(InputError::Query(i));
            },
            None => {},
        }
        assert(all_valid(all_a)) by {
            assert forall|i: int| 0 <= i < all_a.len() implies valid_name(#[trigger] all_a[i]) by {
                assert(valid_name(names_a@[i]@));
            }
        }
        match first_invalid(names_b) {
            Some(j) => {
                assert(!valid_name(all_b[j as int]));
                return Err(InputError::Candidate(j));
            },
            None => {},
        }
        assert(all_valid(all_b)) by {
            assert forall|i: int| 0 <= i < all_b.len() implies valid_name(#[trigger] all_b[i]) by {
                assert(valid_name(names_b@[i]@));
            }
        }
        let queries = NameGroups::new(names_a);
        let grouped_b = NameGroups::new(names_b);
        let unique_b: Vec<String> = grouped_b.names;
        let candidate_members: Vec<Vec<usize>> = grouped_b.members;
        proof {
            assert forall|r: int| 0 <= r < unique_b@.len() implies valid_name(
                #[trigger] unique_b@[r]@,
            ) by {
                assert(unique_b.deep_view()[r] == unique_b@[r]@);
                assert(is_group(candidate_members@[r]@, unique_b.deep_view()[r], all_b));
                let v = candidate_members@[r]@[0];
                assert(valid_name(all_b[v as int]));
            }
        }
        let candidates = CandidateIndex::build(unique_b);
        Ok(
            Linker {
                queries,
                candidates,
                candidate_members,
                query_input: Ghost(all_a),
                candidate_input: Ghost(all_b),
            },
        )
    }

    /// Number of distinct queries.
    pub fn query_count(&self) -> (count: usize)
        ensures
            count == self.queries.names@.len(),
    {
        self.queries.names.len()
    }

    /// The positions in the input of the distinct query `rank`.
    pub fn query_ids(&self, rank: usize) -> (ids: &Vec<usize>)
        requires
            self.wf(),
            rank < self.queries.names@.len(),
        ensures
            ids == self.queries.members@[rank as int],
            is_group(ids@, self.queries.names@[rank as int]@, self.query_input@),
    {
        assert(self.queries.names.deep_view()[rank as int] == self.queries.names@[rank as int]@);
        &self.queries.members[rank]
    }

    /// What the distinct query `rank` reports at the threshold `min`: every
    /// candidate of the input whose score meets it.
    pub fn matches(&self, rank: usize, min: &Score) -> (found: Vec<Match>)
        requires
            self.wf(),
            rank < self.queries.names@.len(),
        ensures
            is_match_list(found@, self.queries.names@[rank as int]@, self.candidate_input@, *min),
    {
        let query: &String = &self.queries.names[rank];
        let ghost q = query@;
        let ghost all = self.candidate_input@;
        let ghost unique = self.candidates.names.deep_view();
        let ghost members = self.candidate_members@;
        proof {
            assert(self.queries.names.deep_view()[rank as int] == q);
            let ids = self.queries.members@[rank as int]@;
            assert(is_group(ids, q, self.query_input@));
            assert(valid_name(self.query_input@[ids[0] as int]));
            assert forall|r: int| 0 <= r < unique.len() implies #[trigger] unique[r]
                == self.candidates.names@[r]@ by {}
        }
        let cards: Vec<CandidateScore> = self.candidates.score_query(query).unwrap();
        let query_partial: u16 = 1024 / (name_bytes(query).len() as u16);
        let count: usize = cards.len();
        let mut found: Vec<Match> = Vec::new();
        let mut c: usize = 0;
        while c < count
            invariant
                self.wf(),
                valid_name(q),
                all == self.candidate_input@,
                unique == self.candidates.names.deep_view(),
                members == self.candidate_members@,
                count == cards@.len(),
                count == unique.len(),
                query_partial == 1024int / (q.len() as int),
                forall|r: int| 0 <= r < count ==> #[trigger] cards@[r] == pair_score(q, unique[r]),
                c <= count,
                forall|x: int, y: int|
                    0 <= x < y < found@.len() ==> key_lt(
                        all,
                        (#[trigger] found@[x]).candidate as int,
                        (#[trigger] found@[y]).candidate as int,
                    ),
                forall|x: int|
                    0 <= x < found@.len() ==> (#[trigger] found@[x]).candidate < all.len()
                        && found@[x].score == pair_result(q, all[found@[x].candidate as int])
                        && found@[x].score.meets(*min),
                forall|x: int, s: int|
                    0 <= x < found@.len() && c <= s < count ==> name_lt(
                        all[(#[trigger] found@[x]).candidate as int],
                        #[trigger] unique[s],
                    ),
                forall|j: int|
                    0 <= j < all.len() && pair_result(q, #[trigger] all[j]).meets(*min)
                        && grouped_below(members, c as int, j as usize) ==> reports(
                        found@,
                        j as usize,
                    ),
            decreases count - c,
        {
            let card: CandidateScore = cards[c];
            let ghost name = unique[c as int];
            proof {
                assert(valid_name(self.candidates.names@[c as int]@));
                lemma_pair_card(q, name, q.len() as int);
                lemma_pair_result_range(q, name);
            }
            let score: Score = card.calculate_jaro_winkler(query_partial);
            assert(score == pair_result(q, name));
            let ids: &Vec<usize> = &self.candidate_members[c];
            assert(is_group(ids@, name, all));
            let ghost outer = found@;
            if score.at_least(min) {
                let mut k: usize = 0;
                while k < ids.len()
                    invariant
                        all == self.candidate_input@,
                        c < count,
                        count == unique.len(),
                        name == unique[c as int],
                        is_grouping(unique, members, all),
                        ids@ == members[c as int]@,
                        is_group(ids@, name, all),
                        score == pair_result(q, name),
                        score.meets(*min),
                        k <= ids@.len(),
                        found@.len() == outer.len() + k,
                        forall|x: int| 0 <= x < outer.len() ==> found@[x] == outer[x],
                        forall|x: int|
                            0 <= x < k ==> (#[trigger] found@[outer.len() + x]).candidate
                                == ids@[x],
                        forall|x: int, y: int|
                            0 <= x < y < found@.len() ==> key_lt(
                                all,
                                (#[trigger] found@[x]).candidate as int,
                                (#[trigger] found@[y]).candidate as int,
                            ),
                        forall|x: int|
                            0 <= x < found@.len() ==> (#[trigger] found@[x]).candidate
                                < all.len() && found@[x].score == pair_result(
                                q,
                                all[found@[x].candidate as int],
                            ) && found@[x].score.meets(*min),
                        forall|x: int|
                            0 <= x < outer.len() ==> name_lt(
                                all[(#[trigger] outer[x]).candidate as int],
                                name,
                            ),
                    decreases ids@.len() - k,
                {
                    let id: usize = ids[k];
                    let ghost before = found@;
                    found.push(Match { candidate: id, score });
                    proof {
                        assert(all[id as int] == name);
                        assert forall|x: int, y: int|
                            0 <= x < y < found@.len() implies key_lt(
                            all,
                            (#[trigger] found@[x]).candidate as int,
                            (#[trigger] found@[y]).candidate as int,
                        ) by {
                            if y == before.len() {
                                if x < outer.len() {
                                    assert(found@[x] == outer[x]);
                                } else {
                                    assert(found@[outer.len() + (x - outer.len())].candidate
                                        == ids@[x - outer.len()]);
                                    assert(ids@[x - outer.len()] < ids@[k as int]);
                                }
                            } else {
                                assert(found@[x] == before[x]);
                                assert(found@[y] == before[y]);
                            }
                        }
                    }
                    k += 1;
                }
            }
            proof {
                let grown = found@;
                assert forall|x: int, s: int|
                    0 <= x < grown.len() && c + 1 <= s < count implies name_lt(
                    all[(#[trigger] grown[x]).candidate as int],
                    #[trigger] unique[s],
                ) by {
                    if x < outer.len() {
                        assert(grown[x] == outer[x]);
                    } else {
                        let i = x - outer.len();
                        assert(grown[outer.len() + i].candidate == ids@[i]);
                        assert(all[ids@[i] as int] == name);
                        assert(name_lt(unique[c as int], unique[s]));
                    }
                }
                assert forall|j: int|
                    0 <= j < all.len() && pair_result(q, #[trigger] all[j]).meets(*min)
                        && grouped_below(members, c + 1, j as usize) implies reports(
                    grown,
                    j as usize,
                ) by {
                    let r = choose|r: int|
                        0 <= r < c + 1 && r < members.len() && (#[trigger] members[r])@.contains(
                            j as usize,
                        );
                    if r < c {
                        assert(grouped_below(members, c as int, j as usize));
                        assert(reports(outer, j as usize));
                        let x = choose|x: int|
                            0 <= x < outer.len() && (#[trigger] outer[x]).candidate == j as usize;
                        assert(grown[x] == outer[x]);
                    } else {
                        let i = choose|i: int| 0 <= i < ids@.len() && ids@[i] == j as usize;
                        assert(all[ids@[i] as int] == name);
                        assert((j as usize) as int == j);
                        assert(score.meets(*min));
                        assert(grown[outer.len() + i].candidate == ids@[i]);
                    }
                }
            }
            c += 1;
        }
        proof {
            assert forall|j: int|
                0 <= j < all.len() && pair_result(q, #[trigger] all[j]).meets(*min) implies reports(
                found@,
                j as usize,
            ) by {
                assert(grouped(members, j as usize));
                let r = choose|r: int|
                    0 <= r < members.len() && (#[trigger] members[r])@.contains(j as usize);
                assert(grouped_below(members, count as int, j as usize));
            }
        }
        found
    }

    /// The text of the output file of the distinct query `rank` at the
    /// threshold `min`: one line for each candidate that it reports.
    pub fn output(&self, rank: usize, min: &Score) -> (text: Vec<u8>)
        requires
            self.wf(),
            rank < self.queries.names@.len(),
        ensures
            text@ == render(
                expected_matches(self.queries.names@[rank as int]@, self.candidate_input@, *min),
            ),
    {
        let found: Vec<Match> = self.matches(rank, min);
        proof {
            let q = self.queries.names@[rank as int]@;
            let all = self.candidate_input@;
            lemma_match_list_unique(found@, expected_matches(q, all, *min), q, all, *min);
            assert(self.queries.names.deep_view()[rank as int] == q);
            let ids = self.queries.members@[rank as int]@;
            assert(is_group(ids, q, self.query_input@));
            assert(valid_name(self.query_input@[ids[0] as int]));
            assert forall|i: int| 0 <= i < found@.len() implies (
            #[trigger] found@[i]).score.denominator > 0 by {
                lemma_pair_result_range(q, all[found@[i].candidate as int]);
            }
        }
        render_matches(&found)
    }
}

/// Scores every query against every candidate and gives, for every query
/// of the input, the text of its output file: a line for each candidate
/// whose score meets `min_jaro_winkler`, ordered by the candidate's name and
/// among equal names by its position. Names the first name that cannot be
/// scored instead, if there is one.
pub fn pseudo_jaro_winkler(
    names_a: &Vec<String>,
    names_b: &Vec<String>,
    min_jaro_winkler: Score,
) -> (written: Result<Vec<Vec<u8>>, InputError>)
    ensures
        written is Ok <==> all_valid(names_a.deep_view()) && all_valid(names_b.deep_view()),
        written matches Err(InputError::Query(i)) ==> i < names_a@.len() && !valid_name(
            names_a@[i as int]@,
        ) && forall|k: int| 0 <= k < i ==> valid_name(names_a@[k]@),
        written matches Err(InputError::Candidate(j)) ==> all_valid(names_a.deep_view()) && j
            < names_b@.len() && !valid_name(names_b@[j as int]@) && forall|k: int|
            0 <= k < j ==> valid_name(names_b@[k]@),
        written matches Ok(files) ==> files@.len() == names_a@.len() && forall|i: int|
            0 <= i < files@.len() ==> (#[trigger] files@[i])@ == render(
                expected_matches(names_a@[i]@, names_b.deep_view(), min_jaro_winkler),
            ),
        written matches Ok(files) ==> forall|i: int, j: int|
            0 <= i < files@.len() && 0 <= j < files@.len() && names_a@[i]@ == names_a@[j]@ ==> (
            #[trigger] files@[i])@ == (#[trigger] files@[j])@,
{
    let linker = match Linker::new(names_a, names_b) {
        Ok(linker) => linker,
        Err(error) => {
            return Err(error);
        },
    };
    let ghost all_a = names_a.deep_view();
    let ghost all_b = names_b.deep_view();
    let ghost groups = linker.queries.members@;
    let total: usize = names_a.len();
    let mut files: Vec<Vec<u8>> = Vec::new();
    let mut i: usize = 0;
    while i < total
        invariant
            i <= total,
            files@.len() == i,
        decreases total - i,
    {
        files.push(Vec::new());
        i += 1;
    }
    proof {
        assert forall|k: int| 0 <= k < all_a.len() implies #[trigger] all_a[k] == names_a@[k]@ by {}
    }
    let count: usize = linker.query_count();
    let mut rank: usize = 0;
    while rank < count
        invariant
            linker.wf(),
            linker.query_input@ == all_a,
            linker.candidate_input@ == all_b,
            groups == linker.queries.members@,
            count == linker.queries.names@.len(),
            count == groups.len(),
            all_a.len() == total,
            rank <= count,
            files@.len() == total,
            forall|k: int|
                0 <= k < total && grouped_below(groups, rank as int, k as usize) ==> (
                #[trigger] files@[k])@ == render(
                    expected_matches(all_a[k], all_b, min_jaro_winkler),
                ),
        decreases count - rank,
    {
        let text: Vec<u8> = linker.output(rank, &min_jaro_winkler);
        let ids: &Vec<usize> = linker.query_ids(rank);
        let ghost name = linker.queries.names@[rank as int]@;
        let mut k: usize = 0;
        while k < ids.len()
            invariant
                ids@ == groups[rank as int]@,
                is_group(ids@, name, all_a),
                all_a.len() == total,
                rank < count,
                count == groups.len(),
                files@.len() == total,
                k <= ids@.len(),
                text@ == render(expected_matches(name, all_b, min_jaro_winkler)),
                forall|x: int|
                    0 <= x < total && grouped_below(groups, rank as int, x as usize) ==> (
                    #[trigger] files@[x])@ == render(
                        expected_matches(all_a[x], all_b, min_jaro_winkler),
                    ),
                forall|x: int|
                    0 <= x < k ==> files@[(#[trigger] ids@[x]) as int]@ == text@,
            decreases ids@.len() - k,
        {
            let id: usize = ids[k];
            let copy: Vec<u8> = text.clone();
            assert(copy@ =~= text@);
            let ghost before = files@;
            files[id] = copy;
            proof {
                assert forall|x: int|
                    0 <= x < total && grouped_below(
                        groups,
                        rank as int,
                        x as usize,
                    ) implies (#[trigger] files@[x])@ == render(
                    expected_matches(all_a[x], all_b, min_jaro_winkler),
                ) by {
                    if x == id {
                        assert(all_a[x] == name);
                    } else {
                        assert(files@[x] == before[x]);
                    }
                }
                assert forall|x: int| 0 <= x < k + 1 implies files@[(#[trigger] ids@[x]) as int]@
                    == text@ by {
                    if x < k {
                        if ids@[x] != id {
                            assert(files@[ids@[x] as int] == before[ids@[x] as int]);
                        }
                    }
                }
            }
            k += 1;
        }
        proof {
            assert forall|x: int|
                0 <= x < total && grouped_below(groups, rank + 1, x as usize) implies (
            #[trigger] files@[x])@ == render(
                expected_matches(all_a[x], all_b, min_jaro_winkler),
            ) by {
                let r = choose|r: int|
                    0 <= r < rank + 1 && r < groups.len() && (#[trigger] groups[r])@.contains(
                        x as usize,
                    );
                if r < rank {
                    assert(grouped_below(groups, rank as int, x as usize));
                } else {
                    let p = choose|p: int| 0 <= p < ids@.len() && ids@[p] == x as usize;
                    assert(files@[ids@[p] as int]@ == text@);
                    assert(all_a[ids@[p] as int] == name);
                }
            }
        }
        rank += 1;
    }
    proof {
        assert forall|x: int| 0 <= x < files@.len() implies (#[trigger] files@[x])@ == render(
            expected_matches(names_a@[x]@, all_b, min_jaro_winkler),
        ) by {
            assert(grouped(groups, x as usize));
            let r = choose|r: int|
                0 <= r < groups.len() && (#[trigger] groups[r])@.contains(x as usize);
            assert(grouped_below(groups, count as int, x as usize));
            assert(all_a[x] == names_a@[x]@);
        }
    }
    Ok(files)
}

} // verus!
