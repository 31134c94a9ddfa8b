//! The query mask table: for every query character and every candidate
//! length, the candidate positions at which that character may match.

use vstd::prelude::*;
use crate::alphabet::{is_valid_name, name_bytes, symbol_at, symbol_index, valid_name};
use crate::bits::{
    bit, lemma_bit_ops, lemma_bit_shifts, lemma_bit_single, lemma_bits_equal, lemma_span_mask,
    span_mask,
};

verus! {

/// How far apart two positions may be and still match, for a name of `n`
/// characters.
pub open spec fn match_window(n: int) -> int {
    if n <= 3 {
        0
    } else {
        n / 2 - 1
    }
}

/// The window that holds between a query and a candidate: the larger of
/// their own.
pub open spec fn effective_window(query_len: int, candidate_len: int) -> int {
    if match_window(query_len) >= match_window(candidate_len) {
        match_window(query_len)
    } else {
        match_window(candidate_len)
    }
}

/// The positions within `distance` of `position`, as far as they fit a mask.
pub open spec fn window_mask(position: int, distance: int) -> u16 {
    span_mask(
        if position - distance < 0 {
            0
        } else {
            position - distance
        },
        if position + distance > 15 {
            15
        } else {
            position + distance
        },
    )
}

/// The candidate positions at which the query character at `position` may
/// match a candidate of `candidate_len` characters.
pub open spec fn query_mask(position: int, query_len: int, candidate_len: int) -> u16 {
    window_mask(position, effective_window(query_len, candidate_len))
}

/// Whether `table` is the mask table of `query`: one entry for each
/// character, with its symbol and its mask for each candidate length from one
/// to sixteen.
pub open spec fn is_mask_table(table: Seq<(u8, [u16; 16])>, query: Seq<char>) -> bool {
    &&& table.len() == query.len()
    &&& forall|i: int|
        0 <= i < table.len() ==> (#[trigger] table[i]).0 == symbol_at(query, i)
    &&& forall|i: int, k: int|
        0 <= i < table.len() && 1 <= k <= 16 ==> #[trigger] table[i].1@[k - 1] == query_mask(
            i,
            query.len() as int,
            k,
        )
}

/// The match window of a name of `n` characters.
pub fn match_distance(n: usize) -> (distance: usize)
    ensures
        distance == match_window(n as int),
{
    if n > 3 {
        n / 2 - 1
    } else {
        0
    }
}

/// Widens the single position `position` by `distance` positions to either
/// side. What would leave the mask is dropped.
pub fn dilate(position: usize, distance: usize) -> (mask: u16)
    requires
        position < 16,
        distance <= 16,
    ensures
        mask == window_mask(position as int, distance as int),
{
    let mut mask: u16 = 1u16 << position;
    let mut done: usize = 0;
    proof {
        lemma_bit_single(position as int);
    }
    while done < distance
        invariant
            position < 16,
            done <= distance <= 16,
            forall|p: int|
                0 <= p < 16 ==> (#[trigger] bit(mask, p) <==> position - done <= p <= position
                    + done),
        decreases distance - done,
    {
        let ghost before = mask;
        mask = mask << 1 | mask;
        let ghost widened = mask;
        mask = mask >> 1 | mask;
        proof {
            lemma_bit_shifts(before);
            lemma_bit_ops(before << 1, before);
            lemma_bit_shifts(widened);
            lemma_bit_ops(widened >> 1, widened);
            assert forall|p: int| 0 <= p < 16 implies (#[trigger] bit(mask, p) <==> position - (
            done + 1) <= p <= position + (done + 1)) by {
                assert(bit(widened, p) == (bit(before << 1, p) || bit(before, p)));
                assert(bit(widened, p + 1) == (bit(before << 1, p + 1) || bit(before, p + 1)));
            }
        }
        done += 1;
    }
    proof {
        let lo = if position - distance < 0 {
            0
        } else {
            position - distance
        };
        let hi = if position + distance > 15 {
            15
        } else {
            position + distance
        };
        lemma_span_mask(lo, hi);
        lemma_bits_equal(mask, span_mask(lo, hi));
    }
    mask
}

/// Builds the mask table of `query`, or nothing when `query` cannot be
/// scored.
pub fn maskify(query: &String) -> (table: Option<Vec<(u8, [u16; 16])>>)
    ensures
        table is Some <==> valid_name(query@),
        table matches Some(t) ==> is_mask_table(t@, query@),
{
    if !is_valid_name(query) {
        return None;
    }
    let bytes = name_bytes(query);
    let len: usize = bytes.len();
    let min_match_dist: usize = match_distance(len);
    let mut table: Vec<(u8, [u16; 16])> = Vec::new();
    let mut i: usize = 0;
    while i < len
        invariant
            valid_name(query@),
            len == query@.len(),
            len == bytes@.len(),
            i <= len,
            min_match_dist == match_window(len as int),
            forall|k: int| 0 <= k < len ==> bytes@[k] as int == #[trigger] query@[k] as int,
            table@.len() == i,
            forall|j: int| 0 <= j < i ==> (#[trigger] table@[j]).0 == symbol_at(query@, j),
            forall|j: int, k: int|
                0 <= j < i && 1 <= k <= 16 ==> #[trigger] table@[j].1@[k - 1] == query_mask(
                    j,
                    len as int,
                    k,
                ),
        decreases len - i,
    {
        assert(bytes@[i as int] as int == query@[i as int] as int);
        let index: u8 = symbol_index(bytes[i]);
        let mut masks_by_candidate_len: [u16; 16] = [0u16; 16];
        let mut candidate_len: usize = 1;
        while candidate_len <= 16
            invariant
                1 <= candidate_len <= 17,
                i < len <= 16,
                min_match_dist == match_window(len as int),
                forall|k: int|
                    1 <= k < candidate_len ==> #[trigger] masks_by_candidate_len@[k - 1]
                        == query_mask(i as int, len as int, k),
            decreases 17 - candidate_len,
        {
            let own: usize = match_distance(candidate_len);
            let match_distance: usize = if own <= min_match_dist {
                min_match_dist
            } else {
                own
            };
            let query_mask: u16 = dilate(i, match_distance);
            masks_by_candidate_len[candidate_len - 1] = query_mask;
            candidate_len += 1;
        }
        table.push((index, masks_by_candidate_len));
        i += 1;
    }
    Some(table)
}

} // verus!
