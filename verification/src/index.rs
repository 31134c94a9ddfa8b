//! The inverted letter index: for every symbol of the alphabet, the
//! candidates that hold it and the positions at which they do.

use vstd::prelude::*;
use itertools::Itertools;
use crate::alphabet::{
    holds_symbol, is_symbol, is_valid_name, name_bytes, symbol_at, symbol_of, valid_name,
    ALPHABET_SIZE,
};
use crate::bits::{bit, lemma_bit_ops, lemma_bit_single, lemma_bits_equal};

verus! {

/// One candidate under one symbol of the index.
#[derive(Clone, Copy, Debug, PartialEq, Eq, Structural)]
pub struct CandidateLetterInfo {
    /// Index of the candidate among the names that the index was built from.
    pub name_index: usize,
    /// Length of the candidate.
    pub len: usize,
    /// Positions at which the candidate holds the symbol.
    pub mask: u16,
}

/// The positions below `n` at which `name` holds `symbol`.
pub open spec fn occurrences_below(name: Seq<char>, symbol: int, n: int) -> u16
    decreases n,
{
    if n <= 0 {
        0
    } else {
        occurrences_below(name, symbol, n - 1) | if symbol_at(name, n - 1) == symbol {
            1u16 << ((n - 1) as u16)
        } else {
            0u16
        }
    }
}

/// The positions at which `name` holds `symbol`.
pub open spec fn occurrence_mask(name: Seq<char>, symbol: int) -> u16 {
    occurrences_below(name, symbol, name.len() as int)
}

/// Whether `entry` describes, under `symbol`, the candidate it points to.
pub open spec fn is_entry(entry: CandidateLetterInfo, names: Seq<Seq<char>>, symbol: int) -> bool {
    &&& entry.name_index < names.len()
    &&& valid_name(names[entry.name_index as int])
    &&& entry.len == names[entry.name_index as int].len()
    &&& entry.mask == occurrence_mask(names[entry.name_index as int], symbol)
    &&& entry.mask != 0
}

/// Whether `entries` lists, by rising index and each once, exactly the
/// candidates that can be scored and hold `symbol`.
pub open spec fn is_symbol_entries(
    entries: Seq<CandidateLetterInfo>,
    names: Seq<Seq<char>>,
    symbol: int,
) -> bool {
    &&& forall|j: int, k: int|
        0 <= j < k < entries.len() ==> (#[trigger] entries[j]).name_index < (
        #[trigger] entries[k]).name_index
    &&& forall|j: int| 0 <= j < entries.len() ==> is_entry(#[trigger] entries[j], names, symbol)
    &&& forall|c: int|
        0 <= c < names.len() && valid_name(#[trigger] names[c]) && occurrence_mask(names[c], symbol)
            != 0 ==> exists|j: int|
            0 <= j < entries.len() && (#[trigger] entries[j]).name_index == c
}

/// Whether `lookup` is the inverted letter index of `names`.
pub open spec fn is_lookup(lookup: Seq<Vec<CandidateLetterInfo>>, names: Seq<Seq<char>>) -> bool {
    &&& lookup.len() == 27
    &&& forall|s: int| 0 <= s < 27 ==> is_symbol_entries((#[trigger] lookup[s])@, names, s)
}

/// `occurrences_below` holds position `p` exactly when `p` lies below `n` and
/// the name holds the symbol there.
pub proof fn lemma_occurrence_bits(name: Seq<char>, symbol: int, n: int)
    requires
        0 <= n <= 16,
    ensures
        forall|p: int|
            #[trigger] bit(occurrences_below(name, symbol, n), p) == (0 <= p < n && symbol_at(
                name,
                p,
            ) == symbol),
    decreases n,
{
    if n > 0 {
        lemma_occurrence_bits(name, symbol, n - 1);
        let rest = occurrences_below(name, symbol, n - 1);
        let last = if symbol_at(name, n - 1) == symbol {
            1u16 << ((n - 1) as u16)
        } else {
            0u16
        };
        lemma_bit_ops(rest, last);
        lemma_bit_single(n - 1);
    } else {
        lemma_bit_ops(0, 0);
    }
}

/// The positions of `bytes` that hold `symbol`, in rising order.
///
/// Calls `Itertools::positions` on the bytes with `holds_symbol` as the
/// predicate. The adaptor numbers the items from zero and yields, in the
/// order of the iteration, the number of each item for which the predicate
/// holds; the contract says that and nothing more.
#[verifier::external_body]
fn positions_of(bytes: &[u8], symbol: u8) -> (found: Vec<usize>)
    ensures
        forall|j: int, k: int| 0 <= j < k < found@.len() ==> found@[j] < found@[k],
        forall|j: int|
            0 <= j < found@.len() ==> (#[trigger] found@[j]) < bytes@.len() && is_symbol(
                bytes@[found@[j] as int] as int,
            ) && symbol_of(bytes@[found@[j] as int] as int) == symbol,
        forall|p: int|
            0 <= p < bytes@.len() && is_symbol(#[trigger] bytes@[p] as int) && symbol_of(
                bytes@[p] as int,
            ) == symbol ==> exists|j: int| 0 <= j < found@.len() && #[trigger] found@[j] == p,
{
    bytes.iter().positions(|byte| holds_symbol(*byte, symbol)).collect()
}

/// The positions at which a name holds `symbol`, as a mask.
pub fn letter_mask(name: &String, symbol: u8) -> (mask: u16)
    requires
        valid_name(name@),
    ensures
        mask == occurrence_mask(name@, symbol as int),
{
    let bytes = name_bytes(name);
    let found: Vec<usize> = positions_of(bytes, symbol);
    let mut mask: u16 = 0;
    let mut done: usize = 0;
    proof {
        lemma_bit_ops(0, 0);
    }
    while done < found.len()
        invariant
            done <= found@.len(),
            bytes@.len() <= 16,
            forall|j: int| 0 <= j < found@.len() ==> (#[trigger] found@[j]) < bytes@.len(),
            forall|p: int|
                0 <= p < 16 ==> (#[trigger] bit(mask, p) <==> exists|j: int|
                    0 <= j < done && #[trigger] found@[j] == p),
        decreases found@.len() - done,
    {
        let matching_index_in_name: usize = found[done];
        let ghost before = mask;
        mask |= 1u16 << matching_index_in_name;
        proof {
            lemma_bit_ops(before, 1u16 << matching_index_in_name);
            lemma_bit_single(matching_index_in_name as int);
            assert forall|p: int| 0 <= p < 16 implies (#[trigger] bit(mask, p) <==> exists|j: int|
                0 <= j < done + 1 && #[trigger] found@[j] == p) by {
                if bit(mask, p) {
                    if bit(before, p) {
                        let j = choose|j: int| 0 <= j < done && #[trigger] found@[j] == p;
                        assert(0 <= j < done + 1 && found@[j] == p);
                    } else {
                        assert(found@[done as int] == p);
                    }
                }
                if exists|j: int| 0 <= j < done + 1 && #[trigger] found@[j] == p {
                    let j = choose|j: int| 0 <= j < done + 1 && #[trigger] found@[j] == p;
                    if j < done {
                        assert(bit(before, p));
                    }
                }
            }
        }
        done += 1;
    }
    proof {
        let wanted = occurrence_mask(name@, symbol as int);
        lemma_occurrence_bits(name@, symbol as int, name@.len() as int);
        assert forall|p: int| 0 <= p < 16 implies bit(mask, p) == bit(wanted, p) by {
            if bit(mask, p) {
                let j = choose|j: int| 0 <= j < done && #[trigger] found@[j] == p;
                assert(bytes@[p] as int == name@[p] as int);
            }
            if bit(wanted, p) {
                assert(bytes@[p] as int == name@[p] as int);
                assert(is_symbol(name@[p] as int));
            }
        }
        lemma_bits_equal(mask, wanted);
    }
    mask
}

/// Builds the inverted letter index of `names`. A name that cannot be scored
/// gets no entry; a candidate gets none under a symbol it does not hold.
pub fn build_candidate_lookup(names: &Vec<String>) -> (letter_lookup: Vec<Vec<CandidateLetterInfo>>)
    ensures
        is_lookup(letter_lookup@, names.deep_view()),
{
    let mut letter_lookup: Vec<Vec<CandidateLetterInfo>> = Vec::new();
    let mut letter: u8 = 0;
    while (letter as usize) < ALPHABET_SIZE
        invariant
            letter <= 27,
            letter_lookup@.len() == letter,
            forall|s: int|
                0 <= s < letter ==> is_symbol_entries(
                    (#[trigger] letter_lookup@[s])@,
                    names.deep_view(),
                    s,
                ),
        decreases 27 - letter,
    {
        let mut candidate_infos: Vec<CandidateLetterInfo> = Vec::new();
        let mut name_index: usize = 0;
        while name_index < names.len()
            invariant
                letter < 27,
                name_index <= names@.len(),
                forall|j: int, k: int|
                    0 <= j < k < candidate_infos@.len() ==> (
                    #[trigger] candidate_infos@[j]).name_index < (
                    #[trigger] candidate_infos@[k]).name_index,
                forall|j: int|
                    0 <= j < candidate_infos@.len() ==> (#[trigger] candidate_infos@[j]).name_index
                        < name_index && is_entry(
                        candidate_infos@[j],
                        names.deep_view(),
                        letter as int,
                    ),
                forall|c: int|
                    0 <= c < name_index && valid_name(#[trigger] names.deep_view()[c])
                        && occurrence_mask(names.deep_view()[c], letter as int) != 0
                        ==> exists|j: int|
                        0 <= j < candidate_infos@.len() && (
                        #[trigger] candidate_infos@[j]).name_index == c,
            decreases names@.len() - name_index,
        {
            let name: &String = &names[name_index];
            assert(names.deep_view()[name_index as int] == name@);
            if is_valid_name(name) {
                let mask: u16 = letter_mask(name, letter);
                if mask != 0 {
                    let info = CandidateLetterInfo {
                        name_index,
                        len: name_bytes(name).len(),
                        mask,
                    };
                    let ghost before = candidate_infos@;
                    candidate_infos.push(info);
                    proof {
                        assert(candidate_infos@[before.len() as int] == info);
                        assert forall|c: int|
                            0 <= c < name_index + 1 && valid_name(#[trigger] names.deep_view()[c])
                                && occurrence_mask(names.deep_view()[c], letter as int)
                                != 0 implies exists|j: int|
                            0 <= j < candidate_infos@.len() && (
                            #[trigger] candidate_infos@[j]).name_index == c by {
                            if c < name_index {
                                let j = choose|j: int|
                                    0 <= j < before.len() && (#[trigger] before[j]).name_index == c;
                                assert(candidate_infos@[j] == before[j]);
                            } else {
                                assert(candidate_infos@[before.len() as int].name_index == c);
                            }
                        }
                    }
                }
            }
            name_index += 1;
        }
        letter_lookup.push(candidate_infos);
        letter += 1;
    }
    letter_lookup
}

} // verus!
