//! The text of an output file: one line for each match, the candidate's
//! position and the score to two decimal places.

use vstd::prelude::*;
use crate::scorecard::Score;

verus! {

/// One scored pair that is reported: the position of the candidate in the
/// input and the score of the pair.
#[derive(Clone, Copy, Debug, PartialEq, Eq, Structural)]
pub struct Match {
    pub candidate: usize,
    pub score: Score,
}

/// The character of a decimal digit.
pub open spec fn digit(d: int) -> u8 {
    (0x30 + d) as u8
}

/// The decimal digits of `n`, most significant first.
pub open spec fn decimal(n: nat) -> Seq<u8>
    decreases n,
{
    if n < 10 {
        seq![digit(n as int)]
    } else {
        decimal(n / 10).push(digit((n % 10) as int))
    }
}

/// A number given in hundredths, with two decimal places.
pub open spec fn two_decimals(hundredths: nat) -> Seq<u8> {
    decimal(hundredths / 100) + seq![
        0x2eu8,
        digit(((hundredths / 10) % 10) as int),
        digit((hundredths % 10) as int),
    ]
}

/// The line of one match: the candidate, a comma, the score, a line feed.
pub open spec fn line(m: Match) -> Seq<u8> {
    decimal(m.candidate as nat) + seq![0x2cu8] + two_decimals(
        m.score.rounded_hundredths() as nat,
    ) + seq![0x0au8]
}

/// The lines of `matches`, one after the other.
pub open spec fn render(matches: Seq<Match>) -> Seq<u8>
    decreases matches.len(),
{
    if matches.len() == 0 {
        Seq::empty()
    } else {
        render(matches.drop_last()) + line(matches.last())
    }
}

/// Appends the decimal digits of `n`.
pub fn push_decimal(out: &mut Vec<u8>, n: u64)
    ensures
        final(out)@ == old(out)@ + decimal(n as nat),
    decreases n,
{
    if n >= 10 {
        push_decimal(out, n / 10);
    }
    out.push(0x30u8 + (n % 10) as u8);
}

/// Appends the line of one match.
pub fn push_line(out: &mut Vec<u8>, m: &Match)
    requires
        m.score.denominator > 0,
    ensures
        final(out)@ == old(out)@ + line(*m),
{
    let hundredths: u64 = m.score.hundredths();
    push_decimal(out, m.candidate as u64);
    out.push(0x2cu8);
    push_decimal(out, hundredths / 100);
    out.push(0x2eu8);
    out.push(0x30u8 + ((hundredths / 10) % 10) as u8);
    out.push(0x30u8 + (hundredths % 10) as u8);
    out.push(0x0au8);
}

/// The text of an output file that holds `matches`.
pub fn render_matches(matches: &Vec<Match>) -> (text: Vec<u8>)
    requires
        forall|i: int| 0 <= i < matches@.len() ==> (#[trigger] matches@[i]).score.denominator > 0,
    ensures
        text@ == render(matches@),
{
    let mut text: Vec<u8> = Vec::new();
    let mut i: usize = 0;
    while i < matches.len()
        invariant
            i <= matches@.len(),
            forall|k: int|
                0 <= k < matches@.len() ==> (#[trigger] matches@[k]).score.denominator > 0,
            text@ == render(matches@.subrange(0, i as int)),
        decreases matches@.len() - i,
    {
        push_line(&mut text, &matches[i]);
        proof {
            let next = matches@.subrange(0, i + 1);
            assert(next.drop_last() =~= matches@.subrange(0, i as int));
            assert(next.last() == matches@[i as int]);
        }
        i += 1;
    }
    assert(matches@.subrange(0, i as int) =~= matches@);
    text
}

} // verus!
