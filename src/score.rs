//! Points: a card with `n` shared numbers is worth `2^(n-1)`, or nothing
//! when it shares none.
use vstd::prelude::*;
use vstd::arithmetic::power2::{pow2, lemma2_to64, lemma_pow2_strictly_increases, lemma_pow2_unfold};
use vstd::bits::lemma_u32_shl_is_mul;
use crate::card::ScratchCardGame;

verus! {

/// The points for `n` shared numbers.
pub open spec fn score(n: nat) -> nat {
    if n == 0 {
        0
    } else {
        pow2((n - 1) as nat)
    }
}

/// The points of all cards together.
pub open spec fn total_score(cards: Seq<ScratchCardGame>) -> nat
    decreases cards.len(),
{
    if cards.len() == 0 {
        0
    } else {
        total_score(cards.drop_last()) + score(cards.last().spec_match_count())
    }
}

/// No points for no match, one for the first, and each further match
/// doubles them.
pub proof fn lemma_score_doubles(n: nat)
    ensures
        score(0) == 0,
        score(1) == 1,
        n >= 2 ==> score(n) == 2 * score((n - 1) as nat),
{
    lemma2_to64();
    if n >= 2 {
        lemma_pow2_unfold((n - 1) as nat);
    }
}

/// The points for a card whose shared numbers are `input`.
pub fn establish_score_based_on_winning_selection(input: &Vec<String>) -> (r: i32)
    requires
        input.len() <= 31,
    ensures
        r == score(input.len() as nat),
{
    let n = input.len();
    if n == 0 {
        0
    } else {
        let shift = (n - 1) as u32;
        proof {
            lemma2_to64();
            if shift < 30 {
                lemma_pow2_strictly_increases(shift as nat, 30);
            }
            lemma_u32_shl_is_mul(1, shift);
        }
        (1u32 << shift) as i32
    }
}

proof fn lemma_total_grows(cards: Seq<ScratchCardGame>, i: int, j: int)
    requires
        0 <= i <= j <= cards.len(),
    ensures
        total_score(cards.take(i)) <= total_score(cards.take(j)),
    decreases j - i,
{
    if i < j {
        lemma_total_grows(cards, i, j - 1);
        assert(cards.take(j).drop_last() == cards.take(j - 1));
    }
}

/// The sum of the points of all cards, or `None` when it does not fit in
/// an `i32`.
pub fn total_winning_score_of_multiple_scratch_cards(input: &Vec<ScratchCardGame>) -> (r: Option<i32>)
    requires
        forall|k: int| 0 <= k < input.len() ==> (#[trigger] input@[k]).wf(),
    ensures
        r == if total_score(input@) <= i32::MAX {
            Some(total_score(input@) as i32)
        } else {
            None::<i32>
        },
{
    let mut total: i32 = 0;
    let mut i: usize = 0;
    while i < input.len()
        invariant
            i <= input.len(),
            forall|k: int| 0 <= k < input.len() ==> (#[trigger] input@[k]).wf(),
            total == total_score(input@.take(i as int)),
        decreases input.len() - i,
    {
        assert(input@.take(i + 1).drop_last() == input@.take(i as int));
        let shared = input[i].establish_winning_player_selection();
        if shared.len() > 31 {
            proof {
                lemma2_to64();
                if shared.len() > 32 {
                    lemma_pow2_strictly_increases(31, (shared.len() - 1) as nat);
                }
                lemma_total_grows(input@, i + 1, input.len() as int);
                assert(input@.take(input.len() as int) == input@);
            }
            return None;
        }
        let points = establish_score_based_on_winning_selection(&shared);
        match total.checked_add(points) {
            Some(t) => {
                total = t;
            },
            None => {
                proof {
                    lemma_total_grows(input@, i + 1, input.len() as int);
                    assert(input@.take(input.len() as int) == input@);
                }
                return None;
            },
        }
        i = i + 1;
    }
    assert(input@.take(input.len() as int) == input@);
    Some(total)
}

} // verus!
