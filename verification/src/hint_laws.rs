//! Laws of the hint calculation.

use crate::def::is_code;
use crate::utils::{
    blows_upto, hits_upto, lemma_hits_blows_bound, spec_blows, spec_hint, spec_hits, unmatched_upto,
};
use vstd::prelude::*;

verus! {

proof fn lemma_hits_self(code: Seq<u8>, n: nat)
    ensures
        hits_upto(code, code, n) == n,
    decreases n,
{
    if n > 0 {
        lemma_hits_self(code, (n - 1) as nat);
    }
}

proof fn lemma_unmatched_self(code: Seq<u8>, color: u8, n: nat)
    ensures
        unmatched_upto(code, code, color, n) == 0,
    decreases n,
{
    if n > 0 {
        lemma_unmatched_self(code, color, (n - 1) as nat);
    }
}

proof fn lemma_blows_self(code: Seq<u8>, colors: nat)
    ensures
        blows_upto(code, code, colors) == 0,
    decreases colors,
{
    if colors > 0 {
        lemma_blows_self(code, (colors - 1) as nat);
        lemma_unmatched_self(code, (colors - 1) as u8, code.len());
    }
}

proof fn lemma_hits_symmetric(code: Seq<u8>, guess: Seq<u8>, n: nat)
    ensures
        hits_upto(code, guess, n) == hits_upto(guess, code, n),
    decreases n,
{
    if n > 0 {
        lemma_hits_symmetric(code, guess, (n - 1) as nat);
    }
}

proof fn lemma_blows_symmetric(code: Seq<u8>, guess: Seq<u8>, colors: nat)
    requires
        code.len() == guess.len(),
    ensures
        blows_upto(code, guess, colors) == blows_upto(guess, code, colors),
    decreases colors,
{
    if colors > 0 {
        lemma_blows_symmetric(code, guess, (colors - 1) as nat);
    }
}

/// A code against itself earns a hit for every pin and no blow.
pub proof fn lemma_hint_of_code_against_itself(code: Seq<u8>, color_num: u8, pin_num: u8)
    requires
        is_code(code, color_num, pin_num, true),
    ensures
        spec_hint(code, code, color_num) == (pin_num, 0u8),
{
    lemma_hits_self(code, code.len());
    lemma_blows_self(code, color_num as nat);
}

/// Hits and blows together never exceed the number of pins, so neither is
/// cut short when the hint is held in bytes.
pub proof fn lemma_hint_bounded(code: Seq<u8>, guess: Seq<u8>, color_num: u8, pin_num: u8)
    requires
        is_code(code, color_num, pin_num, true),
        is_code(guess, color_num, pin_num, true),
    ensures
        spec_hits(code, guess) + spec_blows(code, guess, color_num) <= pin_num,
        spec_hint(code, guess, color_num).0 == spec_hits(code, guess),
        spec_hint(code, guess, color_num).1 == spec_blows(code, guess, color_num),
        spec_hint(code, guess, color_num).0 + spec_hint(code, guess, color_num).1 <= pin_num,
{
    lemma_hits_blows_bound(code, guess, color_num as nat);
}

/// The hint does not depend on which of the two codes is the guess.
pub proof fn lemma_hint_symmetric(code: Seq<u8>, guess: Seq<u8>, color_num: u8, pin_num: u8)
    requires
        is_code(code, color_num, pin_num, true),
        is_code(guess, color_num, pin_num, true),
    ensures
        spec_hint(code, guess, color_num) == spec_hint(guess, code, color_num),
{
    lemma_hits_symmetric(code, guess, code.len());
    lemma_blows_symmetric(code, guess, color_num as nat);
}

} // verus!
