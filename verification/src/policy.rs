//! Guess policies: first pick, and the guess with the smallest worst case.

use crate::def::{codes_view, Code, CodeSet, Context, Hint, Policy};
use crate::hint_map::{candidate_nums, num_map_get, num_map_keys, CandidateNumMap};
use crate::utils::{
    all_shaped, bucket, calc_hint_based_candidate_num_map, earns, spec_candidate_nums, spec_hint,
};
use vstd::prelude::*;

verus! {

pub open spec fn max_nat(x: nat, y: nat) -> nat {
    if x >= y {
        x
    } else {
        y
    }
}

/// Size of the largest part that the first `n` candidates fall into when
/// `guess` is played.
pub open spec fn worst_case_upto(
    candidates: Seq<Seq<u8>>,
    guess: Seq<u8>,
    color_num: u8,
    n: nat,
) -> nat
    decreases n,
{
    if n == 0 {
        0
    } else {
        max_nat(
            worst_case_upto(candidates, guess, color_num, (n - 1) as nat),
            bucket(
                candidates,
                guess,
                color_num,
                spec_hint(candidates[n - 1], guess, color_num),
            ).len(),
        )
    }
}

/// The most candidates that can remain after `guess` is played: the size
/// of the largest part of the partition by hint.
pub open spec fn worst_case(candidates: Seq<Seq<u8>>, guess: Seq<u8>, color_num: u8) -> nat {
    worst_case_upto(candidates, guess, color_num, candidates.len())
}

/// Index of the first among the first `n` guesses of `universe` whose
/// worst case is least.
pub open spec fn minmax_index_upto(
    candidates: Seq<Seq<u8>>,
    universe: Seq<Seq<u8>>,
    color_num: u8,
    n: nat,
) -> int
    decreases n,
{
    if n <= 1 {
        0
    } else {
        let best = minmax_index_upto(candidates, universe, color_num, (n - 1) as nat);
        if worst_case(candidates, universe[n - 1], color_num) < worst_case(
            candidates,
            universe[best],
            color_num,
        ) {
            n - 1
        } else {
            best
        }
    }
}

/// The guess that the minmax policy plays.
pub open spec fn spec_minmax(
    candidates: Seq<Seq<u8>>,
    universe: Seq<Seq<u8>>,
    color_num: u8,
) -> Seq<u8> {
    universe[minmax_index_upto(candidates, universe, color_num, universe.len())]
}

/// The guess that `policy` plays.
pub open spec fn spec_select(
    candidates: Seq<Seq<u8>>,
    universe: Seq<Seq<u8>>,
    color_num: u8,
    policy: Policy,
) -> Seq<u8> {
    match policy {
        Policy::Firstpick => candidates[0],
        Policy::Minmax => spec_minmax(candidates, universe, color_num),
    }
}

proof fn lemma_worst_case_upto_covers(
    candidates: Seq<Seq<u8>>,
    guess: Seq<u8>,
    color_num: u8,
    n: nat,
    i: int,
)
    requires
        0 <= i < n <= candidates.len(),
    ensures
        bucket(candidates, guess, color_num, spec_hint(candidates[i], guess, color_num)).len()
            <= worst_case_upto(candidates, guess, color_num, n),
    decreases n,
{
    if i < n - 1 {
        lemma_worst_case_upto_covers(candidates, guess, color_num, (n - 1) as nat, i);
    }
}

proof fn lemma_worst_case_upto_attained(
    candidates: Seq<Seq<u8>>,
    guess: Seq<u8>,
    color_num: u8,
    n: nat,
) -> (i: int)
    requires
        0 < n <= candidates.len(),
    ensures
        0 <= i < n,
        bucket(candidates, guess, color_num, spec_hint(candidates[i], guess, color_num)).len()
            == worst_case_upto(candidates, guess, color_num, n),
    decreases n,
{
    let last = bucket(
        candidates,
        guess,
        color_num,
        spec_hint(candidates[n - 1], guess, color_num),
    ).len();
    if n == 1 {
        candidates.lemma_filter_len(
            earns(guess, color_num, spec_hint(candidates[0], guess, color_num)),
        );
        0
    } else if worst_case_upto(candidates, guess, color_num, (n - 1) as nat) >= last {
        lemma_worst_case_upto_attained(candidates, guess, color_num, (n - 1) as nat)
    } else {
        n - 1
    }
}

/// A member of a part is a candidate that earns the part's hint.
pub proof fn lemma_bucket_member(
    candidates: Seq<Seq<u8>>,
    guess: Seq<u8>,
    color_num: u8,
    hint: Hint,
    k: int,
) -> (i: int)
    requires
        0 <= k < bucket(candidates, guess, color_num, hint).len(),
    ensures
        0 <= i < candidates.len(),
        candidates[i] == bucket(candidates, guess, color_num, hint)[k],
        spec_hint(candidates[i], guess, color_num) == hint,
{
    let part = bucket(candidates, guess, color_num, hint);
    candidates.lemma_filter_pred(earns(guess, color_num, hint), k);
    candidates.lemma_filter_contains_rev(earns(guess, color_num, hint), part[k]);
    assert(candidates.contains(part[k]));
    choose|i: int| 0 <= i < candidates.len() && candidates[i] == part[k]
}

/// No part is larger than the worst case, which is the size of a part
/// where there is any candidate.
pub proof fn lemma_worst_case(candidates: Seq<Seq<u8>>, guess: Seq<u8>, color_num: u8)
    ensures
        forall|hint: Hint| #[trigger]
            bucket(candidates, guess, color_num, hint).len() <= worst_case(
                candidates,
                guess,
                color_num,
            ),
        candidates.len() > 0 ==> exists|hint: Hint| #[trigger]
            bucket(candidates, guess, color_num, hint).len() == worst_case(
                candidates,
                guess,
                color_num,
            ),
        worst_case(candidates, guess, color_num) <= candidates.len(),
{
    assert forall|hint: Hint| #[trigger]
        bucket(candidates, guess, color_num, hint).len() <= worst_case(
            candidates,
            guess,
            color_num,
        ) by {
        if bucket(candidates, guess, color_num, hint).len() > 0 {
            let i = lemma_bucket_member(candidates, guess, color_num, hint, 0);
            lemma_worst_case_upto_covers(candidates, guess, color_num, candidates.len(), i);
        }
    }
    if candidates.len() > 0 {
        let i = lemma_worst_case_upto_attained(candidates, guess, color_num, candidates.len());
        let hint = spec_hint(candidates[i], guess, color_num);
        assert(bucket(candidates, guess, color_num, hint).len() == worst_case(
            candidates,
            guess,
            color_num,
        ));
        candidates.lemma_filter_len(earns(guess, color_num, hint));
    }
}

/// The minmax policy never picks a guess with a larger worst case than
/// another guess of the universe has, and among the guesses with the least
/// worst case it picks the first.
pub proof fn lemma_minmax_never_worse(
    candidates: Seq<Seq<u8>>,
    universe: Seq<Seq<u8>>,
    color_num: u8,
)
    requires
        universe.len() > 0,
    ensures
        exists|k: int|
            0 <= k < universe.len() && spec_minmax(candidates, universe, color_num)
                == #[trigger] universe[k],
        forall|j: int|
            0 <= j < universe.len() ==> worst_case(
                candidates,
                spec_minmax(candidates, universe, color_num),
                color_num,
            ) <= worst_case(candidates, #[trigger] universe[j], color_num),
        forall|j: int|
            0 <= j < minmax_index_upto(candidates, universe, color_num, universe.len())
                ==> worst_case(
                candidates,
                spec_minmax(candidates, universe, color_num),
                color_num,
            ) < worst_case(candidates, #[trigger] universe[j], color_num),
{
    lemma_minmax_is_least(candidates, universe, color_num, universe.len());
    let k = minmax_index_upto(candidates, universe, color_num, universe.len());
    assert(spec_minmax(candidates, universe, color_num) == universe[k]);
}

/// Among the first `n` guesses of the universe, the one that
/// `minmax_index_upto` names has the least worst case and is the first
/// that has it.
pub proof fn lemma_minmax_is_least(
    candidates: Seq<Seq<u8>>,
    universe: Seq<Seq<u8>>,
    color_num: u8,
    n: nat,
)
    requires
        0 < n <= universe.len(),
    ensures
        0 <= minmax_index_upto(candidates, universe, color_num, n) < n,
        forall|j: int|
            0 <= j < n ==> worst_case(
                candidates,
                universe[minmax_index_upto(candidates, universe, color_num, n)],
                color_num,
            ) <= worst_case(candidates, #[trigger] universe[j], color_num),
        forall|j: int|
            0 <= j < minmax_index_upto(candidates, universe, color_num, n) ==> worst_case(
                candidates,
                universe[minmax_index_upto(candidates, universe, color_num, n)],
                color_num,
            ) < worst_case(candidates, #[trigger] universe[j], color_num),
    decreases n,
{
    if n > 1 {
        lemma_minmax_is_least(candidates, universe, color_num, (n - 1) as nat);
    }
}

/// Picks the first code of `guess_set`.
pub fn first_pick(guess_set: &CodeSet) -> (guess: Code)
    requires
        guess_set.len() > 0,
    ensures
        guess@ == guess_set[0]@,
{
    guess_set[0].clone()
}

/// Computes the most candidates that can remain after `guess` is played.
pub fn worst_case_num(candidates: &CodeSet, guess: &Code, context: &Context) -> (worst: usize)
    requires
        all_shaped(codes_view(candidates@), context),
        context.shaped(guess@),
    ensures
        worst == worst_case(codes_view(candidates@), guess@, context.color_num),
{
    let map: CandidateNumMap = calc_hint_based_candidate_num_map(candidates, guess, context);
    let hints: Vec<Hint> = num_map_keys(&map);
    let ghost all = codes_view(candidates@);
    let ghost nums = spec_candidate_nums(all, guess@, context.color_num);
    let mut worst: usize = 0;
    let mut k: usize = 0;
    while k < hints.len()
        invariant
            k <= hints.len(),
            candidate_nums(map) == nums,
            nums == spec_candidate_nums(all, guess@, context.color_num),
            forall|hint: Hint| hints@.contains(hint) <==> nums.contains_key(hint),
            forall|j: int| 0 <= j < k ==> nums[#[trigger] hints[j]] <= worst,
            worst == 0 || exists|j: int| 0 <= j < k && nums[#[trigger] hints[j]] == worst,
        decreases hints.len() - k,
    {
        assert(hints@.contains(hints[k as int]));
        match num_map_get(&map, hints[k]) {
            Some(num) => {
                if num > worst {
                    worst = num;
                }
            },
            None => {},
        }
        k = k + 1;
    }
    proof {
        lemma_worst_case(all, guess@, context.color_num);
        let target = worst_case(all, guess@, context.color_num);
        assert(all.len() == candidates.len());
        assert forall|hint: Hint| #[trigger]
            bucket(all, guess@, context.color_num, hint).len() <= all.len() by {
            all.lemma_filter_len(earns(guess@, context.color_num, hint));
        }
        assert forall|hint: Hint| nums.contains_key(hint) implies nums[hint] == bucket(
            all,
            guess@,
            context.color_num,
            hint,
        ).len() by {
            assert(bucket(all, guess@, context.color_num, hint).len() <= all.len());
        }
        if all.len() > 0 {
            let top = choose|hint: Hint| #[trigger]
                bucket(all, guess@, context.color_num, hint).len() == target;
            assert(target > 0) by {
                let first = spec_hint(all[0], guess@, context.color_num);
                all.lemma_filter_contains(earns(guess@, context.color_num, first), 0);
                assert(bucket(all, guess@, context.color_num, first).len() > 0);
            }
            assert(nums.contains_key(top));
            assert(hints@.contains(top));
            let j = choose|j: int| 0 <= j < hints.len() && hints[j] == top;
            assert(nums[hints[j]] <= worst);
            assert(target <= worst);
        }
        if worst != 0 {
            let j = choose|j: int| 0 <= j < k && nums[#[trigger] hints[j]] == worst;
            assert(hints@.contains(hints[j]));
            assert(nums.contains_key(hints[j]));
            assert(bucket(all, guess@, context.color_num, hints[j]).len() <= target);
            assert(worst <= target);
        }
    }
    worst
}

/// Picks the guess of `guess_set` after which the fewest candidates can
/// remain in the worst case; among several such, the first.
pub fn minmax(candidates: &CodeSet, guess_set: &CodeSet, context: &Context) -> (guess: Code)
    requires
        candidates.len() > 0,
        guess_set.len() > 0,
        all_shaped(codes_view(candidates@), context),
        all_shaped(codes_view(guess_set@), context),
    ensures
        guess@ == spec_minmax(codes_view(candidates@), codes_view(guess_set@), context.color_num),
        forall|j: int|
            0 <= j < guess_set.len() ==> worst_case(
                codes_view(candidates@),
                guess@,
                context.color_num,
            ) <= worst_case(
                codes_view(candidates@),
                #[trigger] codes_view(guess_set@)[j],
                context.color_num,
            ),
{
    let ghost all = codes_view(candidates@);
    let ghost universe = codes_view(guess_set@);
    let mut best: usize = 0;
    let mut min_max_candidate_num: usize = usize::MAX;
    let mut i: usize = 0;
    while i < guess_set.len()
        invariant
            i <= guess_set.len(),
            guess_set.len() > 0,
            all == codes_view(candidates@),
            universe == codes_view(guess_set@),
            all_shaped(all, context),
            all_shaped(universe, context),
            best == minmax_index_upto(all, universe, context.color_num, i as nat),
            best < guess_set.len(),
            i == 0 ==> min_max_candidate_num == usize::MAX,
            i > 0 ==> min_max_candidate_num == worst_case(
                all,
                universe[best as int],
                context.color_num,
            ),
        decreases guess_set.len() - i,
    {
        assert(context.shaped(universe[i as int]));
        let max_candidate_num: usize = worst_case_num(candidates, &guess_set[i], context);
        proof {
            if i > 0 {
                lemma_minmax_is_least(all, universe, context.color_num, i as nat);
            }
        }
        if max_candidate_num < min_max_candidate_num {
            best = i;
            min_max_candidate_num = max_candidate_num;
        }
        i = i + 1;
    }
    proof {
        lemma_minmax_is_least(all, universe, context.color_num, universe.len());
    }
    guess_set[best].clone()
}

/// Picks the next guess by the policy of the configuration.
pub fn select_guess(candidates: &CodeSet, all_codes: &CodeSet, context: &Context) -> (guess: Code)
    requires
        candidates.len() > 0,
        context.policy == Policy::Minmax ==> all_codes.len() > 0,
        all_shaped(codes_view(candidates@), context),
        all_shaped(codes_view(all_codes@), context),
    ensures
        guess@ == spec_select(
            codes_view(candidates@),
            codes_view(all_codes@),
            context.color_num,
            context.policy,
        ),
{
    match context.policy {
        Policy::Firstpick => first_pick(candidates),
        Policy::Minmax => minmax(candidates, all_codes, context),
    }
}

} // verus!
