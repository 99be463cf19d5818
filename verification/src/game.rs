//! The game driver: a candidate set that each hint narrows until one code
//! is left.

use crate::code_space::{code_count, enumerates};
use crate::def::{codes_view, Code, CodeSet, ConfigError, Context, GameError, Hint, Policy};
use crate::hint_laws::{lemma_hint_bounded, lemma_hint_of_code_against_itself};
use crate::hint_map::{candidates_map_remove, CandidatesMap};
use crate::partition_laws::lemma_bucket_count;
use crate::policy::{
    lemma_bucket_member, lemma_minmax_is_least, lemma_worst_case, minmax_index_upto, select_guess,
    spec_minmax, spec_select, worst_case,
};
use crate::utils::{
    all_shaped, bucket, calc_hint_based_candidates_map, clone_codes, code_space_size, earns,
    get_all_codes, hits_upto, lemma_bucket_push, lemma_hits_upto_bound, spec_hint,
};
use vstd::prelude::*;

verus! {

/// Every candidate is a code of the universe.
pub open spec fn within(candidates: Seq<Seq<u8>>, universe: Seq<Seq<u8>>) -> bool {
    forall|i: int| 0 <= i < candidates.len() ==> universe.contains(#[trigger] candidates[i])
}

/// A candidate set that a policy can work on: it is not empty, holds no
/// code twice, holds codes of the right shape only, and, for the minmax
/// policy, only codes of the universe.
pub open spec fn searchable(
    candidates: Seq<Seq<u8>>,
    universe: Seq<Seq<u8>>,
    context: &Context,
) -> bool {
    &&& candidates.len() >= 1
    &&& candidates.no_duplicates()
    &&& all_shaped(candidates, context)
    &&& all_shaped(universe, context)
    &&& context.policy == Policy::Minmax ==> within(candidates, universe)
}

proof fn lemma_all_hits_means_equal(code: Seq<u8>, guess: Seq<u8>, n: nat)
    requires
        hits_upto(code, guess, n) == n,
    ensures
        forall|i: int| 0 <= i < n ==> code[i] == guess[i],
    decreases n,
{
    if n > 0 {
        lemma_hits_upto_bound(code, guess, (n - 1) as nat);
        lemma_all_hits_means_equal(code, guess, (n - 1) as nat);
    }
}

/// A part that some candidate does not fall into is smaller than the
/// candidate set.
pub proof fn lemma_bucket_shrinks(
    candidates: Seq<Seq<u8>>,
    guess: Seq<u8>,
    color_num: u8,
    hint: Hint,
    i: int,
)
    requires
        0 <= i < candidates.len(),
        spec_hint(candidates[i], guess, color_num) != hint,
    ensures
        bucket(candidates, guess, color_num, hint).len() < candidates.len(),
    decreases candidates.len(),
{
    let rest = candidates.drop_last();
    let last = candidates.last();
    assert(candidates =~= rest.push(last));
    lemma_bucket_push(rest, last, guess, color_num, hint);
    if i < candidates.len() - 1 {
        lemma_bucket_shrinks(rest, guess, color_num, hint, i);
    }
}

/// Only the guess itself earns a hit on every pin.
pub proof fn lemma_all_hits_is_guess(code: Seq<u8>, guess: Seq<u8>, context: &Context)
    requires
        context.shaped(code),
        context.shaped(guess),
        spec_hint(code, guess, context.color_num).0 == context.pin_num,
    ensures
        code == guess,
{
    lemma_hint_bounded(code, guess, context.color_num, context.pin_num);
    lemma_all_hits_means_equal(code, guess, code.len());
    assert(code =~= guess);
}

/// A guess taken from at least two distinct candidates leaves fewer
/// candidates, whatever the hint.
pub proof fn lemma_candidate_guess_narrows(
    candidates: Seq<Seq<u8>>,
    k: int,
    context: &Context,
    hint: Hint,
)
    requires
        candidates.len() >= 2,
        candidates.no_duplicates(),
        all_shaped(candidates, context),
        0 <= k < candidates.len(),
    ensures
        bucket(candidates, candidates[k], context.color_num, hint).len() < candidates.len(),
{
    let guess = candidates[k];
    lemma_hint_of_code_against_itself(guess, context.color_num, context.pin_num);
    if hint == spec_hint(guess, guess, context.color_num) {
        let j = if k == 0 {
            1int
        } else {
            0int
        };
        assert(candidates[j] != guess);
        if spec_hint(candidates[j], guess, context.color_num) == hint {
            lemma_all_hits_is_guess(candidates[j], guess, context);
        }
        lemma_bucket_shrinks(candidates, guess, context.color_num, hint, j);
    } else {
        lemma_bucket_shrinks(candidates, guess, context.color_num, hint, k);
    }
}

/// The guess of the policy leaves fewer candidates than there were,
/// whatever the hint, as long as at least two are left.
pub proof fn lemma_guess_narrows(
    candidates: Seq<Seq<u8>>,
    universe: Seq<Seq<u8>>,
    context: &Context,
    hint: Hint,
)
    requires
        searchable(candidates, universe, context),
        candidates.len() >= 2,
    ensures
        bucket(
            candidates,
            spec_select(candidates, universe, context.color_num, context.policy),
            context.color_num,
            hint,
        ).len() < candidates.len(),
{
    match context.policy {
        Policy::Firstpick => {
            lemma_candidate_guess_narrows(candidates, 0, context, hint);
        },
        Policy::Minmax => {
            let first = candidates[0];
            assert(universe.contains(first));
            let j = choose|j: int| 0 <= j < universe.len() && universe[j] == first;
            lemma_minmax_is_least(candidates, universe, context.color_num, universe.len());
            let guess = spec_minmax(candidates, universe, context.color_num);
            assert(worst_case(candidates, guess, context.color_num) <= worst_case(
                candidates,
                universe[j],
                context.color_num,
            ));
            lemma_worst_case(candidates, first, context.color_num);
            let top = choose|top: Hint| #[trigger]
                bucket(candidates, first, context.color_num, top).len() == worst_case(
                    candidates,
                    first,
                    context.color_num,
                );
            lemma_candidate_guess_narrows(candidates, 0, context, top);
            lemma_worst_case(candidates, guess, context.color_num);
            assert(bucket(candidates, guess, context.color_num, hint).len() <= worst_case(
                candidates,
                guess,
                context.color_num,
            ));
        },
    }
}

/// A part of a searchable candidate set is searchable as soon as it is
/// not empty, and holds the secret when the hint is the secret's.
pub proof fn lemma_bucket_searchable(
    candidates: Seq<Seq<u8>>,
    universe: Seq<Seq<u8>>,
    context: &Context,
    guess: Seq<u8>,
    hint: Hint,
)
    requires
        searchable(candidates, universe, context),
        bucket(candidates, guess, context.color_num, hint).len() >= 1,
    ensures
        searchable(bucket(candidates, guess, context.color_num, hint), universe, context),
        forall|secret: Seq<u8>|
            candidates.contains(secret) && spec_hint(secret, guess, context.color_num) == hint
                ==> #[trigger] bucket(candidates, guess, context.color_num, hint).contains(secret),
{
    let part = bucket(candidates, guess, context.color_num, hint);
    assert forall|k: int| 0 <= k < part.len() implies context.shaped(#[trigger] part[k]) && (
    context.policy == Policy::Minmax ==> universe.contains(part[k])) by {
        let i = lemma_bucket_member(candidates, guess, context.color_num, hint, k);
    }
    assert(part.no_duplicates()) by {
        candidates.lemma_multiset_has_no_duplicates();
        assert forall|x: Seq<u8>| part.to_multiset().contains(x) implies part.to_multiset().count(
            x,
        ) == 1 by {
            lemma_bucket_count(candidates, guess, context.color_num, hint, x);
        }
        part.lemma_multiset_has_no_duplicates_conv();
    }
    assert forall|secret: Seq<u8>|
        candidates.contains(secret) && spec_hint(secret, guess, context.color_num)
            == hint implies #[trigger] part.contains(secret) by {
        let i = choose|i: int| 0 <= i < candidates.len() && candidates[i] == secret;
        candidates.lemma_filter_contains(earns(guess, context.color_num, hint), i);
    }
}

/// The candidates left when the policy plays against `secret` until at
/// most one candidate is left, the hints being those that `secret` gives.
pub open spec fn spec_play(
    candidates: Seq<Seq<u8>>,
    universe: Seq<Seq<u8>>,
    secret: Seq<u8>,
    color_num: u8,
    policy: Policy,
) -> Seq<Seq<u8>>
    decreases candidates.len(),
{
    if candidates.len() <= 1 {
        candidates
    } else {
        let guess = spec_select(candidates, universe, color_num, policy);
        let next = bucket(candidates, guess, color_num, spec_hint(secret, guess, color_num));
        if next.len() < candidates.len() {
            spec_play(next, universe, secret, color_num, policy)
        } else {
            candidates
        }
    }
}

/// Played to the end against any secret among the candidates, the game
/// stops with that secret as the only candidate left.
pub proof fn lemma_game_finds_secret(
    candidates: Seq<Seq<u8>>,
    universe: Seq<Seq<u8>>,
    secret: Seq<u8>,
    context: &Context,
)
    requires
        searchable(candidates, universe, context),
        candidates.contains(secret),
    ensures
        spec_play(candidates, universe, secret, context.color_num, context.policy) == seq![secret],
    decreases candidates.len(),
{
    if candidates.len() == 1 {
        let i = choose|i: int| 0 <= i < candidates.len() && candidates[i] == secret;
        assert(candidates =~= seq![secret]);
    } else {
        let guess = spec_select(candidates, universe, context.color_num, context.policy);
        let hint = spec_hint(secret, guess, context.color_num);
        let next = bucket(candidates, guess, context.color_num, hint);
        lemma_guess_narrows(candidates, universe, context, hint);
        let i = choose|i: int| 0 <= i < candidates.len() && candidates[i] == secret;
        candidates.lemma_filter_contains(earns(guess, context.color_num, hint), i);
        assert(next.contains(secret));
        lemma_bucket_searchable(candidates, universe, context, guess, hint);
        lemma_game_finds_secret(next, universe, secret, context);
    }
}

/// Whether hits and blows together stay within the number of pins.
pub fn is_valid_hint(hint: Hint, context: &Context) -> (valid: bool)
    ensures
        valid == (hint.0 + hint.1 <= context.pin_num),
{
    hint.0 <= context.pin_num && hint.1 <= context.pin_num - hint.0
}

/// Narrows the candidates to those that earn `hint` against `guess`.  A
/// hint that exceeds the pins, or that no candidate earns, is refused.
pub fn narrow_candidates(
    candidates: CodeSet,
    guess: &Code,
    hint: Hint,
    context: &Context,
) -> (narrowed: Result<CodeSet, GameError>)
    requires
        all_shaped(codes_view(candidates@), context),
        context.shaped(guess@),
    ensures
        (narrowed is Err && narrowed.unwrap_err() == GameError::InvalidHint) <==> hint.0 + hint.1
            > context.pin_num,
        (narrowed is Err && narrowed.unwrap_err() == GameError::ImpossibleHint) <==> hint.0
            + hint.1 <= context.pin_num && bucket(
            codes_view(candidates@),
            guess@,
            context.color_num,
            hint,
        ).len() == 0,
        narrowed is Ok ==> codes_view(narrowed.unwrap()@) == bucket(
            codes_view(candidates@),
            guess@,
            context.color_num,
            hint,
        ),
{
    if !is_valid_hint(hint, context) {
        return Err(GameError::InvalidHint);
    }
    let mut map: CandidatesMap = calc_hint_based_candidates_map(candidates, guess, context);
    match candidates_map_remove(&mut map, hint) {
        Some(part) => Ok(part),
        None => Err(GameError::ImpossibleHint),
    }
}

/// Where a game stands.
#[derive(Debug, Clone, Copy, PartialEq, Eq, Structural)]
pub enum GameState {
    /// More than one candidate is left.
    Searching,
    /// Exactly one candidate is left: the secret.
    Solved,
}

/// A game in progress: the configuration, every legal code, and the codes
/// that agree with all hints so far.
#[derive(Debug)]
pub struct Game {
    pub context: Context,
    pub all_codes: CodeSet,
    pub candidates: CodeSet,
}

impl Game {
    /// The invariant of a game: `all_codes` enumerates the code space and
    /// the candidates are searchable codes of it.
    pub open spec fn wf(&self) -> bool {
        &&& enumerates(
            codes_view(self.all_codes@),
            self.context.color_num,
            self.context.pin_num,
            self.context.duplicate,
        )
        &&& searchable(codes_view(self.candidates@), codes_view(self.all_codes@), &self.context)
        &&& within(codes_view(self.candidates@), codes_view(self.all_codes@))
    }

    /// The guess that the policy plays next.
    pub open spec fn spec_guess(&self) -> Seq<u8> {
        spec_select(
            codes_view(self.candidates@),
            codes_view(self.all_codes@),
            self.context.color_num,
            self.context.policy,
        )
    }

    /// Starts a game with every legal code as a candidate.  A configuration
    /// without codes, or with more codes than fit the machine's word, is
    /// refused.
    pub fn new(context: Context) -> (game: Result<Game, ConfigError>)
        ensures
            game is Ok <==> context.playable() && code_count(
                context.color_num as nat,
                context.pin_num as nat,
                context.duplicate,
            ) <= usize::MAX,
            game is Ok ==> game.unwrap().wf() && game.unwrap().context == context && codes_view(
                game.unwrap().candidates@,
            ) == codes_view(game.unwrap().all_codes@),
            game matches Err(error) ==> error == (if context.playable() {
                ConfigError::TooManyCodes
            } else {
                context.validate_spec().unwrap_err()
            }),
    {
        match context.validate() {
            Err(error) => {
                return Err(error);
            },
            Ok(_) => {},
        }
        if code_space_size(&context).is_none() {
            return Err(ConfigError::TooManyCodes);
        }
        let all_codes: CodeSet = get_all_codes(&context);
        let candidates: CodeSet = clone_codes(&all_codes);
        proof {
            let all = codes_view(all_codes@);
            assert forall|i: int| 0 <= i < all.len() implies context.shaped(#[trigger] all[i])
                && all.contains(all[i]) by {
                assert(context.legal(all[i]));
            }
        }
        Ok(Game { context, all_codes, candidates })
    }

    /// Whether the secret is known yet.
    pub fn state(&self) -> (state: GameState)
        ensures
            state == GameState::Solved <==> self.candidates.len() == 1,
    {
        if self.candidates.len() == 1 {
            GameState::Solved
        } else {
            GameState::Searching
        }
    }

    /// The guess to issue next, chosen by the policy of the configuration.
    pub fn guess(&self) -> (guess: Code)
        requires
            self.wf(),
        ensures
            guess@ == self.spec_guess(),
            self.context.shaped(guess@),
    {
        proof {
            let candidates = codes_view(self.candidates@);
            let universe = codes_view(self.all_codes@);
            assert(universe.contains(candidates[0]));
            if self.context.policy == Policy::Minmax {
                lemma_minmax_is_least(
                    candidates,
                    universe,
                    self.context.color_num,
                    universe.len(),
                );
                assert(self.context.shaped(
                    universe[minmax_index_upto(
                        candidates,
                        universe,
                        self.context.color_num,
                        universe.len(),
                    )],
                ));
            }
        }
        select_guess(&self.candidates, &self.all_codes, &self.context)
    }

    /// Takes in the hint that `guess` earned: the candidates that earn
    /// another hint leave.  A hint that exceeds the pins, or that no
    /// candidate earns, ends the game with an error.
    pub fn answer(self, guess: &Code, hint: Hint) -> (next: Result<Game, GameError>)
        requires
            self.wf(),
            self.context.shaped(guess@),
        ensures
            (next is Err && next.unwrap_err() == GameError::InvalidHint) <==> hint.0 + hint.1
                > self.context.pin_num,
            (next is Err && next.unwrap_err() == GameError::ImpossibleHint) <==> hint.0 + hint.1
                <= self.context.pin_num && bucket(
                codes_view(self.candidates@),
                guess@,
                self.context.color_num,
                hint,
            ).len() == 0,
            next is Ok ==> next.unwrap().wf() && next.unwrap().context == self.context
                && next.unwrap().all_codes == self.all_codes && codes_view(
                next.unwrap().candidates@,
            ) == bucket(codes_view(self.candidates@), guess@, self.context.color_num, hint),
            next is Ok && self.candidates.len() >= 2 && guess@ == self.spec_guess()
                ==> next.unwrap().candidates.len() < self.candidates.len(),
    {
        let ghost before = codes_view(self.candidates@);
        let ghost universe = codes_view(self.all_codes@);
        let context: Context = self.context;
        let all_codes: CodeSet = self.all_codes;
        match narrow_candidates(self.candidates, guess, hint, &context) {
            Err(error) => Err(error),
            Ok(candidates) => {
                proof {
                    let part = bucket(before, guess@, context.color_num, hint);
                    assert(searchable(before, universe, &context));
                    lemma_bucket_searchable(before, universe, &context, guess@, hint);
                    assert forall|k: int| 0 <= k < part.len() implies universe.contains(
                        #[trigger] part[k],
                    ) by {
                        let i = lemma_bucket_member(before, guess@, context.color_num, hint, k);
                    }
                    if before.len() >= 2 && guess@ == spec_select(
                        before,
                        universe,
                        context.color_num,
                        context.policy,
                    ) {
                        lemma_guess_narrows(before, universe, &context, hint);
                    }
                }
                Ok(Game { context, all_codes, candidates })
            },
        }
    }

    /// The secret, once a single candidate is left.
    pub fn secret(&self) -> (secret: Option<Code>)
        ensures
            secret is Some <==> self.candidates.len() == 1,
            secret is Some ==> secret.unwrap()@ == self.candidates[0]@,
    {
        if self.candidates.len() == 1 {
            Some(self.candidates[0].clone())
        } else {
            None
        }
    }
}

} // verus!
