//! Laws of the partition of a candidate set by hint.

use crate::def::Hint;
use crate::utils::{bucket, earns, lemma_bucket_push, spec_hint, spec_partition};
use vstd::prelude::*;

verus! {

/// A part holds a code as often as the candidates hold it where the code
/// earns the part's hint, and not at all where it earns another.
pub proof fn lemma_bucket_count(
    candidates: Seq<Seq<u8>>,
    guess: Seq<u8>,
    color_num: u8,
    hint: Hint,
    code: Seq<u8>,
)
    ensures
        bucket(candidates, guess, color_num, hint).to_multiset().count(code) == if spec_hint(
            code,
            guess,
            color_num,
        ) == hint {
            candidates.to_multiset().count(code)
        } else {
            0
        },
    decreases candidates.len(),
{
    broadcast use vstd::seq_lib::to_multiset_build;

    if candidates.len() == 0 {
        candidates.lemma_filter_len(earns(guess, color_num, hint));
        assert(bucket(candidates, guess, color_num, hint) =~= candidates);
        candidates.to_multiset_ensures();
        assert(!candidates.contains(code));
    } else {
        let rest = candidates.drop_last();
        let last = candidates.last();
        assert(candidates =~= rest.push(last));
        lemma_bucket_count(rest, guess, color_num, hint, code);
        lemma_bucket_push(rest, last, guess, color_num, hint);
    }
}

/// The partition by hint is proper.  Its keys are the hints that some
/// candidate earns; every member of a part earns the part's key; a part
/// keeps the order of the candidates; and each candidate lies in the part of
/// its own hint as often as in the candidate set, and in no other part.
pub proof fn lemma_partition_is_proper(candidates: Seq<Seq<u8>>, guess: Seq<u8>, color_num: u8)
    ensures
        forall|hint: Hint|
            spec_partition(candidates, guess, color_num).contains_key(hint) <==> exists|i: int|
                0 <= i < candidates.len() && spec_hint(#[trigger] candidates[i], guess, color_num)
                    == hint,
        forall|hint: Hint, k: int|
            0 <= k < bucket(candidates, guess, color_num, hint).len() ==> spec_hint(
                #[trigger] bucket(candidates, guess, color_num, hint)[k],
                guess,
                color_num,
            ) == hint,
        forall|hint: Hint|
            spec_partition(candidates, guess, color_num).contains_key(hint) ==> spec_partition(
                candidates,
                guess,
                color_num,
            )[hint] == bucket(candidates, guess, color_num, hint),
        forall|code: Seq<u8>| #[trigger]
            candidates.to_multiset().count(code) == bucket(
                candidates,
                guess,
                color_num,
                spec_hint(code, guess, color_num),
            ).to_multiset().count(code),
        forall|code: Seq<u8>, hint: Hint|
            hint != spec_hint(code, guess, color_num) ==> !(#[trigger] bucket(
                candidates,
                guess,
                color_num,
                hint,
            ).contains(code)),
{
    assert forall|hint: Hint|
        spec_partition(candidates, guess, color_num).contains_key(hint) <==> exists|i: int|
            0 <= i < candidates.len() && spec_hint(#[trigger] candidates[i], guess, color_num)
                == hint by {
        let part = bucket(candidates, guess, color_num, hint);
        if part.len() > 0 {
            candidates.lemma_filter_pred(earns(guess, color_num, hint), 0);
            candidates.lemma_filter_contains_rev(earns(guess, color_num, hint), part[0]);
            let i = choose|i: int| 0 <= i < candidates.len() && candidates[i] == part[0];
            assert(spec_hint(candidates[i], guess, color_num) == hint);
        }
        if exists|i: int|
            0 <= i < candidates.len() && spec_hint(#[trigger] candidates[i], guess, color_num)
                == hint {
            let i = choose|i: int|
                0 <= i < candidates.len() && spec_hint(#[trigger] candidates[i], guess, color_num)
                    == hint;
            candidates.lemma_filter_contains(earns(guess, color_num, hint), i);
        }
    }
    assert forall|hint: Hint, k: int|
        0 <= k < bucket(candidates, guess, color_num, hint).len() implies spec_hint(
        #[trigger] bucket(candidates, guess, color_num, hint)[k],
        guess,
        color_num,
    ) == hint by {
        candidates.lemma_filter_pred(earns(guess, color_num, hint), k);
    }
    assert forall|code: Seq<u8>| #[trigger]
        candidates.to_multiset().count(code) == bucket(
            candidates,
            guess,
            color_num,
            spec_hint(code, guess, color_num),
        ).to_multiset().count(code) by {
        lemma_bucket_count(candidates, guess, color_num, spec_hint(code, guess, color_num), code);
    }
    assert forall|code: Seq<u8>, hint: Hint|
        hint != spec_hint(code, guess, color_num) implies !(#[trigger] bucket(
        candidates,
        guess,
        color_num,
        hint,
    ).contains(code)) by {
        lemma_bucket_count(candidates, guess, color_num, hint, code);
        bucket(candidates, guess, color_num, hint).to_multiset_ensures();
    }
}

} // verus!
