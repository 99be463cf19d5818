//! Enumeration of the code space, hint calculation, and the partition of
//! candidates by hint.

use crate::code_space::{code_count, enumerates, falling_factorial, lemma_enumeration_len, power};
use crate::def::{codes_view, Code, CodeSet, Context, Hint};
use crate::hint_map::{
    candidate_buckets, candidate_nums, candidates_map_insert, candidates_map_new,
    candidates_map_remove, num_map_get, num_map_insert, num_map_new, BucketModel,
    CandidateNumMap, CandidatesMap, NumModel,
};
use itertools::Itertools;
use vstd::prelude::*;

verus! {

/// Calls `Itertools::multi_cartesian_product` on `pin_num` copies of the
/// range of colours and collects what it yields.  The contract claims that
/// the product holds every sequence of `pin_num` colours once, the last pin
/// changing fastest, which is lexicographic order.  It is not proved here.
#[verifier::external_body]
fn cartesian_codes(color_num: u8, pin_num: u8) -> (codes: CodeSet)
    requires
        power(color_num as nat, pin_num as nat) <= usize::MAX,
    ensures
        enumerates(codes_view(codes@), color_num, pin_num, true),
{
    (0..pin_num).map(|_| 0..color_num).multi_cartesian_product().collect()
}

/// Calls `Itertools::permutations` on the range of colours and collects
/// what it yields.  The contract claims that it yields every sequence of
/// `pin_num` pairwise distinct colours once, in lexicographic order of the
/// positions in the range, and nothing where `pin_num` exceeds `color_num`.
/// It is not proved here.
#[verifier::external_body]
fn permutation_codes(color_num: u8, pin_num: u8) -> (codes: CodeSet)
    requires
        falling_factorial(color_num as nat, pin_num as nat) <= usize::MAX,
    ensures
        enumerates(codes_view(codes@), color_num, pin_num, false),
{
    (0..color_num).permutations(pin_num as usize).collect()
}

/// With at least one colour, and no more pins than colours where colours
/// may not repeat, a longer code never has fewer variants.
pub proof fn lemma_code_count_monotonic(color_num: nat, few: nat, many: nat, duplicate: bool)
    requires
        color_num >= 1,
        few <= many,
        duplicate || many <= color_num,
    ensures
        1 <= code_count(color_num, few, duplicate) <= code_count(color_num, many, duplicate),
    decreases many,
{
    if many == 0 {
    } else if few == many {
        lemma_code_count_monotonic(color_num, (few - 1) as nat, (many - 1) as nat, duplicate);
        let less = code_count(color_num, (many - 1) as nat, duplicate);
        let factor: nat = if duplicate {
            color_num
        } else {
            (color_num - many + 1) as nat
        };
        assert(less * factor >= less) by (nonlinear_arith)
            requires
                factor >= 1,
        ;
    } else {
        lemma_code_count_monotonic(color_num, few, (many - 1) as nat, duplicate);
        let less = code_count(color_num, (many - 1) as nat, duplicate);
        let factor: nat = if duplicate {
            color_num
        } else {
            (color_num - many + 1) as nat
        };
        assert(less * factor >= less) by (nonlinear_arith)
            requires
                factor >= 1,
        ;
    }
}

/// Without a colour only the code of no pin exists.
pub proof fn lemma_code_count_no_color(pin_num: nat, duplicate: bool)
    ensures
        code_count(0, pin_num, duplicate) == if pin_num == 0 {
            1nat
        } else {
            0nat
        },
{
    if pin_num > 0 && duplicate {
        assert(power(0, (pin_num - 1) as nat) * 0 == 0) by (nonlinear_arith);
    }
}

/// Computes the number of legal codes of the configuration, or `None`
/// where that number does not fit the machine's word.
pub fn code_space_size(context: &Context) -> (size: Option<usize>)
    ensures
        size is Some ==> size.unwrap() == code_count(
            context.color_num as nat,
            context.pin_num as nat,
            context.duplicate,
        ),
        size is None <==> code_count(
            context.color_num as nat,
            context.pin_num as nat,
            context.duplicate,
        ) > usize::MAX,
{
    let colors: usize = context.color_num as usize;
    let pins: usize = context.pin_num as usize;
    let duplicate: bool = context.duplicate;
    if !duplicate && pins > colors {
        return Some(0);
    }
    if colors == 0 {
        proof {
            lemma_code_count_no_color(pins as nat, duplicate);
        }
        return if pins == 0 {
            Some(1)
        } else {
            Some(0)
        };
    }
    let mut size: usize = 1;
    let mut k: usize = 0;
    while k < pins
        invariant
            k <= pins,
            colors == context.color_num,
            pins == context.pin_num,
            duplicate == context.duplicate,
            colors >= 1,
            duplicate || pins <= colors,
            size == code_count(colors as nat, k as nat, duplicate),
        decreases pins - k,
    {
        let factor: usize = if duplicate {
            colors
        } else {
            colors - k
        };
        match size.checked_mul(factor) {
            Some(next) => {
                size = next;
            },
            None => {
                proof {
                    assert(code_count(colors as nat, (k + 1) as nat, duplicate) == size * factor);
                    lemma_code_count_monotonic(
                        colors as nat,
                        (k + 1) as nat,
                        pins as nat,
                        duplicate,
                    );
                }
                return None;
            },
        }
        k = k + 1;
    }
    Some(size)
}

/// Enumerates the legal codes of the configuration in lexicographic order,
/// the first pin weighing most: every sequence of colours where colours may
/// repeat, every sequence of pairwise distinct colours where they may not.
pub fn get_all_codes(context: &Context) -> (codes: CodeSet)
    requires
        code_count(context.color_num as nat, context.pin_num as nat, context.duplicate)
            <= usize::MAX,
    ensures
        enumerates(codes_view(codes@), context.color_num, context.pin_num, context.duplicate),
        codes.len() == code_count(
            context.color_num as nat,
            context.pin_num as nat,
            context.duplicate,
        ),
        codes_view(codes@).no_duplicates(),
        !context.duplicate && context.pin_num > context.color_num ==> codes.len() == 0,
        context.playable() ==> codes.len() >= 1,
{
    let codes: CodeSet = match context.duplicate {
        true => cartesian_codes(context.color_num, context.pin_num),
        false => permutation_codes(context.color_num, context.pin_num),
    };
    proof {
        lemma_enumeration_len(
            codes_view(codes@),
            context.color_num,
            context.pin_num,
            context.duplicate,
        );
        if context.playable() {
            lemma_code_count_monotonic(
                context.color_num as nat,
                0,
                context.pin_num as nat,
                context.duplicate,
            );
        }
    }
    codes
}

/// Number of positions below `n` at which `code` and `guess` show the same colour.
pub open spec fn hits_upto(code: Seq<u8>, guess: Seq<u8>, n: nat) -> nat
    decreases n,
{
    if n == 0 {
        0
    } else {
        hits_upto(code, guess, (n - 1) as nat) + if code[n - 1] == guess[n - 1] {
            1nat
        } else {
            0nat
        }
    }
}

/// Number of positions below `n` at which `a` shows `color` and `b` shows another colour.
pub open spec fn unmatched_upto(a: Seq<u8>, b: Seq<u8>, color: u8, n: nat) -> nat
    decreases n,
{
    if n == 0 {
        0
    } else {
        unmatched_upto(a, b, color, (n - 1) as nat) + if a[n - 1] != b[n - 1] && a[n - 1]
            == color {
            1nat
        } else {
            0nat
        }
    }
}

pub open spec fn min_nat(x: nat, y: nat) -> nat {
    if x <= y {
        x
    } else {
        y
    }
}

/// Blows over the colours below `colors`: for each colour, the smaller of
/// the numbers of pins that show it unmatched in `code` and in `guess`.
pub open spec fn blows_upto(code: Seq<u8>, guess: Seq<u8>, colors: nat) -> nat
    decreases colors,
{
    if colors == 0 {
        0
    } else {
        blows_upto(code, guess, (colors - 1) as nat) + min_nat(
            unmatched_upto(code, guess, (colors - 1) as u8, code.len()),
            unmatched_upto(guess, code, (colors - 1) as u8, code.len()),
        )
    }
}

/// Number of pins of `guess` that show the colour of `code` at the same position.
pub open spec fn spec_hits(code: Seq<u8>, guess: Seq<u8>) -> nat {
    hits_upto(code, guess, code.len())
}

/// Number of further colour matches at other positions, hits left aside.
pub open spec fn spec_blows(code: Seq<u8>, guess: Seq<u8>, color_num: u8) -> nat {
    blows_upto(code, guess, color_num as nat)
}

/// The hint that `guess` earns against `code`.
pub open spec fn spec_hint(code: Seq<u8>, guess: Seq<u8>, color_num: u8) -> Hint {
    (spec_hits(code, guess) as u8, spec_blows(code, guess, color_num) as u8)
}

/// Sum over the colours below `colors` of the pins below `n` that show the
/// colour in `a` and another in `b`.
pub open spec fn unmatched_total(a: Seq<u8>, b: Seq<u8>, colors: nat, n: nat) -> nat
    decreases colors,
{
    if colors == 0 {
        0
    } else {
        unmatched_total(a, b, (colors - 1) as nat, n) + unmatched_upto(
            a,
            b,
            (colors - 1) as u8,
            n,
        )
    }
}

pub proof fn lemma_unmatched_upto_bound(a: Seq<u8>, b: Seq<u8>, color: u8, n: nat)
    ensures
        unmatched_upto(a, b, color, n) <= n,
    decreases n,
{
    if n > 0 {
        lemma_unmatched_upto_bound(a, b, color, (n - 1) as nat);
    }
}

pub proof fn lemma_hits_upto_bound(code: Seq<u8>, guess: Seq<u8>, n: nat)
    ensures
        hits_upto(code, guess, n) <= n,
    decreases n,
{
    if n > 0 {
        lemma_hits_upto_bound(code, guess, (n - 1) as nat);
    }
}

/// One more position adds one to the total exactly when it is a mismatch
/// whose colour in `a` is among those summed.
pub proof fn lemma_unmatched_total_step(a: Seq<u8>, b: Seq<u8>, colors: nat, n: nat)
    requires
        colors <= 256,
        n >= 1,
    ensures
        unmatched_total(a, b, colors, n) == unmatched_total(a, b, colors, (n - 1) as nat) + if a[n
            - 1] != b[n - 1] && a[n - 1] < colors {
            1nat
        } else {
            0nat
        },
    decreases colors,
{
    if colors > 0 {
        lemma_unmatched_total_step(a, b, (colors - 1) as nat, n);
    }
}

/// Hits and unmatched pins together are no more than the positions looked at.
pub proof fn lemma_unmatched_total_bound(a: Seq<u8>, b: Seq<u8>, colors: nat, n: nat)
    requires
        colors <= 256,
    ensures
        unmatched_total(a, b, colors, n) + hits_upto(a, b, n) <= n,
    decreases n, colors,
{
    if n == 0 {
        if colors > 0 {
            lemma_unmatched_total_bound(a, b, (colors - 1) as nat, n);
        }
    } else {
        lemma_unmatched_total_bound(a, b, colors, (n - 1) as nat);
        lemma_unmatched_total_step(a, b, colors, n);
    }
}

pub proof fn lemma_blows_upto_bound(code: Seq<u8>, guess: Seq<u8>, colors: nat)
    ensures
        blows_upto(code, guess, colors) <= unmatched_total(code, guess, colors, code.len()),
    decreases colors,
{
    if colors > 0 {
        lemma_blows_upto_bound(code, guess, (colors - 1) as nat);
    }
}

/// Hits and blows together never exceed the number of pins.
pub proof fn lemma_hits_blows_bound(code: Seq<u8>, guess: Seq<u8>, colors: nat)
    requires
        colors <= 256,
    ensures
        hits_upto(code, guess, code.len()) + blows_upto(code, guess, colors) <= code.len(),
{
    lemma_blows_upto_bound(code, guess, colors);
    lemma_unmatched_total_bound(code, guess, colors, code.len());
}

fn zeros(n: usize) -> (counts: Vec<u8>)
    ensures
        counts.len() == n,
        forall|i: int| 0 <= i < n ==> counts[i] == 0,
{
    let mut counts: Vec<u8> = Vec::new();
    let mut i: usize = 0;
    while i < n
        invariant
            i <= n,
            counts.len() == i,
            forall|j: int| 0 <= j < i ==> counts[j] == 0,
        decreases n - i,
    {
        counts.push(0);
        i = i + 1;
    }
    counts
}

/// Computes the hint that `guess` earns against `code`: the hits, and the
/// blows counted colour by colour from the pins that are not hits.
pub fn calc_hint(code: &Code, guess: &Code, context: &Context) -> (hint: Hint)
    requires
        context.shaped(code@),
        context.shaped(guess@),
    ensures
        hint == spec_hint(code@, guess@, context.color_num),
        hint.0 == spec_hits(code@, guess@),
        hint.1 == spec_blows(code@, guess@, context.color_num),
        hint.0 + hint.1 <= context.pin_num,
{
    let n: usize = code.len();
    let colors: usize = context.color_num as usize;
    let mut code_color_counts: Vec<u8> = zeros(colors);
    let mut guess_color_counts: Vec<u8> = zeros(colors);
    let mut hit: u8 = 0;
    let mut i: usize = 0;
    while i < n
        invariant
            i <= n,
            n == code.len(),
            n == guess.len(),
            n <= 255,
            colors == context.color_num,
            context.shaped(code@),
            context.shaped(guess@),
            code_color_counts.len() == colors,
            guess_color_counts.len() == colors,
            hit == hits_upto(code@, guess@, i as nat),
            forall|c: int|
                0 <= c < colors ==> code_color_counts[c] == unmatched_upto(
                    code@,
                    guess@,
                    c as u8,
                    i as nat,
                ),
            forall|c: int|
                0 <= c < colors ==> guess_color_counts[c] == unmatched_upto(
                    guess@,
                    code@,
                    c as u8,
                    i as nat,
                ),
        decreases n - i,
    {
        let c: u8 = code[i];
        let g: u8 = guess[i];
        proof {
            lemma_hits_upto_bound(code@, guess@, i as nat);
            lemma_unmatched_upto_bound(code@, guess@, c, i as nat);
            lemma_unmatched_upto_bound(guess@, code@, g, i as nat);
        }
        if c == g {
            hit = hit + 1;
        } else {
            let code_count: u8 = code_color_counts[c as usize];
            code_color_counts.set(c as usize, code_count + 1);
            let guess_count: u8 = guess_color_counts[g as usize];
            guess_color_counts.set(g as usize, guess_count + 1);
        }
        i = i + 1;
    }
    let mut blow: u8 = 0;
    let mut k: usize = 0;
    while k < colors
        invariant
            k <= colors,
            n == code.len(),
            n <= 255,
            colors == context.color_num,
            code_color_counts.len() == colors,
            guess_color_counts.len() == colors,
            blow == blows_upto(code@, guess@, k as nat),
            hit == hits_upto(code@, guess@, n as nat),
            forall|c: int|
                0 <= c < colors ==> code_color_counts[c] == unmatched_upto(
                    code@,
                    guess@,
                    c as u8,
                    n as nat,
                ),
            forall|c: int|
                0 <= c < colors ==> guess_color_counts[c] == unmatched_upto(
                    guess@,
                    code@,
                    c as u8,
                    n as nat,
                ),
        decreases colors - k,
    {
        proof {
            lemma_hits_blows_bound(code@, guess@, (k + 1) as nat);
        }
        let code_count: u8 = code_color_counts[k];
        let guess_count: u8 = guess_color_counts[k];
        if code_count <= guess_count {
            blow = blow + code_count;
        } else {
            blow = blow + guess_count;
        }
        k = k + 1;
    }
    proof {
        lemma_hits_blows_bound(code@, guess@, colors as nat);
    }
    (hit, blow)
}

/// Whether a code earns `hint` against `guess`.
pub open spec fn earns(guess: Seq<u8>, color_num: u8, hint: Hint) -> spec_fn(Seq<u8>) -> bool {
    |code: Seq<u8>| spec_hint(code, guess, color_num) == hint
}

/// The candidates that earn `hint` against `guess`, in their order.
pub open spec fn bucket(
    candidates: Seq<Seq<u8>>,
    guess: Seq<u8>,
    color_num: u8,
    hint: Hint,
) -> Seq<Seq<u8>> {
    candidates.filter(earns(guess, color_num, hint))
}

/// The partition of `candidates` by the hint each earns against `guess`:
/// a key for every hint that some candidate earns, and no other.
pub open spec fn spec_partition(
    candidates: Seq<Seq<u8>>,
    guess: Seq<u8>,
    color_num: u8,
) -> BucketModel {
    Map::new(
        |hint: Hint| bucket(candidates, guess, color_num, hint).len() > 0,
        |hint: Hint| bucket(candidates, guess, color_num, hint),
    )
}

/// The sizes of the parts of `spec_partition`.
pub open spec fn spec_candidate_nums(
    candidates: Seq<Seq<u8>>,
    guess: Seq<u8>,
    color_num: u8,
) -> NumModel {
    Map::new(
        |hint: Hint| bucket(candidates, guess, color_num, hint).len() > 0,
        |hint: Hint| bucket(candidates, guess, color_num, hint).len() as usize,
    )
}

/// Every member of `candidates` has the length and the colours of a code.
pub open spec fn all_shaped(candidates: Seq<Seq<u8>>, context: &Context) -> bool {
    forall|i: int| 0 <= i < candidates.len() ==> context.shaped(#[trigger] candidates[i])
}

/// A further candidate joins the bucket of its own hint and no other.
pub proof fn lemma_bucket_push(
    candidates: Seq<Seq<u8>>,
    code: Seq<u8>,
    guess: Seq<u8>,
    color_num: u8,
    hint: Hint,
)
    ensures
        bucket(candidates.push(code), guess, color_num, hint) == if spec_hint(
            code,
            guess,
            color_num,
        ) == hint {
            bucket(candidates, guess, color_num, hint).push(code)
        } else {
            bucket(candidates, guess, color_num, hint)
        },
        bucket(candidates, guess, color_num, hint).len() <= candidates.len(),
{
    candidates.lemma_filter_push(code, earns(guess, color_num, hint));
    candidates.lemma_filter_len(earns(guess, color_num, hint));
}

/// Counts, for each hint, the candidates that earn it against `guess`.
pub fn calc_hint_based_candidate_num_map(
    candidates: &CodeSet,
    guess: &Code,
    context: &Context,
) -> (map: CandidateNumMap)
    requires
        all_shaped(codes_view(candidates@), context),
        context.shaped(guess@),
    ensures
        map@ == spec_candidate_nums(codes_view(candidates@), guess@, context.color_num),
{
    let mut map: CandidateNumMap = num_map_new();
    let ghost all = codes_view(candidates@);
    let mut i: usize = 0;
    proof {
        assert forall|hint: Hint|
            bucket(all.take(0), guess@, context.color_num, hint).len() == 0 by {
            all.take(0).lemma_filter_len(earns(guess@, context.color_num, hint));
        }
        assert(candidate_nums(map) =~= spec_candidate_nums(
            all.take(0),
            guess@,
            context.color_num,
        ));
    }
    while i < candidates.len()
        invariant
            i <= candidates.len(),
            all == codes_view(candidates@),
            all_shaped(all, context),
            context.shaped(guess@),
            candidate_nums(map) == spec_candidate_nums(
                all.take(i as int),
                guess@,
                context.color_num,
            ),
        decreases candidates.len() - i,
    {
        assert(context.shaped(all[i as int]));
        let hint: Hint = calc_hint(&candidates[i], guess, context);
        let ghost seen = all.take(i as int);
        proof {
            assert(all.take(i + 1) =~= seen.push(all[i as int]));
            assert forall|other: Hint|
                bucket(all.take(i + 1), guess@, context.color_num, other) == if other == hint {
                    bucket(seen, guess@, context.color_num, other).push(all[i as int])
                } else {
                    bucket(seen, guess@, context.color_num, other)
                } && bucket(seen, guess@, context.color_num, other).len() <= i by {
                lemma_bucket_push(seen, all[i as int], guess@, context.color_num, other);
            }
        }
        let num: usize = match num_map_get(&map, hint) {
            Some(n) => n + 1,
            None => 1,
        };
        num_map_insert(&mut map, hint, num);
        proof {
            assert(candidate_nums(map) =~= spec_candidate_nums(
                all.take(i + 1),
                guess@,
                context.color_num,
            ));
        }
        i = i + 1;
    }
    proof {
        assert(all.take(candidates.len() as int) =~= all);
    }
    map
}

/// Parts the candidates by the hint each earns against `guess`.  Within a
/// part the candidates keep their order.
pub fn calc_hint_based_candidates_map(
    candidates: CodeSet,
    guess: &Code,
    context: &Context,
) -> (map: CandidatesMap)
    requires
        all_shaped(codes_view(candidates@), context),
        context.shaped(guess@),
    ensures
        map@ == spec_partition(codes_view(candidates@), guess@, context.color_num),
{
    let mut map: CandidatesMap = candidates_map_new();
    let ghost all = codes_view(candidates@);
    let mut rest: CodeSet = candidates;
    let mut done: usize = 0;
    proof {
        assert forall|hint: Hint|
            bucket(all.take(0), guess@, context.color_num, hint).len() == 0 by {
            all.take(0).lemma_filter_len(earns(guess@, context.color_num, hint));
        }
        assert(candidate_buckets(map) =~= spec_partition(all.take(0), guess@, context.color_num));
    }
    for code in iter: rest
        invariant
            all_shaped(all, context),
            context.shaped(guess@),
            codes_view(iter.seq()) == all,
            candidate_buckets(map) == spec_partition(
                all.take(iter.index() as int),
                guess@,
                context.color_num,
            ),
    {
        let ghost i = iter.index() as int;
        assert(context.shaped(all[i]));
        let hint: Hint = calc_hint(&code, guess, context);
        let ghost seen = all.take(i);
        proof {
            assert(all.take(i + 1) =~= seen.push(all[i]));
            assert forall|other: Hint|
                bucket(all.take(i + 1), guess@, context.color_num, other) == if other == hint {
                    bucket(seen, guess@, context.color_num, other).push(all[i])
                } else {
                    bucket(seen, guess@, context.color_num, other)
                } by {
                lemma_bucket_push(seen, all[i], guess@, context.color_num, other);
            }
        }
        let mut part: CodeSet = match candidates_map_remove(&mut map, hint) {
            Some(part) => part,
            None => Vec::new(),
        };
        part.push(code);
        proof {
            assert(codes_view(part@) =~= bucket(seen, guess@, context.color_num, hint).push(
                all[i],
            ));
        }
        candidates_map_insert(&mut map, hint, part);
        proof {
            assert(candidate_buckets(map) =~= spec_partition(
                all.take(i + 1),
                guess@,
                context.color_num,
            ));
        }
    }
    proof {
        assert(all.take(all.len() as int) =~= all);
    }
    map
}

/// Copies a code set, code by code.
pub fn clone_codes(codes: &CodeSet) -> (copy: CodeSet)
    ensures
        codes_view(copy@) == codes_view(codes@),
{
    let mut copy: CodeSet = Vec::new();
    let mut i: usize = 0;
    while i < codes.len()
        invariant
            i <= codes.len(),
            copy.len() == i,
            forall|j: int| 0 <= j < i ==> copy[j]@ == codes[j]@,
        decreases codes.len() - i,
    {
        let code: Code = codes[i].clone();
        copy.push(code);
        i = i + 1;
    }
    proof {
        assert(codes_view(copy@) =~= codes_view(codes@));
    }
    copy
}

} // verus!
