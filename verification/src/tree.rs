//! The decision tree of a policy: what it guesses for every candidate set
//! that can arise, and after how many turns each secret is found.

use crate::code_space::{code_count, enumerates};
use crate::def::{codes_view, Code, CodeSet, ConfigError, Context, Hint, Policy};
use crate::game::{lemma_bucket_searchable, lemma_guess_narrows, searchable};
use crate::hint_map::{candidate_buckets, candidates_map_get, candidates_map_keys, CandidatesMap};
use crate::policy::{lemma_minmax_is_least, minmax_index_upto, select_guess, spec_select};
use crate::utils::{
    bucket, calc_hint_based_candidates_map, clone_codes, code_space_size, earns, get_all_codes,
    spec_partition,
};
use vstd::prelude::*;

verus! {

/// What follows a hint.
#[derive(Debug)]
pub enum Outcome {
    /// One candidate is left.  It is found at turn `turn`.
    Secret { secret: Code, turn: usize },
    /// Several candidates are left, and the tree goes on.
    Next(TreeNode),
}

/// One hint that the guess of a node can earn.
#[derive(Debug)]
pub struct Branch {
    pub hint: Hint,
    /// Number of candidates that earn the hint.
    pub candidate_num: usize,
    pub outcome: Outcome,
}

/// A guess, with a branch for every hint that some candidate earns.
#[derive(Debug)]
pub struct TreeNode {
    /// The turn at which the guess is made, the first turn being 1.
    pub depth: usize,
    pub guess: Code,
    pub branches: Vec<Branch>,
}

/// The largest turn at which a secret is found under the first `n` of `branches`.
pub open spec fn branches_max_turn(branches: Vec<Branch>, n: nat) -> nat
    decreases branches, n,
{
    if n == 0 || n > branches.len() {
        0
    } else {
        let rest = branches_max_turn(branches, (n - 1) as nat);
        let last = branches[n - 1].spec_max_turn();
        if rest >= last {
            rest
        } else {
            last
        }
    }
}

impl Branch {
    /// The largest turn at which a secret is found under this branch.
    pub open spec fn spec_max_turn(self) -> nat
        decreases self,
    {
        match self.outcome {
            Outcome::Secret { secret, turn } => turn as nat,
            Outcome::Next(node) => node.spec_max_turn(),
        }
    }

    /// The branch tells what follows its hint when `part` holds the
    /// candidates that earn it at turn `depth`: their number, and either
    /// the one secret with its turn, which is `depth` where the hint is
    /// all hits and one more where it is not, or the tree for `part`.
    pub open spec fn describes(
        self,
        part: Seq<Seq<u8>>,
        depth: nat,
        universe: Seq<Seq<u8>>,
        context: &Context,
    ) -> bool
        decreases self,
    {
        &&& self.candidate_num == part.len()
        &&& match self.outcome {
            Outcome::Secret { secret, turn } => {
                &&& part.len() == 1
                &&& secret@ == part[0]
                &&& turn == depth + if self.hint.0 == context.pin_num {
                    0nat
                } else {
                    1nat
                }
            },
            Outcome::Next(node) => {
                &&& part.len() != 1
                &&& node.describes(part, depth + 1, universe, context)
            },
        }
    }
}

impl TreeNode {
    /// The number of turns that the policy needs in the worst case: the
    /// largest turn at which a secret is found in the tree.
    pub open spec fn spec_max_turn(self) -> nat
        decreases self,
    {
        branches_max_turn(self.branches, self.branches.len() as nat)
    }

    /// Computes the number of turns that the policy needs in the worst case.
    pub fn max_turn(&self) -> (worst: usize)
        ensures
            worst == self.spec_max_turn(),
        decreases self,
    {
        let mut worst: usize = 0;
        let mut k: usize = 0;
        while k < self.branches.len()
            invariant
                k <= self.branches.len(),
                worst == branches_max_turn(self.branches, k as nat),
            decreases self.branches.len() - k,
        {
            let turn: usize = match &self.branches[k].outcome {
                Outcome::Secret { secret, turn } => *turn,
                Outcome::Next(node) => node.max_turn(),
            };
            proof {
                assert(turn == self.branches[k as int].spec_max_turn());
                assert(branches_max_turn(self.branches, (k + 1) as nat) == if branches_max_turn(
                    self.branches,
                    k as nat,
                ) >= turn {
                    branches_max_turn(self.branches, k as nat)
                } else {
                    turn as nat
                });
            }
            if turn > worst {
                worst = turn;
            }
            k = k + 1;
        }
        worst
    }

    /// The node is the decision tree of the policy for `candidates` at
    /// turn `depth`: its guess is the policy's, it has one branch for each
    /// hint that some candidate earns, and each branch describes the part
    /// of the candidates that earn its hint.
    pub open spec fn describes(
        self,
        candidates: Seq<Seq<u8>>,
        depth: nat,
        universe: Seq<Seq<u8>>,
        context: &Context,
    ) -> bool
        decreases self,
    {
        &&& self.depth == depth
        &&& self.guess@ == spec_select(candidates, universe, context.color_num, context.policy)
        &&& forall|i: int, j: int|
            0 <= i < j < self.branches.len() ==> self.branches[i].hint != self.branches[j].hint
        &&& forall|hint: Hint|
            spec_partition(candidates, self.guess@, context.color_num).contains_key(hint)
                <==> exists|i: int|
                0 <= i < self.branches.len() && (#[trigger] self.branches[i]).hint == hint
        &&& forall|i: int|
            0 <= i < self.branches.len() ==> (#[trigger] self.branches[i]).describes(
                bucket(candidates, self.guess@, context.color_num, self.branches[i].hint),
                depth,
                universe,
                context,
            )
    }
}

/// Builds the decision tree of the policy for `candidates` at turn `depth`.
/// The branches of a node come in no particular order.
pub fn mktree_step(
    candidates: &CodeSet,
    depth: usize,
    all_codes: &CodeSet,
    context: &Context,
) -> (node: TreeNode)
    requires
        searchable(codes_view(candidates@), codes_view(all_codes@), context),
        depth + candidates.len() <= usize::MAX,
    ensures
        node.describes(codes_view(candidates@), depth as nat, codes_view(all_codes@), context),
    decreases candidates.len(),
{
    let ghost all = codes_view(candidates@);
    let ghost universe = codes_view(all_codes@);
    proof {
        if context.policy == Policy::Minmax {
            assert(universe.contains(all[0]));
            lemma_minmax_is_least(all, universe, context.color_num, universe.len());
            assert(context.shaped(
                universe[minmax_index_upto(all, universe, context.color_num, universe.len())],
            ));
        }
    }
    let guess: Code = select_guess(candidates, all_codes, context);
    let map: CandidatesMap = calc_hint_based_candidates_map(
        clone_codes(candidates),
        &guess,
        context,
    );
    let hints: Vec<Hint> = candidates_map_keys(&map);
    let mut branches: Vec<Branch> = Vec::new();
    let mut k: usize = 0;
    while k < hints.len()
        invariant
            k <= hints.len(),
            branches.len() == k,
            all == codes_view(candidates@),
            universe == codes_view(all_codes@),
            searchable(all, universe, context),
            depth + candidates.len() <= usize::MAX,
            guess@ == spec_select(all, universe, context.color_num, context.policy),
            candidate_buckets(map) == spec_partition(all, guess@, context.color_num),
            hints@.no_duplicates(),
            forall|hint: Hint| hints@.contains(hint) <==> candidate_buckets(map).contains_key(hint),
            forall|i: int| 0 <= i < k ==> (#[trigger] branches[i]).hint == hints[i],
            forall|i: int|
                0 <= i < k ==> (#[trigger] branches[i]).describes(
                    bucket(all, guess@, context.color_num, hints[i]),
                    depth as nat,
                    universe,
                    context,
                ),
        decreases hints.len() - k,
    {
        let hint: Hint = hints[k];
        assert(hints@.contains(hint));
        match candidates_map_get(&map, hint) {
            Some(part) => {
                proof {
                    lemma_bucket_searchable(all, universe, context, guess@, hint);
                    if all.len() >= 2 {
                        lemma_guess_narrows(all, universe, context, hint);
                    } else {
                        all.lemma_filter_len(earns(guess@, context.color_num, hint));
                    }
                }
                let outcome: Outcome = if part.len() == 1 {
                    let turn: usize = if hint.0 == context.pin_num {
                        depth
                    } else {
                        depth + 1
                    };
                    Outcome::Secret { secret: part[0].clone(), turn }
                } else {
                    Outcome::Next(mktree_step(part, depth + 1, all_codes, context))
                };
                branches.push(Branch { hint, candidate_num: part.len(), outcome });
            },
            None => {
                proof {
                    assert(false);
                }
            },
        }
        k = k + 1;
    }
    let node = TreeNode { depth, guess, branches };
    proof {
        assert forall|hint: Hint|
            spec_partition(all, node.guess@, context.color_num).contains_key(hint)
                <==> exists|i: int|
                0 <= i < node.branches.len() && (#[trigger] node.branches[i]).hint == hint by {
            if hints@.contains(hint) {
                let i = choose|i: int| 0 <= i < hints.len() && hints[i] == hint;
                assert(node.branches[i].hint == hint);
            }
        }
    }
    node
}

/// Builds the decision tree of the policy over the whole code space, the
/// first guess being made at turn 1.  A configuration without codes, or
/// with as many codes as the machine's word can count or more, is refused.
pub fn mktree(context: &Context) -> (tree: Result<(CodeSet, TreeNode), ConfigError>)
    ensures
        tree is Ok <==> context.playable() && code_count(
            context.color_num as nat,
            context.pin_num as nat,
            context.duplicate,
        ) < usize::MAX,
        tree is Ok ==> enumerates(
            codes_view(tree.unwrap().0@),
            context.color_num,
            context.pin_num,
            context.duplicate,
        ) && tree.unwrap().1.describes(
            codes_view(tree.unwrap().0@),
            1,
            codes_view(tree.unwrap().0@),
            context,
        ),
        tree matches Err(error) ==> error == (if context.playable() {
            ConfigError::TooManyCodes
        } else {
            context.validate_spec().unwrap_err()
        }),
{
    match context.validate() {
        Err(error) => {
            return Err(error);
        },
        Ok(_) => {},
    }
    match code_space_size(context) {
        None => {
            return Err(ConfigError::TooManyCodes);
        },
        Some(size) => {
            if size == usize::MAX {
                return Err(ConfigError::TooManyCodes);
            }
        },
    }
    let all_codes: CodeSet = get_all_codes(context);
    proof {
        let all = codes_view(all_codes@);
        assert forall|i: int| 0 <= i < all.len() implies context.shaped(#[trigger] all[i])
            && all.contains(all[i]) by {
            assert(context.legal(all[i]));
        }
    }
    let node: TreeNode = mktree_step(&all_codes, 1, &all_codes, context);
    Ok((all_codes, node))
}

} // verus!
