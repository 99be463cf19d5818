use hit_and_blow::def::{CodeSet, ConfigError, Context, Hint, Mode, Policy};
use hit_and_blow::policy::select_guess;
use hit_and_blow::tree::{mktree, mktree_step, Outcome, TreeNode};
use hit_and_blow::utils::{calc_hint, get_all_codes};

fn context(color_num: u8, pin_num: u8, duplicate: bool, policy: Policy) -> Context {
    Context { pin_num, color_num, duplicate, policy, mode: Mode::Mktree }
}

/// Checks a node against the candidates it stands for; returns the secrets
/// at its leaves and the largest turn.
fn walk(
    node: &TreeNode,
    candidates: &CodeSet,
    depth: usize,
    all: &CodeSet,
    context: &Context,
    leaves: &mut CodeSet,
) -> usize {
    assert_eq!(node.depth, depth);
    assert_eq!(node.guess, select_guess(candidates, all, context));
    let mut hints: Vec<Hint> = node.branches.iter().map(|branch| branch.hint).collect();
    hints.sort();
    let mut expected: Vec<Hint> =
        candidates.iter().map(|code| calc_hint(code, &node.guess, context)).collect();
    expected.sort();
    expected.dedup();
    assert_eq!(hints, expected);
    let mut worst = 0;
    for branch in &node.branches {
        let part: CodeSet = candidates
            .iter()
            .filter(|code| calc_hint(code, &node.guess, context) == branch.hint)
            .cloned()
            .collect();
        assert_eq!(branch.candidate_num, part.len());
        match &branch.outcome {
            Outcome::Secret { secret, turn } => {
                assert_eq!(part.len(), 1);
                assert_eq!(*secret, part[0]);
                let extra = if branch.hint.0 == context.pin_num { 0 } else { 1 };
                assert_eq!(*turn, depth + extra);
                leaves.push(secret.clone());
                worst = worst.max(*turn);
            }
            Outcome::Next(next) => {
                assert!(part.len() > 1);
                assert!(part.len() < candidates.len());
                worst = worst.max(walk(next, &part, depth + 1, all, context, leaves));
            }
        }
    }
    worst
}

#[test]
fn tree_of_minmax_on_four_colours_and_two_pins() {
    let context = context(4, 2, true, Policy::Minmax);
    let (all, tree) = mktree(&context).unwrap();
    assert_eq!(all, get_all_codes(&context));
    assert_eq!(tree.depth, 1);
    assert_eq!(tree.guess, vec![0, 1]);
    let mut leaves = Vec::new();
    let worst = walk(&tree, &all, 1, &all, &context, &mut leaves);
    leaves.sort();
    assert_eq!(leaves, all);
    assert_eq!(tree.max_turn(), worst);
    assert_eq!(worst, 4);
}

#[test]
fn max_turn_is_the_latest_leaf() {
    let context = context(2, 2, true, Policy::Firstpick);
    let all = get_all_codes(&context);
    // [0,0] first; [1,0] is found last, at the third turn.
    assert_eq!(mktree_step(&all, 1, &all, &context).max_turn(), 3);
    let single: CodeSet = vec![vec![0, 0]];
    assert_eq!(mktree_step(&single, 1, &all, &context).max_turn(), 1);
    let single: CodeSet = vec![vec![1, 1]];
    let minmax = self::context(2, 2, true, Policy::Minmax);
    // Minmax guesses [0, 0] here, which is not the secret: one more turn.
    assert_eq!(mktree_step(&single, 7, &all, &minmax).max_turn(), 8);
}

#[test]
fn tree_has_every_code_at_exactly_one_leaf() {
    for policy in [Policy::Firstpick, Policy::Minmax] {
        for (colors, pins, duplicate) in [(2u8, 2u8, true), (3, 2, false), (3, 3, true), (4, 3, false)] {
            let context = context(colors, pins, duplicate, policy);
            let (all, tree) = mktree(&context).unwrap();
            let mut leaves = Vec::new();
            walk(&tree, &all, 1, &all, &context, &mut leaves);
            leaves.sort();
            assert_eq!(leaves, all);
        }
    }
}

#[test]
fn tree_of_first_pick_on_two_colours_and_two_pins() {
    let context = context(2, 2, true, Policy::Firstpick);
    let all = get_all_codes(&context);
    let tree = mktree_step(&all, 1, &all, &context);
    assert_eq!(tree.guess, vec![0, 0]);
    assert_eq!(tree.branches.len(), 3);
    for branch in &tree.branches {
        match (branch.hint, &branch.outcome) {
            ((2, 0), Outcome::Secret { secret, turn }) => {
                assert_eq!(*secret, vec![0, 0]);
                assert_eq!(*turn, 1);
                assert_eq!(branch.candidate_num, 1);
            }
            ((0, 0), Outcome::Secret { secret, turn }) => {
                assert_eq!(*secret, vec![1, 1]);
                assert_eq!(*turn, 2);
                assert_eq!(branch.candidate_num, 1);
            }
            ((1, 0), Outcome::Next(next)) => {
                assert_eq!(branch.candidate_num, 2);
                assert_eq!(next.depth, 2);
                assert_eq!(next.guess, vec![0, 1]);
                assert_eq!(next.branches.len(), 2);
                for inner in &next.branches {
                    match (inner.hint, &inner.outcome) {
                        ((2, 0), Outcome::Secret { secret, turn }) => {
                            assert_eq!(*secret, vec![0, 1]);
                            assert_eq!(*turn, 2);
                        }
                        ((0, 2), Outcome::Secret { secret, turn }) => {
                            assert_eq!(*secret, vec![1, 0]);
                            assert_eq!(*turn, 3);
                        }
                        other => panic!("unexpected branch {:?}", other),
                    }
                }
            }
            other => panic!("unexpected branch {:?}", other),
        }
    }
}

#[test]
fn tree_of_a_single_candidate_is_one_leaf() {
    let context = context(3, 2, true, Policy::Minmax);
    let all = get_all_codes(&context);
    let candidates: CodeSet = vec![vec![2, 1]];
    let tree = mktree_step(&candidates, 5, &all, &context);
    assert_eq!(tree.depth, 5);
    assert_eq!(tree.branches.len(), 1);
    assert_eq!(tree.branches[0].candidate_num, 1);
    match &tree.branches[0].outcome {
        Outcome::Secret { secret, turn } => {
            assert_eq!(*secret, vec![2, 1]);
            let hint = calc_hint(&candidates[0], &tree.guess, &context);
            assert_eq!(tree.branches[0].hint, hint);
            assert_eq!(*turn, if hint.0 == 2 { 5 } else { 6 });
        }
        Outcome::Next(_) => panic!("a single candidate must be a leaf"),
    }
}

#[test]
fn tree_refuses_an_unplayable_configuration() {
    assert_eq!(mktree(&context(0, 2, true, Policy::Minmax)).unwrap_err(), ConfigError::NoColor);
    assert_eq!(mktree(&context(2, 0, true, Policy::Minmax)).unwrap_err(), ConfigError::NoPin);
    assert_eq!(
        mktree(&context(2, 3, false, Policy::Firstpick)).unwrap_err(),
        ConfigError::EmptyCodeSpace
    );
    assert_eq!(
        mktree(&context(255, 255, false, Policy::Firstpick)).unwrap_err(),
        ConfigError::TooManyCodes
    );
}
