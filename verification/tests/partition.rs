use hit_and_blow::def::{Code, CodeSet, Context, Hint, Mode, Policy};
use hit_and_blow::policy::{first_pick, minmax, select_guess, worst_case_num};
use hit_and_blow::utils::{
    calc_hint, calc_hint_based_candidate_num_map, calc_hint_based_candidates_map, clone_codes,
    get_all_codes,
};

fn context(color_num: u8, pin_num: u8, duplicate: bool, policy: Policy) -> Context {
    Context { pin_num, color_num, duplicate, policy, mode: Mode::Guess }
}

fn sorted(mut hints: Vec<Hint>) -> Vec<Hint> {
    hints.sort();
    hints
}

#[test]
fn partition_of_a_small_code_space() {
    let context = context(2, 2, true, Policy::Minmax);
    let codes = get_all_codes(&context);
    let guess: Code = vec![0, 1];
    let map = calc_hint_based_candidates_map(clone_codes(&codes), &guess, &context);
    assert_eq!(sorted(map.hints()), vec![(0, 2), (1, 0), (2, 0)]);
    assert_eq!(map.get((2, 0)), Some(&vec![vec![0, 1]]));
    assert_eq!(map.get((1, 0)), Some(&vec![vec![0, 0], vec![1, 1]]));
    assert_eq!(map.get((0, 2)), Some(&vec![vec![1, 0]]));
    assert_eq!(map.get((0, 0)), None);
    assert_eq!(map.get((0, 1)), None);
    let nums = calc_hint_based_candidate_num_map(&codes, &guess, &context);
    assert_eq!(sorted(nums.hints()), vec![(0, 2), (1, 0), (2, 0)]);
    assert_eq!(nums.get((2, 0)), Some(1));
    assert_eq!(nums.get((1, 0)), Some(2));
    assert_eq!(nums.get((0, 2)), Some(1));
    assert_eq!(nums.get((1, 1)), None);
}

#[test]
fn partition_is_proper_and_stable() {
    for (colors, pins, duplicate) in [(4u8, 3u8, true), (5, 3, false), (3, 2, true)] {
        let context = context(colors, pins, duplicate, Policy::Minmax);
        let codes = get_all_codes(&context);
        for guess in &codes {
            let map = calc_hint_based_candidates_map(clone_codes(&codes), guess, &context);
            let nums = calc_hint_based_candidate_num_map(&codes, guess, &context);
            let hints = map.hints();
            assert_eq!(sorted(hints.clone()), sorted(nums.hints()));
            let mut total = 0;
            for &hint in &hints {
                let part = map.get(hint).unwrap();
                assert!(!part.is_empty());
                assert_eq!(nums.get(hint), Some(part.len()));
                total += part.len();
                let expected: CodeSet = codes
                    .iter()
                    .filter(|code| calc_hint(code, guess, &context) == hint)
                    .cloned()
                    .collect();
                assert_eq!(*part, expected);
            }
            assert_eq!(total, codes.len());
            for code in &codes {
                let hint = calc_hint(code, guess, &context);
                let part = map.get(hint).unwrap();
                assert_eq!(part.iter().filter(|member| *member == code).count(), 1);
            }
        }
    }
}

#[test]
fn partition_of_no_candidate_has_no_key() {
    let context = context(3, 2, true, Policy::Minmax);
    let map = calc_hint_based_candidates_map(Vec::new(), &vec![0, 0], &context);
    assert!(map.hints().is_empty());
    assert_eq!(map.get((0, 0)), None);
    let nums = calc_hint_based_candidate_num_map(&Vec::new(), &vec![0, 0], &context);
    assert!(nums.hints().is_empty());
    assert_eq!(worst_case_num(&Vec::new(), &vec![0, 0], &context), 0);
}

#[test]
fn partition_keeps_repeated_candidates() {
    let context = context(3, 2, true, Policy::Minmax);
    let candidates: CodeSet = vec![vec![0, 1], vec![2, 2], vec![0, 1], vec![1, 0]];
    let map = calc_hint_based_candidates_map(clone_codes(&candidates), &vec![0, 1], &context);
    assert_eq!(map.get((2, 0)), Some(&vec![vec![0, 1], vec![0, 1]]));
    assert_eq!(map.get((0, 0)), Some(&vec![vec![2, 2]]));
    assert_eq!(map.get((0, 2)), Some(&vec![vec![1, 0]]));
    let nums = calc_hint_based_candidate_num_map(&candidates, &vec![0, 1], &context);
    assert_eq!(nums.get((2, 0)), Some(2));
    assert_eq!(worst_case_num(&candidates, &vec![0, 1], &context), 2);
}

#[test]
fn worst_case_is_the_largest_part() {
    let context = context(4, 2, true, Policy::Minmax);
    let codes = get_all_codes(&context);
    // Against [0, 0]: (2,0) x1, (1,0) x6, (0,0) x9.
    assert_eq!(worst_case_num(&codes, &vec![0, 0], &context), 9);
    // Against [0, 1]: (2,0) x1, (1,0) x4, (0,2) x1, (1,1) x0, (0,1) x6, (0,0) x4.
    assert_eq!(worst_case_num(&codes, &vec![0, 1], &context), 6);
}

#[test]
fn first_pick_takes_the_first_code() {
    let codes: CodeSet = vec![vec![3, 1], vec![0, 0], vec![2, 2]];
    assert_eq!(first_pick(&codes), vec![3, 1]);
    assert_eq!(first_pick(&vec![vec![7u8]]), vec![7]);
}

#[test]
fn minmax_takes_the_first_guess_with_the_least_worst_case() {
    let context = context(4, 2, true, Policy::Minmax);
    let codes = get_all_codes(&context);
    let guess = minmax(&codes, &codes, &context);
    assert_eq!(guess, vec![0, 1]);
    for (colors, pins, duplicate) in [(4u8, 2u8, true), (3, 3, true), (5, 3, false)] {
        let context = self::context(colors, pins, duplicate, Policy::Minmax);
        let codes = get_all_codes(&context);
        let candidates: CodeSet = codes.iter().step_by(2).cloned().collect();
        let guess = minmax(&candidates, &codes, &context);
        let chosen = worst_case_num(&candidates, &guess, &context);
        let index = codes.iter().position(|code| *code == guess).unwrap();
        for (j, other) in codes.iter().enumerate() {
            let worst = worst_case_num(&candidates, other, &context);
            assert!(chosen <= worst);
            if j < index {
                assert!(chosen < worst);
            }
        }
    }
}

#[test]
fn minmax_may_guess_a_code_that_is_no_candidate() {
    let context = context(3, 2, true, Policy::Minmax);
    let codes = get_all_codes(&context);
    let candidates: CodeSet = vec![vec![1, 1], vec![1, 2], vec![2, 1], vec![2, 2]];
    // [0, 1] parts them into (1,0): [1,1],[2,1]; (0,1): [1,2]; (0,0): [2,2]; the largest part holds two.
    // [0, 0] leaves all four together.
    let guess = minmax(&candidates, &codes, &context);
    assert_eq!(guess, vec![0, 1]);
    assert_eq!(worst_case_num(&candidates, &guess, &context), 2);
    assert_eq!(worst_case_num(&candidates, &vec![0, 0], &context), 4);
    // No guess does better: [1, 2] leaves [1,1] and [2,2] together under (1,0).
    assert_eq!(worst_case_num(&candidates, &vec![1, 2], &context), 2);
}

#[test]
fn select_guess_follows_the_policy() {
    let codes = get_all_codes(&context(4, 2, true, Policy::Minmax));
    let candidates: CodeSet = codes[5..].to_vec();
    let first = context(4, 2, true, Policy::Firstpick);
    assert_eq!(select_guess(&candidates, &codes, &first), vec![1, 1]);
    let least = context(4, 2, true, Policy::Minmax);
    assert_eq!(select_guess(&candidates, &codes, &least), minmax(&candidates, &codes, &least));
}
