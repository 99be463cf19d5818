use hit_and_blow::def::{Context, Mode, Policy};
use hit_and_blow::utils::{calc_hint, get_all_codes};

fn context(color_num: u8, pin_num: u8, duplicate: bool) -> Context {
    Context { pin_num, color_num, duplicate, policy: Policy::Minmax, mode: Mode::Guess }
}

#[test]
fn test_calc_hint_2color_2pin() {
    let context = Context {
        pin_num: 2,
        color_num: 2,
        duplicate: true,
        policy: Policy::Minmax,
        mode: Mode::Guess,
    };
    assert_eq!(calc_hint(&vec![0_u8, 0_u8], &vec![1_u8, 1_u8], &context), (0, 0));
    assert_eq!(calc_hint(&vec![0_u8, 0_u8], &vec![0_u8, 1_u8], &context), (1, 0));
    assert_eq!(calc_hint(&vec![0_u8, 0_u8], &vec![1_u8, 0_u8], &context), (1, 0));
    assert_eq!(calc_hint(&vec![0_u8, 0_u8], &vec![0_u8, 0_u8], &context), (2, 0));
    assert_eq!(calc_hint(&vec![0_u8, 1_u8], &vec![1_u8, 0_u8], &context), (0, 2));
}

#[test]
fn test_calc_hint_6color_3pin() {
    let context = Context {
        pin_num: 3,
        color_num: 6,
        duplicate: true,
        policy: Policy::Minmax,
        mode: Mode::Guess,
    };
    assert_eq!(calc_hint(&vec![0_u8, 0_u8, 4_u8], &vec![1_u8, 1_u8, 5_u8], &context), (0, 0));
    assert_eq!(calc_hint(&vec![0_u8, 0_u8, 4_u8], &vec![0_u8, 1_u8, 5_u8], &context), (1, 0));
    assert_eq!(calc_hint(&vec![0_u8, 0_u8, 4_u8], &vec![1_u8, 0_u8, 5_u8], &context), (1, 0));
    assert_eq!(calc_hint(&vec![0_u8, 0_u8, 4_u8], &vec![0_u8, 0_u8, 5_u8], &context), (2, 0));
    assert_eq!(calc_hint(&vec![0_u8, 1_u8, 4_u8], &vec![1_u8, 0_u8, 5_u8], &context), (0, 2));
}

#[test]
fn hint_counts_blows_per_colour_by_the_smaller_side() {
    let context = context(6, 4, true);
    // One hit at the first pin; colour 1 is unmatched twice in the code and once in the guess.
    assert_eq!(calc_hint(&vec![0, 1, 1, 2], &vec![0, 3, 3, 1], &context), (1, 1));
    // Colour 1: min(2, 2) = 2; colour 2: min(1, 1) = 1.
    assert_eq!(calc_hint(&vec![1, 1, 2, 5], &vec![2, 5, 1, 1], &context), (0, 4));
    assert_eq!(calc_hint(&vec![1, 2, 3, 4], &vec![1, 2, 4, 3], &context), (2, 2));
    assert_eq!(calc_hint(&vec![5, 5, 5, 5], &vec![5, 0, 0, 0], &context), (1, 0));
}

#[test]
fn hint_of_a_code_against_itself_is_all_hits() {
    for (colors, pins, duplicate) in [(4u8, 3u8, true), (5, 3, false), (1, 1, true), (3, 4, true)] {
        let context = context(colors, pins, duplicate);
        for code in get_all_codes(&context) {
            assert_eq!(calc_hint(&code, &code, &context), (pins, 0));
        }
    }
}

#[test]
fn hint_is_symmetric_and_within_the_pins() {
    for (colors, pins, duplicate) in [(4u8, 3u8, true), (5, 3, false), (2, 4, true)] {
        let context = context(colors, pins, duplicate);
        let codes = get_all_codes(&context);
        for code in &codes {
            for guess in &codes {
                let hint = calc_hint(code, guess, &context);
                assert!(hint.0 + hint.1 <= pins);
                assert_eq!(hint, calc_hint(guess, code, &context));
                assert_eq!(hint.0 == pins, code == guess);
            }
        }
    }
}

#[test]
fn hint_with_a_single_pin() {
    let context = context(3, 1, true);
    assert_eq!(calc_hint(&vec![2], &vec![2], &context), (1, 0));
    assert_eq!(calc_hint(&vec![2], &vec![0], &context), (0, 0));
}

#[test]
fn hint_with_the_longest_code() {
    let context = context(2, 255, true);
    let zeros = vec![0u8; 255];
    let mut mixed = vec![0u8; 255];
    mixed[0] = 1;
    mixed[254] = 1;
    assert_eq!(calc_hint(&zeros, &zeros, &context), (255, 0));
    assert_eq!(calc_hint(&zeros, &mixed, &context), (253, 0));
    let mut swapped = mixed.clone();
    swapped[0] = 0;
    swapped[1] = 1;
    assert_eq!(calc_hint(&mixed, &swapped, &context), (253, 2));
}
