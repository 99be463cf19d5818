use hit_and_blow::def::{ConfigError, Context, Mode, Policy};
use hit_and_blow::utils::{code_space_size, get_all_codes};

fn context(color_num: u8, pin_num: u8, duplicate: bool) -> Context {
    Context { pin_num, color_num, duplicate, policy: Policy::Firstpick, mode: Mode::Mktree }
}

fn power(base: usize, exp: usize) -> usize {
    (0..exp).fold(1, |acc, _| acc * base)
}

fn falling(base: usize, count: usize) -> usize {
    (0..count).fold(1, |acc, k| if k < base { acc * (base - k) } else { 0 })
}

#[test]
fn enumeration_with_repeats_is_the_product_in_order() {
    let codes = get_all_codes(&context(2, 2, true));
    assert_eq!(codes, vec![vec![0, 0], vec![0, 1], vec![1, 0], vec![1, 1]]);
    let codes = get_all_codes(&context(3, 2, true));
    assert_eq!(
        codes,
        vec![
            vec![0, 0],
            vec![0, 1],
            vec![0, 2],
            vec![1, 0],
            vec![1, 1],
            vec![1, 2],
            vec![2, 0],
            vec![2, 1],
            vec![2, 2]
        ]
    );
}

#[test]
fn enumeration_without_repeats_is_the_permutations_in_order() {
    let codes = get_all_codes(&context(3, 2, false));
    assert_eq!(
        codes,
        vec![vec![0, 1], vec![0, 2], vec![1, 0], vec![1, 2], vec![2, 0], vec![2, 1]]
    );
    let codes = get_all_codes(&context(3, 3, false));
    assert_eq!(
        codes,
        vec![
            vec![0, 1, 2],
            vec![0, 2, 1],
            vec![1, 0, 2],
            vec![1, 2, 0],
            vec![2, 0, 1],
            vec![2, 1, 0]
        ]
    );
}

#[test]
fn enumeration_counts_are_power_and_falling_factorial() {
    for colors in 0u8..=6 {
        for pins in 0u8..=5 {
            for duplicate in [true, false] {
                let context = context(colors, pins, duplicate);
                let codes = get_all_codes(&context);
                let expected = if duplicate {
                    power(colors as usize, pins as usize)
                } else {
                    falling(colors as usize, pins as usize)
                };
                assert_eq!(codes.len(), expected);
                assert_eq!(code_space_size(&context), Some(expected));
                for (i, code) in codes.iter().enumerate() {
                    assert_eq!(code.len(), pins as usize);
                    assert!(code.iter().all(|&color| color < colors));
                    if !duplicate {
                        for a in 0..code.len() {
                            for b in 0..a {
                                assert_ne!(code[a], code[b]);
                            }
                        }
                    }
                    if i > 0 {
                        assert!(codes[i - 1] < *code);
                    }
                }
            }
        }
    }
}

#[test]
fn enumeration_exact_counts() {
    assert_eq!(get_all_codes(&context(6, 4, true)).len(), 1296);
    assert_eq!(get_all_codes(&context(6, 4, false)).len(), 360);
    assert_eq!(get_all_codes(&context(10, 3, false)).len(), 720);
    assert_eq!(get_all_codes(&context(4, 4, false)).len(), 24);
}

#[test]
fn enumeration_is_empty_with_more_pins_than_distinct_colours() {
    assert!(get_all_codes(&context(2, 3, false)).is_empty());
    assert_eq!(code_space_size(&context(2, 3, false)), Some(0));
    assert_eq!(code_space_size(&context(100, 101, false)), Some(0));
}

#[test]
fn code_space_size_says_when_the_count_does_not_fit() {
    assert_eq!(code_space_size(&context(255, 255, true)), None);
    assert_eq!(code_space_size(&context(255, 255, false)), None);
    assert_eq!(code_space_size(&context(2, 255, true)), None);
    assert_eq!(code_space_size(&context(1, 255, true)), Some(1));
    assert_eq!(code_space_size(&context(2, 10, true)), Some(1024));
    assert_eq!(code_space_size(&context(16, 8, true)), Some(1usize << 32));
    assert_eq!(code_space_size(&context(0, 0, true)), Some(1));
    assert_eq!(code_space_size(&context(0, 3, true)), Some(0));
}

#[test]
fn validate_names_the_fault() {
    assert_eq!(context(0, 4, true).validate(), Err(ConfigError::NoColor));
    assert_eq!(context(0, 0, true).validate(), Err(ConfigError::NoColor));
    assert_eq!(context(6, 0, false).validate(), Err(ConfigError::NoPin));
    assert_eq!(context(3, 4, false).validate(), Err(ConfigError::EmptyCodeSpace));
    assert_eq!(context(3, 4, true).validate(), Ok(()));
    assert_eq!(context(4, 4, false).validate(), Ok(()));
    assert_eq!(context(1, 1, false).validate(), Ok(()));
}
