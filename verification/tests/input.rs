use hit_and_blow::benchmark::{benchmark_contexts, BENCHMARK_RUNS};
use hit_and_blow::def::{Context, Mode, Policy};
use hit_and_blow::hint_input::{parse_hint, HintInputError};

#[test]
fn parse_hint_reads_two_numbers() {
    assert_eq!(parse_hint(b"1 2"), Ok((1, 2)));
    assert_eq!(parse_hint(b"0 0\n"), Ok((0, 0)));
    assert_eq!(parse_hint(b"  3\t4 \r\n"), Ok((3, 4)));
    assert_eq!(parse_hint(b"255 0"), Ok((255, 0)));
    assert_eq!(parse_hint(b"007 +5"), Ok((7, 5)));
    assert_eq!(parse_hint(b"+0 +255"), Ok((0, 255)));
    assert_eq!(parse_hint(b"1 2 3"), Ok((1, 2)));
    assert_eq!(parse_hint(b"1 2 x"), Ok((1, 2)));
    assert_eq!(parse_hint(b"1\x0b2\x0c"), Ok((1, 2)));
    assert_eq!(parse_hint(b"0000000000000000000012 9"), Ok((12, 9)));
}

#[test]
fn parse_hint_agrees_with_the_standard_parser() {
    let lines: [&str; 14] = [
        "1 2", " 10   20 ", "+1 +2", "-1 2", "1 -2", "256 1", "1 256", "1", "", "   ", "a b",
        "1a 2", "++1 2", "99999999999999999999 1",
    ];
    for line in lines {
        let fields: Vec<&str> = line.split_whitespace().collect();
        let expected = if fields.len() < 2 {
            None
        } else {
            match (fields[0].parse::<u8>(), fields[1].parse::<u8>()) {
                (Ok(hit), Ok(blow)) => Some((hit, blow)),
                _ => None,
            }
        };
        assert_eq!(parse_hint(line.as_bytes()).ok(), expected);
    }
}

#[test]
fn parse_hint_names_the_fault() {
    assert_eq!(parse_hint(b""), Err(HintInputError::MissingHit));
    assert_eq!(parse_hint(b" \t\n"), Err(HintInputError::MissingHit));
    assert_eq!(parse_hint(b"3"), Err(HintInputError::MissingBlow));
    assert_eq!(parse_hint(b" 3 \n"), Err(HintInputError::MissingBlow));
    assert_eq!(parse_hint(b"x 1"), Err(HintInputError::BadHit));
    assert_eq!(parse_hint(b"256 1"), Err(HintInputError::BadHit));
    assert_eq!(parse_hint(b"+ 1"), Err(HintInputError::BadHit));
    assert_eq!(parse_hint(b"-1 1"), Err(HintInputError::BadHit));
    assert_eq!(parse_hint(b"1+ 1"), Err(HintInputError::BadHit));
    assert_eq!(parse_hint(b"x y"), Err(HintInputError::BadHit));
    assert_eq!(parse_hint(b"1 y"), Err(HintInputError::BadBlow));
    assert_eq!(parse_hint(b"1 300"), Err(HintInputError::BadBlow));
    assert_eq!(parse_hint(b"1 2,3"), Err(HintInputError::BadBlow));
    assert_eq!(parse_hint(b"1 2560"), Err(HintInputError::BadBlow));
}

#[test]
fn benchmark_sweep_runs_the_fixed_sizes() {
    let base = Context {
        color_num: 9,
        pin_num: 9,
        duplicate: false,
        policy: Policy::Firstpick,
        mode: Mode::Benchmark,
    };
    let contexts = benchmark_contexts(&base);
    let sizes: Vec<(u8, u8)> =
        contexts.iter().map(|context| (context.color_num, context.pin_num)).collect();
    assert_eq!(sizes, vec![(2, 2), (4, 2), (4, 4), (6, 2), (6, 4)]);
    for context in &contexts {
        assert!(!context.duplicate);
        assert_eq!(context.policy, Policy::Firstpick);
        assert_eq!(context.mode, Mode::Benchmark);
    }
    assert_eq!(BENCHMARK_RUNS, 10);
}
