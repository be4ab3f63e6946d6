use playground_example::bracket::check_bracket_size;
use playground_example::decimal::decimal_string;
use playground_example::greeting::greeting;
use playground_example::params::{
    bracket_seed, match_seed, pairing_seed, simulation_count, DEFAULT_MATCH_SEED,
    DEFAULT_SIMS,
};

#[test]
fn simulation_count_defaults_and_clamps() {
    assert_eq!(simulation_count(None), DEFAULT_SIMS);
    assert_eq!(simulation_count(None), 50_000);
    assert_eq!(simulation_count(Some(10)), 1_000);
    assert_eq!(simulation_count(Some(0)), 1_000);
    assert_eq!(simulation_count(Some(4_000)), 4_000);
    assert_eq!(simulation_count(Some(1_000)), 1_000);
    assert_eq!(simulation_count(Some(500_000)), 500_000);
    assert_eq!(simulation_count(Some(600_000)), 500_000);
}

#[test]
fn seeds_follow_the_mixing_rules() {
    assert_eq!(match_seed(Some(42)), 42);
    assert_eq!(match_seed(None), DEFAULT_MATCH_SEED);
    assert_eq!(match_seed(None), 0x60A1_D16E_2026_0609);
    assert_eq!(pairing_seed(7, 3, 5), 7 ^ (3u64 << 20) ^ 5);
    assert_eq!(pairing_seed(0, 1, 0), 1 << 20);
    assert_eq!(pairing_seed(0x100000, 1, 0), 0);
    assert_eq!(bracket_seed(0), 0xC0FFEE);
    assert_eq!(bracket_seed(0xC0FFEE), 0);
}

#[test]
fn greeting_plain_and_excited() {
    assert_eq!(greeting("Ada", false), "Hello, Ada.");
    assert_eq!(greeting("Ada", true), "Hello, Ada!");
    assert_eq!(greeting("", false), "Hello, .");
}

#[test]
fn decimal_string_matches_display() {
    for n in [0usize, 7, 9, 10, 11, 99, 100, 305, 4096, 123_456_789, usize::MAX] {
        assert_eq!(decimal_string(n), n.to_string());
    }
}

#[test]
fn bracket_size_accepts_powers_of_two() {
    for t in [2usize, 4, 8, 16, 32, 64, 1 << 20] {
        assert_eq!(check_bracket_size(t), Ok(()));
    }
}

#[test]
fn bracket_size_refuses_other_counts() {
    for t in [0usize, 1, 3, 5, 6, 7, 12, 48, 100] {
        assert_eq!(
            check_bracket_size(t),
            Err(format!(
                "[goal-digger] tournament needs a power-of-two team count, got {t}"
            ))
        );
    }
}
