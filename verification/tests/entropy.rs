use xkpasswd::prelude::{Entropy, GuessTime, Preset, Randomizer};
use xkpasswd::settings::Settings;

#[test]
fn test_calc_entropy() {
    let table = [
        ((Preset::AppleID, 4351), (164, 203, 57), (1_000_001, 0, 0)),
        ((Preset::WindowsNtlmV1, 1380), (92, 92, 31), (0, 0, 24)),
        (
            (Preset::SecurityQuestions, 6631),
            (176, 316, 78),
            (1_000_000_001, 0, 0),
        ),
        ((Preset::Web16, 1113), (102, 102, 40), (34, 10, 15)),
        ((Preset::Web32, 2493), (177, 203, 65), (1_000_000_001, 0, 0)),
        ((Preset::Wifi, 6631), (413, 413, 116), (1_000_000_001, 0, 0)),
        ((Preset::Xkcd, 6631), (121, 224, 55), (1_000_001, 0, 0)),
    ];

    for ((preset, pool_size), (blind_min, blind_max, seen), (years, months, days)) in table {
        let guess_time = GuessTime {
            years,
            months,
            days,
        };
        let expected = Entropy {
            blind_max,
            blind_min,
            seen,
            guess_time,
        };
        let entropy = Settings::from_preset(preset).calc_entropy(pool_size);
        assert_eq!(expected, entropy);
    }
}

#[test]
fn test_for_entropy_buckets() {
    assert_eq!(
        GuessTime { years: 1_000_000_001, months: 0, days: 0 },
        GuessTime::for_entropy(65)
    );
    assert_eq!(
        GuessTime { years: 1_000_001, months: 0, days: 0 },
        GuessTime::for_entropy(55)
    );
    assert_eq!(GuessTime { years: 1001, months: 0, days: 0 }, GuessTime::for_entropy(45));
}

#[test]
fn test_for_entropy_exact_days() {
    // 2^31 guesses at 1000 guesses/sec come to 24 whole days
    assert_eq!(GuessTime { years: 0, months: 0, days: 24 }, GuessTime::for_entropy(31));
    // 2^40 guesses come to 34 years, 10 months of thirty days, and 15 days
    assert_eq!(GuessTime { years: 34, months: 10, days: 15 }, GuessTime::for_entropy(40));
    // a tiny amount stays below one day
    assert_eq!(GuessTime { years: 0, months: 0, days: 0 }, GuessTime::for_entropy(0));
}

#[test]
fn test_entropy_zero_pool() {
    let entropy = Settings::default().calc_entropy(0);
    assert_eq!(0, entropy.seen);
}
