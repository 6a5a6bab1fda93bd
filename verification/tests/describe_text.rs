use xkpasswd::prelude::{GuessTime, Preset, Randomizer};
use xkpasswd::settings::Settings;

#[test]
fn test_guess_time_text() {
    let t = GuessTime { years: 1_000_000_001, months: 0, days: 0 };
    assert_eq!("more than a billion years", t.to_text());

    let t = GuessTime { years: 1_000_001, months: 0, days: 0 };
    assert_eq!("more than a million years", t.to_text());

    let t = GuessTime { years: 1001, months: 0, days: 0 };
    assert_eq!("more than a thousand years", t.to_text());

    let t = GuessTime { years: 0, months: 0, days: 0 };
    assert_eq!("less than a day", t.to_text());

    let t = GuessTime { years: 34, months: 10, days: 15 };
    assert_eq!("34 years 10 months 15 days", t.to_text());

    let t = GuessTime { years: 0, months: 0, days: 24 };
    assert_eq!("24 days", t.to_text());
}

#[test]
fn test_entropy_text() {
    let entropy = Settings::from_preset(Preset::Web16).calc_entropy(1113);
    assert_eq!(
        "102 bits blind and 40 bits with full knowledge, which takes computers \
         34 years 10 months 15 days to break at 1000 guesses/sec",
        entropy.to_text()
    );
}

#[test]
fn test_settings_description() {
    let description = Settings::default().description();
    assert_eq!(
        "\n - 3 word(s)\n - from 4 to 10 chars\n - mixed of lowercase & UPPERCASE\
         \n - a separator from \u{27ea}.-_~\u{27eb}\n - 2 digit(s) after\
         \n - 2 symbol(s) after from \u{27ea}~@$%^&*-_+=:|?/.;\u{27eb}\n - and no extra padding",
        description
    );

    let description = Settings::from_preset(Preset::WindowsNtlmV1).description();
    assert_eq!(
        "\n - 2 word(s)\n - only 5 chars\n - iNVERSED tITLECASE only\
         \n - a separator from \u{27ea}-+=.*_|~,\u{27eb}\n - 1 digit(s) before\
         \n - 1 symbol(s) after from \u{27ea}!@$%^&*+=:|~?\u{27eb}\n - and no extra padding",
        description
    );
}
