use xkpasswd::bit_flags::WordTransform;
use xkpasswd::cli::{Cli, CliPadding};
use xkpasswd::prelude::{PaddingStrategy, Preset};
use xkpasswd::settings::Settings;

#[test]
#[should_panic]
fn test_build_settings_panic() {
    let cli = Cli {
        words_count: Some(0),
        ..Cli::unset()
    };
    let _: Settings = cli.build_settings().unwrap();
}

#[test]
fn test_build_settings_default() {
    let settings: Settings = Cli::unset().build_settings().unwrap();
    assert_eq!(Settings::default(), settings);
}

#[test]
fn test_build_settings_from_preset() {
    let presets = [
        Preset::Default,
        Preset::AppleID,
        Preset::WindowsNtlmV1,
        Preset::SecurityQuestions,
        Preset::Web16,
        Preset::Web32,
        Preset::Wifi,
        Preset::Xkcd,
    ];

    for preset in presets {
        let cli = Cli {
            preset: Some(preset),
            ..Cli::unset()
        };

        let settings: Settings = cli.build_settings().unwrap();
        assert_eq!(Settings::from_preset(preset), settings);
    }
}

#[test]
fn test_build_settings_custom() {
    let cli = Cli {
        words_count: Some(5),
        word_length_min: Some(5),
        word_length_max: Some(6),
        word_transforms: Some(vec![
            WordTransform::Lowercase,
            WordTransform::InversedTitlecase,
        ]),
        separators: Some("~@#".to_string()),
        padding_digits_before: Some(1),
        padding_digits_after: Some(3),
        padding_symbols: Some("$%^".to_string()),
        padding_symbols_before: Some(3),
        padding_symbols_after: Some(1),
        padding: Some(CliPadding::Adaptive),
        adaptive_length: Some(17),
        ..Cli::unset()
    };

    let expected_settings = Settings::default()
        .with_words_count(5)
        .unwrap()
        .with_word_lengths(Some(5), Some(6))
        .unwrap()
        .with_word_transforms(
            xkpasswd::bit_flags::union(
                xkpasswd::bit_flags::from_flag(WordTransform::Lowercase),
                WordTransform::InversedTitlecase,
            ),
        )
        .unwrap()
        .with_separators("~@#")
        .with_padding_digits(Some(1), Some(3))
        .with_padding_symbols("$%^")
        .with_padding_symbol_lengths(Some(3), Some(1))
        .with_padding_strategy(PaddingStrategy::Adaptive(17))
        .unwrap();

    assert_eq!(expected_settings, cli.build_settings().unwrap());
}

#[test]
fn test_build_settings_adaptive_needs_length() {
    let cli = Cli {
        padding: Some(CliPadding::Adaptive),
        ..Cli::unset()
    };
    assert_eq!(
        "adaptive length is required for adaptive padding strategy",
        cli.build_settings().unwrap_err()
    );
}
