use xkpasswd::bit_flags::{from_flag, union, WordTransform};
use xkpasswd::prelude::{PaddingStrategy, Randomizer};
use xkpasswd::settings::Settings;

const DEFAULT_WORDS_COUNT: u8 = 3;
const DEFAULT_WORD_LENGTHS: (u8, u8) = (4, 10);
const DEFAULT_WORD_TRANSFORMS: u8 = 0b00000101;
const DEFAULT_SEPARATORS: &str = ".-_~";
const DEFAULT_SYMBOLS: &str = "~@$%^&*-_+=:|?/.;";
const DEFAULT_PADDING_LENGTH: u8 = 2;
const MIN_WORD_LENGTH: u8 = 4;
const MAX_WORD_LENGTH: u8 = 10;

#[test]
fn test_default_settings() {
    let settings = Settings::default();

    assert_eq!(DEFAULT_WORDS_COUNT, settings.words_count());
    assert_eq!(DEFAULT_WORD_LENGTHS, settings.word_length_bounds());
    assert_eq!(DEFAULT_WORD_TRANSFORMS, settings.word_transforms());
    assert_eq!(DEFAULT_SEPARATORS, settings.separators());
    assert_eq!((0, DEFAULT_PADDING_LENGTH), settings.padding_digits());
    assert_eq!(DEFAULT_SYMBOLS, settings.padding_symbols());
    assert_eq!((0, DEFAULT_PADDING_LENGTH), settings.padding_symbol_lengths());
    assert!(matches!(settings.padding_strategy(), PaddingStrategy::Fixed));
}

#[test]
fn test_with_words_count() {
    let _err: Result<Settings, String> =
        Err("only positive integer is allowed for words count".to_string());

    // invalid value
    assert!(matches!(Settings::default().with_words_count(0), _err));
    assert_eq!(
        "only positive integer is allowed for words count",
        Settings::default().with_words_count(0).unwrap_err()
    );

    let settings = Settings::default().with_words_count(1).unwrap();
    // only words_count updated
    assert_eq!(1, settings.words_count());

    // other fields remain unchanged
    assert_eq!(DEFAULT_WORD_LENGTHS, settings.word_length_bounds());
    assert_eq!(DEFAULT_WORD_TRANSFORMS, settings.word_transforms());
    assert_eq!(DEFAULT_SEPARATORS, settings.separators());
    assert_eq!((0, DEFAULT_PADDING_LENGTH), settings.padding_digits());
    assert_eq!(DEFAULT_SYMBOLS, settings.padding_symbols());
    assert_eq!((0, DEFAULT_PADDING_LENGTH), settings.padding_symbol_lengths());
    assert!(matches!(settings.padding_strategy(), PaddingStrategy::Fixed));

    // overriding with multiple calls
    let other_settings = settings.with_words_count(123).unwrap();
    assert_eq!(123, other_settings.words_count());
}

#[test]
fn test_with_word_lengths() {
    // invalid lengths
    let result =
        Settings::default().with_word_lengths(Some(MIN_WORD_LENGTH - 1), Some(MAX_WORD_LENGTH + 1));
    assert_eq!("min word length must be 4 or higher", result.unwrap_err());

    // max word length has lower priority
    let result =
        Settings::default().with_word_lengths(Some(MIN_WORD_LENGTH), Some(MAX_WORD_LENGTH + 1));
    assert_eq!("max word length must be 10 or lower", result.unwrap_err());

    let settings = Settings::default().with_word_lengths(Some(4), Some(6)).unwrap();
    // only word_lengths updated
    assert_eq!((4, 6), settings.word_length_bounds());

    // other fields remain unchanged
    assert_eq!(DEFAULT_WORDS_COUNT, settings.words_count());
    assert_eq!(DEFAULT_WORD_TRANSFORMS, settings.word_transforms());
    assert_eq!(DEFAULT_SEPARATORS, settings.separators());
    assert_eq!(DEFAULT_SYMBOLS, settings.padding_symbols());
    assert_eq!((0, DEFAULT_PADDING_LENGTH), settings.padding_symbol_lengths());
    assert!(matches!(settings.padding_strategy(), PaddingStrategy::Fixed));

    // overriding with multiple calls
    let other_settings = settings.with_word_lengths(Some(5), Some(5)).unwrap();
    assert_eq!((5, 5), other_settings.word_length_bounds()); // equal values

    let other_settings = settings.with_word_lengths(Some(6), Some(4)).unwrap();
    assert_eq!((4, 6), other_settings.word_length_bounds()); // min/max corrected

    // with None values
    let settings = Settings::default().with_word_lengths(Some(4), Some(7)).unwrap();

    let other_settings = settings.with_word_lengths(None, Some(5)).unwrap();
    assert_eq!((4, 5), other_settings.word_length_bounds());

    let other_settings = settings.with_word_lengths(Some(8), None).unwrap();
    assert_eq!((7, 8), other_settings.word_length_bounds());
}

#[test]
fn test_with_separators() {
    let settings = Settings::default().with_separators("abc123");
    // only separators updated
    assert_eq!("abc123", settings.separators());

    // other fields remain unchanged
    assert_eq!(DEFAULT_WORDS_COUNT, settings.words_count());
    assert_eq!(DEFAULT_WORD_LENGTHS, settings.word_length_bounds());
    assert_eq!(DEFAULT_WORD_TRANSFORMS, settings.word_transforms());
    assert_eq!((0, DEFAULT_PADDING_LENGTH), settings.padding_digits());
    assert_eq!(DEFAULT_SYMBOLS, settings.padding_symbols());
    assert_eq!((0, DEFAULT_PADDING_LENGTH), settings.padding_symbol_lengths());
    assert!(matches!(settings.padding_strategy(), PaddingStrategy::Fixed));

    // overriding with multiple calls
    let other_settings = settings.with_separators("");
    assert_eq!("", other_settings.separators());
}

#[test]
fn test_with_padding_digits() {
    let settings = Settings::default().with_padding_digits(Some(1), Some(3));
    // only padding_digits updated
    assert_eq!((1, 3), settings.padding_digits());

    // other fields remain unchanged
    assert_eq!(DEFAULT_WORDS_COUNT, settings.words_count());
    assert_eq!(DEFAULT_WORD_LENGTHS, settings.word_length_bounds());
    assert_eq!(DEFAULT_WORD_TRANSFORMS, settings.word_transforms());
    assert_eq!(DEFAULT_SEPARATORS, settings.separators());
    assert_eq!(DEFAULT_SYMBOLS, settings.padding_symbols());
    assert_eq!((0, DEFAULT_PADDING_LENGTH), settings.padding_symbol_lengths());
    assert!(matches!(settings.padding_strategy(), PaddingStrategy::Fixed));

    // overriding with multiple calls
    let other_settings = settings.with_padding_digits(Some(0), Some(0));
    assert_eq!((0, 0), other_settings.padding_digits());

    // with None values
    let settings = Settings::default().with_padding_digits(Some(2), Some(4));

    let other_settings = settings.with_padding_digits(None, Some(5));
    assert_eq!((2, 5), other_settings.padding_digits());

    let other_settings = settings.with_padding_digits(Some(8), None);
    assert_eq!((8, 4), other_settings.padding_digits());
}

#[test]
fn test_with_padding_symbols() {
    let settings = Settings::default().with_padding_symbols("456xyz");
    // only padding_symbols updated
    assert_eq!("456xyz", settings.padding_symbols());

    // other fields remain unchanged
    assert_eq!(DEFAULT_WORDS_COUNT, settings.words_count());
    assert_eq!(DEFAULT_WORD_LENGTHS, settings.word_length_bounds());
    assert_eq!(DEFAULT_WORD_TRANSFORMS, settings.word_transforms());
    assert_eq!(DEFAULT_SEPARATORS, settings.separators());
    assert_eq!((0, DEFAULT_PADDING_LENGTH), settings.padding_digits());
    assert_eq!((0, DEFAULT_PADDING_LENGTH), settings.padding_symbol_lengths());
    assert!(matches!(settings.padding_strategy(), PaddingStrategy::Fixed));

    // overriding with multiple calls
    let other_settings = settings.with_padding_symbols("def789");
    assert_eq!("def789", other_settings.padding_symbols());
}

#[test]
fn test_with_padding_symbol_lengths() {
    let settings = Settings::default()
        .with_padding_strategy(PaddingStrategy::Adaptive(12))
        .unwrap()
        .with_padding_symbol_lengths(Some(3), Some(4));

    // only padding_symbol_lengths and padding_strategy updated
    assert_eq!((3, 4), settings.padding_symbol_lengths());
    assert!(matches!(settings.padding_strategy(), PaddingStrategy::Fixed));

    // other fields remain unchanged
    assert_eq!(DEFAULT_WORDS_COUNT, settings.words_count());
    assert_eq!(DEFAULT_WORD_LENGTHS, settings.word_length_bounds());
    assert_eq!(DEFAULT_WORD_TRANSFORMS, settings.word_transforms());
    assert_eq!(DEFAULT_SEPARATORS, settings.separators());
    assert_eq!((0, DEFAULT_PADDING_LENGTH), settings.padding_digits());
    assert_eq!(DEFAULT_SYMBOLS, settings.padding_symbols());

    // however, if the symbol lengths are both None, don't touch padding_strategy
    let settings = Settings::default()
        .with_padding_strategy(PaddingStrategy::Adaptive(12))
        .unwrap()
        .with_padding_symbol_lengths(None, None);

    assert_eq!((0, 0), settings.padding_symbol_lengths());
    assert!(matches!(settings.padding_strategy(), PaddingStrategy::Adaptive(12)));

    // overriding with multiple calls
    let other_settings = settings.with_padding_symbol_lengths(Some(0), Some(0));
    assert_eq!((0, 0), other_settings.padding_symbol_lengths());

    // with None values
    let settings = Settings::default().with_padding_symbol_lengths(Some(2), Some(4));

    let other_settings = settings.with_padding_symbol_lengths(None, Some(5));
    assert_eq!((2, 5), other_settings.padding_symbol_lengths());

    let other_settings = settings.with_padding_symbol_lengths(Some(8), None);
    assert_eq!((8, 4), other_settings.padding_symbol_lengths());
}

#[test]
fn test_with_padding_strategy() {
    // invalid adaptive padding
    let result = Settings::default().with_padding_strategy(PaddingStrategy::Adaptive(0));
    assert_eq!("invalid adaptive padding number", result.unwrap_err());

    let settings = Settings::default()
        .with_padding_symbol_lengths(Some(2), Some(3))
        .with_padding_strategy(PaddingStrategy::Fixed)
        .unwrap();
    // only padding_strategy updated
    assert!(matches!(settings.padding_strategy(), PaddingStrategy::Fixed));
    assert_eq!((2, 3), settings.padding_symbol_lengths());

    let settings = Settings::default()
        .with_padding_strategy(PaddingStrategy::Adaptive(16))
        .unwrap();
    // both padding_strategy and padding_symbol_lengths updated
    assert!(matches!(settings.padding_strategy(), PaddingStrategy::Adaptive(16)));
    assert_eq!((0, 0), settings.padding_symbol_lengths());

    // other fields remain unchanged
    assert_eq!(DEFAULT_WORDS_COUNT, settings.words_count());
    assert_eq!(DEFAULT_WORD_LENGTHS, settings.word_length_bounds());
    assert_eq!(DEFAULT_WORD_TRANSFORMS, settings.word_transforms());
    assert_eq!(DEFAULT_SEPARATORS, settings.separators());
    assert_eq!((0, DEFAULT_PADDING_LENGTH), settings.padding_digits());
    assert_eq!(DEFAULT_SYMBOLS, settings.padding_symbols());

    // overriding
    let other_settings = settings
        .with_padding_strategy(PaddingStrategy::Adaptive(32))
        .unwrap();
    assert!(matches!(other_settings.padding_strategy(), PaddingStrategy::Adaptive(32)));

    let other_settings = settings.with_padding_strategy(PaddingStrategy::Fixed).unwrap();
    assert!(matches!(other_settings.padding_strategy(), PaddingStrategy::Fixed));
}

#[test]
fn test_with_word_transforms_single() {
    // invalid transform
    let table = [0b00010000, 0b00100000];

    for transform in table {
        match Settings::default().with_word_transforms(transform) {
            Ok(_) => panic!("unexpected result"),
            Err(msg) => assert_eq!("invalid transform", msg),
        }
    }

    let settings = Settings::default()
        .with_word_transforms(from_flag(WordTransform::Lowercase))
        .unwrap();

    // only words_transform updated
    assert_eq!(from_flag(WordTransform::Lowercase), settings.word_transforms());

    // other fields remain unchanged
    assert_eq!(DEFAULT_WORDS_COUNT, settings.words_count());
    assert_eq!(DEFAULT_WORD_LENGTHS, settings.word_length_bounds());
    assert_eq!(DEFAULT_SEPARATORS, settings.separators());
    assert_eq!((0, DEFAULT_PADDING_LENGTH), settings.padding_digits());
    assert_eq!(DEFAULT_SYMBOLS, settings.padding_symbols());
    assert_eq!((0, DEFAULT_PADDING_LENGTH), settings.padding_symbol_lengths());
    assert!(matches!(settings.padding_strategy(), PaddingStrategy::Fixed));

    for flag in [
        WordTransform::Titlecase,
        WordTransform::Uppercase,
        WordTransform::InversedTitlecase,
    ] {
        let transform = from_flag(flag);
        let other_settings = settings.with_word_transforms(transform).unwrap();
        assert_eq!(transform, other_settings.word_transforms());
    }
}

#[test]
fn test_with_word_transforms_group() {
    for group_flag in [
        WordTransform::AltercaseLowerFirst,
        WordTransform::AltercaseUpperFirst,
    ] {
        for single_flag in [
            WordTransform::Lowercase,
            WordTransform::Titlecase,
            WordTransform::Uppercase,
            WordTransform::InversedTitlecase,
        ] {
            let settings = Settings::default()
                .with_word_transforms(union(from_flag(group_flag), single_flag))
                .unwrap();
            // only words_transform updated
            assert_eq!(from_flag(group_flag), settings.word_transforms());
        }
    }
}

#[test]
fn test_get_word_lengths() {
    let table = [((4, 6), 4..7u8), ((5, 5), 5..6u8), ((6, 10), 6..11u8)];

    for ((min, max), expected_lengths) in table {
        let settings = Settings::default().with_word_lengths(Some(min), Some(max)).unwrap();
        assert_eq!(expected_lengths, settings.word_lengths());
    }
}
