use std::collections::HashSet;
use xkpasswd::bit_flags::{from_flag, union, WordTransform};
use xkpasswd::prelude::{PaddingResult, PaddingStrategy, Randomizer};
use xkpasswd::settings::{rand_chars, rand_digits, transform_word, Settings};

const DEFAULT_SYMBOLS: &str = "~@$%^&*-_+=:|?/.;";

#[test]
fn test_rand_words() {
    let settings = Settings::default()
        .with_words_count(3)
        .unwrap()
        .with_word_transforms(from_flag(WordTransform::Uppercase))
        .unwrap();

    // empty pool
    assert!(settings.rand_words(&vec![] as &Vec<&str>).is_empty());

    // not enough pool
    let words = settings.rand_words(&["foo", "bar"]);
    assert_eq!(3, words.len());

    // enough pool
    let words = settings.rand_words(&["foo", "bar", "barz"]);
    assert_eq!(3, words.len());
    assert_eq!(
        HashSet::from([&"FOO".to_string(), &"BAR".to_string(), &"BARZ".to_string()]),
        words.iter().collect::<HashSet<&String>>()
    );
}

#[test]
fn test_rand_prefix() {
    let empty_cases = [
        ((0, 0), (0, 0)),
        ((0, 1), (0, 0)),
        ((0, 0), (0, 2)),
        ((0, 3), (0, 4)),
    ];

    for ((prefix_digits, suffix_digits), (prefix_symbols, suffix_symbols)) in empty_cases {
        let settings = Settings::default()
            .with_padding_digits(Some(prefix_digits), Some(suffix_digits))
            .with_padding_symbol_lengths(Some(prefix_symbols), Some(suffix_symbols));
        let (symbols, digits) = settings.rand_prefix();
        assert_eq!("", symbols);
        assert_eq!("", digits);
    }

    for prefix_symbols in 1usize..10 {
        for prefix_digits in 1usize..10 {
            let settings = Settings::default()
                .with_padding_digits(Some(prefix_digits as u8), Some(2))
                .with_padding_symbols("#")
                .with_padding_symbol_lengths(Some(prefix_symbols as u8), Some(3));
            let (symbols, digits) = settings.rand_prefix();

            // total length of prefix
            assert_eq!(prefix_symbols, symbols.len());
            assert_eq!(prefix_digits, digits.len());

            // first part is the repeated symbol
            assert_eq!("#".to_string().repeat(prefix_symbols), symbols);

            // second part is the stringified digits
            let _ = digits.parse::<u64>().unwrap();
        }
    }
}

#[test]
fn test_rand_suffix() {
    let empty_cases = [
        ((0, 0), (0, 0)),
        ((1, 0), (0, 0)),
        ((0, 0), (2, 0)),
        ((3, 0), (4, 0)),
    ];

    for ((prefix_digits, suffix_digits), (prefix_symbols, suffix_symbols)) in empty_cases {
        let settings = Settings::default()
            .with_padding_digits(Some(prefix_digits), Some(suffix_digits))
            .with_padding_symbol_lengths(Some(prefix_symbols), Some(suffix_symbols));
        let (digits, symbols) = settings.rand_suffix();
        assert_eq!("", digits);
        assert_eq!("", symbols);
    }

    for suffix_symbols in 1usize..10 {
        for suffix_digits in 1usize..10 {
            let settings = Settings::default()
                .with_padding_digits(Some(2), Some(suffix_digits as u8))
                .with_padding_symbols("~")
                .with_padding_symbol_lengths(Some(3), Some(suffix_symbols as u8));
            let (digits, symbols) = settings.rand_suffix();

            // total length of suffix
            assert_eq!(suffix_digits, digits.len());
            assert_eq!(suffix_symbols, symbols.len());

            // first part is the stringified digits
            let _ = digits.parse::<u64>().unwrap();

            // second part is repeated symbols
            assert_eq!("~".to_string().repeat(suffix_symbols), symbols);
        }
    }
}

#[test]
fn test_adjust_padding() {
    let pass_length = 12;

    // fixed padding
    let settings = Settings::default().with_padding_strategy(PaddingStrategy::Fixed).unwrap();
    assert!(matches!(settings.adjust_padding(pass_length), PaddingResult::Unchanged));

    // adaptive padding: add symbols
    let settings = Settings::default()
        .with_padding_symbols("@")
        .with_padding_strategy(PaddingStrategy::Adaptive(15))
        .unwrap();
    match settings.adjust_padding(pass_length) {
        PaddingResult::Pad(padded_symbols) => assert_eq!("@@@", padded_symbols),
        _ => panic!("invalid padding result"),
    }

    // adaptive padding: cut length
    let settings = Settings::default()
        .with_padding_strategy(PaddingStrategy::Adaptive(10))
        .unwrap();
    assert!(matches!(settings.adjust_padding(pass_length), PaddingResult::TrimTo(10)));
}

#[test]
fn test_build_words_list() {
    let settings = Settings::default().with_words_count(3).unwrap();

    // empty pool
    assert!(settings.build_words_list(&vec![] as &Vec<&str>).is_empty());

    // pool size smaller than words count
    let pool = &["foo", "bar"];

    for _ in 0..10 {
        let words = settings.build_words_list(pool);
        assert_eq!(3, words.len());

        let unique_words: HashSet<String> = words.iter().map(|word| word.to_lowercase()).collect();
        assert!(unique_words.len() < 3);
    }

    // enough pool
    let pool = &["foo", "bar", "fooz", "barz"];

    for _ in 0..10 {
        let words = settings.build_words_list(pool);
        assert_eq!(3, words.len());

        let unique_words: HashSet<String> = words.iter().map(|word| word.to_lowercase()).collect();
        assert_eq!(3, unique_words.len());
    }
}

#[test]
fn test_build_transforms_list() {
    let all_transforms = union(
        union(
            union(from_flag(WordTransform::Lowercase), WordTransform::Titlecase),
            WordTransform::Uppercase,
        ),
        WordTransform::InversedTitlecase,
    );

    let settings = Settings::default()
        .with_words_count(3)
        .unwrap()
        .with_word_transforms(all_transforms)
        .unwrap();

    let transforms_list = settings.build_transforms_list();
    assert_eq!(3, transforms_list.len());

    let table = [
        (
            WordTransform::AltercaseLowerFirst,
            vec![
                WordTransform::Lowercase,
                WordTransform::Uppercase,
                WordTransform::Lowercase,
            ],
        ),
        (
            WordTransform::AltercaseUpperFirst,
            vec![
                WordTransform::Uppercase,
                WordTransform::Lowercase,
                WordTransform::Uppercase,
            ],
        ),
    ];

    for (group_transform, expected) in table {
        let settings = Settings::default()
            .with_words_count(3)
            .unwrap()
            .with_word_transforms(union(all_transforms, group_transform))
            .unwrap();
        let transforms_list = settings.build_transforms_list();
        assert_eq!(expected, transforms_list);
    }
}

#[test]
fn test_rand_digits() {
    assert_eq!("", rand_digits(0));

    for count in 1..21 {
        for _ in 0..100 {
            let digits = rand_digits(count);
            assert_eq!(count as usize, digits.len());
        }
    }

    for count in 21..100 {
        for _ in 0..100 {
            let digits = rand_digits(count);
            assert_eq!(20, digits.len());
        }
    }
}

#[test]
fn test_rand_chars() {
    assert_eq!("".to_string(), rand_chars("", 1));

    // single char randomize
    for _ in 0..10 {
        let result = rand_chars(DEFAULT_SYMBOLS, 1);
        assert!(DEFAULT_SYMBOLS.contains(&result));
    }

    // multi char randomize
    for _ in 0..10 {
        for count in 2..5 {
            let result = rand_chars(DEFAULT_SYMBOLS, count);
            assert_eq!(count, result.len());
            assert_eq!(
                result.chars().nth(0).unwrap().to_string().repeat(count),
                result
            );
        }
    }
}

#[test]
fn test_transform_word() {
    let table = [
        (
            WordTransform::Lowercase,
            [
                ("foo", "foo"),
                ("Bar", "bar"),
                ("1Fooz", "1fooz"),
                ("123", "123"),
            ],
        ),
        (
            WordTransform::Titlecase,
            [
                ("foo", "Foo"),
                ("Bar", "Bar"),
                ("1Fooz", "1Fooz"),
                ("123", "123"),
            ],
        ),
        (
            WordTransform::Uppercase,
            [
                ("foo", "FOO"),
                ("Bar", "BAR"),
                ("1Fooz", "1FOOZ"),
                ("123", "123"),
            ],
        ),
        (
            WordTransform::InversedTitlecase,
            [
                ("foo", "fOO"),
                ("Bar", "bAR"),
                ("1Fooz", "1FOOZ"),
                ("123", "123"),
            ],
        ),
    ];

    for (transform, cases) in table {
        for (word, expected) in cases {
            assert_eq!(expected, transform_word(word, transform));
        }
    }
}
