use std::ops::Range;
use xkpasswd::prelude::{
    load_dict, Dict, Entropy, PaddingResult, PaddingStrategy, Preset, Randomizer, Xkpasswd,
};
use xkpasswd::settings::{Settings, SettingsView};

struct MockSettings {
    padding_digits: (usize, usize),
    padding_symbols: (usize, usize),
    padding_result: PaddingResult,
}

impl Randomizer for MockSettings {
    fn profile(&self) -> SettingsView {
        panic!("the mock has no configuration; this is never called at run time")
    }

    fn word_lengths(&self) -> Range<u8> {
        3..4
    }

    fn rand_words(&self, _: &[&str]) -> Vec<String> {
        vec!["foo".to_string(), "bar".to_string(), "baz".to_string()]
    }

    fn rand_separator(&self) -> String {
        ".".to_string()
    }

    fn rand_prefix(&self) -> (String, String) {
        let prefix_symbols = &"?????"[..self.padding_symbols.0];
        let prefix_digits = &"12345"[..self.padding_digits.0];
        (prefix_symbols.to_string(), prefix_digits.to_string())
    }

    fn rand_suffix(&self) -> (String, String) {
        let suffix_symbols = &"!!!!!!"[..self.padding_symbols.1];
        let suffix_digits = &"67890"[..self.padding_digits.1];
        (suffix_digits.to_string(), suffix_symbols.to_string())
    }

    fn adjust_padding(&self, _: usize) -> PaddingResult {
        match &self.padding_result {
            PaddingResult::Unchanged => PaddingResult::Unchanged,
            PaddingResult::TrimTo(len) => PaddingResult::TrimTo(*len),
            PaddingResult::Pad(str) => PaddingResult::Pad(str.clone()),
        }
    }

    fn calc_entropy(&self, _: usize) -> Entropy {
        Entropy::default()
    }
}

#[test]
fn test_load_dict_blank() {
    let dict = load_dict(&[]).unwrap();
    assert!(dict.is_empty());

    let dict_bytes = "".as_bytes();
    let dict = load_dict(dict_bytes).unwrap();
    assert!(dict.is_empty());
}

#[test]
fn test_load_dict_valid_data() {
    let table = [
        "2:an,do\n3:foo,bar",
        r#"
        2:an,do
        3:foo,bar
        "#,
    ];

    for dict_str in table {
        let dict_bytes = dict_str.as_bytes();
        let dict = load_dict(dict_bytes).unwrap();

        assert_eq!(2, dict.len());
        assert_eq!(
            vec!["an".to_string(), "do".to_string()],
            *dict.get(2).unwrap()
        );
        assert_eq!(
            vec!["foo".to_string(), "bar".to_string()],
            *dict.get(3).unwrap()
        );
        assert!(dict.get(4).is_none());
    }
}

#[test]
#[should_panic]
fn test_load_dict_invalid_data() {
    let dict_bytes = "foo:3".as_bytes();
    load_dict(dict_bytes).unwrap();
}

#[test]
fn test_xkpasswd_gen_pass() {
    let pass = Xkpasswd::new(Dict::new());
    let table = [
        (
            "foo.bar.baz",
            MockSettings {
                padding_digits: (0, 0),
                padding_symbols: (0, 0),
                padding_result: PaddingResult::Unchanged,
            },
        ),
        (
            "foo.bar.baz.67!!",
            MockSettings {
                padding_digits: (0, 2),
                padding_symbols: (0, 2),
                padding_result: PaddingResult::Unchanged,
            },
        ),
        (
            "??12.foo.bar.baz",
            MockSettings {
                padding_digits: (2, 0),
                padding_symbols: (2, 0),
                padding_result: PaddingResult::Unchanged,
            },
        ),
        (
            "?1.foo.bar.baz.67!!",
            MockSettings {
                padding_digits: (1, 2),
                padding_symbols: (1, 2),
                padding_result: PaddingResult::Unchanged,
            },
        ),
        (
            "??foo.bar.baz.67!!",
            MockSettings {
                padding_digits: (0, 2),
                padding_symbols: (2, 2),
                padding_result: PaddingResult::Unchanged,
            },
        ),
        (
            "?1.foo.bar.baz!!",
            MockSettings {
                padding_digits: (1, 0),
                padding_symbols: (1, 2),
                padding_result: PaddingResult::Unchanged,
            },
        ),
        (
            "?????12345.foo.bar.baz",
            MockSettings {
                padding_digits: (5, 5),
                padding_symbols: (5, 5),
                padding_result: PaddingResult::TrimTo(22),
            },
        ),
        (
            "??12.foo.bar.baz$$$$$",
            MockSettings {
                padding_digits: (2, 0),
                padding_symbols: (2, 0),
                padding_result: PaddingResult::Pad("$$$$$".to_string()),
            },
        ),
    ];

    for (expected, settings) in table {
        let (passwd, _) = pass.gen_pass(&settings);
        assert_eq!(expected, passwd);
    }
}

fn sample_dict() -> Dict {
    let data = "4:alfa,bray,cusp,dorm\n5:eagle,fjord,gumbo\n6:hollow,indigo\n7:jackdaw\n8:keelhaul";
    load_dict(data.as_bytes()).unwrap()
}

#[test]
fn test_gen_pass_wifi_length() {
    // an adaptive target always comes out at exactly that many characters
    let pass = Xkpasswd::new(sample_dict());
    let settings = Settings::from_preset(Preset::Wifi);
    for _ in 0..20 {
        let (passwd, _) = pass.gen_pass(&settings);
        assert_eq!(63, passwd.chars().count());
    }
}

#[test]
fn test_gen_pass_fixed_structure() {
    let pass = Xkpasswd::new(sample_dict());
    let settings = Settings::default()
        .with_words_count(3)
        .unwrap()
        .with_separators(".")
        .with_padding_digits(Some(0), Some(0))
        .with_padding_symbol_lengths(Some(0), Some(0));
    for _ in 0..20 {
        let (passwd, entropy) = pass.gen_pass(&settings);
        // three words joined by the one separator
        assert_eq!(3, passwd.split('.').count());
        assert!(entropy.blind_min <= entropy.blind_max);
    }
}

#[test]
fn test_from_preset_pure() {
    // the same preset always yields the same configuration
    for preset in [
        Preset::Default,
        Preset::AppleID,
        Preset::WindowsNtlmV1,
        Preset::SecurityQuestions,
        Preset::Web16,
        Preset::Web32,
        Preset::Wifi,
        Preset::Xkcd,
    ] {
        assert_eq!(Settings::from_preset(preset), Settings::from_preset(preset));
    }
}

#[test]
fn test_preset_values() {
    let wifi = Settings::from_preset(Preset::Wifi);
    assert_eq!(6, wifi.words_count());
    assert_eq!((4, 8), wifi.word_length_bounds());
    assert_eq!(0b00000101, wifi.word_transforms());
    assert_eq!("-+=.*_|~,", wifi.separators());
    assert_eq!((4, 4), wifi.padding_digits());
    assert_eq!("!@$%^&*+=:|~?", wifi.padding_symbols());
    assert_eq!((0, 0), wifi.padding_symbol_lengths());
    assert!(matches!(wifi.padding_strategy(), PaddingStrategy::Adaptive(63)));

    let ntlm = Settings::from_preset(Preset::WindowsNtlmV1);
    assert_eq!(2, ntlm.words_count());
    assert_eq!((5, 5), ntlm.word_length_bounds());
    assert_eq!(0b00001000, ntlm.word_transforms());
    assert_eq!("-+=.*_|~,", ntlm.separators());
    assert_eq!((1, 0), ntlm.padding_digits());
    assert_eq!("!@$%^&*+=:|~?", ntlm.padding_symbols());
    assert_eq!((0, 1), ntlm.padding_symbol_lengths());
    assert!(matches!(ntlm.padding_strategy(), PaddingStrategy::Fixed));

    let default = Settings::from_preset(Preset::Default);
    assert_eq!(Settings::default(), default);
}

#[test]
fn test_padding_symbol_lengths_noop_keeps_settings() {
    // passing no lengths changes nothing, the padding strategy included
    let settings = Settings::from_preset(Preset::Wifi);
    let unchanged = settings.with_padding_symbol_lengths(None, None);
    assert_eq!(settings, unchanged);

    let settings = Settings::default().with_padding_digits(Some(3), Some(4));
    let unchanged = settings.with_padding_symbol_lengths(None, None);
    assert_eq!(settings, unchanged);
}

#[test]
fn test_word_lengths_always_ordered() {
    // whatever the input order, the stored pair is ordered
    for (a, b) in [(9, 4), (4, 9), (10, 4), (7, 7)] {
        let settings = Settings::default().with_word_lengths(Some(a), Some(b)).unwrap();
        let (min, max) = settings.word_length_bounds();
        assert!(min <= max);
    }
}

#[test]
fn test_rand_digits_parses() {
    // a digit block of any requested size reads back as a number
    for count in [1u8, 5, 19, 20] {
        let digits = xkpasswd::settings::rand_digits(count);
        assert_eq!(count as usize, digits.len());
        let _ = digits.parse::<u64>().unwrap();
        assert!(!digits.starts_with('0'));
    }
}

#[test]
fn test_load_dict_repeated_key() {
    // a later line with the same length replaces the earlier word list
    let dict = load_dict("3:foo,bar\n3:baz".as_bytes()).unwrap();
    assert_eq!(1, dict.len());
    assert_eq!(vec!["baz".to_string()], *dict.get(3).unwrap());
}

#[test]
fn test_gen_pass_adaptive_without_symbols() {
    // with no symbols to pad with, a short passphrase stays short
    let dict = load_dict("4:alfa".as_bytes()).unwrap();
    let pass = Xkpasswd::new(dict);
    let settings = Settings::default()
        .with_words_count(1)
        .unwrap()
        .with_word_lengths(Some(4), Some(4))
        .unwrap()
        .with_word_transforms(xkpasswd::bit_flags::from_flag(
            xkpasswd::bit_flags::WordTransform::Lowercase,
        ))
        .unwrap()
        .with_padding_digits(Some(0), Some(0))
        .with_padding_symbols("")
        .with_padding_strategy(PaddingStrategy::Adaptive(40))
        .unwrap();
    let (passwd, _) = pass.gen_pass(&settings);
    assert_eq!("alfa", passwd);
}

#[test]
fn test_gen_pass_empty_dictionary() {
    // an empty dictionary degenerates to an empty word selection
    let pass = Xkpasswd::new(Dict::new());
    let settings = Settings::default()
        .with_padding_digits(Some(0), Some(0))
        .with_padding_symbol_lengths(Some(0), Some(0));
    let (passwd, entropy) = pass.gen_pass(&settings);
    assert_eq!("", passwd);
    assert_eq!(0, entropy.seen);
}
