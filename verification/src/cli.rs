//! Building a configuration out of command-line and config-file options:
//! plain optional values, merged over a preset or the defaults.

use vstd::prelude::*;

use crate::bit_flags::{spec_flag, spec_has_flag, union, FieldSize, WordTransform};
use crate::prelude::{PaddingStrategy, Preset};
use crate::settings::{
    spec_default_settings, spec_preset, spec_resolved_lengths, Settings, SettingsView,
    MAX_WORD_LENGTH, MIN_WORD_LENGTH,
};

verus! {

/// The padding strategies a caller can name.
#[derive(Clone, Copy, Debug)]
pub enum CliPadding {
    Fixed,
    Adaptive,
}

/// Why a configuration file could not be used: it is absent and may be
/// ignored, unreadable or unparsable as a whole, or one field holds an
/// unusable value.
#[derive(Debug)]
pub enum ConfigParseError {
    Ignore,
    InvalidFile(String),
    InvalidConfig(String, String),
}

/// Filling unset options from a configuration file.
pub trait ConfigParser {
    fn parse_config_file(&mut self) -> Result<(), ConfigParseError>;
}

/// The collected options: every field unset falls back to the preset or to
/// the defaults.
pub struct Cli {
    pub words_count: Option<u8>,
    pub word_length_min: Option<u8>,
    pub word_length_max: Option<u8>,
    pub word_transforms: Option<Vec<WordTransform>>,
    pub separators: Option<String>,
    pub padding_digits_before: Option<u8>,
    pub padding_digits_after: Option<u8>,
    pub padding_symbols: Option<String>,
    pub padding_symbols_before: Option<u8>,
    pub padding_symbols_after: Option<u8>,
    pub padding: Option<CliPadding>,
    pub adaptive_length: Option<usize>,
    pub preset: Option<Preset>,
    pub verbosity: u8,
    pub config_file: Option<String>,
}

/// The union of the transforms' flags.
pub open spec fn spec_mask_of(ts: Seq<WordTransform>) -> FieldSize
    decreases ts.len(),
{
    if ts.len() == 0 {
        0
    } else {
        spec_mask_of(ts.drop_last()) | spec_flag(ts.last())
    }
}

/// The configuration the options build, step by step: word lengths, digit
/// and symbol padding, word count, transforms, separators, symbols, and
/// the padding strategy, each applied only when set.
pub open spec fn spec_built_view(c: Cli) -> SettingsView {
    let base = match c.preset {
        Some(p) => spec_preset(p),
        None => spec_default_settings(),
    };
    let v1 = SettingsView {
        word_lengths: spec_resolved_lengths(base, c.word_length_min, c.word_length_max),
        ..base
    };
    let v2 = if c.padding_digits_before is None && c.padding_digits_after is None {
        v1
    } else {
        SettingsView {
            padding_digits: (
                match c.padding_digits_before {
                    Some(p) => p,
                    None => v1.padding_digits.0,
                },
                match c.padding_digits_after {
                    Some(p) => p,
                    None => v1.padding_digits.1,
                },
            ),
            ..v1
        }
    };
    let v3 = if c.padding_symbols_before is None && c.padding_symbols_after is None {
        v2
    } else {
        SettingsView {
            padding_symbol_lengths: (
                match c.padding_symbols_before {
                    Some(p) => p,
                    None => v2.padding_symbol_lengths.0,
                },
                match c.padding_symbols_after {
                    Some(p) => p,
                    None => v2.padding_symbol_lengths.1,
                },
            ),
            padding_strategy: PaddingStrategy::Fixed,
            ..v2
        }
    };
    let v4 = match c.words_count {
        Some(n) => SettingsView { words_count: n, ..v3 },
        None => v3,
    };
    let v5 = match c.word_transforms {
        Some(ts) => SettingsView { word_transforms: spec_resolved_mask(spec_mask_of(ts@)), ..v4 },
        None => v4,
    };
    let v6 = match c.separators {
        Some(s) => SettingsView { separators: s@, ..v5 },
        None => v5,
    };
    let v7 = match c.padding_symbols {
        Some(s) => SettingsView { padding_symbols: s@, ..v6 },
        None => v6,
    };
    match c.padding {
        Some(CliPadding::Fixed) => SettingsView { padding_strategy: PaddingStrategy::Fixed, ..v7 },
        Some(CliPadding::Adaptive) => SettingsView {
            padding_strategy: PaddingStrategy::Adaptive(
                match c.adaptive_length {
                    Some(l) => l,
                    None => 0,
                },
            ),
            padding_symbol_lengths: (0u8, 0u8),
            ..v7
        },
        None => v7,
    }
}

/// The mask a combined transform request resolves to: a group flag stands
/// alone, the lower-first one winning when both are present.
pub open spec fn spec_resolved_mask(m: FieldSize) -> FieldSize {
    if spec_has_flag(m, WordTransform::AltercaseLowerFirst) {
        0x40
    } else if spec_has_flag(m, WordTransform::AltercaseUpperFirst) {
        0x80
    } else {
        m
    }
}

/// Whether every set option passes its validation.
pub open spec fn spec_build_ok(c: Cli) -> bool {
    let base = match c.preset {
        Some(p) => spec_preset(p),
        None => spec_default_settings(),
    };
    let lohi = spec_resolved_lengths(base, c.word_length_min, c.word_length_max);
    &&& MIN_WORD_LENGTH <= lohi.0
    &&& lohi.1 <= MAX_WORD_LENGTH
    &&& (c.words_count matches Some(n) ==> n >= 1)
    &&& (c.word_transforms matches Some(ts) ==> (spec_mask_of(ts@) & 0xcf != 0))
    &&& (c.padding matches Some(p) ==> (p is Adaptive ==> (c.adaptive_length matches Some(l)
        && l >= 1)))
}

/// The first value when it is set, the second otherwise: command-line
/// options take precedence over configuration-file values.
pub fn merge_option<T>(primary: Option<T>, fallback: Option<T>) -> (r: Option<T>)
    ensures
        primary is Some ==> r == primary,
        primary is None ==> r == fallback,
{
    match primary {
        Some(v) => Some(v),
        None => fallback,
    }
}

impl Cli {
    /// Options with nothing set: the defaults stand as they are.
    pub fn unset() -> (r: Self)
        ensures
            r.words_count is None,
            r.word_length_min is None,
            r.word_length_max is None,
            r.word_transforms is None,
            r.separators is None,
            r.padding_digits_before is None,
            r.padding_digits_after is None,
            r.padding_symbols is None,
            r.padding_symbols_before is None,
            r.padding_symbols_after is None,
            r.padding is None,
            r.adaptive_length is None,
            r.preset is None,
            r.verbosity == 0,
            r.config_file is None,
    {
        Cli {
            words_count: None,
            word_length_min: None,
            word_length_max: None,
            word_transforms: None,
            separators: None,
            padding_digits_before: None,
            padding_digits_after: None,
            padding_symbols: None,
            padding_symbols_before: None,
            padding_symbols_after: None,
            padding: None,
            adaptive_length: None,
            preset: None,
            verbosity: 0,
            config_file: None,
        }
    }

    /// The configuration the options describe, built over the preset or the
    /// defaults. Succeeds exactly when every set option passes validation;
    /// a failed step reports its error and builds nothing.
    pub fn build_settings(&self) -> (r: Result<Settings, String>)
        ensures
            r is Ok <==> spec_build_ok(*self),
            r matches Ok(s) ==> s@ == spec_built_view(*self),
            r matches Ok(s) ==> s@.wf(),
            ({
                let base = match self.preset {
                    Some(p) => spec_preset(p),
                    None => spec_default_settings(),
                };
                let lohi = spec_resolved_lengths(base, self.word_length_min, self.word_length_max);
                let lengths_ok = MIN_WORD_LENGTH <= lohi.0 && lohi.1 <= MAX_WORD_LENGTH;
                let count_ok = self.words_count matches Some(n) ==> n >= 1;
                let transforms_ok = self.word_transforms matches Some(ts) ==> spec_mask_of(ts@)
                    & 0xcf != 0;
                &&& (lohi.0 < MIN_WORD_LENGTH ==> (r matches Err(e) && e@
                    == "min word length must be 4 or higher"@))
                &&& (lohi.0 >= MIN_WORD_LENGTH && lohi.1 > MAX_WORD_LENGTH ==> (r matches Err(e)
                    && e@ == "max word length must be 10 or lower"@))
                &&& (lengths_ok && self.words_count == Some(0u8) ==> (r matches Err(e) && e@
                    == "only positive integer is allowed for words count"@))
                &&& (lengths_ok && count_ok && !transforms_ok ==> (r matches Err(e) && e@
                    == "invalid transform"@))
                &&& (lengths_ok && count_ok && transforms_ok && self.padding == Some(
                    CliPadding::Adaptive,
                ) && self.adaptive_length is None ==> (r matches Err(e) && e@
                    == "adaptive length is required for adaptive padding strategy"@))
                &&& (lengths_ok && count_ok && transforms_ok && self.padding == Some(
                    CliPadding::Adaptive,
                ) && self.adaptive_length == Some(0usize) ==> (r matches Err(e) && e@
                    == "invalid adaptive padding number"@))
            }),
    {
        let mut settings = match self.preset {
            Some(preset) => Settings::from_preset(preset),
            None => Settings::default(),
        };

        settings = match settings.with_word_lengths(self.word_length_min, self.word_length_max) {
            Ok(s) => s,
            Err(e) => {
                return Err(e);
            },
        };
        settings = settings.with_padding_digits(
            self.padding_digits_before,
            self.padding_digits_after,
        );
        settings = settings.with_padding_symbol_lengths(
            self.padding_symbols_before,
            self.padding_symbols_after,
        );

        if let Some(words_count) = self.words_count {
            settings = match settings.with_words_count(words_count) {
                Ok(s) => s,
                Err(e) => {
                    return Err(e);
                },
            };
        }

        match &self.word_transforms {
            Some(word_transforms) => {
                let mut transforms: FieldSize = 0;
                let mut i: usize = 0;
                while i < word_transforms.len()
                    invariant
                        i <= word_transforms@.len(),
                        transforms == spec_mask_of(word_transforms@.take(i as int)),
                    decreases word_transforms@.len() - i,
                {
                    proof {
                        assert(word_transforms@.take(i + 1).drop_last() =~= word_transforms@.take(
                            i as int,
                        ));
                        assert(word_transforms@.take(i + 1).last() == word_transforms@[i as int]);
                    }
                    transforms = union(transforms, word_transforms[i]);
                    i = i + 1;
                }
                proof {
                    assert(word_transforms@.take(word_transforms@.len() as int)
                        =~= word_transforms@);
                }
                settings = match settings.with_word_transforms(transforms) {
                    Ok(s) => s,
                    Err(e) => {
                        proof {
                            lemma_resolved_mask_cases(transforms);
                        }
                        return Err(e);
                    },
                };
                proof {
                    lemma_resolved_mask_cases(transforms);
                }
            },
            None => {},
        }

        if let Some(separators) = &self.separators {
            settings = settings.with_separators(separators.as_str());
        }

        if let Some(padding_symbols) = &self.padding_symbols {
            settings = settings.with_padding_symbols(padding_symbols.as_str());
        }

        match &self.padding {
            Some(CliPadding::Fixed) => {
                settings = match settings.with_padding_strategy(PaddingStrategy::Fixed) {
                    Ok(s) => s,
                    Err(e) => {
                        return Err(e);
                    },
                };
            },
            Some(CliPadding::Adaptive) => {
                match self.adaptive_length {
                    Some(adaptive_length) => {
                        settings = match settings.with_padding_strategy(
                            PaddingStrategy::Adaptive(adaptive_length),
                        ) {
                            Ok(s) => s,
                            Err(e) => {
                                return Err(e);
                            },
                        };
                    },
                    None => {
                        return Err(
                            String::from_str(
                                "adaptive length is required for adaptive padding strategy",
                            ),
                        );
                    },
                }
            },
            None => {},
        }

        Ok(settings)
    }
}

/// How the stored mask of `with_word_transforms` relates to the request:
/// a set group bit collapses the mask to that group flag alone, and the
/// call succeeds exactly when some group or single bit is set.
proof fn lemma_resolved_mask_cases(m: FieldSize)
    ensures
        spec_has_flag(m, WordTransform::AltercaseLowerFirst) ==> spec_resolved_mask(m) == 0x40,
        (!spec_has_flag(m, WordTransform::AltercaseLowerFirst) && spec_has_flag(
            m,
            WordTransform::AltercaseUpperFirst,
        )) ==> spec_resolved_mask(m) == 0x80,
        (!spec_has_flag(m, WordTransform::AltercaseLowerFirst) && !spec_has_flag(
            m,
            WordTransform::AltercaseUpperFirst,
        )) ==> spec_resolved_mask(m) == m,
        (m & 0xcf != 0) <==> (m & 0x40 != 0 || m & 0x80 != 0 || m & 0x0f != 0),
        m & 0xc0 == 0 <==> (m & 0x40 == 0 && m & 0x80 == 0),
{
    assert((m & 0xcf != 0) <==> (m & 0x40 != 0 || m & 0x80 != 0 || m & 0x0f != 0)) by (bit_vector);
    assert(m & 0xc0 == 0 <==> (m & 0x40 == 0 && m & 0x80 == 0)) by (bit_vector);
}

} // verus!
