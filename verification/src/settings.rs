//! The immutable configuration value: validated builder-style mutators and
//! the named presets.
//!
//! Every mutator returns a fresh value and leaves the receiver untouched; a
//! failed call reports a configuration error and constructs nothing.

use vstd::prelude::*;

use crate::bit_flags::{spec_has_flag, FieldSize, WordTransform};
use crate::estimate::{
    log2_fixed16, scaled_round_sat, spec_log2_fixed16, spec_log2_floor,
};
use crate::prelude::{
    Entropy, GuessTime, PaddingResult, PaddingStrategy, Preset, Randomizer, spec_strs,
};
use crate::random::{rand_index, rand_u64_between};
use crate::text::{
    lemma_decimal_digits, lemma_decimal_leading, lemma_decimal_len, lemma_pow10_19,
    lemma_pow10_increases, lemma_pow10_pos, lower_of, pow10_u64, spec_decimal, spec_is_digit, spec_pow10,
    spec_views, to_lower, to_upper, u64_to_string, upper_of,
};
use vstd::arithmetic::div_mod::{lemma_div_is_ordered, lemma_div_multiples_vanish};
use vstd::arithmetic::mul::lemma_mul_inequality;

verus! {

/// Smallest word length a configuration may ask for.
pub const MIN_WORD_LENGTH: u8 = 4;

/// Largest word length a configuration may ask for.
pub const MAX_WORD_LENGTH: u8 = 10;

/// The generator's configuration. Immutable: the `with_` methods return an
/// updated copy, so a shared value can serve concurrent generation calls.
#[derive(Debug)]
pub struct Settings {
    words_count: u8,
    word_lengths: (u8, u8),
    word_transforms: FieldSize,
    separators: String,
    padding_digits: (u8, u8),
    padding_symbols: String,
    padding_symbol_lengths: (u8, u8),
    padding_strategy: PaddingStrategy,
}

/// Mathematical image of a `Settings` value: strings become character
/// sequences, everything else is carried as is.
pub struct SettingsView {
    pub words_count: u8,
    pub word_lengths: (u8, u8),
    pub word_transforms: FieldSize,
    pub separators: Seq<char>,
    pub padding_digits: (u8, u8),
    pub padding_symbols: Seq<char>,
    pub padding_symbol_lengths: (u8, u8),
    pub padding_strategy: PaddingStrategy,
}

impl View for Settings {
    type V = SettingsView;

    closed spec fn view(&self) -> SettingsView {
        SettingsView {
            words_count: self.words_count,
            word_lengths: self.word_lengths,
            word_transforms: self.word_transforms,
            separators: self.separators@,
            padding_digits: self.padding_digits,
            padding_symbols: self.padding_symbols@,
            padding_symbol_lengths: self.padding_symbol_lengths,
            padding_strategy: self.padding_strategy,
        }
    }
}

/// A stored transform mask is either exactly one group flag, or a non-empty
/// combination of single flags (possibly with stray unused bits, never with
/// a group bit).
pub open spec fn spec_valid_mask(mask: FieldSize) -> bool {
    ||| mask == 0x40
    ||| mask == 0x80
    ||| (mask & 0x0f != 0 && mask & 0xc0 == 0)
}

impl SettingsView {
    /// What every constructed `Settings` satisfies: a positive word count,
    /// normalized word lengths within the absolute bounds, a resolved
    /// transform mask, and a positive adaptive target.
    pub open spec fn wf(self) -> bool {
        &&& self.words_count >= 1
        &&& MIN_WORD_LENGTH <= self.word_lengths.0
        &&& self.word_lengths.0 <= self.word_lengths.1
        &&& self.word_lengths.1 <= MAX_WORD_LENGTH
        &&& spec_valid_mask(self.word_transforms)
        &&& (self.padding_strategy matches PaddingStrategy::Adaptive(t) ==> t >= 1)
    }
}

/// The configuration `Settings::default` returns.
pub open spec fn spec_default_settings() -> SettingsView {
    SettingsView {
        words_count: 3,
        word_lengths: (MIN_WORD_LENGTH, MAX_WORD_LENGTH),
        word_transforms: 0x05,
        separators: ".-_~"@,
        padding_digits: (0, 2),
        padding_symbols: "~@$%^&*-_+=:|?/.;"@,
        padding_symbol_lengths: (0, 2),
        padding_strategy: PaddingStrategy::Fixed,
    }
}

/// The configuration each preset stands for.
pub open spec fn spec_preset(preset: Preset) -> SettingsView {
    match preset {
        Preset::Default => spec_default_settings(),
        Preset::AppleID => SettingsView {
            words_count: 3,
            word_lengths: (5, 7),
            word_transforms: 0x05,
            separators: "-:.,"@,
            padding_digits: (2, 2),
            padding_symbols: "!?@&"@,
            padding_symbol_lengths: (1, 1),
            padding_strategy: PaddingStrategy::Fixed,
        },
        Preset::WindowsNtlmV1 => SettingsView {
            words_count: 2,
            word_lengths: (5, 5),
            word_transforms: 0x08,
            separators: "-+=.*_|~,"@,
            padding_digits: (1, 0),
            padding_symbols: "!@$%^&*+=:|~?"@,
            padding_symbol_lengths: (0, 1),
            padding_strategy: PaddingStrategy::Fixed,
        },
        Preset::SecurityQuestions => SettingsView {
            words_count: 6,
            word_lengths: (4, 8),
            word_transforms: 0x01,
            separators: " "@,
            padding_digits: (0, 0),
            padding_symbols: ".!?"@,
            padding_symbol_lengths: (0, 1),
            padding_strategy: PaddingStrategy::Fixed,
        },
        Preset::Web16 => SettingsView {
            words_count: 3,
            word_lengths: (4, 4),
            word_transforms: 0x05,
            separators: "-+=.*_|~,"@,
            padding_digits: (0, 0),
            padding_symbols: "!@$%^&*+=:|~?"@,
            padding_symbol_lengths: (1, 1),
            padding_strategy: PaddingStrategy::Fixed,
        },
        Preset::Web32 => SettingsView {
            words_count: 4,
            word_lengths: (4, 5),
            word_transforms: 0x80,
            separators: "-+=.*_|~,"@,
            padding_digits: (2, 2),
            padding_symbols: "!@$%^&*+=:|~?"@,
            padding_symbol_lengths: (1, 1),
            padding_strategy: PaddingStrategy::Fixed,
        },
        Preset::Wifi => SettingsView {
            words_count: 6,
            word_lengths: (4, 8),
            word_transforms: 0x05,
            separators: "-+=.*_|~,"@,
            padding_digits: (4, 4),
            padding_symbols: "!@$%^&*+=:|~?"@,
            padding_symbol_lengths: (0, 0),
            padding_strategy: PaddingStrategy::Adaptive(63),
        },
        Preset::Xkcd => SettingsView {
            words_count: 4,
            word_lengths: (4, 8),
            word_transforms: 0x05,
            separators: "-"@,
            padding_digits: (0, 0),
            padding_symbols: ""@,
            padding_symbol_lengths: (0, 0),
            padding_strategy: PaddingStrategy::Fixed,
        },
    }
}

/// The word-length pair a call of `with_word_lengths` resolves to:
/// unspecified sides default to the current values, then the pair is
/// normalized so the smaller value comes first.
pub open spec fn spec_resolved_lengths(
    v: SettingsView,
    min_length: Option<u8>,
    max_length: Option<u8>,
) -> (u8, u8) {
    let a = match min_length {
        Some(m) => m,
        None => v.word_lengths.0,
    };
    let b = match max_length {
        Some(m) => m,
        None => v.word_lengths.1,
    };
    if a <= b {
        (a, b)
    } else {
        (b, a)
    }
}

/// The masks stored by the default configuration and the presets are valid.
proof fn lemma_preset_masks_valid()
    ensures
        spec_valid_mask(0x01),
        spec_valid_mask(0x05),
        spec_valid_mask(0x08),
        spec_valid_mask(0x40),
        spec_valid_mask(0x80),
{
    assert(0x01u8 & 0x0f != 0 && 0x01u8 & 0xc0 == 0 && 0x05u8 & 0x0f != 0 && 0x05u8 & 0xc0 == 0
        && 0x08u8 & 0x0f != 0 && 0x08u8 & 0xc0 == 0) by (bit_vector);
}

impl Settings {
    /// The sensible default configuration.
    pub fn default() -> (r: Self)
        ensures
            r@ == spec_default_settings(),
            r@.wf(),
    {
        proof {
            lemma_preset_masks_valid();
        }
        let r = Settings {
            words_count: 3,
            word_lengths: (MIN_WORD_LENGTH, MAX_WORD_LENGTH),
            word_transforms: 0x05,
            separators: String::from_str(".-_~"),
            padding_digits: (0, 2),
            padding_symbols: String::from_str("~@$%^&*-_+=:|?/.;"),
            padding_symbol_lengths: (0, 2),
            padding_strategy: PaddingStrategy::Fixed,
        };
        proof {
            assert(r@ == spec_default_settings());
        }
        r
    }

    /// The fixed configuration of a preset. A pure function of the preset:
    /// two calls on the same preset yield equal values.
    pub fn from_preset(preset: Preset) -> (r: Self)
        ensures
            r@ == spec_preset(preset),
            r@.wf(),
    {
        proof {
            lemma_preset_masks_valid();
        }
        match preset {
            Preset::Default => Self::default(),
            Preset::AppleID => Settings {
                words_count: 3,
                word_lengths: (5, 7),
                word_transforms: 0x05,
                separators: String::from_str("-:.,"),
                padding_digits: (2, 2),
                padding_symbols: String::from_str("!?@&"),
                padding_symbol_lengths: (1, 1),
                padding_strategy: PaddingStrategy::Fixed,
            },
            Preset::WindowsNtlmV1 => Settings {
                words_count: 2,
                word_lengths: (5, 5),
                word_transforms: 0x08,
                separators: String::from_str("-+=.*_|~,"),
                padding_digits: (1, 0),
                padding_symbols: String::from_str("!@$%^&*+=:|~?"),
                padding_symbol_lengths: (0, 1),
                padding_strategy: PaddingStrategy::Fixed,
            },
            Preset::SecurityQuestions => Settings {
                words_count: 6,
                word_lengths: (4, 8),
                word_transforms: 0x01,
                separators: String::from_str(" "),
                padding_digits: (0, 0),
                padding_symbols: String::from_str(".!?"),
                padding_symbol_lengths: (0, 1),
                padding_strategy: PaddingStrategy::Fixed,
            },
            Preset::Web16 => Settings {
                words_count: 3,
                word_lengths: (4, 4),
                word_transforms: 0x05,
                separators: String::from_str("-+=.*_|~,"),
                padding_digits: (0, 0),
                padding_symbols: String::from_str("!@$%^&*+=:|~?"),
                padding_symbol_lengths: (1, 1),
                padding_strategy: PaddingStrategy::Fixed,
            },
            Preset::Web32 => Settings {
                words_count: 4,
                word_lengths: (4, 5),
                word_transforms: 0x80,
                separators: String::from_str("-+=.*_|~,"),
                padding_digits: (2, 2),
                padding_symbols: String::from_str("!@$%^&*+=:|~?"),
                padding_symbol_lengths: (1, 1),
                padding_strategy: PaddingStrategy::Fixed,
            },
            Preset::Wifi => Settings {
                words_count: 6,
                word_lengths: (4, 8),
                word_transforms: 0x05,
                separators: String::from_str("-+=.*_|~,"),
                padding_digits: (4, 4),
                padding_symbols: String::from_str("!@$%^&*+=:|~?"),
                padding_symbol_lengths: (0, 0),
                padding_strategy: PaddingStrategy::Adaptive(63),
            },
            Preset::Xkcd => Settings {
                words_count: 4,
                word_lengths: (4, 8),
                word_transforms: 0x05,
                separators: String::from_str("-"),
                padding_digits: (0, 0),
                padding_symbols: String::from_str(""),
                padding_symbol_lengths: (0, 0),
                padding_strategy: PaddingStrategy::Fixed,
            },
        }
    }

    /// Updated copy with the given word count; zero is rejected.
    pub fn with_words_count(&self, words_count: u8) -> (r: Result<Self, String>)
        ensures
            words_count == 0 <==> r is Err,
            r matches Err(e) ==> e@ == "only positive integer is allowed for words count"@,
            r matches Ok(s) ==> s@ == (SettingsView { words_count, ..self@ }),
            r matches Ok(s) ==> (self@.wf() ==> s@.wf()),
    {
        if words_count == 0 {
            return Err(String::from_str("only positive integer is allowed for words count"));
        }
        Ok(Settings { words_count, ..self.duplicate() })
    }

    /// Updated copy with the given word-length pair. An unspecified side
    /// keeps its current value; the pair is normalized so that min <= max;
    /// a pair outside the absolute bounds is rejected.
    pub fn with_word_lengths(&self, min_length: Option<u8>, max_length: Option<u8>) -> (r: Result<
        Self,
        String,
    >)
        ensures
            ({
                let lohi = spec_resolved_lengths(self@, min_length, max_length);
                &&& (lohi.0 < MIN_WORD_LENGTH ==> (r matches Err(e) && e@
                    == "min word length must be 4 or higher"@))
                &&& (lohi.0 >= MIN_WORD_LENGTH && lohi.1 > MAX_WORD_LENGTH ==> (r matches Err(e)
                    && e@ == "max word length must be 10 or lower"@))
                &&& (lohi.0 >= MIN_WORD_LENGTH && lohi.1 <= MAX_WORD_LENGTH ==> (r matches Ok(s)
                    && s@ == (SettingsView { word_lengths: lohi, ..self@ })))
            }),
            r matches Ok(s) ==> s@.word_lengths.0 <= s@.word_lengths.1,
            r matches Ok(s) ==> (self@.wf() ==> s@.wf()),
    {
        let min_length = match min_length {
            Some(m) => m,
            None => self.word_lengths.0,
        };
        let max_length = match max_length {
            Some(m) => m,
            None => self.word_lengths.1,
        };

        let min = if min_length <= max_length {
            min_length
        } else {
            max_length
        };
        let max = if min_length <= max_length {
            max_length
        } else {
            min_length
        };

        if min < MIN_WORD_LENGTH {
            return Err(String::from_str("min word length must be 4 or higher"));
        }

        if max > MAX_WORD_LENGTH {
            return Err(String::from_str("max word length must be 10 or lower"));
        }

        Ok(Settings { word_lengths: (min, max), ..self.duplicate() })
    }

    /// Updated copy with the given separator candidates; no validation.
    pub fn with_separators(&self, separators: &str) -> (r: Self)
        ensures
            r@ == (SettingsView { separators: separators@, ..self@ }),
            self@.wf() ==> r@.wf(),
    {
        Settings { separators: String::from_str(separators), ..self.duplicate() }
    }

    /// Updated copy with the given digit-padding counts. An unspecified
    /// side keeps its current value; nothing else changes.
    pub fn with_padding_digits(&self, prefix: Option<u8>, suffix: Option<u8>) -> (r: Self)
        ensures
            prefix is None && suffix is None ==> r@ == self@,
            r@ == (SettingsView {
                padding_digits: (
                    match prefix {
                        Some(p) => p,
                        None => self@.padding_digits.0,
                    },
                    match suffix {
                        Some(s) => s,
                        None => self@.padding_digits.1,
                    },
                ),
                ..self@
            }),
            self@.wf() ==> r@.wf(),
    {
        let p = match prefix {
            Some(p) => p,
            None => self.padding_digits.0,
        };
        let s = match suffix {
            Some(s) => s,
            None => self.padding_digits.1,
        };
        Settings { padding_digits: (p, s), ..self.duplicate() }
    }

    /// Updated copy with the given padding-symbol candidates; no validation.
    pub fn with_padding_symbols(&self, symbols: &str) -> (r: Self)
        ensures
            r@ == (SettingsView { padding_symbols: symbols@, ..self@ }),
            self@.wf() ==> r@.wf(),
    {
        Settings { padding_symbols: String::from_str(symbols), ..self.duplicate() }
    }

    /// Updated copy with the given symbol-padding lengths. With both sides
    /// unspecified the value is returned unchanged, padding strategy
    /// included; otherwise an unspecified side keeps its current value and
    /// the padding strategy is forced back to `Fixed`.
    pub fn with_padding_symbol_lengths(&self, prefix: Option<u8>, suffix: Option<u8>) -> (r: Self)
        ensures
            prefix is None && suffix is None ==> r@ == self@,
            !(prefix is None && suffix is None) ==> r@ == (SettingsView {
                padding_symbol_lengths: (
                    match prefix {
                        Some(p) => p,
                        None => self@.padding_symbol_lengths.0,
                    },
                    match suffix {
                        Some(s) => s,
                        None => self@.padding_symbol_lengths.1,
                    },
                ),
                padding_strategy: PaddingStrategy::Fixed,
                ..self@
            }),
            self@.wf() ==> r@.wf(),
    {
        if prefix.is_none() && suffix.is_none() {
            return self.duplicate();
        }

        let p = match prefix {
            Some(p) => p,
            None => self.padding_symbol_lengths.0,
        };
        let s = match suffix {
            Some(s) => s,
            None => self.padding_symbol_lengths.1,
        };
        Settings {
            padding_symbol_lengths: (p, s),
            padding_strategy: PaddingStrategy::Fixed,
            ..self.duplicate()
        }
    }

    /// Updated copy with the given padding strategy. An adaptive target of
    /// zero is rejected; a positive adaptive target zeroes the
    /// symbol-padding lengths; `Fixed` leaves them untouched.
    pub fn with_padding_strategy(&self, strategy: PaddingStrategy) -> (r: Result<Self, String>)
        ensures
            strategy == PaddingStrategy::Adaptive(0usize) <==> r is Err,
            r matches Err(e) ==> e@ == "invalid adaptive padding number"@,
            strategy matches PaddingStrategy::Adaptive(t) && t >= 1 ==> (r matches Ok(s) && s@
                == (SettingsView {
                padding_strategy: strategy,
                padding_symbol_lengths: (0u8, 0u8),
                ..self@
            })),
            strategy is Fixed ==> (r matches Ok(s) && s@ == (SettingsView {
                padding_strategy: strategy,
                ..self@
            })),
            r matches Ok(s) ==> (self@.wf() ==> s@.wf()),
    {
        match strategy {
            PaddingStrategy::Adaptive(t) => {
                if t == 0 {
                    Err(String::from_str("invalid adaptive padding number"))
                } else {
                    Ok(
                        Settings {
                            padding_strategy: strategy,
                            padding_symbol_lengths: (0, 0),
                            ..self.duplicate()
                        },
                    )
                }
            },
            PaddingStrategy::Fixed => {
                Ok(Settings { padding_strategy: strategy, ..self.duplicate() })
            },
        }
    }

    /// Updated copy with the given transform mask. A group flag overrides
    /// everything else and is stored alone, the lower-first one winning when
    /// both are set; otherwise the mask must hold at least one single flag
    /// or it is rejected.
    pub fn with_word_transforms(&self, transforms: FieldSize) -> (r: Result<Self, String>)
        ensures
            spec_has_flag(transforms, WordTransform::AltercaseLowerFirst) ==> (r matches Ok(s)
                && s@ == (SettingsView { word_transforms: 0x40u8, ..self@ })),
            !spec_has_flag(transforms, WordTransform::AltercaseLowerFirst) && spec_has_flag(
                transforms,
                WordTransform::AltercaseUpperFirst,
            ) ==> (r matches Ok(s) && s@ == (SettingsView { word_transforms: 0x80u8, ..self@ })),
            transforms & 0xcf == 0 <==> r is Err,
            r matches Err(e) ==> e@ == "invalid transform"@,
            transforms & 0xc0 == 0 && transforms & 0x0f != 0 ==> (r matches Ok(s) && s@
                == (SettingsView { word_transforms: transforms, ..self@ })),
            r matches Ok(s) ==> (self@.wf() ==> s@.wf()),
    {
        proof {
            assert(transforms & 0x40 != 0 ==> transforms & 0xc0 != 0 && transforms & 0xcf != 0)
                by (bit_vector);
            assert(transforms & 0x80 != 0 ==> transforms & 0xc0 != 0 && transforms & 0xcf != 0)
                by (bit_vector);
            assert(transforms & 0x40 == 0 && transforms & 0x80 == 0 ==> transforms & 0xc0 == 0)
                by (bit_vector);
            assert(transforms & 0x40 == 0 && transforms & 0x80 == 0 && transforms & 0x01 == 0
                && transforms & 0x02 == 0 && transforms & 0x04 == 0 && transforms & 0x08 == 0
                ==> transforms & 0xcf == 0 && transforms & 0x0f == 0) by (bit_vector);
            assert((transforms & 0x01 != 0 || transforms & 0x02 != 0 || transforms & 0x04 != 0
                || transforms & 0x08 != 0) ==> transforms & 0x0f != 0 && transforms & 0xcf != 0)
                by (bit_vector);
        }

        // group transforms override everything else
        if crate::bit_flags::has_flag(transforms, WordTransform::AltercaseLowerFirst) {
            return Ok(Settings { word_transforms: 0x40, ..self.duplicate() });
        }

        if crate::bit_flags::has_flag(transforms, WordTransform::AltercaseUpperFirst) {
            return Ok(Settings { word_transforms: 0x80, ..self.duplicate() });
        }

        // no transform matched
        if !crate::bit_flags::has_flag(transforms, WordTransform::Lowercase)
            && !crate::bit_flags::has_flag(transforms, WordTransform::Titlecase)
            && !crate::bit_flags::has_flag(transforms, WordTransform::Uppercase)
            && !crate::bit_flags::has_flag(transforms, WordTransform::InversedTitlecase) {
            return Err(String::from_str("invalid transform"));
        }

        proof {
            assert((transforms & 0x01 != 0 || transforms & 0x02 != 0 || transforms & 0x04 != 0
                || transforms & 0x08 != 0) ==> transforms & 0x0f != 0) by (bit_vector);
        }
        Ok(Settings { word_transforms: transforms, ..self.duplicate() })
    }

    /// A field-for-field copy.
    fn duplicate(&self) -> (r: Self)
        ensures
            r@ == self@,
    {
        Settings {
            words_count: self.words_count,
            word_lengths: self.word_lengths,
            word_transforms: self.word_transforms,
            separators: self.separators.clone(),
            padding_digits: self.padding_digits,
            padding_symbols: self.padding_symbols.clone(),
            padding_symbol_lengths: self.padding_symbol_lengths,
            padding_strategy: self.padding_strategy,
        }
    }

    /// The configured word count.
    pub fn words_count(&self) -> (r: u8)
        ensures
            r == self@.words_count,
    {
        self.words_count
    }

    /// The configured word-length pair (min, max).
    pub fn word_length_bounds(&self) -> (r: (u8, u8))
        ensures
            r == self@.word_lengths,
    {
        self.word_lengths
    }

    /// The stored transform mask.
    pub fn word_transforms(&self) -> (r: FieldSize)
        ensures
            r == self@.word_transforms,
    {
        self.word_transforms
    }

    /// The separator candidates.
    pub fn separators(&self) -> (r: &str)
        ensures
            r@ == self@.separators,
    {
        self.separators.as_str()
    }

    /// The digit-padding counts (prefix, suffix).
    pub fn padding_digits(&self) -> (r: (u8, u8))
        ensures
            r == self@.padding_digits,
    {
        self.padding_digits
    }

    /// The padding-symbol candidates.
    pub fn padding_symbols(&self) -> (r: &str)
        ensures
            r@ == self@.padding_symbols,
    {
        self.padding_symbols.as_str()
    }

    /// The symbol-padding lengths (prefix, suffix).
    pub fn padding_symbol_lengths(&self) -> (r: (u8, u8))
        ensures
            r == self@.padding_symbol_lengths,
    {
        self.padding_symbol_lengths
    }

    /// The configured padding strategy.
    pub fn padding_strategy(&self) -> (r: PaddingStrategy)
        ensures
            r == self@.padding_strategy,
    {
        self.padding_strategy
    }
}

/// The same character repeated `n` times.
pub open spec fn spec_repeated(c: char, n: int) -> Seq<char> {
    Seq::new(n as nat, |i: int| c)
}

/// What a padding-symbol string looks like: empty when the candidate pool
/// is empty, otherwise one pool character repeated `n` times.
pub open spec fn spec_symbol_block(s: Seq<char>, pool: Seq<char>, n: int) -> bool {
    if pool.len() == 0 {
        s.len() == 0
    } else {
        exists|j: int| 0 <= j < pool.len() && s == spec_repeated(pool[j], n)
    }
}

/// What a digit-padding string looks like: empty when no digits are asked
/// for, otherwise exactly the requested number of digits (capped at twenty),
/// the leading one non-zero.
pub open spec fn spec_digit_block(s: Seq<char>, count: int) -> bool {
    if count == 0 {
        s.len() == 0
    } else {
        &&& s.len() == (if count > 20 {
            20int
        } else {
            count
        })
        &&& (forall|i: int| 0 <= i < s.len() ==> spec_is_digit(#[trigger] s[i]))
        &&& s[0] != '0'
    }
}

/// The transform a stored mask may assign to the word at position `i`:
/// under a group mask the alternation is fully determined; otherwise any
/// single transform whose bit is set.
pub open spec fn spec_admissible_transform(mask: FieldSize, i: int, t: WordTransform) -> bool {
    if mask == 0x40 {
        t == (if i % 2 == 0 {
            WordTransform::Lowercase
        } else {
            WordTransform::Uppercase
        })
    } else if mask == 0x80 {
        t == (if i % 2 == 0 {
            WordTransform::Uppercase
        } else {
            WordTransform::Lowercase
        })
    } else {
        &&& (t is Lowercase || t is Titlecase || t is Uppercase || t is InversedTitlecase)
        &&& spec_has_flag(mask, t)
    }
}

/// The applied transform as a function on the word's characters. A word
/// keeps its own casing where the transform does not force one: titlecase
/// only uppercases the first character. An empty word stays empty.
pub open spec fn spec_transform_word(word: Seq<char>, t: WordTransform) -> Seq<char> {
    if word.len() == 0 {
        Seq::empty()
    } else {
        match t {
            WordTransform::Titlecase => upper_of(word.take(1)) + word.skip(1),
            WordTransform::Uppercase => upper_of(word),
            WordTransform::InversedTitlecase => lower_of(word.take(1)) + upper_of(word.skip(1)),
            _ => lower_of(word),
        }
    }
}

/// Words picked from a pool at the given positions.
pub open spec fn spec_picked(words: Seq<&str>, pool: Seq<&str>, idxs: Seq<int>) -> bool {
    &&& idxs.len() == words.len()
    &&& forall|i: int|
        0 <= i < idxs.len() ==> 0 <= #[trigger] idxs[i] < pool.len() && words[i] == pool[idxs[i]]
}

/// No position appears twice.
pub open spec fn spec_distinct(idxs: Seq<int>) -> bool {
    forall|i1: int, i2: int| 0 <= i1 < i2 < idxs.len() ==> #[trigger] idxs[i1] != #[trigger] idxs[i2]
}

/// Whether a digit string renders some number in the range the requested
/// count allows: at least ten to the capped count less one, and below ten
/// to the capped count, except that twenty-digit blocks stay below the
/// largest 64-bit value.
pub open spec fn spec_digit_value(r: Seq<char>, count: int) -> bool {
    let c = if count > 20 {
        20int
    } else {
        count
    };
    exists|n: nat|
        {
            &&& #[trigger] spec_decimal(n) == r
            &&& spec_pow10((c - 1) as nat) <= n
            &&& (if c < 20 {
                n < spec_pow10(c as nat)
            } else {
                n < 0xffff_ffff_ffff_ffff
            })
        }
}

/// An empty string when `count` is zero; otherwise the decimal rendering of
/// a number drawn uniformly among those with exactly `count` digits. Counts
/// beyond twenty degrade to a draw from the full 64-bit range.
pub fn rand_digits(count: u8) -> (r: String)
    ensures
        spec_digit_block(r@, count as int),
        count >= 1 ==> spec_digit_value(r@, count as int),
{
    if count == 0 {
        let r = String::new();
        return r;
    }
    let affordable: u32 = if count as u32 > 20 {
        20
    } else {
        count as u32
    };

    proof {
        lemma_pow10_19();
        lemma_pow10_increases((affordable - 1) as nat, 19);
        lemma_pow10_pos((affordable - 1) as nat);
        assert(spec_pow10(affordable as nat) == 10 * spec_pow10((affordable - 1) as nat));
    }
    let lower_bound = pow10_u64(affordable - 1);
    let upper_bound = if affordable < 20 {
        pow10_u64(affordable)
    } else {
        u64::MAX
    };

    let n = rand_u64_between(lower_bound, upper_bound);
    let r = u64_to_string(n);
    proof {
        lemma_decimal_len(n as nat, affordable as nat);
        lemma_decimal_digits(n as nat);
        lemma_decimal_leading(n as nat);
        assert(spec_decimal(n as nat) == r@);
        assert(spec_digit_value(r@, count as int));
    }
    r
}

/// An empty string when the pool is empty; otherwise one character drawn
/// uniformly from the pool and repeated `count` times.
pub fn rand_chars(pool: &str, count: usize) -> (r: String)
    ensures
        spec_symbol_block(r@, pool@, count as int),
{
    let pool_len = pool.unicode_len();
    if pool_len == 0 {
        let r = String::new();
        return r;
    }

    let idx = rand_index(pool_len);
    let ch = pool.substring_char(idx, idx + 1);
    let mut acc = String::new();
    let mut i: usize = 0;
    while i < count
        invariant
            i <= count,
            idx < pool@.len(),
            ch@ =~= pool@.subrange(idx as int, idx as int + 1),
            acc@ =~= spec_repeated(pool@[idx as int], i as int),
        decreases count - i,
    {
        acc.append(ch);
        proof {
            assert(acc@ =~= spec_repeated(pool@[idx as int], i + 1));
        }
        i = i + 1;
    }
    proof {
        assert(spec_symbol_block(acc@, pool@, count as int));
    }
    acc
}

/// The word under the given transform.
pub fn transform_word(word: &str, transform: WordTransform) -> (r: String)
    ensures
        r@ == spec_transform_word(word@, transform),
{
    if word.is_empty() {
        let r = String::new();
        proof {
            assert(r@ =~= spec_transform_word(word@, transform));
        }
        return r;
    }
    match transform {
        WordTransform::Titlecase => {
            let len = word.unicode_len();
            let first = word.substring_char(0, 1);
            let rest = word.substring_char(1, len);
            let r = to_upper(first).concat(rest);
            proof {
                assert(word@.subrange(0, 1) =~= word@.take(1));
                assert(word@.subrange(1, word@.len() as int) =~= word@.skip(1));
            }
            r
        },
        WordTransform::Uppercase => to_upper(word),
        WordTransform::InversedTitlecase => {
            let len = word.unicode_len();
            let first = word.substring_char(0, 1);
            let rest = word.substring_char(1, len);
            let r = to_lower(first).concat(to_upper(rest).as_str());
            proof {
                assert(word@.subrange(0, 1) =~= word@.take(1));
                assert(word@.subrange(1, word@.len() as int) =~= word@.skip(1));
            }
            r
        },
        _ => to_lower(word),
    }
}

impl Settings {
    /// One transform per word position. A group mask yields the strict
    /// alternation it names, starting at position zero; otherwise each
    /// position independently draws one of the mask's single transforms.
    pub fn build_transforms_list(&self) -> (r: Vec<WordTransform>)
        requires
            spec_valid_mask(self@.word_transforms),
        ensures
            r@.len() == self@.words_count as int,
            forall|i: int|
                0 <= i < r@.len() ==> spec_admissible_transform(
                    self@.word_transforms,
                    i,
                    #[trigger] r@[i],
                ),
    {
        let mask = self.word_transforms;
        proof {
            assert((mask == 0x40 || mask == 0x80 || (mask & 0x0f != 0 && mask & 0xc0 == 0))
                ==> ((mask & 0x40 != 0 ==> mask == 0x40) && (mask & 0x80 != 0 ==> mask == 0x80)))
                by (bit_vector);
            assert(mask & 0x0f != 0 ==> (mask & 0x01 != 0 || mask & 0x02 != 0 || mask & 0x04 != 0
                || mask & 0x08 != 0)) by (bit_vector);
            assert(mask == 0x40 ==> mask & 0x40 != 0) by (bit_vector);
            assert(mask == 0x80 ==> mask & 0x80 != 0 && mask & 0x40 == 0) by (bit_vector);
        }

        let count = self.words_count;

        if crate::bit_flags::has_flag(mask, WordTransform::AltercaseLowerFirst) {
            let mut r: Vec<WordTransform> = Vec::new();
            let mut i: u8 = 0;
            while i < count
                invariant
                    i <= count,
                    r@.len() == i as int,
                    forall|j: int|
                        0 <= j < r@.len() ==> #[trigger] r@[j] == (if j % 2 == 0 {
                            WordTransform::Lowercase
                        } else {
                            WordTransform::Uppercase
                        }),
                decreases count - i,
            {
                if i % 2 == 0 {
                    r.push(WordTransform::Lowercase);
                } else {
                    r.push(WordTransform::Uppercase);
                }
                i = i + 1;
            }
            return r;
        }

        if crate::bit_flags::has_flag(mask, WordTransform::AltercaseUpperFirst) {
            let mut r: Vec<WordTransform> = Vec::new();
            let mut i: u8 = 0;
            while i < count
                invariant
                    i <= count,
                    r@.len() == i as int,
                    forall|j: int|
                        0 <= j < r@.len() ==> #[trigger] r@[j] == (if j % 2 == 0 {
                            WordTransform::Uppercase
                        } else {
                            WordTransform::Lowercase
                        }),
                decreases count - i,
            {
                if i % 2 == 0 {
                    r.push(WordTransform::Uppercase);
                } else {
                    r.push(WordTransform::Lowercase);
                }
                i = i + 1;
            }
            return r;
        }

        let mut whitelist: Vec<WordTransform> = Vec::new();
        if crate::bit_flags::has_flag(mask, WordTransform::Lowercase) {
            whitelist.push(WordTransform::Lowercase);
        }
        if crate::bit_flags::has_flag(mask, WordTransform::Titlecase) {
            whitelist.push(WordTransform::Titlecase);
        }
        if crate::bit_flags::has_flag(mask, WordTransform::Uppercase) {
            whitelist.push(WordTransform::Uppercase);
        }
        if crate::bit_flags::has_flag(mask, WordTransform::InversedTitlecase) {
            whitelist.push(WordTransform::InversedTitlecase);
        }
        assert(whitelist@.len() >= 1);
        assert(forall|j: int|
            0 <= j < whitelist@.len() ==> spec_admissible_transform(
                mask,
                0,
                #[trigger] whitelist@[j],
            ));

        let mut r: Vec<WordTransform> = Vec::new();
        let mut i: u8 = 0;
        while i < count
            invariant
                i <= count,
                mask != 0x40 && mask != 0x80,
                r@.len() == i as int,
                whitelist@.len() >= 1,
                forall|j: int|
                    0 <= j < whitelist@.len() ==> spec_admissible_transform(
                        mask,
                        0,
                        #[trigger] whitelist@[j],
                    ),
                forall|j: int|
                    0 <= j < r@.len() ==> spec_admissible_transform(mask, j, #[trigger] r@[j]),
            decreases count - i,
        {
            let pick = rand_index(whitelist.len());
            r.push(whitelist[pick]);
            i = i + 1;
        }
        r
    }

    /// Positions of the words to draw from a pool of the given size: all
    /// below the pool size, mutually distinct whenever the pool has at
    /// least as many entries as the requested word count.
    fn sample_indices(&self, pool_len: usize) -> (r: Vec<usize>)
        requires
            pool_len >= 1,
        ensures
            r@.len() == self@.words_count as int,
            forall|i: int| 0 <= i < r@.len() ==> #[trigger] r@[i] < pool_len,
            pool_len >= self@.words_count as int ==> spec_distinct(
                r@.map_values(|u: usize| u as int),
            ),
    {
        let count = self.words_count;
        let mut out: Vec<usize> = Vec::new();

        // not enough words to distinguishably randomize
        if pool_len < count as usize {
            let mut i: u8 = 0;
            while i < count
                invariant
                    i <= count,
                    pool_len >= 1,
                    out@.len() == i as int,
                    forall|k: int| 0 <= k < out@.len() ==> #[trigger] out@[k] < pool_len,
                decreases count - i,
            {
                out.push(rand_index(pool_len));
                i = i + 1;
            }
            return out;
        }

        // enough words: each draw picks uniformly among the positions not
        // chosen yet, so no position can repeat
        let mut candidates: Vec<usize> = Vec::new();
        let mut j: usize = 0;
        while j < pool_len
            invariant
                j <= pool_len,
                candidates@.len() == j as int,
                forall|k: int| 0 <= k < candidates@.len() ==> #[trigger] candidates@[k] == k,
            decreases pool_len - j,
        {
            candidates.push(j);
            j = j + 1;
        }

        let mut i: u8 = 0;
        while i < count
            invariant
                i <= count,
                pool_len >= count as int,
                candidates@.len() == pool_len - i as int,
                out@.len() == i as int,
                forall|k: int| 0 <= k < candidates@.len() ==> #[trigger] candidates@[k] < pool_len,
                forall|k: int| 0 <= k < out@.len() ==> #[trigger] out@[k] < pool_len,
                forall|k1: int, k2: int|
                    0 <= k1 < out@.len() && 0 <= k2 < candidates@.len() ==> #[trigger] out@[k1]
                        != #[trigger] candidates@[k2],
                spec_distinct(out@.map_values(|u: usize| u as int)),
                spec_distinct(candidates@.map_values(|u: usize| u as int)),
            decreases count - i,
        {
            let ghost old_out = out@;
            let ghost old_c = candidates@;
            let pick = rand_index(candidates.len());
            let chosen = candidates.remove(pick);
            out.push(chosen);
            proof {
                old_c.remove_ensures(pick as int);
                assert(candidates@ == old_c.remove(pick as int));
                assert forall|k: int| 0 <= k < candidates@.len() implies exists|k0: int|
                    0 <= k0 < old_c.len() && k0 != pick && #[trigger] candidates@[k] == old_c[k0] by {
                    if k < pick {
                        assert(candidates@[k] == old_c[k]);
                    } else {
                        assert(candidates@[k] == old_c[k + 1]);
                    }
                }
                let old_cm = old_c.map_values(|u: usize| u as int);
                assert(forall|k: int| 0 <= k < old_cm.len() ==> old_cm[k] == old_c[k] as int);
                // the drawn position is no longer a candidate
                assert(forall|k: int| 0 <= k < candidates@.len() ==> candidates@[k] != chosen);
                assert(out@ == old_out.push(chosen));
                assert(forall|k1: int| 0 <= k1 < old_out.len() ==> old_out[k1] != chosen);
                let old_m = old_out.map_values(|u: usize| u as int);
                assert(forall|k: int| 0 <= k < old_m.len() ==> old_m[k] == old_out[k] as int);
                let m = out@.map_values(|u: usize| u as int);
                assert(forall|k: int| 0 <= k < m.len() ==> m[k] == out@[k] as int);
                let c = candidates@.map_values(|u: usize| u as int);
                assert(forall|k: int| 0 <= k < c.len() ==> c[k] == candidates@[k] as int);
                assert(spec_distinct(m));
                assert(spec_distinct(c));
            }
            i = i + 1;
        }
        out
    }

    /// Words drawn from the pool in selection order: `words_count` of them
    /// unless the pool is empty, distinct positions whenever the pool is
    /// large enough, repetitions allowed (and expected) otherwise.
    pub fn build_words_list<'a>(&self, pool: &[&'a str]) -> (r: Vec<&'a str>)
        ensures
            pool@.len() == 0 ==> r@.len() == 0,
            pool@.len() >= 1 ==> r@.len() == self@.words_count as int,
            exists|idxs: Seq<int>|
                #[trigger] spec_picked(r@, pool@, idxs) && (pool@.len()
                    >= self@.words_count as int ==> spec_distinct(idxs)),
    {
        let mut r: Vec<&'a str> = Vec::new();
        if pool.len() == 0 {
            proof {
                let idxs = Seq::<int>::empty();
                assert(spec_picked(r@, pool@, idxs) && (pool@.len() >= self@.words_count as int
                    ==> spec_distinct(idxs)));
            }
            return r;
        }

        let indices = self.sample_indices(pool.len());
        let mut i: usize = 0;
        while i < indices.len()
            invariant
                i <= indices@.len(),
                r@.len() == i as int,
                forall|k: int| 0 <= k < indices@.len() ==> #[trigger] indices@[k] < pool@.len(),
                forall|k: int| 0 <= k < r@.len() ==> r@[k] == pool@[#[trigger] indices@[k] as int],
            decreases indices@.len() - i,
        {
            let idx = indices[i];
            r.push(pool[idx]);
            i = i + 1;
        }
        proof {
            let idxs = indices@.map_values(|u: usize| u as int);
            assert(forall|k: int| 0 <= k < idxs.len() ==> idxs[k] == indices@[k] as int);
            assert(spec_picked(r@, pool@, idxs) && (pool@.len() >= self@.words_count as int
                ==> spec_distinct(idxs)));
            assert(exists|is: Seq<int>|
                #[trigger] spec_picked(r@, pool@, is) && (pool@.len()
                    >= self@.words_count as int ==> spec_distinct(is)));
        }
        r
    }
}

/// Words picked from a pool and case-transformed, one transform per
/// position, every transform admissible under the mask.
pub open spec fn spec_transformed(
    words: Seq<Seq<char>>,
    pool: Seq<Seq<char>>,
    idxs: Seq<int>,
    ts: Seq<WordTransform>,
    mask: FieldSize,
) -> bool {
    &&& idxs.len() == words.len()
    &&& ts.len() == words.len()
    &&& forall|i: int|
        0 <= i < words.len() ==> {
            &&& 0 <= #[trigger] idxs[i] < pool.len()
            &&& spec_admissible_transform(mask, i, ts[i])
            &&& words[i] == spec_transform_word(pool[idxs[i]], ts[i])
        }
}

impl SettingsView {
    /// Digit padding as counted for the blind length: each non-empty digit
    /// block contributes its digits plus one boundary character.
    pub open spec fn spec_digits_overhead(self) -> int {
        (if self.padding_digits.0 > 0 {
            self.padding_digits.0 as int + 1
        } else {
            0int
        }) + (if self.padding_digits.1 > 0 {
            self.padding_digits.1 as int + 1
        } else {
            0int
        })
    }

    /// The non-letter characters of a fixed-strategy passphrase: symbol
    /// padding, digit padding with boundaries, and the separators between
    /// the words.
    pub open spec fn spec_non_alpha_len(self) -> int {
        self.padding_symbol_lengths.0 as int + self.padding_symbol_lengths.1 as int
            + self.spec_digits_overhead() + self.words_count as int - 1
    }

    /// The shortest passphrase length a blind attacker must reckon with.
    pub open spec fn spec_blind_len_min(self) -> int {
        match self.padding_strategy {
            PaddingStrategy::Adaptive(t) => t as int,
            PaddingStrategy::Fixed => self.words_count as int * self.word_lengths.0 as int
                + self.spec_non_alpha_len(),
        }
    }

    /// The longest passphrase length a blind attacker must reckon with.
    pub open spec fn spec_blind_len_max(self) -> int {
        match self.padding_strategy {
            PaddingStrategy::Adaptive(t) => t as int,
            PaddingStrategy::Fixed => self.words_count as int * self.word_lengths.1 as int
                + self.spec_non_alpha_len(),
        }
    }

    /// The character-class pool a blind attacker must search: one letter
    /// case or two, digits when digit padding is configured, and the symbol
    /// class when separators or padding symbols are in play.
    pub open spec fn spec_blind_alphabet(self) -> int {
        (if self.word_transforms == 0x01 || self.word_transforms == 0x04 {
            26int
        } else {
            52int
        }) + (if self.padding_digits != (0u8, 0u8) {
            10int
        } else {
            0int
        }) + (if self.separators.len() > 0 || self.padding_symbols.len() > 0 {
            32int
        } else {
            0int
        })
    }
}

/// The seen entropy in whole bits, every logarithm rounded down: the least
/// the estimate may report.
pub open spec fn spec_seen_lo(v: SettingsView, pool_size: int) -> int {
    let tn = crate::bit_flags::spec_to_flags(v.word_transforms).len() as int;
    v.words_count as int * spec_log2_floor((pool_size * tn) as nat) as int + (if v.separators.len()
        > 0 {
        spec_log2_floor(v.separators.len()) as int
    } else {
        0int
    }) + (if v.padding_digits != (0u8, 0u8) {
        (v.padding_digits.0 + v.padding_digits.1) as int * 3
    } else {
        0int
    }) + (if v.padding_symbols.len() > 0 {
        spec_log2_floor(v.padding_symbols.len()) as int
    } else {
        0int
    })
}

/// The seen entropy in whole bits, every logarithm rounded up: the most
/// the estimate may report.
pub open spec fn spec_seen_hi(v: SettingsView, pool_size: int) -> int {
    let tn = crate::bit_flags::spec_to_flags(v.word_transforms).len() as int;
    v.words_count as int * (spec_log2_floor((pool_size * tn) as nat) as int + 1) + (
    if v.separators.len() > 0 {
        spec_log2_floor(v.separators.len()) as int + 1
    } else {
        0int
    }) + (if v.padding_digits != (0u8, 0u8) {
        (v.padding_digits.0 + v.padding_digits.1) as int * 4
    } else {
        0int
    }) + (if v.padding_symbols.len() > 0 {
        spec_log2_floor(v.padding_symbols.len()) as int + 1
    } else {
        0int
    })
}

/// The seen entropy in fixed point before the final rounding: the exact
/// sum of the scaled component logarithms, each weighted as the estimator
/// weights it. A deterministic function of the configuration and the pool
/// size.
pub open spec fn spec_seen_fixed_sum(v: SettingsView, pool_size: int) -> int {
    let tn = crate::bit_flags::spec_to_flags(v.word_transforms).len() as int;
    v.words_count as int * spec_log2_fixed16((pool_size * tn) as nat) as int + (
    if v.separators.len() > 0 {
        spec_log2_fixed16(v.separators.len()) as int
    } else {
        0int
    }) + (if v.padding_digits != (0u8, 0u8) {
        (v.padding_digits.0 + v.padding_digits.1) as int * spec_log2_fixed16(10) as int
    } else {
        0int
    }) + (if v.padding_symbols.len() > 0 {
        spec_log2_fixed16(v.padding_symbols.len()) as int
    } else {
        0int
    })
}

/// The seen entropy in whole bits: the fixed-point sum rounded to the
/// nearest integer, half rounding up.
pub open spec fn spec_seen_exact(v: SettingsView, pool_size: int) -> int {
    (spec_seen_fixed_sum(v, pool_size) + 32768) / 65536
}

/// A valid mask enumerates at least one transform.
pub proof fn lemma_valid_mask_flags_nonempty(mask: FieldSize)
    requires
        spec_valid_mask(mask),
    ensures
        crate::bit_flags::spec_to_flags(mask).len() >= 1,
{
    assert(mask == 0x40 ==> mask & 0x40 != 0) by (bit_vector);
    assert(mask == 0x80 ==> mask & 0x80 != 0) by (bit_vector);
    assert(mask & 0x0f != 0 ==> (mask & 0x01 != 0 || mask & 0x02 != 0 || mask & 0x04 != 0
        || mask & 0x08 != 0)) by (bit_vector);
}

/// The base-ten logarithm bracket used for digit padding.
proof fn lemma_log2_floor_10()
    ensures
        spec_log2_floor(10) == 3,
{
    reveal_with_fuel(spec_log2_floor, 5);
}

impl Randomizer for Settings {
    open spec fn profile(&self) -> SettingsView {
        self@
    }

    fn word_lengths(&self) -> (r: core::ops::Range<u8>) {
        self.word_lengths.0..(self.word_lengths.1 + 1)
    }

    fn rand_words(&self, pool: &[&str]) -> (r: Vec<String>)
        ensures
            pool@.len() >= self@.words_count as int ==> exists|
                idxs: Seq<int>,
                ts: Seq<WordTransform>,
            |
                #[trigger] spec_transformed(
                    spec_views(r@),
                    spec_strs(pool@),
                    idxs,
                    ts,
                    self@.word_transforms,
                ) && spec_distinct(idxs),
    {
        let words_list = self.build_words_list(pool);
        let transforms_list = self.build_transforms_list();

        proof {
            assert(exists|idxs: Seq<int>|
                #[trigger] spec_picked(words_list@, pool@, idxs) && (pool@.len()
                    >= self@.words_count as int ==> spec_distinct(idxs)));
        }
        let ghost idxs = choose|idxs: Seq<int>|
            #[trigger] spec_picked(words_list@, pool@, idxs) && (pool@.len()
                >= self@.words_count as int ==> spec_distinct(idxs));
        let ghost tl = transforms_list@;

        let mut out: Vec<String> = Vec::new();
        let mut i: usize = 0;
        while i < words_list.len()
            invariant
                i <= words_list@.len(),
                words_list@.len() <= tl.len(),
                tl == transforms_list@,
                spec_picked(words_list@, pool@, idxs),
                forall|k: int|
                    0 <= k < tl.len() ==> spec_admissible_transform(
                        self@.word_transforms,
                        k,
                        #[trigger] tl[k],
                    ),
                out@.len() == i as int,
                forall|k: int|
                    0 <= k < i ==> (#[trigger] out@[k])@ == spec_transform_word(
                        pool@[idxs[k]]@,
                        tl[k],
                    ),
            decreases words_list@.len() - i,
        {
            proof {
                assert(words_list@[i as int] == pool@[idxs[i as int]]);
            }
            let word = words_list[i];
            let transformed = transform_word(word, transforms_list[i]);
            out.push(transformed);
            i = i + 1;
        }
        proof {
            let ws = spec_views(out@);
            let ps = spec_strs(pool@);
            assert(forall|k: int| 0 <= k < ws.len() ==> ws[k] == (#[trigger] out@[k])@);
            assert(forall|k: int| 0 <= k < ps.len() ==> ps[k] == (#[trigger] pool@[k])@);
            assert(spec_transformed(ws, ps, idxs.take(out@.len() as int), tl.take(
                out@.len() as int,
            ), self@.word_transforms));
            if pool@.len() >= self@.words_count as int {
                assert(spec_distinct(idxs));
                assert(spec_distinct(idxs.take(out@.len() as int)));
            }
        }
        out
    }

    fn rand_separator(&self) -> (r: String) {
        rand_chars(self.separators.as_str(), 1)
    }

    fn rand_prefix(&self) -> (r: (String, String)) {
        let symbols = rand_chars(
            self.padding_symbols.as_str(),
            self.padding_symbol_lengths.0 as usize,
        );
        let digits = rand_digits(self.padding_digits.0);
        (symbols, digits)
    }

    fn rand_suffix(&self) -> (r: (String, String)) {
        let digits = rand_digits(self.padding_digits.1);
        let symbols = rand_chars(
            self.padding_symbols.as_str(),
            self.padding_symbol_lengths.1 as usize,
        );
        (digits, symbols)
    }

    fn adjust_padding(&self, pass_length: usize) -> (r: PaddingResult) {
        match self.padding_strategy {
            PaddingStrategy::Fixed => PaddingResult::Unchanged,
            PaddingStrategy::Adaptive(len) => {
                if len == pass_length {
                    PaddingResult::Unchanged
                } else if len < pass_length {
                    PaddingResult::TrimTo(len)
                } else {
                    let padded = rand_chars(self.padding_symbols.as_str(), len - pass_length);
                    PaddingResult::Pad(padded)
                }
            },
        }
    }

    #[verifier::rlimit(100)]
    fn calc_entropy(&self, pool_size: usize) -> (r: Entropy) {
        // blind length bounds
        let (len_min, len_max): (u64, u64) = match self.padding_strategy {
            PaddingStrategy::Adaptive(t) => (t as u64, t as u64),
            PaddingStrategy::Fixed => {
                let pd0: u64 = if self.padding_digits.0 > 0 {
                    self.padding_digits.0 as u64 + 1
                } else {
                    0
                };
                let pd1: u64 = if self.padding_digits.1 > 0 {
                    self.padding_digits.1 as u64 + 1
                } else {
                    0
                };
                let non_alpha: u64 = self.padding_symbol_lengths.0 as u64
                    + self.padding_symbol_lengths.1 as u64 + pd0 + pd1 + self.words_count as u64
                    - 1;
                proof {
                    assert(self.words_count as int * (self.word_lengths.0 as int) <= 65025
                        && self.words_count as int * (self.word_lengths.1 as int) <= 65025
                        && 0 <= self.words_count as int * (self.word_lengths.0 as int)
                        && 0 <= self.words_count as int * (self.word_lengths.1 as int))
                        by (nonlinear_arith)
                        requires
                            0 <= self.words_count as int <= 255,
                            0 <= self.word_lengths.0 as int <= 255,
                            0 <= self.word_lengths.1 as int <= 255,
                    ;
                    lemma_mul_inequality(
                        self.word_lengths.0 as int,
                        self.word_lengths.1 as int,
                        self.words_count as int,
                    );
                }
                let lo = self.words_count as u64 * (self.word_lengths.0 as u64) + non_alpha;
                let hi = self.words_count as u64 * (self.word_lengths.1 as u64) + non_alpha;
                (lo, hi)
            },
        };
        proof {
            assert(len_min as int == self@.spec_blind_len_min());
            assert(len_max as int == self@.spec_blind_len_max());
        }

        // blind alphabet
        let single = self.word_transforms == 0x01 || self.word_transforms == 0x04;
        let mut alphabet: u64 = if single {
            26
        } else {
            52
        };
        if !(self.padding_digits.0 == 0 && self.padding_digits.1 == 0) {
            alphabet = alphabet + 10;
        }
        let sep_len = self.separators.as_str().unicode_len();
        let sym_len = self.padding_symbols.as_str().unicode_len();
        if sep_len > 0 || sym_len > 0 {
            alphabet = alphabet + 32;
        }
        proof {
            assert(alphabet as int == self@.spec_blind_alphabet());
        }

        let lg_alpha = log2_fixed16(alphabet as u128);
        let blind_min = scaled_round_sat(len_min as u128, lg_alpha);
        let blind_max = scaled_round_sat(len_max as u128, lg_alpha);
        proof {
            let v0 = ((len_min as int) * (lg_alpha as int) + 32768) / 65536;
            let v1 = ((len_max as int) * (lg_alpha as int) + 32768) / 65536;
            lemma_mul_inequality(len_min as int, len_max as int, lg_alpha as int);
            lemma_div_is_ordered(
                (len_min as int) * (lg_alpha as int) + 32768,
                (len_max as int) * (lg_alpha as int) + 32768,
                65536,
            );
        }

        // seen entropy
        let flags = crate::bit_flags::to_flags(self.word_transforms);
        let tn = flags.len();
        proof {
            lemma_valid_mask_flags_nonempty(self.word_transforms);
        }

        let seen: usize;
        if pool_size == 0 {
            seen = 0;
        } else {
            proof {
                assert((pool_size as u128) * (tn as u128) >= 1 && (pool_size as u128) * (tn
                    as u128) < 0x100000000000000000000000000000000) by (nonlinear_arith)
                    requires
                        1 <= pool_size <= 0xffff_ffff_ffff_ffff_ffff_ffff_ffff_ffff,
                        1 <= tn <= 6,
                ;
            }
            let wpool: u128 = (pool_size as u128) * (tn as u128);
            let lg_w = log2_fixed16(wpool);
            let ghost fw = spec_log2_floor(wpool as nat) as int;
            let ghost count = self.words_count as int;

            proof {
                assert(count * (lg_w as int) < 0x80000000) by (nonlinear_arith)
                    requires
                        0 <= count <= 255,
                        0 <= (lg_w as int) < 65536 * 128,
                ;
            }
            let s0: u128 = (self.words_count as u128) * (lg_w as u128);
            let ghost lo0 = count * fw;
            let ghost hi0 = count * (fw + 1);
            proof {
                assert(65536 * lo0 <= s0 && s0 <= 65536 * hi0 - count && 0 <= lo0 && hi0 <= 255
                    * 128) by (nonlinear_arith)
                    requires
                        lo0 == count * fw,
                        hi0 == count * (fw + 1),
                        s0 == count * (lg_w as int),
                        65536 * fw <= lg_w as int,
                        (lg_w as int) < 65536 * (fw + 1),
                        1 <= count <= 255,
                        0 <= fw <= 127,
                ;
            }

            let s1: u128;
            let ghost lo1: int;
            let ghost hi1: int;
            if sep_len > 0 {
                let lg_sep = log2_fixed16(sep_len as u128);
                let ghost fs = spec_log2_floor(sep_len as nat) as int;
                s1 = s0 + (lg_sep as u128);
                proof {
                    lo1 = lo0 + fs;
                    hi1 = hi0 + fs + 1;
                    assert(65536 * lo1 <= s1 && s1 <= 65536 * hi1 - count && hi1 <= 255 * 128
                        + 128);
                }
            } else {
                s1 = s0;
                proof {
                    lo1 = lo0;
                    hi1 = hi0;
                    assert(hi1 <= 255 * 128 + 128);
                }
            }

            let s2: u128;
            let ghost lo2: int;
            let ghost hi2: int;
            if !(self.padding_digits.0 == 0 && self.padding_digits.1 == 0) {
                let lg10 = log2_fixed16(10);
                let c2: u128 = self.padding_digits.0 as u128 + self.padding_digits.1 as u128;
                let ghost c2i = c2 as int;
                proof {
                    lemma_log2_floor_10();
                    assert(65536 * (3 * c2i) <= c2i * (lg10 as int) && c2i * (lg10 as int) <= 65536
                        * (4 * c2i) - c2i && c2i * (lg10 as int) < 0x80000000) by (nonlinear_arith)
                        requires
                            65536 * 3 <= lg10 as int,
                            (lg10 as int) < 65536 * 4,
                            1 <= c2i <= 510,
                    ;
                }
                s2 = s1 + c2 * (lg10 as u128);
                proof {
                    lo2 = lo1 + 3 * c2i;
                    hi2 = hi1 + 4 * c2i;
                    assert(65536 * lo2 <= s2 && s2 <= 65536 * hi2 - count && hi2 <= 255 * 128 + 128
                        + 4 * 510);
                }
            } else {
                s2 = s1;
                proof {
                    lo2 = lo1;
                    hi2 = hi1;
                    assert(hi2 <= 255 * 128 + 128 + 4 * 510);
                }
            }

            let s3: u128;
            let ghost lo3: int;
            let ghost hi3: int;
            if sym_len > 0 {
                let lg_sym = log2_fixed16(sym_len as u128);
                let ghost fy = spec_log2_floor(sym_len as nat) as int;
                s3 = s2 + (lg_sym as u128);
                proof {
                    lo3 = lo2 + fy;
                    hi3 = hi2 + fy + 1;
                    assert(65536 * lo3 <= s3 && s3 <= 65536 * hi3 - count && hi3 <= 255 * 128 + 128
                        + 4 * 510 + 128);
                }
            } else {
                s3 = s2;
                proof {
                    lo3 = lo2;
                    hi3 = hi2;
                    assert(hi3 <= 255 * 128 + 128 + 4 * 510 + 128);
                }
            }

            let v: u128 = (s3 + 32768) / 65536;
            proof {
                assert((pool_size as u128 * tn as u128) as nat == (pool_size as int * tn
                    as int) as nat) by (nonlinear_arith)
                    requires
                        1 <= pool_size <= 0xffff_ffff_ffff_ffff_ffff_ffff_ffff_ffff,
                        1 <= tn <= 6,
                ;
                assert(s3 as int == spec_seen_fixed_sum(self@, pool_size as int));
                assert(v as int == spec_seen_exact(self@, pool_size as int));
                assert(lo3 == spec_seen_lo(self@, pool_size as int));
                assert(hi3 == spec_seen_hi(self@, pool_size as int));
                assert(v as int >= lo3) by {
                    assert(s3 as int + 32768 >= 65536 * lo3);
                    lemma_div_is_ordered(65536 * lo3, s3 as int + 32768, 65536);
                    lemma_div_multiples_vanish(lo3, 65536);
                }
                assert(v as int <= hi3) by {
                    assert(s3 as int + 32768 <= 65536 * hi3 + 32767);
                    lemma_div_is_ordered(s3 as int + 32768, 65536 * hi3 + 32767, 65536);
                    vstd::arithmetic::div_mod::lemma_div_multiples_vanish_fancy(hi3, 32767, 65536);
                }
            }
            seen = v as usize;
        }

        let guess_time = GuessTime::for_entropy(seen);
        Entropy { blind_min, blind_max, seen, guess_time }
    }
}

impl PartialEq for Settings {
    fn eq(&self, other: &Settings) -> (r: bool) {
        let r = self.words_count == other.words_count && self.word_lengths.0
            == other.word_lengths.0 && self.word_lengths.1 == other.word_lengths.1
            && self.word_transforms == other.word_transforms && self.separators
            == other.separators && self.padding_digits.0 == other.padding_digits.0
            && self.padding_digits.1 == other.padding_digits.1 && self.padding_symbols
            == other.padding_symbols && self.padding_symbol_lengths.0
            == other.padding_symbol_lengths.0 && self.padding_symbol_lengths.1
            == other.padding_symbol_lengths.1 && self.padding_strategy == other.padding_strategy;
        proof {
            if r {
                assert(self@ == other@);
            }
        }
        r
    }
}

impl vstd::std_specs::cmp::PartialEqSpecImpl for Settings {
    open spec fn obeys_eq_spec() -> bool {
        true
    }

    open spec fn eq_spec(&self, other: &Settings) -> bool {
        self@ == other@
    }
}

/// `from_preset` is a pure function of the preset: any two settings carrying
/// its image are equal in every field.
pub proof fn lemma_from_preset_pure(a: Settings, b: Settings, preset: Preset)
    requires
        a@ == spec_preset(preset),
        b@ == spec_preset(preset),
    ensures
        a@ == b@,
{
}

} // verus!


