//! Human-readable renderings of configurations and strength estimates,
//! as plain strings with exact contracts.

use vstd::prelude::*;

use crate::bit_flags::{spec_name, spec_to_flags, to_flags, to_strings};
use crate::prelude::{Entropy, GuessTime, PaddingStrategy};
use crate::settings::{lemma_valid_mask_flags_nonempty, spec_valid_mask, Settings, SettingsView};
use crate::text::{join, spec_decimal, spec_join, spec_views, u64_to_string};

verus! {

/// The guess-time phrases, one per non-zero component.
pub open spec fn spec_guess_time_parts(t: GuessTime) -> Seq<Seq<char>> {
    (if t.years > 0 {
        seq![spec_decimal(t.years as nat) + " years"@]
    } else {
        Seq::empty()
    }) + (if t.months > 0 {
        seq![spec_decimal(t.months as nat) + " months"@]
    } else {
        Seq::empty()
    }) + (if t.days > 0 {
        seq![spec_decimal(t.days as nat) + " days"@]
    } else {
        Seq::empty()
    })
}

/// The text of a guess time: one coarse bucket phrase, or the non-zero
/// components joined with spaces, or a phrase for less than a day.
pub open spec fn spec_guess_time_text(t: GuessTime) -> Seq<char> {
    if t.years > 1_000_000_000 {
        "more than a billion years"@
    } else if t.years > 1_000_000 {
        "more than a million years"@
    } else if t.years > 1_000 {
        "more than a thousand years"@
    } else if t.years == 0 && t.months == 0 && t.days == 0 {
        "less than a day"@
    } else {
        spec_join(spec_guess_time_parts(t), " "@)
    }
}

impl GuessTime {
    /// This guess time as text.
    pub fn to_text(&self) -> (r: String)
        ensures
            r@ == spec_guess_time_text(*self),
    {
        if self.years > 1_000_000_000 {
            return String::from_str("more than a billion years");
        }
        if self.years > 1_000_000 {
            return String::from_str("more than a million years");
        }
        if self.years > 1_000 {
            return String::from_str("more than a thousand years");
        }

        let mut comps: Vec<String> = Vec::new();
        if self.years > 0 {
            let part = u64_to_string(self.years as u64).concat(" years");
            comps.push(part);
        }
        if self.months > 0 {
            let part = u64_to_string(self.months as u64).concat(" months");
            comps.push(part);
        }
        if self.days > 0 {
            let part = u64_to_string(self.days as u64).concat(" days");
            comps.push(part);
        }

        if comps.len() == 0 {
            String::from_str("less than a day")
        } else {
            let r = join(&comps, " ");
            proof {
                assert(spec_views(comps@) =~= spec_guess_time_parts(*self));
            }
            r
        }
    }
}

/// The text of a strength estimate: the blind range, the seen amount, and
/// the guess time at the fixed rate.
pub open spec fn spec_entropy_text(e: Entropy) -> Seq<char> {
    (if e.blind_min == e.blind_max {
        spec_decimal(e.blind_min as nat) + " bits"@
    } else {
        "between "@ + spec_decimal(e.blind_min as nat) + " & "@ + spec_decimal(e.blind_max as nat)
            + " bits"@
    }) + " blind and "@ + spec_decimal(e.seen as nat)
        + " bits with full knowledge, which takes computers "@ + spec_guess_time_text(e.guess_time)
        + " to break at 1000 guesses/sec"@
}

impl Entropy {
    /// This estimate as text.
    pub fn to_text(&self) -> (r: String)
        ensures
            r@ == spec_entropy_text(*self),
    {
        let blind = if self.blind_min == self.blind_max {
            u64_to_string(self.blind_min as u64).concat(" bits")
        } else {
            let mut b = String::from_str("between ");
            b.append(u64_to_string(self.blind_min as u64).as_str());
            b.append(" & ");
            b.append(u64_to_string(self.blind_max as u64).as_str());
            b.append(" bits");
            b
        };
        let mut r = blind;
        r.append(" blind and ");
        r.append(u64_to_string(self.seen as u64).as_str());
        r.append(" bits with full knowledge, which takes computers ");
        r.append(self.guess_time.to_text().as_str());
        r.append(" to break at 1000 guesses/sec");
        r
    }
}

/// The word-length phrase of a configuration.
pub open spec fn spec_lengths_part(v: SettingsView) -> Seq<char> {
    if v.word_lengths.0 == v.word_lengths.1 {
        "only "@ + spec_decimal(v.word_lengths.0 as nat) + " chars"@
    } else {
        "from "@ + spec_decimal(v.word_lengths.0 as nat) + " to "@ + spec_decimal(
            v.word_lengths.1 as nat,
        ) + " chars"@
    }
}

/// The transforms phrase: one name with "only", or all names joined.
pub open spec fn spec_transforms_part(v: SettingsView) -> Seq<char> {
    let names = spec_to_flags(v.word_transforms).map_values(|t: crate::bit_flags::WordTransform| spec_name(t));
    if names.len() > 1 {
        "mixed of "@ + spec_join(names, " & "@)
    } else {
        names[0] + " only"@
    }
}

/// The separator phrase.
pub open spec fn spec_separators_part(v: SettingsView) -> Seq<char> {
    if v.separators.len() > 1 {
        "a separator from \u{27ea}"@ + v.separators + "\u{27eb}"@
    } else {
        "'"@ + v.separators + "' as separator"@
    }
}

/// The digit-padding phrase, empty when no digits are configured.
pub open spec fn spec_digits_part(v: SettingsView) -> Seq<char> {
    if v.padding_digits.0 > 0 && v.padding_digits.1 > 0 {
        spec_decimal(v.padding_digits.0 as nat) + " digit(s) before & "@ + spec_decimal(
            v.padding_digits.1 as nat,
        ) + " digit(s) after"@
    } else if v.padding_digits.0 > 0 {
        spec_decimal(v.padding_digits.0 as nat) + " digit(s) before"@
    } else if v.padding_digits.1 > 0 {
        spec_decimal(v.padding_digits.1 as nat) + " digit(s) after"@
    } else {
        Seq::empty()
    }
}

/// The symbol-pool phrase that the symbol and strategy phrases embed.
pub open spec fn spec_symbols_pool_part(v: SettingsView) -> Seq<char> {
    if v.padding_symbols.len() > 1 {
        "from \u{27ea}"@ + v.padding_symbols + "\u{27eb}"@
    } else {
        "of '"@ + v.padding_symbols + "'"@
    }
}

/// The symbol-padding phrase, empty when no symbol padding is configured.
pub open spec fn spec_symbol_lengths_part(v: SettingsView) -> Seq<char> {
    if v.padding_symbol_lengths.0 > 0 && v.padding_symbol_lengths.1 > 0 {
        spec_decimal(v.padding_symbol_lengths.0 as nat) + " symbol(s) before & "@ + spec_decimal(
            v.padding_symbol_lengths.1 as nat,
        ) + " symbol(s) after "@ + spec_symbols_pool_part(v)
    } else if v.padding_symbol_lengths.0 > 0 {
        spec_decimal(v.padding_symbol_lengths.0 as nat) + " symbol(s) before "@
            + spec_symbols_pool_part(v)
    } else if v.padding_symbol_lengths.1 > 0 {
        spec_decimal(v.padding_symbol_lengths.1 as nat) + " symbol(s) after "@
            + spec_symbols_pool_part(v)
    } else {
        Seq::empty()
    }
}

/// The strategy phrase.
pub open spec fn spec_strategy_part(v: SettingsView) -> Seq<char> {
    match v.padding_strategy {
        PaddingStrategy::Fixed => "no extra padding"@,
        PaddingStrategy::Adaptive(len) => "pad/trim symbols "@ + spec_symbols_pool_part(v)
            + " to fit "@ + spec_decimal(len as nat) + " chars"@,
    }
}

/// Every phrase of a configuration, in display order; the two optional
/// phrases appear only when non-empty.
pub open spec fn spec_description_parts(v: SettingsView) -> Seq<Seq<char>> {
    seq![
        spec_decimal(v.words_count as nat) + " word(s)"@,
        spec_lengths_part(v),
        spec_transforms_part(v),
        spec_separators_part(v),
    ] + (if spec_digits_part(v).len() > 0 {
        seq![spec_digits_part(v)]
    } else {
        Seq::empty()
    }) + (if spec_symbol_lengths_part(v).len() > 0 {
        seq![spec_symbol_lengths_part(v)]
    } else {
        Seq::empty()
    }) + seq![spec_strategy_part(v)]
}

/// The full description: every phrase but the last on a dashed line of its
/// own, the last introduced with "and".
pub open spec fn spec_description(v: SettingsView) -> Seq<char> {
    let parts = spec_description_parts(v);
    "\n - "@ + spec_join(parts.take(parts.len() - 1), "\n - "@) + "\n - and "@ + parts.last()
}

impl Settings {
    /// This configuration described in words, one phrase per aspect.
    pub fn description(&self) -> (r: String)
        requires
            spec_valid_mask(self@.word_transforms),
        ensures
            r@ == spec_description(self@),
    {
        proof {
            lemma_valid_mask_flags_nonempty(self@.word_transforms);
        }
        let mut desc: Vec<String> = Vec::new();

        let words_part = u64_to_string(self.words_count() as u64).concat(" word(s)");
        desc.push(words_part);

        let (word_min, word_max) = self.word_length_bounds();
        let lengths_part = if word_min == word_max {
            String::from_str("only ").concat(u64_to_string(word_min as u64).as_str()).concat(
                " chars",
            )
        } else {
            let mut p = String::from_str("from ");
            p.append(u64_to_string(word_min as u64).as_str());
            p.append(" to ");
            p.append(u64_to_string(word_max as u64).as_str());
            p.append(" chars");
            p
        };
        proof {
            assert(lengths_part@ == spec_lengths_part(self@));
        }
        desc.push(lengths_part);

        let names = to_strings(&to_flags(self.word_transforms()));
        let transforms_part = if names.len() > 1 {
            let joined = join(&names, " & ");
            proof {
                assert(spec_views(names@) =~= spec_to_flags(self@.word_transforms).map_values(
                    |t: crate::bit_flags::WordTransform| spec_name(t),
                ));
            }
            String::from_str("mixed of ").concat(joined.as_str())
        } else {
            proof {
                assert(spec_views(names@) =~= spec_to_flags(self@.word_transforms).map_values(
                    |t: crate::bit_flags::WordTransform| spec_name(t),
                ));
            }
            names[0].clone().concat(" only")
        };
        proof {
            assert(transforms_part@ == spec_transforms_part(self@));
        }
        desc.push(transforms_part);

        let separators_part = if self.separators().unicode_len() > 1 {
            String::from_str("a separator from \u{27ea}").concat(self.separators()).concat(
                "\u{27eb}",
            )
        } else {
            String::from_str("'").concat(self.separators()).concat("' as separator")
        };
        proof {
            assert(separators_part@ == spec_separators_part(self@));
        }
        desc.push(separators_part);

        let (digits_before, digits_after) = self.padding_digits();
        if digits_before > 0 && digits_after > 0 {
            let mut p = u64_to_string(digits_before as u64);
            p.append(" digit(s) before & ");
            p.append(u64_to_string(digits_after as u64).as_str());
            p.append(" digit(s) after");
            proof {
                assert(p@ == spec_digits_part(self@));
            }
            desc.push(p);
        } else if digits_before > 0 {
            let p = u64_to_string(digits_before as u64).concat(" digit(s) before");
            proof {
                assert(p@ == spec_digits_part(self@));
            }
            desc.push(p);
        } else if digits_after > 0 {
            let p = u64_to_string(digits_after as u64).concat(" digit(s) after");
            proof {
                assert(p@ == spec_digits_part(self@));
            }
            desc.push(p);
        }

        let symbols_pool = if self.padding_symbols().unicode_len() > 1 {
            String::from_str("from \u{27ea}").concat(self.padding_symbols()).concat("\u{27eb}")
        } else {
            String::from_str("of '").concat(self.padding_symbols()).concat("'")
        };
        proof {
            assert(symbols_pool@ == spec_symbols_pool_part(self@));
        }

        let (symbols_before, symbols_after) = self.padding_symbol_lengths();
        if symbols_before > 0 && symbols_after > 0 {
            let mut p = u64_to_string(symbols_before as u64);
            p.append(" symbol(s) before & ");
            p.append(u64_to_string(symbols_after as u64).as_str());
            p.append(" symbol(s) after ");
            p.append(symbols_pool.as_str());
            proof {
                assert(p@ == spec_symbol_lengths_part(self@));
            }
            desc.push(p);
        } else if symbols_before > 0 {
            let mut p = u64_to_string(symbols_before as u64);
            p.append(" symbol(s) before ");
            p.append(symbols_pool.as_str());
            proof {
                assert(p@ == spec_symbol_lengths_part(self@));
            }
            desc.push(p);
        } else if symbols_after > 0 {
            let mut p = u64_to_string(symbols_after as u64);
            p.append(" symbol(s) after ");
            p.append(symbols_pool.as_str());
            proof {
                assert(p@ == spec_symbol_lengths_part(self@));
            }
            desc.push(p);
        }

        let strategy_part = match self.padding_strategy() {
            PaddingStrategy::Fixed => String::from_str("no extra padding"),
            PaddingStrategy::Adaptive(len) => {
                let mut p = String::from_str("pad/trim symbols ");
                p.append(symbols_pool.as_str());
                p.append(" to fit ");
                p.append(u64_to_string(len as u64).as_str());
                p.append(" chars");
                p
            },
        };
        proof {
            assert(strategy_part@ == spec_strategy_part(self@));
        }
        desc.push(strategy_part);

        proof {
            assert(spec_views(desc@) =~= spec_description_parts(self@));
        }

        let last_index = desc.len() - 1;
        let last = desc[last_index].clone();
        let mut front: Vec<String> = Vec::new();
        let mut i: usize = 0;
        while i < last_index
            invariant
                i <= last_index < desc@.len(),
                front@.len() == i,
                forall|k: int| 0 <= k < i ==> (#[trigger] front@[k])@ == (desc@[k])@,
            decreases last_index - i,
        {
            front.push(desc[i].clone());
            i = i + 1;
        }
        proof {
            assert(spec_views(front@) =~= spec_views(desc@).take(desc@.len() - 1));
        }

        let mut r = String::from_str("\n - ");
        r.append(join(&front, "\n - ").as_str());
        r.append("\n - and ");
        r.append(last.as_str());
        proof {
            assert(last@ == spec_description_parts(self@).last());
        }
        r
    }
}

} // verus!
