//! Shared value types of the generator, the dictionary, the `Randomizer`
//! contract, and the passphrase assembler.

use vstd::arithmetic::div_mod::lemma_div_is_ordered;
use vstd::arithmetic::power2::{lemma2_to64, lemma2_to64_rest, pow2};
use vstd::prelude::*;

use crate::bit_flags::WordTransform;
use crate::estimate::pow2_u128;
use crate::parse::{
    copy_range, parse_u8_bytes, spec_all_digits, spec_dec_value, spec_split_bytes,
    spec_trim_bytes, spec_u8_views, split_bytes, trim_bytes,
};
use crate::estimate::spec_log2_fixed16;
use crate::settings::{
    spec_digit_block, spec_seen_exact, spec_symbol_block, spec_transformed, SettingsView,
};
use crate::text::{join, spec_join, spec_views};
use vstd::utf8::{decode_utf8, valid_utf8};

verus! {

/// How the final passphrase length is handled: kept as assembled, or
/// padded/trimmed to an exact target length.
#[derive(Clone, Copy, Debug, PartialEq, Eq, Structural)]
pub enum PaddingStrategy {
    Fixed,
    Adaptive(usize),
}

/// Outcome of the length adjustment: keep the passphrase, cut it down to
/// a prefix of the given length, or append the given symbols.
#[derive(Debug)]
pub enum PaddingResult {
    Unchanged,
    TrimTo(usize),
    Pad(String),
}

/// The named, fixed configurations.
#[derive(Clone, Copy, Debug)]
pub enum Preset {
    Default,
    AppleID,
    WindowsNtlmV1,
    SecurityQuestions,
    Web16,
    Web32,
    Wifi,
    Xkcd,
}

/// How long a brute-force search at a fixed guess rate would run, bucketed
/// for human eyes.
#[derive(Clone, Copy, Debug, Default, PartialEq, Eq, Structural)]
pub struct GuessTime {
    pub years: usize,
    pub months: u8,
    pub days: u8,
}

/// The guess time of an entropy amount at one thousand guesses per second:
/// amounts beyond 64, 54 and 44 bits fall into the three coarse buckets;
/// smaller amounts are converted exactly into years, months of thirty days,
/// and days.
pub open spec fn spec_guess_time(amount: nat) -> GuessTime {
    if amount > 64 {
        GuessTime { years: 1_000_000_001, months: 0, days: 0 }
    } else if amount > 54 {
        GuessTime { years: 1_000_001, months: 0, days: 0 }
    } else if amount > 44 {
        GuessTime { years: 1001, months: 0, days: 0 }
    } else {
        let td = pow2(amount) as int / 86_400_000;
        GuessTime {
            years: (td / 365) as usize,
            months: ((td % 365) / 30) as u8,
            days: ((td % 365) % 30) as u8,
        }
    }
}

impl GuessTime {
    /// The guess-time bucket of the given entropy amount.
    pub fn for_entropy(amount: usize) -> (r: GuessTime)
        ensures
            r == spec_guess_time(amount as nat),
    {
        if amount > 64 {
            return GuessTime { years: 1_000_000_001, months: 0, days: 0 };
        }
        if amount > 54 {
            return GuessTime { years: 1_000_001, months: 0, days: 0 };
        }
        if amount > 44 {
            return GuessTime { years: 1001, months: 0, days: 0 };
        }

        proof {
            lemma2_to64();
            lemma2_to64_rest();
        }
        let p = pow2_u128(amount as u32);
        proof {
            vstd::arithmetic::power2::lemma_pow2_strictly_increases(amount as nat, 45);
            lemma_div_is_ordered(p as int, pow2(45) as int, 86_400_000);
        }
        let total_days = (p as u64) / 86_400_000;
        let years = (total_days / 365) as usize;
        let rem = total_days % 365;
        let months = (rem / 30) as u8;
        let days = (rem % 30) as u8;
        GuessTime { years, months, days }
    }
}

/// The strength estimate of one generation call: blind bounds assume the
/// attacker knows only character classes and lengths; the seen amount
/// assumes full knowledge of the dictionary and configuration.
#[derive(Clone, Copy, Debug, Default, PartialEq, Eq, Structural)]
pub struct Entropy {
    pub blind_min: usize,
    pub blind_max: usize,
    pub seen: usize,
    pub guess_time: GuessTime,
}

/// The dictionary: word lists keyed by word length, insertion order kept.
#[derive(Debug)]
pub struct Dict {
    entries: Vec<(u8, Vec<String>)>,
}

/// The word list stored under a key, if any.
pub open spec fn spec_dict_lookup(entries: Seq<(u8, Seq<Seq<char>>)>, len: u8) -> Option<
    Seq<Seq<char>>,
>
    decreases entries.len(),
{
    if entries.len() == 0 {
        None
    } else if entries[0].0 == len {
        Some(entries[0].1)
    } else {
        spec_dict_lookup(entries.drop_first(), len)
    }
}

impl View for Dict {
    type V = Seq<(u8, Seq<Seq<char>>)>;

    closed spec fn view(&self) -> Seq<(u8, Seq<Seq<char>>)> {
        self.entries@.map_values(|e: (u8, Vec<String>)| (e.0, spec_views(e.1@)))
    }
}

impl Dict {
    /// An empty dictionary.
    pub fn new() -> (r: Self)
        ensures
            r@ =~= Seq::<(u8, Seq<Seq<char>>)>::empty(),
    {
        Dict { entries: Vec::new() }
    }

    /// How many word lengths have a word list.
    pub fn len(&self) -> (r: usize)
        ensures
            r == self@.len(),
    {
        self.entries.len()
    }

    /// Whether no word length has a word list.
    pub fn is_empty(&self) -> (r: bool)
        ensures
            r == (self@.len() == 0),
    {
        self.entries.len() == 0
    }

    /// The word list of the given length, if one was stored.
    pub fn get(&self, len: u8) -> (r: Option<&Vec<String>>)
        ensures
            match r {
                Some(ws) => spec_dict_lookup(self@, len) == Some(spec_views(ws@)),
                None => spec_dict_lookup(self@, len) is None,
            },
    {
        proof {
            assert(self@.skip(0) =~= self@);
        }
        let mut i: usize = 0;
        while i < self.entries.len()
            invariant
                i <= self.entries@.len(),
                self@.len() == self.entries@.len(),
                forall|k: int| 0 <= k < self@.len() ==> #[trigger] self@[k] == (self.entries@[k].0, spec_views(self.entries@[k].1@)),
                spec_dict_lookup(self@, len) == spec_dict_lookup(self@.skip(i as int), len),
            decreases self.entries@.len() - i,
        {
            proof {
                assert(self@.skip(i as int).drop_first() =~= self@.skip(i + 1));
                assert(self@.skip(i as int)[0] == self@[i as int]);
            }
            if self.entries[i].0 == len {
                return Some(&self.entries[i].1);
            }
            i = i + 1;
        }
        proof {
            assert(self@.skip(self@.len() as int) =~= Seq::<(u8, Seq<Seq<char>>)>::empty());
        }
        None
    }

    /// Store a word list under a length, replacing an existing one in place
    /// or appending a new entry at the end.
    pub fn insert(&mut self, len: u8, words: Vec<String>)
        ensures
            spec_dict_lookup(final(self)@, len) == Some(spec_views(words@)),
            final(self)@.len() >= old(self)@.len(),
            forall|k: u8|
                k != len ==> #[trigger] spec_dict_lookup(final(self)@, k) == spec_dict_lookup(
                    old(self)@,
                    k,
                ),
    {
        let ghost old_view = self@;
        let mut i: usize = 0;
        while i < self.entries.len()
            invariant
                old_view == old(self)@,
                i <= self.entries@.len(),
                self@ == old_view,
                old_view.len() == self.entries@.len(),
                forall|k: int| 0 <= k < self@.len() ==> #[trigger] self@[k] == (self.entries@[k].0, spec_views(self.entries@[k].1@)),
                forall|k: int| 0 <= k < i ==> #[trigger] old_view[k].0 != len,
            decreases self.entries@.len() - i,
        {
            if self.entries[i].0 == len {
                self.entries.set(i, (len, words));
                proof {
                    assert(self@ =~= old_view.update(i as int, (len, spec_views(words@))));
                    lemma_dict_lookup_update(old_view, i as int, len, spec_views(words@));
                }
                return ;
            }
            i = i + 1;
        }
        self.entries.push((len, words));
        proof {
            assert(self@ =~= old_view.push((len, spec_views(words@))));
            lemma_dict_lookup_push(old_view, len, spec_views(words@));
        }
    }
}

/// Updating the first entry that carries a key changes only that key's
/// lookup.
proof fn lemma_dict_lookup_update(
    entries: Seq<(u8, Seq<Seq<char>>)>,
    i: int,
    len: u8,
    words: Seq<Seq<char>>,
)
    requires
        0 <= i < entries.len(),
        entries[i].0 == len,
        forall|k: int| 0 <= k < i ==> #[trigger] entries[k].0 != len,
    ensures
        spec_dict_lookup(entries.update(i, (len, words)), len) == Some(words),
        forall|k: u8|
            k != len ==> #[trigger] spec_dict_lookup(entries.update(i, (len, words)), k)
                == spec_dict_lookup(entries, k),
    decreases entries.len(),
{
    let updated = entries.update(i, (len, words));
    if i == 0 {
        assert(updated[0] == (len, words));
        assert(updated.drop_first() =~= entries.drop_first());
        assert forall|k: u8| k != len implies #[trigger] spec_dict_lookup(updated, k)
            == spec_dict_lookup(entries, k) by {
            assert(spec_dict_lookup(updated, k) == spec_dict_lookup(updated.drop_first(), k));
            assert(spec_dict_lookup(entries, k) == spec_dict_lookup(entries.drop_first(), k));
        }
    } else {
        assert(updated[0] == entries[0]);
        assert(updated.drop_first() =~= entries.drop_first().update(i - 1, (len, words)));
        lemma_dict_lookup_update(entries.drop_first(), i - 1, len, words);
        assert(entries[0].0 != len);
        assert(spec_dict_lookup(updated, len) == spec_dict_lookup(updated.drop_first(), len));
        assert forall|k: u8| k != len implies #[trigger] spec_dict_lookup(updated, k)
            == spec_dict_lookup(entries, k) by {
            if updated[0].0 == k {
            } else {
                assert(spec_dict_lookup(updated, k) == spec_dict_lookup(updated.drop_first(), k));
                assert(spec_dict_lookup(entries, k) == spec_dict_lookup(entries.drop_first(), k));
            }
        }
    }
}

/// Appending an entry with a fresh key changes only that key's lookup.
proof fn lemma_dict_lookup_push(entries: Seq<(u8, Seq<Seq<char>>)>, len: u8, words: Seq<Seq<char>>)
    requires
        forall|k: int| 0 <= k < entries.len() ==> #[trigger] entries[k].0 != len,
    ensures
        spec_dict_lookup(entries.push((len, words)), len) == Some(words),
        forall|k: u8|
            k != len ==> #[trigger] spec_dict_lookup(entries.push((len, words)), k)
                == spec_dict_lookup(entries, k),
    decreases entries.len(),
{
    let pushed = entries.push((len, words));
    if entries.len() == 0 {
        assert(pushed[0] == (len, words));
        assert(pushed.drop_first() =~= Seq::<(u8, Seq<Seq<char>>)>::empty());
        assert forall|k: u8| k != len implies #[trigger] spec_dict_lookup(pushed, k)
            == spec_dict_lookup(entries, k) by {
            assert(spec_dict_lookup(pushed, k) == spec_dict_lookup(pushed.drop_first(), k));
        }
    } else {
        assert(pushed[0] == entries[0]);
        assert(pushed.drop_first() =~= entries.drop_first().push((len, words)));
        lemma_dict_lookup_push(entries.drop_first(), len, words);
        assert(entries[0].0 != len);
        assert(spec_dict_lookup(pushed, len) == spec_dict_lookup(pushed.drop_first(), len));
        assert forall|k: u8| k != len implies #[trigger] spec_dict_lookup(pushed, k)
            == spec_dict_lookup(entries, k) by {
            if pushed[0].0 == k {
            } else {
                assert(spec_dict_lookup(pushed, k) == spec_dict_lookup(pushed.drop_first(), k));
                assert(spec_dict_lookup(entries, k) == spec_dict_lookup(entries.drop_first(), k));
            }
        }
    }
}

/// Relies on core::str::from_utf8: whether the bytes are valid UTF-8.
#[verifier::external_body]
fn check_utf8(bytes: &[u8]) -> (r: bool)
    ensures
        r == valid_utf8(bytes@),
{
    core::str::from_utf8(bytes).is_ok()
}

/// The characters a byte sequence decodes to; empty when it is not valid
/// UTF-8.
pub open spec fn spec_word_chars(bs: Seq<u8>) -> Seq<char> {
    if valid_utf8(bs) {
        decode_utf8(bs)
    } else {
        Seq::empty()
    }
}

/// Relies on core::str::from_utf8: on valid UTF-8 the decoded characters;
/// anything else becomes the empty string.
#[verifier::external_body]
fn utf8_to_string(bytes: &[u8]) -> (r: String)
    ensures
        r@ == spec_word_chars(bytes@),
{
    String::from_str(core::str::from_utf8(bytes).unwrap_or(""))
}

/// The decoded words of a list of comma-separated segments.
pub open spec fn spec_words_of(parts: Seq<Seq<u8>>) -> Seq<Seq<char>> {
    parts.map_values(|w: Seq<u8>| spec_word_chars(w))
}

/// What one dictionary line means: the outer `None` is a malformed length
/// number; `Some(None)` is a blank line to skip; `Some(Some(entry))` gives
/// the word length and the decoded words.
pub open spec fn spec_line_entry(line: Seq<u8>) -> Option<Option<(u8, Seq<Seq<char>>)>> {
    let t = spec_trim_bytes(line);
    if t.len() == 0 {
        Some(None)
    } else {
        let segs = spec_split_bytes(t, 58);
        let key = segs[0];
        if key.len() >= 1 && spec_all_digits(key) && spec_dec_value(key) <= 255 {
            let rest = if segs.len() >= 2 {
                segs[1]
            } else {
                Seq::empty()
            };
            Some(Some((spec_dec_value(key) as u8, spec_words_of(spec_split_bytes(rest, 44)))))
        } else {
            None
        }
    }
}

/// Whether a line parses to an entry carrying the given word length.
pub open spec fn spec_line_has_key(line: Seq<u8>, key: u8) -> bool {
    spec_line_entry(line) matches Some(Some(e)) && e.0 == key
}

/// A dictionary read from its text format: one line per word length, the
/// length, a colon, and the comma-separated words. Surrounding whitespace
/// is dropped, blank lines are skipped, input that is not UTF-8 yields an
/// empty dictionary, and a malformed length number is an error.
pub fn load_dict(bytes: &[u8]) -> (r: Result<Dict, String>)
    ensures
        !valid_utf8(bytes@) ==> (r matches Ok(d) && d@.len() == 0),
        valid_utf8(bytes@) ==> ({
            let lines = spec_split_bytes(spec_trim_bytes(bytes@), 10);
            &&& (r is Err <==> exists|k: int|
                0 <= k < lines.len() && spec_line_entry(#[trigger] lines[k]) is None)
            &&& (r matches Ok(d) ==> forall|key: u8|
                (#[trigger] spec_dict_lookup(d@, key)) matches Some(ws) ==> exists|k: int|
                    0 <= k < lines.len() && spec_line_entry(#[trigger] lines[k]) == Some(
                        Some((key, ws)),
                    ))
            &&& (r matches Ok(d) ==> forall|k: int|
                0 <= k < lines.len() ==> ((#[trigger] spec_line_entry(lines[k])) matches Some(
                    Some(e),
                ) ==> spec_dict_lookup(d@, e.0) is Some))
            &&& (r matches Ok(d) ==> forall|k: int|
                0 <= k < lines.len() ==> ((#[trigger] spec_line_entry(lines[k])) matches Some(
                    Some(e),
                ) ==> ((forall|k2: int|
                    k < k2 < lines.len() ==> !spec_line_has_key(#[trigger] lines[k2], e.0))
                    ==> spec_dict_lookup(d@, e.0) == Some(e.1))))
        }),
{
    if !check_utf8(bytes) {
        return Ok(Dict::new());
    }
    let (a, b) = trim_bytes(bytes);
    let trimmed = copy_range(bytes, a, b);
    let lines = split_bytes(trimmed.as_slice(), 10);
    let ghost lviews = spec_split_bytes(spec_trim_bytes(bytes@), 10);
    proof {
        assert(spec_u8_views(lines@) == lviews);
    }

    let mut dict = Dict::new();
    let mut li: usize = 0;
    while li < lines.len()
        invariant
            valid_utf8(bytes@),
            lviews == spec_split_bytes(spec_trim_bytes(bytes@), 10),
            li <= lines@.len(),
            spec_u8_views(lines@) == lviews,
            lviews.len() == lines@.len(),
            forall|k: int| 0 <= k < li ==> spec_line_entry(#[trigger] lviews[k]) is Some,
            forall|key: u8|
                (#[trigger] spec_dict_lookup(dict@, key)) matches Some(ws) ==> exists|k: int|
                    0 <= k < li && spec_line_entry(#[trigger] lviews[k]) == Some(Some((key, ws))),
            forall|k: int|
                0 <= k < li ==> ((#[trigger] spec_line_entry(lviews[k])) matches Some(Some(e))
                    ==> spec_dict_lookup(dict@, e.0) is Some),
            forall|k: int|
                0 <= k < li ==> ((#[trigger] spec_line_entry(lviews[k])) matches Some(Some(e))
                    ==> ((forall|k2: int|
                    k < k2 < li ==> !spec_line_has_key(#[trigger] lviews[k2], e.0))
                    ==> spec_dict_lookup(dict@, e.0) == Some(e.1))),
        decreases lines@.len() - li,
    {
        proof {
            assert(lviews[li as int] == (#[trigger] lines@[li as int])@);
        }
        let (la, lb) = trim_bytes(lines[li].as_slice());
        let ghost tv = spec_trim_bytes(lviews[li as int]);
        if lb > la {
            let tline = copy_range(lines[li].as_slice(), la, lb);
            proof {
                assert(tline@ == tv);
            }
            let segs = split_bytes(tline.as_slice(), 58);
            proof {
                assert(spec_u8_views(segs@)[0] == (segs@[0])@);
            }
            match parse_u8_bytes(segs[0].as_slice()) {
                None => {
                    proof {
                        assert(spec_line_entry(lviews[li as int]) is None);
                        assert(exists|k: int|
                            0 <= k < lviews.len() && spec_line_entry(#[trigger] lviews[k])
                                is None);
                    }
                    return Err(String::from_str("invalid word length in dictionary"));
                },
                Some(key) => {
                    let empty_rest: Vec<u8> = Vec::new();
                    let rest_slice: &[u8] = if segs.len() >= 2 {
                        proof {
                            assert(spec_u8_views(segs@)[1] == (segs@[1])@);
                        }
                        segs[1].as_slice()
                    } else {
                        empty_rest.as_slice()
                    };
                    let ghost rest_v = if spec_split_bytes(tv, 58).len() >= 2 {
                        spec_split_bytes(tv, 58)[1]
                    } else {
                        Seq::<u8>::empty()
                    };
                    proof {
                        assert(rest_slice@ == rest_v);
                    }
                    let word_parts = split_bytes(rest_slice, 44);
                    let mut words: Vec<String> = Vec::new();
                    let mut wi: usize = 0;
                    while wi < word_parts.len()
                        invariant
                            wi <= word_parts@.len(),
                            words@.len() == wi,
                            forall|k: int|
                                0 <= k < wi ==> (#[trigger] words@[k])@ == spec_word_chars(
                                    spec_u8_views(word_parts@)[k],
                                ),
                        decreases word_parts@.len() - wi,
                    {
                        proof {
                            assert(spec_u8_views(word_parts@)[wi as int] == (
                            #[trigger] word_parts@[wi as int])@);
                        }
                        words.push(utf8_to_string(word_parts[wi].as_slice()));
                        wi = wi + 1;
                    }
                    proof {
                        assert forall|k: int| 0 <= k < words@.len() implies spec_views(words@)[k]
                            == spec_words_of(spec_split_bytes(rest_v, 44))[k] by {
                            assert(spec_views(words@)[k] == (#[trigger] words@[k])@);
                        }
                        assert(spec_views(words@) =~= spec_words_of(spec_split_bytes(rest_v, 44)));
                        assert(spec_line_entry(lviews[li as int]) == Some(
                            Some((key, spec_views(words@))),
                        ));
                    }
                    let ghost old_dict = dict@;
                    dict.insert(key, words);
                    proof {
                        assert forall|k2: u8|
                            (#[trigger] spec_dict_lookup(dict@, k2)) is Some implies exists|k: int|
                                0 <= k < li + 1 && spec_line_entry(#[trigger] lviews[k]) == Some(
                                    Some((k2, spec_dict_lookup(dict@, k2)->Some_0)),
                                ) by {
                            if k2 == key {
                                assert(spec_line_entry(lviews[li as int]) == Some(
                                    Some((k2, spec_dict_lookup(dict@, k2)->Some_0)),
                                ));
                            } else {
                                assert(spec_dict_lookup(dict@, k2) == spec_dict_lookup(
                                    old_dict,
                                    k2,
                                ));
                            }
                        }
                        assert(spec_line_has_key(lviews[li as int], key));
                        assert forall|k: int| 0 <= k < li + 1 implies ((
                        #[trigger] spec_line_entry(lviews[k])) matches Some(Some(e)) ==> ((
                        forall|k2: int|
                            k < k2 < li + 1 ==> !spec_line_has_key(#[trigger] lviews[k2], e.0))
                            ==> spec_dict_lookup(dict@, e.0) == Some(e.1))) by {
                            if let Some(Some(e)) = spec_line_entry(lviews[k]) {
                                if forall|k2: int|
                                    k < k2 < li + 1 ==> !spec_line_has_key(
                                        #[trigger] lviews[k2],
                                        e.0,
                                    ) {
                                    if k == li as int {
                                        assert(e.0 == key && e.1 == spec_views(words@));
                                    } else {
                                        // the new line's key cannot be this entry's key, or
                                        // the no-later-line hypothesis would fail there
                                        assert(!spec_line_has_key(lviews[li as int], e.0));
                                        assert(e.0 != key);
                                        assert(spec_dict_lookup(dict@, e.0) == spec_dict_lookup(
                                            old_dict,
                                            e.0,
                                        ));
                                    }
                                }
                            }
                        }
                    }
                },
            }
        } else {
            proof {
                assert(tv =~= lviews[li as int].subrange(la as int, la as int));
                assert(tv.len() == 0);
                assert(spec_line_entry(lviews[li as int]) == Some(
                    None::<(u8, Seq<Seq<char>>)>,
                ));
                assert(forall|key: u8| !spec_line_has_key(lviews[li as int], key));
            }
        }
        li = li + 1;
    }
    Ok(dict)
}

/// All dictionary words whose length lies in `[lo, hi)`, bucket by bucket
/// in ascending length order, each bucket in its stored order.
pub open spec fn spec_pool(dict: Seq<(u8, Seq<Seq<char>>)>, lo: int, hi: int) -> Seq<Seq<char>>
    decreases hi - lo,
{
    if lo >= hi {
        Seq::empty()
    } else {
        (match spec_dict_lookup(dict, lo as u8) {
            Some(ws) => ws,
            None => Seq::empty(),
        }) + spec_pool(dict, lo + 1, hi)
    }
}

/// The pool over one more length is the pool so far plus that length's
/// bucket.
proof fn lemma_pool_snoc(dict: Seq<(u8, Seq<Seq<char>>)>, lo: int, b: int)
    requires
        lo <= b,
    ensures
        spec_pool(dict, lo, b + 1) =~= spec_pool(dict, lo, b) + (match spec_dict_lookup(
            dict,
            b as u8,
        ) {
            Some(ws) => ws,
            None => Seq::empty(),
        }),
    decreases b - lo,
{
    let bucket = (match spec_dict_lookup(dict, b as u8) {
        Some(ws) => ws,
        None => Seq::<Seq<char>>::empty(),
    });
    let head = (match spec_dict_lookup(dict, lo as u8) {
        Some(ws) => ws,
        None => Seq::<Seq<char>>::empty(),
    });
    if lo < b {
        lemma_pool_snoc(dict, lo + 1, b);
        assert(spec_pool(dict, lo, b + 1) == head + spec_pool(dict, lo + 1, b + 1));
        assert(spec_pool(dict, lo, b) == head + spec_pool(dict, lo + 1, b));
        assert(head + (spec_pool(dict, lo + 1, b) + bucket) =~= (head + spec_pool(dict, lo + 1, b))
            + bucket);
    } else {
        assert(spec_pool(dict, lo, lo) =~= Seq::<Seq<char>>::empty());
        assert(spec_pool(dict, lo, lo + 1) == head + spec_pool(dict, lo + 1, lo + 1));
        assert(spec_pool(dict, lo + 1, lo + 1) =~= Seq::<Seq<char>>::empty());
        assert(head + Seq::<Seq<char>>::empty() =~= Seq::<Seq<char>>::empty() + bucket);
    }
}

/// The character sequences of a list of string slices.
pub open spec fn spec_strs(v: Seq<&str>) -> Seq<Seq<char>> {
    v.map_values(|s: &str| s@)
}

/// What a generation step may return, stated over the profile a randomizer
/// reports of itself. `Settings` is the library's own implementation; a
/// caller may substitute any other source of words and padding.
pub trait Randomizer {
    /// The configuration this randomizer draws from.
    spec fn profile(&self) -> SettingsView;

    /// The half-open range of word lengths to collect from the dictionary.
    fn word_lengths(&self) -> (r: core::ops::Range<u8>)
        requires
            self.profile().wf(),
        ensures
            r.start == self.profile().word_lengths.0,
            r.end == self.profile().word_lengths.1 + 1,
    ;

    /// Words drawn from the pool, each under a transform the mask admits at
    /// its position.
    fn rand_words(&self, pool: &[&str]) -> (r: Vec<String>)
        requires
            self.profile().wf(),
        ensures
            pool@.len() == 0 ==> r@.len() == 0,
            pool@.len() >= 1 ==> r@.len() == self.profile().words_count as int,
            exists|idxs: Seq<int>, ts: Seq<WordTransform>|
                #[trigger] spec_transformed(
                    spec_views(r@),
                    spec_strs(pool@),
                    idxs,
                    ts,
                    self.profile().word_transforms,
                ),
    ;

    /// One separator drawn from the candidates; empty when there are none.
    fn rand_separator(&self) -> (r: String)
        ensures
            spec_symbol_block(r@, self.profile().separators, 1),
    ;

    /// The two leading blocks, in prefix order: padding symbols, then
    /// padding digits.
    fn rand_prefix(&self) -> (r: (String, String))
        ensures
            spec_symbol_block(
                r.0@,
                self.profile().padding_symbols,
                self.profile().padding_symbol_lengths.0 as int,
            ),
            spec_digit_block(r.1@, self.profile().padding_digits.0 as int),
    ;

    /// The two trailing blocks, in suffix order: padding digits, then
    /// padding symbols.
    fn rand_suffix(&self) -> (r: (String, String))
        ensures
            spec_digit_block(r.0@, self.profile().padding_digits.1 as int),
            spec_symbol_block(
                r.1@,
                self.profile().padding_symbols,
                self.profile().padding_symbol_lengths.1 as int,
            ),
    ;

    /// The length correction for an assembled passphrase of the given
    /// length.
    fn adjust_padding(&self, pass_length: usize) -> (r: PaddingResult)
        ensures
            self.profile().padding_strategy is Fixed ==> r is Unchanged,
            self.profile().padding_strategy matches PaddingStrategy::Adaptive(t) ==> {
                &&& (t == pass_length ==> r is Unchanged)
                &&& (t < pass_length ==> r == PaddingResult::TrimTo(t))
                &&& (t > pass_length ==> (r matches PaddingResult::Pad(s) && spec_symbol_block(
                    s@,
                    self.profile().padding_symbols,
                    t - pass_length,
                )))
            },
    ;

    /// The strength estimate for a word pool of the given size: blind bits
    /// are exactly the blind length times the fixed-point alphabet
    /// logarithm, rounded to the nearest bit and saturated at the machine's
    /// largest value; seen bits are exactly the rounded fixed-point sum of
    /// the component logarithms; the guess time is the seen amount's
    /// bucket. All values are deterministic in the profile and pool size.
    fn calc_entropy(&self, pool_size: usize) -> (r: Entropy)
        requires
            self.profile().wf(),
        ensures
            r.blind_min <= r.blind_max,
            pool_size == 0 ==> r.seen == 0,
            r.guess_time == spec_guess_time(r.seen as nat),
            ({
                let lg = spec_log2_fixed16(self.profile().spec_blind_alphabet() as nat) as int;
                let v0 = (self.profile().spec_blind_len_min() * lg + 32768) / 65536;
                let v1 = (self.profile().spec_blind_len_max() * lg + 32768) / 65536;
                &&& r.blind_min as int == (if v0 > usize::MAX as int {
                    usize::MAX as int
                } else {
                    v0
                })
                &&& r.blind_max as int == (if v1 > usize::MAX as int {
                    usize::MAX as int
                } else {
                    v1
                })
            }),
            pool_size >= 1 ==> r.seen as int == spec_seen_exact(self.profile(), pool_size as int),
    ;
}

/// One possible decomposition of an assembled passphrase: a separator and
/// padding blocks consistent with the profile, the transformed words, and
/// the concatenation that ties them together. The digit blocks join the
/// word list as words of their own when they are non-empty.
pub open spec fn spec_assembly_parts(
    p: SettingsView,
    pool: Seq<Seq<char>>,
    sep: Seq<char>,
    pre_sym: Seq<char>,
    pre_dig: Seq<char>,
    ws: Seq<Seq<char>>,
    suf_dig: Seq<char>,
    suf_sym: Seq<char>,
    out: Seq<char>,
) -> bool {
    &&& spec_symbol_block(sep, p.separators, 1)
    &&& spec_symbol_block(pre_sym, p.padding_symbols, p.padding_symbol_lengths.0 as int)
    &&& spec_digit_block(pre_dig, p.padding_digits.0 as int)
    &&& (exists|idxs: Seq<int>, ts: Seq<WordTransform>|
        #[trigger] spec_transformed(ws, pool, idxs, ts, p.word_transforms))
    &&& (pool.len() == 0 ==> ws.len() == 0)
    &&& (pool.len() >= 1 ==> ws.len() == p.words_count as int)
    &&& spec_digit_block(suf_dig, p.padding_digits.1 as int)
    &&& spec_symbol_block(suf_sym, p.padding_symbols, p.padding_symbol_lengths.1 as int)
    &&& out == pre_sym + spec_join(
        (if pre_dig.len() > 0 {
            seq![pre_dig]
        } else {
            Seq::empty()
        }) + ws + (if suf_dig.len() > 0 {
            seq![suf_dig]
        } else {
            Seq::empty()
        }),
        sep,
    ) + suf_sym
}

/// An assembled passphrase decomposes into profile-consistent parts.
pub open spec fn spec_fixed_assembled(p: SettingsView, pool: Seq<Seq<char>>, out: Seq<char>) -> bool {
    exists|
        sep: Seq<char>,
        pre_sym: Seq<char>,
        pre_dig: Seq<char>,
        ws: Seq<Seq<char>>,
        suf_dig: Seq<char>,
        suf_sym: Seq<char>,
    |
        #[trigger] spec_assembly_parts(p, pool, sep, pre_sym, pre_dig, ws, suf_dig, suf_sym, out)
}

/// What an adaptive generation step returns: some decomposable assembled
/// passphrase, truncated to its first `t` characters when it is at least
/// that long, or extended to exactly `t` by one padding-symbol block
/// otherwise.
pub open spec fn spec_adaptive_result(
    p: SettingsView,
    pool: Seq<Seq<char>>,
    t: int,
    out: Seq<char>,
) -> bool {
    exists|raw: Seq<char>|
        {
            &&& #[trigger] spec_fixed_assembled(p, pool, raw)
            &&& (raw.len() >= t ==> out == raw.take(t))
            &&& (raw.len() < t ==> exists|block: Seq<char>|
                #[trigger] spec_symbol_block(block, p.padding_symbols, t - raw.len()) && out == raw
                    + block)
        }
}

/// The passphrase generator: a dictionary together with the assembly of
/// words, separators and padding into one string.
#[derive(Debug)]
pub struct Xkpasswd {
    dict: Dict,
}

impl View for Xkpasswd {
    type V = Seq<(u8, Seq<Seq<char>>)>;

    closed spec fn view(&self) -> Seq<(u8, Seq<Seq<char>>)> {
        self.dict@
    }
}

impl Xkpasswd {
    /// A generator over the given dictionary.
    pub fn new(dict: Dict) -> (r: Self)
        ensures
            r@ == dict@,
    {
        Xkpasswd { dict }
    }

    /// One passphrase and its strength estimate. Under a fixed strategy the
    /// result decomposes into profile-consistent parts; under an adaptive
    /// strategy the result has exactly the target length whenever padding
    /// symbols are available to pad with, and never exceeds the target.
    pub fn gen_pass<S: Randomizer>(&self, settings: &S) -> (r: (String, Entropy))
        requires
            settings.profile().wf(),
        ensures
            ({
                let p = settings.profile();
                let pool = spec_pool(
                    self@,
                    p.word_lengths.0 as int,
                    p.word_lengths.1 as int + 1,
                );
                &&& (p.padding_strategy matches PaddingStrategy::Adaptive(t) ==> {
                    &&& (p.padding_symbols.len() >= 1 ==> r.0@.len() == t)
                    &&& r.0@.len() <= t
                    &&& spec_adaptive_result(p, pool, t as int, r.0@)
                })
                &&& (p.padding_strategy is Fixed ==> spec_fixed_assembled(p, pool, r.0@))
                &&& r.1.blind_min <= r.1.blind_max
                &&& (pool.len() == 0 ==> r.1.seen == 0)
                &&& (pool.len() >= 1 ==> r.1.seen as int == spec_seen_exact(
                    p,
                    pool.len() as int,
                ))
                &&& r.1.guess_time == spec_guess_time(r.1.seen as nat)
            }),
    {
        let ghost p = settings.profile();
        let range = settings.word_lengths();
        let mut all_words: Vec<&str> = Vec::new();
        let mut len: u8 = range.start;
        proof {
            assert(spec_pool(self@, p.word_lengths.0 as int, p.word_lengths.0 as int)
                =~= Seq::<Seq<char>>::empty());
        }
        while len < range.end
            invariant
                range.start == p.word_lengths.0,
                range.end == p.word_lengths.1 + 1,
                range.start <= len <= range.end,
                spec_strs(all_words@) =~= spec_pool(self@, range.start as int, len as int),
            decreases range.end - len,
        {
            let bucket = self.dict.get(len);
            let ghost before = all_words@;
            let ghost bucket_v: Seq<Seq<char>> = match spec_dict_lookup(self@, len) {
                Some(ws) => ws,
                None => Seq::empty(),
            };
            match bucket {
                Some(words) => {
                    proof {
                        assert(bucket_v == spec_views(words@));
                    }
                    let mut j: usize = 0;
                    while j < words.len()
                        invariant
                            j <= words@.len(),
                            bucket_v == spec_views(words@),
                            all_words@.len() == before.len() + j,
                            forall|k: int|
                                0 <= k < before.len() ==> all_words@[k] == #[trigger] before[k],
                            forall|k: int|
                                0 <= k < j ==> (#[trigger] all_words@[before.len() + k])@
                                    == bucket_v[k],
                        decreases words@.len() - j,
                    {
                        proof {
                            assert(spec_views(words@)[j as int] == (#[trigger] words@[j as int])@);
                        }
                        all_words.push(words[j].as_str());
                        j = j + 1;
                    }
                    proof {
                        assert(all_words@.len() == before.len() + bucket_v.len());
                    }
                },
                None => {
                    proof {
                        assert(all_words@ == before);
                        assert(bucket_v.len() == 0);
                    }
                },
            }
            proof {
                lemma_pool_snoc(self@, range.start as int, len as int);
                let target = spec_pool(self@, range.start as int, len as int + 1);
                assert(target =~= spec_pool(self@, range.start as int, len as int) + bucket_v);
                assert(all_words@.len() == before.len() + bucket_v.len());
                assert forall|k: int| 0 <= k < all_words@.len() implies spec_strs(all_words@)[k]
                    == target[k] by {
                    assert(spec_strs(all_words@)[k] == (#[trigger] all_words@[k])@);
                    if k < before.len() {
                        assert(all_words@[k] == before[k]);
                        assert(spec_strs(before)[k] == before[k]@);
                        assert(target[k] == spec_pool(self@, range.start as int, len as int)[k]);
                    } else {
                        assert((all_words@[before.len() + (k - before.len())])@ == bucket_v[k
                            - before.len()]);
                        assert((all_words@[k])@ == bucket_v[k - before.len()]);
                        assert(target[k] == bucket_v[k - before.len()]);
                    }
                }
                assert(spec_strs(all_words@) =~= target);
            }
            len = len + 1;
        }
        proof {
            assert(spec_strs(all_words@) =~= spec_pool(
                self@,
                p.word_lengths.0 as int,
                p.word_lengths.1 as int + 1,
            ));
        }
        let ghost pool_view = spec_strs(all_words@);

        let separator = settings.rand_separator();
        let ghost sep_v = separator@;

        let mut words: Vec<String> = Vec::new();

        let (prefix_symbols, prefix_digits) = settings.rand_prefix();
        let ghost pre_sym_v = prefix_symbols@;
        let ghost pre_dig_v = prefix_digits@;
        if !prefix_digits.as_str().is_empty() {
            words.push(prefix_digits);
        }
        let ghost off = words@.len() as int;
        proof {
            assert(off == if pre_dig_v.len() > 0 { 1int } else { 0int });
            assert(off == 1 ==> (words@[0])@ == pre_dig_v);
        }

        let picked = settings.rand_words(all_words.as_slice());
        let ghost ws_v = spec_views(picked@);
        let ghost n_words = picked@.len() as int;
        let mut wi: usize = 0;
        let ghost words_before = words@;
        while wi < picked.len()
            invariant
                wi <= picked@.len(),
                words@.len() == words_before.len() + wi,
                forall|k: int|
                    0 <= k < words_before.len() ==> (#[trigger] words@[k])@ == words_before[k]@,
                forall|k: int|
                    0 <= k < wi ==> (#[trigger] words@[words_before.len() + k])@ == spec_views(
                        picked@,
                    )[k],
            decreases picked@.len() - wi,
        {
            let w = picked[wi].clone();
            words.push(w);
            wi = wi + 1;
        }
        let ghost words_mid = words@;

        let (suffix_digits, suffix_symbols) = settings.rand_suffix();
        let ghost suf_dig_v = suffix_digits@;
        let ghost suf_sym_v = suffix_symbols@;
        if !suffix_digits.as_str().is_empty() {
            words.push(suffix_digits);
        }

        proof {
            let target = (if pre_dig_v.len() > 0 {
                seq![pre_dig_v]
            } else {
                Seq::<Seq<char>>::empty()
            }) + ws_v + (if suf_dig_v.len() > 0 {
                seq![suf_dig_v]
            } else {
                Seq::<Seq<char>>::empty()
            });
            assert(words_before.len() == off);
            assert(words_mid.len() == off + n_words);
            assert(words@.len() == target.len());
            assert(forall|k: int| 0 <= k < ws_v.len() ==> #[trigger] ws_v[k] == (picked@[k])@);
            assert forall|k: int| 0 <= k < words@.len() implies spec_views(words@)[k]
                == target[k] by {
                assert(spec_views(words@)[k] == (#[trigger] words@[k])@);
                if k < words_mid.len() {
                    assert(words@[k] == words_mid[k]);
                }
                if k < off {
                    assert((words_mid[0])@ == words_before[0]@);
                    assert(target[k] == pre_dig_v);
                } else if k < off + n_words {
                    assert((words_mid[words_before.len() + (k - off)])@ == spec_views(picked@)[k
                        - off]);
                    assert(target[k] == ws_v[k - off]);
                } else {
                    assert(words@[k] == words@[words@.len() - 1]);
                    assert(target[k] == suf_dig_v);
                }
            }
            assert(spec_views(words@) =~= target);
        }

        let joined = join(&words, separator.as_str());
        let mut passwd = prefix_symbols;
        passwd.append(joined.as_str());
        passwd.append(suffix_symbols.as_str());

        let ghost raw_v = passwd@;
        let ghost target_pool = spec_pool(self@, p.word_lengths.0 as int, p.word_lengths.1 as int + 1);
        proof {
            assert(passwd@ == pre_sym_v + spec_join(spec_views(words@), sep_v) + suf_sym_v);
            assert(pool_view == target_pool);
            assert(spec_assembly_parts(
                p,
                target_pool,
                sep_v,
                pre_sym_v,
                pre_dig_v,
                ws_v,
                suf_dig_v,
                suf_sym_v,
                raw_v,
            ));
            assert(spec_fixed_assembled(p, target_pool, raw_v));
        }

        let pass_len = passwd.as_str().unicode_len();
        let adjusted = match settings.adjust_padding(pass_len) {
            PaddingResult::Unchanged => {
                proof {
                    assert(raw_v.take(raw_v.len() as int) =~= raw_v);
                }
                passwd
            },
            PaddingResult::TrimTo(l) => {
                let trimmed = passwd.as_str().substring_char(0, l);
                proof {
                    assert(raw_v.subrange(0, l as int) =~= raw_v.take(l as int));
                }
                String::from_str(trimmed)
            },
            PaddingResult::Pad(padded_symbols) => {
                passwd.append(padded_symbols.as_str());
                passwd
            },
        };

        let entropy = settings.calc_entropy(all_words.len());

        proof {
            match p.padding_strategy {
                PaddingStrategy::Adaptive(t) => {
                    assert(spec_adaptive_result(p, target_pool, t as int, adjusted@));
                },
                PaddingStrategy::Fixed => {},
            }
        }
        (adjusted, entropy)
    }
}

} // verus!
