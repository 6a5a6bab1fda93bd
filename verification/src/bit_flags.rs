//! Word transforms as named bits of a `u8` mask, with explicit
//! `from_flag` / `union` / `has_flag` / `to_flags` operations.

use vstd::prelude::*;

verus! {

/// Width of a combined transform mask.
pub type FieldSize = u8;

/// The closed set of case transforms. The first four are single transforms
/// and may be combined; the two altercase values are group transforms that
/// override any single ones combined with them.
#[derive(Clone, Copy, Debug, PartialEq, Eq, Structural)]
pub enum WordTransform {
    Lowercase,
    Titlecase,
    Uppercase,
    InversedTitlecase,
    AltercaseLowerFirst,
    AltercaseUpperFirst,
}

/// Bit assigned to each transform inside a mask.
pub open spec fn spec_flag(t: WordTransform) -> FieldSize {
    match t {
        WordTransform::Lowercase => 0x01,
        WordTransform::Titlecase => 0x02,
        WordTransform::Uppercase => 0x04,
        WordTransform::InversedTitlecase => 0x08,
        WordTransform::AltercaseLowerFirst => 0x40,
        WordTransform::AltercaseUpperFirst => 0x80,
    }
}

/// Whether the mask has the bit of `t` set.
pub open spec fn spec_has_flag(mask: FieldSize, t: WordTransform) -> bool {
    mask & spec_flag(t) != 0
}

/// A mask holding exactly one transform.
pub fn from_flag(t: WordTransform) -> (r: FieldSize)
    ensures
        r == spec_flag(t),
{
    match t {
        WordTransform::Lowercase => 0x01,
        WordTransform::Titlecase => 0x02,
        WordTransform::Uppercase => 0x04,
        WordTransform::InversedTitlecase => 0x08,
        WordTransform::AltercaseLowerFirst => 0x40,
        WordTransform::AltercaseUpperFirst => 0x80,
    }
}

/// Bitwise union of a mask with one more transform.
pub fn union(mask: FieldSize, t: WordTransform) -> (r: FieldSize)
    ensures
        r == (mask | spec_flag(t)),
{
    mask | from_flag(t)
}

/// Non-zero test of the bitwise intersection; never mutates the mask.
pub fn has_flag(mask: FieldSize, t: WordTransform) -> (r: bool)
    ensures
        r == spec_has_flag(mask, t),
{
    mask & from_flag(t) != 0
}

/// One-element sequence holding `t` when the mask has its bit set,
/// empty otherwise.
pub open spec fn spec_flag_entry(mask: FieldSize, t: WordTransform) -> Seq<WordTransform> {
    if spec_has_flag(mask, t) {
        seq![t]
    } else {
        Seq::empty()
    }
}

/// The transforms of a mask, enumerated in the fixed priority order used
/// for display: group flags first, then the single flags.
pub open spec fn spec_to_flags(mask: FieldSize) -> Seq<WordTransform> {
    spec_flag_entry(mask, WordTransform::AltercaseUpperFirst)
        + spec_flag_entry(mask, WordTransform::AltercaseLowerFirst)
        + spec_flag_entry(mask, WordTransform::Lowercase)
        + spec_flag_entry(mask, WordTransform::Titlecase)
        + spec_flag_entry(mask, WordTransform::Uppercase)
        + spec_flag_entry(mask, WordTransform::InversedTitlecase)
}

/// Set bits of the mask as a list, group flags listed before single flags.
pub fn to_flags(mask: FieldSize) -> (r: Vec<WordTransform>)
    ensures
        r@ == spec_to_flags(mask),
{
    let mut flags: Vec<WordTransform> = Vec::new();
    if has_flag(mask, WordTransform::AltercaseUpperFirst) {
        flags.push(WordTransform::AltercaseUpperFirst);
    }
    if has_flag(mask, WordTransform::AltercaseLowerFirst) {
        flags.push(WordTransform::AltercaseLowerFirst);
    }
    if has_flag(mask, WordTransform::Lowercase) {
        flags.push(WordTransform::Lowercase);
    }
    if has_flag(mask, WordTransform::Titlecase) {
        flags.push(WordTransform::Titlecase);
    }
    if has_flag(mask, WordTransform::Uppercase) {
        flags.push(WordTransform::Uppercase);
    }
    if has_flag(mask, WordTransform::InversedTitlecase) {
        flags.push(WordTransform::InversedTitlecase);
    }
    proof {
        assert(flags@ =~= spec_to_flags(mask));
    }
    flags
}

/// Display name of a transform.
pub open spec fn spec_name(t: WordTransform) -> Seq<char> {
    match t {
        WordTransform::Lowercase => "lowercase"@,
        WordTransform::Uppercase => "UPPERCASE"@,
        WordTransform::Titlecase => "Titlecase"@,
        WordTransform::InversedTitlecase => "iNVERSED tITLECASE"@,
        WordTransform::AltercaseLowerFirst => "altercase LOWER first"@,
        WordTransform::AltercaseUpperFirst => "ALTERCASE upper FIRST"@,
    }
}

/// Display name of a transform.
pub fn name(t: WordTransform) -> (r: &'static str)
    ensures
        r@ == spec_name(t),
{
    match t {
        WordTransform::Lowercase => "lowercase",
        WordTransform::Uppercase => "UPPERCASE",
        WordTransform::Titlecase => "Titlecase",
        WordTransform::InversedTitlecase => "iNVERSED tITLECASE",
        WordTransform::AltercaseLowerFirst => "altercase LOWER first",
        WordTransform::AltercaseUpperFirst => "ALTERCASE upper FIRST",
    }
}

/// Display names for a list of transforms, in the same order.
pub fn to_strings(transforms: &Vec<WordTransform>) -> (r: Vec<String>)
    ensures
        r@.len() == transforms@.len(),
        forall|i: int| 0 <= i < r@.len() ==> r@[i]@ == spec_name(transforms@[i]),
{
    let mut out: Vec<String> = Vec::new();
    let mut i: usize = 0;
    while i < transforms.len()
        invariant
            i <= transforms@.len(),
            out@.len() == i,
            forall|j: int| 0 <= j < i ==> out@[j]@ == spec_name(transforms@[j]),
        decreases transforms@.len() - i,
    {
        out.push(String::from_str(name(transforms[i])));
        i = i + 1;
    }
    out
}

} // verus!
