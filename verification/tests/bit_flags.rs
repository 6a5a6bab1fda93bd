use xkpasswd::bit_flags::{from_flag, has_flag, to_flags, union, WordTransform};

#[test]
fn test_bit_or() {
    assert_eq!(
        0b00000101,
        union(from_flag(WordTransform::Lowercase), WordTransform::Uppercase)
    );
    assert_eq!(
        0b00001010,
        union(from_flag(WordTransform::Titlecase), WordTransform::InversedTitlecase)
    );
    assert_eq!(
        0b10000001,
        union(from_flag(WordTransform::Lowercase), WordTransform::AltercaseUpperFirst)
    );
    assert_eq!(
        0b01001010,
        union(
            union(from_flag(WordTransform::Titlecase), WordTransform::InversedTitlecase),
            WordTransform::AltercaseLowerFirst
        )
    );
}

#[test]
fn test_from_flag() {
    assert_eq!(0b00000001, from_flag(WordTransform::Lowercase));
    assert_eq!(0b00000010, from_flag(WordTransform::Titlecase));
    assert_eq!(0b00000100, from_flag(WordTransform::Uppercase));
    assert_eq!(0b00001000, from_flag(WordTransform::InversedTitlecase));
    assert_eq!(0b01000000, from_flag(WordTransform::AltercaseLowerFirst));
    assert_eq!(0b10000000, from_flag(WordTransform::AltercaseUpperFirst));
}

#[test]
fn test_has_flag() {
    let transforms = union(
        union(from_flag(WordTransform::Lowercase), WordTransform::Uppercase),
        WordTransform::AltercaseLowerFirst,
    );
    assert!(has_flag(transforms, WordTransform::Lowercase));
    assert!(has_flag(transforms, WordTransform::Uppercase));
    assert!(has_flag(transforms, WordTransform::AltercaseLowerFirst));
    assert!(!has_flag(transforms, WordTransform::Titlecase));
    assert!(!has_flag(transforms, WordTransform::InversedTitlecase));
    assert!(!has_flag(transforms, WordTransform::AltercaseUpperFirst));
}

#[test]
fn test_to_flags() {
    let transforms = union(from_flag(WordTransform::Titlecase), WordTransform::InversedTitlecase);
    assert_eq!(
        vec![WordTransform::Titlecase, WordTransform::InversedTitlecase],
        to_flags(transforms)
    );

    let transforms = union(
        union(from_flag(WordTransform::Lowercase), WordTransform::Uppercase),
        WordTransform::AltercaseLowerFirst,
    );
    assert_eq!(
        vec![
            WordTransform::AltercaseLowerFirst,
            WordTransform::Lowercase,
            WordTransform::Uppercase,
        ],
        to_flags(transforms)
    );
}
