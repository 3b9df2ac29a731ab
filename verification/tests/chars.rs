use rhtml5::chars::{is_ascii_alphabetic, is_whitespace, to_ascii_lowercase, to_ascii_uppercase};

#[test]
fn character_classes_agree_with_std_on_every_char() {
    for u in 0u32..=0x10FFFF {
        if let Some(c) = char::from_u32(u) {
            assert_eq!(is_whitespace(c), c.is_whitespace(), "{u:#x}");
            assert_eq!(is_ascii_alphabetic(c), c.is_ascii_alphabetic(), "{u:#x}");
            assert_eq!(to_ascii_lowercase(c), c.to_ascii_lowercase(), "{u:#x}");
            assert_eq!(to_ascii_uppercase(c), c.to_ascii_uppercase(), "{u:#x}");
        }
    }
}

#[test]
fn examples_of_character_classes() {
    assert!(is_whitespace('\u{3000}'));
    assert!(is_whitespace('\u{85}'));
    assert!(!is_whitespace('\u{200B}'));
    assert_eq!(to_ascii_lowercase('Q'), 'q');
    assert_eq!(to_ascii_uppercase('é'), 'é');
}
