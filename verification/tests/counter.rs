use charfreq::count::create_counter;

#[test]
fn test_empty_string() {
    let counter = create_counter("");
    assert!(counter.is_empty());
}

#[test]
fn test_single_character() {
    let counter = create_counter("a");
    assert_eq!(counter.get('a'), Some(1));
    assert_eq!(counter.len(), 1);
}

#[test]
fn test_multiple_same_characters() {
    let counter = create_counter("aaa");
    assert_eq!(counter.get('a'), Some(3));
    assert_eq!(counter.len(), 1);
}

#[test]
fn test_different_characters() {
    let counter = create_counter("abc");
    assert_eq!(counter.get('a'), Some(1));
    assert_eq!(counter.get('b'), Some(1));
    assert_eq!(counter.get('c'), Some(1));
    assert_eq!(counter.len(), 3);
}

#[test]
fn test_with_whitespace() {
    let counter = create_counter("a b c");
    assert_eq!(counter.get('a'), Some(1));
    assert_eq!(counter.get('b'), Some(1));
    assert_eq!(counter.get('c'), Some(1));
    assert_eq!(counter.len(), 3);
}

#[test]
fn test_case_sensitivity() {
    let counter = create_counter("aAaA");
    assert_eq!(counter.get('a'), Some(2));
    assert_eq!(counter.get('A'), Some(2));
    assert_eq!(counter.len(), 2);
}

#[test]
fn test_special_characters() {
    let counter = create_counter("a!@#$%^&*()");
    assert_eq!(counter.get('a'), Some(1));
    assert_eq!(counter.get('!'), Some(1));
    assert_eq!(counter.get('@'), Some(1));
    assert_eq!(counter.get('#'), Some(1));
    assert_eq!(counter.len(), 11);
}

#[test]
fn test_unicode_characters() {
    let counter = create_counter("Hello, \u{4e16}\u{754c}\u{ff01}\u{1f30d}");
    assert_eq!(counter.get('H'), Some(1));
    assert_eq!(counter.get('\u{4e16}'), Some(1));
    assert_eq!(counter.get('\u{754c}'), Some(1));
    assert_eq!(counter.get('\u{ff01}'), Some(1));
    assert_eq!(counter.get('\u{1f30d}'), Some(1));
    assert_eq!(counter.len(), 9);
}

#[test]
fn test_mixed_unicode_and_ascii() {
    let counter = create_counter("caf\u{e9}\u{2615}\u{fe0f}");
    assert_eq!(counter.get('c'), Some(1));
    assert_eq!(counter.get('a'), Some(1));
    assert_eq!(counter.get('f'), Some(1));
    assert_eq!(counter.get('\u{e9}'), Some(1));
    assert_eq!(counter.get('\u{2615}'), Some(1));
    assert_eq!(counter.len(), 6);
}
