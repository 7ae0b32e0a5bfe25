use commit_counter::identity::{identity_from_lowered, is_space, normalize_identity};

#[test]
fn email_name_is_kept_verbatim() {
    assert_eq!(normalize_identity("jane@example.com"), "jane@example.com");
}

#[test]
fn email_name_keeps_its_case() {
    assert_eq!(normalize_identity("Jane@Example.com"), "Jane@Example.com");
}

#[test]
fn first_last_is_lowercased() {
    assert_eq!(normalize_identity("John Smith"), "john smith");
}

#[test]
fn last_comma_first_is_reordered() {
    assert_eq!(normalize_identity("Smith, John"), "john smith");
}

#[test]
fn last_comma_first_without_space() {
    assert_eq!(normalize_identity("Smith,John"), "john smith");
}

#[test]
fn single_word_gets_empty_last_name() {
    assert_eq!(normalize_identity("Madonna"), "madonna ");
}

#[test]
fn middle_names_are_dropped() {
    assert_eq!(normalize_identity("Mary Ann  Evans"), "mary evans");
}

#[test]
fn surrounding_whitespace_is_ignored() {
    assert_eq!(normalize_identity("  \tAda\n Lovelace "), "ada lovelace");
}

#[test]
fn empty_name_gives_single_space() {
    assert_eq!(normalize_identity(""), " ");
}

#[test]
fn lowercase_of_non_ascii_name() {
    assert_eq!(normalize_identity("ÉMILE ZOLA"), "émile zola");
}

#[test]
fn from_lowered_uses_the_given_lowercase_form() {
    assert_eq!(identity_from_lowered("Smith, John", "smith, john"), "john smith");
    assert_eq!(identity_from_lowered("X Y", "a b c"), "a c");
}

#[test]
fn from_lowered_email_uses_raw() {
    assert_eq!(identity_from_lowered("A@B", "a@b"), "A@B");
}

#[test]
fn whitespace_characters() {
    assert!(is_space(' '));
    assert!(is_space('\t'));
    assert!(is_space('\u{3000}'));
    assert!(!is_space('a'));
    assert!(!is_space(','));
}
