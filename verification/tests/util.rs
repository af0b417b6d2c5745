use esh::make_env_ident;

#[test]
fn env_ident_simple_name() {
    assert_eq!(make_env_ident("myapp"), "MYAPP");
}

#[test]
fn env_ident_with_hyphens() {
    assert_eq!(make_env_ident("my-cool-app"), "MY_COOL_APP");
}

#[test]
fn env_ident_with_mixed_case() {
    assert_eq!(make_env_ident("MyApp"), "MYAPP");
}

#[test]
fn env_ident_leading_digits_skipped() {
    assert_eq!(make_env_ident("123app"), "APP");
}

#[test]
fn env_ident_leading_symbols_skipped() {
    assert_eq!(make_env_ident("--app"), "APP");
}

#[test]
fn env_ident_digits_after_alpha_kept() {
    assert_eq!(make_env_ident("app2go"), "APP2GO");
}

#[test]
fn env_ident_consecutive_separators_collapsed() {
    assert_eq!(make_env_ident("a--b__c..d"), "A_B_C_D");
}

#[test]
fn env_ident_trailing_separator_stripped() {
    assert_eq!(make_env_ident("app-"), "APP");
}

#[test]
fn env_ident_empty_input() {
    assert_eq!(make_env_ident(""), "");
}

#[test]
fn env_ident_all_symbols() {
    assert_eq!(make_env_ident("---!!!---"), "");
}

#[test]
fn env_ident_single_char() {
    assert_eq!(make_env_ident("x"), "X");
}

#[test]
fn env_ident_unicode_letters() {
    assert_eq!(make_env_ident("café"), "CAFÉ");
}

#[test]
fn env_ident_spaces_become_underscores() {
    assert_eq!(make_env_ident("my app name"), "MY_APP_NAME");
}

#[test]
fn env_ident_accepts_str_ref() {
    let s = String::from("hello");
    assert_eq!(make_env_ident(&s), "HELLO");
}
