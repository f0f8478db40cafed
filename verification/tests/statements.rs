use paged_btree::statement::{
    prepare_insert, prepare_statement, PrepareResultError, Statement,
};

fn line(s: &str) -> String {
    String::from(s)
}

#[test]
fn a_full_insert_line_parses() {
    match prepare_statement(&line("insert 1 user1 person1@example.com")) {
        Ok(Statement::Insert(row)) => {
            assert_eq!(row.id, 1);
            assert_eq!(row.username, "user1");
            assert_eq!(row.email, "person1@example.com");
        }
        _ => panic!("a well-formed insert parses"),
    }
}

#[test]
fn select_is_recognized_by_its_prefix() {
    assert!(matches!(
        prepare_statement(&line("select")),
        Ok(Statement::Select)
    ));
    assert!(matches!(
        prepare_statement(&line("select anything")),
        Ok(Statement::Select)
    ));
}

#[test]
fn unknown_keywords_are_unrecognized() {
    assert!(matches!(
        prepare_statement(&line("delete 1")),
        Err(PrepareResultError::UnrecognizedStatement)
    ));
}

#[test]
fn too_few_tokens_is_a_syntax_error() {
    assert!(matches!(
        prepare_insert(&line("insert 1 user1")),
        Err(PrepareResultError::SyntaxError)
    ));
}

#[test]
fn a_negative_id_is_reported_as_such() {
    assert!(matches!(
        prepare_insert(&line("insert -1 user1 a@x")),
        Err(PrepareResultError::NegativeID)
    ));
}

#[test]
fn a_non_numeric_id_is_a_syntax_error() {
    assert!(matches!(
        prepare_insert(&line("insert abc user1 a@x")),
        Err(PrepareResultError::SyntaxError)
    ));
    assert!(matches!(
        prepare_insert(&line("insert 12x user1 a@x")),
        Err(PrepareResultError::SyntaxError)
    ));
}

#[test]
fn an_id_with_a_plus_sign_parses_like_the_standard_parser() {
    match prepare_insert(&line("insert +5 u e@x")) {
        Ok(Statement::Insert(row)) => assert_eq!(row.id, 5),
        _ => panic!("'+5' parses as 5"),
    }
}

#[test]
fn an_id_above_u32_max_is_a_syntax_error() {
    assert!(matches!(
        prepare_insert(&line("insert 4294967296 u e@x")),
        Err(PrepareResultError::SyntaxError)
    ));
    match prepare_insert(&line("insert 4294967295 u e@x")) {
        Ok(Statement::Insert(row)) => assert_eq!(row.id, u32::MAX),
        _ => panic!("u32::MAX still fits"),
    }
}

#[test]
fn over_long_strings_are_rejected() {
    let long_username = "u".repeat(33);
    let input = format!("insert 1 {} ok", long_username);
    assert!(matches!(
        prepare_insert(&input),
        Err(PrepareResultError::StringTooLong)
    ));
    let long_email = "e".repeat(256);
    let input = format!("insert 1 ok {}", long_email);
    assert!(matches!(
        prepare_insert(&input),
        Err(PrepareResultError::StringTooLong)
    ));
}

#[test]
fn boundary_length_strings_are_accepted() {
    let username = "u".repeat(32);
    let email = "e".repeat(255);
    let input = format!("insert 9 {} {}", username, email);
    match prepare_insert(&input) {
        Ok(Statement::Insert(row)) => {
            assert_eq!(row.username, username);
            assert_eq!(row.email, email);
        }
        _ => panic!("boundary lengths are accepted"),
    }
}

#[test]
fn extra_tokens_after_the_email_are_ignored() {
    match prepare_insert(&line("insert 2 name mail@x trailing words")) {
        Ok(Statement::Insert(row)) => {
            assert_eq!(row.id, 2);
            assert_eq!(row.username, "name");
            assert_eq!(row.email, "mail@x");
        }
        _ => panic!("extra tokens are ignored"),
    }
}

#[test]
fn tokens_split_on_any_whitespace_run() {
    match prepare_insert(&line("insert\t 7  name \t mail@x")) {
        Ok(Statement::Insert(row)) => {
            assert_eq!(row.id, 7);
            assert_eq!(row.username, "name");
            assert_eq!(row.email, "mail@x");
        }
        _ => panic!("runs of whitespace separate tokens"),
    }
}
