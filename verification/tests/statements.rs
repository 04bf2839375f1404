use rowstore::meta_command::UnrecognizedCommand;
use rowstore::sql::{prepare_statement, PrepareError, Statement};
use rowstore::storage::{Table, USERNAME_LENGTH};

#[test]
fn an_insert_line_builds_a_padded_row() {
    let line = String::from("insert 1 cstack foo@bar.com");
    let statement = prepare_statement(&line).unwrap();
    match statement {
        Statement::Insert { row_to_insert } => {
            assert_eq!(row_to_insert.id, 1);
            assert_eq!(row_to_insert.username.len(), USERNAME_LENGTH);
            assert_eq!(&row_to_insert.username[..6], b"cstack");
            assert!(row_to_insert.username[6..].iter().all(|b| *b == 0));
            assert_eq!(&row_to_insert.email[..11], b"foo@bar.com");
            assert!(row_to_insert.email[11..].iter().all(|b| *b == 0));
        }
        Statement::Select => panic!("expected an insert statement"),
    }
}

#[test]
fn a_prepared_insert_reaches_the_table() {
    let line = String::from("insert 3 Test User");
    let statement = prepare_statement(&line).unwrap();
    let mut table = Table::new();
    match statement {
        Statement::Insert { row_to_insert } => {
            table.insert_row(&row_to_insert).unwrap();
        }
        Statement::Select => panic!("expected an insert statement"),
    }
    let rows = table.all_rows();
    assert_eq!(rows.len(), 1);
    assert_eq!(rows[0].to_display_string(), "3 Test User");
}

#[test]
fn the_select_keyword_alone_is_a_select() {
    let line = String::from("select");
    assert!(matches!(prepare_statement(&line), Ok(Statement::Select)));
}

#[test]
fn an_unknown_line_is_unrecognized_and_echoed_back() {
    let line = String::from("bogus");
    match prepare_statement(&line) {
        Err(PrepareError::UnrecognizedStatement(echoed)) => assert_eq!(echoed, "bogus"),
        _ => panic!("expected an unrecognized statement"),
    }
}

#[test]
fn a_leading_space_hides_the_keyword() {
    let line = String::from(" insert 1 a b");
    assert!(matches!(
        prepare_statement(&line),
        Err(PrepareError::UnrecognizedStatement(_))
    ));
}

#[test]
fn an_insert_with_too_few_arguments_is_rejected() {
    let line = String::from("insert 1 a");
    assert!(matches!(
        prepare_statement(&line),
        Err(PrepareError::NotEnoughArguments)
    ));
}

#[test]
fn a_non_numeric_id_is_a_parse_error() {
    let line = String::from("insert abc user e@example.com");
    assert!(matches!(
        prepare_statement(&line),
        Err(PrepareError::ParseError)
    ));
}

#[test]
fn an_id_beyond_u32_is_a_parse_error() {
    let line = String::from("insert 4294967296 user e@example.com");
    assert!(matches!(
        prepare_statement(&line),
        Err(PrepareError::ParseError)
    ));
}

#[test]
fn the_largest_u32_id_and_a_plus_sign_both_parse() {
    let line = String::from("insert 4294967295 user e@example.com");
    match prepare_statement(&line).unwrap() {
        Statement::Insert { row_to_insert } => assert_eq!(row_to_insert.id, 4294967295),
        Statement::Select => panic!("expected an insert statement"),
    }
    let plus = String::from("insert +42 user e@example.com");
    match prepare_statement(&plus).unwrap() {
        Statement::Insert { row_to_insert } => assert_eq!(row_to_insert.id, 42),
        Statement::Select => panic!("expected an insert statement"),
    }
}

#[test]
fn an_overlong_username_argument_is_rejected() {
    let line = format!("insert 1 {} e@example.com", "a".repeat(33));
    assert!(matches!(
        prepare_statement(&line),
        Err(PrepareError::ArgumentTooLong)
    ));
}

#[test]
fn arguments_past_the_email_are_ignored() {
    let line = String::from("insert 8 user e@example.com extra words");
    match prepare_statement(&line).unwrap() {
        Statement::Insert { row_to_insert } => {
            assert_eq!(row_to_insert.id, 8);
            assert_eq!(&row_to_insert.email[..13], b"e@example.com");
        }
        Statement::Select => panic!("expected an insert statement"),
    }
}

#[test]
fn repeated_whitespace_between_arguments_is_collapsed() {
    let line = String::from("insert\t2   user\t e@example.com");
    match prepare_statement(&line).unwrap() {
        Statement::Insert { row_to_insert } => {
            assert_eq!(row_to_insert.id, 2);
            assert_eq!(&row_to_insert.username[..4], b"user");
        }
        Statement::Select => panic!("expected an insert statement"),
    }
}

#[test]
fn an_unrecognized_meta_command_keeps_its_line() {
    let err = UnrecognizedCommand(String::from(".unknown"));
    assert_eq!(err.0, ".unknown");
}
