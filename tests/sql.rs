use mini_lsm::sql::query::{get_cols, schema_file, table_file, DataType, SelectCols};
use mini_lsm::sql::tokenize::{parse, tokenize, Token};

#[test]
fn tokenize_select() {
    let tokens = tokenize("SELECT id, name FROM users");
    assert_eq!(
        tokens,
        vec![Token::Select, Token::Identifier("name".to_string()), Token::From, Token::Identifier("users".to_string())]
    );
}

#[test]
fn tokenize_whitespace_and_underscores() {
    let tokens = tokenize("  SELECT\tuser_id\nFROM  t1  ");
    assert_eq!(
        tokens,
        vec![Token::Select, Token::Identifier("user_id".to_string()), Token::From, Token::Identifier("t1".to_string())]
    );
    assert!(tokenize("").is_empty());
    assert!(tokenize("select * ,").iter().all(|t| *t == Token::Identifier("select".to_string())));
}

#[test]
fn get_cols_all_and_list() {
    assert_eq!(get_cols("  * "), SelectCols::All);
    assert_eq!(
        get_cols(" id, name ,age"),
        SelectCols::Cols(vec!["id".to_string(), "name".to_string(), "age".to_string()])
    );
    assert_eq!(get_cols("a,,b"), SelectCols::Cols(vec!["a".to_string(), "".to_string(), "b".to_string()]));
}

#[test]
fn data_type_defaults() {
    assert_eq!(DataType::INT.default(), "0");
    assert_eq!(DataType::DEC.default(), "0.0");
    assert_eq!(DataType::VARCHAR(10).default(), "");
    assert_eq!(DataType::BOOL.default(), "false");
    assert_eq!(DataType::ENUM(vec!["x".to_string(), "y".to_string()]).default(), "x");
}

#[test]
fn file_names() {
    assert_eq!(schema_file("users"), "users.schema.json");
    assert_eq!(table_file("users"), "users.json");
}

#[test]
fn parse_tables_and_columns() {
    let parsed = parse(&tokenize("SELECT id, name FROM users"));
    assert_eq!(parsed, vec![("name".to_string(), vec![]), ("users".to_string(), vec![])]);
    let parsed = parse(&tokenize("SELECT a b c FROM t"));
    assert_eq!(
        parsed,
        vec![("a".to_string(), vec!["b".to_string(), "c".to_string()]), ("t".to_string(), vec![])]
    );
}

#[test]
fn parse_later_table_replaces_earlier() {
    let parsed = parse(&tokenize("a x FROM a y"));
    assert_eq!(parsed, vec![("a".to_string(), vec!["y".to_string()])]);
    assert!(parse(&[]).is_empty());
    assert!(parse(&[Token::Select, Token::From]).is_empty());
}

use mini_lsm::sql::command::{get_command_type, CommandType, MetaCommand, SQLCommand};

#[test]
fn command_classification() {
    assert_eq!(SQLCommand::new("select * from t".to_string()), SQLCommand::Select("select * from t".to_string()));
    assert_eq!(SQLCommand::new("insert".to_string()), SQLCommand::Insert("insert".to_string()));
    assert_eq!(SQLCommand::new("SELECT x".to_string()), SQLCommand::Unknown("SELECT x".to_string()));
    assert_eq!(MetaCommand::new(".exit".to_string()), MetaCommand::Exit);
    assert_eq!(MetaCommand::new("  .help now".to_string()), MetaCommand::Help);
    assert_eq!(MetaCommand::new(".open db".to_string()), MetaCommand::Open(".open db".to_string()));
    assert_eq!(MetaCommand::new(".tables".to_string()), MetaCommand::Unknown);
    assert_eq!(get_command_type(&".exit".to_string()), CommandType::MetaCommand(MetaCommand::Exit));
    assert_eq!(
        get_command_type(&"create table t".to_string()),
        CommandType::SQLCommand(SQLCommand::CreateTable("create table t".to_string()))
    );
}
