use mysqlite::repl::{
    do_meta_command, execute_line, prepare_statement, print_prompt, read_input, RunControl,
    Statement,
};
use mysqlite::row::PrepareResult;
use mysqlite::table::Table;

#[test]
fn prepare_recognises_insert_and_select() {
    match prepare_statement("insert 3 carol carol@x") {
        Ok(Statement::Insert(row)) => {
            assert_eq!(row.id, 3);
            assert_eq!(row.username_str(), "carol");
            assert_eq!(row.email_str(), "carol@x");
        }
        _ => panic!("expected an insert"),
    }
    assert!(matches!(prepare_statement("select"), Ok(Statement::Select)));
    assert!(matches!(prepare_statement("select anything"), Ok(Statement::Select)));
    assert!(matches!(
        prepare_statement("update 1"),
        Err(PrepareResult::UnrecognizedStatement)
    ));
    assert!(matches!(
        prepare_statement("insertx 1 a b"),
        Err(PrepareResult::SyntaxError)
    ));
}

#[test]
fn meta_commands() {
    assert!(matches!(do_meta_command(".exit"), Ok(RunControl::Exit)));
    assert!(do_meta_command(".exi").is_err());
    assert!(do_meta_command(".exit now").is_err());
}

#[test]
fn input_is_trimmed() {
    assert_eq!(read_input("  select \n"), "select");
    assert_eq!(read_input(" \t\n"), "");
    assert_eq!(read_input("\u{a0}a b\u{2003}"), "a b");
}

#[test]
fn prompt_text() {
    let mut out = b"x".to_vec();
    print_prompt(&mut out);
    assert_eq!(out, b"xmysqlite> ".to_vec());
}

#[test]
fn one_line_at_a_time() {
    let mut table = Table::new(Vec::new());
    let mut out = Vec::new();
    assert!(execute_line(&mut table, "insert 1 a b\n", &mut out).is_none());
    assert!(out.is_empty());
    assert!(execute_line(&mut table, "select\n", &mut out).is_none());
    assert_eq!(out, b"(1 a b)\n".to_vec());
    let writes = execute_line(&mut table, ".exit\n", &mut out).unwrap();
    assert_eq!(writes.len(), 1);
    assert_eq!(table.file().len(), 291);
}
