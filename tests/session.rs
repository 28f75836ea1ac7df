use mysqlite::repl::run;

fn run_scripts(commands: &[&str], image: &mut Vec<u8>) -> String {
    let lines: Vec<String> = commands.iter().map(|c| c.to_string()).collect();
    let mut output: Vec<u8> = Vec::new();
    let after = run(&lines, &mut output, image.clone());
    *image = after;
    String::from_utf8(output).unwrap()
}

#[test]
fn test_simple_insert_and_select() {
    let scripts = ["insert 1 user1 person1@example.com", "select", ".exit"];
    let mut image = Vec::new();
    let output = run_scripts(&scripts, &mut image);

    assert_eq!(
        output,
        "mysqlite> mysqlite> (1 user1 person1@example.com)\nmysqlite> "
    );
}

#[test]
fn test_username_max_length() {
    let scripts = [
        "insert 1 abcdefghijklmnopqrstuvwxyzabcdef a@b.com",
        "select",
        ".exit",
    ];
    let mut image = Vec::new();
    let output = run_scripts(&scripts, &mut image);

    assert_eq!(
        output,
        "mysqlite> mysqlite> (1 abcdefghijklmnopqrstuvwxyzabcdef a@b.com)\nmysqlite> "
    );
}

#[test]
fn test_username_too_long() {
    let scripts = [
        "insert 1 abcdefghijklmnopqrstuvwxyzabcdefg a@b.com",
        ".exit",
    ];
    let mut image = Vec::new();
    let output = run_scripts(&scripts, &mut image);

    assert_eq!(output, "mysqlite> String is too long.\nmysqlite> ");
}

#[test]
fn test_email_max_length() {
    let n = 255;
    let insert_str = &format!("insert 1 u {0:a<1$}", "", n);
    let scripts = [insert_str.as_str(), ".exit"];
    let mut image = Vec::new();
    let output = run_scripts(&scripts, &mut image);

    assert_eq!(output, "mysqlite> mysqlite> ");
}

#[test]
fn test_email_too_long() {
    let n = 256;
    let insert_str = &format!("insert 1 u {0:a<1$}", "", n);
    let scripts = [insert_str.as_str(), ".exit"];
    let mut image = Vec::new();
    let output = run_scripts(&scripts, &mut image);

    assert_eq!(output, "mysqlite> String is too long.\nmysqlite> ");
}

#[test]
fn test_persistent_data() {
    let scripts = ["insert 1 user1 person1@example.com", ".exit"];
    let mut image = Vec::new();
    let output = run_scripts(&scripts, &mut image);
    assert_eq!(output, "mysqlite> mysqlite> ");

    let scripts = ["select", ".exit"];
    let output = run_scripts(&scripts, &mut image);
    assert_eq!(
        output,
        "mysqlite> (1 user1 person1@example.com)\nmysqlite> "
    );
}

#[test]
fn rows_come_back_in_insertion_order() {
    let scripts = [
        "insert 1 a a@x",
        "insert 2 b b@x",
        "insert 3 c c@x",
        "select",
        ".exit",
    ];
    let mut image = Vec::new();
    let output = run_scripts(&scripts, &mut image);
    assert_eq!(
        output,
        "mysqlite> mysqlite> mysqlite> mysqlite> (1 a a@x)\n(2 b b@x)\n(3 c c@x)\nmysqlite> "
    );
}

#[test]
fn fifteen_rows_cross_a_page_and_persist() {
    let mut commands: Vec<String> = Vec::new();
    for i in 1..=15 {
        commands.push(format!("insert {i} user{i} person{i}@example.com"));
    }
    commands.push("select".to_string());
    commands.push(".exit".to_string());
    let refs: Vec<&str> = commands.iter().map(|s| s.as_str()).collect();
    let mut image = Vec::new();
    let output = run_scripts(&refs, &mut image);
    let mut listing = String::new();
    for i in 1..=15 {
        listing.push_str(&format!("(({i} user{i} person{i}@example.com)\n")[1..]);
    }
    let prompts = "mysqlite> ".repeat(16);
    assert_eq!(output, format!("{prompts}{listing}mysqlite> "));
    assert_eq!(image.len(), 4096 + 291);

    let output = run_scripts(&["select", ".exit"], &mut image);
    assert_eq!(output, format!("mysqlite> {listing}mysqlite> "));
}

#[test]
fn full_page_without_remainder_persists() {
    let mut commands: Vec<String> = Vec::new();
    for i in 1..=14 {
        commands.push(format!("insert {i} u{i} e{i}"));
    }
    commands.push(".exit".to_string());
    let refs: Vec<&str> = commands.iter().map(|s| s.as_str()).collect();
    let mut image = Vec::new();
    run_scripts(&refs, &mut image);
    assert_eq!(image.len(), 4096);

    let output = run_scripts(&["insert 15 u15 e15", "select", ".exit"], &mut image);
    assert!(output.contains("(14 u14 e14)\n(15 u15 e15)\n"));
    assert_eq!(image.len(), 4096 + 291);
}

#[test]
fn syntax_errors_are_reported() {
    let mut image = Vec::new();
    let output = run_scripts(
        &["insert", "insert x u e", "insert 1 u", "insert 4294967296 u e", ".exit"],
        &mut image,
    );
    let msg = "mysqlite> Syntax error. Could not parse statement.\n";
    assert_eq!(output, format!("{msg}{msg}{msg}{msg}mysqlite> "));
    assert!(image.is_empty());
}

#[test]
fn unknown_commands_are_reported() {
    let mut image = Vec::new();
    let output = run_scripts(&["  ", "delete 1", ".quit", ".exit"], &mut image);
    assert_eq!(
        output,
        "mysqlite> mysqlite> Unrecognized keyword at start of 'delete 1'.\nmysqlite> Unrecognized command '.quit'\nmysqlite> "
    );
}

#[test]
fn lines_are_trimmed_and_input_may_end_without_exit() {
    let mut image = Vec::new();
    let output = run_scripts(&["   insert 7 bob bob@x  ", "select\n"], &mut image);
    assert_eq!(output, "mysqlite> mysqlite> (7 bob bob@x)\n");
    assert!(image.is_empty());
}

#[test]
fn rejected_insert_leaves_the_file_empty() {
    let mut image = Vec::new();
    let output = run_scripts(
        &["insert 1 abcdefghijklmnopqrstuvwxyzabcdefg a@b.com", "select", ".exit"],
        &mut image,
    );
    assert_eq!(output, "mysqlite> String is too long.\nmysqlite> mysqlite> ");
    assert!(image.is_empty());
}
