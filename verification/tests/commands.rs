use daily_planner::cli::{parse_command, parse_id};
use daily_planner::models::Command;

#[test]
fn cli_parse_id_returns_ok_for_number() {
    let result = parse_id(Some("42"));
    assert_eq!(result, Ok(42));
}

#[test]
fn cli_parse_id_errors_for_missing_arg() {
    let result = parse_id(None);
    assert_eq!(result, Err("id is required"));
}

#[test]
fn cli_parse_id_errors_for_non_numeric_arg() {
    let result = parse_id(Some("abc"));
    assert_eq!(result, Err("id must be a number"));
}

#[test]
fn cli_parse_command_add_returns_add_variant() {
    let cmd = parse_command("add buy milk");
    match cmd {
        Ok(Command::Add(title)) => assert_eq!(title, "buy milk"),
        _ => panic!("expected Command::Add"),
    }
}

#[test]
fn cli_parse_command_delete_returns_delete_variant() {
    let cmd = parse_command("delete 7");
    match cmd {
        Ok(Command::Delete(id)) => assert_eq!(id, 7),
        _ => panic!("expected Command::Delete"),
    }
}

#[test]
fn cli_parse_command_unknown_returns_error() {
    let cmd = parse_command("wat");
    assert_eq!(cmd, Err("unknown command"));
}

#[test]
fn cli_parse_command_add_missing_title_returns_error() {
    let cmd = parse_command("add");
    assert_eq!(cmd, Err("title is required"));
}

#[test]
fn cli_parse_command_delete_non_numeric_id_returns_error() {
    let cmd = parse_command("delete abc");
    assert_eq!(cmd, Err("id must be a number"));
}

#[test]
fn main_parse_id_returns_ok_for_number() {
    let result = parse_id(Some("42"));
    assert_eq!(result, Ok(42));
}

#[test]
fn main_parse_id_errors_for_missing_arg() {
    let result = parse_id(None);
    assert_eq!(result, Err("id is required"));
}

#[test]
fn main_parse_id_errors_for_non_numeric_arg() {
    let result = parse_id(Some("abc"));
    assert_eq!(result, Err("id must be a number"));
}

#[test]
fn main_parse_command_add_returns_add_variant() {
    let cmd = parse_command("add buy milk");
    match cmd {
        Ok(Command::Add(title)) => assert_eq!(title, "buy milk"),
        _ => panic!("expected Command::Add"),
    }
}

#[test]
fn main_parse_command_delete_returns_delete_variant() {
    let cmd = parse_command("delete 7");
    match cmd {
        Ok(Command::Delete(id)) => assert_eq!(id, 7),
        _ => panic!("expected Command::Delete"),
    }
}

#[test]
fn main_parse_command_unknown_returns_error() {
    let cmd = parse_command("wat");
    assert_eq!(cmd, Err("unknown command"));
}

#[test]
fn main_parse_command_add_missing_title_returns_error() {
    let cmd = parse_command("add");
    assert_eq!(cmd, Err("title is required"));
}

#[test]
fn main_parse_command_delete_non_numeric_id_returns_error() {
    let cmd = parse_command("delete abc");
    assert_eq!(cmd, Err("id must be a number"));
}

#[test]
fn parse_id_accepts_leading_plus_sign() {
    assert_eq!(parse_id(Some("+42")), Ok(42));
}

#[test]
fn parse_id_rejects_value_too_large_for_usize() {
    assert_eq!(
        parse_id(Some("99999999999999999999999999")),
        Err("id must be a number")
    );
}

#[test]
fn parse_id_rejects_empty_and_bare_plus() {
    assert_eq!(parse_id(Some("")), Err("id must be a number"));
    assert_eq!(parse_id(Some("+")), Err("id must be a number"));
}

#[test]
fn parse_command_trims_surrounding_whitespace() {
    assert_eq!(parse_command("  list \n"), Ok(Command::List));
    assert_eq!(parse_command("\thelp\r\n"), Ok(Command::Help));
    assert_eq!(parse_command(" exit "), Ok(Command::Exit));
}

#[test]
fn parse_command_complete_variants() {
    match parse_command("complete 3") {
        Ok(Command::Complete(id)) => assert_eq!(id, 3),
        _ => panic!("expected Command::Complete"),
    }
    assert_eq!(parse_command("complete"), Err("id is required"));
    assert_eq!(parse_command("complete x"), Err("id must be a number"));
}

#[test]
fn parse_command_keeps_title_after_first_space() {
    match parse_command("add  leading space kept") {
        Ok(Command::Add(title)) => assert_eq!(title, " leading space kept"),
        _ => panic!("expected Command::Add"),
    }
}

#[test]
fn parse_command_empty_line_is_unknown() {
    assert_eq!(parse_command(""), Err("unknown command"));
    assert_eq!(parse_command("   "), Err("unknown command"));
}

#[test]
fn parse_command_delete_without_argument_requires_id() {
    assert_eq!(parse_command("delete"), Err("id is required"));
}
