use cargonauts_cli::locate::{get_pos, EditError};

#[test]
fn empty_block() {
    assert_eq!(get_pos(&["routes! {", "}"]), Ok((0, 1)));
}

#[test]
fn block_with_entries() {
    let lines = ["routes! {", "    resource Alpha {", "    }", "}"];
    assert_eq!(get_pos(&lines), Ok((0, 3)));
}

#[test]
fn block_after_other_lines() {
    let lines = ["use cargonauts::*;", "", "routes! {", "", "}", "// end"];
    assert_eq!(get_pos(&lines), Ok((2, 4)));
}

#[test]
fn closing_lines_before_the_block_do_not_count() {
    let lines = ["fn f() {", "}", "routes! {", "}"];
    assert_eq!(get_pos(&lines), Ok((2, 3)));
}

#[test]
fn first_block_wins() {
    let lines = ["routes! {", "}", "routes! {", "    resource Alpha {", "    }", "}"];
    assert_eq!(get_pos(&lines), Ok((0, 1)));
}

#[test]
fn second_opening_line_inside_the_block_is_body() {
    let lines = ["routes! {", "routes! {", "}"];
    assert_eq!(get_pos(&lines), Ok((0, 2)));
}

#[test]
fn opening_line_is_not_tested_for_closing() {
    let lines = ["routes! { }", "}"];
    assert_eq!(get_pos(&lines), Ok((0, 1)));
}

#[test]
fn closing_line_may_go_on_after_the_brace() {
    let lines = ["routes!(", "    x", "} // done"];
    assert_eq!(get_pos(&lines), Ok((0, 2)));
}

#[test]
fn indented_braces_are_body() {
    let lines = ["routes! {", "    }", "  }", "\t}", "}"];
    assert_eq!(get_pos(&lines), Ok((0, 4)));
}

#[test]
fn indented_opening_line_opens_the_block() {
    let lines = ["    routes! {", "}"];
    assert_eq!(get_pos(&lines), Ok((0, 1)));
    let lines = ["// routing", "\t routes! {", "    }", "}"];
    assert_eq!(get_pos(&lines), Ok((1, 3)));
}

#[test]
fn opening_token_must_come_first_on_its_line() {
    let lines = ["// routes! {", "}"];
    assert_eq!(get_pos(&lines), Err(EditError::MissingBlock));
    let lines = ["   ", "  x routes!", "}"];
    assert_eq!(get_pos(&lines), Err(EditError::MissingBlock));
}

#[test]
fn indented_closing_line_closes_nothing() {
    let lines = ["routes! {", "    }"];
    assert_eq!(get_pos(&lines), Err(EditError::MissingBlock));
}

#[test]
fn no_lines_no_block() {
    assert_eq!(get_pos(&[]), Err(EditError::MissingBlock));
}

#[test]
fn lines_without_opening_line() {
    assert_eq!(get_pos(&["fn main() {", "}"]), Err(EditError::MissingBlock));
}

#[test]
fn block_that_is_never_closed() {
    let lines = ["routes! {", "    resource Alpha {", "    }"];
    assert_eq!(get_pos(&lines), Err(EditError::MissingBlock));
    assert_eq!(get_pos(&["routes! {"]), Err(EditError::MissingBlock));
}

#[test]
fn missing_block_message() {
    assert_eq!(EditError::MissingBlock.message(), "No routes macro in routing.rs");
}
