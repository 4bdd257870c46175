use cargonauts_cli::edit::{add_route, insert_entry};
use cargonauts_cli::locate::{get_pos, EditError};
use cargonauts_cli::text::split_lines;

#[test]
fn entry_in_empty_block_follows_the_opener() {
    let edited = add_route("routes! {\n}", "Widget");
    assert_eq!(edited, Ok("routes! {\n    resource Widget {\n    }\n}".to_string()));
}

#[test]
fn entry_in_filled_block_follows_a_blank_line() {
    let edited = add_route("routes! {\n    resource Alpha {\n    }\n}", "Beta");
    assert_eq!(
        edited,
        Ok("routes! {\n    resource Alpha {\n    }\n\n    resource Beta {\n    }\n}".to_string())
    );
}

#[test]
fn lines_around_the_block_stay() {
    let routing = "use cargonauts::*;\n\nroutes! {\n    resource Alpha {\n    }\n}\n\nfn main() {\n}";
    let expected = "use cargonauts::*;\n\nroutes! {\n    resource Alpha {\n    }\n\n    resource Beta {\n    }\n}\n\nfn main() {\n}";
    assert_eq!(add_route(routing, "Beta"), Ok(expected.to_string()));
}

#[test]
fn body_that_holds_only_a_blank_line_is_not_empty() {
    let edited = add_route("routes! {\n\n}", "Widget");
    assert_eq!(edited, Ok("routes! {\n\n\n    resource Widget {\n    }\n}".to_string()));
}

#[test]
fn line_endings_are_written_as_line_feeds() {
    let edited = add_route("routes! {\r\n}\r\n", "Widget");
    assert_eq!(edited, Ok("routes! {\n    resource Widget {\n    }\n}".to_string()));
}

#[test]
fn entry_in_an_indented_block() {
    let edited = add_route("mod app {\n    routes! {\n}\n}", "Widget");
    assert_eq!(
        edited,
        Ok("mod app {\n    routes! {\n    resource Widget {\n    }\n}\n}".to_string())
    );
}

#[test]
fn text_without_block_is_refused() {
    assert_eq!(add_route("fn main() {\n}", "Widget"), Err(EditError::MissingBlock));
    assert_eq!(add_route("", "Widget"), Err(EditError::MissingBlock));
}

#[test]
fn text_with_unclosed_block_is_refused() {
    assert_eq!(add_route("routes! {\n    resource Alpha {\n    }", "Beta"), Err(EditError::MissingBlock));
}

#[test]
fn insert_into_empty_body_adds_two_lines() {
    let mut lines = vec!["routes! {", "}"];
    insert_entry(&mut lines, 0, 1, "    resource Widget {");
    assert_eq!(lines, vec!["routes! {", "    resource Widget {", "    }", "}"]);
}

#[test]
fn insert_into_filled_body_adds_three_lines() {
    let mut lines = vec!["routes! {", "    resource Alpha {", "    }", "}", "// end"];
    insert_entry(&mut lines, 0, 3, "    resource Beta {");
    assert_eq!(
        lines,
        vec![
            "routes! {",
            "    resource Alpha {",
            "    }",
            "",
            "    resource Beta {",
            "    }",
            "}",
            "// end"
        ]
    );
}

#[test]
fn insert_at_the_end_of_the_lines() {
    let mut lines = vec!["a", "b"];
    insert_entry(&mut lines, 0, 2, "h");
    assert_eq!(lines, vec!["a", "b", "", "h", "    }"]);
}

#[test]
fn three_entries_one_after_another() {
    let mut routing = "routes! {\n}\n".to_string();
    for name in ["Alpha", "Beta", "Gamma"].iter() {
        routing = add_route(&routing, name).unwrap();
    }
    let expected = "routes! {\n    resource Alpha {\n    }\n\n    resource Beta {\n    }\n\n    resource Gamma {\n    }\n}";
    assert_eq!(routing, expected);
    assert_eq!(routing.matches("    resource ").count(), 3);
    assert_eq!(get_pos(&split_lines(&routing)), Ok((0, 9)));
}

#[test]
fn entries_added_to_a_filled_block() {
    let mut routing = "routes! {\n    resource Zero {\n    }\n}".to_string();
    for name in ["One", "Two"].iter() {
        routing = add_route(&routing, name).unwrap();
    }
    let expected = "routes! {\n    resource Zero {\n    }\n\n    resource One {\n    }\n\n    resource Two {\n    }\n}";
    assert_eq!(routing, expected);
}

#[test]
fn same_name_twice_gives_two_entries() {
    let once = add_route("routes! {\n}", "Widget").unwrap();
    let twice = add_route(&once, "Widget").unwrap();
    assert_eq!(
        twice,
        "routes! {\n    resource Widget {\n    }\n\n    resource Widget {\n    }\n}"
    );
}

#[test]
fn closing_line_moves_down_by_two_in_an_empty_block() {
    let routing = "// routes\nroutes! {\n}\n";
    assert_eq!(get_pos(&split_lines(routing)), Ok((1, 2)));
    let edited = add_route(routing, "Widget").unwrap();
    assert_eq!(get_pos(&split_lines(&edited)), Ok((1, 4)));
}

#[test]
fn closing_line_moves_down_by_three_in_a_filled_block() {
    let routing = "routes! {\r\n    resource Alpha {\r\n    }\r\n}\r\n";
    assert_eq!(get_pos(&split_lines(routing)), Ok((0, 3)));
    let edited = add_route(routing, "Beta").unwrap();
    assert_eq!(get_pos(&split_lines(&edited)), Ok((0, 6)));
}

#[test]
fn name_with_a_line_feed_adds_a_line_of_its_own() {
    let edited = add_route("routes! {\n}", "A\nB").unwrap();
    assert_eq!(edited, "routes! {\n    resource A\nB {\n    }\n}");
    assert_eq!(get_pos(&split_lines(&edited)), Ok((0, 4)));
}

#[test]
fn empty_lines_at_the_end_of_the_text_lose_one() {
    let edited = add_route("routes! {\n}\n\n\n", "Widget").unwrap();
    assert_eq!(edited, "routes! {\n    resource Widget {\n    }\n}\n\n");
}

#[test]
fn carriage_returns_inside_a_line_stay() {
    let edited = add_route("// a\rb\r\nroutes! {\r\n}", "Widget").unwrap();
    assert_eq!(edited, "// a\rb\nroutes! {\n    resource Widget {\n    }\n}");
}
