use cargonauts_cli::generator::{generate_named, generate_resource};
use cargonauts_cli::locate::EditError;
use cargonauts_cli::names::ResourceNames;
use cargonauts_cli::template::{
    entry_open, reexport, resource_file, resource_path, RESOURCES_MOD_PATH, ROUTING_PATH,
};

#[test]
fn resource_file_declares_the_type() {
    let expected = "use cargonauts::*;\n\npub struct Widget {\n}\n\nimpl Resource for Widget {\n    type Identifier = (); // TODO: Select the identifier type for this resource\n}\n";
    assert_eq!(resource_file("Widget"), expected);
}

#[test]
fn resource_file_of_an_empty_name() {
    let expected = "use cargonauts::*;\n\npub struct  {\n}\n\nimpl Resource for  {\n    type Identifier = (); // TODO: Select the identifier type for this resource\n}\n";
    assert_eq!(resource_file(""), expected);
}

#[test]
fn resource_path_is_under_resources() {
    assert_eq!(resource_path("blog_post"), "src/resources/blog_post.rs");
}

#[test]
fn reexport_declares_module_and_type() {
    assert_eq!(reexport("blog_post", "BlogPost"), "\nmod blog_post;\npub use self::blog_post::BlogPost;\n");
}

#[test]
fn entry_opens_with_the_type_name() {
    assert_eq!(entry_open("BlogPost"), "    resource BlogPost {");
}

#[test]
fn fixed_paths() {
    assert_eq!(RESOURCES_MOD_PATH, "src/resources/mod.rs");
    assert_eq!(ROUTING_PATH, "src/routing.rs");
}

#[test]
fn names_of_two_words() {
    let names = ResourceNames::of("blog post");
    assert_eq!(names.snake, "blog_post");
    assert_eq!(names.camel, "BlogPost");
}

#[test]
fn names_from_camel_case() {
    let names = ResourceNames::of("XMLHttpRequest");
    assert_eq!(names.snake, "xml_http_request");
    assert_eq!(names.camel, "XmlHttpRequest");
}

#[test]
fn names_from_snake_case() {
    let names = ResourceNames::of("user_account");
    assert_eq!(names.snake, "user_account");
    assert_eq!(names.camel, "UserAccount");
}

#[test]
fn names_are_the_same_on_every_call() {
    let first = ResourceNames::of("shopping-cart item");
    let second = ResourceNames::of("shopping-cart item");
    assert_eq!(first.snake, "shopping_cart_item");
    assert_eq!(first.camel, "ShoppingCartItem");
    assert_eq!(first.snake, second.snake);
    assert_eq!(first.camel, second.camel);
}

#[test]
fn generate_from_given_names() {
    let names = ResourceNames { snake: "widget".to_string(), camel: "Widget".to_string() };
    let files = generate_named(&names, "routes! {\n}").unwrap();
    assert_eq!(files.path, "src/resources/widget.rs");
    assert_eq!(files.source, resource_file("Widget"));
    assert_eq!(files.reexport, "\nmod widget;\npub use self::widget::Widget;\n");
    assert_eq!(files.routing, "routes! {\n    resource Widget {\n    }\n}");
}

#[test]
fn generate_spells_the_name() {
    let routing = "routes! {\n    resource Alpha {\n    }\n}\n";
    let files = generate_resource("blog post", routing).unwrap();
    assert_eq!(files.path, "src/resources/blog_post.rs");
    assert_eq!(
        files.source,
        "use cargonauts::*;\n\npub struct BlogPost {\n}\n\nimpl Resource for BlogPost {\n    type Identifier = (); // TODO: Select the identifier type for this resource\n}\n"
    );
    assert_eq!(files.reexport, "\nmod blog_post;\npub use self::blog_post::BlogPost;\n");
    assert_eq!(
        files.routing,
        "routes! {\n    resource Alpha {\n    }\n\n    resource BlogPost {\n    }\n}"
    );
}

#[test]
fn generate_without_block_prepares_nothing() {
    assert_eq!(generate_resource("widget", "fn main() {}\n").err(), Some(EditError::MissingBlock));
    let names = ResourceNames::of("widget");
    assert_eq!(generate_named(&names, "").err(), Some(EditError::MissingBlock));
}
