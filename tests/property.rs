use json_ast::{AstPrinter, Property};

#[test]
fn create_property() {
    let property = Property::new("message", ":", "Hello, World!");

    assert_eq!(property.identifier, "message");
    assert_eq!(property.colon, ":");
    assert_eq!(property.value, "Hello, World!");
}

#[test]
fn create_ast_printer() {
    let ast_printer = AstPrinter;

    let property = Property::new("message", ":", "Hello, World!");
    let stringified = property.accept(&ast_printer);

    assert_eq!(stringified, "message:Hello, World!");
}

#[test]
fn invoke_via_visitor() {
    let property = Property::new("message", ":", "Hello, World!");

    let ast_printer = AstPrinter;
    let res = ast_printer.print(&property);

    assert_eq!(res, "message:Hello, World!");
}
