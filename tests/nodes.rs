use json_ast::{Literal, Node, Parser, ParserError, PrettyPrint, Token, TokenType};

fn text(s: &str) -> Literal {
    Literal::String(s.to_string())
}

fn tok(kind: TokenType, literal: Literal) -> Token {
    Token::new(kind, literal)
}

fn open_brace() -> Token {
    tok(TokenType::LeftBrace, text("{"))
}

fn close_brace() -> Token {
    tok(TokenType::RightBrace, text("}"))
}

fn open_bracket() -> Token {
    tok(TokenType::LeftBracket, text("["))
}

fn close_bracket() -> Token {
    tok(TokenType::RightBracket, text("]"))
}

fn colon() -> Token {
    tok(TokenType::Colon, text(":"))
}

fn comma() -> Token {
    tok(TokenType::Comma, text(","))
}

fn ident(name: &str) -> Token {
    tok(TokenType::Identifier, text(name))
}

fn eof() -> Token {
    tok(TokenType::Eof, Literal::Null)
}

fn number(digits: &str) -> Token {
    tok(TokenType::Number, Literal::Number(digits.to_string()))
}

fn keys(node: &Node) -> Vec<String> {
    match node {
        Node::Object(_, properties, _) => properties
            .iter()
            .map(|p| match p {
                Node::Property(key, _, _) => key.literal.to_string(),
                _ => panic!("an object holds only properties"),
            })
            .collect(),
        _ => panic!("not an object"),
    }
}

#[test]
fn nodes_creation() {
    let pp = PrettyPrint;

    let root = Node::Object(
        open_brace(),
        vec![
            Node::Property(
                ident("number"),
                colon(),
                Box::new(Node::Primary(Literal::Number("32".to_string()))),
            ),
            Node::Property(
                ident("list"),
                colon(),
                Box::new(Node::List(
                    open_bracket(),
                    vec![Node::Primary(Literal::Bool(false))],
                    close_bracket(),
                )),
            ),
        ],
        close_brace(),
    );

    let res = pp.print(&root);

    assert_eq!(res, "{number:32list:[false]}");
}

#[test]
fn nodes_parse() {
    let mut parser = Parser::new(vec![
        open_bracket(),
        tok(TokenType::String, Literal::Bool(true)),
        comma(),
        open_brace(),
        ident("message"),
        colon(),
        tok(TokenType::String, Literal::Bool(true)),
        comma(),
        ident("obj"),
        colon(),
        open_bracket(),
        close_bracket(),
        close_brace(),
        close_bracket(),
    ]);

    let ast = parser.parse();

    let p = PrettyPrint;
    let res = p.print(&ast.unwrap());
    assert_eq!(res, "[true{message:trueobj:[]}]");
}

#[test]
fn dfs() {
    let mut parser = Parser::new(vec![
        open_brace(),
        ident("other"),
        colon(),
        tok(TokenType::True, Literal::Bool(true)),
        comma(),
        ident("name"),
        colon(),
        tok(TokenType::String, text("Alex")),
        close_brace(),
    ]);
    let root = parser.parse().unwrap();

    let pretty = PrettyPrint;
    let res = pretty.dfs(&root);
    assert_eq!(res, "{\n    \"name\": \"Alex\",\n    \"other\": true\n}");
}

#[test]
fn keys_come_out_in_key_order() {
    let mut parser = Parser::new(vec![
        open_brace(),
        ident("b"),
        colon(),
        number("1"),
        comma(),
        ident("a"),
        colon(),
        number("2"),
        close_brace(),
        eof(),
    ]);
    let root = parser.parse().unwrap();
    assert_eq!(keys(&root), vec!["a".to_string(), "b".to_string()]);
    assert_eq!(PrettyPrint.print(&root), "{a:2b:1}");
}

#[test]
fn keys_order_by_characters_with_prefix_first() {
    let mut parser = Parser::new(vec![
        open_brace(),
        ident("ab"),
        colon(),
        number("1"),
        comma(),
        ident("b"),
        colon(),
        number("2"),
        comma(),
        ident("a"),
        colon(),
        number("3"),
        comma(),
        ident("B"),
        colon(),
        number("4"),
        close_brace(),
        eof(),
    ]);
    let root = parser.parse().unwrap();
    assert_eq!(keys(&root), vec!["B", "a", "ab", "b"]);
}

#[test]
fn empty_object_and_list() {
    let mut parser = Parser::new(vec![open_brace(), close_brace(), eof()]);
    let object = parser.parse().unwrap();
    assert!(matches!(&object, Node::Object(_, properties, _) if properties.is_empty()));
    assert_eq!(PrettyPrint.dfs(&object), "{}");
    assert_eq!(PrettyPrint.print(&object), "{}");

    let mut parser = Parser::new(vec![open_bracket(), close_bracket(), eof()]);
    let list = parser.parse().unwrap();
    assert!(matches!(&list, Node::List(_, elements, _) if elements.is_empty()));
    assert_eq!(PrettyPrint.dfs(&list), "[]");
    assert_eq!(PrettyPrint.print(&list), "[]");
}

#[test]
fn nesting_indents_by_depth() {
    let mut parser = Parser::new(vec![
        open_brace(),
        ident("x"),
        colon(),
        open_bracket(),
        tok(TokenType::True, Literal::Bool(true)),
        comma(),
        open_brace(),
        ident("y"),
        colon(),
        tok(TokenType::Null, Literal::Null),
        close_brace(),
        close_bracket(),
        close_brace(),
        eof(),
    ]);
    let root = parser.parse().unwrap();
    let expected = "{\n    \"x\": [\n        true,\n        {\n            \"y\": null\n        }\n    ]\n}";
    assert_eq!(PrettyPrint.dfs(&root), expected);
    assert_eq!(PrettyPrint.print(&root), "{x:[true{y:null}]}");
}

#[test]
fn comma_after_open_bracket_is_unknown_literal() {
    let mut parser = Parser::new(vec![open_bracket(), comma(), close_bracket(), eof()]);
    let err = parser.parse().unwrap_err();
    assert!(matches!(err, ParserError::UnknownLiteral));
    assert_eq!(err.message(), "Unknown literal");
}

#[test]
fn missing_colon_is_unexpected_token() {
    let mut parser = Parser::new(vec![
        open_brace(),
        ident("k"),
        tok(TokenType::String, text("v")),
        close_brace(),
        eof(),
    ]);
    match parser.parse() {
        Err(ParserError::UnexpectedToken(m)) => assert_eq!(m, "Expected colon"),
        other => panic!("unexpected result: {:?}", other),
    }
}

#[test]
fn duplicate_key_is_reported() {
    let mut parser = Parser::new(vec![
        open_brace(),
        ident("dup"),
        colon(),
        number("1"),
        comma(),
        ident("dup"),
        colon(),
        number("2"),
        close_brace(),
        eof(),
    ]);
    let err = parser.parse().unwrap_err();
    match &err {
        ParserError::DuplicateKey(k) => assert_eq!(k, "dup"),
        other => panic!("unexpected error: {:?}", other),
    }
    assert_eq!(err.message(), "Duplicate property key dup found");
}

#[test]
fn duplicate_key_far_apart_with_other_values() {
    let mut parser = Parser::new(vec![
        open_brace(),
        ident("a"),
        colon(),
        open_bracket(),
        close_bracket(),
        comma(),
        ident("m"),
        colon(),
        number("7"),
        comma(),
        ident("a"),
        colon(),
        tok(TokenType::String, text("other")),
        comma(),
        ident("z"),
        colon(),
        number("8"),
        close_brace(),
        eof(),
    ]);
    match parser.parse() {
        Err(ParserError::DuplicateKey(k)) => assert_eq!(k, "a"),
        other => panic!("unexpected result: {:?}", other),
    }
}

#[test]
fn unclosed_list_and_object() {
    let mut parser = Parser::new(vec![open_bracket(), number("1"), number("2"), eof()]);
    match parser.parse() {
        Err(ParserError::UnexpectedToken(m)) => assert_eq!(m, "Expected ]"),
        other => panic!("unexpected result: {:?}", other),
    }
    let mut parser = Parser::new(vec![open_brace(), ident("a"), colon(), number("1"), eof()]);
    match parser.parse() {
        Err(ParserError::UnexpectedToken(m)) => assert_eq!(m, "Expected }"),
        other => panic!("unexpected result: {:?}", other),
    }
    let mut parser = Parser::new(vec![open_brace(), number("1"), eof()]);
    match parser.parse() {
        Err(ParserError::UnexpectedToken(m)) => assert_eq!(m, "Expected identifier"),
        other => panic!("unexpected result: {:?}", other),
    }
}

#[test]
fn end_of_input_alone_is_unknown_literal() {
    let mut parser = Parser::new(vec![eof()]);
    assert!(matches!(parser.parse(), Err(ParserError::UnknownLiteral)));
}

#[test]
fn single_number_prints_its_digits() {
    let mut parser = Parser::new(vec![number("325")]);
    let root = parser.parse().unwrap();
    assert!(matches!(&root, Node::Primary(Literal::Number(d)) if d == "325"));
    assert_eq!(PrettyPrint.print(&root), "325");
    assert_eq!(PrettyPrint.dfs(&root), "325");
}

#[test]
fn compact_print_reproduces_single_child_tokens() {
    let mut parser = Parser::new(vec![
        open_brace(),
        ident("a"),
        colon(),
        open_bracket(),
        tok(TokenType::String, text("x")),
        close_bracket(),
        close_brace(),
        eof(),
    ]);
    let root = parser.parse().unwrap();
    assert_eq!(PrettyPrint.print(&root), "{a:[\"x\"]}");
}

#[test]
fn strings_are_quoted_as_values_only() {
    let mut parser = Parser::new(vec![
        open_brace(),
        ident("key"),
        colon(),
        tok(TokenType::String, text("va lue")),
        close_brace(),
        eof(),
    ]);
    let root = parser.parse().unwrap();
    assert_eq!(PrettyPrint.print(&root), "{key:\"va lue\"}");
    assert_eq!(PrettyPrint.dfs(&root), "{\n    \"key\": \"va lue\"\n}");
}

#[test]
fn parse_continues_from_the_cursor() {
    let mut parser = Parser::new(vec![number("1"), tok(TokenType::False, Literal::Bool(false)), eof()]);
    let first = parser.parse().unwrap();
    let second = parser.parse().unwrap();
    assert_eq!(PrettyPrint.print(&first), "1");
    assert_eq!(PrettyPrint.print(&second), "false");
    assert!(matches!(parser.parse(), Err(ParserError::UnknownLiteral)));
}

#[test]
fn literal_text_forms() {
    assert_eq!(Literal::Bool(true).to_string(), "true");
    assert_eq!(Literal::Bool(false).to_string(), "false");
    assert_eq!(Literal::Null.to_string(), "null");
    assert_eq!(text("abc").to_string(), "abc");
    assert_eq!(Literal::Number("2.5".to_string()).to_string(), "2.5");
}

#[test]
fn accept_dispatches_to_the_visitor() {
    let printer = PrettyPrint;
    let property = Node::Property(
        ident("k"),
        colon(),
        Box::new(Node::Primary(text("v"))),
    );
    assert_eq!(property.accept(&printer), "k:\"v\"");
    assert_eq!(printer.visit_primary(&Literal::Null), "null");
    assert_eq!(
        printer.visit_list(&open_bracket(), &vec![Node::Primary(Literal::Bool(true))], &close_bracket()),
        "[true]"
    );
    assert_eq!(printer.visit_object(&open_brace(), &vec![property], &close_brace()), "{k:\"v\"}");
}
