use fen::ast::{EnumDefinition, Field, FileNode, IOType, Primitive, StructDefinition, Type, Variant};
use fen::codegen::{Context, GenCode};
use fen::config::{language_from_name, Language};
use fen::lexer::{Error as LexError, Lexer};
use fen::names::pascal_to_snake;
use fen::parser::{Error, Parser};
use fen::response::{fen_path, Response};
use fen::routes::{gen_rust_server, gen_swift_client};
use fen::tokens::{Token, TokenKind};

fn no_override() -> Context {
    Context { override_name: None }
}

fn parse(text: &str) -> Result<FileNode, Error> {
    Parser::new(text).parse()
}

fn field_type(text: &str) -> Type {
    let schema = format!("name: \"T\"\n---\n@input {{ x: {text} }}");
    match parse(&schema).unwrap().input {
        Some(IOType::Struct(s)) => {
            let mut fields = s.fields;
            fields.remove(0).t
        }
        other => panic!("unexpected input {other:?}"),
    }
}

#[test]
fn every_single_character_token_lexes_alone() {
    let cases = [
        ("{", TokenKind::LeftBrace),
        ("}", TokenKind::RightBrace),
        ("(", TokenKind::LeftParen),
        (")", TokenKind::RightParen),
        ("[", TokenKind::LeftBracket),
        ("]", TokenKind::RightBracket),
        (":", TokenKind::Colon),
        ("?", TokenKind::QuestionMark),
        ("@", TokenKind::At),
        (",", TokenKind::Comma),
    ];
    for (text, kind) in cases {
        let mut lexer = Lexer::new(text);
        assert_eq!(lexer.next_tok(), Ok(Some(Token::new(kind, 0))));
        assert_eq!(lexer.next_tok(), Ok(None));
    }
}

#[test]
fn keywords_rule_and_offsets() {
    let mut lexer = Lexer::new("  Int Float String Bool Date UUID true false --- -- \"a b\"");
    let mut kinds = vec![];
    let mut offsets = vec![];
    while let Ok(Some(t)) = lexer.next_tok() {
        kinds.push(t.kind);
        offsets.push(t.index);
    }
    assert_eq!(
        kinds,
        vec![
            TokenKind::Int,
            TokenKind::Float,
            TokenKind::String,
            TokenKind::Bool,
            TokenKind::Date,
            TokenKind::Uuid,
            TokenKind::BoolLiteral(true),
            TokenKind::BoolLiteral(false),
            TokenKind::Rule,
            TokenKind::Identifier("--".to_string()),
            TokenKind::StringLiteral("a b".to_string()),
        ]
    );
    assert_eq!(offsets, vec![2, 6, 12, 19, 24, 29, 34, 39, 45, 49, 52]);
}

#[test]
fn lexer_stays_poisoned_until_reset() {
    let mut lexer = Lexer::new("a ^ b");
    assert_eq!(
        lexer.next_tok(),
        Ok(Some(Token::new(TokenKind::Identifier("a".to_string()), 0)))
    );
    assert_eq!(lexer.next_tok(), Err(LexError::new("Forbidden character '^'", 2)));
    assert_eq!(lexer.peek_tok(), Ok(None));
    assert_eq!(lexer.next_tok(), Ok(None));
    lexer.reset();
    assert_eq!(
        lexer.next_tok(),
        Ok(Some(Token::new(TokenKind::Identifier("a".to_string()), 0)))
    );
}

#[test]
fn peek_leaves_the_token_in_place() {
    let mut lexer = Lexer::new("foo bar");
    let peeked = lexer.peek_tok().unwrap();
    assert_eq!(peeked, Some(Token::new(TokenKind::Identifier("foo".to_string()), 0)));
    assert_eq!(lexer.next_tok(), Ok(peeked));
    assert_eq!(
        lexer.next_tok(),
        Ok(Some(Token::new(TokenKind::Identifier("bar".to_string()), 4)))
    );
}

#[test]
fn optional_array_and_array_of_optional_differ() {
    let optional_array = field_type("[Int]?");
    let array_of_optional = field_type("[Int?]");
    assert_eq!(
        optional_array,
        Type::Optional(Box::new(Type::Array(Box::new(Type::Primitive(Primitive::Int)))))
    );
    assert_eq!(
        array_of_optional,
        Type::Array(Box::new(Type::Optional(Box::new(Type::Primitive(Primitive::Int)))))
    );
    assert_ne!(optional_array, array_of_optional);
}

#[test]
fn forward_reference_parses() {
    let f = parse("name: \"T\"\n---\n@output A\n---\nA { b: B }\nB { n: Int }").unwrap();
    assert_eq!(f.output, Some(IOType::Type(Type::Named("A".to_string()))));
    assert_eq!(f.structs.len(), 2);
    assert_eq!(f.structs[0].fields[0].t, Type::Named("B".to_string()));
}

#[test]
fn undefined_reference_names_the_identifier() {
    assert_eq!(
        parse("name: \"T\"\n---\n@output A\n---\nA { b: Missing }"),
        Err(Error::Message("Reference to undefined type: Missing".to_string()))
    );
    assert_eq!(
        parse("name: \"T\"\n---\n@output Nowhere"),
        Err(Error::Message("Reference to undefined type: Nowhere".to_string()))
    );
}

#[test]
fn self_recursion_parses() {
    let f = parse("name: \"T\"\n---\n@output Node\n---\nNode { next: Node? }\nTree ( leaf, branch([Tree]) )")
        .unwrap();
    assert_eq!(
        f.structs[0].fields[0].t,
        Type::Optional(Box::new(Type::Named("Node".to_string())))
    );
    assert_eq!(
        f.enums[0].variants[1].t,
        Some(Type::Array(Box::new(Type::Named("Tree".to_string()))))
    );
}

#[test]
fn route_without_input_or_output_fails() {
    let expected = Err(Error::Message("Route must have input, output, or both".to_string()));
    assert_eq!(parse("name: \"T\"\n---"), expected);
    assert_eq!(parse("name: \"T\" authed: true\n---\n"), expected);
}

#[test]
fn each_parse_error_kind() {
    assert_eq!(
        parse("title: \"T\"\n---\n@output Int"),
        Err(Error::WrongToken {
            expected: TokenKind::Identifier("name".to_string()),
            got: TokenKind::Identifier("title".to_string()),
        })
    );
    assert_eq!(
        parse("name: \"T\" owner: \"me\"\n---\n@output Int"),
        Err(Error::Expected {
            expected: "a metadata key",
            got: TokenKind::Identifier("owner".to_string()),
        })
    );
    assert_eq!(
        parse("name: \"T\"\n---\n@input Int @result Int"),
        Err(Error::Expected { expected: "output", got: TokenKind::Identifier("result".to_string()) })
    );
    assert_eq!(
        parse("name: \"T\"\n---\n@output ?"),
        Err(Error::Expected {
            expected: "an inline struct, an inline enum, or a type",
            got: TokenKind::QuestionMark,
        })
    );
    assert_eq!(
        parse("name: \"T\"\n---\n@output { a: Int"),
        Err(Error::UnexpectedEOF)
    );
    assert_eq!(
        parse("name: \"T\"\n---\n@output Int\n---\nA { a: Int; }"),
        Err(Error::FromLexer(LexError::new("Forbidden character ';'", 40)))
    );
}

#[test]
fn commas_are_optional_in_a_schema() {
    let with = parse("name: \"T\"\n---\n@input { a: Int, b: String, }").unwrap();
    let without = parse("name: \"T\"\n---\n@input { a: Int b: String }").unwrap();
    assert_eq!(with, without);
}

#[test]
fn generation_is_repeatable() {
    let f = parse(TODOS).unwrap();
    assert_eq!(f.swift_client_code(&no_override()), f.swift_client_code(&no_override()));
    assert_eq!(f.rust_server_code(&no_override()), f.rust_server_code(&no_override()));
}

const TODOS: &str = r#"
name: "GetTodos"
authed: true

---

@output [Todo]

---

Todo { id: UUID, name: String, description: String?, due: Date?, is_completed: Bool }
"#;

#[test]
fn get_todos_scenario() {
    let f = parse(TODOS).unwrap();
    let swift = f.swift_client_code(&no_override());
    assert!(swift.contains(
        "  func getTodos(sessionToken: String) async throws -> Response<[Todo]> {"
    ));
    assert!(swift.contains(
        "    return try await self.fetcher.get(from: \"/_fen_/get-todos\", sessionToken: sessionToken)"
    ));
    assert!(!swift.contains("post("));
    assert!(swift.contains("struct Todo: Codable, Equatable, Identifiable {"));
    assert!(swift.contains("  var isCompleted: Bool"));
    assert_eq!(swift.matches("\n  var ").count(), 5);
    let rust = f.rust_server_code(&no_override());
    assert!(rust.contains("pub type Output = Vec<Todo>;"));
    assert!(rust.contains("pub struct Todo {"));
    assert!(rust.contains("    pub is_completed: bool,"));
}

#[test]
fn inline_input_scenario() {
    let f = parse("name: \"AddThing\"\n---\n@input { id: UUID, foo: String, bar: [Date]? }").unwrap();
    match &f.input {
        Some(IOType::Struct(s)) => {
            assert_eq!(s.name, "input");
            assert_eq!(
                s.fields,
                vec![
                    Field { name: "id".to_string(), t: Type::Primitive(Primitive::Uuid) },
                    Field { name: "foo".to_string(), t: Type::Primitive(Primitive::String) },
                    Field {
                        name: "bar".to_string(),
                        t: Type::Optional(Box::new(Type::Array(Box::new(Type::Primitive(
                            Primitive::Date
                        ))))),
                    },
                ]
            );
        }
        other => panic!("unexpected input {other:?}"),
    }
    assert_eq!(f.output, None);
    let swift = f.swift_client_code(&no_override());
    assert!(swift.contains(
        "  func addThing(id: UUID, foo: String, bar: [Date]?) async throws -> Response<NoData> {"
    ));
    assert!(swift.contains("      with: AddThingInput(id: id, foo: foo, bar: bar),"));
    assert!(swift.contains("      sessionToken: nil"));
    assert!(swift.contains("struct AddThingInput: Codable, Equatable, Identifiable {"));
    let rust = f.rust_server_code(&no_override());
    assert!(rust.contains(
        "pub struct Input {\n    pub id: Uuid,\n    pub foo: String,\n    pub bar: Option<Vec<DateTime<Utc>>>,\n}"
    ));
}

#[test]
fn persisted_enum_annotation_scenario() {
    let e = EnumDefinition {
        name: "FamiliarityLevel".to_string(),
        variants: vec![Variant { name: "to_learn".to_string(), t: None }],
        annotations: vec!["sqlxType".to_string()],
    };
    let plain = EnumDefinition {
        name: "FamiliarityLevel".to_string(),
        variants: vec![Variant { name: "to_learn".to_string(), t: None }],
        annotations: vec![],
    };
    let rust = e.rust_server_code(&no_override());
    assert!(rust.contains(
        "#[sqlx(type_name = \"familiarity_level\", rename_all = \"SCREAMING_SNAKE_CASE\")]"
    ));
    assert!(rust.contains("sqlx::Type"));
    assert!(rust.contains("    ToLearn,"));
    assert!(!plain.rust_server_code(&no_override()).contains("sqlx"));
    assert_eq!(e.swift_client_code(&no_override()), plain.swift_client_code(&no_override()));
}

#[test]
fn server_enum_with_values_and_override() {
    let e = EnumDefinition {
        name: "Shape".to_string(),
        variants: vec![
            Variant { name: "dot".to_string(), t: None },
            Variant { name: "circle".to_string(), t: Some(Type::Primitive(Primitive::Float)) },
        ],
        annotations: vec![],
    };
    let ctx = Context { override_name: Some("Output".to_string()) };
    assert_eq!(
        e.rust_server_code(&ctx),
        "#[derive(Serialize, Deserialize, Debug, Clone, Eq, PartialEq)]\n#[serde(tag = \"type\", content = \"value\", rename_all = \"camelCase\")]\npub enum Output {\n    Dot,\n    Circle(f64),\n}"
    );
}

#[test]
fn struct_without_optional_fields_has_no_coding_keys() {
    let s = StructDefinition {
        name: "Point".to_string(),
        fields: vec![
            Field { name: "x_pos".to_string(), t: Type::Primitive(Primitive::Int) },
            Field { name: "y_pos".to_string(), t: Type::Primitive(Primitive::Int) },
        ],
        annotations: vec![],
    };
    assert_eq!(
        s.swift_client_code(&no_override()),
        "struct Point: Codable, Equatable {\n  var xPos: Int\n  var yPos: Int\n}"
    );
}

#[test]
fn primitive_tables() {
    let all = [
        (Primitive::Int, "Int", "isize"),
        (Primitive::Float, "Double", "f64"),
        (Primitive::String, "String", "String"),
        (Primitive::Bool, "Bool", "bool"),
        (Primitive::Date, "Date", "DateTime<Utc>"),
        (Primitive::Uuid, "UUID", "Uuid"),
    ];
    for (p, swift, rust) in all {
        assert_eq!(p.swift_client_code(&no_override()), swift);
        assert_eq!(p.rust_server_code(&no_override()), rust);
    }
    let t = Type::Array(Box::new(Type::Optional(Box::new(Type::Named("Todo".to_string())))));
    assert_eq!(t.swift_client_code(&no_override()), "[Todo?]");
    assert_eq!(t.rust_server_code(&no_override()), "Vec<Option<Todo>>");
}

#[test]
fn file_generation_names_and_order() {
    let routes = vec![
        parse("name: \"GetTodos\"\n---\n@output Int").unwrap(),
        parse("name: \"AddTodo\"\n---\n@input String").unwrap(),
    ];
    let client = gen_swift_client(
        "let base = \"{{API_ENDPOINT}}\" // {{API_ENDPOINT}}",
        "https://dev.example.com",
        &routes,
    );
    assert_eq!(client.len(), 3);
    assert_eq!(client[0].name, "Api.swift");
    assert_eq!(
        client[0].text,
        "let base = \"https://dev.example.com\" // https://dev.example.com"
    );
    assert_eq!(client[1].name, "GetTodos.swift");
    assert_eq!(client[1].text, routes[0].swift_client_code(&no_override()));
    assert_eq!(client[2].name, "AddTodo.swift");
    let server = gen_rust_server("// response types", &routes);
    assert_eq!(server[0].name, "mod.rs");
    assert_eq!(server[0].text, "pub mod get_todos;\npub mod add_todo;\n\n// response types");
    assert_eq!(server[1].name, "get_todos.rs");
    assert_eq!(server[1].text, "pub type Output = isize;");
    assert_eq!(server[2].name, "add_todo.rs");
    assert_eq!(server[2].text, "pub type Input = String;");
}

#[test]
fn pascal_to_snake_examples() {
    assert_eq!(pascal_to_snake("FamiliarityLevel"), "familiarity_level");
    assert_eq!(pascal_to_snake("Foo"), "foo");
    assert_eq!(pascal_to_snake(""), "");
}

#[test]
fn response_helpers() {
    assert_eq!(fen_path("/get-todos"), "/_fen_/get-todos");
    match Response::success(42) {
        Response::Success(s) => assert_eq!(s.data, 42),
        Response::Failure(_) => panic!("expected success"),
    }
    match Response::<i32>::failure(404, "not found") {
        Response::Failure(f) => {
            assert_eq!(f.status, 404);
            assert_eq!(f.message, "not found");
        }
        Response::Success(_) => panic!("expected failure"),
    }
}

#[test]
fn languages_by_name() {
    assert_eq!(language_from_name("rust"), Some(Language::Rust));
    assert_eq!(language_from_name("swift"), Some(Language::Swift));
    assert_eq!(language_from_name("kotlin"), None);
}

#[test]
fn error_messages_locate_the_defect() {
    assert_eq!(
        LexError::new("Forbidden character '%'", 1207).to_string(),
        "Error at position 1207: Forbidden character '%'"
    );
    assert_eq!(
        Error::WrongToken {
            expected: TokenKind::Comma,
            got: TokenKind::Identifier("baz".to_string()),
        }
        .to_string(),
        "Expected Comma, got Identifier(\"baz\")"
    );
    assert_eq!(
        Error::Expected { expected: "a type", got: TokenKind::Eof }.to_string(),
        "Expected a type, got Eof"
    );
    assert_eq!(Error::UnexpectedEOF.to_string(), "Unexpected EOF");
    assert_eq!(
        Error::FromLexer(LexError::new("Forbidden character '.'", 0)).to_string(),
        "Lexer error: Error at position 0: Forbidden character '.'"
    );
    assert_eq!(
        Error::Message("Route must have input, output, or both".to_string()).to_string(),
        "Route must have input, output, or both"
    );
}

#[test]
fn session_token_comma_follows_other_parameters_only() {
    let empty = parse("name: \"Ping\" authed: true\n---\n@input { }").unwrap();
    assert!(empty
        .swift_client_code(&no_override())
        .contains("  func ping(sessionToken: String) async throws -> Response<NoData> {"));
    let one = parse("name: \"Ping\" authed: true\n---\n@input { id: UUID }").unwrap();
    assert!(one
        .swift_client_code(&no_override())
        .contains("  func ping(id: UUID, sessionToken: String) async throws -> Response<NoData> {"));
    let none = parse("name: \"Ping\" authed: true\n---\n@output Int").unwrap();
    assert!(none
        .swift_client_code(&no_override())
        .contains("  func ping(sessionToken: String) async throws -> Response<Int> {"));
}

#[test]
fn unsupported_declaration_is_named() {
    assert_eq!(
        Parser::new("struct Foo {} type Bar").parse_declarations(),
        Err(Error::Message(
            "Only top-level structs and enums are supported, got Identifier(\"type\")".to_string()
        ))
    );
}

#[test]
fn io_marker_must_be_input_or_output() {
    assert_eq!(
        parse("name: \"T\"\n---\n@result Int"),
        Err(Error::Expected {
            expected: "input or output",
            got: TokenKind::Identifier("result".to_string()),
        })
    );
}

#[test]
fn repeated_peek_returns_the_cached_token() {
    let mut lexer = Lexer::new("  foo");
    let first = lexer.peek_tok();
    assert_eq!(first, Ok(Some(Token::new(TokenKind::Identifier("foo".to_string()), 2))));
    assert_eq!(lexer.peek_tok(), first);
    assert_eq!(lexer.next_tok(), first);
    assert_eq!(lexer.next_tok(), Ok(None));
}

#[test]
fn server_module_names_are_lower_case() {
    let routes = vec![parse("name: \"ÉtatRoute\"\n---\n@output Int").unwrap()];
    let server = gen_rust_server("", &routes);
    assert_eq!(server[0].text, "pub mod état_route;\n\n");
    assert_eq!(server[1].name, "État_route.rs");
}

#[test]
fn empty_schema_expects_name() {
    assert_eq!(
        parse(""),
        Err(Error::WrongToken {
            expected: TokenKind::Identifier("name".to_string()),
            got: TokenKind::Eof,
        })
    );
}

#[test]
fn missing_io_with_helper_section() {
    assert_eq!(
        parse("name: \"T\"\n---\n---\nFoo { a: Int }"),
        Err(Error::Message("Route must have input, output, or both".to_string()))
    );
}

#[test]
fn input_must_be_followed_by_output() {
    assert_eq!(
        parse("name: \"T\"\n---\n@input Int @result Int"),
        Err(Error::Expected { expected: "output", got: TokenKind::Identifier("result".to_string()) })
    );
}
