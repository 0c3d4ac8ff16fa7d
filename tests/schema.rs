use fen::ast::{self, EnumDefinition, Field, FileNode, IOType, Primitive, StructDefinition, Type, Variant};
use fen::parser::{Error, Parser};

fn expect_ast(file: &str, expected: FileNode) {
    let mut parser = Parser::new(file);

    assert_eq!(parser.parse().unwrap(), expected);
}

fn expect_error(file: &str, expected: &Error) {
    let mut parser = Parser::new(file);

    let err = parser.parse().unwrap_err();
    assert_eq!(err, *expected);
}

    #[allow(clippy::too_many_lines)]
    #[test]
    fn parses_metadata_and_io() {
        // basic types:
        expect_ast(
            r#"
            name: "Test"
            description: "This is a test"
            authed: true

            ---

            @input Int

            @output String
            "#,
            FileNode {
                name: "Test".to_string(),
                description: Some("This is a test".to_string()),
                authed: true,
                input: Some(IOType::Type(Type::Primitive(ast::Primitive::Int))),
                output: Some(IOType::Type(Type::Primitive(ast::Primitive::String))),
                structs: vec![],
                enums: vec![],
            },
        );

        // with no description, no auth, and no input
        expect_ast(
            r#"
            name: "Test"

            ---

            @output [String]?
            "#,
            FileNode {
                name: "Test".to_string(),
                description: None,
                authed: false,
                input: None,
                output: Some(IOType::Type(Type::Optional(Box::new(Type::Array(
                    Box::new(Type::Primitive(Primitive::String)),
                ))))),
                structs: vec![],
                enums: vec![],
            },
        );

        // no input or output is an error:
        expect_error(
            r#"
            name: "Test"
            description: "This is a test"
            authed: true

            ---
            "#,
            &Error::Message("Route must have input, output, or both".to_string()),
        );

        // just input no output
        expect_ast(
            r#"
            name: "CompleteTodo"

            ---

            @input {
              id: UUID
            }
            "#,
            FileNode {
                name: "CompleteTodo".to_string(),
                description: None,
                authed: false,
                input: Some(IOType::Struct(StructDefinition {
                    name: "input".to_string(),
                    fields: vec![Field {
                        name: "id".to_string(),
                        t: Type::Primitive(Primitive::Uuid),
                    }],
                    annotations: vec![],
                })),
                output: None,
                structs: vec![],
                enums: vec![],
            },
        );

        // inline types
        expect_ast(
            r#"
            name: "Test"

            ---

            @input {
              username: String
              password: String
            }

            @output (
              foo
              bar(Int)
            )
            "#,
            FileNode {
                name: "Test".to_string(),
                description: None,
                authed: false,
                input: Some(IOType::Struct(StructDefinition {
                    name: "input".to_string(),
                    fields: vec![
                        Field {
                            name: "username".to_string(),
                            t: Type::Primitive(Primitive::String),
                        },
                        Field {
                            name: "password".to_string(),
                            t: Type::Primitive(Primitive::String),
                        },
                    ],
                    annotations: vec![],
                })),
                output: Some(IOType::Enum(EnumDefinition {
                    name: "output".to_string(),
                    variants: vec![
                        Variant {
                            name: "foo".to_string(),
                            t: None,
                        },
                        Variant {
                            name: "bar".to_string(),
                            t: Some(Type::Primitive(Primitive::Int)),
                        },
                    ],
                    annotations: vec![],
                })),
                structs: vec![],
                enums: vec![],
            },
        );
    }

    #[test]
    fn helper_types() {
        expect_ast(
            r#"
            name: "Login"
            description: "Login to the system"
            authed: false

            ---

            @input {
              username: String
              password: String
            }

            @output Token

            ---

            Token {
              token: String
              expiry: Expiration
            }

            Expiration (
              standard(Date)
              never
            )
            "#,
            FileNode {
                name: "Login".to_string(),
                description: Some("Login to the system".to_string()),
                authed: false,
                input: Some(IOType::Struct(StructDefinition {
                    name: "input".to_string(),
                    fields: vec![
                        Field {
                            name: "username".to_string(),
                            t: Type::Primitive(Primitive::String),
                        },
                        Field {
                            name: "password".to_string(),
                            t: Type::Primitive(Primitive::String),
                        },
                    ],
                    annotations: vec![],
                })),
                output: Some(IOType::Type(Type::Named("Token".to_string()))),
                structs: vec![StructDefinition {
                    name: "Token".to_string(),
                    fields: vec![
                        Field {
                            name: "token".to_string(),
                            t: Type::Primitive(Primitive::String),
                        },
                        Field {
                            name: "expiry".to_string(),
                            t: Type::Named("Expiration".to_string()),
                        },
                    ],
                    annotations: vec![],
                }],
                enums: vec![EnumDefinition {
                    name: "Expiration".to_string(),
                    variants: vec![
                        Variant {
                            name: "standard".to_string(),
                            t: Some(Type::Primitive(Primitive::Date)),
                        },
                        Variant {
                            name: "never".to_string(),
                            t: None,
                        },
                    ],
                    annotations: vec![],
                }],
            },
        );
    }

    #[test]
    #[allow(clippy::too_many_lines)]
    fn complex_example() {
        expect_ast(
            r#"
            name: "GetPeopleInfo"
            description: "Get information about people"
            authed: true

            ---

            @input {
              ids: [UUID]
            }

            @output [PersonInfo]

            ---

            @someAnnotation
            PersonInfo {
              id: UUID
              born: Date
              spouse: PersonInfo?
              children: [PersonInfo]
              job: Work
            }

            Work {
              title: String
              hours: Int
              place: WorkPlace
            }

            @anotherAnnotation
            @andAnother
            WorkPlace (
              at_home
              on_site
              hybrid
            )
            "#,
            FileNode {
                name: "GetPeopleInfo".to_string(),
                description: Some("Get information about people".to_string()),
                authed: true,
                input: Some(IOType::Struct(StructDefinition {
                    name: "input".to_string(),
                    fields: vec![Field {
                        name: "ids".to_string(),
                        t: Type::Array(Box::new(Type::Primitive(Primitive::Uuid))),
                    }],
                    annotations: vec![],
                })),
                output: Some(IOType::Type(Type::Array(Box::new(Type::Named(
                    "PersonInfo".to_string(),
                ))))),
                structs: vec![
                    StructDefinition {
                        name: "PersonInfo".to_string(),
                        fields: vec![
                            Field {
                                name: "id".to_string(),
                                t: Type::Primitive(Primitive::Uuid),
                            },
                            Field {
                                name: "born".to_string(),
                                t: Type::Primitive(Primitive::Date),
                            },
                            Field {
                                name: "spouse".to_string(),
                                t: Type::Optional(Box::new(Type::Named("PersonInfo".to_string()))),
                            },
                            Field {
                                name: "children".to_string(),
                                t: Type::Array(Box::new(Type::Named("PersonInfo".to_string()))),
                            },
                            Field {
                                name: "job".to_string(),
                                t: Type::Named("Work".to_string()),
                            },
                        ],
                        annotations: vec!["someAnnotation".to_string()],
                    },
                    StructDefinition {
                        name: "Work".to_string(),
                        fields: vec![
                            Field {
                                name: "title".to_string(),
                                t: Type::Primitive(Primitive::String),
                            },
                            Field {
                                name: "hours".to_string(),
                                t: Type::Primitive(Primitive::Int),
                            },
                            Field {
                                name: "place".to_string(),
                                t: Type::Named("WorkPlace".to_string()),
                            },
                        ],
                        annotations: vec![],
                    },
                ],
                enums: vec![EnumDefinition {
                    name: "WorkPlace".to_string(),
                    variants: vec![
                        Variant {
                            name: "at_home".to_string(),
                            t: None,
                        },
                        Variant {
                            name: "on_site".to_string(),
                            t: None,
                        },
                        Variant {
                            name: "hybrid".to_string(),
                            t: None,
                        },
                    ],
                    annotations: vec!["anotherAnnotation".to_string(), "andAnother".to_string()],
                }],
            },
        );
    }
