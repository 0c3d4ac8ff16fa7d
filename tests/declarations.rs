use fen::ast::{EnumDefinition, Field, Primitive, StructDefinition, Type, Variant};
use fen::parser::{Declarations, Error, Parser};
use fen::tokens::TokenKind;

fn expect_ast(file: &str, expected: &Declarations) {
    let mut parser = Parser::new(file);

    assert_eq!(&parser.parse_declarations().unwrap(), expected);
}

fn expect_error(file: &str, expected: &Error) {
    let mut parser = Parser::new(file);

    let err = parser.parse_declarations().unwrap_err();
    assert_eq!(err, *expected);
}

    #[test]
    fn parses_empty_struct() {
        expect_ast(
            "struct Foo {}",
            &Declarations {
                enums: vec![],
                structs: vec![StructDefinition {
                    annotations: vec![],
                    name: "Foo".to_string(),
                    fields: vec![],
                }],
            },
        );
    }

    #[test]
    fn parses_struct_with_fields() {
        expect_ast(
            "struct Foo { bar: Int }",
            &Declarations {
                enums: vec![],
                structs: vec![StructDefinition {
                    annotations: vec![],
                    name: "Foo".to_string(),
                    fields: vec![Field {
                        name: "bar".to_string(),
                        t: Type::Primitive(Primitive::Int),
                    }],
                }],
            },
        );

        expect_ast(
            "struct Foo { bar: Int, baz: String }",
            &Declarations {
                enums: vec![],
                structs: vec![StructDefinition {
                    annotations: vec![],
                    name: "Foo".to_string(),
                    fields: vec![
                        Field {
                            name: "bar".to_string(),
                            t: Type::Primitive(Primitive::Int),
                        },
                        Field {
                            name: "baz".to_string(),
                            t: Type::Primitive(Primitive::String),
                        },
                    ],
                }],
            },
        );

        // commas are necessary between fields
        expect_error(
            "struct Foo { bar: Int baz: String }",
            &Error::WrongToken {
                expected: TokenKind::Comma,
                got: TokenKind::Identifier("baz".to_string()),
            },
        );
    }

    #[test]
    #[allow(clippy::too_many_lines)]
    fn parses_structs_with_complex_types() {
        // optional
        expect_ast(
            "struct Foo { bar: Int? }",
            &Declarations {
                enums: vec![],
                structs: vec![StructDefinition {
                    annotations: vec![],
                    name: "Foo".to_string(),
                    fields: vec![Field {
                        name: "bar".to_string(),
                        t: Type::Optional(Box::new(Type::Primitive(Primitive::Int))),
                    }],
                }],
            },
        );

        // array
        expect_ast(
            "struct Foo { bar: [Int] }",
            &Declarations {
                enums: vec![],
                structs: vec![StructDefinition {
                    annotations: vec![],
                    name: "Foo".to_string(),
                    fields: vec![Field {
                        name: "bar".to_string(),
                        t: Type::Array(Box::new(Type::Primitive(Primitive::Int))),
                    }],
                }],
            },
        );

        // array of optional
        expect_ast(
            "struct Foo { bar: [Int?] }",
            &Declarations {
                enums: vec![],
                structs: vec![StructDefinition {
                    annotations: vec![],
                    name: "Foo".to_string(),
                    fields: vec![Field {
                        name: "bar".to_string(),
                        t: Type::Array(Box::new(Type::Optional(Box::new(Type::Primitive(
                            Primitive::Int,
                        ))))),
                    }],
                }],
            },
        );

        // optional array
        expect_ast(
            "struct Foo { bar: [Int]? }",
            &Declarations {
                enums: vec![],
                structs: vec![StructDefinition {
                    annotations: vec![],
                    name: "Foo".to_string(),
                    fields: vec![Field {
                        name: "bar".to_string(),
                        t: Type::Optional(Box::new(Type::Array(Box::new(Type::Primitive(
                            Primitive::Int,
                        ))))),
                    }],
                }],
            },
        );

        // complicated mess
        expect_ast(
            "struct Person { name: String, hat_brand: String?, children: [Person], something_else: [[[Int?]?]] }",
            &Declarations {
                structs: vec![StructDefinition {
                    annotations: vec![],
                    name: "Person".to_string(),
                    fields: vec![
                        Field {
                            name: "name".to_string(),
                            t: Type::Primitive(Primitive::String),
                        },
                        Field {
                            name: "hat_brand".to_string(),
                            t: Type::Optional(
                                Box::new(Type::Primitive(Primitive::String)),
                            ),
                        },
                        Field {
                            name: "children".to_string(),
                            t: Type::Array(
                                Box::new(Type::Named("Person".to_string())),
                            ),
                        },
                        Field {
                            name: "something_else".to_string(),
                            t: Type::Array(
                                Box::new(Type::Array(
                                     Box::new(Type::Optional(
                                        Box::new(Type::Array(
                                            Box::new(Type::Optional(
                                                Box::new(Type::Primitive(Primitive::Int)),
                                            )),
                                        )),
                                    )),
                                )),
                            ),
                        }
                    ],
                }],
                enums: vec![],
            },
        );
    }

    #[test]
    fn parses_multiple_structs() {
        expect_ast(
            "struct Foo {} struct Bar {}",
            &Declarations {
                structs: vec![
                    StructDefinition {
                    annotations: vec![],
                        name: "Foo".to_string(),
                        fields: vec![],
                    },
                    StructDefinition {
                    annotations: vec![],
                        name: "Bar".to_string(),
                        fields: vec![],
                    },
                ],
                enums: vec![],
            },
        );
    }

    #[test]
    fn structs_can_reference_each_other() {
        // happy path
        expect_ast(
            "struct Foo {} struct Bar { baz: Foo }",
            &Declarations {
                structs: vec![
                    StructDefinition {
                    annotations: vec![],
                        name: "Foo".to_string(),
                        fields: vec![],
                    },
                    StructDefinition {
                    annotations: vec![],
                        name: "Bar".to_string(),
                        fields: vec![Field {
                            name: "baz".to_string(),
                            t: Type::Named("Foo".to_string()),
                        }],
                    },
                ],
                enums: vec![],
            },
        );

        // recursive
        expect_ast(
            "struct Foo { bar: Foo }",
            &Declarations {
                structs: vec![StructDefinition {
                    annotations: vec![],
                    name: "Foo".to_string(),
                    fields: vec![Field {
                        name: "bar".to_string(),
                        t: Type::Named("Foo".to_string()),
                    }],
                }],
                enums: vec![],
            },
        );

        // undefined reference
        expect_error(
            "struct Foo { bar: Bar }",
            &Error::Message("Reference to undefined type: Bar".to_string()),
        );
    }

    #[test]
    fn parses_enums() {
        expect_ast(
            "enum Foo { bar, baz }",
            &Declarations {
                structs: vec![],
                enums: vec![EnumDefinition {
                    annotations: vec![],
                    name: "Foo".to_string(),
                    variants: vec![
                        Variant {
                            name: "bar".to_string(),
                            t: None,
                        },
                        Variant {
                            name: "baz".to_string(),
                            t: None,
                        },
                    ],
                }],
            },
        );

        // commas are necessary between variants
        expect_error(
            "enum Foo { bar baz }",
            &Error::WrongToken {
                expected: TokenKind::Comma,
                got: TokenKind::Identifier("baz".to_string()),
            },
        );
    }

    #[test]
    fn parses_enums_with_associated_types() {
        expect_ast(
            "enum Foo { bar(Int), baz(String) }",
            &Declarations {
                structs: vec![],
                enums: vec![EnumDefinition {
                    annotations: vec![],
                    name: "Foo".to_string(),
                    variants: vec![
                        Variant {
                            name: "bar".to_string(),
                            t: Some(Type::Primitive(Primitive::Int)),
                        },
                        Variant {
                            name: "baz".to_string(),
                            t: Some(Type::Primitive(Primitive::String)),
                        },
                    ],
                }],
            },
        );

        expect_ast(
            "enum Foo {bar(Int?), baz([String]), qux([[[Int?]?]])}",
            &Declarations {
                structs: vec![],
                enums: vec![EnumDefinition {
                    annotations: vec![],
                    name: "Foo".to_string(),
                    variants: vec![
                        Variant {
                            name: "bar".to_string(),
                            t: Some(Type::Optional(Box::new(Type::Primitive(Primitive::Int)))),
                        },
                        Variant {
                            name: "baz".to_string(),
                            t: Some(Type::Array(Box::new(Type::Primitive(Primitive::String)))),
                        },
                        Variant {
                            name: "qux".to_string(),
                            t: Some(Type::Array(Box::new(Type::Array(Box::new(
                                Type::Optional(Box::new(Type::Array(Box::new(Type::Optional(
                                    Box::new(Type::Primitive(Primitive::Int)),
                                ))))),
                            ))))),
                        },
                    ],
                }],
            },
        );
    }

    #[test]
    fn parses_multiple_enums() {
        expect_ast(
            "enum Foo {} enum Bar {}",
            &Declarations {
                structs: vec![],
                enums: vec![
                    EnumDefinition {
                    annotations: vec![],
                        name: "Foo".to_string(),
                        variants: vec![],
                    },
                    EnumDefinition {
                    annotations: vec![],
                        name: "Bar".to_string(),
                        variants: vec![],
                    },
                ],
            },
        );
    }

    #[test]
    fn enums_can_reference_each_other() {
        // happy path
        expect_ast(
            "enum Foo {} enum Bar { baz(Foo) }",
            &Declarations {
                structs: vec![],
                enums: vec![
                    EnumDefinition {
                    annotations: vec![],
                        name: "Foo".to_string(),
                        variants: vec![],
                    },
                    EnumDefinition {
                    annotations: vec![],
                        name: "Bar".to_string(),
                        variants: vec![Variant {
                            name: "baz".to_string(),
                            t: Some(Type::Named("Foo".to_string())),
                        }],
                    },
                ],
            },
        );

        // recursive
        expect_ast(
            "enum Foo { bar(Foo) }",
            &Declarations {
                structs: vec![],
                enums: vec![EnumDefinition {
                    annotations: vec![],
                    name: "Foo".to_string(),
                    variants: vec![Variant {
                        name: "bar".to_string(),
                        t: Some(Type::Named("Foo".to_string())),
                    }],
                }],
            },
        );

        // undefined reference
        expect_error(
            "enum Foo { bar(Bar) }",
            &Error::Message("Reference to undefined type: Bar".to_string()),
        );
    }

    #[test]
    #[allow(clippy::too_many_lines)]
    fn structs_and_enums_together() {
        expect_ast(
            "struct Foo {} enum Bar { baz(Foo) }",
            &Declarations {
                structs: vec![StructDefinition {
                    annotations: vec![],
                    name: "Foo".to_string(),
                    fields: vec![],
                }],
                enums: vec![EnumDefinition {
                    annotations: vec![],
                    name: "Bar".to_string(),
                    variants: vec![Variant {
                        name: "baz".to_string(),
                        t: Some(Type::Named("Foo".to_string())),
                    }],
                }],
            },
        );

        // empty file
        expect_ast(
            "",
            &Declarations {
                structs: vec![],
                enums: vec![],
            },
        );

        // complicated mess
        expect_ast(
            r"
            enum Something {
              one,
              two,
              three(Int)
            }

            struct Person {
              id: UUID,
              name: String,
              birthday: Date,
              hat_brand: String?,
              children: [Person],
              something_else: [[[Something?]?]]
            }

            enum Foo {
              bar([Person]?),
              baz(Foo)
            }",
            &Declarations {
                structs: vec![StructDefinition {
                    annotations: vec![],
                    name: "Person".to_string(),
                    fields: vec![
                        Field {
                            name: "id".to_string(),
                            t: Type::Primitive(Primitive::Uuid),
                        },
                        Field {
                            name: "name".to_string(),
                            t: Type::Primitive(Primitive::String),
                        },
                        Field {
                            name: "birthday".to_string(),
                            t: Type::Primitive(Primitive::Date),
                        },
                        Field {
                            name: "hat_brand".to_string(),
                            t: Type::Optional(Box::new(Type::Primitive(Primitive::String))),
                        },
                        Field {
                            name: "children".to_string(),
                            t: Type::Array(Box::new(Type::Named("Person".to_string()))),
                        },
                        Field {
                            name: "something_else".to_string(),
                            t: Type::Array(Box::new(Type::Array(Box::new(Type::Optional(
                                Box::new(Type::Array(Box::new(Type::Optional(Box::new(
                                    Type::Named("Something".to_string()),
                                ))))),
                            ))))),
                        },
                    ],
                }],
                enums: vec![
                    EnumDefinition {
                    annotations: vec![],
                        name: "Something".to_string(),
                        variants: vec![
                            Variant {
                                name: "one".to_string(),
                                t: None,
                            },
                            Variant {
                                name: "two".to_string(),
                                t: None,
                            },
                            Variant {
                                name: "three".to_string(),
                                t: Some(Type::Primitive(Primitive::Int)),
                            },
                        ],
                    },
                    EnumDefinition {
                    annotations: vec![],
                        name: "Foo".to_string(),
                        variants: vec![
                            Variant {
                                name: "bar".to_string(),
                                t: Some(Type::Optional(Box::new(Type::Array(Box::new(
                                    Type::Named("Person".to_string()),
                                ))))),
                            },
                            Variant {
                                name: "baz".to_string(),
                                t: Some(Type::Named("Foo".to_string())),
                            },
                        ],
                    },
                ],
            },
        );
    }
