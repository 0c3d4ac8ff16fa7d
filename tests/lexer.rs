use fen::lexer::{Error, Lexer};
use fen::tokens::{Token, TokenKind};

fn expect_tokens(file: &str, expected: &[TokenKind]) {
    let mut lexer = Lexer::new(file);
    let mut tokens = vec![];
    while let Ok(Some(token)) = lexer.next_tok() {
        tokens.push(token.kind);
    }
    assert_eq!(tokens, expected);
    assert_eq!(lexer.next_tok(), Ok(None));
}

fn expect_error(file: &str, expected: Error) {
    let mut lexer = Lexer::new(file);
    assert_eq!(lexer.next_tok(), Err(expected));
}

    #[test]
    fn single_char_tokens() {
        expect_tokens("{", &[TokenKind::LeftBrace]);
        expect_tokens("}", &[TokenKind::RightBrace]);
        expect_tokens("[", &[TokenKind::LeftBracket]);
        expect_tokens("]", &[TokenKind::RightBracket]);
        expect_tokens("(", &[TokenKind::LeftParen]);
        expect_tokens(")", &[TokenKind::RightParen]);
        expect_tokens(":", &[TokenKind::Colon]);
        expect_tokens("?", &[TokenKind::QuestionMark]);
        expect_tokens("@", &[TokenKind::At]);

        expect_tokens("{ }", &[TokenKind::LeftBrace, TokenKind::RightBrace]);

        expect_error("%", Error::new("Forbidden character '%'", 0));
    }

    #[test]
    fn string_literals() {
        expect_tokens(
            r#""hello world""#,
            &[TokenKind::StringLiteral("hello world".to_string())],
        );
        expect_tokens(
            r#""hello world" "another string""#,
            &[
                TokenKind::StringLiteral("hello world".to_string()),
                TokenKind::StringLiteral("another string".to_string()),
            ],
        );
    }

    #[test]
    fn identifier() {
        expect_tokens("foo", &[TokenKind::Identifier("foo".to_string())]);
        expect_tokens(
            "fLIadi89av$FEljk__faekj",
            &[TokenKind::Identifier("fLIadi89av$FEljk__faekj".to_string())],
        );
    }

    #[test]
    fn mid_ident_bad_char() {
        let mut lexer = Lexer::new("Foo%bar {}");

        // should initially return the identifier "foo"
        assert_eq!(
            lexer.next_tok(),
            Ok(Some(Token::new(
                TokenKind::Identifier("Foo".to_string()),
                0
            )))
        );

        // then throw an error when it hits the '%' character
        assert_eq!(
            lexer.next_tok(),
            Err(Error::new("Forbidden character '%'", 3))
        );

        // after the lexer has errored, it should return None forever
        assert_eq!(lexer.next_tok(), Ok(None));
        assert_eq!(lexer.next_tok(), Ok(None));
    }

    #[test]
    fn all_syntax() {
        expect_tokens(
            r#"
            name: "GetTodos"
            description: "Get all todos for a user"
            authed: true

            ---

            @input { user_id: String }

            @output [Todo]

            ---

            Todo {
              name: String
              due: Date?
              priority: Priority?
              subtasks: [Todo]
            }

            Priority (
              low
              medium
              high
              other(String)
            )
            "#,
            &[
                TokenKind::Identifier("name".to_string()),
                TokenKind::Colon,
                TokenKind::StringLiteral("GetTodos".to_string()),
                TokenKind::Identifier("description".to_string()),
                TokenKind::Colon,
                TokenKind::StringLiteral("Get all todos for a user".to_string()),
                TokenKind::Identifier("authed".to_string()),
                TokenKind::Colon,
                TokenKind::BoolLiteral(true),
                TokenKind::Rule,
                TokenKind::At,
                TokenKind::Identifier("input".to_string()),
                TokenKind::LeftBrace,
                TokenKind::Identifier("user_id".to_string()),
                TokenKind::Colon,
                TokenKind::String,
                TokenKind::RightBrace,
                TokenKind::At,
                TokenKind::Identifier("output".to_string()),
                TokenKind::LeftBracket,
                TokenKind::Identifier("Todo".to_string()),
                TokenKind::RightBracket,
                TokenKind::Rule,
                TokenKind::Identifier("Todo".to_string()),
                TokenKind::LeftBrace,
                TokenKind::Identifier("name".to_string()),
                TokenKind::Colon,
                TokenKind::String,
                TokenKind::Identifier("due".to_string()),
                TokenKind::Colon,
                TokenKind::Date,
                TokenKind::QuestionMark,
                TokenKind::Identifier("priority".to_string()),
                TokenKind::Colon,
                TokenKind::Identifier("Priority".to_string()),
                TokenKind::QuestionMark,
                TokenKind::Identifier("subtasks".to_string()),
                TokenKind::Colon,
                TokenKind::LeftBracket,
                TokenKind::Identifier("Todo".to_string()),
                TokenKind::RightBracket,
                TokenKind::RightBrace,
                TokenKind::Identifier("Priority".to_string()),
                TokenKind::LeftParen,
                TokenKind::Identifier("low".to_string()),
                TokenKind::Identifier("medium".to_string()),
                TokenKind::Identifier("high".to_string()),
                TokenKind::Identifier("other".to_string()),
                TokenKind::LeftParen,
                TokenKind::String,
                TokenKind::RightParen,
                TokenKind::RightParen,
            ],
        );
    }
