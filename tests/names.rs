use fen::names::{pascal_to_camel, pascal_to_kebab, snake_to_camel, snake_to_pascal};

    #[test]
    fn test_snake_to_camel() {
        assert_eq!(snake_to_camel("hello_world"), "helloWorld");
        assert_eq!(snake_to_camel("foo_bar_baz"), "fooBarBaz");
        assert_eq!(snake_to_camel("foo"), "foo");
        assert_eq!(snake_to_camel("foo_bar"), "fooBar");
        assert_eq!(snake_to_camel("foo_bar_baz_qux"), "fooBarBazQux");
    }

    #[test]
    fn test_snake_to_pascal() {
        assert_eq!(snake_to_pascal("hello_world"), "HelloWorld");
        assert_eq!(snake_to_pascal("foo_bar_baz"), "FooBarBaz");
        assert_eq!(snake_to_pascal("foo"), "Foo");
        assert_eq!(snake_to_pascal("foo_bar"), "FooBar");
        assert_eq!(snake_to_pascal("foo_bar_baz_qux"), "FooBarBazQux");
    }

    #[test]
    fn test_pascal_to_camel() {
        assert_eq!(pascal_to_camel("HelloWorld"), "helloWorld");
        assert_eq!(pascal_to_camel("FooBarBaz"), "fooBarBaz");
        assert_eq!(pascal_to_camel("Foo"), "foo");
        assert_eq!(pascal_to_camel("FooBar"), "fooBar");
        assert_eq!(pascal_to_camel("FooBarBazQux"), "fooBarBazQux");
    }

    #[test]
    fn test_pascal_to_kebab() {
        assert_eq!(pascal_to_kebab("HelloWorld"), "hello-world");
        assert_eq!(pascal_to_kebab("FooBarBaz"), "foo-bar-baz");
        assert_eq!(pascal_to_kebab("Foo"), "foo");
        assert_eq!(pascal_to_kebab("FooBar"), "foo-bar");
        assert_eq!(pascal_to_kebab("FooBarBazQux"), "foo-bar-baz-qux");
    }
