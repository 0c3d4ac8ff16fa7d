use fen::codegen::{Context, GenCode};
use fen::parser::Parser;

fn expect_rust(fen_code: &str, rust_code: &str) {
    let mut parser = Parser::new(fen_code);
    let ast = parser.parse().unwrap();
    let rust = ast.rust_server_code(&Context {
        override_name: None,
    });
    assert_eq!(rust, rust_code);
}

    #[test]
    fn just_output() {
        expect_rust(
            r#"
name: "GetTodos"
description: "Fetches all todos"
authed: true

---

@output [Todo]

---

Todo {
  id: UUID
  name: String
  description: String?
  due: Date?
  is_completed: Bool
}
            "#
            .trim(),
            r#"
use chrono::{DateTime, Utc};
use serde::{Deserialize, Serialize};
use uuid::Uuid;

pub type Output = Vec<Todo>;

#[derive(Serialize, Deserialize, Debug, Clone, Eq, PartialEq)]
#[serde(rename_all = "camelCase")]
pub struct Todo {
    pub id: Uuid,
    pub name: String,
    pub description: Option<String>,
    pub due: Option<DateTime<Utc>>,
    pub is_completed: bool,
}
            "#
            .trim(),
        );
    }

    #[test]
    fn just_input() {
        expect_rust(
            r#"
name: "ToggleTodoCompletion"
description: "Completes or uncompletes a todo"
authed: true

---

@input UUID
            "#
            .trim(),
            r"
use uuid::Uuid;

pub type Input = Uuid;
                "
            .trim(),
        );
    }

    #[test]
    fn struct_for_input_and_output() {
        expect_rust(
            r#"
name: "Test"

---

@input {
  id: UUID
  foo: String
  bar: [Date]?
}

@output {
  stuff: [Thing]
}

---

Thing {
  type: ThingType
  happy: Bool
}

ThingType (
  a
  b
  c
)
                "#
            .trim(),
            r#"
use chrono::{DateTime, Utc};
use serde::{Deserialize, Serialize};
use uuid::Uuid;

#[derive(Serialize, Deserialize, Debug, Clone, Eq, PartialEq)]
#[serde(rename_all = "camelCase")]
pub struct Input {
    pub id: Uuid,
    pub foo: String,
    pub bar: Option<Vec<DateTime<Utc>>>,
}

#[derive(Serialize, Deserialize, Debug, Clone, Eq, PartialEq)]
#[serde(rename_all = "camelCase")]
pub struct Output {
    pub stuff: Vec<Thing>,
}

#[derive(Serialize, Deserialize, Debug, Clone, Eq, PartialEq)]
#[serde(rename_all = "camelCase")]
pub struct Thing {
    pub type: ThingType,
    pub happy: bool,
}

#[derive(Serialize, Deserialize, Debug, Clone, Eq, PartialEq)]
#[serde(tag = "type", rename_all = "camelCase")]
pub enum ThingType {
    A,
    B,
    C,
}
                "#
            .trim(),
        );
    }

    #[test]
    fn struct_for_input_no_output() {
        expect_rust(
            r#"
name: "Test"
authed: true

---

@input {
  id: UUID
  foo: String
  bar: [Date]?
}
                "#
            .trim(),
            r#"
use chrono::{DateTime, Utc};
use serde::{Deserialize, Serialize};
use uuid::Uuid;

#[derive(Serialize, Deserialize, Debug, Clone, Eq, PartialEq)]
#[serde(rename_all = "camelCase")]
pub struct Input {
    pub id: Uuid,
    pub foo: String,
    pub bar: Option<Vec<DateTime<Utc>>>,
}
             "#
            .trim(),
        );
    }

    #[test]
    fn input_is_struct_output_is_type() {
        expect_rust(
            r#"
name: "YetAnotherTest"

---

@input {
  id: UUID
  foo: String
}

@output [UUID]
            "#
            .trim(),
            r#"
use serde::{Deserialize, Serialize};
use uuid::Uuid;

#[derive(Serialize, Deserialize, Debug, Clone, Eq, PartialEq)]
#[serde(rename_all = "camelCase")]
pub struct Input {
    pub id: Uuid,
    pub foo: String,
}

pub type Output = Vec<Uuid>;
            "#
            .trim(),
        );
    }

    #[test]
    fn without_foundation() {
        expect_rust(
            r#"
name: "Test"
authed: true

---

@output Int
                    "#
            .trim(),
            r"
pub type Output = isize;
                "
            .trim(),
        );
    }

    #[test]
    fn enum_output_with_helpers() {
        expect_rust(
            r#"
name: "EnumTest"
description: "Just testing out enums"
authed: true

---

@output (
  single
  married(Spouse)
)

---

Spouse {
  name: String
  age: Int
  has_beard: Bool
  ocupation: Job
}

Job (
  developer
  construction
  other(String?)
)
                "#
            .trim(),
            r#"
use serde::{Deserialize, Serialize};

#[derive(Serialize, Deserialize, Debug, Clone, Eq, PartialEq)]
#[serde(tag = "type", content = "value", rename_all = "camelCase")]
pub enum Output {
    Single,
    Married(Spouse),
}

#[derive(Serialize, Deserialize, Debug, Clone, Eq, PartialEq)]
#[serde(rename_all = "camelCase")]
pub struct Spouse {
    pub name: String,
    pub age: isize,
    pub has_beard: bool,
    pub ocupation: Job,
}

#[derive(Serialize, Deserialize, Debug, Clone, Eq, PartialEq)]
#[serde(tag = "type", content = "value", rename_all = "camelCase")]
pub enum Job {
    Developer,
    Construction,
    Other(Option<String>),
}
                "#
            .trim(),
        );
    }

    #[test]
    fn enum_input() {
        expect_rust(
            r#"
name: "AnotherEnumTest"
description: "Just testing out some more enums"

---

@input (
  a
  b(Int)
)
            "#
            .trim(),
            r#"
use serde::{Deserialize, Serialize};

#[derive(Serialize, Deserialize, Debug, Clone, Eq, PartialEq)]
#[serde(tag = "type", content = "value", rename_all = "camelCase")]
pub enum Input {
    A,
    B(isize),
}
            "#
            .trim(),
        );
    }

    #[test]
    fn sqlx_types() {
        expect_rust(
            r#"
name: "GetRepertoire"
description: "Get a user's repertoire"
authed: true

---

@output [Song]

---

Song {
  id: UUID
  title: String
  familiarity: FamiliarityLevel
}

@sqlxType
FamiliarityLevel (
  todo
  learning
  playable
  good
  mastered
)
                "#
            .trim(),
            r#"
use serde::{Deserialize, Serialize};
use uuid::Uuid;

pub type Output = Vec<Song>;

#[derive(Serialize, Deserialize, Debug, Clone, Eq, PartialEq)]
#[serde(rename_all = "camelCase")]
pub struct Song {
    pub id: Uuid,
    pub title: String,
    pub familiarity: FamiliarityLevel,
}

#[derive(Serialize, Deserialize, Debug, Clone, Eq, PartialEq, sqlx::Type)]
#[serde(tag = "type", rename_all = "camelCase")]
#[sqlx(type_name = "familiarity_level", rename_all = "SCREAMING_SNAKE_CASE")]
pub enum FamiliarityLevel {
    Todo,
    Learning,
    Playable,
    Good,
    Mastered,
}
                "#
            .trim(),
        );
    }
