use fen::codegen::{Context, GenCode};
use fen::parser::Parser;

fn expect_swift(fen_code: &str, swift_code: &str) {
    let mut parser = Parser::new(fen_code);
    let ast = parser.parse().unwrap();
    let swift = ast.swift_client_code(&Context {
        override_name: None,
    });
    assert_eq!(swift, swift_code);
}

    #[test]
    fn mod_just_output() {
        expect_swift(
            r#"
name: "GetTodos"
description: "Fetches all todos"
authed: true

---

@output [Todo]

---

Todo {
  id: UUID
  name: String
  description: String?
  due: Date?
  is_completed: Bool
}
            "#
            .trim(),
            r#"
import Foundation

extension APIClient {
  /// Fetches all todos
  func getTodos(sessionToken: String) async throws -> Response<[Todo]> {
    return try await self.fetcher.get(from: "/_fen_/get-todos", sessionToken: sessionToken)
  }
}

struct Todo: Codable, Equatable, Identifiable {
  var id: UUID
  var name: String
  var description: String?
  var due: Date?
  var isCompleted: Bool

  private enum CodingKeys: String, CodingKey {
    case id
    case name
    case description
    case due
    case isCompleted
  }

  func encode(to encoder: Encoder) throws {
    var container = encoder.container(keyedBy: CodingKeys.self)

    try container.encode(self.id, forKey: .id)
    try container.encode(self.name, forKey: .name)
    switch self.description {
    case let .some(value):
      try container.encode(value, forKey: .description)
    case .none:
      try container.encodeNil(forKey: .description)
    }
    switch self.due {
    case let .some(value):
      try container.encode(value, forKey: .due)
    case .none:
      try container.encodeNil(forKey: .due)
    }
    try container.encode(self.isCompleted, forKey: .isCompleted)
  }
}
            "#
            .trim(),
        );
    }

    #[test]
    fn mod_just_input() {
        expect_swift(
            r#"
name: "ToggleTodoCompletion"
description: "Completes or uncompletes a todo"
authed: true

---

@input UUID
            "#
            .trim(),
            r#"
import Foundation

extension APIClient {
  /// Completes or uncompletes a todo
  func toggleTodoCompletion(input: UUID, sessionToken: String) async throws -> Response<NoData> {
    return try await self.fetcher.post(
      to: "/_fen_/toggle-todo-completion",
      with: input,
      returning: NoData.self,
      sessionToken: sessionToken
    )
  }
}
            "#
            .trim(),
        );
    }

    #[allow(clippy::too_many_lines)]
    #[test]
    fn mod_struct_for_input_and_output() {
        expect_swift(
            r#"
name: "Test"

---

@input {
  id: UUID
  foo: String
  bar: [Date]?
}

@output {
  stuff: [Thing]
}

---

Thing {
  type: ThingType
  happy: Bool
}

ThingType (
  first_option
  second_option
  third_option
)
            "#
            .trim(),
            r#"
import Foundation

extension APIClient {
  func test(id: UUID, foo: String, bar: [Date]?) async throws -> Response<TestOutput> {
    return try await self.fetcher.post(
      to: "/_fen_/test",
      with: TestInput(id: id, foo: foo, bar: bar),
      returning: TestOutput.self,
      sessionToken: nil
    )
  }
}

struct TestInput: Codable, Equatable, Identifiable {
  var id: UUID
  var foo: String
  var bar: [Date]?

  private enum CodingKeys: String, CodingKey {
    case id
    case foo
    case bar
  }

  func encode(to encoder: Encoder) throws {
    var container = encoder.container(keyedBy: CodingKeys.self)

    try container.encode(self.id, forKey: .id)
    try container.encode(self.foo, forKey: .foo)
    switch self.bar {
    case let .some(value):
      try container.encode(value, forKey: .bar)
    case .none:
      try container.encodeNil(forKey: .bar)
    }
  }
}

struct TestOutput: Codable, Equatable {
  var stuff: [Thing]
}

struct Thing: Codable, Equatable {
  var type: ThingType
  var happy: Bool
}

enum ThingType: Codable, Equatable {
  case firstOption
  case secondOption
  case thirdOption

  private enum CodingKeys: String, CodingKey {
    case type
  }

  private enum ThingTypeType: String, Codable {
    case firstOption
    case secondOption
    case thirdOption
  }

  init(from decoder: Decoder) throws {
    let container = try decoder.container(keyedBy: CodingKeys.self)
    let type = try container.decode(ThingTypeType.self, forKey: .type)

    switch type {
    case .firstOption:
      self = .firstOption
    case .secondOption:
      self = .secondOption
    case .thirdOption:
      self = .thirdOption
    }
  }

  func encode(to encoder: Encoder) throws {
    var container = encoder.container(keyedBy: CodingKeys.self)

    switch self {
    case .firstOption:
      try container.encode(ThingTypeType.firstOption, forKey: .type)
    case .secondOption:
      try container.encode(ThingTypeType.secondOption, forKey: .type)
    case .thirdOption:
      try container.encode(ThingTypeType.thirdOption, forKey: .type)
    }
  }
}
            "#
            .trim(),
        );
    }

    #[test]
    fn mod_struct_for_input_no_output() {
        expect_swift(
            r#"
name: "Test"
authed: true

---

@input {
  id: UUID
  foo: String
  bar: [Date]?
}
            "#
            .trim(),
            r#"
import Foundation

extension APIClient {
  func test(id: UUID, foo: String, bar: [Date]?, sessionToken: String) async throws -> Response<NoData> {
    return try await self.fetcher.post(
      to: "/_fen_/test",
      with: TestInput(id: id, foo: foo, bar: bar),
      returning: NoData.self,
      sessionToken: sessionToken
    )
  }
}

struct TestInput: Codable, Equatable, Identifiable {
  var id: UUID
  var foo: String
  var bar: [Date]?

  private enum CodingKeys: String, CodingKey {
    case id
    case foo
    case bar
  }

  func encode(to encoder: Encoder) throws {
    var container = encoder.container(keyedBy: CodingKeys.self)

    try container.encode(self.id, forKey: .id)
    try container.encode(self.foo, forKey: .foo)
    switch self.bar {
    case let .some(value):
      try container.encode(value, forKey: .bar)
    case .none:
      try container.encodeNil(forKey: .bar)
    }
  }
}
            "#
            .trim(),
        );
    }

    #[test]
    fn mod_input_is_struct_output_is_type() {
        expect_swift(
            r#"
name: "YetAnotherTest"

---

@input {
  id: UUID
  foo: String
}

@output [UUID]
            "#
            .trim(),
            r#"
import Foundation

extension APIClient {
  func yetAnotherTest(id: UUID, foo: String) async throws -> Response<[UUID]> {
    return try await self.fetcher.post(
      to: "/_fen_/yet-another-test",
      with: YetAnotherTestInput(id: id, foo: foo),
      returning: [UUID].self,
      sessionToken: nil
    )
  }
}

struct YetAnotherTestInput: Codable, Equatable, Identifiable {
  var id: UUID
  var foo: String
}
            "#
            .trim(),
        );
    }

    #[test]
    fn mod_without_foundation() {
        expect_swift(
            r#"
name: "Test"
authed: true

---

@output Int
            "#
            .trim(),
            r#"
extension APIClient {
  func test(sessionToken: String) async throws -> Response<Int> {
    return try await self.fetcher.get(from: "/_fen_/test", sessionToken: sessionToken)
  }
}
            "#
            .trim(),
        );
    }

    #[allow(clippy::too_many_lines)]
    #[test]
    fn mod_enum_output_with_helpers() {
        expect_swift(
            r#"
name: "EnumTest"
description: "Just testing out enums"
authed: true

---

@output (
  single
  married(Spouse)
)

---

Spouse {
  name: String
  age: Int
  has_beard: Bool
  ocupation: Job
}

Job (
  developer
  construction
  other(String?)
)
            "#
            .trim(),
            r#"
extension APIClient {
  /// Just testing out enums
  func enumTest(sessionToken: String) async throws -> Response<EnumTestOutput> {
    return try await self.fetcher.get(from: "/_fen_/enum-test", sessionToken: sessionToken)
  }
}

enum EnumTestOutput: Codable, Equatable {
  case single
  case married(Spouse)

  private enum CodingKeys: String, CodingKey {
    case type
    case value
  }

  private enum EnumTestOutputType: String, Codable {
    case single
    case married
  }

  init(from decoder: Decoder) throws {
    let container = try decoder.container(keyedBy: CodingKeys.self)
    let type = try container.decode(EnumTestOutputType.self, forKey: .type)

    switch type {
    case .single:
      self = .single
    case .married:
      let value = try container.decode(Spouse.self, forKey: .value)
      self = .married(value)
    }
  }

  func encode(to encoder: Encoder) throws {
    var container = encoder.container(keyedBy: CodingKeys.self)

    switch self {
    case .single:
      try container.encode(EnumTestOutputType.single, forKey: .type)
    case .married(let value):
      try container.encode(EnumTestOutputType.married, forKey: .type)
      try container.encode(value, forKey: .value)
    }
  }
}

struct Spouse: Codable, Equatable {
  var name: String
  var age: Int
  var hasBeard: Bool
  var ocupation: Job
}

enum Job: Codable, Equatable {
  case developer
  case construction
  case other(String?)

  private enum CodingKeys: String, CodingKey {
    case type
    case value
  }

  private enum JobType: String, Codable {
    case developer
    case construction
    case other
  }

  init(from decoder: Decoder) throws {
    let container = try decoder.container(keyedBy: CodingKeys.self)
    let type = try container.decode(JobType.self, forKey: .type)

    switch type {
    case .developer:
      self = .developer
    case .construction:
      self = .construction
    case .other:
      let value = try container.decodeIfPresent(String.self, forKey: .value)
      self = .other(value)
    }
  }

  func encode(to encoder: Encoder) throws {
    var container = encoder.container(keyedBy: CodingKeys.self)

    switch self {
    case .developer:
      try container.encode(JobType.developer, forKey: .type)
    case .construction:
      try container.encode(JobType.construction, forKey: .type)
    case .other(let value):
      try container.encode(JobType.other, forKey: .type)
      try container.encode(value, forKey: .value)
    }
  }
}
            "#
            .trim(),
        );
    }

    #[test]
    fn mod_enum_input() {
        expect_swift(
            r#"
name: "AnotherEnumTest"
description: "Just testing out some more enums"

---

@input (
  a
  b(Int)
)
            "#
            .trim(),
            r#"
extension APIClient {
  /// Just testing out some more enums
  func anotherEnumTest(input: AnotherEnumTestInput) async throws -> Response<NoData> {
    return try await self.fetcher.post(
      to: "/_fen_/another-enum-test",
      with: input,
      returning: NoData.self,
      sessionToken: nil
    )
  }
}

enum AnotherEnumTestInput: Codable, Equatable {
  case a
  case b(Int)

  private enum CodingKeys: String, CodingKey {
    case type
    case value
  }

  private enum AnotherEnumTestInputType: String, Codable {
    case a
    case b
  }

  init(from decoder: Decoder) throws {
    let container = try decoder.container(keyedBy: CodingKeys.self)
    let type = try container.decode(AnotherEnumTestInputType.self, forKey: .type)

    switch type {
    case .a:
      self = .a
    case .b:
      let value = try container.decode(Int.self, forKey: .value)
      self = .b(value)
    }
  }

  func encode(to encoder: Encoder) throws {
    var container = encoder.container(keyedBy: CodingKeys.self)

    switch self {
    case .a:
      try container.encode(AnotherEnumTestInputType.a, forKey: .type)
    case .b(let value):
      try container.encode(AnotherEnumTestInputType.b, forKey: .type)
      try container.encode(value, forKey: .value)
    }
  }
}
            "#
            .trim(),
        );
    }
