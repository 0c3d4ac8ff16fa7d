use vstd::prelude::*;
use crate::ast::{
    EnumDefinition, Field, FileNode, IOType, Primitive, StructDefinition, Type, Variant,
};
use crate::names::{
    camel_of_pascal, camel_of_snake, kebab_of_pascal, pascal_of_snake, pascal_to_camel,
    pascal_to_kebab, pascal_to_snake, snake_of_pascal, snake_to_camel, snake_to_pascal,
};
use crate::text::{
    append, contains, contains_text, join, join_strings, lemma_whole, owned, push_line, same_text,
    texts,
};

verus! {

/// What the enclosing declaration asks of a rendering: a name to use in place
/// of the node's own.
pub struct Context {
    pub override_name: Option<String>,
}

/// The declared name, or the one that the context puts in its place.
pub open spec fn name_in(ctx: Context, own: Seq<char>) -> Seq<char> {
    match ctx.override_name {
        Some(n) => n@,
        None => own,
    }
}

/// Renders an AST node as client (Swift) and server (Rust) source text.
pub trait GenCode {
    spec fn client_text(&self, ctx: Context) -> Seq<char>;

    spec fn server_text(&self, ctx: Context) -> Seq<char>;

    fn swift_client_code(&self, ctx: &Context) -> (r: String)
        ensures
            r@ == self.client_text(*ctx),
    ;

    fn rust_server_code(&self, ctx: &Context) -> (r: String)
        ensures
            r@ == self.server_text(*ctx),
    ;
}

pub open spec fn primitive_swift(p: Primitive) -> Seq<char> {
    match p {
        Primitive::Int => "Int"@,
        Primitive::Float => "Double"@,
        Primitive::String => "String"@,
        Primitive::Bool => "Bool"@,
        Primitive::Date => "Date"@,
        Primitive::Uuid => "UUID"@,
    }
}

pub open spec fn primitive_rust(p: Primitive) -> Seq<char> {
    match p {
        Primitive::Int => "isize"@,
        Primitive::Float => "f64"@,
        Primitive::String => "String"@,
        Primitive::Bool => "bool"@,
        Primitive::Date => "DateTime<Utc>"@,
        Primitive::Uuid => "Uuid"@,
    }
}

/// `T?` and `[T]` on the client.
pub open spec fn type_swift(t: Type) -> Seq<char>
    decreases t,
{
    match t {
        Type::Named(n) => n@,
        Type::Optional(inner) => type_swift(*inner) + "?"@,
        Type::Array(inner) => "["@ + type_swift(*inner) + "]"@,
        Type::Primitive(p) => primitive_swift(p),
    }
}

/// `Option<T>` and `Vec<T>` on the server.
pub open spec fn type_rust(t: Type) -> Seq<char>
    decreases t,
{
    match t {
        Type::Named(n) => n@,
        Type::Optional(inner) => "Option<"@ + type_rust(*inner) + ">"@,
        Type::Array(inner) => "Vec<"@ + type_rust(*inner) + ">"@,
        Type::Primitive(p) => primitive_rust(p),
    }
}

pub open spec fn field_swift(f: Field) -> Seq<char> {
    "  var "@ + camel_of_snake(f.name@) + ": "@ + type_swift(f.t)
}

pub open spec fn field_rust(f: Field) -> Seq<char> {
    "    pub "@ + f.name@ + ": "@ + type_rust(f.t) + ","@
}

pub open spec fn variant_swift(v: Variant) -> Seq<char> {
    "  case "@ + camel_of_snake(v.name@) + match v.t {
        Some(t) => "("@ + type_swift(t) + ")"@,
        None => Seq::empty(),
    }
}

pub open spec fn variant_rust(v: Variant) -> Seq<char> {
    "    "@ + pascal_of_snake(v.name@) + match v.t {
        Some(t) => "("@ + type_rust(t) + ")"@,
        None => Seq::empty(),
    } + ","@
}

fn primitive_swift_code(p: Primitive) -> (r: &'static str)
    ensures
        r@ == primitive_swift(p),
{
    match p {
        Primitive::Int => "Int",
        Primitive::Float => "Double",
        Primitive::String => "String",
        Primitive::Bool => "Bool",
        Primitive::Date => "Date",
        Primitive::Uuid => "UUID",
    }
}

fn primitive_rust_code(p: Primitive) -> (r: &'static str)
    ensures
        r@ == primitive_rust(p),
{
    match p {
        Primitive::Int => "isize",
        Primitive::Float => "f64",
        Primitive::String => "String",
        Primitive::Bool => "bool",
        Primitive::Date => "DateTime<Utc>",
        Primitive::Uuid => "Uuid",
    }
}

fn type_swift_code(t: &Type) -> (r: String)
    ensures
        r@ == type_swift(*t),
    decreases t,
{
    match t {
        Type::Named(n) => n.clone(),
        Type::Optional(inner) => {
            let mut r = type_swift_code(inner);
            append(&mut r, "?");
            r
        },
        Type::Array(inner) => {
            let mut r = owned("[");
            let s = type_swift_code(inner);
            append(&mut r, s.as_str());
            append(&mut r, "]");
            r
        },
        Type::Primitive(p) => owned(primitive_swift_code(*p)),
    }
}

fn type_rust_code(t: &Type) -> (r: String)
    ensures
        r@ == type_rust(*t),
    decreases t,
{
    match t {
        Type::Named(n) => n.clone(),
        Type::Optional(inner) => {
            let mut r = owned("Option<");
            let s = type_rust_code(inner);
            append(&mut r, s.as_str());
            append(&mut r, ">");
            r
        },
        Type::Array(inner) => {
            let mut r = owned("Vec<");
            let s = type_rust_code(inner);
            append(&mut r, s.as_str());
            append(&mut r, ">");
            r
        },
        Type::Primitive(p) => owned(primitive_rust_code(*p)),
    }
}

impl GenCode for Primitive {
    open spec fn client_text(&self, ctx: Context) -> Seq<char> {
        primitive_swift(*self)
    }

    open spec fn server_text(&self, ctx: Context) -> Seq<char> {
        primitive_rust(*self)
    }

    fn swift_client_code(&self, ctx: &Context) -> (r: String) {
        owned(primitive_swift_code(*self))
    }

    fn rust_server_code(&self, ctx: &Context) -> (r: String) {
        owned(primitive_rust_code(*self))
    }
}

impl GenCode for Type {
    open spec fn client_text(&self, ctx: Context) -> Seq<char> {
        type_swift(*self)
    }

    open spec fn server_text(&self, ctx: Context) -> Seq<char> {
        type_rust(*self)
    }

    fn swift_client_code(&self, ctx: &Context) -> (r: String) {
        type_swift_code(self)
    }

    fn rust_server_code(&self, ctx: &Context) -> (r: String) {
        type_rust_code(self)
    }
}

impl GenCode for Field {
    open spec fn client_text(&self, ctx: Context) -> Seq<char> {
        field_swift(*self)
    }

    open spec fn server_text(&self, ctx: Context) -> Seq<char> {
        field_rust(*self)
    }

    fn swift_client_code(&self, ctx: &Context) -> (r: String) {
        let mut r = owned("  var ");
        append(&mut r, snake_to_camel(self.name.as_str()).as_str());
        append(&mut r, ": ");
        append(&mut r, type_swift_code(&self.t).as_str());
        r
    }

    fn rust_server_code(&self, ctx: &Context) -> (r: String) {
        let mut r = owned("    pub ");
        append(&mut r, self.name.as_str());
        append(&mut r, ": ");
        append(&mut r, type_rust_code(&self.t).as_str());
        append(&mut r, ",");
        r
    }
}

impl GenCode for Variant {
    open spec fn client_text(&self, ctx: Context) -> Seq<char> {
        variant_swift(*self)
    }

    open spec fn server_text(&self, ctx: Context) -> Seq<char> {
        variant_rust(*self)
    }

    fn swift_client_code(&self, ctx: &Context) -> (r: String) {
        let mut r = owned("  case ");
        append(&mut r, snake_to_camel(self.name.as_str()).as_str());
        match &self.t {
            Some(t) => {
                append(&mut r, "(");
                append(&mut r, type_swift_code(t).as_str());
                append(&mut r, ")");
            },
            None => {},
        }
        r
    }

    fn rust_server_code(&self, ctx: &Context) -> (r: String) {
        let mut r = owned("    ");
        append(&mut r, snake_to_pascal(self.name.as_str()).as_str());
        match &self.t {
            Some(t) => {
                append(&mut r, "(");
                append(&mut r, type_rust_code(t).as_str());
                append(&mut r, ")");
            },
            None => {},
        }
        append(&mut r, ",");
        r
    }
}

/// The per-field text that a declaration repeats for each field.
#[derive(Clone, Copy)]
pub enum FieldPiece {
    /// `\n  var name: T` in a client struct.
    ClientMember,
    /// `\n    case name` in a client struct's coding keys.
    CodingKey,
    /// The lines that encode the field in a client struct.
    Encoding,
    /// `\n    pub name: T,` in a server struct.
    ServerMember,
}

pub open spec fn encode_field_swift(f: Field) -> Seq<char> {
    let c = camel_of_snake(f.name@);
    match f.t {
        Type::Optional(_) => "\n    switch self."@ + c + " {"@ + "\n    case let .some(value):"@
            + "\n      try container.encode(value, forKey: ."@ + c + ")"@ + "\n    case .none:"@
            + "\n      try container.encodeNil(forKey: ."@ + c + ")"@ + "\n    }"@,
        _ => "\n    try container.encode(self."@ + c + ", forKey: ."@ + c + ")"@,
    }
}

pub open spec fn field_piece(p: FieldPiece, f: Field) -> Seq<char> {
    match p {
        FieldPiece::ClientMember => "\n"@ + field_swift(f),
        FieldPiece::CodingKey => "\n    case "@ + camel_of_snake(f.name@),
        FieldPiece::Encoding => encode_field_swift(f),
        FieldPiece::ServerMember => "\n"@ + field_rust(f),
    }
}

/// The piece of each field, in order.
pub open spec fn field_pieces(p: FieldPiece, fs: Seq<Field>) -> Seq<char>
    decreases fs.len(),
{
    if fs.len() == 0 {
        Seq::empty()
    } else {
        field_pieces(p, fs.drop_last()) + field_piece(p, fs.last())
    }
}

/// The per-variant text that a declaration repeats for each variant.
#[derive(Clone, Copy)]
pub enum VariantPiece {
    /// `\n  case name(T)` in a client enum.
    ClientCase,
    /// `\n    case name` in a client enum's type keys.
    TypeKey,
    /// The lines that decode the variant in a client enum.
    Decoding,
    /// The lines that encode the variant in a client enum.
    Encoding,
    /// `\n    Name(T),` in a server enum.
    ServerMember,
}

pub open spec fn decode_variant_swift(v: Variant) -> Seq<char> {
    let c = camel_of_snake(v.name@);
    "\n    case ."@ + c + ":"@ + match v.t {
        Some(Type::Optional(t)) => "\n      let value = try container.decodeIfPresent("@
            + type_swift(*t) + ".self, forKey: .value)"@ + "\n      self = ."@ + c + "(value)"@,
        Some(t) => "\n      let value = try container.decode("@ + type_swift(t)
            + ".self, forKey: .value)"@ + "\n      self = ."@ + c + "(value)"@,
        None => "\n      self = ."@ + c,
    }
}

pub open spec fn encode_variant_swift(v: Variant, name: Seq<char>) -> Seq<char> {
    let c = camel_of_snake(v.name@);
    match v.t {
        Some(_) => "\n    case ."@ + c + "(let value):"@ + "\n      try container.encode("@ + name
            + "Type."@ + c + ", forKey: .type)"@
            + "\n      try container.encode(value, forKey: .value)"@,
        None => "\n    case ."@ + c + ":"@ + "\n      try container.encode("@ + name + "Type."@
            + c + ", forKey: .type)"@,
    }
}

pub open spec fn variant_piece(p: VariantPiece, v: Variant, name: Seq<char>) -> Seq<char> {
    match p {
        VariantPiece::ClientCase => "\n"@ + variant_swift(v),
        VariantPiece::TypeKey => "\n    case "@ + camel_of_snake(v.name@),
        VariantPiece::Decoding => decode_variant_swift(v),
        VariantPiece::Encoding => encode_variant_swift(v, name),
        VariantPiece::ServerMember => "\n"@ + variant_rust(v),
    }
}

/// The piece of each variant, in order.
pub open spec fn variant_pieces(p: VariantPiece, vs: Seq<Variant>, name: Seq<char>) -> Seq<char>
    decreases vs.len(),
{
    if vs.len() == 0 {
        Seq::empty()
    } else {
        variant_pieces(p, vs.drop_last(), name) + variant_piece(p, vs.last(), name)
    }
}

fn field_piece_code(p: FieldPiece, f: &Field) -> (r: String)
    ensures
        r@ == field_piece(p, *f),
{
    let ctx = Context { override_name: None };
    match p {
        FieldPiece::ClientMember => {
            let mut r = owned("\n");
            append(&mut r, f.swift_client_code(&ctx).as_str());
            r
        },
        FieldPiece::CodingKey => {
            let mut r = owned("\n    case ");
            append(&mut r, snake_to_camel(f.name.as_str()).as_str());
            r
        },
        FieldPiece::Encoding => {
            let c = snake_to_camel(f.name.as_str());
            let c = c.as_str();
            match &f.t {
                Type::Optional(_) => {
                    let mut r = owned("\n    switch self.");
                    append(&mut r, c);
                    append(&mut r, " {");
                    append(&mut r, "\n    case let .some(value):");
                    append(&mut r, "\n      try container.encode(value, forKey: .");
                    append(&mut r, c);
                    append(&mut r, ")");
                    append(&mut r, "\n    case .none:");
                    append(&mut r, "\n      try container.encodeNil(forKey: .");
                    append(&mut r, c);
                    append(&mut r, ")");
                    append(&mut r, "\n    }");
                    r
                },
                _ => {
                    let mut r = owned("\n    try container.encode(self.");
                    append(&mut r, c);
                    append(&mut r, ", forKey: .");
                    append(&mut r, c);
                    append(&mut r, ")");
                    r
                },
            }
        },
        FieldPiece::ServerMember => {
            let mut r = owned("\n");
            append(&mut r, f.rust_server_code(&ctx).as_str());
            r
        },
    }
}

fn append_field_pieces(r: &mut String, p: FieldPiece, fs: &Vec<Field>)
    ensures
        final(r)@ == old(r)@ + field_pieces(p, fs@),
{
    let ghost base = r@;
    let mut i: usize = 0;
    while i < fs.len()
        invariant
            i <= fs@.len(),
            r@ == base + field_pieces(p, fs@.subrange(0, i as int)),
        decreases fs.len() - i,
    {
        let piece = field_piece_code(p, &fs[i]);
        append(r, piece.as_str());
        proof {
            assert(fs@.subrange(0, i + 1).drop_last() =~= fs@.subrange(0, i as int));
            assert(r@ =~= base + field_pieces(p, fs@.subrange(0, i + 1)));
        }
        i = i + 1;
    }
    proof {
        lemma_whole(fs@);
    }
}

fn variant_piece_code(p: VariantPiece, v: &Variant, name: &str) -> (r: String)
    ensures
        r@ == variant_piece(p, *v, name@),
{
    let ctx = Context { override_name: None };
    match p {
        VariantPiece::ClientCase => {
            let mut r = owned("\n");
            append(&mut r, v.swift_client_code(&ctx).as_str());
            r
        },
        VariantPiece::TypeKey => {
            let mut r = owned("\n    case ");
            append(&mut r, snake_to_camel(v.name.as_str()).as_str());
            r
        },
        VariantPiece::Decoding => {
            let c = snake_to_camel(v.name.as_str());
            let c = c.as_str();
            let mut r = owned("\n    case .");
            append(&mut r, c);
            append(&mut r, ":");
            match &v.t {
                Some(Type::Optional(t)) => {
                    append(&mut r, "\n      let value = try container.decodeIfPresent(");
                    append(&mut r, type_swift_code(t).as_str());
                    append(&mut r, ".self, forKey: .value)");
                    append(&mut r, "\n      self = .");
                    append(&mut r, c);
                    append(&mut r, "(value)");
                },
                Some(t) => {
                    append(&mut r, "\n      let value = try container.decode(");
                    append(&mut r, type_swift_code(t).as_str());
                    append(&mut r, ".self, forKey: .value)");
                    append(&mut r, "\n      self = .");
                    append(&mut r, c);
                    append(&mut r, "(value)");
                },
                None => {
                    append(&mut r, "\n      self = .");
                    append(&mut r, c);
                },
            }
            r
        },
        VariantPiece::Encoding => {
            let c = snake_to_camel(v.name.as_str());
            let c = c.as_str();
            let mut r = owned("\n    case .");
            append(&mut r, c);
            match &v.t {
                Some(_) => {
                    append(&mut r, "(let value):");
                    append(&mut r, "\n      try container.encode(");
                    append(&mut r, name);
                    append(&mut r, "Type.");
                    append(&mut r, c);
                    append(&mut r, ", forKey: .type)");
                    append(&mut r, "\n      try container.encode(value, forKey: .value)");
                },
                None => {
                    append(&mut r, ":");
                    append(&mut r, "\n      try container.encode(");
                    append(&mut r, name);
                    append(&mut r, "Type.");
                    append(&mut r, c);
                    append(&mut r, ", forKey: .type)");
                },
            }
            r
        },
        VariantPiece::ServerMember => {
            let mut r = owned("\n");
            append(&mut r, v.rust_server_code(&ctx).as_str());
            r
        },
    }
}

fn append_variant_pieces(r: &mut String, p: VariantPiece, vs: &Vec<Variant>, name: &str)
    ensures
        final(r)@ == old(r)@ + variant_pieces(p, vs@, name@),
{
    let ghost base = r@;
    let mut i: usize = 0;
    while i < vs.len()
        invariant
            i <= vs@.len(),
            r@ == base + variant_pieces(p, vs@.subrange(0, i as int), name@),
        decreases vs.len() - i,
    {
        let piece = variant_piece_code(p, &vs[i], name);
        append(r, piece.as_str());
        proof {
            assert(vs@.subrange(0, i + 1).drop_last() =~= vs@.subrange(0, i as int));
            assert(r@ =~= base + variant_pieces(p, vs@.subrange(0, i + 1), name@));
        }
        i = i + 1;
    }
    proof {
        lemma_whole(vs@);
    }
}

/// Some field is named `id`.
pub open spec fn has_id_field(fs: Seq<Field>) -> bool {
    exists|i: int| 0 <= i < fs.len() && #[trigger] fs[i].name@ == "id"@
}

/// Some field is optional.
pub open spec fn has_optional_field(fs: Seq<Field>) -> bool {
    exists|i: int| 0 <= i < fs.len() && #[trigger] fs[i].t is Optional
}

/// Some variant carries a value.
pub open spec fn has_payload(vs: Seq<Variant>) -> bool {
    exists|i: int| 0 <= i < vs.len() && #[trigger] vs[i].t is Some
}

/// A client struct: `Identifiable` where a field is named `id`, and explicit
/// coding keys and encoding where a field is optional, so that an absent
/// value is sent as null.
pub open spec fn struct_swift(d: StructDefinition, name: Seq<char>) -> Seq<char> {
    "struct "@ + name + ": Codable, Equatable"@ + (if has_id_field(d.fields@) {
        ", Identifiable"@
    } else {
        Seq::empty()
    }) + " {"@ + field_pieces(FieldPiece::ClientMember, d.fields@) + (if has_optional_field(
        d.fields@,
    ) {
        "\n\n  private enum CodingKeys: String, CodingKey {"@ + field_pieces(
            FieldPiece::CodingKey,
            d.fields@,
        ) + "\n  }"@ + "\n\n  func encode(to encoder: Encoder) throws {"@
            + "\n    var container = encoder.container(keyedBy: CodingKeys.self)"@ + "\n"@
            + field_pieces(FieldPiece::Encoding, d.fields@) + "\n  }"@
    } else {
        Seq::empty()
    }) + "\n}"@
}

/// A client enum, coded as a `type` tag and, where a variant carries one, a
/// `value`.
pub open spec fn enum_swift(d: EnumDefinition, name: Seq<char>) -> Seq<char> {
    let vs = d.variants@;
    "enum "@ + name + ": Codable, Equatable {"@ + variant_pieces(VariantPiece::ClientCase, vs, name)
        + "\n\n  private enum CodingKeys: String, CodingKey {"@ + "\n    case type"@ + (
    if has_payload(vs) {
        "\n    case value"@
    } else {
        Seq::empty()
    }) + "\n  }"@ + "\n\n  private enum "@ + name + "Type: String, Codable {"@ + variant_pieces(
        VariantPiece::TypeKey,
        vs,
        name,
    ) + "\n  }"@ + "\n\n  init(from decoder: Decoder) throws {"@
        + "\n    let container = try decoder.container(keyedBy: CodingKeys.self)"@
        + "\n    let type = try container.decode("@ + name + "Type.self, forKey: .type)"@ + "\n"@
        + "\n    switch type {"@ + variant_pieces(VariantPiece::Decoding, vs, name) + "\n    }"@
        + "\n  }"@ + "\n\n  func encode(to encoder: Encoder) throws {"@
        + "\n    var container = encoder.container(keyedBy: CodingKeys.self)"@ + "\n"@
        + "\n    switch self {"@ + variant_pieces(VariantPiece::Encoding, vs, name) + "\n    }"@
        + "\n  }"@ + "\n}"@
}

/// A server struct, serialised with camel-cased field names.
pub open spec fn struct_rust(d: StructDefinition, name: Seq<char>) -> Seq<char> {
    "#[derive(Serialize, Deserialize, Debug, Clone, Eq, PartialEq)]"@
        + "\n#[serde(rename_all = \"camelCase\")]"@ + "\npub struct "@ + name + " {"@
        + field_pieces(FieldPiece::ServerMember, d.fields@) + "\n}"@
}

/// A server enum: tagged by `type`, with its value under `value` where a
/// variant carries one. An annotated enum derives the database type too, and
/// one annotated `sqlxType` is stored under its name in snake case.
pub open spec fn enum_rust(d: EnumDefinition, name: Seq<char>) -> Seq<char> {
    let vs = d.variants@;
    "#[derive(Serialize, Deserialize, Debug, Clone, Eq, PartialEq"@ + (if d.annotations@.len()
        > 0 {
        ", sqlx::Type"@
    } else {
        Seq::empty()
    }) + ")]"@ + "\n#[serde(tag = \"type\", "@ + (if has_payload(vs) {
        "content = \"value\", "@
    } else {
        Seq::empty()
    }) + "rename_all = \"camelCase\")]"@ + (if texts(d.annotations@).contains("sqlxType"@) {
        "\n#[sqlx(type_name = \""@ + snake_of_pascal(d.name@)
            + "\", rename_all = \"SCREAMING_SNAKE_CASE\")]"@
    } else {
        Seq::empty()
    }) + "\npub enum "@ + name + " {"@ + variant_pieces(VariantPiece::ServerMember, vs, name)
        + "\n}"@
}

fn fields_have_id(fs: &Vec<Field>) -> (r: bool)
    ensures
        r == has_id_field(fs@),
{
    let mut i: usize = 0;
    while i < fs.len()
        invariant
            i <= fs@.len(),
            forall|k: int| 0 <= k < i ==> fs@[k].name@ != "id"@,
        decreases fs.len() - i,
    {
        if same_text(fs[i].name.as_str(), "id") {
            return true;
        }
        i = i + 1;
    }
    false
}

fn fields_have_optional(fs: &Vec<Field>) -> (r: bool)
    ensures
        r == has_optional_field(fs@),
{
    let mut i: usize = 0;
    while i < fs.len()
        invariant
            i <= fs@.len(),
            forall|k: int| 0 <= k < i ==> !(fs@[k].t is Optional),
        decreases fs.len() - i,
    {
        if let Type::Optional(_) = &fs[i].t {
            return true;
        }
        i = i + 1;
    }
    false
}

fn variants_have_payload(vs: &Vec<Variant>) -> (r: bool)
    ensures
        r == has_payload(vs@),
{
    let mut i: usize = 0;
    while i < vs.len()
        invariant
            i <= vs@.len(),
            forall|k: int| 0 <= k < i ==> vs@[k].t is None,
        decreases vs.len() - i,
    {
        if vs[i].t.is_some() {
            return true;
        }
        i = i + 1;
    }
    false
}

fn has_annotation(annotations: &Vec<String>, a: &str) -> (r: bool)
    ensures
        r == texts(annotations@).contains(a@),
{
    let mut i: usize = 0;
    while i < annotations.len()
        invariant
            i <= annotations@.len(),
            forall|k: int| 0 <= k < i ==> annotations@[k]@ != a@,
        decreases annotations.len() - i,
    {
        if same_text(annotations[i].as_str(), a) {
            assert(texts(annotations@)[i as int] == a@);
            return true;
        }
        i = i + 1;
    }
    assert forall|k: int| 0 <= k < texts(annotations@).len() implies texts(annotations@)[k] != a@ by {
        assert(texts(annotations@)[k] == annotations@[k]@);
    }
    false
}

fn name_or<'a>(ctx: &'a Context, own: &'a String) -> (r: &'a str)
    ensures
        r@ == name_in(*ctx, own@),
{
    match &ctx.override_name {
        Some(n) => n.as_str(),
        None => own.as_str(),
    }
}

impl GenCode for StructDefinition {
    open spec fn client_text(&self, ctx: Context) -> Seq<char> {
        struct_swift(*self, name_in(ctx, self.name@))
    }

    open spec fn server_text(&self, ctx: Context) -> Seq<char> {
        struct_rust(*self, name_in(ctx, self.name@))
    }

    fn swift_client_code(&self, ctx: &Context) -> (r: String) {
        let name = name_or(ctx, &self.name);
        let mut r = owned("struct ");
        append(&mut r, name);
        append(&mut r, ": Codable, Equatable");
        if fields_have_id(&self.fields) {
            append(&mut r, ", Identifiable");
        }
        append(&mut r, " {");
        append_field_pieces(&mut r, FieldPiece::ClientMember, &self.fields);
        if fields_have_optional(&self.fields) {
            append(&mut r, "\n\n  private enum CodingKeys: String, CodingKey {");
            append_field_pieces(&mut r, FieldPiece::CodingKey, &self.fields);
            append(&mut r, "\n  }");
            append(&mut r, "\n\n  func encode(to encoder: Encoder) throws {");
            append(&mut r, "\n    var container = encoder.container(keyedBy: CodingKeys.self)");
            append(&mut r, "\n");
            append_field_pieces(&mut r, FieldPiece::Encoding, &self.fields);
            append(&mut r, "\n  }");
        }
        append(&mut r, "\n}");
        r
    }

    fn rust_server_code(&self, ctx: &Context) -> (r: String) {
        let name = name_or(ctx, &self.name);
        let mut r = owned("#[derive(Serialize, Deserialize, Debug, Clone, Eq, PartialEq)]");
        append(&mut r, "\n#[serde(rename_all = \"camelCase\")]");
        append(&mut r, "\npub struct ");
        append(&mut r, name);
        append(&mut r, " {");
        append_field_pieces(&mut r, FieldPiece::ServerMember, &self.fields);
        append(&mut r, "\n}");
        r
    }
}

impl GenCode for EnumDefinition {
    open spec fn client_text(&self, ctx: Context) -> Seq<char> {
        enum_swift(*self, name_in(ctx, self.name@))
    }

    open spec fn server_text(&self, ctx: Context) -> Seq<char> {
        enum_rust(*self, name_in(ctx, self.name@))
    }

    fn swift_client_code(&self, ctx: &Context) -> (r: String) {
        let name = name_or(ctx, &self.name);
        let vs = &self.variants;
        let mut r = owned("enum ");
        append(&mut r, name);
        append(&mut r, ": Codable, Equatable {");
        append_variant_pieces(&mut r, VariantPiece::ClientCase, vs, name);
        append(&mut r, "\n\n  private enum CodingKeys: String, CodingKey {");
        append(&mut r, "\n    case type");
        if variants_have_payload(vs) {
            append(&mut r, "\n    case value");
        }
        append(&mut r, "\n  }");
        append(&mut r, "\n\n  private enum ");
        append(&mut r, name);
        append(&mut r, "Type: String, Codable {");
        append_variant_pieces(&mut r, VariantPiece::TypeKey, vs, name);
        append(&mut r, "\n  }");
        append(&mut r, "\n\n  init(from decoder: Decoder) throws {");
        append(&mut r, "\n    let container = try decoder.container(keyedBy: CodingKeys.self)");
        append(&mut r, "\n    let type = try container.decode(");
        append(&mut r, name);
        append(&mut r, "Type.self, forKey: .type)");
        append(&mut r, "\n");
        append(&mut r, "\n    switch type {");
        append_variant_pieces(&mut r, VariantPiece::Decoding, vs, name);
        append(&mut r, "\n    }");
        append(&mut r, "\n  }");
        append(&mut r, "\n\n  func encode(to encoder: Encoder) throws {");
        append(&mut r, "\n    var container = encoder.container(keyedBy: CodingKeys.self)");
        append(&mut r, "\n");
        append(&mut r, "\n    switch self {");
        append_variant_pieces(&mut r, VariantPiece::Encoding, vs, name);
        append(&mut r, "\n    }");
        append(&mut r, "\n  }");
        append(&mut r, "\n}");
        r
    }

    fn rust_server_code(&self, ctx: &Context) -> (r: String) {
        let name = name_or(ctx, &self.name);
        let vs = &self.variants;
        let mut r = owned("#[derive(Serialize, Deserialize, Debug, Clone, Eq, PartialEq");
        if self.annotations.len() > 0 {
            append(&mut r, ", sqlx::Type");
        }
        append(&mut r, ")]");
        append(&mut r, "\n#[serde(tag = \"type\", ");
        if variants_have_payload(vs) {
            append(&mut r, "content = \"value\", ");
        }
        append(&mut r, "rename_all = \"camelCase\")]");
        if has_annotation(&self.annotations, "sqlxType") {
            append(&mut r, "\n#[sqlx(type_name = \"");
            append(&mut r, pascal_to_snake(self.name.as_str()).as_str());
            append(&mut r, "\", rename_all = \"SCREAMING_SNAKE_CASE\")]");
        }
        append(&mut r, "\npub enum ");
        append(&mut r, name);
        append(&mut r, " {");
        append_variant_pieces(&mut r, VariantPiece::ServerMember, vs, name);
        append(&mut r, "\n}");
        r
    }
}

/// What the client call returns: `NoData` without an output, the type's own
/// rendering for a bare type, else the synthesized `<Route>Output`.
pub open spec fn return_type_swift(f: FileNode) -> Seq<char> {
    match f.output {
        None => "NoData"@,
        Some(IOType::Type(t)) => type_swift(t),
        Some(_) => f.name@ + "Output"@,
    }
}

/// `name: T, ...` for the parameters of the client call.
pub open spec fn argument_list(fs: Seq<Field>) -> Seq<char>
    decreases fs.len(),
{
    if fs.len() == 0 {
        Seq::empty()
    } else if fs.len() == 1 {
        fs[0].name@ + ": "@ + type_swift(fs[0].t)
    } else {
        argument_list(fs.drop_last()) + ", "@ + fs.last().name@ + ": "@ + type_swift(fs.last().t)
    }
}

/// `name: name, ...` for the payload of the client call.
pub open spec fn pair_list(fs: Seq<Field>) -> Seq<char>
    decreases fs.len(),
{
    if fs.len() == 0 {
        Seq::empty()
    } else if fs.len() == 1 {
        fs[0].name@ + ": "@ + fs[0].name@
    } else {
        pair_list(fs.drop_last()) + ", "@ + fs.last().name@ + ": "@ + fs.last().name@
    }
}

/// The parameters that the input gives the client call.
pub open spec fn input_parameters_swift(f: FileNode) -> Seq<char> {
    match f.input {
        Some(IOType::Type(t)) => "input: "@ + type_swift(t),
        Some(IOType::Enum(_)) => "input: "@ + f.name@ + "Input"@,
        Some(IOType::Struct(d)) => argument_list(d.fields@),
        None => Seq::empty(),
    }
}

/// The parameters of the client call: the input's, then the session token of
/// an authenticated route, after a comma where other parameters precede it.
pub open spec fn parameters_swift(f: FileNode) -> Seq<char> {
    let p = input_parameters_swift(f);
    p + (if f.authed && p.len() > 0 {
        ", sessionToken: String"@
    } else if f.authed {
        "sessionToken: String"@
    } else {
        Seq::empty()
    })
}

pub open spec fn payload_swift(f: FileNode) -> Seq<char> {
    match f.input {
        Some(IOType::Struct(d)) => f.name@ + "Input("@ + pair_list(d.fields@) + ")"@,
        _ => "input"@,
    }
}

/// The body of the client call: a GET of the route's path without an input,
/// a POST of the payload with one.
pub open spec fn call_lines_swift(f: FileNode) -> Seq<Seq<char>> {
    let path = kebab_of_pascal(f.name@);
    if f.input is Some {
        seq![
            "    return try await self.fetcher.post("@,
            "      to: \"/_fen_/"@ + path + "\","@,
            "      with: "@ + payload_swift(f) + ","@,
            "      returning: "@ + return_type_swift(f) + ".self,"@,
            if f.authed {
                "      sessionToken: sessionToken"@
            } else {
                "      sessionToken: nil"@
            },
            "    )"@,
        ]
    } else {
        seq![
            "    return try await self.fetcher.get(from: \"/_fen_/"@ + path + "\""@ + (if f.authed {
                ", sessionToken: sessionToken"@
            } else {
                ", sessionToken: nil"@
            }) + ")"@,
        ]
    }
}

/// An inline struct or enum, declared under the synthesized name.
pub open spec fn io_lines_swift(io: Option<IOType>, name: Seq<char>) -> Seq<Seq<char>> {
    match io {
        Some(IOType::Struct(d)) => seq![Seq::empty(), struct_swift(d, name)],
        Some(IOType::Enum(d)) => seq![Seq::empty(), enum_swift(d, name)],
        _ => Seq::empty(),
    }
}

pub open spec fn struct_lines_swift(ds: Seq<StructDefinition>) -> Seq<Seq<char>>
    decreases ds.len(),
{
    if ds.len() == 0 {
        Seq::empty()
    } else {
        struct_lines_swift(ds.drop_last()) + seq![
            Seq::empty(),
            struct_swift(ds.last(), ds.last().name@),
        ]
    }
}

pub open spec fn enum_lines_swift(ds: Seq<EnumDefinition>) -> Seq<Seq<char>>
    decreases ds.len(),
{
    if ds.len() == 0 {
        Seq::empty()
    } else {
        enum_lines_swift(ds.drop_last()) + seq![Seq::empty(), enum_swift(ds.last(), ds.last().name@)]
    }
}

/// The lines of a route's client file, before the import.
pub open spec fn client_lines(f: FileNode) -> Seq<Seq<char>> {
    seq!["extension APIClient {"@] + (match f.description {
        Some(d) => seq!["  /// "@ + d@],
        None => Seq::empty(),
    }) + seq![
        "  func "@ + camel_of_pascal(f.name@) + "("@ + parameters_swift(f)
            + ") async throws -> Response<"@ + return_type_swift(f) + "> {"@,
    ] + call_lines_swift(f) + seq!["  }"@, "}"@] + io_lines_swift(f.input, f.name@ + "Input"@)
        + io_lines_swift(f.output, f.name@ + "Output"@) + struct_lines_swift(f.structs@)
        + enum_lines_swift(f.enums@)
}

/// A route's client file: its lines, with the Foundation import in front
/// where the text names `Date` or `UUID`.
pub open spec fn client_file(f: FileNode) -> Seq<char> {
    let code = join(client_lines(f), "\n"@);
    if contains(code, "Date"@) || contains(code, "UUID"@) {
        "import Foundation\n\n"@ + code
    } else {
        code
    }
}

/// `Input` or `Output` on the server: an alias of a bare type, else the
/// declaration of the inline struct or enum.
pub open spec fn io_rust(io: IOType, label: Seq<char>) -> Seq<char> {
    match io {
        IOType::Type(t) => "pub type "@ + label + " = "@ + type_rust(t) + ";"@,
        IOType::Struct(d) => struct_rust(d, label),
        IOType::Enum(d) => enum_rust(d, label),
    }
}

pub open spec fn struct_lines_rust(ds: Seq<StructDefinition>, ctx: Context) -> Seq<Seq<char>>
    decreases ds.len(),
{
    if ds.len() == 0 {
        Seq::empty()
    } else {
        struct_lines_rust(ds.drop_last(), ctx) + seq![
            Seq::empty(),
            struct_rust(ds.last(), name_in(ctx, ds.last().name@)),
        ]
    }
}

pub open spec fn enum_lines_rust(ds: Seq<EnumDefinition>, ctx: Context) -> Seq<Seq<char>>
    decreases ds.len(),
{
    if ds.len() == 0 {
        Seq::empty()
    } else {
        enum_lines_rust(ds.drop_last(), ctx) + seq![
            Seq::empty(),
            enum_rust(ds.last(), name_in(ctx, ds.last().name@)),
        ]
    }
}

/// The lines of a route's server file, before the imports.
pub open spec fn server_lines(f: FileNode, ctx: Context) -> Seq<Seq<char>> {
    (match f.input {
        Some(io) => seq![io_rust(io, "Input"@)],
        None => Seq::empty(),
    }) + (if f.input is Some && f.output is Some {
        seq![Seq::empty()]
    } else {
        Seq::empty()
    }) + (match f.output {
        Some(io) => seq![io_rust(io, "Output"@)],
        None => Seq::empty(),
    }) + struct_lines_rust(f.structs@, ctx) + enum_lines_rust(f.enums@, ctx)
}

/// A route's server file: its lines, with the imports in front that the text
/// calls for, each decided by what the text holds so far.
pub open spec fn server_file(f: FileNode, ctx: Context) -> Seq<char> {
    let c0 = join(server_lines(f, ctx), "\n"@);
    let c1 = if contains(c0, "Uuid"@) || contains(c0, "DateTime<Utc>"@) || contains(
        c0,
        "Deserialize"@,
    ) || contains(c0, "Serialize"@) {
        "\n"@ + c0
    } else {
        c0
    };
    let c2 = if contains(c1, "Uuid"@) {
        "use uuid::Uuid;\n"@ + c1
    } else {
        c1
    };
    let c3 = if contains(c2, "Serialize"@) && contains(c2, "Deserialize"@) {
        "use serde::{Deserialize, Serialize};\n"@ + c2
    } else if contains(c2, "Serialize"@) {
        "use serde::Serialize;\n"@ + c2
    } else if contains(c2, "Deserialize"@) {
        "use serde::Deserialize;\n"@ + c2
    } else {
        c2
    };
    if contains(c3, "DateTime<Utc>"@) {
        "use chrono::{DateTime, Utc};\n"@ + c3
    } else {
        c3
    }
}

fn argument_list_code(fs: &Vec<Field>, pairs: bool) -> (r: String)
    ensures
        pairs ==> r@ == pair_list(fs@),
        !pairs ==> r@ == argument_list(fs@),
{
    let mut r = String::new();
    let mut i: usize = 0;
    while i < fs.len()
        invariant
            i <= fs@.len(),
            pairs ==> r@ == pair_list(fs@.subrange(0, i as int)),
            !pairs ==> r@ == argument_list(fs@.subrange(0, i as int)),
        decreases fs.len() - i,
    {
        if i > 0 {
            append(&mut r, ", ");
        }
        append(&mut r, fs[i].name.as_str());
        append(&mut r, ": ");
        if pairs {
            append(&mut r, fs[i].name.as_str());
        } else {
            append(&mut r, type_swift_code(&fs[i].t).as_str());
        }
        proof {
            let sub = fs@.subrange(0, i + 1);
            assert(sub.drop_last() =~= fs@.subrange(0, i as int));
            if i == 0 {
                assert(r@ =~= (if pairs {
                    pair_list(sub)
                } else {
                    argument_list(sub)
                }));
            } else {
                assert(r@ =~= (if pairs {
                    pair_list(sub)
                } else {
                    argument_list(sub)
                }));
            }
        }
        i = i + 1;
    }
    proof {
        lemma_whole(fs@);
    }
    r
}

fn prefixed(prefix: &str, s: String) -> (r: String)
    ensures
        r@ == prefix@ + s@,
{
    let mut r = owned(prefix);
    append(&mut r, s.as_str());
    r
}

impl GenCode for FileNode {
    open spec fn client_text(&self, ctx: Context) -> Seq<char> {
        client_file(*self)
    }

    open spec fn server_text(&self, ctx: Context) -> Seq<char> {
        server_file(*self, ctx)
    }

    fn swift_client_code(&self, ctx: &Context) -> (r: String) {
        let mut lines = self.client_head();
        self.push_io_lines_swift(&mut lines, true);
        self.push_io_lines_swift(&mut lines, false);
        push_helper_lines_swift(&mut lines, &self.structs, &self.enums);
        assert(texts(lines@) =~= client_lines(*self));
        let code = join_strings(&lines, "\n");
        if contains_text(code.as_str(), "Date") || contains_text(code.as_str(), "UUID") {
            prefixed("import Foundation\n\n", code)
        } else {
            code
        }
    }

    fn rust_server_code(&self, ctx: &Context) -> (r: String) {
        let mut lines: Vec<String> = Vec::new();
        match &self.input {
            Some(io) => push_line(&mut lines, io_rust_code(io, "Input")),
            None => {},
        }
        if self.input.is_some() && self.output.is_some() {
            push_line(&mut lines, String::new());
        }
        match &self.output {
            Some(io) => push_line(&mut lines, io_rust_code(io, "Output")),
            None => {},
        }
        push_helper_lines_rust(&mut lines, &self.structs, &self.enums, ctx);
        assert(texts(lines@) =~= server_lines(*self, *ctx));
        let mut code = join_strings(&lines, "\n");
        let c = code.as_str();
        if contains_text(c, "Uuid") || contains_text(c, "DateTime<Utc>") || contains_text(
            c,
            "Deserialize",
        ) || contains_text(c, "Serialize") {
            code = prefixed("\n", code);
        }
        if contains_text(code.as_str(), "Uuid") {
            code = prefixed("use uuid::Uuid;\n", code);
        }
        let ser = contains_text(code.as_str(), "Serialize");
        let de = contains_text(code.as_str(), "Deserialize");
        if ser && de {
            code = prefixed("use serde::{Deserialize, Serialize};\n", code);
        } else if ser {
            code = prefixed("use serde::Serialize;\n", code);
        } else if de {
            code = prefixed("use serde::Deserialize;\n", code);
        }
        if contains_text(code.as_str(), "DateTime<Utc>") {
            code = prefixed("use chrono::{DateTime, Utc};\n", code);
        }
        code
    }
}

impl FileNode {
    fn return_type_code(&self) -> (r: String)
        ensures
            r@ == return_type_swift(*self),
    {
        match &self.output {
            None => owned("NoData"),
            Some(IOType::Type(t)) => type_swift_code(t),
            Some(_) => prefixed(self.name.as_str(), owned("Output")),
        }
    }

    fn client_declaration(&self, rt: &str) -> (r: String)
        requires
            rt@ == return_type_swift(*self),
        ensures
            r@ == "  func "@ + camel_of_pascal(self.name@) + "("@ + parameters_swift(*self)
                + ") async throws -> Response<"@ + return_type_swift(*self) + "> {"@,
    {
        let mut params = String::new();
        match &self.input {
            Some(IOType::Type(t)) => {
                append(&mut params, "input: ");
                append(&mut params, type_swift_code(t).as_str());
            },
            Some(IOType::Enum(_)) => {
                append(&mut params, "input: ");
                append(&mut params, self.name.as_str());
                append(&mut params, "Input");
            },
            Some(IOType::Struct(d)) => {
                append(&mut params, argument_list_code(&d.fields, false).as_str());
            },
            None => {},
        }
        assert(params@ =~= input_parameters_swift(*self));
        let has_params = !params.as_str().is_empty();
        if self.authed && has_params {
            append(&mut params, ", sessionToken: String");
        } else if self.authed {
            append(&mut params, "sessionToken: String");
        }
        let mut decl = owned("  func ");
        append(&mut decl, pascal_to_camel(self.name.as_str()).as_str());
        append(&mut decl, "(");
        append(&mut decl, params.as_str());
        assert(decl@ =~= "  func "@ + camel_of_pascal(self.name@) + "("@ + parameters_swift(*self));
        append(&mut decl, ") async throws -> Response<");
        append(&mut decl, rt);
        append(&mut decl, "> {");
        decl
    }

    fn payload_code(&self) -> (r: String)
        ensures
            r@ == payload_swift(*self),
    {
        match &self.input {
            Some(IOType::Struct(d)) => {
                let mut with = owned(self.name.as_str());
                append(&mut with, "Input(");
                append(&mut with, argument_list_code(&d.fields, true).as_str());
                append(&mut with, ")");
                with
            },
            _ => owned("input"),
        }
    }

    fn push_call_lines(&self, lines: &mut Vec<String>, rt: &str)
        requires
            rt@ == return_type_swift(*self),
        ensures
            texts(final(lines)@) == texts(old(lines)@) + call_lines_swift(*self),
    {
        let path = pascal_to_kebab(self.name.as_str());
        if self.input.is_some() {
            push_line(lines, owned("    return try await self.fetcher.post("));
            let mut to = owned("      to: \"/_fen_/");
            append(&mut to, path.as_str());
            append(&mut to, "\",");
            push_line(lines, to);
            let mut with = owned("      with: ");
            append(&mut with, self.payload_code().as_str());
            append(&mut with, ",");
            push_line(lines, with);
            let mut returning = owned("      returning: ");
            append(&mut returning, rt);
            append(&mut returning, ".self,");
            push_line(lines, returning);
            if self.authed {
                push_line(lines, owned("      sessionToken: sessionToken"));
            } else {
                push_line(lines, owned("      sessionToken: nil"));
            }
            push_line(lines, owned("    )"));
        } else {
            let mut get = owned("    return try await self.fetcher.get(from: \"/_fen_/");
            append(&mut get, path.as_str());
            append(&mut get, "\"");
            if self.authed {
                append(&mut get, ", sessionToken: sessionToken");
            } else {
                append(&mut get, ", sessionToken: nil");
            }
            append(&mut get, ")");
            push_line(lines, get);
        }
        assert(texts(lines@) =~= texts(old(lines)@) + call_lines_swift(*self));
    }

    fn client_head(&self) -> (r: Vec<String>)
        ensures
            texts(r@) == seq!["extension APIClient {"@] + (match self.description {
                Some(d) => seq!["  /// "@ + d@],
                None => Seq::empty(),
            }) + seq![
                "  func "@ + camel_of_pascal(self.name@) + "("@ + parameters_swift(*self)
                    + ") async throws -> Response<"@ + return_type_swift(*self) + "> {"@,
            ] + call_lines_swift(*self) + seq!["  }"@, "}"@],
    {
        let return_type = self.return_type_code();
        let rt = return_type.as_str();
        let mut lines: Vec<String> = Vec::new();
        push_line(&mut lines, owned("extension APIClient {"));
        match &self.description {
            Some(d) => push_line(&mut lines, prefixed("  /// ", d.clone())),
            None => {},
        }
        push_line(&mut lines, self.client_declaration(rt));
        self.push_call_lines(&mut lines, rt);
        push_line(&mut lines, owned("  }"));
        push_line(&mut lines, owned("}"));
        assert(texts(lines@) =~= seq!["extension APIClient {"@] + (match self.description {
            Some(d) => seq!["  /// "@ + d@],
            None => Seq::empty(),
        }) + seq![
            "  func "@ + camel_of_pascal(self.name@) + "("@ + parameters_swift(*self)
                + ") async throws -> Response<"@ + return_type_swift(*self) + "> {"@,
        ] + call_lines_swift(*self) + seq!["  }"@, "}"@]);
        lines
    }

    fn push_io_lines_swift(&self, lines: &mut Vec<String>, input: bool)
        ensures
            texts(final(lines)@) == texts(old(lines)@) + (if input {
                io_lines_swift(self.input, self.name@ + "Input"@)
            } else {
                io_lines_swift(self.output, self.name@ + "Output"@)
            }),
    {
        let io = if input {
            &self.input
        } else {
            &self.output
        };
        let label = if input {
            "Input"
        } else {
            "Output"
        };
        let ctx = Context { override_name: Some(prefixed(self.name.as_str(), owned(label))) };
        match io {
            Some(IOType::Struct(d)) => {
                push_line(lines, String::new());
                push_line(lines, d.swift_client_code(&ctx));
            },
            Some(IOType::Enum(d)) => {
                push_line(lines, String::new());
                push_line(lines, d.swift_client_code(&ctx));
            },
            _ => {},
        }
        assert(texts(lines@) =~= texts(old(lines)@) + (if input {
            io_lines_swift(self.input, self.name@ + "Input"@)
        } else {
            io_lines_swift(self.output, self.name@ + "Output"@)
        }));
    }
}

fn io_rust_code(io: &IOType, label: &str) -> (r: String)
    ensures
        r@ == io_rust(*io, label@),
{
    let ctx = Context { override_name: Some(owned(label)) };
    match io {
        IOType::Type(t) => {
            let mut r = owned("pub type ");
            append(&mut r, label);
            append(&mut r, " = ");
            append(&mut r, type_rust_code(t).as_str());
            append(&mut r, ";");
            r
        },
        IOType::Struct(d) => d.rust_server_code(&ctx),
        IOType::Enum(d) => d.rust_server_code(&ctx),
    }
}

fn push_helper_lines_swift(
    lines: &mut Vec<String>,
    structs: &Vec<StructDefinition>,
    enums: &Vec<EnumDefinition>,
)
    ensures
        texts(final(lines)@) == texts(old(lines)@) + struct_lines_swift(structs@)
            + enum_lines_swift(enums@),
{
    let ctx = Context { override_name: None };
    let ghost base = texts(lines@);
    let mut i: usize = 0;
    while i < structs.len()
        invariant
            i <= structs@.len(),
            ctx.override_name is None,
            texts(lines@) == base + struct_lines_swift(structs@.subrange(0, i as int)),
        decreases structs.len() - i,
    {
        push_line(lines, String::new());
        push_line(lines, structs[i].swift_client_code(&ctx));
        proof {
            assert(structs@.subrange(0, i + 1).drop_last() =~= structs@.subrange(0, i as int));
            assert(texts(lines@) =~= base + struct_lines_swift(structs@.subrange(0, i + 1)));
        }
        i = i + 1;
    }
    proof {
        lemma_whole(structs@);
    }
    let ghost mid = texts(lines@);
    let mut j: usize = 0;
    while j < enums.len()
        invariant
            j <= enums@.len(),
            ctx.override_name is None,
            texts(lines@) == mid + enum_lines_swift(enums@.subrange(0, j as int)),
        decreases enums.len() - j,
    {
        push_line(lines, String::new());
        push_line(lines, enums[j].swift_client_code(&ctx));
        proof {
            assert(enums@.subrange(0, j + 1).drop_last() =~= enums@.subrange(0, j as int));
            assert(texts(lines@) =~= mid + enum_lines_swift(enums@.subrange(0, j + 1)));
        }
        j = j + 1;
    }
    proof {
        lemma_whole(enums@);
    }
}

fn push_helper_lines_rust(
    lines: &mut Vec<String>,
    structs: &Vec<StructDefinition>,
    enums: &Vec<EnumDefinition>,
    ctx: &Context,
)
    ensures
        texts(final(lines)@) == texts(old(lines)@) + struct_lines_rust(structs@, *ctx)
            + enum_lines_rust(enums@, *ctx),
{
    let ghost base = texts(lines@);
    let mut i: usize = 0;
    while i < structs.len()
        invariant
            i <= structs@.len(),
            texts(lines@) == base + struct_lines_rust(structs@.subrange(0, i as int), *ctx),
        decreases structs.len() - i,
    {
        push_line(lines, String::new());
        push_line(lines, structs[i].rust_server_code(ctx));
        proof {
            assert(structs@.subrange(0, i + 1).drop_last() =~= structs@.subrange(0, i as int));
            assert(texts(lines@) =~= base + struct_lines_rust(structs@.subrange(0, i + 1), *ctx));
        }
        i = i + 1;
    }
    proof {
        lemma_whole(structs@);
    }
    let ghost mid = texts(lines@);
    let mut j: usize = 0;
    while j < enums.len()
        invariant
            j <= enums@.len(),
            texts(lines@) == mid + enum_lines_rust(enums@.subrange(0, j as int), *ctx),
        decreases enums.len() - j,
    {
        push_line(lines, String::new());
        push_line(lines, enums[j].rust_server_code(ctx));
        proof {
            assert(enums@.subrange(0, j + 1).drop_last() =~= enums@.subrange(0, j as int));
            assert(texts(lines@) =~= mid + enum_lines_rust(enums@.subrange(0, j + 1), *ctx));
        }
        j = j + 1;
    }
    proof {
        lemma_whole(enums@);
    }
}

/// Rendering is a function of the tree and the context alone: two renderings
/// of the same file on the same surface are the same text, with the fields,
/// variants and helper types in the order of their declaration.
pub proof fn lemma_generation_is_deterministic(f: FileNode, ctx: Context, first: Seq<char>, second: Seq<char>)
    requires
        first == f.client_text(ctx) && second == f.client_text(ctx) || first == f.server_text(ctx)
            && second == f.server_text(ctx),
    ensures
        first == second,
        f.client_text(ctx) == join(client_lines(f), "\n"@) || f.client_text(ctx) == "import Foundation\n\n"@ + join(client_lines(f), "\n"@),
{
}

} // verus!
