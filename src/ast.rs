use vstd::prelude::*;

verus! {

/// One parsed schema: a route's metadata, its input and output, and the
/// helper types declared after them.
#[derive(Debug, PartialEq, Eq)]
pub struct FileNode {
    pub name: String,
    pub description: Option<String>,
    pub authed: bool,
    pub input: Option<IOType>,
    pub output: Option<IOType>,
    pub structs: Vec<StructDefinition>,
    pub enums: Vec<EnumDefinition>,
}

#[derive(Debug, PartialEq, Eq, Copy, Clone)]
pub enum Primitive {
    Int,
    Float,
    String,
    Bool,
    Date,
    Uuid,
}

#[derive(Debug, PartialEq, Eq)]
pub enum Type {
    Named(String),
    Optional(Box<Type>),
    Array(Box<Type>),
    Primitive(Primitive),
}

#[derive(Debug, PartialEq, Eq)]
pub struct StructDefinition {
    pub name: String,
    pub fields: Vec<Field>,
    pub annotations: Vec<String>,
}

#[derive(Debug, PartialEq, Eq)]
pub struct Field {
    pub name: String,
    pub t: Type,
}

#[derive(Debug, PartialEq, Eq)]
pub struct EnumDefinition {
    pub name: String,
    pub variants: Vec<Variant>,
    pub annotations: Vec<String>,
}

#[derive(Debug, PartialEq, Eq)]
pub struct Variant {
    pub name: String,
    pub t: Option<Type>,
}

/// The shape of a route's input or output.
#[derive(Debug, PartialEq, Eq)]
pub enum IOType {
    Type(Type),
    Struct(StructDefinition),
    Enum(EnumDefinition),
}

} // verus!
