use vstd::prelude::*;
use vstd::string::*;
use crate::ast::{
    EnumDefinition, Field, FileNode, IOType, Primitive, StructDefinition, Type, Variant,
};
use crate::lexer::{self, lexes_cleanly, tokens, Lexer};
use crate::text::{append, owned, same_text, texts};
use crate::tokens::{describe, Tok, Token, TokenKind};
use crate::text::decimal;

verus! {

/// Why a schema was refused.
#[derive(Debug, PartialEq, Eq)]
pub enum Error {
    /// A token of some category was wanted, and another came.
    Expected { expected: &'static str, got: TokenKind },
    /// One token was wanted, and another came.
    WrongToken { expected: TokenKind, got: TokenKind },
    UnexpectedEOF,
    Message(String),
    FromLexer(lexer::Error),
}

/// The message of an error.
pub open spec fn error_text(e: Error) -> Seq<char> {
    match e {
        Error::Expected { expected, got } => "Expected "@ + expected@ + ", got "@ + describe(got@),
        Error::WrongToken { expected, got } => "Expected "@ + describe(expected@) + ", got "@
            + describe(got@),
        Error::UnexpectedEOF => "Unexpected EOF"@,
        Error::Message(m) => m@,
        Error::FromLexer(e) => "Lexer error: "@ + "Error at position "@ + decimal(
            e.position as nat,
        ) + ": "@ + e.message@,
    }
}

impl Error {
    /// The message of the error: what was expected and what came, or the
    /// byte offset at which lexing failed.
    pub fn to_string(&self) -> (r: String)
        ensures
            r@ == error_text(*self),
    {
        match self {
            Error::Expected { expected, got } => {
                let mut r = owned("Expected ");
                append(&mut r, expected);
                append(&mut r, ", got ");
                append(&mut r, got.describe().as_str());
                r
            },
            Error::WrongToken { expected, got } => {
                let mut r = owned("Expected ");
                append(&mut r, expected.describe().as_str());
                append(&mut r, ", got ");
                append(&mut r, got.describe().as_str());
                r
            },
            Error::UnexpectedEOF => owned("Unexpected EOF"),
            Error::Message(m) => m.clone(),
            Error::FromLexer(e) => {
                let mut r = owned("Lexer error: ");
                append(&mut r, e.to_string().as_str());
                r
            },
        }
    }
}

/// The keyword token of a primitive type.
pub open spec fn primitive_tok(p: Primitive) -> Tok {
    match p {
        Primitive::Int => Tok::Int,
        Primitive::Float => Tok::Float,
        Primitive::String => Tok::Str,
        Primitive::Bool => Tok::Bool,
        Primitive::Date => Tok::Date,
        Primitive::Uuid => Tok::Uuid,
    }
}

/// The tokens that spell a type: `[T]` for an array, `T?` for an optional.
pub open spec fn type_spelling(t: Type) -> Seq<Tok>
    decreases t,
{
    match t {
        Type::Named(n) => seq![Tok::Identifier(n@)],
        Type::Primitive(p) => seq![primitive_tok(p)],
        Type::Array(inner) => seq![Tok::LeftBracket] + type_spelling(*inner) + seq![
            Tok::RightBracket,
        ],
        Type::Optional(inner) => type_spelling(*inner) + seq![Tok::QuestionMark],
    }
}

/// No optional directly wraps another: `T??` is not a type.
pub open spec fn canonical(t: Type) -> bool
    decreases t,
{
    match t {
        Type::Optional(inner) => !(*inner is Optional) && canonical(*inner),
        Type::Array(inner) => canonical(*inner),
        _ => true,
    }
}

/// `toks` begins with `s`.
pub open spec fn begins_with(toks: Seq<Tok>, s: Seq<Tok>) -> bool {
    s.len() <= toks.len() && toks.subrange(0, s.len() as int) == s
}

/// What follows `s` at the start of `toks`.
pub open spec fn after(toks: Seq<Tok>, s: Seq<Tok>) -> Seq<Tok> {
    toks.subrange(s.len() as int, toks.len() as int)
}

/// A field that may be parsed: its type has no `??`.
pub open spec fn field_ok(f: Field) -> bool {
    canonical(f.t)
}

/// A variant that may be parsed: its type, if any, has no `??`.
pub open spec fn variant_ok(v: Variant) -> bool {
    v.t matches Some(t) ==> canonical(t)
}

/// What may follow a variant: some token, and not `(` after one without a
/// value.
pub open spec fn may_follow_variant(rest: Seq<Tok>, v: Variant) -> bool {
    rest.len() > 0 && (v.t is None ==> rest[0] != Tok::LeftParen)
}

/// `toks` begins with the spelling of `t`.
pub open spec fn begins_with_type(toks: Seq<Tok>, t: Type) -> bool {
    type_spelling(t).len() <= toks.len() && toks.subrange(0, type_spelling(t).len() as int)
        == type_spelling(t)
}

/// What follows the spelling of `t` at the start of `toks`.
pub open spec fn after_type(toks: Seq<Tok>, t: Type) -> Seq<Tok> {
    toks.subrange(type_spelling(t).len() as int, toks.len() as int)
}

/// A token that can start a type.
pub open spec fn starts_type(t: Tok) -> bool {
    t is Identifier || t == Tok::LeftBracket || t == Tok::Int || t == Tok::Float || t == Tok::Str
        || t == Tok::Bool || t == Tok::Date || t == Tok::Uuid
}

/// The part of a type that precedes its `?`, if it has one.
pub open spec fn base_type(t: Type) -> Type {
    match t {
        Type::Optional(inner) => *inner,
        _ => t,
    }
}

#[verifier::rlimit(80)]
#[verifier::spinoff_prover]
proof fn lemma_spelling_starts(t: Type)
    requires
        canonical(t),
    ensures
        type_spelling(t).len() > 0,
        starts_type(type_spelling(t)[0]),
        type_spelling(t)[0] == type_spelling(base_type(t))[0],
        type_spelling(t)[0] is Identifier ==> base_type(t) is Named,
        type_spelling(t)[0] == Tok::LeftBracket ==> base_type(t) is Array,
        !(type_spelling(t)[0] is Identifier) && type_spelling(t)[0] != Tok::LeftBracket ==> base_type(t) is Primitive,
    decreases t,
{
    match t {
        Type::Optional(inner) => {
            lemma_spelling_starts(*inner);
            assert(type_spelling(t) == type_spelling(*inner) + seq![Tok::QuestionMark]);
        },
        Type::Array(inner) => {
            lemma_spelling_starts(*inner);
        },
        Type::Primitive(p) => {
        },
        Type::Named(n) => {
        },
    }
}

#[verifier::rlimit(80)]
#[verifier::spinoff_prover]
proof fn lemma_begins_base(toks: Seq<Tok>, t: Type)
    requires
        canonical(t),
        begins_with_type(toks, t),
    ensures
        canonical(base_type(t)),
        !(base_type(t) is Optional),
        begins_with_type(toks, base_type(t)),
        t is Optional ==> after_type(toks, base_type(t)).len() > 0 && after_type(toks, base_type(t))[0]
            == Tok::QuestionMark && after_type(toks, t) == after_type(toks, base_type(t)).drop_first(),
        !(t is Optional) ==> after_type(toks, base_type(t)) == after_type(toks, t),
{
    match t {
        Type::Optional(inner) => {
            let n = type_spelling(*inner).len() as int;
            assert(type_spelling(t) == type_spelling(*inner) + seq![Tok::QuestionMark]);
            assert(type_spelling(*inner) =~= (type_spelling(*inner) + seq![Tok::QuestionMark]).subrange(0, n));
            assert(toks.subrange(0, n) =~= toks.subrange(0, n + 1).subrange(0, n));
            assert(toks.subrange(0, n + 1)[n] == toks[n]);
            assert(after_type(toks, *inner).drop_first() =~= after_type(toks, t));
        },
        _ => {},
    }
}

#[verifier::rlimit(80)]
#[verifier::spinoff_prover]
proof fn lemma_begins_array(toks: Seq<Tok>, t: Type)
    requires
        canonical(t),
        t is Array,
        begins_with_type(toks, t),
    ensures
        toks.len() > 0,
        toks[0] == Tok::LeftBracket,
        canonical(*t->Array_0),
        begins_with_type(toks.drop_first(), *t->Array_0),
        after_type(toks.drop_first(), *t->Array_0) == seq![Tok::RightBracket] + after_type(toks, t),
{
    match t {
        Type::Array(inner) => {
            let n = type_spelling(*inner).len() as int;
            assert(type_spelling(t) == seq![Tok::LeftBracket] + type_spelling(*inner) + seq![
                Tok::RightBracket,
            ]);
            assert(toks.subrange(0, n + 2)[0] == toks[0]);
            assert(type_spelling(*inner) =~= (seq![Tok::LeftBracket] + type_spelling(*inner) + seq![
                Tok::RightBracket,
            ]).subrange(1, n + 1));
            assert(toks.drop_first().subrange(0, n) =~= toks.subrange(0, n + 2).subrange(1, n + 1));
            assert(toks.subrange(0, n + 2)[n + 1] == toks[n + 1]);
            assert(after_type(toks.drop_first(), *inner) =~= seq![Tok::RightBracket] + after_type(
                toks,
                t,
            ));
        },
        _ => {},
    }
}

#[verifier::rlimit(80)]
#[verifier::spinoff_prover]
proof fn lemma_spelling_ends(t: Type)
    ensures
        type_spelling(t).len() > 0,
        type_spelling(t).last() == match t {
            Type::Named(n) => Tok::Identifier(n@),
            Type::Primitive(p) => primitive_tok(p),
            Type::Array(_) => Tok::RightBracket,
            Type::Optional(_) => Tok::QuestionMark,
        },
    decreases t,
{
    match t {
        Type::Array(inner) => lemma_spelling_ends(*inner),
        Type::Optional(inner) => lemma_spelling_ends(*inner),
        _ => {},
    }
}

/// Types spelled alike refer to the same names.
#[verifier::rlimit(80)]
#[verifier::spinoff_prover]
pub proof fn lemma_known_by_spelling(t: Type, u: Type, names: Seq<Seq<char>>)
    requires
        type_spelling(t) == type_spelling(u),
    ensures
        type_known(t, names) == type_known(u, names),
    decreases t,
{
    lemma_spelling_ends(t);
    lemma_spelling_ends(u);
    match t {
        Type::Named(n) => {
            if let Type::Named(m) = u {
                assert(type_spelling(t)[0] == type_spelling(u)[0]);
            }
        },
        Type::Primitive(_) => {},
        Type::Array(x) => {
            if let Type::Array(y) = u {
                let a = type_spelling(t);
                assert(type_spelling(*x) =~= a.subrange(1, a.len() - 1));
                assert(type_spelling(*y) =~= type_spelling(u).subrange(1, a.len() - 1));
                lemma_known_by_spelling(*x, *y, names);
            } else if let Type::Named(_) = u {
                lemma_spelling_ends(*x);
            } else if let Type::Primitive(_) = u {
                lemma_spelling_ends(*x);
            }
        },
        Type::Optional(x) => {
            if let Type::Optional(y) = u {
                assert(type_spelling(*x) =~= type_spelling(t).drop_last());
                assert(type_spelling(*y) =~= type_spelling(u).drop_last());
                lemma_known_by_spelling(*x, *y, names);
            }
        },
    }
}

/// Shapes spelled alike refer to the same names.
#[verifier::rlimit(80)]
#[verifier::spinoff_prover]
pub proof fn lemma_io_known_by_shape(a: IOType, b: IOType, names: Seq<Seq<char>>)
    requires
        same_shape(a, b),
    ensures
        io_known(a, names) == io_known(b, names),
{
    match (a, b) {
        (IOType::Type(x), IOType::Type(y)) => lemma_known_by_spelling(x, y, names),
        (IOType::Struct(x), IOType::Struct(y)) => {
            assert(field_spellings(x.fields@).len() == x.fields@.len());
            assert(field_spellings(y.fields@).len() == y.fields@.len());
            assert forall|i: int| 0 <= i < x.fields@.len() implies type_known(
                #[trigger] x.fields@[i].t,
                names,
            ) == type_known(y.fields@[i].t, names) by {
                let fx = field_spelling(x.fields@[i]);
                let fy = field_spelling(y.fields@[i]);
                assert(field_spellings(x.fields@)[i] == fx);
                assert(field_spellings(y.fields@)[i] == fy);
                assert(type_spelling(x.fields@[i].t) =~= fx.subrange(2, fx.len() as int));
                assert(type_spelling(y.fields@[i].t) =~= fy.subrange(2, fy.len() as int));
                lemma_known_by_spelling(x.fields@[i].t, y.fields@[i].t, names);
            }
            assert forall|i: int| 0 <= i < y.fields@.len() implies type_known(
                #[trigger] y.fields@[i].t,
                names,
            ) == type_known(x.fields@[i].t, names) by {
                assert(type_known(x.fields@[i].t, names) == type_known(y.fields@[i].t, names));
            }
        },
        (IOType::Enum(x), IOType::Enum(y)) => {
            assert(variant_spellings(x.variants@).len() == x.variants@.len());
            assert(variant_spellings(y.variants@).len() == y.variants@.len());
            assert forall|i: int| 0 <= i < x.variants@.len() implies (#[trigger] x.variants@[i].t matches Some(t) ==> type_known(t, names)) == (y.variants@[i].t matches Some(t) ==> type_known(t, names)) by {
                let vx = variant_spelling(x.variants@[i]);
                let vy = variant_spelling(y.variants@[i]);
                assert(variant_spellings(x.variants@)[i] == vx);
                assert(variant_spellings(y.variants@)[i] == vy);
                match (x.variants@[i].t, y.variants@[i].t) {
                    (Some(p), Some(q)) => {
                        assert(type_spelling(p) =~= vx.subrange(2, vx.len() - 1));
                        assert(type_spelling(q) =~= vy.subrange(2, vy.len() - 1));
                        lemma_known_by_spelling(p, q, names);
                    },
                    (Some(p), None) => {
                        lemma_spelling_ends(p);
                    },
                    (None, Some(q)) => {
                        lemma_spelling_ends(q);
                    },
                    _ => {},
                }
            }
            assert forall|i: int| 0 <= i < y.variants@.len() implies (#[trigger] y.variants@[i].t matches Some(t) ==> type_known(t, names)) == (x.variants@[i].t matches Some(t) ==> type_known(t, names)) by {
                assert((x.variants@[i].t matches Some(t) ==> type_known(t, names)) == (y.variants@[i].t matches Some(t) ==> type_known(t, names)));
            }
        },
        _ => {},
    }
}

/// `rest` may follow a type: it does not start with `?`, and where it is
/// empty, nothing lies beyond it that fails to lex.
pub open spec fn may_follow_type(rest: Seq<Tok>, clean: bool) -> bool {
    &&& !(rest.len() > 0 && rest[0] == Tok::QuestionMark)
    &&& (rest.len() > 0 || clean)
}

/// Every name that the type refers to is among `names`.
pub open spec fn type_known(t: Type, names: Seq<Seq<char>>) -> bool
    decreases t,
{
    match t {
        Type::Named(n) => names.contains(n@),
        Type::Primitive(_) => true,
        Type::Array(inner) => type_known(*inner, names),
        Type::Optional(inner) => type_known(*inner, names),
    }
}

/// `name: T`
pub open spec fn field_spelling(f: Field) -> Seq<Tok> {
    seq![Tok::Identifier(f.name@), Tok::Colon] + type_spelling(f.t)
}

/// `name` or `name(T)`
pub open spec fn variant_spelling(v: Variant) -> Seq<Tok> {
    seq![Tok::Identifier(v.name@)] + match v.t {
        Some(t) => seq![Tok::LeftParen] + type_spelling(t) + seq![Tok::RightParen],
        None => Seq::empty(),
    }
}

/// The items in order, each followed by a comma where `commas` says so.
pub open spec fn with_commas(items: Seq<Seq<Tok>>, commas: Seq<bool>) -> Seq<Tok>
    decreases items.len(),
{
    if items.len() == 0 {
        Seq::empty()
    } else {
        with_commas(items.drop_last(), commas.drop_last()) + items.last() + (if commas.last() {
            seq![Tok::Comma]
        } else {
            Seq::empty()
        })
    }
}

/// Adding an item, with or without a comma after it, adds its tokens at the
/// end.
#[verifier::rlimit(80)]
#[verifier::spinoff_prover]
proof fn lemma_with_commas_push(items: Seq<Seq<Tok>>, commas: Seq<bool>, item: Seq<Tok>, comma: bool)
    ensures
        with_commas(items.push(item), commas.push(comma)) == with_commas(items, commas) + item + (
        if comma {
            seq![Tok::Comma]
        } else {
            Seq::empty()
        }),
{
    assert(items.push(item).drop_last() =~= items);
    assert(commas.push(comma).drop_last() =~= commas);
}

/// A comma where `c` holds.
pub open spec fn comma_after(c: bool) -> Seq<Tok> {
    if c {
        seq![Tok::Comma]
    } else {
        Seq::empty()
    }
}

/// The items from `i` on, each followed by a comma where `commas` says so.
pub open spec fn list_tail(items: Seq<Seq<Tok>>, commas: Seq<bool>, i: int) -> Seq<Tok> {
    with_commas(items.subrange(i, items.len() as int), commas.subrange(i, commas.len() as int))
}

/// `toks` is the fields between braces, each followed by a comma where
/// `commas` says so (where `strict` holds, after every field but the last),
/// then `rest`; no type has `??`.
pub open spec fn fields_listed(
    toks: Seq<Tok>,
    fields: Seq<Field>,
    commas: Seq<bool>,
    rest: Seq<Tok>,
    strict: bool,
) -> bool {
    &&& commas.len() == fields.len()
    &&& commas_fit(commas, strict)
    &&& forall|i: int| 0 <= i < fields.len() ==> field_ok(#[trigger] fields[i])
    &&& toks == seq![Tok::LeftBrace] + with_commas(field_spellings(fields), commas) + seq![
        Tok::RightBrace,
    ] + rest
}

/// `toks` is the variants between `(` and `)` (between braces where `braced`
/// holds), each followed by a comma where `commas` says so (where `strict`
/// holds, after every variant but the last), then `rest`; no type has `??`.
pub open spec fn variants_listed(
    toks: Seq<Tok>,
    variants: Seq<Variant>,
    commas: Seq<bool>,
    rest: Seq<Tok>,
    braced: bool,
    strict: bool,
) -> bool {
    &&& commas.len() == variants.len()
    &&& commas_fit(commas, strict)
    &&& forall|i: int| 0 <= i < variants.len() ==> variant_ok(#[trigger] variants[i])
    &&& toks == seq![opener(braced)] + with_commas(variant_spellings(variants), commas) + seq![
        closer(braced),
    ] + rest
}

/// One variant of an enum body read, and its comma if one followed: whatever
/// list the body spells, the variants read so far are its first ones, and
/// the rest of it follows.
#[verifier::rlimit(80)]
#[verifier::spinoff_prover]
proof fn lemma_variant_read(
    start: Seq<Tok>,
    p: Seq<Tok>,
    p1: Seq<Tok>,
    pend: Seq<Tok>,
    prev: Seq<Variant>,
    now: Seq<Variant>,
    took: bool,
    braced: bool,
    strict: bool,
)
    requires
        now.len() == prev.len() + 1,
        variant_spellings(now) == variant_spellings(prev).push(variant_spelling(now.last())),
        p == variant_spelling(now.last()) + p1,
        took ==> p1.len() > 0 && p1[0] == Tok::Comma && pend == p1.drop_first(),
        !took ==> p1.len() > 0 && p1[0] != Tok::Comma && pend == p1,
        forall|vs: Seq<Variant>, cs: Seq<bool>, rest: Seq<Tok>|
            #[trigger] variants_listed(start, vs, cs, rest, braced, strict) ==> prev.len() < vs.len()
                && variant_spellings(prev) == variant_spellings(vs).subrange(0, prev.len() as int)
                && p == list_tail(variant_spellings(vs), cs, prev.len() as int) + seq![
                closer(braced),
            ] + rest && begins_with(p, variant_spelling(vs[prev.len() as int])) && p1 == after(
                p,
                variant_spelling(vs[prev.len() as int]),
            ),
    ensures
        forall|vs: Seq<Variant>, cs: Seq<bool>, rest: Seq<Tok>|
            #[trigger] variants_listed(start, vs, cs, rest, braced, strict) ==> now.len() <= vs.len()
                && variant_spellings(now) == variant_spellings(vs).subrange(0, now.len() as int)
                && pend == list_tail(variant_spellings(vs), cs, now.len() as int) + seq![
                closer(braced),
            ] + rest,
{
    assert forall|vs: Seq<Variant>, cs: Seq<bool>, rest: Seq<Tok>|
        #[trigger] variants_listed(start, vs, cs, rest, braced, strict) implies now.len() <= vs.len()
        && variant_spellings(now) == variant_spellings(vs).subrange(0, now.len() as int) && pend
        == list_tail(variant_spellings(vs), cs, now.len() as int) + seq![closer(braced)] + rest by {
        let i = prev.len() as int;
        let sp = variant_spelling(vs[i]);
        let got = variant_spelling(now.last());
        assert(got.len() == sp.len());
        assert(got =~= p.subrange(0, sp.len() as int));
        assert(variant_spellings(now) =~= variant_spellings(vs).subrange(0, i + 1));
        lemma_list_step(p, variant_spellings(vs), cs, i, closer(braced), rest, strict);
        assert(variant_spellings(vs)[i] == sp);
    }
}

/// `toks` is the shape `io` followed by `rest`: a well-formed type that
/// `rest` may follow, or an inline struct or enum whose items carry the
/// commas that `commas` gives.
pub open spec fn io_fits(toks: Seq<Tok>, io: IOType, commas: Seq<bool>, rest: Seq<Tok>, clean: bool) -> bool {
    match io {
        IOType::Type(t) => canonical(t) && toks == type_spelling(t) + rest && may_follow_type(
            rest,
            clean,
        ),
        IOType::Struct(d) => fields_listed(toks, d.fields@, commas, rest, false),
        IOType::Enum(d) => variants_listed(toks, d.variants@, commas, rest, false, false),
    }
}

/// Two shapes of the same kind, spelled the same.
pub open spec fn same_shape(a: IOType, b: IOType) -> bool {
    match (a, b) {
        (IOType::Type(x), IOType::Type(y)) => type_spelling(x) == type_spelling(y),
        (IOType::Struct(x), IOType::Struct(y)) => field_spellings(x.fields@) == field_spellings(
            y.fields@,
        ),
        (IOType::Enum(x), IOType::Enum(y)) => variant_spellings(x.variants@) == variant_spellings(
            y.variants@,
        ),
        _ => false,
    }
}

/// `toks` is `@input` and its shape, then `@output` and its shape, or either
/// alone, then `rest`; `mid` is what follows the input where both are
/// there. After an input alone, `rest` does not start with `@`.
pub open spec fn io_section_fits(
    toks: Seq<Tok>,
    input: Option<IOType>,
    output: Option<IOType>,
    input_commas: Seq<bool>,
    output_commas: Seq<bool>,
    mid: Seq<Tok>,
    rest: Seq<Tok>,
    clean: bool,
) -> bool {
    &&& toks.len() >= 2
    &&& toks[0] == Tok::At
    &&& match (input, output) {
        (Some(i), None) => toks[1] == Tok::Identifier("input"@) && io_fits(
            toks.subrange(2, toks.len() as int),
            i,
            input_commas,
            rest,
            clean,
        ) && !(rest.len() > 0 && rest[0] == Tok::At) && (rest.len() > 0 || clean),
        (Some(i), Some(o)) => toks[1] == Tok::Identifier("input"@) && io_fits(
            toks.subrange(2, toks.len() as int),
            i,
            input_commas,
            mid,
            clean,
        ) && mid.len() >= 2 && mid[0] == Tok::At && mid[1] == Tok::Identifier("output"@) && io_fits(
            mid.subrange(2, mid.len() as int),
            o,
            output_commas,
            rest,
            clean,
        ),
        (None, Some(o)) => toks[1] == Tok::Identifier("output"@) && io_fits(
            toks.subrange(2, toks.len() as int),
            o,
            output_commas,
            rest,
            clean,
        ),
        (None, None) => false,
    }
}

/// `toks` is `@input` and its shape, then `@` and a word other than
/// `output`.
pub open spec fn input_then_other(
    toks: Seq<Tok>,
    input: IOType,
    input_commas: Seq<bool>,
    mid: Seq<Tok>,
    clean: bool,
) -> bool {
    &&& toks.len() >= 2
    &&& toks[0] == Tok::At
    &&& toks[1] == Tok::Identifier("input"@)
    &&& io_fits(toks.subrange(2, toks.len() as int), input, input_commas, mid, clean)
    &&& mid.len() >= 2
    &&& mid[0] == Tok::At
    &&& mid[1] is Identifier
    &&& mid[1] != Tok::Identifier("output"@)
}

/// An inline struct or enum of the shape is named `name`, without
/// annotations.
pub open spec fn inline_named(io: Option<IOType>, name: Seq<char>) -> bool {
    match io {
        Some(IOType::Struct(d)) => d.name@ == name && d.annotations@.len() == 0,
        Some(IOType::Enum(d)) => d.name@ == name && d.annotations@.len() == 0,
        _ => true,
    }
}

/// Two optional shapes that are both absent, or both present and alike.
pub open spec fn same_optional_shape(a: Option<IOType>, b: Option<IOType>) -> bool {
    match (a, b) {
        (None, None) => true,
        (Some(x), Some(y)) => same_shape(x, y),
        _ => false,
    }
}

/// `toks` is a list of well-formed fields between braces, then `rest`, but
/// the `j`-th field is followed by neither a comma nor the closing brace,
/// while every field before it has its comma.
pub open spec fn comma_missing(
    toks: Seq<Tok>,
    fields: Seq<Field>,
    commas: Seq<bool>,
    rest: Seq<Tok>,
    j: int,
) -> bool {
    &&& fields_listed(toks, fields, commas, rest, false)
    &&& 0 <= j < fields.len() - 1
    &&& !commas[j]
    &&& forall|i: int| 0 <= i < j ==> #[trigger] commas[i]
}

/// As [`comma_missing`], for the variants of an enum.
pub open spec fn variant_comma_missing(
    toks: Seq<Tok>,
    variants: Seq<Variant>,
    commas: Seq<bool>,
    rest: Seq<Tok>,
    j: int,
    braced: bool,
) -> bool {
    &&& variants_listed(toks, variants, commas, rest, braced, false)
    &&& 0 <= j < variants.len() - 1
    &&& !commas[j]
    &&& forall|i: int| 0 <= i < j ==> #[trigger] commas[i]
}

/// The next item of a list whose tail from `i` on stands at the front of
/// `p`, and what follows it.
#[verifier::rlimit(80)]
#[verifier::spinoff_prover]
proof fn lemma_list_step(
    p: Seq<Tok>,
    items: Seq<Seq<Tok>>,
    commas: Seq<bool>,
    i: int,
    close: Tok,
    rest: Seq<Tok>,
    strict: bool,
)
    requires
        0 <= i < items.len(),
        commas.len() == items.len(),
        commas_fit(commas, strict),
        forall|j: int| 0 <= j < items.len() ==> (#[trigger] items[j]).len() > 0 && items[j][0] is Identifier,
        close != Tok::Comma,
        !(close is Identifier),
        p == list_tail(items, commas, i) + seq![close] + rest,
    ensures
        begins_with(p, items[i]),
        after(p, items[i]) == comma_after(commas[i]) + list_tail(items, commas, i + 1) + seq![close]
            + rest,
        after(p, items[i]).len() > 0,
        after(p, items[i])[0] == Tok::Comma <==> commas[i],
        !commas[i] ==> after(p, items[i]) == list_tail(items, commas, i + 1) + seq![close] + rest,
        commas[i] ==> after(p, items[i]).drop_first() == list_tail(items, commas, i + 1) + seq![
            close,
        ] + rest,
        after(p, items[i])[0] == Tok::Comma || after(p, items[i])[0] == close || after(
            p,
            items[i],
        )[0] is Identifier,
        strict && !commas[i] ==> after(p, items[i])[0] == close,
        !commas[i] && i + 1 < items.len() ==> after(p, items[i])[0] == items[i + 1][0],
{
    lemma_list_tail(items, commas, i);
    let a = comma_after(commas[i]) + list_tail(items, commas, i + 1) + seq![close] + rest;
    assert(p =~= items[i] + a);
    assert(p.subrange(0, items[i].len() as int) =~= items[i]);
    assert(after(p, items[i]) =~= a);
    if commas[i] {
        assert(a.drop_first() =~= list_tail(items, commas, i + 1) + seq![close] + rest);
    } else {
        assert(a =~= list_tail(items, commas, i + 1) + seq![close] + rest);
        if i + 1 < items.len() {
            lemma_list_tail(items, commas, i + 1);
            assert(a[0] == items[i + 1][0]);
        } else {
            assert(items.subrange(i + 1, items.len() as int).len() == 0);
            assert(list_tail(items, commas, i + 1) == Seq::<Tok>::empty());
            assert(a[0] == close);
        }
        if strict {
            assert(i == items.len() - 1);
        }
    }
}

/// A list with commas, taken from the front: its first item, that item's
/// comma, and the rest.
#[verifier::rlimit(80)]
#[verifier::spinoff_prover]
proof fn lemma_with_commas_front(items: Seq<Seq<Tok>>, commas: Seq<bool>)
    requires
        items.len() > 0,
        commas.len() == items.len(),
    ensures
        with_commas(items, commas) == items[0] + (if commas[0] {
            seq![Tok::Comma]
        } else {
            Seq::empty()
        }) + with_commas(items.drop_first(), commas.drop_first()),
    decreases items.len(),
{
    if items.len() == 1 {
        assert(items.drop_first().len() == 0);
        assert(items.drop_last().len() == 0);
        assert(with_commas(items.drop_last(), commas.drop_last()) == Seq::<Tok>::empty());
        assert(with_commas(items, commas) =~= items[0] + (if commas[0] {
            seq![Tok::Comma]
        } else {
            Seq::empty()
        }) + with_commas(items.drop_first(), commas.drop_first()));
    } else {
        lemma_with_commas_front(items.drop_last(), commas.drop_last());
        assert(items.drop_last().drop_first() =~= items.drop_first().drop_last());
        assert(commas.drop_last().drop_first() =~= commas.drop_first().drop_last());
        assert(items.drop_first().last() == items.last());
        assert(commas.drop_first().last() == commas.last());
        assert(with_commas(items, commas) =~= items[0] + (if commas[0] {
            seq![Tok::Comma]
        } else {
            Seq::empty()
        }) + with_commas(items.drop_first(), commas.drop_first()));
    }
}

/// The tail of a list with commas from item `i` on, taken from the front.
#[verifier::rlimit(80)]
#[verifier::spinoff_prover]
proof fn lemma_list_tail(items: Seq<Seq<Tok>>, commas: Seq<bool>, i: int)
    requires
        0 <= i < items.len(),
        commas.len() == items.len(),
    ensures
        with_commas(items.subrange(i, items.len() as int), commas.subrange(i, commas.len() as int))
            == items[i] + (if commas[i] {
            seq![Tok::Comma]
        } else {
            Seq::empty()
        }) + with_commas(
            items.subrange(i + 1, items.len() as int),
            commas.subrange(i + 1, commas.len() as int),
        ),
{
    let a = items.subrange(i, items.len() as int);
    let c = commas.subrange(i, commas.len() as int);
    lemma_with_commas_front(a, c);
    assert(a.drop_first() =~= items.subrange(i + 1, items.len() as int));
    assert(c.drop_first() =~= commas.subrange(i + 1, commas.len() as int));
}

/// Where `strict` holds, a comma follows every item but the last.
pub open spec fn commas_fit(commas: Seq<bool>, strict: bool) -> bool {
    strict ==> forall|i: int| 0 <= i < commas.len() - 1 ==> #[trigger] commas[i]
}

/// `toks` is the list `items` between `open` and `close`, followed by `rest`.
/// Commas may follow items; where `strict` holds, one must follow every item
/// but the last.
pub open spec fn spells_list(
    toks: Seq<Tok>,
    open: Tok,
    items: Seq<Seq<Tok>>,
    close: Tok,
    rest: Seq<Tok>,
    strict: bool,
) -> bool {
    exists|commas: Seq<bool>|
        commas.len() == items.len() && commas_fit(commas, strict) && toks == seq![open]
            + #[trigger] with_commas(items, commas) + seq![close] + rest
}

pub open spec fn field_spellings(fields: Seq<Field>) -> Seq<Seq<Tok>> {
    fields.map_values(|f: Field| field_spelling(f))
}

pub open spec fn variant_spellings(variants: Seq<Variant>) -> Seq<Seq<Tok>> {
    variants.map_values(|v: Variant| variant_spelling(v))
}

pub open spec fn fields_known(fields: Seq<Field>, names: Seq<Seq<char>>) -> bool {
    forall|i: int| 0 <= i < fields.len() ==> type_known(#[trigger] fields[i].t, names)
}

pub open spec fn variants_known(variants: Seq<Variant>, names: Seq<Seq<char>>) -> bool {
    forall|i: int|
        0 <= i < variants.len() ==> (#[trigger] variants[i].t matches Some(t) ==> type_known(
            t,
            names,
        ))
}

/// The structs and enums of a text made only of type declarations.
#[derive(Debug, PartialEq, Eq)]
pub struct Declarations {
    pub structs: Vec<StructDefinition>,
    pub enums: Vec<EnumDefinition>,
}

/// The tokens of a struct declared in the keyword form, with the commas
/// that `commas` gives.
pub open spec fn struct_decl(d: StructDefinition, commas: Seq<bool>) -> Seq<Tok> {
    seq![Tok::Identifier("struct"@), Tok::Identifier(d.name@), Tok::LeftBrace] + with_commas(
        field_spellings(d.fields@),
        commas,
    ) + seq![Tok::RightBrace]
}

/// The tokens of an enum declared in the keyword form, with the commas that
/// `commas` gives.
pub open spec fn enum_decl(d: EnumDefinition, commas: Seq<bool>) -> Seq<Tok> {
    seq![Tok::Identifier("enum"@), Tok::Identifier(d.name@), Tok::LeftBrace] + with_commas(
        variant_spellings(d.variants@),
        commas,
    ) + seq![Tok::RightBrace]
}

/// `toks` is exactly the structs `ss` and enums `es` declared in the keyword
/// form, interleaved as `order` says (`true` for a struct), the declaration
/// at position `k` with the commas `cs[k]`, a comma after every item but the
/// last; no type has `??`.
pub open spec fn decls_fit(
    toks: Seq<Tok>,
    order: Seq<bool>,
    ss: Seq<StructDefinition>,
    es: Seq<EnumDefinition>,
    cs: Seq<Seq<bool>>,
) -> bool
    decreases order.len(),
{
    if order.len() == 0 {
        toks.len() == 0 && ss.len() == 0 && es.len() == 0
    } else if order[0] {
        ss.len() > 0 && cs.len() > 0 && cs[0].len() == ss[0].fields@.len() && commas_fit(cs[0], true)
            && (forall|i: int| 0 <= i < ss[0].fields@.len() ==> field_ok(#[trigger] ss[0].fields@[i]))
            && begins_with(toks, struct_decl(ss[0], cs[0])) && decls_fit(
            after(toks, struct_decl(ss[0], cs[0])),
            order.drop_first(),
            ss.drop_first(),
            es,
            cs.drop_first(),
        )
    } else {
        es.len() > 0 && cs.len() > 0 && cs[0].len() == es[0].variants@.len() && commas_fit(
            cs[0],
            true,
        ) && (forall|i: int|
            0 <= i < es[0].variants@.len() ==> variant_ok(#[trigger] es[0].variants@[i]))
            && begins_with(toks, enum_decl(es[0], cs[0])) && decls_fit(
            after(toks, enum_decl(es[0], cs[0])),
            order.drop_first(),
            ss,
            es.drop_first(),
            cs.drop_first(),
        )
    }
}

/// `@a @b ...` for the annotations `a`, `b`, ..., read from the front.
pub open spec fn annotation_marks(anns: Seq<Seq<char>>) -> Seq<Tok>
    decreases anns.len(),
{
    if anns.len() == 0 {
        Seq::empty()
    } else {
        seq![Tok::At, Tok::Identifier(anns[0])] + annotation_marks(anns.drop_first())
    }
}

/// A helper struct of a schema from its `a`-th annotation on: the remaining
/// annotations, its name, and its fields between braces.
pub open spec fn struct_helper(d: StructDefinition, commas: Seq<bool>, a: int) -> Seq<Tok> {
    annotation_marks(texts(d.annotations@).subrange(a, d.annotations@.len() as int)) + seq![
        Tok::Identifier(d.name@),
        Tok::LeftBrace,
    ] + with_commas(field_spellings(d.fields@), commas) + seq![Tok::RightBrace]
}

/// A helper enum of a schema from its `a`-th annotation on: the remaining
/// annotations, its name, and its variants between parentheses.
pub open spec fn enum_helper(d: EnumDefinition, commas: Seq<bool>, a: int) -> Seq<Tok> {
    annotation_marks(texts(d.annotations@).subrange(a, d.annotations@.len() as int)) + seq![
        Tok::Identifier(d.name@),
        Tok::LeftParen,
    ] + with_commas(variant_spellings(d.variants@), commas) + seq![Tok::RightParen]
}

/// `toks` is exactly a helper section: the structs `ss` and enums `es`,
/// interleaved as `order` says (`true` for a struct), each after its
/// annotations, the one at position `k` with the commas `cs[k]`, then the
/// annotations `trailing` that no declaration follows. The first `a`
/// annotations of the first declaration (or of `trailing`) are already read.
/// No type has `??`.
pub open spec fn helpers_fit(
    toks: Seq<Tok>,
    order: Seq<bool>,
    ss: Seq<StructDefinition>,
    es: Seq<EnumDefinition>,
    cs: Seq<Seq<bool>>,
    trailing: Seq<Seq<char>>,
    a: int,
) -> bool
    decreases order.len(),
{
    if order.len() == 0 {
        ss.len() == 0 && es.len() == 0 && 0 <= a <= trailing.len() && toks == annotation_marks(
            trailing.subrange(a, trailing.len() as int),
        )
    } else if order[0] {
        ss.len() > 0 && cs.len() > 0 && 0 <= a <= ss[0].annotations@.len() && cs[0].len()
            == ss[0].fields@.len() && (forall|i: int|
            0 <= i < ss[0].fields@.len() ==> field_ok(#[trigger] ss[0].fields@[i])) && begins_with(
            toks,
            struct_helper(ss[0], cs[0], a),
        ) && helpers_fit(
            after(toks, struct_helper(ss[0], cs[0], a)),
            order.drop_first(),
            ss.drop_first(),
            es,
            cs.drop_first(),
            trailing,
            0,
        )
    } else {
        es.len() > 0 && cs.len() > 0 && 0 <= a <= es[0].annotations@.len() && cs[0].len()
            == es[0].variants@.len() && (forall|i: int|
            0 <= i < es[0].variants@.len() ==> variant_ok(#[trigger] es[0].variants@[i]))
            && begins_with(toks, enum_helper(es[0], cs[0], a)) && helpers_fit(
            after(toks, enum_helper(es[0], cs[0], a)),
            order.drop_first(),
            ss,
            es.drop_first(),
            cs.drop_first(),
            trailing,
            0,
        )
    }
}

/// The annotations that the declaration at position `k` (or, past the last
/// one, the trailing annotations) carries.
pub open spec fn current_annotations(
    o: Seq<bool>,
    ss: Seq<StructDefinition>,
    es: Seq<EnumDefinition>,
    trailing: Seq<Seq<char>>,
    k: int,
    si: int,
    ei: int,
) -> Seq<Seq<char>> {
    if k < o.len() {
        if o[k] {
            texts(ss[si].annotations@)
        } else {
            texts(es[ei].annotations@)
        }
    } else {
        trailing
    }
}

/// What the next step of reading a helper section finds, given that from
/// here on it is what `helpers_fit` describes with `a` annotations read.
pub open spec fn helper_step(
    p: Seq<Tok>,
    o: Seq<bool>,
    ss: Seq<StructDefinition>,
    es: Seq<EnumDefinition>,
    cs: Seq<Seq<bool>>,
    trailing: Seq<Seq<char>>,
    k: int,
    si: int,
    ei: int,
    a: int,
) -> bool {
    let cur = current_annotations(o, ss, es, trailing, k, si, ei);
    &&& k <= o.len() && k <= cs.len() && 0 <= a <= cur.len()
    &&& k < o.len() ==> (o[k] ==> si < ss.len()) && (!o[k] ==> ei < es.len())
    &&& k == o.len() ==> si == ss.len() && ei == es.len()
    &&& a < cur.len() ==> p.len() >= 2 && p[0] == Tok::At && p[1] == Tok::Identifier(cur[a])
        && helpers_fit(
        p.subrange(2, p.len() as int),
        o.subrange(k, o.len() as int),
        ss.subrange(si, ss.len() as int),
        es.subrange(ei, es.len() as int),
        cs.subrange(k, cs.len() as int),
        trailing,
        a + 1,
    )
    &&& a == cur.len() && k == o.len() ==> p.len() == 0
    &&& a == cur.len() && k < o.len() && o[k] ==> p.len() >= 2 && p[0] == Tok::Identifier(
        ss[si].name@,
    ) && p[1] == Tok::LeftBrace && fields_listed(
        p.subrange(1, p.len() as int),
        ss[si].fields@,
        cs[k],
        after(p, struct_helper(ss[si], cs[k], a)),
        false,
    ) && helpers_fit(
        after(p, struct_helper(ss[si], cs[k], a)),
        o.subrange(k + 1, o.len() as int),
        ss.subrange(si + 1, ss.len() as int),
        es.subrange(ei, es.len() as int),
        cs.subrange(k + 1, cs.len() as int),
        trailing,
        0,
    )
    &&& a == cur.len() && k < o.len() && !o[k] ==> p.len() >= 2 && p[0] == Tok::Identifier(
        es[ei].name@,
    ) && p[1] == Tok::LeftParen && variants_listed(
        p.subrange(1, p.len() as int),
        es[ei].variants@,
        cs[k],
        after(p, enum_helper(es[ei], cs[k], a)),
        false,
        false,
    ) && helpers_fit(
        after(p, enum_helper(es[ei], cs[k], a)),
        o.subrange(k + 1, o.len() as int),
        ss.subrange(si, ss.len() as int),
        es.subrange(ei + 1, es.len() as int),
        cs.subrange(k + 1, cs.len() as int),
        trailing,
        0,
    )
}

#[verifier::rlimit(80)]
#[verifier::spinoff_prover]
proof fn lemma_marks_front(anns: Seq<Seq<char>>, a: int)
    requires
        0 <= a < anns.len(),
    ensures
        annotation_marks(anns.subrange(a, anns.len() as int)) == seq![
            Tok::At,
            Tok::Identifier(anns[a]),
        ] + annotation_marks(anns.subrange(a + 1, anns.len() as int)),
{
    assert(anns.subrange(a, anns.len() as int).drop_first() =~= anns.subrange(
        a + 1,
        anns.len() as int,
    ));
}

#[verifier::rlimit(80)]
#[verifier::spinoff_prover]
proof fn lemma_helper_step(
    p: Seq<Tok>,
    o: Seq<bool>,
    ss: Seq<StructDefinition>,
    es: Seq<EnumDefinition>,
    cs: Seq<Seq<bool>>,
    trailing: Seq<Seq<char>>,
    k: int,
    si: int,
    ei: int,
    a: int,
)
    requires
        0 <= k <= o.len(),
        k <= cs.len(),
        0 <= si <= ss.len(),
        0 <= ei <= es.len(),
        helpers_fit(
            p,
            o.subrange(k, o.len() as int),
            ss.subrange(si, ss.len() as int),
            es.subrange(ei, es.len() as int),
            cs.subrange(k, cs.len() as int),
            trailing,
            a,
        ),
    ensures
        helper_step(p, o, ss, es, cs, trailing, k, si, ei, a),
{
    let oo = o.subrange(k, o.len() as int);
    let s2 = ss.subrange(si, ss.len() as int);
    let e2 = es.subrange(ei, es.len() as int);
    let c2 = cs.subrange(k, cs.len() as int);
    if k < o.len() {
        assert(oo[0] == o[k]);
        assert(oo.drop_first() =~= o.subrange(k + 1, o.len() as int));
        assert(c2.drop_first() =~= cs.subrange(k + 1, cs.len() as int));
        if o[k] {
            assert(s2[0] == ss[si] && c2[0] == cs[k]);
            let d = ss[si];
            let anns = texts(d.annotations@);
            assert(anns.len() == d.annotations@.len());
            assert(s2.drop_first() =~= ss.subrange(si + 1, ss.len() as int));
            let h = struct_helper(d, cs[k], a);
            assert(p.subrange(0, h.len() as int) == h);
            if a < anns.len() {
                lemma_marks_front(anns, a);
                let h1 = struct_helper(d, cs[k], a + 1);
                assert(h =~= seq![Tok::At, Tok::Identifier(anns[a])] + h1);
                assert(p[0] == h[0] && p[1] == h[1]);
                assert(p.subrange(2, p.len() as int).subrange(0, h1.len() as int) =~= p.subrange(
                    0,
                    h.len() as int,
                ).subrange(2, h.len() as int));
                assert(after(p.subrange(2, p.len() as int), h1) =~= after(p, h));
                assert(h.subrange(2, h.len() as int) =~= h1);
                assert(begins_with(p.subrange(2, p.len() as int), h1));
                assert(helpers_fit(p.subrange(2, p.len() as int), oo, s2, e2, c2, trailing, a + 1));
            } else {
                assert(anns.subrange(a, anns.len() as int).len() == 0);
                assert(annotation_marks(anns.subrange(a, anns.len() as int)) == Seq::<Tok>::empty());
                assert(p[0] == h[0] && p[1] == h[1]);
                assert(p.subrange(1, p.len() as int) =~= h.subrange(1, h.len() as int) + after(p, h));
                assert(h.subrange(1, h.len() as int) =~= seq![Tok::LeftBrace] + with_commas(
                    field_spellings(d.fields@),
                    cs[k],
                ) + seq![Tok::RightBrace]);
                assert(fields_listed(
                    p.subrange(1, p.len() as int),
                    ss[si].fields@,
                    cs[k],
                    after(p, struct_helper(ss[si], cs[k], a)),
                    false,
                ));
            }
        } else {
            assert(e2[0] == es[ei] && c2[0] == cs[k]);
            let d = es[ei];
            let anns = texts(d.annotations@);
            assert(anns.len() == d.annotations@.len());
            assert(e2.drop_first() =~= es.subrange(ei + 1, es.len() as int));
            let h = enum_helper(d, cs[k], a);
            assert(p.subrange(0, h.len() as int) == h);
            if a < anns.len() {
                lemma_marks_front(anns, a);
                let h1 = enum_helper(d, cs[k], a + 1);
                assert(h =~= seq![Tok::At, Tok::Identifier(anns[a])] + h1);
                assert(p[0] == h[0] && p[1] == h[1]);
                assert(p.subrange(2, p.len() as int).subrange(0, h1.len() as int) =~= p.subrange(
                    0,
                    h.len() as int,
                ).subrange(2, h.len() as int));
                assert(after(p.subrange(2, p.len() as int), h1) =~= after(p, h));
                assert(h.subrange(2, h.len() as int) =~= h1);
                assert(begins_with(p.subrange(2, p.len() as int), h1));
                assert(helpers_fit(p.subrange(2, p.len() as int), oo, s2, e2, c2, trailing, a + 1));
            } else {
                assert(anns.subrange(a, anns.len() as int).len() == 0);
                assert(annotation_marks(anns.subrange(a, anns.len() as int)) == Seq::<Tok>::empty());
                assert(p[0] == h[0] && p[1] == h[1]);
                assert(p.subrange(1, p.len() as int) =~= h.subrange(1, h.len() as int) + after(p, h));
                assert(h.subrange(1, h.len() as int) =~= seq![Tok::LeftParen] + with_commas(
                    variant_spellings(d.variants@),
                    cs[k],
                ) + seq![Tok::RightParen]);
                assert(variants_listed(
                    p.subrange(1, p.len() as int),
                    es[ei].variants@,
                    cs[k],
                    after(p, enum_helper(es[ei], cs[k], a)),
                    false,
                    false,
                ));
            }
        }
    } else {
        assert(s2.len() == 0 && e2.len() == 0);
        if a < trailing.len() {
            lemma_marks_front(trailing, a);
            assert(p.subrange(2, p.len() as int) =~= annotation_marks(
                trailing.subrange(a + 1, trailing.len() as int),
            ));
            assert(p[0] == Tok::At && p[1] == Tok::Identifier(trailing[a]));
            assert(helpers_fit(p.subrange(2, p.len() as int), oo, s2, e2, c2, trailing, a + 1));
        } else {
            assert(trailing.subrange(a, trailing.len() as int).len() == 0);
            assert(annotation_marks(trailing.subrange(a, trailing.len() as int)) == Seq::<Tok>::empty());
            assert(p.len() == 0);
        }
    }
}

/// The parsed structs and enums match `ss` and `es`: the same names, each
/// spelled the same.
pub open spec fn decls_alike(
    structs: Seq<StructDefinition>,
    enums: Seq<EnumDefinition>,
    ss: Seq<StructDefinition>,
    es: Seq<EnumDefinition>,
) -> bool {
    &&& structs.len() == ss.len()
    &&& enums.len() == es.len()
    &&& forall|j: int|
        0 <= j < ss.len() ==> #[trigger] structs[j].name@ == ss[j].name@ && field_spellings(
            structs[j].fields@,
        ) == field_spellings(ss[j].fields@)
    &&& forall|j: int|
        0 <= j < es.len() ==> #[trigger] enums[j].name@ == es[j].name@ && variant_spellings(
            enums[j].variants@,
        ) == variant_spellings(es[j].variants@)
}

/// What the next step of reading a keyword-form text finds, given that the
/// text from `k` on is what `decls_fit` describes.
pub open spec fn decl_step(
    p: Seq<Tok>,
    o: Seq<bool>,
    ss: Seq<StructDefinition>,
    es: Seq<EnumDefinition>,
    cs: Seq<Seq<bool>>,
    k: int,
    si: int,
    ei: int,
) -> bool {
    &&& k == o.len() ==> p.len() == 0 && si == ss.len() && ei == es.len()
    &&& k < o.len() ==> p.len() >= 3 && k < cs.len() && (o[k] ==> si < ss.len() && p[0]
        == Tok::Identifier("struct"@) && p[1] == Tok::Identifier(ss[si].name@) && fields_listed(
        p.subrange(2, p.len() as int),
        ss[si].fields@,
        cs[k],
        after(p, struct_decl(ss[si], cs[k])),
        true,
    ) && decls_fit(
        after(p, struct_decl(ss[si], cs[k])),
        o.subrange(k + 1, o.len() as int),
        ss.subrange(si + 1, ss.len() as int),
        es.subrange(ei, es.len() as int),
        cs.subrange(k + 1, cs.len() as int),
    )) && (!o[k] ==> ei < es.len() && p[0] == Tok::Identifier("enum"@) && p[1]
        == Tok::Identifier(es[ei].name@) && variants_listed(
        p.subrange(2, p.len() as int),
        es[ei].variants@,
        cs[k],
        after(p, enum_decl(es[ei], cs[k])),
        true,
        true,
    ) && decls_fit(
        after(p, enum_decl(es[ei], cs[k])),
        o.subrange(k + 1, o.len() as int),
        ss.subrange(si, ss.len() as int),
        es.subrange(ei + 1, es.len() as int),
        cs.subrange(k + 1, cs.len() as int),
    ))
}

#[verifier::rlimit(80)]
#[verifier::spinoff_prover]
proof fn lemma_decl_step(
    p: Seq<Tok>,
    o: Seq<bool>,
    ss: Seq<StructDefinition>,
    es: Seq<EnumDefinition>,
    cs: Seq<Seq<bool>>,
    k: int,
    si: int,
    ei: int,
)
    requires
        0 <= k <= o.len(),
        k <= cs.len(),
        0 <= si <= ss.len(),
        0 <= ei <= es.len(),
        decls_fit(
            p,
            o.subrange(k, o.len() as int),
            ss.subrange(si, ss.len() as int),
            es.subrange(ei, es.len() as int),
            cs.subrange(k, cs.len() as int),
        ),
    ensures
        decl_step(p, o, ss, es, cs, k, si, ei),
{
    let oo = o.subrange(k, o.len() as int);
    let s2 = ss.subrange(si, ss.len() as int);
    let e2 = es.subrange(ei, es.len() as int);
    let c2 = cs.subrange(k, cs.len() as int);
    if k < o.len() {
        assert(oo.drop_first() =~= o.subrange(k + 1, o.len() as int));
        assert(c2.drop_first() =~= cs.subrange(k + 1, cs.len() as int));
        if o[k] {
            assert(s2.drop_first() =~= ss.subrange(si + 1, ss.len() as int));
            let d = struct_decl(ss[si], cs[k]);
            assert(p.subrange(0, d.len() as int) == d);
            assert(p[0] == d[0] && p[1] == d[1]);
            assert(p.subrange(2, p.len() as int) =~= d.subrange(2, d.len() as int) + after(p, d));
            assert(d.subrange(2, d.len() as int) =~= seq![Tok::LeftBrace] + with_commas(
                field_spellings(ss[si].fields@),
                cs[k],
            ) + seq![Tok::RightBrace]);
        } else {
            assert(e2.drop_first() =~= es.subrange(ei + 1, es.len() as int));
            let d = enum_decl(es[ei], cs[k]);
            assert(p.subrange(0, d.len() as int) == d);
            assert(p[0] == d[0] && p[1] == d[1]);
            assert(p.subrange(2, p.len() as int) =~= d.subrange(2, d.len() as int) + after(p, d));
            assert(d.subrange(2, d.len() as int) =~= seq![Tok::LeftBrace] + with_commas(
                variant_spellings(es[ei].variants@),
                cs[k],
            ) + seq![Tok::RightBrace]);
        }
    }
}

/// As [`decls_alike`], with the same annotations too.
pub open spec fn helpers_alike(
    structs: Seq<StructDefinition>,
    enums: Seq<EnumDefinition>,
    ss: Seq<StructDefinition>,
    es: Seq<EnumDefinition>,
) -> bool {
    &&& decls_alike(structs, enums, ss, es)
    &&& forall|j: int|
        0 <= j < ss.len() ==> #[trigger] texts(structs[j].annotations@) == texts(
            ss[j].annotations@,
        )
    &&& forall|j: int|
        0 <= j < es.len() ==> #[trigger] texts(enums[j].annotations@) == texts(es[j].annotations@)
}

#[verifier::rlimit(80)]
#[verifier::spinoff_prover]
proof fn lemma_helpers_alike_push_struct(
    prev: Seq<StructDefinition>,
    now: Seq<StructDefinition>,
    enums: Seq<EnumDefinition>,
    ss: Seq<StructDefinition>,
    es: Seq<EnumDefinition>,
    si: int,
    ei: int,
)
    requires
        0 <= si < ss.len(),
        0 <= ei <= es.len(),
        helpers_alike(prev, enums, ss.subrange(0, si), es.subrange(0, ei)),
        now == prev.push(now.last()),
        now.last().name@ == ss[si].name@,
        field_spellings(now.last().fields@) == field_spellings(ss[si].fields@),
        texts(now.last().annotations@) == texts(ss[si].annotations@),
    ensures
        helpers_alike(now, enums, ss.subrange(0, si + 1), es.subrange(0, ei)),
{
    lemma_alike_push_struct(prev, now, enums, ss, es, si, ei);
    assert forall|j: int| 0 <= j < si + 1 implies #[trigger] texts(now[j].annotations@) == texts(
        ss.subrange(0, si + 1)[j].annotations@,
    ) by {
        if j < si {
            assert(now[j] == prev[j]);
            assert(ss.subrange(0, si)[j] == ss[j]);
            assert(texts(prev[j].annotations@) == texts(ss.subrange(0, si)[j].annotations@));
        }
    }
}

#[verifier::rlimit(80)]
#[verifier::spinoff_prover]
proof fn lemma_helpers_alike_push_enum(
    structs: Seq<StructDefinition>,
    prev: Seq<EnumDefinition>,
    now: Seq<EnumDefinition>,
    ss: Seq<StructDefinition>,
    es: Seq<EnumDefinition>,
    si: int,
    ei: int,
)
    requires
        0 <= si <= ss.len(),
        0 <= ei < es.len(),
        helpers_alike(structs, prev, ss.subrange(0, si), es.subrange(0, ei)),
        now == prev.push(now.last()),
        now.last().name@ == es[ei].name@,
        variant_spellings(now.last().variants@) == variant_spellings(es[ei].variants@),
        texts(now.last().annotations@) == texts(es[ei].annotations@),
    ensures
        helpers_alike(structs, now, ss.subrange(0, si), es.subrange(0, ei + 1)),
{
    lemma_alike_push_enum(structs, prev, now, ss, es, si, ei);
    assert forall|j: int| 0 <= j < ei + 1 implies #[trigger] texts(now[j].annotations@) == texts(
        es.subrange(0, ei + 1)[j].annotations@,
    ) by {
        if j < ei {
            assert(now[j] == prev[j]);
            assert(es.subrange(0, ei)[j] == es[j]);
            assert(texts(prev[j].annotations@) == texts(es.subrange(0, ei)[j].annotations@));
        }
    }
}

#[verifier::rlimit(80)]
#[verifier::spinoff_prover]
proof fn lemma_alike_push_struct(
    prev: Seq<StructDefinition>,
    now: Seq<StructDefinition>,
    enums: Seq<EnumDefinition>,
    ss: Seq<StructDefinition>,
    es: Seq<EnumDefinition>,
    si: int,
    ei: int,
)
    requires
        0 <= si < ss.len(),
        0 <= ei <= es.len(),
        decls_alike(prev, enums, ss.subrange(0, si), es.subrange(0, ei)),
        now == prev.push(now.last()),
        now.last().name@ == ss[si].name@,
        field_spellings(now.last().fields@) == field_spellings(ss[si].fields@),
    ensures
        decls_alike(now, enums, ss.subrange(0, si + 1), es.subrange(0, ei)),
{
    assert forall|j: int| 0 <= j < si + 1 implies #[trigger] now[j].name@ == ss.subrange(0, si + 1)[j].name@
        && field_spellings(now[j].fields@) == field_spellings(ss.subrange(0, si + 1)[j].fields@) by {
        if j < si {
            assert(now[j] == prev[j]);
            assert(ss.subrange(0, si)[j] == ss[j]);
        }
    }
}

#[verifier::rlimit(80)]
#[verifier::spinoff_prover]
proof fn lemma_alike_push_enum(
    structs: Seq<StructDefinition>,
    prev: Seq<EnumDefinition>,
    now: Seq<EnumDefinition>,
    ss: Seq<StructDefinition>,
    es: Seq<EnumDefinition>,
    si: int,
    ei: int,
)
    requires
        0 <= si <= ss.len(),
        0 <= ei < es.len(),
        decls_alike(structs, prev, ss.subrange(0, si), es.subrange(0, ei)),
        now == prev.push(now.last()),
        now.last().name@ == es[ei].name@,
        variant_spellings(now.last().variants@) == variant_spellings(es[ei].variants@),
    ensures
        decls_alike(structs, now, ss.subrange(0, si), es.subrange(0, ei + 1)),
{
    assert forall|j: int| 0 <= j < ei + 1 implies #[trigger] now[j].name@ == es.subrange(0, ei + 1)[j].name@
        && variant_spellings(now[j].variants@) == variant_spellings(es.subrange(0, ei + 1)[j].variants@) by {
        if j < ei {
            assert(now[j] == prev[j]);
            assert(es.subrange(0, ei)[j] == es[j]);
        }
    }
}

/// `toks` is the declarations, one after another, each in the keyword form.
pub open spec fn declarations_spelled(toks: Seq<Tok>, d: Declarations) -> bool {
    exists|order: Seq<bool>| #[trigger] helpers_spelled(toks, order, d.structs@, d.enums@, true)
}

/// Every name that the declarations refer to is declared among them.
pub open spec fn declarations_known(d: Declarations) -> bool {
    let names = declared(d.structs@, d.enums@);
    &&& forall|i: int| 0 <= i < d.structs@.len() ==> fields_known(#[trigger] d.structs@[i].fields@, names)
    &&& forall|i: int| 0 <= i < d.enums@.len() ==> variants_known(#[trigger] d.enums@[i].variants@, names)
}

/// Reads schema text into a [`FileNode`].
pub struct Parser {
    lexer: Lexer,
}

impl Parser {
    pub closed spec fn wf(&self) -> bool {
        self.lexer.wf()
    }

    /// The bytes of the schema.
    pub closed spec fn source(&self) -> Seq<u8> {
        self.lexer.source()
    }

    /// A parser for `file`.
    pub fn new(file: &str) -> (r: Self)
        ensures
            r.wf(),
            r.source() == file.spec_bytes(),
    {
        Parser { lexer: Lexer::new(file) }
    }

    spec fn keeps(&self, other: &Parser) -> bool {
        &&& other.wf()
        &&& other.lexer.source() == self.lexer.source()
        &&& (self.lexer.clean() ==> other.lexer.clean())
    }

    fn next(&mut self) -> (r: Result<Option<Token>, Error>)
        requires
            old(self).wf(),
        ensures
            old(self).keeps(final(self)),
            r matches Ok(Some(t)) ==> old(self).lexer.pending() == seq![t.kind@] + final(self).lexer.pending(),
            r matches Ok(None) ==> old(self).lexer.pending().len() == 0 && final(self).lexer.pending().len() == 0,
            r is Err ==> old(self).lexer.pending().len() == 0,
            old(self).lexer.clean() ==> r is Ok && final(self).lexer.clean(),
            old(self).lexer.peeked() matches Some(t) ==> r == Ok::<Option<Token>, Error>(Some(t)),
    {
        match self.lexer.next_tok() {
            Ok(t) => Ok(t),
            Err(e) => Err(Error::FromLexer(e)),
        }
    }

    fn peek(&mut self) -> (r: Result<Option<Token>, Error>)
        requires
            old(self).wf(),
        ensures
            old(self).keeps(final(self)),
            r is Ok ==> final(self).lexer.pending() == old(self).lexer.pending(),
            r matches Ok(Some(t)) ==> final(self).lexer.peeked() == Some(t) && old(self).lexer.pending().len() > 0 && old(self).lexer.pending()[0] == t.kind@,
            r matches Ok(None) ==> old(self).lexer.pending().len() == 0,
            r is Err ==> old(self).lexer.pending().len() == 0,
            old(self).lexer.clean() ==> r is Ok,
    {
        match self.lexer.peek_tok() {
            Ok(t) => Ok(t),
            Err(e) => Err(Error::FromLexer(e)),
        }
    }

    /// Consumes the token that [`Parser::peek`] returned.
    fn advance(&mut self)
        requires
            old(self).wf(),
            old(self).lexer.peeked() is Some,
        ensures
            old(self).keeps(final(self)),
            old(self).lexer.pending() == seq![old(self).lexer.peeked()->0.kind@] + final(self).lexer.pending(),
    {
        let _ = self.next();
    }

    /// Consumes a token of the given kind.
    fn expect_token(&mut self, kind: &TokenKind) -> (r: Result<(), Error>)
        requires
            old(self).wf(),
        ensures
            old(self).keeps(final(self)),
            r is Ok <==> old(self).lexer.pending().len() > 0 && old(self).lexer.pending()[0]
                == kind@,
            r is Ok ==> old(self).lexer.pending() == seq![kind@] + final(self).lexer.pending(),
            old(self).lexer.pending().len() > 0 && old(self).lexer.pending()[0] != kind@ ==> (
            r matches Err(Error::WrongToken { expected, got }) && expected@ == kind@ && got@ == old(self).lexer.pending()[0]),
            old(self).lexer.pending().len() == 0 && old(self).lexer.clean() ==> (r matches Err(
                Error::WrongToken { expected, got },
            ) && expected@ == kind@ && got@ == Tok::Eof),
    {
        match self.next()? {
            Some(token) => {
                if token.kind.same_as(kind) {
                    Ok(())
                } else {
                    Err(Error::WrongToken { expected: kind.duplicate(), got: token.kind })
                }
            },
            None => Err(Error::WrongToken { expected: kind.duplicate(), got: TokenKind::Eof }),
        }
    }

    /// Consumes an identifier and returns its text.
    fn expect_identifier(&mut self) -> (r: Result<String, Error>)
        requires
            old(self).wf(),
        ensures
            old(self).keeps(final(self)),
            r is Ok <==> old(self).lexer.pending().len() > 0 && old(self).lexer.pending()[0] is Identifier,
            r matches Ok(n) ==> old(self).lexer.pending() == seq![Tok::Identifier(n@)] + final(self).lexer.pending(),
    {
        match self.next()? {
            Some(Token { kind: TokenKind::Identifier(name), index: _ }) => Ok(name),
            Some(tok) => Err(Error::Expected { expected: "an identifier", got: tok.kind }),
            None => Err(Error::Expected { expected: "an identifier", got: TokenKind::Eof }),
        }
    }

    /// Consumes a string literal and returns its text.
    fn expect_string_literal(&mut self) -> (r: Result<String, Error>)
        requires
            old(self).wf(),
        ensures
            old(self).keeps(final(self)),
            r is Ok <==> old(self).lexer.pending().len() > 0 && old(self).lexer.pending()[0] is StringLiteral,
            r matches Ok(s) ==> old(self).lexer.pending() == seq![Tok::StringLiteral(s@)] + final(self).lexer.pending(),
    {
        match self.next()? {
            Some(Token { kind: TokenKind::StringLiteral(value), index: _ }) => Ok(value),
            Some(tok) => Err(Error::Expected { expected: "a string literal", got: tok.kind }),
            None => Err(Error::Expected { expected: "a string literal", got: TokenKind::Eof }),
        }
    }

    fn unsupported(kind: &TokenKind) -> (r: Error)
        ensures
            r == Error::Message(r->Message_0) && r->Message_0@ == unsupported_message(kind@),
    {
        let mut m = owned("Only top-level structs and enums are supported, got ");
        append(&mut m, kind.describe().as_str());
        Error::Message(m)
    }

    fn undefined(name: &String) -> (r: Error)
        ensures
            r == Error::Message(r->Message_0) && r->Message_0@ == undefined_message(name@),
    {
        let mut m = owned("Reference to undefined type: ");
        append(&mut m, name.as_str());
        Error::Message(m)
    }

    /// Parses a type: a primitive, a known name, `[T]`, or any of these
    /// followed by `?`.
    #[verifier::rlimit(50)]
    #[verifier::spinoff_prover]
    fn parse_type(&mut self) -> (r: Result<Type, Error>)
        requires
            old(self).wf(),
        ensures
            old(self).keeps(final(self)),
            r matches Ok(t) ==> old(self).lexer.pending() == type_spelling(t) + final(self).lexer.pending(),
            forall|t: Type|
                canonical(t) && #[trigger] begins_with_type(old(self).lexer.pending(), t)
                    && may_follow_type(after_type(old(self).lexer.pending(), t), old(self).lexer.clean())
                    ==> r is Ok && final(self).lexer.pending() == after_type(old(self).lexer.pending(), t),
        decreases old(self).lexer.pending().len(), 1nat,
    {
        let ghost p0 = self.lexer.pending();
        proof {
            assert forall|t: Type| canonical(t) && #[trigger] begins_with_type(p0, t) implies p0.len()
                > 0 && starts_type(p0[0]) && canonical(base_type(t)) && begins_with_type(
                p0,
                base_type(t),
            ) && (p0[0] is Identifier ==> base_type(t) is Named) && (p0[0] == Tok::LeftBracket ==> base_type(t) is Array)
                && (!(p0[0] is Identifier) && p0[0] != Tok::LeftBracket ==> base_type(t) is Primitive)
                by {
                lemma_spelling_starts(t);
                lemma_begins_base(p0, t);
                assert(p0[0] == p0.subrange(0, type_spelling(t).len() as int)[0]);
            }
        }
        let first = match self.peek()? {
            Some(t) => t,
            None => {
                return Err(Error::Expected { expected: "a type", got: TokenKind::Eof });
            },
        };
        let inner = match first.kind {
            TokenKind::Identifier(name) => {
                self.advance();
                assert(type_spelling(Type::Named(name)) == seq![Tok::Identifier(name@)]);
                Type::Named(name)
            },
            TokenKind::Int => {
                self.advance();
                Type::Primitive(Primitive::Int)
            },
            TokenKind::Float => {
                self.advance();
                Type::Primitive(Primitive::Float)
            },
            TokenKind::String => {
                self.advance();
                Type::Primitive(Primitive::String)
            },
            TokenKind::Bool => {
                self.advance();
                Type::Primitive(Primitive::Bool)
            },
            TokenKind::Date => {
                self.advance();
                Type::Primitive(Primitive::Date)
            },
            TokenKind::Uuid => {
                self.advance();
                Type::Primitive(Primitive::Uuid)
            },
            TokenKind::LeftBracket => self.parse_array()?,
            other => {
                return Err(Error::Expected { expected: "a type", got: other });
            },
        };
        let ghost mid = self.lexer.pending();
        assert(old(self).lexer.pending() =~= type_spelling(inner) + mid);
        proof {
            assert forall|t: Type| canonical(t) && #[trigger] begins_with_type(p0, t) implies mid
                == after_type(p0, base_type(t)) by {
                lemma_begins_base(p0, t);
                lemma_spelling_starts(t);
                let b = base_type(t);
                if !(b is Array) {
                    assert(type_spelling(b).len() == 1);
                    assert(mid =~= p0.drop_first());
                }
            }
        }
        let is_optional = match self.peek()? {
            Some(t) => match t.kind {
                TokenKind::QuestionMark => true,
                _ => false,
            },
            None => false,
        };
        if is_optional {
            self.advance();
            let t = Type::Optional(Box::new(inner));
            assert(old(self).lexer.pending() =~= type_spelling(t) + self.lexer.pending());
            proof {
                assert forall|u: Type|
                    canonical(u) && #[trigger] begins_with_type(p0, u) && may_follow_type(
                        after_type(p0, u),
                        old(self).lexer.clean(),
                    ) implies self.lexer.pending() == after_type(p0, u) by {
                    lemma_begins_base(p0, u);
                    assert(self.lexer.pending() =~= mid.drop_first());
                }
            }
            Ok(t)
        } else {
            proof {
                assert forall|u: Type|
                    canonical(u) && #[trigger] begins_with_type(p0, u) && may_follow_type(
                        after_type(p0, u),
                        old(self).lexer.clean(),
                    ) implies self.lexer.pending() == after_type(p0, u) by {
                    lemma_begins_base(p0, u);
                }
            }
            Ok(inner)
        }
    }

    /// Parses `[T]`.
    #[verifier::rlimit(50)]
    #[verifier::spinoff_prover]
    fn parse_array(&mut self) -> (r: Result<Type, Error>)
        requires
            old(self).wf(),
        ensures
            old(self).keeps(final(self)),
            r matches Ok(t) ==> old(self).lexer.pending() == type_spelling(t) + final(self).lexer.pending(),
            forall|t: Type|
                canonical(t) && t is Array && #[trigger] begins_with_type(old(self).lexer.pending(), t)
                    ==> r is Ok && final(self).lexer.pending() == after_type(old(self).lexer.pending(), t),
        decreases old(self).lexer.pending().len(), 0nat,
    {
        let ghost p0 = self.lexer.pending();
        proof {
            assert forall|t: Type|
                canonical(t) && t is Array && #[trigger] begins_with_type(p0, t) implies p0.len() > 0
                && p0[0] == Tok::LeftBracket by {
                lemma_begins_array(p0, t);
            }
        }
        self.expect_token(&TokenKind::LeftBracket)?;
        let ghost p1 = self.lexer.pending();
        proof {
            assert forall|t: Type|
                canonical(t) && t is Array && #[trigger] begins_with_type(p0, t) implies canonical(
                *t->Array_0,
            ) && begins_with_type(p1, *t->Array_0) && may_follow_type(
                after_type(p1, *t->Array_0),
                self.lexer.clean(),
            ) && after_type(p1, *t->Array_0) == seq![Tok::RightBracket] + after_type(p0, t) by {
                lemma_begins_array(p0, t);
                assert(p1 =~= p0.drop_first());
            }
        }
        let inner = self.parse_type()?;
        let ghost p2 = self.lexer.pending();
        self.expect_token(&TokenKind::RightBracket)?;
        proof {
            assert forall|t: Type|
                canonical(t) && t is Array && #[trigger] begins_with_type(p0, t) implies self.lexer.pending()
                == after_type(p0, t) by {
                assert(p2 == seq![Tok::RightBracket] + after_type(p0, t));
                assert(self.lexer.pending() =~= p2.drop_first());
            }
        }
        let t = Type::Array(Box::new(inner));
        assert(old(self).lexer.pending() =~= type_spelling(t) + self.lexer.pending());
        Ok(t)
    }

    /// Parses `name: T`.
    #[verifier::rlimit(50)]
    #[verifier::spinoff_prover]
    fn parse_struct_field(&mut self) -> (r: Result<Field, Error>)
        requires
            old(self).wf(),
        ensures
            old(self).keeps(final(self)),
            r matches Ok(f) ==> old(self).lexer.pending() == field_spelling(f) + final(self).lexer.pending(),
            forall|f: Field|
                field_ok(f) && #[trigger] begins_with(old(self).lexer.pending(), field_spelling(f))
                    && may_follow_type(
                    after(old(self).lexer.pending(), field_spelling(f)),
                    old(self).lexer.clean(),
                ) ==> r is Ok && final(self).lexer.pending() == after(
                    old(self).lexer.pending(),
                    field_spelling(f),
                ),
    {
        let ghost p0 = self.lexer.pending();
        proof {
            assert forall|f: Field|
                field_ok(f) && #[trigger] begins_with(p0, field_spelling(f)) implies p0.len() > 0
                && p0[0] is Identifier by {
                assert(p0.subrange(0, field_spelling(f).len() as int)[0] == p0[0]);
            }
        }
        let name = self.expect_identifier()?;
        let ghost p1 = self.lexer.pending();
        proof {
            assert forall|f: Field|
                field_ok(f) && #[trigger] begins_with(p0, field_spelling(f)) implies p1.len() > 0
                && p1[0] == Tok::Colon by {
                assert(p0.subrange(0, field_spelling(f).len() as int)[1] == p0[1]);
            }
        }
        self.expect_token(&TokenKind::Colon)?;
        let ghost p2 = self.lexer.pending();
        proof {
            assert forall|f: Field|
                field_ok(f) && #[trigger] begins_with(p0, field_spelling(f)) implies begins_with_type(
                p2,
                f.t,
            ) && after_type(p2, f.t) == after(p0, field_spelling(f)) by {
                let n = type_spelling(f.t).len() as int;
                assert(p2 =~= p0.subrange(2, p0.len() as int));
                assert(p2.subrange(0, n) =~= p0.subrange(0, n + 2).subrange(2, n + 2));
                assert(type_spelling(f.t) =~= field_spelling(f).subrange(2, n + 2));
                assert(after_type(p2, f.t) =~= after(p0, field_spelling(f)));
            }
        }
        let t = self.parse_type()?;
        let f = Field { name, t };
        assert(old(self).lexer.pending() =~= field_spelling(f) + self.lexer.pending());
        Ok(f)
    }

    /// Parses `name` or `name(T)`.
    #[verifier::rlimit(50)]
    #[verifier::spinoff_prover]
    fn parse_enum_variant(&mut self) -> (r: Result<Variant, Error>)
        requires
            old(self).wf(),
        ensures
            old(self).keeps(final(self)),
            r matches Ok(v) ==> old(self).lexer.pending() == variant_spelling(v) + final(self).lexer.pending(),
            forall|v: Variant|
                variant_ok(v) && #[trigger] begins_with(old(self).lexer.pending(), variant_spelling(v))
                    && may_follow_variant(after(old(self).lexer.pending(), variant_spelling(v)), v)
                    ==> r is Ok && final(self).lexer.pending() == after(
                    old(self).lexer.pending(),
                    variant_spelling(v),
                ),
    {
        let ghost p0 = self.lexer.pending();
        proof {
            assert forall|v: Variant|
                variant_ok(v) && #[trigger] begins_with(p0, variant_spelling(v)) implies p0.len() > 0
                && p0[0] is Identifier by {
                assert(p0.subrange(0, variant_spelling(v).len() as int)[0] == p0[0]);
            }
        }
        let name = self.expect_identifier()?;
        let ghost p1 = self.lexer.pending();
        proof {
            assert forall|v: Variant|
                variant_ok(v) && #[trigger] begins_with(p0, variant_spelling(v)) && may_follow_variant(
                    after(p0, variant_spelling(v)),
                    v,
                ) implies p1.len() > 0 && (v.t is Some <==> p1[0] == Tok::LeftParen) && (v.t is None
                ==> p1 == after(p0, variant_spelling(v))) && (v.t matches Some(t) ==> (
            begins_with_type(p1.drop_first(), t) && after_type(p1.drop_first(), t) == seq![
                Tok::RightParen,
            ] + after(p0, variant_spelling(v)))) by {
                let sp = variant_spelling(v);
                assert(p1 =~= p0.drop_first());
                match v.t {
                    Some(t) => {
                        let n = type_spelling(t).len() as int;
                        assert(p0.subrange(0, sp.len() as int)[1] == p0[1]);
                        assert(p1.drop_first().subrange(0, n) =~= p0.subrange(0, sp.len() as int).subrange(2, n + 2));
                        assert(type_spelling(t) =~= sp.subrange(2, n + 2));
                        assert(p0.subrange(0, sp.len() as int)[n + 2] == p0[n + 2]);
                        assert(after_type(p1.drop_first(), t) =~= seq![Tok::RightParen] + after(p0, sp));
                    },
                    None => {
                        assert(after(p0, sp) =~= p1);
                    },
                }
            }
        }
        let next = match self.peek()? {
            Some(t) => t,
            None => {
                return Err(Error::UnexpectedEOF);
            },
        };
        let t = match next.kind {
            TokenKind::LeftParen => {
                self.advance();
                let ghost p2 = self.lexer.pending();
                proof {
                    assert(p2 =~= p1.drop_first());
                }
                let t = self.parse_type()?;
                let ghost p3 = self.lexer.pending();
                self.expect_token(&TokenKind::RightParen)?;
                proof {
                    assert forall|v: Variant|
                        variant_ok(v) && #[trigger] begins_with(p0, variant_spelling(v))
                            && may_follow_variant(after(p0, variant_spelling(v)), v) implies self.lexer.pending()
                        == after(p0, variant_spelling(v)) by {
                        let u = v.t->Some_0;
                        assert(begins_with_type(p2, u));
                        assert(p3 == after_type(p2, u));
                        assert(self.lexer.pending() =~= p3.drop_first());
                    }
                }
                Some(t)
            },
            _ => None,
        };
        let v = Variant { name, t };
        assert(old(self).lexer.pending() =~= variant_spelling(v) + self.lexer.pending());
        Ok(v)
    }

    /// Parses `{ field, ... }` into a struct of the given name. A comma may
    /// follow each field; where `strict` holds, one must follow every field
    /// but the last.
    #[verifier::rlimit(30)]
    #[verifier::spinoff_prover]
    fn parse_struct_definition(
        &mut self,
        name: String,
        annotations: Vec<String>,
        strict: bool,
    ) -> (r: Result<StructDefinition, Error>)
        requires
            old(self).wf(),
        ensures
            old(self).keeps(final(self)),
            r matches Ok(d) ==> d.name == name,
            r matches Ok(d) ==> d.annotations == annotations,
            r is Ok ==> final(self).lexer.pending().len() < old(self).lexer.pending().len(),
            r matches Ok(d) ==> spells_list(
                old(self).lexer.pending(),
                Tok::LeftBrace,
                field_spellings(d.fields@),
                Tok::RightBrace,
                final(self).lexer.pending(),
                strict,
            ),
            forall|fields: Seq<Field>, commas: Seq<bool>, rest: Seq<Tok>|
                #[trigger] fields_listed(old(self).lexer.pending(), fields, commas, rest, strict) ==> (
                r matches Ok(d) && field_spellings(d.fields@) == field_spellings(fields) && final(self).lexer.pending() == rest),
            forall|fields: Seq<Field>, commas: Seq<bool>, rest: Seq<Tok>, j: int|
                #[trigger] comma_missing(old(self).lexer.pending(), fields, commas, rest, j) && strict
                    ==> (r matches Err(Error::WrongToken { expected, got }) && expected@ == Tok::Comma
                    && got@ == Tok::Identifier(fields[j + 1].name@)),
    {
        let ghost start = old(self).lexer.pending();
        proof {
            assert forall|fs: Seq<Field>, cs: Seq<bool>, rest: Seq<Tok>|
                #[trigger] fields_listed(start, fs, cs, rest, strict) implies start.len() > 0
                && start[0] == Tok::LeftBrace && start.drop_first() == list_tail(
                field_spellings(fs),
                cs,
                0,
            ) + seq![Tok::RightBrace] + rest by {
                assert(field_spellings(fs).subrange(0, fs.len() as int) =~= field_spellings(fs));
                assert(cs.subrange(0, cs.len() as int) =~= cs);
                assert(start.drop_first() =~= list_tail(field_spellings(fs), cs, 0) + seq![
                    Tok::RightBrace,
                ] + rest);
            }
        }
        proof {
            assert forall|fs: Seq<Field>, cs: Seq<bool>, rest: Seq<Tok>, j: int|
                #[trigger] comma_missing(start, fs, cs, rest, j) && strict implies start.len() > 0
                && start[0] == Tok::LeftBrace && start.drop_first() == list_tail(
                field_spellings(fs),
                cs,
                0,
            ) + seq![Tok::RightBrace] + rest by {
                assert(field_spellings(fs).subrange(0, fs.len() as int) =~= field_spellings(fs));
                assert(cs.subrange(0, cs.len() as int) =~= cs);
                assert(start.drop_first() =~= list_tail(field_spellings(fs), cs, 0) + seq![
                    Tok::RightBrace,
                ] + rest);
            }
        }
        self.expect_token(&TokenKind::LeftBrace)?;
        let mut fields: Vec<Field> = Vec::new();
        let ghost mut commas: Seq<bool> = Seq::empty();
        proof {
            assert(self.lexer.pending() =~= start.drop_first());
            assert forall|fs: Seq<Field>, cs: Seq<bool>, rest: Seq<Tok>|
                #[trigger] fields_listed(start, fs, cs, rest, strict) implies field_spellings(fields@)
                =~= field_spellings(fs).subrange(0, 0) by {}
        }
        loop
            invariant
                old(self).keeps(self),
                start == old(self).lexer.pending(),
                start == seq![Tok::LeftBrace] + with_commas(field_spellings(fields@), commas)
                    + self.lexer.pending(),
                commas.len() == fields@.len(),
                commas_fit(commas, strict),
                strict && fields@.len() > 0 && !commas.last() ==> self.lexer.pending().len() > 0
                    && self.lexer.pending()[0] == Tok::RightBrace,
                forall|fs: Seq<Field>, cs: Seq<bool>, rest: Seq<Tok>|
                    #[trigger] fields_listed(start, fs, cs, rest, strict) ==> fields@.len()
                        <= fs.len() && field_spellings(fields@) == field_spellings(fs).subrange(
                        0,
                        fields@.len() as int,
                    ) && self.lexer.pending() == list_tail(
                        field_spellings(fs),
                        cs,
                        fields@.len() as int,
                    ) + seq![Tok::RightBrace] + rest,
                forall|fs: Seq<Field>, cs: Seq<bool>, rest: Seq<Tok>, j: int|
                    #[trigger] comma_missing(start, fs, cs, rest, j) && strict ==> fields@.len() <= j
                        && field_spellings(fields@) == field_spellings(fs).subrange(
                        0,
                        fields@.len() as int,
                    ) && self.lexer.pending() == list_tail(
                        field_spellings(fs),
                        cs,
                        fields@.len() as int,
                    ) + seq![Tok::RightBrace] + rest,
            ensures
                self.lexer.pending().len() == 0 || self.lexer.pending()[0] == Tok::RightBrace,
            decreases self.lexer.pending().len(),
        {
            let ghost i = fields@.len() as int;
            let ghost p = self.lexer.pending();
            proof {
                assert forall|fs: Seq<Field>, cs: Seq<bool>, rest: Seq<Tok>|
                    #[trigger] fields_listed(start, fs, cs, rest, strict) implies p.len() > 0 && (i
                    < fs.len() ==> begins_with(p, field_spelling(fs[i])) && p[0] is Identifier
                    && after(p, field_spelling(fs[i])) == comma_after(cs[i]) + list_tail(
                    field_spellings(fs),
                    cs,
                    i + 1,
                ) + seq![Tok::RightBrace] + rest && may_follow_type(
                    after(p, field_spelling(fs[i])),
                    self.lexer.clean(),
                )) && (i == fs.len() ==> p[0] == Tok::RightBrace) by {
                    let items = field_spellings(fs);
                    if i < fs.len() {
                        assert(items[i] == field_spelling(fs[i]));
                        lemma_list_step(p, items, cs, i, Tok::RightBrace, rest, strict);
                        assert(p.subrange(0, items[i].len() as int)[0] == p[0]);
                    } else {
                        assert(items.subrange(i, items.len() as int).len() == 0);
                        assert(list_tail(items, cs, i) == Seq::<Tok>::empty());
                        assert(p =~= seq![Tok::RightBrace] + rest);
                    }
                }
            }
            proof {
                assert forall|fs: Seq<Field>, cs: Seq<bool>, rest: Seq<Tok>, j: int|
                    #[trigger] comma_missing(start, fs, cs, rest, j) && strict implies p.len() > 0
                    && i < fs.len() && begins_with(p, field_spelling(fs[i])) && p[0] is Identifier
                    && may_follow_type(after(p, field_spelling(fs[i])), self.lexer.clean()) by {
                    let items = field_spellings(fs);
                    assert(items[i] == field_spelling(fs[i]));
                    lemma_list_step(p, items, cs, i, Tok::RightBrace, rest, false);
                    assert(p.subrange(0, items[i].len() as int)[0] == p[0]);
                }
            }
            let tok = match self.peek()? {
                Some(t) => t,
                None => {
                    break ;
                },
            };
            match tok.kind {
                TokenKind::RightBrace => {
                    break ;
                },
                TokenKind::Identifier(_) => {
                    let ghost prev = fields@;
                    let ghost prev_commas = commas;
                    let field = self.parse_struct_field()?;
                    let ghost p1 = self.lexer.pending();
                    fields.push(field);
                    proof {
                        commas = prev_commas.push(false);
                        assert(field_spellings(fields@) =~= field_spellings(prev).push(
                            field_spelling(fields@.last()),
                        ));
                        lemma_with_commas_push(
                            field_spellings(prev),
                            prev_commas,
                            field_spelling(fields@.last()),
                            false,
                        );
                        assert(start =~= seq![Tok::LeftBrace] + with_commas(
                            field_spellings(fields@),
                            commas,
                        ) + self.lexer.pending());
                        assert forall|fs: Seq<Field>, cs: Seq<bool>, rest: Seq<Tok>|
                            #[trigger] fields_listed(start, fs, cs, rest, strict) implies i < fs.len()
                            && field_spellings(fields@) == field_spellings(fs).subrange(0, i + 1)
                            && p1 == after(p, field_spelling(fs[i])) by {
                            let sp = field_spelling(fs[i]);
                            let got = field_spelling(fields@.last());
                            assert(p == got + p1);
                            assert(p1 == after(p, sp));
                            assert(got.len() == sp.len());
                            assert(got =~= p.subrange(0, sp.len() as int));
                            assert(field_spellings(fields@) =~= field_spellings(fs).subrange(
                                0,
                                i + 1,
                            ));
                        }
                    }
                    proof {
                        assert forall|fs: Seq<Field>, cs: Seq<bool>, rest: Seq<Tok>, j: int|
                            #[trigger] comma_missing(start, fs, cs, rest, j) && strict implies p1
                            == after(p, field_spelling(fs[i])) && field_spellings(fields@)
                            == field_spellings(fs).subrange(0, i + 1) && p1.len() > 0 && (i < j
                            ==> p1[0] == Tok::Comma) && (i == j ==> p1[0] == Tok::Identifier(
                            fs[j + 1].name@,
                        )) by {
                            let sp = field_spelling(fs[i]);
                            let got = field_spelling(fields@.last());
                            assert(p == got + p1);
                            assert(got.len() == sp.len());
                            assert(got =~= p.subrange(0, sp.len() as int));
                            assert(field_spellings(fields@) =~= field_spellings(fs).subrange(
                                0,
                                i + 1,
                            ));
                            lemma_list_step(
                                p,
                                field_spellings(fs),
                                cs,
                                i,
                                Tok::RightBrace,
                                rest,
                                false,
                            );
                            assert(field_spellings(fs)[i] == sp);
                            if i == j {
                                assert(field_spellings(fs)[j + 1] == field_spelling(fs[j + 1]));
                            }
                        }
                    }
                    let next = match self.peek()? {
                        Some(t) => t,
                        None => {
                            return Err(Error::UnexpectedEOF);
                        },
                    };
                    let ghost took = false;
                    match next.kind {
                        TokenKind::Comma => {
                            self.advance();
                            proof {
                                took = true;
                                commas = prev_commas.push(true);
                                lemma_with_commas_push(
                                    field_spellings(prev),
                                    prev_commas,
                                    field_spelling(fields@.last()),
                                    true,
                                );
                                assert(start =~= seq![Tok::LeftBrace] + with_commas(
                                    field_spellings(fields@),
                                    commas,
                                ) + self.lexer.pending());
                                assert(self.lexer.pending() =~= p1.drop_first());
                            }
                        },
                        TokenKind::RightBrace => {},
                        other => {
                            if strict {
                                return Err(
                                    Error::WrongToken { expected: TokenKind::Comma, got: other },
                                );
                            }
                        },
                    }
                    proof {
                        assert(took ==> p1.len() > 0 && p1[0] == Tok::Comma && self.lexer.pending()
                            == p1.drop_first());
                        assert(!took ==> p1.len() > 0 && p1[0] != Tok::Comma && self.lexer.pending()
                            == p1);
                        assert forall|fs: Seq<Field>, cs: Seq<bool>, rest: Seq<Tok>|
                            #[trigger] fields_listed(start, fs, cs, rest, strict) implies self.lexer.pending()
                            == list_tail(field_spellings(fs), cs, i + 1) + seq![Tok::RightBrace]
                            + rest by {
                            lemma_list_step(
                                p,
                                field_spellings(fs),
                                cs,
                                i,
                                Tok::RightBrace,
                                rest,
                                strict,
                            );
                            assert(field_spellings(fs)[i] == field_spelling(fs[i]));
                        }
                        assert forall|fs: Seq<Field>, cs: Seq<bool>, rest: Seq<Tok>, j: int|
                            #[trigger] comma_missing(start, fs, cs, rest, j) && strict implies i + 1 <= j
                            && self.lexer.pending() == list_tail(field_spellings(fs), cs, i + 1)
                            + seq![Tok::RightBrace] + rest by {
                            lemma_list_step(
                                p,
                                field_spellings(fs),
                                cs,
                                i,
                                Tok::RightBrace,
                                rest,
                                false,
                            );
                            assert(field_spellings(fs)[i] == field_spelling(fs[i]));
                        }
                    }
                },
                other => {
                    return Err(Error::Expected { expected: "an identifier", got: other });
                },
            }
        }
        proof {
            assert forall|fs: Seq<Field>, cs: Seq<bool>, rest: Seq<Tok>|
                #[trigger] fields_listed(start, fs, cs, rest, strict) implies fields@.len() == fs.len()
                && self.lexer.pending() == seq![Tok::RightBrace] + rest && field_spellings(fields@)
                == field_spellings(fs) by {
                let items = field_spellings(fs);
                let i = fields@.len() as int;
                if i < fs.len() {
                    lemma_list_step(self.lexer.pending(), items, cs, i, Tok::RightBrace, rest, strict);
                    assert(self.lexer.pending().subrange(0, items[i].len() as int)[0]
                        == self.lexer.pending()[0]);
                    assert(items[i] == field_spelling(fs[i]));
                }
                assert(items.subrange(i, items.len() as int).len() == 0);
                assert(list_tail(items, cs, i) == Seq::<Tok>::empty());
                assert(self.lexer.pending() =~= seq![Tok::RightBrace] + rest);
                assert(items.subrange(0, i) =~= items);
            }
        }
        proof {
            assert forall|fs: Seq<Field>, cs: Seq<bool>, rest: Seq<Tok>, j: int|
                #[trigger] comma_missing(start, fs, cs, rest, j) && strict implies false by {
                let items = field_spellings(fs);
                let i = fields@.len() as int;
                lemma_list_step(self.lexer.pending(), items, cs, i, Tok::RightBrace, rest, false);
                assert(self.lexer.pending().subrange(0, items[i].len() as int)[0]
                    == self.lexer.pending()[0]);
                assert(items[i] == field_spelling(fs[i]));
            }
        }
        let ghost q = self.lexer.pending();
        self.expect_token(&TokenKind::RightBrace)?;
        let d = StructDefinition { name, fields, annotations };
        assert(old(self).lexer.pending() =~= seq![Tok::LeftBrace] + with_commas(
            field_spellings(d.fields@),
            commas,
        ) + seq![Tok::RightBrace] + self.lexer.pending());
        proof {
            assert forall|fs: Seq<Field>, cs: Seq<bool>, rest: Seq<Tok>|
                #[trigger] fields_listed(start, fs, cs, rest, strict) implies self.lexer.pending()
                == rest by {
                assert(self.lexer.pending() =~= q.drop_first());
            }
        }
        Ok(d)
    }

    /// Parses `( variant, ... )`, or `{ variant, ... }` where `braced` holds,
    /// into an enum of the given name. Commas are as for a struct.
    #[verifier::rlimit(100)]
    #[verifier::spinoff_prover]
    fn parse_enum_definition(
        &mut self,
        name: String,
        annotations: Vec<String>,
        braced: bool,
        strict: bool,
    ) -> (r: Result<EnumDefinition, Error>)
        requires
            old(self).wf(),
        ensures
            old(self).keeps(final(self)),
            r matches Ok(d) ==> d.name == name,
            r matches Ok(d) ==> d.annotations == annotations,
            r is Ok ==> final(self).lexer.pending().len() < old(self).lexer.pending().len(),
            r matches Ok(d) ==> spells_list(
                old(self).lexer.pending(),
                opener(braced),
                variant_spellings(d.variants@),
                closer(braced),
                final(self).lexer.pending(),
                strict,
            ),
            forall|variants: Seq<Variant>, commas: Seq<bool>, rest: Seq<Tok>|
                #[trigger] variants_listed(
                    old(self).lexer.pending(),
                    variants,
                    commas,
                    rest,
                    braced,
                    strict,
                ) ==> (r matches Ok(d) && variant_spellings(d.variants@) == variant_spellings(
                    variants,
                ) && final(self).lexer.pending() == rest),
            forall|variants: Seq<Variant>, commas: Seq<bool>, rest: Seq<Tok>, j: int|
                #[trigger] variant_comma_missing(
                    old(self).lexer.pending(),
                    variants,
                    commas,
                    rest,
                    j,
                    braced,
                ) && strict ==> (r matches Err(Error::WrongToken { expected, got }) && expected@
                    == Tok::Comma && got@ == Tok::Identifier(variants[j + 1].name@)),
    {
        let open = if braced {
            TokenKind::LeftBrace
        } else {
            TokenKind::LeftParen
        };
        let close = if braced {
            TokenKind::RightBrace
        } else {
            TokenKind::RightParen
        };
        let ghost start = old(self).lexer.pending();
        let ghost cl = closer(braced);
        proof {
            assert forall|vs: Seq<Variant>, cs: Seq<bool>, rest: Seq<Tok>|
                #[trigger] variants_listed(start, vs, cs, rest, braced, strict) implies start.len()
                > 0 && start[0] == opener(braced) && start.drop_first() == list_tail(
                variant_spellings(vs),
                cs,
                0,
            ) + seq![cl] + rest by {
                assert(variant_spellings(vs).subrange(0, vs.len() as int) =~= variant_spellings(vs));
                assert(cs.subrange(0, cs.len() as int) =~= cs);
                assert(start.drop_first() =~= list_tail(variant_spellings(vs), cs, 0) + seq![cl]
                    + rest);
            }
        }
        proof {
            assert forall|vs: Seq<Variant>, cs: Seq<bool>, rest: Seq<Tok>, j: int|
                #[trigger] variant_comma_missing(start, vs, cs, rest, j, braced) && strict implies start.len() > 0 && start[0] == opener(braced)
                && start.drop_first() == list_tail(variant_spellings(vs), cs, 0) + seq![cl] + rest by {
                assert(variant_spellings(vs).subrange(0, vs.len() as int) =~= variant_spellings(vs));
                assert(cs.subrange(0, cs.len() as int) =~= cs);
                assert(start.drop_first() =~= list_tail(variant_spellings(vs), cs, 0) + seq![cl]
                    + rest);
            }
        }
        self.expect_token(&open)?;
        let mut variants: Vec<Variant> = Vec::new();
        let ghost mut commas: Seq<bool> = Seq::empty();
        proof {
            assert(self.lexer.pending() =~= start.drop_first());
            assert forall|vs: Seq<Variant>, cs: Seq<bool>, rest: Seq<Tok>|
                #[trigger] variants_listed(start, vs, cs, rest, braced, strict) implies variant_spellings(
                variants@,
            ) =~= variant_spellings(vs).subrange(0, 0) by {}
        }
        loop
            invariant
                old(self).keeps(self),
                open@ == opener(braced),
                close@ == closer(braced),
                cl == closer(braced),
                start == old(self).lexer.pending(),
                start == seq![opener(braced)] + with_commas(variant_spellings(variants@), commas)
                    + self.lexer.pending(),
                commas.len() == variants@.len(),
                commas_fit(commas, strict),
                strict && variants@.len() > 0 && !commas.last() ==> self.lexer.pending().len()
                    > 0 && self.lexer.pending()[0] == closer(braced),
                forall|vs: Seq<Variant>, cs: Seq<bool>, rest: Seq<Tok>|
                    #[trigger] variants_listed(start, vs, cs, rest, braced, strict)
                        ==> variants@.len() <= vs.len() && variant_spellings(variants@)
                        == variant_spellings(vs).subrange(0, variants@.len() as int)
                        && self.lexer.pending() == list_tail(
                        variant_spellings(vs),
                        cs,
                        variants@.len() as int,
                    ) + seq![cl] + rest,
                forall|vs: Seq<Variant>, cs: Seq<bool>, rest: Seq<Tok>, j: int|
                    #[trigger] variant_comma_missing(start, vs, cs, rest, j, braced) && strict ==> variants@.len() <= j && variant_spellings(variants@)
                        == variant_spellings(vs).subrange(0, variants@.len() as int)
                        && self.lexer.pending() == list_tail(
                        variant_spellings(vs),
                        cs,
                        variants@.len() as int,
                    ) + seq![cl] + rest,
            ensures
                self.lexer.pending().len() == 0 || self.lexer.pending()[0] == cl,
            decreases self.lexer.pending().len(),
        {
            let ghost i = variants@.len() as int;
            let ghost p = self.lexer.pending();
            proof {
                assert forall|vs: Seq<Variant>, cs: Seq<bool>, rest: Seq<Tok>|
                    #[trigger] variants_listed(start, vs, cs, rest, braced, strict) implies p.len()
                    > 0 && (i < vs.len() ==> begins_with(p, variant_spelling(vs[i])) && p[0] is Identifier
                    && may_follow_variant(after(p, variant_spelling(vs[i])), vs[i])) && (i
                    == vs.len() ==> p[0] == cl) by {
                    let items = variant_spellings(vs);
                    if i < vs.len() {
                        assert(items[i] == variant_spelling(vs[i]));
                        lemma_list_step(p, items, cs, i, cl, rest, strict);
                        assert(p.subrange(0, items[i].len() as int)[0] == p[0]);
                    } else {
                        assert(items.subrange(i, items.len() as int).len() == 0);
                        assert(list_tail(items, cs, i) == Seq::<Tok>::empty());
                        assert(p =~= seq![cl] + rest);
                    }
                }
            }
            proof {
                assert forall|vs: Seq<Variant>, cs: Seq<bool>, rest: Seq<Tok>, j: int|
                    #[trigger] variant_comma_missing(start, vs, cs, rest, j, braced) && strict implies p.len() > 0 && i < vs.len() && begins_with(
                    p,
                    variant_spelling(vs[i]),
                ) && p[0] is Identifier && may_follow_variant(after(p, variant_spelling(vs[i])), vs[i])
                    by {
                    let items = variant_spellings(vs);
                    assert(items[i] == variant_spelling(vs[i]));
                    lemma_list_step(p, items, cs, i, cl, rest, false);
                    assert(p.subrange(0, items[i].len() as int)[0] == p[0]);
                }
            }
            let tok = match self.peek()? {
                Some(t) => t,
                None => {
                    break ;
                },
            };
            if tok.kind.same_as(&close) {
                break ;
            }
            match tok.kind {
                TokenKind::Identifier(_) => {
                    let ghost prev = variants@;
                    let ghost prev_commas = commas;
                    let variant = self.parse_enum_variant()?;
                    let ghost p1 = self.lexer.pending();
                    variants.push(variant);
                    proof {
                        commas = prev_commas.push(false);
                        assert(variant_spellings(variants@) =~= variant_spellings(prev).push(
                            variant_spelling(variants@.last()),
                        ));
                        lemma_with_commas_push(
                            variant_spellings(prev),
                            prev_commas,
                            variant_spelling(variants@.last()),
                            false,
                        );
                        assert(start =~= seq![opener(braced)] + with_commas(
                            variant_spellings(variants@),
                            commas,
                        ) + self.lexer.pending());
                        assert forall|vs: Seq<Variant>, cs: Seq<bool>, rest: Seq<Tok>|
                            #[trigger] variants_listed(start, vs, cs, rest, braced, strict) implies i
                            < vs.len() && begins_with(p, variant_spelling(vs[i])) && p1 == after(
                            p,
                            variant_spelling(vs[i]),
                        ) && p1.len() > 0 && (p1[0] == Tok::Comma || (strict ==> p1[0] == cl)) by {
                            lemma_list_step(p, variant_spellings(vs), cs, i, cl, rest, strict);
                            assert(variant_spellings(vs)[i] == variant_spelling(vs[i]));
                        }
                    }
                    proof {
                        assert forall|vs: Seq<Variant>, cs: Seq<bool>, rest: Seq<Tok>, j: int|
                            #[trigger] variant_comma_missing(start, vs, cs, rest, j, braced) && strict implies p1 == after(p, variant_spelling(vs[i]))
                            && variant_spellings(variants@) == variant_spellings(vs).subrange(0, i + 1)
                            && p1.len() > 0 && (i < j ==> p1[0] == Tok::Comma) && (i == j ==> p1[0]
                            == Tok::Identifier(vs[j + 1].name@)) by {
                            let sp = variant_spelling(vs[i]);
                            let got = variant_spelling(variants@.last());
                            assert(p == got + p1);
                            assert(got.len() == sp.len());
                            assert(got =~= p.subrange(0, sp.len() as int));
                            assert(variant_spellings(variants@) =~= variant_spellings(vs).subrange(
                                0,
                                i + 1,
                            ));
                            lemma_list_step(p, variant_spellings(vs), cs, i, cl, rest, false);
                            assert(variant_spellings(vs)[i] == sp);
                            if i == j {
                                assert(variant_spellings(vs)[j + 1] == variant_spelling(vs[j + 1]));
                            }
                        }
                    }
                    let next = match self.peek()? {
                        Some(t) => t,
                        None => {
                            return Err(Error::UnexpectedEOF);
                        },
                    };
                    let ghost took = false;
                    if next.kind.same_as(&TokenKind::Comma) {
                        self.advance();
                        proof {
                            took = true;
                            commas = prev_commas.push(true);
                            lemma_with_commas_push(
                                variant_spellings(prev),
                                prev_commas,
                                variant_spelling(variants@.last()),
                                true,
                            );
                            assert(start =~= seq![opener(braced)] + with_commas(
                                variant_spellings(variants@),
                                commas,
                            ) + self.lexer.pending());
                            assert(self.lexer.pending() =~= p1.drop_first());
                        }
                    } else if strict && !next.kind.same_as(&close) {
                        return Err(Error::WrongToken { expected: TokenKind::Comma, got: next.kind });
                    }
                    proof {
                        assert(took ==> p1.len() > 0 && p1[0] == Tok::Comma && self.lexer.pending()
                            == p1.drop_first());
                        assert(!took ==> p1.len() > 0 && p1[0] != Tok::Comma && self.lexer.pending()
                            == p1);
                        lemma_variant_read(
                            start,
                            p,
                            p1,
                            self.lexer.pending(),
                            prev,
                            variants@,
                            took,
                            braced,
                            strict,
                        );
                        assert forall|vs: Seq<Variant>, cs: Seq<bool>, rest: Seq<Tok>, j: int|
                            #[trigger] variant_comma_missing(start, vs, cs, rest, j, braced) && strict implies i + 1 <= j && self.lexer.pending() == list_tail(
                            variant_spellings(vs),
                            cs,
                            i + 1,
                        ) + seq![cl] + rest by {
                            lemma_list_step(p, variant_spellings(vs), cs, i, cl, rest, false);
                            assert(variant_spellings(vs)[i] == variant_spelling(vs[i]));
                        }
                    }
                },
                other => {
                    return Err(Error::Expected { expected: "an identifier", got: other });
                },
            }
        }
        proof {
            assert forall|vs: Seq<Variant>, cs: Seq<bool>, rest: Seq<Tok>|
                #[trigger] variants_listed(start, vs, cs, rest, braced, strict) implies variants@.len()
                == vs.len() && self.lexer.pending() == seq![cl] + rest && variant_spellings(
                variants@,
            ) == variant_spellings(vs) by {
                let items = variant_spellings(vs);
                let i = variants@.len() as int;
                if i < vs.len() {
                    lemma_list_step(self.lexer.pending(), items, cs, i, cl, rest, strict);
                    assert(self.lexer.pending().subrange(0, items[i].len() as int)[0]
                        == self.lexer.pending()[0]);
                    assert(items[i] == variant_spelling(vs[i]));
                }
                assert(items.subrange(i, items.len() as int).len() == 0);
                assert(list_tail(items, cs, i) == Seq::<Tok>::empty());
                assert(self.lexer.pending() =~= seq![cl] + rest);
                assert(items.subrange(0, i) =~= items);
            }
        }
        proof {
            assert forall|vs: Seq<Variant>, cs: Seq<bool>, rest: Seq<Tok>, j: int|
                #[trigger] variant_comma_missing(start, vs, cs, rest, j, braced) && strict implies false by {
                let items = variant_spellings(vs);
                let i = variants@.len() as int;
                lemma_list_step(self.lexer.pending(), items, cs, i, cl, rest, false);
                assert(self.lexer.pending().subrange(0, items[i].len() as int)[0]
                    == self.lexer.pending()[0]);
                assert(items[i] == variant_spelling(vs[i]));
            }
        }
        let ghost q = self.lexer.pending();
        self.expect_token(&close)?;
        let d = EnumDefinition { name, variants, annotations };
        assert(old(self).lexer.pending() =~= seq![opener(braced)] + with_commas(
            variant_spellings(d.variants@),
            commas,
        ) + seq![closer(braced)] + self.lexer.pending());
        proof {
            assert forall|vs: Seq<Variant>, cs: Seq<bool>, rest: Seq<Tok>|
                #[trigger] variants_listed(start, vs, cs, rest, braced, strict) implies self.lexer.pending()
                == rest by {
                assert(self.lexer.pending() =~= q.drop_first());
            }
        }
        Ok(d)
    }

    /// Parses an inline struct, an inline enum, or a type.
    #[verifier::rlimit(50)]
    #[verifier::spinoff_prover]
    fn parse_io_type(&mut self, name: &str) -> (r: Result<IOType, Error>)
        requires
            old(self).wf(),
        ensures
            old(self).keeps(final(self)),
            r matches Ok(io) ==> io_spelled(old(self).lexer.pending(), io, final(self).lexer.pending()),
            r matches Ok(IOType::Struct(d)) ==> d.name@ == name@ && d.annotations@.len() == 0,
            r matches Ok(IOType::Enum(d)) ==> d.name@ == name@ && d.annotations@.len() == 0,
            forall|io: IOType, commas: Seq<bool>, rest: Seq<Tok>|
                #[trigger] io_fits(old(self).lexer.pending(), io, commas, rest, old(self).lexer.clean())
                    ==> (r matches Ok(x) && same_shape(x, io) && final(self).lexer.pending() == rest),
            old(self).lexer.pending().len() == 0 && old(self).lexer.clean() ==> r matches Err(
                Error::UnexpectedEOF,
            ),
            old(self).lexer.pending().len() > 0 && old(self).lexer.pending()[0] != Tok::LeftBrace
                && old(self).lexer.pending()[0] != Tok::LeftParen && !starts_type(
                old(self).lexer.pending()[0],
            ) ==> (r matches Err(Error::Expected { expected, got }) && expected@
                == "an inline struct, an inline enum, or a type"@ && got@ == old(self).lexer.pending()[0]),
    {
        let ghost p0 = self.lexer.pending();
        let ghost clean = self.lexer.clean();
        proof {
            assert forall|io: IOType, commas: Seq<bool>, rest: Seq<Tok>|
                #[trigger] io_fits(p0, io, commas, rest, clean) implies p0.len() > 0 && (io is Struct
                <==> p0[0] == Tok::LeftBrace) && (io is Enum <==> p0[0] == Tok::LeftParen) && (io is Type
                ==> starts_type(p0[0]) && begins_with_type(p0, io->Type_0) && after_type(p0, io->Type_0)
                == rest) by {
                match io {
                    IOType::Type(t) => {
                        lemma_spelling_starts(t);
                        assert(p0.subrange(0, type_spelling(t).len() as int) =~= type_spelling(t));
                        assert(after_type(p0, t) =~= rest);
                    },
                    _ => {},
                }
            }
        }
        let next = match self.peek()? {
            Some(t) => t,
            None => {
                return Err(Error::UnexpectedEOF);
            },
        };
        match next.kind {
            TokenKind::LeftBrace => {
                let d = self.parse_struct_definition(owned(name), Vec::new(), false)?;
                Ok(IOType::Struct(d))
            },
            TokenKind::LeftParen => {
                let d = self.parse_enum_definition(owned(name), Vec::new(), false, false)?;
                Ok(IOType::Enum(d))
            },
            TokenKind::LeftBracket | TokenKind::Identifier(_) | TokenKind::Int | TokenKind::Float
            | TokenKind::String | TokenKind::Bool | TokenKind::Date | TokenKind::Uuid => {
                let t = self.parse_type()?;
                proof {
                    assert forall|io: IOType, commas: Seq<bool>, rest: Seq<Tok>|
                        #[trigger] io_fits(p0, io, commas, rest, clean) implies type_spelling(t)
                        == type_spelling(io->Type_0) && self.lexer.pending() == rest by {
                        let u = io->Type_0;
                        assert(begins_with_type(p0, u));
                        assert(p0 == type_spelling(t) + self.lexer.pending());
                        assert(type_spelling(t) =~= p0.subrange(0, type_spelling(u).len() as int));
                    }
                }
                Ok(IOType::Type(t))
            },
            other => Err(
                Error::Expected {
                    expected: "an inline struct, an inline enum, or a type",
                    got: other,
                },
            ),
        }
    }

    /// Consumes tokens up to and including the second rule `---`; whether
    /// there were two.
    #[verifier::rlimit(30)]
    #[verifier::spinoff_prover]
    fn skip_to_helper_types(&mut self) -> (r: Result<bool, Error>)
        requires
            old(self).wf(),
        ensures
            old(self).keeps(final(self)),
            r matches Ok(found) ==> found == after_rules(old(self).lexer.pending(), 2) is Some,
            r matches Ok(true) ==> final(self).lexer.pending() == after_rules(
                old(self).lexer.pending(),
                2,
            )->0,
            old(self).lexer.clean() ==> r is Ok,
    {
        let ghost start = old(self).lexer.pending();
        let mut found: usize = 0;
        loop
            invariant
                old(self).keeps(self),
                found <= 2,
                after_rules(start, 2) == after_rules(self.lexer.pending(), (2 - found) as nat),
            ensures
                found == 2 || self.lexer.pending().len() == 0,
            decreases self.lexer.pending().len(),
        {
            if found == 2 {
                break ;
            }
            let ghost before = self.lexer.pending();
            match self.next()? {
                Some(t) => {
                    assert(before[0] == t.kind@);
                    assert(before.drop_first() =~= self.lexer.pending());
                    if t.kind.same_as(&TokenKind::Rule) {
                        found = found + 1;
                    }
                },
                None => {
                    break ;
                },
            }
        }
        Ok(found == 2)
    }

    /// Parses the helper types that follow the second rule, each after the
    /// annotations `@name` that precede it.
    #[verifier::rlimit(30)]
    #[verifier::spinoff_prover]
    fn parse_helper_types(&mut self) -> (r: Result<
        (Vec<StructDefinition>, Vec<EnumDefinition>),
        Error,
    >)
        requires
            old(self).wf(),
        ensures
            old(self).keeps(final(self)),
            r matches Ok((structs, enums)) ==> helpers_section(
                old(self).lexer.pending(),
                structs@,
                enums@,
            ),
            forall|o: Seq<bool>, ss: Seq<StructDefinition>, es: Seq<EnumDefinition>, cs: Seq<Seq<bool>>, tr: Seq<Seq<char>>|
                #[trigger] helpers_fit(old(self).lexer.pending(), o, ss, es, cs, tr, 0) && old(self).lexer.clean() ==> (r matches Ok((s, e)) && helpers_alike(s@, e@, ss, es)),
    {
        let ghost start = old(self).lexer.pending();
        let ghost start_clean = old(self).lexer.clean();
        proof {
            assert forall|o: Seq<bool>, ss: Seq<StructDefinition>, es: Seq<EnumDefinition>, cs: Seq<Seq<bool>>, tr: Seq<Seq<char>>|
                #[trigger] helpers_fit(start, o, ss, es, cs, tr, 0) && start_clean implies helpers_fit(
                start,
                o.subrange(0, o.len() as int),
                ss.subrange(0, ss.len() as int),
                es.subrange(0, es.len() as int),
                cs.subrange(0, cs.len() as int),
                tr,
                0,
            ) && helpers_alike(Seq::empty(), Seq::empty(), ss.subrange(0, 0), es.subrange(0, 0))
                && current_annotations(o, ss, es, tr, 0, 0, 0).subrange(0, 0) =~= Seq::<
                Seq<char>,
            >::empty() by {
                assert(o.subrange(0, o.len() as int) =~= o);
                assert(ss.subrange(0, ss.len() as int) =~= ss);
                assert(es.subrange(0, es.len() as int) =~= es);
                assert(cs.subrange(0, cs.len() as int) =~= cs);
            }
        }
        let mut structs: Vec<StructDefinition> = Vec::new();
        let mut enums: Vec<EnumDefinition> = Vec::new();
        let mut annotations: Vec<String> = Vec::new();
        let ghost mut order: Seq<bool> = Seq::empty();
        let ghost mut done: Seq<Tok> = Seq::empty();
        proof {
            assert(structs@ =~= Seq::<StructDefinition>::empty());
            assert(enums@ =~= Seq::<EnumDefinition>::empty());
            assert(texts(annotations@) =~= Seq::<Seq<char>>::empty());
            assert(self.lexer.pending() == start);
            assert forall|o: Seq<bool>, ss: Seq<StructDefinition>, es: Seq<EnumDefinition>, cs: Seq<Seq<bool>>, tr: Seq<Seq<char>>|
                #[trigger] helpers_fit(start, o, ss, es, cs, tr, 0) && start_clean implies helpers_alike(
                structs@,
                enums@,
                ss.subrange(0, 0),
                es.subrange(0, 0),
            ) by {}
            assert forall|o: Seq<bool>, ss: Seq<StructDefinition>, es: Seq<EnumDefinition>, cs: Seq<Seq<bool>>, tr: Seq<Seq<char>>|
                #[trigger] helpers_fit(start, o, ss, es, cs, tr, 0) && start_clean implies texts(
                annotations@,
            ) == current_annotations(o, ss, es, tr, 0, 0, 0).subrange(0, 0) by {
                assert(current_annotations(o, ss, es, tr, 0, 0, 0).subrange(0, 0) =~= Seq::<
                    Seq<char>,
                >::empty());
            }
        }
        loop
            invariant_except_break
                start == done + annotation_spelling(texts(annotations@)) + self.lexer.pending(),
            invariant
                old(self).keeps(self),
                start == old(self).lexer.pending(),
                helpers_spelled(done, order, structs@, enums@, false),
                start_clean == old(self).lexer.clean(),
                start_clean ==> self.lexer.clean(),
                order.len() == structs@.len() + enums@.len(),
                forall|o: Seq<bool>, ss: Seq<StructDefinition>, es: Seq<EnumDefinition>, cs: Seq<Seq<bool>>, tr: Seq<Seq<char>>|
                    #[trigger] helpers_fit(start, o, ss, es, cs, tr, 0) && start_clean ==> order.len()
                        <= o.len() && order.len() <= cs.len() && structs@.len() <= ss.len()
                        && enums@.len() <= es.len() && helpers_alike(
                        structs@,
                        enums@,
                        ss.subrange(0, structs@.len() as int),
                        es.subrange(0, enums@.len() as int),
                    ) && annotations@.len() <= current_annotations(
                        o,
                        ss,
                        es,
                        tr,
                        order.len() as int,
                        structs@.len() as int,
                        enums@.len() as int,
                    ).len() && texts(annotations@) == current_annotations(
                        o,
                        ss,
                        es,
                        tr,
                        order.len() as int,
                        structs@.len() as int,
                        enums@.len() as int,
                    ).subrange(0, annotations@.len() as int) && helpers_fit(
                        self.lexer.pending(),
                        o.subrange(order.len() as int, o.len() as int),
                        ss.subrange(structs@.len() as int, ss.len() as int),
                        es.subrange(enums@.len() as int, es.len() as int),
                        cs.subrange(order.len() as int, cs.len() as int),
                        tr,
                        annotations@.len() as int,
                    ),
            ensures
                start == done + annotation_spelling(texts(annotations@)),
                self.lexer.pending().len() == 0,
            decreases self.lexer.pending().len(),
        {
            let ghost before = self.lexer.pending();
            let ghost k = order.len() as int;
            let ghost si = structs@.len() as int;
            let ghost ei = enums@.len() as int;
            let ghost na = annotations@.len() as int;
            proof {
                assert forall|o: Seq<bool>, ss: Seq<StructDefinition>, es: Seq<EnumDefinition>, cs: Seq<Seq<bool>>, tr: Seq<Seq<char>>|
                    #[trigger] helpers_fit(start, o, ss, es, cs, tr, 0) && start_clean implies helper_step(
                    before,
                    o,
                    ss,
                    es,
                    cs,
                    tr,
                    k,
                    si,
                    ei,
                    na,
                ) by {
                    lemma_helper_step(before, o, ss, es, cs, tr, k, si, ei, na);
                }
            }
            let tok = match self.next()? {
                Some(t) => t,
                None => {
                    assert(start =~= done + annotation_spelling(texts(annotations@)));
                    assert(self.lexer.pending() =~= before);
                    break ;
                },
            };
            match tok.kind {
                TokenKind::At => {
                    let ghost after_at = self.lexer.pending();
                    proof {
                        assert(after_at =~= before.drop_first());
                    }
                    let a = self.expect_identifier()?;
                    let ghost prev = texts(annotations@);
                    annotations.push(a);
                    proof {
                        assert(texts(annotations@) =~= prev.push(a@));
                        assert(self.lexer.pending() =~= before.subrange(2, before.len() as int));
                        assert forall|o: Seq<bool>, ss: Seq<StructDefinition>, es: Seq<EnumDefinition>, cs: Seq<Seq<bool>>, tr: Seq<Seq<char>>|
                            #[trigger] helpers_fit(start, o, ss, es, cs, tr, 0) && start_clean implies texts(
                            annotations@,
                        ) == current_annotations(o, ss, es, tr, k, si, ei).subrange(0, na + 1) by {
                            assert(before[1] == after_at[0]);
                            assert(texts(annotations@) =~= current_annotations(
                                o,
                                ss,
                                es,
                                tr,
                                k,
                                si,
                                ei,
                            ).subrange(0, na + 1));
                        }
                        assert(texts(annotations@).drop_last() =~= prev);
                        assert(start =~= done + annotation_spelling(texts(annotations@))
                            + self.lexer.pending());
                    }
                },
                TokenKind::Identifier(name) => {
                    let ghost anns = texts(annotations@);
                    let ghost after_name = self.lexer.pending();
                    proof {
                        assert(after_name =~= before.subrange(1, before.len() as int));
                        assert forall|o: Seq<bool>, ss: Seq<StructDefinition>, es: Seq<EnumDefinition>, cs: Seq<Seq<bool>>, tr: Seq<Seq<char>>|
                            #[trigger] helpers_fit(start, o, ss, es, cs, tr, 0) && start_clean implies k
                            < o.len() && na == current_annotations(o, ss, es, tr, k, si, ei).len()
                            && anns == current_annotations(o, ss, es, tr, k, si, ei) by {
                            assert(before[0] == Tok::Identifier(name@));
                            assert(current_annotations(o, ss, es, tr, k, si, ei).subrange(0, na)
                                =~= current_annotations(o, ss, es, tr, k, si, ei));
                        }
                    }
                    let next = match self.peek()? {
                        Some(t) => t,
                        None => {
                            return Err(Error::UnexpectedEOF);
                        },
                    };
                    match next.kind {
                        TokenKind::LeftBrace => {
                            let d = self.parse_struct_definition(name, annotations, false)?;
                            annotations = Vec::new();
                            let ghost body = after_name.subrange(
                                0,
                                after_name.len() - self.lexer.pending().len(),
                            );
                            let ghost decl = annotation_spelling(anns) + seq![Tok::Identifier(d.name@)]
                                + body;
                            let ghost prev_done = done;
                            proof {
                                assert(after_name =~= body + self.lexer.pending());
                                lemma_list_alone(
                                    after_name,
                                    Tok::LeftBrace,
                                    field_spellings(d.fields@),
                                    Tok::RightBrace,
                                    self.lexer.pending(),
                                    false,
                                    body,
                                );
                                assert(struct_spelled(decl, d, body, false));
                                done = done + decl;
                                assert(done.subrange(0, prev_done.len() as int) =~= prev_done);
                                assert(done.subrange(prev_done.len() as int, done.len() as int)
                                    =~= decl);
                            }
                            let ghost prev_list = structs@;
                            let ghost d_name = d.name@;
                            structs.push(d);
                            proof {
                                assert forall|o: Seq<bool>, ss: Seq<StructDefinition>, es: Seq<EnumDefinition>, cs: Seq<Seq<bool>>, tr: Seq<Seq<char>>|
                                    #[trigger] helpers_fit(start, o, ss, es, cs, tr, 0) && start_clean implies helpers_alike(
                                    structs@,
                                    enums@,
                                    ss.subrange(0, si + 1),
                                    es.subrange(0, ei),
                                ) by {
                                    assert(before[1] == Tok::LeftBrace);
                                    lemma_helpers_alike_push_struct(
                                        prev_list,
                                        structs@,
                                        enums@,
                                        ss,
                                        es,
                                        si,
                                        ei,
                                    );
                                }
                            }
                            proof {
                                let prev_order = order;
                                order = order.push(true);
                                assert(order.drop_last() =~= prev_order);
                                assert(structs@.drop_last() =~= prev_list);
                                assert(struct_spelled(
                                    done.subrange(prev_done.len() as int, done.len() as int),
                                    structs@.last(),
                                    body,
                                    false,
                                ));
                                assert(helpers_spelled(done.subrange(0, prev_done.len() as int), order.drop_last(), structs@.drop_last(), enums@, false));
                                assert(helpers_spelled(done, order, structs@, enums@, false));
                                assert(texts(annotations@) =~= Seq::<Seq<char>>::empty());
                                assert(start =~= done + annotation_spelling(texts(annotations@))
                                    + self.lexer.pending());
                            }
                        },
                        TokenKind::LeftParen => {
                            let d = self.parse_enum_definition(name, annotations, false, false)?;
                            annotations = Vec::new();
                            let ghost body = after_name.subrange(
                                0,
                                after_name.len() - self.lexer.pending().len(),
                            );
                            let ghost decl = annotation_spelling(anns) + seq![Tok::Identifier(d.name@)]
                                + body;
                            let ghost prev_done = done;
                            proof {
                                assert(after_name =~= body + self.lexer.pending());
                                lemma_list_alone(
                                    after_name,
                                    Tok::LeftParen,
                                    variant_spellings(d.variants@),
                                    Tok::RightParen,
                                    self.lexer.pending(),
                                    false,
                                    body,
                                );
                                assert(enum_spelled(decl, d, body, false));
                                done = done + decl;
                                assert(done.subrange(0, prev_done.len() as int) =~= prev_done);
                                assert(done.subrange(prev_done.len() as int, done.len() as int)
                                    =~= decl);
                            }
                            let ghost prev_list = enums@;
                            let ghost d_name = d.name@;
                            enums.push(d);
                            proof {
                                assert forall|o: Seq<bool>, ss: Seq<StructDefinition>, es: Seq<EnumDefinition>, cs: Seq<Seq<bool>>, tr: Seq<Seq<char>>|
                                    #[trigger] helpers_fit(start, o, ss, es, cs, tr, 0) && start_clean implies helpers_alike(
                                    structs@,
                                    enums@,
                                    ss.subrange(0, si),
                                    es.subrange(0, ei + 1),
                                ) by {
                                    assert(before[1] == Tok::LeftParen);
                                    lemma_helpers_alike_push_enum(
                                        structs@,
                                        prev_list,
                                        enums@,
                                        ss,
                                        es,
                                        si,
                                        ei,
                                    );
                                }
                            }
                            proof {
                                let prev_order = order;
                                order = order.push(false);
                                assert(order.drop_last() =~= prev_order);
                                assert(enums@.drop_last() =~= prev_list);
                                assert(enum_spelled(
                                    done.subrange(prev_done.len() as int, done.len() as int),
                                    enums@.last(),
                                    body,
                                    false,
                                ));
                                assert(helpers_spelled(done.subrange(0, prev_done.len() as int), order.drop_last(), structs@, enums@.drop_last(), false));
                                assert(helpers_spelled(done, order, structs@, enums@, false));
                                assert(texts(annotations@) =~= Seq::<Seq<char>>::empty());
                                assert(start =~= done + annotation_spelling(texts(annotations@))
                                    + self.lexer.pending());
                            }
                        },
                        other => {
                            return Err(
                                Error::Expected {
                                    expected: "a struct or enum definition",
                                    got: other,
                                },
                            );
                        },
                    }
                },
                other => {
                    return Err(Error::Expected { expected: "an identifier", got: other });
                },
            }
        }
        proof {
            let tail = annotation_spelling(texts(annotations@));
            assert(start.subrange(0, done.len() as int) =~= done);
            assert(start.subrange(done.len() as int, start.len() as int) =~= tail);
            assert(helpers_split(start, order, structs@, enums@, done.len() as int, texts(annotations@)));
        }
        proof {
            assert forall|o: Seq<bool>, ss: Seq<StructDefinition>, es: Seq<EnumDefinition>, cs: Seq<Seq<bool>>, tr: Seq<Seq<char>>|
                #[trigger] helpers_fit(start, o, ss, es, cs, tr, 0) && start_clean implies helpers_alike(
                structs@,
                enums@,
                ss,
                es,
            ) by {
                lemma_helper_step(
                    self.lexer.pending(),
                    o,
                    ss,
                    es,
                    cs,
                    tr,
                    order.len() as int,
                    structs@.len() as int,
                    enums@.len() as int,
                    annotations@.len() as int,
                );
                assert(ss.subrange(0, ss.len() as int) =~= ss);
                assert(es.subrange(0, es.len() as int) =~= es);
            }
        }
        Ok((structs, enums))
    }

    /// Parses `name: "..."`, then `description: "..."` and `authed: true|false`
    /// entries, up to the first rule; a later entry overrides an earlier one.
    #[verifier::rlimit(100)]
    #[verifier::spinoff_prover]
    fn parse_metadata(&mut self) -> (r: Result<(String, Option<String>, bool), Error>)
        requires
            old(self).wf(),
        ensures
            old(self).keeps(final(self)),
            r matches Ok((n, d, a)) ==> metadata_spelled(
                old(self).lexer.pending(),
                n@,
                text_of(d),
                a,
                final(self).lexer.pending(),
            ),
            old(self).lexer.pending().len() > 0 && old(self).lexer.pending()[0] != Tok::Identifier(
                "name"@,
            ) ==> (r matches Err(Error::WrongToken { expected, got }) && expected@ == Tok::Identifier(
                "name"@,
            ) && got@ == old(self).lexer.pending()[0]),
            old(self).lexer.pending().len() == 0 && old(self).lexer.clean() ==> (r matches Err(
                Error::WrongToken { expected, got },
            ) && expected@ == Tok::Identifier("name"@) && got@ == Tok::Eof),
            plain_metadata(old(self).lexer.pending()) ==> r is Ok && final(self).lexer.pending()
                == old(self).lexer.pending().subrange(
                metadata_end(old(self).lexer.pending()) + 1,
                old(self).lexer.pending().len() as int,
            ),
    {
        let ghost start = old(self).lexer.pending();
        let ghost len = start.len();
        let ghost plain = plain_metadata(start);
        let ghost k = metadata_end(start);
        self.expect_token(&TokenKind::Identifier(owned("name")))?;
        self.expect_token(&TokenKind::Colon)?;
        let name = self.expect_string_literal()?;
        let ghost head = seq![Tok::Identifier("name"@), Tok::Colon, Tok::StringLiteral(name@)];
        assert(start =~= head + self.lexer.pending());
        assert(self.lexer.pending() =~= start.subrange(3, len as int));
        let mut description: Option<String> = None;
        let mut authed = false;
        let ghost mut entries: Seq<Seq<Tok>> = Seq::empty();
        let ghost mut ended = false;
        loop
            invariant_except_break
                start == head + joined(entries) + self.lexer.pending(),
                plain ==> 3 <= len - self.lexer.pending().len() <= k && (len - self.lexer.pending().len()
                    - 3) % 3 == 0,
            invariant
                old(self).keeps(self),
                start == old(self).lexer.pending(),
                len == start.len(),
                plain == plain_metadata(start),
                plain ==> plain_shape(start, k),
                self.lexer.pending() == start.subrange(len - self.lexer.pending().len(), len as int),
                head == seq![Tok::Identifier("name"@), Tok::Colon, Tok::StringLiteral(name@)],
                forall|i: int| 0 <= i < entries.len() ==> is_entry(#[trigger] entries[i]),
                described(entries) == text_of(description),
                authed_by(entries) == authed,
            ensures
                plain ==> self.lexer.pending() == start.subrange(k + 1, len as int),
                start == head + joined(entries) + (if ended {
                    seq![Tok::Rule]
                } else {
                    Seq::empty()
                }) + self.lexer.pending(),
                !ended ==> self.lexer.pending().len() == 0,
            decreases self.lexer.pending().len(),
        {
            let ghost before = self.lexer.pending();
            let ghost p = len - before.len();
            proof {
                if plain && p < k {
                    let j = (p - 3) / 3;
                    assert(3 + 3 * j == p);
                    assert(0 <= j < (k - 3) / 3);
                    let t = start.subrange(3 + 3 * j, 6 + 3 * j);
                    assert(is_entry(t));
                    assert(before.subrange(0, 3) =~= t);
                    assert(before[0] == t[0] && before[1] == t[1] && before[2] == t[2]);
                }
                if plain && p == k {
                    assert(before[0] == start[k]);
                }
            }
            let tok = match self.next()? {
                Some(t) => t,
                None => {
                    proof {
                        ended = false;
                        assert(start =~= head + joined(entries) + Seq::<Tok>::empty()
                            + self.lexer.pending());
                    }
                    break ;
                },
            };
            assert(before[0] == (seq![tok.kind@] + self.lexer.pending())[0]);
            assert(self.lexer.pending() =~= start.subrange(len - self.lexer.pending().len(), len as int));
            match tok.kind {
                TokenKind::Identifier(key) => {
                    proof {
                        reveal_strlit("description");
                        reveal_strlit("authed");
                        assert("description"@.len() != "authed"@.len());
                    }
                    if same_text(key.as_str(), "description") {
                        self.expect_token(&TokenKind::Colon)?;
                        let value = self.expect_string_literal()?;
                        proof {
                            let e = seq![
                                Tok::Identifier("description"@),
                                Tok::Colon,
                                Tok::StringLiteral(value@),
                            ];
                            assert(before =~= e + self.lexer.pending());
                            let prev = entries;
                            entries = entries.push(e);
                            assert(entries.drop_last() =~= prev);
                            assert(start =~= head + joined(entries) + self.lexer.pending());
                            assert(Tok::Identifier("description"@) != Tok::Identifier("authed"@));
                        }
                        description = Some(value);
                    } else if same_text(key.as_str(), "authed") {
                        self.expect_token(&TokenKind::Colon)?;
                        match self.next()? {
                            Some(Token { kind: TokenKind::BoolLiteral(value), index: _ }) => {
                                proof {
                                    let e = seq![
                                        Tok::Identifier("authed"@),
                                        Tok::Colon,
                                        Tok::BoolLiteral(value),
                                    ];
                                    assert(before =~= e + self.lexer.pending());
                                    let prev = entries;
                                    entries = entries.push(e);
                                    assert(entries.drop_last() =~= prev);
                                    assert(start =~= head + joined(entries) + self.lexer.pending());
                                }
                                authed = value;
                            },
                            Some(other) => {
                                return Err(
                                    Error::Expected {
                                        expected: "a boolean literal",
                                        got: other.kind,
                                    },
                                );
                            },
                            None => {
                                return Err(
                                    Error::Expected {
                                        expected: "a boolean literal",
                                        got: TokenKind::Eof,
                                    },
                                );
                            },
                        }
                    } else {
                        return Err(
                            Error::Expected {
                                expected: "a metadata key",
                                got: TokenKind::Identifier(key),
                            },
                        );
                    }
                },
                TokenKind::Rule => {
                    assert(before.drop_first() =~= self.lexer.pending());
                    assert(plain ==> p == k);
                    assert(plain ==> before.drop_first() =~= start.subrange(k + 1, len as int));
                    proof {
                        ended = true;
                        assert(start =~= head + joined(entries) + seq![Tok::Rule]
                            + self.lexer.pending());
                    }
                    break ;
                },
                other => {
                    return Err(
                        Error::Expected { expected: "an identifier or rule", got: other },
                    );
                },
            }
            assert(self.lexer.pending() =~= start.subrange(
                len - self.lexer.pending().len(),
                len as int,
            ));
        }
        proof {
            assert(metadata_spelled(
                start,
                name@,
                text_of(description),
                authed,
                self.lexer.pending(),
            )) by {
                assert(is_metadata(start, name@, entries, ended, self.lexer.pending()));
            }
        }
        Ok((name, description, authed))
    }

    /// Parses `@input` and its shape, then `@output` and its shape, or
    /// `@output` alone.
    #[verifier::rlimit(30)]
    #[verifier::spinoff_prover]
    fn parse_io(&mut self) -> (r: Result<(Option<IOType>, Option<IOType>), Error>)
        requires
            old(self).wf(),
        ensures
            old(self).keeps(final(self)),
            r matches Ok((i, o)) ==> i is Some || o is Some,
            r matches Ok((i, o)) ==> io_section(
                old(self).lexer.pending(),
                i,
                o,
                final(self).lexer.pending(),
            ),
            r matches Ok((i, o)) ==> inline_named(i, "input"@) && inline_named(o, "output"@),
            !(old(self).lexer.pending().len() > 0 && old(self).lexer.pending()[0] == Tok::At) ==> (
            r matches Err(Error::Message(m)) && m@ == missing_io_message()),
            old(self).lexer.pending().len() >= 2 && old(self).lexer.pending()[0] == Tok::At && old(self).lexer.pending()[1] is Identifier && old(self).lexer.pending()[1] != Tok::Identifier(
                "input"@,
            ) && old(self).lexer.pending()[1] != Tok::Identifier("output"@) ==> (r matches Err(
                Error::Expected { expected, got },
            ) && expected@ == "input or output"@ && got@ == old(self).lexer.pending()[1]),
            forall|i: IOType, ci: Seq<bool>, mid: Seq<Tok>|
                #[trigger] input_then_other(old(self).lexer.pending(), i, ci, mid, old(self).lexer.clean())
                    ==> (r matches Err(Error::Expected { expected, got }) && expected@ == "output"@
                    && got@ == mid[1]),
            forall|
                i: Option<IOType>,
                o: Option<IOType>,
                ci: Seq<bool>,
                co: Seq<bool>,
                mid: Seq<Tok>,
                rest: Seq<Tok>,
            |
                #[trigger] io_section_fits(
                    old(self).lexer.pending(),
                    i,
                    o,
                    ci,
                    co,
                    mid,
                    rest,
                    old(self).lexer.clean(),
                ) ==> (r matches Ok((x, y)) && same_optional_shape(x, i) && same_optional_shape(y, o)
                    && final(self).lexer.pending() == rest),
    {
        let ghost p0 = self.lexer.pending();
        let ghost clean = self.lexer.clean();
        proof {
            reveal_strlit("input");
            reveal_strlit("output");
            assert("input"@.len() != "output"@.len());
        }
        if self.expect_token(&TokenKind::At).is_err() {
            return Err(Error::Message(owned("Route must have input, output, or both")));
        }
        let first = self.expect_identifier()?;
        let ghost x = self.lexer.pending();
        assert(old(self).lexer.pending() =~= seq![Tok::At, Tok::Identifier(first@)] + x);
        assert(x =~= p0.subrange(2, p0.len() as int));
        if same_text(first.as_str(), "input") {
            proof {
                assert forall|
                    i: Option<IOType>,
                    o: Option<IOType>,
                    ci: Seq<bool>,
                    co: Seq<bool>,
                    mid: Seq<Tok>,
                    rest: Seq<Tok>,
                |
                    #[trigger] io_section_fits(p0, i, o, ci, co, mid, rest, clean) implies i is Some
                    && io_fits(
                    x,
                    i->Some_0,
                    ci,
                    if o is Some {
                        mid
                    } else {
                        rest
                    },
                    self.lexer.clean(),
                ) by {
                    assert(p0[1] == Tok::Identifier(first@));
                }
            }
            proof {
                assert forall|i: IOType, ci: Seq<bool>, mid: Seq<Tok>|
                    #[trigger] input_then_other(p0, i, ci, mid, clean) implies io_fits(
                    x,
                    i,
                    ci,
                    mid,
                    self.lexer.clean(),
                ) by {}
            }
            let input = self.parse_io_type("input")?;
            let ghost y = self.lexer.pending();
            let mut output: Option<IOType> = None;
            match self.peek()? {
                Some(t) => {
                    if t.kind.same_as(&TokenKind::At) {
                        self.advance();
                        proof {
                            assert forall|
                                i: Option<IOType>,
                                o: Option<IOType>,
                                ci: Seq<bool>,
                                co: Seq<bool>,
                                mid: Seq<Tok>,
                                rest: Seq<Tok>,
                            |
                                #[trigger] io_section_fits(p0, i, o, ci, co, mid, rest, clean) implies o is Some
                                && y == mid && self.lexer.pending() == mid.drop_first() && io_fits(
                                mid.subrange(2, mid.len() as int),
                                o->Some_0,
                                co,
                                rest,
                                self.lexer.clean(),
                            ) by {
                                assert(io_fits(x, i->Some_0, ci, if o is Some {
                                    mid
                                } else {
                                    rest
                                }, clean));
                                assert(self.lexer.pending() =~= y.drop_first());
                            }
                        }
                        proof {
                            assert forall|i: IOType, ci: Seq<bool>, mid: Seq<Tok>|
                                #[trigger] input_then_other(p0, i, ci, mid, clean) implies y == mid
                                && self.lexer.pending() == mid.drop_first() by {
                                assert(self.lexer.pending() =~= y.drop_first());
                            }
                        }
                        let ident = self.expect_identifier()?;
                        let ghost z = self.lexer.pending();
                        proof {
                            assert(z =~= y.subrange(2, y.len() as int));
                        }
                        if same_text(ident.as_str(), "output") {
                            proof {
                                assert forall|
                                i: Option<IOType>,
                                o: Option<IOType>,
                                ci: Seq<bool>,
                                co: Seq<bool>,
                                mid: Seq<Tok>,
                                rest: Seq<Tok>,
                                |
                                    #[trigger] io_section_fits(p0, i, o, ci, co, mid, rest, clean) implies io_fits(
                                    z,
                                    o->Some_0,
                                    co,
                                    rest,
                                    self.lexer.clean(),
                                ) by {}
                            }
                            let o = self.parse_io_type("output")?;
                            assert(y.subrange(0, 2) =~= seq![Tok::At, Tok::Identifier("output"@)]);
                            assert(y.subrange(2, y.len() as int) =~= z);
                            assert(io_spelled(z, o, self.lexer.pending()));
                            output = Some(o);
                        } else {
                            return Err(
                                Error::Expected {
                                    expected: "output",
                                    got: TokenKind::Identifier(ident),
                                },
                            );
                        }
                    } else {
                        assert(io_spelled(x, input, self.lexer.pending()));
                    }
                },
                None => {
                    assert(io_spelled(x, input, self.lexer.pending()));
                },
            }
            assert(io_section(old(self).lexer.pending(), Some(input), output, self.lexer.pending()));
            Ok((Some(input), output))
        } else if same_text(first.as_str(), "output") {
            proof {
                assert forall|
                    i: Option<IOType>,
                    o: Option<IOType>,
                    ci: Seq<bool>,
                    co: Seq<bool>,
                    mid: Seq<Tok>,
                    rest: Seq<Tok>,
                |
                    #[trigger] io_section_fits(p0, i, o, ci, co, mid, rest, clean) implies i is None
                    && io_fits(x, o->Some_0, co, rest, self.lexer.clean()) by {
                    assert(p0[1] == Tok::Identifier(first@));
                }
            }
            let output = self.parse_io_type("output")?;
            assert(io_spelled(x, output, self.lexer.pending()));
            assert(io_section(old(self).lexer.pending(), None, Some(output), self.lexer.pending()));
            Ok((None, Some(output)))
        } else {
            Err(Error::Expected { expected: "input or output", got: TokenKind::Identifier(first) })
        }
    }

    /// Parses the schema into a [`FileNode`]. The helper types are read first,
    /// so that any type of the file may name any of them; every name that a
    /// type refers to must be declared there.
    #[verifier::rlimit(30)]
    #[verifier::spinoff_prover]
    pub fn parse(&mut self) -> (r: Result<FileNode, Error>)
        requires
            old(self).wf(),
        ensures
            final(self).wf(),
            final(self).source() == old(self).source(),
            r matches Ok(f) ==> f.input is Some || f.output is Some,
            r matches Ok(f) ==> file_known(f),
            r matches Ok(f) ==> route_spelled(tokens(old(self).source()), f),
            r matches Ok(f) ==> match after_rules(tokens(old(self).source()), 2) {
                Some(h) => helpers_section(h, f.structs@, f.enums@),
                None => f.structs@.len() == 0 && f.enums@.len() == 0,
            },
            plain_metadata(tokens(old(self).source())) && metadata_end(tokens(old(self).source()))
                == tokens(old(self).source()).len() - 1 && lexes_cleanly(old(self).source(), 0) ==> (
            r matches Err(Error::Message(m)) && m@ == missing_io_message()),
            no_io_after_metadata(tokens(old(self).source())) && lexes_cleanly(old(self).source(), 0)
                ==> (r matches Err(Error::Message(m)) && m@ == missing_io_message()),
            r matches Ok(f) ==> inline_named(f.input, "input"@) && inline_named(f.output, "output"@),
            forall|
                i: Option<IOType>,
                o: Option<IOType>,
                ci: Seq<bool>,
                co: Seq<bool>,
                mid: Seq<Tok>,
                order: Seq<bool>,
                ss: Seq<StructDefinition>,
                es: Seq<EnumDefinition>,
                cs: Seq<Seq<bool>>,
                tr: Seq<Seq<char>>,
            |
                #[trigger] route_with_helpers(
                    tokens(old(self).source()),
                    i,
                    o,
                    ci,
                    co,
                    mid,
                    order,
                    ss,
                    es,
                    cs,
                    tr,
                ) && lexes_cleanly(old(self).source(), 0) ==> (route_known(i, o, ss, es) ==> (
                r matches Ok(f) && same_optional_shape(f.input, i) && same_optional_shape(
                    f.output,
                    o,
                ) && helpers_alike(f.structs@, f.enums@, ss, es))) && (!route_known(i, o, ss, es)
                ==> (r matches Err(e) && reports_undefined(e, declared(ss, es)))),
            forall|
                i: Option<IOType>,
                o: Option<IOType>,
                ci: Seq<bool>,
                co: Seq<bool>,
                mid: Seq<Tok>,
            |
                #[trigger] route_without_helpers(tokens(old(self).source()), i, o, ci, co, mid)
                    && lexes_cleanly(old(self).source(), 0) ==> (r matches Ok(f)
                    && same_optional_shape(f.input, i) && same_optional_shape(f.output, o)
                    && f.structs@.len() == 0 && f.enums@.len() == 0),
            forall|
                order: Seq<bool>,
                ss: Seq<StructDefinition>,
                es: Seq<EnumDefinition>,
                cs: Seq<Seq<bool>>,
                tr: Seq<Seq<char>>,
            |
                #[trigger] helpers_after_rules(tokens(old(self).source()), order, ss, es, cs, tr)
                    && lexes_cleanly(old(self).source(), 0) ==> (plain_metadata(
                    tokens(old(self).source()),
                ) && !(metadata_end(tokens(old(self).source())) + 1 < tokens(old(self).source()).len()
                    && tokens(old(self).source())[metadata_end(tokens(old(self).source())) + 1]
                    == Tok::At) ==> (r matches Err(Error::Message(m)) && m@ == missing_io_message()))
                    && (tokens(old(self).source()).len() > 0 && tokens(old(self).source())[0]
                    != Tok::Identifier("name"@) ==> (r matches Err(Error::WrongToken { expected, got })
                    && expected@ == Tok::Identifier("name"@) && got@ == tokens(old(self).source())[0])),
            tokens(old(self).source()).len() == 0 && lexes_cleanly(old(self).source(), 0) ==> (
            r matches Err(Error::WrongToken { expected, got }) && expected@ == Tok::Identifier(
                "name"@,
            ) && got@ == Tok::Eof),
            tokens(old(self).source()).len() > 0 && tokens(old(self).source())[0] != Tok::Identifier(
                "name"@,
            ) && after_rules(tokens(old(self).source()), 2) is None && lexes_cleanly(
                old(self).source(),
                0,
            ) ==> (r matches Err(Error::WrongToken { expected, got }) && expected@ == Tok::Identifier(
                "name"@,
            ) && got@ == tokens(old(self).source())[0]),
    {
        self.lexer.reset();
        proof {
            let s = tokens(self.source());
            if plain_metadata(s) && metadata_end(s) == s.len() - 1 {
                lemma_metadata_alone_has_no_helpers(s, metadata_end(s));
            }
        }
        let ghost source_tokens = self.lexer.pending();
        let ghost src_clean = lexes_cleanly(old(self).source(), 0);
        let has_helpers = self.skip_to_helper_types()?;
        let (structs, enums) = if has_helpers {
            self.parse_helper_types()?
        } else {
            (Vec::new(), Vec::new())
        };
        let names = declared_names(&structs, &enums);
        proof {
            assert forall|
                i: Option<IOType>,
                o: Option<IOType>,
                ci: Seq<bool>,
                co: Seq<bool>,
                mid: Seq<Tok>,
                order: Seq<bool>,
                ss: Seq<StructDefinition>,
                es: Seq<EnumDefinition>,
                cs: Seq<Seq<bool>>,
                tr: Seq<Seq<char>>,
            |
                #[trigger] route_with_helpers(source_tokens, i, o, ci, co, mid, order, ss, es, cs, tr) && src_clean implies helpers_alike(structs@, enums@, ss, es) && texts(names@) == declared(
                ss,
                es,
            ) && helpers_known(structs@, enums@, texts(names@)) == helpers_known(
                ss,
                es,
                declared(ss, es),
            ) by {
                lemma_helpers_known_alike(structs@, enums@, ss, es, texts(names@));
            }
        }
        proof {
            assert forall|
                order: Seq<bool>,
                ss: Seq<StructDefinition>,
                es: Seq<EnumDefinition>,
                cs: Seq<Seq<bool>>,
                tr: Seq<Seq<char>>,
            |
                #[trigger] helpers_after_rules(source_tokens, order, ss, es, cs, tr) && src_clean implies helpers_known(
                structs@,
                enums@,
                texts(names@),
            ) by {
                lemma_helpers_known_alike(structs@, enums@, ss, es, texts(names@));
            }
        }
        check_helpers(&structs, &enums, &names)?;
        self.lexer.reset();
        let ghost all = self.lexer.pending();
        let (name, description, authed) = self.parse_metadata()?;
        let ghost mid = self.lexer.pending();
        let (input, output) = self.parse_io()?;
        let ghost rest = self.lexer.pending();
        proof {
            assert forall|
                i: Option<IOType>,
                o: Option<IOType>,
                ci: Seq<bool>,
                co: Seq<bool>,
                mid: Seq<Tok>,
            |
                #[trigger] route_without_helpers(source_tokens, i, o, ci, co, mid) && src_clean
                implies structs@.len() == 0 && enums@.len() == 0 && same_optional_shape(input, i)
                && same_optional_shape(output, o) && optional_io_known(input, texts(names@))
                && optional_io_known(output, texts(names@)) by {
                assert(texts(names@) =~= Seq::<Seq<char>>::empty());
                match (input, i) {
                    (Some(x), Some(y)) => lemma_io_known_by_shape(x, y, texts(names@)),
                    _ => {},
                }
                match (output, o) {
                    (Some(x), Some(y)) => lemma_io_known_by_shape(x, y, texts(names@)),
                    _ => {},
                }
            }
        }
        proof {
            assert forall|
                i: Option<IOType>,
                o: Option<IOType>,
                ci: Seq<bool>,
                co: Seq<bool>,
                mid: Seq<Tok>,
                order: Seq<bool>,
                ss: Seq<StructDefinition>,
                es: Seq<EnumDefinition>,
                cs: Seq<Seq<bool>>,
                tr: Seq<Seq<char>>,
            |
                #[trigger] route_with_helpers(source_tokens, i, o, ci, co, mid, order, ss, es, cs, tr) && src_clean implies same_optional_shape(input, i) && same_optional_shape(output, o)
                && optional_io_known(input, texts(names@)) == optional_io_known(i, declared(ss, es))
                && optional_io_known(output, texts(names@)) == optional_io_known(o, declared(ss, es))
                by {
                match (input, i) {
                    (Some(x), Some(y)) => lemma_io_known_by_shape(x, y, texts(names@)),
                    _ => {},
                }
                match (output, o) {
                    (Some(x), Some(y)) => lemma_io_known_by_shape(x, y, texts(names@)),
                    _ => {},
                }
            }
        }
        match &input {
            Some(io) => check_io(io, &names)?,
            None => {},
        }
        match &output {
            Some(io) => check_io(io, &names)?,
            None => {},
        }
        let ghost helpers_ok = match after_rules(source_tokens, 2) {
            Some(h) => helpers_section(h, structs@, enums@),
            None => structs@.len() == 0 && enums@.len() == 0,
        };
        assert(helpers_ok);
        let f = FileNode { name, description, authed, input, output, structs, enums };
        assert(io_section(mid, f.input, f.output, rest));
        assert(metadata_spelled(all, f.name@, text_of(f.description), f.authed, mid));
        assert(route_spelled(all, f));
        Ok(f)
    }

    /// Parses text made only of type declarations, each written
    /// `struct Name { field, ... }` or `enum Name { variant, ... }`. Every name
    /// that a type refers to must be declared in the text.
    #[verifier::rlimit(100)]
    #[verifier::spinoff_prover]
    pub fn parse_declarations(&mut self) -> (r: Result<Declarations, Error>)
        requires
            old(self).wf(),
        ensures
            final(self).wf(),
            final(self).source() == old(self).source(),
            r matches Ok(d) ==> declarations_known(d),
            r matches Ok(d) ==> declarations_spelled(tokens(old(self).source()), d),
            forall|o: Seq<bool>, ss: Seq<StructDefinition>, es: Seq<EnumDefinition>, cs: Seq<Seq<bool>>|
                #[trigger] decls_fit(tokens(old(self).source()), o, ss, es, cs) && lexes_cleanly(
                    old(self).source(),
                    0,
                ) ==> (helpers_known(ss, es, declared(ss, es)) ==> (r matches Ok(d) && decls_alike(
                    d.structs@,
                    d.enums@,
                    ss,
                    es,
                ))) && (!helpers_known(ss, es, declared(ss, es)) ==> (r matches Err(e)
                    && reports_undefined(e, declared(ss, es)))),
    {
        self.lexer.reset();
        let ghost start = self.lexer.pending();
        let ghost src_clean = lexes_cleanly(old(self).source(), 0);
        proof {
            reveal_strlit("struct");
            reveal_strlit("enum");
            assert("struct"@.len() != "enum"@.len());
            assert forall|o: Seq<bool>, ss: Seq<StructDefinition>, es: Seq<EnumDefinition>, cs: Seq<Seq<bool>>|
                #[trigger] decls_fit(start, o, ss, es, cs) && src_clean implies decls_fit(
                self.lexer.pending(),
                o.subrange(0, o.len() as int),
                ss.subrange(0, ss.len() as int),
                es.subrange(0, es.len() as int),
                cs.subrange(0, cs.len() as int),
            ) && decls_alike(Seq::empty(), Seq::empty(), ss.subrange(0, 0), es.subrange(0, 0)) by {
                assert(o.subrange(0, o.len() as int) =~= o);
                assert(ss.subrange(0, ss.len() as int) =~= ss);
                assert(es.subrange(0, es.len() as int) =~= es);
                assert(cs.subrange(0, cs.len() as int) =~= cs);
            }
        }
        let mut structs: Vec<StructDefinition> = Vec::new();
        let mut enums: Vec<EnumDefinition> = Vec::new();
        let ghost mut order: Seq<bool> = Seq::empty();
        let ghost mut done: Seq<Tok> = Seq::empty();
        loop
            invariant_except_break
                start == done + self.lexer.pending(),
            invariant
                self.wf(),
                self.lexer.source() == old(self).lexer.source(),
                start == tokens(old(self).lexer.source()),
                helpers_spelled(done, order, structs@, enums@, true),
                src_clean == lexes_cleanly(old(self).source(), 0),
                src_clean ==> self.lexer.clean(),
                order.len() == structs@.len() + enums@.len(),
                forall|o: Seq<bool>, ss: Seq<StructDefinition>, es: Seq<EnumDefinition>, cs: Seq<Seq<bool>>|
                    #[trigger] decls_fit(start, o, ss, es, cs) && src_clean ==> order.len() <= o.len()
                        && order.len() <= cs.len() && structs@.len() <= ss.len() && enums@.len()
                        <= es.len() && decls_alike(
                        structs@,
                        enums@,
                        ss.subrange(0, structs@.len() as int),
                        es.subrange(0, enums@.len() as int),
                    ) && decls_fit(
                        self.lexer.pending(),
                        o.subrange(order.len() as int, o.len() as int),
                        ss.subrange(structs@.len() as int, ss.len() as int),
                        es.subrange(enums@.len() as int, es.len() as int),
                        cs.subrange(order.len() as int, cs.len() as int),
                    ),
            ensures
                start == done,
                self.lexer.pending().len() == 0,
            decreases self.lexer.pending().len(),
        {
            let ghost before = self.lexer.pending();
            let ghost k = order.len() as int;
            let ghost si = structs@.len() as int;
            let ghost ei = enums@.len() as int;
            proof {
                assert forall|o: Seq<bool>, ss: Seq<StructDefinition>, es: Seq<EnumDefinition>, cs: Seq<Seq<bool>>|
                    #[trigger] decls_fit(start, o, ss, es, cs) && src_clean implies decl_step(
                    before,
                    o,
                    ss,
                    es,
                    cs,
                    k,
                    si,
                    ei,
                ) by {
                    lemma_decl_step(before, o, ss, es, cs, k, si, ei);
                }
            }
            let tok = match self.next()? {
                Some(t) => t,
                None => {
                    assert(start =~= done);
                    break ;
                },
            };
            match tok.kind {
                TokenKind::Identifier(word) => {
                    if same_text(word.as_str(), "struct") {
                        let ghost after_word = self.lexer.pending();
                        proof {
                            assert(after_word =~= before.drop_first());
                            assert(before[0] == Tok::Identifier(word@));
                            assert forall|o: Seq<bool>, ss: Seq<StructDefinition>, es: Seq<EnumDefinition>, cs: Seq<Seq<bool>>|
                                #[trigger] decls_fit(start, o, ss, es, cs) && src_clean implies k < o.len()
                                && o[k] && si < ss.len() by {
                                reveal_strlit("struct");
                                reveal_strlit("enum");
                                assert("struct"@.len() != "enum"@.len());
                                assert(Tok::Identifier("struct"@) != Tok::Identifier("enum"@));
                            }
                        }
                        let name = self.expect_identifier()?;
                        let ghost after_name = self.lexer.pending();
                        proof {
                            assert(after_name =~= before.subrange(2, before.len() as int));
                        }
                        let d = self.parse_struct_definition(name, Vec::new(), true)?;
                        let ghost body = after_name.subrange(
                            0,
                            after_name.len() - self.lexer.pending().len(),
                        );
                        let ghost decl = seq![Tok::Identifier("struct"@), Tok::Identifier(d.name@)]
                            + body;
                        let ghost prev_done = done;
                        proof {
                            assert(after_name =~= body + self.lexer.pending());
                            lemma_list_alone(
                                after_name,
                                Tok::LeftBrace,
                                field_spellings(d.fields@),
                                Tok::RightBrace,
                                self.lexer.pending(),
                                true,
                                body,
                            );
                            assert(decl =~= seq![Tok::Identifier("struct"@)] + seq![
                                Tok::Identifier(d.name@),
                            ] + body);
                            assert(before =~= seq![Tok::Identifier("struct"@)] + after_word);
                            assert(after_word =~= seq![Tok::Identifier(d.name@)] + after_name);
                            assert(struct_spelled(decl, d, body, true));
                            done = done + decl;
                            assert(done.subrange(0, prev_done.len() as int) =~= prev_done);
                            assert(done.subrange(prev_done.len() as int, done.len() as int) =~= decl);
                            assert(start =~= done + self.lexer.pending());
                        }
                        let ghost prev_list = structs@;
                        let ghost d_name = d.name@;
                        structs.push(d);
                        proof {
                            assert forall|o: Seq<bool>, ss: Seq<StructDefinition>, es: Seq<EnumDefinition>, cs: Seq<Seq<bool>>|
                                #[trigger] decls_fit(start, o, ss, es, cs) && src_clean implies decls_alike(
                                structs@,
                                enums@,
                                ss.subrange(0, si + 1),
                                es.subrange(0, ei),
                            ) by {
                                assert(before[1] == after_word[0]);
                                lemma_alike_push_struct(prev_list, structs@, enums@, ss, es, si, ei);
                            }
                        }
                        proof {
                            let prev_order = order;
                            order = order.push(true);
                            assert(order.drop_last() =~= prev_order);
                            assert(structs@.drop_last() =~= prev_list);
                            assert(struct_spelled(
                                done.subrange(prev_done.len() as int, done.len() as int),
                                structs@.last(),
                                body,
                                true,
                            ));
                            assert(helpers_spelled(done, order, structs@, enums@, true));
                        }
                    } else if same_text(word.as_str(), "enum") {
                        let ghost after_word = self.lexer.pending();
                        proof {
                            assert(after_word =~= before.drop_first());
                            assert(before[0] == Tok::Identifier(word@));
                            assert forall|o: Seq<bool>, ss: Seq<StructDefinition>, es: Seq<EnumDefinition>, cs: Seq<Seq<bool>>|
                                #[trigger] decls_fit(start, o, ss, es, cs) && src_clean implies k < o.len()
                                && !o[k] && ei < es.len() by {}
                        }
                        let name = self.expect_identifier()?;
                        let ghost after_name = self.lexer.pending();
                        proof {
                            assert(after_name =~= before.subrange(2, before.len() as int));
                        }
                        let d = self.parse_enum_definition(name, Vec::new(), true, true)?;
                        let ghost body = after_name.subrange(
                            0,
                            after_name.len() - self.lexer.pending().len(),
                        );
                        let ghost decl = seq![Tok::Identifier("enum"@), Tok::Identifier(d.name@)]
                            + body;
                        let ghost prev_done = done;
                        proof {
                            assert(after_name =~= body + self.lexer.pending());
                            lemma_list_alone(
                                after_name,
                                Tok::LeftBrace,
                                variant_spellings(d.variants@),
                                Tok::RightBrace,
                                self.lexer.pending(),
                                true,
                                body,
                            );
                            assert(decl =~= seq![Tok::Identifier("enum"@)] + seq![
                                Tok::Identifier(d.name@),
                            ] + body);
                            assert(before =~= seq![Tok::Identifier("enum"@)] + after_word);
                            assert(after_word =~= seq![Tok::Identifier(d.name@)] + after_name);
                            assert(enum_spelled(decl, d, body, true));
                            done = done + decl;
                            assert(done.subrange(0, prev_done.len() as int) =~= prev_done);
                            assert(done.subrange(prev_done.len() as int, done.len() as int) =~= decl);
                            assert(start =~= done + self.lexer.pending());
                        }
                        let ghost prev_list = enums@;
                        let ghost d_name = d.name@;
                        enums.push(d);
                        proof {
                            assert forall|o: Seq<bool>, ss: Seq<StructDefinition>, es: Seq<EnumDefinition>, cs: Seq<Seq<bool>>|
                                #[trigger] decls_fit(start, o, ss, es, cs) && src_clean implies decls_alike(
                                structs@,
                                enums@,
                                ss.subrange(0, si),
                                es.subrange(0, ei + 1),
                            ) by {
                                assert(before[1] == after_word[0]);
                                lemma_alike_push_enum(structs@, prev_list, enums@, ss, es, si, ei);
                            }
                        }
                        proof {
                            let prev_order = order;
                            order = order.push(false);
                            assert(order.drop_last() =~= prev_order);
                            assert(enums@.drop_last() =~= prev_list);
                            assert(enum_spelled(
                                done.subrange(prev_done.len() as int, done.len() as int),
                                enums@.last(),
                                body,
                                true,
                            ));
                            assert(helpers_spelled(done, order, structs@, enums@, true));
                        }
                    } else {
                        return Err(Self::unsupported(&TokenKind::Identifier(word)));
                    }
                },
                other => {
                    return Err(Self::unsupported(&other));
                },
            }
        }
        proof {
            assert forall|o: Seq<bool>, ss: Seq<StructDefinition>, es: Seq<EnumDefinition>, cs: Seq<Seq<bool>>|
                #[trigger] decls_fit(start, o, ss, es, cs) && src_clean implies decls_alike(
                structs@,
                enums@,
                ss,
                es,
            ) && declared(structs@, enums@) == declared(ss, es) && helpers_known(
                structs@,
                enums@,
                declared(ss, es),
            ) == helpers_known(ss, es, declared(ss, es)) by {
                lemma_decl_step(
                    self.lexer.pending(),
                    o,
                    ss,
                    es,
                    cs,
                    order.len() as int,
                    structs@.len() as int,
                    enums@.len() as int,
                );
                assert(ss.subrange(0, ss.len() as int) =~= ss);
                assert(es.subrange(0, es.len() as int) =~= es);
                assert(declared(structs@, enums@) =~= declared(ss, es));
                lemma_helpers_known_alike(structs@, enums@, ss, es, declared(ss, es));
            }
        }
        let names = declared_names(&structs, &enums);
        check_helpers(&structs, &enums, &names)?;
        let d = Declarations { structs, enums };
        assert(helpers_spelled(tokens(old(self).source()), order, d.structs@, d.enums@, true));
        assert(declarations_spelled(tokens(old(self).source()), d));
        Ok(d)
    }
}

/// `(` for an enum of a schema, `{` for one declared with the `enum` keyword.
pub open spec fn opener(braced: bool) -> Tok {
    if braced {
        Tok::LeftBrace
    } else {
        Tok::LeftParen
    }
}

pub open spec fn closer(braced: bool) -> Tok {
    if braced {
        Tok::RightBrace
    } else {
        Tok::RightParen
    }
}

/// `toks` spells the input or output shape `io`, followed by `rest`.
pub open spec fn io_spelled(toks: Seq<Tok>, io: IOType, rest: Seq<Tok>) -> bool {
    match io {
        IOType::Type(t) => toks == type_spelling(t) + rest,
        IOType::Struct(d) => spells_list(
            toks,
            Tok::LeftBrace,
            field_spellings(d.fields@),
            Tok::RightBrace,
            rest,
            false,
        ),
        IOType::Enum(d) => spells_list(
            toks,
            Tok::LeftParen,
            variant_spellings(d.variants@),
            Tok::RightParen,
            rest,
            false,
        ),
    }
}


/// The message for a token that starts no declaration of the keyword form.
pub open spec fn unsupported_message(t: Tok) -> Seq<char> {
    "Only top-level structs and enums are supported, got "@ + describe(t)
}

/// The message for a reference to a name that no type declares.
pub open spec fn undefined_message(name: Seq<char>) -> Seq<char> {
    "Reference to undefined type: "@ + name
}

/// `e` reports a reference to a name that is not among `names`.
pub open spec fn reports_undefined(e: Error, names: Seq<Seq<char>>) -> bool {
    e matches Error::Message(m) && exists|n: Seq<char>|
        !names.contains(n) && m@ == #[trigger] undefined_message(n)
}

/// The names that the helper types declare, structs first.
pub open spec fn declared(structs: Seq<StructDefinition>, enums: Seq<EnumDefinition>) -> Seq<
    Seq<char>,
> {
    structs.map_values(|d: StructDefinition| d.name@) + enums.map_values(
        |d: EnumDefinition| d.name@,
    )
}

/// Every name that the shape refers to is among `names`.
pub open spec fn io_known(io: IOType, names: Seq<Seq<char>>) -> bool {
    match io {
        IOType::Type(t) => type_known(t, names),
        IOType::Struct(d) => fields_known(d.fields@, names),
        IOType::Enum(d) => variants_known(d.variants@, names),
    }
}

/// Every name that the file refers to is one of its helper types.
pub open spec fn file_known(f: FileNode) -> bool {
    let names = declared(f.structs@, f.enums@);
    &&& forall|i: int| 0 <= i < f.structs@.len() ==> fields_known(#[trigger] f.structs@[i].fields@, names)
    &&& forall|i: int| 0 <= i < f.enums@.len() ==> variants_known(#[trigger] f.enums@[i].variants@, names)
    &&& (f.input matches Some(io) ==> io_known(io, names))
    &&& (f.output matches Some(io) ==> io_known(io, names))
}

fn contains_name(names: &Vec<String>, name: &String) -> (r: bool)
    ensures
        r == texts(names@).contains(name@),
{
    let mut i: usize = 0;
    while i < names.len()
        invariant
            i <= names@.len(),
            forall|k: int| 0 <= k < i ==> names@[k]@ != name@,
        decreases names.len() - i,
    {
        if same_text(names[i].as_str(), name.as_str()) {
            assert(texts(names@)[i as int] == name@);
            return true;
        }
        i = i + 1;
    }
    assert forall|k: int| 0 <= k < texts(names@).len() implies texts(names@)[k] != name@ by {
        assert(texts(names@)[k] == names@[k]@);
    }
    false
}

/// Checks that every name the type refers to is among `names`.
pub fn check_type(t: &Type, names: &Vec<String>) -> (r: Result<(), Error>)
    ensures
        r is Ok <==> type_known(*t, texts(names@)),
        r matches Err(e) ==> reports_undefined(e, texts(names@)),
    decreases t,
{
    match t {
        Type::Named(n) => {
            if contains_name(names, n) {
                Ok(())
            } else {
                let e = Parser::undefined(n);
                assert(!texts(names@).contains(n@) && e->Message_0@ == undefined_message(n@));
                Err(e)
            }
        },
        Type::Optional(inner) => check_type(inner, names),
        Type::Array(inner) => check_type(inner, names),
        Type::Primitive(_) => Ok(()),
    }
}

/// Checks the fields' types against `names`.
pub fn check_fields(fields: &Vec<Field>, names: &Vec<String>) -> (r: Result<(), Error>)
    ensures
        r is Ok <==> fields_known(fields@, texts(names@)),
        r matches Err(e) ==> reports_undefined(e, texts(names@)),
{
    let mut i: usize = 0;
    while i < fields.len()
        invariant
            i <= fields@.len(),
            forall|k: int| 0 <= k < i ==> type_known(#[trigger] fields@[k].t, texts(names@)),
        decreases fields.len() - i,
    {
        check_type(&fields[i].t, names)?;
        i = i + 1;
    }
    Ok(())
}

/// Checks the variants' associated types against `names`.
pub fn check_variants(variants: &Vec<Variant>, names: &Vec<String>) -> (r: Result<(), Error>)
    ensures
        r is Ok <==> variants_known(variants@, texts(names@)),
        r matches Err(e) ==> reports_undefined(e, texts(names@)),
{
    let mut i: usize = 0;
    while i < variants.len()
        invariant
            i <= variants@.len(),
            forall|k: int|
                0 <= k < i ==> (#[trigger] variants@[k].t matches Some(t) ==> type_known(
                    t,
                    texts(names@),
                )),
        decreases variants.len() - i,
    {
        match &variants[i].t {
            Some(t) => check_type(t, names)?,
            None => {},
        }
        i = i + 1;
    }
    Ok(())
}

/// Checks an input or output shape against `names`.
pub fn check_io(io: &IOType, names: &Vec<String>) -> (r: Result<(), Error>)
    ensures
        r is Ok <==> io_known(*io, texts(names@)),
        r matches Err(e) ==> reports_undefined(e, texts(names@)),
{
    match io {
        IOType::Type(t) => check_type(t, names),
        IOType::Struct(d) => check_fields(&d.fields, names),
        IOType::Enum(d) => check_variants(&d.variants, names),
    }
}

/// The names that the helper types declare, structs first.
pub fn declared_names(structs: &Vec<StructDefinition>, enums: &Vec<EnumDefinition>) -> (r: Vec<
    String,
>)
    ensures
        texts(r@) == declared(structs@, enums@),
{
    let mut r: Vec<String> = Vec::new();
    let mut i: usize = 0;
    while i < structs.len()
        invariant
            i <= structs@.len(),
            texts(r@) == structs@.subrange(0, i as int).map_values(|d: StructDefinition| d.name@),
        decreases structs.len() - i,
    {
        let ghost prev = r@;
        let nm = structs[i].name.clone();
        r.push(nm);
        assert(texts(r@) =~= texts(prev).push(nm@));
        assert(structs@.subrange(0, i + 1).map_values(|d: StructDefinition| d.name@)
            =~= structs@.subrange(0, i as int).map_values(|d: StructDefinition| d.name@).push(
            structs@[i as int].name@,
        ));
        assert(texts(r@) =~= structs@.subrange(0, i + 1).map_values(
            |d: StructDefinition| d.name@,
        ));
        i = i + 1;
    }
    assert(structs@.subrange(0, structs@.len() as int) =~= structs@);
    let ghost first = texts(r@);
    let mut j: usize = 0;
    while j < enums.len()
        invariant
            j <= enums@.len(),
            first == structs@.map_values(|d: StructDefinition| d.name@),
            texts(r@) == first + enums@.subrange(0, j as int).map_values(|d: EnumDefinition| d.name@),
        decreases enums.len() - j,
    {
        let ghost prev = r@;
        let nm = enums[j].name.clone();
        r.push(nm);
        assert(texts(r@) =~= texts(prev).push(nm@));
        assert(enums@.subrange(0, j + 1).map_values(|d: EnumDefinition| d.name@)
            =~= enums@.subrange(0, j as int).map_values(|d: EnumDefinition| d.name@).push(
            enums@[j as int].name@,
        ));
        assert(texts(r@) =~= first + enums@.subrange(0, j + 1).map_values(
            |d: EnumDefinition| d.name@,
        ));
        j = j + 1;
    }
    assert(enums@.subrange(0, enums@.len() as int) =~= enums@);
    r
}

/// Checks every reference of the helper types against `names`.
pub fn check_helpers(
    structs: &Vec<StructDefinition>,
    enums: &Vec<EnumDefinition>,
    names: &Vec<String>,
) -> (r: Result<(), Error>)
    ensures
        r is Ok <==> (forall|i: int|
            0 <= i < structs@.len() ==> fields_known(#[trigger] structs@[i].fields@, texts(names@)))
            && (forall|i: int|
            0 <= i < enums@.len() ==> variants_known(#[trigger] enums@[i].variants@, texts(names@))),
        r matches Err(e) ==> reports_undefined(e, texts(names@)),
{
    let mut i: usize = 0;
    while i < structs.len()
        invariant
            i <= structs@.len(),
            forall|k: int| 0 <= k < i ==> fields_known(#[trigger] structs@[k].fields@, texts(names@)),
        decreases structs.len() - i,
    {
        check_fields(&structs[i].fields, names)?;
        i = i + 1;
    }
    let mut j: usize = 0;
    while j < enums.len()
        invariant
            j <= enums@.len(),
            forall|k: int| 0 <= k < structs@.len() ==> fields_known(#[trigger] structs@[k].fields@, texts(names@)),
            forall|k: int| 0 <= k < j ==> variants_known(#[trigger] enums@[k].variants@, texts(names@)),
        decreases enums.len() - j,
    {
        check_variants(&enums[j].variants, names)?;
        j = j + 1;
    }
    Ok(())
}

/// `toks` is `@input` and its shape, optionally followed by `@output` and its
/// shape, or `@output` and its shape alone; then `rest`.
pub open spec fn io_section(
    toks: Seq<Tok>,
    input: Option<IOType>,
    output: Option<IOType>,
    rest: Seq<Tok>,
) -> bool {
    match (input, output) {
        (Some(i), None) => exists|x: Seq<Tok>|
            toks == seq![Tok::At, Tok::Identifier("input"@)] + x && #[trigger] io_spelled(x, i, rest)
                && !(rest.len() > 0 && rest[0] == Tok::At),
        (Some(i), Some(o)) => exists|x: Seq<Tok>, y: Seq<Tok>|
            toks == seq![Tok::At, Tok::Identifier("input"@)] + x && #[trigger] io_spelled(x, i, y)
                && y.len() >= 2 && y.subrange(0, 2) == seq![Tok::At, Tok::Identifier("output"@)]
                && io_spelled(y.subrange(2, y.len() as int), o, rest),
        (None, Some(o)) => exists|x: Seq<Tok>|
            toks == seq![Tok::At, Tok::Identifier("output"@)] + x && #[trigger] io_spelled(x, o, rest),
        (None, None) => false,
    }
}

/// The tokens after the `k`-th rule `---`, if there are `k` rules.
pub open spec fn after_rules(s: Seq<Tok>, k: nat) -> Option<Seq<Tok>>
    decreases s.len(),
{
    if k == 0 {
        Some(s)
    } else if s.len() == 0 {
        None
    } else if s[0] == Tok::Rule {
        after_rules(s.drop_first(), (k - 1) as nat)
    } else {
        after_rules(s.drop_first(), k)
    }
}

/// `@a @b ...` for the annotations `a`, `b`, ...
pub open spec fn annotation_spelling(annotations: Seq<Seq<char>>) -> Seq<Tok>
    decreases annotations.len(),
{
    if annotations.len() == 0 {
        Seq::empty()
    } else {
        annotation_spelling(annotations.drop_last()) + seq![
            Tok::At,
            Tok::Identifier(annotations.last()),
        ]
    }
}

/// A list spelled before `rest` is spelled by what precedes `rest` alone.
#[verifier::rlimit(80)]
#[verifier::spinoff_prover]
proof fn lemma_list_alone(
    toks: Seq<Tok>,
    open: Tok,
    items: Seq<Seq<Tok>>,
    close: Tok,
    rest: Seq<Tok>,
    strict: bool,
    body: Seq<Tok>,
)
    requires
        spells_list(toks, open, items, close, rest, strict),
        toks == body + rest,
    ensures
        spells_list(body, open, items, close, Seq::empty(), strict),
{
    let commas = choose|commas: Seq<bool>|
        commas.len() == items.len() && commas_fit(commas, strict) && toks == seq![open]
            + #[trigger] with_commas(items, commas) + seq![close] + rest;
    let list = seq![open] + with_commas(items, commas) + seq![close];
    assert(toks =~= list + rest);
    assert(body.len() == list.len());
    assert(body =~= toks.subrange(0, body.len() as int));
    assert(list =~= toks.subrange(0, list.len() as int));
    assert(body =~= list + Seq::empty());
}

/// `toks` declares the struct `d`, followed by nothing. In a schema: its
/// annotations, its name, and `body`, which spells its fields between braces.
/// In the keyword form: `struct`, its name, and `body`, with a comma after
/// every field but the last.
pub open spec fn struct_spelled(
    toks: Seq<Tok>,
    d: StructDefinition,
    body: Seq<Tok>,
    keyword_form: bool,
) -> bool {
    &&& toks == (if keyword_form {
        seq![Tok::Identifier("struct"@)]
    } else {
        annotation_spelling(texts(d.annotations@))
    }) + seq![Tok::Identifier(d.name@)] + body
    &&& spells_list(
        body,
        Tok::LeftBrace,
        field_spellings(d.fields@),
        Tok::RightBrace,
        Seq::empty(),
        keyword_form,
    )
}

/// `toks` declares the enum `d`, followed by nothing. In a schema: its
/// annotations, its name, and `body`, which spells its variants between
/// parentheses. In the keyword form: `enum`, its name, and `body`, between
/// braces, with a comma after every variant but the last.
pub open spec fn enum_spelled(
    toks: Seq<Tok>,
    d: EnumDefinition,
    body: Seq<Tok>,
    keyword_form: bool,
) -> bool {
    &&& toks == (if keyword_form {
        seq![Tok::Identifier("enum"@)]
    } else {
        annotation_spelling(texts(d.annotations@))
    }) + seq![Tok::Identifier(d.name@)] + body
    &&& spells_list(
        body,
        opener(keyword_form),
        variant_spellings(d.variants@),
        closer(keyword_form),
        Seq::empty(),
        keyword_form,
    )
}

/// `toks` declares the structs and the enums one after another, in the
/// interleaving that `order` gives (`true` for a struct).
pub open spec fn helpers_spelled(
    toks: Seq<Tok>,
    order: Seq<bool>,
    structs: Seq<StructDefinition>,
    enums: Seq<EnumDefinition>,
    keyword_form: bool,
) -> bool
    decreases order.len(),
{
    if order.len() == 0 {
        toks.len() == 0 && structs.len() == 0 && enums.len() == 0
    } else if order.last() {
        structs.len() > 0 && exists|k: int, body: Seq<Tok>|
            0 <= k <= toks.len() && helpers_spelled(
                toks.subrange(0, k),
                order.drop_last(),
                structs.drop_last(),
                enums,
                keyword_form,
            ) && #[trigger] struct_spelled(
                toks.subrange(k, toks.len() as int),
                structs.last(),
                body,
                keyword_form,
            )
    } else {
        enums.len() > 0 && exists|k: int, body: Seq<Tok>|
            0 <= k <= toks.len() && helpers_spelled(
                toks.subrange(0, k),
                order.drop_last(),
                structs,
                enums.drop_last(),
                keyword_form,
            ) && #[trigger] enum_spelled(
                toks.subrange(k, toks.len() as int),
                enums.last(),
                body,
                keyword_form,
            )
    }
}

/// `toks` is the declarations up to offset `k`, then annotations that no
/// declaration follows.
pub open spec fn helpers_split(
    toks: Seq<Tok>,
    order: Seq<bool>,
    structs: Seq<StructDefinition>,
    enums: Seq<EnumDefinition>,
    k: int,
    trailing: Seq<Seq<char>>,
) -> bool {
    &&& 0 <= k <= toks.len()
    &&& helpers_spelled(toks.subrange(0, k), order, structs, enums, false)
    &&& toks.subrange(k, toks.len() as int) == annotation_spelling(trailing)
}

/// `toks` is the helper section that declares `structs` and `enums`.
pub open spec fn helpers_section(
    toks: Seq<Tok>,
    structs: Seq<StructDefinition>,
    enums: Seq<EnumDefinition>,
) -> bool {
    exists|order: Seq<bool>, k: int, trailing: Seq<Seq<char>>|
        #[trigger] helpers_split(toks, order, structs, enums, k, trailing)
}

/// The text of an optional string.
pub open spec fn text_of(o: Option<String>) -> Option<Seq<char>> {
    match o {
        Some(s) => Some(s@),
        None => None,
    }
}

/// `toks` spells the route's metadata, then its input and output.
pub open spec fn route_spelled(toks: Seq<Tok>, f: FileNode) -> bool {
    exists|mid: Seq<Tok>|
        #[trigger] metadata_spelled(toks, f.name@, text_of(f.description), f.authed, mid) && exists|
            rest: Seq<Tok>,
        | #[trigger] io_section(mid, f.input, f.output, rest)
}

/// `description: "..."` or `authed: true|false`.
pub open spec fn is_entry(e: Seq<Tok>) -> bool {
    &&& e.len() == 3
    &&& e[1] == Tok::Colon
    &&& (e[0] == Tok::Identifier("description"@) && e[2] is StringLiteral) || (e[0]
        == Tok::Identifier("authed"@) && e[2] is BoolLiteral)
}

/// The entries one after another.
pub open spec fn joined(entries: Seq<Seq<Tok>>) -> Seq<Tok>
    decreases entries.len(),
{
    if entries.len() == 0 {
        Seq::empty()
    } else {
        joined(entries.drop_last()) + entries.last()
    }
}

/// The description that the last `description` entry gives, if any.
pub open spec fn described(entries: Seq<Seq<Tok>>) -> Option<Seq<char>>
    decreases entries.len(),
{
    if entries.len() == 0 {
        None
    } else if entries.last()[0] == Tok::Identifier("description"@) {
        Some(entries.last()[2]->StringLiteral_0)
    } else {
        described(entries.drop_last())
    }
}

/// What the last `authed` entry says; `false` without one.
pub open spec fn authed_by(entries: Seq<Seq<Tok>>) -> bool
    decreases entries.len(),
{
    if entries.len() == 0 {
        false
    } else if entries.last()[0] == Tok::Identifier("authed"@) {
        entries.last()[2]->BoolLiteral_0
    } else {
        authed_by(entries.drop_last())
    }
}

/// `toks` is `name: "<name>"`, the entries, and a rule (where `ended` holds;
/// else nothing is left), followed by `rest`.
pub open spec fn is_metadata(
    toks: Seq<Tok>,
    name: Seq<char>,
    entries: Seq<Seq<Tok>>,
    ended: bool,
    rest: Seq<Tok>,
) -> bool {
    &&& forall|i: int| 0 <= i < entries.len() ==> is_entry(#[trigger] entries[i])
    &&& toks == seq![Tok::Identifier("name"@), Tok::Colon, Tok::StringLiteral(name)] + joined(
        entries,
    ) + (if ended {
        seq![Tok::Rule]
    } else {
        Seq::empty()
    }) + rest
    &&& !ended ==> rest.len() == 0
}

/// `toks` spells a route's metadata, followed by `rest`: `name: "<name>"`,
/// entries that give the description and the `authed` flag (the last one of
/// each counts), and the rule that ends the section.
pub open spec fn metadata_spelled(
    toks: Seq<Tok>,
    name: Seq<char>,
    description: Option<Seq<char>>,
    authed: bool,
    rest: Seq<Tok>,
) -> bool {
    exists|entries: Seq<Seq<Tok>>, ended: bool|
        #[trigger] is_metadata(
            toks,
            name,
            entries,
            ended,
            rest,
        ) && described(entries) == description && authed_by(entries) == authed
}

/// `s` begins with `name: "..."` and whole entries up to a rule at `k`.
pub open spec fn plain_shape(s: Seq<Tok>, k: int) -> bool {
    &&& 3 <= k < s.len()
    &&& (k - 3) % 3 == 0
    &&& s[0] == Tok::Identifier("name"@)
    &&& s[1] == Tok::Colon
    &&& s[2] is StringLiteral
    &&& s[k] == Tok::Rule
    &&& forall|j: int|
        0 <= j < (k - 3) / 3 ==> #[trigger] is_entry(s.subrange(3 + 3 * j, 6 + 3 * j))
}

/// `s` begins with well-formed metadata: `name: "..."`, entries, and a rule.
pub open spec fn plain_metadata(s: Seq<Tok>) -> bool {
    exists|k: int| plain_shape(s, k)
}

/// Where the rule that ends well-formed metadata stands.
pub open spec fn metadata_end(s: Seq<Tok>) -> int {
    choose|k: int| plain_shape(s, k)
}

/// No rule stands before the one that ends well-formed metadata.
#[verifier::rlimit(80)]
#[verifier::spinoff_prover]
proof fn lemma_no_rule_before_end(s: Seq<Tok>, k: int)
    requires
        plain_shape(s, k),
    ensures
        forall|i: int| 0 <= i < k ==> s[i] != Tok::Rule,
{
    assert forall|i: int| 0 <= i < k implies s[i] != Tok::Rule by {
        if i >= 3 {
            let j = (i - 3) / 3;
            assert(0 <= j < (k - 3) / 3);
            let t = s.subrange(3 + 3 * j, 6 + 3 * j);
            assert(is_entry(t));
            assert(t[i - 3 - 3 * j] == s[i]);
        }
    }
}

/// Tokens without a rule do not count towards the rules that
/// [`after_rules`] passes.
#[verifier::rlimit(80)]
#[verifier::spinoff_prover]
proof fn lemma_after_rules_skip(x: Seq<Tok>, y: Seq<Tok>, k: nat)
    requires
        k > 0,
        forall|i: int| 0 <= i < x.len() ==> x[i] != Tok::Rule,
    ensures
        after_rules(x + y, k) == after_rules(y, k),
    decreases x.len(),
{
    if x.len() > 0 {
        assert((x + y).drop_first() =~= x.drop_first() + y);
        lemma_after_rules_skip(x.drop_first(), y, k);
    } else {
        assert(x + y =~= y);
    }
}

/// Well-formed metadata that nothing follows holds a single rule, so no
/// helper section.
#[verifier::rlimit(80)]
#[verifier::spinoff_prover]
proof fn lemma_metadata_alone_has_no_helpers(s: Seq<Tok>, k: int)
    requires
        plain_shape(s, k),
        k == s.len() - 1,
    ensures
        after_rules(s, 2) is None,
{
    lemma_no_rule_before_end(s, k);
    let x = s.subrange(0, k);
    let y = seq![Tok::Rule];
    assert(s =~= x + y);
    lemma_after_rules_skip(x, y, 2);
    assert(y.drop_first().len() == 0);
    assert(after_rules(y.drop_first(), 1) is None);
}

/// Well-formed metadata, no second rule, and no `@` right after the rule
/// that ends the metadata.
pub open spec fn no_io_after_metadata(s: Seq<Tok>) -> bool {
    &&& plain_metadata(s)
    &&& after_rules(s, 2) is None
    &&& !(metadata_end(s) + 1 < s.len() && s[metadata_end(s) + 1] == Tok::At)
}

/// An optional shape refers only to names among `names`.
pub open spec fn optional_io_known(io: Option<IOType>, names: Seq<Seq<char>>) -> bool {
    match io {
        Some(x) => io_known(x, names),
        None => true,
    }
}

/// `s` is a route without helper types: well-formed metadata, then the
/// input and output section with nothing after it, naming no type.
pub open spec fn route_without_helpers(
    s: Seq<Tok>,
    input: Option<IOType>,
    output: Option<IOType>,
    input_commas: Seq<bool>,
    output_commas: Seq<bool>,
    mid: Seq<Tok>,
) -> bool {
    &&& plain_metadata(s)
    &&& after_rules(s, 2) is None
    &&& io_section_fits(
        s.subrange(metadata_end(s) + 1, s.len() as int),
        input,
        output,
        input_commas,
        output_commas,
        mid,
        Seq::empty(),
        true,
    )
    &&& optional_io_known(input, Seq::empty())
    &&& optional_io_known(output, Seq::empty())
}

/// Every name that the helper types refer to is among `names`.
pub open spec fn helpers_known(
    ss: Seq<StructDefinition>,
    es: Seq<EnumDefinition>,
    names: Seq<Seq<char>>,
) -> bool {
    &&& forall|i: int| 0 <= i < ss.len() ==> fields_known(#[trigger] ss[i].fields@, names)
    &&& forall|i: int| 0 <= i < es.len() ==> variants_known(#[trigger] es[i].variants@, names)
}

/// Helper types that match refer to the same names.
#[verifier::rlimit(80)]
#[verifier::spinoff_prover]
pub proof fn lemma_helpers_known_alike(
    structs: Seq<StructDefinition>,
    enums: Seq<EnumDefinition>,
    ss: Seq<StructDefinition>,
    es: Seq<EnumDefinition>,
    names: Seq<Seq<char>>,
)
    requires
        decls_alike(structs, enums, ss, es),
    ensures
        helpers_known(structs, enums, names) == helpers_known(ss, es, names),
        declared(structs, enums) == declared(ss, es),
{
    assert forall|i: int| 0 <= i < ss.len() implies fields_known(#[trigger] ss[i].fields@, names)
        == fields_known(structs[i].fields@, names) by {
        assert(structs[i].name@ == ss[i].name@);
        lemma_io_known_by_shape(IOType::Struct(structs[i]), IOType::Struct(ss[i]), names);
    }
    assert forall|i: int| 0 <= i < structs.len() implies fields_known(
        #[trigger] structs[i].fields@,
        names,
    ) == fields_known(ss[i].fields@, names) by {
        assert(structs[i].name@ == ss[i].name@);
        lemma_io_known_by_shape(IOType::Struct(structs[i]), IOType::Struct(ss[i]), names);
    }
    assert forall|i: int| 0 <= i < es.len() implies variants_known(#[trigger] es[i].variants@, names)
        == variants_known(enums[i].variants@, names) by {
        assert(enums[i].name@ == es[i].name@);
        lemma_io_known_by_shape(IOType::Enum(enums[i]), IOType::Enum(es[i]), names);
    }
    assert forall|i: int| 0 <= i < enums.len() implies variants_known(
        #[trigger] enums[i].variants@,
        names,
    ) == variants_known(es[i].variants@, names) by {
        assert(enums[i].name@ == es[i].name@);
        lemma_io_known_by_shape(IOType::Enum(enums[i]), IOType::Enum(es[i]), names);
    }
    assert(declared(structs, enums) =~= declared(ss, es));
}

/// `s` is a route with helper types: well-formed metadata, the input and
/// output section, the second rule, and the helper section `h`.
pub open spec fn route_with_helpers(
    s: Seq<Tok>,
    input: Option<IOType>,
    output: Option<IOType>,
    input_commas: Seq<bool>,
    output_commas: Seq<bool>,
    mid: Seq<Tok>,
    order: Seq<bool>,
    ss: Seq<StructDefinition>,
    es: Seq<EnumDefinition>,
    cs: Seq<Seq<bool>>,
    trailing: Seq<Seq<char>>,
) -> bool {
    &&& plain_metadata(s)
    &&& after_rules(s, 2) is Some
    &&& io_section_fits(
        s.subrange(metadata_end(s) + 1, s.len() as int),
        input,
        output,
        input_commas,
        output_commas,
        mid,
        seq![Tok::Rule] + after_rules(s, 2)->0,
        true,
    )
    &&& helpers_fit(after_rules(s, 2)->0, order, ss, es, cs, trailing, 0)
}

/// After the second rule stands a well-formed helper section that declares
/// every name it refers to.
pub open spec fn helpers_after_rules(
    s: Seq<Tok>,
    order: Seq<bool>,
    ss: Seq<StructDefinition>,
    es: Seq<EnumDefinition>,
    cs: Seq<Seq<bool>>,
    trailing: Seq<Seq<char>>,
) -> bool {
    &&& after_rules(s, 2) is Some
    &&& helpers_fit(after_rules(s, 2)->0, order, ss, es, cs, trailing, 0)
    &&& helpers_known(ss, es, declared(ss, es))
}

/// Every name that the route refers to is one of its helper types.
pub open spec fn route_known(
    input: Option<IOType>,
    output: Option<IOType>,
    ss: Seq<StructDefinition>,
    es: Seq<EnumDefinition>,
) -> bool {
    &&& helpers_known(ss, es, declared(ss, es))
    &&& optional_io_known(input, declared(ss, es))
    &&& optional_io_known(output, declared(ss, es))
}

pub open spec fn missing_io_message() -> Seq<char> {
    "Route must have input, output, or both"@
}

} // verus!