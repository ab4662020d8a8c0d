//! The schema that documents a library's methods and types: plain data, plus
//! the one derivation step that builds a `Method` description from the
//! declared parameter and result types of a function.
use vstd::prelude::*;

verus! {

/// A whole documented interface.
pub struct API {
    pub version: String,
    pub methods: Vec<Method>,
    pub types: Vec<Field>,
}

/// One documented method.
pub struct Method {
    pub name: String,
    pub summary: Option<String>,
    pub description: Option<String>,
    pub params: Vec<Field>,
    pub result: Type,
    pub errors: Option<Vec<Error>>,
}

/// A named, typed and documented field or parameter.
pub struct Field {
    pub name: String,
    pub value: Type,
    pub summary: Option<String>,
    pub description: Option<String>,
}

/// A constant's value, kept in its source spelling.
pub enum ConstValue {
    Nothing,
    Bool(String),
    Text(String),
    Number(String),
}

/// One documented constant.
pub struct Const {
    pub name: String,
    pub value: ConstValue,
    pub summary: Option<String>,
    pub description: Option<String>,
}

/// The type language of the schema.
pub enum Type {
    Nothing,
    Any,
    Boolean,
    Text,
    Number,
    BigInt,
    Ref(String),
    Optional(Box<Type>),
    Array(Box<Type>),
    Struct(Vec<Field>),
    EnumOfConsts(Vec<Const>),
    EnumOfTypes(Vec<Field>),
    Generic { name: String, args: Vec<Type> },
}

/// One documented error.
pub struct Error {
    pub code: i32,
    pub message: String,
    pub data: Type,
}

/// Mathematical model of `Type`.
pub ghost enum TypeV {
    Nothing,
    Any,
    Boolean,
    Text,
    Number,
    BigInt,
    Ref(Seq<char>),
    Optional(Box<TypeV>),
    Array(Box<TypeV>),
    Struct(Seq<FieldV>),
    EnumOfConsts(Seq<ConstV>),
    EnumOfTypes(Seq<FieldV>),
    Generic(Seq<char>, Seq<TypeV>),
}

/// Mathematical model of `Field`.
pub ghost struct FieldV {
    pub name: Seq<char>,
    pub value: TypeV,
    pub summary: Option<Seq<char>>,
    pub description: Option<Seq<char>>,
}

/// Mathematical model of `ConstValue`.
pub ghost enum ConstValueV {
    Nothing,
    Bool(Seq<char>),
    Text(Seq<char>),
    Number(Seq<char>),
}

/// Mathematical model of `Const`.
pub ghost struct ConstV {
    pub name: Seq<char>,
    pub value: ConstValueV,
    pub summary: Option<Seq<char>>,
    pub description: Option<Seq<char>>,
}

/// Mathematical model of `Error`.
pub ghost struct ErrorV {
    pub code: i32,
    pub message: Seq<char>,
    pub data: TypeV,
}

/// View of an optional string.
pub open spec fn opt_str(o: Option<String>) -> Option<Seq<char>> {
    match o {
        Some(s) => Some(s@),
        None => None,
    }
}

pub open spec fn type_v(t: Type) -> TypeV
    decreases t,
{
    match t {
        Type::Nothing => TypeV::Nothing,
        Type::Any => TypeV::Any,
        Type::Boolean => TypeV::Boolean,
        Type::Text => TypeV::Text,
        Type::Number => TypeV::Number,
        Type::BigInt => TypeV::BigInt,
        Type::Ref(s) => TypeV::Ref(s@),
        Type::Optional(b) => TypeV::Optional(Box::new(type_v(*b))),
        Type::Array(b) => TypeV::Array(Box::new(type_v(*b))),
        Type::Struct(fs) => TypeV::Struct(fields_v(fs@)),
        Type::EnumOfConsts(cs) => TypeV::EnumOfConsts(consts_v(cs@)),
        Type::EnumOfTypes(fs) => TypeV::EnumOfTypes(fields_v(fs@)),
        Type::Generic { name, args } => TypeV::Generic(name@, types_v(args@)),
    }
}

pub open spec fn field_v(f: Field) -> FieldV
    decreases f,
{
    FieldV {
        name: f.name@,
        value: type_v(f.value),
        summary: opt_str(f.summary),
        description: opt_str(f.description),
    }
}

pub open spec fn fields_v(fs: Seq<Field>) -> Seq<FieldV>
    decreases fs,
{
    if fs.len() == 0 {
        Seq::empty()
    } else {
        fields_v(fs.drop_last()).push(field_v(fs.last()))
    }
}

pub open spec fn const_v(c: Const) -> ConstV
    decreases c,
{
    ConstV {
        name: c.name@,
        value: match c.value {
            ConstValue::Nothing => ConstValueV::Nothing,
            ConstValue::Bool(s) => ConstValueV::Bool(s@),
            ConstValue::Text(s) => ConstValueV::Text(s@),
            ConstValue::Number(s) => ConstValueV::Number(s@),
        },
        summary: opt_str(c.summary),
        description: opt_str(c.description),
    }
}

pub open spec fn consts_v(cs: Seq<Const>) -> Seq<ConstV>
    decreases cs,
{
    if cs.len() == 0 {
        Seq::empty()
    } else {
        consts_v(cs.drop_last()).push(const_v(cs.last()))
    }
}

pub open spec fn types_v(ts: Seq<Type>) -> Seq<TypeV>
    decreases ts,
{
    if ts.len() == 0 {
        Seq::empty()
    } else {
        types_v(ts.drop_last()).push(type_v(ts.last()))
    }
}

impl View for Type {
    type V = TypeV;

    open spec fn view(&self) -> TypeV {
        type_v(*self)
    }
}

impl View for Field {
    type V = FieldV;

    open spec fn view(&self) -> FieldV {
        field_v(*self)
    }
}

/// What a documented type reports about itself.
pub struct TypeDoc {
    pub summary: Option<String>,
    pub description: Option<String>,
    pub value: Type,
}

/// Mathematical model of `TypeDoc`.
pub ghost struct TypeDocV {
    pub summary: Option<Seq<char>>,
    pub description: Option<Seq<char>>,
    pub value: TypeV,
}

pub open spec fn type_doc_v(d: TypeDoc) -> TypeDocV {
    TypeDocV {
        summary: opt_str(d.summary),
        description: opt_str(d.description),
        value: type_v(d.value),
    }
}

/// A type that can describe itself for the schema. `info_spec` is the
/// description it promises; `type_info` delivers exactly that description.
pub trait TypeInfo {
    spec fn info_spec() -> TypeDocV;

    fn type_info() -> (r: TypeDoc)
        ensures
            type_doc_v(r) == Self::info_spec(),
    ;
}

impl TypeInfo for bool {
    open spec fn info_spec() -> TypeDocV {
        TypeDocV { summary: None, description: None, value: TypeV::Boolean }
    }

    fn type_info() -> (r: TypeDoc) {
        TypeDoc { summary: None, description: None, value: Type::Boolean }
    }
}

impl TypeInfo for u32 {
    open spec fn info_spec() -> TypeDocV {
        TypeDocV { summary: None, description: None, value: TypeV::Number }
    }

    fn type_info() -> (r: TypeDoc) {
        TypeDoc { summary: None, description: None, value: Type::Number }
    }
}

impl TypeInfo for String {
    open spec fn info_spec() -> TypeDocV {
        TypeDocV { summary: None, description: None, value: TypeV::Text }
    }

    fn type_info() -> (r: TypeDoc) {
        TypeDoc { summary: None, description: None, value: Type::Text }
    }
}

/// What the params list of a derived method is: the fields of a struct-typed
/// parameter description, or one synthetic parameter named "param".
pub open spec fn spec_method_params(p: TypeDocV) -> Seq<FieldV> {
    match p.value {
        TypeV::Struct(fs) => fs,
        _ => seq![
            FieldV { name: "param"@, value: p.value, summary: None, description: None },
        ],
    }
}

impl Method {
    /// Builds the description of a method named `name` whose parameters are
    /// described by `P` and whose result is described by `R`: a struct-typed
    /// `P` contributes its fields as the parameter list, anything else
    /// becomes a single parameter named "param"; the summary and description
    /// come from `P` first, from `R` as a fallback; no errors are recorded.
    pub fn from_types<P: TypeInfo, R: TypeInfo>(name: &str) -> (m: Method)
        ensures
            m.name@ == name@,
            opt_str(m.summary) == (if P::info_spec().summary is Some {
                P::info_spec().summary
            } else {
                R::info_spec().summary
            }),
            opt_str(m.description) == (if P::info_spec().description is Some {
                P::info_spec().description
            } else {
                R::info_spec().description
            }),
            fields_v(m.params@) == spec_method_params(P::info_spec()),
            type_v(m.result) == R::info_spec().value,
            m.errors is None,
    {
        let p = P::type_info();
        let r = R::type_info();
        let summary = if p.summary.is_some() {
            p.summary
        } else {
            r.summary
        };
        let description = if p.description.is_some() {
            p.description
        } else {
            r.description
        };
        let params: Vec<Field> = match p.value {
            Type::Struct(fields) => fields,
            other => {
                let mut one: Vec<Field> = Vec::new();
                one.push(
                    Field {
                        name: "param".to_owned(),
                        summary: None,
                        description: None,
                        value: other,
                    },
                );
                proof {
                    lemma_fields_v(one@);
                    assert(fields_v(one@) =~= spec_method_params(P::info_spec()));
                }
                one
            },
        };
        Method { name: name.to_owned(), summary, description, params, result: r.value, errors: None }
    }
}

pub proof fn lemma_fields_v(fs: Seq<Field>)
    ensures
        fields_v(fs).len() == fs.len(),
        forall|i: int| 0 <= i < fs.len() ==> fields_v(fs)[i] == field_v(#[trigger] fs[i]),
    decreases fs,
{
    if fs.len() > 0 {
        lemma_fields_v(fs.drop_last());
        assert forall|i: int| 0 <= i < fs.len() implies fields_v(fs)[i] == field_v(
            #[trigger] fs[i],
        ) by {
            if i < fs.len() - 1 {
                assert(fs.drop_last()[i] == fs[i]);
            }
        }
    }
}

} // verus!
