//! The message schema of the ROS 2 `.msg` language: message identifiers,
//! messages, fields, field types and repetitions.
use std::sync::Arc;
use vstd::prelude::*;

pub mod parse;
pub mod table;

pub use parse::{get, parse, parse_name_parts, try_parse, Error};
pub use table::MessageTable;



verus! {

/// The type of a field: a primitive or a nested message.
#[derive(Debug, Hash, PartialEq, Eq, Clone)]
pub enum Type {
    Bool,
    I8,
    I16,
    I32,
    I64,
    U8,
    U16,
    U32,
    U64,
    F32,
    F64,
    Str,
    Msg(Arc<Msg>),
}

/// A message name: its package and its name within the package.
#[derive(Debug, Hash, PartialEq, Eq, Clone)]
pub struct MsgId {
    pub package: String,
    pub name: String,
}

impl View for MsgId {
    type V = (Seq<char>, Seq<char>);

    open spec fn view(&self) -> (Seq<char>, Seq<char>) {
        (self.package@, self.name@)
    }
}

impl MsgId {
    pub fn new(package: &str, name: &str) -> (id: MsgId)
        ensures
            id@ == (package@, name@),
    {
        MsgId { package: package.to_owned(), name: name.to_owned() }
    }

    /// Whether two identifiers name the same message.
    pub fn same(&self, other: &MsgId) -> (b: bool)
        ensures
            b == (self@ == other@),
    {
        self.package == other.package && self.name == other.name
    }

    /// A copy of the identifier.
    pub fn copy(&self) -> (id: MsgId)
        ensures
            id@ == self@,
    {
        MsgId { package: self.package.clone(), name: self.name.clone() }
    }
}

/// A message: its fields in order (constants are not kept).
#[derive(Debug, Hash, PartialEq, Eq, Clone)]
pub struct Msg {
    pub fields: Vec<Field>,
}

#[derive(Debug, Hash, PartialEq, Eq, Clone)]
pub struct Field {
    pub name: String,
    pub ty: Type,
    pub repitition: Repitition,
}

/// How many values a field holds: one, an array of at most or exactly
/// a given length, or an array of any length.
#[derive(Debug, Hash, PartialEq, Eq, Clone, Copy)]
pub enum Repitition {
    Single,
    Bounded(usize),
    Fixed(usize),
    Unbounded,
}

/// A field type as a plain value.
pub enum TypeV {
    Bool,
    I8,
    I16,
    I32,
    I64,
    U8,
    U16,
    U32,
    U64,
    F32,
    F64,
    Str,
    Msg(MsgV),
}

/// A field as a plain value.
pub struct FieldV {
    pub name: Seq<char>,
    pub ty: TypeV,
    pub repitition: Repitition,
}

/// A message as a plain value.
pub struct MsgV {
    pub fields: Seq<FieldV>,
}

pub open spec fn type_view(t: Type) -> TypeV
    decreases t, 0nat,
{
    match t {
        Type::Bool => TypeV::Bool,
        Type::I8 => TypeV::I8,
        Type::I16 => TypeV::I16,
        Type::I32 => TypeV::I32,
        Type::I64 => TypeV::I64,
        Type::U8 => TypeV::U8,
        Type::U16 => TypeV::U16,
        Type::U32 => TypeV::U32,
        Type::U64 => TypeV::U64,
        Type::F32 => TypeV::F32,
        Type::F64 => TypeV::F64,
        Type::Str => TypeV::Str,
        Type::Msg(m) => TypeV::Msg(msg_view(*m)),
    }
}

pub open spec fn field_view(f: Field) -> FieldV
    decreases f, 0nat,
{
    FieldV { name: f.name@, ty: type_view(f.ty), repitition: f.repitition }
}

pub open spec fn fields_view(fs: Seq<Field>, n: nat) -> Seq<FieldV>
    decreases fs, n,
{
    if n == 0 || n > fs.len() {
        Seq::empty()
    } else {
        fields_view(fs, (n - 1) as nat).push(field_view(fs[n - 1]))
    }
}

pub open spec fn msg_view(m: Msg) -> MsgV
    decreases m, 0nat,
{
    MsgV { fields: fields_view(m.fields@, m.fields@.len()) }
}

impl View for Type {
    type V = TypeV;

    open spec fn view(&self) -> TypeV {
        type_view(*self)
    }
}

impl View for Field {
    type V = FieldV;

    open spec fn view(&self) -> FieldV {
        field_view(*self)
    }
}

impl View for Msg {
    type V = MsgV;

    open spec fn view(&self) -> MsgV {
        msg_view(*self)
    }
}

pub proof fn lemma_fields_view(fs: Seq<Field>, n: nat)
    requires
        n <= fs.len(),
    ensures
        fields_view(fs, n).len() == n,
        forall|i: int| 0 <= i < n ==> #[trigger] fields_view(fs, n)[i] == field_view(fs[i]),
    decreases n,
{
    if n > 0 {
        lemma_fields_view(fs, (n - 1) as nat);
    }
}

/// The view of the first `n` fields does not depend on fields after them.
pub proof fn lemma_fields_view_push(fs: Seq<Field>, f: Field, n: nat)
    requires
        n <= fs.len(),
    ensures
        fields_view(fs.push(f), n) == fields_view(fs, n),
    decreases n,
{
    if n > 0 {
        lemma_fields_view_push(fs, f, (n - 1) as nat);
        assert(fs.push(f)[n - 1] == fs[n - 1]);
    }
}

/// The view of a message with one more field.
pub proof fn lemma_msg_fields_push(fs: Seq<Field>, f: Field)
    ensures
        fields_view(fs.push(f), fs.len() + 1) == fields_view(fs, fs.len()).push(field_view(f)),
{
    lemma_fields_view_push(fs, f, fs.len());
    assert(fs.push(f)[fs.len() as int] == f);
}

} // verus!
