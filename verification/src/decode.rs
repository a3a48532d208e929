//! Decoding of CDR-encoded ROS 2 messages against a parsed schema.
//!
//! Decoding walks the schema's fields in order and reports every primitive
//! value it reads, with the path of the field that holds it: the field names
//! from the outermost message inward, written one after the other, each array
//! element followed by its index in brackets (as in `motors[0]vel_percent`).
use crate::cdr_reader::{aligned, fits, lemma_read_uint_1, lemma_read_uint_ext, read_uint, str_bytes, str_end, str_len, str_readable, twos, CdrReader};
use crate::schema::{field_view, fields_view, lemma_fields_view, type_view, Field, Msg, Repitition, Type};
use vstd::prelude::*;
use vstd::utf8::*;

pub mod visit_log;

pub use visit_log::VisitLog;

verus! {

/// An error found while decoding a message.
#[derive(Debug)]
pub enum Error {
    /// A bounded array declared more elements than its bound allows.
    ArraySizeTooLarge { field: String, size: usize, max_size: usize },
    /// A string field did not hold valid UTF-8; `data` is the string's bytes.
    Utf8Error { error: std::str::Utf8Error, data: Vec<u8> },
}

/// What an [`Error`] states, as plain values.
pub enum ErrorView {
    ArraySizeTooLarge { field: Seq<char>, size: nat, max_size: nat },
    Utf8Error { data: Seq<u8> },
}

impl View for Error {
    type V = ErrorView;

    open spec fn view(&self) -> ErrorView {
        match self {
            Error::ArraySizeTooLarge { field, size, max_size } => ErrorView::ArraySizeTooLarge {
                field: field@,
                size: *size as nat,
                max_size: *max_size as nat,
            },
            Error::Utf8Error { data, .. } => ErrorView::Utf8Error { data: data@ },
        }
    }
}

/// A decoded primitive value. Floating-point values are given by their
/// IEEE 754 bit patterns.
#[derive(Debug, Clone, PartialEq)]
pub enum Value {
    Bool(bool),
    I8(i8),
    I16(i16),
    I32(i32),
    I64(i64),
    U8(u8),
    U16(u16),
    U32(u32),
    U64(u64),
    F32(u32),
    F64(u64),
    Str(String),
}

/// A decoded value as a plain value.
pub enum ValueV {
    Bool(bool),
    I8(i8),
    I16(i16),
    I32(i32),
    I64(i64),
    U8(u8),
    U16(u16),
    U32(u32),
    U64(u64),
    F32(u32),
    F64(u64),
    Str(Seq<char>),
}

impl View for Value {
    type V = ValueV;

    open spec fn view(&self) -> ValueV {
        match self {
            Value::Bool(v) => ValueV::Bool(*v),
            Value::I8(v) => ValueV::I8(*v),
            Value::I16(v) => ValueV::I16(*v),
            Value::I32(v) => ValueV::I32(*v),
            Value::I64(v) => ValueV::I64(*v),
            Value::U8(v) => ValueV::U8(*v),
            Value::U16(v) => ValueV::U16(*v),
            Value::U32(v) => ValueV::U32(*v),
            Value::U64(v) => ValueV::U64(*v),
            Value::F32(v) => ValueV::F32(*v),
            Value::F64(v) => ValueV::F64(*v),
            Value::Str(s) => ValueV::Str(s@),
        }
    }
}

/// One value reported by the decoder, with the path of its field.
#[derive(Debug, Clone, PartialEq)]
pub struct Visit {
    pub path: String,
    pub value: Value,
}

impl View for Visit {
    type V = (Seq<char>, ValueV);

    open spec fn view(&self) -> (Seq<char>, ValueV) {
        (self.path@, self.value@)
    }
}

pub open spec fn visits_view(v: Seq<Visit>) -> Seq<(Seq<char>, ValueV)> {
    v.map_values(|x: Visit| x@)
}

/// What the decoder has done so far: still reading at `offset` after reporting
/// `visits`, stopped by an error, or stopped by a read outside the data; each
/// with the values reported before.
pub enum State {
    Running { offset: int, visits: Seq<(Seq<char>, ValueV)> },
    Stopped { visits: Seq<(Seq<char>, ValueV)>, error: ErrorView },
    OutOfBounds { visits: Seq<(Seq<char>, ValueV)> },
}

/// The outcome of reading one primitive value.
pub enum Prim {
    Read { value: ValueV, end: int },
    Invalid { error: ErrorView, end: int },
    OutOfBounds,
}

/// The size in bytes of a primitive type (strings and messages have none).
pub open spec fn prim_size(t: Type) -> int {
    match t {
        Type::Bool | Type::I8 | Type::U8 => 1,
        Type::I16 | Type::U16 => 2,
        Type::I32 | Type::U32 | Type::F32 => 4,
        Type::I64 | Type::U64 | Type::F64 => 8,
        _ => 0,
    }
}

/// The value of a primitive type whose bytes read as the unsigned number `u`.
pub open spec fn prim_value(t: Type, u: nat) -> ValueV {
    match t {
        Type::Bool => ValueV::Bool(u != 0),
        Type::I8 => ValueV::I8(twos(u as int, 0x80) as i8),
        Type::I16 => ValueV::I16(twos(u as int, 0x8000) as i16),
        Type::I32 => ValueV::I32(twos(u as int, 0x8000_0000) as i32),
        Type::I64 => ValueV::I64(twos(u as int, 0x8000_0000_0000_0000) as i64),
        Type::U8 => ValueV::U8(u as u8),
        Type::U16 => ValueV::U16(u as u16),
        Type::U32 => ValueV::U32(u as u32),
        Type::U64 => ValueV::U64(u as u64),
        Type::F32 => ValueV::F32(u as u32),
        _ => ValueV::F64(u as u64),
    }
}

/// Reads one value of a type other than a message at `offset`.
pub open spec fn read_prim(t: Type, data: Seq<u8>, offset: int, little_endian: bool) -> Prim {
    match t {
        Type::Str => {
            if !str_readable(data, offset, little_endian) {
                Prim::OutOfBounds
            } else {
                let bytes = str_bytes(data, offset, little_endian);
                let end = str_end(data, offset, little_endian);
                if valid_utf8(bytes) {
                    Prim::Read { value: ValueV::Str(decode_utf8(bytes)), end }
                } else {
                    Prim::Invalid { error: ErrorView::Utf8Error { data: bytes }, end }
                }
            }
        },
        _ => {
            let n = prim_size(t);
            if !fits(data.len() as int, offset, n) {
                Prim::OutOfBounds
            } else {
                Prim::Read {
                    value: prim_value(t, read_uint(data, offset, n, little_endian)),
                    end: aligned(offset, n) + n,
                }
            }
        },
    }
}

pub open spec fn digit_char(d: nat) -> char {
    if d == 0 {
        '0'
    } else if d == 1 {
        '1'
    } else if d == 2 {
        '2'
    } else if d == 3 {
        '3'
    } else if d == 4 {
        '4'
    } else if d == 5 {
        '5'
    } else if d == 6 {
        '6'
    } else if d == 7 {
        '7'
    } else if d == 8 {
        '8'
    } else {
        '9'
    }
}

/// The decimal digits of `n`.
pub open spec fn decimal(n: nat) -> Seq<char>
    decreases n,
{
    if n < 10 {
        seq![digit_char(n)]
    } else {
        decimal(n / 10).push(digit_char(n % 10))
    }
}

/// The suffix that names element `i` of an array: `[i]`.
pub open spec fn index_text(i: nat) -> Seq<char> {
    seq!['['] + decimal(i) + seq![']']
}

/// Decodes the fields of message `m`, with `prefix` before their names.
pub open spec fn decode_msg(m: Msg, data: Seq<u8>, le: bool, prefix: Seq<char>, st: State) -> State
    decreases m, 0nat, 0nat,
{
    decode_fields(m.fields@, 0, data, le, prefix, st)
}

/// Decodes fields `i..` of `fs`.
pub open spec fn decode_fields(
    fs: Seq<Field>,
    i: int,
    data: Seq<u8>,
    le: bool,
    prefix: Seq<char>,
    st: State,
) -> State
    decreases fs, 0nat, fs.len() - i,
{
    if i < 0 || i >= fs.len() || !(st is Running) {
        st
    } else {
        decode_fields(fs, i + 1, data, le, prefix, decode_field(fs[i], data, le, prefix, st))
    }
}

/// Decodes one field: reads its element count (for arrays whose length is
/// not fixed), then its elements.
pub open spec fn decode_field(f: Field, data: Seq<u8>, le: bool, prefix: Seq<char>, st: State) -> State
    decreases f, 1nat, 0nat,
{
    match st {
        State::Running { offset, visits } => {
            let name = prefix + f.name@;
            match f.repitition {
                Repitition::Single => decode_elems(f, 0, 1, data, le, name, st),
                Repitition::Fixed(n) => decode_elems(f, 0, n as nat, data, le, name, st),
                Repitition::Unbounded => {
                    if !fits(data.len() as int, offset, 4) {
                        State::OutOfBounds { visits }
                    } else {
                        let n = read_uint(data, offset, 4, le);
                        decode_elems(f, 0, n, data, le, name,
                            State::Running { offset: aligned(offset, 4) + 4, visits })
                    }
                },
                Repitition::Bounded(max) => {
                    if !fits(data.len() as int, offset, 4) {
                        State::OutOfBounds { visits }
                    } else {
                        let n = read_uint(data, offset, 4, le);
                        if n > max {
                            State::Stopped {
                                visits,
                                error: ErrorView::ArraySizeTooLarge { field: name, size: n, max_size: max as nat },
                            }
                        } else {
                            decode_elems(f, 0, n, data, le, name,
                                State::Running { offset: aligned(offset, 4) + 4, visits })
                        }
                    }
                },
            }
        },
        _ => st,
    }
}

/// The path of element `j` of field `f` whose path is `name`.
pub open spec fn elem_path(f: Field, name: Seq<char>, j: nat) -> Seq<char> {
    match f.repitition {
        Repitition::Single => name,
        _ => name + index_text(j),
    }
}

/// Decodes elements `j..n` of field `f`.
pub open spec fn decode_elems(
    f: Field,
    j: nat,
    n: nat,
    data: Seq<u8>,
    le: bool,
    name: Seq<char>,
    st: State,
) -> State
    decreases f, 0nat, n - j,
{
    if j >= n || !(st is Running) {
        st
    } else {
        decode_elems(f, j + 1, n, data, le, name,
            decode_value(f.ty, data, le, elem_path(f, name, j), st))
    }
}

/// Decodes one value of type `t` whose path is `path`.
pub open spec fn decode_value(t: Type, data: Seq<u8>, le: bool, path: Seq<char>, st: State) -> State
    decreases t, 0nat, 0nat,
{
    match st {
        State::Running { offset, visits } => match t {
            Type::Msg(m) => decode_msg(*m, data, le, path, st),
            _ => match read_prim(t, data, offset, le) {
                Prim::Read { value, end } => State::Running { offset: end, visits: visits.push((path, value)) },
                Prim::Invalid { error, end } => State::Stopped { visits, error },
                Prim::OutOfBounds => State::OutOfBounds { visits },
            },
        },
        _ => st,
    }
}

/// Decoding of a whole message: a four-byte encapsulation header whose second
/// byte selects the byte order, then the fields of `schema`.
pub open spec fn decode_spec(schema: Msg, input: Seq<u8>) -> State {
    if input.len() < 4 {
        State::OutOfBounds { visits: Seq::empty() }
    } else {
        decode_msg(schema, input.skip(4), input[1] % 2 == 1, Seq::empty(),
            State::Running { offset: 0, visits: Seq::empty() })
    }
}


/// Reading a primitive only looks at bytes inside the data: bytes after them
/// change nothing.
proof fn lemma_read_prim_ext(t: Type, data: Seq<u8>, extra: Seq<u8>, offset: int, le: bool)
    requires
        !(read_prim(t, data, offset, le) is OutOfBounds),
    ensures
        read_prim(t, data + extra, offset, le) == read_prim(t, data, offset, le),
{
    match t {
        Type::Str => {
            lemma_read_uint_ext(data, extra, offset, 4, le);
            if str_len(data, offset, le) > 1 {
                assert(str_bytes(data + extra, offset, le) =~= str_bytes(data, offset, le));
            }
        },
        _ => {
            lemma_read_uint_ext(data, extra, offset, prim_size(t), le);
        },
    }
}

proof fn lemma_msg_ext(m: &Msg, data: Seq<u8>, extra: Seq<u8>, le: bool, prefix: Seq<char>, st: State)
    requires
        !(decode_msg(*m, data, le, prefix, st) is OutOfBounds),
    ensures
        decode_msg(*m, data + extra, le, prefix, st) == decode_msg(*m, data, le, prefix, st),
    decreases m, 0nat, 0nat,
{
    lemma_fields_ext(m.fields@, 0, data, extra, le, prefix, st);
}

proof fn lemma_fields_ext(
    fs: Seq<Field>,
    i: int,
    data: Seq<u8>,
    extra: Seq<u8>,
    le: bool,
    prefix: Seq<char>,
    st: State,
)
    requires
        !(decode_fields(fs, i, data, le, prefix, st) is OutOfBounds),
    ensures
        decode_fields(fs, i, data + extra, le, prefix, st) == decode_fields(fs, i, data, le, prefix, st),
    decreases fs, 0nat, fs.len() - i,
{
    if i < 0 || i >= fs.len() || !(st is Running) {
    } else {
        let st1 = decode_field(fs[i], data, le, prefix, st);
        if st1 is OutOfBounds {
            assert(decode_fields(fs, i + 1, data, le, prefix, st1) == st1);
        }
        lemma_field_ext(fs[i], data, extra, le, prefix, st);
        lemma_fields_ext(fs, i + 1, data, extra, le, prefix, st1);
    }
}

proof fn lemma_field_ext(f: Field, data: Seq<u8>, extra: Seq<u8>, le: bool, prefix: Seq<char>, st: State)
    requires
        !(decode_field(f, data, le, prefix, st) is OutOfBounds),
    ensures
        decode_field(f, data + extra, le, prefix, st) == decode_field(f, data, le, prefix, st),
    decreases f, 1nat, 0nat,
{
    match st {
        State::Running { offset, visits } => {
            let name = prefix + f.name@;
            match f.repitition {
                Repitition::Single => lemma_elems_ext(f, 0, 1, data, extra, le, name, st),
                Repitition::Fixed(n) => lemma_elems_ext(f, 0, n as nat, data, extra, le, name, st),
                Repitition::Unbounded => {
                    lemma_read_uint_ext(data, extra, offset, 4, le);
                    let n = read_uint(data, offset, 4, le);
                    lemma_elems_ext(f, 0, n, data, extra, le, name,
                        State::Running { offset: aligned(offset, 4) + 4, visits });
                },
                Repitition::Bounded(max) => {
                    lemma_read_uint_ext(data, extra, offset, 4, le);
                    let n = read_uint(data, offset, 4, le);
                    if n <= max {
                        lemma_elems_ext(f, 0, n, data, extra, le, name,
                            State::Running { offset: aligned(offset, 4) + 4, visits });
                    }
                },
            }
        },
        _ => {},
    }
}

proof fn lemma_elems_ext(
    f: Field,
    j: nat,
    n: nat,
    data: Seq<u8>,
    extra: Seq<u8>,
    le: bool,
    name: Seq<char>,
    st: State,
)
    requires
        !(decode_elems(f, j, n, data, le, name, st) is OutOfBounds),
    ensures
        decode_elems(f, j, n, data + extra, le, name, st) == decode_elems(f, j, n, data, le, name, st),
    decreases f, 0nat, n - j,
{
    if j >= n || !(st is Running) {
    } else {
        let st1 = decode_value(f.ty, data, le, elem_path(f, name, j), st);
        if st1 is OutOfBounds {
            assert(decode_elems(f, j + 1, n, data, le, name, st1) == st1);
        }
        lemma_value_ext(f.ty, data, extra, le, elem_path(f, name, j), st);
        lemma_elems_ext(f, j + 1, n, data, extra, le, name, st1);
    }
}

proof fn lemma_value_ext(t: Type, data: Seq<u8>, extra: Seq<u8>, le: bool, path: Seq<char>, st: State)
    requires
        !(decode_value(t, data, le, path, st) is OutOfBounds),
    ensures
        decode_value(t, data + extra, le, path, st) == decode_value(t, data, le, path, st),
    decreases t, 0nat, 0nat,
{
    match st {
        State::Running { offset, visits } => match t {
            Type::Msg(m) => lemma_msg_ext(&*m, data, extra, le, path, st),
            _ => lemma_read_prim_ext(t, data, extra, offset, le),
        },
        _ => {},
    }
}

/// Decoding depends on a schema only through its view.
proof fn lemma_msg_view(m1: &Msg, m2: &Msg, data: Seq<u8>, le: bool, prefix: Seq<char>, st: State)
    requires
        m1@ == m2@,
    ensures
        decode_msg(*m1, data, le, prefix, st) == decode_msg(*m2, data, le, prefix, st),
    decreases m1, 0nat, 0nat,
{
    lemma_fields_view(m1.fields@, m1.fields@.len());
    lemma_fields_view(m2.fields@, m2.fields@.len());
    assert forall|i: int| 0 <= i < m1.fields@.len() implies field_view(#[trigger] m1.fields@[i]) == field_view(m2.fields@[i]) by {
        assert(fields_view(m1.fields@, m1.fields@.len())[i] == fields_view(m2.fields@, m2.fields@.len())[i]);
    }
    lemma_fields_view_eq(m1.fields@, m2.fields@, 0, data, le, prefix, st);
}

proof fn lemma_fields_view_eq(
    fs1: Seq<Field>,
    fs2: Seq<Field>,
    i: int,
    data: Seq<u8>,
    le: bool,
    prefix: Seq<char>,
    st: State,
)
    requires
        fs1.len() == fs2.len(),
        forall|k: int| 0 <= k < fs1.len() ==> field_view(#[trigger] fs1[k]) == field_view(fs2[k]),
    ensures
        decode_fields(fs1, i, data, le, prefix, st) == decode_fields(fs2, i, data, le, prefix, st),
    decreases fs1, 0nat, fs1.len() - i,
{
    if i < 0 || i >= fs1.len() || !(st is Running) {
    } else {
        assert(field_view(fs1[i]) == field_view(fs2[i]));
        lemma_field_view_eq(fs1[i], fs2[i], data, le, prefix, st);
        let st1 = decode_field(fs1[i], data, le, prefix, st);
        lemma_fields_view_eq(fs1, fs2, i + 1, data, le, prefix, st1);
    }
}

proof fn lemma_field_view_eq(f1: Field, f2: Field, data: Seq<u8>, le: bool, prefix: Seq<char>, st: State)
    requires
        field_view(f1) == field_view(f2),
    ensures
        decode_field(f1, data, le, prefix, st) == decode_field(f2, data, le, prefix, st),
    decreases f1, 1nat, 0nat,
{
    match st {
        State::Running { offset, visits } => {
            let name = prefix + f1.name@;
            assert(f1.name@ == f2.name@ && f1.repitition == f2.repitition);
            match f1.repitition {
                Repitition::Single => lemma_elems_view_eq(f1, f2, 0, 1, data, le, name, st),
                Repitition::Fixed(n) => lemma_elems_view_eq(f1, f2, 0, n as nat, data, le, name, st),
                Repitition::Unbounded => {
                    let n = read_uint(data, offset, 4, le);
                    lemma_elems_view_eq(f1, f2, 0, n, data, le, name,
                        State::Running { offset: aligned(offset, 4) + 4, visits });
                },
                Repitition::Bounded(max) => {
                    let n = read_uint(data, offset, 4, le);
                    lemma_elems_view_eq(f1, f2, 0, n, data, le, name,
                        State::Running { offset: aligned(offset, 4) + 4, visits });
                },
            }
        },
        _ => {},
    }
}

proof fn lemma_elems_view_eq(
    f1: Field,
    f2: Field,
    j: nat,
    n: nat,
    data: Seq<u8>,
    le: bool,
    name: Seq<char>,
    st: State,
)
    requires
        field_view(f1) == field_view(f2),
    ensures
        decode_elems(f1, j, n, data, le, name, st) == decode_elems(f2, j, n, data, le, name, st),
    decreases f1, 0nat, n - j,
{
    if j >= n || !(st is Running) {
    } else {
        assert(f1.repitition == f2.repitition);
        assert(elem_path(f1, name, j) == elem_path(f2, name, j));
        lemma_value_view_eq(f1.ty, f2.ty, data, le, elem_path(f1, name, j), st);
        let st1 = decode_value(f1.ty, data, le, elem_path(f1, name, j), st);
        lemma_elems_view_eq(f1, f2, j + 1, n, data, le, name, st1);
    }
}

proof fn lemma_value_view_eq(t1: Type, t2: Type, data: Seq<u8>, le: bool, path: Seq<char>, st: State)
    requires
        type_view(t1) == type_view(t2),
    ensures
        decode_value(t1, data, le, path, st) == decode_value(t2, data, le, path, st),
    decreases t1, 0nat, 0nat,
{
    match st {
        State::Running { .. } => match t1 {
            Type::Msg(m1) => match t2 {
                Type::Msg(m2) => lemma_msg_view(&*m1, &*m2, data, le, path, st),
                _ => {},
            },
            _ => {
                assert(t1 == t2);
            },
        },
        _ => {},
    }
}

/// Decoding against a schema depends only on the schema's view.
pub proof fn lemma_decode_view(m1: Msg, m2: Msg, input: Seq<u8>)
    requires
        m1@ == m2@,
    ensures
        decode_spec(m1, input) == decode_spec(m2, input),
{
    if input.len() >= 4 {
        lemma_msg_view(&m1, &m2, input.skip(4), input[1] % 2 == 1, Seq::empty(),
            State::Running { offset: 0, visits: Seq::empty() });
    }
}

/// A message is read from the front of its input: bytes appended after an
/// input that decodes without running out of data change nothing of what is
/// decoded.
pub proof fn law_trailing_bytes_ignored(schema: Msg, input: Seq<u8>, extra: Seq<u8>)
    requires
        !(decode_spec(schema, input) is OutOfBounds),
    ensures
        decode_spec(schema, input + extra) == decode_spec(schema, input),
{
    assert((input + extra).skip(4) =~= input.skip(4) + extra);
    assert((input + extra)[1] == input[1]);
    lemma_msg_ext(&schema, input.skip(4), extra, input[1] % 2 == 1, Seq::empty(),
        State::Running { offset: 0, visits: Seq::empty() });
}

/// Why decoding stopped early.
enum Halt {
    Failed(Error),
    OutOfBounds,
}

/// Whether the exec outcome `r`, the position `pos` and the visits `out`
/// are what the spec state `st` describes.
spec fn matches_state(r: Result<(), Halt>, st: State, pos: usize, out: Seq<Visit>) -> bool {
    match r {
        Ok(()) => st == State::Running { offset: pos as int, visits: visits_view(out) },
        Err(Halt::Failed(e)) => st == State::Stopped { visits: visits_view(out), error: e@ },
        Err(Halt::OutOfBounds) => st == State::OutOfBounds { visits: visits_view(out) },
    }
}

proof fn lemma_visits_push(out: Seq<Visit>, v: Visit)
    ensures
        visits_view(out.push(v)) == visits_view(out).push(v@),
{
    assert(visits_view(out.push(v)) =~= visits_view(out).push(v@));
}

fn digit_str(d: usize) -> (s: &'static str)
    requires
        d < 10,
    ensures
        s@ == seq![digit_char(d as nat)],
{
    proof {
        reveal_strlit("0");
        reveal_strlit("1");
        reveal_strlit("2");
        reveal_strlit("3");
        reveal_strlit("4");
        reveal_strlit("5");
        reveal_strlit("6");
        reveal_strlit("7");
        reveal_strlit("8");
        reveal_strlit("9");
    }
    if d == 0 {
        "0"
    } else if d == 1 {
        "1"
    } else if d == 2 {
        "2"
    } else if d == 3 {
        "3"
    } else if d == 4 {
        "4"
    } else if d == 5 {
        "5"
    } else if d == 6 {
        "6"
    } else if d == 7 {
        "7"
    } else if d == 8 {
        "8"
    } else {
        "9"
    }
}

/// Appends the decimal digits of `n`.
pub(crate) fn push_decimal(s: &mut String, n: usize)
    ensures
        final(s)@ == old(s)@ + decimal(n as nat),
    decreases n,
{
    if n >= 10 {
        push_decimal(s, n / 10);
    }
    s.append(digit_str(n % 10));
    proof {
        assert(final(s)@ =~= old(s)@ + decimal(n as nat));
    }
}

/// Appends the suffix `[i]` that names element `i` of an array.
pub fn push_index(s: &mut String, i: usize)
    ensures
        final(s)@ == old(s)@ + index_text(i as nat),
{
    proof {
        reveal_strlit("[");
        reveal_strlit("]");
    }
    s.append("[");
    push_decimal(s, i);
    s.append("]");
    proof {
        assert(final(s)@ =~= old(s)@ + index_text(i as nat));
    }
}

/// Reads one value of a type other than a message and reports it.
fn read_value<'a>(t: &Type, reader: &mut CdrReader<'a>, path: String, out: &mut Vec<Visit>) -> (r: Result<(), Halt>)
    requires
        !(*t is Msg),
    ensures
        final(reader).bytes() == old(reader).bytes(),
        final(reader).is_little_endian() == old(reader).is_little_endian(),
        matches_state(
            r,
            decode_value(*t, old(reader).bytes(), old(reader).is_little_endian(), path@,
                State::Running { offset: old(reader).pos() as int, visits: visits_view(old(out)@) }),
            final(reader).pos(),
            final(out)@,
        ),
{
    let ghost data = reader.bytes();
    let ghost off = reader.pos() as int;
    let ghost le = reader.is_little_endian();
    let value = match t {
        Type::Str => {
            if !reader.str_fits() {
                return Err(Halt::OutOfBounds);
            }
            match reader.str() {
                Ok(s) => Value::Str(String::from_str(s)),
                Err(e) => return Err(Halt::Failed(e)),
            }
        },
        Type::Bool | Type::I8 | Type::U8 => {
            if !reader.fits(1) {
                return Err(Halt::OutOfBounds);
            }
            proof {
                lemma_read_uint_1(data, off, le);
            }
            match t {
                Type::Bool => Value::Bool(reader.bool()),
                Type::I8 => Value::I8(reader.i8()),
                _ => Value::U8(reader.u8()),
            }
        },
        Type::I16 | Type::U16 => {
            if !reader.fits(2) {
                return Err(Halt::OutOfBounds);
            }
            match t {
                Type::I16 => Value::I16(reader.i16()),
                _ => Value::U16(reader.u16()),
            }
        },
        Type::I32 | Type::U32 | Type::F32 => {
            if !reader.fits(4) {
                return Err(Halt::OutOfBounds);
            }
            match t {
                Type::I32 => Value::I32(reader.i32()),
                Type::U32 => Value::U32(reader.u32()),
                _ => Value::F32(reader.f32_bits()),
            }
        },
        _ => {
            if !reader.fits(8) {
                return Err(Halt::OutOfBounds);
            }
            match t {
                Type::I64 => Value::I64(reader.i64()),
                Type::U64 => Value::U64(reader.u64()),
                _ => Value::F64(reader.f64_bits()),
            }
        },
    };
    let ghost old_out = out@;
    let visit = Visit { path, value };
    out.push(visit);
    proof {
        lemma_visits_push(old_out, visit);
    }
    Ok(())
}

/// Decodes the fields of `schema`, reporting each value with `prefix` before its path.
#[verifier::loop_isolation(false)]
fn decode_inner<'a>(schema: &Msg, reader: &mut CdrReader<'a>, prefix: &String, out: &mut Vec<Visit>) -> (r: Result<(), Halt>)
    ensures
        final(reader).bytes() == old(reader).bytes(),
        final(reader).is_little_endian() == old(reader).is_little_endian(),
        matches_state(
            r,
            decode_msg(*schema, old(reader).bytes(), old(reader).is_little_endian(), prefix@,
                State::Running { offset: old(reader).pos() as int, visits: visits_view(old(out)@) }),
            final(reader).pos(),
            final(out)@,
        ),
    decreases *schema, 0nat,
{
    let ghost data = reader.bytes();
    let ghost le = reader.is_little_endian();
    let ghost whole = decode_msg(*schema, data, le, prefix@,
        State::Running { offset: reader.pos() as int, visits: visits_view(out@) });
    let n = schema.fields.len();
    let mut i: usize = 0;
    while i < n
        invariant
            n == schema.fields@.len(),
            0 <= i <= n,
            reader.bytes() == data,
            reader.is_little_endian() == le,
            whole == decode_fields(schema.fields@, i as int, data, le, prefix@,
                State::Running { offset: reader.pos() as int, visits: visits_view(out@) }),
        decreases n - i,
    {
        let ghost before = State::Running { offset: reader.pos() as int, visits: visits_view(out@) };
        let r = decode_field_exec(&schema.fields[i], reader, prefix, out);
        let ghost after = decode_field(schema.fields@[i as int], data, le, prefix@, before);
        assert(decode_fields(schema.fields@, i as int, data, le, prefix@, before)
            == decode_fields(schema.fields@, i + 1, data, le, prefix@, after));
        match r {
            Ok(()) => {},
            Err(h) => {
                assert(decode_fields(schema.fields@, i + 1, data, le, prefix@, after) == after);
                return Err(h);
            },
        }
        i = i + 1;
    }
    Ok(())
}

/// Decodes one field of a message.
#[verifier::loop_isolation(false)]
fn decode_field_exec<'a>(f: &Field, reader: &mut CdrReader<'a>, prefix: &String, out: &mut Vec<Visit>) -> (r: Result<(), Halt>)
    ensures
        final(reader).bytes() == old(reader).bytes(),
        final(reader).is_little_endian() == old(reader).is_little_endian(),
        matches_state(
            r,
            decode_field(*f, old(reader).bytes(), old(reader).is_little_endian(), prefix@,
                State::Running { offset: old(reader).pos() as int, visits: visits_view(old(out)@) }),
            final(reader).pos(),
            final(out)@,
        ),
    decreases *f, 1nat,
{
    let ghost data = reader.bytes();
    let ghost le = reader.is_little_endian();
    let ghost whole = decode_field(*f, data, le, prefix@,
        State::Running { offset: reader.pos() as int, visits: visits_view(out@) });
    let mut name = prefix.clone();
    name.append(f.name.as_str());
    let n: usize = match f.repitition {
        Repitition::Single => 1,
        Repitition::Fixed(v) => v,
        Repitition::Unbounded => {
            if !reader.fits(4) {
                return Err(Halt::OutOfBounds);
            }
            reader.u32() as usize
        },
        Repitition::Bounded(max_size) => {
            if !reader.fits(4) {
                return Err(Halt::OutOfBounds);
            }
            let size = reader.u32() as usize;
            if size > max_size {
                return Err(Halt::Failed(Error::ArraySizeTooLarge { field: name, size, max_size }));
            }
            size
        },
    };
    let mut j: usize = 0;
    while j < n
        invariant
            0 <= j <= n,
            reader.bytes() == data,
            reader.is_little_endian() == le,
            whole == decode_elems(*f, j as nat, n as nat, data, le, name@,
                State::Running { offset: reader.pos() as int, visits: visits_view(out@) }),
        decreases n - j,
    {
        let path = match f.repitition {
            Repitition::Single => name.clone(),
            _ => {
                let mut p = name.clone();
                push_index(&mut p, j);
                p
            },
        };
        let ghost before = State::Running { offset: reader.pos() as int, visits: visits_view(out@) };
        let ghost after = decode_value(f.ty, data, le, path@, before);
        assert(path@ == elem_path(*f, name@, j as nat));
        assert(decode_elems(*f, j as nat, n as nat, data, le, name@, before)
            == decode_elems(*f, (j + 1) as nat, n as nat, data, le, name@, after));
        let r = match &f.ty {
            Type::Msg(m) => decode_inner(&**m, reader, &path, out),
            _ => read_value(&f.ty, reader, path, out),
        };
        match r {
            Ok(()) => {},
            Err(h) => {
                assert(decode_elems(*f, (j + 1) as nat, n as nat, data, le, name@, after) == after);
                return Err(h);
            },
        }
        j = j + 1;
    }
    Ok(())
}

/// Everything decoding reported: the values read, in order, and whether it
/// finished (`Ok`) or stopped at an error after reporting `visits`.
#[derive(Debug)]
pub struct Decoded {
    pub visits: Vec<Visit>,
    pub result: Result<(), Error>,
}

/// Whether `d` reports what the spec state `st` describes.
pub open spec fn decoded_as(d: Decoded, st: State) -> bool {
    match d.result {
        Ok(()) => st is Running && st->Running_visits == visits_view(d.visits@),
        Err(e) => st == State::Stopped { visits: visits_view(d.visits@), error: e@ },
    }
}

/// How decoding ended: after the whole message, at an error, or at a read
/// past the end of the input.
#[derive(Debug)]
pub enum Ending {
    Done,
    Failed(Error),
    OutOfBounds,
}

/// Whether the values `visits` and the ending `e` are what the spec state
/// `st` describes.
pub open spec fn ended_as(visits: Seq<Visit>, e: Ending, st: State) -> bool {
    match e {
        Ending::Done => st is Running && st->Running_visits == visits_view(visits),
        Ending::Failed(err) => st == State::Stopped { visits: visits_view(visits), error: err@ },
        Ending::OutOfBounds => st == State::OutOfBounds { visits: visits_view(visits) },
    }
}

/// Decodes `input` against `schema`: every value read, with the path of its
/// field, up to where decoding ended, and how it ended.
pub fn decode_visits(schema: &Msg, input: &[u8]) -> (r: (Vec<Visit>, Ending))
    ensures
        ended_as(r.0@, r.1, decode_spec(*schema, input@)),
{
    let mut visits: Vec<Visit> = Vec::new();
    proof {
        assert(visits_view(visits@) =~= Seq::<(Seq<char>, ValueV)>::empty());
    }
    if input.len() < 4 {
        return (visits, Ending::OutOfBounds);
    }
    let mut reader = CdrReader::new(input);
    let prefix = String::new();
    proof {
        assert(prefix@ =~= Seq::<char>::empty());
    }
    match decode_inner(schema, &mut reader, &prefix, &mut visits) {
        Ok(()) => (visits, Ending::Done),
        Err(Halt::Failed(e)) => (visits, Ending::Failed(e)),
        Err(Halt::OutOfBounds) => (visits, Ending::OutOfBounds),
    }
}

/// Receives the values of a decoded message, in order, each with the path of
/// its field; refusing one (`Err`) stops decoding.
pub trait Visitor {
    type Error;

    fn visit(&mut self, path: &str, value: &Value) -> Result<(), Self::Error>;
}

/// Why decoding into a visitor stopped.
#[derive(Debug)]
pub enum VisitError<E> {
    /// The message holds an error.
    Decode(Error),
    /// The input ends before the message does.
    OutOfBounds,
    /// The visitor refused a value.
    Visitor(E),
}

/// The values the decoder reported, however it ended.
pub open spec fn visits_of(st: State) -> Seq<(Seq<char>, ValueV)> {
    match st {
        State::Running { visits, .. } => visits,
        State::Stopped { visits, .. } => visits,
        State::OutOfBounds { visits } => visits,
    }
}

/// Decodes `input` against `schema` and hands every value to the visitor of
/// `log`, in order, with the path of its field. Stops at the first value the
/// visitor refuses, else at the message's error or where the input ends.
pub fn decode_with<V: Visitor>(schema: &Msg, input: &[u8], log: &mut VisitLog<V>) -> (r: Result<(), VisitError<V::Error>>)
    ensures
        ({
            let st = decode_spec(*schema, input@);
            let vs = visits_of(st);
            let n = final(log).handed().len() - old(log).handed().len();
            let accepted = final(log).accepted().skip(old(log).accepted().len() as int);
            &&& final(log).handed() == old(log).handed() + vs.take(n)
            &&& accepted.len() == n
            &&& 0 <= n <= vs.len()
            &&& match r {
                Err(VisitError::Visitor(_)) => {
                    &&& n >= 1
                    &&& forall|i: int| 0 <= i < n - 1 ==> #[trigger] accepted[i]
                    &&& !accepted[n - 1]
                },
                _ => {
                    &&& n == vs.len()
                    &&& forall|i: int| 0 <= i < n ==> #[trigger] accepted[i]
                    &&& match r {
                        Ok(()) => st is Running,
                        Err(VisitError::Decode(e)) => st matches State::Stopped { error, .. } && error == e@,
                        Err(VisitError::OutOfBounds) => st is OutOfBounds,
                        Err(VisitError::Visitor(_)) => false,
                    }
                },
            }
        }),
{
    let (visits, ending) = decode_visits(schema, input);
    let ghost vs = visits_view(visits@);
    let ghost h0 = log.handed();
    let ghost a0 = log.accepted();
    let n = visits.len();
    assert(vs.len() == n);
    let mut i: usize = 0;
    assert(h0 + vs.take(0) =~= h0);
    assert(log.accepted().skip(a0.len() as int) =~= Seq::<bool>::empty());
    while i < n
        invariant
            0 <= i <= n,
            n == visits@.len(),
            vs == visits_view(visits@),
            vs.len() == n,
            vs == visits_of(decode_spec(*schema, input@)),
            ended_as(visits@, ending, decode_spec(*schema, input@)),
            h0 == old(log).handed(),
            a0 == old(log).accepted(),
            log.handed() == h0 + vs.take(i as int),
            log.accepted().len() == a0.len() + i,
            log.accepted().take(a0.len() as int) == a0,
            forall|j: int| 0 <= j < i ==> #[trigger] log.accepted().skip(a0.len() as int)[j],
        decreases n - i,
    {
        let ghost before = log.accepted();
        let res = log.hand(visits[i].path.as_str(), &visits[i].value);
        proof {
            assert(vs[i as int] == visits[i as int]@);
            assert(h0 + vs.take(i + 1) =~= (h0 + vs.take(i as int)).push(vs[i as int]));
            assert(log.accepted().take(a0.len() as int) =~= before.take(a0.len() as int));
            assert forall|j: int| 0 <= j < i implies #[trigger] log.accepted().skip(a0.len() as int)[j] by {
                assert(log.accepted().skip(a0.len() as int)[j] == before.skip(a0.len() as int)[j]);
            }
            assert(log.accepted().skip(a0.len() as int)[i as int] == (res is Ok));
            assert(vs.take(i + 1).len() == i + 1);
        }
        match res {
            Ok(()) => {},
            Err(e) => {
                return Err(VisitError::Visitor(e));
            },
        }
        i += 1;
    }
    assert(vs.take(n as int) =~= vs);
    match ending {
        Ending::Done => Ok(()),
        Ending::Failed(e) => Err(VisitError::Decode(e)),
        Ending::OutOfBounds => Err(VisitError::OutOfBounds),
    }
}

/// Decodes `input` against `schema`, or returns `None` where decoding would
/// read past the end of the input.
pub fn try_decode(schema: &Msg, input: &[u8]) -> (r: Option<Decoded>)
    ensures
        r is None <==> decode_spec(*schema, input@) is OutOfBounds,
        r matches Some(d) ==> decoded_as(d, decode_spec(*schema, input@)),
{
    if input.len() < 4 {
        return None;
    }
    let mut reader = CdrReader::new(input);
    let prefix = String::new();
    let mut visits: Vec<Visit> = Vec::new();
    proof {
        assert(visits_view(visits@) =~= Seq::<(Seq<char>, ValueV)>::empty());
        assert(prefix@ =~= Seq::<char>::empty());
    }
    match decode_inner(schema, &mut reader, &prefix, &mut visits) {
        Ok(()) => Some(Decoded { visits, result: Ok(()) }),
        Err(Halt::Failed(e)) => Some(Decoded { visits, result: Err(e) }),
        Err(Halt::OutOfBounds) => None,
    }
}

/// Decodes `input` against `schema`: reports every value read, with the path
/// of its field, and stops at the first error.
pub fn decode(schema: &Msg, input: &[u8]) -> (d: Decoded)
    requires
        !(decode_spec(*schema, input@) is OutOfBounds),
    ensures
        decoded_as(d, decode_spec(*schema, input@)),
{
    match try_decode(schema, input) {
        Some(d) => d,
        None => {
            assert(false);
            Decoded { visits: Vec::new(), result: Ok(()) }
        },
    }
}


/// The values of elements `0..n` of an array of one-byte values stored from
/// `start`: element `i` is byte `start + i`, at path `name[i]`.
pub open spec fn byte_array_visits(t: Type, data: Seq<u8>, name: Seq<char>, start: int, n: nat) -> Seq<(Seq<char>, ValueV)> {
    Seq::new(n, |i: int| (name + index_text(i as nat), prim_value(t, data[start + i] as nat)))
}

proof fn lemma_byte_elems(
    f: Field,
    j: nat,
    n: nat,
    data: Seq<u8>,
    le: bool,
    name: Seq<char>,
    start: int,
    visits: Seq<(Seq<char>, ValueV)>,
)
    requires
        prim_size(f.ty) == 1,
        !(f.repitition is Single),
        0 <= start,
        start + n <= data.len(),
        j <= n,
    ensures
        decode_elems(f, j, n, data, le, name,
            (State::Running { offset: start + j, visits: visits + byte_array_visits(f.ty, data, name, start, j) }))
            == (State::Running { offset: start + n, visits: visits + byte_array_visits(f.ty, data, name, start, n) }),
    decreases n - j,
{
    if j < n {
        let st = State::Running { offset: start + j, visits: visits + byte_array_visits(f.ty, data, name, start, j) };
        lemma_read_uint_1(data, start + j, le);
        assert(elem_path(f, name, j) == name + index_text(j));
        assert(read_prim(f.ty, data, start + j, le) == Prim::Read {
            value: prim_value(f.ty, data[start + j] as nat),
            end: start + j + 1,
        });
        assert(visits + byte_array_visits(f.ty, data, name, start, j + 1)
            =~= (visits + byte_array_visits(f.ty, data, name, start, j)).push(
                (name + index_text(j), prim_value(f.ty, data[start + j] as nat))));
        let st1 = State::Running {
            offset: start + j + 1,
            visits: visits + byte_array_visits(f.ty, data, name, start, j + 1),
        };
        assert(!(f.ty is Msg));
        assert(decode_value(f.ty, data, le, elem_path(f, name, j), st) == st1);
        assert(decode_elems(f, j, n, data, le, name, st) == decode_elems(f, j + 1, n, data, le, name, st1));
        lemma_byte_elems(f, j + 1, n, data, le, name, start, visits);
    } else {
        assert(j == n);
    }
}

/// A bounded array `T[<=max]` of one-byte values whose stored length `n` is at
/// most `max` is read whole: its `n` elements are reported in order, element
/// `i` at path `name[i]` with the value of the `i`-th byte after the length,
/// and decoding goes on after them.
pub proof fn law_bounded_array_within_bound(
    f: Field,
    data: Seq<u8>,
    le: bool,
    prefix: Seq<char>,
    offset: int,
    visits: Seq<(Seq<char>, ValueV)>,
    max: usize,
)
    requires
        f.repitition == Repitition::Bounded(max),
        prim_size(f.ty) == 1,
        0 <= offset,
        aligned(offset, 4) + 4 <= data.len(),
        read_uint(data, offset, 4, le) <= max,
        aligned(offset, 4) + 4 + read_uint(data, offset, 4, le) <= data.len(),
    ensures
        ({
            let start = aligned(offset, 4) + 4;
            let n = read_uint(data, offset, 4, le);
            &&& decode_field(f, data, le, prefix, (State::Running { offset, visits })) == (State::Running {
                offset: start + n,
                visits: visits + byte_array_visits(f.ty, data, prefix + f.name@, start, n),
            })
            &&& f.ty == Type::U8 ==> forall|i: int| 0 <= i < n ==>
                (#[trigger] byte_array_visits(f.ty, data, prefix + f.name@, start, n)[i]).1 == ValueV::U8(data[start + i])
        }),
{
    let start = aligned(offset, 4) + 4;
    let n = read_uint(data, offset, 4, le);
    let name = prefix + f.name@;
    assert(visits + byte_array_visits(f.ty, data, name, start, 0) =~= visits);
    lemma_byte_elems(f, 0, n, data, le, name, start, visits);
}

/// A bounded array `T[<=max]` whose stored length `n` exceeds `max` stops
/// decoding with `ArraySizeTooLarge`, naming the field, `n` and `max`, and
/// reports none of its elements.
pub proof fn law_bounded_array_over_bound(
    f: Field,
    data: Seq<u8>,
    le: bool,
    prefix: Seq<char>,
    offset: int,
    visits: Seq<(Seq<char>, ValueV)>,
    max: usize,
)
    requires
        f.repitition == Repitition::Bounded(max),
        fits(data.len() as int, offset, 4),
        read_uint(data, offset, 4, le) > max,
    ensures
        decode_field(f, data, le, prefix, (State::Running { offset, visits })) == (State::Stopped {
            visits,
            error: (ErrorView::ArraySizeTooLarge {
                field: prefix + f.name@,
                size: read_uint(data, offset, 4, le),
                max_size: max as nat,
            }),
        }),
{
}

/// A message whose only field is a bounded array `T[<=max]` of one-byte
/// values, holding `n <= max` elements with all their bytes present, decodes
/// to exactly those `n` values: the bytes after the four-byte header and the
/// four-byte length, in order, at paths `name[0]`, `name[1]`, ...
pub proof fn law_bounded_array_message(schema: Msg, input: Seq<u8>, f: Field, max: usize)
    requires
        schema.fields@ == seq![f],
        f.repitition == Repitition::Bounded(max),
        prim_size(f.ty) == 1,
        input.len() >= 8,
        read_uint(input.skip(4), 0, 4, input[1] % 2 == 1) <= max,
        8 + read_uint(input.skip(4), 0, 4, input[1] % 2 == 1) <= input.len(),
    ensures
        ({
            let n = read_uint(input.skip(4), 0, 4, input[1] % 2 == 1);
            decode_spec(schema, input) == (State::Running {
                offset: 4 + n as int,
                visits: byte_array_visits(f.ty, input.skip(4), f.name@, 4, n),
            })
        }),
{
    let data = input.skip(4);
    let le = input[1] % 2 == 1;
    let st0 = State::Running { offset: 0, visits: Seq::empty() };
    assert(aligned(0, 4) == 0);
    law_bounded_array_within_bound(f, data, le, Seq::empty(), 0, Seq::empty(), max);
    assert(Seq::<char>::empty() + f.name@ =~= f.name@);
    let n = read_uint(data, 0, 4, le);
    assert(Seq::<(Seq<char>, ValueV)>::empty() + byte_array_visits(f.ty, data, f.name@, 4, n)
        =~= byte_array_visits(f.ty, data, f.name@, 4, n));
    let st1 = decode_field(f, data, le, Seq::empty(), st0);
    assert(decode_fields(schema.fields@, 1, data, le, Seq::empty(), st1) == st1);
}


/// An array of one-byte values whose length is stored (`T[]`) or fixed by the
/// schema (`T[n]`) is read whole when its bytes are there: its elements are
/// reported in order, element `i` at path `name[i]` with the value of the
/// `i`-th byte of the array, and decoding goes on after them.
pub proof fn law_byte_arrays(
    f: Field,
    data: Seq<u8>,
    le: bool,
    prefix: Seq<char>,
    offset: int,
    visits: Seq<(Seq<char>, ValueV)>,
)
    requires
        prim_size(f.ty) == 1,
        0 <= offset,
        f.repitition is Unbounded ==> aligned(offset, 4) + 4 <= data.len()
            && aligned(offset, 4) + 4 + read_uint(data, offset, 4, le) <= data.len(),
        f.repitition matches Repitition::Fixed(n) ==> offset + n <= data.len(),
    ensures
        f.repitition is Unbounded ==> ({
            let start = aligned(offset, 4) + 4;
            let n = read_uint(data, offset, 4, le);
            decode_field(f, data, le, prefix, (State::Running { offset, visits })) == (State::Running {
                offset: start + n,
                visits: visits + byte_array_visits(f.ty, data, prefix + f.name@, start, n),
            })
        }),
        f.repitition matches Repitition::Fixed(n) ==> decode_field(f, data, le, prefix, (State::Running { offset, visits }))
            == (State::Running {
                offset: offset + n,
                visits: visits + byte_array_visits(f.ty, data, prefix + f.name@, offset, n as nat),
            }),
{
    let name = prefix + f.name@;
    match f.repitition {
        Repitition::Unbounded => {
            let start = aligned(offset, 4) + 4;
            let n = read_uint(data, offset, 4, le);
            assert(visits + byte_array_visits(f.ty, data, name, start, 0) =~= visits);
            lemma_byte_elems(f, 0, n, data, le, name, start, visits);
        },
        Repitition::Fixed(n) => {
            assert(visits + byte_array_visits(f.ty, data, name, offset, 0) =~= visits);
            lemma_byte_elems(f, 0, n as nat, data, le, name, offset, visits);
        },
        _ => {},
    }
}

/// How a primitive's bytes become its value: a byte is its own value as
/// `uint8`, and as `int8` it is negative from 128 on (two's complement); a
/// `bool` is true for any byte but zero.
pub proof fn law_byte_values(b: u8)
    ensures
        prim_value(Type::U8, b as nat) == ValueV::U8(b),
        prim_value(Type::I8, b as nat) == ValueV::I8((if b < 128 { b as int } else { b - 256 }) as i8),
        prim_value(Type::Bool, b as nat) == ValueV::Bool(b != 0),
{
}


/// Whether every field of `fs` holds a single one-byte value (`bool`, `int8`,
/// `uint8`).
pub open spec fn single_byte_fields(fs: Seq<Field>) -> bool {
    forall|i: int| 0 <= i < fs.len() ==> (#[trigger] fs[i]).repitition == Repitition::Single && prim_size(fs[i].ty) == 1
}

/// The values of fields `0..n` of `fs`, each a single byte, read one after the
/// other from `start`, each at the path `prefix` followed by its name.
pub open spec fn single_byte_visits(fs: Seq<Field>, data: Seq<u8>, prefix: Seq<char>, start: int, n: nat) -> Seq<(Seq<char>, ValueV)> {
    Seq::new(n, |i: int| (prefix + fs[i].name@, prim_value(fs[i].ty, data[start + i] as nat)))
}

proof fn lemma_single_byte_fields(
    fs: Seq<Field>,
    i: nat,
    data: Seq<u8>,
    le: bool,
    prefix: Seq<char>,
    start: int,
    visits: Seq<(Seq<char>, ValueV)>,
)
    requires
        single_byte_fields(fs),
        0 <= start,
        start + fs.len() <= data.len(),
        i <= fs.len(),
    ensures
        decode_fields(fs, i as int, data, le, prefix,
            (State::Running { offset: start + i, visits: visits + single_byte_visits(fs, data, prefix, start, i) }))
            == (State::Running { offset: start + fs.len(), visits: visits + single_byte_visits(fs, data, prefix, start, fs.len()) }),
    decreases fs.len() - i,
{
    if i < fs.len() {
        let f = fs[i as int];
        let name = prefix + f.name@;
        let st = State::Running { offset: start + i, visits: visits + single_byte_visits(fs, data, prefix, start, i) };
        let v = (name, prim_value(f.ty, data[start + i] as nat));
        let st1 = State::Running {
            offset: start + i + 1,
            visits: visits + single_byte_visits(fs, data, prefix, start, i + 1),
        };
        lemma_read_uint_1(data, start + i, le);
        assert(!(f.ty is Msg));
        assert(read_prim(f.ty, data, start + i, le) == Prim::Read { value: v.1, end: start + i + 1 });
        assert(visits + single_byte_visits(fs, data, prefix, start, i + 1)
            =~= (visits + single_byte_visits(fs, data, prefix, start, i)).push(v));
        assert(decode_value(f.ty, data, le, elem_path(f, name, 0), st) == st1);
        assert(decode_elems(f, 1, 1, data, le, name, st1) == st1);
        assert(decode_field(f, data, le, prefix, st) == st1);
        lemma_single_byte_fields(fs, i + 1, data, le, prefix, start, visits);
    }
}

/// A message whose fields each hold a single one-byte value decodes, after the
/// four-byte header, to one value per field, in the order of the fields: field
/// `i` at the path of its name, with the value of byte `i` after the header.
pub proof fn law_single_byte_message(schema: Msg, input: Seq<u8>)
    requires
        single_byte_fields(schema.fields@),
        input.len() >= 4 + schema.fields@.len(),
    ensures
        decode_spec(schema, input) == (State::Running {
            offset: schema.fields@.len() as int,
            visits: single_byte_visits(schema.fields@, input.skip(4), Seq::empty(), 0, schema.fields@.len()),
        }),
{
    let fs = schema.fields@;
    let data = input.skip(4);
    let e = Seq::<(Seq<char>, ValueV)>::empty();
    assert(e + single_byte_visits(fs, data, Seq::empty(), 0, 0) =~= e);
    lemma_single_byte_fields(fs, 0, data, input[1] % 2 == 1, Seq::empty(), 0, e);
    assert(e + single_byte_visits(fs, data, Seq::empty(), 0, fs.len()) =~= single_byte_visits(fs, data, Seq::empty(), 0, fs.len()));
}

/// A field holding one nested message is reported through the fields of that
/// message, each at the field's path followed by the nested field's name: a
/// nested message with a single one-byte field `g` gives the one value at
/// path `prefix name g`.
pub proof fn law_nested_message_path(
    f: Field,
    g: Field,
    data: Seq<u8>,
    le: bool,
    prefix: Seq<char>,
    offset: int,
    visits: Seq<(Seq<char>, ValueV)>,
)
    requires
        f.repitition == Repitition::Single,
        f.ty matches Type::Msg(m) && m.fields@ == seq![g],
        g.repitition == Repitition::Single,
        prim_size(g.ty) == 1,
        0 <= offset < data.len(),
    ensures
        decode_field(f, data, le, prefix, (State::Running { offset, visits })) == (State::Running {
            offset: offset + 1,
            visits: visits.push((prefix + f.name@ + g.name@, prim_value(g.ty, data[offset] as nat))),
        }),
{
    let m = f.ty->Msg_0;
    let name = prefix + f.name@;
    let st = State::Running { offset, visits };
    let fs = m.fields@;
    assert(single_byte_fields(fs));
    assert(visits + single_byte_visits(fs, data, name, offset, 0) =~= visits);
    lemma_single_byte_fields(fs, 0, data, le, name, offset, visits);
    assert(visits + single_byte_visits(fs, data, name, offset, 1)
        =~= visits.push((name + g.name@, prim_value(g.ty, data[offset] as nat))));
    let st1 = State::Running {
        offset: offset + 1,
        visits: visits.push((name + g.name@, prim_value(g.ty, data[offset] as nat))),
    };
    assert(decode_value(f.ty, data, le, elem_path(f, name, 0), st) == st1);
    assert(decode_elems(f, 1, 1, data, le, name, st1) == st1);
}


/// A string field is its four-byte length `L` (counting a terminating NUL)
/// followed by `L` bytes: the value is the text of the `L - 1` bytes before the
/// NUL where they are UTF-8, else decoding stops with `Utf8Error` holding those
/// bytes; a length of 0 or 1 is the empty string. Decoding goes on after the
/// `L` bytes.
pub proof fn law_string_field(
    f: Field,
    data: Seq<u8>,
    le: bool,
    prefix: Seq<char>,
    offset: int,
    visits: Seq<(Seq<char>, ValueV)>,
)
    requires
        f.repitition == Repitition::Single,
        f.ty == Type::Str,
        fits(data.len() as int, offset, 4),
        aligned(offset, 4) + 4 + read_uint(data, offset, 4, le) <= usize::MAX,
        aligned(offset, 4) + 4 + read_uint(data, offset, 4, le) - 1 <= data.len(),
    ensures
        ({
            let start = aligned(offset, 4) + 4;
            let len = read_uint(data, offset, 4, le);
            let bytes = data.subrange(start, start + len - 1);
            let st = decode_field(f, data, le, prefix, (State::Running { offset, visits }));
            &&& len <= 1 ==> st == (State::Running {
                offset: start + len,
                visits: visits.push((prefix + f.name@, ValueV::Str(Seq::empty()))),
            })
            &&& len > 1 && valid_utf8(bytes) ==> st == (State::Running {
                offset: start + len,
                visits: visits.push((prefix + f.name@, ValueV::Str(decode_utf8(bytes)))),
            })
            &&& len > 1 && !valid_utf8(bytes) ==> st == (State::Stopped {
                visits,
                error: (ErrorView::Utf8Error { data: bytes }),
            })
        }),
{
    let name = prefix + f.name@;
    let st = State::Running { offset, visits };
    let st1 = decode_value(f.ty, data, le, elem_path(f, name, 0), st);
    assert(elem_path(f, name, 0) == name);
    assert(decode_elems(f, 1, 1, data, le, name, st1) == st1);
    if str_len(data, offset, le) <= 1 {
        assert(str_bytes(data, offset, le) == Seq::<u8>::empty());
        assert(valid_utf8(Seq::<u8>::empty()));
        assert(decode_utf8(Seq::<u8>::empty()) == Seq::<char>::empty());
    }
}


/// How the unsigned number `u` that a primitive's bytes read as becomes its
/// value: unsigned types keep it, signed types are negative from half their
/// range on (two's complement), and floats keep it as their bit pattern.
pub proof fn law_wide_values(u: nat)
    ensures
        u < 0x1_0000 ==> prim_value(Type::U16, u) == ValueV::U16(u as u16)
            && prim_value(Type::I16, u) == ValueV::I16((if u < 0x8000 { u as int } else { u - 0x1_0000 }) as i16),
        u < 0x1_0000_0000 ==> prim_value(Type::U32, u) == ValueV::U32(u as u32)
            && prim_value(Type::F32, u) == ValueV::F32(u as u32)
            && prim_value(Type::I32, u) == ValueV::I32((if u < 0x8000_0000 { u as int } else { u - 0x1_0000_0000 }) as i32),
        u < 0x1_0000_0000_0000_0000 ==> prim_value(Type::U64, u) == ValueV::U64(u as u64)
            && prim_value(Type::F64, u) == ValueV::F64(u as u64)
            && prim_value(Type::I64, u) == ValueV::I64(
                (if u < 0x8000_0000_0000_0000 { u as int } else { u - 0x1_0000_0000_0000_0000 }) as i64),
{
}


/// A field holding one number or `bool` of `n` bytes is read at the first
/// multiple of `n` at or after the position (for `n > 1`), reported at the
/// path of its name, and decoding goes on right after its bytes.
pub proof fn law_single_number_field(
    f: Field,
    data: Seq<u8>,
    le: bool,
    prefix: Seq<char>,
    offset: int,
    visits: Seq<(Seq<char>, ValueV)>,
)
    requires
        f.repitition == Repitition::Single,
        prim_size(f.ty) > 0,
        fits(data.len() as int, offset, prim_size(f.ty)),
    ensures
        decode_field(f, data, le, prefix, (State::Running { offset, visits })) == (State::Running {
            offset: aligned(offset, prim_size(f.ty)) + prim_size(f.ty),
            visits: visits.push((prefix + f.name@, prim_value(f.ty, read_uint(data, offset, prim_size(f.ty), le)))),
        }),
{
    let name = prefix + f.name@;
    let st = State::Running { offset, visits };
    let st1 = decode_value(f.ty, data, le, elem_path(f, name, 0), st);
    assert(elem_path(f, name, 0) == name);
    assert(!(f.ty is Msg) && !(f.ty is Str));
    assert(decode_elems(f, 1, 1, data, le, name, st1) == st1);
}

} // verus!
