//! Parsing of `.msg` schema text.
//!
//! A schema is the text of one message definition, followed by the definitions
//! of the messages it uses. Definitions are separated by lines made of three or
//! more `=`; each definition after the first names its message on a line
//! `MSG: <package>/<name>`. A field line is a type, a space, and a name; a line
//! with `=` after the type defines a constant, which is skipped; `#` starts a
//! comment. A type is a primitive (`bool`, `byte`, `char`, `float32`,
//! `float64`, `int8`..`uint64`, `string`) or a message name, optionally followed
//! by `[]`, `[N]` or `[<=N]`.
use crate::schema::table::{IdV, MessageTable, IdMap};
use crate::schema::{Field, Msg, MsgId, Repitition, Type, TypeV, FieldV, MsgV};
use crate::text::{
    chars_of, find_char, in_class, index_of, lemma_index_of, lemma_prefix_len, lines, prefix_len,
    run_end, slice_chars, split_char, str_from_utf8, string_from_chars, strip_cr, trim, trim_start,
    trimmed, Class, is_ws, lemma_prefix_len_is, space_suffix_len,
};
use crate::schema::{field_view, fields_view, lemma_msg_fields_push, msg_view};
use crate::decode::{decimal, digit_char};
use std::sync::Arc;
use vstd::prelude::*;
use vstd::utf8::*;

verus! {

/// An error in a schema.
#[derive(Debug)]
pub enum Error {
    InvalidMessageName(String),
    MissingMessageName(String),
    MissingMessageDefinition(MsgId),
    InvalidFieldDefinition(String),
    InvalidFieldType(String),
    SchemaTextUtf8(std::str::Utf8Error),
}

/// What an [`Error`] states, as plain values.
pub enum ErrorV {
    InvalidMessageName(Seq<char>),
    MissingMessageName(Seq<char>),
    MissingMessageDefinition(IdV),
    InvalidFieldDefinition(Seq<char>),
    InvalidFieldType(Seq<char>),
    SchemaTextUtf8,
}

impl View for Error {
    type V = ErrorV;

    open spec fn view(&self) -> ErrorV {
        match self {
            Error::InvalidMessageName(s) => ErrorV::InvalidMessageName(s@),
            Error::MissingMessageName(s) => ErrorV::MissingMessageName(s@),
            Error::MissingMessageDefinition(id) => ErrorV::MissingMessageDefinition(id@),
            Error::InvalidFieldDefinition(s) => ErrorV::InvalidFieldDefinition(s@),
            Error::InvalidFieldType(s) => ErrorV::InvalidFieldType(s@),
            Error::SchemaTextUtf8(_) => ErrorV::SchemaTextUtf8,
        }
    }
}

/// The outcome of a parsing step: a value, an error, or an input on which
/// parsing does not complete (an array length beyond `usize`, a `wstring`
/// field, or a field line with no name).
pub enum Outcome<T> {
    Done(T),
    Failed(ErrorV),
    Unsupported,
}

pub open spec fn msg_word() -> Seq<char> {
    "msg"@
}

/// The package and name in `package/name` or `package/msg/name`.
pub open spec fn name_parts(s: Seq<char>) -> Option<IdV> {
    match index_of(s, '/') {
        None => None,
        Some(i) => {
            let rest = s.skip(i + 1);
            match index_of(rest, '/') {
                None => Some((s.take(i), rest)),
                Some(j) => {
                    let last = rest.skip(j + 1);
                    if rest.take(j) == msg_word() && index_of(last, '/') is None {
                        Some((s.take(i), last))
                    } else {
                        None
                    }
                },
            }
        },
    }
}

/// How a type's suffix repeats the field.
pub enum Suffix {
    Single,
    Unbounded,
    Fixed(nat),
    Bounded(nat),
    Invalid,
}

pub open spec fn all_digits(s: Seq<char>) -> bool {
    forall|i: int| 0 <= i < s.len() ==> in_class(#[trigger] s[i], Class::Digit)
}

/// The value of a string of decimal digits.
pub open spec fn digits_value(s: Seq<char>) -> nat
    decreases s.len(),
{
    if s.len() == 0 {
        0
    } else {
        digits_value(s.drop_last()) * 10 + ((s.last() as nat) - 48) as nat
    }
}

/// The suffix after a type name: nothing, `[]`, `[N]` or `[<=N]`.
pub open spec fn suffix_of(rest: Seq<char>) -> Suffix {
    if rest.len() == 0 {
        Suffix::Single
    } else if rest.len() >= 2 && rest[0] == '[' && rest.last() == ']' {
        let inner = rest.subrange(1, rest.len() - 1);
        if inner.len() == 0 {
            Suffix::Unbounded
        } else if inner.len() >= 2 && inner[0] == '<' && inner[1] == '=' {
            let d = inner.skip(2);
            if d.len() > 0 && all_digits(d) {
                Suffix::Bounded(digits_value(d))
            } else {
                Suffix::Invalid
            }
        } else if all_digits(inner) {
            Suffix::Fixed(digits_value(inner))
        } else {
            Suffix::Invalid
        }
    } else {
        Suffix::Invalid
    }
}

/// What a type name stands for.
pub enum BaseType {
    Primitive(TypeV),
    WString,
    Custom,
}

pub open spec fn base_type(b: Seq<char>) -> BaseType {
    if b == "bool"@ {
        BaseType::Primitive(TypeV::Bool)
    } else if b == "byte"@ || b == "int8"@ {
        BaseType::Primitive(TypeV::I8)
    } else if b == "char"@ || b == "uint8"@ {
        BaseType::Primitive(TypeV::U8)
    } else if b == "float32"@ {
        BaseType::Primitive(TypeV::F32)
    } else if b == "float64"@ {
        BaseType::Primitive(TypeV::F64)
    } else if b == "int16"@ {
        BaseType::Primitive(TypeV::I16)
    } else if b == "uint16"@ {
        BaseType::Primitive(TypeV::U16)
    } else if b == "int32"@ {
        BaseType::Primitive(TypeV::I32)
    } else if b == "uint32"@ {
        BaseType::Primitive(TypeV::U32)
    } else if b == "int64"@ {
        BaseType::Primitive(TypeV::I64)
    } else if b == "uint64"@ {
        BaseType::Primitive(TypeV::U64)
    } else if b == "string"@ {
        BaseType::Primitive(TypeV::Str)
    } else if b == "wstring"@ {
        BaseType::WString
    } else {
        BaseType::Custom
    }
}

/// The repetition a suffix gives, or `None` where its length exceeds `usize`.
pub open spec fn repitition_of(sfx: Suffix) -> Option<Repitition> {
    match sfx {
        Suffix::Single => Some(Repitition::Single),
        Suffix::Unbounded => Some(Repitition::Unbounded),
        Suffix::Fixed(n) => if n <= usize::MAX {
            Some(Repitition::Fixed(n as usize))
        } else {
            None
        },
        Suffix::Bounded(n) => if n <= usize::MAX {
            Some(Repitition::Bounded(n as usize))
        } else {
            None
        },
        Suffix::Invalid => None,
    }
}

/// A line that holds a field or a constant: not blank and not a comment.
pub open spec fn is_field_line(l: Seq<char>) -> bool {
    trim(l).len() > 0 && trim(l)[0] != '#'
}

/// A line without its comment.
pub open spec fn strip_comment(l: Seq<char>) -> Seq<char> {
    match index_of(l, '#') {
        Some(i) => l.take(i),
        None => l,
    }
}

/// The field and constant lines of a definition, comments removed.
pub open spec fn field_lines(ls: Seq<Seq<char>>) -> Seq<Seq<char>>
    decreases ls.len(),
{
    if ls.len() == 0 {
        Seq::empty()
    } else if is_field_line(ls.last()) {
        field_lines(ls.drop_last()).push(strip_comment(ls.last()))
    } else {
        field_lines(ls.drop_last())
    }
}

/// The first whitespace-separated word of `s`.
pub open spec fn first_word(s: Seq<char>) -> Seq<char> {
    let t = trim_start(s);
    t.take(prefix_len(t, Class::NonSpace) as int)
}

/// Parses one field line of a message in package `pkg`, with `t` the messages
/// parsed so far and `u` the texts of messages not yet parsed. Resolving a
/// message type parses its definition first.
pub open spec fn parse_field_spec(
    pkg: Seq<char>,
    line: Seq<char>,
    t: Map<IdV, MsgV>,
    u: Map<IdV, Seq<char>>,
) -> (Outcome<Option<FieldV>>, Map<IdV, MsgV>, Map<IdV, Seq<char>>)
    decreases u.len(), 0nat, 2nat,
{
    match index_of(line, ' ') {
        None => (Outcome::Failed(ErrorV::InvalidFieldDefinition(line)), t, u),
        Some(sp) => {
            let raw_type = line.take(sp);
            let remaining = line.skip(sp + 1);
            if index_of(remaining, '=') is Some {
                (Outcome::Done(None), t, u)
            } else if trim_start(remaining).len() == 0 {
                (Outcome::Unsupported, t, u)
            } else {
                let name = first_word(remaining);
                let field_type = trim(raw_type);
                let base = field_type.take(prefix_len(field_type, Class::TypeName) as int);
                let sfx = suffix_of(field_type.skip(base.len() as int));
                if base.len() == 0 || sfx is Invalid {
                    (Outcome::Failed(ErrorV::InvalidFieldType(field_type)), t, u)
                } else {
                    match repitition_of(sfx) {
                        None => (Outcome::Unsupported, t, u),
                        Some(rep) => match base_type(base) {
                            BaseType::WString => (Outcome::Unsupported, t, u),
                            BaseType::Primitive(ty) => (
                                Outcome::Done(Some(FieldV { name, ty, repitition: rep })),
                                t,
                                u,
                            ),
                            BaseType::Custom => {
                                let id = match name_parts(base) {
                                    Some(id) => id,
                                    None => (pkg, base),
                                };
                                match parse_message_spec(id, t, u) {
                                    (Outcome::Done(m), t2, u2) => (
                                        Outcome::Done(Some(FieldV { name, ty: TypeV::Msg(m), repitition: rep })),
                                        t2,
                                        u2,
                                    ),
                                    (Outcome::Failed(e), t2, u2) => (Outcome::Failed(e), t2, u2),
                                    (Outcome::Unsupported, t2, u2) => (Outcome::Unsupported, t2, u2),
                                }
                            },
                        },
                    }
                }
            }
        },
    }
}

/// Parses field lines `i..` of a message in package `pkg`, after the fields `acc`.
pub open spec fn parse_lines_spec(
    pkg: Seq<char>,
    ls: Seq<Seq<char>>,
    i: int,
    acc: Seq<FieldV>,
    t: Map<IdV, MsgV>,
    u: Map<IdV, Seq<char>>,
) -> (Outcome<Seq<FieldV>>, Map<IdV, MsgV>, Map<IdV, Seq<char>>)
    decreases u.len(), ls.len() - i, 0nat,
{
    if i < 0 || i >= ls.len() {
        (Outcome::Done(acc), t, u)
    } else {
        match parse_field_spec(pkg, ls[i], t, u) {
            (Outcome::Done(f), t2, u2) => {
                // Parsing a field only ever removes texts from `u`.
                if u2.dom().finite() && u2.len() <= u.len() {
                    let acc2 = match f {
                        Some(field) => acc.push(field),
                        None => acc,
                    };
                    parse_lines_spec(pkg, ls, i + 1, acc2, t2, u2)
                } else {
                    (Outcome::Unsupported, t2, u2)
                }
            },
            (Outcome::Failed(e), t2, u2) => (Outcome::Failed(e), t2, u2),
            (Outcome::Unsupported, t2, u2) => (Outcome::Unsupported, t2, u2),
        }
    }
}

/// Parses message `id`: from the table if it is there, else from its text in
/// `u`, which is taken out of `u` first (so a message that uses itself, directly
/// or not, is reported as missing). A parsed message is added to the table.
pub open spec fn parse_message_spec(
    id: IdV,
    t: Map<IdV, MsgV>,
    u: Map<IdV, Seq<char>>,
) -> (Outcome<MsgV>, Map<IdV, MsgV>, Map<IdV, Seq<char>>)
    decreases u.len(), 0nat, 1nat,
{
    if t.contains_key(id) {
        (Outcome::Done(t[id]), t, u)
    } else if !u.contains_key(id) {
        (Outcome::Failed(ErrorV::MissingMessageDefinition(id)), t, u)
    } else if !u.dom().finite() {
        // The texts not yet parsed are always finitely many.
        (Outcome::Unsupported, t, u)
    } else {
        let ls = field_lines(lines(u[id]));
        match parse_lines_spec(id.0, ls, 0, Seq::empty(), t, u.remove(id)) {
            (Outcome::Done(fields), t2, u2) => (
                Outcome::Done(MsgV { fields }),
                t2.insert(id, MsgV { fields }),
                u2,
            ),
            (Outcome::Failed(e), t2, u2) => (Outcome::Failed(e), t2, u2),
            (Outcome::Unsupported, t2, u2) => (Outcome::Unsupported, t2, u2),
        }
    }
}

/// A line made of three or more `=`, which separates definitions.
pub open spec fn is_separator(l: Seq<char>) -> bool {
    l.len() >= 3 && prefix_len(l, Class::Equals) == l.len()
}

/// The lines of `raw` grouped between separator lines.
pub open spec fn groups(raw: Seq<Seq<char>>) -> Seq<Seq<Seq<char>>>
    decreases raw.len(),
{
    if raw.len() == 0 {
        seq![Seq::empty()]
    } else {
        let g = groups(raw.drop_last());
        if is_separator(raw.last()) {
            g.push(Seq::empty())
        } else {
            g.update(g.len() - 1, g.last().push(raw.last()))
        }
    }
}

/// Lines joined with `\n` between them.
pub open spec fn join_lines(ls: Seq<Seq<char>>) -> Seq<char>
    decreases ls.len(),
{
    if ls.len() == 0 {
        Seq::empty()
    } else if ls.len() == 1 {
        ls[0]
    } else {
        join_lines(ls.drop_last()) + seq!['\n'] + ls.last()
    }
}

/// The definitions in a schema text: the text split at separator lines,
/// each part trimmed.
pub open spec fn sections(text: Seq<char>) -> Seq<Seq<char>> {
    groups(split_char(text, '\n')).map_values(|g: Seq<Seq<char>>| trim(join_lines(g)))
}

pub open spec fn msg_tag() -> Seq<char> {
    "MSG:"@
}

/// A `MSG: <name>` header starting at `p`: `MSG:`, white space (which may span
/// lines), a name without white space, then the end of a line. Gives where the
/// header ends and the name.
pub open spec fn header_at(s: Seq<char>, p: int) -> Option<(int, Seq<char>)> {
    let r = s.skip(p);
    if r.len() >= 4 && r.take(4) == msg_tag() {
        let w = prefix_len(r.skip(4), Class::Space);
        let rest = r.skip(4 + w as int);
        let n = prefix_len(rest, Class::NonSpace);
        let end = p + 4 + w + n;
        if w > 0 && n > 0 && (end == s.len() || s[end] == '\n') {
            Some((end, rest.take(n as int)))
        } else {
            None
        }
    } else {
        None
    }
}

/// The first `MSG:` header at the start of a line, at or after `p`: where it
/// starts, where it ends, and the name it gives.
pub open spec fn find_header(s: Seq<char>, p: int) -> Option<(int, int, Seq<char>)>
    decreases s.len() - p,
{
    if p < 0 || p >= s.len() {
        None
    } else if (p == 0 || s[p - 1] == '\n') && header_at(s, p) is Some {
        let (end, name) = header_at(s, p)->0;
        Some((p, end, name))
    } else {
        find_header(s, p + 1)
    }
}

/// Records the texts of definitions `i..`: each must name its message in a
/// header, which is removed from its text; messages already in `t` are skipped.
pub open spec fn register_sections(
    secs: Seq<Seq<char>>,
    i: int,
    t: Map<IdV, MsgV>,
    u: Map<IdV, Seq<char>>,
) -> Outcome<Map<IdV, Seq<char>>>
    decreases secs.len() - i,
{
    if i < 0 || i >= secs.len() {
        Outcome::Done(u)
    } else {
        let sec = secs[i];
        match find_header(sec, 0) {
            None => Outcome::Failed(ErrorV::MissingMessageName(sec)),
            Some((p, end, name)) => match name_parts(name) {
                None => Outcome::Failed(ErrorV::InvalidMessageName(name)),
                Some(id) => if t.contains_key(id) {
                    register_sections(secs, i + 1, t, u)
                } else {
                    register_sections(secs, i + 1, t, u.insert(id, sec.take(p) + sec.skip(end)))
                },
            },
        }
    }
}

/// Parsing of schema `schema_name` from `schema_text`, with `t` the messages
/// parsed before: the message, and the table afterwards.
pub open spec fn parse_spec(schema_name: Seq<char>, schema_text: Seq<u8>, t: Map<IdV, MsgV>) -> (
    Outcome<MsgV>,
    Map<IdV, MsgV>,
) {
    match name_parts(schema_name) {
        None => (Outcome::Failed(ErrorV::InvalidMessageName(schema_name)), t),
        Some(id) => if t.contains_key(id) {
            (Outcome::Done(t[id]), t)
        } else if !valid_utf8(schema_text) {
            (Outcome::Failed(ErrorV::SchemaTextUtf8), t)
        } else {
            let secs = sections(decode_utf8(schema_text));
            match register_sections(secs, 1, t, Map::empty().insert(id, secs[0])) {
                Outcome::Done(u) => {
                    let (o, t2, u2) = parse_message_spec(id, t, u);
                    (o, t2)
                },
                Outcome::Failed(e) => (Outcome::Failed(e), t),
                Outcome::Unsupported => (Outcome::Unsupported, t),
            }
        },
    }
}

/// Looking up schema `schema_name` in the table `t`.
pub open spec fn get_spec(schema_name: Seq<char>, t: Map<IdV, MsgV>) -> Result<Option<MsgV>, ErrorV> {
    match name_parts(schema_name) {
        None => Err(ErrorV::InvalidMessageName(schema_name)),
        Some(id) => Ok(if t.contains_key(id) { Some(t[id]) } else { None }),
    }
}


/// The views of a sequence of character vectors.
pub open spec fn seqs(v: Seq<Vec<char>>) -> Seq<Seq<char>> {
    v.map_values(|x: Vec<char>| x@)
}

proof fn lemma_seqs_push(v: Seq<Vec<char>>, x: Vec<char>)
    ensures
        seqs(v.push(x)) == seqs(v).push(x@),
{
    assert(seqs(v.push(x)) =~= seqs(v).push(x@));
}

/// Why parsing stopped.
enum Stop {
    Failed(Error),
    Unsupported,
}

/// Appends the characters of `s`.
fn append_chars(r: &mut Vec<char>, s: &[char])
    ensures
        final(r)@ == old(r)@ + s@,
{
    let n = s.len();
    let mut i: usize = 0;
    while i < n
        invariant
            n == s@.len(),
            0 <= i <= n,
            r@ == old(r)@ + s@.take(i as int),
        decreases n - i,
    {
        r.push(s[i]);
        i = i + 1;
        assert(r@ =~= old(r)@ + s@.take(i as int));
    }
    assert(s@.take(n as int) =~= s@);
}

/// Whether two character sequences are equal.
fn eq_chars(a: &[char], b: &[char]) -> (r: bool)
    ensures
        r == (a@ == b@),
{
    if a.len() != b.len() {
        return false;
    }
    let n = a.len();
    let mut i: usize = 0;
    while i < n
        invariant
            n == a@.len(),
            n == b@.len(),
            0 <= i <= n,
            forall|j: int| 0 <= j < i ==> a@[j] == b@[j],
        decreases n - i,
    {
        if a[i] != b[i] {
            return false;
        }
        i = i + 1;
    }
    assert(a@ =~= b@);
    true
}

/// Whether `a` is the word `w`.
fn is_word(a: &[char], w: &str) -> (r: bool)
    ensures
        r == (a@ == w@),
{
    let wc = chars_of(w);
    eq_chars(a, wc.as_slice())
}

/// The package and name in `package/name` or `package/msg/name`.
#[verifier::rlimit(30)]
fn name_parts_exec(s: &[char]) -> (r: Option<MsgId>)
    ensures
        r is None <==> name_parts(s@) is None,
        r matches Some(id) ==> name_parts(s@) == Some(id@),
{
    let n = s.len();
    match find_char(s, 0, '/') {
        None => {
            assert(s@.skip(0) =~= s@);
            None
        },
        Some(i) => {
            assert(s@.skip(0) =~= s@);
            let ghost rest = s@.skip(i + 1);
            match find_char(s, i + 1, '/') {
                None => {
                    let package = string_from_chars(slice_chars(s, 0, i).as_slice());
                    let name = string_from_chars(slice_chars(s, i + 1, n).as_slice());
                    assert(s@.subrange(0, i as int) =~= s@.take(i as int));
                    assert(s@.subrange(i + 1, n as int) =~= rest);
                    Some(MsgId { package, name })
                },
                Some(k) => {
                    let j = k - (i + 1);
                    let mid = slice_chars(s, i + 1, k);
                    proof {
                        assert(mid@ =~= rest.take(j as int));
                        assert(s@.skip(k + 1) =~= rest.skip(j + 1));
                    }
                    if is_word(mid.as_slice(), "msg") && find_char(s, k + 1, '/').is_none() {
                        let package = string_from_chars(slice_chars(s, 0, i).as_slice());
                        let name = string_from_chars(slice_chars(s, k + 1, n).as_slice());
                        assert(s@.subrange(0, i as int) =~= s@.take(i as int));
                        assert(s@.subrange(k + 1, n as int) =~= rest.skip(j + 1));
                        Some(MsgId { package, name })
                    } else {
                        None
                    }
                },
            }
        },
    }
}

/// Splits a message name into its package and name.
/// The message identifier that `fullname` (`package/name` or
/// `package/msg/name`) names.
pub fn parse_name_parts(fullname: &str) -> (r: Result<MsgId, Error>)
    ensures
        match r {
            Ok(id) => name_parts(fullname@) == Some(id@),
            Err(e) => name_parts(fullname@) is None && e@ == ErrorV::InvalidMessageName(fullname@),
        },
{
    let chars = chars_of(fullname);
    match name_parts_exec(chars.as_slice()) {
        Some(id) => Ok(id),
        None => Err(Error::InvalidMessageName(fullname.to_owned())),
    }
}

/// The type a name stands for, where it is a primitive.
enum BaseExec {
    Primitive(Type),
    WString,
    Custom,
}

fn base_type_exec(b: &[char]) -> (r: BaseExec)
    ensures
        match r {
            BaseExec::Primitive(t) => !(t is Msg) && base_type(b@) == BaseType::Primitive(t@),
            BaseExec::WString => base_type(b@) is WString,
            BaseExec::Custom => base_type(b@) is Custom,
        },
{
    if is_word(b, "bool") {
        BaseExec::Primitive(Type::Bool)
    } else if is_word(b, "byte") || is_word(b, "int8") {
        BaseExec::Primitive(Type::I8)
    } else if is_word(b, "char") || is_word(b, "uint8") {
        BaseExec::Primitive(Type::U8)
    } else if is_word(b, "float32") {
        BaseExec::Primitive(Type::F32)
    } else if is_word(b, "float64") {
        BaseExec::Primitive(Type::F64)
    } else if is_word(b, "int16") {
        BaseExec::Primitive(Type::I16)
    } else if is_word(b, "uint16") {
        BaseExec::Primitive(Type::U16)
    } else if is_word(b, "int32") {
        BaseExec::Primitive(Type::I32)
    } else if is_word(b, "uint32") {
        BaseExec::Primitive(Type::U32)
    } else if is_word(b, "int64") {
        BaseExec::Primitive(Type::I64)
    } else if is_word(b, "uint64") {
        BaseExec::Primitive(Type::U64)
    } else if is_word(b, "string") {
        BaseExec::Primitive(Type::Str)
    } else if is_word(b, "wstring") {
        BaseExec::WString
    } else {
        BaseExec::Custom
    }
}

proof fn lemma_digits_value_mono(s: Seq<char>, m: int)
    requires
        0 <= m <= s.len(),
    ensures
        digits_value(s.take(m)) <= digits_value(s),
    decreases s.len() - m,
{
    if m < s.len() {
        lemma_digits_value_mono(s, m + 1);
        assert(s.take(m + 1).drop_last() =~= s.take(m));
    } else {
        assert(s.take(m) =~= s);
    }
}

/// The value of the digits `s[a..b]`, or `None` where it exceeds `usize`.
fn digits_usize(s: &[char], a: usize, b: usize) -> (r: Option<usize>)
    requires
        a <= b <= s@.len(),
        all_digits(s@.subrange(a as int, b as int)),
    ensures
        r is None <==> digits_value(s@.subrange(a as int, b as int)) > usize::MAX,
        r matches Some(v) ==> v == digits_value(s@.subrange(a as int, b as int)),
{
    let ghost d = s@.subrange(a as int, b as int);
    let mut v: usize = 0;
    let mut i = a;
    assert(d.take(0) =~= Seq::<char>::empty());
    while i < b
        invariant
            a <= i <= b <= s@.len(),
            d == s@.subrange(a as int, b as int),
            all_digits(d),
            v == digits_value(d.take(i - a)),
        decreases b - i,
    {
        let c = s[i];
        assert(in_class(d[i - a], Class::Digit));
        assert(d[i - a] == c);
        let digit = (c as u32 - 48) as usize;
        assert(d.take(i - a + 1).drop_last() =~= d.take(i - a));
        match v.checked_mul(10) {
            Some(w) => match w.checked_add(digit) {
                Some(x) => {
                    v = x;
                },
                None => {
                    proof {
                        lemma_digits_value_mono(d, i - a + 1);
                    }
                    return None;
                },
            },
            None => {
                proof {
                    lemma_digits_value_mono(d, i - a + 1);
                }
                return None;
            },
        }
        i = i + 1;
    }
    assert(d.take(b - a) =~= d);
    Some(v)
}

/// The repetition given by the suffix of field type `ft` after its name of
/// length `b`: `Err` for an invalid suffix, `Ok(None)` for a length beyond `usize`.
fn repitition_exec(ft: &[char], b: usize) -> (r: Result<Option<Repitition>, ()>)
    requires
        b <= ft@.len(),
    ensures
        r is Err <==> suffix_of(ft@.skip(b as int)) is Invalid,
        r matches Ok(o) ==> o == repitition_of(suffix_of(ft@.skip(b as int))),
{
    let n = ft.len();
    let ghost rest = ft@.skip(b as int);
    if b == n {
        return Ok(Some(Repitition::Single));
    }
    if n - b >= 2 && ft[b] == '[' && ft[n - 1] == ']' {
        let ib = b + 1;
        let ie = n - 1;
        let ghost inner = rest.subrange(1, rest.len() - 1);
        assert(inner =~= ft@.subrange(ib as int, ie as int));
        if ib == ie {
            return Ok(Some(Repitition::Unbounded));
        }
        if ie - ib >= 2 && ft[ib] == '<' && ft[ib + 1] == '=' {
            let ds = ib + 2;
            let e = run_end(ft, ds, &Class::Digit);
            proof {
                lemma_prefix_len(ft@.skip(ds as int), Class::Digit);
                assert(inner.skip(2) =~= ft@.subrange(ds as int, ie as int));
            }
            if ds < ie && e >= ie {
                assert(all_digits(ft@.subrange(ds as int, ie as int))) by {
                    assert forall|k: int| 0 <= k < ie - ds implies in_class(#[trigger] ft@.subrange(ds as int, ie as int)[k], Class::Digit) by {
                        assert(ft@.subrange(ds as int, ie as int)[k] == ft@.skip(ds as int)[k]);
                    }
                }
                return match digits_usize(ft, ds, ie) {
                    Some(v) => Ok(Some(Repitition::Bounded(v))),
                    None => Ok(None),
                };
            } else {
                proof {
                    if ds < ie {
                        let k = (e - ds) as int;
                        assert(ft@.skip(ds as int)[k] == ft@.subrange(ds as int, ie as int)[k]);
                        assert(!all_digits(ft@.subrange(ds as int, ie as int)));
                    }
                }
                return Err(());
            }
        }
        let e = run_end(ft, ib, &Class::Digit);
        proof {
            lemma_prefix_len(ft@.skip(ib as int), Class::Digit);
        }
        if e >= ie {
            assert(all_digits(inner)) by {
                assert forall|k: int| 0 <= k < inner.len() implies in_class(#[trigger] inner[k], Class::Digit) by {
                    assert(inner[k] == ft@.skip(ib as int)[k]);
                }
            }
            match digits_usize(ft, ib, ie) {
                Some(v) => Ok(Some(Repitition::Fixed(v))),
                None => Ok(None),
            }
        } else {
            proof {
                let k = (e - ib) as int;
                assert(ft@.skip(ib as int)[k] == inner[k]);
            }
            Err(())
        }
    } else {
        Err(())
    }
}


/// The lines of `s` (`str::lines`).
fn lines_exec(s: &[char]) -> (r: Vec<Vec<char>>)
    ensures
        seqs(r@) == lines(s@),
{
    let n = s.len();
    let mut out: Vec<Vec<char>> = Vec::new();
    let mut pos: usize = 0;
    assert(s@.skip(0) =~= s@);
    assert(seqs(out@) =~= Seq::<Seq<char>>::empty());
    while pos < n
        invariant
            n == s@.len(),
            0 <= pos <= n,
            lines(s@) == seqs(out@) + lines(s@.skip(pos as int)),
        decreases n - pos,
    {
        let ghost t = s@.skip(pos as int);
        let ghost old_out = out@;
        match find_char(s, pos, '\n') {
            Some(i) => {
                let mut line = slice_chars(s, pos, i);
                if line.len() > 0 && line[line.len() - 1] == '\r' {
                    line.pop();
                }
                proof {
                    assert(t.take(i - pos) =~= s@.subrange(pos as int, i as int));
                    assert(t.skip(i - pos + 1) =~= s@.skip(i + 1));
                    assert(line@ =~= strip_cr(t.take(i - pos)));
                    assert(lines(t) == seq![strip_cr(t.take(i - pos))] + lines(t.skip(i - pos + 1)));
                    lemma_seqs_push(old_out, line);
                }
                out.push(line);
                pos = i + 1;
                assert(lines(s@) =~= seqs(out@) + lines(s@.skip(pos as int)));
            },
            None => {
                let line = slice_chars(s, pos, n);
                proof {
                    assert(line@ =~= t);
                    assert(lines(t) == seq![t]);
                    lemma_seqs_push(old_out, line);
                }
                out.push(line);
                pos = n;
                proof {
                    let e = s@.skip(n as int);
                    assert(e =~= Seq::<char>::empty());
                    reveal(crate::text::index_of);
                    assert(lines(e) =~= Seq::<Seq<char>>::empty());
                    assert(lines(s@) =~= seqs(out@) + lines(s@.skip(pos as int)));
                }
            },
        }
    }
    proof {
        let e = s@.skip(n as int);
        assert(e =~= Seq::<char>::empty());
        reveal(crate::text::index_of);
        assert(lines(e) =~= Seq::<Seq<char>>::empty());
        assert(lines(s@) =~= seqs(out@));
    }
    out
}

/// `s` split at every `\n`.
fn split_newlines(s: &[char]) -> (r: Vec<Vec<char>>)
    ensures
        seqs(r@) == split_char(s@, '\n'),
{
    let n = s.len();
    let mut out: Vec<Vec<char>> = Vec::new();
    let mut pos: usize = 0;
    assert(s@.skip(0) =~= s@);
    assert(seqs(out@) =~= Seq::<Seq<char>>::empty());
    loop
        invariant
            n == s@.len(),
            0 <= pos <= n,
            split_char(s@, '\n') == seqs(out@) + split_char(s@.skip(pos as int), '\n'),
        decreases n - pos,
    {
        let ghost t = s@.skip(pos as int);
        let ghost old_out = out@;
        match find_char(s, pos, '\n') {
            Some(i) => {
                let piece = slice_chars(s, pos, i);
                proof {
                    assert(piece@ =~= t.take(i - pos));
                    assert(t.skip(i - pos + 1) =~= s@.skip(i + 1));
                    assert(split_char(t, '\n') == seq![t.take(i - pos)] + split_char(t.skip(i - pos + 1), '\n'));
                    lemma_seqs_push(old_out, piece);
                }
                out.push(piece);
                pos = i + 1;
                assert(split_char(s@, '\n') =~= seqs(out@) + split_char(s@.skip(pos as int), '\n'));
            },
            None => {
                let piece = slice_chars(s, pos, n);
                proof {
                    assert(piece@ =~= t);
                    assert(split_char(t, '\n') == seq![t]);
                    lemma_seqs_push(old_out, piece);
                    assert(split_char(s@, '\n') =~= seqs(out@.push(piece)));
                }
                out.push(piece);
                return out;
            },
        }
    }
}

/// The field and constant lines of a definition, comments removed.
fn field_lines_exec(ls: &Vec<Vec<char>>) -> (r: Vec<Vec<char>>)
    ensures
        seqs(r@) == field_lines(seqs(ls@)),
{
    let n = ls.len();
    let mut out: Vec<Vec<char>> = Vec::new();
    let mut i: usize = 0;
    assert(seqs(ls@).take(0) =~= Seq::<Seq<char>>::empty());
    assert(seqs(out@) =~= Seq::<Seq<char>>::empty());
    while i < n
        invariant
            n == ls@.len(),
            0 <= i <= n,
            seqs(out@) == field_lines(seqs(ls@).take(i as int)),
        decreases n - i,
    {
        let l = &ls[i];
        let t = trimmed(l.as_slice());
        let ghost old_out = out@;
        assert(seqs(ls@).take(i + 1).drop_last() =~= seqs(ls@).take(i as int));
        assert(seqs(ls@).take(i + 1).last() == l@);
        if t.len() > 0 && t[0] != '#' {
            let line = match find_char(l.as_slice(), 0, '#') {
                Some(k) => slice_chars(l.as_slice(), 0, k),
                None => slice_chars(l.as_slice(), 0, l.len()),
            };
            proof {
                assert(l@.skip(0) =~= l@);
                assert(l@.subrange(0, l@.len() as int) =~= l@);
                assert(line@ =~= strip_comment(l@));
                lemma_seqs_push(old_out, line);
            }
            out.push(line);
        }
        i = i + 1;
    }
    assert(seqs(ls@).take(n as int) =~= seqs(ls@));
    out
}

/// Lines joined with `\n` between them.
fn join_lines_exec(ls: &Vec<Vec<char>>) -> (r: Vec<char>)
    ensures
        r@ == join_lines(seqs(ls@)),
{
    let n = ls.len();
    let mut r: Vec<char> = Vec::new();
    let mut i: usize = 0;
    assert(seqs(ls@).take(0) =~= Seq::<Seq<char>>::empty());
    while i < n
        invariant
            n == ls@.len(),
            0 <= i <= n,
            r@ == join_lines(seqs(ls@).take(i as int)),
        decreases n - i,
    {
        let ghost before = r@;
        let ghost pre = seqs(ls@).take(i as int);
        let ghost next = seqs(ls@).take(i + 1);
        assert(next.drop_last() =~= pre);
        assert(next.last() == ls@[i as int]@);
        if i > 0 {
            r.push('\n');
        }
        append_chars(&mut r, ls[i].as_slice());
        proof {
            if i == 0 {
                assert(next =~= seq![ls@[0]@]);
                assert(r@ =~= join_lines(next));
            } else {
                assert(r@ =~= join_lines(next));
            }
        }
        i = i + 1;
    }
    assert(seqs(ls@).take(n as int) =~= seqs(ls@));
    r
}

/// Whether a line separates definitions.
fn is_separator_exec(l: &[char]) -> (b: bool)
    ensures
        b == is_separator(l@),
{
    assert(l@.skip(0) =~= l@);
    l.len() >= 3 && run_end(l, 0, &Class::Equals) == l.len()
}

/// The definitions in a schema text, each trimmed.
fn sections_exec(text: &[char]) -> (r: Vec<Vec<char>>)
    ensures
        seqs(r@) == sections(text@),
{
    let raw = split_newlines(text);
    let ghost rv = seqs(raw@);
    let n = raw.len();
    let mut done: Vec<Vec<char>> = Vec::new();
    let mut cur: Vec<Vec<char>> = Vec::new();
    let ghost f = |g: Seq<Seq<char>>| trim(join_lines(g));
    proof {
        assert(rv.take(0) =~= Seq::<Seq<char>>::empty());
        assert(seqs(done@) =~= groups(rv.take(0)).drop_last().map_values(f));
        assert(seqs(cur@) =~= groups(rv.take(0)).last());
    }
    let mut k: usize = 0;
    while k < n
        invariant
            n == raw@.len(),
            rv == seqs(raw@),
            0 <= k <= n,
            f == (|g: Seq<Seq<char>>| trim(join_lines(g))),
            groups(rv.take(k as int)).len() >= 1,
            seqs(done@) == groups(rv.take(k as int)).drop_last().map_values(f),
            seqs(cur@) == groups(rv.take(k as int)).last(),
        decreases n - k,
    {
        let ghost g = groups(rv.take(k as int));
        assert(rv.take(k + 1).drop_last() =~= rv.take(k as int));
        assert(rv.take(k + 1).last() == raw@[k as int]@);
        let line = &raw[k];
        if is_separator_exec(line.as_slice()) {
            let joined = join_lines_exec(&cur);
            let sec = trimmed(joined.as_slice());
            let ghost old_done = done@;
            proof {
                lemma_seqs_push(old_done, sec);
            }
            done.push(sec);
            cur = Vec::new();
            proof {
                let g2 = groups(rv.take(k + 1));
                assert(g2 == g.push(Seq::empty()));
                assert(g2.drop_last() =~= g);
                assert(g =~= g.drop_last().push(g.last()));
                assert(seqs(done@) =~= g2.drop_last().map_values(f));
                assert(seqs(cur@) =~= g2.last());
            }
        } else {
            let copy = slice_chars(line.as_slice(), 0, line.len());
            assert(line@.subrange(0, line@.len() as int) =~= line@);
            let ghost old_cur = cur@;
            proof {
                lemma_seqs_push(old_cur, copy);
            }
            cur.push(copy);
            proof {
                let g2 = groups(rv.take(k + 1));
                assert(g2 == g.update(g.len() - 1, g.last().push(raw@[k as int]@)));
                assert(g2.drop_last() =~= g.drop_last());
                assert(seqs(cur@) =~= g2.last());
            }
        }
        k = k + 1;
    }
    let joined = join_lines_exec(&cur);
    let sec = trimmed(joined.as_slice());
    let ghost old_done = done@;
    proof {
        lemma_seqs_push(old_done, sec);
    }
    done.push(sec);
    proof {
        let g = groups(rv.take(n as int));
        assert(rv.take(n as int) =~= rv);
        assert(g =~= g.drop_last().push(g.last()));
        assert(seqs(done@) =~= g.map_values(f));
    }
    done
}

/// A `MSG: <name>` header starting at `p`.
fn header_at_exec(s: &[char], p: usize) -> (r: Option<(usize, Vec<char>)>)
    requires
        p <= s@.len(),
    ensures
        r is None <==> header_at(s@, p as int) is None,
        r matches Some((end, name)) ==> header_at(s@, p as int) == Some((end as int, name@)) && p <= end <= s@.len(),
{
    let n = s.len();
    let ghost rr = s@.skip(p as int);
    proof {
        reveal_strlit("MSG:");
    }
    if n - p >= 4 && s[p] == 'M' && s[p + 1] == 'S' && s[p + 2] == 'G' && s[p + 3] == ':' {
        assert(rr.take(4) =~= msg_tag());
        assert(rr.skip(4) =~= s@.skip(p + 4));
        let w_end = run_end(s, p + 4, &Class::Space);
        assert(rr.skip(4 + (w_end - p - 4)) =~= s@.skip(w_end as int));
        let n_end = run_end(s, w_end, &Class::NonSpace);
        if w_end > p + 4 && n_end > w_end && (n_end == n || s[n_end] == '\n') {
            let name = slice_chars(s, w_end, n_end);
            assert(name@ =~= s@.skip(w_end as int).take(n_end - w_end));
            Some((n_end, name))
        } else {
            None
        }
    } else {
        proof {
            if rr.len() >= 4 {
                if rr.take(4) == msg_tag() {
                    assert(rr.take(4)[0] == 'M');
                    assert(rr.take(4)[1] == 'S');
                    assert(rr.take(4)[2] == 'G');
                    assert(rr.take(4)[3] == ':');
                }
            }
        }
        None
    }
}

/// The first `MSG:` header at the start of a line.
fn find_header_exec(s: &[char]) -> (r: Option<(usize, usize, Vec<char>)>)
    ensures
        r is None <==> find_header(s@, 0) is None,
        r matches Some((p, end, name)) ==> find_header(s@, 0) == Some((p as int, end as int, name@)) && p <= end <= s@.len(),
{
    let n = s.len();
    let mut p: usize = 0;
    while p < n
        invariant
            n == s@.len(),
            0 <= p <= n,
            find_header(s@, 0) == find_header(s@, p as int),
        decreases n - p,
    {
        if p == 0 || s[p - 1] == '\n' {
            match header_at_exec(s, p) {
                Some((end, name)) => {
                    return Some((p, end, name));
                },
                None => {},
            }
        }
        p = p + 1;
    }
    None
}


proof fn lemma_groups_nonempty(raw: Seq<Seq<char>>)
    ensures
        groups(raw).len() >= 1,
    decreases raw.len(),
{
    if raw.len() > 0 {
        lemma_groups_nonempty(raw.drop_last());
    }
}

/// Records the texts of definitions `1..` of `secs` in `u`.
fn register_sections_exec(secs: &Vec<Vec<char>>, table: &MessageTable, u: &mut IdMap<Vec<char>>) -> (r: Result<(), Error>)
    requires
        old(u).wf(),
    ensures
        final(u).wf(),
        match r {
            Ok(()) => register_sections(seqs(secs@), 1, table@, old(u).view()) == Outcome::Done(final(u).view()),
            Err(e) => register_sections(seqs(secs@), 1, table@, old(u).view()) == Outcome::<Map<IdV, Seq<char>>>::Failed(e@),
        },
{
    let ghost ss = seqs(secs@);
    let n = secs.len();
    if n < 1 {
        return Ok(());
    }
    let mut i: usize = 1;
    while i < n
        invariant
            n == secs@.len(),
            ss == seqs(secs@),
            1 <= i <= n,
            u.wf(),
            register_sections(ss, 1, table@, old(u).view()) == register_sections(ss, i as int, table@, u.view()),
        decreases n - i,
    {
        let sec = &secs[i];
        match find_header_exec(sec.as_slice()) {
            None => {
                return Err(Error::MissingMessageName(string_from_chars(sec.as_slice())));
            },
            Some((p, end, name)) => {
                match name_parts_exec(name.as_slice()) {
                    None => {
                        return Err(Error::InvalidMessageName(string_from_chars(name.as_slice())));
                    },
                    Some(id) => {
                        if !table.contains_key(&id) {
                            let mut text = slice_chars(sec.as_slice(), 0, p);
                            let tail = slice_chars(sec.as_slice(), end, sec.len());
                            append_chars(&mut text, tail.as_slice());
                            proof {
                                crate::text::lemma_index_of(sec@, '\n');
                                assert(text@ =~= sec@.take(p as int) + sec@.skip(end as int));
                            }
                            u.insert(id, text);
                        }
                    },
                }
            },
        }
        i = i + 1;
    }
    Ok(())
}

/// The view of a parsed field, if any.
pub open spec fn opt_field_view(f: Option<Field>) -> Option<FieldV> {
    match f {
        Some(field) => Some(field_view(field)),
        None => None,
    }
}

/// Whether the exec outcome `r` is what the spec outcome `o` describes.
spec fn outcome_is<T, V>(r: Result<T, Stop>, o: Outcome<V>, value: spec_fn(T) -> V) -> bool {
    match r {
        Ok(x) => o == Outcome::Done(value(x)),
        Err(Stop::Failed(e)) => o == Outcome::<V>::Failed(e@),
        Err(Stop::Unsupported) => o is Unsupported,
    }
}

/// Parses one field line of a message in package `pkg`.
#[verifier::rlimit(80)]
fn parse_field(pkg: &String, line: &[char], table: &mut MessageTable, u: &mut IdMap<Vec<char>>) -> (r: Result<Option<Field>, Stop>)
    requires
        old(u).wf(),
    ensures
        final(u).wf(),
        final(u).size() <= old(u).size(),
        ({
            let (o, t2, u2) = parse_field_spec(pkg@, line@, old(table)@, old(u).view());
            &&& final(table)@ == t2
            &&& final(u).view() == u2
            &&& outcome_is(r, o, |f: Option<Field>| opt_field_view(f))
        }),
    decreases old(u).size(), 2nat,
{
    let n = line.len();
    assert(line@.skip(0) =~= line@);
    let sp = match find_char(line, 0, ' ') {
        None => {
            return Err(Stop::Failed(Error::InvalidFieldDefinition(string_from_chars(line))));
        },
        Some(sp) => sp,
    };
    let ghost remaining = line@.skip(sp + 1);
    if find_char(line, sp + 1, '=').is_some() {
        return Ok(None);
    }
    let ws_end = run_end(line, sp + 1, &Class::Space);
    if ws_end == n {
        assert(trim_start(remaining) =~= Seq::<char>::empty());
        return Err(Stop::Unsupported);
    }
    let name_end = run_end(line, ws_end, &Class::NonSpace);
    assert(trim_start(remaining) =~= line@.skip(ws_end as int));
    let name_chars = slice_chars(line, ws_end, name_end);
    assert(name_chars@ =~= first_word(remaining));
    let raw = slice_chars(line, 0, sp);
    assert(raw@ =~= line@.take(sp as int));
    let field_type = trimmed(raw.as_slice());
    assert(field_type@.skip(0) =~= field_type@);
    let b = run_end(field_type.as_slice(), 0, &Class::TypeName);
    let base = slice_chars(field_type.as_slice(), 0, b);
    assert(base@ =~= field_type@.take(b as int));
    let rep_result = repitition_exec(field_type.as_slice(), b);
    if b == 0 || rep_result.is_err() {
        return Err(Stop::Failed(Error::InvalidFieldType(string_from_chars(field_type.as_slice()))));
    }
    let rep = match rep_result {
        Ok(Some(rep)) => rep,
        _ => {
            return Err(Stop::Unsupported);
        },
    };
    let name = string_from_chars(name_chars.as_slice());
    match base_type_exec(base.as_slice()) {
        BaseExec::WString => Err(Stop::Unsupported),
        BaseExec::Primitive(ty) => Ok(Some(Field { name, ty, repitition: rep })),
        BaseExec::Custom => {
            let id = match name_parts_exec(base.as_slice()) {
                Some(id) => id,
                None => MsgId { package: pkg.clone(), name: string_from_chars(base.as_slice()) },
            };
            match parse_message(&id, table, u) {
                Ok(m) => Ok(Some(Field { name, ty: Type::Msg(m), repitition: rep })),
                Err(stop) => Err(stop),
            }
        },
    }
}

/// Parses message `id` from the table or from its text in `u`.
#[verifier::loop_isolation(false)]
fn parse_message(id: &MsgId, table: &mut MessageTable, u: &mut IdMap<Vec<char>>) -> (r: Result<Arc<Msg>, Stop>)
    requires
        old(u).wf(),
    ensures
        final(u).wf(),
        final(u).size() <= old(u).size(),
        ({
            let (o, t2, u2) = parse_message_spec(id@, old(table)@, old(u).view());
            &&& final(table)@ == t2
            &&& final(u).view() == u2
            &&& outcome_is(r, o, |m: Arc<Msg>| m@)
        }),
    decreases old(u).size(), 1nat,
{
    match table.get(id) {
        Some(m) => {
            return Ok(m);
        },
        None => {},
    }
    proof {
        u.lemma_size();
    }
    let text = match u.remove(id) {
        None => {
            return Err(Stop::Failed(Error::MissingMessageDefinition(id.copy())));
        },
        Some(text) => text,
    };
    let all_lines = lines_exec(text.as_slice());
    let ls = field_lines_exec(&all_lines);
    let ghost lsv = seqs(ls@);
    let ghost t1 = table@;
    let ghost u1 = u.view();
    let ghost whole = parse_lines_spec(id.package@, lsv, 0, Seq::empty(), t1, u1);
    assert(lsv == field_lines(lines(old(u).view()[id@])));
    assert(parse_message_spec(id@, old(table)@, old(u).view()) == match whole {
        (Outcome::Done(fields), t2, u2) => (Outcome::Done(MsgV { fields }), t2.insert(id@, MsgV { fields }), u2),
        (Outcome::Failed(e), t2, u2) => (Outcome::<MsgV>::Failed(e), t2, u2),
        (Outcome::Unsupported, t2, u2) => (Outcome::<MsgV>::Unsupported, t2, u2),
    });
    let mut fields: Vec<Field> = Vec::new();
    let n = ls.len();
    let mut i: usize = 0;
    assert(fields_view(fields@, 0) =~= Seq::<FieldV>::empty());
    while i < n
        invariant
            n == ls@.len(),
            lsv == seqs(ls@),
            0 <= i <= n,
            u.wf(),
            u.size() < old(u).size(),
            whole == parse_lines_spec(id.package@, lsv, i as int,
                    fields_view(fields@, fields@.len()), table@, u.view()),
        decreases n - i,
    {
        let ghost t_before = table@;
        let ghost u_before = u.view();
        let ghost acc = fields_view(fields@, fields@.len());
        proof {
            u.lemma_size();
        }
        match parse_field(&id.package, ls[i].as_slice(), table, u) {
            Ok(f) => {
                proof {
                    u.lemma_size();
                }
                match f {
                    Some(field) => {
                        proof {
                            lemma_msg_fields_push(fields@, field);
                        }
                        fields.push(field);
                    },
                    None => {},
                }
            },
            Err(Stop::Failed(e)) => {
                let ghost pf = parse_field_spec(id.package@, lsv[i as int], t_before, u_before);
                assert(lsv[i as int] == ls@[i as int]@);
                assert(pf.0 == Outcome::<Option<FieldV>>::Failed(e@));
                assert(parse_lines_spec(id.package@, lsv, i as int, acc, t_before, u_before) == (Outcome::<Seq<FieldV>>::Failed(e@), pf.1, pf.2));
                assert(whole == (Outcome::<Seq<FieldV>>::Failed(e@), table@, u.view()));
                return Err(Stop::Failed(e));
            },
            Err(Stop::Unsupported) => {
                assert(whole == (Outcome::<Seq<FieldV>>::Unsupported, table@, u.view()));
                return Err(Stop::Unsupported);
            },
        }
        i = i + 1;
    }
    let msg = Arc::new(Msg { fields });
    table.insert(id.copy(), crate::schema::table::arc_clone(&msg));
    Ok(msg)
}

/// Parses schema `schema_name` from `schema_text`, with the messages parsed
/// before in `message_table`; returns `None` where the schema uses what parsing
/// does not support (an array length beyond `usize`, a `wstring` field, a field
/// line with no name).
pub fn try_parse(schema_name: &str, schema_text: &[u8], message_table: &mut MessageTable) -> (r: Option<Result<Arc<Msg>, Error>>)
    ensures
        ({
            let (o, t2) = parse_spec(schema_name@, schema_text@, old(message_table)@);
            match r {
                None => o is Unsupported && final(message_table)@ == t2,
                Some(Ok(m)) => o == Outcome::Done(m@) && final(message_table)@ == t2,
                Some(Err(e)) => o == Outcome::<MsgV>::Failed(e@) && final(message_table)@ == t2,
            }
        }),
        old(message_table)@.submap_of(final(message_table)@),
{
    proof {
        law_parse_keeps_table(schema_name@, schema_text@, message_table@);
    }
    let id = match parse_name_parts(schema_name) {
        Ok(id) => id,
        Err(e) => {
            return Some(Err(e));
        },
    };
    match message_table.get(&id) {
        Some(m) => {
            return Some(Ok(m));
        },
        None => {},
    }
    let text = match str_from_utf8(schema_text) {
        Ok(text) => text,
        Err(e) => {
            return Some(Err(Error::SchemaTextUtf8(e)));
        },
    };
    let chars = chars_of(text);
    let secs = sections_exec(chars.as_slice());
    proof {
        lemma_groups_nonempty(split_char(chars@, '\n'));
    }
    let first = slice_chars(secs[0].as_slice(), 0, secs[0].len());
    assert(first@ =~= seqs(secs@)[0]);
    let mut u: IdMap<Vec<char>> = IdMap::new();
    u.insert(id.copy(), first);
    match register_sections_exec(&secs, message_table, &mut u) {
        Err(e) => {
            return Some(Err(e));
        },
        Ok(()) => {},
    }
    match parse_message(&id, message_table, &mut u) {
        Ok(m) => Some(Ok(m)),
        Err(Stop::Failed(e)) => Some(Err(e)),
        Err(Stop::Unsupported) => None,
    }
}

/// Parses schema `schema_name` from `schema_text` and the definitions it uses,
/// adding every message parsed to `message_table`; a message already in the
/// table is not parsed again.
pub fn parse(schema_name: &str, schema_text: &[u8], message_table: &mut MessageTable) -> (r: Result<Arc<Msg>, Error>)
    requires
        !(parse_spec(schema_name@, schema_text@, old(message_table)@).0 is Unsupported),
    ensures
        ({
            let (o, t2) = parse_spec(schema_name@, schema_text@, old(message_table)@);
            &&& final(message_table)@ == t2
            &&& match r {
                Ok(m) => o == Outcome::Done(m@),
                Err(e) => o == Outcome::<MsgV>::Failed(e@),
            }
        }),
        old(message_table)@.submap_of(final(message_table)@),
{
    match try_parse(schema_name, schema_text, message_table) {
        Some(r) => r,
        None => {
            assert(false);
            Err(Error::InvalidMessageName(String::new()))
        },
    }
}

/// Looks up schema `schema_name` in `message_table`.
pub fn get(schema_name: &str, message_table: &MessageTable) -> (r: Result<Option<Arc<Msg>>, Error>)
    ensures
        match r {
            Ok(Some(m)) => get_spec(schema_name@, message_table@) == Ok::<Option<MsgV>, ErrorV>(Some(m@)),
            Ok(None) => get_spec(schema_name@, message_table@) == Ok::<Option<MsgV>, ErrorV>(None),
            Err(e) => get_spec(schema_name@, message_table@) == Err::<Option<MsgV>, ErrorV>(e@),
        },
{
    let id = parse_name_parts(schema_name)?;
    Ok(message_table.get(&id))
}


/// How parsing changes the two tables: messages already parsed stay as they
/// are, texts are only taken away, and every message added had its text.
pub open spec fn tables_evolve(
    t: Map<IdV, MsgV>,
    u: Map<IdV, Seq<char>>,
    t2: Map<IdV, MsgV>,
    u2: Map<IdV, Seq<char>>,
) -> bool {
    &&& t.submap_of(t2)
    &&& u2.submap_of(u)
    &&& forall|k: IdV| #[trigger] t2.contains_key(k) ==> t.contains_key(k) || u.contains_key(k)
}

proof fn lemma_tables_evolve_trans(
    t: Map<IdV, MsgV>,
    u: Map<IdV, Seq<char>>,
    t1: Map<IdV, MsgV>,
    u1: Map<IdV, Seq<char>>,
    t2: Map<IdV, MsgV>,
    u2: Map<IdV, Seq<char>>,
)
    requires
        tables_evolve(t, u, t1, u1),
        tables_evolve(t1, u1, t2, u2),
    ensures
        tables_evolve(t, u, t2, u2),
{
    vstd::map_lib::lemma_submap_of_trans(t, t1, t2);
    vstd::map_lib::lemma_submap_of_trans(u2, u1, u);
}

proof fn lemma_field_evolves(pkg: Seq<char>, line: Seq<char>, t: Map<IdV, MsgV>, u: Map<IdV, Seq<char>>)
    ensures
        ({
            let (o, t2, u2) = parse_field_spec(pkg, line, t, u);
            tables_evolve(t, u, t2, u2)
        }),
    decreases u.len(), 0nat, 2nat,
{
    let (o, t2, u2) = parse_field_spec(pkg, line, t, u);
    match index_of(line, ' ') {
        None => {},
        Some(sp) => {
            let remaining = line.skip(sp + 1);
            if index_of(remaining, '=') is Some {
            } else if trim_start(remaining).len() == 0 {
            } else {
                let field_type = trim(line.take(sp));
                let base = field_type.take(prefix_len(field_type, Class::TypeName) as int);
                let sfx = suffix_of(field_type.skip(base.len() as int));
                if base.len() == 0 || sfx is Invalid {
                } else {
                    match repitition_of(sfx) {
                        None => {},
                        Some(rep) => match base_type(base) {
                            BaseType::Custom => {
                                let id = match name_parts(base) {
                                    Some(id) => id,
                                    None => (pkg, base),
                                };
                                lemma_message_evolves(id, t, u);
                            },
                            _ => {},
                        },
                    }
                }
            }
        },
    }
}

proof fn lemma_lines_evolve(
    pkg: Seq<char>,
    ls: Seq<Seq<char>>,
    i: int,
    acc: Seq<FieldV>,
    t: Map<IdV, MsgV>,
    u: Map<IdV, Seq<char>>,
)
    ensures
        ({
            let (o, t2, u2) = parse_lines_spec(pkg, ls, i, acc, t, u);
            tables_evolve(t, u, t2, u2)
        }),
    decreases u.len(), ls.len() - i, 0nat,
{
    if i < 0 || i >= ls.len() {
    } else {
        lemma_field_evolves(pkg, ls[i], t, u);
        match parse_field_spec(pkg, ls[i], t, u) {
            (Outcome::Done(f), t1, u1) => {
                if u1.dom().finite() && u1.len() <= u.len() {
                    let acc2 = match f {
                        Some(field) => acc.push(field),
                        None => acc,
                    };
                    lemma_lines_evolve(pkg, ls, i + 1, acc2, t1, u1);
                    let (o, t2, u2) = parse_lines_spec(pkg, ls, i + 1, acc2, t1, u1);
                    lemma_tables_evolve_trans(t, u, t1, u1, t2, u2);
                }
            },
            _ => {},
        }
    }
}

proof fn lemma_message_evolves(id: IdV, t: Map<IdV, MsgV>, u: Map<IdV, Seq<char>>)
    ensures
        ({
            let (o, t2, u2) = parse_message_spec(id, t, u);
            tables_evolve(t, u, t2, u2)
        }),
    decreases u.len(), 0nat, 1nat,
{
    if t.contains_key(id) {
    } else if !u.contains_key(id) {
    } else if !u.dom().finite() {
    } else {
        let u1 = u.remove(id);
        let ls = field_lines(lines(u[id]));
        lemma_lines_evolve(id.0, ls, 0, Seq::empty(), t, u1);
        let (o, t2, u2) = parse_lines_spec(id.0, ls, 0, Seq::empty(), t, u1);
        assert(u1.submap_of(u));
        vstd::map_lib::lemma_submap_of_trans(u2, u1, u);
        assert(tables_evolve(t, u, t2, u2));
        match o {
            Outcome::Done(fields) => {
                assert(!t2.contains_key(id));
                let t3 = t2.insert(id, MsgV { fields });
                assert(t.submap_of(t3));
                assert(forall|k: IdV| #[trigger] t3.contains_key(k) ==> t.contains_key(k) || u.contains_key(k));
            },
            _ => {},
        }
    }
}

/// Parsing never changes or removes a message that was in the table before,
/// whether it succeeds or not.
pub proof fn law_parse_keeps_table(schema_name: Seq<char>, schema_text: Seq<u8>, t: Map<IdV, MsgV>)
    ensures
        t.submap_of(parse_spec(schema_name, schema_text, t).1),
{
    match name_parts(schema_name) {
        None => {},
        Some(id) => if t.contains_key(id) {
        } else if !valid_utf8(schema_text) {
        } else {
            let secs = sections(decode_utf8(schema_text));
            match register_sections(secs, 1, t, Map::empty().insert(id, secs[0])) {
                Outcome::Done(u) => {
                    lemma_message_evolves(id, t, u);
                },
                _ => {},
            }
        },
    }
}

/// A message that parsing returns is in the table afterwards, under its name:
/// looking the name up gives it, and parsing the name again gives it back,
/// whatever the text, and leaves the table as it is.
pub proof fn law_parse_then_get(
    schema_name: Seq<char>,
    schema_text: Seq<u8>,
    other_text: Seq<u8>,
    t: Map<IdV, MsgV>,
)
    requires
        parse_spec(schema_name, schema_text, t).0 is Done,
    ensures
        ({
            let (o, t2) = parse_spec(schema_name, schema_text, t);
            &&& get_spec(schema_name, t2) == Ok::<Option<MsgV>, ErrorV>(Some(o->Done_0))
            &&& parse_spec(schema_name, other_text, t2) == (o, t2)
        }),
{
    let id = name_parts(schema_name)->0;
    if !t.contains_key(id) {
        let secs = sections(decode_utf8(schema_text));
        let u = register_sections(secs, 1, t, Map::empty().insert(id, secs[0]))->Done_0;
        let (o, t2, u2) = parse_message_spec(id, t, u);
        assert(t2.contains_key(id) && t2[id] == o->Done_0);
    }
}


proof fn lemma_primitive_field_line(
    pkg: Seq<char>,
    ty: Seq<char>,
    sfx: Seq<char>,
    spaces: nat,
    name: Seq<char>,
    rest: Seq<char>,
    tv: TypeV,
    rep: Repitition,
    t: Map<IdV, MsgV>,
    u: Map<IdV, Seq<char>>,
)
    requires
        base_type(ty) == BaseType::Primitive(tv),
        repitition_of(suffix_of(sfx)) == Some(rep),
        ty.len() > 0,
        forall|i: int| 0 <= i < ty.len() ==> in_class(#[trigger] ty[i], Class::TypeName),
        forall|i: int| 0 <= i < sfx.len() ==> !is_ws(#[trigger] sfx[i]),
        sfx.len() > 0 ==> !in_class(sfx[0], Class::TypeName),
        spaces >= 1,
        name.len() > 0,
        forall|i: int| 0 <= i < name.len() ==> !is_ws(#[trigger] name[i]) && name[i] != '=',
        rest.len() == 0 || is_ws(rest[0]),
        forall|i: int| 0 <= i < rest.len() ==> #[trigger] rest[i] != '=',
    ensures
        parse_field_spec(pkg, ty + sfx + Seq::new(spaces, |i: int| ' ') + name + rest, t, u)
            == (Outcome::Done(Some(FieldV { name, ty: tv, repitition: rep })), t, u),
{
    let sp = Seq::new(spaces, |i: int| ' ');
    let ft = ty + sfx;
    let line = ft + sp + name + rest;
    let n = ft.len() as int;
    assert forall|i: int| 0 <= i < n implies #[trigger] line[i] != ' ' && !is_ws(line[i]) by {
        assert(line[i] == ft[i]);
        if i < ty.len() {
            assert(ft[i] == ty[i]);
            assert(in_class(ty[i], Class::TypeName));
        } else {
            assert(ft[i] == sfx[i - ty.len()]);
        }
    }
    assert(line[n] == ' ');
    lemma_index_of(line, ' ');
    assert(index_of(line, ' ') == Some(n));
    let remaining = line.skip(n + 1);
    let tail = name + rest;
    assert(remaining =~= sp.skip(1) + tail);
    lemma_index_of(remaining, '=');
    assert forall|i: int| 0 <= i < remaining.len() implies #[trigger] remaining[i] != '=' by {
        if i < spaces - 1 {
            assert(remaining[i] == ' ');
        } else if i < spaces - 1 + name.len() {
            assert(remaining[i] == name[i - (spaces - 1)]);
        } else {
            assert(remaining[i] == rest[i - (spaces - 1) - name.len()]);
        }
    }
    assert(index_of(remaining, '=') is None);
    assert forall|i: int| 0 <= i < spaces - 1 implies in_class(#[trigger] remaining[i], Class::Space) by {
        assert(remaining[i] == ' ');
    }
    assert(remaining[spaces - 1] == name[0]);
    lemma_prefix_len_is(remaining, Class::Space, spaces - 1);
    assert(trim_start(remaining) =~= tail);
    assert forall|i: int| 0 <= i < name.len() implies in_class(#[trigger] tail[i], Class::NonSpace) by {
        assert(tail[i] == name[i]);
    }
    if (name.len() as int) < tail.len() {
        assert(tail[name.len() as int] == rest[0]);
    }
    lemma_prefix_len_is(tail, Class::NonSpace, name.len() as int);
    assert(first_word(remaining) =~= name);
    assert(line.take(n) =~= ft);
    assert(!is_ws(ft[0]));
    lemma_prefix_len_is(ft, Class::Space, 0);
    assert(trim_start(ft) =~= ft);
    assert(!is_ws(ft.last()));
    assert(space_suffix_len(ft) == 0);
    assert(trim(ft) =~= ft);
    assert forall|i: int| 0 <= i < ty.len() implies in_class(#[trigger] ft[i], Class::TypeName) by {
        assert(ft[i] == ty[i]);
    }
    if sfx.len() > 0 {
        assert(ft[ty.len() as int] == sfx[0]);
    }
    lemma_prefix_len_is(ft, Class::TypeName, ty.len() as int);
    assert(ft.take(ty.len() as int) =~= ty);
    assert(ft.skip(ty.len() as int) =~= sfx);
}

/// A field line `T<spaces>name<rest>`, with `T` the name of a primitive type,
/// one or more spaces, a name, and nothing after the name but text that starts
/// with white space, gives a field named `name` of that type holding one value,
/// however many spaces stand between the type and the name.
pub proof fn law_field_name_after_spaces(
    pkg: Seq<char>,
    ty: Seq<char>,
    spaces: nat,
    name: Seq<char>,
    rest: Seq<char>,
    tv: TypeV,
    t: Map<IdV, MsgV>,
    u: Map<IdV, Seq<char>>,
)
    requires
        base_type(ty) == BaseType::Primitive(tv),
        ty.len() > 0,
        forall|i: int| 0 <= i < ty.len() ==> in_class(#[trigger] ty[i], Class::TypeName),
        spaces >= 1,
        name.len() > 0,
        forall|i: int| 0 <= i < name.len() ==> !is_ws(#[trigger] name[i]) && name[i] != '=',
        rest.len() == 0 || is_ws(rest[0]),
        forall|i: int| 0 <= i < rest.len() ==> #[trigger] rest[i] != '=',
    ensures
        parse_field_spec(pkg, ty + Seq::new(spaces, |i: int| ' ') + name + rest, t, u)
            == (Outcome::Done(Some(FieldV { name, ty: tv, repitition: Repitition::Single })), t, u),
{
    let e = Seq::<char>::empty();
    lemma_primitive_field_line(pkg, ty, e, spaces, name, rest, tv, Repitition::Single, t, u);
    assert(ty + e =~= ty);
}

proof fn lemma_digit_char(d: nat)
    requires
        d < 10,
    ensures
        digit_char(d) as nat == 48 + d,
        in_class(digit_char(d), Class::Digit),
{
}

/// Writing `k` in decimal gives digits only, at least one, that read back as
/// `k`.
pub proof fn law_decimal_reads_back(k: nat)
    ensures
        decimal(k).len() > 0,
        all_digits(decimal(k)),
        digits_value(decimal(k)) == k,
    decreases k,
{
    lemma_digit_char(k % 10);
    if k < 10 {
        let s = decimal(k);
        assert(s.drop_last() =~= Seq::<char>::empty());
        assert(s.last() == digit_char(k));
        assert(digits_value(Seq::<char>::empty()) == 0);
        assert(digits_value(s) == digits_value(s.drop_last()) * 10 + ((s.last() as nat) - 48) as nat);
    } else {
        law_decimal_reads_back(k / 10);
        let d = decimal(k / 10);
        let s = d.push(digit_char(k % 10));
        assert(s.drop_last() =~= d);
        assert(s.last() == digit_char(k % 10));
        assert((k / 10) * 10 + k % 10 == k);
        assert(decimal(k) == s);
        assert(digits_value(s) == digits_value(s.drop_last()) * 10 + ((s.last() as nat) - 48) as nat);
        assert forall|i: int| 0 <= i < s.len() implies in_class(#[trigger] s[i], Class::Digit) by {
            if i < d.len() {
                assert(s[i] == d[i]);
            }
        }
    }
}

/// The array suffixes of a field's type: `T[] name` is an array of any
/// length, `T[k] name` one of exactly `k` values, `T[<=k] name` one of at most
/// `k` values, `k` written in decimal; the name is the word after the spaces.
pub proof fn law_array_field_lines(
    pkg: Seq<char>,
    ty: Seq<char>,
    k: usize,
    spaces: nat,
    name: Seq<char>,
    tv: TypeV,
    t: Map<IdV, MsgV>,
    u: Map<IdV, Seq<char>>,
)
    requires
        base_type(ty) == BaseType::Primitive(tv),
        ty.len() > 0,
        forall|i: int| 0 <= i < ty.len() ==> in_class(#[trigger] ty[i], Class::TypeName),
        spaces >= 1,
        name.len() > 0,
        forall|i: int| 0 <= i < name.len() ==> !is_ws(#[trigger] name[i]) && name[i] != '=',
    ensures
        parse_field_spec(pkg, ty + seq!['[', ']'] + Seq::new(spaces, |i: int| ' ') + name, t, u)
            == (Outcome::Done(Some(FieldV { name, ty: tv, repitition: Repitition::Unbounded })), t, u),
        parse_field_spec(pkg, ty + (seq!['['] + decimal(k as nat) + seq![']']) + Seq::new(spaces, |i: int| ' ') + name, t, u)
            == (Outcome::Done(Some(FieldV { name, ty: tv, repitition: Repitition::Fixed(k) })), t, u),
        parse_field_spec(pkg, ty + (seq!['[', '<', '='] + decimal(k as nat) + seq![']']) + Seq::new(spaces, |i: int| ' ') + name, t, u)
            == (Outcome::Done(Some(FieldV { name, ty: tv, repitition: Repitition::Bounded(k) })), t, u),
{
    let e = Seq::<char>::empty();
    let d = decimal(k as nat);
    law_decimal_reads_back(k as nat);
    assert forall|i: int| 0 <= i < d.len() implies !is_ws(#[trigger] d[i]) && d[i] != ']' && d[i] != '<' by {
        assert(in_class(d[i], Class::Digit));
    }
    let s1 = seq!['[', ']'];
    assert(suffix_of(s1) == Suffix::Unbounded) by {
        assert(s1.subrange(1, 1).len() == 0);
    }
    lemma_primitive_field_line(pkg, ty, s1, spaces, name, e, tv, Repitition::Unbounded, t, u);
    let s2 = seq!['['] + d + seq![']'];
    assert(suffix_of(s2) == Suffix::Fixed(k as nat)) by {
        assert(s2.subrange(1, s2.len() - 1) =~= d);
        assert(d[0] != '<');
    }
    assert forall|i: int| 0 <= i < s2.len() implies !is_ws(#[trigger] s2[i]) by {
        if 0 < i < s2.len() - 1 {
            assert(s2[i] == d[i - 1]);
        }
    }
    lemma_primitive_field_line(pkg, ty, s2, spaces, name, e, tv, Repitition::Fixed(k), t, u);
    let s3 = seq!['[', '<', '='] + d + seq![']'];
    assert(suffix_of(s3) == Suffix::Bounded(k as nat)) by {
        let inner = s3.subrange(1, s3.len() - 1);
        assert(inner.skip(2) =~= d);
    }
    assert forall|i: int| 0 <= i < s3.len() implies !is_ws(#[trigger] s3[i]) by {
        if 2 < i < s3.len() - 1 {
            assert(s3[i] == d[i - 3]);
        }
    }
    lemma_primitive_field_line(pkg, ty, s3, spaces, name, e, tv, Repitition::Bounded(k), t, u);
    let sp = Seq::new(spaces, |i: int| ' ');
    assert(ty + s1 + sp + name + e =~= ty + s1 + sp + name);
    assert(ty + s2 + sp + name + e =~= ty + s2 + sp + name);
    assert(ty + s3 + sp + name + e =~= ty + s3 + sp + name);
}


/// The name of a message type is `package/name` or `package/msg/name`, with no
/// `/` in the package or the name: both give the package and the name.
pub proof fn law_name_parts(pkg: Seq<char>, name: Seq<char>)
    requires
        forall|i: int| 0 <= i < pkg.len() ==> #[trigger] pkg[i] != '/',
        forall|i: int| 0 <= i < name.len() ==> #[trigger] name[i] != '/',
    ensures
        name_parts(pkg + seq!['/'] + name) == Some((pkg, name)),
        name_parts(pkg + seq!['/', 'm', 's', 'g', '/'] + name) == Some((pkg, name)),
{
    reveal_strlit("msg");
    let n = pkg.len() as int;
    let s1 = pkg + seq!['/'] + name;
    assert forall|i: int| 0 <= i < n implies #[trigger] s1[i] != '/' by {
        assert(s1[i] == pkg[i]);
    }
    assert(s1[n] == '/');
    lemma_index_of(s1, '/');
    assert(index_of(s1, '/') == Some(n));
    assert(s1.take(n) =~= pkg);
    assert(s1.skip(n + 1) =~= name);
    lemma_index_of(name, '/');
    assert(index_of(name, '/') is None);
    let s2 = pkg + seq!['/', 'm', 's', 'g', '/'] + name;
    assert forall|i: int| 0 <= i < n implies #[trigger] s2[i] != '/' by {
        assert(s2[i] == pkg[i]);
    }
    assert(s2[n] == '/');
    lemma_index_of(s2, '/');
    assert(index_of(s2, '/') == Some(n));
    assert(s2.take(n) =~= pkg);
    let rest = s2.skip(n + 1);
    assert(rest =~= seq!['m', 's', 'g', '/'] + name);
    assert(rest[0] != '/' && rest[1] != '/' && rest[2] != '/' && rest[3] == '/');
    lemma_index_of(rest, '/');
    assert(index_of(rest, '/') == Some(3int));
    assert(rest.take(3) =~= msg_word());
    assert(rest.skip(4) =~= name);
}

/// A line with `=` after the type is a constant, not a field: it adds no field
/// and leaves the tables as they are.
pub proof fn law_constant_lines(pkg: Seq<char>, ty: Seq<char>, rest: Seq<char>, t: Map<IdV, MsgV>, u: Map<IdV, Seq<char>>)
    requires
        forall|i: int| 0 <= i < ty.len() ==> #[trigger] ty[i] != ' ',
        exists|i: int| 0 <= i < rest.len() && rest[i] == '=',
    ensures
        parse_field_spec(pkg, ty + seq![' '] + rest, t, u) == (Outcome::<Option<FieldV>>::Done(None), t, u),
{
    let line = ty + seq![' '] + rest;
    let n = ty.len() as int;
    assert forall|i: int| 0 <= i < n implies #[trigger] line[i] != ' ' by {
        assert(line[i] == ty[i]);
    }
    assert(line[n] == ' ');
    lemma_index_of(line, ' ');
    assert(index_of(line, ' ') == Some(n));
    assert(line.skip(n + 1) =~= rest);
    lemma_index_of(rest, '=');
}

} // verus!
