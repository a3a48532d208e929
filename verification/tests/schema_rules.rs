use std::sync::Arc;

use mcap_viewer::schema::{get, parse, try_parse, Error, MessageTable};
use mcap_viewer::schema::{Field, Msg, MsgId, Repitition, Type};

fn field(name: &str, ty: Type, repitition: Repitition) -> Field {
    Field { name: name.to_owned(), ty, repitition }
}

#[test]
fn repetitions_and_type_aliases() {
    let mut table = MessageTable::new();
    let text = "byte a\nchar b\nfloat32[] c\nfloat64[3] d\nstring[<=4] e\nbool f\n";
    let msg = parse("pkg/T", text.as_bytes(), &mut table).unwrap();
    assert_eq!(
        msg.fields,
        vec![
            field("a", Type::I8, Repitition::Single),
            field("b", Type::U8, Repitition::Single),
            field("c", Type::F32, Repitition::Unbounded),
            field("d", Type::F64, Repitition::Fixed(3)),
            field("e", Type::Str, Repitition::Bounded(4)),
            field("f", Type::Bool, Repitition::Single),
        ]
    );
}

#[test]
fn constants_comments_and_blank_lines_are_skipped() {
    let mut table = MessageTable::new();
    let text = "# header comment\n\nint32 LIMIT=5\nint32 x # trailing comment\n   \nuint64 y\n";
    let msg = parse("pkg/msg/T", text.as_bytes(), &mut table).unwrap();
    assert_eq!(
        msg.fields,
        vec![field("x", Type::I32, Repitition::Single), field("y", Type::U64, Repitition::Single)]
    );
}

#[test]
fn invalid_message_name() {
    let mut table = MessageTable::new();
    let r = parse("a/b/c", b"int8 x\n", &mut table);
    assert!(matches!(r, Err(Error::InvalidMessageName(ref n)) if n == "a/b/c"));
    let r = parse("noslash", b"int8 x\n", &mut table);
    assert!(matches!(r, Err(Error::InvalidMessageName(ref n)) if n == "noslash"));
    assert_eq!(table.len(), 0);
}

#[test]
fn missing_message_name() {
    let mut table = MessageTable::new();
    let r = parse("pkg/T", b"int8 a\n===\nint8 b\n", &mut table);
    assert!(matches!(r, Err(Error::MissingMessageName(ref t)) if t == "int8 b"));
}

#[test]
fn missing_message_definition() {
    let mut table = MessageTable::new();
    let r = parse("pkg/T", b"Foo f\n", &mut table);
    match r {
        Err(Error::MissingMessageDefinition(id)) => assert_eq!(id, MsgId::new("pkg", "Foo")),
        other => panic!("unexpected {other:?}"),
    }
}

#[test]
fn invalid_field_definition() {
    let mut table = MessageTable::new();
    let r = parse("pkg/T", b"int8\n", &mut table);
    assert!(matches!(r, Err(Error::InvalidFieldDefinition(ref l)) if l == "int8"));
}

#[test]
fn invalid_field_type() {
    let mut table = MessageTable::new();
    let r = parse("pkg/T", b"int8[abc] x\n", &mut table);
    assert!(matches!(r, Err(Error::InvalidFieldType(ref t)) if t == "int8[abc]"));
    let r = parse("pkg/T", b"int8[<=] x\n", &mut table);
    assert!(matches!(r, Err(Error::InvalidFieldType(ref t)) if t == "int8[<=]"));
}

#[test]
fn schema_text_not_utf8() {
    let mut table = MessageTable::new();
    let r = parse("pkg/T", &[0x69, 0x6e, 0xff, 0x20, 0x78], &mut table);
    assert!(matches!(r, Err(Error::SchemaTextUtf8(_))));
}

#[test]
fn unsupported_wstring_is_reported() {
    let mut table = MessageTable::new();
    assert!(try_parse("pkg/T", b"wstring w\n", &mut table).is_none());
}

#[test]
fn get_looks_up_parsed_messages() {
    let mut table = MessageTable::new();
    assert!(matches!(get("pkg/T", &table), Ok(None)));
    let msg = parse("pkg/msg/T", b"int16 v\n", &mut table).unwrap();
    let found = get("pkg/T", &table).unwrap().unwrap();
    assert_eq!(found, msg);
    assert!(matches!(get("pkg/x/y/z", &table), Err(Error::InvalidMessageName(_))));
}

#[test]
fn parsed_message_is_kept_and_returned_again_whatever_the_text() {
    let mut table = MessageTable::new();
    let first = parse("pkg/T", b"uint32 v\n", &mut table).unwrap();
    // the text is not read again: even text that is not UTF-8 gives the stored message
    let again = parse("pkg/T", &[0xff, 0xfe], &mut table).unwrap();
    assert_eq!(first, again);
    assert_eq!(table.len(), 1);
}

#[test]
fn failed_parse_keeps_earlier_messages() {
    let mut table = MessageTable::new();
    let a = parse("pkg/A", b"int8 x\n", &mut table).unwrap();
    assert!(parse("pkg/B", b"Missing m\n", &mut table).is_err());
    assert!(table.contains_key(&MsgId::new("pkg", "A")));
    assert_eq!(table.get(&MsgId::new("pkg", "A")).unwrap(), a);
    assert!(!table.contains_key(&MsgId::new("pkg", "B")));
}

#[test]
fn nested_definition_already_in_table_is_reused() {
    let mut table = MessageTable::new();
    let inner = parse("pkg/Inner", b"int8 v\n", &mut table).unwrap();
    let text = "Inner i\n===\nMSG: pkg/Inner\nthis line would not parse\n";
    let outer = parse("pkg/Outer", text.as_bytes(), &mut table).unwrap();
    assert_eq!(outer.fields, vec![field("i", Type::Msg(Arc::clone(&inner)), Repitition::Single)]);
    assert_eq!(table.len(), 2);
}

#[test]
fn message_id_equality() {
    let a = MsgId::new("pkg", "T");
    assert!(a.same(&MsgId::new("pkg", "T")));
    assert!(!a.same(&MsgId::new("pkg", "U")));
    assert_eq!(a.copy(), a);
    let _ = Msg { fields: vec![] };
}
