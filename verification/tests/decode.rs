use mcap_viewer::decode::{decode, try_decode, Error, Value, Visit};
use mcap_viewer::schema::{parse, MessageTable};

fn schema(name: &str, text: &str) -> std::sync::Arc<mcap_viewer::schema::Msg> {
    let mut table = MessageTable::new();
    parse(name, text.as_bytes(), &mut table).unwrap()
}

fn visit(path: &str, value: Value) -> Visit {
    Visit { path: path.to_owned(), value }
}

#[test]
fn decodes_primitives_strings_and_arrays_little_endian() {
    let msg = schema("pkg/msg/T", "int32 a\nstring s\nuint8[] arr\nfloat64 f\n");
    let mut input = vec![0u8, 1, 0, 0];
    input.extend_from_slice(&(-7i32).to_le_bytes());
    input.extend_from_slice(&3u32.to_le_bytes());
    input.extend_from_slice(b"hi\0");
    input.push(0); // padding to 4
    input.extend_from_slice(&2u32.to_le_bytes());
    input.extend_from_slice(&[5, 6]);
    input.extend_from_slice(&[0; 6]); // padding to 8
    input.extend_from_slice(&1.5f64.to_le_bytes());
    let d = decode(&msg, &input);
    assert!(d.result.is_ok());
    assert_eq!(
        d.visits,
        vec![
            visit("a", Value::I32(-7)),
            visit("s", Value::Str("hi".to_owned())),
            visit("arr[0]", Value::U8(5)),
            visit("arr[1]", Value::U8(6)),
            visit("f", Value::F64(1.5f64.to_bits())),
        ]
    );
}

#[test]
fn decodes_big_endian() {
    let msg = schema("pkg/T", "uint16 x\nint64 y\n");
    let mut input = vec![0u8, 0, 0, 0];
    input.extend_from_slice(&0x1234u16.to_be_bytes());
    input.extend_from_slice(&[0; 6]);
    input.extend_from_slice(&(-2i64).to_be_bytes());
    let d = decode(&msg, &input);
    assert!(d.result.is_ok());
    assert_eq!(d.visits, vec![visit("x", Value::U16(0x1234)), visit("y", Value::I64(-2))]);
}

#[test]
fn nested_message_paths_have_no_separator() {
    let text = "Inner[2] motors\n================\nMSG: pkg/Inner\nint8 v\n";
    let msg = schema("pkg/msg/Outer", text);
    let input = vec![0u8, 1, 0, 0, 0xff, 7];
    let d = decode(&msg, &input);
    assert!(d.result.is_ok());
    assert_eq!(d.visits, vec![visit("motors[0]v", Value::I8(-1)), visit("motors[1]v", Value::I8(7))]);
}

#[test]
fn index_paths_above_fifteen_are_decimal() {
    let msg = schema("pkg/T", "bool[17] b\n");
    let mut input = vec![0u8, 1, 0, 0];
    input.extend_from_slice(&[1; 17]);
    let d = decode(&msg, &input);
    assert_eq!(d.visits.len(), 17);
    assert_eq!(d.visits[16], visit("b[16]", Value::Bool(true)));
    assert_eq!(d.visits[10], visit("b[10]", Value::Bool(true)));
}

#[test]
fn bounded_array_too_large_is_an_error() {
    let msg = schema("pkg/T", "uint8 first\nuint8[<=2] arr\n");
    let mut input = vec![0u8, 1, 0, 0, 9, 0, 0, 0];
    input.extend_from_slice(&3u32.to_le_bytes());
    input.extend_from_slice(&[1, 2, 3]);
    let d = decode(&msg, &input);
    assert_eq!(d.visits, vec![visit("first", Value::U8(9))]);
    match d.result {
        Err(Error::ArraySizeTooLarge { field, size, max_size }) => {
            assert_eq!(field, "arr");
            assert_eq!(size, 3);
            assert_eq!(max_size, 2);
        }
        other => panic!("unexpected {other:?}"),
    }
}

#[test]
fn invalid_utf8_string_is_an_error() {
    let msg = schema("pkg/T", "string s\n");
    let mut input = vec![0u8, 1, 0, 0];
    input.extend_from_slice(&3u32.to_le_bytes());
    input.extend_from_slice(&[0xff, 0xfe, 0]);
    let d = decode(&msg, &input);
    assert!(d.visits.is_empty());
    match d.result {
        Err(Error::Utf8Error { data, .. }) => assert_eq!(data, vec![0xff, 0xfe]),
        other => panic!("unexpected {other:?}"),
    }
}

#[test]
fn empty_strings_have_length_zero_or_one() {
    let msg = schema("pkg/T", "string a\nstring b\n");
    let mut input = vec![0u8, 1, 0, 0];
    input.extend_from_slice(&0u32.to_le_bytes());
    input.extend_from_slice(&1u32.to_le_bytes());
    input.push(0);
    let d = decode(&msg, &input);
    assert!(d.result.is_ok());
    assert_eq!(d.visits, vec![visit("a", Value::Str(String::new())), visit("b", Value::Str(String::new()))]);
}

#[test]
fn truncated_input_is_refused() {
    let msg = schema("pkg/T", "uint32 a\n");
    assert!(try_decode(&msg, &[0, 1, 0, 0, 1, 2]).is_none());
    assert!(try_decode(&msg, &[0, 1]).is_none());
    assert!(try_decode(&msg, &[0, 1, 0, 0, 1, 2, 3, 4]).is_some());
}
