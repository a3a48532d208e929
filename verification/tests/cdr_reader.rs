use mcap_viewer::cdr_reader::CdrReader;
use mcap_viewer::decode::{decode, decode_visits, decode_with, push_index, Ending, Error, Value, Visit, VisitError, VisitLog};
use mcap_viewer::schema::{parse, MessageTable};

#[test]
fn reads_are_aligned_from_the_end_of_the_header() {
    // little endian: u8 at 0, u32 at 4 (three bytes of padding), u16 at 8, u64 at 16
    let mut data = vec![0u8, 1, 0, 0];
    data.push(0xab);
    data.extend_from_slice(&[0; 3]);
    data.extend_from_slice(&0xdead_beefu32.to_le_bytes());
    data.extend_from_slice(&0x0102u16.to_le_bytes());
    data.extend_from_slice(&[0; 6]);
    data.extend_from_slice(&u64::MAX.to_le_bytes());
    let mut r = CdrReader::new(&data);
    assert_eq!(r.len(), data.len() - 4);
    assert_eq!(r.u8(), 0xab);
    assert_eq!(r.offset(), 1);
    assert_eq!(r.u32(), 0xdead_beef);
    assert_eq!(r.offset(), 8);
    assert_eq!(r.u16(), 0x0102);
    assert_eq!(r.offset(), 10);
    assert_eq!(r.u64(), u64::MAX);
    assert_eq!(r.offset(), 24);
    assert!(!r.fits(1));
}

#[test]
fn big_endian_and_signed_reads() {
    let mut data = vec![0u8, 0, 0, 0];
    data.push(0x80);
    data.push(1);
    data.extend_from_slice(&(-300i16).to_be_bytes());
    data.extend_from_slice(&(-5i32).to_be_bytes());
    data.extend_from_slice(&(-1i64).to_be_bytes());
    data.extend_from_slice(&1.5f32.to_bits().to_be_bytes());
    data.extend_from_slice(&[0; 4]);
    data.extend_from_slice(&(-2.25f64).to_bits().to_be_bytes());
    let mut r = CdrReader::new(&data);
    assert_eq!(r.i8(), -128);
    assert!(r.bool());
    assert_eq!(r.i16(), -300);
    assert_eq!(r.i32(), -5);
    assert_eq!(r.i64(), -1);
    assert_eq!(f32::from_bits(r.f32_bits()), 1.5);
    assert_eq!(f64::from_bits(r.f64_bits()), -2.25);
}

#[test]
fn strings_count_their_terminator() {
    let mut data = vec![0u8, 1, 0, 0];
    data.extend_from_slice(&4u32.to_le_bytes());
    data.extend_from_slice(b"abc\0");
    data.extend_from_slice(&2u32.to_le_bytes());
    data.extend_from_slice(&[0xc3, 0]);
    let mut r = CdrReader::new(&data);
    assert!(r.str_fits());
    assert_eq!(r.str().unwrap(), "abc");
    assert_eq!(r.offset(), 8);
    match r.str() {
        Err(Error::Utf8Error { data, .. }) => assert_eq!(data, vec![0xc3]),
        other => panic!("unexpected {other:?}"),
    }
}

#[test]
fn push_index_writes_brackets_and_decimal() {
    let mut s = String::from("x");
    push_index(&mut s, 0);
    push_index(&mut s, 15);
    push_index(&mut s, 16);
    push_index(&mut s, 1234);
    assert_eq!(s, "x[0][15][16][1234]");
}

#[test]
fn trailing_bytes_change_nothing() {
    let mut table = MessageTable::new();
    let msg = parse("pkg/T", b"uint8 a\nstring s\nint16[] v\n", &mut table).unwrap();
    let mut input = vec![0u8, 1, 0, 0, 7, 0, 0, 0];
    input.extend_from_slice(&2u32.to_le_bytes());
    input.extend_from_slice(b"z\0");
    input.extend_from_slice(&[0, 0]);
    input.extend_from_slice(&1u32.to_le_bytes());
    input.extend_from_slice(&(-9i16).to_le_bytes());
    let plain = decode(&msg, &input);
    let mut longer = input.clone();
    longer.extend_from_slice(&[0xff; 13]);
    let extended = decode(&msg, &longer);
    let expected = vec![
        Visit { path: "a".to_owned(), value: Value::U8(7) },
        Visit { path: "s".to_owned(), value: Value::Str("z".to_owned()) },
        Visit { path: "v[0]".to_owned(), value: Value::I16(-9) },
    ];
    assert_eq!(plain.visits, expected);
    assert_eq!(extended.visits, expected);
    assert!(plain.result.is_ok() && extended.result.is_ok());
}

#[test]
fn values_before_running_out_are_reported() {
    let mut table = MessageTable::new();
    let msg = parse("pkg/T", b"uint8 a\nuint32 b\n", &mut table).unwrap();
    let (visits, ending) = decode_visits(&msg, &[0, 1, 0, 0, 4, 0]);
    assert_eq!(visits, vec![Visit { path: "a".to_owned(), value: Value::U8(4) }]);
    assert!(matches!(ending, Ending::OutOfBounds));
    let (visits, ending) = decode_visits(&msg, &[0, 1]);
    assert!(visits.is_empty() && matches!(ending, Ending::OutOfBounds));
}

#[test]
fn utf8_errors_give_the_valid_prefix() {
    assert_eq!(mcap_viewer::text::str_from_utf8(b"ab\xffc").unwrap_err().valid_up_to(), 2);
    assert_eq!(mcap_viewer::text::chars_of("h\u{e9}!"), vec!['h', '\u{e9}', '!']);
}

struct Collect {
    seen: Vec<String>,
    refuse_at: usize,
}

impl mcap_viewer::decode::Visitor for Collect {
    type Error = String;

    fn visit(&mut self, path: &str, _value: &Value) -> Result<(), String> {
        if self.seen.len() == self.refuse_at {
            return Err(path.to_owned());
        }
        self.seen.push(path.to_owned());
        Ok(())
    }
}

fn run(msg: &mcap_viewer::schema::Msg, input: &[u8], refuse_at: usize) -> (Result<(), VisitError<String>>, Vec<String>) {
    let mut log = VisitLog::new(Collect { seen: vec![], refuse_at });
    let r = decode_with(msg, input, &mut log);
    (r, log.into_visitor().seen)
}

#[test]
fn a_refused_value_stops_decoding() {
    let mut table = MessageTable::new();
    let msg = parse("pkg/T", b"uint8 a\nuint8 b\nuint8 c\n", &mut table).unwrap();
    let (r, seen) = run(&msg, &[0, 1, 0, 0, 1, 2, 3], 1);
    match r {
        Err(VisitError::Visitor(p)) => assert_eq!(p, "b"),
        other => panic!("unexpected {other:?}"),
    }
    assert_eq!(seen, vec!["a".to_owned()]);
}

#[test]
fn every_value_reaches_the_visitor_in_order() {
    let mut table = MessageTable::new();
    let msg = parse("pkg/T", b"uint8 a\nuint8 b\nuint8 c\n", &mut table).unwrap();
    let (r, seen) = run(&msg, &[0, 1, 0, 0, 1, 2, 3], 10);
    assert!(r.is_ok());
    assert_eq!(seen, vec!["a".to_owned(), "b".to_owned(), "c".to_owned()]);
    let (r, seen) = run(&msg, &[0, 1, 0, 0, 1], 10);
    assert!(matches!(r, Err(VisitError::OutOfBounds)));
    assert_eq!(seen, vec!["a".to_owned()]);
}
