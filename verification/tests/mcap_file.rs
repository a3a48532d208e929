use std::borrow::Cow;
use std::collections::BTreeMap;
use std::io::Cursor;
use std::sync::Arc;

use mcap::records::Record;
use mcap_viewer::mcap_file::{parse_all_schemas, store_message, store_messages, LoadError, MessageRecord};
use mcap_viewer::schema::{MessageTable, MsgId};
use mcap_viewer::storage::DataStorage;

fn message_data(a: i32, b: f64) -> Vec<u8> {
    let mut data = vec![0u8, 1, 0, 0];
    data.extend_from_slice(&a.to_le_bytes());
    data.extend_from_slice(&[0; 4]);
    data.extend_from_slice(&b.to_le_bytes());
    data
}

fn mcap_bytes(messages: &[(u64, Vec<u8>)]) -> Vec<u8> {
    let mut cursor = Cursor::new(Vec::new());
    {
        let mut writer = mcap::Writer::new(&mut cursor).unwrap();
        let schema = mcap::Schema {
            name: "pkg/msg/T".to_owned(),
            encoding: "ros2msg".to_owned(),
            data: Cow::Owned(b"int32 a\nfloat64 b\n".to_vec()),
        };
        let channel = mcap::Channel {
            topic: "/t".to_owned(),
            schema: Some(Arc::new(schema)),
            message_encoding: "cdr".to_owned(),
            metadata: BTreeMap::new(),
        };
        let id = writer.add_channel(&channel).unwrap();
        for (i, (time, data)) in messages.iter().enumerate() {
            let header = mcap::records::MessageHeader {
                channel_id: id,
                sequence: i as u32,
                log_time: *time,
                publish_time: *time,
            };
            writer.write_to_known_channel(&header, data).unwrap();
        }
        writer.finish().unwrap();
    }
    cursor.into_inner()
}


fn summary_channels(bytes: &[u8]) -> Option<Vec<(u16, Option<(String, Vec<u8>)>)>> {
    match mcap::Summary::read(bytes) {
        Ok(Some(summary)) => Some(
            summary
                .channels
                .iter()
                .map(|(id, c)| (*id, c.schema.as_ref().map(|s| (s.name.clone(), s.data.to_vec()))))
                .collect(),
        ),
        _ => None,
    }
}

fn chunk_records(bytes: &[u8]) -> Option<Vec<Option<(String, Vec<u8>)>>> {
    let stream =
        mcap::read::ChunkFlattener::new_with_options(bytes, mcap::read::Options::IgnoreEndMagic.into()).ok()?;
    Some(
        stream
            .map_while(Result::ok)
            .map(|r| match r {
                Record::Schema { header, data } => Some((header.name, data.into_owned())),
                _ => None,
            })
            .collect(),
    )
}

fn read_messages(bytes: &[u8]) -> Option<Vec<MessageRecord>> {
    let stream = mcap::MessageStream::new_with_options(bytes, mcap::read::Options::IgnoreEndMagic.into()).ok()?;
    Some(
        stream
            .map_while(Result::ok)
            .map(|m| MessageRecord {
                topic: m.channel.topic.clone(),
                publish_time: m.publish_time,
                schema_name: m.channel.schema.as_ref().map(|s| s.name.clone()),
                data: m.data.into_owned(),
            })
            .collect(),
    )
}

fn parse_schemas(bytes: &[u8], table: &mut MessageTable) -> Result<(), LoadError> {
    let summary = summary_channels(bytes);
    let records = if summary.is_none() { chunk_records(bytes) } else { None };
    parse_all_schemas(summary.as_ref(), records.as_ref(), table)
}

fn load_messages(bytes: &[u8], table: &MessageTable, storage: &mut DataStorage) -> Result<(), LoadError> {
    store_messages(&read_messages(bytes).unwrap(), table, storage)
}

#[test]
fn summary_or_schema_records_are_chosen() {
    let bytes = mcap_bytes(&[(1, message_data(1, 0.0))]);
    // the summary lists the channel with its schema
    let summary = summary_channels(&bytes).unwrap();
    assert_eq!(summary.len(), 1);
    let mut table = MessageTable::new();
    parse_all_schemas(Some(&summary), None, &mut table).unwrap();
    assert_eq!(table.len(), 1);
    // without a summary, the schema records are used
    let records = chunk_records(&bytes).unwrap();
    let mut table = MessageTable::new();
    parse_all_schemas(None, Some(&records), &mut table).unwrap();
    assert!(table.contains_key(&MsgId::new("pkg", "T")));
    // a channel without schema, and unreadable records
    let mut table = MessageTable::new();
    assert!(matches!(parse_all_schemas(Some(&vec![(1, None)]), None, &mut table), Err(LoadError::ChannelWithoutSchema)));
    assert!(matches!(parse_all_schemas(None, None, &mut table), Err(LoadError::Unreadable)));
    let bad = vec![(1u16, Some(("pkg/U".to_owned(), b"wstring w\n".to_vec())))];
    assert!(matches!(parse_all_schemas(Some(&bad), None, &mut table), Err(LoadError::UnsupportedSchema(_))));
}

#[test]
fn schemas_and_messages_of_a_file_are_loaded() {
    let bytes = mcap_bytes(&[(20, message_data(5, 1.5)), (10, message_data(-6, 2.5))]);
    let mut table = MessageTable::new();
    parse_schemas(&bytes, &mut table).unwrap();
    assert!(table.contains_key(&MsgId::new("pkg", "T")));
    let records = read_messages(&bytes).unwrap();
    assert_eq!(records.len(), 2);
    assert_eq!(records[0].topic, "/t");
    assert_eq!(records[0].publish_time, 20);
    assert_eq!(records[0].schema_name.as_deref(), Some("pkg/msg/T"));
    let mut storage = DataStorage::new();
    load_messages(&bytes, &table, &mut storage).unwrap();
    assert_eq!(storage.get_field("/t", "a").unwrap().as_i32().unwrap(), &vec![(20, 5), (10, -6)]);
    assert_eq!(
        storage.get_field("/t", "b").unwrap().as_f64().unwrap(),
        &vec![(20, 1.5f64.to_bits()), (10, 2.5f64.to_bits())]
    );
    storage.sort_unstable();
    assert_eq!(storage.get_field("/t", "a").unwrap().as_i32().unwrap(), &vec![(10, -6), (20, 5)]);
}

#[test]
fn a_message_without_its_schema_is_an_error() {
    let bytes = mcap_bytes(&[(1, message_data(1, 0.0))]);
    let table = MessageTable::new();
    let mut storage = DataStorage::new();
    match load_messages(&bytes, &table, &mut storage) {
        Err(LoadError::Schema(mcap_viewer::schema::Error::MissingMessageDefinition(id))) => {
            assert_eq!(id, MsgId::new("pkg", "T"))
        }
        other => panic!("unexpected {other:?}"),
    }
    assert!(!storage.contains_key("/t"));
}

#[test]
fn a_short_message_is_out_of_bounds() {
    let bytes = mcap_bytes(&[(1, vec![0, 1, 0, 0, 9])]);
    let mut table = MessageTable::new();
    parse_schemas(&bytes, &mut table).unwrap();
    let records = read_messages(&bytes).unwrap();
    let mut storage = DataStorage::new();
    assert!(matches!(store_message(&records[0], &table, &mut storage), Err(LoadError::OutOfBounds)));
}

#[test]
fn mismatched_types_stop_storing() {
    let bytes = mcap_bytes(&[(3, message_data(7, 0.5))]);
    let mut table = MessageTable::new();
    parse_schemas(&bytes, &mut table).unwrap();
    let records = read_messages(&bytes).unwrap();
    let mut storage = DataStorage::new();
    storage.new_visitor("/t", 1).visit_u8("a", 1);
    match store_message(&records[0], &table, &mut storage) {
        Err(LoadError::MismatchedType(path)) => assert_eq!(path, "a"),
        other => panic!("unexpected {other:?}"),
    }
    assert_eq!(storage.get_field("/t", "a").unwrap().len(), 1);
}

#[test]
fn bytes_that_are_not_mcap_declare_nothing() {
    // reading stops at the first record that cannot be read
    let mut table = MessageTable::new();
    assert!(parse_schemas(b"not an mcap file", &mut table).is_ok());
    assert_eq!(table.len(), 0);
    assert!(read_messages(b"not an mcap file").map_or(true, |r| r.is_empty()));
}
