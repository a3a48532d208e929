use mcap_viewer::storage::{DataStorage, TimeSeries, TopicStorage};

#[test]
fn push_takes_the_type_of_the_first_value() {
    let mut s = TimeSeries::Uninit;
    assert!(s.is_empty());
    s.push_u16(10, 7);
    s.push_u16(5, 8);
    assert_eq!(s.len(), 2);
    assert_eq!(s.as_u16().unwrap(), &vec![(10, 7), (5, 8)]);
    assert!(s.as_i16().is_none());
    assert!(s.as_mut_i16().is_none());
    assert!(s.as_mut_u16().is_some());
}

#[test]
fn as_mut_turns_an_empty_series_into_the_type() {
    let mut s = TimeSeries::default();
    s.as_mut_f64().unwrap().push((3, 2.5f64.to_bits()));
    assert_eq!(s.as_f64().unwrap(), &vec![(3, 2.5f64.to_bits())]);
}

#[test]
fn sort_orders_points_by_time() {
    let mut s = TimeSeries::Uninit;
    for (t, v) in [(30u64, 1i64), (10, 2), (20, 3), (10, 4)] {
        s.push_i64(t, v);
    }
    s.sort_unstable();
    let pts = s.as_i64().unwrap();
    let times: Vec<u64> = pts.iter().map(|p| p.0).collect();
    assert_eq!(times, vec![10, 10, 20, 30]);
    let mut values: Vec<i64> = pts.iter().map(|p| p.1).collect();
    values.sort();
    assert_eq!(values, vec![1, 2, 3, 4]);
}

#[test]
fn visitor_records_values_per_field() {
    let mut storage = DataStorage::new();
    {
        let mut v = storage.new_visitor("/topic", 100);
        v.visit_i32("a", -1);
        v.visit_bool("b", true);
        v.visit_f32_bits("c", 1.0f32.to_bits());
    }
    {
        let mut v = storage.new_visitor("/topic", 200);
        v.visit_i32("a", -2);
    }
    assert!(storage.contains_key("/topic"));
    assert_eq!(storage.get_field("/topic", "a").unwrap().as_i32().unwrap(), &vec![(100, -1), (200, -2)]);
    assert_eq!(storage.get_field("/topic", "b").unwrap().as_bool().unwrap(), &vec![(100, true)]);
    assert_eq!(storage.get_field("/topic", "c").unwrap().as_f32().unwrap(), &vec![(100, 1.0f32.to_bits())]);
    assert!(storage.get_field("/topic", "d").is_none());
    assert!(storage.get_field("/other", "a").is_none());
}

#[test]
fn merge_appends_series_and_adds_new_ones() {
    let mut a = DataStorage::new();
    a.new_visitor("/t", 1).visit_u8("x", 1);
    let mut b = DataStorage::new();
    b.new_visitor("/t", 2).visit_u8("x", 2);
    b.new_visitor("/t", 3).visit_u64("y", 9);
    b.new_visitor("/u", 4).visit_i8("z", -3);
    a.merge(b);
    assert_eq!(a.get_field("/t", "x").unwrap().as_u8().unwrap(), &vec![(1, 1), (2, 2)]);
    assert_eq!(a.get_field("/t", "y").unwrap().as_u64().unwrap(), &vec![(3, 9)]);
    assert_eq!(a.get_field("/u", "z").unwrap().as_i8().unwrap(), &vec![(4, -3)]);
    let mut keys = a.keys();
    keys.sort();
    assert_eq!(keys, vec!["/t".to_owned(), "/u".to_owned()]);
}

#[test]
fn merge_order_does_not_matter_after_sorting() {
    let build = |times: &[u64]| {
        let mut s = DataStorage::new();
        for &t in times {
            s.new_visitor("/t", t).visit_u32("v", t as u32 * 10);
        }
        s
    };
    let mut ab = build(&[5, 1]);
    ab.merge(build(&[3, 2]));
    ab.sort_unstable();
    let mut ba = build(&[3, 2]);
    ba.merge(build(&[5, 1]));
    ba.sort_unstable();
    let expected = vec![(1, 10), (2, 20), (3, 30), (5, 50)];
    assert_eq!(ab.get_field("/t", "v").unwrap().as_u32().unwrap(), &expected);
    assert_eq!(ba.get_field("/t", "v").unwrap().as_u32().unwrap(), &expected);
}

#[test]
fn topic_storage_lookups() {
    let mut storage = DataStorage::default();
    storage.new_visitor("/t", 7).visit_i16("f", 3);
    let topic: &TopicStorage = storage.get("/t").unwrap();
    assert!(topic.contains_key("f"));
    assert_eq!(topic.keys(), vec!["f".to_owned()]);
    assert_eq!(topic.get("f").unwrap().len(), 1);
    let t = storage.get_mut("/t").unwrap();
    t.get_mut("f").unwrap().push_i16(8, 4);
    t.sort_unstable();
    assert_eq!(storage.get_field("/t", "f").unwrap().as_i16().unwrap(), &vec![(7, 3), (8, 4)]);
    assert!(TopicStorage::new().keys().is_empty());
}
