//! Loading what an MCAP file holds: the schemas it declares are parsed into a
//! message table, and its messages are decoded into a storage, each value at
//! its message's publish time.
//!
//! The container format is read by the `mcap` crate, outside this library:
//! its readers panic on some malformed files in ways no precondition over the
//! bytes can describe without decompressing every chunk. The functions here
//! take what the readers give: the summary's channels with their schemas, the
//! file's records (a schema record as its name and text), and its messages.
use crate::decode::{decode_spec, decode_visits, lemma_decode_view, Ending, ErrorView, State};
use crate::schema::parse::{get_spec, name_parts, parse_spec, ErrorV, Outcome};
use crate::schema::{get, parse_name_parts, try_parse, Error as SchemaError, MessageTable, Msg, MsgV};
use crate::schema::table::IdV;
use crate::storage::{record_visits, storage_topics, topic_or_empty, DataStorage, SeriesV};
use vstd::prelude::*;

verus! {

/// The schema (name and text) of a channel, where it has one.
pub open spec fn schema_view(o: Option<(String, Vec<u8>)>) -> Option<(Seq<char>, Seq<u8>)> {
    match o {
        Some((n, d)) => Some((n@, d@)),
        None => None,
    }
}

/// A message of an MCAP file: its channel's topic, its publish time, the
/// schema name of its channel (where the channel has a schema) and its data.
#[derive(Debug, Clone)]
pub struct MessageRecord {
    pub topic: String,
    pub publish_time: u64,
    pub schema_name: Option<String>,
    pub data: Vec<u8>,
}

impl View for MessageRecord {
    type V = (Seq<char>, u64, Option<Seq<char>>, Seq<u8>);

    open spec fn view(&self) -> (Seq<char>, u64, Option<Seq<char>>, Seq<u8>) {
        (
            self.topic@,
            self.publish_time,
            match self.schema_name {
                Some(n) => Some(n@),
                None => None,
            },
            self.data@,
        )
    }
}

pub open spec fn records_view(rs: Seq<MessageRecord>) -> Seq<(Seq<char>, u64, Option<Seq<char>>, Seq<u8>)> {
    rs.map_values(|r: MessageRecord| r@)
}

/// Why an MCAP file could not be loaded.
#[derive(Debug)]
pub enum LoadError {
    /// The file's records cannot be read.
    Unreadable,
    /// A channel has no schema.
    ChannelWithoutSchema,
    /// A schema uses what parsing does not support.
    UnsupportedSchema(String),
    Schema(SchemaError),
    /// A message's data ends before the message does.
    OutOfBounds,
    Decode(crate::decode::Error),
    /// A field received a value of another type than its series holds.
    MismatchedType(String),
}

/// A [`LoadError`] as plain values.
pub enum LoadErrorV {
    Unreadable,
    ChannelWithoutSchema,
    UnsupportedSchema(Seq<char>),
    Schema(ErrorV),
    OutOfBounds,
    Decode(ErrorView),
    MismatchedType(Seq<char>),
}

impl View for LoadError {
    type V = LoadErrorV;

    open spec fn view(&self) -> LoadErrorV {
        match self {
            LoadError::Unreadable => LoadErrorV::Unreadable,
            LoadError::ChannelWithoutSchema => LoadErrorV::ChannelWithoutSchema,
            LoadError::UnsupportedSchema(n) => LoadErrorV::UnsupportedSchema(n@),
            LoadError::Schema(e) => LoadErrorV::Schema(e@),
            LoadError::OutOfBounds => LoadErrorV::OutOfBounds,
            LoadError::Decode(e) => LoadErrorV::Decode(e@),
            LoadError::MismatchedType(p) => LoadErrorV::MismatchedType(p@),
        }
    }
}

/// The error of a result, as a plain value.
pub open spec fn error_of(r: Result<(), LoadError>) -> Option<LoadErrorV> {
    match r {
        Ok(()) => None,
        Err(e) => Some(e@),
    }
}

/// Parsing one schema into table `t`.
pub open spec fn parse_one(name: Seq<char>, text: Seq<u8>, t: Map<IdV, MsgV>) -> (Option<LoadErrorV>, Map<IdV, MsgV>) {
    let (o, t2) = parse_spec(name, text, t);
    match o {
        Outcome::Done(_) => (None, t2),
        Outcome::Failed(e) => (Some(LoadErrorV::Schema(e)), t2),
        Outcome::Unsupported => (Some(LoadErrorV::UnsupportedSchema(name)), t2),
    }
}

/// Parsing the schemas `ss` in order into table `t`, up to the first that fails.
pub open spec fn parse_schemas(ss: Seq<(Seq<char>, Seq<u8>)>, t: Map<IdV, MsgV>) -> (Option<LoadErrorV>, Map<IdV, MsgV>)
    decreases ss.len(),
{
    if ss.len() == 0 {
        (None, t)
    } else {
        let (e, t1) = parse_schemas(ss.drop_last(), t);
        if e is Some {
            (e, t1)
        } else {
            parse_one(ss.last().0, ss.last().1, t1)
        }
    }
}

/// The schemas of the schema records among `rs`, in order.
pub open spec fn present_schemas(rs: Seq<Option<(Seq<char>, Seq<u8>)>>) -> Seq<(Seq<char>, Seq<u8>)>
    decreases rs.len(),
{
    if rs.len() == 0 {
        Seq::empty()
    } else {
        let p = present_schemas(rs.drop_last());
        match rs.last() {
            Some(s) => p.push(s),
            None => p,
        }
    }
}

/// The schemas of channels that all have one.
pub open spec fn channel_schemas(cs: Seq<(u16, Option<(String, Vec<u8>)>)>) -> Seq<(Seq<char>, Seq<u8>)> {
    cs.map_values(|c: (u16, Option<(String, Vec<u8>)>)| schema_view(c.1)->Some_0)
}

/// Whether the result `r` and the table `t` are what the parsing outcome `o`
/// gives.
pub open spec fn parsed_as(r: Result<(), LoadError>, t: Map<IdV, MsgV>, o: (Option<LoadErrorV>, Map<IdV, MsgV>)) -> bool {
    &&& error_of(r) == o.0
    &&& t == o.1
}

proof fn lemma_parse_stops(a: Seq<(Seq<char>, Seq<u8>)>, b: Seq<(Seq<char>, Seq<u8>)>, t: Map<IdV, MsgV>)
    requires
        parse_schemas(a, t).0 is Some,
    ensures
        parse_schemas(a + b, t) == parse_schemas(a, t),
    decreases b.len(),
{
    if b.len() == 0 {
        assert(a + b =~= a);
    } else {
        assert((a + b).drop_last() =~= a + b.drop_last());
        lemma_parse_stops(a, b.drop_last(), t);
    }
}

proof fn lemma_present_split(s: Seq<Option<(Seq<char>, Seq<u8>)>>, n: int)
    requires
        0 <= n <= s.len(),
    ensures
        present_schemas(s) == present_schemas(s.take(n)) + present_schemas(s.skip(n)),
    decreases s.len(),
{
    if n == s.len() {
        assert(s.take(n) =~= s);
        assert(s.skip(n) =~= Seq::<Option<(Seq<char>, Seq<u8>)>>::empty());
        assert(present_schemas(s) + Seq::empty() =~= present_schemas(s));
    } else {
        lemma_present_split(s.drop_last(), n);
        assert(s.drop_last().take(n) =~= s.take(n));
        assert(s.skip(n).drop_last() =~= s.drop_last().skip(n));
        assert(s.skip(n).last() == s.last());
        let a = present_schemas(s.take(n));
        let b = present_schemas(s.drop_last().skip(n));
        match s.last() {
            Some(x) => {
                assert((a + b).push(x) =~= a + b.push(x));
            },
            None => {},
        }
    }
}

/// Parses one schema into `table`.
fn parse_step(name: &String, data: &Vec<u8>, table: &mut MessageTable) -> (r: Result<(), LoadError>)
    ensures
        parsed_as(r, final(table)@, parse_one(name@, data@, old(table)@)),
{
    match try_parse(name.as_str(), data.as_slice(), table) {
        None => Err(LoadError::UnsupportedSchema(name.clone())),
        Some(Err(e)) => Err(LoadError::Schema(e)),
        Some(Ok(_)) => Ok(()),
    }
}

/// Parses the schemas of `channels`, which all have one, in order.
fn parse_channels(channels: &Vec<(u16, Option<(String, Vec<u8>)>)>, table: &mut MessageTable) -> (r: Result<(), LoadError>)
    requires
        forall|k: int| 0 <= k < channels@.len() ==> (#[trigger] channels@[k]).1 is Some,
    ensures
        parsed_as(r, final(table)@, parse_schemas(channel_schemas(channels@), old(table)@)),
{
    let ghost t0 = table@;
    let ghost ss = channel_schemas(channels@);
    let n = channels.len();
    let mut j: usize = 0;
    while j < n
        invariant
            0 <= j <= n,
            n == channels@.len(),
            ss == channel_schemas(channels@),
            t0 == old(table)@,
            forall|k: int| 0 <= k < n ==> (#[trigger] channels@[k]).1 is Some,
            parse_schemas(ss.take(j as int), t0) == (None::<LoadErrorV>, table@),
        decreases n - j,
    {
        proof {
            assert(ss.take(j + 1).drop_last() =~= ss.take(j as int));
            assert(ss.take(j + 1) + ss.skip(j + 1) =~= ss);
        }
        match &channels[j].1 {
            Some((name, data)) => {
                assert(ss.take(j + 1).last() == (name@, data@));
                let ghost tb = table@;
                assert(parse_schemas(ss.take(j + 1), t0) == parse_one(name@, data@, tb));
                let r = parse_step(name, data, table);
                if r.is_err() {
                    proof {
                        lemma_parse_stops(ss.take(j + 1), ss.skip(j + 1), t0);
                        assert(parse_schemas(ss, t0) == parse_one(name@, data@, tb));
                    }
                    return r;
                }
            },
            None => {
                assert(channels@[j as int].1 is Some);
                return Err(LoadError::ChannelWithoutSchema);
            },
        }
        j += 1;
    }
    assert(ss.take(n as int) =~= ss);
    Ok(())
}

/// Parses the schemas of the schema records among `records`, in order.
fn parse_records(records: &Vec<Option<(String, Vec<u8>)>>, table: &mut MessageTable) -> (r: Result<(), LoadError>)
    ensures
        parsed_as(
            r,
            final(table)@,
            parse_schemas(present_schemas(records@.map_values(|o: Option<(String, Vec<u8>)>| schema_view(o))), old(table)@),
        ),
{
    let ghost t0 = table@;
    let ghost rs = records@.map_values(|o: Option<(String, Vec<u8>)>| schema_view(o));
    let n = records.len();
    let mut j: usize = 0;
    while j < n
        invariant
            0 <= j <= n,
            n == records@.len(),
            rs == records@.map_values(|o: Option<(String, Vec<u8>)>| schema_view(o)),
            t0 == old(table)@,
            parse_schemas(present_schemas(rs.take(j as int)), t0) == (None::<LoadErrorV>, table@),
        decreases n - j,
    {
        proof {
            assert(rs.take(j + 1).drop_last() =~= rs.take(j as int));
            assert(rs.take(j + 1).last() == schema_view(records@[j as int]));
            lemma_present_split(rs, j + 1);
        }
        match &records[j] {
            Some((name, data)) => {
                let ghost p = present_schemas(rs.take(j + 1));
                assert(p.drop_last() == present_schemas(rs.take(j as int)));
                assert(p.last() == (name@, data@));
                let ghost tb = table@;
                assert(parse_schemas(p, t0) == parse_one(name@, data@, tb));
                let r = parse_step(name, data, table);
                if r.is_err() {
                    proof {
                        lemma_parse_stops(p, present_schemas(rs.skip(j + 1)), t0);
                        assert(present_schemas(rs) == p + present_schemas(rs.skip(j + 1)));
                        assert(parse_schemas(present_schemas(rs), t0) == parse_one(name@, data@, tb));
                    }
                    return r;
                }
            },
            None => {},
        }
        j += 1;
    }
    assert(rs.take(n as int) =~= rs);
    Ok(())
}

/// Whether some channel of `channels` has no schema.
fn some_without_schema(channels: &Vec<(u16, Option<(String, Vec<u8>)>)>) -> (b: bool)
    ensures
        b == exists|k: int| 0 <= k < channels@.len() && (#[trigger] channels@[k]).1 is None,
{
    let n = channels.len();
    let mut i: usize = 0;
    while i < n
        invariant
            0 <= i <= n,
            n == channels@.len(),
            forall|k: int| 0 <= k < i ==> (#[trigger] channels@[k]).1 is Some,
        decreases n - i,
    {
        if channels[i].1.is_none() {
            return true;
        }
        i += 1;
    }
    false
}

/// Parses every schema an MCAP file declares into `table`: those of the
/// channels of its summary section (`summary`, the channels in any order,
/// where the file has one; a channel without schema is an error), else those
/// of its schema records (`records`, in file order; `None` where the records
/// cannot be read). Stops at the first schema that fails.
pub fn parse_all_schemas(
    summary: Option<&Vec<(u16, Option<(String, Vec<u8>)>)>>,
    records: Option<&Vec<Option<(String, Vec<u8>)>>>,
    table: &mut MessageTable,
) -> (r: Result<(), LoadError>)
    ensures
        match summary {
            Some(cs) => if exists|k: int| 0 <= k < cs@.len() && (#[trigger] cs@[k]).1 is None {
                error_of(r) == Some(LoadErrorV::ChannelWithoutSchema) && final(table)@ == old(table)@
            } else {
                parsed_as(r, final(table)@, parse_schemas(channel_schemas(cs@), old(table)@))
            },
            None => match records {
                None => error_of(r) == Some(LoadErrorV::Unreadable) && final(table)@ == old(table)@,
                Some(rs) => parsed_as(
                    r,
                    final(table)@,
                    parse_schemas(present_schemas(rs@.map_values(|o: Option<(String, Vec<u8>)>| schema_view(o))), old(table)@),
                ),
            },
        },
{
    match summary {
        Some(channels) => {
            if some_without_schema(channels) {
                return Err(LoadError::ChannelWithoutSchema);
            }
            parse_channels(channels, table)
        },
        None => match records {
            None => Err(LoadError::Unreadable),
            Some(records) => parse_records(records, table),
        },
    }
}

/// The schema a table entry stands for (decoding depends on nothing else of
/// it, by `lemma_decode_view`).
pub open spec fn schema_for(mv: MsgV) -> Msg {
    choose|m: Msg| m@ == mv
}

/// What storing one message gives: its schema is looked up in `table`, the
/// message decoded, and its values recorded in the series of its topic at its
/// publish time. On an error the values decoded and recorded before it stay.
pub open spec fn store_one(
    st: Map<Seq<char>, Map<Seq<char>, SeriesV>>,
    table: Map<IdV, MsgV>,
    rec: (Seq<char>, u64, Option<Seq<char>>, Seq<u8>),
) -> (Map<Seq<char>, Map<Seq<char>, SeriesV>>, Option<LoadErrorV>) {
    let (topic, time, schema, data) = rec;
    match schema {
        None => (st, Some(LoadErrorV::ChannelWithoutSchema)),
        Some(name) => match get_spec(name, table) {
            Err(e) => (st, Some(LoadErrorV::Schema(e))),
            Ok(None) => (st, Some(LoadErrorV::Schema(ErrorV::MissingMessageDefinition(name_parts(name)->Some_0)))),
            Ok(Some(mv)) => match decode_spec(schema_for(mv), data) {
                State::OutOfBounds { visits } => {
                    let (m, e) = record_visits(topic_or_empty(st, topic), time, visits);
                    (
                        st.insert(topic, m),
                        match e {
                            Some(p) => Some(LoadErrorV::MismatchedType(p)),
                            None => Some(LoadErrorV::OutOfBounds),
                        },
                    )
                },
                State::Running { visits, .. } => {
                    let (m, e) = record_visits(topic_or_empty(st, topic), time, visits);
                    (
                        st.insert(topic, m),
                        match e {
                            Some(p) => Some(LoadErrorV::MismatchedType(p)),
                            None => None,
                        },
                    )
                },
                State::Stopped { visits, error } => {
                    let (m, e) = record_visits(topic_or_empty(st, topic), time, visits);
                    (
                        st.insert(topic, m),
                        match e {
                            Some(p) => Some(LoadErrorV::MismatchedType(p)),
                            None => Some(LoadErrorV::Decode(error)),
                        },
                    )
                },
            },
        },
    }
}

/// Storing the messages `rs` in order, up to the first that fails.
pub open spec fn store_all(
    st: Map<Seq<char>, Map<Seq<char>, SeriesV>>,
    table: Map<IdV, MsgV>,
    rs: Seq<(Seq<char>, u64, Option<Seq<char>>, Seq<u8>)>,
) -> (Map<Seq<char>, Map<Seq<char>, SeriesV>>, Option<LoadErrorV>)
    decreases rs.len(),
{
    if rs.len() == 0 {
        (st, None)
    } else {
        let (st1, e) = store_all(st, table, rs.drop_last());
        if e is Some {
            (st1, e)
        } else {
            store_one(st1, table, rs.last())
        }
    }
}

proof fn lemma_store_stops(
    st: Map<Seq<char>, Map<Seq<char>, SeriesV>>,
    table: Map<IdV, MsgV>,
    rs: Seq<(Seq<char>, u64, Option<Seq<char>>, Seq<u8>)>,
    n: int,
)
    requires
        0 <= n <= rs.len(),
        store_all(st, table, rs.take(n)).1 is Some,
    ensures
        store_all(st, table, rs) == store_all(st, table, rs.take(n)),
    decreases rs.len() - n,
{
    if n < rs.len() {
        assert(rs.take(n + 1).drop_last() =~= rs.take(n));
        lemma_store_stops(st, table, rs, n + 1);
    } else {
        assert(rs.take(n) =~= rs);
    }
}

/// Decodes one message with its schema from `table` and records its values
/// in `storage`, as [`store_one`] says.
pub fn store_message(rec: &MessageRecord, table: &MessageTable, storage: &mut DataStorage) -> (r: Result<(), LoadError>)
    ensures
        (storage_topics(*final(storage)), error_of(r)) == store_one(storage_topics(*old(storage)), table@, rec@),
{
    let name = match &rec.schema_name {
        None => {
            return Err(LoadError::ChannelWithoutSchema);
        },
        Some(n) => n,
    };
    let msg = match get(name.as_str(), table) {
        Err(e) => {
            return Err(LoadError::Schema(e));
        },
        Ok(None) => {
            return match parse_name_parts(name.as_str()) {
                Ok(id) => Err(LoadError::Schema(SchemaError::MissingMessageDefinition(id))),
                Err(e) => Err(LoadError::Schema(e)),
            };
        },
        Ok(Some(m)) => m,
    };
    let schema: &Msg = &*msg;
    proof {
        assert(schema@ == table@[name_parts(name@)->Some_0]);
        let mv = schema@;
        assert(exists|m: Msg| m@ == mv);
        lemma_decode_view(schema_for(mv), *schema, rec.data@);
    }
    let (visits, ending) = decode_visits(schema, rec.data.as_slice());
    match storage.record(rec.topic.as_str(), rec.publish_time, &visits) {
        Err(p) => {
            return Err(LoadError::MismatchedType(p));
        },
        Ok(()) => {},
    }
    match ending {
        Ending::Done => Ok(()),
        Ending::Failed(e) => Err(LoadError::Decode(e)),
        Ending::OutOfBounds => Err(LoadError::OutOfBounds),
    }
}

/// Stores the messages `records` in order, as [`store_all`] says: stops at
/// the first that fails.
pub fn store_messages(records: &[MessageRecord], table: &MessageTable, storage: &mut DataStorage) -> (r: Result<(), LoadError>)
    ensures
        (storage_topics(*final(storage)), error_of(r)) == store_all(storage_topics(*old(storage)), table@, records_view(records@)),
{
    let ghost s0 = storage_topics(*storage);
    let ghost rs = records_view(records@);
    let n = records.len();
    let mut i: usize = 0;
    while i < n
        invariant
            0 <= i <= n,
            n == records@.len(),
            rs == records_view(records@),
            s0 == storage_topics(*old(storage)),
            store_all(s0, table@, rs.take(i as int)) == (storage_topics(*storage), None::<LoadErrorV>),
        decreases n - i,
    {
        proof {
            assert(rs.take(i + 1).drop_last() =~= rs.take(i as int));
            assert(rs.take(i + 1).last() == records@[i as int]@);
        }
        let r = store_message(&records[i], table, storage);
        if r.is_err() {
            proof {
                lemma_store_stops(s0, table@, rs, i + 1);
            }
            return r;
        }
        i += 1;
    }
    assert(rs.take(n as int) =~= rs);
    Ok(())
}

} // verus!
