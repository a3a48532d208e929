//! Time series of decoded values, per field and per topic, as the viewer
//! plots them.
//!
//! Every value a decoded message reports goes to the series of its field, with
//! the message's timestamp. A series takes the type of its first value and
//! keeps it. Floating-point values are held by their IEEE 754 bit patterns.
use crate::decode::{visits_view, Value, ValueV, Visit};
use hashbrown::HashMap;
use vstd::prelude::*;

verus! {

/// The points of one field: `(timestamp, value)` pairs of a single type, or
/// nothing yet.
#[derive(Debug, Clone)]
pub enum TimeSeries {
    Uninit,
    Bool(Vec<(u64, bool)>),
    I8(Vec<(u64, i8)>),
    I16(Vec<(u64, i16)>),
    I32(Vec<(u64, i32)>),
    I64(Vec<(u64, i64)>),
    U8(Vec<(u64, u8)>),
    U16(Vec<(u64, u16)>),
    U32(Vec<(u64, u32)>),
    U64(Vec<(u64, u64)>),
    F32(Vec<(u64, u32)>),
    F64(Vec<(u64, u64)>),
}

/// A [`TimeSeries`] as plain values.
pub enum SeriesV {
    Uninit,
    Bool(Seq<(u64, bool)>),
    I8(Seq<(u64, i8)>),
    I16(Seq<(u64, i16)>),
    I32(Seq<(u64, i32)>),
    I64(Seq<(u64, i64)>),
    U8(Seq<(u64, u8)>),
    U16(Seq<(u64, u16)>),
    U32(Seq<(u64, u32)>),
    U64(Seq<(u64, u64)>),
    F32(Seq<(u64, u32)>),
    F64(Seq<(u64, u64)>),
}

impl View for TimeSeries {
    type V = SeriesV;

    open spec fn view(&self) -> SeriesV {
        match self {
            TimeSeries::Uninit => SeriesV::Uninit,
            TimeSeries::Bool(v) => SeriesV::Bool(v@),
            TimeSeries::I8(v) => SeriesV::I8(v@),
            TimeSeries::I16(v) => SeriesV::I16(v@),
            TimeSeries::I32(v) => SeriesV::I32(v@),
            TimeSeries::I64(v) => SeriesV::I64(v@),
            TimeSeries::U8(v) => SeriesV::U8(v@),
            TimeSeries::U16(v) => SeriesV::U16(v@),
            TimeSeries::U32(v) => SeriesV::U32(v@),
            TimeSeries::U64(v) => SeriesV::U64(v@),
            TimeSeries::F32(v) => SeriesV::F32(v@),
            TimeSeries::F64(v) => SeriesV::F64(v@),
        }
    }
}

/// The number of points of a series.
pub open spec fn series_len(s: SeriesV) -> nat {
    match s {
        SeriesV::Uninit => 0,
        SeriesV::Bool(p) => p.len(),
        SeriesV::I8(p) => p.len(),
        SeriesV::I16(p) => p.len(),
        SeriesV::I32(p) => p.len(),
        SeriesV::I64(p) => p.len(),
        SeriesV::U8(p) => p.len(),
        SeriesV::U16(p) => p.len(),
        SeriesV::U32(p) => p.len(),
        SeriesV::U64(p) => p.len(),
        SeriesV::F32(p) => p.len(),
        SeriesV::F64(p) => p.len(),
    }
}

/// The points of a series of `bool` values (none for a series of another type).
pub open spec fn points_bool(s: SeriesV) -> Seq<(u64, bool)> {
    match s {
        SeriesV::Bool(p) => p,
        _ => Seq::empty(),
    }
}

pub open spec fn points_i8(s: SeriesV) -> Seq<(u64, i8)> {
    match s {
        SeriesV::I8(p) => p,
        _ => Seq::empty(),
    }
}

pub open spec fn points_i16(s: SeriesV) -> Seq<(u64, i16)> {
    match s {
        SeriesV::I16(p) => p,
        _ => Seq::empty(),
    }
}

pub open spec fn points_i32(s: SeriesV) -> Seq<(u64, i32)> {
    match s {
        SeriesV::I32(p) => p,
        _ => Seq::empty(),
    }
}

pub open spec fn points_i64(s: SeriesV) -> Seq<(u64, i64)> {
    match s {
        SeriesV::I64(p) => p,
        _ => Seq::empty(),
    }
}

pub open spec fn points_u8(s: SeriesV) -> Seq<(u64, u8)> {
    match s {
        SeriesV::U8(p) => p,
        _ => Seq::empty(),
    }
}

pub open spec fn points_u16(s: SeriesV) -> Seq<(u64, u16)> {
    match s {
        SeriesV::U16(p) => p,
        _ => Seq::empty(),
    }
}

pub open spec fn points_u32(s: SeriesV) -> Seq<(u64, u32)> {
    match s {
        SeriesV::U32(p) => p,
        _ => Seq::empty(),
    }
}

pub open spec fn points_u64(s: SeriesV) -> Seq<(u64, u64)> {
    match s {
        SeriesV::U64(p) => p,
        _ => Seq::empty(),
    }
}

pub open spec fn points_f32(s: SeriesV) -> Seq<(u64, u32)> {
    match s {
        SeriesV::F32(p) => p,
        _ => Seq::empty(),
    }
}

pub open spec fn points_f64(s: SeriesV) -> Seq<(u64, u64)> {
    match s {
        SeriesV::F64(p) => p,
        _ => Seq::empty(),
    }
}

/// Whether the points of `q` are those of `p`, as many times each, ordered by
/// time.
pub open spec fn time_sorted_permutation<T>(p: Seq<(u64, T)>, q: Seq<(u64, T)>) -> bool {
    &&& q.to_multiset() == p.to_multiset()
    &&& forall|i: int, j: int| 0 <= i <= j < q.len() ==> (#[trigger] q[i]).0 <= (#[trigger] q[j]).0
}

/// Whether `b` is `a` sorted by time: the same type and points, in time order.
pub open spec fn sorted_series(a: SeriesV, b: SeriesV) -> bool {
    match (a, b) {
        (SeriesV::Uninit, SeriesV::Uninit) => true,
        (SeriesV::Bool(p), SeriesV::Bool(q)) => time_sorted_permutation(p, q),
        (SeriesV::I8(p), SeriesV::I8(q)) => time_sorted_permutation(p, q),
        (SeriesV::I16(p), SeriesV::I16(q)) => time_sorted_permutation(p, q),
        (SeriesV::I32(p), SeriesV::I32(q)) => time_sorted_permutation(p, q),
        (SeriesV::I64(p), SeriesV::I64(q)) => time_sorted_permutation(p, q),
        (SeriesV::U8(p), SeriesV::U8(q)) => time_sorted_permutation(p, q),
        (SeriesV::U16(p), SeriesV::U16(q)) => time_sorted_permutation(p, q),
        (SeriesV::U32(p), SeriesV::U32(q)) => time_sorted_permutation(p, q),
        (SeriesV::U64(p), SeriesV::U64(q)) => time_sorted_permutation(p, q),
        (SeriesV::F32(p), SeriesV::F32(q)) => time_sorted_permutation(p, q),
        (SeriesV::F64(p), SeriesV::F64(q)) => time_sorted_permutation(p, q),
        _ => false,
    }
}

/// Whether the points of `b` can be added to the series `a`: one of them has
/// no points yet, or both hold values of the same type.
pub open spec fn compatible(a: SeriesV, b: SeriesV) -> bool {
    match (a, b) {
        (_, SeriesV::Uninit) => true,
        (SeriesV::Uninit, _) => true,
        (SeriesV::Bool(_), SeriesV::Bool(_)) => true,
        (SeriesV::I8(_), SeriesV::I8(_)) => true,
        (SeriesV::I16(_), SeriesV::I16(_)) => true,
        (SeriesV::I32(_), SeriesV::I32(_)) => true,
        (SeriesV::I64(_), SeriesV::I64(_)) => true,
        (SeriesV::U8(_), SeriesV::U8(_)) => true,
        (SeriesV::U16(_), SeriesV::U16(_)) => true,
        (SeriesV::U32(_), SeriesV::U32(_)) => true,
        (SeriesV::U64(_), SeriesV::U64(_)) => true,
        (SeriesV::F32(_), SeriesV::F32(_)) => true,
        (SeriesV::F64(_), SeriesV::F64(_)) => true,
        _ => false,
    }
}

/// The series `a` followed by the points of `b`.
pub open spec fn concat(a: SeriesV, b: SeriesV) -> SeriesV {
    match (a, b) {
        (_, SeriesV::Uninit) => a,
        (SeriesV::Uninit, SeriesV::Bool(q)) => SeriesV::Bool(q),
        (SeriesV::Uninit, SeriesV::I8(q)) => SeriesV::I8(q),
        (SeriesV::Uninit, SeriesV::I16(q)) => SeriesV::I16(q),
        (SeriesV::Uninit, SeriesV::I32(q)) => SeriesV::I32(q),
        (SeriesV::Uninit, SeriesV::I64(q)) => SeriesV::I64(q),
        (SeriesV::Uninit, SeriesV::U8(q)) => SeriesV::U8(q),
        (SeriesV::Uninit, SeriesV::U16(q)) => SeriesV::U16(q),
        (SeriesV::Uninit, SeriesV::U32(q)) => SeriesV::U32(q),
        (SeriesV::Uninit, SeriesV::U64(q)) => SeriesV::U64(q),
        (SeriesV::Uninit, SeriesV::F32(q)) => SeriesV::F32(q),
        (SeriesV::Uninit, SeriesV::F64(q)) => SeriesV::F64(q),
        (SeriesV::Bool(p), SeriesV::Bool(q)) => SeriesV::Bool(p + q),
        (SeriesV::I8(p), SeriesV::I8(q)) => SeriesV::I8(p + q),
        (SeriesV::I16(p), SeriesV::I16(q)) => SeriesV::I16(p + q),
        (SeriesV::I32(p), SeriesV::I32(q)) => SeriesV::I32(p + q),
        (SeriesV::I64(p), SeriesV::I64(q)) => SeriesV::I64(p + q),
        (SeriesV::U8(p), SeriesV::U8(q)) => SeriesV::U8(p + q),
        (SeriesV::U16(p), SeriesV::U16(q)) => SeriesV::U16(p + q),
        (SeriesV::U32(p), SeriesV::U32(q)) => SeriesV::U32(p + q),
        (SeriesV::U64(p), SeriesV::U64(q)) => SeriesV::U64(p + q),
        (SeriesV::F32(p), SeriesV::F32(q)) => SeriesV::F32(p + q),
        (SeriesV::F64(p), SeriesV::F64(q)) => SeriesV::F64(p + q),
        _ => a,
    }
}

/// `slice::sort_unstable_by_key` with the time as key: its documentation
/// promises the elements afterwards are those before, in ascending order of
/// key. Which of two points with the same time comes first is not stated.
#[verifier::external_body]
fn sort_by_time<T>(v: &mut Vec<(u64, T)>)
    ensures
        time_sorted_permutation(old(v)@, final(v)@),
{
    v.sort_unstable_by_key(|p| p.0)
}

impl TimeSeries {
    /// Whether the series has no points.
    pub fn is_empty(&self) -> (b: bool)
        ensures
            b == (series_len(self@) == 0),
    {
        match self {
            TimeSeries::Uninit => true,
            TimeSeries::Bool(v) => v.is_empty(),
            TimeSeries::I8(v) => v.is_empty(),
            TimeSeries::I16(v) => v.is_empty(),
            TimeSeries::I32(v) => v.is_empty(),
            TimeSeries::I64(v) => v.is_empty(),
            TimeSeries::U8(v) => v.is_empty(),
            TimeSeries::U16(v) => v.is_empty(),
            TimeSeries::U32(v) => v.is_empty(),
            TimeSeries::U64(v) => v.is_empty(),
            TimeSeries::F32(v) => v.is_empty(),
            TimeSeries::F64(v) => v.is_empty(),
        }
    }

    /// The number of points.
    pub fn len(&self) -> (n: usize)
        ensures
            n == series_len(self@),
    {
        match self {
            TimeSeries::Uninit => 0,
            TimeSeries::Bool(v) => v.len(),
            TimeSeries::I8(v) => v.len(),
            TimeSeries::I16(v) => v.len(),
            TimeSeries::I32(v) => v.len(),
            TimeSeries::I64(v) => v.len(),
            TimeSeries::U8(v) => v.len(),
            TimeSeries::U16(v) => v.len(),
            TimeSeries::U32(v) => v.len(),
            TimeSeries::U64(v) => v.len(),
            TimeSeries::F32(v) => v.len(),
            TimeSeries::F64(v) => v.len(),
        }
    }

    /// Orders the points by time; points with equal times may come in any order.
    pub fn sort_unstable(&mut self)
        ensures
            sorted_series(old(self)@, final(self)@),
    {
        match self {
            TimeSeries::Uninit => {},
            TimeSeries::Bool(v) => sort_by_time(v),
            TimeSeries::I8(v) => sort_by_time(v),
            TimeSeries::I16(v) => sort_by_time(v),
            TimeSeries::I32(v) => sort_by_time(v),
            TimeSeries::I64(v) => sort_by_time(v),
            TimeSeries::U8(v) => sort_by_time(v),
            TimeSeries::U16(v) => sort_by_time(v),
            TimeSeries::U32(v) => sort_by_time(v),
            TimeSeries::U64(v) => sort_by_time(v),
            TimeSeries::F32(v) => sort_by_time(v),
            TimeSeries::F64(v) => sort_by_time(v),
        }
    }

    /// Adds the points of `rhs` after those of this series.
    pub fn extend(&mut self, rhs: TimeSeries)
        requires
            compatible(old(self)@, rhs@),
        ensures
            final(self)@ == concat(old(self)@, rhs@),
    {
        match rhs {
            TimeSeries::Uninit => {},
            TimeSeries::Bool(mut v) => match self.as_mut_bool() {
                Some(dst) => dst.append(&mut v),
                None => {},
            },
            TimeSeries::I8(mut v) => match self.as_mut_i8() {
                Some(dst) => dst.append(&mut v),
                None => {},
            },
            TimeSeries::I16(mut v) => match self.as_mut_i16() {
                Some(dst) => dst.append(&mut v),
                None => {},
            },
            TimeSeries::I32(mut v) => match self.as_mut_i32() {
                Some(dst) => dst.append(&mut v),
                None => {},
            },
            TimeSeries::I64(mut v) => match self.as_mut_i64() {
                Some(dst) => dst.append(&mut v),
                None => {},
            },
            TimeSeries::U8(mut v) => match self.as_mut_u8() {
                Some(dst) => dst.append(&mut v),
                None => {},
            },
            TimeSeries::U16(mut v) => match self.as_mut_u16() {
                Some(dst) => dst.append(&mut v),
                None => {},
            },
            TimeSeries::U32(mut v) => match self.as_mut_u32() {
                Some(dst) => dst.append(&mut v),
                None => {},
            },
            TimeSeries::U64(mut v) => match self.as_mut_u64() {
                Some(dst) => dst.append(&mut v),
                None => {},
            },
            TimeSeries::F32(mut v) => match self.as_mut_f32() {
                Some(dst) => dst.append(&mut v),
                None => {},
            },
            TimeSeries::F64(mut v) => match self.as_mut_f64() {
                Some(dst) => dst.append(&mut v),
                None => {},
            },
        }
    }

    /// Appends the point `(time, value)`, where `value` is an `bool`; a series
    /// with no points yet becomes a series of that type.
    pub fn push_bool(&mut self, time: u64, value: bool)
        requires
            old(self)@ is Uninit || old(self)@ is Bool,
        ensures
            final(self)@ == SeriesV::Bool(points_bool(old(self)@).push((time, value))),
    {
        match self.as_mut_bool() {
            Some(v) => v.push((time, value)),
            None => {},
        }
    }

    /// The points, if this is a series of `bool` values.
    pub fn as_bool(&self) -> (r: Option<&Vec<(u64, bool)>>)
        ensures
            r is Some <==> self@ is Bool,
            r matches Some(v) ==> v@ == points_bool(self@),
    {
        match self {
            TimeSeries::Bool(v) => Some(v),
            _ => None,
        }
    }

    /// The points for change, if this is a series of `bool` values or has no
    /// points yet (it then becomes an empty series of `bool` values).
    pub fn as_mut_bool(&mut self) -> (r: Option<&mut Vec<(u64, bool)>>)
        ensures
            old(self)@ is Uninit || old(self)@ is Bool <==> r is Some,
            r is None ==> final(self)@ == old(self)@,
            r matches Some(v) ==> {
                &&& v@ == points_bool(old(self)@)
                &&& final(self)@ == SeriesV::Bool(final(v)@)
            },
    {
        match self {
            TimeSeries::Uninit => {
                *self = TimeSeries::Bool(Vec::new());
            },
            _ => {},
        }
        match self {
            TimeSeries::Bool(v) => Some(v),
            _ => None,
        }
    }

    /// Appends the point `(time, value)`, where `value` is an `i8`; a series
    /// with no points yet becomes a series of that type.
    pub fn push_i8(&mut self, time: u64, value: i8)
        requires
            old(self)@ is Uninit || old(self)@ is I8,
        ensures
            final(self)@ == SeriesV::I8(points_i8(old(self)@).push((time, value))),
    {
        match self.as_mut_i8() {
            Some(v) => v.push((time, value)),
            None => {},
        }
    }

    /// The points, if this is a series of `i8` values.
    pub fn as_i8(&self) -> (r: Option<&Vec<(u64, i8)>>)
        ensures
            r is Some <==> self@ is I8,
            r matches Some(v) ==> v@ == points_i8(self@),
    {
        match self {
            TimeSeries::I8(v) => Some(v),
            _ => None,
        }
    }

    /// The points for change, if this is a series of `i8` values or has no
    /// points yet (it then becomes an empty series of `i8` values).
    pub fn as_mut_i8(&mut self) -> (r: Option<&mut Vec<(u64, i8)>>)
        ensures
            old(self)@ is Uninit || old(self)@ is I8 <==> r is Some,
            r is None ==> final(self)@ == old(self)@,
            r matches Some(v) ==> {
                &&& v@ == points_i8(old(self)@)
                &&& final(self)@ == SeriesV::I8(final(v)@)
            },
    {
        match self {
            TimeSeries::Uninit => {
                *self = TimeSeries::I8(Vec::new());
            },
            _ => {},
        }
        match self {
            TimeSeries::I8(v) => Some(v),
            _ => None,
        }
    }

    /// Appends the point `(time, value)`, where `value` is an `i16`; a series
    /// with no points yet becomes a series of that type.
    pub fn push_i16(&mut self, time: u64, value: i16)
        requires
            old(self)@ is Uninit || old(self)@ is I16,
        ensures
            final(self)@ == SeriesV::I16(points_i16(old(self)@).push((time, value))),
    {
        match self.as_mut_i16() {
            Some(v) => v.push((time, value)),
            None => {},
        }
    }

    /// The points, if this is a series of `i16` values.
    pub fn as_i16(&self) -> (r: Option<&Vec<(u64, i16)>>)
        ensures
            r is Some <==> self@ is I16,
            r matches Some(v) ==> v@ == points_i16(self@),
    {
        match self {
            TimeSeries::I16(v) => Some(v),
            _ => None,
        }
    }

    /// The points for change, if this is a series of `i16` values or has no
    /// points yet (it then becomes an empty series of `i16` values).
    pub fn as_mut_i16(&mut self) -> (r: Option<&mut Vec<(u64, i16)>>)
        ensures
            old(self)@ is Uninit || old(self)@ is I16 <==> r is Some,
            r is None ==> final(self)@ == old(self)@,
            r matches Some(v) ==> {
                &&& v@ == points_i16(old(self)@)
                &&& final(self)@ == SeriesV::I16(final(v)@)
            },
    {
        match self {
            TimeSeries::Uninit => {
                *self = TimeSeries::I16(Vec::new());
            },
            _ => {},
        }
        match self {
            TimeSeries::I16(v) => Some(v),
            _ => None,
        }
    }

    /// Appends the point `(time, value)`, where `value` is an `i32`; a series
    /// with no points yet becomes a series of that type.
    pub fn push_i32(&mut self, time: u64, value: i32)
        requires
            old(self)@ is Uninit || old(self)@ is I32,
        ensures
            final(self)@ == SeriesV::I32(points_i32(old(self)@).push((time, value))),
    {
        match self.as_mut_i32() {
            Some(v) => v.push((time, value)),
            None => {},
        }
    }

    /// The points, if this is a series of `i32` values.
    pub fn as_i32(&self) -> (r: Option<&Vec<(u64, i32)>>)
        ensures
            r is Some <==> self@ is I32,
            r matches Some(v) ==> v@ == points_i32(self@),
    {
        match self {
            TimeSeries::I32(v) => Some(v),
            _ => None,
        }
    }

    /// The points for change, if this is a series of `i32` values or has no
    /// points yet (it then becomes an empty series of `i32` values).
    pub fn as_mut_i32(&mut self) -> (r: Option<&mut Vec<(u64, i32)>>)
        ensures
            old(self)@ is Uninit || old(self)@ is I32 <==> r is Some,
            r is None ==> final(self)@ == old(self)@,
            r matches Some(v) ==> {
                &&& v@ == points_i32(old(self)@)
                &&& final(self)@ == SeriesV::I32(final(v)@)
            },
    {
        match self {
            TimeSeries::Uninit => {
                *self = TimeSeries::I32(Vec::new());
            },
            _ => {},
        }
        match self {
            TimeSeries::I32(v) => Some(v),
            _ => None,
        }
    }

    /// Appends the point `(time, value)`, where `value` is an `i64`; a series
    /// with no points yet becomes a series of that type.
    pub fn push_i64(&mut self, time: u64, value: i64)
        requires
            old(self)@ is Uninit || old(self)@ is I64,
        ensures
            final(self)@ == SeriesV::I64(points_i64(old(self)@).push((time, value))),
    {
        match self.as_mut_i64() {
            Some(v) => v.push((time, value)),
            None => {},
        }
    }

    /// The points, if this is a series of `i64` values.
    pub fn as_i64(&self) -> (r: Option<&Vec<(u64, i64)>>)
        ensures
            r is Some <==> self@ is I64,
            r matches Some(v) ==> v@ == points_i64(self@),
    {
        match self {
            TimeSeries::I64(v) => Some(v),
            _ => None,
        }
    }

    /// The points for change, if this is a series of `i64` values or has no
    /// points yet (it then becomes an empty series of `i64` values).
    pub fn as_mut_i64(&mut self) -> (r: Option<&mut Vec<(u64, i64)>>)
        ensures
            old(self)@ is Uninit || old(self)@ is I64 <==> r is Some,
            r is None ==> final(self)@ == old(self)@,
            r matches Some(v) ==> {
                &&& v@ == points_i64(old(self)@)
                &&& final(self)@ == SeriesV::I64(final(v)@)
            },
    {
        match self {
            TimeSeries::Uninit => {
                *self = TimeSeries::I64(Vec::new());
            },
            _ => {},
        }
        match self {
            TimeSeries::I64(v) => Some(v),
            _ => None,
        }
    }

    /// Appends the point `(time, value)`, where `value` is an `u8`; a series
    /// with no points yet becomes a series of that type.
    pub fn push_u8(&mut self, time: u64, value: u8)
        requires
            old(self)@ is Uninit || old(self)@ is U8,
        ensures
            final(self)@ == SeriesV::U8(points_u8(old(self)@).push((time, value))),
    {
        match self.as_mut_u8() {
            Some(v) => v.push((time, value)),
            None => {},
        }
    }

    /// The points, if this is a series of `u8` values.
    pub fn as_u8(&self) -> (r: Option<&Vec<(u64, u8)>>)
        ensures
            r is Some <==> self@ is U8,
            r matches Some(v) ==> v@ == points_u8(self@),
    {
        match self {
            TimeSeries::U8(v) => Some(v),
            _ => None,
        }
    }

    /// The points for change, if this is a series of `u8` values or has no
    /// points yet (it then becomes an empty series of `u8` values).
    pub fn as_mut_u8(&mut self) -> (r: Option<&mut Vec<(u64, u8)>>)
        ensures
            old(self)@ is Uninit || old(self)@ is U8 <==> r is Some,
            r is None ==> final(self)@ == old(self)@,
            r matches Some(v) ==> {
                &&& v@ == points_u8(old(self)@)
                &&& final(self)@ == SeriesV::U8(final(v)@)
            },
    {
        match self {
            TimeSeries::Uninit => {
                *self = TimeSeries::U8(Vec::new());
            },
            _ => {},
        }
        match self {
            TimeSeries::U8(v) => Some(v),
            _ => None,
        }
    }

    /// Appends the point `(time, value)`, where `value` is an `u16`; a series
    /// with no points yet becomes a series of that type.
    pub fn push_u16(&mut self, time: u64, value: u16)
        requires
            old(self)@ is Uninit || old(self)@ is U16,
        ensures
            final(self)@ == SeriesV::U16(points_u16(old(self)@).push((time, value))),
    {
        match self.as_mut_u16() {
            Some(v) => v.push((time, value)),
            None => {},
        }
    }

    /// The points, if this is a series of `u16` values.
    pub fn as_u16(&self) -> (r: Option<&Vec<(u64, u16)>>)
        ensures
            r is Some <==> self@ is U16,
            r matches Some(v) ==> v@ == points_u16(self@),
    {
        match self {
            TimeSeries::U16(v) => Some(v),
            _ => None,
        }
    }

    /// The points for change, if this is a series of `u16` values or has no
    /// points yet (it then becomes an empty series of `u16` values).
    pub fn as_mut_u16(&mut self) -> (r: Option<&mut Vec<(u64, u16)>>)
        ensures
            old(self)@ is Uninit || old(self)@ is U16 <==> r is Some,
            r is None ==> final(self)@ == old(self)@,
            r matches Some(v) ==> {
                &&& v@ == points_u16(old(self)@)
                &&& final(self)@ == SeriesV::U16(final(v)@)
            },
    {
        match self {
            TimeSeries::Uninit => {
                *self = TimeSeries::U16(Vec::new());
            },
            _ => {},
        }
        match self {
            TimeSeries::U16(v) => Some(v),
            _ => None,
        }
    }

    /// Appends the point `(time, value)`, where `value` is an `u32`; a series
    /// with no points yet becomes a series of that type.
    pub fn push_u32(&mut self, time: u64, value: u32)
        requires
            old(self)@ is Uninit || old(self)@ is U32,
        ensures
            final(self)@ == SeriesV::U32(points_u32(old(self)@).push((time, value))),
    {
        match self.as_mut_u32() {
            Some(v) => v.push((time, value)),
            None => {},
        }
    }

    /// The points, if this is a series of `u32` values.
    pub fn as_u32(&self) -> (r: Option<&Vec<(u64, u32)>>)
        ensures
            r is Some <==> self@ is U32,
            r matches Some(v) ==> v@ == points_u32(self@),
    {
        match self {
            TimeSeries::U32(v) => Some(v),
            _ => None,
        }
    }

    /// The points for change, if this is a series of `u32` values or has no
    /// points yet (it then becomes an empty series of `u32` values).
    pub fn as_mut_u32(&mut self) -> (r: Option<&mut Vec<(u64, u32)>>)
        ensures
            old(self)@ is Uninit || old(self)@ is U32 <==> r is Some,
            r is None ==> final(self)@ == old(self)@,
            r matches Some(v) ==> {
                &&& v@ == points_u32(old(self)@)
                &&& final(self)@ == SeriesV::U32(final(v)@)
            },
    {
        match self {
            TimeSeries::Uninit => {
                *self = TimeSeries::U32(Vec::new());
            },
            _ => {},
        }
        match self {
            TimeSeries::U32(v) => Some(v),
            _ => None,
        }
    }

    /// Appends the point `(time, value)`, where `value` is an `u64`; a series
    /// with no points yet becomes a series of that type.
    pub fn push_u64(&mut self, time: u64, value: u64)
        requires
            old(self)@ is Uninit || old(self)@ is U64,
        ensures
            final(self)@ == SeriesV::U64(points_u64(old(self)@).push((time, value))),
    {
        match self.as_mut_u64() {
            Some(v) => v.push((time, value)),
            None => {},
        }
    }

    /// The points, if this is a series of `u64` values.
    pub fn as_u64(&self) -> (r: Option<&Vec<(u64, u64)>>)
        ensures
            r is Some <==> self@ is U64,
            r matches Some(v) ==> v@ == points_u64(self@),
    {
        match self {
            TimeSeries::U64(v) => Some(v),
            _ => None,
        }
    }

    /// The points for change, if this is a series of `u64` values or has no
    /// points yet (it then becomes an empty series of `u64` values).
    pub fn as_mut_u64(&mut self) -> (r: Option<&mut Vec<(u64, u64)>>)
        ensures
            old(self)@ is Uninit || old(self)@ is U64 <==> r is Some,
            r is None ==> final(self)@ == old(self)@,
            r matches Some(v) ==> {
                &&& v@ == points_u64(old(self)@)
                &&& final(self)@ == SeriesV::U64(final(v)@)
            },
    {
        match self {
            TimeSeries::Uninit => {
                *self = TimeSeries::U64(Vec::new());
            },
            _ => {},
        }
        match self {
            TimeSeries::U64(v) => Some(v),
            _ => None,
        }
    }

    /// Appends the point `(time, value)`, where `value` is the bit pattern of an `f32`; a series
    /// with no points yet becomes a series of that type.
    pub fn push_f32(&mut self, time: u64, value: u32)
        requires
            old(self)@ is Uninit || old(self)@ is F32,
        ensures
            final(self)@ == SeriesV::F32(points_f32(old(self)@).push((time, value))),
    {
        match self.as_mut_f32() {
            Some(v) => v.push((time, value)),
            None => {},
        }
    }

    /// The points, if this is a series of `f32` values.
    pub fn as_f32(&self) -> (r: Option<&Vec<(u64, u32)>>)
        ensures
            r is Some <==> self@ is F32,
            r matches Some(v) ==> v@ == points_f32(self@),
    {
        match self {
            TimeSeries::F32(v) => Some(v),
            _ => None,
        }
    }

    /// The points for change, if this is a series of `f32` values or has no
    /// points yet (it then becomes an empty series of `f32` values).
    pub fn as_mut_f32(&mut self) -> (r: Option<&mut Vec<(u64, u32)>>)
        ensures
            old(self)@ is Uninit || old(self)@ is F32 <==> r is Some,
            r is None ==> final(self)@ == old(self)@,
            r matches Some(v) ==> {
                &&& v@ == points_f32(old(self)@)
                &&& final(self)@ == SeriesV::F32(final(v)@)
            },
    {
        match self {
            TimeSeries::Uninit => {
                *self = TimeSeries::F32(Vec::new());
            },
            _ => {},
        }
        match self {
            TimeSeries::F32(v) => Some(v),
            _ => None,
        }
    }

    /// Appends the point `(time, value)`, where `value` is the bit pattern of an `f64`; a series
    /// with no points yet becomes a series of that type.
    pub fn push_f64(&mut self, time: u64, value: u64)
        requires
            old(self)@ is Uninit || old(self)@ is F64,
        ensures
            final(self)@ == SeriesV::F64(points_f64(old(self)@).push((time, value))),
    {
        match self.as_mut_f64() {
            Some(v) => v.push((time, value)),
            None => {},
        }
    }

    /// The points, if this is a series of `f64` values.
    pub fn as_f64(&self) -> (r: Option<&Vec<(u64, u64)>>)
        ensures
            r is Some <==> self@ is F64,
            r matches Some(v) ==> v@ == points_f64(self@),
    {
        match self {
            TimeSeries::F64(v) => Some(v),
            _ => None,
        }
    }

    /// The points for change, if this is a series of `f64` values or has no
    /// points yet (it then becomes an empty series of `f64` values).
    pub fn as_mut_f64(&mut self) -> (r: Option<&mut Vec<(u64, u64)>>)
        ensures
            old(self)@ is Uninit || old(self)@ is F64 <==> r is Some,
            r is None ==> final(self)@ == old(self)@,
            r matches Some(v) ==> {
                &&& v@ == points_f64(old(self)@)
                &&& final(self)@ == SeriesV::F64(final(v)@)
            },
    {
        match self {
            TimeSeries::Uninit => {
                *self = TimeSeries::F64(Vec::new());
            },
            _ => {},
        }
        match self {
            TimeSeries::F64(v) => Some(v),
            _ => None,
        }
    }
}

impl Default for TimeSeries {
    fn default() -> (s: TimeSeries)
        ensures
            s@ == SeriesV::Uninit,
    {
        TimeSeries::Uninit
    }
}

/// The series of a field in `m`, or a series with no points.
pub open spec fn series_or_empty(m: Map<Seq<char>, SeriesV>, field: Seq<char>) -> SeriesV {
    if m.contains_key(field) {
        m[field]
    } else {
        SeriesV::Uninit
    }
}

/// The series of every field of `a` followed by the points of the same field
/// in `b`; a field of only one of them keeps its series.
pub open spec fn merged_topic(a: Map<Seq<char>, SeriesV>, b: Map<Seq<char>, SeriesV>) -> Map<Seq<char>, SeriesV> {
    Map::new(
        |f: Seq<char>| a.contains_key(f) || b.contains_key(f),
        |f: Seq<char>| concat(series_or_empty(a, f), series_or_empty(b, f)),
    )
}

/// Whether every field of both `a` and `b` holds values of one type in both.
pub open spec fn mergeable_topic(a: Map<Seq<char>, SeriesV>, b: Map<Seq<char>, SeriesV>) -> bool {
    forall|f: Seq<char>| #[trigger] a.contains_key(f) && b.contains_key(f) ==> compatible(a[f], b[f])
}

/// The fields of a topic in `m`, or none.
pub open spec fn topic_or_empty(
    m: Map<Seq<char>, Map<Seq<char>, SeriesV>>,
    topic: Seq<char>,
) -> Map<Seq<char>, SeriesV> {
    if m.contains_key(topic) {
        m[topic]
    } else {
        Map::empty()
    }
}

/// Every topic of `a` or `b`, with its fields merged as [`merged_topic`] says.
pub open spec fn merged(
    a: Map<Seq<char>, Map<Seq<char>, SeriesV>>,
    b: Map<Seq<char>, Map<Seq<char>, SeriesV>>,
) -> Map<Seq<char>, Map<Seq<char>, SeriesV>> {
    Map::new(
        |t: Seq<char>| a.contains_key(t) || b.contains_key(t),
        |t: Seq<char>| merged_topic(topic_or_empty(a, t), topic_or_empty(b, t)),
    )
}

/// Whether every field of every topic of both `a` and `b` holds values of one
/// type in both.
pub open spec fn mergeable(
    a: Map<Seq<char>, Map<Seq<char>, SeriesV>>,
    b: Map<Seq<char>, Map<Seq<char>, SeriesV>>,
) -> bool {
    forall|t: Seq<char>| #[trigger] a.contains_key(t) && b.contains_key(t) ==> mergeable_topic(a[t], b[t])
}

/// Whether `b` is `a` with every series sorted by time.
pub open spec fn sorted_topic(a: Map<Seq<char>, SeriesV>, b: Map<Seq<char>, SeriesV>) -> bool {
    &&& b.dom() == a.dom()
    &&& forall|f: Seq<char>| #[trigger] a.contains_key(f) ==> sorted_series(a[f], b[f])
}

/// The series of a topic, by field name.
#[verifier::external_body]
#[derive(Debug)]
pub struct TopicStorage {
    map: HashMap<String, TimeSeries>,
}

/// What a [`TopicStorage`] holds: the series of each field.
pub uninterp spec fn topic_series(s: TopicStorage) -> Map<Seq<char>, SeriesV>;

impl TopicStorage {
    /// `HashMap::default`: a map with no entries.
    #[verifier::external_body]
    pub fn new() -> (storage: TopicStorage)
        ensures
            topic_series(storage) =~= Map::empty(),
    {
        TopicStorage { map: HashMap::default() }
    }

    /// `HashMap::get`: the series of `field`, if there is one.
    #[verifier::external_body]
    pub fn get(&self, field: &str) -> (r: Option<&TimeSeries>)
        ensures
            r is Some <==> topic_series(*self).contains_key(field@),
            r matches Some(s) ==> s@ == topic_series(*self)[field@],
    {
        self.map.get(field)
    }

    /// `HashMap::get_mut`: the series of `field` for change, if there is one;
    /// what is written through it is the new series of `field`.
    #[verifier::external_body]
    pub fn get_mut(&mut self, field: &str) -> (r: Option<&mut TimeSeries>)
        ensures
            r is Some <==> topic_series(*old(self)).contains_key(field@),
            r is None ==> topic_series(*final(self)) == topic_series(*old(self)),
            r matches Some(s) ==> {
                &&& s@ == topic_series(*old(self))[field@]
                &&& topic_series(*final(self)) == topic_series(*old(self)).insert(field@, final(s)@)
            },
    {
        self.map.get_mut(field)
    }

    /// `HashMap::contains_key`.
    #[verifier::external_body]
    pub fn contains_key(&self, field: &str) -> (b: bool)
        ensures
            b == topic_series(*self).contains_key(field@),
    {
        self.map.contains_key(field)
    }

    /// `HashMap::keys`, collected: every field name once, in the map's order,
    /// which is not stated.
    #[verifier::external_body]
    pub fn keys(&self) -> (r: Vec<String>)
        ensures
            forall|i: int| 0 <= i < r@.len() ==> topic_series(*self).contains_key(#[trigger] r@[i]@),
            forall|f: Seq<char>| #[trigger] topic_series(*self).contains_key(f) ==> exists|i: int| 0 <= i < r@.len() && r@[i]@ == f,
            forall|i: int, j: int| 0 <= i < j < r@.len() ==> (#[trigger] r@[i])@ != (#[trigger] r@[j])@,
    {
        self.map.keys().cloned().collect()
    }

    /// `HashMap::entry_ref(field).or_default()`: the series of `field` for
    /// change, added with no points where there was none.
    #[verifier::external_body]
    fn entry_or_default(&mut self, field: &str) -> (r: &mut TimeSeries)
        ensures
            r@ == series_or_empty(topic_series(*old(self)), field@),
            topic_series(*final(self)) == topic_series(*old(self)).insert(field@, final(r)@),
    {
        self.map.entry_ref(field).or_default()
    }

    /// `HashMap::into_iter`, collected: every entry once, in the map's order,
    /// which is not stated.
    #[verifier::external_body]
    fn into_entries(self) -> (r: Vec<(String, TimeSeries)>)
        ensures
            forall|i: int| 0 <= i < r@.len() ==> {
                &&& topic_series(self).contains_key(#[trigger] r@[i].0@)
                &&& topic_series(self)[r@[i].0@] == r@[i].1@
            },
            forall|f: Seq<char>| #[trigger] topic_series(self).contains_key(f) ==> exists|i: int| 0 <= i < r@.len() && r@[i].0@ == f,
            forall|i: int, j: int| 0 <= i < j < r@.len() ==> (#[trigger] r@[i]).0@ != (#[trigger] r@[j]).0@,
    {
        self.map.into_iter().collect()
    }
}

impl Default for TopicStorage {
    fn default() -> (s: TopicStorage)
        ensures
            topic_series(s) =~= Map::empty(),
    {
        TopicStorage::new()
    }
}

impl TopicStorage {
    /// Orders the points of every series by time.
    pub fn sort_unstable(&mut self)
        ensures
            sorted_topic(topic_series(*old(self)), topic_series(*final(self))),
    {
        let ghost start = topic_series(*self);
        let keys = self.keys();
        let mut i: usize = 0;
        while i < keys.len()
            invariant
                0 <= i <= keys@.len(),
                start == topic_series(*old(self)),
                forall|k: int| 0 <= k < keys@.len() ==> start.contains_key(#[trigger] keys@[k]@),
                forall|f: Seq<char>| #[trigger] start.contains_key(f) ==> exists|k: int| 0 <= k < keys@.len() && keys@[k]@ == f,
                forall|k: int, j: int| 0 <= k < j < keys@.len() ==> (#[trigger] keys@[k])@ != (#[trigger] keys@[j])@,
                topic_series(*self).dom() == start.dom(),
                forall|k: int| 0 <= k < i ==> sorted_series(start[#[trigger] keys@[k]@], topic_series(*self)[keys@[k]@]),
                forall|k: int| i <= k < keys@.len() ==> topic_series(*self)[#[trigger] keys@[k]@] == start[keys@[k]@],
            decreases keys@.len() - i,
        {
            match self.get_mut(keys[i].as_str()) {
                Some(s) => s.sort_unstable(),
                None => {},
            }
            i += 1;
        }
        assert forall|f: Seq<char>| #[trigger] start.contains_key(f) implies sorted_series(start[f], topic_series(*self)[f]) by {
            let k = choose|k: int| 0 <= k < keys@.len() && keys@[k]@ == f;
            assert(sorted_series(start[keys@[k]@], topic_series(*self)[keys@[k]@]));
        }
    }
}

impl TopicStorage {
    /// Adds the points of every series of `rhs` after those of the same field.
    fn absorb(&mut self, rhs: TopicStorage)
        requires
            mergeable_topic(topic_series(*old(self)), topic_series(rhs)),
        ensures
            topic_series(*final(self)) == merged_topic(topic_series(*old(self)), topic_series(rhs)),
    {
        let ghost whole = merged_topic(topic_series(*self), topic_series(rhs));
        let ghost mut rest = topic_series(rhs);
        let mut entries = rhs.into_entries();
        while entries.len() > 0
            invariant
                forall|k: int| 0 <= k < entries@.len() ==> {
                    &&& rest.contains_key(#[trigger] entries@[k].0@)
                    &&& rest[entries@[k].0@] == entries@[k].1@
                },
                forall|f: Seq<char>| #[trigger] rest.contains_key(f) ==> exists|k: int| 0 <= k < entries@.len() && entries@[k].0@ == f,
                forall|k: int, j: int| 0 <= k < j < entries@.len() ==> (#[trigger] entries@[k]).0@ != (#[trigger] entries@[j]).0@,
                mergeable_topic(topic_series(*self), rest),
                merged_topic(topic_series(*self), rest) == whole,
            decreases entries@.len(),
        {
            let ghost cur = topic_series(*self);
            let ghost before = entries@;
            let (field, series) = match entries.pop() {
                Some(e) => e,
                None => {
                    assert(false);
                    return;
                },
            };
            let ghost key = field@;
            let ghost last = before.len() - 1;
            assert(before[last].0@ == key);
            let dst = self.entry_or_default(field.as_str());
            dst.extend(series);
            proof {
                let next = rest.remove(key);
                let cur2 = topic_series(*self);
                assert(cur2 == cur.insert(key, concat(series_or_empty(cur, key), rest[key])));
                assert forall|f: Seq<char>| #[trigger] next.contains_key(f) implies exists|k: int| 0 <= k < entries@.len() && entries@[k].0@ == f by {
                    let k = choose|k: int| 0 <= k < before.len() && before[k].0@ == f;
                    assert(k != last);
                    assert(entries@[k] == before[k]);
                }
                assert forall|k: int| 0 <= k < entries@.len() implies {
                    &&& next.contains_key(#[trigger] entries@[k].0@)
                    &&& next[entries@[k].0@] == entries@[k].1@
                } by {
                    assert(entries@[k] == before[k]);
                    assert(before[k].0@ != before[last].0@);
                }
                assert(merged_topic(cur2, next) =~= merged_topic(cur, rest));
                rest = next;
            }
        }
        assert(merged_topic(topic_series(*self), rest) =~= topic_series(*self));
    }
}

/// The series of every topic, by topic name.
#[verifier::external_body]
#[derive(Debug)]
pub struct DataStorage {
    map: HashMap<String, TopicStorage>,
}

/// What a [`DataStorage`] holds: the series of each field of each topic.
pub uninterp spec fn storage_topics(s: DataStorage) -> Map<Seq<char>, Map<Seq<char>, SeriesV>>;

impl DataStorage {
    /// `HashMap::default`: a map with no entries.
    #[verifier::external_body]
    pub fn new() -> (storage: DataStorage)
        ensures
            storage_topics(storage) =~= Map::empty(),
    {
        DataStorage { map: HashMap::default() }
    }

    /// `HashMap::get`: the storage of `topic`, if there is one.
    #[verifier::external_body]
    pub fn get(&self, topic: &str) -> (r: Option<&TopicStorage>)
        ensures
            r is Some <==> storage_topics(*self).contains_key(topic@),
            r matches Some(t) ==> topic_series(*t) == storage_topics(*self)[topic@],
    {
        self.map.get(topic)
    }

    /// `HashMap::get_mut`: the storage of `topic` for change, if there is one;
    /// what is written through it is the new storage of `topic`.
    #[verifier::external_body]
    pub fn get_mut(&mut self, topic: &str) -> (r: Option<&mut TopicStorage>)
        ensures
            r is Some <==> storage_topics(*old(self)).contains_key(topic@),
            r is None ==> storage_topics(*final(self)) == storage_topics(*old(self)),
            r matches Some(t) ==> {
                &&& topic_series(*t) == storage_topics(*old(self))[topic@]
                &&& storage_topics(*final(self)) == storage_topics(*old(self)).insert(topic@, topic_series(*final(t)))
            },
    {
        self.map.get_mut(topic)
    }

    /// `HashMap::contains_key`.
    #[verifier::external_body]
    pub fn contains_key(&self, topic: &str) -> (b: bool)
        ensures
            b == storage_topics(*self).contains_key(topic@),
    {
        self.map.contains_key(topic)
    }

    /// `HashMap::keys`, collected: every topic name once, in the map's order,
    /// which is not stated.
    #[verifier::external_body]
    pub fn keys(&self) -> (r: Vec<String>)
        ensures
            forall|i: int| 0 <= i < r@.len() ==> storage_topics(*self).contains_key(#[trigger] r@[i]@),
            forall|t: Seq<char>| #[trigger] storage_topics(*self).contains_key(t) ==> exists|i: int| 0 <= i < r@.len() && r@[i]@ == t,
            forall|i: int, j: int| 0 <= i < j < r@.len() ==> (#[trigger] r@[i])@ != (#[trigger] r@[j])@,
    {
        self.map.keys().cloned().collect()
    }

    /// `HashMap::entry_ref(topic).or_default()`: the storage of `topic` for
    /// change, added with no fields where there was none.
    #[verifier::external_body]
    fn entry_or_default(&mut self, topic: &str) -> (r: &mut TopicStorage)
        ensures
            topic_series(*r) == topic_or_empty(storage_topics(*old(self)), topic@),
            storage_topics(*final(self)) == storage_topics(*old(self)).insert(topic@, topic_series(*final(r))),
    {
        self.map.entry_ref(topic).or_default()
    }

    /// `HashMap::into_iter`, collected: every entry once, in the map's order,
    /// which is not stated.
    #[verifier::external_body]
    fn into_entries(self) -> (r: Vec<(String, TopicStorage)>)
        ensures
            forall|i: int| 0 <= i < r@.len() ==> {
                &&& storage_topics(self).contains_key(#[trigger] r@[i].0@)
                &&& storage_topics(self)[r@[i].0@] == topic_series(r@[i].1)
            },
            forall|t: Seq<char>| #[trigger] storage_topics(self).contains_key(t) ==> exists|i: int| 0 <= i < r@.len() && r@[i].0@ == t,
            forall|i: int, j: int| 0 <= i < j < r@.len() ==> (#[trigger] r@[i]).0@ != (#[trigger] r@[j]).0@,
    {
        self.map.into_iter().collect()
    }
}

impl Default for DataStorage {
    fn default() -> (s: DataStorage)
        ensures
            storage_topics(s) =~= Map::empty(),
    {
        DataStorage::new()
    }
}

impl DataStorage {
    /// A visitor that records values into the storage of `topic` (added with
    /// no fields where there was none) at `timestamp`.
    pub fn new_visitor(&mut self, topic: &str, timestamp: u64) -> (v: Visitor<'_>)
        ensures
            topic_series(*v.storage) == topic_or_empty(storage_topics(*old(self)), topic@),
            v.timestamp == timestamp,
            storage_topics(*final(self)) == storage_topics(*old(self)).insert(topic@, topic_series(*final(v.storage))),
    {
        let storage = self.entry_or_default(topic);
        Visitor { storage, timestamp }
    }

    /// Adds every series of `rhs` after the series of the same field of the
    /// same topic; topics and fields of `rhs` alone are added as they are.
    pub fn merge(&mut self, rhs: DataStorage)
        requires
            mergeable(storage_topics(*old(self)), storage_topics(rhs)),
        ensures
            storage_topics(*final(self)) == merged(storage_topics(*old(self)), storage_topics(rhs)),
    {
        let ghost whole = merged(storage_topics(*self), storage_topics(rhs));
        let ghost mut rest = storage_topics(rhs);
        let mut entries = rhs.into_entries();
        while entries.len() > 0
            invariant
                forall|k: int| 0 <= k < entries@.len() ==> {
                    &&& rest.contains_key(#[trigger] entries@[k].0@)
                    &&& rest[entries@[k].0@] == topic_series(entries@[k].1)
                },
                forall|t: Seq<char>| #[trigger] rest.contains_key(t) ==> exists|k: int| 0 <= k < entries@.len() && entries@[k].0@ == t,
                forall|k: int, j: int| 0 <= k < j < entries@.len() ==> (#[trigger] entries@[k]).0@ != (#[trigger] entries@[j]).0@,
                mergeable(storage_topics(*self), rest),
                merged(storage_topics(*self), rest) == whole,
            decreases entries@.len(),
        {
            let ghost cur = storage_topics(*self);
            let ghost before = entries@;
            let (topic, topic_storage) = match entries.pop() {
                Some(e) => e,
                None => {
                    assert(false);
                    return;
                },
            };
            let ghost key = topic@;
            let ghost last = before.len() - 1;
            assert(before[last].0@ == key);
            let dst = self.entry_or_default(topic.as_str());
            dst.absorb(topic_storage);
            proof {
                let next = rest.remove(key);
                let cur2 = storage_topics(*self);
                assert(cur2 == cur.insert(key, merged_topic(topic_or_empty(cur, key), rest[key])));
                assert forall|t: Seq<char>| #[trigger] next.contains_key(t) implies exists|k: int| 0 <= k < entries@.len() && entries@[k].0@ == t by {
                    let k = choose|k: int| 0 <= k < before.len() && before[k].0@ == t;
                    assert(k != last);
                    assert(entries@[k] == before[k]);
                }
                assert forall|k: int| 0 <= k < entries@.len() implies {
                    &&& next.contains_key(#[trigger] entries@[k].0@)
                    &&& next[entries@[k].0@] == topic_series(entries@[k].1)
                } by {
                    assert(entries@[k] == before[k]);
                    assert(before[k].0@ != before[last].0@);
                }
                assert(merged_topic(cur2[key], Map::empty()) =~= cur2[key]);
                assert(merged(cur2, next) =~= merged(cur, rest));
                rest = next;
            }
        }
        let ghost fin = storage_topics(*self);
        assert forall|t: Seq<char>| #[trigger] fin.contains_key(t) implies merged_topic(topic_or_empty(fin, t), topic_or_empty(rest, t)) == fin[t] by {
            assert(merged_topic(fin[t], Map::empty()) =~= fin[t]);
        }
        assert(merged(fin, rest) =~= fin);
    }

    /// Orders the points of every series of every topic by time.
    pub fn sort_unstable(&mut self)
        ensures
            storage_topics(*final(self)).dom() == storage_topics(*old(self)).dom(),
            forall|t: Seq<char>| #[trigger] storage_topics(*old(self)).contains_key(t)
                ==> sorted_topic(storage_topics(*old(self))[t], storage_topics(*final(self))[t]),
    {
        let ghost start = storage_topics(*self);
        let keys = self.keys();
        let mut i: usize = 0;
        while i < keys.len()
            invariant
                0 <= i <= keys@.len(),
                start == storage_topics(*old(self)),
                forall|k: int| 0 <= k < keys@.len() ==> start.contains_key(#[trigger] keys@[k]@),
                forall|t: Seq<char>| #[trigger] start.contains_key(t) ==> exists|k: int| 0 <= k < keys@.len() && keys@[k]@ == t,
                forall|k: int, j: int| 0 <= k < j < keys@.len() ==> (#[trigger] keys@[k])@ != (#[trigger] keys@[j])@,
                storage_topics(*self).dom() == start.dom(),
                forall|k: int| 0 <= k < i ==> sorted_topic(start[#[trigger] keys@[k]@], storage_topics(*self)[keys@[k]@]),
                forall|k: int| i <= k < keys@.len() ==> storage_topics(*self)[#[trigger] keys@[k]@] == start[keys@[k]@],
            decreases keys@.len() - i,
        {
            match self.get_mut(keys[i].as_str()) {
                Some(t) => t.sort_unstable(),
                None => {},
            }
            i += 1;
        }
        assert forall|t: Seq<char>| #[trigger] start.contains_key(t) implies sorted_topic(start[t], storage_topics(*self)[t]) by {
            let k = choose|k: int| 0 <= k < keys@.len() && keys@[k]@ == t;
            assert(sorted_topic(start[keys@[k]@], storage_topics(*self)[keys@[k]@]));
        }
    }

    /// The series of `field` of `topic`, if there is one.
    pub fn get_field(&self, topic: &str, field: &str) -> (r: Option<&TimeSeries>)
        ensures
            r is Some <==> storage_topics(*self).contains_key(topic@) && storage_topics(*self)[topic@].contains_key(field@),
            r matches Some(s) ==> s@ == storage_topics(*self)[topic@][field@],
    {
        self.get(topic)?.get(field)
    }
}

/// Records the values of one decoded message of a topic, each in the series of
/// its field, at the message's timestamp.
pub struct Visitor<'a> {
    pub storage: &'a mut TopicStorage,
    pub timestamp: u64,
}

impl<'a> Visitor<'a> {
    /// Records a `bool` value of `field` at the visitor's timestamp.
    pub fn visit_bool(&mut self, field: &str, value: bool)
        requires
            series_or_empty(topic_series(*old(self).storage), field@) is Uninit
                || series_or_empty(topic_series(*old(self).storage), field@) is Bool,
        ensures
            final(self).timestamp == old(self).timestamp,
            topic_series(*final(self).storage) == topic_series(*old(self).storage).insert(
                field@,
                SeriesV::Bool(points_bool(series_or_empty(topic_series(*old(self).storage), field@)).push((old(self).timestamp, value))),
            ),
    {
        let time = self.timestamp;
        self.storage.entry_or_default(field).push_bool(time, value);
    }

    /// Records an `i8` value of `field` at the visitor's timestamp.
    pub fn visit_i8(&mut self, field: &str, value: i8)
        requires
            series_or_empty(topic_series(*old(self).storage), field@) is Uninit
                || series_or_empty(topic_series(*old(self).storage), field@) is I8,
        ensures
            final(self).timestamp == old(self).timestamp,
            topic_series(*final(self).storage) == topic_series(*old(self).storage).insert(
                field@,
                SeriesV::I8(points_i8(series_or_empty(topic_series(*old(self).storage), field@)).push((old(self).timestamp, value))),
            ),
    {
        let time = self.timestamp;
        self.storage.entry_or_default(field).push_i8(time, value);
    }

    /// Records an `i16` value of `field` at the visitor's timestamp.
    pub fn visit_i16(&mut self, field: &str, value: i16)
        requires
            series_or_empty(topic_series(*old(self).storage), field@) is Uninit
                || series_or_empty(topic_series(*old(self).storage), field@) is I16,
        ensures
            final(self).timestamp == old(self).timestamp,
            topic_series(*final(self).storage) == topic_series(*old(self).storage).insert(
                field@,
                SeriesV::I16(points_i16(series_or_empty(topic_series(*old(self).storage), field@)).push((old(self).timestamp, value))),
            ),
    {
        let time = self.timestamp;
        self.storage.entry_or_default(field).push_i16(time, value);
    }

    /// Records an `i32` value of `field` at the visitor's timestamp.
    pub fn visit_i32(&mut self, field: &str, value: i32)
        requires
            series_or_empty(topic_series(*old(self).storage), field@) is Uninit
                || series_or_empty(topic_series(*old(self).storage), field@) is I32,
        ensures
            final(self).timestamp == old(self).timestamp,
            topic_series(*final(self).storage) == topic_series(*old(self).storage).insert(
                field@,
                SeriesV::I32(points_i32(series_or_empty(topic_series(*old(self).storage), field@)).push((old(self).timestamp, value))),
            ),
    {
        let time = self.timestamp;
        self.storage.entry_or_default(field).push_i32(time, value);
    }

    /// Records an `i64` value of `field` at the visitor's timestamp.
    pub fn visit_i64(&mut self, field: &str, value: i64)
        requires
            series_or_empty(topic_series(*old(self).storage), field@) is Uninit
                || series_or_empty(topic_series(*old(self).storage), field@) is I64,
        ensures
            final(self).timestamp == old(self).timestamp,
            topic_series(*final(self).storage) == topic_series(*old(self).storage).insert(
                field@,
                SeriesV::I64(points_i64(series_or_empty(topic_series(*old(self).storage), field@)).push((old(self).timestamp, value))),
            ),
    {
        let time = self.timestamp;
        self.storage.entry_or_default(field).push_i64(time, value);
    }

    /// Records a `u8` value of `field` at the visitor's timestamp.
    pub fn visit_u8(&mut self, field: &str, value: u8)
        requires
            series_or_empty(topic_series(*old(self).storage), field@) is Uninit
                || series_or_empty(topic_series(*old(self).storage), field@) is U8,
        ensures
            final(self).timestamp == old(self).timestamp,
            topic_series(*final(self).storage) == topic_series(*old(self).storage).insert(
                field@,
                SeriesV::U8(points_u8(series_or_empty(topic_series(*old(self).storage), field@)).push((old(self).timestamp, value))),
            ),
    {
        let time = self.timestamp;
        self.storage.entry_or_default(field).push_u8(time, value);
    }

    /// Records a `u16` value of `field` at the visitor's timestamp.
    pub fn visit_u16(&mut self, field: &str, value: u16)
        requires
            series_or_empty(topic_series(*old(self).storage), field@) is Uninit
                || series_or_empty(topic_series(*old(self).storage), field@) is U16,
        ensures
            final(self).timestamp == old(self).timestamp,
            topic_series(*final(self).storage) == topic_series(*old(self).storage).insert(
                field@,
                SeriesV::U16(points_u16(series_or_empty(topic_series(*old(self).storage), field@)).push((old(self).timestamp, value))),
            ),
    {
        let time = self.timestamp;
        self.storage.entry_or_default(field).push_u16(time, value);
    }

    /// Records a `u32` value of `field` at the visitor's timestamp.
    pub fn visit_u32(&mut self, field: &str, value: u32)
        requires
            series_or_empty(topic_series(*old(self).storage), field@) is Uninit
                || series_or_empty(topic_series(*old(self).storage), field@) is U32,
        ensures
            final(self).timestamp == old(self).timestamp,
            topic_series(*final(self).storage) == topic_series(*old(self).storage).insert(
                field@,
                SeriesV::U32(points_u32(series_or_empty(topic_series(*old(self).storage), field@)).push((old(self).timestamp, value))),
            ),
    {
        let time = self.timestamp;
        self.storage.entry_or_default(field).push_u32(time, value);
    }

    /// Records a `u64` value of `field` at the visitor's timestamp.
    pub fn visit_u64(&mut self, field: &str, value: u64)
        requires
            series_or_empty(topic_series(*old(self).storage), field@) is Uninit
                || series_or_empty(topic_series(*old(self).storage), field@) is U64,
        ensures
            final(self).timestamp == old(self).timestamp,
            topic_series(*final(self).storage) == topic_series(*old(self).storage).insert(
                field@,
                SeriesV::U64(points_u64(series_or_empty(topic_series(*old(self).storage), field@)).push((old(self).timestamp, value))),
            ),
    {
        let time = self.timestamp;
        self.storage.entry_or_default(field).push_u64(time, value);
    }

    /// Records the bit pattern of an `f32` value of `field` at the visitor's timestamp.
    pub fn visit_f32_bits(&mut self, field: &str, value: u32)
        requires
            series_or_empty(topic_series(*old(self).storage), field@) is Uninit
                || series_or_empty(topic_series(*old(self).storage), field@) is F32,
        ensures
            final(self).timestamp == old(self).timestamp,
            topic_series(*final(self).storage) == topic_series(*old(self).storage).insert(
                field@,
                SeriesV::F32(points_f32(series_or_empty(topic_series(*old(self).storage), field@)).push((old(self).timestamp, value))),
            ),
    {
        let time = self.timestamp;
        self.storage.entry_or_default(field).push_f32(time, value);
    }

    /// Records the bit pattern of an `f64` value of `field` at the visitor's timestamp.
    pub fn visit_f64_bits(&mut self, field: &str, value: u64)
        requires
            series_or_empty(topic_series(*old(self).storage), field@) is Uninit
                || series_or_empty(topic_series(*old(self).storage), field@) is F64,
        ensures
            final(self).timestamp == old(self).timestamp,
            topic_series(*final(self).storage) == topic_series(*old(self).storage).insert(
                field@,
                SeriesV::F64(points_f64(series_or_empty(topic_series(*old(self).storage), field@)).push((old(self).timestamp, value))),
            ),
    {
        let time = self.timestamp;
        self.storage.entry_or_default(field).push_f64(time, value);
    }
}

/// Whether `x` and `y` are series of the same type holding the same points,
/// each as many times, in any order.
pub open spec fn same_points(x: SeriesV, y: SeriesV) -> bool {
    match (x, y) {
        (SeriesV::Uninit, SeriesV::Uninit) => true,
        (SeriesV::Bool(p), SeriesV::Bool(q)) => p.to_multiset() == q.to_multiset(),
        (SeriesV::I8(p), SeriesV::I8(q)) => p.to_multiset() == q.to_multiset(),
        (SeriesV::I16(p), SeriesV::I16(q)) => p.to_multiset() == q.to_multiset(),
        (SeriesV::I32(p), SeriesV::I32(q)) => p.to_multiset() == q.to_multiset(),
        (SeriesV::I64(p), SeriesV::I64(q)) => p.to_multiset() == q.to_multiset(),
        (SeriesV::U8(p), SeriesV::U8(q)) => p.to_multiset() == q.to_multiset(),
        (SeriesV::U16(p), SeriesV::U16(q)) => p.to_multiset() == q.to_multiset(),
        (SeriesV::U32(p), SeriesV::U32(q)) => p.to_multiset() == q.to_multiset(),
        (SeriesV::U64(p), SeriesV::U64(q)) => p.to_multiset() == q.to_multiset(),
        (SeriesV::F32(p), SeriesV::F32(q)) => p.to_multiset() == q.to_multiset(),
        (SeriesV::F64(p), SeriesV::F64(q)) => p.to_multiset() == q.to_multiset(),

        _ => false,
    }
}

/// Merging is symmetric but for the order of points: merging `b` into `a`
/// gives the same topics and fields as merging `a` into `b`, and each field the
/// same points. So after sorting, data split into parts and merged back gives
/// every series the same points whatever order the parts came in.
pub proof fn law_merge_symmetric(
    a: Map<Seq<char>, Map<Seq<char>, SeriesV>>,
    b: Map<Seq<char>, Map<Seq<char>, SeriesV>>,
)
    requires
        mergeable(a, b),
    ensures
        merged(a, b).dom() == merged(b, a).dom(),
        forall|t: Seq<char>| #[trigger] merged(a, b).contains_key(t) ==> {
            &&& merged(a, b)[t].dom() == merged(b, a)[t].dom()
            &&& forall|f: Seq<char>| #[trigger] merged(a, b)[t].contains_key(f)
                ==> same_points(merged(a, b)[t][f], merged(b, a)[t][f])
        },
{
    broadcast use vstd::seq_lib::lemma_seq_union_to_multiset_commutative;
    assert(merged(a, b).dom() =~= merged(b, a).dom());
    assert forall|t: Seq<char>| #[trigger] merged(a, b).contains_key(t) implies {
        &&& merged(a, b)[t].dom() == merged(b, a)[t].dom()
        &&& forall|f: Seq<char>| #[trigger] merged(a, b)[t].contains_key(f)
            ==> same_points(merged(a, b)[t][f], merged(b, a)[t][f])
    } by {
        let x = topic_or_empty(a, t);
        let y = topic_or_empty(b, t);
        assert(merged(a, b)[t].dom() =~= merged(b, a)[t].dom());
        assert forall|f: Seq<char>| #[trigger] merged(a, b)[t].contains_key(f)
            implies same_points(merged(a, b)[t][f], merged(b, a)[t][f]) by {
            let p = series_or_empty(x, f);
            let q = series_or_empty(y, f);
            if x.contains_key(f) && y.contains_key(f) {
                assert(compatible(x[f], y[f]));
            }
            assert(compatible(p, q));
        }
    }
}

impl TimeSeries {
    /// Whether the points of `other` can be added to this series.
    pub fn compatible_with(&self, other: &TimeSeries) -> (b: bool)
        ensures
            b == compatible(self@, other@),
    {
        match (self, other) {
            (_, TimeSeries::Uninit) => true,
            (TimeSeries::Uninit, _) => true,
            (TimeSeries::Bool(_), TimeSeries::Bool(_)) => true,
            (TimeSeries::I8(_), TimeSeries::I8(_)) => true,
            (TimeSeries::I16(_), TimeSeries::I16(_)) => true,
            (TimeSeries::I32(_), TimeSeries::I32(_)) => true,
            (TimeSeries::I64(_), TimeSeries::I64(_)) => true,
            (TimeSeries::U8(_), TimeSeries::U8(_)) => true,
            (TimeSeries::U16(_), TimeSeries::U16(_)) => true,
            (TimeSeries::U32(_), TimeSeries::U32(_)) => true,
            (TimeSeries::U64(_), TimeSeries::U64(_)) => true,
            (TimeSeries::F32(_), TimeSeries::F32(_)) => true,
            (TimeSeries::F64(_), TimeSeries::F64(_)) => true,

            _ => false,
        }
    }
}

impl TopicStorage {
    /// Whether every field of both this storage and `rhs` holds values of one
    /// type in both, so that [`TopicStorage`]'s series can take those of `rhs`.
    fn can_absorb(&self, rhs: &TopicStorage) -> (b: bool)
        ensures
            b == mergeable_topic(topic_series(*self), topic_series(*rhs)),
    {
        let keys = rhs.keys();
        let mut i: usize = 0;
        while i < keys.len()
            invariant
                0 <= i <= keys@.len(),
                forall|k: int| 0 <= k < keys@.len() ==> topic_series(*rhs).contains_key(#[trigger] keys@[k]@),
                forall|f: Seq<char>| #[trigger] topic_series(*rhs).contains_key(f) ==> exists|k: int| 0 <= k < keys@.len() && keys@[k]@ == f,
                forall|k: int| 0 <= k < i ==> {
                    let f = #[trigger] keys@[k]@;
                    topic_series(*self).contains_key(f) ==> compatible(topic_series(*self)[f], topic_series(*rhs)[f])
                },
            decreases keys@.len() - i,
        {
            match (self.get(keys[i].as_str()), rhs.get(keys[i].as_str())) {
                (Some(a), Some(b)) => {
                    if !a.compatible_with(b) {
                        return false;
                    }
                },
                _ => {},
            }
            i += 1;
        }
        assert forall|f: Seq<char>| #[trigger] topic_series(*self).contains_key(f) && topic_series(*rhs).contains_key(f)
            implies compatible(topic_series(*self)[f], topic_series(*rhs)[f]) by {
            let k = choose|k: int| 0 <= k < keys@.len() && keys@[k]@ == f;
            assert(keys@[k]@ == f);
        }
        true
    }
}

impl DataStorage {
    /// Whether [`DataStorage::merge`] can take `rhs`: every field of every topic
    /// of both holds values of one type in both.
    pub fn can_merge(&self, rhs: &DataStorage) -> (b: bool)
        ensures
            b == mergeable(storage_topics(*self), storage_topics(*rhs)),
    {
        let keys = rhs.keys();
        let mut i: usize = 0;
        while i < keys.len()
            invariant
                0 <= i <= keys@.len(),
                forall|k: int| 0 <= k < keys@.len() ==> storage_topics(*rhs).contains_key(#[trigger] keys@[k]@),
                forall|t: Seq<char>| #[trigger] storage_topics(*rhs).contains_key(t) ==> exists|k: int| 0 <= k < keys@.len() && keys@[k]@ == t,
                forall|k: int| 0 <= k < i ==> {
                    let t = #[trigger] keys@[k]@;
                    storage_topics(*self).contains_key(t) ==> mergeable_topic(storage_topics(*self)[t], storage_topics(*rhs)[t])
                },
            decreases keys@.len() - i,
        {
            match (self.get(keys[i].as_str()), rhs.get(keys[i].as_str())) {
                (Some(a), Some(b)) => {
                    if !a.can_absorb(b) {
                        return false;
                    }
                },
                _ => {},
            }
            i += 1;
        }
        assert forall|t: Seq<char>| #[trigger] storage_topics(*self).contains_key(t) && storage_topics(*rhs).contains_key(t)
            implies mergeable_topic(storage_topics(*self)[t], storage_topics(*rhs)[t]) by {
            let k = choose|k: int| 0 <= k < keys@.len() && keys@[k]@ == t;
            assert(keys@[k]@ == t);
        }
        true
    }
}

/// The series `s` with the decoded value `v` added at time `t`, where its type
/// fits; a string leaves the series as it is (strings are not plotted).
pub open spec fn push_value(s: SeriesV, t: u64, v: ValueV) -> Option<SeriesV> {
    match v {
        ValueV::Bool(x) => if s is Uninit || s is Bool {
            Some(SeriesV::Bool(points_bool(s).push((t, x))))
        } else {
            None
        },
        ValueV::I8(x) => if s is Uninit || s is I8 {
            Some(SeriesV::I8(points_i8(s).push((t, x))))
        } else {
            None
        },
        ValueV::I16(x) => if s is Uninit || s is I16 {
            Some(SeriesV::I16(points_i16(s).push((t, x))))
        } else {
            None
        },
        ValueV::I32(x) => if s is Uninit || s is I32 {
            Some(SeriesV::I32(points_i32(s).push((t, x))))
        } else {
            None
        },
        ValueV::I64(x) => if s is Uninit || s is I64 {
            Some(SeriesV::I64(points_i64(s).push((t, x))))
        } else {
            None
        },
        ValueV::U8(x) => if s is Uninit || s is U8 {
            Some(SeriesV::U8(points_u8(s).push((t, x))))
        } else {
            None
        },
        ValueV::U16(x) => if s is Uninit || s is U16 {
            Some(SeriesV::U16(points_u16(s).push((t, x))))
        } else {
            None
        },
        ValueV::U32(x) => if s is Uninit || s is U32 {
            Some(SeriesV::U32(points_u32(s).push((t, x))))
        } else {
            None
        },
        ValueV::U64(x) => if s is Uninit || s is U64 {
            Some(SeriesV::U64(points_u64(s).push((t, x))))
        } else {
            None
        },
        ValueV::F32(x) => if s is Uninit || s is F32 {
            Some(SeriesV::F32(points_f32(s).push((t, x))))
        } else {
            None
        },
        ValueV::F64(x) => if s is Uninit || s is F64 {
            Some(SeriesV::F64(points_f64(s).push((t, x))))
        } else {
            None
        },
        ValueV::Str(_) => Some(s),
    }
}

/// Records the decoded values `vs` in the series of their fields at time `t`,
/// in order; stops at the first value whose type its field's series does not
/// hold, and gives that field's path.
pub open spec fn record_visits(
    m: Map<Seq<char>, SeriesV>,
    t: u64,
    vs: Seq<(Seq<char>, ValueV)>,
) -> (Map<Seq<char>, SeriesV>, Option<Seq<char>>)
    decreases vs.len(),
{
    if vs.len() == 0 {
        (m, None)
    } else {
        let (m1, e) = record_visits(m, t, vs.drop_last());
        if e is Some {
            (m1, e)
        } else {
            let (p, v) = vs.last();
            if v is Str {
                (m1, None)
            } else {
                match push_value(series_or_empty(m1, p), t, v) {
                    Some(s) => (m1.insert(p, s), None),
                    None => (m1, Some(p)),
                }
            }
        }
    }
}

impl TimeSeries {
    /// Whether the decoded value `v` can be added to this series.
    pub fn accepts(&self, v: &Value) -> (b: bool)
        ensures
            b == push_value(self@, 0, v@) is Some,
    {
        match v {
            Value::Bool(_) => match self {
                TimeSeries::Uninit | TimeSeries::Bool(_) => true,
                _ => false,
            },
            Value::I8(_) => match self {
                TimeSeries::Uninit | TimeSeries::I8(_) => true,
                _ => false,
            },
            Value::I16(_) => match self {
                TimeSeries::Uninit | TimeSeries::I16(_) => true,
                _ => false,
            },
            Value::I32(_) => match self {
                TimeSeries::Uninit | TimeSeries::I32(_) => true,
                _ => false,
            },
            Value::I64(_) => match self {
                TimeSeries::Uninit | TimeSeries::I64(_) => true,
                _ => false,
            },
            Value::U8(_) => match self {
                TimeSeries::Uninit | TimeSeries::U8(_) => true,
                _ => false,
            },
            Value::U16(_) => match self {
                TimeSeries::Uninit | TimeSeries::U16(_) => true,
                _ => false,
            },
            Value::U32(_) => match self {
                TimeSeries::Uninit | TimeSeries::U32(_) => true,
                _ => false,
            },
            Value::U64(_) => match self {
                TimeSeries::Uninit | TimeSeries::U64(_) => true,
                _ => false,
            },
            Value::F32(_) => match self {
                TimeSeries::Uninit | TimeSeries::F32(_) => true,
                _ => false,
            },
            Value::F64(_) => match self {
                TimeSeries::Uninit | TimeSeries::F64(_) => true,
                _ => false,
            },
            Value::Str(_) => true,
        }
    }

    /// Adds the decoded value `v` at time `t`.
    pub fn push_value(&mut self, t: u64, v: &Value)
        requires
            push_value(old(self)@, t, v@) is Some,
        ensures
            final(self)@ == push_value(old(self)@, t, v@)->Some_0,
    {
        match v {
            Value::Bool(x) => self.push_bool(t, *x),
            Value::I8(x) => self.push_i8(t, *x),
            Value::I16(x) => self.push_i16(t, *x),
            Value::I32(x) => self.push_i32(t, *x),
            Value::I64(x) => self.push_i64(t, *x),
            Value::U8(x) => self.push_u8(t, *x),
            Value::U16(x) => self.push_u16(t, *x),
            Value::U32(x) => self.push_u32(t, *x),
            Value::U64(x) => self.push_u64(t, *x),
            Value::F32(x) => self.push_f32(t, *x),
            Value::F64(x) => self.push_f64(t, *x),
            Value::Str(_) => {},
        }
    }
}

impl TopicStorage {
    /// Records `visits` at time `t`, as [`record_visits`] says.
    fn record(&mut self, t: u64, visits: &Vec<Visit>) -> (r: Result<(), String>)
        ensures
            ({
                let (m, e) = record_visits(topic_series(*old(self)), t, visits_view(visits@));
                &&& topic_series(*final(self)) == m
                &&& match r {
                    Ok(()) => e is None,
                    Err(p) => e == Some(p@),
                }
            }),
    {
        let ghost vv = visits_view(visits@);
        let mut i: usize = 0;
        while i < visits.len()
            invariant
                0 <= i <= visits@.len(),
                vv == visits_view(visits@),
                record_visits(topic_series(*old(self)), t, vv.take(i as int)) == (topic_series(*self), None::<Seq<char>>),
            decreases visits@.len() - i,
        {
            proof {
                assert(vv.take(i + 1).drop_last() =~= vv.take(i as int));
                assert(vv.take(i + 1).last() == visits@[i as int]@);
            }
            let vis = &visits[i];
            match &vis.value {
                Value::Str(_) => {},
                v => {
                    let ok = match self.get(vis.path.as_str()) {
                        None => true,
                        Some(s) => s.accepts(v),
                    };
                    if !ok {
                        assert(vv.take(visits@.len() as int) =~= vv);
                        proof {
                            lemma_record_stops(topic_series(*old(self)), t, vv, i as int + 1);
                        }
                        return Err(vis.path.clone());
                    }
                    let s = self.entry_or_default(vis.path.as_str());
                    s.push_value(t, v);
                },
            }
            i += 1;
        }
        assert(vv.take(visits@.len() as int) =~= vv);
        Ok(())
    }
}

/// Once recording stops at a value, the values after it change nothing.
proof fn lemma_record_stops(m: Map<Seq<char>, SeriesV>, t: u64, vs: Seq<(Seq<char>, ValueV)>, n: int)
    requires
        0 <= n <= vs.len(),
        record_visits(m, t, vs.take(n)).1 is Some,
    ensures
        record_visits(m, t, vs) == record_visits(m, t, vs.take(n)),
    decreases vs.len() - n,
{
    if n < vs.len() {
        assert(vs.take(n + 1).drop_last() =~= vs.take(n));
        lemma_record_stops(m, t, vs, n + 1);
    } else {
        assert(vs.take(n) =~= vs);
    }
}

impl DataStorage {
    /// Records `visits` in the storage of `topic` (added with no fields where
    /// there was none) at time `t`.
    pub(crate) fn record(&mut self, topic: &str, t: u64, visits: &Vec<Visit>) -> (r: Result<(), String>)
        ensures
            ({
                let (m, e) = record_visits(topic_or_empty(storage_topics(*old(self)), topic@), t, visits_view(visits@));
                &&& storage_topics(*final(self)) == storage_topics(*old(self)).insert(topic@, m)
                &&& match r {
                    Ok(()) => e is None,
                    Err(p) => e == Some(p@),
                }
            }),
    {
        let ts = self.entry_or_default(topic);
        ts.record(t, visits)
    }
}


/// Two series that hold values of the same type can always be merged, and
/// merging puts the points of the second after those of the first; a series
/// with no points yet merges with any other, giving the other's points.
pub proof fn law_same_type_series_merge()
    ensures
        forall|p: Seq<(u64, bool)>, q: Seq<(u64, bool)>|
            #[trigger] compatible(SeriesV::Bool(p), SeriesV::Bool(q))
                && concat(SeriesV::Bool(p), SeriesV::Bool(q)) == SeriesV::Bool(p + q),
        forall|p: Seq<(u64, i8)>, q: Seq<(u64, i8)>|
            #[trigger] compatible(SeriesV::I8(p), SeriesV::I8(q))
                && concat(SeriesV::I8(p), SeriesV::I8(q)) == SeriesV::I8(p + q),
        forall|p: Seq<(u64, i16)>, q: Seq<(u64, i16)>|
            #[trigger] compatible(SeriesV::I16(p), SeriesV::I16(q))
                && concat(SeriesV::I16(p), SeriesV::I16(q)) == SeriesV::I16(p + q),
        forall|p: Seq<(u64, i32)>, q: Seq<(u64, i32)>|
            #[trigger] compatible(SeriesV::I32(p), SeriesV::I32(q))
                && concat(SeriesV::I32(p), SeriesV::I32(q)) == SeriesV::I32(p + q),
        forall|p: Seq<(u64, i64)>, q: Seq<(u64, i64)>|
            #[trigger] compatible(SeriesV::I64(p), SeriesV::I64(q))
                && concat(SeriesV::I64(p), SeriesV::I64(q)) == SeriesV::I64(p + q),
        forall|p: Seq<(u64, u8)>, q: Seq<(u64, u8)>|
            #[trigger] compatible(SeriesV::U8(p), SeriesV::U8(q))
                && concat(SeriesV::U8(p), SeriesV::U8(q)) == SeriesV::U8(p + q),
        forall|p: Seq<(u64, u16)>, q: Seq<(u64, u16)>|
            #[trigger] compatible(SeriesV::U16(p), SeriesV::U16(q))
                && concat(SeriesV::U16(p), SeriesV::U16(q)) == SeriesV::U16(p + q),
        forall|p: Seq<(u64, u32)>, q: Seq<(u64, u32)>|
            #[trigger] compatible(SeriesV::U32(p), SeriesV::U32(q))
                && concat(SeriesV::U32(p), SeriesV::U32(q)) == SeriesV::U32(p + q),
        forall|p: Seq<(u64, u64)>, q: Seq<(u64, u64)>|
            #[trigger] compatible(SeriesV::U64(p), SeriesV::U64(q))
                && concat(SeriesV::U64(p), SeriesV::U64(q)) == SeriesV::U64(p + q),
        forall|p: Seq<(u64, u32)>, q: Seq<(u64, u32)>|
            #[trigger] compatible(SeriesV::F32(p), SeriesV::F32(q))
                && concat(SeriesV::F32(p), SeriesV::F32(q)) == SeriesV::F32(p + q),
        forall|p: Seq<(u64, u64)>, q: Seq<(u64, u64)>|
            #[trigger] compatible(SeriesV::F64(p), SeriesV::F64(q))
                && concat(SeriesV::F64(p), SeriesV::F64(q)) == SeriesV::F64(p + q),
        forall|a: SeriesV| #[trigger] compatible(a, SeriesV::Uninit) && concat(a, SeriesV::Uninit) == a,
        forall|b: SeriesV| #[trigger] compatible(SeriesV::Uninit, b) && concat(SeriesV::Uninit, b) == b,
{
}

/// Recording a decoded value `x` at time `t` in a series of its type, or in a
/// series with no points yet, appends the point `(t, x)`: the time first, the
/// value second, after the points already there.
pub proof fn law_push_appends_time_and_value()
    ensures
        forall|p: Seq<(u64, bool)>, t: u64, x: bool|
            #[trigger] push_value(SeriesV::Bool(p), t, ValueV::Bool(x)) == Some(SeriesV::Bool(p.push((t, x))))
                && push_value(SeriesV::Uninit, t, ValueV::Bool(x)) == Some(SeriesV::Bool(seq![(t, x)])),
        forall|p: Seq<(u64, i8)>, t: u64, x: i8|
            #[trigger] push_value(SeriesV::I8(p), t, ValueV::I8(x)) == Some(SeriesV::I8(p.push((t, x))))
                && push_value(SeriesV::Uninit, t, ValueV::I8(x)) == Some(SeriesV::I8(seq![(t, x)])),
        forall|p: Seq<(u64, i16)>, t: u64, x: i16|
            #[trigger] push_value(SeriesV::I16(p), t, ValueV::I16(x)) == Some(SeriesV::I16(p.push((t, x))))
                && push_value(SeriesV::Uninit, t, ValueV::I16(x)) == Some(SeriesV::I16(seq![(t, x)])),
        forall|p: Seq<(u64, i32)>, t: u64, x: i32|
            #[trigger] push_value(SeriesV::I32(p), t, ValueV::I32(x)) == Some(SeriesV::I32(p.push((t, x))))
                && push_value(SeriesV::Uninit, t, ValueV::I32(x)) == Some(SeriesV::I32(seq![(t, x)])),
        forall|p: Seq<(u64, i64)>, t: u64, x: i64|
            #[trigger] push_value(SeriesV::I64(p), t, ValueV::I64(x)) == Some(SeriesV::I64(p.push((t, x))))
                && push_value(SeriesV::Uninit, t, ValueV::I64(x)) == Some(SeriesV::I64(seq![(t, x)])),
        forall|p: Seq<(u64, u8)>, t: u64, x: u8|
            #[trigger] push_value(SeriesV::U8(p), t, ValueV::U8(x)) == Some(SeriesV::U8(p.push((t, x))))
                && push_value(SeriesV::Uninit, t, ValueV::U8(x)) == Some(SeriesV::U8(seq![(t, x)])),
        forall|p: Seq<(u64, u16)>, t: u64, x: u16|
            #[trigger] push_value(SeriesV::U16(p), t, ValueV::U16(x)) == Some(SeriesV::U16(p.push((t, x))))
                && push_value(SeriesV::Uninit, t, ValueV::U16(x)) == Some(SeriesV::U16(seq![(t, x)])),
        forall|p: Seq<(u64, u32)>, t: u64, x: u32|
            #[trigger] push_value(SeriesV::U32(p), t, ValueV::U32(x)) == Some(SeriesV::U32(p.push((t, x))))
                && push_value(SeriesV::Uninit, t, ValueV::U32(x)) == Some(SeriesV::U32(seq![(t, x)])),
        forall|p: Seq<(u64, u64)>, t: u64, x: u64|
            #[trigger] push_value(SeriesV::U64(p), t, ValueV::U64(x)) == Some(SeriesV::U64(p.push((t, x))))
                && push_value(SeriesV::Uninit, t, ValueV::U64(x)) == Some(SeriesV::U64(seq![(t, x)])),
        forall|p: Seq<(u64, u32)>, t: u64, x: u32|
            #[trigger] push_value(SeriesV::F32(p), t, ValueV::F32(x)) == Some(SeriesV::F32(p.push((t, x))))
                && push_value(SeriesV::Uninit, t, ValueV::F32(x)) == Some(SeriesV::F32(seq![(t, x)])),
        forall|p: Seq<(u64, u64)>, t: u64, x: u64|
            #[trigger] push_value(SeriesV::F64(p), t, ValueV::F64(x)) == Some(SeriesV::F64(p.push((t, x))))
                && push_value(SeriesV::Uninit, t, ValueV::F64(x)) == Some(SeriesV::F64(seq![(t, x)])),
{
    assert forall|t: u64, x: u64| #![auto] seq![(t, x)] =~= Seq::<(u64, u64)>::empty().push((t, x)) by {}
}


/// Recording one decoded `uint64` value `x` of field `p` at time `t`: a field
/// with no series yet gets the series of the single point `(t, x)`, a field
/// with a `uint64` series gets `(t, x)` after its points, and a field with a
/// series of another type is reported, nothing changed; a string is not
/// recorded.
pub proof fn law_record_one_value(m: Map<Seq<char>, SeriesV>, t: u64, p: Seq<char>, x: u64, text: Seq<char>)
    ensures
        !m.contains_key(p) ==> record_visits(m, t, seq![(p, ValueV::U64(x))])
            == (m.insert(p, SeriesV::U64(seq![(t, x)])), Option::<Seq<char>>::None),
        m.contains_key(p) && m[p] is U64 ==> record_visits(m, t, seq![(p, ValueV::U64(x))])
            == (m.insert(p, SeriesV::U64(points_u64(m[p]).push((t, x)))), Option::<Seq<char>>::None),
        m.contains_key(p) && !(m[p] is U64) && !(m[p] is Uninit) ==> record_visits(m, t, seq![(p, ValueV::U64(x))])
            == (m, Some(p)),
        record_visits(m, t, seq![(p, ValueV::Str(text))]) == (m, Option::<Seq<char>>::None),
{
    let a = seq![(p, ValueV::U64(x))];
    let b = seq![(p, ValueV::Str(text))];
    assert(a.drop_last().len() == 0);
    assert(b.drop_last().len() == 0);
    assert(seq![(t, x)] =~= Seq::<(u64, u64)>::empty().push((t, x)));
    assert(record_visits(m, t, a.drop_last()) == (m, Option::<Seq<char>>::None));
    assert(record_visits(m, t, b.drop_last()) == (m, Option::<Seq<char>>::None));
    assert(a.last() == (p, ValueV::U64(x)));
    assert(b.last() == (p, ValueV::Str(text)));
}


/// Merging storage `b` into `a`: a field of a topic held by both gets the points
/// of `a` followed by those of `b` (for `uint64` series below: `p + q`); a
/// field or a topic held by one only keeps its points; nothing else appears.
pub proof fn law_merge_fields(
    a: Map<Seq<char>, Map<Seq<char>, SeriesV>>,
    b: Map<Seq<char>, Map<Seq<char>, SeriesV>>,
    t: Seq<char>,
    f: Seq<char>,
    p: Seq<(u64, u64)>,
    q: Seq<(u64, u64)>,
)
    ensures
        merged(a, b).dom() == a.dom().union(b.dom()),
        a.contains_key(t) && b.contains_key(t) && a[t].contains_key(f) && b[t].contains_key(f)
            && a[t][f] == SeriesV::U64(p) && b[t][f] == SeriesV::U64(q)
            ==> merged(a, b)[t][f] == SeriesV::U64(p + q),
        a.contains_key(t) && a[t].contains_key(f) && !(b.contains_key(t) && b[t].contains_key(f))
            ==> merged(a, b)[t][f] == a[t][f],
        b.contains_key(t) && b[t].contains_key(f) && !(a.contains_key(t) && a[t].contains_key(f))
            ==> merged(a, b)[t][f] == b[t][f],
        a.contains_key(t) || b.contains_key(t) ==> (merged(a, b)[t].contains_key(f)
            <==> (a.contains_key(t) && a[t].contains_key(f)) || (b.contains_key(t) && b[t].contains_key(f))),
{
    assert(merged(a, b).dom() =~= a.dom().union(b.dom()));
}

} // verus!

