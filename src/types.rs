//! Scalar values, their logical types and row operations.
use vstd::prelude::*;

verus! {

/// Operation tag of one row of a stream chunk.
#[derive(Clone, Copy, Debug, PartialEq, Eq, Structural)]
pub enum Op {
    Insert,
    Delete,
    UpdateDelete,
    UpdateInsert,
}

/// Logical type of a column.
#[derive(Clone, Copy, Debug, PartialEq, Eq, Structural)]
pub enum DataType {
    Int16,
    Int32,
    Int64,
    Boolean,
    Decimal,
    Date,
    Time,
    Timestamp,
    Varchar,
}

/// A decimal number `mantissa * 10^(-scale)`.
#[derive(Clone, Copy, Debug, PartialEq, Eq, Structural)]
pub struct Decimal {
    pub mantissa: i64,
    pub scale: u8,
}

/// A calendar date, as a number of days from the epoch day.
#[derive(Clone, Copy, Debug, PartialEq, Eq, Structural)]
pub struct Date {
    pub days: i32,
}

/// A time of day, as seconds from midnight and nanoseconds.
#[derive(Clone, Copy, Debug, PartialEq, Eq, Structural)]
pub struct Time {
    pub secs: u32,
    pub nanos: u32,
}

/// A date and time, as seconds from the epoch and nanoseconds.
#[derive(Clone, Copy, Debug, PartialEq, Eq, Structural)]
pub struct Timestamp {
    pub secs: i64,
    pub nsecs: u32,
}

/// One non-null value of a column.
#[derive(Debug)]
pub enum Scalar {
    Int16(i16),
    Int32(i32),
    Int64(i64),
    Bool(bool),
    Decimal(Decimal),
    Date(Date),
    Time(Time),
    Timestamp(Timestamp),
    Utf8(String),
}

/// The mathematical value of a [`Scalar`].
pub enum ScalarV {
    Int16(i16),
    Int32(i32),
    Int64(i64),
    Bool(bool),
    Decimal(Decimal),
    Date(Date),
    Time(Time),
    Timestamp(Timestamp),
    Utf8(Seq<char>),
}

impl View for Scalar {
    type V = ScalarV;

    open spec fn view(&self) -> ScalarV {
        match self {
            Scalar::Int16(v) => ScalarV::Int16(*v),
            Scalar::Int32(v) => ScalarV::Int32(*v),
            Scalar::Int64(v) => ScalarV::Int64(*v),
            Scalar::Bool(v) => ScalarV::Bool(*v),
            Scalar::Decimal(v) => ScalarV::Decimal(*v),
            Scalar::Date(v) => ScalarV::Date(*v),
            Scalar::Time(v) => ScalarV::Time(*v),
            Scalar::Timestamp(v) => ScalarV::Timestamp(*v),
            Scalar::Utf8(s) => ScalarV::Utf8(s@),
        }
    }
}

/// A nullable value.
pub type Datum = Option<Scalar>;

/// The value of a nullable datum.
pub type DatumV = Option<ScalarV>;

/// A row of nullable values.
pub type Row = Vec<Datum>;

pub open spec fn datum_view(d: Datum) -> DatumV {
    match d {
        Some(s) => Some(s@),
        None => None,
    }
}

pub open spec fn datums_view(s: Seq<Datum>) -> Seq<DatumV> {
    s.map_values(|d: Datum| datum_view(d))
}

/// The logical type of a value.
pub open spec fn type_of(v: ScalarV) -> DataType {
    match v {
        ScalarV::Int16(_) => DataType::Int16,
        ScalarV::Int32(_) => DataType::Int32,
        ScalarV::Int64(_) => DataType::Int64,
        ScalarV::Bool(_) => DataType::Boolean,
        ScalarV::Decimal(_) => DataType::Decimal,
        ScalarV::Date(_) => DataType::Date,
        ScalarV::Time(_) => DataType::Time,
        ScalarV::Timestamp(_) => DataType::Timestamp,
        ScalarV::Utf8(_) => DataType::Varchar,
    }
}

/// A nullable value fits a column of type `t`.
pub open spec fn datum_has_type(d: DatumV, t: DataType) -> bool {
    match d {
        Some(v) => type_of(v) == t,
        None => true,
    }
}

impl Scalar {
    /// A copy of the value.
    pub fn copy(&self) -> (r: Scalar)
        ensures
            r@ == self@,
    {
        match self {
            Scalar::Int16(v) => Scalar::Int16(*v),
            Scalar::Int32(v) => Scalar::Int32(*v),
            Scalar::Int64(v) => Scalar::Int64(*v),
            Scalar::Bool(v) => Scalar::Bool(*v),
            Scalar::Decimal(v) => Scalar::Decimal(*v),
            Scalar::Date(v) => Scalar::Date(*v),
            Scalar::Time(v) => Scalar::Time(*v),
            Scalar::Timestamp(v) => Scalar::Timestamp(*v),
            Scalar::Utf8(s) => Scalar::Utf8(s.clone()),
        }
    }

    /// The logical type of the value.
    pub fn data_type(&self) -> (r: DataType)
        ensures
            r == type_of(self@),
    {
        match self {
            Scalar::Int16(_) => DataType::Int16,
            Scalar::Int32(_) => DataType::Int32,
            Scalar::Int64(_) => DataType::Int64,
            Scalar::Bool(_) => DataType::Boolean,
            Scalar::Decimal(_) => DataType::Decimal,
            Scalar::Date(_) => DataType::Date,
            Scalar::Time(_) => DataType::Time,
            Scalar::Timestamp(_) => DataType::Timestamp,
            Scalar::Utf8(_) => DataType::Varchar,
        }
    }
}

/// A copy of a nullable value.
pub fn copy_datum(d: &Datum) -> (r: Datum)
    ensures
        datum_view(r) == datum_view(*d),
{
    match d {
        Some(s) => Some(s.copy()),
        None => None,
    }
}

} // verus!
