//! Typed arrays of nullable values, and the columns that hold them.
use vstd::prelude::*;
use crate::types::{copy_datum, datum_has_type, datum_view, datums_view, DataType, Datum, DatumV};

verus! {

/// A typed array of nullable values.
#[derive(Debug)]
pub struct ArrayImpl {
    pub data_type: DataType,
    pub values: Vec<Datum>,
}

/// The mathematical value of an [`ArrayImpl`].
pub struct ArrayV {
    pub data_type: DataType,
    pub values: Seq<DatumV>,
}

impl View for ArrayImpl {
    type V = ArrayV;

    open spec fn view(&self) -> ArrayV {
        ArrayV { data_type: self.data_type, values: datums_view(self.values@) }
    }
}

/// Every value of the array has the array's type.
pub open spec fn array_wf(a: ArrayV) -> bool {
    forall|i: int| 0 <= i < a.values.len() ==> datum_has_type(#[trigger] a.values[i], a.data_type)
}

impl ArrayImpl {
    /// Builds an array from values, or `None` where a value is not of type `data_type`.
    pub fn from_values(data_type: DataType, values: Vec<Datum>) -> (r: Option<ArrayImpl>)
        ensures
            r is Some <==> array_wf(ArrayV { data_type, values: datums_view(values@) }),
            r matches Some(a) ==> a@ == (ArrayV { data_type, values: datums_view(values@) }),
    {
        let mut i: usize = 0;
        while i < values.len()
            invariant
                i <= values@.len(),
                forall|j: int| 0 <= j < i ==> datum_has_type(#[trigger] datum_view(values@[j]), data_type),
            decreases values@.len() - i,
        {
            match &values[i] {
                Some(s) => {
                    if s.data_type() != data_type {
                        let ghost a = ArrayV { data_type, values: datums_view(values@) };
                        assert(a.values[i as int] == datum_view(values@[i as int]));
                        assert(!datum_has_type(a.values[i as int], data_type));
                        return None;
                    }
                },
                None => {},
            }
            i = i + 1;
        }
        assert forall|j: int| 0 <= j < datums_view(values@).len() implies datum_has_type(
            #[trigger] datums_view(values@)[j],
            data_type,
        ) by {
            assert(datums_view(values@)[j] == datum_view(values@[j]));
        }
        Some(ArrayImpl { data_type, values })
    }

    /// Number of values.
    pub fn len(&self) -> (r: usize)
        ensures
            r == self@.values.len(),
    {
        self.values.len()
    }

    /// A copy of the array.
    pub fn copy(&self) -> (r: ArrayImpl)
        ensures
            r@ == self@,
    {
        let mut out: Vec<Datum> = Vec::new();
        let mut i: usize = 0;
        while i < self.values.len()
            invariant
                i <= self.values@.len(),
                out@.len() == i,
                forall|j: int| 0 <= j < i ==> datum_view(#[trigger] out@[j]) == datum_view(self.values@[j]),
            decreases self.values@.len() - i,
        {
            out.push(copy_datum(&self.values[i]));
            i = i + 1;
        }
        assert(datums_view(out@) =~= datums_view(self.values@));
        ArrayImpl { data_type: self.data_type, values: out }
    }
}

/// A column of a chunk: one typed array.
#[derive(Debug)]
pub struct Column {
    array: ArrayImpl,
}

impl View for Column {
    type V = ArrayV;

    closed spec fn view(&self) -> ArrayV {
        self.array@
    }
}

impl Column {
    /// A column over `array`.
    pub fn new(array: ArrayImpl) -> (r: Column)
        ensures
            r@ == array@,
    {
        Column { array }
    }

    /// A copy of the column's array.
    pub fn array(&self) -> (r: ArrayImpl)
        ensures
            r@ == self@,
    {
        self.array.copy()
    }

    /// The column's array.
    pub fn array_ref(&self) -> (r: &ArrayImpl)
        ensures
            r@ == self@,
    {
        &self.array
    }

    /// The column's array, taking the column.
    pub fn into_inner(self) -> (r: ArrayImpl)
        ensures
            r@ == self@,
    {
        self.array
    }

    /// A copy of the column.
    pub fn copy(&self) -> (r: Column)
        ensures
            r@ == self@,
    {
        Column { array: self.array.copy() }
    }
}

/// Copies of the columns at the primary-key positions, in key order.
pub fn pk_input_arrays(pk_indices: &Vec<usize>, columns: &Vec<Column>) -> (r: Vec<ArrayImpl>)
    requires
        forall|i: int| 0 <= i < pk_indices@.len() ==> (#[trigger] pk_indices@[i] as int) < columns@.len(),
    ensures
        r@.len() == pk_indices@.len(),
        forall|i: int| 0 <= i < pk_indices@.len() ==> (#[trigger] r@[i])@ == columns@[pk_indices@[i] as int]@,
{
    let mut out: Vec<ArrayImpl> = Vec::new();
    let mut i: usize = 0;
    while i < pk_indices.len()
        invariant
            i <= pk_indices@.len(),
            forall|k: int| 0 <= k < pk_indices@.len() ==> (#[trigger] pk_indices@[k] as int) < columns@.len(),
            out@.len() == i,
            forall|k: int| 0 <= k < i ==> (#[trigger] out@[k])@ == columns@[pk_indices@[k] as int]@,
        decreases pk_indices@.len() - i,
    {
        assert((pk_indices@[i as int] as int) < columns@.len());
        out.push(columns[pk_indices[i]].array());
        i = i + 1;
    }
    out
}

} // verus!
