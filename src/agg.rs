//! Simple aggregation: one row of aggregates over the whole update stream,
//! flushed to the state store and emitted as a change at each barrier.
use vstd::prelude::*;
use crate::array::{ArrayImpl, ArrayV, Column};
use crate::chunk::{chunk_wf, row_visible, ChunkV, StreamChunk};
use crate::error::StreamError;
use crate::message::{Barrier, BarrierV, ExecutorState, Message, MessageV};
use crate::state_store::{log_after, records_view, writes_view, KeyWriteV, MemoryStateStore, WriteBatch};
use crate::bytes::{le_bytes, put_uint};
use crate::codec::{enc_row, holds_at, put_row, read_row};
use crate::state_store::read_at;
use crate::types::{datum_has_type, datums_view};
use crate::types::{DataType, Datum, DatumV, Op, Scalar, ScalarV};

verus! {

/// The aggregate functions.
#[derive(Clone, Copy, Debug, PartialEq, Eq, Structural)]
pub enum AggKind {
    /// Number of rows.
    RowCount,
    /// Number of non-null values.
    Count,
    /// Sum of the non-null values.
    Sum,
    /// Least non-null value.
    Min,
    /// Greatest non-null value.
    Max,
}

/// One aggregate: its function and the column it reads (none for `RowCount`).
#[derive(Clone, Copy, Debug, PartialEq, Eq, Structural)]
pub struct AggCall {
    pub kind: AggKind,
    pub arg: Option<usize>,
}

/// The running state of one aggregate.
#[derive(Debug)]
pub struct AggState {
    /// Rows (for `RowCount`) or non-null values counted so far.
    pub count: i64,
    /// Sum of the non-null values so far.
    pub sum: i64,
    /// The live non-null values, for `Min` and `Max`.
    pub values: Vec<i64>,
}

pub struct AggStateV {
    pub count: int,
    pub sum: int,
    pub values: Seq<i64>,
}

impl View for AggState {
    type V = AggStateV;

    open spec fn view(&self) -> AggStateV {
        AggStateV { count: self.count as int, sum: self.sum as int, values: self.values@ }
    }
}

pub open spec fn empty_state() -> AggStateV {
    AggStateV { count: 0, sum: 0, values: Seq::empty() }
}

pub open spec fn in_i64(x: int) -> bool {
    i64::MIN <= x <= i64::MAX
}

/// The value of an integer datum; `None` for a null.
pub open spec fn datum_int(d: DatumV) -> Option<int> {
    match d {
        Some(ScalarV::Int16(x)) => Some(x as int),
        Some(ScalarV::Int32(x)) => Some(x as int),
        Some(ScalarV::Int64(x)) => Some(x as int),
        _ => None,
    }
}

pub open spec fn is_integer_type(t: DataType) -> bool {
    t == DataType::Int16 || t == DataType::Int32 || t == DataType::Int64
}

/// Inserts count up, deletes count down.
pub open spec fn op_sign(op: Op) -> int {
    match op {
        Op::Insert | Op::UpdateInsert => 1,
        Op::Delete | Op::UpdateDelete => -1,
    }
}

/// The position of the first `v` in `s`.
pub open spec fn index_of(s: Seq<i64>, v: i64) -> Option<int>
    decreases s.len(),
{
    if s.len() == 0 {
        None
    } else {
        match index_of(s.drop_last(), v) {
            Some(i) => Some(i),
            None => if s.last() == v {
                Some(s.len() - 1)
            } else {
                None
            },
        }
    }
}

/// `s` with its first `v` removed, if it has one.
pub open spec fn remove_one(s: Seq<i64>, v: i64) -> Seq<i64> {
    match index_of(s, v) {
        Some(i) => s.remove(i),
        None => s,
    }
}

/// The state after one row; `None` where a count or sum leaves `i64`.
pub open spec fn agg_step(s: AggStateV, kind: AggKind, op: Op, v: Option<int>) -> Option<AggStateV> {
    let ins = op_sign(op) > 0;
    match kind {
        AggKind::RowCount => {
            let count = if ins { s.count + 1 } else { s.count - 1 };
            if in_i64(count) {
                Some(AggStateV { count, sum: s.sum, values: s.values })
            } else {
                None
            }
        },
        _ => match v {
            None => Some(s),
            Some(x) => {
                let count = if ins { s.count + 1 } else { s.count - 1 };
                let sum = if kind == AggKind::Sum {
                    if ins { s.sum + x } else { s.sum - x }
                } else {
                    s.sum
                };
                let values = if kind == AggKind::Min || kind == AggKind::Max {
                    if ins { s.values.push(x as i64) } else { remove_one(s.values, x as i64) }
                } else {
                    s.values
                };
                if in_i64(count) && in_i64(sum) {
                    Some(AggStateV { count, sum, values })
                } else {
                    None
                }
            },
        },
    }
}

/// The argument value of row `i` for `call`.
pub open spec fn arg_value(c: ChunkV, call: AggCall, i: int) -> Option<int> {
    match call.arg {
        Some(col) => datum_int(c.columns[col as int].values[i]),
        None => None,
    }
}

/// The state after the visible rows among the first `n` of the chunk.
pub open spec fn agg_fold(s: AggStateV, c: ChunkV, call: AggCall, n: nat) -> Option<AggStateV>
    decreases n,
{
    if n == 0 {
        Some(s)
    } else {
        match agg_fold(s, c, call, (n - 1) as nat) {
            None => None,
            Some(t) => if row_visible(c, n - 1) {
                agg_step(t, call.kind, c.ops[n - 1], arg_value(c, call, n - 1))
            } else {
                Some(t)
            },
        }
    }
}

/// The calls read existing integer columns, and `RowCount` reads none.
pub open spec fn calls_fit(c: ChunkV, calls: Seq<AggCall>) -> bool {
    forall|j: int|
        0 <= j < calls.len() ==> match (#[trigger] calls[j]).arg {
            Some(col) => (col as int) < c.columns.len() && is_integer_type(c.columns[col as int].data_type),
            None => true,
        }
}

/// A call of each function but `RowCount` has an argument.
pub open spec fn call_wf(call: AggCall) -> bool {
    call.kind != AggKind::RowCount <==> call.arg is Some
}

pub open spec fn seq_min(s: Seq<i64>) -> int
    decreases s.len(),
{
    if s.len() <= 1 {
        if s.len() == 0 { 0 } else { s[0] as int }
    } else {
        let m = seq_min(s.drop_last());
        if (s.last() as int) < m { s.last() as int } else { m }
    }
}

pub open spec fn seq_max(s: Seq<i64>) -> int
    decreases s.len(),
{
    if s.len() <= 1 {
        if s.len() == 0 { 0 } else { s[0] as int }
    } else {
        let m = seq_max(s.drop_last());
        if (s.last() as int) > m { s.last() as int } else { m }
    }
}

/// The value of an aggregate; `None` stands for a null.
pub open spec fn agg_output(kind: AggKind, s: AggStateV) -> Option<int> {
    match kind {
        AggKind::RowCount | AggKind::Count => Some(s.count),
        AggKind::Sum => if s.count == 0 { None } else { Some(s.sum) },
        AggKind::Min => if s.values.len() == 0 { None } else { Some(seq_min(s.values)) },
        AggKind::Max => if s.values.len() == 0 { None } else { Some(seq_max(s.values)) },
    }
}

pub proof fn lemma_index_of(s: Seq<i64>, v: i64)
    ensures
        index_of(s, v) matches Some(i) ==> 0 <= i < s.len() && s[i] == v && forall|j: int|
            0 <= j < i ==> s[j] != v,
        index_of(s, v) is None ==> forall|j: int| 0 <= j < s.len() ==> s[j] != v,
    decreases s.len(),
{
    if s.len() > 0 {
        let p = s.drop_last();
        lemma_index_of(p, v);
        assert(forall|j: int| 0 <= j < p.len() ==> p[j] == s[j]);
    }
}

/// Removes the first `v`, if any.
fn remove_value(values: &mut Vec<i64>, v: i64)
    ensures
        final(values)@ == remove_one(old(values)@, v),
{
    proof {
        lemma_index_of(old(values)@, v);
    }
    let mut i: usize = 0;
    while i < values.len()
        invariant
            values@ == old(values)@,
            i <= values@.len(),
            forall|j: int| 0 <= j < i ==> values@[j] != v,
        decreases values@.len() - i,
    {
        if values[i] == v {
            proof {
                lemma_index_of(values@, v);
                if let Some(k) = index_of(values@, v) {
                    if k < i {
                        assert(values@[k] != v);
                    }
                    assert(!(k > i));
                }
            }
            values.remove(i);
            return;
        }
        i = i + 1;
    }
    proof {
        lemma_index_of(values@, v);
        if let Some(k) = index_of(values@, v) {
            assert(values@[k] != v);
        }
    }
}

/// The value of an integer datum.
fn datum_to_int(d: &Datum) -> (r: Option<i64>)
    ensures
        r matches Some(x) ==> datum_int(crate::types::datum_view(*d)) == Some(x as int),
        r is None ==> datum_int(crate::types::datum_view(*d)) is None,
{
    match d {
        Some(Scalar::Int16(x)) => Some(*x as i64),
        Some(Scalar::Int32(x)) => Some(*x as i64),
        Some(Scalar::Int64(x)) => Some(*x),
        _ => None,
    }
}

impl AggState {
    pub fn new() -> (r: AggState)
        ensures
            r@ == empty_state(),
    {
        AggState { count: 0, sum: 0, values: Vec::new() }
    }

    /// Folds one row into the state; refused where a count or sum would leave `i64`.
    pub fn step(&mut self, kind: AggKind, op: Op, v: Option<i64>) -> (r: Result<(), StreamError>)
        ensures
            ({
                let s = agg_step(old(self)@, kind, op, match v { Some(x) => Some(x as int), None => None });
                &&& r is Ok <==> s is Some
                &&& r is Ok ==> final(self)@ == s->Some_0
            }),
    {
        let insert = op == Op::Insert || op == Op::UpdateInsert;
        match kind {
            AggKind::RowCount => {
                let c = if insert { self.count.checked_add(1) } else { self.count.checked_sub(1) };
                match c {
                    Some(c) => {
                        self.count = c;
                        Ok(())
                    },
                    None => Err(StreamError::Overflow),
                }
            },
            _ => match v {
                None => Ok(()),
                Some(x) => {
                    let c = if insert { self.count.checked_add(1) } else { self.count.checked_sub(1) };
                    let c = match c {
                        Some(c) => c,
                        None => {
                            return Err(StreamError::Overflow);
                        },
                    };
                    let s = if kind == AggKind::Sum {
                        if insert { self.sum.checked_add(x) } else { self.sum.checked_sub(x) }
                    } else {
                        Some(self.sum)
                    };
                    let s = match s {
                        Some(s) => s,
                        None => {
                            return Err(StreamError::Overflow);
                        },
                    };
                    self.count = c;
                    self.sum = s;
                    if kind == AggKind::Min || kind == AggKind::Max {
                        if insert {
                            self.values.push(x);
                        } else {
                            remove_value(&mut self.values, x);
                        }
                    }
                    Ok(())
                },
            },
        }
    }

    /// The value of the aggregate `kind` over this state.
    pub fn output(&self, kind: AggKind) -> (r: Option<i64>)
        ensures
            match agg_output(kind, self@) {
                Some(x) => r == Some(x as i64) && in_i64(x),
                None => r is None,
            },
    {
        match kind {
            AggKind::RowCount | AggKind::Count => Some(self.count),
            AggKind::Sum => if self.count == 0 { None } else { Some(self.sum) },
            AggKind::Min | AggKind::Max => {
                if self.values.len() == 0 {
                    return None;
                }
                let mut m: i64 = self.values[0];
                let mut i: usize = 1;
                while i < self.values.len()
                    invariant
                        1 <= i <= self.values@.len(),
                        kind == AggKind::Min || kind == AggKind::Max,
                        m as int == if kind == AggKind::Min {
                            seq_min(self.values@.take(i as int))
                        } else {
                            seq_max(self.values@.take(i as int))
                        },
                    decreases self.values@.len() - i,
                {
                    let x = self.values[i];
                    assert(self.values@.take(i + 1).drop_last() =~= self.values@.take(i as int));
                    if kind == AggKind::Min {
                        if x < m {
                            m = x;
                        }
                    } else {
                        if x > m {
                            m = x;
                        }
                    }
                    i = i + 1;
                }
                assert(self.values@.take(i as int) =~= self.values@);
                Some(m)
            },
        }
    }

    pub fn copy(&self) -> (r: AggState)
        ensures
            r@ == self@,
    {
        let v = self.values.clone();
        assert(v@ =~= self.values@);
        AggState { count: self.count, sum: self.sum, values: v }
    }
}

/// An aggregate value as a column value.
pub open spec fn output_datum(x: Option<int>) -> DatumV {
    match x {
        Some(v) => Some(ScalarV::Int64(v as i64)),
        None => None,
    }
}

/// The row of aggregate values over the states.
pub open spec fn output_row(calls: Seq<AggCall>, states: Seq<AggStateV>) -> Seq<Option<int>> {
    Seq::new(calls.len(), |j: int| agg_output(calls[j].kind, states[j]))
}

/// The change from the previously emitted row to `new`: an `Insert` of
/// `new` if there was none, else an `UpdateDelete` of it and an
/// `UpdateInsert` of `new`.
pub open spec fn change_chunk(prev: Option<Seq<Option<int>>>, new: Seq<Option<int>>) -> ChunkV {
    match prev {
        None => ChunkV {
            ops: seq![Op::Insert],
            columns: Seq::new(
                new.len(),
                |j: int| ArrayV { data_type: DataType::Int64, values: seq![output_datum(new[j])] },
            ),
            visibility: None,
        },
        Some(p) => ChunkV {
            ops: seq![Op::UpdateDelete, Op::UpdateInsert],
            columns: Seq::new(
                new.len(),
                |j: int|
                    ArrayV {
                        data_type: DataType::Int64,
                        values: seq![output_datum(p[j]), output_datum(new[j])],
                    },
            ),
            visibility: None,
        },
    }
}

/// The stored form of a state: its count, sum and number of values, then
/// the values, as a row of 64-bit integers.
pub open spec fn state_row(s: AggStateV) -> Seq<DatumV> {
    seq![
        Some(ScalarV::Int64(s.count as i64)),
        Some(ScalarV::Int64(s.sum as i64)),
        Some(ScalarV::Int64(s.values.len() as i64)),
    ] + s.values.map_values(|v: i64| Some(ScalarV::Int64(v)))
}

/// The storage key of the state of call `j`.
pub open spec fn state_key(keyspace: Seq<u8>, j: int) -> Seq<u8> {
    keyspace + le_bytes(j as nat, 4)
}

/// The writes that flush the states, one per call in call order.
pub open spec fn state_writes(keyspace: Seq<u8>, states: Seq<AggStateV>) -> Seq<KeyWriteV> {
    Seq::new(
        states.len(),
        |j: int| KeyWriteV { key: state_key(keyspace, j), value: Some(enc_row(state_row(states[j]))) },
    )
}

pub open spec fn states_view(s: Seq<AggState>) -> Seq<AggStateV> {
    s.map_values(|a: AggState| a@)
}

pub open spec fn prev_view(p: Option<Vec<Option<i64>>>) -> Option<Seq<Option<int>>> {
    match p {
        Some(v) => Some(v@.map_values(|x: Option<i64>| match x {
            Some(y) => Some(y as int),
            None => None,
        })),
        None => None,
    }
}

/// The aggregation operator.
pub struct SimpleAggExecutor {
    pub agg_calls: Vec<AggCall>,
    /// The state of each call.
    pub states: Vec<AggState>,
    /// The last row emitted, if any.
    pub prev_output: Option<Vec<Option<i64>>>,
    /// A chunk was applied since the last flush.
    pub dirty: bool,
    /// Waiting for the first barrier, or the current epoch.
    pub state: ExecutorState,
    /// Prefix of the storage keys of the states.
    pub keyspace: Vec<u8>,
    /// The states were loaded from the store.
    pub loaded: bool,
    /// The epoch of the last chunk applied.
    pub last_mutated_epoch: Option<u64>,
    /// The epoch of the last flush.
    pub last_flushed_epoch: Option<u64>,
}

impl SimpleAggExecutor {
    pub open spec fn wf(&self) -> bool {
        &&& self.states@.len() == self.agg_calls@.len()
        &&& self.agg_calls@.len() < 0x1_0000_0000
        &&& forall|j: int| 0 <= j < self.agg_calls@.len() ==> call_wf(#[trigger] self.agg_calls@[j])
        &&& self.prev_output matches Some(p) ==> p@.len() == self.agg_calls@.len()
    }

    /// An operator with empty states that stores them under `keyspace`;
    /// a call that is not well formed is refused.
    pub fn new(agg_calls: Vec<AggCall>, keyspace: Vec<u8>) -> (r: Result<Self, StreamError>)
        ensures
            r is Ok <==> agg_calls@.len() < 0x1_0000_0000 && forall|j: int|
                0 <= j < agg_calls@.len() ==> call_wf(#[trigger] agg_calls@[j]),
            r matches Ok(e) ==> e.wf() && e.agg_calls@ == agg_calls@ && e.keyspace@ == keyspace@
                && !e.dirty && !e.loaded && e.prev_output is None && e.state == ExecutorState::Init
                && e.last_mutated_epoch is None && e.last_flushed_epoch is None && forall|j: int|
                0 <= j < agg_calls@.len() ==> (#[trigger] e.states@[j])@ == empty_state(),
    {
        if agg_calls.len() as u64 >= 0x1_0000_0000u64 {
            return Err(StreamError::TypeMismatch);
        }
        let mut states: Vec<AggState> = Vec::new();
        let mut j: usize = 0;
        while j < agg_calls.len()
            invariant
                j <= agg_calls@.len(),
                states@.len() == j,
                forall|x: int| 0 <= x < j ==> call_wf(#[trigger] agg_calls@[x]),
                forall|x: int| 0 <= x < j ==> (#[trigger] states@[x])@ == empty_state(),
            decreases agg_calls@.len() - j,
        {
            let c = agg_calls[j];
            let has_arg = c.arg.is_some();
            if (c.kind == AggKind::RowCount) == has_arg {
                return Err(StreamError::TypeMismatch);
            }
            states.push(AggState::new());
            j = j + 1;
        }
        Ok(SimpleAggExecutor {
            agg_calls,
            states,
            prev_output: None,
            dirty: false,
            state: ExecutorState::Init,
            keyspace,
            loaded: false,
            last_mutated_epoch: None,
            last_flushed_epoch: None,
        })
    }

    /// Checks that the calls fit the chunk's columns.
    fn check_calls(&self, chunk: &StreamChunk) -> (r: Result<(), StreamError>)
        requires
            chunk_wf(chunk@),
        ensures
            r is Ok <==> calls_fit(chunk@, self.agg_calls@),
    {
        let mut j: usize = 0;
        while j < self.agg_calls.len()
            invariant
                j <= self.agg_calls@.len(),
                forall|x: int|
                    0 <= x < j ==> match (#[trigger] self.agg_calls@[x]).arg {
                        Some(col) => (col as int) < chunk@.columns.len() && is_integer_type(
                            chunk@.columns[col as int].data_type,
                        ),
                        None => true,
                    },
            decreases self.agg_calls@.len() - j,
        {
            match self.agg_calls[j].arg {
                Some(col) => {
                    if col >= chunk.columns.len() {
                        return Err(StreamError::ColumnOutOfRange { index: col });
                    }
                    let a = chunk.columns[col].array_ref();
                    assert(a@ == chunk@.columns[col as int]);
                    let t = a.data_type;
                    if !(t == DataType::Int16 || t == DataType::Int32 || t == DataType::Int64) {
                        return Err(StreamError::TypeMismatch);
                    }
                },
                None => {},
            }
            j = j + 1;
        }
        Ok(())
    }

    /// Folds the chunk's visible rows into the state of one call.
    fn fold_call(state: &AggState, call: AggCall, chunk: &StreamChunk) -> (r: Result<AggState, StreamError>)
        requires
            chunk_wf(chunk@),
            calls_fit(chunk@, seq![call]),
        ensures
            r is Ok <==> agg_fold(state@, chunk@, call, chunk@.ops.len()) is Some,
            r matches Ok(s) ==> Some(s@) == agg_fold(state@, chunk@, call, chunk@.ops.len()),
    {
        assert(seq![call][0] == call);
        let mut s = state.copy();
        let n = chunk.ops.len();
        let mut i: usize = 0;
        while i < n
            invariant
                n == chunk@.ops.len(),
                chunk_wf(chunk@),
                calls_fit(chunk@, seq![call]),
                seq![call][0] == call,
                i <= n,
                agg_fold(state@, chunk@, call, i as nat) == Some(s@),
            decreases n - i,
        {
            if chunk.is_visible(i) {
                let v = match call.arg {
                    Some(col) => {
                        let a = chunk.columns[col].array_ref();
                        assert(a@ == chunk@.columns[col as int]);
                        assert(a@.values[i as int] == crate::types::datum_view(a.values@[i as int]));
                        datum_to_int(&a.values[i])
                    },
                    None => None,
                };
                match s.step(call.kind, chunk.ops[i], v) {
                    Ok(()) => {},
                    Err(e) => {
                        proof {
                            lemma_fold_none_stays(state@, chunk@, call, (i + 1) as nat, n as nat);
                        }
                        return Err(e);
                    },
                }
            }
            i = i + 1;
        }
        Ok(s)
    }

    /// Folds the chunk into every call's state and marks the states dirty.
    pub fn apply_chunk(&mut self, chunk: &StreamChunk) -> (r: Result<(), StreamError>)
        requires
            old(self).wf(),
            chunk_wf(chunk@),
        ensures
            final(self).wf(),
            final(self).agg_calls == old(self).agg_calls,
            final(self).keyspace == old(self).keyspace,
            final(self).state == old(self).state,
            final(self).prev_output == old(self).prev_output,
            final(self).loaded == old(self).loaded,
            final(self).last_mutated_epoch == old(self).last_mutated_epoch,
            r is Ok <==> calls_fit(chunk@, old(self).agg_calls@) && forall|j: int|
                0 <= j < old(self).agg_calls@.len() ==> (#[trigger] agg_fold(
                    old(self).states@[j]@,
                    chunk@,
                    old(self).agg_calls@[j],
                    chunk@.ops.len(),
                )) is Some,
            r is Ok ==> final(self).dirty && forall|j: int|
                0 <= j < old(self).agg_calls@.len() ==> Some((#[trigger] final(self).states@[j])@)
                    == agg_fold(old(self).states@[j]@, chunk@, old(self).agg_calls@[j], chunk@.ops.len()),
            r is Err ==> states_view(final(self).states@) == states_view(old(self).states@)
                && final(self).dirty == old(self).dirty,
    {
        match self.check_calls(chunk) {
            Ok(()) => {},
            Err(e) => {
                return Err(e);
            },
        }
        let mut new_states: Vec<AggState> = Vec::new();
        let mut j: usize = 0;
        while j < self.agg_calls.len()
            invariant
                self.wf(),
                *self == *old(self),
                chunk_wf(chunk@),
                calls_fit(chunk@, self.agg_calls@),
                j <= self.agg_calls@.len(),
                new_states@.len() == j,
                forall|x: int|
                    0 <= x < j ==> Some((#[trigger] new_states@[x])@) == agg_fold(
                        self.states@[x]@,
                        chunk@,
                        self.agg_calls@[x],
                        chunk@.ops.len(),
                    ),
            decreases self.agg_calls@.len() - j,
        {
            let call = self.agg_calls[j];
            assert(calls_fit(chunk@, seq![call])) by {
                assert(seq![call][0] == self.agg_calls@[j as int]);
            }
            match Self::fold_call(&self.states[j], call, chunk) {
                Ok(s) => new_states.push(s),
                Err(e) => {
                    return Err(e);
                },
            }
            j = j + 1;
        }
        assert forall|x: int| 0 <= x < old(self).agg_calls@.len() implies (#[trigger] agg_fold(
            old(self).states@[x]@,
            chunk@,
            old(self).agg_calls@[x],
            chunk@.ops.len(),
        )) is Some by {
            assert(Some(new_states@[x]@) == agg_fold(self.states@[x]@, chunk@, self.agg_calls@[x], chunk@.ops.len()));
        }
        self.states = new_states;
        self.dirty = true;
        Ok(())
    }
}

/// A failed fold stays failed on more rows.
pub proof fn lemma_fold_none_stays(s: AggStateV, c: ChunkV, call: AggCall, i: nat, n: nat)
    requires
        i <= n,
        agg_fold(s, c, call, i) is None,
    ensures
        agg_fold(s, c, call, n) is None,
    decreases n - i,
{
    if i < n {
        lemma_fold_none_stays(s, c, call, i, (n - 1) as nat);
    }
}

pub open spec fn int_opt(x: Option<i64>) -> Option<int> {
    match x {
        Some(y) => Some(y as int),
        None => None,
    }
}

pub open spec fn ints_view(v: Seq<Option<i64>>) -> Seq<Option<int>> {
    v.map_values(|x: Option<i64>| int_opt(x))
}

fn int_datum(x: Option<i64>) -> (r: Datum)
    ensures
        crate::types::datum_view(r) == output_datum(match x {
            Some(y) => Some(y as int),
            None => None,
        }),
{
    match x {
        Some(y) => Some(Scalar::Int64(y)),
        None => None,
    }
}

/// The output chunk for the change from `prev` to `new`.
fn build_change(prev: &Option<Vec<Option<i64>>>, new: &Vec<Option<i64>>) -> (r: StreamChunk)
    requires
        prev matches Some(p) ==> p@.len() == new@.len(),
    ensures
        r@ == change_chunk(prev_view(*prev), ints_view(new@)),
        chunk_wf(r@),
{
    let ghost target = change_chunk(prev_view(*prev), ints_view(new@));
    let mut ops: Vec<Op> = Vec::new();
    match prev {
        None => ops.push(Op::Insert),
        Some(_) => {
            ops.push(Op::UpdateDelete);
            ops.push(Op::UpdateInsert);
        },
    }
    let mut columns: Vec<Column> = Vec::new();
    let mut j: usize = 0;
    while j < new.len()
        invariant
            prev matches Some(p) ==> p@.len() == new@.len(),
            target == change_chunk(prev_view(*prev), ints_view(new@)),
            j <= new@.len(),
            columns@.len() == j,
            forall|x: int| 0 <= x < j ==> (#[trigger] columns@[x])@ == target.columns[x],
        decreases new@.len() - j,
    {
        let mut values: Vec<Datum> = Vec::new();
        match prev {
            Some(p) => values.push(int_datum(p[j])),
            None => {},
        }
        values.push(int_datum(new[j]));
        let a = ArrayImpl { data_type: DataType::Int64, values };
        assert(a@.values =~= target.columns[j as int].values);
        columns.push(Column::new(a));
        j = j + 1;
    }
    let r = StreamChunk { ops, columns, visibility: None };
    assert(r@.columns =~= target.columns);
    assert(r@.ops =~= target.ops);
    r
}

/// What handling chunk `c` at the operator's current epoch does, from
/// operator `e` and store log `log` to operator `f`, where `ok` says it
/// succeeded: on the first chunk the states are first loaded from the
/// store; then every call folds the chunk's visible rows.
pub open spec fn chunk_folded(
    e: SimpleAggExecutor,
    log: Seq<crate::state_store::RecordV>,
    c: ChunkV,
    ok: bool,
    f: SimpleAggExecutor,
) -> bool {
    let calls = e.agg_calls@;
    let n = calls.len();
    let ks = e.keyspace@;
    let epoch = e.state->Active_0;
    let rows = c.ops.len();
    &&& e.loaded ==> (ok <==> calls_fit(c, calls) && forall|j: int|
        0 <= j < n ==> (#[trigger] agg_fold(e.states@[j]@, c, calls[j], rows)) is Some)
    &&& (e.loaded && ok) ==> f.prev_output == e.prev_output && forall|j: int|
        0 <= j < n ==> Some((#[trigger] f.states@[j])@) == agg_fold(e.states@[j]@, c, calls[j], rows)
    &&& !e.loaded ==> (ok <==> load_ok(log, ks, n, epoch) && calls_fit(c, calls) && forall|j: int, s: AggStateV|
        0 <= j < n && #[trigger] loaded_state(stored_state(log, ks, j, epoch), s) ==> agg_fold(
            s,
            c,
            calls[j],
            rows,
        ) is Some)
    &&& (!e.loaded && ok) ==> forall|j: int, s: AggStateV|
        0 <= j < n && #[trigger] loaded_state(stored_state(log, ks, j, epoch), s) ==> Some(f.states@[j]@)
            == agg_fold(s, c, calls[j], rows)
    &&& (!e.loaded && ok) ==> if any_stored(log, ks, n, epoch) {
        forall|l: Seq<AggStateV>|
            l.len() == n && (forall|j: int| 0 <= j < n ==> #[trigger] loaded_state(stored_state(log, ks, j, epoch), l[j]))
                ==> prev_view(f.prev_output) == Some(output_row(calls, l))
    } else {
        f.prev_output == e.prev_output
    }
    &&& ok ==> f.loaded && f.dirty && f.last_mutated_epoch == Some(epoch) && f.state == e.state
}

impl SimpleAggExecutor {
    /// The current aggregate values.
    fn output_values(&self) -> (r: Vec<Option<i64>>)
        requires
            self.wf(),
        ensures
            ints_view(r@) == output_row(self.agg_calls@, states_view(self.states@)),
    {
        let mut out: Vec<Option<i64>> = Vec::new();
        let mut j: usize = 0;
        while j < self.agg_calls.len()
            invariant
                self.wf(),
                j <= self.agg_calls@.len(),
                out@.len() == j,
                forall|x: int|
                    0 <= x < j ==> int_opt(#[trigger] out@[x]) == agg_output(self.agg_calls@[x].kind, self.states@[x]@),
            decreases self.agg_calls@.len() - j,
        {
            let v = self.states[j].output(self.agg_calls[j].kind);
            out.push(v);
            j = j + 1;
        }
        assert(ints_view(out@) =~= output_row(self.agg_calls@, states_view(self.states@)));
        out
    }

    /// The writes that store every call's state.
    fn state_batch(&self) -> (r: WriteBatch)
        requires
            self.wf(),
        ensures
            writes_view(r.writes@) == state_writes(self.keyspace@, states_view(self.states@)),
    {
        let ghost target = state_writes(self.keyspace@, states_view(self.states@));
        let mut batch = WriteBatch::new();
        let mut j: usize = 0;
        while j < self.states.len()
            invariant
                self.wf(),
                target == state_writes(self.keyspace@, states_view(self.states@)),
                j <= self.states@.len(),
                writes_view(batch.writes@) == target.take(j as int),
            decreases self.states@.len() - j,
        {
            let st = &self.states[j];
            let mut row: Vec<Datum> = Vec::new();
            row.push(Some(Scalar::Int64(st.count)));
            row.push(Some(Scalar::Int64(st.sum)));
            #[verifier::truncate]
            let n = st.values.len() as i64;
            row.push(Some(Scalar::Int64(n)));
            let mut k: usize = 0;
            while k < st.values.len()
                invariant
                    k <= st.values@.len(),
                    row@.len() == 3 + k,
                    crate::types::datums_view(row@) == state_row(st@).take(3 + k),
                decreases st.values@.len() - k,
            {
                row.push(Some(Scalar::Int64(st.values[k])));
                k = k + 1;
                assert(crate::types::datums_view(row@) =~= state_row(st@).take(3 + k));
            }
            assert(state_row(st@).take(3 + k) =~= state_row(st@));
            let mut value: Vec<u8> = Vec::new();
            put_row(&mut value, &row);
            let mut key = self.keyspace.clone();
            assert(key@ =~= self.keyspace@);
            put_uint(&mut key, j as u64, 4);
            assert(key@ == state_key(self.keyspace@, j as int));
            assert(value@ =~= enc_row(state_row(states_view(self.states@)[j as int])));
            batch.put(key, value);
            j = j + 1;
            assert(writes_view(batch.writes@) =~= target.take(j as int));
        }
        assert(target.take(j as int) =~= target);
        batch
    }

    /// At a barrier: if a chunk was applied since the last flush, commits
    /// every state at the barrier's closing epoch `prev` and returns the
    /// change of the aggregate row; else returns nothing.
    pub fn on_barrier(&mut self, store: &mut MemoryStateStore, barrier: &Barrier) -> (r: Result<
        Option<StreamChunk>,
        StreamError,
    >)
        requires
            old(self).wf(),
        ensures
            final(self).wf(),
            final(self).agg_calls == old(self).agg_calls,
            final(self).keyspace == old(self).keyspace,
            final(self).state == old(self).state,
            final(self).loaded == old(self).loaded,
            states_view(final(self).states@) == states_view(old(self).states@),
            !old(self).dirty ==> (r matches Ok(None)) && *final(store) == *old(store)
                && final(self).prev_output == old(self).prev_output && !final(self).dirty
                && final(self).last_flushed_epoch == old(self).last_flushed_epoch,
            final(self).last_mutated_epoch == old(self).last_mutated_epoch,
            old(self).dirty ==> {
                let new = output_row(old(self).agg_calls@, states_view(old(self).states@));
                &&& r is Err <==> old(store).ingested@.len() > 0 && barrier.epoch.prev
                    <= old(store).ingested@.last()
                &&& r is Ok ==> final(store).ingested@ == old(store).ingested@.push(barrier.epoch.prev)
                    && records_view(final(store).log@) == log_after(
                    records_view(old(store).log@),
                    state_writes(old(self).keyspace@, states_view(old(self).states@)),
                    barrier.epoch.prev,
                ) && !final(self).dirty && prev_view(final(self).prev_output) == Some(new)
                    && final(self).last_flushed_epoch == Some(barrier.epoch.prev)
                &&& r matches Ok(x) ==> (x matches Some(c) && c@ == change_chunk(
                    prev_view(old(self).prev_output),
                    new,
                ) && chunk_wf(c@))
            },
    {
        if !self.dirty {
            return Ok(None);
        }
        let batch = self.state_batch();
        match store.ingest(batch, barrier.epoch.prev) {
            Ok(()) => {},
            Err(e) => {
                return Err(e);
            },
        }
        let new = self.output_values();
        let chunk = build_change(&self.prev_output, &new);
        self.prev_output = Some(new);
        self.dirty = false;
        self.last_flushed_epoch = Some(barrier.epoch.prev);
        Ok(Some(chunk))
    }

    /// Handles one message. The first must be a barrier, which is forwarded;
    /// chunks are folded into the states; a later barrier forwards the
    /// change of the aggregate row, if any, and then the barrier.
    pub fn step(&mut self, store: &mut MemoryStateStore, msg: Message) -> (r: Result<Vec<Message>, StreamError>)
        requires
            old(self).wf(),
            msg@ matches MessageV::Chunk(c) ==> chunk_wf(c),
        ensures
            final(self).wf(),
            final(self).agg_calls == old(self).agg_calls,
            final(self).keyspace == old(self).keyspace,
            old(self).state is Init && msg@ is Chunk ==> r == Err::<Vec<Message>, StreamError>(
                StreamError::FirstMessageNotBarrier,
            ) && *final(store) == *old(store),
            old(self).state is Active && msg@ is Chunk ==> chunk_folded(
                *old(self),
                records_view(old(store).log@),
                msg@->Chunk_0,
                r is Ok,
                *final(self),
            ),
            old(self).state is Active && msg@ is Barrier ==> {
                let b = msg@->Barrier_0;
                &&& !old(self).dirty ==> r is Ok && *final(store) == *old(store) && final(self).prev_output
                    == old(self).prev_output
                &&& old(self).dirty ==> (r is Err <==> old(store).ingested@.len() > 0 && b.epoch.prev
                    <= old(store).ingested@.last())
                &&& (old(self).dirty && r is Ok) ==> records_view(final(store).log@) == log_after(
                    records_view(old(store).log@),
                    state_writes(old(self).keyspace@, states_view(old(self).states@)),
                    b.epoch.prev,
                ) && prev_view(final(self).prev_output) == Some(
                    output_row(old(self).agg_calls@, states_view(old(self).states@)),
                ) && final(self).last_flushed_epoch == Some(b.epoch.prev)
                &&& r is Ok ==> !final(self).dirty && final(self).loaded == old(self).loaded && states_view(
                    final(self).states@,
                ) == states_view(old(self).states@) && final(self).last_mutated_epoch
                    == old(self).last_mutated_epoch && final(self).state == ExecutorState::Active(b.epoch.curr)
                &&& (!old(self).dirty && r is Ok) ==> final(self).last_flushed_epoch == old(self).last_flushed_epoch
            },
            old(self).state is Init && msg@ is Barrier ==> (r matches Ok(m) && m@.len() == 1
                && m@[0]@ == msg@) && final(self).state == ExecutorState::Active(msg@->Barrier_0.epoch.curr)
                && *final(store) == *old(store) && final(self).states == old(self).states && final(self).dirty
                == old(self).dirty && final(self).loaded == old(self).loaded && final(self).prev_output
                == old(self).prev_output && final(self).last_mutated_epoch == old(self).last_mutated_epoch
                && final(self).last_flushed_epoch == old(self).last_flushed_epoch,
            old(self).state is Active && msg@ is Chunk ==> (r is Ok ==> r->Ok_0@.len() == 0 && final(self).dirty
                && final(self).last_mutated_epoch == Some(old(self).state->Active_0)) && *final(store) == *old(store),
            old(self).state is Active && msg@ is Barrier ==> (r matches Ok(m) ==> {
                let b = msg@->Barrier_0;
                &&& final(self).state == ExecutorState::Active(b.epoch.curr)
                &&& m@.len() >= 1 && m@.last()@ == msg@
                &&& final(store).ingested@ == if old(self).dirty {
                    old(store).ingested@.push(b.epoch.prev)
                } else {
                    old(store).ingested@
                }
                &&& m@.len() == if old(self).dirty { 2int } else { 1int }
                &&& old(self).dirty ==> m@[0]@ == MessageV::Chunk(change_chunk(
                    prev_view(old(self).prev_output),
                    output_row(old(self).agg_calls@, states_view(old(self).states@)),
                ))
            }),
    {
        let ghost m0 = msg@;
        match msg {
            Message::Chunk(c) => {
                assert(m0 == MessageV::Chunk(c@));
                match self.state {
                    ExecutorState::Init => Err(StreamError::FirstMessageNotBarrier),
                    ExecutorState::Active(epoch) => {
                        let ghost log = records_view(store.log@);
                        if !self.loaded {
                            match self.load_states(store, epoch) {
                                Ok(()) => {},
                                Err(e) => {
                                    return Err(e);
                                },
                            }
                            self.loaded = true;
                        }
                        let ghost mid = *self;
                        match self.apply_chunk(&c) {
                            Ok(()) => {
                                self.last_mutated_epoch = Some(epoch);
                                proof {
                                    if !old(self).loaded {
                                        lemma_chunk_folded_fresh(*old(self), mid, *self, log, c@);
                                    }
                                }
                                Ok(Vec::new())
                            },
                            Err(e) => {
                                proof {
                                    if !old(self).loaded {
                                        lemma_chunk_failed_fresh(*old(self), mid, log, c@);
                                    }
                                }
                                Err(e)
                            },
                        }
                    },
                }
            },
            Message::Barrier(b) => {
                assert(m0 == MessageV::Barrier(b@));
                let mut out: Vec<Message> = Vec::new();
                match self.state {
                    ExecutorState::Init => {},
                    ExecutorState::Active(_) => {
                        match self.on_barrier(store, &b) {
                            Ok(Some(c)) => out.push(Message::Chunk(c)),
                            Ok(None) => {},
                            Err(e) => {
                                return Err(e);
                            },
                        }
                    },
                }
                self.state = ExecutorState::Active(b.epoch.curr);
                out.push(Message::Barrier(b));
                Ok(out)
            },
        }
    }
}

/// The storage prefix of the executor `executor_id`.
pub open spec fn executor_keyspace(executor_id: u64) -> Seq<u8> {
    seq![0x65u8] + le_bytes(executor_id as nat, 8)
}

/// The plan of a simple aggregation: its calls.
#[derive(Debug)]
pub struct SimpleAggNode {
    pub agg_calls: Vec<AggCall>,
}

/// Builds a simple aggregation operator from its plan.
pub struct SimpleAggExecutorBuilder {}

impl SimpleAggExecutorBuilder {
    /// The operator of the plan `node`, storing its state under the
    /// executor's own prefix; a call that is not well formed is refused.
    pub fn new_boxed_executor(node: &SimpleAggNode, executor_id: u64) -> (r: Result<
        SimpleAggExecutor,
        StreamError,
    >)
        ensures
            r is Ok <==> node.agg_calls@.len() < 0x1_0000_0000 && forall|j: int|
                0 <= j < node.agg_calls@.len() ==> call_wf(#[trigger] node.agg_calls@[j]),
            r matches Ok(e) ==> e.wf() && e.agg_calls@ == node.agg_calls@ && e.keyspace@
                == executor_keyspace(executor_id) && !e.dirty && !e.loaded && e.prev_output is None
                && e.last_mutated_epoch is None && e.last_flushed_epoch is None && e.state
                == ExecutorState::Init && forall|j: int|
                0 <= j < node.agg_calls@.len() ==> (#[trigger] e.states@[j])@ == empty_state(),
    {
        let mut calls: Vec<AggCall> = Vec::new();
        let mut j: usize = 0;
        while j < node.agg_calls.len()
            invariant
                j <= node.agg_calls@.len(),
                calls@ == node.agg_calls@.take(j as int),
            decreases node.agg_calls@.len() - j,
        {
            calls.push(node.agg_calls[j]);
            j = j + 1;
            assert(calls@ =~= node.agg_calls@.take(j as int));
        }
        assert(calls@ =~= node.agg_calls@);
        let mut keyspace: Vec<u8> = Vec::new();
        keyspace.push(0x65u8);
        put_uint(&mut keyspace, executor_id, 8);
        assert(keyspace@ =~= executor_keyspace(executor_id));
        SimpleAggExecutor::new(calls, keyspace)
    }
}

/// A state whose stored form can be read back.
pub open spec fn state_fits(s: AggStateV) -> bool {
    in_i64(s.count) && in_i64(s.sum) && s.values.len() <= i64::MAX
}

pub open spec fn state_head(s: AggStateV) -> Seq<DatumV> {
    seq![
        Some(ScalarV::Int64(s.count as i64)),
        Some(ScalarV::Int64(s.sum as i64)),
        Some(ScalarV::Int64(s.values.len() as i64)),
    ]
}

pub open spec fn state_tail(s: AggStateV) -> Seq<DatumV> {
    s.values.map_values(|v: i64| Some(ScalarV::Int64(v)))
}

fn int64_types(n: usize) -> (r: Vec<DataType>)
    ensures
        r@.len() == n,
        forall|i: int| 0 <= i < n ==> r@[i] == DataType::Int64,
{
    let mut t: Vec<DataType> = Vec::new();
    let mut i: usize = 0;
    while i < n
        invariant
            i <= n,
            t@.len() == i,
            forall|j: int| 0 <= j < i ==> t@[j] == DataType::Int64,
        decreases n - i,
    {
        t.push(DataType::Int64);
        i = i + 1;
    }
    t
}

fn int64_of(d: &Datum) -> (r: Option<i64>)
    ensures
        r matches Some(x) ==> crate::types::datum_view(*d) == Some(ScalarV::Int64(x)),
        crate::types::datum_view(*d) matches Some(ScalarV::Int64(x)) ==> r == Some(x),
{
    match d {
        Some(Scalar::Int64(x)) => Some(*x),
        _ => None,
    }
}

/// The state whose stored form is `bytes`.
fn decode_state(bytes: &Vec<u8>) -> (r: Option<AggState>)
    ensures
        r matches Some(x) ==> enc_row(state_row(x@)) == bytes@ && state_fits(x@),
        forall|s: AggStateV| state_fits(s) && #[trigger] enc_row(state_row(s)) == bytes@ ==> (r matches Some(x)
            && x@ == s),
{
    let ghost f = |d: DatumV| crate::codec::enc_datum(d);
    let ghost buf = bytes@;
    proof {
        assert forall|s: AggStateV| state_fits(s) && #[trigger] enc_row(state_row(s)) == bytes@ implies holds_at(
            buf,
            0,
            enc_row(state_head(s)),
        ) && holds_at(buf, enc_row(state_head(s)).len() as int, enc_row(state_tail(s))) && enc_row(state_head(s)).len()
            + enc_row(state_tail(s)).len() == buf.len() by {
            assert(state_row(s) == state_head(s) + state_tail(s));
            crate::codec::lemma_enc_seq_concat(state_head(s), state_tail(s), f);
            assert(buf.subrange(0, buf.len() as int) =~= buf);
            crate::codec::lemma_holds_at_concat(buf, 0, enc_row(state_head(s)), enc_row(state_tail(s)));
        }
    }
    let t3 = int64_types(3);
    let (head, p) = match read_row(bytes, 0, &t3) {
        Some(x) => x,
        None => {
            return None;
        },
    };
    let count = match int64_of(&head[0]) {
        Some(x) => x,
        None => {
            return None;
        },
    };
    let sum = match int64_of(&head[1]) {
        Some(x) => x,
        None => {
            return None;
        },
    };
    let n = match int64_of(&head[2]) {
        Some(x) => x,
        None => {
            return None;
        },
    };
    proof {
        assert forall|s: AggStateV| state_fits(s) && #[trigger] enc_row(state_row(s)) == bytes@ implies count == s.count
            && sum == s.sum && n == s.values.len() && p == enc_row(state_head(s)).len() by {
            assert(datums_view(head@) == state_head(s));
        }
    }
    if n < 0 || n as u64 > bytes.len() as u64 {
        proof {
            assert forall|s: AggStateV| state_fits(s) && #[trigger] enc_row(state_row(s)) == bytes@ implies false by {
                crate::codec::lemma_enc_row_len(state_tail(s));
            }
        }
        return None;
    }
    let tn = int64_types(n as usize);
    let (vals, end) = match read_row(bytes, p, &tn) {
        Some(x) => x,
        None => {
            proof {
                assert forall|s: AggStateV| state_fits(s) && #[trigger] enc_row(state_row(s)) == bytes@ implies false by {
                    assert(forall|i: int| 0 <= i < state_tail(s).len() ==> datum_has_type(#[trigger] state_tail(s)[i], tn@[i]));
                }
            }
            return None;
        },
    };
    if end != bytes.len() {
        return None;
    }
    proof {
        assert forall|s: AggStateV| state_fits(s) && #[trigger] enc_row(state_row(s)) == bytes@ implies datums_view(vals@)
            == state_tail(s) by {
            assert(forall|i: int| 0 <= i < state_tail(s).len() ==> datum_has_type(#[trigger] state_tail(s)[i], tn@[i]));
        }
    }
    let mut values: Vec<i64> = Vec::new();
    let mut i: usize = 0;
    while i < vals.len()
        invariant
            i <= vals@.len(),
            vals@.len() == tn@.len(),
            forall|j: int| 0 <= j < vals@.len() ==> datum_has_type(#[trigger] datums_view(vals@)[j], tn@[j]),
            forall|j: int| 0 <= j < tn@.len() ==> tn@[j] == DataType::Int64,
            values@.len() == i,
            forall|j: int| 0 <= j < i ==> crate::types::datum_view(vals@[j]) == Some(ScalarV::Int64(#[trigger] values@[j])),
            forall|s: AggStateV| state_fits(s) && #[trigger] enc_row(state_row(s)) == bytes@ ==> datums_view(vals@)
                == state_tail(s),
        decreases vals@.len() - i,
    {
        assert(datums_view(vals@)[i as int] == crate::types::datum_view(vals@[i as int]));
        match int64_of(&vals[i]) {
            Some(x) => values.push(x),
            None => {
                proof {
                    assert forall|s: AggStateV| state_fits(s) && #[trigger] enc_row(state_row(s)) == bytes@ implies false by {
                        assert(datums_view(vals@)[i as int] == state_tail(s)[i as int]);
                    }
                }
                return None;
            },
        }
        i = i + 1;
    }
    let st = AggState { count, sum, values };
    proof {
        assert(state_head(st@) =~= datums_view(head@));
        assert(state_tail(st@) =~= datums_view(vals@));
        assert(state_row(st@) == state_head(st@) + state_tail(st@));
        crate::codec::lemma_enc_seq_concat(state_head(st@), state_tail(st@), f);
        crate::codec::lemma_holds_at_concat(buf, 0, enc_row(state_head(st@)), enc_row(state_tail(st@)));
        assert(buf.subrange(0, buf.len() as int) =~= buf);
        assert forall|s: AggStateV| state_fits(s) && #[trigger] enc_row(state_row(s)) == bytes@ implies st@ == s by {
            assert(forall|i: int| 0 <= i < state_tail(s).len() ==> datum_has_type(#[trigger] state_tail(s)[i], tn@[i]));
            assert(datums_view(vals@) == state_tail(s));
            assert forall|j: int| 0 <= j < s.values.len() implies values@[j] == s.values[j] by {
                assert(datums_view(vals@)[j] == state_tail(s)[j]);
            }
            assert(values@ =~= s.values);
        }
    }
    Some(st)
}

/// The state loaded for call `j`: the stored one, or an empty one if none is stored.
pub open spec fn loaded_state(stored: Option<Seq<u8>>, s: AggStateV) -> bool {
    match stored {
        None => s == empty_state(),
        Some(b) => enc_row(state_row(s)) == b && state_fits(s),
    }
}

/// The stored form of call `j`'s state as read at `epoch`.
pub open spec fn stored_state(log: Seq<crate::state_store::RecordV>, keyspace: Seq<u8>, j: int, epoch: u64) -> Option<
    Seq<u8>,
> {
    read_at(log, state_key(keyspace, j), epoch)
}

/// Every stored state among the first `n` calls' reads back as a state.
pub open spec fn load_ok(log: Seq<crate::state_store::RecordV>, keyspace: Seq<u8>, n: nat, epoch: u64) -> bool {
    forall|j: int|
        0 <= j < n ==> (#[trigger] stored_state(log, keyspace, j, epoch) matches Some(b) ==> exists|s: AggStateV|
            state_fits(s) && enc_row(state_row(s)) == b)
}

/// Some call's state is stored.
pub open spec fn any_stored(log: Seq<crate::state_store::RecordV>, keyspace: Seq<u8>, n: nat, epoch: u64) -> bool {
    exists|j: int| 0 <= j < n && #[trigger] stored_state(log, keyspace, j, epoch) is Some
}

impl SimpleAggExecutor {
    /// Loads every call's state as stored at `epoch`, or an empty one where
    /// none is stored; a stored value that is not a state is refused. Where
    /// some state was stored, its row counts as already emitted.
    pub fn load_states(&mut self, store: &MemoryStateStore, epoch: u64) -> (r: Result<(), StreamError>)
        requires
            old(self).wf(),
        ensures
            final(self).wf(),
            final(self).agg_calls == old(self).agg_calls,
            final(self).keyspace == old(self).keyspace,
            final(self).state == old(self).state,
            final(self).dirty == old(self).dirty,
            final(self).loaded == old(self).loaded,
            final(self).last_mutated_epoch == old(self).last_mutated_epoch,
            final(self).last_flushed_epoch == old(self).last_flushed_epoch,
            r is Ok <==> load_ok(records_view(store.log@), old(self).keyspace@, old(self).agg_calls@.len(), epoch),
            r is Ok ==> forall|j: int|
                0 <= j < old(self).agg_calls@.len() ==> loaded_state(
                    stored_state(records_view(store.log@), old(self).keyspace@, j, epoch),
                    #[trigger] final(self).states@[j]@,
                ),
            r is Ok ==> forall|j: int, s: AggStateV|
                0 <= j < old(self).agg_calls@.len() && #[trigger] loaded_state(
                    stored_state(records_view(store.log@), old(self).keyspace@, j, epoch),
                    s,
                ) ==> final(self).states@[j]@ == s,
            r is Ok ==> if any_stored(records_view(store.log@), old(self).keyspace@, old(self).agg_calls@.len(), epoch) {
                prev_view(final(self).prev_output) == Some(
                    output_row(old(self).agg_calls@, states_view(final(self).states@)),
                )
            } else {
                final(self).prev_output == old(self).prev_output
            },
    {
        let ghost log = records_view(store.log@);
        let mut loaded: Vec<AggState> = Vec::new();
        let mut found = false;
        let mut j: usize = 0;
        while j < self.agg_calls.len()
            invariant
                self.wf(),
                *self == *old(self),
                log == records_view(store.log@),
                j <= self.agg_calls@.len(),
                loaded@.len() == j,
                forall|x: int|
                    0 <= x < j ==> loaded_state(stored_state(log, self.keyspace@, x, epoch), #[trigger] loaded@[x]@),
                forall|x: int, s: AggStateV|
                    0 <= x < j && #[trigger] loaded_state(stored_state(log, self.keyspace@, x, epoch), s) ==> loaded@[x]@
                        == s,
                load_ok(log, self.keyspace@, j as nat, epoch),
                found <==> any_stored(log, self.keyspace@, j as nat, epoch),
            decreases self.agg_calls@.len() - j,
        {
            let mut key = self.keyspace.clone();
            assert(key@ =~= self.keyspace@);
            put_uint(&mut key, j as u64, 4);
            assert(key@ == state_key(self.keyspace@, j as int));
            match store.point_read(&key, epoch) {
                None => loaded.push(AggState::new()),
                Some(bytes) => {
                    match decode_state(&bytes) {
                        Some(s) => {
                            loaded.push(s);
                            found = true;
                        },
                        None => {
                            proof {
                                assert(!load_ok(log, self.keyspace@, self.agg_calls@.len(), epoch)) by {
                                    assert(stored_state(log, self.keyspace@, j as int, epoch) == Some(bytes@));
                                }
                            }
                            return Err(StreamError::Malformed);
                        },
                    }
                },
            }
            proof {
                assert forall|x: int| 0 <= x < j + 1 implies (#[trigger] stored_state(log, self.keyspace@, x, epoch) matches Some(
                    b,
                ) ==> exists|s: AggStateV| state_fits(s) && enc_row(state_row(s)) == b) by {
                    if x < j {
                        assert(load_ok(log, self.keyspace@, j as nat, epoch));
                    } else {
                        assert(loaded_state(stored_state(log, self.keyspace@, x, epoch), loaded@[x]@));
                    }
                }
                if stored_state(log, self.keyspace@, j as int, epoch) is Some {
                    assert(any_stored(log, self.keyspace@, (j + 1) as nat, epoch));
                }
                if any_stored(log, self.keyspace@, (j + 1) as nat, epoch) {
                    let x = choose|x: int| 0 <= x < j + 1 && #[trigger] stored_state(log, self.keyspace@, x, epoch) is Some;
                    if x < j {
                        assert(any_stored(log, self.keyspace@, j as nat, epoch));
                    }
                }
            }
            j = j + 1;
        }
        self.states = loaded;
        if found {
            let v = self.output_values();
            assert(v@.len() == ints_view(v@).len());
            self.prev_output = Some(v);
        }
        Ok(())
    }
}

/// The facts that a first chunk's load and fold establish, as stated by
/// `chunk_folded` on success.
proof fn lemma_chunk_folded_fresh(
    e: SimpleAggExecutor,
    mid: SimpleAggExecutor,
    f: SimpleAggExecutor,
    log: Seq<crate::state_store::RecordV>,
    c: ChunkV,
)
    requires
        !e.loaded,
        e.state is Active,
        mid.agg_calls == e.agg_calls,
        mid.keyspace == e.keyspace,
        mid.states@.len() == e.agg_calls@.len(),
        load_ok(log, e.keyspace@, e.agg_calls@.len(), e.state->Active_0),
        forall|j: int, s: AggStateV|
            0 <= j < e.agg_calls@.len() && #[trigger] loaded_state(
                stored_state(log, e.keyspace@, j, e.state->Active_0),
                s,
            ) ==> mid.states@[j]@ == s,
        forall|j: int|
            0 <= j < e.agg_calls@.len() ==> loaded_state(
                stored_state(log, e.keyspace@, j, e.state->Active_0),
                #[trigger] mid.states@[j]@,
            ),
        if any_stored(log, e.keyspace@, e.agg_calls@.len(), e.state->Active_0) {
            prev_view(mid.prev_output) == Some(output_row(e.agg_calls@, states_view(mid.states@)))
        } else {
            mid.prev_output == e.prev_output
        },
        calls_fit(c, e.agg_calls@),
        forall|j: int|
            0 <= j < e.agg_calls@.len() ==> (#[trigger] agg_fold(mid.states@[j]@, c, e.agg_calls@[j], c.ops.len())) is Some,
        forall|j: int|
            0 <= j < e.agg_calls@.len() ==> Some((#[trigger] f.states@[j])@) == agg_fold(
                mid.states@[j]@,
                c,
                e.agg_calls@[j],
                c.ops.len(),
            ),
        f.agg_calls == e.agg_calls,
        f.keyspace == e.keyspace,
        f.prev_output == mid.prev_output,
        f.loaded && f.dirty && f.last_mutated_epoch == Some(e.state->Active_0) && f.state == e.state,
    ensures
        chunk_folded(e, log, c, true, f),
{
    let n = e.agg_calls@.len();
    let ks = e.keyspace@;
    let epoch = e.state->Active_0;
    assert forall|j: int, s: AggStateV|
        0 <= j < n && #[trigger] loaded_state(stored_state(log, ks, j, epoch), s) implies agg_fold(
            s,
            c,
            e.agg_calls@[j],
            c.ops.len(),
        ) is Some && Some(f.states@[j]@) == agg_fold(s, c, e.agg_calls@[j], c.ops.len()) by {
        assert(mid.states@[j]@ == s);
    }
    if any_stored(log, ks, n, epoch) {
        assert forall|l: Seq<AggStateV>|
            l.len() == n && (forall|j: int| 0 <= j < n ==> #[trigger] loaded_state(stored_state(log, ks, j, epoch), l[j]))
                implies prev_view(f.prev_output) == Some(output_row(e.agg_calls@, l)) by {
            assert forall|j: int| 0 <= j < n implies l[j] == states_view(mid.states@)[j] by {
                assert(loaded_state(stored_state(log, ks, j, epoch), l[j]));
            }
            assert(l =~= states_view(mid.states@));
        }
    }
}

/// A first chunk that fails after a successful load breaks the success
/// condition of `chunk_folded`.
proof fn lemma_chunk_failed_fresh(e: SimpleAggExecutor, mid: SimpleAggExecutor, log: Seq<crate::state_store::RecordV>, c: ChunkV)
    requires
        !e.loaded,
        e.state is Active,
        mid.agg_calls == e.agg_calls,
        mid.states@.len() == e.agg_calls@.len(),
        forall|j: int|
            0 <= j < e.agg_calls@.len() ==> loaded_state(
                stored_state(log, e.keyspace@, j, e.state->Active_0),
                #[trigger] mid.states@[j]@,
            ),
        !(calls_fit(c, e.agg_calls@) && forall|j: int|
            0 <= j < e.agg_calls@.len() ==> (#[trigger] agg_fold(mid.states@[j]@, c, e.agg_calls@[j], c.ops.len()))
                is Some),
    ensures
        !(calls_fit(c, e.agg_calls@) && forall|j: int, s: AggStateV|
            0 <= j < e.agg_calls@.len() && #[trigger] loaded_state(
                stored_state(log, e.keyspace@, j, e.state->Active_0),
                s,
            ) ==> agg_fold(s, c, e.agg_calls@[j], c.ops.len()) is Some),
{
    if calls_fit(c, e.agg_calls@) {
        let j = choose|j: int|
            0 <= j < e.agg_calls@.len() && !((#[trigger] agg_fold(mid.states@[j]@, c, e.agg_calls@[j], c.ops.len())) is Some);
        assert(loaded_state(stored_state(log, e.keyspace@, j, e.state->Active_0), mid.states@[j]@));
    }
}

/// The epochs at which the operator commits its states while handling
/// `msgs` successfully, from the given `dirty` flag and whether it is
/// `active`: the closing epoch `prev` of each barrier that finds a chunk
/// applied since the last one.
pub open spec fn agg_flushes(msgs: Seq<MessageV>, dirty: bool, active: bool) -> Seq<u64>
    decreases msgs.len(),
{
    if msgs.len() == 0 {
        Seq::empty()
    } else {
        match msgs[0] {
            MessageV::Chunk(_) => agg_flushes(msgs.drop_first(), dirty || active, active),
            MessageV::Barrier(b) => (if active && dirty {
                seq![b.epoch.prev]
            } else {
                Seq::empty()
            }) + agg_flushes(msgs.drop_first(), if active { false } else { dirty }, true),
        }
    }
}

impl SimpleAggExecutor {
    /// Handles the messages in order and returns everything it emits. When
    /// every step succeeds, the store committed exactly at the closing epoch
    /// of each barrier that found a chunk applied since the barrier before.
    pub fn run(&mut self, store: &mut MemoryStateStore, msgs: Vec<Message>) -> (r: Result<Vec<Message>, StreamError>)
        requires
            old(self).wf(),
            forall|i: int| 0 <= i < msgs@.len() ==> crate::actor::message_wf((#[trigger] msgs@[i])@),
        ensures
            final(self).wf(),
            r is Ok ==> final(store).ingested@ == old(store).ingested@ + agg_flushes(
                crate::materialize::messages_view(msgs@),
                old(self).dirty,
                old(self).state is Active,
            ),
    {
        let ghost all = crate::materialize::messages_view(msgs@);
        let n0 = msgs.len();
        assert(all.subrange(0, all.len() as int) =~= all);
        let mut rest = msgs;
        let mut out: Vec<Message> = Vec::new();
        let mut k: usize = 0;
        while rest.len() > 0
            invariant
                n0 == all.len(),
                self.wf(),
                k <= all.len(),
                crate::materialize::messages_view(rest@) == all.subrange(k as int, all.len() as int),
                forall|i: int| 0 <= i < rest@.len() ==> crate::actor::message_wf((#[trigger] rest@[i])@),
                old(store).ingested@ + agg_flushes(all, old(self).dirty, old(self).state is Active) == store.ingested@
                    + agg_flushes(all.subrange(k as int, all.len() as int), self.dirty, self.state is Active),
            decreases rest@.len(),
        {
            let ghost before = rest@;
            let ghost tail = all.subrange(k as int, all.len() as int);
            let ghost dirty = self.dirty;
            let ghost active = self.state is Active;
            let ghost ing = store.ingested@;
            let m = rest.remove(0);
            assert(m@ == crate::materialize::messages_view(before)[0]);
            assert(m@ == tail[0]);
            assert(tail.drop_first() =~= all.subrange(k + 1, all.len() as int));
            assert(crate::actor::message_wf(before[0]@));
            let ghost mv = m@;
            let mut emitted = match self.step(store, m) {
                Ok(x) => x,
                Err(e) => {
                    return Err(e);
                },
            };
            proof {
                match mv {
                    MessageV::Chunk(c) => {
                        assert(active);
                        assert(self.dirty);
                    },
                    MessageV::Barrier(b) => {
                        if active && dirty {
                            assert(ing.push(b.epoch.prev) =~= ing + seq![b.epoch.prev]);
                        } else {
                            assert(ing + Seq::<u64>::empty() =~= ing);
                        }
                    },
                }
            }
            out.append(&mut emitted);
            k = k + 1;
            assert(rest@ =~= before.subrange(1, before.len() as int));
            assert(crate::materialize::messages_view(rest@) =~= all.subrange(k as int, all.len() as int));
            assert forall|i: int| 0 <= i < rest@.len() implies crate::actor::message_wf((#[trigger] rest@[i])@) by {
                assert(rest@[i] == before[i + 1]);
            }
        }
        assert(all.subrange(k as int, all.len() as int) =~= Seq::<MessageV>::empty());
        assert(store.ingested@ + Seq::<u64>::empty() =~= store.ingested@);
        Ok(out)
    }
}

} // verus!
